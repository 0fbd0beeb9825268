//! Walking through the pages of a listing that is fetched page by page.

use vstd::prelude::*;

verus! {

/// The page to fetch after `page`, on which `found` items were found: the
/// next one, or none where the page was empty, which ends the listing.
pub fn after_page(page: u32, found: usize) -> (next: Option<u32>)
    requires
        found == 0 || page < u32::MAX,
    ensures
        next == if found == 0 {
            None
        } else {
            Some((page + 1) as u32)
        },
{
    if found == 0 {
        None
    } else {
        Some(page + 1)
    }
}

} // verus!
