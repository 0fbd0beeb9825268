//! What the diff of a commit says: which paths changed, by how many lines,
//! which were deleted, and which files were renamed.

use vstd::prelude::*;
use crate::file_graph::ChangedFileView;
use crate::keys::has_key;
use crate::path_map::{redirected, resolve};

verus! {

/// How a file differs between a commit and its parent.
#[derive(Debug, Clone, Copy, PartialEq, Eq, Structural)]
pub enum DeltaStatus {
    Unmodified,
    Added,
    Deleted,
    Modified,
    Renamed,
    Copied,
    Ignored,
    Untracked,
    Typechange,
    Unreadable,
    Conflicted,
}

/// One entry of a diff, as the contracts see it.
pub struct FileDeltaView {
    pub status: DeltaStatus,
    pub old_path: Option<Seq<char>>,
    pub new_path: Option<Seq<char>>,
    pub line_origins: Seq<char>,
}

/// The origin of a line that the diff adds.
pub const ADDED_LINE: char = '+';

/// The origin of a line that the diff removes.
pub const REMOVED_LINE: char = '-';

/// The entry reports a rename: it has both paths, and they differ.
pub open spec fn is_rename(d: FileDeltaView) -> bool {
    d.old_path is Some && d.new_path is Some && d.old_path != d.new_path
}

/// The names after the file `old` was renamed to `new`: `old` and every
/// path that led to `old` lead to `new`, and `new` leads to itself.
pub open spec fn with_rename(
    names: Map<Seq<char>, Seq<char>>,
    old: Seq<char>,
    new: Seq<char>,
) -> Map<Seq<char>, Seq<char>> {
    redirected(names, old, new).insert(old, new).insert(new, new)
}

/// The names after the renames of a diff, in its order.
pub open spec fn names_after(
    names: Map<Seq<char>, Seq<char>>,
    deltas: Seq<FileDeltaView>,
) -> Map<Seq<char>, Seq<char>>
    decreases deltas.len(),
{
    if deltas.len() == 0 {
        names
    } else if is_rename(deltas.last()) {
        with_rename(
            names_after(names, deltas.drop_last()),
            deltas.last().old_path->0,
            deltas.last().new_path->0,
        )
    } else {
        names_after(names, deltas.drop_last())
    }
}

/// The record of renames after the renames of a diff, in its order.
pub open spec fn renames_after(
    renames: Map<Seq<char>, Seq<char>>,
    deltas: Seq<FileDeltaView>,
) -> Map<Seq<char>, Seq<char>>
    decreases deltas.len(),
{
    if deltas.len() == 0 {
        renames
    } else if is_rename(deltas.last()) {
        renames_after(renames, deltas.drop_last()).insert(
            deltas.last().old_path->0,
            deltas.last().new_path->0,
        )
    } else {
        renames_after(renames, deltas.drop_last())
    }
}

/// The paths that a diff changes: the new paths of its entries, each once,
/// in the order in which they first occur.
pub open spec fn changed_paths(deltas: Seq<FileDeltaView>) -> Seq<Seq<char>>
    decreases deltas.len(),
{
    if deltas.len() == 0 {
        Seq::empty()
    } else {
        let rest = changed_paths(deltas.drop_last());
        match deltas.last().new_path {
            Some(p) => if has_key(rest, p) {
                rest
            } else {
                rest.push(p)
            },
            None => rest,
        }
    }
}

/// The paths that a diff deletes: the old paths of its deleted entries.
pub open spec fn deleted_in(deltas: Seq<FileDeltaView>) -> Seq<Seq<char>>
    decreases deltas.len(),
{
    if deltas.len() == 0 {
        Seq::empty()
    } else {
        let rest = deleted_in(deltas.drop_last());
        if deltas.last().status == DeltaStatus::Deleted && deltas.last().old_path is Some {
            rest.push(deltas.last().old_path->0)
        } else {
            rest
        }
    }
}

/// How many of the lines have the origin `c`.
pub open spec fn count_origin(lines: Seq<char>, c: char) -> nat
    decreases lines.len(),
{
    if lines.len() == 0 {
        0
    } else {
        count_origin(lines.drop_last(), c) + if lines.last() == c {
            1nat
        } else {
            0nat
        }
    }
}

/// How many lines of origin `c` the diff has for the new path `p`.
pub open spec fn lines_of(deltas: Seq<FileDeltaView>, p: Seq<char>, c: char) -> nat
    decreases deltas.len(),
{
    if deltas.len() == 0 {
        0
    } else {
        lines_of(deltas.drop_last(), p, c) + if deltas.last().new_path == Some(p) {
            count_origin(deltas.last().line_origins, c)
        } else {
            0
        }
    }
}

/// The change of the path `p`, as the diff has it, under the name that
/// `names` gives to `p`.
pub open spec fn change_of(
    names: Map<Seq<char>, Seq<char>>,
    deltas: Seq<FileDeltaView>,
    p: Seq<char>,
) -> ChangedFileView {
    ChangedFileView {
        path: resolve(names, p),
        additions: lines_of(deltas, p, ADDED_LINE),
        deletions: lines_of(deltas, p, REMOVED_LINE),
        is_deleted: has_key(deleted_in(deltas), p),
    }
}

/// The changes of a commit: one for each changed path, under its canonical
/// name once the renames of the commit are known.
pub open spec fn changes_of(
    names: Map<Seq<char>, Seq<char>>,
    deltas: Seq<FileDeltaView>,
) -> Seq<ChangedFileView> {
    let paths = changed_paths(deltas);
    let known = names_after(names, deltas);
    Seq::new(paths.len(), |i: int| change_of(known, deltas, paths[i]))
}

/// No changed path of the diff has more added or removed lines than a
/// `u32` counts.
pub open spec fn lines_fit(deltas: Seq<FileDeltaView>) -> bool {
    forall|i: int|
        0 <= i < changed_paths(deltas).len() ==> {
            let p = #[trigger] changed_paths(deltas)[i];
            lines_of(deltas, p, ADDED_LINE) <= u32::MAX && lines_of(deltas, p, REMOVED_LINE)
                <= u32::MAX
        }
}

/// Every name that `names` gives leads to itself: resolving twice is
/// resolving once.
pub open spec fn settled(names: Map<Seq<char>, Seq<char>>) -> bool {
    forall|k: Seq<char>| names.contains_key(k) ==> #[trigger] resolve(names, names[k]) == names[k]
}

/// A rename keeps the names settled.
pub proof fn lemma_with_rename_settled(
    names: Map<Seq<char>, Seq<char>>,
    old: Seq<char>,
    new: Seq<char>,
)
    requires
        settled(names),
        old != new,
    ensures
        settled(with_rename(names, old, new)),
        resolve(with_rename(names, old, new), old) == new,
        resolve(with_rename(names, old, new), new) == new,
        forall|k: Seq<char>|
            resolve(names, k) == old ==> #[trigger] resolve(with_rename(names, old, new), k)
                == new,
{
    let after = with_rename(names, old, new);
    assert forall|k: Seq<char>| after.contains_key(k) implies #[trigger] resolve(after, after[k])
        == after[k] by {
        let v = after[k];
        if v != new {
            assert(names.contains_key(k) && names[k] == v);
            assert(resolve(names, names[k]) == names[k]);
        }
    }
}

/// The renames of a diff keep the names settled.
pub proof fn lemma_names_after_settled(
    names: Map<Seq<char>, Seq<char>>,
    deltas: Seq<FileDeltaView>,
)
    requires
        settled(names),
    ensures
        settled(names_after(names, deltas)),
    decreases deltas.len(),
{
    if deltas.len() > 0 {
        lemma_names_after_settled(names, deltas.drop_last());
        if is_rename(deltas.last()) {
            lemma_with_rename_settled(
                names_after(names, deltas.drop_last()),
                deltas.last().old_path->0,
                deltas.last().new_path->0,
            );
        }
    }
}

} // verus!
