use repo_analyser::paging::after_page;

#[test]
fn an_empty_page_ends_the_listing() {
    assert_eq!(after_page(1, 0), None);
    assert_eq!(after_page(7, 0), None);
    assert_eq!(after_page(u32::MAX, 0), None);
}

#[test]
fn a_page_with_items_is_followed_by_the_next() {
    assert_eq!(after_page(1, 20), Some(2));
    assert_eq!(after_page(41, 1), Some(42));
    assert_eq!(after_page(u32::MAX - 1, 3), Some(u32::MAX));
}
