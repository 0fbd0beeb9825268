use repo_analyser::path_map::PathMap;
use repo_analyser::path_order::path_less;
use repo_analyser::ranking::{entry_ranks_before, insert_ranked, RankEntry};

fn entry(key: u128, path: &str, index: usize) -> RankEntry {
    RankEntry { key, path: path.to_string(), index }
}

#[test]
fn paths_are_ordered_byte_by_byte() {
    assert!(path_less("a", "b"));
    assert!(!path_less("b", "a"));
    assert!(!path_less("a", "a"));
    assert!(path_less("", "a"));
    assert!(!path_less("", ""));
    assert!(path_less("src", "src/main.rs"));
    assert!(path_less("src/a.rs", "src/b.rs"));
    assert!(path_less("Z", "a"));
    assert!(path_less("a.rs", "a/b.rs"));
    assert!(path_less("z", "\u{e9}"));
    assert!(path_less("\u{e9}", "\u{4e2d}"));
    assert!(path_less("\u{ffff}", "\u{10000}"));
}

#[test]
fn path_order_agrees_with_the_order_of_strings() {
    let samples = ["", "a", "ab", "b", "a/b", "a.b", "\u{e9}", "\u{4e2d}\u{6587}", "~", "A"];
    for x in samples {
        for y in samples {
            assert_eq!(path_less(x, y), x < y);
        }
    }
}

#[test]
fn entries_rank_by_key_then_by_path() {
    assert!(entry_ranks_before(&entry(5, "z", 0), &entry(4, "a", 1)));
    assert!(!entry_ranks_before(&entry(4, "a", 1), &entry(5, "z", 0)));
    assert!(entry_ranks_before(&entry(4, "a", 1), &entry(4, "b", 0)));
    assert!(!entry_ranks_before(&entry(4, "b", 1), &entry(4, "a", 0)));
    assert!(!entry_ranks_before(&entry(4, "a", 1), &entry(4, "a", 0)));
}

#[test]
fn a_ranking_keeps_the_first_of_equal_entries() {
    let mut ranking: Vec<RankEntry> = Vec::new();
    for (i, (key, path)) in [(1, "m"), (3, "b"), (1, "a"), (3, "a"), (1, "m"), (2, "x")].iter().enumerate() {
        insert_ranked(&mut ranking, entry(*key, path, i));
    }
    let seen: Vec<(u128, &str, usize)> =
        ranking.iter().map(|e| (e.key, e.path.as_str(), e.index)).collect();
    assert_eq!(seen, vec![(3, "a", 3), (3, "b", 1), (2, "x", 5), (1, "a", 2), (1, "m", 0)]);
}

#[test]
fn a_path_map_gives_what_was_put_last() {
    let mut map = PathMap::new();
    let a = "a".to_string();
    let b = "b".to_string();
    assert!(!map.contains_key(&a));
    assert!(map.get(&a).is_none());
    map.insert(a.clone(), "x".to_string());
    map.insert(b.clone(), "y".to_string());
    assert_eq!(map.get(&a).map(|s| s.as_str()), Some("x"));
    assert_eq!(map.get(&b).map(|s| s.as_str()), Some("y"));
    map.insert(a.clone(), "z".to_string());
    assert_eq!(map.get(&a).map(|s| s.as_str()), Some("z"));
    assert_eq!(map.get(&b).map(|s| s.as_str()), Some("y"));
    assert!(map.contains_key(&a));
    assert!(!map.contains_key(&"c".to_string()));
}

#[test]
fn redirecting_changes_the_entries_that_give_the_old_path() {
    let mut map = PathMap::new();
    map.insert("a".to_string(), "m".to_string());
    map.insert("b".to_string(), "n".to_string());
    map.insert("c".to_string(), "m".to_string());
    map.redirect(&"m".to_string(), &"q".to_string());
    assert_eq!(map.get(&"a".to_string()).map(|s| s.as_str()), Some("q"));
    assert_eq!(map.get(&"b".to_string()).map(|s| s.as_str()), Some("n"));
    assert_eq!(map.get(&"c".to_string()).map(|s| s.as_str()), Some("q"));
    assert!(!map.contains_key(&"m".to_string()));
}

#[test]
fn a_path_map_counts_its_entries() {
    let mut map = PathMap::new();
    assert!(map.is_empty());
    assert_eq!(map.len(), 0);
    assert!(map.entries().is_empty());
    map.insert("a".to_string(), "x".to_string());
    map.insert("b".to_string(), "y".to_string());
    map.insert("a".to_string(), "z".to_string());
    assert!(!map.is_empty());
    assert_eq!(map.len(), 2);
    assert_eq!(
        map.entries(),
        vec![("a".to_string(), "z".to_string()), ("b".to_string(), "y".to_string())]
    );
}
