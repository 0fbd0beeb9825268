use repo_analyser::git_analyzer::diff_fits;
use repo_analyser::{CommitDiff, DeltaStatus, FileDelta, FileGraphBuilder, GitAnalyzer};

fn lines(added: usize, removed: usize) -> Vec<char> {
    let mut origins = vec![' '];
    origins.extend(std::iter::repeat('+').take(added));
    origins.extend(std::iter::repeat('-').take(removed));
    origins.push(' ');
    origins
}

fn modified(path: &str, added: usize, removed: usize) -> FileDelta {
    FileDelta {
        status: DeltaStatus::Modified,
        old_path: Some(path.to_string()),
        new_path: Some(path.to_string()),
        line_origins: lines(added, removed),
    }
}

fn added(path: &str, count: usize) -> FileDelta {
    FileDelta {
        status: DeltaStatus::Added,
        old_path: Some(path.to_string()),
        new_path: Some(path.to_string()),
        line_origins: lines(count, 0),
    }
}

fn deleted(path: &str, count: usize) -> FileDelta {
    FileDelta {
        status: DeltaStatus::Deleted,
        old_path: Some(path.to_string()),
        new_path: Some(path.to_string()),
        line_origins: lines(0, count),
    }
}

fn renamed(old: &str, new: &str, added: usize, removed: usize) -> FileDelta {
    FileDelta {
        status: DeltaStatus::Renamed,
        old_path: Some(old.to_string()),
        new_path: Some(new.to_string()),
        line_origins: if added + removed == 0 { Vec::new() } else { lines(added, removed) },
    }
}

fn commit(hash: &str, deltas: Vec<FileDelta>) -> CommitDiff {
    CommitDiff { hash: hash.to_string(), deltas }
}

fn seen(files: &[repo_analyser::ChangedFile]) -> Vec<(&str, u32, u32, bool)> {
    files.iter().map(|f| (f.path.as_str(), f.additions, f.deletions, f.is_deleted)).collect()
}

#[test]
fn a_new_analyzer_knows_no_rename() {
    let analyzer = GitAnalyzer::new("/tmp/repo".to_string());
    assert_eq!(analyzer.repo_path(), "/tmp/repo");
    assert!(!analyzer.get_rename_map().contains_key(&"a".to_string()));
    assert_eq!(analyzer.canonical_path(&"a".to_string()), "a");
}

#[test]
fn lines_are_counted_by_origin() {
    let mut analyzer = GitAnalyzer::new("repo".to_string());
    let deltas = vec![modified("a.rs", 3, 2), added("b.rs", 5), deleted("c.rs", 4)];
    assert!(diff_fits(&deltas));
    let files = analyzer.get_changed_files(&deltas);
    assert_eq!(
        seen(&files),
        vec![("a.rs", 3, 2, false), ("b.rs", 5, 0, false), ("c.rs", 0, 4, true)]
    );
}

#[test]
fn a_path_split_over_entries_is_one_change() {
    let mut analyzer = GitAnalyzer::new("repo".to_string());
    let deltas = vec![modified("a.rs", 3, 2), modified("b.rs", 1, 1), modified("a.rs", 10, 20)];
    let files = analyzer.get_changed_files(&deltas);
    assert_eq!(seen(&files), vec![("a.rs", 13, 22, false), ("b.rs", 1, 1, false)]);
}

#[test]
fn an_entry_without_new_path_is_no_change() {
    let mut analyzer = GitAnalyzer::new("repo".to_string());
    let deltas = vec![FileDelta {
        status: DeltaStatus::Deleted,
        old_path: Some("gone.rs".to_string()),
        new_path: None,
        line_origins: lines(0, 2),
    }];
    assert!(analyzer.get_changed_files(&deltas).is_empty());
    assert!(analyzer.get_changed_files(&Vec::new()).is_empty());
}

#[test]
fn other_origins_are_not_counted() {
    let mut analyzer = GitAnalyzer::new("repo".to_string());
    let deltas = vec![FileDelta {
        status: DeltaStatus::Modified,
        old_path: Some("a".to_string()),
        new_path: Some("a".to_string()),
        line_origins: vec![' ', '+', '=', '>', '<', '-', '-', 'H', 'F', 'B', '+'],
    }];
    assert_eq!(seen(&analyzer.get_changed_files(&deltas)), vec![("a", 2, 2, false)]);
}

#[test]
fn a_rename_is_noted_before_the_paths_are_resolved() {
    let mut analyzer = GitAnalyzer::new("repo".to_string());
    let deltas = vec![renamed("old.py", "new.py", 0, 0), modified("z.py", 1, 0)];
    let files = analyzer.get_changed_files(&deltas);
    assert_eq!(seen(&files), vec![("new.py", 0, 0, false), ("z.py", 1, 0, false)]);
    let renames = analyzer.get_rename_map();
    assert_eq!(renames.get(&"old.py".to_string()).map(|s| s.as_str()), Some("new.py"));
    assert!(!renames.contains_key(&"new.py".to_string()));
    assert_eq!(analyzer.canonical_path(&"old.py".to_string()), "new.py");
    assert_eq!(analyzer.canonical_path(&"new.py".to_string()), "new.py");
    assert_eq!(analyzer.canonical_path(&"z.py".to_string()), "z.py");
}

#[test]
fn old_names_lead_to_the_latest_name() {
    let mut analyzer = GitAnalyzer::new("repo".to_string());
    analyzer.get_changed_files(&vec![renamed("a", "b", 0, 0)]);
    analyzer.get_changed_files(&vec![renamed("b", "c", 1, 1)]);
    assert_eq!(analyzer.canonical_path(&"a".to_string()), "c");
    assert_eq!(analyzer.canonical_path(&"b".to_string()), "c");
    assert_eq!(analyzer.canonical_path(&"c".to_string()), "c");
    let files = analyzer.get_changed_files(&vec![modified("a", 2, 0), modified("c", 1, 0)]);
    assert_eq!(seen(&files), vec![("c", 2, 0, false), ("c", 1, 0, false)]);
    let renames = analyzer.get_rename_map();
    assert_eq!(renames.get(&"a".to_string()).map(|s| s.as_str()), Some("b"));
    assert_eq!(renames.get(&"b".to_string()).map(|s| s.as_str()), Some("c"));
}

#[test]
fn a_rename_back_is_followed() {
    let mut analyzer = GitAnalyzer::new("repo".to_string());
    analyzer.get_changed_files(&vec![renamed("a", "b", 0, 0)]);
    analyzer.get_changed_files(&vec![renamed("b", "a", 0, 0)]);
    assert_eq!(analyzer.canonical_path(&"a".to_string()), "a");
    assert_eq!(analyzer.canonical_path(&"b".to_string()), "a");
}

#[test]
fn rename_then_change_is_one_node_with_two_commits() {
    let mut analyzer = GitAnalyzer::new("repo".to_string());
    let history = vec![
        commit("c1", vec![added("x.txt", 1)]),
        commit("c2", vec![modified("x.txt", 1, 0)]),
        commit("c3", vec![modified("x.txt", 1, 0)]),
        commit("c4", vec![modified("x.txt", 1, 0)]),
        commit("c5", vec![renamed("a.txt", "b.txt", 0, 0)]),
        commit("c6", vec![modified("x.txt", 1, 0)]),
        commit("c7", vec![modified("b.txt", 2, 1)]),
    ];
    let graph = analyzer.analyze("repo".to_string(), &history).unwrap();
    assert_eq!(graph.total_commits_analyzed, 7);
    let era = &graph.eras[0];
    let paths: Vec<(&str, u32)> = era.nodes.iter().map(|n| (n.path.as_str(), n.commit_count)).collect();
    assert_eq!(paths, vec![("x.txt", 5), ("b.txt", 2)]);
    assert!(era.nodes.iter().all(|n| n.path != "a.txt"));
}

#[test]
fn a_change_under_the_old_name_goes_to_the_new_name() {
    let mut analyzer = GitAnalyzer::new("repo".to_string());
    let history = vec![
        commit("c1", vec![renamed("a.txt", "b.txt", 1, 0)]),
        commit("c2", vec![modified("a.txt", 2, 0)]),
    ];
    let graph = analyzer.analyze("repo".to_string(), &history).unwrap();
    let era = &graph.eras[0];
    assert_eq!(era.nodes.len(), 1);
    assert_eq!(era.nodes[0].path, "b.txt");
    assert_eq!(era.nodes[0].commit_count, 2);
    assert_eq!(era.nodes[0].additions, 3);
}

#[test]
fn a_pure_rename_beside_a_change_links_the_new_name() {
    let mut analyzer = GitAnalyzer::new("repo".to_string());
    let history = vec![commit("c1", vec![renamed("old.py", "new.py", 0, 0), modified("z.py", 3, 1)])];
    let graph = analyzer.analyze("repo".to_string(), &history).unwrap();
    let era = &graph.eras[0];
    let nodes: Vec<(&str, u32, u32, u32)> = era
        .nodes
        .iter()
        .map(|n| (n.path.as_str(), n.commit_count, n.additions, n.deletions))
        .collect();
    assert_eq!(nodes, vec![("new.py", 1, 0, 0), ("z.py", 1, 3, 1)]);
    assert_eq!(era.nodes[0].edges.len(), 1);
    assert_eq!(era.nodes[0].edges[0].target, "z.py");
    assert_eq!(era.nodes[0].edges[0].weight, 1);
    assert_eq!(era.nodes[1].edges.len(), 1);
    assert_eq!(era.nodes[1].edges[0].target, "new.py");
    assert_eq!(era.nodes[1].edges[0].weight, 1);
}

#[test]
fn commits_without_changes_are_not_counted() {
    let mut analyzer = GitAnalyzer::new("repo".to_string());
    let history = vec![
        commit("c1", vec![added("a", 1)]),
        commit("c2", Vec::new()),
        commit("c3", vec![modified("a", 1, 1)]),
        commit("c4", Vec::new()),
    ];
    let graph = analyzer.analyze("name".to_string(), &history).unwrap();
    assert_eq!(graph.repo, "name");
    assert_eq!(graph.total_commits_analyzed, 2);
    assert_eq!(graph.eras.len(), 1);
    assert_eq!(graph.eras[0].commits_in_era, 2);
}

#[test]
fn an_empty_history_gives_one_empty_era() {
    let mut analyzer = GitAnalyzer::new("repo".to_string());
    let graph = analyzer.analyze("name".to_string(), &Vec::new()).unwrap();
    assert_eq!(graph.total_commits_analyzed, 0);
    assert_eq!(graph.eras.len(), 1);
    assert!(graph.eras[0].nodes.is_empty());
}

#[test]
fn the_hash_of_the_closing_commit_names_the_next_era() {
    let mut analyzer = GitAnalyzer::new("repo".to_string());
    let mut history = Vec::new();
    for i in 0..10 {
        let deltas = (0..10).map(|k| modified(&format!("f{}", k), 1, 0)).collect();
        history.push(commit(&format!("c{}", i), deltas));
    }
    history.push(commit("closing", (0..4).map(|k| deleted(&format!("f{}", k), 2)).collect()));
    history.push(commit("after", vec![added("g", 1)]));
    let graph = analyzer.analyze("repo".to_string(), &history).unwrap();
    assert_eq!(graph.total_commits_analyzed, 12);
    assert_eq!(graph.eras.len(), 2);
    assert_eq!(graph.eras[0].commits_in_era, 11);
    assert_eq!(graph.eras[1].reset_commit.as_deref(), Some("closing"));
    assert_eq!(graph.eras[1].commits_in_era, 1);
}

#[test]
fn a_step_without_room_is_refused() {
    let mut analyzer = GitAnalyzer::new("repo".to_string());
    let mut builder = FileGraphBuilder::new("repo".to_string());
    let full = [repo_analyser::ChangedFile {
        path: "a".to_string(),
        additions: u32::MAX,
        deletions: 0,
        is_deleted: false,
    }];
    assert!(builder.can_add_commit(&full));
    builder.add_commit(&full, Some("c0"));
    assert!(analyzer.take_commit(&mut builder, &commit("c1", vec![modified("b", 1, 0)])));
    assert!(analyzer.take_commit(&mut builder, &commit("c2", Vec::new())));
    assert!(!analyzer.take_commit(&mut builder, &commit("c3", vec![modified("a", 1, 0)])));
    let graph = builder.finalize();
    assert_eq!(graph.total_commits_analyzed, 2);
}

#[test]
fn two_paths_of_one_file_count_one_commit() {
    let mut analyzer = GitAnalyzer::new("repo".to_string());
    let history = vec![
        commit("c1", vec![renamed("a", "b", 1, 0)]),
        commit("c2", vec![modified("a", 2, 0), modified("b", 3, 1), modified("z", 1, 0)]),
    ];
    let graph = analyzer.analyze("repo".to_string(), &history).unwrap();
    let era = &graph.eras[0];
    let nodes: Vec<(&str, u32, u32, u32)> = era
        .nodes
        .iter()
        .map(|n| (n.path.as_str(), n.commit_count, n.additions, n.deletions))
        .collect();
    assert_eq!(nodes, vec![("b", 2, 6, 1), ("z", 1, 1, 0)]);
    assert_eq!(era.nodes[0].edges.len(), 1);
    assert_eq!(era.nodes[0].edges[0].weight, 1);
    assert_eq!(era.nodes[0].edges[0].target_commits, 1);
    assert_eq!(era.nodes[1].edges[0].target_commits, 2);
}

#[test]
fn the_rename_map_can_be_counted_and_listed() {
    let mut analyzer = GitAnalyzer::new("repo".to_string());
    assert!(analyzer.get_rename_map().is_empty());
    assert_eq!(analyzer.get_rename_map().len(), 0);
    analyzer.get_changed_files(&vec![renamed("a", "b", 0, 0), renamed("x", "y", 0, 0)]);
    analyzer.get_changed_files(&vec![renamed("a", "c", 0, 0)]);
    let renames = analyzer.get_rename_map();
    assert!(!renames.is_empty());
    assert_eq!(renames.len(), 2);
    let mut entries = renames.entries();
    entries.sort();
    assert_eq!(
        entries,
        vec![("a".to_string(), "c".to_string()), ("x".to_string(), "y".to_string())]
    );
}
