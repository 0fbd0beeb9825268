use repo_analyser::{ChangedFile, Era, FileGraph, FileGraphBuilder};

fn change(path: &str, additions: u32, deletions: u32) -> ChangedFile {
    ChangedFile { path: path.to_string(), additions, deletions, is_deleted: false }
}

fn deletion(path: &str) -> ChangedFile {
    ChangedFile { path: path.to_string(), additions: 0, deletions: 3, is_deleted: true }
}

fn add(builder: &mut FileGraphBuilder, files: &[ChangedFile], hash: &str) {
    assert!(builder.can_add_commit(files));
    builder.add_commit(files, Some(hash));
}

fn ten_files() -> Vec<ChangedFile> {
    (0..10).map(|i| change(&format!("f{}.rs", i), 1, 0)).collect()
}

fn weight(era: &Era, from: &str, to: &str) -> u32 {
    era.nodes
        .iter()
        .filter(|n| n.path == from)
        .flat_map(|n| n.edges.iter())
        .filter(|e| e.target == to)
        .map(|e| e.weight)
        .sum()
}

fn total_weight(era: &Era) -> u64 {
    era.nodes.iter().flat_map(|n| n.edges.iter()).map(|e| e.weight as u64).sum()
}

fn check_symmetric(graph: &FileGraph) {
    for era in &graph.eras {
        for node in &era.nodes {
            for edge in &node.edges {
                assert_ne!(edge.target, node.path);
                assert_eq!(weight(era, &edge.target, &node.path), edge.weight);
                let target = era.nodes.iter().find(|n| n.path == edge.target);
                assert_eq!(target.map(|n| n.commit_count), Some(edge.target_commits));
            }
        }
    }
}

#[test]
fn new_graph_is_empty() {
    let graph = FileGraph::new("demo".to_string());
    assert_eq!(graph.repo, "demo");
    assert_eq!(graph.total_commits_analyzed, 0);
    assert!(graph.eras.is_empty());
}

#[test]
fn new_builder_hands_out_one_empty_era() {
    let graph = FileGraphBuilder::new("demo".to_string()).finalize();
    assert_eq!(graph.repo, "demo");
    assert_eq!(graph.total_commits_analyzed, 0);
    assert_eq!(graph.eras.len(), 1);
    assert_eq!(graph.eras[0].era_index, 0);
    assert_eq!(graph.eras[0].commits_in_era, 0);
    assert!(graph.eras[0].reset_commit.is_none());
    assert!(graph.eras[0].nodes.is_empty());
}

#[test]
fn three_commits_give_two_links() {
    let mut builder = FileGraphBuilder::new("demo".to_string());
    add(&mut builder, &[change("a.go", 10, 0), change("b.go", 5, 0)], "c1");
    add(&mut builder, &[change("a.go", 2, 1)], "c2");
    add(&mut builder, &[change("b.go", 1, 1), change("c.go", 7, 0)], "c3");
    let graph = builder.finalize();
    assert_eq!(graph.total_commits_analyzed, 3);
    assert_eq!(graph.eras.len(), 1);
    let era = &graph.eras[0];
    assert_eq!(era.commits_in_era, 3);
    let seen: Vec<(&str, u32, u32, u32)> = era
        .nodes
        .iter()
        .map(|n| (n.path.as_str(), n.commit_count, n.additions, n.deletions))
        .collect();
    assert_eq!(seen, vec![("a.go", 2, 12, 1), ("b.go", 2, 6, 1), ("c.go", 1, 7, 0)]);
    let links = |i: usize| -> Vec<(&str, u32, u32)> {
        era.nodes[i].edges.iter().map(|e| (e.target.as_str(), e.weight, e.target_commits)).collect()
    };
    assert_eq!(links(0), vec![("b.go", 1, 2)]);
    assert_eq!(links(1), vec![("a.go", 1, 2), ("c.go", 1, 1)]);
    assert_eq!(links(2), vec![("b.go", 1, 2)]);
    check_symmetric(&graph);
}

#[test]
fn single_file_commit_adds_no_edge() {
    let mut builder = FileGraphBuilder::new("demo".to_string());
    add(&mut builder, &[change("only.rs", 4, 2)], "c1");
    let graph = builder.finalize();
    assert_eq!(graph.eras[0].nodes.len(), 1);
    assert!(graph.eras[0].nodes[0].edges.is_empty());
    assert_eq!(graph.eras[0].nodes[0].additions, 4);
    assert_eq!(graph.eras[0].nodes[0].deletions, 2);
}

#[test]
fn a_path_given_twice_is_counted_and_linked_once() {
    let mut builder = FileGraphBuilder::new("demo".to_string());
    add(&mut builder, &[change("a.rs", 1, 2), change("b.rs", 5, 0), change("a.rs", 10, 20)], "c1");
    let graph = builder.finalize();
    let era = &graph.eras[0];
    let a = era.nodes.iter().find(|n| n.path == "a.rs").unwrap();
    assert_eq!((a.additions, a.deletions, a.commit_count), (11, 22, 1));
    assert_eq!(a.edges.len(), 1);
    assert_eq!(weight(era, "a.rs", "b.rs"), 1);
    assert_eq!(weight(era, "b.rs", "a.rs"), 1);
    assert_eq!(weight(era, "a.rs", "a.rs"), 0);
    assert_eq!(total_weight(era), 2);
}

#[test]
fn a_file_is_counted_once_for_each_commit() {
    let one = |p: &str| ChangedFile { path: p.into(), additions: 1, deletions: 0, is_deleted: false };
    let mut builder = FileGraphBuilder::new("r".into());
    add(&mut builder, &[one("a"), one("a"), one("b")], "h1");
    let graph = builder.finalize();
    let node = |p: &str| graph.eras[0].nodes.iter().find(|n| n.path == p).unwrap();
    assert_eq!(graph.eras[0].nodes.len(), 2);
    assert_eq!(node("a").commit_count, 1);
    assert_eq!(node("a").additions, 2);
    assert_eq!(node("a").edges.len(), 1);
    assert_eq!(node("a").edges[0].target, "b");
    assert_eq!(node("a").edges[0].weight, 1);
    assert_eq!(node("a").edges[0].target_commits, 1);
    assert_eq!(node("b").edges.len(), 1);
    assert_eq!(node("b").edges[0].weight, 1);
    assert_eq!(node("b").edges[0].target_commits, 1);
}

#[test]
fn counts_and_weights_stay_within_the_commits_of_the_era() {
    let mut builder = FileGraphBuilder::new("demo".to_string());
    add(&mut builder, &[change("a", 1, 0), change("a", 1, 0), change("b", 1, 0)], "c1");
    add(&mut builder, &[change("b", 1, 0), change("a", 1, 0), change("b", 1, 0)], "c2");
    add(&mut builder, &[change("a", 1, 0), change("a", 1, 0)], "c3");
    let graph = builder.finalize();
    let era = &graph.eras[0];
    assert_eq!(era.commits_in_era, 3);
    for node in &era.nodes {
        assert!(1 <= node.commit_count && node.commit_count <= era.commits_in_era);
        for edge in &node.edges {
            assert!(1 <= edge.weight && edge.weight <= node.commit_count);
            assert!(edge.weight <= edge.target_commits);
        }
    }
    let counts: Vec<(&str, u32)> = era.nodes.iter().map(|n| (n.path.as_str(), n.commit_count)).collect();
    assert_eq!(counts, vec![("a", 3), ("b", 2)]);
    assert_eq!(weight(era, "a", "b"), 2);
}

#[test]
fn a_commit_of_n_files_adds_n_choose_two_links() {
    let mut builder = FileGraphBuilder::new("demo".to_string());
    add(&mut builder, &[change("a", 1, 0), change("b", 1, 0)], "c1");
    let before = 2u64;
    add(&mut builder, &[change("d", 1, 0), change("a", 1, 0), change("c", 1, 0), change("b", 1, 0)], "c2");
    let graph = builder.finalize();
    let era = &graph.eras[0];
    assert_eq!(total_weight(era), before + 2 * (4 * 3 / 2));
    assert_eq!(weight(era, "a", "b"), 2);
    assert_eq!(weight(era, "c", "d"), 1);
    check_symmetric(&graph);
}

#[test]
fn links_are_made_in_the_order_of_paths() {
    let mut builder = FileGraphBuilder::new("demo".to_string());
    add(&mut builder, &[change("m", 1, 0), change("z", 1, 0), change("a", 1, 0)], "c1");
    let graph = builder.finalize();
    let m = graph.eras[0].nodes.iter().find(|n| n.path == "m").unwrap();
    let targets: Vec<&str> = m.edges.iter().map(|e| e.target.as_str()).collect();
    assert_eq!(targets, vec!["a", "z"]);
}

#[test]
fn nodes_with_equal_counts_stand_by_path() {
    let mut builder = FileGraphBuilder::new("demo".to_string());
    add(&mut builder, &[change("b/x", 1, 0), change("a", 1, 0), change("b", 1, 0)], "c1");
    add(&mut builder, &[change("zz", 1, 0)], "c2");
    add(&mut builder, &[change("zz", 1, 0)], "c3");
    let graph = builder.finalize();
    let paths: Vec<&str> = graph.eras[0].nodes.iter().map(|n| n.path.as_str()).collect();
    assert_eq!(paths, vec!["zz", "a", "b", "b/x"]);
}

#[test]
fn target_commits_is_the_count_at_the_end() {
    let mut builder = FileGraphBuilder::new("demo".to_string());
    add(&mut builder, &[change("a", 1, 0), change("b", 1, 0)], "c1");
    add(&mut builder, &[change("b", 1, 0)], "c2");
    add(&mut builder, &[change("b", 1, 0)], "c3");
    let graph = builder.finalize();
    let a = graph.eras[0].nodes.iter().find(|n| n.path == "a").unwrap();
    assert_eq!(a.edges[0].target_commits, 3);
    assert_eq!(a.edges[0].weight, 1);
}

#[test]
fn deleted_files_are_listed_in_order() {
    let builder = FileGraphBuilder::new("demo".to_string());
    let files = vec![deletion("x"), change("y", 1, 1), deletion("a"), deletion("x")];
    assert_eq!(builder.get_deleted_files(&files), vec!["x", "a", "x"]);
    assert!(builder.get_deleted_files(&[]).is_empty());
}

#[test]
fn top_files_go_by_weight_then_by_path() {
    let mut builder = FileGraphBuilder::new("demo".to_string());
    add(&mut builder, &[change("b", 1, 0), change("a", 1, 0), change("c", 1, 0)], "c1");
    add(&mut builder, &[change("c", 1, 0), change("d", 1, 0)], "c2");
    add(&mut builder, &[change("lonely", 1, 0)], "c3");
    assert_eq!(builder.get_top_10_files(), vec!["c", "a", "b", "d", "lonely"]);
}

#[test]
fn top_files_are_at_most_ten() {
    let mut builder = FileGraphBuilder::new("demo".to_string());
    let files: Vec<ChangedFile> = (0..12).map(|i| change(&format!("f{:02}", i), 1, 0)).collect();
    add(&mut builder, &files, "c1");
    add(&mut builder, &[change("f11", 1, 0), change("f10", 1, 0)], "c2");
    let top = builder.get_top_10_files();
    assert_eq!(top.len(), 10);
    assert_eq!(top[0], "f10");
    assert_eq!(top[1], "f11");
    assert_eq!(top[2], "f00");
    assert_eq!(top[9], "f07");
}

#[test]
fn four_deleted_top_files_close_an_era_of_eleven_commits() {
    let mut builder = FileGraphBuilder::new("demo".to_string());
    for i in 0..10 {
        add(&mut builder, &ten_files(), &format!("c{}", i + 1));
    }
    let closing = vec![deletion("f0.rs"), deletion("f1.rs"), deletion("f2.rs"), deletion("f3.rs")];
    assert!(builder.should_start_new_era(&closing));
    add(&mut builder, &closing, "c11");
    add(&mut builder, &[change("new.rs", 1, 0)], "c12");
    let graph = builder.finalize();
    assert_eq!(graph.total_commits_analyzed, 12);
    assert_eq!(graph.eras.len(), 2);
    assert_eq!(graph.eras[0].era_index, 0);
    assert_eq!(graph.eras[0].commits_in_era, 11);
    assert!(graph.eras[0].reset_commit.is_none());
    assert_eq!(graph.eras[0].nodes.len(), 10);
    assert_eq!(graph.eras[0].nodes[0].path, "f0.rs");
    assert_eq!(graph.eras[0].nodes[0].commit_count, 11);
    assert_eq!(graph.eras[0].nodes[0].deletions, 3);
    assert_eq!(weight(&graph.eras[0], "f0.rs", "f1.rs"), 11);
    assert_eq!(weight(&graph.eras[0], "f0.rs", "f9.rs"), 10);
    assert_eq!(graph.eras[1].era_index, 1);
    assert_eq!(graph.eras[1].commits_in_era, 1);
    assert_eq!(graph.eras[1].reset_commit.as_deref(), Some("c11"));
    assert_eq!(graph.eras[1].nodes.len(), 1);
    assert_eq!(graph.eras[1].nodes[0].path, "new.rs");
    check_symmetric(&graph);
}

#[test]
fn an_era_of_ten_commits_is_not_closed() {
    let mut builder = FileGraphBuilder::new("demo".to_string());
    for i in 0..9 {
        add(&mut builder, &ten_files(), &format!("c{}", i + 1));
    }
    let closing = vec![deletion("f0.rs"), deletion("f1.rs"), deletion("f2.rs"), deletion("f3.rs")];
    add(&mut builder, &closing, "c10");
    let graph = builder.finalize();
    assert_eq!(graph.eras.len(), 1);
    assert_eq!(graph.eras[0].commits_in_era, 10);
}

#[test]
fn three_deleted_top_files_do_not_close_an_era() {
    let mut builder = FileGraphBuilder::new("demo".to_string());
    for i in 0..10 {
        add(&mut builder, &ten_files(), &format!("c{}", i + 1));
    }
    let files = vec![deletion("f0.rs"), deletion("f1.rs"), deletion("f2.rs"), change("f3.rs", 1, 1)];
    assert!(!builder.should_start_new_era(&files));
    add(&mut builder, &files, "c11");
    assert_eq!(builder.finalize().eras.len(), 1);
}

#[test]
fn an_era_of_nine_files_is_not_closed() {
    let mut builder = FileGraphBuilder::new("demo".to_string());
    let nine: Vec<ChangedFile> = ten_files().into_iter().take(9).collect();
    for i in 0..10 {
        add(&mut builder, &nine, &format!("c{}", i + 1));
    }
    let closing = vec![deletion("f0.rs"), deletion("f1.rs"), deletion("f2.rs"), deletion("f3.rs")];
    assert!(!builder.should_start_new_era(&closing));
    add(&mut builder, &closing, "c11");
    assert_eq!(builder.finalize().eras.len(), 1);
}

#[test]
fn deleted_files_outside_the_top_ten_do_not_count() {
    let mut builder = FileGraphBuilder::new("demo".to_string());
    for i in 0..10 {
        add(&mut builder, &ten_files(), &format!("c{}", i + 1));
    }
    let files = vec![deletion("x0"), deletion("x1"), deletion("x2"), deletion("x3"), deletion("f0.rs")];
    add(&mut builder, &files, "c11");
    assert_eq!(builder.finalize().eras.len(), 1);
}

#[test]
fn no_more_than_eleven_eras_exist() {
    let mut builder = FileGraphBuilder::new("demo".to_string());
    let closing = vec![deletion("f0.rs"), deletion("f1.rs"), deletion("f2.rs"), deletion("f3.rs")];
    let mut commits = 0u32;
    for round in 0..13 {
        for i in 0..10 {
            add(&mut builder, &ten_files(), &format!("r{}c{}", round, i));
        }
        add(&mut builder, &closing, &format!("r{}close", round));
        commits += 11;
    }
    let graph = builder.finalize();
    assert_eq!(graph.eras.len(), 11);
    assert_eq!(graph.total_commits_analyzed, commits);
    for (i, era) in graph.eras.iter().enumerate() {
        assert_eq!(era.era_index as usize, i);
        if i < 10 {
            assert_eq!(era.commits_in_era, 11);
        }
        if i > 0 {
            assert_eq!(era.reset_commit.as_deref(), Some(format!("r{}close", i - 1).as_str()));
        }
    }
    assert_eq!(graph.eras[10].commits_in_era, 33);
    let sum: u32 = graph.eras.iter().map(|e| e.commits_in_era).sum();
    assert_eq!(sum, graph.total_commits_analyzed);
    check_symmetric(&graph);
}

#[test]
fn a_commit_without_hash_starts_an_era_without_name() {
    let mut builder = FileGraphBuilder::new("demo".to_string());
    for i in 0..10 {
        add(&mut builder, &ten_files(), &format!("c{}", i + 1));
    }
    let closing = vec![deletion("f0.rs"), deletion("f1.rs"), deletion("f2.rs"), deletion("f3.rs")];
    assert!(builder.can_add_commit(&closing));
    builder.add_commit(&closing, None);
    let graph = builder.finalize();
    assert_eq!(graph.eras.len(), 2);
    assert!(graph.eras[1].reset_commit.is_none());
    assert_eq!(graph.eras[1].commits_in_era, 0);
}

#[test]
fn counters_without_room_are_reported() {
    let mut builder = FileGraphBuilder::new("demo".to_string());
    add(&mut builder, &[change("a", u32::MAX - 1, u32::MAX)], "c1");
    assert!(builder.can_add_commit(&[change("a", 1, 0)]));
    assert!(!builder.can_add_commit(&[change("a", 2, 0)]));
    assert!(!builder.can_add_commit(&[change("a", 0, 1)]));
    assert!(!builder.can_add_commit(&[change("a", 1, 0), change("b", 0, 0), change("a", 1, 0)]));
    assert!(builder.can_add_commit(&[change("b", u32::MAX, u32::MAX)]));
    assert!(!builder.can_add_commit(&[change("b", u32::MAX, 0), change("b", 1, 0)]));
    add(&mut builder, &[change("a", 1, 0)], "c2");
    let graph = builder.finalize();
    assert_eq!(graph.eras[0].nodes[0].additions, u32::MAX);
    assert_eq!(graph.eras[0].nodes[0].deletions, u32::MAX);
}
