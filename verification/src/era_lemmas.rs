//! Facts about what a commit does to the nodes of an era.

use vstd::prelude::*;
use crate::era_model::{
    count_path, count_paths,
    add_half_edge, blank_node, bump_edge, edge_targets, find_edge, find_node, has_node, link,
    added_lines, commit_paths, ingest, nodes_wf, path_items, link_upto, linked_before, node_of,
    occurrences, pairs_before, removed_lines, touches, node_paths, record_file, record_files,
    same_files, sound, tidy, total_weight, touched, weight_between, weight_sum, EdgeModel,
    NodeModel,
};
use crate::file_graph::ChangedFileView;
use crate::ranking::{
    lemma_ranked_content, lemma_ranked_ordered, lemma_ranks_before_asymmetric, ranked, has_rank,
    same_rank,
};
use crate::keys::{
    distinct, has_key, lemma_distinct_push, lemma_position, lemma_position_of_key,
    lemma_position_push, position,
};

verus! {

/// Recording a change keeps the nodes tidy, keeps every node that was there
/// in its place with its half-edges, and gives the changed path a node.
pub proof fn lemma_record_file(nodes: Seq<NodeModel>, f: ChangedFileView)
    requires
        tidy(nodes),
    ensures
        tidy(record_file(nodes, f)),
        has_node(record_file(nodes, f), f.path),
        record_file(nodes, f).len() >= nodes.len(),
        forall|p: Seq<char>|
            has_node(nodes, p) ==> #[trigger] find_node(record_file(nodes, f), p) == find_node(
                nodes,
                p,
            ),
        forall|p: Seq<char>|
            #[trigger] has_node(record_file(nodes, f), p) <==> has_node(nodes, p) || p == f.path,
        forall|i: int|
            0 <= i < nodes.len() ==> (#[trigger] record_file(nodes, f)[i]).edges
                == nodes[i].edges && record_file(nodes, f)[i].path == nodes[i].path,
        forall|i: int|
            nodes.len() <= i < record_file(nodes, f).len() ==> (#[trigger] record_file(
                nodes,
                f,
            )[i]).edges.len() == 0,
{
    let paths = node_paths(nodes);
    let r = record_file(nodes, f);
    let i = find_node(nodes, f.path);
    lemma_position(paths, f.path);
    if i < nodes.len() {
        assert(node_paths(r) =~= paths);
    } else {
        assert(node_paths(r) =~= paths.push(f.path));
        lemma_distinct_push(paths, f.path);
        assert forall|p: Seq<char>|
            has_node(nodes, p) implies #[trigger] find_node(r, p) == find_node(nodes, p) by {
            lemma_position_push(paths, f.path, p);
        }
        assert forall|p: Seq<char>| #[trigger]
            has_node(r, p) <==> has_node(nodes, p) || p == f.path by {
            lemma_position_push(paths, f.path, p);
        }
        lemma_position_push(paths, f.path, f.path);
        assert(edge_targets(r[nodes.len() as int].edges) =~= Seq::<Seq<char>>::empty());
    }
}

/// The weight of the half-edge to `t`, or 0 where there is none.
pub open spec fn edge_weight(edges: Seq<EdgeModel>, t: Seq<char>) -> nat {
    let k = find_edge(edges, t);
    if k < edges.len() {
        edges[k].weight
    } else {
        0
    }
}

/// Replacing a half-edge changes the sum of the weights by the difference of the two.
pub proof fn lemma_weight_sum_update(edges: Seq<EdgeModel>, k: int, e: EdgeModel)
    requires
        0 <= k < edges.len(),
    ensures
        weight_sum(edges.update(k, e)) + edges[k].weight == weight_sum(edges) + e.weight,
    decreases edges.len(),
{
    let more = edges.update(k, e);
    if k == edges.len() - 1 {
        assert(more.drop_last() =~= edges.drop_last());
    } else {
        assert(more.drop_last() =~= edges.drop_last().update(k, e));
        lemma_weight_sum_update(edges.drop_last(), k, e);
    }
}

/// One more joint change raises the weight of one half-edge by one, or adds
/// a half-edge of weight one, and leaves the others as they were.
pub proof fn lemma_bump_edge(edges: Seq<EdgeModel>, t: Seq<char>)
    requires
        distinct(edge_targets(edges)),
    ensures
        distinct(edge_targets(bump_edge(edges, t))),
        weight_sum(bump_edge(edges, t)) == weight_sum(edges) + 1,
        bump_edge(edges, t).len() >= edges.len(),
        forall|y: Seq<char>| #[trigger]
            edge_weight(bump_edge(edges, t), y) == edge_weight(edges, y) + if y == t {
                1nat
            } else {
                0nat
            },
        forall|k: int|
            0 <= k < bump_edge(edges, t).len() ==> {
                ||| (#[trigger] bump_edge(edges, t)[k]).target == t && bump_edge(
                    edges,
                    t,
                )[k].weight >= 1
                ||| k < edges.len() && bump_edge(edges, t)[k] == edges[k]
            },
{
    let targets = edge_targets(edges);
    let b = bump_edge(edges, t);
    let k = find_edge(edges, t);
    lemma_position(targets, t);
    if k < edges.len() {
        assert(edge_targets(b) =~= targets);
        lemma_weight_sum_update(edges, k, b[k]);
        assert forall|y: Seq<char>| #[trigger]
            edge_weight(b, y) == edge_weight(edges, y) + if y == t {
                1nat
            } else {
                0nat
            } by {
            lemma_position(targets, y);
        }
    } else {
        assert(edge_targets(b) =~= targets.push(t));
        lemma_distinct_push(targets, t);
        assert(b.drop_last() =~= edges);
        assert forall|y: Seq<char>| #[trigger]
            edge_weight(b, y) == edge_weight(edges, y) + if y == t {
                1nat
            } else {
                0nat
            } by {
            lemma_position_push(targets, t, y);
            lemma_position(targets, y);
            assert(find_edge(b, y) == position(targets.push(t), y));
            let m = find_edge(edges, y);
            if m < edges.len() {
                assert(b[m] == edges[m]);
            } else if y == t {
                assert(b[edges.len() as int].weight == 1);
            }
        }
    }
}

/// Replacing a node changes the sum of all weights by the difference of the two nodes' sums.
pub proof fn lemma_total_weight_update(nodes: Seq<NodeModel>, i: int, n: NodeModel)
    requires
        0 <= i < nodes.len(),
    ensures
        total_weight(nodes.update(i, n)) + weight_sum(nodes[i].edges) == total_weight(nodes)
            + weight_sum(n.edges),
    decreases nodes.len(),
{
    let more = nodes.update(i, n);
    if i == nodes.len() - 1 {
        assert(more.drop_last() =~= nodes.drop_last());
    } else {
        assert(more.drop_last() =~= nodes.drop_last().update(i, n));
        lemma_total_weight_update(nodes.drop_last(), i, n);
    }
}

/// The weight between two paths is the weight of the half-edge at the node of the first.
pub proof fn lemma_weight_between(nodes: Seq<NodeModel>, a: Seq<char>, b: Seq<char>)
    ensures
        weight_between(nodes, a, b) == if has_node(nodes, a) {
            edge_weight(nodes[find_node(nodes, a)].edges, b)
        } else {
            0
        },
{
}

/// Counting the half-edge from `a` to `b` once more changes that weight
/// alone, and nothing else about the nodes.
pub proof fn lemma_add_half_edge(nodes: Seq<NodeModel>, a: Seq<char>, b: Seq<char>)
    requires
        tidy(nodes),
        has_node(nodes, a),
    ensures
        tidy(add_half_edge(nodes, a, b)),
        node_paths(add_half_edge(nodes, a, b)) == node_paths(nodes),
        add_half_edge(nodes, a, b).len() == nodes.len(),
        total_weight(add_half_edge(nodes, a, b)) == total_weight(nodes) + 1,
        forall|x: Seq<char>, y: Seq<char>| #[trigger]
            weight_between(add_half_edge(nodes, a, b), x, y) == weight_between(nodes, x, y)
                + if x == a && y == b {
                1nat
            } else {
                0nat
            },
        forall|i: int|
            0 <= i < nodes.len() ==> #[trigger] add_half_edge(nodes, a, b)[i] == (NodeModel {
                edges: add_half_edge(nodes, a, b)[i].edges,
                ..nodes[i]
            }),
        forall|i: int, k: int|
            0 <= i < nodes.len() && 0 <= k < add_half_edge(nodes, a, b)[i].edges.len() ==> {
                ||| k < nodes[i].edges.len() && (#[trigger] add_half_edge(
                    nodes,
                    a,
                    b,
                )[i].edges[k]) == nodes[i].edges[k]
                ||| nodes[i].path == a && add_half_edge(nodes, a, b)[i].edges[k].target == b
                    && add_half_edge(nodes, a, b)[i].edges[k].weight >= 1
            },
{
    let paths = node_paths(nodes);
    let r = add_half_edge(nodes, a, b);
    let i = find_node(nodes, a);
    lemma_position(paths, a);
    lemma_bump_edge(nodes[i].edges, b);
    assert(node_paths(r) =~= paths);
    lemma_total_weight_update(nodes, i, r[i]);
    assert forall|x: Seq<char>, y: Seq<char>| #[trigger]
        weight_between(r, x, y) == weight_between(nodes, x, y) + if x == a && y == b {
            1nat
        } else {
            0nat
        } by {
        lemma_position(paths, x);
        lemma_weight_between(nodes, x, y);
        lemma_weight_between(r, x, y);
        let j = find_node(nodes, x);
        assert(find_node(r, x) == j);
        if j < nodes.len() {
            if j == i {
                assert(x == a);
                assert(edge_weight(r[i].edges, y) == edge_weight(nodes[i].edges, y) + if y == b {
                    1nat
                } else {
                    0nat
                });
            } else {
                assert(r[j] == nodes[j]);
            }
        }
    }
    assert forall|m: int| 0 <= m < r.len() implies distinct(
        edge_targets(#[trigger] r[m].edges),
    ) by {
        if m != i {
            assert(r[m] == nodes[m]);
        }
    }
}

/// Linking two different files that have nodes keeps the links sound,
/// raises the weight between the two by one in both directions, and
/// changes nothing else.
pub proof fn lemma_link(nodes: Seq<NodeModel>, a: Seq<char>, b: Seq<char>)
    requires
        sound(nodes),
        has_node(nodes, a),
        has_node(nodes, b),
        a != b,
    ensures
        sound(link(nodes, a, b)),
        same_files(link(nodes, a, b), nodes),
        node_paths(link(nodes, a, b)) == node_paths(nodes),
        total_weight(link(nodes, a, b)) == total_weight(nodes) + 2,
        forall|x: Seq<char>, y: Seq<char>| #[trigger]
            weight_between(link(nodes, a, b), x, y) == weight_between(nodes, x, y) + if (x == a
                && y == b) || (x == b && y == a) {
                1nat
            } else {
                0nat
            },
{
    let half = add_half_edge(nodes, a, b);
    let r = link(nodes, a, b);
    lemma_add_half_edge(nodes, a, b);
    lemma_add_half_edge(half, b, a);
    assert forall|x: Seq<char>, y: Seq<char>| #[trigger]
        weight_between(r, x, y) == weight_between(nodes, x, y) + if (x == a && y == b) || (x
            == b && y == a) {
            1nat
        } else {
            0nat
        } by {
        assert(weight_between(half, x, y) == weight_between(nodes, x, y) + if x == a && y == b {
            1nat
        } else {
            0nat
        });
    }
    assert forall|x: Seq<char>, y: Seq<char>| #[trigger]
        weight_between(r, x, y) == weight_between(r, y, x) by {
        assert(weight_between(nodes, x, y) == weight_between(nodes, y, x));
    }
    assert forall|i: int, k: int| 0 <= i < r.len() && 0 <= k < r[i].edges.len() implies {
        &&& (#[trigger] r[i].edges[k]).weight >= 1
        &&& r[i].edges[k].target != r[i].path
    } by {
        assert(half[i] == (NodeModel { edges: half[i].edges, ..nodes[i] }));
        assert(r[i] == (NodeModel { edges: r[i].edges, ..half[i] }));
    }
    assert forall|i: int| 0 <= i < nodes.len() implies #[trigger] r[i] == (NodeModel {
        edges: r[i].edges,
        ..nodes[i]
    }) by {
        assert(half[i] == (NodeModel { edges: half[i].edges, ..nodes[i] }));
        assert(r[i] == (NodeModel { edges: r[i].edges, ..half[i] }));
    }
}

/// Linking the pairs of a list of different paths, all with nodes, up to a
/// given pair keeps the links sound, raises the weight between the two
/// paths of each pair taken by one, and changes nothing else.
pub proof fn lemma_link_upto(nodes: Seq<NodeModel>, u: Seq<Seq<char>>, i: int, j: int)
    requires
        sound(nodes),
        distinct(u),
        forall|k: int| 0 <= k < u.len() ==> has_node(nodes, #[trigger] u[k]),
        0 <= i <= u.len(),
        0 <= j <= u.len(),
    ensures
        sound(link_upto(nodes, u, i, j)),
        same_files(link_upto(nodes, u, i, j), nodes),
        node_paths(link_upto(nodes, u, i, j)) == node_paths(nodes),
        total_weight(link_upto(nodes, u, i, j)) == total_weight(nodes) + 2 * pairs_before(
            u.len() as int,
            i,
            j,
        ),
        forall|x: Seq<char>, y: Seq<char>| #[trigger]
            weight_between(link_upto(nodes, u, i, j), x, y) == weight_between(nodes, x, y)
                + if linked_before(u, i, j, x, y) {
                1nat
            } else {
                0nat
            },
    decreases i, j,
{
    let r = link_upto(nodes, u, i, j);
    let n = u.len() as int;
    if 0 <= i < n && i + 1 < j <= n {
        let prev = link_upto(nodes, u, i, j - 1);
        lemma_link_upto(nodes, u, i, j - 1);
        let a = u[i];
        let b = u[j - 1];
        lemma_position_of_key(u, i);
        lemma_position_of_key(u, j - 1);
        assert(has_node(prev, a) && has_node(prev, b));
        lemma_link(prev, a, b);
        assert forall|x: Seq<char>, y: Seq<char>| #[trigger]
            weight_between(r, x, y) == weight_between(nodes, x, y) + if linked_before(
                u,
                i,
                j,
                x,
                y,
            ) {
                1nat
            } else {
                0nat
            } by {
            lemma_position(u, x);
            lemma_position(u, y);
            assert(weight_between(prev, x, y) == weight_between(nodes, x, y) + if linked_before(
                u,
                i,
                j - 1,
                x,
                y,
            ) {
                1nat
            } else {
                0nat
            });
        }
        assert forall|m: int| 0 <= m < nodes.len() implies #[trigger] r[m] == (NodeModel {
            edges: r[m].edges,
            ..nodes[m]
        }) by {
            assert(prev[m] == (NodeModel { edges: prev[m].edges, ..nodes[m] }));
            assert(r[m] == (NodeModel { edges: r[m].edges, ..prev[m] }));
        }
    } else if 0 < i <= n {
        lemma_link_upto(nodes, u, i - 1, n);
        assert forall|x: Seq<char>, y: Seq<char>|
            linked_before(u, i, j, x, y) == linked_before(u, i - 1, n, x, y) by {
            lemma_position(u, x);
            lemma_position(u, y);
        }
    } else {
        assert forall|x: Seq<char>, y: Seq<char>| !linked_before(u, i, j, x, y) by {
            lemma_position(u, x);
            lemma_position(u, y);
        }
    }
}

/// The weight between two paths, read from the node of the first.
pub proof fn lemma_weight_of_node(nodes: Seq<NodeModel>, a: Seq<char>, b: Seq<char>)
    ensures
        weight_between(nodes, a, b) == edge_weight(node_of(nodes, a).edges, b),
{
    assert(edge_targets(blank_node(a).edges) =~= Seq::<Seq<char>>::empty());
}

/// What the node of a path holds after a change was recorded.
pub proof fn lemma_record_file_node(nodes: Seq<NodeModel>, f: ChangedFileView, p: Seq<char>)
    requires
        tidy(nodes),
    ensures
        node_of(record_file(nodes, f), p) == if p == f.path {
            touched(node_of(nodes, p), f)
        } else {
            node_of(nodes, p)
        },
        total_weight(record_file(nodes, f)) == total_weight(nodes),
{
    let paths = node_paths(nodes);
    let r = record_file(nodes, f);
    let i = find_node(nodes, f.path);
    lemma_position(paths, f.path);
    lemma_position(paths, p);
    lemma_record_file(nodes, f);
    if i < nodes.len() {
        assert(node_paths(r) =~= paths);
        lemma_total_weight_update(nodes, i, r[i]);
    } else {
        assert(node_paths(r) =~= paths.push(f.path));
        lemma_position_push(paths, f.path, p);
        assert(r.drop_last() =~= nodes);
        assert(r.last().edges.len() == 0);
    }
}

/// Recording the lines of the changes of a commit keeps the links and the
/// numbers of commits as they were, gives each changed path a node, and
/// adds to each node the lines of its file.
pub proof fn lemma_record_files(nodes: Seq<NodeModel>, files: Seq<ChangedFileView>)
    requires
        sound(nodes),
    ensures
        sound(record_files(nodes, files)),
        total_weight(record_files(nodes, files)) == total_weight(nodes),
        forall|p: Seq<char>|
            #[trigger] has_node(record_files(nodes, files), p) <==> has_node(nodes, p)
                || occurrences(files, p) > 0,
        forall|p: Seq<char>| #[trigger]
            node_of(record_files(nodes, files), p) == (NodeModel {
                additions: node_of(nodes, p).additions + added_lines(files, p),
                deletions: node_of(nodes, p).deletions + removed_lines(files, p),
                ..node_of(nodes, p)
            }),
        forall|a: Seq<char>, b: Seq<char>| #[trigger]
            weight_between(record_files(nodes, files), a, b) == weight_between(nodes, a, b),
    decreases files.len(),
{
    let r = record_files(nodes, files);
    if files.len() > 0 {
        let head = files.drop_last();
        let f = files.last();
        let prev = record_files(nodes, head);
        lemma_record_files(nodes, head);
        lemma_record_file(prev, f);
        assert forall|p: Seq<char>| #[trigger]
            node_of(r, p) == (NodeModel {
                additions: node_of(nodes, p).additions + added_lines(files, p),
                deletions: node_of(nodes, p).deletions + removed_lines(files, p),
                ..node_of(nodes, p)
            }) by {
            lemma_record_file_node(prev, f, p);
            assert(node_of(prev, p) == (NodeModel {
                additions: node_of(nodes, p).additions + added_lines(head, p),
                deletions: node_of(nodes, p).deletions + removed_lines(head, p),
                ..node_of(nodes, p)
            }));
        }
        lemma_record_file_node(prev, f, f.path);
        assert forall|a: Seq<char>, b: Seq<char>| #[trigger]
            weight_between(r, a, b) == weight_between(nodes, a, b) by {
            lemma_weight_of_node(r, a, b);
            lemma_weight_of_node(nodes, a, b);
            assert(node_of(r, a).edges == node_of(nodes, a).edges);
        }
        assert forall|p: Seq<char>| #[trigger]
            has_node(r, p) <==> has_node(nodes, p) || occurrences(files, p) > 0 by {
            assert(has_node(prev, p) <==> has_node(nodes, p) || occurrences(head, p) > 0);
        }
        assert forall|i: int, k: int| 0 <= i < r.len() && 0 <= k < r[i].edges.len() implies {
            &&& (#[trigger] r[i].edges[k]).weight >= 1
            &&& r[i].edges[k].target != r[i].path
        } by {
            if i < prev.len() {
                assert(r[i].edges == prev[i].edges);
            }
        }
    }
}

/// A path is counted among the changes exactly when one of them is a change of it.
pub proof fn lemma_occurrences(files: Seq<ChangedFileView>, p: Seq<char>)
    ensures
        occurrences(files, p) > 0 <==> touches(files, p),
        occurrences(files, p) <= files.len(),
    decreases files.len(),
{
    if files.len() > 0 {
        let head = files.drop_last();
        lemma_occurrences(head, p);
        if touches(files, p) {
            let k = choose|k: int| 0 <= k < files.len() && (#[trigger] files[k]).path == p;
            if k < head.len() {
                assert(head[k].path == p);
            }
        }
        if touches(head, p) {
            let k = choose|k: int| 0 <= k < head.len() && (#[trigger] head[k]).path == p;
            assert(files[k].path == p);
        }
        if files.last().path == p {
            assert(files[files.len() - 1].path == p);
        }
    }
}

/// The paths of a commit are the paths of its changes, each once.
pub proof fn lemma_commit_paths(files: Seq<ChangedFileView>)
    ensures
        distinct(commit_paths(files)),
        commit_paths(files).len() <= files.len(),
        forall|k: int|
            0 <= k < commit_paths(files).len() ==> touches(files, #[trigger] commit_paths(files)[k]),
        forall|p: Seq<char>| touches(files, p) ==> #[trigger] has_key(commit_paths(files), p),
{
    let items = path_items(files);
    let s = ranked(items);
    let u = commit_paths(files);
    lemma_ranked_ordered(items);
    lemma_ranked_content(items);
    assert forall|i: int, j: int| 0 <= i < j < u.len() implies u[i] != u[j] by {
        lemma_ranks_before_asymmetric(s[i], s[j]);
        assert(s[i].key == 0) by {
            assert(items.contains(s[i]));
        }
        assert(s[j].key == 0) by {
            assert(items.contains(s[j]));
        }
    }
    assert forall|k: int| 0 <= k < u.len() implies touches(files, #[trigger] u[k]) by {
        assert(items.contains(s[k]));
        let m = choose|m: int| 0 <= m < items.len() && items[m] == s[k];
        assert(files[m].path == u[k]);
    }
    assert forall|p: Seq<char>| touches(files, p) implies #[trigger] has_key(u, p) by {
        let k = choose|k: int| 0 <= k < files.len() && (#[trigger] files[k]).path == p;
        assert(has_rank(s, items[k]));
        let m = choose|m: int| 0 <= m < s.len() && same_rank(#[trigger] s[m], items[k]);
        assert(u[m] == p);
        lemma_position(u, p);
    }
}

/// Twice the number of all pairs of `n` positions is `n * (n - 1)`.
pub proof fn lemma_pairs_before(n: int, i: int, j: int)
    requires
        0 <= i <= n,
        0 <= j <= n,
    ensures
        2 * pairs_before(n, i, j) == i * (2 * n - i - 1) + if i < n && i + 1 < j {
            2 * (j - i - 1)
        } else {
            0
        },
    decreases i, j,
{
    if 0 <= i < n && i + 1 < j <= n {
        lemma_pairs_before(n, i, j - 1);
    } else if 0 < i <= n {
        lemma_pairs_before(n, i - 1, n);
        assert((i - 1) * (2 * n - (i - 1) - 1) + 2 * (n - i) == i * (2 * n - i - 1))
            by (nonlinear_arith);
    } else {
        assert(i == 0);
    }
}

/// Counting a commit at the node of a path changes that number alone.
pub proof fn lemma_count_path(nodes: Seq<NodeModel>, p: Seq<char>)
    requires
        sound(nodes),
    ensures
        sound(count_path(nodes, p)),
        same_links(count_path(nodes, p), nodes),
        forall|q: Seq<char>| #[trigger]
            node_of(count_path(nodes, p), q) == (NodeModel {
                commit_count: node_of(nodes, q).commit_count + if q == p && has_node(nodes, p) {
                    1nat
                } else {
                    0nat
                },
                ..node_of(nodes, q)
            }),
{
    let r = count_path(nodes, p);
    let paths = node_paths(nodes);
    let i = find_node(nodes, p);
    lemma_position(paths, p);
    assert(node_paths(r) =~= paths);
    assert forall|q: Seq<char>| #[trigger]
        node_of(r, q) == (NodeModel {
            commit_count: node_of(nodes, q).commit_count + if q == p && has_node(nodes, p) {
                1nat
            } else {
                0nat
            },
            ..node_of(nodes, q)
        }) by {
        lemma_position(paths, q);
    }
    lemma_same_links(r, nodes);
}

/// The nodes `after` stand for the same files as the nodes `before`, with
/// the same half-edges: only lines and numbers of commits may differ.
pub open spec fn same_links(after: Seq<NodeModel>, before: Seq<NodeModel>) -> bool {
    &&& after.len() == before.len()
    &&& forall|i: int|
        0 <= i < before.len() ==> (#[trigger] after[i]).path == before[i].path && after[i].edges
            == before[i].edges
}

/// Nodes with the same half-edges have the same weights, and are sound
/// where the others are.
pub proof fn lemma_same_links(after: Seq<NodeModel>, before: Seq<NodeModel>)
    requires
        same_links(after, before),
    ensures
        node_paths(after) == node_paths(before),
        total_weight(after) == total_weight(before),
        forall|a: Seq<char>, b: Seq<char>| #[trigger]
            weight_between(after, a, b) == weight_between(before, a, b),
        forall|p: Seq<char>| #[trigger] has_node(after, p) == has_node(before, p),
        sound(before) ==> sound(after),
    decreases before.len(),
{
    assert(node_paths(after) =~= node_paths(before));
    if before.len() > 0 {
        assert(same_links(after.drop_last(), before.drop_last())) by {
            assert forall|i: int| 0 <= i < before.len() - 1 implies (
            #[trigger] after.drop_last()[i]).path == before.drop_last()[i].path
                && after.drop_last()[i].edges == before.drop_last()[i].edges by {
                assert(after[i].path == before[i].path);
            }
        }
        lemma_same_links(after.drop_last(), before.drop_last());
        assert(after.last().edges == before.last().edges) by {
            assert(after[before.len() - 1].path == before[before.len() - 1].path);
        }
    }
    assert forall|a: Seq<char>, b: Seq<char>| #[trigger]
        weight_between(after, a, b) == weight_between(before, a, b) by {
        lemma_position(node_paths(before), a);
        let i = find_node(before, a);
        if i < before.len() {
            assert(after[i].path == before[i].path);
        }
    }
    if sound(before) {
        assert forall|i: int| 0 <= i < after.len() implies distinct(
            edge_targets(#[trigger] after[i].edges),
        ) by {
            assert(after[i].path == before[i].path);
            assert(distinct(edge_targets(before[i].edges)));
        }
        assert forall|i: int, k: int| 0 <= i < after.len() && 0 <= k < after[i].edges.len() implies {
            &&& (#[trigger] after[i].edges[k]).weight >= 1
            &&& after[i].edges[k].target != after[i].path
        } by {
            assert(after[i].path == before[i].path);
            assert(before[i].edges[k].weight >= 1);
        }
    }
}

/// Counting a commit at the nodes of the first `n` of a list of different
/// paths raises the number of commits of each of them that has a node by
/// one, and changes nothing else.
pub proof fn lemma_count_paths(nodes: Seq<NodeModel>, u: Seq<Seq<char>>, n: int)
    requires
        sound(nodes),
        distinct(u),
        0 <= n <= u.len(),
    ensures
        sound(count_paths(nodes, u, n)),
        same_links(count_paths(nodes, u, n), nodes),
        forall|q: Seq<char>| #[trigger]
            node_of(count_paths(nodes, u, n), q) == (NodeModel {
                commit_count: node_of(nodes, q).commit_count + if position(u, q) < n && has_node(
                    nodes,
                    q,
                ) {
                    1nat
                } else {
                    0nat
                },
                ..node_of(nodes, q)
            }),
    decreases n,
{
    let r = count_paths(nodes, u, n);
    if n > 0 {
        let prev = count_paths(nodes, u, n - 1);
        let p = u[n - 1];
        lemma_count_paths(nodes, u, n - 1);
        lemma_count_path(prev, p);
        lemma_same_links(prev, nodes);
        lemma_position_of_key(u, n - 1);
        assert forall|i: int| 0 <= i < nodes.len() implies (#[trigger] r[i]).path == nodes[i].path
            && r[i].edges == nodes[i].edges by {
            assert(prev[i].path == nodes[i].path);
            assert(r[i].path == prev[i].path);
        }
        assert forall|q: Seq<char>| #[trigger]
            node_of(r, q) == (NodeModel {
                commit_count: node_of(nodes, q).commit_count + if position(u, q) < n && has_node(
                    nodes,
                    q,
                ) {
                    1nat
                } else {
                    0nat
                },
                ..node_of(nodes, q)
            }) by {
            lemma_position(u, q);
            assert(node_of(prev, q) == (NodeModel {
                commit_count: node_of(nodes, q).commit_count + if position(u, q) < n - 1
                    && has_node(nodes, q) {
                    1nat
                } else {
                    0nat
                },
                ..node_of(nodes, q)
            }));
            assert(has_node(prev, p) == has_node(nodes, p));
        }
    } else {
        assert forall|q: Seq<char>| #[trigger]
            node_of(r, q) == (NodeModel {
                commit_count: node_of(nodes, q).commit_count + if position(u, q) < n && has_node(
                    nodes,
                    q,
                ) {
                    1nat
                } else {
                    0nat
                },
                ..node_of(nodes, q)
            }) by {
            lemma_position(u, q);
        }
    }
}

/// What taking in a commit does to the nodes of an era: each changed file
/// has a node, with the lines of all its changes added and the commit
/// counted once; every two different changed files are linked once more;
/// nothing else changes, and the nodes stay those of an era.
pub proof fn lemma_ingest(nodes: Seq<NodeModel>, files: Seq<ChangedFileView>, cap: nat)
    requires
        nodes_wf(nodes, cap),
    ensures
        nodes_wf(ingest(nodes, files), cap + 1),
        forall|p: Seq<char>|
            #[trigger] has_node(ingest(nodes, files), p) <==> has_node(nodes, p) || touches(
                files,
                p,
            ),
        forall|p: Seq<char>|
            {
                let after = #[trigger] node_of(ingest(nodes, files), p);
                let before = node_of(nodes, p);
                &&& after.path == p
                &&& after.additions == before.additions + added_lines(files, p)
                &&& after.deletions == before.deletions + removed_lines(files, p)
                &&& after.commit_count == before.commit_count + if touches(files, p) {
                    1nat
                } else {
                    0nat
                }
            },
        forall|x: Seq<char>, y: Seq<char>| #[trigger]
            weight_between(ingest(nodes, files), x, y) == weight_between(nodes, x, y) + if x != y
                && touches(files, x) && touches(files, y) {
                1nat
            } else {
                0nat
            },
        total_weight(ingest(nodes, files)) == total_weight(nodes) + commit_paths(files).len() * (
        commit_paths(files).len() - 1),
{
    let rec = record_files(nodes, files);
    let u = commit_paths(files);
    let n = u.len() as int;
    let counted = count_paths(rec, u, n);
    let r = ingest(nodes, files);
    lemma_record_files(nodes, files);
    lemma_commit_paths(files);
    lemma_count_paths(rec, u, n);
    lemma_same_links(counted, rec);
    assert forall|k: int| 0 <= k < u.len() implies has_node(counted, #[trigger] u[k]) by {
        lemma_occurrences(files, u[k]);
        assert(has_node(rec, u[k]));
    }
    lemma_link_upto(counted, u, n, 0);
    lemma_pairs_before(n, n, 0);
    assert(n * (2 * n - n - 1) == n * (n - 1)) by (nonlinear_arith);
    assert forall|p: Seq<char>| #[trigger]
        has_node(r, p) <==> has_node(nodes, p) || touches(files, p) by {
        lemma_occurrences(files, p);
        assert(has_node(rec, p) <==> has_node(nodes, p) || occurrences(files, p) > 0);
        assert(has_node(counted, p) == has_node(rec, p));
    }
    assert forall|p: Seq<char>|
        {
            let after = #[trigger] node_of(r, p);
            let before = node_of(nodes, p);
            &&& after.path == p
            &&& after.additions == before.additions + added_lines(files, p)
            &&& after.deletions == before.deletions + removed_lines(files, p)
            &&& after.commit_count == before.commit_count + if touches(files, p) {
                1nat
            } else {
                0nat
            }
        } by {
        lemma_ingest_node(nodes, files, p);
    }
    assert forall|x: Seq<char>, y: Seq<char>| #[trigger]
        weight_between(r, x, y) == weight_between(nodes, x, y) + if x != y && touches(files, x)
            && touches(files, y) {
            1nat
        } else {
            0nat
        } by {
        lemma_position(u, x);
        lemma_position(u, y);
        assert(weight_between(rec, x, y) == weight_between(nodes, x, y));
        assert(weight_between(counted, x, y) == weight_between(rec, x, y));
        assert(weight_between(r, x, y) == weight_between(counted, x, y) + if linked_before(
            u,
            n,
            0,
            x,
            y,
        ) {
            1nat
        } else {
            0nat
        });
        if has_key(u, x) {
            assert(touches(files, u[position(u, x)]));
        }
        if has_key(u, y) {
            assert(touches(files, u[position(u, y)]));
        }
    }
    assert forall|i: int| 0 <= i < r.len() implies 1 <= (#[trigger] r[i]).commit_count <= cap
        + 1 by {
        let p = r[i].path;
        assert(node_paths(r)[i] == p);
        lemma_position_of_key(node_paths(r), i);
        assert(node_of(r, p) == r[i]);
        lemma_ingest_node(nodes, files, p);
        lemma_position(node_paths(nodes), p);
        assert(has_node(r, p));
        if has_node(nodes, p) {
            assert(1 <= nodes[find_node(nodes, p)].commit_count <= cap);
        }
    }
    assert forall|a: Seq<char>, b: Seq<char>| #[trigger]
        weight_between(r, a, b) <= node_of(r, a).commit_count by {
        lemma_ingest_node(nodes, files, a);
        assert(weight_between(nodes, a, b) <= node_of(nodes, a).commit_count);
    }
    assert forall|a: Seq<char>, b: Seq<char>| #[trigger] weight_between(r, a, b) <= cap + 1 by {
        assert(weight_between(nodes, a, b) <= cap);
    }
}

/// What the node of a path holds after a commit was taken in.
pub proof fn lemma_ingest_node(nodes: Seq<NodeModel>, files: Seq<ChangedFileView>, p: Seq<char>)
    requires
        sound(nodes),
    ensures
        node_of(ingest(nodes, files), p).path == p,
        node_of(ingest(nodes, files), p).additions == node_of(nodes, p).additions + added_lines(
            files,
            p,
        ),
        node_of(ingest(nodes, files), p).deletions == node_of(nodes, p).deletions + removed_lines(
            files,
            p,
        ),
        node_of(ingest(nodes, files), p).commit_count == node_of(nodes, p).commit_count
            + if touches(files, p) {
            1nat
        } else {
            0nat
        },
{
    let rec = record_files(nodes, files);
    let u = commit_paths(files);
    let n = u.len() as int;
    let counted = count_paths(rec, u, n);
    let r = ingest(nodes, files);
    lemma_record_files(nodes, files);
    lemma_commit_paths(files);
    lemma_count_paths(rec, u, n);
    lemma_same_links(counted, rec);
    assert forall|k: int| 0 <= k < u.len() implies has_node(counted, #[trigger] u[k]) by {
        lemma_occurrences(files, u[k]);
        assert(has_node(rec, u[k]));
    }
    lemma_link_upto(counted, u, n, 0);
    lemma_occurrences(files, p);
    lemma_position(u, p);
    lemma_position(node_paths(nodes), p);
    lemma_position(node_paths(counted), p);
    assert(node_of(rec, p) == (NodeModel {
        additions: node_of(nodes, p).additions + added_lines(files, p),
        deletions: node_of(nodes, p).deletions + removed_lines(files, p),
        ..node_of(nodes, p)
    }));
    assert(node_of(counted, p) == (NodeModel {
        commit_count: node_of(rec, p).commit_count + if position(u, p) < n && has_node(rec, p) {
            1nat
        } else {
            0nat
        },
        ..node_of(rec, p)
    }));
    assert(has_node(rec, p) <==> has_node(nodes, p) || occurrences(files, p) > 0);
    if has_key(u, p) {
        assert(touches(files, u[position(u, p)]));
    }
    let m = find_node(counted, p);
    if m < counted.len() {
        assert(r[m] == (NodeModel { edges: r[m].edges, ..counted[m] }));
    }
}

/// The first changes of a commit add no more to a file than all of them.
pub proof fn lemma_prefix_sums(files: Seq<ChangedFileView>, k: int, p: Seq<char>)
    requires
        0 <= k <= files.len(),
    ensures
        added_lines(files.take(k), p) <= added_lines(files, p),
        removed_lines(files.take(k), p) <= removed_lines(files, p),
        occurrences(files.take(k), p) <= occurrences(files, p),
    decreases files.len() - k,
{
    if k < files.len() {
        lemma_prefix_sums(files, k + 1, p);
        assert(files.take(k + 1).drop_last() =~= files.take(k));
    } else {
        assert(files.take(k) =~= files);
    }
}

} // verus!
