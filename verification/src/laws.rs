//! What holds of every graph that a history leads to.

use vstd::prelude::*;
use crate::builder_lemmas::lemma_with_commit_wf;
use crate::builder_model::{
    top_files, weight_items, TOP_FILES,
    builder_wf, closes_era, commits_of_eras, count_items, finalized, finalized_edge,
    finalized_node, finalized_nodes, with_commit, BuilderModel, ERA_CAP, MIN_ERA_COMMITS,
};
use crate::diff_model::{changed_paths, changes_of};
use crate::era_lemmas::{lemma_commit_paths, lemma_ingest, lemma_pairs_before};
use crate::era_model::{
    commit_paths, edge_targets, find_edge, find_node, has_node, ingest, node_of, node_paths, nodes_wf,
    total_weight, touches, weight_between, EdgeModel, NodeModel,
};
use crate::file_graph::{ChangedFileView, EraView, FileGraphView, FileNodeView};
use crate::git_analyzer::{after_history, CommitView, WalkModel};
use crate::keys::{distinct, has_key, lemma_position, lemma_position_of_key};
use crate::path_order::path_lt;
use crate::ranking::{
    has_rank, lemma_ranked_content, lemma_ranked_len, lemma_ranked_ordered, ranked, ranks_before,
    same_rank, strictly_ranked, RankItem,
};

verus! {

/// The node at `j` has a half-edge to `target` of weight `weight`.
pub open spec fn has_edge_to(node: FileNodeView, target: Seq<char>, weight: nat) -> bool {
    exists|k: int|
        0 <= k < node.edges.len() && (#[trigger] node.edges[k]).target == target
            && node.edges[k].weight == weight
}

/// Every half-edge has its counterpart: where a file is linked to another
/// with some weight, the other is a file of the era and is linked to the
/// first with the same weight.
pub open spec fn edges_symmetric(nodes: Seq<FileNodeView>) -> bool {
    forall|i: int, k: int|
        0 <= i < nodes.len() && 0 <= k < nodes[i].edges.len() ==> exists|j: int|
            0 <= j < nodes.len() && (#[trigger] nodes[j]).path == (
            #[trigger] nodes[i].edges[k]).target && has_edge_to(
                nodes[j],
                nodes[i].path,
                nodes[i].edges[k].weight,
            )
}

/// No file is linked to itself.
pub open spec fn no_self_edges(nodes: Seq<FileNodeView>) -> bool {
    forall|i: int, k: int|
        0 <= i < nodes.len() && 0 <= k < nodes[i].edges.len() ==> (
        #[trigger] nodes[i].edges[k]).target != nodes[i].path
}

/// The files stand by number of commits, the highest first, and by path
/// among equal numbers.
pub open spec fn nodes_ranked(nodes: Seq<FileNodeView>) -> bool {
    forall|i: int, j: int|
        0 <= i < j < nodes.len() ==> {
            ||| (#[trigger] nodes[i]).commit_count > (#[trigger] nodes[j]).commit_count
            ||| nodes[i].commit_count == nodes[j].commit_count && path_lt(
                nodes[i].path,
                nodes[j].path,
            )
        }
}

/// No file stands twice, and no file is linked twice to one other.
pub open spec fn files_distinct(nodes: Seq<FileNodeView>) -> bool {
    &&& forall|i: int, j: int|
        0 <= i < j < nodes.len() ==> (#[trigger] nodes[i]).path != (#[trigger] nodes[j]).path
    &&& forall|i: int, k: int, l: int|
        0 <= i < nodes.len() && 0 <= k < l < nodes[i].edges.len() ==> (
        #[trigger] nodes[i].edges[k]).target != (#[trigger] nodes[i].edges[l]).target
}

/// Each file changed in at least one commit of the era and in no more
/// than all `commits` of them; each link counts at least one joint change
/// and no more than either of its files has commits.
pub open spec fn counts_bounded(nodes: Seq<FileNodeView>, commits: nat) -> bool {
    &&& forall|i: int| 0 <= i < nodes.len() ==> 1 <= (#[trigger] nodes[i]).commit_count <= commits
    &&& forall|i: int, k: int|
        0 <= i < nodes.len() && 0 <= k < nodes[i].edges.len() ==> {
            &&& 1 <= (#[trigger] nodes[i].edges[k]).weight <= nodes[i].commit_count
            &&& nodes[i].edges[k].weight <= nodes[i].edges[k].target_commits
        }
}

/// Each half-edge carries the number of commits of the file it leads to.
pub open spec fn targets_counted(nodes: Seq<FileNodeView>) -> bool {
    forall|i: int, k: int, j: int|
        0 <= i < nodes.len() && 0 <= k < nodes[i].edges.len() && 0 <= j < nodes.len() && (
        #[trigger] nodes[j]).path == (#[trigger] nodes[i].edges[k]).target
            ==> nodes[i].edges[k].target_commits == nodes[j].commit_count
}

/// The commits of all eras of a graph together.
pub open spec fn commits_in_eras(eras: Seq<EraView>) -> nat
    decreases eras.len(),
{
    if eras.len() == 0 {
        0
    } else {
        commits_in_eras(eras.drop_last()) + eras.last().commits_in_era
    }
}

/// The graph is one that a history leads to.
pub open spec fn graph_in_order(g: FileGraphView) -> bool {
    &&& 1 <= g.eras.len() <= ERA_CAP + 1
    &&& g.total_commits_analyzed == commits_in_eras(g.eras)
    &&& g.eras[0].reset_commit is None
    &&& forall|e: int|
        0 <= e < g.eras.len() - 1 ==> (#[trigger] g.eras[e]).commits_in_era > MIN_ERA_COMMITS
    &&& forall|e: int|
        0 <= e < g.eras.len() ==> {
            &&& (#[trigger] g.eras[e]).era_index == e
            &&& edges_symmetric(g.eras[e].nodes)
            &&& no_self_edges(g.eras[e].nodes)
            &&& nodes_ranked(g.eras[e].nodes)
            &&& targets_counted(g.eras[e].nodes)
            &&& files_distinct(g.eras[e].nodes)
            &&& counts_bounded(g.eras[e].nodes, g.eras[e].commits_in_era)
        }
}

/// The order names the candidate that stood at `t`.
pub open spec fn names_place(order: Seq<RankItem>, t: int) -> bool {
    exists|j: int| 0 <= j < order.len() && (#[trigger] order[j]).index == t
}

/// The order in which the nodes of an era are handed out names each node
/// once, by number of commits and by path.
pub proof fn lemma_count_order(nodes: Seq<NodeModel>)
    requires
        distinct(node_paths(nodes)),
    ensures
        ranked(count_items(nodes)).len() == nodes.len(),
        strictly_ranked(ranked(count_items(nodes))),
        forall|i: int|
            0 <= i < nodes.len() ==> 0 <= (#[trigger] ranked(count_items(nodes))[i]).index
                < nodes.len() && ranked(count_items(nodes))[i] == count_items(nodes)[ranked(
                count_items(nodes),
            )[i].index as int],
        forall|t: int|
            0 <= t < nodes.len() ==> #[trigger] names_place(ranked(count_items(nodes)), t),
{
    let items = count_items(nodes);
    let order = ranked(items);
    let paths = node_paths(nodes);
    lemma_ranked_content(items);
    lemma_ranked_ordered(items);
    assert forall|i: int, j: int| 0 <= i < j < items.len() implies !same_rank(
        items[i],
        items[j],
    ) by {
        assert(paths[i] != paths[j]);
    }
    lemma_ranked_len(items);
    assert forall|i: int| 0 <= i < order.len() implies 0 <= (#[trigger] order[i]).index
        < nodes.len() && order[i] == items[order[i].index as int] by {
        assert(items.contains(order[i]));
        let w = choose|w: int| 0 <= w < items.len() && items[w] == order[i];
        assert(order[i].index == w);
    }
    assert forall|t: int| 0 <= t < nodes.len() implies #[trigger] names_place(order, t) by {
        assert(has_rank(order, items[t]));
        let j = choose|j: int| 0 <= j < order.len() && same_rank(#[trigger] order[j], items[t]);
        let q = order[j].index as int;
        assert(order[j] == items[q]);
        if q < t {
            assert(paths[q] != paths[t]);
        } else if t < q {
            assert(paths[t] != paths[q]);
        }
    }
}

/// In an era in order, each half-edge has its counterpart at the node of its target.
pub proof fn lemma_counterpart(nodes: Seq<NodeModel>, cap: nat, s: int, k: int)
    requires
        nodes_wf(nodes, cap),
        0 <= s < nodes.len(),
        0 <= k < nodes[s].edges.len(),
    ensures
        0 <= find_node(nodes, nodes[s].edges[k].target) < nodes.len(),
        0 <= find_edge(nodes[find_node(nodes, nodes[s].edges[k].target)].edges, nodes[s].path)
            < nodes[find_node(nodes, nodes[s].edges[k].target)].edges.len(),
        nodes[find_node(nodes, nodes[s].edges[k].target)].path == nodes[s].edges[k].target,
        nodes[find_node(nodes, nodes[s].edges[k].target)].edges[find_edge(
            nodes[find_node(nodes, nodes[s].edges[k].target)].edges,
            nodes[s].path,
        )] == (EdgeModel { target: nodes[s].path, weight: nodes[s].edges[k].weight }),
{
    let paths = node_paths(nodes);
    let a = nodes[s].path;
    let edge = nodes[s].edges[k];
    let b = edge.target;
    assert(paths[s] == a);
    lemma_position_of_key(paths, s);
    assert(edge_targets(nodes[s].edges)[k] == b);
    lemma_position_of_key(edge_targets(nodes[s].edges), k);
    assert(weight_between(nodes, a, b) == edge.weight);
    assert(weight_between(nodes, b, a) == weight_between(nodes, a, b));
    assert(edge.weight >= 1);
    let t = find_node(nodes, b);
    lemma_position(paths, b);
    lemma_position(edge_targets(nodes[t].edges), a);
}

/// The nodes of an era in order are handed out in order: each file once,
/// with every link from both ends.
pub proof fn lemma_finalized_nodes(nodes: Seq<NodeModel>, cap: nat)
    requires
        nodes_wf(nodes, cap),
    ensures
        finalized_nodes(nodes).len() == nodes.len(),
        edges_symmetric(finalized_nodes(nodes)),
        no_self_edges(finalized_nodes(nodes)),
        nodes_ranked(finalized_nodes(nodes)),
        targets_counted(finalized_nodes(nodes)),
        files_distinct(finalized_nodes(nodes)),
        counts_bounded(finalized_nodes(nodes), cap),
{
    let items = count_items(nodes);
    let order = ranked(items);
    let out = finalized_nodes(nodes);
    let paths = node_paths(nodes);
    lemma_count_order(nodes);
    assert(no_self_edges(out)) by {
        assert forall|i: int, k: int| 0 <= i < out.len() && 0 <= k < out[i].edges.len() implies (
        #[trigger] out[i].edges[k]).target != out[i].path by {
            let s = order[i].index as int;
            assert(nodes[s].edges[k].target != nodes[s].path);
        }
    }
    assert(nodes_ranked(out)) by {
        assert forall|i: int, j: int| 0 <= i < j < out.len() implies {
            ||| (#[trigger] out[i]).commit_count > (#[trigger] out[j]).commit_count
            ||| out[i].commit_count == out[j].commit_count && path_lt(out[i].path, out[j].path)
        } by {
            assert(order[i] == items[order[i].index as int]);
            assert(order[j] == items[order[j].index as int]);
            assert(ranks_before(order[i], order[j]));
        }
    }
    assert(targets_counted(out)) by {
        assert forall|i: int, k: int, j: int|
            0 <= i < out.len() && 0 <= k < out[i].edges.len() && 0 <= j < out.len() && (
            #[trigger] out[j]).path == (#[trigger] out[i].edges[k]).target implies out[i].edges[k].target_commits
            == out[j].commit_count by {
            let t = order[j].index as int;
            assert(paths[t] == nodes[t].path);
            lemma_position_of_key(paths, t);
            assert(node_of(nodes, nodes[t].path) == nodes[t]);
        }
    }
    assert(files_distinct(out)) by {
        assert forall|i: int, j: int| 0 <= i < j < out.len() implies (#[trigger] out[i]).path != (
        #[trigger] out[j]).path by {
            let a = order[i].index as int;
            let b = order[j].index as int;
            assert(order[i] == items[a] && order[j] == items[b]);
            assert(ranks_before(order[i], order[j]));
            crate::ranking::lemma_ranks_before_asymmetric(order[i], order[j]);
            if a < b {
                assert(paths[a] != paths[b]);
            } else if b < a {
                assert(paths[b] != paths[a]);
            }
        }
        assert forall|i: int, k: int, l: int|
            0 <= i < out.len() && 0 <= k < l < out[i].edges.len() implies (
        #[trigger] out[i].edges[k]).target != (#[trigger] out[i].edges[l]).target by {
            let s = order[i].index as int;
            let targets = edge_targets(nodes[s].edges);
            assert(distinct(targets));
            assert(targets[k] != targets[l]);
        }
    }
    assert(counts_bounded(out, cap)) by {
        assert forall|i: int| 0 <= i < out.len() implies 1 <= (#[trigger] out[i]).commit_count
            <= cap by {
            let s = order[i].index as int;
            assert(1 <= nodes[s].commit_count <= cap);
        }
        assert forall|i: int, k: int| 0 <= i < out.len() && 0 <= k < out[i].edges.len() implies {
            &&& 1 <= (#[trigger] out[i].edges[k]).weight <= out[i].commit_count
            &&& out[i].edges[k].weight <= out[i].edges[k].target_commits
        } by {
            let s = order[i].index as int;
            assert(out[i] == finalized_node(nodes, nodes[s]));
            assert(out[i].edges[k] == finalized_edge(nodes, nodes[s].edges[k]));
            lemma_counterpart(nodes, cap, s, k);
            let a = nodes[s].path;
            let b = nodes[s].edges[k].target;
            assert(paths[s] == a);
            lemma_position_of_key(paths, s);
            assert(edge_targets(nodes[s].edges)[k] == b);
            lemma_position_of_key(edge_targets(nodes[s].edges), k);
            assert(weight_between(nodes, a, b) == nodes[s].edges[k].weight);
            assert(node_of(nodes, a) == nodes[s]);
            assert(weight_between(nodes, a, b) <= node_of(nodes, a).commit_count);
            assert(weight_between(nodes, b, a) == weight_between(nodes, a, b));
            assert(weight_between(nodes, b, a) <= node_of(nodes, b).commit_count);
            assert(nodes[s].edges[k].weight >= 1);
        }
    }
    assert(edges_symmetric(out)) by {
        assert forall|i: int, k: int|
            0 <= i < out.len() && 0 <= k < out[i].edges.len() implies exists|j: int|
            0 <= j < out.len() && (#[trigger] out[j]).path == (#[trigger] out[i].edges[k]).target
                && has_edge_to(out[j], out[i].path, out[i].edges[k].weight) by {
            let s = order[i].index as int;
            assert(0 <= s < nodes.len());
            assert(out[i] == finalized_node(nodes, nodes[s]));
            assert(out[i].edges[k] == finalized_edge(nodes, nodes[s].edges[k]));
            lemma_counterpart(nodes, cap, s, k);
            let t = find_node(nodes, nodes[s].edges[k].target);
            let back = find_edge(nodes[t].edges, nodes[s].path);
            assert(names_place(order, t));
            let j = choose|j: int| 0 <= j < order.len() && (#[trigger] order[j]).index == t;
            assert(out[j] == finalized_node(nodes, nodes[t]));
            assert(out[j].edges[back] == finalized_edge(nodes, nodes[t].edges[back]));
            assert(out[j].edges[back].target == nodes[s].path);
            assert(out[j].edges[back].weight == nodes[s].edges[k].weight);
            assert(has_edge_to(out[j], out[i].path, out[i].edges[k].weight));
        }
    }
}

/// The eras handed out hold as many commits as the eras of the builder.
pub proof fn lemma_commits_in_eras(m: BuilderModel, n: int)
    requires
        0 <= n <= m.eras.len(),
    ensures
        commits_in_eras(finalized(m).eras.take(n)) == commits_of_eras(m.eras.take(n)),
    decreases n,
{
    if n > 0 {
        lemma_commits_in_eras(m, n - 1);
        assert(finalized(m).eras.take(n).drop_last() =~= finalized(m).eras.take(n - 1));
        assert(m.eras.take(n).drop_last() =~= m.eras.take(n - 1));
    }
}

/// The graph that a builder in order hands out is in order.
pub proof fn lemma_finalized_in_order(m: BuilderModel)
    requires
        builder_wf(m),
    ensures
        graph_in_order(finalized(m)),
{
    let g = finalized(m);
    lemma_commits_in_eras(m, m.eras.len() as int);
    assert(g.eras.take(m.eras.len() as int) =~= g.eras);
    assert(m.eras.take(m.eras.len() as int) =~= m.eras);
    assert forall|e: int| 0 <= e < g.eras.len() implies {
        &&& (#[trigger] g.eras[e]).era_index == e
        &&& edges_symmetric(g.eras[e].nodes)
        &&& no_self_edges(g.eras[e].nodes)
        &&& nodes_ranked(g.eras[e].nodes)
        &&& targets_counted(g.eras[e].nodes)
        &&& files_distinct(g.eras[e].nodes)
        &&& counts_bounded(g.eras[e].nodes, g.eras[e].commits_in_era)
    } by {
        lemma_finalized_nodes(m.eras[e].nodes, m.eras[e].commits_in_era);
    }
    assert forall|e: int| 0 <= e < g.eras.len() - 1 implies (#[trigger] g.eras[e]).commits_in_era
        > MIN_ERA_COMMITS by {
        assert(m.eras[e].commits_in_era > MIN_ERA_COMMITS);
    }
}

/// Edge symmetry and no self-edges, in every era of every graph handed
/// out: each half-edge has a counterpart of the same weight at the node of
/// its target, and no half-edge leads to the file that holds it.
pub proof fn law_edges_symmetric(m: BuilderModel, e: int)
    requires
        builder_wf(m),
        0 <= e < m.eras.len(),
    ensures
        edges_symmetric(finalized(m).eras[e].nodes),
        no_self_edges(finalized(m).eras[e].nodes),
{
    lemma_finalized_in_order(m);
}

/// The pair-count law: a commit that changes `n` different files raises
/// the sum of the weights of all half-edges of the era by `n * (n - 1)`,
/// one for each end of each of the `n * (n - 1) / 2` pairs; the weight
/// between two paths rises by one where both are different files of the
/// commit, and stays as it is everywhere else.
pub proof fn law_pair_count(nodes: Seq<NodeModel>, files: Seq<ChangedFileView>, cap: nat)
    requires
        nodes_wf(nodes, cap),
    ensures
        distinct(commit_paths(files)),
        forall|p: Seq<char>| touches(files, p) <==> #[trigger] has_key(commit_paths(files), p),
        total_weight(ingest(nodes, files)) == total_weight(nodes) + commit_paths(files).len() * (
        commit_paths(files).len() - 1),
        (commit_paths(files).len() * (commit_paths(files).len() - 1)) % 2 == 0,
        forall|x: Seq<char>, y: Seq<char>| #[trigger]
            weight_between(ingest(nodes, files), x, y) == weight_between(nodes, x, y) + if x != y
                && touches(files, x) && touches(files, y) {
                1nat
            } else {
                0nat
            },
{
    let u = commit_paths(files);
    let n = u.len() as int;
    lemma_ingest(nodes, files, cap);
    lemma_commit_paths(files);
    lemma_pairs_before(n, n, 0);
    assert(n * (2 * n - n - 1) == n * (n - 1)) by (nonlinear_arith);
    assert forall|p: Seq<char>| touches(files, p) <==> #[trigger] has_key(u, p) by {
        lemma_position(u, p);
        if has_key(u, p) {
            assert(touches(files, u[crate::keys::position(u, p)]));
        }
    }
}

/// The era cap and the minimum era size: a commit adds at most one era,
/// and none beyond one more than the cap; it adds one only where the open
/// era, with the commit in it, holds more than `MIN_ERA_COMMITS` commits.
pub proof fn law_era_closing(m: BuilderModel, files: Seq<ChangedFileView>, hash: Option<Seq<char>>)
    requires
        builder_wf(m),
    ensures
        builder_wf(with_commit(m, files, hash)),
        with_commit(m, files, hash).eras.len() <= ERA_CAP + 1,
        with_commit(m, files, hash).eras.len() == m.eras.len() + if closes_era(m, files) {
            1int
        } else {
            0int
        },
        closes_era(m, files) ==> m.eras.last().commits_in_era + 1 > MIN_ERA_COMMITS
            && m.eras.len() <= ERA_CAP,
        with_commit(m, files, hash).total_commits == m.total_commits + 1,
{
    lemma_with_commit_wf(m, files, hash);
}

/// How many commits of a history change at least one file.
pub open spec fn commits_with_changes(history: Seq<CommitView>) -> nat
    decreases history.len(),
{
    if history.len() == 0 {
        0
    } else {
        commits_with_changes(history.drop_last()) + if changed_paths(history.last().deltas).len()
            > 0 {
            1nat
        } else {
            0nat
        }
    }
}

/// Commit-count conservation, the era cap and the minimum era size along
/// a whole history: the walk keeps the builder in order, so that no more
/// than `ERA_CAP + 1` eras exist and every closed era holds more than
/// `MIN_ERA_COMMITS` commits; and it counts one commit for each commit
/// that changes at least one file, whether or not eras were closed.
pub proof fn law_walk(w: WalkModel, history: Seq<CommitView>)
    requires
        builder_wf(w.builder),
        after_history(w, history) is Some,
    ensures
        builder_wf(after_history(w, history)->0.builder),
        graph_in_order(finalized(after_history(w, history)->0.builder)),
        after_history(w, history)->0.builder.total_commits == w.builder.total_commits
            + commits_with_changes(history),
        finalized(after_history(w, history)->0.builder).total_commits_analyzed
            == w.builder.total_commits + commits_with_changes(history),
    decreases history.len(),
{
    if history.len() > 0 {
        let head = history.drop_last();
        let c = history.last();
        law_walk(w, head);
        let v = after_history(w, head)->0;
        let files = changes_of(v.analyzer.names, c.deltas);
        if files.len() > 0 {
            lemma_with_commit_wf(v.builder, files, Some(c.hash));
        }
    }
    lemma_finalized_in_order(after_history(w, history)->0.builder);
}

/// The most linked files of an era are its files of the highest total
/// edge weight: they are ten, or all where the era has fewer; each is a
/// file of the era and stands once; and each is ranked ahead of every file
/// that comes after it in the ranking, so ahead of all that are left out.
pub proof fn law_top_files(nodes: Seq<NodeModel>)
    requires
        distinct(node_paths(nodes)),
    ensures
        ranked(weight_items(nodes)).len() == nodes.len(),
        top_files(nodes).len() == if nodes.len() <= TOP_FILES {
            nodes.len()
        } else {
            TOP_FILES as nat
        },
        distinct(top_files(nodes)),
        forall|i: int|
            0 <= i < top_files(nodes).len() ==> has_node(nodes, #[trigger] top_files(nodes)[i])
                && top_files(nodes)[i] == ranked(weight_items(nodes))[i].path,
        forall|i: int, j: int|
            0 <= i < j < nodes.len() ==> ranks_before(
                #[trigger] ranked(weight_items(nodes))[i],
                #[trigger] ranked(weight_items(nodes))[j],
            ),
{
    let items = weight_items(nodes);
    let order = ranked(items);
    let top = top_files(nodes);
    let paths = node_paths(nodes);
    lemma_ranked_content(items);
    lemma_ranked_ordered(items);
    assert forall|i: int, j: int| 0 <= i < j < items.len() implies !same_rank(
        items[i],
        items[j],
    ) by {
        assert(paths[i] != paths[j]);
    }
    lemma_ranked_len(items);
    assert forall|i: int| 0 <= i < top.len() implies has_node(nodes, #[trigger] top[i]) && top[i]
        == order[i].path by {
        assert(items.contains(order[i]));
        let w = choose|w: int| 0 <= w < items.len() && items[w] == order[i];
        assert(paths[w] == top[i]);
        lemma_position(paths, top[i]);
    }
    assert forall|i: int, j: int| 0 <= i < j < top.len() implies top[i] != top[j] by {
        assert(ranks_before(order[i], order[j]));
        crate::ranking::lemma_ranks_before_asymmetric(order[i], order[j]);
        if top[i] == top[j] {
            assert(items.contains(order[i]));
            assert(items.contains(order[j]));
            let a = choose|a: int| 0 <= a < items.len() && items[a] == order[i];
            let b = choose|b: int| 0 <= b < items.len() && items[b] == order[j];
            if a < b {
                assert(paths[a] != paths[b]);
            } else if b < a {
                assert(paths[b] != paths[a]);
            }
        }
    }
}

/// The pair-count law at the builder: a commit that changes `n` different
/// files raises the sum of the weights of all half-edges of the era that
/// takes it in by `n * (n - 1)`, whether or not it closes that era; the
/// weight between two paths rises by one where both are different files of
/// the commit and stays as it is everywhere else, so the era stays
/// symmetric.
pub proof fn law_pair_count_of_commit(
    m: BuilderModel,
    files: Seq<ChangedFileView>,
    hash: Option<Seq<char>>,
)
    requires
        builder_wf(m),
    ensures
        with_commit(m, files, hash).eras[m.eras.len() - 1].nodes == ingest(
            m.eras.last().nodes,
            files,
        ),
        total_weight(with_commit(m, files, hash).eras[m.eras.len() - 1].nodes) == total_weight(
            m.eras.last().nodes,
        ) + commit_paths(files).len() * (commit_paths(files).len() - 1),
        forall|x: Seq<char>, y: Seq<char>| #[trigger]
            weight_between(with_commit(m, files, hash).eras[m.eras.len() - 1].nodes, x, y)
                == weight_between(m.eras.last().nodes, x, y) + if x != y && touches(files, x)
                && touches(files, y) {
                1nat
            } else {
                0nat
            },
        forall|x: Seq<char>, y: Seq<char>| #[trigger]
            weight_between(with_commit(m, files, hash).eras[m.eras.len() - 1].nodes, x, y)
                == weight_between(with_commit(m, files, hash).eras[m.eras.len() - 1].nodes, y, x),
{
    law_pair_count(m.eras.last().nodes, files, m.eras.last().commits_in_era);
    lemma_ingest(m.eras.last().nodes, files, m.eras.last().commits_in_era);
}

/// In how many commits of a history the file changes that goes by `p` at
/// the time of the commit, once the renames of the commit are known.
pub open spec fn commits_touching(w: WalkModel, history: Seq<CommitView>, p: Seq<char>) -> nat
    decreases history.len(),
{
    if history.len() == 0 {
        0
    } else {
        match after_history(w, history.drop_last()) {
            Some(v) => commits_touching(w, history.drop_last(), p) + if touches(
                changes_of(v.analyzer.names, history.last().deltas),
                p,
            ) {
                1nat
            } else {
                0nat
            },
            None => 0,
        }
    }
}

/// A walk never loses an era.
pub proof fn lemma_walk_keeps_eras(w: WalkModel, history: Seq<CommitView>)
    requires
        builder_wf(w.builder),
        after_history(w, history) is Some,
    ensures
        after_history(w, history)->0.builder.eras.len() >= w.builder.eras.len(),
    decreases history.len(),
{
    if history.len() > 0 {
        let head = history.drop_last();
        lemma_walk_keeps_eras(w, head);
        law_walk(w, head);
    }
}

/// Attribution along a history in which no era is closed: a path has a
/// node at the end exactly where it had one at the start or some commit
/// changed the file that went by it, and the node counts one commit for
/// each such commit, however many entries of the commit led to the path.
/// So a file that is renamed in one commit and changed under its new name
/// in another is one node, under the new name, with two commits; and a
/// name that no commit leads to has no node.
pub proof fn law_attribution(w: WalkModel, history: Seq<CommitView>, p: Seq<char>)
    requires
        builder_wf(w.builder),
        after_history(w, history) is Some,
        after_history(w, history)->0.builder.eras.len() == w.builder.eras.len(),
    ensures
        node_of(after_history(w, history)->0.builder.eras.last().nodes, p).commit_count
            == node_of(w.builder.eras.last().nodes, p).commit_count + commits_touching(
            w,
            history,
            p,
        ),
        has_node(after_history(w, history)->0.builder.eras.last().nodes, p) <==> has_node(
            w.builder.eras.last().nodes,
            p,
        ) || commits_touching(w, history, p) > 0,
    decreases history.len(),
{
    if history.len() > 0 {
        let head = history.drop_last();
        let c = history.last();
        let v = after_history(w, head)->0;
        lemma_walk_keeps_eras(w, head);
        law_walk(w, head);
        let files = changes_of(v.analyzer.names, c.deltas);
        if files.len() > 0 {
            lemma_with_commit_wf(v.builder, files, Some(c.hash));
            law_era_closing(v.builder, files, Some(c.hash));
            lemma_ingest(v.builder.eras.last().nodes, files, v.builder.eras.last().commits_in_era);
        }
        law_attribution(w, head, p);
    }
}

} // verus!
