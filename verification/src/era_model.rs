//! What an era holds while it is open, and what a commit does to it.
//!
//! An era keeps one node for each file that changed in it, and each node
//! keeps one half-edge for each file that changed together with it. A commit
//! is taken in three passes: the first adds the lines of each change to the
//! node of its file, the second counts the commit once at each file that it
//! changed, the third links every two different files of the commit.

use vstd::prelude::*;
use crate::file_graph::ChangedFileView;
use crate::keys::{distinct, position};
use crate::ranking::{rank_paths, ranked, RankItem};

verus! {

/// A half-edge: how often its owner changed together with `target`.
pub struct EdgeModel {
    pub target: Seq<char>,
    pub weight: nat,
}

/// A file of an open era.
pub struct NodeModel {
    pub path: Seq<char>,
    pub additions: nat,
    pub deletions: nat,
    pub commit_count: nat,
    pub edges: Seq<EdgeModel>,
}

/// An era.
pub struct EraModel {
    pub era_index: nat,
    pub nodes: Seq<NodeModel>,
    pub commits_in_era: nat,
    pub reset_commit: Option<Seq<char>>,
}

/// The paths of a list of nodes, in its order.
pub open spec fn node_paths(nodes: Seq<NodeModel>) -> Seq<Seq<char>> {
    Seq::new(nodes.len(), |i: int| nodes[i].path)
}

/// The targets of a list of half-edges, in its order.
pub open spec fn edge_targets(edges: Seq<EdgeModel>) -> Seq<Seq<char>> {
    Seq::new(edges.len(), |i: int| edges[i].target)
}

/// Where the node of `p` stands, or the number of nodes where `p` has none.
pub open spec fn find_node(nodes: Seq<NodeModel>, p: Seq<char>) -> int {
    position(node_paths(nodes), p)
}

/// Where the half-edge to `t` stands, or the number of half-edges where there is none.
pub open spec fn find_edge(edges: Seq<EdgeModel>, t: Seq<char>) -> int {
    position(edge_targets(edges), t)
}

/// `p` has a node.
pub open spec fn has_node(nodes: Seq<NodeModel>, p: Seq<char>) -> bool {
    find_node(nodes, p) < nodes.len()
}

/// The node of a file that did not change yet.
pub open spec fn blank_node(p: Seq<char>) -> NodeModel {
    NodeModel { path: p, additions: 0, deletions: 0, commit_count: 0, edges: Seq::empty() }
}

/// The node `n` with the lines of the change `f` of its file added.
pub open spec fn touched(n: NodeModel, f: ChangedFileView) -> NodeModel {
    NodeModel { additions: n.additions + f.additions, deletions: n.deletions + f.deletions, ..n }
}

/// The nodes after the lines of the change `f` were recorded: at the node
/// of its path, or at a new node at the end.
pub open spec fn record_file(nodes: Seq<NodeModel>, f: ChangedFileView) -> Seq<NodeModel> {
    let i = find_node(nodes, f.path);
    if i < nodes.len() {
        nodes.update(i, touched(nodes[i], f))
    } else {
        nodes.push(touched(blank_node(f.path), f))
    }
}

/// The nodes after the lines of the changes `files` were recorded, one
/// after the other.
pub open spec fn record_files(nodes: Seq<NodeModel>, files: Seq<ChangedFileView>) -> Seq<
    NodeModel,
>
    decreases files.len(),
{
    if files.len() == 0 {
        nodes
    } else {
        record_file(record_files(nodes, files.drop_last()), files.last())
    }
}

/// The half-edges after one more joint change with `t`.
pub open spec fn bump_edge(edges: Seq<EdgeModel>, t: Seq<char>) -> Seq<EdgeModel> {
    let k = find_edge(edges, t);
    if k < edges.len() {
        edges.update(k, EdgeModel { weight: edges[k].weight + 1, ..edges[k] })
    } else {
        edges.push(EdgeModel { target: t, weight: 1 })
    }
}

/// The nodes after the half-edge from `a` to `b` was counted once more.
pub open spec fn add_half_edge(nodes: Seq<NodeModel>, a: Seq<char>, b: Seq<char>) -> Seq<
    NodeModel,
> {
    let i = find_node(nodes, a);
    if i < nodes.len() {
        nodes.update(i, NodeModel { edges: bump_edge(nodes[i].edges, b), ..nodes[i] })
    } else {
        nodes
    }
}

/// The nodes after `a` and `b` were linked once more, in both directions.
pub open spec fn link(nodes: Seq<NodeModel>, a: Seq<char>, b: Seq<char>) -> Seq<NodeModel> {
    add_half_edge(add_half_edge(nodes, a, b), b, a)
}

/// The nodes after the pairs of `u` were linked that come before the pair
/// of the positions `i` and `j`: those whose first position is below `i`,
/// and those of `i` with a second position below `j`.
pub open spec fn link_upto(nodes: Seq<NodeModel>, u: Seq<Seq<char>>, i: int, j: int) -> Seq<
    NodeModel,
>
    decreases i, j,
{
    if 0 <= i < u.len() && i + 1 < j <= u.len() {
        link(link_upto(nodes, u, i, j - 1), u[i], u[j - 1])
    } else if 0 < i <= u.len() {
        link_upto(nodes, u, i - 1, u.len() as int)
    } else {
        nodes
    }
}

/// The nodes after every two paths of `u` were linked.
pub open spec fn link_all(nodes: Seq<NodeModel>, u: Seq<Seq<char>>) -> Seq<NodeModel> {
    link_upto(nodes, u, u.len() as int, 0)
}

/// The changed files as candidates of a ranking by path alone.
pub open spec fn path_items(files: Seq<ChangedFileView>) -> Seq<RankItem> {
    Seq::new(files.len(), |i: int| RankItem { key: 0, path: files[i].path, index: i as nat })
}

/// The paths that a commit changed: each once, in the order of paths.
pub open spec fn commit_paths(files: Seq<ChangedFileView>) -> Seq<Seq<char>> {
    rank_paths(ranked(path_items(files)))
}

/// The nodes after one more commit was counted at the node of `p`.
pub open spec fn count_path(nodes: Seq<NodeModel>, p: Seq<char>) -> Seq<NodeModel> {
    let i = find_node(nodes, p);
    if i < nodes.len() {
        nodes.update(i, NodeModel { commit_count: nodes[i].commit_count + 1, ..nodes[i] })
    } else {
        nodes
    }
}

/// The nodes after one more commit was counted at the nodes of the first `n` paths of `u`.
pub open spec fn count_paths(nodes: Seq<NodeModel>, u: Seq<Seq<char>>, n: int) -> Seq<NodeModel>
    decreases n,
{
    if n <= 0 || n > u.len() {
        nodes
    } else {
        count_path(count_paths(nodes, u, n - 1), u[n - 1])
    }
}

/// The nodes of an era after a commit with the changes `files` was taken
/// in: the lines of every change are added to the node of its file, the
/// commit is counted once at each file that it changed, and every two
/// different files of the commit are linked once more.
pub open spec fn ingest(nodes: Seq<NodeModel>, files: Seq<ChangedFileView>) -> Seq<NodeModel> {
    let u = commit_paths(files);
    link_all(count_paths(record_files(nodes, files), u, u.len() as int), u)
}

/// How often `a` and `b` changed together, as the node of `a` has it.
pub open spec fn weight_between(nodes: Seq<NodeModel>, a: Seq<char>, b: Seq<char>) -> nat {
    let i = find_node(nodes, a);
    if i < nodes.len() {
        let k = find_edge(nodes[i].edges, b);
        if k < nodes[i].edges.len() {
            nodes[i].edges[k].weight
        } else {
            0
        }
    } else {
        0
    }
}

/// The sum of the weights of a list of half-edges.
pub open spec fn weight_sum(edges: Seq<EdgeModel>) -> nat
    decreases edges.len(),
{
    if edges.len() == 0 {
        0
    } else {
        weight_sum(edges.drop_last()) + edges.last().weight
    }
}

/// The sum of the weights of all half-edges of a list of nodes: twice the
/// weight of all links between them.
pub open spec fn total_weight(nodes: Seq<NodeModel>) -> nat
    decreases nodes.len(),
{
    if nodes.len() == 0 {
        0
    } else {
        total_weight(nodes.drop_last()) + weight_sum(nodes.last().edges)
    }
}

/// No path has two nodes, and no node two half-edges to one target.
pub open spec fn tidy(nodes: Seq<NodeModel>) -> bool {
    &&& distinct(node_paths(nodes))
    &&& forall|i: int| 0 <= i < nodes.len() ==> distinct(edge_targets(#[trigger] nodes[i].edges))
}

/// The links are sound: the nodes are tidy, no file is linked to itself,
/// each half-edge counts at least one joint change, and each link has the
/// same weight from both ends.
pub open spec fn sound(nodes: Seq<NodeModel>) -> bool {
    &&& tidy(nodes)
    &&& forall|i: int, k: int|
        0 <= i < nodes.len() && 0 <= k < nodes[i].edges.len() ==> {
            &&& (#[trigger] nodes[i].edges[k]).weight >= 1
            &&& nodes[i].edges[k].target != nodes[i].path
        }
    &&& forall|a: Seq<char>, b: Seq<char>| #[trigger]
        weight_between(nodes, a, b) == weight_between(nodes, b, a)
}

/// The nodes are those of an era of `cap` commits: the links are sound,
/// each file changed in at least one commit and in no more than `cap`, and
/// no link counts more joint changes than either of its files has changes,
/// so none more than `cap`.
pub open spec fn nodes_wf(nodes: Seq<NodeModel>, cap: nat) -> bool {
    &&& sound(nodes)
    &&& forall|i: int| 0 <= i < nodes.len() ==> 1 <= (#[trigger] nodes[i]).commit_count <= cap
    &&& forall|a: Seq<char>, b: Seq<char>| #[trigger]
        weight_between(nodes, a, b) <= node_of(nodes, a).commit_count
    &&& forall|a: Seq<char>, b: Seq<char>| #[trigger] weight_between(nodes, a, b) <= cap
}

/// The nodes `after` stand for the same files as the nodes `before`, with
/// the same churn: only half-edges may differ.
pub open spec fn same_files(after: Seq<NodeModel>, before: Seq<NodeModel>) -> bool {
    &&& after.len() == before.len()
    &&& forall|i: int|
        0 <= i < before.len() ==> #[trigger] after[i] == (NodeModel {
            edges: after[i].edges,
            ..before[i]
        })
}

/// `p` is the path of one of the changes.
pub open spec fn touches(files: Seq<ChangedFileView>, p: Seq<char>) -> bool {
    exists|k: int| 0 <= k < files.len() && (#[trigger] files[k]).path == p
}

/// The lines that the changes add to `p`.
pub open spec fn added_lines(files: Seq<ChangedFileView>, p: Seq<char>) -> nat
    decreases files.len(),
{
    if files.len() == 0 {
        0
    } else {
        added_lines(files.drop_last(), p) + if files.last().path == p {
            files.last().additions
        } else {
            0
        }
    }
}

/// The lines that the changes remove from `p`.
pub open spec fn removed_lines(files: Seq<ChangedFileView>, p: Seq<char>) -> nat
    decreases files.len(),
{
    if files.len() == 0 {
        0
    } else {
        removed_lines(files.drop_last(), p) + if files.last().path == p {
            files.last().deletions
        } else {
            0
        }
    }
}

/// How many of the changes are changes of `p`.
pub open spec fn occurrences(files: Seq<ChangedFileView>, p: Seq<char>) -> nat
    decreases files.len(),
{
    if files.len() == 0 {
        0
    } else {
        occurrences(files.drop_last(), p) + if files.last().path == p {
            1nat
        } else {
            0nat
        }
    }
}

/// The node of `p`, or a blank one where `p` has none.
pub open spec fn node_of(nodes: Seq<NodeModel>, p: Seq<char>) -> NodeModel {
    let i = find_node(nodes, p);
    if i < nodes.len() {
        nodes[i]
    } else {
        blank_node(p)
    }
}

/// The two paths are different paths of `u`, and their pair comes before
/// the pair of the positions `i` and `j`.
pub open spec fn linked_before(u: Seq<Seq<char>>, i: int, j: int, x: Seq<char>, y: Seq<char>) -> bool {
    let a = position(u, x);
    let b = position(u, y);
    let lo = if a < b {
        a
    } else {
        b
    };
    let hi = if a < b {
        b
    } else {
        a
    };
    a < u.len() && b < u.len() && a != b && (lo < i || (lo == i && hi < j))
}

/// How many pairs of `n` positions come before the pair of the positions `i` and `j`.
pub open spec fn pairs_before(n: int, i: int, j: int) -> nat
    decreases i, j,
{
    if 0 <= i < n && i + 1 < j <= n {
        pairs_before(n, i, j - 1) + 1
    } else if 0 < i <= n {
        pairs_before(n, i - 1, n)
    } else {
        0
    }
}

} // verus!
