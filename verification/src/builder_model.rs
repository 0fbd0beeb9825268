//! The history of a repository as a sequence of eras: when an era is
//! closed, what a commit does to the whole, and what is handed out at the end.

use vstd::prelude::*;
use crate::era_model::{
    added_lines, ingest, node_of, nodes_wf, removed_lines, weight_sum, EdgeModel,
    EraModel, NodeModel,
};
use crate::file_graph::{ChangedFileView, EdgeView, EraView, FileGraphView, FileNodeView};
use crate::keys::has_key;
use crate::ranking::{rank_paths, ranked, RankItem};

verus! {

/// An era is never closed before it holds more commits than this.
pub const MIN_ERA_COMMITS: u32 = 10;

/// Once more eras than this exist, none is closed any more.
pub const ERA_CAP: usize = 10;

/// How many of the most linked files of an era are watched for deletion.
pub const TOP_FILES: usize = 10;

/// How many of the watched files a commit must delete to close the era:
/// four tenths of them, rounded up.
pub const DELETION_THRESHOLD: usize = 4;

/// What a builder holds.
pub struct BuilderModel {
    pub repo: Seq<char>,
    pub eras: Seq<EraModel>,
    pub current_era_commits: nat,
    pub total_commits: nat,
}

/// The era that a history starts with, or that follows a closed one.
pub open spec fn fresh_era(index: nat, reset_commit: Option<Seq<char>>) -> EraModel {
    EraModel { era_index: index, nodes: Seq::empty(), commits_in_era: 0, reset_commit }
}

/// What a new builder holds.
pub open spec fn initial(repo: Seq<char>) -> BuilderModel {
    BuilderModel {
        repo,
        eras: seq![fresh_era(0, None)],
        current_era_commits: 0,
        total_commits: 0,
    }
}

/// The files of an era as candidates of the ranking by total edge weight.
pub open spec fn weight_items(nodes: Seq<NodeModel>) -> Seq<RankItem> {
    Seq::new(
        nodes.len(),
        |i: int| RankItem { key: weight_sum(nodes[i].edges), path: nodes[i].path, index: i as nat },
    )
}

/// The files of an era as candidates of the ranking by number of commits.
pub open spec fn count_items(nodes: Seq<NodeModel>) -> Seq<RankItem> {
    Seq::new(
        nodes.len(),
        |i: int| RankItem { key: nodes[i].commit_count, path: nodes[i].path, index: i as nat },
    )
}

/// The first `n` items of `s`, or all of them where there are fewer.
pub open spec fn first_n<A>(s: Seq<A>, n: int) -> Seq<A> {
    if s.len() <= n {
        s
    } else {
        s.subrange(0, n)
    }
}

/// The most linked files of an era: the paths with the highest total edge
/// weight, by path among equal weights, at most `TOP_FILES` of them.
pub open spec fn top_files(nodes: Seq<NodeModel>) -> Seq<Seq<char>> {
    first_n(rank_paths(ranked(weight_items(nodes))), TOP_FILES as int)
}

/// The paths that the changes delete, in the order of the changes.
pub open spec fn deleted_paths(files: Seq<ChangedFileView>) -> Seq<Seq<char>>
    decreases files.len(),
{
    if files.len() == 0 {
        Seq::empty()
    } else if files.last().is_deleted {
        deleted_paths(files.drop_last()).push(files.last().path)
    } else {
        deleted_paths(files.drop_last())
    }
}

/// How many of the paths `top` are among the paths `deleted`.
pub open spec fn deleted_among(top: Seq<Seq<char>>, deleted: Seq<Seq<char>>) -> nat
    decreases top.len(),
{
    if top.len() == 0 {
        0
    } else {
        deleted_among(top.drop_last(), deleted) + if has_key(deleted, top.last()) {
            1nat
        } else {
            0nat
        }
    }
}

/// The commit with the changes `files` calls for a new era: the cap on
/// eras is not passed, the open era has `TOP_FILES` files, and the commit
/// deletes `DELETION_THRESHOLD` or more of its most linked ones.
pub open spec fn should_start_new_era(
    eras: Seq<EraModel>,
    files: Seq<ChangedFileView>,
) -> bool {
    let top = top_files(eras.last().nodes);
    &&& eras.len() <= ERA_CAP
    &&& top.len() >= TOP_FILES
    &&& deleted_among(top, deleted_paths(files)) >= DELETION_THRESHOLD
}

/// The era after a commit with the changes `files` was taken in.
pub open spec fn era_with_commit(era: EraModel, files: Seq<ChangedFileView>) -> EraModel {
    EraModel { nodes: ingest(era.nodes, files), commits_in_era: era.commits_in_era + 1, ..era }
}

/// What the builder holds once the commit with the changes `files` was
/// taken into the open era.
pub open spec fn taken_in(m: BuilderModel, files: Seq<ChangedFileView>) -> BuilderModel {
    BuilderModel {
        eras: m.eras.update(m.eras.len() - 1, era_with_commit(m.eras.last(), files)),
        current_era_commits: m.current_era_commits + 1,
        total_commits: m.total_commits + 1,
        ..m
    }
}

/// The commit closes the open era: the era, with the commit in it, holds
/// more than `MIN_ERA_COMMITS` commits, and the commit calls for a new one.
pub open spec fn closes_era(m: BuilderModel, files: Seq<ChangedFileView>) -> bool {
    let taken = taken_in(m, files);
    taken.current_era_commits > MIN_ERA_COMMITS && should_start_new_era(taken.eras, files)
}

/// What the builder holds after a new era was started by the commit `hash`.
pub open spec fn with_new_era(m: BuilderModel, hash: Option<Seq<char>>) -> BuilderModel {
    BuilderModel {
        eras: m.eras.push(fresh_era(m.eras.last().era_index + 1, hash)),
        current_era_commits: 0,
        ..m
    }
}

/// What the builder holds after a commit with the changes `files`: the
/// commit is taken into the open era; where it closes that era, a new one
/// follows, which names the commit as the one it was started by.
pub open spec fn with_commit(
    m: BuilderModel,
    files: Seq<ChangedFileView>,
    hash: Option<Seq<char>>,
) -> BuilderModel {
    if closes_era(m, files) {
        with_new_era(taken_in(m, files), hash)
    } else {
        taken_in(m, files)
    }
}

/// The commits of all eras together.
pub open spec fn commits_of_eras(eras: Seq<EraModel>) -> nat
    decreases eras.len(),
{
    if eras.len() == 0 {
        0
    } else {
        commits_of_eras(eras.drop_last()) + eras.last().commits_in_era
    }
}

/// The builder is one that a history leads to.
pub open spec fn builder_wf(m: BuilderModel) -> bool {
    &&& 1 <= m.eras.len() <= ERA_CAP + 1
    &&& forall|i: int|
        0 <= i < m.eras.len() ==> {
            &&& (#[trigger] m.eras[i]).era_index == i
            &&& nodes_wf(m.eras[i].nodes, m.eras[i].commits_in_era)
        }
    &&& forall|i: int|
        0 <= i < m.eras.len() - 1 ==> (#[trigger] m.eras[i]).commits_in_era > MIN_ERA_COMMITS
    &&& m.eras[0].reset_commit is None
    &&& m.current_era_commits == m.eras.last().commits_in_era
    &&& m.total_commits == commits_of_eras(m.eras)
}

/// The counters of the nodes have room for a commit with the changes
/// `files`: no number of lines or of commits of a file leaves the range of
/// `u32`.
pub open spec fn stats_fit(nodes: Seq<NodeModel>, files: Seq<ChangedFileView>) -> bool {
    forall|k: int|
        0 <= k < files.len() ==> {
            let p = (#[trigger] files[k]).path;
            &&& node_of(nodes, p).additions + added_lines(files, p) <= u32::MAX
            &&& node_of(nodes, p).deletions + removed_lines(files, p) <= u32::MAX
            &&& node_of(nodes, p).commit_count + 1 <= u32::MAX
        }
}

/// The counters of the builder have room for a commit with the changes
/// `files`: neither the number of commits nor a counter of the open era
/// leaves the range of `u32`.
pub open spec fn has_room(m: BuilderModel, files: Seq<ChangedFileView>) -> bool {
    m.total_commits < u32::MAX && stats_fit(m.eras.last().nodes, files)
}

/// A half-edge as it is handed out: with the number of commits of its
/// target in the whole era.
pub open spec fn finalized_edge(nodes: Seq<NodeModel>, e: EdgeModel) -> EdgeView {
    EdgeView {
        target: e.target,
        weight: e.weight,
        target_commits: node_of(nodes, e.target).commit_count,
    }
}

/// A node as it is handed out.
pub open spec fn finalized_node(nodes: Seq<NodeModel>, n: NodeModel) -> FileNodeView {
    FileNodeView {
        path: n.path,
        additions: n.additions,
        deletions: n.deletions,
        commit_count: n.commit_count,
        edges: Seq::new(n.edges.len(), |k: int| finalized_edge(nodes, n.edges[k])),
    }
}

/// The nodes of an era as they are handed out: by number of commits, the
/// highest first, and by path among equal numbers.
pub open spec fn finalized_nodes(nodes: Seq<NodeModel>) -> Seq<FileNodeView> {
    let order = ranked(count_items(nodes));
    Seq::new(order.len(), |i: int| finalized_node(nodes, nodes[order[i].index as int]))
}

/// An era as it is handed out.
pub open spec fn finalized_era(era: EraModel) -> EraView {
    EraView {
        era_index: era.era_index,
        commits_in_era: era.commits_in_era,
        reset_commit: era.reset_commit,
        nodes: finalized_nodes(era.nodes),
    }
}

/// The graph that a builder hands out.
pub open spec fn finalized(m: BuilderModel) -> FileGraphView {
    FileGraphView {
        repo: m.repo,
        total_commits_analyzed: m.total_commits,
        eras: Seq::new(m.eras.len(), |i: int| finalized_era(m.eras[i])),
    }
}

} // verus!
