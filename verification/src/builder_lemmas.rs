//! Facts about builders that hold along every history.

use vstd::prelude::*;
use crate::builder_model::{
    builder_wf, closes_era, commits_of_eras, era_with_commit, fresh_era, initial, taken_in,
    with_commit, with_new_era, BuilderModel, ERA_CAP, MIN_ERA_COMMITS,
};
use crate::era_lemmas::lemma_ingest;
use crate::era_model::{node_paths, nodes_wf, weight_between, EraModel, NodeModel};
use crate::file_graph::ChangedFileView;

verus! {

/// An era without files is in order, whatever its number of commits.
pub proof fn lemma_no_nodes_wf(cap: nat)
    ensures
        nodes_wf(Seq::<NodeModel>::empty(), cap),
{
    let nodes = Seq::<NodeModel>::empty();
    assert forall|a: Seq<char>, b: Seq<char>| #[trigger] weight_between(nodes, a, b) == 0 by {
        assert(node_paths(nodes) =~= Seq::<Seq<char>>::empty());
    }
}

/// A new builder is in order.
pub proof fn lemma_initial_wf(repo: Seq<char>)
    ensures
        builder_wf(initial(repo)),
{
    let m = initial(repo);
    lemma_no_nodes_wf(0);
    assert(m.eras.drop_last() =~= Seq::<EraModel>::empty());
    assert(commits_of_eras(m.eras.drop_last()) == 0);
}

/// How the commits of all eras change where the last era is replaced or one is added.
pub proof fn lemma_commits_of_eras_update(eras: Seq<EraModel>, e: EraModel)
    requires
        eras.len() >= 1,
    ensures
        commits_of_eras(eras.update(eras.len() - 1, e)) + eras.last().commits_in_era
            == commits_of_eras(eras) + e.commits_in_era,
        commits_of_eras(eras.push(e)) == commits_of_eras(eras) + e.commits_in_era,
        eras.last().commits_in_era <= commits_of_eras(eras),
{
    assert(eras.update(eras.len() - 1, e).drop_last() =~= eras.drop_last());
    assert(eras.push(e).drop_last() =~= eras);
}

/// Taking a commit into the open era keeps a builder in order.
pub proof fn lemma_taken_in_wf(m: BuilderModel, files: Seq<ChangedFileView>)
    requires
        builder_wf(m),
    ensures
        builder_wf(taken_in(m, files)),
        taken_in(m, files).eras.len() == m.eras.len(),
{
    let t = taken_in(m, files);
    let last = m.eras.len() - 1;
    lemma_ingest(m.eras.last().nodes, files, m.eras.last().commits_in_era);
    lemma_commits_of_eras_update(m.eras, era_with_commit(m.eras.last(), files));
    assert forall|i: int| 0 <= i < t.eras.len() implies {
        &&& (#[trigger] t.eras[i]).era_index == i
        &&& nodes_wf(t.eras[i].nodes, t.eras[i].commits_in_era)
    } by {
        if i != last {
            assert(t.eras[i] == m.eras[i]);
        }
    }
    assert forall|i: int| 0 <= i < t.eras.len() - 1 implies (#[trigger] t.eras[i]).commits_in_era
        > MIN_ERA_COMMITS by {
        assert(t.eras[i] == m.eras[i]);
    }
}

/// Starting a new era keeps a builder in order, where the cap on eras is
/// not passed and the open era holds more than `MIN_ERA_COMMITS` commits.
pub proof fn lemma_with_new_era_wf(m: BuilderModel, hash: Option<Seq<char>>)
    requires
        builder_wf(m),
        m.eras.len() <= ERA_CAP,
        m.current_era_commits > MIN_ERA_COMMITS,
    ensures
        builder_wf(with_new_era(m, hash)),
{
    let t = with_new_era(m, hash);
    let e = fresh_era(m.eras.last().era_index + 1, hash);
    lemma_no_nodes_wf(0);
    lemma_commits_of_eras_update(m.eras, e);
    assert forall|i: int| 0 <= i < t.eras.len() implies {
        &&& (#[trigger] t.eras[i]).era_index == i
        &&& nodes_wf(t.eras[i].nodes, t.eras[i].commits_in_era)
    } by {
        if i < m.eras.len() {
            assert(t.eras[i] == m.eras[i]);
        }
    }
    assert forall|i: int| 0 <= i < t.eras.len() - 1 implies (#[trigger] t.eras[i]).commits_in_era
        > MIN_ERA_COMMITS by {
        assert(t.eras[i] == m.eras[i]);
    }
    assert(t.eras[0] == m.eras[0]);
}

/// A commit keeps a builder in order.
pub proof fn lemma_with_commit_wf(
    m: BuilderModel,
    files: Seq<ChangedFileView>,
    hash: Option<Seq<char>>,
)
    requires
        builder_wf(m),
    ensures
        builder_wf(with_commit(m, files, hash)),
{
    lemma_taken_in_wf(m, files);
    if closes_era(m, files) {
        lemma_with_new_era_wf(taken_in(m, files), hash);
    }
}

} // verus!
