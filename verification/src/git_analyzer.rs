//! The walk through a history: it keeps track of renames, turns the diff of
//! each commit into the changes of files under their canonical names, and
//! feeds them to a graph builder.

use vstd::prelude::*;
use crate::diff_model::{
    change_of, changed_paths, changes_of, count_origin, deleted_in, lemma_with_rename_settled,
    lines_fit, lines_of, names_after, renames_after, settled, with_rename, DeltaStatus,
    FileDeltaView, ADDED_LINE, REMOVED_LINE,
};
use crate::builder_model::{builder_wf, finalized, has_room, initial, with_commit, BuilderModel};
use crate::file_graph::{changed_file_views, text_of, ChangedFile, FileGraph};
use crate::graph_builder::FileGraphBuilder;
use crate::laws::graph_in_order;
use crate::keys::{find_key, texts};
use crate::path_map::{resolve, PathMap};

verus! {

/// One entry of the diff of a commit against its first parent: a file
/// that differs, with its path on both sides where it has one, and the
/// origins of the lines of its hunks.
#[derive(Debug, Clone)]
pub struct FileDelta {
    pub status: DeltaStatus,
    pub old_path: Option<String>,
    pub new_path: Option<String>,
    pub line_origins: Vec<char>,
}

/// A commit as the walk sees it: its hash and its diff.
#[derive(Debug, Clone)]
pub struct CommitDiff {
    pub hash: String,
    pub deltas: Vec<FileDelta>,
}

impl View for FileDelta {
    type V = FileDeltaView;

    open spec fn view(&self) -> FileDeltaView {
        FileDeltaView {
            status: self.status,
            old_path: text_of(self.old_path),
            new_path: text_of(self.new_path),
            line_origins: self.line_origins@,
        }
    }
}

/// What a list of entries of a diff holds.
pub open spec fn delta_views(s: Seq<FileDelta>) -> Seq<FileDeltaView> {
    Seq::new(s.len(), |i: int| s[i]@)
}

/// What an analyzer holds.
pub struct AnalyzerModel {
    pub repo_path: Seq<char>,
    /// For each path that was renamed, the path it was renamed to last.
    pub renames: Map<Seq<char>, Seq<char>>,
    /// For each path that a rename touched, its name as of now.
    pub names: Map<Seq<char>, Seq<char>>,
}

/// A commit as the contracts see it.
pub struct CommitView {
    pub hash: Seq<char>,
    pub deltas: Seq<FileDeltaView>,
}

impl View for CommitDiff {
    type V = CommitView;

    open spec fn view(&self) -> CommitView {
        CommitView { hash: self.hash@, deltas: delta_views(self.deltas@) }
    }
}

/// What a list of commits holds.
pub open spec fn commit_views(s: Seq<CommitDiff>) -> Seq<CommitView> {
    Seq::new(s.len(), |i: int| s[i]@)
}

/// What a walk through a history holds: the renames seen and the graph built so far.
pub struct WalkModel {
    pub analyzer: AnalyzerModel,
    pub builder: BuilderModel,
}

/// The analyzer after the diff `deltas` was read.
pub open spec fn analyzer_after(a: AnalyzerModel, deltas: Seq<FileDeltaView>) -> AnalyzerModel {
    AnalyzerModel {
        renames: renames_after(a.renames, deltas),
        names: names_after(a.names, deltas),
        ..a
    }
}

/// The walk after the commit `c`, or nothing where a counter has no room
/// for it: the renames of the commit are noted; where the commit changes
/// files, it is taken into the graph, and named by its hash where it
/// starts an era; a commit that changes no file leaves the graph as it is.
pub open spec fn after_commit(w: WalkModel, c: CommitView) -> Option<WalkModel> {
    let files = changes_of(w.analyzer.names, c.deltas);
    if !lines_fit(c.deltas) {
        None
    } else if files.len() == 0 {
        Some(WalkModel { analyzer: analyzer_after(w.analyzer, c.deltas), builder: w.builder })
    } else if !has_room(w.builder, files) {
        None
    } else {
        Some(
            WalkModel {
                analyzer: analyzer_after(w.analyzer, c.deltas),
                builder: with_commit(w.builder, files, Some(c.hash)),
            },
        )
    }
}

/// The walk after the commits of `history`, oldest first, or nothing where
/// a counter has no room for one of them.
pub open spec fn after_history(w: WalkModel, history: Seq<CommitView>) -> Option<WalkModel>
    decreases history.len(),
{
    if history.len() == 0 {
        Some(w)
    } else {
        match after_history(w, history.drop_last()) {
            Some(v) => after_commit(v, history.last()),
            None => None,
        }
    }
}

/// What `analyze` says where a counter has no room.
pub open spec fn overflow_message() -> Seq<char> {
    "Counter overflow while analyzing the history"@
}

/// Analyzes the history of the repository at a given place.
pub struct GitAnalyzer {
    repo_path: String,
    rename_map: PathMap,
    current_names: PathMap,
}

impl View for GitAnalyzer {
    type V = AnalyzerModel;

    closed spec fn view(&self) -> AnalyzerModel {
        AnalyzerModel {
            repo_path: self.repo_path@,
            renames: self.rename_map@,
            names: self.current_names@,
        }
    }
}

/// How many of the lines have the origin `c`.
fn count_lines(lines: &Vec<char>, c: char) -> (n: usize)
    ensures
        n == count_origin(lines@, c),
{
    let mut n: usize = 0;
    let mut i: usize = 0;
    assert(lines@.take(0) =~= Seq::empty());
    while i < lines.len()
        invariant
            i <= lines.len(),
            n <= i,
            n == count_origin(lines@.take(i as int), c),
        decreases lines.len() - i,
    {
        assert(lines@.take(i + 1).drop_last() =~= lines@.take(i as int));
        if lines[i] == c {
            n += 1;
        }
        i += 1;
    }
    assert(lines@.take(i as int) =~= lines@);
    n
}

/// How many lines of origin `c` the diff has for the new path `path`.
fn count_lines_of(deltas: &Vec<FileDelta>, path: &String, c: char) -> (n: u128)
    ensures
        n == lines_of(delta_views(deltas@), path@, c),
{
    let ghost views = delta_views(deltas@);
    let mut n: u128 = 0;
    let mut i: usize = 0;
    assert(views.take(0) =~= Seq::empty());
    while i < deltas.len()
        invariant
            i <= deltas.len(),
            views == delta_views(deltas@),
            n == lines_of(views.take(i as int), path@, c),
            n <= i * 0xFFFF_FFFF_FFFF_FFFF,
        decreases deltas.len() - i,
    {
        assert(views.take(i + 1).drop_last() =~= views.take(i as int));
        assert(views.take(i + 1).last() == deltas[i as int]@);
        let same = match &deltas[i].new_path {
            Some(p) => *p == *path,
            None => false,
        };
        if same {
            n = n + count_lines(&deltas[i].line_origins, c) as u128;
        }
        i += 1;
    }
    assert(views.take(i as int) =~= views);
    n
}

/// The paths that a diff changes: the new paths of its entries, each once,
/// in the order in which they first occur.
fn changed_path_list(deltas: &Vec<FileDelta>) -> (paths: Vec<String>)
    ensures
        texts(paths@) == changed_paths(delta_views(deltas@)),
{
    let ghost views = delta_views(deltas@);
    let mut paths: Vec<String> = Vec::new();
    let mut i: usize = 0;
    assert(views.take(0) =~= Seq::empty());
    assert(texts(paths@) =~= Seq::empty());
    while i < deltas.len()
        invariant
            i <= deltas.len(),
            views == delta_views(deltas@),
            texts(paths@) == changed_paths(views.take(i as int)),
        decreases deltas.len() - i,
    {
        assert(views.take(i + 1).drop_last() =~= views.take(i as int));
        assert(views.take(i + 1).last() == deltas[i as int]@);
        match &deltas[i].new_path {
            Some(p) => {
                if find_key(&paths, p) >= paths.len() {
                    let ghost before = texts(paths@);
                    paths.push(p.clone());
                    assert(texts(paths@) =~= before.push(p@));
                }
            },
            None => {},
        }
        i += 1;
    }
    assert(views.take(i as int) =~= views);
    paths
}

/// The paths that a diff deletes: the old paths of its deleted entries.
fn deleted_path_list(deltas: &Vec<FileDelta>) -> (paths: Vec<String>)
    ensures
        texts(paths@) == deleted_in(delta_views(deltas@)),
{
    let ghost views = delta_views(deltas@);
    let mut paths: Vec<String> = Vec::new();
    let mut i: usize = 0;
    assert(views.take(0) =~= Seq::empty());
    assert(texts(paths@) =~= Seq::empty());
    while i < deltas.len()
        invariant
            i <= deltas.len(),
            views == delta_views(deltas@),
            texts(paths@) == deleted_in(views.take(i as int)),
        decreases deltas.len() - i,
    {
        assert(views.take(i + 1).drop_last() =~= views.take(i as int));
        assert(views.take(i + 1).last() == deltas[i as int]@);
        if deltas[i].status == DeltaStatus::Deleted {
            match &deltas[i].old_path {
                Some(p) => {
                    let ghost before = texts(paths@);
                    paths.push(p.clone());
                    assert(texts(paths@) =~= before.push(p@));
                },
                None => {},
            }
        }
        i += 1;
    }
    assert(views.take(i as int) =~= views);
    paths
}

/// Tells whether no changed path of the diff has more added or removed
/// lines than a `u32` counts, which is what `get_changed_files` asks for.
pub fn diff_fits(deltas: &Vec<FileDelta>) -> (ok: bool)
    ensures
        ok == lines_fit(delta_views(deltas@)),
{
    let ghost views = delta_views(deltas@);
    let paths = changed_path_list(deltas);
    let mut i: usize = 0;
    while i < paths.len()
        invariant
            i <= paths.len(),
            views == delta_views(deltas@),
            texts(paths@) == changed_paths(views),
            forall|k: int|
                0 <= k < i ==> {
                    let p = #[trigger] changed_paths(views)[k];
                    lines_of(views, p, ADDED_LINE) <= u32::MAX && lines_of(views, p, REMOVED_LINE)
                        <= u32::MAX
                },
        decreases paths.len() - i,
    {
        assert(changed_paths(views)[i as int] == paths[i as int]@);
        let added = count_lines_of(deltas, &paths[i], ADDED_LINE);
        let removed = count_lines_of(deltas, &paths[i], REMOVED_LINE);
        if added > u32::MAX as u128 || removed > u32::MAX as u128 {
            return false;
        }
        i += 1;
    }
    true
}

impl GitAnalyzer {
    #[verifier::type_invariant]
    spec fn in_order(self) -> bool {
        settled(self.current_names@)
    }

    /// An analyzer for the repository at `repo_path`, which knows of no rename yet.
    pub fn new(repo_path: String) -> (analyzer: Self)
        ensures
            analyzer@ == (AnalyzerModel {
                repo_path: repo_path@,
                renames: Map::empty(),
                names: Map::empty(),
            }),
    {
        GitAnalyzer { repo_path, rename_map: PathMap::new(), current_names: PathMap::new() }
    }

    /// The place of the repository.
    pub fn repo_path(&self) -> (path: &String)
        ensures
            path@ == self@.repo_path,
    {
        &self.repo_path
    }

    /// For each path that was renamed so far, the path it was renamed to last.
    pub fn get_rename_map(&self) -> (renames: &PathMap)
        ensures
            renames@ == self@.renames,
    {
        &self.rename_map
    }

    /// The canonical name of `path`: the latest name of the file that
    /// `path` has named, or `path` itself where no rename touched it.
    pub fn canonical_path(&self, path: &String) -> (name: String)
        ensures
            name@ == resolve(self@.names, path@),
            resolve(self@.names, name@) == name@,
    {
        proof {
            use_type_invariant(self);
        }
        match self.current_names.get(path) {
            Some(name) => name.clone(),
            None => path.clone(),
        }
    }

    /// Notes that the file `old_path` was renamed to `new_path`.
    fn note_rename(&mut self, old_path: &String, new_path: &String)
        requires
            old_path@ != new_path@,
        ensures
            final(self)@ == (AnalyzerModel {
                renames: old(self)@.renames.insert(old_path@, new_path@),
                names: with_rename(old(self)@.names, old_path@, new_path@),
                ..old(self)@
            }),
    {
        proof {
            use_type_invariant(&*self);
            lemma_with_rename_settled(self.current_names@, old_path@, new_path@);
        }
        let mut work = GitAnalyzer::new(String::new());
        core::mem::swap(self, &mut work);
        let GitAnalyzer { repo_path, mut rename_map, mut current_names } = work;
        rename_map.insert(old_path.clone(), new_path.clone());
        current_names.redirect(old_path, new_path);
        current_names.insert(old_path.clone(), new_path.clone());
        current_names.insert(new_path.clone(), new_path.clone());
        *self = GitAnalyzer { repo_path, rename_map, current_names };
    }

    /// Turns the diff of a commit into the changes of files: notes the
    /// renames of the diff first, then gives one change for each changed
    /// path, under its canonical name, with the lines that the diff adds
    /// to it and removes from it, and whether the diff deletes it.
    pub fn get_changed_files(&mut self, deltas: &Vec<FileDelta>) -> (files: Vec<ChangedFile>)
        requires
            lines_fit(delta_views(deltas@)),
        ensures
            changed_file_views(files@) == changes_of(old(self)@.names, delta_views(deltas@)),
            final(self)@ == (AnalyzerModel {
                renames: renames_after(old(self)@.renames, delta_views(deltas@)),
                names: names_after(old(self)@.names, delta_views(deltas@)),
                ..old(self)@
            }),
    {
        let ghost views = delta_views(deltas@);
        let ghost start = self@;
        let mut i: usize = 0;
        assert(views.take(0) =~= Seq::empty());
        while i < deltas.len()
            invariant
                i <= deltas.len(),
                views == delta_views(deltas@),
                self@ == (AnalyzerModel {
                    renames: renames_after(start.renames, views.take(i as int)),
                    names: names_after(start.names, views.take(i as int)),
                    ..start
                }),
            decreases deltas.len() - i,
        {
            assert(views.take(i + 1).drop_last() =~= views.take(i as int));
            assert(views.take(i + 1).last() == deltas[i as int]@);
            match (&deltas[i].old_path, &deltas[i].new_path) {
                (Some(old_path), Some(new_path)) => {
                    if !(*old_path == *new_path) {
                        self.note_rename(old_path, new_path);
                    }
                },
                _ => {},
            }
            i += 1;
        }
        assert(views.take(i as int) =~= views);
        let paths = changed_path_list(deltas);
        let deleted = deleted_path_list(deltas);
        let mut files: Vec<ChangedFile> = Vec::new();
        let mut k: usize = 0;
        while k < paths.len()
            invariant
                k <= paths.len(),
                files.len() == k,
                views == delta_views(deltas@),
                lines_fit(views),
                texts(paths@) == changed_paths(views),
                texts(deleted@) == deleted_in(views),
                self@ == (AnalyzerModel {
                    renames: renames_after(start.renames, views),
                    names: names_after(start.names, views),
                    ..start
                }),
                forall|m: int|
                    0 <= m < k ==> (#[trigger] files[m])@ == change_of(
                        names_after(start.names, views),
                        views,
                        changed_paths(views)[m],
                    ),
            decreases paths.len() - k,
        {
            let path = &paths[k];
            assert(changed_paths(views)[k as int] == path@);
            let additions = count_lines_of(deltas, path, ADDED_LINE);
            let deletions = count_lines_of(deltas, path, REMOVED_LINE);
            let is_deleted = find_key(&deleted, path) < deleted.len();
            files.push(
                ChangedFile {
                    path: self.canonical_path(path),
                    additions: additions as u32,
                    deletions: deletions as u32,
                    is_deleted,
                },
            );
            k += 1;
        }
        assert(changed_file_views(files@) =~= changes_of(start.names, views));
        files
    }

    /// Takes the next commit of the history into the walk. Tells whether
    /// the counters had room for it; where they had none, the analysis is
    /// to be given up.
    pub fn take_commit(&mut self, builder: &mut FileGraphBuilder, commit: &CommitDiff) -> (taken:
        bool)
        ensures
            match after_commit(
                WalkModel { analyzer: old(self)@, builder: old(builder)@ },
                commit@,
            ) {
                Some(w) => taken && final(self)@ == w.analyzer && final(builder)@ == w.builder,
                None => !taken,
            },
    {
        if !diff_fits(&commit.deltas) {
            return false;
        }
        let changed_files = self.get_changed_files(&commit.deltas);
        if changed_files.len() == 0 {
            return true;
        }
        if !builder.can_add_commit(changed_files.as_slice()) {
            return false;
        }
        builder.add_commit(changed_files.as_slice(), Some(commit.hash.as_str()));
        true
    }

    /// Analyzes a history, given as the diffs of its commits, oldest first,
    /// and hands out the co-change graph of the repository `repo_name`.
    /// Fails where a counter has no room for a commit, and only there.
    pub fn analyze(&mut self, repo_name: String, history: &Vec<CommitDiff>) -> (result: Result<
        FileGraph,
        String,
    >)
        ensures
            match after_history(
                WalkModel { analyzer: old(self)@, builder: initial(repo_name@) },
                commit_views(history@),
            ) {
                Some(w) => result is Ok && result->Ok_0@ == finalized(w.builder) && builder_wf(
                    w.builder,
                ) && graph_in_order(result->Ok_0@) && final(self)@ == w.analyzer,
                None => result is Err && result->Err_0@ == overflow_message(),
            },
    {
        let ghost start = WalkModel { analyzer: self@, builder: initial(repo_name@) };
        let ghost commits = commit_views(history@);
        let mut builder = FileGraphBuilder::new(repo_name);
        let mut i: usize = 0;
        assert(commits.take(0) =~= Seq::empty());
        while i < history.len()
            invariant
                i <= history.len(),
                commits == commit_views(history@),
                start == (WalkModel { analyzer: old(self)@, builder: initial(repo_name@) }),
                after_history(start, commits.take(i as int)) == Some(
                    WalkModel { analyzer: self@, builder: builder@ },
                ),
            decreases history.len() - i,
        {
            assert(commits.take(i + 1).drop_last() =~= commits.take(i as int));
            assert(commits.take(i + 1).last() == history[i as int]@);
            let ghost walk = WalkModel { analyzer: self@, builder: builder@ };
            if !self.take_commit(&mut builder, &history[i]) {
                proof {
                    assert(after_commit(walk, commits[i as int]) is None);
                    assert(after_history(start, commits.take(i + 1)) is None);
                    lemma_after_history_fails(start, commits, i + 1);
                }
                return Err("Counter overflow while analyzing the history".to_owned());
            }
            i += 1;
        }
        assert(commits.take(i as int) =~= commits);
        Ok(builder.finalize())
    }
}

/// A walk that has no room for some of the first commits of a history has
/// none for the whole.
pub proof fn lemma_after_history_fails(w: WalkModel, history: Seq<CommitView>, n: int)
    requires
        0 <= n <= history.len(),
        after_history(w, history.take(n)) is None,
    ensures
        after_history(w, history) is None,
    decreases history.len() - n,
{
    if n < history.len() {
        assert(history.take(n + 1).drop_last() =~= history.take(n));
        lemma_after_history_fails(w, history, n + 1);
    } else {
        assert(history.take(n) =~= history);
    }
}

} // verus!
