//! The co-change graph as it is handed out, and one file's change within a commit.

use vstd::prelude::*;

verus! {

/// A co-change link from one file to another.
#[derive(Debug, Clone)]
pub struct Edge {
    /// The path of the file at the other end.
    pub target: String,
    /// In how many commits of the era both files changed.
    pub weight: u32,
    /// In how many commits of the era the file at the other end changed.
    pub target_commits: u32,
}

/// A file of an era, with its churn and its links.
#[derive(Debug, Clone)]
pub struct FileNode {
    pub path: String,
    pub additions: u32,
    pub deletions: u32,
    pub commit_count: u32,
    pub edges: Vec<Edge>,
}

/// A contiguous span of commits whose co-change statistics are kept together.
#[derive(Debug, Clone)]
pub struct Era {
    pub era_index: u32,
    pub commits_in_era: u32,
    /// The hash of the commit that closed the era before this one; absent for the first era.
    pub reset_commit: Option<String>,
    pub nodes: Vec<FileNode>,
}

/// The co-change graph of a repository, era by era.
#[derive(Debug, Clone)]
pub struct FileGraph {
    pub repo: String,
    pub total_commits_analyzed: u32,
    pub eras: Vec<Era>,
}

/// One file's change within one commit, under its canonical path.
#[derive(Debug, Clone)]
pub struct ChangedFile {
    pub path: String,
    pub additions: u32,
    pub deletions: u32,
    pub is_deleted: bool,
}

/// A link as the contracts see it.
pub struct EdgeView {
    pub target: Seq<char>,
    pub weight: nat,
    pub target_commits: nat,
}

/// A file of an era as the contracts see it.
pub struct FileNodeView {
    pub path: Seq<char>,
    pub additions: nat,
    pub deletions: nat,
    pub commit_count: nat,
    pub edges: Seq<EdgeView>,
}

/// An era as the contracts see it.
pub struct EraView {
    pub era_index: nat,
    pub commits_in_era: nat,
    pub reset_commit: Option<Seq<char>>,
    pub nodes: Seq<FileNodeView>,
}

/// A graph as the contracts see it.
pub struct FileGraphView {
    pub repo: Seq<char>,
    pub total_commits_analyzed: nat,
    pub eras: Seq<EraView>,
}

/// A change of a file as the contracts see it.
pub struct ChangedFileView {
    pub path: Seq<char>,
    pub additions: nat,
    pub deletions: nat,
    pub is_deleted: bool,
}

/// What an optional string holds.
pub open spec fn text_of(s: Option<String>) -> Option<Seq<char>> {
    match s {
        Some(t) => Some(t@),
        None => None,
    }
}

impl View for Edge {
    type V = EdgeView;

    open spec fn view(&self) -> EdgeView {
        EdgeView {
            target: self.target@,
            weight: self.weight as nat,
            target_commits: self.target_commits as nat,
        }
    }
}

/// What a list of links holds.
pub open spec fn edge_views(s: Seq<Edge>) -> Seq<EdgeView> {
    Seq::new(s.len(), |i: int| s[i]@)
}

impl View for FileNode {
    type V = FileNodeView;

    open spec fn view(&self) -> FileNodeView {
        FileNodeView {
            path: self.path@,
            additions: self.additions as nat,
            deletions: self.deletions as nat,
            commit_count: self.commit_count as nat,
            edges: edge_views(self.edges@),
        }
    }
}

/// What a list of files holds.
pub open spec fn file_node_views(s: Seq<FileNode>) -> Seq<FileNodeView> {
    Seq::new(s.len(), |i: int| s[i]@)
}

impl View for Era {
    type V = EraView;

    open spec fn view(&self) -> EraView {
        EraView {
            era_index: self.era_index as nat,
            commits_in_era: self.commits_in_era as nat,
            reset_commit: text_of(self.reset_commit),
            nodes: file_node_views(self.nodes@),
        }
    }
}

/// What a list of eras holds.
pub open spec fn era_views(s: Seq<Era>) -> Seq<EraView> {
    Seq::new(s.len(), |i: int| s[i]@)
}

impl View for FileGraph {
    type V = FileGraphView;

    open spec fn view(&self) -> FileGraphView {
        FileGraphView {
            repo: self.repo@,
            total_commits_analyzed: self.total_commits_analyzed as nat,
            eras: era_views(self.eras@),
        }
    }
}

impl View for ChangedFile {
    type V = ChangedFileView;

    open spec fn view(&self) -> ChangedFileView {
        ChangedFileView {
            path: self.path@,
            additions: self.additions as nat,
            deletions: self.deletions as nat,
            is_deleted: self.is_deleted,
        }
    }
}

/// What a list of changes holds.
pub open spec fn changed_file_views(s: Seq<ChangedFile>) -> Seq<ChangedFileView> {
    Seq::new(s.len(), |i: int| s[i]@)
}

impl FileGraph {
    /// The graph of a repository of which no commit was analysed yet.
    pub fn new(repo: String) -> (graph: Self)
        ensures
            graph@ == (FileGraphView {
                repo: repo@,
                total_commits_analyzed: 0,
                eras: Seq::empty(),
            }),
    {
        let graph = FileGraph { repo, total_commits_analyzed: 0, eras: Vec::new() };
        assert(era_views(graph.eras@) =~= Seq::empty());
        graph
    }
}

} // verus!
