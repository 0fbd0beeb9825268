//! Co-change graphs of the files of a repository, built from its commit history.

pub mod builder_lemmas;
pub mod builder_model;
pub mod diff_model;
pub mod era_lemmas;
pub mod era_model;
pub mod file_graph;
pub mod git_analyzer;
pub mod github_links;
pub mod graph_builder;
pub mod keys;
pub mod laws;
pub mod paging;
pub mod path_map;
pub mod path_order;
pub mod ranking;

pub use file_graph::{ChangedFile, Edge, Era, FileGraph, FileNode};
pub use diff_model::DeltaStatus;
pub use git_analyzer::{CommitDiff, FileDelta, GitAnalyzer};
pub use graph_builder::FileGraphBuilder;
pub use path_map::PathMap;
