//! A tree of file paths, each tagged with a group, kept in an arena of
//! slots that are tombstoned on removal and never reused.
pub mod path;
pub mod filetree;

pub use filetree::FileTree;
