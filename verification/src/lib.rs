//! The logic of notion-fs, a read-only file system that presents the tickets of Notion databases as
//! Markdown files at `project/assignee/status/ticket-id.md`.

pub mod cache;
pub mod client;
pub mod config;
pub mod dict;
pub mod fs;
pub mod inode;
pub mod json;
pub mod listing;
pub mod lookup;
pub mod notion;
pub mod path;
pub mod slug;
pub mod sums;
pub mod text;
pub mod tree;
