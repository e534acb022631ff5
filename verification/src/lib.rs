//! Line-oriented diff and three-way merge, the content-addressed key-value
//! store layout and the commit bookkeeping of the `blaze` version-control tool.

pub mod table;
pub mod lcs;
pub mod diff;
pub mod merge;
pub mod key;
pub mod kv;
pub mod vfs;
pub mod command;
pub mod cli;
pub mod commit;
pub mod partition;
pub mod render;
pub mod text;
