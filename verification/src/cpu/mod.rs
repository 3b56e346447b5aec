//! The host's share of the search.

mod bucket_map;
pub mod dp_table;
pub mod init;
pub mod wild;
