//! A replicated key-value store: frames exchanged between clients and
//! servers, the log entries that the consensus layer decides, and the state
//! machine that applies decided entries to a write-ahead log and a key-value
//! map.
pub mod text;
pub mod frame;
pub mod resp;
pub mod data_structure;
pub mod ddbb_server;
pub mod lin_test;
pub mod cli;
