//! Core logic of the Rekha vector database.
pub mod api;
pub mod bitmap;
pub mod bytes;
pub mod catalog;
pub mod chars;
pub mod chord;
pub mod chroma;
pub mod cli;
pub mod client;
pub mod cluster;
pub mod collection;
pub mod command;
pub mod config;
pub mod display;
pub mod engine;
pub mod error;
pub mod filter;
pub mod hashing;
pub mod idmap;
pub mod ids;
pub mod index;
pub mod json;
pub mod json_text;
pub mod log_store;
pub mod membership;
pub mod network;
pub mod num;
pub mod op;
pub mod peer_state;
pub mod postings;
pub mod raft_types;
pub mod readings;
pub mod repl;
pub mod replication;
pub mod ring;
pub mod rpc;
pub mod segment;
pub mod sort;
pub mod sql;
pub mod state_machine;
pub mod storage;
pub mod table;
pub mod tags;
pub mod text;
pub mod transfer;
pub mod types;
pub mod wal;
