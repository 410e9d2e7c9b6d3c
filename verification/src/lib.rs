//! Verified core of a disk-space analyser: raw NTFS structure parsing,
//! directory-tree construction and aggregation, and the queries that are
//! answered over a finished scan.
pub mod bytes;
pub mod error;
pub mod runs;
pub mod boot;
pub mod text;
pub mod record;
pub mod models;
pub mod tree;
pub mod desktop_tree;
pub mod ntfs_tree;
pub mod walk;
pub mod order;
pub mod query;
pub mod drive;
pub mod progress;
pub mod elevate;
pub mod elevation;
pub mod volume;
pub mod hardware;
pub mod stats;
pub mod laws;
pub mod desktop_laws;
pub mod treemap;
pub mod duplicates;
pub mod mft_reader;
pub mod launcher;
pub mod explorer;
pub mod rpc;
