//! Verified core of a server for Wikipedia revisions.
//!
//! Revisions are compressed and appended to a fixed number of data files, and found again
//! through position indices (by revision id) and date indices (by time of edit). This crate
//! decides where each revision goes, what every index holds, and what a query returns. The
//! surrounding program performs the file, process and network operations.

pub mod archive;
pub mod buckets;
pub mod date_index;
pub mod download;
pub mod external;
pub mod instant;
pub mod layout;
pub mod periods;
pub mod pipes;
pub mod positions;
pub mod records;
pub mod revision;
pub mod state;
pub mod text;
pub mod time_map;

