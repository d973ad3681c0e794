//! A progressive duplicate-file detection pipeline.
//!
//! Byte-identical files across directory trees are found by filtering
//! candidates through ever more expensive signals: exact byte size, a fast
//! fingerprint of a bounded leading window, and finally a full-content
//! cryptographic digest. Each stage discards every key borne by a single
//! candidate — such a file can have no duplicate — so later stages only pay
//! for survivors.
//!
//! The library holds the verified logic: enumeration filtering, the
//! bucketing stages, cluster assembly, statistics and report shaping. File
//! and directory I/O stays with the caller, which hands in plain byte
//! values: paths, sizes, leading windows and streamed content chunks.

pub mod bytes;
pub mod cluster;
pub mod fingerprint;
pub mod grouping;
pub mod hashing;
pub mod laws;
pub mod records;
pub mod report;
pub mod stats;
