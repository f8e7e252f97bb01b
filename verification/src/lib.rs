//! Time-bucketed, group-level traffic volume matrices from legacy packet
//! captures.
//!
//! One capture file per simulated host is scanned into a per-file timeline of
//! sparse host-pair traffic matrices; the timelines are padded to a common
//! length, merged interval by interval, and each merged matrix is aggregated
//! into a fixed-size group-pair matrix and rendered as text.

pub mod aggregate;
pub mod groups;
pub mod ipaddr;
pub mod matrix;
pub mod merge;
pub mod pcap;
pub mod render;
pub mod resolver;
pub mod scanner;
pub mod topology;
