//! Apple Partition Map reader and forensic anomaly auditor.
//!
//! [`map::parse`] decodes the Driver Descriptor Map and the `PM` partition
//! entries of a big-endian Apple Partition Map; [`analyse::analyse`] grades the
//! decoded geometry into severity-ranked findings ([`findings::Anomaly`]).
//! Every decoder and check is stated against a mathematical model of the bytes
//! and proved by Verus.

pub mod be;
pub mod map;
pub mod text;
pub mod findings;
pub mod knowledge;
pub mod analyse;
pub mod report;
pub mod volumes;
pub mod reading;
pub mod laws;

pub use analyse::{analyse, Error};
pub use findings::{Anomaly, AnomalyKind, ApmAnalysis, Severity};
pub use map::{parse, ApmPartition, ApplePartitionMap};
