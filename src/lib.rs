//! Detection of the variable region shared by a collection of sequencing
//! records, and the record-level transforms around it.

pub mod clip;
pub mod counts;
pub mod csv;
pub mod emit;
pub mod error;
pub mod record;
pub mod region;
pub mod trim;
