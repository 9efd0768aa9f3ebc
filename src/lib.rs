//! Download-cache validation and partitioning of a CSV dataset into one
//! output file per value of a key column.

pub mod cache;
pub mod group;
pub mod csv_format;
pub mod partition;
