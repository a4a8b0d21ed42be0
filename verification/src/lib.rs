//! Verified reader for the metadata of a ZIP archive: locating the
//! End-Of-Central-Directory record under an arbitrary trailing comment and
//! walking the Central Directory to recover each entry's name, size and
//! flags, plus the planning helpers built on top of those entries.

pub mod encoding;
pub mod fields;
pub mod planner;
pub mod roundtrip;
pub mod zip;
