//! Addressing and catalog reconciliation for data that varies across named dimensions.
pub mod dimensions;
pub mod flags;
pub mod metadata;
