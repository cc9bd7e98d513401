//! The data division: picture clauses and storage classes.
pub mod pic;
pub mod storage;
