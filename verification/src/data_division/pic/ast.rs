//! The model of a picture clause.
use vstd::prelude::*;

verus! {

/// What a picture holds.
#[derive(Debug, Clone, Copy, PartialEq, Eq, Structural)]
pub enum PictureCategory {
    Alphabetic,
    Alphanumeric,
    Numeric,
}

/// How an item is stored.
#[derive(Debug, Clone, Copy, PartialEq, Eq, Structural)]
pub enum Usage {
    Display,
    Binary,
    Comp,
    Comp3,
}

/// A parsed picture clause: sign, category, number of digits or
/// characters, digits after the implied decimal point, and usage.
#[derive(Debug, Clone, Copy, PartialEq, Eq, Structural)]
pub struct PictureClause {
    pub signed: bool,
    pub category: PictureCategory,
    pub length: usize,
    pub scale: usize,
    pub usage: Usage,
}

} // verus!
