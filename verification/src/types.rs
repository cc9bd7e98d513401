//! The types that translated programs give to data items.
use crate::text::{contains, upper};
use vstd::prelude::*;

verus! {

/// A data type of a translated program.
#[derive(Debug)]
pub enum LoomType {
    Integer,
    Decimal,
    String,
    Boolean,
    Array(Box<LoomType>),
    Unknown,
}

/// The type of a picture string: digits make a number (decimal with an
/// implied point `V`), otherwise `X` makes a string. Letters are compared
/// in upper case.
pub open spec fn type_of_pic(pic: Seq<char>) -> LoomType {
    let u = upper(pic);
    if contains(u, "9"@) {
        if contains(u, "V"@) {
            LoomType::Decimal
        } else {
            LoomType::Integer
        }
    } else if contains(u, "X"@) {
        LoomType::String
    } else {
        LoomType::Unknown
    }
}

impl LoomType {
    pub fn from_pic(pic: &str) -> (r: Self)
        ensures
            r == type_of_pic(pic@),
    {
        let cs = crate::text::chars_of(pic);
        let u = crate::text::to_upper(cs.as_slice());
        if crate::text::contains_str(u.as_slice(), "9") {
            if crate::text::contains_str(u.as_slice(), "V") {
                LoomType::Decimal
            } else {
                LoomType::Integer
            }
        } else if crate::text::contains_str(u.as_slice(), "X") {
            LoomType::String
        } else {
            LoomType::Unknown
        }
    }
}

} // verus!
