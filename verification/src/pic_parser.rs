//! Classification of picture strings and usage clauses.
use crate::ir::{CompType, PicType};
use crate::text::{contains, find_char, parse_nat, upper};
use vstd::prelude::*;

verus! {

/// The kind of a picture string: alphanumeric or alphabetic with a count,
/// decimal with an implied point, numeric; `None` otherwise. Letters are
/// compared in upper case.
pub open spec fn pic_kind(pic: Seq<char>) -> Option<PicType> {
    let u = upper(pic);
    if contains(u, "X("@) || contains(u, "A("@) {
        Some(PicType::Alpha)
    } else if contains(u, "V"@) {
        Some(PicType::Decimal)
    } else if contains(u, "9"@) {
        Some(PicType::Numeric)
    } else {
        None
    }
}

pub fn parse_pic(pic: &str) -> (r: Option<PicType>)
    ensures
        r == pic_kind(pic@),
{
    let cs = crate::text::chars_of(pic);
    let u = crate::text::to_upper(cs.as_slice());
    if crate::text::contains_str(u.as_slice(), "X(") || crate::text::contains_str(u.as_slice(), "A(") {
        Some(PicType::Alpha)
    } else if crate::text::contains_str(u.as_slice(), "V") {
        Some(PicType::Decimal)
    } else if crate::text::contains_str(u.as_slice(), "9") {
        Some(PicType::Numeric)
    } else {
        None
    }
}

/// The packing a line asks for: `COMP-3`, else `COMP`, in any case.
pub open spec fn comp_kind(line: Seq<char>) -> Option<CompType> {
    let u = upper(line);
    if contains(u, "COMP-3"@) {
        Some(CompType::Comp3)
    } else if contains(u, "COMP"@) {
        Some(CompType::Comp)
    } else {
        None
    }
}

pub fn parse_comp(line: &str) -> (r: Option<CompType>)
    ensures
        r == comp_kind(line@),
{
    let cs = crate::text::chars_of(line);
    let u = crate::text::to_upper(cs.as_slice());
    if crate::text::contains_str(u.as_slice(), "COMP-3") {
        Some(CompType::Comp3)
    } else if crate::text::contains_str(u.as_slice(), "COMP") {
        Some(CompType::Comp)
    } else {
        None
    }
}

/// The count between the first `(` and the first `)` of a picture; 1 when
/// there is none or it is not a number.
pub open spec fn len_of(pic: Seq<char>) -> usize {
    match (find_char(pic, '('), find_char(pic, ')')) {
        (Some(s), Some(e)) => match parse_nat(pic.subrange(s + 1, e)) {
            Some(n) => n,
            None => 1,
        },
        _ => 1,
    }
}

/// Whether the first `)` comes after the first `(` when both occur.
pub open spec fn parens_ordered(pic: Seq<char>) -> bool {
    match (find_char(pic, '('), find_char(pic, ')')) {
        (Some(s), Some(e)) => s < e,
        _ => true,
    }
}

pub fn extract_len(pic: &str) -> (r: usize)
    requires
        parens_ordered(pic@),
    ensures
        r == len_of(pic@),
{
    let cs = crate::text::chars_of(pic);
    match crate::text::find_first(cs.as_slice(), '(') {
        Some(start) => match crate::text::find_first(cs.as_slice(), ')') {
            Some(end) => {
                let inner = crate::text::slice_of(cs.as_slice(), start + 1, end);
                match crate::text::parse_usize(inner.as_slice()) {
                    Some(n) => n,
                    None => 1,
                }
            },
            None => 1,
        },
        None => 1,
    }
}

} // verus!
