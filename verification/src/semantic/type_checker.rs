//! Type checking of statements.
use crate::ir::Statement;
use vstd::prelude::*;

verus! {

/// The type errors of a program: no check reports any yet.
pub fn check(_program: &Vec<Statement>) -> (r: Vec<String>)
    ensures
        r@.len() == 0,
{
    Vec::new()
}

} // verus!
