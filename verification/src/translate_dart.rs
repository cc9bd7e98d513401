//! Translation of functions to Dart, by the rules of the Kotlin translation.
use crate::ir::{stmts_view, Function};
use crate::translate_kotlin::{function_exec, function_text};
use vstd::prelude::*;

verus! {

/// The Dart text of a function: `void name() { .. }`, each statement ended
/// by `;`.
pub fn translate(function: &Function) -> (r: String)
    ensures
        r@ == function_text(function.name@, stmts_view(function.body@), true),
{
    function_exec(function, true)
}

} // verus!
