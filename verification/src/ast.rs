//! The syntax tree that front ends produce before lowering to the IR.
use vstd::prelude::*;

verus! {

/// A statement as written in the source.
#[derive(Debug)]
pub enum AstStatement {
    Move { source: String, target: String },
    Add { value: String, target: String },
    Display { value: String },
    If {
        condition: AstCondition,
        then_branch: Vec<AstStatement>,
        else_branch: Option<Vec<AstStatement>>,
    },
    PerformUntil { condition: AstCondition, body: Vec<AstStatement> },
    PerformVarying {
        variable: String,
        from: String,
        by: String,
        until: AstCondition,
        body: Vec<AstStatement>,
    },
    Evaluate { value: String, whens: Vec<AstWhen> },
    String { sources: Vec<String>, target: String },
    Unstring { source: String, delimiter: String, targets: Vec<String> },
    Inspect { source: String, replacing_from: String, replacing_to: String },
}

/// A comparison: left operand, operator, right operand.
#[derive(Debug)]
pub struct AstCondition {
    pub left: String,
    pub operator: String,
    pub right: String,
}

/// One `WHEN` arm of an `EVALUATE`.
#[derive(Debug)]
pub struct AstWhen {
    pub condition: String,
    pub body: Vec<AstStatement>,
}

} // verus!
