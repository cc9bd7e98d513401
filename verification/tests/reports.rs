use loom::cfg::{BasicBlock, ControlFlowGraph};
use loom::ir::{Condition, Expression, Program, Source, Statement};
use loom::report::{cfg_report, use_def_report};
use loom::ssa::build_use_def_chains;

#[test]
fn cfg_report_lists_each_block() {
    let cfg = ControlFlowGraph {
        blocks: vec![
            BasicBlock {
                id: 0,
                statements: vec![Statement::NoOp, Statement::NoOp],
                successors: vec![1, 2],
                idom: None,
                dom_children: vec![1, 2],
                dominance_frontier: Vec::new(),
            },
            BasicBlock {
                id: 1,
                statements: Vec::new(),
                successors: Vec::new(),
                idom: Some(0),
                dom_children: Vec::new(),
                dominance_frontier: vec![10],
            },
        ],
    };
    let lines = cfg_report(&cfg);
    assert_eq!(
        lines,
        vec![
            "CFG",
            "Block 0 (2 statements)",
            "Successors: [1, 2]",
            "idom(0) = None",
            "Dominator Children: [1, 2]",
            "Dominance Frontier: []",
            "Block 1 (0 statements)",
            "Successors: []",
            "idom(1) = Some(0)",
            "Dominator Children: []",
            "Dominance Frontier: [10]",
        ]
    );
}

#[test]
fn use_def_report_sorts_names() {
    let program = Program {
        variables: Vec::new(),
        paragraphs: Vec::new(),
        statements: vec![
            Statement::Move { source: Source::Literal(10), target: "B".to_string() },
            Statement::Move { source: Source::Literal(20), target: "A".to_string() },
            Statement::Compute {
                target: "C".to_string(),
                expr: Expression::Binary {
                    left: Box::new(Expression::Variable("A".to_string())),
                    operator: "+".to_string(),
                    right: Box::new(Expression::Variable("Z".to_string())),
                },
            },
            Statement::If {
                condition: Condition { left: "C".to_string(), operator: ">".to_string(), right: "A".to_string() },
                then_branch: Vec::new(),
                else_branch: None,
            },
        ],
    };
    let chains = build_use_def_chains(&program);
    let lines = use_def_report(&chains);
    assert_eq!(
        lines,
        vec![
            "",
            "=== USE-DEF CHAINS ===",
            "A -> defs: Some([1]), uses: [2, 3]",
            "B -> defs: Some([0]), uses: []",
            "C -> defs: Some([2]), uses: [3]",
            "Z -> defs: None, uses: [2]",
            "",
        ]
    );
}
