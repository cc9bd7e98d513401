use loom::cfg::{
    build_dominator_tree, compute_dominance_frontier, compute_dominators,
    compute_immediate_dominators, BasicBlock, ControlFlowGraph,
};
use loom::ir::{Condition, Literal, Program, Source, Statement};

#[test]
fn test_if_creates_branch_and_join() {
    let program = Program {
        variables: Vec::new(),
        paragraphs: Vec::new(),
        statements: vec![
            Statement::Move {
                source: Source::Literal(1),
                target: "A".to_string(),
            },
            Statement::If {
                condition: Condition {
                    left: "A".to_string(),
                    operator: "=".to_string(),
                    right: "1".to_string(),
                },

                then_branch: vec![Statement::Move {
                    source: Source::Literal(10),
                    target: "B".to_string(),
                }],

                else_branch: Some(vec![Statement::Move {
                    source: Source::Literal(20),
                    target: "B".to_string(),
                }]),
            },
            Statement::Display {
                value: Literal::String("DONE".to_string()),
            },
        ],
    };

    let cfg = ControlFlowGraph::build(&program);


    // Expected structure:
    //
    // block 0 -> block 1
    // block 1 -> then block + else block
    // then block -> join block
    // else block -> join block
    //
    // Therefore we need at least 5 blocks.

    assert!(
        cfg.blocks.len() >= 5,
        "expected at least 5 blocks for IF/ELSE CFG, got {}",
        cfg.blocks.len()
    );

    let branch_block = &cfg.blocks[1];

    assert_eq!(
        branch_block.successors.len(),
        2,
        "IF block should have two successors"
    );

    let then_block = branch_block.successors[0];
    let else_block = branch_block.successors[1];

    assert_ne!(
        then_block, else_block,
        "then and else branches must be different blocks"
    );

    let then_successors = &cfg.blocks[then_block].successors;
    let else_successors = &cfg.blocks[else_block].successors;

    assert_eq!(
        then_successors.len(),
        1,
        "then branch should flow into the join block"
    );

    assert_eq!(
        else_successors.len(),
        1,
        "else branch should flow into the join block"
    );

    assert_eq!(
        then_successors[0], else_successors[0],
        "then and else branches should converge"
    );
}

#[test]
fn test_dominance_frontier_branch_join() {
    let mut cfg = ControlFlowGraph {
        blocks: vec![
            BasicBlock {
                id: 0,
                statements: Vec::new(),
                successors: vec![1, 2],
                idom: None,
                dom_children: Vec::new(),
                dominance_frontier: Vec::new(),
            },
            BasicBlock {
                id: 1,
                statements: Vec::new(),
                successors: vec![3],
                idom: None,
                dom_children: Vec::new(),
                dominance_frontier: Vec::new(),
            },
            BasicBlock {
                id: 2,
                statements: Vec::new(),
                successors: vec![3],
                idom: None,
                dom_children: Vec::new(),
                dominance_frontier: Vec::new(),
            },
            BasicBlock {
                id: 3,
                statements: Vec::new(),
                successors: Vec::new(),
                idom: None,
                dom_children: Vec::new(),
                dominance_frontier: Vec::new(),
            },
        ],
    };

    let dom = compute_dominators(&cfg);

    let idom = compute_immediate_dominators(&cfg, &dom);

    for i in 0..cfg.blocks.len() {
        cfg.blocks[i].idom = idom[i];
    }

    build_dominator_tree(&mut cfg);

    compute_dominance_frontier(&mut cfg);

    assert_eq!(cfg.blocks[0].idom, None);

    assert_eq!(cfg.blocks[1].idom, Some(0));

    assert_eq!(cfg.blocks[2].idom, Some(0));

    assert_eq!(cfg.blocks[3].idom, Some(0));

    assert_eq!(cfg.blocks[1].dominance_frontier, vec![3]);

    assert_eq!(cfg.blocks[2].dominance_frontier, vec![3]);
}
