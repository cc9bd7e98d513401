use loom::cfg::ControlFlowGraph;
use loom::ir::{Condition, Expression, Program, Source, Statement};
use loom::ssa::{build_use_def_chains, find_phi_candidates, insert_phi_nodes, PhiCandidate};

#[test]
fn test_use_def_chains() {
    let program = Program {
        variables: Vec::new(),

        paragraphs: Vec::new(),

        statements: vec![
            Statement::Move {
                source: Source::Literal(10),

                target: "A".to_string(),
            },
            Statement::Move {
                source: Source::Literal(20),

                target: "B".to_string(),
            },
            Statement::Compute {
                target: "C".to_string(),

                expr: Expression::Binary {
                    left: Box::new(Expression::Variable("A".to_string())),

                    operator: "+".to_string(),

                    right: Box::new(Expression::Variable("B".to_string())),
                },
            },
            Statement::If {
                condition: Condition {
                    left: "C".to_string(),

                    operator: ">".to_string(),

                    right: "A".to_string(),
                },

                then_branch: Vec::new(),

                else_branch: None,
            },
        ],
    };

    let chains = build_use_def_chains(&program);

    assert_eq!(chains.defs.get("A"), Some(&vec![0]));

    assert_eq!(chains.defs.get("B"), Some(&vec![1]));

    assert_eq!(chains.defs.get("C"), Some(&vec![2]));

    assert_eq!(chains.uses.get("A"), Some(&vec![2, 3]));

    assert_eq!(chains.uses.get("B"), Some(&vec![2]));

    assert_eq!(chains.uses.get("C"), Some(&vec![3]));
}

#[test]
fn test_phi_candidate_for_nested_branch_definitions() {
    let program = Program {
        variables: Vec::new(),
        paragraphs: Vec::new(),
        statements: vec![
            Statement::If {
                condition: Condition {
                    left: "A".to_string(),
                    operator: "=".to_string(),
                    right: "1".to_string(),
                },

                then_branch: vec![
                    Statement::Move {
                        source: Source::Literal(10),
                        target: "X".to_string(),
                    },
                    Statement::If {
                        condition: Condition {
                            left: "B".to_string(),
                            operator: "=".to_string(),
                            right: "1".to_string(),
                        },

                        then_branch: vec![Statement::Move {
                            source: Source::Literal(20),
                            target: "X".to_string(),
                        }],

                        else_branch: Some(vec![Statement::Move {
                            source: Source::Literal(30),
                            target: "X".to_string(),
                        }]),
                    },
                ],

                else_branch: Some(vec![Statement::Move {
                    source: Source::Literal(40),
                    target: "X".to_string(),
                }]),
            },
            Statement::Move {
                source: Source::Variable("X".to_string()),
                target: "Y".to_string(),
            },
        ],
    };

    let cfg = ControlFlowGraph::build(&program);


    let candidates = find_phi_candidates(&program, &cfg);

    println!("");
    println!("=== Phi Candidates ===");

    for candidate in &candidates {
        println!("variable={} block={}", candidate.variable, candidate.block);
    }

    let x_candidates: Vec<&PhiCandidate> = candidates
        .iter()
        .filter(|candidate| candidate.variable == "X")
        .collect();

    assert!(
        !x_candidates.is_empty(),
        "expected at least one phi candidate for X"
    );
}

#[test]
fn test_use_def_chains_include_nested_definitions() {
    let program = Program {
        variables: Vec::new(),
        paragraphs: Vec::new(),
        statements: vec![Statement::If {
            condition: Condition {
                left: "A".to_string(),
                operator: "=".to_string(),
                right: "1".to_string(),
            },

            then_branch: vec![
                Statement::Move {
                    source: Source::Literal(10),
                    target: "X".to_string(),
                },
                Statement::If {
                    condition: Condition {
                        left: "B".to_string(),
                        operator: "=".to_string(),
                        right: "1".to_string(),
                    },

                    then_branch: vec![Statement::Move {
                        source: Source::Literal(20),
                        target: "X".to_string(),
                    }],

                    else_branch: Some(vec![Statement::Move {
                        source: Source::Literal(30),
                        target: "X".to_string(),
                    }]),
                },
            ],

            else_branch: Some(vec![Statement::Move {
                source: Source::Literal(40),
                target: "X".to_string(),
            }]),
        }],
    };

    let chains = build_use_def_chains(&program);

    assert_eq!(chains.defs.get("X"), Some(&vec![1, 3, 4, 5]));
}

#[test]
fn test_phi_insertion_is_deterministic_for_multiple_variables() {
    let program = Program {
        variables: Vec::new(),
        paragraphs: Vec::new(),
        statements: vec![
            Statement::If {
                condition: Condition {
                    left: "A".to_string(),
                    operator: "=".to_string(),
                    right: "1".to_string(),
                },
                then_branch: vec![
                    Statement::Move {
                        source: Source::Literal(10),
                        target: "X".to_string(),
                    },
                    Statement::Move {
                        source: Source::Literal(30),
                        target: "Y".to_string(),
                    },
                ],
                else_branch: Some(vec![
                    Statement::Move {
                        source: Source::Literal(20),
                        target: "X".to_string(),
                    },
                    Statement::Move {
                        source: Source::Literal(40),
                        target: "Y".to_string(),
                    },
                ]),
            },
            Statement::Move {
                source: Source::Variable("X".to_string()),
                target: "Z".to_string(),
            },
            Statement::Move {
                source: Source::Variable("Y".to_string()),
                target: "W".to_string(),
            },
        ],
    };

    let cfg = ControlFlowGraph::build(&program);

    let first = insert_phi_nodes(&program, &cfg);
    let second = insert_phi_nodes(&program, &cfg);

    let first_phis: Vec<String> = first
        .statements
        .iter()
        .filter_map(|stmt| match stmt {
            Statement::Phi { variable, .. } => Some(variable.clone()),
            _ => None,
        })
        .collect();

    let second_phis: Vec<String> = second
        .statements
        .iter()
        .filter_map(|stmt| match stmt {
            Statement::Phi { variable, .. } => Some(variable.clone()),
            _ => None,
        })
        .collect();

    assert_eq!(
        first_phis,
        vec!["X".to_string(), "Y".to_string()],
        "expected deterministic Phi nodes for X and Y"
    );

    assert_eq!(
        first_phis, second_phis,
        "Phi insertion must be deterministic"
    );
}

#[test]
fn convert_to_ssa_reads_the_reaching_definition() {
    let mut program = Program {
        variables: Vec::new(),
        paragraphs: Vec::new(),
        statements: vec![
            Statement::Move { source: Source::Literal(1), target: "X".to_string() },
            Statement::Move { source: Source::Variable("X".to_string()), target: "Y".to_string() },
            Statement::Move { source: Source::Literal(2), target: "X".to_string() },
        ],
    };
    loom::ssa::convert_to_ssa(&mut program);
    let got: Vec<(String, String)> = program
        .statements
        .iter()
        .map(|s| match s {
            Statement::Move { source: Source::Literal(n), target } => (n.to_string(), target.clone()),
            Statement::Move { source: Source::Variable(v), target } => (v.clone(), target.clone()),
            other => panic!("unexpected statement {:?}", other),
        })
        .collect();
    assert_eq!(
        got,
        vec![
            ("1".to_string(), "X_0".to_string()),
            ("X_0".to_string(), "Y_0".to_string()),
            ("2".to_string(), "X_1".to_string()),
        ]
    );
}
