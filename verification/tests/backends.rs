use loom::interpreter::{Interpreter, RunStatus};
use loom::ir::{Condition, Expression, Function, Literal, Paragraph, Program, Source, Statement};
use loom::migration::{Routing, StranglerFig};
use loom::optimizer::optimize;
use loom::translate_python::translate;
use loom::validation::{
    collect_variables, generate_test_cases, outputs_agree, parse_key_val, parse_output,
};

fn mv(n: i64, t: &str) -> Statement {
    Statement::Move { source: Source::Literal(n), target: t.to_string() }
}

fn mv_var(v: &str, t: &str) -> Statement {
    Statement::Move { source: Source::Variable(v.to_string()), target: t.to_string() }
}

fn binary(a: i64, op: &str, b: i64) -> Expression {
    Expression::Binary {
        left: Box::new(Expression::Literal(Literal::Int(a))),
        operator: op.to_string(),
        right: Box::new(Expression::Literal(Literal::Int(b))),
    }
}

fn compute(t: &str, e: Expression) -> Statement {
    Statement::Compute { target: t.to_string(), expr: e }
}

fn empty_program(statements: Vec<Statement>) -> Program {
    Program { variables: Vec::new(), paragraphs: Vec::new(), statements }
}

fn readme_function() -> Function {
    Function {
        name: "translated_func".to_string(),
        body: vec![
            mv(5, "X"),
            Statement::Add { value: 10, target: "X".to_string() },
            Statement::Display { value: Literal::String("X".to_string()) },
        ],
    }
}

#[test]
fn interpreter_runs_a_function() {
    let mut it = Interpreter::new();
    it.add_function(readme_function());
    let vars = it.run("translated_func", vec![("Y".to_string(), 3)], 100);
    assert_eq!(vars, vec![("Y".to_string(), 3), ("X".to_string(), 15)]);
    assert_eq!(it.output(), &vec!["X".to_string()]);
    assert_eq!(it.status(), RunStatus::Running);
}

#[test]
fn interpreter_stops_on_overflow_and_on_fuel() {
    let mut it = Interpreter::new();
    it.add_function(Function {
        name: "f".to_string(),
        body: vec![mv(i64::MAX, "A"), Statement::Add { value: 1, target: "A".to_string() }],
    });
    let vars = it.run("f", Vec::new(), 100);
    assert_eq!(vars, vec![("A".to_string(), i64::MAX)]);
    assert_eq!(it.status(), RunStatus::Overflow);

    let mut it = Interpreter::new();
    it.add_function(readme_function());
    let vars = it.run("translated_func", Vec::new(), 1);
    assert_eq!(vars, vec![("X".to_string(), 5)]);
    assert_eq!(it.status(), RunStatus::OutOfFuel);
}

#[test]
fn interpreter_unknown_function_only_sets_inputs() {
    let mut it = Interpreter::new();
    let vars = it.run("nothing", vec![("A".to_string(), 1), ("A".to_string(), 2)], 10);
    assert_eq!(vars, vec![("A".to_string(), 2)]);
}

#[test]
fn interpreter_if_and_loop() {
    let mut it = Interpreter::new();
    it.add_function(Function {
        name: "f".to_string(),
        body: vec![
            mv(0, "I"),
            Statement::PerformUntil {
                condition: Condition { left: "I".to_string(), operator: "=".to_string(), right: "3".to_string() },
                body: vec![Statement::Add { value: 1, target: "I".to_string() }],
            },
            Statement::If {
                condition: Condition { left: "I".to_string(), operator: "=".to_string(), right: "3".to_string() },
                then_branch: vec![Statement::Display { value: Literal::Int(1) }],
                else_branch: Some(vec![Statement::Display { value: Literal::Int(0) }]),
            },
        ],
    });
    let vars = it.run("f", Vec::new(), 1000);
    assert_eq!(vars, vec![("I".to_string(), 3)]);
    assert_eq!(it.output(), &vec!["1".to_string()]);
}

#[test]
fn python_translation_of_readme_example() {
    let text = translate(&readme_function());
    assert_eq!(text, "def translated_func():\n    x = 5\n    x = x + 10\n    print(x)\n");
}

#[test]
fn python_translation_quotes_text_and_lowers_names() {
    let f = Function {
        name: "f".to_string(),
        body: vec![
            Statement::Display { value: Literal::String("\"HELLO WORLD\"".to_string()) },
            Statement::Display { value: Literal::Int(7) },
            mv_var("WS-A", "Total"),
            Statement::If {
                condition: Condition { left: "COUNT".to_string(), operator: ">".to_string(), right: "5".to_string() },
                then_branch: vec![Statement::Perform { name: Some("Para".to_string()), body: Vec::new() }],
                else_branch: None,
            },
        ],
    };
    assert_eq!(
        translate(&f),
        "def f():\n    print('\"HELLO WORLD\"')\n    print(7)\n    total = ws-a\n    if count > 5:\n        Para()\n"
    );
}

#[test]
fn kotlin_translation_of_readme_example() {
    let text = loom::translate_kotlin::translate(&readme_function());
    assert_eq!(text, "fun translated_func() {\n    X = 5\n    X += 10\n    println(X)\n}\n");
    assert!(text.contains("translated_func") && text.contains("X"));
}

#[test]
fn dart_translation_of_readme_example() {
    let text = loom::translate_dart::translate(&readme_function());
    assert_eq!(text, "void translated_func() {\n    X = 5;\n    X += 10;\n    print(X);\n}\n");
}

#[test]
fn dart_translation_of_loop_and_branch() {
    let f = Function {
        name: "g".to_string(),
        body: vec![
            Statement::PerformUntil {
                condition: Condition { left: "I".to_string(), operator: "=".to_string(), right: "3".to_string() },
                body: vec![Statement::Add { value: 1, target: "I".to_string() }],
            },
            Statement::If {
                condition: Condition { left: "I".to_string(), operator: "<".to_string(), right: "J".to_string() },
                then_branch: vec![Statement::Display { value: Literal::String("LOW VALUE".to_string()) }],
                else_branch: Some(vec![Statement::Subtract { value: "2".to_string(), target: "J".to_string() }]),
            },
        ],
    };
    assert_eq!(
        loom::translate_dart::translate(&f),
        "void g() {\n    while (!(I == 3)) {\n        I += 1;\n    }\n    if (I < J) {\n        print(\"LOW VALUE\");\n    } else {\n        J -= 2;\n    }\n}\n"
    );
}

#[test]
fn zig_translation_of_readme_example() {
    let text = loom::translate_zig::translate(&readme_function());
    assert_eq!(
        text,
        "fn translated_func() void {\n    X = 5;\n    X = X + 10;\n    std.debug.print(\"{}\\n\", .{X});\n}\n"
    );
}

#[test]
fn zig_translation_of_empty_function_and_branches() {
    let empty = Function { name: "f".to_string(), body: Vec::new() };
    assert_eq!(loom::translate_zig::translate(&empty), "fn translated_func() void {\n    // nothing\n}\n");
    let f = Function {
        name: "f".to_string(),
        body: vec![Statement::If {
            condition: Condition { left: "A".to_string(), operator: "=".to_string(), right: "1".to_string() },
            then_branch: vec![Statement::Perform { name: Some("P".to_string()), body: Vec::new() }],
            else_branch: Some(vec![Statement::NoOp]),
        }],
    };
    assert_eq!(
        loom::translate_zig::translate(&f),
        "fn translated_func() void {\n    if (A = 1) {\n        P();\n    } else {\n    }\n}\n"
    );
}

#[test]
fn python_translation_of_empty_function() {
    let f = Function { name: "f".to_string(), body: Vec::new() };
    assert_eq!(translate(&f), "def f():\n    pass\n");
}

#[test]
fn optimize_folds_constants() {
    let mut p = empty_program(vec![
        compute("A", binary(2, "+", 3)),
        compute("B", binary(7, "/", -2)),
        compute("C", binary(7, "/", 0)),
        compute("D", binary(6, "*", 7)),
        compute("E", binary(1, "%", 7)),
    ]);
    optimize(&mut p);
    let expect = [Some(5), Some(-3), None, Some(42), None];
    assert_eq!(p.statements.len(), 5);
    for (s, e) in p.statements.iter().zip(expect.iter()) {
        match (s, e) {
            (Statement::Compute { expr: Expression::Literal(Literal::Int(v)), .. }, Some(x)) => assert_eq!(v, x),
            (Statement::Compute { expr: Expression::Binary { .. }, .. }, None) => {}
            other => panic!("unexpected {:?}", other),
        }
    }
}

#[test]
fn optimize_propagates_constants_and_copies_and_drops_noops() {
    let mut p = Program {
        variables: Vec::new(),
        paragraphs: vec![Paragraph { name: "P".to_string(), statements: vec![mv(5, "A"), Statement::NoOp] }],
        statements: vec![mv_var("A", "B"), mv_var("Q", "C"), mv_var("C", "D"), Statement::NoOp],
    };
    optimize(&mut p);
    assert_eq!(p.paragraphs.len(), 1);
    assert_eq!(p.paragraphs[0].statements.len(), 1);
    assert_eq!(p.statements.len(), 3);
    match &p.statements[0] {
        Statement::Move { source: Source::Literal(5), target } => assert_eq!(target, "B"),
        other => panic!("unexpected {:?}", other),
    }
    match &p.statements[2] {
        Statement::Move { source: Source::Variable(v), target } => {
            assert_eq!(v, "Q");
            assert_eq!(target, "D");
        }
        other => panic!("unexpected {:?}", other),
    }
    assert!(!p.statements.iter().any(|s| matches!(s, Statement::NoOp)));
}

#[test]
fn strangler_fig_routes_and_wraps() {
    let mut fig = StranglerFig::new();
    fig.add_legacy("calc".to_string(), readme_function());
    assert_eq!(
        fig.generate_wrapper_code("python"),
        "def calc(*args):\n    # Call legacy (not implemented)\n    pass\n\n"
    );
    fig.add_modern("calc".to_string(), readme_function());
    fig.add_modern("report".to_string(), readme_function());
    assert_eq!(
        fig.generate_wrapper_code("python"),
        "def calc(*args):\n    # Call legacy (not implemented)\n    pass\n\ndef report(*args):\n    return modern_report(*args)\n\n"
    );
    fig.set_routing("calc", Routing::Mixed);
    assert_eq!(
        fig.generate_wrapper_code("python"),
        "def calc(*args):\n    # Route based on feature flag\n    if is_feature_enabled('calc'):\n        return modern_calc(*args)\n    else:\n        # Call legacy (not implemented)\n        pass\n\ndef report(*args):\n    return modern_report(*args)\n\n"
    );
    assert_eq!(fig.generate_wrapper_code("java"), "# Unsupported language");
}

#[test]
fn strangler_fig_empty_table_gives_empty_wrapper() {
    let fig = StranglerFig::new();
    assert_eq!(fig.generate_wrapper_code("python"), "");
}

#[test]
fn key_value_arguments() {
    assert_eq!(parse_key_val("X=5"), Ok(("X".to_string(), 5)));
    assert_eq!(parse_key_val("=-3"), Ok(("".to_string(), -3)));
    assert_eq!(parse_key_val("X5"), Err("Format must be key=value".to_string()));
    assert_eq!(parse_key_val("X=5=6"), Err("Format must be key=value".to_string()));
    assert_eq!(parse_key_val("X=five"), Err("Value must be an integer".to_string()));
}

#[test]
fn printed_output_is_parsed() {
    let b = parse_output("X=5\nnoise\n Y = -2 \nX=7\n").unwrap();
    assert_eq!(b, vec![("X".to_string(), 7), ("Y".to_string(), -2)]);
    let e = parse_output("X=1\nY=oops").unwrap_err();
    assert_eq!(e.message, "oops".parse::<i64>().unwrap_err().to_string());
}

#[test]
fn outputs_agree_ignores_order() {
    let a = vec![("X".to_string(), 1), ("Y".to_string(), 2)];
    let b = vec![("Y".to_string(), 2), ("X".to_string(), 1)];
    let c = vec![("Y".to_string(), 2)];
    let d = vec![("X".to_string(), 1), ("Y".to_string(), 3)];
    assert!(outputs_agree(&a, &b));
    assert!(!outputs_agree(&a, &c));
    assert!(!outputs_agree(&c, &a));
    assert!(!outputs_agree(&a, &d));
}

#[test]
fn variables_of_a_function() {
    let f = Function {
        name: "f".to_string(),
        body: vec![
            mv_var("A", "B"),
            Statement::Add { value: 1, target: "B".to_string() },
            Statement::If {
                condition: Condition { left: "C".to_string(), operator: ">".to_string(), right: "0".to_string() },
                then_branch: vec![mv(1, "D")],
                else_branch: Some(vec![mv(2, "A")]),
            },
            Statement::Display { value: Literal::String("E".to_string()) },
        ],
    };
    assert_eq!(collect_variables(&f), vec!["B", "A", "C", "D"]);
}

#[test]
fn generated_cases_cover_every_variable() {
    let cases = generate_test_cases(&readme_function());
    assert_eq!(cases.len(), 5);
    for case in &cases {
        assert_eq!(case.len(), 1);
        assert_eq!(case[0].0, "X");
        assert!(-100 <= case[0].1 && case[0].1 < 100);
    }
    let none = Function { name: "f".to_string(), body: vec![Statement::Display { value: Literal::Int(1) }] };
    assert!(generate_test_cases(&none).is_empty());
}

#[test]
fn collect_variables_skips_literal_string_sources_and_takes_when_variables() {
    let f = Function {
        name: "f".to_string(),
        body: vec![
            Statement::Evaluate {
                value: "CODE".to_string(),
                branches: vec![
                    ("1".to_string(), vec![Statement::Add { value: 1, target: "A".to_string() }]),
                    ("LIMIT".to_string(), vec![Statement::Add { value: 2, target: "B".to_string() }]),
                ],
            },
            Statement::String {
                sources: vec!["'-'".to_string(), "FIRST".to_string(), "7".to_string()],
                into: "OUT".to_string(),
            },
        ],
    };
    assert_eq!(collect_variables(&f), vec!["CODE", "A", "LIMIT", "B", "OUT", "FIRST"]);
}
