use loom::interpreter::Interpreter;
use loom::ir::{clone_stmts, Expression, Function, Literal, PicType, Program, Source, Statement, VariableDefinition};
use loom::optimizer::optimize;
use loom::semantic::symbol_table::SymbolTable;
use loom::ssa::convert_to_ssa;

fn var(name: &str, pic: Option<PicType>) -> VariableDefinition {
    VariableDefinition {
        name: name.to_string(),
        pic,
        occurs: None,
        redefines: None,
        initial_value: None,
        comp_type: None,
    }
}

#[test]
fn symbol_table_reads_back_what_was_inserted() {
    let mut table = SymbolTable::new();
    table.insert(&var("A", Some(PicType::Numeric)));
    table.insert(&var("B", None));
    table.insert(&var("A", Some(PicType::Alpha)));
    assert_eq!(table.lookup("A").unwrap().pic, Some(PicType::Alpha));
    assert_eq!(table.lookup("B").unwrap().pic, None);
    assert!(table.lookup("C").is_none());
}

fn run(statements: &Vec<Statement>) -> (Vec<(String, i64)>, Vec<String>) {
    let mut it = Interpreter::new();
    it.add_function(Function { name: "f".to_string(), body: clone_stmts(statements) });
    let vars = it.run("f", Vec::new(), 1000);
    (vars, it.output().clone())
}

#[test]
fn folding_keeps_what_the_interpreter_computes() {
    let statements = vec![
        Statement::Compute {
            target: "A".to_string(),
            expr: Expression::Binary {
                left: Box::new(Expression::Literal(Literal::Int(6))),
                operator: "*".to_string(),
                right: Box::new(Expression::Literal(Literal::Int(-7))),
            },
        },
        Statement::Compute {
            target: "B".to_string(),
            expr: Expression::Binary {
                left: Box::new(Expression::Literal(Literal::Int(-9))),
                operator: "/".to_string(),
                right: Box::new(Expression::Literal(Literal::Int(2))),
            },
        },
        Statement::Display { value: Literal::Int(3) },
    ];
    let before = run(&statements);
    let mut p = Program { variables: Vec::new(), paragraphs: Vec::new(), statements };
    optimize(&mut p);
    let after = run(&p.statements);
    assert_eq!(before, after);
    assert_eq!(after.0, vec![("A".to_string(), -42), ("B".to_string(), -4)]);
}

#[test]
fn ssa_uses_name_existing_definitions() {
    let mut program = Program {
        variables: Vec::new(),
        paragraphs: Vec::new(),
        statements: vec![
            Statement::Move { source: Source::Literal(1), target: "A".to_string() },
            Statement::Move { source: Source::Variable("A".to_string()), target: "B".to_string() },
            Statement::Move { source: Source::Variable("Z".to_string()), target: "A".to_string() },
        ],
    };
    convert_to_ssa(&mut program);
    let mut defs = Vec::new();
    let mut reads = Vec::new();
    for s in &program.statements {
        if let Statement::Move { source, target } = s {
            defs.push(target.clone());
            if let Source::Variable(v) = source {
                reads.push(v.clone());
            }
        }
    }
    assert_eq!(defs.len(), 3);
    for (i, d) in defs.iter().enumerate() {
        for e in &defs[i + 1..] {
            assert_ne!(d, e);
        }
    }
    assert!(defs.contains(&reads[0]));
    assert_eq!(reads[1], "Z");
}
