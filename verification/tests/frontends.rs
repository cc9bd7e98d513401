use loom::data_division::pic::ast::{PictureCategory, PictureClause, Usage};
use loom::data_division::pic::parser::{checked_parse_picture, parse_picture};
use loom::ir::{Literal, Source, Statement};
use loom::parser_cobol::{parse_program as parse_cobol, try_parse_program as try_parse_cobol};
use loom::parser::parse_program as parse_simple;
use loom::parser_rpg::parse_program as parse_rpg;
use loom::preprocessor::{copybook_names, preprocess};

fn std_int_error(text: &str) -> String {
    text.parse::<i64>().unwrap_err().to_string()
}

#[test]
fn simple_parses_moves_and_adds() {
    let src = "\n  MOVE 5 TO X\n\n  add 10 to x\n  Move Y to Z  \n";
    let stmts = parse_simple(src).unwrap();
    assert_eq!(stmts.len(), 3);
    match &stmts[0] {
        Statement::Move { source: Source::Literal(5), target } => assert_eq!(target, "X"),
        other => panic!("unexpected {:?}", other),
    }
    match &stmts[1] {
        Statement::Add { value: 10, target } => assert_eq!(target, "x"),
        other => panic!("unexpected {:?}", other),
    }
    match &stmts[2] {
        Statement::Move { source: Source::Variable(v), target } => {
            assert_eq!(v, "Y");
            assert_eq!(target, "Z");
        }
        other => panic!("unexpected {:?}", other),
    }
}

#[test]
fn simple_negative_literal_and_empty_program() {
    let stmts = parse_simple("MOVE -7 TO A").unwrap();
    match &stmts[0] {
        Statement::Move { source: Source::Literal(-7), .. } => {}
        other => panic!("unexpected {:?}", other),
    }
    assert_eq!(parse_simple("   \n \n").unwrap().len(), 0);
}

#[test]
fn simple_rejects_malformed_move() {
    let e = parse_simple("MOVE 5 X").unwrap_err();
    assert_eq!(e.message, "Invalid MOVE statement: MOVE 5 X");
    let e = parse_simple("MOVE 5 INTO X").unwrap_err();
    assert_eq!(e.message, "Invalid MOVE statement: MOVE 5 INTO X");
}

#[test]
fn simple_rejects_malformed_add() {
    let e = parse_simple("MOVE 1 TO A\n  ADD 1 TO  \n").unwrap_err();
    assert_eq!(e.message, "Invalid ADD statement: ADD 1 TO");
}

#[test]
fn simple_rejects_unknown_statement_first_error_wins() {
    let e = parse_simple("DISPLAY X\nFOO").unwrap_err();
    assert_eq!(e.message, "Unknown statement: DISPLAY X");
}

#[test]
fn simple_add_needs_an_integer() {
    let e = parse_simple("ADD Y TO X").unwrap_err();
    assert_eq!(e.message, std_int_error("Y"));
    let e = parse_simple("ADD 99999999999999999999 TO X").unwrap_err();
    assert_eq!(e.message, std_int_error("99999999999999999999"));
    let e = parse_simple("ADD -99999999999999999999 TO X").unwrap_err();
    assert_eq!(e.message, std_int_error("-99999999999999999999"));
    let e = parse_simple("ADD - TO X").unwrap_err();
    assert_eq!(e.message, std_int_error("-"));
}

#[test]
fn rpg_parses_free_form_operations() {
    let src = "\u{feff}C MOVE 5 TO X\nADD 3 TO X\nSUB 2 TO X\nMULT 4 TO X\nDSPLY 'hello world'\nDISPLAY 1 2\n";
    let stmts = parse_rpg(src).unwrap();
    assert_eq!(stmts.len(), 6);
    match &stmts[0] {
        Statement::Move { source: Source::Literal(5), target } => assert_eq!(target, "X"),
        other => panic!("unexpected {:?}", other),
    }
    match &stmts[1] {
        Statement::Add { value: 3, target } => assert_eq!(target, "X"),
        other => panic!("unexpected {:?}", other),
    }
    match &stmts[2] {
        Statement::Add { value: -2, target } => assert_eq!(target, "X"),
        other => panic!("unexpected {:?}", other),
    }
    match &stmts[3] {
        Statement::Display { value: Literal::String(s) } => assert_eq!(s, "# MULT 4 TO X not implemented"),
        other => panic!("unexpected {:?}", other),
    }
    match &stmts[4] {
        Statement::Display { value: Literal::String(s) } => assert_eq!(s, "hello world"),
        other => panic!("unexpected {:?}", other),
    }
    match &stmts[5] {
        Statement::Display { value: Literal::String(s) } => assert_eq!(s, "1 2"),
        other => panic!("unexpected {:?}", other),
    }
}

#[test]
fn rpg_skips_short_and_unknown_lines() {
    let stmts = parse_rpg("DSPLY 42\nFOO BAR BAZ\n\nMOVE A TO B").unwrap();
    assert_eq!(stmts.len(), 1);
    match &stmts[0] {
        Statement::Move { source: Source::Variable(v), target } => {
            assert_eq!(v, "A");
            assert_eq!(target, "B");
        }
        other => panic!("unexpected {:?}", other),
    }
}

#[test]
fn rpg_fixed_form_uses_columns_seven_to_seventy_two() {
    let mut line = String::from("012345");
    line.push_str("ADD 7 TO TOTAL");
    while line.len() < 72 {
        line.push(' ');
    }
    line.push_str("IGNORED COMMENT");
    let stmts = parse_rpg(&line).unwrap();
    assert_eq!(stmts.len(), 1);
    match &stmts[0] {
        Statement::Add { value: 7, target } => assert_eq!(target, "TOTAL"),
        other => panic!("unexpected {:?}", other),
    }
}

#[test]
fn rpg_errors() {
    let e = parse_rpg("MOVE 5 X Y").unwrap_err();
    assert_eq!(e.message, "Invalid MOVE statement: MOVE 5 X Y");
    let e = parse_rpg("  div 1 2 3").unwrap_err();
    assert_eq!(e.message, "Invalid DIV statement:   div 1 2 3");
    let e = parse_rpg("ADD ONE TO X").unwrap_err();
    assert_eq!(e.message, std_int_error("ONE"));
    let e = parse_rpg("MOVE 1 TO").unwrap_err();
    assert_eq!(e.message, "Invalid MOVE statement: MOVE 1 TO");
}

#[test]
fn preprocess_applies_replace_word_by_word() {
    let src = "REPLACE ==OLD== BY ==NEW==.\nMOVE OLD TO   X\nMOVE OLDER TO X";
    let out = preprocess(src, &[]);
    assert_eq!(out, "MOVE NEW TO X\nMOVE OLDER TO X\n");
}

#[test]
fn preprocess_replacements_chain_in_order() {
    let src = "REPLACE A BY B.\nREPLACE B BY C.\nA B";
    assert_eq!(preprocess(src, &[]), "C C\n");
}

#[test]
fn preprocess_copy_brings_in_copybook_text() {
    let books = vec![("BOOK".to_string(), "MOVE 1 TO TMP\nADD 2 TO TMP".to_string())];
    let src = "COPY BOOK REPLACING ==TMP== BY ==TOTAL==.\nDISPLAY X";
    assert_eq!(copybook_names(src), vec!["BOOK".to_string()]);
    let out = preprocess(src, &books);
    assert_eq!(out, "MOVE 1 TO TOTAL ADD 2 TO TOTAL\nDISPLAY X\n");
}

#[test]
fn preprocess_missing_copybook_keeps_line() {
    let src = "REPLACE X BY Y.\n  COPY MISSING.  ";
    assert_eq!(copybook_names(src), vec!["MISSING".to_string()]);
    assert_eq!(preprocess(src, &[]), "COPY MISSING.\n");
}

#[test]
fn preprocess_replace_without_by_records_nothing() {
    let src = "REPLACE FOO.\nFOO";
    assert_eq!(preprocess(src, &[]), "FOO\n");
}

#[test]
fn picture_case_follows_unicode_upper_case() {
    let long_s = parse_picture("\u{17f}9V9").unwrap();
    assert_eq!(
        long_s,
        PictureClause { signed: true, category: PictureCategory::Numeric, length: 1, scale: 1, usage: Usage::Display }
    );
    let lower = parse_picture("pic s9(4) comp").unwrap();
    assert_eq!(
        lower,
        PictureClause { signed: true, category: PictureCategory::Numeric, length: 4, scale: 0, usage: Usage::Comp }
    );
    assert_eq!(checked_parse_picture("x(3)"), Some(parse_picture("x(3)")));
    assert_eq!(checked_parse_picture("ß9"), Some(Err("Unsupported PIC: ß9".to_string())));
}

#[test]
fn cobol_keywords_match_in_any_case() {
    let stmts = parse_cobol("procedure division.\nmove 1 to x\n").unwrap();
    assert_eq!(stmts.len(), 1);
    match &stmts[0] {
        Statement::Move { source: Source::Variable(v), target } => assert_eq!((v.as_str(), target.as_str()), ("1", "x")),
        other => panic!("unexpected statement {:?}", other),
    }
    assert!(matches!(try_parse_cobol("move 1 to x"), Some(Ok(v)) if v.len() == 1));
}

#[test]
fn pli_parses_assignments_and_put() {
    // `LIST(Y)` written without a space is one word, not the keyword `LIST`,
    // so that line gives no statement.
    let src = "\u{feff}X = 5;\n  y = X + 10 ;\nPUT SKIP LIST (Y);\nput skip list ( 'HI' );\nPUT SKIP LIST (42)\nPUT SKIP LIST(Z);\nDECLARE X FIXED;\n\n;\nZ = 1 + 2\nW = A + B\nV = Q\n";
    let got = loom::parser_pli::parse_program(src).unwrap();
    let want = vec![
        Statement::Move { source: Source::Literal(5), target: "X".to_string() },
        Statement::Add { value: 10, target: "y".to_string() },
        Statement::Display { value: Literal::String("Y".to_string()) },
        Statement::Display { value: Literal::String("'HI'".to_string()) },
        Statement::Display { value: Literal::Int(42) },
        Statement::Add { value: 1, target: "Z".to_string() },
        Statement::Move { source: Source::Variable("Q".to_string()), target: "V".to_string() },
    ];
    assert_eq!(format!("{:?}", got), format!("{:?}", want));
}

#[test]
fn pli_put_errors_and_panic_case() {
    let e = loom::parser_pli::parse_program("X = 1\nPUT SKIP LIST 5\nPUT SKIP LIST(").unwrap_err();
    assert_eq!(e.message, "Missing '(' in PUT");
    let e = loom::parser_pli::parse_program("PUT SKIP LIST (5").unwrap_err();
    assert_eq!(e.message, "Missing ')' in PUT");
    assert!(loom::parser_pli::try_parse_program("PUT SKIP LIST )(").is_none());
    assert!(matches!(loom::parser_pli::try_parse_program("PUT SKIP LIST"), Some(Err(_))));
    assert!(matches!(loom::parser_pli::try_parse_program("PUT SKIP"), Some(Ok(v)) if v.is_empty()));
}
