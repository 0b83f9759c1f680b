use minidb::executor::{ExecutionEngine, ExecutionError};
use minidb::lexer::Lexer;
use minidb::parser::{ASTNode, ParseError, Parser, Token};
use minidb::query::{Identifier, QueryPlan, QueryPlanner};
use minidb::schema::Row;
use minidb::storage_engine::StorageEngine;

fn row(pairs: &[(&str, &str)]) -> Row {
    Row {
        data: pairs
            .iter()
            .map(|(k, v)| (k.to_string(), v.to_string()))
            .collect(),
    }
}

#[test]
fn tokenizer_determinism() {
    let mut lexer = Lexer::new("SELECT a, b FROM t");
    let tokens = lexer.lex();
    assert_eq!(
        tokens,
        vec![
            Token::Keyword("SELECT".to_string()),
            Token::Whitespace,
            Token::Identifier("a".to_string()),
            Token::Comma,
            Token::Whitespace,
            Token::Identifier("b".to_string()),
            Token::Whitespace,
            Token::Identifier("FROM".to_string()),
            Token::Whitespace,
            Token::Identifier("t".to_string()),
            Token::Eof,
        ]
    );
}

#[test]
fn tokenizer_literals_parens_operators() {
    let mut lexer = Lexer::new("(12,x3)+*");
    let tokens = lexer.lex();
    assert_eq!(
        tokens,
        vec![
            Token::LeftParenthesis,
            Token::Literal("12".to_string()),
            Token::Comma,
            Token::Identifier("x3".to_string()),
            Token::RightParenthesis,
            Token::Operator('+'),
            Token::Operator('*'),
            Token::Eof,
        ]
    );
}

#[test]
fn tokenizer_whitespace_per_character() {
    let mut lexer = Lexer::new("a  b");
    let tokens = lexer.lex();
    assert_eq!(
        tokens,
        vec![
            Token::Identifier("a".to_string()),
            Token::Whitespace,
            Token::Whitespace,
            Token::Identifier("b".to_string()),
            Token::Eof,
        ]
    );
}

#[test]
fn tokenizer_keyword_case_insensitive() {
    let mut lexer = Lexer::new("select Selec");
    let tokens = lexer.lex();
    assert_eq!(
        tokens,
        vec![
            Token::Keyword("select".to_string()),
            Token::Whitespace,
            Token::Identifier("Selec".to_string()),
            Token::Eof,
        ]
    );
}

#[test]
fn tokenizer_unicode_classes() {
    // A non-breaking space is Unicode whitespace; an accented letter starts
    // an identifier run.
    let mut lexer = Lexer::new("\u{00A0}étage");
    let tokens = lexer.lex();
    assert_eq!(
        tokens,
        vec![
            Token::Whitespace,
            Token::Identifier("étage".to_string()),
            Token::Eof,
        ]
    );
}

#[test]
fn parse_star_statement() {
    let ast = Parser::parse("SELECT * FROM users").unwrap();
    match ast {
        ASTNode::SelectStatement { projection, table } => {
            assert_eq!(projection, vec![Identifier("*".to_string())]);
            assert_eq!(table, Identifier("users".to_string()));
        }
        _ => panic!("expected a select statement"),
    }
}

#[test]
fn parse_column_list() {
    let ast = Parser::parse("select a , b,c FROM t").unwrap();
    match ast {
        ASTNode::SelectStatement { projection, table } => {
            assert_eq!(
                projection,
                vec![
                    Identifier("a".to_string()),
                    Identifier("b".to_string()),
                    Identifier("c".to_string()),
                ]
            );
            assert_eq!(table, Identifier("t".to_string()));
        }
        _ => panic!("expected a select statement"),
    }
}

#[test]
fn parse_missing_projection_fails() {
    let err = Parser::parse("SELECT FROM users").unwrap_err();
    assert!(matches!(err, ParseError::UnexpectedToken { .. }));
}

#[test]
fn parse_trailing_input_fails() {
    let err = Parser::parse("SELECT * FROM users extra").unwrap_err();
    assert!(matches!(err, ParseError::UnexpectedTrailingInput { .. }));
}

#[test]
fn parse_missing_table_name_fails() {
    let err = Parser::parse("SELECT a FROM").unwrap_err();
    assert!(matches!(err, ParseError::UnexpectedToken { .. }));
}

#[test]
fn parse_v2_on_token_stream() {
    let mut lexer = Lexer::new("SELECT a FROM t");
    let mut parser = Parser::new(lexer.lex());
    let ast = parser.parse_v2().unwrap();
    match ast {
        ASTNode::SelectStatement { projection, table } => {
            assert_eq!(projection, vec![Identifier("a".to_string())]);
            assert_eq!(table, Identifier("t".to_string()));
        }
        _ => panic!("expected a select statement"),
    }
}

#[test]
fn planner_copies_projection_and_table() {
    let ast = Parser::parse("SELECT a, b FROM t").unwrap();
    let planner = QueryPlanner::new();
    let plan = planner.plan(&ast);
    assert_eq!(
        plan.projection,
        vec![Identifier("a".to_string()), Identifier("b".to_string())]
    );
    assert_eq!(plan.table, Identifier("t".to_string()));
}

#[test]
fn projection_missing_column_defaults_to_empty() {
    let mut engine = StorageEngine::new();
    engine.create_table("users", vec!["id".to_string(), "name".to_string()]);
    engine.insert_row("users", row(&[("id", "1"), ("name", "a")]));
    let plan = QueryPlan {
        projection: vec![Identifier("id".to_string()), Identifier("email".to_string())],
        table: Identifier("users".to_string()),
    };
    let exec = ExecutionEngine::new(engine);
    let result = exec.execute(&plan).unwrap();
    assert_eq!(result.len(), 1);
    assert_eq!(
        result[0],
        row(&[("id", "1"), ("email", "")])
    );
}

#[test]
fn execute_missing_table_fails() {
    let engine = StorageEngine::new();
    let plan = QueryPlan {
        projection: vec![Identifier("*".to_string())],
        table: Identifier("ghost".to_string()),
    };
    let exec = ExecutionEngine::new(engine);
    let err = exec.execute(&plan).unwrap_err();
    assert_eq!(err, ExecutionError::TableNotFound("ghost".to_string()));
}

#[test]
fn star_resolves_to_declared_columns() {
    let mut engine = StorageEngine::new();
    engine.create_table("users", vec!["id".to_string(), "name".to_string()]);
    engine.insert_row("users", row(&[("id", "1"), ("name", "a"), ("extra", "x")]));
    let plan = QueryPlan {
        projection: vec![Identifier("*".to_string())],
        table: Identifier("users".to_string()),
    };
    let exec = ExecutionEngine::new(engine);
    let result = exec.execute(&plan).unwrap();
    assert_eq!(result, vec![row(&[("id", "1"), ("name", "a")])]);
}

#[test]
fn insert_ids_monotonic_and_three_rows_out() {
    let mut engine = StorageEngine::new();
    engine.create_table("t", vec!["v".to_string()]);
    engine.insert_row("t", row(&[("v", "x")]));
    engine.insert_row("t", row(&[("v", "y")]));
    engine.insert_row("t", row(&[("v", "z")]));
    let ids: Vec<u64> = engine.tables[0].1.rows.iter().map(|(id, _)| *id).collect();
    assert_eq!(ids, vec![0, 1, 2]);
    let plan = QueryPlan {
        projection: vec![Identifier("v".to_string())],
        table: Identifier("t".to_string()),
    };
    let exec = ExecutionEngine::new(engine);
    let result = exec.execute(&plan).unwrap();
    assert_eq!(
        result,
        vec![row(&[("v", "x")]), row(&[("v", "y")]), row(&[("v", "z")])]
    );
}

#[test]
fn full_pipeline_from_text_to_rows() {
    let mut engine = StorageEngine::new();
    engine.create_table("users", vec!["id".to_string(), "name".to_string()]);
    engine.insert_row("users", row(&[("id", "1"), ("name", "ada")]));
    engine.insert_row("users", row(&[("id", "2"), ("name", "bob")]));
    let ast = Parser::parse("SELECT * FROM users").unwrap();
    let plan = QueryPlanner::new().plan(&ast);
    let exec = ExecutionEngine::new(engine);
    let result = exec.execute(&plan).unwrap();
    assert_eq!(
        result,
        vec![
            row(&[("id", "1"), ("name", "ada")]),
            row(&[("id", "2"), ("name", "bob")]),
        ]
    );
}
