use deepsql::sql::ast::Statement;
use deepsql::sql::lexer::Lexer;
use deepsql::sql::parser::Parser;
use deepsql::sql::tokens::TokenType;

#[test]
fn test_simple_select() {
    let mut lexer = Lexer::new("SELECT * FROM users");
    let tokens = lexer.tokenize();
    assert_eq!(tokens[0].token_type, TokenType::Select);
    assert_eq!(tokens[1].token_type, TokenType::Star);
    assert_eq!(tokens[2].token_type, TokenType::From);
    assert_eq!(tokens[3].token_type, TokenType::Identifier("users".to_string()));
    assert_eq!(tokens[4].token_type, TokenType::Eof);
}

#[test]
fn test_string_literal() {
    let mut lexer = Lexer::new("'hello world'");
    let tokens = lexer.tokenize();
    assert_eq!(tokens[0].token_type, TokenType::String("hello world".to_string()));
}

#[test]
fn test_number_literal() {
    let mut lexer = Lexer::new("42 3.14");
    let tokens = lexer.tokenize();
    assert_eq!(tokens[0].token_type, TokenType::Number("42".to_string()));
    assert_eq!(tokens[1].token_type, TokenType::Number("3.14".to_string()));
}

#[test]
fn test_operators() {
    let mut lexer = Lexer::new("= != < <= > >= + - * /");
    let tokens = lexer.tokenize();
    assert_eq!(tokens[0].token_type, TokenType::Equal);
    assert_eq!(tokens[1].token_type, TokenType::NotEqual);
    assert_eq!(tokens[2].token_type, TokenType::Less);
    assert_eq!(tokens[3].token_type, TokenType::LessEqual);
    assert_eq!(tokens[4].token_type, TokenType::Greater);
    assert_eq!(tokens[5].token_type, TokenType::GreaterEqual);
}

#[test]
fn test_comments() {
    let mut lexer = Lexer::new("SELECT -- this is a comment\n* FROM users");
    let tokens = lexer.tokenize();
    assert_eq!(tokens[0].token_type, TokenType::Select);
    assert_eq!(tokens[1].token_type, TokenType::Star);
    assert_eq!(tokens[2].token_type, TokenType::From);
}

#[test]
fn lexer_positions_and_eof() {
    let mut lexer = Lexer::new("a\n  b");
    let tokens = lexer.tokenize();
    assert_eq!(tokens.len(), 3);
    assert_eq!((tokens[0].line, tokens[0].column), (1, 1));
    assert_eq!((tokens[1].line, tokens[1].column), (2, 3));
    assert_eq!(tokens[2].token_type, TokenType::Eof);
    let mut empty = Lexer::new("");
    let t = empty.tokenize();
    assert_eq!(t.len(), 1);
    assert_eq!(t[0].token_type, TokenType::Eof);
}

#[test]
fn test_keyword_recognition() {
    assert_eq!(TokenType::keyword("SELECT"), Some(TokenType::Select));
    assert_eq!(TokenType::keyword("select"), Some(TokenType::Select));
    assert_eq!(TokenType::keyword("FROM"), Some(TokenType::From));
    assert_eq!(TokenType::keyword("unknown"), None);
}

#[test]
fn test_is_keyword() {
    assert!(TokenType::Select.is_keyword());
    assert!(TokenType::Where.is_keyword());
    assert!(!TokenType::Identifier("test".to_string()).is_keyword());
}

#[test]
fn set_keyword_is_recognised() {
    assert_eq!(TokenType::keyword("set"), Some(TokenType::SetKeyword));
    assert!(TokenType::SetKeyword.is_keyword());
}

#[test]
fn parser_test_parse_simple_select() {
    let mut lexer = Lexer::new("SELECT * FROM users");
    let tokens = lexer.tokenize();
    let mut parser = Parser::new(tokens);
    let stmt = parser.parse_statement().unwrap();
    match stmt {
        Statement::Select(select) => {
            assert_eq!(select.columns.len(), 1);
            assert_eq!(select.from, Some("users".to_string()));
        }
        _ => panic!("Expected SELECT statement"),
    }
}

#[test]
fn test_parse_insert() {
    let mut lexer = Lexer::new("INSERT INTO users (name, age) VALUES ('Alice', 30)");
    let tokens = lexer.tokenize();
    let mut parser = Parser::new(tokens);
    let stmt = parser.parse_statement().unwrap();
    match stmt {
        Statement::Insert(insert) => {
            assert_eq!(insert.table, "users");
            assert_eq!(insert.columns, Some(vec!["name".to_string(), "age".to_string()]));
            assert_eq!(insert.values.len(), 1);
        }
        _ => panic!("Expected INSERT statement"),
    }
}

#[test]
fn test_parse_create_table() {
    let mut lexer = Lexer::new("CREATE TABLE users (id INTEGER PRIMARY KEY, name TEXT NOT NULL)");
    let tokens = lexer.tokenize();
    let mut parser = Parser::new(tokens);
    let stmt = parser.parse_statement().unwrap();
    match stmt {
        Statement::CreateTable(create) => {
            assert_eq!(create.table, "users");
            assert_eq!(create.columns.len(), 2);
        }
        _ => panic!("Expected CREATE TABLE statement"),
    }
}

#[test]
fn parser_reports_errors() {
    let mut lexer = Lexer::new("SELECT FROM");
    let tokens = lexer.tokenize();
    let mut parser = Parser::new(tokens);
    assert!(parser.parse_statement().is_err());
    let mut lexer = Lexer::new("DROP users");
    let mut parser = Parser::new(lexer.tokenize());
    assert!(parser.parse_statement().is_err());
}

#[test]
fn parser_limit_offset_and_where() {
    let mut lexer = Lexer::new("SELECT a, b FROM t WHERE a = 1 AND b > 2 ORDER BY a DESC LIMIT 5 OFFSET 2");
    let mut parser = Parser::new(lexer.tokenize());
    match parser.parse_statement().unwrap() {
        Statement::Select(s) => {
            assert_eq!(s.columns.len(), 2);
            assert!(s.where_clause.is_some());
            assert_eq!(s.order_by.len(), 1);
            assert_eq!(s.limit, Some(5));
            assert_eq!(s.offset, Some(2));
        }
        _ => panic!("Expected SELECT statement"),
    }
}

#[test]
fn parse_error_names_expected_and_found_tokens() {
    let mut lexer = Lexer::new("INSERT users VALUES (1)");
    let tokens = lexer.tokenize();
    let mut parser = Parser::new(tokens);
    let err = parser.parse_statement().unwrap_err();
    assert_eq!(err.message(), "Internal error: Expected Into, got Identifier(\"users\")");
}

#[test]
fn parse_error_shows_token_text_escaped() {
    let mut lexer = Lexer::new("INSERT INTO 5 VALUES (1)");
    let tokens = lexer.tokenize();
    let mut parser = Parser::new(tokens);
    let err = parser.parse_statement().unwrap_err();
    assert_eq!(err.message(), "Internal error: Expected identifier, got Number(\"5\")");
}

#[test]
fn unicode_spaces_separate_tokens() {
    let mut lexer = Lexer::new("SELECT\u{00A0}*\u{3000}FROM t");
    let tokens = lexer.tokenize();
    assert_eq!(tokens[0].token_type, TokenType::Select);
    assert_eq!(tokens[1].token_type, TokenType::Star);
    assert_eq!(tokens[2].token_type, TokenType::From);
}
