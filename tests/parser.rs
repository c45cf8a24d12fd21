use toy_db::catalog::ColumnType;
use toy_db::parser::ast;
use toy_db::parser::token::{tokenize, ParseError, Token};
use toy_db::parser::{Parser, Stmt};
use toy_db::value::Value;

#[test]
fn select_stmt() {
    let mut parser = Parser::new(vec![
        Token::KeywordSelect,
        Token::Asterisk,
        Token::KeywordFrom,
        Token::Ident("users".to_string()),
        Token::Semicolon,
        Token::EOF,
    ]);
    let ret = parser.parse().unwrap();
    assert_eq!(
        ret,
        Stmt::SelectStmt(ast::SelectStmtAst {
            table_name: "users".to_string(),
        })
    );
}

#[test]
fn create_table_stmt() {
    let mut parser = Parser::new(vec![
        Token::KeywordCreate,
        Token::KeywordTable,
        Token::Ident("users".to_string()),
        Token::LeftParen,
        Token::Ident("id".to_string()),
        Token::KeywordInt,
        Token::Comma,
        Token::Ident("name".to_string()),
        Token::KeywordVarchar,
        Token::RightParen,
        Token::Semicolon,
        Token::EOF,
    ]);
    let ret = parser.parse().unwrap();
    assert_eq!(
        ret,
        Stmt::CreateTableStmt(ast::CreateTableStmtAst {
            table_name: "users".to_string(),
            table_element_list: vec![
                ast::TableElementAst {
                    column_name: "id".to_string(),
                    column_type: ColumnType::Int,
                },
                ast::TableElementAst {
                    column_name: "name".to_string(),
                    column_type: ColumnType::Varchar,
                }
            ]
        })
    );
}

#[test]
fn insert_stmt() {
    let mut parser = Parser::new(vec![
        Token::KeywordInsert,
        Token::KeywordInto,
        Token::Ident("users".to_string()),
        Token::KeywordValues,
        Token::LeftParen,
        Token::Lit(Value::Int(1)),
        Token::Comma,
        Token::Lit(Value::Varchar("foo".to_string())),
        Token::RightParen,
        Token::Semicolon,
        Token::EOF,
    ]);
    let ret = parser.parse().unwrap();
    assert_eq!(
        ret,
        Stmt::InsertStmt(ast::InsertStmtAst {
            table_name: "users".to_string(),
            values: vec![Value::Int(1), Value::Varchar("foo".to_string()),]
        })
    );
}

#[test]
fn select_query() {
    let sql = "
    SELECT
      *
    FROM users;
    ";
    assert_eq!(
        tokenize(sql),
        Ok(vec![
            Token::KeywordSelect,
            Token::Asterisk,
            Token::KeywordFrom,
            Token::Ident("users".to_string()),
            Token::Semicolon,
            Token::EOF,
        ])
    );
}

#[test]
fn create_table_query() {
    let sql = "
    CREATE TABLE users
    (
      id Int,
      name Varchar
    );
    ";
    assert_eq!(
        tokenize(sql),
        Ok(vec![
            Token::KeywordCreate,
            Token::KeywordTable,
            Token::Ident("users".to_string()),
            Token::LeftParen,
            Token::Ident("id".to_string()),
            Token::KeywordInt,
            Token::Comma,
            Token::Ident("name".to_string()),
            Token::KeywordVarchar,
            Token::RightParen,
            Token::Semicolon,
            Token::EOF,
        ])
    );
}

#[test]
fn insert_query() {
    let sql = "
    INSERT INTO users
    VALUES
    (
      1,
      'foo'
    );
    ";
    assert_eq!(
        tokenize(sql),
        Ok(vec![
            Token::KeywordInsert,
            Token::KeywordInto,
            Token::Ident("users".to_string()),
            Token::KeywordValues,
            Token::LeftParen,
            Token::Lit(Value::Int(1)),
            Token::Comma,
            Token::Lit(Value::Varchar("foo".to_string())),
            Token::RightParen,
            Token::Semicolon,
            Token::EOF,
        ])
    );
}

#[test]
fn tokenize_lower_case_keywords_and_escapes() {
    assert_eq!(
        tokenize("select x_1 from 'it\\'s'"),
        Ok(vec![
            Token::KeywordSelect,
            Token::Ident("x_1".to_string()),
            Token::KeywordFrom,
            Token::Lit(Value::Varchar("it's".to_string())),
            Token::EOF,
        ])
    );
}

#[test]
fn tokenize_errors() {
    assert_eq!(tokenize("SELECT #"), Err(ParseError::InvalidToken));
    assert_eq!(tokenize("'open"), Err(ParseError::InvalidStringLiteral));
    assert_eq!(tokenize("2147483648"), Err(ParseError::InvalidNumber));
    assert_eq!(
        tokenize("2147483647"),
        Ok(vec![Token::Lit(Value::Int(i32::MAX)), Token::EOF])
    );
}

#[test]
fn parse_rejects_incomplete_statement() {
    let mut parser = Parser::new(tokenize("SELECT * users").unwrap());
    assert_eq!(parser.parse(), Err(ParseError::InvalidQuery));
    let mut parser = Parser::new(vec![Token::KeywordSelect]);
    assert_eq!(parser.parse(), Err(ParseError::InvalidQuery));
}

#[test]
fn token_of_word_by_upper_case_form() {
    assert_eq!(
        toy_db::parser::token::token_of_word("select".to_string(), &"SELECT".to_string()),
        Token::KeywordSelect
    );
    assert_eq!(
        toy_db::parser::token::token_of_word("Varchar".to_string(), &"VARCHAR".to_string()),
        Token::KeywordVarchar
    );
    assert_eq!(
        toy_db::parser::token::token_of_word("users".to_string(), &"USERS".to_string()),
        Token::Ident("users".to_string())
    );
}
