use wasdb::parser::{numbers_fit, Ast, Lexer, Parser, Token};

fn tokens(input: &str) -> Vec<Token> {
    let mut lexer = Lexer::new(input);
    let mut out = Vec::new();
    loop {
        let t = lexer.next_token();
        let end = t == Token::Eof;
        out.push(t);
        if end {
            return out;
        }
    }
}

#[test]
fn lexer_reads_keywords_in_any_case_names_numbers_and_strings() {
    assert_eq!(
        tokens("select Name, id FROM users where x = 'a b' ;"),
        vec![
            Token::Select,
            Token::Identifier("Name".to_string()),
            Token::Comma,
            Token::Identifier("id".to_string()),
            Token::From,
            Token::Identifier("users".to_string()),
            Token::Where,
            Token::Identifier("x".to_string()),
            Token::Equals,
            Token::StringLiteral("a b".to_string()),
            Token::Semicolon,
            Token::Eof,
        ]
    );
}

#[test]
fn lexer_skips_unknown_characters_and_reads_words_with_digits() {
    assert_eq!(
        tokens("  #@ col_1 42x ( ) \t\n"),
        vec![
            Token::Identifier("col_1".to_string()),
            Token::Number(42),
            Token::Identifier("x".to_string()),
            Token::OpenParen,
            Token::CloseParen,
            Token::Eof,
        ]
    );
}

#[test]
fn lexer_reads_an_unterminated_string_to_the_end() {
    assert_eq!(tokens("'abc"), vec![Token::StringLiteral("abc".to_string()), Token::Eof]);
}

#[test]
fn lexer_keeps_returning_eof() {
    let mut lexer = Lexer::new("");
    assert_eq!(lexer.next_token(), Token::Eof);
    assert_eq!(lexer.next_token(), Token::Eof);
}

#[test]
fn numbers_fit_checks_every_number() {
    assert!(numbers_fit("INSERT INTO t VALUES (2147483647)"));
    assert!(!numbers_fit("INSERT INTO t VALUES (2147483648)"));
    assert!(numbers_fit("x99999999999 '99999999999'"));
}

#[test]
fn parse_select() {
    let mut parser = Parser::new("SELECT a, b FROM t");
    assert_eq!(
        parser.parse().unwrap(),
        Ast::Select { columns: vec!["a".to_string(), "b".to_string()], table: "t".to_string() }
    );
}

#[test]
fn parse_select_without_columns() {
    let mut parser = Parser::new("select from t");
    assert_eq!(parser.parse().unwrap(), Ast::Select { columns: vec![], table: "t".to_string() });
}

#[test]
fn parse_insert() {
    let mut parser = Parser::new("INSERT INTO users VALUES (1, 'bob', 30)");
    assert_eq!(
        parser.parse().unwrap(),
        Ast::Insert {
            table: "users".to_string(),
            values: vec!["1".to_string(), "bob".to_string(), "30".to_string()],
        }
    );
}

#[test]
fn parse_create_skips_column_types() {
    let mut parser = Parser::new("CREATE TABLE users (id INT, name VARCHAR)");
    assert_eq!(
        parser.parse().unwrap(),
        Ast::Create { table: "users".to_string(), columns: vec!["id".to_string(), "name".to_string()] }
    );
}

#[test]
fn parse_delete() {
    let mut parser = Parser::new("DELETE FROM users");
    assert_eq!(parser.parse().unwrap(), Ast::Delete { table: "users".to_string() });
}

#[test]
fn parse_errors() {
    assert_eq!(Parser::new("UPDATE t").parse().unwrap_err(), "Unexpected statement start: Identifier(\"UPDATE\")");
    assert_eq!(Parser::new("SELECT a WHERE").parse().unwrap_err(), "Expected From, found Where");
    assert_eq!(Parser::new("SELECT a FROM 3").parse().unwrap_err(), "Expected table name");
    assert_eq!(Parser::new("INSERT users").parse().unwrap_err(), "Expected Into, found Identifier(\"users\")");
    assert!(Parser::new("INSERT INTO t VALUES (1, 2").parse().is_err());
    assert!(Parser::new("CREATE TABLE t (a INT").parse().is_err());
    assert!(Parser::new("DELETE users").parse().is_err());
    assert!(Parser::new("").parse().is_err());
}

#[test]
fn parse_error_texts() {
    assert_eq!(Parser::new("DELETE FROM").parse().unwrap_err(), "Expected table name");
    assert_eq!(
        Parser::new("DROP TABLE t").parse().unwrap_err(),
        format!("Unexpected statement start: {:?}", Token::Identifier("DROP".to_string()))
    );
    assert_eq!(Parser::new("INSERT INTO t VALUES (1, 2").parse().unwrap_err(), "Expected CloseParen, found Eof");
    assert_eq!(Parser::new("CREATE t").parse().unwrap_err(), "Expected Table, found Identifier(\"t\")");
    assert_eq!(Parser::new("INSERT INTO t VALUES 5").parse().unwrap_err(), "Expected OpenParen, found Number(5)");
    assert_eq!(Parser::new("SELECT a 'x'").parse().unwrap_err(), "Expected From, found StringLiteral(\"x\")");
}

#[test]
fn token_text_matches_its_debug_form() {
    for t in [
        Token::Select,
        Token::Identifier("a_b".to_string()),
        Token::Number(-120),
        Token::StringLiteral("say \"hi\"\n".to_string()),
        Token::Eof,
    ] {
        assert_eq!(t.text(), format!("{:?}", t));
    }
}
