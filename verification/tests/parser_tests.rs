use scssc::lexer::Lexer;
use scssc::parse::{parse, ParseError};
use scssc::types::{Style, Token};

#[test]
fn test_parse_empty() {
    let tokens = vec![Token::Eof];
    let classes = parse(tokens).unwrap();
    assert!(classes.is_empty());
}

#[test]
fn test_parse_single_class() {
    let tokens = vec![
        Token::Class,
        Token::Ident("example".to_string()),
        Token::LBrace,
        Token::Ident("color".to_string()),
        Token::Colon,
        Token::Ident("red".to_string()),
        Token::SemiColon,
        Token::RBrace,
        Token::Eof,
    ];
    let classes = parse(tokens).unwrap();
    assert_eq!(classes.len(), 1);
    assert_eq!(classes[0].selector, ".example");
    assert_eq!(classes[0].styles.len(), 1);
    assert_eq!(
        classes[0].styles[0],
        Style {
            name: "color".to_string(),
            value: "red".to_string()
        }
    );
}

#[test]
fn test_parse_nested_classes() {
    let tokens = vec![
        Token::Class,
        Token::Ident("parent".to_string()),
        Token::LBrace,
        Token::Root,
        Token::Class,
        Token::Ident("child".to_string()),
        Token::LBrace,
        Token::Ident("color".to_string()),
        Token::Colon,
        Token::Ident("blue".to_string()),
        Token::SemiColon,
        Token::RBrace,
        Token::RBrace,
        Token::Eof,
    ];
    let classes = parse(tokens).unwrap();
    assert_eq!(classes.len(), 1);
    assert_eq!(classes[0].selector, ".parent");
    assert_eq!(classes[0].sub_blocks.len(), 1);
    assert_eq!(classes[0].sub_blocks[0].selector, "&.child");
    assert_eq!(classes[0].sub_blocks[0].styles.len(), 1);
    assert_eq!(
        classes[0].sub_blocks[0].styles[0],
        Style {
            name: "color".to_string(),
            value: "blue".to_string()
        }
    );
}

#[test]
fn test_parse_direct_child_selector() {
    let tokens = vec![
        Token::Class,
        Token::Ident("parent".to_string()),
        Token::DirectChild,
        Token::Class,
        Token::Ident("child".to_string()),
        Token::LBrace,
        Token::Ident("margin".to_string()),
        Token::Colon,
        Token::Ident("10px".to_string()),
        Token::SemiColon,
        Token::RBrace,
        Token::Eof,
    ];
    let classes = parse(tokens).unwrap();
    assert_eq!(classes.len(), 1);
    assert_eq!(classes[0].selector, ".parent>.child");
    assert_eq!(classes[0].styles.len(), 1);
    assert_eq!(
        classes[0].styles[0],
        Style {
            name: "margin".to_string(),
            value: "10px".to_string()
        }
    );
}

#[test]
fn parse_attribute_selector() {
    let tokens = vec![
        Token::Class,
        Token::Ident("parent".to_string()),
        Token::LBracket,
        Token::Ident("data-attr".to_string()),
        Token::Equals,
        Token::Ident("'value'".to_string()),
        Token::RBracket,
        Token::LBrace,
        Token::Ident("color".to_string()),
        Token::Colon,
        Token::Ident("red".to_string()),
        Token::SemiColon,
        Token::RBrace,
        Token::Eof,
    ];
    let classes = parse(tokens).unwrap();
    assert_eq!(classes.len(), 1);
    assert_eq!(classes[0].selector, r".parent[data-attr='value']");
    assert_eq!(classes[0].styles.len(), 1);
    assert_eq!(
        classes[0].styles[0],
        Style {
            name: "color".to_string(),
            value: "red".to_string()
        }
    );
}

#[test]
fn parse_declaration_vs_nesting_disambiguation() {
    let mut lexer = Lexer::new(".a { color: red; .b { x: y; } }".to_string());
    let tokens = lexer.get_tokens().unwrap();
    let classes = parse(tokens).unwrap();
    assert_eq!(classes.len(), 1);
    assert_eq!(classes[0].selector, ".a");
    assert_eq!(classes[0].styles.len(), 1);
    assert_eq!(
        classes[0].styles[0],
        Style {
            name: "color".to_string(),
            value: "red".to_string()
        }
    );
    assert_eq!(classes[0].sub_blocks.len(), 1);
    assert_eq!(classes[0].sub_blocks[0].selector, ".b");
    assert_eq!(classes[0].sub_blocks[0].styles.len(), 1);
    assert_eq!(
        classes[0].sub_blocks[0].styles[0],
        Style {
            name: "x".to_string(),
            value: "y".to_string()
        }
    );
    assert!(classes[0].sub_blocks[0].sub_blocks.is_empty());
}

#[test]
fn parse_missing_brace_reports_mismatch() {
    let tokens = vec![Token::Ident("a".to_string()), Token::Eof];
    let err = parse(tokens).unwrap_err();
    assert_eq!(
        err,
        ParseError::Unexpected {
            expected: Token::LBrace,
            found: Token::Eof
        }
    );
}

#[test]
fn parse_missing_semicolon_reports_mismatch() {
    let mut lexer = Lexer::new(".a { x: y z: w; }".to_string());
    let tokens = lexer.get_tokens().unwrap();
    let err = parse(tokens).unwrap_err();
    assert_eq!(
        err,
        ParseError::Unexpected {
            expected: Token::SemiColon,
            found: Token::Ident("z".to_string())
        }
    );
}

#[test]
fn parse_missing_name_reports_expected_ident() {
    let tokens = vec![
        Token::Class,
        Token::Ident("a".to_string()),
        Token::LBrace,
        Token::DirectChild,
        Token::Colon,
        Token::Ident("red".to_string()),
        Token::SemiColon,
        Token::RBrace,
        Token::Eof,
    ];
    let err = parse(tokens).unwrap_err();
    assert_eq!(
        err,
        ParseError::ExpectedIdent {
            found: Token::DirectChild
        }
    );
}

#[test]
fn parse_unclosed_block_reports_premature_end() {
    let mut lexer = Lexer::new(".a {".to_string());
    let tokens = lexer.get_tokens().unwrap();
    let err = parse(tokens).unwrap_err();
    assert_eq!(err, ParseError::UnexpectedEnd);
}

#[test]
fn parse_two_top_level_blocks() {
    let mut lexer = Lexer::new(".a { x: y; } .b { u: v; }".to_string());
    let tokens = lexer.get_tokens().unwrap();
    let classes = parse(tokens).unwrap();
    assert_eq!(classes.len(), 2);
    assert_eq!(classes[0].selector, ".a");
    assert_eq!(classes[1].selector, ".b");
}

#[test]
fn parse_duplicate_declarations_preserved() {
    let mut lexer = Lexer::new(".a { x: y; x: y; }".to_string());
    let tokens = lexer.get_tokens().unwrap();
    let classes = parse(tokens).unwrap();
    assert_eq!(classes[0].styles.len(), 2);
    assert_eq!(classes[0].styles[0], classes[0].styles[1]);
}
