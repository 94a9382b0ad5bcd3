use scssc::lexer::{LexError, Lexer};
use scssc::types::Token;

#[test]
fn test_single_char_tokens() {
    let input = "{};:";
    let mut lexer = Lexer::new(input.to_string());

    let expected_tokens = vec![
        Token::LBrace,
        Token::RBrace,
        Token::SemiColon,
        Token::Colon,
        Token::Eof,
    ];

    for expected in expected_tokens {
        let token = lexer.next_token().unwrap();
        assert_eq!(token, expected);
    }
}

#[test]
fn test_selectors() {
    let input = ". > ";
    let mut lexer = Lexer::new(input.to_string());

    let expected_tokens = vec![Token::Class, Token::DirectChild, Token::Eof];

    for expected in expected_tokens {
        let token = lexer.next_token().unwrap();
        assert_eq!(token, expected);
    }
}

#[test]
fn test_identifiers() {
    let input = "hello world";
    let mut lexer = Lexer::new(input.to_string());

    let expected_tokens = vec![
        Token::Ident("hello".to_string()),
        Token::Ident("world".to_string()),
        Token::Eof,
    ];

    for expected in expected_tokens {
        let token = lexer.next_token().unwrap();
        assert_eq!(token, expected);
    }
}

#[test]
fn test_mixed_input() {
    let input = ".class { color: red; }";
    let mut lexer = Lexer::new(input.to_string());

    let expected_tokens = vec![
        Token::Class,
        Token::Ident("class".to_string()),
        Token::LBrace,
        Token::Ident("color".to_string()),
        Token::Colon,
        Token::Ident("red".to_string()),
        Token::SemiColon,
        Token::RBrace,
        Token::Eof,
    ];

    for expected in expected_tokens {
        let token = lexer.next_token().unwrap();
        assert_eq!(token, expected);
    }
}

#[test]
fn lex_attribute_selector_1() {
    let input = "input[type=number]";
    let mut lexer = Lexer::new(input.to_string());

    let expected_tokens = vec![
        Token::Ident("input".to_string()),
        Token::LBracket,
        Token::Ident("type".to_string()),
        Token::Equals,
        Token::Ident("number".to_string()),
        Token::RBracket,
        Token::Eof,
    ];

    for expected in expected_tokens {
        let token = lexer.next_token().unwrap();
        assert_eq!(token, expected);
    }
}

#[test]
fn lex_attribute_selector_2() {
    let input = "[data-attr='value']";
    let mut lexer = Lexer::new(input.to_string());

    let expected_tokens = vec![
        Token::LBracket,
        Token::Ident("data-attr".to_string()),
        Token::Equals,
        Token::Ident("'value'".to_string()),
        Token::RBracket,
        Token::Eof,
    ];

    for expected in expected_tokens {
        let token = lexer.next_token().unwrap();
        assert_eq!(token, expected);
    }
}

#[test]
fn lex_basic_styles() {
    let input = ".class { color: red; margin: 10px; padding: 0; }";
    let mut lexer = Lexer::new(input.to_string());

    let expected_tokens = vec![
        Token::Class,
        Token::Ident("class".to_string()),
        Token::LBrace,
        Token::Ident("color".to_string()),
        Token::Colon,
        Token::Ident("red".to_string()),
        Token::SemiColon,
        Token::Ident("margin".to_string()),
        Token::Colon,
        Token::Ident("10px".to_string()),
        Token::SemiColon,
        Token::Ident("padding".to_string()),
        Token::Colon,
        Token::Ident("0".to_string()),
        Token::SemiColon,
        Token::RBrace,
        Token::Eof,
    ];

    for expected in expected_tokens {
        let token = lexer.next_token().unwrap();
        assert_eq!(token, expected);
    }
}

#[test]
fn lex_every_punctuation_round_trips() {
    let cases = vec![
        ('{', Token::LBrace),
        ('}', Token::RBrace),
        (';', Token::SemiColon),
        (':', Token::Colon),
        ('[', Token::LBracket),
        (']', Token::RBracket),
        ('=', Token::Equals),
        ('.', Token::Class),
        ('>', Token::DirectChild),
        ('*', Token::All),
        (',', Token::And),
        ('+', Token::After),
        ('~', Token::Before),
        ('&', Token::Root),
    ];
    for (glyph, expected) in cases {
        let mut lexer = Lexer::new(glyph.to_string());
        let tokens = lexer.get_tokens().unwrap();
        assert_eq!(tokens, vec![expected, Token::Eof]);
    }
}

#[test]
fn lex_double_quoted_span_keeps_delimiters() {
    let mut lexer = Lexer::new("\"a b\"".to_string());
    let tokens = lexer.get_tokens().unwrap();
    assert_eq!(tokens, vec![Token::Ident("\"a b\"".to_string()), Token::Eof]);
}

#[test]
fn lex_get_tokens_appends_one_eof() {
    let mut lexer = Lexer::new(".a { color: red; }".to_string());
    let tokens = lexer.get_tokens().unwrap();
    assert_eq!(tokens.last(), Some(&Token::Eof));
    let eof_count = tokens.iter().filter(|t| **t == Token::Eof).count();
    assert_eq!(eof_count, 1);
}

#[test]
fn lex_unterminated_quote_scans_to_end() {
    let mut lexer = Lexer::new("'ab".to_string());
    let tokens = lexer.get_tokens().unwrap();
    assert_eq!(tokens, vec![Token::Ident("'ab".to_string()), Token::Eof]);
}

#[test]
fn lex_unrecognized_character_fails() {
    let mut lexer = Lexer::new("@".to_string());
    let err = lexer.get_tokens().unwrap_err();
    assert_eq!(err, LexError { ch: '@', offset: 0 });
}

#[test]
fn lex_unrecognized_character_offset() {
    let mut lexer = Lexer::new(".a  !".to_string());
    let err = lexer.get_tokens().unwrap_err();
    assert_eq!(err, LexError { ch: '!', offset: 4 });
}

#[test]
fn token_from_str_and_to_string() {
    assert_eq!(Token::from_str('{'), Some(Token::LBrace));
    assert_eq!(Token::from_str('&'), Some(Token::Root));
    assert_eq!(Token::from_str('\0'), Some(Token::Eof));
    assert_eq!(Token::from_str('a'), None);
    assert_eq!(Token::Class.to_string(), ".");
    assert_eq!(Token::Root.to_string(), "&");
    assert_eq!(Token::Eof.to_string(), "EOF");
    assert_eq!(Token::Ident("abc".to_string()).to_string(), "abc");
}

#[test]
fn token_classification() {
    assert!(Token::Class.is_selector());
    assert!(Token::Root.is_selector());
    assert!(Token::Colon.is_selector());
    assert!(!Token::LBrace.is_selector());
    assert!(!Token::Eof.is_selector());
    assert!(!Token::Ident("x".to_string()).is_selector());
    assert!(Token::Ident("x".to_string()).is_ident());
    assert!(!Token::SemiColon.is_ident());
}
