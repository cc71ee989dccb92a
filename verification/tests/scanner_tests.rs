use rlox::lox::{Error, ErrorKind};
use rlox::scanner::{keyword_kind, Scanner};
use rlox::token::{Literal, Token, TokenKind};

fn scan(src: &str) -> Result<Vec<Token>, Error> {
    Scanner::new(src.as_bytes().to_vec()).scan_tokens()
}

fn kinds(tokens: &[Token]) -> Vec<TokenKind> {
    tokens.iter().map(|t| t.kind).collect()
}

fn number_value(t: &Token) -> f64 {
    match &t.literal {
        Some(Literal::Number(digits)) => std::str::from_utf8(digits).unwrap().parse().unwrap(),
        other => panic!("expected a number literal, got {:?}", other),
    }
}

#[test]
fn single_symbols_scan_one_to_one() {
    let src = "(){},.-+;*";
    let tokens = scan(src).unwrap();
    assert_eq!(tokens.len(), src.len() + 1);
    assert_eq!(
        kinds(&tokens),
        vec![
            TokenKind::LEFT_PAREN,
            TokenKind::RIGHT_PAREN,
            TokenKind::LEFT_BRACE,
            TokenKind::RIGHT_BRACE,
            TokenKind::COMMA,
            TokenKind::DOT,
            TokenKind::MINUS,
            TokenKind::PLUS,
            TokenKind::SEMICOLON,
            TokenKind::STAR,
            TokenKind::EOF,
        ]
    );
}

#[test]
fn lexemes_round_trip_to_source() {
    let tokens = scan("var x1 = 12.5;\n\"hi\" != done").unwrap();
    let expected: Vec<&[u8]> =
        vec![b"var", b"x1", b"=", b"12.5", b";", b"\"hi\"", b"!=", b"done", b""];
    assert_eq!(tokens.len(), expected.len());
    for (t, e) in tokens.iter().zip(expected.iter()) {
        assert_eq!(t.lexeme.as_slice(), *e);
    }
}

#[test]
fn token_lines_count_preceding_newlines() {
    let tokens = scan("a\nb\n\nc").unwrap();
    assert_eq!(kinds(&tokens), vec![
        TokenKind::IDENTIFIER,
        TokenKind::IDENTIFIER,
        TokenKind::IDENTIFIER,
        TokenKind::EOF,
    ]);
    let lines: Vec<usize> = tokens.iter().map(|t| t.line).collect();
    assert_eq!(lines, vec![1, 2, 4, 4]);
}

#[test]
fn bang_equal_is_one_token() {
    let tokens = scan("!=").unwrap();
    assert_eq!(kinds(&tokens), vec![TokenKind::BANG_EQUAL, TokenKind::EOF]);
}

#[test]
fn bang_then_identifier_stay_separate() {
    let tokens = scan("!x").unwrap();
    assert_eq!(kinds(&tokens), vec![TokenKind::BANG, TokenKind::IDENTIFIER, TokenKind::EOF]);
}

#[test]
fn trailing_dot_is_not_part_of_number() {
    let tokens = scan("123.").unwrap();
    assert_eq!(kinds(&tokens), vec![TokenKind::NUMBER, TokenKind::DOT, TokenKind::EOF]);
    assert_eq!(tokens[0].lexeme.as_slice(), b"123");
}

#[test]
fn comment_contributes_no_token() {
    let tokens = scan("// c\n1").unwrap();
    assert_eq!(kinds(&tokens), vec![TokenKind::NUMBER, TokenKind::EOF]);
    assert_eq!(tokens[0].lexeme.as_slice(), b"1");
    assert_eq!(tokens[0].line, 2);
    assert_eq!(number_value(&tokens[0]), 1.0);
}

#[test]
fn unterminated_string_fails_with_its_line() {
    let err = scan("\"abc").unwrap_err();
    assert_eq!(err.kind, ErrorKind::UnterminatedString);
    assert_eq!(err.line, 1);
}

#[test]
fn scan_aborts_on_first_error() {
    let result = scan("1 @ 2");
    let err = result.unwrap_err();
    assert_eq!(err.kind, ErrorKind::UnexpectedCharacter);
    assert_eq!(err.line, 1);
}

#[test]
fn keyword_match_must_be_exact() {
    let tokens = scan("iffy").unwrap();
    assert_eq!(kinds(&tokens), vec![TokenKind::IDENTIFIER, TokenKind::EOF]);
    let tokens = scan("if").unwrap();
    assert_eq!(kinds(&tokens), vec![TokenKind::IF, TokenKind::EOF]);
    assert_eq!(tokens[0].literal, None);
}

#[test]
fn all_sixteen_keywords_resolve() {
    let cases = vec![
        ("and", TokenKind::AND),
        ("class", TokenKind::CLASS),
        ("else", TokenKind::ELSE),
        ("false", TokenKind::FALSE),
        ("for", TokenKind::FOR),
        ("fun", TokenKind::FUN),
        ("if", TokenKind::IF),
        ("nil", TokenKind::NIL),
        ("or", TokenKind::OR),
        ("print", TokenKind::PRINT),
        ("return", TokenKind::RETURN),
        ("super", TokenKind::SUPER),
        ("this", TokenKind::THIS),
        ("true", TokenKind::TRUE),
        ("var", TokenKind::VAR),
        ("while", TokenKind::WHILE),
    ];
    for (word, kind) in cases {
        let tokens = scan(word).unwrap();
        assert_eq!(tokens[0].kind, kind, "keyword {}", word);
        assert_eq!(tokens[0].literal, None);
    }
    // Reserved words are case-sensitive.
    let tokens = scan("IF If").unwrap();
    assert_eq!(kinds(&tokens), vec![
        TokenKind::IDENTIFIER,
        TokenKind::IDENTIFIER,
        TokenKind::EOF,
    ]);
}

#[test]
fn keyword_kind_resolves_spellings() {
    assert_eq!(keyword_kind(&b"and".to_vec()), Some(TokenKind::AND));
    assert_eq!(keyword_kind(&b"andy".to_vec()), None);
    assert_eq!(keyword_kind(&b"".to_vec()), None);
    assert_eq!(keyword_kind(&b"returns".to_vec()), None);
}

#[test]
fn empty_input_yields_only_the_marker() {
    let tokens = scan("").unwrap();
    assert_eq!(tokens.len(), 1);
    assert_eq!(tokens[0].kind, TokenKind::EOF);
    assert_eq!(tokens[0].lexeme.as_slice(), b"");
    assert_eq!(tokens[0].line, 1);
}

#[test]
fn whitespace_yields_only_the_marker() {
    let tokens = scan(" \t\r \t").unwrap();
    assert_eq!(kinds(&tokens), vec![TokenKind::EOF]);
}

#[test]
fn string_literal_trims_the_quotes() {
    let tokens = scan("\"hi\"").unwrap();
    assert_eq!(kinds(&tokens), vec![TokenKind::STRING, TokenKind::EOF]);
    assert_eq!(tokens[0].lexeme.as_slice(), b"\"hi\"");
    assert_eq!(tokens[0].literal, Some(Literal::String(b"hi".to_vec())));
    assert_eq!(tokens[0].line, 1);
}

#[test]
fn multi_line_string_keeps_its_start_line() {
    let tokens = scan("\"a\nb\" x").unwrap();
    assert_eq!(kinds(&tokens), vec![
        TokenKind::STRING,
        TokenKind::IDENTIFIER,
        TokenKind::EOF,
    ]);
    assert_eq!(tokens[0].literal, Some(Literal::String(b"a\nb".to_vec())));
    assert_eq!(tokens[0].line, 1);
    assert_eq!(tokens[1].line, 2);
    assert_eq!(tokens[2].line, 2);
}

#[test]
fn unterminated_multi_line_string_reports_last_line() {
    let err = scan("\"a\nb").unwrap_err();
    assert_eq!(err.kind, ErrorKind::UnterminatedString);
    assert_eq!(err.line, 2);
}

#[test]
fn one_and_two_character_operators() {
    let tokens = scan("== <= >= != = < > !").unwrap();
    assert_eq!(
        kinds(&tokens),
        vec![
            TokenKind::EQUAL_EQUAL,
            TokenKind::LESS_EQUAL,
            TokenKind::GREATER_EQUAL,
            TokenKind::BANG_EQUAL,
            TokenKind::EQUAL,
            TokenKind::LESS,
            TokenKind::GREATER,
            TokenKind::BANG,
            TokenKind::EOF,
        ]
    );
}

#[test]
fn lone_slash_is_division() {
    let tokens = scan("1/2").unwrap();
    assert_eq!(kinds(&tokens), vec![
        TokenKind::NUMBER,
        TokenKind::SLASH,
        TokenKind::NUMBER,
        TokenKind::EOF,
    ]);
}

#[test]
fn comment_at_end_of_buffer() {
    let tokens = scan("1//xx").unwrap();
    assert_eq!(kinds(&tokens), vec![TokenKind::NUMBER, TokenKind::EOF]);
}

#[test]
fn fractional_number_is_one_token() {
    let tokens = scan("3.14").unwrap();
    assert_eq!(kinds(&tokens), vec![TokenKind::NUMBER, TokenKind::EOF]);
    assert_eq!(tokens[0].lexeme.as_slice(), b"3.14");
    assert_eq!(number_value(&tokens[0]), 3.14);
}

#[test]
fn dot_after_number_before_identifier() {
    let tokens = scan("1.foo").unwrap();
    assert_eq!(kinds(&tokens), vec![
        TokenKind::NUMBER,
        TokenKind::DOT,
        TokenKind::IDENTIFIER,
        TokenKind::EOF,
    ]);
    assert_eq!(tokens[0].lexeme.as_slice(), b"1");
    assert_eq!(tokens[2].lexeme.as_slice(), b"foo");
}

#[test]
fn underscores_begin_and_continue_identifiers() {
    let tokens = scan("_tmp x_1").unwrap();
    assert_eq!(kinds(&tokens), vec![
        TokenKind::IDENTIFIER,
        TokenKind::IDENTIFIER,
        TokenKind::EOF,
    ]);
    assert_eq!(tokens[0].lexeme.as_slice(), b"_tmp");
    assert_eq!(tokens[1].lexeme.as_slice(), b"x_1");
}

#[test]
fn unexpected_character_reports_its_line() {
    let err = scan("\n\n@").unwrap_err();
    assert_eq!(err.kind, ErrorKind::UnexpectedCharacter);
    assert_eq!(err.line, 3);
}

#[test]
fn error_new_records_line_and_kind() {
    let e = Error::new(3, ErrorKind::UnexpectedCharacter);
    assert_eq!(e.line, 3);
    assert_eq!(e.kind, ErrorKind::UnexpectedCharacter);
}

#[test]
fn token_new_records_all_fields() {
    let t = Token::new(TokenKind::NUMBER, b"7".to_vec(), Some(Literal::Number(b"7".to_vec())), 2);
    assert_eq!(t.kind, TokenKind::NUMBER);
    assert_eq!(t.lexeme.as_slice(), b"7");
    assert_eq!(t.literal, Some(Literal::Number(b"7".to_vec())));
    assert_eq!(t.line, 2);
}

#[test]
fn backslashes_are_ordinary_string_bytes() {
    // No escape processing: the two bytes `\` `n` stay as they are.
    let tokens = scan("\"a\\nb\"").unwrap();
    assert_eq!(kinds(&tokens), vec![TokenKind::STRING, TokenKind::EOF]);
    assert_eq!(tokens[0].literal, Some(Literal::String(b"a\\nb".to_vec())));
    assert_eq!(tokens[0].line, 1);
}

#[test]
fn second_dot_ends_the_number() {
    let tokens = scan("123.456.789").unwrap();
    assert_eq!(kinds(&tokens), vec![
        TokenKind::NUMBER,
        TokenKind::DOT,
        TokenKind::NUMBER,
        TokenKind::EOF,
    ]);
    assert_eq!(tokens[0].lexeme.as_slice(), b"123.456");
    assert_eq!(number_value(&tokens[0]), 123.456);
    assert_eq!(tokens[2].lexeme.as_slice(), b"789");
}

#[test]
fn comment_only_input_yields_only_the_marker() {
    let tokens = scan("//abc").unwrap();
    assert_eq!(kinds(&tokens), vec![TokenKind::EOF]);
    assert_eq!(tokens[0].line, 1);
}

#[test]
fn small_program_scans_in_source_order() {
    let src = "var half = 1/2; // note\nif (half <= 1) { print \"ok\"; }";
    let tokens = scan(src).unwrap();
    assert_eq!(
        kinds(&tokens),
        vec![
            TokenKind::VAR,
            TokenKind::IDENTIFIER,
            TokenKind::EQUAL,
            TokenKind::NUMBER,
            TokenKind::SLASH,
            TokenKind::NUMBER,
            TokenKind::SEMICOLON,
            TokenKind::IF,
            TokenKind::LEFT_PAREN,
            TokenKind::IDENTIFIER,
            TokenKind::LESS_EQUAL,
            TokenKind::NUMBER,
            TokenKind::RIGHT_PAREN,
            TokenKind::LEFT_BRACE,
            TokenKind::PRINT,
            TokenKind::STRING,
            TokenKind::SEMICOLON,
            TokenKind::RIGHT_BRACE,
            TokenKind::EOF,
        ]
    );
    // Lines never decrease, and switch to 2 after the newline.
    assert_eq!(tokens[6].line, 1);
    assert_eq!(tokens[7].line, 2);
    for pair in tokens.windows(2) {
        assert!(pair[0].line <= pair[1].line);
    }
}
