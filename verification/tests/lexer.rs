use kobold_front::Lexer;
use kobold_front::lexer::LexErrorKind;
use kobold_front::token::TokenType;

fn lex(src: &str) -> Vec<(TokenType, String, i32)> {
    let mut lx = Lexer::new("test.kbld", src);
    let mut ts = lx.process().expect("source should lex");
    let n = ts.len();
    ts.read(n)
        .into_iter()
        .map(|t| (t.get_type(), t.get_string(), t.get_line()))
        .collect()
}

#[test]
fn lex_integer() {
    let toks = lex("12");
    assert_eq!(toks, vec![(TokenType::Integer, "12".to_string(), 1)]);
}

#[test]
fn lex_float() {
    let toks = lex("12.5");
    assert_eq!(toks, vec![(TokenType::Float, "12.5".to_string(), 1)]);
}

#[test]
fn lex_power_is_one_token() {
    let toks = lex("**");
    assert_eq!(toks, vec![(TokenType::Power, "**".to_string(), 1)]);
}

#[test]
fn lex_arrow_is_one_token() {
    let toks = lex("->");
    assert_eq!(toks, vec![(TokenType::Arrow, "->".to_string(), 1)]);
}

#[test]
fn lex_minus_then_space_then_greater() {
    let toks = lex("- >");
    assert_eq!(
        toks,
        vec![
            (TokenType::Minus, "-".to_string(), 1),
            (TokenType::GreaterThan, ">".to_string(), 1),
        ]
    );
}

#[test]
fn lex_crlf_advances_one_line() {
    let toks = lex("a\r\nb");
    assert_eq!(
        toks,
        vec![
            (TokenType::Identifier, "a".to_string(), 1),
            (TokenType::Identifier, "b".to_string(), 2),
        ]
    );
}

#[test]
fn lex_bare_cr_does_not_advance_line() {
    let toks = lex("a\rb");
    assert_eq!(
        toks,
        vec![
            (TokenType::Identifier, "a".to_string(), 1),
            (TokenType::Identifier, "b".to_string(), 1),
        ]
    );
}

#[test]
fn lex_unknown_symbol_is_fatal() {
    let mut lx = Lexer::new("test.kbld", "a @");
    let err = lx.process().err().expect("should fail");
    assert_eq!(err.line, 1);
    assert_eq!(err.kind, LexErrorKind::UnknownSymbol('@'));
    assert_eq!(err.file, "test.kbld");
}

#[test]
fn lex_keywords_win_over_identifiers() {
    let toks = lex("module struct let if inner message other");
    let types: Vec<TokenType> = toks.iter().map(|t| t.0).collect();
    assert_eq!(
        types,
        vec![
            TokenType::Module,
            TokenType::Struct,
            TokenType::Let,
            TokenType::If,
            TokenType::Inner,
            TokenType::Message,
            TokenType::Identifier,
        ]
    );
}

#[test]
fn lex_struct_identifier_and_punctuation() {
    let toks = lex("Point{x:1}");
    let types: Vec<TokenType> = toks.iter().map(|t| t.0).collect();
    assert_eq!(
        types,
        vec![
            TokenType::StructIdentifier,
            TokenType::LBrace,
            TokenType::Identifier,
            TokenType::Colon,
            TokenType::Integer,
            TokenType::RBrace,
        ]
    );
}

#[test]
fn lex_comment_runs_to_end_of_line() {
    let toks = lex("# comment + * stuff\nx");
    assert_eq!(toks, vec![(TokenType::Identifier, "x".to_string(), 2)]);
}

#[test]
fn lex_semicolon_is_ignored() {
    let toks = lex("a;b");
    assert_eq!(
        toks,
        vec![
            (TokenType::Identifier, "a".to_string(), 1),
            (TokenType::Identifier, "b".to_string(), 1),
        ]
    );
}

#[test]
fn lex_string_literal_verbatim() {
    let toks = lex("\"hi there\"");
    assert_eq!(toks, vec![(TokenType::CString, "hi there".to_string(), 1)]);
}

#[test]
fn lex_identifier_with_bang_and_question() {
    let toks = lex("ready? go!");
    assert_eq!(
        toks,
        vec![
            (TokenType::Identifier, "ready?".to_string(), 1),
            (TokenType::Identifier, "go!".to_string(), 1),
        ]
    );
}

#[test]
fn lex_integer_trailing_e_promotes_to_float() {
    // A known permissiveness: `12e` with no following digits is a float.
    let toks = lex("12e");
    assert_eq!(toks, vec![(TokenType::Float, "12e".to_string(), 1)]);
}

#[test]
fn lex_empty_source() {
    let toks = lex("");
    assert_eq!(toks, vec![]);
}

#[test]
fn lex_operator_at_end_of_input() {
    let toks = lex("1+");
    assert_eq!(
        toks,
        vec![
            (TokenType::Integer, "1".to_string(), 1),
            (TokenType::Plus, "+".to_string(), 1),
        ]
    );
}

#[test]
fn lex_star_runs_greedily() {
    let toks = lex("a*b**c");
    let types: Vec<TokenType> = toks.iter().map(|t| t.0).collect();
    assert_eq!(
        types,
        vec![
            TokenType::Identifier,
            TokenType::Asterisk,
            TokenType::Identifier,
            TokenType::Power,
            TokenType::Identifier,
        ]
    );
}

#[test]
fn lex_integer_trailing_dot_promotes_to_float() {
    let toks = lex("12.");
    assert_eq!(toks, vec![(TokenType::Float, "12.".to_string(), 1)]);
}

#[test]
fn lex_string_escape_slash_is_dropped() {
    // The `/` escape character is reserved but never decoded.
    let toks = lex("\"a/b\"");
    assert_eq!(toks, vec![(TokenType::CString, "ab".to_string(), 1)]);
}
