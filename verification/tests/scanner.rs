use clex::lexer::{tokenize, LexError, LexErrorKind, Token, TokenType};

fn tokens_of(src: &str) -> Vec<Token> {
    match tokenize(String::from(src)) {
        Ok(Some(toks)) => toks,
        other => panic!("expected tokens for {:?}, got {:?}", src, other),
    }
}

fn error_of(src: &str) -> LexError {
    match tokenize(String::from(src)) {
        Err(e) => e,
        other => panic!("expected an error for {:?}, got {:?}", src, other),
    }
}

fn assert_empty_outcome(src: &str) {
    match tokenize(String::from(src)) {
        Ok(None) => {}
        other => panic!("expected the empty outcome for {:?}, got {:?}", src, other),
    }
}

#[test]
fn empty_input_is_empty_outcome() {
    assert_empty_outcome("");
}

#[test]
fn whitespace_only_is_empty_outcome() {
    assert_empty_outcome(" ");
    assert_empty_outcome("\n");
    assert_empty_outcome("\t");
    assert_empty_outcome("  \t \n\n \t\t \n ");
}

#[test]
fn single_punct_tokens() {
    let toks = tokens_of("[");
    assert_eq!(toks.len(), 1);
    assert!(matches!(toks[0].token_type, TokenType::OBracket));
    assert!(matches!(tokens_of("]")[0].token_type, TokenType::CBracket));
    assert!(matches!(tokens_of("(")[0].token_type, TokenType::OParen));
    assert!(matches!(tokens_of(")")[0].token_type, TokenType::CParen));
    assert!(matches!(tokens_of("<")[0].token_type, TokenType::OAngle));
    assert!(matches!(tokens_of(">")[0].token_type, TokenType::CAngle));
    assert!(matches!(tokens_of("{")[0].token_type, TokenType::OBrace));
    assert!(matches!(tokens_of("}")[0].token_type, TokenType::CBrace));
    assert!(matches!(tokens_of("+")[0].token_type, TokenType::Plus));
    assert!(matches!(tokens_of("-")[0].token_type, TokenType::Minus));
    assert!(matches!(tokens_of("/")[0].token_type, TokenType::Divide));
    assert!(matches!(tokens_of("*")[0].token_type, TokenType::Multiply));
    assert!(matches!(tokens_of("%")[0].token_type, TokenType::Modulo));
    assert!(matches!(tokens_of(";")[0].token_type, TokenType::SemiColon));
    assert!(matches!(tokens_of(",")[0].token_type, TokenType::Comma));
    assert!(matches!(tokens_of("=")[0].token_type, TokenType::Equal));
}

#[test]
fn single_punct_lexeme_and_position() {
    for src in [
        "[", "]", "(", ")", "<", ">", "{", "}", "+", "-", "/", "*", "%", ";", ",", "=",
    ] {
        let toks = tokens_of(src);
        assert_eq!(toks.len(), 1);
        assert_eq!(toks[0].token_literal, src);
        assert_eq!(toks[0].line_num, 1);
        assert_eq!(toks[0].col_num, 1);
    }
}

#[test]
fn identifier_run_is_one_token() {
    let toks = tokens_of("abc");
    assert_eq!(toks.len(), 1);
    assert!(matches!(toks[0].token_type, TokenType::Identifier));
    assert_eq!(toks[0].token_literal, "abc");
    assert_eq!(toks[0].line_num, 1);
    assert_eq!(toks[0].col_num, 1);
}

#[test]
fn identifier_takes_no_trailing_digit() {
    let toks = tokens_of("x1");
    assert_eq!(toks.len(), 2);
    assert!(matches!(toks[0].token_type, TokenType::Identifier));
    assert_eq!(toks[0].token_literal, "x");
    assert_eq!(toks[0].col_num, 1);
    assert!(matches!(toks[1].token_type, TokenType::Constant));
    assert_eq!(toks[1].token_literal, "1");
    assert_eq!(toks[1].col_num, 2);
}

#[test]
fn constant_run_is_one_token() {
    let toks = tokens_of("1234");
    assert_eq!(toks.len(), 1);
    assert!(matches!(toks[0].token_type, TokenType::Constant));
    assert_eq!(toks[0].token_literal, "1234");
    assert_eq!(toks[0].line_num, 1);
    assert_eq!(toks[0].col_num, 1);
}

#[test]
fn constant_then_operator() {
    let toks = tokens_of("12+3");
    assert_eq!(toks.len(), 3);
    assert!(matches!(toks[0].token_type, TokenType::Constant));
    assert_eq!(toks[0].token_literal, "12");
    assert_eq!(toks[0].col_num, 1);
    assert!(matches!(toks[1].token_type, TokenType::Plus));
    assert_eq!(toks[1].col_num, 3);
    assert!(matches!(toks[2].token_type, TokenType::Constant));
    assert_eq!(toks[2].token_literal, "3");
    assert_eq!(toks[2].col_num, 4);
}

#[test]
fn invalid_suffix_fails_at_first_digit() {
    let e = error_of("12abc");
    assert_eq!(
        e,
        LexError { line: 1, col: 1, kind: LexErrorKind::InvalidSuffix }
    );
    assert_eq!(e.message(), "invalid suffix on integer constant");
}

#[test]
fn invalid_suffix_position_on_later_line() {
    let e = error_of("\n  12a");
    assert_eq!(
        e,
        LexError { line: 2, col: 3, kind: LexErrorKind::InvalidSuffix }
    );
}

#[test]
fn illegal_character_is_fatal() {
    let e = error_of("@");
    assert_eq!(
        e,
        LexError { line: 1, col: 1, kind: LexErrorKind::IllegalCharacter }
    );
    assert_eq!(e.message(), "illegal character in program");
}

#[test]
fn illegal_character_position() {
    let e = error_of("ab @");
    assert_eq!(
        e,
        LexError { line: 1, col: 4, kind: LexErrorKind::IllegalCharacter }
    );
}

#[test]
fn newline_resets_column() {
    let toks = tokens_of("ab\ncd");
    assert_eq!(toks.len(), 2);
    assert_eq!(toks[0].token_literal, "ab");
    assert_eq!(toks[0].line_num, 1);
    assert_eq!(toks[0].col_num, 1);
    assert_eq!(toks[1].token_literal, "cd");
    assert_eq!(toks[1].line_num, 2);
    assert_eq!(toks[1].col_num, 1);
}

#[test]
fn tab_advances_column() {
    let toks = tokens_of("a\tb");
    assert_eq!(toks.len(), 2);
    assert_eq!(toks[0].col_num, 1);
    assert_eq!(toks[1].col_num, 3);
}

#[test]
fn multichar_token_advances_column_by_its_length() {
    let toks = tokens_of("abc def");
    assert_eq!(toks.len(), 2);
    assert_eq!(toks[0].col_num, 1);
    assert_eq!(toks[1].col_num, 5);
}

#[test]
fn scenario_assignment_statement() {
    let toks = tokens_of("x = 1;");
    assert_eq!(toks.len(), 4);
    assert!(matches!(toks[0].token_type, TokenType::Identifier));
    assert_eq!(toks[0].token_literal, "x");
    assert_eq!(toks[0].col_num, 1);
    assert!(matches!(toks[1].token_type, TokenType::Equal));
    assert_eq!(toks[1].token_literal, "=");
    assert_eq!(toks[1].col_num, 3);
    assert!(matches!(toks[2].token_type, TokenType::Constant));
    assert_eq!(toks[2].token_literal, "1");
    assert_eq!(toks[2].col_num, 5);
    assert!(matches!(toks[3].token_type, TokenType::SemiColon));
    assert_eq!(toks[3].token_literal, ";");
    assert_eq!(toks[3].col_num, 6);
}

#[test]
fn scenario_function_skeleton() {
    let toks = tokens_of("int main ( ) { }");
    assert_eq!(toks.len(), 6);
    assert!(matches!(toks[0].token_type, TokenType::Identifier));
    assert_eq!(toks[0].token_literal, "int");
    assert!(matches!(toks[1].token_type, TokenType::Identifier));
    assert_eq!(toks[1].token_literal, "main");
    assert!(matches!(toks[2].token_type, TokenType::OParen));
    assert!(matches!(toks[3].token_type, TokenType::CParen));
    assert!(matches!(toks[4].token_type, TokenType::OBrace));
    assert!(matches!(toks[5].token_type, TokenType::CBrace));
}
