//! Token and error types of the scanner, and the scanner itself.

use vstd::prelude::*;

verus! {

use crate::model::{TokenModel, ErrorModel, ScanResult, scan, scan_cons, scan_prepend};
use crate::model::{is_letter, is_digit, is_punct, punct_token_type};
use crate::model::{lemma_letter_run_is, lemma_digit_run_is};

/// The classification of a token.
///
/// `Keyword` is declared for a later classification pass over identifiers and
/// is never produced by the scanner; `Illegal` is likewise declared for a
/// permissive scanning mode, while the scanner here follows the strict policy
/// and reports an unrecognized character as a fatal error instead.
#[derive(Debug)]
pub enum TokenType {
    Identifier,
    Constant,
    Keyword(String),
    OParen,
    CParen,
    OBrace,
    CBrace,
    OAngle,
    CAngle,
    OBracket,
    CBracket,
    SemiColon,
    Plus,
    Minus,
    Divide,
    Comma,
    Equal,
    Multiply,
    Modulo,
    Illegal,
}

/// One classified token: its kind, the exact source substring it came from,
/// and the 1-based line and column of its first character.
#[derive(Debug)]
pub struct Token {
    pub token_type: TokenType,
    pub token_literal: String,
    pub line_num: u32,
    pub col_num: u32,
}

impl View for Token {
    type V = TokenModel;

    open spec fn view(&self) -> TokenModel {
        TokenModel {
            kind: self.token_type,
            lexeme: self.token_literal@,
            line: self.line_num as int,
            col: self.col_num as int,
        }
    }
}

/// Why scanning stopped.
#[derive(Debug, Clone, Copy, PartialEq, Eq, Structural)]
pub enum LexErrorKind {
    /// A run of digits was immediately followed by a letter.
    InvalidSuffix,
    /// A character outside the recognized alphabet was met.
    IllegalCharacter,
}

/// A fatal lexical error: what went wrong and the 1-based line and column of
/// the offending character (for an invalid suffix, of the constant's first
/// digit).
#[derive(Debug, Clone, Copy, PartialEq, Eq, Structural)]
pub struct LexError {
    pub line: u32,
    pub col: u32,
    pub kind: LexErrorKind,
}

impl View for LexError {
    type V = ErrorModel;

    open spec fn view(&self) -> ErrorModel {
        ErrorModel { line: self.line as int, col: self.col as int, kind: self.kind }
    }
}

/// The diagnostic text that belongs to an error of kind `k`; presentation —
/// prefixing the line and column — is the caller's business.
pub open spec fn error_message(k: LexErrorKind) -> Seq<char> {
    match k {
        LexErrorKind::InvalidSuffix => "invalid suffix on integer constant"@,
        LexErrorKind::IllegalCharacter => "illegal character in program"@,
    }
}

impl LexError {
    /// The diagnostic text for this error, without its position.
    pub fn message(&self) -> (m: String)
        ensures
            m@ == error_message(self.kind),
    {
        match self.kind {
            LexErrorKind::InvalidSuffix => "invalid suffix on integer constant".to_owned(),
            LexErrorKind::IllegalCharacter => "illegal character in program".to_owned(),
        }
    }
}

/// The models of the tokens of `ts`, in the same order.
pub open spec fn token_views(ts: Seq<Token>) -> Seq<TokenModel> {
    ts.map_values(|t: Token| t@)
}

proof fn lemma_token_views_push(ts: Seq<Token>, t: Token)
    ensures
        token_views(ts.push(t)) == token_views(ts).push(t@),
{
    assert(token_views(ts.push(t)) =~= token_views(ts).push(t@));
}

proof fn lemma_prepend_cons(ts: Seq<TokenModel>, t: TokenModel, r: ScanResult)
    ensures
        scan_prepend(ts, scan_cons(t, r)) == scan_prepend(ts.push(t), r),
{
    match r {
        ScanResult::Tokens(rest) => {
            assert(ts + (seq![t] + rest) =~= ts.push(t) + rest);
        },
        ScanResult::Failed(e) => {},
    }
}

/// True exactly when `c` is an ASCII alphabetic character.
fn is_letter_char(c: char) -> (b: bool)
    ensures
        b == is_letter(c),
{
    let u: u32 = c as u32;
    (97 <= u && u <= 122) || (65 <= u && u <= 90)
}

/// True exactly when `c` is an ASCII decimal digit.
fn is_digit_char(c: char) -> (b: bool)
    ensures
        b == is_digit(c),
{
    let u: u32 = c as u32;
    48 <= u && u <= 57
}

/// The kind of the one-character token formed by `c`, if `c` forms one.
fn punct_lookup(c: char) -> (r: Option<TokenType>)
    ensures
        match r {
            Some(t) => is_punct(c) && t == punct_token_type(c),
            None => !is_punct(c),
        },
{
    match c {
        '[' => Some(TokenType::OBracket),
        ']' => Some(TokenType::CBracket),
        '(' => Some(TokenType::OParen),
        ')' => Some(TokenType::CParen),
        '<' => Some(TokenType::OAngle),
        '>' => Some(TokenType::CAngle),
        '{' => Some(TokenType::OBrace),
        '}' => Some(TokenType::CBrace),
        '+' => Some(TokenType::Plus),
        '-' => Some(TokenType::Minus),
        '/' => Some(TokenType::Divide),
        '*' => Some(TokenType::Multiply),
        '%' => Some(TokenType::Modulo),
        ';' => Some(TokenType::SemiColon),
        ',' => Some(TokenType::Comma),
        '=' => Some(TokenType::Equal),
        _ => None,
    }
}

fn create_token(tok_type: TokenType, literal: String, line: u32, col: u32) -> (t: Token)
    ensures
        t.token_type == tok_type,
        t.token_literal == literal,
        t.line_num == line,
        t.col_num == col,
{
    return Token {
        token_type: tok_type,
        token_literal: literal,
        line_num: line,
        col_num: col,
    };
}

/// Scans the whole of `file_content` left to right and returns its tokens in
/// source order, `None` when the text holds no token at all (only blanks,
/// tabs and newlines, or nothing), or the first fatal lexical error.
///
/// The result is exactly what the specification `scan` says of the text,
/// entered at line 1, column 0.
#[verifier::loop_isolation(false)]
#[verifier::rlimit(60)]
pub fn tokenize(file_content: String) -> (r: Result<Option<Vec<Token>>, LexError>)
    requires
        file_content@.len() < u32::MAX,
    ensures
        match r {
            Ok(Some(toks)) => toks@.len() > 0 && scan(file_content@, 1, 0)
                == ScanResult::Tokens(token_views(toks@)),
            Ok(None) => scan(file_content@, 1, 0)
                == ScanResult::Tokens(Seq::<TokenModel>::empty()),
            Err(e) => scan(file_content@, 1, 0) == ScanResult::Failed(e@),
        },
{
    let s: &str = file_content.as_str();
    let n: usize = s.unicode_len();
    let mut tokens: Vec<Token> = Vec::new();
    let mut line: u32 = 1;
    let mut col: u32 = 0;
    let mut i: usize = 0;

    proof {
        assert(file_content@.skip(0) =~= file_content@);
        assert(token_views(tokens@) =~= Seq::<TokenModel>::empty());
        match scan(file_content@, 1, 0) {
            ScanResult::Tokens(ts) => {
                assert(Seq::<TokenModel>::empty() + ts =~= ts);
            },
            ScanResult::Failed(e) => {},
        }
    }
    while i < n
        invariant
            i <= n,
            col as int <= i as int,
            line as int <= 1 + i as int,
            scan(file_content@, 1, 0) == scan_prepend(
                token_views(tokens@),
                scan(file_content@.skip(i as int), line as int, col as int),
            ),
        decreases n - i,
    {
        let ghost line0: int = line as int;
        let ghost col0: int = col as int;
        let ghost i0: int = i as int;
        let ghost rest0: Seq<char> = file_content@.skip(i0);
        let c = s.get_char(i);
        proof {
            assert(rest0[0] == file_content@[i0]);
            assert(rest0.skip(1) =~= file_content@.skip(i0 + 1));
        }
        if c == '\n' {
            line = line + 1;
            col = 0;
            i = i + 1;
        } else {
            col = col + 1;
            if c == ' ' || c == '\t' {
                i = i + 1;
            } else {
                match punct_lookup(c) {
                    Some(tt) => {
                        let lit = s.substring_char(i, i + 1).to_owned();
                        proof {
                            assert(lit@ =~= seq![c]);
                        }
                        let tok = create_token(tt, lit, line, col);
                        let ghost before: Seq<Token> = tokens@;
                        tokens.push(tok);
                        i = i + 1;
                        proof {
                            lemma_token_views_push(before, tok);
                            lemma_prepend_cons(
                                token_views(before),
                                tok@,
                                scan(file_content@.skip(i as int), line as int, col as int),
                            );
                            assert(scan(rest0, line0, col0) == scan_cons(
                                tok@,
                                scan(file_content@.skip(i as int), line as int, col as int),
                            ));
                        }
                    },
                    None => {
                        if is_letter_char(c) {
                            let start = i;
                            let start_col = col;
                            i = i + 1;
                            while i < n && is_letter_char(s.get_char(i))
                                invariant
                                    start < i <= n,
                                    forall|j: int| start < j < i ==> is_letter(
                                        file_content@[j],
                                    ),
                                decreases n - i,
                            {
                                i = i + 1;
                            }
                            let ghost k: int = i as int - start as int;
                            proof {
                                assert forall|j: int| 0 <= j < k implies is_letter(
                                    rest0[j],
                                ) by {
                                    assert(rest0[j] == file_content@[i0 + j]);
                                }
                                if i < n {
                                    assert(rest0[k] == file_content@[i as int]);
                                }
                                lemma_letter_run_is(rest0, k);
                            }
                            let lit = s.substring_char(start, i).to_owned();
                            proof {
                                assert(lit@ =~= rest0.take(k));
                            }
                            let tok = create_token(TokenType::Identifier, lit, line, start_col);
                            let ghost before: Seq<Token> = tokens@;
                            tokens.push(tok);
                            let ext: usize = i - start - 1;
                            proof {
                                assert(col + ext <= i as int);
                            }
                            col = col + (ext as u32);
                            proof {
                                assert(rest0.skip(k) =~= file_content@.skip(i as int));
                                lemma_token_views_push(before, tok);
                                lemma_prepend_cons(
                                    token_views(before),
                                    tok@,
                                    scan(file_content@.skip(i as int), line as int, col as int),
                                );
                                assert(scan(rest0, line0, col0) == scan_cons(
                                    tok@,
                                    scan(file_content@.skip(i as int), line as int, col as int),
                                ));
                            }
                        } else if is_digit_char(c) {
                            let start = i;
                            let start_col = col;
                            i = i + 1;
                            while i < n && is_digit_char(s.get_char(i))
                                invariant
                                    start < i <= n,
                                    forall|j: int| start < j < i ==> is_digit(
                                        file_content@[j],
                                    ),
                                decreases n - i,
                            {
                                i = i + 1;
                            }
                            let ghost k: int = i as int - start as int;
                            proof {
                                assert forall|j: int| 0 <= j < k implies is_digit(
                                    rest0[j],
                                ) by {
                                    assert(rest0[j] == file_content@[i0 + j]);
                                }
                                if i < n {
                                    assert(rest0[k] == file_content@[i as int]);
                                }
                                lemma_digit_run_is(rest0, k);
                            }
                            if i < n && is_letter_char(s.get_char(i)) {
                                return Err(LexError {
                                    line,
                                    col: start_col,
                                    kind: LexErrorKind::InvalidSuffix,
                                });
                            }
                            let lit = s.substring_char(start, i).to_owned();
                            proof {
                                assert(lit@ =~= rest0.take(k));
                            }
                            let tok = create_token(TokenType::Constant, lit, line, start_col);
                            let ghost before: Seq<Token> = tokens@;
                            tokens.push(tok);
                            let ext: usize = i - start - 1;
                            proof {
                                assert(col + ext <= i as int);
                            }
                            col = col + (ext as u32);
                            proof {
                                assert(rest0.skip(k) =~= file_content@.skip(i as int));
                                lemma_token_views_push(before, tok);
                                lemma_prepend_cons(
                                    token_views(before),
                                    tok@,
                                    scan(file_content@.skip(i as int), line as int, col as int),
                                );
                                assert(scan(rest0, line0, col0) == scan_cons(
                                    tok@,
                                    scan(file_content@.skip(i as int), line as int, col as int),
                                ));
                            }
                        } else {
                            return Err(LexError {
                                line,
                                col,
                                kind: LexErrorKind::IllegalCharacter,
                            });
                        }
                    },
                }
            }
        }
    }
    proof {
        assert(file_content@.skip(n as int) =~= Seq::<char>::empty());
        assert(token_views(tokens@) + Seq::<TokenModel>::empty() =~= token_views(tokens@));
    }
    if tokens.len() == 0 {
        proof {
            assert(token_views(tokens@) =~= Seq::<TokenModel>::empty());
        }
        Ok(None)
    } else {
        Ok(Some(tokens))
    }
}

} // verus!
