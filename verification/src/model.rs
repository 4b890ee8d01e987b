//! Mathematical model of the scanner: character classes, maximal runs, and a
//! recursive specification `scan` that says, for every input text, exactly
//! which tokens come out or at which position scanning fails.

use vstd::prelude::*;

verus! {

use crate::lexer::{TokenType, LexErrorKind};

/// Model of one token: kind, lexeme, and 1-based position of its first
/// character.
#[verifier::ext_equal]
pub ghost struct TokenModel {
    pub kind: TokenType,
    pub lexeme: Seq<char>,
    pub line: int,
    pub col: int,
}

/// Model of a fatal lexical error.
#[verifier::ext_equal]
pub ghost struct ErrorModel {
    pub line: int,
    pub col: int,
    pub kind: LexErrorKind,
}

/// What a scan of some text yields: the tokens in source order, or the first
/// fatal error.
#[verifier::ext_equal]
pub ghost enum ScanResult {
    Tokens(Seq<TokenModel>),
    Failed(ErrorModel),
}

/// An ASCII alphabetic character.
pub open spec fn is_letter(c: char) -> bool {
    (97 <= c as u32 && c as u32 <= 122) || (65 <= c as u32 && c as u32 <= 90)
}

/// An ASCII decimal digit.
pub open spec fn is_digit(c: char) -> bool {
    48 <= c as u32 && c as u32 <= 57
}

/// A character that forms a one-character token on its own.
pub open spec fn is_punct(c: char) -> bool {
    ||| c == '['
    ||| c == ']'
    ||| c == '('
    ||| c == ')'
    ||| c == '<'
    ||| c == '>'
    ||| c == '{'
    ||| c == '}'
    ||| c == '+'
    ||| c == '-'
    ||| c == '/'
    ||| c == '*'
    ||| c == '%'
    ||| c == ';'
    ||| c == ','
    ||| c == '='
}

/// The kind of the one-character token formed by `c`; meaningful only when
/// `is_punct(c)` holds.
pub open spec fn punct_token_type(c: char) -> TokenType {
    if c == '[' {
        TokenType::OBracket
    } else if c == ']' {
        TokenType::CBracket
    } else if c == '(' {
        TokenType::OParen
    } else if c == ')' {
        TokenType::CParen
    } else if c == '<' {
        TokenType::OAngle
    } else if c == '>' {
        TokenType::CAngle
    } else if c == '{' {
        TokenType::OBrace
    } else if c == '}' {
        TokenType::CBrace
    } else if c == '+' {
        TokenType::Plus
    } else if c == '-' {
        TokenType::Minus
    } else if c == '/' {
        TokenType::Divide
    } else if c == '*' {
        TokenType::Multiply
    } else if c == '%' {
        TokenType::Modulo
    } else if c == ';' {
        TokenType::SemiColon
    } else if c == ',' {
        TokenType::Comma
    } else {
        TokenType::Equal
    }
}

/// Length of the maximal run of letters at the front of `s`.
pub open spec fn letter_run(s: Seq<char>) -> nat
    decreases s.len(),
{
    if s.len() > 0 && is_letter(s[0]) {
        (letter_run(s.skip(1)) + 1) as nat
    } else {
        0
    }
}

/// Length of the maximal run of digits at the front of `s`.
pub open spec fn digit_run(s: Seq<char>) -> nat
    decreases s.len(),
{
    if s.len() > 0 && is_digit(s[0]) {
        (digit_run(s.skip(1)) + 1) as nat
    } else {
        0
    }
}

pub proof fn lemma_letter_run_le(s: Seq<char>)
    ensures
        letter_run(s) <= s.len(),
    decreases s.len(),
{
    if s.len() > 0 && is_letter(s[0]) {
        lemma_letter_run_le(s.skip(1));
    }
}

pub proof fn lemma_digit_run_le(s: Seq<char>)
    ensures
        digit_run(s) <= s.len(),
    decreases s.len(),
{
    if s.len() > 0 && is_digit(s[0]) {
        lemma_digit_run_le(s.skip(1));
    }
}

/// `letter_run` is exactly the length of the longest prefix of letters: any
/// `m` that bounds a letter prefix and stops at a non-letter (or at the end)
/// equals it.
pub proof fn lemma_letter_run_is(s: Seq<char>, m: int)
    requires
        0 <= m <= s.len(),
        forall|j: int| 0 <= j < m ==> is_letter(s[j]),
        m == s.len() || !is_letter(s[m]),
    ensures
        letter_run(s) == m,
    decreases s.len(),
{
    if m == 0 {
    } else {
        assert(is_letter(s[0]));
        assert(forall|j: int| 0 <= j < m - 1 ==> is_letter(s.skip(1)[j]));
        if m < s.len() {
            assert(s.skip(1)[m - 1] == s[m]);
        }
        lemma_letter_run_is(s.skip(1), m - 1);
    }
}

/// `digit_run` is exactly the length of the longest prefix of digits.
pub proof fn lemma_digit_run_is(s: Seq<char>, m: int)
    requires
        0 <= m <= s.len(),
        forall|j: int| 0 <= j < m ==> is_digit(s[j]),
        m == s.len() || !is_digit(s[m]),
    ensures
        digit_run(s) == m,
    decreases s.len(),
{
    if m == 0 {
    } else {
        assert(is_digit(s[0]));
        assert(forall|j: int| 0 <= j < m - 1 ==> is_digit(s.skip(1)[j]));
        if m < s.len() {
            assert(s.skip(1)[m - 1] == s[m]);
        }
        lemma_digit_run_is(s.skip(1), m - 1);
    }
}

/// `letter_run` names a real maximal run: the characters before it are
/// letters and, where the run stops short of the end, the next one is not.
pub proof fn lemma_letter_run_facts(s: Seq<char>)
    ensures
        letter_run(s) <= s.len(),
        forall|j: int| 0 <= j < letter_run(s) ==> is_letter(#[trigger] s[j]),
        letter_run(s) < s.len() ==> !is_letter(s[letter_run(s) as int]),
    decreases s.len(),
{
    if s.len() > 0 && is_letter(s[0]) {
        lemma_letter_run_facts(s.skip(1));
        assert forall|j: int| 0 <= j < letter_run(s) implies is_letter(#[trigger] s[j]) by {
            if j > 0 {
                assert(s.skip(1)[j - 1] == s[j]);
            }
        }
        if letter_run(s) < s.len() {
            assert(s.skip(1)[letter_run(s) - 1] == s[letter_run(s) as int]);
        }
    }
}

/// `digit_run` names a real maximal run, as `lemma_letter_run_facts` does.
pub proof fn lemma_digit_run_facts(s: Seq<char>)
    ensures
        digit_run(s) <= s.len(),
        forall|j: int| 0 <= j < digit_run(s) ==> is_digit(#[trigger] s[j]),
        digit_run(s) < s.len() ==> !is_digit(s[digit_run(s) as int]),
    decreases s.len(),
{
    if s.len() > 0 && is_digit(s[0]) {
        lemma_digit_run_facts(s.skip(1));
        assert forall|j: int| 0 <= j < digit_run(s) implies is_digit(#[trigger] s[j]) by {
            if j > 0 {
                assert(s.skip(1)[j - 1] == s[j]);
            }
        }
        if digit_run(s) < s.len() {
            assert(s.skip(1)[digit_run(s) - 1] == s[digit_run(s) as int]);
        }
    }
}

/// The line number a scan stands on after consuming all of `s`, having
/// entered on line `line`.
pub open spec fn end_line(s: Seq<char>, line: int) -> int
    decreases s.len(),
{
    if s.len() == 0 {
        line
    } else if s[0] == '\n' {
        end_line(s.skip(1), line + 1)
    } else {
        end_line(s.skip(1), line)
    }
}

/// The column a scan stands at after consuming all of `s`, having entered at
/// column `col`.
pub open spec fn end_col(s: Seq<char>, col: int) -> int
    decreases s.len(),
{
    if s.len() == 0 {
        col
    } else if s[0] == '\n' {
        end_col(s.skip(1), 0)
    } else {
        end_col(s.skip(1), col + 1)
    }
}

/// Consuming `m` characters of `s`, none of them a newline, advances the
/// column by `m` and leaves the line as it is.
pub proof fn lemma_end_shift(s: Seq<char>, m: int, line: int, col: int)
    requires
        0 <= m <= s.len(),
        forall|j: int| 0 <= j < m ==> #[trigger] s[j] != '\n',
    ensures
        end_line(s, line) == end_line(s.skip(m), line),
        end_col(s, col) == end_col(s.skip(m), col + m),
    decreases m,
{
    if m == 0 {
        assert(s.skip(0) =~= s);
    } else {
        assert(s[0] != '\n');
        assert forall|j: int| 0 <= j < m - 1 implies #[trigger] s.skip(1)[j] != '\n' by {
            assert(s.skip(1)[j] == s[j + 1]);
        }
        lemma_end_shift(s.skip(1), m - 1, line, col + 1);
        assert(s.skip(1).skip(m - 1) =~= s.skip(m));
    }
}

/// Puts token `t` in front of the tokens of `r`; a failure stays a failure.
pub open spec fn scan_cons(t: TokenModel, r: ScanResult) -> ScanResult {
    match r {
        ScanResult::Tokens(ts) => ScanResult::Tokens(seq![t] + ts),
        ScanResult::Failed(e) => ScanResult::Failed(e),
    }
}

/// Puts the already-produced tokens `ts` in front of the outcome `r` of
/// scanning the remaining text; a failure stays a failure.
pub open spec fn scan_prepend(ts: Seq<TokenModel>, r: ScanResult) -> ScanResult {
    match r {
        ScanResult::Tokens(rest) => ScanResult::Tokens(ts + rest),
        ScanResult::Failed(e) => ScanResult::Failed(e),
    }
}

/// One left-to-right scan of `s`, entered with the current line number and
/// with `col` the column of the last consumed character (0 at the start of a
/// line). Columns count consumed characters; a token carries the position of
/// its first character.
pub open spec fn scan(s: Seq<char>, line: int, col: int) -> ScanResult
    decreases s.len(),
    via scan_decreases
{
    if s.len() == 0 {
        ScanResult::Tokens(Seq::empty())
    } else {
        let c = s[0];
        if c == '\n' {
            scan(s.skip(1), line + 1, 0)
        } else if c == ' ' || c == '\t' {
            scan(s.skip(1), line, col + 1)
        } else if is_punct(c) {
            scan_cons(
                TokenModel { kind: punct_token_type(c), lexeme: seq![c], line, col: col + 1 },
                scan(s.skip(1), line, col + 1),
            )
        } else if is_letter(c) {
            let k = letter_run(s) as int;
            scan_cons(
                TokenModel { kind: TokenType::Identifier, lexeme: s.take(k), line, col: col + 1 },
                scan(s.skip(k), line, col + k),
            )
        } else if is_digit(c) {
            let k = digit_run(s) as int;
            if k < s.len() && is_letter(s[k]) {
                ScanResult::Failed(
                    ErrorModel { line, col: col + 1, kind: LexErrorKind::InvalidSuffix },
                )
            } else {
                scan_cons(
                    TokenModel { kind: TokenType::Constant, lexeme: s.take(k), line, col: col + 1 },
                    scan(s.skip(k), line, col + k),
                )
            }
        } else {
            ScanResult::Failed(
                ErrorModel { line, col: col + 1, kind: LexErrorKind::IllegalCharacter },
            )
        }
    }
}

#[via_fn]
proof fn scan_decreases(s: Seq<char>, line: int, col: int) {
    lemma_letter_run_le(s);
    lemma_digit_run_le(s);
}

/// Puts the outcome `r1` of scanning some earlier text in front of the
/// outcome `r2` of scanning what follows it: a failure in the earlier text
/// hides everything after it.
pub open spec fn scan_then(r1: ScanResult, r2: ScanResult) -> ScanResult {
    match r1 {
        ScanResult::Tokens(ts) => scan_prepend(ts, r2),
        ScanResult::Failed(e) => ScanResult::Failed(e),
    }
}

/// The cut between `u` and `v` splits no token and no suffix check: no run
/// of letters or digits continues across it, and no digit run in `u` ends
/// against a letter at the start of `v`.
pub open spec fn clean_cut(u: Seq<char>, v: Seq<char>) -> bool {
    u.len() == 0 || v.len() == 0 || {
        &&& !(is_letter(u.last()) && is_letter(v[0]))
        &&& !(is_digit(u.last()) && is_digit(v[0]))
        &&& !(is_digit(u.last()) && is_letter(v[0]))
    }
}

proof fn lemma_then_cons(t: TokenModel, r1: ScanResult, r2: ScanResult)
    ensures
        scan_then(scan_cons(t, r1), r2) == scan_cons(t, scan_then(r1, r2)),
{
    match r1 {
        ScanResult::Tokens(ts) => {
            match r2 {
                ScanResult::Tokens(rest) => {
                    assert((seq![t] + ts) + rest =~= seq![t] + (ts + rest));
                },
                ScanResult::Failed(e) => {},
            }
        },
        ScanResult::Failed(e) => {},
    }
}

/// Scanning decomposes at any clean cut: the scan of `u + v` is the scan of
/// `u` followed — unless `u` already failed — by the scan of `v`, entered at
/// the line and column where `u`'s scan ended.
pub proof fn lemma_scan_split(u: Seq<char>, v: Seq<char>, line: int, col: int)
    requires
        clean_cut(u, v),
    ensures
        scan(u + v, line, col) == scan_then(
            scan(u, line, col),
            scan(v, end_line(u, line), end_col(u, col)),
        ),
    decreases u.len(),
{
    let s = u + v;
    if u.len() == 0 {
        assert(s =~= v);
        match scan(v, line, col) {
            ScanResult::Tokens(ts) => {
                assert(Seq::<TokenModel>::empty() + ts =~= ts);
            },
            ScanResult::Failed(e) => {},
        }
    } else {
        let c = u[0];
        assert(s[0] == c);
        assert(s.skip(1) =~= u.skip(1) + v);
        assert(u.skip(1).len() == 0 || u.skip(1).last() == u.last());
        let lv = end_line(u, line);
        let cv = end_col(u, col);
        if c == '\n' {
            lemma_scan_split(u.skip(1), v, line + 1, 0);
        } else if c == ' ' || c == '\t' {
            lemma_scan_split(u.skip(1), v, line, col + 1);
        } else if is_punct(c) {
            lemma_scan_split(u.skip(1), v, line, col + 1);
            let t = TokenModel { kind: punct_token_type(c), lexeme: seq![c], line, col: col + 1 };
            lemma_then_cons(t, scan(u.skip(1), line, col + 1), scan(v, lv, cv));
        } else if is_letter(c) {
            let k = letter_run(u) as int;
            lemma_letter_run_facts(u);
            assert forall|j: int| 0 <= j < k implies is_letter(#[trigger] s[j]) by {
                assert(s[j] == u[j]);
            }
            if k < u.len() {
                assert(s[k] == u[k]);
            } else if v.len() > 0 {
                assert(u.last() == u[k - 1]);
                assert(s[k] == v[0]);
            }
            lemma_letter_run_is(s, k);
            assert(s.take(k) =~= u.take(k));
            assert(s.skip(k) =~= u.skip(k) + v);
            assert(u.skip(k).len() == 0 || u.skip(k).last() == u.last());
            assert forall|j: int| 0 <= j < k implies #[trigger] u[j] != '\n' by {}
            lemma_end_shift(u, k, line, col);
            lemma_scan_split(u.skip(k), v, line, col + k);
            let t = TokenModel { kind: TokenType::Identifier, lexeme: u.take(k), line, col: col + 1 };
            lemma_then_cons(t, scan(u.skip(k), line, col + k), scan(v, lv, cv));
        } else if is_digit(c) {
            let k = digit_run(u) as int;
            lemma_digit_run_facts(u);
            assert forall|j: int| 0 <= j < k implies is_digit(#[trigger] s[j]) by {
                assert(s[j] == u[j]);
            }
            if k < u.len() {
                assert(s[k] == u[k]);
            } else if v.len() > 0 {
                assert(u.last() == u[k - 1]);
                assert(s[k] == v[0]);
            }
            lemma_digit_run_is(s, k);
            if k < s.len() && is_letter(s[k]) {
                assert(k < u.len());
            } else {
                assert(s.take(k) =~= u.take(k));
                assert(s.skip(k) =~= u.skip(k) + v);
                assert(u.skip(k).len() == 0 || u.skip(k).last() == u.last());
                assert forall|j: int| 0 <= j < k implies #[trigger] u[j] != '\n' by {}
                lemma_end_shift(u, k, line, col);
                lemma_scan_split(u.skip(k), v, line, col + k);
                let t = TokenModel { kind: TokenType::Constant, lexeme: u.take(k), line, col: col + 1 };
                lemma_then_cons(t, scan(u.skip(k), line, col + k), scan(v, lv, cv));
            }
        } else {
        }
    }
}

} // verus!
