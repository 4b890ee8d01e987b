//! Laws of the scanner, proved of the specification `scan` that `tokenize`'s
//! contract is stated over: what blank input, single punctuation characters,
//! and maximal runs of letters or digits yield, at any position in a scan.

use vstd::prelude::*;

verus! {

use crate::lexer::{TokenType, LexErrorKind};
use crate::model::{TokenModel, ErrorModel, ScanResult, scan, scan_cons, scan_then, lemma_scan_split};
use crate::model::{end_line, end_col};
use crate::model::{letter_run, digit_run};
use crate::model::{is_letter, is_digit, is_punct, punct_token_type};
use crate::model::{lemma_letter_run_is, lemma_digit_run_is, lemma_letter_run_le, lemma_digit_run_le};

/// A character that never yields a token: space, tab or newline.
pub open spec fn is_blank(c: char) -> bool {
    c == ' ' || c == '\t' || c == '\n'
}

/// Law: text made of blanks alone — the empty text included — scans to no
/// tokens at all, from any position; it neither fails nor yields a token.
pub proof fn lemma_blank_input_scans_empty(s: Seq<char>, line: int, col: int)
    requires
        forall|j: int| 0 <= j < s.len() ==> is_blank(#[trigger] s[j]),
    ensures
        scan(s, line, col) == ScanResult::Tokens(Seq::<TokenModel>::empty()),
    decreases s.len(),
{
    if s.len() > 0 {
        assert(is_blank(s[0]));
        assert forall|j: int| 0 <= j < s.skip(1).len() implies is_blank(
            #[trigger] s.skip(1)[j],
        ) by {
            assert(s.skip(1)[j] == s[j + 1]);
        }
        if s[0] == '\n' {
            lemma_blank_input_scans_empty(s.skip(1), line + 1, 0);
        } else {
            lemma_blank_input_scans_empty(s.skip(1), line, col + 1);
        }
    }
}

/// Law: a supported punctuation or operator character on its own scans to
/// exactly one token, whose lexeme is that character and whose kind is the
/// one the character maps to.
pub proof fn lemma_single_punct(c: char, line: int, col: int)
    requires
        is_punct(c),
    ensures
        scan(seq![c], line, col) == ScanResult::Tokens(
            seq![(TokenModel { kind: punct_token_type(c), lexeme: seq![c], line: line, col: col + 1 })],
        ),
{
    let s = seq![c];
    let t = TokenModel { kind: punct_token_type(c), lexeme: seq![c], line: line, col: col + 1 };
    assert(s.skip(1) =~= Seq::<char>::empty());
    assert(scan(s.skip(1), line, col + 1) == ScanResult::Tokens(Seq::<TokenModel>::empty()));
    assert(scan(s, line, col) == scan_cons(t, scan(s.skip(1), line, col + 1)));
    assert(seq![t] + Seq::<TokenModel>::empty() =~= seq![t]);
}

/// Law: a maximal run of letters scans to a single identifier token carrying
/// the whole run as its lexeme, positioned at the run's first character, and
/// the scan continues after the run with the column advanced by its length.
/// Maximality is the premise that what follows does not start with a letter —
/// in particular the run absorbs no trailing digit.
pub proof fn lemma_identifier_run(a: Seq<char>, rest: Seq<char>, line: int, col: int)
    requires
        a.len() > 0,
        forall|j: int| 0 <= j < a.len() ==> is_letter(#[trigger] a[j]),
        rest.len() == 0 || !is_letter(rest[0]),
    ensures
        scan(a + rest, line, col) == scan_cons(
            (TokenModel { kind: TokenType::Identifier, lexeme: a, line: line, col: col + 1 }),
            scan(rest, line, col + a.len()),
        ),
{
    let s = a + rest;
    assert(s[0] == a[0]);
    assert forall|j: int| 0 <= j < a.len() implies is_letter(#[trigger] s[j]) by {
        assert(s[j] == a[j]);
    }
    if a.len() < s.len() {
        assert(s[a.len() as int] == rest[0]);
    }
    lemma_letter_run_is(s, a.len() as int);
    assert(s.take(a.len() as int) =~= a);
    assert(s.skip(a.len() as int) =~= rest);
}

/// Law: text that is one run of letters and nothing else scans to exactly
/// one identifier token whose lexeme is the full run.
pub proof fn lemma_identifier_whole(a: Seq<char>, line: int, col: int)
    requires
        a.len() > 0,
        forall|j: int| 0 <= j < a.len() ==> is_letter(#[trigger] a[j]),
    ensures
        scan(a, line, col) == ScanResult::Tokens(
            seq![(TokenModel { kind: TokenType::Identifier, lexeme: a, line: line, col: col + 1 })],
        ),
{
    let t = TokenModel { kind: TokenType::Identifier, lexeme: a, line: line, col: col + 1 };
    lemma_identifier_run(a, Seq::<char>::empty(), line, col);
    assert(a + Seq::<char>::empty() =~= a);
    assert(seq![t] + Seq::<TokenModel>::empty() =~= seq![t]);
}

/// Law: a maximal run of digits immediately followed by a letter fails the
/// scan with an invalid-suffix error positioned at the run's first digit.
pub proof fn lemma_invalid_suffix(d: Seq<char>, rest: Seq<char>, line: int, col: int)
    requires
        d.len() > 0,
        forall|j: int| 0 <= j < d.len() ==> is_digit(#[trigger] d[j]),
        rest.len() > 0,
        is_letter(rest[0]),
    ensures
        scan(d + rest, line, col) == ScanResult::Failed(
            (ErrorModel { line: line, col: col + 1, kind: LexErrorKind::InvalidSuffix }),
        ),
{
    let s = d + rest;
    assert(s[0] == d[0]);
    assert forall|j: int| 0 <= j < d.len() implies is_digit(#[trigger] s[j]) by {
        assert(s[j] == d[j]);
    }
    assert(s[d.len() as int] == rest[0]);
    lemma_digit_run_is(s, d.len() as int);
}

/// Law: a maximal run of digits not followed by a letter scans to a single
/// constant token carrying the whole run as its lexeme, positioned at the
/// run's first digit, and the scan continues after the run with the column
/// advanced by its length.
pub proof fn lemma_constant_run(d: Seq<char>, rest: Seq<char>, line: int, col: int)
    requires
        d.len() > 0,
        forall|j: int| 0 <= j < d.len() ==> is_digit(#[trigger] d[j]),
        rest.len() == 0 || (!is_digit(rest[0]) && !is_letter(rest[0])),
    ensures
        scan(d + rest, line, col) == scan_cons(
            (TokenModel { kind: TokenType::Constant, lexeme: d, line: line, col: col + 1 }),
            scan(rest, line, col + d.len()),
        ),
{
    let s = d + rest;
    assert(s[0] == d[0]);
    assert forall|j: int| 0 <= j < d.len() implies is_digit(#[trigger] s[j]) by {
        assert(s[j] == d[j]);
    }
    if d.len() < s.len() {
        assert(s[d.len() as int] == rest[0]);
    }
    lemma_digit_run_is(s, d.len() as int);
    assert(s.take(d.len() as int) =~= d);
    assert(s.skip(d.len() as int) =~= rest);
}

/// Law: a maximal run of letters anywhere in the text — not preceded by a
/// letter or a digit, not followed by a letter — yields exactly one
/// identifier token carrying the whole run, at the line and column where the
/// scan of the preceding text ends; unless that preceding text already
/// failed, in which case its failure stands.
pub proof fn lemma_identifier_run_anywhere(
    p: Seq<char>,
    a: Seq<char>,
    rest: Seq<char>,
    line: int,
    col: int,
)
    requires
        a.len() > 0,
        forall|j: int| 0 <= j < a.len() ==> is_letter(#[trigger] a[j]),
        p.len() == 0 || (!is_letter(p.last()) && !is_digit(p.last())),
        rest.len() == 0 || !is_letter(rest[0]),
    ensures
        scan(p + a + rest, line, col) == scan_then(
            scan(p, line, col),
            scan_cons(
                (TokenModel {
                    kind: TokenType::Identifier,
                    lexeme: a,
                    line: end_line(p, line),
                    col: end_col(p, col) + 1,
                }),
                scan(rest, end_line(p, line), end_col(p, col) + a.len()),
            ),
        ),
{
    assert((a + rest)[0] == a[0]);
    lemma_scan_split(p, a + rest, line, col);
    lemma_identifier_run(a, rest, end_line(p, line), end_col(p, col));
    assert(p + a + rest =~= p + (a + rest));
}

/// Law: a maximal run of digits anywhere in the text, immediately followed
/// by a letter, fails the scan with an invalid-suffix error at the line and
/// column of the run's first digit — where the scan of the preceding text
/// ends; unless that preceding text already failed, in which case its
/// failure stands.
pub proof fn lemma_invalid_suffix_anywhere(
    p: Seq<char>,
    d: Seq<char>,
    rest: Seq<char>,
    line: int,
    col: int,
)
    requires
        d.len() > 0,
        forall|j: int| 0 <= j < d.len() ==> is_digit(#[trigger] d[j]),
        p.len() == 0 || (!is_letter(p.last()) && !is_digit(p.last())),
        rest.len() > 0,
        is_letter(rest[0]),
    ensures
        scan(p + d + rest, line, col) == scan_then(
            scan(p, line, col),
            ScanResult::Failed(
                (ErrorModel {
                    line: end_line(p, line),
                    col: end_col(p, col) + 1,
                    kind: LexErrorKind::InvalidSuffix,
                }),
            ),
        ),
{
    assert((d + rest)[0] == d[0]);
    lemma_scan_split(p, d + rest, line, col);
    lemma_invalid_suffix(d, rest, end_line(p, line), end_col(p, col));
    assert(p + d + rest =~= p + (d + rest));
}

/// Law: a maximal run of digits anywhere in the text — not preceded by a
/// letter or a digit, not followed by a letter or a digit — yields exactly
/// one constant token carrying the whole run, at the line and column where
/// the scan of the preceding text ends; unless that preceding text already
/// failed, in which case its failure stands.
pub proof fn lemma_constant_run_anywhere(
    p: Seq<char>,
    d: Seq<char>,
    rest: Seq<char>,
    line: int,
    col: int,
)
    requires
        d.len() > 0,
        forall|j: int| 0 <= j < d.len() ==> is_digit(#[trigger] d[j]),
        p.len() == 0 || (!is_letter(p.last()) && !is_digit(p.last())),
        rest.len() == 0 || (!is_digit(rest[0]) && !is_letter(rest[0])),
    ensures
        scan(p + d + rest, line, col) == scan_then(
            scan(p, line, col),
            scan_cons(
                (TokenModel {
                    kind: TokenType::Constant,
                    lexeme: d,
                    line: end_line(p, line),
                    col: end_col(p, col) + 1,
                }),
                scan(rest, end_line(p, line), end_col(p, col) + d.len()),
            ),
        ),
{
    assert((d + rest)[0] == d[0]);
    lemma_scan_split(p, d + rest, line, col);
    lemma_constant_run(d, rest, end_line(p, line), end_col(p, col));
    assert(p + d + rest =~= p + (d + rest));
}

/// Token `a` stands strictly before token `b` in the source: on an earlier
/// line, or further left on the same line.
pub open spec fn pos_lt(a: TokenModel, b: TokenModel) -> bool {
    a.line < b.line || (a.line == b.line && a.col < b.col)
}

proof fn lemma_cons_pairwise(t: TokenModel, rest: Seq<TokenModel>)
    requires
        forall|j: int| 0 <= j < rest.len() ==> pos_lt(t, #[trigger] rest[j]),
        forall|j1: int, j2: int| 0 <= j1 < j2 < rest.len() ==> pos_lt(rest[j1], rest[j2]),
    ensures
        forall|j1: int, j2: int|
            0 <= j1 < j2 < (seq![t] + rest).len() ==> pos_lt(
                (seq![t] + rest)[j1],
                (seq![t] + rest)[j2],
            ),
{
    assert forall|j1: int, j2: int| 0 <= j1 < j2 < (seq![t] + rest).len() implies pos_lt(
        (seq![t] + rest)[j1],
        (seq![t] + rest)[j2],
    ) by {
        assert((seq![t] + rest)[j2] == rest[j2 - 1]);
        if j1 > 0 {
            assert((seq![t] + rest)[j1] == rest[j1 - 1]);
        }
    }
}

/// Law: a successful scan keeps the tokens in source order and every token
/// well formed — each lexeme is non-empty, no token stands before the
/// position the scan was entered at, and positions strictly increase along
/// the sequence (a later token stands on a later line, or further right on
/// the same line).
pub proof fn lemma_positions_increase(s: Seq<char>, line: int, col: int)
    ensures
        match scan(s, line, col) {
            ScanResult::Tokens(ts) => {
                &&& forall|j: int| 0 <= j < ts.len() ==> (#[trigger] ts[j]).lexeme.len() > 0
                &&& forall|j: int| 0 <= j < ts.len() ==> (#[trigger] ts[j]).line >= line
                &&& forall|j: int|
                    0 <= j < ts.len() ==> ((#[trigger] ts[j]).line == line ==> ts[j].col > col)
                &&& forall|j1: int, j2: int| 0 <= j1 < j2 < ts.len() ==> pos_lt(ts[j1], ts[j2])
            },
            ScanResult::Failed(e) => true,
        },
    decreases s.len(),
{
    if s.len() > 0 {
        let c = s[0];
        if c == '\n' {
            lemma_positions_increase(s.skip(1), line + 1, 0);
        } else if c == ' ' || c == '\t' {
            lemma_positions_increase(s.skip(1), line, col + 1);
        } else if is_punct(c) {
            let t = TokenModel { kind: punct_token_type(c), lexeme: seq![c], line: line, col: col + 1 };
            lemma_positions_increase(s.skip(1), line, col + 1);
            if let ScanResult::Tokens(rest) = scan(s.skip(1), line, col + 1) {
                lemma_cons_pairwise(t, rest);
            }
        } else if is_letter(c) {
            let k = letter_run(s) as int;
            let t = TokenModel { kind: TokenType::Identifier, lexeme: s.take(k), line: line, col: col + 1 };
            lemma_letter_run_le(s);
            lemma_positions_increase(s.skip(k), line, col + k);
            if let ScanResult::Tokens(rest) = scan(s.skip(k), line, col + k) {
                lemma_cons_pairwise(t, rest);
            }
        } else if is_digit(c) {
            let k = digit_run(s) as int;
            if !(k < s.len() && is_letter(s[k])) {
                let t = TokenModel { kind: TokenType::Constant, lexeme: s.take(k), line: line, col: col + 1 };
                lemma_digit_run_le(s);
                lemma_positions_increase(s.skip(k), line, col + k);
                if let ScanResult::Tokens(rest) = scan(s.skip(k), line, col + k) {
                    lemma_cons_pairwise(t, rest);
                }
            }
        }
    }
}

/// Law: text that is one run of digits and nothing else scans to exactly one
/// constant token whose lexeme is the full run.
pub proof fn lemma_constant_whole(d: Seq<char>, line: int, col: int)
    requires
        d.len() > 0,
        forall|j: int| 0 <= j < d.len() ==> is_digit(#[trigger] d[j]),
    ensures
        scan(d, line, col) == ScanResult::Tokens(
            seq![(TokenModel { kind: TokenType::Constant, lexeme: d, line: line, col: col + 1 })],
        ),
{
    let t = TokenModel { kind: TokenType::Constant, lexeme: d, line: line, col: col + 1 };
    lemma_constant_run(d, Seq::<char>::empty(), line, col);
    assert(d + Seq::<char>::empty() =~= d);
    assert(seq![t] + Seq::<TokenModel>::empty() =~= seq![t]);
}

} // verus!
