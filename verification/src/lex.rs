//! The lexer: one token at a time over a byte buffer.
//!
//! Tokenization is specified by the pure function [`scan_token`] over the
//! byte sequence; the executable [`Lex::token`] is proved to return exactly
//! the token that [`scan_token`] assigns to the cursor position, and to move
//! the cursor to that token's end.  Invalid input never stops the lexer: it
//! yields an `Error` token whose span covers the offending bytes.

use vstd::prelude::*;
use vstd::string::StringSliceAdditionalSpecFns;

use crate::json::Number;

verus! {

/// A kind of token, including its payload.
#[derive(Debug, PartialEq)]
pub enum TokenKind {
    LeftBrace,
    RightBrace,
    LeftBracket,
    RightBracket,
    Colon,
    Comma,
    String(String),
    Number(Number),
    Bool(bool),
    Null,
    Error,
    End,
}

/// A single token: its byte span in the buffer, and its kind.
#[derive(Debug, PartialEq)]
pub struct Token {
    pub start: usize,
    pub end: usize,
    pub kind: TokenKind,
}

/// The mathematical shape of a [`TokenKind`].
pub enum TokenModel {
    LeftBrace,
    RightBrace,
    LeftBracket,
    RightBracket,
    Colon,
    Comma,
    Str(Seq<char>),
    Num(Number),
    Bool(bool),
    Null,
    Error,
    End,
}

/// The model of a [`Token`]: what one scan of the buffer produces.
pub struct Scan {
    pub kind: TokenModel,
    pub start: int,
    pub end: int,
}

impl View for TokenKind {
    type V = TokenModel;

    open spec fn view(&self) -> TokenModel {
        match self {
            TokenKind::LeftBrace => TokenModel::LeftBrace,
            TokenKind::RightBrace => TokenModel::RightBrace,
            TokenKind::LeftBracket => TokenModel::LeftBracket,
            TokenKind::RightBracket => TokenModel::RightBracket,
            TokenKind::Colon => TokenModel::Colon,
            TokenKind::Comma => TokenModel::Comma,
            TokenKind::String(t) => TokenModel::Str(t@),
            TokenKind::Number(n) => TokenModel::Num(*n),
            TokenKind::Bool(b) => TokenModel::Bool(*b),
            TokenKind::Null => TokenModel::Null,
            TokenKind::Error => TokenModel::Error,
            TokenKind::End => TokenModel::End,
        }
    }
}

impl View for Token {
    type V = Scan;

    open spec fn view(&self) -> Scan {
        Scan { kind: self.kind@, start: self.start as int, end: self.end as int }
    }
}

// ---------------------------------------------------------------------------
// Specification of tokenization
// ---------------------------------------------------------------------------

/// JSON whitespace: space, tab, carriage return, line feed.
pub open spec fn is_ws(b: u8) -> bool {
    b == 0x20 || b == 0x09 || b == 0x0D || b == 0x0A
}

/// The first position at or after `pos` that does not hold whitespace.
pub open spec fn skip_ws(s: Seq<u8>, pos: int) -> int
    decreases s.len() - pos,
    when pos <= s.len()
{
    if pos < s.len() && is_ws(s[pos]) {
        skip_ws(s, pos + 1)
    } else {
        pos
    }
}

pub open spec fn is_digit(b: u8) -> bool {
    0x30 <= b && b <= 0x39
}

/// The end of the run of decimal digits starting at `pos`.
pub open spec fn digit_run_end(s: Seq<u8>, pos: int) -> int
    decreases s.len() - pos,
    when pos <= s.len()
{
    if pos < s.len() && is_digit(s[pos]) {
        digit_run_end(s, pos + 1)
    } else {
        pos
    }
}

/// One digit folded into the significand, wrapping modulo 2^64.
pub open spec fn sig_step(acc: u64, b: u8) -> u64 {
    ((10 * (acc as int) + (b - 0x30)) % 0x1_0000_0000_0000_0000) as u64
}

/// The significand accumulated over the digits in `[pos, end)`.
pub open spec fn acc_sig(s: Seq<u8>, pos: int, end: int, acc: u64) -> u64
    decreases end - pos,
{
    if pos < end {
        acc_sig(s, pos + 1, end, sig_step(acc, s[pos]))
    } else {
        acc
    }
}

/// Exponents stop growing here: far past the magnitude at which any finite
/// binary float could still distinguish values.
pub const EXP_CAP: i64 = 1000000;

/// One digit folded into an explicit exponent, saturating at [`EXP_CAP`].
pub open spec fn exp_step(acc: int, b: u8) -> int {
    if acc >= EXP_CAP {
        acc
    } else {
        10 * acc + (b - 0x30)
    }
}

/// The explicit exponent accumulated over the digits in `[pos, end)`.
pub open spec fn acc_exp(s: Seq<u8>, pos: int, end: int, acc: int) -> int
    decreases end - pos,
{
    if pos < end {
        acc_exp(s, pos + 1, end, exp_step(acc, s[pos]))
    } else {
        acc
    }
}

/// The exponent contributed by `count` fractional digits, saturating.
pub open spec fn frac_exp(count: int) -> int {
    if count > EXP_CAP {
        -(EXP_CAP as int)
    } else {
        -count
    }
}

pub open spec fn hex_val(b: u8) -> int {
    if 0x30 <= b && b <= 0x39 {
        b - 0x30
    } else if 0x41 <= b && b <= 0x46 {
        b - 0x41 + 10
    } else if 0x61 <= b && b <= 0x66 {
        b - 0x61 + 10
    } else {
        -1
    }
}

pub open spec fn is_hex(b: u8) -> bool {
    hex_val(b) >= 0
}

/// Up to `k` more hex digits folded into a code unit; `None` if a digit is
/// missing, with the position where scanning stopped.
pub open spec fn scan_code_unit(s: Seq<u8>, pos: int, k: nat, acc: int) -> (Option<int>, int)
    decreases k,
{
    if k == 0 {
        (Some(acc), pos)
    } else if 0 <= pos < s.len() && is_hex(s[pos]) {
        scan_code_unit(s, pos + 1, (k - 1) as nat, 16 * acc + hex_val(s[pos]))
    } else {
        (None, pos)
    }
}

/// The four-hex-digit code unit at `pos`, if all four digits are there.
pub open spec fn code_unit_at(s: Seq<u8>, pos: int) -> (Option<int>, int) {
    scan_code_unit(s, pos, 4, 0)
}

pub open spec fn is_high_surrogate(u: int) -> bool {
    0xD800 <= u && u <= 0xDBFF
}

pub open spec fn is_low_surrogate(u: int) -> bool {
    0xDC00 <= u && u <= 0xDFFF
}

/// A Unicode scalar value: a code point that is not a surrogate.
pub open spec fn is_scalar_value(u: int) -> bool {
    (0 <= u && u < 0xD800) || (0xE000 <= u && u <= 0x10FFFF)
}

/// The character with code point `u`, or U+FFFD where `u` is no scalar value.
pub open spec fn scalar_or_replacement(u: int) -> char {
    if is_scalar_value(u) {
        u as char
    } else {
        '\u{FFFD}'
    }
}

/// The character decoded by a `\u` escape starting just after the `\u`, and
/// the position after it.  A high surrogate tries to pair with a following
/// `\u` escape; a failed pairing, an unpaired surrogate, or an incomplete
/// run of hex digits all decode to U+FFFD.
pub open spec fn scan_unicode_escape(s: Seq<u8>, pos: int) -> (char, int) {
    let (u1, p1) = code_unit_at(s, pos);
    match u1 {
        Some(u) => if is_high_surrogate(u) {
            if p1 + 1 < s.len() && s[p1] == 0x5C && s[p1 + 1] == 0x75 {
                let (u2, p2) = code_unit_at(s, p1 + 2);
                match u2 {
                    Some(l) => if is_low_surrogate(l) {
                        ((0x10000 + (u - 0xD800) * 0x400 + (l - 0xDC00)) as char, p2)
                    } else {
                        ('\u{FFFD}', p2)
                    },
                    None => ('\u{FFFD}', p2),
                }
            } else {
                ('\u{FFFD}', p1)
            }
        } else {
            (scalar_or_replacement(u), p1)
        },
        None => ('\u{FFFD}', p1),
    }
}

pub open spec fn is_simple_escape(b: u8) -> bool {
    b == 0x22 || b == 0x5C || b == 0x2F || b == 0x62 || b == 0x66 || b == 0x6E || b == 0x72 || b
        == 0x74
}

pub open spec fn simple_escape_char(b: u8) -> char {
    if b == 0x22 {
        '"'
    } else if b == 0x5C {
        '\\'
    } else if b == 0x2F {
        '/'
    } else if b == 0x62 {
        '\u{8}'
    } else if b == 0x66 {
        '\u{C}'
    } else if b == 0x6E {
        '\n'
    } else if b == 0x72 {
        '\r'
    } else {
        '\t'
    }
}

/// A UTF-8 continuation byte.
pub open spec fn is_cont(b: u8) -> bool {
    0x80 <= b && b <= 0xBF
}

pub open spec fn cp2(b1: u8, b2: u8) -> int {
    (b1 - 0xC0) * 0x40 + (b2 - 0x80)
}

pub open spec fn cp3(b1: u8, b2: u8, b3: u8) -> int {
    (b1 - 0xE0) * 0x1000 + (b2 - 0x80) * 0x40 + (b3 - 0x80)
}

pub open spec fn cp4(b1: u8, b2: u8, b3: u8, b4: u8) -> int {
    (b1 - 0xF0) * 0x40000 + (b2 - 0x80) * 0x1000 + (b3 - 0x80) * 0x40 + (b4 - 0x80)
}

/// The rest of a string token, after the opening quote: the decoded text so
/// far is `acc`.  Yields the decoded text and the position after the closing
/// quote, or `None` at the end of the buffer for an unterminated string.
///
/// A backslash before a recognized escape decodes that escape; any other
/// byte below 0x80 — including a backslash that begins no recognized escape —
/// is copied through as itself.  Multi-byte sequences are decoded by their
/// leading byte's range; the buffer is valid UTF-8 by the caller's contract,
/// so the trailing defensive arms (a malformed sequence becomes U+FFFD) are
/// never reached over the encoding of a `str`.
pub open spec fn scan_string(s: Seq<u8>, pos: int, acc: Seq<char>) -> (Option<Seq<char>>, int)
    decreases s.len() - pos,
    when 0 <= pos <= s.len()
{
    if pos >= s.len() {
        (None, pos)
    } else {
        let b = s[pos];
        if b == 0x22 {
            (Some(acc), pos + 1)
        } else if b == 0x5C && pos + 1 < s.len() && is_simple_escape(s[pos + 1]) {
            scan_string(s, pos + 2, acc.push(simple_escape_char(s[pos + 1])))
        } else if b == 0x5C && pos + 1 < s.len() && s[pos + 1] == 0x75 {
            let (c, p) = scan_unicode_escape(s, pos + 2);
            proof {
                lemma_scan_unicode_escape_range(s, pos + 2);
            }
            scan_string(s, p, acc.push(c))
        } else if b < 0x80 {
            scan_string(s, pos + 1, acc.push(b as char))
        } else if 0xC0 <= b && b <= 0xDF && pos + 1 < s.len() && is_cont(s[pos + 1]) {
            scan_string(s, pos + 2, acc.push(scalar_or_replacement(cp2(b, s[pos + 1]))))
        } else if 0xE0 <= b && b <= 0xEF && pos + 2 < s.len() && is_cont(s[pos + 1]) && is_cont(
            s[pos + 2],
        ) {
            scan_string(s, pos + 3, acc.push(scalar_or_replacement(cp3(b, s[pos + 1], s[pos + 2]))))
        } else if 0xF0 <= b && pos + 3 < s.len() && is_cont(s[pos + 1]) && is_cont(s[pos + 2])
            && is_cont(s[pos + 3]) {
            scan_string(
                s,
                pos + 4,
                acc.push(scalar_or_replacement(cp4(b, s[pos + 1], s[pos + 2], s[pos + 3]))),
            )
        } else {
            scan_string(s, pos + 1, acc.push('\u{FFFD}'))
        }
    }
}

/// A number token starting at `pos`: an optional minus sign, then an integer
/// part.  Yields `None` and the position where scanning stopped if a
/// required digit is missing.
pub open spec fn scan_number(s: Seq<u8>, pos: int) -> (Option<Number>, int) {
    let (neg, p0) = if pos < s.len() && s[pos] == 0x2D {
        (true, pos + 1)
    } else {
        (false, pos)
    };
    if p0 < s.len() && s[p0] == 0x30 {
        scan_number_tail(s, neg, 0u64, p0 + 1)
    } else if p0 < s.len() && 0x31 <= s[p0] && s[p0] <= 0x39 {
        let e = digit_run_end(s, p0);
        scan_number_tail(s, neg, acc_sig(s, p0, e, 0u64), e)
    } else {
        (None, p0)
    }
}

/// The fractional part of a number, if any: a point followed by digits that
/// extend the significand and lower the exponent by one each.
pub open spec fn scan_number_tail(s: Seq<u8>, neg: bool, sig: u64, pos: int) -> (
    Option<Number>,
    int,
) {
    if pos < s.len() && s[pos] == 0x2E {
        let fe = digit_run_end(s, pos + 1);
        if fe == pos + 1 {
            (None, fe)
        } else {
            scan_number_exp(s, neg, acc_sig(s, pos + 1, fe, sig), frac_exp(fe - (pos + 1)), fe)
        }
    } else {
        scan_number_exp(s, neg, sig, 0, pos)
    }
}

/// The exponent part of a number, if any: `e` or `E`, an optional sign, and
/// digits that move the exponent.
pub open spec fn scan_number_exp(s: Seq<u8>, neg: bool, sig: u64, fexp: int, pos: int) -> (
    Option<Number>,
    int,
) {
    if pos < s.len() && (s[pos] == 0x65 || s[pos] == 0x45) {
        let (eneg, p1) = if pos + 1 < s.len() && s[pos + 1] == 0x2B {
            (false, pos + 2)
        } else if pos + 1 < s.len() && s[pos + 1] == 0x2D {
            (true, pos + 2)
        } else {
            (false, pos + 1)
        };
        let ee = digit_run_end(s, p1);
        if ee == p1 {
            (None, p1)
        } else {
            let ev = acc_exp(s, p1, ee, 0);
            let total = if eneg {
                fexp - ev
            } else {
                fexp + ev
            };
            (Some(Number { neg, sig, exp: total as i64 }), ee)
        }
    } else {
        (Some(Number { neg, sig, exp: fexp as i64 }), pos)
    }
}

pub open spec fn kw_true_at(s: Seq<u8>, pos: int) -> bool {
    pos + 4 <= s.len() && s[pos] == 0x74 && s[pos + 1] == 0x72 && s[pos + 2] == 0x75 && s[pos + 3]
        == 0x65
}

pub open spec fn kw_false_at(s: Seq<u8>, pos: int) -> bool {
    pos + 5 <= s.len() && s[pos] == 0x66 && s[pos + 1] == 0x61 && s[pos + 2] == 0x6C && s[pos + 3]
        == 0x73 && s[pos + 4] == 0x65
}

pub open spec fn kw_null_at(s: Seq<u8>, pos: int) -> bool {
    pos + 4 <= s.len() && s[pos] == 0x6E && s[pos + 1] == 0x75 && s[pos + 2] == 0x6C && s[pos + 3]
        == 0x6C
}

/// The token at cursor position `pos`: leading whitespace is skipped, then
/// the first byte decides the kind.  At the end of the buffer the token is
/// `End` with an empty span; a byte that can begin no token is a one-byte
/// `Error`; a string or number that goes wrong yields an `Error` spanning
/// the bytes consumed before scanning stopped.
pub open spec fn scan_token(s: Seq<u8>, pos: int) -> Scan {
    let start = skip_ws(s, pos);
    if start >= s.len() {
        Scan { kind: TokenModel::End, start, end: start }
    } else {
        let b = s[start];
        if b == 0x7B {
            Scan { kind: TokenModel::LeftBrace, start, end: start + 1 }
        } else if b == 0x7D {
            Scan { kind: TokenModel::RightBrace, start, end: start + 1 }
        } else if b == 0x5B {
            Scan { kind: TokenModel::LeftBracket, start, end: start + 1 }
        } else if b == 0x5D {
            Scan { kind: TokenModel::RightBracket, start, end: start + 1 }
        } else if b == 0x3A {
            Scan { kind: TokenModel::Colon, start, end: start + 1 }
        } else if b == 0x2C {
            Scan { kind: TokenModel::Comma, start, end: start + 1 }
        } else if b == 0x22 {
            let (t, e) = scan_string(s, start + 1, Seq::empty());
            match t {
                Some(cs) => Scan { kind: TokenModel::Str(cs), start, end: e },
                None => Scan { kind: TokenModel::Error, start, end: e },
            }
        } else if b == 0x2D || is_digit(b) {
            let (n, e) = scan_number(s, start);
            match n {
                Some(num) => Scan { kind: TokenModel::Num(num), start, end: e },
                None => Scan { kind: TokenModel::Error, start, end: e },
            }
        } else if kw_true_at(s, start) {
            Scan { kind: TokenModel::Bool(true), start, end: start + 4 }
        } else if kw_false_at(s, start) {
            Scan { kind: TokenModel::Bool(false), start, end: start + 5 }
        } else if kw_null_at(s, start) {
            Scan { kind: TokenModel::Null, start, end: start + 4 }
        } else {
            Scan { kind: TokenModel::Error, start, end: start + 1 }
        }
    }
}

// ---------------------------------------------------------------------------
// Position lemmas
// ---------------------------------------------------------------------------

pub proof fn lemma_skip_ws_range(s: Seq<u8>, pos: int)
    requires
        0 <= pos <= s.len(),
    ensures
        pos <= skip_ws(s, pos) <= s.len(),
    decreases s.len() - pos,
{
    if pos < s.len() && is_ws(s[pos]) {
        lemma_skip_ws_range(s, pos + 1);
    }
}

pub proof fn lemma_digit_run_range(s: Seq<u8>, pos: int)
    requires
        0 <= pos <= s.len(),
    ensures
        pos <= digit_run_end(s, pos) <= s.len(),
    decreases s.len() - pos,
{
    if pos < s.len() && is_digit(s[pos]) {
        lemma_digit_run_range(s, pos + 1);
    }
}

pub proof fn lemma_scan_code_unit_range(s: Seq<u8>, pos: int, k: nat, acc: int)
    requires
        0 <= pos <= s.len(),
    ensures
        pos <= scan_code_unit(s, pos, k, acc).1 <= s.len(),
    decreases k,
{
    if k > 0 && pos < s.len() && is_hex(s[pos]) {
        lemma_scan_code_unit_range(s, pos + 1, (k - 1) as nat, 16 * acc + hex_val(s[pos]));
    }
}

pub proof fn lemma_scan_unicode_escape_range(s: Seq<u8>, pos: int)
    requires
        0 <= pos <= s.len(),
    ensures
        pos <= scan_unicode_escape(s, pos).1 <= s.len(),
{
    lemma_scan_code_unit_range(s, pos, 4, 0);
    let (u1, p1) = code_unit_at(s, pos);
    if u1 is Some && is_high_surrogate(u1->0) && p1 + 1 < s.len() && s[p1] == 0x5C && s[p1 + 1]
        == 0x75 {
        lemma_scan_code_unit_range(s, p1 + 2, 4, 0);
    }
}

pub proof fn lemma_scan_string_range(s: Seq<u8>, pos: int, acc: Seq<char>)
    requires
        0 <= pos <= s.len(),
    ensures
        pos <= scan_string(s, pos, acc).1 <= s.len(),
        scan_string(s, pos, acc).0 is Some ==> scan_string(s, pos, acc).1 > pos,
        scan_string(s, pos, acc).0 is None ==> scan_string(s, pos, acc).1 == s.len(),
    decreases s.len() - pos,
{
    if pos < s.len() {
        let b = s[pos];
        if b == 0x22 {
        } else if b == 0x5C && pos + 1 < s.len() && is_simple_escape(s[pos + 1]) {
            lemma_scan_string_range(s, pos + 2, acc.push(simple_escape_char(s[pos + 1])));
        } else if b == 0x5C && pos + 1 < s.len() && s[pos + 1] == 0x75 {
            let (c, p) = scan_unicode_escape(s, pos + 2);
            lemma_scan_unicode_escape_range(s, pos + 2);
            lemma_scan_string_range(s, p, acc.push(c));
        } else if b < 0x80 {
            lemma_scan_string_range(s, pos + 1, acc.push(b as char));
        } else if 0xC0 <= b && b <= 0xDF && pos + 1 < s.len() && is_cont(s[pos + 1]) {
            lemma_scan_string_range(s, pos + 2, acc.push(scalar_or_replacement(cp2(b, s[pos + 1]))));
        } else if 0xE0 <= b && b <= 0xEF && pos + 2 < s.len() && is_cont(s[pos + 1]) && is_cont(
            s[pos + 2],
        ) {
            lemma_scan_string_range(
                s,
                pos + 3,
                acc.push(scalar_or_replacement(cp3(b, s[pos + 1], s[pos + 2]))),
            );
        } else if 0xF0 <= b && pos + 3 < s.len() && is_cont(s[pos + 1]) && is_cont(s[pos + 2])
            && is_cont(s[pos + 3]) {
            lemma_scan_string_range(
                s,
                pos + 4,
                acc.push(scalar_or_replacement(cp4(b, s[pos + 1], s[pos + 2], s[pos + 3]))),
            );
        } else {
            lemma_scan_string_range(s, pos + 1, acc.push('\u{FFFD}'));
        }
    }
}

pub proof fn lemma_scan_number_range(s: Seq<u8>, pos: int)
    requires
        0 <= pos <= s.len(),
    ensures
        pos <= scan_number(s, pos).1 <= s.len(),
        pos < s.len() && (s[pos] == 0x2D || is_digit(s[pos])) ==> scan_number(s, pos).1 > pos,
{
    let (neg, p0) = if pos < s.len() && s[pos] == 0x2D {
        (true, pos + 1)
    } else {
        (false, pos)
    };
    if p0 < s.len() && s[p0] == 0x30 {
        lemma_scan_number_tail_range(s, neg, 0u64, p0 + 1);
    } else if p0 < s.len() && 0x31 <= s[p0] && s[p0] <= 0x39 {
        let e = digit_run_end(s, p0);
        assert(e == digit_run_end(s, p0 + 1));
        lemma_digit_run_range(s, p0 + 1);
        assert(e > p0);
        lemma_scan_number_tail_range(s, neg, acc_sig(s, p0, e, 0u64), e);
    }
}

pub proof fn lemma_scan_number_tail_range(s: Seq<u8>, neg: bool, sig: u64, pos: int)
    requires
        0 <= pos <= s.len(),
    ensures
        pos <= scan_number_tail(s, neg, sig, pos).1 <= s.len(),
{
    if pos < s.len() && s[pos] == 0x2E {
        lemma_digit_run_range(s, pos + 1);
        let fe = digit_run_end(s, pos + 1);
        if fe != pos + 1 {
            lemma_scan_number_exp_range(
                s,
                neg,
                acc_sig(s, pos + 1, fe, sig),
                frac_exp(fe - (pos + 1)),
                fe,
            );
        }
    } else {
        lemma_scan_number_exp_range(s, neg, sig, 0, pos);
    }
}

pub proof fn lemma_scan_number_exp_range(s: Seq<u8>, neg: bool, sig: u64, fexp: int, pos: int)
    requires
        0 <= pos <= s.len(),
    ensures
        pos <= scan_number_exp(s, neg, sig, fexp, pos).1 <= s.len(),
{
    if pos < s.len() && (s[pos] == 0x65 || s[pos] == 0x45) {
        let (eneg, p1) = if pos + 1 < s.len() && s[pos + 1] == 0x2B {
            (false, pos + 2)
        } else if pos + 1 < s.len() && s[pos + 1] == 0x2D {
            (true, pos + 2)
        } else {
            (false, pos + 1)
        };
        lemma_digit_run_range(s, p1);
    }
}

/// Folding one more digit into a significand accumulated so far equals
/// accumulating over the extended range.
pub proof fn lemma_acc_sig_snoc(s: Seq<u8>, i: int, j: int, acc: u64)
    requires
        i <= j,
    ensures
        acc_sig(s, i, j + 1, acc) == sig_step(acc_sig(s, i, j, acc), s[j]),
    decreases j - i,
{
    if i < j {
        lemma_acc_sig_snoc(s, i + 1, j, sig_step(acc, s[i]));
    } else {
        reveal_with_fuel(acc_sig, 3);
    }
}

/// Folding one more digit into an explicit exponent accumulated so far
/// equals accumulating over the extended range.
pub proof fn lemma_acc_exp_snoc(s: Seq<u8>, i: int, j: int, acc: int)
    requires
        i <= j,
    ensures
        acc_exp(s, i, j + 1, acc) == exp_step(acc_exp(s, i, j, acc), s[j]),
    decreases j - i,
{
    if i < j {
        lemma_acc_exp_snoc(s, i + 1, j, exp_step(acc, s[i]));
    } else {
        reveal_with_fuel(acc_exp, 3);
    }
}

/// Wrapping multiply-then-add on `u64` computes one significand step.
proof fn lemma_sig_step_wrap(acc: u64, b: u8)
    requires
        is_digit(b),
    ensures
        vstd::wrapping::u64_specs::wrapping_add(
            vstd::wrapping::u64_specs::wrapping_mul(acc, 10),
            (b - 0x30) as u64,
        ) == sig_step(acc, b),
{
    let m = 0x1_0000_0000_0000_0000int;
    let a = 10 * (acc as int);
    let d = (b - 0x30) as int;
    let am = vstd::wrapping::u64_specs::wrapping_mul(acc, 10) as int;
    assert(am == a % m);
    vstd::arithmetic::div_mod::lemma_add_mod_noop(a, d, m);
    vstd::arithmetic::div_mod::lemma_small_mod(d as nat, m as nat);
    assert((am + d) % m == (a + d) % m);
    let w = vstd::wrapping::u64_specs::wrapping_add(
        vstd::wrapping::u64_specs::wrapping_mul(acc, 10),
        (b - 0x30) as u64,
    ) as int;
    assert(0 <= am < m);
    if am + d > u64::MAX {
        assert(w == am + d - m);
        vstd::arithmetic::div_mod::lemma_mod_sub_multiples_vanish(am + d, m);
        vstd::arithmetic::div_mod::lemma_small_mod((am + d - m) as nat, m as nat);
        assert((am + d) % m == am + d - m);
    } else {
        vstd::arithmetic::div_mod::lemma_small_mod((am + d) as nat, m as nat);
        assert(w == (am + d) % m);
    }
}

/// Every token's span lies between the cursor and the end of the buffer; a
/// token other than `End` covers at least one byte, and `End` comes exactly
/// at the end of the buffer, so repeated scanning reaches `End` and then
/// keeps returning it.
pub proof fn lemma_scan_token_range(s: Seq<u8>, pos: int)
    requires
        0 <= pos <= s.len(),
    ensures
        pos <= scan_token(s, pos).start <= scan_token(s, pos).end <= s.len(),
        !(scan_token(s, pos).kind is End) ==> scan_token(s, pos).start < scan_token(s, pos).end,
        scan_token(s, pos).kind is End ==> scan_token(s, pos).start == s.len() && scan_token(
            s,
            pos,
        ).end == s.len(),
{
    lemma_skip_ws_range(s, pos);
    let start = skip_ws(s, pos);
    if start < s.len() {
        let b = s[start];
        if b == 0x22 {
            lemma_scan_string_range(s, start + 1, Seq::empty());
        } else if b == 0x2D || is_digit(b) {
            lemma_scan_number_range(s, start);
        }
    }
}

/// The first `n` tokens drawn from position `pos`, each scan continuing at
/// the end of the one before.
pub open spec fn token_stream(s: Seq<u8>, pos: int, n: nat) -> Seq<Scan>
    decreases n,
{
    if n == 0 {
        Seq::empty()
    } else {
        seq![scan_token(s, pos)] + token_stream(s, scan_token(s, pos).end, (n - 1) as nat)
    }
}

/// Lexing is deterministic: the tokens drawn from a buffer are a function
/// of the buffer alone, so lexing the same buffer twice from scratch yields
/// the identical token sequence.  [`Lex::token`] returns exactly
/// [`scan_token`] at the cursor, so two lexers over equal buffers return
/// equal tokens at every step.
pub proof fn lemma_lexing_deterministic(s1: Seq<u8>, s2: Seq<u8>, n: nat)
    requires
        s1 == s2,
    ensures
        token_stream(s1, 0, n) == token_stream(s2, 0, n),
{
}

/// Scanning at the end of the buffer yields `End` and stays at the end:
/// calling past `End` keeps returning `End`.
pub proof fn lemma_end_idempotent(s: Seq<u8>)
    ensures
        scan_token(s, s.len() as int).kind is End,
        scan_token(s, s.len() as int).end == s.len(),
{
    lemma_scan_token_range(s, s.len() as int);
}

// ---------------------------------------------------------------------------
// The executable lexer
// ---------------------------------------------------------------------------

/// Relies on char::from_u32: `Some` exactly for Unicode scalar values, and
/// the character returned has the code point given.
#[verifier::external_body]
fn char_from_u32(v: u32) -> (r: Option<char>)
    ensures
        is_scalar_value(v as int) ==> r == Some(v as char),
        !is_scalar_value(v as int) ==> r is None,
{
    char::from_u32(v)
}

/// Relies on String::push: appends exactly one character.
#[verifier::external_body]
fn push_char(s: &mut String, c: char)
    ensures
        final(s)@ == old(s)@.push(c),
{
    s.push(c);
}

/// The value of a hex digit, or `None` for any other byte.
fn hex_digit(b: u8) -> (r: Option<u8>)
    ensures
        r is Some <==> is_hex(b),
        r is Some ==> r->0 as int == hex_val(b),
{
    if 0x30 <= b && b <= 0x39 {
        Some(b - 0x30)
    } else if 0x41 <= b && b <= 0x46 {
        Some(b - 0x41 + 10)
    } else if 0x61 <= b && b <= 0x66 {
        Some(b - 0x61 + 10)
    } else {
        None
    }
}

/// The character a simple escape stands for, or `None` if the byte after
/// the backslash is no simple escape.
fn simple_escape(b: u8) -> (r: Option<char>)
    ensures
        r is Some <==> is_simple_escape(b),
        r is Some ==> r->0 == simple_escape_char(b),
{
    match b {
        0x22 => Some('"'),
        0x5C => Some('\\'),
        0x2F => Some('/'),
        0x62 => Some('\u{8}'),
        0x66 => Some('\u{C}'),
        0x6E => Some('\n'),
        0x72 => Some('\r'),
        0x74 => Some('\t'),
        _ => None,
    }
}

/// A JSON lexer over a UTF-8 buffer: the buffer and a cursor.
///
/// The lexer produces JSON tokens according to the JSON grammar.  When it
/// encounters invalid bytes, it returns an `Error` token whose span covers
/// them, and moves on.
pub struct Lex<'a> {
    source: &'a [u8],
    pos: usize,
}

impl<'a> Lex<'a> {
    /// The buffer being lexed.
    pub closed spec fn bytes(self) -> Seq<u8> {
        self.source@
    }

    /// The cursor: the position scanning continues from.
    pub closed spec fn at(self) -> int {
        self.pos as int
    }

    /// The cursor lies inside the buffer.
    pub open spec fn wf(self) -> bool {
        0 <= self.at() <= self.bytes().len()
    }

    /// Create a new lexer over the UTF-8 encoding of a string.
    pub fn new(source: &'a str) -> (l: Lex<'a>)
        ensures
            l.bytes() == source.spec_bytes(),
            l.at() == 0,
            l.wf(),
    {
        Lex { source: source.as_bytes(), pos: 0 }
    }

    /// Read the four-hex-digit body of a `\u` escape.
    ///
    /// Returns `None` if a hex digit is missing, and the position scanning
    /// stopped at.
    fn code_unit(source: &[u8], pos: usize) -> (r: (Option<u32>, usize))
        requires
            pos <= source@.len(),
        ensures
            ({
                let (u, p) = code_unit_at(source@, pos as int);
                &&& r.1 as int == p
                &&& pos <= r.1 <= source@.len()
                &&& match (r.0, u) {
                    (Some(x), Some(y)) => x as int == y && x < 0x10000,
                    (None, None) => true,
                    _ => false,
                }
            }),
    {
        proof {
            reveal_with_fuel(scan_code_unit, 5);
        }
        let mut p = pos;
        let mut acc: u32 = 0;
        if p >= source.len() {
            return (None, p);
        }
        match hex_digit(source[p]) {
            Some(h) => {
                acc = 16 * acc + h as u32;
                p = p + 1;
            },
            None => {
                return (None, p);
            },
        }
        if p >= source.len() {
            return (None, p);
        }
        match hex_digit(source[p]) {
            Some(h) => {
                acc = 16 * acc + h as u32;
                p = p + 1;
            },
            None => {
                return (None, p);
            },
        }
        if p >= source.len() {
            return (None, p);
        }
        match hex_digit(source[p]) {
            Some(h) => {
                acc = 16 * acc + h as u32;
                p = p + 1;
            },
            None => {
                return (None, p);
            },
        }
        if p >= source.len() {
            return (None, p);
        }
        match hex_digit(source[p]) {
            Some(h) => {
                acc = 16 * acc + h as u32;
                p = p + 1;
            },
            None => {
                return (None, p);
            },
        }
        (Some(acc), p)
    }

    /// Read the rest of a Unicode escape sequence, after the `\u`.
    ///
    /// Reads a second escape if the first names a high surrogate.  Replaces
    /// invalid code points, incomplete escapes, and unpaired surrogates with
    /// U+FFFD.
    pub fn unicode_escape(source: &[u8], pos: usize) -> (r: (char, usize))
        requires
            pos <= source@.len(),
        ensures
            ({
                let (c, p) = scan_unicode_escape(source@, pos as int);
                r.0 == c && r.1 as int == p && pos <= r.1 <= source@.len()
            }),
    {
        proof {
            lemma_scan_code_unit_range(source@, pos as int, 4, 0);
        }
        let (u1, p1) = Self::code_unit(source, pos);
        match u1 {
            Some(u) => {
                if 0xD800 <= u && u <= 0xDBFF {
                    if p1 < source.len() && source[p1] == 0x5C && p1 + 1 < source.len() && source[p1
                        + 1] == 0x75 {
                        proof {
                            lemma_scan_code_unit_range(source@, p1 as int + 2, 4, 0);
                        }
                        let (u2, p2) = Self::code_unit(source, p1 + 2);
                        match u2 {
                            Some(l) => {
                                if 0xDC00 <= l && l <= 0xDFFF {
                                    let cp: u32 = 0x10000 + (u - 0xD800) * 0x400 + (l - 0xDC00);
                                    match char_from_u32(cp) {
                                        Some(c) => (c, p2),
                                        None => ('\u{FFFD}', p2),
                                    }
                                } else {
                                    ('\u{FFFD}', p2)
                                }
                            },
                            None => ('\u{FFFD}', p2),
                        }
                    } else {
                        ('\u{FFFD}', p1)
                    }
                } else {
                    match char_from_u32(u) {
                        Some(c) => (c, p1),
                        None => ('\u{FFFD}', p1),
                    }
                }
            },
            None => ('\u{FFFD}', p1),
        }
    }

    /// Read the rest of a string, after the opening quote.
    ///
    /// Returns the decoded text and the position after the closing quote,
    /// or `None` over an unterminated string.
    fn string(source: &[u8], pos: usize) -> (r: (Option<String>, usize))
        requires
            pos <= source@.len(),
        ensures
            ({
                let (o, e) = scan_string(source@, pos as int, Seq::empty());
                &&& r.1 as int == e
                &&& pos <= r.1 <= source@.len()
                &&& match (r.0, o) {
                    (Some(t), Some(cs)) => t@ == cs,
                    (None, None) => true,
                    _ => false,
                }
            }),
    {
        let ghost s = source@;
        let mut p = pos;
        let mut buf = String::new();
        proof {
            lemma_scan_string_range(s, pos as int, Seq::empty());
        }
        while p < source.len() && source[p] != 0x22
            invariant
                pos <= p <= source@.len(),
                s == source@,
                scan_string(s, pos as int, Seq::<char>::empty()) == scan_string(s, p as int, buf@),
            decreases source@.len() - p,
        {
            let b = source[p];
            if b == 0x5C && p + 1 < source.len() {
                let b2 = source[p + 1];
                match simple_escape(b2) {
                    Some(c) => {
                        push_char(&mut buf, c);
                        p = p + 2;
                    },
                    None => {
                        if b2 == 0x75 {
                            proof {
                                lemma_scan_unicode_escape_range(s, p as int + 2);
                            }
                            let (c, np) = Self::unicode_escape(source, p + 2);
                            push_char(&mut buf, c);
                            p = np;
                        } else {
                            // an unrecognized escape: the backslash passes
                            // through as a plain character
                            push_char(&mut buf, 0x5Cu8 as char);
                            p = p + 1;
                        }
                    },
                }
            } else if b < 0x80 {
                push_char(&mut buf, b as char);
                p = p + 1;
            } else if 0xC0 <= b && b <= 0xDF && p + 1 < source.len() && 0x80 <= source[p + 1]
                && source[p + 1] <= 0xBF {
                let cp: u32 = (b - 0xC0) as u32 * 0x40 + (source[p + 1] - 0x80) as u32;
                let c = match char_from_u32(cp) {
                    Some(c) => c,
                    None => '\u{FFFD}',
                };
                push_char(&mut buf, c);
                p = p + 2;
            } else if 0xE0 <= b && b <= 0xEF && p + 1 < source.len() && p + 2 < source.len() && 0x80
                <= source[p + 1] && source[p + 1] <= 0xBF && 0x80 <= source[p + 2] && source[p + 2]
                <= 0xBF {
                let cp: u32 = (b - 0xE0) as u32 * 0x1000 + (source[p + 1] - 0x80) as u32 * 0x40 + (
                source[p + 2] - 0x80) as u32;
                let c = match char_from_u32(cp) {
                    Some(c) => c,
                    None => '\u{FFFD}',
                };
                push_char(&mut buf, c);
                p = p + 3;
            } else if 0xF0 <= b && p + 1 < source.len() && p + 2 < source.len() && p + 3
                < source.len() && 0x80 <= source[p + 1] && source[p + 1] <= 0xBF && 0x80 <= source[p
                + 2] && source[p + 2] <= 0xBF && 0x80 <= source[p + 3] && source[p + 3] <= 0xBF {
                let cp: u32 = (b - 0xF0) as u32 * 0x40000 + (source[p + 1] - 0x80) as u32 * 0x1000
                    + (source[p + 2] - 0x80) as u32 * 0x40 + (source[p + 3] - 0x80) as u32;
                let c = match char_from_u32(cp) {
                    Some(c) => c,
                    None => '\u{FFFD}',
                };
                push_char(&mut buf, c);
                p = p + 4;
            } else {
                // not reachable over the encoding of a str, which is valid
                // UTF-8; decode defensively to U+FFFD
                push_char(&mut buf, '\u{FFFD}');
                p = p + 1;
            }
        }
        if p < source.len() {
            (Some(buf), p + 1)
        } else {
            (None, p)
        }
    }

    /// Read a number.
    ///
    /// Returns `None` and the position scanning stopped at when a required
    /// digit is missing.
    fn number(source: &[u8], pos: usize) -> (r: (Option<Number>, usize))
        requires
            pos <= source@.len(),
        ensures
            ({
                let (n, e) = scan_number(source@, pos as int);
                r.1 as int == e && pos <= r.1 <= source@.len() && match (r.0, n) {
                    (Some(x), Some(y)) => x == y,
                    (None, None) => true,
                    _ => false,
                }
            }),
    {
        let ghost s = source@;
        let mut p = pos;
        let neg = p < source.len() && source[p] == 0x2D;
        if neg {
            p = p + 1;
        }
        let ghost p0 = p as int;
        let mut sig: u64 = 0;
        if p < source.len() && source[p] == 0x30 {
            p = p + 1;
        } else if p < source.len() && 0x31 <= source[p] && source[p] <= 0x39 {
            let ghost d0 = p as int;
            while p < source.len() && 0x30 <= source[p] && source[p] <= 0x39
                invariant
                    d0 <= p <= source@.len(),
                    s == source@,
                    sig == acc_sig(s, d0, p as int, 0u64),
                    digit_run_end(s, d0) == digit_run_end(s, p as int),
                decreases source@.len() - p,
            {
                proof {
                    lemma_acc_sig_snoc(s, d0, p as int, 0u64);
                    lemma_sig_step_wrap(sig, s[p as int]);
                }
                sig = sig.wrapping_mul(10).wrapping_add((source[p] - 0x30) as u64);
                p = p + 1;
            }
            proof {
                assert(digit_run_end(s, p0) == p as int);
            }
        } else {
            return (None, p);
        }
        // the fractional part, if any
        let ghost p1 = p as int;
        let ghost sig0 = sig;
        let mut fexp: i64 = 0;
        if p < source.len() && source[p] == 0x2E {
            p = p + 1;
            let frac_start = p;
            let ghost f0 = p as int;
            while p < source.len() && 0x30 <= source[p] && source[p] <= 0x39
                invariant
                    f0 <= p <= source@.len(),
                    s == source@,
                    sig == acc_sig(s, f0, p as int, sig0),
                    fexp as int == frac_exp(p as int - f0),
                    -EXP_CAP <= fexp <= 0,
                    digit_run_end(s, f0) == digit_run_end(s, p as int),
                decreases source@.len() - p,
            {
                proof {
                    lemma_acc_sig_snoc(s, f0, p as int, sig0);
                    lemma_sig_step_wrap(sig, s[p as int]);
                }
                sig = sig.wrapping_mul(10).wrapping_add((source[p] - 0x30) as u64);
                if fexp > -EXP_CAP {
                    fexp = fexp - 1;
                }
                p = p + 1;
            }
            proof {
                assert(digit_run_end(s, f0) == p as int);
            }
            if p == frac_start {
                return (None, p);
            }
        }
        // the exponent part, if any
        if p < source.len() && (source[p] == 0x65 || source[p] == 0x45) {
            p = p + 1;
            let mut eneg = false;
            if p < source.len() && source[p] == 0x2B {
                p = p + 1;
            } else if p < source.len() && source[p] == 0x2D {
                eneg = true;
                p = p + 1;
            }
            let exp_start = p;
            let ghost e0 = p as int;
            let mut eacc: i64 = 0;
            while p < source.len() && 0x30 <= source[p] && source[p] <= 0x39
                invariant
                    e0 <= p <= source@.len(),
                    s == source@,
                    eacc as int == acc_exp(s, e0, p as int, 0),
                    0 <= eacc < 10 * EXP_CAP,
                    digit_run_end(s, e0) == digit_run_end(s, p as int),
                decreases source@.len() - p,
            {
                proof {
                    lemma_acc_exp_snoc(s, e0, p as int, 0);
                }
                if eacc >= EXP_CAP {
                } else {
                    eacc = 10 * eacc + (source[p] - 0x30) as i64;
                }
                p = p + 1;
            }
            proof {
                assert(digit_run_end(s, e0) == p as int);
            }
            if p == exp_start {
                return (None, p);
            }
            let total: i64 = if eneg {
                fexp - eacc
            } else {
                fexp + eacc
            };
            (Some(Number { neg, sig, exp: total }), p)
        } else {
            (Some(Number { neg, sig, exp: fexp }), p)
        }
    }

    /// Read the next token and move the cursor past it.
    ///
    /// Returns exactly the token that [`scan_token`] assigns to the buffer
    /// at the old cursor position.  Never fails: lexically invalid bytes
    /// come back as an `Error` token, and past the end of the buffer the
    /// token is `End`, again and again.
    pub fn token(&mut self) -> (t: Token)
        requires
            old(self).wf(),
        ensures
            final(self).wf(),
            final(self).bytes() == old(self).bytes(),
            t@ == scan_token(old(self).bytes(), old(self).at()),
            final(self).at() == t@.end,
    {
        let ghost s = self.source@;
        let ghost pos0 = self.pos as int;
        proof {
            lemma_scan_token_range(s, pos0);
        }
        // skip any whitespace before the token
        while self.pos < self.source.len() && (self.source[self.pos] == 0x20 || self.source[self.pos]
            == 0x09 || self.source[self.pos] == 0x0D || self.source[self.pos] == 0x0A)
            invariant
                s == self.source@,
                0 <= pos0 <= self.pos as int <= s.len(),
                skip_ws(s, pos0) == skip_ws(s, self.pos as int),
            decreases self.source@.len() - self.pos,
        {
            self.pos = self.pos + 1;
        }
        let start = self.pos;
        proof {
            assert(skip_ws(s, pos0) == start as int);
        }
        if start >= self.source.len() {
            return Token { start, end: start, kind: TokenKind::End };
        }
        let b = self.source[start];
        if b == 0x7B {
            self.pos = start + 1;
            Token { start, end: start + 1, kind: TokenKind::LeftBrace }
        } else if b == 0x7D {
            self.pos = start + 1;
            Token { start, end: start + 1, kind: TokenKind::RightBrace }
        } else if b == 0x5B {
            self.pos = start + 1;
            Token { start, end: start + 1, kind: TokenKind::LeftBracket }
        } else if b == 0x5D {
            self.pos = start + 1;
            Token { start, end: start + 1, kind: TokenKind::RightBracket }
        } else if b == 0x3A {
            self.pos = start + 1;
            Token { start, end: start + 1, kind: TokenKind::Colon }
        } else if b == 0x2C {
            self.pos = start + 1;
            Token { start, end: start + 1, kind: TokenKind::Comma }
        } else if b == 0x22 {
            let (text, e) = Self::string(self.source, start + 1);
            self.pos = e;
            match text {
                Some(t) => Token { start, end: e, kind: TokenKind::String(t) },
                None => Token { start, end: e, kind: TokenKind::Error },
            }
        } else if b == 0x2D || (0x30 <= b && b <= 0x39) {
            let (num, e) = Self::number(self.source, start);
            self.pos = e;
            match num {
                Some(n) => Token { start, end: e, kind: TokenKind::Number(n) },
                None => Token { start, end: e, kind: TokenKind::Error },
            }
        } else if self.source.len() - start >= 4 && b == 0x74 && self.source[start + 1] == 0x72
            && self.source[start + 2] == 0x75 && self.source[start + 3] == 0x65 {
            self.pos = start + 4;
            Token { start, end: start + 4, kind: TokenKind::Bool(true) }
        } else if self.source.len() - start >= 5 && b == 0x66 && self.source[start + 1] == 0x61
            && self.source[start + 2] == 0x6C && self.source[start + 3] == 0x73 && self.source[start
            + 4] == 0x65 {
            self.pos = start + 5;
            Token { start, end: start + 5, kind: TokenKind::Bool(false) }
        } else if self.source.len() - start >= 4 && b == 0x6E && self.source[start + 1] == 0x75
            && self.source[start + 2] == 0x6C && self.source[start + 3] == 0x6C {
            self.pos = start + 4;
            Token { start, end: start + 4, kind: TokenKind::Null }
        } else {
            self.pos = start + 1;
            Token { start, end: start + 1, kind: TokenKind::Error }
        }
    }
}

} // verus!
