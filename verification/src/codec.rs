//! A conformant encoder, at the specification level, and the round-trip
//! law: parsing the encoding of a value reconstructs the value.
//!
//! The encoder is a pure function from a value model to a byte sequence —
//! the library serializes nothing at run time; the functions here state
//! what a conformant encoding is, and the lemmas prove that the parser's
//! specification maps such an encoding back to the very model it encodes.
//! Since the executable parser provably returns what the specification
//! assigns to the buffer, the law carries over to any caller that feeds an
//! encoded buffer to [`crate::parse::Parse`].

use vstd::prelude::*;

use crate::json::{
    arr_wf, keys_unique, lemma_arr_wf_iff, lemma_obj_insert_absent, lemma_pairs_wf_iff, model_wf,
    obj_insert, pairs_wf, ValueModel,
};
use crate::parse::{sp_array, sp_elems, sp_goal, sp_object, sp_pairs, sp_value, PRes};
use crate::lex::{
    acc_exp, acc_sig, code_unit_at, digit_run_end, exp_step, hex_val, is_digit, is_hex,
    is_simple_escape, is_ws, scan_code_unit, scan_number, scan_number_exp, scan_number_tail,
    scan_string, scan_token,
    scan_unicode_escape, sig_step, simple_escape_char, skip_ws, Scan, TokenModel, EXP_CAP,
};
use crate::json::Number;

verus! {

/// Ten to the `k`.
pub open spec fn pow10(k: nat) -> nat
    decreases k,
{
    if k == 0 {
        1
    } else {
        10 * pow10((k - 1) as nat)
    }
}

/// The decimal digits of `n`, most significant first.
pub open spec fn dec_digits(n: nat) -> Seq<u8>
    decreases n,
{
    if n < 10 {
        seq![(0x30 + n) as u8]
    } else {
        dec_digits(n / 10).push((0x30 + n % 10) as u8)
    }
}

/// The byte of one lowercase hex digit.
pub open spec fn hex_digit_byte(d: int) -> u8 {
    if d < 10 {
        (0x30 + d) as u8
    } else {
        (0x61 + d - 10) as u8
    }
}

/// The encoding of one character of a string: the two-character escapes
/// for the quote and the backslash, a `\u00XX` escape for a control
/// character, the character itself otherwise.
pub open spec fn enc_char(c: char) -> Seq<u8> {
    if c == '"' {
        seq![0x5Cu8, 0x22u8]
    } else if c == '\\' {
        seq![0x5Cu8, 0x5Cu8]
    } else if (c as int) < 0x20 {
        seq![
            0x5Cu8,
            0x75u8,
            0x30u8,
            0x30u8,
            hex_digit_byte((c as int) / 16),
            hex_digit_byte((c as int) % 16),
        ]
    } else {
        seq![c as u8]
    }
}

pub open spec fn enc_chars(cs: Seq<char>) -> Seq<u8>
    decreases cs.len(),
{
    if cs.len() == 0 {
        Seq::empty()
    } else {
        enc_char(cs[0]) + enc_chars(cs.drop_first())
    }
}

/// A string: a quote, the encoded characters, a quote.
pub open spec fn enc_string(cs: Seq<char>) -> Seq<u8> {
    seq![0x22u8] + enc_chars(cs) + seq![0x22u8]
}

/// A number: the sign, the significand's digits, and an explicit exponent.
pub open spec fn enc_number(n: Number) -> Seq<u8> {
    (if n.neg {
        seq![0x2Du8]
    } else {
        Seq::empty()
    }) + dec_digits(n.sig as nat) + seq![0x65u8] + (if n.exp < 0 {
        seq![0x2Du8] + dec_digits((-(n.exp as int)) as nat)
    } else {
        dec_digits(n.exp as nat)
    })
}

/// The encoding of a value.
pub open spec fn enc_value(m: ValueModel) -> Seq<u8>
    decreases m, 3int, 0int,
{
    match m {
        ValueModel::Str(cs) => enc_string(cs),
        ValueModel::Num(n) => enc_number(n),
        ValueModel::Bool(b) => if b {
            seq![0x74u8, 0x72u8, 0x75u8, 0x65u8]
        } else {
            seq![0x66u8, 0x61u8, 0x6Cu8, 0x73u8, 0x65u8]
        },
        ValueModel::Null => seq![0x6Eu8, 0x75u8, 0x6Cu8, 0x6Cu8],
        ValueModel::Obj(pairs) => seq![0x7Bu8] + enc_obj_body(pairs),
        ValueModel::Arr(items) => seq![0x5Bu8] + enc_arr_body(items),
    }
}

/// An object's encoding after the opening brace.
pub open spec fn enc_obj_body(pairs: Seq<(Seq<char>, ValueModel)>) -> Seq<u8>
    decreases pairs, 2int, 0int,
{
    if pairs.len() == 0 {
        seq![0x7Du8]
    } else {
        enc_string(pairs[0].0) + seq![0x3Au8] + enc_value(pairs[0].1) + enc_pairs_from(pairs, 1)
    }
}

/// An array's encoding after the opening bracket.
pub open spec fn enc_arr_body(items: Seq<ValueModel>) -> Seq<u8>
    decreases items, 2int, 0int,
{
    if items.len() == 0 {
        seq![0x5Du8]
    } else {
        enc_value(items[0]) + enc_items_from(items, 1)
    }
}

/// The rest of an object's encoding from pair `idx` on: a comma before
/// each pair, the closing brace at the end.
pub open spec fn enc_pairs_from(pairs: Seq<(Seq<char>, ValueModel)>, idx: int) -> Seq<u8>
    decreases pairs, 1int, pairs.len() - idx,
{
    if idx >= pairs.len() || idx < 0 {
        seq![0x7Du8]
    } else {
        seq![0x2Cu8] + enc_string(pairs[idx].0) + seq![0x3Au8] + enc_value(pairs[idx].1)
            + enc_pairs_from(pairs, idx + 1)
    }
}

/// The rest of an array's encoding from item `idx` on: a comma before each
/// item, the closing bracket at the end.
pub open spec fn enc_items_from(items: Seq<ValueModel>, idx: int) -> Seq<u8>
    decreases items, 1int, items.len() - idx,
{
    if idx >= items.len() || idx < 0 {
        seq![0x5Du8]
    } else {
        seq![0x2Cu8] + enc_value(items[idx]) + enc_items_from(items, idx + 1)
    }
}

/// The values the round-trip law speaks of: strings hold ASCII characters
/// only, and exponents lie within [`EXP_CAP`], inside which the lexer's
/// saturating exponent arithmetic is exact.
pub open spec fn encodable(m: ValueModel) -> bool
    decreases m, 1int,
{
    match m {
        ValueModel::Str(cs) => ascii_chars(cs),
        ValueModel::Num(n) => -(EXP_CAP as int) <= n.exp <= EXP_CAP,
        ValueModel::Bool(_) => true,
        ValueModel::Null => true,
        ValueModel::Obj(pairs) => enc_pairs_ok(pairs),
        ValueModel::Arr(items) => enc_items_ok(items),
    }
}

pub open spec fn ascii_chars(cs: Seq<char>) -> bool {
    forall|i: int| 0 <= i < cs.len() ==> (#[trigger] cs[i] as int) < 0x80
}

pub open spec fn enc_pairs_ok(pairs: Seq<(Seq<char>, ValueModel)>) -> bool
    decreases pairs, 0int,
{
    if pairs.len() == 0 {
        true
    } else {
        ascii_chars(pairs[0].0) && encodable(pairs[0].1) && enc_pairs_ok(pairs.drop_first())
    }
}

pub open spec fn enc_items_ok(items: Seq<ValueModel>) -> bool
    decreases items, 0int,
{
    if items.len() == 0 {
        true
    } else {
        encodable(items[0]) && enc_items_ok(items.drop_first())
    }
}

// ---------------------------------------------------------------------------
// Reading digits back
// ---------------------------------------------------------------------------

/// Decimal digits are digit bytes, and the leading digit of a positive
/// number is not zero.
pub proof fn lemma_dec_digits_are_digits(n: nat)
    ensures
        dec_digits(n).len() >= 1,
        forall|j: int| 0 <= j < dec_digits(n).len() ==> is_digit(#[trigger] dec_digits(n)[j]),
        n >= 1 ==> dec_digits(n)[0] != 0x30,
    decreases n,
{
    if n >= 10 {
        lemma_dec_digits_are_digits(n / 10);
        assert forall|j: int| 0 <= j < dec_digits(n).len() implies is_digit(
            #[trigger] dec_digits(n)[j],
        ) by {
            if j < dec_digits(n / 10).len() {
                assert(dec_digits(n)[j] == dec_digits(n / 10)[j]);
            }
        }
        assert(dec_digits(n)[0] == dec_digits(n / 10)[0]);
    }
}

/// A run of digit bytes followed by a non-digit (or the end of the buffer)
/// is scanned to exactly its end.
pub proof fn lemma_digit_run_exact(s: Seq<u8>, i: int, e: int)
    requires
        0 <= i <= e <= s.len(),
        forall|j: int| i <= j < e ==> is_digit(#[trigger] s[j]),
        e == s.len() || !is_digit(s[e]),
    ensures
        digit_run_end(s, i) == e,
    decreases e - i,
{
    if i < e {
        lemma_digit_run_exact(s, i + 1, e);
    }
}

/// Folding the decimal digits of `n` onto a significand `acc` yields
/// `acc * 10^k + n`, exactly, as long as that stays below 2^64.
pub proof fn lemma_acc_sig_digits(s: Seq<u8>, i: int, n: nat, acc: u64)
    requires
        0 <= i,
        i + dec_digits(n).len() <= s.len(),
        s.subrange(i, i + dec_digits(n).len() as int) == dec_digits(n),
        (acc as nat) * pow10(dec_digits(n).len()) + n < 0x1_0000_0000_0000_0000,
    ensures
        acc_sig(s, i, i + dec_digits(n).len() as int, acc) as int == (acc as nat) * pow10(
            dec_digits(n).len(),
        ) + n,
    decreases n,
{
    let len = dec_digits(n).len() as int;
    let m = 0x1_0000_0000_0000_0000int;
    let a = acc as nat;
    assert(pow10(0) == 1);
    assert(pow10(1) == 10);
    if n < 10 {
        assert(dec_digits(n).len() == 1);
        assert(pow10(dec_digits(n).len()) == 10);
        assert(a * 10 == 10 * a) by (nonlinear_arith);
        assert(s.subrange(i, i + 1)[0] == s[i]);
        assert(s[i] == (0x30 + n) as u8);
        crate::lex::lemma_acc_sig_snoc(s, i, i, acc);
        assert(10 * (acc as int) + n < m);
        vstd::arithmetic::div_mod::lemma_small_mod((10 * a + n) as nat, m as nat);
        assert(sig_step(acc, s[i]) as int == 10 * (acc as int) + n);
    } else {
        let len2 = dec_digits(n / 10).len() as int;
        assert(len == len2 + 1);
        let p2 = pow10(len2 as nat);
        assert(pow10(len as nat) == 10 * p2);
        assert(10 * (a * p2) == a * (10 * p2)) by (nonlinear_arith);
        assert(s.subrange(i, i + len2) =~= dec_digits(n / 10)) by {
            assert forall|j: int| 0 <= j < len2 implies #[trigger] s.subrange(i, i + len2)[j]
                == dec_digits(n / 10)[j] by {
                assert(s.subrange(i, i + len2)[j] == s[i + j]);
                assert(s.subrange(i, i + len)[j] == s[i + j]);
                assert(dec_digits(n)[j] == dec_digits(n / 10)[j]);
            }
        }
        assert(10 * (n / 10) + n % 10 == n);
        assert(10 * (a * p2 + n / 10) <= a * pow10(len as nat) + n);
        assert(a * p2 + n / 10 < m);
        lemma_acc_sig_digits(s, i, n / 10, acc);
        let prefix_val = a * p2 + n / 10;
        crate::lex::lemma_acc_sig_snoc(s, i, i + len - 1, acc);
        assert(s[i + len - 1] == dec_digits(n)[len - 1]) by {
            assert(s.subrange(i, i + len)[len - 1] == s[i + len - 1]);
        }
        assert(dec_digits(n)[len - 1] == (0x30 + n % 10) as u8);
        assert(10 * prefix_val + n % 10 == a * pow10(len as nat) + n);
        vstd::arithmetic::div_mod::lemma_small_mod((10 * prefix_val + n % 10) as nat, m as nat);
        assert(sig_step(acc_sig(s, i, i + len - 1, acc), s[i + len - 1]) as int == 10 * prefix_val
            + n % 10);
    }
}

/// Folding the decimal digits of `n` onto an explicit exponent `acc`
/// yields `acc * 10^k + n`, exactly, as long as that stays within the cap.
pub proof fn lemma_acc_exp_digits(s: Seq<u8>, i: int, n: nat, acc: int)
    requires
        0 <= i,
        0 <= acc,
        i + dec_digits(n).len() <= s.len(),
        s.subrange(i, i + dec_digits(n).len() as int) == dec_digits(n),
        acc * pow10(dec_digits(n).len()) + n <= EXP_CAP,
    ensures
        acc_exp(s, i, i + dec_digits(n).len() as int, acc) == acc * pow10(dec_digits(n).len())
            + n,
    decreases n,
{
    let len = dec_digits(n).len() as int;
    assert(pow10(0) == 1);
    assert(pow10(1) == 10);
    if n < 10 {
        assert(dec_digits(n).len() == 1);
        assert(pow10(dec_digits(n).len()) == 10);
        assert(acc * 10 == 10 * acc) by (nonlinear_arith);
        assert(s.subrange(i, i + 1)[0] == s[i]);
        assert(s[i] == (0x30 + n) as u8);
        crate::lex::lemma_acc_exp_snoc(s, i, i, acc);
        assert(acc < EXP_CAP);
        assert(exp_step(acc, s[i]) == 10 * acc + n);
    } else {
        let len2 = dec_digits(n / 10).len() as int;
        assert(len == len2 + 1);
        let p2 = pow10(len2 as nat);
        assert(pow10(len as nat) == 10 * p2);
        assert(10 * (acc * p2) == acc * (10 * p2)) by (nonlinear_arith);
        assert(s.subrange(i, i + len2) =~= dec_digits(n / 10)) by {
            assert forall|j: int| 0 <= j < len2 implies #[trigger] s.subrange(i, i + len2)[j]
                == dec_digits(n / 10)[j] by {
                assert(s.subrange(i, i + len2)[j] == s[i + j]);
                assert(s.subrange(i, i + len)[j] == s[i + j]);
                assert(dec_digits(n)[j] == dec_digits(n / 10)[j]);
            }
        }
        assert(10 * (n / 10) + n % 10 == n);
        assert(10 * (acc * p2 + n / 10) <= acc * pow10(len as nat) + n);
        assert(acc * p2 + n / 10 <= EXP_CAP);
        lemma_acc_exp_digits(s, i, n / 10, acc);
        let prefix_val = acc * p2 + n / 10;
        crate::lex::lemma_acc_exp_snoc(s, i, i + len - 1, acc);
        assert(s[i + len - 1] == dec_digits(n)[len - 1]) by {
            assert(s.subrange(i, i + len)[len - 1] == s[i + len - 1]);
        }
        assert(dec_digits(n)[len - 1] == (0x30 + n % 10) as u8);
        assert(prefix_val < EXP_CAP);
        assert(exp_step(acc_exp(s, i, i + len - 1, acc), s[i + len - 1]) == 10 * prefix_val + n
            % 10);
        assert(10 * prefix_val + n % 10 == acc * pow10(len as nat) + n);
    }
}

/// Scanning an encoded number, with no digit right after it, yields
/// exactly the number and stops right after it.
pub proof fn lemma_scan_number_encoded(s: Seq<u8>, i: int, n: Number)
    requires
        0 <= i,
        i + enc_number(n).len() <= s.len(),
        s.subrange(i, i + enc_number(n).len() as int) == enc_number(n),
        -(EXP_CAP as int) <= n.exp <= EXP_CAP,
        i + enc_number(n).len() == s.len() || !is_digit(s[i + enc_number(n).len()]),
    ensures
        scan_number(s, i) == (Some(n), i + enc_number(n).len() as int),
{
    let ec = enc_number(n);
    let elen = ec.len() as int;
    let sd = dec_digits(n.sig as nat);
    let sdl = sd.len() as int;
    let ea = (-(n.exp as int)) as nat;
    let ed = if n.exp < 0 {
        dec_digits(ea)
    } else {
        dec_digits(n.exp as nat)
    };
    let edl = ed.len() as int;
    lemma_dec_digits_are_digits(n.sig as nat);
    lemma_dec_digits_are_digits(n.exp as nat);
    lemma_dec_digits_are_digits(ea);
    assert forall|j: int| 0 <= j < elen implies #[trigger] s[i + j] == ec[j] by {
        assert(s.subrange(i, i + elen)[j] == s[i + j]);
    }
    let p0 = if n.neg {
        i + 1
    } else {
        i
    };
    // the significand's digits stand at [p0, p0 + sdl)
    assert(forall|j: int| 0 <= j < sdl ==> ec[p0 - i + j] == #[trigger] sd[j]);
    assert(s.subrange(p0, p0 + sdl) =~= sd) by {
        assert forall|j: int| 0 <= j < sdl implies #[trigger] s.subrange(p0, p0 + sdl)[j]
            == sd[j] by {
            assert(s.subrange(p0, p0 + sdl)[j] == s[p0 + j]);
            assert(s[p0 + j] == ec[p0 - i + j]);
        }
    }
    let pt = p0 + sdl;
    assert(ec[pt - i] == 0x65);
    assert(s[pt] == 0x65);
    // the sign byte, if any
    if n.neg {
        assert(ec[0] == 0x2D);
        assert(s[i] == 0x2D);
    } else {
        assert(s[i] == sd[0]);
        assert(is_digit(s[i]));
    }
    // the integer part
    if n.sig == 0 {
        assert(sd =~= seq![0x30u8]);
        assert(s[p0] == 0x30);
        assert(scan_number(s, i) == scan_number_tail(s, n.neg, 0u64, p0 + 1));
    } else {
        assert(s[p0] == sd[0]);
        assert(is_digit(s[p0]) && s[p0] != 0x30);
        assert(0x31 <= s[p0] <= 0x39);
        assert forall|j: int| p0 <= j < pt implies is_digit(#[trigger] s[j]) by {
            assert(s[j] == sd[j - p0]);
        }
        lemma_digit_run_exact(s, p0, pt);
        lemma_acc_sig_digits(s, p0, n.sig as nat, 0u64);
        assert(acc_sig(s, p0, pt, 0u64) == n.sig);
        assert(scan_number(s, i) == scan_number_tail(s, n.neg, n.sig, pt));
    }
    // no fractional part: the next byte is the exponent mark
    assert(scan_number_tail(s, n.neg, n.sig, pt) == scan_number_exp(
        s,
        n.neg,
        n.sig,
        0,
        pt,
    ));
    // the exponent part
    let p1 = if n.exp < 0 {
        pt + 2
    } else {
        pt + 1
    };
    if n.exp < 0 {
        assert(ec[pt + 1 - i] == 0x2D);
        assert(s[pt + 1] == 0x2D);
    } else {
        assert(ec[pt + 1 - i] == ed[0]);
        assert(s[pt + 1] == ed[0]);
        assert(is_digit(s[pt + 1]));
    }
    assert(forall|j: int| 0 <= j < edl ==> ec[p1 - i + j] == #[trigger] ed[j]);
    assert(s.subrange(p1, p1 + edl) =~= ed) by {
        assert forall|j: int| 0 <= j < edl implies #[trigger] s.subrange(p1, p1 + edl)[j]
            == ed[j] by {
            assert(s.subrange(p1, p1 + edl)[j] == s[p1 + j]);
            assert(s[p1 + j] == ec[p1 - i + j]);
        }
    }
    assert(p1 + edl == i + elen);
    assert forall|j: int| p1 <= j < p1 + edl implies is_digit(#[trigger] s[j]) by {
        assert(s[j] == ed[j - p1]);
    }
    lemma_digit_run_exact(s, p1, p1 + edl);
    let ev = if n.exp < 0 {
        ea
    } else {
        n.exp as nat
    };
    lemma_acc_exp_digits(s, p1, ev, 0);
    assert(acc_exp(s, p1, p1 + edl, 0) == ev);
    assert(edl >= 1);
}

/// A character's mathematical value is its code point: a Unicode scalar
/// value, nonnegative and at most 0x10FFFF.
proof fn proof_char_value(c: char)
    ensures
        0 <= (c as int) <= 0x10FFFF,
        (c as int) == ((c as u32) as int),
        ((c as int) as char) == c,
{
    vstd::utf8::char_is_scalar(c);
    vstd::utf8::char_u32_cast(c, c as u32);
}

/// Scanning the encoding of an ASCII string's characters followed by the
/// closing quote decodes exactly those characters onto the accumulator.
pub proof fn lemma_scan_string_encoded(s: Seq<u8>, i: int, cs: Seq<char>, acc: Seq<char>)
    requires
        ascii_chars(cs),
        0 <= i,
        i + enc_chars(cs).len() + 1 <= s.len(),
        s.subrange(i, i + enc_chars(cs).len() + 1) == enc_chars(cs) + seq![0x22u8],
    ensures
        scan_string(s, i, acc) == (Some(acc + cs), i + enc_chars(cs).len() + 1),
    decreases cs.len(),
{
    let ec = enc_chars(cs);
    let tail = ec + seq![0x22u8];
    assert forall|j: int| 0 <= j < tail.len() implies #[trigger] s[i + j] == tail[j] by {
        assert(s.subrange(i, i + ec.len() + 1)[j] == s[i + j]);
    }
    if cs.len() == 0 {
        assert(ec =~= Seq::<u8>::empty());
        assert(s[i] == 0x22);
        assert(acc + cs =~= acc);
    } else {
        let c = cs[0];
        proof_char_value(c);
        let rest = cs.drop_first();
        let e1 = enc_char(c);
        let k = e1.len() as int;
        assert(ec == e1 + enc_chars(rest));
        assert(forall|j: int| 0 <= j < k ==> tail[j] == #[trigger] e1[j]);
        assert(forall|j: int| 0 <= j < k ==> s[i + j] == #[trigger] e1[j]);
        assert(s.subrange(i + k, i + k + enc_chars(rest).len() + 1) =~= enc_chars(rest) + seq![
            0x22u8,
        ]) by {
            assert forall|j: int| 0 <= j < enc_chars(rest).len() + 1 implies #[trigger] s.subrange(
                i + k,
                i + k + enc_chars(rest).len() + 1,
            )[j] == (enc_chars(rest) + seq![0x22u8])[j] by {
                assert(s.subrange(i + k, i + k + enc_chars(rest).len() + 1)[j] == s[i + k + j]);
                assert(s[i + k + j] == tail[k + j]);
            }
        }
        assert(ascii_chars(rest)) by {
            assert(forall|j: int| 0 <= j < rest.len() ==> #[trigger] rest[j] == cs[j + 1]);
        }
        lemma_scan_string_encoded(s, i + k, rest, acc.push(c));
        assert(acc.push(c) + rest =~= acc + cs) by {
            assert(forall|j: int| 0 <= j < rest.len() ==> #[trigger] rest[j] == cs[j + 1]);
        }
        // walk the one encoded character
        if c == '"' {
            assert(s[i] == 0x5C && s[i + 1] == 0x22);
            assert(is_simple_escape(s[i + 1]) && simple_escape_char(s[i + 1]) == c);
            assert(scan_string(s, i, acc) == scan_string(s, i + 2, acc.push(c)));
        } else if c == '\\' {
            assert(s[i] == 0x5C && s[i + 1] == 0x5C);
            assert(is_simple_escape(s[i + 1]) && simple_escape_char(s[i + 1]) == c);
            assert(scan_string(s, i, acc) == scan_string(s, i + 2, acc.push(c)));
        } else if (c as int) < 0x20 {
            assert((c as int) >= 0);
            let hi = (c as int) / 16;
            let lo = (c as int) % 16;
            assert(0 <= hi < 2 && 0 <= lo < 16);
            assert(s[i] == 0x5C && s[i + 1] == 0x75);
            assert(s[i + 2] == 0x30 && s[i + 3] == 0x30);
            assert(s[i + 4] == hex_digit_byte(hi) && s[i + 5] == hex_digit_byte(lo));
            assert(!is_simple_escape(0x75u8));
            assert(hex_val(hex_digit_byte(hi)) == hi && is_hex(hex_digit_byte(hi)));
            assert(hex_val(hex_digit_byte(lo)) == lo && is_hex(hex_digit_byte(lo)));
            assert(is_hex(0x30u8) && hex_val(0x30u8) == 0);
            reveal_with_fuel(scan_code_unit, 5);
            assert(code_unit_at(s, i + 2) == (Some(16 * hi + lo), i + 6));
            assert(16 * hi + lo == c as int);
            assert(scan_unicode_escape(s, i + 2) == ((c as int) as char, i + 6));
            assert((c as int) as char == c);
            assert(scan_string(s, i, acc) == scan_string(s, i + 6, acc.push(c)));
        } else {
            assert(s[i + 0] == e1[0]);
            assert(s[i] == (c as u8));
            assert((c as int) < 0x80);
            assert((s[i] as int) == (c as int));
            assert(s[i] != 0x22 && s[i] != 0x5C && s[i] < 0x80);
            assert((s[i] as char) == c);
            assert(scan_string(s, i, acc) == scan_string(s, i + 1, acc.push(c)));
        }
    }
}

/// A byte that may directly follow a value: a comma or a closing
/// delimiter.  The buffer's end counts as one by convention at use sites.
pub open spec fn is_delim(b: u8) -> bool {
    b == 0x2C || b == 0x5D || b == 0x7D
}

proof fn lemma_bytes_of_subrange(s: Seq<u8>, i: int, e: Seq<u8>)
    requires
        0 <= i,
        i + e.len() <= s.len(),
        s.subrange(i, i + e.len() as int) == e,
    ensures
        forall|j: int| 0 <= j < e.len() ==> s[i + j] == #[trigger] e[j],
{
    assert forall|j: int| 0 <= j < e.len() implies s[i + j] == #[trigger] e[j] by {
        assert(s.subrange(i, i + e.len() as int)[j] == s[i + j]);
    }
}

/// A chunk of a matched byte region is itself a matched byte region.
proof fn lemma_chunk_subrange(s: Seq<u8>, i: int, e: Seq<u8>, a: int, b: Seq<u8>)
    requires
        0 <= i,
        i + e.len() <= s.len(),
        s.subrange(i, i + e.len() as int) == e,
        0 <= a,
        a + b.len() <= e.len(),
        forall|j: int| 0 <= j < b.len() ==> e[a + j] == #[trigger] b[j],
    ensures
        s.subrange(i + a, i + a + b.len() as int) == b,
{
    lemma_bytes_of_subrange(s, i, e);
    assert(s.subrange(i + a, i + a + b.len() as int) =~= b) by {
        assert forall|j: int| 0 <= j < b.len() implies #[trigger] s.subrange(
            i + a,
            i + a + b.len() as int,
        )[j] == b[j] by {
            assert(s.subrange(i + a, i + a + b.len() as int)[j] == s[i + a + j]);
            assert(s[i + a + j] == e[a + j]);
        }
    }
}

/// The token at the start of an encoded string is that string, spanning
/// exactly the encoding.
proof fn lemma_scan_token_string(s: Seq<u8>, i: int, cs: Seq<char>)
    requires
        ascii_chars(cs),
        0 <= i,
        i + enc_string(cs).len() <= s.len(),
        s.subrange(i, i + enc_string(cs).len() as int) == enc_string(cs),
    ensures
        scan_token(s, i) == (Scan {
            kind: TokenModel::Str(cs),
            start: i,
            end: i + enc_string(cs).len() as int,
        }),
{
    let e = enc_string(cs);
    lemma_bytes_of_subrange(s, i, e);
    assert(s[i + 0] == e[0]);
    assert(e[0] == 0x22);
    assert(s[i] == 0x22);
    assert(!is_ws(s[i]));
    assert(skip_ws(s, i) == i);
    lemma_chunk_subrange(s, i, e, 1, enc_chars(cs) + seq![0x22u8]);
    lemma_scan_string_encoded(s, i + 1, cs, Seq::empty());
    assert(Seq::<char>::empty() + cs =~= cs);
}

/// The token at the start of an encoded number, with no digit right after
/// it, is that number, spanning exactly the encoding.
proof fn lemma_scan_token_number(s: Seq<u8>, i: int, n: Number)
    requires
        0 <= i,
        i + enc_number(n).len() <= s.len(),
        s.subrange(i, i + enc_number(n).len() as int) == enc_number(n),
        -(EXP_CAP as int) <= n.exp <= EXP_CAP,
        i + enc_number(n).len() == s.len() || !is_digit(s[i + enc_number(n).len()]),
    ensures
        scan_token(s, i) == (Scan {
            kind: TokenModel::Num(n),
            start: i,
            end: i + enc_number(n).len() as int,
        }),
{
    let e = enc_number(n);
    lemma_bytes_of_subrange(s, i, e);
    lemma_dec_digits_are_digits(n.sig as nat);
    assert(s[i + 0] == e[0]);
    if n.neg {
        assert(e[0] == 0x2D);
        assert(s[i] == 0x2D);
    } else {
        assert(e[0] == dec_digits(n.sig as nat)[0]);
        assert(is_digit(s[i]));
    }
    assert(!is_ws(s[i]));
    assert(skip_ws(s, i) == i);
    lemma_scan_number_encoded(s, i, n);
}

pub proof fn lemma_enc_pairs_ok_index(pairs: Seq<(Seq<char>, ValueModel)>)
    requires
        enc_pairs_ok(pairs),
    ensures
        forall|i: int| 0 <= i < pairs.len() ==> ascii_chars((#[trigger] pairs[i]).0) && encodable(
            pairs[i].1,
        ),
    decreases pairs.len(),
{
    if pairs.len() > 0 {
        lemma_enc_pairs_ok_index(pairs.drop_first());
        assert forall|i: int| 0 <= i < pairs.len() implies ascii_chars((#[trigger] pairs[i]).0)
            && encodable(pairs[i].1) by {
            if i > 0 {
                assert(pairs.drop_first()[i - 1] == pairs[i]);
            }
        }
    }
}

pub proof fn lemma_enc_items_ok_index(items: Seq<ValueModel>)
    requires
        enc_items_ok(items),
    ensures
        forall|i: int| 0 <= i < items.len() ==> encodable(#[trigger] items[i]),
    decreases items.len(),
{
    if items.len() > 0 {
        lemma_enc_items_ok_index(items.drop_first());
        assert forall|i: int| 0 <= i < items.len() implies encodable(#[trigger] items[i]) by {
            if i > 0 {
                assert(items.drop_first()[i - 1] == items[i]);
            }
        }
    }
}

/// Every encoding covers at least one byte, and begins with a byte that is
/// neither whitespace nor a digit nor a delimiter.
pub proof fn lemma_enc_value_len(m: ValueModel)
    ensures
        enc_value(m).len() >= 1,
{
    if m is Num {
        lemma_dec_digits_are_digits(m->Num_0.sig as nat);
    }
}

/// Parsing an encoded value at `pos`, with a delimiter or the end of the
/// buffer right after it, yields exactly that value.
#[verifier::rlimit(60)]
pub proof fn lemma_parse_value_encoded(s: Seq<u8>, pos: int, m: ValueModel)
    requires
        model_wf(m),
        encodable(m),
        0 <= pos,
        pos + enc_value(m).len() <= s.len(),
        s.subrange(pos, pos + enc_value(m).len() as int) == enc_value(m),
        pos + enc_value(m).len() == s.len() || is_delim(s[pos + enc_value(m).len()]),
    ensures
        sp_value(s, pos) == PRes::Done(m, pos + enc_value(m).len() as int),
    decreases m, 0int, 0int,
{
    let e = enc_value(m);
    let end = pos + e.len() as int;
    lemma_bytes_of_subrange(s, pos, e);
    match m {
        ValueModel::Str(cs) => {
            lemma_scan_token_string(s, pos, cs);
        },
        ValueModel::Num(n) => {
            assert(end == s.len() || !is_digit(s[end]));
            lemma_scan_token_number(s, pos, n);
        },
        ValueModel::Bool(b) => {
            if b {
                assert(s[pos + 0] == 0x74 && s[pos + 1] == 0x72 && s[pos + 2] == 0x75 && s[pos + 3]
                    == 0x65);
                assert(skip_ws(s, pos) == pos);
                assert(scan_token(s, pos) == (Scan {
                    kind: TokenModel::Bool(true),
                    start: pos,
                    end,
                }));
            } else {
                assert(s[pos + 0] == 0x66 && s[pos + 1] == 0x61 && s[pos + 2] == 0x6C && s[pos + 3]
                    == 0x73 && s[pos + 4] == 0x65);
                assert(skip_ws(s, pos) == pos);
                assert(scan_token(s, pos) == (Scan {
                    kind: TokenModel::Bool(false),
                    start: pos,
                    end,
                }));
            }
        },
        ValueModel::Null => {
            assert(s[pos + 0] == 0x6E && s[pos + 1] == 0x75 && s[pos + 2] == 0x6C && s[pos + 3]
                == 0x6C);
            assert(skip_ws(s, pos) == pos);
            assert(scan_token(s, pos) == (Scan { kind: TokenModel::Null, start: pos, end }));
        },
        ValueModel::Obj(pairs) => {
            assert(e[0] == 0x7Bu8);
            assert(s[pos + 0] == e[0]);
            assert(s[pos + 0] == 0x7B);
            assert(skip_ws(s, pos) == pos);
            assert(scan_token(s, pos) == (Scan {
                kind: TokenModel::LeftBrace,
                start: pos,
                end: pos + 1,
            }));
            lemma_chunk_subrange(s, pos, e, 1, enc_obj_body(pairs));
            lemma_parse_object_encoded(s, pos + 1, pairs);
        },
        ValueModel::Arr(items) => {
            assert(e[0] == 0x5Bu8);
            assert(s[pos + 0] == e[0]);
            assert(s[pos + 0] == 0x5B);
            assert(skip_ws(s, pos) == pos);
            assert(scan_token(s, pos) == (Scan {
                kind: TokenModel::LeftBracket,
                start: pos,
                end: pos + 1,
            }));
            lemma_chunk_subrange(s, pos, e, 1, enc_arr_body(items));
            lemma_parse_array_encoded(s, pos + 1, items);
        },
    }
}

/// Parsing an encoded object body after its opening brace yields exactly
/// its pairs.
#[verifier::rlimit(60)]
proof fn lemma_parse_object_encoded(s: Seq<u8>, q: int, pairs: Seq<(Seq<char>, ValueModel)>)
    requires
        keys_unique(pairs),
        pairs_wf(pairs),
        enc_pairs_ok(pairs),
        0 <= q,
        q + enc_obj_body(pairs).len() <= s.len(),
        s.subrange(q, q + enc_obj_body(pairs).len() as int) == enc_obj_body(pairs),
    ensures
        sp_object(s, q) == PRes::Done(pairs, q + enc_obj_body(pairs).len() as int),
    decreases pairs, 2int, 0int,
{
    let e = enc_obj_body(pairs);
    let end = q + e.len() as int;
    lemma_bytes_of_subrange(s, q, e);
    if pairs.len() == 0 {
        assert(e[0] == 0x7Du8);
        assert(s[q + 0] == e[0]);
        assert(s[q + 0] == 0x7D);
        assert(skip_ws(s, q) == q);
        assert(scan_token(s, q) == (Scan { kind: TokenModel::RightBrace, start: q, end: q + 1 }));
        assert(pairs =~= Seq::<(Seq<char>, ValueModel)>::empty());
    } else {
        let k0 = pairs[0].0;
        let v0 = pairs[0].1;
        let ks = enc_string(k0);
        let klen = ks.len() as int;
        let vs = enc_value(v0);
        let vlen = vs.len() as int;
        let tail = enc_pairs_from(pairs, 1);
        assert(ascii_chars(k0) && encodable(v0));
        assert(model_wf(v0));
        lemma_chunk_subrange(s, q, e, 0, ks);
        lemma_scan_token_string(s, q, k0);
        let a1 = klen;
        assert(e[a1] == 0x3Au8);
        assert(s[q + a1] == e[a1]);
        assert(s[q + a1] == 0x3A);
        assert(skip_ws(s, q + a1) == q + a1);
        assert(scan_token(s, q + a1) == (Scan {
            kind: TokenModel::Colon,
            start: q + a1,
            end: q + a1 + 1,
        }));
        let a2 = a1 + 1;
        lemma_chunk_subrange(s, q, e, a2, vs);
        assert(e[a2 + vlen] == tail[0]);
        assert(tail[0] == 0x2C || tail[0] == 0x7D);
        assert(is_delim(s[q + a2 + vlen]));
        lemma_parse_value_encoded(s, q + a2, v0);
        lemma_enc_value_len(v0);
        let p = q + a2 + vlen;
        assert(obj_insert(Seq::empty(), k0, v0) =~= pairs.subrange(0, 1));
        lemma_chunk_subrange(s, q, e, a2 + vlen, tail);
        lemma_parse_pairs_encoded(s, p, pairs, 1);
        assert(end == p + tail.len());
    }
}

/// Parsing the rest of an encoded object, the first `idx` pairs already
/// assembled, yields all its pairs.
#[verifier::rlimit(60)]
proof fn lemma_parse_pairs_encoded(
    s: Seq<u8>,
    q: int,
    pairs: Seq<(Seq<char>, ValueModel)>,
    idx: int,
)
    requires
        keys_unique(pairs),
        pairs_wf(pairs),
        enc_pairs_ok(pairs),
        1 <= idx <= pairs.len(),
        0 <= q,
        q + enc_pairs_from(pairs, idx).len() <= s.len(),
        s.subrange(q, q + enc_pairs_from(pairs, idx).len() as int) == enc_pairs_from(pairs, idx),
    ensures
        sp_pairs(s, q, pairs.subrange(0, idx)) == PRes::Done(
            pairs,
            q + enc_pairs_from(pairs, idx).len() as int,
        ),
    decreases pairs, 1int, pairs.len() - idx,
{
    let e = enc_pairs_from(pairs, idx);
    let end = q + e.len() as int;
    lemma_bytes_of_subrange(s, q, e);
    if idx >= pairs.len() {
        assert(e[0] == 0x7Du8);
        assert(s[q + 0] == e[0]);
        assert(s[q + 0] == 0x7D);
        assert(skip_ws(s, q) == q);
        assert(scan_token(s, q) == (Scan { kind: TokenModel::RightBrace, start: q, end: q + 1 }));
        assert(pairs.subrange(0, idx) =~= pairs);
    } else {
        let k = pairs[idx].0;
        let v = pairs[idx].1;
        lemma_enc_pairs_ok_index(pairs);
        lemma_pairs_wf_iff(pairs);
        assert(ascii_chars(k) && encodable(v) && model_wf(v));
        let ks = enc_string(k);
        let klen = ks.len() as int;
        let vs = enc_value(v);
        let vlen = vs.len() as int;
        let tail = enc_pairs_from(pairs, idx + 1);
        assert(e[0] == 0x2Cu8);
        assert(s[q + 0] == e[0]);
        assert(s[q + 0] == 0x2C);
        assert(skip_ws(s, q) == q);
        assert(scan_token(s, q) == (Scan { kind: TokenModel::Comma, start: q, end: q + 1 }));
        lemma_chunk_subrange(s, q, e, 1, ks);
        lemma_scan_token_string(s, q + 1, k);
        let a1 = 1 + klen;
        assert(e[a1] == 0x3Au8);
        assert(s[q + a1] == e[a1]);
        assert(s[q + a1] == 0x3A);
        assert(skip_ws(s, q + a1) == q + a1);
        assert(scan_token(s, q + a1) == (Scan {
            kind: TokenModel::Colon,
            start: q + a1,
            end: q + a1 + 1,
        }));
        let a2 = a1 + 1;
        lemma_chunk_subrange(s, q, e, a2, vs);
        assert(e[a2 + vlen] == tail[0]);
        assert(tail[0] == 0x2C || tail[0] == 0x7D);
        assert(is_delim(s[q + a2 + vlen]));
        lemma_parse_value_encoded(s, q + a2, v);
        lemma_enc_value_len(v);
        let p = q + a2 + vlen;
        assert forall|j: int| 0 <= j < idx implies (#[trigger] pairs.subrange(0, idx)[j]).0
            != k by {
            assert(pairs.subrange(0, idx)[j] == pairs[j]);
            assert(pairs[j].0 != pairs[idx].0);
        }
        lemma_obj_insert_absent(pairs.subrange(0, idx), k, v);
        assert(pairs.subrange(0, idx).push((k, v)) =~= pairs.subrange(0, idx + 1));
        lemma_chunk_subrange(s, q, e, a2 + vlen, tail);
        lemma_parse_pairs_encoded(s, p, pairs, idx + 1);
        assert(end == p + tail.len());
    }
}

/// Parsing an encoded array body after its opening bracket yields exactly
/// its items.
#[verifier::rlimit(60)]
proof fn lemma_parse_array_encoded(s: Seq<u8>, q: int, items: Seq<ValueModel>)
    requires
        arr_wf(items),
        enc_items_ok(items),
        0 <= q,
        q + enc_arr_body(items).len() <= s.len(),
        s.subrange(q, q + enc_arr_body(items).len() as int) == enc_arr_body(items),
    ensures
        sp_array(s, q) == PRes::Done(items, q + enc_arr_body(items).len() as int),
    decreases items, 2int, 0int,
{
    let e = enc_arr_body(items);
    let end = q + e.len() as int;
    lemma_bytes_of_subrange(s, q, e);
    if items.len() == 0 {
        assert(e[0] == 0x5Du8);
        assert(s[q + 0] == e[0]);
        assert(s[q + 0] == 0x5D);
        assert(skip_ws(s, q) == q);
        assert(scan_token(s, q) == (Scan { kind: TokenModel::RightBracket, start: q, end: q + 1 }));
        assert(items =~= Seq::<ValueModel>::empty());
    } else {
        let m0 = items[0];
        assert(encodable(m0));
        assert(model_wf(m0));
        let vs = enc_value(m0);
        let vlen = vs.len() as int;
        let tail = enc_items_from(items, 1);
        lemma_chunk_subrange(s, q, e, 0, vs);
        assert(e[vlen] == tail[0]);
        assert(tail[0] == 0x2C || tail[0] == 0x5D);
        assert(is_delim(s[q + vlen]));
        lemma_enc_value_len(m0);
        let p = q + vlen;
        lemma_chunk_subrange(s, q, e, vlen, tail);
        assert(seq![m0] =~= items.subrange(0, 1));
        match m0 {
            ValueModel::Str(cs) => {
                lemma_scan_token_string(s, q, cs);
                lemma_parse_elems_encoded(s, p, items, 1);
            },
            ValueModel::Num(n) => {
                assert(!is_digit(s[p]));
                lemma_scan_token_number(s, q, n);
                lemma_parse_elems_encoded(s, p, items, 1);
            },
            ValueModel::Bool(b) => {
                lemma_bytes_of_subrange(s, q, vs);
                assert(s[q + 0] == vs[0]);
                if b {
                    assert(vs[0] == 0x74u8);
                    assert(s[q + 0] == 0x74 && s[q + 1] == 0x72 && s[q + 2] == 0x75 && s[q + 3]
                        == 0x65);
                    assert(skip_ws(s, q) == q);
                    assert(scan_token(s, q) == (Scan {
                        kind: TokenModel::Bool(true),
                        start: q,
                        end: p,
                    }));
                } else {
                    assert(vs[0] == 0x66u8);
                    assert(s[q + 0] == 0x66 && s[q + 1] == 0x61 && s[q + 2] == 0x6C && s[q + 3]
                        == 0x73 && s[q + 4] == 0x65);
                    assert(skip_ws(s, q) == q);
                    assert(scan_token(s, q) == (Scan {
                        kind: TokenModel::Bool(false),
                        start: q,
                        end: p,
                    }));
                }
                lemma_parse_elems_encoded(s, p, items, 1);
            },
            ValueModel::Null => {
                lemma_bytes_of_subrange(s, q, vs);
                assert(s[q + 0] == vs[0]);
                assert(vs[0] == 0x6Eu8);
                assert(s[q + 0] == 0x6E && s[q + 1] == 0x75 && s[q + 2] == 0x6C && s[q + 3]
                    == 0x6C);
                assert(skip_ws(s, q) == q);
                assert(scan_token(s, q) == (Scan { kind: TokenModel::Null, start: q, end: p }));
                lemma_parse_elems_encoded(s, p, items, 1);
            },
            ValueModel::Obj(op) => {
                lemma_bytes_of_subrange(s, q, vs);
                assert(vs[0] == 0x7Bu8);
                assert(s[q + 0] == vs[0]);
                assert(s[q + 0] == 0x7B);
                assert(skip_ws(s, q) == q);
                assert(scan_token(s, q) == (Scan {
                    kind: TokenModel::LeftBrace,
                    start: q,
                    end: q + 1,
                }));
                lemma_chunk_subrange(s, q, e, 1, enc_obj_body(op));
                lemma_parse_object_encoded(s, q + 1, op);
                lemma_parse_elems_encoded(s, p, items, 1);
            },
            ValueModel::Arr(ia) => {
                lemma_bytes_of_subrange(s, q, vs);
                assert(vs[0] == 0x5Bu8);
                assert(s[q + 0] == vs[0]);
                assert(s[q + 0] == 0x5B);
                assert(skip_ws(s, q) == q);
                assert(scan_token(s, q) == (Scan {
                    kind: TokenModel::LeftBracket,
                    start: q,
                    end: q + 1,
                }));
                lemma_chunk_subrange(s, q, e, 1, enc_arr_body(ia));
                lemma_parse_array_encoded(s, q + 1, ia);
                lemma_parse_elems_encoded(s, p, items, 1);
            },
        }
    }
}

/// Parsing the rest of an encoded array, the first `idx` items already
/// assembled, yields all its items.
#[verifier::rlimit(60)]
proof fn lemma_parse_elems_encoded(s: Seq<u8>, q: int, items: Seq<ValueModel>, idx: int)
    requires
        arr_wf(items),
        enc_items_ok(items),
        1 <= idx <= items.len(),
        0 <= q,
        q + enc_items_from(items, idx).len() <= s.len(),
        s.subrange(q, q + enc_items_from(items, idx).len() as int) == enc_items_from(items, idx),
    ensures
        sp_elems(s, q, items.subrange(0, idx)) == PRes::Done(
            items,
            q + enc_items_from(items, idx).len() as int,
        ),
    decreases items, 1int, items.len() - idx,
{
    let e = enc_items_from(items, idx);
    let end = q + e.len() as int;
    lemma_bytes_of_subrange(s, q, e);
    if idx >= items.len() {
        assert(e[0] == 0x5Du8);
        assert(s[q + 0] == e[0]);
        assert(s[q + 0] == 0x5D);
        assert(skip_ws(s, q) == q);
        assert(scan_token(s, q) == (Scan { kind: TokenModel::RightBracket, start: q, end: q + 1 }));
        assert(items.subrange(0, idx) =~= items);
    } else {
        let v = items[idx];
        lemma_enc_items_ok_index(items);
        lemma_arr_wf_iff(items);
        assert(encodable(v) && model_wf(v));
        let vs = enc_value(v);
        let vlen = vs.len() as int;
        let tail = enc_items_from(items, idx + 1);
        assert(e[0] == 0x2Cu8);
        assert(s[q + 0] == e[0]);
        assert(s[q + 0] == 0x2C);
        assert(skip_ws(s, q) == q);
        assert(scan_token(s, q) == (Scan { kind: TokenModel::Comma, start: q, end: q + 1 }));
        lemma_chunk_subrange(s, q, e, 1, vs);
        assert(e[1 + vlen] == tail[0]);
        assert(tail[0] == 0x2C || tail[0] == 0x5D);
        assert(is_delim(s[q + 1 + vlen]));
        lemma_parse_value_encoded(s, q + 1, v);
        lemma_enc_value_len(v);
        let p = q + 1 + vlen;
        assert(items.subrange(0, idx).push(v) =~= items.subrange(0, idx + 1));
        lemma_chunk_subrange(s, q, e, 1 + vlen, tail);
        lemma_parse_elems_encoded(s, p, items, idx + 1);
        assert(end == p + tail.len());
    }
}

/// The round-trip law: a well-formed value within the encodable class,
/// serialized by a conformant encoder, parses back to an equal tree.  The
/// executable parser returns exactly what [`sp_goal`] assigns to its
/// buffer, so this carries over to every run of it on an encoded buffer.
pub proof fn lemma_round_trip(m: ValueModel)
    requires
        model_wf(m),
        encodable(m),
    ensures
        sp_goal(enc_value(m), 0) == Ok::<ValueModel, Scan>(m),
{
    let s = enc_value(m);
    lemma_enc_value_len(m);
    assert(s.subrange(0, s.len() as int) =~= s);
    lemma_parse_value_encoded(s, 0, m);
    crate::lex::lemma_end_idempotent(s);
}

} // verus!
