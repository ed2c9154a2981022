use minijson::json::Number;
use minijson::lex::{Lex, Token, TokenKind};

fn num(neg: bool, sig: u64, exp: i64) -> TokenKind {
    TokenKind::Number(Number { neg, sig, exp })
}

#[test]
fn simple() {
    let s = r#"{ "foo": 3, "bar": ["baz", -5.8], "qux": 13e5 }"#;
    let mut lex = Lex::new(s);

    assert_eq!(lex.token(), Token { start: 0, end: 1, kind: TokenKind::LeftBrace });

    let foo = String::from("foo");
    assert_eq!(lex.token(), Token { start: 2, end: 7, kind: TokenKind::String(foo) });
    assert_eq!(lex.token(), Token { start: 7, end: 8, kind: TokenKind::Colon });
    assert_eq!(lex.token(), Token { start: 9, end: 10, kind: num(false, 3, 0) });
    assert_eq!(lex.token(), Token { start: 10, end: 11, kind: TokenKind::Comma });

    let bar = String::from("bar");
    assert_eq!(lex.token(), Token { start: 12, end: 17, kind: TokenKind::String(bar) });
    assert_eq!(lex.token(), Token { start: 17, end: 18, kind: TokenKind::Colon });

    assert_eq!(lex.token(), Token { start: 19, end: 20, kind: TokenKind::LeftBracket });
    let baz = String::from("baz");
    assert_eq!(lex.token(), Token { start: 20, end: 25, kind: TokenKind::String(baz) });
    assert_eq!(lex.token(), Token { start: 25, end: 26, kind: TokenKind::Comma });
    assert_eq!(lex.token(), Token { start: 27, end: 31, kind: num(true, 58, -1) });
    assert_eq!(lex.token(), Token { start: 31, end: 32, kind: TokenKind::RightBracket });
    assert_eq!(lex.token(), Token { start: 32, end: 33, kind: TokenKind::Comma });

    let qux = String::from("qux");
    assert_eq!(lex.token(), Token { start: 34, end: 39, kind: TokenKind::String(qux) });
    assert_eq!(lex.token(), Token { start: 39, end: 40, kind: TokenKind::Colon });
    assert_eq!(lex.token(), Token { start: 41, end: 45, kind: num(false, 13, 5) });

    assert_eq!(lex.token(), Token { start: 46, end: 47, kind: TokenKind::RightBrace });
}

fn all_tokens(s: &str) -> Vec<Token> {
    let mut lex = Lex::new(s);
    let mut out = Vec::new();
    loop {
        let t = lex.token();
        let done = t.kind == TokenKind::End;
        out.push(t);
        if done {
            return out;
        }
    }
}

#[test]
fn lexing_twice_is_identical() {
    let s = r#"{ "a": [1, -2.5e3, "A"], "b": null, "c": truex @ }"#;
    assert_eq!(all_tokens(s), all_tokens(s));
}

#[test]
fn end_is_idempotent() {
    let mut lex = Lex::new("  ");
    assert_eq!(lex.token(), Token { start: 2, end: 2, kind: TokenKind::End });
    assert_eq!(lex.token(), Token { start: 2, end: 2, kind: TokenKind::End });
    assert_eq!(lex.token(), Token { start: 2, end: 2, kind: TokenKind::End });
}

#[test]
fn garbage_advances_one_byte_at_a_time() {
    let mut lex = Lex::new("@#");
    assert_eq!(lex.token(), Token { start: 0, end: 1, kind: TokenKind::Error });
    assert_eq!(lex.token(), Token { start: 1, end: 2, kind: TokenKind::Error });
    assert_eq!(lex.token(), Token { start: 2, end: 2, kind: TokenKind::End });
}

#[test]
fn keyword_must_match_exactly() {
    // "truex" begins with the literal "true"; the trailing byte is its own
    // error token, one byte at a time
    let mut lex = Lex::new("truex nul");
    assert_eq!(lex.token(), Token { start: 0, end: 4, kind: TokenKind::Bool(true) });
    assert_eq!(lex.token(), Token { start: 4, end: 5, kind: TokenKind::Error });
    assert_eq!(lex.token(), Token { start: 6, end: 7, kind: TokenKind::Error });
    assert_eq!(lex.token(), Token { start: 7, end: 8, kind: TokenKind::Error });
    assert_eq!(lex.token(), Token { start: 8, end: 9, kind: TokenKind::Error });
    assert_eq!(lex.token(), Token { start: 9, end: 9, kind: TokenKind::End });
}

#[test]
fn unterminated_string_is_one_error() {
    let mut lex = Lex::new("\"abc");
    assert_eq!(lex.token(), Token { start: 0, end: 4, kind: TokenKind::Error });
    assert_eq!(lex.token(), Token { start: 4, end: 4, kind: TokenKind::End });
}

#[test]
fn number_with_missing_digits_is_an_error() {
    // a minus sign alone: the error spans the consumed sign byte
    let mut lex = Lex::new("-x");
    assert_eq!(lex.token(), Token { start: 0, end: 1, kind: TokenKind::Error });
    assert_eq!(lex.token(), Token { start: 1, end: 2, kind: TokenKind::Error });

    // a point with no digits after it
    let mut lex = Lex::new("1.");
    assert_eq!(lex.token(), Token { start: 0, end: 2, kind: TokenKind::Error });

    // an exponent with no digits after it
    let mut lex = Lex::new("1e+");
    assert_eq!(lex.token(), Token { start: 0, end: 3, kind: TokenKind::Error });
}

#[test]
fn leading_zero_splits_the_number() {
    let mut lex = Lex::new("01");
    assert_eq!(lex.token(), Token { start: 0, end: 1, kind: num(false, 0, 0) });
    assert_eq!(lex.token(), Token { start: 1, end: 2, kind: num(false, 1, 0) });
}

#[test]
fn number_forms() {
    let mut lex = Lex::new("0 -0 3.14 13e5 2E-3 7e+2 1.25e2");
    assert_eq!(lex.token().kind, num(false, 0, 0));
    assert_eq!(lex.token().kind, num(true, 0, 0));
    assert_eq!(lex.token().kind, num(false, 314, -2));
    assert_eq!(lex.token().kind, num(false, 13, 5));
    assert_eq!(lex.token().kind, num(false, 2, -3));
    assert_eq!(lex.token().kind, num(false, 7, 2));
    assert_eq!(lex.token().kind, num(false, 125, 0));
    assert_eq!(lex.token().kind, TokenKind::End);
}

#[test]
fn huge_exponents_saturate() {
    // explicit exponents stop growing once they pass the cap, far beyond
    // the range any finite binary float could distinguish
    let mut lex = Lex::new("1e99999999");
    assert_eq!(lex.token().kind, num(false, 1, 9999999));
    let mut lex = Lex::new("1e-99999999");
    assert_eq!(lex.token().kind, num(false, 1, -9999999));
}

#[test]
fn long_significands_wrap_modulo_two_to_the_64() {
    // 2^64 + 3 wraps to 3 in the 64-bit significand
    let mut lex = Lex::new("18446744073709551619");
    assert_eq!(lex.token().kind, num(false, 3, 0));
}

#[test]
fn simple_escapes_decode() {
    let mut lex = Lex::new(r#""a\"b\\c\/d\be\ff\ng\rh\ti""#);
    assert_eq!(
        lex.token().kind,
        TokenKind::String(String::from("a\"b\\c/d\u{8}e\u{c}f\ng\rh\ti"))
    );
}

#[test]
fn unrecognized_escape_passes_the_backslash_through() {
    let mut lex = Lex::new(r#""a\qb""#);
    assert_eq!(lex.token().kind, TokenKind::String(String::from("a\\qb")));
}

#[test]
fn incomplete_unicode_escape_consumes_its_hex_digits_only() {
    // two valid hex digits, then a byte that is no hex digit: the escape
    // decodes to U+FFFD and scanning resumes at that byte
    let mut lex = Lex::new(r#""\u00g1""#);
    assert_eq!(lex.token().kind, TokenKind::String(String::from("\u{FFFD}g1")));
}

#[test]
fn multibyte_text_is_copied_through() {
    let s = "\"h\u{e9}llo \u{1F600}\"";
    let mut lex = Lex::new(s);
    assert_eq!(lex.token().kind, TokenKind::String(String::from("h\u{e9}llo \u{1F600}")));
}
