//! The parser: assembles tokens into a value tree.
//!
//! Parsing is specified by the pure functions [`sp_value`], [`sp_object`],
//! [`sp_pairs`], [`sp_array`], [`sp_elems`] and [`sp_goal`] over the byte
//! sequence, one per grammar position:
//!
//! ```text
//! value    = STRING | NUMBER | BOOL | NULL | object | array
//! object   = '{' '}' | '{' pairs '}'
//! pairs    = pair | pairs ',' pair
//! pair     = STRING ':' value
//! array    = '[' ']' | '[' elements ']'
//! elements = value | elements ',' value
//! ```
//!
//! The executable parser is proved to return exactly what those functions
//! assign to the buffer: one value covering the whole buffer up to trailing
//! whitespace, or the first unexpected token.  There is no recovery: the
//! first token the grammar does not accept fails the whole parse.

use vstd::prelude::*;
use vstd::string::StringSliceAdditionalSpecFns;

use crate::json::{
    arr_wf, insert_pair, items_model, lemma_arr_wf_iff, lemma_items_model_snoc,
    lemma_obj_insert_preserves_wf, lemma_pairs_model_snoc, model_wf, obj_insert, pairs_model,
    pairs_wf, value_model, Array, Object, Value, ValueModel,
};
use crate::lex::{
    lemma_scan_token_range, scan_token, Lex, Scan, Token, TokenKind, TokenModel,
};

verus! {

/// An unexpected token: the parse failed at this token.
#[derive(Debug, PartialEq)]
pub struct ParseError {
    pub token: Token,
}

impl View for ParseError {
    type V = Scan;

    open spec fn view(&self) -> Scan {
        self.token@
    }
}

/// The outcome of parsing one construct starting at some position: the
/// model of the construct and the position after it, or the token at which
/// the grammar failed.
pub enum PRes<T> {
    Done(T, int),
    Fail(Scan),
}

/// A `value` starting at `pos`.
pub open spec fn sp_value(s: Seq<u8>, pos: int) -> PRes<ValueModel>
    decreases s.len() - pos, 1int,
    when 0 <= pos <= s.len()
{
    let t = scan_token(s, pos);
    match t.kind {
        TokenModel::Str(cs) => PRes::Done(ValueModel::Str(cs), t.end),
        TokenModel::Num(n) => PRes::Done(ValueModel::Num(n), t.end),
        TokenModel::Bool(b) => PRes::Done(ValueModel::Bool(b), t.end),
        TokenModel::Null => PRes::Done(ValueModel::Null, t.end),
        TokenModel::LeftBrace => {
            proof {
                lemma_scan_token_range(s, pos);
            }
            match sp_object(s, t.end) {
                PRes::Done(pairs, p) => PRes::Done(ValueModel::Obj(pairs), p),
                PRes::Fail(e) => PRes::Fail(e),
            }
        },
        TokenModel::LeftBracket => {
            proof {
                lemma_scan_token_range(s, pos);
            }
            match sp_array(s, t.end) {
                PRes::Done(items, p) => PRes::Done(ValueModel::Arr(items), p),
                PRes::Fail(e) => PRes::Fail(e),
            }
        },
        _ => PRes::Fail(t),
    }
}

/// The rest of an `object`, after the opening brace: a closing brace, or a
/// first `STRING ':' value` pair and then [`sp_pairs`].
pub open spec fn sp_object(s: Seq<u8>, pos: int) -> PRes<Seq<(Seq<char>, ValueModel)>>
    decreases s.len() - pos, 2int,
    when 0 <= pos <= s.len()
{
    let t = scan_token(s, pos);
    match t.kind {
        TokenModel::RightBrace => PRes::Done(Seq::empty(), t.end),
        TokenModel::Str(k) => {
            proof {
                lemma_scan_token_range(s, pos);
            }
            let c = scan_token(s, t.end);
            if c.kind is Colon {
                proof {
                    lemma_scan_token_range(s, t.end);
                }
                match sp_value(s, c.end) {
                    PRes::Done(v, p) => if c.end < p <= s.len() {
                        sp_pairs(s, p, obj_insert(Seq::empty(), k, v))
                    } else {
                        // never reached — lemma_sp_value_in_range: a parsed
                        // value ends ahead of its start, inside the buffer
                        PRes::Fail(scan_token(s, c.end))
                    },
                    PRes::Fail(e) => PRes::Fail(e),
                }
            } else {
                PRes::Fail(c)
            }
        },
        _ => PRes::Fail(t),
    }
}

/// The rest of an `object` after at least one pair, whose pairs so far are
/// `acc`: a closing brace ends it, a comma demands another pair.
pub open spec fn sp_pairs(s: Seq<u8>, pos: int, acc: Seq<(Seq<char>, ValueModel)>) -> PRes<
    Seq<(Seq<char>, ValueModel)>,
>
    decreases s.len() - pos, 2int,
    when 0 <= pos <= s.len()
{
    let t = scan_token(s, pos);
    match t.kind {
        TokenModel::RightBrace => PRes::Done(acc, t.end),
        TokenModel::Comma => {
            proof {
                lemma_scan_token_range(s, pos);
            }
            let kt = scan_token(s, t.end);
            match kt.kind {
                TokenModel::Str(k) => {
                    proof {
                        lemma_scan_token_range(s, t.end);
                    }
                    let c = scan_token(s, kt.end);
                    if c.kind is Colon {
                        proof {
                            lemma_scan_token_range(s, kt.end);
                        }
                        match sp_value(s, c.end) {
                            PRes::Done(v, p) => if c.end < p <= s.len() {
                                sp_pairs(s, p, obj_insert(acc, k, v))
                            } else {
                                // never reached — lemma_sp_value_in_range
                                PRes::Fail(scan_token(s, c.end))
                            },
                            PRes::Fail(e) => PRes::Fail(e),
                        }
                    } else {
                        PRes::Fail(c)
                    }
                },
                _ => PRes::Fail(kt),
            }
        },
        _ => PRes::Fail(t),
    }
}

/// The rest of an `array`, after the opening bracket: a closing bracket,
/// or a first element and then [`sp_elems`].  The first token is dispatched
/// here exactly as [`sp_value`] would.
pub open spec fn sp_array(s: Seq<u8>, pos: int) -> PRes<Seq<ValueModel>>
    decreases s.len() - pos, 2int,
    when 0 <= pos <= s.len()
{
    let t = scan_token(s, pos);
    match t.kind {
        TokenModel::RightBracket => PRes::Done(Seq::empty(), t.end),
        TokenModel::Str(cs) => {
            proof {
                lemma_scan_token_range(s, pos);
            }
            sp_elems(s, t.end, seq![ValueModel::Str(cs)])
        },
        TokenModel::Num(n) => {
            proof {
                lemma_scan_token_range(s, pos);
            }
            sp_elems(s, t.end, seq![ValueModel::Num(n)])
        },
        TokenModel::Bool(b) => {
            proof {
                lemma_scan_token_range(s, pos);
            }
            sp_elems(s, t.end, seq![ValueModel::Bool(b)])
        },
        TokenModel::Null => {
            proof {
                lemma_scan_token_range(s, pos);
            }
            sp_elems(s, t.end, seq![ValueModel::Null])
        },
        TokenModel::LeftBrace => {
            proof {
                lemma_scan_token_range(s, pos);
            }
            match sp_object(s, t.end) {
                PRes::Done(pairs, p) => if t.end < p <= s.len() {
                    sp_elems(s, p, seq![ValueModel::Obj(pairs)])
                } else {
                    // never reached — lemma_sp_object_in_range
                    PRes::Fail(scan_token(s, t.end))
                },
                PRes::Fail(e) => PRes::Fail(e),
            }
        },
        TokenModel::LeftBracket => {
            proof {
                lemma_scan_token_range(s, pos);
            }
            match sp_array(s, t.end) {
                PRes::Done(items, p) => if t.end < p <= s.len() {
                    sp_elems(s, p, seq![ValueModel::Arr(items)])
                } else {
                    // never reached — lemma_sp_array_in_range
                    PRes::Fail(scan_token(s, t.end))
                },
                PRes::Fail(e) => PRes::Fail(e),
            }
        },
        _ => PRes::Fail(t),
    }
}

/// The rest of an `array` after at least one element, whose elements so far
/// are `acc`: a closing bracket ends it, a comma demands another element.
pub open spec fn sp_elems(s: Seq<u8>, pos: int, acc: Seq<ValueModel>) -> PRes<Seq<ValueModel>>
    decreases s.len() - pos, 2int,
    when 0 <= pos <= s.len()
{
    let t = scan_token(s, pos);
    match t.kind {
        TokenModel::RightBracket => PRes::Done(acc, t.end),
        TokenModel::Comma => {
            proof {
                lemma_scan_token_range(s, pos);
            }
            match sp_value(s, t.end) {
                PRes::Done(v, p) => if t.end < p <= s.len() {
                    sp_elems(s, p, acc.push(v))
                } else {
                    // never reached — lemma_sp_value_in_range
                    PRes::Fail(scan_token(s, t.end))
                },
                PRes::Fail(e) => PRes::Fail(e),
            }
        },
        _ => PRes::Fail(t),
    }
}

/// A parsed `value` ends after the position it starts at, and inside the
/// buffer: the guarded continuations above never take their failing branch.
pub proof fn lemma_sp_value_in_range(s: Seq<u8>, pos: int)
    requires
        0 <= pos <= s.len(),
    ensures
        sp_value(s, pos) matches PRes::Done(v, p) ==> pos < p <= s.len(),
    decreases s.len() - pos, 1int,
{
    lemma_scan_token_range(s, pos);
    let t = scan_token(s, pos);
    match t.kind {
        TokenModel::LeftBrace => {
            lemma_sp_object_in_range(s, t.end);
        },
        TokenModel::LeftBracket => {
            lemma_sp_array_in_range(s, t.end);
        },
        _ => {},
    }
}

/// As [`lemma_sp_value_in_range`], for the rest of an object.
pub proof fn lemma_sp_object_in_range(s: Seq<u8>, pos: int)
    requires
        0 <= pos <= s.len(),
    ensures
        sp_object(s, pos) matches PRes::Done(o, p) ==> pos < p <= s.len(),
    decreases s.len() - pos, 2int,
{
    lemma_scan_token_range(s, pos);
    let t = scan_token(s, pos);
    match t.kind {
        TokenModel::Str(k) => {
            lemma_scan_token_range(s, t.end);
            let c = scan_token(s, t.end);
            if c.kind is Colon {
                lemma_sp_value_in_range(s, c.end);
                match sp_value(s, c.end) {
                    PRes::Done(v, p) => {
                        if c.end < p <= s.len() {
                            lemma_sp_pairs_in_range(s, p, obj_insert(Seq::empty(), k, v));
                        }
                    },
                    PRes::Fail(_) => {},
                }
            }
        },
        _ => {},
    }
}

/// As [`lemma_sp_value_in_range`], for the rest of an object's pairs.
pub proof fn lemma_sp_pairs_in_range(s: Seq<u8>, pos: int, acc: Seq<(Seq<char>, ValueModel)>)
    requires
        0 <= pos <= s.len(),
    ensures
        sp_pairs(s, pos, acc) matches PRes::Done(o, p) ==> pos < p <= s.len(),
    decreases s.len() - pos, 2int,
{
    lemma_scan_token_range(s, pos);
    let t = scan_token(s, pos);
    match t.kind {
        TokenModel::Comma => {
            lemma_scan_token_range(s, t.end);
            let kt = scan_token(s, t.end);
            match kt.kind {
                TokenModel::Str(k) => {
                    lemma_scan_token_range(s, kt.end);
                    let c = scan_token(s, kt.end);
                    if c.kind is Colon {
                        lemma_sp_value_in_range(s, c.end);
                        match sp_value(s, c.end) {
                            PRes::Done(v, p) => {
                                if c.end < p <= s.len() {
                                    lemma_sp_pairs_in_range(s, p, obj_insert(acc, k, v));
                                }
                            },
                            PRes::Fail(_) => {},
                        }
                    }
                },
                _ => {},
            }
        },
        _ => {},
    }
}

/// As [`lemma_sp_value_in_range`], for the rest of an array.
pub proof fn lemma_sp_array_in_range(s: Seq<u8>, pos: int)
    requires
        0 <= pos <= s.len(),
    ensures
        sp_array(s, pos) matches PRes::Done(o, p) ==> pos < p <= s.len(),
    decreases s.len() - pos, 2int,
{
    lemma_scan_token_range(s, pos);
    let t = scan_token(s, pos);
    match t.kind {
        TokenModel::Str(cs) => {
            lemma_sp_elems_in_range(s, t.end, seq![ValueModel::Str(cs)]);
        },
        TokenModel::Num(n) => {
            lemma_sp_elems_in_range(s, t.end, seq![ValueModel::Num(n)]);
        },
        TokenModel::Bool(b) => {
            lemma_sp_elems_in_range(s, t.end, seq![ValueModel::Bool(b)]);
        },
        TokenModel::Null => {
            lemma_sp_elems_in_range(s, t.end, seq![ValueModel::Null]);
        },
        TokenModel::LeftBrace => {
            lemma_sp_object_in_range(s, t.end);
            match sp_object(s, t.end) {
                PRes::Done(pairs, p) => {
                    if t.end < p <= s.len() {
                        lemma_sp_elems_in_range(s, p, seq![ValueModel::Obj(pairs)]);
                    }
                },
                PRes::Fail(_) => {},
            }
        },
        TokenModel::LeftBracket => {
            lemma_sp_array_in_range(s, t.end);
            match sp_array(s, t.end) {
                PRes::Done(items, p) => {
                    if t.end < p <= s.len() {
                        lemma_sp_elems_in_range(s, p, seq![ValueModel::Arr(items)]);
                    }
                },
                PRes::Fail(_) => {},
            }
        },
        _ => {},
    }
}

/// As [`lemma_sp_value_in_range`], for the rest of an array's elements.
pub proof fn lemma_sp_elems_in_range(s: Seq<u8>, pos: int, acc: Seq<ValueModel>)
    requires
        0 <= pos <= s.len(),
    ensures
        sp_elems(s, pos, acc) matches PRes::Done(o, p) ==> pos < p <= s.len(),
    decreases s.len() - pos, 2int,
{
    lemma_scan_token_range(s, pos);
    let t = scan_token(s, pos);
    match t.kind {
        TokenModel::Comma => {
            lemma_sp_value_in_range(s, t.end);
            match sp_value(s, t.end) {
                PRes::Done(v, p) => {
                    if t.end < p <= s.len() {
                        lemma_sp_elems_in_range(s, p, acc.push(v));
                    }
                },
                PRes::Fail(_) => {},
            }
        },
        _ => {},
    }
}

/// A whole buffer from `pos`: one `value` followed by `End`, or the first
/// unexpected token — which is the `End` token itself for an empty buffer,
/// and the trailing token for a buffer that goes on after one value.
pub open spec fn sp_goal(s: Seq<u8>, pos: int) -> Result<ValueModel, Scan> {
    match sp_value(s, pos) {
        PRes::Done(v, p) => {
            let t = scan_token(s, p);
            if t.kind is End {
                Ok(v)
            } else {
                Err(t)
            }
        },
        PRes::Fail(e) => Err(e),
    }
}

/// A JSON parser over a buffer: a lexer that the grammar pulls tokens from.
pub struct Parse<'a> {
    lex: Lex<'a>,
}

impl<'a> Parse<'a> {
    /// The buffer being parsed.
    pub closed spec fn bytes(self) -> Seq<u8> {
        self.lex.bytes()
    }

    /// The position parsing continues from.
    pub closed spec fn at(self) -> int {
        self.lex.at()
    }

    /// The cursor lies inside the buffer.
    pub open spec fn wf(self) -> bool {
        0 <= self.at() <= self.bytes().len()
    }

    /// Create a new JSON parser for the given string.
    ///
    /// The entire string should consist of a single JSON value.
    pub fn new(source: &'a str) -> (p: Parse<'a>)
        ensures
            p.bytes() == source.spec_bytes(),
            p.at() == 0,
            p.wf(),
    {
        Parse { lex: Lex::new(source) }
    }

    /// Parse a JSON value.
    ///
    /// The result is exactly what [`sp_goal`] assigns to the buffer at the
    /// current position: `Ok` with the value whose model [`sp_goal`] names —
    /// a tree in which every object has unique keys — if and only if the
    /// rest of the buffer is one JSON value followed by whitespace alone,
    /// and otherwise the first unexpected token, as a [`ParseError`].
    pub fn value(&mut self) -> (r: Result<Value, ParseError>)
        requires
            old(self).wf(),
        ensures
            final(self).wf(),
            final(self).bytes() == old(self).bytes(),
            match r {
                Ok(v) => sp_goal(old(self).bytes(), old(self).at()) == Ok::<ValueModel, Scan>(
                    value_model(v),
                ) && model_wf(value_model(v)),
                Err(e) => sp_goal(old(self).bytes(), old(self).at()) == Err::<ValueModel, Scan>(
                    e.token@,
                ),
            },
    {
        let ghost s = self.bytes();
        let ghost pos0 = self.at();
        match self.parse_value() {
            Ok(v) => {
                let t = self.lex.token();
                match t {
                    Token { kind: TokenKind::End, .. } => Ok(v),
                    other => Err(ParseError { token: other }),
                }
            },
            Err(e) => Err(e),
        }
    }

    /// One `value`, per [`sp_value`].
    fn parse_value(&mut self) -> (r: Result<Value, ParseError>)
        requires
            old(self).wf(),
        ensures
            final(self).wf(),
            final(self).bytes() == old(self).bytes(),
            r is Ok ==> old(self).at() < final(self).at(),
            match r {
                Ok(v) => sp_value(old(self).bytes(), old(self).at()) == PRes::Done(
                    value_model(v),
                    final(self).at(),
                ) && model_wf(value_model(v)),
                Err(e) => sp_value(old(self).bytes(), old(self).at())
                    == PRes::<ValueModel>::Fail(e.token@),
            },
        decreases self.bytes().len() - self.at(), 1int,
    {
        let ghost s = self.bytes();
        let ghost pos0 = self.at();
        proof {
            lemma_scan_token_range(s, pos0);
        }
        let t = self.lex.token();
        match t {
            Token { kind: TokenKind::String(text), .. } => Ok(Value::String(text)),
            Token { kind: TokenKind::Number(n), .. } => Ok(Value::Number(n)),
            Token { kind: TokenKind::Bool(b), .. } => Ok(Value::Bool(b)),
            Token { kind: TokenKind::Null, .. } => Ok(Value::Null),
            Token { kind: TokenKind::LeftBrace, .. } => {
                let pairs = self.parse_object_body()?;
                Ok(Value::Object(pairs))
            },
            Token { kind: TokenKind::LeftBracket, .. } => {
                let items = self.parse_array_body()?;
                Ok(Value::Array(items))
            },
            other => Err(ParseError { token: other }),
        }
    }

    /// The rest of an `object` after the opening brace, per [`sp_object`].
    fn parse_object_body(&mut self) -> (r: Result<Object, ParseError>)
        requires
            old(self).wf(),
        ensures
            final(self).wf(),
            final(self).bytes() == old(self).bytes(),
            r is Ok ==> old(self).at() < final(self).at(),
            match r {
                Ok(obj) => sp_object(old(self).bytes(), old(self).at()) == PRes::Done(
                    pairs_model(obj@),
                    final(self).at(),
                ) && model_wf(ValueModel::Obj(pairs_model(obj@))),
                Err(e) => sp_object(old(self).bytes(), old(self).at()) == PRes::<
                    Seq<(Seq<char>, ValueModel)>,
                >::Fail(e.token@),
            },
        decreases self.bytes().len() - self.at(), 2int,
    {
        let ghost s = self.bytes();
        let ghost pos0 = self.at();
        proof {
            lemma_scan_token_range(s, pos0);
        }
        let t = self.lex.token();
        match t {
            Token { kind: TokenKind::RightBrace, .. } => {
                let obj: Object = Vec::new();
                proof {
                    assert(pairs_model(obj@) =~= Seq::<(Seq<char>, ValueModel)>::empty());
                    assert(pairs_wf(pairs_model(obj@)));
                }
                Ok(obj)
            },
            Token { kind: TokenKind::String(key), .. } => {
                proof {
                    lemma_scan_token_range(s, self.at());
                }
                let c = self.lex.token();
                match c {
                    Token { kind: TokenKind::Colon, .. } => {
                        let ghost key_model = key@;
                        let v = self.parse_value()?;
                        let ghost vm = value_model(v);
                        let mut obj: Object = Vec::new();
                        obj.push((key, v));
                        proof {
                            lemma_pairs_model_snoc(Seq::empty(), obj@[0].0, obj@[0].1);
                            assert(pairs_model(Seq::empty()) =~= Seq::<
                                (Seq<char>, ValueModel),
                            >::empty());
                            assert(pairs_model(obj@) =~= obj_insert(
                                Seq::empty(),
                                key_model,
                                vm,
                            ));
                            assert(pairs_wf(Seq::<(Seq<char>, ValueModel)>::empty()));
                            lemma_obj_insert_preserves_wf(Seq::empty(), key_model, vm);
                        }
                        self.parse_pairs_rest(obj)
                    },
                    other => Err(ParseError { token: other }),
                }
            },
            other => Err(ParseError { token: other }),
        }
    }

    /// The rest of an `object` after at least one pair, per [`sp_pairs`].
    fn parse_pairs_rest(&mut self, obj: Object) -> (r: Result<Object, ParseError>)
        requires
            old(self).wf(),
            model_wf(ValueModel::Obj(pairs_model(obj@))),
        ensures
            final(self).wf(),
            final(self).bytes() == old(self).bytes(),
            r is Ok ==> old(self).at() < final(self).at(),
            match r {
                Ok(res) => sp_pairs(old(self).bytes(), old(self).at(), pairs_model(obj@))
                    == PRes::Done(pairs_model(res@), final(self).at()) && model_wf(
                    ValueModel::Obj(pairs_model(res@)),
                ),
                Err(e) => sp_pairs(old(self).bytes(), old(self).at(), pairs_model(obj@))
                    == PRes::<Seq<(Seq<char>, ValueModel)>>::Fail(e.token@),
            },
        decreases self.bytes().len() - self.at(), 2int,
    {
        let ghost s = self.bytes();
        let ghost pos0 = self.at();
        proof {
            lemma_scan_token_range(s, pos0);
        }
        let t = self.lex.token();
        match t {
            Token { kind: TokenKind::RightBrace, .. } => Ok(obj),
            Token { kind: TokenKind::Comma, .. } => {
                proof {
                    lemma_scan_token_range(s, self.at());
                }
                let kt = self.lex.token();
                match kt {
                    Token { kind: TokenKind::String(key), .. } => {
                        proof {
                            lemma_scan_token_range(s, self.at());
                        }
                        let c = self.lex.token();
                        match c {
                            Token { kind: TokenKind::Colon, .. } => {
                                let ghost acc = pairs_model(obj@);
                                let ghost key_model = key@;
                                let v = self.parse_value()?;
                                let ghost vm = value_model(v);
                                let mut obj2 = obj;
                                insert_pair(&mut obj2, key, v);
                                proof {
                                    lemma_obj_insert_preserves_wf(acc, key_model, vm);
                                }
                                self.parse_pairs_rest(obj2)
                            },
                            other => Err(ParseError { token: other }),
                        }
                    },
                    other => Err(ParseError { token: other }),
                }
            },
            other => Err(ParseError { token: other }),
        }
    }

    /// The rest of an `array` after the opening bracket, per [`sp_array`].
    fn parse_array_body(&mut self) -> (r: Result<Array, ParseError>)
        requires
            old(self).wf(),
        ensures
            final(self).wf(),
            final(self).bytes() == old(self).bytes(),
            r is Ok ==> old(self).at() < final(self).at(),
            match r {
                Ok(items) => sp_array(old(self).bytes(), old(self).at()) == PRes::Done(
                    items_model(items@),
                    final(self).at(),
                ) && model_wf(ValueModel::Arr(items_model(items@))),
                Err(e) => sp_array(old(self).bytes(), old(self).at()) == PRes::<
                    Seq<ValueModel>,
                >::Fail(e.token@),
            },
        decreases self.bytes().len() - self.at(), 2int,
    {
        let ghost s = self.bytes();
        let ghost pos0 = self.at();
        proof {
            lemma_scan_token_range(s, pos0);
        }
        let t = self.lex.token();
        match t {
            Token { kind: TokenKind::RightBracket, .. } => {
                let items: Array = Vec::new();
                proof {
                    assert(items_model(items@) =~= Seq::<ValueModel>::empty());
                    assert(arr_wf(items_model(items@)));
                }
                Ok(items)
            },
            Token { kind: TokenKind::String(text), .. } => {
                self.elems_from_first(Value::String(text))
            },
            Token { kind: TokenKind::Number(n), .. } => self.elems_from_first(Value::Number(n)),
            Token { kind: TokenKind::Bool(b), .. } => self.elems_from_first(Value::Bool(b)),
            Token { kind: TokenKind::Null, .. } => self.elems_from_first(Value::Null),
            Token { kind: TokenKind::LeftBrace, .. } => {
                let pairs = self.parse_object_body()?;
                self.elems_from_first(Value::Object(pairs))
            },
            Token { kind: TokenKind::LeftBracket, .. } => {
                let inner = self.parse_array_body()?;
                self.elems_from_first(Value::Array(inner))
            },
            other => Err(ParseError { token: other }),
        }
    }

    /// Continue an `array` whose first element has just been parsed.
    fn elems_from_first(&mut self, first: Value) -> (r: Result<Array, ParseError>)
        requires
            old(self).wf(),
            model_wf(value_model(first)),
        ensures
            final(self).wf(),
            final(self).bytes() == old(self).bytes(),
            r is Ok ==> old(self).at() < final(self).at(),
            match r {
                Ok(items) => sp_elems(
                    old(self).bytes(),
                    old(self).at(),
                    seq![value_model(first)],
                ) == PRes::Done(items_model(items@), final(self).at()) && model_wf(
                    ValueModel::Arr(items_model(items@)),
                ),
                Err(e) => sp_elems(old(self).bytes(), old(self).at(), seq![value_model(first)])
                    == PRes::<Seq<ValueModel>>::Fail(e.token@),
            },
        decreases self.bytes().len() - self.at(), 3int,
    {
        let ghost fm = value_model(first);
        let mut items: Array = Vec::new();
        items.push(first);
        proof {
            lemma_items_model_snoc(Seq::empty(), items@[0]);
            assert(items_model(Seq::empty()) =~= Seq::<ValueModel>::empty());
            assert(items_model(items@) =~= seq![fm]);
            lemma_arr_wf_iff(seq![fm]);
            assert forall|i: int| 0 <= i < seq![fm].len() implies model_wf(
                #[trigger] seq![fm][i],
            ) by {
                assert(seq![fm][i] == fm);
            }
            assert(arr_wf(seq![fm]));
        }
        self.parse_elems_rest(items)
    }

    /// The rest of an `array` after at least one element, per [`sp_elems`].
    fn parse_elems_rest(&mut self, items: Array) -> (r: Result<Array, ParseError>)
        requires
            old(self).wf(),
            model_wf(ValueModel::Arr(items_model(items@))),
        ensures
            final(self).wf(),
            final(self).bytes() == old(self).bytes(),
            r is Ok ==> old(self).at() < final(self).at(),
            match r {
                Ok(res) => sp_elems(old(self).bytes(), old(self).at(), items_model(items@))
                    == PRes::Done(items_model(res@), final(self).at()) && model_wf(
                    ValueModel::Arr(items_model(res@)),
                ),
                Err(e) => sp_elems(old(self).bytes(), old(self).at(), items_model(items@))
                    == PRes::<Seq<ValueModel>>::Fail(e.token@),
            },
        decreases self.bytes().len() - self.at(), 2int,
    {
        let ghost s = self.bytes();
        let ghost pos0 = self.at();
        proof {
            lemma_scan_token_range(s, pos0);
        }
        let t = self.lex.token();
        match t {
            Token { kind: TokenKind::RightBracket, .. } => Ok(items),
            Token { kind: TokenKind::Comma, .. } => {
                let ghost acc = items_model(items@);
                let v = self.parse_value()?;
                let ghost vm = value_model(v);
                let mut items2 = items;
                let ghost items0 = items2@;
                proof {
                    lemma_items_model_snoc(items0, v);
                }
                items2.push(v);
                proof {
                    assert(items_model(items2@) == acc.push(vm));
                    lemma_arr_wf_iff(acc);
                    lemma_arr_wf_iff(acc.push(vm));
                    assert forall|i: int| 0 <= i < acc.push(vm).len() implies model_wf(
                        #[trigger] acc.push(vm)[i],
                    ) by {
                        if i < acc.len() {
                            assert(acc.push(vm)[i] == acc[i]);
                        } else {
                            assert(acc.push(vm)[i] == vm);
                        }
                    }
                    assert(arr_wf(acc.push(vm)));
                }
                self.parse_elems_rest(items2)
            },
            other => Err(ParseError { token: other }),
        }
    }
}

} // verus!
