//! A JSON lexer and parser over an in-memory UTF-8 buffer.
//!
//! The lexer ([`lex`]) turns bytes into tokens one at a time, folding
//! lexical problems into `Error` tokens instead of failing; the parser
//! ([`parse`]) assembles those tokens into a [`json::Value`] tree,
//! rejecting the buffer at the first token that the grammar does not
//! accept.  Both are specified against pure functions over the byte
//! sequence — [`lex::scan_token`] and [`parse::sp_goal`] — and proved to
//! return exactly what those functions assign to the buffer, so a
//! successful parse is exactly the value that the specification names.
//! On top of that, [`codec`] states what a conformant encoding of a value
//! is and proves the round-trip law: parsing the encoding of a value
//! reconstructs an equal tree.
//!
//! Numbers are held in decoded decimal form — sign, significand and
//! power-of-ten exponent — rather than as binary floats; turning that
//! triple into a float is one multiplication or division by ten per
//! exponent step, left to the embedding program.

pub mod codec;
pub mod json;
pub mod lex;
pub mod parse;
