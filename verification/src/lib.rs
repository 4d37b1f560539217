//! Core of an ECMAScript engine front end: exact integers with the
//! `BigInt` builtin's coercions and bit-width reductions, and the parser
//! for update expressions.

pub mod digits;
pub mod integer;
pub mod text;
pub mod value;
pub mod bigint;
pub mod parser;
pub mod arith;
