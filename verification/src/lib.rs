//! Front end of a small compiler for the phi language.
//!
//! The [`lexer`] turns source text into [`token`]s, and the [`emitter`]
//! turns tokens into assembly text. [`path`] names the output file, and
//! [`laws`] holds what is proved of the lexer on every input. The library
//! does no input or output of its own.
//!
//! Every function is verified against its contract. Four contracts are
//! assumed of the standard library rather than proved: those of
//! `char::is_alphabetic`, `char::is_numeric` and `char::is_alphanumeric` in
//! [`charclass`], and that of `String::push` in [`lexer`].

pub mod charclass;
pub mod emitter;
pub mod laws;
pub mod lexer;
pub mod path;
pub mod token;
