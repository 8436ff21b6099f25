//! Decoding, re-encoding and rendering of Erlang's External Term Format.
//!
//! A term is read from a byte buffer by a tag-dispatched, bounds-checked
//! decoder, and can be written back as Erlang source syntax, as JSON or in the
//! binary format. Every function states what it returns over a mathematical
//! model of the buffer and of the term.
//!
//! - [`grammar`] says what stands at a position of a buffer; [`parser`] reads
//!   it into a tree of [`bertterm::BertTerm`], [`store`] into a flat store.
//! - [`parsers`] frame a buffer as single terms, as a stream of records or as
//!   a disk log.
//! - [`pp`] writes a term in the binary format, as Erlang source text and as
//!   JSON; [`roundtrip`] proves that what is written in the binary format is
//!   read back as it was.
//!
//! A floating-point number is held as its IEEE 754 bits. The decoder and the
//! printers take a function that turns text into such a number, or such a
//! number into text (see [`float`]).

pub mod consts;
pub mod prelude;
pub mod error;
pub mod wire;
pub mod text;
pub mod bigint;
pub mod bertterm;
pub mod grammar;
pub mod float;
pub mod parser;
pub mod parsers;
pub mod config;
pub mod convert;
pub mod erlang;
pub mod pp;
pub mod roundtrip;
pub mod laws;
pub mod bert_parser;
pub mod pretty;
pub mod store;
