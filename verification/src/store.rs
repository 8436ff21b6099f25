//! Terms laid out flat: one record for each term, in the order in which the
//! terms are met, and one buffer for the bytes of all atoms, strings and
//! binaries.

pub mod erlang_pp;
pub mod json_pp;
pub mod parser;
pub mod terms;
