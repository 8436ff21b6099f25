//! How the printers lay a term out.

use vstd::prelude::*;

verus! {

/// The settings of a printer.
#[derive(Debug)]
pub struct Config {
    /// Whether lists of properties are written as objects.
    pub transform_proplists: bool,
    /// Spaces per nesting level.
    pub indent: usize,
    /// The most elements that a collection on one line may have.
    pub short_collection: usize,
    /// What is put behind every term.
    pub terminator: &'static str,
}

impl Default for Config {
    /// No transformation of property lists, two spaces per level, up to
    /// eight elements on a line, and a full stop behind every term.
    fn default() -> (config: Self)
        ensures
            !config.transform_proplists,
            config.indent == 2,
            config.short_collection == 8,
            config.terminator@ == "."@,
    {
        Self { transform_proplists: false, indent: 2, short_collection: 8, terminator: "." }
    }
}

} // verus!
