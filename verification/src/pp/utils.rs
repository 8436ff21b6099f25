//! Which bytes of a string can stand in text as they are.

use vstd::prelude::*;

verus! {

/// Whether `b` is a printable ASCII character, the space included.
pub fn is_printable(b: u8) -> (r: bool)
    ensures
        r == (0x20 <= b <= 0x7e),
{
    b >= 0x20 && b <= 0x7e
}

/// Whether `b` needs a backslash in front of it inside double quotes: the
/// double quote and the backslash do.
pub fn must_be_escaped(b: u8) -> (r: bool)
    ensures
        r == (b == 0x22 || b == 0x5c),
{
    b == 0x22 || b == 0x5c
}

} // verus!
