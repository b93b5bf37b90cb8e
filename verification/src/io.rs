//! Byte classes of the shell's input.
use vstd::prelude::*;

verus! {

/// Space, horizontal tab, line feed or carriage return.
pub open spec fn spec_is_whitespace(b: u8) -> bool {
    b == 0x20 || b == 0x09 || b == 0x0A || b == 0x0D
}

/// Whether a byte separates words on a command line.
pub fn is_whitespace(b: u8) -> (r: bool)
    ensures
        r == spec_is_whitespace(b),
{
    b == 0x20 || b == 0x09 || b == 0x0A || b == 0x0D
}

/// The whitespace bytes are exactly space (0x20), horizontal tab (0x09),
/// line feed (0x0A) and carriage return (0x0D).
pub proof fn lemma_whitespace_bytes(b: u8)
    ensures
        spec_is_whitespace(b) <==> (b == 0x20 || b == 0x09 || b == 0x0A || b == 0x0D),
{
}

} // verus!
