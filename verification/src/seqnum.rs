//! Sequence-number arithmetic in 32-bit modular ("wrapped") space.
//!
//! All comparisons between TCP sequence numbers use wrapped ordering:
//! `a` is below `b` iff subtracting them modulo 2^32 lands in the upper
//! half of the range. `is_between_wrapped` is strict on both ends.

use vstd::prelude::*;

verus! {

/// Wrapping subtraction `a - b` modulo 2^32, the basis of every comparison.
pub open spec fn seq_sub(a: u32, b: u32) -> u32 {
    vstd::wrapping::u32_specs::wrapping_sub(a, b)
}

/// Wrapping addition `a + n` modulo 2^32.
pub open spec fn seq_add(a: u32, n: u32) -> u32 {
    vstd::wrapping::u32_specs::wrapping_add(a, n)
}

/// `lhs` is strictly below `rhs` in wrapped order.
pub open spec fn spec_wrapping_lt(lhs: u32, rhs: u32) -> bool {
    seq_sub(lhs, rhs) > 0x8000_0000u32
}

/// `x` lies strictly between `start` and `end` in wrapped order.
pub open spec fn spec_between(start: u32, x: u32, end: u32) -> bool {
    spec_wrapping_lt(start, x) && spec_wrapping_lt(x, end)
}

pub fn wrapping_lt(lhs: u32, rhs: u32) -> (r: bool)
    ensures
        r == spec_wrapping_lt(lhs, rhs),
{
    lhs.wrapping_sub(rhs) > 0x8000_0000
}

pub fn is_between_wrapped(start: u32, x: u32, end: u32) -> (r: bool)
    ensures
        r == spec_between(start, x, end),
{
    wrapping_lt(start, x) && wrapping_lt(x, end)
}

/// Sequence-wrap round trip: a window of any size up to 2^31 - 1 laid
/// just after `u` contains `u` strictly between its bounds, independent
/// of where `u` sits in the modular space.
pub proof fn lemma_between_after_add(u: u32, n: u32)
    requires
        n <= 0x7FFF_FFFE,
    ensures
        spec_between(seq_sub(u, 1), u, seq_add(u, (n + 1) as u32)),
{
}

} // verus!
