//! Wrapped sequence-number arithmetic, including comparisons that cross
//! the 2^32 boundary.

use trust::seqnum::is_between_wrapped;
use trust::seqnum::wrapping_lt;

#[test]
fn wrapping_lt_plain_order() {
    assert!(wrapping_lt(1, 2));
    assert!(!wrapping_lt(2, 1));
    assert!(!wrapping_lt(5, 5));
}

#[test]
fn wrapping_lt_across_the_boundary() {
    // A window spanning the wrap: 0xFFFFFF00 is below 0x00000100.
    assert!(wrapping_lt(0xFFFF_FF00, 0x0000_0100));
    assert!(!wrapping_lt(0x0000_0100, 0xFFFF_FF00));
}

#[test]
fn between_is_strict_on_both_ends() {
    assert!(is_between_wrapped(10, 11, 12));
    assert!(!is_between_wrapped(10, 10, 12));
    assert!(!is_between_wrapped(10, 12, 12));
}

#[test]
fn between_across_the_boundary() {
    // una = 0xFFFFFF00, nxt = 0x00000100: an acknowledgment inside the
    // wrapped range is recognized.
    let una: u32 = 0xFFFF_FF00;
    let nxt: u32 = 0x0000_0100;
    assert!(is_between_wrapped(una, 0xFFFF_FFFF, nxt.wrapping_add(1)));
    assert!(is_between_wrapped(una, 0x0000_0050, nxt.wrapping_add(1)));
    assert!(!is_between_wrapped(una, 0x0000_0200, nxt.wrapping_add(1)));
    assert!(!is_between_wrapped(una, 0xFFFF_FE00, nxt.wrapping_add(1)));
}

#[test]
fn window_after_point_contains_it() {
    // between(u - 1, u, u + n + 1) holds regardless of where u sits.
    for &u in &[0u32, 1, 0x7FFF_FFFF, 0x8000_0000, 0xFFFF_FFFF] {
        for &n in &[0u32, 1, 1024, 0x7FFF_FFFE] {
            assert!(is_between_wrapped(
                u.wrapping_sub(1),
                u,
                u.wrapping_add(n).wrapping_add(1)
            ));
        }
    }
}
