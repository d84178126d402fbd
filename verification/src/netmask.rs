//! The IPv4 netmask of a CIDR prefix length.

use vstd::prelude::*;

verus! {

/// Bit `i` (counting from the least significant) of `m` is set.
pub open spec fn mask_bit(m: u32, i: u32) -> bool {
    (m >> i) & 1u32 == 1u32
}

/// The netmask of a `/prefix` network as a big-endian `u32`: the top
/// `prefix` bits set, the rest clear; a prefix of 32 or more is the
/// all-ones host mask. (A zero prefix shifts a `u32` by its whole width,
/// which Rust refuses.)
pub fn prefix_mask(prefix: u8) -> (m: u32)
    requires
        prefix > 0,
    ensures
        forall|i: u32| i < 32 ==> (#[trigger] mask_bit(m, i) <==> i + prefix >= 32),
{
    if prefix >= 32 {
        let m = u32::MAX;
        assert(forall|i: u32| i < 32 ==> (#[trigger] ((m >> i) & 1u32) == 1u32)) by (bit_vector)
            requires
                m == 0xffff_ffffu32,
        ;
        m
    } else {
        let s: u32 = 32 - prefix as u32;
        let m = u32::MAX << s;
        assert(forall|i: u32| i < 32 ==> ((#[trigger] ((m >> i) & 1u32) == 1u32) <==> i >= s)) by (bit_vector)
            requires
                1 <= s <= 31,
                m == 0xffff_ffffu32 << s,
        ;
        m
    }
}

} // verus!
