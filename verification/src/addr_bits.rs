//! Bit-level model of IPv4 addresses and prefix masks.
//!
//! An address is a `u32` whose most significant bit is the first bit of the
//! dotted-quad text form. A CIDR prefix of length `n` is modelled as the
//! sequence of the top `n` bits of its network address, most significant
//! first; the tries descend left on a `false` bit and right on a `true` bit.

use vstd::prelude::*;

verus! {

/// Bit `i` of `ip`, counted from the most significant bit down (bit 0 is the
/// top bit).
pub open(crate) spec fn nth_bit(ip: u32, i: int) -> bool
    recommends
        0 <= i <= 31,
{
    (ip >> ((31 - i) as u32)) & 1 == 1
}

/// The top `n` bits of `ip`, most significant first: the bit path that a
/// prefix of length `n` on network address `ip` selects in a trie.
pub open(crate) spec fn path_of(ip: u32, n: int) -> Seq<bool>
    recommends
        0 <= n <= 32,
{
    Seq::new(n as nat, |i: int| nth_bit(ip, i))
}

/// The mask with exactly the top `p` bits set: the textual prefix length `p`
/// expressed as a remaining-mask-bits word.
pub open(crate) spec fn pre_mask(p: u32) -> u32
    recommends
        p <= 32,
{
    ((0xffff_ffffu64 << ((32 - p) as u64)) & 0xffff_ffffu64) as u32
}

/// Shifting one bit out of a remaining mask leaves the mask of a prefix one
/// bit shorter.
pub(crate) proof fn lemma_pre_mask_shift(p: u32)
    requires
        1 <= p <= 32,
    ensures
        pre_mask(p) << 1u32 == pre_mask((p - 1) as u32),
{
    let q = (p - 1) as u32;
    assert((q == p - 1 && 1 <= p <= 32) ==> ((((0xffff_ffffu64 << ((32 - p) as u64))
        & 0xffff_ffffu64) as u32) << 1u32) == (((0xffff_ffffu64 << ((32 - q) as u64))
        & 0xffff_ffffu64) as u32)) by (bit_vector);
}

/// A remaining mask is zero exactly when no prefix bits remain.
pub(crate) proof fn lemma_pre_mask_zero(p: u32)
    requires
        p <= 32,
    ensures
        (pre_mask(p) == 0) == (p == 0),
{
    assert(p <= 32 ==> ((((0xffff_ffffu64 << ((32 - p) as u64)) & 0xffff_ffffu64) as u32 == 0) == (p
        == 0))) by (bit_vector);
}

/// Two different prefix lengths have different masks.
pub(crate) proof fn lemma_pre_mask_injective(p: u32, q: u32)
    requires
        p <= 32,
        q <= 32,
        pre_mask(p) == pre_mask(q),
    ensures
        p == q,
{
    assert((p <= 32 && q <= 32 && (((0xffff_ffffu64 << ((32 - p) as u64)) & 0xffff_ffffu64) as u32)
        == (((0xffff_ffffu64 << ((32 - q) as u64)) & 0xffff_ffffu64) as u32)) ==> p == q)
        by (bit_vector);
}

/// The top bit of an address, read through the mask test the code performs.
pub(crate) proof fn lemma_top_bit(ip: u32)
    ensures
        nth_bit(ip, 0) == ((ip & 0x8000_0000u32) != 0),
{
    assert(((ip >> 31u32) & 1 == 1) == ((ip & 0x8000_0000u32) != 0)) by (bit_vector);
    assert((31 - 0) as u32 == 31u32);
}

/// Bit `i` of an address is bit `i - 1` of the address shifted left once.
pub(crate) proof fn lemma_shift_bit(ip: u32, i: int)
    requires
        1 <= i <= 31,
    ensures
        nth_bit(ip << 1u32, i - 1) == nth_bit(ip, i),
{
    let j = (31 - (i - 1)) as u32;
    let k = (31 - i) as u32;
    assert((1 <= j <= 31 && k == j - 1) ==> ((((ip << 1u32) >> j) & 1) == ((ip >> k) & 1)))
        by (bit_vector);
}

/// A nonempty bit path decomposes into the top bit of the address followed by
/// the path of the shifted address.
pub(crate) proof fn lemma_path_step(ip: u32, n: int)
    requires
        1 <= n <= 32,
    ensures
        path_of(ip, n) == seq![nth_bit(ip, 0)] + path_of(ip << 1u32, n - 1),
{
    assert forall|i: int| 1 <= i < n implies nth_bit(ip << 1u32, i - 1) == nth_bit(ip, i) by {
        lemma_shift_bit(ip, i);
    }
    assert(path_of(ip, n) =~= seq![nth_bit(ip, 0)] + path_of(ip << 1u32, n - 1));
}

/// Two addresses with the same full 32-bit path are the same address.
pub(crate) proof fn lemma_full_path_exact(a: u32, b: u32)
    requires
        path_of(a, 32) == path_of(b, 32),
    ensures
        a == b,
{
    assert forall|j: u32| j <= 31 implies ((a >> j) & 1) == ((b >> j) & 1) by {
        let i = 31 - (j as int);
        assert(path_of(a, 32)[i] == path_of(b, 32)[i]);
        assert(path_of(a, 32)[i] == nth_bit(a, i));
        assert(path_of(b, 32)[i] == nth_bit(b, i));
        assert((31 - i) as u32 == j);
        assert(nth_bit(a, i) == ((a >> j) & 1 == 1));
        assert(nth_bit(b, i) == ((b >> j) & 1 == 1));
        assert(((a >> j) & 1) <= 1 && ((b >> j) & 1) <= 1) by (bit_vector);
    }
    assert((((a >> 0u32) & 1) == ((b >> 0u32) & 1) && ((a >> 1u32) & 1) == ((b >> 1u32) & 1) && ((a >> 2u32) & 1) == ((b >> 2u32) & 1) && ((a >> 3u32) & 1) == ((b >> 3u32) & 1) && ((a >> 4u32) & 1) == ((b >> 4u32) & 1) && ((a >> 5u32) & 1) == ((b >> 5u32) & 1) && ((a >> 6u32) & 1) == ((b >> 6u32) & 1) && ((a >> 7u32) & 1) == ((b >> 7u32) & 1) && ((a >> 8u32) & 1) == ((b >> 8u32) & 1) && ((a >> 9u32) & 1) == ((b >> 9u32) & 1) && ((a >> 10u32) & 1) == ((b >> 10u32) & 1) && ((a >> 11u32) & 1) == ((b >> 11u32) & 1) && ((a >> 12u32) & 1) == ((b >> 12u32) & 1) && ((a >> 13u32) & 1) == ((b >> 13u32) & 1) && ((a >> 14u32) & 1) == ((b >> 14u32) & 1) && ((a >> 15u32) & 1) == ((b >> 15u32) & 1) && ((a >> 16u32) & 1) == ((b >> 16u32) & 1) && ((a >> 17u32) & 1) == ((b >> 17u32) & 1) && ((a >> 18u32) & 1) == ((b >> 18u32) & 1) && ((a >> 19u32) & 1) == ((b >> 19u32) & 1) && ((a >> 20u32) & 1) == ((b >> 20u32) & 1) && ((a >> 21u32) & 1) == ((b >> 21u32) & 1) && ((a >> 22u32) & 1) == ((b >> 22u32) & 1) && ((a >> 23u32) & 1) == ((b >> 23u32) & 1) && ((a >> 24u32) & 1) == ((b >> 24u32) & 1) && ((a >> 25u32) & 1) == ((b >> 25u32) & 1) && ((a >> 26u32) & 1) == ((b >> 26u32) & 1) && ((a >> 27u32) & 1) == ((b >> 27u32) & 1) && ((a >> 28u32) & 1) == ((b >> 28u32) & 1) && ((a >> 29u32) & 1) == ((b >> 29u32) & 1) && ((a >> 30u32) & 1) == ((b >> 30u32) & 1) && ((a >> 31u32) & 1) == ((b >> 31u32) & 1))
        ==> a == b) by (bit_vector);
}

} // verus!
