//! Value serialization.
//!
//! The trie's persistence is generic over the stored value type: a value type
//! chooses its own byte encoding by implementing [`Codec`]. The contract asks
//! for exactly what the trie codec needs to round-trip: encoding appends the
//! value's bytes, no encoding is a proper prefix of a different value's
//! encoding, and decoding reads back exactly the value whose encoding starts
//! at the given position.

use vstd::prelude::*;

verus! {

/// A byte codec for a value type stored in a trie.
pub trait Codec: Sized {
    /// The byte encoding of the value.
    spec fn enc(&self) -> Seq<u8>;

    /// Law: encodings are self-delimiting. When two encodings agree up to
    /// trailing bytes, the values and the trailing bytes agree: no encoding
    /// is a proper prefix of another, and no two values share an encoding.
    proof fn lemma_enc_prefix_free(v1: Self, v2: Self, r1: Seq<u8>, r2: Seq<u8>)
        requires
            v1.enc() + r1 == v2.enc() + r2,
        ensures
            v1 == v2,
            r1 == r2,
    ;

    /// Append the encoding of the value to `out`.
    fn encode(&self, out: &mut Vec<u8>)
        ensures
            final(out)@ == old(out)@ + self.enc(),
    ;

    /// Decode one value whose encoding starts at `pos` in `bytes`, returning
    /// it with the position just past it. Succeeds on exactly the positions
    /// where some value's encoding starts, and returns exactly that value.
    fn decode(bytes: &[u8], pos: usize) -> (r: Option<(Self, usize)>)
        requires
            pos <= bytes@.len(),
        ensures
            r matches Some(p) ==> pos <= p.1 <= bytes@.len() && p.0.enc() == bytes@.subrange(
                pos as int,
                p.1 as int,
            ),
            forall|v: Self|
                #![auto]
                pos + v.enc().len() <= bytes@.len() && bytes@.subrange(
                    pos as int,
                    pos + v.enc().len(),
                ) == v.enc() ==> r == Some((v, (pos + v.enc().len()) as usize)),
    ;
}

/// The four bytes of a 32-bit integer, least significant first.
pub open spec fn u32_le(x: u32) -> Seq<u8> {
    seq![
        (x & 0xff) as u8,
        ((x >> 8u32) & 0xff) as u8,
        ((x >> 16u32) & 0xff) as u8,
        ((x >> 24u32) & 0xff) as u8,
    ]
}

/// The eight bytes of a 64-bit integer, least significant first.
pub open spec fn u64_le(x: u64) -> Seq<u8> {
    seq![
        (x & 0xff) as u8,
        ((x >> 8u64) & 0xff) as u8,
        ((x >> 16u64) & 0xff) as u8,
        ((x >> 24u64) & 0xff) as u8,
        ((x >> 32u64) & 0xff) as u8,
        ((x >> 40u64) & 0xff) as u8,
        ((x >> 48u64) & 0xff) as u8,
        ((x >> 56u64) & 0xff) as u8,
    ]
}

/// Two 32-bit integers with the same four bytes are the same integer.
pub(crate) proof fn lemma_u32_le_injective(x: u32, y: u32)
    requires
        u32_le(x) == u32_le(y),
    ensures
        x == y,
{
    assert(u32_le(x)[0] == u32_le(y)[0] && u32_le(x)[1] == u32_le(y)[1] && u32_le(x)[2] == u32_le(
        y,
    )[2] && u32_le(x)[3] == u32_le(y)[3]);
    assert(((x & 0xff) as u8 == (y & 0xff) as u8 && ((x >> 8u32) & 0xff) as u8 == ((y >> 8u32)
        & 0xff) as u8 && ((x >> 16u32) & 0xff) as u8 == ((y >> 16u32) & 0xff) as u8 && ((x
        >> 24u32) & 0xff) as u8 == ((y >> 24u32) & 0xff) as u8) ==> x == y) by (bit_vector);
}

/// Two 64-bit integers with the same eight bytes are the same integer.
pub(crate) proof fn lemma_u64_le_injective(x: u64, y: u64)
    requires
        u64_le(x) == u64_le(y),
    ensures
        x == y,
{
    assert forall|i: int| 0 <= i < 8 implies u64_le(x)[i] == u64_le(y)[i] by {
    }
    assert(((x & 0xff) as u8 == (y & 0xff) as u8 && ((x >> 8u64) & 0xff) as u8 == ((y >> 8u64)
        & 0xff) as u8 && ((x >> 16u64) & 0xff) as u8 == ((y >> 16u64) & 0xff) as u8 && ((x
        >> 24u64) & 0xff) as u8 == ((y >> 24u64) & 0xff) as u8 && ((x >> 32u64) & 0xff) as u8 == ((y
        >> 32u64) & 0xff) as u8 && ((x >> 40u64) & 0xff) as u8 == ((y >> 40u64) & 0xff) as u8 && ((x
        >> 48u64) & 0xff) as u8 == ((y >> 48u64) & 0xff) as u8 && ((x >> 56u64) & 0xff) as u8 == ((y
        >> 56u64) & 0xff) as u8) ==> x == y) by (bit_vector);
}

/// Append the eight bytes of `x` to `out`, least significant first.
pub(crate) fn encode_u64(x: u64, out: &mut Vec<u8>)
    ensures
        final(out)@ == old(out)@ + u64_le(x),
{
    out.push((x & 0xff) as u8);
    out.push(((x >> 8u64) & 0xff) as u8);
    out.push(((x >> 16u64) & 0xff) as u8);
    out.push(((x >> 24u64) & 0xff) as u8);
    out.push(((x >> 32u64) & 0xff) as u8);
    out.push(((x >> 40u64) & 0xff) as u8);
    out.push(((x >> 48u64) & 0xff) as u8);
    out.push(((x >> 56u64) & 0xff) as u8);
    proof {
        assert(out@ =~= old(out)@ + u64_le(x));
    }
}

/// Read eight bytes at `pos` as a 64-bit integer, least significant first.
pub(crate) fn decode_u64(bytes: &[u8], pos: usize) -> (r: Option<(u64, usize)>)
    requires
        pos <= bytes@.len(),
    ensures
        r matches Some(p) ==> p.1 == pos + 8 <= bytes@.len() && u64_le(p.0) == bytes@.subrange(
            pos as int,
            pos as int + 8,
        ),
        r is None ==> pos + 8 > bytes@.len(),
{
    if bytes.len() - pos < 8 {
        return None;
    }
    let b0 = bytes[pos];
    let b1 = bytes[pos + 1];
    let b2 = bytes[pos + 2];
    let b3 = bytes[pos + 3];
    let b4 = bytes[pos + 4];
    let b5 = bytes[pos + 5];
    let b6 = bytes[pos + 6];
    let b7 = bytes[pos + 7];
    let x = (b0 as u64) | ((b1 as u64) << 8u64) | ((b2 as u64) << 16u64) | ((b3 as u64) << 24u64)
        | ((b4 as u64) << 32u64) | ((b5 as u64) << 40u64) | ((b6 as u64) << 48u64) | ((b7 as u64)
        << 56u64);
    proof {
        assert((x & 0xff) as u8 == b0 && ((x >> 8u64) & 0xff) as u8 == b1 && ((x >> 16u64)
            & 0xff) as u8 == b2 && ((x >> 24u64) & 0xff) as u8 == b3 && ((x >> 32u64) & 0xff) as u8
            == b4 && ((x >> 40u64) & 0xff) as u8 == b5 && ((x >> 48u64) & 0xff) as u8 == b6 && ((x
            >> 56u64) & 0xff) as u8 == b7) by (bit_vector)
            requires
                x == (b0 as u64) | ((b1 as u64) << 8u64) | ((b2 as u64) << 16u64) | ((b3 as u64)
                    << 24u64) | ((b4 as u64) << 32u64) | ((b5 as u64) << 40u64) | ((b6 as u64)
                    << 48u64) | ((b7 as u64) << 56u64),
        ;
        assert(u64_le(x) =~= bytes@.subrange(pos as int, pos as int + 8));
    }
    Some((x, pos + 8))
}

impl Codec for u32 {
    /// A 32-bit value's encoding: its four bytes, least significant first.
    open spec fn enc(&self) -> Seq<u8> {
        u32_le(*self)
    }

    proof fn lemma_enc_prefix_free(v1: Self, v2: Self, r1: Seq<u8>, r2: Seq<u8>) {
        let s1 = v1.enc() + r1;
        let s2 = v2.enc() + r2;
        assert(u32_le(v1) =~= s1.subrange(0, 4));
        assert(u32_le(v2) =~= s2.subrange(0, 4));
        lemma_u32_le_injective(v1, v2);
        assert(r1 =~= s1.skip(4));
        assert(r2 =~= s2.skip(4));
    }

    fn encode(&self, out: &mut Vec<u8>) {
        let x = *self;
        out.push((x & 0xff) as u8);
        out.push(((x >> 8u32) & 0xff) as u8);
        out.push(((x >> 16u32) & 0xff) as u8);
        out.push(((x >> 24u32) & 0xff) as u8);
        proof {
            assert(out@ =~= old(out)@ + self.enc());
        }
    }

    fn decode(bytes: &[u8], pos: usize) -> (r: Option<(Self, usize)>) {
        if bytes.len() - pos < 4 {
            proof {
                assert forall|v: u32|
                    #![auto]
                    !(pos + v.enc().len() <= bytes@.len() && bytes@.subrange(
                        pos as int,
                        pos + v.enc().len(),
                    ) == v.enc()) by {
                    assert(v.enc().len() == 4);
                }
            }
            return None;
        }
        let b0 = bytes[pos];
        let b1 = bytes[pos + 1];
        let b2 = bytes[pos + 2];
        let b3 = bytes[pos + 3];
        let x = (b0 as u32) | ((b1 as u32) << 8u32) | ((b2 as u32) << 16u32) | ((b3 as u32)
            << 24u32);
        proof {
            assert((x & 0xff) as u8 == b0 && ((x >> 8u32) & 0xff) as u8 == b1 && ((x >> 16u32)
                & 0xff) as u8 == b2 && ((x >> 24u32) & 0xff) as u8 == b3) by (bit_vector)
                requires
                    x == (b0 as u32) | ((b1 as u32) << 8u32) | ((b2 as u32) << 16u32) | ((b3 as u32)
                        << 24u32),
            ;
            assert(x.enc() =~= bytes@.subrange(pos as int, pos as int + 4));
            assert forall|v: u32|
                #![auto]
                pos + v.enc().len() <= bytes@.len() && bytes@.subrange(
                    pos as int,
                    pos + v.enc().len(),
                ) == v.enc() implies Some((x, (pos + 4) as usize)) == Some(
                (v, (pos + v.enc().len()) as usize),
            ) by {
                assert(v.enc().len() == 4);
                assert(v.enc() == x.enc());
                lemma_u32_le_injective(v, x);
            }
        }
        Some((x, pos + 4))
    }
}

} // verus!
