//! The persistence codec: a compact binary snapshot of a trie.
//!
//! A trie is written as its root node; a node is written in pre-order as the
//! presence byte of its left child, the presence byte of its right child, the
//! number of attached values as eight little-endian bytes, the encodings of
//! the values in order, then the encodings of the present children, left
//! first. Decoding accepts exactly the encodings of well-formed tries:
//! truncated bytes, an illegal presence byte or trailing garbage are errors,
//! never a partially built trie.

use crate::codec::Codec;
use crate::codec::decode_u64;
use crate::codec::encode_u64;
use crate::codec::lemma_u64_le_injective;
use crate::codec::u64_le;
use crate::addr_bits::path_of;
use crate::radix_trie::Trie;
use crate::radix_trie::TrieNode;
use vstd::prelude::*;

verus! {

/// Why decoding persisted bytes failed.
#[derive(Clone, Copy, Debug, PartialEq, Eq, Structural)]
pub enum DecodeError {
    /// The bytes do not begin with the encoding of any well-formed trie: a
    /// truncated stream, an illegal presence byte, or an impossible shape.
    Malformed,
    /// The bytes begin with the encoding of a trie but do not end with it:
    /// trailing garbage.
    TrailingBytes,
}

/// The presence byte of an optional part: 1 when present, 0 when absent.
pub open(crate) spec fn bool_byte(b: bool) -> u8 {
    if b {
        1
    } else {
        0
    }
}

/// The encoding of a value sequence: each value's encoding, in order.
pub open(crate) spec fn vals_enc<V: Codec>(vs: Seq<V>) -> Seq<u8>
    decreases vs.len(),
{
    if vs.len() == 0 {
        Seq::empty()
    } else {
        vs[0].enc() + vals_enc(vs.skip(1))
    }
}

/// The encoding of a node: the two presence bytes, the value count, the
/// values, then the encodings of the present children, left first.
pub open(crate) spec fn node_enc<V: Codec>(n: TrieNode<V>) -> Seq<u8>
    decreases n,
{
    seq![bool_byte(n.left is Some), bool_byte(n.right is Some)] + u64_le(
        TrieNode::vals_of(n.values).len() as u64,
    ) + vals_enc(TrieNode::vals_of(n.values)) + opt_enc(n.left) + opt_enc(n.right)
}

/// The encoding of an optional child: its node encoding, or nothing.
pub open(crate) spec fn opt_enc<V: Codec>(c: Option<Box<TrieNode<V>>>) -> Seq<u8>
    decreases c,
{
    match c {
        Some(b) => node_enc(*b),
        None => Seq::empty(),
    }
}

/// The encoding of a whole trie: the encoding of its root node.
pub open(crate) spec fn trie_enc<V: Codec>(t: Trie<V>) -> Seq<u8> {
    node_enc(t.spec_root())
}

/// Appending one value to a sequence appends its encoding.
pub(crate) proof fn lemma_vals_enc_push<V: Codec>(vs: Seq<V>, x: V)
    ensures
        vals_enc(vs.push(x)) == vals_enc(vs) + x.enc(),
    decreases vs.len(),
{
    if vs.len() == 0 {
        assert(vs.push(x)[0] == x);
        assert(vs.push(x).skip(1) =~= Seq::<V>::empty());
        assert(vals_enc(Seq::<V>::empty()) == Seq::<u8>::empty());
        assert(vals_enc(vs.push(x)) == x.enc() + Seq::<u8>::empty());
        assert(x.enc() + Seq::<u8>::empty() =~= x.enc());
        assert(vals_enc(vs) + x.enc() =~= x.enc());
    } else {
        assert(vs.push(x).skip(1) =~= vs.skip(1).push(x));
        lemma_vals_enc_push(vs.skip(1), x);
        assert(vs.push(x)[0] == vs[0]);
        assert(vals_enc(vs.push(x)) == vs[0].enc() + (vals_enc(vs.skip(1)) + x.enc()));
        assert(vs[0].enc() + (vals_enc(vs.skip(1)) + x.enc()) =~= (vs[0].enc() + vals_enc(
            vs.skip(1),
        )) + x.enc());
    }
}

/// Value sequences are self-delimiting: when the encoding of a shorter
/// sequence agrees with that of a longer one up to trailing bytes, the
/// shorter is a prefix of the longer and the trailing bytes carry the rest.
pub(crate) proof fn lemma_vals_enc_prefix<V: Codec>(xs: Seq<V>, ys: Seq<V>, r1: Seq<u8>, r2: Seq<u8>)
    requires
        xs.len() <= ys.len(),
        vals_enc(xs) + r1 == vals_enc(ys) + r2,
    ensures
        xs == ys.take(xs.len() as int),
        r1 == vals_enc(ys.skip(xs.len() as int)) + r2,
    decreases xs.len(),
{
    if xs.len() == 0 {
        assert(vals_enc(xs) == Seq::<u8>::empty());
        assert(Seq::<u8>::empty() + r1 =~= r1);
        assert(xs =~= ys.take(0));
        assert(ys.skip(0) =~= ys);
    } else {
        assert((xs[0].enc() + vals_enc(xs.skip(1))) + r1 =~= xs[0].enc() + (vals_enc(xs.skip(1))
            + r1));
        assert((ys[0].enc() + vals_enc(ys.skip(1))) + r2 =~= ys[0].enc() + (vals_enc(ys.skip(1))
            + r2));
        V::lemma_enc_prefix_free(
            xs[0],
            ys[0],
            vals_enc(xs.skip(1)) + r1,
            vals_enc(ys.skip(1)) + r2,
        );
        lemma_vals_enc_prefix(xs.skip(1), ys.skip(1), r1, r2);
        assert forall|i: int| 0 <= i < xs.len() implies xs[i] == ys.take(xs.len() as int)[i] by {
            if i > 0 {
                assert(xs[i] == xs.skip(1)[i - 1]);
                assert(xs.skip(1)[i - 1] == ys.skip(1).take(xs.len() - 1)[i - 1]);
                assert(ys.skip(1).take(xs.len() - 1)[i - 1] == ys.skip(1)[i - 1]);
                assert(ys.skip(1)[i - 1] == ys[i]);
            }
        }
        assert(xs =~= ys.take(xs.len() as int));
        assert(ys.skip(1).skip(xs.len() - 1) =~= ys.skip(xs.len() as int));
    }
}

/// Where the parts of a node's encoding lie in a byte sequence holding it at
/// `[pos, end)`: the presence bytes, the count, the values, the children.
pub(crate) proof fn lemma_node_enc_parts<V: Codec>(n: TrieNode<V>, b: Seq<u8>, pos: int, end: int)
    requires
        0 <= pos <= end <= b.len(),
        node_enc(n) == b.subrange(pos, end),
    ensures
        end == pos + 10 + vals_enc(TrieNode::vals_of(n.values)).len() + opt_enc(n.left).len()
            + opt_enc(n.right).len(),
        b[pos] == bool_byte(n.left is Some),
        b[pos + 1] == bool_byte(n.right is Some),
        b.subrange(pos + 2, pos + 10) == u64_le(TrieNode::vals_of(n.values).len() as u64),
        b.subrange(pos + 10, pos + 10 + vals_enc(TrieNode::vals_of(n.values)).len()) == vals_enc(
            TrieNode::vals_of(n.values),
        ),
        b.subrange(
            pos + 10 + vals_enc(TrieNode::vals_of(n.values)).len(),
            pos + 10 + vals_enc(TrieNode::vals_of(n.values)).len() + opt_enc(n.left).len(),
        ) == opt_enc(n.left),
        b.subrange(
            pos + 10 + vals_enc(TrieNode::vals_of(n.values)).len() + opt_enc(n.left).len(),
            end,
        ) == opt_enc(n.right),
{
    let hdr = seq![bool_byte(n.left is Some), bool_byte(n.right is Some)];
    let cnt = u64_le(TrieNode::vals_of(n.values).len() as u64);
    let ve = vals_enc(TrieNode::vals_of(n.values));
    let le = opt_enc(n.left);
    let re = opt_enc(n.right);
    assert(node_enc(n) == hdr + cnt + ve + le + re);
    assert(hdr.len() == 2 && cnt.len() == 8);
    assert(b.subrange(pos, end).len() == end - pos);
    assert(b[pos] == node_enc(n)[0] && b[pos + 1] == node_enc(n)[1]);
    let x3 = ((hdr + cnt) + ve) + le;
    assert forall|j: int| 0 <= j < node_enc(n).len() implies node_enc(n)[j] == b[pos + j] by {
        assert(node_enc(n)[j] == b.subrange(pos, end)[j]);
    }
    assert forall|j: int| 0 <= j < 8 implies b[pos + 2 + j] == cnt[j] by {
        assert((hdr + cnt)[2 + j] == cnt[j]);
        assert(((hdr + cnt) + ve)[2 + j] == (hdr + cnt)[2 + j]);
        assert(x3[2 + j] == ((hdr + cnt) + ve)[2 + j]);
        assert(node_enc(n)[2 + j] == x3[2 + j]);
    }
    assert(b.subrange(pos + 2, pos + 10) =~= cnt);
    assert forall|j: int| 0 <= j < ve.len() implies b[pos + 10 + j] == ve[j] by {
        assert(((hdr + cnt) + ve)[10 + j] == ve[j]);
        assert(x3[10 + j] == ((hdr + cnt) + ve)[10 + j]);
        assert(node_enc(n)[10 + j] == x3[10 + j]);
    }
    assert(b.subrange(pos + 10, pos + 10 + ve.len()) =~= ve);
    assert forall|j: int| 0 <= j < le.len() implies b[pos + 10 + ve.len() + j] == le[j] by {
        assert(x3[10 + ve.len() + j] == le[j]);
        assert(node_enc(n)[10 + ve.len() + j] == x3[10 + ve.len() + j]);
    }
    assert(b.subrange(pos + 10 + ve.len(), pos + 10 + ve.len() + le.len()) =~= le);
    assert forall|j: int| 0 <= j < re.len() implies b[pos + 10 + ve.len() + le.len() + j]
        == re[j] by {
        assert(node_enc(n)[10 + ve.len() + le.len() + j] == re[j]);
    }
    assert(b.subrange(pos + 10 + ve.len() + le.len(), end) =~= re);
}

/// Two adjacent subranges of a byte sequence concatenate to the enclosing
/// subrange.
pub(crate) proof fn lemma_subrange_join(b: Seq<u8>, x: int, y: int, z: int)
    requires
        0 <= x <= y <= z <= b.len(),
    ensures
        b.subrange(x, y) + b.subrange(y, z) == b.subrange(x, z),
{
    assert(b.subrange(x, y) + b.subrange(y, z) =~= b.subrange(x, z));
}

impl<V: Codec> TrieNode<V> {
    /// Append the pre-order encoding of the subtree rooted here to `out`.
    #[verifier::loop_isolation(false)]
    fn encode_node(&self, out: &mut Vec<u8>)
        ensures
            final(out)@ == old(out)@ + node_enc(*self),
        decreases self,
    {
        let ghost base = old(out)@;
        out.push(if self.left.is_some() {
            1
        } else {
            0
        });
        out.push(if self.right.is_some() {
            1
        } else {
            0
        });
        match &self.values {
            Some(vs) => {
                encode_u64(vs.len() as u64, out);
                let ghost base2 = out@;
                let mut i: usize = 0;
                while i < vs.len()
                    invariant
                        i <= vs@.len(),
                        out@ == base2 + vals_enc(vs@.take(i as int)),
                    decreases vs@.len() - i,
                {
                    proof {
                        lemma_vals_enc_push(vs@.take(i as int), vs@[i as int]);
                        assert(vs@.take(i as int).push(vs@[i as int]) =~= vs@.take(i as int + 1));
                    }
                    let v: &V = &vs[i];
                    v.encode(out);
                    proof {
                        assert(out@ =~= base2 + vals_enc(vs@.take(i as int + 1)));
                    }
                    i = i + 1;
                }
                proof {
                    assert(vs@.take(vs@.len() as int) =~= vs@);
                }
            },
            None => {
                encode_u64(0, out);
            },
        }
        match &self.left {
            Some(c) => c.encode_node(out),
            None => {},
        }
        match &self.right {
            Some(c) => c.encode_node(out),
            None => {},
        }
        proof {
            assert(out@ =~= base + node_enc(*self));
        }
    }
}

/// Structural identity of two nodes: the same shape and the same attached
/// value sequences everywhere. (Two nodes that only differ in the spare
/// capacity of their value lists are identical in this sense.)
pub open(crate) spec fn node_like<V>(a: TrieNode<V>, b: TrieNode<V>) -> bool
    decreases a,
{
    &&& TrieNode::vals_of(a.values) == TrieNode::vals_of(b.values)
    &&& (a.values is Some) == (b.values is Some)
    &&& (match (a.left, b.left) {
        (Some(ac), Some(bc)) => node_like(*ac, *bc),
        (None, None) => true,
        _ => false,
    })
    &&& (match (a.right, b.right) {
        (Some(ac), Some(bc)) => node_like(*ac, *bc),
        (None, None) => true,
        _ => false,
    })
}

/// Structural identity of two tries: their roots are structurally identical.
pub open(crate) spec fn trie_like<V>(a: Trie<V>, b: Trie<V>) -> bool {
    node_like(a.spec_root(), b.spec_root())
}

/// Law: structurally identical nodes store the same values at every path, so
/// they behave the same under every lookup.
pub proof fn lemma_node_like_stored<V>(a: TrieNode<V>, b: TrieNode<V>, q: Seq<bool>)
    requires
        node_like(a, b),
    ensures
        a.stored(q) == b.stored(q),
    decreases q.len(),
{
    if q.len() > 0 {
        if !q[0] {
            match (a.left, b.left) {
                (Some(ac), Some(bc)) => {
                    lemma_node_like_stored(*ac, *bc, q.skip(1));
                },
                _ => {},
            }
        } else {
            match (a.right, b.right) {
                (Some(ac), Some(bc)) => {
                    lemma_node_like_stored(*ac, *bc, q.skip(1));
                },
                _ => {},
            }
        }
    }
}

/// Law: a trie structurally identical to another stores the same values at
/// every path and returns the same lookup for every address.
pub proof fn lemma_trie_like_behaves<V>(a: Trie<V>, b: Trie<V>, ip: u32)
    requires
        trie_like(a, b),
    ensures
        forall|q: Seq<bool>| #![auto] a.stored(q) == b.stored(q),
        a.lookup(ip) == b.lookup(ip),
{
    assert forall|q: Seq<bool>| #![auto] a.stored(q) == b.stored(q) by {
        lemma_node_like_stored(a.spec_root(), b.spec_root(), q);
    }
    assert forall|p: int|
        #![auto]
        0 <= p <= 32 implies a.spec_root().stored(path_of(ip, p)) == b.spec_root().stored(
        path_of(ip, p),
    ) by {
        lemma_node_like_stored(a.spec_root(), b.spec_root(), path_of(ip, p));
    }
    TrieNode::lemma_collect_agree(a.spec_root(), b.spec_root(), ip, 0, 32);
}

/// Node encodings are self-delimiting: when the encodings of two nodes whose
/// value lists are non-empty agree up to trailing bytes, the nodes are
/// structurally identical and the trailing bytes agree.
#[verifier::rlimit(100)]
pub(crate) proof fn lemma_node_enc_prefix_free<V: Codec>(
    n1: TrieNode<V>,
    n2: TrieNode<V>,
    r1: Seq<u8>,
    r2: Seq<u8>,
)
    requires
        n1.vals_ok(),
        n2.vals_ok(),
        node_enc(n1) + r1 == node_enc(n2) + r2,
    ensures
        node_like(n1, n2),
        r1 == r2,
    decreases n1,
{
    let b = node_enc(n1) + r1;
    let blen = b.len() as int;
    let e1 = node_enc(n1).len() as int;
    let e2 = node_enc(n2).len() as int;
    assert(node_enc(n1) == b.subrange(0, e1)) by {
        assert(node_enc(n1) =~= b.subrange(0, e1));
    }
    assert(node_enc(n2) == b.subrange(0, e2)) by {
        assert(node_enc(n2) =~= b.subrange(0, e2));
    }
    lemma_node_enc_parts(n1, b, 0, e1);
    lemma_node_enc_parts(n2, b, 0, e2);
    let v1 = TrieNode::vals_of(n1.values);
    let v2 = TrieNode::vals_of(n2.values);
    assert((n1.left is Some) == (n2.left is Some));
    assert((n1.right is Some) == (n2.right is Some));
    lemma_u64_le_injective(v1.len() as u64, v2.len() as u64);
    match n1.values {
        Some(nv) => {
            vstd::std_specs::vec::axiom_spec_len(&nv);
        },
        None => {},
    }
    match n2.values {
        Some(nv) => {
            vstd::std_specs::vec::axiom_spec_len(&nv);
        },
        None => {},
    }
    assert(v1.len() == v2.len());
    assert((n1.values is Some) == (n2.values is Some));
    let vl1 = vals_enc(v1).len() as int;
    let vl2 = vals_enc(v2).len() as int;
    lemma_subrange_join(b, 10, 10 + vl1, blen);
    lemma_subrange_join(b, 10, 10 + vl2, blen);
    lemma_vals_enc_prefix(v1, v2, b.subrange(10 + vl1, blen), b.subrange(10 + vl2, blen));
    assert(v2.take(v2.len() as int) =~= v2);
    assert(v1 == v2);
    let pl = 10 + vl1;
    let ll1 = opt_enc(n1.left).len() as int;
    let ll2 = opt_enc(n2.left).len() as int;
    lemma_subrange_join(b, pl, pl + ll1, blen);
    lemma_subrange_join(b, pl, pl + ll2, blen);
    match (n1.left, n2.left) {
        (Some(c1), Some(c2)) => {
            lemma_node_enc_prefix_free(
                *c1,
                *c2,
                b.subrange(pl + ll1, blen),
                b.subrange(pl + ll2, blen),
            );
        },
        _ => {
            assert(Seq::<u8>::empty() + b.subrange(pl + ll1, blen) =~= b.subrange(pl + ll1, blen));
            assert(Seq::<u8>::empty() + b.subrange(pl + ll2, blen) =~= b.subrange(pl + ll2, blen));
        },
    }
    assert(ll1 == ll2);
    let pr = pl + ll1;
    let rl1 = opt_enc(n1.right).len() as int;
    let rl2 = opt_enc(n2.right).len() as int;
    lemma_subrange_join(b, pr, pr + rl1, blen);
    lemma_subrange_join(b, pr, pr + rl2, blen);
    assert(opt_enc(n1.right) == b.subrange(pr, pr + rl1));
    assert(opt_enc(n2.right) == b.subrange(pr, pr + rl2));
    match (n1.right, n2.right) {
        (Some(c1), Some(c2)) => {
            lemma_node_enc_prefix_free(
                *c1,
                *c2,
                b.subrange(pr + rl1, blen),
                b.subrange(pr + rl2, blen),
            );
        },
        _ => {
            assert(Seq::<u8>::empty() + b.subrange(pr + rl1, blen) =~= b.subrange(pr + rl1, blen));
            assert(Seq::<u8>::empty() + b.subrange(pr + rl2, blen) =~= b.subrange(pr + rl2, blen));
        },
    }
    assert(rl1 == rl2);
    assert(r1 =~= b.subrange(e1, blen));
    assert(r2 =~= b.subrange(e2, blen));
}

/// Law: the snapshot encoding is injective on well-formed tries. Two
/// well-formed tries with the same byte snapshot are structurally identical,
/// so writing a trie and reading the bytes back reproduces its structure and,
/// by [`lemma_trie_like_behaves`], its behavior.
pub proof fn lemma_trie_enc_injective<V: Codec>(t1: Trie<V>, t2: Trie<V>)
    requires
        t1.wf(),
        t2.wf(),
        trie_enc(t1) == trie_enc(t2),
    ensures
        trie_like(t1, t2),
{
    let e = trie_enc(t1);
    assert(e + Seq::<u8>::empty() =~= e);
    lemma_node_enc_prefix_free(
        t1.spec_root(),
        t2.spec_root(),
        Seq::<u8>::empty(),
        Seq::<u8>::empty(),
    );
}

/// Whether the encoding of the well-formed node `n` (within `depth` levels,
/// value lists non-empty) occupies exactly `[pos, end)` of `b`.
pub open(crate) spec fn enc_at<V: Codec>(
    b: Seq<u8>,
    pos: int,
    end: int,
    n: TrieNode<V>,
    depth: int,
) -> bool {
    &&& 0 <= pos <= end <= b.len()
    &&& n.depth_ok(depth)
    &&& n.vals_ok()
    &&& node_enc(n) == b.subrange(pos, end)
}

impl<V: Codec> TrieNode<V> {
    /// Decode one node encoding that starts at `pos`, with `depth` levels of
    /// children still allowed below it. Succeeds on exactly the byte ranges
    /// holding the encoding of a well-formed node, and returns a node
    /// structurally identical to it.
    #[verifier::loop_isolation(false)]
    #[verifier::rlimit(100)]
    fn decode_node(bytes: &[u8], pos: usize, depth: u32) -> (r: Option<(TrieNode<V>, usize)>)
        requires
            pos <= bytes@.len(),
        ensures
            r matches Some(p) ==> pos <= p.1 <= bytes@.len() && enc_at(
                bytes@,
                pos as int,
                p.1 as int,
                p.0,
                depth as int,
            ),
            forall|n: TrieNode<V>, end: int|
                #[trigger] enc_at(bytes@, pos as int, end, n, depth as int) ==> (r matches Some(p)
                    && node_like(n, p.0) && p.1 == end),
        decreases bytes@.len() - pos,
    {
        if bytes.len() - pos < 10 {
            proof {
                assert forall|n: TrieNode<V>, end: int|
                    #[trigger] enc_at(bytes@, pos as int, end, n, depth as int) implies false by {
                    lemma_node_enc_parts(n, bytes@, pos as int, end);
                }
            }
            return None;
        }
        let b_l = bytes[pos];
        let b_r = bytes[pos + 1];
        if b_l > 1 || b_r > 1 {
            proof {
                assert forall|n: TrieNode<V>, end: int|
                    #[trigger] enc_at(bytes@, pos as int, end, n, depth as int) implies false by {
                    lemma_node_enc_parts(n, bytes@, pos as int, end);
                }
            }
            return None;
        }
        let has_l = b_l == 1;
        let has_r = b_r == 1;
        let cp = match decode_u64(bytes, pos + 2) {
            Some(cp) => cp,
            None => {
                proof {
                    assert forall|n: TrieNode<V>, end: int|
                        #[trigger] enc_at(bytes@, pos as int, end, n, depth as int) implies false by {
                        lemma_node_enc_parts(n, bytes@, pos as int, end);
                    }
                }
                return None;
            },
        };
        let count = cp.0;
        let mut p = cp.1;
        let mut vs: Vec<V> = Vec::new();
        let mut i: u64 = 0;
        while i < count
            invariant
                pos + 10 <= p <= bytes@.len(),
                i <= count,
                vs@.len() == i,
                vals_enc(vs@) == bytes@.subrange(pos as int + 10, p as int),
            decreases count - i,
        {
            match V::decode(bytes, p) {
                Some(vp) => {
                    proof {
                        lemma_vals_enc_push(vs@, vp.0);
                        lemma_subrange_join(bytes@, pos as int + 10, p as int, vp.1 as int);
                    }
                    vs.push(vp.0);
                    p = vp.1;
                    i = i + 1;
                },
                None => {
                    proof {
                        assert forall|n: TrieNode<V>, end: int|
                            #[trigger] enc_at(bytes@, pos as int, end, n, depth as int) implies false by {
                            lemma_node_enc_parts(n, bytes@, pos as int, end);
                            let nvals = TrieNode::vals_of(n.values);
                            assert(bytes@.subrange(pos as int + 2, pos as int + 10) == u64_le(
                                nvals.len() as u64,
                            ));
                            lemma_u64_le_injective(count, nvals.len() as u64);
                            match n.values {
                                Some(nv) => {
                                    vstd::std_specs::vec::axiom_spec_len(&nv);
                                },
                                None => {},
                            }
                            assert(nvals.len() == count);
                            let blen = bytes@.len() as int;
                            let vend = pos as int + 10 + vals_enc(nvals).len();
                            lemma_subrange_join(bytes@, pos as int + 10, p as int, blen);
                            lemma_subrange_join(bytes@, pos as int + 10, vend, blen);
                            lemma_vals_enc_prefix(
                                vs@,
                                nvals,
                                bytes@.subrange(p as int, blen),
                                bytes@.subrange(vend, blen),
                            );
                            let tail = nvals.skip(i as int);
                            assert(tail.len() > 0);
                            let first = tail[0];
                            let el = first.enc().len() as int;
                            assert((first.enc() + vals_enc(tail.skip(1))) + bytes@.subrange(
                                vend,
                                blen,
                            ) =~= first.enc() + (vals_enc(tail.skip(1)) + bytes@.subrange(
                                vend,
                                blen,
                            )));
                            assert(bytes@.subrange(p as int, blen) == first.enc() + (vals_enc(
                                tail.skip(1),
                            ) + bytes@.subrange(vend, blen)));
                            assert(p + el <= blen);
                            assert forall|j: int| 0 <= j < el implies bytes@.subrange(
                                p as int,
                                p + el,
                            )[j] == first.enc()[j] by {
                                assert(bytes@.subrange(p as int, blen)[j] == first.enc()[j]);
                            }
                            assert(bytes@.subrange(p as int, p + el) =~= first.enc());
                        }
                    }
                    return None;
                },
            }
        }
        let ghost p_vals = p as int;
        let node_values = if count == 0 {
            None
        } else {
            Some(vs)
        };
        let mut left_child: Option<Box<TrieNode<V>>> = None;
        if has_l {
            if depth == 0 {
                proof {
                    assert forall|n: TrieNode<V>, end: int|
                        #[trigger] enc_at(bytes@, pos as int, end, n, depth as int) implies false by {
                        lemma_node_enc_parts(n, bytes@, pos as int, end);
                        assert(n.left is Some);
                    }
                }
                return None;
            }
            match Self::decode_node(bytes, p, depth - 1) {
                Some(cp2) => {
                    left_child = Some(Box::new(cp2.0));
                    p = cp2.1;
                },
                None => {
                    proof {
                        assert forall|n: TrieNode<V>, end: int|
                            #[trigger] enc_at(bytes@, pos as int, end, n, depth as int) implies false by {
                            Self::lemma_candidate_parts(n, bytes@, pos as int, end, count, vs@, depth as int);
                            let lc = n.left.unwrap();
                            assert(enc_at(
                                bytes@,
                                p_vals,
                                p_vals + opt_enc(n.left).len(),
                                *lc,
                                depth as int - 1,
                            ));
                        }
                    }
                    return None;
                },
            }
        }
        let ghost p_left = p as int;
        let mut right_child: Option<Box<TrieNode<V>>> = None;
        if has_r {
            if depth == 0 {
                proof {
                    assert forall|n: TrieNode<V>, end: int|
                        #[trigger] enc_at(bytes@, pos as int, end, n, depth as int) implies false by {
                        lemma_node_enc_parts(n, bytes@, pos as int, end);
                        assert(n.right is Some);
                    }
                }
                return None;
            }
            match Self::decode_node(bytes, p, depth - 1) {
                Some(cp2) => {
                    right_child = Some(Box::new(cp2.0));
                    p = cp2.1;
                },
                None => {
                    proof {
                        assert forall|n: TrieNode<V>, end: int|
                            #[trigger] enc_at(bytes@, pos as int, end, n, depth as int) implies false by {
                            Self::lemma_candidate_parts(n, bytes@, pos as int, end, count, vs@, depth as int);
                            let rc = n.right.unwrap();
                            assert(n.left is Some == has_l);
                            if has_l {
                                let lc = n.left.unwrap();
                                assert(enc_at(
                                    bytes@,
                                    p_vals,
                                    p_vals + opt_enc(n.left).len(),
                                    *lc,
                                    depth as int - 1,
                                ));
                                assert(p_left == p_vals + opt_enc(n.left).len());
                            } else {
                                assert(opt_enc(n.left).len() == 0);
                            }
                            assert(enc_at(
                                bytes@,
                                p_left,
                                p_left + opt_enc(n.right).len(),
                                *rc,
                                depth as int - 1,
                            ));
                        }
                    }
                    return None;
                },
            }
        }
        let node = TrieNode { left: left_child, right: right_child, values: node_values };
        proof {
            let pe = p as int;
            let ps = pos as int;
            assert(TrieNode::vals_of(node.values) == vs@);
            assert(vs@.len() as u64 == count);
            assert(node_enc(node) == seq![bool_byte(node.left is Some), bool_byte(
                node.right is Some,
            )] + u64_le(count) + vals_enc(vs@) + opt_enc(node.left) + opt_enc(node.right));
            assert(bytes@.subrange(ps, ps + 2) =~= seq![bool_byte(node.left is Some), bool_byte(
                node.right is Some,
            )]);
            assert(opt_enc(node.left) == bytes@.subrange(p_vals, p_left));
            assert(opt_enc(node.right) == bytes@.subrange(p_left, pe));
            lemma_subrange_join(bytes@, ps, ps + 2, ps + 10);
            lemma_subrange_join(bytes@, ps, ps + 10, p_vals);
            lemma_subrange_join(bytes@, ps, p_vals, p_left);
            lemma_subrange_join(bytes@, ps, p_left, pe);
            assert(node_enc(node) == bytes@.subrange(ps, pe));
            assert(node.depth_ok(depth as int));
            assert(node.vals_ok());
            assert(enc_at(bytes@, ps, pe, node, depth as int));
            assert forall|n: TrieNode<V>, end: int|
                #[trigger] enc_at(bytes@, ps, end, n, depth as int) implies node_like(n, node)
                && end == pe by {
                Self::lemma_candidate_parts(n, bytes@, ps, end, count, vs@, depth as int);
                assert((n.left is Some) == has_l && (n.right is Some) == has_r);
                if has_l {
                    let lc = n.left.unwrap();
                    assert(enc_at(
                        bytes@,
                        p_vals,
                        p_vals + opt_enc(n.left).len(),
                        *lc,
                        depth as int - 1,
                    ));
                    assert(p_left == p_vals + opt_enc(n.left).len());
                    assert(node_like(*lc, *left_child.unwrap()));
                } else {
                    assert(opt_enc(n.left).len() == 0);
                }
                if has_r {
                    let rc = n.right.unwrap();
                    assert(enc_at(
                        bytes@,
                        p_left,
                        p_left + opt_enc(n.right).len(),
                        *rc,
                        depth as int - 1,
                    ));
                    assert(node_like(*rc, *right_child.unwrap()));
                } else {
                    assert(opt_enc(n.right).len() == 0);
                }
                if count == 0 {
                    assert(n.values is None);
                }
            }
        }
        Some((node, p))
    }

    /// For a well-formed candidate node encoded at `[pos, end)` whose decoded
    /// value count and values are known, place all its parts: the candidate
    /// has exactly the decoded values, its left child's encoding starts right
    /// after them, and the children are well formed.
    proof fn lemma_candidate_parts(
        n: TrieNode<V>,
        b: Seq<u8>,
        pos: int,
        end: int,
        count: u64,
        vs: Seq<V>,
        depth: int,
    )
        requires
            enc_at(b, pos, end, n, depth),
            pos + 10 <= b.len(),
            b.subrange(pos + 2, pos + 10) == u64_le(count),
            vs.len() == count,
            pos + 10 + vals_enc(vs).len() <= b.len(),
            vals_enc(vs) == b.subrange(pos + 10, pos + 10 + vals_enc(vs).len()),
        ensures
            TrieNode::vals_of(n.values) == vs,
            b[pos] == bool_byte(n.left is Some),
            b[pos + 1] == bool_byte(n.right is Some),
            vals_enc(TrieNode::vals_of(n.values)).len() == vals_enc(vs).len(),
            n.left matches Some(c) ==> enc_at(
                b,
                pos + 10 + vals_enc(vs).len(),
                pos + 10 + vals_enc(vs).len() + opt_enc(n.left).len(),
                *c,
                depth - 1,
            ),
            n.right matches Some(c) ==> enc_at(
                b,
                pos + 10 + vals_enc(vs).len() + opt_enc(n.left).len(),
                end,
                *c,
                depth - 1,
            ),
            end == pos + 10 + vals_enc(vs).len() + opt_enc(n.left).len() + opt_enc(n.right).len(),
            count == 0 ==> n.values is None,
    {
        lemma_node_enc_parts(n, b, pos, end);
        let nvals = TrieNode::vals_of(n.values);
        lemma_u64_le_injective(count, nvals.len() as u64);
        match n.values {
            Some(nv) => {
                vstd::std_specs::vec::axiom_spec_len(&nv);
            },
            None => {},
        }
        assert(nvals.len() == count);
        let blen = b.len() as int;
        let vend = pos + 10 + vals_enc(nvals).len();
        lemma_subrange_join(b, pos + 10, pos + 10 + vals_enc(vs).len(), blen);
        lemma_subrange_join(b, pos + 10, vend, blen);
        lemma_vals_enc_prefix(
            vs,
            nvals,
            b.subrange(pos + 10 + vals_enc(vs).len(), blen),
            b.subrange(vend, blen),
        );
        assert(nvals.take(nvals.len() as int) =~= nvals);
        assert(nvals == vs);
        match n.values {
            Some(nv) => {
                assert(nv@.len() > 0);
            },
            None => {},
        }
    }
}

impl<V: Codec> Trie<V> {
    /// Write the state of the trie as a byte snapshot that
    /// [`Trie::from_bytes`] reads back.
    pub fn to_bytes(&self) -> (r: Vec<u8>)
        ensures
            r@ == trie_enc(*self),
    {
        let mut out: Vec<u8> = Vec::new();
        self.root.encode_node(&mut out);
        proof {
            assert(Seq::<u8>::empty() + node_enc(self.root) =~= node_enc(self.root));
        }
        out
    }

    /// Initialize a trie from a byte snapshot. Succeeds on exactly the byte
    /// sequences that encode a well-formed trie, returning a trie
    /// structurally identical to the encoded one — so writing a trie and
    /// reading the bytes back reproduces it. Anything else is an error and
    /// never a partially built trie: bytes that encode no trie (truncated,
    /// or an illegal presence byte) are malformed, and bytes that continue
    /// past the one encoded trie are trailing garbage.
    pub fn from_bytes(bytes: &[u8]) -> (r: Result<Trie<V>, DecodeError>)
        ensures
            r matches Ok(t) ==> trie_enc(t) == bytes@ && t.wf(),
            forall|t: Trie<V>|
                #![auto]
                t.wf() && trie_enc(t) == bytes@ ==> (r matches Ok(t2) && trie_like(t, t2)),
            r == Err::<Trie<V>, DecodeError>(DecodeError::Malformed) ==> forall|
                t: Trie<V>,
                end: int,
            |
                #![auto]
                0 <= end <= bytes@.len() && t.wf() ==> trie_enc(t) != bytes@.subrange(0, end),
            r == Err::<Trie<V>, DecodeError>(DecodeError::TrailingBytes) ==> exists|
                t: Trie<V>,
                end: int,
            |
                #![auto]
                0 <= end < bytes@.len() && t.wf() && trie_enc(t) == bytes@.subrange(0, end),
    {
        match TrieNode::<V>::decode_node(bytes, 0, 32) {
            Some(rp) => {
                let (root, end) = rp;
                if end == bytes.len() {
                    proof {
                        assert(bytes@.subrange(0, bytes@.len() as int) =~= bytes@);
                        assert forall|t: Trie<V>|
                            #![auto]
                            t.wf() && trie_enc(t) == bytes@ implies node_like(
                            t.spec_root(),
                            root,
                        ) by {
                            assert(enc_at(bytes@, 0, bytes@.len() as int, t.spec_root(), 32));
                        }
                    }
                    Ok(Trie::new(root))
                } else {
                    proof {
                        let ghost t0 = Trie { root };
                        assert(t0.wf() && trie_enc(t0) == bytes@.subrange(0, end as int) && 0 <= end
                            < bytes@.len());
                        assert forall|t: Trie<V>|
                            #![auto]
                            t.wf() implies trie_enc(t) != bytes@ by {
                            if trie_enc(t) == bytes@ {
                                assert(bytes@.subrange(0, bytes@.len() as int) =~= bytes@);
                                assert(enc_at(bytes@, 0, bytes@.len() as int, t.spec_root(), 32));
                            }
                        }
                    }
                    Err(DecodeError::TrailingBytes)
                }
            },
            None => {
                proof {
                    assert forall|t: Trie<V>, end: int|
                        #![auto]
                        0 <= end <= bytes@.len() && t.wf() implies trie_enc(t) != bytes@.subrange(
                        0,
                        end,
                    ) by {
                        if trie_enc(t) == bytes@.subrange(0, end) {
                            assert(enc_at(bytes@, 0, end, t.spec_root(), 32));
                        }
                    }
                    assert(bytes@.subrange(0, bytes@.len() as int) =~= bytes@);
                }
                Err(DecodeError::Malformed)
            },
        }
    }
}

} // verus!
