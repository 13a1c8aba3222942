//! The multi-value bitwise trie keyed on IPv4 addresses.
//!
//! Each node owns up to two children and an optional, non-empty, ordered list
//! of attached values. A value inserted for the prefix `net/p` is appended at
//! the node reached by the top `p` bits of `net`; inserting the same prefix
//! twice appends both values. A lookup walks the bits of the queried address
//! from the root and gathers the values of every node it visits, so it
//! returns the values of every prefix that contains the address, ordered from
//! least specific to most specific.

use crate::addr_bits::lemma_full_path_exact;
use crate::addr_bits::lemma_path_step;
use crate::addr_bits::lemma_top_bit;
use crate::addr_bits::nth_bit;
use crate::addr_bits::path_of;
use crate::cidr::CidrBlock;
use crate::cidr::CidrError;
use crate::cidr::spec_parse_cidr;
use vstd::prelude::*;
use vstd::string::StringSliceAdditionalSpecFns;

verus! {

/// A node in the multi-value trie.
#[derive(Debug, PartialEq, Eq)]
pub struct TrieNode<V> {
    pub(crate) left: Option<Box<TrieNode<V>>>,
    pub(crate) right: Option<Box<TrieNode<V>>>,
    pub(crate) values: Option<Vec<V>>,
}

/// A multi-value trie, owning its root node (the node of the `/0` prefix).
#[derive(Debug, PartialEq, Eq)]
pub struct Trie<V> {
    pub(crate) root: TrieNode<V>,
}

/// The sequence a sequence of references points at.
pub open(crate) spec fn derefs<T>(s: Seq<&T>) -> Seq<T> {
    s.map_values(|x: &T| *x)
}

/// Appending a reference to a reference sequence appends the value it points
/// at to the pointed-at sequence.
pub(crate) proof fn lemma_derefs_push<T>(s: Seq<&T>, x: &T)
    ensures
        derefs(s.push(x)) == derefs(s).push(*x),
{
    assert(derefs(s.push(x)) =~= derefs(s).push(*x));
}

impl<V> TrieNode<V> {
    /// The values attached at the node reached from `self` by the bit path
    /// `q` (false = left, true = right); empty when that node is absent or
    /// carries no list. This map from bit paths to value sequences is the
    /// mathematical model of the trie.
    pub open(crate) spec fn stored(self, q: Seq<bool>) -> Seq<V>
        decreases q.len(), 0int,
    {
        if q.len() == 0 {
            Self::vals_of(self.values)
        } else if !q[0] {
            Self::child_stored(self.left, q.skip(1))
        } else {
            Self::child_stored(self.right, q.skip(1))
        }
    }

    /// The values stored under an optional child; empty for a missing child.
    pub open(crate) spec fn child_stored(child: Option<Box<TrieNode<V>>>, q: Seq<bool>) -> Seq<V>
        decreases q.len(), 1int,
    {
        match child {
            Some(c) => c.stored(q),
            None => Seq::empty(),
        }
    }

    /// The attached values as a sequence; empty when no list is attached.
    pub open(crate) spec fn vals_of(v: Option<Vec<V>>) -> Seq<V> {
        match v {
            Some(vs) => vs@,
            None => Seq::empty(),
        }
    }

    /// The child selected by one address bit: left for false, right for true.
    pub open(crate) spec fn child_sel(self, b: bool) -> Option<Box<TrieNode<V>>> {
        if !b {
            self.left
        } else {
            self.right
        }
    }

    /// The values collected along the path of `ip`, levels `lo` through `hi`:
    /// the concatenation, for `p` in `lo..=hi`, of the values stored at the
    /// node that the top `p` bits of `ip` select.
    pub open(crate) spec fn collect(self, ip: u32, lo: int, hi: int) -> Seq<V>
        decreases hi + 1 - lo,
    {
        if lo > hi {
            Seq::empty()
        } else {
            self.stored(path_of(ip, lo)) + self.collect(ip, lo + 1, hi)
        }
    }

    /// All values attached to prefixes that contain the address `ip`, from
    /// the least specific prefix (the root) to the most specific.
    pub open(crate) spec fn lookup(self, ip: u32) -> Seq<V> {
        self.collect(ip, 0, 32)
    }

    /// Every node of the subtree lies within `d` more levels: no trie node is
    /// deeper than the 32 bits of an address.
    pub open(crate) spec fn depth_ok(self, d: int) -> bool
        decreases self,
    {
        &&& (self.left matches Some(c) ==> d > 0 && c.depth_ok(d - 1))
        &&& (self.right matches Some(c) ==> d > 0 && c.depth_ok(d - 1))
    }

    /// Every attached value list in the subtree is non-empty.
    pub open(crate) spec fn vals_ok(self) -> bool
        decreases self,
    {
        &&& (self.values matches Some(vs) ==> vs@.len() > 0)
        &&& (self.left matches Some(c) ==> c.vals_ok())
        &&& (self.right matches Some(c) ==> c.vals_ok())
    }

    /// Create a new empty trie node: no children, no values.
    pub fn empty() -> (r: Self)
        ensures
            forall|q: Seq<bool>| r.stored(q) == Seq::<V>::empty(),
            r.depth_ok(0),
            forall|d: int| r.depth_ok(d),
            r.vals_ok(),
    {
        TrieNode { left: None, right: None, values: None }
    }

    /// Create a new trie node with the provided children and value list.
    pub fn new(
        left: Option<Box<TrieNode<V>>>,
        right: Option<Box<TrieNode<V>>>,
        value: Option<Vec<V>>,
    ) -> (node: Self)
        ensures
            forall|q: Seq<bool>|
                node.stored(q) == if q.len() == 0 {
                    Self::vals_of(value)
                } else if !q[0] {
                    Self::child_stored(left, q.skip(1))
                } else {
                    Self::child_stored(right, q.skip(1))
                },
    {
        TrieNode { left, right, values: value }
    }

    /// Collecting over a range of levels splits at any middle level.
    pub(crate) proof fn lemma_collect_split(self, ip: u32, lo: int, mid: int, hi: int)
        requires
            lo - 1 <= mid <= hi,
        ensures
            self.collect(ip, lo, hi) == self.collect(ip, lo, mid) + self.collect(ip, mid + 1, hi),
        decreases mid + 1 - lo,
    {
        if lo > mid {
            assert(self.collect(ip, lo, mid) == Seq::<V>::empty());
            assert(Seq::<V>::empty() + self.collect(ip, mid + 1, hi) =~= self.collect(
                ip,
                mid + 1,
                hi,
            ));
        } else {
            self.lemma_collect_split(ip, lo + 1, mid, hi);
            let s0 = self.stored(path_of(ip, lo));
            assert(s0 + (self.collect(ip, lo + 1, mid) + self.collect(ip, mid + 1, hi)) =~= (s0
                + self.collect(ip, lo + 1, mid)) + self.collect(ip, mid + 1, hi));
        }
    }

    /// Two nodes that store the same values at every level of a range
    /// collect the same values over that range.
    pub(crate) proof fn lemma_collect_agree(a: Self, b: Self, ip: u32, lo: int, hi: int)
        requires
            forall|p: int|
                #![auto]
                lo <= p <= hi ==> a.stored(path_of(ip, p)) == b.stored(path_of(ip, p)),
        ensures
            a.collect(ip, lo, hi) == b.collect(ip, lo, hi),
        decreases hi + 1 - lo,
    {
        if lo <= hi {
            Self::lemma_collect_agree(a, b, ip, lo + 1, hi);
        }
    }

    /// A node that stores nothing at any level of a range collects nothing
    /// over that range.
    pub(crate) proof fn lemma_collect_none(self, ip: u32, lo: int, hi: int)
        requires
            forall|p: int| #![auto] lo <= p <= hi ==> self.stored(path_of(ip, p)) == Seq::<V>::empty(),
        ensures
            self.collect(ip, lo, hi) == Seq::<V>::empty(),
        decreases hi + 1 - lo,
    {
        if lo <= hi {
            self.lemma_collect_none(ip, lo + 1, hi);
            assert(Seq::<V>::empty() + Seq::<V>::empty() =~= Seq::<V>::empty());
        }
    }

    /// Collecting along levels `lo..=hi` (with `lo` at least 1) reads only
    /// the subtree under the child that the top bit of `ip` selects, shifted
    /// one level up.
    pub(crate) proof fn lemma_collect_shift(self, ip: u32, lo: int, hi: int)
        requires
            1 <= lo,
            hi <= 32,
        ensures
            self.collect(ip, lo, hi) == match self.child_sel(nth_bit(ip, 0)) {
                Some(c) => c.collect(ip << 1u32, lo - 1, hi - 1),
                None => Seq::<V>::empty(),
            },
        decreases hi + 1 - lo,
    {
        if lo > hi {
            assert(self.collect(ip, lo, hi) == Seq::<V>::empty());
        } else {
            lemma_path_step(ip, lo);
            let p = path_of(ip, lo);
            let p_rest = path_of(ip << 1u32, lo - 1);
            assert(p.len() == lo);
            assert(p[0] == nth_bit(ip, 0));
            assert(p.skip(1) =~= p_rest);
            self.lemma_collect_shift(ip, lo + 1, hi);
            match self.child_sel(nth_bit(ip, 0)) {
                Some(c) => {
                    assert(self.stored(p) == c.stored(p_rest));
                    assert(c.collect(ip << 1u32, lo - 1, hi - 1) == c.stored(p_rest) + c.collect(
                        ip << 1u32,
                        lo,
                        hi - 1,
                    ));
                },
                None => {
                    assert(self.stored(p) == Seq::<V>::empty());
                    assert(Seq::<V>::empty() + Seq::<V>::empty() =~= Seq::<V>::empty());
                },
            }
        }
    }

    /// Append to `buffer` the values of every prefix along the path of `ip`,
    /// for at most `remaining` more bits, in least-specific-first order.
    fn get_rec<'a>(&'a self, ip: u32, remaining: u32, buffer: &mut Vec<&'a V>)
        requires
            remaining <= 32,
        ensures
            derefs(final(buffer)@) == derefs(old(buffer)@) + self.collect(ip, 0, remaining as int),
        decreases remaining,
    {
        let ghost buf0 = old(buffer)@;
        let ghost level0 = Self::vals_of(self.values);
        if let Some(vs) = &self.values {
            let mut i: usize = 0;
            while i < vs.len()
                invariant
                    i <= vs.len(),
                    derefs(buffer@) == derefs(buf0) + vs@.subrange(0, i as int),
                decreases vs.len() - i,
            {
                proof {
                    lemma_derefs_push(buffer@, &vs@[i as int]);
                    assert(vs@.subrange(0, i as int).push(vs@[i as int]) =~= vs@.subrange(
                        0,
                        i as int + 1,
                    ));
                }
                buffer.push(&vs[i]);
                i = i + 1;
            }
            proof {
                assert(vs@.subrange(0, vs@.len() as int) =~= vs@);
            }
        }
        proof {
            assert(derefs(buffer@) =~= derefs(buf0) + level0);
        }
        let ghost mid = buffer@;
        if remaining > 0 {
            let go_right = (ip & 0x8000_0000u32) != 0;
            let child = if !go_right {
                &self.left
            } else {
                &self.right
            };
            if let Some(c) = child {
                c.get_rec(ip << 1u32, remaining - 1, buffer);
            }
        }
        proof {
            lemma_top_bit(ip);
            assert(path_of(ip, 0) =~= Seq::<bool>::empty());
            assert(self.stored(path_of(ip, 0)) == level0);
            if remaining == 0 {
                assert(self.collect(ip, 1, 0) == Seq::<V>::empty());
                assert(self.collect(ip, 0, 0) =~= level0);
            } else {
                self.lemma_collect_shift(ip, 1, remaining as int);
                match self.child_sel(nth_bit(ip, 0)) {
                    Some(c) => {
                        assert(derefs(buffer@) == derefs(mid) + c.collect(
                            ip << 1u32,
                            0,
                            remaining as int - 1,
                        ));
                    },
                    None => {
                        assert(derefs(buffer@) == derefs(mid));
                        assert(derefs(mid) + Seq::<V>::empty() =~= derefs(mid));
                    },
                }
                assert(self.collect(ip, 0, remaining as int) == level0 + self.collect(
                    ip,
                    1,
                    remaining as int,
                ));
            }
            assert(derefs(buffer@) =~= derefs(buf0) + self.collect(ip, 0, remaining as int));
        }
    }

    /// Insert `value` at the node `n` bits of `ip` down from `self`, creating
    /// the nodes of the path as needed and appending to the list there.
    fn insert_rec(&mut self, ip: u32, n: u32, value: V)
        requires
            n <= 32,
        ensures
            forall|q: Seq<bool>|
                #![auto]
                final(self).stored(q) == if q == path_of(ip, n as int) {
                    old(self).stored(q).push(value)
                } else {
                    old(self).stored(q)
                },
            forall|d: int| #![auto] n <= d && old(self).depth_ok(d) ==> final(self).depth_ok(d),
            old(self).vals_ok() ==> final(self).vals_ok(),
        decreases n,
    {
        if n == 0 {
            let mut vs = match self.values.take() {
                Some(vs) => vs,
                None => Vec::new(),
            };
            vs.push(value);
            self.values = Some(vs);
            proof {
                assert(path_of(ip, 0).len() == 0);
                assert forall|q: Seq<bool>| q.len() == 0 implies q == path_of(ip, 0) by {
                    assert(q =~= path_of(ip, 0));
                }
            }
        } else {
            let go_right = (ip & 0x8000_0000u32) != 0;
            let ghost mut c0: TrieNode<V> = TrieNode { left: None, right: None, values: None };
            let ghost mut c1: TrieNode<V> = c0;
            if !go_right {
                let mut child = match self.left.take() {
                    Some(c) => *c,
                    None => TrieNode::empty(),
                };
                proof {
                    c0 = child;
                }
                child.insert_rec(ip << 1u32, n - 1, value);
                proof {
                    c1 = child;
                }
                self.left = Some(Box::new(child));
            } else {
                let mut child = match self.right.take() {
                    Some(c) => *c,
                    None => TrieNode::empty(),
                };
                proof {
                    c0 = child;
                }
                child.insert_rec(ip << 1u32, n - 1, value);
                proof {
                    c1 = child;
                }
                self.right = Some(Box::new(child));
            }
            proof {
                lemma_top_bit(ip);
                lemma_path_step(ip, n as int);
                let p = path_of(ip, n as int);
                let p_rest = path_of(ip << 1u32, n as int - 1);
                assert(p.len() == n as int);
                assert(p =~= seq![go_right] + p_rest);
                assert(forall|q2: Seq<bool>|
                    #![auto]
                    c1.stored(q2) == if q2 == p_rest {
                        c0.stored(q2).push(value)
                    } else {
                        c0.stored(q2)
                    });
                assert forall|q: Seq<bool>|
                    #![auto]
                    self.stored(q) == (if q == p {
                        old(self).stored(q).push(value)
                    } else {
                        old(self).stored(q)
                    }) by {
                    if q.len() == 0 {
                        assert(q != p);
                        assert(self.values == old(self).values);
                    } else {
                        let qr = q.skip(1);
                        if q[0] == go_right {
                            assert(p.skip(1) =~= p_rest);
                            if qr == p_rest {
                                assert(q =~= seq![go_right] + p_rest);
                                assert(q == p);
                            } else {
                                assert(q != p);
                            }
                            if go_right {
                                assert(self.right matches Some(c) && c == c1);
                                assert(self.stored(q) == c1.stored(qr));
                                match old(self).right {
                                    Some(c) => {
                                        assert(c0 == *c);
                                        assert(old(self).stored(q) == c0.stored(qr));
                                    },
                                    None => {
                                        assert(old(self).stored(q) == Seq::<V>::empty());
                                        assert(c0.stored(qr) == Seq::<V>::empty());
                                    },
                                }
                            } else {
                                assert(self.left matches Some(c) && c == c1);
                                assert(self.stored(q) == c1.stored(qr));
                                match old(self).left {
                                    Some(c) => {
                                        assert(c0 == *c);
                                        assert(old(self).stored(q) == c0.stored(qr));
                                    },
                                    None => {
                                        assert(old(self).stored(q) == Seq::<V>::empty());
                                        assert(c0.stored(qr) == Seq::<V>::empty());
                                    },
                                }
                            }
                        } else {
                            assert(q[0] != p[0]);
                            assert(q != p);
                            if q[0] {
                                assert(self.right == old(self).right);
                            } else {
                                assert(self.left == old(self).left);
                            }
                        }
                    }
                }
                assert forall|d: int| #![auto] n <= d && old(self).depth_ok(d) implies self.depth_ok(
                    d,
                ) by {
                    assert(c0.depth_ok(d - 1));
                    assert(c1.depth_ok(d - 1));
                }
            }
        }
    }
}

impl<V> Trie<V> {
    /// The values attached at the bit path `q`; see [`TrieNode::stored`].
    pub open(crate) spec fn stored(self, q: Seq<bool>) -> Seq<V> {
        self.root.stored(q)
    }

    /// All values attached to prefixes containing `ip`, least specific first;
    /// see [`TrieNode::lookup`].
    pub open(crate) spec fn lookup(self, ip: u32) -> Seq<V> {
        self.root.lookup(ip)
    }

    /// The root node of the trie.
    pub open(crate) spec fn spec_root(self) -> TrieNode<V> {
        self.root
    }

    /// Well-formedness: no node deeper than 32 bits, and every attached value
    /// list non-empty.
    pub open(crate) spec fn wf(self) -> bool {
        self.root.depth_ok(32) && self.root.vals_ok()
    }

    /// The values collected along the path of `ip`, prefix lengths `lo`
    /// through `hi`; see [`TrieNode::collect`].
    pub open(crate) spec fn collect(self, ip: u32, lo: int, hi: int) -> Seq<V> {
        self.root.collect(ip, lo, hi)
    }

    /// The relation between the tries before and after one insertion of
    /// `value` at the prefix `net/prefix`: the value list at that prefix's
    /// bit path has `value` appended; every other path is unchanged.
    pub open(crate) spec fn inserted(pre: Self, post: Self, net: u32, prefix: u32, value: V) -> bool {
        forall|q: Seq<bool>|
            #![auto]
            post.stored(q) == if q == path_of(net, prefix as int) {
                pre.stored(q).push(value)
            } else {
                pre.stored(q)
            }
    }

    /// Create a new empty trie.
    pub fn empty() -> (r: Self)
        ensures
            forall|q: Seq<bool>| r.stored(q) == Seq::<V>::empty(),
            r.wf(),
    {
        Trie { root: TrieNode::empty() }
    }

    /// Create a new trie with the provided node as root.
    pub fn new(root: TrieNode<V>) -> (r: Self)
        ensures
            r.spec_root() == root,
            forall|q: Seq<bool>| r.stored(q) == root.stored(q),
    {
        Trie { root }
    }

    /// Get the root node of the trie.
    pub fn root(&self) -> (r: &TrieNode<V>)
        ensures
            *r == self.spec_root(),
    {
        &self.root
    }

    /// Insert a new CIDR block with corresponding value to the trie: parse
    /// `cidr` and append `value` at the parsed prefix. Fails with a parse
    /// error exactly when the text is malformed, leaving the trie unchanged.
    pub fn insert_cidr(&mut self, cidr: &str, value: V) -> (r: Result<(), CidrError>)
        ensures
            match spec_parse_cidr(cidr.spec_bytes()) {
                Some(np) => r is Ok && Self::inserted(*old(self), *final(self), np.0, np.1, value)
                    && (old(self).wf() ==> final(self).wf()),
                None => r == Err::<(), CidrError>(CidrError::Malformed) && *final(self) == *old(
                    self,
                ),
            },
    {
        let cb = match CidrBlock::from_str(cidr) {
            Ok(cb) => cb,
            Err(e) => {
                return Err(e);
            },
        };
        self.root.insert_rec(cb.net, cb.prefix, value);
        Ok(())
    }

    /// Insert a new CIDR block by its net and prefix values: append `value`
    /// at the prefix of the top `prefix` bits of `net`. Rejected exactly when
    /// `prefix` is greater than 32, leaving the trie unchanged.
    pub fn insert_net_and_prefix(&mut self, net: u32, prefix: u32, value: V) -> (r: Result<
        (),
        CidrError,
    >)
        ensures
            prefix <= 32 ==> r is Ok && Self::inserted(
                *old(self),
                *final(self),
                net,
                prefix,
                value,
            ) && (old(self).wf() ==> final(self).wf()),
            prefix > 32 ==> r == Err::<(), CidrError>(CidrError::PrefixTooLong) && *final(self)
                == *old(self),
    {
        if prefix > 32 {
            return Err(CidrError::PrefixTooLong);
        }
        self.root.insert_rec(net, prefix, value);
        Ok(())
    }

    /// Get the values associated with the provided ip address: one reference
    /// for each value attached to a prefix that contains `ip`, ordered from
    /// least specific to most specific prefix, insertion order within a
    /// prefix. Empty when no inserted prefix contains `ip`.
    pub fn get<'a>(&'a self, ip: u32) -> (r: Vec<&'a V>)
        ensures
            derefs(r@) == self.lookup(ip),
    {
        let mut buffer: Vec<&V> = Vec::with_capacity(32);
        proof {
            assert(derefs(buffer@) =~= Seq::<V>::empty());
        }
        self.root.get_rec(ip, 32, &mut buffer);
        proof {
            assert(Seq::<V>::empty() + self.root.collect(ip, 0, 32) =~= self.lookup(ip));
        }
        buffer
    }

    /// Get whether or not the trie contains the provided ip address: true
    /// exactly when some inserted prefix contains `ip`.
    pub fn contains_ip(&self, ip: u32) -> (r: bool)
        ensures
            r == (self.lookup(ip).len() != 0),
    {
        let buffer = self.get(ip);
        buffer.len() != 0
    }

    /// Law: matches are ordered from least specific to most specific. A
    /// lookup splits at any prefix length `m`: the values of prefixes of
    /// length at most `m` come first, then the values of longer prefixes.
    pub proof fn lemma_lookup_split_at(self, a: u32, m: int)
        requires
            0 <= m <= 32,
        ensures
            self.lookup(a) == self.collect(a, 0, m) + self.collect(a, m + 1, 32),
    {
        self.root.lemma_collect_split(a, 0, m, 32);
    }

    /// Law: after inserting `value` at the prefix `net/prefix`, a lookup of
    /// any address `a` that the prefix contains (its top `prefix` bits equal
    /// `net`'s) finds `value`.
    pub proof fn lemma_insert_matches(
        pre: Trie<V>,
        post: Trie<V>,
        net: u32,
        prefix: u32,
        value: V,
        a: u32,
    )
        requires
            prefix <= 32,
            Trie::inserted(pre, post, net, prefix, value),
            path_of(a, prefix as int) == path_of(net, prefix as int),
        ensures
            post.lookup(a).contains(value),
    {
        let m = prefix as int;
        let pp = path_of(net, m);
        post.root.lemma_collect_split(a, 0, m - 1, 32);
        post.root.lemma_collect_split(a, m, m, 32);
        assert(post.collect(a, m, m) =~= post.stored(pp) + Seq::<V>::empty());
        assert(post.collect(a, m, m) =~= post.stored(pp));
        assert(post.stored(pp) == pre.stored(pp).push(value));
        let i0 = post.collect(a, 0, m - 1).len() as int;
        let j = pre.stored(pp).len() as int;
        assert(post.lookup(a) == post.collect(a, 0, m - 1) + (post.collect(a, m, m) + post.collect(
            a,
            m + 1,
            32,
        )));
        assert(post.lookup(a)[i0 + j] == value);
    }

    /// Law: an address that no inserted prefix contains (every node along
    /// its path stores nothing) gets an empty lookup, so `get` returns
    /// nothing and `contains_ip` is false for it.
    pub proof fn lemma_no_match_empty(self, a: u32)
        requires
            forall|p: int|
                #![auto]
                0 <= p <= 32 ==> self.stored(path_of(a, p)) == Seq::<V>::empty(),
        ensures
            self.lookup(a).len() == 0,
    {
        self.root.lemma_collect_none(a, 0, 32);
    }

    /// Law: the empty trie (every path stores nothing, as `Trie::empty`
    /// ensures) matches no address at all.
    pub proof fn lemma_empty_matches_nothing(self, a: u32)
        requires
            forall|q: Seq<bool>| self.stored(q) == Seq::<V>::empty(),
        ensures
            self.lookup(a).len() == 0,
    {
        self.lemma_no_match_empty(a);
    }

    /// Law: duplicate-prefix insertion is additive. Inserting at one prefix
    /// first `x` and then `y` appends both, in that order, and a lookup of an
    /// address the prefix contains returns them in that order, after the
    /// values of shorter prefixes and before those of longer ones.
    pub proof fn lemma_duplicate_insert(
        pre: Trie<V>,
        mid: Trie<V>,
        post: Trie<V>,
        net: u32,
        prefix: u32,
        x: V,
        y: V,
        a: u32,
    )
        requires
            prefix <= 32,
            Trie::inserted(pre, mid, net, prefix, x),
            Trie::inserted(mid, post, net, prefix, y),
            path_of(a, prefix as int) == path_of(net, prefix as int),
        ensures
            post.stored(path_of(net, prefix as int)) == pre.stored(
                path_of(net, prefix as int),
            ).push(x).push(y),
            post.lookup(a) == post.collect(a, 0, prefix as int - 1) + post.stored(
                path_of(net, prefix as int),
            ) + post.collect(a, prefix as int + 1, 32),
    {
        let m = prefix as int;
        let pp = path_of(net, m);
        post.root.lemma_collect_split(a, 0, m - 1, 32);
        post.root.lemma_collect_split(a, m, m, 32);
        assert(post.collect(a, m, m) =~= post.stored(pp) + Seq::<V>::empty());
        assert(post.collect(a, m, m) =~= post.stored(pp));
        assert(post.lookup(a) =~= post.collect(a, 0, m - 1) + post.stored(pp) + post.collect(
            a,
            m + 1,
            32,
        ));
    }

    /// Law: a `/0` prefix contains every address: after inserting `value` at
    /// `net/0`, every lookup finds it.
    pub proof fn lemma_zero_prefix_matches_all(
        pre: Trie<V>,
        post: Trie<V>,
        net: u32,
        value: V,
        a: u32,
    )
        requires
            Trie::inserted(pre, post, net, 0, value),
        ensures
            post.lookup(a).contains(value),
    {
        assert(path_of(a, 0) =~= path_of(net, 0));
        Self::lemma_insert_matches(pre, post, net, 0, value, a);
    }

    /// Law: a `/32` prefix contains only the exact address: inserting at
    /// `net/32` leaves the lookup of every other address unchanged.
    pub proof fn lemma_host_prefix_exact(
        pre: Trie<V>,
        post: Trie<V>,
        net: u32,
        value: V,
        a: u32,
    )
        requires
            Trie::inserted(pre, post, net, 32, value),
            a != net,
        ensures
            post.lookup(a) == pre.lookup(a),
    {
        let pp = path_of(net, 32);
        assert forall|p: int|
            #![auto]
            0 <= p <= 32 implies post.stored(path_of(a, p)) == pre.stored(path_of(a, p)) by {
            if path_of(a, p) == pp {
                assert(path_of(a, p).len() == p);
                assert(p == 32);
                lemma_full_path_exact(a, net);
                assert(false);
            }
        }
        TrieNode::lemma_collect_agree(post.root, pre.root, a, 0, 32);
    }
}

} // verus!
