//! A single-value binary trie over IPv4 address bits.
//!
//! Each node owns up to two children; descending into the left child consumes
//! a 0 bit of the address, descending into the right child a 1 bit. A node
//! carries at most one value: inserting a prefix whose decision point is a
//! node that already carries a value replaces that value. The multi-value
//! trie in [`crate::radix_trie`] appends instead; this variant is the simpler
//! single-tenant form.

use crate::addr_bits::lemma_path_step;
use crate::addr_bits::lemma_pre_mask_injective;
use crate::addr_bits::lemma_pre_mask_shift;
use crate::addr_bits::lemma_pre_mask_zero;
use crate::addr_bits::lemma_top_bit;
use crate::addr_bits::path_of;
use crate::addr_bits::pre_mask;
use vstd::prelude::*;

verus! {

/// A single-value binary trie, owning its root node.
#[derive(Debug, PartialEq, Eq, Hash)]
pub struct IpTrie<V> {
    pub(crate) root: IpTrieNode<V>,
}

/// A node in the single-value trie.
#[derive(Debug, PartialEq, Eq, Hash)]
pub struct IpTrieNode<V> {
    pub(crate) left: Option<Box<IpTrieNode<V>>>,
    pub(crate) right: Option<Box<IpTrieNode<V>>>,
    pub(crate) value: Option<V>,
}

impl<V> IpTrieNode<V> {
    /// The value stored at the node reached from `self` by following the bit
    /// path `q` (false = left, true = right), or `None` when that node is
    /// absent or carries no value. This map is the mathematical model of the
    /// trie: every operation is specified by how it reads or changes it.
    pub open(crate) spec fn stored(self, q: Seq<bool>) -> Option<V>
        decreases q.len(), 0int,
    {
        if q.len() == 0 {
            self.value
        } else if !q[0] {
            Self::child_stored(self.left, q.skip(1))
        } else {
            Self::child_stored(self.right, q.skip(1))
        }
    }

    /// The value stored under an optional child, `None` for a missing child.
    pub open(crate) spec fn child_stored(child: Option<Box<IpTrieNode<V>>>, q: Seq<bool>) -> Option<
        V,
    >
        decreases q.len(), 1int,
    {
        match child {
            Some(c) => c.stored(q),
            None => None,
        }
    }

    /// Create a new empty trie node: no children, no value.
    pub fn empty() -> (r: Self)
        ensures
            forall|q: Seq<bool>| r.stored(q) is None,
    {
        IpTrieNode { left: None, right: None, value: None }
    }

    /// Create a new trie node with the provided children and value.
    pub fn new(l: Option<Box<IpTrieNode<V>>>, r: Option<Box<IpTrieNode<V>>>, v: Option<V>) -> (node:
        Self)
        ensures
            forall|q: Seq<bool>|
                node.stored(q) == if q.len() == 0 {
                    v
                } else if !q[0] {
                    Self::child_stored(l, q.skip(1))
                } else {
                    Self::child_stored(r, q.skip(1))
                },
    {
        IpTrieNode { left: l, right: r, value: v }
    }

    /// Get whether this is a leaf node or not.
    ///
    /// A node that carries no value reports true; a node that carries a value
    /// reports false.
    pub fn is_leaf(&self) -> (r: bool)
        ensures
            r == (self.stored(Seq::empty()) is None),
    {
        self.value.is_none()
    }

    /// Insert `value` at the prefix whose network address is `ip` and whose
    /// remaining mask bits are `mask` (the top `p` bits set for a prefix of
    /// length `p`). The node at the prefix's bit path receives the value,
    /// replacing any value already there; missing nodes along the path are
    /// created; every other node keeps its value.
    pub fn insert(&mut self, ip: u32, mask: u32, value: V)
        requires
            exists|p: u32| p <= 32 && mask == pre_mask(p),
        ensures
            forall|p: u32|
                p <= 32 && mask == pre_mask(p) ==> forall|q: Seq<bool>|
                    #![auto]
                    final(self).stored(q) == if q == path_of(ip, p as int) {
                        Some(value)
                    } else {
                        old(self).stored(q)
                    },
    {
        let ghost p0: u32 = choose|p: u32| p <= 32 && mask == pre_mask(p);
        let mut m: u32 = mask;
        let mut n: u32 = 0;
        while m != 0
            invariant
                n <= p0 <= 32,
                m == pre_mask((p0 - n) as u32),
            decreases p0 - n,
        {
            proof {
                lemma_pre_mask_zero((p0 - n) as u32);
                lemma_pre_mask_shift((p0 - n) as u32);
            }
            m = m << 1u32;
            n = n + 1;
        }
        proof {
            lemma_pre_mask_zero((p0 - n) as u32);
            assert(n == p0);
        }
        self.insert_n(ip, n, value);
        proof {
            assert forall|p: u32| p <= 32 && mask == pre_mask(p) implies p == p0 by {
                lemma_pre_mask_injective(p, p0);
            }
        }
    }

    /// Insert `value` at the node `n` bits of `ip` down from `self`.
    fn insert_n(&mut self, ip: u32, n: u32, value: V)
        requires
            n <= 32,
        ensures
            forall|q: Seq<bool>|
                #![auto]
                final(self).stored(q) == if q == path_of(ip, n as int) {
                    Some(value)
                } else {
                    old(self).stored(q)
                },
        decreases n,
    {
        if n == 0 {
            self.value = Some(value);
            proof {
                assert(path_of(ip, 0).len() == 0);
                assert forall|q: Seq<bool>| q.len() == 0 implies q == path_of(ip, 0) by {
                    assert(q =~= path_of(ip, 0));
                }
            }
        } else {
            let go_right = (ip & 0x8000_0000u32) != 0;
            let ghost mut c0: IpTrieNode<V> = IpTrieNode { left: None, right: None, value: None };
            let ghost mut c1: IpTrieNode<V> = c0;
            if !go_right {
                let mut child = match self.left.take() {
                    Some(c) => *c,
                    None => IpTrieNode::empty(),
                };
                proof {
                    c0 = child;
                }
                child.insert_n(ip << 1u32, n - 1, value);
                proof {
                    c1 = child;
                }
                self.left = Some(Box::new(child));
            } else {
                let mut child = match self.right.take() {
                    Some(c) => *c,
                    None => IpTrieNode::empty(),
                };
                proof {
                    c0 = child;
                }
                child.insert_n(ip << 1u32, n - 1, value);
                proof {
                    c1 = child;
                }
                self.right = Some(Box::new(child));
            }
            proof {
                lemma_top_bit(ip);
                lemma_path_step(ip, n as int);
                let p = path_of(ip, n as int);
                let p_rest = path_of(ip << 1u32, n as int - 1);
                assert(p.len() == n as int);
                assert(p =~= seq![go_right] + p_rest);
                assert(forall|q2: Seq<bool>|
                    #![auto]
                    c1.stored(q2) == if q2 == p_rest {
                        Some(value)
                    } else {
                        c0.stored(q2)
                    });
                assert forall|q: Seq<bool>|
                    #![auto]
                    self.stored(q) == (if q == p {
                        Some(value)
                    } else {
                        old(self).stored(q)
                    }) by {
                    if q.len() == 0 {
                        assert(q != p);
                        assert(self.value == old(self).value);
                    } else {
                        let qr = q.skip(1);
                        if q[0] == go_right {
                            assert(p.skip(1) =~= p_rest);
                            if qr == p_rest {
                                assert(q =~= seq![go_right] + p_rest);
                                assert(q == p);
                            } else {
                                assert(q != p);
                            }
                            if go_right {
                                assert(self.right matches Some(c) && c == c1);
                                assert(self.stored(q) == c1.stored(qr));
                                match old(self).right {
                                    Some(c) => {
                                        assert(c0 == *c);
                                        assert(old(self).stored(q) == c0.stored(qr));
                                    },
                                    None => {
                                        assert(old(self).stored(q) is None);
                                        assert(c0.stored(qr) is None);
                                    },
                                }
                            } else {
                                assert(self.left matches Some(c) && c == c1);
                                assert(self.stored(q) == c1.stored(qr));
                                match old(self).left {
                                    Some(c) => {
                                        assert(c0 == *c);
                                        assert(old(self).stored(q) == c0.stored(qr));
                                    },
                                    None => {
                                        assert(old(self).stored(q) is None);
                                        assert(c0.stored(qr) is None);
                                    },
                                }
                            }
                        } else {
                            assert(q[0] != p[0]);
                            assert(q != p);
                            if q[0] {
                                assert(self.right == old(self).right);
                            } else {
                                assert(self.left == old(self).left);
                            }
                        }
                    }
                }
            }
        }
    }
}

} // verus!
