//! CIDR block parsing.
//!
//! A CIDR block is written `"a.b.c.d/n"`: four base-10 octets in `[0, 255]`
//! (one to three digits, no leading zero) joined by dots, then a single
//! slash, then a prefix length in `[0, 32]` (one or two digits). Parsing
//! rejects anything else — a missing or duplicated separator, a part that is
//! not a number, an out-of-range octet or prefix — and never clamps.

use vstd::prelude::*;
use vstd::string::StringSliceAdditionalSpecFns;

verus! {

/// Why a CIDR insertion or parse was rejected.
#[derive(Clone, Copy, Debug, PartialEq, Eq, Structural)]
pub enum CidrError {
    /// The text is not a well-formed CIDR block.
    Malformed,
    /// A directly supplied prefix length is greater than 32.
    PrefixTooLong,
}

/// The byte of the octet separator `.`.
pub(crate) const DOT: u8 = 46;

/// The byte of the prefix separator `/`.
pub(crate) const SLASH: u8 = 47;

/// Whether the byte is an ASCII decimal digit.
pub open(crate) spec fn is_digit(b: u8) -> bool {
    48 <= b <= 57
}

/// The value of an ASCII decimal digit byte.
pub open(crate) spec fn digit_val(b: u8) -> int {
    b - 48
}

/// Whether every byte of the sequence is an ASCII decimal digit.
pub open(crate) spec fn all_digits(s: Seq<u8>) -> bool {
    forall|i: int| 0 <= i < s.len() ==> is_digit(#[trigger] s[i])
}

/// The value of a sequence of decimal digit bytes, most significant first.
pub open(crate) spec fn numeral_val(s: Seq<u8>) -> int
    decreases s.len(),
{
    if s.len() == 0 {
        0
    } else {
        numeral_val(s.drop_last()) * 10 + digit_val(s.last())
    }
}

/// Whether the bytes form a valid octet: one to three digits, no leading
/// zero, value at most 255.
pub open(crate) spec fn valid_octet(s: Seq<u8>) -> bool {
    &&& 1 <= s.len() <= 3
    &&& all_digits(s)
    &&& (s.len() > 1 ==> s[0] != 48)
    &&& numeral_val(s) <= 255
}

/// Whether the bytes form a valid prefix length: one or two digits, value at
/// most 32.
pub open(crate) spec fn valid_prefix(s: Seq<u8>) -> bool {
    &&& 1 <= s.len() <= 2
    &&& all_digits(s)
    &&& numeral_val(s) <= 32
}

/// The index of the first occurrence of `b` in `s`, or -1 when absent.
pub open(crate) spec fn first_ix(s: Seq<u8>, b: u8) -> int
    decreases s.len(),
{
    if s.len() == 0 {
        -1
    } else if s[0] == b {
        0
    } else if first_ix(s.skip(1), b) < 0 {
        -1
    } else {
        1 + first_ix(s.skip(1), b)
    }
}

/// What parsing a CIDR text yields: the network address as a 32-bit integer
/// in big-endian octet order and the prefix length, or nothing when the text
/// is not of the form octet `.` octet `.` octet `.` octet `/` prefix.
pub open(crate) spec fn spec_parse_cidr(s: Seq<u8>) -> Option<(u32, u32)> {
    let i1 = first_ix(s, DOT);
    let r1 = s.skip(i1 + 1);
    let i2 = first_ix(r1, DOT);
    let r2 = r1.skip(i2 + 1);
    let i3 = first_ix(r2, DOT);
    let r3 = r2.skip(i3 + 1);
    let k = first_ix(r3, SLASH);
    if i1 >= 0 && i2 >= 0 && i3 >= 0 && k >= 0 {
        let o1 = s.take(i1);
        let o2 = r1.take(i2);
        let o3 = r2.take(i3);
        let o4 = r3.take(k);
        let pre = r3.skip(k + 1);
        if valid_octet(o1) && valid_octet(o2) && valid_octet(o3) && valid_octet(o4) && valid_prefix(
            pre,
        ) {
            Some(
                (
                    (numeral_val(o1) * 0x100_0000 + numeral_val(o2) * 0x1_0000 + numeral_val(o3)
                        * 0x100 + numeral_val(o4)) as u32,
                    numeral_val(pre) as u32,
                ),
            )
        } else {
            None
        }
    } else {
        None
    }
}

/// Digits are worth their magnitude: a digit string of length `n` has a value
/// in `[0, 10^n)`; in particular at most three digits stay under 1000.
pub(crate) proof fn lemma_numeral_bound(s: Seq<u8>)
    requires
        all_digits(s),
    ensures
        0 <= numeral_val(s),
        s.len() <= 1 ==> numeral_val(s) <= 9,
        s.len() <= 2 ==> numeral_val(s) <= 99,
        s.len() <= 3 ==> numeral_val(s) <= 999,
    decreases s.len(),
{
    if s.len() > 0 {
        assert(all_digits(s.drop_last()));
        lemma_numeral_bound(s.drop_last());
        assert(0 <= digit_val(s.last()) <= 9);
    }
}

/// What `first_ix` finds: -1 exactly when the byte is absent, and otherwise
/// the least index holding the byte.
pub(crate) proof fn lemma_first_ix(s: Seq<u8>, b: u8)
    ensures
        first_ix(s, b) == -1 ==> forall|j: int| 0 <= j < s.len() ==> s[j] != b,
        first_ix(s, b) >= 0 ==> first_ix(s, b) < s.len() && s[first_ix(s, b)] == b && forall|j: int|
            0 <= j < first_ix(s, b) ==> s[j] != b,
    decreases s.len(),
{
    if s.len() > 0 && s[0] != b {
        lemma_first_ix(s.skip(1), b);
        let k = first_ix(s.skip(1), b);
        if k == -1 {
            assert forall|j: int| 0 <= j < s.len() implies s[j] != b by {
                if j > 0 {
                    assert(s.skip(1)[j - 1] != b);
                }
            }
        } else {
            assert(s[k + 1] == s.skip(1)[k]);
            assert forall|j: int| 0 <= j < k + 1 implies s[j] != b by {
                if j > 0 {
                    assert(s.skip(1)[j - 1] != b);
                }
            }
        }
    }
}

/// Find the first occurrence of `b` in `s` at or after `from`.
fn find_from(s: &[u8], from: usize, b: u8) -> (r: Option<usize>)
    requires
        from <= s@.len(),
    ensures
        match r {
            Some(i) => from <= i < s@.len() && first_ix(s@.skip(from as int), b) == i - from,
            None => first_ix(s@.skip(from as int), b) == -1,
        },
{
    let ghost tail = s@.skip(from as int);
    proof {
        lemma_first_ix(tail, b);
    }
    let mut i: usize = from;
    while i < s.len()
        invariant
            from <= i <= s@.len(),
            tail == s@.skip(from as int),
            forall|j: int| from <= j < i ==> s@[j] != b,
        decreases s@.len() - i,
    {
        if s[i] == b {
            proof {
                lemma_first_ix(tail, b);
                let k = first_ix(tail, b);
                assert(tail[i - from] == b);
                if k == -1 {
                    assert(false);
                } else if k < i - from {
                    assert(s@[from + k] == tail[k]);
                    assert(false);
                } else if k > i - from {
                    assert(tail[i - from] != b);
                    assert(false);
                }
            }
            return Some(i);
        }
        i = i + 1;
    }
    proof {
        lemma_first_ix(tail, b);
        let k = first_ix(tail, b);
        if k >= 0 {
            assert(s@[from + k] == tail[k]);
            assert(false);
        }
    }
    None
}

/// Read a decimal number of one to three digit bytes from `s[start..end]`.
fn read_decimal(s: &[u8], start: usize, end: usize) -> (r: Option<u32>)
    requires
        start <= end <= s@.len(),
        end - start <= 3,
    ensures
        match r {
            Some(v) => {
                &&& all_digits(s@.subrange(start as int, end as int))
                &&& start < end
                &&& v == numeral_val(s@.subrange(start as int, end as int))
                &&& v <= 999
            },
            None => !(start < end && all_digits(s@.subrange(start as int, end as int))),
        },
{
    let ghost part = s@.subrange(start as int, end as int);
    if start == end {
        return None;
    }
    let mut v: u32 = 0;
    let mut i: usize = start;
    while i < end
        invariant
            start <= i <= end <= s@.len(),
            end - start <= 3,
            part == s@.subrange(start as int, end as int),
            all_digits(s@.subrange(start as int, i as int)),
            v == numeral_val(s@.subrange(start as int, i as int)),
            v <= 999,
        decreases end - i,
    {
        let b = s[i];
        if b < 48 || b > 57 {
            proof {
                assert(part[i - start] == s@[i as int]);
                assert(!all_digits(part));
            }
            return None;
        }
        proof {
            let prev = s@.subrange(start as int, i as int);
            let cur = s@.subrange(start as int, i as int + 1);
            assert(cur.drop_last() =~= prev);
            assert(cur.last() == s@[i as int]);
            lemma_numeral_bound(prev);
            assert(forall|j: int|
                0 <= j < cur.len() ==> cur[j] == s@[start + j] && is_digit(#[trigger] cur[j]));
        }
        v = v * 10 + ((b - 48) as u32);
        i = i + 1;
    }
    proof {
        assert(part =~= s@.subrange(start as int, end as int));
        lemma_numeral_bound(part);
    }
    Some(v)
}

/// A CIDR block: a network address and the length of its network prefix.
pub struct CidrBlock {
    /// The network address, first octet in the most significant byte.
    pub net: u32,
    /// The prefix length, between 0 and 32.
    pub prefix: u32,
}

impl CidrBlock {
    /// Parse a CIDR block from its text form; see [`spec_parse_cidr`] for the
    /// grammar. Returns the parsed block exactly when the text is valid, and
    /// a parse error otherwise.
    pub fn from_str(s: &str) -> (r: Result<CidrBlock, CidrError>)
        ensures
            match r {
                Ok(cb) => spec_parse_cidr(s.spec_bytes()) == Some((cb.net, cb.prefix)) && cb.prefix
                    <= 32,
                Err(e) => e == CidrError::Malformed && spec_parse_cidr(s.spec_bytes()) is None,
            },
    {
        let bytes: &[u8] = s.as_bytes();
        match Self::parse_bytes(bytes) {
            Some((net, prefix)) => Ok(CidrBlock { net, prefix }),
            None => Err(CidrError::Malformed),
        }
    }

    /// Parse a CIDR block from bytes, returning exactly what the grammar
    /// assigns to them.
    #[verifier::rlimit(100)]
    fn parse_bytes(s: &[u8]) -> (r: Option<(u32, u32)>)
        ensures
            r == spec_parse_cidr(s@),
            r matches Some(np) ==> np.1 <= 32,
    {
        let ghost whole = s@;
        let n = s.len();
        let i1 = match find_from(s, 0, DOT) {
            Some(i) => i,
            None => {
                proof {
                    assert(whole.skip(0) =~= whole);
                }
                return None;
            },
        };
        proof {
            assert(whole.skip(0) =~= whole);
        }
        let ghost r1 = whole.skip(i1 as int + 1);
        let i2 = match find_from(s, i1 + 1, DOT) {
            Some(i) => i,
            None => {
                return None;
            },
        };
        let ghost r2 = r1.skip(i2 - i1);
        proof {
            assert(r2 =~= whole.skip(i2 as int + 1));
        }
        let i3 = match find_from(s, i2 + 1, DOT) {
            Some(i) => i,
            None => {
                proof {
                    assert(whole.skip(i2 as int + 1) =~= r1.skip(i2 - i1));
                }
                return None;
            },
        };
        let ghost r3 = r2.skip(i3 - i2);
        proof {
            assert(r3 =~= whole.skip(i3 as int + 1));
        }
        let k = match find_from(s, i3 + 1, SLASH) {
            Some(i) => i,
            None => {
                proof {
                    assert(whole.skip(i3 as int + 1) =~= r2.skip(i3 - i2));
                }
                return None;
            },
        };
        proof {
            assert(first_ix(r1, DOT) == i2 - i1 - 1) by {
                assert(r1 =~= whole.skip(i1 as int + 1));
            }
            assert(first_ix(r2, DOT) == i3 - i2 - 1);
            assert(first_ix(r3, SLASH) == k - i3 - 1);
            assert(whole.take(i1 as int) =~= whole.subrange(0, i1 as int));
            assert(r1.take(i2 - i1 - 1) =~= whole.subrange(i1 as int + 1, i2 as int));
            assert(r2.take(i3 - i2 - 1) =~= whole.subrange(i2 as int + 1, i3 as int));
            assert(r3.take(k - i3 - 1) =~= whole.subrange(i3 as int + 1, k as int));
            assert(r3.skip(k - i3) =~= whole.subrange(k as int + 1, whole.len() as int));
        }
        let o1 = match Self::read_octet(s, 0, i1) {
            Some(v) => v,
            None => {
                return None;
            },
        };
        let o2 = match Self::read_octet(s, i1 + 1, i2) {
            Some(v) => v,
            None => {
                return None;
            },
        };
        let o3 = match Self::read_octet(s, i2 + 1, i3) {
            Some(v) => v,
            None => {
                return None;
            },
        };
        let o4 = match Self::read_octet(s, i3 + 1, k) {
            Some(v) => v,
            None => {
                return None;
            },
        };
        let pre = match Self::read_prefix(s, k + 1, n) {
            Some(v) => v,
            None => {
                return None;
            },
        };
        let net = o1 * 0x100_0000 + o2 * 0x1_0000 + o3 * 0x100 + o4;
        Some((net, pre))
    }

    /// Read one octet from `s[start..end]`: a number in `[0, 255]` with no
    /// leading zero.
    fn read_octet(s: &[u8], start: usize, end: usize) -> (r: Option<u32>)
        requires
            start <= end <= s@.len(),
        ensures
            match r {
                Some(v) => valid_octet(s@.subrange(start as int, end as int)) && v == numeral_val(
                    s@.subrange(start as int, end as int),
                ) && v <= 255,
                None => !valid_octet(s@.subrange(start as int, end as int)),
            },
    {
        let ghost part = s@.subrange(start as int, end as int);
        if end - start > 3 {
            return None;
        }
        if end - start > 1 && s[start] == 48 {
            proof {
                assert(part[0] == 48);
            }
            return None;
        }
        match read_decimal(s, start, end) {
            Some(v) => {
                if v > 255 {
                    None
                } else {
                    Some(v)
                }
            },
            None => None,
        }
    }

    /// Read a prefix length from `s[start..end]`: a number in `[0, 32]` of at
    /// most two digits.
    fn read_prefix(s: &[u8], start: usize, end: usize) -> (r: Option<u32>)
        requires
            start <= end <= s@.len(),
        ensures
            match r {
                Some(v) => valid_prefix(s@.subrange(start as int, end as int)) && v == numeral_val(
                    s@.subrange(start as int, end as int),
                ) && v <= 32,
                None => !valid_prefix(s@.subrange(start as int, end as int)),
            },
    {
        if end - start > 2 {
            return None;
        }
        match read_decimal(s, start, end) {
            Some(v) => {
                if v > 32 {
                    None
                } else {
                    Some(v)
                }
            },
            None => None,
        }
    }
}

} // verus!
