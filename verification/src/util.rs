//! Helpers for working with CIDR text outside the trie.

use crate::cidr::CidrBlock;
use crate::cidr::spec_parse_cidr;
use vstd::prelude::*;
use vstd::string::StringSliceAdditionalSpecFns;

verus! {

/// Split the CIDR block into its u32 parts (net, prefix). The text must be a
/// valid CIDR block; see [`spec_parse_cidr`] for the grammar.
pub fn cidr_to_u32_parts(cidr: &str) -> (r: (u32, u32))
    requires
        spec_parse_cidr(cidr.spec_bytes()) is Some,
    ensures
        Some(r) == spec_parse_cidr(cidr.spec_bytes()),
{
    match CidrBlock::from_str(cidr) {
        Ok(cb) => (cb.net, cb.prefix),
        Err(_) => vstd::pervasive::unreached(),
    }
}

} // verus!
