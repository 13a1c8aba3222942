//! A bitwise trie keyed on 32-bit IPv4 addresses.
//!
//! The trie associates caller-supplied values with CIDR prefixes and answers,
//! for a queried address, which values are attached to every prefix that
//! contains the address, ordered from least specific to most specific.

pub mod addr_bits;
pub mod binary_trie;
pub mod cidr;
pub mod codec;
pub mod persist;
pub mod radix_trie;
pub mod util;
