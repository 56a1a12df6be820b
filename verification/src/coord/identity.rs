//! Identities of nodes.

use crate::text::{hex_padded, hex_text};
use vstd::bytes::{spec_u128_to_le_bytes, u128_to_le_bytes};
use vstd::prelude::*;

verus! {

/// The 128-bit XXH3 hash of a byte string.
pub uninterp spec fn xxh3_128_of(input: Seq<u8>) -> u128;

/// `xxhash_rust::xxh3::xxh3_128`: the 128-bit XXH3 hash with the default secret
/// and the seed zero. It is defined for every input and depends on the bytes
/// alone.
pub assume_specification[ xxhash_rust::xxh3::xxh3_128 ](input: &[u8]) -> (r: u128)
    ensures
        r == xxh3_128_of(input@),
;

/// The bytes that an identity is hashed from: the process, the time and the
/// number of the identity in the process, sixteen bytes each, lowest first.
pub open spec fn node_id_input(pid: u32, nanos: u128, count: u64) -> Seq<u8> {
    spec_u128_to_le_bytes(pid as u128) + spec_u128_to_le_bytes(nanos) + spec_u128_to_le_bytes(
        count as u128,
    )
}

/// An identity: 32 lower-case digits of base sixteen.
pub open spec fn node_id_spec(pid: u32, nanos: u128, count: u64) -> Seq<char> {
    hex_padded(xxh3_128_of(node_id_input(pid, nanos, count)) as nat, 32)
}

fn hashed_input(pid: u32, nanos: u128, count: u64) -> (r: Vec<u8>)
    ensures
        r@ == node_id_input(pid, nanos, count),
{
    let mut buf = u128_to_le_bytes(pid as u128);
    let mut time = u128_to_le_bytes(nanos);
    let mut number = u128_to_le_bytes(count as u128);
    buf.append(&mut time);
    buf.append(&mut number);
    buf
}

/// A hash as 32 lower-case digits of base sixteen.
pub fn hash_text(hash: u128) -> (r: String)
    ensures
        r@ == hex_padded(hash as nat, 32),
        r@.len() == 32,
{
    hex_text(hash, 32)
}

/// Gives out the identities of one process.
#[derive(Debug)]
pub struct NodeIdSource {
    pub pid: u32,
    pub count: u64,
}

impl NodeIdSource {
    pub fn new(pid: u32) -> (r: NodeIdSource)
        ensures
            r.pid == pid,
            r.count == 0,
    {
        NodeIdSource { pid, count: 0 }
    }

    /// The next identity, at a time given in nanoseconds since the Unix epoch.
    pub fn generate_node_id(&mut self, nanos: u128) -> (r: String)
        ensures
            r@ == node_id_spec(old(self).pid, nanos, old(self).count),
            r@.len() == 32,
            final(self).pid == old(self).pid,
            final(self).count == crate::state::wrapped(old(self).count as int, 1),
    {
        let buf = hashed_input(self.pid, nanos, self.count);
        self.count = self.count.wrapping_add(1);
        hash_text(xxhash_rust::xxh3::xxh3_128(buf.as_slice()))
    }
}

/// Identities of one process, of two processes, or of two times are hashed from
/// different bytes.
pub proof fn law_inputs_differ(
    pid1: u32,
    nanos1: u128,
    count1: u64,
    pid2: u32,
    nanos2: u128,
    count2: u64,
)
    requires
        pid1 != pid2 || nanos1 != nanos2 || count1 != count2,
    ensures
        node_id_input(pid1, nanos1, count1) != node_id_input(pid2, nanos2, count2),
{
    vstd::bytes::lemma_auto_spec_u128_to_from_le_bytes();
    let a = node_id_input(pid1, nanos1, count1);
    let b = node_id_input(pid2, nanos2, count2);
    if a == b {
        let p1 = spec_u128_to_le_bytes(pid1 as u128);
        let p2 = spec_u128_to_le_bytes(pid2 as u128);
        let n1 = spec_u128_to_le_bytes(nanos1);
        let n2 = spec_u128_to_le_bytes(nanos2);
        let c1 = spec_u128_to_le_bytes(count1 as u128);
        let c2 = spec_u128_to_le_bytes(count2 as u128);
        assert(a.subrange(0, 16) =~= p1 && b.subrange(0, 16) =~= p2);
        assert(a.subrange(16, 32) =~= n1 && b.subrange(16, 32) =~= n2);
        assert(a.subrange(32, 48) =~= c1 && b.subrange(32, 48) =~= c2);
        assert(vstd::bytes::spec_u128_from_le_bytes(p1) == pid1);
        assert(vstd::bytes::spec_u128_from_le_bytes(p2) == pid2);
        assert(vstd::bytes::spec_u128_from_le_bytes(n1) == nanos1);
        assert(vstd::bytes::spec_u128_from_le_bytes(n2) == nanos2);
        assert(vstd::bytes::spec_u128_from_le_bytes(c1) == count1);
        assert(vstd::bytes::spec_u128_from_le_bytes(c2) == count2);
    }
}

} // verus!
