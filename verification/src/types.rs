use vstd::prelude::*;

verus! {

/// Routing partition for index and DHT data. A shard either belongs to the
/// backbone index or to the live index; identifiers are ordered within a
/// variant.
#[derive(Clone, Copy, Debug, PartialEq, Eq, Structural, Hash)]
pub enum ShardId {
    Backbone(u64),
    Live(u64),
}

/// 128-bit host/page identifier.
pub type NodeId = u128;

/// Shard-local document coordinates: the shard, the segment ordinal within
/// the shard and the document id within the segment.
#[derive(Clone, Copy, Debug, PartialEq, Eq, Structural)]
pub struct DocAddress {
    pub shard_id: ShardId,
    pub segment_ord: u32,
    pub doc_id: u32,
}

impl DocAddress {
    pub fn new(shard_id: ShardId, segment_ord: u32, doc_id: u32) -> (r: Self)
        ensures
            r == (DocAddress { shard_id, segment_ord, doc_id }),
    {
        DocAddress { shard_id, segment_ord, doc_id }
    }
}

/// FNV-1a folded over the bytes of a name, widened to 128 bits. Used by tests
/// and callers to derive a stable host identifier from a host name.
pub open spec fn fnv1a_spec(bytes: Seq<u8>) -> u128
    decreases bytes.len(),
{
    if bytes.len() == 0 {
        0x6c62272e07bb0142_62b821756295c58du128
    } else {
        (((fnv1a_spec(bytes.drop_last()) ^ (bytes.last() as u128))
            * 0x1000000000000000000013Bu128) % 0x100000000000000000000000000000000int) as u128
    }
}

/// Stable 128-bit hash of a host name (FNV-1a).
pub fn host_hash(name: &[u8]) -> (r: u128)
    ensures
        r == fnv1a_spec(name@),
{
    let mut h: u128 = 0x6c62272e07bb0142_62b821756295c58du128;
    let mut i: usize = 0;
    while i < name.len()
        invariant
            0 <= i <= name@.len(),
            h == fnv1a_spec(name@.take(i as int)),
        decreases name@.len() - i,
    {
        proof {
            assert(name@.take(i + 1).drop_last() =~= name@.take(i as int));
        }
        h = (h ^ (name[i] as u128)).wrapping_mul(0x1000000000000000000013Bu128);
        i = i + 1;
    }
    proof {
        assert(name@.take(name@.len() as int) =~= name@);
    }
    h
}

} // verus!
