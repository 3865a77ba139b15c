use stract::types::{host_hash, DocAddress, ShardId};

#[test]
fn test_host_hash_is_stable_and_separates_hosts() {
    let a = host_hash(b"a.com");
    let b = host_hash(b"b.com");
    assert_eq!(a, host_hash(b"a.com"));
    assert_ne!(a, b);
    // the empty input hashes to the offset basis
    assert_eq!(host_hash(b""), 0x6c62272e07bb014262b821756295c58d);
}

#[test]
fn test_doc_address_orders_fields() {
    let d = DocAddress::new(ShardId::Live(2), 1, 7);
    assert_eq!(d.shard_id, ShardId::Live(2));
    assert_eq!(d.segment_ord, 1);
    assert_eq!(d.doc_id, 7);
}
