use stract::collector::Collector;
use stract::top_docs::{
    filter_fruit_shards, ColumnFieldFilter, HostDeduplicator, NoDeduplicator, SegmentColumnFields,
    TopDocsCollector, WarmedColumnFields, DEDUPLICATION_BUFFER,
};
use stract::types::{host_hash, DocAddress, ShardId};
use stract::webgraph::{Edge, Webgraph, WebgraphBuilder};

fn warm(segments: Vec<SegmentColumnFields>) -> WarmedColumnFields {
    WarmedColumnFields { segments }
}

fn segment(ranks: Vec<u64>, hosts: Option<Vec<u128>>) -> SegmentColumnFields {
    SegmentColumnFields { ranks, hosts, skip: None }
}

/// Collects the documents `0..n` of one segment and returns the merged fruit.
fn run_host_dedup(
    segments: Vec<SegmentColumnFields>,
    limit: Option<usize>,
    offset: Option<usize>,
) -> Vec<(u64, stract::top_docs::DocAddressWithHost)> {
    let mut collector = TopDocsCollector::new()
        .with_shard_id(ShardId::Backbone(0))
        .with_deduplicator(HostDeduplicator);
    if let Some(l) = limit {
        collector = collector.with_limit(l);
    }
    if let Some(o) = offset {
        collector = collector.with_offset(o);
    }
    let collector = collector.with_column_fields(warm(Vec::new())).with_host_field(0);
    let mut fruits = Vec::new();
    for (ord, seg) in segments.into_iter().enumerate() {
        let n = seg.ranks.len();
        let mut child = collector.for_segment(ord as u32, seg);
        for doc in 0..n {
            child.collect(doc as u32);
        }
        fruits.push(child.harvest());
    }
    collector.merge_fruits(fruits)
}

#[test]
fn test_simple() {
    let builder = WebgraphBuilder::new(b"graph".to_vec(), ShardId::Backbone(0));
    let mut graph = builder.open();
    graph.insert(Edge {
        from: host_hash(b"https://A.com/1"),
        to: host_hash(b"https://B.com/1"),
        sort_score: 0,
    });
    let res = graph.backlinks(host_hash(b"https://B.com/1"));
    assert_eq!(res.len(), 1);
    assert!(res[0].from == host_hash(b"https://A.com/1"));
}

#[test]
fn test_deduplication() {
    let builder = WebgraphBuilder::new(b"graph".to_vec(), ShardId::Backbone(0));
    let mut graph = builder.open();
    graph.insert(Edge {
        from: host_hash(b"https://A.com/1"),
        to: host_hash(b"https://B.com/1"),
        sort_score: 0,
    });
    graph.insert(Edge {
        from: host_hash(b"https://A.com/2"),
        to: host_hash(b"https://B.com/1"),
        sort_score: 0,
    });
    let res = graph.backlinks(host_hash(b"https://B.com/1"));
    assert_eq!(res.len(), 2);

    // the host-level query collapses both pages of A.com into one result
    let host_a = host_hash(b"A.com");
    let seg = segment(vec![0, 0], Some(vec![host_a, host_a]));
    let res = run_host_dedup(vec![seg], Some(16), None);
    assert_eq!(res.len(), 1);
}

#[test]
fn test_deduplication_across_segments() {
    let host_a = host_hash(b"A.com");
    let seg1 = segment(vec![0], Some(vec![host_a]));
    let seg2 = segment(vec![0], Some(vec![host_a]));
    let res = run_host_dedup(vec![seg1, seg2], Some(16), None);
    assert_eq!(res.len(), 1);
}

#[test]
fn test_offset_with_deduplication() {
    // edges A1 -> B1, A2 -> B1, C1 -> B1 with sort scores 1, 1, 3
    let host_a = host_hash(b"A.com");
    let host_c = host_hash(b"C.com");
    let seg = || segment(vec![1, 1, 3], Some(vec![host_a, host_a, host_c]));

    let res = run_host_dedup(vec![seg()], Some(1024), Some(0));
    assert_eq!(res.len(), 2);

    let res = run_host_dedup(vec![seg()], Some(1), Some(0));
    assert_eq!(res.len(), 1);
    assert_eq!(res[0].1.host, host_a);

    let res = run_host_dedup(vec![seg()], Some(1), Some(1));
    assert_eq!(res.len(), 1);
    assert_eq!(res[0].1.host, host_c);

    let res = run_host_dedup(vec![seg()], Some(1), Some(2));
    assert_eq!(res.len(), 0);
}

#[test]
fn test_host_dedup_across_shards() {
    // shard one returns (hash(a.com), 1) and (hash(a.com), 2);
    // shard two returns (hash(b.com), 3); with limit two the result is
    // (a.com, 1) then (b.com, 3)
    let host_a = host_hash(b"a.com");
    let host_b = host_hash(b"b.com");
    let s1 = segment(vec![1, 2], Some(vec![host_a, host_a]));
    let s2 = segment(vec![3], Some(vec![host_b]));
    let res = run_host_dedup(vec![s1, s2], Some(2), Some(0));
    assert_eq!(res.len(), 2);
    assert_eq!(res[0].0, 1);
    assert_eq!(res[0].1.host, host_a);
    assert_eq!(res[1].0, 3);
    assert_eq!(res[1].1.host, host_b);
}

#[test]
fn test_no_deduplicator_keeps_everything_sorted() {
    let collector = TopDocsCollector::new()
        .with_shard_id(ShardId::Backbone(0))
        .with_column_fields(warm(Vec::new()));
    let seg = segment(vec![5, 1, 3], None);
    let n = seg.ranks.len();
    let mut child = collector.for_segment(0, seg);
    for doc in 0..n {
        child.collect(doc as u32);
    }
    let fruit = child.harvest();
    let merged = collector.merge_fruits(vec![fruit]);
    let ranks: Vec<u64> = merged.iter().map(|(r, _)| *r).collect();
    assert_eq!(ranks, vec![1, 3, 5]);
    let _ = NoDeduplicator;
}

#[test]
fn test_filter_skips_documents() {
    let collector = TopDocsCollector::new()
        .with_shard_id(ShardId::Backbone(0))
        .with_column_fields(warm(Vec::new()))
        .with_filter(ColumnFieldFilter);
    let seg = SegmentColumnFields {
        ranks: vec![1, 2],
        hosts: None,
        skip: Some(vec![true, false]),
    };
    let mut child = collector.for_segment(0, seg);
    child.collect(0);
    child.collect(1);
    let merged = collector.merge_fruits(vec![child.harvest()]);
    assert_eq!(merged.len(), 1);
    assert_eq!(merged[0].0, 2);
}

#[test]
fn test_disable_offset_keeps_buffer() {
    // the shard side defers the offset and keeps limit plus the buffer
    let hosts: Vec<u128> = (0..300u32).map(|i| i as u128).collect();
    let ranks: Vec<u64> = (0..300u32).map(|i| i as u64).collect();
    let collector = TopDocsCollector::new()
        .with_shard_id(ShardId::Backbone(0))
        .with_deduplicator(HostDeduplicator)
        .with_limit(10)
        .disable_offset()
        .with_column_fields(warm(Vec::new()))
        .with_host_field(0);
    let seg = segment(ranks, Some(hosts));
    let mut child = collector.for_segment(0, seg);
    for doc in 0..300u32 {
        child.collect(doc);
    }
    let merged = collector.merge_fruits(vec![child.harvest()]);
    assert_eq!(merged.len(), 10 + DEDUPLICATION_BUFFER);
}

#[test]
fn test_pointer_stays_with_its_shard() {
    // a pointer produced by one shard resolves there and yields nothing,
    // not an error, against any other shard
    let s1 = ShardId::Backbone(1);
    let s2 = ShardId::Backbone(2);
    let fruit = vec![
        (1u64, DocAddress::new(s1, 0, 0)),
        (2u64, DocAddress::new(s2, 0, 1)),
        (3u64, DocAddress::new(s1, 1, 2)),
    ];
    let own = filter_fruit_shards(s1, fruit.clone());
    assert_eq!(own.len(), 2);
    assert!(own.iter().all(|(_, d)| d.shard_id == s1));
    let foreign = filter_fruit_shards(ShardId::Live(9), fruit);
    assert!(foreign.is_empty());
}
