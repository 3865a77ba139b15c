use stract::live_index::{InnerIndex, Meta, Segment};
use stract::segment_store::{IndexablePage, SegmentStore};

fn page(url: &str, payload: &str) -> IndexablePage {
    IndexablePage {
        url: url.as_bytes().to_vec(),
        payload: payload.as_bytes().to_vec(),
    }
}

fn ids_sorted(v: Vec<u128>) -> Vec<u128> {
    let mut v = v;
    v.sort();
    v
}

const DAY: i64 = 86400;
const TTL: i64 = stract::live_index::DEFAULT_TTL_SECONDS;

#[test]
fn test_meta_matches_store_after_commit() {
    let mut idx = InnerIndex::new(SegmentStore::new(), Meta::new(), Vec::new(), TTL);
    idx.insert(vec![page("https://a.example/", "a"), page("https://b.example/", "b")]);
    assert!(idx.has_inserts());
    idx.commit(1000 * DAY);
    assert!(!idx.has_inserts());
    let store_ids = ids_sorted(idx.index.segment_ids());
    let meta_ids = ids_sorted(idx.meta.segments().iter().map(|s| s.id()).collect());
    assert_eq!(store_ids, meta_ids);
    assert_eq!(store_ids.len(), 1);
}

#[test]
fn test_commit_deduplicates_by_url_last_writer_wins() {
    let mut idx = InnerIndex::new(SegmentStore::new(), Meta::new(), Vec::new(), TTL);
    idx.insert(vec![
        page("https://a.example/", "first"),
        page("https://b.example/", "b"),
        page("https://a.example/", "second"),
    ]);
    idx.commit(1000 * DAY);
    let docs = idx.index.searchable_pages();
    assert_eq!(docs.len(), 2);
    let a = docs
        .iter()
        .find(|d| d.url == b"https://a.example/".to_vec())
        .unwrap();
    assert_eq!(a.payload, b"second".to_vec());
}

#[test]
fn test_ttl_prune() {
    let now = 1000 * DAY;
    let mut store = SegmentStore::new();
    store.insert(page("https://old.example/", "o"));
    store.commit();
    store.insert(page("https://young.example/", "y"));
    store.commit();
    let old_id = store.segment_ids()[0];
    let young_id = store.segment_ids()[1];
    let meta = Meta {
        segments: vec![
            Segment { id: old_id, created: now - 61 * DAY },
            Segment { id: young_id, created: now - 1 * DAY },
        ],
    };
    let mut idx = InnerIndex::new(store, meta, Vec::new(), TTL);
    idx.prune_segments(now);
    assert_eq!(idx.index.segment_ids(), vec![young_id]);
    assert_eq!(idx.meta.segments().len(), 1);
    assert_eq!(idx.meta.segments()[0].id(), young_id);
    assert_eq!(idx.meta.segments()[0].created(), now - 1 * DAY);
}

#[test]
fn test_compaction_by_date() {
    let now = 1000 * DAY;
    let mut idx = InnerIndex::new(SegmentStore::new(), Meta::new(), Vec::new(), TTL);
    idx.insert(vec![
        page("https://1.example/", "1"),
        page("https://2.example/", "2"),
        page("https://3.example/", "3"),
    ]);
    idx.commit(now);
    idx.insert(vec![
        page("https://4.example/", "4"),
        page("https://5.example/", "5"),
        page("https://6.example/", "6"),
    ]);
    idx.commit(now + 600); // same day
    assert_eq!(idx.meta.segments().len(), 2);
    let created_max = idx
        .meta
        .segments()
        .iter()
        .map(|s| s.created())
        .max()
        .unwrap();
    idx.compact_segments_by_date();
    assert_eq!(idx.meta.segments().len(), 1);
    assert_eq!(idx.meta.segments()[0].created(), created_max);
    let store_ids = idx.index.segment_ids();
    assert_eq!(store_ids, vec![idx.meta.segments()[0].id()]);
    let mut urls: Vec<Vec<u8>> = idx.index.searchable_pages().iter().map(|d| d.url.clone()).collect();
    urls.sort();
    assert_eq!(urls.len(), 6);
    for k in 1..=6u8 {
        let u = format!("https://{}.example/", k).into_bytes();
        assert!(urls.contains(&u));
    }
}

#[test]
fn test_compaction_leaves_different_days_alone() {
    let now = 1000 * DAY;
    let mut idx = InnerIndex::new(SegmentStore::new(), Meta::new(), Vec::new(), TTL);
    idx.insert(vec![page("https://1.example/", "1")]);
    idx.commit(now);
    idx.insert(vec![page("https://2.example/", "2")]);
    idx.commit(now + 2 * DAY);
    idx.compact_segments_by_date();
    assert_eq!(idx.meta.segments().len(), 2);
}

#[test]
fn test_delete_all_pages() {
    let mut idx = InnerIndex::new(SegmentStore::new(), Meta::new(), Vec::new(), TTL);
    idx.insert(vec![page("https://a.example/", "a")]);
    idx.commit(1000 * DAY);
    idx.delete_all_pages();
    assert!(idx.index.segment_ids().is_empty());
    assert!(idx.meta.segments().is_empty());
}

#[test]
fn test_simple_search() {
    // one live-index shard; both pages with the queried word come back,
    // and the page with more matching content ranks no worse
    let mut idx = InnerIndex::new(SegmentStore::new(), Meta::new(), Vec::new(), TTL);
    idx.insert(vec![page("A", "cat"), page("B", "cat dog")]);
    idx.commit(1000 * DAY);
    let docs = idx.index.searchable_pages();
    let matching: Vec<&stract::segment_store::IndexablePage> = docs
        .iter()
        .filter(|d| {
            stract::spell::tokenize(&d.payload)
                .iter()
                .any(|t| t.as_slice() == b"cat")
        })
        .collect();
    assert_eq!(matching.len(), 2);
    let rank_of = |url: &[u8]| {
        let d = matching.iter().find(|d| d.url == url.to_vec()).unwrap();
        stract::spell::tokenize(&d.payload)
            .iter()
            .filter(|t| t.as_slice() == b"cat")
            .count()
    };
    assert!(rank_of(b"B") >= rank_of(b"A"));
}
