use stract::searcher::{
    bucket_shard_replies, collect_initial_results, new_search_client_routes, order_retrieved,
    pair_replies, plan_retrieval, InitialWebsiteResult, LiveIndexState,
    PrecisionRankingWebpage, RecallRankingWebpage, ScoredWebpagePointer, Service, WebpagePointer,
};
use stract::types::ShardId;

fn pointer(shard: ShardId, doc: u32, score: u64) -> ScoredWebpagePointer {
    ScoredWebpagePointer {
        website: RecallRankingWebpage {
            pointer: WebpagePointer { segment_ord: 0, doc_id: doc },
            score,
        },
        shard,
    }
}

#[test]
fn test_plan_retrieval_groups_by_shard() {
    let top = vec![
        pointer(ShardId::Backbone(1), 10, 5),
        pointer(ShardId::Backbone(2), 20, 4),
        pointer(ShardId::Backbone(1), 30, 3),
    ];
    let groups = plan_retrieval(&top);
    assert_eq!(groups.len(), 2);
    let total: usize = groups.iter().map(|g| g.1.len()).sum();
    assert_eq!(total, 3);
    for (shard, batch) in &groups {
        for (i, ptr) in batch {
            assert_eq!(top[*i].shard, *shard);
            assert_eq!(top[*i].website.pointer, *ptr);
        }
    }
}

#[test]
fn test_order_retrieved_restores_input_order() {
    let page = |tag: u8| PrecisionRankingWebpage {
        url: vec![tag],
        body: Vec::new(),
        ranking: RecallRankingWebpage {
            pointer: WebpagePointer { segment_ord: 0, doc_id: tag as u32 },
            score: 0,
        },
    };
    let results = vec![(2usize, page(2)), (0usize, page(0)), (1usize, page(1))];
    let ordered = order_retrieved(3, results);
    assert_eq!(ordered.len(), 3);
    assert_eq!(ordered[0].url, vec![0u8]);
    assert_eq!(ordered[1].url, vec![1u8]);
    assert_eq!(ordered[2].url, vec![2u8]);
}

#[test]
fn test_routing_only_ready_live_index_members() {
    let members = vec![
        Service::Searcher { host: 1, shard: ShardId::Backbone(0) },
        Service::LiveIndex {
            host: 2,
            search_host: 20,
            shard: ShardId::Live(0),
            state: LiveIndexState::Ready,
        },
        Service::LiveIndex {
            host: 3,
            search_host: 30,
            shard: ShardId::Live(1),
            state: LiveIndexState::NotReady,
        },
        Service::EntitySearcher { host: 4 },
    ];
    let routes = new_search_client_routes(&members);
    assert_eq!(routes.len(), 2);
    let hosts: Vec<u64> = routes.iter().flat_map(|r| r.1.clone()).collect();
    assert!(hosts.contains(&1));
    assert!(hosts.contains(&20));
    assert!(!hosts.contains(&3));
    assert!(!hosts.contains(&30));
    assert!(!hosts.contains(&4));
}

#[test]
fn test_bucket_shard_replies_aligns_positions() {
    // three shards answer a batch of two queries each, in request order
    let shard_replies = vec![
        vec!["a1", "b1"],
        vec!["a2", "b2"],
        vec!["a3", "b3"],
    ];
    let buckets = bucket_shard_replies(2, shard_replies);
    assert_eq!(buckets.len(), 2);
    assert_eq!(buckets[0], vec!["a1", "a2", "a3"]);
    assert_eq!(buckets[1], vec!["b1", "b2", "b3"]);
}

#[test]
fn test_bucket_shard_replies_no_shards() {
    let buckets: Vec<Vec<u32>> = bucket_shard_replies(3, Vec::new());
    assert_eq!(buckets.len(), 3);
    assert!(buckets.iter().all(|b| b.is_empty()));
}

#[test]
fn test_pair_replies_matches_positions() {
    let batch = vec![
        (5usize, WebpagePointer { segment_ord: 0, doc_id: 0 }),
        (2usize, WebpagePointer { segment_ord: 0, doc_id: 1 }),
    ];
    let paired = pair_replies(&batch, vec!["page0", "page1"]);
    assert_eq!(paired, vec![(5usize, "page0"), (2usize, "page1")]);
}

#[test]
fn test_collect_initial_results_drops_missing_shards() {
    let reply = |n: u32| InitialWebsiteResult {
        websites: vec![RecallRankingWebpage {
            pointer: WebpagePointer { segment_ord: 0, doc_id: n },
            score: n as u64,
        }],
        num_websites: 1,
    };
    let replies = vec![
        (ShardId::Backbone(1), Some(reply(1))),
        (ShardId::Backbone(2), None),
        (ShardId::Backbone(3), Some(reply(3))),
    ];
    let collected = collect_initial_results(replies);
    assert_eq!(collected.len(), 2);
    assert_eq!(collected[0].shard, ShardId::Backbone(1));
    assert_eq!(collected[1].shard, ShardId::Backbone(3));
    assert_eq!(collected[1].local_result.websites[0].pointer.doc_id, 3);
}
