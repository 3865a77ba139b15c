use std::collections::{HashMap, HashSet, VecDeque};
use stract::ampc::Mapper;
use stract::centrality::{
    CentralityJob, CentralityMapper, CentralityTables, CentralityWorker, Meta,
    RemoteCentralityWorker,
};
use stract::types::ShardId;

fn setup(nodes: &[u128], shards: &[ShardId]) -> CentralityTables {
    CentralityTables {
        num_shards: shards.len() as u64,
        counters: nodes.iter().map(|n| (*n, vec![*n])).collect(),
        prev_counters: Vec::new(),
        prev_changed: Vec::new(),
        meta: Meta {
            round_had_changes: true,
            upper_bound_num_nodes: nodes.len() as u64,
            round: 0,
        },
        centrality: Vec::new(),
        changed_nodes: shards.iter().map(|s| (*s, nodes.to_vec())).collect(),
    }
}

fn run(workers: &[CentralityWorker], tables: &mut CentralityTables) {
    let mapper = CentralityMapper;
    loop {
        tables.start_round();
        for w in workers {
            let job = CentralityJob { shard: w.shard };
            mapper.map(&job, w, tables);
        }
        if !tables.meta.round_had_changes {
            break;
        }
    }
}

fn score_of(tables: &CentralityTables, node: u128) -> f64 {
    let n = tables.meta.upper_bound_num_nodes as f64;
    match tables.centrality.iter().find(|(k, _)| *k == node) {
        Some((_, contribs)) => {
            let sum: f64 = contribs
                .iter()
                .map(|(round, delta)| *delta as f64 / *round as f64)
                .sum();
            sum / (n - 1.0)
        }
        None => 0.0,
    }
}

/// Harmonic centrality computed directly: for every node, the sum of the
/// reciprocal distances from every other node that reaches it.
fn reference_scores(nodes: &[u128], edges: &[(u128, u128)]) -> HashMap<u128, f64> {
    let mut out: HashMap<u128, f64> = HashMap::new();
    let n = nodes.len() as f64;
    for v in nodes {
        out.insert(*v, 0.0);
    }
    for u in nodes {
        // breadth-first over outgoing edges from u
        let mut dist: HashMap<u128, u64> = HashMap::new();
        let mut queue = VecDeque::new();
        dist.insert(*u, 0);
        queue.push_back(*u);
        while let Some(x) = queue.pop_front() {
            let d = dist[&x];
            for (a, b) in edges {
                if *a == x && !dist.contains_key(b) {
                    dist.insert(*b, d + 1);
                    queue.push_back(*b);
                }
            }
        }
        for (v, d) in dist {
            if v != *u && d > 0 {
                *out.get_mut(&v).unwrap() += 1.0 / d as f64 / (n - 1.0);
            }
        }
    }
    out
}

#[test]
fn test_simple_graph() {
    let nodes: Vec<u128> = vec![1, 2, 3, 4, 5, 6, 7];
    let edges: Vec<(u128, u128)> = vec![
        (1, 2),
        (2, 3),
        (3, 4),
        (4, 5),
        (5, 1),
        (1, 3),
        (6, 1),
        (3, 6),
        (2, 7),
    ];
    let s1 = ShardId::Backbone(1);
    let s2 = ShardId::Backbone(2);
    // distribute the edges over two worker shards, alternating
    let mut e1 = Vec::new();
    let mut e2 = Vec::new();
    for (i, e) in edges.iter().enumerate() {
        if i % 2 == 0 {
            e1.push(*e);
        } else {
            e2.push(*e);
        }
    }
    let workers = vec![
        CentralityWorker { shard: s1, edges: e1 },
        CentralityWorker { shard: s2, edges: e2 },
    ];
    let mut tables = setup(&nodes, &[s1, s2]);
    run(&workers, &mut tables);

    let expected = reference_scores(&nodes, &edges);
    for v in &nodes {
        let actual = score_of(&tables, *v);
        let exp = expected[v];
        assert!(
            (exp - actual).abs() < 0.0001,
            "node {v}: expected {exp}, got {actual}"
        );
    }
}

#[test]
fn test_centrality_monotone_and_quiescent() {
    let nodes: Vec<u128> = vec![10, 20, 30];
    let edges: Vec<(u128, u128)> = vec![(10, 20), (20, 30)];
    let shard = ShardId::Backbone(1);
    let worker = CentralityWorker { shard, edges };
    let mapper = CentralityMapper;
    let mut tables = setup(&nodes, &[shard]);

    let mut last_scores: HashMap<u128, f64> = HashMap::new();
    for _ in 0..5 {
        tables.start_round();
        let job = CentralityJob { shard };
        mapper.map_job(&job, &worker, &mut tables);
        for v in &nodes {
            let s = score_of(&tables, *v);
            let prev = last_scores.get(v).copied().unwrap_or(0.0);
            assert!(s >= prev, "centrality of {v} decreased");
            last_scores.insert(*v, s);
        }
    }
    // the computation has settled: the previous round changed nothing, so
    // one more round is a no-op
    assert!(!tables.meta.round_had_changes);
    let counters_before: Vec<(u128, Vec<u128>)> = tables.counters.clone();
    tables.start_round();
    let job = CentralityJob { shard };
    mapper.map_job(&job, &worker, &mut tables);
    assert!(!tables.meta.round_had_changes);
    assert_eq!(tables.counters, counters_before);
    let nodes_set: HashSet<u128> = nodes.iter().copied().collect();
    assert_eq!(nodes_set.len(), 3);
}

#[test]
fn test_job_is_schedulable_only_on_its_shard() {
    let job = CentralityJob { shard: ShardId::Backbone(3) };
    let right = RemoteCentralityWorker { shard: ShardId::Backbone(3) };
    let wrong = RemoteCentralityWorker { shard: ShardId::Backbone(4) };
    assert!(job.is_schedulable(&right));
    assert!(!job.is_schedulable(&wrong));
    assert_eq!(right.shard(), ShardId::Backbone(3));
}
