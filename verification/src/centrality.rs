use vstd::prelude::*;
use crate::types::ShardId;
use crate::ampc::Mapper;

verus! {

/// The round bookkeeping of the centrality computation: whether the
/// current round changed any counter, the upper bound on the node count
/// that the final scores are normalized with, and the current round
/// number, starting at one.
#[derive(Clone, Copy, Debug, PartialEq, Eq, Structural)]
pub struct Meta {
    pub round_had_changes: bool,
    pub upper_bound_num_nodes: u64,
    pub round: u64,
}

/// The distributed tables of the harmonic-centrality computation. The
/// counter of a node is the exact set of nodes known to reach it; the
/// centrality of a node accumulates one `(round, delta)` contribution per
/// round in which its counter grew by `delta`, worth `delta / round`
/// towards the harmonic sum; `changed_nodes` lists, per shard, the nodes
/// whose counter changed in the current round, frozen into `prev_changed`
/// when the next round opens.
#[derive(Debug)]
pub struct CentralityTables {
    pub num_shards: u64,
    pub counters: Vec<(u128, Vec<u128>)>,
    pub prev_counters: Vec<(u128, Vec<u128>)>,
    pub meta: Meta,
    pub centrality: Vec<(u128, Vec<(u64, u64)>)>,
    pub changed_nodes: Vec<(ShardId, Vec<u128>)>,
    pub prev_changed: Vec<(ShardId, Vec<u128>)>,
}

impl CentralityTables {
    pub fn num_shards(&self) -> (r: u64)
        ensures
            r == self.num_shards,
    {
        self.num_shards
    }

    /// Opens a round: the counters are frozen as the previous round's
    /// counters, the change flag is cleared, and the round number advances.
    pub fn start_round(&mut self)
        requires
            old(self).meta.round < u64::MAX,
        ensures
            final(self).counters == old(self).counters,
            final(self).centrality == old(self).centrality,
            final(self).changed_nodes == old(self).changed_nodes,
            final(self).num_shards == old(self).num_shards,
            final(self).meta.upper_bound_num_nodes == old(self).meta.upper_bound_num_nodes,
            final(self).meta.round == old(self).meta.round + 1,
            !final(self).meta.round_had_changes,
            final(self).prev_counters@.len() == old(self).counters@.len(),
            forall|k: int|
                0 <= k < old(self).counters@.len() ==> (#[trigger] final(self).prev_counters@[k]).0
                    == old(self).counters@[k].0 && final(self).prev_counters@[k].1@ == old(
                    self,
                ).counters@[k].1@,
            final(self).prev_changed@.len() == old(self).changed_nodes@.len(),
            forall|k: int|
                0 <= k < old(self).changed_nodes@.len() ==> (#[trigger] final(self).prev_changed@[k]).0
                    == old(self).changed_nodes@[k].0 && final(self).prev_changed@[k].1@ == old(
                    self,
                ).changed_nodes@[k].1@,
            old(self).wf() ==> final(self).wf(),
    {
        let mut snapshot: Vec<(u128, Vec<u128>)> = Vec::new();
        let mut i: usize = 0;
        while i < self.counters.len()
            invariant
                0 <= i <= self.counters@.len(),
                snapshot@.len() == i,
                forall|k: int|
                    0 <= k < i ==> (#[trigger] snapshot@[k]).0 == self.counters@[k].0
                        && snapshot@[k].1@ == self.counters@[k].1@,
            decreases self.counters@.len() - i,
        {
            let nodes = copy_nodes(&self.counters[i].1);
            snapshot.push((self.counters[i].0, nodes));
            i = i + 1;
        }
        self.prev_counters = snapshot;
        let mut ch_snapshot: Vec<(ShardId, Vec<u128>)> = Vec::new();
        let mut j: usize = 0;
        while j < self.changed_nodes.len()
            invariant
                0 <= j <= self.changed_nodes@.len(),
                ch_snapshot@.len() == j,
                forall|k: int|
                    0 <= k < j ==> (#[trigger] ch_snapshot@[k]).0 == self.changed_nodes@[k].0
                        && ch_snapshot@[k].1@ == self.changed_nodes@[k].1@,
            decreases self.changed_nodes@.len() - j,
        {
            let nodes = copy_nodes(&self.changed_nodes[j].1);
            ch_snapshot.push((self.changed_nodes[j].0, nodes));
            j = j + 1;
        }
        self.prev_changed = ch_snapshot;
        self.meta.round_had_changes = false;
        self.meta.round = self.meta.round + 1;
    }

    /// Keys are unique per table and every counter is a set: no node is
    /// counted twice.
    pub open spec fn wf(self) -> bool {
        &&& (forall|i: int, j: int|
            0 <= i < j < self.counters@.len() ==> self.counters@[i].0 != self.counters@[j].0)
        &&& (forall|k: int, i: int, j: int|
            0 <= k < self.counters@.len() && 0 <= i < j < self.counters@[k].1@.len()
                ==> self.counters@[k].1@[i] != self.counters@[k].1@[j])
        &&& (forall|i: int, j: int|
            0 <= i < j < self.centrality@.len() ==> self.centrality@[i].0
                != self.centrality@[j].0)
        &&& (forall|i: int, j: int|
            0 <= i < j < self.changed_nodes@.len() ==> self.changed_nodes@[i].0
                != self.changed_nodes@[j].0)
    }
}

/// One worker of the computation: it owns the edges of one graph shard.
#[derive(Debug)]
pub struct CentralityWorker {
    pub shard: ShardId,
    pub edges: Vec<(u128, u128)>,
}

/// The coordinator's handle to a worker: enough to decide whether a job
/// may run there.
#[derive(Clone, Copy, Debug, PartialEq, Eq, Structural)]
pub struct RemoteCentralityWorker {
    pub shard: ShardId,
}

impl RemoteCentralityWorker {
    pub fn shard(&self) -> (r: ShardId)
        ensures
            r == self.shard,
    {
        self.shard
    }
}

/// One round's unit of work: process the edges of one graph shard.
#[derive(Clone, Copy, Debug, PartialEq, Eq, Structural)]
pub struct CentralityJob {
    pub shard: ShardId,
}

impl CentralityJob {
    /// A job may only run on the worker that owns its shard.
    pub fn is_schedulable(&self, worker: &RemoteCentralityWorker) -> (r: bool)
        ensures
            r == (self.shard == worker.shard),
    {
        self.shard == worker.shard
    }
}

/// Every set element of `a` occurs in `b`.
pub open spec fn nodes_subset(a: Seq<u128>, b: Seq<u128>) -> bool {
    forall|x: u128| a.contains(x) ==> b.contains(x)
}

/// No shard saw a change in the previous round.
pub open spec fn all_changed_empty(ch: Seq<(ShardId, Vec<u128>)>) -> bool {
    forall|i: int| 0 <= i < ch.len() ==> (#[trigger] ch[i]).1@.len() == 0
}

/// The counters only ever grow: the old entries are still there, in place,
/// and each set kept its members.
pub open spec fn counters_monotone(
    before: Seq<(u128, Vec<u128>)>,
    after: Seq<(u128, Vec<u128>)>,
) -> bool {
    &&& after.len() >= before.len()
    &&& (forall|k: int|
        0 <= k < before.len() ==> (#[trigger] after[k]).0 == before[k].0 && nodes_subset(
            before[k].1@,
            after[k].1@,
        ))
}

/// The first counter listed for a node, as the set it holds; empty when
/// the node has none.
pub open spec fn counter_of(counters: Seq<(u128, Vec<u128>)>, node: u128) -> Seq<u128>
    decreases counters.len(),
{
    if counters.len() == 0 {
        Seq::empty()
    } else if counters[0].0 == node {
        counters[0].1@
    } else {
        counter_of(counters.drop_first(), node)
    }
}

proof fn lemma_counter_of_found(counters: Seq<(u128, Vec<u128>)>, node: u128, i: int)
    requires
        0 <= i < counters.len(),
        counters[i].0 == node,
        forall|k: int| 0 <= k < i ==> (#[trigger] counters[k]).0 != node,
    ensures
        counter_of(counters, node) == counters[i].1@,
    decreases counters.len(),
{
    if i > 0 {
        assert forall|k: int|
            0 <= k < i - 1 implies (#[trigger] counters.drop_first()[k]).0 != node by {
            assert(counters.drop_first()[k] == counters[k + 1]);
        }
        lemma_counter_of_found(counters.drop_first(), node, i - 1);
    }
}

proof fn lemma_counter_of_missing(counters: Seq<(u128, Vec<u128>)>, node: u128)
    requires
        forall|k: int| 0 <= k < counters.len() ==> (#[trigger] counters[k]).0 != node,
    ensures
        counter_of(counters, node) == Seq::<u128>::empty(),
    decreases counters.len(),
{
    if counters.len() > 0 {
        assert forall|k: int|
            0 <= k < counters.drop_first().len() implies (#[trigger] counters.drop_first()[k]).0
            != node by {
            assert(counters.drop_first()[k] == counters[k + 1]);
        }
        lemma_counter_of_missing(counters.drop_first(), node);
    }
}

/// Whether some shard's previous-round set holds the node.
pub open spec fn changed_in_prev(ch: Seq<(ShardId, Vec<u128>)>, node: u128) -> bool {
    exists|i: int, j: int|
        0 <= i < ch.len() && 0 <= j < ch[i].1@.len() && #[trigger] ch[i].1@[j] == node
}

/// Whether the counter at position `k` holds something it did not hold
/// before (a fresh position counts once it holds anything).
pub open spec fn counter_grew(
    before: Seq<(u128, Vec<u128>)>,
    after: Seq<(u128, Vec<u128>)>,
    k: int,
) -> bool {
    if k < before.len() {
        !nodes_subset(after[k].1@, before[k].1@)
    } else {
        after[k].1@.len() > 0
    }
}

/// The first position listing this shard's changed set, or -1.
pub open spec fn changed_index(ch: Seq<(ShardId, Vec<u128>)>, shard: ShardId) -> int
    decreases ch.len(),
{
    if ch.len() == 0 {
        -1
    } else if ch[0].0 == shard {
        0
    } else {
        let r = changed_index(ch.drop_first(), shard);
        if r == -1 {
            -1
        } else {
            r + 1
        }
    }
}

proof fn lemma_changed_index_found(ch: Seq<(ShardId, Vec<u128>)>, shard: ShardId, i: int)
    requires
        0 <= i < ch.len(),
        ch[i].0 == shard,
        forall|k: int| 0 <= k < i ==> (#[trigger] ch[k]).0 != shard,
    ensures
        changed_index(ch, shard) == i,
    decreases ch.len(),
{
    if i > 0 {
        assert forall|k: int|
            0 <= k < i - 1 implies (#[trigger] ch.drop_first()[k]).0 != shard by {
            assert(ch.drop_first()[k] == ch[k + 1]);
        }
        lemma_changed_index_found(ch.drop_first(), shard, i - 1);
    }
}

proof fn lemma_changed_index_missing(ch: Seq<(ShardId, Vec<u128>)>, shard: ShardId)
    requires
        forall|k: int| 0 <= k < ch.len() ==> (#[trigger] ch[k]).0 != shard,
    ensures
        changed_index(ch, shard) == -1,
    decreases ch.len(),
{
    if ch.len() > 0 {
        assert forall|k: int|
            0 <= k < ch.drop_first().len() implies (#[trigger] ch.drop_first()[k]).0 != shard by {
            assert(ch.drop_first()[k] == ch[k + 1]);
        }
        lemma_changed_index_missing(ch.drop_first(), shard);
    }
}

/// `s` lists exactly the nodes whose counter grew between `before` and
/// `after`.
pub open spec fn grown_set(
    s: Seq<u128>,
    before: Seq<(u128, Vec<u128>)>,
    after: Seq<(u128, Vec<u128>)>,
) -> bool {
    forall|x: u128|
        #[trigger] s.contains(x) <==> exists|k: int|
            0 <= k < after.len() && (#[trigger] after[k]).0 == x && counter_grew(before, after, k)
}

/// The centrality scores only ever grow: the old contributions of every
/// node are an unchanged prefix of the new ones, and everything added is a
/// positive contribution of the given round. Since each contribution
/// `(round, delta)` is worth `delta / round`, a score never decreases.
pub open spec fn centrality_monotone(
    before: Seq<(u128, Vec<(u64, u64)>)>,
    after: Seq<(u128, Vec<(u64, u64)>)>,
    round: u64,
) -> bool {
    &&& after.len() >= before.len()
    &&& (forall|k: int|
        0 <= k < before.len() ==> (#[trigger] after[k]).0 == before[k].0 && after[k].1@.len()
            >= before[k].1@.len() && after[k].1@.take(before[k].1@.len() as int)
            == before[k].1@)
    &&& (forall|k: int, c: int|
        0 <= k < before.len() && before[k].1@.len() <= c < (#[trigger] after[k]).1@.len()
            ==> (#[trigger] after[k].1@[c]).0 == round && after[k].1@[c].1 >= 1)
    &&& (forall|k: int, c: int|
        before.len() <= k < after.len() && 0 <= c < (#[trigger] after[k]).1@.len() ==> (
        #[trigger] after[k].1@[c]).0 == round && after[k].1@[c].1 >= 1)
}

/// The mapper of the harmonic-centrality computation: one invocation
/// processes one shard's edges for the current round.
#[derive(Clone, Copy, Debug)]
pub struct CentralityMapper;

impl Mapper for CentralityMapper {
    type Job = CentralityJob;

    type Worker = CentralityWorker;

    type Tables = CentralityTables;

    open spec fn map_requires(
        &self,
        job: &CentralityJob,
        worker: &CentralityWorker,
        dht: CentralityTables,
    ) -> bool {
        dht.wf()
    }

    open spec fn map_ensures(
        &self,
        job: &CentralityJob,
        worker: &CentralityWorker,
        before: CentralityTables,
        after: CentralityTables,
    ) -> bool {
        &&& after.wf()
        &&& after.num_shards == before.num_shards
        &&& after.meta.upper_bound_num_nodes == before.meta.upper_bound_num_nodes
        &&& after.meta.round == before.meta.round
        &&& after.prev_counters == before.prev_counters
        &&& after.prev_changed == before.prev_changed
        &&& counters_monotone(before.counters@, after.counters@)
        &&& centrality_monotone(before.centrality@, after.centrality@, before.meta.round)
        &&& (all_changed_empty(before.prev_changed@) ==> after == before)
        &&& (before.meta.round_had_changes ==> after.meta.round_had_changes)
        &&& (forall|e: int|
            0 <= e < worker.edges@.len() && changed_in_prev(
                before.prev_changed@,
                (#[trigger] worker.edges@[e]).0,
            ) ==> exists|k: int|
                0 <= k < after.counters@.len() && (#[trigger] after.counters@[k]).0
                    == worker.edges@[e].1 && nodes_subset(
                    counter_of(before.prev_counters@, worker.edges@[e].0),
                    after.counters@[k].1@,
                ))
        &&& (forall|k: int, x: u128|
            0 <= k < after.counters@.len() && #[trigger] after.counters@[k].1@.contains(x) ==> (
            k < before.counters@.len() && before.counters@[k].1@.contains(x)) || exists|e: int|
                0 <= e < worker.edges@.len() && (#[trigger] worker.edges@[e]).1
                    == after.counters@[k].0 && changed_in_prev(
                    before.prev_changed@,
                    worker.edges@[e].0,
                ) && counter_of(before.prev_counters@, worker.edges@[e].0).contains(x))
        &&& after.meta.round_had_changes == (before.meta.round_had_changes || exists|k: int|
            0 <= k < after.counters@.len() && #[trigger] counter_grew(
                before.counters@,
                after.counters@,
                k,
            ))
        &&& (!all_changed_empty(before.prev_changed@) ==> ({
            let ci = changed_index(before.changed_nodes@, job.shard);
            &&& (ci == -1 ==> after.changed_nodes@.len() == before.changed_nodes@.len() + 1
                && after.changed_nodes@.take(before.changed_nodes@.len() as int)
                == before.changed_nodes@ && after.changed_nodes@.last().0 == job.shard
                && grown_set(after.changed_nodes@.last().1@, before.counters@, after.counters@))
            &&& (ci >= 0 ==> after.changed_nodes@.len() == before.changed_nodes@.len() && (forall|
                j: int,
            |
                0 <= j < before.changed_nodes@.len() && j != ci ==> after.changed_nodes@[j]
                    == before.changed_nodes@[j]) && after.changed_nodes@[ci].0
                == before.changed_nodes@[ci].0 && grown_set(
                after.changed_nodes@[ci].1@,
                before.counters@,
                after.counters@,
            ))
        }))
    }

    fn map(&self, job: &CentralityJob, worker: &CentralityWorker, dht: &mut CentralityTables) {
        self.map_job(job, worker, dht);
    }
}

/// Whether any shard's changed set holds this node.
fn changed_contains(ch: &Vec<(ShardId, Vec<u128>)>, node: u128) -> (r: bool)
    ensures
        r == exists|i: int, j: int|
            0 <= i < ch@.len() && 0 <= j < ch@[i].1@.len() && #[trigger] ch@[i].1@[j] == node,
{
    let mut i: usize = 0;
    while i < ch.len()
        invariant
            0 <= i <= ch@.len(),
            forall|a: int, b: int|
                0 <= a < i && 0 <= b < ch@[a].1@.len() ==> #[trigger] ch@[a].1@[b] != node,
        decreases ch@.len() - i,
    {
        let mut j: usize = 0;
        while j < ch[i].1.len()
            invariant
                0 <= i < ch@.len(),
                0 <= j <= ch@[i as int].1@.len(),
                forall|b: int| 0 <= b < j ==> #[trigger] ch@[i as int].1@[b] != node,
            decreases ch@[i as int].1@.len() - j,
        {
            if ch[i].1[j] == node {
                return true;
            }
            j = j + 1;
        }
        i = i + 1;
    }
    false
}

/// Whether a node set holds this node.
fn set_contains(s: &Vec<u128>, node: u128) -> (r: bool)
    ensures
        r == s@.contains(node),
{
    let mut i: usize = 0;
    while i < s.len()
        invariant
            0 <= i <= s@.len(),
            forall|k: int| 0 <= k < i ==> s@[k] != node,
        decreases s@.len() - i,
    {
        if s[i] == node {
            return true;
        }
        i = i + 1;
    }
    false
}

impl CentralityMapper {
    /// Processes one shard's edges for the current round. For every edge
    /// (u, v) whose source changed in the previous round, v's counter
    /// becomes its old counter unioned with u's frozen counter, and
    /// nothing else ever enters a counter; where a counter grew, the
    /// target's centrality gains a positive contribution of this round,
    /// the change flag rises, and the job's shard records exactly the
    /// grown targets for the next round. With no changes anywhere in the
    /// previous round, nothing at all happens.
    #[verifier::rlimit(100)]
    pub fn map_job(&self, job: &CentralityJob, worker: &CentralityWorker, dht: &mut
        CentralityTables)
        requires
            old(dht).wf(),
        ensures
            final(dht).wf(),
            final(dht).num_shards == old(dht).num_shards,
            final(dht).meta.upper_bound_num_nodes == old(dht).meta.upper_bound_num_nodes,
            final(dht).meta.round == old(dht).meta.round,
            final(dht).prev_counters == old(dht).prev_counters,
            final(dht).prev_changed == old(dht).prev_changed,
            counters_monotone(old(dht).counters@, final(dht).counters@),
            centrality_monotone(
                old(dht).centrality@,
                final(dht).centrality@,
                old(dht).meta.round,
            ),
            all_changed_empty(old(dht).prev_changed@) ==> *final(dht) == *old(dht),
            old(dht).meta.round_had_changes ==> final(dht).meta.round_had_changes,
            forall|e: int|
                0 <= e < worker.edges@.len() && changed_in_prev(
                    old(dht).prev_changed@,
                    (#[trigger] worker.edges@[e]).0,
                ) ==> exists|k: int|
                    0 <= k < final(dht).counters@.len() && (#[trigger] final(dht).counters@[k]).0
                        == worker.edges@[e].1 && nodes_subset(
                        counter_of(old(dht).prev_counters@, worker.edges@[e].0),
                        final(dht).counters@[k].1@,
                    ),
            forall|k: int, x: u128|
                0 <= k < final(dht).counters@.len() && #[trigger] final(dht).counters@[k].1@.contains(x) ==> (k < old(dht).counters@.len() && old(dht).counters@[k].1@.contains(x)) || exists|e: int|
                    0 <= e < worker.edges@.len() && (#[trigger] worker.edges@[e]).1 == final(dht).counters@[k].0 && changed_in_prev(old(dht).prev_changed@, worker.edges@[e].0)
                        && counter_of(old(dht).prev_counters@, worker.edges@[e].0).contains(x),
            final(dht).meta.round_had_changes == (old(dht).meta.round_had_changes || exists|
                k: int,
            |
                0 <= k < final(dht).counters@.len() && #[trigger] counter_grew(
                    old(dht).counters@,
                    final(dht).counters@,
                    k,
                )),
            !all_changed_empty(old(dht).prev_changed@) ==> ({
                let ci = changed_index(old(dht).changed_nodes@, job.shard);
                &&& (ci == -1 ==> final(dht).changed_nodes@.len() == old(dht).changed_nodes@.len() + 1 && final(dht).changed_nodes@.take(
                    old(dht).changed_nodes@.len() as int,
                ) == old(dht).changed_nodes@ && final(dht).changed_nodes@.last().0 == job.shard
                    && grown_set(
                    final(dht).changed_nodes@.last().1@,
                    old(dht).counters@,
                    final(dht).counters@,
                ))
                &&& (ci >= 0 ==> final(dht).changed_nodes@.len() == old(dht).changed_nodes@.len() && (forall|j: int|
                    0 <= j < old(dht).changed_nodes@.len() && j != ci ==> final(dht).changed_nodes@[j] == old(dht).changed_nodes@[j]) && final(dht).changed_nodes@[ci].0 == old(dht).changed_nodes@[ci].0 && grown_set(
                    final(dht).changed_nodes@[ci].1@,
                    old(dht).counters@,
                    final(dht).counters@,
                ))
            }),
    {
        let mut any = false;
        let mut c: usize = 0;
        while c < dht.prev_changed.len()
            invariant
                0 <= c <= dht.prev_changed@.len(),
                dht == old(dht),
                any == !(forall|i: int|
                    0 <= i < c ==> (#[trigger] dht.prev_changed@[i]).1@.len() == 0),
            decreases dht.prev_changed@.len() - c,
        {
            if dht.prev_changed[c].1.len() > 0 {
                any = true;
            }
            c = c + 1;
        }
        if !any {
            proof {
                lemma_centrality_monotone_refl(dht.centrality@, dht.meta.round);
                assert forall|k: int|
                    0 <= k < dht.counters@.len() implies !counter_grew(
                    dht.counters@,
                    dht.counters@,
                    k,
                ) by {}
            }
            return ;
        }
        let round = dht.meta.round;
        proof {
            lemma_centrality_monotone_refl(dht.centrality@, round);
            assert forall|k: int|
                0 <= k < dht.counters@.len() implies !counter_grew(
                dht.counters@,
                dht.counters@,
                k,
            ) by {}
        }
        let mut new_changed: Vec<u128> = Vec::new();
        let mut e: usize = 0;
        while e < worker.edges.len()
            invariant
                0 <= e <= worker.edges@.len(),
                dht.wf(),
                dht.num_shards == old(dht).num_shards,
                dht.meta.upper_bound_num_nodes == old(dht).meta.upper_bound_num_nodes,
                dht.meta.round == old(dht).meta.round,
                round == old(dht).meta.round,
                dht.changed_nodes == old(dht).changed_nodes,
                dht.prev_changed == old(dht).prev_changed,
                dht.prev_counters == old(dht).prev_counters,
                counters_monotone(old(dht).counters@, dht.counters@),
                centrality_monotone(old(dht).centrality@, dht.centrality@, round),
                old(dht).meta.round_had_changes ==> dht.meta.round_had_changes,
                forall|e2: int|
                    0 <= e2 < e && changed_in_prev(
                        old(dht).prev_changed@,
                        (#[trigger] worker.edges@[e2]).0,
                    ) ==> exists|k: int|
                        0 <= k < dht.counters@.len() && (#[trigger] dht.counters@[k]).0
                            == worker.edges@[e2].1 && nodes_subset(
                            counter_of(old(dht).prev_counters@, worker.edges@[e2].0),
                            dht.counters@[k].1@,
                        ),
                forall|k: int, x: u128|
                    0 <= k < dht.counters@.len() && #[trigger] dht.counters@[k].1@.contains(x)
                        ==> (k < old(dht).counters@.len() && old(dht).counters@[k].1@.contains(
                        x,
                    )) || exists|e2: int|
                        0 <= e2 < e && (#[trigger] worker.edges@[e2]).1 == dht.counters@[k].0
                            && changed_in_prev(old(dht).prev_changed@, worker.edges@[e2].0)
                            && counter_of(old(dht).prev_counters@, worker.edges@[e2].0).contains(
                            x,
                        ),
                dht.meta.round_had_changes == (old(dht).meta.round_had_changes || exists|k: int|
                    0 <= k < dht.counters@.len() && #[trigger] counter_grew(
                        old(dht).counters@,
                        dht.counters@,
                        k,
                    )),
                grown_set(new_changed@, old(dht).counters@, dht.counters@),
            decreases worker.edges@.len() - e,
        {
            let (u, v) = worker.edges[e];
            let ghost counters_pre = dht.counters@;
            if changed_contains(&dht.prev_changed, u) {
                let src: Vec<u128> = match find_counter(&dht.prev_counters, u) {
                    Some(ci) => {
                        proof {
                            lemma_counter_of_found(dht.prev_counters@, u, ci as int);
                        }
                        copy_nodes(&dht.prev_counters[ci].1)
                    },
                    None => {
                        proof {
                            lemma_counter_of_missing(dht.prev_counters@, u);
                        }
                        Vec::new()
                    },
                };
                proof {
                    assert(src@ == counter_of(old(dht).prev_counters@, u));
                }
                let ghost counters0 = dht.counters@;
                let vi: usize = match find_counter(&dht.counters, v) {
                    Some(ci) => ci,
                    None => {
                        dht.counters.push((v, Vec::new()));
                        proof {
                            lemma_counters_push(counters0, dht.counters@, v);
                        }
                        dht.counters.len() - 1
                    },
                };
                let ghost counters1 = dht.counters@;
                let mut entry = dht.counters.remove(vi);
                let before_len = entry.1.len();
                let ghost set0 = entry.1@;
                let mut s: usize = 0;
                while s < src.len()
                    invariant
                        0 <= s <= src@.len(),
                        0 <= vi < counters1.len(),
                        entry.0 == counters1[vi as int].0,
                        set0 == counters1[vi as int].1@,
                        entry.1@.len() >= set0.len(),
                        entry.1@.take(set0.len() as int) == set0,
                        nodes_subset(set0, entry.1@),
                        forall|t: int| 0 <= t < s ==> entry.1@.contains(#[trigger] src@[t]),
                        forall|x: u128| entry.1@.contains(x) ==> set0.contains(x)
                            || src@.contains(x),
                        forall|i: int, j: int|
                            0 <= i < j < entry.1@.len() ==> entry.1@[i] != entry.1@[j],
                    decreases src@.len() - s,
                {
                    let x = src[s];
                    if !set_contains(&entry.1, x) {
                        let ghost setb = entry.1@;
                        entry.1.push(x);
                        proof {
                            assert(entry.1@.take(set0.len() as int) =~= setb.take(
                                set0.len() as int,
                            ));
                            assert(src@.contains(src@[s as int]));
                            assert forall|t: int|
                                0 <= t < s + 1 implies entry.1@.contains(
                                #[trigger] src@[t],
                            ) by {
                                if t < s {
                                    assert(setb.contains(src@[t]));
                                    let w = choose|w: int|
                                        0 <= w < setb.len() && setb[w] == src@[t];
                                    assert(entry.1@[w] == src@[t]);
                                } else {
                                    assert(entry.1@.last() == src@[t]);
                                }
                            }
                            assert forall|i: int, j: int|
                                0 <= i < j < entry.1@.len() implies entry.1@[i]
                                != entry.1@[j] by {
                                if j == entry.1@.len() - 1 {
                                    assert(!setb.contains(entry.1@[j]));
                                    assert(setb[i] == entry.1@[i]);
                                }
                            }
                        }
                    } else {
                        proof {
                            assert(src@.contains(src@[s as int]));
                            assert forall|t: int|
                                0 <= t < s + 1 implies entry.1@.contains(
                                #[trigger] src@[t],
                            ) by {}
                        }
                    }
                    s = s + 1;
                }
                let after_len = entry.1.len();
                let ghost merged = entry.1@;
                dht.counters.insert(vi, entry);
                proof {
                    assert(dht.counters@.len() == counters1.len());
                    assert forall|k: int|
                        0 <= k < counters1.len() && k != vi implies dht.counters@[k]
                        == counters1[k] by {}
                    lemma_counters_update(counters1, dht.counters@, vi as int, set0);
                    lemma_counters_monotone_trans(counters_pre, counters1, dht.counters@);
                    lemma_counters_monotone_trans(old(dht).counters@, counters_pre, dht.counters@);
                    assert(nodes_subset(src@, dht.counters@[vi as int].1@)) by {
                        assert forall|x: u128| src@.contains(x) implies merged.contains(x) by {
                            let t = choose|t: int| 0 <= t < src@.len() && src@[t] == x;
                            assert(merged.contains(src@[t]));
                        }
                    }
                    assert(dht.counters@[vi as int].0 == v);
                    // prior coverage witnesses survive the growth of v's counter
                    assert forall|e2: int|
                        0 <= e2 < e + 1 && changed_in_prev(
                            old(dht).prev_changed@,
                            (#[trigger] worker.edges@[e2]).0,
                        ) implies exists|k: int|
                        0 <= k < dht.counters@.len() && (#[trigger] dht.counters@[k]).0
                            == worker.edges@[e2].1 && nodes_subset(
                            counter_of(old(dht).prev_counters@, worker.edges@[e2].0),
                            dht.counters@[k].1@,
                        ) by {
                        if e2 == e {
                            assert(dht.counters@[vi as int].0 == worker.edges@[e2].1);
                        } else {
                            let k0 = choose|k: int|
                                0 <= k < counters_pre.len() && (#[trigger] counters_pre[k]).0
                                    == worker.edges@[e2].1 && nodes_subset(
                                    counter_of(old(dht).prev_counters@, worker.edges@[e2].0),
                                    counters_pre[k].1@,
                                );
                            assert(dht.counters@[k0].0 == counters_pre[k0].0);
                            assert(nodes_subset(counters_pre[k0].1@, dht.counters@[k0].1@));
                            assert forall|x: u128|
                                counter_of(
                                    old(dht).prev_counters@,
                                    worker.edges@[e2].0,
                                ).contains(x) implies dht.counters@[k0].1@.contains(x) by {
                                assert(counters_pre[k0].1@.contains(x));
                            }
                        }
                    }
                    // provenance of every counted node
                    assert forall|k: int, x: u128|
                        0 <= k < dht.counters@.len() && #[trigger] dht.counters@[k].1@.contains(
                            x,
                        ) implies (k < old(dht).counters@.len() && old(dht).counters@[k].1@.contains(x)) || exists|e2: int|
                        0 <= e2 < e + 1 && (#[trigger] worker.edges@[e2]).1 == dht.counters@[k].0
                            && changed_in_prev(old(dht).prev_changed@, worker.edges@[e2].0)
                            && counter_of(old(dht).prev_counters@, worker.edges@[e2].0).contains(
                            x,
                        ) by {
                        if k == vi {
                            if set0.contains(x) {
                                if vi < counters_pre.len() {
                                    assert(counters_pre[k].1@.contains(x));
                                    assert(counters_pre[k].0 == dht.counters@[k].0);
                                }
                            } else {
                                assert(src@.contains(x));
                                assert(worker.edges@[e as int].1 == dht.counters@[k].0);
                            }
                        } else if k < counters_pre.len() {
                            assert(dht.counters@[k] == counters_pre[k]);
                            assert(counters_pre[k].1@.contains(x));
                        } else {
                            assert(dht.counters@[k] == counters1[k]);
                            assert(counters1[k].1@.len() == 0);
                        }
                    }
                }
                if after_len > before_len {
                    let delta: u64 = if after_len - before_len <= u64::MAX as usize {
                        (after_len - before_len) as u64
                    } else {
                        u64::MAX
                    };
                    proof {
                        // the counter at vi genuinely grew against the start
                        let xg = merged[set0.len() as int];
                        assert(merged.contains(xg));
                        assert(!set0.contains(xg)) by {
                            if set0.contains(xg) {
                                let w = choose|w: int| 0 <= w < set0.len() && set0[w] == xg;
                                assert(merged[w] == merged[set0.len() as int]);
                            }
                        }
                        assert(counter_grew(old(dht).counters@, dht.counters@, vi as int)) by {
                            if vi < old(dht).counters@.len() {
                                assert(nodes_subset(
                                    old(dht).counters@[vi as int].1@,
                                    counters_pre[vi as int].1@,
                                ));
                                if old(dht).counters@[vi as int].1@.contains(xg) {
                                    assert(counters_pre[vi as int].1@.contains(xg));
                                    assert(set0.contains(xg));
                                }
                            }
                        }
                    }
                    let ghost cent0 = dht.centrality@;
                    match find_centrality(&dht.centrality, v) {
                        Some(pi) => {
                            let mut centry = dht.centrality.remove(pi);
                            let ghost contribs0 = centry.1@;
                            centry.1.push((round, delta));
                            dht.centrality.insert(pi, centry);
                            proof {
                                assert(dht.centrality@.len() == cent0.len());
                                assert forall|k: int|
                                    0 <= k < cent0.len() && k != pi implies dht.centrality@[k]
                                    == cent0[k] by {}
                                assert(dht.centrality@[pi as int].1@ == contribs0.push(
                                    (round, delta),
                                ));
                                assert(dht.centrality@[pi as int].1@.take(
                                    contribs0.len() as int,
                                ) =~= contribs0);
                                lemma_centrality_update(
                                    cent0,
                                    dht.centrality@,
                                    pi as int,
                                    contribs0,
                                    round,
                                );
                                lemma_centrality_monotone_trans(
                                    old(dht).centrality@,
                                    cent0,
                                    dht.centrality@,
                                    round,
                                );
                            }
                        },
                        None => {
                            let mut contribs: Vec<(u64, u64)> = Vec::new();
                            contribs.push((round, delta));
                            dht.centrality.push((v, contribs));
                            proof {
                                lemma_centrality_push(cent0, dht.centrality@, v, round);
                                lemma_centrality_monotone_trans(
                                    old(dht).centrality@,
                                    cent0,
                                    dht.centrality@,
                                    round,
                                );
                            }
                        },
                    }
                    let ghost nc0 = new_changed@;
                    if !set_contains(&new_changed, v) {
                        new_changed.push(v);
                    }
                    dht.meta.round_had_changes = true;
                    proof {
                        lemma_grown_set_step(
                            nc0,
                            new_changed@,
                            old(dht).counters@,
                            counters_pre,
                            dht.counters@,
                            vi as int,
                            v,
                        );
                    }
                } else {
                    proof {
                        assert(merged =~= set0);
                        assert forall|k: int|
                            0 <= k < counters_pre.len() && k != vi implies (
                        #[trigger] dht.counters@[k]).0 == counters_pre[k].0 && dht.counters@[
                            k
                        ].1@ == counters_pre[k].1@ by {
                            assert(dht.counters@[k] == counters1[k]);
                        }
                        lemma_grown_unchanged(
                            old(dht).counters@,
                            counters_pre,
                            dht.counters@,
                            vi as int,
                        );
                        assert forall|x: u128|
                            #[trigger] new_changed@.contains(x) implies exists|k: int|
                            0 <= k < dht.counters@.len() && (#[trigger] dht.counters@[k]).0 == x
                                && counter_grew(old(dht).counters@, dht.counters@, k) by {
                            let k0 = choose|k: int|
                                0 <= k < counters_pre.len() && (#[trigger] counters_pre[k]).0 == x
                                    && counter_grew(old(dht).counters@, counters_pre, k);
                            assert(dht.counters@[k0].0 == x);
                            assert(counter_grew(old(dht).counters@, dht.counters@, k0));
                        }
                        assert forall|x: u128|
                            (exists|k: int|
                                0 <= k < dht.counters@.len() && (#[trigger] dht.counters@[k]).0
                                    == x && counter_grew(
                                    old(dht).counters@,
                                    dht.counters@,
                                    k,
                                )) implies #[trigger] new_changed@.contains(x) by {
                            let k0 = choose|k: int|
                                0 <= k < dht.counters@.len() && (#[trigger] dht.counters@[k]).0
                                    == x && counter_grew(old(dht).counters@, dht.counters@, k);
                            assert(counter_grew(old(dht).counters@, counters_pre, k0) && k0
                                < counters_pre.len());
                            assert(counters_pre[k0].0 == x);
                        }
                        assert((exists|k: int|
                            0 <= k < dht.counters@.len() && #[trigger] counter_grew(
                                old(dht).counters@,
                                dht.counters@,
                                k,
                            )) == (exists|k: int|
                            0 <= k < counters_pre.len() && #[trigger] counter_grew(
                                old(dht).counters@,
                                counters_pre,
                                k,
                            ))) by {
                            if exists|k: int|
                                0 <= k < dht.counters@.len() && #[trigger] counter_grew(
                                    old(dht).counters@,
                                    dht.counters@,
                                    k,
                                ) {
                                let k0 = choose|k: int|
                                    0 <= k < dht.counters@.len() && #[trigger] counter_grew(
                                        old(dht).counters@,
                                        dht.counters@,
                                        k,
                                    );
                                assert(k0 < counters_pre.len() && counter_grew(
                                    old(dht).counters@,
                                    counters_pre,
                                    k0,
                                ));
                            }
                            if exists|k: int|
                                0 <= k < counters_pre.len() && #[trigger] counter_grew(
                                    old(dht).counters@,
                                    counters_pre,
                                    k,
                                ) {
                                let k0 = choose|k: int|
                                    0 <= k < counters_pre.len() && #[trigger] counter_grew(
                                        old(dht).counters@,
                                        counters_pre,
                                        k,
                                    );
                                assert(counter_grew(old(dht).counters@, dht.counters@, k0));
                            }
                        }
                    }
                }
            }
            e = e + 1;
        }
        let ghost counters_done = dht.counters@;
        let ghost changed0 = dht.changed_nodes@;
        match find_changed(&dht.changed_nodes, job.shard) {
            Some(ci) => {
                proof {
                    lemma_changed_index_found(changed0, job.shard, ci as int);
                }
                let mut centry = dht.changed_nodes.remove(ci);
                centry.1 = new_changed;
                dht.changed_nodes.insert(ci, centry);
                proof {
                    assert forall|i: int, j: int|
                        0 <= i < j < dht.changed_nodes@.len() implies dht.changed_nodes@[i].0
                        != dht.changed_nodes@[j].0 by {
                        assert(dht.changed_nodes@[i].0 == changed0[i].0);
                        assert(dht.changed_nodes@[j].0 == changed0[j].0);
                    }
                    assert forall|j: int|
                        0 <= j < changed0.len() && j != ci implies dht.changed_nodes@[j]
                        == changed0[j] by {}
                }
            },
            None => {
                proof {
                    lemma_changed_index_missing(changed0, job.shard);
                }
                dht.changed_nodes.push((job.shard, new_changed));
                proof {
                    assert(dht.changed_nodes@.take(changed0.len() as int) =~= changed0);
                    assert forall|i: int, j: int|
                        0 <= i < j < dht.changed_nodes@.len() implies dht.changed_nodes@[i].0
                        != dht.changed_nodes@[j].0 by {
                        if j < dht.changed_nodes@.len() - 1 {
                            assert(dht.changed_nodes@[i] == changed0[i]);
                            assert(dht.changed_nodes@[j] == changed0[j]);
                        } else {
                            assert(dht.changed_nodes@[i] == changed0[i]);
                        }
                    }
                }
            },
        }
    }
}

/// Replacing the accumulator after one growth step keeps it listing
/// exactly the grown targets.
proof fn lemma_grown_set_step(
    before_acc: Seq<u128>,
    after_acc: Seq<u128>,
    base: Seq<(u128, Vec<u128>)>,
    pre: Seq<(u128, Vec<u128>)>,
    cur: Seq<(u128, Vec<u128>)>,
    vi: int,
    v: u128,
)
    requires
        grown_set(before_acc, base, pre),
        counters_monotone(base, pre),
        counters_monotone(pre, cur),
        0 <= vi < cur.len(),
        cur.len() >= pre.len(),
        pre.len() >= base.len(),
        cur.len() <= pre.len() + 1,
        forall|k: int| 0 <= k < pre.len() && k != vi ==> #[trigger] cur[k] == pre[k],
        vi < pre.len() ==> cur[vi].0 == pre[vi].0,
        cur[vi].0 == v,
        counter_grew(base, cur, vi),
        cur.len() == pre.len() + 1 ==> vi == pre.len(),
        nodes_subset(
            if vi < pre.len() {
                pre[vi].1@
            } else {
                Seq::<u128>::empty()
            },
            cur[vi].1@,
        ),
        after_acc == if before_acc.contains(v) {
            before_acc
        } else {
            before_acc.push(v)
        },
    ensures
        grown_set(after_acc, base, cur),
{
    assert forall|x: u128| #[trigger] after_acc.contains(x) implies exists|k: int|
        0 <= k < cur.len() && (#[trigger] cur[k]).0 == x && counter_grew(base, cur, k) by {
        if x == v {
            assert(cur[vi].0 == x && counter_grew(base, cur, vi));
        } else {
            assert(before_acc.contains(x)) by {
                let w = choose|w: int| 0 <= w < after_acc.len() && after_acc[w] == x;
                if w < before_acc.len() {
                    assert(before_acc[w] == x);
                }
            }
            let k0 = choose|k: int|
                0 <= k < pre.len() && (#[trigger] pre[k]).0 == x && counter_grew(base, pre, k);
            assert(cur[k0].0 == x) by {
                if k0 == vi {
                } else {
                    assert(cur[k0] == pre[k0]);
                }
            }
            assert(counter_grew(base, cur, k0)) by {
                if k0 != vi {
                    assert(cur[k0] == pre[k0]);
                } else {
                    if k0 < base.len() {
                        let xw = choose|xw: u128|
                            pre[k0].1@.contains(xw) && !base[k0].1@.contains(xw);
                        assert(cur[k0].1@.contains(xw));
                    } else {
                        let xw = pre[k0].1@[0];
                        assert(pre[k0].1@.contains(xw));
                        assert(cur[k0].1@.contains(xw));
                    }
                }
            }
        }
    }
    assert forall|x: u128|
        (exists|k: int|
            0 <= k < cur.len() && (#[trigger] cur[k]).0 == x && counter_grew(
                base,
                cur,
                k,
            )) implies #[trigger] after_acc.contains(x) by {
        let k0 = choose|k: int|
            0 <= k < cur.len() && (#[trigger] cur[k]).0 == x && counter_grew(base, cur, k);
        if k0 == vi {
            assert(x == v);
            if before_acc.contains(v) {
            } else {
                assert(after_acc.last() == v);
            }
        } else {
            if k0 < pre.len() {
                assert(cur[k0] == pre[k0]);
                assert(before_acc.contains(x));
                let w = choose|w: int| 0 <= w < before_acc.len() && before_acc[w] == x;
                assert(after_acc[w] == x);
            } else {
                assert(cur.len() == pre.len() + 1);
                assert(k0 == pre.len());
                assert(vi == pre.len());
                assert(false);
            }
        }
    }
}

/// A merge that added nothing leaves every growth status as it was, even
/// when an empty counter entry was created for the target.
proof fn lemma_grown_unchanged(
    base: Seq<(u128, Vec<u128>)>,
    pre: Seq<(u128, Vec<u128>)>,
    cur: Seq<(u128, Vec<u128>)>,
    vi: int,
)
    requires
        0 <= vi < cur.len(),
        pre.len() <= cur.len() <= pre.len() + 1,
        forall|k: int|
            0 <= k < pre.len() && k != vi ==> (#[trigger] cur[k]).0 == pre[k].0 && cur[k].1@
                == pre[k].1@,
        vi < pre.len() ==> cur[vi].0 == pre[vi].0 && cur[vi].1@ == pre[vi].1@,
        vi >= pre.len() ==> cur[vi].1@.len() == 0,
        cur.len() == pre.len() + 1 ==> vi == pre.len(),
    ensures
        forall|k: int|
            0 <= k < cur.len() ==> (#[trigger] counter_grew(base, cur, k) <==> (k < pre.len()
                && counter_grew(base, pre, k))),
{
    assert forall|k: int|
        0 <= k < cur.len() implies (#[trigger] counter_grew(base, cur, k) <==> (k < pre.len()
            && counter_grew(base, pre, k))) by {
        if k < pre.len() {
            assert(cur[k].1@ == pre[k].1@);
        } else {
            assert(cur[k].1@.len() == 0);
            if k < base.len() {
                assert(nodes_subset(cur[k].1@, base[k].1@));
            }
        }
    }
}

/// The position of a node's counter.
fn find_counter(counters: &Vec<(u128, Vec<u128>)>, node: u128) -> (r: Option<usize>)
    ensures
        match r {
            Some(i) => i < counters@.len() && counters@[i as int].0 == node && forall|k: int|
                0 <= k < i ==> (#[trigger] counters@[k]).0 != node,
            None => forall|k: int| 0 <= k < counters@.len() ==> (#[trigger] counters@[k]).0
                != node,
        },
{
    let mut i: usize = 0;
    while i < counters.len()
        invariant
            0 <= i <= counters@.len(),
            forall|k: int| 0 <= k < i ==> (#[trigger] counters@[k]).0 != node,
        decreases counters@.len() - i,
    {
        if counters[i].0 == node {
            return Some(i);
        }
        i = i + 1;
    }
    None
}

/// The position of a node's centrality entry.
fn find_centrality(centrality: &Vec<(u128, Vec<(u64, u64)>)>, node: u128) -> (r: Option<usize>)
    ensures
        match r {
            Some(i) => i < centrality@.len() && centrality@[i as int].0 == node,
            None => forall|k: int| 0 <= k < centrality@.len() ==> (#[trigger] centrality@[k]).0
                != node,
        },
{
    let mut i: usize = 0;
    while i < centrality.len()
        invariant
            0 <= i <= centrality@.len(),
            forall|k: int| 0 <= k < i ==> (#[trigger] centrality@[k]).0 != node,
        decreases centrality@.len() - i,
    {
        if centrality[i].0 == node {
            return Some(i);
        }
        i = i + 1;
    }
    None
}

/// The position of a shard's changed set.
fn find_changed(ch: &Vec<(ShardId, Vec<u128>)>, shard: ShardId) -> (r: Option<usize>)
    ensures
        match r {
            Some(i) => i < ch@.len() && ch@[i as int].0 == shard && forall|k: int|
                0 <= k < i ==> (#[trigger] ch@[k]).0 != shard,
            None => forall|k: int| 0 <= k < ch@.len() ==> (#[trigger] ch@[k]).0 != shard,
        },
{
    let mut i: usize = 0;
    while i < ch.len()
        invariant
            0 <= i <= ch@.len(),
            forall|k: int| 0 <= k < i ==> (#[trigger] ch@[k]).0 != shard,
        decreases ch@.len() - i,
    {
        if ch[i].0 == shard {
            return Some(i);
        }
        i = i + 1;
    }
    None
}

/// Copies a node set.
fn copy_nodes(v: &Vec<u128>) -> (r: Vec<u128>)
    ensures
        r@ == v@,
{
    let mut r: Vec<u128> = Vec::new();
    let mut i: usize = 0;
    while i < v.len()
        invariant
            0 <= i <= v@.len(),
            r@ == v@.take(i as int),
        decreases v@.len() - i,
    {
        r.push(v[i]);
        proof {
            assert(v@.take(i + 1) =~= v@.take(i as int).push(v@[i as int]));
        }
        i = i + 1;
    }
    proof {
        assert(v@.take(v@.len() as int) =~= v@);
    }
    r
}

proof fn lemma_counters_push(
    before: Seq<(u128, Vec<u128>)>,
    after: Seq<(u128, Vec<u128>)>,
    node: u128,
)
    requires
        after.len() == before.len() + 1,
        forall|k: int| 0 <= k < before.len() ==> after[k] == before[k],
        forall|k: int| 0 <= k < before.len() ==> (#[trigger] before[k]).0 != node,
        after.last().0 == node,
        after.last().1@.len() == 0,
        forall|i: int, j: int| 0 <= i < j < before.len() ==> before[i].0 != before[j].0,
    ensures
        forall|i: int, j: int| 0 <= i < j < after.len() ==> after[i].0 != after[j].0,
        counters_monotone(before, after),
{
    assert forall|i: int, j: int| 0 <= i < j < after.len() implies after[i].0 != after[j].0 by {
        if j < after.len() - 1 {
            assert(after[i] == before[i]);
            assert(after[j] == before[j]);
        } else {
            assert(after[i] == before[i]);
        }
    }
}

proof fn lemma_counters_update(
    before: Seq<(u128, Vec<u128>)>,
    after: Seq<(u128, Vec<u128>)>,
    at: int,
    set0: Seq<u128>,
)
    requires
        0 <= at < before.len(),
        after.len() == before.len(),
        forall|k: int| 0 <= k < before.len() && k != at ==> after[k] == before[k],
        after[at].0 == before[at].0,
        before[at].1@ == set0,
        nodes_subset(set0, after[at].1@),
    ensures
        counters_monotone(before, after),
{
}

proof fn lemma_counters_monotone_trans(
    a: Seq<(u128, Vec<u128>)>,
    b: Seq<(u128, Vec<u128>)>,
    c: Seq<(u128, Vec<u128>)>,
)
    requires
        counters_monotone(a, b),
        counters_monotone(b, c),
    ensures
        counters_monotone(a, c),
{
    assert forall|k: int|
        0 <= k < a.len() implies (#[trigger] c[k]).0 == a[k].0 && nodes_subset(
        a[k].1@,
        c[k].1@,
    ) by {
        assert(b[k].0 == a[k].0 && nodes_subset(a[k].1@, b[k].1@));
        assert(c[k].0 == b[k].0 && nodes_subset(b[k].1@, c[k].1@));
    }
}

proof fn lemma_centrality_monotone_refl(s: Seq<(u128, Vec<(u64, u64)>)>, round: u64)
    ensures
        centrality_monotone(s, s, round),
{
    assert forall|k: int|
        0 <= k < s.len() implies (#[trigger] s[k]).0 == s[k].0 && s[k].1@.len() >= s[k].1@.len()
            && s[k].1@.take(s[k].1@.len() as int) == s[k].1@ by {
        assert(s[k].1@.take(s[k].1@.len() as int) =~= s[k].1@);
    }
}

proof fn lemma_centrality_update(
    before: Seq<(u128, Vec<(u64, u64)>)>,
    after: Seq<(u128, Vec<(u64, u64)>)>,
    at: int,
    contribs0: Seq<(u64, u64)>,
    round: u64,
)
    requires
        0 <= at < before.len(),
        after.len() == before.len(),
        forall|k: int| 0 <= k < before.len() && k != at ==> after[k] == before[k],
        after[at].0 == before[at].0,
        before[at].1@ == contribs0,
        after[at].1@.len() == contribs0.len() + 1,
        after[at].1@.take(contribs0.len() as int) == contribs0,
        after[at].1@.last().0 == round,
        after[at].1@.last().1 >= 1,
        forall|i: int, j: int| 0 <= i < j < before.len() ==> before[i].0 != before[j].0,
    ensures
        centrality_monotone(before, after, round),
        forall|i: int, j: int| 0 <= i < j < after.len() ==> after[i].0 != after[j].0,
{
    assert forall|i: int, j: int| 0 <= i < j < after.len() implies after[i].0 != after[j].0 by {
        assert(after[i].0 == before[i].0);
        assert(after[j].0 == before[j].0);
    }
    assert forall|k: int|
        0 <= k < before.len() implies (#[trigger] after[k]).0 == before[k].0 && after[k].1@.len()
            >= before[k].1@.len() && after[k].1@.take(before[k].1@.len() as int)
            == before[k].1@ by {
        if k != at {
            assert(after[k] == before[k]);
            assert(after[k].1@.take(before[k].1@.len() as int) =~= before[k].1@);
        }
    }
    assert forall|k: int, c: int|
        0 <= k < before.len() && before[k].1@.len() <= c < (#[trigger] after[k]).1@.len() implies
        (#[trigger] after[k].1@[c]).0 == round && after[k].1@[c].1 >= 1 by {
        if k == at {
            assert(c == contribs0.len());
            assert(after[k].1@[c] == after[at].1@.last());
        } else {
            assert(after[k] == before[k]);
        }
    }
}

proof fn lemma_centrality_push(
    before: Seq<(u128, Vec<(u64, u64)>)>,
    after: Seq<(u128, Vec<(u64, u64)>)>,
    node: u128,
    round: u64,
)
    requires
        after.len() == before.len() + 1,
        forall|k: int| 0 <= k < before.len() ==> after[k] == before[k],
        forall|k: int| 0 <= k < before.len() ==> (#[trigger] before[k]).0 != node,
        after.last().0 == node,
        after.last().1@.len() == 1,
        after.last().1@[0].0 == round,
        after.last().1@[0].1 >= 1,
        forall|i: int, j: int| 0 <= i < j < before.len() ==> before[i].0 != before[j].0,
    ensures
        centrality_monotone(before, after, round),
        forall|i: int, j: int| 0 <= i < j < after.len() ==> after[i].0 != after[j].0,
{
    assert forall|i: int, j: int| 0 <= i < j < after.len() implies after[i].0 != after[j].0 by {
        if j < after.len() - 1 {
            assert(after[i] == before[i]);
            assert(after[j] == before[j]);
        } else {
            assert(after[i] == before[i]);
        }
    }
    assert forall|k: int|
        0 <= k < before.len() implies (#[trigger] after[k]).0 == before[k].0 && after[k].1@.len()
            >= before[k].1@.len() && after[k].1@.take(before[k].1@.len() as int)
            == before[k].1@ by {
        assert(after[k] == before[k]);
        assert(after[k].1@.take(before[k].1@.len() as int) =~= before[k].1@);
    }
}

proof fn lemma_centrality_monotone_trans(
    a: Seq<(u128, Vec<(u64, u64)>)>,
    b: Seq<(u128, Vec<(u64, u64)>)>,
    c: Seq<(u128, Vec<(u64, u64)>)>,
    round: u64,
)
    requires
        centrality_monotone(a, b, round),
        centrality_monotone(b, c, round),
    ensures
        centrality_monotone(a, c, round),
{
    assert forall|k: int|
        0 <= k < a.len() implies (#[trigger] c[k]).0 == a[k].0 && c[k].1@.len() >= a[k].1@.len()
            && c[k].1@.take(a[k].1@.len() as int) == a[k].1@ by {
        assert(b[k].0 == a[k].0 && b[k].1@.take(a[k].1@.len() as int) == a[k].1@);
        assert(c[k].0 == b[k].0 && c[k].1@.take(b[k].1@.len() as int) == b[k].1@);
        assert(c[k].1@.take(a[k].1@.len() as int) =~= c[k].1@.take(b[k].1@.len() as int).take(
            a[k].1@.len() as int,
        ));
    }
    assert forall|k: int, cc: int|
        0 <= k < a.len() && a[k].1@.len() <= cc < (#[trigger] c[k]).1@.len() implies (
    #[trigger] c[k].1@[cc]).0 == round && c[k].1@[cc].1 >= 1 by {
        if cc < b[k].1@.len() {
            assert(b[k].1@[cc] == c[k].1@.take(b[k].1@.len() as int)[cc]);
        }
    }
    assert forall|k: int, cc: int|
        a.len() <= k < c.len() && 0 <= cc < (#[trigger] c[k]).1@.len() implies (
    #[trigger] c[k].1@[cc]).0 == round && c[k].1@[cc].1 >= 1 by {
        if k < b.len() {
            if cc < b[k].1@.len() {
                assert(b[k].1@[cc] == c[k].1@.take(b[k].1@.len() as int)[cc]);
            }
        }
    }
}

} // verus!
