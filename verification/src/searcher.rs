use vstd::prelude::*;
use crate::types::ShardId;

verus! {

/// How often the sharded client refreshes its routing table from the
/// cluster membership, in seconds.
pub const CLIENT_REFRESH_INTERVAL_SECONDS: u64 = 60;

/// What a search can fail with at the coordinator.
#[derive(Clone, Copy, Debug, PartialEq, Eq, Structural)]
pub enum Error {
    /// Every shard was unreachable or answered with an error.
    SearchFailed,
    /// The query was empty.
    EmptyQuery,
    /// A pointer's shard is gone, so the page cannot be retrieved.
    WebpageNotFound,
}

/// An opaque per-shard locator of one result page: shard-local document
/// coordinates, valid against the shard that produced it.
#[derive(Clone, Copy, Debug, PartialEq, Eq, Structural)]
pub struct WebpagePointer {
    pub segment_ord: u32,
    pub doc_id: u32,
}

/// A result of the recall phase: where the page lives and its recall score.
#[derive(Clone, Copy, Debug, PartialEq, Eq, Structural)]
pub struct RecallRankingWebpage {
    pub pointer: WebpagePointer,
    pub score: u64,
}

impl RecallRankingWebpage {
    pub fn pointer(&self) -> (r: &WebpagePointer)
        ensures
            r == &self.pointer,
    {
        &self.pointer
    }
}

/// A recall-phase result tagged with the shard that produced it; its
/// pointer must go back to that shard, and no other, for retrieval.
#[derive(Clone, Copy, Debug, PartialEq, Eq, Structural)]
pub struct ScoredWebpagePointer {
    pub website: RecallRankingWebpage,
    pub shard: ShardId,
}

impl ScoredWebpagePointer {
    pub fn as_ranking(&self) -> (r: &RecallRankingWebpage)
        ensures
            r == &self.website,
    {
        &self.website
    }

    pub fn as_ranking_mut(&mut self) -> (r: &mut RecallRankingWebpage)
        ensures
            *r == old(self).website,
            final(self).website == *final(r),
            final(self).shard == old(self).shard,
    {
        &mut self.website
    }
}

/// What one shard answered in the initial phase: its local top results,
/// already ranked by recall score.
#[derive(Clone, Debug)]
pub struct InitialWebsiteResult {
    pub websites: Vec<RecallRankingWebpage>,
    pub num_websites: usize,
}

/// An initial result together with the shard it came from.
#[derive(Clone, Debug)]
pub struct InitialSearchResultShard {
    pub local_result: InitialWebsiteResult,
    pub shard: ShardId,
}

/// Each batch sent to a shard holds only that shard's pointers, each tagged
/// with its position in the caller's list.
pub open spec fn groups_sound(
    groups: Seq<(ShardId, Vec<(usize, WebpagePointer)>)>,
    top: Seq<ScoredWebpagePointer>,
) -> bool {
    forall|g: int, e: int|
        0 <= g < groups.len() && 0 <= e < groups[g].1@.len() ==> {
            let (idx, ptr) = (#[trigger] groups[g].1@[e]);
            &&& idx < top.len()
            &&& top[idx as int].shard == groups[g].0
            &&& ptr == top[idx as int].website.pointer
        }
}

/// Position `i` of the caller's list landed in some batch, paired with its
/// own pointer.
pub open spec fn pointer_covered(
    groups: Seq<(ShardId, Vec<(usize, WebpagePointer)>)>,
    top: Seq<ScoredWebpagePointer>,
    i: int,
) -> bool {
    exists|g: int, e: int|
        0 <= g < groups.len() && 0 <= e < groups[g].1@.len() && #[trigger] groups[g].1@[e] == (
        i as usize,
        top[i].website.pointer,
        )
}

/// The number of pointers over all per-shard batches.
pub open spec fn groups_total(groups: Seq<(ShardId, Vec<(usize, WebpagePointer)>)>) -> int
    decreases groups.len(),
{
    if groups.len() == 0 {
        0
    } else {
        groups_total(groups.drop_last()) + groups.last().1@.len()
    }
}

/// Groups the chosen pointers by the shard that produced them, keeping each
/// pointer's position in the caller's list. No pointer is ever put into
/// another shard's batch, and every pointer lands in exactly one batch.
pub fn plan_retrieval(top_websites: &Vec<ScoredWebpagePointer>) -> (groups: Vec<
    (ShardId, Vec<(usize, WebpagePointer)>),
>)
    ensures
        groups_sound(groups@, top_websites@),
        groups_total(groups@) == top_websites@.len(),
        forall|g: int, h: int| 0 <= g < h < groups@.len() ==> groups@[g].0 != groups@[h].0,
        forall|i: int|
            0 <= i < top_websites@.len() ==> #[trigger] pointer_covered(
                groups@,
                top_websites@,
                i,
            ),
{
    let mut groups: Vec<(ShardId, Vec<(usize, WebpagePointer)>)> = Vec::new();
    let mut i: usize = 0;
    while i < top_websites.len()
        invariant
            0 <= i <= top_websites@.len(),
            groups_sound(groups@, top_websites@),
            groups_total(groups@) == i,
            forall|g: int, h: int| 0 <= g < h < groups@.len() ==> groups@[g].0 != groups@[h].0,
            forall|k: int| 0 <= k < i ==> #[trigger] pointer_covered(groups@, top_websites@, k),
        decreases top_websites@.len() - i,
    {
        let p = top_websites[i];
        let mut found: Option<usize> = None;
        let mut g: usize = 0;
        while g < groups.len()
            invariant
                0 <= g <= groups@.len(),
                match found {
                    Some(fg) => fg < groups@.len() && groups@[fg as int].0 == p.shard,
                    None => forall|k: int| 0 <= k < g ==> groups@[k].0 != p.shard,
                },
            decreases groups@.len() - g,
        {
            if found.is_none() && groups[g].0 == p.shard {
                found = Some(g);
            }
            g = g + 1;
        }
        let ghost groups0 = groups@;
        match found {
            Some(fg) => {
                let mut entry = groups.remove(fg);
                entry.1.push((i, p.website.pointer));
                groups.insert(fg, entry);
                proof {
                    assert forall|a: int|
                        0 <= a < groups@.len() && a != fg implies groups@[a] == groups0[a] by {}
                    lemma_groups_total_update(groups0, groups@, fg as int);
                    assert forall|k: int|
                        0 <= k < i + 1 implies #[trigger] pointer_covered(
                        groups@,
                        top_websites@,
                        k,
                    ) by {
                        if k == i {
                            assert(groups@[fg as int].1@[groups@[fg as int].1@.len() - 1] == (
                            i as usize,
                            top_websites@[i as int].website.pointer,
                            ));
                        } else {
                            assert(pointer_covered(groups0, top_websites@, k));
                            let (gg, e): (int, int) = choose|gg: int, e: int|
                                0 <= gg < groups0.len() && 0 <= e < groups0[gg].1@.len()
                                    && #[trigger] groups0[gg].1@[e] == (
                                k as usize,
                                top_websites@[k].website.pointer,
                                );
                            assert(groups@[gg].1@[e] == groups0[gg].1@[e]);
                        }
                    }
                }
            },
            None => {
                let mut batch: Vec<(usize, WebpagePointer)> = Vec::new();
                batch.push((i, p.website.pointer));
                groups.push((p.shard, batch));
                proof {
                    assert(groups@.drop_last() =~= groups0);
                    assert forall|k: int|
                        0 <= k < i + 1 implies #[trigger] pointer_covered(
                        groups@,
                        top_websites@,
                        k,
                    ) by {
                        if k == i {
                            assert(groups@[groups@.len() - 1].1@[0] == (
                            i as usize,
                            top_websites@[i as int].website.pointer,
                            ));
                        } else {
                            assert(pointer_covered(groups0, top_websites@, k));
                            let (gg, e): (int, int) = choose|gg: int, e: int|
                                0 <= gg < groups0.len() && 0 <= e < groups0[gg].1@.len()
                                    && #[trigger] groups0[gg].1@[e] == (
                                k as usize,
                                top_websites@[k].website.pointer,
                                );
                            assert(groups@[gg].1@[e] == groups0[gg].1@[e]);
                        }
                    }
                }
            },
        }
        i = i + 1;
    }
    groups
}

/// Replacing one batch with a one-longer batch grows the total by one.
proof fn lemma_groups_total_update(
    before: Seq<(ShardId, Vec<(usize, WebpagePointer)>)>,
    after: Seq<(ShardId, Vec<(usize, WebpagePointer)>)>,
    at: int,
)
    requires
        before.len() == after.len(),
        0 <= at < before.len(),
        forall|a: int| 0 <= a < before.len() && a != at ==> after[a] == before[a],
        after[at].1@.len() == before[at].1@.len() + 1,
    ensures
        groups_total(after) == groups_total(before) + 1,
    decreases before.len(),
{
    if before.len() > 0 {
        if at == before.len() - 1 {
            assert(after.drop_last() =~= before.drop_last());
        } else {
            lemma_groups_total_update(before.drop_last(), after.drop_last(), at);
        }
    }
}

/// A fully retrieved page together with the recall ranking it came from.
#[derive(Clone, Debug)]
pub struct PrecisionRankingWebpage {
    pub url: Vec<u8>,
    pub body: Vec<u8>,
    pub ranking: RecallRankingWebpage,
}

/// Some fetched entry answers position `j` of the caller's list.
pub open spec fn index_present(results: Seq<(usize, PrecisionRankingWebpage)>, j: int) -> bool {
    exists|k: int| 0 <= k < results.len() && (#[trigger] results[k]).0 == j
}

/// Puts the pages fetched from the shards back into the caller's order:
/// entry `(i, page)` means the page answers position `i` of the caller's
/// pointer list, and the result holds it at exactly that position.
pub fn order_retrieved(n: usize, results: Vec<(usize, PrecisionRankingWebpage)>) -> (r: Vec<
    PrecisionRankingWebpage,
>)
    requires
        results@.len() == n,
        forall|k: int| 0 <= k < results@.len() ==> (#[trigger] results@[k]).0 < n,
        forall|k: int, l: int|
            0 <= k < l < results@.len() ==> results@[k].0 != results@[l].0,
        forall|j: int| 0 <= j < n ==> #[trigger] index_present(results@, j),
    ensures
        r@.len() == n,
        forall|k: int|
            0 <= k < results@.len() ==> r@[(#[trigger] results@[k]).0 as int] == results@[k].1,
{
    let ghost orig = results@;
    let mut results = results;
    let mut slots: Vec<Option<PrecisionRankingWebpage>> = Vec::new();
    let mut j: usize = 0;
    while j < n
        invariant
            0 <= j <= n,
            slots@.len() == j,
            forall|p: int| 0 <= p < j ==> (#[trigger] slots@[p]) is None,
        decreases n - j,
    {
        slots.push(None);
        j = j + 1;
    }
    let ghost i: int = 0;
    while results.len() > 0
        invariant
            0 <= i <= orig.len(),
            orig.len() == n,
            results@ == orig.skip(i),
            slots@.len() == n,
            forall|k: int, l: int| 0 <= k < l < orig.len() ==> orig[k].0 != orig[l].0,
            forall|k: int| 0 <= k < orig.len() ==> (#[trigger] orig[k]).0 < n,
            forall|k: int| 0 <= k < i ==> slots@[(#[trigger] orig[k]).0 as int] == Some(
                orig[k].1,
            ),
        decreases results@.len(),
    {
        let (idx, page) = results.remove(0);
        proof {
            assert((idx, page) == orig[i]);
            assert(results@ =~= orig.skip(i + 1));
        }
        slots.set(idx, Some(page));
        proof {
            assert forall|k: int| 0 <= k < i + 1 implies slots@[(#[trigger] orig[k]).0 as int]
                == Some(orig[k].1) by {
                if k < i {
                    assert(orig[k].0 != orig[i].0);
                }
            }
            i = i + 1;
        }
    }
    let mut out: Vec<PrecisionRankingWebpage> = Vec::new();
    let mut slots = slots;
    let ghost full = slots@;
    let ghost m: int = 0;
    while slots.len() > 0
        invariant
            0 <= m <= n,
            full.len() == n,
            orig.len() == n,
            slots@ == full.skip(m),
            out@.len() == m,
            forall|k: int| 0 <= k < orig.len() ==> full[(#[trigger] orig[k]).0 as int] == Some(
                orig[k].1,
            ),
            forall|k: int| 0 <= k < orig.len() ==> (#[trigger] orig[k]).0 < n,
            forall|j2: int| 0 <= j2 < n ==> #[trigger] index_present(orig, j2),
            forall|p: int| 0 <= p < m ==> (#[trigger] full[p] matches Some(v) && out@[p] == v),
        decreases slots@.len(),
    {
        let s = slots.remove(0);
        proof {
            assert(s == full[m]);
            assert(slots@ =~= full.skip(m + 1));
            assert(index_present(orig, m));
            let k = choose|k: int| 0 <= k < orig.len() && (#[trigger] orig[k]).0 == m;
            assert(full[m] == Some(orig[k].1));
        }
        match s {
            Some(page) => {
                out.push(page);
            },
            None => {
                proof {
                    assert(false);
                }
            },
        }
        proof {
            m = m + 1;
        }
    }
    proof {
        assert forall|k: int|
            0 <= k < orig.len() implies out@[(#[trigger] orig[k]).0 as int] == orig[k].1 by {
            assert(full[orig[k].0 as int] == Some(orig[k].1));
        }
    }
    out
}

/// The gossip state of a live-index member; only a ready member serves
/// searches.
#[derive(Clone, Copy, Debug, PartialEq, Eq, Structural)]
pub enum LiveIndexState {
    NotReady,
    Ready,
}

/// One member of the cluster, as gossip advertises it; hosts are carried as
/// plain endpoint identifiers.
#[derive(Clone, Copy, Debug, PartialEq, Eq, Structural)]
pub enum Service {
    Searcher { host: u64, shard: ShardId },
    LiveIndex { host: u64, search_host: u64, shard: ShardId, state: LiveIndexState },
    EntitySearcher { host: u64 },
    Dht { host: u64, shard: ShardId },
}

/// Whether this member serves searches, and where: a searcher always does;
/// a live-index member only when it is ready, through its search host.
pub open spec fn routable(m: Service) -> Option<(ShardId, u64)> {
    match m {
        Service::Searcher { host, shard } => Some((shard, host)),
        Service::LiveIndex { host, search_host, shard, state } => if state
            == LiveIndexState::Ready {
            Some((shard, search_host))
        } else {
            None
        },
        Service::EntitySearcher { host } => None,
        Service::Dht { host, shard } => None,
    }
}

/// Replica `e` of shard entry `g` of the routing table is justified by
/// some routable member.
pub open spec fn route_justified(
    routes: Seq<(ShardId, Vec<u64>)>,
    members: Seq<Service>,
    g: int,
    e: int,
) -> bool {
    exists|m: int|
        0 <= m < members.len() && #[trigger] routable(members[m]) == Some(
            (routes[g].0, routes[g].1@[e]),
        )
}

/// Host `h` is listed as a replica of shard `s` in the routing table.
pub open spec fn route_present(routes: Seq<(ShardId, Vec<u64>)>, s: ShardId, h: u64) -> bool {
    exists|g: int, e: int|
        0 <= g < routes.len() && 0 <= e < routes[g].1@.len() && routes[g].0 == s
            && #[trigger] routes[g].1@[e] == h
}

/// Builds the routing table from the cluster members: searchers and ready
/// live-index members are routable, grouped by their shard; nothing else
/// is, so an unready member never receives a search.
pub fn new_search_client_routes(members: &Vec<Service>) -> (routes: Vec<(ShardId, Vec<u64>)>)
    ensures
        forall|g: int, h: int| 0 <= g < h < routes@.len() ==> routes@[g].0 != routes@[h].0,
        forall|g: int, e: int|
            0 <= g < routes@.len() && 0 <= e < routes@[g].1@.len() ==> #[trigger] route_justified(
                routes@,
                members@,
                g,
                e,
            ),
        forall|m: int|
            0 <= m < members@.len() ==> match routable(#[trigger] members@[m]) {
                Some(sh) => route_present(routes@, sh.0, sh.1),
                None => true,
            },
{
    let mut routes: Vec<(ShardId, Vec<u64>)> = Vec::new();
    let mut i: usize = 0;
    while i < members.len()
        invariant
            0 <= i <= members@.len(),
            forall|g: int, h: int| 0 <= g < h < routes@.len() ==> routes@[g].0 != routes@[h].0,
            forall|g: int, e: int|
                0 <= g < routes@.len() && 0 <= e < routes@[g].1@.len() ==> #[trigger] route_justified(
                    routes@,
                    members@,
                    g,
                    e,
                ),
            forall|m: int|
                0 <= m < i ==> match routable(#[trigger] members@[m]) {
                    Some(sh) => route_present(routes@, sh.0, sh.1),
                    None => true,
                },
        decreases members@.len() - i,
    {
        let member = members[i];
        let target: Option<(ShardId, u64)> = match member {
            Service::Searcher { host, shard } => Some((shard, host)),
            Service::LiveIndex { host, search_host, shard, state } => if state
                == LiveIndexState::Ready {
                Some((shard, search_host))
            } else {
                None
            },
            Service::EntitySearcher { host: _ } => None,
            Service::Dht { host: _, shard: _ } => None,
        };
        match target {
            None => {},
            Some((shard, host)) => {
                proof {
                    assert(routable(members@[i as int]) == Some((shard, host)));
                }
                let mut found: Option<usize> = None;
                let mut g: usize = 0;
                while g < routes.len()
                    invariant
                        0 <= g <= routes@.len(),
                        match found {
                            Some(fg) => fg < routes@.len() && routes@[fg as int].0 == shard,
                            None => forall|k: int| 0 <= k < g ==> routes@[k].0 != shard,
                        },
                    decreases routes@.len() - g,
                {
                    if found.is_none() && routes[g].0 == shard {
                        found = Some(g);
                    }
                    g = g + 1;
                }
                let ghost routes0 = routes@;
                match found {
                    Some(fg) => {
                        let mut entry = routes.remove(fg);
                        entry.1.push(host);
                        routes.insert(fg, entry);
                        proof {
                            assert forall|a: int|
                                0 <= a < routes@.len() && a != fg implies routes@[a]
                                == routes0[a] by {}
                            assert(routes@[fg as int].1@[routes@[fg as int].1@.len() - 1]
                                == host);
                            assert forall|g2: int, e: int|
                                0 <= g2 < routes@.len() && 0 <= e < routes@[g2].1@.len() implies
                                #[trigger] route_justified(routes@, members@, g2, e) by {
                                if g2 == fg && e == routes@[g2].1@.len() - 1 {
                                    assert(routable(members@[i as int]) == Some(
                                        (routes@[g2].0, routes@[g2].1@[e]),
                                    ));
                                } else {
                                    assert(routes@[g2].1@[e] == routes0[g2].1@[e]);
                                    assert(routes@[g2].0 == routes0[g2].0);
                                    assert(route_justified(routes0, members@, g2, e));
                                    let m0 = choose|m: int|
                                        0 <= m < members@.len() && #[trigger] routable(
                                            members@[m],
                                        ) == Some((routes0[g2].0, routes0[g2].1@[e]));
                                    assert(routable(members@[m0]) == Some(
                                        (routes@[g2].0, routes@[g2].1@[e]),
                                    ));
                                }
                            }
                            assert forall|m: int|
                                0 <= m < i + 1 implies match routable(#[trigger] members@[m]) {
                                Some(sh) => route_present(routes@, sh.0, sh.1),
                                None => true,
                            } by {
                                if m < i {
                                    match routable(members@[m]) {
                                        Some(sh) => {
                                            assert(route_present(routes0, sh.0, sh.1));
                                            let (gg, e): (int, int) = choose|gg: int, e: int|
                                                0 <= gg < routes0.len() && 0 <= e < routes0[
                                                    gg
                                                ].1@.len() && routes0[gg].0 == sh.0
                                                    && #[trigger] routes0[gg].1@[e] == sh.1;
                                            assert(routes@[gg].1@[e] == sh.1);
                                            assert(routes@[gg].0 == sh.0);
                                        },
                                        None => {},
                                    }
                                } else {
                                    assert(routes@[fg as int].1@[routes@[fg as int].1@.len() - 1]
                                        == host);
                                }
                            }
                        }
                    },
                    None => {
                        let mut hosts: Vec<u64> = Vec::new();
                        hosts.push(host);
                        routes.push((shard, hosts));
                        proof {
                            assert(routes@.drop_last() =~= routes0);
                            assert forall|g2: int, e: int|
                                0 <= g2 < routes@.len() && 0 <= e < routes@[g2].1@.len() implies
                                #[trigger] route_justified(routes@, members@, g2, e) by {
                                if g2 == routes@.len() - 1 {
                                    assert(routes@[g2].1@[0] == host);
                                    assert(routable(members@[i as int]) == Some(
                                        (routes@[g2].0, routes@[g2].1@[e]),
                                    ));
                                } else {
                                    assert(routes@[g2].1@[e] == routes0[g2].1@[e]);
                                    assert(routes@[g2].0 == routes0[g2].0);
                                    assert(route_justified(routes0, members@, g2, e));
                                    let m0 = choose|m: int|
                                        0 <= m < members@.len() && #[trigger] routable(
                                            members@[m],
                                        ) == Some((routes0[g2].0, routes0[g2].1@[e]));
                                    assert(routable(members@[m0]) == Some(
                                        (routes@[g2].0, routes@[g2].1@[e]),
                                    ));
                                }
                            }
                            assert forall|m: int|
                                0 <= m < i + 1 implies match routable(#[trigger] members@[m]) {
                                Some(sh) => route_present(routes@, sh.0, sh.1),
                                None => true,
                            } by {
                                if m < i {
                                    match routable(members@[m]) {
                                        Some(sh) => {
                                            assert(route_present(routes0, sh.0, sh.1));
                                            let (gg, e): (int, int) = choose|gg: int, e: int|
                                                0 <= gg < routes0.len() && 0 <= e < routes0[
                                                    gg
                                                ].1@.len() && routes0[gg].0 == sh.0
                                                    && #[trigger] routes0[gg].1@[e] == sh.1;
                                            assert(routes@[gg].1@[e] == sh.1);
                                        },
                                        None => {},
                                    }
                                } else {
                                    assert(routes@[routes@.len() - 1].1@[0] == host);
                                }
                            }
                        }
                    },
                }
            },
        }
        i = i + 1;
    }
    routes
}

/// Distributes per-shard batch replies into per-query buckets. A shard
/// answers a batch with one reply per request, in request order; the
/// coordinator turns that into one bucket per query, holding the shards'
/// replies to that query in shard order. Position `i` of each shard's
/// reply vector lands in bucket `i`.
pub fn bucket_shard_replies<R>(num_queries: usize, shard_replies: Vec<Vec<R>>) -> (buckets: Vec<
    Vec<R>,
>)
    requires
        forall|s: int| 0 <= s < shard_replies@.len() ==> (#[trigger] shard_replies@[s])@.len()
            == num_queries,
    ensures
        buckets@.len() == num_queries,
        forall|i: int| 0 <= i < num_queries ==> (#[trigger] buckets@[i])@.len()
            == shard_replies@.len(),
        forall|i: int, s: int|
            0 <= i < num_queries && 0 <= s < shard_replies@.len() ==> #[trigger] buckets@[i]@[s]
                == shard_replies@[s]@[i],
{
    let ghost orig = shard_replies@;
    let mut buckets: Vec<Vec<R>> = Vec::new();
    let mut i: usize = 0;
    while i < num_queries
        invariant
            0 <= i <= num_queries,
            buckets@.len() == i,
            forall|k: int| 0 <= k < i ==> (#[trigger] buckets@[k])@.len() == 0,
        decreases num_queries - i,
    {
        buckets.push(Vec::new());
        i = i + 1;
    }
    let mut rest = shard_replies;
    let ghost s: int = 0;
    while rest.len() > 0
        invariant
            0 <= s <= orig.len(),
            rest@ == orig.skip(s),
            forall|k: int| 0 <= k < orig.len() ==> (#[trigger] orig[k])@.len() == num_queries,
            buckets@.len() == num_queries,
            forall|k: int| 0 <= k < num_queries ==> (#[trigger] buckets@[k])@.len() == s,
            forall|k: int, t: int|
                0 <= k < num_queries && 0 <= t < s ==> #[trigger] buckets@[k]@[t] == orig[t]@[k],
        decreases rest@.len(),
    {
        let mut reply = rest.remove(0);
        proof {
            assert(reply@ == orig[s]@);
            assert(rest@ =~= orig.skip(s + 1));
        }
        let ghost reply0 = reply@;
        let ghost j: int = 0;
        while reply.len() > 0
            invariant
                0 <= j <= num_queries,
                reply0.len() == num_queries,
                reply@ == reply0.skip(j),
                buckets@.len() == num_queries,
                forall|k: int| 0 <= k < j ==> (#[trigger] buckets@[k])@.len() == s + 1,
                forall|k: int| j <= k < num_queries ==> (#[trigger] buckets@[k])@.len() == s,
                forall|k: int, t: int|
                    0 <= k < num_queries && 0 <= t < s ==> #[trigger] buckets@[k]@[t]
                        == orig[t]@[k],
                forall|k: int| 0 <= k < j ==> #[trigger] buckets@[k]@[s] == reply0[k],
            decreases reply@.len(),
        {
            let r = reply.remove(0);
            proof {
                assert(r == reply0[j]);
                assert(reply@ =~= reply0.skip(j + 1));
            }
            let ghost buckets0 = buckets@;
            let at = buckets.len() - reply.len() - 1;
            proof {
                assert(at as int == j);
            }
            let mut bucket = buckets.remove(at);
            bucket.push(r);
            buckets.insert(at, bucket);
            proof {
                assert forall|k: int|
                    0 <= k < num_queries && k != j implies #[trigger] buckets@[k]
                    == buckets0[k] by {}
                assert(buckets@[j]@ == buckets0[j]@.push(reply0[j]));
                j = j + 1;
            }
        }
        proof {
            s = s + 1;
        }
    }
    proof {
        assert forall|i2: int, s2: int|
            0 <= i2 < num_queries && 0 <= s2 < orig.len() implies #[trigger] buckets@[i2]@[s2]
            == orig[s2]@[i2] by {}
    }
    buckets
}

/// Pairs a shard's replies back with the positions their pointers held in
/// the caller's list: a shard answers in the order it was asked, so reply
/// `k` belongs to the position that pointer `k` was tagged with.
pub fn pair_replies<P>(batch: &Vec<(usize, WebpagePointer)>, pages: Vec<P>) -> (r: Vec<
    (usize, P),
>)
    requires
        batch@.len() == pages@.len(),
    ensures
        r@.len() == batch@.len(),
        forall|k: int| 0 <= k < r@.len() ==> (#[trigger] r@[k]).0 == batch@[k].0 && r@[k].1
            == pages@[k],
{
    let ghost pages0 = pages@;
    let mut pages = pages;
    let mut r: Vec<(usize, P)> = Vec::new();
    let ghost k: int = 0;
    while pages.len() > 0
        invariant
            0 <= k <= pages0.len(),
            batch@.len() == pages0.len(),
            pages@ == pages0.skip(k),
            r@.len() == k,
            forall|t: int| 0 <= t < k ==> (#[trigger] r@[t]).0 == batch@[t].0 && r@[t].1
                == pages0[t],
        decreases pages@.len(),
    {
        let page = pages.remove(0);
        proof {
            assert(page == pages0[k]);
            assert(pages@ =~= pages0.skip(k + 1));
        }
        let idx = batch[r.len()].0;
        r.push((idx, page));
        proof {
            k = k + 1;
        }
    }
    r
}

/// Gathers the initial phase's answers: each shard that answered
/// contributes its local result tagged with its shard; a missing shard is
/// dropped silently, never an error, so partial results flow.
pub fn collect_initial_results(replies: Vec<(ShardId, Option<InitialWebsiteResult>)>) -> (r: Vec<
    InitialSearchResultShard,
>)
    ensures
        r@.len() <= replies@.len(),
        forall|k: int|
            0 <= k < r@.len() ==> exists|j: int|
                0 <= j < replies@.len() && (#[trigger] replies@[j]).0 == (#[trigger] r@[k]).shard
                    && (replies@[j].1 matches Some(w) && w == r@[k].local_result),
        forall|j: int|
            0 <= j < replies@.len() && (#[trigger] replies@[j]).1 is Some ==> exists|k: int|
                0 <= k < r@.len() && (#[trigger] r@[k]).shard == replies@[j].0,
{
    let ghost orig = replies@;
    let mut replies = replies;
    let mut r: Vec<InitialSearchResultShard> = Vec::new();
    let ghost j: int = 0;
    proof {
        assert(replies@ =~= orig.skip(0));
    }
    while replies.len() > 0
        invariant
            0 <= j <= orig.len(),
            replies@ == orig.skip(j),
            r@.len() <= j,
            forall|k: int|
                0 <= k < r@.len() ==> exists|j2: int|
                    0 <= j2 < orig.len() && (#[trigger] orig[j2]).0 == (#[trigger] r@[k]).shard
                        && (orig[j2].1 matches Some(w) && w == r@[k].local_result),
            forall|j2: int|
                0 <= j2 < j && (#[trigger] orig[j2]).1 is Some ==> exists|k: int|
                    0 <= k < r@.len() && (#[trigger] r@[k]).shard == orig[j2].0,
        decreases replies@.len(),
    {
        let ghost rest0 = replies@;
        let (shard, reply) = replies.remove(0);
        proof {
            assert((shard, reply) == orig[j]);
            assert(replies@ =~= orig.skip(j + 1));
        }
        match reply {
            Some(local_result) => {
                let ghost r0 = r@;
                r.push(InitialSearchResultShard { local_result, shard });
                proof {
                    assert(r@.last().shard == orig[j].0);
                    assert(orig[j].1 matches Some(w) && w == r@.last().local_result);
                    assert forall|j2: int|
                        0 <= j2 < j + 1 && (#[trigger] orig[j2]).1 is Some implies exists|k: int|
                        0 <= k < r@.len() && (#[trigger] r@[k]).shard == orig[j2].0 by {
                        if j2 < j {
                            let k0 = choose|k: int|
                                0 <= k < r0.len() && (#[trigger] r0[k]).shard == orig[j2].0;
                            assert(r@[k0].shard == orig[j2].0);
                        } else {
                            assert(r@[r@.len() - 1].shard == orig[j2].0);
                        }
                    }
                }
            },
            None => {},
        }
        proof {
            j = j + 1;
        }
    }
    r
}

} // verus!
