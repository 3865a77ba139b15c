use vstd::prelude::*;
use vstd::seq_lib::*;
use crate::collector::Collector;
use crate::types::{DocAddress, ShardId};

verus! {

/// Extra candidates each shard-local top list carries so that, after hosts
/// collapse globally, at least `limit` distinct hosts remain with
/// overwhelming probability.
pub const DEDUPLICATION_BUFFER: usize = 128;

/// Candidates ordered by non-decreasing rank (lower rank is better).
pub open spec fn sorted_by_rank<T>(s: Seq<(u64, T)>) -> bool {
    forall|i: int, j: int| 0 <= i < j < s.len() ==> s[i].0 <= s[j].0
}

/// Insert `x` into `s` before the first element of strictly larger rank.
/// Inserting after equal ranks keeps the sort stable.
pub open spec fn insert_by_rank<T>(x: (u64, T), s: Seq<(u64, T)>) -> Seq<(u64, T)>
    decreases s.len(),
{
    if s.len() == 0 {
        seq![x]
    } else if x.0 < s[0].0 {
        seq![x] + s
    } else {
        seq![s[0]] + insert_by_rank(x, s.drop_first())
    }
}

/// Stable sort by rank: insert the elements one after the other, later
/// elements after earlier elements of equal rank.
pub open spec fn sort_by_rank<T>(s: Seq<(u64, T)>) -> Seq<(u64, T)>
    decreases s.len(),
{
    if s.len() == 0 {
        Seq::empty()
    } else {
        insert_by_rank(s.last(), sort_by_rank(s.drop_last()))
    }
}

proof fn lemma_insert_at<T>(x: (u64, T), s: Seq<(u64, T)>, p: int)
    requires
        sorted_by_rank(s),
        0 <= p <= s.len(),
        forall|k: int| 0 <= k < p ==> s[k].0 <= x.0,
        p < s.len() ==> x.0 < s[p].0,
    ensures
        insert_by_rank(x, s) == s.insert(p, x),
    decreases s.len(),
{
    if s.len() == 0 {
        assert(insert_by_rank(x, s) =~= s.insert(p, x));
    } else if p == 0 {
        assert(insert_by_rank(x, s) =~= s.insert(0, x));
    } else {
        lemma_insert_at(x, s.drop_first(), p - 1);
        assert(insert_by_rank(x, s) =~= s.insert(p, x));
    }
}

proof fn lemma_insert_by_rank_sorted<T>(x: (u64, T), s: Seq<(u64, T)>)
    requires
        sorted_by_rank(s),
    ensures
        sorted_by_rank(insert_by_rank(x, s)),
        insert_by_rank(x, s).len() == s.len() + 1,
        s.len() == 0 ==> insert_by_rank(x, s)[0] == x,
        s.len() > 0 ==> insert_by_rank(x, s)[0] == x || insert_by_rank(x, s)[0] == s[0],
    decreases s.len(),
{
    if s.len() == 0 {
    } else if x.0 < s[0].0 {
    } else {
        lemma_insert_by_rank_sorted(x, s.drop_first());
        let t = insert_by_rank(x, s.drop_first());
        let r = seq![s[0]] + t;
        assert forall|i: int, j: int| 0 <= i < j < r.len() implies r[i].0 <= r[j].0 by {
            if i == 0 {
                assert(r[j] == t[j - 1]);
                assert(t.len() > 0);
                assert(t[0].0 <= t[j - 1].0);
                assert(t[0] == x || (s.drop_first().len() > 0 && t[0] == s.drop_first()[0]));
            }
        }
    }
}

proof fn lemma_sort_by_rank_sorted<T>(s: Seq<(u64, T)>)
    ensures
        sorted_by_rank(sort_by_rank(s)),
        sort_by_rank(s).len() == s.len(),
    decreases s.len(),
{
    if s.len() > 0 {
        lemma_sort_by_rank_sorted(s.drop_last());
        lemma_insert_by_rank_sorted(s.last(), sort_by_rank(s.drop_last()));
    }
}

/// Sorting an already rank-sorted sequence leaves it unchanged; this is what
/// makes the harvest of a computer idempotent on sorted input.
proof fn lemma_sort_of_sorted<T>(s: Seq<(u64, T)>)
    requires
        sorted_by_rank(s),
    ensures
        sort_by_rank(s) == s,
    decreases s.len(),
{
    if s.len() > 0 {
        lemma_sort_of_sorted(s.drop_last());
        lemma_sort_by_rank_sorted(s.drop_last());
        lemma_insert_at(s.last(), s.drop_last(), s.len() - 1);
        assert(sort_by_rank(s) =~= s);
    }
}

/// Stable sort of a vector of rank/doc pairs; the executable counterpart of
/// `sort_by_rank`.
fn sort_docs<T: Copy>(v: &Vec<(u64, T)>) -> (r: Vec<(u64, T)>)
    ensures
        r@ == sort_by_rank(v@),
        sorted_by_rank(r@),
{
    let mut r: Vec<(u64, T)> = Vec::new();
    let mut i: usize = 0;
    proof {
        lemma_sort_by_rank_sorted(v@.take(0));
    }
    while i < v.len()
        invariant
            0 <= i <= v@.len(),
            r@ == sort_by_rank(v@.take(i as int)),
            sorted_by_rank(r@),
        decreases v@.len() - i,
    {
        let x = v[i];
        let mut p: usize = 0;
        while p < r.len() && r[p].0 <= x.0
            invariant
                0 <= p <= r@.len(),
                forall|k: int| 0 <= k < p ==> r@[k].0 <= x.0,
            decreases r@.len() - p,
        {
            p = p + 1;
        }
        proof {
            lemma_insert_at(x, r@, p as int);
            lemma_insert_by_rank_sorted(x, r@);
            assert(v@.take(i + 1).drop_last() =~= v@.take(i as int));
            assert(v@.take(i + 1).last() == x);
        }
        r.insert(p, x);
        i = i + 1;
    }
    proof {
        assert(v@.take(v@.len() as int) =~= v@);
    }
    r
}

/// A document as the deduplicators see it: it always carries its address,
/// and in host-deduplication mode also the 128-bit host identifier.
pub trait DeduplicatorDoc: Sized {
    /// Whether building this document needs the host column.
    spec fn wants_host() -> bool;

    spec fn address_of(self) -> DocAddress;

    spec fn host_of(self) -> Option<u128>;

    /// Build the document from the address and, if present, the host read
    /// from the warmed host column.
    fn new(address: DocAddress, host: Option<u128>) -> (r: Self)
        requires
            Self::wants_host() ==> host is Some,
        ensures
            r.address_of() == address,
            Self::wants_host() ==> r.host_of() == host,
    ;
}

impl DeduplicatorDoc for DocAddress {
    open spec fn wants_host() -> bool {
        false
    }

    open spec fn address_of(self) -> DocAddress {
        self
    }

    open spec fn host_of(self) -> Option<u128> {
        None
    }

    fn new(address: DocAddress, host: Option<u128>) -> (r: Self) {
        address
    }
}

/// A shard-local document address together with the host it belongs to, read
/// from the warmed host column.
#[derive(Clone, Copy, Debug, PartialEq, Eq, Structural)]
pub struct DocAddressWithHost {
    pub address: DocAddress,
    pub host: u128,
}

impl DeduplicatorDoc for DocAddressWithHost {
    open spec fn wants_host() -> bool {
        true
    }

    open spec fn address_of(self) -> DocAddress {
        self.address
    }

    open spec fn host_of(self) -> Option<u128> {
        Some(self.host)
    }

    fn new(address: DocAddress, host: Option<u128>) -> (r: Self) {
        match host {
            Some(h) => DocAddressWithHost { address, host: h },
            None => DocAddressWithHost { address, host: 0 },  // unreachable by the precondition
        }
    }
}

/// A deduplication policy: given candidates in order, keep one representative
/// per equivalence class (the first one seen).
pub trait Deduplicator: Sized {
    type Doc: DeduplicatorDoc + Copy;

    /// What `deduplicate` returns on a given candidate list.
    spec fn dedup_spec(s: Seq<(u64, Self::Doc)>) -> Seq<(u64, Self::Doc)>;

    /// Deduplication keeps candidates in order (so it preserves rank order)
    /// and never invents candidates.
    proof fn lemma_dedup_spec(s: Seq<(u64, Self::Doc)>)
        ensures
            sorted_by_rank(s) ==> sorted_by_rank(Self::dedup_spec(s)),
            Self::dedup_spec(s).len() <= s.len(),
            forall|i: int| 0 <= i < Self::dedup_spec(s).len() ==> s.contains(
                #[trigger] Self::dedup_spec(s)[i],
            ),
    ;

    fn deduplicate(&self, docs: Vec<(u64, Self::Doc)>) -> (r: Vec<(u64, Self::Doc)>)
        ensures
            r@ == Self::dedup_spec(docs@),
    ;
}

/// Keeps every candidate.
#[derive(Clone, Copy, Debug)]
pub struct NoDeduplicator;

impl Deduplicator for NoDeduplicator {
    type Doc = DocAddress;

    open spec fn dedup_spec(s: Seq<(u64, DocAddress)>) -> Seq<(u64, DocAddress)> {
        s
    }

    proof fn lemma_dedup_spec(s: Seq<(u64, DocAddress)>) {
    }

    fn deduplicate(&self, docs: Vec<(u64, DocAddress)>) -> (r: Vec<(u64, DocAddress)>) {
        docs
    }
}

/// The hosts that occur in a candidate list.
pub open spec fn hosts_of(s: Seq<(u64, DocAddressWithHost)>) -> Set<u128> {
    Set::new(|h: u128| exists|i: int| 0 <= i < s.len() && s[i].1.host == h)
}

/// Keep the first candidate of each host, walking the list left to right;
/// hosts already in `seen` are dropped altogether.
pub open spec fn dedup_hosts_from(
    s: Seq<(u64, DocAddressWithHost)>,
    seen: Set<u128>,
) -> Seq<(u64, DocAddressWithHost)>
    decreases s.len(),
{
    if s.len() == 0 {
        Seq::empty()
    } else if seen.contains(s[0].1.host) {
        dedup_hosts_from(s.drop_first(), seen)
    } else {
        seq![s[0]] + dedup_hosts_from(s.drop_first(), seen.insert(s[0].1.host))
    }
}

/// Keep the first candidate of each host.
pub open spec fn dedup_hosts(s: Seq<(u64, DocAddressWithHost)>) -> Seq<
    (u64, DocAddressWithHost),
> {
    dedup_hosts_from(s, Set::empty())
}

proof fn lemma_dedup_hosts_from(s: Seq<(u64, DocAddressWithHost)>, seen: Set<u128>)
    ensures
        dedup_hosts_from(s, seen).len() <= s.len(),
        forall|i: int| 0 <= i < dedup_hosts_from(s, seen).len() ==> s.contains(
            #[trigger] dedup_hosts_from(s, seen)[i],
        ),
        forall|i: int| 0 <= i < dedup_hosts_from(s, seen).len() ==> !seen.contains(
            (#[trigger] dedup_hosts_from(s, seen)[i]).1.host,
        ),
        forall|i: int, j: int|
            0 <= i < j < dedup_hosts_from(s, seen).len() ==> dedup_hosts_from(s, seen)[i].1.host
                != dedup_hosts_from(s, seen)[j].1.host,
    decreases s.len(),
{
    if s.len() > 0 {
        let d = dedup_hosts_from(s, seen);
        if seen.contains(s[0].1.host) {
            lemma_dedup_hosts_from(s.drop_first(), seen);
            assert forall|i: int| 0 <= i < d.len() implies s.contains(#[trigger] d[i]) by {
                assert(s.drop_first().contains(d[i]));
                let k = choose|k: int| 0 <= k < s.drop_first().len() && s.drop_first()[k] == d[i];
                assert(s[k + 1] == d[i]);
            }
        } else {
            lemma_dedup_hosts_from(s.drop_first(), seen.insert(s[0].1.host));
            let t = dedup_hosts_from(s.drop_first(), seen.insert(s[0].1.host));
            assert forall|i: int| 0 <= i < d.len() implies s.contains(#[trigger] d[i]) by {
                if i == 0 {
                    assert(s[0] == d[0]);
                } else {
                    assert(s.drop_first().contains(t[i - 1]));
                    let k = choose|k: int|
                        0 <= k < s.drop_first().len() && s.drop_first()[k] == t[i - 1];
                    assert(s[k + 1] == d[i]);
                }
            }
        }
    }
}

proof fn lemma_dedup_hosts_sorted(s: Seq<(u64, DocAddressWithHost)>, seen: Set<u128>)
    requires
        sorted_by_rank(s),
    ensures
        sorted_by_rank(dedup_hosts_from(s, seen)),
    decreases s.len(),
{
    if s.len() > 0 {
        let d = dedup_hosts_from(s, seen);
        if seen.contains(s[0].1.host) {
            lemma_dedup_hosts_sorted(s.drop_first(), seen);
        } else {
            let seen2 = seen.insert(s[0].1.host);
            lemma_dedup_hosts_sorted(s.drop_first(), seen2);
            lemma_dedup_hosts_from(s.drop_first(), seen2);
            let t = dedup_hosts_from(s.drop_first(), seen2);
            assert forall|i: int, j: int| 0 <= i < j < d.len() implies d[i].0 <= d[j].0 by {
                if i == 0 {
                    assert(d[j] == t[j - 1]);
                    assert(s.drop_first().contains(t[j - 1]));
                    let k = choose|k: int|
                        0 <= k < s.drop_first().len() && s.drop_first()[k] == t[j - 1];
                    assert(s[k + 1] == t[j - 1]);
                    assert(s[0].0 <= s[k + 1].0);
                }
            }
        }
    }
}

/// Unfolding `dedup_hosts_from` one step from the left, phrased for a loop
/// that walks the input and keeps hosts it has not seen.
proof fn lemma_dedup_step(
    s: Seq<(u64, DocAddressWithHost)>,
    kept: Seq<(u64, DocAddressWithHost)>,
    i: int,
)
    requires
        0 <= i < s.len(),
        dedup_hosts(s) == kept + dedup_hosts_from(s.skip(i), hosts_of(kept)),
    ensures
        hosts_of(kept).contains(s[i].1.host) ==> dedup_hosts(s) == kept + dedup_hosts_from(
            s.skip(i + 1),
            hosts_of(kept),
        ),
        !hosts_of(kept).contains(s[i].1.host) ==> dedup_hosts(s) == (kept + seq![s[i]])
            + dedup_hosts_from(s.skip(i + 1), hosts_of(kept + seq![s[i]])),
{
    assert(s.skip(i)[0] == s[i]);
    assert(s.skip(i).drop_first() =~= s.skip(i + 1));
    if hosts_of(kept).contains(s[i].1.host) {
    } else {
        let ext = kept + seq![s[i]];
        assert forall|h: u128| hosts_of(kept).insert(s[i].1.host).contains(h) implies hosts_of(
            ext,
        ).contains(h) by {
            if h == s[i].1.host {
                assert(ext[kept.len() as int].1.host == h);
            } else {
                let k = choose|k: int| 0 <= k < kept.len() && kept[k].1.host == h;
                assert(ext[k].1.host == h);
            }
        }
        assert forall|h: u128| hosts_of(ext).contains(h) implies hosts_of(kept).insert(
            s[i].1.host,
        ).contains(h) by {
            let k = choose|k: int| 0 <= k < ext.len() && ext[k].1.host == h;
            if k < kept.len() {
                assert(kept[k].1.host == h);
            }
        }
        assert(hosts_of(kept + seq![s[i]]) =~= hosts_of(kept).insert(s[i].1.host));
        assert(kept + (seq![s[i]] + dedup_hosts_from(s.skip(i + 1), hosts_of(kept + seq![s[i]])))
            =~= (kept + seq![s[i]]) + dedup_hosts_from(s.skip(i + 1), hosts_of(kept + seq![s[i]])));
    }
}

/// Whether one of the kept candidates already has this host.
fn contains_host(kept: &Vec<(u64, DocAddressWithHost)>, h: u128) -> (r: bool)
    ensures
        r == hosts_of(kept@).contains(h),
{
    let mut i: usize = 0;
    while i < kept.len()
        invariant
            0 <= i <= kept@.len(),
            forall|k: int| 0 <= k < i ==> kept@[k].1.host != h,
        decreases kept@.len() - i,
    {
        if kept[i].1.host == h {
            return true;
        }
        i = i + 1;
    }
    false
}

/// Deduplicates candidates by host, keeping the first occurrence of each
/// host in the order given.
#[derive(Clone, Copy, Debug)]
pub struct HostDeduplicator;

impl Deduplicator for HostDeduplicator {
    type Doc = DocAddressWithHost;

    open spec fn dedup_spec(s: Seq<(u64, DocAddressWithHost)>) -> Seq<(u64, DocAddressWithHost)> {
        dedup_hosts(s)
    }

    proof fn lemma_dedup_spec(s: Seq<(u64, DocAddressWithHost)>) {
        lemma_dedup_hosts_from(s, Set::empty());
        if sorted_by_rank(s) {
            lemma_dedup_hosts_sorted(s, Set::empty());
        }
    }

    fn deduplicate(&self, docs: Vec<(u64, DocAddressWithHost)>) -> (r: Vec<
        (u64, DocAddressWithHost),
    >) {
        let mut kept: Vec<(u64, DocAddressWithHost)> = Vec::new();
        let mut i: usize = 0;
        proof {
            assert(docs@.skip(0) =~= docs@);
            assert(hosts_of(kept@) =~= Set::<u128>::empty());
            assert(kept@ + dedup_hosts_from(docs@, Set::empty()) =~= dedup_hosts(docs@));
        }
        while i < docs.len()
            invariant
                0 <= i <= docs@.len(),
                dedup_hosts(docs@) == kept@ + dedup_hosts_from(
                    docs@.skip(i as int),
                    hosts_of(kept@),
                ),
            decreases docs@.len() - i,
        {
            let x = docs[i];
            proof {
                lemma_dedup_step(docs@, kept@, i as int);
            }
            if !contains_host(&kept, x.1.host) {
                let ghost kept0 = kept@;
                kept.push(x);
                proof {
                    assert(kept@ =~= kept0 + seq![x]);
                }
            }
            i = i + 1;
        }
        proof {
            assert(docs@.skip(docs@.len() as int) =~= Seq::<(u64, DocAddressWithHost)>::empty());
            assert(dedup_hosts(docs@) =~= kept@);
        }
        kept
    }
}

/// The smaller of two mathematical integers.
pub open spec fn min_int(a: int, b: int) -> int {
    if a < b {
        a
    } else {
        b
    }
}

/// Keeps all candidates pushed into it and sorts at harvest, retaining only
/// the `limit` best (lowest) ranks.
pub struct TopNComputer<T> {
    pub buffer: Vec<(u64, T)>,
    pub limit: usize,
}

impl<T: Copy> TopNComputer<T> {
    pub fn new(limit: usize) -> (r: Self)
        ensures
            r.buffer@ == Seq::<(u64, T)>::empty(),
            r.limit == limit,
    {
        TopNComputer { buffer: Vec::new(), limit }
    }

    pub fn push(&mut self, rank: u64, doc: T)
        ensures
            final(self).buffer@ == old(self).buffer@.push((rank, doc)),
            final(self).limit == old(self).limit,
    {
        self.buffer.push((rank, doc));
    }

    pub fn into_sorted_vec(self) -> (r: Vec<(u64, T)>)
        ensures
            r@ == sort_by_rank(self.buffer@).take(
                min_int(self.limit as int, self.buffer@.len() as int),
            ),
    {
        let mut r = sort_docs(&self.buffer);
        proof {
            lemma_sort_by_rank_sorted(self.buffer@);
        }
        r.truncate(self.limit);
        r
    }
}

/// Keeps every candidate and sorts at harvest; used when no limit bounds the
/// result.
pub struct AllComputer<T> {
    pub docs: Vec<(u64, T)>,
}

impl<T: Copy> AllComputer<T> {
    pub fn new() -> (r: Self)
        ensures
            r.docs@ == Seq::<(u64, T)>::empty(),
    {
        AllComputer { docs: Vec::new() }
    }

    pub fn push(&mut self, rank: u64, doc: T)
        ensures
            final(self).docs@ == old(self).docs@.push((rank, doc)),
    {
        self.docs.push((rank, doc));
    }

    pub fn harvest(self) -> (r: Vec<(u64, T)>)
        ensures
            r@ == sort_by_rank(self.docs@),
    {
        sort_docs(&self.docs)
    }
}

/// The segment-local accumulator: a bounded top-N computer where a limit is
/// known, else one that retains everything.
pub enum Computer<T> {
    TopN(TopNComputer<T>),
    All(AllComputer<T>),
}

impl<T: Copy> Computer<T> {
    /// The candidates pushed so far, in push order.
    pub open spec fn contents(self) -> Seq<(u64, T)> {
        match self {
            Computer::TopN(c) => c.buffer@,
            Computer::All(c) => c.docs@,
        }
    }

    /// The capacity this computer truncates to at harvest, if bounded.
    pub open spec fn cap_of(self) -> Option<usize> {
        match self {
            Computer::TopN(c) => Some(c.limit),
            Computer::All(c) => None,
        }
    }

    /// What harvest returns: the contents sorted by rank, truncated to the
    /// capacity when one is set.
    pub open spec fn harvest_spec(self) -> Seq<(u64, T)> {
        match self {
            Computer::TopN(c) => sort_by_rank(c.buffer@).take(
                min_int(c.limit as int, c.buffer@.len() as int),
            ),
            Computer::All(c) => sort_by_rank(c.docs@),
        }
    }

    pub fn push(&mut self, rank: u64, doc: T)
        ensures
            final(self).contents() == old(self).contents().push((rank, doc)),
            final(self).cap_of() == old(self).cap_of(),
    {
        match self {
            Computer::TopN(c) => c.push(rank, doc),
            Computer::All(c) => c.push(rank, doc),
        }
    }

    pub fn harvest(self) -> (r: Vec<(u64, T)>)
        ensures
            r@ == self.harvest_spec(),
    {
        match self {
            Computer::TopN(c) => c.into_sorted_vec(),
            Computer::All(c) => c.harvest(),
        }
    }
}

/// Per-segment warmed columnar readers: the rank column that scores a
/// document, the optional host column and the optional skip column a filter
/// reads.
pub struct SegmentColumnFields {
    pub ranks: Vec<u64>,
    pub hosts: Option<Vec<u128>>,
    pub skip: Option<Vec<bool>>,
}

impl SegmentColumnFields {
    /// All columns cover the same documents.
    pub open spec fn wf(self) -> bool {
        &&& (self.hosts matches Some(h) ==> h@.len() == self.ranks@.len())
        &&& (self.skip matches Some(f) ==> f@.len() == self.ranks@.len())
    }
}

/// Handle to the per-segment columnar readers of a shard, opened once and
/// handed to the collectors.
pub struct WarmedColumnFields {
    pub segments: Vec<SegmentColumnFields>,
}

/// The warmed columns plus the field that holds the host identifier, when
/// host deduplication is wanted.
pub struct ColumnFields {
    pub warmed_column_fields: WarmedColumnFields,
    pub host_field: Option<u32>,
}

impl ColumnFields {
    pub fn new(warmed_column_fields: WarmedColumnFields) -> (r: Self)
        ensures
            r.warmed_column_fields == warmed_column_fields,
            r.host_field is None,
    {
        ColumnFields { warmed_column_fields, host_field: None }
    }

    pub fn with_host_field(self, host_field: u32) -> (r: Self)
        ensures
            r.warmed_column_fields == self.warmed_column_fields,
            r.host_field == Some(host_field),
    {
        ColumnFields { warmed_column_fields: self.warmed_column_fields, host_field: Some(host_field) }
    }
}

/// Marks that the collector should honour the per-segment skip column.
#[derive(Clone, Copy, Debug)]
pub struct ColumnFieldFilter;

/// The window the coordinator applies to the deduplicated, rank-sorted
/// candidates: skip `offset` and keep `limit` when offsetting is performed
/// here, else keep `limit` plus the deduplication buffer so that the
/// coordinator still has enough candidates after hosts collapse.
pub open spec fn apply_window<T>(
    s: Seq<T>,
    limit: Option<usize>,
    offset: Option<usize>,
    perform_offset: bool,
) -> Seq<T> {
    if perform_offset {
        let o = match offset {
            Some(o) => o as int,
            None => 0,
        };
        let l = match limit {
            Some(l) => l as int,
            None => s.len() as int,
        };
        if o >= s.len() {
            Seq::empty()
        } else {
            s.subrange(o, min_int(o + l, s.len() as int))
        }
    } else {
        let cap = match limit {
            Some(l) => min_int(l as int + DEDUPLICATION_BUFFER as int, usize::MAX as int),
            None => usize::MAX as int,
        };
        s.take(min_int(cap, s.len() as int))
    }
}

/// Returns the lowest-rank `limit` documents, optionally deduplicated by
/// host and offset, merging segment-local top lists into one list.
pub struct TopDocsCollector<D: Deduplicator> {
    pub shard_id: Option<ShardId>,
    pub limit: Option<usize>,
    pub offset: Option<usize>,
    pub perform_offset: bool,
    pub deduplicator: D,
    pub column_fields: Option<ColumnFields>,
    pub filter: Option<ColumnFieldFilter>,
}

impl TopDocsCollector<NoDeduplicator> {
    pub fn new() -> (r: Self)
        ensures
            r.shard_id is None,
            r.limit is None,
            r.offset is None,
            r.perform_offset,
            r.column_fields is None,
            r.filter is None,
    {
        TopDocsCollector {
            shard_id: None,
            limit: None,
            offset: None,
            perform_offset: true,
            deduplicator: NoDeduplicator,
            column_fields: None,
            filter: None,
        }
    }
}

impl<D: Deduplicator> TopDocsCollector<D> {
    /// The computer capacities stay within `usize`.
    pub open spec fn wf(self) -> bool {
        match (self.limit, self.offset) {
            (Some(l), Some(o)) => l + o + DEDUPLICATION_BUFFER <= usize::MAX,
            (Some(l), None) => l + DEDUPLICATION_BUFFER <= usize::MAX,
            _ => true,
        }
    }

    pub fn with_shard_id(self, shard_id: ShardId) -> (r: Self)
        ensures
            r == (TopDocsCollector { shard_id: Some(shard_id), ..self }),
    {
        TopDocsCollector { shard_id: Some(shard_id), ..self }
    }

    pub fn with_offset(self, offset: usize) -> (r: Self)
        ensures
            r == (TopDocsCollector { offset: Some(offset), ..self }),
    {
        TopDocsCollector { offset: Some(offset), ..self }
    }

    pub fn with_limit(self, limit: usize) -> (r: Self)
        ensures
            r == (TopDocsCollector { limit: Some(limit), ..self }),
    {
        TopDocsCollector { limit: Some(limit), ..self }
    }

    pub fn enable_offset(self) -> (r: Self)
        ensures
            r == (TopDocsCollector { perform_offset: true, ..self }),
    {
        TopDocsCollector { perform_offset: true, ..self }
    }

    pub fn disable_offset(self) -> (r: Self)
        ensures
            r == (TopDocsCollector { perform_offset: false, ..self }),
    {
        TopDocsCollector { perform_offset: false, ..self }
    }

    pub fn with_deduplicator<D2: Deduplicator>(self, deduplicator: D2) -> (r: TopDocsCollector<
        D2,
    >)
        ensures
            r.deduplicator == deduplicator,
            r.shard_id == self.shard_id,
            r.limit == self.limit,
            r.offset == self.offset,
            r.perform_offset == self.perform_offset,
            r.column_fields == self.column_fields,
            r.filter == self.filter,
    {
        TopDocsCollector {
            deduplicator,
            shard_id: self.shard_id,
            limit: self.limit,
            offset: self.offset,
            perform_offset: self.perform_offset,
            column_fields: self.column_fields,
            filter: self.filter,
        }
    }

    pub fn with_column_fields(self, warmed_column_fields: WarmedColumnFields) -> (r: Self)
        ensures
            r.shard_id == self.shard_id,
            r.limit == self.limit,
            r.offset == self.offset,
            r.perform_offset == self.perform_offset,
            r.filter == self.filter,
            r.column_fields matches Some(c) && c.warmed_column_fields == warmed_column_fields
                && c.host_field is None,
    {
        TopDocsCollector { column_fields: Some(ColumnFields::new(warmed_column_fields)), ..self }
    }

    pub fn with_host_field(self, host_field: u32) -> (r: Self)
        requires
            self.column_fields is Some,
        ensures
            r.shard_id == self.shard_id,
            r.limit == self.limit,
            r.offset == self.offset,
            r.perform_offset == self.perform_offset,
            r.filter == self.filter,
            r.column_fields matches Some(c) && c.warmed_column_fields
                == self.column_fields.unwrap().warmed_column_fields && c.host_field == Some(
                host_field,
            ),
    {
        let cf = match self.column_fields {
            Some(cf) => cf,
            None => ColumnFields { warmed_column_fields: WarmedColumnFields { segments: Vec::new() }, host_field: None },  // unreachable by the precondition
        };
        TopDocsCollector { column_fields: Some(cf.with_host_field(host_field)), shard_id: self.shard_id, limit: self.limit, offset: self.offset, perform_offset: self.perform_offset, deduplicator: self.deduplicator, filter: self.filter }
    }

    pub fn with_filter(self, filter: ColumnFieldFilter) -> (r: Self)
        ensures
            r == (TopDocsCollector { filter: Some(filter), ..self }),
    {
        TopDocsCollector { filter: Some(filter), ..self }
    }

    /// The accumulator this collector uses: bounded by
    /// `limit + offset + DEDUPLICATION_BUFFER` when a limit is set, else
    /// unbounded.
    pub fn computer(&self) -> (r: Computer<D::Doc>)
        requires
            self.wf(),
        ensures
            r.contents() == Seq::<(u64, D::Doc)>::empty(),
            r.cap_of() == match (self.offset, self.limit) {
                (Some(o), Some(l)) => Some((l + o + DEDUPLICATION_BUFFER) as usize),
                (Some(o), None) => None::<usize>,
                (None, Some(l)) => Some((l + DEDUPLICATION_BUFFER) as usize),
                (None, None) => None::<usize>,
            },
    {
        match (self.offset, self.limit) {
            (Some(offset), Some(limit)) => Computer::TopN(
                TopNComputer::new(limit + offset + DEDUPLICATION_BUFFER),
            ),
            (Some(_), None) => Computer::All(AllComputer::new()),
            (None, Some(limit)) => Computer::TopN(TopNComputer::new(limit + DEDUPLICATION_BUFFER)),
            (None, None) => Computer::All(AllComputer::new()),
        }
    }
}

/// Copies `v[start..end]` into a fresh vector.
fn subrange_vec<T: Copy>(v: &Vec<(u64, T)>, start: usize, end: usize) -> (r: Vec<(u64, T)>)
    requires
        start <= end <= v@.len(),
    ensures
        r@ == v@.subrange(start as int, end as int),
{
    let mut r: Vec<(u64, T)> = Vec::new();
    let mut i: usize = start;
    while i < end
        invariant
            start <= i <= end <= v@.len(),
            r@ == v@.subrange(start as int, i as int),
        decreases end - i,
    {
        r.push(v[i]);
        proof {
            assert(v@.subrange(start as int, i + 1) =~= v@.subrange(start as int, i as int).push(
                v@[i as int],
            ));
        }
        i = i + 1;
    }
    r
}

/// Collects one segment's hits: scores each document by the rank column and
/// feeds it, tagged with its address (and host, in host-deduplication mode),
/// into the computer.
pub struct TopDocsSegmentCollector<D: Deduplicator> {
    pub shard_id: ShardId,
    pub segment_ord: u32,
    pub computer: Computer<D::Doc>,
    pub columns: SegmentColumnFields,
    pub filter_enabled: bool,
}

impl<D: Deduplicator> TopDocsSegmentCollector<D> {
    pub open spec fn wf(self) -> bool {
        &&& self.columns.wf()
        &&& (D::Doc::wants_host() ==> self.columns.hosts is Some)
    }

    /// Whether `collect` ignores this document: the terminated sentinel, or a
    /// document the filter skips.
    pub open spec fn skipped(self, doc: u32) -> bool {
        doc == u32::MAX || (self.filter_enabled && match self.columns.skip {
            Some(f) => f@[doc as int],
            None => false,
        })
    }

    pub fn collect(&mut self, doc: u32)
        requires
            old(self).wf(),
            doc != u32::MAX ==> (doc as int) < old(self).columns.ranks@.len(),
        ensures
            final(self).wf(),
            final(self).shard_id == old(self).shard_id,
            final(self).segment_ord == old(self).segment_ord,
            final(self).columns == old(self).columns,
            final(self).filter_enabled == old(self).filter_enabled,
            final(self).computer.cap_of() == old(self).computer.cap_of(),
            old(self).skipped(doc) ==> final(self).computer.contents() == old(
                self,
            ).computer.contents(),
            !old(self).skipped(doc) ==> {
                let cs = final(self).computer.contents();
                &&& cs.len() == old(self).computer.contents().len() + 1
                &&& cs.drop_last() == old(self).computer.contents()
                &&& cs.last().0 == old(self).columns.ranks@[doc as int]
                &&& cs.last().1.address_of() == (DocAddress {
                    shard_id: old(self).shard_id,
                    segment_ord: old(self).segment_ord,
                    doc_id: doc,
                })
                &&& (D::Doc::wants_host() ==> cs.last().1.host_of() == Some(
                    old(self).columns.hosts.unwrap()@[doc as int],
                ))
            },
    {
        if doc == u32::MAX {
            return ;
        }
        if self.filter_enabled {
            let skip_this = match &self.columns.skip {
                Some(f) => f[doc as usize],
                None => false,
            };
            if skip_this {
                return ;
            }
        }
        let rank = self.columns.ranks[doc as usize];
        let host: Option<u128> = match &self.columns.hosts {
            Some(h) => Some(h[doc as usize]),
            None => None,
        };
        let address = DocAddress::new(self.shard_id, self.segment_ord, doc);
        let d = <D::Doc as DeduplicatorDoc>::new(address, host);
        let ghost cs0 = self.computer.contents();
        self.computer.push(rank, d);
        proof {
            assert(self.computer.contents().drop_last() =~= cs0);
        }
    }

    pub fn harvest(self) -> (r: Vec<(u64, D::Doc)>)
        ensures
            r@ == self.computer.harvest_spec(),
    {
        self.computer.harvest()
    }
}

impl<D: Deduplicator> TopDocsCollector<D> {
    /// Opens a segment-local collector over the segment's warmed columns.
    pub fn open_segment(&self, segment_ord: u32, segment: SegmentColumnFields) -> (c:
        TopDocsSegmentCollector<D>)
        requires
            self.wf(),
            self.shard_id is Some,
            self.column_fields is Some,
            segment.wf(),
            <D::Doc as DeduplicatorDoc>::wants_host()
                ==> self.column_fields.unwrap().host_field is Some,
            self.column_fields.unwrap().host_field is Some ==> segment.hosts is Some,
        ensures
            c.wf(),
            c.shard_id == self.shard_id.unwrap(),
            c.segment_ord == segment_ord,
            c.computer.contents() == Seq::<(u64, D::Doc)>::empty(),
            c.columns.ranks == segment.ranks,
            c.columns.skip == segment.skip,
            self.column_fields.unwrap().host_field is Some ==> c.columns.hosts == segment.hosts,
            c.filter_enabled == (self.filter is Some),
    {
        let host_field_set = match &self.column_fields {
            Some(cf) => cf.host_field.is_some(),
            None => false,  // unreachable by the precondition
        };
        let hosts = if host_field_set {
            segment.hosts
        } else {
            None
        };
        let shard_id = match self.shard_id {
            Some(s) => s,
            None => ShardId::Backbone(0),  // unreachable by the precondition
        };
        TopDocsSegmentCollector {
            shard_id,
            segment_ord,
            computer: self.computer(),
            columns: SegmentColumnFields { ranks: segment.ranks, hosts, skip: segment.skip },
            filter_enabled: self.filter.is_some(),
        }
    }

    /// The merged fruit: every candidate of every segment fruit, sorted by
    /// rank, deduplicated, and cut to the offset/limit window (or to
    /// `limit + DEDUPLICATION_BUFFER` when the offset is left to the
    /// coordinator).
    pub open spec fn merge_spec(self, fruits: Seq<Seq<(u64, D::Doc)>>) -> Seq<(u64, D::Doc)> {
        apply_window(
            D::dedup_spec(sort_by_rank(fruits.flatten())),
            self.limit,
            self.offset,
            self.perform_offset,
        )
    }

    pub fn merge_segment_fruits(&self, segment_fruits: Vec<Vec<(u64, D::Doc)>>) -> (r: Vec<
        (u64, D::Doc),
    >)
        requires
            self.wf(),
        ensures
            r@ == self.merge_spec(segment_fruits@.map_values(|v: Vec<(u64, D::Doc)>| v@)),
    {
        let ghost orig = segment_fruits@.map_values(|v: Vec<(u64, D::Doc)>| v@);
        let mut fruits = segment_fruits;
        let mut flat: Vec<(u64, D::Doc)> = Vec::new();
        proof {
            assert(fruits@.map_values(|v: Vec<(u64, D::Doc)>| v@) =~= orig);
        }
        while fruits.len() > 0
            invariant
                orig.flatten() == flat@ + fruits@.map_values(|v: Vec<(u64, D::Doc)>| v@).flatten(),
            decreases fruits@.len(),
        {
            let ghost pre = fruits@.map_values(|v: Vec<(u64, D::Doc)>| v@);
            let mut v = fruits.remove(0);
            proof {
                assert(fruits@.map_values(|v: Vec<(u64, D::Doc)>| v@) =~= pre.drop_first());
                assert(pre.flatten() == pre.first() + pre.drop_first().flatten());
            }
            let ghost flat0 = flat@;
            flat.append(&mut v);
            proof {
                assert(flat0 + pre.flatten() =~= flat@ + pre.drop_first().flatten());
            }
        }
        proof {
            assert(fruits@.map_values(|v: Vec<(u64, D::Doc)>| v@).flatten() =~= Seq::<
                (u64, D::Doc),
            >::empty());
            assert(flat@ =~= orig.flatten());
        }
        let sorted = sort_docs(&flat);
        let deduped = self.deduplicator.deduplicate(sorted);
        let ghost dd = D::dedup_spec(sort_by_rank(flat@));
        proof {
            lemma_sort_by_rank_sorted(flat@);
            D::lemma_dedup_spec(sort_by_rank(flat@));
            lemma_sort_of_sorted(dd);
        }
        let mut computer = self.computer();
        let ghost cap0 = computer.cap_of();
        let mut i: usize = 0;
        proof {
            assert(deduped@.take(0) =~= Seq::<(u64, D::Doc)>::empty());
        }
        while i < deduped.len()
            invariant
                0 <= i <= deduped@.len(),
                computer.contents() == deduped@.take(i as int),
                computer.cap_of() == cap0,
            decreases deduped@.len() - i,
        {
            let (rank, doc) = deduped[i];
            computer.push(rank, doc);
            proof {
                assert(deduped@.take(i + 1) =~= deduped@.take(i as int).push(deduped@[i as int]));
            }
            i = i + 1;
        }
        proof {
            assert(deduped@.take(deduped@.len() as int) =~= deduped@);
        }
        let harvested = computer.harvest();
        let n = harvested.len();
        let start: usize;
        let end: usize;
        if self.perform_offset {
            let o = self.offset.unwrap_or(0);
            let s0 = if o < n {
                o
            } else {
                n
            };
            let rem = n - s0;
            let cnt = match self.limit {
                Some(l) => if l < rem {
                    l
                } else {
                    rem
                },
                None => rem,
            };
            start = s0;
            end = s0 + cnt;
        } else {
            let l2 = match self.limit {
                Some(l) => l.saturating_add(DEDUPLICATION_BUFFER),
                None => usize::MAX,
            };
            start = 0;
            end = if l2 < n {
                l2
            } else {
                n
            };
        }
        let out = subrange_vec(&harvested, start, end);
        proof {
            assert(out@ =~= apply_window(dd, self.limit, self.offset, self.perform_offset));
        }
        out
    }
}

/// Top docs with host deduplication, over any multiset of (host, rank)
/// candidates gathered across shards and any limit and offset: the merged
/// fruit holds at most `limit` entries, its hosts are pairwise distinct, its
/// ranks never decrease, every entry comes from the candidates, and the
/// entries are exactly the rank-sorted host-deduplicated candidates with the
/// first `offset` of them skipped — so a result is owed whenever more than
/// `offset` distinct hosts exist.
pub proof fn lemma_top_docs_host_dedup(
    collector: TopDocsCollector<HostDeduplicator>,
    fruits: Seq<Seq<(u64, DocAddressWithHost)>>,
    limit: usize,
    offset: usize,
)
    requires
        collector.limit == Some(limit),
        collector.offset == Some(offset),
        collector.perform_offset,
    ensures
        collector.merge_spec(fruits).len() <= limit,
        sorted_by_rank(collector.merge_spec(fruits)),
        forall|i: int, j: int|
            0 <= i < j < collector.merge_spec(fruits).len() ==> collector.merge_spec(
                fruits,
            )[i].1.host != collector.merge_spec(fruits)[j].1.host,
        forall|i: int|
            0 <= i < collector.merge_spec(fruits).len() ==> fruits.flatten().contains(
                #[trigger] collector.merge_spec(fruits)[i],
            ),
        collector.merge_spec(fruits).len() == min_int(
            limit as int,
            if dedup_hosts(sort_by_rank(fruits.flatten())).len() >= offset {
                dedup_hosts(sort_by_rank(fruits.flatten())).len() - offset
            } else {
                0
            },
        ),
        forall|i: int|
            0 <= i < collector.merge_spec(fruits).len() ==> collector.merge_spec(fruits)[i]
                == dedup_hosts(sort_by_rank(fruits.flatten()))[offset + i],
{
    let flat = fruits.flatten();
    let sorted = sort_by_rank(flat);
    let dd = dedup_hosts(sorted);
    lemma_sort_by_rank_sorted(flat);
    lemma_dedup_hosts_from(sorted, Set::empty());
    lemma_dedup_hosts_sorted(sorted, Set::empty());
    lemma_sort_contains(flat);
    assert(collector.merge_spec(fruits) == apply_window(
        dd,
        Some(limit),
        Some(offset),
        true,
    ));
    assert forall|i: int|
        0 <= i < collector.merge_spec(fruits).len() implies fruits.flatten().contains(
        #[trigger] collector.merge_spec(fruits)[i],
    ) by {
        assert(dd.contains(collector.merge_spec(fruits)[i]));
        let k = choose|k: int| 0 <= k < dd.len() && dd[k] == collector.merge_spec(fruits)[i];
        assert(sorted.contains(dd[k]));
    }
}

/// Every element of the rank-sorted sequence occurs in the input, and the
/// other way round.
proof fn lemma_sort_contains<T>(s: Seq<(u64, T)>)
    ensures
        forall|e: (u64, T)| #[trigger] sort_by_rank(s).contains(e) ==> s.contains(e),
        forall|e: (u64, T)| #[trigger] s.contains(e) ==> sort_by_rank(s).contains(e),
    decreases s.len(),
{
    if s.len() > 0 {
        lemma_sort_contains(s.drop_last());
        lemma_insert_contains(s.last(), sort_by_rank(s.drop_last()));
        assert forall|e: (u64, T)| s.contains(e) implies sort_by_rank(s).contains(e) by {
            let k = choose|k: int| 0 <= k < s.len() && s[k] == e;
            if k < s.len() - 1 {
                assert(s.drop_last()[k] == e);
                assert(s.drop_last().contains(e));
                assert(sort_by_rank(s.drop_last()).contains(e));
            }
        }
        assert forall|e: (u64, T)| sort_by_rank(s).contains(e) implies s.contains(e) by {
            if e == s.last() {
                assert(s[s.len() - 1] == e);
            } else {
                assert(sort_by_rank(s.drop_last()).contains(e));
                assert(s.drop_last().contains(e));
                let k = choose|k: int| 0 <= k < s.drop_last().len() && s.drop_last()[k] == e;
                assert(s[k] == e);
            }
        }
    }
}

proof fn lemma_insert_contains<T>(x: (u64, T), s: Seq<(u64, T)>)
    ensures
        forall|e: (u64, T)| #[trigger] insert_by_rank(x, s).contains(e) ==> (e == x || s.contains(
            e,
        )),
        forall|e: (u64, T)| #[trigger] s.contains(e) ==> insert_by_rank(x, s).contains(e),
        insert_by_rank(x, s).contains(x),
    decreases s.len(),
{
    if s.len() == 0 {
        assert forall|e: (u64, T)| insert_by_rank(x, s).contains(e) implies (e == x || s.contains(
            e,
        )) by {
            assert(insert_by_rank(x, s) =~= seq![x]);
        }
        assert(insert_by_rank(x, s)[0] == x);
    } else if x.0 < s[0].0 {
        let r = seq![x] + s;
        assert(r[0] == x);
        assert forall|e: (u64, T)| s.contains(e) implies r.contains(e) by {
            let k = choose|k: int| 0 <= k < s.len() && s[k] == e;
            assert(r[k + 1] == e);
        }
        assert forall|e: (u64, T)| r.contains(e) implies (e == x || s.contains(e)) by {
            let k = choose|k: int| 0 <= k < r.len() && r[k] == e;
            if k > 0 {
                assert(s[k - 1] == e);
            }
        }
    } else {
        lemma_insert_contains(x, s.drop_first());
        let t = insert_by_rank(x, s.drop_first());
        let r = seq![s[0]] + t;
        assert(r[0] == s[0]);
        assert forall|e: (u64, T)| r.contains(e) implies (e == x || s.contains(e)) by {
            let k = choose|k: int| 0 <= k < r.len() && r[k] == e;
            if k == 0 {
                assert(s[0] == e);
            } else {
                assert(t[k - 1] == e);
                assert(t.contains(e));
                if e != x {
                    assert(s.drop_first().contains(e));
                    let m = choose|m: int| 0 <= m < s.drop_first().len() && s.drop_first()[m] == e;
                    assert(s[m + 1] == e);
                }
            }
        }
        let mx = choose|m: int| 0 <= m < t.len() && t[m] == x;
        assert(r[mx + 1] == x);
        assert(r.contains(x));
        assert forall|e: (u64, T)| s.contains(e) implies r.contains(e) by {
            let k = choose|k: int| 0 <= k < s.len() && s[k] == e;
            if k == 0 {
                assert(r[0] == e);
            } else {
                assert(s.drop_first()[k - 1] == e);
                assert(s.drop_first().contains(e));
                assert(t.contains(e));
                let m = choose|m: int| 0 <= m < t.len() && t[m] == e;
                assert(r[m + 1] == e);
            }
        }
    }
}

/// Keeps only the fruit entries that belong to the given shard, in order:
/// what a shard does with the coordinator's fruit before retrieving, so a
/// pointer from another shard never resolves there. Together with the
/// retrieval plan this keeps every pointer with its originating shard.
pub fn filter_fruit_shards(
    shard_id: ShardId,
    fruit: Vec<(u64, DocAddress)>,
) -> (r: Vec<(u64, DocAddress)>)
    ensures
        r@ == fruit@.filter(shard_pred(shard_id)),
        forall|k: int| 0 <= k < r@.len() ==> (#[trigger] r@[k]).1.shard_id == shard_id,
{
    let mut r: Vec<(u64, DocAddress)> = Vec::new();
    let mut i: usize = 0;
    proof {
        assert(fruit@.take(0).filter(shard_pred(shard_id)) =~= Seq::<(u64, DocAddress)>::empty())
            by {
            reveal(Seq::filter);
        }
    }
    while i < fruit.len()
        invariant
            0 <= i <= fruit@.len(),
            r@ == fruit@.take(i as int).filter(shard_pred(shard_id)),
            forall|k: int| 0 <= k < r@.len() ==> (#[trigger] r@[k]).1.shard_id == shard_id,
        decreases fruit@.len() - i,
    {
        let entry = fruit[i];
        proof {
            lemma_shard_filter_push(fruit@.take(i as int), fruit@[i as int], shard_id);
            assert(fruit@.take(i + 1) =~= fruit@.take(i as int).push(fruit@[i as int]));
        }
        if entry.1.shard_id == shard_id {
            r.push(entry);
        }
        i = i + 1;
    }
    proof {
        assert(fruit@.take(fruit@.len() as int) =~= fruit@);
    }
    r
}

/// Whether a fruit entry belongs to the shard.
pub open spec fn shard_pred(shard_id: ShardId) -> spec_fn((u64, DocAddress)) -> bool {
    |e: (u64, DocAddress)| e.1.shard_id == shard_id
}

proof fn lemma_shard_filter_push(s: Seq<(u64, DocAddress)>, e: (u64, DocAddress), shard_id: ShardId)
    ensures
        e.1.shard_id == shard_id ==> s.push(e).filter(shard_pred(shard_id)) == s.filter(
            shard_pred(shard_id),
        ).push(e),
        e.1.shard_id != shard_id ==> s.push(e).filter(shard_pred(shard_id)) == s.filter(
            shard_pred(shard_id),
        ),
{
    reveal(Seq::filter);
    assert(s.push(e).drop_last() =~= s);
    assert(s.push(e).last() == e);
}

impl<D: Deduplicator> Collector for TopDocsCollector<D> {
    type Fruit = Vec<(u64, D::Doc)>;

    type Child = TopDocsSegmentCollector<D>;

    open spec fn for_segment_requires(&self, segment_ord: u32, segment: SegmentColumnFields) -> bool {
        &&& self.wf()
        &&& self.shard_id is Some
        &&& self.column_fields is Some
        &&& segment.wf()
        &&& (<D::Doc as DeduplicatorDoc>::wants_host()
            ==> self.column_fields.unwrap().host_field is Some)
        &&& (self.column_fields.unwrap().host_field is Some ==> segment.hosts is Some)
    }

    open spec fn for_segment_ensures(
        &self,
        segment_ord: u32,
        segment: SegmentColumnFields,
        child: TopDocsSegmentCollector<D>,
    ) -> bool {
        &&& child.wf()
        &&& child.shard_id == self.shard_id.unwrap()
        &&& child.segment_ord == segment_ord
        &&& child.computer.contents() == Seq::<(u64, D::Doc)>::empty()
        &&& child.columns.ranks == segment.ranks
        &&& child.filter_enabled == (self.filter is Some)
    }

    open spec fn merge_requires(&self, fruits: Seq<Vec<(u64, D::Doc)>>) -> bool {
        self.wf()
    }

    open spec fn merge_ensures(
        &self,
        fruits: Seq<Vec<(u64, D::Doc)>>,
        merged: Vec<(u64, D::Doc)>,
    ) -> bool {
        merged@ == self.merge_spec(fruits.map_values(|v: Vec<(u64, D::Doc)>| v@))
    }

    fn for_segment(&self, segment_ord: u32, segment: SegmentColumnFields) -> (child:
        TopDocsSegmentCollector<D>) {
        self.open_segment(segment_ord, segment)
    }

    fn merge_fruits(&self, segment_fruits: Vec<Vec<(u64, D::Doc)>>) -> (merged: Vec<
        (u64, D::Doc),
    >) {
        self.merge_segment_fruits(segment_fruits)
    }
}

} // verus!

