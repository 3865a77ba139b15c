use vstd::prelude::*;
use crate::segment_store::{
    IndexablePage, SegmentStore, SegmentEntry, MergeOperation, StoreSegment, store_ids,
    drop_segments, docs_of, page_views, contains_id, searchable_docs,
};

verus! {

/// The recommended number of pages handed to the indexing worker at once
/// during a commit.
pub const BATCH_SIZE: usize = 512;

/// The recommended time to live of a live-index segment, in seconds:
/// sixty days.
pub const DEFAULT_TTL_SECONDS: i64 = 60 * 86400;

/// A live-index segment as the metadata sees it: the store's segment id and
/// the creation time, in seconds since the epoch.
#[derive(Clone, Copy, Debug, PartialEq, Eq, Structural)]
pub struct Segment {
    pub id: u128,
    pub created: i64,
}

impl Segment {
    pub fn id(&self) -> (r: u128)
        ensures
            r == self.id,
    {
        self.id
    }

    pub fn created(&self) -> (r: i64)
        ensures
            r == self.created,
    {
        self.created
    }
}

/// The metadata of a live-index shard: the segments believed to exist, kept
/// reconciled with the store on every mutation.
#[derive(Debug)]
pub struct Meta {
    pub segments: Vec<Segment>,
}

impl Meta {
    pub fn new() -> (r: Self)
        ensures
            r.segments@ == Seq::<Segment>::empty(),
    {
        Meta { segments: Vec::new() }
    }

    pub fn segments(&self) -> (r: &Vec<Segment>)
        ensures
            r == &self.segments,
    {
        &self.segments
    }
}

/// The ids of the metadata's segments, in order.
pub open spec fn meta_ids(segs: Seq<Segment>) -> Seq<u128> {
    segs.map_values(|s: Segment| s.id)
}

/// The metadata segments whose id the store still has.
pub open spec fn kept_segments(meta: Seq<Segment>, ids: Seq<u128>) -> Seq<Segment>
    decreases meta.len(),
{
    if meta.len() == 0 {
        Seq::empty()
    } else {
        kept_segments(meta.drop_last(), ids) + if ids.contains(meta.last().id) {
            seq![meta.last()]
        } else {
            Seq::empty()
        }
    }
}

/// Fresh metadata entries for store segments the metadata does not know:
/// they get `now` as their creation time.
pub open spec fn added_segments(ids: Seq<u128>, meta: Seq<Segment>, now: i64) -> Seq<Segment>
    decreases ids.len(),
{
    if ids.len() == 0 {
        Seq::empty()
    } else {
        added_segments(ids.drop_last(), meta, now) + if meta_ids(meta).contains(ids.last()) {
            Seq::empty()
        } else {
            seq![Segment { id: ids.last(), created: now }]
        }
    }
}

/// The reconciled metadata: the intersection keeps its creation times,
/// store-only segments enter with a fresh creation time, metadata-only
/// segments leave.
pub open spec fn synced_meta(meta: Seq<Segment>, ids: Seq<u128>, now: i64) -> Seq<Segment> {
    kept_segments(meta, ids) + added_segments(ids, meta, now)
}

/// The metadata segments that remain after a compaction removed a set of
/// ids.
pub open spec fn drop_meta(meta: Seq<Segment>, ids: Seq<u128>) -> Seq<Segment>
    decreases meta.len(),
{
    if meta.len() == 0 {
        Seq::empty()
    } else {
        drop_meta(meta.drop_last(), ids) + if ids.contains(meta.last().id) {
            Seq::empty()
        } else {
            seq![meta.last()]
        }
    }
}

/// The newest creation time among these segments.
pub open spec fn max_created(segs: Seq<Segment>) -> int
    decreases segs.len(),
{
    if segs.len() <= 1 {
        if segs.len() == 0 {
            0
        } else {
            segs[0].created as int
        }
    } else {
        let rest = max_created(segs.drop_last());
        if segs.last().created >= rest {
            segs.last().created as int
        } else {
            rest
        }
    }
}

/// The ids of the segments whose age has passed the time to live.
pub open spec fn expired_ids(meta: Seq<Segment>, ttl: i64, now: i64) -> Seq<u128>
    decreases meta.len(),
{
    if meta.len() == 0 {
        Seq::empty()
    } else {
        expired_ids(meta.drop_last(), ttl, now) + if meta.last().created + ttl < now {
            seq![meta.last().id]
        } else {
            Seq::empty()
        }
    }
}

/// Last writer wins per URL: a page stays only when no later page of the
/// batch has the same URL.
pub open spec fn has_url(pages: Seq<IndexablePage>, url: Seq<u8>) -> bool {
    exists|j: int| 0 <= j < pages.len() && (#[trigger] pages[j]).url@ == url
}

pub open spec fn dedup_lww(pages: Seq<IndexablePage>) -> Seq<IndexablePage>
    decreases pages.len(),
{
    if pages.len() == 0 {
        Seq::empty()
    } else if has_url(pages.drop_first(), pages[0].url@) {
        dedup_lww(pages.drop_first())
    } else {
        seq![pages[0]] + dedup_lww(pages.drop_first())
    }
}

/// The ids the metadata lists after reconciliation are exactly the store's
/// segment ids.
pub proof fn lemma_sync_reconciles(meta: Seq<Segment>, ids: Seq<u128>, now: i64)
    ensures
        forall|x: u128| meta_ids(synced_meta(meta, ids, now)).contains(x) <==> ids.contains(x),
{
    lemma_kept_ids(meta, ids);
    lemma_added_ids(ids, meta, now);
    assert forall|x: u128| meta_ids(synced_meta(meta, ids, now)).contains(x) <==> ids.contains(
        x,
    ) by {
        lemma_meta_ids_add(kept_segments(meta, ids), added_segments(ids, meta, now), x);
    }
}

proof fn lemma_meta_ids_add(a: Seq<Segment>, b: Seq<Segment>, x: u128)
    ensures
        meta_ids(a + b).contains(x) <==> (meta_ids(a).contains(x) || meta_ids(b).contains(x)),
{
    assert(meta_ids(a + b) =~= meta_ids(a) + meta_ids(b));
    if meta_ids(a).contains(x) {
        let k = choose|k: int| 0 <= k < meta_ids(a).len() && meta_ids(a)[k] == x;
        assert((meta_ids(a) + meta_ids(b))[k] == x);
    }
    if meta_ids(b).contains(x) {
        let k = choose|k: int| 0 <= k < meta_ids(b).len() && meta_ids(b)[k] == x;
        assert((meta_ids(a) + meta_ids(b))[meta_ids(a).len() + k] == x);
    }
    if meta_ids(a + b).contains(x) {
        let k = choose|k: int| 0 <= k < meta_ids(a + b).len() && meta_ids(a + b)[k] == x;
        if k < meta_ids(a).len() {
            assert(meta_ids(a)[k] == x);
        } else {
            assert(meta_ids(b)[k - meta_ids(a).len()] == x);
        }
    }
}

proof fn lemma_kept_ids(meta: Seq<Segment>, ids: Seq<u128>)
    ensures
        forall|x: u128| #[trigger] meta_ids(kept_segments(meta, ids)).contains(x) ==> (meta_ids(
            meta,
        ).contains(x) && ids.contains(x)),
        forall|x: u128| meta_ids(meta).contains(x) && ids.contains(x) ==> meta_ids(
            kept_segments(meta, ids),
        ).contains(x),
    decreases meta.len(),
{
    if meta.len() > 0 {
        lemma_kept_ids(meta.drop_last(), ids);
        let kp = kept_segments(meta.drop_last(), ids);
        let k = kept_segments(meta, ids);
        assert forall|x: u128| #[trigger] meta_ids(k).contains(x) implies (meta_ids(
            meta,
        ).contains(x) && ids.contains(x)) by {
            let p = choose|p: int| 0 <= p < meta_ids(k).len() && meta_ids(k)[p] == x;
            if p < kp.len() {
                assert(meta_ids(kp)[p] == x);
                assert(meta_ids(kp).contains(x));
                assert(meta_ids(meta.drop_last()).contains(x));
                let q = choose|q: int|
                    0 <= q < meta_ids(meta.drop_last()).len() && meta_ids(meta.drop_last())[q]
                        == x;
                assert(meta_ids(meta)[q] == x);
            } else {
                assert(k[p] == meta.last());
                assert(meta_ids(meta)[meta.len() - 1] == x);
            }
        }
        assert forall|x: u128| meta_ids(meta).contains(x) && ids.contains(x) implies meta_ids(
            k,
        ).contains(x) by {
            let p = choose|p: int| 0 <= p < meta_ids(meta).len() && meta_ids(meta)[p] == x;
            if p < meta.len() - 1 {
                assert(meta_ids(meta.drop_last())[p] == x);
                assert(meta_ids(meta.drop_last()).contains(x));
                assert(meta_ids(kp).contains(x));
                let q = choose|q: int| 0 <= q < meta_ids(kp).len() && meta_ids(kp)[q] == x;
                assert(meta_ids(k)[q] == x);
            } else {
                assert(meta.last().id == x);
                assert(k[k.len() - 1] == meta.last());
                assert(meta_ids(k)[k.len() - 1] == x);
            }
        }
    }
}

proof fn lemma_added_ids(ids: Seq<u128>, meta: Seq<Segment>, now: i64)
    ensures
        forall|x: u128| #[trigger] meta_ids(added_segments(ids, meta, now)).contains(x) ==> (
        ids.contains(x) && !meta_ids(meta).contains(x)),
        forall|x: u128| ids.contains(x) && !meta_ids(meta).contains(x) ==> meta_ids(
            added_segments(ids, meta, now),
        ).contains(x),
        forall|i: int| 0 <= i < added_segments(ids, meta, now).len() ==> (
        #[trigger] added_segments(ids, meta, now)[i]).created == now,
    decreases ids.len(),
{
    if ids.len() > 0 {
        lemma_added_ids(ids.drop_last(), meta, now);
        let ap = added_segments(ids.drop_last(), meta, now);
        let a = added_segments(ids, meta, now);
        assert forall|x: u128| #[trigger] meta_ids(a).contains(x) implies (ids.contains(x)
            && !meta_ids(meta).contains(x)) by {
            let p = choose|p: int| 0 <= p < meta_ids(a).len() && meta_ids(a)[p] == x;
            if p < ap.len() {
                assert(meta_ids(ap)[p] == x);
                assert(meta_ids(ap).contains(x));
                let q = choose|q: int| 0 <= q < ids.drop_last().len() && ids.drop_last()[q] == x;
                assert(ids[q] == x);
            } else {
                assert(a[p] == (Segment { id: ids.last(), created: now }));
                assert(ids[ids.len() - 1] == x);
            }
        }
        assert forall|x: u128| ids.contains(x) && !meta_ids(meta).contains(x) implies meta_ids(
            a,
        ).contains(x) by {
            let p = choose|p: int| 0 <= p < ids.len() && ids[p] == x;
            if p < ids.len() - 1 {
                assert(ids.drop_last()[p] == x);
                assert(ids.drop_last().contains(x));
                assert(meta_ids(ap).contains(x));
                let q = choose|q: int| 0 <= q < meta_ids(ap).len() && meta_ids(ap)[q] == x;
                assert(meta_ids(a)[q] == x);
            } else {
                assert(!meta_ids(meta).contains(ids.last()));
                assert(a[a.len() - 1] == (Segment { id: ids.last(), created: now }));
                assert(meta_ids(a)[a.len() - 1] == x);
            }
        }
    }
}

/// Whether the metadata lists this id.
fn meta_contains_id(segs: &Vec<Segment>, id: u128) -> (r: bool)
    ensures
        r == meta_ids(segs@).contains(id),
{
    let mut i: usize = 0;
    while i < segs.len()
        invariant
            0 <= i <= segs@.len(),
            forall|k: int| 0 <= k < i ==> segs@[k].id != id,
        decreases segs@.len() - i,
    {
        if segs[i].id == id {
            proof {
                assert(meta_ids(segs@)[i as int] == id);
            }
            return true;
        }
        i = i + 1;
    }
    proof {
        if meta_ids(segs@).contains(id) {
            let k = choose|k: int| 0 <= k < meta_ids(segs@).len() && meta_ids(segs@)[k] == id;
            assert(segs@[k].id == id);
        }
    }
    false
}

/// A prepared compaction of one same-day group: the group's metadata
/// segments, the gathered documents and the store operation to finish with.
#[derive(Debug)]
pub struct CompactOperation {
    pub segments: Vec<Segment>,
    pub entry: Option<SegmentEntry>,
    pub merge_op: MergeOperation,
}

impl CompactOperation {
    /// Finishes this compaction against the store.
    pub fn end(self, index: &mut SegmentStore) -> (r: Option<u128>)
        requires
            old(index).wf(),
            old(index).next_id < u128::MAX,
        ensures
            final(index).wf(),
            final(index).pending == old(index).pending,
            final(index).shard_id == old(index).shard_id,
            ({
                let dropped = drop_segments(old(index).segments@, self.merge_op.ids@);
                match self.entry {
                    Some(e) => if e.docs@.len() > 0 {
                        &&& final(index).segments@.len() == dropped.len() + 1
                        &&& final(index).segments@.take(dropped.len() as int) == dropped
                        &&& final(index).segments@.last().id == old(index).next_id
                        &&& final(index).segments@.last().docs == e.docs
                        &&& final(index).next_id == old(index).next_id + 1
                        &&& r == Some(old(index).next_id)
                    } else {
                        &&& final(index).segments@ == dropped
                        &&& final(index).next_id == old(index).next_id
                        &&& r is None
                    },
                    None => {
                        &&& final(index).segments@ == dropped
                        &&& final(index).next_id == old(index).next_id
                        &&& r is None
                    },
                }
            }),
    {
        index.end_merge_segments_by_id(self.merge_op, self.entry)
    }
}

/// One live-index shard: the segment store, the write-ahead log buffering
/// inserts until the next commit, and the reconciled metadata. The time to
/// live of a segment is an injected policy, in seconds.
#[derive(Debug)]
pub struct InnerIndex {
    pub index: SegmentStore,
    pub write_ahead_log: Vec<IndexablePage>,
    pub has_inserts: bool,
    pub meta: Meta,
    pub ttl: i64,
}

impl InnerIndex {
    /// Assembles a shard from its parts; pages already in the write-ahead
    /// log count as pending inserts, as after a restart.
    pub fn new(
        index: SegmentStore,
        meta: Meta,
        write_ahead_log: Vec<IndexablePage>,
        ttl: i64,
    ) -> (r: Self)
        ensures
            r.index == index,
            r.meta == meta,
            r.write_ahead_log == write_ahead_log,
            r.has_inserts == (write_ahead_log@.len() > 0),
            r.ttl == ttl,
    {
        let has_inserts = write_ahead_log.len() > 0;
        InnerIndex { index, write_ahead_log, has_inserts, meta, ttl }
    }

    /// Appends the pages to the write-ahead log; they are durable but not
    /// yet searchable.
    pub fn insert(&mut self, pages: Vec<IndexablePage>)
        ensures
            final(self).write_ahead_log@ == old(self).write_ahead_log@ + pages@,
            final(self).has_inserts,
            final(self).index == old(self).index,
            final(self).meta == old(self).meta,
            final(self).ttl == old(self).ttl,
    {
        let mut pages = pages;
        self.write_ahead_log.append(&mut pages);
        self.has_inserts = true;
    }

    pub fn has_inserts(&self) -> (r: bool)
        ensures
            r == self.has_inserts,
    {
        self.has_inserts
    }

    /// Reconciles the metadata with the store: the intersection keeps its
    /// creation times, store-only segments enter with `now`, metadata-only
    /// segments leave. Afterwards the metadata lists exactly the store's
    /// segments.
    pub fn sync_meta_with_index(&mut self, now: i64)
        ensures
            final(self).meta.segments@ == synced_meta(
                old(self).meta.segments@,
                store_ids(old(self).index.segments@),
                now,
            ),
            final(self).index == old(self).index,
            final(self).write_ahead_log == old(self).write_ahead_log,
            final(self).has_inserts == old(self).has_inserts,
            final(self).ttl == old(self).ttl,
            forall|x: u128|
                meta_ids(final(self).meta.segments@).contains(x) <==> store_ids(
                    final(self).index.segments@,
                ).contains(x),
    {
        let ids = self.index.segment_ids();
        let mut new_segs: Vec<Segment> = Vec::new();
        let ghost old_meta = self.meta.segments@;
        let mut i: usize = 0;
        proof {
            assert(new_segs@ =~= kept_segments(old_meta.take(0), ids@));
        }
        while i < self.meta.segments.len()
            invariant
                0 <= i <= self.meta.segments@.len(),
                self.meta.segments@ == old_meta,
                ids@ == store_ids(self.index.segments@),
                new_segs@ == kept_segments(old_meta.take(i as int), ids@),
            decreases self.meta.segments@.len() - i,
        {
            proof {
                assert(old_meta.take(i + 1).drop_last() =~= old_meta.take(i as int));
            }
            let s = self.meta.segments[i];
            if contains_id(&ids, s.id) {
                new_segs.push(s);
                proof {
                    assert(new_segs@ =~= kept_segments(old_meta.take(i + 1), ids@));
                }
            } else {
                proof {
                    assert(new_segs@ =~= kept_segments(old_meta.take(i + 1), ids@));
                }
            }
            i = i + 1;
        }
        proof {
            assert(old_meta.take(old_meta.len() as int) =~= old_meta);
        }
        let ghost kept = new_segs@;
        let mut j: usize = 0;
        proof {
            assert(new_segs@ =~= kept + added_segments(ids@.take(0), old_meta, now));
        }
        while j < ids.len()
            invariant
                0 <= j <= ids@.len(),
                self.meta.segments@ == old_meta,
                ids@ == store_ids(self.index.segments@),
                new_segs@ == kept + added_segments(ids@.take(j as int), old_meta, now),
            decreases ids@.len() - j,
        {
            proof {
                assert(ids@.take(j + 1).drop_last() =~= ids@.take(j as int));
            }
            let id = ids[j];
            if !meta_contains_id(&self.meta.segments, id) {
                new_segs.push(Segment { id, created: now });
                proof {
                    assert(new_segs@ =~= kept + added_segments(ids@.take(j + 1), old_meta, now));
                }
            } else {
                proof {
                    assert(new_segs@ =~= kept + added_segments(ids@.take(j + 1), old_meta, now));
                }
            }
            j = j + 1;
        }
        proof {
            assert(ids@.take(ids@.len() as int) =~= ids@);
        }
        self.meta.segments = new_segs;
        proof {
            lemma_sync_reconciles(old_meta, ids@, now);
        }
    }

    /// Deletes every segment older than the time to live, then reconciles
    /// the metadata: an expired segment is gone from both the store and the
    /// metadata, the rest keep their creation times.
    pub fn prune_segments(&mut self, now: i64)
        requires
            forall|i: int|
                0 <= i < old(self).meta.segments@.len() ==> i64::MIN <= (#[trigger] old(
                    self,
                ).meta.segments@[i]).created + old(self).ttl <= i64::MAX,
        ensures
            final(self).index.segments@ == drop_segments(
                old(self).index.segments@,
                expired_ids(old(self).meta.segments@, old(self).ttl, now),
            ),
            final(self).meta.segments@ == synced_meta(
                old(self).meta.segments@,
                store_ids(final(self).index.segments@),
                now,
            ),
            final(self).write_ahead_log == old(self).write_ahead_log,
            final(self).has_inserts == old(self).has_inserts,
            final(self).ttl == old(self).ttl,
            old(self).index.wf() ==> final(self).index.wf(),
            forall|x: u128|
                meta_ids(final(self).meta.segments@).contains(x) <==> store_ids(
                    final(self).index.segments@,
                ).contains(x),
    {
        let mut old_ids: Vec<u128> = Vec::new();
        let ghost meta0 = self.meta.segments@;
        let mut i: usize = 0;
        proof {
            assert(old_ids@ =~= expired_ids(meta0.take(0), self.ttl, now));
        }
        while i < self.meta.segments.len()
            invariant
                0 <= i <= self.meta.segments@.len(),
                self.meta.segments@ == meta0,
                forall|k: int|
                    0 <= k < meta0.len() ==> i64::MIN <= (#[trigger] meta0[k]).created + self.ttl
                        <= i64::MAX,
                old_ids@ == expired_ids(meta0.take(i as int), self.ttl, now),
            decreases self.meta.segments@.len() - i,
        {
            proof {
                assert(meta0.take(i + 1).drop_last() =~= meta0.take(i as int));
                assert(i64::MIN <= meta0[i as int].created + self.ttl <= i64::MAX);
            }
            let s = self.meta.segments[i];
            if s.created + self.ttl < now {
                old_ids.push(s.id);
                proof {
                    assert(old_ids@ =~= expired_ids(meta0.take(i + 1), self.ttl, now));
                }
            } else {
                proof {
                    assert(old_ids@ =~= expired_ids(meta0.take(i + 1), self.ttl, now));
                }
            }
            i = i + 1;
        }
        proof {
            assert(meta0.take(meta0.len() as int) =~= meta0);
        }
        self.index.delete_segments_by_id(&old_ids);
        self.sync_meta_with_index(now);
        self.index.re_open();
    }

    /// Deletes every segment and resets the metadata.
    pub fn delete_all_pages(&mut self)
        ensures
            final(self).index.segments@ == Seq::<StoreSegment>::empty(),
            final(self).meta.segments@ == Seq::<Segment>::empty(),
            final(self).write_ahead_log == old(self).write_ahead_log,
            final(self).has_inserts == old(self).has_inserts,
            final(self).ttl == old(self).ttl,
            old(self).index.wf() ==> final(self).index.wf(),
    {
        let segments = self.index.segment_ids();
        self.index.delete_segments_by_id(&segments);
        proof {
            lemma_drop_all(old(self).index.segments@);
        }
        self.meta = Meta::new();
        self.index.re_open();
    }

    /// Commits the write-ahead log: deduplicates pages by URL, last writer
    /// wins, indexes them as one fresh segment, clears the log and
    /// reconciles the metadata.
    pub fn commit(&mut self, now: i64)
        requires
            old(self).index.wf(),
            old(self).index.next_id < u128::MAX,
            old(self).index.pending@.len() == 0,
        ensures
            final(self).index.wf(),
            final(self).write_ahead_log@.len() == 0,
            !final(self).has_inserts,
            final(self).ttl == old(self).ttl,
            dedup_lww(old(self).write_ahead_log@).len() == 0 ==> final(self).index.segments
                == old(self).index.segments,
            dedup_lww(old(self).write_ahead_log@).len() > 0 ==> {
                &&& final(self).index.segments@.len() == old(self).index.segments@.len() + 1
                &&& final(self).index.segments@.take(old(self).index.segments@.len() as int)
                    == old(self).index.segments@
                &&& final(self).index.segments@.last().docs@ == dedup_lww(
                    old(self).write_ahead_log@,
                )
                &&& final(self).index.segments@.last().id == old(self).index.next_id
            },
            final(self).meta.segments@ == synced_meta(
                old(self).meta.segments@,
                store_ids(final(self).index.segments@),
                now,
            ),
            forall|x: u128|
                meta_ids(final(self).meta.segments@).contains(x) <==> store_ids(
                    final(self).index.segments@,
                ).contains(x),
    {
        let mut wal: Vec<IndexablePage> = Vec::new();
        core::mem::swap(&mut self.write_ahead_log, &mut wal);
        let ghost wal0 = wal@;
        let ghost i: int = 0;
        proof {
            assert(wal@ =~= wal0.skip(0));
            assert(self.index.pending@ + dedup_lww(wal0.skip(0)) =~= dedup_lww(wal0));
        }
        while wal.len() > 0
            invariant
                0 <= i <= wal0.len(),
                wal@ == wal0.skip(i),
                self.index.wf(),
                self.index.next_id == old(self).index.next_id,
                self.index.segments == old(self).index.segments,
                self.index.shard_id == old(self).index.shard_id,
                self.index.pending@ + dedup_lww(wal0.skip(i)) == dedup_lww(wal0),
                self.write_ahead_log@.len() == 0,
                self.meta == old(self).meta,
                self.ttl == old(self).ttl,
            decreases wal@.len(),
        {
            let page = wal.remove(0);
            proof {
                assert(page == wal0[i]);
                assert(wal@ =~= wal0.skip(i + 1));
                assert(wal0.skip(i).drop_first() =~= wal0.skip(i + 1));
                assert(wal0.skip(i)[0] == wal0[i]);
            }
            let keep = !wal_has_url(&wal, &page.url);
            proof {
                if !keep {
                    assert(dedup_lww(wal0.skip(i)) =~= dedup_lww(wal0.skip(i + 1)));
                }
            }
            if keep {
                let ghost pend0 = self.index.pending@;
                self.index.insert(page);
                proof {
                    assert(dedup_lww(wal0.skip(i)) =~= seq![wal0[i]] + dedup_lww(
                        wal0.skip(i + 1),
                    ));
                    assert(pend0.push(wal0[i]) + dedup_lww(wal0.skip(i + 1)) =~= pend0 + (seq![
                        wal0[i]
                    ] + dedup_lww(wal0.skip(i + 1))));
                }
            }
            proof {
                i = i + 1;
            }
        }
        proof {
            assert(wal0.skip(wal0.len() as int) =~= Seq::<IndexablePage>::empty());
            assert(dedup_lww(wal0.skip(wal0.len() as int)) =~= Seq::<IndexablePage>::empty());
            assert(self.index.pending@ =~= dedup_lww(wal0));
        }
        self.index.commit();
        self.has_inserts = false;
        self.sync_meta_with_index(now);
        self.index.re_open();
    }
}

/// Whether a later page of the batch has this URL.
fn wal_has_url(pages: &Vec<IndexablePage>, url: &Vec<u8>) -> (r: bool)
    ensures
        r == has_url(pages@, url@),
{
    let mut i: usize = 0;
    while i < pages.len()
        invariant
            0 <= i <= pages@.len(),
            forall|k: int| 0 <= k < i ==> (#[trigger] pages@[k]).url@ != url@,
        decreases pages@.len() - i,
    {
        if crate::columnar::slices_eq(pages[i].url.as_slice(), url.as_slice()) {
            return true;
        }
        i = i + 1;
    }
    false
}

/// Deleting the store's own id list leaves nothing.
proof fn lemma_drop_all(segments: Seq<StoreSegment>)
    ensures
        drop_segments(segments, store_ids(segments)).len() == 0,
    decreases segments.len(),
{
    if segments.len() > 0 {
        assert forall|x: u128|
            store_ids(segments.drop_last()).contains(x) implies store_ids(segments).contains(
            x,
        ) by {
            let k = choose|k: int|
                0 <= k < store_ids(segments.drop_last()).len() && store_ids(segments.drop_last())[
                    k
                ] == x;
            assert(store_ids(segments)[k] == x);
        }
        lemma_drop_subset(segments.drop_last(), store_ids(segments.drop_last()), store_ids(
            segments,
        ));
        lemma_drop_all(segments.drop_last());
        assert(store_ids(segments)[segments.len() - 1] == segments.last().id);
        assert(store_ids(segments).contains(segments.last().id));
    }
}

/// Dropping a larger id set drops at least as much.
proof fn lemma_drop_subset(segments: Seq<StoreSegment>, ids1: Seq<u128>, ids2: Seq<u128>)
    requires
        forall|x: u128| ids1.contains(x) ==> ids2.contains(x),
    ensures
        drop_segments(segments, ids2).len() <= drop_segments(segments, ids1).len(),
    decreases segments.len(),
{
    if segments.len() > 0 {
        lemma_drop_subset(segments.drop_last(), ids1, ids2);
    }
}

/// The day a timestamp falls in: days since the epoch.
pub open spec fn day_of(ts: i64) -> int {
    ts as int / 86400
}

/// The day a creation time falls in.
pub fn day_bucket(ts: i64) -> (d: i64)
    requires
        ts > i64::MIN,
    ensures
        d == day_of(ts),
{
    if ts >= 0 {
        ts / 86400
    } else {
        let up = -ts;
        let q = (up - 1) / 86400 + 1;
        proof {
            assert((-q) == ts as int / 86400) by (nonlinear_arith)
                requires
                    ts < 0,
                    up == -ts,
                    q == (up - 1) / 86400 + 1,
            ;
        }
        -q
    }
}

/// The metadata segments created on day `d`, in metadata order.
pub open spec fn segments_of_day(meta: Seq<Segment>, d: int) -> Seq<Segment>
    decreases meta.len(),
{
    if meta.len() == 0 {
        Seq::empty()
    } else {
        segments_of_day(meta.drop_last(), d) + if day_of(meta.last().created) == d {
            seq![meta.last()]
        } else {
            Seq::empty()
        }
    }
}

/// A day's segments all carry that day and come from the metadata.
pub proof fn lemma_day_group(meta: Seq<Segment>, d: int)
    ensures
        forall|i: int| 0 <= i < segments_of_day(meta, d).len() ==> day_of(
            (#[trigger] segments_of_day(meta, d)[i]).created,
        ) == d && meta.contains(segments_of_day(meta, d)[i]),
    decreases meta.len(),
{
    if meta.len() > 0 {
        lemma_day_group(meta.drop_last(), d);
        let g = segments_of_day(meta, d);
        let gp = segments_of_day(meta.drop_last(), d);
        assert forall|i: int| 0 <= i < g.len() implies day_of((#[trigger] g[i]).created) == d
            && meta.contains(g[i]) by {
            if i < gp.len() {
                assert(g[i] == gp[i]);
                assert(meta.drop_last().contains(gp[i]));
                let k = choose|k: int|
                    0 <= k < meta.drop_last().len() && meta.drop_last()[k] == gp[i];
                assert(meta[k] == g[i]);
            } else {
                assert(g[i] == meta.last());
                assert(meta[meta.len() - 1] == g[i]);
            }
        }
    }
}


/// The metadata's segment ids are pairwise distinct and all older than
/// the store's next fresh id, as reconciliation against a well-formed
/// store leaves them.
pub open spec fn meta_distinct_and_stale(meta: Seq<Segment>, next_id: u128) -> bool {
    &&& (forall|i: int, j: int| 0 <= i < j < meta.len() ==> meta[i].id != meta[j].id)
    &&& (forall|i: int| 0 <= i < meta.len() ==> (#[trigger] meta[i]).id < next_id)
}

/// A day group's ids are ids of metadata segments.
proof fn lemma_group_ids_in_meta(meta: Seq<Segment>, d: int)
    ensures
        forall|x: u128|
            #[trigger] meta_ids(segments_of_day(meta, d)).contains(x) ==> exists|i: int|
                0 <= i < meta.len() && (#[trigger] meta[i]).id == x && day_of(meta[i].created)
                    == d,
{
    lemma_day_group(meta, d);
    let g = segments_of_day(meta, d);
    assert forall|x: u128| #[trigger] meta_ids(g).contains(x) implies exists|i: int|
        0 <= i < meta.len() && (#[trigger] meta[i]).id == x && day_of(meta[i].created) == d by {
        let p = choose|p: int| 0 <= p < meta_ids(g).len() && meta_ids(g)[p] == x;
        assert(g[p].id == x);
        assert(meta.contains(g[p]));
        let i = choose|i: int| 0 <= i < meta.len() && meta[i] == g[p];
        assert(meta[i].id == x && day_of(meta[i].created) == d);
    }
}

/// With distinct metadata ids, day groups of different days share no id.
proof fn lemma_group_ids_disjoint(meta: Seq<Segment>, d1: int, d2: int)
    requires
        d1 != d2,
        forall|i: int, j: int| 0 <= i < j < meta.len() ==> meta[i].id != meta[j].id,
    ensures
        forall|x: u128|
            #[trigger] meta_ids(segments_of_day(meta, d1)).contains(x) ==> !meta_ids(
                segments_of_day(meta, d2),
            ).contains(x),
{
    lemma_group_ids_in_meta(meta, d1);
    lemma_group_ids_in_meta(meta, d2);
    assert forall|x: u128|
        #[trigger] meta_ids(segments_of_day(meta, d1)).contains(x) implies !meta_ids(
        segments_of_day(meta, d2),
    ).contains(x) by {
        if meta_ids(segments_of_day(meta, d2)).contains(x) {
            let i1 = choose|i: int|
                0 <= i < meta.len() && (#[trigger] meta[i]).id == x && day_of(meta[i].created)
                    == d1;
            let i2 = choose|i: int|
                0 <= i < meta.len() && (#[trigger] meta[i]).id == x && day_of(meta[i].created)
                    == d2;
            if i1 < i2 {
                assert(meta[i1].id != meta[i2].id);
            } else if i2 < i1 {
                assert(meta[i2].id != meta[i1].id);
            }
        }
    }
}

/// Dropping segments whose ids are disjoint from `ids2` does not change
/// what `ids2` gathers.
proof fn lemma_docs_of_drop(s: Seq<StoreSegment>, ids1: Seq<u128>, ids2: Seq<u128>)
    requires
        forall|x: u128| ids2.contains(x) ==> !ids1.contains(x),
    ensures
        docs_of(drop_segments(s, ids1), ids2) == docs_of(s, ids2),
    decreases s.len(),
{
    if s.len() > 0 {
        lemma_docs_of_drop(s.drop_last(), ids1, ids2);
        if ids1.contains(s.last().id) {
            assert(!ids2.contains(s.last().id));
            assert(docs_of(s, ids2) =~= docs_of(s.drop_last(), ids2));
        } else {
            let d = drop_segments(s, ids1);
            assert(d =~= drop_segments(s.drop_last(), ids1).push(s.last()));
            assert(d.drop_last() =~= drop_segments(s.drop_last(), ids1));
            assert(d.last() == s.last());
            assert(docs_of(d, ids2) =~= docs_of(s, ids2));
        }
    }
}

/// A segment with a foreign id does not change what `ids2` gathers.
proof fn lemma_docs_of_push(s: Seq<StoreSegment>, seg: StoreSegment, ids2: Seq<u128>)
    requires
        !ids2.contains(seg.id),
    ensures
        docs_of(s.push(seg), ids2) == docs_of(s, ids2),
{
    assert(s.push(seg).drop_last() =~= s);
    assert(docs_of(s.push(seg), ids2) =~= docs_of(s, ids2));
}

/// Carrying out prepared compactions whose id sets are pairwise disjoint,
/// stale (below the next fresh id) and matched by their gathered documents
/// preserves the multiset of searchable page contents, and leaves what any
/// untouched stale id set gathers unchanged.
proof fn lemma_end_fold_preserves_searchable(
    store: Seq<StoreSegment>,
    next_id: u128,
    meta: Seq<Segment>,
    ops: Seq<CompactOperation>,
)
    requires
        next_id + ops.len() <= u128::MAX,
        forall|k: int|
            0 <= k < ops.len() ==> ((#[trigger] ops[k]).entry matches Some(e) ==> page_views(
                e.docs@,
            ) == page_views(docs_of(store, ops[k].merge_op.ids@))),
        forall|k: int|
            0 <= k < ops.len() ==> ((#[trigger] ops[k]).entry is None <==> docs_of(
                store,
                ops[k].merge_op.ids@,
            ).len() == 0),
        forall|k: int, l: int, x: u128|
            0 <= k < ops.len() && 0 <= l < ops.len() && k != l && #[trigger] ops[k].merge_op.ids@.contains(
                x,
            ) ==> !(#[trigger] ops[l].merge_op.ids@.contains(x)),
        forall|k: int, x: u128|
            0 <= k < ops.len() && #[trigger] ops[k].merge_op.ids@.contains(x) ==> x < next_id,
    ensures
        next_id <= end_fold(store, next_id, meta, ops).1 <= next_id + ops.len(),
        page_views(searchable_docs(end_fold(store, next_id, meta, ops).0)).to_multiset()
            == page_views(searchable_docs(store)).to_multiset(),
        forall|ids2: Seq<u128>|
            ((forall|x: u128| #[trigger] ids2.contains(x) ==> x < next_id) && (forall|
                k: int,
                x: u128,
            |
                0 <= k < ops.len() && #[trigger] ids2.contains(x) ==> !(
                #[trigger] ops[k].merge_op.ids@.contains(x)))) ==> #[trigger] docs_of(
                end_fold(store, next_id, meta, ops).0,
                ids2,
            ) == docs_of(store, ids2),
    decreases ops.len(),
{
    if ops.len() > 0 {
        let prefix = ops.drop_last();
        let op = ops.last();
        assert forall|k: int, l: int, x: u128|
            0 <= k < prefix.len() && 0 <= l < prefix.len() && k != l
                && #[trigger] prefix[k].merge_op.ids@.contains(x) implies !(
        #[trigger] prefix[l].merge_op.ids@.contains(x)) by {
            assert(prefix[k] == ops[k]);
            assert(prefix[l] == ops[l]);
        }
        assert forall|k: int|
            0 <= k < prefix.len() implies ((#[trigger] prefix[k]).entry matches Some(e)
                ==> page_views(e.docs@) == page_views(docs_of(store, prefix[k].merge_op.ids@)))
                && ((#[trigger] prefix[k]).entry is None <==> docs_of(
                store,
                prefix[k].merge_op.ids@,
            ).len() == 0) && (forall|x: u128|
                (#[trigger] prefix[k]).merge_op.ids@.contains(x) ==> x < next_id) by {
            assert(prefix[k] == ops[k]);
        }
        lemma_end_fold_preserves_searchable(store, next_id, meta, prefix);
        let st = end_fold(store, next_id, meta, prefix);
        let ids = op.merge_op.ids@;
        assert(op == ops[ops.len() - 1]);
        // the last operation's ids were untouched by the prefix
        assert(docs_of(st.0, ids) == docs_of(store, ids)) by {
            assert forall|x: u128| #[trigger] ids.contains(x) implies x < next_id by {}
            assert forall|k: int, x: u128|
                0 <= k < prefix.len() && #[trigger] ids.contains(x) implies !(
            #[trigger] prefix[k].merge_op.ids@.contains(x)) by {
                assert(prefix[k] == ops[k]);
                assert(ops[k].merge_op.ids@.contains(x) ==> !ops[ops.len() - 1].merge_op.ids@.contains(x));
            }
        }
        match op.entry {
            Some(e) => {
                if e.docs@.len() > 0 {
                    let dropped = drop_segments(st.0, ids);
                    let m = StoreSegment { id: st.1, docs: e.docs };
                    assert(end_fold(store, next_id, meta, ops).0 =~= dropped.push(m));
                    assert(dropped.push(m).take(dropped.len() as int) =~= dropped);
                    lemma_compaction_preserves_searchable(st.0, dropped.push(m), ids, e.docs@);
                    assert(page_views(e.docs@) == page_views(docs_of(st.0, ids)));
                } else {
                    assert(docs_of(store, ids).len() > 0);
                    assert(e.docs@.len() == page_views(docs_of(store, ids)).len());
                }
            },
            None => {
                assert(docs_of(st.0, ids).len() == 0);
                lemma_split_searchable(st.0, ids);
                assert(page_views(docs_of(st.0, ids)) =~= Seq::<(Seq<u8>, Seq<u8>)>::empty());
                assert(page_views(searchable_docs(drop_segments(st.0, ids)))
                    + Seq::<(Seq<u8>, Seq<u8>)>::empty() =~= page_views(
                    searchable_docs(drop_segments(st.0, ids)),
                ));
            },
        }
        // untouched stale id sets still gather the same documents
        assert forall|ids2: Seq<u128>|
            ((forall|x: u128| #[trigger] ids2.contains(x) ==> x < next_id) && (forall|
                k: int,
                x: u128,
            |
                0 <= k < ops.len() && #[trigger] ids2.contains(x) ==> !(
                #[trigger] ops[k].merge_op.ids@.contains(x)))) implies #[trigger] docs_of(
            end_fold(store, next_id, meta, ops).0,
            ids2,
        ) == docs_of(store, ids2) by {
            assert forall|k: int, x: u128|
                0 <= k < prefix.len() && #[trigger] ids2.contains(x) implies !(
            #[trigger] prefix[k].merge_op.ids@.contains(x)) by {
                assert(prefix[k] == ops[k]);
            }
            assert(docs_of(st.0, ids2) == docs_of(store, ids2));
            assert forall|x: u128| #[trigger] ids2.contains(x) implies !ids.contains(x) by {}
            lemma_docs_of_drop(st.0, ids, ids2);
            match op.entry {
                Some(e) => {
                    if e.docs@.len() > 0 {
                        assert(!ids2.contains(st.1)) by {
                            if ids2.contains(st.1) {
                                assert(st.1 < next_id);
                                assert(st.1 >= next_id);
                            }
                        }
                        lemma_docs_of_push(
                            drop_segments(st.0, ids),
                            StoreSegment { id: st.1, docs: e.docs },
                            ids2,
                        );
                    }
                },
                None => {},
            }
        }
    }
}


/// Dropping metadata entries by id keeps exactly the other ids.
proof fn lemma_drop_meta_ids(meta: Seq<Segment>, ids: Seq<u128>)
    ensures
        forall|x: u128| #[trigger] meta_ids(drop_meta(meta, ids)).contains(x) <==> (meta_ids(
            meta,
        ).contains(x) && !ids.contains(x)),
    decreases meta.len(),
{
    if meta.len() > 0 {
        lemma_drop_meta_ids(meta.drop_last(), ids);
        let d = drop_meta(meta, ids);
        let dp = drop_meta(meta.drop_last(), ids);
        assert forall|x: u128| #[trigger] meta_ids(d).contains(x) implies (meta_ids(meta).contains(
            x,
        ) && !ids.contains(x)) by {
            let p = choose|p: int| 0 <= p < meta_ids(d).len() && meta_ids(d)[p] == x;
            if p < dp.len() {
                assert(meta_ids(dp)[p] == x);
                assert(meta_ids(dp).contains(x));
                let q = choose|q: int|
                    0 <= q < meta_ids(meta.drop_last()).len() && meta_ids(meta.drop_last())[q]
                        == x;
                assert(meta_ids(meta)[q] == x);
            } else {
                assert(d[p] == meta.last());
                assert(meta_ids(meta)[meta.len() - 1] == x);
            }
        }
        assert forall|x: u128| meta_ids(meta).contains(x) && !ids.contains(x) implies meta_ids(
            d,
        ).contains(x) by {
            let p = choose|p: int| 0 <= p < meta_ids(meta).len() && meta_ids(meta)[p] == x;
            if p < meta.len() - 1 {
                assert(meta_ids(meta.drop_last())[p] == x);
                assert(meta_ids(meta.drop_last()).contains(x));
                assert(meta_ids(dp).contains(x));
                let q = choose|q: int| 0 <= q < meta_ids(dp).len() && meta_ids(dp)[q] == x;
                assert(meta_ids(d)[q] == x);
            } else {
                assert(meta.last().id == x);
                assert(d[d.len() - 1] == meta.last());
                assert(meta_ids(d)[d.len() - 1] == x);
            }
        }
    }
}

/// Dropping store segments by id keeps exactly the other ids.
proof fn lemma_drop_store_ids(segments: Seq<StoreSegment>, ids: Seq<u128>)
    ensures
        forall|x: u128| #[trigger] store_ids(drop_segments(segments, ids)).contains(x) <==> (
        store_ids(segments).contains(x) && !ids.contains(x)),
    decreases segments.len(),
{
    if segments.len() > 0 {
        lemma_drop_store_ids(segments.drop_last(), ids);
        let d = drop_segments(segments, ids);
        let dp = drop_segments(segments.drop_last(), ids);
        assert forall|x: u128| #[trigger] store_ids(d).contains(x) implies (store_ids(
            segments,
        ).contains(x) && !ids.contains(x)) by {
            let p = choose|p: int| 0 <= p < store_ids(d).len() && store_ids(d)[p] == x;
            if p < dp.len() {
                assert(store_ids(dp)[p] == x);
                assert(store_ids(dp).contains(x));
                let q = choose|q: int|
                    0 <= q < store_ids(segments.drop_last()).len() && store_ids(
                        segments.drop_last(),
                    )[q] == x;
                assert(store_ids(segments)[q] == x);
            } else {
                assert(d[p] == segments.last());
                assert(store_ids(segments)[segments.len() - 1] == x);
            }
        }
        assert forall|x: u128| store_ids(segments).contains(x) && !ids.contains(
            x,
        ) implies store_ids(d).contains(x) by {
            let p = choose|p: int| 0 <= p < store_ids(segments).len() && store_ids(segments)[p]
                == x;
            if p < segments.len() - 1 {
                assert(store_ids(segments.drop_last())[p] == x);
                assert(store_ids(segments.drop_last()).contains(x));
                assert(store_ids(dp).contains(x));
                let q = choose|q: int| 0 <= q < store_ids(dp).len() && store_ids(dp)[q] == x;
                assert(store_ids(d)[q] == x);
            } else {
                assert(segments.last().id == x);
                assert(d[d.len() - 1] == segments.last());
                assert(store_ids(d)[d.len() - 1] == x);
            }
        }
    }
}

impl InnerIndex {
    /// Removes the compacted segments from the metadata and records the
    /// merged one, which inherits the newest input creation time so that
    /// the time to live is not reset.
    pub fn update_meta_after_compaction(
        &mut self,
        old_segment_ids: &Vec<u128>,
        new_segment_id: u128,
        newest_creation_date: i64,
    )
        ensures
            final(self).meta.segments@ == drop_meta(
                old(self).meta.segments@,
                old_segment_ids@,
            ).push(Segment { id: new_segment_id, created: newest_creation_date }),
            final(self).index == old(self).index,
            final(self).write_ahead_log == old(self).write_ahead_log,
            final(self).has_inserts == old(self).has_inserts,
            final(self).ttl == old(self).ttl,
    {
        let mut kept: Vec<Segment> = Vec::new();
        let ghost meta0 = self.meta.segments@;
        let mut i: usize = 0;
        proof {
            assert(kept@ =~= drop_meta(meta0.take(0), old_segment_ids@));
        }
        while i < self.meta.segments.len()
            invariant
                0 <= i <= self.meta.segments@.len(),
                self.meta.segments@ == meta0,
                kept@ == drop_meta(meta0.take(i as int), old_segment_ids@),
            decreases self.meta.segments@.len() - i,
        {
            proof {
                assert(meta0.take(i + 1).drop_last() =~= meta0.take(i as int));
            }
            let s = self.meta.segments[i];
            if !contains_id(old_segment_ids, s.id) {
                kept.push(s);
                proof {
                    assert(kept@ =~= drop_meta(meta0.take(i + 1), old_segment_ids@));
                }
            } else {
                proof {
                    assert(kept@ =~= drop_meta(meta0.take(i + 1), old_segment_ids@));
                }
            }
            i = i + 1;
        }
        proof {
            assert(meta0.take(meta0.len() as int) =~= meta0);
        }
        kept.push(Segment { id: new_segment_id, created: newest_creation_date });
        self.meta.segments = kept;
    }

    /// Phase one of the date compaction: groups the metadata's segments by
    /// the day they were created and prepares one merge per group of two or
    /// more. Every day with at least two segments yields exactly one
    /// operation holding exactly that day's segments; days never repeat
    /// across operations, and nothing changes yet.
    #[verifier::rlimit(100)]
    pub fn start_compact_segments_by_date(&self) -> (ops: Vec<CompactOperation>)
        requires
            forall|i: int|
                0 <= i < self.meta.segments@.len() ==> (#[trigger] self.meta.segments@[i]).created
                    > i64::MIN,
        ensures
            ops@.len() <= self.meta.segments@.len(),
            forall|k: int|
                0 <= k < ops@.len() ==> {
                    let op = #[trigger] ops@[k];
                    &&& op.segments@.len() >= 2
                    &&& op.segments@ == segments_of_day(
                        self.meta.segments@,
                        day_of(op.segments@[0].created),
                    )
                    &&& op.merge_op.ids@ == meta_ids(op.segments@)
                    &&& (op.entry matches Some(e) ==> page_views(e.docs@) == page_views(
                        docs_of(self.index.segments@, op.merge_op.ids@),
                    ))
                    &&& (op.entry is None <==> docs_of(
                        self.index.segments@,
                        op.merge_op.ids@,
                    ).len() == 0)
                },
            forall|k: int, l: int|
                0 <= k < l < ops@.len() ==> day_of((#[trigger] ops@[k]).segments@[0].created)
                    != day_of((#[trigger] ops@[l]).segments@[0].created),
            forall|x: int|
                0 <= x < self.meta.segments@.len() && segments_of_day(
                    self.meta.segments@,
                    day_of((#[trigger] self.meta.segments@[x]).created),
                ).len() >= 2 ==> exists|k: int|
                    0 <= k < ops@.len() && (#[trigger] ops@[k]).segments@ == segments_of_day(
                        self.meta.segments@,
                        day_of(self.meta.segments@[x].created),
                    ),
    {
        let ghost meta = self.meta.segments@;
        let mut ops: Vec<CompactOperation> = Vec::new();
        let mut i: usize = 0;
        while i < self.meta.segments.len()
            invariant
                0 <= i <= self.meta.segments@.len(),
                meta == self.meta.segments@,
                ops@.len() <= i,
                forall|p: int|
                    0 <= p < meta.len() ==> (#[trigger] meta[p]).created > i64::MIN,
                forall|k: int|
                    0 <= k < ops@.len() ==> {
                        let op = #[trigger] ops@[k];
                        &&& op.segments@.len() >= 2
                        &&& op.segments@ == segments_of_day(
                            meta,
                            day_of(op.segments@[0].created),
                        )
                        &&& op.merge_op.ids@ == meta_ids(op.segments@)
                        &&& (op.entry matches Some(e) ==> page_views(e.docs@) == page_views(
                            docs_of(self.index.segments@, op.merge_op.ids@),
                        ))
                        &&& (op.entry is None <==> docs_of(
                            self.index.segments@,
                            op.merge_op.ids@,
                        ).len() == 0)
                    },
                forall|k: int|
                    0 <= k < ops@.len() ==> exists|idx: int|
                        0 <= idx < i && day_of((#[trigger] ops@[k]).segments@[0].created)
                            == day_of(meta[idx].created),
                forall|k: int, l: int|
                    0 <= k < l < ops@.len() ==> day_of((#[trigger] ops@[k]).segments@[0].created)
                        != day_of((#[trigger] ops@[l]).segments@[0].created),
                forall|x: int|
                    0 <= x < i && segments_of_day(
                        meta,
                        day_of((#[trigger] meta[x]).created),
                    ).len() >= 2 ==> exists|k: int|
                        0 <= k < ops@.len() && (#[trigger] ops@[k]).segments@ == segments_of_day(
                            meta,
                            day_of(meta[x].created),
                        ),
            decreases self.meta.segments@.len() - i,
        {
            let s = self.meta.segments[i];
            let day = day_bucket(s.created);
            let mut seen_before = false;
            let mut j: usize = 0;
            while j < i
                invariant
                    0 <= j <= i <= self.meta.segments@.len(),
                    meta == self.meta.segments@,
                    forall|p: int|
                        0 <= p < meta.len() ==> (#[trigger] meta[p]).created > i64::MIN,
                    day == day_of(s.created),
                    s == meta[i as int],
                    seen_before ==> exists|q: int|
                        0 <= q < i && day_of((#[trigger] meta[q]).created) == day,
                    !seen_before ==> forall|q: int|
                        0 <= q < j ==> day_of((#[trigger] meta[q]).created) != day,
                decreases i - j,
            {
                if day_bucket(self.meta.segments[j].created) == day {
                    seen_before = true;
                }
                j = j + 1;
            }
            if !seen_before {
                let mut group: Vec<Segment> = Vec::new();
                let mut k: usize = 0;
                proof {
                    assert(group@ =~= segments_of_day(meta.take(0), day as int));
                }
                while k < self.meta.segments.len()
                    invariant
                        0 <= k <= self.meta.segments@.len(),
                        meta == self.meta.segments@,
                        forall|p: int|
                            0 <= p < meta.len() ==> (#[trigger] meta[p]).created > i64::MIN,
                        day == day_of(s.created),
                        group@ == segments_of_day(meta.take(k as int), day as int),
                    decreases self.meta.segments@.len() - k,
                {
                    proof {
                        assert(meta.take(k + 1).drop_last() =~= meta.take(k as int));
                    }
                    let c = self.meta.segments[k];
                    if day_bucket(c.created) == day {
                        group.push(c);
                        proof {
                            assert(group@ =~= segments_of_day(meta.take(k + 1), day as int));
                        }
                    } else {
                        proof {
                            assert(group@ =~= segments_of_day(meta.take(k + 1), day as int));
                        }
                    }
                    k = k + 1;
                }
                proof {
                    assert(meta.take(meta.len() as int) =~= meta);
                    lemma_day_group(meta, day as int);
                }
                if group.len() >= 2 {
                    let mut ids: Vec<u128> = Vec::new();
                    let mut g: usize = 0;
                    proof {
                        assert(ids@ =~= meta_ids(group@.take(0)));
                    }
                    while g < group.len()
                        invariant
                            0 <= g <= group@.len(),
                            ids@ == meta_ids(group@.take(g as int)),
                        decreases group@.len() - g,
                    {
                        ids.push(group[g].id);
                        proof {
                            assert(meta_ids(group@.take(g + 1)) =~= meta_ids(
                                group@.take(g as int),
                            ).push(group@[g as int].id));
                        }
                        g = g + 1;
                    }
                    proof {
                        assert(group@.take(group@.len() as int) =~= group@);
                    }
                    let (entry, merge_op) = self.index.start_merge_segments_by_id(&ids);
                    let ghost ops0 = ops@;
                    ops.push(CompactOperation { segments: group, entry, merge_op });
                    proof {
                        assert(ops@.last().segments@[0] == segments_of_day(meta, day as int)[0]);
                        assert(day_of(ops@.last().segments@[0].created) == day as int);
                        assert forall|x: int|
                            0 <= x < i + 1 && segments_of_day(
                                meta,
                                day_of((#[trigger] meta[x]).created),
                            ).len() >= 2 implies exists|kk: int|
                            0 <= kk < ops@.len() && (#[trigger] ops@[kk]).segments@
                                == segments_of_day(meta, day_of(meta[x].created)) by {
                            if x == i {
                                assert(ops@[ops@.len() - 1].segments@ == segments_of_day(
                                    meta,
                                    day_of(meta[x].created),
                                ));
                            } else {
                                let kk = choose|kk: int|
                                    0 <= kk < ops0.len() && (#[trigger] ops0[kk]).segments@
                                        == segments_of_day(meta, day_of(meta[x].created));
                                assert(ops@[kk].segments@ == segments_of_day(
                                    meta,
                                    day_of(meta[x].created),
                                ));
                            }
                        }
                        assert forall|kk: int, l: int|
                            0 <= kk < l < ops@.len() implies day_of(
                            (#[trigger] ops@[kk]).segments@[0].created,
                        ) != day_of((#[trigger] ops@[l]).segments@[0].created) by {
                            if l == ops@.len() - 1 {
                                let idx = choose|idx: int|
                                    0 <= idx < i && day_of(
                                        (#[trigger] ops@[kk]).segments@[0].created,
                                    ) == day_of(meta[idx].created);
                                assert(day_of(meta[idx].created) != day as int);
                            } else {
                                assert(ops@[kk] == ops0[kk]);
                                assert(ops@[l] == ops0[l]);
                            }
                        }
                    }
                } else {
                    proof {
                        assert forall|x: int|
                            0 <= x < i + 1 && segments_of_day(
                                meta,
                                day_of((#[trigger] meta[x]).created),
                            ).len() >= 2 implies exists|kk: int|
                            0 <= kk < ops@.len() && (#[trigger] ops@[kk]).segments@
                                == segments_of_day(meta, day_of(meta[x].created)) by {
                            if x == i {
                                assert(segments_of_day(meta, day as int).len() < 2);
                            }
                        }
                    }
                }
            } else {
                proof {
                    let q = choose|q: int|
                        0 <= q < i && day_of((#[trigger] meta[q]).created) == day as int;
                    assert forall|x: int|
                        0 <= x < i + 1 && segments_of_day(
                            meta,
                            day_of((#[trigger] meta[x]).created),
                        ).len() >= 2 implies exists|kk: int|
                        0 <= kk < ops@.len() && (#[trigger] ops@[kk]).segments@
                            == segments_of_day(meta, day_of(meta[x].created)) by {
                        if x == i {
                            assert(segments_of_day(meta, day_of(meta[q].created)).len() >= 2);
                        }
                    }
                }
            }
            i = i + 1;
        }
        ops
    }
}

/// What phase one promises of its prepared operations against the
/// metadata and the store: one operation per day with two or more
/// segments, holding exactly that day's segments, their ids, and the
/// gathered documents; days never repeat.
pub open spec fn compaction_plan(
    meta: Seq<Segment>,
    store: Seq<StoreSegment>,
    ops: Seq<CompactOperation>,
) -> bool {
    &&& ops.len() <= meta.len()
    &&& (forall|k: int|
        0 <= k < ops.len() ==> {
            let op = #[trigger] ops[k];
            &&& op.segments@.len() >= 2
            &&& op.segments@ == segments_of_day(meta, day_of(op.segments@[0].created))
            &&& op.merge_op.ids@ == meta_ids(op.segments@)
            &&& (op.entry matches Some(e) ==> page_views(e.docs@) == page_views(
                docs_of(store, op.merge_op.ids@),
            ))
            &&& (op.entry is None <==> docs_of(store, op.merge_op.ids@).len() == 0)
        })
    &&& (forall|k: int, l: int|
        0 <= k < l < ops.len() ==> day_of((#[trigger] ops[k]).segments@[0].created) != day_of(
            (#[trigger] ops[l]).segments@[0].created,
        ))
    &&& (forall|x: int|
        0 <= x < meta.len() && segments_of_day(meta, day_of((#[trigger] meta[x]).created)).len()
            >= 2 ==> exists|k: int|
            0 <= k < ops.len() && (#[trigger] ops[k]).segments@ == segments_of_day(
                meta,
                day_of(meta[x].created),
            ))
}

/// The newest creation time of a non-empty group is one of its times.
proof fn lemma_max_created_in_range(segs: Seq<Segment>)
    requires
        segs.len() >= 1,
    ensures
        exists|k: int| 0 <= k < segs.len() && max_created(segs) == (#[trigger] segs[k]).created,
        i64::MIN <= max_created(segs) <= i64::MAX,
    decreases segs.len(),
{
    if segs.len() == 1 {
        assert(max_created(segs) == segs[0].created);
    } else {
        assert forall|i: int|
            0 <= i < segs.drop_last().len() implies (#[trigger] segs.drop_last()[i]).created
            == segs[i].created by {}
        lemma_max_created_in_range(segs.drop_last());
        if segs.last().created >= max_created(segs.drop_last()) {
            assert(max_created(segs) == segs[segs.len() - 1].created);
        } else {
            let k = choose|k: int|
                0 <= k < segs.drop_last().len() && max_created(segs.drop_last()) == (
                #[trigger] segs.drop_last()[k]).created;
            assert(max_created(segs) == segs[k].created);
        }
    }
}

/// What finishing one prepared compaction does to the store and the
/// metadata: the inputs leave both; when the merge carried documents, the
/// store gains one fresh segment with them and the metadata one entry with
/// the newest input creation time.
pub open spec fn end_one(
    store: Seq<StoreSegment>,
    next_id: u128,
    meta: Seq<Segment>,
    op: CompactOperation,
) -> (Seq<StoreSegment>, u128, Seq<Segment>) {
    let dropped = drop_segments(store, op.merge_op.ids@);
    let dropped_meta = drop_meta(meta, op.merge_op.ids@);
    match op.entry {
        Some(e) => if e.docs@.len() > 0 {
            (
                dropped.push(StoreSegment { id: next_id, docs: e.docs }),
                (next_id + 1) as u128,
                dropped_meta.push(
                    Segment { id: next_id, created: max_created(op.segments@) as i64 },
                ),
            )
        } else {
            (dropped, next_id, dropped_meta)
        },
        None => (dropped, next_id, dropped_meta),
    }
}

/// Finishing the prepared compactions one after the other, left to right.
pub open spec fn end_fold(
    store: Seq<StoreSegment>,
    next_id: u128,
    meta: Seq<Segment>,
    ops: Seq<CompactOperation>,
) -> (Seq<StoreSegment>, u128, Seq<Segment>)
    decreases ops.len(),
{
    if ops.len() == 0 {
        (store, next_id, meta)
    } else {
        let st = end_fold(store, next_id, meta, ops.drop_last());
        end_one(st.0, st.1, st.2, ops.last())
    }
}

impl InnerIndex {
    /// Phase two of the date compaction: finishes each prepared merge. In
    /// the metadata the inputs leave; where the merge produced a segment,
    /// it enters with the newest input creation time. When the metadata
    /// matched the store before, it still does after.
    pub fn end_compact_segments_by_date(&mut self, operations: Vec<CompactOperation>)
        requires
            old(self).index.wf(),
            old(self).index.next_id + operations@.len() <= u128::MAX,
            forall|k: int| 0 <= k < operations@.len() ==> {
                let op = #[trigger] operations@[k];
                op.segments@.len() >= 1 && op.merge_op.ids@ == meta_ids(op.segments@)
            },
        ensures
            final(self).index.wf(),
            final(self).write_ahead_log == old(self).write_ahead_log,
            final(self).has_inserts == old(self).has_inserts,
            final(self).ttl == old(self).ttl,
            (final(self).index.segments@, final(self).index.next_id, final(self).meta.segments@)
                == end_fold(
                old(self).index.segments@,
                old(self).index.next_id,
                old(self).meta.segments@,
                operations@,
            ),
            (forall|x: u128|
                meta_ids(old(self).meta.segments@).contains(x) <==> store_ids(
                    old(self).index.segments@,
                ).contains(x)) ==> (forall|x: u128|
                meta_ids(final(self).meta.segments@).contains(x) <==> store_ids(
                    final(self).index.segments@,
                ).contains(x)),
    {
        let ghost matched0 = forall|x: u128|
            meta_ids(old(self).meta.segments@).contains(x) <==> store_ids(
                old(self).index.segments@,
            ).contains(x);
        let ghost ops0 = operations@;
        let mut operations = operations;
        let ghost i: int = 0;
        proof {
            assert(operations@ =~= ops0.skip(0));
        }
        while operations.len() > 0
            invariant
                0 <= i <= ops0.len(),
                operations@ == ops0.skip(i),
                self.index.wf(),
                self.index.next_id + operations@.len() <= u128::MAX,
                self.write_ahead_log == old(self).write_ahead_log,
                self.has_inserts == old(self).has_inserts,
                self.ttl == old(self).ttl,
                forall|k: int| 0 <= k < ops0.len() ==> {
                    let op = #[trigger] ops0[k];
                    op.segments@.len() >= 1 && op.merge_op.ids@ == meta_ids(op.segments@)
                },
                (self.index.segments@, self.index.next_id, self.meta.segments@) == end_fold(
                    old(self).index.segments@,
                    old(self).index.next_id,
                    old(self).meta.segments@,
                    ops0.take(i),
                ),
                matched0 == (forall|x: u128|
                    meta_ids(old(self).meta.segments@).contains(x) <==> store_ids(
                        old(self).index.segments@,
                    ).contains(x)),
                matched0 ==> (forall|x: u128|
                    meta_ids(self.meta.segments@).contains(x) <==> store_ids(
                        self.index.segments@,
                    ).contains(x)),
            decreases operations@.len(),
        {
            let ghost opsrest = operations@;
            let op = operations.remove(0);
            let ghost opg = ops0[i];
            proof {
                assert(opsrest[0] == ops0.skip(i)[0]);
                assert(op == opg);
                assert(operations@ =~= ops0.skip(i + 1));
                assert(ops0.take(i + 1).drop_last() =~= ops0.take(i));
                assert(ops0.take(i + 1).last() == opg);
                assert(opg.segments@.len() >= 1);
                lemma_max_created_in_range(opg.segments@);
            }
            let newest = max_created_of(&op.segments);
            let ids = copy_op_ids(&op.merge_op.ids);
            let ghost meta_before = self.meta.segments@;
            let ghost store_before = self.index.segments@;
            let ghost idsg = ids@;
            let ghost nid_before = self.index.next_id;
            let result = op.end(&mut self.index);
            proof {
                lemma_drop_meta_ids(meta_before, idsg);
                lemma_drop_store_ids(store_before, idsg);
            }
            match result {
                Some(new_segment_id) => {
                    self.update_meta_after_compaction(&ids, new_segment_id, newest);
                    proof {
                        assert(self.index.segments@ =~= drop_segments(store_before, idsg).push(
                            self.index.segments@.last(),
                        ));
                        assert((max_created(opg.segments@) as i64) == newest);
                        assert((self.index.segments@, self.index.next_id, self.meta.segments@)
                            == end_one(store_before, nid_before, meta_before, opg));
                        assert((self.index.segments@, self.index.next_id, self.meta.segments@)
                            == end_fold(
                            old(self).index.segments@,
                            old(self).index.next_id,
                            old(self).meta.segments@,
                            ops0.take(i + 1),
                        ));
                        if matched0 {
                            assert forall|x: u128|
                                meta_ids(self.meta.segments@).contains(x) <==> store_ids(
                                    self.index.segments@,
                                ).contains(x) by {
                                let m = self.index.segments@.last();
                                assert(self.index.segments@ =~= drop_segments(
                                    store_before,
                                    idsg,
                                ).push(m));
                                assert(m.id == new_segment_id);
                                lemma_push_id(
                                    drop_meta(meta_before, idsg),
                                    Segment { id: new_segment_id, created: newest },
                                    x,
                                );
                                lemma_push_store_id(drop_segments(store_before, idsg), m, x);
                                assert(meta_ids(meta_before).contains(x) <==> store_ids(
                                    store_before,
                                ).contains(x));
                            }
                        }
                    }
                },
                None => {
                    self.drop_meta_only(&ids);
                    proof {
                        assert((self.index.segments@, self.index.next_id, self.meta.segments@)
                            == end_one(store_before, nid_before, meta_before, opg));
                        assert((self.index.segments@, self.index.next_id, self.meta.segments@)
                            == end_fold(
                            old(self).index.segments@,
                            old(self).index.next_id,
                            old(self).meta.segments@,
                            ops0.take(i + 1),
                        ));
                        if matched0 {
                            assert forall|x: u128|
                                meta_ids(self.meta.segments@).contains(x) <==> store_ids(
                                    self.index.segments@,
                                ).contains(x) by {
                                assert(meta_ids(self.meta.segments@).contains(x) <==> (meta_ids(
                                    meta_before,
                                ).contains(x) && !idsg.contains(x)));
                                assert(store_ids(self.index.segments@).contains(x) <==> (
                                store_ids(store_before).contains(x) && !idsg.contains(x)));
                                assert(meta_ids(meta_before).contains(x) <==> store_ids(
                                    store_before,
                                ).contains(x));
                            }
                        }
                    }
                },
            }
            proof {
                i = i + 1;
            }
        }
        proof {
            assert(ops0.take(ops0.len() as int) =~= ops0);
        }
        self.index.re_open();
    }

    /// Removes the listed ids from the metadata without adding anything; a
    /// merge that left no documents behind ends this way.
    fn drop_meta_only(&mut self, ids: &Vec<u128>)
        ensures
            final(self).meta.segments@ == drop_meta(old(self).meta.segments@, ids@),
            final(self).index == old(self).index,
            final(self).write_ahead_log == old(self).write_ahead_log,
            final(self).has_inserts == old(self).has_inserts,
            final(self).ttl == old(self).ttl,
    {
        let mut kept: Vec<Segment> = Vec::new();
        let ghost meta0 = self.meta.segments@;
        let mut i: usize = 0;
        proof {
            assert(kept@ =~= drop_meta(meta0.take(0), ids@));
        }
        while i < self.meta.segments.len()
            invariant
                0 <= i <= self.meta.segments@.len(),
                self.meta.segments@ == meta0,
                kept@ == drop_meta(meta0.take(i as int), ids@),
            decreases self.meta.segments@.len() - i,
        {
            proof {
                assert(meta0.take(i + 1).drop_last() =~= meta0.take(i as int));
            }
            let s = self.meta.segments[i];
            if !contains_id(ids, s.id) {
                kept.push(s);
            }
            proof {
                assert(kept@ =~= drop_meta(meta0.take(i + 1), ids@));
            }
            i = i + 1;
        }
        proof {
            assert(meta0.take(meta0.len() as int) =~= meta0);
        }
        self.meta.segments = kept;
    }

    /// Both phases of the date compaction, back to back: some plan covering
    /// every day with two or more segments was prepared and then carried
    /// out in order, so every compactable day was merged, the inputs left
    /// the store and the metadata, and each merged segment entered with
    /// the newest input creation time.
    pub fn compact_segments_by_date(&mut self)
        requires
            old(self).index.wf(),
            old(self).index.next_id + old(self).meta.segments@.len() <= u128::MAX,
            forall|i: int|
                0 <= i < old(self).meta.segments@.len() ==> (#[trigger] old(
                    self,
                ).meta.segments@[i]).created > i64::MIN,
        ensures
            final(self).index.wf(),
            final(self).write_ahead_log == old(self).write_ahead_log,
            final(self).has_inserts == old(self).has_inserts,
            final(self).ttl == old(self).ttl,
            exists|ops: Seq<CompactOperation>|
                compaction_plan(old(self).meta.segments@, old(self).index.segments@, ops) && (
                final(self).index.segments@,
                final(self).index.next_id,
                final(self).meta.segments@,
                ) == #[trigger] end_fold(
                    old(self).index.segments@,
                    old(self).index.next_id,
                    old(self).meta.segments@,
                    ops,
                ),
            meta_distinct_and_stale(old(self).meta.segments@, old(self).index.next_id)
                ==> page_views(searchable_docs(final(self).index.segments@)).to_multiset()
                == page_views(searchable_docs(old(self).index.segments@)).to_multiset(),
            (forall|x: u128|
                meta_ids(old(self).meta.segments@).contains(x) <==> store_ids(
                    old(self).index.segments@,
                ).contains(x)) ==> (forall|x: u128|
                meta_ids(final(self).meta.segments@).contains(x) <==> store_ids(
                    final(self).index.segments@,
                ).contains(x)),
    {
        let operations = self.start_compact_segments_by_date();
        let ghost ops = operations@;
        proof {
            assert(compaction_plan(self.meta.segments@, self.index.segments@, ops));
        }
        self.end_compact_segments_by_date(operations);
        proof {
            assert((self.index.segments@, self.index.next_id, self.meta.segments@) == end_fold(
                old(self).index.segments@,
                old(self).index.next_id,
                old(self).meta.segments@,
                ops,
            ));
            if meta_distinct_and_stale(old(self).meta.segments@, old(self).index.next_id) {
                let meta0 = old(self).meta.segments@;
                let store0 = old(self).index.segments@;
                let nid0 = old(self).index.next_id;
                assert forall|k: int, x: u128|
                    0 <= k < ops.len() && #[trigger] ops[k].merge_op.ids@.contains(
                        x,
                    ) implies x < nid0 by {
                    assert(ops[k].merge_op.ids@ == meta_ids(ops[k].segments@));
                    assert(ops[k].segments@ == segments_of_day(
                        meta0,
                        day_of(ops[k].segments@[0].created),
                    ));
                    lemma_group_ids_in_meta(meta0, day_of(ops[k].segments@[0].created));
                    let i = choose|i: int|
                        0 <= i < meta0.len() && (#[trigger] meta0[i]).id == x && day_of(
                            meta0[i].created,
                        ) == day_of(ops[k].segments@[0].created);
                    assert(meta0[i].id < nid0);
                }
                assert forall|k: int, l: int, x: u128|
                    0 <= k < ops.len() && 0 <= l < ops.len() && k != l
                        && #[trigger] ops[k].merge_op.ids@.contains(x) implies !(
                #[trigger] ops[l].merge_op.ids@.contains(x)) by {
                    let dk = day_of(ops[k].segments@[0].created);
                    let dl = day_of(ops[l].segments@[0].created);
                    assert(dk != dl);
                    lemma_group_ids_disjoint(meta0, dk, dl);
                }
                lemma_end_fold_preserves_searchable(store0, nid0, meta0, ops);
            }
        }
    }
}

/// The newest creation time in a non-empty group.
pub fn max_created_of(segs: &Vec<Segment>) -> (r: i64)
    requires
        segs@.len() >= 1,
    ensures
        r as int == max_created(segs@),
{
    let mut r: i64 = segs[0].created;
    let mut i: usize = 1;
    while i < segs.len()
        invariant
            1 <= i <= segs@.len(),
            r as int == max_created(segs@.take(i as int)),
        decreases segs@.len() - i,
    {
        proof {
            assert(segs@.take(i + 1).drop_last() =~= segs@.take(i as int));
        }
        if segs[i].created >= r {
            r = segs[i].created;
        }
        i = i + 1;
    }
    proof {
        assert(segs@.take(segs@.len() as int) =~= segs@);
    }
    r
}

/// Copies the id list of a merge operation.
fn copy_op_ids(v: &Vec<u128>) -> (r: Vec<u128>)
    ensures
        r@ == v@,
{
    let mut r: Vec<u128> = Vec::new();
    let mut i: usize = 0;
    while i < v.len()
        invariant
            0 <= i <= v@.len(),
            r@ == v@.take(i as int),
        decreases v@.len() - i,
    {
        r.push(v[i]);
        proof {
            assert(v@.take(i + 1) =~= v@.take(i as int).push(v@[i as int]));
        }
        i = i + 1;
    }
    proof {
        assert(v@.take(v@.len() as int) =~= v@);
    }
    r
}

/// Pushing one metadata segment adds exactly its id.
proof fn lemma_push_id(meta: Seq<Segment>, s: Segment, x: u128)
    ensures
        meta_ids(meta.push(s)).contains(x) <==> (meta_ids(meta).contains(x) || x == s.id),
{
    assert(meta_ids(meta.push(s)) =~= meta_ids(meta).push(s.id));
    if meta_ids(meta).contains(x) {
        let k = choose|k: int| 0 <= k < meta_ids(meta).len() && meta_ids(meta)[k] == x;
        assert(meta_ids(meta).push(s.id)[k] == x);
    }
    if x == s.id {
        assert(meta_ids(meta).push(s.id)[meta.len() as int] == x);
    }
    if meta_ids(meta.push(s)).contains(x) {
        let k = choose|k: int|
            0 <= k < meta_ids(meta.push(s)).len() && meta_ids(meta.push(s))[k] == x;
        if k < meta.len() {
            assert(meta_ids(meta)[k] == x);
        }
    }
}

/// Pushing one store segment adds exactly its id.
proof fn lemma_push_store_id(segments: Seq<StoreSegment>, s: StoreSegment, x: u128)
    ensures
        store_ids(segments.push(s)).contains(x) <==> (store_ids(segments).contains(x) || x
            == s.id),
{
    assert(store_ids(segments.push(s)) =~= store_ids(segments).push(s.id));
    if store_ids(segments).contains(x) {
        let k = choose|k: int| 0 <= k < store_ids(segments).len() && store_ids(segments)[k] == x;
        assert(store_ids(segments).push(s.id)[k] == x);
    }
    if x == s.id {
        assert(store_ids(segments).push(s.id)[segments.len() as int] == x);
    }
    if store_ids(segments.push(s)).contains(x) {
        let k = choose|k: int|
            0 <= k < store_ids(segments.push(s)).len() && store_ids(segments.push(s))[k] == x;
        if k < segments.len() {
            assert(store_ids(segments)[k] == x);
        }
    }
}

/// Compaction preserves what can be searched: merging segments and putting
/// their gathered documents back as one fresh segment leaves the multiset
/// of searchable documents unchanged.
pub proof fn lemma_compaction_preserves_searchable(
    before: Seq<StoreSegment>,
    after: Seq<StoreSegment>,
    ids: Seq<u128>,
    entry_docs: Seq<IndexablePage>,
)
    requires
        page_views(entry_docs) == page_views(docs_of(before, ids)),
        after.len() == drop_segments(before, ids).len() + 1,
        after.take(drop_segments(before, ids).len() as int) == drop_segments(before, ids),
        after.last().docs@ == entry_docs,
    ensures
        page_views(searchable_docs(after)).to_multiset() == page_views(
            searchable_docs(before),
        ).to_multiset(),
{
    let dropped = drop_segments(before, ids);
    assert(after.drop_last() =~= dropped);
    assert(searchable_docs(after) == searchable_docs(dropped) + entry_docs);
    assert(page_views(searchable_docs(dropped) + entry_docs) =~= page_views(
        searchable_docs(dropped),
    ) + page_views(entry_docs));
    vstd::seq_lib::lemma_multiset_commutative(
        page_views(searchable_docs(dropped)),
        page_views(entry_docs),
    );
    lemma_split_searchable(before, ids);
    vstd::seq_lib::lemma_multiset_commutative(
        page_views(searchable_docs(dropped)),
        page_views(docs_of(before, ids)),
    );
}

/// The searchable documents split into the dropped segments' documents and
/// the gathered ones, as multisets.
proof fn lemma_split_searchable(segments: Seq<StoreSegment>, ids: Seq<u128>)
    ensures
        page_views(searchable_docs(segments)).to_multiset() == (page_views(
            searchable_docs(drop_segments(segments, ids)),
        ) + page_views(docs_of(segments, ids))).to_multiset(),
    decreases segments.len(),
{
    if segments.len() == 0 {
        assert(page_views(searchable_docs(segments)) =~= Seq::<(Seq<u8>, Seq<u8>)>::empty());
        assert(page_views(searchable_docs(drop_segments(segments, ids))) + page_views(
            docs_of(segments, ids),
        ) =~= Seq::<(Seq<u8>, Seq<u8>)>::empty());
    } else {
        lemma_split_searchable(segments.drop_last(), ids);
        let prev = segments.drop_last();
        let last = segments.last();
        let sd = page_views(searchable_docs(prev));
        let dd = page_views(searchable_docs(drop_segments(prev, ids)));
        let gg = page_views(docs_of(prev, ids));
        let ld = page_views(last.docs@);
        assert(page_views(searchable_docs(segments)) =~= sd + ld);
        vstd::seq_lib::lemma_multiset_commutative(sd, ld);
        vstd::seq_lib::lemma_multiset_commutative(dd, gg);
        if ids.contains(last.id) {
            assert(page_views(searchable_docs(drop_segments(segments, ids))) =~= dd);
            assert(page_views(docs_of(segments, ids)) =~= gg + ld);
            vstd::seq_lib::lemma_multiset_commutative(gg, ld);
            vstd::seq_lib::lemma_multiset_commutative(dd, gg + ld);
            assert(page_views(searchable_docs(segments)).to_multiset() =~= (page_views(
                searchable_docs(drop_segments(segments, ids)),
            ) + page_views(docs_of(segments, ids))).to_multiset());
        } else {
            assert(drop_segments(segments, ids).drop_last() =~= drop_segments(prev, ids));
            assert(drop_segments(segments, ids).last() == last);
            assert(searchable_docs(drop_segments(segments, ids)) == searchable_docs(
                drop_segments(prev, ids),
            ) + last.docs@);
            assert(page_views(searchable_docs(drop_segments(segments, ids))) =~= dd + ld);
            assert(page_views(docs_of(segments, ids)) =~= gg);
            vstd::seq_lib::lemma_multiset_commutative(dd, ld);
            vstd::seq_lib::lemma_multiset_commutative(dd + ld, gg);
            assert(page_views(searchable_docs(segments)).to_multiset() =~= (page_views(
                searchable_docs(drop_segments(segments, ids)),
            ) + page_views(docs_of(segments, ids))).to_multiset());
        }
    }
}

/// After a prune at time `now` with time to live `ttl`, a segment whose
/// age had passed the time to live is listed neither by the store nor by
/// the metadata.
pub proof fn lemma_prune_removes_expired(
    meta: Seq<Segment>,
    store: Seq<StoreSegment>,
    ttl: i64,
    now: i64,
    s: Segment,
)
    requires
        meta.contains(s),
        s.created + ttl < now,
    ensures
        !store_ids(drop_segments(store, expired_ids(meta, ttl, now))).contains(s.id),
        !meta_ids(
            synced_meta(meta, store_ids(drop_segments(store, expired_ids(meta, ttl, now))), now),
        ).contains(s.id),
{
    lemma_expired_contains(meta, ttl, now, s);
    lemma_drop_store_ids(store, expired_ids(meta, ttl, now));
    let ids2 = store_ids(drop_segments(store, expired_ids(meta, ttl, now)));
    assert(!ids2.contains(s.id));
    lemma_sync_reconciles(meta, ids2, now);
    assert(!meta_ids(synced_meta(meta, ids2, now)).contains(s.id));
}

proof fn lemma_expired_contains(meta: Seq<Segment>, ttl: i64, now: i64, s: Segment)
    requires
        meta.contains(s),
        s.created + ttl < now,
    ensures
        expired_ids(meta, ttl, now).contains(s.id),
    decreases meta.len(),
{
    if meta.len() > 0 {
        if meta.last() == s {
            let ex = expired_ids(meta, ttl, now);
            assert(ex[ex.len() - 1] == s.id);
        } else {
            let k = choose|k: int| 0 <= k < meta.len() && meta[k] == s;
            assert(meta.drop_last()[k] == s);
            assert(meta.drop_last().contains(s));
            lemma_expired_contains(meta.drop_last(), ttl, now, s);
            let exp = expired_ids(meta.drop_last(), ttl, now);
            let p = choose|p: int| 0 <= p < exp.len() && exp[p] == s.id;
            assert(expired_ids(meta, ttl, now)[p] == s.id);
        }
    }
}

/// Relies on chrono's `Utc::now` for the wall clock: seconds since the
/// epoch, as the metadata's creation times are kept. Nothing more is
/// assumed of it; every caller states what holds whatever time comes back.
#[verifier::external_body]
fn now_timestamp() -> i64 {
    chrono::Utc::now().timestamp()
}

impl InnerIndex {
    /// Prunes against the wall clock. Whatever the clock says, afterwards
    /// the metadata lists exactly the store's segments, and the log is
    /// untouched.
    pub fn prune_segments_now(&mut self)
        requires
            forall|i: int|
                0 <= i < old(self).meta.segments@.len() ==> i64::MIN <= (#[trigger] old(
                    self,
                ).meta.segments@[i]).created + old(self).ttl <= i64::MAX,
        ensures
            final(self).write_ahead_log == old(self).write_ahead_log,
            final(self).has_inserts == old(self).has_inserts,
            final(self).ttl == old(self).ttl,
            old(self).index.wf() ==> final(self).index.wf(),
            forall|x: u128|
                meta_ids(final(self).meta.segments@).contains(x) <==> store_ids(
                    final(self).index.segments@,
                ).contains(x),
    {
        let now = now_timestamp();
        self.prune_segments(now);
    }

    /// Commits against the wall clock: the segment the store gains does not
    /// depend on the time, only the fresh metadata entry's creation time
    /// does. Whatever the clock says, afterwards the log is empty and the
    /// metadata lists exactly the store's segments.
    pub fn commit_now(&mut self)
        requires
            old(self).index.wf(),
            old(self).index.next_id < u128::MAX,
            old(self).index.pending@.len() == 0,
        ensures
            final(self).index.wf(),
            final(self).write_ahead_log@.len() == 0,
            !final(self).has_inserts,
            final(self).ttl == old(self).ttl,
            dedup_lww(old(self).write_ahead_log@).len() == 0 ==> final(self).index.segments
                == old(self).index.segments,
            dedup_lww(old(self).write_ahead_log@).len() > 0 ==> {
                &&& final(self).index.segments@.len() == old(self).index.segments@.len() + 1
                &&& final(self).index.segments@.take(old(self).index.segments@.len() as int)
                    == old(self).index.segments@
                &&& final(self).index.segments@.last().docs@ == dedup_lww(
                    old(self).write_ahead_log@,
                )
                &&& final(self).index.segments@.last().id == old(self).index.next_id
            },
            forall|x: u128|
                meta_ids(final(self).meta.segments@).contains(x) <==> store_ids(
                    final(self).index.segments@,
                ).contains(x),
    {
        let now = now_timestamp();
        self.commit(now);
    }
}

} // verus!
