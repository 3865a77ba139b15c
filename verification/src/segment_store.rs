use vstd::prelude::*;
use crate::types::ShardId;

verus! {

/// A page handed to the live index: its URL and its indexable payload.
#[derive(Debug)]
pub struct IndexablePage {
    pub url: Vec<u8>,
    pub payload: Vec<u8>,
}

impl Clone for IndexablePage {
    fn clone(&self) -> (r: Self)
        ensures
            r.url@ == self.url@,
            r.payload@ == self.payload@,
    {
        IndexablePage { url: copy_bytes(&self.url), payload: copy_bytes(&self.payload) }
    }
}

/// Copies a byte vector.
fn copy_bytes(v: &Vec<u8>) -> (r: Vec<u8>)
    ensures
        r@ == v@,
{
    let mut r: Vec<u8> = Vec::new();
    let mut i: usize = 0;
    while i < v.len()
        invariant
            0 <= i <= v@.len(),
            r@ == v@.take(i as int),
        decreases v@.len() - i,
    {
        r.push(v[i]);
        proof {
            assert(v@.take(i + 1) =~= v@.take(i as int).push(v@[i as int]));
        }
        i = i + 1;
    }
    proof {
        assert(v@.take(v@.len() as int) =~= v@);
    }
    r
}

/// Copies a list of pages.
pub fn copy_pages(v: &Vec<IndexablePage>) -> (r: Vec<IndexablePage>)
    ensures
        r@.len() == v@.len(),
        forall|i: int| 0 <= i < v@.len() ==> (#[trigger] r@[i]).url@ == v@[i].url@ && r@[
            i
        ].payload@ == v@[i].payload@,
{
    let mut r: Vec<IndexablePage> = Vec::new();
    let mut i: usize = 0;
    while i < v.len()
        invariant
            0 <= i <= v@.len(),
            r@.len() == i,
            forall|k: int| 0 <= k < i ==> (#[trigger] r@[k]).url@ == v@[k].url@ && r@[k].payload@
                == v@[k].payload@,
        decreases v@.len() - i,
    {
        r.push(v[i].clone());
        i = i + 1;
    }
    r
}

/// One committed segment of the store: its id and its documents.
#[derive(Debug)]
pub struct StoreSegment {
    pub id: u128,
    pub docs: Vec<IndexablePage>,
}

/// The documents a merge will carry into the merged segment.
#[derive(Debug)]
pub struct SegmentEntry {
    pub docs: Vec<IndexablePage>,
}

/// A prepared merge: the ids of the segments it will replace.
#[derive(Debug)]
pub struct MergeOperation {
    pub ids: Vec<u128>,
}

/// The ids of the store's segments, in store order.
pub open spec fn store_ids(segments: Seq<StoreSegment>) -> Seq<u128> {
    segments.map_values(|s: StoreSegment| s.id)
}

/// The segments kept after deleting a set of ids.
pub open spec fn drop_segments(segments: Seq<StoreSegment>, ids: Seq<u128>) -> Seq<StoreSegment>
    decreases segments.len(),
{
    if segments.len() == 0 {
        Seq::empty()
    } else {
        drop_segments(segments.drop_last(), ids) + if ids.contains(segments.last().id) {
            Seq::empty()
        } else {
            seq![segments.last()]
        }
    }
}

/// The documents of the segments whose id is in `ids`, concatenated in
/// store order.
pub open spec fn docs_of(segments: Seq<StoreSegment>, ids: Seq<u128>) -> Seq<IndexablePage>
    decreases segments.len(),
{
    if segments.len() == 0 {
        Seq::empty()
    } else {
        docs_of(segments.drop_last(), ids) + if ids.contains(segments.last().id) {
            segments.last().docs@
        } else {
            Seq::empty()
        }
    }
}

/// Every document of every segment, in store order; what a search can see.
pub open spec fn searchable_docs(segments: Seq<StoreSegment>) -> Seq<IndexablePage>
    decreases segments.len(),
{
    if segments.len() == 0 {
        Seq::empty()
    } else {
        searchable_docs(segments.drop_last()) + segments.last().docs@
    }
}

/// The segment store the live index owns: committed segments, plus the
/// documents inserted since the last commit. It realizes the contract the
/// live index asks of its inverted index.
#[derive(Debug)]
pub struct SegmentStore {
    pub shard_id: Option<ShardId>,
    pub segments: Vec<StoreSegment>,
    pub pending: Vec<IndexablePage>,
    pub next_id: u128,
}

impl SegmentStore {
    /// Segment ids are unique and `next_id` is fresher than all of them.
    pub open spec fn wf(self) -> bool {
        &&& forall|i: int, j: int|
            0 <= i < j < self.segments@.len() ==> self.segments@[i].id != self.segments@[j].id
        &&& forall|i: int|
            0 <= i < self.segments@.len() ==> (#[trigger] self.segments@[i]).id < self.next_id
    }

    pub fn new() -> (r: Self)
        ensures
            r.wf(),
            r.shard_id is None,
            r.segments@.len() == 0,
            r.pending@.len() == 0,
    {
        SegmentStore { shard_id: None, segments: Vec::new(), pending: Vec::new(), next_id: 0 }
    }

    pub fn set_shard_id(&mut self, shard_id: ShardId)
        ensures
            final(self).shard_id == Some(shard_id),
            final(self).segments == old(self).segments,
            final(self).pending == old(self).pending,
            final(self).next_id == old(self).next_id,
            old(self).wf() ==> final(self).wf(),
    {
        self.shard_id = Some(shard_id);
    }

    /// Buffers one document for the next commit.
    pub fn insert(&mut self, doc: IndexablePage)
        ensures
            final(self).pending@ == old(self).pending@.push(doc),
            final(self).segments == old(self).segments,
            final(self).next_id == old(self).next_id,
            final(self).shard_id == old(self).shard_id,
            old(self).wf() ==> final(self).wf(),
    {
        self.pending.push(doc);
    }

    /// Commits the buffered documents into one fresh segment; with nothing
    /// buffered, nothing changes.
    pub fn commit(&mut self)
        requires
            old(self).wf(),
            old(self).next_id < u128::MAX,
        ensures
            final(self).wf(),
            final(self).pending@.len() == 0,
            final(self).shard_id == old(self).shard_id,
            old(self).pending@.len() == 0 ==> final(self).segments == old(self).segments
                && final(self).next_id == old(self).next_id,
            old(self).pending@.len() > 0 ==> {
                &&& final(self).segments@.len() == old(self).segments@.len() + 1
                &&& final(self).segments@.take(old(self).segments@.len() as int) == old(
                    self,
                ).segments@
                &&& final(self).segments@.last().id == old(self).next_id
                &&& final(self).segments@.last().docs@ == old(self).pending@
                &&& final(self).next_id == old(self).next_id + 1
            },
    {
        if self.pending.len() == 0 {
            return ;
        }
        let mut docs: Vec<IndexablePage> = Vec::new();
        core_swap_pages(&mut self.pending, &mut docs);
        let id = self.next_id;
        self.segments.push(StoreSegment { id, docs });
        self.next_id = self.next_id + 1;
        proof {
            assert(self.segments@.take(old(self).segments@.len() as int) =~= old(self).segments@);
            assert forall|i: int, j: int|
                0 <= i < j < self.segments@.len() implies self.segments@[i].id
                != self.segments@[j].id by {
                if j < self.segments@.len() - 1 {
                    assert(self.segments@[i] == old(self).segments@[i]);
                    assert(self.segments@[j] == old(self).segments@[j]);
                } else {
                    assert(self.segments@[i] == old(self).segments@[i]);
                    assert(self.segments@[j].id == old(self).next_id);
                }
            }
        }
    }

    /// The ids of the committed segments.
    pub fn segment_ids(&self) -> (r: Vec<u128>)
        ensures
            r@ == store_ids(self.segments@),
    {
        let mut r: Vec<u128> = Vec::new();
        let mut i: usize = 0;
        proof {
            assert(r@ =~= store_ids(self.segments@.take(0)));
        }
        while i < self.segments.len()
            invariant
                0 <= i <= self.segments@.len(),
                r@ == store_ids(self.segments@.take(i as int)),
            decreases self.segments@.len() - i,
        {
            r.push(self.segments[i].id);
            proof {
                assert(store_ids(self.segments@.take(i + 1)) =~= store_ids(
                    self.segments@.take(i as int),
                ).push(self.segments@[i as int].id));
            }
            i = i + 1;
        }
        proof {
            assert(self.segments@.take(self.segments@.len() as int) =~= self.segments@);
        }
        r
    }

    /// Deletes every segment whose id is listed.
    pub fn delete_segments_by_id(&mut self, ids: &Vec<u128>)
        ensures
            final(self).segments@ == drop_segments(old(self).segments@, ids@),
            final(self).pending == old(self).pending,
            final(self).next_id == old(self).next_id,
            final(self).shard_id == old(self).shard_id,
            old(self).wf() ==> final(self).wf(),
    {
        let mut kept: Vec<StoreSegment> = Vec::new();
        let mut rest: Vec<StoreSegment> = Vec::new();
        core::mem::swap(&mut self.segments, &mut rest);
        let ghost before = rest@;
        let ghost i: int = 0;
        proof {
            assert(kept@ =~= drop_segments(before.take(0), ids@));
            assert(rest@ =~= before.skip(0));
        }
        while rest.len() > 0
            invariant
                0 <= i <= before.len(),
                rest@ == before.skip(i),
                kept@ == drop_segments(before.take(i), ids@),
            decreases rest@.len(),
        {
            let seg = rest.remove(0);
            proof {
                assert(seg == before[i]);
                assert(rest@ =~= before.skip(i + 1));
                assert(before.take(i + 1).drop_last() =~= before.take(i));
                assert(before.take(i + 1).last() == before[i]);
            }
            let present = contains_id(ids, seg.id);
            if !present {
                kept.push(seg);
            }
            proof {
                assert(kept@ =~= drop_segments(before.take(i + 1), ids@));
                i = i + 1;
            }
        }
        proof {
            assert(before.take(before.len() as int) =~= before);
            assert(i == before.len());
        }
        self.segments = kept;
        proof {
            if old(self).wf() {
                lemma_drop_unique(before, ids@);
                lemma_drop_segments_sub(before, ids@);
                assert forall|p: int|
                    0 <= p < self.segments@.len() implies (#[trigger] self.segments@[p]).id
                    < self.next_id by {
                    assert(before.contains(self.segments@[p]));
                    let k = choose|k: int| 0 <= k < before.len() && before[k] == self.segments@[p];
                    assert(before[k].id < self.next_id);
                }
            }
        }
    }
}

/// Whether the id list holds this id.
pub fn contains_id(ids: &Vec<u128>, id: u128) -> (r: bool)
    ensures
        r == ids@.contains(id),
{
    let mut i: usize = 0;
    while i < ids.len()
        invariant
            0 <= i <= ids@.len(),
            forall|k: int| 0 <= k < i ==> ids@[k] != id,
        decreases ids@.len() - i,
    {
        if ids[i] == id {
            return true;
        }
        i = i + 1;
    }
    false
}

/// Every kept segment occurs in the store as it was before the deletion,
/// with everything that entails for its id and documents.
proof fn lemma_drop_segments_sub(segments: Seq<StoreSegment>, ids: Seq<u128>)
    ensures
        forall|i: int| 0 <= i < drop_segments(segments, ids).len() ==> segments.contains(
            #[trigger] drop_segments(segments, ids)[i],
        ),
    decreases segments.len(),
{
    if segments.len() > 0 {
        lemma_drop_segments_sub(segments.drop_last(), ids);
        let d = drop_segments(segments, ids);
        assert forall|i: int| 0 <= i < d.len() implies segments.contains(#[trigger] d[i]) by {
            if i < drop_segments(segments.drop_last(), ids).len() {
                assert(segments.drop_last().contains(d[i]));
                let k = choose|k: int|
                    0 <= k < segments.drop_last().len() && segments.drop_last()[k] == d[i];
                assert(segments[k] == d[i]);
            } else {
                assert(d[i] == segments.last());
                assert(segments[segments.len() - 1] == d[i]);
            }
        }
    }
}

/// Deleting by id keeps distinct ids distinct.
proof fn lemma_drop_unique(segments: Seq<StoreSegment>, ids: Seq<u128>)
    requires
        forall|i: int, j: int| 0 <= i < j < segments.len() ==> segments[i].id != segments[j].id,
    ensures
        forall|i: int, j: int|
            0 <= i < j < drop_segments(segments, ids).len() ==> drop_segments(segments, ids)[i].id
                != drop_segments(segments, ids)[j].id,
    decreases segments.len(),
{
    if segments.len() > 0 {
        assert forall|i: int, j: int|
            0 <= i < j < segments.drop_last().len() implies segments.drop_last()[i].id
            != segments.drop_last()[j].id by {
            assert(segments[i].id != segments[j].id);
        }
        lemma_drop_unique(segments.drop_last(), ids);
        lemma_drop_segments_sub(segments.drop_last(), ids);
        let d = drop_segments(segments, ids);
        let dprev = drop_segments(segments.drop_last(), ids);
        assert forall|i: int, j: int| 0 <= i < j < d.len() implies d[i].id != d[j].id by {
            if j < dprev.len() {
                assert(d[i] == dprev[i] && d[j] == dprev[j]);
            } else if j == dprev.len() && d.len() > dprev.len() {
                assert(d[j] == segments.last());
                assert(segments.drop_last().contains(dprev[i]));
                let k = choose|k: int|
                    0 <= k < segments.drop_last().len() && segments.drop_last()[k] == dprev[i];
                assert(segments[k].id != segments[segments.len() - 1].id);
            }
        }
    }
}

/// Swaps two page lists; used to move the pending documents into a fresh
/// segment without copying them.
fn core_swap_pages(a: &mut Vec<IndexablePage>, b: &mut Vec<IndexablePage>)
    ensures
        final(a)@ == old(b)@,
        final(b)@ == old(a)@,
{
    core::mem::swap(a, b);
}

/// The contents of pages, url and payload, as plain byte sequences; two
/// page lists with the same views hold the same documents.
pub open spec fn page_views(s: Seq<IndexablePage>) -> Seq<(Seq<u8>, Seq<u8>)> {
    s.map_values(|p: IndexablePage| (p.url@, p.payload@))
}

impl SegmentStore {
    /// Prepares the merge of the listed segments: gathers their documents
    /// (in store order) and the operation that will finish the merge. With
    /// no documents to merge there is no entry.
    pub fn start_merge_segments_by_id(&self, ids: &Vec<u128>) -> (r: (
        Option<SegmentEntry>,
        MergeOperation,
    ))
        ensures
            r.1.ids@ == ids@,
            docs_of(self.segments@, ids@).len() == 0 <==> r.0 is None,
            r.0 matches Some(e) ==> page_views(e.docs@) == page_views(
                docs_of(self.segments@, ids@),
            ),
    {
        let mut docs: Vec<IndexablePage> = Vec::new();
        let mut i: usize = 0;
        proof {
            assert(page_views(docs@) =~= page_views(docs_of(self.segments@.take(0), ids@)));
            assert(docs@.len() == docs_of(self.segments@.take(0), ids@).len());
        }
        while i < self.segments.len()
            invariant
                0 <= i <= self.segments@.len(),
                page_views(docs@) == page_views(docs_of(self.segments@.take(i as int), ids@)),
                docs@.len() == docs_of(self.segments@.take(i as int), ids@).len(),
            decreases self.segments@.len() - i,
        {
            proof {
                assert(self.segments@.take(i + 1).drop_last() =~= self.segments@.take(i as int));
            }
            if contains_id(ids, self.segments[i].id) {
                let mut part = copy_pages(&self.segments[i].docs);
                let ghost docs0 = docs@;
                let ghost part0 = part@;
                docs.append(&mut part);
                proof {
                    assert(page_views(part0) =~= page_views(self.segments@[i as int].docs@));
                    assert(page_views(docs0 + part0) =~= page_views(docs0) + page_views(part0));
                    assert(page_views(docs_of(self.segments@.take(i + 1), ids@)) =~= page_views(
                        docs_of(self.segments@.take(i as int), ids@),
                    ) + page_views(self.segments@[i as int].docs@));
                }
            } else {
                proof {
                    assert(docs_of(self.segments@.take(i + 1), ids@) =~= docs_of(
                        self.segments@.take(i as int),
                        ids@,
                    ));
                }
            }
            i = i + 1;
        }
        proof {
            assert(self.segments@.take(self.segments@.len() as int) =~= self.segments@);
        }
        let op = MergeOperation { ids: copy_ids(ids) };
        if docs.len() == 0 {
            (None, op)
        } else {
            (Some(SegmentEntry { docs }), op)
        }
    }

    /// Finishes a merge: the input segments leave the store; when the merge
    /// carried documents, they land in one fresh segment whose id is
    /// returned.
    pub fn end_merge_segments_by_id(&mut self, merge_op: MergeOperation, entry: Option<
        SegmentEntry,
    >) -> (r: Option<u128>)
        requires
            old(self).wf(),
            old(self).next_id < u128::MAX,
        ensures
            final(self).wf(),
            final(self).pending == old(self).pending,
            final(self).shard_id == old(self).shard_id,
            ({
                let dropped = drop_segments(old(self).segments@, merge_op.ids@);
                match entry {
                    Some(e) => if e.docs@.len() > 0 {
                        &&& final(self).segments@.len() == dropped.len() + 1
                        &&& final(self).segments@.take(dropped.len() as int) == dropped
                        &&& final(self).segments@.last().id == old(self).next_id
                        &&& final(self).segments@.last().docs == e.docs
                        &&& final(self).next_id == old(self).next_id + 1
                        &&& r == Some(old(self).next_id)
                    } else {
                        &&& final(self).segments@ == dropped
                        &&& final(self).next_id == old(self).next_id
                        &&& r is None
                    },
                    None => {
                        &&& final(self).segments@ == dropped
                        &&& final(self).next_id == old(self).next_id
                        &&& r is None
                    },
                }
            }),
    {
        self.delete_segments_by_id(&merge_op.ids);
        let has_docs = match &entry {
            Some(e) => e.docs.len() > 0,
            None => false,
        };
        if has_docs {
            let e = match entry {
                Some(e) => e,
                None => SegmentEntry { docs: Vec::new() },  // unreachable by the check above
            };
            let ghost dropped = self.segments@;
            let id = self.next_id;
            self.segments.push(StoreSegment { id, docs: e.docs });
            self.next_id = self.next_id + 1;
            let ghost ids2 = merge_op.ids@;
            proof {
                assert(self.segments@.take(dropped.len() as int) =~= dropped);
                lemma_drop_unique(old(self).segments@, ids2);
                lemma_drop_segments_sub(old(self).segments@, ids2);
                assert forall|p: int, q: int|
                    0 <= p < q < self.segments@.len() implies self.segments@[p].id
                    != self.segments@[q].id by {
                    if q < self.segments@.len() - 1 {
                        assert(self.segments@[p] == dropped[p]);
                        assert(self.segments@[q] == dropped[q]);
                    } else {
                        assert(self.segments@[p] == dropped[p]);
                        assert(old(self).segments@.contains(dropped[p]));
                        let k = choose|k: int|
                            0 <= k < old(self).segments@.len() && old(self).segments@[k]
                                == dropped[p];
                        assert(old(self).segments@[k].id < old(self).next_id);
                    }
                }
                assert forall|p: int|
                    0 <= p < self.segments@.len() implies (#[trigger] self.segments@[p]).id
                    < self.next_id by {
                    if p < self.segments@.len() - 1 {
                        assert(self.segments@[p] == dropped[p]);
                        assert(old(self).segments@.contains(dropped[p]));
                        let k = choose|k: int|
                            0 <= k < old(self).segments@.len() && old(self).segments@[k]
                                == dropped[p];
                        assert(old(self).segments@[k].id < old(self).next_id);
                    }
                }
            }
            Some(id)
        } else {
            None
        }
    }

    /// Re-opens the readers; the stored segments do not change.
    pub fn re_open(&mut self)
        ensures
            *final(self) == *old(self),
    {
    }

    /// Every searchable document: the documents of all committed segments.
    pub fn searchable_pages(&self) -> (r: Vec<IndexablePage>)
        ensures
            page_views(r@) == page_views(searchable_docs(self.segments@)),
    {
        let mut docs: Vec<IndexablePage> = Vec::new();
        let mut i: usize = 0;
        proof {
            assert(page_views(docs@) =~= page_views(searchable_docs(self.segments@.take(0))));
        }
        while i < self.segments.len()
            invariant
                0 <= i <= self.segments@.len(),
                page_views(docs@) == page_views(searchable_docs(self.segments@.take(i as int))),
            decreases self.segments@.len() - i,
        {
            proof {
                assert(self.segments@.take(i + 1).drop_last() =~= self.segments@.take(i as int));
            }
            let mut part = copy_pages(&self.segments[i].docs);
            let ghost docs0 = docs@;
            let ghost part0 = part@;
            docs.append(&mut part);
            proof {
                assert(page_views(part0) =~= page_views(self.segments@[i as int].docs@));
                assert(page_views(docs0 + part0) =~= page_views(docs0) + page_views(part0));
                assert(page_views(searchable_docs(self.segments@.take(i + 1))) =~= page_views(
                    searchable_docs(self.segments@.take(i as int)),
                ) + page_views(self.segments@[i as int].docs@));
            }
            i = i + 1;
        }
        proof {
            assert(self.segments@.take(self.segments@.len() as int) =~= self.segments@);
        }
        docs
    }
}

/// Copies an id list.
fn copy_ids(v: &Vec<u128>) -> (r: Vec<u128>)
    ensures
        r@ == v@,
{
    let mut r: Vec<u128> = Vec::new();
    let mut i: usize = 0;
    while i < v.len()
        invariant
            0 <= i <= v@.len(),
            r@ == v@.take(i as int),
        decreases v@.len() - i,
    {
        r.push(v[i]);
        proof {
            assert(v@.take(i + 1) =~= v@.take(i as int).push(v@[i as int]));
        }
        i = i + 1;
    }
    proof {
        assert(v@.take(v@.len() as int) =~= v@);
    }
    r
}

} // verus!
