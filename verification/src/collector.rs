use vstd::prelude::*;
use crate::top_docs::SegmentColumnFields;

verus! {

/// A collector is a two-level reducer: a child accumulates one segment's
/// hits into a segment-local fruit, and the parent merges the per-segment
/// fruits into one fruit; the coordinator then merges per-shard fruits the
/// same way. Each implementation pins both levels down with its own spec
/// functions, so what holds of a merge is known through the trait.
pub trait Collector: Sized {
    /// The reducible output at every level.
    type Fruit;

    /// The segment-local accumulator.
    type Child;

    /// What opening a segment asks of the collector and the segment.
    spec fn for_segment_requires(&self, segment_ord: u32, segment: SegmentColumnFields) -> bool;

    /// What holds of a freshly opened child.
    spec fn for_segment_ensures(
        &self,
        segment_ord: u32,
        segment: SegmentColumnFields,
        child: Self::Child,
    ) -> bool;

    /// What merging asks of the collector.
    spec fn merge_requires(&self, fruits: Seq<Self::Fruit>) -> bool;

    /// How the merged fruit relates to the per-segment fruits.
    spec fn merge_ensures(&self, fruits: Seq<Self::Fruit>, merged: Self::Fruit) -> bool;

    /// Opens the segment-local accumulator over one segment's columns.
    fn for_segment(&self, segment_ord: u32, segment: SegmentColumnFields) -> (child: Self::Child)
        requires
            self.for_segment_requires(segment_ord, segment),
        ensures
            self.for_segment_ensures(segment_ord, segment, child),
    ;

    /// Merges the per-segment fruits into one fruit.
    fn merge_fruits(&self, segment_fruits: Vec<Self::Fruit>) -> (merged: Self::Fruit)
        requires
            self.merge_requires(segment_fruits@),
        ensures
            self.merge_ensures(segment_fruits@, merged),
    ;
}

} // verus!
