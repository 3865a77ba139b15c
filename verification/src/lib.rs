//! The distributed search core of a sharded web-search engine: the
//! scatter/gather layer that fans a query out to the shards and composes
//! their answers, the live-index segment lifecycle behind it, and the
//! job-dispatch framework that computes graph centrality over distributed
//! tables.
//!
//! The columnar writer builds the per-segment columns the collectors read;
//! the top-docs collector merges shard-local top lists with host
//! deduplication; the live index batches inserts through a write-ahead
//! log into segments that are compacted by date and pruned by age; the
//! searcher plans retrieval so that every pointer goes back to the shard
//! that produced it; and the centrality mapper grows per-node reach
//! counters round by round, never letting a score decrease.

pub mod types;
pub mod top_docs;
pub mod collector;
pub mod columnar;
pub mod spell;
pub mod error_model;
pub mod segment_store;
pub mod live_index;
pub mod searcher;
pub mod ampc;
pub mod centrality;
pub mod webgraph;
