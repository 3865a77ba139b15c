use vstd::prelude::*;
use crate::types::ShardId;

verus! {

/// An edge of the webgraph: source node, target node, both by host or page
/// identifier, and the rank used to sort backlinks (lower is better).
#[derive(Clone, Copy, Debug, PartialEq, Eq, Structural)]
pub struct Edge {
    pub from: u128,
    pub to: u128,
    pub sort_score: u64,
}

/// One shard of the webgraph: the edges inserted so far.
#[derive(Debug)]
pub struct Webgraph {
    pub shard_id: ShardId,
    pub edges: Vec<Edge>,
}

impl Webgraph {
    /// Inserts one edge.
    pub fn insert(&mut self, edge: Edge)
        ensures
            final(self).edges@ == old(self).edges@.push(edge),
            final(self).shard_id == old(self).shard_id,
    {
        self.edges.push(edge);
    }

    /// The edges pointing at `node`, in insertion order.
    pub fn backlinks(&self, node: u128) -> (r: Vec<Edge>)
        ensures
            r@ == self.edges@.filter(backlink_pred(node)),
    {
        let mut r: Vec<Edge> = Vec::new();
        let mut i: usize = 0;
        proof {
            assert(self.edges@.take(0).filter(backlink_pred(node)) =~= Seq::<Edge>::empty()) by {
                reveal(Seq::filter);
            }
        }
        while i < self.edges.len()
            invariant
                0 <= i <= self.edges@.len(),
                r@ == self.edges@.take(i as int).filter(backlink_pred(node)),
            decreases self.edges@.len() - i,
        {
            let e = self.edges[i];
            proof {
                lemma_backlink_filter_push(self.edges@.take(i as int), self.edges@[i as int], node);
                assert(self.edges@.take(i + 1) =~= self.edges@.take(i as int).push(
                    self.edges@[i as int],
                ));
            }
            if e.to == node {
                r.push(e);
            }
            i = i + 1;
        }
        proof {
            assert(self.edges@.take(self.edges@.len() as int) =~= self.edges@);
        }
        r
    }
}

/// Whether an edge points at the node.
pub open spec fn backlink_pred(node: u128) -> spec_fn(Edge) -> bool {
    |e: Edge| e.to == node
}

proof fn lemma_backlink_filter_push(s: Seq<Edge>, e: Edge, node: u128)
    ensures
        e.to == node ==> s.push(e).filter(backlink_pred(node)) == s.filter(
            backlink_pred(node),
        ).push(e),
        e.to != node ==> s.push(e).filter(backlink_pred(node)) == s.filter(backlink_pred(node)),
{
    reveal(Seq::filter);
    assert(s.push(e).drop_last() =~= s);
    assert(s.push(e).last() == e);
}

/// Opens one webgraph shard at a path; a fresh path holds no edges.
#[derive(Debug)]
pub struct WebgraphBuilder {
    pub path: Vec<u8>,
    pub shard_id: ShardId,
}

impl WebgraphBuilder {
    pub fn new(path: Vec<u8>, shard_id: ShardId) -> (r: Self)
        ensures
            r.path == path,
            r.shard_id == shard_id,
    {
        WebgraphBuilder { path, shard_id }
    }

    /// Opens the graph; it starts empty, and whoever persisted edges at
    /// the path replays them into it.
    pub fn open(self) -> (r: Webgraph)
        ensures
            r.shard_id == self.shard_id,
            r.edges@ == Seq::<Edge>::empty(),
    {
        Webgraph { shard_id: self.shard_id, edges: Vec::new() }
    }
}

/// Resolves a node identifier back to its stored node: the query carries
/// the identifier and the fields to look it up in, tried in order.
#[derive(Clone, Debug)]
pub struct Id2NodeQuery {
    pub node: u128,
    pub fields: Vec<u32>,
}

impl Id2NodeQuery {
    pub fn new(node: u128, fields: Vec<u32>) -> (r: Self)
        ensures
            r.node == node,
            r.fields == fields,
    {
        Id2NodeQuery { node, fields }
    }
}

} // verus!
