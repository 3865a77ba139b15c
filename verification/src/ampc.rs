use vstd::prelude::*;

verus! {

/// A mapper is the specific computation a job runs over the distributed
/// tables: it reads and writes the tables but owns no state between
/// invocations, so a round may be re-dispatched and mapped again.
pub trait Mapper: Sized {
    /// The unit of work the coordinator dispatches.
    type Job;

    /// The worker a job runs on; it holds the job's shard of the graph.
    type Worker;

    /// The distributed tables the computation reads and writes.
    type Tables;

    /// What a mapper asks of the tables it is handed.
    spec fn map_requires(&self, job: &Self::Job, worker: &Self::Worker, dht: Self::Tables) -> bool;

    /// What one invocation guarantees of the tables: how the state after
    /// relates to the state before.
    spec fn map_ensures(
        &self,
        job: &Self::Job,
        worker: &Self::Worker,
        before: Self::Tables,
        after: Self::Tables,
    ) -> bool;

    fn map(&self, job: &Self::Job, worker: &Self::Worker, dht: &mut Self::Tables)
        requires
            self.map_requires(job, worker, *old(dht)),
        ensures
            self.map_ensures(job, worker, *old(dht), *final(dht)),
    ;
}

} // verus!
