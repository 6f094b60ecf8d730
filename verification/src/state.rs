//! The running view of the ordering engine: last committed round, per-origin
//! commit watermarks, the DAG, the sub-DAG counter and the schedule epoch.

use vstd::prelude::*;

use crate::certificate::CertificateModel;
use crate::committee::Committee;
use crate::dag::Dag;

verus! {

/// Mutable running state of the engine.  All fields move monotonically:
/// `last_committed_round`, every per-origin watermark, `sub_dag_index` and
/// the garbage-collection round never decrease.
#[derive(Clone, Debug)]
pub struct ConsensusState {
    /// Largest round whose anchor has been committed; 0 initially.
    pub last_committed_round: u64,
    /// Per-authority highest committed round, indexed by origin; used for
    /// causal reachability filtering and garbage collection.
    pub last_committed: Vec<u64>,
    /// The certificate graph, pruned past the garbage-collection depth.
    pub dag: Dag,
    /// Number of sub-DAGs emitted so far; the next sub-DAG gets index
    /// `sub_dag_index + 1`.
    pub sub_dag_index: u64,
    /// Leader-schedule epoch: advances every `sub_dags_per_schedule` commits.
    pub schedule_epoch: u64,
    /// Configured garbage-collection depth in rounds, at least 1.
    pub gc_depth: u64,
}

/// The garbage-collection round for a committed round and a depth:
/// `max(0, last_committed_round - gc_depth)`.
pub open spec fn gc_round_spec(last_committed_round: u64, gc_depth: u64) -> u64 {
    if last_committed_round > gc_depth {
        (last_committed_round - gc_depth) as u64
    } else {
        0
    }
}

impl ConsensusState {
    /// The round at and below which certificates are unreachable and dropped.
    pub open spec fn gc_round(self) -> u64 {
        gc_round_spec(self.last_committed_round, self.gc_depth)
    }

    /// Well-formedness with respect to the committee and the configured
    /// schedule length: watermarks are bounded by the committed round, the
    /// DAG holds only valid, uncollected certificates, the committed round is
    /// even and dominates twice the sub-DAG counter, and the schedule epoch
    /// is determined by the counter.
    pub open spec fn well_formed(self, com: Committee, sub_dags_per_schedule: u64) -> bool {
        &&& com.well_formed()
        &&& sub_dags_per_schedule >= 1
        &&& self.gc_depth >= 1
        &&& self.last_committed@.len() == com.size()
        &&& forall|o: int|
            0 <= o < self.last_committed@.len() ==> #[trigger] self.last_committed@[o]
                <= self.last_committed_round
        &&& self.last_committed_round % 2 == 0
        &&& 2 * self.sub_dag_index <= self.last_committed_round
        &&& self.schedule_epoch == self.sub_dag_index as int / sub_dags_per_schedule as int
        &&& self.dag.wf()
        &&& forall|c: CertificateModel|
            #[trigger] self.dag.as_set().contains(c) ==> c.round > self.gc_round() && c.epoch
                == com.epoch && c.origin < com.size()
    }

    /// A fresh state: nothing committed, an empty DAG.
    pub fn new(gc_depth: u64, com: &Committee) -> (s: ConsensusState)
        requires
            gc_depth >= 1,
            com.well_formed(),
        ensures
            forall|nsps: u64| nsps >= 1 ==> s.well_formed(*com, nsps),
            s.last_committed_round == 0,
            s.sub_dag_index == 0,
            s.schedule_epoch == 0,
            s.gc_depth == gc_depth,
            s.gc_round() == 0,
            s.dag.seq() == Seq::<CertificateModel>::empty(),
            forall|o: int| 0 <= o < s.last_committed@.len() ==> #[trigger] s.last_committed@[o] == 0,
    {
        let n = com.size_exec();
        let mut last_committed: Vec<u64> = Vec::new();
        for i in 0..n
            invariant
                last_committed@.len() == i,
                forall|o: int| 0 <= o < i ==> #[trigger] last_committed@[o] == 0,
        {
            last_committed.push(0);
        }
        ConsensusState {
            last_committed_round: 0,
            last_committed,
            dag: Dag::new(),
            sub_dag_index: 0,
            schedule_epoch: 0,
            gc_depth,
        }
    }

    /// The current garbage-collection round.
    pub fn gc_round_exec(&self) -> (r: u64)
        ensures
            r == self.gc_round(),
    {
        if self.last_committed_round > self.gc_depth {
            self.last_committed_round - self.gc_depth
        } else {
            0
        }
    }
}

} // verus!
