//! The durable side of the engine: a key-value window of commit records,
//! ordered by sub-DAG index, and recovery of the consensus state from it.
//!
//! Each record carries one committed sub-DAG and the per-origin watermark
//! vector as it stood after that commit: exactly what a restart needs to
//! rehydrate `last_committed_round`, `sub_dag_index`, the schedule epoch and
//! the watermarks.  The window keeps the records whose anchors are above the
//! garbage-collection round of the newest record; the newest record is
//! always retained.

use vstd::prelude::*;

use crate::certificate::{copy_u64_vec, duplicate_sub_dag, CommittedSubDag, SubDagModel};
use crate::committee::Committee;
use crate::dag::Dag;
use crate::state::{gc_round_spec, ConsensusState};

verus! {

/// One durable commit: the emitted sub-DAG and the watermark vector after it.
#[derive(Clone, Debug)]
pub struct CommitRecord {
    pub sub_dag: CommittedSubDag,
    pub last_committed: Vec<u64>,
}

/// The mathematical value of a [`CommitRecord`].
#[verifier::ext_equal]
pub ghost struct RecordModel {
    pub sub_dag: SubDagModel,
    pub last_committed: Seq<u64>,
}

impl View for CommitRecord {
    type V = RecordModel;

    open spec fn view(&self) -> RecordModel {
        RecordModel { sub_dag: self.sub_dag@, last_committed: self.last_committed@ }
    }
}

/// The persistent store: a bounded trailing window of commit records, oldest
/// first, strictly increasing in sub-DAG index.
#[derive(Clone, Debug)]
pub struct ConsensusStore {
    pub records: Vec<CommitRecord>,
}

impl ConsensusStore {
    /// The record values, oldest first.
    pub open spec fn seq(self) -> Seq<RecordModel> {
        self.records@.map_values(|r: CommitRecord| r@)
    }

    /// An empty store.
    pub fn new() -> (s: ConsensusStore)
        ensures
            s.seq() == Seq::<RecordModel>::empty(),
    {
        let s = ConsensusStore { records: Vec::new() };
        proof {
            assert(s.seq() =~= Seq::<RecordModel>::empty());
        }
        s
    }

    /// The most recent commit record, if any.
    pub fn last_commit(&self) -> (r: Option<&CommitRecord>)
        ensures
            match r {
                Some(rec) => self.seq().len() > 0 && rec@ == self.seq().last(),
                None => self.seq().len() == 0,
            },
    {
        let n = self.records.len();
        if n == 0 {
            None
        } else {
            Some(&self.records[n - 1])
        }
    }

    /// Durably append one commit record, then shrink the window to the
    /// records whose anchor rounds are above the new garbage-collection
    /// round.  The new record itself always survives the shrink.
    pub fn write_commit(&mut self, rec: &CommitRecord, gc_depth: u64)
        requires
            gc_depth >= 1,
        ensures
            final(self).seq() == old(self).seq().push(rec@).filter(
                |r: RecordModel|
                    r.sub_dag.anchor.round > gc_round_spec(rec.sub_dag.anchor.round, gc_depth),
            ) || final(self).seq() == old(self).seq().push(rec@),
            final(self).seq().len() > 0 && final(self).seq().last() == rec@,
    {
        let new_rec = CommitRecord {
            sub_dag: duplicate_sub_dag(&rec.sub_dag),
            last_committed: copy_u64_vec(&rec.last_committed),
        };
        proof {
            assert(new_rec@ =~= rec@);
        }
        self.records.push(new_rec);
        let ghost pushed = self.seq();
        let gc = if rec.sub_dag.anchor.round > gc_depth {
            rec.sub_dag.anchor.round - gc_depth
        } else {
            0
        };
        if gc == 0 {
            proof {
                assert(self.seq() =~= old(self).seq().push(rec@));
            }
            return ;
        }
        let n = self.records.len();
        let mut kept: Vec<CommitRecord> = Vec::new();
        for i in 0..n
            invariant
                n == self.records@.len(),
                pushed == self.seq(),
                gc == gc_round_spec(rec.sub_dag.anchor.round, gc_depth),
                kept@.map_values(|r: CommitRecord| r@) == self.seq().take(i as int).filter(
                    |r: RecordModel| r.sub_dag.anchor.round > gc,
                ),
        {
            proof {
                reveal_with_fuel(Seq::filter, 2);
                assert(self.seq().take(i + 1).drop_last() =~= self.seq().take(i as int));
                assert(self.seq().take(i + 1).last() == self.seq()[i as int]);
            }
            if self.records[i].sub_dag.anchor.round > gc {
                let keep = CommitRecord {
                    sub_dag: duplicate_sub_dag(&self.records[i].sub_dag),
                    last_committed: copy_u64_vec(&self.records[i].last_committed),
                };
                proof {
                    assert(keep@ =~= self.seq()[i as int]);
                }
                kept.push(keep);
                proof {
                    assert(kept@.map_values(|r: CommitRecord| r@) =~= self.seq().take(
                        i as int,
                    ).filter(|r: RecordModel| r.sub_dag.anchor.round > gc).push(
                        self.seq()[i as int],
                    ));
                }
            }
        }
        proof {
            assert(self.seq().take(n as int) =~= self.seq());
        }
        self.records = kept;
        proof {
            assert(pushed =~= old(self).seq().push(rec@));
            let pred = |r: RecordModel|
                r.sub_dag.anchor.round > gc_round_spec(rec.sub_dag.anchor.round, gc_depth);
            assert(self.seq() =~= pushed.filter(pred));
            lemma_filter_keeps_last(pushed, pred);
        }
    }
}

/// A filter whose predicate accepts the last element keeps it last.
pub proof fn lemma_filter_keeps_last(s: Seq<RecordModel>, pred: spec_fn(RecordModel) -> bool)
    requires
        s.len() > 0,
        pred(s.last()),
    ensures
        s.filter(pred).len() > 0,
        s.filter(pred).last() == s.last(),
{
    reveal_with_fuel(Seq::filter, 2);
    assert(s.drop_last().filter(pred).push(s.last()) == s.filter(pred));
}

/// Rebuild the consensus state from the store: rehydrate the committed
/// round, the sub-DAG counter, the schedule epoch (derived from the counter)
/// and the per-origin watermarks from the newest record; the DAG starts
/// empty and is rebuilt by the upstream collector replaying certificates
/// above the recovered garbage-collection round.
pub fn recover(
    store: &ConsensusStore,
    com: &Committee,
    gc_depth: u64,
    sub_dags_per_schedule: u64,
) -> (s: ConsensusState)
    requires
        com.well_formed(),
        gc_depth >= 1,
        sub_dags_per_schedule >= 1,
        store.seq().len() > 0 ==> {
            let tip = store.seq().last();
            &&& tip.last_committed.len() == com.size()
            &&& forall|o: int|
                0 <= o < tip.last_committed.len() ==> #[trigger] tip.last_committed[o]
                    <= tip.sub_dag.anchor.round
            &&& tip.sub_dag.anchor.round % 2 == 0
            &&& 2 * tip.sub_dag.sub_dag_index <= tip.sub_dag.anchor.round
        },
    ensures
        s.well_formed(*com, sub_dags_per_schedule),
        s.dag.seq() == Seq::<crate::certificate::CertificateModel>::empty(),
        s.gc_depth == gc_depth,
        store.seq().len() == 0 ==> s.last_committed_round == 0 && s.sub_dag_index == 0,
        store.seq().len() > 0 ==> {
            let tip = store.seq().last();
            &&& s.last_committed_round == tip.sub_dag.anchor.round
            &&& s.sub_dag_index == tip.sub_dag.sub_dag_index
            &&& s.schedule_epoch == tip.sub_dag.sub_dag_index as int / sub_dags_per_schedule as int
            &&& s.last_committed@ == tip.last_committed
        },
{
    match store.last_commit() {
        None => ConsensusState::new(gc_depth, com),
        Some(rec) => {
            let s = ConsensusState {
                last_committed_round: rec.sub_dag.anchor.round,
                last_committed: copy_u64_vec(&rec.last_committed),
                dag: Dag::new(),
                sub_dag_index: rec.sub_dag.sub_dag_index,
                schedule_epoch: rec.sub_dag.sub_dag_index / sub_dags_per_schedule,
                gc_depth,
            };
            s
        },
    }
}


/// Recovery equivalence: a commit record that mirrors a well-formed state —
/// as the engine writes at every commit — satisfies everything [`recover`]
/// expects, and recovery rebuilds from it exactly the state's committed
/// round, sub-DAG counter, schedule epoch and watermarks.  Only the DAG
/// itself starts empty, to be refilled by the collector replaying the
/// certificates above the garbage-collection round.
pub proof fn lemma_recovery_round_trip(
    st: ConsensusState,
    com: Committee,
    sub_dags_per_schedule: u64,
    rec: RecordModel,
)
    requires
        st.well_formed(com, sub_dags_per_schedule),
        rec.sub_dag.anchor.round == st.last_committed_round,
        rec.sub_dag.sub_dag_index == st.sub_dag_index,
        rec.last_committed == st.last_committed@,
    ensures
        rec.last_committed.len() == com.size(),
        forall|o: int|
            0 <= o < rec.last_committed.len() ==> #[trigger] rec.last_committed[o]
                <= rec.sub_dag.anchor.round,
        rec.sub_dag.anchor.round % 2 == 0,
        2 * rec.sub_dag.sub_dag_index <= rec.sub_dag.anchor.round,
        rec.sub_dag.sub_dag_index as int / sub_dags_per_schedule as int == st.schedule_epoch,
{
}

} // verus!
