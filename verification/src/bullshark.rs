//! The commit rule: on each accepted certificate of an odd round, check
//! whether the previous even round's anchor has gathered `f + 1` support,
//! walk the chain of earlier reachable anchors, and emit their sub-DAGs
//! oldest first in a deterministic order.
//!
//! Every specification here is a function of the DAG *as a set* and of the
//! scalar state, never of arrival order: two replicas that observe the same
//! DAG emit the same commit sequence.

use vstd::prelude::*;

use crate::certificate::{
    copy_u64_vec, duplicate_sub_dag, Certificate, CertificateModel, CommittedSubDag,
    ConsensusError, Outcome, SubDagModel,
};
use crate::committee::{Authority, Committee};
use crate::dag::{
    cert_at, cert_by_digest, has_digest, has_slot, reaches, support_stake, Dag, InsertError,
};
use crate::state::{gc_round_spec, ConsensusState};
use crate::store::{CommitRecord, ConsensusStore};

verus! {

/// Whether `c` belongs to the sub-DAG of `anchor`: causally reachable from
/// the anchor and not yet covered by the per-origin watermarks `lc`.
pub open spec fn in_sub_dag(
    s: Set<CertificateModel>,
    lc: Seq<u64>,
    anchor: CertificateModel,
    c: CertificateModel,
) -> bool {
    reaches(s, anchor, c) && c.round > lc[c.origin as int]
}

/// The sub-DAG members of round `r` among the first `o` origins, in
/// ascending origin order.
pub open spec fn sub_dag_row(
    s: Set<CertificateModel>,
    lc: Seq<u64>,
    anchor: CertificateModel,
    r: u64,
    o: int,
) -> Seq<CertificateModel>
    decreases o,
{
    if o <= 0 {
        Seq::empty()
    } else {
        sub_dag_row(s, lc, anchor, r, o - 1) + if has_slot(s, r, (o - 1) as u64) && in_sub_dag(
            s,
            lc,
            anchor,
            cert_at(s, r, (o - 1) as u64),
        ) {
            seq![cert_at(s, r, (o - 1) as u64)]
        } else {
            Seq::empty()
        }
    }
}

/// The sub-DAG members of the rounds `lo <= r < hi`, in ascending round
/// order, each round in ascending origin order.
pub open spec fn sub_dag_rows(
    s: Set<CertificateModel>,
    lc: Seq<u64>,
    anchor: CertificateModel,
    n: int,
    lo: u64,
    hi: int,
) -> Seq<CertificateModel>
    decreases hi - lo,
{
    if hi <= lo {
        Seq::empty()
    } else {
        sub_dag_rows(s, lc, anchor, n, lo, hi - 1) + sub_dag_row(s, lc, anchor, (hi - 1) as u64, n)
    }
}

/// The ordered sub-DAG of `anchor`: its uncommitted causal history in
/// ascending (round, origin) order, the anchor itself appended last.  This
/// is the canonical presentation order; it depends on the DAG set, the
/// watermarks and the anchor alone.
pub open spec fn sub_dag_certs(
    s: Set<CertificateModel>,
    lc: Seq<u64>,
    anchor: CertificateModel,
    n: int,
    lo: u64,
) -> Seq<CertificateModel> {
    sub_dag_rows(s, lc, anchor, n, lo, anchor.round as int).push(anchor)
}

/// The chain of committable anchors strictly below `cur`, newest first:
/// walking even rounds down from `r` to just above `lc_round`, an anchor is
/// taken when its certificate is present and the nearest later taken anchor
/// (initially `cur`) causally reaches it; anchors not reached are skipped
/// for good.
pub open spec fn chain_nf(
    s: Set<CertificateModel>,
    com: Committee,
    schedule_epoch: u64,
    cur: CertificateModel,
    r: u64,
    lc_round: u64,
) -> Seq<CertificateModel>
    decreases r,
{
    if r < lc_round + 2 {
        Seq::empty()
    } else {
        let leader = com.leader_spec(r, schedule_epoch) as u64;
        if has_slot(s, r, leader) && reaches(s, cur, cert_at(s, r, leader)) {
            seq![cert_at(s, r, leader)] + chain_nf(
                s,
                com,
                schedule_epoch,
                cert_at(s, r, leader),
                (r - 2) as u64,
                lc_round,
            )
        } else {
            chain_nf(s, com, schedule_epoch, cur, (r - 2) as u64, lc_round)
        }
    }
}

/// All anchors committed by a trigger on `anchor`, newest first: the anchor
/// itself, then the chain below it.
pub open spec fn anchors_nf(
    s: Set<CertificateModel>,
    com: Committee,
    schedule_epoch: u64,
    anchor: CertificateModel,
    lc_round: u64,
) -> Seq<CertificateModel> {
    seq![anchor] + chain_nf(s, com, schedule_epoch, anchor, (anchor.round - 2) as u64, lc_round)
}

/// The watermarks after committing `certs`: each origin's entry is raised to
/// the highest committed round of that origin.
pub open spec fn lc_after(lc: Seq<u64>, certs: Seq<CertificateModel>) -> Seq<u64>
    decreases certs.len(),
{
    if certs.len() == 0 {
        lc
    } else {
        let prev = lc_after(lc, certs.drop_last());
        let c = certs.last();
        if 0 <= c.origin < prev.len() && c.round > prev[c.origin as int] {
            prev.update(c.origin as int, c.round)
        } else {
            prev
        }
    }
}

/// The watermarks after committing the `t` oldest anchors of the
/// newest-first chain `ch`, each with the sub-DAG its watermarks allowed.
pub open spec fn lc_fold(
    s: Set<CertificateModel>,
    ch: Seq<CertificateModel>,
    lc0: Seq<u64>,
    n: int,
    lo: u64,
    t: int,
) -> Seq<u64>
    decreases t,
{
    if t <= 0 {
        lc0
    } else {
        let prev = lc_fold(s, ch, lc0, n, lo, t - 1);
        lc_after(prev, sub_dag_certs(s, prev, ch[ch.len() - t], n, lo))
    }
}

/// Collect the ordered sub-DAG of `anchor`: the certificates of rounds
/// `lo..anchor.round` that the anchor reaches and the watermarks do not yet
/// cover, in ascending (round, origin) order, then the anchor.
pub fn collect_sub_dag(
    dag: &Dag,
    lc: &Vec<u64>,
    anchor: &Certificate,
    n: usize,
    lo: u64,
) -> (out: Vec<Certificate>)
    requires
        dag.wf(),
        dag.as_set().contains(anchor@),
        lo <= anchor.round,
        lc@.len() == n,
    ensures
        out@.map_values(|c: Certificate| c@) == sub_dag_certs(
            dag.as_set(),
            lc@,
            anchor@,
            n as int,
            lo,
        ),
{
    let ghost s = dag.as_set();
    let mut out: Vec<Certificate> = Vec::new();
    let mut r: u64 = lo;
    proof {
        assert(out@.map_values(|c: Certificate| c@) =~= sub_dag_rows(
            s,
            lc@,
            anchor@,
            n as int,
            lo,
            lo as int,
        ));
    }
    while r < anchor.round
        invariant
            dag.wf(),
            s == dag.as_set(),
            s.contains(anchor@),
            lc@.len() == n,
            lo <= r <= anchor.round,
            out@.map_values(|c: Certificate| c@) == sub_dag_rows(
                s,
                lc@,
                anchor@,
                n as int,
                lo,
                r as int,
            ),
        decreases anchor.round - r,
    {
        for o in 0..n
            invariant
                dag.wf(),
                s == dag.as_set(),
                s.contains(anchor@),
                lc@.len() == n,
                lo <= r < anchor.round,
                out@.map_values(|c: Certificate| c@) == sub_dag_rows(
                    s,
                    lc@,
                    anchor@,
                    n as int,
                    lo,
                    r as int,
                ) + sub_dag_row(s, lc@, anchor@, r, o as int),
        {
            let ghost prev = out@.map_values(|c: Certificate| c@);
            match dag.get(r, o as u64) {
                Some(c) => {
                    proof {
                        assert(cert_at(s, r, o as u64).origin == o as u64);
                        assert(cert_at(s, r, o as u64).round == r);
                    }
                    if c.round > lc[o] && dag.has_path(anchor, c) {
                        out.push(c.duplicate());
                        proof {
                            assert(in_sub_dag(s, lc@, anchor@, cert_at(s, r, o as u64)));
                            assert(out@.map_values(|c: Certificate| c@) =~= prev.push(
                                cert_at(s, r, o as u64),
                            ));
                            assert(out@.map_values(|c: Certificate| c@) =~= sub_dag_rows(
                                s,
                                lc@,
                                anchor@,
                                n as int,
                                lo,
                                r as int,
                            ) + sub_dag_row(s, lc@, anchor@, r, o + 1));
                        }
                    } else {
                        proof {
                            assert(!in_sub_dag(s, lc@, anchor@, cert_at(s, r, o as u64)));
                            assert(out@.map_values(|c: Certificate| c@) =~= sub_dag_rows(
                                s,
                                lc@,
                                anchor@,
                                n as int,
                                lo,
                                r as int,
                            ) + sub_dag_row(s, lc@, anchor@, r, o + 1));
                        }
                    }
                },
                None => {
                    proof {
                        assert(out@.map_values(|c: Certificate| c@) =~= sub_dag_rows(
                            s,
                            lc@,
                            anchor@,
                            n as int,
                            lo,
                            r as int,
                        ) + sub_dag_row(s, lc@, anchor@, r, o + 1));
                    }
                },
            }
        }
        r = r + 1;
        proof {
            assert(sub_dag_rows(s, lc@, anchor@, n as int, lo, r as int) =~= sub_dag_rows(
                s,
                lc@,
                anchor@,
                n as int,
                lo,
                r as int - 1,
            ) + sub_dag_row(s, lc@, anchor@, (r - 1) as u64, n as int));
        }
    }
    out.push(anchor.duplicate());
    proof {
        assert(out@.map_values(|c: Certificate| c@) =~= sub_dag_certs(
            s,
            lc@,
            anchor@,
            n as int,
            lo,
        ));
    }
    out
}

/// Walk the even rounds from `anchor.round - 2` down to `lc_round + 2` and
/// collect the anchors the chain reaches, newest first, the triggering
/// anchor in front.
pub fn build_chain(
    dag: &Dag,
    com: &Committee,
    schedule_epoch: u64,
    anchor: &Certificate,
    lc_round: u64,
) -> (out: Vec<Certificate>)
    requires
        dag.wf(),
        com.well_formed(),
        dag.as_set().contains(anchor@),
        anchor.round >= lc_round + 2,
        anchor.round % 2 == 0,
        lc_round % 2 == 0,
    ensures
        out@.map_values(|c: Certificate| c@) == anchors_nf(
            dag.as_set(),
            *com,
            schedule_epoch,
            anchor@,
            lc_round,
        ),
{
    let ghost s = dag.as_set();
    let mut out: Vec<Certificate> = Vec::new();
    out.push(anchor.duplicate());
    let mut cur: &Certificate = anchor;
    let mut r: u64 = anchor.round - 2;
    proof {
        assert(out@.map_values(|c: Certificate| c@) =~= seq![anchor@]);
    }
    while r >= 2 && r - 2 >= lc_round
        invariant
            dag.wf(),
            com.well_formed(),
            s == dag.as_set(),
            s.contains(cur@),
            r % 2 == 0,
            lc_round <= r || r + 2 == lc_round + 2,
            anchors_nf(s, *com, schedule_epoch, anchor@, lc_round) == out@.map_values(
                |c: Certificate| c@,
            ) + chain_nf(s, *com, schedule_epoch, cur@, r, lc_round),
        decreases r,
    {
        let ghost prev = out@.map_values(|c: Certificate| c@);
        let leader = com.leader(r, schedule_epoch);
        match dag.get(r, leader) {
            Some(cand) => {
                proof {
                    assert(cert_at(s, r, leader) == cand@);
                }
                if dag.has_path(cur, cand) {
                    out.push(cand.duplicate());
                    proof {
                        assert(chain_nf(s, *com, schedule_epoch, cur@, r, lc_round) == seq![cand@]
                            + chain_nf(
                            s,
                            *com,
                            schedule_epoch,
                            cand@,
                            (r - 2) as u64,
                            lc_round,
                        ));
                        assert(out@.map_values(|c: Certificate| c@) =~= prev.push(cand@));
                        assert(prev.push(cand@) + chain_nf(
                            s,
                            *com,
                            schedule_epoch,
                            cand@,
                            (r - 2) as u64,
                            lc_round,
                        ) =~= prev + chain_nf(s, *com, schedule_epoch, cur@, r, lc_round));
                    }
                    cur = cand;
                } else {
                    proof {
                        assert(chain_nf(s, *com, schedule_epoch, cur@, r, lc_round) == chain_nf(
                            s,
                            *com,
                            schedule_epoch,
                            cur@,
                            (r - 2) as u64,
                            lc_round,
                        ));
                    }
                }
            },
            None => {
                proof {
                    assert(chain_nf(s, *com, schedule_epoch, cur@, r, lc_round) == chain_nf(
                        s,
                        *com,
                        schedule_epoch,
                        cur@,
                        (r - 2) as u64,
                        lc_round,
                    ));
                }
            },
        }
        r = r - 2;
    }
    proof {
        assert(chain_nf(s, *com, schedule_epoch, cur@, r, lc_round) =~= Seq::<
            CertificateModel,
        >::empty());
        assert(out@.map_values(|c: Certificate| c@) + Seq::<CertificateModel>::empty()
            =~= out@.map_values(|c: Certificate| c@));
    }
    out
}

/// Every member of a sub-DAG row lies in the DAG at the row's round, with an
/// origin below `o`, above the watermarks, and reachable from the anchor.
pub proof fn lemma_sub_dag_row_props(
    s: Set<CertificateModel>,
    lc: Seq<u64>,
    anchor: CertificateModel,
    r: u64,
    o: int,
)
    ensures
        forall|i: int|
            0 <= i < sub_dag_row(s, lc, anchor, r, o).len() ==> {
                let c = #[trigger] sub_dag_row(s, lc, anchor, r, o)[i];
                &&& s.contains(c)
                &&& c.round == r
                &&& (c.origin as int) < o
                &&& c.round > lc[c.origin as int]
                &&& reaches(s, anchor, c)
            },
    decreases o,
{
    if o > 0 {
        lemma_sub_dag_row_props(s, lc, anchor, r, o - 1);
        let prev = sub_dag_row(s, lc, anchor, r, o - 1);
        let cur = sub_dag_row(s, lc, anchor, r, o);
        assert forall|i: int| 0 <= i < cur.len() implies {
            let c = #[trigger] cur[i];
            &&& s.contains(c)
            &&& c.round == r
            &&& (c.origin as int) < o
            &&& c.round > lc[c.origin as int]
            &&& reaches(s, anchor, c)
        } by {
            if i < prev.len() {
                assert(cur[i] == prev[i]);
            } else {
                assert(has_slot(s, r, (o - 1) as u64));
                assert(cur[i] == cert_at(s, r, (o - 1) as u64));
                assert(in_sub_dag(s, lc, anchor, cert_at(s, r, (o - 1) as u64)));
            }
        }
    }
}

/// Every member of the stacked rows lies in the DAG with a round in
/// `[lo, hi)`, an origin below `n`, above the watermarks, and reachable.
pub proof fn lemma_sub_dag_rows_props(
    s: Set<CertificateModel>,
    lc: Seq<u64>,
    anchor: CertificateModel,
    n: int,
    lo: u64,
    hi: int,
)
    requires
        hi <= 0x1_0000_0000_0000_0000,
    ensures
        forall|i: int|
            0 <= i < sub_dag_rows(s, lc, anchor, n, lo, hi).len() ==> {
                let c = #[trigger] sub_dag_rows(s, lc, anchor, n, lo, hi)[i];
                &&& s.contains(c)
                &&& lo <= c.round < hi
                &&& (c.origin as int) < n
                &&& c.round > lc[c.origin as int]
                &&& reaches(s, anchor, c)
            },
    decreases hi - lo,
{
    if hi > lo {
        lemma_sub_dag_rows_props(s, lc, anchor, n, lo, hi - 1);
        lemma_sub_dag_row_props(s, lc, anchor, (hi - 1) as u64, n);
        let prev = sub_dag_rows(s, lc, anchor, n, lo, hi - 1);
        let row = sub_dag_row(s, lc, anchor, (hi - 1) as u64, n);
        let cur = sub_dag_rows(s, lc, anchor, n, lo, hi);
        assert forall|i: int| 0 <= i < cur.len() implies {
            let c = #[trigger] cur[i];
            &&& s.contains(c)
            &&& lo <= c.round < hi
            &&& (c.origin as int) < n
            &&& c.round > lc[c.origin as int]
            &&& reaches(s, anchor, c)
        } by {
            if i < prev.len() {
                assert(cur[i] == prev[i]);
            } else {
                assert(cur[i] == row[i - prev.len()]);
            }
        }
    }
}

/// Every certificate of an ordered sub-DAG lies in the DAG, is reachable
/// from the anchor, has a round at most the anchor's, an origin below `n`,
/// and a round above its origin's watermark.
pub proof fn lemma_sub_dag_certs_props(
    s: Set<CertificateModel>,
    lc: Seq<u64>,
    anchor: CertificateModel,
    n: int,
    lo: u64,
)
    requires
        s.contains(anchor),
        (anchor.origin as int) < n,
        anchor.round > lc[anchor.origin as int],
        lo <= anchor.round,
    ensures
        forall|i: int|
            0 <= i < sub_dag_certs(s, lc, anchor, n, lo).len() ==> {
                let c = #[trigger] sub_dag_certs(s, lc, anchor, n, lo)[i];
                &&& s.contains(c)
                &&& lo <= c.round <= anchor.round
                &&& (c.origin as int) < n
                &&& c.round > lc[c.origin as int]
                &&& reaches(s, anchor, c)
            },
{
    lemma_sub_dag_rows_props(s, lc, anchor, n, lo, anchor.round as int);
    assert(reaches(s, anchor, anchor));
    let rows = sub_dag_rows(s, lc, anchor, n, lo, anchor.round as int);
    let cur = sub_dag_certs(s, lc, anchor, n, lo);
    assert forall|i: int| 0 <= i < cur.len() implies {
        let c = #[trigger] cur[i];
        &&& s.contains(c)
        &&& lo <= c.round <= anchor.round
        &&& (c.origin as int) < n
        &&& c.round > lc[c.origin as int]
        &&& reaches(s, anchor, c)
    } by {
        if i < rows.len() {
            assert(cur[i] == rows[i]);
        } else {
            assert(cur[i] == anchor);
        }
    }
}

/// Updating watermarks preserves the vector's length, raises entries only,
/// and never raises one above the highest committed round.
pub proof fn lemma_lc_after_props(lc: Seq<u64>, certs: Seq<CertificateModel>, b: u64)
    requires
        forall|o: int| 0 <= o < lc.len() ==> #[trigger] lc[o] <= b,
        forall|i: int| 0 <= i < certs.len() ==> (#[trigger] certs[i]).round <= b,
    ensures
        lc_after(lc, certs).len() == lc.len(),
        forall|o: int| 0 <= o < lc.len() ==> #[trigger] lc_after(lc, certs)[o] <= b,
        forall|o: int| 0 <= o < lc.len() ==> lc[o] <= #[trigger] lc_after(lc, certs)[o],
    decreases certs.len(),
{
    if certs.len() > 0 {
        lemma_lc_after_props(lc, certs.drop_last(), b);
    }
}

/// After the update, each committed certificate's origin watermark covers
/// its round.
pub proof fn lemma_lc_after_covers(lc: Seq<u64>, certs: Seq<CertificateModel>, i: int)
    requires
        0 <= i < certs.len(),
        0 <= certs[i].origin < lc.len(),
    ensures
        lc_after(lc, certs)[certs[i].origin as int] >= certs[i].round,
    decreases certs.len(),
{
    lemma_lc_after_props(lc, certs, u64::MAX);
    if i < certs.len() - 1 {
        lemma_lc_after_covers(lc, certs.drop_last(), i);
        lemma_lc_after_step_mono(lc, certs, certs[i].origin as int);
    }
}

/// One update step never lowers a watermark entry.
pub proof fn lemma_lc_after_step_mono(lc: Seq<u64>, certs: Seq<CertificateModel>, o: int)
    requires
        certs.len() > 0,
        0 <= o < lc.len(),
    ensures
        lc_after(lc, certs)[o] >= lc_after(lc, certs.drop_last())[o],
{
    lemma_lc_after_props(lc, certs.drop_last(), u64::MAX);
}

/// Properties of the anchor chain below `cur`: its members sit in the DAG at
/// even rounds strictly between the committed round and `r`, newest first
/// with strictly decreasing rounds, and there is at most one per even round.
pub proof fn lemma_chain_nf_props(
    s: Set<CertificateModel>,
    com: Committee,
    schedule_epoch: u64,
    cur: CertificateModel,
    r: u64,
    lc_round: u64,
)
    requires
        r % 2 == 0,
        lc_round % 2 == 0,
    ensures
        forall|i: int|
            0 <= i < chain_nf(s, com, schedule_epoch, cur, r, lc_round).len() ==> {
                let c = #[trigger] chain_nf(s, com, schedule_epoch, cur, r, lc_round)[i];
                &&& s.contains(c)
                &&& c.round % 2 == 0
                &&& lc_round < c.round <= r
            },
        forall|i: int, j: int|
            0 <= i < j < chain_nf(s, com, schedule_epoch, cur, r, lc_round).len()
                ==> #[trigger] chain_nf(s, com, schedule_epoch, cur, r, lc_round)[i].round
                > #[trigger] chain_nf(s, com, schedule_epoch, cur, r, lc_round)[j].round,
        r >= lc_round ==> 2 * chain_nf(s, com, schedule_epoch, cur, r, lc_round).len() <= r
            - lc_round,
        r < lc_round + 2 ==> chain_nf(s, com, schedule_epoch, cur, r, lc_round).len() == 0,
    decreases r,
{
    if r >= lc_round + 2 {
        let leader = com.leader_spec(r, schedule_epoch) as u64;
        if has_slot(s, r, leader) && reaches(s, cur, cert_at(s, r, leader)) {
            lemma_chain_nf_props(
                s,
                com,
                schedule_epoch,
                cert_at(s, r, leader),
                (r - 2) as u64,
                lc_round,
            );
        } else {
            lemma_chain_nf_props(s, com, schedule_epoch, cur, (r - 2) as u64, lc_round);
        }
    }
}

/// Properties of the full anchor list of one trigger: the anchors sit in the
/// DAG at even rounds in `(lc_round, anchor.round]`, newest first with
/// strictly decreasing rounds, the triggering anchor in front, and there are
/// at most `(anchor.round - lc_round) / 2` of them.
pub proof fn lemma_anchors_nf_props(
    s: Set<CertificateModel>,
    com: Committee,
    schedule_epoch: u64,
    anchor: CertificateModel,
    lc_round: u64,
)
    requires
        anchor.round % 2 == 0,
        lc_round % 2 == 0,
        anchor.round >= lc_round + 2,
        s.contains(anchor),
    ensures
        forall|i: int|
            0 <= i < anchors_nf(s, com, schedule_epoch, anchor, lc_round).len() ==> {
                let c = #[trigger] anchors_nf(s, com, schedule_epoch, anchor, lc_round)[i];
                &&& s.contains(c)
                &&& c.round % 2 == 0
                &&& lc_round < c.round <= anchor.round
            },
        forall|i: int, j: int|
            0 <= i < j < anchors_nf(s, com, schedule_epoch, anchor, lc_round).len()
                ==> #[trigger] anchors_nf(s, com, schedule_epoch, anchor, lc_round)[i].round
                > #[trigger] anchors_nf(s, com, schedule_epoch, anchor, lc_round)[j].round,
        anchors_nf(s, com, schedule_epoch, anchor, lc_round)[0] == anchor,
        1 <= anchors_nf(s, com, schedule_epoch, anchor, lc_round).len(),
        2 * anchors_nf(s, com, schedule_epoch, anchor, lc_round).len() <= anchor.round - lc_round,
{
    lemma_chain_nf_props(s, com, schedule_epoch, anchor, (anchor.round - 2) as u64, lc_round);
    let ch = chain_nf(s, com, schedule_epoch, anchor, (anchor.round - 2) as u64, lc_round);
    let full = anchors_nf(s, com, schedule_epoch, anchor, lc_round);
    assert(full == seq![anchor] + ch);
    assert(full[0] == anchor);
    assert(forall|i: int| 0 <= i < ch.len() ==> full[i + 1] == ch[i]);
}

/// Folding the chain commits preserves the watermark vector's length, never
/// lowers an entry, and keeps every entry at most `b` when all anchors'
/// rounds are.
pub proof fn lemma_lc_fold_props(
    s: Set<CertificateModel>,
    ch: Seq<CertificateModel>,
    lc0: Seq<u64>,
    n: int,
    lo: u64,
    t: int,
    b: u64,
)
    requires
        lc0.len() == n,
        forall|o: int| 0 <= o < lc0.len() ==> #[trigger] lc0[o] <= b,
        forall|i: int|
            0 <= i < ch.len() ==> s.contains(#[trigger] ch[i]) && ch[i].round <= b && (
            ch[i].origin as int) < n,
        t <= ch.len(),
    ensures
        lc_fold(s, ch, lc0, n, lo, t).len() == n,
        forall|o: int| 0 <= o < n ==> #[trigger] lc_fold(s, ch, lc0, n, lo, t)[o] <= b,
        forall|o: int| 0 <= o < n ==> lc0[o] <= #[trigger] lc_fold(s, ch, lc0, n, lo, t)[o],
    decreases t,
{
    if t > 0 {
        lemma_lc_fold_props(s, ch, lc0, n, lo, t - 1, b);
        let prev = lc_fold(s, ch, lc0, n, lo, t - 1);
        let a = ch[ch.len() - t];
        lemma_sub_dag_rows_props(s, prev, a, n, lo, a.round as int);
        let certs = sub_dag_certs(s, prev, a, n, lo);
        assert(forall|i: int| 0 <= i < certs.len() ==> (#[trigger] certs[i]).round <= b);
        lemma_lc_after_props(prev, certs, b);
    }
}

/// What one commit does to the state, as a function of the DAG set `s`, the
/// scalar state and the triggering anchor alone: the emitted sub-DAGs are the
/// anchors of the chain, oldest first, each with its ordered sub-DAG and the
/// next sub-DAG index; the committed round becomes the anchor's round; the
/// sub-DAG counter advances by the chain's length; the schedule epoch is the
/// counter divided by the schedule length; and the watermarks fold over the
/// chain.
pub open spec fn commit_post(
    com: Committee,
    nsps: u64,
    s: Set<CertificateModel>,
    lc0: Seq<u64>,
    lcr0: u64,
    idx0: u64,
    epoch0: u64,
    gcd: u64,
    anchor: CertificateModel,
    new_lc: Seq<u64>,
    new_lcr: u64,
    new_idx: u64,
    new_epoch: u64,
    subdags: Seq<SubDagModel>,
) -> bool {
    let ch = anchors_nf(s, com, epoch0, anchor, lcr0);
    let m = ch.len() as int;
    let lo = (gc_round_spec(lcr0, gcd) + 1) as u64;
    let n = com.size();
    &&& subdags.len() == m
    &&& forall|k: int|
        0 <= k < m ==> #[trigger] subdags[k] == (SubDagModel {
            anchor: ch[m - 1 - k],
            certificates: sub_dag_certs(s, lc_fold(s, ch, lc0, n, lo, k), ch[m - 1 - k], n, lo),
            sub_dag_index: (idx0 + k + 1) as u64,
        })
    &&& new_lcr == anchor.round
    &&& new_idx == idx0 + m
    &&& new_epoch == new_idx as int / nsps as int
    &&& new_lc == lc_fold(s, ch, lc0, n, lo, m)
}

/// The ordering engine: the committee, the durable store, and the schedule
/// length.
#[derive(Debug)]
pub struct Bullshark {
    pub committee: Committee,
    pub store: ConsensusStore,
    pub sub_dags_per_schedule: u64,
}

impl Bullshark {
    /// A valid configuration: a well-formed committee and a positive
    /// schedule length.
    pub open spec fn wf(self) -> bool {
        &&& self.committee.well_formed()
        &&& self.sub_dags_per_schedule >= 1
    }

    /// Construct the engine.
    pub fn new(committee: Committee, store: ConsensusStore, sub_dags_per_schedule: u64) -> (b:
        Bullshark)
        requires
            committee.well_formed(),
            sub_dags_per_schedule >= 1,
        ensures
            b.wf(),
            b.committee == committee,
            b.store == store,
            b.sub_dags_per_schedule == sub_dags_per_schedule,
    {
        Bullshark { committee, store, sub_dags_per_schedule }
    }

    /// Commit the chain rooted at `anchor`: emit the ordered sub-DAG of each
    /// chain anchor oldest first, advance the state, prune the DAG, and
    /// persist the newest sub-DAG with the updated watermarks.
    fn commit_chain(&mut self, state: &mut ConsensusState, anchor: &Certificate) -> (out: Vec<
        CommittedSubDag,
    >)
        requires
            old(self).wf(),
            old(state).well_formed(old(self).committee, old(self).sub_dags_per_schedule),
            old(state).dag.as_set().contains(anchor@),
            anchor.round % 2 == 0,
            anchor.round > old(state).last_committed_round,
        ensures
            final(self).committee == old(self).committee,
            final(self).sub_dags_per_schedule == old(self).sub_dags_per_schedule,
            final(state).well_formed(old(self).committee, old(self).sub_dags_per_schedule),
            final(state).gc_depth == old(state).gc_depth,
            final(state).last_committed_round == anchor.round,
            commit_post(
                old(self).committee,
                old(self).sub_dags_per_schedule,
                old(state).dag.as_set(),
                old(state).last_committed@,
                old(state).last_committed_round,
                old(state).sub_dag_index,
                old(state).schedule_epoch,
                old(state).gc_depth,
                anchor@,
                final(state).last_committed@,
                final(state).last_committed_round,
                final(state).sub_dag_index,
                final(state).schedule_epoch,
                out@.map_values(|d: CommittedSubDag| d@),
            ),
            final(state).dag.seq() == old(state).dag.seq().filter(
                |c: CertificateModel| c.round > gc_round_spec(anchor.round, old(state).gc_depth),
            ),
            out@.len() >= 1,
            forall|o: int|
                0 <= o < old(state).last_committed@.len() ==> #[trigger] old(state).last_committed@[o] <= final(state).last_committed@[o],
            final(self).store.seq().len() > 0,
            final(self).store.seq().last().sub_dag == out@.map_values(
                |d: CommittedSubDag| d@,
            ).last(),
            final(self).store.seq().last().last_committed == final(state).last_committed@,
    {
        let ghost s = state.dag.as_set();
        let ghost lc0 = state.last_committed@;
        let ghost lcr0 = state.last_committed_round;
        let ghost idx0 = state.sub_dag_index;
        let ghost epoch0 = state.schedule_epoch;
        let ghost com = self.committee;
        let ghost nsps = self.sub_dags_per_schedule;
        let ghost gcd = state.gc_depth;
        let n = self.committee.size_exec();
        let gc0 = state.gc_round_exec();
        let lo = gc0 + 1;
        proof {
            if anchor.round == state.last_committed_round + 1 {
                assert((state.last_committed_round + 1) % 2 == 1);
                assert(false);
            }
            assert(anchor.round >= state.last_committed_round + 2);
        }
        let chain = build_chain(
            &state.dag,
            &self.committee,
            state.schedule_epoch,
            anchor,
            state.last_committed_round,
        );
        let ghost ch = anchors_nf(s, com, epoch0, anchor@, lcr0);
        proof {
            lemma_anchors_nf_props(s, com, epoch0, anchor@, lcr0);
        }
        let m = chain.len();
        let mut out: Vec<CommittedSubDag> = Vec::new();
        proof {
            assert(out@.map_values(|d: CommittedSubDag| d@) =~= Seq::<SubDagModel>::empty());
        }
        for k in 0..m
            invariant
                m == chain@.len(),
                chain@.map_values(|c: Certificate| c@) == ch,
                ch == anchors_nf(s, com, epoch0, anchor@, lcr0),
                self.committee == com,
                self.sub_dags_per_schedule == nsps,
                self.store == old(self).store,
                com.well_formed(),
                nsps >= 1,
                n == com.size(),
                state.dag == old(state).dag,
                s == state.dag.as_set(),
                state.dag.wf(),
                old(state).well_formed(com, nsps),
                state.last_committed@ == lc_fold(s, ch, lc0, n as int, lo, k as int),
                state.last_committed_round == lcr0,
                state.gc_depth == gcd,
                state.sub_dag_index == idx0 + k,
                state.schedule_epoch == epoch0,
                lc0 == old(state).last_committed@,
                lcr0 == old(state).last_committed_round,
                idx0 == old(state).sub_dag_index,
                lo == gc_round_spec(lcr0, gcd) + 1,
                anchor.round > lcr0,
                anchor.round >= lcr0 + 2,
                anchor.round % 2 == 0,
                s.contains(anchor@),
                forall|i: int|
                    0 <= i < ch.len() ==> s.contains(#[trigger] ch[i]) && lcr0 < ch[i].round
                        <= anchor.round && ch[i].round % 2 == 0,
                2 * ch.len() <= anchor.round - lcr0,
                ch.len() == m,
                ch[0] == anchor@,
                state.last_committed@.len() == n,
                out@.len() == k,
                forall|j: int|
                    0 <= j < k ==> (#[trigger] out@[j])@ == (SubDagModel {
                        anchor: ch[m - 1 - j],
                        certificates: sub_dag_certs(
                            s,
                            lc_fold(s, ch, lc0, n as int, lo, j),
                            ch[m - 1 - j],
                            n as int,
                            lo,
                        ),
                        sub_dag_index: (idx0 + j + 1) as u64,
                    }),
        {
            proof {
                assert(forall|i: int|
                    0 <= i < ch.len() ==> (#[trigger] ch[i].origin as int) < n && ch[i].round
                        <= anchor.round);
                lemma_lc_fold_props(s, ch, lc0, n as int, lo, k as int, anchor.round);
            }
            let a = &chain[m - 1 - k];
            proof {
                assert(a@ == chain@.map_values(|c: Certificate| c@)[m - 1 - k as int]);
                assert(a@ == ch[m - 1 - k as int]);
                assert(s.contains(a@) && a@.round > lcr0);
                assert(lo <= a.round);
            }
            let certs = collect_sub_dag(&state.dag, &state.last_committed, a, n, lo);
            update_watermarks(&mut state.last_committed, &certs);
            proof {
                assert(ch.len() - (k + 1) == m - 1 - k);
                assert(state.last_committed@ =~= lc_fold(s, ch, lc0, n as int, lo, k + 1));
                lemma_lc_fold_props(s, ch, lc0, n as int, lo, k + 1, anchor.round);
                assert(2 * (idx0 + k + 1) <= lcr0 + 2 * ch.len() <= anchor.round);
            }
            state.sub_dag_index = state.sub_dag_index + 1;
            let ghost prev_out = out@.map_values(|d: CommittedSubDag| d@);
            let sd = CommittedSubDag {
                anchor: a.duplicate(),
                certificates: certs,
                sub_dag_index: state.sub_dag_index,
            };
            proof {
                assert(sd@ =~= SubDagModel {
                    anchor: ch[m - 1 - k as int],
                    certificates: sub_dag_certs(
                        s,
                        lc_fold(s, ch, lc0, n as int, lo, k as int),
                        ch[m - 1 - k as int],
                        n as int,
                        lo,
                    ),
                    sub_dag_index: (idx0 + k + 1) as u64,
                });
            }
            out.push(sd);
            proof {
                assert(out@.map_values(|d: CommittedSubDag| d@) =~= prev_out.push(sd@));
            }
        }
        proof {
            lemma_lc_fold_props(s, ch, lc0, n as int, lo, m as int, anchor.round);
        }
        state.last_committed_round = anchor.round;
        state.schedule_epoch = state.sub_dag_index / self.sub_dags_per_schedule;
        let new_gc = state.gc_round_exec();
        state.dag.prune_below(new_gc);
        let tip = &out[m - 1];
        let rec = CommitRecord {
            sub_dag: duplicate_sub_dag(tip),
            last_committed: copy_u64_vec(&state.last_committed),
        };
        self.store.write_commit(&rec, state.gc_depth);
        proof {
            let pred = |c: CertificateModel| c.round > gc_round_spec(anchor.round, gcd);
            let old_seq = old(state).dag.seq();
            assert forall|c: CertificateModel| #[trigger]
                state.dag.as_set().contains(c) implies c.round > state.gc_round() && c.epoch
                == com.epoch && c.origin < com.size() by {
                let i = choose|i: int|
                    0 <= i < state.dag.seq().len() && state.dag.seq()[i] == c;
                old_seq.lemma_filter_pred(pred, i);
                crate::dag::lemma_filter_element_witness(old_seq, pred, i);
                let a = choose|a: int| 0 <= a < old_seq.len() && old_seq[a] == #[trigger] old_seq.filter(pred)[i];
                assert(old(state).dag.as_set().contains(old_seq[a]));
            }
            assert(state.well_formed(com, nsps));
        }
        out
    }
}

/// Update the watermark vector for a freshly committed sub-DAG: raise each
/// member origin's entry to that member's round.
pub fn update_watermarks(lc: &mut Vec<u64>, certs: &Vec<Certificate>)
    ensures
        final(lc)@ == lc_after(old(lc)@, certs@.map_values(|c: Certificate| c@)),
{
    let ghost lc0 = lc@;
    let ghost views = certs@.map_values(|c: Certificate| c@);
    let m = certs.len();
    for i in 0..m
        invariant
            m == certs@.len(),
            views == certs@.map_values(|c: Certificate| c@),
            lc@ == lc_after(lc0, views.take(i as int)),
    {
        let ghost prev = lc@;
        proof {
            assert(views.take(i + 1).drop_last() =~= views.take(i as int));
            assert(views.take(i + 1).last() == views[i as int]);
        }
        let o = certs[i].origin;
        if o < lc.len() as u64 {
            if certs[i].round > lc[o as usize] {
                let r = certs[i].round;
                lc[o as usize] = r;
                proof {
                    assert(lc@ =~= lc_after(lc0, views.take(i + 1)));
                }
            } else {
                proof {
                    assert(lc@ =~= lc_after(lc0, views.take(i + 1)));
                }
            }
        } else {
            proof {
                assert(lc@ =~= lc_after(lc0, views.take(i + 1)));
            }
        }
    }
    proof {
        assert(views.take(m as int) =~= views);
    }
}

/// Whether parent `j` of `c` resolves to a stored certificate of the
/// previous round.
pub open spec fn resolves_parent(s: Set<CertificateModel>, c: CertificateModel, j: int) -> bool {
    has_digest(s, c.parents[j]) && cert_by_digest(s, c.parents[j]).round == c.round - 1
}

/// Whether every parent of `c` resolves to a stored certificate of the
/// previous round.
pub open spec fn parents_resolve(s: Set<CertificateModel>, c: CertificateModel) -> bool {
    forall|j: int| 0 <= j < c.parents.len() ==> #[trigger] resolves_parent(s, c, j)
}

/// Combined stake of the certificates the first `k` parent digests resolve
/// to, counting each distinct digest once.
pub open spec fn parent_stake(
    s: Set<CertificateModel>,
    com: Seq<Authority>,
    parents: Seq<u64>,
    k: int,
) -> int
    decreases k,
{
    if k <= 0 {
        0
    } else {
        parent_stake(s, com, parents, k - 1) + if parents.take(k - 1).contains(parents[k - 1]) {
            0
        } else {
            com[cert_by_digest(s, parents[k - 1]).origin as int].stake as int
        }
    }
}

/// The parent stake is non-negative and bounded by one maximal stake per
/// parent listed.
pub proof fn lemma_parent_stake_bound(
    s: Set<CertificateModel>,
    com: Seq<Authority>,
    parents: Seq<u64>,
    k: int,
)
    requires
        k >= 0,
    ensures
        0 <= parent_stake(s, com, parents, k),
        parent_stake(s, com, parents, k) <= k * 0xffff_ffff_ffff_ffff,
    decreases k,
{
    if k > 0 {
        lemma_parent_stake_bound(s, com, parents, k - 1);
        assert((k - 1) * 0xffff_ffff_ffff_ffff + 0xffff_ffff_ffff_ffff == k
            * 0xffff_ffff_ffff_ffff) by (nonlinear_arith);
    }
}

/// Whether inserting `c` would clash with a stored certificate: its slot
/// taken by a different digest, or its digest already stored elsewhere.
pub open spec fn insert_conflict(s: Set<CertificateModel>, c: CertificateModel) -> bool {
    ||| (has_slot(s, c.round, c.origin) && cert_at(s, c.round, c.origin).digest != c.digest)
    ||| (!has_slot(s, c.round, c.origin) && has_digest(s, c.digest))
}

/// Why a certificate above the collection round is refused, if it is: the
/// checks run in this order, and a certificate that passes them all enters
/// the DAG.
pub open spec fn validation_error(
    s: Set<CertificateModel>,
    com: Committee,
    gc0: u64,
    c: CertificateModel,
) -> Option<ConsensusError> {
    if c.epoch != com.epoch {
        Some(ConsensusError::UnknownEpoch)
    } else if c.origin >= com.size() {
        Some(ConsensusError::UnknownAuthority)
    } else if c.round > gc0 + 1 && !parents_resolve(s, c) {
        Some(ConsensusError::UnknownParent)
    } else if c.round > gc0 + 1 && parent_stake(s, com.authorities@, c.parents, c.parents.len() as int)
        < com.quorum_threshold_spec() {
        Some(ConsensusError::ParentsBelowQuorum)
    } else if insert_conflict(s, c) {
        Some(ConsensusError::AlreadyPresent)
    } else {
        None
    }
}

/// The stored sequence after admitting `c`: unchanged when its slot is
/// already occupied (by the same digest, or admission failed), else extended
/// by `c`.
pub open spec fn inserted_dag_seq(
    pre: Seq<CertificateModel>,
    c: CertificateModel,
) -> Seq<CertificateModel> {
    if has_slot(crate::dag::cert_set(pre), c.round, c.origin) {
        pre
    } else {
        pre.push(c)
    }
}

/// The leader of the even round a certificate of an odd round votes for.
pub open spec fn trigger_leader(com: Committee, schedule_epoch: u64, c: CertificateModel) -> u64 {
    com.leader_spec((c.round - 1) as u64, schedule_epoch) as u64
}

/// The anchor a certificate of an odd round votes for: the leader
/// certificate of the previous round.
pub open spec fn trigger_anchor(
    s: Set<CertificateModel>,
    com: Committee,
    schedule_epoch: u64,
    c: CertificateModel,
) -> CertificateModel {
    cert_at(s, (c.round - 1) as u64, trigger_leader(com, schedule_epoch, c))
}

/// Whether admitting `c` triggers a commit: `c` sits at an odd round at
/// least 3, the previous round's anchor is above the committed round and
/// present, and the certificates of `c`\'s round listing the anchor as a
/// parent carry at least `f + 1` stake.
pub open spec fn commit_trigger(
    s: Set<CertificateModel>,
    com: Committee,
    schedule_epoch: u64,
    lcr0: u64,
    c: CertificateModel,
) -> bool {
    &&& c.round % 2 == 1
    &&& c.round >= 3
    &&& c.round - 1 > lcr0
    &&& has_slot(s, (c.round - 1) as u64, trigger_leader(com, schedule_epoch, c))
    &&& support_stake(
        s,
        com.authorities@,
        c.round,
        trigger_anchor(s, com, schedule_epoch, c).digest,
        com.size(),
    ) >= com.validity_threshold_spec()
}

/// Whether `d` occurs among the first `i` entries of `parents`.
fn digest_in_prefix(parents: &Vec<u64>, i: usize, d: u64) -> (r: bool)
    requires
        i <= parents@.len(),
    ensures
        r == parents@.take(i as int).contains(d),
{
    for j in 0..i
        invariant
            i <= parents@.len(),
            forall|j2: int| 0 <= j2 < j ==> parents@[j2] != d,
    {
        if parents[j] == d {
            proof {
                assert(parents@.take(i as int)[j as int] == d);
            }
            return true;
        }
    }
    proof {
        if parents@.take(i as int).contains(d) {
            let j = choose|j: int| 0 <= j < i && parents@.take(i as int)[j] == d;
            assert(parents@[j] == d);
        }
    }
    false
}

impl Bullshark {
    /// Process one validated certificate: the main entry of the engine.
    ///
    /// A certificate at or below the garbage-collection round is `Skipped`
    /// and nothing changes.  A certificate that fails validation is refused
    /// with the matching error and nothing changes.  Otherwise the
    /// certificate enters the DAG; if it completes `f + 1` support for the
    /// previous round's anchor above the committed round, the anchor chain
    /// is committed: the ordered sub-DAGs come back oldest first, the state
    /// advances, old rounds are pruned, and the newest sub-DAG is persisted
    /// with the updated watermarks before returning.
    ///
    /// Everything returned and every state change is a function of the DAG
    /// set, the scalar state and the certificate: arrival order never leaks
    /// into the output.  The committed round, the sub-DAG counter, the
    /// garbage-collection round and every watermark only ever grow.
    pub fn process_certificate(
        &mut self,
        state: &mut ConsensusState,
        cert: &Certificate,
    ) -> (res: Result<(Outcome, Vec<CommittedSubDag>), ConsensusError>)
        requires
            old(self).wf(),
            old(state).well_formed(old(self).committee, old(self).sub_dags_per_schedule),
        ensures
            final(self).committee == old(self).committee,
            final(self).sub_dags_per_schedule == old(self).sub_dags_per_schedule,
            final(state).well_formed(old(self).committee, old(self).sub_dags_per_schedule),
            final(state).gc_depth == old(state).gc_depth,
            old(state).last_committed_round <= final(state).last_committed_round,
            old(state).sub_dag_index <= final(state).sub_dag_index,
            old(state).gc_round() <= final(state).gc_round(),
            old(state).last_committed@.len() == final(state).last_committed@.len(),
            forall|o: int|
                0 <= o < old(state).last_committed@.len() ==> #[trigger] old(state).last_committed@[o] <= final(state).last_committed@[o],
            forall|c: CertificateModel|
                #[trigger] final(state).dag.as_set().contains(c) ==> c.round > final(state).gc_round(),
            match res {
                Ok((outcome, subdags)) => {
                    if cert.round <= old(state).gc_round() {
                        &&& outcome == Outcome::Skipped
                        &&& subdags@.len() == 0
                        &&& *final(state) == *old(state)
                        &&& *final(self) == *old(self)
                    } else {
                        &&& validation_error(
                            old(state).dag.as_set(),
                            old(self).committee,
                            old(state).gc_round(),
                            cert@,
                        ) is None
                        &&& if commit_trigger(
                            crate::dag::cert_set(inserted_dag_seq(old(state).dag.seq(), cert@)),
                            old(self).committee,
                            old(state).schedule_epoch,
                            old(state).last_committed_round,
                            cert@,
                        ) {
                            &&& outcome == Outcome::AcceptedWithCommit
                            &&& subdags@.len() >= 1
                            &&& commit_post(
                                old(self).committee,
                                old(self).sub_dags_per_schedule,
                                crate::dag::cert_set(
                                    inserted_dag_seq(old(state).dag.seq(), cert@),
                                ),
                                old(state).last_committed@,
                                old(state).last_committed_round,
                                old(state).sub_dag_index,
                                old(state).schedule_epoch,
                                old(state).gc_depth,
                                trigger_anchor(
                                    crate::dag::cert_set(
                                        inserted_dag_seq(old(state).dag.seq(), cert@),
                                    ),
                                    old(self).committee,
                                    old(state).schedule_epoch,
                                    cert@,
                                ),
                                final(state).last_committed@,
                                final(state).last_committed_round,
                                final(state).sub_dag_index,
                                final(state).schedule_epoch,
                                subdags@.map_values(|d: CommittedSubDag| d@),
                            )
                            &&& final(state).last_committed_round == cert.round - 1
                            &&& final(state).dag.seq() == inserted_dag_seq(
                                old(state).dag.seq(),
                                cert@,
                            ).filter(
                                |cm: CertificateModel|
                                    cm.round > gc_round_spec(
                                        (cert.round - 1) as u64,
                                        old(state).gc_depth,
                                    ),
                            )
                            &&& final(self).store.seq().len() > 0
                            &&& final(self).store.seq().last().sub_dag == subdags@.map_values(
                                |d: CommittedSubDag| d@,
                            ).last()
                            &&& final(self).store.seq().last().last_committed == final(state).last_committed@
                        } else {
                            &&& outcome == Outcome::Accepted
                            &&& subdags@.len() == 0
                            &&& final(state).dag.seq() == inserted_dag_seq(
                                old(state).dag.seq(),
                                cert@,
                            )
                            &&& final(state).last_committed@ == old(state).last_committed@
                            &&& final(state).last_committed_round == old(state).last_committed_round
                            &&& final(state).sub_dag_index == old(state).sub_dag_index
                            &&& final(state).schedule_epoch == old(state).schedule_epoch
                            &&& *final(self) == *old(self)
                        }
                    }
                },
                Err(e) => {
                    &&& cert.round > old(state).gc_round()
                    &&& validation_error(
                        old(state).dag.as_set(),
                        old(self).committee,
                        old(state).gc_round(),
                        cert@,
                    ) == Some(e)
                    &&& final(state).dag.seq() == old(state).dag.seq()
                    &&& final(state).last_committed@ == old(state).last_committed@
                    &&& final(state).last_committed_round == old(state).last_committed_round
                    &&& final(state).sub_dag_index == old(state).sub_dag_index
                    &&& final(state).schedule_epoch == old(state).schedule_epoch
                    &&& *final(self) == *old(self)
                },
            },
    {
        let ghost s0 = state.dag.as_set();
        let ghost com = self.committee;
        let ghost nsps = self.sub_dags_per_schedule;
        let gc0 = state.gc_round_exec();
        // Admission: the engine cannot reason about collected history.
        if cert.round <= gc0 {
            return Ok((Outcome::Skipped, Vec::new()));
        }
        // Validation, in the order the error contract fixes.
        if cert.epoch != self.committee.epoch {
            return Err(ConsensusError::UnknownEpoch);
        }
        let n = self.committee.size_exec();
        if cert.origin >= n as u64 {
            return Err(ConsensusError::UnknownAuthority);
        }
        if cert.round - 1 > gc0 {
            // Parents are checkable: they are above the collection round.
            let np = cert.parents.len();
            let mut st: u128 = 0;
            for i in 0..np
                invariant
                    np == cert.parents@.len(),
                    s0 == state.dag.as_set(),
                    state.dag.wf(),
                    *state == *old(state),
                    *self == *old(self),
                    com == self.committee,
                    old(state).well_formed(com, nsps),
                    com.well_formed(),
                    nsps == self.sub_dags_per_schedule,
                    gc0 == old(state).gc_round(),
                    cert.round > gc0,
                    cert.round - 1 > gc0,
                    cert.epoch == com.epoch,
                    (cert.origin as int) < com.size(),
                    st == parent_stake(s0, com.authorities@, cert.parents@, i as int),
                    forall|j: int| 0 <= j < i ==> #[trigger] resolves_parent(s0, cert@, j),
            {
                proof {
                    lemma_parent_stake_bound(s0, com.authorities@, cert.parents@, i as int);
                    assert((i as int) * 0xffff_ffff_ffff_ffff + 0xffff_ffff_ffff_ffff == (i + 1)
                        * 0xffff_ffff_ffff_ffff) by (nonlinear_arith);
                    assert((i + 1) * 0xffff_ffff_ffff_ffff
                        < 0x1_0000_0000_0000_0000_0000_0000_0000_0000) by (nonlinear_arith)
                        requires 0 <= i + 1 <= 0x1_0000_0000_0000_0000,;
                }
                let d = cert.parents[i];
                match state.dag.get_by_digest(d) {
                    None => {
                        proof {
                            assert(!resolves_parent(s0, cert@, i as int));
                        }
                        return Err(ConsensusError::UnknownParent);
                    },
                    Some(p) => {
                        if p.round != cert.round - 1 {
                            proof {
                                assert(!resolves_parent(s0, cert@, i as int));
                            }
                            return Err(ConsensusError::UnknownParent);
                        }
                        proof {
                            assert(resolves_parent(s0, cert@, i as int));
                        }
                        if !digest_in_prefix(&cert.parents, i, d) {
                            proof {
                                assert(state.dag.as_set().contains(p@));
                                assert((p@.origin as int) < com.size());
                            }
                            let w = self.committee.stake(p.origin);
                            st = st + w as u128;
                        }
                        proof {
                            assert(st == parent_stake(
                                s0,
                                com.authorities@,
                                cert.parents@,
                                i + 1,
                            ));
                        }
                    },
                }
            }
            let q = self.committee.quorum_threshold();
            if st < q as u128 {
                proof {
                    assert(parents_resolve(s0, cert@));
                    assert(cert.parents@.take(np as int) =~= cert.parents@);
                }
                return Err(ConsensusError::ParentsBelowQuorum);
            }
            proof {
                assert(parents_resolve(s0, cert@));
                assert(cert.parents@.take(np as int) =~= cert.parents@);
            }
        }
        // Admission into the DAG.
        let insert_result = state.dag.insert(cert, gc0);
        match insert_result {
            Err(InsertError::BelowGc) => {
                // Unreachable: certificates at or below the collection round
                // were already skipped above.
                proof {
                    assert(false);
                }
                Err(ConsensusError::AlreadyPresent)
            },
            Err(InsertError::AlreadyPresent) => {
                proof {
                    assert(insert_conflict(s0, cert@));
                    assert(validation_error(s0, com, gc0, cert@) == Some(
                        ConsensusError::AlreadyPresent,
                    ));
                }
                Err(ConsensusError::AlreadyPresent)
            },
            Ok(()) => {
                let ghost s1 = crate::dag::cert_set(inserted_dag_seq(old(state).dag.seq(), cert@));
                proof {
                    assert(!insert_conflict(s0, cert@));
                    assert(validation_error(s0, com, gc0, cert@) is None);
                    assert(state.dag.seq() == inserted_dag_seq(old(state).dag.seq(), cert@));
                    assert(state.dag.as_set() == s1);
                    // The state with the admitted certificate is well formed.
                    assert forall|c: CertificateModel| #[trigger]
                        state.dag.as_set().contains(c) implies c.round > state.gc_round()
                        && c.epoch == com.epoch && c.origin < com.size() by {
                        if old(state).dag.as_set().contains(c) {
                        } else {
                            let q = state.dag.seq();
                            let j = choose|j: int| 0 <= j < q.len() && q[j] == c;
                            if j < old(state).dag.seq().len() {
                                assert(old(state).dag.as_set().contains(c));
                            } else {
                                assert(c == cert@);
                            }
                        }
                    }
                    assert(state.well_formed(com, nsps));
                }
                // Commit trigger: odd rounds vote for the previous round's
                // anchor.
                if cert.round % 2 == 1 && cert.round >= 3 {
                    let anchor_round = cert.round - 1;
                    if anchor_round > state.last_committed_round {
                        let leader = self.committee.leader(anchor_round, state.schedule_epoch);
                        proof {
                            assert(leader == trigger_leader(com, state.schedule_epoch, cert@));
                        }
                        let anchor_found = state.dag.get(anchor_round, leader);
                        match anchor_found {
                            Some(a) => {
                                let support = state.dag.count_support(
                                    &self.committee,
                                    cert.round,
                                    a.digest,
                                );
                                let committable = self.committee.reached_validity(support);
                                let a2 = a.duplicate();
                                proof {
                                    assert(a2@ == trigger_anchor(
                                        s1,
                                        com,
                                        state.schedule_epoch,
                                        cert@,
                                    ));
                                }
                                if committable {
                                    proof {
                                        assert(commit_trigger(
                                            s1,
                                            com,
                                            state.schedule_epoch,
                                            old(state).last_committed_round,
                                            cert@,
                                        ));
                                        assert((cert.round - 1) % 2 == 0);
                                    }
                                    let out = self.commit_chain(state, &a2);
                                    return Ok((Outcome::AcceptedWithCommit, out));
                                }
                                proof {
                                    assert(!commit_trigger(
                                        s1,
                                        com,
                                        state.schedule_epoch,
                                        old(state).last_committed_round,
                                        cert@,
                                    ));
                                }
                            },
                            None => {
                                proof {
                                    assert(!commit_trigger(
                                        s1,
                                        com,
                                        state.schedule_epoch,
                                        old(state).last_committed_round,
                                        cert@,
                                    ));
                                }
                            },
                        }
                    }
                }
                Ok((Outcome::Accepted, Vec::new()))
            },
        }
    }
}

/// Appending a certificate to the stored sequence adds exactly it to the
/// stored set.
pub proof fn lemma_cert_set_push(q: Seq<CertificateModel>, c: CertificateModel)
    ensures
        crate::dag::cert_set(q.push(c)) == crate::dag::cert_set(q).insert(c),
{
    assert forall|x: CertificateModel| #[trigger]
        crate::dag::cert_set(q.push(c)).contains(x) implies crate::dag::cert_set(q).insert(
        c,
    ).contains(x) by {
        let i = choose|i: int| 0 <= i < q.push(c).len() && q.push(c)[i] == x;
        if i < q.len() {
            assert(q[i] == x);
        }
    }
    assert forall|x: CertificateModel| #[trigger]
        crate::dag::cert_set(q).insert(c).contains(x) implies crate::dag::cert_set(
        q.push(c),
    ).contains(x) by {
        if x == c {
            assert(q.push(c)[q.len() as int] == x);
        } else {
            let i = choose|i: int| 0 <= i < q.len() && q[i] == x;
            assert(q.push(c)[i] == x);
        }
    }
    assert(crate::dag::cert_set(q.push(c)) =~= crate::dag::cert_set(q).insert(c));
}

/// Determinism of the rule: two stores that hold the same certificates, in
/// whatever arrival orders, drive the engine identically.  Every quantity
/// the contract of [`Bullshark::process_certificate`] speaks of — the
/// validation verdict, the admitted set, the commit trigger, the anchor and
/// the whole anchor chain — coincides, so two replicas that observed the
/// same DAG return the same outcome, the same sub-DAGs and the same state,
/// whatever order the certificates arrived in.
pub proof fn lemma_arrival_order_irrelevant(
    d1: Dag,
    d2: Dag,
    com: Committee,
    schedule_epoch: u64,
    lcr0: u64,
    gc0: u64,
    c: CertificateModel,
)
    requires
        forall|x: CertificateModel| d1.seq().contains(x) <==> d2.seq().contains(x),
    ensures
        d1.as_set() == d2.as_set(),
        validation_error(d1.as_set(), com, gc0, c) == validation_error(d2.as_set(), com, gc0, c),
        crate::dag::cert_set(inserted_dag_seq(d1.seq(), c)) == crate::dag::cert_set(
            inserted_dag_seq(d2.seq(), c),
        ),
        commit_trigger(
            crate::dag::cert_set(inserted_dag_seq(d1.seq(), c)),
            com,
            schedule_epoch,
            lcr0,
            c,
        ) == commit_trigger(
            crate::dag::cert_set(inserted_dag_seq(d2.seq(), c)),
            com,
            schedule_epoch,
            lcr0,
            c,
        ),
        trigger_anchor(
            crate::dag::cert_set(inserted_dag_seq(d1.seq(), c)),
            com,
            schedule_epoch,
            c,
        ) == trigger_anchor(
            crate::dag::cert_set(inserted_dag_seq(d2.seq(), c)),
            com,
            schedule_epoch,
            c,
        ),
        forall|anchor: CertificateModel|
            anchors_nf(
                crate::dag::cert_set(inserted_dag_seq(d1.seq(), c)),
                com,
                schedule_epoch,
                anchor,
                lcr0,
            ) == anchors_nf(
                crate::dag::cert_set(inserted_dag_seq(d2.seq(), c)),
                com,
                schedule_epoch,
                anchor,
                lcr0,
            ),
{
    assert(d1.as_set() =~= d2.as_set());
    let s1 = crate::dag::cert_set(inserted_dag_seq(d1.seq(), c));
    let s2 = crate::dag::cert_set(inserted_dag_seq(d2.seq(), c));
    if has_slot(d1.as_set(), c.round, c.origin) {
        assert(s1 =~= d1.as_set());
        assert(s2 =~= d2.as_set());
    } else {
        lemma_cert_set_push(d1.seq(), c);
        lemma_cert_set_push(d2.seq(), c);
    }
    assert(s1 == s2);
}

/// The watermarks never decrease as the fold advances over the chain.
pub proof fn lemma_lc_fold_mono(
    s: Set<CertificateModel>,
    ch: Seq<CertificateModel>,
    lc0: Seq<u64>,
    n: int,
    lo: u64,
    t1: int,
    t2: int,
    o: int,
)
    requires
        0 <= t1 <= t2,
        0 <= o < lc_fold(s, ch, lc0, n, lo, t1).len(),
        o < lc_fold(s, ch, lc0, n, lo, t2).len(),
    ensures
        lc_fold(s, ch, lc0, n, lo, t1)[o] <= lc_fold(s, ch, lc0, n, lo, t2)[o],
    decreases t2 - t1,
{
    if t1 < t2 {
        let prev = lc_fold(s, ch, lc0, n, lo, t2 - 1);
        let certs = sub_dag_certs(s, prev, ch[ch.len() - t2], n, lo);
        lemma_lc_after_props(prev, certs, u64::MAX);
        lemma_lc_fold_mono(s, ch, lc0, n, lo, t1, t2 - 1, o);
    }
}

/// The watermarks after `t` commits stay at or below `b` when the starting
/// watermarks and the rounds of the `t` oldest anchors do.
pub proof fn lemma_lc_fold_bound(
    s: Set<CertificateModel>,
    ch: Seq<CertificateModel>,
    lc0: Seq<u64>,
    n: int,
    lo: u64,
    t: int,
    b: u64,
)
    requires
        0 <= t <= ch.len(),
        forall|o: int| 0 <= o < lc0.len() ==> #[trigger] lc0[o] <= b,
        forall|i: int| ch.len() - t <= i < ch.len() ==> (#[trigger] ch[i]).round <= b,
    ensures
        lc_fold(s, ch, lc0, n, lo, t).len() == lc0.len(),
        forall|o: int| 0 <= o < lc0.len() ==> #[trigger] lc_fold(s, ch, lc0, n, lo, t)[o] <= b,
    decreases t,
{
    if t > 0 {
        lemma_lc_fold_bound(s, ch, lc0, n, lo, t - 1, b);
        let prev = lc_fold(s, ch, lc0, n, lo, t - 1);
        let a = ch[ch.len() - t];
        lemma_sub_dag_rows_props(s, prev, a, n, lo, a.round as int);
        let certs = sub_dag_certs(s, prev, a, n, lo);
        assert(forall|i: int| 0 <= i < certs.len() ==> (#[trigger] certs[i]).round <= b);
        lemma_lc_after_props(prev, certs, b);
    }
}

/// As [`lemma_lc_fold_bound`], but strict: watermarks stay strictly below
/// `b` when the starting watermarks and the processed anchors' rounds do.
pub proof fn lemma_lc_fold_bound_strict(
    s: Set<CertificateModel>,
    ch: Seq<CertificateModel>,
    lc0: Seq<u64>,
    n: int,
    lo: u64,
    t: int,
    b: u64,
)
    requires
        0 <= t <= ch.len(),
        b >= 1,
        forall|o: int| 0 <= o < lc0.len() ==> #[trigger] lc0[o] < b,
        forall|i: int| ch.len() - t <= i < ch.len() ==> (#[trigger] ch[i]).round < b,
    ensures
        lc_fold(s, ch, lc0, n, lo, t).len() == lc0.len(),
        forall|o: int| 0 <= o < lc0.len() ==> #[trigger] lc_fold(s, ch, lc0, n, lo, t)[o] < b,
{
    lemma_lc_fold_bound(s, ch, lc0, n, lo, t, (b - 1) as u64);
}

/// The round and membership facts of [`lemma_sub_dag_certs_props`] that hold
/// without any assumption on the anchor's own watermark: every member but
/// the last lies above the watermarks, and the last is the anchor.
pub proof fn lemma_sub_dag_certs_props_weak(
    s: Set<CertificateModel>,
    lc: Seq<u64>,
    anchor: CertificateModel,
    n: int,
    lo: u64,
)
    ensures
        sub_dag_certs(s, lc, anchor, n, lo).len() >= 1,
        sub_dag_certs(s, lc, anchor, n, lo).last() == anchor,
        forall|i: int|
            0 <= i < sub_dag_certs(s, lc, anchor, n, lo).len() - 1 ==> {
                let c = #[trigger] sub_dag_certs(s, lc, anchor, n, lo)[i];
                c.round > lc[c.origin as int] && (c.origin as int) < n && lo <= c.round
                    < anchor.round
            },
{
    lemma_sub_dag_rows_props(s, lc, anchor, n, lo, anchor.round as int);
    let rows = sub_dag_rows(s, lc, anchor, n, lo, anchor.round as int);
    let cur = sub_dag_certs(s, lc, anchor, n, lo);
    assert forall|i: int| 0 <= i < cur.len() - 1 implies {
        let c = #[trigger] cur[i];
        c.round > lc[c.origin as int] && (c.origin as int) < n && lo <= c.round < anchor.round
    } by {
        assert(cur[i] == rows[i]);
    }
}

/// Safety: within one commit, no certificate belongs to two emitted
/// sub-DAGs.  The sub-DAG of a later anchor filters by watermarks that
/// already cover everything an earlier anchor committed, and the later
/// anchor itself sits at a strictly higher round than anything committed
/// before it, so the committed sets are pairwise disjoint; their sub-DAG
/// indices are distinct by construction.
pub proof fn lemma_no_certificate_committed_twice(
    s: Set<CertificateModel>,
    ch: Seq<CertificateModel>,
    lc0: Seq<u64>,
    n: int,
    lo: u64,
    k1: int,
    k2: int,
)
    requires
        0 <= k1 < k2 < ch.len(),
        forall|i: int|
            0 <= i < ch.len() ==> s.contains(#[trigger] ch[i]) && (ch[i].origin as int) < n,
        forall|i: int, j: int|
            0 <= i < j < ch.len() ==> (#[trigger] ch[i]).round > (#[trigger] ch[j]).round,
        lc0.len() == n,
        forall|o: int| 0 <= o < lc0.len() ==> #[trigger] lc0[o] < ch[ch.len() - 1].round,
        lo <= ch[ch.len() - 1].round,
        ch[ch.len() - 1].round >= 1,
    ensures
        forall|i1: int, i2: int|
            0 <= i1 < sub_dag_certs(
                s,
                lc_fold(s, ch, lc0, n, lo, k1),
                ch[ch.len() - 1 - k1],
                n,
                lo,
            ).len() && 0 <= i2 < sub_dag_certs(
                s,
                lc_fold(s, ch, lc0, n, lo, k2),
                ch[ch.len() - 1 - k2],
                n,
                lo,
            ).len() ==> #[trigger] sub_dag_certs(
                s,
                lc_fold(s, ch, lc0, n, lo, k1),
                ch[ch.len() - 1 - k1],
                n,
                lo,
            )[i1] != #[trigger] sub_dag_certs(
                s,
                lc_fold(s, ch, lc0, n, lo, k2),
                ch[ch.len() - 1 - k2],
                n,
                lo,
            )[i2],
{
    let m = ch.len() as int;
    let a1 = ch[m - 1 - k1];
    let a2 = ch[m - 1 - k2];
    let lc1 = lc_fold(s, ch, lc0, n, lo, k1);
    let lc2 = lc_fold(s, ch, lc0, n, lo, k2);
    assert(a1.round < a2.round);
    assert(forall|i: int| m - k1 <= i < m ==> (#[trigger] ch[i]).round < a1.round);
    assert(forall|o: int| 0 <= o < lc0.len() ==> #[trigger] lc0[o] < a1.round);
    lemma_lc_fold_bound_strict(s, ch, lc0, n, lo, k1, a1.round);
    lemma_lc_fold_bound(s, ch, lc0, n, lo, k1 + 1, u64::MAX);
    lemma_lc_fold_bound(s, ch, lc0, n, lo, k2, u64::MAX);
    lemma_sub_dag_certs_props(s, lc1, a1, n, lo);
    lemma_sub_dag_certs_props_weak(s, lc2, a2, n, lo);
    let certs1 = sub_dag_certs(s, lc1, a1, n, lo);
    let certs2 = sub_dag_certs(s, lc2, a2, n, lo);
    assert forall|i1: int, i2: int|
        0 <= i1 < certs1.len() && 0 <= i2 < certs2.len() implies #[trigger] certs1[i1]
        != #[trigger] certs2[i2] by {
        let e = certs1[i1];
        let f = certs2[i2];
        lemma_lc_after_covers(lc1, certs1, i1);
        assert(lc_fold(s, ch, lc0, n, lo, k1 + 1) == lc_after(lc1, certs1));
        assert(lc_fold(s, ch, lc0, n, lo, k1 + 1)[e.origin as int] >= e.round);
        lemma_lc_fold_mono(s, ch, lc0, n, lo, k1 + 1, k2, e.origin as int);
        assert(lc2[e.origin as int] >= e.round);
        if i2 < certs2.len() - 1 {
            assert(f.round > lc2[f.origin as int]);
            if f == e {
                assert(false);
            }
        } else {
            assert(f == a2);
            assert(e.round <= a1.round < a2.round);
        }
    }
}

/// Members of one row come in strictly increasing origin order.
pub proof fn lemma_sub_dag_row_sorted(
    s: Set<CertificateModel>,
    lc: Seq<u64>,
    anchor: CertificateModel,
    r: u64,
    o: int,
)
    requires
        o <= 0x1_0000_0000_0000_0000,
    ensures
        forall|i: int, j: int|
            0 <= i < j < sub_dag_row(s, lc, anchor, r, o).len() ==> (#[trigger] sub_dag_row(
                s,
                lc,
                anchor,
                r,
                o,
            )[i]).origin < (#[trigger] sub_dag_row(s, lc, anchor, r, o)[j]).origin,
    decreases o,
{
    if o > 0 {
        lemma_sub_dag_row_sorted(s, lc, anchor, r, o - 1);
        lemma_sub_dag_row_props(s, lc, anchor, r, o - 1);
        let prev = sub_dag_row(s, lc, anchor, r, o - 1);
        let cur = sub_dag_row(s, lc, anchor, r, o);
        assert forall|i: int, j: int|
            0 <= i < j < cur.len() implies (#[trigger] cur[i]).origin
            < (#[trigger] cur[j]).origin by {
            if j < prev.len() {
                assert(cur[i] == prev[i] && cur[j] == prev[j]);
            } else {
                assert(cur[i] == prev[i]);
                assert(cur[j] == cert_at(s, r, (o - 1) as u64));
                assert(cur[j].origin == o - 1);
            }
        }
    }
}

/// The deterministic presentation order, stated once and proved: inside an
/// ordered sub-DAG the certificates come in strictly ascending (round, then
/// origin) order, and the anchor stands last.  The order is a function of
/// the DAG set, the watermarks and the anchor alone, so every replica
/// presents a committed sub-DAG identically.
pub proof fn lemma_sub_dag_order_canonical(
    s: Set<CertificateModel>,
    lc: Seq<u64>,
    anchor: CertificateModel,
    n: int,
    lo: u64,
)
    requires
        n <= 0x1_0000_0000_0000_0000,
    ensures
        sub_dag_certs(s, lc, anchor, n, lo).last() == anchor,
        forall|i: int, j: int|
            0 <= i < j < sub_dag_certs(s, lc, anchor, n, lo).len() - 1 ==> {
                let a = #[trigger] sub_dag_certs(s, lc, anchor, n, lo)[i];
                let b = #[trigger] sub_dag_certs(s, lc, anchor, n, lo)[j];
                a.round < b.round || (a.round == b.round && a.origin < b.origin)
            },
{
    lemma_sub_dag_rows_sorted(s, lc, anchor, n, lo, anchor.round as int);
    let rows = sub_dag_rows(s, lc, anchor, n, lo, anchor.round as int);
    let cur = sub_dag_certs(s, lc, anchor, n, lo);
    assert forall|i: int, j: int| 0 <= i < j < cur.len() - 1 implies {
        let a = #[trigger] cur[i];
        let b = #[trigger] cur[j];
        a.round < b.round || (a.round == b.round && a.origin < b.origin)
    } by {
        assert(cur[i] == rows[i] && cur[j] == rows[j]);
    }
}

/// Members of the stacked rows come in strictly ascending (round, origin)
/// order.
pub proof fn lemma_sub_dag_rows_sorted(
    s: Set<CertificateModel>,
    lc: Seq<u64>,
    anchor: CertificateModel,
    n: int,
    lo: u64,
    hi: int,
)
    requires
        hi <= 0x1_0000_0000_0000_0000,
        n <= 0x1_0000_0000_0000_0000,
    ensures
        forall|i: int, j: int|
            0 <= i < j < sub_dag_rows(s, lc, anchor, n, lo, hi).len() ==> {
                let a = #[trigger] sub_dag_rows(s, lc, anchor, n, lo, hi)[i];
                let b = #[trigger] sub_dag_rows(s, lc, anchor, n, lo, hi)[j];
                a.round < b.round || (a.round == b.round && a.origin < b.origin)
            },
    decreases hi - lo,
{
    if hi > lo {
        lemma_sub_dag_rows_sorted(s, lc, anchor, n, lo, hi - 1);
        lemma_sub_dag_rows_props(s, lc, anchor, n, lo, hi - 1);
        lemma_sub_dag_row_sorted(s, lc, anchor, (hi - 1) as u64, n);
        lemma_sub_dag_row_props(s, lc, anchor, (hi - 1) as u64, n);
        let prev = sub_dag_rows(s, lc, anchor, n, lo, hi - 1);
        let row = sub_dag_row(s, lc, anchor, (hi - 1) as u64, n);
        let cur = sub_dag_rows(s, lc, anchor, n, lo, hi);
        assert forall|i: int, j: int| 0 <= i < j < cur.len() implies {
            let a = #[trigger] cur[i];
            let b = #[trigger] cur[j];
            a.round < b.round || (a.round == b.round && a.origin < b.origin)
        } by {
            if j < prev.len() {
                assert(cur[i] == prev[i] && cur[j] == prev[j]);
            } else if i < prev.len() {
                assert(cur[i] == prev[i]);
                assert(cur[j] == row[j - prev.len()]);
            } else {
                assert(cur[i] == row[i - prev.len()]);
                assert(cur[j] == row[j - prev.len()]);
            }
        }
    }
}

} // verus!
