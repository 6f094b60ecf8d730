//! The subscriber's decision logic: which payload batches to fetch for a
//! committed sub-DAG, how to assemble the fetched batches into consensus
//! output, and the bounded pipeline that releases outputs strictly in
//! submission order however fetches complete.  The actual fetching — worker
//! requests, retries, timeouts — lives outside the library; it takes the
//! fetch list out and hands the fetched blobs back.

use vstd::prelude::*;

use crate::certificate::{duplicate_sub_dag, CommittedSubDag, SubDagModel};

verus! {

/// A committed sub-DAG together with its fetched payloads: for each
/// certificate of the sub-DAG, in order, the payload batches in the
/// certificate's payload order.
#[derive(Clone, Debug)]
pub struct ConsensusOutput {
    pub sub_dag: CommittedSubDag,
    pub batches: Vec<Vec<Vec<u8>>>,
}

/// The mathematical value of a [`ConsensusOutput`].
#[verifier::ext_equal]
pub ghost struct OutputModel {
    pub sub_dag: SubDagModel,
    pub batches: Seq<Seq<Seq<u8>>>,
}

impl View for ConsensusOutput {
    type V = OutputModel;

    open spec fn view(&self) -> OutputModel {
        OutputModel {
            sub_dag: self.sub_dag@,
            batches: self.batches@.map_values(
                |b: Vec<Vec<u8>>| b@.map_values(|x: Vec<u8>| x@),
            ),
        }
    }
}

/// The `(batch_digest, worker_id)` pairs of the first `k` certificates'
/// payloads, concatenated in order.
pub open spec fn all_payload(certs: Seq<crate::certificate::CertificateModel>, k: int) -> Seq<
    (u64, u64),
>
    decreases k,
{
    if k <= 0 {
        Seq::empty()
    } else {
        all_payload(certs, k - 1) + certs[k - 1].payload
    }
}

/// The first `k` pairs with later repetitions of a digest dropped: each
/// batch is fetched once however many certificates carry it.
pub open spec fn dedup_by_digest(ps: Seq<(u64, u64)>, k: int) -> Seq<(u64, u64)>
    decreases k,
{
    if k <= 0 {
        Seq::empty()
    } else {
        dedup_by_digest(ps, k - 1) + if exists|j: int| 0 <= j < k - 1 && (#[trigger] ps[j]).0 == ps[k
            - 1].0 {
            Seq::empty()
        } else {
            seq![ps[k - 1]]
        }
    }
}

/// The fetch list of a sub-DAG: every distinct payload digest with its
/// worker, in first-occurrence order over the certificates.
pub fn batches_to_fetch(sub_dag: &CommittedSubDag) -> (out: Vec<(u64, u64)>)
    ensures
        out@ == dedup_by_digest(
            all_payload(
                sub_dag@.certificates,
                sub_dag@.certificates.len() as int,
            ),
            all_payload(sub_dag@.certificates, sub_dag@.certificates.len() as int).len() as int,
        ),
{
    let ghost certs = sub_dag@.certificates;
    let nc = sub_dag.certificates.len();
    let mut flat: Vec<(u64, u64)> = Vec::new();
    proof {
        assert(flat@ =~= all_payload(certs, 0));
    }
    for i in 0..nc
        invariant
            nc == sub_dag.certificates@.len(),
            certs == sub_dag@.certificates,
            flat@ == all_payload(certs, i as int),
    {
        let ghost pre = flat@;
        let np = sub_dag.certificates[i].payload.len();
        proof {
            assert(certs[i as int] == sub_dag.certificates@[i as int]@);
        }
        for j in 0..np
            invariant
                nc == sub_dag.certificates@.len(),
                certs == sub_dag@.certificates,
                i < nc,
                np == sub_dag.certificates@[i as int].payload@.len(),
                flat@ == pre + certs[i as int].payload.take(j as int),
        {
            let (d, w) = sub_dag.certificates[i].payload[j];
            flat.push((d, w));
            proof {
                assert(certs[i as int].payload.take(j + 1) =~= certs[i as int].payload.take(
                    j as int,
                ).push(certs[i as int].payload[j as int]));
                assert(flat@ =~= pre + certs[i as int].payload.take(j + 1));
            }
        }
        proof {
            assert(certs[i as int].payload.take(np as int) =~= certs[i as int].payload);
            assert(flat@ =~= all_payload(certs, i + 1));
        }
    }
    let m = flat.len();
    let mut out: Vec<(u64, u64)> = Vec::new();
    proof {
        assert(out@ =~= dedup_by_digest(flat@, 0));
    }
    for k in 0..m
        invariant
            m == flat@.len(),
            out@ == dedup_by_digest(flat@, k as int),
    {
        let mut seen = false;
        for j in 0..k
            invariant
                k < m,
                m == flat@.len(),
                seen == exists|j2: int| 0 <= j2 < j && (#[trigger] flat@[j2]).0 == flat@[k as int].0,
        {
            if flat[j].0 == flat[k].0 {
                seen = true;
            }
        }
        if !seen {
            let (d, w) = flat[k];
            out.push((d, w));
            proof {
                assert(out@ =~= dedup_by_digest(flat@, k + 1));
            }
        } else {
            proof {
                assert(out@ =~= dedup_by_digest(flat@, k + 1));
            }
        }
    }
    out
}

/// The blob stored for a digest: the first entry with that key.
pub open spec fn lookup_batch(fetched: Seq<(u64, Seq<u8>)>, d: u64) -> Option<Seq<u8>>
    decreases fetched.len(),
{
    if fetched.len() == 0 {
        None
    } else if fetched[0].0 == d {
        Some(fetched[0].1)
    } else {
        lookup_batch(fetched.drop_first(), d)
    }
}

/// The view of a fetched-batches vector.
pub open spec fn fetched_view(fetched: Seq<(u64, Vec<u8>)>) -> Seq<(u64, Seq<u8>)> {
    fetched.map_values(|p: (u64, Vec<u8>)| (p.0, p.1@))
}

/// Look a digest up among the fetched batches.
pub fn get_batch(fetched: &Vec<(u64, Vec<u8>)>, d: u64) -> (r: Option<&Vec<u8>>)
    ensures
        match r {
            Some(b) => lookup_batch(fetched_view(fetched@), d) == Some(b@),
            None => lookup_batch(fetched_view(fetched@), d) is None,
        },
{
    let n = fetched.len();
    proof {
        assert(fetched_view(fetched@).subrange(0, n as int) =~= fetched_view(fetched@));
    }
    for i in 0..n
        invariant
            n == fetched@.len(),
            lookup_batch(fetched_view(fetched@), d) == lookup_batch(
                fetched_view(fetched@).subrange(i as int, n as int),
                d,
            ),
    {
        proof {
            assert(fetched_view(fetched@).subrange(i as int, n as int)[0] == fetched_view(
                fetched@,
            )[i as int]);
            assert(fetched_view(fetched@).subrange(i as int, n as int).drop_first()
                =~= fetched_view(fetched@).subrange(i + 1, n as int));
        }
        if fetched[i].0 == d {
            return Some(&fetched[i].1);
        }
    }
    proof {
        assert(fetched_view(fetched@).subrange(n as int, n as int) =~= Seq::<(u64, Seq<u8>)>::empty());
    }
    None
}

/// Record one fetched batch, overwriting any blob already held for its
/// digest.
pub fn add_fetched(fetched: &mut Vec<(u64, Vec<u8>)>, d: u64, batch: Vec<u8>)
    ensures
        lookup_batch(fetched_view(final(fetched)@), d) == Some(batch@),
        forall|q: u64|
            q != d ==> #[trigger] lookup_batch(fetched_view(final(fetched)@), q) == lookup_batch(
                fetched_view(old(fetched)@),
                q,
            ),
{
    let ghost pre = fetched_view(fetched@);
    let n = fetched.len();
    for i in 0..n
        invariant
            n == fetched@.len(),
            pre == fetched_view(fetched@),
            pre == fetched_view(old(fetched)@),
            forall|j: int| 0 <= j < i ==> (#[trigger] pre[j]).0 != d,
    {
        if fetched[i].0 == d {
            fetched[i] = (d, batch);
            proof {
                assert(fetched_view(fetched@) =~= pre.update(i as int, (d, fetched@[i as int].1@)));
                lemma_lookup_update(pre, i as int, d, fetched@[i as int].1@);
            }
            return ;
        }
    }
    fetched.push((d, batch));
    proof {
        assert(fetched_view(fetched@) =~= pre.push((d, batch@)));
        lemma_lookup_push_new(pre, d, batch@);
    }
}

/// Updating the entry at a key's first index changes that key's blob and no
/// other's.
proof fn lemma_lookup_update(s: Seq<(u64, Seq<u8>)>, i: int, d: u64, b: Seq<u8>)
    requires
        0 <= i < s.len(),
        s[i].0 == d,
        forall|j: int| 0 <= j < i ==> (#[trigger] s[j]).0 != d,
    ensures
        lookup_batch(s.update(i, (d, b)), d) == Some(b),
        forall|q: u64|
            q != d ==> #[trigger] lookup_batch(s.update(i, (d, b)), q) == lookup_batch(s, q),
    decreases s.len(),
{
    let u = s.update(i, (d, b));
    if i == 0 {
        assert(u[0] == (d, b));
        assert forall|q: u64| q != d implies #[trigger] lookup_batch(u, q) == lookup_batch(
            s,
            q,
        ) by {
            assert(u.drop_first() =~= s.drop_first());
            assert(lookup_batch(u, q) == lookup_batch(u.drop_first(), q));
            assert(lookup_batch(s, q) == lookup_batch(s.drop_first(), q));
        }
    } else {
        lemma_lookup_update(s.drop_first(), i - 1, d, b);
        assert(u.drop_first() =~= s.drop_first().update(i - 1, (d, b)));
        assert(u[0] == s[0]);
        assert(s[0].0 != d);
        assert forall|q: u64| q != d implies #[trigger] lookup_batch(u, q) == lookup_batch(
            s,
            q,
        ) by {
            if u[0].0 == q {
                assert(lookup_batch(u, q) == Some(u[0].1));
                assert(lookup_batch(s, q) == Some(s[0].1));
            } else {
                assert(lookup_batch(u, q) == lookup_batch(u.drop_first(), q));
                assert(lookup_batch(s, q) == lookup_batch(s.drop_first(), q));
                assert(lookup_batch(s.drop_first().update(i - 1, (d, b)), q) == lookup_batch(
                    s.drop_first(),
                    q,
                ));
            }
        }
    }
}

/// Appending a fresh key stores its blob and leaves every other key's blob
/// alone.
proof fn lemma_lookup_push_new(s: Seq<(u64, Seq<u8>)>, d: u64, b: Seq<u8>)
    requires
        forall|j: int| 0 <= j < s.len() ==> (#[trigger] s[j]).0 != d,
    ensures
        lookup_batch(s.push((d, b)), d) == Some(b),
        forall|q: u64|
            q != d ==> #[trigger] lookup_batch(s.push((d, b)), q) == lookup_batch(s, q),
    decreases s.len(),
{
    let u = s.push((d, b));
    if s.len() == 0 {
        assert(u[0] == (d, b));
        assert forall|q: u64| q != d implies #[trigger] lookup_batch(u, q) == lookup_batch(
            s,
            q,
        ) by {
            assert(u.drop_first() =~= Seq::<(u64, Seq<u8>)>::empty());
            assert(lookup_batch(u, q) == lookup_batch(u.drop_first(), q));
        }
    } else {
        lemma_lookup_push_new(s.drop_first(), d, b);
        assert(u.drop_first() =~= s.drop_first().push((d, b)));
        assert(u[0] == s[0]);
        assert forall|q: u64| q != d implies #[trigger] lookup_batch(u, q) == lookup_batch(
            s,
            q,
        ) by {
            if u[0].0 == q {
                assert(lookup_batch(u, q) == Some(u[0].1));
                assert(lookup_batch(s, q) == Some(s[0].1));
            } else {
                assert(lookup_batch(u, q) == lookup_batch(u.drop_first(), q));
                assert(lookup_batch(s, q) == lookup_batch(s.drop_first(), q));
                assert(lookup_batch(s.drop_first().push((d, b)), q) == lookup_batch(
                    s.drop_first(),
                    q,
                ));
            }
        }
    }
}

/// Whether every payload digest of every certificate of the sub-DAG has a
/// fetched blob.
pub open spec fn all_batches_fetched(sd: SubDagModel, fetched: Seq<(u64, Seq<u8>)>) -> bool {
    forall|i: int, j: int|
        0 <= i < sd.certificates.len() && 0 <= j < sd.certificates[i].payload.len()
            ==> lookup_batch(fetched, (#[trigger] sd.certificates[i].payload[j]).0) is Some
}

/// Assemble the consensus output of a sub-DAG from the fetched batches:
/// for each certificate, in order, its payload blobs in payload order.
/// Returns nothing when some payload digest has no fetched blob — upstream
/// guarantees this never happens for an honestly fetched sub-DAG.
pub fn assemble_output(sub_dag: &CommittedSubDag, fetched: &Vec<(u64, Vec<u8>)>) -> (r: Option<
    ConsensusOutput,
>)
    ensures
        match r {
            Some(out) => {
                &&& all_batches_fetched(sub_dag@, fetched_view(fetched@))
                &&& out@.sub_dag == sub_dag@
                &&& out@.batches.len() == sub_dag@.certificates.len()
                &&& forall|i: int|
                    0 <= i < sub_dag@.certificates.len() ==> (#[trigger] out@.batches[i]).len()
                        == sub_dag@.certificates[i].payload.len()
                &&& forall|i: int, j: int|
                    0 <= i < sub_dag@.certificates.len() && 0 <= j
                        < sub_dag@.certificates[i].payload.len() ==> Some(
                        #[trigger] out@.batches[i][j],
                    ) == lookup_batch(
                        fetched_view(fetched@),
                        sub_dag@.certificates[i].payload[j].0,
                    )
            },
            None => !all_batches_fetched(sub_dag@, fetched_view(fetched@)),
        },
{
    let nc = sub_dag.certificates.len();
    let mut batches: Vec<Vec<Vec<u8>>> = Vec::new();
    for i in 0..nc
        invariant
            nc == sub_dag.certificates@.len(),
            batches@.len() == i,
            forall|i2: int|
                0 <= i2 < i ==> (#[trigger] batches@[i2]).len()
                    == sub_dag@.certificates[i2].payload.len(),
            forall|i2: int, j: int|
                0 <= i2 < i && 0 <= j < sub_dag@.certificates[i2].payload.len() ==> Some(
                    batches@[i2]@[j]@,
                ) == lookup_batch(
                    fetched_view(fetched@),
                    (#[trigger] sub_dag@.certificates[i2].payload[j]).0,
                ),
    {
        let np = sub_dag.certificates[i].payload.len();
        let mut row: Vec<Vec<u8>> = Vec::new();
        proof {
            assert(sub_dag@.certificates[i as int] == sub_dag.certificates@[i as int]@);
        }
        for j in 0..np
            invariant
                nc == sub_dag.certificates@.len(),
                i < nc,
                np == sub_dag.certificates@[i as int].payload@.len(),
                row@.len() == j,
                forall|j2: int|
                    0 <= j2 < j ==> Some((#[trigger] row@[j2])@) == lookup_batch(
                        fetched_view(fetched@),
                        sub_dag@.certificates[i as int].payload[j2].0,
                    ),
        {
            let (d, _) = sub_dag.certificates[i].payload[j];
            match get_batch(fetched, d) {
                Some(b) => {
                    row.push(crate::certificate::copy_u8_vec(b));
                },
                None => {
                    proof {
                        assert(!all_batches_fetched(sub_dag@, fetched_view(fetched@)));
                    }
                    return None;
                },
            }
        }
        batches.push(row);
    }
    let out = ConsensusOutput { sub_dag: duplicate_sub_dag(sub_dag), batches };
    proof {
        assert forall|i: int, j: int|
            0 <= i < sub_dag@.certificates.len() && 0 <= j
                < sub_dag@.certificates[i].payload.len() implies lookup_batch(
            fetched_view(fetched@),
            (#[trigger] sub_dag@.certificates[i].payload[j]).0,
        ) is Some by {
            assert(Some(out@.batches[i][j]) == lookup_batch(
                fetched_view(fetched@),
                sub_dag@.certificates[i].payload[j].0,
            ));
        }
    }
    Some(out)
}

/// One slot of the pipeline: a submitted sub-DAG, its submission number, and
/// its output once the fetch completed.
#[derive(Debug)]
pub struct PendingFetch {
    pub seq_no: u64,
    pub sub_dag: CommittedSubDag,
    pub output: Option<ConsensusOutput>,
}

/// The order-preserving completion pipeline of the subscriber: sub-DAGs are
/// submitted in consensus order, fetches complete in any order, and outputs
/// leave strictly in submission order — never more than `max_pending` in
/// flight.
#[derive(Debug)]
pub struct SubscriberQueue {
    /// Bound on the fetches in flight; submissions above it wait.
    pub max_pending: usize,
    /// How many outputs have been released.
    pub released: u64,
    /// The in-flight slots, oldest first.
    pub pending: Vec<PendingFetch>,
}

impl SubscriberQueue {
    /// Slot `k` carries submission number `released + k`: releases happen
    /// exactly in submission order.
    pub open spec fn wf(self) -> bool {
        &&& self.max_pending >= 1
        &&& self.pending@.len() <= self.max_pending
        &&& self.released + self.pending@.len() <= u64::MAX
        &&& forall|k: int|
            0 <= k < self.pending@.len() ==> (#[trigger] self.pending@[k]).seq_no == self.released
                + k
    }

    /// An empty pipeline with the given bound.
    pub fn new(max_pending: usize) -> (q: SubscriberQueue)
        requires
            max_pending >= 1,
        ensures
            q.wf(),
            q.pending@.len() == 0,
            q.released == 0,
            q.max_pending == max_pending,
    {
        SubscriberQueue { max_pending, released: 0, pending: Vec::new() }
    }

    /// Whether another sub-DAG may be submitted, or backpressure holds it.
    pub fn can_submit(&self) -> (r: bool)
        ensures
            r == (self.pending@.len() < self.max_pending),
    {
        self.pending.len() < self.max_pending
    }

    /// Submit the next sub-DAG for fetching.  It takes the next submission
    /// number and goes to the back of the pipeline.
    pub fn submit(&mut self, sub_dag: CommittedSubDag) -> (seq_no: u64)
        requires
            old(self).wf(),
            old(self).pending@.len() < old(self).max_pending,
            old(self).released + old(self).pending@.len() < u64::MAX,
        ensures
            final(self).wf(),
            final(self).max_pending == old(self).max_pending,
            final(self).released == old(self).released,
            final(self).pending@.len() == old(self).pending@.len() + 1,
            final(self).pending@.last().sub_dag@ == sub_dag@,
            final(self).pending@.last().output is None,
            seq_no == old(self).released + old(self).pending@.len(),
            forall|k: int|
                0 <= k < old(self).pending@.len() ==> final(self).pending@[k] == old(
                    self,
                ).pending@[k],
    {
        let seq_no = self.released + self.pending.len() as u64;
        self.pending.push(PendingFetch { seq_no, sub_dag, output: None });
        seq_no
    }

    /// Record a completed fetch for the slot at position `i`; completions
    /// may arrive in any order.
    pub fn complete(&mut self, i: usize, output: ConsensusOutput)
        requires
            old(self).wf(),
            i < old(self).pending@.len(),
            output.sub_dag@ == old(self).pending@[i as int].sub_dag@,
        ensures
            final(self).wf(),
            final(self).max_pending == old(self).max_pending,
            final(self).released == old(self).released,
            final(self).pending@.len() == old(self).pending@.len(),
            final(self).pending@[i as int].output matches Some(o) && o@ == output@,
            final(self).pending@[i as int].seq_no == old(self).pending@[i as int].seq_no,
            final(self).pending@[i as int].sub_dag@ == old(self).pending@[i as int].sub_dag@,
            forall|k: int|
                0 <= k < old(self).pending@.len() && k != i ==> final(self).pending@[k] == old(
                    self,
                ).pending@[k],
    {
        let seq_no = self.pending[i].seq_no;
        let sub_dag = duplicate_sub_dag(&self.pending[i].sub_dag);
        self.pending[i] = PendingFetch { seq_no, sub_dag, output: Some(output) };
    }

    /// Release the next output: only the oldest slot may leave, and only
    /// once its fetch completed.  Outputs therefore leave in exactly the
    /// order their sub-DAGs were submitted, whatever order fetches finish.
    pub fn try_release(&mut self) -> (r: Option<ConsensusOutput>)
        requires
            old(self).wf(),
        ensures
            final(self).wf(),
            final(self).max_pending == old(self).max_pending,
            if old(self).pending@.len() > 0 && old(self).pending@[0].output is Some {
                &&& r matches Some(out) && Some(out@) == (match old(self).pending@[0].output {
                    Some(o) => Some(o@),
                    None => None,
                })
                &&& final(self).released == old(self).released + 1
                &&& old(self).pending@[0].seq_no == old(self).released
                &&& final(self).pending@ == old(self).pending@.drop_first()
            } else {
                &&& r is None
                &&& final(self).released == old(self).released
                &&& final(self).pending@ == old(self).pending@
            },
    {
        if self.pending.len() == 0 {
            return None;
        }
        let head_ready = match &self.pending[0].output {
            Some(_) => true,
            None => false,
        };
        if !head_ready {
            return None;
        }
        let slot = self.pending.remove(0);
        self.released = self.released + 1;
        proof {
            assert(self.pending@ =~= old(self).pending@.drop_first());
        }
        match slot.output {
            Some(out) => Some(out),
            None => None,
        }
    }
}

/// The worker name recorded for an authority: the first entry with its key.
pub open spec fn lookup_worker(cache: Seq<(u64, u64)>, authority: u64) -> Option<u64>
    decreases cache.len(),
{
    if cache.len() == 0 {
        None
    } else if cache[0].0 == authority {
        Some(cache[0].1)
    } else {
        lookup_worker(cache.drop_first(), authority)
    }
}

/// The worker names of the first `k` authorities that the cache knows, in
/// order; authorities without a cached worker are skipped.
pub open spec fn worker_names(signed: Seq<u64>, cache: Seq<(u64, u64)>, k: int) -> Seq<u64>
    decreases k,
{
    if k <= 0 {
        Seq::empty()
    } else {
        worker_names(signed, cache, k - 1) + match lookup_worker(cache, signed[k - 1]) {
            Some(w) => seq![w],
            None => Seq::empty(),
        }
    }
}

/// The workers to fetch a certificate's payload from: the cached worker of
/// each signing authority, in signature order, unknown authorities skipped.
pub fn workers_for_certificate(signed: &Vec<u64>, cache: &Vec<(u64, u64)>) -> (out: Vec<u64>)
    ensures
        out@ == worker_names(signed@, cache@, signed@.len() as int),
{
    let n = signed.len();
    let mut out: Vec<u64> = Vec::new();
    proof {
        assert(out@ =~= worker_names(signed@, cache@, 0));
    }
    for i in 0..n
        invariant
            n == signed@.len(),
            out@ == worker_names(signed@, cache@, i as int),
    {
        let ghost pre = out@;
        match lookup_worker_exec(cache, signed[i]) {
            Some(w) => {
                out.push(w);
                proof {
                    assert(out@ =~= worker_names(signed@, cache@, i + 1));
                }
            },
            None => {
                proof {
                    assert(out@ =~= worker_names(signed@, cache@, i + 1));
                }
            },
        }
    }
    out
}

/// Look an authority's worker up in the cache.
fn lookup_worker_exec(cache: &Vec<(u64, u64)>, authority: u64) -> (r: Option<u64>)
    ensures
        r == lookup_worker(cache@, authority),
{
    let n = cache.len();
    proof {
        assert(cache@.subrange(0, n as int) =~= cache@);
    }
    for i in 0..n
        invariant
            n == cache@.len(),
            lookup_worker(cache@, authority) == lookup_worker(
                cache@.subrange(i as int, n as int),
                authority,
            ),
    {
        proof {
            assert(cache@.subrange(i as int, n as int)[0] == cache@[i as int]);
            assert(cache@.subrange(i as int, n as int).drop_first() =~= cache@.subrange(
                i + 1,
                n as int,
            ));
        }
        if cache[i].0 == authority {
            return Some(cache[i].1);
        }
    }
    proof {
        assert(cache@.subrange(n as int, n as int) =~= Seq::<(u64, u64)>::empty());
    }
    None
}

} // verus!
