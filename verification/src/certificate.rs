//! Certificates, committed sub-DAGs, and the outcome and error types of the
//! ordering engine.

use vstd::prelude::*;

verus! {

/// An immutable block certificate, the engine's unit of input.
///
/// The engine does not authenticate certificates: it receives validated
/// input, and a certificate's digest is trusted to be a collision-resistant
/// hash of its content, so distinct certificates carry distinct digests.
/// Parents are digests of certificates of `round - 1`; a certificate of
/// round 1 has no parents (its parents are the synthesized genesis
/// certificates, which are never presented to the engine).  The payload is a
/// list of `(batch_digest, worker_id)` references, opaque to the ordering
/// rule; only the downstream subscriber reads it.
#[derive(Clone, Debug, PartialEq, Eq)]
pub struct Certificate {
    pub round: u64,
    pub epoch: u64,
    pub origin: u64,
    pub digest: u64,
    pub parents: Vec<u64>,
    pub payload: Vec<(u64, u64)>,
}

/// The mathematical value of a [`Certificate`]: the same fields with the
/// vectors abstracted to sequences.  All contracts of the engine speak of
/// certificates through this view.
#[verifier::ext_equal]
pub ghost struct CertificateModel {
    pub round: u64,
    pub epoch: u64,
    pub origin: u64,
    pub digest: u64,
    pub parents: Seq<u64>,
    pub payload: Seq<(u64, u64)>,
}

impl View for Certificate {
    type V = CertificateModel;

    open spec fn view(&self) -> CertificateModel {
        CertificateModel {
            round: self.round,
            epoch: self.epoch,
            origin: self.origin,
            digest: self.digest,
            parents: self.parents@,
            payload: self.payload@,
        }
    }
}

/// An ordered sequence of certificates committed together: the certificates
/// causally reachable from `anchor` that no earlier anchor committed, in
/// deterministic order (ascending round, then ascending origin, the anchor
/// last), plus the anchor itself and the running sub-DAG index.
#[derive(Clone, Debug, PartialEq, Eq)]
pub struct CommittedSubDag {
    pub anchor: Certificate,
    pub certificates: Vec<Certificate>,
    pub sub_dag_index: u64,
}

/// The mathematical value of a [`CommittedSubDag`].
#[verifier::ext_equal]
pub ghost struct SubDagModel {
    pub anchor: CertificateModel,
    pub certificates: Seq<CertificateModel>,
    pub sub_dag_index: u64,
}

impl View for CommittedSubDag {
    type V = SubDagModel;

    open spec fn view(&self) -> SubDagModel {
        SubDagModel {
            anchor: self.anchor@,
            certificates: self.certificates@.map_values(|c: Certificate| c@),
            sub_dag_index: self.sub_dag_index,
        }
    }
}

/// What processing one certificate did.
#[derive(Clone, Copy, Debug, PartialEq, Eq, Structural)]
pub enum Outcome {
    /// The certificate entered the DAG; no anchor became committable.
    Accepted,
    /// The certificate entered the DAG and triggered one or more commits.
    AcceptedWithCommit,
    /// The certificate's round is at or below the garbage-collection round;
    /// the engine cannot reason about collected history and ignored it.
    Skipped,
}

/// Why a certificate was refused.  Refusal never mutates state.
#[derive(Clone, Copy, Debug, PartialEq, Eq, Structural)]
pub enum ConsensusError {
    /// The certificate's epoch is not the committee's epoch.
    UnknownEpoch,
    /// The certificate's origin is not an authority of the committee.
    UnknownAuthority,
    /// A parent digest does not resolve to a stored certificate of the
    /// previous round, although that round is above the collection boundary.
    UnknownParent,
    /// The combined stake of the certificate's parents is below the quorum
    /// threshold: an upstream invariant violation.
    ParentsBelowQuorum,
    /// The DAG already holds a different certificate with this certificate's
    /// (round, origin) slot or with its digest: equivocation or a digest
    /// collision, filtered upstream when the input is honest.
    AlreadyPresent,
}

impl Certificate {
    /// Field-for-field copy.  Spelled out so that verified callers know the
    /// copy's value equals the original's.
    pub fn duplicate(&self) -> (r: Certificate)
        ensures
            r@ == self@,
    {
        let r = Certificate {
            round: self.round,
            epoch: self.epoch,
            origin: self.origin,
            digest: self.digest,
            parents: copy_u64_vec(&self.parents),
            payload: copy_pair_vec(&self.payload),
        };
        proof {
            assert(r@ =~= self@);
        }
        r
    }

    /// Whether `digest` is one of this certificate's parent digests.
    pub fn has_parent(&self, digest: u64) -> (r: bool)
        ensures
            r == self@.parents.contains(digest),
    {
        let n = self.parents.len();
        for i in 0..n
            invariant
                n == self.parents@.len(),
                forall|j: int| 0 <= j < i ==> self.parents@[j] != digest,
        {
            if self.parents[i] == digest {
                return true;
            }
        }
        false
    }
}

/// An element-for-element copy of a vector of integers.
pub fn copy_u64_vec(v: &Vec<u64>) -> (r: Vec<u64>)
    ensures
        r@ == v@,
{
    let n = v.len();
    let mut r: Vec<u64> = Vec::new();
    for i in 0..n
        invariant
            n == v@.len(),
            r@ == v@.take(i as int),
    {
        r.push(v[i]);
        proof {
            assert(r@ =~= v@.take(i + 1));
        }
    }
    proof {
        assert(v@.take(n as int) =~= v@);
    }
    r
}

/// An element-for-element copy of a vector of integer pairs.
pub fn copy_pair_vec(v: &Vec<(u64, u64)>) -> (r: Vec<(u64, u64)>)
    ensures
        r@ == v@,
{
    let n = v.len();
    let mut r: Vec<(u64, u64)> = Vec::new();
    for i in 0..n
        invariant
            n == v@.len(),
            r@ == v@.take(i as int),
    {
        let (a, b) = v[i];
        r.push((a, b));
        proof {
            assert(r@ =~= v@.take(i + 1));
        }
    }
    proof {
        assert(v@.take(n as int) =~= v@);
    }
    r
}

/// Field-for-field copy of a committed sub-DAG.
pub fn duplicate_sub_dag(s: &CommittedSubDag) -> (r: CommittedSubDag)
    ensures
        r@ == s@,
{
    let r = CommittedSubDag {
        anchor: s.anchor.duplicate(),
        certificates: copy_certificates(&s.certificates),
        sub_dag_index: s.sub_dag_index,
    };
    proof {
        assert(r@.certificates =~= s@.certificates);
        assert(r@ =~= s@);
    }
    r
}

/// An element-for-element copy of a vector of certificates; the copy's view
/// equals the original's.
pub fn copy_certificates(v: &Vec<Certificate>) -> (r: Vec<Certificate>)
    ensures
        r@.map_values(|c: Certificate| c@) == v@.map_values(|c: Certificate| c@),
        r@.len() == v@.len(),
{
    let n = v.len();
    let mut r: Vec<Certificate> = Vec::new();
    for i in 0..n
        invariant
            n == v@.len(),
            r@.len() == i,
            forall|j: int| 0 <= j < i ==> #[trigger] r@[j]@ == v@[j]@,
    {
        r.push(v[i].duplicate());
    }
    proof {
        assert(r@.map_values(|c: Certificate| c@) =~= v@.map_values(|c: Certificate| c@));
    }
    r
}


/// An element-for-element copy of a byte vector.
pub fn copy_u8_vec(v: &Vec<u8>) -> (r: Vec<u8>)
    ensures
        r@ == v@,
{
    let n = v.len();
    let mut r: Vec<u8> = Vec::new();
    for i in 0..n
        invariant
            n == v@.len(),
            r@ == v@.take(i as int),
    {
        r.push(v[i]);
        proof {
            assert(r@ =~= v@.take(i + 1));
        }
    }
    proof {
        assert(v@.take(n as int) =~= v@);
    }
    r
}

} // verus!
