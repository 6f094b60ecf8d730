//! The in-memory certificate DAG: at most one certificate per (round,
//! origin), digests unique, parents one round down.
//!
//! Every specification of the commit rule is stated over [`Dag::as_set`], the
//! *set* of certificate values the store holds.  The vector underneath records
//! arrival order, and nothing the engine returns depends on it: that is the
//! determinism argument, made once here and inherited by every caller.

use vstd::prelude::*;

use crate::certificate::{Certificate, CertificateModel};
use crate::committee::{lemma_stake_prefix_mono, stake_prefix, Authority, Committee};

verus! {

/// Insertion failures of the DAG store (see also
/// [`crate::certificate::ConsensusError`], which the engine reports).
#[derive(Clone, Copy, Debug, PartialEq, Eq, Structural)]
pub enum InsertError {
    /// The slot or the digest is taken by a different certificate.
    AlreadyPresent,
    /// The certificate's round is at or below the garbage-collection round.
    BelowGc,
}

/// The certificate store: an arena of certificates indexed by (round,
/// origin) and by digest.
#[derive(Clone, Debug)]
pub struct Dag {
    pub certs: Vec<Certificate>,
}

/// The set of certificate values a sequence holds.
pub open spec fn cert_set(q: Seq<CertificateModel>) -> Set<CertificateModel> {
    Set::new(|c: CertificateModel| q.contains(c))
}

/// Whether some certificate of `s` occupies the slot (`round`, `origin`).
pub open spec fn has_slot(s: Set<CertificateModel>, round: u64, origin: u64) -> bool {
    exists|c: CertificateModel| s.contains(c) && c.round == round && c.origin == origin
}

/// The certificate of `s` at the slot (`round`, `origin`); well defined when
/// the slot is occupied and `s` is well formed.
pub open spec fn cert_at(s: Set<CertificateModel>, round: u64, origin: u64) -> CertificateModel {
    choose|c: CertificateModel| s.contains(c) && c.round == round && c.origin == origin
}

/// Whether some certificate of `s` carries `digest`.
pub open spec fn has_digest(s: Set<CertificateModel>, digest: u64) -> bool {
    exists|c: CertificateModel| s.contains(c) && c.digest == digest
}

/// The certificate of `s` with `digest`; well defined when present and `s`
/// is well formed.
pub open spec fn cert_by_digest(s: Set<CertificateModel>, digest: u64) -> CertificateModel {
    choose|c: CertificateModel| s.contains(c) && c.digest == digest
}

/// A set of certificates is well formed when slots and digests are unique:
/// equivocation and digest collisions are filtered upstream.
pub open spec fn set_wf(s: Set<CertificateModel>) -> bool {
    &&& forall|c1: CertificateModel, c2: CertificateModel|
        #[trigger] s.contains(c1) && #[trigger] s.contains(c2) && c1.round == c2.round
            && c1.origin == c2.origin ==> c1 == c2
    &&& forall|c1: CertificateModel, c2: CertificateModel|
        #[trigger] s.contains(c1) && #[trigger] s.contains(c2) && c1.digest == c2.digest ==> c1
            == c2
}

/// Pairwise uniqueness of slots and digests along a sequence.
pub open spec fn seq_wf(s: Seq<CertificateModel>) -> bool {
    forall|i: int, j: int|
        0 <= i < j < s.len() ==> !(#[trigger] s[i].round == #[trigger] s[j].round && s[i].origin
            == s[j].origin) && s[i].digest != s[j].digest
}

/// Causal reachability: `anchor` reaches `c` when `c` is `anchor` itself or a
/// certificate of a lower round that some reachable certificate of the next
/// round lists as a parent.  Edges go to strictly lower rounds, so the
/// recursion is well founded.
pub open spec fn reaches(
    s: Set<CertificateModel>,
    anchor: CertificateModel,
    c: CertificateModel,
) -> bool
    decreases anchor.round - c.round,
{
    if c.round >= anchor.round {
        c == anchor
    } else {
        exists|p: CertificateModel|
            s.contains(p) && p.round == c.round + 1 && #[trigger] p.parents.contains(c.digest)
                && reaches(s, anchor, p)
    }
}

/// Combined stake of the certificates of `vote_round` among the first `o`
/// authorities whose parent list includes `anchor_digest`: the support the
/// anchor has gathered from the voting round.
pub open spec fn support_stake(
    s: Set<CertificateModel>,
    com: Seq<Authority>,
    vote_round: u64,
    anchor_digest: u64,
    o: int,
) -> int
    decreases o,
{
    if o <= 0 {
        0
    } else {
        support_stake(s, com, vote_round, anchor_digest, o - 1) + if has_slot(
            s,
            vote_round,
            (o - 1) as u64,
        ) && cert_at(s, vote_round, (o - 1) as u64).parents.contains(anchor_digest) {
            com[o - 1].stake as int
        } else {
            0
        }
    }
}

/// Support never exceeds the stake of the authorities counted.
pub proof fn lemma_support_stake_le_prefix(
    s: Set<CertificateModel>,
    com: Seq<Authority>,
    vote_round: u64,
    anchor_digest: u64,
    o: int,
)
    ensures
        support_stake(s, com, vote_round, anchor_digest, o) <= stake_prefix(com, o),
        support_stake(s, com, vote_round, anchor_digest, o) >= 0,
    decreases o,
{
    if o > 0 {
        lemma_support_stake_le_prefix(s, com, vote_round, anchor_digest, o - 1);
    }
}

/// The occupied slots of `round` among the first `o` origins, in ascending
/// origin order, each with its certificate.
pub open spec fn round_row(s: Set<CertificateModel>, round: u64, o: int) -> Seq<
    (u64, CertificateModel),
>
    decreases o,
{
    if o <= 0 {
        Seq::empty()
    } else {
        round_row(s, round, o - 1) + if has_slot(s, round, (o - 1) as u64) {
            seq![((o - 1) as u64, cert_at(s, round, (o - 1) as u64))]
        } else {
            Seq::empty()
        }
    }
}

/// `ds` holds exactly the digests of the certificates of round `r` that
/// `anchor` causally reaches.
pub open spec fn frontier_ok(
    s: Set<CertificateModel>,
    anchor: CertificateModel,
    r: u64,
    ds: Seq<u64>,
) -> bool {
    forall|d: u64| #[trigger]
        ds.contains(d) <==> exists|c: CertificateModel|
            s.contains(c) && c.round == r && c.digest == d && reaches(s, anchor, c)
}

/// A certificate reached at the anchor's own round is the anchor.
pub proof fn lemma_reaches_same_round(
    s: Set<CertificateModel>,
    anchor: CertificateModel,
    c: CertificateModel,
)
    requires
        reaches(s, anchor, c),
        c.round >= anchor.round,
    ensures
        c == anchor,
{
}

impl Dag {
    /// The certificate values in arrival order.
    pub open spec fn seq(self) -> Seq<CertificateModel> {
        self.certs@.map_values(|c: Certificate| c@)
    }

    /// The certificate values as a set: the abstraction every contract of
    /// the commit rule is stated over.
    pub open spec fn as_set(self) -> Set<CertificateModel> {
        cert_set(self.seq())
    }

    /// Slots and digests are unique.
    pub open spec fn wf(self) -> bool {
        seq_wf(self.seq())
    }

    /// An empty store.
    pub fn new() -> (d: Dag)
        ensures
            d.seq() == Seq::<CertificateModel>::empty(),
            d.wf(),
    {
        let d = Dag { certs: Vec::new() };
        proof {
            assert(d.seq() =~= Seq::<CertificateModel>::empty());
        }
        d
    }

    /// Sequence-level uniqueness gives set-level uniqueness.
    pub proof fn lemma_set_wf(self)
        requires
            self.wf(),
        ensures
            set_wf(self.as_set()),
    {
        assert forall|c1: CertificateModel, c2: CertificateModel|
            #[trigger] self.as_set().contains(c1) && #[trigger] self.as_set().contains(c2) && ((
            c1.round == c2.round && c1.origin == c2.origin) || c1.digest
                == c2.digest) implies c1 == c2 by {
            let i = choose|i: int| 0 <= i < self.seq().len() && self.seq()[i] == c1;
            let j = choose|j: int| 0 <= j < self.seq().len() && self.seq()[j] == c2;
            assert(self.seq()[i] == c1 && self.seq()[j] == c2);
        }
    }

    /// The certificate at (`round`, `origin`), if that slot is occupied.
    pub fn get(&self, round: u64, origin: u64) -> (r: Option<&Certificate>)
        requires
            self.wf(),
        ensures
            match r {
                Some(c) => has_slot(self.as_set(), round, origin) && c@ == cert_at(
                    self.as_set(),
                    round,
                    origin,
                ) && self.as_set().contains(c@),
                None => !has_slot(self.as_set(), round, origin),
            },
    {
        let n = self.certs.len();
        for i in 0..n
            invariant
                n == self.certs@.len(),
                self.wf(),
                forall|j: int|
                    0 <= j < i ==> !(#[trigger] self.seq()[j].round == round && self.seq()[j].origin
                        == origin),
        {
            if self.certs[i].round == round && self.certs[i].origin == origin {
                let c = &self.certs[i];
                proof {
                    assert(self.seq()[i as int] == c@);
                    assert(self.as_set().contains(c@));
                    self.lemma_set_wf();
                }
                return Some(c);
            }
        }
        proof {
            assert forall|c: CertificateModel|
                self.as_set().contains(c) implies !(c.round == round && c.origin == origin) by {
                let j = choose|j: int| 0 <= j < self.seq().len() && self.seq()[j] == c;
                assert(self.seq()[j] == c);
            }
        }
        None
    }

    /// The certificate carrying `digest`, if any.
    pub fn get_by_digest(&self, digest: u64) -> (r: Option<&Certificate>)
        requires
            self.wf(),
        ensures
            match r {
                Some(c) => has_digest(self.as_set(), digest) && c@ == cert_by_digest(
                    self.as_set(),
                    digest,
                ) && self.as_set().contains(c@),
                None => !has_digest(self.as_set(), digest),
            },
    {
        let n = self.certs.len();
        for i in 0..n
            invariant
                n == self.certs@.len(),
                self.wf(),
                forall|j: int| 0 <= j < i ==> #[trigger] self.seq()[j].digest != digest,
        {
            if self.certs[i].digest == digest {
                let c = &self.certs[i];
                proof {
                    assert(self.seq()[i as int] == c@);
                    assert(self.as_set().contains(c@));
                    self.lemma_set_wf();
                }
                return Some(c);
            }
        }
        proof {
            assert forall|c: CertificateModel|
                self.as_set().contains(c) implies c.digest != digest by {
                let j = choose|j: int| 0 <= j < self.seq().len() && self.seq()[j] == c;
                assert(self.seq()[j] == c);
            }
        }
        None
    }

    /// Insert a certificate.  Fails with `BelowGc` at or below the
    /// garbage-collection round and with `AlreadyPresent` when the slot or
    /// the digest is taken by a different certificate; re-inserting the
    /// certificate whose digest the slot already holds is accepted and
    /// changes nothing.
    pub fn insert(&mut self, cert: &Certificate, gc_round: u64) -> (r: Result<(), InsertError>)
        requires
            old(self).wf(),
        ensures
            final(self).wf(),
            match r {
                Ok(()) => cert.round > gc_round && if has_slot(
                    old(self).as_set(),
                    cert.round,
                    cert.origin,
                ) {
                    cert_at(old(self).as_set(), cert.round, cert.origin).digest == cert.digest
                        && final(self).seq() == old(self).seq()
                } else {
                    !has_digest(old(self).as_set(), cert.digest) && final(self).seq() == old(
                        self,
                    ).seq().push(cert@)
                },
                Err(InsertError::BelowGc) => cert.round <= gc_round && final(self).seq() == old(
                    self,
                ).seq(),
                Err(InsertError::AlreadyPresent) => {
                    &&& cert.round > gc_round
                    &&& final(self).seq() == old(self).seq()
                    &&& (has_slot(old(self).as_set(), cert.round, cert.origin) && cert_at(
                        old(self).as_set(),
                        cert.round,
                        cert.origin,
                    ).digest != cert.digest) || (!has_slot(
                        old(self).as_set(),
                        cert.round,
                        cert.origin,
                    ) && has_digest(old(self).as_set(), cert.digest))
                },
            },
    {
        if cert.round <= gc_round {
            return Err(InsertError::BelowGc);
        }
        let occupant = self.get(cert.round, cert.origin);
        match occupant {
            Some(existing) => {
                if existing.digest == cert.digest {
                    Ok(())
                } else {
                    Err(InsertError::AlreadyPresent)
                }
            },
            None => {
                match self.get_by_digest(cert.digest) {
                    Some(_) => Err(InsertError::AlreadyPresent),
                    None => {
                        let ghost old_seq = self.seq();
                        proof {
                            assert forall|j: int| 0 <= j < old_seq.len() implies !(
                            #[trigger] old_seq[j].round == cert.round && old_seq[j].origin
                                == cert.origin) && old_seq[j].digest != cert.digest by {
                                assert(self.as_set().contains(old_seq[j]));
                            }
                        }
                        self.certs.push(cert.duplicate());
                        proof {
                            assert(self.seq() =~= old_seq.push(cert@));
                        }
                        Ok(())
                    },
                }
            },
        }
    }

    /// Combined stake of the certificates of `vote_round` that list
    /// `anchor_digest` as a parent.
    pub fn count_support(&self, com: &Committee, vote_round: u64, anchor_digest: u64) -> (st: u64)
        requires
            self.wf(),
            com.well_formed(),
        ensures
            st == support_stake(
                self.as_set(),
                com.authorities@,
                vote_round,
                anchor_digest,
                com.size(),
            ),
    {
        let n = com.size_exec();
        let mut st: u64 = 0;
        for o in 0..n
            invariant
                n == com.size(),
                self.wf(),
                com.well_formed(),
                st == support_stake(
                    self.as_set(),
                    com.authorities@,
                    vote_round,
                    anchor_digest,
                    o as int,
                ),
        {
            if let Some(c) = self.get(vote_round, o as u64) {
                if c.has_parent(anchor_digest) {
                    proof {
                        lemma_support_stake_le_prefix(
                            self.as_set(),
                            com.authorities@,
                            vote_round,
                            anchor_digest,
                            o as int,
                        );
                        lemma_stake_prefix_mono(com.authorities@, o + 1, n as int);
                    }
                    st = st + com.stake(o as u64);
                }
            }
        }
        st
    }

    /// Whether some certificate of round `r` whose digest stands in `fr`
    /// lists `digest` as a parent.  `fr` must characterize the certificates
    /// of round `r` reachable from `anchor`.
    fn is_referenced(
        &self,
        fr: &Vec<u64>,
        r: u64,
        digest: u64,
        Ghost(anchor): Ghost<CertificateModel>,
    ) -> (res: bool)
        requires
            self.wf(),
            frontier_ok(self.as_set(), anchor, r, fr@),
        ensures
            res == exists|p: CertificateModel|
                self.as_set().contains(p) && p.round == r && reaches(self.as_set(), anchor, p)
                    && #[trigger] p.parents.contains(digest),
    {
        let m = fr.len();
        for k in 0..m
            invariant
                m == fr@.len(),
                self.wf(),
                frontier_ok(self.as_set(), anchor, r, fr@),
                forall|j: int|
                    0 <= j < k ==> !cert_by_digest(self.as_set(), #[trigger] fr@[j]).parents.contains(
                        digest,
                    ),
        {
            let fd = fr[k];
            proof {
                assert(fr@.contains(fr@[k as int]));
                self.lemma_set_wf();
            }
            if let Some(p) = self.get_by_digest(fd) {
                if p.has_parent(digest) {
                    return true;
                }
            }
        }
        proof {
            self.lemma_set_wf();
            assert forall|p: CertificateModel|
                self.as_set().contains(p) && p.round == r && reaches(self.as_set(), anchor, p)
                    implies !(#[trigger] p.parents.contains(digest)) by {
                assert(fr@.contains(p.digest));
                let j = choose|j: int| 0 <= j < fr@.len() && fr@[j] == p.digest;
                assert(cert_by_digest(self.as_set(), fr@[j]) == p);
            }
        }
        false
    }

    /// The digests of the certificates of round `target_round` that `anchor`
    /// causally reaches, computed by descending one round at a time.
    fn frontier_at(&self, anchor: &Certificate, target_round: u64) -> (fr: Vec<u64>)
        requires
            self.wf(),
            self.as_set().contains(anchor@),
            target_round <= anchor.round,
        ensures
            frontier_ok(self.as_set(), anchor@, target_round, fr@),
    {
        let mut fr: Vec<u64> = Vec::new();
        fr.push(anchor.digest);
        proof {
            assert(fr@[0] == anchor.digest);
            assert forall|d: u64| #[trigger]
                fr@.contains(d) implies exists|c: CertificateModel|
                self.as_set().contains(c) && c.round == anchor.round && c.digest == d && reaches(
                    self.as_set(),
                    anchor@,
                    c,
                ) by {
                assert(self.as_set().contains(anchor@) && reaches(self.as_set(), anchor@, anchor@));
            }
            assert forall|c: CertificateModel|
                self.as_set().contains(c) && c.round == anchor.round && reaches(
                    self.as_set(),
                    anchor@,
                    c,
                ) implies fr@.contains(c.digest) by {
                lemma_reaches_same_round(self.as_set(), anchor@, c);
                assert(fr@[0] == c.digest);
            }
        }
        let mut r: u64 = anchor.round;
        while r > target_round
            invariant
                target_round <= r <= anchor.round,
                self.wf(),
                self.as_set().contains(anchor@),
                frontier_ok(self.as_set(), anchor@, r, fr@),
            decreases r - target_round,
        {
            let mut next: Vec<u64> = Vec::new();
            let n = self.certs.len();
            for i in 0..n
                invariant
                    n == self.certs@.len(),
                    self.wf(),
                    self.as_set().contains(anchor@),
                    frontier_ok(self.as_set(), anchor@, r, fr@),
                    target_round < r <= anchor.round,
                    forall|d: u64| #[trigger]
                        next@.contains(d) <==> exists|j: int|
                            0 <= j < i && #[trigger] self.seq()[j].round == r - 1
                                && self.seq()[j].digest == d && reaches(
                                self.as_set(),
                                anchor@,
                                self.seq()[j],
                            ),
            {
                let c = &self.certs[i];
                proof {
                    assert(self.seq()[i as int] == c@);
                    assert(self.as_set().contains(c@));
                }
                let ghost prev_next = next@;
                if c.round == r - 1 {
                    let referenced = self.is_referenced(&fr, r, c.digest, Ghost(anchor@));
                    proof {
                        assert(referenced == reaches(self.as_set(), anchor@, c@));
                    }
                    if referenced {
                        next.push(c.digest);
                    }
                }
                proof {
                    assert forall|d: u64| #[trigger] next@.contains(d) implies exists|j: int|
                        0 <= j < i + 1 && #[trigger] self.seq()[j].round == r - 1
                            && self.seq()[j].digest == d && reaches(
                            self.as_set(),
                            anchor@,
                            self.seq()[j],
                        ) by {
                        if prev_next.contains(d) {
                        } else {
                            let k = choose|k: int| 0 <= k < next@.len() && next@[k] == d;
                            assert(next@ == prev_next.push(c@.digest));
                            assert(d == c@.digest);
                            assert(self.seq()[i as int].round == r - 1 && self.seq()[
                            i as int].digest == d && reaches(
                                self.as_set(),
                                anchor@,
                                self.seq()[i as int],
                            ));
                        }
                    }
                    assert forall|j: int|
                        0 <= j < i + 1 && #[trigger] self.seq()[j].round == r - 1 && reaches(
                            self.as_set(),
                            anchor@,
                            self.seq()[j],
                        ) implies next@.contains(self.seq()[j].digest) by {
                        if j == i {
                            assert(self.seq()[j] == c@);
                            assert(next@ == prev_next.push(c@.digest));
                            assert(next@[next@.len() - 1] == c@.digest);
                        } else {
                            assert(prev_next.contains(self.seq()[j].digest));
                            if next@ != prev_next {
                                assert(next@ == prev_next.push(c@.digest));
                                let k = choose|k: int|
                                    0 <= k < prev_next.len() && prev_next[k] == self.seq()[j].digest;
                                assert(next@[k] == self.seq()[j].digest);
                            }
                        }
                    }
                }
            }
            proof {
                assert forall|d: u64| #[trigger]
                    next@.contains(d) implies exists|c: CertificateModel|
                    self.as_set().contains(c) && c.round == (r - 1) as u64 && c.digest == d
                        && reaches(self.as_set(), anchor@, c) by {
                    let j = choose|j: int|
                        0 <= j < self.seq().len() && #[trigger] self.seq()[j].round == r - 1
                            && self.seq()[j].digest == d && reaches(
                            self.as_set(),
                            anchor@,
                            self.seq()[j],
                        );
                    assert(self.as_set().contains(self.seq()[j]));
                }
                assert forall|c: CertificateModel|
                    self.as_set().contains(c) && c.round == (r - 1) as u64 && reaches(
                        self.as_set(),
                        anchor@,
                        c,
                    ) implies next@.contains(c.digest) by {
                    let j = choose|j: int| 0 <= j < self.seq().len() && self.seq()[j] == c;
                    assert(self.seq()[j] == c);
                }
            }
            fr = next;
            r = r - 1;
        }
        fr
    }

    /// Whether `from` causally reaches `to` through parent references.
    pub fn has_path(&self, from: &Certificate, to: &Certificate) -> (res: bool)
        requires
            self.wf(),
            self.as_set().contains(from@),
            self.as_set().contains(to@),
        ensures
            res == reaches(self.as_set(), from@, to@),
    {
        if to.round > from.round {
            proof {
                assert(to@ != from@);
            }
            return false;
        }
        let fr = self.frontier_at(from, to.round);
        let m = fr.len();
        for k in 0..m
            invariant
                m == fr@.len(),
                forall|j: int| 0 <= j < k ==> #[trigger] fr@[j] != to.digest,
                self.wf(),
                self.as_set().contains(to@),
                frontier_ok(self.as_set(), from@, to.round, fr@),
        {
            if fr[k] == to.digest {
                proof {
                    assert(fr@.contains(fr@[k as int]));
                    let c = choose|c: CertificateModel|
                        self.as_set().contains(c) && c.round == to.round && c.digest == to.digest
                            && reaches(self.as_set(), from@, c);
                    self.lemma_set_wf();
                    assert(c == to@);
                }
                return true;
            }
        }
        proof {
            if reaches(self.as_set(), from@, to@) {
                assert(fr@.contains(to@.digest));
                let j = choose|j: int| 0 <= j < fr@.len() && fr@[j] == to@.digest;
                assert(fr@[j] == to.digest);
                assert(false);
            }
        }
        false
    }

    /// The certificates of one round, in ascending origin order, each with
    /// its origin.
    pub fn certificates_at_round(&self, round: u64, com: &Committee) -> (out: Vec<(u64, Certificate)>)
        requires
            self.wf(),
        ensures
            out@.map_values(|p: (u64, Certificate)| (p.0, p.1@)) == round_row(
                self.as_set(),
                round,
                com.size(),
            ),
    {
        let n = com.size_exec();
        let mut out: Vec<(u64, Certificate)> = Vec::new();
        proof {
            assert(out@.map_values(|p: (u64, Certificate)| (p.0, p.1@)) =~= round_row(
                self.as_set(),
                round,
                0,
            ));
        }
        for o in 0..n
            invariant
                self.wf(),
                n == com.size(),
                out@.map_values(|p: (u64, Certificate)| (p.0, p.1@)) == round_row(
                    self.as_set(),
                    round,
                    o as int,
                ),
        {
            let ghost pre = out@.map_values(|p: (u64, Certificate)| (p.0, p.1@));
            match self.get(round, o as u64) {
                Some(c) => {
                    out.push((o as u64, c.duplicate()));
                    proof {
                        assert(out@.map_values(|p: (u64, Certificate)| (p.0, p.1@)) =~= pre.push(
                            ((o as u64), cert_at(self.as_set(), round, o as u64)),
                        ));
                        assert(out@.map_values(|p: (u64, Certificate)| (p.0, p.1@)) =~= round_row(
                            self.as_set(),
                            round,
                            o + 1,
                        ));
                    }
                },
                None => {
                    proof {
                        assert(out@.map_values(|p: (u64, Certificate)| (p.0, p.1@)) =~= round_row(
                            self.as_set(),
                            round,
                            o + 1,
                        ));
                    }
                },
            }
        }
        out
    }

    /// Remove every certificate of round at most `gc_round` (and with it any
    /// dangling parent edge: parents of collected rounds are collected too).
    pub fn prune_below(&mut self, gc_round: u64)
        requires
            old(self).wf(),
        ensures
            final(self).wf(),
            final(self).seq() == old(self).seq().filter(|c: CertificateModel| c.round > gc_round),
    {
        let n = self.certs.len();
        let mut kept: Vec<Certificate> = Vec::new();
        let ghost old_seq = self.seq();
        for i in 0..n
            invariant
                n == self.certs@.len(),
                self.wf(),
                old_seq == self.seq(),
                kept@.map_values(|c: Certificate| c@) == self.seq().take(i as int).filter(
                    |c: CertificateModel| c.round > gc_round,
                ),
        {
            proof {
                reveal_with_fuel(Seq::filter, 2);
                assert(self.seq().take(i + 1).drop_last() =~= self.seq().take(i as int));
                assert(self.seq().take(i + 1).last() == self.seq()[i as int]);
            }
            if self.certs[i].round > gc_round {
                kept.push(self.certs[i].duplicate());
                proof {
                    assert(kept@.map_values(|c: Certificate| c@) =~= self.seq().take(
                        i as int,
                    ).filter(|c: CertificateModel| c.round > gc_round).push(self.seq()[i as int]));
                }
            }
        }
        proof {
            assert(self.seq().take(n as int) =~= self.seq());
        }
        self.certs = kept;
        proof {
            lemma_filter_wf(old_seq, |c: CertificateModel| c.round > gc_round);
        }
    }
}

/// Filtering preserves slot and digest uniqueness.
pub proof fn lemma_filter_wf(s: Seq<CertificateModel>, pred: spec_fn(CertificateModel) -> bool)
    requires
        seq_wf(s),
    ensures
        seq_wf(s.filter(pred)),
{
    let f = s.filter(pred);
    assert forall|i: int, j: int| 0 <= i < j < f.len() implies !(#[trigger] f[i].round
        == #[trigger] f[j].round && f[i].origin == f[j].origin) && f[i].digest != f[j].digest by {
        lemma_filter_pair_witness(s, pred, i, j);
    }
}

/// Any two positions of a filtered sequence come from two ordered positions
/// of the original.
pub proof fn lemma_filter_pair_witness(
    s: Seq<CertificateModel>,
    pred: spec_fn(CertificateModel) -> bool,
    i: int,
    j: int,
)
    requires
        0 <= i < j < s.filter(pred).len(),
    ensures
        exists|a: int, b: int|
            0 <= a < b < s.len() && s[a] == #[trigger] s.filter(pred)[i] && s[b] == s.filter(
                pred,
            )[j],
    decreases s.len(),
{
    reveal_with_fuel(Seq::filter, 2);
    if s.len() > 0 {
        let prev = s.drop_last();
        let f = s.filter(pred);
        let fp = prev.filter(pred);
        if pred(s.last()) {
            if j < f.len() - 1 {
                lemma_filter_pair_witness(prev, pred, i, j);
                let (a, b) = choose|a: int, b: int|
                    0 <= a < b < prev.len() && prev[a] == #[trigger] fp[i] && prev[b] == fp[j];
                assert(s[a] == f[i] && s[b] == f[j]);
            } else {
                lemma_filter_element_witness(prev, pred, i);
                let a = choose|a: int| 0 <= a < prev.len() && prev[a] == #[trigger] fp[i];
                assert(s[a] == f[i] && s[s.len() - 1] == f[j]);
            }
        } else {
            lemma_filter_pair_witness(prev, pred, i, j);
            let (a, b) = choose|a: int, b: int|
                0 <= a < b < prev.len() && prev[a] == #[trigger] fp[i] && prev[b] == fp[j];
            assert(s[a] == f[i] && s[b] == f[j]);
        }
    }
}

/// Every element of a filtered sequence occurs in the original.
pub proof fn lemma_filter_element_witness(
    s: Seq<CertificateModel>,
    pred: spec_fn(CertificateModel) -> bool,
    i: int,
)
    requires
        0 <= i < s.filter(pred).len(),
    ensures
        exists|a: int| 0 <= a < s.len() && s[a] == #[trigger] s.filter(pred)[i],
    decreases s.len(),
{
    reveal_with_fuel(Seq::filter, 2);
    if s.len() > 0 {
        let prev = s.drop_last();
        let f = s.filter(pred);
        let fp = prev.filter(pred);
        if pred(s.last()) && i == f.len() - 1 {
            assert(s[s.len() - 1] == f[i]);
        } else {
            lemma_filter_element_witness(prev, pred, i);
            let a = choose|a: int| 0 <= a < prev.len() && prev[a] == #[trigger] fp[i];
            assert(s[a] == f[i]);
        }
    }
}

} // verus!
