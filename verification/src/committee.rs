//! The committee of an epoch: authorities with stake weights, the quorum and
//! validity thresholds, and the deterministic leader schedule for even rounds.

use vstd::prelude::*;

verus! {

/// Largest total stake a committee may carry, chosen so that
/// `2 * total_stake + 1` still fits in a `u64`.
pub const MAX_TOTAL_STAKE: u64 = 0x7fff_ffff_ffff_ffff;

/// An authority of the committee: a dense integer identifier and a positive
/// stake weight.  Stake is fixed within an epoch.
#[derive(Clone, Copy, Debug, PartialEq, Eq, Structural)]
pub struct Authority {
    pub id: u64,
    pub stake: u64,
}

/// The ordered set of authorities of one epoch.  Authority identifiers are
/// dense integers starting at 0; `authorities[i].id == i`.
#[derive(Clone, Debug)]
pub struct Committee {
    pub epoch: u64,
    pub authorities: Vec<Authority>,
}

/// Sum of the stakes of the first `n` authorities of `s`.
pub open spec fn stake_prefix(s: Seq<Authority>, n: int) -> int
    decreases n,
{
    if n <= 0 {
        0
    } else {
        stake_prefix(s, n - 1) + s[n - 1].stake
    }
}

/// The stake prefix sums are non-decreasing in the prefix length.
pub proof fn lemma_stake_prefix_mono(s: Seq<Authority>, i: int, j: int)
    requires
        i <= j,
    ensures
        stake_prefix(s, i) <= stake_prefix(s, j),
    decreases j - i,
{
    if i < j {
        lemma_stake_prefix_mono(s, i, j - 1);
    }
}

/// With every stake at least 1, the sum over a prefix dominates its length.
pub proof fn lemma_stake_prefix_at_least_len(s: Seq<Authority>, n: int)
    requires
        forall|i: int| 0 <= i < s.len() ==> 1 <= (#[trigger] s[i]).stake,
        0 <= n <= s.len(),
    ensures
        n <= stake_prefix(s, n),
    decreases n,
{
    if n > 0 {
        lemma_stake_prefix_at_least_len(s, n - 1);
    }
}

impl Committee {
    /// Number of authorities.
    pub open spec fn size(self) -> int {
        self.authorities@.len() as int
    }

    /// Combined stake of all authorities.
    pub open spec fn total_stake_spec(self) -> int {
        stake_prefix(self.authorities@, self.size())
    }

    /// A committee is well formed when it is non-empty, its identifiers are
    /// dense (`authorities[i].id == i`), every stake is positive, and the
    /// total stake leaves room for the threshold arithmetic.
    pub open spec fn well_formed(self) -> bool {
        &&& 1 <= self.authorities@.len()
        &&& forall|i: int|
            0 <= i < self.authorities@.len() ==> (#[trigger] self.authorities@[i]).id == i
        &&& forall|i: int|
            0 <= i < self.authorities@.len() ==> 1 <= (#[trigger] self.authorities@[i]).stake
        &&& self.total_stake_spec() <= MAX_TOTAL_STAKE
    }

    /// Stake of the authority with identifier `id`.
    pub open spec fn stake_of(self, id: int) -> int {
        self.authorities@[id].stake as int
    }

    /// `floor(2 * total / 3) + 1`: the stake that guarantees two honest
    /// quorums intersect in an honest authority.
    pub open spec fn quorum_threshold_spec(self) -> int {
        2 * self.total_stake_spec() / 3 + 1
    }

    /// `floor((total - 1) / 3) + 1`, i.e. `f + 1` where `f` is the largest
    /// integer with `3 * f + 1 <= total`: the stake that guarantees at least
    /// one honest authority.
    pub open spec fn validity_threshold_spec(self) -> int {
        (self.total_stake_spec() - 1) / 3 + 1
    }

    /// The leader of an even round under a given schedule epoch: a pure
    /// function of (committee, schedule epoch, round).
    pub open spec fn leader_spec(self, round: u64, schedule_epoch: u64) -> int {
        (round / 2 - 1 + schedule_epoch) % (self.size() as int)
    }

    /// The number of authorities.
    pub fn size_exec(&self) -> (n: usize)
        ensures
            n == self.size(),
    {
        self.authorities.len()
    }

    /// Combined stake of all authorities.
    pub fn total_stake(&self) -> (total: u64)
        requires
            self.well_formed(),
        ensures
            total == self.total_stake_spec(),
    {
        let n = self.authorities.len();
        let mut total: u64 = 0;
        for i in 0..n
            invariant
                n == self.authorities@.len(),
                self.well_formed(),
                total == stake_prefix(self.authorities@, i as int),
        {
            proof {
                lemma_stake_prefix_mono(self.authorities@, i + 1, n as int);
            }
            total = total + self.authorities[i].stake;
        }
        total
    }

    /// The quorum threshold `floor(2 * total / 3) + 1`.
    pub fn quorum_threshold(&self) -> (t: u64)
        requires
            self.well_formed(),
        ensures
            t == self.quorum_threshold_spec(),
    {
        let total = self.total_stake();
        2 * total / 3 + 1
    }

    /// The validity threshold `f + 1`.
    pub fn validity_threshold(&self) -> (t: u64)
        requires
            self.well_formed(),
        ensures
            t == self.validity_threshold_spec(),
    {
        proof {
            lemma_stake_prefix_at_least_len(self.authorities@, 1);
            lemma_stake_prefix_mono(self.authorities@, 1, self.size());
        }
        let total = self.total_stake();
        (total - 1) / 3 + 1
    }

    /// Whether `stake` reaches the quorum threshold (`2f + 1` of `3f + 1`).
    pub fn reached_quorum(&self, stake: u64) -> (r: bool)
        requires
            self.well_formed(),
        ensures
            r == (stake >= self.quorum_threshold_spec()),
    {
        stake >= self.quorum_threshold()
    }

    /// Whether `stake` reaches the validity threshold (`f + 1`).
    pub fn reached_validity(&self, stake: u64) -> (r: bool)
        requires
            self.well_formed(),
        ensures
            r == (stake >= self.validity_threshold_spec()),
    {
        stake >= self.validity_threshold()
    }

    /// The leader of an even round.  Deterministic: a function of the
    /// committee, the schedule epoch and the round alone, so that every
    /// replica elects the same leader.
    pub fn leader(&self, round: u64, schedule_epoch: u64) -> (id: u64)
        requires
            self.well_formed(),
            round >= 2,
            round % 2 == 0,
        ensures
            id == self.leader_spec(round, schedule_epoch),
            0 <= id < self.size(),
    {
        proof {
            lemma_stake_prefix_at_least_len(self.authorities@, self.size());
        }
        let n = self.authorities.len() as u64;
        let a = (round / 2 - 1) % n;
        let b = schedule_epoch % n;
        let id = (a + b) % n;
        proof {
            vstd::arithmetic::div_mod::lemma_add_mod_noop(
                round as int / 2 - 1,
                schedule_epoch as int,
                n as int,
            );
        }
        id
    }

    /// Stake of the authority with identifier `id`.
    pub fn stake(&self, id: u64) -> (s: u64)
        requires
            self.well_formed(),
            id < self.size(),
        ensures
            s == self.stake_of(id as int),
    {
        let n = self.authorities.len();
        assert(id < n as u64);
        self.authorities[id as usize].stake
    }
}

} // verus!
