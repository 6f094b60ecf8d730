//! Determinism across arrival orders: the committed sequence is a function
//! of the DAG alone.  Certificates are presented in hundreds of distinct
//! causally valid permutations and the output must be identical each time.

use bullshark::bullshark::Bullshark;
use bullshark::certificate::Certificate;
use bullshark::committee::{Authority, Committee};
use bullshark::state::ConsensusState;
use bullshark::store::ConsensusStore;

fn committee_of(n: u64) -> Committee {
    let mut authorities = Vec::new();
    for id in 0..n {
        authorities.push(Authority { id, stake: 1 });
    }
    Committee { epoch: 0, authorities }
}

fn digest_of(round: u64, origin: u64) -> u64 {
    round * 100 + origin + 1
}

/// A small deterministic pseudo-random generator (an xorshift), so that the
/// permutations are reproducible from the seed alone.
struct Rng {
    state: u64,
}

impl Rng {
    fn new(seed: u64) -> Rng {
        Rng {
            state: seed.wrapping_mul(0x9E37_79B9_7F4A_7C15).wrapping_add(1),
        }
    }

    fn next(&mut self) -> u64 {
        let mut x = self.state;
        x ^= x << 13;
        x ^= x >> 7;
        x ^= x << 17;
        self.state = x;
        x
    }

    fn below(&mut self, n: usize) -> usize {
        (self.next() % (n as u64)) as usize
    }

    fn chance(&mut self, percent: u64) -> bool {
        self.next() % 100 < percent
    }
}

/// A complete DAG over `n` authorities through `rounds` rounds.
fn complete_dag(rounds: u64, n: u64) -> Vec<Certificate> {
    let mut certs = Vec::new();
    for r in 1..=rounds {
        for o in 0..n {
            let parents = if r > 1 {
                (0..n).map(|p| digest_of(r - 1, p)).collect()
            } else {
                Vec::new()
            };
            certs.push(Certificate {
                round: r,
                epoch: 0,
                origin: o,
                digest: digest_of(r, o),
                parents,
                payload: Vec::new(),
            });
        }
    }
    certs
}

/// A causally valid presentation order of `certs`: Kahn's topological sort
/// with the next ready certificate picked pseudo-randomly.
fn random_causal_order(certs: &[Certificate], seed: u64) -> Vec<Certificate> {
    let mut rng = Rng::new(seed);
    let mut remaining: Vec<Certificate> = certs.to_vec();
    let mut presented_digests: Vec<u64> = Vec::new();
    let mut plan = Vec::new();
    while !remaining.is_empty() {
        let ready: Vec<usize> = (0..remaining.len())
            .filter(|&i| {
                remaining[i]
                    .parents
                    .iter()
                    .all(|p| presented_digests.contains(p))
            })
            .collect();
        let pick = ready[rng.below(ready.len())];
        let cert = remaining.remove(pick);
        presented_digests.push(cert.digest);
        plan.push(cert);
    }
    plan
}

/// The full committed output of one engine run over a presentation order:
/// one row of scalars per committed certificate.
fn run_plan(com: &Committee, gc_depth: u64, plan: &[Certificate]) -> Vec<(u64, u64, u64, u64)> {
    let mut engine = Bullshark::new(com.clone(), ConsensusStore::new(), 100);
    let mut state = ConsensusState::new(gc_depth, com);
    let mut out = Vec::new();
    for cert in plan {
        let (_, subdags) = engine.process_certificate(&mut state, cert).unwrap();
        for s in subdags {
            for c in &s.certificates {
                out.push((s.sub_dag_index, c.round, c.origin, c.digest));
            }
        }
    }
    out
}

/// Four hundred distinct causally valid arrival orders of the same complete
/// DAG give byte-identical committed sequences.
#[test]
fn output_is_identical_across_arrival_orders() {
    let n = 4u64;
    let com = committee_of(n);
    let certs = complete_dag(7, n);

    let reference = run_plan(&com, 5, &certs);
    assert!(!reference.is_empty());
    for seed in 1..=400u64 {
        let plan = random_causal_order(&certs, seed);
        assert_eq!(run_plan(&com, 5, &plan), reference, "fork at seed {seed}");
    }
}

/// A DAG with a slow node: node 3's certificate of a round is referenced by
/// the next round only seventy percent of the time.  Returns the
/// certificates and, per round, whether node 3's certificate was referenced.
fn slow_node_dag(rounds: u64, n: u64, seed: u64) -> (Vec<Certificate>, Vec<bool>) {
    let mut rng = Rng::new(seed);
    let mut certs = Vec::new();
    let mut included = vec![true; (rounds + 1) as usize];
    for r in 1..rounds {
        included[r as usize] = rng.chance(70);
    }
    for r in 1..=rounds {
        for o in 0..n {
            let parents = if r > 1 {
                let mut ps: Vec<u64> = (0..n - 1).map(|p| digest_of(r - 1, p)).collect();
                if included[(r - 1) as usize] {
                    ps.push(digest_of(r - 1, n - 1));
                }
                ps
            } else {
                Vec::new()
            };
            certs.push(Certificate {
                round: r,
                epoch: 0,
                origin: o,
                digest: digest_of(r, o),
                parents,
                payload: Vec::new(),
            });
        }
    }
    (certs, included)
}

/// With a slow node and fifteen rounds: the output is identical across four
/// hundred arrival orders, every committed anchor's round stays below the
/// last round, and no certificate of the slow node is committed at a round
/// the next round did not reference.
#[test]
fn slow_node_runs_deterministically() {
    let n = 4u64;
    let rounds = 15u64;
    let com = committee_of(n);
    let (certs, included) = slow_node_dag(rounds, n, 42);

    let reference = run_plan(&com, 8, &certs);
    assert!(!reference.is_empty());
    for seed in 1..=400u64 {
        let plan = random_causal_order(&certs, seed);
        assert_eq!(run_plan(&com, 8, &plan), reference, "fork at seed {seed}");
    }

    for &(_, round, origin, _) in &reference {
        assert!(round <= rounds - 1);
        if origin == n - 1 && round < rounds {
            assert!(
                included[round as usize],
                "an unreferenced slow-node certificate was committed"
            );
        }
    }
}

/// The plan generator itself is reproducible: one seed, one plan.
#[test]
fn plan_generation_is_reproducible() {
    let certs = complete_dag(6, 4);
    for seed in 0..=10u64 {
        let p1 = random_causal_order(&certs, seed);
        let p2 = random_causal_order(&certs, seed);
        assert_eq!(p1, p2);
    }
}
