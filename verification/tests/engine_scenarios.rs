//! End-to-end scenarios of the ordering engine: a clean run, a missing
//! leader, the garbage-collection boundary, recovery, and the error cases.

use bullshark::bullshark::Bullshark;
use bullshark::certificate::{Certificate, CommittedSubDag, ConsensusError, Outcome};
use bullshark::committee::{Authority, Committee};
use bullshark::state::ConsensusState;
use bullshark::store::{recover, ConsensusStore};

fn committee_of(n: u64) -> Committee {
    let mut authorities = Vec::new();
    for id in 0..n {
        authorities.push(Authority { id, stake: 1 });
    }
    Committee { epoch: 0, authorities }
}

fn digest_of(round: u64, origin: u64) -> u64 {
    round * 100 + origin + 1
}

/// A certificate of a complete DAG: every certificate of a round above 1
/// lists every certificate of the previous round as a parent.
fn full_cert(round: u64, origin: u64, n: u64) -> Certificate {
    let parents = if round > 1 {
        (0..n).map(|o| digest_of(round - 1, o)).collect()
    } else {
        Vec::new()
    };
    Certificate {
        round,
        epoch: 0,
        origin,
        digest: digest_of(round, origin),
        parents,
        payload: vec![(round * 1000 + origin, 0)],
    }
}

/// Feed a complete DAG of `rounds` rounds over `n` authorities round by
/// round; return every emitted sub-DAG in order.
fn run_full_dag(
    engine: &mut Bullshark,
    state: &mut ConsensusState,
    rounds: u64,
    n: u64,
) -> Vec<CommittedSubDag> {
    let mut all = Vec::new();
    for r in 1..=rounds {
        for o in 0..n {
            let (_, mut subdags) = engine
                .process_certificate(state, &full_cert(r, o, n))
                .unwrap();
            all.append(&mut subdags);
        }
    }
    all
}

fn digests(sub_dag: &CommittedSubDag) -> Vec<u64> {
    sub_dag.certificates.iter().map(|c| c.digest).collect()
}

/// A clean four-node DAG: three commits with anchors at rounds 2, 4 and 6
/// authored by the scheduled leaders, sub-DAG indices 1, 2, 3, and the
/// deterministic (round, then origin, anchor last) order inside each.
#[test]
fn clean_four_node_dag() {
    let com = committee_of(4);
    let mut engine = Bullshark::new(com.clone(), ConsensusStore::new(), 100);
    let mut state = ConsensusState::new(5, &com);

    let committed = run_full_dag(&mut engine, &mut state, 7, 4);

    assert_eq!(committed.len(), 3);
    assert_eq!(committed[0].anchor.round, 2);
    assert_eq!(committed[0].anchor.origin, 0);
    assert_eq!(committed[1].anchor.round, 4);
    assert_eq!(committed[1].anchor.origin, 1);
    assert_eq!(committed[2].anchor.round, 6);
    assert_eq!(committed[2].anchor.origin, 2);
    assert_eq!(committed[0].sub_dag_index, 1);
    assert_eq!(committed[1].sub_dag_index, 2);
    assert_eq!(committed[2].sub_dag_index, 3);

    // First sub-DAG: all of round 1 in origin order, then the anchor.
    assert_eq!(
        digests(&committed[0]),
        vec![
            digest_of(1, 0),
            digest_of(1, 1),
            digest_of(1, 2),
            digest_of(1, 3),
            digest_of(2, 0)
        ]
    );
    // Second sub-DAG: the rest of round 2, all of round 3, then the anchor.
    assert_eq!(
        digests(&committed[1]),
        vec![
            digest_of(2, 1),
            digest_of(2, 2),
            digest_of(2, 3),
            digest_of(3, 0),
            digest_of(3, 1),
            digest_of(3, 2),
            digest_of(3, 3),
            digest_of(4, 1)
        ]
    );
    // Third sub-DAG: the rest of round 4, all of round 5, then the anchor.
    assert_eq!(
        digests(&committed[2]),
        vec![
            digest_of(4, 0),
            digest_of(4, 2),
            digest_of(4, 3),
            digest_of(5, 0),
            digest_of(5, 1),
            digest_of(5, 2),
            digest_of(5, 3),
            digest_of(6, 2)
        ]
    );
}

/// The commit fires exactly when the second voter of the odd round arrives:
/// one vote is below the `f + 1` validity threshold, two reach it.
#[test]
fn commit_fires_on_second_vote() {
    let com = committee_of(4);
    let mut engine = Bullshark::new(com.clone(), ConsensusStore::new(), 100);
    let mut state = ConsensusState::new(5, &com);

    for o in 0..4 {
        let (outcome, subdags) = engine
            .process_certificate(&mut state, &full_cert(1, o, 4))
            .unwrap();
        assert_eq!(outcome, Outcome::Accepted);
        assert!(subdags.is_empty());
    }
    for o in 0..4 {
        let (outcome, _) = engine
            .process_certificate(&mut state, &full_cert(2, o, 4))
            .unwrap();
        assert_eq!(outcome, Outcome::Accepted);
    }
    // First vote of round 3: one unit of stake supports the anchor.
    let (outcome, subdags) = engine
        .process_certificate(&mut state, &full_cert(3, 0, 4))
        .unwrap();
    assert_eq!(outcome, Outcome::Accepted);
    assert!(subdags.is_empty());
    assert_eq!(state.last_committed_round, 0);
    // Second vote reaches f + 1 = 2: the anchor commits now.
    let (outcome, subdags) = engine
        .process_certificate(&mut state, &full_cert(3, 1, 4))
        .unwrap();
    assert_eq!(outcome, Outcome::AcceptedWithCommit);
    assert_eq!(subdags.len(), 1);
    assert_eq!(state.last_committed_round, 2);
    assert_eq!(state.sub_dag_index, 1);
}

/// A missing leader is skipped for good: with no certificate for the round-4
/// leader, the round-6 anchor commits and its sub-DAG carries the reachable
/// round-3 and round-5 certificates no earlier anchor covered.
#[test]
fn missing_leader_is_skipped() {
    let n = 4u64;
    let com = committee_of(n);
    let mut engine = Bullshark::new(com.clone(), ConsensusStore::new(), 100);
    let mut state = ConsensusState::new(7, &com);

    let mut committed: Vec<CommittedSubDag> = Vec::new();
    for r in 1..=10 {
        for o in 0..n {
            // The leader of round 4 (origin 1) produces no certificate.
            if r == 4 && o == 1 {
                continue;
            }
            let mut cert = full_cert(r, o, n);
            if r == 5 {
                // Round-5 parents: the three round-4 certificates that exist.
                cert.parents = vec![digest_of(4, 0), digest_of(4, 2), digest_of(4, 3)];
            }
            let (_, mut subdags) = engine.process_certificate(&mut state, &cert).unwrap();
            committed.append(&mut subdags);
        }
    }

    // Anchors: round 2, then round 6 (round 4's anchor is absent), then 8.
    let anchor_rounds: Vec<u64> = committed.iter().map(|s| s.anchor.round).collect();
    assert_eq!(anchor_rounds, vec![2, 6, 8]);
    // No certificate of round 4's leader is ever committed.
    for s in &committed {
        assert!(!s.certificates.iter().any(|c| c.round == 4 && c.origin == 1));
    }
    // The round-6 sub-DAG includes the round-3 and round-5 certificates.
    let d = digests(&committed[1]);
    for o in 0..n {
        assert!(d.contains(&digest_of(3, o)));
        assert!(d.contains(&digest_of(5, o)));
    }
    assert_eq!(*d.last().unwrap(), digest_of(6, 2));
}

/// The garbage-collection boundary: after committing the round-10 anchor
/// with depth 2 the collection round is 8, and a stale certificate of round
/// 7 is skipped without touching the state.
#[test]
fn stale_certificate_is_skipped() {
    let com = committee_of(4);
    let mut engine = Bullshark::new(com.clone(), ConsensusStore::new(), 100);
    let mut state = ConsensusState::new(2, &com);

    run_full_dag(&mut engine, &mut state, 11, 4);
    assert_eq!(state.last_committed_round, 10);
    assert_eq!(state.gc_round_exec(), 8);

    let round_before = state.last_committed_round;
    let index_before = state.sub_dag_index;
    let dag_size_before = state.dag.certs.len();
    let stale = Certificate {
        round: 7,
        epoch: 0,
        origin: 0,
        digest: 999_999,
        parents: Vec::new(),
        payload: Vec::new(),
    };
    let (outcome, subdags) = engine.process_certificate(&mut state, &stale).unwrap();
    assert_eq!(outcome, Outcome::Skipped);
    assert!(subdags.is_empty());
    assert_eq!(state.last_committed_round, round_before);
    assert_eq!(state.sub_dag_index, index_before);
    assert_eq!(state.dag.certs.len(), dag_size_before);
}

/// After a commit, nothing at or below the collection round stays in the
/// DAG.
#[test]
fn collected_rounds_are_dropped() {
    let com = committee_of(4);
    let mut engine = Bullshark::new(com.clone(), ConsensusStore::new(), 100);
    let mut state = ConsensusState::new(1, &com);

    run_full_dag(&mut engine, &mut state, 7, 4);
    assert_eq!(state.last_committed_round, 6);
    assert_eq!(state.gc_round_exec(), 5);
    for c in &state.dag.certs {
        assert!(c.round > 5);
    }
}

/// Recovery: run the clean scenario's first three rounds, rebuild from the
/// persisted store, replay, continue — the total output equals the
/// uninterrupted run's.
#[test]
fn recovery_resumes_the_commit_sequence() {
    let n = 4u64;
    let com = committee_of(n);

    // The uninterrupted run.
    let mut full_engine = Bullshark::new(com.clone(), ConsensusStore::new(), 100);
    let mut full_state = ConsensusState::new(5, &com);
    let expected = run_full_dag(&mut full_engine, &mut full_state, 7, n);

    // The interrupted run: rounds 1..=3, then a restart.
    let mut engine1 = Bullshark::new(com.clone(), ConsensusStore::new(), 100);
    let mut state1 = ConsensusState::new(5, &com);
    let mut output = run_full_dag(&mut engine1, &mut state1, 3, n);

    // Rebuild from the store; the collector replays everything above the
    // recovered collection round, then the run continues.
    let mut state2 = recover(&engine1.store, &com, 5, 100);
    assert_eq!(state2.last_committed_round, state1.last_committed_round);
    assert_eq!(state2.sub_dag_index, state1.sub_dag_index);
    assert_eq!(state2.schedule_epoch, state1.schedule_epoch);
    assert_eq!(state2.last_committed, state1.last_committed);

    let mut engine2 = Bullshark::new(com.clone(), engine1.store.clone(), 100);
    for r in 1..=3 {
        for o in 0..n {
            let (_, subdags) = engine2
                .process_certificate(&mut state2, &full_cert(r, o, n))
                .unwrap();
            // Replay re-commits nothing: these anchors are already covered.
            assert!(subdags.is_empty());
        }
    }
    for r in 4..=7 {
        for o in 0..n {
            let (_, mut subdags) = engine2
                .process_certificate(&mut state2, &full_cert(r, o, n))
                .unwrap();
            output.append(&mut subdags);
        }
    }

    assert_eq!(output.len(), expected.len());
    for (a, b) in output.iter().zip(expected.iter()) {
        assert_eq!(a.sub_dag_index, b.sub_dag_index);
        assert_eq!(a.anchor, b.anchor);
        assert_eq!(a.certificates, b.certificates);
    }
}

/// Each refusal comes on exactly the input the contract names, and refusals
/// leave the state alone.
#[test]
fn validation_errors() {
    let n = 4u64;
    let com = committee_of(n);
    let mut engine = Bullshark::new(com.clone(), ConsensusStore::new(), 100);
    let mut state = ConsensusState::new(5, &com);

    for o in 0..n {
        engine
            .process_certificate(&mut state, &full_cert(1, o, n))
            .unwrap();
    }

    // Wrong epoch.
    let mut c = full_cert(2, 0, n);
    c.epoch = 1;
    assert_eq!(
        engine.process_certificate(&mut state, &c),
        Err(ConsensusError::UnknownEpoch)
    );

    // Unknown authority.
    let mut c = full_cert(2, 0, n);
    c.origin = 9;
    assert_eq!(
        engine.process_certificate(&mut state, &c),
        Err(ConsensusError::UnknownAuthority)
    );

    // A parent that resolves to nothing.
    let mut c = full_cert(2, 0, n);
    c.parents = vec![digest_of(1, 0), 777_777];
    assert_eq!(
        engine.process_certificate(&mut state, &c),
        Err(ConsensusError::UnknownParent)
    );

    // Parents below the quorum threshold (2 < 3).
    let mut c = full_cert(2, 0, n);
    c.parents = vec![digest_of(1, 0), digest_of(1, 1)];
    assert_eq!(
        engine.process_certificate(&mut state, &c),
        Err(ConsensusError::ParentsBelowQuorum)
    );

    // Equivocation: the slot is taken by a different digest.
    engine
        .process_certificate(&mut state, &full_cert(2, 0, n))
        .unwrap();
    let mut c = full_cert(2, 0, n);
    c.digest = 888_888;
    assert_eq!(
        engine.process_certificate(&mut state, &c),
        Err(ConsensusError::AlreadyPresent)
    );

    // A digest collision with another slot.
    let mut c = full_cert(2, 1, n);
    c.digest = digest_of(2, 0);
    assert_eq!(
        engine.process_certificate(&mut state, &c),
        Err(ConsensusError::AlreadyPresent)
    );

    // Re-inserting the identical certificate is accepted and changes
    // nothing.
    let dag_size = state.dag.certs.len();
    let (outcome, _) = engine
        .process_certificate(&mut state, &full_cert(2, 0, n))
        .unwrap();
    assert_eq!(outcome, Outcome::Accepted);
    assert_eq!(state.dag.certs.len(), dag_size);
}

/// The committed round, sub-DAG counter, collection round and watermarks
/// never decrease over a run.
#[test]
fn state_is_monotone() {
    let n = 4u64;
    let com = committee_of(n);
    let mut engine = Bullshark::new(com.clone(), ConsensusStore::new(), 100);
    let mut state = ConsensusState::new(3, &com);

    let mut last_round = 0;
    let mut last_index = 0;
    let mut last_gc = 0;
    let mut last_marks = state.last_committed.clone();
    for r in 1..=9 {
        for o in 0..n {
            engine
                .process_certificate(&mut state, &full_cert(r, o, n))
                .unwrap();
            assert!(state.last_committed_round >= last_round);
            assert!(state.sub_dag_index >= last_index);
            assert!(state.gc_round_exec() >= last_gc);
            for (now, before) in state.last_committed.iter().zip(last_marks.iter()) {
                assert!(now >= before);
            }
            last_round = state.last_committed_round;
            last_index = state.sub_dag_index;
            last_gc = state.gc_round_exec();
            last_marks = state.last_committed.clone();
        }
    }
}

/// No certificate appears in two sub-DAGs, and indices strictly increase.
#[test]
fn no_certificate_committed_twice() {
    let n = 4u64;
    let com = committee_of(n);
    let mut engine = Bullshark::new(com.clone(), ConsensusStore::new(), 100);
    let mut state = ConsensusState::new(5, &com);

    let committed = run_full_dag(&mut engine, &mut state, 11, n);
    let mut seen = std::collections::HashSet::new();
    let mut last_index = 0;
    for s in &committed {
        assert!(s.sub_dag_index > last_index);
        last_index = s.sub_dag_index;
        for c in &s.certificates {
            assert!(seen.insert(c.digest), "digest committed twice");
        }
    }
}

/// The leader schedule rotates with the schedule epoch: with one sub-DAG
/// per schedule, each commit moves every later round's leader by one.
#[test]
fn schedule_rotation() {
    let n = 4u64;
    let com = committee_of(n);
    let mut engine = Bullshark::new(com.clone(), ConsensusStore::new(), 1);
    let mut state = ConsensusState::new(5, &com);

    let committed = run_full_dag(&mut engine, &mut state, 7, n);
    // leader(2, epoch 0) = 0; after that commit the epoch is 1, so
    // leader(4, 1) = 2 and after two commits leader(6, 2) = (2 + 2) % 4 = 0.
    let anchors: Vec<(u64, u64)> = committed
        .iter()
        .map(|s| (s.anchor.round, s.anchor.origin))
        .collect();
    assert_eq!(anchors, vec![(2, 0), (4, 2), (6, 0)]);
    assert_eq!(state.schedule_epoch, 3);
}
