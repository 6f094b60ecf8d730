//! Unit tests of the components around the commit rule: committee
//! thresholds and leaders, the DAG store, the batch accumulator, the
//! subscriber pipeline, the connection tracker, and the persistence window.

use bullshark::batch_maker::{sample_tx_ids, tracking_id, Batch, BatchMaker};
use bullshark::codec::{decode_index_key, decode_record, encode_index_key, encode_record};
use bullshark::certificate::{Certificate, CommittedSubDag};
use bullshark::committee::{Authority, Committee};
use bullshark::connectivity::{status_as_int, ConnectionStatus, ConnectionTracker, PeerEvent};
use bullshark::dag::{Dag, InsertError};
use bullshark::store::{recover, CommitRecord, ConsensusStore};
use bullshark::subscriber::{
    add_fetched, assemble_output, batches_to_fetch, get_batch, workers_for_certificate,
    ConsensusOutput, SubscriberQueue,
};

fn committee_of(n: u64) -> Committee {
    let mut authorities = Vec::new();
    for id in 0..n {
        authorities.push(Authority { id, stake: 1 });
    }
    Committee { epoch: 0, authorities }
}

fn cert(round: u64, origin: u64, digest: u64, parents: Vec<u64>) -> Certificate {
    Certificate {
        round,
        epoch: 0,
        origin,
        digest,
        parents,
        payload: Vec::new(),
    }
}

#[test]
fn committee_thresholds() {
    // total 4: quorum floor(8/3)+1 = 3, validity floor(3/3)+1 = 2.
    let c4 = committee_of(4);
    assert_eq!(c4.total_stake(), 4);
    assert_eq!(c4.quorum_threshold(), 3);
    assert_eq!(c4.validity_threshold(), 2);
    assert!(c4.reached_quorum(3) && !c4.reached_quorum(2));
    assert!(c4.reached_validity(2) && !c4.reached_validity(1));

    // total 7: quorum floor(14/3)+1 = 5, validity floor(6/3)+1 = 3.
    let c7 = committee_of(7);
    assert_eq!(c7.quorum_threshold(), 5);
    assert_eq!(c7.validity_threshold(), 3);

    // Unequal stakes: total 10, quorum floor(20/3)+1 = 7, validity 4.
    let mixed = Committee {
        epoch: 0,
        authorities: vec![
            Authority { id: 0, stake: 1 },
            Authority { id: 1, stake: 2 },
            Authority { id: 2, stake: 3 },
            Authority { id: 3, stake: 4 },
        ],
    };
    assert_eq!(mixed.total_stake(), 10);
    assert_eq!(mixed.quorum_threshold(), 7);
    assert_eq!(mixed.validity_threshold(), 4);
    assert_eq!(mixed.stake(2), 3);
}

#[test]
fn leader_schedule_is_deterministic_and_rotates() {
    let com = committee_of(4);
    assert_eq!(com.leader(2, 0), 0);
    assert_eq!(com.leader(4, 0), 1);
    assert_eq!(com.leader(6, 0), 2);
    assert_eq!(com.leader(8, 0), 3);
    assert_eq!(com.leader(10, 0), 0);
    // The schedule epoch rotates the assignment.
    assert_eq!(com.leader(2, 1), 1);
    assert_eq!(com.leader(2, 4), 0);
    // Same inputs, same leader.
    assert_eq!(com.leader(6, 3), com.leader(6, 3));
}

#[test]
fn dag_insert_get_and_prune() {
    let mut dag = Dag::new();
    let a = cert(1, 0, 10, vec![]);
    let b = cert(1, 1, 11, vec![]);
    let c = cert(2, 0, 20, vec![10, 11]);
    assert_eq!(dag.insert(&a, 0), Ok(()));
    assert_eq!(dag.insert(&b, 0), Ok(()));
    assert_eq!(dag.insert(&c, 0), Ok(()));

    // Idempotent on the identical digest, refused on a different one.
    assert_eq!(dag.insert(&a, 0), Ok(()));
    let equivocation = cert(1, 0, 99, vec![]);
    assert_eq!(dag.insert(&equivocation, 0), Err(InsertError::AlreadyPresent));
    // A digest already stored under another slot is refused too.
    let collision = cert(1, 2, 10, vec![]);
    assert_eq!(dag.insert(&collision, 0), Err(InsertError::AlreadyPresent));
    // At or below the collection round nothing enters.
    let old = cert(1, 3, 12, vec![]);
    assert_eq!(dag.insert(&old, 1), Err(InsertError::BelowGc));

    assert_eq!(dag.get(1, 0).unwrap().digest, 10);
    assert!(dag.get(1, 2).is_none());
    assert_eq!(dag.get_by_digest(20).unwrap().origin, 0);
    assert!(dag.get_by_digest(99).is_none());

    // Paths follow parent references and nothing else.
    let a_ref = cert(1, 0, 10, vec![]);
    let c_ref = cert(2, 0, 20, vec![10, 11]);
    let b_ref = cert(1, 1, 11, vec![]);
    assert!(dag.has_path(&c_ref, &a_ref));
    assert!(dag.has_path(&c_ref, &b_ref));
    assert!(!dag.has_path(&a_ref, &c_ref));
    assert!(dag.has_path(&a_ref, &a_ref));

    dag.prune_below(1);
    assert!(dag.get(1, 0).is_none());
    assert!(dag.get(2, 0).is_some());
}

#[test]
fn round_listing_is_in_origin_order() {
    let com = committee_of(4);
    let mut dag = Dag::new();
    dag.insert(&cert(1, 2, 12, vec![]), 0).unwrap();
    dag.insert(&cert(1, 0, 10, vec![]), 0).unwrap();
    dag.insert(&cert(2, 1, 21, vec![10]), 0).unwrap();
    // Whatever the arrival order, the listing is by ascending origin.
    let row: Vec<(u64, u64)> = dag
        .certificates_at_round(1, &com)
        .into_iter()
        .map(|(o, c)| (o, c.digest))
        .collect();
    assert_eq!(row, vec![(0, 10), (2, 12)]);
    assert!(dag.certificates_at_round(3, &com).is_empty());
}

#[test]
fn support_counting() {
    let com = committee_of(4);
    let mut dag = Dag::new();
    let anchor = cert(2, 0, 20, vec![]);
    dag.insert(&anchor, 0).unwrap();
    // Two round-3 certificates list the anchor, one does not.
    dag.insert(&cert(3, 0, 30, vec![20]), 0).unwrap();
    dag.insert(&cert(3, 1, 31, vec![20]), 0).unwrap();
    dag.insert(&cert(3, 2, 32, vec![999]), 0).unwrap();
    assert_eq!(dag.count_support(&com, 3, 20), 2);
    assert_eq!(dag.count_support(&com, 3, 999), 1);
    assert_eq!(dag.count_support(&com, 4, 20), 0);
}

#[test]
fn batch_seals_on_size() {
    let mut maker = BatchMaker::new(10);
    assert!(maker.add_transaction(vec![1, 2, 3]).is_none());
    assert!(maker.add_transaction(vec![4, 5, 6]).is_none());
    // 6 + 4 bytes reach the limit of 10: the batch seals.
    let sealed = maker.add_transaction(vec![7, 8, 9, 10]).unwrap();
    assert_eq!(
        sealed.transactions,
        vec![vec![1, 2, 3], vec![4, 5, 6], vec![7, 8, 9, 10]]
    );
    assert_eq!(maker.current_size, 0);
    assert!(maker.transactions.is_empty());
}

#[test]
fn batch_seals_on_timer() {
    let mut maker = BatchMaker::new(1000);
    // An empty accumulator seals nothing.
    assert!(maker.seal_on_timer().is_none());
    maker.add_transaction(vec![1]);
    maker.add_transaction(vec![2, 3]);
    let sealed = maker.seal_on_timer().unwrap();
    assert_eq!(sealed.transactions, vec![vec![1], vec![2, 3]]);
    assert!(maker.seal_on_timer().is_none());
}

#[test]
fn tracking_ids_read_big_endian() {
    assert_eq!(
        tracking_id(&vec![1, 2, 3, 4, 5, 6, 7, 8]),
        0x0102030405060708
    );
    assert_eq!(
        tracking_id(&vec![0xFF, 0, 0, 0, 0, 0, 0, 1, 42]),
        0xFF00000000000001
    );
    assert_eq!(tracking_id(&vec![1, 2, 3]), 0);

    // Sample transactions start with a zero byte; the identifier follows.
    let batch = Batch {
        transactions: vec![
            vec![0, 0, 0, 0, 0, 0, 0, 0, 7, 99],
            vec![1, 0, 0, 0, 0, 0, 0, 0, 8, 99],
            vec![0, 1, 2],
            vec![0, 0, 0, 0, 0, 1, 0, 0, 0, 50],
        ],
    };
    assert_eq!(sample_tx_ids(&batch), vec![7, 0x0000000001000000]);
}

fn sub_dag_with_payload() -> CommittedSubDag {
    let mut c1 = cert(1, 0, 10, vec![]);
    c1.payload = vec![(100, 0), (101, 1)];
    let mut c2 = cert(1, 1, 11, vec![]);
    c2.payload = vec![(100, 0), (102, 0)];
    let anchor = cert(2, 0, 20, vec![10, 11]);
    CommittedSubDag {
        anchor: anchor.clone(),
        certificates: vec![c1, c2, anchor],
        sub_dag_index: 1,
    }
}

#[test]
fn fetch_list_deduplicates_digests() {
    let sd = sub_dag_with_payload();
    // (100, 0) appears twice; only its first occurrence stays.
    assert_eq!(batches_to_fetch(&sd), vec![(100, 0), (101, 1), (102, 0)]);
}

#[test]
fn assemble_maps_batches_to_certificates() {
    let sd = sub_dag_with_payload();
    let mut fetched: Vec<(u64, Vec<u8>)> = Vec::new();
    add_fetched(&mut fetched, 100, vec![1]);
    add_fetched(&mut fetched, 101, vec![2]);
    // Missing digest 102: assembly refuses.
    assert!(assemble_output(&sd, &fetched).is_none());
    add_fetched(&mut fetched, 102, vec![3]);
    let out = assemble_output(&sd, &fetched).unwrap();
    assert_eq!(out.batches.len(), 3);
    assert_eq!(out.batches[0], vec![vec![1], vec![2]]);
    assert_eq!(out.batches[1], vec![vec![1], vec![3]]);
    assert!(out.batches[2].is_empty());
    // Overwriting a digest replaces its blob.
    add_fetched(&mut fetched, 100, vec![9]);
    assert_eq!(get_batch(&fetched, 100).unwrap(), &vec![9]);
}

#[test]
fn pipeline_releases_in_submission_order() {
    let mut q = SubscriberQueue::new(3);
    let sd1 = sub_dag_with_payload();
    let mut sd2 = sub_dag_with_payload();
    sd2.sub_dag_index = 2;
    let mut sd3 = sub_dag_with_payload();
    sd3.sub_dag_index = 3;

    assert!(q.can_submit());
    assert_eq!(q.submit(sd1.clone()), 0);
    assert_eq!(q.submit(sd2.clone()), 1);
    assert_eq!(q.submit(sd3.clone()), 2);
    // Backpressure at the bound.
    assert!(!q.can_submit());

    // Fetches complete out of order: 2, then 0, then 1.
    q.complete(
        2,
        ConsensusOutput { sub_dag: sd3, batches: Vec::new() },
    );
    // The head is incomplete: nothing is released yet.
    assert!(q.try_release().is_none());
    q.complete(
        0,
        ConsensusOutput { sub_dag: sd1, batches: Vec::new() },
    );
    let first = q.try_release().unwrap();
    assert_eq!(first.sub_dag.sub_dag_index, 1);
    assert!(q.try_release().is_none());
    q.complete(
        0,
        ConsensusOutput { sub_dag: sd2, batches: Vec::new() },
    );
    let second = q.try_release().unwrap();
    assert_eq!(second.sub_dag.sub_dag_index, 2);
    let third = q.try_release().unwrap();
    assert_eq!(third.sub_dag.sub_dag_index, 3);
    assert!(q.try_release().is_none());
    assert!(q.can_submit());
}

#[test]
fn workers_follow_the_cache() {
    let cache = vec![(0, 500), (1, 501), (3, 503)];
    // Authority 2 has no cached worker and is skipped.
    assert_eq!(
        workers_for_certificate(&vec![0, 2, 3, 1], &cache),
        vec![500, 503, 501]
    );
    assert_eq!(workers_for_certificate(&vec![], &cache), Vec::<u64>::new());
}

#[test]
fn connectivity_status_updates() {
    let mut tracker = ConnectionTracker::new();
    assert!(tracker.status(2).is_none());
    assert_eq!(tracker.connected_count(), 0);

    tracker.handle_peer_event(PeerEvent::NewPeer(2));
    assert_eq!(tracker.status(2), Some(ConnectionStatus::Connected));

    tracker.handle_peer_event(PeerEvent::NewPeer(3));
    assert_eq!(tracker.status(3), Some(ConnectionStatus::Connected));
    assert_eq!(tracker.connected_count(), 2);

    tracker.handle_peer_event(PeerEvent::LostPeer(2));
    assert_eq!(tracker.status(2), Some(ConnectionStatus::Disconnected));
    assert_eq!(tracker.status(3), Some(ConnectionStatus::Connected));
    assert_eq!(tracker.connected_count(), 1);

    tracker.handle_peer_event(PeerEvent::LostPeer(3));
    assert_eq!(tracker.status(3), Some(ConnectionStatus::Disconnected));
    assert_eq!(tracker.connected_count(), 0);

    assert_eq!(status_as_int(&ConnectionStatus::Connected), 1);
    assert_eq!(status_as_int(&ConnectionStatus::Disconnected), 0);
}

fn record(anchor_round: u64, index: u64, marks: Vec<u64>) -> CommitRecord {
    let anchor = cert(anchor_round, 0, anchor_round * 100 + 1, vec![]);
    CommitRecord {
        sub_dag: CommittedSubDag {
            anchor: anchor.clone(),
            certificates: vec![anchor],
            sub_dag_index: index,
        },
        last_committed: marks,
    }
}

#[test]
fn store_window_and_recovery() {
    let com = committee_of(4);

    // An empty store recovers to the fresh state.
    let empty = ConsensusStore::new();
    let s = recover(&empty, &com, 5, 100);
    assert_eq!(s.last_committed_round, 0);
    assert_eq!(s.sub_dag_index, 0);
    assert_eq!(s.last_committed, vec![0, 0, 0, 0]);

    // The window drops records at or below the tip's collection round.
    let mut store = ConsensusStore::new();
    store.write_commit(&record(2, 1, vec![2, 1, 1, 1]), 2);
    store.write_commit(&record(4, 2, vec![4, 3, 3, 3]), 2);
    store.write_commit(&record(6, 3, vec![6, 5, 5, 5]), 2);
    store.write_commit(&record(8, 4, vec![8, 7, 7, 7]), 2);
    let rounds: Vec<u64> = store
        .records
        .iter()
        .map(|r| r.sub_dag.anchor.round)
        .collect();
    // Collection round of the tip is 6: only rounds above it stay.
    assert_eq!(rounds, vec![8]);

    // Recovery rehydrates the scalar state from the newest record.
    let s = recover(&store, &com, 2, 2);
    assert_eq!(s.last_committed_round, 8);
    assert_eq!(s.sub_dag_index, 4);
    assert_eq!(s.schedule_epoch, 2);
    assert_eq!(s.last_committed, vec![8, 7, 7, 7]);
    assert_eq!(s.gc_round_exec(), 6);
    assert!(s.dag.certs.is_empty());
}

#[test]
fn index_keys_are_big_endian_and_ordered() {
    // Exact bytes: fixed width, most significant first.
    assert_eq!(encode_index_key(0), vec![0, 0, 0, 0, 0, 0, 0, 0]);
    assert_eq!(encode_index_key(1), vec![0, 0, 0, 0, 0, 0, 0, 1]);
    assert_eq!(
        encode_index_key(0x0102030405060708),
        vec![1, 2, 3, 4, 5, 6, 7, 8]
    );
    assert_eq!(
        encode_index_key(u64::MAX),
        vec![0xFF, 0xFF, 0xFF, 0xFF, 0xFF, 0xFF, 0xFF, 0xFF]
    );

    // Round trip.
    for index in [0u64, 1, 255, 256, 65535, 1 << 40, u64::MAX - 1, u64::MAX] {
        assert_eq!(decode_index_key(&encode_index_key(index)), Some(index));
    }
    assert_eq!(decode_index_key(&vec![1, 2, 3]), None);

    // Byte-wise order agrees with numeric order, so ordered key iteration
    // walks records in index order.
    let samples = [0u64, 1, 2, 255, 256, 257, 65535, 65536, 1 << 33, u64::MAX];
    for &a in &samples {
        for &b in &samples {
            assert_eq!(encode_index_key(a) < encode_index_key(b), a < b);
        }
    }
}

#[test]
fn record_encoding_round_trips() {
    let mut c1 = cert(1, 0, 10, vec![]);
    c1.payload = vec![(100, 0), (101, 1)];
    let c2 = cert(1, 1, 11, vec![]);
    let anchor = cert(2, 0, 20, vec![10, 11]);
    let rec = CommitRecord {
        sub_dag: CommittedSubDag {
            anchor: anchor.clone(),
            certificates: vec![c1, c2, anchor],
            sub_dag_index: 7,
        },
        last_committed: vec![2, 1, 1, 1],
    };

    let bytes = encode_record(&rec);
    // Self-describing: the version tag leads.
    assert_eq!(bytes[0], 1);
    let decoded = decode_record(&bytes).unwrap();
    assert_eq!(decoded.sub_dag.anchor, rec.sub_dag.anchor);
    assert_eq!(decoded.sub_dag.certificates, rec.sub_dag.certificates);
    assert_eq!(decoded.sub_dag.sub_dag_index, rec.sub_dag.sub_dag_index);
    assert_eq!(decoded.last_committed, rec.last_committed);

    // A record under an unknown version is rejected.
    let mut wrong_version = bytes.clone();
    wrong_version[0] = 2;
    assert!(decode_record(&wrong_version).is_none());
    // Truncated input is rejected.
    let truncated: Vec<u8> = bytes[..bytes.len() - 1].to_vec();
    assert!(decode_record(&truncated).is_none());
    // Trailing garbage is rejected: a record spans its input exactly.
    let mut padded = bytes.clone();
    padded.push(0);
    assert!(decode_record(&padded).is_none());
}
