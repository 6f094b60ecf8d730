//! The byte encoding of the durable store: fixed-width big-endian keys for
//! the sub-DAG indices, and a length-prefixed, version-tagged binary
//! encoding of the commit records.  Big-endian keys make the numeric order
//! and the byte-wise lexicographic order agree, so a store that iterates
//! keys in byte order walks the commit records in index order; that
//! agreement is proved here, together with the round trips of both the key
//! and the record encodings.

use vstd::prelude::*;

use crate::batch_maker::be_u64_of;
use crate::certificate::Certificate;
use crate::certificate::CertificateModel;
use crate::certificate::CommittedSubDag;
use crate::certificate::SubDagModel;
use crate::store::CommitRecord;
use crate::store::RecordModel;

verus! {

/// The `k`-th big-endian byte of `x`: the most significant first.
pub open spec fn be_byte(x: u64, k: int) -> u8 {
    ((x as int / pow256(7 - k)) % 256) as u8
}

/// `256^k` for the byte positions of a `u64`.
pub open spec fn pow256(k: int) -> int
    decreases k,
{
    if k <= 0 {
        1
    } else {
        256 * pow256(k - 1)
    }
}

/// The eight big-endian bytes of `x`.
pub open spec fn u64_be_bytes(x: u64) -> Seq<u8> {
    seq![
        be_byte(x, 0),
        be_byte(x, 1),
        be_byte(x, 2),
        be_byte(x, 3),
        be_byte(x, 4),
        be_byte(x, 5),
        be_byte(x, 6),
        be_byte(x, 7),
    ]
}

/// Encode a sub-DAG index as its fixed-width big-endian key.
pub fn encode_index_key(index: u64) -> (key: Vec<u8>)
    ensures
        key@ == u64_be_bytes(index),
        key@.len() == 8,
{
    let b0 = (index / 0x100_0000_0000_0000) as u8;
    let b1 = ((index / 0x1_0000_0000_0000) % 256) as u8;
    let b2 = ((index / 0x100_0000_0000) % 256) as u8;
    let b3 = ((index / 0x1_0000_0000) % 256) as u8;
    let b4 = ((index / 0x100_0000) % 256) as u8;
    let b5 = ((index / 0x1_0000) % 256) as u8;
    let b6 = ((index / 0x100) % 256) as u8;
    let b7 = (index % 256) as u8;
    let key = vec![b0, b1, b2, b3, b4, b5, b6, b7];
    proof {
        lemma_pow256_values();
        assert((index as int / pow256(7)) % 256 == index as int / pow256(7)) by {
            lemma_top_byte_small(index);
        }
        assert(key@ =~= u64_be_bytes(index));
    }
    key
}

/// Decode a fixed-width big-endian key back to the sub-DAG index.  Exactly
/// undoes [`encode_index_key`]: the ensures ties the result to the bytes,
/// and [`lemma_index_key_round_trip`] ties the bytes back to the index.
pub fn decode_index_key(key: &Vec<u8>) -> (index: Option<u64>)
    ensures
        key@.len() == 8 ==> index == Some((be_u64_of(key@) as u64)),
        key@.len() != 8 ==> index is None,
{
    if key.len() != 8 {
        return None;
    }
    let v = (key[0] as u64) * 0x100_0000_0000_0000 + (key[1] as u64) * 0x1_0000_0000_0000 + (
    key[2] as u64) * 0x100_0000_0000 + (key[3] as u64) * 0x1_0000_0000 + (key[4] as u64)
        * 0x100_0000 + (key[5] as u64) * 0x1_0000 + (key[6] as u64) * 0x100 + (key[7] as u64);
    Some(v)
}

/// The concrete values of the byte-position powers.
proof fn lemma_pow256_values()
    ensures
        pow256(0) == 1,
        pow256(1) == 0x100,
        pow256(2) == 0x1_0000,
        pow256(3) == 0x100_0000,
        pow256(4) == 0x1_0000_0000,
        pow256(5) == 0x100_0000_0000,
        pow256(6) == 0x1_0000_0000_0000,
        pow256(7) == 0x100_0000_0000_0000,
{
}

/// The top byte needs no masking: a `u64` divided by `256^7` is below 256.
proof fn lemma_top_byte_small(x: u64)
    ensures
        0 <= x as int / pow256(7) < 256,
{
    lemma_pow256_values();
    assert(x as int / 0x100_0000_0000_0000 < 256) by (nonlinear_arith)
        requires
            0 <= x <= 0xffff_ffff_ffff_ffff,
    ;
    assert(x as int / 0x100_0000_0000_0000 >= 0) by (nonlinear_arith)
        requires
            x >= 0,
    ;
}

/// Round trip: reading the eight big-endian bytes of an index yields the
/// index.
pub proof fn lemma_index_key_round_trip(x: u64)
    ensures
        be_u64_of(u64_be_bytes(x)) == x,
{
    lemma_pow256_values();
    lemma_top_byte_small(x);
    let v = x as int;
    assert(v == 256 * (v / 256) + v % 256) by (nonlinear_arith);
    assert(v / 256 == 256 * (v / 256 / 256) + (v / 256) % 256) by (nonlinear_arith);
    assert(v / 0x1_0000 == 256 * (v / 0x1_0000 / 256) + (v / 0x1_0000) % 256) by (nonlinear_arith);
    assert(v / 0x100_0000 == 256 * (v / 0x100_0000 / 256) + (v / 0x100_0000) % 256)
        by (nonlinear_arith);
    assert(v / 0x1_0000_0000 == 256 * (v / 0x1_0000_0000 / 256) + (v / 0x1_0000_0000) % 256)
        by (nonlinear_arith);
    assert(v / 0x100_0000_0000 == 256 * (v / 0x100_0000_0000 / 256) + (v / 0x100_0000_0000) % 256)
        by (nonlinear_arith);
    assert(v / 0x1_0000_0000_0000 == 256 * (v / 0x1_0000_0000_0000 / 256) + (v
        / 0x1_0000_0000_0000) % 256) by (nonlinear_arith);
    assert(v / 256 / 256 == v / 0x1_0000) by (nonlinear_arith);
    assert(v / 0x1_0000 / 256 == v / 0x100_0000) by (nonlinear_arith);
    assert(v / 0x100_0000 / 256 == v / 0x1_0000_0000) by (nonlinear_arith);
    assert(v / 0x1_0000_0000 / 256 == v / 0x100_0000_0000) by (nonlinear_arith);
    assert(v / 0x100_0000_0000 / 256 == v / 0x1_0000_0000_0000) by (nonlinear_arith);
    assert(v / 0x1_0000_0000_0000 / 256 == v / 0x100_0000_0000_0000) by (nonlinear_arith);
}

/// Strict lexicographic order on equal-length byte strings: the strings
/// agree up to some position and differ there.
pub open spec fn lex_less(a: Seq<u8>, b: Seq<u8>) -> bool {
    exists|k: int|
        0 <= k < a.len() && k < b.len() && (#[trigger] a[k]) < b[k] && (forall|j: int|
            0 <= j < k ==> a[j] == b[j])
}

/// Order preservation, the reason the keys are big endian: two index keys
/// compare lexicographically exactly as the indices compare numerically, so
/// iterating the store's keys in byte order visits commit records in
/// sub-DAG index order.
pub proof fn lemma_index_key_order(x: u64, y: u64)
    ensures
        lex_less(u64_be_bytes(x), u64_be_bytes(y)) <==> x < y,
{
    lemma_pow256_values();
    lemma_top_byte_small(x);
    lemma_top_byte_small(y);
    let a = u64_be_bytes(x);
    let b = u64_be_bytes(y);
    if x < y {
        let k = choose|k: int| 0 <= k < 8 && a[k] != b[k] && (forall|j: int| 0 <= j < k ==> a[j] == b[j]);
        lemma_bytes_differ(x, y);
        lemma_prefix_determines(x, y, k);
        assert(a[k] < b[k]);
        assert(lex_less(a, b));
    }
    if lex_less(a, b) {
        let k = choose|k: int|
            0 <= k < a.len() && k < b.len() && (#[trigger] a[k]) < b[k] && (forall|j: int|
                0 <= j < k ==> a[j] == b[j]);
        lemma_prefix_value(x, y, k);
        assert(x < y);
    }
}

/// Distinct numbers have a first differing byte.
proof fn lemma_bytes_differ(x: u64, y: u64)
    requires
        x != y,
    ensures
        exists|k: int|
            0 <= k < 8 && u64_be_bytes(x)[k] != u64_be_bytes(y)[k] && (forall|j: int|
                0 <= j < k ==> u64_be_bytes(x)[j] == u64_be_bytes(y)[j]),
{
    let a = u64_be_bytes(x);
    let b = u64_be_bytes(y);
    if a =~= b {
        lemma_index_key_round_trip(x);
        lemma_index_key_round_trip(y);
        assert(be_u64_of(a) == be_u64_of(b));
        assert(false);
    }
    let d = choose|d: int| 0 <= d < 8 && a[d] != b[d];
    lemma_first_difference(a, b, d);
}

/// Ahead of any differing position lies a first differing position.
proof fn lemma_first_difference(a: Seq<u8>, b: Seq<u8>, d: int)
    requires
        0 <= d < a.len(),
        d < b.len(),
        a[d] != b[d],
    ensures
        exists|k: int|
            0 <= k < a.len() && k < b.len() && #[trigger] a[k] != b[k] && (forall|j: int|
                0 <= j < k ==> a[j] == b[j]),
    decreases d,
{
    if forall|j: int| 0 <= j < d ==> a[j] == b[j] {
        assert(a[d] != b[d]);
    } else {
        let e = choose|e: int| 0 <= e < d && a[e] != b[e];
        lemma_first_difference(a, b, e);
    }
}

/// With the bytes before `k` equal, the values truncated above byte `k`
/// agree; a smaller byte at `k` then forces the smaller number.
proof fn lemma_prefix_value(x: u64, y: u64, k: int)
    requires
        0 <= k < 8,
        forall|j: int| 0 <= j < k ==> u64_be_bytes(x)[j] == u64_be_bytes(y)[j],
        u64_be_bytes(x)[k] < u64_be_bytes(y)[k],
    ensures
        x < y,
{
    lemma_prefix_eq(x, y, k);
    let p = pow256(7 - k);
    lemma_pow256_pos(7 - k);
    // the value of the bytes through position k
    assert(x as int / p < y as int / p) by (nonlinear_arith)
        requires
            p > 0,
            (x as int / p) / 256 == (y as int / p) / 256,
            (x as int / p) % 256 < (y as int / p) % 256,
    ;
    assert(x < y) by (nonlinear_arith)
        requires
            p > 0,
            x as int / p < y as int / p,
    ;
}

/// Bytes before `k` equal means the numbers agree above byte `k`.
proof fn lemma_prefix_eq(x: u64, y: u64, k: int)
    requires
        0 <= k < 8,
        forall|j: int| 0 <= j < k ==> u64_be_bytes(x)[j] == u64_be_bytes(y)[j],
    ensures
        (x as int / pow256(7 - k)) / 256 == (y as int / pow256(7 - k)) / 256,
    decreases k,
{
    lemma_pow256_pos(7 - k);
    if k == 0 {
        lemma_top_byte_small(x);
        lemma_top_byte_small(y);
        assert((x as int / pow256(7)) / 256 == 0) by (nonlinear_arith)
            requires
                0 <= x as int / pow256(7) < 256,
        ;
        assert((y as int / pow256(7)) / 256 == 0) by (nonlinear_arith)
            requires
                0 <= y as int / pow256(7) < 256,
        ;
    } else {
        lemma_prefix_eq(x, y, k - 1);
        let p = pow256(7 - k);
        lemma_pow256_pos(7 - (k - 1));
        assert(pow256(7 - (k - 1)) == 256 * p);
        // dividing by 256 * p is dividing by p, then by 256
        assert(x as int / (256 * p) == (x as int / p) / 256) by (nonlinear_arith)
            requires
                p > 0,
                x >= 0,
        ;
        assert(y as int / (256 * p) == (y as int / p) / 256) by (nonlinear_arith)
            requires
                p > 0,
                y >= 0,
        ;
        assert(u64_be_bytes(x)[k - 1] == u64_be_bytes(y)[k - 1]);
        assert((x as int / (256 * p)) % 256 == (y as int / (256 * p)) % 256);
        assert((x as int / p) / 256 == (y as int / p) / 256) by (nonlinear_arith)
            requires
                p > 0,
                x as int / (256 * p) == (x as int / p) / 256,
                y as int / (256 * p) == (y as int / p) / 256,
                ((x as int / (256 * p)) / 256) == ((y as int / (256 * p)) / 256),
                (x as int / (256 * p)) % 256 == (y as int / (256 * p)) % 256,
        ;
    }
}

/// With the numbers distinct, the first differing byte is smaller on the
/// smaller number's side.
proof fn lemma_prefix_determines(x: u64, y: u64, k: int)
    requires
        x < y,
        0 <= k < 8,
        u64_be_bytes(x)[k] != u64_be_bytes(y)[k],
        forall|j: int| 0 <= j < k ==> u64_be_bytes(x)[j] == u64_be_bytes(y)[j],
    ensures
        u64_be_bytes(x)[k] < u64_be_bytes(y)[k],
{
    if u64_be_bytes(y)[k] < u64_be_bytes(x)[k] {
        lemma_prefix_value(y, x, k);
        assert(false);
    }
}

/// `256^k` is positive.
proof fn lemma_pow256_pos(k: int)
    ensures
        pow256(k) >= 1,
    decreases k,
{
    if k > 0 {
        lemma_pow256_pos(k - 1);
    }
}

/// The version tag of the record encoding; a reader rejects records written
/// under a format it does not know.
pub const RECORD_FORMAT_VERSION: u8 = 1;

/// The bytes of the first `k` words, each big endian.
pub open spec fn enc_u64_items(v: Seq<u64>, k: int) -> Seq<u8>
    decreases k,
{
    if k <= 0 {
        Seq::empty()
    } else {
        enc_u64_items(v, k - 1) + u64_be_bytes(v[k - 1])
    }
}

/// A length-prefixed list of words.
pub open spec fn enc_u64_list(v: Seq<u64>) -> Seq<u8> {
    u64_be_bytes(v.len() as u64) + enc_u64_items(v, v.len() as int)
}

/// The bytes of the first `k` pairs, each component big endian.
pub open spec fn enc_pair_items(v: Seq<(u64, u64)>, k: int) -> Seq<u8>
    decreases k,
{
    if k <= 0 {
        Seq::empty()
    } else {
        enc_pair_items(v, k - 1) + u64_be_bytes(v[k - 1].0) + u64_be_bytes(v[k - 1].1)
    }
}

/// A length-prefixed list of pairs.
pub open spec fn enc_pair_list(v: Seq<(u64, u64)>) -> Seq<u8> {
    u64_be_bytes(v.len() as u64) + enc_pair_items(v, v.len() as int)
}

/// A certificate: its four scalar fields, its parents, its payload.
pub open spec fn enc_cert(c: CertificateModel) -> Seq<u8> {
    u64_be_bytes(c.round) + u64_be_bytes(c.epoch) + u64_be_bytes(c.origin) + u64_be_bytes(c.digest)
        + enc_u64_list(c.parents) + enc_pair_list(c.payload)
}

/// The bytes of the first `k` certificates.
pub open spec fn enc_cert_items(v: Seq<CertificateModel>, k: int) -> Seq<u8>
    decreases k,
{
    if k <= 0 {
        Seq::empty()
    } else {
        enc_cert_items(v, k - 1) + enc_cert(v[k - 1])
    }
}

/// A committed sub-DAG: the anchor, the ordered certificates, the index.
pub open spec fn enc_sub_dag(m: SubDagModel) -> Seq<u8> {
    enc_cert(m.anchor) + u64_be_bytes(m.certificates.len() as u64) + enc_cert_items(
        m.certificates,
        m.certificates.len() as int,
    ) + u64_be_bytes(m.sub_dag_index)
}

/// A commit record: the format version, the sub-DAG, the watermarks.
pub open spec fn enc_record(m: RecordModel) -> Seq<u8> {
    seq![RECORD_FORMAT_VERSION] + enc_sub_dag(m.sub_dag) + enc_u64_list(m.last_committed)
}

/// Read one big-endian word at `off`.
pub open spec fn dec_u64(s: Seq<u8>, off: int) -> Option<(u64, int)> {
    if 0 <= off && off + 8 <= s.len() {
        Some(((be_u64_of(s.subrange(off, off + 8)) as u64), off + 8))
    } else {
        None
    }
}

/// Read `count` big-endian words starting at `off`.
pub open spec fn dec_u64_items(s: Seq<u8>, off: int, count: int) -> Option<(Seq<u64>, int)>
    decreases count,
{
    if count <= 0 {
        Some((Seq::empty(), off))
    } else {
        match dec_u64_items(s, off, count - 1) {
            None => None,
            Some((v, o)) => match dec_u64(s, o) {
                None => None,
                Some((x, o2)) => Some((v.push(x), o2)),
            },
        }
    }
}

/// Read a length-prefixed list of words.
pub open spec fn dec_u64_list(s: Seq<u8>, off: int) -> Option<(Seq<u64>, int)> {
    match dec_u64(s, off) {
        None => None,
        Some((n, o)) => dec_u64_items(s, o, n as int),
    }
}

/// Read `count` pairs of big-endian words starting at `off`.
pub open spec fn dec_pair_items(s: Seq<u8>, off: int, count: int) -> Option<
    (Seq<(u64, u64)>, int),
>
    decreases count,
{
    if count <= 0 {
        Some((Seq::empty(), off))
    } else {
        match dec_pair_items(s, off, count - 1) {
            None => None,
            Some((v, o)) => match dec_u64(s, o) {
                None => None,
                Some((a, o2)) => match dec_u64(s, o2) {
                    None => None,
                    Some((b, o3)) => Some((v.push((a, b)), o3)),
                },
            },
        }
    }
}

/// Read a length-prefixed list of pairs.
pub open spec fn dec_pair_list(s: Seq<u8>, off: int) -> Option<(Seq<(u64, u64)>, int)> {
    match dec_u64(s, off) {
        None => None,
        Some((n, o)) => dec_pair_items(s, o, n as int),
    }
}

/// Read one certificate.
pub open spec fn dec_cert(s: Seq<u8>, off: int) -> Option<(CertificateModel, int)> {
    match dec_u64(s, off) {
        None => None,
        Some((round, o1)) => match dec_u64(s, o1) {
            None => None,
            Some((epoch, o2)) => match dec_u64(s, o2) {
                None => None,
                Some((origin, o3)) => match dec_u64(s, o3) {
                    None => None,
                    Some((digest, o4)) => match dec_u64_list(s, o4) {
                        None => None,
                        Some((parents, o5)) => match dec_pair_list(s, o5) {
                            None => None,
                            Some((payload, o6)) => Some(
                                (
                                    CertificateModel {
                                        round,
                                        epoch,
                                        origin,
                                        digest,
                                        parents,
                                        payload,
                                    },
                                    o6,
                                ),
                            ),
                        },
                    },
                },
            },
        },
    }
}

/// Read `count` certificates starting at `off`.
pub open spec fn dec_cert_items(s: Seq<u8>, off: int, count: int) -> Option<
    (Seq<CertificateModel>, int),
>
    decreases count,
{
    if count <= 0 {
        Some((Seq::empty(), off))
    } else {
        match dec_cert_items(s, off, count - 1) {
            None => None,
            Some((v, o)) => match dec_cert(s, o) {
                None => None,
                Some((c, o2)) => Some((v.push(c), o2)),
            },
        }
    }
}

/// Read one committed sub-DAG.
pub open spec fn dec_sub_dag(s: Seq<u8>, off: int) -> Option<(SubDagModel, int)> {
    match dec_cert(s, off) {
        None => None,
        Some((anchor, o1)) => match dec_u64(s, o1) {
            None => None,
            Some((n, o2)) => match dec_cert_items(s, o2, n as int) {
                None => None,
                Some((certificates, o3)) => match dec_u64(s, o3) {
                    None => None,
                    Some((sub_dag_index, o4)) => Some(
                        (SubDagModel { anchor, certificates, sub_dag_index }, o4),
                    ),
                },
            },
        },
    }
}

/// Read a whole commit record; the version must be known and the record
/// must span the input exactly.
pub open spec fn dec_record(s: Seq<u8>) -> Option<RecordModel> {
    if s.len() >= 1 && s[0] == RECORD_FORMAT_VERSION {
        match dec_sub_dag(s, 1) {
            None => None,
            Some((sub_dag, o1)) => match dec_u64_list(s, o1) {
                None => None,
                Some((last_committed, o2)) => if o2 == s.len() {
                    Some(RecordModel { sub_dag, last_committed })
                } else {
                    None
                },
            },
        }
    } else {
        None
    }
}

/// `chunk` stands in `data` at offset `off`.
pub open spec fn has_at(data: Seq<u8>, off: int, chunk: Seq<u8>) -> bool {
    0 <= off && off + chunk.len() <= data.len() && data.subrange(off, off + chunk.len()) == chunk
}

/// A chunk made of two parts stands in the data as the first part followed
/// by the second.
pub proof fn lemma_has_at_cat(data: Seq<u8>, off: int, a: Seq<u8>, b: Seq<u8>)
    requires
        has_at(data, off, a + b),
    ensures
        has_at(data, off, a),
        has_at(data, off + a.len(), b),
{
    assert forall|i: int|
        0 <= i < a.len() implies data.subrange(off, off + a.len())[i] == a[i] by {
        assert(data.subrange(off, off + (a + b).len())[i] == (a + b)[i]);
    }
    assert(data.subrange(off, off + a.len()) =~= a);
    assert forall|i: int|
        0 <= i < b.len() implies data.subrange(off + a.len(), off + a.len() + b.len())[i]
        == b[i] by {
        assert(data.subrange(off, off + (a + b).len())[a.len() + i] == (a + b)[a.len() + i]);
    }
    assert(data.subrange(off + a.len(), off + a.len() + b.len()) =~= b);
}

/// Reading a word where its encoding stands yields the word.
pub proof fn lemma_dec_u64_at(data: Seq<u8>, off: int, x: u64)
    requires
        has_at(data, off, u64_be_bytes(x)),
    ensures
        dec_u64(data, off) == Some((x, off + 8)),
{
    lemma_index_key_round_trip(x);
    assert(data.subrange(off, off + 8) =~= u64_be_bytes(x));
}

/// Reading `k` words where their encodings stand yields the words.
pub proof fn lemma_dec_u64_items_at(data: Seq<u8>, off: int, v: Seq<u64>, k: int)
    requires
        0 <= k <= v.len(),
        has_at(data, off, enc_u64_items(v, k)),
    ensures
        dec_u64_items(data, off, k) == Some((v.take(k), off + enc_u64_items(v, k).len())),
    decreases k,
{
    if k <= 0 {
        assert(v.take(0) =~= Seq::<u64>::empty());
        assert(enc_u64_items(v, 0) =~= Seq::<u8>::empty());
    } else {
        lemma_has_at_cat(data, off, enc_u64_items(v, k - 1), u64_be_bytes(v[k - 1]));
        lemma_dec_u64_items_at(data, off, v, k - 1);
        lemma_dec_u64_at(data, off + enc_u64_items(v, k - 1).len(), v[k - 1]);
        assert(v.take(k - 1).push(v[k - 1]) =~= v.take(k));
    }
}

/// Reading a word list where its encoding stands yields the list.
pub proof fn lemma_dec_u64_list_at(data: Seq<u8>, off: int, v: Seq<u64>)
    requires
        v.len() < 0x1_0000_0000_0000_0000,
        has_at(data, off, enc_u64_list(v)),
    ensures
        dec_u64_list(data, off) == Some((v, off + enc_u64_list(v).len())),
{
    lemma_has_at_cat(data, off, u64_be_bytes(v.len() as u64), enc_u64_items(v, v.len() as int));
    lemma_dec_u64_at(data, off, v.len() as u64);
    lemma_dec_u64_items_at(data, off + 8, v, v.len() as int);
    assert(v.take(v.len() as int) =~= v);
}

/// Reading `k` pairs where their encodings stand yields the pairs.
pub proof fn lemma_dec_pair_items_at(data: Seq<u8>, off: int, v: Seq<(u64, u64)>, k: int)
    requires
        0 <= k <= v.len(),
        has_at(data, off, enc_pair_items(v, k)),
    ensures
        dec_pair_items(data, off, k) == Some((v.take(k), off + enc_pair_items(v, k).len())),
    decreases k,
{
    if k <= 0 {
        assert(v.take(0) =~= Seq::<(u64, u64)>::empty());
        assert(enc_pair_items(v, 0) =~= Seq::<u8>::empty());
    } else {
        let prev = enc_pair_items(v, k - 1);
        let a = u64_be_bytes(v[k - 1].0);
        let b = u64_be_bytes(v[k - 1].1);
        assert(prev + a + b =~= prev + (a + b));
        lemma_has_at_cat(data, off, prev, a + b);
        lemma_has_at_cat(data, off + prev.len(), a, b);
        lemma_dec_pair_items_at(data, off, v, k - 1);
        lemma_dec_u64_at(data, off + prev.len(), v[k - 1].0);
        lemma_dec_u64_at(data, off + prev.len() + 8, v[k - 1].1);
        assert(v.take(k - 1).push(v[k - 1]) =~= v.take(k));
    }
}

/// Reading a pair list where its encoding stands yields the list.
pub proof fn lemma_dec_pair_list_at(data: Seq<u8>, off: int, v: Seq<(u64, u64)>)
    requires
        v.len() < 0x1_0000_0000_0000_0000,
        has_at(data, off, enc_pair_list(v)),
    ensures
        dec_pair_list(data, off) == Some((v, off + enc_pair_list(v).len())),
{
    lemma_has_at_cat(data, off, u64_be_bytes(v.len() as u64), enc_pair_items(v, v.len() as int));
    lemma_dec_u64_at(data, off, v.len() as u64);
    lemma_dec_pair_items_at(data, off + 8, v, v.len() as int);
    assert(v.take(v.len() as int) =~= v);
}

/// Certificates whose lists a vector can hold.
pub open spec fn cert_bounded(c: CertificateModel) -> bool {
    c.parents.len() < 0x1_0000_0000_0000_0000 && c.payload.len() < 0x1_0000_0000_0000_0000
}

/// Reading a certificate where its encoding stands yields the certificate.
#[verifier::rlimit(60)]
pub proof fn lemma_dec_cert_at(data: Seq<u8>, off: int, c: CertificateModel)
    requires
        cert_bounded(c),
        has_at(data, off, enc_cert(c)),
    ensures
        dec_cert(data, off) == Some((c, off + enc_cert(c).len())),
{
    let r = u64_be_bytes(c.round);
    let e = u64_be_bytes(c.epoch);
    let o = u64_be_bytes(c.origin);
    let d = u64_be_bytes(c.digest);
    let ps = enc_u64_list(c.parents);
    let pl = enc_pair_list(c.payload);
    assert(enc_cert(c) =~= r + (e + (o + (d + (ps + pl)))));
    lemma_has_at_cat(data, off, r, e + (o + (d + (ps + pl))));
    lemma_has_at_cat(data, off + 8, e, o + (d + (ps + pl)));
    lemma_has_at_cat(data, off + 16, o, d + (ps + pl));
    lemma_has_at_cat(data, off + 24, d, ps + pl);
    lemma_has_at_cat(data, off + 32, ps, pl);
    lemma_dec_u64_at(data, off, c.round);
    lemma_dec_u64_at(data, off + 8, c.epoch);
    lemma_dec_u64_at(data, off + 16, c.origin);
    lemma_dec_u64_at(data, off + 24, c.digest);
    lemma_dec_u64_list_at(data, off + 32, c.parents);
    lemma_dec_pair_list_at(data, off + 32 + ps.len(), c.payload);
    assert(dec_u64(data, off) == Some((c.round, off + 8)));
    assert(dec_u64(data, off + 8) == Some((c.epoch, off + 16)));
    assert(dec_u64(data, off + 16) == Some((c.origin, off + 24)));
    assert(dec_u64(data, off + 24) == Some((c.digest, off + 32)));
    assert(dec_u64_list(data, off + 32) == Some((c.parents, off + 32 + ps.len())));
    assert(dec_pair_list(data, off + 32 + ps.len()) == Some(
        (c.payload, off + 32 + ps.len() + pl.len()),
    ));
    let decoded = dec_cert(data, off).unwrap().0;
    assert(decoded =~= c);
    assert(off + 32 + ps.len() + pl.len() == off + enc_cert(c).len());
}

/// Reading `k` certificates where their encodings stand yields them.
pub proof fn lemma_dec_cert_items_at(data: Seq<u8>, off: int, v: Seq<CertificateModel>, k: int)
    requires
        0 <= k <= v.len(),
        forall|i: int| 0 <= i < v.len() ==> cert_bounded(#[trigger] v[i]),
        has_at(data, off, enc_cert_items(v, k)),
    ensures
        dec_cert_items(data, off, k) == Some((v.take(k), off + enc_cert_items(v, k).len())),
    decreases k,
{
    if k <= 0 {
        assert(v.take(0) =~= Seq::<CertificateModel>::empty());
        assert(enc_cert_items(v, 0) =~= Seq::<u8>::empty());
    } else {
        lemma_has_at_cat(data, off, enc_cert_items(v, k - 1), enc_cert(v[k - 1]));
        lemma_dec_cert_items_at(data, off, v, k - 1);
        lemma_dec_cert_at(data, off + enc_cert_items(v, k - 1).len(), v[k - 1]);
        assert(v.take(k - 1).push(v[k - 1]) =~= v.take(k));
    }
}

/// Sub-DAGs whose lists a vector can hold.
pub open spec fn sub_dag_bounded(m: SubDagModel) -> bool {
    &&& cert_bounded(m.anchor)
    &&& m.certificates.len() < 0x1_0000_0000_0000_0000
    &&& forall|i: int| 0 <= i < m.certificates.len() ==> cert_bounded(#[trigger] m.certificates[i])
}

/// Reading a sub-DAG where its encoding stands yields the sub-DAG.
#[verifier::rlimit(60)]
pub proof fn lemma_dec_sub_dag_at(data: Seq<u8>, off: int, m: SubDagModel)
    requires
        sub_dag_bounded(m),
        has_at(data, off, enc_sub_dag(m)),
    ensures
        dec_sub_dag(data, off) == Some((m, off + enc_sub_dag(m).len())),
{
    let a = enc_cert(m.anchor);
    let n = u64_be_bytes(m.certificates.len() as u64);
    let cs = enc_cert_items(m.certificates, m.certificates.len() as int);
    let ix = u64_be_bytes(m.sub_dag_index);
    assert(enc_sub_dag(m) =~= a + (n + (cs + ix)));
    lemma_has_at_cat(data, off, a, n + (cs + ix));
    lemma_has_at_cat(data, off + a.len(), n, cs + ix);
    lemma_has_at_cat(data, off + a.len() + 8, cs, ix);
    lemma_dec_cert_at(data, off, m.anchor);
    lemma_dec_u64_at(data, off + a.len(), m.certificates.len() as u64);
    lemma_dec_cert_items_at(data, off + a.len() + 8, m.certificates, m.certificates.len() as int);
    lemma_dec_u64_at(data, off + a.len() + 8 + cs.len(), m.sub_dag_index);
    assert(m.certificates.take(m.certificates.len() as int) =~= m.certificates);
    let decoded = dec_sub_dag(data, off).unwrap().0;
    assert(decoded =~= m);
}

/// Records whose lists a vector can hold.
pub open spec fn record_bounded(m: RecordModel) -> bool {
    sub_dag_bounded(m.sub_dag) && m.last_committed.len() < 0x1_0000_0000_0000_0000
}

/// Round trip of the record encoding: decoding what was encoded yields the
/// record back, byte for byte and field for field.
pub proof fn lemma_record_round_trip(m: RecordModel)
    requires
        record_bounded(m),
    ensures
        dec_record(enc_record(m)) == Some(m),
{
    let data = enc_record(m);
    let v = seq![RECORD_FORMAT_VERSION];
    let sd = enc_sub_dag(m.sub_dag);
    let lc = enc_u64_list(m.last_committed);
    assert(data =~= v + (sd + lc));
    assert(data.subrange(0, data.len() as int) =~= data);
    assert(has_at(data, 0, data));
    lemma_has_at_cat(data, 0, v, sd + lc);
    lemma_has_at_cat(data, 1, sd, lc);
    assert(data[0] == RECORD_FORMAT_VERSION);
    lemma_dec_sub_dag_at(data, 1, m.sub_dag);
    lemma_dec_u64_list_at(data, 1 + sd.len() as int, m.last_committed);
    let decoded = dec_record(data).unwrap();
    assert(decoded =~= m);
}

/// Once reading `k1` words fails, reading any more fails too.
proof fn lemma_dec_u64_items_none(s: Seq<u8>, off: int, k1: int, k2: int)
    requires
        0 <= k1 <= k2,
        dec_u64_items(s, off, k1) is None,
    ensures
        dec_u64_items(s, off, k2) is None,
    decreases k2 - k1,
{
    if k1 < k2 {
        lemma_dec_u64_items_none(s, off, k1, k2 - 1);
    }
}

/// Once reading `k1` pairs fails, reading any more fails too.
proof fn lemma_dec_pair_items_none(s: Seq<u8>, off: int, k1: int, k2: int)
    requires
        0 <= k1 <= k2,
        dec_pair_items(s, off, k1) is None,
    ensures
        dec_pair_items(s, off, k2) is None,
    decreases k2 - k1,
{
    if k1 < k2 {
        lemma_dec_pair_items_none(s, off, k1, k2 - 1);
    }
}

/// Once reading `k1` certificates fails, reading any more fails too.
proof fn lemma_dec_cert_items_none(s: Seq<u8>, off: int, k1: int, k2: int)
    requires
        0 <= k1 <= k2,
        dec_cert_items(s, off, k1) is None,
    ensures
        dec_cert_items(s, off, k2) is None,
    decreases k2 - k1,
{
    if k1 < k2 {
        lemma_dec_cert_items_none(s, off, k1, k2 - 1);
    }
}

/// Append the eight big-endian bytes of `x`.
fn put_u64(out: &mut Vec<u8>, x: u64)
    ensures
        final(out)@ == old(out)@ + u64_be_bytes(x),
{
    let ghost pre = out@;
    let key = encode_index_key(x);
    for i in 0..8usize
        invariant
            key@ == u64_be_bytes(x),
            key@.len() == 8,
            out@ == pre + key@.take(i as int),
    {
        out.push(key[i]);
        proof {
            assert(out@ =~= pre + key@.take(i + 1));
        }
    }
    proof {
        assert(key@.take(8) =~= key@);
    }
}

/// Append a length-prefixed list of words.
fn put_u64_list(out: &mut Vec<u8>, v: &Vec<u64>)
    ensures
        final(out)@ == old(out)@ + enc_u64_list(v@),
{
    let ghost pre = out@;
    put_u64(out, v.len() as u64);
    let ghost mid = out@;
    let n = v.len();
    for i in 0..n
        invariant
            n == v@.len(),
            mid == pre + u64_be_bytes(v@.len() as u64),
            out@ == mid + enc_u64_items(v@, i as int),
    {
        put_u64(out, v[i]);
        proof {
            assert(out@ =~= mid + enc_u64_items(v@, i + 1));
        }
    }
    proof {
        assert(out@ =~= pre + enc_u64_list(v@));
    }
}

/// Append a length-prefixed list of pairs.
fn put_pair_list(out: &mut Vec<u8>, v: &Vec<(u64, u64)>)
    ensures
        final(out)@ == old(out)@ + enc_pair_list(v@),
{
    let ghost pre = out@;
    put_u64(out, v.len() as u64);
    let ghost mid = out@;
    let n = v.len();
    for i in 0..n
        invariant
            n == v@.len(),
            mid == pre + u64_be_bytes(v@.len() as u64),
            out@ == mid + enc_pair_items(v@, i as int),
    {
        let (a, b) = v[i];
        put_u64(out, a);
        put_u64(out, b);
        proof {
            assert(out@ =~= mid + enc_pair_items(v@, i + 1));
        }
    }
    proof {
        assert(out@ =~= pre + enc_pair_list(v@));
    }
}

/// Append one certificate.
fn put_cert(out: &mut Vec<u8>, c: &Certificate)
    ensures
        final(out)@ == old(out)@ + enc_cert(c@),
{
    let ghost pre = out@;
    put_u64(out, c.round);
    put_u64(out, c.epoch);
    put_u64(out, c.origin);
    put_u64(out, c.digest);
    put_u64_list(out, &c.parents);
    put_pair_list(out, &c.payload);
    proof {
        assert(out@ =~= pre + enc_cert(c@));
    }
}

/// Append one committed sub-DAG.
fn put_sub_dag(out: &mut Vec<u8>, sd: &CommittedSubDag)
    ensures
        final(out)@ == old(out)@ + enc_sub_dag(sd@),
{
    let ghost pre = out@;
    put_cert(out, &sd.anchor);
    put_u64(out, sd.certificates.len() as u64);
    let ghost mid = out@;
    let n = sd.certificates.len();
    for i in 0..n
        invariant
            n == sd.certificates@.len(),
            mid == pre + enc_cert(sd@.anchor) + u64_be_bytes(sd@.certificates.len() as u64),
            out@ == mid + enc_cert_items(sd@.certificates, i as int),
    {
        put_cert(out, &sd.certificates[i]);
        proof {
            assert(sd@.certificates[i as int] == sd.certificates@[i as int]@);
            assert(out@ =~= mid + enc_cert_items(sd@.certificates, i + 1));
        }
    }
    put_u64(out, sd.sub_dag_index);
    proof {
        assert(out@ =~= pre + enc_sub_dag(sd@));
    }
}

/// Encode one commit record: the format version, then the sub-DAG, then the
/// watermarks.
pub fn encode_record(rec: &CommitRecord) -> (out: Vec<u8>)
    ensures
        out@ == enc_record(rec@),
{
    let mut out: Vec<u8> = Vec::new();
    out.push(RECORD_FORMAT_VERSION);
    proof {
        assert(out@ =~= seq![RECORD_FORMAT_VERSION]);
    }
    put_sub_dag(&mut out, &rec.sub_dag);
    put_u64_list(&mut out, &rec.last_committed);
    proof {
        assert(out@ =~= enc_record(rec@));
    }
    out
}

/// Read one big-endian word at `off`.
fn read_u64(data: &Vec<u8>, off: usize) -> (r: Option<(u64, usize)>)
    ensures
        match r {
            Some(p) => dec_u64(data@, off as int) == Some((p.0, p.1 as int)),
            None => dec_u64(data@, off as int) is None,
        },
{
    if off > data.len() || data.len() - off < 8 {
        return None;
    }
    let v = (data[off] as u64) * 0x100_0000_0000_0000 + (data[off + 1] as u64) * 0x1_0000_0000_0000
        + (data[off + 2] as u64) * 0x100_0000_0000 + (data[off + 3] as u64) * 0x1_0000_0000 + (
    data[off + 4] as u64) * 0x100_0000 + (data[off + 5] as u64) * 0x1_0000 + (data[off + 6] as u64)
        * 0x100 + (data[off + 7] as u64);
    proof {
        let sub = data@.subrange(off as int, off as int + 8);
        assert(sub[0] == data@[off as int] && sub[1] == data@[off as int + 1] && sub[2]
            == data@[off as int + 2] && sub[3] == data@[off as int + 3] && sub[4] == data@[off
            as int + 4] && sub[5] == data@[off as int + 5] && sub[6] == data@[off as int + 6]
            && sub[7] == data@[off as int + 7]);
        assert(be_u64_of(sub) == v);
    }
    Some((v, off + 8))
}

/// Read `count` big-endian words starting at `off`.
fn read_u64_items(data: &Vec<u8>, off: usize, count: u64) -> (r: Option<(Vec<u64>, usize)>)
    ensures
        match r {
            Some(p) => dec_u64_items(data@, off as int, count as int) == Some((p.0@, p.1 as int)),
            None => dec_u64_items(data@, off as int, count as int) is None,
        },
{
    let mut acc: Vec<u64> = Vec::new();
    let mut cur = off;
    let mut i: u64 = 0;
    proof {
        assert(acc@ =~= Seq::<u64>::empty());
    }
    while i < count
        invariant
            i <= count,
            dec_u64_items(data@, off as int, i as int) == Some((acc@, cur as int)),
        decreases count - i,
    {
        match read_u64(data, cur) {
            Some((x, next)) => {
                acc.push(x);
                cur = next;
                i = i + 1;
                proof {
                    assert(dec_u64_items(data@, off as int, i as int) == Some((acc@, cur as int)));
                }
            },
            None => {
                proof {
                    assert(dec_u64_items(data@, off as int, i + 1) is None);
                    lemma_dec_u64_items_none(data@, off as int, i + 1, count as int);
                }
                return None;
            },
        }
    }
    Some((acc, cur))
}

/// Read `count` pairs starting at `off`.
fn read_pair_items(data: &Vec<u8>, off: usize, count: u64) -> (r: Option<(Vec<(u64, u64)>, usize)>)
    ensures
        match r {
            Some(p) => dec_pair_items(data@, off as int, count as int) == Some((p.0@, p.1 as int)),
            None => dec_pair_items(data@, off as int, count as int) is None,
        },
{
    let mut acc: Vec<(u64, u64)> = Vec::new();
    let mut cur = off;
    let mut i: u64 = 0;
    proof {
        assert(acc@ =~= Seq::<(u64, u64)>::empty());
    }
    while i < count
        invariant
            i <= count,
            dec_pair_items(data@, off as int, i as int) == Some((acc@, cur as int)),
        decreases count - i,
    {
        let first = read_u64(data, cur);
        match first {
            Some((a, next1)) => {
                match read_u64(data, next1) {
                    Some((b, next2)) => {
                        acc.push((a, b));
                        cur = next2;
                        i = i + 1;
                        proof {
                            assert(dec_pair_items(data@, off as int, i as int) == Some(
                                (acc@, cur as int),
                            ));
                        }
                    },
                    None => {
                        proof {
                            assert(dec_pair_items(data@, off as int, i + 1) is None);
                            lemma_dec_pair_items_none(data@, off as int, i + 1, count as int);
                        }
                        return None;
                    },
                }
            },
            None => {
                proof {
                    assert(dec_pair_items(data@, off as int, i + 1) is None);
                    lemma_dec_pair_items_none(data@, off as int, i + 1, count as int);
                }
                return None;
            },
        }
    }
    Some((acc, cur))
}

/// Read one certificate at `off`.
fn read_cert(data: &Vec<u8>, off: usize) -> (r: Option<(Certificate, usize)>)
    ensures
        match r {
            Some(p) => dec_cert(data@, off as int) == Some((p.0@, p.1 as int)),
            None => dec_cert(data@, off as int) is None,
        },
{
    let (round, o1) = match read_u64(data, off) {
        Some(p) => p,
        None => {
            return None;
        },
    };
    let (epoch, o2) = match read_u64(data, o1) {
        Some(p) => p,
        None => {
            return None;
        },
    };
    let (origin, o3) = match read_u64(data, o2) {
        Some(p) => p,
        None => {
            return None;
        },
    };
    let (digest, o4) = match read_u64(data, o3) {
        Some(p) => p,
        None => {
            return None;
        },
    };
    let (np, o5) = match read_u64(data, o4) {
        Some(p) => p,
        None => {
            return None;
        },
    };
    let (parents, o6) = match read_u64_items(data, o5, np) {
        Some(p) => p,
        None => {
            return None;
        },
    };
    let (npay, o7) = match read_u64(data, o6) {
        Some(p) => p,
        None => {
            return None;
        },
    };
    let (payload, o8) = match read_pair_items(data, o7, npay) {
        Some(p) => p,
        None => {
            return None;
        },
    };
    let cert = Certificate { round, epoch, origin, digest, parents, payload };
    proof {
        assert(dec_u64_list(data@, o4 as int) == Some((cert@.parents, o6 as int)));
        assert(dec_pair_list(data@, o6 as int) == Some((cert@.payload, o8 as int)));
        assert(dec_cert(data@, off as int) matches Some(p) && p.0 =~= cert@ && p.1 == o8 as int);
    }
    Some((cert, o8))
}

/// Read `count` certificates starting at `off`.
fn read_cert_items(data: &Vec<u8>, off: usize, count: u64) -> (r: Option<(Vec<Certificate>, usize)>)
    ensures
        match r {
            Some(p) => dec_cert_items(data@, off as int, count as int) == Some(
                (p.0@.map_values(|c: Certificate| c@), p.1 as int),
            ),
            None => dec_cert_items(data@, off as int, count as int) is None,
        },
{
    let mut acc: Vec<Certificate> = Vec::new();
    let mut cur = off;
    let mut i: u64 = 0;
    proof {
        assert(acc@.map_values(|c: Certificate| c@) =~= Seq::<CertificateModel>::empty());
    }
    while i < count
        invariant
            i <= count,
            dec_cert_items(data@, off as int, i as int) == Some(
                (acc@.map_values(|c: Certificate| c@), cur as int),
            ),
        decreases count - i,
    {
        let ghost pre = acc@.map_values(|c: Certificate| c@);
        match read_cert(data, cur) {
            Some((c, next)) => {
                acc.push(c);
                cur = next;
                i = i + 1;
                proof {
                    assert(acc@.map_values(|c: Certificate| c@) =~= pre.push(
                        acc@[acc@.len() - 1]@,
                    ));
                    assert(dec_cert_items(data@, off as int, i as int) == Some(
                        (acc@.map_values(|c: Certificate| c@), cur as int),
                    ));
                }
            },
            None => {
                proof {
                    assert(dec_cert_items(data@, off as int, i + 1) is None);
                    lemma_dec_cert_items_none(data@, off as int, i + 1, count as int);
                }
                return None;
            },
        }
    }
    Some((acc, cur))
}

/// Decode one commit record.  Yields the record exactly when the input is a
/// whole record under the known format version; [`lemma_record_round_trip`]
/// ties this back to [`encode_record`].
pub fn decode_record(data: &Vec<u8>) -> (r: Option<CommitRecord>)
    ensures
        match r {
            Some(rec) => dec_record(data@) == Some(rec@),
            None => dec_record(data@) is None,
        },
{
    if data.len() == 0 || data[0] != RECORD_FORMAT_VERSION {
        return None;
    }
    let (anchor, o1) = match read_cert(data, 1) {
        Some(p) => p,
        None => {
            return None;
        },
    };
    let (nc, o2) = match read_u64(data, o1) {
        Some(p) => p,
        None => {
            return None;
        },
    };
    let (certificates, o3) = match read_cert_items(data, o2, nc) {
        Some(p) => p,
        None => {
            return None;
        },
    };
    let (sub_dag_index, o4) = match read_u64(data, o3) {
        Some(p) => p,
        None => {
            return None;
        },
    };
    let (nlc, o5) = match read_u64(data, o4) {
        Some(p) => p,
        None => {
            return None;
        },
    };
    let (last_committed, o6) = match read_u64_items(data, o5, nlc) {
        Some(p) => p,
        None => {
            return None;
        },
    };
    if o6 != data.len() {
        proof {
            assert(dec_u64_list(data@, o4 as int) == Some((last_committed@, o6 as int)));
        }
        return None;
    }
    let rec = CommitRecord {
        sub_dag: CommittedSubDag { anchor, certificates, sub_dag_index },
        last_committed,
    };
    proof {
        assert(dec_sub_dag(data@, 1) matches Some(p) && p.0 =~= rec@.sub_dag && p.1 == o4 as int);
        assert(dec_u64_list(data@, o4 as int) == Some((rec@.last_committed, o6 as int)));
        assert(dec_record(data@) matches Some(m) && m =~= rec@);
    }
    Some(rec)
}

} // verus!
