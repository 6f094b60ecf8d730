//! Batch assembly: a worker folds incoming transactions into batches and
//! seals a batch when it grows past the size limit or when the delay timer
//! fires.  The channels, the timer and the store/network sends live outside
//! the library; they hand transactions in and take sealed batches out.

use vstd::prelude::*;

verus! {

/// A sealed batch of transactions, in arrival order.
#[derive(Clone, Debug, PartialEq, Eq)]
pub struct Batch {
    pub transactions: Vec<Vec<u8>>,
}

impl View for Batch {
    type V = Seq<Seq<u8>>;

    open spec fn view(&self) -> Seq<Seq<u8>> {
        self.transactions@.map_values(|t: Vec<u8>| t@)
    }
}

/// Total byte size of a list of transactions.
pub open spec fn size_of(txs: Seq<Seq<u8>>) -> int
    decreases txs.len(),
{
    if txs.len() == 0 {
        0
    } else {
        size_of(txs.drop_last()) + txs.last().len()
    }
}

/// The accumulator: the open batch and its running byte size.
#[derive(Debug)]
pub struct BatchMaker {
    /// The preferred batch size in bytes; a batch seals when it reaches it.
    pub batch_size_limit: usize,
    /// Transactions of the open batch, in arrival order.
    pub transactions: Vec<Vec<u8>>,
    /// Byte size of the open batch: the sum of its transaction lengths.
    pub current_size: usize,
}

impl BatchMaker {
    /// The running size is exactly the sum of the open transactions' sizes.
    pub open spec fn wf(self) -> bool {
        &&& self.current_size == size_of(
            self.transactions@.map_values(|t: Vec<u8>| t@),
        )
        &&& self.batch_size_limit >= 1
    }

    /// The open transactions' values.
    pub open spec fn open_txs(self) -> Seq<Seq<u8>> {
        self.transactions@.map_values(|t: Vec<u8>| t@)
    }

    /// An empty accumulator with the given size limit.
    pub fn new(batch_size_limit: usize) -> (b: BatchMaker)
        requires
            batch_size_limit >= 1,
        ensures
            b.wf(),
            b.open_txs() == Seq::<Seq<u8>>::empty(),
            b.batch_size_limit == batch_size_limit,
    {
        let b = BatchMaker { batch_size_limit, transactions: Vec::new(), current_size: 0 };
        proof {
            assert(b.open_txs() =~= Seq::<Seq<u8>>::empty());
        }
        b
    }

    /// Take in one transaction.  When the accumulated size reaches the
    /// limit, the batch seals: every transaction taken in so far comes back,
    /// in arrival order, and the accumulator empties.  Otherwise the
    /// transaction joins the open batch.
    pub fn add_transaction(&mut self, tx: Vec<u8>) -> (sealed: Option<Batch>)
        requires
            old(self).wf(),
            old(self).current_size + tx@.len() <= usize::MAX,
        ensures
            final(self).wf(),
            final(self).batch_size_limit == old(self).batch_size_limit,
            if old(self).current_size + tx@.len() >= old(self).batch_size_limit {
                &&& sealed matches Some(b) && b@ == old(self).open_txs().push(tx@)
                &&& final(self).open_txs() == Seq::<Seq<u8>>::empty()
                &&& final(self).current_size == 0
            } else {
                &&& sealed is None
                &&& final(self).open_txs() == old(self).open_txs().push(tx@)
                &&& final(self).current_size == old(self).current_size + tx@.len()
            },
    {
        let ghost pre = self.open_txs();
        self.current_size = self.current_size + tx.len();
        self.transactions.push(tx);
        proof {
            assert(self.open_txs() =~= pre.push(tx@));
            assert(self.open_txs().drop_last() =~= pre);
        }
        if self.current_size >= self.batch_size_limit {
            let mut txs: Vec<Vec<u8>> = Vec::new();
            core::mem::swap(&mut txs, &mut self.transactions);
            let sealed = Batch { transactions: txs };
            self.current_size = 0;
            proof {
                assert(self.open_txs() =~= Seq::<Seq<u8>>::empty());
            }
            Some(sealed)
        } else {
            None
        }
    }

    /// The delay timer fired: seal whatever is open, even a small batch; an
    /// empty accumulator seals nothing.
    pub fn seal_on_timer(&mut self) -> (sealed: Option<Batch>)
        requires
            old(self).wf(),
        ensures
            final(self).wf(),
            final(self).batch_size_limit == old(self).batch_size_limit,
            if old(self).open_txs().len() > 0 {
                &&& sealed matches Some(b) && b@ == old(self).open_txs()
                &&& final(self).open_txs() == Seq::<Seq<u8>>::empty()
                &&& final(self).current_size == 0
            } else {
                &&& sealed is None
                &&& final(self).open_txs() == old(self).open_txs()
                &&& final(self).current_size == old(self).current_size
            },
    {
        if self.transactions.len() == 0 {
            return None;
        }
        let mut txs: Vec<Vec<u8>> = Vec::new();
        core::mem::swap(&mut txs, &mut self.transactions);
        let sealed = Batch { transactions: txs };
        self.current_size = 0;
        proof {
            assert(self.open_txs() =~= Seq::<Seq<u8>>::empty());
        }
        Some(sealed)
    }
}

/// The big-endian value of eight bytes.
pub open spec fn be_u64_of(s: Seq<u8>) -> int {
    s[0] * 0x100_0000_0000_0000 + s[1] * 0x1_0000_0000_0000 + s[2] * 0x100_0000_0000 + s[3]
        * 0x1_0000_0000 + s[4] * 0x100_0000 + s[5] * 0x1_0000 + s[6] * 0x100 + s[7]
}

/// The tracking identifier of a transaction: its first eight bytes read as a
/// big-endian integer, or 0 when the transaction is shorter.
pub fn tracking_id(tx: &Vec<u8>) -> (id: u64)
    ensures
        tx@.len() >= 8 ==> id == be_u64_of(tx@),
        tx@.len() < 8 ==> id == 0,
{
    if tx.len() < 8 {
        return 0;
    }
    let id = (tx[0] as u64) * 0x100_0000_0000_0000 + (tx[1] as u64) * 0x1_0000_0000_0000 + (
    tx[2] as u64) * 0x100_0000_0000 + (tx[3] as u64) * 0x1_0000_0000 + (tx[4] as u64) * 0x100_0000
        + (tx[5] as u64) * 0x1_0000 + (tx[6] as u64) * 0x100 + (tx[7] as u64);
    id
}

/// Whether a transaction is a sample: it starts with a zero byte and has an
/// identifier in its next eight bytes.
pub open spec fn is_sample_tx(t: Seq<u8>) -> bool {
    t.len() > 8 && t[0] == 0
}

/// The identifiers of the sample transactions among the first `k`
/// transactions: for each transaction starting with a zero byte and longer
/// than eight bytes, the big-endian value of its bytes 1 to 8.
pub open spec fn sample_ids_of(txs: Seq<Seq<u8>>, k: int) -> Seq<int>
    decreases k,
{
    if k <= 0 {
        Seq::empty()
    } else {
        sample_ids_of(txs, k - 1) + if is_sample_tx(txs[k - 1]) {
            seq![be_u64_of(txs[k - 1].subrange(1, 9))]
        } else {
            Seq::empty()
        }
    }
}

/// The sample-transaction identifiers of a batch, in transaction order.
pub fn sample_tx_ids(batch: &Batch) -> (ids: Vec<u64>)
    ensures
        ids@.map_values(|v: u64| v as int) == sample_ids_of(batch@, batch@.len() as int),
{
    let n = batch.transactions.len();
    let mut ids: Vec<u64> = Vec::new();
    proof {
        assert(ids@.map_values(|v: u64| v as int) =~= sample_ids_of(batch@, 0));
    }
    for i in 0..n
        invariant
            n == batch.transactions@.len(),
            ids@.map_values(|v: u64| v as int) == sample_ids_of(batch@, i as int),
    {
        let ghost prev = ids@.map_values(|v: u64| v as int);
        let tx = &batch.transactions[i];
        proof {
            assert(batch@[i as int] == tx@);
        }
        if tx.len() > 8 && tx[0] == 0 {
            let id = (tx[1] as u64) * 0x100_0000_0000_0000 + (tx[2] as u64) * 0x1_0000_0000_0000
                + (tx[3] as u64) * 0x100_0000_0000 + (tx[4] as u64) * 0x1_0000_0000 + (
            tx[5] as u64) * 0x100_0000 + (tx[6] as u64) * 0x1_0000 + (tx[7] as u64) * 0x100 + (
            tx[8] as u64);
            ids.push(id);
            proof {
                let sub = tx@.subrange(1, 9);
                assert(sub[0] == tx@[1] && sub[1] == tx@[2] && sub[2] == tx@[3] && sub[3] == tx@[4]
                    && sub[4] == tx@[5] && sub[5] == tx@[6] && sub[6] == tx@[7] && sub[7]
                    == tx@[8]);
                assert(id == be_u64_of(sub));
                assert(ids@.map_values(|v: u64| v as int) =~= prev.push(id as int));
                assert(ids@.map_values(|v: u64| v as int) =~= sample_ids_of(batch@, i + 1));
            }
        } else {
            proof {
                assert(!is_sample_tx(batch@[i as int]));
                assert(ids@.map_values(|v: u64| v as int) =~= sample_ids_of(batch@, i + 1));
            }
        }
    }
    ids
}

} // verus!
