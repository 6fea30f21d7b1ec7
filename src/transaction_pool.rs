//! The FIFO of transactions waiting to be mined.

use crate::block::MAX_TRANSACTION;
use crate::transaction::{Transaction, TransactionView};
use std::collections::VecDeque;
use vstd::prelude::*;

verus! {

#[derive(Debug, Default)]
pub struct TransactionPool {
    pub transaction_pool: VecDeque<Transaction>,
}

/// How many transactions one draw of `batch_size` takes from a pool of `len`:
/// `min(batch_size, MAX_TRANSACTION, len)`.
pub open spec fn batch_len(batch_size: int, len: int) -> int {
    let a = if batch_size < MAX_TRANSACTION as int { batch_size } else { MAX_TRANSACTION as int };
    if a < len { a } else { len }
}

impl TransactionPool {
    pub open spec fn view(&self) -> Seq<TransactionView> {
        self.transaction_pool@.map_values(|t: Transaction| t.view())
    }

    pub fn new() -> (r: TransactionPool)
        ensures
            r.view().len() == 0,
    {
        TransactionPool { transaction_pool: VecDeque::new() }
    }

    /// Appends `transaction` at the back.
    pub fn add_transaction(&mut self, transaction: Transaction)
        ensures
            final(self).view() == old(self).view().push(transaction.view()),
    {
        self.transaction_pool.push_back(transaction);
        assert(self.view() =~= old(self).view().push(transaction.view()));
    }

    pub fn is_empty(&self) -> (r: bool)
        ensures
            r == (self.view().len() == 0),
    {
        self.transaction_pool.len() == 0
    }

    pub fn len(&self) -> (r: usize)
        ensures
            r == self.view().len(),
    {
        self.transaction_pool.len()
    }

    /// Takes `min(batch_size, MAX_TRANSACTION, len)` transactions from the front, in order.
    pub fn fetch_batch_transactions(&mut self, batch_size: usize) -> (r: Vec<Transaction>)
        ensures
            r@.len() == batch_len(batch_size as int, old(self).view().len() as int),
            r@.len() <= MAX_TRANSACTION,
            r@.len() <= batch_size,
            r@.map_values(|t: Transaction| t.view()) == old(self).view().subrange(0, r@.len() as int),
            final(self).view() == old(self).view().subrange(r@.len() as int, old(self).view().len() as int),
    {
        let mut end = if batch_size < MAX_TRANSACTION { batch_size } else { MAX_TRANSACTION };
        if self.transaction_pool.len() < end {
            end = self.transaction_pool.len();
        }
        let mut out: Vec<Transaction> = Vec::new();
        let ghost start = self.transaction_pool@;
        while out.len() < end
            invariant
                end <= start.len(),
                out@.len() <= end,
                out@ == start.subrange(0, out@.len() as int),
                self.transaction_pool@ == start.subrange(out@.len() as int, start.len() as int),
            decreases end - out@.len(),
        {
            if let Some(tx) = self.transaction_pool.pop_front() {
                out.push(tx);
            }
        }
        assert(out@.map_values(|t: Transaction| t.view()) =~= old(self).view().subrange(0, out@.len() as int));
        assert(self.view() =~= old(self).view().subrange(out@.len() as int, old(self).view().len() as int));
        out
    }
}

} // verus!
