//! The shared transaction pool: an append-only sequence of transactions,
//! deduplicated by content commitment, in submission order.

use vstd::prelude::*;
use crate::types::{Commitment, Transaction, TxModel};

verus! {

/// True when some transaction in `s` already carries commitment `c`.
pub open spec fn holds_commitment(s: Seq<TxModel>, c: Commitment) -> bool {
    exists|i: int| 0 <= i < s.len() && s[i].commitment == c
}

/// No two positions of `s` carry the same commitment.
pub open spec fn distinct_commitments(s: Seq<TxModel>) -> bool {
    forall|i: int, j: int|
        0 <= i < j < s.len() ==> s[i].commitment != s[j].commitment
}

/// The pool contents after submitting `batch` to a pool holding `s`:
/// each transaction of the batch is appended in order unless its
/// commitment is already present.
pub open spec fn submit_result(s: Seq<TxModel>, batch: Seq<TxModel>) -> Seq<TxModel>
    decreases batch.len(),
{
    if batch.len() == 0 {
        s
    } else {
        let first = batch[0];
        let s1 = if holds_commitment(s, first.commitment) { s } else { s.push(first) };
        submit_result(s1, batch.drop_first())
    }
}

} // verus!

verus! {

/// The shared pool of pending transactions.  Pool order is a strict,
/// never-reordered, append-only sequence: once a transaction occupies a
/// position, no later submission is inserted before it.
pub struct TransactionPool {
    txns: Vec<Transaction>,
}

impl View for TransactionPool {
    type V = Seq<TxModel>;

    closed spec fn view(&self) -> Seq<TxModel> {
        self.txns@.map(|i: int, t: Transaction| t@)
    }
}

impl TransactionPool {
    /// Pool well-formedness: commitments identify transactions uniquely.
    pub open spec fn wf(&self) -> bool {
        distinct_commitments(self@)
    }

    /// An empty pool.
    pub fn new() -> (r: TransactionPool)
        ensures
            r@ == Seq::<TxModel>::empty(),
            r.wf(),
    {
        let r = TransactionPool { txns: Vec::new() };
        proof {
            assert(r@ =~= Seq::<TxModel>::empty());
        }
        r
    }

    /// How many transactions the pool holds.
    pub fn len(&self) -> (r: usize)
        ensures
            r == self@.len(),
    {
        self.txns.len()
    }

    /// Whether some pooled transaction already carries commitment `c`.
    pub fn contains_commitment(&self, c: &Commitment) -> (r: bool)
        ensures
            r == holds_commitment(self@, *c),
    {
        let mut i: usize = 0;
        while i < self.txns.len()
            invariant
                i <= self.txns.len(),
                forall|j: int| 0 <= j < i ==> self@[j].commitment != *c,
            decreases self.txns.len() - i,
        {
            if self.txns[i].commitment == *c {
                assert(self@[i as int].commitment == *c);
                return true;
            }
            i = i + 1;
        }
        false
    }

    /// Appends the new transactions of `batch` in submission order,
    /// silently deduplicating those whose commitment is already pooled,
    /// and returns the commitment of every submitted transaction in the
    /// caller's input order.  An empty batch is a no-op.
    pub fn submit(&mut self, batch: Vec<Transaction>) -> (r: Vec<Commitment>)
        requires
            old(self).wf(),
        ensures
            final(self).wf(),
            final(self)@ == submit_result(old(self)@, batch@.map(|i: int, t: Transaction| t@)),
            r@ == batch@.map(|i: int, t: Transaction| t@.commitment),
            old(self)@.len() <= final(self)@.len(),
            final(self)@.subrange(0, old(self)@.len() as int) == old(self)@,
    {
        let ghost orig: Seq<TxModel> = self@;
        let ghost bm: Seq<TxModel> = batch@.map(|i: int, t: Transaction| t@);
        let mut r: Vec<Commitment> = Vec::new();
        let mut i: usize = 0;
        proof {
            assert(bm.skip(0) =~= bm);
        }
        while i < batch.len()
            invariant
                i <= batch.len(),
                bm == batch@.map(|k: int, t: Transaction| t@),
                bm.len() == batch@.len(),
                self.wf(),
                submit_result(orig, bm) == submit_result(self@, bm.skip(i as int)),
                r@ == batch@.map(|k: int, t: Transaction| t@.commitment).take(i as int),
                orig.len() <= self@.len(),
                self@.subrange(0, orig.len() as int) == orig,
            decreases batch.len() - i,
        {
            let ghost pre: Seq<TxModel> = self@;
            let tx = batch[i].duplicate();
            let c = tx.commitment;
            proof {
                assert(bm.skip(i as int)[0] == bm[i as int]);
                assert(bm.skip(i as int).drop_first() =~= bm.skip(i as int + 1));
                assert(bm[i as int] == tx@);
            }
            if !self.contains_commitment(&c) {
                proof {
                    lemma_push_keeps_distinct(self@, tx@);
                }
                self.txns.push(tx);
                proof {
                    assert(self@ =~= pre.push(bm[i as int]));
                    assert(self@.subrange(0, orig.len() as int) =~= orig);
                }
            }
            r.push(c);
            proof {
                assert(r@ =~= batch@.map(|k: int, t: Transaction| t@.commitment).take(i as int + 1));
            }
            i = i + 1;
        }
        proof {
            assert(bm.skip(batch@.len() as int) =~= Seq::<TxModel>::empty());
            assert(r@ =~= batch@.map(|k: int, t: Transaction| t@.commitment));
        }
        r
    }

    /// The transactions at positions `from .. to`, in pool order.
    pub fn get_range(&self, from: usize, to: usize) -> (r: Vec<Transaction>)
        requires
            from <= to <= self@.len(),
        ensures
            r@.map(|i: int, t: Transaction| t@) == self@.subrange(from as int, to as int),
    {
        let mut r: Vec<Transaction> = Vec::new();
        let mut i: usize = from;
        while i < to
            invariant
                from <= i <= to <= self.txns.len(),
                self@.len() == self.txns@.len(),
                r@.map(|k: int, t: Transaction| t@) =~= self@.subrange(from as int, i as int),
            decreases to - i,
        {
            let ghost pre: Seq<TxModel> = r@.map(|k: int, t: Transaction| t@);
            let tx = self.txns[i].duplicate();
            proof {
                assert(tx@ == self@[i as int]);
            }
            r.push(tx);
            proof {
                assert(r@.map(|k: int, t: Transaction| t@) =~= pre.push(self@[i as int]));
                assert(pre.push(self@[i as int]) =~= self@.subrange(from as int, i as int + 1));
            }
            i = i + 1;
        }
        r
    }

    /// The lazy-read contract of the pool: every transaction in pool
    /// order starting after the given cursor.  Re-reading from the same
    /// cursor yields the same sequence unless new submissions occurred,
    /// in which case it yields a strict extension.
    pub fn pending_since(&self, cursor: usize) -> (r: Vec<Transaction>)
        requires
            cursor <= self@.len(),
        ensures
            r@.map(|i: int, t: Transaction| t@) == self@.skip(cursor as int),
    {
        let r = self.get_range(cursor, self.txns.len());
        proof {
            assert(self@.subrange(cursor as int, self@.len() as int) =~= self@.skip(cursor as int));
        }
        r
    }
}

/// Pushing a transaction whose commitment is absent keeps commitments
/// pairwise distinct.
pub proof fn lemma_push_keeps_distinct(s: Seq<TxModel>, t: TxModel)
    requires
        distinct_commitments(s),
        !holds_commitment(s, t.commitment),
    ensures
        distinct_commitments(s.push(t)),
{
    assert forall|i: int, j: int| 0 <= i < j < s.push(t).len() implies s.push(t)[i].commitment
        != s.push(t)[j].commitment by {
        if j == s.len() {
            assert(s.push(t)[i] == s[i]);
        }
    }
}

} // verus!
