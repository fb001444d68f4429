//! The transactions fetched so far in one run, each kept once under its id.

use crate::model::{Transaction, TransactionView};
use vstd::prelude::*;

verus! {

/// What is known of the ledger: a finite map from transaction id to
/// transaction.
pub type Ledger = Map<Seq<char>, TransactionView>;

/// Whether some transaction among `entries` has the id `txid`.
pub open spec fn holds(entries: Seq<Transaction>, txid: Seq<char>) -> bool {
    exists|i: int| 0 <= i < entries.len() && (#[trigger] entries[i]).txid@ == txid
}

/// The place of a transaction with the id `txid` among `entries`.
pub open spec fn place(entries: Seq<Transaction>, txid: Seq<char>) -> int {
    choose|i: int| 0 <= i < entries.len() && (#[trigger] entries[i]).txid@ == txid
}

/// Whether no two transactions among `entries` share an id.
pub open spec fn distinct(entries: Seq<Transaction>) -> bool {
    forall|i: int, j: int|
        0 <= i < j < entries.len() ==> (#[trigger] entries[i]).txid@ != (#[trigger] entries[j]).txid@
}

/// `ledger` with `tx` added under its id, unless the id is already known.
pub open spec fn learn(ledger: Ledger, tx: TransactionView) -> Ledger {
    if ledger.dom().contains(tx.txid) {
        ledger
    } else {
        ledger.insert(tx.txid, tx)
    }
}

/// A memo of fetched transactions. A transaction id is stored at most once,
/// so a transaction that funds many inputs is fetched and kept a single
/// time.
#[derive(Debug)]
pub struct TransactionCache {
    entries: Vec<Transaction>,
}

impl View for TransactionCache {
    type V = Ledger;

    closed spec fn view(&self) -> Ledger {
        Map::new(
            |t: Seq<char>| holds(self.entries@, t),
            |t: Seq<char>| self.entries@[place(self.entries@, t)]@,
        )
    }
}

impl TransactionCache {
    #[verifier::type_invariant]
    spec fn well_formed(self) -> bool {
        distinct(self.entries@)
    }

    /// An empty cache.
    pub fn new() -> (res: Self)
        ensures
            res@ == Map::<Seq<char>, TransactionView>::empty(),
    {
        let res = TransactionCache { entries: Vec::new() };
        assert(res@ =~= Map::<Seq<char>, TransactionView>::empty());
        res
    }

    /// Looks a transaction up by its id.
    pub fn get(&self, txid: &String) -> (res: Option<&Transaction>)
        ensures
            match res {
                Some(tx) => self@.dom().contains(txid@) && self@[txid@] == tx@ && tx@.txid
                    == txid@,
                None => !self@.dom().contains(txid@),
            },
    {
        proof {
            use_type_invariant(self);
        }
        let mut i: usize = 0;
        while i < self.entries.len()
            invariant
                i <= self.entries.len(),
                distinct(self.entries@),
                forall|k: int| 0 <= k < i ==> (#[trigger] self.entries@[k]).txid@ != txid@,
            decreases self.entries.len() - i,
        {
            if self.entries[i].txid == *txid {
                proof {
                    assert(holds(self.entries@, txid@));
                    let p = place(self.entries@, txid@);
                    assert(self.entries@[p].txid@ == self.entries@[i as int].txid@);
                    assert(p == i);
                }
                return Some(&self.entries[i]);
            }
            i += 1;
        }
        None
    }

    /// Whether a transaction with this id is held.
    pub fn contains(&self, txid: &String) -> (res: bool)
        ensures
            res == self@.dom().contains(txid@),
    {
        self.get(txid).is_some()
    }

    /// Stores a transaction under its id unless one is already held under
    /// that id; says whether it was stored.
    pub fn insert(&mut self, tx: Transaction) -> (fresh: bool)
        ensures
            fresh == !old(self)@.dom().contains(tx@.txid),
            final(self)@ == learn(old(self)@, tx@),
    {
        proof {
            use_type_invariant(&*self);
        }
        if self.contains(&tx.txid) {
            return false;
        }
        let ghost before = self.entries@;
        let ghost added = tx;
        // The list is taken out, extended and put back, so that the cache is
        // well formed at every point where the push could unwind.
        let mut entries: Vec<Transaction> = Vec::new();
        core::mem::swap(&mut self.entries, &mut entries);
        entries.push(tx);
        proof {
            assert(entries@ == before.push(added));
            assert forall|i: int, j: int| 0 <= i < j < entries.len() implies (#[trigger] entries[i]).txid@
                != (#[trigger] entries[j]).txid@ by {
                if j == before.len() {
                    assert(before[i].txid@ == entries[i].txid@);
                    assert(!holds(before, added@.txid));
                }
            }
        }
        core::mem::swap(&mut self.entries, &mut entries);
        proof {
            let after = self.entries@;
            assert(after == before.push(added));
            assert forall|t: Seq<char>| holds(after, t) <==> (holds(before, t) || t
                == added@.txid) by {
                if holds(before, t) {
                    let i = place(before, t);
                    assert(after[i].txid@ == t);
                }
                if t == added@.txid {
                    assert(after[before.len() as int].txid@ == t);
                }
            }
            assert forall|t: Seq<char>| holds(after, t) implies after[place(after, t)]@ == (if t
                == added@.txid {
                added@
            } else {
                before[place(before, t)]@
            }) by {
                let p = place(after, t);
                if t == added@.txid {
                    if p < before.len() {
                        assert(before[p].txid@ == t);
                        assert(holds(before, t));
                    }
                } else {
                    assert(before[p].txid@ == t);
                    let q = place(before, t);
                    if p != q {
                        assert(before[p].txid@ == before[q].txid@);
                    }
                }
            }
            assert(self@ =~= old(self)@.insert(added@.txid, added@));
        }
        true
    }
}

} // verus!
