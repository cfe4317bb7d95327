//! The store of owned unspent coins, and the journal that undoes one block's changes to it.

use vstd::prelude::*;
use crate::ledger::{Coin, CoinId};

verus! {

/// What `m` holds under `k`, as an option.
pub open spec fn entry_of(m: Map<CoinId, Coin>, k: CoinId) -> Option<Coin> {
    if m.contains_key(k) {
        Some(m[k])
    } else {
        None
    }
}

/// Put back under `k` what it held before a change: `prev`, or nothing.
pub open spec fn restore(m: Map<CoinId, Coin>, k: CoinId, prev: Option<Coin>) -> Map<CoinId, Coin> {
    match prev {
        Some(c) => m.insert(k, c),
        None => m.remove(k),
    }
}

/// Undo a journal of changes, the newest first.
pub open spec fn revert(m: Map<CoinId, Coin>, journal: Seq<(CoinId, Option<Coin>)>) -> Map<CoinId, Coin>
    decreases journal.len(),
{
    if journal.len() == 0 {
        m
    } else {
        let (k, prev) = journal.last();
        revert(restore(m, k, prev), journal.drop_last())
    }
}

/// Changing the value under `k` and journalling what it held before is undone by `revert`.
pub proof fn lemma_revert_step(
    m: Map<CoinId, Coin>,
    k: CoinId,
    next: Option<Coin>,
    journal: Seq<(CoinId, Option<Coin>)>,
)
    ensures
        revert(restore(m, k, next), journal.push((k, entry_of(m, k)))) == revert(m, journal),
{
    let j2 = journal.push((k, entry_of(m, k)));
    assert(j2.drop_last() =~= journal);
    assert(restore(restore(m, k, next), k, entry_of(m, k)) =~= m);
}

/// The coins of the store, each under its id, in the order they were added.
pub struct UtxoStore {
    entries: Vec<(CoinId, Coin)>,
    model: Ghost<Map<CoinId, Coin>>,
}

impl View for UtxoStore {
    type V = Map<CoinId, Coin>;

    closed spec fn view(&self) -> Map<CoinId, Coin> {
        self.model@
    }
}

impl UtxoStore {
    /// The entries in store order.
    pub closed spec fn entries(&self) -> Seq<(CoinId, Coin)> {
        self.entries@
    }

    /// Each id stands once, and the entries are exactly the map.
    pub closed spec fn wf(&self) -> bool {
        &&& forall|i: int, j: int|
            0 <= i < j < self.entries@.len() ==> #[trigger] self.entries@[i].0 != #[trigger] self.entries@[j].0
        &&& forall|i: int|
            0 <= i < self.entries@.len() ==> {
                &&& #[trigger] self.model@.contains_key(self.entries@[i].0)
                &&& self.model@[self.entries@[i].0] == self.entries@[i].1
            }
        &&& forall|k: CoinId|
            #[trigger] self.model@.contains_key(k) ==> exists|i: int|
                0 <= i < self.entries@.len() && #[trigger] self.entries@[i].0 == k
    }

    /// What the entries say of the map, for readers outside this type.
    pub proof fn lemma_entries(&self)
        requires
            self.wf(),
        ensures
            forall|i: int, j: int|
                0 <= i < j < self.entries().len() ==> #[trigger] self.entries()[i].0 != #[trigger] self.entries()[j].0,
            forall|i: int|
                0 <= i < self.entries().len() ==> {
                    &&& #[trigger] self@.contains_key(self.entries()[i].0)
                    &&& self@[self.entries()[i].0] == self.entries()[i].1
                },
            forall|k: CoinId|
                #[trigger] self@.contains_key(k) ==> exists|i: int|
                    0 <= i < self.entries().len() && #[trigger] self.entries()[i].0 == k,
    {
        assert forall|k: CoinId| #[trigger] self@.contains_key(k) implies exists|i: int|
            0 <= i < self.entries().len() && #[trigger] self.entries()[i].0 == k by {
            let i = choose|i: int| 0 <= i < self.entries@.len() && #[trigger] self.entries@[i].0 == k;
            assert(self.entries()[i].0 == k);
        }
    }

    pub fn new() -> (r: UtxoStore)
        ensures
            r.wf(),
            r@ == Map::<CoinId, Coin>::empty(),
    {
        UtxoStore { entries: Vec::new(), model: Ghost(Map::empty()) }
    }

    pub fn len(&self) -> (r: usize)
        requires
            self.wf(),
        ensures
            r == self.entries().len(),
    {
        self.entries.len()
    }

    /// The entry at position `i`.
    pub fn entry(&self, i: usize) -> (r: (CoinId, Coin))
        requires
            self.wf(),
            i < self.entries().len(),
        ensures
            r == self.entries()[i as int],
    {
        self.entries[i]
    }

    fn position(&self, k: &CoinId) -> (r: Option<usize>)
        requires
            self.wf(),
        ensures
            match r {
                Some(i) => i < self.entries@.len() && self.entries@[i as int].0 == *k,
                None => !self@.contains_key(*k),
            },
    {
        let mut i: usize = 0;
        while i < self.entries.len()
            invariant
                self.wf(),
                i <= self.entries@.len(),
                forall|j: int| 0 <= j < i ==> self.entries@[j].0 != *k,
            decreases self.entries.len() - i,
        {
            if self.entries[i].0 == *k {
                return Some(i);
            }
            i = i + 1;
        }
        None
    }

    /// The coin stored under `k`, if any.
    pub fn get(&self, k: &CoinId) -> (r: Option<Coin>)
        requires
            self.wf(),
        ensures
            r == entry_of(self@, *k),
    {
        match self.position(k) {
            Some(i) => Some(self.entries[i].1),
            None => None,
        }
    }

    /// Store `c` under `k`, replacing what was there.
    pub fn insert(&mut self, k: CoinId, c: Coin)
        requires
            old(self).wf(),
        ensures
            final(self).wf(),
            final(self)@ == old(self)@.insert(k, c),
    {
        let ghost mut w: int = 0;
        let ghost old_entries = self.entries@;
        let ghost old_model = self.model@;
        match self.position(&k) {
            Some(i) => {
                self.entries.set(i, (k, c));
                proof { w = i as int; }
            },
            None => {
                self.entries.push((k, c));
                proof { w = self.entries@.len() - 1; }
            },
        }
        self.model = Ghost(self.model@.insert(k, c));
        assert(self.entries@[w].0 == k);
        assert forall|i: int, j: int|
            0 <= i < j < self.entries@.len() implies #[trigger] self.entries@[i].0 != #[trigger] self.entries@[j].0 by {
            if j == old_entries.len() {
                assert(old_model.contains_key(old_entries[i].0));
            } else {
                assert(old_entries[i].0 != old_entries[j].0);
            }
        }
        assert forall|i: int| 0 <= i < self.entries@.len() implies {
            &&& #[trigger] self.model@.contains_key(self.entries@[i].0)
            &&& self.model@[self.entries@[i].0] == self.entries@[i].1
        } by {
            if i != w {
                assert(old_entries[i] == self.entries@[i]);
                assert(self.entries@[i].0 != self.entries@[w].0);
            }
        }
        assert forall|k2: CoinId| #[trigger] self.model@.contains_key(k2) implies exists|i: int|
            0 <= i < self.entries@.len() && #[trigger] self.entries@[i].0 == k2 by {
            if k2 != k {
                let i = choose|i: int| 0 <= i < old_entries.len() && #[trigger] old_entries[i].0 == k2;
                assert(self.entries@[i].0 == k2);
            }
        }
    }

    /// Take out what is stored under `k`, if anything.
    pub fn remove(&mut self, k: &CoinId)
        requires
            old(self).wf(),
        ensures
            final(self).wf(),
            final(self)@ == old(self)@.remove(*k),
    {
        let ghost old_model = self.model@;
        match self.position(k) {
            Some(i) => {
                let ghost before = self.entries@;
                self.entries.remove(i);
                self.model = Ghost(self.model@.remove(*k));
                proof {
                    before.remove_ensures(i as int);
                    let after = self.entries@;
                    assert forall|a: int, b: int|
                        0 <= a < b < after.len() implies #[trigger] after[a].0 != #[trigger] after[b].0 by {
                        let a0 = if a < i { a } else { a + 1 };
                        let b0 = if b < i { b } else { b + 1 };
                        assert(after[a] == before[a0]);
                        assert(after[b] == before[b0]);
                        assert(before[a0].0 != before[b0].0);
                    }
                    assert forall|a: int| 0 <= a < after.len() implies {
                        &&& #[trigger] self.model@.contains_key(after[a].0)
                        &&& self.model@[after[a].0] == after[a].1
                    } by {
                        let a0 = if a < i { a } else { a + 1 };
                        assert(after[a] == before[a0]);
                        assert(before[a0].0 != before[i as int].0);
                        assert(old_model.contains_key(before[a0].0));
                    }
                    assert forall|k2: CoinId| #[trigger] self.model@.contains_key(k2) implies exists|a: int|
                        0 <= a < after.len() && #[trigger] after[a].0 == k2 by {
                        assert(old_model.contains_key(k2));
                        let j = choose|j: int| 0 <= j < before.len() && #[trigger] before[j].0 == k2;
                        assert(j != i);
                        if j < i {
                            assert(after[j].0 == k2);
                        } else {
                            assert(after[j - 1].0 == k2);
                        }
                    }
                }
            },
            None => {
                self.model = Ghost(self.model@.remove(*k));
                assert(self.model@ =~= old_model);
            },
        }
    }

    /// Put back, newest first, what each journalled change replaced.
    pub fn revert_journal(&mut self, journal: &Vec<(CoinId, Option<Coin>)>)
        requires
            old(self).wf(),
        ensures
            final(self).wf(),
            final(self)@ == revert(old(self)@, journal@),
    {
        let mut n: usize = journal.len();
        assert(journal@.subrange(0, n as int) =~= journal@);
        while n > 0
            invariant
                self.wf(),
                n <= journal@.len(),
                revert(self@, journal@.subrange(0, n as int)) == revert(old(self)@, journal@),
            decreases n,
        {
            let (k, prev) = journal[n - 1];
            let ghost before = self@;
            match prev {
                Some(c) => self.insert(k, c),
                None => self.remove(&k),
            }
            assert(journal@.subrange(0, n as int).drop_last() =~= journal@.subrange(0, n - 1));
            n = n - 1;
        }
        assert(journal@.subrange(0, 0) =~= Seq::<(CoinId, Option<Coin>)>::empty());
    }
}

} // verus!
