//! The wallet: the owned coins implied by the chain it follows, how it follows the node's best
//! chain across reorganisations, and the transactions it builds from its coins.

use vstd::prelude::*;
use crate::chain::{
    ChainView, chain_to, chain_txs, genesis_id, is_path, lemma_chain_to, lemma_path_is_chain,
    lemma_paths_agree_below, node_ok,
};
use crate::ledger::{
    Address, Block, BlockId, BlockModel, Coin, CoinId, Input, Signature, Transaction, TxModel,
};
use crate::select::{
    lemma_sort_sum, lemma_value_sum_nonneg, shortest_reaching, sort_by_value, sorted_by_value,
    take_until_reached, value_sum,
};
use crate::replay::{all_owned, lemma_replay_owned, replay, spend_inputs, add_outputs, apply_txs, utxos_at};
use crate::store::{UtxoStore, lemma_revert_step, restore, revert};

verus! {

/// How long a prefix `a` and `b` share.
pub open spec fn shared_prefix(a: Seq<BlockId>, b: Seq<BlockId>) -> nat
    decreases a.len(),
{
    if a.len() == 0 || b.len() == 0 || a[0] != b[0] {
        0
    } else {
        1 + shared_prefix(a.drop_first(), b.drop_first())
    }
}

/// `n` capped at the largest `u64`.
pub open spec fn capped(n: int) -> u64 {
    if n > u64::MAX {
        u64::MAX
    } else {
        n as u64
    }
}

/// Inputs that spend `coins`, each signed for its owner.
pub open spec fn signed_inputs(coins: Seq<(CoinId, Coin)>) -> Seq<Input> {
    coins.map_values(|e: (CoinId, Coin)| Input { coin_id: e.0, signature: Signature::Valid(e.1.owner) })
}

/// Inputs that spend the coins `ids` names in `utxos`, each signed for its owner.
pub open spec fn inputs_for(utxos: Map<CoinId, Coin>, ids: Seq<CoinId>) -> Seq<Input> {
    ids.map_values(|id: CoinId| Input { coin_id: id, signature: Signature::Valid(utxos[id].owner) })
}

/// Each id names a coin of `utxos`, and no id repeats.
pub open spec fn spendable(utxos: Map<CoinId, Coin>, ids: Seq<CoinId>) -> bool {
    forall|i: int| 0 <= i < ids.len() ==> {
        &&& #[trigger] utxos.contains_key(ids[i])
        &&& forall|j: int| 0 <= j < i ==> ids[j] != ids[i]
    }
}

/// The payment to `dest`, then the change to `change_to` when there is any.
pub open spec fn payment_outputs(dest: Address, amount: u64, change: int, change_to: Address) -> Seq<Coin> {
    if change == 0 {
        seq![Coin { value: amount, owner: dest }]
    } else {
        seq![Coin { value: amount, owner: dest }, Coin { value: change as u64, owner: change_to }]
    }
}

/// Total value of the entries that `a` owns.
pub open spec fn value_of(s: Seq<(CoinId, Coin)>, a: Address) -> int
    decreases s.len(),
{
    if s.len() == 0 {
        0
    } else {
        value_of(s.drop_last(), a) + if s.last().1.owner == a {
            s.last().1.value as int
        } else {
            0
        }
    }
}

/// The id and value of each entry that `a` owns, in order.
pub open spec fn coins_of(s: Seq<(CoinId, Coin)>, a: Address) -> Seq<(CoinId, u64)>
    decreases s.len(),
{
    if s.len() == 0 {
        seq![]
    } else if s.last().1.owner == a {
        coins_of(s.drop_last(), a).push((s.last().0, s.last().1.value))
    } else {
        coins_of(s.drop_last(), a)
    }
}

/// Errors that the wallet reports to its callers.
#[derive(Clone, Copy, Debug, PartialEq, Eq, Structural)]
pub enum WalletError {
    /// The address is not one the wallet owns.
    ForeignAddress,
    /// The coin is not an owned, unspent coin, or is named twice.
    UnknownCoin,
    /// An output would have value 0.
    ZeroCoinValue,
    /// A transaction was asked for with no inputs.
    ZeroInputs,
    /// The owned coins are worth less than what was asked for.
    InsufficientFunds,
    /// The wallet owns no address to spend from.
    NoOwnedAddresses,
}

/// A wallet for a fixed set of owned addresses, following one node's best chain.
pub struct Wallet {
    owned: Vec<Address>,
    store: UtxoStore,
    /// Ids of the applied blocks; entry `i` is at height `i`, entry 0 is genesis.
    chain: Vec<BlockId>,
    /// For each applied block above genesis, the journal that undoes it.
    undo: Vec<Vec<(CoinId, Option<Coin>)>>,
    /// Transactions of each applied block.
    history: Ghost<Seq<Seq<TxModel>>>,
}

impl Wallet {
    /// The owned addresses.
    pub closed spec fn owned(&self) -> Seq<Address> {
        self.owned@
    }

    /// The owned unspent coins, by id.
    pub closed spec fn utxos(&self) -> Map<CoinId, Coin> {
        self.store@
    }

    /// The ids of the blocks the wallet has applied, from genesis to its tip.
    pub closed spec fn chain(&self) -> Seq<BlockId> {
        self.chain@
    }

    /// The transactions of each applied block, from genesis to the tip.
    pub closed spec fn history(&self) -> Seq<Seq<TxModel>> {
        self.history@
    }

    /// The coins in the order the store keeps them.
    pub closed spec fn coin_order(&self) -> Seq<(CoinId, Coin)> {
        self.store.entries()
    }

    /// The wallet's tip.
    pub open spec fn tip(&self) -> BlockId {
        self.chain().last()
    }

    /// The store is what the applied blocks imply, and each journal undoes its block.
    pub closed spec fn wf(&self) -> bool {
        &&& self.store.wf()
        &&& 1 <= self.chain@.len() <= u64::MAX + 1
        &&& self.history@.len() == self.chain@.len()
        &&& self.undo@.len() + 1 == self.chain@.len()
        &&& self.history@[0] == Seq::<TxModel>::empty()
        &&& self.store@ == replay(self.owned@, self.history@)
        &&& forall|i: int| 0 <= i < self.undo@.len() ==> revert(
            replay(self.owned@, self.history@.take(i + 2)),
            #[trigger] self.undo@[i]@,
        ) == replay(self.owned@, self.history@.take(i + 1))
    }

    /// The applied blocks are a path of `blocks` from genesis, with the same transactions.
    pub open spec fn known_by(&self, blocks: Map<BlockId, BlockModel>) -> bool {
        &&& is_path(blocks, self.chain())
        &&& self.chain().len() == self.history().len()
        &&& forall|i: int| 0 <= i < self.chain().len() ==> #[trigger] blocks[self.chain()[i]].transactions == self.history()[i]
    }

    /// A wallet that owns `owned`, at genesis, with no coins.
    pub fn new(owned: Vec<Address>) -> (r: Wallet)
        ensures
            r.wf(),
            r.owned() == owned@,
            r.chain() == seq![genesis_id()],
            r.history() == seq![Seq::<TxModel>::empty()],
            r.utxos() == Map::<CoinId, Coin>::empty(),
            forall|blocks: Map<BlockId, BlockModel>, best: BlockId|
                #[trigger] node_ok(blocks, best) ==> r.known_by(blocks),
    {
        let mut chain: Vec<BlockId> = Vec::new();
        chain.push(Block::genesis().id());
        let ghost hist = seq![Seq::<TxModel>::empty()];
        let r = Wallet {
            owned,
            store: UtxoStore::new(),
            chain,
            undo: Vec::new(),
            history: Ghost(hist),
        };
        proof {
            let h = r.history@;
            assert(h.drop_last() =~= Seq::<Seq<TxModel>>::empty());
            assert(replay(r.owned@, h.drop_last()) == Map::<CoinId, Coin>::empty());
            assert(h.last().len() == 0);
            assert(replay(r.owned@, h) =~= Map::<CoinId, Coin>::empty());
            assert(r.chain@ =~= seq![genesis_id()]);
        }
        r
    }

    /// Whether `a` is an owned address.
    pub fn owns(&self, a: Address) -> (r: bool)
        ensures
            r == self.owned().contains(a),
    {
        let mut i: usize = 0;
        while i < self.owned.len()
            invariant
                i <= self.owned@.len(),
                forall|j: int| 0 <= j < i ==> self.owned@[j] != a,
            decreases self.owned.len() - i,
        {
            if self.owned[i] == a {
                return true;
            }
            i = i + 1;
        }
        false
    }

    /// Apply one block on top of the tip: spend its inputs and add its owned outputs,
    /// transaction by transaction, and keep the journal that undoes it.
    fn apply_block(&mut self, id: BlockId, block: &Block)
        requires
            old(self).wf(),
            old(self).chain().len() <= u64::MAX,
        ensures
            final(self).wf(),
            final(self).owned() == old(self).owned(),
            final(self).chain() == old(self).chain().push(id),
            final(self).history() == old(self).history().push(block@.transactions),
    {
        let h: u64 = self.chain.len() as u64;
        let ghost owned = self.owned@;
        let ghost start = self.store@;
        let ghost txs = block@.transactions;
        let mut journal: Vec<(CoinId, Option<Coin>)> = Vec::new();
        let mut t: usize = 0;
        while t < block.transactions.len()
            invariant
                self.store.wf(),
                owned == self.owned@,
                self.owned@ == old(self).owned@,
                self.chain@ == old(self).chain@,
                self.undo@ == old(self).undo@,
                self.history@ == old(self).history@,
                t <= block.transactions.len(),
                txs == block@.transactions,
                revert(self.store@, journal@) == start,
                self.store@ == apply_txs(owned, start, txs.take(t as int), h),
            decreases block.transactions.len() - t,
        {
            let tx = &block.transactions[t];
            let ghost base = self.store@;
            let mut i: usize = 0;
            while i < tx.inputs.len()
                invariant
                    self.store.wf(),
                    owned == self.owned@,
                    self.owned@ == old(self).owned@,
                    self.chain@ == old(self).chain@,
                    self.undo@ == old(self).undo@,
                    self.history@ == old(self).history@,
                    i <= tx.inputs.len(),
                    revert(self.store@, journal@) == start,
                    self.store@ == spend_inputs(base, tx.inputs@.take(i as int)),
                decreases tx.inputs.len() - i,
            {
                let cid = tx.inputs[i].coin_id;
                let ghost before = self.store@;
                let ghost jb = journal@;
                assert(tx.inputs@.take(i + 1).drop_last() =~= tx.inputs@.take(i as int));
                match self.store.get(&cid) {
                    Some(c) => {
                        journal.push((cid, Some(c)));
                        self.store.remove(&cid);
                        proof {
                            lemma_revert_step(before, cid, None, jb);
                            assert(restore(before, cid, None) == self.store@);
                        }
                    },
                    None => {
                        assert(before.remove(cid) =~= before);
                    },
                }
                i = i + 1;
            }
            assert(tx.inputs@.take(tx.inputs@.len() as int) =~= tx.inputs@);
            let ghost mid = self.store@;
            let hash = tx.hash();
            let mut j: usize = 0;
            while j < tx.outputs.len()
                invariant
                    self.store.wf(),
                    owned == self.owned@,
                    self.owned@ == old(self).owned@,
                    self.chain@ == old(self).chain@,
                    self.undo@ == old(self).undo@,
                    self.history@ == old(self).history@,
                    j <= tx.outputs.len(),
                    hash == crate::ledger::tx_hash_of(tx@),
                    revert(self.store@, journal@) == start,
                    self.store@ == add_outputs(owned, mid, tx@, h, j as int),
                decreases tx.outputs.len() - j,
            {
                let c = tx.outputs[j];
                if self.owns(c.owner) {
                    let cid = CoinId { tx: hash, height: h, index: j as u64 };
                    let ghost before = self.store@;
                    let ghost jb = journal@;
                    let prev = self.store.get(&cid);
                    journal.push((cid, prev));
                    self.store.insert(cid, c);
                    proof {
                        lemma_revert_step(before, cid, Some(c), jb);
                    }
                }
                j = j + 1;
            }
            proof {
                assert(txs.take(t + 1).drop_last() =~= txs.take(t as int));
                assert(txs.take(t + 1).last() == tx@);
            }
            t = t + 1;
        }
        proof {
            assert(txs.take(txs.len() as int) =~= txs);
        }
        let ghost old_history = self.history@;
        self.chain.push(id);
        self.undo.push(journal);
        self.history = Ghost(self.history@.push(txs));
        proof {
            let hs = self.history@;
            assert(hs.drop_last() =~= old_history);
            assert(self.store@ == replay(owned, hs));
            assert forall|i: int| 0 <= i < self.undo@.len() implies revert(
                replay(owned, hs.take(i + 2)),
                #[trigger] self.undo@[i]@,
            ) == replay(owned, hs.take(i + 1)) by {
                if i + 1 < self.undo@.len() {
                    assert(hs.take(i + 2) =~= old_history.take(i + 2));
                    assert(hs.take(i + 1) =~= old_history.take(i + 1));
                } else {
                    assert(hs.take(i + 2) =~= hs);
                    assert(hs.take(i + 1) =~= old_history);
                    assert(old_history.take(old_history.len() as int) =~= old_history);
                }
            }
        }
    }

    /// Undo the newest applied block with its journal.
    fn undo_last_block(&mut self)
        requires
            old(self).wf(),
            old(self).chain().len() > 1,
        ensures
            final(self).wf(),
            final(self).owned() == old(self).owned(),
            final(self).chain() == old(self).chain().drop_last(),
            final(self).history() == old(self).history().drop_last(),
    {
        let ghost owned = self.owned@;
        let ghost hs = self.history@;
        let ghost n = self.undo@.len() - 1;
        assert(self.undo@[n]@ == self.undo@[n as int]@);
        match self.undo.pop() {
            Some(journal) => {
                self.store.revert_journal(&journal);
            },
            None => {},
        }
        self.chain.pop();
        self.history = Ghost(self.history@.drop_last());
        proof {
            assert(hs.take(n + 2) =~= hs);
            assert(hs.take(n + 1) =~= self.history@);
            assert forall|i: int| 0 <= i < self.undo@.len() implies revert(
                replay(owned, self.history@.take(i + 2)),
                #[trigger] self.undo@[i]@,
            ) == replay(owned, self.history@.take(i + 1)) by {
                assert(self.history@.take(i + 2) =~= hs.take(i + 2));
                assert(self.history@.take(i + 1) =~= hs.take(i + 1));
                assert(self.undo@[i] == old(self).undo@[i]);
            }
        }
    }

    /// Height of the tip.
    pub fn best_height(&self) -> (r: u64)
        requires
            self.wf(),
        ensures
            r == self.chain().len() - 1,
    {
        (self.chain.len() - 1) as u64
    }

    /// Id of the tip.
    pub fn best_hash(&self) -> (r: BlockId)
        requires
            self.wf(),
        ensures
            r == self.tip(),
    {
        self.chain[self.chain.len() - 1]
    }

    /// The store's entries are the owned unspent coins, each id once.
    pub proof fn lemma_coin_order(&self)
        requires
            self.wf(),
        ensures
            forall|i: int, j: int|
                0 <= i < j < self.coin_order().len() ==> #[trigger] self.coin_order()[i].0
                    != #[trigger] self.coin_order()[j].0,
            forall|i: int|
                0 <= i < self.coin_order().len() ==> {
                    &&& #[trigger] self.utxos().contains_key(self.coin_order()[i].0)
                    &&& self.utxos()[self.coin_order()[i].0] == self.coin_order()[i].1
                },
            forall|k: CoinId|
                #[trigger] self.utxos().contains_key(k) ==> exists|i: int|
                    0 <= i < self.coin_order().len() && #[trigger] self.coin_order()[i].0 == k,
    {
        self.store.lemma_entries();
        assert forall|k: CoinId| #[trigger] self.utxos().contains_key(k) implies exists|i: int|
            0 <= i < self.coin_order().len() && #[trigger] self.coin_order()[i].0 == k by {
            let i = choose|i: int| 0 <= i < self.store.entries().len() && #[trigger] self.store.entries()[i].0 == k;
            assert(self.coin_order()[i].0 == k);
        }
    }

    /// The owned unspent coin with id `id`, or `UnknownCoin`.
    pub fn coin_details(&self, id: &CoinId) -> (r: Result<Coin, WalletError>)
        requires
            self.wf(),
        ensures
            self.utxos().contains_key(*id) ==> r == Ok::<Coin, WalletError>(self.utxos()[*id]),
            !self.utxos().contains_key(*id) ==> r == Err::<Coin, WalletError>(WalletError::UnknownCoin),
    {
        match self.store.get(id) {
            Some(c) => Ok(c),
            None => Err(WalletError::UnknownCoin),
        }
    }

    /// Total value of the coins `a` owns, capped at `u64::MAX`; `ForeignAddress` if the wallet
    /// does not own `a`.
    pub fn total_assets_of(&self, a: Address) -> (r: Result<u64, WalletError>)
        requires
            self.wf(),
        ensures
            !self.owned().contains(a) ==> r == Err::<u64, WalletError>(WalletError::ForeignAddress),
            self.owned().contains(a) ==> r == Ok::<u64, WalletError>(capped(value_of(self.coin_order(), a))),
    {
        if !self.owns(a) {
            return Err(WalletError::ForeignAddress);
        }
        let mut total: u64 = 0;
        let mut i: usize = 0;
        let n = self.store.len();
        while i < n
            invariant
                self.wf(),
                n == self.coin_order().len(),
                i <= n,
                total == capped(value_of(self.coin_order().take(i as int), a)),
            decreases n - i,
        {
            let (_, c) = self.store.entry(i);
            proof {
                let s = self.coin_order().take(i + 1);
                assert(s.drop_last() =~= self.coin_order().take(i as int));
                lemma_value_of_nonneg(self.coin_order().take(i as int), a);
            }
            if c.owner == a {
                total = total.saturating_add(c.value);
            }
            i = i + 1;
        }
        assert(self.coin_order().take(n as int) =~= self.coin_order());
        Ok(total)
    }

    /// Total value of all owned coins, capped at `u64::MAX`.
    pub fn net_worth(&self) -> (r: u64)
        requires
            self.wf(),
        ensures
            r == capped(value_sum(self.coin_order())),
    {
        let mut total: u64 = 0;
        let mut i: usize = 0;
        let n = self.store.len();
        while i < n
            invariant
                self.wf(),
                n == self.coin_order().len(),
                i <= n,
                total == capped(value_sum(self.coin_order().take(i as int))),
            decreases n - i,
        {
            let (_, c) = self.store.entry(i);
            proof {
                let s = self.coin_order().take(i + 1);
                assert(s.drop_last() =~= self.coin_order().take(i as int));
                lemma_value_sum_nonneg(self.coin_order().take(i as int));
            }
            total = total.saturating_add(c.value);
            i = i + 1;
        }
        assert(self.coin_order().take(n as int) =~= self.coin_order());
        total
    }

    /// The id and value of each coin `a` owns, in store order; `ForeignAddress` if the wallet
    /// does not own `a`.
    pub fn all_coins_of(&self, a: Address) -> (r: Result<Vec<(CoinId, u64)>, WalletError>)
        requires
            self.wf(),
        ensures
            !self.owned().contains(a) ==> r == Err::<Vec<(CoinId, u64)>, WalletError>(WalletError::ForeignAddress),
            self.owned().contains(a) ==> r is Ok && r->Ok_0@ == coins_of(self.coin_order(), a),
    {
        if !self.owns(a) {
            return Err(WalletError::ForeignAddress);
        }
        let mut out: Vec<(CoinId, u64)> = Vec::new();
        let mut i: usize = 0;
        let n = self.store.len();
        while i < n
            invariant
                self.wf(),
                n == self.coin_order().len(),
                i <= n,
                out@ == coins_of(self.coin_order().take(i as int), a),
            decreases n - i,
        {
            let (id, c) = self.store.entry(i);
            proof {
                let s = self.coin_order().take(i + 1);
                assert(s.drop_last() =~= self.coin_order().take(i as int));
            }
            if c.owner == a {
                out.push((id, c.value));
            }
            i = i + 1;
        }
        assert(self.coin_order().take(n as int) =~= self.coin_order());
        Ok(out)
    }

    /// A transaction that spends the coins `inputs` names, each signed for its owner, and
    /// creates `outputs` as given. Inputs and outputs need not balance.
    pub fn create_manual_transaction(&self, inputs: Vec<CoinId>, outputs: Vec<Coin>) -> (r: Result<Transaction, WalletError>)
        requires
            self.wf(),
        ensures
            inputs@.len() == 0 ==> r == Err::<Transaction, WalletError>(WalletError::ZeroInputs),
            inputs@.len() > 0 && !spendable(self.utxos(), inputs@) ==> r == Err::<Transaction, WalletError>(
                WalletError::UnknownCoin,
            ),
            inputs@.len() > 0 && spendable(self.utxos(), inputs@) && (exists|o: int|
                0 <= o < outputs@.len() && #[trigger] outputs@[o].value == 0) ==> r == Err::<Transaction, WalletError>(
                WalletError::ZeroCoinValue,
            ),
            inputs@.len() > 0 && spendable(self.utxos(), inputs@) && (forall|o: int|
                0 <= o < outputs@.len() ==> #[trigger] outputs@[o].value > 0) ==> {
                &&& r is Ok
                &&& r->Ok_0@.inputs == inputs_for(self.utxos(), inputs@)
                &&& r->Ok_0@.outputs == outputs@
            },
    {
        if inputs.len() == 0 {
            return Err(WalletError::ZeroInputs);
        }
        let mut signed: Vec<Input> = Vec::new();
        let mut i: usize = 0;
        while i < inputs.len()
            invariant
                self.wf(),
                i <= inputs@.len(),
                spendable(self.utxos(), inputs@.take(i as int)),
                signed@ == inputs_for(self.utxos(), inputs@.take(i as int)),
            decreases inputs.len() - i,
        {
            let id = inputs[i];
            let c = match self.store.get(&id) {
                Some(c) => c,
                None => {
                    assert(!spendable(self.utxos(), inputs@)) by {
                        assert(!self.utxos().contains_key(inputs@[i as int]));
                    }
                    return Err(WalletError::UnknownCoin);
                },
            };
            let mut j: usize = 0;
            while j < i
                invariant
                    self.wf(),
                    spendable(self.utxos(), inputs@.take(i as int)),
                    signed@ == inputs_for(self.utxos(), inputs@.take(i as int)),
                    self.utxos().contains_key(id),
                    c == self.utxos()[id],
                    i < inputs@.len(),
                    j <= i,
                    id == inputs@[i as int],
                    forall|m: int| 0 <= m < j ==> inputs@[m] != id,
                decreases i - j,
            {
                if inputs[j] == id {
                    assert(!spendable(self.utxos(), inputs@)) by {
                        if spendable(self.utxos(), inputs@) {
                            assert(self.utxos().contains_key(inputs@[i as int]));
                            assert(inputs@[j as int] != inputs@[i as int]);
                        }
                    }
                    return Err(WalletError::UnknownCoin);
                }
                j = j + 1;
            }
            signed.push(Input { coin_id: id, signature: Signature::Valid(c.owner) });
            i = i + 1;
            proof {
                let t = inputs@.take(i as int);
                assert forall|a: int| 0 <= a < t.len() implies {
                    &&& #[trigger] self.utxos().contains_key(t[a])
                    &&& forall|b: int| 0 <= b < a ==> t[b] != t[a]
                } by {
                    let p = inputs@.take(i - 1);
                    if a < i - 1 {
                        assert(p[a] == t[a]);
                        assert(self.utxos().contains_key(p[a]));
                        assert forall|b: int| 0 <= b < a implies t[b] != t[a] by {
                            assert(p[b] == t[b]);
                            assert(p[b] != p[a]);
                        }
                    } else {
                        assert forall|b: int| 0 <= b < a implies t[b] != t[a] by {
                            assert(inputs@[b] != id);
                        }
                    }
                }
                assert(signed@ =~= inputs_for(self.utxos(), t));
            }
        }
        assert(inputs@.take(inputs@.len() as int) =~= inputs@);
        let mut o: usize = 0;
        while o < outputs.len()
            invariant
                self.wf(),
                inputs@.len() > 0,
                spendable(self.utxos(), inputs@),
                signed@ == inputs_for(self.utxos(), inputs@),
                o <= outputs@.len(),
                forall|m: int| 0 <= m < o ==> #[trigger] outputs@[m].value > 0,
            decreases outputs.len() - o,
        {
            if outputs[o].value == 0 {
                return Err(WalletError::ZeroCoinValue);
            }
            o = o + 1;
        }
        Ok(Transaction { inputs: signed, outputs })
    }

    /// A payment of `amount` to `destination` that also burns `tip`. It spends the owned
    /// coins from the smallest value up, as few as reach `amount + tip` (capped at
    /// `u64::MAX`); what they hold beyond that goes back, as change, to the first owned
    /// address. Nothing in the wallet changes until the transaction is synced in a block.
    pub fn create_automatic_transaction(&self, destination: Address, amount: u64, tip: u64) -> (r: Result<Transaction, WalletError>)
        requires
            self.wf(),
        ensures
            self.owned().len() == 0 ==> r == Err::<Transaction, WalletError>(WalletError::NoOwnedAddresses),
            self.owned().len() > 0 && amount == 0 ==> r == Err::<Transaction, WalletError>(WalletError::ZeroCoinValue),
            self.owned().len() > 0 && amount > 0 ==> ({
                let target = capped(amount + tip);
                let sorted = sort_by_value(self.coin_order());
                &&& value_sum(self.coin_order()) < target ==> r == Err::<Transaction, WalletError>(
                    WalletError::InsufficientFunds,
                )
                &&& value_sum(self.coin_order()) >= target ==> exists|k: int|
                    #[trigger] shortest_reaching(sorted, target as int, k) && r is Ok && r->Ok_0@.inputs
                        == signed_inputs(sorted.take(k)) && r->Ok_0@.outputs == payment_outputs(
                        destination,
                        amount,
                        value_sum(sorted.take(k)) - target,
                        self.owned()[0],
                    )
            }),
    {
        if self.owned.len() == 0 {
            return Err(WalletError::NoOwnedAddresses);
        }
        if amount == 0 {
            return Err(WalletError::ZeroCoinValue);
        }
        let target = amount.saturating_add(tip);
        let mut coins: Vec<(CoinId, Coin)> = Vec::new();
        let n = self.store.len();
        let mut i: usize = 0;
        while i < n
            invariant
                self.wf(),
                n == self.coin_order().len(),
                i <= n,
                coins@ == self.coin_order().take(i as int),
            decreases n - i,
        {
            coins.push(self.store.entry(i));
            i = i + 1;
            assert(coins@ =~= self.coin_order().take(i as int));
        }
        assert(self.coin_order().take(n as int) =~= self.coin_order());
        let sorted = sorted_by_value(&coins);
        proof {
            lemma_sort_sum(coins@);
        }
        match take_until_reached(&sorted, target) {
            None => Err(WalletError::InsufficientFunds),
            Some((k, total)) => {
                proof {
                    assert(k > 0);
                    assert(sorted@.take(k as int).drop_last() =~= sorted@.take(k - 1));
                    assert(sorted@.take(k as int).last() == sorted@[k - 1]);
                }
                let mut inputs: Vec<Input> = Vec::new();
                let mut j: usize = 0;
                while j < k
                    invariant
                        k <= sorted@.len(),
                        j <= k,
                        inputs@ == signed_inputs(sorted@.take(j as int)),
                    decreases k - j,
                {
                    let (id, c) = sorted[j];
                    inputs.push(Input { coin_id: id, signature: Signature::Valid(c.owner) });
                    j = j + 1;
                    assert(inputs@ =~= signed_inputs(sorted@.take(j as int)));
                }
                let change = (total - target as u128) as u64;
                let mut outputs: Vec<Coin> = Vec::new();
                outputs.push(Coin { value: amount, owner: destination });
                if change > 0 {
                    outputs.push(Coin { value: change, owner: self.owned[0] });
                }
                let tx = Transaction { inputs, outputs };
                assert(tx@.outputs =~= payment_outputs(destination, amount, value_sum(sorted@.take(k as int)) - target, self.owned()[0]));
                assert(shortest_reaching(sorted@, target as int, k as int));
                Ok(tx)
            },
        }
    }

    /// Whether the applied block at `height` is `id`.
    fn on_chain(&self, height: u64, id: BlockId) -> (r: bool)
        requires
            self.wf(),
        ensures
            r == (height < self.chain().len() && self.chain()[height as int] == id),
    {
        height < self.chain.len() as u64 && self.chain[height as usize] == id
    }

    /// Follow the node's best chain: roll back the applied blocks above the point where the
    /// node's best chain leaves the wallet's, then apply the node's blocks above it, oldest
    /// first. The node is asked for its best tip, then for each new block and for the block
    /// where the two chains meet; nothing below that point is asked for.
    pub fn sync<V: ChainView>(&mut self, node: &mut V)
        requires
            old(self).wf(),
            node_ok(old(node).blocks(), old(node).best()),
            old(self).known_by(old(node).blocks()),
        ensures
            final(self).wf(),
            final(self).owned() == old(self).owned(),
            final(node).blocks() == old(node).blocks(),
            final(node).best() == old(node).best(),
            final(self).known_by(old(node).blocks()),
            final(self).chain() == chain_to(old(node).blocks(), old(node).best()),
            final(self).tip() == old(node).best(),
            final(self).chain().len() == old(node).blocks()[old(node).best()].height + 1,
            final(self).utxos() == utxos_at(old(self).owned(), old(node).blocks(), old(node).best()),
            old(self).tip() == old(node).best() ==> {
                &&& final(self).chain() == old(self).chain()
                &&& final(self).history() == old(self).history()
                &&& final(self).utxos() == old(self).utxos()
                &&& final(node).queries() <= old(node).queries() + 1
            },
            old(self).tip() != old(node).best() ==> final(node).queries() <= old(node).queries() + 2
                + final(self).chain().len() - shared_prefix(old(self).chain(), final(self).chain()),
    {
        let ghost blocks = node.blocks();
        let ghost owned = self.owned@;
        let best = node.best_block();
        proof {
            lemma_path_is_chain(blocks, best, self.chain@);
            assert(self.history@ =~= chain_txs(blocks, self.chain@));
        }
        if best == self.chain[self.chain.len() - 1] {
            return;
        }
        let ghost newc = chain_to(blocks, best);
        proof {
            lemma_chain_to(blocks, best, best);
        }
        let mut ids: Vec<BlockId> = Vec::new();
        let mut fetched: Vec<Block> = Vec::new();
        let mut cur = best;
        let mut b = node.block(cur);
        proof {
            assert(cur == newc[newc.len() - 1]);
        }
        while !self.on_chain(b.height, cur)
            invariant
                self.wf(),
                self.owned@ == owned,
                self.known_by(blocks),
                self.chain@ == old(self).chain@,
                self.history@ == old(self).history@,
                node.blocks() == blocks,
                node.best() == best,
                node_ok(blocks, best),
                newc == chain_to(blocks, best),
                newc.len() == blocks[best].height + 1,
                is_path(blocks, newc),
                node.queries() <= old(node).queries() + 2 + ids@.len(),
                blocks.contains_key(cur),
                b@ == blocks[cur],
                b.height < newc.len(),
                cur == newc[b.height as int],
                ids@.len() == fetched@.len(),
                ids@.len() + b.height + 1 == newc.len(),
                forall|j: int| 0 <= j < ids@.len() ==> #[trigger] ids@[j] == newc[newc.len() - 1 - j],
                forall|j: int| 0 <= j < fetched@.len() ==> #[trigger] fetched@[j]@ == blocks[ids@[j]],
                forall|m: int|
                    b.height < m < newc.len() && m < self.chain@.len() ==> #[trigger] self.chain@[m] != newc[m],
            decreases b.height,
        {
            let ghost hb = b.height as int;
            proof {
                if b.height == 0 {
                    assert(blocks.contains_key(self.chain@[0]));
                }
                assert(hb < self.chain@.len() ==> self.chain@[hb] != newc[hb]);
                assert(blocks.contains_key(newc[hb]));
            }
            ids.push(cur);
            let parent = b.parent;
            fetched.push(b);
            cur = parent;
            b = node.block(cur);
            proof {
                assert(cur == newc[hb - 1]);
                assert(b.height == hb - 1);
            }
        }
        let k: u64 = b.height;
        proof {
            lemma_paths_agree_below(blocks, self.chain@, newc, k as int);
            lemma_shared_prefix(self.chain@, newc, k as int);
        }
        proof {
            assert(old(self).chain@.take(self.chain@.len() as int) =~= old(self).chain@);
            assert(old(self).history@.take(self.chain@.len() as int) =~= old(self).history@);
        }
        while self.chain.len() as u64 > k + 1
            invariant
                self.wf(),
                self.owned@ == owned,
                k + 1 <= self.chain@.len() <= old(self).chain@.len(),
                old(self).history@.len() == old(self).chain@.len(),
                self.chain@ == old(self).chain@.take(self.chain@.len() as int),
                self.history@ == old(self).history@.take(self.chain@.len() as int),
            decreases self.chain@.len(),
        {
            self.undo_last_block();
            proof {
                assert(self.chain@ =~= old(self).chain@.take(self.chain@.len() as int));
                assert(self.history@ =~= old(self).history@.take(self.chain@.len() as int));
            }
        }
        let mut j: usize = ids.len();
        proof {
            assert(self.chain@ =~= newc.take(k + 1));
            assert(self.history@ =~= chain_txs(blocks, newc.take(k + 1)));
        }
        while j > 0
            invariant
                self.wf(),
                self.owned@ == owned,
                node_ok(blocks, best),
                newc == chain_to(blocks, best),
                newc.len() == blocks[best].height + 1,
                is_path(blocks, newc),
                j <= ids@.len(),
                ids@.len() == fetched@.len(),
                ids@.len() + k + 1 == newc.len(),
                forall|i: int| 0 <= i < ids@.len() ==> #[trigger] ids@[i] == newc[newc.len() - 1 - i],
                forall|i: int| 0 <= i < fetched@.len() ==> #[trigger] fetched@[i]@ == blocks[ids@[i]],
                self.chain@ == newc.take(newc.len() - j),
                self.history@ == chain_txs(blocks, newc.take(newc.len() - j)),
            decreases j,
        {
            j = j - 1;
            self.apply_block(ids[j], &fetched[j]);
            proof {
                assert(ids@[j as int] == newc[newc.len() - 1 - j]);
                assert(self.chain@ =~= newc.take(newc.len() - j));
                assert(self.history@ =~= chain_txs(blocks, newc.take(newc.len() - j)));
            }
        }
        proof {
            assert(newc.take(newc.len() as int) =~= newc);
            assert forall|i: int| 0 <= i < self.chain@.len() implies
                #[trigger] blocks[self.chain@[i]].transactions == self.history@[i] by {
            }
        }
    }
}

proof fn lemma_value_of_nonneg(s: Seq<(CoinId, Coin)>, a: Address)
    ensures
        value_of(s, a) >= 0,
    decreases s.len(),
{
    if s.len() > 0 {
        lemma_value_of_nonneg(s.drop_last(), a);
    }
}

/// A node that only gains blocks still knows every wallet it knew.
pub proof fn lemma_known_by_more_blocks(w: Wallet, blocks: Map<BlockId, BlockModel>, more: Map<BlockId, BlockModel>)
    requires
        w.known_by(blocks),
        blocks.submap_of(more),
    ensures
        w.known_by(more),
{
    assert forall|i: int| 0 <= i < w.chain().len() implies {
        &&& #[trigger] more.contains_key(w.chain()[i])
        &&& more[w.chain()[i]].height == i
        &&& i > 0 ==> more[w.chain()[i]].parent == w.chain()[i - 1]
    } by {
        assert(blocks.contains_key(w.chain()[i]));
        assert(blocks.dom().contains(w.chain()[i]));
        assert(more.dom().contains(w.chain()[i]));
        assert(blocks[w.chain()[i]] == more[w.chain()[i]]);
        if i > 0 {
            assert(blocks.contains_key(w.chain()[i - 1]));
        }
    }
    assert forall|i: int| 0 <= i < w.chain().len() implies #[trigger] more[w.chain()[i]].transactions
        == w.history()[i] by {
        assert(blocks.contains_key(w.chain()[i]));
        assert(blocks.dom().contains(w.chain()[i]));
        assert(more.dom().contains(w.chain()[i]));
        assert(blocks[w.chain()[i]].transactions == w.history()[i]);
    }
}

/// The wallet never holds a coin of an address it does not own.
pub proof fn lemma_only_owned_coins(w: Wallet)
    requires
        w.wf(),
    ensures
        all_owned(w.owned(), w.utxos()),
{
    lemma_replay_owned(w.owned(), w.history());
}

/// A wallet synced to a node's best tip has that tip as its own, so syncing again before the
/// best tip moves changes nothing and asks the node only for its best tip.
pub proof fn lemma_synced_tip(w: Wallet, blocks: Map<BlockId, BlockModel>, best: BlockId)
    requires
        node_ok(blocks, best),
        w.chain() == chain_to(blocks, best),
    ensures
        w.tip() == best,
{
    lemma_chain_to(blocks, best, best);
}

/// The coins a sync leaves depend only on the owned addresses and the blocks of the node's
/// best chain: two wallets with the same addresses, each synced to a node whose best chain
/// holds the same blocks as the other's, hold the same coins, whatever else either node holds
/// and whatever either wallet followed before.
pub proof fn lemma_sync_confluent(
    w1: Wallet,
    blocks1: Map<BlockId, BlockModel>,
    best1: BlockId,
    w2: Wallet,
    blocks2: Map<BlockId, BlockModel>,
    best2: BlockId,
)
    requires
        w1.owned() == w2.owned(),
        w1.utxos() == utxos_at(w1.owned(), blocks1, best1),
        w2.utxos() == utxos_at(w2.owned(), blocks2, best2),
        chain_to(blocks1, best1) == chain_to(blocks2, best2),
        forall|i: int| 0 <= i < chain_to(blocks1, best1).len() ==>
            blocks1[#[trigger] chain_to(blocks1, best1)[i]] == blocks2[chain_to(blocks1, best1)[i]],
    ensures
        w1.utxos() == w2.utxos(),
{
    let c = chain_to(blocks1, best1);
    assert(chain_txs(blocks1, c) =~= chain_txs(blocks2, c));
}

/// The output list of an automatic payment: the payment alone when there is no change, and
/// no output of value 0 in any case.
pub proof fn lemma_payment_outputs(dest: Address, amount: u64, change: int, change_to: Address)
    requires
        amount > 0,
        0 <= change <= u64::MAX,
    ensures
        change == 0 ==> payment_outputs(dest, amount, change, change_to).len() == 1,
        change > 0 ==> payment_outputs(dest, amount, change, change_to).len() == 2,
        forall|o: int| 0 <= o < payment_outputs(dest, amount, change, change_to).len() ==>
            #[trigger] payment_outputs(dest, amount, change, change_to)[o].value > 0,
{
}

/// Two sequences that agree up to index `k` and not at `k + 1` share a prefix of `k + 1`.
proof fn lemma_shared_prefix(a: Seq<BlockId>, b: Seq<BlockId>, k: int)
    requires
        0 <= k < a.len(),
        k < b.len(),
        forall|i: int| 0 <= i <= k ==> a[i] == b[i],
        k + 1 == a.len() || k + 1 == b.len() || a[k + 1] != b[k + 1],
    ensures
        shared_prefix(a, b) == k + 1,
    decreases k,
{
    assert(a[0] == b[0]);
    if k > 0 {
        let a1 = a.drop_first();
        let b1 = b.drop_first();
        if k + 1 < a.len() && k + 1 < b.len() {
            assert(a1[k] == a[k + 1]);
            assert(b1[k] == b[k + 1]);
        }
        assert forall|i: int| 0 <= i <= k - 1 implies a1[i] == b1[i] by {
            assert(a[i + 1] == b[i + 1]);
        }
        lemma_shared_prefix(a1, b1, k - 1);
        assert(shared_prefix(a, b) == 1 + shared_prefix(a1, b1));
    } else {
        let a1 = a.drop_first();
        let b1 = b.drop_first();
        if a1.len() > 0 && b1.len() > 0 {
            assert(a1[0] == a[1]);
            assert(b1[0] == b[1]);
        }
        assert(shared_prefix(a1, b1) == 0);
        assert(shared_prefix(a, b) == 1 + shared_prefix(a1, b1));
    }
}

} // verus!
