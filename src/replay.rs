//! What a chain of blocks does to the owned coins: each block's transactions, in order, spend
//! their inputs and add the outputs that owned addresses hold.

use vstd::prelude::*;
use crate::chain::{chain_to, chain_txs};
use crate::ledger::{Address, BlockId, BlockModel, Coin, CoinId, Input, TxModel, coin_id_of};

verus! {

/// The coins that spending `ins` in order leaves of `m`: each input takes out the coin it names,
/// if it is there.
pub open spec fn spend_inputs(m: Map<CoinId, Coin>, ins: Seq<Input>) -> Map<CoinId, Coin>
    decreases ins.len(),
{
    if ins.len() == 0 {
        m
    } else {
        spend_inputs(m, ins.drop_last()).remove(ins.last().coin_id)
    }
}

/// `m` with the first `n` outputs of `t` that an owned address holds, each under its id at
/// height `h`.
pub open spec fn add_outputs(
    owned: Seq<Address>,
    m: Map<CoinId, Coin>,
    t: TxModel,
    h: u64,
    n: int,
) -> Map<CoinId, Coin>
    decreases n,
{
    if n <= 0 {
        m
    } else {
        let prev = add_outputs(owned, m, t, h, n - 1);
        let c = t.outputs[n - 1];
        if owned.contains(c.owner) {
            prev.insert(coin_id_of(t, h, n - 1), c)
        } else {
            prev
        }
    }
}

/// One transaction at height `h`: first its inputs are spent, then its owned outputs added.
pub open spec fn apply_tx(owned: Seq<Address>, m: Map<CoinId, Coin>, t: TxModel, h: u64) -> Map<CoinId, Coin> {
    add_outputs(owned, spend_inputs(m, t.inputs), t, h, t.outputs.len() as int)
}

/// The transactions of one block at height `h`, strictly in order.
pub open spec fn apply_txs(
    owned: Seq<Address>,
    m: Map<CoinId, Coin>,
    ts: Seq<TxModel>,
    h: u64,
) -> Map<CoinId, Coin>
    decreases ts.len(),
{
    if ts.len() == 0 {
        m
    } else {
        apply_tx(owned, apply_txs(owned, m, ts.drop_last(), h), ts.last(), h)
    }
}

/// The owned unspent coins after the blocks whose transactions `blocks` lists, block `i` at
/// height `i`, starting from no coins.
pub open spec fn replay(owned: Seq<Address>, blocks: Seq<Seq<TxModel>>) -> Map<CoinId, Coin>
    decreases blocks.len(),
{
    if blocks.len() == 0 {
        Map::empty()
    } else {
        apply_txs(owned, replay(owned, blocks.drop_last()), blocks.last(), (blocks.len() - 1) as u64)
    }
}

/// The owned unspent coins implied by the chain from genesis to `tip`.
pub open spec fn utxos_at(owned: Seq<Address>, blocks: Map<BlockId, BlockModel>, tip: BlockId) -> Map<CoinId, Coin> {
    replay(owned, chain_txs(blocks, chain_to(blocks, tip)))
}

/// Every coin `m` holds belongs to an owned address.
pub open spec fn all_owned(owned: Seq<Address>, m: Map<CoinId, Coin>) -> bool {
    forall|k: CoinId| #[trigger] m.contains_key(k) ==> owned.contains(m[k].owner)
}

proof fn lemma_spend_inputs_owned(owned: Seq<Address>, m: Map<CoinId, Coin>, ins: Seq<Input>)
    requires
        all_owned(owned, m),
    ensures
        all_owned(owned, spend_inputs(m, ins)),
    decreases ins.len(),
{
    if ins.len() > 0 {
        lemma_spend_inputs_owned(owned, m, ins.drop_last());
    }
}

proof fn lemma_add_outputs_owned(owned: Seq<Address>, m: Map<CoinId, Coin>, t: TxModel, h: u64, n: int)
    requires
        all_owned(owned, m),
    ensures
        all_owned(owned, add_outputs(owned, m, t, h, n)),
    decreases n,
{
    if n > 0 {
        lemma_add_outputs_owned(owned, m, t, h, n - 1);
    }
}

proof fn lemma_apply_txs_owned(owned: Seq<Address>, m: Map<CoinId, Coin>, ts: Seq<TxModel>, h: u64)
    requires
        all_owned(owned, m),
    ensures
        all_owned(owned, apply_txs(owned, m, ts, h)),
    decreases ts.len(),
{
    if ts.len() > 0 {
        let prev = apply_txs(owned, m, ts.drop_last(), h);
        lemma_apply_txs_owned(owned, m, ts.drop_last(), h);
        lemma_spend_inputs_owned(owned, prev, ts.last().inputs);
        lemma_add_outputs_owned(owned, spend_inputs(prev, ts.last().inputs), ts.last(), h, ts.last().outputs.len() as int);
    }
}

/// Replaying blocks keeps only coins of owned addresses.
pub proof fn lemma_replay_owned(owned: Seq<Address>, blocks: Seq<Seq<TxModel>>)
    ensures
        all_owned(owned, replay(owned, blocks)),
    decreases blocks.len(),
{
    if blocks.len() > 0 {
        lemma_replay_owned(owned, blocks.drop_last());
        lemma_apply_txs_owned(owned, replay(owned, blocks.drop_last()), blocks.last(), (blocks.len() - 1) as u64);
    }
}

} // verus!
