//! The ledger entries: addresses, coins, coin ids, inputs, transactions and blocks,
//! with the rule that names a coin by its transaction, height and position.

use vstd::prelude::*;
use crate::digest::{digest, digest_of};

verus! {

/// Identifier of a block: the digest of its parent, height and transactions.
pub type BlockId = u64;

/// A party that can own coins.
#[derive(Clone, Copy, Debug, PartialEq, Eq, Hash, Structural)]
pub enum Address {
    Alice,
    Bob,
    Charlie,
    Dave,
    Eve,
    Ferdie,
    Custom(u64),
}

/// An amount of value held by one address.
#[derive(Clone, Copy, Debug, PartialEq, Eq, Hash, Structural)]
pub struct Coin {
    pub value: u64,
    pub owner: Address,
}

/// Names one output of one transaction included at one height.
#[derive(Clone, Copy, Debug, PartialEq, Eq, Hash, Structural)]
pub struct CoinId {
    /// Digest of the producing transaction.
    pub tx: u64,
    /// Height of the block that includes (or would include) the transaction.
    pub height: u64,
    /// Position of the output in the transaction's output list.
    pub index: u64,
}

/// Authorisation attached to an input; the wallet never inspects it.
#[derive(Clone, Copy, Debug, PartialEq, Eq, Hash, Structural)]
pub enum Signature {
    Valid(Address),
    Invalid,
}

/// A reference to the coin that a transaction spends.
#[derive(Clone, Copy, Debug, PartialEq, Eq, Hash, Structural)]
pub struct Input {
    pub coin_id: CoinId,
    pub signature: Signature,
}

/// Spends its inputs and creates its outputs. With no inputs it mints.
#[derive(Clone, Debug, PartialEq, Eq, Hash)]
pub struct Transaction {
    pub inputs: Vec<Input>,
    pub outputs: Vec<Coin>,
}

/// The contents of a transaction as sequences.
pub struct TxModel {
    pub inputs: Seq<Input>,
    pub outputs: Seq<Coin>,
}

impl View for Transaction {
    type V = TxModel;

    open spec fn view(&self) -> TxModel {
        TxModel { inputs: self.inputs@, outputs: self.outputs@ }
    }
}

/// A block: its parent's id, its height and the transactions it includes, in order.
#[derive(Clone, Debug, PartialEq, Eq, Hash)]
pub struct Block {
    pub parent: BlockId,
    pub height: u64,
    pub transactions: Vec<Transaction>,
}

/// The contents of a block, with each transaction as its model.
pub struct BlockModel {
    pub parent: BlockId,
    pub height: u64,
    pub transactions: Seq<TxModel>,
}

impl View for Block {
    type V = BlockModel;

    open spec fn view(&self) -> BlockModel {
        BlockModel {
            parent: self.parent,
            height: self.height,
            transactions: self.transactions@.map_values(|t: Transaction| t@),
        }
    }
}

/// Two words for an address: a tag and, for a custom address, its number.
pub open spec fn address_words(a: Address) -> Seq<u64> {
    match a {
        Address::Alice => seq![0u64, 0u64],
        Address::Bob => seq![1u64, 0u64],
        Address::Charlie => seq![2u64, 0u64],
        Address::Dave => seq![3u64, 0u64],
        Address::Eve => seq![4u64, 0u64],
        Address::Ferdie => seq![5u64, 0u64],
        Address::Custom(n) => seq![6u64, n],
    }
}

/// Three words for a coin: its value, then its owner.
pub open spec fn coin_words(c: Coin) -> Seq<u64> {
    seq![c.value] + address_words(c.owner)
}

/// Six words for an input: the coin id, then the signature.
pub open spec fn input_words(i: Input) -> Seq<u64> {
    seq![i.coin_id.tx, i.coin_id.height, i.coin_id.index] + match i.signature {
        Signature::Valid(a) => seq![1u64] + address_words(a),
        Signature::Invalid => seq![0u64, 0u64, 0u64],
    }
}

pub open spec fn inputs_words(s: Seq<Input>) -> Seq<u64>
    decreases s.len(),
{
    if s.len() == 0 {
        seq![]
    } else {
        inputs_words(s.drop_last()) + input_words(s.last())
    }
}

pub open spec fn outputs_words(s: Seq<Coin>) -> Seq<u64>
    decreases s.len(),
{
    if s.len() == 0 {
        seq![]
    } else {
        outputs_words(s.drop_last()) + coin_words(s.last())
    }
}

/// The words a transaction is digested from: each list preceded by its length.
pub open spec fn tx_words(t: TxModel) -> Seq<u64> {
    seq![t.inputs.len() as u64] + inputs_words(t.inputs) + seq![t.outputs.len() as u64]
        + outputs_words(t.outputs)
}

/// The digest that identifies a transaction.
pub open spec fn tx_hash_of(t: TxModel) -> u64 {
    digest_of(tx_words(t))
}

/// The id of output `index` of `t` when `t` is included at `height`.
pub open spec fn coin_id_of(t: TxModel, height: u64, index: int) -> CoinId {
    CoinId { tx: tx_hash_of(t), height, index: index as u64 }
}

pub open spec fn tx_hashes(s: Seq<TxModel>) -> Seq<u64> {
    s.map_values(|t: TxModel| tx_hash_of(t))
}

/// The words a block is digested from: parent, height, count, then each transaction's digest.
pub open spec fn block_words(b: BlockModel) -> Seq<u64> {
    seq![b.parent, b.height, b.transactions.len() as u64] + tx_hashes(b.transactions)
}

/// The id of a block.
pub open spec fn block_id_of(b: BlockModel) -> BlockId {
    digest_of(block_words(b))
}

/// The genesis block: height 0, no transactions.
pub open spec fn genesis_model() -> BlockModel {
    BlockModel { parent: 0, height: 0, transactions: seq![] }
}

/// One transaction names different coins at different heights, and the same coin whenever it is
/// included again at the same height.
pub proof fn lemma_coin_id_by_height(t: TxModel, h1: u64, h2: u64, i: int, j: int)
    ensures
        h1 != h2 ==> coin_id_of(t, h1, i) != coin_id_of(t, h2, j),
        h1 == h2 && i == j ==> coin_id_of(t, h1, i) == coin_id_of(t, h2, j),
{
}

impl Address {
    fn push_words(&self, out: &mut Vec<u64>)
        ensures
            final(out)@ == old(out)@ + address_words(*self),
    {
        match *self {
            Address::Alice => { out.push(0); out.push(0); },
            Address::Bob => { out.push(1); out.push(0); },
            Address::Charlie => { out.push(2); out.push(0); },
            Address::Dave => { out.push(3); out.push(0); },
            Address::Eve => { out.push(4); out.push(0); },
            Address::Ferdie => { out.push(5); out.push(0); },
            Address::Custom(n) => { out.push(6); out.push(n); },
        }
        assert(final(out)@ =~= old(out)@ + address_words(*self));
    }
}

impl Input {
    /// An input that spends no coin the wallet could track; its signature is invalid.
    pub fn dummy() -> (r: Input)
        ensures
            r == (Input { coin_id: CoinId { tx: 0, height: 0, index: 0 }, signature: Signature::Invalid }),
    {
        Input { coin_id: CoinId { tx: 0, height: 0, index: 0 }, signature: Signature::Invalid }
    }
}

impl Transaction {
    /// A copy of this transaction.
    pub fn duplicate(&self) -> (r: Transaction)
        ensures
            r@ == self@,
    {
        let mut inputs: Vec<Input> = Vec::new();
        let mut i: usize = 0;
        while i < self.inputs.len()
            invariant
                i <= self.inputs.len(),
                inputs@ == self.inputs@.subrange(0, i as int),
            decreases self.inputs.len() - i,
        {
            inputs.push(self.inputs[i]);
            i = i + 1;
            assert(inputs@ =~= self.inputs@.subrange(0, i as int));
        }
        let mut outputs: Vec<Coin> = Vec::new();
        let mut j: usize = 0;
        while j < self.outputs.len()
            invariant
                j <= self.outputs.len(),
                outputs@ == self.outputs@.subrange(0, j as int),
            decreases self.outputs.len() - j,
        {
            outputs.push(self.outputs[j]);
            j = j + 1;
            assert(outputs@ =~= self.outputs@.subrange(0, j as int));
        }
        assert(inputs@ =~= self.inputs@);
        assert(outputs@ =~= self.outputs@);
        Transaction { inputs, outputs }
    }

    fn words(&self) -> (r: Vec<u64>)
        ensures
            r@ == tx_words(self@),
    {
        let mut out: Vec<u64> = Vec::new();
        out.push(self.inputs.len() as u64);
        let mut i: usize = 0;
        while i < self.inputs.len()
            invariant
                i <= self.inputs.len(),
                out@ == seq![self.inputs.len() as u64] + inputs_words(self.inputs@.subrange(0, i as int)),
            decreases self.inputs.len() - i,
        {
            let input = self.inputs[i];
            assert(self.inputs@.subrange(0, i as int + 1).drop_last() =~= self.inputs@.subrange(0, i as int));
            out.push(input.coin_id.tx);
            out.push(input.coin_id.height);
            out.push(input.coin_id.index);
            match input.signature {
                Signature::Valid(a) => {
                    out.push(1);
                    a.push_words(&mut out);
                },
                Signature::Invalid => {
                    out.push(0);
                    out.push(0);
                    out.push(0);
                },
            }
            i = i + 1;
            assert(out@ =~= seq![self.inputs.len() as u64] + inputs_words(self.inputs@.subrange(0, i as int)));
        }
        assert(self.inputs@.subrange(0, self.inputs.len() as int) =~= self.inputs@);
        let ghost head = out@;
        out.push(self.outputs.len() as u64);
        let mut j: usize = 0;
        while j < self.outputs.len()
            invariant
                j <= self.outputs.len(),
                head == seq![self.inputs.len() as u64] + inputs_words(self.inputs@),
                out@ == head + seq![self.outputs.len() as u64] + outputs_words(self.outputs@.subrange(0, j as int)),
            decreases self.outputs.len() - j,
        {
            let c = self.outputs[j];
            assert(self.outputs@.subrange(0, j as int + 1).drop_last() =~= self.outputs@.subrange(0, j as int));
            out.push(c.value);
            c.owner.push_words(&mut out);
            j = j + 1;
            assert(out@ =~= head + seq![self.outputs.len() as u64] + outputs_words(self.outputs@.subrange(0, j as int)));
        }
        assert(self.outputs@.subrange(0, self.outputs.len() as int) =~= self.outputs@);
        assert(out@ =~= tx_words(self@));
        out
    }

    /// The digest that identifies this transaction.
    pub fn hash(&self) -> (r: u64)
        ensures
            r == tx_hash_of(self@),
    {
        let w = self.words();
        digest(&w)
    }

    /// The id that output `index` of this transaction has once it is included at `height`.
    pub fn coin_id(&self, height: u64, index: usize) -> (r: CoinId)
        ensures
            r == coin_id_of(self@, height, index as int),
    {
        CoinId { tx: self.hash(), height, index: index as u64 }
    }
}

impl Block {
    /// The genesis block.
    pub fn genesis() -> (r: Block)
        ensures
            r@ == genesis_model(),
    {
        let b = Block { parent: 0, height: 0, transactions: Vec::new() };
        assert(b@.transactions =~= seq![]);
        b
    }

    /// The id of this block.
    pub fn id(&self) -> (r: BlockId)
        ensures
            r == block_id_of(self@),
    {
        let mut w: Vec<u64> = Vec::new();
        w.push(self.parent);
        w.push(self.height);
        w.push(self.transactions.len() as u64);
        let ghost head = w@;
        let mut i: usize = 0;
        while i < self.transactions.len()
            invariant
                i <= self.transactions.len(),
                head == seq![self.parent, self.height, self.transactions.len() as u64],
                w@ == head + tx_hashes(self@.transactions.subrange(0, i as int)),
            decreases self.transactions.len() - i,
        {
            let h = self.transactions[i].hash();
            i = i + 1;
            w.push(h);
            assert(w@ =~= head + tx_hashes(self@.transactions.subrange(0, i as int)));
        }
        assert(self@.transactions.subrange(0, i as int) =~= self@.transactions);
        assert(w@ =~= block_words(self@));
        digest(&w)
    }
}

} // verus!
