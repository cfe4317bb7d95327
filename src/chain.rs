//! The view of a node's block tree that the wallet queries, and a node kept in memory.

use vstd::prelude::*;
use std::collections::HashMap;
use crate::ledger::{Block, BlockId, BlockModel, Transaction, block_id_of, genesis_model};

verus! {

broadcast use vstd::std_specs::hash::group_hash_axioms;

/// The id of the genesis block.
pub open spec fn genesis_id() -> BlockId {
    block_id_of(genesis_model())
}

/// The blocks form a tree rooted at genesis: genesis is the only block at height 0, every
/// other block's parent is known and one lower; the best tip is a known block.
pub open spec fn node_ok(blocks: Map<BlockId, BlockModel>, best: BlockId) -> bool {
    &&& blocks.contains_key(genesis_id())
    &&& blocks[genesis_id()] == genesis_model()
    &&& blocks.contains_key(best)
    &&& forall|id: BlockId| #[trigger] blocks.contains_key(id) ==> {
        &&& blocks[id].height == 0 ==> id == genesis_id()
        &&& blocks[id].height > 0 ==> {
            &&& blocks.contains_key(blocks[id].parent)
            &&& blocks[blocks[id].parent].height + 1 == blocks[id].height
        }
    }
}

/// `ids` runs from genesis up: its entry `i` is a known block at height `i` whose parent is
/// entry `i - 1`.
pub open spec fn is_path(blocks: Map<BlockId, BlockModel>, ids: Seq<BlockId>) -> bool {
    forall|i: int| 0 <= i < ids.len() ==> {
        &&& #[trigger] blocks.contains_key(ids[i])
        &&& blocks[ids[i]].height == i
        &&& i > 0 ==> blocks[ids[i]].parent == ids[i - 1]
    }
}

/// The ids from genesis up to `id`, following parents.
pub open spec fn chain_to(blocks: Map<BlockId, BlockModel>, id: BlockId) -> Seq<BlockId>
    decreases blocks[id].height,
{
    let b = blocks[id];
    if blocks.contains_key(id) && b.height > 0 && blocks.contains_key(b.parent)
        && blocks[b.parent].height < b.height {
        chain_to(blocks, b.parent).push(id)
    } else {
        seq![id]
    }
}

/// The transactions of each block of `ids`, in order.
pub open spec fn chain_txs(
    blocks: Map<BlockId, BlockModel>,
    ids: Seq<BlockId>,
) -> Seq<Seq<crate::ledger::TxModel>> {
    ids.map_values(|id: BlockId| blocks[id].transactions)
}

/// In a well-formed node, the chain to a known block is a path that ends in it.
pub proof fn lemma_chain_to(blocks: Map<BlockId, BlockModel>, best: BlockId, id: BlockId)
    requires
        node_ok(blocks, best),
        blocks.contains_key(id),
    ensures
        chain_to(blocks, id).len() == blocks[id].height + 1,
        chain_to(blocks, id).last() == id,
        is_path(blocks, chain_to(blocks, id)),
    decreases blocks[id].height,
{
    if blocks[id].height > 0 {
        let p = blocks[id].parent;
        lemma_chain_to(blocks, best, p);
        let c = chain_to(blocks, id);
        assert(c == chain_to(blocks, p).push(id));
        assert forall|i: int| 0 <= i < c.len() implies {
            &&& #[trigger] blocks.contains_key(c[i])
            &&& blocks[c[i]].height == i
            &&& i > 0 ==> blocks[c[i]].parent == c[i - 1]
        } by {
            if i < c.len() - 1 {
                assert(c[i] == chain_to(blocks, p)[i]);
                if i > 0 {
                    assert(c[i - 1] == chain_to(blocks, p)[i - 1]);
                }
            }
        }
    } else {
        assert(id == genesis_id());
    }
}

/// A path is the chain to its last block.
pub proof fn lemma_path_is_chain(blocks: Map<BlockId, BlockModel>, best: BlockId, ids: Seq<BlockId>)
    requires
        node_ok(blocks, best),
        is_path(blocks, ids),
        ids.len() > 0,
    ensures
        ids == chain_to(blocks, ids.last()),
    decreases ids.len(),
{
    let id = ids.last();
    assert(blocks.contains_key(ids[ids.len() - 1]));
    if ids.len() > 1 {
        let front = ids.drop_last();
        assert(is_path(blocks, front)) by {
            assert forall|i: int| 0 <= i < front.len() implies {
                &&& #[trigger] blocks.contains_key(front[i])
                &&& blocks[front[i]].height == i
                &&& i > 0 ==> blocks[front[i]].parent == front[i - 1]
            } by {
                assert(blocks.contains_key(ids[i]));
            }
        }
        lemma_path_is_chain(blocks, best, front);
        assert(blocks.contains_key(ids[ids.len() - 2]));
        assert(ids =~= front.push(id));
    } else {
        assert(ids =~= seq![id]);
    }
}

/// Two paths that meet at one index agree on everything below it.
pub proof fn lemma_paths_agree_below(
    blocks: Map<BlockId, BlockModel>,
    a: Seq<BlockId>,
    b: Seq<BlockId>,
    k: int,
)
    requires
        is_path(blocks, a),
        is_path(blocks, b),
        0 <= k < a.len(),
        k < b.len(),
        a[k] == b[k],
    ensures
        forall|i: int| 0 <= i <= k ==> a[i] == b[i],
    decreases k,
{
    if k > 0 {
        assert(blocks.contains_key(a[k]));
        assert(blocks.contains_key(b[k]));
        lemma_paths_agree_below(blocks, a, b, k - 1);
    }
}

/// What the wallet may ask of a node: its best tip, and any block it has ever held.
/// Every answer counts as one query.
pub trait ChainView {
    /// The blocks the node knows, by id.
    spec fn blocks(&self) -> Map<BlockId, BlockModel>;

    /// The node's current best tip.
    spec fn best(&self) -> BlockId;

    /// How many queries the node has answered.
    spec fn queries(&self) -> nat;

    /// The current best tip.
    fn best_block(&mut self) -> (r: BlockId)
        ensures
            r == old(self).best(),
            final(self).blocks() == old(self).blocks(),
            final(self).best() == old(self).best(),
            final(self).queries() <= old(self).queries() + 1,
    ;

    /// A known block: its parent, its height and its transactions.
    fn block(&mut self, id: BlockId) -> (r: Block)
        requires
            old(self).blocks().contains_key(id),
        ensures
            r@ == old(self).blocks()[id],
            final(self).blocks() == old(self).blocks(),
            final(self).best() == old(self).best(),
            final(self).queries() <= old(self).queries() + 1,
    ;
}

/// A node that keeps its block tree in memory, lets its user pick the best tip, and
/// counts the queries it answers.
pub struct MockNode {
    blocks: HashMap<BlockId, Block>,
    best: BlockId,
    queries: u64,
}

impl Block {
    /// A copy of this block.
    pub fn duplicate(&self) -> (r: Block)
        ensures
            r@ == self@,
    {
        let mut txs: Vec<Transaction> = Vec::new();
        let mut i: usize = 0;
        while i < self.transactions.len()
            invariant
                i <= self.transactions.len(),
                txs@.len() == i,
                forall|j: int| 0 <= j < i ==> #[trigger] txs@[j]@ == self.transactions@[j]@,
            decreases self.transactions.len() - i,
        {
            let t = self.transactions[i].duplicate();
            txs.push(t);
            i = i + 1;
        }
        let r = Block { parent: self.parent, height: self.height, transactions: txs };
        assert(r@.transactions =~= self@.transactions);
        r
    }
}

impl ChainView for MockNode {
    closed spec fn blocks(&self) -> Map<BlockId, BlockModel> {
        self.blocks@.map_values(|b: Block| b@)
    }

    closed spec fn best(&self) -> BlockId {
        self.best
    }

    closed spec fn queries(&self) -> nat {
        self.queries as nat
    }

    fn best_block(&mut self) -> (r: BlockId) {
        self.queries = self.queries.saturating_add(1);
        self.best
    }

    fn block(&mut self, id: BlockId) -> (r: Block) {
        self.queries = self.queries.saturating_add(1);
        match self.blocks.get(&id) {
            Some(b) => b.duplicate(),
            None => Block::genesis(),
        }
    }
}

impl MockNode {
    /// The node is a tree rooted at genesis.
    pub open spec fn wf(&self) -> bool {
        node_ok(self.blocks(), self.best())
    }

    /// A node that knows only genesis, which is its best tip.
    pub fn new() -> (r: MockNode)
        ensures
            r.wf(),
            r.blocks() == map![genesis_id() => genesis_model()],
            r.best() == genesis_id(),
            r.queries() == 0,
    {
        let g = Block::genesis();
        let id = g.id();
        let mut blocks: HashMap<BlockId, Block> = HashMap::new();
        blocks.insert(id, g);
        let r = MockNode { blocks, best: id, queries: 0 };
        assert(r.blocks() =~= map![genesis_id() => genesis_model()]);
        r
    }

    /// Add a block with the given parent and transactions, one above its parent, and
    /// return its id. A block with that id that is already known is kept as it is.
    pub fn add_block(&mut self, parent: BlockId, transactions: Vec<Transaction>) -> (r: BlockId)
        requires
            old(self).wf(),
            old(self).blocks().contains_key(parent),
            old(self).blocks()[parent].height < u64::MAX,
        ensures
            final(self).wf(),
            final(self).best() == old(self).best(),
            final(self).queries() == old(self).queries(),
            final(self).blocks().contains_key(r),
            r == block_id_of(BlockModel {
                parent,
                height: (old(self).blocks()[parent].height + 1) as u64,
                transactions: transactions@.map_values(|t: Transaction| t@),
            }),
            old(self).blocks().contains_key(r) ==> final(self).blocks() == old(self).blocks(),
            !old(self).blocks().contains_key(r) ==> final(self).blocks() == old(self).blocks().insert(
                r,
                BlockModel {
                    parent,
                    height: (old(self).blocks()[parent].height + 1) as u64,
                    transactions: transactions@.map_values(|t: Transaction| t@),
                },
            ),
    {
        let height = match self.blocks.get(&parent) {
            Some(p) => p.height + 1,
            None => 1,
        };
        let b = Block { parent, height, transactions };
        let id = b.id();
        if !self.blocks.contains_key(&id) {
            proof {
                assert(id != genesis_id());
            }
            self.blocks.insert(id, b);
            assert(self.blocks() =~= old(self).blocks().insert(id, b@));
        }
        id
    }

    /// Add a block as `add_block` does and make it the best tip.
    pub fn add_block_as_best(&mut self, parent: BlockId, transactions: Vec<Transaction>) -> (r: BlockId)
        requires
            old(self).wf(),
            old(self).blocks().contains_key(parent),
            old(self).blocks()[parent].height < u64::MAX,
        ensures
            final(self).wf(),
            final(self).best() == r,
            final(self).queries() == old(self).queries(),
            final(self).blocks().contains_key(r),
            r == block_id_of(BlockModel {
                parent,
                height: (old(self).blocks()[parent].height + 1) as u64,
                transactions: transactions@.map_values(|t: Transaction| t@),
            }),
            old(self).blocks().contains_key(r) ==> final(self).blocks() == old(self).blocks(),
            !old(self).blocks().contains_key(r) ==> final(self).blocks() == old(self).blocks().insert(
                r,
                BlockModel {
                    parent,
                    height: (old(self).blocks()[parent].height + 1) as u64,
                    transactions: transactions@.map_values(|t: Transaction| t@),
                },
            ),
    {
        let id = self.add_block(parent, transactions);
        self.best = id;
        id
    }

    /// Make a known block the best tip.
    pub fn set_best(&mut self, id: BlockId)
        requires
            old(self).wf(),
            old(self).blocks().contains_key(id),
        ensures
            final(self).wf(),
            final(self).best() == id,
            final(self).blocks() == old(self).blocks(),
            final(self).queries() == old(self).queries(),
    {
        self.best = id;
    }

    /// How many queries the node has answered, capped at `u64::MAX`.
    pub fn how_many_queries(&self) -> (r: u64)
        ensures
            r == self.queries(),
    {
        self.queries
    }

    /// The block at `height` on the chain to the best tip, if the chain is that high.
    pub fn best_block_at_height(&self, height: u64) -> (r: Option<BlockId>)
        requires
            self.wf(),
        ensures
            ({
                let c = chain_to(self.blocks(), self.best());
                &&& height < c.len() ==> r == Some(c[height as int])
                &&& height >= c.len() ==> r is None
            }),
    {
        proof {
            lemma_chain_to(self.blocks(), self.best, self.best);
        }
        let ghost bs = self.blocks();
        let ghost c = chain_to(bs, self.best);
        let mut cur = self.best;
        let mut h = match self.blocks.get(&cur) {
            Some(b) => b.height,
            None => 0,
        };
        if height > h {
            return None;
        }
        while h > height
            invariant
                self.wf(),
                bs == self.blocks(),
                c == chain_to(bs, self.best),
                c.len() == bs[self.best].height + 1,
                is_path(bs, c),
                height <= h < c.len(),
                cur == c[h as int],
            decreases h,
        {
            assert(bs.contains_key(c[h as int]));
            cur = match self.blocks.get(&cur) {
                Some(b) => b.parent,
                None => cur,
            };
            h = h - 1;
        }
        Some(cur)
    }
}

} // verus!
