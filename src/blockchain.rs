use std::collections::HashMap;
use vstd::prelude::*;

use crate::block::{
    block_hash, genesis_view, meets_difficulty, Address, Block, BlockHash, BlockTransaction,
    BlockView, TxView,
};
use crate::constants::{COINS_PER_MINED_BLOCK, MINING_DIFFICULTY};

verus! {

broadcast use vstd::std_specs::hash::group_hash_axioms;

/// The balance of `a` in a balance map: absent addresses hold nothing.
pub open spec fn bal(m: Map<u64, u64>, a: Address) -> u64 {
    if m.contains_key(a.0) {
        m[a.0]
    } else {
        0
    }
}

/// Sets the balance of `a`; a zero balance is stored as an absent entry.
pub open spec fn set_bal(m: Map<u64, u64>, a: Address, v: u64) -> Map<u64, u64> {
    if v == 0 {
        m.remove(a.0)
    } else {
        m.insert(a.0, v)
    }
}

/// A balance map in canonical form: no entry holds zero.
pub open spec fn canonical(m: Map<u64, u64>) -> bool {
    forall|k: u64| #[trigger] m.contains_key(k) ==> m[k] != 0
}

/// Applies one transaction: the sender must hold the amount, and the receiver's new balance must
/// fit in a `u64`.
pub open spec fn apply_tx(m: Map<u64, u64>, t: TxView) -> Option<Map<u64, u64>> {
    let s = t.info.sender;
    let r = t.info.receiver;
    let amount = t.info.amount;
    if bal(m, s) < amount {
        None
    } else {
        let m1 = set_bal(m, s, (bal(m, s) - amount) as u64);
        if bal(m1, r) + amount > u64::MAX {
            None
        } else {
            Some(set_bal(m1, r, (bal(m1, r) + amount) as u64))
        }
    }
}

/// Applies transactions in order; `None` when one of them does not apply.
pub open spec fn apply_txs(m: Map<u64, u64>, txs: Seq<TxView>) -> Option<Map<u64, u64>>
    decreases txs.len(),
{
    if txs.len() == 0 {
        Some(m)
    } else {
        match apply_txs(m, txs.drop_last()) {
            Some(m1) => apply_tx(m1, txs.last()),
            None => None,
        }
    }
}

/// Credits the mining reward to `miner`, if the new balance fits in a `u64`.
pub open spec fn apply_reward(m: Map<u64, u64>, miner: Address) -> Option<Map<u64, u64>> {
    if bal(m, miner) + COINS_PER_MINED_BLOCK > u64::MAX {
        None
    } else {
        Some(set_bal(m, miner, (bal(m, miner) + COINS_PER_MINED_BLOCK) as u64))
    }
}

/// Applies a block: its transactions in order, then the miner's reward.
pub open spec fn apply_block(m: Map<u64, u64>, b: BlockView) -> Option<Map<u64, u64>> {
    match apply_txs(m, b.transactions) {
        Some(m1) => apply_reward(m1, b.miner),
        None => None,
    }
}

/// The balances after applying every block but the first (genesis).
pub open spec fn balances_after(blocks: Seq<BlockView>) -> Option<Map<u64, u64>>
    decreases blocks.len(),
{
    if blocks.len() <= 1 {
        Some(Map::empty())
    } else {
        match balances_after(blocks.drop_last()) {
            Some(m) => apply_block(m, blocks.last()),
            None => None,
        }
    }
}

/// The transaction ids of a block are pairwise distinct.
pub open spec fn ids_distinct(txs: Seq<TxView>) -> bool {
    forall|i: int, j: int| 0 <= i < j < txs.len() ==> txs[i].id != txs[j].id
}

/// Every transaction of a block is bound to the block's own prefix.
pub open spec fn txs_bound(b: BlockView) -> bool {
    forall|i: int| 0 <= i < b.transactions.len() ==> (#[trigger] b.transactions[i]).prefix_hash
        == b.prefix_hash
}

/// `b` may follow the block whose hash is `prev`, ignoring balances.
pub open spec fn block_fits(prev: Seq<u8>, b: BlockView, difficulty: u32) -> bool {
    &&& b.prefix_hash == prev
    &&& meets_difficulty(b, difficulty)
    &&& ids_distinct(b.transactions)
    &&& txs_bound(b)
}

/// The block at position `i` may follow the one before it.
pub open spec fn linked_at(blocks: Seq<BlockView>, i: int, difficulty: u32) -> bool {
    block_fits(block_hash(blocks[i - 1]), blocks[i], difficulty)
}

/// A chain of blocks is valid: it starts at genesis, each block follows its predecessor, and
/// every block's transactions apply to the balances left by the blocks before it.
pub open spec fn valid_chain(blocks: Seq<BlockView>, difficulty: u32) -> bool {
    &&& blocks.len() >= 1
    &&& blocks[0] == genesis_view()
    &&& forall|i: int| 1 <= i < blocks.len() ==> #[trigger] linked_at(blocks, i, difficulty)
    &&& balances_after(blocks) is Some
}

/// What a chain holds, as plain values.
pub struct ChainView {
    /// The blocks, genesis first.
    pub blocks: Seq<BlockView>,
    /// The balance of each address with a nonzero balance.
    pub balance: Map<u64, u64>,
    /// How many leading zero bits each block's hash must have.
    pub difficulty: u32,
}

impl ChainView {
    pub open spec fn len(self) -> nat {
        self.blocks.len()
    }

    pub open spec fn hash_at(self, i: int) -> Seq<u8> {
        block_hash(self.blocks[i])
    }

    pub open spec fn last_hash(self) -> Seq<u8> {
        block_hash(self.blocks.last())
    }

    pub open spec fn contains(self, h: Seq<u8>) -> bool {
        exists|i: int| 0 <= i < self.blocks.len() && self.hash_at(i) == h
    }

    /// The chain is valid and its balances are those its blocks produce.
    pub open spec fn wf(self) -> bool {
        &&& valid_chain(self.blocks, self.difficulty)
        &&& self.balance == balances_after(self.blocks)->Some_0
    }

    /// `b` may be appended to this chain.
    pub open spec fn accepts(self, b: BlockView) -> bool {
        &&& block_fits(self.last_hash(), b, self.difficulty)
        &&& apply_block(self.balance, b) is Some
    }

    /// This chain with `b` appended.
    pub open spec fn push(self, b: BlockView) -> ChainView {
        ChainView {
            blocks: self.blocks.push(b),
            balance: apply_block(self.balance, b)->Some_0,
            difficulty: self.difficulty,
        }
    }

    /// This chain cut back to its first `n` blocks.
    pub open spec fn take(self, n: int) -> ChainView {
        ChainView {
            blocks: self.blocks.take(n),
            balance: balances_after(self.blocks.take(n))->Some_0,
            difficulty: self.difficulty,
        }
    }
}

/// The chain a node keeps: blocks in order from genesis, and the balance index they produce.
#[derive(Debug)]
pub struct BlockChain {
    chain: Vec<BlockHash>,
    blocks: Vec<Block>,
    balance: HashMap<u64, u64>,
    difficulty: u32,
}

impl View for BlockChain {
    type V = ChainView;

    closed spec fn view(&self) -> ChainView {
        ChainView {
            blocks: self.blocks@.map_values(|b: Block| b@),
            balance: self.balance@,
            difficulty: self.difficulty,
        }
    }
}

// ---- Lemmas on balance maps ----

proof fn lemma_bal_set(m: Map<u64, u64>, a: Address, v: u64, b: Address)
    ensures
        bal(set_bal(m, a, v), b) == if a.0 == b.0 { v } else { bal(m, b) },
{
}

proof fn lemma_set_canonical(m: Map<u64, u64>, a: Address, v: u64)
    requires
        canonical(m),
    ensures
        canonical(set_bal(m, a, v)),
{
}

proof fn lemma_set_set(m: Map<u64, u64>, a: Address, v: u64, w: u64)
    ensures
        set_bal(set_bal(m, a, v), a, w) == set_bal(m, a, w),
{
    assert(set_bal(set_bal(m, a, v), a, w) =~= set_bal(m, a, w));
}

proof fn lemma_set_same(m: Map<u64, u64>, a: Address)
    requires
        canonical(m),
    ensures
        set_bal(m, a, bal(m, a)) == m,
{
    assert(set_bal(m, a, bal(m, a)) =~= m);
}

proof fn lemma_apply_tx_canonical(m: Map<u64, u64>, t: TxView)
    requires
        canonical(m),
        apply_tx(m, t) is Some,
    ensures
        canonical(apply_tx(m, t)->Some_0),
{
    let s = t.info.sender;
    let m1 = set_bal(m, s, (bal(m, s) - t.info.amount) as u64);
    lemma_set_canonical(m, s, (bal(m, s) - t.info.amount) as u64);
    lemma_set_canonical(m1, t.info.receiver, (bal(m1, t.info.receiver) + t.info.amount) as u64);
}

proof fn lemma_apply_txs_canonical(m: Map<u64, u64>, txs: Seq<TxView>)
    requires
        canonical(m),
        apply_txs(m, txs) is Some,
    ensures
        canonical(apply_txs(m, txs)->Some_0),
    decreases txs.len(),
{
    if txs.len() > 0 {
        lemma_apply_txs_canonical(m, txs.drop_last());
        lemma_apply_tx_canonical(apply_txs(m, txs.drop_last())->Some_0, txs.last());
    }
}

proof fn lemma_apply_block_canonical(m: Map<u64, u64>, b: BlockView)
    requires
        canonical(m),
        apply_block(m, b) is Some,
    ensures
        canonical(apply_block(m, b)->Some_0),
{
    lemma_apply_txs_canonical(m, b.transactions);
    let m1 = apply_txs(m, b.transactions)->Some_0;
    lemma_set_canonical(m1, b.miner, (bal(m1, b.miner) + COINS_PER_MINED_BLOCK) as u64);
}

proof fn lemma_balances_canonical(blocks: Seq<BlockView>)
    requires
        balances_after(blocks) is Some,
    ensures
        canonical(balances_after(blocks)->Some_0),
    decreases blocks.len(),
{
    if blocks.len() > 1 {
        lemma_balances_canonical(blocks.drop_last());
        lemma_apply_block_canonical(balances_after(blocks.drop_last())->Some_0, blocks.last());
    }
}

/// Undoing a transaction: debiting the receiver and crediting the sender restores the balances
/// from before it, and neither step overflows.
proof fn lemma_undo_tx(m: Map<u64, u64>, t: TxView)
    requires
        canonical(m),
        apply_tx(m, t) is Some,
    ensures
        ({
            let m2 = apply_tx(m, t)->Some_0;
            let r = t.info.receiver;
            let s = t.info.sender;
            let m3 = set_bal(m2, r, (bal(m2, r) - t.info.amount) as u64);
            &&& bal(m2, r) >= t.info.amount
            &&& bal(m3, s) + t.info.amount <= u64::MAX
            &&& set_bal(m3, s, (bal(m3, s) + t.info.amount) as u64) == m
        }),
{
    let s = t.info.sender;
    let r = t.info.receiver;
    let amount = t.info.amount;
    let m1 = set_bal(m, s, (bal(m, s) - amount) as u64);
    let m2 = set_bal(m1, r, (bal(m1, r) + amount) as u64);
    lemma_bal_set(m1, r, (bal(m1, r) + amount) as u64, r);
    let m3 = set_bal(m2, r, (bal(m2, r) - amount) as u64);
    lemma_set_set(m1, r, (bal(m1, r) + amount) as u64, bal(m1, r));
    lemma_set_canonical(m, s, (bal(m, s) - amount) as u64);
    lemma_set_same(m1, r);
    assert(m3 == m1);
    lemma_bal_set(m, s, (bal(m, s) - amount) as u64, s);
    lemma_set_set(m, s, (bal(m, s) - amount) as u64, bal(m, s));
    lemma_set_same(m, s);
}

proof fn lemma_apply_txs_prefix(m: Map<u64, u64>, txs: Seq<TxView>, i: int)
    requires
        0 <= i <= txs.len(),
        apply_txs(m, txs) is Some,
    ensures
        apply_txs(m, txs.take(i)) is Some,
    decreases txs.len(),
{
    if i < txs.len() {
        lemma_apply_txs_prefix(m, txs.drop_last(), i);
        assert(txs.drop_last().take(i) =~= txs.take(i));
    } else {
        assert(txs.take(i) =~= txs);
    }
}

proof fn lemma_balances_prefix(blocks: Seq<BlockView>, n: int)
    requires
        1 <= n <= blocks.len(),
        balances_after(blocks) is Some,
    ensures
        balances_after(blocks.take(n)) is Some,
    decreases blocks.len(),
{
    if n < blocks.len() {
        lemma_balances_prefix(blocks.drop_last(), n);
        assert(blocks.drop_last().take(n) =~= blocks.take(n));
    } else {
        assert(blocks.take(n) =~= blocks);
    }
}

/// A prefix of a valid chain, of at least the genesis block, is valid.
proof fn lemma_valid_prefix(blocks: Seq<BlockView>, difficulty: u32, n: int)
    requires
        valid_chain(blocks, difficulty),
        1 <= n <= blocks.len(),
    ensures
        valid_chain(blocks.take(n), difficulty),
{
    lemma_balances_prefix(blocks, n);
    let p = blocks.take(n);
    assert forall|i: int| 1 <= i < p.len() implies #[trigger] linked_at(p, i, difficulty) by {
        assert(linked_at(blocks, i, difficulty));
        assert(p[i - 1] == blocks[i - 1]);
        assert(p[i] == blocks[i]);
    }
}

// ---- Executable helpers on the balance index ----

pub(crate) fn get_bal(m: &HashMap<u64, u64>, a: Address) -> (r: u64)
    ensures
        r == bal(m@, a),
{
    match m.get(&a.0) {
        Some(v) => *v,
        None => 0,
    }
}

pub(crate) fn put_bal(m: &mut HashMap<u64, u64>, a: Address, v: u64)
    ensures
        final(m)@ == set_bal(old(m)@, a, v),
{
    if v == 0 {
        m.remove(&a.0);
    } else {
        m.insert(a.0, v);
    }
}

/// Applies one transaction to `m`; on `false` the map is left in an unspecified state.
pub(crate) fn apply_tx_to(m: &mut HashMap<u64, u64>, t: &BlockTransaction) -> (ok: bool)
    ensures
        ok == apply_tx(old(m)@, t@) is Some,
        ok ==> final(m)@ == apply_tx(old(m)@, t@)->Some_0,
{
    let s = t.info.sender;
    let r = t.info.receiver;
    let amount = t.info.amount;
    let sb = get_bal(m, s);
    if sb < amount {
        return false;
    }
    put_bal(m, s, sb - amount);
    let rb = get_bal(m, r);
    if rb > u64::MAX - amount {
        return false;
    }
    put_bal(m, r, rb + amount);
    true
}

/// Applies a block's transactions and reward to `m`; on `false` the map is left in an
/// unspecified state.
fn apply_block_to(m: &mut HashMap<u64, u64>, b: &Block) -> (ok: bool)
    ensures
        ok == apply_block(old(m)@, b@) is Some,
        ok ==> final(m)@ == apply_block(old(m)@, b@)->Some_0,
{
    let ghost start = m@;
    let ghost txs = b@.transactions;
    let mut i: usize = 0;
    while i < b.transactions.len()
        invariant
            txs == b@.transactions,
            start == old(m)@,
            0 <= i <= txs.len(),
            apply_txs(start, txs.take(i as int)) == Some(m@),
        decreases txs.len() - i,
    {
        let ghost cur = m@;
        proof {
            assert(txs.take(i + 1).drop_last() =~= txs.take(i as int));
            assert(txs.take(i + 1).last() == b.transactions@[i as int]@);
            assert(apply_txs(start, txs.take(i + 1)) == apply_tx(cur, b.transactions@[i as int]@));
        }
        if !apply_tx_to(m, &b.transactions[i]) {
            proof {
                if apply_txs(start, txs) is Some {
                    lemma_apply_txs_prefix(start, txs, i + 1);
                }
            }
            return false;
        }
        i += 1;
    }
    assert(txs.take(txs.len() as int) =~= txs);
    let mb = get_bal(m, b.miner);
    if mb > u64::MAX - COINS_PER_MINED_BLOCK {
        return false;
    }
    put_bal(m, b.miner, mb + COINS_PER_MINED_BLOCK);
    true
}

/// Undoes a block's effect on the balances: takes back the reward, then undoes the
/// transactions, last first.
fn undo_block(m: &mut HashMap<u64, u64>, block: &Block, Ghost(m0): Ghost<Map<u64, u64>>)
    requires
        canonical(m0),
        apply_block(m0, block@) == Some(old(m)@),
    ensures
        final(m)@ == m0,
{
    let ghost txs = block@.transactions;
    let ghost mt = apply_txs(m0, txs)->Some_0;
    let ghost miner = block.miner;
    proof {
        lemma_apply_txs_canonical(m0, txs);
        lemma_bal_set(mt, miner, (bal(mt, miner) + COINS_PER_MINED_BLOCK) as u64, miner);
        lemma_set_set(mt, miner, (bal(mt, miner) + COINS_PER_MINED_BLOCK) as u64, bal(mt, miner));
        lemma_set_same(mt, miner);
    }
    let mb = get_bal(m, block.miner);
    put_bal(m, block.miner, mb - COINS_PER_MINED_BLOCK);
    assert(txs.take(txs.len() as int) =~= txs);
    let mut i: usize = block.transactions.len();
    while i > 0
        invariant
            txs == block@.transactions,
            canonical(m0),
            apply_txs(m0, txs) is Some,
            0 <= i <= txs.len(),
            apply_txs(m0, txs.take(i as int)) == Some(m@),
        decreases i,
    {
        let t = &block.transactions[i - 1];
        let ghost prev = apply_txs(m0, txs.take(i - 1))->Some_0;
        proof {
            lemma_apply_txs_prefix(m0, txs, i - 1);
            lemma_apply_txs_canonical(m0, txs.take(i - 1));
            assert(txs.take(i as int).drop_last() =~= txs.take(i - 1));
            assert(txs.take(i as int).last() == t@);
            lemma_undo_tx(prev, t@);
        }
        let rb = get_bal(m, t.info.receiver);
        put_bal(m, t.info.receiver, rb - t.info.amount);
        let sb = get_bal(m, t.info.sender);
        put_bal(m, t.info.sender, sb + t.info.amount);
        i -= 1;
    }
    assert(txs.take(0) =~= Seq::<TxView>::empty());
}

/// Checks that the transaction ids of a block are pairwise distinct.
fn distinct_ids(txs: &Vec<BlockTransaction>) -> (r: bool)
    ensures
        r == ids_distinct(txs@.map_values(|t: BlockTransaction| t@)),
{
    let ghost v = txs@.map_values(|t: BlockTransaction| t@);
    let mut j: usize = 0;
    while j < txs.len()
        invariant
            v == txs@.map_values(|t: BlockTransaction| t@),
            0 <= j <= txs@.len(),
            forall|a: int, b: int| 0 <= a < b < j ==> v[a].id != v[b].id,
        decreases txs@.len() - j,
    {
        let mut i: usize = 0;
        while i < j
            invariant
                v == txs@.map_values(|t: BlockTransaction| t@),
                0 <= i <= j < txs@.len(),
                forall|a: int, b: int| 0 <= a < b < j ==> v[a].id != v[b].id,
                forall|a: int| 0 <= a < i ==> v[a].id != v[j as int].id,
            decreases j - i,
        {
            assert(v[i as int] == txs@[i as int]@);
            assert(v[j as int] == txs@[j as int]@);
            if txs[i].id.0 == txs[j].id.0 {
                return false;
            }
            i += 1;
        }
        j += 1;
    }
    true
}

/// Checks that every transaction of a block is bound to the block's prefix.
fn all_bound(b: &Block) -> (r: bool)
    ensures
        r == txs_bound(b@),
{
    let mut i: usize = 0;
    while i < b.transactions.len()
        invariant
            0 <= i <= b.transactions@.len(),
            forall|j: int| 0 <= j < i ==> (#[trigger] b@.transactions[j]).prefix_hash == b@.prefix_hash,
        decreases b.transactions@.len() - i,
    {
        if b.transactions[i].prefix_hash != b.prefix_hash {
            assert(b@.transactions[i as int].prefix_hash != b@.prefix_hash);
            return false;
        }
        i += 1;
    }
    true
}

impl Clone for BlockChain {
    fn clone(&self) -> (r: Self)
        ensures
            r@ == self@,
            self.inv() ==> r.inv(),
    {
        let mut chain: Vec<BlockHash> = Vec::new();
        let mut i: usize = 0;
        while i < self.chain.len()
            invariant
                0 <= i <= self.chain@.len(),
                chain@.len() == i,
                forall|j: int| 0 <= j < i ==> (#[trigger] chain@[j])@ == self.chain@[j]@,
            decreases self.chain@.len() - i,
        {
            chain.push(self.chain[i].clone());
            i += 1;
        }
        let mut blocks: Vec<Block> = Vec::new();
        let mut i: usize = 0;
        while i < self.blocks.len()
            invariant
                chain@.len() == self.chain@.len(),
                forall|j: int| 0 <= j < chain@.len() ==> (#[trigger] chain@[j])@ == self.chain@[j]@,
                0 <= i <= self.blocks@.len(),
                blocks@.len() == i,
                forall|j: int| 0 <= j < i ==> (#[trigger] blocks@[j])@ == self.blocks@[j]@,
            decreases self.blocks@.len() - i,
        {
            blocks.push(self.blocks[i].clone());
            i += 1;
        }
        let r = BlockChain { chain, blocks, balance: self.balance.clone(), difficulty: self.difficulty };
        assert(r@.blocks =~= self@.blocks);
        proof {
            if self.inv() {
                assert forall|i: int| 0 <= i < r.chain@.len() implies (#[trigger] r.chain@[i])@
                    == block_hash(r.blocks@[i]@) by {
                    assert(r.chain@[i]@ == self.chain@[i]@);
                    assert(r.blocks@[i]@ == self.blocks@[i]@);
                }
            }
        }
        r
    }
}

impl BlockChain {
    /// The stored hashes are those of the stored blocks.
    pub closed spec fn inv(&self) -> bool {
        &&& self.chain@.len() == self.blocks@.len()
        &&& forall|i: int| 0 <= i < self.chain@.len() ==> (#[trigger] self.chain@[i])@ == block_hash(self.blocks@[i]@)
    }

    /// The chain is well formed: valid, with the balances its blocks produce.
    pub open spec fn wf(&self) -> bool {
        &&& self.inv()
        &&& self@.wf()
    }

    /// A chain holding only the genesis block, at the standard mining difficulty.
    pub fn new() -> (r: Self)
        ensures
            r.wf(),
            r@.blocks == seq![genesis_view()],
            r@.balance == Map::<u64, u64>::empty(),
            r@.difficulty == MINING_DIFFICULTY,
    {
        Self::with_difficulty(MINING_DIFFICULTY)
    }

    /// A chain holding only the genesis block, whose blocks must have `difficulty` leading zero
    /// bits.
    pub fn with_difficulty(difficulty: u32) -> (r: Self)
        ensures
            r.wf(),
            r@.blocks == seq![genesis_view()],
            r@.balance == Map::<u64, u64>::empty(),
            r@.difficulty == difficulty,
    {
        let genesis = Block::genesis();
        let h = genesis.hash();
        let mut chain: Vec<BlockHash> = Vec::new();
        chain.push(h);
        let mut blocks: Vec<Block> = Vec::new();
        blocks.push(genesis);
        let r = BlockChain { chain, blocks, balance: HashMap::new(), difficulty };
        assert(r@.blocks =~= seq![genesis_view()]);
        r
    }

    /// The number of blocks, genesis included.
    pub fn len(&self) -> (r: usize)
        requires
            self.wf(),
        ensures
            r == self@.len(),
    {
        self.blocks.len()
    }

    /// How many leading zero bits the chain asks of each block's hash.
    pub fn difficulty(&self) -> (r: u32)
        ensures
            r == self@.difficulty,
    {
        self.difficulty
    }

    fn find(&self, block_hash: &BlockHash) -> (r: Option<usize>)
        requires
            self.wf(),
        ensures
            match r {
                Some(i) => i < self@.len() && self@.hash_at(i as int) == block_hash@,
                None => !self@.contains(block_hash@),
            },
    {
        let mut i: usize = 0;
        while i < self.chain.len()
            invariant
                self.wf(),
                0 <= i <= self@.len(),
                forall|j: int| 0 <= j < i ==> self@.hash_at(j) != block_hash@,
            decreases self@.len() - i,
        {
            if self.chain[i] == *block_hash {
                return Some(i);
            }
            i += 1;
        }
        None
    }

    /// Whether a block with this hash is in the chain.
    pub fn contains(&self, block_hash: &BlockHash) -> (r: bool)
        requires
            self.wf(),
        ensures
            r == self@.contains(block_hash@),
    {
        self.find(block_hash).is_some()
    }

    /// The block of the chain with this hash, if any.
    pub fn get_block(&self, block_hash: &BlockHash) -> (r: Option<&Block>)
        requires
            self.wf(),
        ensures
            match r {
                Some(b) => exists|i: int|
                    0 <= i < self@.len() && self@.hash_at(i) == block_hash@ && b@ == self@.blocks[i],
                None => !self@.contains(block_hash@),
            },
    {
        match self.find(block_hash) {
            Some(i) => Some(&self.blocks[i]),
            None => None,
        }
    }

    /// The hash of the last block.
    pub fn last_hash(&self) -> (r: &BlockHash)
        requires
            self.wf(),
        ensures
            r@ == self@.last_hash(),
    {
        &self.chain[self.chain.len() - 1]
    }

    /// The last block.
    pub fn last_block(&self) -> (r: &Block)
        requires
            self.wf(),
        ensures
            r@ == self@.blocks.last(),
    {
        &self.blocks[self.blocks.len() - 1]
    }

    /// The balance of every address whose balance is not zero, keyed by the address's id.
    pub fn balance(&self) -> (r: &HashMap<u64, u64>)
        ensures
            r@ == self@.balance,
    {
        &self.balance
    }

    /// The balance of an address.
    pub fn balance_of(&self, address: Address) -> (r: u64)
        ensures
            r == bal(self@.balance, address),
    {
        get_bal(&self.balance, address)
    }

    /// Appends a block to the blockchain. Returns an error if adding the block would make the
    /// blockchain invalid (wrong prefix, too few leading zero bits, duplicate transaction ids,
    /// a transaction bound to another prefix, or a sender without the funds); the chain is then
    /// unchanged.
    pub fn append_block(&mut self, block: Block) -> (r: Result<(), ()>)
        requires
            old(self).wf(),
        ensures
            final(self).wf(),
            r is Ok <==> old(self)@.accepts(block@),
            r is Ok ==> final(self)@ == old(self)@.push(block@),
            r is Ok ==> meets_difficulty(block@, old(self)@.difficulty),
            final(self)@.blocks[0] == genesis_view(),
            final(self)@.difficulty == old(self)@.difficulty,
            r is Err ==> final(self)@ == old(self)@,
    {
        let ghost b = block@;
        let ghost pre = self@;
        if block.prefix_hash != *self.last_hash() {
            return Err(());
        }
        if !block.meets_difficulty(self.difficulty) {
            return Err(());
        }
        if !distinct_ids(&block.transactions) {
            return Err(());
        }
        if !all_bound(&block) {
            return Err(());
        }
        let mut m = self.balance.clone();
        if !apply_block_to(&mut m, &block) {
            return Err(());
        }
        let h = block.hash();
        self.balance = m;
        self.chain.push(h);
        self.blocks.push(block);
        proof {
            let nb = self@.blocks;
            assert(nb =~= pre.blocks.push(b));
            assert(nb.drop_last() =~= pre.blocks);
            assert forall|i: int| 1 <= i < nb.len() implies #[trigger] linked_at(nb, i, self.difficulty) by {
                if i < nb.len() - 1 {
                    assert(linked_at(pre.blocks, i, self.difficulty));
                    assert(nb[i] == pre.blocks[i]);
                    assert(nb[i - 1] == pre.blocks[i - 1]);
                }
            }
            assert forall|i: int| 0 <= i < self.chain@.len() implies (#[trigger] self.chain@[i])@
                == block_hash(self.blocks@[i]@) by {
                if i < self.chain@.len() - 1 {
                    assert(self.chain@[i] == old(self).chain@[i]);
                    assert(self.blocks@[i] == old(self).blocks@[i]);
                }
            }
        }
        Ok(())
    }

    /// Pops the last block, unless it is the genesis block, and undoes its effect on the
    /// balances exactly.
    pub fn pop_block(&mut self) -> (r: Option<Block>)
        requires
            old(self).wf(),
        ensures
            final(self).wf(),
            old(self)@.len() == 1 ==> r is None && final(self)@ == old(self)@,
            final(self)@.blocks[0] == genesis_view(),
            final(self)@.difficulty == old(self)@.difficulty,
            old(self)@.len() > 1 ==> r is Some && r->Some_0@ == old(self)@.blocks.last()
                && final(self)@ == old(self)@.take(old(self)@.len() - 1),
    {
        if self.blocks.len() == 1 {
            return None;
        }
        let ghost pre = self@;
        let ghost rest = pre.blocks.drop_last();
        proof {
            assert(pre.blocks.take(pre.len() - 1) =~= rest);
            lemma_balances_canonical(rest);
            lemma_valid_prefix(pre.blocks, pre.difficulty, pre.len() - 1);
        }
        let _ = self.chain.pop();
        let block = self.blocks.pop().unwrap();
        undo_block(&mut self.balance, &block, Ghost(balances_after(rest)->Some_0));
        proof {
            assert(self@.blocks =~= rest);
            assert forall|i: int| 0 <= i < self.chain@.len() implies (#[trigger] self.chain@[i])@
                == block_hash(self.blocks@[i]@) by {
                assert(self.chain@[i] == old(self).chain@[i]);
                assert(self.blocks@[i] == old(self).blocks@[i]);
            }
        }
        Some(block)
    }

    /// The position of the last block with this hash.
    fn find_last(&self, block_hash: &BlockHash) -> (k: usize)
        requires
            self.wf(),
            self@.contains(block_hash@),
        ensures
            k < self@.len(),
            self@.hash_at(k as int) == block_hash@,
            forall|j: int| k < j < self@.len() ==> self@.hash_at(j) != block_hash@,
    {
        let mut i: usize = self.chain.len();
        while i > 0
            invariant
                self.wf(),
                self@.contains(block_hash@),
                0 <= i <= self@.len(),
                forall|j: int| i <= j < self@.len() ==> self@.hash_at(j) != block_hash@,
            decreases i,
        {
            if self.chain[i - 1] == *block_hash {
                return i - 1;
            }
            i -= 1;
        }
        proof {
            let k = choose|k: int| 0 <= k < self@.len() && self@.hash_at(k) == block_hash@;
            assert(self@.hash_at(k) != block_hash@);
        }
        0
    }

    /// Pops blocks until the block with the given hash is the latest.
    #[verifier::rlimit(40)]
    pub fn pop_until(&mut self, block_hash: &BlockHash)
        requires
            old(self).wf(),
            old(self)@.contains(block_hash@),
        ensures
            final(self).wf(),
            exists|k: int| old(self)@.is_last_pos(block_hash@, k) && final(self)@ == old(self)@.take(k + 1),
    {
        let ghost pre = self@;
        let k = self.find_last(block_hash);
        proof {
            assert(pre.blocks.take(pre.len() as int) =~= pre.blocks);
        }
        while self.blocks.len() > k + 1
            invariant
                self.wf(),
                k < self@.len() <= pre.len(),
                self@ == pre.take(self@.len() as int),
            decreases self@.len(),
        {
            let ghost n = self@.len();
            let _ = self.pop_block();
            proof {
                assert(pre.blocks.take(n as int).take(n - 1) =~= pre.blocks.take(n - 1));
            }
        }
        assert(self@ == pre.take(k + 1));
        assert(pre.is_last_pos(block_hash@, k as int));
    }

    /// A copy of this chain, popped back to the last block with hash `needle`, and that
    /// block's position.
    pub fn popped_to(&self, needle: &BlockHash) -> (r: (BlockChain, usize))
        requires
            self.wf(),
            self@.contains(needle@),
        ensures
            r.0.wf(),
            self@.is_last_pos(needle@, r.1 as int),
            r.0@ == self@.take(r.1 + 1),
    {
        let k = self.find_last(needle);
        let mut copy = self.clone();
        copy.pop_until(needle);
        proof {
            assert(self@.is_last_pos(needle@, k as int));
            assert forall|k2: int| self@.is_last_pos(needle@, k2) implies k2 == k by {
                self@.lemma_last_pos_unique(needle@, k as int, k2);
            }
        }
        (copy, k)
    }

    /// Appends a list of block to the blockchain, in order, stopping at the first block that
    /// cannot be appended. Returns an error if there was one; the blocks before it stay appended.
    pub fn append_blocks(&mut self, blocks: Vec<Block>) -> (r: Result<(), ()>)
        requires
            old(self).wf(),
        ensures
            final(self).wf(),
            exists|k: int|
                #![trigger blocks@.take(k)]
                0 <= k <= blocks@.len() && final(self)@ == old(self)@.extend(
                    blocks@.take(k).map_values(|b: Block| b@),
                ) && (r is Ok <==> k == blocks@.len()) && (r is Err ==> !final(self)@.accepts(
                    blocks@[k]@,
                )),
            r is Ok <==> old(self)@.accepts_all(blocks@.map_values(|b: Block| b@)),
            r is Ok ==> final(self)@ == old(self)@.extend(blocks@.map_values(|b: Block| b@)),
    {
        let ghost pre = self@;
        let mut i: usize = 0;
        proof {
            reveal(ChainView::accepts_all);
            assert(blocks@.take(0).map_values(|b: Block| b@) =~= Seq::<BlockView>::empty());
            assert(pre.accepts_all(Seq::<BlockView>::empty()));
        }
        while i < blocks.len()
            invariant
                self.wf(),
                pre == old(self)@,
                0 <= i <= blocks@.len(),
                self@ == pre.extend(blocks@.take(i as int).map_values(|b: Block| b@)),
                pre.accepts_all(blocks@.take(i as int).map_values(|b: Block| b@)),
            decreases blocks@.len() - i,
        {
            let ghost cur = self@;
            let b = blocks[i].clone();
            assert(b@ == blocks@[i as int]@);
            if self.append_block(b).is_err() {
                proof {
                    reveal(ChainView::accepts_all);
                    assert(self@ == cur);
                    assert(!self@.accepts(blocks@[i as int]@));
                    assert(self@ == pre.extend(blocks@.take(i as int).map_values(|b: Block| b@)));
                    let all = blocks@.map_values(|b: Block| b@);
                    let next = blocks@.take(i + 1).map_values(|b: Block| b@);
                    assert(next.drop_last() =~= blocks@.take(i as int).map_values(|b: Block| b@));
                    assert(next =~= all.take(i + 1));
                    if pre.accepts_all(all) {
                        pre.lemma_accepts_all_prefix(all, i + 1);
                    }
                }
                return Err(());
            }
            proof {
                reveal(ChainView::accepts_all);
                let next = blocks@.take(i + 1).map_values(|b: Block| b@);
                assert(next.drop_last() =~= blocks@.take(i as int).map_values(|b: Block| b@));
                assert(blocks@.take(i + 1).map_values(|b: Block| b@) =~= blocks@.take(i as int).map_values(|b: Block| b@).push(blocks@[i as int]@));
                pre.lemma_extend_push(blocks@.take(i as int).map_values(|b: Block| b@), blocks@[i as int]@);
            }
            i += 1;
        }
        assert(blocks@.take(blocks@.len() as int) =~= blocks@);
        assert(blocks@.take(i as int).map_values(|b: Block| b@) =~= blocks@.map_values(|b: Block| b@));
        Ok(())
    }
}

impl ChainView {
    /// This chain with each of `bs` appended in turn.
    pub open spec fn extend(self, bs: Seq<BlockView>) -> ChainView
        decreases bs.len(),
    {
        if bs.len() == 0 {
            self
        } else {
            self.extend(bs.drop_last()).push(bs.last())
        }
    }

    /// Each of `bs` is accepted in turn by this chain extended with the ones before it.
    #[verifier::opaque]
    pub open spec fn accepts_all(self, bs: Seq<BlockView>) -> bool
        decreases bs.len(),
    {
        if bs.len() == 0 {
            true
        } else {
            self.accepts_all(bs.drop_last()) && self.extend(bs.drop_last()).accepts(bs.last())
        }
    }

    /// `k` is the position of the last block with hash `h`.
    pub open spec fn is_last_pos(self, h: Seq<u8>, k: int) -> bool {
        &&& 0 <= k < self.len()
        &&& self.hash_at(k) == h
        &&& forall|j: int| k < j < self.len() ==> self.hash_at(j) != h
    }

    pub proof fn lemma_last_pos_unique(self, h: Seq<u8>, k1: int, k2: int)
        requires
            self.is_last_pos(h, k1),
            self.is_last_pos(h, k2),
        ensures
            k1 == k2,
    {
        if k1 < k2 {
            assert(self.hash_at(k2) != h);
        }
        if k2 < k1 {
            assert(self.hash_at(k1) != h);
        }
    }

    pub proof fn lemma_extend_len(self, bs: Seq<BlockView>)
        ensures
            self.extend(bs).len() == self.len() + bs.len(),
        decreases bs.len(),
    {
        if bs.len() > 0 {
            self.lemma_extend_len(bs.drop_last());
        }
    }

    /// A well-formed chain taken to its full length is itself.
    pub proof fn lemma_take_all(self)
        requires
            self.wf(),
        ensures
            self.take(self.len() as int) == self,
    {
        assert(self.blocks.take(self.len() as int) =~= self.blocks);
    }

    /// Extending by one block is pushing it, and accepting all of one block is accepting it.
    pub proof fn lemma_extend_one(self, b: BlockView)
        ensures
            self.extend(seq![b]) == self.push(b),
            self.accepts_all(seq![b]) == self.accepts(b),
    {
        reveal(ChainView::accepts_all);
        reveal_with_fuel(ChainView::extend, 2);
        assert(seq![b].drop_last() =~= Seq::<BlockView>::empty());
        assert(seq![b].last() == b);
        assert(self.extend(Seq::<BlockView>::empty()) == self);
        assert(self.accepts_all(Seq::<BlockView>::empty()));
    }

    proof fn lemma_accepts_all_prefix(self, bs: Seq<BlockView>, n: int)
        requires
            0 <= n <= bs.len(),
            self.accepts_all(bs),
        ensures
            self.accepts_all(bs.take(n)),
        decreases bs.len(),
    {
        reveal(ChainView::accepts_all);
        if n < bs.len() {
            self.lemma_accepts_all_prefix(bs.drop_last(), n);
            assert(bs.drop_last().take(n) =~= bs.take(n));
        } else {
            assert(bs.take(n) =~= bs);
        }
    }

    proof fn lemma_extend_push(self, bs: Seq<BlockView>, b: BlockView)
        ensures
            self.extend(bs.push(b)) == self.extend(bs).push(b),
    {
        assert(bs.push(b).drop_last() =~= bs);
    }
}

// ---- Laws of the chain ----

/// How a transaction changes the balance of `a`: the receiver gains the amount, the sender
/// loses it.
pub open spec fn tx_flow(t: TxView, a: Address) -> int {
    (if t.info.receiver.0 == a.0 { t.info.amount as int } else { 0 }) - (if t.info.sender.0 == a.0 {
        t.info.amount as int
    } else {
        0
    })
}

/// How a list of transactions changes the balance of `a`.
pub open spec fn txs_flow(txs: Seq<TxView>, a: Address) -> int
    decreases txs.len(),
{
    if txs.len() == 0 {
        0
    } else {
        txs_flow(txs.drop_last(), a) + tx_flow(txs.last(), a)
    }
}

/// How a block changes the balance of `a`: its transactions, and the reward to its miner.
pub open spec fn block_flow(b: BlockView, a: Address) -> int {
    txs_flow(b.transactions, a) + if b.miner.0 == a.0 {
        COINS_PER_MINED_BLOCK as int
    } else {
        0
    }
}

/// The credits minus the debits of `a` over every block but the first (genesis).
pub open spec fn net_flow(blocks: Seq<BlockView>, a: Address) -> int
    decreases blocks.len(),
{
    if blocks.len() <= 1 {
        0
    } else {
        net_flow(blocks.drop_last(), a) + block_flow(blocks.last(), a)
    }
}

proof fn lemma_tx_flow(m: Map<u64, u64>, t: TxView, a: Address)
    requires
        apply_tx(m, t) is Some,
    ensures
        bal(apply_tx(m, t)->Some_0, a) == bal(m, a) + tx_flow(t, a),
{
    let s = t.info.sender;
    let r = t.info.receiver;
    let m1 = set_bal(m, s, (bal(m, s) - t.info.amount) as u64);
    lemma_bal_set(m, s, (bal(m, s) - t.info.amount) as u64, a);
    lemma_bal_set(m, s, (bal(m, s) - t.info.amount) as u64, r);
    lemma_bal_set(m1, r, (bal(m1, r) + t.info.amount) as u64, a);
}

proof fn lemma_txs_flow(m: Map<u64, u64>, txs: Seq<TxView>, a: Address)
    requires
        apply_txs(m, txs) is Some,
    ensures
        bal(apply_txs(m, txs)->Some_0, a) == bal(m, a) + txs_flow(txs, a),
    decreases txs.len(),
{
    if txs.len() > 0 {
        lemma_txs_flow(m, txs.drop_last(), a);
        lemma_tx_flow(apply_txs(m, txs.drop_last())->Some_0, txs.last(), a);
    }
}

proof fn lemma_net_flow(blocks: Seq<BlockView>, a: Address)
    requires
        balances_after(blocks) is Some,
    ensures
        bal(balances_after(blocks)->Some_0, a) == net_flow(blocks, a),
    decreases blocks.len(),
{
    if blocks.len() > 1 {
        let m = balances_after(blocks.drop_last())->Some_0;
        let b = blocks.last();
        lemma_net_flow(blocks.drop_last(), a);
        lemma_txs_flow(m, b.transactions, a);
        let m1 = apply_txs(m, b.transactions)->Some_0;
        lemma_bal_set(m1, b.miner, (bal(m1, b.miner) + COINS_PER_MINED_BLOCK) as u64, a);
    }
}

/// The first block of every well-formed chain is the genesis block, so the first hash is the
/// genesis hash; appending and popping keep chains well formed and never pop the genesis block.
pub proof fn lemma_genesis_first(c: ChainView)
    requires
        c.wf(),
    ensures
        c.blocks[0] == genesis_view(),
        c.hash_at(0) == block_hash(genesis_view()),
{
}

/// In a well-formed chain every block after genesis names its predecessor's hash as its prefix
/// and meets the chain's difficulty.
pub proof fn lemma_linked_and_mined(c: ChainView, i: int)
    requires
        c.wf(),
        1 <= i < c.len(),
    ensures
        c.blocks[i].prefix_hash == c.hash_at(i - 1),
        meets_difficulty(c.blocks[i], c.difficulty),
{
    assert(linked_at(c.blocks, i, c.difficulty));
}

/// The balance of an address in a well-formed chain is its credits minus its debits over the
/// applied blocks: the reward for each block it mined, plus what it received, minus what it
/// sent.
pub proof fn lemma_balance_is_net_flow(c: ChainView, a: Address)
    requires
        c.wf(),
    ensures
        bal(c.balance, a) == net_flow(c.blocks, a),
{
    lemma_net_flow(c.blocks, a);
}

/// In a well-formed chain, each transaction's sender held at least the amount when the
/// transaction was applied: the balances after the blocks before it and the transactions before
/// it in its block.
pub proof fn lemma_sender_covered(c: ChainView, i: int, j: int)
    requires
        c.wf(),
        1 <= i < c.len(),
        0 <= j < c.blocks[i].transactions.len(),
    ensures
        ({
            let before = apply_txs(
                balances_after(c.blocks.take(i))->Some_0,
                c.blocks[i].transactions.take(j),
            );
            let t = c.blocks[i].transactions[j];
            before is Some && bal(before->Some_0, t.info.sender) >= t.info.amount
        }),
{
    let blocks = c.blocks;
    let txs = blocks[i].transactions;
    lemma_balances_prefix(blocks, i + 1);
    let p = blocks.take(i + 1);
    assert(p.drop_last() =~= blocks.take(i));
    assert(p.last() == blocks[i]);
    let m = balances_after(blocks.take(i))->Some_0;
    lemma_apply_txs_prefix(m, txs, j + 1);
    assert(txs.take(j + 1).drop_last() =~= txs.take(j));
    assert(txs.take(j + 1).last() == txs[j]);
}

/// The transaction ids within each block of a well-formed chain are distinct.
pub proof fn lemma_block_ids_distinct(c: ChainView, i: int)
    requires
        c.wf(),
        1 <= i < c.len(),
    ensures
        ids_distinct(c.blocks[i].transactions),
{
    assert(linked_at(c.blocks, i, c.difficulty));
}

/// Appending a block and then popping it gives back the chain as it was, balances included:
/// no zero-valued balance entry is left behind.
pub proof fn lemma_append_then_pop(c: ChainView, b: BlockView)
    requires
        c.wf(),
        c.accepts(b),
    ensures
        c.push(b).take(c.len() as int) == c,
{
    assert(c.push(b).blocks.take(c.len() as int) =~= c.blocks);
}

} // verus!
