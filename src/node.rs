use vstd::prelude::*;

use crate::block::{
    block_hash, candidate_block, copy_transactions, meets_difficulty, mine_block, txs_view,
    Address, Block, BlockHash, BlockTransaction, BlockView, Transaction, TransactionId, TxView,
};
use crate::blockchain::{apply_txs, BlockChain, ChainView};
use crate::constants::{MINING_DIFFICULTY, NODE_MINING_NONCE_STEP};
use crate::mempool::{MemPool, MemPoolView};

verus! {

/// A potentially better blockchain received from the network.
#[derive(Debug)]
pub struct BetterBlockChain {
    /// The length of the proposed blockchain.
    pub length: usize,
    /// The last block of the proposed blockchain.
    pub last_block: Block,
    /// The address of the node that proposed the blockchain.
    pub source: Address,
}

/// A candidate chain as plain values: its length, its last block and the node that announced it.
pub struct CandidateView {
    pub length: usize,
    pub last_block: BlockView,
    pub source: Address,
}

impl View for BetterBlockChain {
    type V = CandidateView;

    open spec fn view(&self) -> CandidateView {
        CandidateView { length: self.length, last_block: self.last_block@, source: self.source }
    }
}

/// An adoption of a longer chain in progress: the blocks fetched so far, newest first, and the
/// hash of the block still to be found in the local chain.
#[derive(Debug)]
pub struct Adoption {
    /// The length of the proposed blockchain.
    pub length: usize,
    /// The node that proposed it.
    pub source: Address,
    /// The prefix hash of the oldest block fetched so far.
    pub needle: BlockHash,
    /// The blocks fetched so far, newest first.
    pub new_blocks: Vec<Block>,
}

impl Adoption {
    pub open spec fn blocks_view(&self) -> Seq<BlockView> {
        self.new_blocks@.map_values(|b: Block| b@)
    }

    /// Records a block fetched from the source: it is the predecessor of the oldest one so far.
    pub fn add_fetched(&mut self, block: Block)
        ensures
            final(self).length == old(self).length,
            final(self).source == old(self).source,
            final(self).needle@ == block@.prefix_hash,
            final(self).blocks_view() == old(self).blocks_view().push(block@),
            final(self).new_blocks@.len() == old(self).new_blocks@.len() + 1,
    {
        self.needle = block.prefix_hash.clone();
        self.new_blocks.push(block);
        assert(self.blocks_view() =~= old(self).blocks_view().push(block@));
    }
}

/// What the adoption of a longer chain needs next.
#[derive(Debug)]
pub enum FetchStep {
    /// The block with this hash, from this node.
    Fetch(BlockHash, Address),
    /// Nothing: the local chain holds the needle, and the fetched blocks can be replayed.
    Ready,
    /// Nothing more: more blocks were fetched than the proposed chain can hold.
    Abandon,
}

/// A sequence in reverse order.
pub open spec fn reversed(s: Seq<BlockView>) -> Seq<BlockView> {
    Seq::new(s.len(), |i: int| s[s.len() - 1 - i])
}

/// The blocks of `v` in reverse order.
fn oldest_first(v: Vec<Block>) -> (r: Vec<Block>)
    ensures
        r@.map_values(|b: Block| b@) == reversed(v@.map_values(|b: Block| b@)),
{
    let ghost nb = v@.map_values(|b: Block| b@);
    let mut new_blocks = v;
    let mut oldest_first: Vec<Block> = Vec::new();
    while new_blocks.len() > 0
        invariant
            nb == new_blocks@.map_values(|b: Block| b@) + reversed(
                oldest_first@.map_values(|b: Block| b@),
            ),
        decreases new_blocks@.len(),
    {
        let ghost before_new = new_blocks@;
        let ghost before_old = oldest_first@;
        let b = new_blocks.pop().unwrap();
        oldest_first.push(b);
        proof {
            assert(before_new.map_values(|b: Block| b@) =~= new_blocks@.map_values(|b: Block| b@).push(b@));
            assert(reversed(oldest_first@.map_values(|b: Block| b@)) =~= seq![b@] + reversed(before_old.map_values(|b: Block| b@)));
            assert(nb =~= new_blocks@.map_values(|b: Block| b@) + reversed(
                oldest_first@.map_values(|b: Block| b@),
            ));
        }
    }
    proof {
        let ov = oldest_first@.map_values(|b: Block| b@);
        assert(nb =~= reversed(ov));
        assert(reversed(nb) =~= ov);
    }
    oldest_first
}

/// `chain` popped back to the last block with hash `needle`, with `blocks` appended in order,
/// if every block is accepted and the result has `length` blocks.
fn adopted_chain(chain: &BlockChain, needle: &BlockHash, blocks: Vec<Block>, length: usize) -> (r:
    Option<BlockChain>)
    requires
        chain.wf(),
        chain@.contains(needle@),
    ensures
        r is Some <==> exists|k: int|
            chain@.is_last_pos(needle@, k) && chain@.take(k + 1).accepts_all(
                blocks@.map_values(|b: Block| b@),
            ) && k + 1 + blocks@.len() == length,
        r is Some ==> r->Some_0.wf() && r->Some_0@.len() == length && exists|k: int|
            chain@.is_last_pos(needle@, k) && r->Some_0@ == chain@.take(k + 1).extend(
                blocks@.map_values(|b: Block| b@),
            ),
{
    let ghost pre = chain@;
    let ghost bv = blocks@.map_values(|b: Block| b@);
    let (mut copy, k) = chain.popped_to(needle);
    let ghost cut = copy@;
    proof {
        cut.lemma_extend_len(bv);
    }
    let appended = copy.append_blocks(blocks);
    proof {
        assert(cut == pre.take(k + 1));
        assert(appended is Ok <==> cut.accepts_all(bv));
        assert(appended is Ok ==> copy@ == cut.extend(bv));
        assert forall|k2: int|
            !(#[trigger] pre.is_last_pos(needle@, k2) && pre.take(k2 + 1).accepts_all(bv) && k2 + 1
                + bv.len() == length) || (appended is Ok && k2 == k) by {
            if pre.is_last_pos(needle@, k2) {
                pre.lemma_last_pos_unique(needle@, k as int, k2);
                assert(k2 == k);
                assert(pre.take(k2 + 1) == cut);
            }
        }
        assert(bv.len() == blocks@.len());
    }
    if appended.is_err() {
        return None;
    }
    if copy.len() != length {
        return None;
    }
    proof {
        assert(pre.is_last_pos(needle@, k as int));
    }
    Some(copy)
}

/// A node in the blockchain network.
#[derive(Debug)]
pub struct Node {
    /// Whether the node should continue running.
    alive: bool,
    /// The address of the node.
    address: Address,
    /// The blockchain managed by the node.
    blockchain: BlockChain,
    /// The nonce to start from for the next mining attempt.
    next_nonce: u64,
    /// The pending transactions accepted by the node.
    mempool: MemPool,
    /// A better blockchain proposed by the network.
    better_blockchain: Option<BetterBlockChain>,
}

/// The nonce a mining step starts from: the stored one, or zero where a full step from it would
/// pass the largest `u64`.
pub open spec fn step_start(next_nonce: u64) -> u64 {
    if next_nonce > u64::MAX - NODE_MINING_NONCE_STEP {
        0
    } else {
        next_nonce
    }
}

impl Node {
    pub closed spec fn chain(&self) -> ChainView {
        self.blockchain@
    }

    pub closed spec fn pool(&self) -> MemPoolView {
        self.mempool@
    }

    pub closed spec fn candidate(&self) -> Option<CandidateView> {
        match self.better_blockchain {
            Some(c) => Some(c@),
            None => None,
        }
    }

    pub closed spec fn nonce(&self) -> u64 {
        self.next_nonce
    }

    pub closed spec fn alive(&self) -> bool {
        self.alive
    }

    pub closed spec fn addr(&self) -> Address {
        self.address
    }

    /// The node's chain is well formed, and its mempool is bound to the chain's tip and holds
    /// the chain's balances with the effects of its pending transactions.
    pub closed spec fn wf(&self) -> bool {
        &&& self.blockchain.wf()
        &&& self.mempool@.tip == self.blockchain@.last_hash()
        &&& self.mempool@.consistent_with(self.blockchain@.balance)
        &&& self.mempool@.ids_exact()
    }

    /// What a well-formed node guarantees: its chain is well formed, and its mempool is bound to
    /// the chain's tip and holds the chain's balances with the effects of its pending
    /// transactions.
    pub proof fn lemma_wf(&self)
        requires
            self.wf(),
        ensures
            self.chain().wf(),
            self.pool().tip == self.chain().last_hash(),
            self.pool().consistent_with(self.chain().balance),
            self.pool().ids_exact(),
    {
    }

    /// A node with a random address, a fresh chain at the standard difficulty and an empty
    /// mempool.
    pub fn new() -> (r: Self)
        ensures
            r.wf(),
            r.alive(),
            r.chain().blocks == seq![crate::block::genesis_view()],
            r.chain().balance == Map::<u64, u64>::empty(),
            r.chain().difficulty == MINING_DIFFICULTY,
            r.pool().reset_against(r.chain()),
            r.candidate() is None,
            r.nonce() == 0,
    {
        Self::with_address(Address::new_random(), MINING_DIFFICULTY)
    }

    /// A node with the given address, whose chain asks `difficulty` leading zero bits of each
    /// block.
    pub fn with_address(address: Address, difficulty: u32) -> (r: Self)
        ensures
            r.wf(),
            r.alive(),
            r.addr() == address,
            r.chain().blocks == seq![crate::block::genesis_view()],
            r.chain().balance == Map::<u64, u64>::empty(),
            r.chain().difficulty == difficulty,
            r.pool().reset_against(r.chain()),
            r.candidate() is None,
            r.nonce() == 0,
    {
        let blockchain = BlockChain::with_difficulty(difficulty);
        let mempool = MemPool::new(&blockchain);
        Node {
            alive: true,
            address,
            blockchain,
            next_nonce: 0,
            mempool,
            better_blockchain: None,
        }
    }

    pub fn address(&self) -> (r: Address)
        ensures
            r == self.addr(),
    {
        self.address
    }

    pub fn is_alive(&self) -> (r: bool)
        ensures
            r == self.alive(),
    {
        self.alive
    }

    /// Stop the node.
    pub fn stop(&mut self)
        ensures
            !final(self).alive(),
            final(self).wf() == old(self).wf(),
            final(self).chain() == old(self).chain(),
            final(self).pool() == old(self).pool(),
    {
        self.alive = false;
    }

    /// A copy of the block of the chain with this hash, if any.
    pub fn get_block(&self, block: &BlockHash) -> (r: Option<Block>)
        requires
            self.wf(),
        ensures
            match r {
                Some(b) => exists|i: int|
                    0 <= i < self.chain().len() && self.chain().hash_at(i) == block@ && b@
                        == self.chain().blocks[i],
                None => !self.chain().contains(block@),
            },
    {
        match self.blockchain.get_block(block) {
            Some(b) => {
                let c = b.clone();
                proof {
                    let i = choose|i: int|
                        0 <= i < self.blockchain@.len() && self.blockchain@.hash_at(i) == block@
                            && b@ == self.blockchain@.blocks[i];
                    assert(c@ == self.chain().blocks[i]);
                }
                Some(c)
            },
            None => None,
        }
    }

    pub fn blockchain(&self) -> (r: &BlockChain)
        requires
            self.wf(),
        ensures
            r@ == self.chain(),
            r.wf(),
    {
        &self.blockchain
    }

    pub fn mempool(&self) -> (r: &MemPool)
        ensures
            r@ == self.pool(),
    {
        &self.mempool
    }

    /// Attempt to mine a new block over the chain's tip and the mempool's transactions, trying
    /// `NODE_MINING_NONCE_STEP` nonces from the stored one. If one meets the chain's difficulty
    /// and the chain accepts the block, it is appended, the nonce restarts at zero, the mempool
    /// is reset, and the block is returned with the new chain length, for broadcast. Otherwise
    /// the chain is unchanged and the next attempt goes on from the following nonce.
    pub fn mining(&mut self) -> (r: Option<(Block, usize)>)
        requires
            old(self).wf(),
        ensures
            final(self).wf(),
            final(self).addr() == old(self).addr(),
            final(self).alive() == old(self).alive(),
            final(self).candidate() == old(self).candidate(),
            match r {
                Some((b, len)) => {
                    &&& b@ == candidate_block(
                        old(self).chain().last_hash(),
                        old(self).addr(),
                        old(self).pool().transactions,
                        b.nonce,
                    )
                    &&& step_start(old(self).nonce()) <= b.nonce
                    &&& b.nonce < step_start(old(self).nonce()) + NODE_MINING_NONCE_STEP
                    &&& meets_difficulty(b@, old(self).chain().difficulty)
                    &&& forall|n: u64|
                        step_start(old(self).nonce()) <= n < b.nonce ==> !meets_difficulty(
                            #[trigger] candidate_block(
                                old(self).chain().last_hash(),
                                old(self).addr(),
                                old(self).pool().transactions,
                                n,
                            ),
                            old(self).chain().difficulty,
                        )
                    &&& final(self).chain() == old(self).chain().push(b@)
                    &&& len == final(self).chain().len()
                    &&& final(self).nonce() == 0
                    &&& final(self).pool().tip == final(self).chain().last_hash()
                    &&& final(self).pool().transactions.len() == 0
                    &&& final(self).pool().balance == final(self).chain().balance
                },
                None => {
                    &&& forall|n: u64|
                        step_start(old(self).nonce()) <= n < step_start(old(self).nonce())
                            + NODE_MINING_NONCE_STEP ==> !old(self).chain().accepts(
                            #[trigger] candidate_block(
                                old(self).chain().last_hash(),
                                old(self).addr(),
                                old(self).pool().transactions,
                                n,
                            ),
                        )
                    &&& final(self).chain() == old(self).chain()
                    &&& final(self).pool() == old(self).pool()
                    &&& final(self).nonce() == step_start(old(self).nonce()) + NODE_MINING_NONCE_STEP
                },
            },
    {
        let start: u64 = if self.next_nonce > u64::MAX - NODE_MINING_NONCE_STEP {
            0
        } else {
            self.next_nonce
        };
        let last_nonce = start + NODE_MINING_NONCE_STEP;
        let transactions = copy_transactions(self.mempool.transactions());
        let opt_block = mine_block(
            self.blockchain.last_hash().clone(),
            self.address,
            transactions,
            start,
            last_nonce - 1,
            self.blockchain.difficulty(),
        );
        match opt_block {
            Some(block) => {
                let sent = block.clone();
                let ghost found = block@;
                if self.blockchain.append_block(block).is_err() {
                    proof {
                        assert forall|n: u64|
                            start <= n < last_nonce implies !old(self).chain().accepts(
                            #[trigger] candidate_block(
                                old(self).chain().last_hash(),
                                old(self).addr(),
                                old(self).pool().transactions,
                                n,
                            ),
                        ) by {
                            let c = candidate_block(
                                old(self).chain().last_hash(),
                                old(self).addr(),
                                old(self).pool().transactions,
                                n,
                            );
                            assert(c.transactions == found.transactions);
                        }
                    }
                    self.next_nonce = last_nonce;
                    return None;
                }
                self.next_nonce = 0;
                self.mempool.reset(&self.blockchain);
                proof {
                    assert(apply_txs(self.blockchain@.balance, self.mempool@.transactions) == Some(
                        self.blockchain@.balance,
                    ));
                }
                Some((sent, self.blockchain.len()))
            },
            None => {
                self.next_nonce = last_nonce;
                None
            },
        }
    }

    /// Receive a new block from the network, without checking its validity. If the announced
    /// chain is longer than the local one and than any candidate already buffered, it becomes
    /// the candidate for the next consensus pass.
    pub fn receive_new_block(&mut self, block: Block, blockchain_length: usize, source: Address)
        requires
            old(self).wf(),
        ensures
            final(self).wf(),
            final(self).chain() == old(self).chain(),
            final(self).pool() == old(self).pool(),
            final(self).nonce() == old(self).nonce(),
            final(self).addr() == old(self).addr(),
            final(self).alive() == old(self).alive(),
            final(self).candidate() == if blockchain_length <= old(self).chain().len() || (
            old(self).candidate() is Some && old(self).candidate()->Some_0.length
                >= blockchain_length) {
                old(self).candidate()
            } else {
                Some(CandidateView { length: blockchain_length, last_block: block@, source })
            },
    {
        if blockchain_length <= self.blockchain.len() {
            return;
        }
        if let Some(better_blockchain) = &self.better_blockchain {
            if better_blockchain.length >= blockchain_length {
                return;
            }
        }
        self.better_blockchain = Some(
            BetterBlockChain { length: blockchain_length, last_block: block, source },
        );
    }

    /// Takes the buffered candidate. If it is longer than the local chain, starts its adoption:
    /// when the local chain already holds the candidate's last block nothing needs fetching;
    /// otherwise that block is the first new block, and its predecessor is looked for next.
    pub fn begin_consensus(&mut self) -> (r: Option<Adoption>)
        requires
            old(self).wf(),
        ensures
            final(self).wf(),
            final(self).candidate() is None,
            final(self).chain() == old(self).chain(),
            final(self).pool() == old(self).pool(),
            final(self).nonce() == old(self).nonce(),
            final(self).addr() == old(self).addr(),
            final(self).alive() == old(self).alive(),
            r is Some <==> (old(self).candidate() is Some && old(self).candidate()->Some_0.length
                > old(self).chain().len()),
            r is Some ==> ({
                let c = old(self).candidate()->Some_0;
                let a = r->Some_0;
                &&& a.length == c.length
                &&& a.source == c.source
                &&& if old(self).chain().contains(block_hash(c.last_block)) {
                    a.needle@ == block_hash(c.last_block) && a.blocks_view() == Seq::<
                        BlockView,
                    >::empty()
                } else {
                    a.needle@ == c.last_block.prefix_hash && a.blocks_view() == seq![c.last_block]
                }
            }),
    {
        let better = match self.better_blockchain.take() {
            Some(b) => b,
            None => return None,
        };
        if better.length <= self.blockchain.len() {
            return None;
        }
        let tip_hash = better.last_block.hash();
        if self.blockchain.contains(&tip_hash) {
            let a = Adoption {
                length: better.length,
                source: better.source,
                needle: tip_hash,
                new_blocks: Vec::new(),
            };
            assert(a.blocks_view() =~= Seq::<BlockView>::empty());
            Some(a)
        } else {
            let needle = better.last_block.prefix_hash.clone();
            let mut new_blocks: Vec<Block> = Vec::new();
            new_blocks.push(better.last_block);
            let a = Adoption { length: better.length, source: better.source, needle, new_blocks };
            assert(a.blocks_view() =~= seq![better.last_block@]);
            Some(a)
        }
    }

    /// What the adoption needs next: nothing when the local chain holds its needle; the needle
    /// from the source while fewer blocks than the proposed length have been fetched; else it
    /// is abandoned.
    pub fn next_fetch(&self, adoption: &Adoption) -> (r: FetchStep)
        requires
            self.wf(),
        ensures
            r is Ready <==> self.chain().contains(adoption.needle@),
            r is Fetch ==> r->Fetch_0@ == adoption.needle@ && r->Fetch_1 == adoption.source
                && adoption.new_blocks@.len() < adoption.length,
            r is Abandon ==> !self.chain().contains(adoption.needle@)
                && adoption.new_blocks@.len() >= adoption.length,
    {
        if self.blockchain.contains(&adoption.needle) {
            FetchStep::Ready
        } else if adoption.new_blocks.len() < adoption.length {
            FetchStep::Fetch(adoption.needle.clone(), adoption.source)
        } else {
            FetchStep::Abandon
        }
    }

    /// Completes an adoption whose needle is in the local chain. On a copy of the chain, pops
    /// back to the last block with the needle's hash and appends the fetched blocks, oldest
    /// first. The copy replaces the chain exactly when the proposed length is greater than the
    /// local chain's, every block is accepted, and the copy has the proposed length; the nonce
    /// then restarts at zero and the mempool is reset. Otherwise nothing changes.
    #[verifier::rlimit(40)]
    pub fn finish_consensus(&mut self, adoption: Adoption) -> (r: Result<(), ()>)
        requires
            old(self).wf(),
            old(self).chain().contains(adoption.needle@),
        ensures
            final(self).wf(),
            final(self).candidate() == old(self).candidate(),
            final(self).addr() == old(self).addr(),
            final(self).alive() == old(self).alive(),
            r is Ok <==> (adoption.length > old(self).chain().len() && exists|k: int|
                old(self).chain().is_last_pos(adoption.needle@, k) && old(self).chain().take(
                    k + 1,
                ).accepts_all(reversed(adoption.blocks_view())) && k + 1
                    + adoption.blocks_view().len() == adoption.length),
            r is Ok ==> {
                &&& final(self).chain().len() == adoption.length
                &&& exists|k: int|
                    old(self).chain().is_last_pos(adoption.needle@, k) && final(self).chain()
                        == old(self).chain().take(k + 1).extend(reversed(adoption.blocks_view()))
                &&& final(self).nonce() == 0
                &&& final(self).pool().reset_against(final(self).chain())
            },
            r is Err ==> {
                &&& final(self).chain() == old(self).chain()
                &&& final(self).pool() == old(self).pool()
                &&& final(self).nonce() == old(self).nonce()
            },
    {
        let ghost nb = adoption.blocks_view();
        let ghost pre = self.blockchain@;
        if adoption.length <= self.blockchain.len() {
            return Err(());
        }
        let blocks = oldest_first(adoption.new_blocks);
        proof {
            assert(blocks@.map_values(|b: Block| b@) == reversed(nb));
            assert(blocks@.len() == blocks@.map_values(|b: Block| b@).len());
            assert(reversed(nb).len() == nb.len());
        }
        let chain = match adopted_chain(&self.blockchain, &adoption.needle, blocks, adoption.length) {
            Some(c) => c,
            None => return Err(()),
        };
        self.blockchain = chain;
        self.next_nonce = 0;
        self.mempool.reset(&self.blockchain);
        proof {
            assert(apply_txs(self.blockchain@.balance, self.mempool@.transactions) == Some(
                self.blockchain@.balance,
            ));
        }
        Ok(())
    }

    /// The node adopted a chain for candidate `c`: the new chain has the candidate's length,
    /// which is greater than the old one's, and ends with the candidate's last block; the nonce
    /// restarted at zero and the mempool was reset against the new chain.
    pub open spec fn adopted(self, old: Node, c: CandidateView) -> bool {
        &&& self.chain().len() == c.length
        &&& c.length > old.chain().len()
        &&& self.chain().blocks.last() == c.last_block
        &&& self.nonce() == 0
        &&& self.pool().reset_against(self.chain())
    }

    /// Chain, mempool and nonce are as in `old`.
    pub open spec fn kept(self, old: Node) -> bool {
        &&& self.chain() == old.chain()
        &&& self.pool() == old.pool()
        &&& self.nonce() == old.nonce()
    }

    /// Completes an adoption for candidate `c` and states its outcome in terms of `c`.
    fn conclude(&mut self, adoption: Adoption, Ghost(c): Ghost<CandidateView>, Ghost(extends): Ghost<bool>)
        requires
            old(self).wf(),
            old(self).candidate() is None,
            old(self).chain().contains(adoption.needle@),
            adoption.length == c.length,
            c.length > old(self).chain().len(),
            adoption.blocks_view().len() > 0 ==> adoption.blocks_view()[0] == c.last_block,
            extends ==> adoption.needle@ == old(self).chain().last_hash() && adoption.blocks_view()
                == seq![c.last_block] && c.length == old(self).chain().len() + 1
                && old(self).chain().accepts(c.last_block),
        ensures
            final(self).wf(),
            final(self).candidate() is None,
            final(self).addr() == old(self).addr(),
            final(self).alive() == old(self).alive(),
            final(self).kept(*old(self)) || final(self).adopted(*old(self), c),
            extends ==> final(self).chain() == old(self).chain().push(c.last_block)
                && final(self).adopted(*old(self), c),
    {
        let ghost nb = adoption.blocks_view();
        let ghost needle = adoption.needle@;
        let ghost ch = self.chain();
        proof {
            if extends {
                let k = ch.len() - 1;
                assert(ch.is_last_pos(needle, k));
                ch.lemma_take_all();
                assert(reversed(nb) =~= seq![c.last_block]);
                ch.lemma_extend_one(c.last_block);
                assert(nb.len() == 1);
            }
        }
        let r = self.finish_consensus(adoption);
        proof {
            if r is Ok {
                let k = choose|k: int|
                    ch.is_last_pos(needle, k) && self.chain() == ch.take(k + 1).extend(reversed(nb));
                if nb.len() > 0 {
                    assert(reversed(nb).last() == nb[0]);
                } else {
                    assert(false);
                }
                if extends {
                    ch.lemma_last_pos_unique(needle, ch.len() - 1, k);
                }
            }
        }
    }

    /// Switch to a better (i.e., longer) blockchain if one is buffered, fetching the blocks that
    /// the local chain lacks from the node that proposed it through `query`. The candidate is
    /// consumed. Either the node adopts a chain of the candidate's length ending with its block,
    /// or chain, mempool and nonce stay as they were. Nothing is adopted without a longer
    /// candidate; a candidate that extends the local tip by one acceptable block is adopted
    /// without any query.
    #[verifier::rlimit(60)]
    pub fn achieve_consensus<F: Fn(&BlockHash, Address) -> Option<Block>>(&mut self, query: &F)
        requires
            old(self).wf(),
            forall|h: &BlockHash, a: Address| query.requires((h, a)),
        ensures
            final(self).wf(),
            final(self).candidate() is None,
            final(self).addr() == old(self).addr(),
            final(self).alive() == old(self).alive(),
            final(self).kept(*old(self)) || (old(self).candidate() is Some && final(self).adopted(
                *old(self),
                old(self).candidate()->Some_0,
            )),
            old(self).candidate() is None || old(self).candidate()->Some_0.length <= old(
                self,
            ).chain().len() ==> final(self).kept(*old(self)),
            ({
                let c = old(self).candidate()->Some_0;
                (old(self).candidate() is Some && c.length == old(self).chain().len() + 1
                    && !old(self).chain().contains(block_hash(c.last_block)) && old(
                    self,
                ).chain().accepts(c.last_block)) ==> final(self).chain() == old(self).chain().push(
                    c.last_block,
                ) && final(self).adopted(*old(self), c)
            }),
    {
        let ghost c = self.candidate()->Some_0;
        let ghost start = *self;
        let ghost extends = self.candidate() is Some && c.length == self.chain().len() + 1
            && !self.chain().contains(block_hash(c.last_block)) && self.chain().accepts(c.last_block);
        let mut adoption = match self.begin_consensus() {
            Some(a) => a,
            None => return,
        };
        loop
            invariant
                self.wf(),
                self.candidate() is None,
                self.addr() == start.addr(),
                self.alive() == start.alive(),
                self.kept(start),
                start == *old(self),
                start.candidate() is Some,
                c == start.candidate()->Some_0,
                adoption.length == c.length,
                c.length > start.chain().len(),
                adoption.blocks_view().len() > 0 ==> adoption.blocks_view()[0] == c.last_block,
                adoption.blocks_view().len() == 0 ==> start.chain().contains(adoption.needle@),
                extends ==> adoption.needle@ == start.chain().last_hash() && adoption.blocks_view()
                    == seq![c.last_block],
                extends == (c.length == start.chain().len() + 1 && !start.chain().contains(
                    block_hash(c.last_block),
                ) && start.chain().accepts(c.last_block)),
                forall|h: &BlockHash, a: Address| query.requires((h, a)),
            decreases adoption.length - adoption.new_blocks@.len(),
        {
            proof {
                if extends {
                    assert(start.chain().hash_at(start.chain().len() - 1) == start.chain().last_hash());
                }
            }
            match self.next_fetch(&adoption) {
                FetchStep::Ready => {
                    self.conclude(adoption, Ghost(c), Ghost(extends));
                    return;
                },
                FetchStep::Abandon => {
                    return;
                },
                FetchStep::Fetch(h, source) => {
                    match query(&h, source) {
                        Some(block) => adoption.add_fetched(block),
                        None => return,
                    }
                },
            }
        }
    }

    /// Add a transaction received from the network to the mempool. Invalid transactions are
    /// discarded.
    pub fn add_transaction(&mut self, transaction: BlockTransaction)
        requires
            old(self).wf(),
        ensures
            final(self).wf(),
            final(self).chain() == old(self).chain(),
            final(self).candidate() == old(self).candidate(),
            final(self).nonce() == old(self).nonce(),
            final(self).addr() == old(self).addr(),
            final(self).alive() == old(self).alive(),
            old(self).pool().admits(transaction@) ==> final(self).pool() == (MemPoolView {
                tip: old(self).pool().tip,
                ids: old(self).pool().ids.insert(transaction.id.0),
                transactions: old(self).pool().transactions.push(transaction@),
                balance: crate::blockchain::apply_tx(old(self).pool().balance, transaction@)->Some_0,
            }),
            !old(self).pool().admits(transaction@) ==> final(self).pool() == old(self).pool(),
    {
        let _ = self.accept_into_mempool(transaction);
    }

    /// Admits a transaction to the mempool, keeping the node's invariant.
    fn accept_into_mempool(&mut self, transaction: BlockTransaction) -> (r: Result<(), ()>)
        requires
            old(self).wf(),
        ensures
            final(self).wf(),
            final(self).chain() == old(self).chain(),
            final(self).candidate() == old(self).candidate(),
            final(self).nonce() == old(self).nonce(),
            final(self).addr() == old(self).addr(),
            final(self).alive() == old(self).alive(),
            r is Ok <==> old(self).pool().admits(transaction@),
            r is Ok ==> final(self).pool() == (MemPoolView {
                tip: old(self).pool().tip,
                ids: old(self).pool().ids.insert(transaction.id.0),
                transactions: old(self).pool().transactions.push(transaction@),
                balance: crate::blockchain::apply_tx(old(self).pool().balance, transaction@)->Some_0,
            }),
            r is Err ==> final(self).pool() == old(self).pool(),
    {
        let ghost t = transaction@;
        let ghost pre = self.mempool@;
        let r = self.mempool.add_transaction(transaction);
        proof {
            if r is Ok {
                let p = self.mempool@;
                assert(p.transactions.drop_last() =~= pre.transactions);
                assert forall|i: int, j: int| 0 <= i < j < p.transactions.len() implies p.transactions[i].id
                    != p.transactions[j].id by {
                    if j == p.transactions.len() - 1 {
                        assert(pre.ids.contains(p.transactions[i].id.0));
                    }
                }
                assert forall|i: int| 0 <= i < p.transactions.len() implies p.ids.contains(
                    (#[trigger] p.transactions[i]).id.0,
                ) by {
                    if i < p.transactions.len() - 1 {
                        assert(p.transactions[i] == pre.transactions[i]);
                    }
                }
                assert forall|i: int| 0 <= i < p.transactions.len() implies (
                #[trigger] p.transactions[i]).prefix_hash == p.tip by {
                    if i < p.transactions.len() - 1 {
                        assert(p.transactions[i] == pre.transactions[i]);
                    }
                }
            }
        }
        r
    }

    /// Admits a client's transaction under the given id, bound to the chain's tip. Returns the
    /// transaction as admitted, for broadcast, or an error if the mempool rejects it.
    pub fn add_client_transaction_with_id(
        &mut self,
        id: TransactionId,
        transaction: Transaction,
    ) -> (r: Result<BlockTransaction, ()>)
        requires
            old(self).wf(),
        ensures
            final(self).wf(),
            final(self).chain() == old(self).chain(),
            final(self).candidate() == old(self).candidate(),
            final(self).nonce() == old(self).nonce(),
            final(self).addr() == old(self).addr(),
            ({
                let t = TxView { id, prefix_hash: old(self).chain().last_hash(), info: transaction };
                &&& r is Ok <==> old(self).pool().admits(t)
                &&& r is Ok ==> r->Ok_0@ == t && final(self).pool() == (MemPoolView {
                    tip: old(self).pool().tip,
                    ids: old(self).pool().ids.insert(id.0),
                    transactions: old(self).pool().transactions.push(t),
                    balance: crate::blockchain::apply_tx(old(self).pool().balance, t)->Some_0,
                })
                &&& r is Err ==> final(self).pool() == old(self).pool()
            }),
    {
        let block_transaction = BlockTransaction {
            id,
            prefix_hash: self.blockchain.last_hash().clone(),
            info: transaction,
        };
        let sent = block_transaction.clone();
        match self.accept_into_mempool(block_transaction) {
            Ok(()) => Ok(sent),
            Err(()) => Err(()),
        }
    }

    /// Admits a client's transaction under a fresh random id, bound to the chain's tip. Returns
    /// the transaction as admitted, for broadcast, or an error if the mempool rejects it.
    pub fn add_client_transaction(&mut self, transaction: Transaction) -> (r: Result<
        BlockTransaction,
        (),
    >)
        requires
            old(self).wf(),
        ensures
            final(self).wf(),
            final(self).chain() == old(self).chain(),
            final(self).candidate() == old(self).candidate(),
            match r {
                Ok(t) => {
                    &&& t@.prefix_hash == old(self).chain().last_hash()
                    &&& t@.info == transaction
                    &&& old(self).pool().admits(t@)
                    &&& final(self).pool() == (MemPoolView {
                        tip: old(self).pool().tip,
                        ids: old(self).pool().ids.insert(t.id.0),
                        transactions: old(self).pool().transactions.push(t@),
                        balance: crate::blockchain::apply_tx(old(self).pool().balance, t@)->Some_0,
                    })
                },
                Err(_) => final(self).pool() == old(self).pool(),
            },
    {
        self.add_client_transaction_with_id(TransactionId::new_random(), transaction)
    }
}

} // verus!
