use std::collections::{HashMap, HashSet};
use vstd::prelude::*;

use crate::block::{txs_view, Address, BlockHash, BlockTransaction, TxView};
use crate::blockchain::{apply_tx, apply_tx_to, apply_txs, bal, get_bal, BlockChain, ChainView};

verus! {

broadcast use vstd::std_specs::hash::group_hash_axioms;

/// What a mempool holds, as plain values.
pub struct MemPoolView {
    /// The hash of the chain's last block when the mempool was last reset.
    pub tip: Seq<u8>,
    /// The ids of the pending transactions.
    pub ids: Set<u64>,
    /// The pending transactions, in the order they were admitted.
    pub transactions: Seq<TxView>,
    /// The chain's balances with the effect of every pending transaction.
    pub balance: Map<u64, u64>,
}

/// A mempool is a sequence of pending transactions that have not yet been included in a block.
#[derive(Debug)]
pub struct MemPool {
    transaction_ids: HashSet<u64>,
    transactions: Vec<BlockTransaction>,
    balance: HashMap<u64, u64>,
    prefix_hash: BlockHash,
}

impl View for MemPool {
    type V = MemPoolView;

    closed spec fn view(&self) -> MemPoolView {
        MemPoolView {
            tip: self.prefix_hash@,
            ids: self.transaction_ids@,
            transactions: txs_view(self.transactions@),
            balance: self.balance@,
        }
    }
}

impl MemPoolView {
    /// The pool as `reset` leaves it against a chain: bound to its tip, empty, with its
    /// balances.
    pub open spec fn reset_against(self, c: ChainView) -> bool {
        &&& self.tip == c.last_hash()
        &&& self.ids == Set::<u64>::empty()
        &&& self.transactions == Seq::<TxView>::empty()
        &&& self.balance == c.balance
    }

    /// A pending transaction has id `k`.
    pub open spec fn has_pending_id(self, k: u64) -> bool {
        exists|i: int| 0 <= i < self.transactions.len() && self.transactions[i].id.0 == k
    }

    /// The recorded ids are exactly those of the pending transactions.
    pub open spec fn ids_exact(self) -> bool {
        forall|k: u64|
            #![trigger self.ids.contains(k)]
            #![trigger self.has_pending_id(k)]
            self.ids.contains(k) <==> self.has_pending_id(k)
    }

    /// `t` would be admitted: it is bound to the tip, its id is new, and the sender can pay.
    pub open spec fn admits(self, t: TxView) -> bool {
        &&& t.prefix_hash == self.tip
        &&& !self.ids.contains(t.id.0)
        &&& apply_tx(self.balance, t) is Some
    }

    /// The pool is consistent with the balances `base` it was reset to: the pending transactions
    /// are bound to the tip, their ids are recorded, and the balances are `base` with their
    /// effects.
    pub open spec fn consistent_with(self, base: Map<u64, u64>) -> bool {
        &&& forall|i: int| 0 <= i < self.transactions.len() ==> (#[trigger] self.transactions[i]).prefix_hash == self.tip
        &&& forall|i: int| 0 <= i < self.transactions.len() ==> self.ids.contains((#[trigger] self.transactions[i]).id.0)
        &&& forall|i: int, j: int| 0 <= i < j < self.transactions.len() ==> self.transactions[i].id != self.transactions[j].id
        &&& apply_txs(base, self.transactions) == Some(self.balance)
    }
}

impl MemPool {
    /// An empty mempool bound to the chain's last block, with the chain's balances.
    pub fn new(blockchain: &BlockChain) -> (r: Self)
        requires
            blockchain.wf(),
        ensures
            r@.tip == blockchain@.last_hash(),
            r@.ids == Set::<u64>::empty(),
            r@.transactions == Seq::<TxView>::empty(),
            r@.balance == blockchain@.balance,
            r@.ids_exact(),
    {
        let r = MemPool {
            transaction_ids: HashSet::new(),
            transactions: Vec::new(),
            balance: blockchain.balance().clone(),
            prefix_hash: blockchain.last_hash().clone(),
        };
        assert(r@.transactions =~= Seq::<TxView>::empty());
        r
    }

    /// The transactions in the mempool.
    pub fn transactions(&self) -> (r: &Vec<BlockTransaction>)
        ensures
            txs_view(r@) == self@.transactions,
    {
        &self.transactions
    }

    /// The number of transactions in the mempool.
    pub fn len(&self) -> (r: usize)
        ensures
            r == self@.transactions.len(),
    {
        self.transactions.len()
    }

    /// The hash of the block the pending transactions are bound to.
    pub fn tip(&self) -> (r: &BlockHash)
        ensures
            r@ == self@.tip,
    {
        &self.prefix_hash
    }

    /// The provisional balance of every address whose balance is not zero, keyed by the
    /// address's id.
    pub fn balance(&self) -> (r: &HashMap<u64, u64>)
        ensures
            r@ == self@.balance,
    {
        &self.balance
    }

    /// The provisional balance of an address.
    pub fn balance_of(&self, address: Address) -> (r: u64)
        ensures
            r == bal(self@.balance, address),
    {
        get_bal(&self.balance, address)
    }

    /// Add a transaction, checking whether it is valid: it must be bound to the tip, its id must
    /// be new, and the sender's provisional balance must cover the amount. On error the mempool
    /// is unchanged.
    pub fn add_transaction(&mut self, transaction: BlockTransaction) -> (r: Result<(), ()>)
        ensures
            r is Ok <==> old(self)@.admits(transaction@),
            r is Ok ==> final(self)@ == (MemPoolView {
                tip: old(self)@.tip,
                ids: old(self)@.ids.insert(transaction.id.0),
                transactions: old(self)@.transactions.push(transaction@),
                balance: apply_tx(old(self)@.balance, transaction@)->Some_0,
            }),
            r is Ok ==> bal(old(self)@.balance, transaction.info.sender) >= transaction.info.amount,
            r is Err ==> final(self)@ == old(self)@,
            old(self)@.ids_exact() ==> final(self)@.ids_exact(),
            old(self)@.ids_exact() ==> (r is Ok <==> (transaction@.prefix_hash == old(self)@.tip
                && !old(self)@.has_pending_id(transaction.id.0) && apply_tx(
                old(self)@.balance,
                transaction@,
            ) is Some)),
    {
        if transaction.prefix_hash != self.prefix_hash {
            return Err(());
        }
        if self.transaction_ids.contains(&transaction.id.0) {
            return Err(());
        }
        let mut m = self.balance.clone();
        if !apply_tx_to(&mut m, &transaction) {
            return Err(());
        }
        let ghost old_txs = self.transactions@;
        self.balance = m;
        self.transaction_ids.insert(transaction.id.0);
        self.transactions.push(transaction);
        assert(txs_view(self.transactions@) =~= txs_view(old_txs).push(transaction@));
        proof {
            let o = old(self)@;
            let n = self@;
            let id = transaction.id.0;
            if o.ids_exact() {
                assert forall|k: u64|
                    #![trigger n.ids.contains(k)]
                    #![trigger n.has_pending_id(k)]
                    n.ids.contains(k) <==> n.has_pending_id(k) by {
                    if n.has_pending_id(k) {
                        let i = choose|i: int|
                            0 <= i < n.transactions.len() && n.transactions[i].id.0 == k;
                        if i < o.transactions.len() {
                            assert(o.transactions[i] == n.transactions[i]);
                            assert(o.has_pending_id(k));
                        }
                    }
                    if o.has_pending_id(k) {
                        let i = choose|i: int|
                            0 <= i < o.transactions.len() && o.transactions[i].id.0 == k;
                        assert(n.transactions[i] == o.transactions[i]);
                    }
                    if k == id {
                        assert(n.transactions[o.transactions.len() as int].id.0 == k);
                    }
                }
            }
        }
        Ok(())
    }

    /// Reset the mempool to its initial state against the chain: drop every pending transaction
    /// and take the chain's tip and balances.
    pub fn reset(&mut self, blockchain: &BlockChain)
        requires
            blockchain.wf(),
        ensures
            final(self)@.tip == blockchain@.last_hash(),
            final(self)@.ids == Set::<u64>::empty(),
            final(self)@.transactions == Seq::<TxView>::empty(),
            final(self)@.balance == blockchain@.balance,
            final(self)@.ids_exact(),
    {
        self.transactions.clear();
        self.transaction_ids.clear();
        self.balance = blockchain.balance().clone();
        self.prefix_hash = blockchain.last_hash().clone();
        assert(self@.transactions =~= Seq::<TxView>::empty());
    }
}

} // verus!
