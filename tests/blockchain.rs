use blocksim::block::{attempt_mining_block, mine_block, Address, Block, BlockHash, BlockTransaction, Transaction, TransactionId};
use blocksim::blockchain::BlockChain;
use blocksim::constants::{COINS_PER_MINED_BLOCK, MINING_DIFFICULTY};
use blocksim::mempool::MemPool;

const TEST_DIFFICULTY: u32 = 8;

fn mine_on(chain: &BlockChain, miner: Address, txs: Vec<BlockTransaction>) -> Block {
    mine_block(chain.last_hash().clone(), miner, txs, 0, u64::MAX, chain.difficulty()).unwrap()
}

#[test]
fn blockchain_mine_three_blocks() {
    let mut blockchain = BlockChain::new();
    let miner = Address::new(1);
    for _ in 0..3 {
        let new_block =
            attempt_mining_block(blockchain.last_hash().clone(), miner, vec![], 0, u64::MAX)
                .unwrap();
        blockchain.append_block(new_block).unwrap();
    }
    assert!(blockchain.len() == 4);
    assert!(blockchain.balance().len() == 1);
    assert!(blockchain.balance_of(miner) == 3 * COINS_PER_MINED_BLOCK);
}

#[test]
fn mine_three_blocks_solo_other_balances_zero() {
    let mut chain = BlockChain::with_difficulty(TEST_DIFFICULTY);
    let miner = Address::new(1);
    for _ in 0..3 {
        let b = mine_on(&chain, miner, vec![]);
        chain.append_block(b).unwrap();
    }
    assert_eq!(chain.len(), 4);
    assert_eq!(chain.balance_of(miner), 3000);
    assert_eq!(chain.balance_of(Address::new(0)), 0);
    assert_eq!(chain.balance_of(Address::new(2)), 0);
}

#[test]
fn genesis_stays_first() {
    let mut chain = BlockChain::with_difficulty(TEST_DIFFICULTY);
    let genesis_hash = Block::genesis().hash();
    assert!(chain.last_hash() == &genesis_hash);
    assert!(chain.pop_block().is_none());
    let b = mine_on(&chain, Address::new(1), vec![]);
    chain.append_block(b).unwrap();
    assert!(chain.contains(&genesis_hash));
    assert!(chain.get_block(&genesis_hash).unwrap().is_genesis());
}

#[test]
fn append_rejects_wrong_prefix() {
    let mut chain = BlockChain::with_difficulty(TEST_DIFFICULTY);
    let b = mine_block(BlockHash(vec![1, 2, 3]), Address::new(1), vec![], 0, u64::MAX, TEST_DIFFICULTY).unwrap();
    assert!(chain.append_block(b).is_err());
    assert_eq!(chain.len(), 1);
    assert!(chain.balance().is_empty());
}

#[test]
fn append_rejects_badly_mined_block() {
    let mut chain = BlockChain::with_difficulty(TEST_DIFFICULTY);
    let mut nonce = 0u64;
    let bad = loop {
        let b = Block::new(vec![], chain.last_hash().clone(), Address::new(1), nonce);
        if !b.meets_difficulty(TEST_DIFFICULTY) {
            break b;
        }
        nonce += 1;
    };
    assert!(chain.append_block(bad).is_err());
    assert_eq!(chain.len(), 1);
}

#[test]
fn append_rejects_overdraft_and_keeps_state() {
    let mut chain = BlockChain::with_difficulty(TEST_DIFFICULTY);
    let a = Address::new(1);
    let b = mine_on(&chain, a, vec![]);
    chain.append_block(b).unwrap();
    let prefix = chain.last_hash().clone();
    let tx1 = BlockTransaction { id: TransactionId(1), prefix_hash: prefix.clone(), info: Transaction::new(a, Address::new(2), 600) };
    let tx2 = BlockTransaction { id: TransactionId(2), prefix_hash: prefix.clone(), info: Transaction::new(a, Address::new(3), 600) };
    let block = mine_on(&chain, a, vec![tx1, tx2]);
    assert!(chain.append_block(block).is_err());
    assert_eq!(chain.len(), 2);
    assert_eq!(chain.balance_of(a), 1000);
    assert_eq!(chain.balance().len(), 1);
}

#[test]
fn append_rejects_duplicate_ids() {
    let mut chain = BlockChain::with_difficulty(TEST_DIFFICULTY);
    let a = Address::new(1);
    let b = mine_on(&chain, a, vec![]);
    chain.append_block(b).unwrap();
    let prefix = chain.last_hash().clone();
    let tx1 = BlockTransaction { id: TransactionId(5), prefix_hash: prefix.clone(), info: Transaction::new(a, Address::new(2), 10) };
    let tx2 = BlockTransaction { id: TransactionId(5), prefix_hash: prefix.clone(), info: Transaction::new(a, Address::new(3), 10) };
    let block = mine_on(&chain, a, vec![tx1, tx2]);
    assert!(chain.append_block(block).is_err());
    assert_eq!(chain.len(), 2);
}

#[test]
fn append_rejects_transaction_of_other_prefix() {
    let mut chain = BlockChain::with_difficulty(TEST_DIFFICULTY);
    let a = Address::new(1);
    let b = mine_on(&chain, a, vec![]);
    chain.append_block(b).unwrap();
    let tx = BlockTransaction { id: TransactionId(1), prefix_hash: BlockHash(vec![9]), info: Transaction::new(a, Address::new(2), 10) };
    let block = mine_on(&chain, a, vec![tx]);
    assert!(chain.append_block(block).is_err());
    assert_eq!(chain.balance_of(a), 1000);
}

#[test]
fn transactions_move_coins_in_order() {
    let mut chain = BlockChain::with_difficulty(TEST_DIFFICULTY);
    let a = Address::new(1);
    let b = Address::new(2);
    let blk = mine_on(&chain, a, vec![]);
    chain.append_block(blk).unwrap();
    let prefix = chain.last_hash().clone();
    let tx1 = BlockTransaction { id: TransactionId(1), prefix_hash: prefix.clone(), info: Transaction::new(a, b, 1000) };
    let tx2 = BlockTransaction { id: TransactionId(2), prefix_hash: prefix.clone(), info: Transaction::new(b, a, 250) };
    let blk = mine_on(&chain, b, vec![tx1, tx2]);
    chain.append_block(blk).unwrap();
    assert_eq!(chain.balance_of(a), 250);
    assert_eq!(chain.balance_of(b), 750 + 1000);
}

#[test]
fn append_then_pop_restores_balances() {
    let mut chain = BlockChain::with_difficulty(TEST_DIFFICULTY);
    let a = Address::new(1);
    let blk = mine_on(&chain, a, vec![]);
    chain.append_block(blk).unwrap();
    let before = chain.balance().clone();
    let prefix = chain.last_hash().clone();
    let tx = BlockTransaction { id: TransactionId(1), prefix_hash: prefix, info: Transaction::new(a, Address::new(7), 1000) };
    let blk = mine_on(&chain, Address::new(9), vec![tx]);
    chain.append_block(blk.clone()).unwrap();
    assert_eq!(chain.balance_of(a), 0);
    assert_eq!(chain.balance_of(Address::new(7)), 1000);
    let popped = chain.pop_block().unwrap();
    assert!(popped == blk);
    assert_eq!(chain.balance(), &before);
    assert_eq!(chain.len(), 2);
}

#[test]
fn pop_until_and_append_blocks() {
    let mut chain = BlockChain::with_difficulty(TEST_DIFFICULTY);
    let a = Address::new(1);
    let mut mined = vec![];
    for _ in 0..3 {
        let b = mine_on(&chain, a, vec![]);
        chain.append_block(b.clone()).unwrap();
        mined.push(b);
    }
    let target = mined[0].hash();
    chain.pop_until(&target);
    assert_eq!(chain.len(), 2);
    assert!(chain.last_hash() == &target);
    assert_eq!(chain.balance_of(a), 1000);
    // The second block is accepted, the third then fails as a repeat of the second.
    let again = vec![mined[1].clone(), mined[1].clone(), mined[2].clone()];
    assert!(chain.append_blocks(again).is_err());
    assert_eq!(chain.len(), 3);
    assert!(chain.append_blocks(vec![mined[2].clone()]).is_ok());
    assert_eq!(chain.len(), 4);
    assert_eq!(chain.balance_of(a), 3000);
}

#[test]
fn mempool_starts_from_chain() {
    let mut chain = BlockChain::with_difficulty(TEST_DIFFICULTY);
    let b = mine_on(&chain, Address::new(1), vec![]);
    chain.append_block(b).unwrap();
    let pool = MemPool::new(&chain);
    assert_eq!(pool.balance(), chain.balance());
    assert!(pool.tip() == chain.last_hash());
    assert_eq!(pool.len(), 0);
}

#[test]
fn mempool_admission_rules() {
    let mut chain = BlockChain::with_difficulty(TEST_DIFFICULTY);
    let a = Address::new(1);
    let b = mine_on(&chain, a, vec![]);
    chain.append_block(b).unwrap();
    let mut pool = MemPool::new(&chain);
    let tip = chain.last_hash().clone();
    let ok = BlockTransaction { id: TransactionId(1), prefix_hash: tip.clone(), info: Transaction::new(a, Address::new(2), 700) };
    assert!(pool.add_transaction(ok).is_ok());
    assert_eq!(pool.balance_of(a), 300);
    assert_eq!(pool.balance_of(Address::new(2)), 700);
    let dup = BlockTransaction { id: TransactionId(1), prefix_hash: tip.clone(), info: Transaction::new(a, Address::new(2), 1) };
    assert!(pool.add_transaction(dup).is_err());
    let poor = BlockTransaction { id: TransactionId(2), prefix_hash: tip.clone(), info: Transaction::new(a, Address::new(3), 301) };
    assert!(pool.add_transaction(poor).is_err());
    let stale = BlockTransaction { id: TransactionId(3), prefix_hash: Block::genesis().hash(), info: Transaction::new(a, Address::new(3), 1) };
    assert!(pool.add_transaction(stale).is_err());
    assert_eq!(pool.len(), 1);
    assert_eq!(pool.balance_of(a), 300);
    pool.reset(&chain);
    assert_eq!(pool.len(), 0);
    assert_eq!(pool.balance_of(a), 1000);
}

#[test]
fn standard_difficulty_constant() {
    assert_eq!(BlockChain::new().difficulty(), MINING_DIFFICULTY);
}
