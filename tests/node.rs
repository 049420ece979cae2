use blocksim::block::{Address, Block, BlockHash, Transaction};
use blocksim::node::{FetchStep, Node};

const TEST_DIFFICULTY: u32 = 8;

fn mine(node: &mut Node) -> (Block, usize) {
    loop {
        if let Some(found) = node.mining() {
            return found;
        }
    }
}

fn two_nodes() -> (Node, Node, Block, Block) {
    let mut a = Node::with_address(Address::new(10), TEST_DIFFICULTY);
    let mut b = Node::with_address(Address::new(11), TEST_DIFFICULTY);
    let mut tip_a = Block::genesis();
    for _ in 0..2 {
        tip_a = mine(&mut a).0;
    }
    let mut tip_b = Block::genesis();
    for _ in 0..3 {
        tip_b = mine(&mut b).0;
    }
    (a, b, tip_a, tip_b)
}

#[test]
fn reorg_to_longer_chain() {
    let (mut a, b, _tip_a, tip_b) = two_nodes();
    assert_eq!(a.blockchain().len(), 3);
    a.receive_new_block(tip_b.clone(), 4, b.address());
    a.achieve_consensus(&|h: &BlockHash, _from: Address| b.get_block(h));
    assert_eq!(a.blockchain().len(), 4);
    assert!(a.blockchain().last_hash() == &tip_b.hash());
    assert_eq!(a.blockchain().balance_of(b.address()), 3000);
    assert_eq!(a.blockchain().balance_of(a.address()), 0);
}

#[test]
fn ignore_shorter_announcement() {
    let (a, mut b, tip_a, _tip_b) = two_nodes();
    let before = b.blockchain().last_hash().clone();
    b.receive_new_block(tip_a, 3, a.address());
    b.achieve_consensus(&|h: &BlockHash, _from: Address| a.get_block(h));
    assert_eq!(b.blockchain().len(), 4);
    assert!(b.blockchain().last_hash() == &before);
}

#[test]
fn transaction_end_to_end() {
    let mut n = Node::with_address(Address::new(1), TEST_DIFFICULTY);
    mine(&mut n);
    assert!(n.add_client_transaction(Transaction::new(Address::new(1), Address::new(2), 400)).is_ok());
    mine(&mut n);
    assert_eq!(n.blockchain().balance_of(Address::new(1)), 1600);
    assert_eq!(n.blockchain().balance_of(Address::new(2)), 400);
}

#[test]
fn double_spend_rejected() {
    let mut n = Node::with_address(Address::new(1), TEST_DIFFICULTY);
    mine(&mut n);
    let first = n.add_client_transaction(Transaction::new(Address::new(1), Address::new(2), 700));
    let second = n.add_client_transaction(Transaction::new(Address::new(1), Address::new(3), 700));
    assert!(first.is_ok());
    assert!(second.is_err());
    assert_eq!(n.mempool().len(), 1);
    assert_eq!(n.mempool().balance_of(Address::new(1)), 300);
}

#[test]
fn stale_prefix_transaction_dies_on_reorg() {
    let (mut a, b, _tip_a, tip_b) = two_nodes();
    let sent = a.add_client_transaction(Transaction::new(a.address(), Address::new(5), 100)).unwrap();
    assert_eq!(a.mempool().len(), 1);
    a.receive_new_block(tip_b, 4, b.address());
    a.achieve_consensus(&|h: &BlockHash, _from: Address| b.get_block(h));
    assert_eq!(a.blockchain().len(), 4);
    assert_eq!(a.mempool().len(), 0);
    assert_eq!(a.blockchain().balance_of(Address::new(5)), 0);
    let mut h = a.blockchain().last_hash().clone();
    while let Some(block) = a.blockchain().get_block(&h) {
        assert!(block.transactions.iter().all(|t| t.id != sent.id));
        if block.is_genesis() {
            break;
        }
        h = block.prefix_hash.clone();
    }
}

#[test]
fn network_transaction_admitted_once() {
    let mut a = Node::with_address(Address::new(1), TEST_DIFFICULTY);
    let mut b = Node::with_address(Address::new(2), TEST_DIFFICULTY);
    let (block, len) = mine(&mut a);
    b.receive_new_block(block, len, a.address());
    b.achieve_consensus(&|h: &BlockHash, _from: Address| a.get_block(h));
    assert_eq!(b.blockchain().len(), 2);
    let tx = a.add_client_transaction(Transaction::new(Address::new(1), Address::new(2), 10)).unwrap();
    b.add_transaction(tx.clone());
    assert_eq!(b.mempool().len(), 1);
    b.add_transaction(tx);
    assert_eq!(b.mempool().len(), 1);
}

#[test]
fn candidate_kept_only_when_longer() {
    let (mut a, b, _tip_a, tip_b) = two_nodes();
    a.receive_new_block(tip_b.clone(), 3, b.address());
    let adoption = a.begin_consensus();
    assert!(adoption.is_none());
    a.receive_new_block(tip_b.clone(), 5, b.address());
    a.receive_new_block(tip_b.clone(), 4, b.address());
    let adoption = a.begin_consensus().unwrap();
    assert_eq!(adoption.length, 5);
    match a.next_fetch(&adoption) {
        FetchStep::Fetch(h, from) => {
            assert!(h == tip_b.prefix_hash);
            assert_eq!(from, b.address());
        }
        _ => panic!("a fetch was expected"),
    }
    assert_eq!(a.blockchain().len(), 3);
    // A claimed length of 5 is not met by the 4 blocks that B holds.
    a.receive_new_block(tip_b.clone(), 5, b.address());
    a.achieve_consensus(&|h: &BlockHash, _from: Address| b.get_block(h));
    assert_eq!(a.blockchain().len(), 3);
}

#[test]
fn failed_fetch_keeps_chain() {
    let (mut a, b, _tip_a, tip_b) = two_nodes();
    a.receive_new_block(tip_b, 4, b.address());
    a.achieve_consensus(&|_h: &BlockHash, _from: Address| None);
    assert_eq!(a.blockchain().len(), 3);
    assert!(a.is_alive());
    a.stop();
    assert!(!a.is_alive());
}

#[test]
fn one_block_extension_adopted_without_query() {
    let mut a = Node::with_address(Address::new(1), TEST_DIFFICULTY);
    let mut b = Node::with_address(Address::new(2), TEST_DIFFICULTY);
    let (block, len) = mine(&mut a);
    assert_eq!(len, 2);
    b.receive_new_block(block.clone(), len, a.address());
    b.achieve_consensus(&|_h: &BlockHash, _from: Address| None);
    assert_eq!(b.blockchain().len(), 2);
    assert!(b.blockchain().last_hash() == &block.hash());
    assert_eq!(b.blockchain().balance_of(a.address()), 1000);
    assert_eq!(b.mempool().len(), 0);
}
