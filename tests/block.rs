use blocksim::block::{attempt_mining_block, mine_block, Address, Block, BlockHash, BlockTransaction, HexError, Transaction, TransactionId};
use blocksim::constants::MINING_DIFFICULTY;
use sha2::Digest;

#[test]
fn block_mine_three_blocks() {
    let mut block = Block::genesis();
    let miner = Address::new(1);
    for _ in 0..3 {
        block = attempt_mining_block(block.hash(), miner, vec![], 0, u64::MAX).unwrap();
    }
}

#[test]
fn leading_zero_bits() {
    let mut block = Block::genesis();
    let miner = Address::new(2);
    block = attempt_mining_block(block.hash(), miner, vec![], 0, u64::MAX).unwrap();
    assert!(block.hash().leading_zero_bits() >= MINING_DIFFICULTY);
}

#[test]
fn leading_zero_bits_counts_bits() {
    assert_eq!(BlockHash(vec![]).leading_zero_bits(), 0);
    assert_eq!(BlockHash(vec![0x80]).leading_zero_bits(), 0);
    assert_eq!(BlockHash(vec![0, 0x10, 0]).leading_zero_bits(), 11);
    assert_eq!(BlockHash(vec![0, 0]).leading_zero_bits(), 16);
    assert_eq!(BlockHash(vec![1]).leading_zero_bits(), 7);
}

#[test]
fn mining_returns_first_good_nonce() {
    let prefix = Block::genesis().hash();
    let b = mine_block(prefix.clone(), Address::new(3), vec![], 0, u64::MAX, 6).unwrap();
    assert!(b.meets_difficulty(6));
    for n in 0..b.nonce {
        assert!(!Block::new(vec![], prefix.clone(), Address::new(3), n).meets_difficulty(6));
    }
    assert!(mine_block(prefix.clone(), Address::new(3), vec![], 5, 4, 6).is_none());
}

#[test]
fn encoding_matches_bincode() {
    let prefix = BlockHash(vec![1, 2, 3]);
    let tx = BlockTransaction {
        id: TransactionId(77),
        prefix_hash: prefix.clone(),
        info: Transaction::new(Address::new(5), Address::new(6), 1234),
    };
    let block = Block::new(vec![tx], prefix.clone(), Address::new(9), 42);
    let shape: (Vec<(u64, Vec<u8>, u64, u64, u64)>, Vec<u8>, u64, u64) =
        (vec![(77, vec![1, 2, 3], 5, 6, 1234)], vec![1, 2, 3], 9, 42);
    assert_eq!(block.encode(), bincode::serialize(&shape).unwrap());
}

#[test]
fn hash_is_sha256_of_encoding() {
    let block = Block::genesis();
    let h = block.hash();
    assert_eq!(h.inner().len(), 32);
    let expected = sha2::Sha256::digest(block.encode()).to_vec();
    assert_eq!(h.inner(), expected.as_slice());
    assert_ne!(h.inner(), block.encode().as_slice());
}

#[test]
fn genesis_shape() {
    let g = Block::genesis();
    assert!(g.is_genesis());
    assert!(g.transactions.is_empty());
    assert_eq!(g.miner, Address::new(0));
    assert_eq!(g.nonce, 0);
    let other = Block::new(vec![], g.hash(), Address::new(1), 0);
    assert!(!other.is_genesis());
}

#[test]
fn hash_parses_from_hex() {
    assert_eq!(BlockHash::from_str("00ff10").unwrap(), BlockHash(vec![0, 255, 16]));
    assert_eq!(BlockHash::from_str("").unwrap(), BlockHash(vec![]));
    assert_eq!(BlockHash::from_str("abc"), Err(HexError::OddLength));
    assert_eq!(BlockHash::from_str("zz"), Err(HexError::InvalidDigit));
    assert_eq!(BlockHash::from_str("AB"), Err(HexError::InvalidDigit));
}

#[test]
fn address_parses_from_decimal() {
    assert_eq!(Address::from_str("42").unwrap(), Address::new(42));
    assert_eq!(Address::from_str("18446744073709551615").unwrap(), Address::new(u64::MAX));
    assert!(Address::from_str("18446744073709551616").is_err());
    assert!(Address::from_str("x1").is_err());
    assert!(Address::from_str("").is_err());
}

#[test]
fn random_ids_are_drawn() {
    let t = BlockTransaction::new_with_random_id(BlockHash(vec![4]), Transaction::new(Address::new(1), Address::new(2), 3));
    assert_eq!(t.prefix_hash, BlockHash(vec![4]));
    assert_eq!(t.info.amount, 3);
    let a = Address::new_random();
    let b = Address::new_random();
    let c = TransactionId::new_random();
    let d = TransactionId::new_random();
    assert!(a != b || c != d);
}
