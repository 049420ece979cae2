use vstd::prelude::*;

use vstd::string::StringSliceAdditionalSpecFns;

use crate::constants::MINING_DIFFICULTY;

verus! {

/// In the blockchain, each address is associated to a certain amount of coins. Transactions can
/// update this amount. Each node in the network is also identified by an address. Mining a block
/// rewards the address of the miner with a certain amount of coins.
#[derive(Copy, Clone, Debug, PartialEq, Eq, Structural, Hash, PartialOrd, Ord)]
pub struct Address(pub u64);

/// Relies on rand::random: any `u64` may come out.
#[verifier::external_body]
fn random_u64() -> u64 {
    rand::random::<u64>()
}

/// Relies on `u64`'s `FromStr`: an optional `+` followed by one or more decimal digits whose
/// value fits in a `u64` parses to that value; anything else is an error.
#[verifier::external_body]
fn parse_u64(s: &str) -> (r: Result<u64, std::num::ParseIntError>)
    ensures
        match r {
            Ok(v) => decimal_ok(s@) && v == decimal_value(unsigned_digits(s@)),
            Err(_) => !decimal_ok(s@),
        },
{
    s.parse::<u64>()
}

#[verifier::external_type_specification]
#[verifier::external_body]
pub struct ExParseIntError(std::num::ParseIntError);

pub open spec fn is_decimal_digit(c: char) -> bool {
    '0' <= c && c <= '9'
}

/// The digits of a decimal numeral, without its optional leading `+`.
pub open spec fn unsigned_digits(s: Seq<char>) -> Seq<char> {
    if s.len() > 0 && s[0] == '+' {
        s.drop_first()
    } else {
        s
    }
}

/// The value of a sequence of decimal digits, most significant first.
pub open spec fn decimal_value(s: Seq<char>) -> nat
    decreases s.len(),
{
    if s.len() == 0 {
        0
    } else {
        decimal_value(s.drop_last()) * 10 + (s.last() as nat - '0' as nat) as nat
    }
}

/// `s` is the decimal numeral of a `u64`.
pub open spec fn decimal_ok(s: Seq<char>) -> bool {
    let d = unsigned_digits(s);
    &&& d.len() > 0
    &&& forall|i: int| 0 <= i < d.len() ==> is_decimal_digit(#[trigger] d[i])
    &&& decimal_value(d) <= u64::MAX
}

impl Address {
    pub fn new_random() -> Self {
        Address(random_u64())
    }

    /// Create an address with a specific identifier.
    pub fn new(id: u64) -> (r: Self)
        ensures
            r.0 == id,
    {
        Address(id)
    }

    /// Parses a decimal address.
    pub fn from_str(s: &str) -> (r: Result<Self, std::num::ParseIntError>)
        ensures
            r is Ok <==> decimal_ok(s@),
            r is Ok ==> r->Ok_0.0 == decimal_value(unsigned_digits(s@)),
    {
        match parse_u64(s) {
            Ok(v) => Ok(Address(v)),
            Err(e) => Err(e),
        }
    }
}

/// The identifier of the transaction. This needs to be unique at least among the transactions that
/// are part of the same block.
#[derive(Copy, Clone, Debug, PartialEq, Eq, Structural, Hash, PartialOrd, Ord)]
pub struct TransactionId(pub u64);

impl TransactionId {
    pub fn new_random() -> Self {
        TransactionId(random_u64())
    }
}

#[derive(Copy, Clone, Debug, PartialEq, Eq, Structural, PartialOrd, Ord)]
pub struct Transaction {
    /// The address of the sender of the transaction.
    pub sender: Address,
    /// The address of the receiver of the transaction.
    pub receiver: Address,
    /// The amount of transferred coins.
    pub amount: u64,
}

impl Transaction {
    pub fn new(sender: Address, receiver: Address, amount: u64) -> (r: Self)
        ensures
            r == (Transaction { sender, receiver, amount }),
    {
        Transaction { sender, receiver, amount }
    }
}

/// The hash of a block. This is used to uniquely identify a block in the blockchain.
#[derive(Debug, Eq, Hash, PartialOrd, Ord)]
pub struct BlockHash(pub Vec<u8>);

impl View for BlockHash {
    type V = Seq<u8>;

    open spec fn view(&self) -> Seq<u8> {
        self.0@
    }
}

impl PartialEq for BlockHash {
    fn eq(&self, other: &BlockHash) -> (r: bool) {
        bytes_equal(&self.0, &other.0)
    }
}

impl vstd::std_specs::cmp::PartialEqSpecImpl for BlockHash {
    open spec fn obeys_eq_spec() -> bool {
        true
    }

    open spec fn eq_spec(&self, other: &BlockHash) -> bool {
        self@ == other@
    }
}

impl Clone for BlockHash {
    fn clone(&self) -> (r: Self)
        ensures
            r@ == self@,
    {
        BlockHash(copy_bytes(&self.0))
    }
}

/// Compares two byte strings.
pub fn bytes_equal(a: &Vec<u8>, b: &Vec<u8>) -> (r: bool)
    ensures
        r == (a@ == b@),
{
    if a.len() != b.len() {
        return false;
    }
    let mut i: usize = 0;
    while i < a.len()
        invariant
            a@.len() == b@.len(),
            0 <= i <= a@.len(),
            forall|j: int| 0 <= j < i ==> a@[j] == b@[j],
        decreases a@.len() - i,
    {
        if a[i] != b[i] {
            return false;
        }
        i += 1;
    }
    assert(a@ =~= b@);
    true
}

/// Copies a byte string.
pub fn copy_bytes(a: &Vec<u8>) -> (r: Vec<u8>)
    ensures
        r@ == a@,
{
    let mut r: Vec<u8> = Vec::new();
    append_bytes(&mut r, a);
    assert(r@ =~= a@);
    r
}

/// Appends a byte string to `out`.
pub fn append_bytes(out: &mut Vec<u8>, a: &Vec<u8>)
    ensures
        final(out)@ == old(out)@ + a@,
{
    let ghost start = out@;
    let mut i: usize = 0;
    while i < a.len()
        invariant
            0 <= i <= a@.len(),
            out@ == start + a@.subrange(0, i as int),
        decreases a@.len() - i,
    {
        out.push(a[i]);
        i += 1;
        assert(out@ =~= start + a@.subrange(0, i as int));
    }
    assert(a@.subrange(0, a@.len() as int) =~= a@);
}

/// The value of one lowercase hexadecimal digit.
pub open spec fn hex_digit_value(c: u8) -> Option<u8> {
    if 48 <= c && c <= 57 {
        Some((c - 48) as u8)
    } else if 97 <= c && c <= 102 {
        Some((c - 87) as u8)
    } else {
        None
    }
}

/// `s` is an even-length string of lowercase hexadecimal digits.
pub open spec fn is_hex(s: Seq<u8>) -> bool {
    &&& s.len() % 2 == 0
    &&& forall|i: int| 0 <= i < s.len() ==> (#[trigger] hex_digit_value(s[i])) is Some
}

/// The bytes that a string of hexadecimal digits spells, two digits per byte.
pub open spec fn hex_bytes(s: Seq<u8>) -> Seq<u8> {
    Seq::new(
        s.len() / 2,
        |i: int|
            (hex_digit_value(s[2 * i])->Some_0 * 16 + hex_digit_value(s[2 * i + 1])->Some_0) as u8,
    )
}

/// Why a block hash could not be parsed.
#[derive(Copy, Clone, Debug, PartialEq, Eq, Structural)]
pub enum HexError {
    /// The string holds an odd number of characters.
    OddLength,
    /// The string holds a character that is not a lowercase hexadecimal digit.
    InvalidDigit,
}

fn hex_digit(c: u8) -> (r: Option<u8>)
    ensures
        r == hex_digit_value(c),
        r is Some ==> r->Some_0 < 16,
{
    if 48 <= c && c <= 57 {
        Some(c - 48)
    } else if 97 <= c && c <= 102 {
        Some(c - 87)
    } else {
        None
    }
}

/// The number of leading zero bits of one byte.
pub open spec fn byte_leading_zeros(b: u8) -> nat {
    if b >= 128 {
        0
    } else if b >= 64 {
        1
    } else if b >= 32 {
        2
    } else if b >= 16 {
        3
    } else if b >= 8 {
        4
    } else if b >= 4 {
        5
    } else if b >= 2 {
        6
    } else if b >= 1 {
        7
    } else {
        8
    }
}

/// The number of leading zero bits of a byte string, read left to right.
pub open spec fn leading_zero_bits(s: Seq<u8>) -> nat
    decreases s.len(),
{
    if s.len() == 0 {
        0
    } else if s[0] == 0 {
        8 + leading_zero_bits(s.drop_first())
    } else {
        byte_leading_zeros(s[0])
    }
}

proof fn lemma_leading_zero_bits_bound(s: Seq<u8>)
    ensures
        leading_zero_bits(s) <= 8 * s.len(),
    decreases s.len(),
{
    if s.len() > 0 && s[0] == 0 {
        lemma_leading_zero_bits_bound(s.drop_first());
    }
}

fn byte_zeros(b: u8) -> (r: u32)
    ensures
        r == byte_leading_zeros(b),
{
    if b >= 128 {
        0
    } else if b >= 64 {
        1
    } else if b >= 32 {
        2
    } else if b >= 16 {
        3
    } else if b >= 8 {
        4
    } else if b >= 4 {
        5
    } else if b >= 2 {
        6
    } else if b >= 1 {
        7
    } else {
        8
    }
}

impl BlockHash {
    /// The hash that the genesis block names as its prefix.
    pub fn empty() -> (r: Self)
        ensures
            r@ == Seq::<u8>::empty(),
    {
        BlockHash(Vec::new())
    }

    pub fn inner(&self) -> (r: &[u8])
        ensures
            r@ == self@,
    {
        self.0.as_slice()
    }

    /// Parses a block hash written as lowercase hexadecimal digits, two per byte.
    pub fn from_str(s: &str) -> (r: Result<Self, HexError>)
        ensures
            match r {
                Ok(h) => is_hex(s.spec_bytes()) && h@ == hex_bytes(s.spec_bytes()),
                Err(HexError::OddLength) => s.spec_bytes().len() % 2 == 1,
                Err(HexError::InvalidDigit) => s.spec_bytes().len() % 2 == 0 && !is_hex(
                    s.spec_bytes(),
                ),
            },
    {
        let b = s.as_bytes();
        if b.len() % 2 == 1 {
            return Err(HexError::OddLength);
        }
        let mut bytes: Vec<u8> = Vec::new();
        let mut i: usize = 0;
        while i < b.len() / 2
            invariant
                b@ == s.spec_bytes(),
                b@.len() % 2 == 0,
                0 <= i <= b@.len() / 2,
                bytes@.len() == i,
                forall|j: int| 0 <= j < 2 * i ==> (#[trigger] hex_digit_value(b@[j])) is Some,
                forall|j: int| 0 <= j < i ==> bytes@[j] == hex_bytes(b@)[j],
            decreases b@.len() / 2 - i,
        {
            let hi = hex_digit(b[2 * i]);
            let lo = hex_digit(b[2 * i + 1]);
            match (hi, lo) {
                (Some(h), Some(l)) => {
                    bytes.push(h * 16 + l);
                },
                _ => {
                    proof {
                        let k: int = if hi is None { 2 * i } else { 2 * i + 1 };
                        assert(hex_digit_value(b@[k]) is None);
                    }
                    return Err(HexError::InvalidDigit);
                },
            }
            i += 1;
        }
        assert(bytes@ =~= hex_bytes(b@));
        Ok(BlockHash(bytes))
    }

    /// Count the number of leading zero **bits** in the hash.
    pub fn leading_zero_bits(&self) -> (r: u32)
        requires
            self@.len() * 8 <= u32::MAX,
        ensures
            r == leading_zero_bits(self@),
    {
        let mut zeros: u32 = 0;
        let mut i: usize = 0;
        assert(self@.subrange(0, self@.len() as int) =~= self@);
        while i < self.0.len()
            invariant
                0 <= i <= self@.len(),
                self@.len() * 8 <= u32::MAX,
                zeros == 8 * i,
                forall|j: int| 0 <= j < i ==> self@[j] == 0,
                leading_zero_bits(self@) == zeros + leading_zero_bits(self@.subrange(i as int, self@.len() as int)),
            decreases self@.len() - i,
        {
            let value = self.0[i];
            let ghost rest = self@.subrange(i as int, self@.len() as int);
            assert(rest[0] == value);
            if value == 0 {
                assert(rest.drop_first() =~= self@.subrange(i + 1, self@.len() as int));
                zeros += 8;
                i += 1;
            } else {
                let z = byte_zeros(value);
                return zeros + z;
            }
        }
        assert(self@.subrange(i as int, self@.len() as int).len() == 0);
        zeros
    }
}

/// A transaction as it stands in a block.
#[derive(Debug, PartialEq, Eq, PartialOrd, Ord)]
pub struct BlockTransaction {
    /// The identifier of the transaction.
    pub id: TransactionId,
    /// The hash of the block preceeding the one that contains this transaction. This is used to
    /// efficiently check that the transaction is not executed twice in the blockchain.
    pub prefix_hash: BlockHash,
    /// Information about the sender, receiver, and amount of the transaction.
    pub info: Transaction,
}

/// What a block transaction holds, as plain values.
pub struct TxView {
    pub id: TransactionId,
    pub prefix_hash: Seq<u8>,
    pub info: Transaction,
}

impl View for BlockTransaction {
    type V = TxView;

    open spec fn view(&self) -> TxView {
        TxView { id: self.id, prefix_hash: self.prefix_hash@, info: self.info }
    }
}

impl Clone for BlockTransaction {
    fn clone(&self) -> (r: Self)
        ensures
            r@ == self@,
    {
        BlockTransaction { id: self.id, prefix_hash: self.prefix_hash.clone(), info: self.info }
    }
}

impl BlockTransaction {
    /// A transaction bound to `prefix_hash`, with a fresh random id.
    pub fn new_with_random_id(prefix_hash: BlockHash, info: Transaction) -> (r: Self)
        ensures
            r.prefix_hash@ == prefix_hash@,
            r.info == info,
    {
        BlockTransaction { id: TransactionId::new_random(), prefix_hash, info }
    }
}

/// A block in the blockchain.
#[derive(Debug, PartialEq, Eq, PartialOrd, Ord)]
pub struct Block {
    /// The transactions in the block. They must all have the same `prefix_hash` of this block.
    pub transactions: Vec<BlockTransaction>,
    /// The hash of the block preceeding this one in the blockchain.
    pub prefix_hash: BlockHash,
    /// The address to which the mining reward is given.
    pub miner: Address,
    /// The nonce used to mine the block.
    pub nonce: u64,
}

/// What a list of transactions holds, as plain values.
pub open spec fn txs_view(txs: Seq<BlockTransaction>) -> Seq<TxView> {
    txs.map_values(|t: BlockTransaction| t@)
}

/// What a block holds, as plain values.
pub struct BlockView {
    pub transactions: Seq<TxView>,
    pub prefix_hash: Seq<u8>,
    pub miner: Address,
    pub nonce: u64,
}

impl View for Block {
    type V = BlockView;

    open spec fn view(&self) -> BlockView {
        BlockView {
            transactions: txs_view(self.transactions@),
            prefix_hash: self.prefix_hash@,
            miner: self.miner,
            nonce: self.nonce,
        }
    }
}

impl Clone for Block {
    fn clone(&self) -> (r: Self)
        ensures
            r@ == self@,
    {
        let transactions = copy_transactions(&self.transactions);
        let r = Block {
            transactions,
            prefix_hash: self.prefix_hash.clone(),
            miner: self.miner,
            nonce: self.nonce,
        };
        assert(r@.transactions =~= self@.transactions);
        r
    }
}

/// Copies a list of transactions.
pub fn copy_transactions(txs: &Vec<BlockTransaction>) -> (r: Vec<BlockTransaction>)
    ensures
        txs_view(r@) == txs_view(txs@),
{
    let mut r: Vec<BlockTransaction> = Vec::new();
    let mut i: usize = 0;
    while i < txs.len()
        invariant
            0 <= i <= txs@.len(),
            r@.len() == i,
            forall|j: int| 0 <= j < i ==> (#[trigger] r@[j])@ == txs@[j]@,
        decreases txs@.len() - i,
    {
        r.push(txs[i].clone());
        i += 1;
    }
    assert(txs_view(r@) =~= txs_view(txs@));
    r
}

/// The little-endian bytes of a `u64`.
pub open spec fn le_bytes(v: u64) -> Seq<u8> {
    seq![
        #[verifier::truncate] (v as u8),
        #[verifier::truncate] ((v >> 8u64) as u8),
        #[verifier::truncate] ((v >> 16u64) as u8),
        #[verifier::truncate] ((v >> 24u64) as u8),
        #[verifier::truncate] ((v >> 32u64) as u8),
        #[verifier::truncate] ((v >> 40u64) as u8),
        #[verifier::truncate] ((v >> 48u64) as u8),
        #[verifier::truncate] ((v >> 56u64) as u8),
    ]
}

/// A byte string preceded by its length.
pub open spec fn encode_hash(h: Seq<u8>) -> Seq<u8> {
    le_bytes(h.len() as u64) + h
}

/// The canonical bytes of one transaction: id, prefix hash, sender, receiver, amount.
pub open spec fn encode_tx(t: TxView) -> Seq<u8> {
    le_bytes(t.id.0) + encode_hash(t.prefix_hash) + le_bytes(t.info.sender.0) + le_bytes(
        t.info.receiver.0,
    ) + le_bytes(t.info.amount)
}

/// The canonical bytes of a list of transactions, without its count.
pub open spec fn encode_txs(txs: Seq<TxView>) -> Seq<u8>
    decreases txs.len(),
{
    if txs.len() == 0 {
        Seq::empty()
    } else {
        encode_txs(txs.drop_last()) + encode_tx(txs.last())
    }
}

/// The canonical bytes of a block up to its nonce.
pub open spec fn encode_block_head(b: BlockView) -> Seq<u8> {
    le_bytes(b.transactions.len() as u64) + encode_txs(b.transactions) + encode_hash(b.prefix_hash)
        + le_bytes(b.miner.0)
}

/// The canonical bytes of a block, from which its hash is computed.
pub open spec fn encode_block(b: BlockView) -> Seq<u8> {
    encode_block_head(b) + le_bytes(b.nonce)
}

/// The SHA-256 digest of a byte string.
pub uninterp spec fn sha256_of(bytes: Seq<u8>) -> Seq<u8>;

/// Relies on sha2::Sha256: the digest of the bytes, 32 bytes long.
#[verifier::external_body]
fn sha256(bytes: &Vec<u8>) -> (r: Vec<u8>)
    ensures
        r@ == sha256_of(bytes@),
        r@.len() == 32,
{
    <sha2::Sha256 as sha2::Digest>::digest(bytes.as_slice()).to_vec()
}

/// The hash of a block: the SHA-256 digest of its canonical bytes.
pub open spec fn block_hash(b: BlockView) -> Seq<u8> {
    sha256_of(encode_block(b))
}

/// A block meets `difficulty` when its hash has at least that many leading zero bits.
pub open spec fn meets_difficulty(b: BlockView, difficulty: u32) -> bool {
    leading_zero_bits(block_hash(b)) >= difficulty
}

/// A block is well mined when it meets the mining difficulty.
pub open spec fn well_mined(b: BlockView) -> bool {
    meets_difficulty(b, MINING_DIFFICULTY)
}

/// The genesis block, which every chain starts with.
pub open spec fn genesis_view() -> BlockView {
    BlockView {
        transactions: Seq::empty(),
        prefix_hash: Seq::empty(),
        miner: Address(0),
        nonce: 0,
    }
}

fn push_u64(out: &mut Vec<u8>, v: u64)
    ensures
        final(out)@ == old(out)@ + le_bytes(v),
{
    let ghost start = out@;
    out.push(#[verifier::truncate] (v as u8));
    out.push(#[verifier::truncate] ((v >> 8u64) as u8));
    out.push(#[verifier::truncate] ((v >> 16u64) as u8));
    out.push(#[verifier::truncate] ((v >> 24u64) as u8));
    out.push(#[verifier::truncate] ((v >> 32u64) as u8));
    out.push(#[verifier::truncate] ((v >> 40u64) as u8));
    out.push(#[verifier::truncate] ((v >> 48u64) as u8));
    out.push(#[verifier::truncate] ((v >> 56u64) as u8));
    assert(out@ =~= start + le_bytes(v));
}

fn push_hash(out: &mut Vec<u8>, h: &BlockHash)
    ensures
        final(out)@ == old(out)@ + encode_hash(h@),
{
    let ghost start = out@;
    push_u64(out, h.0.len() as u64);
    append_bytes(out, &h.0);
    assert(out@ =~= start + encode_hash(h@));
}

impl Block {
    pub fn genesis() -> (r: Self)
        ensures
            r@ == genesis_view(),
    {
        let r = Block {
            transactions: Vec::new(),
            prefix_hash: BlockHash::empty(),
            miner: Address(0),
            nonce: 0,
        };
        assert(r@.transactions =~= Seq::<TxView>::empty());
        r
    }

    pub fn is_genesis(&self) -> (r: bool)
        ensures
            r == (self@.prefix_hash.len() == 0),
    {
        self.prefix_hash.0.len() == 0
    }

    pub fn new(
        transactions: Vec<BlockTransaction>,
        prefix_hash: BlockHash,
        miner: Address,
        nonce: u64,
    ) -> (r: Self)
        ensures
            r.transactions == transactions,
            r.prefix_hash == prefix_hash,
            r.miner == miner,
            r.nonce == nonce,
    {
        Block { transactions, prefix_hash, miner, nonce }
    }

    /// The canonical bytes of the block without its nonce.
    pub fn encode_head(&self) -> (r: Vec<u8>)
        ensures
            r@ == encode_block_head(self@),
    {
        let mut out: Vec<u8> = Vec::new();
        push_u64(&mut out, self.transactions.len() as u64);
        let ghost txs = self@.transactions;
        let mut i: usize = 0;
        while i < self.transactions.len()
            invariant
                txs == self@.transactions,
                0 <= i <= txs.len(),
                out@ == le_bytes(txs.len() as u64) + encode_txs(txs.subrange(0, i as int)),
            decreases txs.len() - i,
        {
            let t = &self.transactions[i];
            let ghost before = out@;
            push_u64(&mut out, t.id.0);
            push_hash(&mut out, &t.prefix_hash);
            push_u64(&mut out, t.info.sender.0);
            push_u64(&mut out, t.info.receiver.0);
            push_u64(&mut out, t.info.amount);
            proof {
                let s = txs.subrange(0, i + 1);
                assert(s.drop_last() =~= txs.subrange(0, i as int));
                assert(s.last() == t@);
                assert(out@ =~= before + encode_tx(t@));
            }
            i += 1;
        }
        assert(txs.subrange(0, txs.len() as int) =~= txs);
        push_hash(&mut out, &self.prefix_hash);
        push_u64(&mut out, self.miner.0);
        out
    }

    /// The canonical bytes of the block.
    pub fn encode(&self) -> (r: Vec<u8>)
        ensures
            r@ == encode_block(self@),
    {
        let mut out = self.encode_head();
        push_u64(&mut out, self.nonce);
        out
    }

    /// Compute the hash of the block.
    pub fn hash(&self) -> (r: BlockHash)
        ensures
            r@ == block_hash(self@),
            r@.len() == 32,
    {
        BlockHash(sha256(&self.encode()))
    }

    /// Check whether the hash of the block has at least `difficulty` leading zero bits.
    pub fn meets_difficulty(&self, difficulty: u32) -> (r: bool)
        ensures
            r == meets_difficulty(self@, difficulty),
    {
        self.hash().leading_zero_bits() >= difficulty
    }

    /// Check if the nonce of the block is valid. Note: this does not check whether the transactions
    /// in the block are valid.
    pub fn is_valid_nonce(&self) -> (r: bool)
        ensures
            r == well_mined(self@),
    {
        self.meets_difficulty(MINING_DIFFICULTY)
    }
}

/// The block that mining builds from its parts and a nonce.
pub open spec fn candidate_block(
    prefix_hash: Seq<u8>,
    miner: Address,
    transactions: Seq<TxView>,
    nonce: u64,
) -> BlockView {
    BlockView { transactions, prefix_hash, miner, nonce }
}

/// Attempt to mine a block at the given difficulty, trying the nonces `first..=last` in order.
/// Returns the block with the first nonce that meets the difficulty, if any does.
pub fn mine_block(
    prefix_hash: BlockHash,
    miner: Address,
    transactions: Vec<BlockTransaction>,
    first: u64,
    last: u64,
    difficulty: u32,
) -> (r: Option<Block>)
    ensures
        match r {
            Some(b) => {
                &&& first <= b.nonce <= last
                &&& b@ == candidate_block(prefix_hash@, miner, txs_view(transactions@), b.nonce)
                &&& meets_difficulty(b@, difficulty)
                &&& forall|n: u64| first <= n < b.nonce ==> !meets_difficulty(
                    #[trigger] candidate_block(prefix_hash@, miner, txs_view(transactions@), n),
                    difficulty,
                )
            },
            None => forall|n: u64| first <= n <= last ==> !meets_difficulty(
                #[trigger] candidate_block(prefix_hash@, miner, txs_view(transactions@), n),
                difficulty,
            ),
        },
{
    let ghost txs = txs_view(transactions@);
    let ghost ph = prefix_hash@;
    let mut block = Block::new(transactions, prefix_hash, miner, first);
    if first > last {
        return None;
    }
    let mut bytes = block.encode_head();
    let head_len = bytes.len();
    let ghost head = bytes@;
    let mut nonce: u64 = first;
    loop
        invariant
            first <= nonce <= last,
            ph == prefix_hash@,
            txs == txs_view(transactions@),
            block@ == candidate_block(ph, miner, txs, first),
            head == encode_block_head(block@),
            bytes@ == head,
            head_len == head.len(),
            forall|n: u64| first <= n < nonce ==> !meets_difficulty(
                #[trigger] candidate_block(ph, miner, txs, n),
                difficulty,
            ),
        decreases last - nonce,
    {
        push_u64(&mut bytes, nonce);
        let h = BlockHash(sha256(&bytes));
        proof {
            let c = candidate_block(ph, miner, txs, nonce);
            assert(encode_block_head(c) == encode_block_head(block@));
            assert(bytes@ == encode_block(c));
        }
        bytes.truncate(head_len);
        assert(bytes@ =~= head);
        if h.leading_zero_bits() >= difficulty {
            block.nonce = nonce;
            assert(block@.transactions == txs);
            assert(block@ == candidate_block(ph, miner, txs, nonce));
            return Some(block);
        }
        assert(!meets_difficulty(candidate_block(ph, miner, txs, nonce), difficulty));
        if nonce == last {
            return None;
        }
        nonce += 1;
    }
}

/// Attempt to mine a well-mined block, trying the nonces `first..=last` in order.
pub fn attempt_mining_block(
    prefix_hash: BlockHash,
    miner: Address,
    transactions: Vec<BlockTransaction>,
    first: u64,
    last: u64,
) -> (r: Option<Block>)
    ensures
        match r {
            Some(b) => {
                &&& first <= b.nonce <= last
                &&& b@ == candidate_block(prefix_hash@, miner, txs_view(transactions@), b.nonce)
                &&& well_mined(b@)
                &&& forall|n: u64| first <= n < b.nonce ==> !well_mined(
                    #[trigger] candidate_block(prefix_hash@, miner, txs_view(transactions@), n),
                )
            },
            None => forall|n: u64| first <= n <= last ==> !well_mined(
                #[trigger] candidate_block(prefix_hash@, miner, txs_view(transactions@), n),
            ),
        },
{
    mine_block(prefix_hash, miner, transactions, first, last, MINING_DIFFICULTY)
}

} // verus!
