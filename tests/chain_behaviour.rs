use std::sync::atomic::AtomicBool;

use blockchain::{
    difficulty_bytes_as_u128, retarget, target_bytes, u128_bytes, u32_bytes, u64_bytes, validate_chain, Block,
    Blockchain, ChainConfig, ChainError, Hashable, Ledger, Transaction,
};
use blockchain::{millis_of, now};

fn tx(sender: &str, recipient: &str, amount: u64) -> Transaction {
    Transaction::new(sender.to_string(), recipient.to_string(), amount).unwrap()
}

fn easy_config() -> ChainConfig {
    ChainConfig {
        initial_difficulty: vec![0xff; 32],
        retarget_interval: 1000,
        target_block_time: 10_000,
        min_difficulty: 1,
        max_difficulty: u128::MAX,
    }
}

fn alice_chain() -> Blockchain {
    Blockchain::new(vec![tx("", "Alice", 100)], easy_config(), 1_000)
}

fn mined_next(chain: &Blockchain, timestamp: u128) -> Block {
    let mut block = chain.assemble_candidate(timestamp);
    let cancel = AtomicBool::new(false);
    assert_eq!(block.mine(&cancel), Ok(()));
    block
}

fn mined_with(chain: &Blockchain, txs: Vec<Transaction>) -> Block {
    let tip = chain.tip();
    let mut block = Block::candidate(tip.index + 1, tip.timestamp + 1, tip.hash(), txs, vec![0xff; 32]);
    let cancel = AtomicBool::new(false);
    assert_eq!(block.mine(&cancel), Ok(()));
    block
}

fn alice() -> String {
    "Alice".to_string()
}

fn bob() -> String {
    "Bob".to_string()
}

#[test]
fn encodes_u32_little_endian() {
    assert_eq!(u32_bytes(&0x1234_5678), [0x78, 0x56, 0x34, 0x12]);
    assert_eq!(u32_bytes(&0), [0, 0, 0, 0]);
    assert_eq!(u32_bytes(&u32::MAX), [0xff; 4]);
}

#[test]
fn encodes_u64_little_endian() {
    assert_eq!(u64_bytes(&0x0102_0304_0506_0708), [8, 7, 6, 5, 4, 3, 2, 1]);
    assert_eq!(u64_bytes(&1), [1, 0, 0, 0, 0, 0, 0, 0]);
}

#[test]
fn encodes_u128_little_endian() {
    let v: u128 = 0x0f0e_0d0c_0b0a_0908_0706_0504_0302_0100;
    let expected: Vec<u8> = (0u8..16).collect();
    assert_eq!(u128_bytes(&v).to_vec(), expected);
    assert_eq!(u128_bytes(&u128::MAX), [0xff; 16]);
}

#[test]
fn difficulty_reads_upper_half_only() {
    let mut v = vec![0xaau8; 32];
    for i in 16..32 {
        v[i] = 0;
    }
    v[16] = 0x01;
    v[31] = 0x80;
    assert_eq!(difficulty_bytes_as_u128(&v), (0x80u128 << 120) | 1);
    assert_eq!(difficulty_bytes_as_u128(&vec![0xff; 32]), u128::MAX);
    let mut low_only = vec![0u8; 32];
    for i in 0..16 {
        low_only[i] = 0xff;
    }
    assert_eq!(difficulty_bytes_as_u128(&low_only), 0);
}

#[test]
fn difficulty_round_trips_through_u128_bytes() {
    let v: u128 = 0x1234_5678_9abc_def0_1122_3344_5566_7788;
    let mut buf = vec![0u8; 16];
    buf.extend_from_slice(&u128_bytes(&v));
    assert_eq!(difficulty_bytes_as_u128(&buf), v);
}

#[test]
fn transaction_with_zero_amount_is_malformed() {
    let r = Transaction::new(alice(), bob(), 0);
    assert!(matches!(r, Err(ChainError::MalformedTransaction)));
}

#[test]
fn transaction_bytes_are_sender_recipient_amount() {
    let t = tx("ab", "c", 0x0102);
    let mut expected = b"abc".to_vec();
    expected.extend_from_slice(&[0x02, 0x01, 0, 0, 0, 0, 0, 0]);
    assert_eq!(t.bytes(), expected);
}

#[test]
fn transaction_hash_is_sha256_of_bytes() {
    let t = tx("alice", "bob", 5);
    let expected: Vec<u8> = vec![
        221, 203, 163, 238, 197, 202, 196, 138, 93, 60, 247, 104, 13, 116, 182, 83, 236, 133, 1, 199, 64, 227, 31, 51,
        69, 184, 185, 103, 223, 195, 113, 216,
    ];
    assert_eq!(t.hash(), expected);
    assert_ne!(t.hash(), t.bytes());
}

#[test]
fn hashing_is_deterministic_and_field_sensitive() {
    let t = tx("alice", "bob", 5);
    assert_eq!(t.hash(), t.hash());
    assert_ne!(t.bytes(), tx("alicf", "bob", 5).bytes());
    assert_ne!(t.bytes(), tx("alice", "bo", 5).bytes());
    assert_ne!(t.bytes(), tx("alice", "bob", 6).bytes());
    assert_ne!(t.hash(), tx("alice", "bob", 6).hash());
}

#[test]
fn block_bytes_follow_field_order() {
    let b = Block::candidate(1, 2, vec![3u8; 32], vec![tx("a", "b", 4)], vec![5u8; 32]);
    let mut expected = vec![1, 0, 0, 0];
    let mut ts = vec![0u8; 16];
    ts[0] = 2;
    expected.extend_from_slice(&ts);
    expected.extend_from_slice(&[3u8; 32]);
    expected.extend_from_slice(&[0u8; 8]);
    expected.extend_from_slice(&[5u8; 32]);
    expected.extend_from_slice(b"ab");
    expected.extend_from_slice(&[4, 0, 0, 0, 0, 0, 0, 0]);
    assert_eq!(b.bytes(), expected);
    assert_eq!(b.hash().len(), 32);
    assert_eq!(b.hash(), b.hash());
}

#[test]
fn block_bytes_change_with_nonce() {
    let mut b = Block::candidate(1, 2, vec![3u8; 32], vec![], vec![5u8; 32]);
    let before = b.bytes();
    b.nonce = 1;
    assert_ne!(b.bytes(), before);
}

#[test]
fn mining_against_maximal_target_succeeds_at_first_nonce() {
    let mut b = Block::candidate(1, 7, vec![0u8; 32], vec![tx("a", "b", 1)], vec![0xff; 32]);
    let cancel = AtomicBool::new(false);
    assert_eq!(b.mine(&cancel), Ok(()));
    assert_eq!(b.nonce, 0);
    assert_eq!(b.hash, b.hash());
    assert_eq!(b.verify(), Ok(()));
}

#[test]
fn mining_against_zero_target_exhausts_range() {
    let mut b = Block::candidate(1, 7, vec![0u8; 32], vec![], vec![0u8; 32]);
    let cancel = AtomicBool::new(false);
    assert_eq!(b.mine_range(0, 300, &cancel), Err(ChainError::NonceExhausted));
    assert_eq!(b.nonce, 300);
    assert!(b.hash.is_empty());
}

#[test]
fn mining_stops_when_cancelled() {
    let mut b = Block::candidate(1, 7, vec![0u8; 32], vec![], vec![0u8; 32]);
    let cancel = AtomicBool::new(true);
    assert_eq!(b.mine_range(0, 5000, &cancel), Err(ChainError::MiningCancelled));
    assert_eq!(b.nonce, 1023);
}

#[test]
fn mining_finds_moderate_target() {
    let mut target = vec![0xffu8; 32];
    target[31] = 0x0f;
    let mut b = Block::candidate(3, 9, vec![1u8; 32], vec![], target);
    let cancel = AtomicBool::new(false);
    assert_eq!(b.mine(&cancel), Ok(()));
    assert!(b.hash[31] <= 0x0f);
    assert_eq!(b.verify(), Ok(()));
}

#[test]
fn mined_block_verifies_after_copy() {
    let mut b = Block::candidate(1, 7, vec![0u8; 32], vec![tx("a", "b", 1)], vec![0xff; 32]);
    let cancel = AtomicBool::new(false);
    assert_eq!(b.mine(&cancel), Ok(()));
    let copy = Block {
        index: b.index,
        timestamp: b.timestamp,
        prev_block_hash: b.prev_block_hash.clone(),
        transactions: vec![tx("a", "b", 1)],
        nonce: b.nonce,
        difficulty: b.difficulty.clone(),
        hash: b.hash.clone(),
    };
    assert_eq!(copy.verify(), Ok(()));
}

#[test]
fn verify_detects_tampering() {
    let mut b = Block::candidate(1, 7, vec![0u8; 32], vec![], vec![0xff; 32]);
    let cancel = AtomicBool::new(false);
    assert_eq!(b.mine(&cancel), Ok(()));
    b.nonce = 5;
    assert_eq!(b.verify(), Err(ChainError::HashMismatch));
    let mut c = Block::candidate(1, 7, vec![0u8; 32], vec![], vec![0u8; 32]);
    c.hash = c.hash();
    assert_eq!(c.verify(), Err(ChainError::InvalidProofOfWork));
}

#[test]
fn genesis_chain_has_one_block() {
    let chain = alice_chain();
    assert_eq!(chain.len(), 1);
    let g = chain.block_at(0);
    assert_eq!(g.index, 0);
    assert_eq!(g.prev_block_hash, vec![0u8; 32]);
    assert_eq!(g.timestamp, 1_000);
    assert_eq!(chain.balance_of(&alice()), 100);
    assert_eq!(chain.balance_of(&bob()), 0);
    assert_eq!(chain.pending_count(), 0);
    assert_eq!(chain.current_difficulty(), &vec![0xff; 32]);
}

#[test]
fn transfer_scenario_moves_thirty() {
    let mut chain = alice_chain();
    assert_eq!(chain.submit_transaction(tx("Alice", "Bob", 30)), Ok(()));
    assert_eq!(chain.pending_count(), 1);
    let block = mined_next(&chain, 2_000);
    assert_eq!(block.index, 1);
    assert_eq!(chain.add_block(block), Ok(()));
    assert_eq!(chain.balance_of(&alice()), 70);
    assert_eq!(chain.balance_of(&bob()), 30);
    assert_eq!(chain.len(), 2);
    assert_eq!(chain.pending_count(), 0);
}

#[test]
fn overdraft_submission_is_refused() {
    let mut chain = alice_chain();
    chain.submit_transaction(tx("Alice", "Bob", 30)).unwrap();
    let block = mined_next(&chain, 2_000);
    chain.add_block(block).unwrap();
    assert_eq!(chain.balance_of(&alice()), 70);
    assert_eq!(chain.submit_transaction(tx("Alice", "Bob", 1000)), Err(ChainError::InsufficientBalance));
    assert_eq!(chain.pending_count(), 0);
    assert_eq!(chain.balance_of(&alice()), 70);
    assert_eq!(chain.balance_of(&bob()), 30);
}

#[test]
fn zero_amount_submission_is_malformed() {
    let mut chain = alice_chain();
    let t = Transaction { sender: alice(), recipient: bob(), amount: 0 };
    assert_eq!(chain.submit_transaction(t), Err(ChainError::MalformedTransaction));
    assert_eq!(chain.pending_count(), 0);
}

#[test]
fn block_repeating_tip_index_is_refused() {
    let mut chain = alice_chain();
    let tip = chain.tip();
    let mut block = Block::candidate(tip.index, 2_000, tip.hash(), vec![], vec![0xff; 32]);
    let cancel = AtomicBool::new(false);
    block.mine(&cancel).unwrap();
    assert_eq!(chain.add_block(block), Err(ChainError::InvalidIndex));
    assert_eq!(chain.len(), 1);
}

#[test]
fn block_with_wrong_predecessor_is_refused() {
    let mut chain = alice_chain();
    let mut block = Block::candidate(1, 2_000, vec![7u8; 32], vec![], vec![0xff; 32]);
    let cancel = AtomicBool::new(false);
    block.mine(&cancel).unwrap();
    assert_eq!(chain.add_block(block), Err(ChainError::InvalidLinkage));
    assert_eq!(chain.len(), 1);
}

#[test]
fn candidate_stamped_now_is_unmined() {
    let chain = alice_chain();
    let block = chain.assemble_candidate_now().unwrap();
    assert_eq!(block.index, 1);
    assert!(block.hash.is_empty());
    assert_eq!(block.nonce, 0);
    assert!(block.timestamp > 1_600_000_000_000);
}

#[test]
fn unmined_block_is_refused() {
    let mut chain = alice_chain();
    let block = chain.assemble_candidate(2_000);
    assert_eq!(chain.add_block(block), Err(ChainError::HashMismatch));
    assert_eq!(chain.len(), 1);
}

#[test]
fn block_with_duplicate_transaction_is_refused() {
    let mut chain = alice_chain();
    let block = mined_with(&chain, vec![tx("Alice", "Bob", 10), tx("Alice", "Bob", 10)]);
    assert_eq!(chain.add_block(block), Err(ChainError::DuplicateTransaction));
    assert_eq!(chain.balance_of(&alice()), 100);
}

#[test]
fn block_with_zero_amount_is_refused() {
    let mut chain = alice_chain();
    let zero = Transaction { sender: alice(), recipient: bob(), amount: 0 };
    let block = mined_with(&chain, vec![zero]);
    assert_eq!(chain.add_block(block), Err(ChainError::MalformedTransaction));
    assert_eq!(chain.len(), 1);
}

#[test]
fn overdrawing_block_leaves_balances_unchanged() {
    let mut chain = alice_chain();
    let block = mined_with(&chain, vec![tx("Alice", "Bob", 60), tx("Alice", "Carol", 60)]);
    assert_eq!(chain.add_block(block), Err(ChainError::InsufficientBalance));
    assert_eq!(chain.len(), 1);
    assert_eq!(chain.balance_of(&alice()), 100);
    assert_eq!(chain.balance_of(&bob()), 0);
    assert_eq!(chain.balance_of(&"Carol".to_string()), 0);
}

#[test]
fn earlier_transfer_funds_later_one_in_same_block() {
    let mut chain = alice_chain();
    let block = mined_with(&chain, vec![tx("Alice", "Bob", 50), tx("Bob", "Carol", 40)]);
    assert_eq!(chain.add_block(block), Ok(()));
    assert_eq!(chain.balance_of(&alice()), 50);
    assert_eq!(chain.balance_of(&bob()), 10);
    assert_eq!(chain.balance_of(&"Carol".to_string()), 40);
    let total = chain.balance_of(&alice()) + chain.balance_of(&bob()) + chain.balance_of(&"Carol".to_string());
    assert_eq!(total, 100);
}

#[test]
fn pending_pool_keeps_transactions_not_in_block() {
    let mut chain = alice_chain();
    chain.submit_transaction(tx("Alice", "Bob", 10)).unwrap();
    chain.submit_transaction(tx("Alice", "Carol", 20)).unwrap();
    let block = mined_with(&chain, vec![tx("Alice", "Bob", 10)]);
    assert_eq!(chain.add_block(block), Ok(()));
    assert_eq!(chain.pending_count(), 1);
}

#[test]
fn validate_chain_accepts_built_chain() {
    let mut chain = alice_chain();
    chain.submit_transaction(tx("Alice", "Bob", 30)).unwrap();
    let block = mined_next(&chain, 2_000);
    chain.add_block(block).unwrap();
    let ledger = validate_chain(chain.block_list()).unwrap();
    assert_eq!(ledger.balance_of(&alice()), 70);
    assert_eq!(ledger.balance_of(&bob()), 30);
}

#[test]
fn validate_chain_reports_first_bad_block() {
    let chain = alice_chain();
    let genesis = chain.block_at(0);
    let g = Block {
        index: 0,
        timestamp: genesis.timestamp,
        prev_block_hash: vec![0u8; 32],
        transactions: vec![tx("", "Alice", 100)],
        nonce: genesis.nonce,
        difficulty: genesis.difficulty.clone(),
        hash: genesis.hash.clone(),
    };
    let mut b1 = Block::candidate(1, 2_000, g.hash(), vec![tx("Alice", "Bob", 500)], vec![0xff; 32]);
    let cancel = AtomicBool::new(false);
    b1.mine(&cancel).unwrap();
    assert_eq!(validate_chain(&vec![g, b1]).err(), Some((1, ChainError::InsufficientBalance)));
}

#[test]
fn validate_chain_refuses_empty_and_bad_genesis() {
    assert_eq!(validate_chain(&vec![]).err(), Some((0, ChainError::InvalidIndex)));
    let bad = Block::candidate(0, 1, vec![1u8; 32], vec![], vec![0xff; 32]);
    assert_eq!(validate_chain(&vec![bad]).err(), Some((0, ChainError::InvalidLinkage)));
    let ok = Block::candidate(0, 1, vec![0u8; 32], vec![tx("", "Zed", 9)], vec![0xff; 32]);
    let ledger = validate_chain(&vec![ok]).unwrap();
    assert_eq!(ledger.balance_of(&"Zed".to_string()), 9);
}

#[test]
fn retarget_scales_and_clamps() {
    let config = ChainConfig {
        initial_difficulty: vec![0xff; 32],
        retarget_interval: 2,
        target_block_time: 500,
        min_difficulty: 100,
        max_difficulty: 5_000,
    };
    assert_eq!(retarget(1_000, 2_000, &config), 2_000);
    assert_eq!(retarget(1_000, 500, &config), 500);
    assert_eq!(retarget(1_000, 100_000, &config), 5_000);
    assert_eq!(retarget(1_000, 10, &config), 100);
    assert_eq!(retarget(u128::MAX, u128::MAX, &config), 5_000);
}

#[test]
fn target_bytes_layout() {
    let t = target_bytes(0x0102);
    assert_eq!(t.len(), 32);
    assert_eq!(&t[0..16], &[0u8; 16]);
    assert_eq!(t[16], 0x02);
    assert_eq!(t[17], 0x01);
    assert_eq!(difficulty_bytes_as_u128(&t), 0x0102);
}

fn retarget_config(interval: u32, block_time: u128) -> ChainConfig {
    ChainConfig {
        initial_difficulty: vec![0xff; 32],
        retarget_interval: interval,
        target_block_time: block_time,
        min_difficulty: 1,
        max_difficulty: u128::MAX,
    }
}

#[test]
fn chain_retargets_at_interval_end() {
    let mut chain = Blockchain::new(vec![tx("", "Alice", 5)], retarget_config(2, 1_000), 10_000);
    let block = mined_next(&chain, 10_500);
    chain.add_block(block).unwrap();
    let first = u128::MAX / 4;
    assert_eq!(difficulty_bytes_as_u128(chain.current_difficulty()), first);
    assert_eq!(&chain.current_difficulty()[0..16], &[0u8; 16]);
    let block = mined_next(&chain, 11_000);
    chain.add_block(block).unwrap();
    assert_eq!(difficulty_bytes_as_u128(chain.current_difficulty()), first);
    let block = mined_next(&chain, 12_000);
    chain.add_block(block).unwrap();
    assert_eq!(difficulty_bytes_as_u128(chain.current_difficulty()), 63802943797675961899382738893456539647);
}

#[test]
fn chain_on_schedule_keeps_target_every_block() {
    let mut chain = Blockchain::new(vec![tx("", "Alice", 5)], retarget_config(1, 1_000), 10_000);
    for k in 1..4u128 {
        let block = mined_next(&chain, 10_000 + k * 1_000);
        chain.add_block(block).unwrap();
        assert_eq!(difficulty_bytes_as_u128(chain.current_difficulty()), u128::MAX);
    }
    let block = mined_next(&chain, 13_500);
    chain.add_block(block).unwrap();
    assert_eq!(difficulty_bytes_as_u128(chain.current_difficulty()), u128::MAX / 2);
}

#[test]
fn retarget_keeps_large_target_on_schedule() {
    let config = retarget_config(1000, 10_000);
    assert_eq!(retarget(u128::MAX, 10_000_000, &config), u128::MAX);
    assert_eq!(retarget(u128::MAX, 5_000_000, &config), u128::MAX / 2);
    assert_eq!(retarget(u128::MAX, 20_000_000, &config), u128::MAX);
    assert_eq!(retarget(1u128 << 120, 10_000_000, &config), 1u128 << 120);
    assert_eq!(retarget(1u128 << 120, 20_000_000, &config), 1u128 << 121);
    assert_eq!(retarget(1u128 << 120, 2_500_000, &config), 1u128 << 118);
    assert_eq!(retarget(1u128 << 120, 0, &config), 1);
}

#[test]
fn block_with_byte_identical_transactions_is_refused() {
    let mut chain = alice_chain();
    let block = mined_with(&chain, vec![tx("Al", "iceBob", 5), tx("Alice", "Bob", 5)]);
    assert_eq!(chain.add_block(block), Err(ChainError::DuplicateTransaction));
    assert_eq!(chain.len(), 1);
}

#[test]
fn millis_combine_seconds_and_milliseconds() {
    assert_eq!(millis_of(3, 250), 3_250);
    assert_eq!(millis_of(u64::MAX, 999), u64::MAX as u128 * 1000 + 999);
    assert!(now().unwrap() > 1_600_000_000_000);
}

#[test]
fn ledger_credit_and_debit() {
    let mut l = Ledger::new();
    assert_eq!(l.balance_of(&alice()), 0);
    l.credit(&alice(), 40);
    l.credit(&alice(), 2);
    l.credit(&bob(), 7);
    l.debit(&alice(), 12);
    assert_eq!(l.balance_of(&alice()), 30);
    assert_eq!(l.balance_of(&bob()), 7);
    let copy = l.snapshot();
    assert_eq!(copy.balance_of(&alice()), 30);
}
