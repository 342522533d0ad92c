use chainlib::block::Block;
use chainlib::chain::{Blockchain, ValidationError};
use chainlib::transaction::{Packet, Transaction, Transactions};
use chainlib::{Hashable, Timestamp};

const DIFFICULTY: u128 = 0x00ffffffffffffffffffffffffffffff;

fn packet(to: &str, id: u64, value: u64) -> Packet {
    Packet { to: to.to_string(), id, value }
}

fn coinbase(to: &str, id: u64, value: u64) -> Transaction {
    Transaction { inputs: vec![], outputs: vec![packet(to, id, value)] }
}

fn genesis_txs() -> Transactions {
    Transactions(vec![Transaction {
        inputs: vec![],
        outputs: vec![packet("Alice", 0, 4), packet("Bob", 1, 4)],
    }])
}

fn mined_block(chain: &Blockchain, timestamp: u64, txs: Transactions) -> Block {
    let mut block = Block::new(
        chain.next_block_index(),
        Timestamp(timestamp),
        DIFFICULTY,
        chain.last_block_hash(),
        txs,
    );
    assert!(block.mine());
    block
}

fn spend_alice_txs() -> Transactions {
    Transactions(vec![Transaction {
        inputs: vec![packet("Alice", 0, 4)],
        outputs: vec![packet("Alice", 4, 2), packet("Bob", 5, 1)],
    }])
}

#[test]
fn hashing_is_deterministic() {
    let chain = Blockchain::default();
    let block = mined_block(&chain, 1000, genesis_txs());
    assert_eq!(block.hash(), block.hash());
    let p1 = packet("Alice", 7, 9);
    let p2 = packet("Alice", 7, 9);
    assert_eq!(p1.hash(), p2.hash());
}

#[test]
fn revalidating_accepted_block_succeeds() {
    let chain = Blockchain::default();
    let block = mined_block(&chain, 1000, genesis_txs());
    assert!(chain.validate_block(&block).is_ok());
    assert!(chain.validate_block(&block).is_ok());
}

#[test]
fn genesis_block_is_accepted() {
    let mut chain = Blockchain::default();
    let block = mined_block(&chain, 1000, genesis_txs());
    assert!(chain.update_with_block(block).is_ok());
    assert_eq!(chain.next_block_index(), 1);
    let balance = chain.balance();
    assert_eq!(balance.get(&"Alice".to_string()), 4);
    assert_eq!(balance.get(&"Bob".to_string()), 4);
}

#[test]
fn genesis_coinbase_value_is_unconstrained() {
    let mut chain = Blockchain::default();
    let block = mined_block(
        &chain,
        1000,
        Transactions(vec![coinbase("Alice", 0, 12345)]),
    );
    assert!(chain.update_with_block(block).is_ok());
}

#[test]
fn double_spend_is_rejected() {
    let mut chain = Blockchain::default();
    let genesis = mined_block(&chain, 1000, genesis_txs());
    chain.update_with_block(genesis).unwrap();

    let spend = spend_alice_txs().with_coinbase(1337, "Miner".to_string());
    let block = mined_block(&chain, 2000, spend);
    chain.update_with_block(block).unwrap();

    let again = spend_alice_txs().with_coinbase(1338, "Miner".to_string());
    let block = mined_block(&chain, 3000, again);
    assert_eq!(
        chain.update_with_block(block),
        Err(ValidationError::InvalidInput)
    );
}

#[test]
fn fee_reward_law_holds() {
    // The spend leaves a fee of 1, so the coinbase must carry exactly 2.
    let spend = Transaction {
        inputs: vec![packet("Alice", 0, 4)],
        outputs: vec![packet("Alice", 4, 2), packet("Bob", 5, 1)],
    };
    for (cb_value, expected_err) in [
        (1u64, Some(ValidationError::InvalidCoinbaseTransaction)),
        (3u64, Some(ValidationError::InvalidCoinbaseTransaction)),
        (2u64, None),
    ] {
        let mut chain = Blockchain::default();
        let genesis = mined_block(&chain, 1000, genesis_txs());
        chain.update_with_block(genesis).unwrap();
        let txs = Transactions(vec![coinbase("Miner", 1337, cb_value), spend.clone()]);
        let block = mined_block(&chain, 2000, txs);
        let got = chain.update_with_block(block);
        match expected_err {
            Some(e) => assert_eq!(got, Err(e)),
            None => assert!(got.is_ok()),
        }
    }
}

#[test]
fn chain_link_violation_is_rejected() {
    let mut chain = Blockchain::default();
    let genesis = mined_block(&chain, 1000, genesis_txs());
    chain.update_with_block(genesis).unwrap();

    // A block chained to the wrong predecessor digest.
    let mut block = Block::new(
        chain.next_block_index(),
        Timestamp(2000),
        DIFFICULTY,
        chainlib::Hash([7u8; 64]),
        Transactions(vec![coinbase("Miner", 1337, 1)]),
    );
    assert!(block.mine());
    assert_eq!(
        chain.update_with_block(block),
        Err(ValidationError::HashChainViolation)
    );
}

#[test]
fn genesis_prev_hash_must_be_zero() {
    let mut chain = Blockchain::default();
    let mut block = Block::new(
        0,
        Timestamp(1000),
        DIFFICULTY,
        chainlib::Hash([1u8; 64]),
        genesis_txs(),
    );
    assert!(block.mine());
    assert_eq!(
        chain.update_with_block(block),
        Err(ValidationError::HashChainViolation)
    );
}

#[test]
fn index_mismatch_is_rejected() {
    let mut chain = Blockchain::default();
    let mut block = Block::new(
        1,
        Timestamp(1000),
        DIFFICULTY,
        chain.last_block_hash(),
        genesis_txs(),
    );
    assert!(block.mine());
    assert_eq!(
        chain.update_with_block(block),
        Err(ValidationError::IndexMismatch)
    );
}

#[test]
fn difficulty_mismatch_is_rejected() {
    // With a zero threshold no digest can qualify.
    let mut chain = Blockchain::default();
    let block = Block::new(0, Timestamp(1000), 0, chain.last_block_hash(), genesis_txs());
    assert_eq!(
        chain.update_with_block(block),
        Err(ValidationError::DifficultyMismatch)
    );
}

#[test]
fn stale_hash_is_rejected() {
    // A permissive threshold lets the zero hash through the difficulty test,
    // but the recorded hash does not match the recomputed digest.
    let mut chain = Blockchain::default();
    let block = Block::new(
        0,
        Timestamp(1000),
        u128::MAX,
        chain.last_block_hash(),
        genesis_txs(),
    );
    assert_eq!(
        chain.update_with_block(block),
        Err(ValidationError::HashMismatch)
    );
}

#[test]
fn timestamp_violation_is_rejected() {
    let mut chain = Blockchain::default();
    let genesis = mined_block(&chain, 1000, genesis_txs());
    chain.update_with_block(genesis).unwrap();
    let block = mined_block(&chain, 500, Transactions(vec![coinbase("Miner", 1337, 1)]));
    assert_eq!(
        chain.update_with_block(block),
        Err(ValidationError::TimestampViolation)
    );
}

#[test]
fn missing_coinbase_is_rejected() {
    let mut chain = Blockchain::default();
    let genesis = mined_block(&chain, 1000, genesis_txs());
    chain.update_with_block(genesis).unwrap();
    let block = mined_block(&chain, 2000, spend_alice_txs());
    assert_eq!(
        chain.update_with_block(block),
        Err(ValidationError::InvalidCoinbaseTransaction)
    );
}

#[test]
fn value_minting_is_rejected() {
    let mut chain = Blockchain::default();
    let genesis = mined_block(&chain, 1000, genesis_txs());
    chain.update_with_block(genesis).unwrap();
    // Outputs exceed inputs: 5 created from 4 consumed.
    let txs = Transactions(vec![
        coinbase("Miner", 1337, 1),
        Transaction {
            inputs: vec![packet("Alice", 0, 4)],
            outputs: vec![packet("Alice", 4, 5)],
        },
    ]);
    let block = mined_block(&chain, 2000, txs);
    assert_eq!(
        chain.update_with_block(block),
        Err(ValidationError::InsufficientInputValue)
    );
}

#[test]
fn balance_is_idempotent() {
    let mut chain = Blockchain::default();
    let genesis = mined_block(&chain, 1000, genesis_txs());
    chain.update_with_block(genesis).unwrap();
    let spend = spend_alice_txs().with_coinbase(1337, "Miner".to_string());
    let block = mined_block(&chain, 2000, spend);
    chain.update_with_block(block).unwrap();

    let first = chain.balance();
    let second = chain.balance();
    for name in ["Alice", "Bob", "Miner", "Nobody"] {
        assert_eq!(first.get(&name.to_string()), second.get(&name.to_string()));
    }
}

#[test]
fn end_to_end_scenario() {
    let mut chain = Blockchain::default();

    // Genesis creates Alice=4 and Bob=4; no fee rule applies.
    let genesis = mined_block(&chain, 1000, genesis_txs());
    assert!(chain.update_with_block(genesis).is_ok());

    // A second block spends Alice's 4-unit output into Alice=2 and Bob=1,
    // leaving a fee of 1; the synthesized coinbase mints exactly 1+1=2.
    let spend = spend_alice_txs().with_coinbase(1337, "Miner".to_string());
    let block = mined_block(&chain, 2000, spend);
    assert!(chain.update_with_block(block).is_ok());

    let balance = chain.balance();
    assert_eq!(balance.get(&"Alice".to_string()), 2);
    assert_eq!(balance.get(&"Bob".to_string()), 5);
    assert_eq!(balance.get(&"Miner".to_string()), 2);

    // Submitting the same spend again fails: the output is gone.
    let again = spend_alice_txs().with_coinbase(1338, "Miner".to_string());
    let block = mined_block(&chain, 3000, again);
    assert_eq!(
        chain.update_with_block(block),
        Err(ValidationError::InvalidInput)
    );
}

#[test]
fn total_supply_grows_by_one_per_block() {
    let mut chain = Blockchain::default();
    let genesis = mined_block(&chain, 1000, genesis_txs());
    chain.update_with_block(genesis).unwrap();
    let spend = spend_alice_txs().with_coinbase(1337, "Miner".to_string());
    let block = mined_block(&chain, 2000, spend);
    chain.update_with_block(block).unwrap();

    let balance = chain.balance();
    let names = ["Alice", "Bob", "Miner"];
    let supply: i64 = names.iter().map(|n| balance.get(&n.to_string())).sum();
    // Genesis minted 8; the one later block adds exactly the fixed reward.
    assert_eq!(supply, 8 + 1);
}

#[test]
fn empty_transaction_list_is_accepted() {
    let mut chain = Blockchain::default();
    let block = mined_block(&chain, 1000, Transactions(vec![]));
    assert!(chain.update_with_block(block).is_ok());
    assert_eq!(chain.next_block_index(), 1);
}

#[test]
fn last_block_hash_tracks_the_tip() {
    let mut chain = Blockchain::default();
    assert_eq!(chain.last_block_hash(), chainlib::Hash([0u8; 64]));
    let block = mined_block(&chain, 1000, genesis_txs());
    let tip = block.hash;
    chain.update_with_block(block).unwrap();
    assert_eq!(chain.last_block_hash(), tip);
}
