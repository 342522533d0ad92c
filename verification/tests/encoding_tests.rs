use blake2::Digest;
use chainlib::block::Block;
use chainlib::transaction::Balance;
use chainlib::transaction::{Packet, Transaction, Transactions};
use chainlib::{Hashable, Int128Ext, Int16Ext, Int32Ext, Int64Ext, Timestamp};

#[test]
fn u16_little_endian_bytes() {
    assert_eq!(0x0102u16.bytes(), [0x02, 0x01]);
}

#[test]
fn u32_little_endian_bytes() {
    assert_eq!(0x01020304u32.bytes(), [0x04, 0x03, 0x02, 0x01]);
}

#[test]
fn u64_little_endian_bytes() {
    assert_eq!(
        0x0102030405060708u64.bytes(),
        [0x08, 0x07, 0x06, 0x05, 0x04, 0x03, 0x02, 0x01]
    );
}

#[test]
fn u128_little_endian_bytes() {
    let mut expected = [0u8; 16];
    expected[14] = 0x01;
    expected[15] = 0xab;
    assert_eq!(0xab010000000000000000000000000000u128.bytes(), expected);
}

#[test]
fn timestamp_bytes_match_its_integer() {
    assert_eq!(Timestamp(0x0102030405060708).bytes(), 0x0102030405060708u64.bytes());
}

#[test]
fn difficulty_reads_bytes_sixteen_to_thirty_one() {
    // Byte 16 is the least significant byte of the 128-bit window.
    let mut bytes = [0u8; 64];
    bytes[16] = 0x01;
    assert_eq!(chainlib::Hash(bytes).difficulty(), 1);

    // Byte 31 is the most significant byte of the window.
    let mut bytes = [0u8; 64];
    bytes[31] = 0x01;
    assert_eq!(chainlib::Hash(bytes).difficulty(), 1u128 << 120);

    // Bytes outside the window are ignored.
    let mut bytes = [0xffu8; 64];
    for i in 16..32 {
        bytes[i] = 0;
    }
    bytes[17] = 0x2a;
    assert_eq!(chainlib::Hash(bytes).difficulty(), 0x2a00);
}

#[test]
fn hash_equals_is_byte_exact() {
    let a = chainlib::Hash([3u8; 64]);
    let b = chainlib::Hash([3u8; 64]);
    let mut arr = [3u8; 64];
    arr[63] = 4;
    let c = chainlib::Hash(arr);
    assert!(a.equals(&b));
    assert!(!a.equals(&c));
}

#[test]
fn default_hash_is_all_zero() {
    let h: chainlib::Hash = Default::default();
    assert_eq!(h.0, [0u8; 64]);
}

#[test]
fn packet_hash_is_blake2b_of_canonical_bytes() {
    let p = Packet { to: "ab".to_string(), id: 1, value: 2 };
    let mut data: Vec<u8> = Vec::new();
    data.extend_from_slice(b"ab");
    data.extend_from_slice(&1u64.to_le_bytes());
    data.extend_from_slice(&2u64.to_le_bytes());
    let expected: [u8; 64] = blake2::Blake2b512::digest(&data).into();
    assert_eq!(p.hash().0, expected);
}

#[test]
fn transaction_values_and_hashes() {
    let t = Transaction {
        inputs: vec![
            Packet { to: "a".to_string(), id: 1, value: 10 },
            Packet { to: "b".to_string(), id: 2, value: 5 },
        ],
        outputs: vec![Packet { to: "c".to_string(), id: 3, value: 12 }],
    };
    assert_eq!(t.input_value(), 15);
    assert_eq!(t.output_value(), 12);
    assert!(!t.is_coinbase());
    assert_eq!(t.input_hashes().len(), 2);
    assert_eq!(t.output_hashes().len(), 1);
    assert_eq!(t.input_hashes()[0], t.inputs[0].hash());

    let cb = Transaction { inputs: vec![], outputs: vec![] };
    assert!(cb.is_coinbase());
}

#[test]
fn fee_is_never_negative() {
    let minting = Transactions(vec![Transaction {
        inputs: vec![Packet { to: "a".to_string(), id: 1, value: 1 }],
        outputs: vec![Packet { to: "b".to_string(), id: 2, value: 9 }],
    }]);
    assert_eq!(minting.fee(), 0);

    let paying = Transactions(vec![Transaction {
        inputs: vec![Packet { to: "a".to_string(), id: 1, value: 9 }],
        outputs: vec![Packet { to: "b".to_string(), id: 2, value: 2 }],
    }]);
    assert_eq!(paying.fee(), 7);
    assert_eq!(paying.input_value(), 9);
    assert_eq!(paying.output_value(), 2);
    assert!(!paying.has_coinbase());
}

#[test]
fn values_fit_detects_overflowing_totals() {
    let small = Transactions(vec![Transaction {
        inputs: vec![Packet { to: "a".to_string(), id: 1, value: 9 }],
        outputs: vec![Packet { to: "b".to_string(), id: 2, value: 2 }],
    }]);
    assert!(small.values_fit());

    let huge = Transactions(vec![Transaction {
        inputs: vec![
            Packet { to: "a".to_string(), id: 1, value: u64::MAX - 1 },
            Packet { to: "a".to_string(), id: 2, value: u64::MAX - 1 },
        ],
        outputs: vec![],
    }]);
    assert!(!huge.values_fit());

    let exactly_max = Transactions(vec![Transaction {
        inputs: vec![Packet { to: "a".to_string(), id: 1, value: u64::MAX }],
        outputs: vec![],
    }]);
    assert!(!exactly_max.values_fit());

    assert!(Transactions(vec![]).values_fit());
}

#[test]
fn with_coinbase_prepends_fee_plus_reward() {
    let txs = Transactions(vec![Transaction {
        inputs: vec![Packet { to: "a".to_string(), id: 1, value: 9 }],
        outputs: vec![Packet { to: "b".to_string(), id: 2, value: 2 }],
    }]);
    let with_cb = txs.with_coinbase(42, "Miner".to_string());
    assert_eq!(with_cb.0.len(), 2);
    assert!(with_cb.0[0].is_coinbase());
    assert_eq!(with_cb.0[0].outputs.len(), 1);
    assert_eq!(with_cb.0[0].outputs[0].to, "Miner");
    assert_eq!(with_cb.0[0].outputs[0].id, 42);
    assert_eq!(with_cb.0[0].outputs[0].value, 8);
    assert_eq!(with_cb.0[1].inputs[0].to, "a");
    assert!(with_cb.has_coinbase());
}

#[test]
fn block_digest_covers_the_nonce() {
    let txs = Transactions(vec![]);
    let mut block = Block::new(0, Timestamp(1), 7, Default::default(), txs);
    let h0 = block.hash();
    block.nonce = 1;
    let h1 = block.hash();
    assert_ne!(h0, h1);
}

#[test]
fn mining_an_impossible_target_fails() {
    let txs = Transactions(vec![]);
    let mut block = Block::new(0, Timestamp(1), 0, Default::default(), txs);
    assert!(!block.mine_range(0, 50));
    assert_eq!(block.nonce, 49);
    assert_eq!(block.hash.0, [0u8; 64]);
    assert!(!block.mine_range(10, 10));
}

#[test]
fn mining_finds_a_qualifying_nonce() {
    let txs = Transactions(vec![Transaction {
        inputs: vec![],
        outputs: vec![Packet { to: "x".to_string(), id: 0, value: 1 }],
    }]);
    let difficulty = 0x00ffffffffffffffffffffffffffffffu128;
    let mut block = Block::new(0, Timestamp(1), difficulty, Default::default(), txs);
    assert!(block.mine());
    assert!(block.hash.difficulty() < difficulty);
    assert_eq!(block.hash, block.hash());
    assert!(block.check_difficulty(block.hash));
}

#[test]
fn balance_credits_outputs_and_debits_inputs() {
    let t = Transaction {
        inputs: vec![Packet { to: "alice".to_string(), id: 0, value: 2 }],
        outputs: vec![
            Packet { to: "alice".to_string(), id: 1, value: 5 },
            Packet { to: "bob".to_string(), id: 2, value: 3 },
        ],
    };
    let b = Balance::from_transaction(&t);
    assert_eq!(b.get(&"alice".to_string()), 3);
    assert_eq!(b.get(&"bob".to_string()), 3);
    assert_eq!(b.get(&"carol".to_string()), 0);
}

#[test]
fn balances_combine_by_summing() {
    let t1 = Transaction {
        inputs: vec![],
        outputs: vec![Packet { to: "alice".to_string(), id: 0, value: 5 }],
    };
    let t2 = Transaction {
        inputs: vec![Packet { to: "alice".to_string(), id: 0, value: 5 }],
        outputs: vec![Packet { to: "bob".to_string(), id: 1, value: 4 }],
    };
    let combined = Balance::from_transaction(&t1).combine(Balance::from_transaction(&t2));
    assert_eq!(combined.get(&"alice".to_string()), 0);
    assert_eq!(combined.get(&"bob".to_string()), 4);

    let via_list = Balance::from_transactions(&Transactions(vec![t1, t2]));
    assert_eq!(via_list.get(&"alice".to_string()), 0);
    assert_eq!(via_list.get(&"bob".to_string()), 4);
}
