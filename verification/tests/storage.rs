use snarkos_ledger::block_state::BlockState;
use snarkos_ledger::data_map::DataMap;
use snarkos_ledger::digest::Digest;
use snarkos_ledger::error::LedgerError;
use snarkos_ledger::transaction_state::TransactionState;
use snarkos_ledger::types::{Block, BlockHeader, Ciphertext, Metadata, Transaction, Transition};

fn d(n: u64) -> Digest {
    Digest::new(n, 0, 0, 0)
}

fn transaction(id: u64, seed: u64) -> Transaction {
    Transaction {
        transaction_id: d(id),
        ledger_root: d(1),
        transitions: vec![
            Transition {
                transition_id: d(seed),
                serial_numbers: vec![d(seed + 1), d(seed + 2)],
                commitments: vec![d(seed + 3)],
                ciphertexts: vec![
                    Ciphertext { id: d(seed + 4), bytes: vec![4] },
                    Ciphertext { id: d(seed + 5), bytes: vec![5, 5] },
                ],
            },
            Transition {
                transition_id: d(seed + 10),
                serial_numbers: vec![d(seed + 11)],
                commitments: vec![d(seed + 12)],
                ciphertexts: vec![],
            },
        ],
        events: vec![vec![9]],
    }
}

fn block(height: u32, hash: u64, txs: Vec<Transaction>) -> Block {
    Block {
        block_hash: d(hash),
        previous_block_hash: d(hash - 1),
        header: BlockHeader {
            previous_ledger_root: d(3),
            transactions_root: d(4),
            height,
            timestamp: 10 * height as i64,
            difficulty_target: 5,
            cumulative_weight: 6,
            nonce: d(7),
        },
        transactions: txs,
    }
}

#[test]
fn digest_bytes_round_trip() {
    let x = Digest::new(0x0102_0304_0506_0708, u64::MAX, 0, 42);
    let bytes = x.to_le_bytes();
    assert_eq!(bytes[0], 0x08);
    assert_eq!(bytes[7], 0x01);
    assert_eq!(bytes[8], 0xff);
    assert_eq!(bytes[24], 42);
    assert_eq!(Digest::from_le_bytes(&bytes), x);
}

#[test]
fn data_map_insert_get_remove() {
    let mut m: DataMap<u32, u64> = DataMap::new();
    assert_eq!(m.len(), 0);
    m.insert(3, 30);
    m.insert(5, 50);
    m.insert(3, 31);
    assert_eq!(m.len(), 2);
    assert_eq!(m.get(&3), Some(&31));
    assert!(m.contains_key(&5));
    m.remove(&5);
    assert!(!m.contains_key(&5));
    assert_eq!(m.get(&5), None);
    m.remove(&5);
    assert_eq!(m.len(), 1);
}

#[test]
fn data_map_largest_value() {
    let mut m: DataMap<Digest, u32> = DataMap::new();
    assert_eq!(m.max_value(), None);
    m.insert(d(1), 4);
    m.insert(d(2), 9);
    m.insert(d(3), 2);
    assert_eq!(m.max_value(), Some(9));
}

#[test]
fn transaction_state_add_get_remove() {
    let mut s = TransactionState::new();
    let tx = transaction(100, 200);
    let metadata = Metadata::new(4, d(5), 6, 7);
    assert_eq!(s.add_transaction(&tx, metadata), Ok(()));
    assert!(s.contains_transaction(&d(100)));
    assert!(s.contains_serial_number(&d(202)));
    assert!(s.contains_serial_number(&d(211)));
    assert!(s.contains_commitment(&d(212)));
    assert!(s.contains_ciphertext_id(&d(205)));
    assert_eq!(s.get_ciphertext(&d(205)), Ok(vec![5, 5]));
    assert_eq!(s.get_transaction_metadata(&d(100)), Ok(metadata));
    let t = s.get_transition(&d(210)).expect("stored transition");
    assert_eq!(t.serial_numbers, vec![d(211)]);
    let back = s.get_transaction(&d(100)).expect("stored transaction");
    assert_eq!(back.transitions.len(), 2);
    assert_eq!(back.transitions[0].ciphertexts[1].bytes, vec![5, 5]);
    assert_eq!(back.events, vec![vec![9]]);
    assert_eq!(s.get_commitment_transition_id(&d(203)), Some(d(200)));
    assert_eq!(s.get_transition_transaction_id(&d(210)), Some(d(100)));

    assert_eq!(s.add_transaction(&tx, metadata), Err(LedgerError::TransactionExists(d(100))));

    assert_eq!(s.remove_transaction(&d(100)), Ok(()));
    assert!(!s.contains_transaction(&d(100)));
    assert!(!s.contains_serial_number(&d(201)));
    assert!(!s.contains_commitment(&d(212)));
    assert!(!s.contains_ciphertext_id(&d(204)));
    assert_eq!(s.remove_transaction(&d(100)), Err(LedgerError::TransactionNotFound(d(100))));
}

#[test]
fn transaction_state_missing_transition_is_reported() {
    let mut s = TransactionState::new();
    // Two transactions naming the same transition: removing the first drops it.
    let a = transaction(100, 200);
    let b = transaction(101, 200);
    assert_eq!(s.add_transaction(&a, Metadata::new(1, d(1), 1, 0)), Ok(()));
    assert_eq!(s.add_transaction(&b, Metadata::new(1, d(1), 1, 1)), Ok(()));
    assert_eq!(s.remove_transaction(&d(100)), Ok(()));
    assert_eq!(s.remove_transaction(&d(101)), Err(LedgerError::TransitionNotFound(d(200))));
    assert_eq!(s.get_transaction(&d(101)).map(|t| t.transaction_id), Err(LedgerError::TransactionNotFound(d(101))));
}

#[test]
fn ciphertext_lookup_errors() {
    let mut s = TransactionState::new();
    let a = transaction(100, 200);
    assert_eq!(s.add_transaction(&a, Metadata::new(1, d(1), 1, 0)), Ok(()));
    assert_eq!(s.get_ciphertext(&d(999)), Err(LedgerError::CiphertextNotFound(d(999))));
    // A second transaction re-indexes the ciphertext ID to a transition that
    // does not hold it.
    let mut b = transaction(101, 300);
    b.transitions[0].ciphertexts = vec![];
    b.transitions[1].ciphertexts = vec![];
    b.transitions[0].commitments = vec![d(204)];
    assert_eq!(s.add_transaction(&b, Metadata::new(1, d(1), 1, 1)), Ok(()));
    assert_eq!(s.get_ciphertext(&d(204)), Ok(vec![4]));
}

#[test]
fn block_state_add_and_remove() {
    let mut s = BlockState::new(d(99));
    let b0 = block(0, 1000, vec![transaction(100, 200)]);
    let b1 = block(1, 2000, vec![transaction(101, 300), transaction(102, 400)]);
    assert_eq!(s.add_block(&b0), Ok(()));
    assert_eq!(s.add_block(&b1), Ok(()));
    assert_eq!(s.add_block(&b1), Err(LedgerError::BlockExists(1)));
    assert_eq!(s.get_block_hash(1), Ok(d(2000)));
    assert_eq!(s.get_previous_block_hash(0), Ok(d(99)));
    assert_eq!(s.get_previous_block_hash(1), Ok(d(1000)));
    assert_eq!(s.get_block_height(&d(2000)), Ok(1));
    let got = s.get_block(1).expect("stored block");
    assert_eq!(got.block_hash, d(2000));
    assert_eq!(got.previous_block_hash, d(1000));
    assert_eq!(got.transactions.len(), 2);
    assert_eq!(got.transactions[1].transaction_id, d(102));
    let metadata = s.get_transaction_metadata(&d(102)).expect("metadata");
    assert_eq!(metadata, Metadata::new(1, d(2000), 10, 1));

    assert_eq!(s.remove_block(0), Err(LedgerError::GenesisRemoval));
    assert_eq!(s.remove_block(7), Err(LedgerError::BlockHeightNotFound(7)));
    assert_eq!(s.remove_block(1), Ok(()));
    assert!(!s.contains_block_height(1));
    assert!(!s.contains_block_hash(&d(2000)));
    assert!(!s.contains_transaction(&d(101)));
    assert!(s.contains_transaction(&d(100)));
}

#[test]
fn block_state_missing_parts_are_reported() {
    let s = BlockState::new(d(99));
    assert_eq!(s.get_block_header(0), Err(LedgerError::BlockHeightNotFound(0)));
    assert_eq!(s.get_block_transactions(0).map(|t| t.len()), Err(LedgerError::BlockHeightNotFound(0)));
    assert_eq!(s.get_block_hashes(0, 0), Err(LedgerError::BlockHeightNotFound(0)));
    assert_eq!(s.get_previous_ledger_root(0), Err(LedgerError::BlockHeightNotFound(0)));
}
