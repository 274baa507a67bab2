use snarkos_ledger::block_state::BlockState;
use snarkos_ledger::data_map::DataMap;
use snarkos_ledger::digest::{Digest, LedgerRoot};
use snarkos_ledger::error::LedgerError;
use snarkos_ledger::ledger::LedgerState;
use snarkos_ledger::network::new_block_hash_tree;
use snarkos_ledger::types::{Block, BlockHeader, Ciphertext, Transaction, Transition};

fn d(n: u64) -> Digest {
    Digest::new(n, 0, 0, 0)
}

fn empty_tree_root() -> LedgerRoot {
    let tree = new_block_hash_tree().expect("an empty ledger tree");
    Digest::from_le_bytes(&tree.root_bytes())
}

fn transaction(id: u64, ledger_root: LedgerRoot, seed: u64) -> Transaction {
    Transaction {
        transaction_id: d(id),
        ledger_root,
        transitions: vec![Transition {
            transition_id: d(seed),
            serial_numbers: vec![d(seed + 1)],
            commitments: vec![d(seed + 2)],
            ciphertexts: vec![Ciphertext { id: d(seed + 3), bytes: vec![7, 7, 7] }],
        }],
        events: vec![vec![1, 2]],
    }
}

fn genesis() -> Block {
    let root = empty_tree_root();
    Block {
        block_hash: d(1000),
        previous_block_hash: d(999),
        header: BlockHeader {
            previous_ledger_root: root,
            transactions_root: d(1),
            height: 0,
            timestamp: 0,
            difficulty_target: u64::MAX,
            cumulative_weight: 0,
            nonce: d(2),
        },
        transactions: vec![transaction(5000, root, 6000)],
    }
}

fn fresh_ledger() -> LedgerState {
    let g = genesis();
    let blocks = BlockState::new(g.previous_block_hash);
    LedgerState::open(g, DataMap::new(), blocks).expect("a fresh ledger opens")
}

fn next_block(ledger: &LedgerState, hash: u64, seed: u64) -> Block {
    let root = ledger.latest_ledger_root();
    Block {
        block_hash: d(hash),
        previous_block_hash: ledger.latest_block_hash(),
        header: BlockHeader {
            previous_ledger_root: root,
            transactions_root: d(hash + 1),
            height: ledger.latest_block_height() + 1,
            timestamp: ledger.latest_block_timestamp() + 20,
            difficulty_target: 1000,
            cumulative_weight: 1,
            nonce: d(hash + 2),
        },
        transactions: vec![transaction(seed, root, seed + 100)],
    }
}

#[test]
fn open_fresh_storage_holds_genesis() {
    let ledger = fresh_ledger();
    assert_eq!(ledger.latest_block_height(), 0);
    assert_eq!(ledger.latest_block_hash(), d(1000));
    assert_eq!(ledger.latest_block_locators(), &vec![(0u32, d(1000))]);
    assert!(ledger.contains_block_height(0));
    assert!(ledger.contains_block_hash(&d(1000)));
    assert!(ledger.contains_transaction(&d(5000)));
    assert!(ledger.contains_serial_number(&d(6001)));
    assert!(ledger.contains_commitment(&d(6002)));
    assert!(ledger.contains_ciphertext_id(&d(6003)));
    assert_eq!(ledger.get_block_hash(0), Ok(d(1000)));
    assert_eq!(ledger.get_previous_block_hash(0), Ok(d(999)));
}

#[test]
fn ledger_root_changes_with_the_tree() {
    let ledger = fresh_ledger();
    // The tree now holds the genesis hash: its root is not the empty tree's.
    assert_ne!(ledger.latest_ledger_root(), empty_tree_root());
    assert!(ledger.contains_ledger_root(&ledger.latest_ledger_root()));
    assert!(ledger.contains_ledger_root(&empty_tree_root()));
    assert!(!ledger.contains_ledger_root(&d(123456)));
}

#[test]
fn add_next_block_then_read_it_back() {
    let mut ledger = fresh_ledger();
    let block = next_block(&ledger, 2000, 10_000);
    let now = block.header.timestamp;
    assert_eq!(ledger.add_next_block(&block, true, 1000, now), Ok(()));
    assert_eq!(ledger.latest_block_height(), 1);
    assert_eq!(ledger.latest_block_hash(), d(2000));
    assert_eq!(ledger.get_block_hash(1), Ok(d(2000)));
    assert_eq!(ledger.get_block_height(&d(2000)), Ok(1));
    assert_eq!(ledger.get_block_header(1), Ok(block.header));
    assert_eq!(ledger.latest_block_locators(), &vec![(1u32, d(2000)), (0u32, d(1000))]);
    let tx = ledger.get_transaction(&d(10_000)).expect("stored transaction");
    assert_eq!(tx.transaction_id, d(10_000));
    assert_eq!(tx.transitions.len(), 1);
    assert_eq!(tx.transitions[0].transition_id, d(10_100));
    assert_eq!(tx.events, vec![vec![1, 2]]);
    let metadata = ledger.get_transaction_metadata(&d(10_000)).expect("metadata");
    assert_eq!(metadata.block_height, 1);
    assert_eq!(metadata.block_hash, d(2000));
    assert_eq!(metadata.transaction_index, 0);
    assert_eq!(ledger.get_ciphertext(&d(10_103)), Ok(vec![7, 7, 7]));
    let b = ledger.get_block(1).expect("stored block");
    assert_eq!(b.block_hash, d(2000));
    assert_eq!(b.previous_block_hash, d(1000));
    assert_eq!(b.transactions.len(), 1);
    assert_eq!(b.transactions[0].events, vec![vec![1, 2]]);
    assert_eq!(b.transactions[0].events, ledger.latest_block().transactions[0].events);
    assert_eq!(ledger.get_block_hashes(0, 1), Ok(vec![d(1000), d(2000)]));
    assert_eq!(ledger.get_blocks(0, 1).map(|bs| bs.len()), Ok(2));
    assert_eq!(ledger.get_previous_ledger_root(1), Ok(block.header.previous_ledger_root));
}

#[test]
fn add_then_remove_restores_the_ledger() {
    let mut ledger = fresh_ledger();
    let root_before = ledger.latest_ledger_root();
    let block = next_block(&ledger, 2000, 10_000);
    let now = block.header.timestamp;
    assert_eq!(ledger.add_next_block(&block, true, 1000, now), Ok(()));
    assert_ne!(ledger.latest_ledger_root(), root_before);
    let removed = ledger.remove_last_blocks(1).expect("removal");
    assert_eq!(removed.len(), 1);
    assert_eq!(removed[0].block_hash, d(2000));
    assert_eq!(removed[0].transactions[0].events, vec![vec![1, 2]]);
    assert_eq!(ledger.latest_block_height(), 0);
    assert_eq!(ledger.latest_block_hash(), d(1000));
    assert_eq!(ledger.latest_ledger_root(), root_before);
    assert!(!ledger.contains_block_height(1));
    assert!(!ledger.contains_block_hash(&d(2000)));
    assert!(!ledger.contains_transaction(&d(10_000)));
    assert!(!ledger.contains_serial_number(&d(10_101)));
    assert_eq!(ledger.latest_block_locators(), &vec![(0u32, d(1000))]);
}

#[test]
fn remove_returns_blocks_in_increasing_order() {
    let mut ledger = fresh_ledger();
    for k in 0..3u64 {
        let block = next_block(&ledger, 2000 + 10 * k, 10_000 + 1000 * k);
        let now = block.header.timestamp;
        assert_eq!(ledger.add_next_block(&block, true, 1000, now), Ok(()));
    }
    assert_eq!(ledger.latest_block_height(), 3);
    let removed = ledger.remove_last_blocks(2).expect("removal");
    let heights: Vec<u32> = removed.iter().map(|b| b.header.height).collect();
    assert_eq!(heights, vec![2, 3]);
    assert_eq!(ledger.latest_block_height(), 1);
    assert_eq!(ledger.latest_block_hash(), d(2000));
}

#[test]
fn remove_stops_at_genesis() {
    let mut ledger = fresh_ledger();
    let block = next_block(&ledger, 2000, 10_000);
    let now = block.header.timestamp;
    assert_eq!(ledger.add_next_block(&block, true, 1000, now), Ok(()));
    let removed = ledger.remove_last_blocks(5).expect("removal");
    assert_eq!(removed.len(), 1);
    assert_eq!(ledger.latest_block_height(), 0);
}

#[test]
fn remove_counts_out_of_range_are_refused() {
    let mut ledger = fresh_ledger();
    assert_eq!(ledger.remove_last_blocks(0).map(|b| b.len()), Err(LedgerError::InvalidRemovalCount(0)));
    assert_eq!(ledger.remove_last_blocks(4097).map(|b| b.len()), Err(LedgerError::InvalidRemovalCount(4097)));
    assert_eq!(ledger.latest_block_height(), 0);
}

#[test]
fn next_block_checks_each_rule() {
    let mut ledger = fresh_ledger();
    let good = next_block(&ledger, 2000, 10_000);
    let now = good.header.timestamp;

    assert_eq!(ledger.check_next_block(&good, false, 1000, now), Err(LedgerError::InvalidBlock(1)));

    let mut b = next_block(&ledger, 2000, 10_000);
    b.header.height = 5;
    assert_eq!(ledger.check_next_block(&b, true, 1000, now), Err(LedgerError::UnexpectedHeight(5, 1)));

    let mut b = next_block(&ledger, 2000, 10_000);
    b.previous_block_hash = d(1);
    assert_eq!(ledger.check_next_block(&b, true, 1000, now), Err(LedgerError::WrongPreviousBlockHash(1)));

    let b = next_block(&ledger, 2000, 10_000);
    assert_eq!(
        ledger.check_next_block(&b, true, 1000, b.header.timestamp - 7201),
        Err(LedgerError::TimestampTooFarAhead(b.header.timestamp))
    );
    assert_eq!(ledger.check_next_block(&b, true, 1000, b.header.timestamp - 7200), Ok(()));

    let mut b = next_block(&ledger, 2000, 10_000);
    b.header.timestamp = 0;
    assert_eq!(ledger.check_next_block(&b, true, 1000, now), Err(LedgerError::TimestampNotIncreasing(0)));

    let b = next_block(&ledger, 2000, 10_000);
    assert_eq!(ledger.check_next_block(&b, true, 999, now), Err(LedgerError::WrongDifficultyTarget(1000, 999)));

    let b = next_block(&ledger, 1000, 10_000);
    assert_eq!(ledger.check_next_block(&b, true, 1000, now), Err(LedgerError::BlockHashExists(1)));

    let mut b = next_block(&ledger, 2000, 10_000);
    b.header.previous_ledger_root = d(77);
    assert_eq!(ledger.check_next_block(&b, true, 1000, now), Err(LedgerError::WrongLedgerRoot(1)));

    let mut b = next_block(&ledger, 2000, 10_000);
    b.transactions[0].transitions[0].serial_numbers = vec![d(6001)];
    assert_eq!(ledger.check_next_block(&b, true, 1000, now), Err(LedgerError::SerialNumberExists(d(6001))));

    let mut b = next_block(&ledger, 2000, 10_000);
    b.transactions[0].transitions[0].commitments = vec![d(6002)];
    assert_eq!(ledger.check_next_block(&b, true, 1000, now), Err(LedgerError::CommitmentExists(d(6002))));

    let mut b = next_block(&ledger, 2000, 10_000);
    b.transactions[0].transaction_id = d(5000);
    assert_eq!(ledger.check_next_block(&b, true, 1000, now), Err(LedgerError::TransactionExists(d(5000))));

    let mut b = next_block(&ledger, 2000, 10_000);
    b.transactions[0].ledger_root = d(78);
    assert_eq!(
        ledger.check_next_block(&b, true, 1000, now),
        Err(LedgerError::UnknownLedgerRoot(d(10_000), d(78)))
    );

    // A refused block leaves the ledger as it was.
    let mut b = next_block(&ledger, 2000, 10_000);
    b.header.height = 5;
    assert_eq!(ledger.add_next_block(&b, true, 1000, now), Err(LedgerError::UnexpectedHeight(5, 1)));
    assert_eq!(ledger.latest_block_height(), 0);
    assert!(!ledger.contains_block_hash(&d(2000)));
}

#[test]
fn add_next_block_refuses_a_block_more_than_two_hours_ahead() {
    let mut ledger = fresh_ledger();
    let mut b = next_block(&ledger, 2000, 10_000);
    b.header.timestamp = 1000 + 7201;
    assert_eq!(ledger.add_next_block(&b, true, 1000, 1000), Err(LedgerError::TimestampTooFarAhead(8201)));
    b.header.timestamp = 1000 + 7200;
    assert_eq!(ledger.add_next_block(&b, true, 1000, 1000), Ok(()));
}

#[test]
fn duplicate_transaction_in_a_block_is_refused_by_storage() {
    let mut ledger = fresh_ledger();
    let mut b = next_block(&ledger, 2000, 10_000);
    let root = ledger.latest_ledger_root();
    b.transactions.push(transaction(10_000, root, 30_000));
    let now = b.header.timestamp;
    assert_eq!(ledger.add_next_block(&b, true, 1000, now), Err(LedgerError::TransactionExists(d(10_000))));
}

#[test]
fn lookups_of_missing_items_fail() {
    let ledger = fresh_ledger();
    assert_eq!(ledger.get_block_hash(7), Err(LedgerError::BlockHeightNotFound(7)));
    assert_eq!(ledger.get_block_height(&d(1)), Err(LedgerError::BlockHeaderNotFound(d(1))));
    assert_eq!(ledger.get_block_header(3).map(|h| h.height), Err(LedgerError::BlockHeightNotFound(3)));
    // The previous block hash is looked up first.
    assert_eq!(ledger.get_block(3).map(|b| b.block_hash), Err(LedgerError::BlockHeightNotFound(2)));
    assert_eq!(ledger.get_block_hashes(1, 0), Err(LedgerError::InvalidHeightRange(1, 0)));
    assert_eq!(ledger.get_block_hashes(0, 2), Err(LedgerError::BlockHeightNotFound(1)));
    assert_eq!(ledger.get_blocks(2, 1).map(|b| b.len()), Err(LedgerError::InvalidHeightRange(2, 1)));
    assert_eq!(ledger.get_transaction(&d(1)).map(|t| t.transaction_id), Err(LedgerError::TransactionNotFound(d(1))));
    assert_eq!(ledger.get_transition(&d(1)).map(|t| t.transition_id), Err(LedgerError::TransitionNotFound(d(1))));
    assert_eq!(ledger.get_transaction_metadata(&d(1)).map(|m| m.block_height), Err(LedgerError::TransactionNotFound(d(1))));
    assert_eq!(ledger.get_ciphertext(&d(1)), Err(LedgerError::CiphertextNotFound(d(1))));
    assert_eq!(ledger.get_block_locators(5), Err(LedgerError::BlockHeightNotFound(5)));
    assert_eq!(ledger.get_previous_block_hash(2), Err(LedgerError::BlockHeightNotFound(1)));
}

#[test]
fn ledger_inclusion_proof_locates_a_commitment() {
    let mut ledger = fresh_ledger();
    let block = next_block(&ledger, 2000, 10_000);
    let now = block.header.timestamp;
    assert_eq!(ledger.add_next_block(&block, true, 1000, now), Ok(()));
    let location = ledger.get_ledger_inclusion_proof(d(10_102)).expect("located");
    assert_eq!(location.transaction.transaction_id, d(10_000));
    assert_eq!(location.block_hash, d(2000));
    assert_eq!(location.block_header.height, 1);
    assert_eq!(location.transaction_index, 0);
    assert_eq!(location.previous_block_hash, d(1000));
    assert_eq!(location.ledger_root, ledger.latest_ledger_root());
    assert!(!location.ledger_root_inclusion_proof.is_empty());
    assert_eq!(
        ledger.get_ledger_inclusion_proof(d(1)).map(|l| l.block_hash),
        Err(LedgerError::CommitmentNotFound(d(1)))
    );
}

#[test]
fn next_block_template_builds_on_the_latest_block() {
    let ledger = fresh_ledger();
    let t = ledger.next_block_template(55);
    assert_eq!(t.previous_block_hash, d(1000));
    assert_eq!(t.block_height, 1);
    assert_eq!(t.block_timestamp, 55);
    assert_eq!(t.previous_timestamp, 0);
    assert_eq!(t.previous_difficulty_target, u64::MAX);
    assert_eq!(t.ledger_root, ledger.latest_ledger_root());
    assert_eq!(t.coinbase_reward, 100_000_000);
}

#[test]
fn open_validates_stored_ledger_roots() {
    // Storage whose ledger roots map names height 1 for the genesis root.
    let g = genesis();
    let mut blocks = BlockState::new(g.previous_block_hash);
    assert_eq!(blocks.add_block(&g), Ok(()));
    let mut roots: DataMap<LedgerRoot, u32> = DataMap::new();
    roots.insert(g.header.previous_ledger_root, 0);
    let ledger = LedgerState::open(g.clone(), roots, blocks).expect("valid storage opens");
    assert_eq!(ledger.latest_block_height(), 0);

    let mut blocks = BlockState::new(g.previous_block_hash);
    assert_eq!(blocks.add_block(&g), Ok(()));
    let mut roots: DataMap<LedgerRoot, u32> = DataMap::new();
    roots.insert(d(42), 0);
    assert_eq!(
        LedgerState::open(g.clone(), roots, blocks).map(|l| l.latest_block_height()),
        Err(LedgerError::LedgerRootMissing(0))
    );

    let mut blocks = BlockState::new(g.previous_block_hash);
    assert_eq!(blocks.add_block(&g), Ok(()));
    let mut roots: DataMap<LedgerRoot, u32> = DataMap::new();
    roots.insert(g.header.previous_ledger_root, 0);
    roots.insert(d(43), 1);
    assert_eq!(
        LedgerState::open(g.clone(), roots, blocks).map(|l| l.latest_block_height()),
        Err(LedgerError::BlockHeightNotFound(1))
    );
}

#[test]
fn open_detects_a_ledger_tree_mismatch() {
    let mut g = genesis();
    g.header.previous_ledger_root = d(44);
    let blocks = BlockState::new(g.previous_block_hash);
    assert_eq!(
        LedgerState::open(g, DataMap::new(), blocks).map(|l| l.latest_block_height()),
        Err(LedgerError::LedgerTreeMismatch(0))
    );
}

#[test]
fn locators_of_a_small_ledger_name_every_height() {
    let mut ledger = fresh_ledger();
    for k in 0..12u64 {
        let block = next_block(&ledger, 2000 + 10 * k, 10_000 + 1000 * k);
        let now = block.header.timestamp;
        assert_eq!(ledger.add_next_block(&block, true, 1000, now), Ok(()));
    }
    let heights: Vec<u32> = ledger.latest_block_locators().iter().map(|l| l.0).collect();
    assert_eq!(heights, (0..=12u32).rev().collect::<Vec<u32>>());
}

#[test]
fn ledger_tree_counts_its_hashes() {
    let mut ledger = fresh_ledger();
    assert_eq!(ledger.ledger_tree_len(), 1);
    let block = next_block(&ledger, 2000, 10_000);
    let now = block.header.timestamp;
    assert_eq!(ledger.add_next_block(&block, true, 1000, now), Ok(()));
    assert_eq!(ledger.ledger_tree_len(), 2);
    assert_eq!(ledger.remove_last_blocks(1).map(|v| v.len()), Ok(1));
    assert_eq!(ledger.ledger_tree_len(), 1);
}

#[test]
fn block_hash_of_the_largest_height_is_not_found() {
    let ledger = fresh_ledger();
    assert_eq!(ledger.get_block_hash(u32::MAX), Err(LedgerError::BlockHeightNotFound(u32::MAX)));
    assert_eq!(ledger.get_block_hashes(0, u32::MAX), Err(LedgerError::BlockHeightNotFound(1)));
}
