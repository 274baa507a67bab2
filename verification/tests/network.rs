use snarkos_ledger::digest::Digest;
use snarkos_ledger::network::{block_reward, maximum_fork_depth, new_block_hash_tree};

fn d(n: u64) -> Digest {
    Digest::new(n, 0, 0, 0)
}

#[test]
fn block_reward_schedule() {
    assert_eq!(block_reward(0), 1_000_000_000_000_000);
    assert_eq!(block_reward(1), 100_000_000);
    assert_eq!(block_reward(4_730_400), 100_000_000);
    assert_eq!(block_reward(4_730_401), 50_000_000);
    assert_eq!(block_reward(9_460_800), 50_000_000);
    assert_eq!(block_reward(9_460_801), 25_000_000);
    assert_eq!(block_reward(u32::MAX), 25_000_000);
}

#[test]
fn maximum_fork_depth_of_the_network() {
    assert_eq!(maximum_fork_depth(), 4096);
}

#[test]
fn ledger_tree_adds_and_refuses_repeats() {
    let mut tree = new_block_hash_tree().expect("an empty ledger tree");
    let empty_root = tree.root_bytes();
    let h = d(5).to_le_bytes();
    assert!(tree.add(&h));
    let one_root = tree.root_bytes();
    assert_ne!(one_root, empty_root);
    assert_ne!(one_root, h);
    assert!(!tree.add(&h));
    assert_eq!(tree.root_bytes(), one_root);
    assert!(tree.inclusion_proof_bytes(&h).is_some());
    assert!(tree.inclusion_proof_bytes(&d(6).to_le_bytes()).is_none());
}

#[test]
fn ledger_tree_refuses_a_non_canonical_hash() {
    let mut tree = new_block_hash_tree().expect("an empty ledger tree");
    let before = tree.root_bytes();
    assert!(!tree.add(&[0xff; 32]));
    assert_eq!(tree.root_bytes(), before);
}

#[test]
fn ledger_tree_add_all_matches_adding_one_by_one() {
    let mut a = new_block_hash_tree().expect("an empty ledger tree");
    let mut b = new_block_hash_tree().expect("an empty ledger tree");
    let hashes = vec![d(1).to_le_bytes(), d(2).to_le_bytes(), d(3).to_le_bytes()];
    assert!(a.add_all(&hashes));
    for h in &hashes {
        assert!(b.add(h));
    }
    assert_eq!(a.root_bytes(), b.root_bytes());
    assert!(!a.add_all(&vec![]));
    assert!(!a.add_all(&vec![d(1).to_le_bytes()]));
}
