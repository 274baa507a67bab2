use vstd::prelude::*;
use snarkvm_dpc::testnet2::Testnet2;
use snarkvm_dpc::{Block as AleoBlock, LedgerTree, LedgerTreeScheme, Network};
use snarkvm_utilities::{FromBytes, ToBytes};
use crate::digest::{digest_of_bytes, Digest};

verus! {

/// The ledger tree of the network: a Merkle tree whose leaves are the block
/// hashes, in the order in which they were added.
#[verifier::external_body]
pub struct BlockHashTree {
    tree: LedgerTree<Testnet2>,
}

/// The block hashes that a ledger tree holds, in order.
pub uninterp spec fn tree_block_hashes(tree: BlockHashTree) -> Seq<Digest>;

/// The 32 little-endian bytes of the root of a ledger tree whose leaves are
/// `hashes`.
pub uninterp spec fn ledger_root_bytes(hashes: Seq<Digest>) -> Seq<u8>;

/// The root of a ledger tree whose leaves are `hashes`.
pub open spec fn ledger_root_of(hashes: Seq<Digest>) -> Digest {
    digest_of_bytes(ledger_root_bytes(hashes))
}

/// Whether 32 little-endian bytes are the canonical encoding of a block hash
/// of the network (a field element below the modulus).
pub uninterp spec fn decodes(bytes: Seq<u8>) -> bool;

/// The encoded Merkle path of `hash` in a ledger tree whose leaves are
/// `hashes`, where there is one.
pub uninterp spec fn ledger_inclusion_proof_bytes(hashes: Seq<Digest>, hash: Digest) -> Option<Seq<u8>>;

/// A new, empty ledger tree.
///
/// Calls `LedgerTree::<Testnet2>::new`, which builds an empty Merkle tree
/// over the network's fixed ledger root parameters; hashing the empty tree
/// does not fail, so a tree comes back, and it holds no block hash.
#[verifier::external_body]
pub fn new_block_hash_tree() -> (r: Option<BlockHashTree>)
    ensures
        r is Some,
        r matches Some(tree) ==> tree_block_hashes(tree) == Seq::<Digest>::empty(),
{
    match LedgerTree::<Testnet2>::new() {
        Ok(tree) => Some(BlockHashTree { tree }),
        Err(_) => None,
    }
}

impl BlockHashTree {
    /// Adds the block hash whose 32 little-endian bytes are given.
    ///
    /// Decodes the bytes with `FromBytes::read_le` of the network's block hash
    /// (which refuses a non-canonical field element) and calls
    /// `LedgerTree::add`, which refuses a hash that the tree already holds
    /// and leaves the tree unchanged whenever it fails; nothing else fails,
    /// since the rebuild hashes fixed-size inputs. The tree counts its leaves
    /// in a `u32`, which overflows when a hash is added to a tree of
    /// 2^32 - 1 leaves; such a tree is left out.
    #[verifier::external_body]
    pub fn add(&mut self, hash_bytes: &[u8; 32]) -> (r: bool)
        requires
            tree_block_hashes(*old(self)).len() < 0xFFFF_FFFF,
        ensures
            r ==> tree_block_hashes(*final(self)) == tree_block_hashes(*old(self)).push(digest_of_bytes(hash_bytes@)),
            !r ==> tree_block_hashes(*final(self)) == tree_block_hashes(*old(self)),
            r == (decodes(hash_bytes@) && !tree_block_hashes(*old(self)).contains(digest_of_bytes(hash_bytes@))),
    {
        match <Testnet2 as Network>::BlockHash::read_le(&hash_bytes[..]) {
            Ok(hash) => self.tree.add(&hash).is_ok(),
            Err(_) => false,
        }
    }

    /// Adds all the block hashes whose bytes are given, in order.
    ///
    /// Decodes each with `FromBytes::read_le` and calls `LedgerTree::add_all`,
    /// which refuses an empty list, a list with a repeated hash and a hash
    /// that the tree already holds, and leaves the tree unchanged whenever it
    /// fails; nothing else fails. The tree counts its leaves in a `u32`,
    /// which overflows where the tree would reach 2^32 leaves; such a call
    /// is left out.
    #[verifier::external_body]
    pub fn add_all(&mut self, hashes_bytes: &Vec<[u8; 32]>) -> (r: bool)
        requires
            tree_block_hashes(*old(self)).len() + hashes_bytes@.len() < 0x1_0000_0000,
        ensures
            r ==> tree_block_hashes(*final(self)) == tree_block_hashes(*old(self))
                + hashes_bytes@.map_values(|b: [u8; 32]| digest_of_bytes(b@)),
            !r ==> tree_block_hashes(*final(self)) == tree_block_hashes(*old(self)),
            r == (
                hashes_bytes@.len() > 0
                && (forall|i: int| 0 <= i < hashes_bytes@.len() ==> decodes(#[trigger] hashes_bytes@[i]@))
                && (forall|i: int, j: int| 0 <= i < j < hashes_bytes@.len()
                    ==> digest_of_bytes(#[trigger] hashes_bytes@[i]@) != digest_of_bytes(#[trigger] hashes_bytes@[j]@))
                && (forall|i: int| 0 <= i < hashes_bytes@.len()
                    ==> !tree_block_hashes(*old(self)).contains(digest_of_bytes(#[trigger] hashes_bytes@[i]@)))),
    {
        let hashes: Result<Vec<_>, _> =
            hashes_bytes.iter().map(|b| <Testnet2 as Network>::BlockHash::read_le(&b[..])).collect();
        match hashes {
            Ok(hashes) => self.tree.add_all(&hashes).is_ok(),
            Err(_) => false,
        }
    }

    /// The 32 little-endian bytes of the tree's root.
    ///
    /// Calls `LedgerTree::root` and encodes the root, a field element, with
    /// `ToBytes`, which writes its 32 canonical bytes into memory and does not
    /// fail; the result is named by `ledger_root_bytes` over the tree's block
    /// hashes.
    #[verifier::external_body]
    pub fn root_bytes(&self) -> (r: [u8; 32])
        ensures
            r@ == ledger_root_bytes(tree_block_hashes(*self)),
    {
        let mut out = [0u8; 32];
        if let Ok(bytes) = self.tree.root().to_bytes_le() {
            for (o, b) in out.iter_mut().zip(bytes) {
                *o = b;
            }
        }
        out
    }

    /// The encoded Merkle path of a block hash in the tree.
    ///
    /// Calls `LedgerTree::to_ledger_inclusion_proof` and encodes the path with
    /// `ToBytes`; the result is named by `ledger_inclusion_proof_bytes`. A
    /// hash that the tree holds always has a path.
    #[verifier::external_body]
    pub fn inclusion_proof_bytes(&self, hash_bytes: &[u8; 32]) -> (r: Option<Vec<u8>>)
        ensures
            tree_block_hashes(*self).contains(digest_of_bytes(hash_bytes@)) ==> r is Some,
            match r {
                Some(p) => ledger_inclusion_proof_bytes(tree_block_hashes(*self), digest_of_bytes(hash_bytes@)) == Some(p@),
                None => ledger_inclusion_proof_bytes(tree_block_hashes(*self), digest_of_bytes(hash_bytes@)) is None,
            },
    {
        let hash = match <Testnet2 as Network>::BlockHash::read_le(&hash_bytes[..]) {
            Ok(hash) => hash,
            Err(_) => return None,
        };
        match self.tree.to_ledger_inclusion_proof(&hash) {
            Ok(path) => path.to_bytes_le().ok(),
            Err(_) => None,
        }
    }
}

/// The block reward of the network at a height: the starting supply for the
/// genesis block, then 100 credits, halved at most twice, every 4,730,400
/// blocks.
pub open spec fn block_reward_at(height: u32) -> i64 {
    if height == 0 {
        1_000_000_000_000_000
    } else if (height - 1) / 4_730_400 == 0 {
        100_000_000
    } else if (height - 1) / 4_730_400 == 1 {
        50_000_000
    } else {
        25_000_000
    }
}

/// The block reward at a height, in millionths of a credit.
///
/// Calls `Block::<Testnet2>::block_reward`, whose source computes the
/// schedule that `block_reward_at` states.
#[verifier::external_body]
pub fn block_reward(height: u32) -> (r: i64)
    ensures
        r == block_reward_at(height),
{
    AleoBlock::<Testnet2>::block_reward(height).0
}

/// The largest number of blocks that a fork may replace.
///
/// Reads `Testnet2::ALEO_MAXIMUM_FORK_DEPTH`, which is 4096.
#[verifier::external_body]
pub fn maximum_fork_depth() -> (r: u32)
    ensures
        r == 4096,
{
    <Testnet2 as Network>::ALEO_MAXIMUM_FORK_DEPTH
}

} // verus!
