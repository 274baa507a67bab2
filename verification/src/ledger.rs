use vstd::prelude::*;
use crate::block_state::{
    block_hash_lookup, block_header_lookup, block_lookup, block_transactions_lookup, previous_block_hash_lookup,
    BlockState, BlockStateView,
};
use crate::data_map::DataMap;
use crate::digest::{
    digest_bytes, digest_of_bytes, lemma_digest_bytes_round_trip, BlockHash, CiphertextId, Commitment, Digest,
    LedgerRoot, SerialNumber, TransactionId, TransitionId,
};
use crate::error::LedgerError;
use crate::acceptance_laws::{
    lemma_accepted_next_block_meets_the_rules, lemma_unknown_root_refusals, transactions_new_with_known_roots,
};
use crate::locators::{as_ints, block_locator_heights, locator_heights};
use crate::network::{decodes, block_reward, block_reward_at, ledger_inclusion_proof_bytes, ledger_root_of, maximum_fork_depth, new_block_hash_tree, tree_block_hashes, BlockHashTree};
use crate::transaction_state::{ciphertext_lookup, keys_of, transaction_lookup, TransactionStateView};
use crate::block_state::{added_block, first_transaction_error, removed_block};
use crate::types::{blocks_view, copy_digests, Block, BlockHeader, BlockView, Metadata, Transaction, TransactionView, Transition, TransitionView, transactions_view};

verus! {

/// The state of the ledger: the latest block and its locators, the ledger
/// tree of block hashes, the block height of each ledger root, and the
/// stored blocks.
pub struct LedgerState {
    latest_block: Block,
    latest_block_locators: Vec<(u32, BlockHash)>,
    ledger_tree: BlockHashTree,
    tree_len: u64,
    ledger_roots: DataMap<LedgerRoot, u32>,
    blocks: BlockState,
    genesis_block: Block,
}

/// The contents of a `LedgerState`.
#[verifier::ext_equal]
pub struct LedgerView {
    pub latest_block: BlockView,
    pub latest_block_locators: Seq<(u32, BlockHash)>,
    pub tree_hashes: Seq<BlockHash>,
    pub ledger_roots: Map<LedgerRoot, u32>,
    pub blocks: BlockStateView,
    pub genesis_block: BlockView,
}

impl View for LedgerState {
    type V = LedgerView;

    closed spec fn view(&self) -> LedgerView {
        LedgerView {
            latest_block: self.latest_block@,
            latest_block_locators: self.latest_block_locators@,
            tree_hashes: tree_block_hashes(self.ledger_tree),
            ledger_roots: self.ledger_roots@,
            blocks: self.blocks@,
            genesis_block: self.genesis_block@,
        }
    }
}

/// The current ledger root: the root of the ledger tree.
pub open spec fn current_ledger_root(v: LedgerView) -> LedgerRoot {
    ledger_root_of(v.tree_hashes)
}

/// The locators for the given heights, each with its block hash; the first
/// failing lookup in order otherwise.
pub open spec fn locators_for(s: BlockStateView, heights: Seq<int>) -> Result<Seq<(u32, BlockHash)>, LedgerError>
    decreases heights.len(),
{
    if heights.len() == 0 {
        Ok(Seq::empty())
    } else {
        match block_hash_lookup(s, heights[0] as u32) {
            Err(e) => Err(e),
            Ok(hash) => match locators_for(s, heights.drop_first()) {
                Err(e) => Err(e),
                Ok(rest) => Ok(seq![(heights[0] as u32, hash)] + rest),
            },
        }
    }
}

/// The block locators of the ledger from height `h`.
pub open spec fn locators_lookup(s: BlockStateView, h: u32) -> Result<Seq<(u32, BlockHash)>, LedgerError> {
    locators_for(s, locator_heights(h as nat))
}

proof fn lemma_locators_for_split(s: BlockStateView, heights: Seq<int>, k: int)
    requires
        0 <= k <= heights.len(),
        forall|i: int| 0 <= i < k ==> #[trigger] block_hash_lookup(s, heights[i] as u32) is Ok,
    ensures
        locators_for(s, heights) == (match locators_for(s, heights.skip(k)) {
            Err(e) => Err(e),
            Ok(rest) => Ok(Seq::new(k as nat, |i: int| (heights[i] as u32, block_hash_lookup(s, heights[i] as u32)->Ok_0)) + rest),
        }),
    decreases k,
{
    if k > 0 {
        assert(block_hash_lookup(s, heights[0] as u32) is Ok);
        lemma_locators_for_split(s, heights.drop_first(), k - 1);
        assert(heights.drop_first().skip(k - 1) =~= heights.skip(k));
        match locators_for(s, heights.skip(k)) {
            Err(e) => {},
            Ok(rest) => {
                let f = |i: int| (heights[i] as u32, block_hash_lookup(s, heights[i] as u32)->Ok_0);
                let g = |i: int| (heights.drop_first()[i] as u32, block_hash_lookup(s, heights.drop_first()[i] as u32)->Ok_0);
                assert(seq![(heights[0] as u32, block_hash_lookup(s, heights[0] as u32)->Ok_0)] + (Seq::new((k - 1) as nat, g) + rest)
                    =~= Seq::new(k as nat, f) + rest);
            },
        }
    } else {
        assert(heights.skip(0) =~= heights);
        match locators_for(s, heights) {
            Err(e) => {},
            Ok(rest) => {
                assert(Seq::new(0, |i: int| (heights[i] as u32, block_hash_lookup(s, heights[i] as u32)->Ok_0)) + rest =~= rest);
            },
        }
    }
}

/// The concatenation of a sequence of sequences, in order.
pub open spec fn concat_all(ss: Seq<Seq<Digest>>) -> Seq<Digest>
    decreases ss.len(),
{
    if ss.len() == 0 {
        Seq::empty()
    } else {
        concat_all(ss.drop_last()) + ss.last()
    }
}

/// The serial numbers (0) or commitments (1) of each transition.
pub open spec fn transition_key_seqs(ts: Seq<TransitionView>, kind: int) -> Seq<Seq<Digest>> {
    ts.map_values(|t: TransitionView| keys_of(t, kind))
}

/// The serial numbers (0) or commitments (1) of a transaction, transition
/// after transition.
pub open spec fn transaction_keys(tx: TransactionView, kind: int) -> Seq<Digest> {
    concat_all(transition_key_seqs(tx.transitions, kind))
}

/// The serial numbers (0) or commitments (1) of each transaction.
pub open spec fn transaction_key_seqs(txs: Seq<TransactionView>, kind: int) -> Seq<Seq<Digest>> {
    txs.map_values(|tx: TransactionView| transaction_keys(tx, kind))
}

/// The serial numbers (0) or commitments (1) of a block, transaction after
/// transaction.
pub open spec fn block_keys(b: BlockView, kind: int) -> Seq<Digest> {
    concat_all(transaction_key_seqs(b.transactions, kind))
}

/// The first of `keys` that `m` holds.
pub open spec fn first_present(m: Map<Digest, Digest>, keys: Seq<Digest>) -> Option<Digest>
    decreases keys.len(),
{
    if keys.len() == 0 {
        None
    } else if m.contains_key(keys[0]) {
        Some(keys[0])
    } else {
        first_present(m, keys.drop_first())
    }
}

/// Whether the ledger knows a ledger root: the current one or one of a block.
pub open spec fn knows_ledger_root(v: LedgerView, root: LedgerRoot) -> bool {
    root == current_ledger_root(v) || v.ledger_roots.contains_key(root)
}

/// Whether a transaction is not stored yet and refers to a known ledger root.
pub open spec fn transaction_is_new(v: LedgerView, tx: TransactionView) -> bool {
    !v.blocks.transactions.transactions.contains_key(tx.transaction_id) && knows_ledger_root(v, tx.ledger_root)
}

/// The first transaction that is already stored or refers to an unknown
/// ledger root.
pub open spec fn first_transaction_problem(v: LedgerView, txs: Seq<TransactionView>) -> Option<LedgerError>
    decreases txs.len(),
{
    if txs.len() == 0 {
        None
    } else if v.blocks.transactions.transactions.contains_key(txs[0].transaction_id) {
        Some(LedgerError::TransactionExists(txs[0].transaction_id))
    } else if !knows_ledger_root(v, txs[0].ledger_root) {
        Some(LedgerError::UnknownLedgerRoot(txs[0].transaction_id, txs[0].ledger_root))
    } else {
        first_transaction_problem(v, txs.drop_first())
    }
}

/// How far ahead of the current time a block's timestamp may be, in seconds.
pub const TWO_HOURS_UNIX: i64 = 7200;

/// Why the ledger refuses `b` as its next block, given the block's own
/// validity, the difficulty target that the network expects of it, and the
/// current time; `None` where it accepts it.
pub open spec fn next_block_error(v: LedgerView, b: BlockView, block_is_valid: bool, expected_difficulty_target: u64, now: i64) -> Option<LedgerError> {
    let h = b.header.height;
    let latest = v.latest_block;
    if !block_is_valid {
        Some(LedgerError::InvalidBlock(h))
    } else if h != latest.header.height + 1 {
        Some(LedgerError::UnexpectedHeight(h, (latest.header.height + 1) as u32))
    } else if b.previous_block_hash != latest.block_hash {
        Some(LedgerError::WrongPreviousBlockHash(h))
    } else if b.header.timestamp > now + TWO_HOURS_UNIX {
        Some(LedgerError::TimestampTooFarAhead(b.header.timestamp))
    } else if b.header.timestamp <= latest.header.timestamp {
        Some(LedgerError::TimestampNotIncreasing(b.header.timestamp))
    } else if b.header.difficulty_target != expected_difficulty_target {
        Some(LedgerError::WrongDifficultyTarget(b.header.difficulty_target, expected_difficulty_target))
    } else if v.blocks.block_heights.contains_key(h) {
        Some(LedgerError::BlockExists(h))
    } else if v.blocks.block_headers.contains_key(b.block_hash) {
        Some(LedgerError::BlockHashExists(h))
    } else if b.header.previous_ledger_root != current_ledger_root(v) {
        Some(LedgerError::WrongLedgerRoot(h))
    } else {
        match first_present(v.blocks.transactions.serial_numbers, block_keys(b, 0)) {
            Some(sn) => Some(LedgerError::SerialNumberExists(sn)),
            None => match first_present(v.blocks.transactions.commitments, block_keys(b, 1)) {
                Some(cm) => Some(LedgerError::CommitmentExists(cm)),
                None => first_transaction_problem(v, b.transactions),
            },
        }
    }
}

/// What storing an accepted block `b` leaves, and whether it succeeds, given
/// whether the ledger tree took its hash.
pub open spec fn applied_next_block(v: LedgerView, b: BlockView, tree_took_hash: bool) -> (LedgerView, Result<(), LedgerError>) {
    let (blocks1, r) = added_block(v.blocks, b);
    if r is Err {
        (LedgerView { blocks: blocks1, ..v }, r)
    } else if !tree_took_hash {
        (LedgerView { blocks: blocks1, ..v }, Err(LedgerError::LedgerTreeRefused(b.block_hash)))
    } else {
        let v2 = LedgerView {
            blocks: blocks1,
            tree_hashes: v.tree_hashes.push(b.block_hash),
            ledger_roots: v.ledger_roots.insert(b.header.previous_ledger_root, b.header.height),
            ..v
        };
        match locators_lookup(blocks1, b.header.height) {
            Err(e) => (v2, Err(e)),
            Ok(locators) => (LedgerView { latest_block_locators: locators, latest_block: b, ..v2 }, Ok(())),
        }
    }
}

/// Whether the ledger tree takes block hash `h`: its bytes are canonical and
/// the tree does not hold it yet.
pub open spec fn tree_takes(tree: Seq<BlockHash>, h: BlockHash) -> bool {
    decodes(digest_bytes(h)) && !tree.contains(h)
}

/// The most block hashes that the ledger tree holds: it counts them in a
/// `u32`.
pub open spec fn tree_capacity() -> nat {
    0xFFFF_FFFF
}

/// The outcome of offering `b` as the next block at time `now`: from `v` to
/// `v2` with result `r`.
pub open spec fn next_block_outcome(
    v: LedgerView,
    v2: LedgerView,
    b: BlockView,
    block_is_valid: bool,
    expected_difficulty_target: u64,
    now: i64,
    r: Result<(), LedgerError>,
) -> bool {
    match next_block_error(v, b, block_is_valid, expected_difficulty_target, now) {
        Some(e) => r == Err::<(), LedgerError>(e) && v2 == v,
        None => (v2, r) == applied_next_block(v, b, tree_takes(v.tree_hashes, b.block_hash)),
    }
}

/// The first height below `n` with no stored block hash.
pub open spec fn first_missing_height(s: BlockStateView, n: nat) -> Option<u32>
    decreases n,
{
    if n == 0 {
        None
    } else {
        match first_missing_height(s, (n - 1) as nat) {
            Some(h) => Some(h),
            None => if !s.block_heights.contains_key((n - 1) as u32) { Some((n - 1) as u32) } else { None },
        }
    }
}

/// The block hashes of heights 0 to `h`, or the first missing one.
pub open spec fn chain_hashes(s: BlockStateView, h: u32) -> Result<Seq<BlockHash>, LedgerError> {
    match first_missing_height(s, (h + 1) as nat) {
        Some(m) => Err(LedgerError::BlockHeightNotFound(m)),
        None => Ok(Seq::new((h + 1) as nat, |i: int| s.block_heights[i as u32])),
    }
}

/// One round of removing the latest block: its storage, its ledger root and
/// locators, and the block below it becomes the latest.
pub open spec fn removal_step(v: LedgerView) -> (LedgerView, Result<(), LedgerError>) {
    let h = v.latest_block.header.height;
    let (b1, r) = removed_block(v.blocks, h);
    if r is Err {
        (LedgerView { blocks: b1, ..v }, r)
    } else {
        let v1 = LedgerView {
            blocks: b1,
            ledger_roots: v.ledger_roots.remove(v.latest_block.header.previous_ledger_root),
            ..v
        };
        match locators_lookup(b1, (h - 1) as u32) {
            Err(e) => (v1, Err(e)),
            Ok(locators) => {
                let v2 = LedgerView { latest_block_locators: locators, ..v1 };
                match block_lookup(b1, (h - 1) as u32) {
                    Err(e) => (v2, Err(e)),
                    Ok(previous) => (LedgerView { latest_block: previous, ..v2 }, Ok(())),
                }
            },
        }
    }
}

/// Removes up to `remaining` latest blocks, stopping at the genesis block:
/// the state left, the removed blocks in increasing height order, and whether
/// every round succeeded.
pub open spec fn removed_last_blocks(v: LedgerView, remaining: nat) -> (LedgerView, Seq<BlockView>, Result<(), LedgerError>)
    decreases remaining,
{
    if v.latest_block.header.height == 0 || remaining == 0 {
        (v, Seq::empty(), Ok(()))
    } else {
        let (v1, r) = removal_step(v);
        if r is Err {
            (v1, Seq::empty(), r)
        } else {
            let (v2, out, r2) = removed_last_blocks(v1, (remaining - 1) as nat);
            (v2, out.push(v.latest_block), r2)
        }
    }
}

/// Whether a new ledger tree takes all of `hashes` at once: there are no
/// more than its capacity, each is a canonical block hash, and none repeats.
pub open spec fn tree_takes_all(hashes: Seq<BlockHash>) -> bool {
    &&& hashes.len() <= tree_capacity()
    &&& forall|i: int| 0 <= i < hashes.len() ==> decodes(digest_bytes(#[trigger] hashes[i]))
    &&& forall|i: int, j: int| 0 <= i < j < hashes.len() ==> #[trigger] hashes[i] != #[trigger] hashes[j]
}

/// The outcome of rebuilding the ledger tree from the stored block hashes of
/// heights 0 to the latest: from `v` to `v2` with result `r`.
pub open spec fn regeneration_outcome(v: LedgerView, v2: LedgerView, r: Result<(), LedgerError>) -> bool {
    match chain_hashes(v.blocks, v.latest_block.header.height) {
        Err(e) => r == Err::<(), LedgerError>(e) && v2 == v,
        Ok(hashes) => if tree_takes_all(hashes) {
            r is Ok && v2 == (LedgerView { tree_hashes: hashes, ..v })
        } else {
            r == Err::<(), LedgerError>(LedgerError::LedgerTreeFailure) && v2 == v
        },
    }
}

/// The outcome of removing the latest `num_blocks` blocks: from `v` to `v2`
/// with the removed blocks or an error.
pub open spec fn removal_outcome(v: LedgerView, v2: LedgerView, num_blocks: u32, r: Result<Seq<BlockView>, LedgerError>) -> bool {
    if num_blocks == 0 || num_blocks > 4096 {
        r == Err::<Seq<BlockView>, LedgerError>(LedgerError::InvalidRemovalCount(num_blocks)) && v2 == v
    } else {
        let (v1, out, r1) = removed_last_blocks(v, num_blocks as nat);
        match r1 {
            Err(e) => r == Err::<Seq<BlockView>, LedgerError>(e) && v2 == v1,
            Ok(()) => match r {
                Ok(blocks) => blocks == out && regeneration_outcome(v1, v2, Ok(())),
                Err(e) => regeneration_outcome(v1, v2, Err(e)),
            },
        }
    }
}

proof fn lemma_first_missing_height_after(s: BlockStateView, h: nat, n: nat)
    requires
        h < n,
        first_missing_height(s, h) is None,
        !s.block_heights.contains_key(h as u32),
    ensures
        first_missing_height(s, n) == Some(h as u32),
    decreases n,
{
    if n > h + 1 {
        lemma_first_missing_height_after(s, h, (n - 1) as nat);
    }
}

/// `m` is the largest height that the ledger roots map to.
pub open spec fn is_max_root_height(roots: Map<LedgerRoot, u32>, m: u32) -> bool {
    (exists|k: LedgerRoot| #[trigger] roots.contains_key(k) && roots[k] == m)
        && forall|k: LedgerRoot| #[trigger] roots.contains_key(k) ==> roots[k] <= m
}

/// The largest height that the ledger roots map to; 0 where there is none.
pub open spec fn max_root_height(roots: Map<LedgerRoot, u32>) -> u32 {
    if roots.dom() =~= Set::<LedgerRoot>::empty() {
        0
    } else {
        choose|m: u32| #[trigger] is_max_root_height(roots, m)
    }
}

/// The hash of each height below `n`.
pub open spec fn heights_prefix(b: BlockStateView, n: nat) -> Seq<BlockHash> {
    Seq::new(n, |i: int| b.block_heights[i as u32])
}

/// Why the validation of the stored ledger fails at height `h` (of the latest
/// height `latest`), given that every lower height passed.
pub open spec fn open_error_at(roots: Map<LedgerRoot, u32>, b: BlockStateView, h: u32, latest: u32) -> Option<LedgerError> {
    let checkpoint = h % 250 == 0 || h == latest;
    let hash_error = if !b.block_heights.contains_key(h) { Some(LedgerError::BlockHeightNotFound(h)) } else { None };
    if checkpoint {
        match block_header_lookup(b, h) {
            Err(e) => Some(e),
            Ok(header) => {
                let expected = header.previous_ledger_root;
                if !roots.contains_key(expected) {
                    Some(LedgerError::LedgerRootMissing(h))
                } else if roots[expected] != h {
                    Some(LedgerError::LedgerRootHeightMismatch(h, roots[expected]))
                } else if expected != ledger_root_of(heights_prefix(b, h as nat)) {
                    Some(LedgerError::LedgerTreeMismatch(h))
                } else {
                    hash_error
                }
            },
        }
    } else {
        hash_error
    }
}

/// The first height below `n` at which the validation fails, with its error.
pub open spec fn first_open_error(roots: Map<LedgerRoot, u32>, b: BlockStateView, latest: u32, n: nat) -> Option<(nat, LedgerError)>
    decreases n,
{
    if n == 0 {
        None
    } else {
        match first_open_error(roots, b, latest, (n - 1) as nat) {
            Some(x) => Some(x),
            None => match open_error_at(roots, b, (n - 1) as u32, latest) {
                Some(e) => Some(((n - 1) as nat, e)),
                None => None,
            },
        }
    }
}

/// Why opening the ledger fails during the validation, given the height at
/// which the ledger tree refuses a block hash, if it does.
pub open spec fn validation_error(
    roots: Map<LedgerRoot, u32>,
    b: BlockStateView,
    latest: u32,
    tree_stop: Option<nat>,
) -> Option<LedgerError> {
    match (first_open_error(roots, b, latest, (latest + 1) as nat), tree_stop) {
        (Some((h, e)), Some(k)) => if h <= k { Some(e) } else { Some(LedgerError::LedgerTreeRefused(b.block_heights[k as u32])) },
        (Some((h, e)), None) => Some(e),
        (None, Some(k)) => Some(LedgerError::LedgerTreeRefused(b.block_heights[k as u32])),
        (None, None) => None,
    }
}

/// The blocks that opening the ledger works on: the stored ones, with the
/// genesis block added where the storage is new.
pub open spec fn opening_blocks(genesis: BlockView, roots: Map<LedgerRoot, u32>, b: BlockStateView) -> (BlockStateView, Result<(), LedgerError>) {
    if max_root_height(roots) == 0 && !b.block_heights.contains_key(0) {
        added_block(b, genesis)
    } else {
        (b, Ok(()))
    }
}

/// The ledger roots that opening the ledger works on: the stored ones, with
/// the genesis block's ledger root where the storage is new.
pub open spec fn opening_roots(genesis: BlockView, roots: Map<LedgerRoot, u32>, b: BlockStateView) -> Map<LedgerRoot, u32> {
    if max_root_height(roots) == 0 && !b.block_heights.contains_key(0) {
        roots.insert(genesis.header.previous_ledger_root, genesis.header.height)
    } else {
        roots
    }
}

/// The first height below `n` whose stored hash the ledger tree refuses,
/// once it holds the stored hashes of all lower heights.
pub open spec fn first_tree_refusal(b: BlockStateView, n: nat) -> Option<nat>
    decreases n,
{
    if n == 0 {
        None
    } else {
        match first_tree_refusal(b, (n - 1) as nat) {
            Some(k) => Some(k),
            None => if n - 1 >= tree_capacity() || !tree_takes(heights_prefix(b, (n - 1) as nat), b.block_heights[(n - 1) as u32]) {
                Some((n - 1) as nat)
            } else {
                None
            },
        }
    }
}

/// What opening the ledger over the given storage gives, given the height
/// at which the ledger tree refuses a block hash, if it does.
pub open spec fn open_result_with(
    genesis: BlockView,
    roots: Map<LedgerRoot, u32>,
    b: BlockStateView,
    tree_stop: Option<nat>,
) -> Result<LedgerView, LedgerError> {
    let latest = max_root_height(roots);
    let roots1 = opening_roots(genesis, roots, b);
    let (b1, init_r) = opening_blocks(genesis, roots, b);
    if init_r is Err {
        Err(init_r->Err_0)
    } else {
        match validation_error(roots1, b1, latest, tree_stop) {
            Some(e) => Err(e),
            None => match block_lookup(b1, latest) {
                Err(e) => Err(e),
                Ok(block) => match locators_lookup(b1, block.header.height) {
                    Err(e) => Err(e),
                    Ok(locators) => Ok(LedgerView {
                        latest_block: block,
                        latest_block_locators: locators,
                        tree_hashes: heights_prefix(b1, (latest + 1) as nat),
                        ledger_roots: roots1,
                        blocks: b1,
                        genesis_block: genesis,
                    }),
                },
            },
        }
    }
}

/// What opening the ledger over the given storage gives.
pub open spec fn open_result(genesis: BlockView, roots: Map<LedgerRoot, u32>, b: BlockStateView) -> Result<LedgerView, LedgerError> {
    open_result_with(genesis, roots, b, first_tree_refusal(opening_blocks(genesis, roots, b).0, (max_root_height(roots) + 1) as nat))
}

proof fn lemma_first_tree_refusal_after(b: BlockStateView, m: nat, n: nat)
    requires
        m <= n,
        first_tree_refusal(b, m) is None,
    ensures
        first_tree_refusal(b, n) matches Some(j) ==> j >= m,
    decreases n,
{
    if n > m {
        lemma_first_tree_refusal_after(b, m, (n - 1) as nat);
    }
}

proof fn lemma_first_tree_refusal_extend(b: BlockStateView, k: nat, n: nat)
    requires
        k < n,
        first_tree_refusal(b, k) is None,
        k >= tree_capacity() || !tree_takes(heights_prefix(b, k), b.block_heights[k as u32]),
    ensures
        first_tree_refusal(b, n) == Some(k),
    decreases n,
{
    if n > k + 1 {
        lemma_first_tree_refusal_extend(b, k, (n - 1) as nat);
    }
}

proof fn lemma_first_open_error_extend(roots: Map<LedgerRoot, u32>, b: BlockStateView, latest: u32, h: nat, n: nat)
    requires
        h < n,
        first_open_error(roots, b, latest, h) is None,
        open_error_at(roots, b, h as u32, latest) is Some,
    ensures
        first_open_error(roots, b, latest, n) == Some((h, open_error_at(roots, b, h as u32, latest)->Some_0)),
    decreases n,
{
    if n > h + 1 {
        lemma_first_open_error_extend(roots, b, latest, h, (n - 1) as nat);
    }
}

proof fn lemma_first_open_error_after(roots: Map<LedgerRoot, u32>, b: BlockStateView, latest: u32, m: nat, n: nat)
    requires
        m <= n,
        first_open_error(roots, b, latest, m) is None,
    ensures
        first_open_error(roots, b, latest, n) matches Some((h, e)) ==> h >= m,
    decreases n,
{
    if n > m {
        lemma_first_open_error_after(roots, b, latest, m, (n - 1) as nat);
    }
}

/// What the next block is built on: the latest block, the height and time of
/// the new block, the current ledger root and the coinbase reward.
pub struct BlockTemplateFields {
    pub previous_block_hash: BlockHash,
    pub block_height: u32,
    pub block_timestamp: i64,
    pub previous_timestamp: i64,
    pub previous_difficulty_target: u64,
    pub ledger_root: LedgerRoot,
    pub coinbase_reward: i64,
}

/// Where a commitment stands in the ledger, and what proves it: its
/// transaction, the block that holds it, the transaction's index in the
/// block, the previous block hash, the current ledger root, and the encoded
/// Merkle path of the block hash in the ledger tree.
pub struct CommitmentLocation {
    pub transaction: Transaction,
    pub block_hash: BlockHash,
    pub block_header: BlockHeader,
    pub block_transactions: Vec<Transaction>,
    pub transaction_index: usize,
    pub previous_block_hash: BlockHash,
    pub ledger_root: LedgerRoot,
    pub ledger_root_inclusion_proof: Vec<u8>,
}

pub struct CommitmentLocationView {
    pub transaction: TransactionView,
    pub block_hash: BlockHash,
    pub block_header: BlockHeader,
    pub block_transactions: Seq<TransactionView>,
    pub transaction_index: int,
    pub previous_block_hash: BlockHash,
    pub ledger_root: LedgerRoot,
    pub ledger_root_inclusion_proof: Seq<u8>,
}

impl View for CommitmentLocation {
    type V = CommitmentLocationView;

    open spec fn view(&self) -> CommitmentLocationView {
        CommitmentLocationView {
            transaction: self.transaction@,
            block_hash: self.block_hash,
            block_header: self.block_header,
            block_transactions: transactions_view(self.block_transactions@),
            transaction_index: self.transaction_index as int,
            previous_block_hash: self.previous_block_hash,
            ledger_root: self.ledger_root,
            ledger_root_inclusion_proof: self.ledger_root_inclusion_proof@,
        }
    }
}

/// How many of the transactions have the ID.
pub open spec fn count_id(txs: Seq<TransactionView>, id: TransactionId) -> nat
    decreases txs.len(),
{
    if txs.len() == 0 {
        0
    } else {
        count_id(txs.drop_last(), id) + if txs.last().transaction_id == id { 1nat } else { 0nat }
    }
}

/// Where a commitment stands in the ledger; the first failing lookup otherwise.
pub open spec fn commitment_location(v: LedgerView, commitment: Commitment) -> Result<CommitmentLocationView, LedgerError> {
    let t = v.blocks.transactions;
    if !t.commitments.contains_key(commitment) {
        Err(LedgerError::CommitmentNotFound(commitment))
    } else if !t.transitions.contains_key(t.commitments[commitment]) {
        Err(LedgerError::TransitionNotFound(t.commitments[commitment]))
    } else {
        let transaction_id = t.transitions[t.commitments[commitment]].0;
        match transaction_lookup(t, transaction_id) {
            Err(e) => Err(e),
            Ok(transaction) => {
                let block_hash = t.transactions[transaction_id].2.block_hash;
                if !v.blocks.block_headers.contains_key(block_hash) {
                    Err(LedgerError::BlockHeaderNotFound(block_hash))
                } else {
                    let header = v.blocks.block_headers[block_hash];
                    match block_transactions_lookup(v.blocks, header.height) {
                        Err(e) => Err(e),
                        Ok(txs) => if count_id(txs, transaction_id) != 1 {
                            Err(LedgerError::TransactionIndexNotUnique(transaction_id))
                        } else {
                            match previous_block_hash_lookup(v.blocks, header.height) {
                                Err(e) => Err(e),
                                Ok(previous_block_hash) => match ledger_inclusion_proof_bytes(v.tree_hashes, block_hash) {
                                    None => Err(LedgerError::LedgerInclusionProofFailure(block_hash)),
                                    Some(proof) => Ok(CommitmentLocationView {
                                        transaction,
                                        block_hash,
                                        block_header: header,
                                        block_transactions: txs,
                                        transaction_index: choose|i: int| 0 <= i < txs.len() && txs[i].transaction_id == transaction_id,
                                        previous_block_hash,
                                        ledger_root: current_ledger_root(v),
                                        ledger_root_inclusion_proof: proof,
                                    }),
                                },
                            }
                        },
                    }
                }
            },
        }
    }
}

proof fn lemma_transaction_errors_are_lookups(t: TransactionStateView, ids: Seq<TransactionId>)
    ensures
        first_transaction_error(t, ids) matches Some(e) ==> e !is LedgerInclusionProofFailure,
    decreases ids.len(),
{
    if ids.len() > 0 {
        lemma_transaction_errors_are_lookups(t, ids.drop_first());
    }
}

proof fn lemma_count_id_step(txs: Seq<TransactionView>, id: TransactionId, j: int)
    requires
        0 <= j < txs.len(),
    ensures
        count_id(txs.take(j + 1), id) == count_id(txs.take(j), id) + if txs[j].transaction_id == id { 1nat } else { 0nat },
{
    assert(txs.take(j + 1).drop_last() =~= txs.take(j));
}

proof fn lemma_count_one_unique(txs: Seq<TransactionView>, id: TransactionId, i: int, k: int)
    requires
        count_id(txs, id) == 1,
        0 <= i < txs.len(),
        0 <= k < txs.len(),
        txs[i].transaction_id == id,
        txs[k].transaction_id == id,
    ensures
        i == k,
    decreases txs.len(),
{
    let n = txs.len() - 1;
    if i == n && k == n {
    } else if i == n || k == n {
        let o = if i == n { k } else { i };
        assert(txs.drop_last()[o].transaction_id == id);
        lemma_count_positive(txs.drop_last(), id, o);
    } else {
        assert(txs.drop_last()[i].transaction_id == id);
        assert(txs.drop_last()[k].transaction_id == id);
        if txs.last().transaction_id == id {
            lemma_count_positive(txs.drop_last(), id, i);
        }
        lemma_count_one_unique(txs.drop_last(), id, i, k);
    }
}

proof fn lemma_count_positive(txs: Seq<TransactionView>, id: TransactionId, i: int)
    requires
        0 <= i < txs.len(),
        txs[i].transaction_id == id,
    ensures
        count_id(txs, id) >= 1,
    decreases txs.len(),
{
    if i < txs.len() - 1 {
        assert(txs.drop_last()[i].transaction_id == id);
        lemma_count_positive(txs.drop_last(), id, i);
    }
}

proof fn lemma_concat_all_step(ss: Seq<Seq<Digest>>, j: int)
    requires
        0 <= j < ss.len(),
    ensures
        concat_all(ss.take(j + 1)) == concat_all(ss.take(j)) + ss[j],
{
    assert(ss.take(j + 1).drop_last() =~= ss.take(j));
}

/// The serial numbers (0) or commitments (1) of a transaction.
fn transaction_keys_exec(tx: &Transaction, kind: u8) -> (r: Vec<Digest>)
    requires
        kind <= 1,
    ensures
        r@ == transaction_keys(tx@, kind as int),
{
    let ghost ks = transition_key_seqs(tx@.transitions, kind as int);
    let mut r: Vec<Digest> = Vec::new();
    let mut j: usize = 0;
    assert(ks.take(0) =~= Seq::<Seq<Digest>>::empty());
    while j < tx.transitions.len()
        invariant
            kind <= 1,
            j <= tx.transitions@.len(),
            ks == transition_key_seqs(tx@.transitions, kind as int),
            r@ == concat_all(ks.take(j as int)),
        decreases tx.transitions@.len() - j,
    {
        let mut keys = if kind == 0 {
            copy_digests(&tx.transitions[j].serial_numbers)
        } else {
            copy_digests(&tx.transitions[j].commitments)
        };
        assert(keys@ == ks[j as int]);
        r.append(&mut keys);
        proof {
            lemma_concat_all_step(ks, j as int);
        }
        j = j + 1;
    }
    assert(ks.take(j as int) =~= ks);
    r
}

/// The serial numbers (0) or commitments (1) of a block.
fn block_keys_exec(block: &Block, kind: u8) -> (r: Vec<Digest>)
    requires
        kind <= 1,
    ensures
        r@ == block_keys(block@, kind as int),
{
    let ghost ks = transaction_key_seqs(block@.transactions, kind as int);
    let mut r: Vec<Digest> = Vec::new();
    let mut j: usize = 0;
    assert(ks.take(0) =~= Seq::<Seq<Digest>>::empty());
    while j < block.transactions.len()
        invariant
            kind <= 1,
            j <= block.transactions@.len(),
            ks == transaction_key_seqs(block@.transactions, kind as int),
            r@ == concat_all(ks.take(j as int)),
        decreases block.transactions@.len() - j,
    {
        let mut keys = transaction_keys_exec(&block.transactions[j], kind);
        assert(keys@ == ks[j as int]);
        r.append(&mut keys);
        proof {
            lemma_concat_all_step(ks, j as int);
        }
        j = j + 1;
    }
    assert(ks.take(j as int) =~= ks);
    r
}

proof fn lemma_first_present_skip(m: Map<Digest, Digest>, keys: Seq<Digest>, k: int)
    requires
        0 <= k <= keys.len(),
        forall|i: int| 0 <= i < k ==> !m.contains_key(#[trigger] keys[i]),
    ensures
        first_present(m, keys) == first_present(m, keys.skip(k)),
    decreases k,
{
    if k > 0 {
        assert(!m.contains_key(keys[0]));
        lemma_first_present_skip(m, keys.drop_first(), k - 1);
        assert(keys.drop_first().skip(k - 1) =~= keys.skip(k));
    } else {
        assert(keys.skip(0) =~= keys);
    }
}

proof fn lemma_first_problem_skip(v: LedgerView, txs: Seq<TransactionView>, k: int)
    requires
        0 <= k <= txs.len(),
        forall|i: int| 0 <= i < k ==> transaction_is_new(v, #[trigger] txs[i]),
    ensures
        first_transaction_problem(v, txs) == first_transaction_problem(v, txs.skip(k)),
    decreases k,
{
    if k > 0 {
        assert(transaction_is_new(v, txs[0]));
        lemma_first_problem_skip(v, txs.drop_first(), k - 1);
        assert(txs.drop_first().skip(k - 1) =~= txs.skip(k));
    } else {
        assert(txs.skip(0) =~= txs);
    }
}

impl LedgerState {
    /// The ledger's internal invariant: its storage maps are well formed and
    /// its block storage names the genesis block's previous block hash.
    pub closed spec fn wf(&self) -> bool {
        &&& self.ledger_roots.wf()
        &&& self.blocks.wf()
        &&& self.blocks@.genesis_previous_block_hash == self.genesis_block.previous_block_hash
        &&& self.tree_len == tree_block_hashes(self.ledger_tree).len()
    }

    /// The number of block hashes in the ledger tree.
    pub fn ledger_tree_len(&self) -> (r: u64)
        requires
            self.wf(),
        ensures
            r == self@.tree_hashes.len(),
    {
        self.tree_len
    }

    /// Opens the ledger over the given storage: stores the genesis block if
    /// the storage is new, validates the ledger roots of the stored blocks
    /// every 250 blocks and at the latest one while rebuilding the ledger
    /// tree, and loads the latest block and its locators.
    pub fn open(genesis_block: Block, ledger_roots: DataMap<LedgerRoot, u32>, blocks: BlockState) -> (r: Result<LedgerState, LedgerError>)
        requires
            ledger_roots.wf(),
            blocks.wf(),
            blocks@.genesis_previous_block_hash == genesis_block.previous_block_hash,
        ensures
            r matches Ok(l) ==> l.wf(),
            open_result(genesis_block@, ledger_roots@, blocks@) == match r {
                Ok(l) => Ok::<LedgerView, LedgerError>(l@),
                Err(e) => Err::<LedgerView, LedgerError>(e),
            },
            r matches Ok(l) ==> locators_lookup(l@.blocks, l@.latest_block.header.height)
                == Ok::<Seq<(u32, BlockHash)>, LedgerError>(l@.latest_block_locators),
    {
        let ghost g = genesis_block@;
        let ghost roots0 = ledger_roots@;
        let ghost b0 = blocks@;
        let mut ledger_tree = match new_block_hash_tree() {
            Some(tree) => tree,
            None => return Err(LedgerError::LedgerTreeFailure),
        };
        let mut roots = ledger_roots;
        let mut store = blocks;

        // Determine the latest block height.
        let latest_block_height = match roots.max_value() {
            Some(h) => h,
            None => 0,
        };
        proof {
            if !(roots0.dom() =~= Set::<LedgerRoot>::empty()) {
                assert(is_max_root_height(roots0, latest_block_height));
                let m = max_root_height(roots0);
                assert(is_max_root_height(roots0, m));
                let k1 = choose|k: LedgerRoot| #[trigger] roots0.contains_key(k) && roots0[k] == m;
                let k2 = choose|k: LedgerRoot| #[trigger] roots0.contains_key(k) && roots0[k] == latest_block_height;
                assert(roots0[k1] <= latest_block_height);
                assert(roots0[k2] <= m);
            }
        }
        let ghost latest = max_root_height(roots0);
        assert(latest_block_height == latest);

        // If this is new storage, initialize it with the genesis block.
        if latest_block_height == 0 && !store.contains_block_height(0) {
            roots.insert(genesis_block.header.previous_ledger_root, genesis_block.header.height);
            match store.add_block(&genesis_block) {
                Ok(()) => {},
                Err(e) => {
                    assert(open_result(g, roots0, b0) == Err::<LedgerView, LedgerError>(e));
                    return Err(e);
                },
            }
        }
        let ghost roots1 = roots@;
        let ghost b1 = store@;
        assert(store@.genesis_previous_block_hash == genesis_block.previous_block_hash);

        // Retrieve each block from genesis to validate state.
        let count: u64 = latest_block_height as u64 + 1;
        let mut k: u64 = 0;
        assert(tree_block_hashes(ledger_tree) =~= heights_prefix(b1, 0));
        while k < count
            invariant
                roots.wf(),
                store.wf(),
                roots@ == roots1,
                store@ == b1,
                g == genesis_block@,
                roots0 == ledger_roots@,
                b0 == blocks@,
                latest == max_root_height(roots0),
                latest_block_height == latest,
                count == latest_block_height + 1,
                k <= count,
                b1 == opening_blocks(g, roots0, b0).0,
                opening_blocks(g, roots0, b0).1 is Ok,
                open_result_with(g, roots0, b0, None) == (match validation_error(roots1, b1, latest, None) {
                    Some(e) => Err(e),
                    None => match block_lookup(b1, latest) {
                        Err(e) => Err(e),
                        Ok(block) => match locators_lookup(b1, block.header.height) {
                            Err(e) => Err(e),
                            Ok(locators) => Ok(LedgerView {
                                latest_block: block,
                                latest_block_locators: locators,
                                tree_hashes: heights_prefix(b1, (latest + 1) as nat),
                                ledger_roots: roots1,
                                blocks: b1,
                                genesis_block: g,
                            }),
                        },
                    },
                }),
                forall|tree_stop: Option<nat>| #[trigger] open_result_with(g, roots0, b0, tree_stop) == (match validation_error(roots1, b1, latest, tree_stop) {
                    Some(e) => Err(e),
                    None => open_result_with(g, roots0, b0, None),
                }),
                first_tree_refusal(b1, k as nat) is None,
                first_open_error(roots1, b1, latest, k as nat) is None,
                forall|i: int| 0 <= i < k ==> #[trigger] b1.block_heights.contains_key(i as u32),
                tree_block_hashes(ledger_tree) == heights_prefix(b1, k as nat),
            decreases count - k,
        {
            let block_height = k as u32;
            proof {
                lemma_first_tree_refusal_after(b1, k as nat, count as nat);
            }
            // Validate the ledger root every 250 blocks.
            if block_height % 250 == 0 || block_height == latest_block_height {
                // Ensure the ledger roots match their expected block heights.
                let expected_ledger_root = match store.get_block_header(block_height) {
                    Ok(header) => header.previous_ledger_root,
                    Err(e) => {
                        proof {
                            lemma_first_open_error_extend(roots1, b1, latest, k as nat, count as nat);
                        }
                        return Err(e);
                    },
                };
                match roots.get(&expected_ledger_root) {
                    Some(height) => {
                        if block_height != *height {
                            proof {
                                lemma_first_open_error_extend(roots1, b1, latest, k as nat, count as nat);
                            }
                            return Err(LedgerError::LedgerRootHeightMismatch(block_height, *height));
                        }
                    },
                    None => {
                        proof {
                            lemma_first_open_error_extend(roots1, b1, latest, k as nat, count as nat);
                        }
                        return Err(LedgerError::LedgerRootMissing(block_height));
                    },
                }
                // Ensure the ledger tree matches the state of ledger roots.
                let root_bytes = ledger_tree.root_bytes();
                if expected_ledger_root != Digest::from_le_bytes(&root_bytes) {
                    proof {
                        lemma_first_open_error_extend(roots1, b1, latest, k as nat, count as nat);
                    }
                    return Err(LedgerError::LedgerTreeMismatch(block_height));
                }
            }

            // Add the block hash to the ledger tree.
            let block_hash = match store.get_block_hash(block_height) {
                Ok(hash) => hash,
                Err(e) => {
                    proof {
                        lemma_first_open_error_extend(roots1, b1, latest, k as nat, count as nat);
                    }
                    return Err(e);
                },
            };
            assert(open_error_at(roots1, b1, block_height, latest) is None);
            assert(first_open_error(roots1, b1, latest, (k + 1) as nat) is None);
            let hash_bytes = block_hash.to_le_bytes();
            proof {
                lemma_digest_bytes_round_trip(block_hash);
            }
            // The tree holds at most 2^32 - 1 block hashes.
            if k >= 0xFFFF_FFFF {
                proof {
                    lemma_first_tree_refusal_extend(b1, k as nat, count as nat);
                    lemma_first_open_error_after(roots1, b1, latest, (k + 1) as nat, count as nat);
                    assert(validation_error(roots1, b1, latest, Some(k as nat)) == Some(LedgerError::LedgerTreeRefused(block_hash)));
                }
                return Err(LedgerError::LedgerTreeRefused(block_hash));
            }
            if !ledger_tree.add(&hash_bytes) {
                proof {
                    let stop = Some(k as nat);
                    lemma_first_tree_refusal_extend(b1, k as nat, count as nat);
                    lemma_first_open_error_after(roots1, b1, latest, (k + 1) as nat, count as nat);
                    assert(validation_error(roots1, b1, latest, stop) == Some(LedgerError::LedgerTreeRefused(block_hash)));
                    assert(open_result(g, roots0, b0) == Err::<LedgerView, LedgerError>(LedgerError::LedgerTreeRefused(block_hash)));
                }
                return Err(LedgerError::LedgerTreeRefused(block_hash));
            }
            assert(first_tree_refusal(b1, (k + 1) as nat) is None);
            assert(tree_block_hashes(ledger_tree) =~= heights_prefix(b1, (k + 1) as nat));
            k = k + 1;
        }

        assert(open_result(g, roots0, b0) == open_result_with(g, roots0, b0, None));
        // Update the latest state.
        let block = match store.get_block(latest_block_height) {
            Ok(block) => block,
            Err(e) => return Err(e),
        };
        let latest_block_locators = match locators_from_storage(&store, block.header.height) {
            Ok(locators) => locators,
            Err(e) => return Err(e),
        };
        let ledger = LedgerState {
            latest_block: block,
            latest_block_locators,
            ledger_tree,
            tree_len: count,
            ledger_roots: roots,
            blocks: store,
            genesis_block,
        };
        assert(ledger@ =~= LedgerView {
            latest_block: ledger.latest_block@,
            latest_block_locators: ledger.latest_block_locators@,
            tree_hashes: heights_prefix(b1, (latest + 1) as nat),
            ledger_roots: roots1,
            blocks: b1,
            genesis_block: g,
        });
        Ok(ledger)
    }

    /// Returns the latest block.
    pub fn latest_block(&self) -> (r: &Block)
        ensures
            r@ == self@.latest_block,
    {
        &self.latest_block
    }

    /// Returns the latest block height.
    pub fn latest_block_height(&self) -> (r: u32)
        ensures
            r == self@.latest_block.header.height,
    {
        self.latest_block.header.height
    }

    /// Returns the latest block hash.
    pub fn latest_block_hash(&self) -> (r: BlockHash)
        ensures
            r == self@.latest_block.block_hash,
    {
        self.latest_block.block_hash
    }

    /// Returns the latest block timestamp.
    pub fn latest_block_timestamp(&self) -> (r: i64)
        ensures
            r == self@.latest_block.header.timestamp,
    {
        self.latest_block.header.timestamp
    }

    /// Returns the latest block difficulty target.
    pub fn latest_block_difficulty_target(&self) -> (r: u64)
        ensures
            r == self@.latest_block.header.difficulty_target,
    {
        self.latest_block.header.difficulty_target
    }

    /// Returns the latest block header.
    pub fn latest_block_header(&self) -> (r: &BlockHeader)
        ensures
            *r == self@.latest_block.header,
    {
        &self.latest_block.header
    }

    /// Returns the transactions from the latest block.
    pub fn latest_block_transactions(&self) -> (r: &Vec<Transaction>)
        ensures
            transactions_view(r@) == self@.latest_block.transactions,
    {
        &self.latest_block.transactions
    }

    /// Returns the latest block locators.
    pub fn latest_block_locators(&self) -> (r: &Vec<(u32, BlockHash)>)
        ensures
            r@ == self@.latest_block_locators,
    {
        &self.latest_block_locators
    }

    /// Returns the latest ledger root.
    pub fn latest_ledger_root(&self) -> (r: LedgerRoot)
        ensures
            r == current_ledger_root(self@),
    {
        let bytes = self.ledger_tree.root_bytes();
        Digest::from_le_bytes(&bytes)
    }

    /// Returns `true` if the given ledger root is the current one or one of a stored block.
    pub fn contains_ledger_root(&self, ledger_root: &LedgerRoot) -> (r: bool)
        requires
            self.wf(),
        ensures
            r == (*ledger_root == current_ledger_root(self@) || self@.ledger_roots.contains_key(*ledger_root)),
    {
        *ledger_root == self.latest_ledger_root() || self.ledger_roots.contains_key(ledger_root)
    }

    /// Returns `true` if the given block height exists in storage.
    pub fn contains_block_height(&self, block_height: u32) -> (r: bool)
        requires
            self.wf(),
        ensures
            r == self@.blocks.block_heights.contains_key(block_height),
    {
        self.blocks.contains_block_height(block_height)
    }

    /// Returns `true` if the given block hash exists in storage.
    pub fn contains_block_hash(&self, block_hash: &BlockHash) -> (r: bool)
        requires
            self.wf(),
        ensures
            r == self@.blocks.block_headers.contains_key(*block_hash),
    {
        self.blocks.contains_block_hash(block_hash)
    }

    /// Returns `true` if the given transaction ID exists in storage.
    pub fn contains_transaction(&self, transaction_id: &TransactionId) -> (r: bool)
        requires
            self.wf(),
        ensures
            r == self@.blocks.transactions.transactions.contains_key(*transaction_id),
    {
        self.blocks.contains_transaction(transaction_id)
    }

    /// Returns `true` if the given serial number exists in storage.
    pub fn contains_serial_number(&self, serial_number: &SerialNumber) -> (r: bool)
        requires
            self.wf(),
        ensures
            r == self@.blocks.transactions.serial_numbers.contains_key(*serial_number),
    {
        self.blocks.contains_serial_number(serial_number)
    }

    /// Returns `true` if the given commitment exists in storage.
    pub fn contains_commitment(&self, commitment: &Commitment) -> (r: bool)
        requires
            self.wf(),
        ensures
            r == self@.blocks.transactions.commitments.contains_key(*commitment),
    {
        self.blocks.contains_commitment(commitment)
    }

    /// Returns `true` if the given ciphertext ID exists in storage.
    pub fn contains_ciphertext_id(&self, ciphertext_id: &CiphertextId) -> (r: bool)
        requires
            self.wf(),
        ensures
            r == self@.blocks.transactions.ciphertext_ids.contains_key(*ciphertext_id),
    {
        self.blocks.contains_ciphertext_id(ciphertext_id)
    }

    /// Returns the record ciphertext for a given ciphertext ID.
    pub fn get_ciphertext(&self, ciphertext_id: &CiphertextId) -> (r: Result<Vec<u8>, LedgerError>)
        requires
            self.wf(),
        ensures
            match r {
                Ok(bytes) => ciphertext_lookup(self@.blocks.transactions, *ciphertext_id) == Ok::<Seq<u8>, LedgerError>(bytes@),
                Err(e) => ciphertext_lookup(self@.blocks.transactions, *ciphertext_id) == Err::<Seq<u8>, LedgerError>(e),
            },
    {
        self.blocks.get_ciphertext(ciphertext_id)
    }

    /// Returns the transition for a given transition ID.
    pub fn get_transition(&self, transition_id: &TransitionId) -> (r: Result<Transition, LedgerError>)
        requires
            self.wf(),
        ensures
            match r {
                Ok(t) => self@.blocks.transactions.transitions.contains_key(*transition_id)
                    && t@ == self@.blocks.transactions.transitions[*transition_id].2,
                Err(e) => !self@.blocks.transactions.transitions.contains_key(*transition_id)
                    && e == LedgerError::TransitionNotFound(*transition_id),
            },
    {
        self.blocks.get_transition(transition_id)
    }

    /// Returns the transaction for a given transaction ID.
    pub fn get_transaction(&self, transaction_id: &TransactionId) -> (r: Result<Transaction, LedgerError>)
        requires
            self.wf(),
        ensures
            match r {
                Ok(tx) => transaction_lookup(self@.blocks.transactions, *transaction_id) == Ok::<TransactionView, LedgerError>(tx@),
                Err(e) => transaction_lookup(self@.blocks.transactions, *transaction_id) == Err::<TransactionView, LedgerError>(e),
            },
    {
        self.blocks.get_transaction(transaction_id)
    }

    /// Returns the transaction metadata for a given transaction ID.
    pub fn get_transaction_metadata(&self, transaction_id: &TransactionId) -> (r: Result<Metadata, LedgerError>)
        requires
            self.wf(),
        ensures
            match r {
                Ok(m) => self@.blocks.transactions.transactions.contains_key(*transaction_id)
                    && m == self@.blocks.transactions.transactions[*transaction_id].2,
                Err(e) => !self@.blocks.transactions.transactions.contains_key(*transaction_id)
                    && e == LedgerError::TransactionNotFound(*transaction_id),
            },
    {
        self.blocks.get_transaction_metadata(transaction_id)
    }

    /// Returns the block height for the given block hash.
    pub fn get_block_height(&self, block_hash: &BlockHash) -> (r: Result<u32, LedgerError>)
        requires
            self.wf(),
        ensures
            match r {
                Ok(h) => self@.blocks.block_headers.contains_key(*block_hash) && h == self@.blocks.block_headers[*block_hash].height,
                Err(e) => !self@.blocks.block_headers.contains_key(*block_hash) && e == LedgerError::BlockHeaderNotFound(*block_hash),
            },
    {
        self.blocks.get_block_height(block_hash)
    }

    /// Returns the block hash for the given block height.
    pub fn get_block_hash(&self, block_height: u32) -> (r: Result<BlockHash, LedgerError>)
        requires
            self.wf(),
        ensures
            r == block_hash_lookup(self@.blocks, block_height),
    {
        self.blocks.get_block_hash(block_height)
    }

    /// Returns the block hashes from the given `start_block_height` to `end_block_height` (inclusive).
    pub fn get_block_hashes(&self, start_block_height: u32, end_block_height: u32) -> (r: Result<Vec<BlockHash>, LedgerError>)
        requires
            self.wf(),
        ensures
            match r {
                Ok(hashes) => start_block_height <= end_block_height
                    && hashes@.len() == end_block_height - start_block_height + 1
                    && forall|i: int| 0 <= i < hashes@.len() ==>
                        block_hash_lookup(self@.blocks, (start_block_height + i) as u32) == Ok::<BlockHash, LedgerError>(#[trigger] hashes@[i]),
                Err(e) => if start_block_height > end_block_height {
                    e == LedgerError::InvalidHeightRange(start_block_height, end_block_height)
                } else {
                    exists|h: u32| start_block_height <= h <= end_block_height
                        && block_hash_lookup(self@.blocks, h) == Err::<BlockHash, LedgerError>(e)
                        && forall|g: u32| start_block_height <= g < h ==> #[trigger] block_hash_lookup(self@.blocks, g) is Ok
                },
            },
    {
        self.blocks.get_block_hashes(start_block_height, end_block_height)
    }

    /// Returns the previous block hash for the given block height.
    pub fn get_previous_block_hash(&self, block_height: u32) -> (r: Result<BlockHash, LedgerError>)
        requires
            self.wf(),
        ensures
            r == previous_block_hash_lookup(self@.blocks, block_height),
    {
        self.blocks.get_previous_block_hash(block_height)
    }

    /// Returns the block header for the given block height.
    pub fn get_block_header(&self, block_height: u32) -> (r: Result<BlockHeader, LedgerError>)
        requires
            self.wf(),
        ensures
            r == block_header_lookup(self@.blocks, block_height),
    {
        self.blocks.get_block_header(block_height)
    }

    /// Returns the transactions from the block of the given block height.
    pub fn get_block_transactions(&self, block_height: u32) -> (r: Result<Vec<Transaction>, LedgerError>)
        requires
            self.wf(),
        ensures
            match r {
                Ok(txs) => block_transactions_lookup(self@.blocks, block_height)
                    == Ok::<Seq<TransactionView>, LedgerError>(transactions_view(txs@)),
                Err(e) => block_transactions_lookup(self@.blocks, block_height) == Err::<Seq<TransactionView>, LedgerError>(e),
            },
    {
        self.blocks.get_block_transactions(block_height)
    }

    /// Returns the block for a given block height.
    pub fn get_block(&self, block_height: u32) -> (r: Result<Block, LedgerError>)
        requires
            self.wf(),
        ensures
            match r {
                Ok(b) => block_lookup(self@.blocks, block_height) == Ok::<BlockView, LedgerError>(b@),
                Err(e) => block_lookup(self@.blocks, block_height) == Err::<BlockView, LedgerError>(e),
            },
    {
        self.blocks.get_block(block_height)
    }

    /// Returns the blocks from the given `start_block_height` to `end_block_height` (inclusive).
    pub fn get_blocks(&self, start_block_height: u32, end_block_height: u32) -> (r: Result<Vec<Block>, LedgerError>)
        requires
            self.wf(),
        ensures
            match r {
                Ok(blocks) => start_block_height <= end_block_height
                    && blocks@.len() == end_block_height - start_block_height + 1
                    && forall|i: int| 0 <= i < blocks@.len() ==>
                        block_lookup(self@.blocks, (start_block_height + i) as u32) == Ok::<BlockView, LedgerError>(#[trigger] blocks@[i]@),
                Err(e) => if start_block_height > end_block_height {
                    e == LedgerError::InvalidHeightRange(start_block_height, end_block_height)
                } else {
                    exists|h: u32| start_block_height <= h <= end_block_height
                        && block_lookup(self@.blocks, h) == Err::<BlockView, LedgerError>(e)
                        && forall|g: u32| start_block_height <= g < h ==> #[trigger] block_lookup(self@.blocks, g) is Ok
                },
            },
    {
        self.blocks.get_blocks(start_block_height, end_block_height)
    }

    /// Returns the ledger root in the block header of the given block height.
    pub fn get_previous_ledger_root(&self, block_height: u32) -> (r: Result<LedgerRoot, LedgerError>)
        requires
            self.wf(),
        ensures
            match r {
                Ok(root) => block_header_lookup(self@.blocks, block_height) matches Ok(header) && root == header.previous_ledger_root,
                Err(e) => block_header_lookup(self@.blocks, block_height) == Err::<BlockHeader, LedgerError>(e),
            },
    {
        self.blocks.get_previous_ledger_root(block_height)
    }

    /// The first of `keys` that the given storage map holds.
    fn first_stored(map_kind: u8, blocks: &BlockState, keys: &Vec<Digest>) -> (r: Option<Digest>)
        requires
            blocks.wf(),
            map_kind <= 1,
        ensures
            r == first_present(
                if map_kind == 0 { blocks@.transactions.serial_numbers } else { blocks@.transactions.commitments },
                keys@,
            ),
    {
        let ghost m = if map_kind == 0 { blocks@.transactions.serial_numbers } else { blocks@.transactions.commitments };
        let mut i: usize = 0;
        while i < keys.len()
            invariant
                blocks.wf(),
                map_kind <= 1,
                m == (if map_kind == 0 { blocks@.transactions.serial_numbers } else { blocks@.transactions.commitments }),
                i <= keys@.len(),
                forall|k: int| 0 <= k < i ==> !m.contains_key(#[trigger] keys@[k]),
            decreases keys@.len() - i,
        {
            let present = if map_kind == 0 {
                blocks.contains_serial_number(&keys[i])
            } else {
                blocks.contains_commitment(&keys[i])
            };
            if present {
                proof {
                    lemma_first_present_skip(m, keys@, i as int);
                }
                return Some(keys[i]);
            }
            i = i + 1;
        }
        proof {
            lemma_first_present_skip(m, keys@, i as int);
        }
        None
    }

    /// Checks `block` as the next block of the ledger, given its own validity,
    /// the difficulty target that the network expects of it, and the current time.
    pub fn check_next_block(&self, block: &Block, block_is_valid: bool, expected_difficulty_target: u64, now: i64) -> (r: Result<(), LedgerError>)
        requires
            self.wf(),
            self@.latest_block.header.height < u32::MAX,
            now <= i64::MAX - TWO_HOURS_UNIX,
        ensures
            match next_block_error(self@, block@, block_is_valid, expected_difficulty_target, now) {
                Some(e) => r == Err::<(), LedgerError>(e),
                None => r is Ok,
            },
            r is Ok ==> {
                &&& block_is_valid
                &&& block.header.height == self@.latest_block.header.height + 1
                &&& block.previous_block_hash == self@.latest_block.block_hash
                &&& block.header.timestamp > self@.latest_block.header.timestamp
                &&& block.header.timestamp <= now + TWO_HOURS_UNIX
                &&& block.header.difficulty_target == expected_difficulty_target
                &&& transactions_new_with_known_roots(self@, block@.transactions)
            },
            r matches Err(LedgerError::UnknownLedgerRoot(id, root))
                ==> root != ledger_root_of(self@.tree_hashes) && !self@.ledger_roots.contains_key(root),
    {
        proof {
            lemma_unknown_root_refusals(self@, block@, block_is_valid, expected_difficulty_target, now);
            if next_block_error(self@, block@, block_is_valid, expected_difficulty_target, now) is None {
                lemma_accepted_next_block_meets_the_rules(self@, block@, block_is_valid, expected_difficulty_target, now);
            }
        }
        let block_height = block.header.height;
        // Ensure the block itself is valid.
        if !block_is_valid {
            return Err(LedgerError::InvalidBlock(block_height));
        }
        // Ensure the block height increments by one.
        let current_height = self.latest_block.header.height;
        if block_height != current_height + 1 {
            return Err(LedgerError::UnexpectedHeight(block_height, current_height + 1));
        }
        // Ensure the previous block hash matches.
        if block.previous_block_hash != self.latest_block.block_hash {
            return Err(LedgerError::WrongPreviousBlockHash(block_height));
        }
        // Ensure the next block timestamp is within the declared time limit.
        if block.header.timestamp > now + TWO_HOURS_UNIX {
            return Err(LedgerError::TimestampTooFarAhead(block.header.timestamp));
        }
        // Ensure the next block timestamp is after the current block timestamp.
        if block.header.timestamp <= self.latest_block.header.timestamp {
            return Err(LedgerError::TimestampNotIncreasing(block.header.timestamp));
        }
        // Ensure the expected difficulty target is met.
        if block.header.difficulty_target != expected_difficulty_target {
            return Err(LedgerError::WrongDifficultyTarget(block.header.difficulty_target, expected_difficulty_target));
        }
        // Ensure the block height does not already exist.
        if self.contains_block_height(block_height) {
            return Err(LedgerError::BlockExists(block_height));
        }
        // Ensure the block hash does not already exist.
        if self.contains_block_hash(&block.block_hash) {
            return Err(LedgerError::BlockHashExists(block_height));
        }
        // Ensure the ledger root in the block matches the current ledger root.
        if block.header.previous_ledger_root != self.latest_ledger_root() {
            return Err(LedgerError::WrongLedgerRoot(block_height));
        }
        // Ensure the canon chain does not already contain the given serial numbers.
        let serial_numbers = block_keys_exec(block, 0);
        match Self::first_stored(0, &self.blocks, &serial_numbers) {
            Some(sn) => return Err(LedgerError::SerialNumberExists(sn)),
            None => {},
        }
        // Ensure the canon chain does not already contain the given commitments.
        let commitments = block_keys_exec(block, 1);
        match Self::first_stored(1, &self.blocks, &commitments) {
            Some(cm) => return Err(LedgerError::CommitmentExists(cm)),
            None => {},
        }
        // Ensure each transaction in the given block is new to the canon chain.
        let ghost txs = block@.transactions;
        let mut i: usize = 0;
        while i < block.transactions.len()
            invariant
                self.wf(),
                i <= block.transactions@.len(),
                txs == block@.transactions,
                next_block_error(self@, block@, block_is_valid, expected_difficulty_target, now) == first_transaction_problem(self@, txs),
                forall|k: int| 0 <= k < i ==> transaction_is_new(self@, #[trigger] txs[k]),
            decreases block.transactions@.len() - i,
        {
            let transaction = &block.transactions[i];
            assert(txs[i as int] == transaction@);
            // Ensure the transactions in the given block do not already exist.
            if self.contains_transaction(&transaction.transaction_id) {
                proof {
                    lemma_first_problem_skip(self@, txs, i as int);
                    assert(txs.skip(i as int)[0] == txs[i as int]);
                }
                return Err(LedgerError::TransactionExists(transaction.transaction_id));
            }
            // Ensure the transaction in the block references a valid past or current ledger root.
            if !self.contains_ledger_root(&transaction.ledger_root) {
                proof {
                    lemma_first_problem_skip(self@, txs, i as int);
                    assert(txs.skip(i as int)[0] == txs[i as int]);
                }
                return Err(LedgerError::UnknownLedgerRoot(transaction.transaction_id, transaction.ledger_root));
            }
            assert(transaction_is_new(self@, txs[i as int]));
            i = i + 1;
        }
        proof {
            lemma_first_problem_skip(self@, txs, i as int);
        }
        Ok(())
    }

    /// Adds the given block as the next block in the ledger, given the
    /// block's own validity, the difficulty target that the network expects
    /// of it, and the current time.
    pub fn add_next_block(
        &mut self,
        block: &Block,
        block_is_valid: bool,
        expected_difficulty_target: u64,
        now: i64,
    ) -> (r: Result<(), LedgerError>)
        requires
            old(self).wf(),
            old(self)@.latest_block.header.height < u32::MAX - 1,
            old(self)@.tree_hashes.len() < tree_capacity(),
            now <= i64::MAX - TWO_HOURS_UNIX,
        ensures
            final(self).wf(),
            match next_block_error(old(self)@, block@, block_is_valid, expected_difficulty_target, now) {
                Some(e) => r == Err::<(), LedgerError>(e) && final(self)@ == old(self)@,
                None => (final(self)@, r) == applied_next_block(old(self)@, block@, tree_takes(old(self)@.tree_hashes, block.block_hash)),
            },
            r is Ok ==> {
                &&& block_is_valid
                &&& block.header.height == old(self)@.latest_block.header.height + 1
                &&& block.previous_block_hash == old(self)@.latest_block.block_hash
                &&& block.header.timestamp > old(self)@.latest_block.header.timestamp
                &&& block.header.timestamp <= now + TWO_HOURS_UNIX
                &&& block.header.difficulty_target == expected_difficulty_target
                &&& transactions_new_with_known_roots(old(self)@, block@.transactions)
                &&& final(self)@.latest_block == block@
            },
    {
        proof {
            if next_block_error(old(self)@, block@, block_is_valid, expected_difficulty_target, now) is None {
                lemma_accepted_next_block_meets_the_rules(old(self)@, block@, block_is_valid, expected_difficulty_target, now);
            }
        }
        match self.check_next_block(block, block_is_valid, expected_difficulty_target, now) {
            Ok(()) => {},
            Err(e) => return Err(e),
        }
        let ghost v = self@;
        let ghost b = block@;
        assert(b.header.height == v.latest_block.header.height + 1);

        // Store the block.
        match self.blocks.add_block(block) {
            Ok(()) => {},
            Err(e) => {
                proof {
                    assert(self@ =~= (LedgerView { blocks: self.blocks@, ..v }));
                }
                return Err(e);
            },
        }
        let ghost blocks1 = self.blocks@;

        // Add the block hash to the ledger tree.
        let hash_bytes = block.block_hash.to_le_bytes();
        proof {
            lemma_digest_bytes_round_trip(block.block_hash);
        }
        if !self.ledger_tree.add(&hash_bytes) {
            proof {
                assert(self@ =~= (LedgerView { blocks: blocks1, ..v }));
            }
            return Err(LedgerError::LedgerTreeRefused(block.block_hash));
        }
        self.tree_len = self.tree_len + 1;

        // Record the block height of the block's ledger root.
        self.ledger_roots.insert(block.header.previous_ledger_root, block.header.height);
        let ghost v2 = LedgerView {
            blocks: blocks1,
            tree_hashes: v.tree_hashes.push(b.block_hash),
            ledger_roots: v.ledger_roots.insert(b.header.previous_ledger_root, b.header.height),
            ..v
        };
        assert(self@ =~= v2);

        // Update the latest state.
        match locators_from_storage(&self.blocks, block.header.height) {
            Ok(locators) => {
                self.latest_block_locators = locators;
            },
            Err(e) => return Err(e),
        }
        self.latest_block = block.duplicate();
        proof {
            assert(self@ =~= (LedgerView { latest_block_locators: self.latest_block_locators@, latest_block: b, ..v2 }));
        }
        Ok(())
    }

    /// Rebuilds the ledger tree from the stored block hashes of heights 0 to
    /// the latest.
    fn regenerate_ledger_tree(&mut self) -> (r: Result<(), LedgerError>)
        requires
            old(self).wf(),
        ensures
            final(self).wf(),
            regeneration_outcome(old(self)@, final(self)@, r),
    {
        let latest_height = self.latest_block.header.height;
        let ghost hs_spec = chain_hashes(self@.blocks, latest_height);
        // Retrieve all of the block hashes.
        let mut block_hashes: Vec<[u8; 32]> = Vec::new();
        let count: u64 = latest_height as u64 + 1;
        let mut k: u64 = 0;
        while k < count
            invariant
                self.wf(),
                count == latest_height + 1,
                k <= count,
                latest_height == self@.latest_block.header.height,
                first_missing_height(self@.blocks, k as nat) is None,
                block_hashes@.len() == k,
                forall|i: int| 0 <= i < k ==> digest_of_bytes(#[trigger] block_hashes@[i]@) == self@.blocks.block_heights[i as u32],
                forall|i: int| 0 <= i < k ==> (#[trigger] block_hashes@[i])@ == digest_bytes(self@.blocks.block_heights[i as u32]),
            decreases count - k,
        {
            let height = k as u32;
            match self.blocks.get_block_hash(height) {
                Ok(hash) => {
                    proof {
                        lemma_digest_bytes_round_trip(hash);
                    }
                    block_hashes.push(hash.to_le_bytes());
                },
                Err(e) => {
                    proof {
                        lemma_first_missing_height_after(self@.blocks, k as nat, count as nat);
                    }
                    return Err(e);
                },
            }
            k = k + 1;
        }
        let ghost hashes = Seq::new((latest_height + 1) as nat, |i: int| self@.blocks.block_heights[i as u32]);
        assert(first_missing_height(self@.blocks, (latest_height + 1) as nat) is None);
        assert(block_hashes@.map_values(|b: [u8; 32]| digest_of_bytes(b@)) =~= hashes);

        // Add the block hashes to create the new ledger tree.
        let mut new_ledger_tree = match new_block_hash_tree() {
            Some(tree) => tree,
            None => return Err(LedgerError::LedgerTreeFailure),
        };
        // The tree holds at most 2^32 - 1 block hashes.
        if count > 0xFFFF_FFFF {
            return Err(LedgerError::LedgerTreeFailure);
        }
        proof {
            assert forall|i: int| 0 <= i < block_hashes@.len() implies
                decodes(#[trigger] block_hashes@[i]@) == decodes(digest_bytes(hashes[i])) by {}
            assert forall|i: int, j: int| 0 <= i < j < block_hashes@.len() implies
                (digest_of_bytes(#[trigger] block_hashes@[i]@) != digest_of_bytes(#[trigger] block_hashes@[j]@))
                == (hashes[i] != hashes[j]) by {}
        }
        if !new_ledger_tree.add_all(&block_hashes) {
            proof {
                if tree_takes_all(hashes) {
                    assert forall|i: int| 0 <= i < block_hashes@.len() implies decodes(#[trigger] block_hashes@[i]@) by {
                        assert(decodes(digest_bytes(hashes[i])));
                    }
                    assert forall|i: int, j: int| 0 <= i < j < block_hashes@.len() implies
                        digest_of_bytes(#[trigger] block_hashes@[i]@) != digest_of_bytes(#[trigger] block_hashes@[j]@) by {
                        assert(hashes[i] != hashes[j]);
                    }
                }
            }
            return Err(LedgerError::LedgerTreeFailure);
        }
        proof {
            if !tree_takes_all(hashes) {
                if exists|i: int| 0 <= i < hashes.len() && !decodes(digest_bytes(#[trigger] hashes[i])) {
                    let i = choose|i: int| 0 <= i < hashes.len() && !decodes(digest_bytes(#[trigger] hashes[i]));
                    assert(!decodes(block_hashes@[i]@));
                } else {
                    let (i, j) = choose|i: int, j: int| 0 <= i < j < hashes.len() && #[trigger] hashes[i] == #[trigger] hashes[j];
                    assert(digest_of_bytes(block_hashes@[i]@) == digest_of_bytes(block_hashes@[j]@));
                }
            }
        }
        assert(Seq::<Digest>::empty() + hashes =~= hashes);

        // Update the current ledger tree with the current state.
        self.ledger_tree = new_ledger_tree;
        self.tree_len = count;
        assert(self@ =~= (LedgerView { tree_hashes: hashes, ..old(self)@ }));
        Ok(())
    }

    /// Removes the latest `num_blocks` from storage, returning the removed blocks on success.
    pub fn remove_last_blocks(&mut self, num_blocks: u32) -> (r: Result<Vec<Block>, LedgerError>)
        requires
            old(self).wf(),
        ensures
            final(self).wf(),
            removal_outcome(
                old(self)@,
                final(self)@,
                num_blocks,
                match r {
                    Ok(blocks) => Ok(blocks_view(blocks@)),
                    Err(e) => Err(e),
                },
            ),
    {
        if num_blocks == 0 || num_blocks > maximum_fork_depth() {
            return Err(LedgerError::InvalidRemovalCount(num_blocks));
        }
        let ghost v0 = self@;

        // Initialize a list of the removed blocks, in increasing height order.
        let mut blocks: Vec<Block> = Vec::new();
        // Initialize the number of blocks left to remove.
        let mut remaining_blocks = num_blocks;

        while self.latest_block.header.height > 0 && remaining_blocks > 0
            invariant
                self.wf(),
                v0 == old(self)@,
                0 < num_blocks <= 4096,
                removed_last_blocks(v0, num_blocks as nat) == ({
                    let (vf, outf, rf) = removed_last_blocks(self@, remaining_blocks as nat);
                    (vf, outf + blocks_view(blocks@), rf)
                }),
            decreases remaining_blocks,
        {
            let ghost v = self@;
            let height = self.latest_block.header.height;
            assert(removed_last_blocks(v, remaining_blocks as nat) == ({
                let (v1, r) = removal_step(v);
                if r is Err {
                    (v1, Seq::<BlockView>::empty(), r)
                } else {
                    let (v2, out, r2) = removed_last_blocks(v1, (remaining_blocks - 1) as nat);
                    (v2, out.push(v.latest_block), r2)
                }
            }));
            // Update the internal state of the ledger, except for the ledger tree.
            match self.blocks.remove_block(height) {
                Ok(()) => {},
                Err(e) => {
                    proof {
                        assert(self@ =~= removal_step(v).0);
                        assert(blocks_view(blocks@) =~= Seq::<BlockView>::empty() + blocks_view(blocks@));
                    }
                    return Err(e);
                },
            }
            self.ledger_roots.remove(&self.latest_block.header.previous_ledger_root);
            match locators_from_storage(&self.blocks, height - 1) {
                Ok(locators) => {
                    self.latest_block_locators = locators;
                },
                Err(e) => {
                    proof {
                        assert(self@ =~= removal_step(v).0);
                    }
                    return Err(e);
                },
            }

            // Prepend this block to the final output.
            let ghost acc = blocks@;
            blocks.insert(0, self.latest_block.duplicate());
            proof {
                assert(blocks_view(blocks@) =~= seq![v.latest_block] + blocks_view(acc));
            }

            match self.blocks.get_block(height - 1) {
                Ok(previous) => {
                    self.latest_block = previous;
                },
                Err(e) => {
                    proof {
                        assert(self@ =~= removal_step(v).0);
                    }
                    return Err(e);
                },
            }
            proof {
                assert(self@ =~= removal_step(v).0);
                let (vf, outf, rf) = removed_last_blocks(self@, (remaining_blocks - 1) as nat);
                assert(outf.push(v.latest_block) + blocks_view(acc) =~= outf + blocks_view(blocks@));
            }

            // Decrement the remaining blocks by 1.
            remaining_blocks = remaining_blocks - 1;
        }
        proof {
            assert(blocks_view(blocks@) =~= Seq::<BlockView>::empty() + blocks_view(blocks@));
        }

        // Regenerate the ledger tree.
        match self.regenerate_ledger_tree() {
            Ok(()) => {},
            Err(e) => return Err(e),
        }
        Ok(blocks)
    }

    /// What the next block is built on, at the given time: the latest block's
    /// hash, the next height, the latest block's timestamp and difficulty
    /// target, the current ledger root and the coinbase reward of the next
    /// height.
    pub fn next_block_template(&self, block_timestamp: i64) -> (r: BlockTemplateFields)
        requires
            self@.latest_block.header.height < u32::MAX,
        ensures
            r.previous_block_hash == self@.latest_block.block_hash,
            r.block_height == self@.latest_block.header.height + 1,
            r.block_timestamp == block_timestamp,
            r.previous_timestamp == self@.latest_block.header.timestamp,
            r.previous_difficulty_target == self@.latest_block.header.difficulty_target,
            r.ledger_root == current_ledger_root(self@),
            r.coinbase_reward == block_reward_at((self@.latest_block.header.height + 1) as u32),
    {
        let block_height = self.latest_block.header.height + 1;
        BlockTemplateFields {
            previous_block_hash: self.latest_block.block_hash,
            block_height,
            block_timestamp,
            previous_timestamp: self.latest_block.header.timestamp,
            previous_difficulty_target: self.latest_block.header.difficulty_target,
            ledger_root: self.latest_ledger_root(),
            coinbase_reward: block_reward(block_height),
        }
    }

    /// Locates a commitment for its ledger proof: its transaction, the block
    /// that holds it, the transaction's index there, the previous block hash,
    /// the current ledger root and the Merkle path of the block hash.
    pub fn get_ledger_inclusion_proof(&self, commitment: Commitment) -> (r: Result<CommitmentLocation, LedgerError>)
        requires
            self.wf(),
        ensures
            match r {
                Ok(l) => commitment_location(self@, commitment) == Ok::<CommitmentLocationView, LedgerError>(l@),
                Err(e) => commitment_location(self@, commitment) == Err::<CommitmentLocationView, LedgerError>(e),
            },
            r matches Err(LedgerError::LedgerInclusionProofFailure(h)) ==> !self@.tree_hashes.contains(h),
            r matches Ok(l) ==> l.transaction_index < l.block_transactions@.len()
                && l.block_transactions@[l.transaction_index as int].transaction_id == l.transaction.transaction_id,
    {
        let transactions = self.blocks.transaction_state();
        let commitment_transition_id = match transactions.get_commitment_transition_id(&commitment) {
            Some(tid) => tid,
            None => return Err(LedgerError::CommitmentNotFound(commitment)),
        };
        let transaction_id = match transactions.get_transition_transaction_id(&commitment_transition_id) {
            Some(id) => id,
            None => return Err(LedgerError::TransitionNotFound(commitment_transition_id)),
        };
        let transaction = match self.get_transaction(&transaction_id) {
            Ok(tx) => tx,
            Err(e) => return Err(e),
        };
        let block_hash = match self.get_transaction_metadata(&transaction_id) {
            Ok(metadata) => metadata.block_hash,
            Err(e) => return Err(e),
        };
        let block_header = match self.blocks.get_block_header_by_hash(&block_hash) {
            Some(header) => header,
            None => return Err(LedgerError::BlockHeaderNotFound(block_hash)),
        };
        let block_transactions = match self.get_block_transactions(block_header.height) {
            Ok(txs) => txs,
            Err(e) => {
                proof {
                    let hh = self@.blocks.block_heights[block_header.height];
                    lemma_transaction_errors_are_lookups(self@.blocks.transactions, self@.blocks.block_transactions[hh]);
                }
                return Err(e);
            },
        };
        let ghost txs = transactions_view(block_transactions@);

        // Find the index of the transaction in its block.
        let mut count: usize = 0;
        let mut index: usize = 0;
        let mut j: usize = 0;
        while j < block_transactions.len()
            invariant
                j <= block_transactions@.len(),
                txs == transactions_view(block_transactions@),
                count as nat == count_id(txs.take(j as int), transaction_id),
                count <= j,
                count >= 1 ==> index < j && txs[index as int].transaction_id == transaction_id,
            decreases block_transactions@.len() - j,
        {
            proof {
                lemma_count_id_step(txs, transaction_id, j as int);
            }
            if block_transactions[j].transaction_id == transaction_id {
                count = count + 1;
                index = j;
            }
            j = j + 1;
        }
        assert(txs.take(j as int) =~= txs);
        if count != 1 {
            return Err(LedgerError::TransactionIndexNotUnique(transaction_id));
        }
        proof {
            let c = choose|i: int| 0 <= i < txs.len() && txs[i].transaction_id == transaction_id;
            lemma_count_one_unique(txs, transaction_id, c, index as int);
        }

        // Determine the previous block hash.
        let previous_block_hash = match self.get_previous_block_hash(block_header.height) {
            Ok(hash) => hash,
            Err(e) => return Err(e),
        };

        // Generate the ledger root inclusion proof.
        let ledger_root = self.latest_ledger_root();
        let hash_bytes = block_hash.to_le_bytes();
        proof {
            lemma_digest_bytes_round_trip(block_hash);
        }
        let ledger_root_inclusion_proof = match self.ledger_tree.inclusion_proof_bytes(&hash_bytes) {
            Some(proof) => proof,
            None => return Err(LedgerError::LedgerInclusionProofFailure(block_hash)),
        };
        Ok(CommitmentLocation {
            transaction,
            block_hash,
            block_header,
            block_transactions,
            transaction_index: index,
            previous_block_hash,
            ledger_root,
            ledger_root_inclusion_proof,
        })
    }

    /// Returns the block locators of the current ledger, from the given block height.
    pub fn get_block_locators(&self, block_height: u32) -> (r: Result<Vec<(u32, BlockHash)>, LedgerError>)
        requires
            self.wf(),
        ensures
            match r {
                Ok(locators) => locators_lookup(self@.blocks, block_height) == Ok::<Seq<(u32, BlockHash)>, LedgerError>(locators@),
                Err(e) => locators_lookup(self@.blocks, block_height) == Err::<Seq<(u32, BlockHash)>, LedgerError>(e),
            },
    {
        locators_from_storage(&self.blocks, block_height)
    }
}

/// The block locators of the blocks in storage, from the given block height.
fn locators_from_storage(blocks: &BlockState, block_height: u32) -> (r: Result<Vec<(u32, BlockHash)>, LedgerError>)
    requires
        blocks.wf(),
    ensures
        match r {
            Ok(locators) => locators_lookup(blocks@, block_height) == Ok::<Seq<(u32, BlockHash)>, LedgerError>(locators@),
            Err(e) => locators_lookup(blocks@, block_height) == Err::<Seq<(u32, BlockHash)>, LedgerError>(e),
        },
{
    let heights = block_locator_heights(block_height);
    let ghost hs = locator_heights(block_height as nat);
    proof {
        assert forall|i: int| 0 <= i < hs.len() implies 0 <= #[trigger] hs[i] <= block_height by {
            assert(as_ints(heights@)[i] == heights@[i] as int);
            crate::laws::lemma_locator_heights_bounded(block_height as nat, i);
        }
    }
    let mut locators: Vec<(u32, BlockHash)> = Vec::new();
    let mut i: usize = 0;
    while i < heights.len()
        invariant
            blocks.wf(),
            i <= heights@.len(),
            as_ints(heights@) == hs,
            hs == locator_heights(block_height as nat),
            forall|k: int| 0 <= k < hs.len() ==> 0 <= #[trigger] hs[k] <= block_height,
            locators@ == Seq::new(i as nat, |k: int| (hs[k] as u32, block_hash_lookup(blocks@, hs[k] as u32)->Ok_0)),
            forall|k: int| 0 <= k < i ==> #[trigger] block_hash_lookup(blocks@, hs[k] as u32) is Ok,
        decreases heights@.len() - i,
    {
        let height = heights[i];
        assert(height as int == hs[i as int]);
        match blocks.get_block_hash(height) {
            Ok(hash) => {
                locators.push((height, hash));
                proof {
                    assert(locators@ =~= Seq::new((i + 1) as nat, |k: int| (hs[k] as u32, block_hash_lookup(blocks@, hs[k] as u32)->Ok_0)));
                }
            },
            Err(e) => {
                proof {
                    lemma_locators_for_split(blocks@, hs, i as int);
                    assert(hs.skip(i as int)[0] == hs[i as int]);
                }
                return Err(e);
            },
        }
        i = i + 1;
    }
    proof {
        lemma_locators_for_split(blocks@, hs, i as int);
        assert(hs.skip(i as int) =~= Seq::<int>::empty());
        assert(locators@ + Seq::<(u32, BlockHash)>::empty() =~= locators@);
    }
    Ok(locators)
}

} // verus!
