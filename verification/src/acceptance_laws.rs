use vstd::prelude::*;
use crate::digest::{BlockHash, Commitment, Digest, TransactionId};
use crate::error::LedgerError;
use crate::block_state::{block_lookup, BlockStateView};
use crate::ledger::{
    commitment_location, count_id, heights_prefix, locators_lookup, max_root_height, open_result,
    block_keys, concat_all, first_present, first_transaction_problem, next_block_error, transaction_key_seqs,
    transaction_keys, transition_key_seqs, LedgerView,
};
use crate::network::ledger_root_of;
use crate::transaction_state::keys_of;
use crate::types::{BlockView, TransactionView};

verus! {

/// None of the serial numbers (0) or commitments (1) of the transitions of
/// block `b` is a key of `m`.
pub open spec fn keys_absent(b: BlockView, m: Map<Digest, Digest>, kind: int) -> bool {
    forall|i: int, j: int, k: int|
        0 <= i < b.transactions.len() && 0 <= j < b.transactions[i].transitions.len()
            && 0 <= k < keys_of(b.transactions[i].transitions[j], kind).len()
            ==> !m.contains_key(#[trigger] keys_of(b.transactions[i].transitions[j], kind)[k])
}

proof fn lemma_concat_all_has(ss: Seq<Seq<Digest>>, i: int, j: int)
    requires
        0 <= i < ss.len(),
        0 <= j < ss[i].len(),
    ensures
        concat_all(ss).contains(ss[i][j]),
    decreases ss.len(),
{
    let n = ss.len() - 1;
    let front = concat_all(ss.drop_last());
    assert(concat_all(ss) == front + ss.last());
    if i == n {
        assert((front + ss.last())[front.len() + j] == ss[i][j]);
    } else {
        assert(ss.drop_last()[i] == ss[i]);
        lemma_concat_all_has(ss.drop_last(), i, j);
        let p = choose|p: int| 0 <= p < front.len() && front[p] == ss[i][j];
        assert((front + ss.last())[p] == ss[i][j]);
    }
}

proof fn lemma_concat_all_from(ss: Seq<Seq<Digest>>, x: Digest)
    requires
        concat_all(ss).contains(x),
    ensures
        exists|i: int, j: int| 0 <= i < ss.len() && 0 <= j < ss[i].len() && ss[i][j] == x,
    decreases ss.len(),
{
    let n = ss.len() - 1;
    let front = concat_all(ss.drop_last());
    assert(concat_all(ss) == front + ss.last());
    let p = choose|p: int| 0 <= p < concat_all(ss).len() && concat_all(ss)[p] == x;
    if p < front.len() {
        assert(front[p] == x);
        lemma_concat_all_from(ss.drop_last(), x);
        let (i, j) = choose|i: int, j: int| 0 <= i < ss.drop_last().len() && 0 <= j < ss.drop_last()[i].len()
            && ss.drop_last()[i][j] == x;
        assert(ss[i] == ss.drop_last()[i]);
    } else {
        assert(ss[n][p - front.len()] == x);
    }
}

proof fn lemma_first_present_none(m: Map<Digest, Digest>, keys: Seq<Digest>)
    ensures
        first_present(m, keys) is None <==> forall|p: int| 0 <= p < keys.len() ==> !m.contains_key(#[trigger] keys[p]),
    decreases keys.len(),
{
    if keys.len() > 0 {
        lemma_first_present_none(m, keys.drop_first());
        if forall|p: int| 0 <= p < keys.drop_first().len() ==> !m.contains_key(#[trigger] keys.drop_first()[p]) {
            assert forall|p: int| 0 < p < keys.len() implies !m.contains_key(#[trigger] keys[p]) by {
                assert(keys.drop_first()[p - 1] == keys[p]);
            }
        } else {
            let p = choose|p: int| 0 <= p < keys.drop_first().len() && m.contains_key(#[trigger] keys.drop_first()[p]);
            assert(keys[p + 1] == keys.drop_first()[p]);
        }
    }
}

/// The keys of the given kind of a block are absent from `m` exactly when
/// none of its keys, listed transaction after transaction, is present.
proof fn lemma_block_keys_absent(b: BlockView, m: Map<Digest, Digest>, kind: int)
    ensures
        first_present(m, block_keys(b, kind)) is None <==> keys_absent(b, m, kind),
{
    let txs = b.transactions;
    let keys = block_keys(b, kind);
    let tss = transaction_key_seqs(txs, kind);
    lemma_first_present_none(m, keys);
    if first_present(m, keys) is None {
        assert forall|i: int, j: int, k: int|
            0 <= i < txs.len() && 0 <= j < txs[i].transitions.len() && 0 <= k < keys_of(txs[i].transitions[j], kind).len()
            implies !m.contains_key(#[trigger] keys_of(txs[i].transitions[j], kind)[k]) by {
            let x = keys_of(txs[i].transitions[j], kind)[k];
            let ts = transition_key_seqs(txs[i].transitions, kind);
            assert(ts[j] == keys_of(txs[i].transitions[j], kind));
            lemma_concat_all_has(ts, j, k);
            assert(tss[i] == transaction_keys(txs[i], kind));
            let q = choose|q: int| 0 <= q < tss[i].len() && tss[i][q] == x;
            lemma_concat_all_has(tss, i, q);
            let p = choose|p: int| 0 <= p < keys.len() && keys[p] == x;
            assert(!m.contains_key(keys[p]));
        }
    }
    if keys_absent(b, m, kind) {
        assert forall|p: int| 0 <= p < keys.len() implies !m.contains_key(#[trigger] keys[p]) by {
            let x = keys[p];
            assert(keys.contains(x));
            lemma_concat_all_from(tss, x);
            let (i, q) = choose|i: int, q: int| 0 <= i < tss.len() && 0 <= q < tss[i].len() && tss[i][q] == x;
            assert(tss[i] == transaction_keys(txs[i], kind));
            let ts = transition_key_seqs(txs[i].transitions, kind);
            assert(concat_all(ts)[q] == x);
            assert(concat_all(ts).contains(x));
            lemma_concat_all_from(ts, x);
            let (j, k) = choose|j: int, k: int| 0 <= j < ts.len() && 0 <= k < ts[j].len() && ts[j][k] == x;
            assert(ts[j] == keys_of(txs[i].transitions[j], kind));
            assert(!m.contains_key(keys_of(txs[i].transitions[j], kind)[k]));
        }
    }
}

/// Every transaction is new to the ledger and names the current ledger root
/// or the ledger root of a stored block.
pub open spec fn transactions_new_with_known_roots(v: LedgerView, txs: Seq<TransactionView>) -> bool {
    forall|i: int| 0 <= i < txs.len() ==> {
        &&& !v.blocks.transactions.transactions.contains_key((#[trigger] txs[i]).transaction_id)
        &&& (txs[i].ledger_root == ledger_root_of(v.tree_hashes) || v.ledger_roots.contains_key(txs[i].ledger_root))
    }
}

proof fn lemma_no_transaction_problem(v: LedgerView, txs: Seq<TransactionView>)
    ensures
        first_transaction_problem(v, txs) is None <==> transactions_new_with_known_roots(v, txs),
    decreases txs.len(),
{
    if txs.len() > 0 {
        lemma_no_transaction_problem(v, txs.drop_first());
        if transactions_new_with_known_roots(v, txs) {
            assert(txs[0] == txs[0]);
            assert forall|i: int| 0 <= i < txs.drop_first().len() implies {
                &&& !v.blocks.transactions.transactions.contains_key((#[trigger] txs.drop_first()[i]).transaction_id)
                &&& (txs.drop_first()[i].ledger_root == ledger_root_of(v.tree_hashes)
                    || v.ledger_roots.contains_key(txs.drop_first()[i].ledger_root))
            } by {
                assert(txs.drop_first()[i] == txs[i + 1]);
            }
        }
        if first_transaction_problem(v, txs) is None {
            assert forall|i: int| 0 <= i < txs.len() implies {
                &&& !v.blocks.transactions.transactions.contains_key((#[trigger] txs[i]).transaction_id)
                &&& (txs[i].ledger_root == ledger_root_of(v.tree_hashes) || v.ledger_roots.contains_key(txs[i].ledger_root))
            } by {
                if i > 0 {
                    assert(txs.drop_first()[i - 1] == txs[i]);
                }
            }
        }
    }
}

/// A block that the ledger accepts as its next block is valid, one height
/// above the latest block, names the latest block's hash as its previous
/// hash, has a timestamp strictly after the latest block's and at most two
/// hours after the current time, has exactly the expected difficulty target,
/// is stored neither at its height nor under its hash, names the root of the
/// ledger tree as its ledger root, spends no stored serial number, creates no
/// stored commitment, and each of its transactions is new to the ledger and
/// names the current ledger root or the ledger root of a stored block.
pub proof fn lemma_accepted_next_block_meets_the_rules(
    v: LedgerView,
    b: BlockView,
    block_is_valid: bool,
    expected_difficulty_target: u64,
    now: i64,
)
    requires
        next_block_error(v, b, block_is_valid, expected_difficulty_target, now) is None,
    ensures
        block_is_valid,
        b.header.height == v.latest_block.header.height + 1,
        b.previous_block_hash == v.latest_block.block_hash,
        b.header.timestamp > v.latest_block.header.timestamp,
        b.header.timestamp <= now + 7200,
        b.header.difficulty_target == expected_difficulty_target,
        !v.blocks.block_heights.contains_key(b.header.height),
        !v.blocks.block_headers.contains_key(b.block_hash),
        b.header.previous_ledger_root == ledger_root_of(v.tree_hashes),
        keys_absent(b, v.blocks.transactions.serial_numbers, 0),
        keys_absent(b, v.blocks.transactions.commitments, 1),
        transactions_new_with_known_roots(v, b.transactions),
{
    lemma_block_keys_absent(b, v.blocks.transactions.serial_numbers, 0);
    lemma_block_keys_absent(b, v.blocks.transactions.commitments, 1);
    lemma_no_transaction_problem(v, b.transactions);
}

/// A block that meets every rule is accepted as the next block.
pub proof fn lemma_next_block_meeting_the_rules_is_accepted(
    v: LedgerView,
    b: BlockView,
    block_is_valid: bool,
    expected_difficulty_target: u64,
    now: i64,
)
    requires
        block_is_valid,
        b.header.height == v.latest_block.header.height + 1,
        b.previous_block_hash == v.latest_block.block_hash,
        b.header.timestamp > v.latest_block.header.timestamp,
        b.header.timestamp <= now + 7200,
        b.header.difficulty_target == expected_difficulty_target,
        !v.blocks.block_heights.contains_key(b.header.height),
        !v.blocks.block_headers.contains_key(b.block_hash),
        b.header.previous_ledger_root == ledger_root_of(v.tree_hashes),
        keys_absent(b, v.blocks.transactions.serial_numbers, 0),
        keys_absent(b, v.blocks.transactions.commitments, 1),
        transactions_new_with_known_roots(v, b.transactions),
    ensures
        next_block_error(v, b, block_is_valid, expected_difficulty_target, now) is None,
{
    lemma_block_keys_absent(b, v.blocks.transactions.serial_numbers, 0);
    lemma_block_keys_absent(b, v.blocks.transactions.commitments, 1);
    lemma_no_transaction_problem(v, b.transactions);
}

/// The ledger refuses a block for a transaction's ledger root only where that
/// root is neither the current ledger root nor the ledger root of a stored
/// block; and it never refuses one for its root where every transaction is
/// new and names a root that the ledger knows.
pub proof fn lemma_unknown_root_refusals(
    v: LedgerView,
    b: BlockView,
    block_is_valid: bool,
    expected_difficulty_target: u64,
    now: i64,
)
    ensures
        next_block_error(v, b, block_is_valid, expected_difficulty_target, now)
            matches Some(LedgerError::UnknownLedgerRoot(id, root))
            ==> root != ledger_root_of(v.tree_hashes) && !v.ledger_roots.contains_key(root),
        transactions_new_with_known_roots(v, b.transactions) ==> !(next_block_error(
            v,
            b,
            block_is_valid,
            expected_difficulty_target,
            now,
        ) matches Some(LedgerError::UnknownLedgerRoot(_, _))),
{
    lemma_no_transaction_problem(v, b.transactions);
    lemma_transaction_problem_roots(v, b.transactions);
}

proof fn lemma_transaction_problem_roots(v: LedgerView, txs: Seq<TransactionView>)
    ensures
        first_transaction_problem(v, txs) matches Some(LedgerError::UnknownLedgerRoot(id, root))
            ==> root != ledger_root_of(v.tree_hashes) && !v.ledger_roots.contains_key(root),
    decreases txs.len(),
{
    if txs.len() > 0 {
        lemma_transaction_problem_roots(v, txs.drop_first());
    }
}


/// A ledger opened over any stored state that opens has as its latest
/// block locators the locators of its latest block's height, as
/// `get_block_locators` gives them; its latest block is the block stored at
/// the largest height of a ledger root; and its ledger tree holds the stored
/// hashes of heights 0 to that height, in order.
pub proof fn lemma_opened_ledger_agrees_with_storage(genesis: BlockView, roots: Map<Digest, u32>, b: BlockStateView)
    requires
        open_result(genesis, roots, b) is Ok,
    ensures
        ({
            let l = open_result(genesis, roots, b)->Ok_0;
            &&& locators_lookup(l.blocks, l.latest_block.header.height)
                == Ok::<Seq<(u32, BlockHash)>, LedgerError>(l.latest_block_locators)
            &&& block_lookup(l.blocks, max_root_height(roots)) == Ok::<BlockView, LedgerError>(l.latest_block)
            &&& l.tree_hashes == heights_prefix(l.blocks, (max_root_height(roots) + 1) as nat)
            &&& l.genesis_block == genesis
        }),
{
}

/// Where the ledger locates a commitment, the transaction it names is the
/// one that holds the commitment's transition, it stands at the located
/// index among the transactions of its block, and the ledger root is the
/// root of the ledger tree.
pub proof fn lemma_commitment_location_points_at_its_transaction(v: LedgerView, commitment: Commitment)
    requires
        commitment_location(v, commitment) is Ok,
    ensures
        ({
            let l = commitment_location(v, commitment)->Ok_0;
            let t = v.blocks.transactions;
            &&& t.commitments.contains_key(commitment)
            &&& l.transaction.transaction_id == t.transitions[t.commitments[commitment]].0
            &&& 0 <= l.transaction_index < l.block_transactions.len()
            &&& l.block_transactions[l.transaction_index].transaction_id == l.transaction.transaction_id
            &&& l.ledger_root == ledger_root_of(v.tree_hashes)
        }),
{
    let l = commitment_location(v, commitment)->Ok_0;
    let t = v.blocks.transactions;
    let id = t.transitions[t.commitments[commitment]].0;
    let txs = l.block_transactions;
    assert(count_id(txs, id) == 1);
    lemma_count_id_positive_has(txs, id);
}

proof fn lemma_count_id_positive_has(txs: Seq<TransactionView>, id: TransactionId)
    requires
        count_id(txs, id) >= 1,
    ensures
        exists|i: int| 0 <= i < txs.len() && txs[i].transaction_id == id,
    decreases txs.len(),
{
    if txs.last().transaction_id == id {
        assert(txs[txs.len() - 1].transaction_id == id);
    } else {
        lemma_count_id_positive_has(txs.drop_last(), id);
        let i = choose|i: int| 0 <= i < txs.drop_last().len() && txs.drop_last()[i].transaction_id == id;
        assert(txs[i] == txs.drop_last()[i]);
    }
}

} // verus!
