use vstd::prelude::*;
use crate::block_state::{
    added_block, block_hash_lookup, block_header_lookup, block_lookup, previous_block_hash_lookup, removed_block, stored_transactions,
    BlockStateView,
};
use crate::storage_laws::{
    fresh_block_transactions, lemma_added_block_keeps_blocks, lemma_stored_transactions_hold, tx_id_in, lemma_added_block_reads_back, lemma_remove_block_undoes_add,
};
use crate::digest::{digest_bytes, BlockHash, Digest, TransactionId};
use crate::network::{decodes, ledger_root_of};
use crate::error::LedgerError;
use crate::ledger::{
    applied_next_block, chain_hashes, current_ledger_root, first_missing_height, heights_prefix, locators_lookup, next_block_error,
    block_keys, first_open_error, first_present, first_tree_refusal, open_error_at, opening_blocks, opening_roots,
    validation_error, first_transaction_problem, locators_for, max_root_height, next_block_outcome,
    tree_takes, tree_takes_all, open_result, regeneration_outcome, removal_outcome, removal_step,
    removed_last_blocks, LedgerView,
};
use crate::transaction_state::TransactionStateView;
use crate::types::{BlockHeader, BlockView, TransactionView};
use crate::locators::{
    floor_log2, lemma_floor_log2_bounds, lemma_pow2_monotone, lemma_pow2_positive, linear_heights, locator_heights,
    min_int, num_positive, pow2, proportional_heights, quadratic_end, quadratic_heights, sat_sub, spread_step,
};

verus! {

/// Each element of `s` is larger than every later one.
pub open spec fn strictly_decreasing(s: Seq<int>) -> bool {
    forall|i: int, j: int| 0 <= i < j < s.len() ==> s[i] > s[j]
}

proof fn lemma_concat_decreasing(a: Seq<int>, b: Seq<int>)
    requires
        strictly_decreasing(a),
        strictly_decreasing(b),
        a.len() > 0 && b.len() > 0 ==> a[a.len() - 1] > b[0],
    ensures
        strictly_decreasing(a + b),
{
    assert forall|i: int, j: int| 0 <= i < j < (a + b).len() implies (a + b)[i] > (a + b)[j] by {
        if i < a.len() && j >= a.len() {
            assert(a[i] >= a[a.len() - 1]);
            assert(b[0] >= b[j - a.len()]);
        }
    }
}

proof fn lemma_pow2_strict(a: nat, b: nat)
    requires
        a < b,
    ensures
        pow2(a) < pow2(b),
    decreases b,
{
    lemma_pow2_positive(a);
    if a + 1 < b {
        lemma_pow2_strict(a, (b - 1) as nat);
    }
}

/// The facts about the parts of the locator heights above 10 blocks that the
/// laws rest on.
proof fn lemma_locator_parts(h: nat)
    requires
        10 < h <= u32::MAX,
    ensures
        ({
            let nb = min_int(63, h as int);
            let n = nb - 10;
            let lh = h - 10;
            let q = floor_log2((lh / n) as nat);
            let np = n - q;
            let lq = quadratic_end(lh, q);
            let step = spread_step(lq, np);
            &&& 1 <= n <= 53
            &&& q <= n - 1
            &&& (q == 0 || 2 * pow2(q) <= lh)
            &&& lq >= 1
            &&& (q == 0 ==> lq == lh)
            &&& step >= 1
            &&& num_positive(lq, np as nat, step) <= np
        }),
{
    let nb = min_int(63, h as int);
    let n = nb - 10;
    let lh = h - 10;
    let s0 = lh / n;
    let q = floor_log2(s0 as nat);
    assert(pow2(1) == 2) by { reveal_with_fuel(pow2, 2); }
    if h < 64 {
        assert(lh == n);
        assert(s0 == 1) by (nonlinear_arith) requires s0 == lh / n, lh == n, n > 0;
        assert(q == 0);
    } else {
        assert(n == 53);
        if s0 >= 1 {
            lemma_floor_log2_bounds(s0 as nat);
            if q >= 1 {
                assert(pow2(q + 1) == 2 * pow2(q));
                assert(2 * pow2(q) <= lh) by (nonlinear_arith)
                    requires pow2(q) <= s0, s0 == lh / 53, lh >= 0;
                assert(s0 < pow2(q + 1));
            }
            assert(s0 <= 0x1_0000_0000int / 53) by (nonlinear_arith)
                requires s0 == lh / 53, lh < 0x1_0000_0000;
            if q >= 27 {
                lemma_pow2_monotone(27, q);
                assert(pow2(27) == 0x800_0000) by { reveal_with_fuel(pow2, 28); }
            }
        }
    }
    let np = n - q;
    let lq = quadratic_end(lh, q);
    if q == 0 {
        assert(lq == lh);
    } else {
        assert(pow2(q + 1) == 2 * pow2(q));
    }
    assert(lq >= 1);
    let step = spread_step(lq, np);
    let s = lq / np;
    if s == 0 {
        assert(s * np == 0) by (nonlinear_arith) requires s == 0;
        assert(lq - s * np > 2 * s);
    } else {
        assert(s >= 1);
    }
}

proof fn lemma_positive_below_ceil(c: int, step: int, k: int)
    requires
        step >= 1,
        0 <= k,
        k < (c + step - 1) / step,
    ensures
        c - k * step >= 1,
{
    assert(c - k * step >= 1) by (nonlinear_arith)
        requires step >= 1, 0 <= k, k < (c + step - 1) / step;
}

/// The block locators of a ledger at height `h` start at `h`, end at the
/// genesis height 0, strictly decrease in between, and number at most 64.
pub proof fn lemma_block_locators_shape(h: nat)
    requires
        h <= u32::MAX,
    ensures
        locator_heights(h).len() >= 1,
        locator_heights(h).len() <= 64,
        locator_heights(h)[0] == h,
        locator_heights(h).last() == 0,
        strictly_decreasing(locator_heights(h)),
        forall|i: int| 0 <= i < locator_heights(h).len() ==> 0 <= #[trigger] locator_heights(h)[i] <= h,
{
    let s = locator_heights(h);
    if h <= 10 {
        let lin = linear_heights(h as int, h);
        assert(s == lin.push(0));
        assert(strictly_decreasing(lin));
        assert(strictly_decreasing(seq![0int]));
        assert(lin.push(0) =~= lin + seq![0int]);
        lemma_concat_decreasing(lin, seq![0int]);
        assert forall|i: int| 0 <= i < s.len() implies 0 <= #[trigger] s[i] <= h by {
            if i < h {
                assert(s[i] == h - i);
            }
        }
        if h == 0 {
            assert(s[0] == 0);
        } else {
            assert(s[0] == h);
        }
    } else {
        lemma_locator_parts(h);
        let nb = min_int(63, h as int);
        let n = nb - 10;
        let lh = h - 10;
        let q = floor_log2((lh / n) as nat);
        let np = n - q;
        let lq = quadratic_end(lh, q);
        let step = spread_step(lq, np);
        let npos = num_positive(lq, np as nat, step);
        let lin = linear_heights(h as int, 10);
        let quad = quadratic_heights(lh, q);
        let body = Seq::new(npos, |k: int| lq - k * step);
        let prop = proportional_heights(lq, np as nat, step);
        assert(s == lin + quad + prop);
        assert(prop == body.push(0));

        // The linear part.
        assert(strictly_decreasing(lin));
        // The quadratic part: no saturation, and strictly decreasing.
        assert forall|k: int| 0 <= k < q implies #[trigger] quad[k] == lh - (pow2((k + 1) as nat) - 2) && quad[k] > lq by {
            lemma_pow2_monotone((k + 1) as nat, q);
            lemma_pow2_strict((k + 1) as nat, (q + 1) as nat);
            assert(pow2((q + 1) as nat) == 2 * pow2(q));
            lemma_pow2_positive((k + 1) as nat);
        }
        assert forall|i: int, j: int| 0 <= i < j < quad.len() implies quad[i] > quad[j] by {
            lemma_pow2_strict((i + 1) as nat, (j + 1) as nat);
        }
        // The proportional part: positive, strictly decreasing, then 0.
        assert(npos <= (lq + step - 1) / step);
        assert forall|k: int| 0 <= k < npos implies #[trigger] body[k] >= 1 && body[k] <= lq by {
            lemma_positive_below_ceil(lq, step, k);
            assert(k * step >= 0) by (nonlinear_arith) requires k >= 0, step >= 1;
        }
        assert forall|i: int, j: int| 0 <= i < j < body.len() implies body[i] > body[j] by {
            assert(i * step < j * step) by (nonlinear_arith) requires i < j, step >= 1;
        }
        assert(prop =~= body + seq![0int]);
        lemma_concat_decreasing(body, seq![0int]);
        if npos > 0 {
            assert(body[0] == lq) by { assert(0 * step == 0); }
        }
        // The parts join in decreasing order.
        if q > 0 {
            assert(quad[0] == lh) by { assert(pow2(1) == 2) by { reveal_with_fuel(pow2, 2); } }
            assert(quad[q - 1] > lq);
            assert(prop[0] <= lq);
        } else {
            assert(prop[0] <= lh);
        }
        lemma_concat_decreasing(quad, prop);
        assert(lin[9] == h - 9);
        lemma_concat_decreasing(lin, quad + prop);
        assert(lin + (quad + prop) =~= s);
        assert(s[0] == h);
        assert(s.last() == 0);
        assert(s.len() == 10 + q + npos + 1);
        assert forall|i: int| 0 <= i < s.len() implies 0 <= #[trigger] s[i] <= h by {
            assert(s[0] >= s[i] || i == 0);
            assert(s[i] >= s[s.len() - 1] || i == s.len() - 1);
        }
    }
}

/// Every block locator height lies between 0 and the ledger's height.
pub proof fn lemma_locator_heights_bounded(h: nat, i: int)
    requires
        h <= u32::MAX,
        0 <= i < locator_heights(h).len(),
    ensures
        0 <= locator_heights(h)[i] <= h,
{
    lemma_block_locators_shape(h);
}

/// The block storage of a ledger at height `l` holds exactly heights 0 to
/// `l`, each with a distinct hash and a header of that height.
pub open spec fn chain_stored(b: BlockStateView, l: u32) -> bool {
    &&& forall|i: u32| i <= l ==> #[trigger] b.block_heights.contains_key(i)
    &&& forall|i: u32| i > l ==> !#[trigger] b.block_heights.contains_key(i)
    &&& forall|i: u32| i <= l ==> b.block_headers.contains_key(#[trigger] b.block_heights[i])
        && b.block_headers[b.block_heights[i]].height == i
    &&& forall|i: u32, j: u32| i < j <= l ==> #[trigger] b.block_heights[i] != #[trigger] b.block_heights[j]
}

/// The ledger's state agrees with itself, except maybe for the ledger tree:
/// its storage holds the chain up to the latest block, the latest block is
/// the stored one at the top, and its locators are those of the storage.
pub open spec fn consistent_below_tree(v: LedgerView) -> bool {
    let l = v.latest_block.header.height;
    &&& chain_stored(v.blocks, l)
    &&& v.latest_block.block_hash == v.blocks.block_heights[l]
    &&& v.latest_block.header == v.blocks.block_headers[v.latest_block.block_hash]
    &&& locators_lookup(v.blocks, l) == Ok::<Seq<(u32, BlockHash)>, LedgerError>(v.latest_block_locators)
}

/// Each stored block up to height `l` names as its ledger root the root of
/// the ledger tree over the stored hashes below it.
pub open spec fn roots_chained(b: BlockStateView, l: u32) -> bool {
    forall|i: u32| i <= l ==> (#[trigger] b.block_headers[b.block_heights[i]]).previous_ledger_root
        == ledger_root_of(heights_prefix(b, i as nat))
}

/// The ledger's state agrees with itself: as above, the ledger tree holds
/// the stored block hashes of heights 0 to the latest, in order, each a
/// canonical block hash of the network, and each stored block names the
/// root of the tree below it as its ledger root.
pub open spec fn consistent(v: LedgerView) -> bool {
    &&& consistent_below_tree(v)
    &&& roots_chained(v.blocks, v.latest_block.header.height)
    &&& v.tree_hashes == heights_prefix(v.blocks, (v.latest_block.header.height + 1) as nat)
    &&& forall|i: int| 0 <= i < v.tree_hashes.len() ==> decodes(digest_bytes(#[trigger] v.tree_hashes[i]))
}

/// Adding a block keeps the ledger consistent: the block becomes the latest,
/// one height up, its hash is stored at that height and appended to the
/// ledger tree.
pub proof fn lemma_add_next_block_keeps_consistency(
    v: LedgerView,
    v2: LedgerView,
    b: BlockView,
    block_is_valid: bool,
    expected_difficulty_target: u64,
    now: i64,
)
    requires
        consistent(v),
        next_block_outcome(v, v2, b, block_is_valid, expected_difficulty_target, now, Ok(())),
    ensures
        consistent(v2),
        v2.latest_block == b,
        b.header.height == v.latest_block.header.height + 1,
        block_hash_lookup(v2.blocks, b.header.height) == Ok::<BlockHash, LedgerError>(b.block_hash),
        v2.tree_hashes == v.tree_hashes.push(b.block_hash),
{
    let l = v.latest_block.header.height;
    assert(next_block_error(v, b, block_is_valid, expected_difficulty_target, now) is None);
    let took = tree_takes(v.tree_hashes, b.block_hash);
    assert((v2, Ok::<(), LedgerError>(())) == applied_next_block(v, b, took));
    let (b1, r) = added_block(v.blocks, b);
    assert(r is Ok);
    assert(took);
    let h = b.header.height;
    assert(h == l + 1);
    assert(!v.blocks.block_headers.contains_key(b.block_hash));
    assert(v2.blocks == b1);
    assert(b1.block_heights == v.blocks.block_heights.insert(h, b.block_hash));
    assert(b1.block_headers == v.blocks.block_headers.insert(b.block_hash, b.header));
    assert forall|i: u32| i <= h implies b1.block_headers.contains_key(#[trigger] b1.block_heights[i])
        && b1.block_headers[b1.block_heights[i]].height == i by {
        if i < h {
            assert(v.blocks.block_headers.contains_key(v.blocks.block_heights[i]));
            assert(v.blocks.block_heights[i] != b.block_hash);
        }
    }
    assert forall|i: u32, j: u32| i < j <= h implies #[trigger] b1.block_heights[i] != #[trigger] b1.block_heights[j] by {
        if j == h {
            assert(v.blocks.block_headers.contains_key(v.blocks.block_heights[i]));
        }
    }
    assert(chain_stored(b1, h));
    assert(v2.tree_hashes =~= heights_prefix(b1, (h + 1) as nat));
    assert forall|i: u32| i <= h implies (#[trigger] b1.block_headers[b1.block_heights[i]]).previous_ledger_root
        == ledger_root_of(heights_prefix(b1, i as nat)) by {
        assert(heights_prefix(b1, i as nat) =~= heights_prefix(v.blocks, i as nat));
        if i < h {
            assert(v.blocks.block_headers.contains_key(v.blocks.block_heights[i]));
            assert(v.blocks.block_heights[i] != b.block_hash);
            assert(v.blocks.block_headers[v.blocks.block_heights[i]].previous_ledger_root
                == ledger_root_of(heights_prefix(v.blocks, i as nat)));
        }
    }
}

/// One round of removal from a consistent ledger leaves it consistent but for
/// the ledger tree, one height down, with the removed block's hash gone.
proof fn lemma_removal_step_keeps_consistency(v: LedgerView)
    requires
        consistent_below_tree(v),
        v.latest_block.header.height > 0,
        removal_step(v).1 is Ok,
    ensures
        consistent_below_tree(removal_step(v).0),
        removal_step(v).0.latest_block.header.height == v.latest_block.header.height - 1,
        forall|i: u32| i < v.latest_block.header.height ==>
            #[trigger] removal_step(v).0.blocks.block_heights[i] == v.blocks.block_heights[i],
        forall|i: u32| i < v.latest_block.header.height ==>
            #[trigger] removal_step(v).0.blocks.block_headers[removal_step(v).0.blocks.block_heights[i]]
                == v.blocks.block_headers[v.blocks.block_heights[i]],
{
    let l = v.latest_block.header.height;
    let (b1, r) = removed_block(v.blocks, l);
    assert(r is Ok);
    let hash = v.blocks.block_heights[l];
    assert(v.blocks.block_headers[hash].height == l);
    assert(b1.block_heights == v.blocks.block_heights.remove(l));
    assert(b1.block_headers == v.blocks.block_headers.remove(hash));
    assert forall|i: u32| i <= l - 1 implies b1.block_headers.contains_key(#[trigger] b1.block_heights[i])
        && b1.block_headers[b1.block_heights[i]].height == i by {
        assert(v.blocks.block_heights[i] != hash);
        assert(v.blocks.block_headers.contains_key(v.blocks.block_heights[i]));
    }
    assert forall|i: u32, j: u32| i < j <= l - 1 implies #[trigger] b1.block_heights[i] != #[trigger] b1.block_heights[j] by {
        assert(v.blocks.block_heights[i] != v.blocks.block_heights[j]);
    }
    assert(chain_stored(b1, (l - 1) as u32));
    assert forall|i: u32| i < l implies #[trigger] b1.block_headers[b1.block_heights[i]]
        == v.blocks.block_headers[v.blocks.block_heights[i]] by {
        assert(v.blocks.block_heights[i] != hash);
    }
    let v1 = removal_step(v).0;
    assert(block_lookup(b1, (l - 1) as u32) is Ok);
    assert(v1.latest_block == block_lookup(b1, (l - 1) as u32)->Ok_0);
}

/// Removing up to `m` blocks from a consistent ledger, where every round
/// succeeds, removes `min(m, l)` blocks from height `l` down and leaves the
/// ledger consistent but for the ledger tree; the removed blocks come in
/// increasing height order.
proof fn lemma_removed_last_blocks_consistency(v: LedgerView, m: nat)
    requires
        consistent_below_tree(v),
        removed_last_blocks(v, m).2 is Ok,
    ensures
        ({
            let (v2, out, r) = removed_last_blocks(v, m);
            let l = v.latest_block.header.height as nat;
            let k = if m <= l { m } else { l };
            &&& consistent_below_tree(v2)
            &&& v2.latest_block.header.height == l - k
            &&& out.len() == k
            &&& forall|i: int| 0 <= i < k ==> (#[trigger] out[i]).header.height == l - k + 1 + i
            &&& forall|i: u32| i <= l - k ==> #[trigger] v2.blocks.block_heights[i] == v.blocks.block_heights[i]
            &&& forall|i: u32| i <= l - k ==> #[trigger] v2.blocks.block_headers[v2.blocks.block_heights[i]]
                == v.blocks.block_headers[v.blocks.block_heights[i]]
            &&& forall|i: int| 0 <= i < k ==> (#[trigger] out[i]).header
                == v.blocks.block_headers[v.blocks.block_heights[(l - k + 1 + i) as u32]]
            &&& latest_reads_back(v) ==> latest_reads_back(v2)
        }),
    decreases m,
{
    let l = v.latest_block.header.height;
    if l == 0 || m == 0 {
    } else {
        lemma_removal_step_keeps_consistency(v);
        let v1 = removal_step(v).0;
        assert(latest_reads_back(v1));
        lemma_removed_last_blocks_consistency(v1, (m - 1) as nat);
        let (v2, out1, r2) = removed_last_blocks(v1, (m - 1) as nat);
        let out = out1.push(v.latest_block);
        assert(removed_last_blocks(v, m) == (v2, out, r2));
        let k1 = if (m - 1) as nat <= (l - 1) as nat { (m - 1) as nat } else { (l - 1) as nat };
        assert forall|i: int| 0 <= i < k1 + 1 implies (#[trigger] out[i]).header
            == v.blocks.block_headers[v.blocks.block_heights[(l - (k1 + 1) + 1 + i) as u32]] by {
            if i < k1 {
                assert(out[i] == out1[i]);
                let j = (l - 1 - k1 + 1 + i) as u32;
                assert(j < l);
            }
        }
    }
}

/// The latest block is the block stored at the latest height.
pub open spec fn latest_reads_back(v: LedgerView) -> bool {
    block_lookup(v.blocks, v.latest_block.header.height) == Ok::<BlockView, LedgerError>(v.latest_block)
}

/// Removing blocks from a consistent ledger keeps it consistent: on success
/// `min(num_blocks, l)` blocks are gone from the top, returned in increasing
/// height order, the ledger tree holds the remaining chain, whose root is the
/// ledger root that the first removed block names, and where the latest
/// block was the stored one at its height, it is so again.
pub proof fn lemma_remove_last_blocks_keeps_consistency(v: LedgerView, v2: LedgerView, num_blocks: u32, out: Seq<BlockView>)
    requires
        consistent(v),
        removal_outcome(v, v2, num_blocks, Ok(out)),
    ensures
        ({
            let l = v.latest_block.header.height as nat;
            let k = if num_blocks <= l { num_blocks as nat } else { l };
            &&& consistent(v2)
            &&& v2.latest_block.header.height == l - k
            &&& out.len() == k
            &&& forall|i: int| 0 <= i < k ==> (#[trigger] out[i]).header.height == l - k + 1 + i
            &&& latest_reads_back(v) ==> latest_reads_back(v2)
            &&& k > 0 ==> current_ledger_root(v2) == out[0].header.previous_ledger_root
        }),
{
    let (v1, out1, r1) = removed_last_blocks(v, num_blocks as nat);
    assert(r1 is Ok);
    lemma_removed_last_blocks_consistency(v, num_blocks as nat);
    let l = v.latest_block.header.height;
    let l1 = v1.latest_block.header.height;
    lemma_chain_hashes_of_stored(v1.blocks, l1);
    assert(heights_prefix(v1.blocks, (l1 + 1) as nat) =~= heights_prefix(v.blocks, (l1 + 1) as nat));
    assert forall|i: u32| i <= l1 implies (#[trigger] v1.blocks.block_headers[v1.blocks.block_heights[i]]).previous_ledger_root
        == ledger_root_of(heights_prefix(v1.blocks, i as nat)) by {
        assert(heights_prefix(v1.blocks, i as nat) =~= heights_prefix(v.blocks, i as nat));
        assert(v.blocks.block_headers[v.blocks.block_heights[i]].previous_ledger_root
            == ledger_root_of(heights_prefix(v.blocks, i as nat)));
    }
    if l1 < l {
        assert(v.blocks.block_headers[v.blocks.block_heights[(l1 + 1) as u32]].previous_ledger_root
            == ledger_root_of(heights_prefix(v.blocks, (l1 + 1) as nat)));
    }
}

proof fn lemma_chain_hashes_of_stored(b: BlockStateView, l: u32)
    requires
        forall|i: u32| i <= l ==> #[trigger] b.block_heights.contains_key(i),
    ensures
        chain_hashes(b, l) == Ok::<Seq<BlockHash>, LedgerError>(heights_prefix(b, (l + 1) as nat)),
{
    lemma_no_missing_height(b, (l + 1) as nat, l);
}

proof fn lemma_no_missing_height(b: BlockStateView, n: nat, l: u32)
    requires
        n <= l + 1,
        forall|i: u32| i <= l ==> #[trigger] b.block_heights.contains_key(i),
    ensures
        first_missing_height(b, n) is None,
    decreases n,
{
    if n > 0 {
        lemma_no_missing_height(b, (n - 1) as nat, l);
        assert(b.block_heights.contains_key((n - 1) as u32));
    }
}


/// After a block is added as the next block, the ledger reads it back from
/// its height as it was written, and it is the latest block; where its
/// transactions and its hash are new to the ledger's storage.
pub proof fn lemma_next_block_reads_back(
    v: LedgerView,
    v2: LedgerView,
    b: BlockView,
    block_is_valid: bool,
    expected_difficulty_target: u64,
    now: i64,
)
    requires
        consistent(v),
        next_block_outcome(v, v2, b, block_is_valid, expected_difficulty_target, now, Ok(())),
        fresh_block_transactions(v.blocks.transactions, b.transactions),
        !v.blocks.block_transactions.contains_key(b.block_hash),
    ensures
        block_lookup(v2.blocks, b.header.height) == Ok::<BlockView, LedgerError>(b),
        block_lookup(v2.blocks, v2.latest_block.header.height) == Ok::<BlockView, LedgerError>(v2.latest_block),
{
    let l = v.latest_block.header.height;
    assert(next_block_error(v, b, block_is_valid, expected_difficulty_target, now) is None);
    let took = tree_takes(v.tree_hashes, b.block_hash);
    assert((v2, Ok::<(), LedgerError>(())) == applied_next_block(v, b, took));
    assert(v2.blocks == added_block(v.blocks, b).0);
    assert(previous_block_hash_lookup(v.blocks, b.header.height) == Ok::<BlockHash, LedgerError>(b.previous_block_hash));
    lemma_added_block_reads_back(v.blocks, b);
    lemma_add_next_block_keeps_consistency(v, v2, b, block_is_valid, expected_difficulty_target, now);
}

/// Removing the last block undoes adding it as the next block: the removal
/// succeeds and gives the block back, and the storage, the ledger roots, the
/// ledger tree and the locators are as before, and the latest block is the
/// stored block of the former latest height; where the block's transactions,
/// its hash and the ledger root it names are new to the ledger's storage and
/// the former latest block reads back from storage.
#[verifier::rlimit(30)]
pub proof fn lemma_remove_last_block_undoes_add(
    v: LedgerView,
    v2: LedgerView,
    v3: LedgerView,
    b: BlockView,
    block_is_valid: bool,
    expected_difficulty_target: u64,
    now: i64,
    r: Result<Seq<BlockView>, LedgerError>,
)
    requires
        consistent(v),
        block_lookup(v.blocks, v.latest_block.header.height) is Ok,
        next_block_outcome(v, v2, b, block_is_valid, expected_difficulty_target, now, Ok(())),
        removal_outcome(v2, v3, 1, r),
        fresh_block_transactions(v.blocks.transactions, b.transactions),
        !v.blocks.block_transactions.contains_key(b.block_hash),
        !v.ledger_roots.contains_key(b.header.previous_ledger_root),
    ensures
        r == Ok::<Seq<BlockView>, LedgerError>(seq![b]),
        v3.blocks == v.blocks,
        v3.ledger_roots == v.ledger_roots,
        v3.tree_hashes == v.tree_hashes,
        v3.latest_block_locators == v.latest_block_locators,
        v3.latest_block == block_lookup(v.blocks, v.latest_block.header.height)->Ok_0,
        v3.latest_block.block_hash == v.latest_block.block_hash,
        v3.latest_block.header == v.latest_block.header,
        v3.genesis_block == v.genesis_block,
{
    let l = v.latest_block.header.height;
    lemma_add_next_block_keeps_consistency(v, v2, b, block_is_valid, expected_difficulty_target, now);
    assert(next_block_error(v, b, block_is_valid, expected_difficulty_target, now) is None);
    let took = tree_takes(v.tree_hashes, b.block_hash);
    assert((v2, Ok::<(), LedgerError>(())) == applied_next_block(v, b, took));
    assert(v2.blocks == added_block(v.blocks, b).0);
    let h = b.header.height;
    assert(h == l + 1);
    lemma_remove_block_undoes_add(v.blocks, b);
    assert(removed_block(v2.blocks, h) == (v.blocks, Ok::<(), LedgerError>(())));
    // The one round of removal.
    let (v1, r0) = removal_step(v2);
    assert(v1.blocks == v.blocks);
    assert(v1.ledger_roots =~= v.ledger_roots);
    assert(locators_lookup(v.blocks, l) == Ok::<Seq<(u32, BlockHash)>, LedgerError>(v.latest_block_locators));
    assert(r0 is Ok);
    assert(removed_last_blocks(v1, 0) == (v1, Seq::<BlockView>::empty(), Ok::<(), LedgerError>(())));
    assert(removed_last_blocks(v2, 1) == (v1, seq![b], Ok::<(), LedgerError>(())));
    assert(v1.latest_block == block_lookup(v.blocks, l)->Ok_0);
    assert(v1.latest_block.header.height == l);
    // The ledger tree is rebuilt from the remaining chain.
    lemma_chain_hashes_of_stored(v1.blocks, l);
    let hashes = heights_prefix(v.blocks, (l + 1) as nat);
    assert forall|i: int, j: int| 0 <= i < j < hashes.len() implies #[trigger] hashes[i] != #[trigger] hashes[j] by {
        assert(v.blocks.block_heights[i as u32] != v.blocks.block_heights[j as u32]);
    }
    assert(tree_takes_all(hashes));
    assert(v3 == (LedgerView { tree_hashes: hashes, ..v1 }));
}


/// The contents of new, empty block storage for a network whose genesis
/// block names `genesis_previous_block_hash` as its previous block.
pub open spec fn empty_block_storage(genesis_previous_block_hash: BlockHash) -> BlockStateView {
    BlockStateView {
        block_heights: Map::empty(),
        block_headers: Map::empty(),
        block_transactions: Map::empty(),
        transactions: TransactionStateView {
            transactions: Map::empty(),
            transitions: Map::empty(),
            serial_numbers: Map::empty(),
            commitments: Map::empty(),
            ciphertext_ids: Map::empty(),
            events: Map::empty(),
        },
        genesis_previous_block_hash,
    }
}

/// Opening the ledger over new, empty storage succeeds: it stores the
/// genesis block and gives a consistent ledger whose only block, the latest,
/// is the genesis block as it was written, whose locators name it alone,
/// whose ledger tree holds its hash, and whose ledger roots map its ledger
/// root to height 0; where the genesis block is at height 0, names the root
/// of the empty ledger tree as its ledger root, has a canonical hash, and its
/// transactions share no transaction ID and no transition ID.
pub proof fn lemma_open_new_storage(genesis: BlockView)
    requires
        genesis.header.height == 0,
        genesis.header.previous_ledger_root == ledger_root_of(Seq::empty()),
        decodes(digest_bytes(genesis.block_hash)),
        fresh_block_transactions(empty_block_storage(genesis.previous_block_hash).transactions, genesis.transactions),
    ensures
        open_result(genesis, Map::empty(), empty_block_storage(genesis.previous_block_hash)) matches Ok(l) && {
            &&& consistent(l)
            &&& l.latest_block == genesis
            &&& l.latest_block_locators == seq![(0u32, genesis.block_hash)]
            &&& l.tree_hashes == seq![genesis.block_hash]
            &&& l.ledger_roots == map![genesis.header.previous_ledger_root => 0u32]
            &&& l.blocks.block_heights == map![0u32 => genesis.block_hash]
        },
{
    let roots = Map::<Digest, u32>::empty();
    let b0 = empty_block_storage(genesis.previous_block_hash);
    assert(roots.dom() =~= Set::<Digest>::empty());
    assert(max_root_height(roots) == 0);
    lemma_added_block_reads_back(b0, genesis);
    let b1 = added_block(b0, genesis).0;
    let roots1 = roots.insert(genesis.header.previous_ledger_root, 0u32);
    assert(opening_blocks(genesis, roots, b0) == added_block(b0, genesis));
    assert(opening_roots(genesis, roots, b0) == roots1);
    assert(b1.block_heights =~= map![0u32 => genesis.block_hash]);
    // The ledger tree takes the genesis hash.
    assert(heights_prefix(b1, 0) =~= Seq::<BlockHash>::empty());
    assert(first_tree_refusal(b1, 0) is None);
    assert(tree_takes(heights_prefix(b1, 0), b1.block_heights[0u32]));
    assert(first_tree_refusal(b1, 1) is None);
    // The validation of height 0 passes.
    assert(block_header_lookup(b1, 0) == Ok::<BlockHeader, LedgerError>(genesis.header));
    assert(open_error_at(roots1, b1, 0, 0) is None);
    assert(first_open_error(roots1, b1, 0, 0) is None);
    assert(first_open_error(roots1, b1, 0, 1) is None);
    assert(validation_error(roots1, b1, 0, None) is None);
    // The locators of height 0.
    lemma_block_locators_shape(0);
    let hs = locator_heights(0);
    assert(hs.len() == 1) by {
        if hs.len() > 1 {
            assert(hs[0] > hs[hs.len() - 1]);
        }
    }
    assert(hs.drop_first() =~= Seq::<int>::empty());
    assert(locators_for(b1, hs.drop_first()) == Ok::<Seq<(u32, BlockHash)>, LedgerError>(Seq::empty()));
    assert(locators_lookup(b1, 0) == Ok::<Seq<(u32, BlockHash)>, LedgerError>(seq![(0u32, genesis.block_hash)])) by {
        assert(seq![(0u32, genesis.block_hash)] + Seq::<(u32, BlockHash)>::empty() =~= seq![(0u32, genesis.block_hash)]);
    }
    let l = open_result(genesis, roots, b0)->Ok_0;
    assert(open_result(genesis, roots, b0) is Ok);
    assert(l.tree_hashes =~= seq![genesis.block_hash]);
    assert(l.ledger_roots =~= map![genesis.header.previous_ledger_root => 0u32]);
    assert(chain_stored(b1, 0));
    assert(consistent(l));
}

/// The transactions have distinct IDs.
pub open spec fn distinct_transaction_ids(txs: Seq<TransactionView>) -> bool {
    forall|i: int, j: int| 0 <= i < j < txs.len() ==> (#[trigger] txs[i]).transaction_id != (#[trigger] txs[j]).transaction_id
}

proof fn lemma_no_problem_all_new(v: LedgerView, txs: Seq<TransactionView>)
    requires
        first_transaction_problem(v, txs) is None,
    ensures
        forall|i: int| 0 <= i < txs.len() ==> !v.blocks.transactions.transactions.contains_key((#[trigger] txs[i]).transaction_id),
    decreases txs.len(),
{
    if txs.len() > 0 {
        lemma_no_problem_all_new(v, txs.drop_first());
        assert forall|i: int| 0 <= i < txs.len() implies !v.blocks.transactions.transactions.contains_key((#[trigger] txs[i]).transaction_id) by {
            if i > 0 {
                assert(txs.drop_first()[i - 1] == txs[i]);
            }
        }
    }
}

proof fn lemma_stored_transactions_ids(t: TransactionStateView, b: BlockView, m: int)
    requires
        0 <= m <= b.transactions.len(),
        distinct_transaction_ids(b.transactions),
        forall|i: int| 0 <= i < b.transactions.len() ==> !t.transactions.contains_key((#[trigger] b.transactions[i]).transaction_id),
    ensures
        stored_transactions(t, b, m as nat).1 is None,
        forall|k: TransactionId| #[trigger] stored_transactions(t, b, m as nat).0.transactions.contains_key(k)
            ==> t.transactions.contains_key(k) || tx_id_in(b.transactions, 0, m, k),
    decreases m,
{
    if m > 0 {
        lemma_stored_transactions_ids(t, b, m - 1);
        let txs = b.transactions;
        let t1 = stored_transactions(t, b, (m - 1) as nat).0;
        let id = txs[m - 1].transaction_id;
        if t1.transactions.contains_key(id) {
            assert(!t.transactions.contains_key(id));
            let i = choose|i: int| 0 <= i < m - 1 && (#[trigger] txs[i]).transaction_id == id;
            assert(txs[i].transaction_id != txs[m - 1].transaction_id);
        }
        let t2 = stored_transactions(t, b, m as nat).0;
        assert forall|k: TransactionId| #[trigger] t2.transactions.contains_key(k)
            implies t.transactions.contains_key(k) || tx_id_in(txs, 0, m, k) by {
            if k == id {
                assert(txs[m - 1].transaction_id == k);
            } else if !t.transactions.contains_key(k) {
                assert(t1.transactions.contains_key(k));
                let i = choose|i: int| 0 <= i < m - 1 && (#[trigger] txs[i]).transaction_id == k;
                assert(txs[i].transaction_id == k);
            }
        }
    }
}

proof fn lemma_locators_for_ok(s: BlockStateView, heights: Seq<int>)
    requires
        forall|i: int| 0 <= i < heights.len() ==> s.block_heights.contains_key((#[trigger] heights[i]) as u32),
    ensures
        locators_for(s, heights) is Ok,
    decreases heights.len(),
{
    if heights.len() > 0 {
        assert(s.block_heights.contains_key(heights[0] as u32));
        assert forall|i: int| 0 <= i < heights.drop_first().len() implies
            s.block_heights.contains_key((#[trigger] heights.drop_first()[i]) as u32) by {
            assert(heights.drop_first()[i] == heights[i + 1]);
        }
        lemma_locators_for_ok(s, heights.drop_first());
    }
}

/// A block that passes every check is accepted as the next block of a
/// consistent ledger, where its transactions have distinct IDs and its hash
/// is a canonical block hash of the network.
pub proof fn lemma_valid_next_block_is_accepted(
    v: LedgerView,
    v2: LedgerView,
    b: BlockView,
    block_is_valid: bool,
    expected_difficulty_target: u64,
    now: i64,
    r: Result<(), LedgerError>,
)
    requires
        consistent(v),
        next_block_error(v, b, block_is_valid, expected_difficulty_target, now) is None,
        next_block_outcome(v, v2, b, block_is_valid, expected_difficulty_target, now, r),
        distinct_transaction_ids(b.transactions),
        decodes(digest_bytes(b.block_hash)),
    ensures
        r == Ok::<(), LedgerError>(()),
{
    let l = v.latest_block.header.height;
    let h = b.header.height;
    assert(h == l + 1);
    // The ledger tree takes the hash.
    if v.tree_hashes.contains(b.block_hash) {
        let i = choose|i: int| 0 <= i < v.tree_hashes.len() && v.tree_hashes[i] == b.block_hash;
        assert(v.blocks.block_headers.contains_key(v.blocks.block_heights[i as u32]));
    }
    assert(tree_takes(v.tree_hashes, b.block_hash));

    // Storage takes the block.
    assert(first_present(v.blocks.transactions.serial_numbers, block_keys(b, 0)) is None);
    assert(first_present(v.blocks.transactions.commitments, block_keys(b, 1)) is None);
    lemma_no_problem_all_new(v, b.transactions);
    lemma_stored_transactions_ids(v.blocks.transactions, b, b.transactions.len() as int);
    let b1 = added_block(v.blocks, b).0;
    assert(added_block(v.blocks, b).1 is Ok);
    // The locators of the new height read back.
    lemma_block_locators_shape(h as nat);
    let hs = locator_heights(h as nat);
    assert forall|i: int| 0 <= i < hs.len() implies b1.block_heights.contains_key((#[trigger] hs[i]) as u32) by {
        assert(0 <= hs[i] <= h);
        if hs[i] < h {
            assert(v.blocks.block_heights.contains_key(hs[i] as u32));
        }
    }
    lemma_locators_for_ok(b1, hs);
}


/// Removing blocks from a consistent ledger succeeds where every round of
/// removal from storage succeeds: the ledger tree is then rebuilt from the
/// remaining chain, whose hashes are canonical and distinct.
pub proof fn lemma_remove_last_blocks_succeeds(v: LedgerView, v2: LedgerView, num_blocks: u32, r: Result<Seq<BlockView>, LedgerError>)
    requires
        consistent(v),
        1 <= num_blocks <= 4096,
        removed_last_blocks(v, num_blocks as nat).2 is Ok,
        removal_outcome(v, v2, num_blocks, r),
    ensures
        r is Ok,
{
    lemma_removed_last_blocks_consistency(v, num_blocks as nat);
    let (v1, out, r1) = removed_last_blocks(v, num_blocks as nat);
    let l1 = v1.latest_block.header.height;
    lemma_chain_hashes_of_stored(v1.blocks, l1);
    let hashes = heights_prefix(v1.blocks, (l1 + 1) as nat);
    assert forall|i: int| 0 <= i < hashes.len() implies decodes(digest_bytes(#[trigger] hashes[i])) by {
        assert(hashes[i] == v.blocks.block_heights[i as u32]);
        assert(v.tree_hashes[i] == v.blocks.block_heights[i as u32]);
    }
    assert forall|i: int, j: int| 0 <= i < j < hashes.len() implies #[trigger] hashes[i] != #[trigger] hashes[j] by {
        assert(v1.blocks.block_heights[i as u32] != v1.blocks.block_heights[j as u32]);
    }
    assert(tree_takes_all(hashes));
}


/// The block locators of a ledger at height at most 63 name every height,
/// from the latest down to the genesis block.
pub proof fn lemma_small_ledger_locators_every_height(h: nat)
    requires
        h <= 63,
    ensures
        locator_heights(h) == Seq::new(h + 1, |i: int| h - i),
{
    let s = locator_heights(h);
    if h <= 10 {
        assert(s =~= Seq::new(h + 1, |i: int| h - i));
    } else {
        let n = h - 10;
        let lh = h - 10;
        assert(lh / n == 1) by (nonlinear_arith) requires lh == n, n > 0;
        assert(floor_log2(1) == 0);
        assert(pow2(1) == 2) by { reveal_with_fuel(pow2, 2); }
        assert(quadratic_end(lh, 0) == lh);
        assert(quadratic_heights(lh, 0) =~= Seq::<int>::empty());
        assert(lh * 1 == lh);
        assert(spread_step(lh, n) == 1);
        assert(num_positive(lh, n as nat, 1) == lh);
        let body = Seq::new(lh as nat, |k: int| lh - k * 1);
        assert(proportional_heights(lh, n as nat, 1) == body.push(0));
        assert forall|k: int| 0 <= k < lh implies body[k] == lh - k by {
            assert(k * 1 == k);
        }
        assert(s =~= Seq::new(h + 1, |i: int| h - i));
    }
}


/// Adding the next block keeps what the ledger held: every stored height,
/// block hash, transaction, serial number, commitment, ciphertext ID and
/// ledger root stays stored, and a block that read back from height `k`
/// before reads back the same; where the block's transactions are new to
/// the ledger in every respect.
pub proof fn lemma_add_next_block_keeps_stored(
    v: LedgerView,
    v2: LedgerView,
    b: BlockView,
    block_is_valid: bool,
    expected_difficulty_target: u64,
    now: i64,
    k: u32,
)
    requires
        next_block_outcome(v, v2, b, block_is_valid, expected_difficulty_target, now, Ok(())),
        fresh_block_transactions(v.blocks.transactions, b.transactions),
    ensures
        forall|i: u32| v.blocks.block_heights.contains_key(i) ==> #[trigger] v2.blocks.block_heights.contains_key(i),
        forall|h: BlockHash| v.blocks.block_headers.contains_key(h) ==> #[trigger] v2.blocks.block_headers.contains_key(h),
        forall|id: TransactionId| v.blocks.transactions.transactions.contains_key(id)
            ==> #[trigger] v2.blocks.transactions.transactions.contains_key(id),
        forall|d: Digest| v.blocks.transactions.serial_numbers.contains_key(d)
            ==> #[trigger] v2.blocks.transactions.serial_numbers.contains_key(d),
        forall|d: Digest| v.blocks.transactions.commitments.contains_key(d)
            ==> #[trigger] v2.blocks.transactions.commitments.contains_key(d),
        forall|d: Digest| v.blocks.transactions.ciphertext_ids.contains_key(d)
            ==> #[trigger] v2.blocks.transactions.ciphertext_ids.contains_key(d),
        forall|d: Digest| v.ledger_roots.contains_key(d) ==> #[trigger] v2.ledger_roots.contains_key(d),
        block_lookup(v.blocks, k) is Ok ==> block_lookup(v2.blocks, k) == block_lookup(v.blocks, k),
{
    assert(next_block_error(v, b, block_is_valid, expected_difficulty_target, now) is None);
    let took = tree_takes(v.tree_hashes, b.block_hash);
    assert((v2, Ok::<(), LedgerError>(())) == applied_next_block(v, b, took));
    assert(v2.blocks == added_block(v.blocks, b).0);
    let t = v.blocks.transactions;
    lemma_stored_transactions_hold(t, b, b.transactions.len() as int);
    let tt = v2.blocks.transactions;
    assert forall|id: TransactionId| v.blocks.transactions.transactions.contains_key(id)
        implies #[trigger] v2.blocks.transactions.transactions.contains_key(id) by {
        assert(t.transactions.contains_key(id));
    }
    assert forall|d: Digest| v.blocks.transactions.serial_numbers.contains_key(d)
        implies #[trigger] v2.blocks.transactions.serial_numbers.contains_key(d) by {
        assert(t.serial_numbers.contains_key(d));
    }
    assert forall|d: Digest| v.blocks.transactions.commitments.contains_key(d)
        implies #[trigger] v2.blocks.transactions.commitments.contains_key(d) by {
        assert(t.commitments.contains_key(d));
    }
    assert forall|d: Digest| v.blocks.transactions.ciphertext_ids.contains_key(d)
        implies #[trigger] v2.blocks.transactions.ciphertext_ids.contains_key(d) by {
        assert(t.ciphertext_ids.contains_key(d));
    }
    if block_lookup(v.blocks, k) is Ok {
        lemma_added_block_keeps_blocks(v.blocks, b, k);
    }
}

} // verus!
