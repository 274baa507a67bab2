use vstd::prelude::*;
use crate::digest::{BlockHash, Digest, TransactionId, TransitionId};
use crate::error::LedgerError;
use crate::transaction_state::{
    dropped_transition, dropped_transitions, first_missing, index_transitions, insert_all, keys_of, remove_all,
    removed_transaction, store_transitions, stored_events, stored_transaction, transaction_lookup, transition_ids_of,
    TransactionStateView,
};
use crate::block_state::{
    added_block, block_lookup, block_transactions_lookup, first_transaction_error, metadata_at, previous_block_hash_lookup,
    removed_block, removed_transactions, stored_transactions, BlockStateView,
};
use crate::types::{BlockView, Metadata, TransactionView, TransitionView};

verus! {

/// Whether one of the transitions has the ID `k`.
pub open spec fn has_transition_id(ts: Seq<TransitionView>, k: TransitionId) -> bool {
    exists|i: int| 0 <= i < ts.len() && (#[trigger] ts[i]).transition_id == k
}

/// Whether `k` is among the keys of the given kind of one of the transitions.
pub open spec fn in_keys(ts: Seq<TransitionView>, kind: int, k: Digest) -> bool {
    exists|i: int| 0 <= i < ts.len() && #[trigger] keys_of(ts[i], kind).contains(k)
}

/// The transitions have distinct IDs.
pub open spec fn distinct_transition_ids(ts: Seq<TransitionView>) -> bool {
    forall|i: int, j: int| 0 <= i < j < ts.len() ==> (#[trigger] ts[i]).transition_id != (#[trigger] ts[j]).transition_id
}

proof fn lemma_contains_split(s: Seq<Digest>, k: Digest)
    requires
        s.len() > 0,
    ensures
        s.contains(k) <==> (s.drop_last().contains(k) || s.last() == k),
{
    if s.contains(k) {
        let j = choose|j: int| 0 <= j < s.len() && s[j] == k;
        if j < s.len() - 1 {
            assert(s.drop_last()[j] == k);
        }
    }
    if s.drop_last().contains(k) {
        let j = choose|j: int| 0 <= j < s.drop_last().len() && s.drop_last()[j] == k;
        assert(s[j] == k);
    }
}

proof fn lemma_insert_all(m: Map<Digest, Digest>, keys: Seq<Digest>, v: Digest)
    ensures
        forall|k: Digest| #[trigger] insert_all(m, keys, v).contains_key(k) <==> (m.contains_key(k) || keys.contains(k)),
        forall|k: Digest| !keys.contains(k) ==> #[trigger] insert_all(m, keys, v)[k] == m[k],
    decreases keys.len(),
{
    if keys.len() > 0 {
        let inner = insert_all(m, keys.drop_last(), v);
        lemma_insert_all(m, keys.drop_last(), v);
        assert(insert_all(m, keys, v) == inner.insert(keys.last(), v));
        assert forall|k: Digest| #[trigger] insert_all(m, keys, v).contains_key(k) <==> (m.contains_key(k) || keys.contains(k)) by {
            lemma_contains_split(keys, k);
        }
        assert forall|k: Digest| !keys.contains(k) implies #[trigger] insert_all(m, keys, v)[k] == m[k] by {
            lemma_contains_split(keys, k);
        }
    }
}

proof fn lemma_remove_all(m: Map<Digest, Digest>, keys: Seq<Digest>)
    ensures
        forall|k: Digest| #[trigger] remove_all(m, keys).contains_key(k) <==> (m.contains_key(k) && !keys.contains(k)),
        forall|k: Digest| !keys.contains(k) ==> #[trigger] remove_all(m, keys)[k] == m[k],
    decreases keys.len(),
{
    if keys.len() > 0 {
        let inner = remove_all(m, keys.drop_last());
        lemma_remove_all(m, keys.drop_last());
        assert(remove_all(m, keys) == inner.remove(keys.last()));
        assert forall|k: Digest| #[trigger] remove_all(m, keys).contains_key(k) <==> (m.contains_key(k) && !keys.contains(k)) by {
            lemma_contains_split(keys, k);
        }
        assert forall|k: Digest| !keys.contains(k) implies #[trigger] remove_all(m, keys)[k] == m[k] by {
            lemma_contains_split(keys, k);
        }
    }
}

proof fn lemma_in_keys_split(ts: Seq<TransitionView>, kind: int, k: Digest)
    requires
        ts.len() > 0,
    ensures
        in_keys(ts, kind, k) <==> (in_keys(ts.drop_last(), kind, k) || keys_of(ts.last(), kind).contains(k)),
{
    if in_keys(ts, kind, k) {
        let i = choose|i: int| 0 <= i < ts.len() && #[trigger] keys_of(ts[i], kind).contains(k);
        if i < ts.len() - 1 {
            assert(ts.drop_last()[i] == ts[i]);
        }
    }
    if in_keys(ts.drop_last(), kind, k) {
        let i = choose|i: int| 0 <= i < ts.drop_last().len() && #[trigger] keys_of(ts.drop_last()[i], kind).contains(k);
        assert(ts.drop_last()[i] == ts[i]);
    }
    if keys_of(ts.last(), kind).contains(k) {
        assert(keys_of(ts[ts.len() - 1], kind).contains(k));
    }
}

proof fn lemma_has_transition_id_split(ts: Seq<TransitionView>, k: TransitionId)
    requires
        ts.len() > 0,
    ensures
        has_transition_id(ts, k) <==> (has_transition_id(ts.drop_last(), k) || ts.last().transition_id == k),
{
    if has_transition_id(ts, k) {
        let i = choose|i: int| 0 <= i < ts.len() && (#[trigger] ts[i]).transition_id == k;
        if i < ts.len() - 1 {
            assert(ts.drop_last()[i] == ts[i]);
        }
    }
    if has_transition_id(ts.drop_last(), k) {
        let i = choose|i: int| 0 <= i < ts.drop_last().len() && (#[trigger] ts.drop_last()[i]).transition_id == k;
        assert(ts.drop_last()[i] == ts[i]);
    }
    if ts.last().transition_id == k {
        assert(ts[ts.len() - 1].transition_id == k);
    }
}

proof fn lemma_index_transitions(m: Map<Digest, Digest>, ts: Seq<TransitionView>, kind: int)
    ensures
        forall|k: Digest| #[trigger] index_transitions(m, ts, kind).contains_key(k) <==> (m.contains_key(k) || in_keys(ts, kind, k)),
        forall|k: Digest| !in_keys(ts, kind, k) ==> #[trigger] index_transitions(m, ts, kind)[k] == m[k],
    decreases ts.len(),
{
    if ts.len() > 0 {
        lemma_index_transitions(m, ts.drop_last(), kind);
        lemma_insert_all(index_transitions(m, ts.drop_last(), kind), keys_of(ts.last(), kind), ts.last().transition_id);
        assert forall|k: Digest| in_keys(ts, kind, k) <==> (in_keys(ts.drop_last(), kind, k) || keys_of(ts.last(), kind).contains(k)) by {
            lemma_in_keys_split(ts, kind, k);
        }
    }
}

proof fn lemma_store_transitions(
    m: Map<TransitionId, (TransactionId, u8, TransitionView)>,
    id: TransactionId,
    ts: Seq<TransitionView>,
)
    requires
        distinct_transition_ids(ts),
    ensures
        forall|k: TransitionId| #[trigger] store_transitions(m, id, ts).contains_key(k) <==> (m.contains_key(k) || has_transition_id(ts, k)),
        forall|k: TransitionId| !has_transition_id(ts, k) ==> #[trigger] store_transitions(m, id, ts)[k] == m[k],
        forall|i: int| 0 <= i < ts.len() ==> store_transitions(m, id, ts)[(#[trigger] ts[i]).transition_id] == (id, i as u8, ts[i]),
    decreases ts.len(),
{
    if ts.len() > 0 {
        let n = ts.len() - 1;
        lemma_distinct_drop_last(ts);
        lemma_store_transitions(m, id, ts.drop_last());
        assert(store_transitions(m, id, ts) == store_transitions(m, id, ts.drop_last()).insert(
            ts[n].transition_id,
            (id, n as u8, ts[n]),
        ));
        assert forall|k: TransitionId| has_transition_id(ts, k) <==> (has_transition_id(ts.drop_last(), k) || ts.last().transition_id == k) by {
            lemma_has_transition_id_split(ts, k);
        }
        assert forall|i: int| 0 <= i < ts.len() implies store_transitions(m, id, ts)[(#[trigger] ts[i]).transition_id] == (id, i as u8, ts[i]) by {
            if i < n {
                assert(ts.drop_last()[i] == ts[i]);
                assert(ts[i].transition_id != ts[n].transition_id);
            }
        }
    }
}


proof fn lemma_distinct_drop_last(ts: Seq<TransitionView>)
    requires
        distinct_transition_ids(ts),
        ts.len() > 0,
    ensures
        distinct_transition_ids(ts.drop_last()),
{
    assert forall|i: int, j: int| 0 <= i < j < ts.drop_last().len() implies
        (#[trigger] ts.drop_last()[i]).transition_id != (#[trigger] ts.drop_last()[j]).transition_id by {
        assert(ts.drop_last()[i] == ts[i] && ts.drop_last()[j] == ts[j]);
    }
}

/// Dropping the transitions `ts`, stored with distinct IDs, removes their
/// entries and the index entries of their keys, and nothing else.
proof fn lemma_dropped_transitions(s: TransactionStateView, ts: Seq<TransitionView>)
    requires
        distinct_transition_ids(ts),
        forall|i: int| 0 <= i < ts.len() ==> s.transitions.contains_key((#[trigger] ts[i]).transition_id)
            && s.transitions[ts[i].transition_id].2 == ts[i],
    ensures
        ({
            let (s1, missing) = dropped_transitions(s, transition_ids_of(ts));
            &&& missing is None
            &&& s1.transactions == s.transactions
            &&& s1.events == s.events
            &&& forall|k: TransitionId| #[trigger] s1.transitions.contains_key(k) <==> (s.transitions.contains_key(k) && !has_transition_id(ts, k))
            &&& forall|k: TransitionId| !has_transition_id(ts, k) ==> #[trigger] s1.transitions[k] == s.transitions[k]
            &&& forall|k: Digest| #[trigger] s1.serial_numbers.contains_key(k) <==> (s.serial_numbers.contains_key(k) && !in_keys(ts, 0, k))
            &&& forall|k: Digest| !in_keys(ts, 0, k) ==> #[trigger] s1.serial_numbers[k] == s.serial_numbers[k]
            &&& forall|k: Digest| #[trigger] s1.commitments.contains_key(k) <==> (s.commitments.contains_key(k) && !in_keys(ts, 1, k))
            &&& forall|k: Digest| !in_keys(ts, 1, k) ==> #[trigger] s1.commitments[k] == s.commitments[k]
            &&& forall|k: Digest| #[trigger] s1.ciphertext_ids.contains_key(k) <==> (s.ciphertext_ids.contains_key(k) && !in_keys(ts, 2, k))
            &&& forall|k: Digest| !in_keys(ts, 2, k) ==> #[trigger] s1.ciphertext_ids[k] == s.ciphertext_ids[k]
        }),
    decreases ts.len(),
{
    if ts.len() > 0 {
        let n = ts.len() - 1;
        let t = ts[n];
        lemma_distinct_drop_last(ts);
        assert forall|i: int| 0 <= i < ts.drop_last().len() implies s.transitions.contains_key((#[trigger] ts.drop_last()[i]).transition_id)
            && s.transitions[ts.drop_last()[i].transition_id].2 == ts.drop_last()[i] by {
            assert(ts.drop_last()[i] == ts[i]);
        }
        lemma_dropped_transitions(s, ts.drop_last());
        let tids = transition_ids_of(ts);
        assert(tids.drop_last() =~= transition_ids_of(ts.drop_last()));
        let (s1, missing) = dropped_transitions(s, tids.drop_last());
        assert(!has_transition_id(ts.drop_last(), t.transition_id)) by {
            if has_transition_id(ts.drop_last(), t.transition_id) {
                let i = choose|i: int| 0 <= i < ts.drop_last().len() && (#[trigger] ts.drop_last()[i]).transition_id == t.transition_id;
                assert(ts.drop_last()[i] == ts[i]);
            }
        }
        assert(tids.last() == t.transition_id);
        assert(s1.transitions.contains_key(t.transition_id));
        assert(s1.transitions[t.transition_id].2 == t);
        let s2 = dropped_transition(s1, t.transition_id);
        assert(dropped_transitions(s, tids) == (s2, None::<TransitionId>));
        lemma_remove_all(s1.serial_numbers, keys_of(t, 0));
        lemma_remove_all(s1.commitments, keys_of(t, 1));
        lemma_remove_all(s1.ciphertext_ids, keys_of(t, 2));
        assert forall|k: TransitionId| has_transition_id(ts, k) <==> (has_transition_id(ts.drop_last(), k) || ts.last().transition_id == k) by {
            lemma_has_transition_id_split(ts, k);
        }
        assert forall|k: Digest| #![trigger in_keys(ts, 0, k)] in_keys(ts, 0, k) <==> (in_keys(ts.drop_last(), 0, k) || keys_of(t, 0).contains(k)) by {
            lemma_in_keys_split(ts, 0, k);
        }
        assert forall|k: Digest| #![trigger in_keys(ts, 1, k)] in_keys(ts, 1, k) <==> (in_keys(ts.drop_last(), 1, k) || keys_of(t, 1).contains(k)) by {
            lemma_in_keys_split(ts, 1, k);
        }
        assert forall|k: Digest| #![trigger in_keys(ts, 2, k)] in_keys(ts, 2, k) <==> (in_keys(ts.drop_last(), 2, k) || keys_of(t, 2).contains(k)) by {
            lemma_in_keys_split(ts, 2, k);
        }
    }
}

proof fn lemma_first_missing_none(m: Map<TransitionId, (TransactionId, u8, TransitionView)>, tids: Seq<TransitionId>)
    requires
        forall|i: int| 0 <= i < tids.len() ==> m.contains_key(#[trigger] tids[i]),
    ensures
        first_missing(m, tids) is None,
    decreases tids.len(),
{
    if tids.len() > 0 {
        assert(m.contains_key(tids[0]));
        assert forall|i: int| 0 <= i < tids.drop_first().len() implies m.contains_key(#[trigger] tids.drop_first()[i]) by {
            assert(tids.drop_first()[i] == tids[i + 1]);
        }
        lemma_first_missing_none(m, tids.drop_first());
    }
}

/// A stored transaction reads back as it was written, and with the metadata
/// it was stored with; its transitions need distinct IDs, since each is
/// stored under its ID.
pub proof fn lemma_stored_transaction_reads_back(s: TransactionStateView, tx: TransactionView, metadata: Metadata)
    requires
        distinct_transition_ids(tx.transitions),
    ensures
        transaction_lookup(stored_transaction(s, tx, metadata), tx.transaction_id)
            == Ok::<TransactionView, LedgerError>(tx),
        stored_transaction(s, tx, metadata).transactions[tx.transaction_id].2 == metadata,
{
    let s1 = stored_transaction(s, tx, metadata);
    let ts = tx.transitions;
    let tids = transition_ids_of(ts);
    lemma_store_transitions(s.transitions, tx.transaction_id, ts);
    assert(s1.transactions[tx.transaction_id].1 == tids);
    assert forall|i: int| 0 <= i < tids.len() implies s1.transitions.contains_key(#[trigger] tids[i]) by {
        assert(tids[i] == ts[i].transition_id);
        assert(has_transition_id(ts, ts[i].transition_id));
    }
    lemma_first_missing_none(s1.transitions, tids);
    assert(tids.map_values(|tid: TransitionId| s1.transitions[tid].2) =~= ts) by {
        assert forall|i: int| 0 <= i < ts.len() implies tids.map_values(|tid: TransitionId| s1.transitions[tid].2)[i] == ts[i] by {
            assert(tids[i] == ts[i].transition_id);
        }
    }
}


/// Whether transaction `tx` is new to `s` in every respect: its ID, the IDs
/// of its transitions (which are distinct) and their serial numbers,
/// commitments and ciphertext IDs.
pub open spec fn fresh_transaction(s: TransactionStateView, tx: TransactionView) -> bool {
    &&& !s.transactions.contains_key(tx.transaction_id)
    &&& !s.events.contains_key(tx.transaction_id)
    &&& distinct_transition_ids(tx.transitions)
    &&& forall|k: TransitionId| #[trigger] has_transition_id(tx.transitions, k) ==> !s.transitions.contains_key(k)
    &&& forall|k: Digest| #[trigger] in_keys(tx.transitions, 0, k) ==> !s.serial_numbers.contains_key(k)
    &&& forall|k: Digest| #[trigger] in_keys(tx.transitions, 1, k) ==> !s.commitments.contains_key(k)
    &&& forall|k: Digest| #[trigger] in_keys(tx.transitions, 2, k) ==> !s.ciphertext_ids.contains_key(k)
}

/// Removing a transaction undoes storing it, where it was new in every
/// respect.
pub proof fn lemma_remove_transaction_undoes_store(s: TransactionStateView, tx: TransactionView, metadata: Metadata)
    requires
        fresh_transaction(s, tx),
    ensures
        removed_transaction(stored_transaction(s, tx, metadata), tx.transaction_id) == (s, Ok::<(), LedgerError>(())),
{
    let id = tx.transaction_id;
    let ts = tx.transitions;
    let big = stored_transaction(s, tx, metadata);
    lemma_store_transitions(s.transitions, id, ts);
    lemma_index_transitions(s.serial_numbers, ts, 0);
    lemma_index_transitions(s.commitments, ts, 1);
    lemma_index_transitions(s.ciphertext_ids, ts, 2);
    let s0 = TransactionStateView { transactions: big.transactions.remove(id), ..big };
    assert forall|i: int| 0 <= i < ts.len() implies s0.transitions.contains_key((#[trigger] ts[i]).transition_id)
        && s0.transitions[ts[i].transition_id].2 == ts[i] by {
        assert(has_transition_id(ts, ts[i].transition_id));
    }
    lemma_dropped_transitions(s0, ts);
    assert(big.transactions[id].1 == transition_ids_of(ts));
    let (s1, missing) = dropped_transitions(s0, transition_ids_of(ts));
    let fin = TransactionStateView { events: s1.events.remove(id), ..s1 };
    assert(removed_transaction(big, id) == (fin, Ok::<(), LedgerError>(())));
    assert(fin.transactions =~= s.transactions);
    assert(fin.events =~= s.events);
    assert(fin.transitions =~= s.transitions);
    assert(fin.serial_numbers =~= s.serial_numbers);
    assert(fin.commitments =~= s.commitments);
    assert(fin.ciphertext_ids =~= s.ciphertext_ids);
    assert(fin =~= s);
}


/// Whether one of the transactions `lo` to `hi` (excluded) has the ID `k`.
pub open spec fn tx_id_in(txs: Seq<TransactionView>, lo: int, hi: int, k: TransactionId) -> bool {
    exists|i: int| lo <= i < hi && (#[trigger] txs[i]).transaction_id == k
}

/// Whether one of the transactions `lo` to `hi` (excluded) has a transition
/// with the ID `k`.
pub open spec fn tid_in(txs: Seq<TransactionView>, lo: int, hi: int, k: TransitionId) -> bool {
    exists|i: int| lo <= i < hi && has_transition_id((#[trigger] txs[i]).transitions, k)
}

/// Whether `k` is a key of the given kind of one of the transactions `lo` to
/// `hi` (excluded).
pub open spec fn key_in(txs: Seq<TransactionView>, lo: int, hi: int, kind: int, k: Digest) -> bool {
    exists|i: int| lo <= i < hi && in_keys((#[trigger] txs[i]).transitions, kind, k)
}

/// The transactions of a block are new to `t` in every respect, and share
/// no transaction ID and no transition ID among themselves.
pub open spec fn fresh_block_transactions(t: TransactionStateView, txs: Seq<TransactionView>) -> bool {
    &&& forall|i: int| 0 <= i < txs.len() ==> fresh_transaction(t, #[trigger] txs[i])
    &&& forall|i: int, j: int| 0 <= i < j < txs.len() ==> (#[trigger] txs[i]).transaction_id != (#[trigger] txs[j]).transaction_id
    &&& forall|i: int, j: int, k: TransitionId| 0 <= i < j < txs.len() && #[trigger] has_transition_id(txs[i].transitions, k)
        ==> !#[trigger] has_transition_id(txs[j].transitions, k)
}

/// An index map `r` holds all that `t` holds, and beyond it only keys of the
/// transactions `lo` to `hi` (excluded).
pub open spec fn key_map_inv(t: Map<Digest, Digest>, r: Map<Digest, Digest>, txs: Seq<TransactionView>, lo: int, hi: int, kind: int) -> bool {
    &&& forall|k: Digest| #![trigger t.contains_key(k)] #![trigger r.contains_key(k)]
        t.contains_key(k) ==> r.contains_key(k) && r[k] == t[k]
    &&& forall|k: Digest| #[trigger] r.contains_key(k) ==> t.contains_key(k) || key_in(txs, lo, hi, kind, k)
}

/// The transactions map `r` holds all that `t` holds, and beyond it exactly
/// the entries of the transactions `lo` to `hi` (excluded) of block `b`.
pub open spec fn transactions_inv(
    t: Map<TransactionId, (Digest, Seq<TransitionId>, Metadata)>,
    r: Map<TransactionId, (Digest, Seq<TransitionId>, Metadata)>,
    b: BlockView,
    lo: int,
    hi: int,
) -> bool {
    &&& forall|k: TransactionId| #![trigger t.contains_key(k)] #![trigger r.contains_key(k)]
        t.contains_key(k) ==> r.contains_key(k) && r[k] == t[k]
    &&& forall|k: TransactionId| #[trigger] r.contains_key(k) ==> t.contains_key(k) || tx_id_in(b.transactions, lo, hi, k)
    &&& forall|i: int| lo <= i < hi ==> r.contains_key((#[trigger] b.transactions[i]).transaction_id)
        && r[b.transactions[i].transaction_id] == (
            b.transactions[i].ledger_root,
            transition_ids_of(b.transactions[i].transitions),
            metadata_at(b, i),
        )
}

/// The transitions map `r` holds all that `t` holds, and beyond it exactly
/// the transitions of the transactions `lo` to `hi` (excluded).
pub open spec fn transitions_inv(
    t: Map<TransitionId, (TransactionId, u8, TransitionView)>,
    r: Map<TransitionId, (TransactionId, u8, TransitionView)>,
    txs: Seq<TransactionView>,
    lo: int,
    hi: int,
) -> bool {
    &&& forall|k: TransitionId| #![trigger t.contains_key(k)] #![trigger r.contains_key(k)]
        t.contains_key(k) ==> r.contains_key(k) && r[k] == t[k]
    &&& forall|k: TransitionId| #[trigger] r.contains_key(k) ==> t.contains_key(k) || tid_in(txs, lo, hi, k)
    &&& forall|i: int, j: int| lo <= i < hi && 0 <= j < txs[i].transitions.len()
        ==> r.contains_key((#[trigger] txs[i].transitions[j]).transition_id)
        && r[txs[i].transitions[j].transition_id] == (txs[i].transaction_id, j as u8, txs[i].transitions[j])
}

/// The events map `r` holds all that `t` holds, and beyond it exactly the
/// events of the transactions `lo` to `hi` (excluded).
pub open spec fn events_inv(
    t: Map<TransactionId, Seq<Seq<u8>>>,
    r: Map<TransactionId, Seq<Seq<u8>>>,
    txs: Seq<TransactionView>,
    lo: int,
    hi: int,
) -> bool {
    &&& forall|k: TransactionId| #![trigger t.contains_key(k)] #![trigger r.contains_key(k)]
        t.contains_key(k) ==> r.contains_key(k) && r[k] == t[k]
    &&& forall|k: TransactionId| #[trigger] r.contains_key(k) ==> t.contains_key(k) || tx_id_in(txs, lo, hi, k)
    &&& forall|i: int| lo <= i < hi ==> r.contains_key((#[trigger] txs[i]).transaction_id)
        && r[txs[i].transaction_id] == txs[i].events
}

/// `r` is `t` with the transactions `lo` to `hi` (excluded) of block `b`
/// stored in it.
pub open spec fn holds_block_range(t: TransactionStateView, r: TransactionStateView, b: BlockView, lo: int, hi: int) -> bool {
    &&& transactions_inv(t.transactions, r.transactions, b, lo, hi)
    &&& transitions_inv(t.transitions, r.transitions, b.transactions, lo, hi)
    &&& key_map_inv(t.serial_numbers, r.serial_numbers, b.transactions, lo, hi, 0)
    &&& key_map_inv(t.commitments, r.commitments, b.transactions, lo, hi, 1)
    &&& key_map_inv(t.ciphertext_ids, r.ciphertext_ids, b.transactions, lo, hi, 2)
    &&& events_inv(t.events, r.events, b.transactions, lo, hi)
}


proof fn lemma_store_step(t: TransactionStateView, tm: TransactionStateView, b: BlockView, m: int)
    requires
        0 <= m < b.transactions.len(),
        fresh_block_transactions(t, b.transactions),
        holds_block_range(t, tm, b, 0, m),
    ensures
        !tm.transactions.contains_key(b.transactions[m].transaction_id),
        holds_block_range(t, stored_transaction(tm, b.transactions[m], metadata_at(b, m)), b, 0, m + 1),
{
    let txs = b.transactions;
    let tx = txs[m];
    let id = tx.transaction_id;
    let ts = tx.transitions;
    let r = stored_transaction(tm, tx, metadata_at(b, m));
    assert(fresh_transaction(t, tx));
    // The transaction is not stored yet.
    if tm.transactions.contains_key(id) {
        assert(tx_id_in(txs, 0, m, id));
        let i = choose|i: int| 0 <= i < m && (#[trigger] txs[i]).transaction_id == id;
        assert(txs[i].transaction_id != txs[m].transaction_id);
    }
    // The transactions map.
    assert forall|k: TransactionId| #[trigger] r.transactions.contains_key(k) implies t.transactions.contains_key(k)
        || tx_id_in(txs, 0, m + 1, k) by {
        if k == id {
            assert(txs[m].transaction_id == k);
        } else if !t.transactions.contains_key(k) {
            assert(tx_id_in(txs, 0, m, k));
            let i = choose|i: int| 0 <= i < m && (#[trigger] txs[i]).transaction_id == k;
            assert(txs[i].transaction_id == k);
        }
    }
    assert forall|i: int| 0 <= i < m + 1 implies r.transactions.contains_key((#[trigger] txs[i]).transaction_id)
        && r.transactions[txs[i].transaction_id] == (txs[i].ledger_root, transition_ids_of(txs[i].transitions), metadata_at(b, i)) by {
        if i < m {
            assert(txs[i].transaction_id != txs[m].transaction_id);
        }
    }
    assert(transactions_inv(t.transactions, r.transactions, b, 0, m + 1));
    // The transitions map.
    lemma_store_transitions(tm.transitions, id, ts);
    assert forall|k: TransitionId| #[trigger] r.transitions.contains_key(k) implies t.transitions.contains_key(k)
        || tid_in(txs, 0, m + 1, k) by {
        if has_transition_id(ts, k) {
            assert(has_transition_id(txs[m].transitions, k));
        } else if !t.transitions.contains_key(k) {
            assert(tid_in(txs, 0, m, k));
            let i = choose|i: int| 0 <= i < m && has_transition_id((#[trigger] txs[i]).transitions, k);
            assert(has_transition_id(txs[i].transitions, k));
        }
    }
    assert forall|i: int, j: int| 0 <= i < m + 1 && 0 <= j < txs[i].transitions.len() implies
        r.transitions.contains_key((#[trigger] txs[i].transitions[j]).transition_id)
        && r.transitions[txs[i].transitions[j].transition_id] == (txs[i].transaction_id, j as u8, txs[i].transitions[j]) by {
        let kk = txs[i].transitions[j].transition_id;
        if i < m {
            assert(has_transition_id(txs[i].transitions, kk));
            assert(!has_transition_id(txs[m].transitions, kk));
        } else {
            assert(ts[j] == txs[i].transitions[j]);
        }
    }
    assert forall|k: TransitionId| #![trigger t.transitions.contains_key(k)] #![trigger r.transitions.contains_key(k)]
        t.transitions.contains_key(k) implies r.transitions.contains_key(k) && r.transitions[k] == t.transitions[k] by {
        assert(!has_transition_id(tx.transitions, k));
    }
    assert(transitions_inv(t.transitions, r.transitions, txs, 0, m + 1));
    // The index maps.
    lemma_store_step_keys(t.serial_numbers, tm.serial_numbers, txs, m, 0);
    lemma_store_step_keys(t.commitments, tm.commitments, txs, m, 1);
    lemma_store_step_keys(t.ciphertext_ids, tm.ciphertext_ids, txs, m, 2);
    // The events map.
    assert forall|k: TransactionId| #[trigger] r.events.contains_key(k) implies t.events.contains_key(k)
        || tx_id_in(txs, 0, m + 1, k) by {
        if k == id {
            assert(txs[m].transaction_id == k);
        } else if !t.events.contains_key(k) {
            assert(tx_id_in(txs, 0, m, k));
            let i = choose|i: int| 0 <= i < m && (#[trigger] txs[i]).transaction_id == k;
            assert(txs[i].transaction_id == k);
        }
    }
    assert forall|i: int| 0 <= i < m + 1 implies r.events.contains_key((#[trigger] txs[i]).transaction_id)
        && r.events[txs[i].transaction_id] == txs[i].events by {
        if i < m {
            assert(txs[i].transaction_id != txs[m].transaction_id);
        }
    }
    assert(events_inv(t.events, r.events, txs, 0, m + 1));
}

proof fn lemma_store_step_keys(t: Map<Digest, Digest>, tm: Map<Digest, Digest>, txs: Seq<TransactionView>, m: int, kind: int)
    requires
        0 <= m < txs.len(),
        forall|k: Digest| #[trigger] in_keys(txs[m].transitions, kind, k) ==> !t.contains_key(k),
        key_map_inv(t, tm, txs, 0, m, kind),
    ensures
        key_map_inv(t, index_transitions(tm, txs[m].transitions, kind), txs, 0, m + 1, kind),
{
    let r = index_transitions(tm, txs[m].transitions, kind);
    lemma_index_transitions(tm, txs[m].transitions, kind);
    assert forall|k: Digest| #[trigger] r.contains_key(k) implies t.contains_key(k) || key_in(txs, 0, m + 1, kind, k) by {
        if in_keys(txs[m].transitions, kind, k) {
            assert(in_keys(txs[m].transitions, kind, k));
        } else if !t.contains_key(k) {
            assert(key_in(txs, 0, m, kind, k));
            let i = choose|i: int| 0 <= i < m && in_keys((#[trigger] txs[i]).transitions, kind, k);
            assert(in_keys(txs[i].transitions, kind, k));
        }
    }
    assert forall|k: Digest| #![trigger t.contains_key(k)] #![trigger r.contains_key(k)]
        t.contains_key(k) implies r.contains_key(k) && r[k] == t[k] by {
        assert(!in_keys(txs[m].transitions, kind, k));
    }
}


proof fn lemma_remove_step_keys(t: Map<Digest, Digest>, r: Map<Digest, Digest>, r1: Map<Digest, Digest>, txs: Seq<TransactionView>, m: int, kind: int)
    requires
        0 <= m < txs.len(),
        forall|k: Digest| #[trigger] in_keys(txs[m].transitions, kind, k) ==> !t.contains_key(k),
        key_map_inv(t, r, txs, m, txs.len() as int, kind),
        forall|k: Digest| #[trigger] r1.contains_key(k) <==> (r.contains_key(k) && !in_keys(txs[m].transitions, kind, k)),
        forall|k: Digest| !in_keys(txs[m].transitions, kind, k) ==> #[trigger] r1[k] == r[k],
    ensures
        key_map_inv(t, r1, txs, m + 1, txs.len() as int, kind),
{
    let n = txs.len() as int;
    assert forall|k: Digest| #[trigger] r1.contains_key(k) implies t.contains_key(k) || key_in(txs, m + 1, n, kind, k) by {
        if !t.contains_key(k) {
            assert(r.contains_key(k));
            assert(key_in(txs, m, n, kind, k));
            let i = choose|i: int| m <= i < n && in_keys((#[trigger] txs[i]).transitions, kind, k);
            assert(i != m);
            assert(in_keys(txs[i].transitions, kind, k));
        }
    }
    assert forall|k: Digest| #![trigger t.contains_key(k)] #![trigger r1.contains_key(k)]
        t.contains_key(k) implies r1.contains_key(k) && r1[k] == t[k] by {
        assert(!in_keys(txs[m].transitions, kind, k));
        assert(r.contains_key(k));
    }
}

proof fn lemma_remove_step(t: TransactionStateView, r: TransactionStateView, b: BlockView, m: int)
    requires
        0 <= m < b.transactions.len(),
        fresh_block_transactions(t, b.transactions),
        holds_block_range(t, r, b, m, b.transactions.len() as int),
    ensures
        removed_transaction(r, b.transactions[m].transaction_id).1 == Ok::<(), LedgerError>(()),
        holds_block_range(t, removed_transaction(r, b.transactions[m].transaction_id).0, b, m + 1, b.transactions.len() as int),
{
    let txs = b.transactions;
    let n = txs.len() as int;
    let tx = txs[m];
    let id = tx.transaction_id;
    let ts = tx.transitions;
    assert(fresh_transaction(t, tx));
    assert(r.transactions.contains_key(id));
    assert(r.transactions[id].1 == transition_ids_of(ts));
    let s0 = TransactionStateView { transactions: r.transactions.remove(id), ..r };
    assert forall|j: int| 0 <= j < ts.len() implies s0.transitions.contains_key((#[trigger] ts[j]).transition_id)
        && s0.transitions[ts[j].transition_id].2 == ts[j] by {
        assert(txs[m].transitions[j] == ts[j]);
    }
    lemma_dropped_transitions(s0, ts);
    let (s1, missing) = dropped_transitions(s0, transition_ids_of(ts));
    let fin = TransactionStateView { events: s1.events.remove(id), ..s1 };
    assert(removed_transaction(r, id) == (fin, Ok::<(), LedgerError>(())));
    // The transactions map.
    assert forall|k: TransactionId| #[trigger] fin.transactions.contains_key(k) implies t.transactions.contains_key(k)
        || tx_id_in(txs, m + 1, n, k) by {
        if !t.transactions.contains_key(k) {
            assert(tx_id_in(txs, m, n, k));
            let i = choose|i: int| m <= i < n && (#[trigger] txs[i]).transaction_id == k;
            assert(i != m);
            assert(txs[i].transaction_id == k);
        }
    }
    assert forall|i: int| m + 1 <= i < n implies fin.transactions.contains_key((#[trigger] txs[i]).transaction_id)
        && fin.transactions[txs[i].transaction_id] == (txs[i].ledger_root, transition_ids_of(txs[i].transitions), metadata_at(b, i)) by {
        assert(txs[m].transaction_id != txs[i].transaction_id);
    }
    assert(transactions_inv(t.transactions, fin.transactions, b, m + 1, n));
    // The transitions map.
    assert forall|k: TransitionId| #[trigger] fin.transitions.contains_key(k) implies t.transitions.contains_key(k)
        || tid_in(txs, m + 1, n, k) by {
        if !t.transitions.contains_key(k) {
            assert(r.transitions.contains_key(k));
            assert(tid_in(txs, m, n, k));
            let i = choose|i: int| m <= i < n && has_transition_id((#[trigger] txs[i]).transitions, k);
            assert(i != m);
            assert(has_transition_id(txs[i].transitions, k));
        }
    }
    assert forall|i: int, j: int| m + 1 <= i < n && 0 <= j < txs[i].transitions.len() implies
        fin.transitions.contains_key((#[trigger] txs[i].transitions[j]).transition_id)
        && fin.transitions[txs[i].transitions[j].transition_id] == (txs[i].transaction_id, j as u8, txs[i].transitions[j]) by {
        let kk = txs[i].transitions[j].transition_id;
        assert(has_transition_id(txs[i].transitions, kk));
        if has_transition_id(txs[m].transitions, kk) {
            assert(!has_transition_id(txs[i].transitions, kk));
        }
    }
    assert forall|k: TransitionId| #![trigger t.transitions.contains_key(k)] #![trigger fin.transitions.contains_key(k)]
        t.transitions.contains_key(k) implies fin.transitions.contains_key(k) && fin.transitions[k] == t.transitions[k] by {
        assert(!has_transition_id(ts, k));
        assert(r.transitions.contains_key(k));
    }
    assert(transitions_inv(t.transitions, fin.transitions, txs, m + 1, n));
    // The index maps.
    lemma_remove_step_keys(t.serial_numbers, r.serial_numbers, fin.serial_numbers, txs, m, 0);
    lemma_remove_step_keys(t.commitments, r.commitments, fin.commitments, txs, m, 1);
    lemma_remove_step_keys(t.ciphertext_ids, r.ciphertext_ids, fin.ciphertext_ids, txs, m, 2);
    // The events map.
    assert forall|k: TransactionId| #[trigger] fin.events.contains_key(k) implies t.events.contains_key(k)
        || tx_id_in(txs, m + 1, n, k) by {
        if !t.events.contains_key(k) {
            assert(r.events.contains_key(k));
            assert(tx_id_in(txs, m, n, k));
            let i = choose|i: int| m <= i < n && (#[trigger] txs[i]).transaction_id == k;
            assert(i != m);
            assert(txs[i].transaction_id == k);
        }
    }
    assert forall|i: int| m + 1 <= i < n implies fin.events.contains_key((#[trigger] txs[i]).transaction_id)
        && fin.events[txs[i].transaction_id] == txs[i].events by {
        assert(txs[m].transaction_id != txs[i].transaction_id);
    }
    assert(events_inv(t.events, fin.events, txs, m + 1, n));
}


pub proof fn lemma_stored_transactions_hold(t: TransactionStateView, b: BlockView, m: int)
    requires
        0 <= m <= b.transactions.len(),
        fresh_block_transactions(t, b.transactions),
    ensures
        stored_transactions(t, b, m as nat).1 is None,
        holds_block_range(t, stored_transactions(t, b, m as nat).0, b, 0, m),
    decreases m,
{
    if m > 0 {
        lemma_stored_transactions_hold(t, b, m - 1);
        lemma_store_step(t, stored_transactions(t, b, (m - 1) as nat).0, b, m - 1);
    }
}

/// The IDs of the transactions of a block.
pub open spec fn block_transaction_ids(b: BlockView) -> Seq<TransactionId> {
    b.transactions.map_values(|tx: TransactionView| tx.transaction_id)
}

proof fn lemma_removed_transactions_hold(t: TransactionStateView, r: TransactionStateView, b: BlockView, m: int)
    requires
        0 <= m <= b.transactions.len(),
        fresh_block_transactions(t, b.transactions),
        holds_block_range(t, r, b, 0, b.transactions.len() as int),
    ensures
        removed_transactions(r, block_transaction_ids(b).take(m)).1 == Ok::<(), LedgerError>(()),
        holds_block_range(t, removed_transactions(r, block_transaction_ids(b).take(m)).0, b, m, b.transactions.len() as int),
    decreases m,
{
    let ids = block_transaction_ids(b);
    if m > 0 {
        lemma_removed_transactions_hold(t, r, b, m - 1);
        assert(ids.take(m).drop_last() =~= ids.take(m - 1));
        assert(ids.take(m).last() == b.transactions[m - 1].transaction_id);
        lemma_remove_step(t, removed_transactions(r, ids.take(m - 1)).0, b, m - 1);
    } else {
        assert(ids.take(0) =~= Seq::<TransactionId>::empty());
    }
}

proof fn lemma_holds_nothing(t: TransactionStateView, r: TransactionStateView, b: BlockView)
    requires
        holds_block_range(t, r, b, b.transactions.len() as int, b.transactions.len() as int),
    ensures
        r == t,
{
    assert(r.transactions =~= t.transactions);
    assert(r.transitions =~= t.transitions);
    assert(r.serial_numbers =~= t.serial_numbers);
    assert(r.commitments =~= t.commitments);
    assert(r.ciphertext_ids =~= t.ciphertext_ids);
    assert(r.events =~= t.events);
    assert(r =~= t);
}

/// Block `b` can be stored in `s` and removed again without a trace: its
/// height, hash and transactions are new to `s`, and its transactions share
/// no transaction ID and no transition ID.
pub open spec fn fresh_block(s: BlockStateView, b: BlockView) -> bool {
    &&& !s.block_heights.contains_key(b.header.height)
    &&& !s.block_headers.contains_key(b.block_hash)
    &&& !s.block_transactions.contains_key(b.block_hash)
    &&& fresh_block_transactions(s.transactions, b.transactions)
}

/// Removing a block undoes adding it, where the block is new in every
/// respect and is not the genesis block.
pub proof fn lemma_remove_block_undoes_add(s: BlockStateView, b: BlockView)
    requires
        fresh_block(s, b),
        b.header.height != 0,
    ensures
        added_block(s, b).1 == Ok::<(), LedgerError>(()),
        removed_block(added_block(s, b).0, b.header.height) == (s, Ok::<(), LedgerError>(())),
{
    let n = b.transactions.len() as int;
    lemma_stored_transactions_hold(s.transactions, b, n);
    let tt = stored_transactions(s.transactions, b, n as nat).0;
    let s1 = added_block(s, b).0;
    assert(s1.transactions == tt);
    assert(s1.block_transactions[b.block_hash] == block_transaction_ids(b));
    lemma_removed_transactions_hold(s.transactions, tt, b, n);
    assert(block_transaction_ids(b).take(n) =~= block_transaction_ids(b));
    let rt = removed_transactions(tt, block_transaction_ids(b)).0;
    lemma_holds_nothing(s.transactions, rt, b);
    let s2 = removed_block(s1, b.header.height).0;
    assert(s2.block_heights =~= s.block_heights);
    assert(s2.block_headers =~= s.block_headers);
    assert(s2.block_transactions =~= s.block_transactions);
    assert(s2 =~= s);
}

proof fn lemma_stored_transaction_in_range_reads_back(t: TransactionStateView, r: TransactionStateView, b: BlockView, lo: int, hi: int, i: int)
    requires
        lo <= i < hi,
        hi <= b.transactions.len(),
        fresh_block_transactions(t, b.transactions),
        holds_block_range(t, r, b, lo, hi),
    ensures
        transaction_lookup(r, b.transactions[i].transaction_id) == Ok::<TransactionView, LedgerError>(b.transactions[i]),
{
    let tx = b.transactions[i];
    let ts = tx.transitions;
    let tids = transition_ids_of(ts);
    assert(r.transactions.contains_key(tx.transaction_id));
    assert(r.transactions[tx.transaction_id].1 == tids);
    assert forall|j: int| 0 <= j < ts.len() implies r.transitions.contains_key((#[trigger] ts[j]).transition_id)
        && r.transitions[ts[j].transition_id].2 == ts[j] by {
        assert(b.transactions[i].transitions[j] == ts[j]);
    }
    assert forall|j: int| 0 <= j < tids.len() implies r.transitions.contains_key(#[trigger] tids[j]) by {
        assert(tids[j] == ts[j].transition_id);
    }
    lemma_first_missing_none(r.transitions, tids);
    assert(tids.map_values(|tid: TransitionId| r.transitions[tid].2) =~= ts) by {
        assert forall|j: int| 0 <= j < ts.len() implies tids.map_values(|tid: TransitionId| r.transitions[tid].2)[j] == ts[j] by {
            assert(tids[j] == ts[j].transition_id);
        }
    }
}

proof fn lemma_no_transaction_error(r: TransactionStateView, ids: Seq<TransactionId>)
    requires
        forall|i: int| 0 <= i < ids.len() ==> transaction_lookup(r, #[trigger] ids[i]) is Ok,
    ensures
        first_transaction_error(r, ids) is None,
    decreases ids.len(),
{
    if ids.len() > 0 {
        assert(transaction_lookup(r, ids[0]) is Ok);
        assert forall|i: int| 0 <= i < ids.drop_first().len() implies transaction_lookup(r, #[trigger] ids.drop_first()[i]) is Ok by {
            assert(ids.drop_first()[i] == ids[i + 1]);
        }
        lemma_no_transaction_error(r, ids.drop_first());
    }
}

/// An added block reads back from its height as it was written, where it is
/// new in every respect and the storage already holds the block before it.
pub proof fn lemma_added_block_reads_back(s: BlockStateView, b: BlockView)
    requires
        fresh_block(s, b),
        previous_block_hash_lookup(s, b.header.height) == Ok::<BlockHash, LedgerError>(b.previous_block_hash),
    ensures
        added_block(s, b).1 == Ok::<(), LedgerError>(()),
        block_lookup(added_block(s, b).0, b.header.height) == Ok::<BlockView, LedgerError>(b),
{
    let n = b.transactions.len() as int;
    let h = b.header.height;
    lemma_stored_transactions_hold(s.transactions, b, n);
    let s1 = added_block(s, b).0;
    let tt = s1.transactions;
    let ids = block_transaction_ids(b);
    assert forall|i: int| 0 <= i < ids.len() implies transaction_lookup(tt, #[trigger] ids[i]) is Ok by {
        lemma_stored_transaction_in_range_reads_back(s.transactions, tt, b, 0, n, i);
    }
    lemma_no_transaction_error(tt, ids);
    let lhs = ids.map_values(|id: TransactionId| transaction_lookup(tt, id)->Ok_0);
    assert forall|i: int| 0 <= i < n implies #[trigger] lhs[i] == b.transactions[i] by {
        lemma_stored_transaction_in_range_reads_back(s.transactions, tt, b, 0, n, i);
    }
    assert(lhs =~= b.transactions);
    if h != 0 {
        assert(s1.block_heights[(h - 1) as u32] == s.block_heights[(h - 1) as u32]);
    }
    assert(block_transactions_lookup(s1, h) == Ok::<Seq<TransactionView>, LedgerError>(b.transactions));
}


proof fn lemma_first_missing_none_contains(m: Map<TransitionId, (TransactionId, u8, TransitionView)>, tids: Seq<TransitionId>)
    requires
        first_missing(m, tids) is None,
    ensures
        forall|i: int| 0 <= i < tids.len() ==> m.contains_key(#[trigger] tids[i]),
    decreases tids.len(),
{
    if tids.len() > 0 {
        lemma_first_missing_none_contains(m, tids.drop_first());
        assert forall|i: int| 0 <= i < tids.len() implies m.contains_key(#[trigger] tids[i]) by {
            if i > 0 {
                assert(tids.drop_first()[i - 1] == tids[i]);
            }
        }
    }
}

/// A transaction that reads back from `t` reads back the same once the
/// transactions of block `b`, new to `t` in every respect, are stored.
pub proof fn lemma_stored_block_keeps_transaction(t: TransactionStateView, r: TransactionStateView, b: BlockView, id: TransactionId)
    requires
        fresh_block_transactions(t, b.transactions),
        holds_block_range(t, r, b, 0, b.transactions.len() as int),
        transaction_lookup(t, id) is Ok,
    ensures
        transaction_lookup(r, id) == transaction_lookup(t, id),
{
    let tids = t.transactions[id].1;
    assert(r.transactions.contains_key(id));
    assert(r.transactions[id] == t.transactions[id]);
    lemma_first_missing_none_contains(t.transitions, tids);
    assert forall|i: int| 0 <= i < tids.len() implies r.transitions.contains_key(#[trigger] tids[i])
        && r.transitions[tids[i]] == t.transitions[tids[i]] by {
        assert(t.transitions.contains_key(tids[i]));
    }
    lemma_first_missing_none(r.transitions, tids);
    assert(tids.map_values(|tid: TransitionId| r.transitions[tid].2) =~= tids.map_values(|tid: TransitionId| t.transitions[tid].2));
    if !t.events.contains_key(id) && r.events.contains_key(id) {
        assert(tx_id_in(b.transactions, 0, b.transactions.len() as int, id));
        let i = choose|i: int| 0 <= i < b.transactions.len() && (#[trigger] b.transactions[i]).transaction_id == id;
        assert(fresh_transaction(t, b.transactions[i]));
    }
    assert(stored_events(r, id) == stored_events(t, id));
}

proof fn lemma_no_transaction_error_all_ok(t: TransactionStateView, ids: Seq<TransactionId>)
    requires
        first_transaction_error(t, ids) is None,
    ensures
        forall|i: int| 0 <= i < ids.len() ==> transaction_lookup(t, #[trigger] ids[i]) is Ok,
    decreases ids.len(),
{
    if ids.len() > 0 {
        lemma_no_transaction_error_all_ok(t, ids.drop_first());
        assert forall|i: int| 0 <= i < ids.len() implies transaction_lookup(t, #[trigger] ids[i]) is Ok by {
            if i > 0 {
                assert(ids.drop_first()[i - 1] == ids[i]);
            }
        }
    }
}

/// A block that reads back from storage reads back the same after another
/// block, new to the storage in every respect, is added.
pub proof fn lemma_added_block_keeps_blocks(s: BlockStateView, b: BlockView, k: u32)
    requires
        fresh_block_transactions(s.transactions, b.transactions),
        !s.block_heights.contains_key(b.header.height),
        !s.block_headers.contains_key(b.block_hash),
        block_lookup(s, k) is Ok,
    ensures
        block_lookup(added_block(s, b).0, k) == block_lookup(s, k),
{
    let n = b.transactions.len() as int;
    lemma_stored_transactions_hold(s.transactions, b, n);
    let s1 = added_block(s, b).0;
    let t = s.transactions;
    let tt = s1.transactions;
    // The block's hash, header and transaction list stay as they were.
    assert(s.block_heights.contains_key(k));
    let hk = s.block_heights[k];
    assert(s.block_headers.contains_key(hk));
    assert(hk != b.block_hash);
    assert(s1.block_heights[k] == hk);
    if k > 0 {
        assert(s1.block_heights[(k - 1) as u32] == s.block_heights[(k - 1) as u32]);
    }
    assert(s.block_transactions.contains_key(hk));
    let ids = s.block_transactions[hk];
    assert(s1.block_transactions[hk] == ids);
    // Its transactions read back the same.
    lemma_no_transaction_error_all_ok(t, ids);
    assert forall|i: int| 0 <= i < ids.len() implies transaction_lookup(tt, #[trigger] ids[i]) == transaction_lookup(t, ids[i]) by {
        lemma_stored_block_keeps_transaction(t, tt, b, ids[i]);
    }
    assert forall|i: int| 0 <= i < ids.len() implies transaction_lookup(tt, #[trigger] ids[i]) is Ok by {
        lemma_stored_block_keeps_transaction(t, tt, b, ids[i]);
    }
    lemma_no_transaction_error(tt, ids);
    let lhs = ids.map_values(|id: TransactionId| transaction_lookup(tt, id)->Ok_0);
    let rhs = ids.map_values(|id: TransactionId| transaction_lookup(t, id)->Ok_0);
    assert forall|i: int| 0 <= i < ids.len() implies #[trigger] lhs[i] == rhs[i] by {
        lemma_stored_block_keeps_transaction(t, tt, b, ids[i]);
    }
    assert(lhs =~= rhs);
}

} // verus!
