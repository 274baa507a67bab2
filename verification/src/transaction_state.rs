use vstd::prelude::*;
use crate::data_map::DataMap;
use crate::digest::{CiphertextId, Commitment, Digest, LedgerRoot, SerialNumber, TransactionId, TransitionId};
use crate::error::LedgerError;
use crate::types::{copy_digests, copy_events, events_view, Event, Metadata, Transaction, TransactionView, Transition, TransitionView, transitions_view};

verus! {

/// The stored entry of a transaction: its ledger root, the IDs of its
/// transitions and its metadata.
pub type TransactionEntry = (LedgerRoot, Vec<TransitionId>, Metadata);

/// The stored entry of a transition: its transaction, its index there, and
/// the transition.
pub type TransitionEntry = (TransactionId, u8, Transition);

/// The transactions of the ledger, with indexes from each serial number,
/// commitment and ciphertext ID to the transition that holds it.
pub struct TransactionState {
    transactions: DataMap<TransactionId, TransactionEntry>,
    transitions: DataMap<TransitionId, TransitionEntry>,
    serial_numbers: DataMap<SerialNumber, TransitionId>,
    commitments: DataMap<Commitment, TransitionId>,
    ciphertext_ids: DataMap<CiphertextId, TransitionId>,
    events: DataMap<TransactionId, Vec<Event>>,
}

/// The contents of a `TransactionState`.
#[verifier::ext_equal]
pub struct TransactionStateView {
    pub transactions: Map<TransactionId, (LedgerRoot, Seq<TransitionId>, Metadata)>,
    pub transitions: Map<TransitionId, (TransactionId, u8, TransitionView)>,
    pub serial_numbers: Map<SerialNumber, TransitionId>,
    pub commitments: Map<Commitment, TransitionId>,
    pub ciphertext_ids: Map<CiphertextId, TransitionId>,
    pub events: Map<TransactionId, Seq<Seq<u8>>>,
}

pub open spec fn entry_view(e: TransactionEntry) -> (LedgerRoot, Seq<TransitionId>, Metadata) {
    (e.0, e.1@, e.2)
}

pub open spec fn transition_entry_view(e: TransitionEntry) -> (TransactionId, u8, TransitionView) {
    (e.0, e.1, e.2@)
}

impl View for TransactionState {
    type V = TransactionStateView;

    closed spec fn view(&self) -> TransactionStateView {
        TransactionStateView {
            transactions: self.transactions@.map_values(|e: TransactionEntry| entry_view(e)),
            transitions: self.transitions@.map_values(|e: TransitionEntry| transition_entry_view(e)),
            serial_numbers: self.serial_numbers@,
            commitments: self.commitments@,
            ciphertext_ids: self.ciphertext_ids@,
            events: self.events@.map_values(|e: Vec<Event>| events_view(e@)),
        }
    }
}

/// The IDs of the ciphertexts of a transition.
pub open spec fn ciphertext_ids_of(t: TransitionView) -> Seq<CiphertextId> {
    t.ciphertexts.map_values(|c: (CiphertextId, Seq<u8>)| c.0)
}

/// The serial numbers (0), commitments (1) or ciphertext IDs (2) of a transition.
pub open spec fn keys_of(t: TransitionView, kind: int) -> Seq<Digest> {
    if kind == 0 {
        t.serial_numbers
    } else if kind == 1 {
        t.commitments
    } else {
        ciphertext_ids_of(t)
    }
}

/// `m` with each of `keys` mapped to `v`, in order.
pub open spec fn insert_all(m: Map<Digest, Digest>, keys: Seq<Digest>, v: Digest) -> Map<Digest, Digest>
    decreases keys.len(),
{
    if keys.len() == 0 {
        m
    } else {
        insert_all(m, keys.drop_last(), v).insert(keys.last(), v)
    }
}

/// `m` without each of `keys`.
pub open spec fn remove_all(m: Map<Digest, Digest>, keys: Seq<Digest>) -> Map<Digest, Digest>
    decreases keys.len(),
{
    if keys.len() == 0 {
        m
    } else {
        remove_all(m, keys.drop_last()).remove(keys.last())
    }
}

/// `m` with the keys of the given kind of each transition mapped to that
/// transition's ID, transition after transition.
pub open spec fn index_transitions(m: Map<Digest, Digest>, ts: Seq<TransitionView>, kind: int) -> Map<Digest, Digest>
    decreases ts.len(),
{
    if ts.len() == 0 {
        m
    } else {
        insert_all(index_transitions(m, ts.drop_last(), kind), keys_of(ts.last(), kind), ts.last().transition_id)
    }
}

/// `m` with each transition stored under its ID, with the transaction ID and
/// the transition's index.
pub open spec fn store_transitions(
    m: Map<TransitionId, (TransactionId, u8, TransitionView)>,
    id: TransactionId,
    ts: Seq<TransitionView>,
) -> Map<TransitionId, (TransactionId, u8, TransitionView)>
    decreases ts.len(),
{
    if ts.len() == 0 {
        m
    } else {
        store_transitions(m, id, ts.drop_last()).insert(
            ts.last().transition_id,
            (id, (ts.len() - 1) as u8, ts.last()),
        )
    }
}

/// The IDs of a sequence of transitions.
pub open spec fn transition_ids_of(ts: Seq<TransitionView>) -> Seq<TransitionId> {
    ts.map_values(|t: TransitionView| t.transition_id)
}

/// The contents after storing transaction `tx` with `metadata`.
pub open spec fn stored_transaction(s: TransactionStateView, tx: TransactionView, metadata: Metadata) -> TransactionStateView {
    TransactionStateView {
        transactions: s.transactions.insert(tx.transaction_id, (tx.ledger_root, transition_ids_of(tx.transitions), metadata)),
        transitions: store_transitions(s.transitions, tx.transaction_id, tx.transitions),
        serial_numbers: index_transitions(s.serial_numbers, tx.transitions, 0),
        commitments: index_transitions(s.commitments, tx.transitions, 1),
        ciphertext_ids: index_transitions(s.ciphertext_ids, tx.transitions, 2),
        events: s.events.insert(tx.transaction_id, tx.events),
    }
}

/// The contents after dropping the transition stored under `tid`, and the
/// index entries of its serial numbers, commitments and ciphertext IDs.
pub open spec fn dropped_transition(s: TransactionStateView, tid: TransitionId) -> TransactionStateView {
    let t = s.transitions[tid].2;
    TransactionStateView {
        transitions: s.transitions.remove(tid),
        serial_numbers: remove_all(s.serial_numbers, t.serial_numbers),
        commitments: remove_all(s.commitments, t.commitments),
        ciphertext_ids: remove_all(s.ciphertext_ids, ciphertext_ids_of(t)),
        ..s
    }
}

/// Drops the transitions with the given IDs one after the other; stops at the
/// first ID that is not stored (then also returned).
pub open spec fn dropped_transitions(s: TransactionStateView, tids: Seq<TransitionId>) -> (TransactionStateView, Option<TransitionId>)
    decreases tids.len(),
{
    if tids.len() == 0 {
        (s, None)
    } else {
        let (s1, missing) = dropped_transitions(s, tids.drop_last());
        if missing is Some {
            (s1, missing)
        } else if !s1.transitions.contains_key(tids.last()) {
            (s1, Some(tids.last()))
        } else {
            (dropped_transition(s1, tids.last()), None)
        }
    }
}

/// What removing transaction `id` leaves, and whether it succeeds.
pub open spec fn removed_transaction(s: TransactionStateView, id: TransactionId) -> (TransactionStateView, Result<(), LedgerError>) {
    if !s.transactions.contains_key(id) {
        (s, Err(LedgerError::TransactionNotFound(id)))
    } else {
        let s0 = TransactionStateView { transactions: s.transactions.remove(id), ..s };
        let (s1, missing) = dropped_transitions(s0, s.transactions[id].1);
        match missing {
            Some(tid) => (s1, Err(LedgerError::TransitionNotFound(tid))),
            None => (TransactionStateView { events: s1.events.remove(id), ..s1 }, Ok(())),
        }
    }
}

/// The bytes of the first ciphertext with the given ID.
pub open spec fn find_ciphertext(cs: Seq<(CiphertextId, Seq<u8>)>, id: CiphertextId) -> Option<Seq<u8>>
    decreases cs.len(),
{
    if cs.len() == 0 {
        None
    } else if cs[0].0 == id {
        Some(cs[0].1)
    } else {
        find_ciphertext(cs.drop_first(), id)
    }
}

/// The record ciphertext that the ledger holds for a ciphertext ID.
pub open spec fn ciphertext_lookup(s: TransactionStateView, id: CiphertextId) -> Result<Seq<u8>, LedgerError> {
    if !s.ciphertext_ids.contains_key(id) {
        Err(LedgerError::CiphertextNotFound(id))
    } else if !s.transitions.contains_key(s.ciphertext_ids[id]) {
        Err(LedgerError::TransitionNotFound(s.ciphertext_ids[id]))
    } else {
        match find_ciphertext(s.transitions[s.ciphertext_ids[id]].2.ciphertexts, id) {
            Some(bytes) => Ok(bytes),
            None => Err(LedgerError::CiphertextMissing(id)),
        }
    }
}

/// The first of `tids` that has no stored transition.
pub open spec fn first_missing(m: Map<TransitionId, (TransactionId, u8, TransitionView)>, tids: Seq<TransitionId>) -> Option<TransitionId>
    decreases tids.len(),
{
    if tids.len() == 0 {
        None
    } else if !m.contains_key(tids[0]) {
        Some(tids[0])
    } else {
        first_missing(m, tids.drop_first())
    }
}

/// The events stored for a transaction; none where there is no entry.
pub open spec fn stored_events(s: TransactionStateView, id: TransactionId) -> Seq<Seq<u8>> {
    if s.events.contains_key(id) { s.events[id] } else { Seq::empty() }
}

/// The transaction that the ledger reassembles for an ID: its ledger root,
/// stored transitions and stored events.
pub open spec fn transaction_lookup(s: TransactionStateView, id: TransactionId) -> Result<TransactionView, LedgerError> {
    if !s.transactions.contains_key(id) {
        Err(LedgerError::TransactionNotFound(id))
    } else {
        let tids = s.transactions[id].1;
        match first_missing(s.transitions, tids) {
            Some(tid) => Err(LedgerError::TransitionNotFound(tid)),
            None => Ok(TransactionView {
                transaction_id: id,
                ledger_root: s.transactions[id].0,
                transitions: tids.map_values(|tid: TransitionId| s.transitions[tid].2),
                events: stored_events(s, id),
            }),
        }
    }
}

/// Maps each of `keys` to `v` in `map`, in order.
fn insert_keys(map: &mut DataMap<Digest, Digest>, keys: &Vec<Digest>, v: Digest)
    requires
        old(map).wf(),
    ensures
        final(map).wf(),
        final(map)@ == insert_all(old(map)@, keys@, v),
{
    let mut j: usize = 0;
    while j < keys.len()
        invariant
            map.wf(),
            j <= keys@.len(),
            map@ == insert_all(old(map)@, keys@.take(j as int), v),
        decreases keys@.len() - j,
    {
        map.insert(keys[j], v);
        proof {
            assert(keys@.take(j + 1).drop_last() =~= keys@.take(j as int));
        }
        j = j + 1;
    }
    assert(keys@.take(keys@.len() as int) =~= keys@);
}

/// Removes each of `keys` from `map`.
fn remove_keys(map: &mut DataMap<Digest, Digest>, keys: &Vec<Digest>)
    requires
        old(map).wf(),
    ensures
        final(map).wf(),
        final(map)@ == remove_all(old(map)@, keys@),
{
    let mut j: usize = 0;
    while j < keys.len()
        invariant
            map.wf(),
            j <= keys@.len(),
            map@ == remove_all(old(map)@, keys@.take(j as int)),
        decreases keys@.len() - j,
    {
        map.remove(&keys[j]);
        proof {
            assert(keys@.take(j + 1).drop_last() =~= keys@.take(j as int));
        }
        j = j + 1;
    }
    assert(keys@.take(keys@.len() as int) =~= keys@);
}

/// The IDs of the ciphertexts of a transition.
fn ciphertext_ids(t: &Transition) -> (r: Vec<CiphertextId>)
    ensures
        r@ == ciphertext_ids_of(t@),
{
    let mut r: Vec<CiphertextId> = Vec::new();
    let mut j: usize = 0;
    while j < t.ciphertexts.len()
        invariant
            j <= t.ciphertexts@.len(),
            r@.len() == j,
            forall|k: int| 0 <= k < j ==> #[trigger] r@[k] == t.ciphertexts@[k].id,
        decreases t.ciphertexts@.len() - j,
    {
        r.push(t.ciphertexts[j].id);
        j = j + 1;
    }
    assert(r@ =~= ciphertext_ids_of(t@));
    r
}

/// The IDs of the transitions of a transaction.
fn transition_ids(tx: &Transaction) -> (r: Vec<TransitionId>)
    ensures
        r@ == transition_ids_of(tx@.transitions),
{
    let mut r: Vec<TransitionId> = Vec::new();
    let mut j: usize = 0;
    while j < tx.transitions.len()
        invariant
            j <= tx.transitions@.len(),
            r@.len() == j,
            forall|k: int| 0 <= k < j ==> #[trigger] r@[k] == tx.transitions@[k].transition_id,
        decreases tx.transitions@.len() - j,
    {
        r.push(tx.transitions[j].transition_id);
        j = j + 1;
    }
    assert(r@ =~= transition_ids_of(tx@.transitions));
    r
}

proof fn lemma_dropped_stops(s: TransactionStateView, tids: Seq<TransitionId>, k: int)
    requires
        0 <= k <= tids.len(),
        dropped_transitions(s, tids.take(k)).1 is Some,
    ensures
        dropped_transitions(s, tids) == dropped_transitions(s, tids.take(k)),
    decreases tids.len(),
{
    if k == tids.len() {
        assert(tids.take(k) =~= tids);
    } else {
        assert(tids.drop_last().take(k) =~= tids.take(k));
        lemma_dropped_stops(s, tids.drop_last(), k);
    }
}

proof fn lemma_find_ciphertext(cs: Seq<(CiphertextId, Seq<u8>)>, id: CiphertextId, j: int)
    requires
        0 <= j <= cs.len(),
        forall|k: int| 0 <= k < j ==> #[trigger] cs[k].0 != id,
    ensures
        find_ciphertext(cs, id) == (if j < cs.len() && cs[j].0 == id { Some(cs[j].1) } else { find_ciphertext(cs.skip(j), id) }),
    decreases j,
{
    if j > 0 {
        assert(cs[0].0 != id);
        lemma_find_ciphertext(cs.drop_first(), id, j - 1);
        assert(cs.drop_first().skip(j - 1) =~= cs.skip(j));
    } else {
        assert(cs.skip(0) =~= cs);
    }
}

proof fn lemma_first_missing(m: Map<TransitionId, (TransactionId, u8, TransitionView)>, tids: Seq<TransitionId>, k: int)
    requires
        0 <= k <= tids.len(),
        forall|i: int| 0 <= i < k ==> m.contains_key(#[trigger] tids[i]),
    ensures
        first_missing(m, tids) == first_missing(m, tids.skip(k)),
    decreases k,
{
    if k > 0 {
        assert(m.contains_key(tids[0]));
        lemma_first_missing(m, tids.drop_first(), k - 1);
        assert(tids.drop_first().skip(k - 1) =~= tids.skip(k));
    } else {
        assert(tids.skip(0) =~= tids);
    }
}

impl TransactionState {
    /// The state's internal invariant: each of its maps is well formed.
    pub closed spec fn wf(&self) -> bool {
        &&& self.transactions.wf()
        &&& self.transitions.wf()
        &&& self.serial_numbers.wf()
        &&& self.commitments.wf()
        &&& self.ciphertext_ids.wf()
        &&& self.events.wf()
    }

    /// Initializes an empty instance of `TransactionState`.
    pub fn new() -> (r: TransactionState)
        ensures
            r.wf(),
            r@.transactions == Map::<TransactionId, (LedgerRoot, Seq<TransitionId>, Metadata)>::empty(),
            r@.transitions == Map::<TransitionId, (TransactionId, u8, TransitionView)>::empty(),
            r@.serial_numbers == Map::<SerialNumber, TransitionId>::empty(),
            r@.commitments == Map::<Commitment, TransitionId>::empty(),
            r@.ciphertext_ids == Map::<CiphertextId, TransitionId>::empty(),
            r@.events == Map::<TransactionId, Seq<Seq<u8>>>::empty(),
    {
        let r = TransactionState {
            transactions: DataMap::new(),
            transitions: DataMap::new(),
            serial_numbers: DataMap::new(),
            commitments: DataMap::new(),
            ciphertext_ids: DataMap::new(),
            events: DataMap::new(),
        };
        assert(r@.transactions =~= Map::empty());
        assert(r@.transitions =~= Map::empty());
        assert(r@.events =~= Map::empty());
        r
    }

    /// Returns `true` if the given transaction ID exists in storage.
    pub fn contains_transaction(&self, transaction_id: &TransactionId) -> (r: bool)
        requires
            self.wf(),
        ensures
            r == self@.transactions.contains_key(*transaction_id),
    {
        self.transactions.contains_key(transaction_id)
    }

    /// Returns `true` if the given serial number exists in storage.
    pub fn contains_serial_number(&self, serial_number: &SerialNumber) -> (r: bool)
        requires
            self.wf(),
        ensures
            r == self@.serial_numbers.contains_key(*serial_number),
    {
        self.serial_numbers.contains_key(serial_number)
    }

    /// Returns `true` if the given commitment exists in storage.
    pub fn contains_commitment(&self, commitment: &Commitment) -> (r: bool)
        requires
            self.wf(),
        ensures
            r == self@.commitments.contains_key(*commitment),
    {
        self.commitments.contains_key(commitment)
    }

    /// Returns `true` if the given ciphertext ID exists in storage.
    pub fn contains_ciphertext_id(&self, ciphertext_id: &CiphertextId) -> (r: bool)
        requires
            self.wf(),
        ensures
            r == self@.ciphertext_ids.contains_key(*ciphertext_id),
    {
        self.ciphertext_ids.contains_key(ciphertext_id)
    }

    /// The transition that holds the given commitment, if any.
    pub fn get_commitment_transition_id(&self, commitment: &Commitment) -> (r: Option<TransitionId>)
        requires
            self.wf(),
        ensures
            r == (if self@.commitments.contains_key(*commitment) {
                Some(self@.commitments[*commitment])
            } else {
                None
            }),
    {
        match self.commitments.get(commitment) {
            Some(tid) => Some(*tid),
            None => None,
        }
    }

    /// The transaction of a stored transition, if the transition is stored.
    pub fn get_transition_transaction_id(&self, transition_id: &TransitionId) -> (r: Option<TransactionId>)
        requires
            self.wf(),
        ensures
            r == (if self@.transitions.contains_key(*transition_id) {
                Some(self@.transitions[*transition_id].0)
            } else {
                None
            }),
    {
        match self.transitions.get(transition_id) {
            Some(entry) => Some(entry.0),
            None => None,
        }
    }

    /// Returns the record ciphertext for a given ciphertext ID.
    pub fn get_ciphertext(&self, ciphertext_id: &CiphertextId) -> (r: Result<Vec<u8>, LedgerError>)
        requires
            self.wf(),
        ensures
            match r {
                Ok(bytes) => ciphertext_lookup(self@, *ciphertext_id) == Ok::<Seq<u8>, LedgerError>(bytes@),
                Err(e) => ciphertext_lookup(self@, *ciphertext_id) == Err::<Seq<u8>, LedgerError>(e),
            },
    {
        // Retrieve the transition ID.
        let transition_id = match self.ciphertext_ids.get(ciphertext_id) {
            Some(transition_id) => *transition_id,
            None => return Err(LedgerError::CiphertextNotFound(*ciphertext_id)),
        };

        // Retrieve the transition.
        let entry = match self.transitions.get(&transition_id) {
            Some(entry) => entry,
            None => return Err(LedgerError::TransitionNotFound(transition_id)),
        };
        let transition = &entry.2;
        let ghost cs = transition@.ciphertexts;
        assert(cs == self@.transitions[transition_id].2.ciphertexts);

        // Retrieve the ciphertext.
        let mut j: usize = 0;
        while j < transition.ciphertexts.len()
            invariant
                j <= transition.ciphertexts@.len(),
                cs == transition@.ciphertexts,
                self@.ciphertext_ids.contains_key(*ciphertext_id),
                self@.ciphertext_ids[*ciphertext_id] == transition_id,
                self@.transitions.contains_key(transition_id),
                cs == self@.transitions[transition_id].2.ciphertexts,
                forall|k: int| 0 <= k < j ==> #[trigger] cs[k].0 != *ciphertext_id,
            decreases transition.ciphertexts@.len() - j,
        {
            if transition.ciphertexts[j].id == *ciphertext_id {
                proof {
                    lemma_find_ciphertext(cs, *ciphertext_id, j as int);
                    assert(cs[j as int] == transition.ciphertexts@[j as int]@);
                    assert(self@.ciphertext_ids[*ciphertext_id] == transition_id);
                }
                return Ok(crate::types::copy_bytes(&transition.ciphertexts[j].bytes));
            }
            j = j + 1;
        }
        proof {
            lemma_find_ciphertext(cs, *ciphertext_id, j as int);
            assert(cs.skip(j as int).len() == 0);
            assert(self@.ciphertext_ids[*ciphertext_id] == transition_id);
        }
        Err(LedgerError::CiphertextMissing(*ciphertext_id))
    }

    /// Returns the transition for a given transition ID.
    pub fn get_transition(&self, transition_id: &TransitionId) -> (r: Result<Transition, LedgerError>)
        requires
            self.wf(),
        ensures
            match r {
                Ok(t) => self@.transitions.contains_key(*transition_id) && t@ == self@.transitions[*transition_id].2,
                Err(e) => !self@.transitions.contains_key(*transition_id) && e == LedgerError::TransitionNotFound(*transition_id),
            },
    {
        match self.transitions.get(transition_id) {
            Some(entry) => Ok(entry.2.duplicate()),
            None => Err(LedgerError::TransitionNotFound(*transition_id)),
        }
    }

    /// Returns the transaction for a given transaction ID.
    pub fn get_transaction(&self, transaction_id: &TransactionId) -> (r: Result<Transaction, LedgerError>)
        requires
            self.wf(),
        ensures
            match r {
                Ok(tx) => transaction_lookup(self@, *transaction_id) == Ok::<TransactionView, LedgerError>(tx@),
                Err(e) => transaction_lookup(self@, *transaction_id) == Err::<TransactionView, LedgerError>(e),
            },
    {
        // Retrieve the transition IDs.
        let entry = match self.transactions.get(transaction_id) {
            Some(entry) => entry,
            None => return Err(LedgerError::TransactionNotFound(*transaction_id)),
        };
        let ledger_root = entry.0;
        let transition_ids = &entry.1;
        let ghost tids = transition_ids@;
        assert(tids == self@.transactions[*transaction_id].1);

        // Retrieve the transitions.
        let mut transitions: Vec<Transition> = Vec::new();
        let mut j: usize = 0;
        while j < transition_ids.len()
            invariant
                self.wf(),
                j <= tids.len(),
                tids == transition_ids@,
                self@.transactions.contains_key(*transaction_id),
                tids == self@.transactions[*transaction_id].1,
                transitions@.len() == j,
                forall|k: int| 0 <= k < j ==> self@.transitions.contains_key(#[trigger] tids[k]),
                forall|k: int| 0 <= k < j ==> #[trigger] transitions@[k]@ == self@.transitions[tids[k]].2,
            decreases tids.len() - j,
        {
            match self.transitions.get(&transition_ids[j]) {
                Some(e) => {
                    transitions.push(e.2.duplicate());
                },
                None => {
                    proof {
                        lemma_first_missing(self@.transitions, tids, j as int);
                        assert(tids.skip(j as int)[0] == tids[j as int]);
                        assert(!self@.transitions.contains_key(tids[j as int]));
                    }
                    return Err(LedgerError::TransitionNotFound(transition_ids[j]));
                },
            }
            j = j + 1;
        }
        proof {
            lemma_first_missing(self@.transitions, tids, j as int);
            assert(tids.skip(j as int).len() == 0);
        }
        // Retrieve the stored events.
        let events = match self.events.get(transaction_id) {
            Some(stored) => copy_events(stored),
            None => Vec::new(),
        };
        let tx = Transaction { transaction_id: *transaction_id, ledger_root, transitions, events };
        proof {
            let m = self@.transitions;
            assert(transitions_view(tx.transitions@) =~= tids.map_values(|tid: TransitionId| m[tid].2));
            assert(events_view(tx.events@) =~= stored_events(self@, *transaction_id));
        }
        Ok(tx)
    }

    /// Adds the given transaction to storage.
    pub fn add_transaction(&mut self, transaction: &Transaction, metadata: Metadata) -> (r: Result<(), LedgerError>)
        requires
            old(self).wf(),
        ensures
            final(self).wf(),
            match r {
                Ok(()) => !old(self)@.transactions.contains_key(transaction.transaction_id)
                    && final(self)@ == stored_transaction(old(self)@, transaction@, metadata),
                Err(e) => old(self)@.transactions.contains_key(transaction.transaction_id)
                    && e == LedgerError::TransactionExists(transaction.transaction_id)
                    && final(self)@ == old(self)@,
            },
    {
        // Ensure the transaction does not exist.
        let transaction_id = transaction.transaction_id;
        if self.transactions.contains_key(&transaction_id) {
            return Err(LedgerError::TransactionExists(transaction_id));
        }
        let ghost s0 = self@;
        let ghost tv = transaction@.transitions;
        let transition_ids = transition_ids(transaction);

        // Insert the transaction ID.
        self.transactions.insert(transaction_id, (transaction.ledger_root, transition_ids, metadata));
        proof {
            assert(self@.transactions =~= s0.transactions.insert(
                transaction_id, (transaction.ledger_root, transition_ids_of(tv), metadata)));
        }

        let mut i: usize = 0;
        while i < transaction.transitions.len()
            invariant
                self.wf(),
                i <= transaction.transitions@.len(),
                tv == transaction@.transitions,
                transaction_id == transaction.transaction_id,
                self@.transactions == s0.transactions.insert(transaction_id, (transaction.ledger_root, transition_ids_of(tv), metadata)),
                self@.transitions == store_transitions(s0.transitions, transaction_id, tv.take(i as int)),
                self@.serial_numbers == index_transitions(s0.serial_numbers, tv.take(i as int), 0),
                self@.commitments == index_transitions(s0.commitments, tv.take(i as int), 1),
                self@.ciphertext_ids == index_transitions(s0.ciphertext_ids, tv.take(i as int), 2),
                self@.events == s0.events,
            decreases transaction.transitions@.len() - i,
        {
            let transition = &transaction.transitions[i];
            let transition_id = transition.transition_id;
            let ghost before = self@;
            proof {
                assert(tv.take(i + 1).drop_last() =~= tv.take(i as int));
                assert(tv.take(i + 1).last() == transition@);
            }

            // Insert the transition.
            self.transitions.insert(transition_id, (transaction_id, #[verifier::truncate] (i as u8), transition.duplicate()));
            proof {
                assert(self@.transitions =~= before.transitions.insert(transition_id, (transaction_id, i as u8, transition@)));
            }

            // Insert the serial numbers.
            insert_keys(&mut self.serial_numbers, &transition.serial_numbers, transition_id);
            // Insert the commitments.
            insert_keys(&mut self.commitments, &transition.commitments, transition_id);
            // Insert the ciphertext IDs.
            let cids = ciphertext_ids(transition);
            insert_keys(&mut self.ciphertext_ids, &cids, transition_id);

            proof {
                assert(self@.transactions =~= before.transactions);
                assert(self@.events =~= before.events);
            }
            i = i + 1;
        }
        proof {
            assert(tv.take(i as int) =~= tv);
        }

        // Insert the transaction events.
        let ghost before = self@;
        self.events.insert(transaction_id, copy_events(&transaction.events));
        proof {
            assert(self@.events =~= before.events.insert(transaction_id, events_view(transaction.events@)));
            assert(self@.transactions =~= before.transactions);
            assert(self@.transitions =~= before.transitions);
        }
        Ok(())
    }

    /// Removes the given transaction ID from storage.
    pub fn remove_transaction(&mut self, transaction_id: &TransactionId) -> (r: Result<(), LedgerError>)
        requires
            old(self).wf(),
        ensures
            final(self).wf(),
            (final(self)@, r) == removed_transaction(old(self)@, *transaction_id),
    {
        // Ensure the transaction exists.
        if !self.transactions.contains_key(transaction_id) {
            return Err(LedgerError::TransactionNotFound(*transaction_id));
        }
        let ghost s = self@;

        // Retrieve the transition IDs from the transaction.
        let transition_ids = match self.transactions.get(transaction_id) {
            Some(entry) => copy_digests(&entry.1),
            None => return Err(LedgerError::TransactionNotFound(*transaction_id)),
        };
        let ghost tids = transition_ids@;
        assert(tids == s.transactions[*transaction_id].1);

        // Remove the transaction entry.
        self.transactions.remove(transaction_id);
        let ghost s0 = TransactionStateView { transactions: s.transactions.remove(*transaction_id), ..s };
        proof {
            assert(self@.transactions =~= s0.transactions);
            assert(self@.transitions =~= s0.transitions);
            assert(self@.events =~= s0.events);
            assert(tids.take(0) =~= Seq::<TransitionId>::empty());
        }

        let mut i: usize = 0;
        while i < transition_ids.len()
            invariant
                self.wf(),
                i <= tids.len(),
                tids == transition_ids@,
                s == old(self)@,
                s.transactions.contains_key(*transaction_id),
                tids == s.transactions[*transaction_id].1,
                s0 == (TransactionStateView { transactions: s.transactions.remove(*transaction_id), ..s }),
                dropped_transitions(s0, tids.take(i as int)) == (self@, None::<TransitionId>),
            decreases tids.len() - i,
        {
            let transition_id = transition_ids[i];
            let ghost before = self@;
            proof {
                assert(tids.take(i + 1).drop_last() =~= tids.take(i as int));
                assert(tids.take(i + 1).last() == transition_id);
            }

            // Retrieve the transition from the transition ID.
            let (serial_numbers, commitments, cids) = match self.transitions.get(&transition_id) {
                Some(entry) => (copy_digests(&entry.2.serial_numbers), copy_digests(&entry.2.commitments), ciphertext_ids(&entry.2)),
                None => {
                    proof {
                        assert(!before.transitions.contains_key(transition_id));
                        assert(dropped_transitions(s0, tids.take(i + 1)) == (before, Some(transition_id)));
                        lemma_dropped_stops(s0, tids, i + 1);
                    }
                    return Err(LedgerError::TransitionNotFound(transition_id));
                },
            };
            let ghost t = before.transitions[transition_id].2;
            assert(serial_numbers@ == t.serial_numbers);
            assert(commitments@ == t.commitments);
            assert(cids@ == ciphertext_ids_of(t));

            // Remove the transition.
            self.transitions.remove(&transition_id);
            // Remove the serial numbers.
            remove_keys(&mut self.serial_numbers, &serial_numbers);
            // Remove the commitments.
            remove_keys(&mut self.commitments, &commitments);
            // Remove the ciphertext IDs.
            remove_keys(&mut self.ciphertext_ids, &cids);
            proof {
                assert(self@.transitions =~= before.transitions.remove(transition_id));
                assert(self@.transactions =~= before.transactions);
                assert(self@.events =~= before.events);
                assert(self@.serial_numbers == remove_all(before.serial_numbers, t.serial_numbers));
                assert(self@.commitments == remove_all(before.commitments, t.commitments));
                assert(self@.ciphertext_ids == remove_all(before.ciphertext_ids, ciphertext_ids_of(t)));
                assert(self@ =~= dropped_transition(before, transition_id));
                assert(before.transitions.contains_key(transition_id));
                assert(dropped_transitions(s0, tids.take(i + 1)) == (self@, None::<TransitionId>));
            }
            i = i + 1;
        }
        proof {
            assert(tids.take(i as int) =~= tids);
        }

        // Remove the transaction events.
        let ghost before = self@;
        self.events.remove(transaction_id);
        proof {
            assert(self@.events =~= before.events.remove(*transaction_id));
            assert(self@.transactions =~= before.transactions);
            assert(self@.transitions =~= before.transitions);
        }
        Ok(())
    }

    /// Returns the transaction metadata for a given transaction ID.
    pub fn get_transaction_metadata(&self, transaction_id: &TransactionId) -> (r: Result<Metadata, LedgerError>)
        requires
            self.wf(),
        ensures
            match r {
                Ok(m) => self@.transactions.contains_key(*transaction_id) && m == self@.transactions[*transaction_id].2,
                Err(e) => !self@.transactions.contains_key(*transaction_id) && e == LedgerError::TransactionNotFound(*transaction_id),
            },
    {
        match self.transactions.get(transaction_id) {
            Some(entry) => Ok(entry.2),
            None => Err(LedgerError::TransactionNotFound(*transaction_id)),
        }
    }
}

} // verus!
