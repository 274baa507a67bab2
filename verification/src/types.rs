use vstd::prelude::*;
use crate::digest::{BlockHash, CiphertextId, Commitment, Digest, LedgerRoot, SerialNumber, TransactionId, TransitionId};

verus! {

/// Where a transaction stands in the ledger: the block that holds it and its
/// position in that block.
#[derive(Clone, Copy, Debug, PartialEq, Eq, Structural)]
pub struct Metadata {
    pub block_height: u32,
    pub block_hash: BlockHash,
    pub block_timestamp: i64,
    pub transaction_index: u16,
}

impl Metadata {
    /// Initializes a new instance of `Metadata`.
    pub fn new(block_height: u32, block_hash: BlockHash, block_timestamp: i64, transaction_index: u16) -> (r: Metadata)
        ensures
            r == (Metadata { block_height, block_hash, block_timestamp, transaction_index }),
    {
        Metadata { block_height, block_hash, block_timestamp, transaction_index }
    }
}

/// The header of a block: what the ledger reads of it.
#[derive(Clone, Copy, Debug, PartialEq, Eq, Structural)]
pub struct BlockHeader {
    pub previous_ledger_root: LedgerRoot,
    pub transactions_root: Digest,
    pub height: u32,
    pub timestamp: i64,
    pub difficulty_target: u64,
    pub cumulative_weight: u128,
    pub nonce: Digest,
}

/// A record ciphertext with its ID.
#[derive(Clone, Debug)]
pub struct Ciphertext {
    pub id: CiphertextId,
    pub bytes: Vec<u8>,
}

impl View for Ciphertext {
    type V = (CiphertextId, Seq<u8>);

    open spec fn view(&self) -> (CiphertextId, Seq<u8>) {
        (self.id, self.bytes@)
    }
}

/// A transition: the records it spends (serial numbers) and creates
/// (commitments and ciphertexts).
#[derive(Clone, Debug)]
pub struct Transition {
    pub transition_id: TransitionId,
    pub serial_numbers: Vec<SerialNumber>,
    pub commitments: Vec<Commitment>,
    pub ciphertexts: Vec<Ciphertext>,
}

pub struct TransitionView {
    pub transition_id: TransitionId,
    pub serial_numbers: Seq<SerialNumber>,
    pub commitments: Seq<Commitment>,
    pub ciphertexts: Seq<(CiphertextId, Seq<u8>)>,
}

impl View for Transition {
    type V = TransitionView;

    open spec fn view(&self) -> TransitionView {
        TransitionView {
            transition_id: self.transition_id,
            serial_numbers: self.serial_numbers@,
            commitments: self.commitments@,
            ciphertexts: self.ciphertexts@.map_values(|c: Ciphertext| c@),
        }
    }
}

/// An event of a transaction, as bytes.
pub type Event = Vec<u8>;

/// A transaction: its ID, the ledger root it was made against, its
/// transitions and its events.
#[derive(Clone, Debug)]
pub struct Transaction {
    pub transaction_id: TransactionId,
    pub ledger_root: LedgerRoot,
    pub transitions: Vec<Transition>,
    pub events: Vec<Event>,
}

pub struct TransactionView {
    pub transaction_id: TransactionId,
    pub ledger_root: LedgerRoot,
    pub transitions: Seq<TransitionView>,
    pub events: Seq<Seq<u8>>,
}

/// The views of a sequence of transitions.
pub open spec fn transitions_view(s: Seq<Transition>) -> Seq<TransitionView> {
    s.map_values(|t: Transition| t@)
}

/// The views of a sequence of events.
pub open spec fn events_view(s: Seq<Event>) -> Seq<Seq<u8>> {
    s.map_values(|e: Event| e@)
}

/// The views of a sequence of transactions.
pub open spec fn transactions_view(s: Seq<Transaction>) -> Seq<TransactionView> {
    s.map_values(|t: Transaction| t@)
}

impl View for Transaction {
    type V = TransactionView;

    open spec fn view(&self) -> TransactionView {
        TransactionView {
            transaction_id: self.transaction_id,
            ledger_root: self.ledger_root,
            transitions: transitions_view(self.transitions@),
            events: events_view(self.events@),
        }
    }
}

/// A block: its hash, the hash of the block before it, its header and its
/// transactions.
#[derive(Clone, Debug)]
pub struct Block {
    pub block_hash: BlockHash,
    pub previous_block_hash: BlockHash,
    pub header: BlockHeader,
    pub transactions: Vec<Transaction>,
}

pub struct BlockView {
    pub block_hash: BlockHash,
    pub previous_block_hash: BlockHash,
    pub header: BlockHeader,
    pub transactions: Seq<TransactionView>,
}

impl View for Block {
    type V = BlockView;

    open spec fn view(&self) -> BlockView {
        BlockView {
            block_hash: self.block_hash,
            previous_block_hash: self.previous_block_hash,
            header: self.header,
            transactions: transactions_view(self.transactions@),
        }
    }
}

/// The views of a sequence of blocks.
pub open spec fn blocks_view(s: Seq<Block>) -> Seq<BlockView> {
    s.map_values(|b: Block| b@)
}

/// A copy of a sequence of digests.
pub fn copy_digests(v: &Vec<Digest>) -> (r: Vec<Digest>)
    ensures
        r@ == v@,
{
    let mut r: Vec<Digest> = Vec::new();
    let mut i: usize = 0;
    while i < v.len()
        invariant
            i <= v@.len(),
            r@ == v@.take(i as int),
        decreases v@.len() - i,
    {
        r.push(v[i]);
        i = i + 1;
        assert(r@ =~= v@.take(i as int));
    }
    assert(v@.take(v@.len() as int) =~= v@);
    r
}

/// A copy of a sequence of bytes.
pub fn copy_bytes(v: &Vec<u8>) -> (r: Vec<u8>)
    ensures
        r@ == v@,
{
    let mut r: Vec<u8> = Vec::new();
    let mut i: usize = 0;
    while i < v.len()
        invariant
            i <= v@.len(),
            r@ == v@.take(i as int),
        decreases v@.len() - i,
    {
        r.push(v[i]);
        i = i + 1;
        assert(r@ =~= v@.take(i as int));
    }
    assert(v@.take(v@.len() as int) =~= v@);
    r
}

/// A copy of a sequence of events.
pub fn copy_events(v: &Vec<Event>) -> (r: Vec<Event>)
    ensures
        events_view(r@) == events_view(v@),
{
    let mut r: Vec<Event> = Vec::new();
    let mut i: usize = 0;
    while i < v.len()
        invariant
            i <= v@.len(),
            r@.len() == i,
            forall|k: int| 0 <= k < i ==> #[trigger] r@[k]@ == v@[k]@,
        decreases v@.len() - i,
    {
        r.push(copy_bytes(&v[i]));
        i = i + 1;
    }
    assert(events_view(r@) =~= events_view(v@));
    r
}

impl Ciphertext {
    /// A copy of this ciphertext.
    pub fn duplicate(&self) -> (r: Ciphertext)
        ensures
            r@ == self@,
    {
        Ciphertext { id: self.id, bytes: copy_bytes(&self.bytes) }
    }
}

impl Transition {
    /// A copy of this transition.
    pub fn duplicate(&self) -> (r: Transition)
        ensures
            r@ == self@,
    {
        let mut ciphertexts: Vec<Ciphertext> = Vec::new();
        let mut i: usize = 0;
        while i < self.ciphertexts.len()
            invariant
                i <= self.ciphertexts@.len(),
                ciphertexts@.len() == i,
                forall|k: int| 0 <= k < i ==> #[trigger] ciphertexts@[k]@ == self.ciphertexts@[k]@,
            decreases self.ciphertexts@.len() - i,
        {
            ciphertexts.push(self.ciphertexts[i].duplicate());
            i = i + 1;
        }
        assert(ciphertexts@.map_values(|c: Ciphertext| c@) =~= self.ciphertexts@.map_values(|c: Ciphertext| c@));
        Transition {
            transition_id: self.transition_id,
            serial_numbers: copy_digests(&self.serial_numbers),
            commitments: copy_digests(&self.commitments),
            ciphertexts,
        }
    }
}

/// A copy of a sequence of transitions.
pub fn copy_transitions(v: &Vec<Transition>) -> (r: Vec<Transition>)
    ensures
        transitions_view(r@) == transitions_view(v@),
{
    let mut r: Vec<Transition> = Vec::new();
    let mut i: usize = 0;
    while i < v.len()
        invariant
            i <= v@.len(),
            r@.len() == i,
            forall|k: int| 0 <= k < i ==> #[trigger] r@[k]@ == v@[k]@,
        decreases v@.len() - i,
    {
        r.push(v[i].duplicate());
        i = i + 1;
    }
    assert(transitions_view(r@) =~= transitions_view(v@));
    r
}

impl Transaction {
    /// A copy of this transaction.
    pub fn duplicate(&self) -> (r: Transaction)
        ensures
            r@ == self@,
    {
        Transaction {
            transaction_id: self.transaction_id,
            ledger_root: self.ledger_root,
            transitions: copy_transitions(&self.transitions),
            events: copy_events(&self.events),
        }
    }
}

/// A copy of a sequence of transactions.
pub fn copy_transactions(v: &Vec<Transaction>) -> (r: Vec<Transaction>)
    ensures
        transactions_view(r@) == transactions_view(v@),
{
    let mut r: Vec<Transaction> = Vec::new();
    let mut i: usize = 0;
    while i < v.len()
        invariant
            i <= v@.len(),
            r@.len() == i,
            forall|k: int| 0 <= k < i ==> #[trigger] r@[k]@ == v@[k]@,
        decreases v@.len() - i,
    {
        r.push(v[i].duplicate());
        i = i + 1;
    }
    assert(transactions_view(r@) =~= transactions_view(v@));
    r
}

impl Block {
    /// A copy of this block.
    pub fn duplicate(&self) -> (r: Block)
        ensures
            r@ == self@,
    {
        Block {
            block_hash: self.block_hash,
            previous_block_hash: self.previous_block_hash,
            header: self.header,
            transactions: copy_transactions(&self.transactions),
        }
    }
}

} // verus!
