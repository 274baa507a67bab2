use vstd::prelude::*;
use crate::data_map::DataMap;
use crate::digest::{BlockHash, CiphertextId, Commitment, LedgerRoot, SerialNumber, TransactionId, TransitionId};
use crate::error::LedgerError;
use crate::transaction_state::{
    ciphertext_lookup, removed_transaction, stored_transaction, transaction_lookup, TransactionState,
    TransactionStateView,
};
use crate::types::{
    copy_digests, transactions_view, Block, BlockHeader, BlockView, Metadata, Transaction, TransactionView, Transition,
    TransitionView,
};

verus! {

/// The blocks of the ledger: the hash at each height, the header and the
/// transaction IDs of each block hash, and the transactions.
pub struct BlockState {
    block_heights: DataMap<u32, BlockHash>,
    block_headers: DataMap<BlockHash, BlockHeader>,
    block_transactions: DataMap<BlockHash, Vec<TransactionId>>,
    transactions: TransactionState,
    genesis_previous_block_hash: BlockHash,
}

/// The contents of a `BlockState`.
#[verifier::ext_equal]
pub struct BlockStateView {
    pub block_heights: Map<u32, BlockHash>,
    pub block_headers: Map<BlockHash, BlockHeader>,
    pub block_transactions: Map<BlockHash, Seq<TransactionId>>,
    pub transactions: TransactionStateView,
    /// The previous block hash that the genesis block names.
    pub genesis_previous_block_hash: BlockHash,
}

impl View for BlockState {
    type V = BlockStateView;

    closed spec fn view(&self) -> BlockStateView {
        BlockStateView {
            block_heights: self.block_heights@,
            block_headers: self.block_headers@,
            block_transactions: self.block_transactions@.map_values(|ids: Vec<TransactionId>| ids@),
            transactions: self.transactions@,
            genesis_previous_block_hash: self.genesis_previous_block_hash,
        }
    }
}

/// The hash of the block at height `h`.
pub open spec fn block_hash_lookup(s: BlockStateView, h: u32) -> Result<BlockHash, LedgerError> {
    if s.block_heights.contains_key(h) {
        Ok(s.block_heights[h])
    } else {
        Err(LedgerError::BlockHeightNotFound(h))
    }
}

/// The hash of the block before height `h`: for height 0, the one that the
/// genesis block names.
pub open spec fn previous_block_hash_lookup(s: BlockStateView, h: u32) -> Result<BlockHash, LedgerError> {
    if h == 0 {
        Ok(s.genesis_previous_block_hash)
    } else {
        block_hash_lookup(s, (h - 1) as u32)
    }
}

/// The header of the block at height `h`.
pub open spec fn block_header_lookup(s: BlockStateView, h: u32) -> Result<BlockHeader, LedgerError> {
    match block_hash_lookup(s, h) {
        Err(e) => Err(e),
        Ok(hash) => if s.block_headers.contains_key(hash) {
            Ok(s.block_headers[hash])
        } else {
            Err(LedgerError::BlockHeaderNotFound(hash))
        },
    }
}

/// The first error among the lookups of the given transactions.
pub open spec fn first_transaction_error(t: TransactionStateView, ids: Seq<TransactionId>) -> Option<LedgerError>
    decreases ids.len(),
{
    if ids.len() == 0 {
        None
    } else {
        match transaction_lookup(t, ids[0]) {
            Err(e) => Some(e),
            Ok(_) => first_transaction_error(t, ids.drop_first()),
        }
    }
}

/// The transactions of the block at height `h`, reassembled from storage.
pub open spec fn block_transactions_lookup(s: BlockStateView, h: u32) -> Result<Seq<TransactionView>, LedgerError> {
    match block_hash_lookup(s, h) {
        Err(e) => Err(e),
        Ok(hash) => if !s.block_transactions.contains_key(hash) {
            Err(LedgerError::BlockTransactionsNotFound(hash))
        } else {
            let ids = s.block_transactions[hash];
            match first_transaction_error(s.transactions, ids) {
                Some(e) => Err(e),
                None => Ok(ids.map_values(|id: TransactionId| transaction_lookup(s.transactions, id)->Ok_0)),
            }
        },
    }
}

/// The block at height `h`, reassembled from storage.
pub open spec fn block_lookup(s: BlockStateView, h: u32) -> Result<BlockView, LedgerError> {
    match previous_block_hash_lookup(s, h) {
        Err(e) => Err(e),
        Ok(previous_block_hash) => match block_header_lookup(s, h) {
            Err(e) => Err(e),
            Ok(header) => match block_transactions_lookup(s, h) {
                Err(e) => Err(e),
                Ok(transactions) => Ok(BlockView {
                    block_hash: s.block_heights[h],
                    previous_block_hash,
                    header,
                    transactions,
                }),
            },
        },
    }
}

/// The metadata of the transaction at `index` of a block.
pub open spec fn metadata_at(b: BlockView, index: int) -> Metadata {
    Metadata {
        block_height: b.header.height,
        block_hash: b.block_hash,
        block_timestamp: b.header.timestamp,
        transaction_index: index as u16,
    }
}

/// Stores the transactions of block `b` one after the other; stops at the
/// first one whose ID is already stored (then also returned).
pub open spec fn stored_transactions(t: TransactionStateView, b: BlockView, n: nat) -> (TransactionStateView, Option<TransactionId>)
    decreases n,
{
    if n == 0 {
        (t, None)
    } else {
        let (t1, dup) = stored_transactions(t, b, (n - 1) as nat);
        let tx = b.transactions[n - 1];
        if dup is Some {
            (t1, dup)
        } else if t1.transactions.contains_key(tx.transaction_id) {
            (t1, Some(tx.transaction_id))
        } else {
            (stored_transaction(t1, tx, metadata_at(b, n - 1)), None)
        }
    }
}

/// What adding block `b` leaves, and whether it succeeds.
pub open spec fn added_block(s: BlockStateView, b: BlockView) -> (BlockStateView, Result<(), LedgerError>) {
    let h = b.header.height;
    if s.block_heights.contains_key(h) {
        (s, Err(LedgerError::BlockExists(h)))
    } else {
        let (t, dup) = stored_transactions(s.transactions, b, b.transactions.len());
        let s1 = BlockStateView {
            block_heights: s.block_heights.insert(h, b.block_hash),
            block_headers: s.block_headers.insert(b.block_hash, b.header),
            block_transactions: s.block_transactions.insert(
                b.block_hash,
                b.transactions.map_values(|tx: TransactionView| tx.transaction_id),
            ),
            transactions: t,
            ..s
        };
        match dup {
            Some(id) => (s1, Err(LedgerError::TransactionExists(id))),
            None => (s1, Ok(())),
        }
    }
}

/// Removes the given transactions one after the other; stops at the first
/// failure (then also returned).
pub open spec fn removed_transactions(t: TransactionStateView, ids: Seq<TransactionId>) -> (TransactionStateView, Result<(), LedgerError>)
    decreases ids.len(),
{
    if ids.len() == 0 {
        (t, Ok(()))
    } else {
        let (t1, r) = removed_transactions(t, ids.drop_last());
        if r is Err {
            (t1, r)
        } else {
            removed_transaction(t1, ids.last())
        }
    }
}

/// What removing the block at height `h` leaves, and whether it succeeds.
pub open spec fn removed_block(s: BlockStateView, h: u32) -> (BlockStateView, Result<(), LedgerError>) {
    if h == 0 {
        (s, Err(LedgerError::GenesisRemoval))
    } else if !s.block_heights.contains_key(h) {
        (s, Err(LedgerError::BlockHeightNotFound(h)))
    } else {
        let hash = s.block_heights[h];
        if !s.block_headers.contains_key(hash) {
            (s, Err(LedgerError::BlockHeaderNotFound(hash)))
        } else if !s.block_transactions.contains_key(hash) {
            (s, Err(LedgerError::BlockTransactionsNotFound(hash)))
        } else {
            let (t, r) = removed_transactions(s.transactions, s.block_transactions[hash]);
            (
                BlockStateView {
                    block_heights: s.block_heights.remove(s.block_headers[hash].height),
                    block_headers: s.block_headers.remove(hash),
                    block_transactions: s.block_transactions.remove(hash),
                    transactions: t,
                    ..s
                },
                r,
            )
        }
    }
}

/// The IDs of the transactions of a block.
fn transaction_ids_of_block(block: &Block) -> (r: Vec<TransactionId>)
    ensures
        r@ == block@.transactions.map_values(|tx: TransactionView| tx.transaction_id),
{
    let mut r: Vec<TransactionId> = Vec::new();
    let mut j: usize = 0;
    while j < block.transactions.len()
        invariant
            j <= block.transactions@.len(),
            r@.len() == j,
            forall|k: int| 0 <= k < j ==> #[trigger] r@[k] == block.transactions@[k].transaction_id,
        decreases block.transactions@.len() - j,
    {
        r.push(block.transactions[j].transaction_id);
        j = j + 1;
    }
    assert(r@ =~= block@.transactions.map_values(|tx: TransactionView| tx.transaction_id));
    r
}

proof fn lemma_stored_stops(t: TransactionStateView, b: BlockView, n: nat, k: nat)
    requires
        k <= n,
        stored_transactions(t, b, k).1 is Some,
    ensures
        stored_transactions(t, b, n) == stored_transactions(t, b, k),
    decreases n,
{
    if n > k {
        lemma_stored_stops(t, b, (n - 1) as nat, k);
    }
}

proof fn lemma_removed_stops(t: TransactionStateView, ids: Seq<TransactionId>, k: int)
    requires
        0 <= k <= ids.len(),
        removed_transactions(t, ids.take(k)).1 is Err,
    ensures
        removed_transactions(t, ids) == removed_transactions(t, ids.take(k)),
    decreases ids.len(),
{
    if k == ids.len() {
        assert(ids.take(k) =~= ids);
    } else {
        assert(ids.drop_last().take(k) =~= ids.take(k));
        lemma_removed_stops(t, ids.drop_last(), k);
    }
}

proof fn lemma_first_transaction_error(t: TransactionStateView, ids: Seq<TransactionId>, k: int)
    requires
        0 <= k <= ids.len(),
        forall|i: int| 0 <= i < k ==> #[trigger] transaction_lookup(t, ids[i]) is Ok,
    ensures
        first_transaction_error(t, ids) == first_transaction_error(t, ids.skip(k)),
    decreases k,
{
    if k > 0 {
        assert(transaction_lookup(t, ids[0]) is Ok);
        lemma_first_transaction_error(t, ids.drop_first(), k - 1);
        assert(ids.drop_first().skip(k - 1) =~= ids.skip(k));
    } else {
        assert(ids.skip(0) =~= ids);
    }
}

impl BlockState {
    /// The state's internal invariant: each of its maps is well formed.
    pub closed spec fn wf(&self) -> bool {
        &&& self.block_heights.wf()
        &&& self.block_headers.wf()
        &&& self.block_transactions.wf()
        &&& self.transactions.wf()
    }

    /// Initializes an empty instance of `BlockState` for a network whose
    /// genesis block names `genesis_previous_block_hash` as its previous block.
    pub fn new(genesis_previous_block_hash: BlockHash) -> (r: BlockState)
        ensures
            r.wf(),
            r@.block_heights == Map::<u32, BlockHash>::empty(),
            r@.block_headers == Map::<BlockHash, BlockHeader>::empty(),
            r@.block_transactions == Map::<BlockHash, Seq<TransactionId>>::empty(),
            r@.transactions.transactions == Map::<TransactionId, (LedgerRoot, Seq<TransitionId>, Metadata)>::empty(),
            r@.transactions.transitions == Map::<TransitionId, (TransactionId, u8, TransitionView)>::empty(),
            r@.transactions.serial_numbers == Map::<SerialNumber, TransitionId>::empty(),
            r@.transactions.commitments == Map::<Commitment, TransitionId>::empty(),
            r@.transactions.ciphertext_ids == Map::<CiphertextId, TransitionId>::empty(),
            r@.transactions.events == Map::<TransactionId, Seq<Seq<u8>>>::empty(),
            r@.genesis_previous_block_hash == genesis_previous_block_hash,
    {
        let r = BlockState {
            block_heights: DataMap::new(),
            block_headers: DataMap::new(),
            block_transactions: DataMap::new(),
            transactions: TransactionState::new(),
            genesis_previous_block_hash,
        };
        assert(r@.block_transactions =~= Map::empty());
        r
    }

    /// Returns `true` if the given block height exists in storage.
    pub fn contains_block_height(&self, block_height: u32) -> (r: bool)
        requires
            self.wf(),
        ensures
            r == self@.block_heights.contains_key(block_height),
    {
        self.block_heights.contains_key(&block_height)
    }

    /// Returns `true` if the given block hash exists in storage.
    pub fn contains_block_hash(&self, block_hash: &BlockHash) -> (r: bool)
        requires
            self.wf(),
        ensures
            r == self@.block_headers.contains_key(*block_hash),
    {
        self.block_headers.contains_key(block_hash)
    }

    /// Returns `true` if the given transaction ID exists in storage.
    pub fn contains_transaction(&self, transaction_id: &TransactionId) -> (r: bool)
        requires
            self.wf(),
        ensures
            r == self@.transactions.transactions.contains_key(*transaction_id),
    {
        self.transactions.contains_transaction(transaction_id)
    }

    /// Returns `true` if the given serial number exists in storage.
    pub fn contains_serial_number(&self, serial_number: &SerialNumber) -> (r: bool)
        requires
            self.wf(),
        ensures
            r == self@.transactions.serial_numbers.contains_key(*serial_number),
    {
        self.transactions.contains_serial_number(serial_number)
    }

    /// Returns `true` if the given commitment exists in storage.
    pub fn contains_commitment(&self, commitment: &Commitment) -> (r: bool)
        requires
            self.wf(),
        ensures
            r == self@.transactions.commitments.contains_key(*commitment),
    {
        self.transactions.contains_commitment(commitment)
    }

    /// Returns `true` if the given ciphertext ID exists in storage.
    pub fn contains_ciphertext_id(&self, ciphertext_id: &CiphertextId) -> (r: bool)
        requires
            self.wf(),
        ensures
            r == self@.transactions.ciphertext_ids.contains_key(*ciphertext_id),
    {
        self.transactions.contains_ciphertext_id(ciphertext_id)
    }

    /// The stored transactions.
    pub fn transaction_state(&self) -> (r: &TransactionState)
        requires
            self.wf(),
        ensures
            r.wf(),
            r@ == self@.transactions,
    {
        &self.transactions
    }

    /// Returns the record ciphertext for a given ciphertext ID.
    pub fn get_ciphertext(&self, ciphertext_id: &CiphertextId) -> (r: Result<Vec<u8>, LedgerError>)
        requires
            self.wf(),
        ensures
            match r {
                Ok(bytes) => ciphertext_lookup(self@.transactions, *ciphertext_id) == Ok::<Seq<u8>, LedgerError>(bytes@),
                Err(e) => ciphertext_lookup(self@.transactions, *ciphertext_id) == Err::<Seq<u8>, LedgerError>(e),
            },
    {
        self.transactions.get_ciphertext(ciphertext_id)
    }

    /// Returns the transition for a given transition ID.
    pub fn get_transition(&self, transition_id: &TransitionId) -> (r: Result<Transition, LedgerError>)
        requires
            self.wf(),
        ensures
            match r {
                Ok(t) => self@.transactions.transitions.contains_key(*transition_id)
                    && t@ == self@.transactions.transitions[*transition_id].2,
                Err(e) => !self@.transactions.transitions.contains_key(*transition_id)
                    && e == LedgerError::TransitionNotFound(*transition_id),
            },
    {
        self.transactions.get_transition(transition_id)
    }

    /// Returns the transaction for a given transaction ID.
    pub fn get_transaction(&self, transaction_id: &TransactionId) -> (r: Result<Transaction, LedgerError>)
        requires
            self.wf(),
        ensures
            match r {
                Ok(tx) => transaction_lookup(self@.transactions, *transaction_id) == Ok::<TransactionView, LedgerError>(tx@),
                Err(e) => transaction_lookup(self@.transactions, *transaction_id) == Err::<TransactionView, LedgerError>(e),
            },
    {
        self.transactions.get_transaction(transaction_id)
    }

    /// Returns the transaction metadata for a given transaction ID.
    pub fn get_transaction_metadata(&self, transaction_id: &TransactionId) -> (r: Result<Metadata, LedgerError>)
        requires
            self.wf(),
        ensures
            match r {
                Ok(m) => self@.transactions.transactions.contains_key(*transaction_id)
                    && m == self@.transactions.transactions[*transaction_id].2,
                Err(e) => !self@.transactions.transactions.contains_key(*transaction_id)
                    && e == LedgerError::TransactionNotFound(*transaction_id),
            },
    {
        self.transactions.get_transaction_metadata(transaction_id)
    }

    /// Returns the block height for the given block hash.
    pub fn get_block_height(&self, block_hash: &BlockHash) -> (r: Result<u32, LedgerError>)
        requires
            self.wf(),
        ensures
            match r {
                Ok(h) => self@.block_headers.contains_key(*block_hash) && h == self@.block_headers[*block_hash].height,
                Err(e) => !self@.block_headers.contains_key(*block_hash) && e == LedgerError::BlockHeaderNotFound(*block_hash),
            },
    {
        match self.block_headers.get(block_hash) {
            Some(block_header) => Ok(block_header.height),
            None => Err(LedgerError::BlockHeaderNotFound(*block_hash)),
        }
    }

    /// The header stored for a block hash, if any.
    pub fn get_block_header_by_hash(&self, block_hash: &BlockHash) -> (r: Option<BlockHeader>)
        requires
            self.wf(),
        ensures
            r == (if self@.block_headers.contains_key(*block_hash) {
                Some(self@.block_headers[*block_hash])
            } else {
                None
            }),
    {
        match self.block_headers.get(block_hash) {
            Some(header) => Some(*header),
            None => None,
        }
    }

    /// Returns the block hash for the given block height.
    pub fn get_block_hash(&self, block_height: u32) -> (r: Result<BlockHash, LedgerError>)
        requires
            self.wf(),
        ensures
            r == block_hash_lookup(self@, block_height),
    {
        match self.block_heights.get(&block_height) {
            Some(block_hash) => Ok(*block_hash),
            None => Err(LedgerError::BlockHeightNotFound(block_height)),
        }
    }

    /// Returns the block hashes from the given `start_block_height` to `end_block_height` (inclusive).
    pub fn get_block_hashes(&self, start_block_height: u32, end_block_height: u32) -> (r: Result<Vec<BlockHash>, LedgerError>)
        requires
            self.wf(),
        ensures
            match r {
                Ok(hashes) => start_block_height <= end_block_height
                    && hashes@.len() == end_block_height - start_block_height + 1
                    && forall|i: int| 0 <= i < hashes@.len() ==>
                        block_hash_lookup(self@, (start_block_height + i) as u32) == Ok::<BlockHash, LedgerError>(#[trigger] hashes@[i]),
                Err(e) => if start_block_height > end_block_height {
                    e == LedgerError::InvalidHeightRange(start_block_height, end_block_height)
                } else {
                    exists|h: u32| start_block_height <= h <= end_block_height
                        && block_hash_lookup(self@, h) == Err::<BlockHash, LedgerError>(e)
                        && forall|g: u32| start_block_height <= g < h ==> #[trigger] block_hash_lookup(self@, g) is Ok
                },
            },
    {
        // Ensure the starting block height is less than the ending block height.
        if start_block_height > end_block_height {
            return Err(LedgerError::InvalidHeightRange(start_block_height, end_block_height));
        }
        let mut hashes: Vec<BlockHash> = Vec::new();
        let mut height = start_block_height;
        loop
            invariant
                self.wf(),
                start_block_height <= height <= end_block_height,
                hashes@.len() == height - start_block_height,
                forall|i: int| 0 <= i < hashes@.len() ==>
                    block_hash_lookup(self@, (start_block_height + i) as u32) == Ok::<BlockHash, LedgerError>(#[trigger] hashes@[i]),
                forall|g: u32| start_block_height <= g < height ==> #[trigger] block_hash_lookup(self@, g) is Ok,
            decreases end_block_height - height,
        {
            match self.get_block_hash(height) {
                Ok(hash) => hashes.push(hash),
                Err(e) => return Err(e),
            }
            if height == end_block_height {
                return Ok(hashes);
            }
            height = height + 1;
        }
    }

    /// Returns the previous block hash for the given block height.
    pub fn get_previous_block_hash(&self, block_height: u32) -> (r: Result<BlockHash, LedgerError>)
        requires
            self.wf(),
        ensures
            r == previous_block_hash_lookup(self@, block_height),
    {
        if block_height == 0 {
            Ok(self.genesis_previous_block_hash)
        } else {
            match self.block_heights.get(&(block_height - 1)) {
                Some(block_hash) => Ok(*block_hash),
                None => Err(LedgerError::BlockHeightNotFound(block_height - 1)),
            }
        }
    }

    /// Returns the block header for the given block height.
    pub fn get_block_header(&self, block_height: u32) -> (r: Result<BlockHeader, LedgerError>)
        requires
            self.wf(),
        ensures
            r == block_header_lookup(self@, block_height),
    {
        // Retrieve the block hash.
        let block_hash = match self.get_block_hash(block_height) {
            Ok(h) => h,
            Err(e) => return Err(e),
        };
        match self.block_headers.get(&block_hash) {
            Some(block_header) => Ok(*block_header),
            None => Err(LedgerError::BlockHeaderNotFound(block_hash)),
        }
    }

    /// Returns the transactions from the block of the given block height.
    pub fn get_block_transactions(&self, block_height: u32) -> (r: Result<Vec<Transaction>, LedgerError>)
        requires
            self.wf(),
        ensures
            match r {
                Ok(txs) => block_transactions_lookup(self@, block_height)
                    == Ok::<Seq<TransactionView>, LedgerError>(transactions_view(txs@)),
                Err(e) => block_transactions_lookup(self@, block_height) == Err::<Seq<TransactionView>, LedgerError>(e),
            },
    {
        // Retrieve the block hash.
        let block_hash = match self.get_block_hash(block_height) {
            Ok(h) => h,
            Err(e) => return Err(e),
        };
        // Retrieve the block transaction IDs.
        let transaction_ids = match self.block_transactions.get(&block_hash) {
            Some(ids) => ids,
            None => return Err(LedgerError::BlockTransactionsNotFound(block_hash)),
        };
        let ghost ids = transaction_ids@;
        let ghost t = self@.transactions;
        assert(ids == self@.block_transactions[block_hash]);

        // Retrieve the block transactions.
        let mut transactions: Vec<Transaction> = Vec::new();
        let mut j: usize = 0;
        while j < transaction_ids.len()
            invariant
                self.wf(),
                j <= ids.len(),
                ids == transaction_ids@,
                t == self@.transactions,
                block_hash_lookup(self@, block_height) == Ok::<BlockHash, LedgerError>(block_hash),
                self@.block_transactions.contains_key(block_hash),
                ids == self@.block_transactions[block_hash],
                transactions@.len() == j,
                forall|k: int| 0 <= k < j ==> #[trigger] transaction_lookup(t, ids[k]) is Ok,
                forall|k: int| 0 <= k < j ==> transaction_lookup(t, ids[k]) == Ok::<TransactionView, LedgerError>(#[trigger] transactions@[k]@),
            decreases ids.len() - j,
        {
            match self.transactions.get_transaction(&transaction_ids[j]) {
                Ok(tx) => transactions.push(tx),
                Err(e) => {
                    proof {
                        lemma_first_transaction_error(t, ids, j as int);
                        assert(ids.skip(j as int)[0] == ids[j as int]);
                    }
                    return Err(e);
                },
            }
            j = j + 1;
        }
        proof {
            lemma_first_transaction_error(t, ids, j as int);
            assert(ids.skip(j as int).len() == 0);
            assert(transactions_view(transactions@) =~= ids.map_values(|id: TransactionId| transaction_lookup(t, id)->Ok_0));
        }
        Ok(transactions)
    }

    /// Returns the block for a given block height.
    pub fn get_block(&self, block_height: u32) -> (r: Result<Block, LedgerError>)
        requires
            self.wf(),
        ensures
            match r {
                Ok(b) => block_lookup(self@, block_height) == Ok::<BlockView, LedgerError>(b@),
                Err(e) => block_lookup(self@, block_height) == Err::<BlockView, LedgerError>(e),
            },
    {
        // Retrieve the previous block hash.
        let previous_block_hash = match self.get_previous_block_hash(block_height) {
            Ok(h) => h,
            Err(e) => return Err(e),
        };
        // Retrieve the block header.
        let header = match self.get_block_header(block_height) {
            Ok(h) => h,
            Err(e) => return Err(e),
        };
        // Retrieve the block transactions.
        let transactions = match self.get_block_transactions(block_height) {
            Ok(t) => t,
            Err(e) => return Err(e),
        };
        let block_hash = match self.block_heights.get(&block_height) {
            Some(h) => *h,
            None => return Err(LedgerError::BlockHeightNotFound(block_height)),
        };
        Ok(Block { block_hash, previous_block_hash, header, transactions })
    }

    /// Returns the blocks from the given `start_block_height` to `end_block_height` (inclusive).
    pub fn get_blocks(&self, start_block_height: u32, end_block_height: u32) -> (r: Result<Vec<Block>, LedgerError>)
        requires
            self.wf(),
        ensures
            match r {
                Ok(blocks) => start_block_height <= end_block_height
                    && blocks@.len() == end_block_height - start_block_height + 1
                    && forall|i: int| 0 <= i < blocks@.len() ==>
                        block_lookup(self@, (start_block_height + i) as u32) == Ok::<BlockView, LedgerError>(#[trigger] blocks@[i]@),
                Err(e) => if start_block_height > end_block_height {
                    e == LedgerError::InvalidHeightRange(start_block_height, end_block_height)
                } else {
                    exists|h: u32| start_block_height <= h <= end_block_height
                        && block_lookup(self@, h) == Err::<BlockView, LedgerError>(e)
                        && forall|g: u32| start_block_height <= g < h ==> #[trigger] block_lookup(self@, g) is Ok
                },
            },
    {
        // Ensure the starting block height is less than the ending block height.
        if start_block_height > end_block_height {
            return Err(LedgerError::InvalidHeightRange(start_block_height, end_block_height));
        }
        let mut blocks: Vec<Block> = Vec::new();
        let mut height = start_block_height;
        loop
            invariant
                self.wf(),
                start_block_height <= height <= end_block_height,
                blocks@.len() == height - start_block_height,
                forall|i: int| 0 <= i < blocks@.len() ==>
                    block_lookup(self@, (start_block_height + i) as u32) == Ok::<BlockView, LedgerError>(#[trigger] blocks@[i]@),
                forall|g: u32| start_block_height <= g < height ==> #[trigger] block_lookup(self@, g) is Ok,
            decreases end_block_height - height,
        {
            match self.get_block(height) {
                Ok(b) => blocks.push(b),
                Err(e) => return Err(e),
            }
            if height == end_block_height {
                return Ok(blocks);
            }
            height = height + 1;
        }
    }

    /// Adds the given block to storage.
    pub fn add_block(&mut self, block: &Block) -> (r: Result<(), LedgerError>)
        requires
            old(self).wf(),
        ensures
            final(self).wf(),
            (final(self)@, r) == added_block(old(self)@, block@),
    {
        // Ensure the block does not exist.
        let block_height = block.header.height;
        if self.block_heights.contains_key(&block_height) {
            return Err(LedgerError::BlockExists(block_height));
        }
        let ghost s = self@;
        let ghost b = block@;
        let block_hash = block.block_hash;
        let transaction_ids = transaction_ids_of_block(block);

        // Insert the block height.
        self.block_heights.insert(block_height, block_hash);
        // Insert the block header.
        self.block_headers.insert(block_hash, block.header);
        // Insert the block transactions.
        self.block_transactions.insert(block_hash, transaction_ids);
        let ghost s1 = BlockStateView {
            block_heights: s.block_heights.insert(block_height, block_hash),
            block_headers: s.block_headers.insert(block_hash, block.header),
            block_transactions: s.block_transactions.insert(
                block_hash,
                b.transactions.map_values(|tx: TransactionView| tx.transaction_id),
            ),
            ..s
        };
        proof {
            assert(self@.block_transactions =~= s1.block_transactions);
            assert(self@ =~= s1);
        }

        // Insert the transactions.
        let mut i: usize = 0;
        while i < block.transactions.len()
            invariant
                self.wf(),
                i <= block.transactions@.len(),
                b == block@,
                s == old(self)@,
                !s.block_heights.contains_key(block_height),
                s1 == (BlockStateView {
                    block_heights: s.block_heights.insert(block_height, block_hash),
                    block_headers: s.block_headers.insert(block_hash, block.header),
                    block_transactions: s.block_transactions.insert(
                        block_hash,
                        b.transactions.map_values(|tx: TransactionView| tx.transaction_id),
                    ),
                    ..s
                }),
                block_height == block.header.height,
                block_hash == block.block_hash,
                self@ == (BlockStateView { transactions: self@.transactions, ..s1 }),
                stored_transactions(s.transactions, b, i as nat) == (self@.transactions, None::<TransactionId>),
            decreases block.transactions@.len() - i,
        {
            let transaction = &block.transactions[i];
            let metadata = Metadata::new(block_height, block_hash, block.header.timestamp, #[verifier::truncate] (i as u16));
            let ghost before = self@;
            match self.transactions.add_transaction(transaction, metadata) {
                Ok(()) => {},
                Err(e) => {
                    proof {
                        assert(b.transactions[i as int] == transaction@);
                        assert(stored_transactions(s.transactions, b, (i + 1) as nat)
                            == (self@.transactions, Some(transaction.transaction_id)));
                        lemma_stored_stops(s.transactions, b, b.transactions.len(), (i + 1) as nat);
                        assert(self@ =~= (BlockStateView { transactions: self@.transactions, ..s1 }));
                    }
                    return Err(e);
                },
            }
            proof {
                assert(b.transactions[i as int] == transaction@);
                assert(metadata == metadata_at(b, i as int));
                assert(self@ =~= (BlockStateView { transactions: self@.transactions, ..s1 }));
            }
            i = i + 1;
        }
        proof {
            assert(self@ =~= (BlockStateView { transactions: self@.transactions, ..s1 }));
        }
        Ok(())
    }

    /// Removes the given block height from storage.
    pub fn remove_block(&mut self, block_height: u32) -> (r: Result<(), LedgerError>)
        requires
            old(self).wf(),
        ensures
            final(self).wf(),
            (final(self)@, r) == removed_block(old(self)@, block_height),
    {
        // Ensure the block height is not the genesis block.
        if block_height == 0 {
            return Err(LedgerError::GenesisRemoval);
        }
        // Ensure the block at the given block height exists.
        let block_hash = match self.block_heights.get(&block_height) {
            Some(h) => *h,
            None => return Err(LedgerError::BlockHeightNotFound(block_height)),
        };
        // Retrieve the block header.
        let header_height = match self.block_headers.get(&block_hash) {
            Some(header) => header.height,
            None => return Err(LedgerError::BlockHeaderNotFound(block_hash)),
        };
        // Retrieve the block transaction IDs.
        let transaction_ids = match self.block_transactions.get(&block_hash) {
            Some(ids) => copy_digests(ids),
            None => return Err(LedgerError::BlockTransactionsNotFound(block_hash)),
        };
        let ghost s = self@;
        let ghost ids = transaction_ids@;
        assert(ids == s.block_transactions[block_hash]);

        // Remove the block height.
        self.block_heights.remove(&header_height);
        // Remove the block header.
        self.block_headers.remove(&block_hash);
        // Remove the block transactions.
        self.block_transactions.remove(&block_hash);
        let ghost s1 = BlockStateView {
            block_heights: s.block_heights.remove(header_height),
            block_headers: s.block_headers.remove(block_hash),
            block_transactions: s.block_transactions.remove(block_hash),
            ..s
        };
        proof {
            assert(self@.block_transactions =~= s1.block_transactions);
            assert(self@ =~= s1);
            assert(ids.take(0) =~= Seq::<TransactionId>::empty());
        }

        // Remove the transactions.
        let mut i: usize = 0;
        while i < transaction_ids.len()
            invariant
                self.wf(),
                i <= ids.len(),
                ids == transaction_ids@,
                s == old(self)@,
                block_height != 0,
                s.block_heights.contains_key(block_height),
                block_hash == s.block_heights[block_height],
                s.block_headers.contains_key(block_hash),
                header_height == s.block_headers[block_hash].height,
                s.block_transactions.contains_key(block_hash),
                ids == s.block_transactions[block_hash],
                s1 == (BlockStateView {
                    block_heights: s.block_heights.remove(header_height),
                    block_headers: s.block_headers.remove(block_hash),
                    block_transactions: s.block_transactions.remove(block_hash),
                    ..s
                }),
                self@ == (BlockStateView { transactions: self@.transactions, ..s1 }),
                removed_transactions(s.transactions, ids.take(i as int)) == (self@.transactions, Ok::<(), LedgerError>(())),
            decreases ids.len() - i,
        {
            proof {
                assert(ids.take(i + 1).drop_last() =~= ids.take(i as int));
                assert(ids.take(i + 1).last() == ids[i as int]);
            }
            let ghost before = self@.transactions;
            let r = self.transactions.remove_transaction(&transaction_ids[i]);
            proof {
                assert(removed_transactions(s.transactions, ids.take(i + 1)) == removed_transaction(before, ids[i as int]));
                assert(self@ =~= (BlockStateView { transactions: self@.transactions, ..s1 }));
            }
            if r.is_err() {
                proof {
                    lemma_removed_stops(s.transactions, ids, i + 1);
                }
                return r;
            }
            i = i + 1;
        }
        proof {
            assert(ids.take(i as int) =~= ids);
        }
        Ok(())
    }

    /// Returns the ledger root in the block header of the given block height.
    pub fn get_previous_ledger_root(&self, block_height: u32) -> (r: Result<LedgerRoot, LedgerError>)
        requires
            self.wf(),
        ensures
            match r {
                Ok(root) => block_header_lookup(self@, block_height) matches Ok(header) && root == header.previous_ledger_root,
                Err(e) => block_header_lookup(self@, block_height) == Err::<BlockHeader, LedgerError>(e),
            },
    {
        match self.get_block_header(block_height) {
            Ok(header) => Ok(header.previous_ledger_root),
            Err(e) => Err(e),
        }
    }
}

} // verus!
