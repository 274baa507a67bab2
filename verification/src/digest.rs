use vstd::prelude::*;

verus! {

/// A 32-byte identifier (block hash, ledger root, transaction ID, ...),
/// held as four little-endian 64-bit words.
#[derive(Clone, Copy, Debug, PartialEq, Eq, Structural)]
pub struct Digest {
    pub w0: u64,
    pub w1: u64,
    pub w2: u64,
    pub w3: u64,
}

/// The hash of a block.
pub type BlockHash = Digest;

/// The root of the ledger tree of block hashes.
pub type LedgerRoot = Digest;

/// The ID of a transaction.
pub type TransactionId = Digest;

/// The ID of a transition.
pub type TransitionId = Digest;

/// A serial number of a spent record.
pub type SerialNumber = Digest;

/// A commitment of a created record.
pub type Commitment = Digest;

/// The ID of a record ciphertext.
pub type CiphertextId = Digest;

/// The byte at position `i` (0..8) of the little-endian encoding of `w`.
pub open spec fn word_byte(w: u64, i: int) -> u8 {
    ((w >> ((8 * i) as u64)) & 0xff) as u8
}

/// The word that the little-endian bytes `b[start..start + 8]` encode.
pub open spec fn word_of_bytes(b: Seq<u8>, start: int) -> u64 {
    (b[start] as u64)
        | ((b[start + 1] as u64) << 8u64)
        | ((b[start + 2] as u64) << 16u64)
        | ((b[start + 3] as u64) << 24u64)
        | ((b[start + 4] as u64) << 32u64)
        | ((b[start + 5] as u64) << 40u64)
        | ((b[start + 6] as u64) << 48u64)
        | ((b[start + 7] as u64) << 56u64)
}

/// The 32 little-endian bytes of a digest.
pub open spec fn digest_bytes(d: Digest) -> Seq<u8> {
    Seq::new(32, |i: int| {
        let w = if i < 8 { d.w0 } else if i < 16 { d.w1 } else if i < 24 { d.w2 } else { d.w3 };
        word_byte(w, i % 8)
    })
}

/// The digest that 32 little-endian bytes encode.
pub open spec fn digest_of_bytes(b: Seq<u8>) -> Digest {
    Digest {
        w0: word_of_bytes(b, 0),
        w1: word_of_bytes(b, 8),
        w2: word_of_bytes(b, 16),
        w3: word_of_bytes(b, 24),
    }
}

proof fn lemma_word_round_trip(w: u64)
    ensures
        (word_byte(w, 0) as u64)
            | ((word_byte(w, 1) as u64) << 8u64)
            | ((word_byte(w, 2) as u64) << 16u64)
            | ((word_byte(w, 3) as u64) << 24u64)
            | ((word_byte(w, 4) as u64) << 32u64)
            | ((word_byte(w, 5) as u64) << 40u64)
            | ((word_byte(w, 6) as u64) << 48u64)
            | ((word_byte(w, 7) as u64) << 56u64) == w,
{
    assert(word_byte(w, 0) == ((w >> 0u64) & 0xff) as u8);
    assert(word_byte(w, 1) == ((w >> 8u64) & 0xff) as u8);
    assert(word_byte(w, 2) == ((w >> 16u64) & 0xff) as u8);
    assert(word_byte(w, 3) == ((w >> 24u64) & 0xff) as u8);
    assert(word_byte(w, 4) == ((w >> 32u64) & 0xff) as u8);
    assert(word_byte(w, 5) == ((w >> 40u64) & 0xff) as u8);
    assert(word_byte(w, 6) == ((w >> 48u64) & 0xff) as u8);
    assert(word_byte(w, 7) == ((w >> 56u64) & 0xff) as u8);
    assert((((w >> 0u64) & 0xff) as u8 as u64)
        | ((((w >> 8u64) & 0xff) as u8 as u64) << 8u64)
        | ((((w >> 16u64) & 0xff) as u8 as u64) << 16u64)
        | ((((w >> 24u64) & 0xff) as u8 as u64) << 24u64)
        | ((((w >> 32u64) & 0xff) as u8 as u64) << 32u64)
        | ((((w >> 40u64) & 0xff) as u8 as u64) << 40u64)
        | ((((w >> 48u64) & 0xff) as u8 as u64) << 48u64)
        | ((((w >> 56u64) & 0xff) as u8 as u64) << 56u64) == w) by (bit_vector);
}

/// Decoding the bytes of a digest gives the digest back.
pub proof fn lemma_digest_bytes_round_trip(d: Digest)
    ensures
        digest_of_bytes(digest_bytes(d)) == d,
{
    lemma_word_round_trip(d.w0);
    lemma_word_round_trip(d.w1);
    lemma_word_round_trip(d.w2);
    lemma_word_round_trip(d.w3);
    let b = digest_bytes(d);
    assert forall|i: int| 0 <= i < 8 implies b[i] == word_byte(d.w0, i) && b[8 + i] == word_byte(d.w1, i)
        && b[16 + i] == word_byte(d.w2, i) && b[24 + i] == word_byte(d.w3, i) by {
        assert((8 + i) % 8 == i);
        assert((16 + i) % 8 == i);
        assert((24 + i) % 8 == i);
    }
    assert(b[1] == word_byte(d.w0, 1));
    assert(b[9] == word_byte(d.w1, 1));
    assert(b[17] == word_byte(d.w2, 1));
    assert(b[25] == word_byte(d.w3, 1));
}

fn word_to_bytes(w: u64, out: &mut [u8; 32], start: usize)
    requires
        start + 8 <= 32,
    ensures
        forall|i: int| 0 <= i < 8 ==> final(out)@[start + i] == word_byte(w, i),
        forall|i: int| 0 <= i < 32 && !(start <= i < start + 8) ==> final(out)@[i] == old(out)@[i],
{
    let mut k: usize = 0;
    while k < 8
        invariant
            k <= 8,
            start + 8 <= 32,
            forall|i: int| 0 <= i < k ==> out@[start + i] == word_byte(w, i),
            forall|i: int| 0 <= i < 32 && !(start <= i < start + k) ==> out@[i] == old(out)@[i],
        decreases 8 - k,
    {
        let shift: u64 = 8 * (k as u64);
        let byte: u8 = ((w >> shift) & 0xff) as u8;
        out.set(start + k, byte);
        k = k + 1;
    }
}

impl Digest {
    /// Builds a digest from its four little-endian words.
    pub fn new(w0: u64, w1: u64, w2: u64, w3: u64) -> (r: Digest)
        ensures
            r == (Digest { w0, w1, w2, w3 }),
    {
        Digest { w0, w1, w2, w3 }
    }

    /// The 32 little-endian bytes of this digest.
    pub fn to_le_bytes(&self) -> (r: [u8; 32])
        ensures
            r@ == digest_bytes(*self),
    {
        let mut out: [u8; 32] = [0u8; 32];
        word_to_bytes(self.w0, &mut out, 0);
        word_to_bytes(self.w1, &mut out, 8);
        word_to_bytes(self.w2, &mut out, 16);
        word_to_bytes(self.w3, &mut out, 24);
        assert(out@ =~= digest_bytes(*self));
        out
    }

    /// The digest that 32 little-endian bytes encode.
    pub fn from_le_bytes(b: &[u8; 32]) -> (r: Digest)
        ensures
            r == digest_of_bytes(b@),
    {
        Digest {
            w0: Self::word_at(b, 0),
            w1: Self::word_at(b, 8),
            w2: Self::word_at(b, 16),
            w3: Self::word_at(b, 24),
        }
    }

    fn word_at(b: &[u8; 32], start: usize) -> (r: u64)
        requires
            start + 8 <= 32,
        ensures
            r == word_of_bytes(b@, start as int),
    {
        (b[start] as u64)
            | ((b[start + 1] as u64) << 8u64)
            | ((b[start + 2] as u64) << 16u64)
            | ((b[start + 3] as u64) << 24u64)
            | ((b[start + 4] as u64) << 32u64)
            | ((b[start + 5] as u64) << 40u64)
            | ((b[start + 6] as u64) << 48u64)
            | ((b[start + 7] as u64) << 56u64)
    }
}

} // verus!
