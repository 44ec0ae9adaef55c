//! A batch of transactions under a proof-of-work header.
use std::sync::atomic::{AtomicBool, Ordering};
use vstd::prelude::*;

use crate::encoding::{
    difficulty_bytes_as_u128, high_half_value, le_encoding, lemma_cancel_suffix, lemma_encoding_injective,
    lemma_encoding_value, lemma_le_value_monotone, pow256, u128_bytes, u32_bytes, u64_bytes,
};
use crate::hashing::{append_bytes, bytes_equal, sha256, sha256_of, Hashable};
use crate::transaction::{same_transfers, Transaction};
use crate::ChainError;

verus! {

/// Mining looks at the cancellation signal once per this many attempts.
pub const CANCEL_CHECK_INTERVAL: u64 = 1024;

/// A block: its header, its transactions, and the hash that sealed it.
pub struct Block {
    pub index: u32,
    /// Milliseconds since the Unix epoch.
    pub timestamp: u128,
    pub prev_block_hash: Vec<u8>,
    pub transactions: Vec<Transaction>,
    pub nonce: u64,
    /// The 32-byte target that the hash must not exceed.
    pub difficulty: Vec<u8>,
    /// Empty until the block is mined.
    pub hash: Vec<u8>,
}

/// The canonical bytes of a sequence of transactions, one after the other.
pub open spec fn transactions_encoding(txs: Seq<Transaction>) -> Seq<u8>
    decreases txs.len(),
{
    if txs.len() == 0 {
        Seq::empty()
    } else {
        transactions_encoding(txs.drop_last()) + txs.last().encoded()
    }
}

/// Whether `h` satisfies the target `target`: both are 32 bytes long and the
/// upper half of `h`, read as an integer, does not exceed that of `target`.
pub open spec fn meets_target(h: Seq<u8>, target: Seq<u8>) -> bool {
    &&& h.len() == 32
    &&& target.len() == 32
    &&& high_half_value(h) <= high_half_value(target)
}

/// Whether the digest `h` satisfies the 32-byte target `target`.
pub fn meets_difficulty(h: &Vec<u8>, target: &Vec<u8>) -> (r: bool)
    ensures
        r == meets_target(h@, target@),
{
    if h.len() != 32 || target.len() != 32 {
        return false;
    }
    difficulty_bytes_as_u128(h) <= difficulty_bytes_as_u128(target)
}

/// A target that every 32-byte digest meets: its upper sixteen bytes are all
/// `0xff`.
pub open spec fn is_maximal_target(t: Seq<u8>) -> bool {
    &&& t.len() == 32
    &&& forall|i: int| 16 <= i < 32 ==> t[i] == 255
}

/// Every 32-byte digest meets a maximal target.
pub proof fn lemma_maximal_target_met(h: Seq<u8>, t: Seq<u8>)
    requires
        h.len() == 32,
        is_maximal_target(t),
    ensures
        meets_target(h, t),
{
    lemma_le_value_monotone(h.subrange(16, 32), t.subrange(16, 32));
}

/// Transactions that are the same transfers have the same bytes.
pub proof fn lemma_same_transfers_same_bytes(a: Seq<Transaction>, b: Seq<Transaction>)
    requires
        same_transfers(a, b),
    ensures
        transactions_encoding(a) == transactions_encoding(b),
    decreases a.len(),
{
    if a.len() > 0 {
        lemma_same_transfers_same_bytes(a.drop_last(), b.drop_last());
    }
}

/// Whether a block is sealed depends on its fields' values alone: a copy made
/// through the byte contract, with equal header fields, the same transfers and
/// the same stored hash, is sealed exactly when `a` is. So a mined
/// block still verifies after a round trip.
pub proof fn lemma_sealed_survives_copy(a: Block, b: Block)
    requires
        a.index == b.index,
        a.timestamp == b.timestamp,
        a.prev_block_hash@ == b.prev_block_hash@,
        a.nonce == b.nonce,
        a.difficulty@ == b.difficulty@,
        a.hash@ == b.hash@,
        same_transfers(a.transactions@, b.transactions@),
    ensures
        a.encoded() == b.encoded(),
        a.is_sealed() <==> b.is_sealed(),
{
    lemma_same_transfers_same_bytes(a.transactions@, b.transactions@);
}

/// Determinism of the byte form, read backwards: two blocks with the same bytes,
/// the same transfers and predecessor hashes of one length agree on every
/// header field. So changing any one header field changes the bytes.
pub proof fn lemma_block_bytes_tell_header_apart(a: Block, b: Block)
    requires
        a.encoded() == b.encoded(),
        same_transfers(a.transactions@, b.transactions@),
        a.prev_block_hash@.len() == b.prev_block_hash@.len(),
    ensures
        a.index == b.index,
        a.timestamp == b.timestamp,
        a.prev_block_hash@ == b.prev_block_hash@,
        a.nonce == b.nonce,
        a.difficulty@ == b.difficulty@,
{
    reveal_with_fuel(pow256, 17);
    lemma_same_transfers_same_bytes(a.transactions@, b.transactions@);
    let x = transactions_encoding(a.transactions@);
    let ia = le_encoding(a.index as nat, 4);
    let ib = le_encoding(b.index as nat, 4);
    let ta = le_encoding(a.timestamp as nat, 16);
    let tb = le_encoding(b.timestamp as nat, 16);
    let na = le_encoding(a.nonce as nat, 8);
    let nb = le_encoding(b.nonce as nat, 8);
    lemma_encoding_value(a.index as nat, 4);
    lemma_encoding_value(b.index as nat, 4);
    lemma_encoding_value(a.timestamp as nat, 16);
    lemma_encoding_value(b.timestamp as nat, 16);
    lemma_encoding_value(a.nonce as nat, 8);
    lemma_encoding_value(b.nonce as nat, 8);
    let ha = ia + ta + a.prev_block_hash@ + na + a.difficulty@;
    let hb = ib + tb + b.prev_block_hash@ + nb + b.difficulty@;
    lemma_cancel_suffix(ha, hb, x);
    let p = a.prev_block_hash@.len() as int;
    assert(ia =~= ha.subrange(0, 4));
    assert(ib =~= hb.subrange(0, 4));
    assert(ta =~= ha.subrange(4, 20));
    assert(tb =~= hb.subrange(4, 20));
    assert(a.prev_block_hash@ =~= ha.subrange(20, 20 + p));
    assert(b.prev_block_hash@ =~= hb.subrange(20, 20 + p));
    assert(na =~= ha.subrange(20 + p, 28 + p));
    assert(nb =~= hb.subrange(20 + p, 28 + p));
    assert(a.difficulty@ =~= ha.subrange(28 + p, ha.len() as int));
    assert(b.difficulty@ =~= hb.subrange(28 + p, hb.len() as int));
    lemma_encoding_injective(a.index as nat, b.index as nat, 4);
    lemma_encoding_injective(a.timestamp as nat, b.timestamp as nat, 16);
    lemma_encoding_injective(a.nonce as nat, b.nonce as nat, 8);
}

impl Block {
    /// The canonical bytes that the block would have with nonce `nonce`.
    pub open spec fn encoding_with_nonce(&self, nonce: u64) -> Seq<u8> {
        le_encoding(self.index as nat, 4) + le_encoding(self.timestamp as nat, 16) + self.prev_block_hash@
            + le_encoding(nonce as nat, 8) + self.difficulty@ + transactions_encoding(self.transactions@)
    }

    /// Whether nonce `nonce` gives the block a digest that meets its target.
    pub open spec fn nonce_works(&self, nonce: u64) -> bool {
        meets_target(sha256_of(self.encoding_with_nonce(nonce)), self.difficulty@)
    }

    /// The stored hash is the digest of the block and meets its target.
    pub open spec fn is_sealed(&self) -> bool {
        &&& self.hash@ == sha256_of(self.encoded())
        &&& meets_target(self.hash@, self.difficulty@)
    }

    /// The fields that mining leaves alone are those of `other`.
    pub open spec fn same_content(&self, other: &Block) -> bool {
        &&& self.index == other.index
        &&& self.timestamp == other.timestamp
        &&& self.prev_block_hash@ == other.prev_block_hash@
        &&& self.transactions@ == other.transactions@
        &&& self.difficulty@ == other.difficulty@
    }

    /// An unmined block: nonce zero and no hash yet.
    pub fn candidate(
        index: u32,
        timestamp: u128,
        prev_block_hash: Vec<u8>,
        transactions: Vec<Transaction>,
        difficulty: Vec<u8>,
    ) -> (r: Block)
        ensures
            r.index == index,
            r.timestamp == timestamp,
            r.prev_block_hash@ == prev_block_hash@,
            r.transactions@ == transactions@,
            r.difficulty@ == difficulty@,
            r.nonce == 0,
            r.hash@.len() == 0,
    {
        Block { index, timestamp, prev_block_hash, transactions, nonce: 0, difficulty, hash: Vec::new() }
    }

    /// Searches the nonces from `first` to `last` in increasing order for one
    /// whose digest meets the target, and seals the block with the first found.
    /// Every `CANCEL_CHECK_INTERVAL` failed attempts it gives up if `cancel` is set.
    pub fn mine_range(&mut self, first: u64, last: u64, cancel: &AtomicBool) -> (r: Result<(), ChainError>)
        requires
            first <= last,
        ensures
            final(self).same_content(old(self)),
            first <= final(self).nonce <= last,
            forall|n: u64| first <= n < final(self).nonce ==> !old(self).nonce_works(n),
            r is Ok ==> final(self).is_sealed(),
            r is Err ==> final(self).hash@ == old(self).hash@ && !old(self).nonce_works(final(self).nonce),
            r matches Err(e) ==> e == ChainError::NonceExhausted || e == ChainError::MiningCancelled,
            r == Err::<(), ChainError>(ChainError::NonceExhausted) ==> final(self).nonce == last,
            r == Err::<(), ChainError>(ChainError::MiningCancelled) ==> final(self).nonce < last
                && (final(self).nonce - first) % (CANCEL_CHECK_INTERVAL as int) == CANCEL_CHECK_INTERVAL - 1,
            (exists|n: u64| first <= n <= last && n - first < CANCEL_CHECK_INTERVAL && old(self).nonce_works(n)) ==> r is Ok,
            last - first < CANCEL_CHECK_INTERVAL && (forall|n: u64| first <= n <= last ==> !old(self).nonce_works(n))
                ==> r == Err::<(), ChainError>(ChainError::NonceExhausted),
            is_maximal_target(old(self).difficulty@) ==> r is Ok && final(self).nonce == first,
    {
        let mut nonce: u64 = first;
        loop
            invariant
                self.same_content(old(self)),
                self.hash@ == old(self).hash@,
                first <= nonce <= last,
                forall|n: u64| first <= n < nonce ==> !old(self).nonce_works(n),
                is_maximal_target(old(self).difficulty@) ==> nonce == first,
            decreases last - nonce,
        {
            self.nonce = nonce;
            let h = self.hash();
            assert(self.encoded() == old(self).encoding_with_nonce(nonce));
            proof {
                if is_maximal_target(self.difficulty@) {
                    lemma_maximal_target_met(h@, self.difficulty@);
                }
            }
            if meets_difficulty(&h, &self.difficulty) {
                self.hash = h;
                assert(old(self).nonce_works(nonce));
                return Ok(());
            }
            if nonce == last {
                return Err(ChainError::NonceExhausted);
            }
            if (nonce - first) % CANCEL_CHECK_INTERVAL == CANCEL_CHECK_INTERVAL - 1 && cancel.load(Ordering::Relaxed) {
                return Err(ChainError::MiningCancelled);
            }
            nonce += 1;
        }
    }

    /// Mines over the whole nonce space, from zero upwards.
    pub fn mine(&mut self, cancel: &AtomicBool) -> (r: Result<(), ChainError>)
        ensures
            final(self).same_content(old(self)),
            forall|n: u64| n < final(self).nonce ==> !old(self).nonce_works(n),
            r is Ok ==> final(self).is_sealed(),
            r is Err ==> final(self).hash@ == old(self).hash@ && !old(self).nonce_works(final(self).nonce),
            r matches Err(e) ==> e == ChainError::NonceExhausted || e == ChainError::MiningCancelled,
            r == Err::<(), ChainError>(ChainError::NonceExhausted) ==> forall|n: u64| !old(self).nonce_works(n),
            r == Err::<(), ChainError>(ChainError::MiningCancelled) ==> final(self).nonce % CANCEL_CHECK_INTERVAL
                == CANCEL_CHECK_INTERVAL - 1,
            (exists|n: u64| n < CANCEL_CHECK_INTERVAL && old(self).nonce_works(n)) ==> r is Ok,
            is_maximal_target(old(self).difficulty@) ==> r is Ok && final(self).nonce == 0,
    {
        self.mine_range(0, u64::MAX, cancel)
    }

    /// Checks that the stored hash is the block's digest and meets its target.
    pub fn verify(&self) -> (r: Result<(), ChainError>)
        ensures
            r is Ok <==> self.is_sealed(),
            r == Err::<(), ChainError>(ChainError::HashMismatch) <==> self.hash@ != sha256_of(self.encoded()),
            r == Err::<(), ChainError>(ChainError::InvalidProofOfWork) <==> (self.hash@ == sha256_of(self.encoded())
                && !meets_target(self.hash@, self.difficulty@)),
    {
        let h = self.hash();
        if !bytes_equal(&h, &self.hash) {
            return Err(ChainError::HashMismatch);
        }
        if !meets_difficulty(&self.hash, &self.difficulty) {
            return Err(ChainError::InvalidProofOfWork);
        }
        Ok(())
    }
}

impl Hashable for Block {
    open spec fn encoded(&self) -> Seq<u8> {
        self.encoding_with_nonce(self.nonce)
    }

    fn bytes(&self) -> (r: Vec<u8>) {
        let mut out: Vec<u8> = Vec::new();
        let index = u32_bytes(&self.index);
        append_bytes(&mut out, &index);
        let timestamp = u128_bytes(&self.timestamp);
        append_bytes(&mut out, &timestamp);
        append_bytes(&mut out, self.prev_block_hash.as_slice());
        let nonce = u64_bytes(&self.nonce);
        append_bytes(&mut out, &nonce);
        append_bytes(&mut out, self.difficulty.as_slice());
        let ghost head = out@;
        let mut i: usize = 0;
        while i < self.transactions.len()
            invariant
                i <= self.transactions@.len(),
                out@ == head + transactions_encoding(self.transactions@.subrange(0, i as int)),
            decreases self.transactions@.len() - i,
        {
            let tx = self.transactions[i].bytes();
            append_bytes(&mut out, tx.as_slice());
            i += 1;
            assert(self.transactions@.subrange(0, i as int).drop_last() =~= self.transactions@.subrange(0, i - 1));
        }
        assert(self.transactions@.subrange(0, i as int) =~= self.transactions@);
        assert(out@ =~= self.encoded());
        out
    }

    fn hash(&self) -> (r: Vec<u8>) {
        sha256(&self.bytes())
    }
}

} // verus!
