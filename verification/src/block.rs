use vstd::prelude::*;

use crate::transaction::{transaction_bytes, TransactionView, Transactions};
use crate::{
    blake2b_digest, difficulty_value, hash_of, push_bytes, push_u128_le, push_u64_le,
    u128_le_bytes, u64_le_bytes, zero_hash, Hashable, Timestamp,
};

verus! {

/// Header fields plus the embedded transaction list. The hash is mutable
/// during the mining search and frozen once the block is accepted.
#[derive(Debug)]
pub struct Block {
    pub index: u64,
    pub nonce: u64,
    pub timestamp: Timestamp,
    pub difficulty: u128,
    pub prev_block_hash: crate::Hash,
    pub hash: crate::Hash,
    pub transactions: Transactions,
}

#[verifier::ext_equal]
pub struct BlockView {
    pub index: u64,
    pub nonce: u64,
    pub timestamp: u64,
    pub difficulty: u128,
    pub prev_hash: Seq<u8>,
    pub hash: Seq<u8>,
    pub transactions: Seq<TransactionView>,
}

impl View for Block {
    type V = BlockView;

    open spec fn view(&self) -> BlockView {
        BlockView {
            index: self.index,
            nonce: self.nonce,
            timestamp: self.timestamp@,
            difficulty: self.difficulty,
            prev_hash: self.prev_block_hash@,
            hash: self.hash@,
            transactions: self.transactions@,
        }
    }
}

/// Concatenated canonical bytes of a transaction list, in order.
pub open spec fn txs_bytes(ts: Seq<TransactionView>) -> Seq<u8>
    decreases ts.len(),
{
    if ts.len() == 0 {
        Seq::empty()
    } else {
        txs_bytes(ts.drop_last()) + transaction_bytes(ts.last())
    }
}

/// Canonical byte expansion of a block: every field except the hash itself,
/// in fixed order, integers little-endian, the transaction contents fully
/// expanded.
pub open spec fn block_bytes(b: BlockView) -> Seq<u8> {
    u64_le_bytes(b.index) + u64_le_bytes(b.nonce) + u64_le_bytes(b.timestamp) + u128_le_bytes(
        b.difficulty,
    ) + b.prev_hash + txs_bytes(b.transactions)
}

/// The same block with another nonce; every other field, the recorded hash
/// included, kept.
pub open spec fn with_nonce(b: BlockView, n: u64) -> BlockView {
    BlockView {
        index: b.index,
        nonce: n,
        timestamp: b.timestamp,
        difficulty: b.difficulty,
        prev_hash: b.prev_hash,
        hash: b.hash,
        transactions: b.transactions,
    }
}

/// Whether nonce `n` makes the block's digest fall under its difficulty
/// threshold.
pub open spec fn nonce_meets_target(b: BlockView, n: u64) -> bool {
    difficulty_value(hash_of(block_bytes(with_nonce(b, n)))) < b.difficulty
}

/// The block as the mining search leaves it on success at nonce `n`: that
/// nonce fixed and the recorded hash set to the recomputed digest.
pub open spec fn mined_view(b: BlockView, n: u64) -> BlockView {
    BlockView {
        index: b.index,
        nonce: n,
        timestamp: b.timestamp,
        difficulty: b.difficulty,
        prev_hash: b.prev_hash,
        hash: hash_of(block_bytes(with_nonce(b, n))),
        transactions: b.transactions,
    }
}

impl Block {
    /// A fresh, not yet mined block: nonce zero and the zero hash.
    pub fn new(
        index: u64,
        timestamp: Timestamp,
        difficulty: u128,
        prev_block_hash: crate::Hash,
        transactions: Transactions,
    ) -> (r: Self)
        ensures
            r@.index == index,
            r@.nonce == 0,
            r@.timestamp == timestamp@,
            r@.difficulty == difficulty,
            r@.prev_hash == prev_block_hash@,
            r@.hash == zero_hash(),
            r@.transactions == transactions@,
    {
        Self {
            index,
            nonce: 0,
            timestamp,
            difficulty,
            prev_block_hash,
            transactions,
            hash: Default::default(),
        }
    }

    /// Builds the canonical byte expansion of this block.
    pub fn canonical_bytes(&self) -> (r: Vec<u8>)
        ensures
            r@ == block_bytes(self@),
    {
        let mut buf: Vec<u8> = Vec::new();
        push_u64_le(&mut buf, self.index);
        push_u64_le(&mut buf, self.nonce);
        push_u64_le(&mut buf, self.timestamp.0);
        push_u128_le(&mut buf, self.difficulty);
        push_bytes(&mut buf, self.prev_block_hash.0.as_slice());
        let ghost ts = self.transactions@;
        let n = self.transactions.0.len();
        let mut i: usize = 0;
        while i < n
            invariant
                0 <= i <= n,
                n == self.transactions.0@.len(),
                ts == self.transactions@,
                buf@ == block_bytes(self@).subrange(
                    0,
                    block_bytes(self@).len() - txs_bytes(ts).len(),
                ) + txs_bytes(ts.subrange(0, i as int)),
            decreases n - i,
        {
            let tb = self.transactions.0[i].canonical_bytes();
            push_bytes(&mut buf, tb.as_slice());
            proof {
                assert(ts.subrange(0, i + 1).drop_last() =~= ts.subrange(0, i as int));
                assert(ts.subrange(0, i + 1).last() == ts[i as int]);
                assert(buf@ =~= block_bytes(self@).subrange(
                    0,
                    block_bytes(self@).len() - txs_bytes(ts).len(),
                ) + txs_bytes(ts.subrange(0, i + 1)));
            }
            i = i + 1;
        }
        proof {
            assert(ts.subrange(0, n as int) =~= ts);
            assert(buf@ =~= block_bytes(self@));
        }
        buf
    }

    /// Whether the given digest satisfies this block's difficulty threshold:
    /// its proof-of-work window must fall strictly under the threshold.
    pub fn check_difficulty(&self, hash: crate::Hash) -> (r: bool)
        ensures
            r == (difficulty_value(hash@) < self.difficulty),
    {
        hash.difficulty() < self.difficulty
    }

    /// Searches nonces in `[lo, hi)` in increasing order for the first one
    /// whose digest meets the difficulty; on success fixes that nonce and the
    /// digest. On failure the nonce stays at the last value tried and the
    /// recorded hash is untouched.
    pub fn mine_range(&mut self, lo: u64, hi: u64) -> (r: bool)
        ensures
            r ==> lo <= final(self).nonce < hi && nonce_meets_target(
                old(self)@,
                final(self).nonce,
            ) && final(self)@ == mined_view(old(self)@, final(self).nonce) && (forall|m: u64|
                lo <= m < final(self).nonce ==> !nonce_meets_target(old(self)@, m)),
            !r ==> (forall|m: u64| lo <= m < hi ==> !nonce_meets_target(old(self)@, m))
                && final(self)@ == (if lo < hi {
                with_nonce(old(self)@, (hi - 1) as u64)
            } else {
                old(self)@
            }),
    {
        if lo >= hi {
            return false;
        }
        let mut nonce = lo;
        while nonce < hi
            invariant
                lo <= nonce <= hi,
                nonce == lo ==> self@ == old(self)@,
                nonce > lo ==> self@ == with_nonce(old(self)@, (nonce - 1) as u64),
                forall|m: u64| lo <= m < nonce ==> !nonce_meets_target(old(self)@, m),
            decreases hi - nonce,
        {
            self.nonce = nonce;
            proof {
                assert(self@ == with_nonce(old(self)@, nonce));
            }
            let h = self.hash();
            let ok = self.check_difficulty(h);
            if ok {
                self.hash = h;
                proof {
                    assert(self@ == mined_view(old(self)@, nonce));
                }
                return true;
            }
            nonce = nonce + 1;
        }
        false
    }

    /// The full mining search over the whole nonce domain `[0, u64::MAX)`.
    pub fn mine(&mut self) -> (r: bool)
        ensures
            r ==> final(self).nonce < u64::MAX && nonce_meets_target(old(self)@, final(self).nonce)
                && final(self)@ == mined_view(old(self)@, final(self).nonce) && (forall|m: u64|
                m < final(self).nonce ==> !nonce_meets_target(old(self)@, m)),
            !r ==> (forall|m: u64| m < u64::MAX ==> !nonce_meets_target(old(self)@, m))
                && final(self)@ == with_nonce(old(self)@, (u64::MAX - 1) as u64),
    {
        self.mine_range(0, u64::MAX)
    }
}

impl Hashable for Block {
    open spec fn digest_bytes(&self) -> Seq<u8> {
        block_bytes(self@)
    }

    fn hash(&self) -> (h: crate::Hash) {
        let bytes = self.canonical_bytes();
        blake2b_digest(&bytes)
    }
}

} // verus!
