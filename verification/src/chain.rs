use vstd::prelude::*;

use crate::block::{block_bytes, Block, BlockView};
use crate::transaction::{
    combined, lemma_packets_value_nonneg, lemma_txs_balance_bound, lemma_txs_elem_bounds,
    lemma_txs_sums_nonneg, lemma_txs_sums_split, map_get0, packet_hash, packets_hash_set,
    packets_value, txs_balance, txs_input_value, txs_output_value, txs_value_total, Balance,
    TransactionView, REWARD,
};
use crate::{difficulty_value, hash_of, zero_hash, Hashable};

verus! {

/// The set of byte-exact digests held by a vector of hashes; order and
/// multiplicity play no part.
pub open spec fn hashes_set(s: Seq<crate::Hash>) -> Set<Seq<u8>> {
    Set::new(|h: Seq<u8>| exists|i: int| 0 <= i < s.len() && s[i]@ == h)
}

/// Concatenating hash vectors unions their sets.
pub proof fn lemma_hashes_set_concat(a: Seq<crate::Hash>, b: Seq<crate::Hash>)
    ensures
        hashes_set(a + b) == hashes_set(a).union(hashes_set(b)),
{
    let lhs = hashes_set(a + b);
    let rhs = hashes_set(a).union(hashes_set(b));
    assert forall|h: Seq<u8>| lhs.contains(h) implies rhs.contains(h) by {
        let i = choose|i: int| 0 <= i < (a + b).len() && (a + b)[i]@ == h;
        if i < a.len() {
            assert(a[i]@ == h);
        } else {
            assert(b[i - a.len()]@ == h);
        }
    };
    assert forall|h: Seq<u8>| rhs.contains(h) implies lhs.contains(h) by {
        if hashes_set(a).contains(h) {
            let i = choose|i: int| 0 <= i < a.len() && a[i]@ == h;
            assert((a + b)[i]@ == h);
        } else {
            let i = choose|i: int| 0 <= i < b.len() && b[i]@ == h;
            assert((a + b)[a.len() + i]@ == h);
        }
    };
    assert(lhs =~= rhs);
}

/// Whether a vector of hashes holds the given digest.
pub fn hashes_contains(v: &Vec<crate::Hash>, h: &crate::Hash) -> (r: bool)
    ensures
        r == hashes_set(v@).contains(h@),
{
    let n = v.len();
    let mut i: usize = 0;
    while i < n
        invariant
            0 <= i <= n,
            n == v@.len(),
            forall|j: int| 0 <= j < i ==> v@[j]@ != h@,
        decreases n - i,
    {
        if v[i].equals(h) {
            return true;
        }
        i = i + 1;
    }
    proof {
        if hashes_set(v@).contains(h@) {
            let j = choose|j: int| 0 <= j < v@.len() && v@[j]@ == h@;
            assert(false);
        }
    }
    false
}

/// The identifiers consumed by a list of transactions: the union of the
/// input packets' digests.
pub open spec fn txs_input_hash_set(ts: Seq<TransactionView>) -> Set<Seq<u8>>
    decreases ts.len(),
{
    if ts.len() == 0 {
        Set::empty()
    } else {
        txs_input_hash_set(ts.drop_last()).union(packets_hash_set(ts.last().inputs))
    }
}

/// The identifiers created by a list of transactions: the union of the
/// output packets' digests.
pub open spec fn txs_output_hash_set(ts: Seq<TransactionView>) -> Set<Seq<u8>>
    decreases ts.len(),
{
    if ts.len() == 0 {
        Set::empty()
    } else {
        txs_output_hash_set(ts.drop_last()).union(packets_hash_set(ts.last().outputs))
    }
}

/// Transaction-list hash sets split at any cut point.
pub proof fn lemma_txs_hash_sets_split(ts: Seq<TransactionView>, i: int)
    requires
        0 <= i <= ts.len(),
    ensures
        txs_input_hash_set(ts) == txs_input_hash_set(ts.subrange(0, i)).union(
            txs_input_hash_set(ts.subrange(i, ts.len() as int)),
        ),
        txs_output_hash_set(ts) == txs_output_hash_set(ts.subrange(0, i)).union(
            txs_output_hash_set(ts.subrange(i, ts.len() as int)),
        ),
    decreases ts.len(),
{
    if i == ts.len() {
        assert(ts.subrange(0, i) =~= ts);
        assert(txs_input_hash_set(ts) =~= txs_input_hash_set(ts).union(
            txs_input_hash_set(ts.subrange(i, ts.len() as int)),
        ));
        assert(txs_output_hash_set(ts) =~= txs_output_hash_set(ts).union(
            txs_output_hash_set(ts.subrange(i, ts.len() as int)),
        ));
    } else {
        let dl = ts.drop_last();
        lemma_txs_hash_sets_split(dl, i);
        assert(dl.subrange(0, i) =~= ts.subrange(0, i));
        let tail = ts.subrange(i, ts.len() as int);
        assert(tail.len() > 0);
        assert(tail.drop_last() =~= dl.subrange(i, dl.len() as int));
        assert(tail.last() == ts.last());
        assert(txs_input_hash_set(ts) =~= txs_input_hash_set(ts.subrange(0, i)).union(
            txs_input_hash_set(tail),
        ));
        assert(txs_output_hash_set(ts) =~= txs_output_hash_set(ts.subrange(0, i)).union(
            txs_output_hash_set(tail),
        ));
    }
}

/// What one accepted block does to the unspent-output set: its non-coinbase
/// inputs leave, every output it creates (the coinbase's included) enters.
/// A block with no transactions leaves the set unchanged.
pub open spec fn apply_block(u: Set<Seq<u8>>, b: BlockView) -> Set<Seq<u8>> {
    if b.transactions.len() == 0 {
        u
    } else {
        u.difference(
            txs_input_hash_set(b.transactions.subrange(1, b.transactions.len() as int)),
        ).union(txs_output_hash_set(b.transactions))
    }
}

/// The unspent-output set fully derived by replaying a block sequence.
pub open spec fn replay_unspent(blocks: Seq<BlockView>) -> Set<Seq<u8>>
    decreases blocks.len(),
{
    if blocks.len() == 0 {
        Set::empty()
    } else {
        apply_block(replay_unspent(blocks.drop_last()), blocks.last())
    }
}

/// The eight ways a candidate block can be rejected.
#[derive(Debug, Clone, Copy, PartialEq, Eq, Structural)]
pub enum ValidationError {
    IndexMismatch,
    HashMismatch,
    DifficultyMismatch,
    HashChainViolation,
    TimestampViolation,
    InvalidInput,
    InvalidCoinbaseTransaction,
    InsufficientInputValue,
}

/// The structural checks on a candidate block against the current chain, in
/// order, stopping at the first violation: position, proof of work, hash
/// integrity, chain linkage, and timestamp monotonicity.
pub open spec fn validate_decision(blocks: Seq<BlockView>, b: BlockView) -> Option<
    ValidationError,
> {
    if b.index != blocks.len() {
        Some(ValidationError::IndexMismatch)
    } else if !(difficulty_value(b.hash) < b.difficulty) {
        Some(ValidationError::DifficultyMismatch)
    } else if b.hash != hash_of(block_bytes(b)) {
        Some(ValidationError::HashMismatch)
    } else if blocks.len() == 0 {
        if b.prev_hash != zero_hash() {
            Some(ValidationError::HashChainViolation)
        } else {
            None
        }
    } else if b.prev_hash != blocks.last().hash {
        Some(ValidationError::HashChainViolation)
    } else if b.timestamp < blocks.last().timestamp {
        Some(ValidationError::TimestampViolation)
    } else {
        None
    }
}

/// Whether every input of one transaction is currently spendable: present in
/// the global unspent set and not already claimed earlier in the same block.
pub open spec fn tx_inputs_ok(
    t: TransactionView,
    unspent: Set<Seq<u8>>,
    spent: Set<Seq<u8>>,
) -> bool {
    forall|i: int|
        0 <= i < t.inputs.len() ==> unspent.contains(#[trigger] packet_hash(t.inputs[i]))
            && !spent.contains(packet_hash(t.inputs[i]))
}

/// The scan over the non-coinbase transactions from position `j` on, with
/// `spent` the inputs already claimed by earlier transactions of the block:
/// the first violation found, or nothing.
pub open spec fn scan_decision(
    ts: Seq<TransactionView>,
    unspent: Set<Seq<u8>>,
    spent: Set<Seq<u8>>,
    j: int,
) -> Option<ValidationError>
    decreases ts.len() - j,
{
    if j >= ts.len() || j < 0 {
        None
    } else if !tx_inputs_ok(ts[j], unspent, spent) {
        Some(ValidationError::InvalidInput)
    } else if packets_value(ts[j].outputs) > packets_value(ts[j].inputs) {
        Some(ValidationError::InsufficientInputValue)
    } else {
        scan_decision(ts, unspent, spent.union(packets_hash_set(ts[j].inputs)), j + 1)
    }
}

/// The fees collected by the transactions from position `j` on: each one's
/// input value minus its output value.
pub open spec fn txs_fees(ts: Seq<TransactionView>, j: int) -> int
    decreases ts.len() - j,
{
    if j >= ts.len() || j < 0 {
        0
    } else {
        (packets_value(ts[j].inputs) - packets_value(ts[j].outputs)) + txs_fees(ts, j + 1)
    }
}

/// A transaction scan that finds no fault passes every transaction it
/// covers: value is conserved and all inputs were spendable.
pub proof fn lemma_scan_ok(
    ts: Seq<TransactionView>,
    unspent: Set<Seq<u8>>,
    spent: Set<Seq<u8>>,
    j: int,
)
    requires
        0 <= j <= ts.len(),
        scan_decision(ts, unspent, spent, j) is None,
    ensures
        forall|k: int|
            j <= k < ts.len() ==> packets_value(#[trigger] ts[k].outputs) <= packets_value(
                ts[k].inputs,
            ),
        forall|k: int| j <= k < ts.len() ==> txs_fees(ts, k) >= 0,
    decreases ts.len() - j,
{
    if j < ts.len() {
        lemma_scan_ok(ts, unspent, spent.union(packets_hash_set(ts[j].inputs)), j + 1);
        assert forall|k: int| j <= k < ts.len() implies txs_fees(ts, k) >= 0 by {
            lemma_txs_fees_nonneg_from(ts, unspent, spent, j, k);
        }
    }
}

/// Fee suffix sums are nonnegative wherever the scan passes.
proof fn lemma_txs_fees_nonneg_from(
    ts: Seq<TransactionView>,
    unspent: Set<Seq<u8>>,
    spent: Set<Seq<u8>>,
    j: int,
    k: int,
)
    requires
        0 <= j <= k <= ts.len(),
        scan_decision(ts, unspent, spent, j) is None,
    ensures
        txs_fees(ts, k) >= 0,
    decreases k - j,
{
    if j < k {
        lemma_txs_fees_nonneg_from(
            ts,
            unspent,
            spent.union(packets_hash_set(ts[j].inputs)),
            j + 1,
            k,
        );
    } else {
        lemma_txs_fees_nonneg_tail(ts, unspent, spent, j);
    }
}

/// A passing scan from `j` makes every fee from `j` on nonnegative.
proof fn lemma_txs_fees_nonneg_tail(
    ts: Seq<TransactionView>,
    unspent: Set<Seq<u8>>,
    spent: Set<Seq<u8>>,
    j: int,
)
    requires
        0 <= j <= ts.len(),
        scan_decision(ts, unspent, spent, j) is None,
    ensures
        txs_fees(ts, j) >= 0,
    decreases ts.len() - j,
{
    if j < ts.len() {
        lemma_txs_fees_nonneg_tail(ts, unspent, spent.union(packets_hash_set(ts[j].inputs)), j + 1);
    }
}

/// The whole chain state as mathematics: the accepted blocks in order and
/// the set of currently spendable output identifiers.
#[verifier::ext_equal]
pub struct ChainView {
    pub blocks: Seq<BlockView>,
    pub unspent: Set<Seq<u8>>,
}

/// The standalone facts that hold of every accepted block's transaction
/// list: it is empty, or it opens with a coinbase, conserves value in every
/// later transaction, and (past the genesis block) pays the coinbase exactly
/// the collected fees plus the fixed reward.
pub open spec fn block_txs_wf(b: BlockView) -> bool {
    b.transactions.len() > 0 ==> {
        &&& b.transactions[0].inputs.len() == 0
        &&& (forall|j: int|
            1 <= j < b.transactions.len() ==> packets_value(
                (#[trigger] b.transactions[j]).outputs,
            ) <= packets_value(b.transactions[j].inputs))
        &&& (b.index != 0 ==> packets_value(b.transactions[0].outputs) == txs_fees(
            b.transactions,
            1,
        ) + REWARD)
        &&& (b.index == 0 ==> forall|j: int|
            1 <= j < b.transactions.len() ==> (#[trigger] b.transactions[j]).inputs.len() == 0
                && packets_value(b.transactions[j].outputs) == 0)
    }
}

/// A scan that passes against an empty unspent set admits only transactions
/// with no inputs and no output value: nothing is spendable yet.
pub proof fn lemma_scan_ok_empty(ts: Seq<TransactionView>, spent: Set<Seq<u8>>, j: int)
    requires
        0 <= j <= ts.len(),
        scan_decision(ts, Set::empty(), spent, j) is None,
    ensures
        forall|k: int|
            j <= k < ts.len() ==> (#[trigger] ts[k]).inputs.len() == 0 && packets_value(
                ts[k].outputs,
            ) == 0,
    decreases ts.len() - j,
{
    if j < ts.len() {
        assert(tx_inputs_ok(ts[j], Set::empty(), spent));
        if ts[j].inputs.len() > 0 {
            assert(Set::<Seq<u8>>::empty().contains(packet_hash(ts[j].inputs[0])));
            assert(false);
        }
        lemma_packets_value_nonneg(ts[j].outputs);
        assert(packets_value(ts[j].inputs) == 0);
        lemma_scan_ok_empty(ts, spent.union(packets_hash_set(ts[j].inputs)), j + 1);
    }
}

/// Well-formedness of a chain: indexes are positions, every block met its
/// difficulty and carries its own recomputed digest, links and timestamps
/// chain correctly, every block's transactions obey the acceptance rules,
/// and the unspent set is exactly what replaying the blocks derives.
pub open spec fn chain_wf(c: ChainView) -> bool {
    &&& (forall|i: int| 0 <= i < c.blocks.len() ==> (#[trigger] c.blocks[i]).index == i)
    &&& (forall|i: int|
        0 <= i < c.blocks.len() ==> difficulty_value((#[trigger] c.blocks[i]).hash)
            < c.blocks[i].difficulty)
    &&& (forall|i: int|
        0 <= i < c.blocks.len() ==> (#[trigger] c.blocks[i]).hash == hash_of(
            block_bytes(c.blocks[i]),
        ))
    &&& (c.blocks.len() > 0 ==> c.blocks[0].prev_hash == zero_hash())
    &&& (forall|i: int|
        1 <= i < c.blocks.len() ==> (#[trigger] c.blocks[i]).prev_hash == c.blocks[i - 1].hash)
    &&& (forall|i: int|
        1 <= i < c.blocks.len() ==> (#[trigger] c.blocks[i]).timestamp >= c.blocks[
            i - 1
        ].timestamp)
    &&& (forall|i: int| 0 <= i < c.blocks.len() ==> block_txs_wf(#[trigger] c.blocks[i]))
    &&& c.unspent == replay_unspent(c.blocks)
}

/// The whole acceptance decision on a candidate block: the structural
/// validation, then the coinbase rule, the per-transaction scan, and the
/// fee/reward rule; the first violation found, or nothing when the block
/// may be appended.
pub open spec fn update_decision(c: ChainView, b: BlockView) -> Option<ValidationError> {
    if validate_decision(c.blocks, b) is Some {
        validate_decision(c.blocks, b)
    } else if b.transactions.len() == 0 {
        None
    } else if b.transactions[0].inputs.len() != 0 {
        Some(ValidationError::InvalidCoinbaseTransaction)
    } else if scan_decision(b.transactions, c.unspent, Set::empty(), 1) is Some {
        scan_decision(b.transactions, c.unspent, Set::empty(), 1)
    } else if b.index != 0 && packets_value(b.transactions[0].outputs) != txs_fees(
        b.transactions,
        1,
    ) + REWARD {
        Some(ValidationError::InvalidCoinbaseTransaction)
    } else {
        None
    }
}

/// The append-only chain of accepted blocks and the authoritative set of
/// currently spendable outputs, kept consistent by the one mutating entry
/// point.
pub struct Blockchain {
    pub blocks: Vec<Block>,
    pub unspent_outputs: Vec<crate::Hash>,
}

impl View for Blockchain {
    type V = ChainView;

    open spec fn view(&self) -> ChainView {
        ChainView {
            blocks: self.blocks@.map_values(|b: Block| b@),
            unspent: hashes_set(self.unspent_outputs@),
        }
    }
}

impl Default for Blockchain {
    fn default() -> (r: Self)
        ensures
            r@.blocks.len() == 0,
            r@.unspent == Set::<Seq<u8>>::empty(),
            r.wf(),
    {
        let r = Blockchain { blocks: Vec::new(), unspent_outputs: Vec::new() };
        proof {
            assert(r@.unspent =~= Set::<Seq<u8>>::empty());
            assert(r@.blocks =~= Seq::<BlockView>::empty());
        }
        r
    }
}

impl Blockchain {
    /// The chain's maintained invariant.
    pub open spec fn wf(&self) -> bool {
        chain_wf(self@)
    }

    /// The position the next accepted block must carry.
    pub fn next_block_index(&self) -> (r: u64)
        ensures
            r == self@.blocks.len(),
    {
        self.blocks.len() as u64
    }

    /// The hash of the last accepted block, or the zero sentinel on an
    /// empty chain.
    pub fn last_block_hash(&self) -> (r: crate::Hash)
        ensures
            self@.blocks.len() == 0 ==> r@ == zero_hash(),
            self@.blocks.len() > 0 ==> r@ == self@.blocks.last().hash,
    {
        let n = self.blocks.len();
        if n == 0 {
            Default::default()
        } else {
            self.blocks[n - 1].hash
        }
    }

    /// The structural checks on a candidate block, in order, stopping at the
    /// first violation; pure, the chain is untouched.
    pub fn validate_block(&self, block: &Block) -> (r: Result<(), ValidationError>)
        ensures
            r is Ok <==> validate_decision(self@.blocks, block@) is None,
            r is Err ==> Some(r->Err_0) == validate_decision(self@.blocks, block@),
    {
        let index = self.blocks.len();
        if block.index != index as u64 {
            return Err(ValidationError::IndexMismatch);
        }
        if !block.check_difficulty(block.hash) {
            return Err(ValidationError::DifficultyMismatch);
        }
        let computed = block.hash();
        if !block.hash.equals(&computed) {
            return Err(ValidationError::HashMismatch);
        }
        if index == 0 {
            let zero: crate::Hash = Default::default();
            if !block.prev_block_hash.equals(&zero) {
                return Err(ValidationError::HashChainViolation);
            }
        } else {
            if !block.prev_block_hash.equals(&self.blocks[index - 1].hash) {
                return Err(ValidationError::HashChainViolation);
            }
            if block.timestamp.0 < self.blocks[index - 1].timestamp.0 {
                return Err(ValidationError::TimestampViolation);
            }
        }
        Ok(())
    }
}

/// Keeps the hashes of `v` that `remove` does not hold.
fn hashes_filter_out(v: &Vec<crate::Hash>, remove: &Vec<crate::Hash>) -> (r: Vec<crate::Hash>)
    ensures
        hashes_set(r@) == hashes_set(v@).difference(hashes_set(remove@)),
{
    let n = v.len();
    let mut r: Vec<crate::Hash> = Vec::new();
    let mut i: usize = 0;
    while i < n
        invariant
            0 <= i <= n,
            n == v@.len(),
            hashes_set(r@) == hashes_set(v@.subrange(0, i as int)).difference(
                hashes_set(remove@),
            ),
        decreases n - i,
    {
        let ghost pre = r@;
        let in_remove = hashes_contains(remove, &v[i]);
        if !in_remove {
            r.push(v[i]);
        }
        proof {
            let sub1 = v@.subrange(0, i + 1);
            let target = hashes_set(sub1).difference(hashes_set(remove@));
            assert forall|h: Seq<u8>| hashes_set(r@).contains(h) implies target.contains(h) by {
                let j = choose|j: int| 0 <= j < r@.len() && r@[j]@ == h;
                if j < pre.len() {
                    assert(pre[j]@ == h);
                    assert(hashes_set(pre).contains(h));
                    let k = choose|k: int| 0 <= k < i && v@.subrange(0, i as int)[k]@ == h;
                    assert(sub1[k]@ == h);
                } else {
                    assert(r@[j] == v@[i as int]);
                    assert(sub1[i as int]@ == h);
                }
            };
            assert forall|h: Seq<u8>| target.contains(h) implies hashes_set(r@).contains(h) by {
                let k = choose|k: int| 0 <= k < sub1.len() && sub1[k]@ == h;
                if k < i {
                    assert(v@.subrange(0, i as int)[k]@ == h);
                    assert(hashes_set(v@.subrange(0, i as int)).contains(h));
                    assert(hashes_set(pre).contains(h));
                    let j = choose|j: int| 0 <= j < pre.len() && pre[j]@ == h;
                    assert(r@[j] == pre[j]);
                    assert(r@[j]@ == h);
                } else {
                    assert(v@[i as int]@ == h);
                    assert(!in_remove);
                    assert(r@.last()@ == h);
                }
            };
            assert(hashes_set(r@) =~= target);
        }
        i = i + 1;
    }
    proof {
        assert(v@.subrange(0, n as int) =~= v@);
    }
    r
}

/// Whether every digest in `hs` is in the unspent set and not in the
/// block-spent set.
fn check_inputs(
    unspent: &Vec<crate::Hash>,
    block_spent: &Vec<crate::Hash>,
    hs: &Vec<crate::Hash>,
) -> (r: bool)
    ensures
        r == forall|l: int|
            0 <= l < hs@.len() ==> hashes_set(unspent@).contains(#[trigger] hs@[l]@)
                && !hashes_set(block_spent@).contains(hs@[l]@),
{
    let m = hs.len();
    let mut k: usize = 0;
    while k < m
        invariant
            0 <= k <= m,
            m == hs@.len(),
            forall|l: int|
                0 <= l < k ==> hashes_set(unspent@).contains(#[trigger] hs@[l]@)
                    && !hashes_set(block_spent@).contains(hs@[l]@),
        decreases m - k,
    {
        let in_unspent = hashes_contains(unspent, &hs[k]);
        let in_spent = hashes_contains(block_spent, &hs[k]);
        if !in_unspent || in_spent {
            return false;
        }
        k = k + 1;
    }
    true
}

/// An accepted, well-formed block extends a well-formed chain.
proof fn lemma_wf_push(c: ChainView, b: BlockView)
    requires
        chain_wf(c),
        validate_decision(c.blocks, b) is None,
        block_txs_wf(b),
    ensures
        chain_wf(ChainView { blocks: c.blocks.push(b), unspent: apply_block(c.unspent, b) }),
{
    let nb = c.blocks.push(b);
    let len = c.blocks.len() as int;
    assert(b.index == c.blocks.len());
    assert forall|i: int| 0 <= i < nb.len() implies (#[trigger] nb[i]).index == i by {
        if i < len {
            assert(nb[i] == c.blocks[i]);
        } else {
            assert(nb[i] == b);
        }
    };
    assert forall|i: int|
        0 <= i < nb.len() implies difficulty_value((#[trigger] nb[i]).hash) < nb[i].difficulty by {
        if i < len {
            assert(nb[i] == c.blocks[i]);
        } else {
            assert(nb[i] == b);
        }
    };
    assert forall|i: int|
        0 <= i < nb.len() implies (#[trigger] nb[i]).hash == hash_of(block_bytes(nb[i])) by {
        if i < len {
            assert(nb[i] == c.blocks[i]);
        } else {
            assert(nb[i] == b);
        }
    };
    assert(nb[0].prev_hash == zero_hash());
    assert forall|i: int|
        1 <= i < nb.len() implies (#[trigger] nb[i]).prev_hash == nb[i - 1].hash by {
        if i < len {
            assert(nb[i] == c.blocks[i]);
            assert(nb[i - 1] == c.blocks[i - 1]);
        } else {
            assert(nb[i] == b);
            assert(nb[i - 1] == c.blocks[i - 1]);
            assert(b.prev_hash == c.blocks.last().hash);
        }
    };
    assert forall|i: int|
        1 <= i < nb.len() implies (#[trigger] nb[i]).timestamp >= nb[i - 1].timestamp by {
        if i < len {
            assert(nb[i] == c.blocks[i]);
            assert(nb[i - 1] == c.blocks[i - 1]);
        } else {
            assert(nb[i] == b);
            assert(nb[i - 1] == c.blocks[i - 1]);
        }
    };
    assert forall|i: int| 0 <= i < nb.len() implies block_txs_wf(#[trigger] nb[i]) by {
        if i < len {
            assert(nb[i] == c.blocks[i]);
        } else {
            assert(nb[i] == b);
        }
    };
    assert(nb.drop_last() =~= c.blocks);
    assert(nb.last() == b);
    assert(replay_unspent(nb) == apply_block(replay_unspent(c.blocks), b));
}

impl Blockchain {
    /// The one mutating entry point: validates the candidate block in full
    /// against the chain and the unspent-output set, and only on full
    /// success atomically removes the consumed outputs, adds the created
    /// ones, and appends the block. On any failure the chain is untouched.
    #[verifier::loop_isolation(false)]
    #[verifier::rlimit(100)]
    pub fn update_with_block(&mut self, block: Block) -> (r: Result<(), ValidationError>)
        requires
            old(self).wf(),
            txs_value_total(block@.transactions) < u64::MAX,
        ensures
            r is Ok <==> update_decision(old(self)@, block@) is None,
            r is Ok ==> final(self)@.blocks == old(self)@.blocks.push(block@)
                && final(self)@.unspent == apply_block(old(self)@.unspent, block@),
            r is Err ==> Some(r->Err_0) == update_decision(old(self)@, block@)
                && final(self)@ == old(self)@,
            final(self).wf(),
    {
        let ghost c0 = old(self)@;
        let ghost bv = block@;
        let ghost ts = block@.transactions;
        let ghost u = old(self)@.unspent;
        match self.validate_block(&block) {
            Err(e) => {
                return Err(e);
            },
            Ok(_) => {},
        }
        let n = block.transactions.0.len();
        if n == 0 {
            proof {
                lemma_wf_push(c0, bv);
            }
            self.blocks.push(block);
            proof {
                assert(self@.blocks =~= c0.blocks.push(bv));
                assert(self@ =~= ChainView {
                    blocks: c0.blocks.push(bv),
                    unspent: apply_block(u, bv),
                });
            }
            return Ok(());
        }
        if !block.transactions.0[0].is_coinbase() {
            return Err(ValidationError::InvalidCoinbaseTransaction);
        }
        let mut block_spent: Vec<crate::Hash> = Vec::new();
        let mut block_created: Vec<crate::Hash> = Vec::new();
        let mut total_fee: u64 = 0;
        proof {
            lemma_txs_sums_nonneg(ts.subrange(0, 1));
            assert(ts.subrange(1, 1) =~= Seq::<TransactionView>::empty());
            assert(txs_input_hash_set(ts.subrange(1, 1)) =~= Set::<Seq<u8>>::empty());
            assert(txs_output_hash_set(ts.subrange(1, 1)) =~= Set::<Seq<u8>>::empty());
            assert(hashes_set(block_spent@) =~= Set::<Seq<u8>>::empty());
            assert(hashes_set(block_created@) =~= Set::<Seq<u8>>::empty());
        }
        let mut j: usize = 1;
        while j < n
            invariant
                1 <= j <= n,
                hashes_set(block_spent@) == txs_input_hash_set(ts.subrange(1, j as int)),
                hashes_set(block_created@) == txs_output_hash_set(ts.subrange(1, j as int)),
                total_fee as int == txs_fees(ts, 1) - txs_fees(ts, j as int),
                total_fee as int <= txs_value_total(ts.subrange(0, j as int)),
                scan_decision(ts, u, Set::empty(), 1) == scan_decision(
                    ts,
                    u,
                    hashes_set(block_spent@),
                    j as int,
                ),
            decreases n - j,
        {
            let ghost spent_set = hashes_set(block_spent@);
            let tx = &block.transactions.0[j];
            let in_hashes = tx.input_hashes();
            let ghost tv = ts[j as int];
            proof {
                assert(tx@ == tv);
            }
            let inputs_ok = check_inputs(&self.unspent_outputs, &block_spent, &in_hashes);
            if !inputs_ok {
                proof {
                    let l = choose|l: int|
                        !(0 <= l < in_hashes@.len() ==> hashes_set(
                            self.unspent_outputs@,
                        ).contains(#[trigger] in_hashes@[l]@) && !hashes_set(
                            block_spent@,
                        ).contains(in_hashes@[l]@));
                    assert(in_hashes@[l]@ == packet_hash(tv.inputs[l]));
                    assert(!tx_inputs_ok(tv, u, spent_set));
                    assert(scan_decision(ts, u, spent_set, j as int) == Some(
                        ValidationError::InvalidInput,
                    ));
                }
                return Err(ValidationError::InvalidInput);
            }
            proof {
                assert forall|l: int|
                    0 <= l < tv.inputs.len() implies u.contains(
                    #[trigger] packet_hash(tv.inputs[l]),
                ) && !spent_set.contains(packet_hash(tv.inputs[l])) by {
                    assert(in_hashes@[l]@ == packet_hash(tv.inputs[l]));
                }
                assert(tx_inputs_ok(tv, u, spent_set));
                lemma_txs_elem_bounds(ts, j as int);
                lemma_packets_value_nonneg(tv.inputs);
                lemma_packets_value_nonneg(tv.outputs);
            }
            let iv = tx.input_value();
            let ov = tx.output_value();
            if ov > iv {
                proof {
                    assert(scan_decision(ts, u, spent_set, j as int) == Some(
                        ValidationError::InsufficientInputValue,
                    ));
                }
                return Err(ValidationError::InsufficientInputValue);
            }
            proof {
                lemma_txs_sums_split(ts, j as int);
                lemma_txs_sums_split(ts, j + 1);
                assert(ts.subrange(0, j + 1).drop_last() =~= ts.subrange(0, j as int));
                assert(ts.subrange(0, j + 1).last() == ts[j as int]);
                lemma_txs_sums_nonneg(ts.subrange(j + 1, ts.len() as int));
                lemma_txs_sums_nonneg(ts.subrange(0, j as int));
            }
            let fee = iv - ov;
            total_fee = total_fee + fee;
            let mut ih = in_hashes;
            let ghost ihv = ih@;
            let ghost spent_pre = block_spent@;
            block_spent.append(&mut ih);
            let mut oh = tx.output_hashes();
            let ghost ohv = oh@;
            let ghost created_pre = block_created@;
            block_created.append(&mut oh);
            proof {
                lemma_hashes_set_concat(spent_pre, ihv);
                lemma_hashes_set_concat(created_pre, ohv);
                assert(ts.subrange(1, j + 1).drop_last() =~= ts.subrange(1, j as int));
                assert(ts.subrange(1, j + 1).last() == ts[j as int]);
                assert(hashes_set(block_spent@) =~= txs_input_hash_set(ts.subrange(1, j + 1)));
                assert(hashes_set(block_created@) =~= txs_output_hash_set(ts.subrange(1, j + 1)));
                assert(scan_decision(ts, u, spent_set, j as int) == scan_decision(
                    ts,
                    u,
                    spent_set.union(packets_hash_set(tv.inputs)),
                    j + 1,
                ));
                assert(spent_set.union(packets_hash_set(tv.inputs)) =~= hashes_set(
                    block_spent@,
                ));
            }
            j = j + 1;
        }
        proof {
            assert(scan_decision(ts, u, Set::empty(), 1) is None);
            assert(txs_fees(ts, n as int) == 0);
            assert(total_fee as int == txs_fees(ts, 1));
            assert(ts.subrange(0, n as int) =~= ts);
        }
        if block.index != 0 {
            proof {
                lemma_txs_elem_bounds(ts, 0);
                lemma_packets_value_nonneg(ts[0].inputs);
                lemma_packets_value_nonneg(ts[0].outputs);
            }
            let cb_out = block.transactions.0[0].output_value();
            if cb_out != total_fee + 1 {
                proof {
                    assert(update_decision(c0, bv) == Some(
                        ValidationError::InvalidCoinbaseTransaction,
                    ));
                }
                return Err(ValidationError::InvalidCoinbaseTransaction);
            }
        }
        proof {
            assert(update_decision(c0, bv) is None);
            lemma_scan_ok(ts, u, Set::empty(), 1);
            if bv.index == 0 {
                assert(c0.blocks.len() == 0);
                assert(replay_unspent(c0.blocks) =~= Set::<Seq<u8>>::empty());
                assert(u == Set::<Seq<u8>>::empty());
                lemma_scan_ok_empty(ts, Set::empty(), 1);
            }
            assert(block_txs_wf(bv));
        }
        let mut cb_hashes = block.transactions.0[0].output_hashes();
        let ghost cbv = cb_hashes@;
        let ghost created_pre2 = block_created@;
        let ghost cb_set = packets_hash_set(ts[0].outputs);
        block_created.append(&mut cb_hashes);
        proof {
            lemma_hashes_set_concat(created_pre2, cbv);
            lemma_txs_hash_sets_split(ts, 1);
            let head = ts.subrange(0, 1);
            assert(head.len() == 1);
            assert(head.drop_last().len() == 0);
            assert(head.last() == ts[0]);
            assert(txs_output_hash_set(head.drop_last()) =~= Set::<Seq<u8>>::empty());
            assert(txs_output_hash_set(head) =~= cb_set);
            assert(hashes_set(block_created@) =~= txs_output_hash_set(ts));
        }
        let mut new_unspent = hashes_filter_out(&self.unspent_outputs, &block_spent);
        let ghost filtered_view = new_unspent@;
        let ghost created_view = block_created@;
        new_unspent.append(&mut block_created);
        proof {
            lemma_hashes_set_concat(filtered_view, created_view);
            lemma_wf_push(c0, bv);
        }
        self.unspent_outputs = new_unspent;
        self.blocks.push(block);
        proof {
            assert(self@.blocks =~= c0.blocks.push(bv));
            assert(hashes_set(self.unspent_outputs@) =~= apply_block(u, bv));
            assert(self@ =~= ChainView { blocks: c0.blocks.push(bv), unspent: apply_block(u, bv) });
        }
        Ok(())
    }
}

/// The net value a transaction list adds to circulation: outputs minus
/// inputs — the sum of the balance deltas its packets cause.
pub open spec fn txs_delta(ts: Seq<TransactionView>) -> int {
    txs_output_value(ts) - txs_input_value(ts)
}

/// The net value a whole chain has put into circulation.
pub open spec fn chain_delta(blocks: Seq<BlockView>) -> int
    decreases blocks.len(),
{
    if blocks.len() == 0 {
        0
    } else {
        chain_delta(blocks.drop_last()) + txs_delta(blocks.last().transactions)
    }
}

/// The sum of every packet value over a whole chain.
pub open spec fn chain_value_total(blocks: Seq<BlockView>) -> int
    decreases blocks.len(),
{
    if blocks.len() == 0 {
        0
    } else {
        chain_value_total(blocks.drop_last()) + txs_value_total(blocks.last().transactions)
    }
}

/// The per-name net value of a whole chain, replayed block by block.
pub open spec fn chain_balance(blocks: Seq<BlockView>) -> Map<Seq<char>, int>
    decreases blocks.len(),
{
    if blocks.len() == 0 {
        Map::empty()
    } else {
        combined(chain_balance(blocks.drop_last()), txs_balance(blocks.last().transactions))
    }
}

pub proof fn lemma_chain_value_total_nonneg(blocks: Seq<BlockView>)
    ensures
        chain_value_total(blocks) >= 0,
    decreases blocks.len(),
{
    if blocks.len() != 0 {
        lemma_chain_value_total_nonneg(blocks.drop_last());
        lemma_txs_sums_nonneg(blocks.last().transactions);
    }
}

/// Chain-wide value totals split at any cut point.
pub proof fn lemma_chain_value_total_split(blocks: Seq<BlockView>, i: int)
    requires
        0 <= i <= blocks.len(),
    ensures
        chain_value_total(blocks) == chain_value_total(blocks.subrange(0, i))
            + chain_value_total(blocks.subrange(i, blocks.len() as int)),
    decreases blocks.len(),
{
    if i == blocks.len() {
        assert(blocks.subrange(0, i) =~= blocks);
    } else {
        let dl = blocks.drop_last();
        lemma_chain_value_total_split(dl, i);
        assert(dl.subrange(0, i) =~= blocks.subrange(0, i));
        let tail = blocks.subrange(i, blocks.len() as int);
        assert(tail.len() > 0);
        assert(tail.drop_last() =~= dl.subrange(i, dl.len() as int));
        assert(tail.last() == blocks.last());
    }
}

/// Each block's own value total is bounded by the chain-wide total.
pub proof fn lemma_chain_elem_bound(blocks: Seq<BlockView>, i: int)
    requires
        0 <= i < blocks.len(),
    ensures
        0 <= txs_value_total(blocks[i].transactions),
        txs_value_total(blocks[i].transactions) <= chain_value_total(blocks),
{
    lemma_chain_value_total_split(blocks, i);
    lemma_chain_value_total_split(blocks.subrange(i, blocks.len() as int), 1);
    let unit = blocks.subrange(i, blocks.len() as int).subrange(0, 1);
    assert(unit.len() == 1);
    assert(unit.drop_last().len() == 0);
    assert(unit.last() == blocks[i]);
    assert(chain_value_total(unit.drop_last()) == 0);
    assert(chain_value_total(unit) == txs_value_total(blocks[i].transactions));
    lemma_chain_value_total_nonneg(blocks.subrange(0, i));
    lemma_chain_value_total_nonneg(
        blocks.subrange(i, blocks.len() as int).subrange(1, blocks.len() - i),
    );
    lemma_txs_sums_nonneg(blocks[i].transactions);
}

/// No name's chain-wide net value exceeds the chain-wide value total, in
/// either direction.
pub proof fn lemma_chain_balance_bound(blocks: Seq<BlockView>, k: Seq<char>)
    ensures
        -chain_value_total(blocks) <= map_get0(chain_balance(blocks), k),
        map_get0(chain_balance(blocks), k) <= chain_value_total(blocks),
    decreases blocks.len(),
{
    lemma_chain_value_total_nonneg(blocks);
    if blocks.len() != 0 {
        lemma_chain_balance_bound(blocks.drop_last(), k);
        lemma_txs_balance_bound(blocks.last().transactions, k);
        lemma_txs_sums_nonneg(blocks.last().transactions);
    }
}

impl Blockchain {
    /// Replays every transaction of every accepted block in chain order,
    /// crediting outputs and debiting inputs, into one per-name summary.
    #[verifier::loop_isolation(false)]
    pub fn balance(&self) -> (r: Balance)
        requires
            chain_value_total(self@.blocks) <= i64::MAX,
        ensures
            r.wf(),
            r@ == chain_balance(self@.blocks),
            r.total() == chain_delta(self@.blocks),
    {
        let ghost bs = self@.blocks;
        let mut bal = Balance::default();
        let n = self.blocks.len();
        let mut i: usize = 0;
        while i < n
            invariant
                0 <= i <= n,
                bal.wf(),
                bal@ == chain_balance(bs.subrange(0, i as int)),
                bal.total() == chain_delta(bs.subrange(0, i as int)),
            decreases n - i,
        {
            let ghost pref = bs.subrange(0, i as int);
            proof {
                lemma_chain_elem_bound(bs, i as int);
                lemma_chain_value_total_split(bs, i + 1);
                lemma_chain_value_total_nonneg(bs.subrange(i + 1, bs.len() as int));
                lemma_chain_value_total_nonneg(pref);
                assert(bs.subrange(0, i + 1).drop_last() =~= pref);
                assert(bs.subrange(0, i + 1).last() == bs[i as int]);
                assert forall|k: Seq<char>|
                    i64::MIN <= #[trigger] map_get0(chain_balance(pref), k) + map_get0(
                    txs_balance(bs[i as int].transactions),
                    k,
                ) <= i64::MAX by {
                    lemma_chain_balance_bound(pref, k);
                    lemma_txs_balance_bound(bs[i as int].transactions, k);
                    lemma_txs_sums_nonneg(bs[i as int].transactions);
                    assert(chain_value_total(bs.subrange(0, i + 1)) == chain_value_total(pref)
                        + txs_value_total(bs[i as int].transactions));
                };
            }
            let tb = Balance::from_transactions(&self.blocks[i].transactions);
            bal = bal.combine(tb);
            i = i + 1;
        }
        proof {
            assert(bs.subrange(0, n as int) =~= bs);
        }
        bal
    }
}

} // verus!
