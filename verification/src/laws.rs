use vstd::prelude::*;

use crate::block::{block_bytes, BlockView};
use crate::chain::{
    chain_delta, chain_wf, lemma_scan_ok, scan_decision, tx_inputs_ok, txs_delta, txs_fees,
    update_decision, validate_decision, ChainView, ValidationError,
};
use crate::transaction::{
    lemma_packets_value_nonneg, lemma_txs_sums_split, packet_hash, packets_value,
    txs_input_value, txs_output_value, TransactionView, REWARD,
};
use crate::{difficulty_value, hash_of, zero_hash};

verus! {

/// A block the whole acceptance decision lets through passes validation
/// again on the unchanged chain: re-validating an accepted block, with the
/// chain as it was, succeeds.
pub proof fn lemma_revalidation(c: ChainView, b: BlockView)
    requires
        update_decision(c, b) is None,
    ensures
        validate_decision(c.blocks, b) is None,
{
}

/// A block at position zero with the zero predecessor sentinel, a correctly
/// recomputed hash meeting its difficulty, and a single coinbase transaction
/// is accepted on an empty chain — whatever value its coinbase mints: the
/// fee formula does not constrain the genesis block.
pub proof fn lemma_genesis_accepted(c: ChainView, b: BlockView)
    requires
        chain_wf(c),
        c.blocks.len() == 0,
        b.index == 0,
        b.prev_hash == zero_hash(),
        b.hash == hash_of(block_bytes(b)),
        difficulty_value(b.hash) < b.difficulty,
        b.transactions.len() == 1,
        b.transactions[0].inputs.len() == 0,
    ensures
        update_decision(c, b) is None,
{
    assert(validate_decision(c.blocks, b) is None);
    assert(scan_decision(b.transactions, c.unspent, Set::empty(), 1) is None);
}

/// A block whose second transaction consumes an identifier that is no
/// longer in the unspent set — an output already spent — is rejected as
/// `InvalidInput`, however sound the rest of the block is.
pub proof fn lemma_double_spend_rejected(c: ChainView, b: BlockView, i: int)
    requires
        validate_decision(c.blocks, b) is None,
        b.transactions.len() >= 2,
        b.transactions[0].inputs.len() == 0,
        0 <= i < b.transactions[1].inputs.len(),
        !c.unspent.contains(packet_hash(b.transactions[1].inputs[i])),
    ensures
        update_decision(c, b) == Some(ValidationError::InvalidInput),
{
    assert(!tx_inputs_ok(b.transactions[1], c.unspent, Set::empty()));
    assert(scan_decision(b.transactions, c.unspent, Set::empty(), 1) == Some(
        ValidationError::InvalidInput,
    ));
}

/// In any accepted non-genesis block, the coinbase's total output value is
/// exactly the fees collected from the other transactions plus the fixed
/// reward.
pub proof fn lemma_fee_reward_of_accepted(c: ChainView, b: BlockView)
    requires
        update_decision(c, b) is None,
        b.transactions.len() > 0,
        b.index != 0,
    ensures
        packets_value(b.transactions[0].outputs) == txs_fees(b.transactions, 1) + REWARD,
{
}

/// A non-genesis block whose coinbase pays anything but the collected fees
/// plus the fixed reward is rejected as `InvalidCoinbaseTransaction`, once
/// every other check has passed.
pub proof fn lemma_fee_reward_violation_rejected(c: ChainView, b: BlockView)
    requires
        validate_decision(c.blocks, b) is None,
        b.transactions.len() > 0,
        b.transactions[0].inputs.len() == 0,
        scan_decision(b.transactions, c.unspent, Set::empty(), 1) is None,
        b.index != 0,
        packets_value(b.transactions[0].outputs) != txs_fees(b.transactions, 1) + REWARD,
    ensures
        update_decision(c, b) == Some(ValidationError::InvalidCoinbaseTransaction),
{
}

/// In a well-formed chain every block past the first records, as its
/// predecessor hash, the recomputed digest of the previous block's contents:
/// tampering with any prior block's contents breaks the link right after it.
pub proof fn lemma_chain_links(c: ChainView)
    requires
        chain_wf(c),
    ensures
        forall|i: int|
            1 <= i < c.blocks.len() ==> (#[trigger] c.blocks[i]).prev_hash == hash_of(
                block_bytes(c.blocks[i - 1]),
            ),
{
    assert forall|i: int|
        1 <= i < c.blocks.len() implies (#[trigger] c.blocks[i]).prev_hash == hash_of(
        block_bytes(c.blocks[i - 1]),
    ) by {
        assert(c.blocks[i].prev_hash == c.blocks[i - 1].hash);
        assert(c.blocks[i - 1].hash == hash_of(block_bytes(c.blocks[i - 1])));
    };
}

/// Every non-coinbase transaction of an accepted block conserves value: it
/// creates no more than it consumes.
pub proof fn lemma_value_conservation(c: ChainView, b: BlockView)
    requires
        update_decision(c, b) is None,
    ensures
        forall|j: int|
            1 <= j < b.transactions.len() ==> packets_value(
                (#[trigger] b.transactions[j]).outputs,
            ) <= packets_value(b.transactions[j].inputs),
{
    if b.transactions.len() > 0 {
        lemma_scan_ok(b.transactions, c.unspent, Set::empty(), 1);
    }
}

/// The fee suffix sum is the input total minus the output total of the
/// remaining transactions.
proof fn lemma_fees_eq_sums(ts: Seq<TransactionView>, j: int)
    requires
        0 <= j <= ts.len(),
    ensures
        txs_fees(ts, j) == txs_input_value(ts.subrange(j, ts.len() as int)) - txs_output_value(
            ts.subrange(j, ts.len() as int),
        ),
    decreases ts.len() - j,
{
    if j == ts.len() {
        assert(ts.subrange(j, ts.len() as int).len() == 0);
    } else {
        lemma_fees_eq_sums(ts, j + 1);
        let tail = ts.subrange(j, ts.len() as int);
        lemma_txs_sums_split(tail, 1);
        let unit = tail.subrange(0, 1);
        assert(unit.len() == 1);
        assert(unit.drop_last().len() == 0);
        assert(unit.last() == ts[j]);
        assert(txs_input_value(unit.drop_last()) == 0);
        assert(txs_output_value(unit.drop_last()) == 0);
        assert(txs_input_value(unit) == packets_value(ts[j].inputs));
        assert(txs_output_value(unit) == packets_value(ts[j].outputs));
        assert(tail.subrange(1, tail.len() as int) =~= ts.subrange(j + 1, ts.len() as int));
    }
}

/// All sums vanish over transactions with no inputs and no output value.
proof fn lemma_txs_sums_zero(ts: Seq<TransactionView>)
    requires
        forall|j: int|
            0 <= j < ts.len() ==> (#[trigger] ts[j]).inputs.len() == 0 && packets_value(
                ts[j].outputs,
            ) == 0,
    ensures
        txs_input_value(ts) == 0,
        txs_output_value(ts) == 0,
    decreases ts.len(),
{
    if ts.len() != 0 {
        assert forall|j: int|
            0 <= j < ts.drop_last().len() implies (#[trigger] ts.drop_last()[j]).inputs.len() == 0
            && packets_value(ts.drop_last()[j].outputs) == 0 by {
            assert(ts.drop_last()[j] == ts[j]);
        };
        lemma_txs_sums_zero(ts.drop_last());
        assert(ts.last().inputs.len() == 0);
        assert(packets_value(ts.last().inputs) == 0);
    }
}

/// One accepted non-empty block changes circulation by its coinbase value
/// when it is the genesis block, and by exactly the fixed reward otherwise:
/// collected fees cancel out.
proof fn lemma_block_delta(b: BlockView)
    requires
        crate::chain::block_txs_wf(b),
        b.transactions.len() > 0,
    ensures
        b.index == 0 ==> txs_delta(b.transactions) == packets_value(b.transactions[0].outputs),
        b.index != 0 ==> txs_delta(b.transactions) == REWARD,
{
    let ts = b.transactions;
    lemma_fees_eq_sums(ts, 1);
    lemma_txs_sums_split(ts, 1);
    let head = ts.subrange(0, 1);
    assert(head.len() == 1);
    assert(head.drop_last().len() == 0);
    assert(head.last() == ts[0]);
    assert(txs_input_value(head.drop_last()) == 0);
    assert(txs_output_value(head.drop_last()) == 0);
    assert(txs_input_value(head) == packets_value(ts[0].inputs));
    assert(txs_output_value(head) == packets_value(ts[0].outputs));
    assert(ts[0].inputs.len() == 0);
    assert(packets_value(ts[0].inputs) == 0);
    if b.index == 0 {
        assert forall|j: int|
            0 <= j < ts.subrange(1, ts.len() as int).len() implies (#[trigger] ts.subrange(
            1,
            ts.len() as int,
        )[j]).inputs.len() == 0 && packets_value(ts.subrange(1, ts.len() as int)[j].outputs)
            == 0 by {
            assert(ts.subrange(1, ts.len() as int)[j] == ts[j + 1]);
        };
        lemma_txs_sums_zero(ts.subrange(1, ts.len() as int));
    }
}

/// Total supply law: over any well-formed chain of non-empty blocks, the
/// value in circulation is the genesis coinbase value plus one fixed reward
/// for each later block — no other value is ever created. By
/// `Blockchain::balance`'s contract its summary sums to exactly this
/// `chain_delta`, so the recorded net values add up to the same amount.
/// A block with an empty transaction list mints nothing, so the law asks
/// that every block carry at least one transaction.
pub proof fn lemma_total_supply(c: ChainView)
    requires
        chain_wf(c),
        c.blocks.len() > 0,
        forall|i: int| 0 <= i < c.blocks.len() ==> (#[trigger] c.blocks[i]).transactions.len() > 0,
    ensures
        chain_delta(c.blocks) == packets_value(c.blocks[0].transactions[0].outputs) + (
        c.blocks.len() - 1) * (REWARD as int),
{
    lemma_chain_delta_inner(c.blocks);
}

proof fn lemma_chain_delta_inner(blocks: Seq<BlockView>)
    requires
        blocks.len() > 0,
        forall|i: int| 0 <= i < blocks.len() ==> (#[trigger] blocks[i]).index == i,
        forall|i: int| 0 <= i < blocks.len() ==> crate::chain::block_txs_wf(#[trigger] blocks[i]),
        forall|i: int| 0 <= i < blocks.len() ==> (#[trigger] blocks[i]).transactions.len() > 0,
    ensures
        chain_delta(blocks) == packets_value(blocks[0].transactions[0].outputs) + (blocks.len()
            - 1) * (REWARD as int),
    decreases blocks.len(),
{
    if blocks.len() == 1 {
        assert(blocks[0].index == 0);
        lemma_block_delta(blocks[0]);
        assert(chain_delta(blocks.drop_last()) == 0);
        assert(blocks.last() == blocks[0]);
    } else {
        let dl = blocks.drop_last();
        assert forall|i: int| 0 <= i < dl.len() implies (#[trigger] dl[i]).index == i by {
            assert(dl[i] == blocks[i]);
        };
        assert forall|i: int|
            0 <= i < dl.len() implies crate::chain::block_txs_wf(#[trigger] dl[i]) by {
            assert(dl[i] == blocks[i]);
        };
        assert forall|i: int| 0 <= i < dl.len() implies (#[trigger] dl[i]).transactions.len()
            > 0 by {
            assert(dl[i] == blocks[i]);
        };
        lemma_chain_delta_inner(dl);
        assert(blocks.last().index == blocks.len() - 1);
        lemma_block_delta(blocks.last());
        assert(dl[0] == blocks[0]);
    }
}

} // verus!

