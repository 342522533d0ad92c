use vstd::prelude::*;

use crate::{blake2b_digest, hash_of, push_bytes, push_u64_le, u64_le_bytes, Hashable};

verus! {

/// The fixed reward minted by every non-genesis block's coinbase.
pub const REWARD: u64 = 1;

/// The atomic unit of value: a spendable packet tied to a named owner. Two
/// packets with identical fields are indistinguishable and hash identically;
/// an input refers to a prior output by being a byte-for-byte copy of it.
#[derive(Debug, Clone)]
pub struct Packet {
    pub to: String,
    pub id: u64,
    pub value: u64,
}

#[verifier::ext_equal]
pub struct PacketView {
    pub to: Seq<char>,
    pub id: u64,
    pub value: u64,
}

impl View for Packet {
    type V = PacketView;

    open spec fn view(&self) -> PacketView {
        PacketView { to: self.to@, id: self.id, value: self.value }
    }
}

/// Canonical byte expansion of a packet: the owner's UTF-8 bytes, then the
/// id and the value, each as eight little-endian bytes.
pub open spec fn packet_bytes(p: PacketView) -> Seq<u8> {
    vstd::utf8::encode_utf8(p.to) + u64_le_bytes(p.id) + u64_le_bytes(p.value)
}

/// A packet's unique identifier: the digest of its canonical bytes.
pub open spec fn packet_hash(p: PacketView) -> Seq<u8> {
    hash_of(packet_bytes(p))
}

impl Packet {
    /// Builds the canonical byte expansion of this packet.
    pub fn canonical_bytes(&self) -> (r: Vec<u8>)
        ensures
            r@ == packet_bytes(self@),
    {
        let mut buf: Vec<u8> = Vec::new();
        push_bytes(&mut buf, self.to.as_str().as_bytes());
        push_u64_le(&mut buf, self.id);
        push_u64_le(&mut buf, self.value);
        buf
    }
}

impl Hashable for Packet {
    open spec fn digest_bytes(&self) -> Seq<u8> {
        packet_bytes(self@)
    }

    fn hash(&self) -> (h: crate::Hash) {
        let bytes = self.canonical_bytes();
        blake2b_digest(&bytes)
    }
}

/// The sum of the values of a sequence of packets.
pub open spec fn packets_value(ps: Seq<PacketView>) -> int
    decreases ps.len(),
{
    if ps.len() == 0 {
        0
    } else {
        packets_value(ps.drop_last()) + ps.last().value
    }
}

pub proof fn lemma_packets_value_nonneg(ps: Seq<PacketView>)
    ensures
        packets_value(ps) >= 0,
    decreases ps.len(),
{
    if ps.len() != 0 {
        lemma_packets_value_nonneg(ps.drop_last());
    }
}

/// A sequence's value sum splits at any cut point.
pub proof fn lemma_packets_value_split(ps: Seq<PacketView>, i: int)
    requires
        0 <= i <= ps.len(),
    ensures
        packets_value(ps) == packets_value(ps.subrange(0, i)) + packets_value(
            ps.subrange(i, ps.len() as int),
        ),
    decreases ps.len(),
{
    if i == ps.len() {
        assert(ps.subrange(0, i) =~= ps);
        assert(packets_value(ps.subrange(i, ps.len() as int)) == 0);
    } else {
        let dl = ps.drop_last();
        lemma_packets_value_split(dl, i);
        assert(dl.subrange(0, i) =~= ps.subrange(0, i));
        let tail = ps.subrange(i, ps.len() as int);
        assert(tail.len() > 0);
        assert(tail.drop_last() =~= dl.subrange(i, dl.len() as int));
        assert(tail.last() == ps.last());
    }
}

/// The set of identifiers (digests) of a sequence of packets.
pub open spec fn packets_hash_set(ps: Seq<PacketView>) -> Set<Seq<u8>> {
    Set::new(|h: Seq<u8>| exists|i: int| 0 <= i < ps.len() && packet_hash(ps[i]) == h)
}

/// Concatenated canonical bytes of a sequence of packets, in order.
pub open spec fn packets_bytes(ps: Seq<PacketView>) -> Seq<u8>
    decreases ps.len(),
{
    if ps.len() == 0 {
        Seq::empty()
    } else {
        packets_bytes(ps.drop_last()) + packet_bytes(ps.last())
    }
}

/// A set of inputs (references to prior outputs, as byte-exact copies) and a
/// set of outputs (newly created value units). A transaction with no inputs
/// is a coinbase transaction.
#[derive(Debug, Clone)]
pub struct Transaction {
    pub inputs: Vec<Packet>,
    pub outputs: Vec<Packet>,
}

#[verifier::ext_equal]
pub struct TransactionView {
    pub inputs: Seq<PacketView>,
    pub outputs: Seq<PacketView>,
}

impl View for Transaction {
    type V = TransactionView;

    open spec fn view(&self) -> TransactionView {
        TransactionView {
            inputs: self.inputs@.map_values(|p: Packet| p@),
            outputs: self.outputs@.map_values(|p: Packet| p@),
        }
    }
}

impl Default for Transaction {
    fn default() -> (r: Self)
        ensures
            r@.inputs.len() == 0,
            r@.outputs.len() == 0,
    {
        Transaction { inputs: Vec::new(), outputs: Vec::new() }
    }
}

/// Canonical byte expansion of a transaction: the canonical bytes of its
/// inputs, then of its outputs, concatenated in order.
pub open spec fn transaction_bytes(t: TransactionView) -> Seq<u8> {
    packets_bytes(t.inputs) + packets_bytes(t.outputs)
}

/// Sums the values of a vector of packets.
fn sum_packet_values(ps: &Vec<Packet>) -> (r: u64)
    requires
        packets_value(ps@.map_values(|p: Packet| p@)) <= u64::MAX,
    ensures
        r == packets_value(ps@.map_values(|p: Packet| p@)),
{
    let ghost view = ps@.map_values(|p: Packet| p@);
    let n = ps.len();
    let mut acc: u64 = 0;
    let mut i: usize = 0;
    while i < n
        invariant
            0 <= i <= n,
            n == ps@.len(),
            view == ps@.map_values(|p: Packet| p@),
            packets_value(view) <= u64::MAX,
            acc == packets_value(view.subrange(0, i as int)),
        decreases n - i,
    {
        proof {
            assert(view.subrange(0, i + 1).drop_last() =~= view.subrange(0, i as int));
            assert(view.subrange(0, i + 1).last() == view[i as int]);
            lemma_packets_value_split(view, i + 1);
            lemma_packets_value_nonneg(view.subrange(i + 1, view.len() as int));
            lemma_packets_value_nonneg(view.subrange(0, i as int));
        }
        acc = acc + ps[i].value;
        i = i + 1;
    }
    proof {
        assert(view.subrange(0, n as int) =~= view);
    }
    acc
}

/// Adds a vector of packet values to a running total, refusing a result at
/// or above the largest 64-bit value.
fn add_packet_values(acc: u64, ps: &Vec<Packet>) -> (r: Option<u64>)
    requires
        acc < u64::MAX,
    ensures
        r is Some ==> r->Some_0 < u64::MAX && r->Some_0 == acc + packets_value(
            ps@.map_values(|p: Packet| p@),
        ),
        r is None ==> acc + packets_value(ps@.map_values(|p: Packet| p@)) >= u64::MAX,
{
    let ghost view = ps@.map_values(|p: Packet| p@);
    let n = ps.len();
    let mut cur = acc;
    let mut i: usize = 0;
    while i < n
        invariant
            0 <= i <= n,
            n == ps@.len(),
            view == ps@.map_values(|p: Packet| p@),
            cur < u64::MAX,
            cur == acc + packets_value(view.subrange(0, i as int)),
        decreases n - i,
    {
        proof {
            assert(view.subrange(0, i + 1).drop_last() =~= view.subrange(0, i as int));
            assert(view.subrange(0, i + 1).last() == view[i as int]);
            lemma_packets_value_split(view, i + 1);
            lemma_packets_value_nonneg(view.subrange(i + 1, view.len() as int));
        }
        let v = ps[i].value;
        if v > u64::MAX - 1 - cur {
            return None;
        }
        cur = cur + v;
        i = i + 1;
    }
    proof {
        assert(view.subrange(0, n as int) =~= view);
    }
    Some(cur)
}

/// Collects the identifier digest of each packet in a vector.
fn collect_packet_hashes(ps: &Vec<Packet>) -> (r: Vec<crate::Hash>)
    ensures
        r@.len() == ps@.len(),
        forall|i: int|
            0 <= i < r@.len() ==> r@[i]@ == packet_hash(ps@.map_values(|p: Packet| p@)[i]),
        crate::chain::hashes_set(r@) == packets_hash_set(ps@.map_values(|p: Packet| p@)),
{
    let ghost view = ps@.map_values(|p: Packet| p@);
    let n = ps.len();
    let mut r: Vec<crate::Hash> = Vec::new();
    let mut i: usize = 0;
    while i < n
        invariant
            0 <= i <= n,
            n == ps@.len(),
            view == ps@.map_values(|p: Packet| p@),
            r@.len() == i,
            forall|j: int| 0 <= j < i ==> r@[j]@ == packet_hash(view[j]),
        decreases n - i,
    {
        let h = ps[i].hash();
        r.push(h);
        i = i + 1;
    }
    proof {
        lemma_hash_vec_as_set(r@, view);
    }
    r
}

/// A vector of digests whose entries are exactly the packets' identifiers,
/// in order, carries the packets' identifier set.
proof fn lemma_hash_vec_as_set(hs: Seq<crate::Hash>, ps: Seq<PacketView>)
    requires
        hs.len() == ps.len(),
        forall|i: int| 0 <= i < hs.len() ==> hs[i]@ == packet_hash(ps[i]),
    ensures
        crate::chain::hashes_set(hs) == packets_hash_set(ps),
{
    let lhs = crate::chain::hashes_set(hs);
    let rhs = packets_hash_set(ps);
    assert forall|h: Seq<u8>| lhs.contains(h) implies rhs.contains(h) by {
        let i = choose|i: int| 0 <= i < hs.len() && hs[i]@ == h;
        assert(packet_hash(ps[i]) == h);
    };
    assert forall|h: Seq<u8>| rhs.contains(h) implies lhs.contains(h) by {
        let i = choose|i: int| 0 <= i < ps.len() && packet_hash(ps[i]) == h;
        assert(hs[i]@ == h);
    };
    assert(lhs =~= rhs);
}

impl Transaction {
    /// The total value consumed by this transaction's inputs.
    pub fn input_value(&self) -> (r: u64)
        requires
            packets_value(self@.inputs) <= u64::MAX,
        ensures
            r == packets_value(self@.inputs),
    {
        sum_packet_values(&self.inputs)
    }

    /// The total value created by this transaction's outputs.
    pub fn output_value(&self) -> (r: u64)
        requires
            packets_value(self@.outputs) <= u64::MAX,
        ensures
            r == packets_value(self@.outputs),
    {
        sum_packet_values(&self.outputs)
    }

    /// The identifiers of the prior outputs this transaction consumes.
    pub fn input_hashes(&self) -> (r: Vec<crate::Hash>)
        ensures
            r@.len() == self@.inputs.len(),
            forall|i: int| 0 <= i < r@.len() ==> r@[i]@ == packet_hash(self@.inputs[i]),
            crate::chain::hashes_set(r@) == packets_hash_set(self@.inputs),
    {
        collect_packet_hashes(&self.inputs)
    }

    /// The identifiers of the outputs this transaction creates.
    pub fn output_hashes(&self) -> (r: Vec<crate::Hash>)
        ensures
            r@.len() == self@.outputs.len(),
            forall|i: int| 0 <= i < r@.len() ==> r@[i]@ == packet_hash(self@.outputs[i]),
            crate::chain::hashes_set(r@) == packets_hash_set(self@.outputs),
    {
        collect_packet_hashes(&self.outputs)
    }

    /// A coinbase transaction consumes nothing: it has no inputs.
    pub fn is_coinbase(&self) -> (r: bool)
        ensures
            r == (self@.inputs.len() == 0),
    {
        self.inputs.len() == 0
    }

    /// Builds the canonical byte expansion of this transaction.
    pub fn canonical_bytes(&self) -> (r: Vec<u8>)
        ensures
            r@ == transaction_bytes(self@),
    {
        let mut buf: Vec<u8> = Vec::new();
        append_packets_bytes(&mut buf, &self.inputs);
        append_packets_bytes(&mut buf, &self.outputs);
        buf
    }
}

/// Appends the canonical bytes of each packet, in order.
fn append_packets_bytes(buf: &mut Vec<u8>, ps: &Vec<Packet>)
    ensures
        final(buf)@ == old(buf)@ + packets_bytes(ps@.map_values(|p: Packet| p@)),
{
    let ghost view = ps@.map_values(|p: Packet| p@);
    let n = ps.len();
    let mut i: usize = 0;
    while i < n
        invariant
            0 <= i <= n,
            n == ps@.len(),
            view == ps@.map_values(|p: Packet| p@),
            buf@ == old(buf)@ + packets_bytes(view.subrange(0, i as int)),
        decreases n - i,
    {
        let pb = ps[i].canonical_bytes();
        push_bytes(buf, pb.as_slice());
        proof {
            assert(view.subrange(0, i + 1).drop_last() =~= view.subrange(0, i as int));
            assert(view.subrange(0, i + 1).last() == view[i as int]);
            assert(buf@ =~= old(buf)@ + packets_bytes(view.subrange(0, i + 1)));
        }
        i = i + 1;
    }
    proof {
        assert(view.subrange(0, n as int) =~= view);
    }
}

impl Hashable for Transaction {
    open spec fn digest_bytes(&self) -> Seq<u8> {
        transaction_bytes(self@)
    }

    fn hash(&self) -> (h: crate::Hash) {
        let bytes = self.canonical_bytes();
        blake2b_digest(&bytes)
    }
}

/// An ordered list of transactions belonging to one block; by convention the
/// first element is expected to be coinbase.
#[derive(Debug, Clone)]
pub struct Transactions(pub Vec<Transaction>);

impl View for Transactions {
    type V = Seq<TransactionView>;

    open spec fn view(&self) -> Seq<TransactionView> {
        self.0@.map_values(|t: Transaction| t@)
    }
}

/// The total value consumed by a list of transactions.
pub open spec fn txs_input_value(ts: Seq<TransactionView>) -> int
    decreases ts.len(),
{
    if ts.len() == 0 {
        0
    } else {
        txs_input_value(ts.drop_last()) + packets_value(ts.last().inputs)
    }
}

/// The total value created by a list of transactions.
pub open spec fn txs_output_value(ts: Seq<TransactionView>) -> int
    decreases ts.len(),
{
    if ts.len() == 0 {
        0
    } else {
        txs_output_value(ts.drop_last()) + packets_value(ts.last().outputs)
    }
}

/// The input-minus-output surplus of a transaction list, clamped at zero.
pub open spec fn txs_fee(ts: Seq<TransactionView>) -> int {
    if txs_input_value(ts) >= txs_output_value(ts) {
        txs_input_value(ts) - txs_output_value(ts)
    } else {
        0
    }
}

/// The sum of every packet value, inputs and outputs alike, of one transaction.
pub open spec fn tx_value_total(t: TransactionView) -> int {
    packets_value(t.inputs) + packets_value(t.outputs)
}

/// The sum of every packet value over a list of transactions.
pub open spec fn txs_value_total(ts: Seq<TransactionView>) -> int
    decreases ts.len(),
{
    if ts.len() == 0 {
        0
    } else {
        txs_value_total(ts.drop_last()) + tx_value_total(ts.last())
    }
}

pub proof fn lemma_txs_sums_nonneg(ts: Seq<TransactionView>)
    ensures
        txs_input_value(ts) >= 0,
        txs_output_value(ts) >= 0,
        txs_value_total(ts) >= 0,
        txs_input_value(ts) + txs_output_value(ts) == txs_value_total(ts),
    decreases ts.len(),
{
    if ts.len() != 0 {
        lemma_txs_sums_nonneg(ts.drop_last());
        lemma_packets_value_nonneg(ts.last().inputs);
        lemma_packets_value_nonneg(ts.last().outputs);
    }
}

/// Transaction-list sums split at any cut point.
pub proof fn lemma_txs_sums_split(ts: Seq<TransactionView>, i: int)
    requires
        0 <= i <= ts.len(),
    ensures
        txs_input_value(ts) == txs_input_value(ts.subrange(0, i)) + txs_input_value(
            ts.subrange(i, ts.len() as int),
        ),
        txs_output_value(ts) == txs_output_value(ts.subrange(0, i)) + txs_output_value(
            ts.subrange(i, ts.len() as int),
        ),
        txs_value_total(ts) == txs_value_total(ts.subrange(0, i)) + txs_value_total(
            ts.subrange(i, ts.len() as int),
        ),
    decreases ts.len(),
{
    if i == ts.len() {
        assert(ts.subrange(0, i) =~= ts);
    } else {
        let dl = ts.drop_last();
        lemma_txs_sums_split(dl, i);
        assert(dl.subrange(0, i) =~= ts.subrange(0, i));
        let tail = ts.subrange(i, ts.len() as int);
        assert(tail.len() > 0);
        assert(tail.drop_last() =~= dl.subrange(i, dl.len() as int));
        assert(tail.last() == ts.last());
    }
}

/// Each transaction's own sums are bounded by the list-wide totals.
pub proof fn lemma_txs_elem_bounds(ts: Seq<TransactionView>, i: int)
    requires
        0 <= i < ts.len(),
    ensures
        0 <= packets_value(ts[i].inputs),
        0 <= packets_value(ts[i].outputs),
        packets_value(ts[i].inputs) <= txs_input_value(ts),
        packets_value(ts[i].outputs) <= txs_output_value(ts),
        tx_value_total(ts[i]) <= txs_value_total(ts),
{
    lemma_txs_sums_split(ts, i);
    lemma_txs_sums_split(ts.subrange(i, ts.len() as int), 1);
    let unit = ts.subrange(i, ts.len() as int).subrange(0, 1);
    assert(unit.len() == 1);
    assert(unit.drop_last().len() == 0);
    assert(unit.last() == ts[i]);
    assert(txs_input_value(unit.drop_last()) == 0);
    assert(txs_output_value(unit.drop_last()) == 0);
    assert(txs_value_total(unit.drop_last()) == 0);
    assert(txs_input_value(unit) == packets_value(ts[i].inputs));
    assert(txs_output_value(unit) == packets_value(ts[i].outputs));
    assert(txs_value_total(unit) == tx_value_total(ts[i]));
    lemma_txs_sums_nonneg(ts.subrange(0, i));
    lemma_txs_sums_nonneg(ts.subrange(i, ts.len() as int).subrange(1, ts.len() - i));
    lemma_packets_value_nonneg(ts[i].inputs);
    lemma_packets_value_nonneg(ts[i].outputs);
}

impl Transactions {
    /// The total value consumed by this list's inputs.
    pub fn input_value(&self) -> (r: u64)
        requires
            txs_input_value(self@) <= u64::MAX,
        ensures
            r == txs_input_value(self@),
    {
        let ghost view = self@;
        let n = self.0.len();
        let mut acc: u64 = 0;
        let mut i: usize = 0;
        while i < n
            invariant
                0 <= i <= n,
                n == self.0@.len(),
                view == self@,
                txs_input_value(view) <= u64::MAX,
                acc == txs_input_value(view.subrange(0, i as int)),
            decreases n - i,
        {
            proof {
                lemma_txs_elem_bounds(view, i as int);
                lemma_txs_sums_nonneg(view);
                assert(view.subrange(0, i + 1).drop_last() =~= view.subrange(0, i as int));
                assert(view.subrange(0, i + 1).last() == view[i as int]);
                lemma_txs_sums_split(view, i + 1);
                lemma_txs_sums_nonneg(view.subrange(i + 1, view.len() as int));
                lemma_txs_sums_nonneg(view.subrange(0, i as int));
            }
            let v = self.0[i].input_value();
            acc = acc + v;
            i = i + 1;
        }
        proof {
            assert(view.subrange(0, n as int) =~= view);
        }
        acc
    }

    /// The total value created by this list's outputs.
    pub fn output_value(&self) -> (r: u64)
        requires
            txs_output_value(self@) <= u64::MAX,
        ensures
            r == txs_output_value(self@),
    {
        let ghost view = self@;
        let n = self.0.len();
        let mut acc: u64 = 0;
        let mut i: usize = 0;
        while i < n
            invariant
                0 <= i <= n,
                n == self.0@.len(),
                view == self@,
                txs_output_value(view) <= u64::MAX,
                acc == txs_output_value(view.subrange(0, i as int)),
            decreases n - i,
        {
            proof {
                lemma_txs_elem_bounds(view, i as int);
                lemma_txs_sums_nonneg(view);
                assert(view.subrange(0, i + 1).drop_last() =~= view.subrange(0, i as int));
                assert(view.subrange(0, i + 1).last() == view[i as int]);
                lemma_txs_sums_split(view, i + 1);
                lemma_txs_sums_nonneg(view.subrange(i + 1, view.len() as int));
                lemma_txs_sums_nonneg(view.subrange(0, i as int));
            }
            let v = self.0[i].output_value();
            acc = acc + v;
            i = i + 1;
        }
        proof {
            assert(view.subrange(0, n as int) =~= view);
        }
        acc
    }

    /// Whether the list opens with a coinbase transaction.
    pub fn has_coinbase(&self) -> (r: bool)
        ensures
            r == (self@.len() > 0 && self@[0].inputs.len() == 0),
    {
        self.0.len() > 0 && self.0[0].is_coinbase()
    }

    /// The list-wide fee: input value minus output value, never negative.
    pub fn fee(&self) -> (r: u64)
        requires
            txs_input_value(self@) <= u64::MAX,
            txs_output_value(self@) <= u64::MAX,
        ensures
            r == txs_fee(self@),
    {
        let iv = self.input_value();
        let ov = self.output_value();
        if iv >= ov {
            iv - ov
        } else {
            0
        }
    }

    /// Whether the sum of every packet value in the list stays strictly
    /// below the largest 64-bit value: the bound under which the chain's
    /// acceptance entry point computes without overflow.
    pub fn values_fit(&self) -> (r: bool)
        ensures
            r == (txs_value_total(self@) < u64::MAX),
    {
        let ghost ts = self@;
        let n = self.0.len();
        let mut acc: u64 = 0;
        let mut i: usize = 0;
        while i < n
            invariant
                0 <= i <= n,
                n == self.0@.len(),
                ts == self@,
                acc < u64::MAX,
                acc == txs_value_total(ts.subrange(0, i as int)),
            decreases n - i,
        {
            proof {
                assert(ts.subrange(0, i + 1).drop_last() =~= ts.subrange(0, i as int));
                assert(ts.subrange(0, i + 1).last() == ts[i as int]);
                lemma_txs_sums_split(ts, i + 1);
                lemma_txs_sums_nonneg(ts.subrange(i + 1, ts.len() as int));
            }
            let with_inputs = match add_packet_values(acc, &self.0[i].inputs) {
                Some(v) => v,
                None => {
                    proof {
                        lemma_packets_value_nonneg(ts[i as int].outputs);
                    }
                    return false;
                },
            };
            let with_outputs = match add_packet_values(with_inputs, &self.0[i].outputs) {
                Some(v) => v,
                None => {
                    return false;
                },
            };
            acc = with_outputs;
            i = i + 1;
        }
        proof {
            assert(ts.subrange(0, n as int) =~= ts);
        }
        true
    }

    /// Prepends a freshly minted coinbase transaction whose single output
    /// carries this list's total fee plus the fixed block reward.
    pub fn with_coinbase(self, id: u64, to: String) -> (r: Self)
        requires
            txs_input_value(self@) <= u64::MAX,
            txs_output_value(self@) <= u64::MAX,
            txs_fee(self@) + REWARD <= u64::MAX,
        ensures
            r@.len() == self@.len() + 1,
            r@[0].inputs.len() == 0,
            r@[0].outputs =~= seq![
                PacketView { to: to@, id: id, value: (txs_fee(self@) + REWARD) as u64 },
            ],
            r@.subrange(1, r@.len() as int) =~= self@,
    {
        let ghost orig = self@;
        let ghost to_view = to@;
        let share = self.fee() + REWARD;
        let mut outputs: Vec<Packet> = Vec::new();
        outputs.push(Packet { to, id, value: share });
        let coinbase = Transaction { inputs: Vec::new(), outputs };
        let mut list: Vec<Transaction> = Vec::new();
        list.push(coinbase);
        let Transactions(mut rest) = self;
        list.append(&mut rest);
        let r = Transactions(list);
        proof {
            assert(r@.len() == orig.len() + 1);
            assert(r@[0].inputs.len() == 0);
            assert(r@[0].outputs =~= seq![
                PacketView { to: to_view, id: id, value: share },
            ]);
            assert(r@.subrange(1, r@.len() as int) =~= orig);
        }
        r
    }
}

/// Every single packet value is bounded by the sequence's total.
pub proof fn lemma_packets_elem_bound(ps: Seq<PacketView>, i: int)
    requires
        0 <= i < ps.len(),
    ensures
        ps[i].value <= packets_value(ps),
    decreases ps.len(),
{
    if i == ps.len() - 1 {
        lemma_packets_value_nonneg(ps.drop_last());
    } else {
        lemma_packets_elem_bound(ps.drop_last(), i);
    }
}

/// The net value a balance holds for a name, zero when the name is absent.
pub open spec fn map_get0(m: Map<Seq<char>, int>, k: Seq<char>) -> int {
    if m.contains_key(k) {
        m[k]
    } else {
        0
    }
}

/// Adds a signed amount to one name's net value.
pub open spec fn spec_add(m: Map<Seq<char>, int>, k: Seq<char>, v: int) -> Map<Seq<char>, int> {
    m.insert(k, map_get0(m, k) + v)
}

/// Credits each packet's value to its owner, in order.
pub open spec fn credit_packets(m: Map<Seq<char>, int>, ps: Seq<PacketView>) -> Map<
    Seq<char>,
    int,
>
    decreases ps.len(),
{
    if ps.len() == 0 {
        m
    } else {
        spec_add(credit_packets(m, ps.drop_last()), ps.last().to, ps.last().value as int)
    }
}

/// Debits each packet's value from its owner, in order.
pub open spec fn debit_packets(m: Map<Seq<char>, int>, ps: Seq<PacketView>) -> Map<
    Seq<char>,
    int,
>
    decreases ps.len(),
{
    if ps.len() == 0 {
        m
    } else {
        spec_add(debit_packets(m, ps.drop_last()), ps.last().to, -(ps.last().value as int))
    }
}

/// The per-name net value of one transaction: outputs credited, inputs
/// debited.
pub open spec fn tx_balance(t: TransactionView) -> Map<Seq<char>, int> {
    debit_packets(credit_packets(Map::empty(), t.outputs), t.inputs)
}

/// Two balances combined: the union of their names, values summed, an absent
/// name counting as zero.
pub open spec fn combined(a: Map<Seq<char>, int>, b: Map<Seq<char>, int>) -> Map<Seq<char>, int> {
    Map::new(
        |k: Seq<char>| a.contains_key(k) || b.contains_key(k),
        |k: Seq<char>| map_get0(a, k) + map_get0(b, k),
    )
}

/// The per-name net value of a transaction list, replayed in order.
pub open spec fn txs_balance(ts: Seq<TransactionView>) -> Map<Seq<char>, int>
    decreases ts.len(),
{
    if ts.len() == 0 {
        Map::empty()
    } else {
        combined(txs_balance(ts.drop_last()), tx_balance(ts.last()))
    }
}

pub proof fn lemma_credit_bound(m: Map<Seq<char>, int>, ps: Seq<PacketView>, k: Seq<char>)
    ensures
        map_get0(m, k) <= map_get0(credit_packets(m, ps), k),
        map_get0(credit_packets(m, ps), k) <= map_get0(m, k) + packets_value(ps),
    decreases ps.len(),
{
    lemma_packets_value_nonneg(ps);
    if ps.len() != 0 {
        lemma_credit_bound(m, ps.drop_last(), k);
        lemma_packets_value_nonneg(ps.drop_last());
    }
}

pub proof fn lemma_debit_bound(m: Map<Seq<char>, int>, ps: Seq<PacketView>, k: Seq<char>)
    ensures
        map_get0(m, k) - packets_value(ps) <= map_get0(debit_packets(m, ps), k),
        map_get0(debit_packets(m, ps), k) <= map_get0(m, k),
    decreases ps.len(),
{
    lemma_packets_value_nonneg(ps);
    if ps.len() != 0 {
        lemma_debit_bound(m, ps.drop_last(), k);
        lemma_packets_value_nonneg(ps.drop_last());
    }
}

/// No name's net value in one transaction exceeds that transaction's own
/// value total, in either direction.
pub proof fn lemma_tx_balance_bound(t: TransactionView, k: Seq<char>)
    ensures
        -packets_value(t.inputs) <= map_get0(tx_balance(t), k),
        map_get0(tx_balance(t), k) <= packets_value(t.outputs),
{
    lemma_credit_bound(Map::empty(), t.outputs, k);
    lemma_debit_bound(credit_packets(Map::empty(), t.outputs), t.inputs, k);
}

/// No name's net value over a transaction list exceeds the list's value
/// total, in either direction.
pub proof fn lemma_txs_balance_bound(ts: Seq<TransactionView>, k: Seq<char>)
    ensures
        -txs_value_total(ts) <= map_get0(txs_balance(ts), k),
        map_get0(txs_balance(ts), k) <= txs_value_total(ts),
    decreases ts.len(),
{
    lemma_txs_sums_nonneg(ts);
    if ts.len() != 0 {
        lemma_txs_balance_bound(ts.drop_last(), k);
        lemma_tx_balance_bound(ts.last(), k);
        lemma_packets_value_nonneg(ts.last().inputs);
        lemma_packets_value_nonneg(ts.last().outputs);
    }
}

/// The sum of the net values a list of balance entries records.
pub open spec fn entries_total(s: Seq<(String, i64)>) -> int
    decreases s.len(),
{
    if s.len() == 0 {
        0
    } else {
        entries_total(s.drop_last()) + s.last().1
    }
}

pub proof fn lemma_entries_total_update(s: Seq<(String, i64)>, i: int, p: (String, i64))
    requires
        0 <= i < s.len(),
    ensures
        entries_total(s.update(i, p)) == entries_total(s) - s[i].1 + p.1,
    decreases s.len(),
{
    let su = s.update(i, p);
    if i == s.len() - 1 {
        assert(su.drop_last() =~= s.drop_last());
        assert(su.last() == p);
    } else {
        lemma_entries_total_update(s.drop_last(), i, p);
        assert(su.drop_last() =~= s.drop_last().update(i, p));
        assert(su.last() == s.last());
        assert(s.drop_last()[i] == s[i]);
    }
}

/// Balance entries keyed by owner name, every name held at most once.
pub open spec fn entries_unique(s: Seq<(String, i64)>) -> bool {
    forall|i: int, j: int| 0 <= i < j < s.len() ==> s[i].0@ != s[j].0@
}

/// The mapping a list of balance entries stands for.
pub open spec fn entries_map(s: Seq<(String, i64)>) -> Map<Seq<char>, int>
    decreases s.len(),
{
    if s.len() == 0 {
        Map::empty()
    } else {
        entries_map(s.drop_last()).insert(s.last().0@, s.last().1 as int)
    }
}

pub proof fn lemma_entries_contains(s: Seq<(String, i64)>, k: Seq<char>)
    ensures
        entries_map(s).contains_key(k) <==> exists|i: int| 0 <= i < s.len() && s[i].0@ == k,
    decreases s.len(),
{
    if s.len() != 0 {
        lemma_entries_contains(s.drop_last(), k);
        if s.last().0@ == k {
            assert(s[s.len() - 1].0@ == k);
        } else {
            if exists|i: int| 0 <= i < s.len() && s[i].0@ == k {
                let i = choose|i: int| 0 <= i < s.len() && s[i].0@ == k;
                assert(i < s.len() - 1);
                assert(s.drop_last()[i].0@ == k);
            }
        }
    }
}

pub proof fn lemma_entries_lookup(s: Seq<(String, i64)>, i: int)
    requires
        entries_unique(s),
        0 <= i < s.len(),
    ensures
        entries_map(s).contains_key(s[i].0@),
        entries_map(s)[s[i].0@] == s[i].1 as int,
    decreases s.len(),
{
    if i < s.len() - 1 {
        assert(entries_unique(s.drop_last()));
        lemma_entries_lookup(s.drop_last(), i);
        assert(s[i].0@ != s.last().0@);
    }
}

pub proof fn lemma_entries_update(s: Seq<(String, i64)>, i: int, p: (String, i64))
    requires
        entries_unique(s),
        0 <= i < s.len(),
        p.0@ == s[i].0@,
    ensures
        entries_unique(s.update(i, p)),
        entries_map(s.update(i, p)) == entries_map(s).insert(p.0@, p.1 as int),
    decreases s.len(),
{
    let su = s.update(i, p);
    assert forall|x: int, y: int| 0 <= x < y < su.len() implies su[x].0@ != su[y].0@ by {
        assert(s[x].0@ != s[y].0@);
    };
    if i == s.len() - 1 {
        assert(su.drop_last() =~= s.drop_last());
        assert(su.last() == p);
        assert(entries_map(su) == entries_map(s.drop_last()).insert(p.0@, p.1 as int));
        assert(entries_map(s.drop_last()).insert(s.last().0@, s.last().1 as int).insert(
            p.0@,
            p.1 as int,
        ) =~= entries_map(s.drop_last()).insert(p.0@, p.1 as int));
    } else {
        assert(entries_unique(s.drop_last()));
        assert(s.drop_last()[i] == s[i]);
        lemma_entries_update(s.drop_last(), i, p);
        assert(su.drop_last() =~= s.drop_last().update(i, p));
        assert(su.last() == s.last());
        assert(s[i].0@ != s.last().0@);
        assert(entries_map(su) == entries_map(s.drop_last()).insert(p.0@, p.1 as int).insert(
            s.last().0@,
            s.last().1 as int,
        ));
        assert(entries_map(s.drop_last()).insert(p.0@, p.1 as int).insert(
            s.last().0@,
            s.last().1 as int,
        ) =~= entries_map(s).insert(p.0@, p.1 as int));
    }
}

/// A derived, recomputed-on-demand net-value-per-identity summary: each
/// output credits its owner, each input debits its owner.
#[derive(Debug)]
pub struct Balance {
    entries: Vec<(String, i64)>,
}

impl View for Balance {
    type V = Map<Seq<char>, int>;

    closed spec fn view(&self) -> Map<Seq<char>, int> {
        entries_map(self.entries@)
    }
}

impl Default for Balance {
    fn default() -> (r: Self)
        ensures
            r@ == Map::<Seq<char>, int>::empty(),
            r.wf(),
            r.total() == 0,
    {
        Balance { entries: Vec::new() }
    }
}

impl Balance {
    /// Each owner name is recorded at most once.
    pub closed spec fn wf(&self) -> bool {
        entries_unique(self.entries@)
    }

    /// The sum of every recorded net value.
    pub closed spec fn total(&self) -> int {
        entries_total(self.entries@)
    }

    /// The net value recorded for a name; zero when the name is absent.
    pub fn get(&self, name: &String) -> (r: i64)
        requires
            self.wf(),
        ensures
            r == map_get0(self@, name@),
    {
        let n = self.entries.len();
        let mut i: usize = 0;
        while i < n
            invariant
                0 <= i <= n,
                n == self.entries@.len(),
                self.wf(),
                forall|j: int| 0 <= j < i ==> self.entries@[j].0@ != name@,
            decreases n - i,
        {
            if self.entries[i].0 == *name {
                proof {
                    lemma_entries_lookup(self.entries@, i as int);
                }
                return self.entries[i].1;
            }
            i = i + 1;
        }
        proof {
            lemma_entries_contains(self.entries@, name@);
        }
        0
    }

    /// Adds a signed amount to one name's net value.
    fn add_signed(&mut self, key: &String, v: i64)
        requires
            old(self).wf(),
            i64::MIN <= map_get0(old(self)@, key@) + v <= i64::MAX,
        ensures
            final(self).wf(),
            final(self)@ == spec_add(old(self)@, key@, v as int),
            final(self).total() == old(self).total() + v,
    {
        let n = self.entries.len();
        let mut i: usize = 0;
        while i < n
            invariant
                0 <= i <= n,
                n == self.entries@.len(),
                *self == *old(self),
                entries_unique(self.entries@),
                i64::MIN <= map_get0(old(self)@, key@) + v <= i64::MAX,
                forall|j: int| 0 <= j < i ==> self.entries@[j].0@ != key@,
            decreases n - i,
        {
            if self.entries[i].0 == *key {
                proof {
                    lemma_entries_lookup(self.entries@, i as int);
                    assert(self.entries@[i as int].0@ == key@);
                    assert(map_get0(old(self)@, key@) == self.entries@[i as int].1 as int);
                }
                let cur = self.entries[i].1;
                let sum = cur + v;
                let k2 = self.entries[i].0.clone();
                let ghost pre = self.entries@;
                self.entries.set(i, (k2, sum));
                proof {
                    assert(self.entries@ == pre.update(i as int, self.entries@[i as int]));
                    assert(self.entries@[i as int].0@ == key@);
                    lemma_entries_update(pre, i as int, self.entries@[i as int]);
                    lemma_entries_total_update(pre, i as int, self.entries@[i as int]);
                    assert(final(self)@ =~= spec_add(old(self)@, key@, v as int));
                }
                return;
            }
            i = i + 1;
        }
        proof {
            lemma_entries_contains(self.entries@, key@);
            assert(!old(self)@.contains_key(key@));
        }
        let ghost pre = self.entries@;
        self.entries.push((key.clone(), v));
        proof {
            assert(self.entries@.drop_last() =~= pre);
            assert(self.entries@.last().0@ == key@);
            assert(self.entries@.last().1 == v);
            assert(entries_map(self.entries@) == entries_map(pre).insert(key@, v as int));
            assert(entries_total(self.entries@) == entries_total(pre) + v);
            assert forall|x: int, y: int|
                0 <= x < y < self.entries@.len() implies self.entries@[x].0@
                != self.entries@[y].0@ by {
                if y == self.entries@.len() - 1 {
                    assert(self.entries@[x] == pre[x]);
                } else {
                    assert(pre[x].0@ != pre[y].0@);
                }
            };
        }
    }

    /// Combines two balances by summing values over the union of their
    /// names, treating an absent name as zero.
    pub fn combine(self, other: Balance) -> (r: Balance)
        requires
            self.wf(),
            other.wf(),
            forall|k: Seq<char>|
                i64::MIN <= #[trigger] map_get0(self@, k) + map_get0(other@, k) <= i64::MAX,
        ensures
            r.wf(),
            r@ == combined(self@, other@),
            r.total() == self.total() + other.total(),
    {
        let ghost a = self@;
        let ghost a_total = self.total();
        let ghost b = other@;
        let mut r = self;
        let n = other.entries.len();
        let mut i: usize = 0;
        while i < n
            invariant
                0 <= i <= n,
                n == other.entries@.len(),
                other.wf(),
                b == other@,
                forall|k: Seq<char>|
                    i64::MIN <= #[trigger] map_get0(a, k) + map_get0(b, k) <= i64::MAX,
                r.wf(),
                r@ == combined(a, entries_map(other.entries@.subrange(0, i as int))),
                r.total() == a_total + entries_total(other.entries@.subrange(0, i as int)),
            decreases n - i,
        {
            let ghost pref = other.entries@.subrange(0, i as int);
            let ghost ki = other.entries@[i as int].0@;
            let v = other.entries[i].1;
            proof {
                lemma_entries_lookup(other.entries@, i as int);
                lemma_entries_contains(pref, ki);
                assert(forall|j: int| 0 <= j < i ==> #[trigger] pref[j].0@ != ki);
                assert(!entries_map(pref).contains_key(ki));
                assert(map_get0(r@, ki) == map_get0(a, ki));
                assert(map_get0(b, ki) == v as int);
            }
            r.add_signed(&other.entries[i].0, v);
            proof {
                let prefn = other.entries@.subrange(0, i + 1);
                assert(prefn.drop_last() =~= pref);
                assert(prefn.last() == other.entries@[i as int]);
                assert(entries_map(prefn) == entries_map(pref).insert(ki, v as int));
                assert(entries_total(prefn) == entries_total(pref) + v);
                assert(r@ =~= combined(a, entries_map(prefn)));
            }
            i = i + 1;
        }
        proof {
            assert(other.entries@.subrange(0, n as int) =~= other.entries@);
        }
        r
    }

    /// Replays one transaction from a clean slate: outputs credited first,
    /// then inputs debited.
    pub fn from_transaction(transaction: &Transaction) -> (r: Balance)
        requires
            tx_value_total(transaction@) <= i64::MAX,
        ensures
            r.wf(),
            r@ == tx_balance(transaction@),
            r.total() == packets_value(transaction@.outputs) - packets_value(transaction@.inputs),
    {
        let ghost outs = transaction@.outputs;
        let ghost ins = transaction@.inputs;
        proof {
            lemma_packets_value_nonneg(outs);
            lemma_packets_value_nonneg(ins);
        }
        let mut bal = Balance::default();
        let n = transaction.outputs.len();
        let mut i: usize = 0;
        while i < n
            invariant
                0 <= i <= n,
                n == transaction.outputs@.len(),
                outs == transaction@.outputs,
                ins == transaction@.inputs,
                tx_value_total(transaction@) <= i64::MAX,
                bal.wf(),
                bal@ == credit_packets(Map::empty(), outs.subrange(0, i as int)),
                bal.total() == packets_value(outs.subrange(0, i as int)),
                forall|k: Seq<char>|
                    0 <= #[trigger] map_get0(bal@, k) <= packets_value(outs.subrange(0, i as int)),
            decreases n - i,
        {
            let p = &transaction.outputs[i];
            proof {
                lemma_packets_elem_bound(outs, i as int);
                lemma_packets_value_nonneg(ins);
                lemma_packets_value_split(outs, i + 1);
                lemma_packets_value_nonneg(outs.subrange(i + 1, outs.len() as int));
                assert(outs.subrange(0, i + 1).drop_last() =~= outs.subrange(0, i as int));
                assert(outs.subrange(0, i + 1).last() == outs[i as int]);
            }
            let ghost bal0 = bal@;
            bal.add_signed(&p.to, p.value as i64);
            proof {
                assert(bal@ == spec_add(bal0, outs[i as int].to, outs[i as int].value as int));
                assert forall|k: Seq<char>|
                    0 <= #[trigger] map_get0(bal@, k) <= packets_value(
                    outs.subrange(0, i + 1),
                ) by {
                    if k == outs[i as int].to {
                        assert(map_get0(bal@, k) == map_get0(bal0, k) + outs[i as int].value);
                    } else {
                        assert(map_get0(bal@, k) == map_get0(bal0, k));
                    }
                }
            }
            i = i + 1;
        }
        proof {
            assert(outs.subrange(0, n as int) =~= outs);
        }
        let ghost credited = bal@;
        let m = transaction.inputs.len();
        let mut j: usize = 0;
        while j < m
            invariant
                0 <= j <= m,
                m == transaction.inputs@.len(),
                outs == transaction@.outputs,
                ins == transaction@.inputs,
                tx_value_total(transaction@) <= i64::MAX,
                credited == credit_packets(Map::empty(), outs),
                forall|k: Seq<char>|
                    0 <= #[trigger] map_get0(credited, k) <= packets_value(outs),
                bal.wf(),
                bal@ == debit_packets(credited, ins.subrange(0, j as int)),
                bal.total() == packets_value(outs) - packets_value(ins.subrange(0, j as int)),
                forall|k: Seq<char>|
                    map_get0(credited, k) - packets_value(ins.subrange(0, j as int))
                        <= #[trigger] map_get0(bal@, k) <= map_get0(credited, k),
            decreases m - j,
        {
            let p = &transaction.inputs[j];
            proof {
                lemma_packets_elem_bound(ins, j as int);
                lemma_packets_value_nonneg(outs);
                lemma_packets_value_split(ins, j + 1);
                lemma_packets_value_nonneg(ins.subrange(j + 1, ins.len() as int));
                lemma_packets_value_nonneg(ins.subrange(0, j as int));
                assert(ins.subrange(0, j + 1).drop_last() =~= ins.subrange(0, j as int));
                assert(ins.subrange(0, j + 1).last() == ins[j as int]);
            }
            let ghost bal0 = bal@;
            bal.add_signed(&p.to, -(p.value as i64));
            proof {
                assert(bal@ == spec_add(bal0, ins[j as int].to, -(ins[j as int].value as int)));
                assert forall|k: Seq<char>|
                    map_get0(credited, k) - packets_value(ins.subrange(0, j + 1))
                        <= #[trigger] map_get0(bal@, k) <= map_get0(credited, k) by {
                    if k == ins[j as int].to {
                        assert(map_get0(bal@, k) == map_get0(bal0, k) - ins[j as int].value);
                    } else {
                        assert(map_get0(bal@, k) == map_get0(bal0, k));
                    }
                }
            }
            j = j + 1;
        }
        proof {
            assert(ins.subrange(0, m as int) =~= ins);
        }
        bal
    }

    /// Replays a whole transaction list in order, combining per-transaction
    /// balances.
    pub fn from_transactions(transactions: &Transactions) -> (r: Balance)
        requires
            txs_value_total(transactions@) <= i64::MAX,
        ensures
            r.wf(),
            r@ == txs_balance(transactions@),
            r.total() == txs_output_value(transactions@) - txs_input_value(transactions@),
    {
        let ghost ts = transactions@;
        let mut bal = Balance::default();
        let n = transactions.0.len();
        let mut i: usize = 0;
        while i < n
            invariant
                0 <= i <= n,
                n == transactions.0@.len(),
                ts == transactions@,
                txs_value_total(ts) <= i64::MAX,
                bal.wf(),
                bal@ == txs_balance(ts.subrange(0, i as int)),
                bal.total() == txs_output_value(ts.subrange(0, i as int)) - txs_input_value(
                    ts.subrange(0, i as int),
                ),
            decreases n - i,
        {
            let ghost pref = ts.subrange(0, i as int);
            proof {
                lemma_txs_elem_bounds(ts, i as int);
                lemma_txs_sums_nonneg(ts);
                lemma_txs_sums_split(ts, i + 1);
                lemma_txs_sums_nonneg(ts.subrange(i + 1, ts.len() as int));
                lemma_txs_sums_nonneg(pref);
                assert(ts.subrange(0, i + 1).drop_last() =~= pref);
                assert(ts.subrange(0, i + 1).last() == ts[i as int]);
                assert forall|k: Seq<char>|
                    i64::MIN <= #[trigger] map_get0(txs_balance(pref), k) + map_get0(
                    tx_balance(ts[i as int]),
                    k,
                ) <= i64::MAX by {
                    lemma_txs_balance_bound(pref, k);
                    lemma_tx_balance_bound(ts[i as int], k);
                    lemma_packets_value_nonneg(ts[i as int].inputs);
                    lemma_packets_value_nonneg(ts[i as int].outputs);
                    assert(txs_value_total(ts.subrange(0, i + 1)) == txs_value_total(pref)
                        + tx_value_total(ts[i as int]));
                };
            }
            let tb = Balance::from_transaction(&transactions.0[i]);
            bal = bal.combine(tb);
            i = i + 1;
        }
        proof {
            assert(ts.subrange(0, n as int) =~= ts);
        }
        bal
    }
}

} // verus!
