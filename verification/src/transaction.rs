//! Transactions: an ordered list of input objects and a simulated cost.

use vstd::prelude::*;
use vstd::bytes::{lemma_auto_spec_u64_to_from_le_bytes, spec_u64_to_le_bytes, u64_to_le_bytes};
use crate::digest::{fingerprint, lemma_digest_equality, Digest, Digestible};
use crate::object::{object_views, Object, ObjectView};

verus! {

/// A transaction that reads or writes a list of objects.
#[derive(Clone, Debug, PartialEq, Eq)]
pub struct Transaction {
    /// The identifier of the transaction.
    pub id: Digest,
    /// The objects that the transaction reads or modifies, in order.
    pub inputs: Vec<Object>,
    /// The simulated cost of executing the transaction, in milliseconds.
    pub execution_time: u64,
}

/// The mathematical value of a [`Transaction`].
pub struct TransactionView {
    /// The identifier.
    pub id: Digest,
    /// The values of the inputs, in order.
    pub inputs: Seq<ObjectView>,
    /// The simulated cost, in milliseconds.
    pub execution_time: u64,
}

impl View for Transaction {
    type V = TransactionView;

    open spec fn view(&self) -> TransactionView {
        TransactionView {
            id: self.id,
            inputs: object_views(self.inputs@),
            execution_time: self.execution_time,
        }
    }
}

/// The identifiers of `inputs`, in order.
pub open spec fn input_ids(inputs: Seq<ObjectView>) -> Seq<Digest> {
    inputs.map_values(|o: ObjectView| o.id)
}

/// The bytes of `ids` laid end to end: byte `k` of the result is byte
/// `k % 32` of the identifier at position `k / 32`.
pub open spec fn concat_digests(ids: Seq<Digest>) -> Seq<u8> {
    Seq::new(32 * ids.len(), |k: int| ids[k / 32]@[k % 32])
}

/// The canonical encoding of a transaction: its execution time as eight
/// little-endian bytes, then the identifier of each input, in order.
pub open spec fn transaction_preimage(execution_time: u64, ids: Seq<Digest>) -> Seq<u8> {
    spec_u64_to_le_bytes(execution_time) + concat_digests(ids)
}

/// The identifier that content addressing gives to a transaction with this
/// execution time and these input identifiers.
pub open spec fn transaction_id(execution_time: u64, ids: Seq<Digest>) -> Seq<u8> {
    fingerprint(transaction_preimage(execution_time, ids))
}

impl TransactionView {
    /// The canonical encoding of this transaction.
    pub open spec fn preimage(self) -> Seq<u8> {
        transaction_preimage(self.execution_time, input_ids(self.inputs))
    }

    /// Whether the identifier is the one derived from the execution time and
    /// the identifiers of the inputs.
    pub open spec fn is_content_addressed(self) -> bool {
        self.id@ == fingerprint(self.preimage())
    }
}

/// Appending one identifier to a list appends its 32 bytes to the
/// concatenation.
pub proof fn lemma_concat_digests_push(ids: Seq<Digest>, id: Digest)
    ensures
        concat_digests(ids.push(id)) == concat_digests(ids) + id@,
{
    let lhs = concat_digests(ids.push(id));
    let rhs = concat_digests(ids) + id@;
    assert(lhs.len() == rhs.len());
    assert forall|k: int| 0 <= k < lhs.len() implies lhs[k] == rhs[k] by {
        if k < 32 * ids.len() {
            assert(k / 32 < ids.len());
        } else {
            assert(k / 32 == ids.len());
            assert(k % 32 == k - 32 * ids.len());
        }
    }
    assert(lhs =~= rhs);
}

/// Content addressing is a function of the execution time and of the input
/// identifiers in order: two content-addressed transactions that agree on
/// both carry the same identifier.
pub proof fn lemma_transaction_id_deterministic(a: TransactionView, b: TransactionView)
    requires
        a.is_content_addressed(),
        b.is_content_addressed(),
        a.execution_time == b.execution_time,
        input_ids(a.inputs) == input_ids(b.inputs),
    ensures
        a.id == b.id,
{
    lemma_digest_equality(a.id, b.id);
}

/// The canonical encoding determines the execution time and the list of
/// input identifiers, order included: transactions that differ in either are
/// hashed over different bytes.
pub proof fn lemma_transaction_preimage_injective(
    time_a: u64,
    ids_a: Seq<Digest>,
    time_b: u64,
    ids_b: Seq<Digest>,
)
    requires
        transaction_preimage(time_a, ids_a) == transaction_preimage(time_b, ids_b),
    ensures
        time_a == time_b,
        ids_a == ids_b,
{
    lemma_auto_spec_u64_to_from_le_bytes();
    let pa = transaction_preimage(time_a, ids_a);
    let pb = transaction_preimage(time_b, ids_b);
    assert(pa.len() == 8 + 32 * ids_a.len());
    assert(pb.len() == 8 + 32 * ids_b.len());
    assert(spec_u64_to_le_bytes(time_a) =~= pa.subrange(0, 8));
    assert(spec_u64_to_le_bytes(time_b) =~= pb.subrange(0, 8));
    assert(ids_a.len() == ids_b.len());
    assert forall|i: int| 0 <= i < ids_a.len() implies ids_a[i] == ids_b[i] by {
        assert forall|j: int| 0 <= j < 32 implies ids_a[i].0@[j] == ids_b[i].0@[j] by {
            let k = 32 * i + j;
            assert(k / 32 == i && k % 32 == j);
            assert(pa[8 + k] == concat_digests(ids_a)[k]);
            assert(pb[8 + k] == concat_digests(ids_b)[k]);
        }
        assert(ids_a[i]@ =~= ids_b[i]@);
        lemma_digest_equality(ids_a[i], ids_b[i]);
    }
    assert(ids_a =~= ids_b);
}

/// Exchanging two inputs that carry different identifiers changes the
/// canonical encoding of the transaction.
pub proof fn lemma_swap_changes_preimage(execution_time: u64, ids: Seq<Digest>, i: int, j: int)
    requires
        0 <= i < ids.len(),
        0 <= j < ids.len(),
        ids[i] != ids[j],
    ensures
        transaction_preimage(execution_time, ids.update(i, ids[j]).update(j, ids[i]))
            != transaction_preimage(execution_time, ids),
{
    let swapped = ids.update(i, ids[j]).update(j, ids[i]);
    assert(swapped[j] == ids[i]);
    if transaction_preimage(execution_time, swapped) == transaction_preimage(execution_time, ids) {
        lemma_transaction_preimage_injective(execution_time, swapped, execution_time, ids);
    }
}

/// Two content-addressed transactions with one identifier either agree on
/// execution time and input identifiers, or their distinct encodings collide
/// under the fingerprint.
pub proof fn lemma_transaction_id_collision(a: TransactionView, b: TransactionView)
    requires
        a.is_content_addressed(),
        b.is_content_addressed(),
        a.id == b.id,
    ensures
        (a.execution_time == b.execution_time && input_ids(a.inputs) == input_ids(b.inputs)) || ({
            &&& a.preimage() != b.preimage()
            &&& fingerprint(a.preimage()) == fingerprint(b.preimage())
        }),
{
    if a.preimage() == b.preimage() {
        lemma_transaction_preimage_injective(
            a.execution_time,
            input_ids(a.inputs),
            b.execution_time,
            input_ids(b.inputs),
        );
    }
}

/// Writes the canonical encoding of a transaction over `inputs` into a fresh
/// buffer.
pub fn encode_transaction_preimage(inputs: &[Object], execution_time: u64) -> (buf: Vec<u8>)
    ensures
        buf@ == transaction_preimage(
            execution_time,
            input_ids(object_views(inputs@)),
        ),
{
    let ghost ids = input_ids(object_views(inputs@));
    let mut buf = u64_to_le_bytes(execution_time);
    assert(buf@ =~= transaction_preimage(execution_time, ids.take(0)));
    let mut i: usize = 0;
    while i < inputs.len()
        invariant
            i <= inputs.len(),
            ids == input_ids(object_views(inputs@)),
            buf@ == transaction_preimage(execution_time, ids.take(i as int)),
        decreases inputs.len() - i,
    {
        buf.extend_from_slice(inputs[i].id.0.as_slice());
        proof {
            lemma_concat_digests_push(ids.take(i as int), ids[i as int]);
            assert(ids.take(i as int).push(ids[i as int]) =~= ids.take(i + 1));
            assert(buf@ =~= transaction_preimage(execution_time, ids.take(i + 1)));
        }
        i += 1;
    }
    assert(ids.take(i as int) =~= ids);
    buf
}

impl Digestible for Transaction {
    open spec fn preimage(&self) -> Seq<u8> {
        self@.preimage()
    }

    fn digest(&self) -> (d: Digest) {
        let buf = encode_transaction_preimage(self.inputs.as_slice(), self.execution_time);
        Digest::of(buf.as_slice())
    }
}

impl Transaction {
    /// Whether the identifier is the one derived from the execution time and
    /// the identifiers of the inputs.
    pub open spec fn is_content_addressed(&self) -> bool {
        self@.is_content_addressed()
    }

    /// Creates the transaction over `inputs` with the given execution time,
    /// identified by the fingerprint of its canonical encoding.
    pub fn new(inputs: Vec<Object>, execution_time: u64) -> (transaction: Transaction)
        ensures
            transaction.inputs == inputs,
            transaction.execution_time == execution_time,
            transaction.id@ == transaction_id(
                execution_time,
                input_ids(object_views(inputs@)),
            ),
            transaction.is_content_addressed(),
    {
        let buf = encode_transaction_preimage(inputs.as_slice(), execution_time);
        let id = Digest::of(buf.as_slice());
        Transaction { id, inputs, execution_time }
    }
}

} // verus!
