//! A lossless byte encoding of objects and transactions.
//!
//! An object is laid out as its identifier (32 bytes), the length of its
//! content (eight little-endian bytes), the content, and its version (eight
//! little-endian bytes). A transaction is laid out as its identifier, the
//! number of its inputs (eight little-endian bytes), each input as an object,
//! and its execution time (eight little-endian bytes).

use vstd::prelude::*;
use vstd::bytes::{
    lemma_auto_spec_u64_to_from_le_bytes, spec_u64_from_le_bytes, spec_u64_to_le_bytes,
    u64_from_le_bytes, u64_to_le_bytes,
};
use vstd::slice::{slice_subrange, slice_to_vec};
use crate::digest::{lemma_digest_equality, Digest};
use crate::object::{object_views, Object, ObjectView};
use crate::transaction::{Transaction, TransactionView};

verus! {

impl ObjectView {
    /// Whether the length of the content fits the eight bytes that the
    /// encoding gives it. The value of every [`Object`] does.
    pub open spec fn encodable(self) -> bool {
        self.content.len() <= u64::MAX
    }
}

/// The encoding of an object.
pub open spec fn object_wire(o: ObjectView) -> Seq<u8> {
    o.id@ + spec_u64_to_le_bytes(o.content.len() as u64) + o.content + spec_u64_to_le_bytes(
        o.version,
    )
}

/// Where each field lies in the encoding of an object.
pub proof fn lemma_object_wire_layout(o: ObjectView)
    requires
        o.encodable(),
    ensures
        object_wire(o).len() == 48 + o.content.len(),
        object_wire(o).subrange(0, 32) == o.id@,
        spec_u64_from_le_bytes(object_wire(o).subrange(32, 40)) == o.content.len(),
        object_wire(o).subrange(40, 40 + o.content.len() as int) == o.content,
        spec_u64_from_le_bytes(
            object_wire(o).subrange(40 + o.content.len() as int, 48 + o.content.len() as int),
        ) == o.version,
{
    lemma_auto_spec_u64_to_from_le_bytes();
    let w = object_wire(o);
    let n = o.content.len() as int;
    assert(w.subrange(0, 32) =~= o.id@);
    assert(w.subrange(32, 40) =~= spec_u64_to_le_bytes(o.content.len() as u64));
    assert(w.subrange(40, 40 + n) =~= o.content);
    assert(w.subrange(40 + n, 48 + n) =~= spec_u64_to_le_bytes(o.version));
}

/// No encoding of an object is the beginning of another in more than one
/// way: a byte string that starts with an encoded object determines that
/// object and what follows it.
pub proof fn lemma_object_wire_prefix_unique(
    a: ObjectView,
    rest_a: Seq<u8>,
    b: ObjectView,
    rest_b: Seq<u8>,
)
    requires
        a.encodable(),
        b.encodable(),
        object_wire(a) + rest_a == object_wire(b) + rest_b,
    ensures
        a == b,
        rest_a == rest_b,
{
    lemma_object_wire_layout(a);
    lemma_object_wire_layout(b);
    let wa = object_wire(a);
    let wb = object_wire(b);
    let s = wa + rest_a;
    assert(s.subrange(32, 40) =~= wa.subrange(32, 40));
    assert(s.subrange(32, 40) =~= wb.subrange(32, 40));
    assert(a.content.len() == b.content.len());
    let n = a.content.len() as int;
    assert(wa =~= s.subrange(0, 48 + n));
    assert(wb =~= s.subrange(0, 48 + n));
    assert(rest_a =~= s.subrange(48 + n, s.len() as int));
    assert(rest_b =~= s.subrange(48 + n, s.len() as int));
    lemma_digest_equality(a.id, b.id);
}

/// The encoding determines the object: only one value is laid out as a given
/// byte string.
pub proof fn lemma_object_wire_injective(a: ObjectView, b: ObjectView)
    requires
        a.encodable(),
        b.encodable(),
        object_wire(a) == object_wire(b),
    ensures
        a == b,
{
    lemma_object_wire_prefix_unique(a, Seq::empty(), b, Seq::empty());
}

/// Encoding an object and decoding the result gives back an object equal to
/// the first in every field: whatever a decoder that keeps the contract of
/// [`Object::from_bytes`] returns on the encoding of `value` is `value`.
pub proof fn lemma_object_round_trip(value: ObjectView, decoded: Option<ObjectView>)
    requires
        value.encodable(),
        match decoded {
            Some(o) => o.encodable() && object_wire(o) == object_wire(value),
            None => forall|v: ObjectView|
                v.encodable() ==> object_wire(v) != object_wire(value),
        },
    ensures
        decoded == Some(value),
{
    match decoded {
        Some(o) => {
            lemma_object_wire_injective(o, value);
        },
        None => {},
    }
}

/// Whether `bytes` begins with the encoding of `o`.
pub open spec fn starts_with_object(bytes: Seq<u8>, o: ObjectView) -> bool {
    o.encodable() && object_wire(o).is_prefix_of(bytes)
}

/// Appends the encoding of `object` to `buf`.
pub fn write_object(buf: &mut Vec<u8>, object: &Object)
    ensures
        final(buf)@ == old(buf)@ + object_wire(object@),
{
    buf.extend_from_slice(object.id.0.as_slice());
    let len = u64_to_le_bytes(object.content.len() as u64);
    buf.extend_from_slice(len.as_slice());
    buf.extend_from_slice(object.content.as_slice());
    let version = u64_to_le_bytes(object.version);
    buf.extend_from_slice(version.as_slice());
    assert(buf@ =~= old(buf)@ + object_wire(object@));
}

/// Reads the 32 bytes of an identifier that start at `pos`.
pub fn read_digest(bytes: &[u8], pos: usize) -> (d: Digest)
    requires
        pos + 32 <= bytes@.len(),
    ensures
        d@ == bytes@.subrange(pos as int, pos + 32),
{
    let len = bytes.len();
    let mut id = [0u8; 32];
    let mut i: usize = 0;
    while i < 32
        invariant
            i <= 32,
            len == bytes@.len(),
            pos + 32 <= len,
            forall|j: int| 0 <= j < i ==> id@[j] == bytes@[pos + j],
        decreases 32 - i,
    {
        id[i] = bytes[pos + i];
        i += 1;
    }
    assert(id@ =~= bytes@.subrange(pos as int, pos + 32));
    Digest(id)
}

/// Reads the object whose encoding starts at `pos`, and says where it ends.
/// Fails exactly when no encoded object starts there.
pub fn read_object(bytes: &[u8], pos: usize) -> (r: Option<(Object, usize)>)
    requires
        pos <= bytes@.len(),
    ensures
        match r {
            Some((object, next)) => {
                &&& pos <= next <= bytes@.len()
                &&& bytes@.subrange(pos as int, next as int) == object_wire(object@)
            },
            None => forall|v: ObjectView| !starts_with_object(bytes@.skip(pos as int), v),
        },
{
    let ghost rest = bytes@.skip(pos as int);
    let avail = bytes.len() - pos;
    if avail < 48 {
        assert forall|v: ObjectView| !starts_with_object(rest, v) by {
            if v.encodable() {
                lemma_object_wire_layout(v);
            }
        }
        return None;
    }
    let len = u64_from_le_bytes(slice_subrange(bytes, pos + 32, pos + 40));
    if len > (avail - 48) as u64 {
        assert forall|v: ObjectView| !starts_with_object(rest, v) by {
            if starts_with_object(rest, v) {
                lemma_object_wire_layout(v);
                assert(object_wire(v).subrange(32, 40) =~= bytes@.subrange(pos + 32, pos + 40));
            }
        }
        return None;
    }
    let n = len as usize;
    let id = read_digest(bytes, pos);
    let content = slice_to_vec(slice_subrange(bytes, pos + 40, pos + 40 + n));
    let version = u64_from_le_bytes(slice_subrange(bytes, pos + 40 + n, pos + 48 + n));
    let object = Object { id, content, version };
    proof {
        lemma_auto_spec_u64_to_from_le_bytes();
        assert(bytes@.subrange(pos as int, pos + 48 + n) =~= object_wire(object@));
    }
    Some((object, pos + 48 + n))
}

impl Object {
    /// Encodes the object.
    pub fn to_bytes(&self) -> (bytes: Vec<u8>)
        ensures
            self@.encodable(),
            bytes@ == object_wire(self@),
    {
        assert(self.content.len() == self.content@.len());
        let mut bytes: Vec<u8> = Vec::new();
        write_object(&mut bytes, self);
        assert(bytes@ =~= object_wire(self@));
        bytes
    }

    /// Decodes an object. Succeeds exactly when `bytes` is the encoding of
    /// an object, and then returns that object.
    pub fn from_bytes(bytes: &[u8]) -> (r: Option<Object>)
        ensures
            match r {
                Some(object) => object@.encodable() && object_wire(object@) == bytes@,
                None => forall|v: ObjectView| v.encodable() ==> object_wire(v) != bytes@,
            },
    {
        match read_object(bytes, 0) {
            Some((object, next)) => {
                assert(object.content.len() == object.content@.len());
                if next == bytes.len() {
                    assert(bytes@.subrange(0, next as int) =~= bytes@);
                    Some(object)
                } else {
                    assert forall|v: ObjectView| v.encodable() implies object_wire(v)
                        != bytes@ by {
                        if object_wire(v) == bytes@ {
                            let tail = bytes@.skip(next as int);
                            assert(object_wire(object@) + tail =~= bytes@);
                            assert(object_wire(v) + Seq::<u8>::empty() =~= bytes@);
                            lemma_object_wire_prefix_unique(v, Seq::empty(), object@, tail);
                        }
                    }
                    None
                }
            },
            None => {
                assert forall|v: ObjectView| v.encodable() implies object_wire(v) != bytes@ by {
                    assert(bytes@.skip(0) =~= bytes@);
                    assert(!starts_with_object(bytes@.skip(0), v));
                    if object_wire(v) == bytes@ {
                        assert(object_wire(v).is_prefix_of(bytes@));
                    }
                }
                None
            },
        }
    }
}

impl TransactionView {
    /// Whether the number of inputs and the length of each input's content
    /// fit the eight bytes that the encoding gives them. The value of every
    /// [`Transaction`] does.
    pub open spec fn encodable(self) -> bool {
        &&& self.inputs.len() <= u64::MAX
        &&& all_encodable(self.inputs)
    }
}

/// Whether every object of the list is encodable.
pub open spec fn all_encodable(objects: Seq<ObjectView>) -> bool {
    forall|i: int| 0 <= i < objects.len() ==> (#[trigger] objects[i]).encodable()
}

/// The encodings of a list of objects, laid end to end in order.
pub open spec fn objects_wire(objects: Seq<ObjectView>) -> Seq<u8>
    decreases objects.len(),
{
    if objects.len() == 0 {
        Seq::empty()
    } else {
        objects_wire(objects.drop_last()) + object_wire(objects.last())
    }
}

/// The encoding of a transaction.
pub open spec fn transaction_wire(t: TransactionView) -> Seq<u8> {
    t.id@ + spec_u64_to_le_bytes(t.inputs.len() as u64) + objects_wire(t.inputs)
        + spec_u64_to_le_bytes(t.execution_time)
}

/// The encoding of a list of one object is the encoding of that object.
pub proof fn lemma_objects_wire_single(o: ObjectView)
    ensures
        objects_wire(seq![o]) == object_wire(o),
{
    let one = seq![o];
    assert(one.len() == 1);
    assert(one.last() == o);
    assert(one.drop_last().len() == 0);
    assert(objects_wire(one.drop_last()) =~= Seq::<u8>::empty());
    assert(objects_wire(one) == objects_wire(one.drop_last()) + object_wire(one.last()));
    assert(objects_wire(one) =~= object_wire(o));
}

/// The encoding of two lists, one after the other, is the encoding of the
/// first followed by the encoding of the second.
pub proof fn lemma_objects_wire_concat(a: Seq<ObjectView>, b: Seq<ObjectView>)
    ensures
        objects_wire(a + b) == objects_wire(a) + objects_wire(b),
    decreases b.len(),
{
    if b.len() == 0 {
        assert(a + b =~= a);
        assert(objects_wire(a) + objects_wire(b) =~= objects_wire(a));
    } else {
        lemma_objects_wire_concat(a, b.drop_last());
        assert((a + b).drop_last() =~= a + b.drop_last());
        assert((a + b).last() == b.last());
        assert(objects_wire(a + b) =~= objects_wire(a) + objects_wire(b));
    }
}

/// A byte string that starts with the encodings of a given number of
/// objects determines those objects and what follows them.
pub proof fn lemma_objects_wire_prefix_unique(
    a: Seq<ObjectView>,
    rest_a: Seq<u8>,
    b: Seq<ObjectView>,
    rest_b: Seq<u8>,
)
    requires
        a.len() == b.len(),
        all_encodable(a),
        all_encodable(b),
        objects_wire(a) + rest_a == objects_wire(b) + rest_b,
    ensures
        a == b,
        rest_a == rest_b,
    decreases a.len(),
{
    if a.len() == 0 {
        assert(objects_wire(a) + rest_a =~= rest_a);
        assert(objects_wire(b) + rest_b =~= rest_b);
        assert(a =~= b);
    } else {
        let tail_a = object_wire(a.last()) + rest_a;
        let tail_b = object_wire(b.last()) + rest_b;
        assert(objects_wire(a.drop_last()) + tail_a =~= objects_wire(a) + rest_a);
        assert(objects_wire(b.drop_last()) + tail_b =~= objects_wire(b) + rest_b);
        lemma_objects_wire_prefix_unique(a.drop_last(), tail_a, b.drop_last(), tail_b);
        lemma_object_wire_prefix_unique(a.last(), rest_a, b.last(), rest_b);
        assert(a =~= a.drop_last().push(a.last()));
        assert(b =~= b.drop_last().push(b.last()));
    }
}

/// Where each field lies in the encoding of a transaction.
pub proof fn lemma_transaction_wire_layout(t: TransactionView)
    requires
        t.encodable(),
    ensures
        transaction_wire(t).len() == 48 + objects_wire(t.inputs).len(),
        transaction_wire(t).subrange(0, 32) == t.id@,
        spec_u64_from_le_bytes(transaction_wire(t).subrange(32, 40)) == t.inputs.len(),
        transaction_wire(t).skip(40) == objects_wire(t.inputs) + spec_u64_to_le_bytes(
            t.execution_time,
        ),
{
    lemma_auto_spec_u64_to_from_le_bytes();
    let w = transaction_wire(t);
    assert(w.subrange(0, 32) =~= t.id@);
    assert(w.subrange(32, 40) =~= spec_u64_to_le_bytes(t.inputs.len() as u64));
    assert(w.skip(40) =~= objects_wire(t.inputs) + spec_u64_to_le_bytes(t.execution_time));
}

/// The encoding determines the transaction: only one value is laid out as a
/// given byte string.
pub proof fn lemma_transaction_wire_injective(a: TransactionView, b: TransactionView)
    requires
        a.encodable(),
        b.encodable(),
        transaction_wire(a) == transaction_wire(b),
    ensures
        a == b,
{
    lemma_auto_spec_u64_to_from_le_bytes();
    lemma_transaction_wire_layout(a);
    lemma_transaction_wire_layout(b);
    lemma_objects_wire_prefix_unique(
        a.inputs,
        spec_u64_to_le_bytes(a.execution_time),
        b.inputs,
        spec_u64_to_le_bytes(b.execution_time),
    );
    lemma_digest_equality(a.id, b.id);
}

/// Encoding a transaction and decoding the result gives back a transaction
/// equal to the first in every field: whatever a decoder that keeps the
/// contract of [`Transaction::from_bytes`] returns on the encoding of `value`
/// is `value`.
pub proof fn lemma_transaction_round_trip(
    value: TransactionView,
    decoded: Option<TransactionView>,
)
    requires
        value.encodable(),
        match decoded {
            Some(t) => t.encodable() && transaction_wire(t) == transaction_wire(value),
            None => forall|v: TransactionView|
                v.encodable() ==> transaction_wire(v) != transaction_wire(value),
        },
    ensures
        decoded == Some(value),
{
    match decoded {
        Some(t) => {
            lemma_transaction_wire_injective(t, value);
        },
        None => {},
    }
}

/// The value of every list of objects is encodable: the length of a vector
/// fits eight bytes.
pub proof fn lemma_object_views_encodable(objects: Seq<Object>)
    ensures
        all_encodable(object_views(objects)),
{
    assert forall|i: int| 0 <= i < objects.len() implies (#[trigger] object_views(
        objects,
    )[i]).encodable() by {
        assert(objects[i].content.len() == objects[i].content@.len());
    }
}

/// In the encoding of a transaction, the objects decoded so far are its
/// first inputs, and what lies behind them is the encoding of the others
/// followed by the execution time.
pub proof fn lemma_decoded_inputs(
    t: TransactionView,
    bytes: Seq<u8>,
    decoded: Seq<ObjectView>,
    pos: int,
)
    requires
        t.encodable(),
        transaction_wire(t) == bytes,
        all_encodable(decoded),
        decoded.len() <= t.inputs.len(),
        40 <= pos <= bytes.len(),
        bytes.subrange(40, pos) == objects_wire(decoded),
    ensures
        decoded == t.inputs.take(decoded.len() as int),
        bytes.skip(pos) == objects_wire(t.inputs.skip(decoded.len() as int))
            + spec_u64_to_le_bytes(t.execution_time),
{
    lemma_transaction_wire_layout(t);
    let n = decoded.len() as int;
    let head = t.inputs.take(n);
    let tail = t.inputs.skip(n);
    let time = spec_u64_to_le_bytes(t.execution_time);
    assert(head + tail =~= t.inputs);
    lemma_objects_wire_concat(head, tail);
    assert(objects_wire(head) + (objects_wire(tail) + time) =~= bytes.skip(40));
    assert(objects_wire(decoded) + bytes.skip(pos) =~= bytes.skip(40));
    lemma_objects_wire_prefix_unique(head, objects_wire(tail) + time, decoded, bytes.skip(pos));
}

impl Transaction {
    /// Encodes the transaction.
    pub fn to_bytes(&self) -> (bytes: Vec<u8>)
        ensures
            self@.encodable(),
            bytes@ == transaction_wire(self@),
    {
        let ghost views = object_views(self.inputs@);
        proof {
            lemma_object_views_encodable(self.inputs@);
        }
        let mut bytes: Vec<u8> = Vec::new();
        bytes.extend_from_slice(self.id.0.as_slice());
        let count = u64_to_le_bytes(self.inputs.len() as u64);
        bytes.extend_from_slice(count.as_slice());
        let ghost head = bytes@;
        assert(head =~= self.id@ + spec_u64_to_le_bytes(views.len() as u64));
        assert(bytes@ =~= head + objects_wire(views.take(0)));
        let mut i: usize = 0;
        while i < self.inputs.len()
            invariant
                i <= self.inputs.len(),
                views == object_views(self.inputs@),
                bytes@ == head + objects_wire(views.take(i as int)),
            decreases self.inputs.len() - i,
        {
            write_object(&mut bytes, &self.inputs[i]);
            proof {
                assert(views.take(i + 1).drop_last() =~= views.take(i as int));
                assert(views.take(i + 1).last() == self.inputs[i as int]@);
                assert(bytes@ =~= head + objects_wire(views.take(i + 1)));
            }
            i += 1;
        }
        assert(views.take(i as int) =~= views);
        let time = u64_to_le_bytes(self.execution_time);
        bytes.extend_from_slice(time.as_slice());
        assert(bytes@ =~= transaction_wire(self@));
        bytes
    }

    /// Decodes a transaction. Succeeds exactly when `bytes` is the encoding
    /// of a transaction, and then returns that transaction.
    pub fn from_bytes(bytes: &[u8]) -> (r: Option<Transaction>)
        ensures
            match r {
                Some(transaction) => {
                    &&& transaction@.encodable()
                    &&& transaction_wire(transaction@) == bytes@
                },
                None => forall|v: TransactionView|
                    v.encodable() ==> transaction_wire(v) != bytes@,
            },
    {
        let len = bytes.len();
        if len < 48 {
            assert forall|v: TransactionView| v.encodable() implies transaction_wire(v)
                != bytes@ by {
                lemma_transaction_wire_layout(v);
            }
            return None;
        }
        let id = read_digest(bytes, 0);
        let count = u64_from_le_bytes(slice_subrange(bytes, 32, 40));
        let mut inputs: Vec<Object> = Vec::new();
        let mut pos: usize = 40;
        let mut i: u64 = 0;
        assert(bytes@.subrange(40, 40) =~= objects_wire(object_views(inputs@)));
        while i < count
            invariant
                len == bytes@.len(),
                count == spec_u64_from_le_bytes(bytes@.subrange(32, 40)),
                i <= count,
                inputs@.len() == i,
                40 <= pos <= len,
                bytes@.subrange(40, pos as int) == objects_wire(object_views(inputs@)),
            decreases count - i,
        {
            let ghost decoded = object_views(inputs@);
            match read_object(bytes, pos) {
                Some((object, next)) => {
                    inputs.push(object);
                    proof {
                        let grown = object_views(inputs@);
                        assert(grown.drop_last() =~= decoded);
                        assert(grown.last() == object@);
                        assert(bytes@.subrange(40, next as int) =~= bytes@.subrange(
                            40,
                            pos as int,
                        ) + bytes@.subrange(pos as int, next as int));
                    }
                    pos = next;
                    i += 1;
                },
                None => {
                    assert forall|v: TransactionView| v.encodable() implies transaction_wire(v)
                        != bytes@ by {
                        if transaction_wire(v) == bytes@ {
                            lemma_transaction_wire_layout(v);
                            lemma_object_views_encodable(inputs@);
                            lemma_decoded_inputs(v, bytes@, decoded, pos as int);
                            let others = v.inputs.skip(i as int);
                            let first = others[0];
                            assert(others =~= seq![first] + others.drop_first());
                            lemma_objects_wire_concat(seq![first], others.drop_first());
                            lemma_objects_wire_single(first);
                            assert(first == v.inputs[i as int]);
                            assert(object_wire(first).is_prefix_of(bytes@.skip(pos as int)));
                            assert(starts_with_object(bytes@.skip(pos as int), first));
                        }
                    }
                    return None;
                },
            }
        }
        if len - pos != 8 {
            assert forall|v: TransactionView| v.encodable() implies transaction_wire(v)
                != bytes@ by {
                if transaction_wire(v) == bytes@ {
                    lemma_auto_spec_u64_to_from_le_bytes();
                    lemma_transaction_wire_layout(v);
                    lemma_object_views_encodable(inputs@);
                    lemma_decoded_inputs(v, bytes@, object_views(inputs@), pos as int);
                    assert(v.inputs.skip(i as int) =~= Seq::<ObjectView>::empty());
                }
            }
            return None;
        }
        let execution_time = u64_from_le_bytes(slice_subrange(bytes, pos, len));
        let transaction = Transaction { id, inputs, execution_time };
        proof {
            lemma_auto_spec_u64_to_from_le_bytes();
            lemma_object_views_encodable(transaction.inputs@);
            assert(bytes@ =~= bytes@.subrange(0, 32) + bytes@.subrange(32, 40) + bytes@.subrange(
                40,
                pos as int,
            ) + bytes@.subrange(pos as int, len as int));
            assert(transaction_wire(transaction@) =~= bytes@);
        }
        Some(transaction)
    }
}

} // verus!
