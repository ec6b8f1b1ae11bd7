//! Snapshot capture and restore: the bridge between the in-memory
//! collection and a durable, opaque byte blob.
//!
//! The blob is self-describing: a record count followed by each record's
//! fields, all counts little-endian. Capturing never fails; restoring fails
//! exactly on blobs that no collection encodes to.

use crate::store::ItemModel;
use crate::store::TodoItem;
use crate::store::TodoStore;
use vstd::prelude::*;
use vstd::utf8::char_is_scalar;
use vstd::utf8::char_u32_cast;
use vstd::utf8::is_scalar;

verus! {

/// Relies on `String::push`: appends the given character to the end of the
/// string, used to rebuild a record's label while restoring a snapshot.
pub assume_specification[ String::push ](s: &mut String, c: char)
    ensures
        final(s)@ == old(s)@.push(c),
;

/// Relies on `char::from_u32`: converts a 32-bit value to a character,
/// `Some` exactly for Unicode scalar values — at most 0x10FFFF and not a
/// surrogate — and the character converts back to the given value.
pub assume_specification[ char::from_u32 ](v: u32) -> (r: Option<char>)
    ensures
        r is Some <==> is_scalar(v),
        r matches Some(c) ==> c as u32 == v,
;

/// Restoration failure: the blob is not the snapshot of any collection.
/// Surfaced to the host as a hard failure of startup, never papered over
/// with an empty store.
#[derive(Clone, Copy, Debug, PartialEq, Eq, Structural)]
pub enum SnapshotError {
    Malformed,
}

/// The four little-endian bytes of a 32-bit value.
pub open spec fn u32_le(v: u32) -> Seq<u8> {
    seq![
        (v & 0xff) as u8,
        ((v >> 8) & 0xff) as u8,
        ((v >> 16) & 0xff) as u8,
        ((v >> 24) & 0xff) as u8,
    ]
}

/// The 32-bit value read from four little-endian bytes.
pub open spec fn u32_from_le(b0: u8, b1: u8, b2: u8, b3: u8) -> u32 {
    (b0 as u32) | ((b1 as u32) << 8) | ((b2 as u32) << 16) | ((b3 as u32) << 24)
}

/// The eight little-endian bytes of a 64-bit value.
pub open spec fn u64_le(v: u64) -> Seq<u8> {
    seq![
        (v & 0xff) as u8,
        ((v >> 8) & 0xff) as u8,
        ((v >> 16) & 0xff) as u8,
        ((v >> 24) & 0xff) as u8,
        ((v >> 32) & 0xff) as u8,
        ((v >> 40) & 0xff) as u8,
        ((v >> 48) & 0xff) as u8,
        ((v >> 56) & 0xff) as u8,
    ]
}

/// The 64-bit value read from eight little-endian bytes.
pub open spec fn u64_from_le(
    b0: u8,
    b1: u8,
    b2: u8,
    b3: u8,
    b4: u8,
    b5: u8,
    b6: u8,
    b7: u8,
) -> u64 {
    (b0 as u64) | ((b1 as u64) << 8) | ((b2 as u64) << 16) | ((b3 as u64) << 24) | ((b4 as u64)
        << 32) | ((b5 as u64) << 40) | ((b6 as u64) << 48) | ((b7 as u64) << 56)
}

/// Reading back the four bytes of a 32-bit value yields the value.
pub proof fn lemma_u32_le_roundtrip(v: u32)
    ensures
        u32_from_le(u32_le(v)[0], u32_le(v)[1], u32_le(v)[2], u32_le(v)[3]) == v,
{
    assert((((v & 0xff) as u8) as u32) | (((((v >> 8) & 0xff) as u8) as u32) << 8) | (((((v >> 16)
        & 0xff) as u8) as u32) << 16) | (((((v >> 24) & 0xff) as u8) as u32) << 24) == v)
        by (bit_vector);
}

/// Writing back the 32-bit value read from four bytes yields the bytes.
pub proof fn lemma_u32_from_le_roundtrip(b0: u8, b1: u8, b2: u8, b3: u8)
    ensures
        u32_le(u32_from_le(b0, b1, b2, b3)) == seq![b0, b1, b2, b3],
{
    let v = u32_from_le(b0, b1, b2, b3);
    assert({
        &&& (v & 0xff) as u8 == b0
        &&& ((v >> 8) & 0xff) as u8 == b1
        &&& ((v >> 16) & 0xff) as u8 == b2
        &&& ((v >> 24) & 0xff) as u8 == b3
    }) by (bit_vector)
        requires
            v == (b0 as u32) | ((b1 as u32) << 8) | ((b2 as u32) << 16) | ((b3 as u32) << 24),
    ;
    assert(u32_le(v) =~= seq![b0, b1, b2, b3]);
}

/// Reading back the eight bytes of a 64-bit value yields the value.
pub proof fn lemma_u64_le_roundtrip(v: u64)
    ensures
        u64_from_le(
            u64_le(v)[0],
            u64_le(v)[1],
            u64_le(v)[2],
            u64_le(v)[3],
            u64_le(v)[4],
            u64_le(v)[5],
            u64_le(v)[6],
            u64_le(v)[7],
        ) == v,
{
    assert((((v & 0xff) as u8) as u64) | (((((v >> 8) & 0xff) as u8) as u64) << 8) | (((((v >> 16)
        & 0xff) as u8) as u64) << 16) | (((((v >> 24) & 0xff) as u8) as u64) << 24) | (((((v >> 32)
        & 0xff) as u8) as u64) << 32) | (((((v >> 40) & 0xff) as u8) as u64) << 40) | (((((v >> 48)
        & 0xff) as u8) as u64) << 48) | (((((v >> 56) & 0xff) as u8) as u64) << 56) == v)
        by (bit_vector);
}

/// Writing back the 64-bit value read from eight bytes yields the bytes.
pub proof fn lemma_u64_from_le_roundtrip(
    b0: u8,
    b1: u8,
    b2: u8,
    b3: u8,
    b4: u8,
    b5: u8,
    b6: u8,
    b7: u8,
)
    ensures
        u64_le(u64_from_le(b0, b1, b2, b3, b4, b5, b6, b7)) == seq![b0, b1, b2, b3, b4, b5, b6, b7],
{
    let v = u64_from_le(b0, b1, b2, b3, b4, b5, b6, b7);
    assert({
        &&& (v & 0xff) as u8 == b0
        &&& ((v >> 8) & 0xff) as u8 == b1
        &&& ((v >> 16) & 0xff) as u8 == b2
        &&& ((v >> 24) & 0xff) as u8 == b3
        &&& ((v >> 32) & 0xff) as u8 == b4
        &&& ((v >> 40) & 0xff) as u8 == b5
        &&& ((v >> 48) & 0xff) as u8 == b6
        &&& ((v >> 56) & 0xff) as u8 == b7
    }) by (bit_vector)
        requires
            v == (b0 as u64) | ((b1 as u64) << 8) | ((b2 as u64) << 16) | ((b3 as u64) << 24) | (
            (b4 as u64) << 32) | ((b5 as u64) << 40) | ((b6 as u64) << 48) | ((b7 as u64) << 56),
    ;
    assert(u64_le(v) =~= seq![b0, b1, b2, b3, b4, b5, b6, b7]);
}

/// The byte a record's done flag is stored as.
pub open spec fn done_byte(done: bool) -> u8 {
    if done {
        1u8
    } else {
        0u8
    }
}

/// The bytes of a record's label: each character's scalar value as four
/// little-endian bytes, in order.
pub open spec fn name_bytes(name: Seq<char>) -> Seq<u8>
    decreases name.len(),
{
    if name.len() == 0 {
        Seq::empty()
    } else {
        u32_le(name[0] as u32) + name_bytes(name.drop_first())
    }
}

/// The bytes of one record: its id, its done flag, the character count of
/// its label, then the label itself.
pub open spec fn record_bytes(m: ItemModel) -> Seq<u8> {
    u32_le(m.id) + seq![done_byte(m.done)] + u64_le(m.name.len() as u64) + name_bytes(m.name)
}

/// The bytes of the records of a collection, in order.
pub open spec fn records_bytes(s: Seq<ItemModel>) -> Seq<u8>
    decreases s.len(),
{
    if s.len() == 0 {
        Seq::empty()
    } else {
        record_bytes(s[0]) + records_bytes(s.drop_first())
    }
}

/// The snapshot of a collection: the record count, then every record.
pub open spec fn snapshot_bytes(s: Seq<ItemModel>) -> Seq<u8> {
    u64_le(s.len() as u64) + records_bytes(s)
}

/// True when the counts the snapshot format stores — the record count and
/// each label's character count — fit their 64-bit fields. Every collection
/// an executable store can hold satisfies this.
pub open spec fn counts_fit(s: Seq<ItemModel>) -> bool {
    &&& s.len() <= u64::MAX
    &&& forall|i: int| 0 <= i < s.len() ==> (#[trigger] s[i]).name.len() <= u64::MAX
}

/// A label's bytes take four bytes per character.
pub proof fn lemma_name_bytes_len(name: Seq<char>)
    ensures
        name_bytes(name).len() == 4 * name.len(),
    decreases name.len(),
{
    if name.len() > 0 {
        lemma_name_bytes_len(name.drop_first());
    }
}

/// Label bytes concatenate: the bytes of `a + b` are the bytes of `a`
/// followed by the bytes of `b`.
pub proof fn lemma_name_bytes_concat(a: Seq<char>, b: Seq<char>)
    ensures
        name_bytes(a + b) == name_bytes(a) + name_bytes(b),
    decreases a.len(),
{
    if a.len() == 0 {
        assert(a + b =~= b);
        assert(name_bytes(a) + name_bytes(b) =~= name_bytes(b));
    } else {
        assert((a + b).drop_first() =~= a.drop_first() + b);
        lemma_name_bytes_concat(a.drop_first(), b);
        assert(u32_le((a + b)[0] as u32) + (name_bytes(a.drop_first()) + name_bytes(b)) =~= (u32_le(
            a[0] as u32,
        ) + name_bytes(a.drop_first())) + name_bytes(b));
    }
}

/// Appending one character appends its four bytes.
pub proof fn lemma_name_bytes_push(name: Seq<char>, c: char)
    ensures
        name_bytes(name.push(c)) == name_bytes(name) + u32_le(c as u32),
{
    lemma_name_bytes_concat(name, seq![c]);
    assert(name.push(c) =~= name + seq![c]);
    let s1 = seq![c];
    assert(s1.drop_first() =~= Seq::<char>::empty());
    assert(name_bytes(s1.drop_first()) =~= Seq::<u8>::empty());
    assert(name_bytes(s1) == u32_le(s1[0] as u32) + name_bytes(s1.drop_first()));
    assert(name_bytes(s1) =~= u32_le(c as u32));
}

/// Record bytes concatenate: the bytes of `a + b` are the bytes of `a`
/// followed by the bytes of `b`.
pub proof fn lemma_records_bytes_concat(a: Seq<ItemModel>, b: Seq<ItemModel>)
    ensures
        records_bytes(a + b) == records_bytes(a) + records_bytes(b),
    decreases a.len(),
{
    if a.len() == 0 {
        assert(a + b =~= b);
        assert(records_bytes(a) + records_bytes(b) =~= records_bytes(b));
    } else {
        assert((a + b).drop_first() =~= a.drop_first() + b);
        lemma_records_bytes_concat(a.drop_first(), b);
        assert(record_bytes((a + b)[0]) + (records_bytes(a.drop_first()) + records_bytes(b)) =~= (
        record_bytes(a[0]) + records_bytes(a.drop_first())) + records_bytes(b));
    }
}

/// Appending one record appends its bytes.
pub proof fn lemma_records_bytes_push(s: Seq<ItemModel>, m: ItemModel)
    ensures
        records_bytes(s.push(m)) == records_bytes(s) + record_bytes(m),
{
    lemma_records_bytes_concat(s, seq![m]);
    assert(s.push(m) =~= s + seq![m]);
    let s1 = seq![m];
    assert(s1.drop_first() =~= Seq::<ItemModel>::empty());
    assert(records_bytes(s1.drop_first()) =~= Seq::<u8>::empty());
    assert(records_bytes(s1) == record_bytes(s1[0]) + records_bytes(s1.drop_first()));
    assert(records_bytes(s1) =~= record_bytes(m));
}

/// The records' bytes split at any record boundary.
pub proof fn lemma_records_bytes_split(s: Seq<ItemModel>, i: int)
    requires
        0 <= i <= s.len(),
    ensures
        records_bytes(s) == records_bytes(s.take(i)) + records_bytes(s.skip(i)),
{
    assert(s =~= s.take(i) + s.skip(i));
    lemma_records_bytes_concat(s.take(i), s.skip(i));
}

/// Two concatenations with equally long first parts are equal part by part.
pub proof fn lemma_concat_parts_equal<T>(a1: Seq<T>, b1: Seq<T>, a2: Seq<T>, b2: Seq<T>)
    requires
        a1.len() == a2.len(),
        a1 + b1 == a2 + b2,
    ensures
        a1 == a2,
        b1 == b2,
{
    assert((a1 + b1).len() == a1.len() + b1.len());
    assert((a2 + b2).len() == a2.len() + b2.len());
    assert(b1.len() == b2.len());
    assert forall|k: int| 0 <= k < a1.len() implies a1[k] == a2[k] by {
        assert((a1 + b1)[k] == a1[k]);
        assert((a2 + b2)[k] == a2[k]);
    }
    assert(a1 =~= a2);
    assert forall|k: int| 0 <= k < b1.len() implies b1[k] == b2[k] by {
        assert((a1 + b1)[a1.len() + k] == b1[k]);
        assert((a2 + b2)[a2.len() + k] == b2[k]);
    }
    assert(b1 =~= b2);
}

/// Appends the four little-endian bytes of `v`.
fn write_u32_le(out: &mut Vec<u8>, v: u32)
    ensures
        final(out)@ == old(out)@ + u32_le(v),
{
    proof {
        assert(v & 0xff < 256 && (v >> 8) & 0xff < 256 && (v >> 16) & 0xff < 256 && (v >> 24)
            & 0xff < 256) by (bit_vector);
    }
    out.push((v & 0xff) as u8);
    out.push(((v >> 8) & 0xff) as u8);
    out.push(((v >> 16) & 0xff) as u8);
    out.push(((v >> 24) & 0xff) as u8);
    proof {
        assert(out@ =~= old(out)@ + u32_le(v));
    }
}

/// Appends the eight little-endian bytes of `v`.
fn write_u64_le(out: &mut Vec<u8>, v: u64)
    ensures
        final(out)@ == old(out)@ + u64_le(v),
{
    proof {
        assert(v & 0xff < 256 && (v >> 8) & 0xff < 256 && (v >> 16) & 0xff < 256 && (v >> 24)
            & 0xff < 256 && (v >> 32) & 0xff < 256 && (v >> 40) & 0xff < 256 && (v >> 48) & 0xff
            < 256 && (v >> 56) & 0xff < 256) by (bit_vector);
    }
    out.push((v & 0xff) as u8);
    out.push(((v >> 8) & 0xff) as u8);
    out.push(((v >> 16) & 0xff) as u8);
    out.push(((v >> 24) & 0xff) as u8);
    out.push(((v >> 32) & 0xff) as u8);
    out.push(((v >> 40) & 0xff) as u8);
    out.push(((v >> 48) & 0xff) as u8);
    out.push(((v >> 56) & 0xff) as u8);
    proof {
        assert(out@ =~= old(out)@ + u64_le(v));
    }
}

/// Reads the 32-bit value stored little-endian at `pos`.
fn read_u32_le(bytes: &Vec<u8>, pos: usize) -> (v: u32)
    requires
        pos + 4 <= bytes@.len(),
    ensures
        v == u32_from_le(
            bytes@[pos as int],
            bytes@[pos as int + 1],
            bytes@[pos as int + 2],
            bytes@[pos as int + 3],
        ),
{
    let n = bytes.len();
    let b0 = bytes[pos];
    let b1 = bytes[pos + 1];
    let b2 = bytes[pos + 2];
    let b3 = bytes[pos + 3];
    (b0 as u32) | ((b1 as u32) << 8) | ((b2 as u32) << 16) | ((b3 as u32) << 24)
}

/// Reads the 64-bit value stored little-endian at `pos`.
fn read_u64_le(bytes: &Vec<u8>, pos: usize) -> (v: u64)
    requires
        pos + 8 <= bytes@.len(),
    ensures
        v == u64_from_le(
            bytes@[pos as int],
            bytes@[pos as int + 1],
            bytes@[pos as int + 2],
            bytes@[pos as int + 3],
            bytes@[pos as int + 4],
            bytes@[pos as int + 5],
            bytes@[pos as int + 6],
            bytes@[pos as int + 7],
        ),
{
    let n = bytes.len();
    let b0 = bytes[pos];
    let b1 = bytes[pos + 1];
    let b2 = bytes[pos + 2];
    let b3 = bytes[pos + 3];
    let b4 = bytes[pos + 4];
    let b5 = bytes[pos + 5];
    let b6 = bytes[pos + 6];
    let b7 = bytes[pos + 7];
    (b0 as u64) | ((b1 as u64) << 8) | ((b2 as u64) << 16) | ((b3 as u64) << 24) | ((b4 as u64)
        << 32) | ((b5 as u64) << 40) | ((b6 as u64) << 48) | ((b7 as u64) << 56)
}

/// Equal four-byte encodings come from equal values.
pub proof fn lemma_u32_le_injective(a: u32, b: u32)
    requires
        u32_le(a) == u32_le(b),
    ensures
        a == b,
{
    lemma_u32_le_roundtrip(a);
    lemma_u32_le_roundtrip(b);
}

/// Equal eight-byte encodings come from equal values.
pub proof fn lemma_u64_le_injective(a: u64, b: u64)
    requires
        u64_le(a) == u64_le(b),
    ensures
        a == b,
{
    lemma_u64_le_roundtrip(a);
    lemma_u64_le_roundtrip(b);
}

/// The k-th character's four bytes sit at offset `4 * k` of the label's
/// bytes.
pub proof fn lemma_name_bytes_char_at(name: Seq<char>, k: int)
    requires
        0 <= k < name.len(),
    ensures
        name_bytes(name).subrange(4 * k, 4 * k + 4) == u32_le(name[k] as u32),
{
    assert(name =~= name.take(k) + name.skip(k));
    lemma_name_bytes_concat(name.take(k), name.skip(k));
    lemma_name_bytes_len(name.take(k));
    lemma_name_bytes_len(name.skip(k));
    lemma_name_bytes_len(name);
    assert(name.skip(k)[0] == name[k]);
    assert(name_bytes(name.skip(k)) == u32_le(name[k] as u32) + name_bytes(
        name.skip(k).drop_first(),
    ));
    assert(name_bytes(name).subrange(4 * k, 4 * k + 4) =~= u32_le(name[k] as u32));
}

/// Equally long labels with equal bytes are equal.
pub proof fn lemma_name_bytes_injective(a: Seq<char>, b: Seq<char>)
    requires
        a.len() == b.len(),
        name_bytes(a) == name_bytes(b),
    ensures
        a == b,
    decreases a.len(),
{
    if a.len() == 0 {
        assert(a =~= b);
    } else {
        lemma_name_bytes_len(a.drop_first());
        lemma_name_bytes_len(b.drop_first());
        lemma_concat_parts_equal(
            u32_le(a[0] as u32),
            name_bytes(a.drop_first()),
            u32_le(b[0] as u32),
            name_bytes(b.drop_first()),
        );
        lemma_u32_le_injective(a[0] as u32, b[0] as u32);
        char_u32_cast(a[0], a[0] as u32);
        char_u32_cast(b[0], b[0] as u32);
        lemma_name_bytes_injective(a.drop_first(), b.drop_first());
        assert(a =~= b) by {
            assert(forall|i: int| 0 < i < a.len() ==> a[i] == a.drop_first()[i - 1]);
            assert(forall|i: int| 0 < i < b.len() ==> b[i] == b.drop_first()[i - 1]);
        }
    }
}

/// Where one record's bytes sit inside a byte string: each field at its
/// offset. The label count bound keeps the stored 64-bit count exact.
pub proof fn lemma_record_fields_at(m: ItemModel, rest: Seq<u8>, x: Seq<u8>)
    requires
        m.name.len() <= u64::MAX,
        x == record_bytes(m) + rest,
    ensures
        x.len() == 13 + 4 * m.name.len() + rest.len(),
        x.subrange(0, 4) == u32_le(m.id),
        x[4] == done_byte(m.done),
        x.subrange(5, 13) == u64_le(m.name.len() as u64),
        x.subrange(13, 13 + 4 * m.name.len() as int) == name_bytes(m.name),
        forall|k: int|
            0 <= k < m.name.len() ==> x.subrange(13 + 4 * k, 13 + 4 * k + 4) == u32_le(
                (#[trigger] m.name[k]) as u32,
            ),
{
    lemma_name_bytes_len(m.name);
    assert(record_bytes(m).len() == 13 + 4 * m.name.len());
    assert(x.subrange(0, 4) =~= u32_le(m.id));
    assert(x[4] == done_byte(m.done));
    assert(x.subrange(5, 13) =~= u64_le(m.name.len() as u64));
    assert(x.subrange(13, 13 + 4 * m.name.len() as int) =~= name_bytes(m.name));
    assert forall|k: int| 0 <= k < m.name.len() implies x.subrange(13 + 4 * k, 13 + 4 * k + 4)
        == u32_le((#[trigger] m.name[k]) as u32) by {
        lemma_name_bytes_char_at(m.name, k);
        assert(x.subrange(13 + 4 * k, 13 + 4 * k + 4) =~= name_bytes(m.name).subrange(
            4 * k,
            4 * k + 4,
        ));
    }
}

/// A byte string determines the record at its front: two records laid over
/// the same bytes are the same record, with the same bytes after them.
pub proof fn lemma_record_bytes_prefix(m1: ItemModel, r1: Seq<u8>, m2: ItemModel, r2: Seq<u8>)
    requires
        m1.name.len() <= u64::MAX,
        m2.name.len() <= u64::MAX,
        record_bytes(m1) + r1 == record_bytes(m2) + r2,
    ensures
        m1 == m2,
        r1 == r2,
{
    let x = record_bytes(m1) + r1;
    lemma_record_fields_at(m1, r1, x);
    lemma_record_fields_at(m2, r2, x);
    lemma_u32_le_injective(m1.id, m2.id);
    lemma_u64_le_injective(m1.name.len() as u64, m2.name.len() as u64);
    assert(m1.name.len() == m2.name.len());
    lemma_name_bytes_injective(m1.name, m2.name);
    assert(m1.done == m2.done);
    assert(m1 =~= m2);
    lemma_concat_parts_equal(record_bytes(m1), r1, record_bytes(m2), r2);
}

/// Appends the bytes of one record.
fn encode_record(out: &mut Vec<u8>, item: &TodoItem)
    ensures
        final(out)@ == old(out)@ + record_bytes(item@),
        item@.name.len() <= u64::MAX,
{
    write_u32_le(out, item.id);
    out.push(if item.done {
        1u8
    } else {
        0u8
    });
    let name = item.name.as_str();
    let nl = name.unicode_len();
    write_u64_le(out, nl as u64);
    let ghost header = old(out)@ + u32_le(item.id) + seq![done_byte(item.done)] + u64_le(nl as u64);
    proof {
        assert(out@ =~= header + name_bytes(item.name@.take(0)));
    }
    let mut j: usize = 0;
    while j < nl
        invariant
            nl == item.name@.len(),
            0 <= j <= nl,
            header == old(out)@ + u32_le(item.id) + seq![done_byte(item.done)] + u64_le(nl as u64),
            name@ == item.name@,
            out@ == header + name_bytes(item.name@.take(j as int)),
        decreases nl - j,
    {
        let c = name.get_char(j);
        let v = c as u32;
        write_u32_le(out, v);
        proof {
            assert(item.name@.take(j + 1) =~= item.name@.take(j as int).push(c));
            lemma_name_bytes_push(item.name@.take(j as int), c);
            assert(out@ =~= header + name_bytes(item.name@.take(j + 1)));
        }
        j = j + 1;
    }
    proof {
        assert(item.name@.take(nl as int) =~= item.name@);
        assert(out@ =~= old(out)@ + record_bytes(item@));
    }
}

/// Inside a snapshot, the bytes after the first `i` records start with the
/// bytes of record `i`.
proof fn lemma_snapshot_suffix_at(bts: Seq<u8>, ts: Seq<ItemModel>, i: int, pos: int)
    requires
        bts == snapshot_bytes(ts),
        0 <= i < ts.len(),
        pos == 8 + records_bytes(ts.take(i)).len(),
    ensures
        pos <= bts.len(),
        bts.skip(pos) == record_bytes(ts[i]) + records_bytes(ts.skip(i + 1)),
        pos + record_bytes(ts[i]).len() == 8 + records_bytes(ts.take(i + 1)).len(),
{
    lemma_records_bytes_split(ts, i);
    assert(ts.skip(i).drop_first() =~= ts.skip(i + 1));
    assert(records_bytes(ts.skip(i)) == record_bytes(ts[i]) + records_bytes(ts.skip(i + 1)));
    assert(bts.skip(pos) =~= records_bytes(ts.skip(i)));
    assert(ts.take(i + 1) =~= ts.take(i).push(ts[i]));
    lemma_records_bytes_push(ts.take(i), ts[i]);
}

/// No record's bytes can start the suffix at `pos` when the bytes run out
/// inside the label promised by the stored character count.
proof fn lemma_no_record_when_short(bts: Seq<u8>, pos: int, cur: int, j: int, nl: u64)
    requires
        0 <= pos,
        pos + 13 <= cur <= bts.len(),
        cur == pos + 13 + 4 * j,
        0 <= j < nl,
        u64_le(nl) == bts.subrange(pos + 5, pos + 13),
        bts.len() - cur < 4,
    ensures
        forall|m: ItemModel, rest: Seq<u8>|
            !(m.name.len() <= u64::MAX && bts.skip(pos) == record_bytes(m) + rest),
{
    let x = bts.skip(pos);
    assert forall|m: ItemModel, rest: Seq<u8>|
        !(m.name.len() <= u64::MAX && x == record_bytes(m) + rest) by {
        if m.name.len() <= u64::MAX && x == record_bytes(m) + rest {
            lemma_record_fields_at(m, rest, x);
            assert(x.subrange(5, 13) =~= bts.subrange(pos + 5, pos + 13));
            lemma_u64_le_injective(nl, m.name.len() as u64);
        }
    }
}

/// No record's bytes can start the suffix at `pos` when the four bytes at
/// the current label position hold a value no character has.
proof fn lemma_no_record_when_bad_char(bts: Seq<u8>, pos: int, cur: int, j: int, nl: u64, v: u32)
    requires
        0 <= pos,
        pos + 13 <= cur,
        cur + 4 <= bts.len(),
        cur == pos + 13 + 4 * j,
        0 <= j < nl,
        u64_le(nl) == bts.subrange(pos + 5, pos + 13),
        u32_le(v) == bts.subrange(cur, cur + 4),
        !is_scalar(v),
    ensures
        forall|m: ItemModel, rest: Seq<u8>|
            !(m.name.len() <= u64::MAX && bts.skip(pos) == record_bytes(m) + rest),
{
    let x = bts.skip(pos);
    assert forall|m: ItemModel, rest: Seq<u8>|
        !(m.name.len() <= u64::MAX && x == record_bytes(m) + rest) by {
        if m.name.len() <= u64::MAX && x == record_bytes(m) + rest {
            lemma_record_fields_at(m, rest, x);
            assert(x.subrange(5, 13) =~= bts.subrange(pos + 5, pos + 13));
            lemma_u64_le_injective(nl, m.name.len() as u64);
            assert(x.subrange(13 + 4 * j, 13 + 4 * j + 4) =~= bts.subrange(cur, cur + 4));
            lemma_u32_le_injective(v, m.name[j] as u32);
            char_is_scalar(m.name[j]);
        }
    }
}

/// Parses the record that starts at `pos`. A parse succeeds exactly on
/// suffixes that start with a record's bytes; it yields that record, and
/// the position just past it.
fn parse_record(bytes: &Vec<u8>, pos: usize) -> (r: Result<(TodoItem, usize), SnapshotError>)
    requires
        pos <= bytes@.len(),
    ensures
        r matches Ok((item, newpos)) ==> pos < newpos <= bytes@.len() && bytes@.subrange(
            pos as int,
            newpos as int,
        ) == record_bytes(item@) && item@.name.len() <= u64::MAX,
        forall|m: ItemModel, rest: Seq<u8>|
            m.name.len() <= u64::MAX && bytes@.skip(pos as int) == record_bytes(m) + rest ==> (
            r matches Ok(p) && p.0@ == m && p.1 == pos + record_bytes(m).len()),
{
    let ghost x = bytes@.skip(pos as int);
    let n = bytes.len();
    if n - pos < 13 {
        proof {
            assert forall|m: ItemModel, rest: Seq<u8>|
                !(m.name.len() <= u64::MAX && x == record_bytes(m) + rest) by {
                if m.name.len() <= u64::MAX && x == record_bytes(m) + rest {
                    lemma_record_fields_at(m, rest, x);
                }
            }
        }
        return Err(SnapshotError::Malformed);
    }
    let id = read_u32_le(bytes, pos);
    let db = bytes[pos + 4];
    let nl = read_u64_le(bytes, pos + 5);
    proof {
        lemma_u32_from_le_roundtrip(
            bytes@[pos as int],
            bytes@[pos as int + 1],
            bytes@[pos as int + 2],
            bytes@[pos as int + 3],
        );
        assert(u32_le(id) =~= bytes@.subrange(pos as int, pos as int + 4));
        lemma_u64_from_le_roundtrip(
            bytes@[pos as int + 5],
            bytes@[pos as int + 6],
            bytes@[pos as int + 7],
            bytes@[pos as int + 8],
            bytes@[pos as int + 9],
            bytes@[pos as int + 10],
            bytes@[pos as int + 11],
            bytes@[pos as int + 12],
        );
        assert(u64_le(nl) =~= bytes@.subrange(pos as int + 5, pos as int + 13));
    }
    let done = if db == 0 {
        false
    } else if db == 1 {
        true
    } else {
        proof {
            assert forall|m: ItemModel, rest: Seq<u8>|
                !(m.name.len() <= u64::MAX && x == record_bytes(m) + rest) by {
                if m.name.len() <= u64::MAX && x == record_bytes(m) + rest {
                    lemma_record_fields_at(m, rest, x);
                    assert(x[4] == bytes@[pos as int + 4]);
                }
            }
        }
        return Err(SnapshotError::Malformed);
    };
    let mut name = String::new();
    let mut cur: usize = pos + 13;
    let mut j: u64 = 0;
    proof {
        assert(bytes@.subrange(pos as int + 13, cur as int) =~= name_bytes(name@));
    }
    while j < nl
        invariant
            n == bytes@.len(),
            pos + 13 <= cur <= n,
            cur == pos + 13 + 4 * j,
            j <= nl,
            name@.len() == j,
            x == bytes@.skip(pos as int),
            db == done_byte(done),
            u32_le(id) == bytes@.subrange(pos as int, pos as int + 4),
            db == bytes@[pos as int + 4],
            u64_le(nl) == bytes@.subrange(pos as int + 5, pos as int + 13),
            name_bytes(name@) == bytes@.subrange(pos as int + 13, cur as int),
        decreases nl - j,
    {
        if n - cur < 4 {
            proof {
                lemma_no_record_when_short(bytes@, pos as int, cur as int, j as int, nl);
            }
            return Err(SnapshotError::Malformed);
        }
        let v = read_u32_le(bytes, cur);
        proof {
            lemma_u32_from_le_roundtrip(
                bytes@[cur as int],
                bytes@[cur as int + 1],
                bytes@[cur as int + 2],
                bytes@[cur as int + 3],
            );
            assert(u32_le(v) =~= bytes@.subrange(cur as int, cur as int + 4));
        }
        match char::from_u32(v) {
            Some(c) => {
                proof {
                    lemma_name_bytes_push(name@, c);
                    assert(bytes@.subrange(pos as int + 13, cur as int + 4) =~= bytes@.subrange(
                        pos as int + 13,
                        cur as int,
                    ) + bytes@.subrange(cur as int, cur as int + 4));
                }
                name.push(c);
                cur = cur + 4;
                j = j + 1;
            },
            None => {
                proof {
                    lemma_no_record_when_bad_char(
                        bytes@,
                        pos as int,
                        cur as int,
                        j as int,
                        nl,
                        v,
                    );
                }
                return Err(SnapshotError::Malformed);
            },
        }
    }
    let item = TodoItem { id, name, done };
    proof {
        assert(bytes@.subrange(pos as int, cur as int) =~= record_bytes(item@)) by {
            assert(item@.name.len() as u64 == nl);
            assert(bytes@.subrange(pos as int + 4, pos as int + 5) =~= seq![db]);
            assert(bytes@.subrange(pos as int, cur as int) =~= bytes@.subrange(
                pos as int,
                pos as int + 4,
            ) + bytes@.subrange(pos as int + 4, pos as int + 5) + bytes@.subrange(
                pos as int + 5,
                pos as int + 13,
            ) + bytes@.subrange(pos as int + 13, cur as int));
        }
        assert(x =~= bytes@.subrange(pos as int, cur as int) + bytes@.skip(cur as int));
        assert forall|m: ItemModel, rest: Seq<u8>|
            m.name.len() <= u64::MAX && x == record_bytes(m) + rest implies item@ == m && cur
            == pos + record_bytes(m).len() by {
            lemma_record_bytes_prefix(item@, bytes@.skip(cur as int), m, rest);
        }
    }
    Ok((item, cur))
}

/// Serializes the whole collection into a snapshot blob. Never fails: the
/// returned bytes are exactly the snapshot of the store's collection.
pub fn capture_snapshot(store: &TodoStore) -> (out: Vec<u8>)
    ensures
        out@ == snapshot_bytes(store@),
        counts_fit(store@),
{
    let mut out: Vec<u8> = Vec::new();
    let n = store.todos.len();
    write_u64_le(&mut out, n as u64);
    proof {
        assert(out@ =~= u64_le(n as u64) + records_bytes(store@.take(0)));
    }
    let mut i: usize = 0;
    while i < n
        invariant
            n == store.todos@.len(),
            n == store@.len(),
            0 <= i <= n,
            out@ == u64_le(n as u64) + records_bytes(store@.take(i as int)),
            forall|k: int| 0 <= k < i ==> (#[trigger] store@[k]).name.len() <= u64::MAX,
        decreases n - i,
    {
        encode_record(&mut out, &store.todos[i]);
        proof {
            assert(store.todos@[i as int]@ == store@[i as int]);
            assert(store@.take(i + 1) =~= store@.take(i as int).push(store@[i as int]));
            lemma_records_bytes_push(store@.take(i as int), store@[i as int]);
            assert(out@ =~= u64_le(n as u64) + records_bytes(store@.take(i + 1)));
        }
        i = i + 1;
    }
    proof {
        assert(store@.take(n as int) =~= store@);
        assert(out@ =~= snapshot_bytes(store@));
    }
    out
}

/// Equally long collections with the same record bytes are equal.
proof fn lemma_records_bytes_injective(a: Seq<ItemModel>, b: Seq<ItemModel>)
    requires
        counts_fit(a),
        counts_fit(b),
        a.len() == b.len(),
        records_bytes(a) == records_bytes(b),
    ensures
        a == b,
    decreases a.len(),
{
    if a.len() == 0 {
        assert(a =~= b);
    } else {
        assert(a[0].name.len() <= u64::MAX);
        assert(b[0].name.len() <= u64::MAX);
        lemma_record_bytes_prefix(
            a[0],
            records_bytes(a.drop_first()),
            b[0],
            records_bytes(b.drop_first()),
        );
        assert(counts_fit(a.drop_first())) by {
            assert(forall|i: int|
                0 <= i < a.drop_first().len() ==> a.drop_first()[i] == a[i + 1]);
        }
        assert(counts_fit(b.drop_first())) by {
            assert(forall|i: int|
                0 <= i < b.drop_first().len() ==> b.drop_first()[i] == b[i + 1]);
        }
        lemma_records_bytes_injective(a.drop_first(), b.drop_first());
        assert(a =~= b) by {
            assert(forall|i: int| 0 < i < a.len() ==> a[i] == a.drop_first()[i - 1]);
            assert(forall|i: int| 0 < i < b.len() ==> b[i] == b.drop_first()[i - 1]);
        }
    }
}

/// Law: a snapshot determines its collection, so restoring the blob
/// captured from a store can only yield that store's collection — the
/// round trip is exact. Two collections with the same snapshot bytes are
/// the same collection, record for record, in the same order.
pub proof fn lemma_snapshot_bytes_injective(a: Seq<ItemModel>, b: Seq<ItemModel>)
    requires
        counts_fit(a),
        counts_fit(b),
        snapshot_bytes(a) == snapshot_bytes(b),
    ensures
        a == b,
{
    lemma_concat_parts_equal(
        u64_le(a.len() as u64),
        records_bytes(a),
        u64_le(b.len() as u64),
        records_bytes(b),
    );
    lemma_u64_le_injective(a.len() as u64, b.len() as u64);
    lemma_records_bytes_injective(a, b);
}

/// Rebuilds a store from a snapshot blob. Restoration succeeds exactly on
/// blobs that are the snapshot of some collection — necessarily the
/// collection returned — and otherwise reports the blob as malformed rather
/// than presenting a made-up store as legitimate state.
pub fn restore_from_snapshot(bytes: &Vec<u8>) -> (r: Result<TodoStore, SnapshotError>)
    ensures
        r matches Ok(store) ==> counts_fit(store@) && bytes@ == snapshot_bytes(store@),
        (exists|ts: Seq<ItemModel>| counts_fit(ts) && bytes@ == snapshot_bytes(ts)) ==> r is Ok,
{
    let ghost ok = exists|ts: Seq<ItemModel>| counts_fit(ts) && bytes@ == snapshot_bytes(ts);
    let ghost gts: Seq<ItemModel> = if ok {
        choose|ts: Seq<ItemModel>| counts_fit(ts) && bytes@ == snapshot_bytes(ts)
    } else {
        Seq::empty()
    };
    let n = bytes.len();
    if n < 8 {
        proof {
            if ok {
                assert(snapshot_bytes(gts).len() >= 8);
            }
        }
        return Err(SnapshotError::Malformed);
    }
    let count = read_u64_le(bytes, 0);
    proof {
        lemma_u64_from_le_roundtrip(
            bytes@[0],
            bytes@[1],
            bytes@[2],
            bytes@[3],
            bytes@[4],
            bytes@[5],
            bytes@[6],
            bytes@[7],
        );
        assert(u64_le(count) =~= bytes@.subrange(0, 8));
        if ok {
            assert(u64_le(gts.len() as u64) =~= bytes@.subrange(0, 8));
            lemma_u64_le_injective(count, gts.len() as u64);
        }
    }
    let mut todos: Vec<TodoItem> = Vec::new();
    let mut pos: usize = 8;
    let mut i: u64 = 0;
    proof {
        assert(bytes@.subrange(8, 8) =~= records_bytes(todos@.map_values(|t: TodoItem| t@)));
        if ok {
            assert(todos@.map_values(|t: TodoItem| t@) =~= gts.take(0));
            assert(records_bytes(gts.take(0)).len() == 0);
        }
    }
    while i < count
        invariant
            n == bytes@.len(),
            8 <= pos <= n,
            i <= count,
            todos@.len() == i,
            u64_le(count) == bytes@.subrange(0, 8),
            bytes@.subrange(8, pos as int) == records_bytes(todos@.map_values(|t: TodoItem| t@)),
            counts_fit(todos@.map_values(|t: TodoItem| t@)),
            ok == exists|ts: Seq<ItemModel>| counts_fit(ts) && bytes@ == snapshot_bytes(ts),
            ok ==> counts_fit(gts) && bytes@ == snapshot_bytes(gts) && count == gts.len() && todos@
                .map_values(|t: TodoItem| t@) == gts.take(i as int) && pos == 8 + records_bytes(
                gts.take(i as int),
            ).len(),
        decreases count - i,
    {
        proof {
            if ok {
                lemma_snapshot_suffix_at(bytes@, gts, i as int, pos as int);
                assert(gts[i as int].name.len() <= u64::MAX);
            }
        }
        match parse_record(bytes, pos) {
            Ok((item, newpos)) => {
                let ghost prev = todos@.map_values(|t: TodoItem| t@);
                proof {
                    lemma_records_bytes_push(prev, item@);
                    assert(bytes@.subrange(8, newpos as int) =~= bytes@.subrange(8, pos as int)
                        + bytes@.subrange(pos as int, newpos as int));
                    if ok {
                        assert(gts.take(i as int + 1) =~= gts.take(i as int).push(gts[i as int]));
                    }
                }
                todos.push(item);
                pos = newpos;
                i = i + 1;
                proof {
                    assert(todos@.map_values(|t: TodoItem| t@) =~= prev.push(item@));
                }
            },
            Err(_) => {
                proof {
                    if ok {
                        assert(false);
                    }
                }
                return Err(SnapshotError::Malformed);
            },
        }
    }
    if pos != n {
        proof {
            if ok {
                assert(gts.take(count as int) =~= gts);
            }
        }
        return Err(SnapshotError::Malformed);
    }
    let store = TodoStore { todos };
    proof {
        let sv = store@;
        assert(bytes@ =~= u64_le(count) + records_bytes(sv));
        assert(sv.len() as u64 == count);
        assert(bytes@ == snapshot_bytes(sv));
    }
    Ok(store)
}

} // verus!
