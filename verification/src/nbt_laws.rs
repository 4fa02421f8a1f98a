//! What is written of a value of the tagged binary store is read back as
//! the same value.

use vstd::prelude::*;
use vstd::utf8::encode_utf8;
use crate::nbt::{
    elems_canonical, elems_payload, elems_payload_from, entries_canonical, entries_payload,
    entries_payload_from, entry_bytes, lemma_collected_distinct, lemma_elems_canonical_at,
    lemma_elems_payload_split, lemma_entries_canonical_at, lemma_entries_payload_split,
    list_kind, names_distinct, read_document, read_elems, read_entries, read_entry,
    read_payload, NbtError, NbtView, TagView, TAG_COMPOUND, TAG_END, TAG_LIST,
};
use crate::util::{
    int_bytes, int_of, lemma_bytearray_roundtrip, lemma_double_roundtrip, lemma_float_roundtrip,
    lemma_int_roundtrip, lemma_long_roundtrip, lemma_sbyte_roundtrip, lemma_short_roundtrip,
    lemma_utfstring_roundtrip, sbyte_bits, sbyte_of, sbytes_bits, utfstring_bytes, utfstring_of,
    CodecError,
};

verus! {

/// Where the parts of four pieces in a row begin.
proof fn lemma_four_pieces(head: u8, named: Seq<u8>, payload: Seq<u8>, tail: Seq<u8>)
    ensures
        ({
            let b = seq![head] + named + payload + tail;
            &&& b.len() == 1 + named.len() + payload.len() + tail.len()
            &&& b[0] == head
            &&& b.skip(1) == named + (payload + tail)
            &&& b.skip(1 + named.len() as int) == payload + tail
            &&& b.skip(1 + named.len() as int + payload.len() as int) == tail
        }),
{
    let b = seq![head] + named + payload + tail;
    assert(b.skip(1) =~= named + (payload + tail));
    assert(b.skip(1 + named.len() as int) =~= payload + tail);
    assert(b.skip(1 + named.len() as int + payload.len() as int) =~= tail);
}

/// A number is read back as itself from its written form, whatever
/// follows it.
proof fn lemma_number_roundtrip(t: TagView, rest: Seq<u8>)
    requires
        t is Byte || t is Short || t is Int || t is Long || t is Float || t is Double,
    ensures
        read_payload(t.payload() + rest, t.kind()) == Ok::<(TagView, int), NbtError>(
            (t, t.payload().len() as int),
        ),
{
    let b = t.payload() + rest;
    let zeros = Seq::new(8, |i: int| 0u8);
    match t {
        TagView::Byte(v) => {
            lemma_sbyte_roundtrip(v, 0);
            assert(b[0] == sbyte_bits(v));
        },
        TagView::Short(v) => {
            lemma_short_roundtrip(v, rest, zeros);
        },
        TagView::Int(v) => {
            lemma_int_roundtrip(v, rest, zeros);
        },
        TagView::Long(v) => {
            lemma_long_roundtrip(v, rest, zeros);
        },
        TagView::Float(v) => {
            lemma_float_roundtrip(v, rest, zeros);
        },
        TagView::Double(v) => {
            lemma_double_roundtrip(v, rest, zeros);
        },
        _ => {},
    }
}

/// An array of bytes that can be written is read back as itself.
#[verifier::rlimit(50)]
proof fn lemma_byte_array_roundtrip(v: Seq<i8>, rest: Seq<u8>)
    requires
        v.len() <= i32::MAX,
    ensures
        read_payload(TagView::ByteArray(v).payload() + rest, TagView::ByteArray(v).kind()) == Ok::<
            (TagView, int),
            NbtError,
        >((TagView::ByteArray(v), TagView::ByteArray(v).payload().len() as int)),
{
    let n = v.len() as int;
    let b = TagView::ByteArray(v).payload() + rest;
    let zeros = Seq::new(8, |i: int| 0u8);
    lemma_int_roundtrip(n as i32, sbytes_bits(v) + rest, zeros);
    assert(b =~= int_bytes(n as i32) + (sbytes_bits(v) + rest));
    assert(b.subrange(4, 4 + n) =~= sbytes_bits(v));
    lemma_bytearray_roundtrip(v, Seq::empty());
}

/// How a list is read where its elements are known to be read.
proof fn lemma_read_list_step(b: Seq<u8>, elems: Seq<TagView>, n: int)
    requires
        b.len() >= 5,
        int_of(b.skip(1)) >= 0,
        read_elems(b.skip(5), sbyte_of(b[0]), int_of(b.skip(1)) as nat) == Ok::<
            (Seq<TagView>, int),
            NbtError,
        >((elems, n)),
    ensures
        read_payload(b, TAG_LIST) == Ok::<(TagView, int), NbtError>((TagView::List(elems), 5 + n)),
{
}

/// A list whose elements are read back as themselves is read back as
/// itself.
proof fn lemma_list_assembled(v: Seq<TagView>, rest: Seq<u8>)
    requires
        v.len() <= i32::MAX,
        read_elems(elems_payload_from(v, 0, v.len()) + rest, list_kind(v), v.len()) == Ok::<
            (Seq<TagView>, int),
            NbtError,
        >((v.subrange(0, v.len() as int), elems_payload_from(v, 0, v.len()).len() as int)),
    ensures
        read_payload(TagView::List(v).payload() + rest, TAG_LIST) == Ok::<
            (TagView, int),
            NbtError,
        >((TagView::List(v), TagView::List(v).payload().len() as int)),
{
    let kind = list_kind(v);
    let n = v.len();
    let body = elems_payload_from(v, 0, n);
    let counted = int_bytes(n as i32);
    let b = seq![sbyte_bits(kind)] + counted + body + rest;
    lemma_elems_payload_split(v, 0, n);
    assert(elems_payload(v, n) =~= body);
    assert(TagView::List(v).payload() + rest =~= b);
    lemma_four_pieces(sbyte_bits(kind), counted, body, rest);
    lemma_sbyte_roundtrip(kind, 0);
    lemma_int_roundtrip(n as i32, body + rest, Seq::new(8, |i: int| 0u8));
    lemma_read_list_step(b, v.subrange(0, n as int), body.len() as int);
    assert(v.subrange(0, n as int) =~= v);
}

/// A compound with different names whose entries are read back as
/// themselves is read back as itself.
proof fn lemma_compound_assembled(v: Seq<(Seq<char>, TagView)>, rest: Seq<u8>)
    requires
        names_distinct(v),
        read_entries(entries_payload_from(v, 0, v.len()) + seq![0u8] + rest) == Ok::<
            (Seq<(Seq<char>, TagView)>, int),
            NbtError,
        >((v.subrange(0, v.len() as int), entries_payload_from(v, 0, v.len()).len() as int + 1)),
    ensures
        read_payload(TagView::Compound(v).payload() + rest, TAG_COMPOUND) == Ok::<
            (TagView, int),
            NbtError,
        >((TagView::Compound(v), TagView::Compound(v).payload().len() as int)),
{
    let n = v.len();
    lemma_entries_payload_split(v, 0, n);
    assert(entries_payload(v, n) =~= entries_payload_from(v, 0, n));
    assert(TagView::Compound(v).payload() + rest =~= entries_payload_from(v, 0, n) + seq![0u8]
        + rest);
    assert(v.subrange(0, n as int) =~= v);
    lemma_collected_distinct(v, n);
    assert(v.take(n as int) =~= v);
}

/// A value that is canonical is read back as itself from its written form,
/// whatever follows it, and reading it takes exactly the bytes that were
/// written.
#[verifier::rlimit(50)]
pub proof fn lemma_payload_roundtrip(t: TagView, rest: Seq<u8>)
    requires
        t.canonical(),
    ensures
        read_payload(t.payload() + rest, t.kind()) == Ok::<(TagView, int), NbtError>(
            (t, t.payload().len() as int),
        ),
    decreases t, 0nat,
{
    match t {
        TagView::End => {},
        TagView::ByteArray(v) => {
            lemma_byte_array_roundtrip(v, rest);
        },
        TagView::String(s) => {
            lemma_utfstring_roundtrip(s, rest);
        },
        TagView::List(v) => {
            lemma_elems_roundtrip(v, list_kind(v), 0, rest);
            lemma_list_assembled(v, rest);
        },
        TagView::Compound(v) => {
            lemma_entries_roundtrip(v, 0, rest);
            lemma_compound_assembled(v, rest);
        },
        _ => {
            lemma_number_roundtrip(t, rest);
        },
    }
}

/// How elements are read where the first of them and those behind it are
/// known.
proof fn lemma_read_elems_step(
    b: Seq<u8>,
    kind: i8,
    count: nat,
    first: TagView,
    n: int,
    rest: Seq<TagView>,
    m: int,
)
    requires
        count > 0,
        read_payload(b, kind) == Ok::<(TagView, int), NbtError>((first, n)),
        0 <= n <= b.len(),
        read_elems(b.skip(n), kind, (count - 1) as nat) == Ok::<(Seq<TagView>, int), NbtError>(
            (rest, m),
        ),
    ensures
        read_elems(b, kind, count) == Ok::<(Seq<TagView>, int), NbtError>(
            (seq![first] + rest, n + m),
        ),
{
}

/// The payloads of the elements from place `k` on start with the payload
/// of the element at place `k`.
proof fn lemma_elems_payload_first(elems: Seq<TagView>, k: nat, rest: Seq<u8>)
    requires
        k < elems.len(),
    ensures
        elems_payload_from(elems, k, elems.len()) + rest == elems[k as int].payload() + (
        elems_payload_from(elems, k + 1, elems.len()) + rest),
        (elems[k as int].payload() + (elems_payload_from(elems, k + 1, elems.len()) + rest)).skip(
            elems[k as int].payload().len() as int,
        ) == elems_payload_from(elems, k + 1, elems.len()) + rest,
        elems_payload_from(elems, k, elems.len()).len() == elems[k as int].payload().len()
            + elems_payload_from(elems, k + 1, elems.len()).len(),
        seq![elems[k as int]] + elems.subrange(k as int + 1, elems.len() as int)
            == elems.subrange(k as int, elems.len() as int),
{
    let n = elems.len();
    let first = elems[k as int].payload();
    let tail = elems_payload_from(elems, k + 1, n) + rest;
    assert(elems_payload_from(elems, k, n) + rest =~= first + tail);
    assert((first + tail).skip(first.len() as int) =~= tail);
    assert(seq![elems[k as int]] + elems.subrange(k as int + 1, n as int) =~= elems.subrange(
        k as int,
        n as int,
    ));
}

/// The elements of a canonical list from place `k` on are read back as
/// themselves from their payloads, whatever follows them.
#[verifier::rlimit(50)]
pub proof fn lemma_elems_roundtrip(elems: Seq<TagView>, kind: i8, k: nat, rest: Seq<u8>)
    requires
        k <= elems.len(),
        elems_canonical(elems, kind, elems.len()),
    ensures
        read_elems(
            elems_payload_from(elems, k, elems.len()) + rest,
            kind,
            (elems.len() - k) as nat,
        ) == Ok::<(Seq<TagView>, int), NbtError>(
            (
                elems.subrange(k as int, elems.len() as int),
                elems_payload_from(elems, k, elems.len()).len() as int,
            ),
        ),
    decreases elems, elems.len() - k,
{
    let n = elems.len();
    if k < n {
        let first = elems[k as int];
        let tail = elems_payload_from(elems, k + 1, n) + rest;
        lemma_elems_canonical_at(elems, kind, n, k);
        lemma_elems_payload_first(elems, k, rest);
        lemma_payload_roundtrip(first, tail);
        lemma_elems_roundtrip(elems, kind, k + 1, rest);
        lemma_read_elems_step(
            first.payload() + tail,
            kind,
            (n - k) as nat,
            first,
            first.payload().len() as int,
            elems.subrange(k as int + 1, n as int),
            elems_payload_from(elems, k + 1, n).len() as int,
        );
    } else {
        assert(elems.subrange(k as int, n as int) =~= Seq::<TagView>::empty());
    }
}

/// How an entry is read where its name and its value are known to be
/// read.
proof fn lemma_read_entry_step(b: Seq<u8>, entry: (Seq<char>, TagView), n: int, m: int)
    requires
        b.len() >= 1,
        sbyte_of(b[0]) != TAG_END,
        utfstring_of(b.skip(1)) == Ok::<(Seq<char>, int), CodecError>((entry.0, n)),
        0 <= n,
        1 + n <= b.len(),
        read_payload(b.skip(1 + n), sbyte_of(b[0])) == Ok::<(TagView, int), NbtError>(
            (entry.1, m),
        ),
    ensures
        read_entry(b) == Ok::<Option<((Seq<char>, TagView), int)>, NbtError>(
            Some((entry, 1 + n + m)),
        ),
{
    assert(entry == (entry.0, entry.1));
}

/// How the entries are read where the end mark stands.
proof fn lemma_read_end_mark(rest: Seq<u8>)
    ensures
        read_entries(seq![0u8] + rest) == Ok::<(Seq<(Seq<char>, TagView)>, int), NbtError>(
            (Seq::empty(), 1),
        ),
{
    lemma_sbyte_roundtrip(TAG_END, 0);
    let b = seq![0u8] + rest;
    assert(b[0] == 0u8);
    assert(read_entry(b) == Ok::<Option<((Seq<char>, TagView), int)>, NbtError>(None));
}

/// How entries are read where the first of them and those behind it are
/// known.
proof fn lemma_read_entries_step(
    b: Seq<u8>,
    entry: (Seq<char>, TagView),
    n: int,
    rest: Seq<(Seq<char>, TagView)>,
    r: int,
)
    requires
        read_entry(b) == Ok::<Option<((Seq<char>, TagView), int)>, NbtError>(Some((entry, n))),
        1 <= n <= b.len(),
        read_entries(b.skip(n)) == Ok::<(Seq<(Seq<char>, TagView)>, int), NbtError>((rest, r)),
    ensures
        read_entries(b) == Ok::<(Seq<(Seq<char>, TagView)>, int), NbtError>(
            (seq![entry] + rest, n + r),
        ),
{
}

/// The written entries from place `k` on start with the entry at place
/// `k`.
proof fn lemma_entries_payload_first(
    entries: Seq<(Seq<char>, TagView)>,
    k: nat,
    rest: Seq<u8>,
)
    requires
        k < entries.len(),
    ensures
        entries_payload_from(entries, k, entries.len()) + seq![0u8] + rest == seq![
            sbyte_bits(entries[k as int].1.kind()),
        ] + utfstring_bytes(entries[k as int].0) + entries[k as int].1.payload() + (
        entries_payload_from(entries, k + 1, entries.len()) + seq![0u8] + rest),
        entries_payload_from(entries, k, entries.len()).len() == 1 + utfstring_bytes(
            entries[k as int].0,
        ).len() + entries[k as int].1.payload().len() + entries_payload_from(
            entries,
            k + 1,
            entries.len(),
        ).len(),
        seq![entries[k as int]] + entries.subrange(k as int + 1, entries.len() as int)
            == entries.subrange(k as int, entries.len() as int),
{
    let name = entries[k as int].0;
    let tag = entries[k as int].1;
    let n = entries.len();
    assert(entry_bytes(name, tag) =~= seq![sbyte_bits(tag.kind())] + utfstring_bytes(name)
        + tag.payload());
    assert(entries_payload_from(entries, k, n) + seq![0u8] + rest =~= seq![
        sbyte_bits(tag.kind()),
    ] + utfstring_bytes(name) + tag.payload() + (entries_payload_from(entries, k + 1, n)
        + seq![0u8] + rest));
    assert(seq![entries[k as int]] + entries.subrange(k as int + 1, n as int)
        =~= entries.subrange(k as int, n as int));
}

/// The entries of a canonical compound from place `k` on are read back as
/// themselves from their written form and the end mark, whatever follows.
#[verifier::rlimit(50)]
pub proof fn lemma_entries_roundtrip(entries: Seq<(Seq<char>, TagView)>, k: nat, rest: Seq<u8>)
    requires
        k <= entries.len(),
        entries_canonical(entries, entries.len()),
    ensures
        read_entries(entries_payload_from(entries, k, entries.len()) + seq![0u8] + rest) == Ok::<
            (Seq<(Seq<char>, TagView)>, int),
            NbtError,
        >(
            (
                entries.subrange(k as int, entries.len() as int),
                entries_payload_from(entries, k, entries.len()).len() as int + 1,
            ),
        ),
    decreases entries, entries.len() - k,
{
    let n = entries.len();
    let b = entries_payload_from(entries, k, n) + seq![0u8] + rest;
    if k < n {
        let name = entries[k as int].0;
        let tag = entries[k as int].1;
        let tail = entries_payload_from(entries, k + 1, n) + seq![0u8] + rest;
        let named = utfstring_bytes(name);
        let n1 = named.len() as int;
        let m = tag.payload().len() as int;
        let kept = entries.subrange(k as int + 1, n as int);
        let r = entries_payload_from(entries, k + 1, n).len() as int + 1;
        lemma_entries_canonical_at(entries, n, k);
        lemma_entries_payload_first(entries, k, rest);
        lemma_four_pieces(sbyte_bits(tag.kind()), named, tag.payload(), tail);
        lemma_sbyte_roundtrip(tag.kind(), 0);
        lemma_utfstring_roundtrip(name, tag.payload() + tail);
        lemma_payload_roundtrip(tag, tail);
        lemma_entries_roundtrip(entries, k + 1, rest);
        lemma_read_entry_step(b, entries[k as int], n1, m);
        lemma_read_entries_step(b, entries[k as int], 1 + n1 + m, kept, r);
    } else {
        lemma_read_end_mark(rest);
        assert(b =~= seq![0u8] + rest);
        assert(entries.subrange(k as int, n as int) =~= Seq::<(Seq<char>, TagView)>::empty());
    }
}

/// A document with a canonical compound as its root and a name that can be
/// written is read back as itself from its written form, whatever follows.
pub proof fn lemma_document_roundtrip(doc: NbtView, rest: Seq<u8>)
    requires
        doc.tag is Compound,
        doc.tag.canonical(),
        encode_utf8(doc.key).len() <= i16::MAX,
    ensures
        read_document(doc.bytes() + rest) == Ok::<(NbtView, int), NbtError>(
            (doc, doc.bytes().len() as int),
        ),
{
    let named = utfstring_bytes(doc.key);
    let b = seq![sbyte_bits(TAG_COMPOUND)] + named + doc.tag.payload() + rest;
    assert(doc.bytes() + rest =~= b);
    lemma_four_pieces(sbyte_bits(TAG_COMPOUND), named, doc.tag.payload(), rest);
    lemma_sbyte_roundtrip(TAG_COMPOUND, 0);
    lemma_utfstring_roundtrip(doc.key, doc.tag.payload() + rest);
    lemma_payload_roundtrip(doc.tag, rest);
}

} // verus!
