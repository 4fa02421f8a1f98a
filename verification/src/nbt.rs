//! The tagged binary store: a tree of named, typed values in which a world
//! is kept on disk.

use vstd::prelude::*;
use vstd::utf8::encode_utf8;
use crate::util::{
    double_bytes, double_of, float_bytes, float_of, int_bytes, int_of, long_bytes, long_of,
    read_bytearray, read_double, read_float, read_int, read_long, read_sbyte, read_short,
    read_utfstring, sbyte_bits, sbyte_of, sbytes_bits, sbytes_of, short_bytes, short_of,
    utfstring_bytes, utfstring_of, write_bytearray, write_double, write_float, write_int,
    write_long, write_sbyte, write_short, write_utfstring, CodecError, Reader,
};

verus! {

/// The kind of the end mark of a compound.
pub const TAG_END: i8 = 0x00;

/// The kind of a signed byte.
pub const TAG_BYTE: i8 = 0x01;

/// The kind of a signed 16-bit number.
pub const TAG_SHORT: i8 = 0x02;

/// The kind of a signed 32-bit number.
pub const TAG_INT: i8 = 0x03;

/// The kind of a signed 64-bit number.
pub const TAG_LONG: i8 = 0x04;

/// The kind of an IEEE 754 single.
pub const TAG_FLOAT: i8 = 0x05;

/// The kind of an IEEE 754 double.
pub const TAG_DOUBLE: i8 = 0x06;

/// The kind of an array of signed bytes.
pub const TAG_BYTE_ARRAY: i8 = 0x07;

/// The kind of a string.
pub const TAG_STRING: i8 = 0x08;

/// The kind of a list of values of one kind.
pub const TAG_LIST: i8 = 0x09;

/// The kind of a compound of named values.
pub const TAG_COMPOUND: i8 = 0x0a;

/// Why a document could not be read or written.
#[derive(Clone, Copy, Debug, PartialEq, Eq, Structural)]
pub enum NbtError {
    /// The bytes ended within a value.
    UnexpectedEof,
    /// A name or a string did not hold UTF-8.
    InvalidUtf8,
    /// A kind byte that stands for no kind.
    UnknownKind,
    /// The root of a document is no compound.
    NotCompound,
    /// A count below zero.
    NegativeCount,
    /// A string, an array or a list with more items than its length field
    /// can tell.
    TooLong,
}

/// A value of the store. A float is held by its IEEE 754 bits. A compound
/// holds its entries in order; reading keeps one entry per name.
#[derive(Debug, PartialEq)]
pub enum Tag {
    End,
    Byte(i8),
    Short(i16),
    Int(i32),
    Long(i64),
    Float(u32),
    Double(u64),
    ByteArray(Vec<i8>),
    String(String),
    List(Vec<Tag>),
    Compound(Vec<(String, Tag)>),
}

/// The mathematical view of a value of the store.
#[verifier::ext_equal]
pub enum TagView {
    End,
    Byte(i8),
    Short(i16),
    Int(i32),
    Long(i64),
    Float(u32),
    Double(u64),
    ByteArray(Seq<i8>),
    String(Seq<char>),
    List(Seq<TagView>),
    Compound(Seq<(Seq<char>, TagView)>),
}

/// The view of a value: a list is seen by the views of its elements, a
/// compound by the views of its entries.
pub open spec fn tag_view(tag: Tag) -> TagView
    decreases tag,
{
    match tag {
        Tag::End => TagView::End,
        Tag::Byte(v) => TagView::Byte(v),
        Tag::Short(v) => TagView::Short(v),
        Tag::Int(v) => TagView::Int(v),
        Tag::Long(v) => TagView::Long(v),
        Tag::Float(v) => TagView::Float(v),
        Tag::Double(v) => TagView::Double(v),
        Tag::ByteArray(v) => TagView::ByteArray(v@),
        Tag::String(s) => TagView::String(s@),
        Tag::List(v) => TagView::List(
            Seq::new(
                v@.len(),
                |i: int|
                    if 0 <= i < v@.len() {
                        tag_view(v@[i])
                    } else {
                        TagView::End
                    },
            ),
        ),
        Tag::Compound(v) => TagView::Compound(
            Seq::new(
                v@.len(),
                |i: int|
                    if 0 <= i < v@.len() {
                        (v@[i].0@, tag_view(v@[i].1))
                    } else {
                        (Seq::empty(), TagView::End)
                    },
            ),
        ),
    }
}

impl View for Tag {
    type V = TagView;

    open spec fn view(&self) -> TagView {
        tag_view(*self)
    }
}

/// The error of the store that stands for an error of the codec.
pub open spec fn store_error(e: CodecError) -> NbtError {
    match e {
        CodecError::UnexpectedEof => NbtError::UnexpectedEof,
        CodecError::InvalidUtf8 => NbtError::InvalidUtf8,
        CodecError::TooLong => NbtError::TooLong,
    }
}

/// The kind that a list tells for its elements: that of its first element,
/// or byte for an empty list.
pub open spec fn list_kind(elems: Seq<TagView>) -> i8 {
    if elems.len() == 0 {
        TAG_BYTE
    } else {
        elems[0].kind()
    }
}

/// The payloads of the first `n` elements of a list, one after the other.
pub open spec fn elems_payload(elems: Seq<TagView>, n: nat) -> Seq<u8>
    decreases elems, n,
{
    if n == 0 || n > elems.len() {
        Seq::empty()
    } else {
        elems_payload(elems, (n - 1) as nat) + elems[n - 1].payload()
    }
}

/// The first `n` entries of a compound as they are written: of each its
/// kind, its name and its payload.
pub open spec fn entries_payload(entries: Seq<(Seq<char>, TagView)>, n: nat) -> Seq<u8>
    decreases entries, n,
{
    if n == 0 || n > entries.len() {
        Seq::empty()
    } else {
        entries_payload(entries, (n - 1) as nat) + entry_bytes(
            entries[n - 1].0,
            entries[n - 1].1,
        )
    }
}

/// One entry of a compound as it is written.
pub open spec fn entry_bytes(name: Seq<char>, tag: TagView) -> Seq<u8>
    decreases tag, 1nat,
{
    seq![sbyte_bits(tag.kind())] + utfstring_bytes(name) + tag.payload()
}

/// Whether the first `n` elements of a list can be written.
pub open spec fn elems_fit(elems: Seq<TagView>, n: nat) -> bool
    decreases elems, n,
{
    n > 0 && n <= elems.len() ==> elems_fit(elems, (n - 1) as nat) && elems[n - 1].fits()
}

/// Whether the first `n` entries of a compound can be written.
pub open spec fn entries_fit(entries: Seq<(Seq<char>, TagView)>, n: nat) -> bool
    decreases entries, n,
{
    n > 0 && n <= entries.len() ==> entries_fit(entries, (n - 1) as nat) && encode_utf8(
        entries[n - 1].0,
    ).len() <= i16::MAX && entries[n - 1].1.fits()
}

impl TagView {
    /// The byte that tells the kind of the value.
    pub open spec fn kind(self) -> i8 {
        match self {
            TagView::End => TAG_END,
            TagView::Byte(_) => TAG_BYTE,
            TagView::Short(_) => TAG_SHORT,
            TagView::Int(_) => TAG_INT,
            TagView::Long(_) => TAG_LONG,
            TagView::Float(_) => TAG_FLOAT,
            TagView::Double(_) => TAG_DOUBLE,
            TagView::ByteArray(_) => TAG_BYTE_ARRAY,
            TagView::String(_) => TAG_STRING,
            TagView::List(_) => TAG_LIST,
            TagView::Compound(_) => TAG_COMPOUND,
        }
    }

    /// The value as it is written, without its kind and name.
    pub open spec fn payload(self) -> Seq<u8>
        decreases self, 0nat,
    {
        match self {
            TagView::End => Seq::empty(),
            TagView::Byte(v) => seq![sbyte_bits(v)],
            TagView::Short(v) => short_bytes(v),
            TagView::Int(v) => int_bytes(v),
            TagView::Long(v) => long_bytes(v),
            TagView::Float(v) => float_bytes(v),
            TagView::Double(v) => double_bytes(v),
            TagView::ByteArray(v) => int_bytes(v.len() as i32) + sbytes_bits(v),
            TagView::String(s) => utfstring_bytes(s),
            TagView::List(v) => seq![sbyte_bits(list_kind(v))] + int_bytes(v.len() as i32)
                + elems_payload(v, v.len()),
            TagView::Compound(v) => entries_payload(v, v.len()) + seq![0u8],
        }
    }

    /// Whether the value can be written: every string and name is at most
    /// 32767 bytes of UTF-8, and every array and list has at most
    /// 2147483647 items.
    pub open spec fn fits(self) -> bool
        decreases self, 0nat,
    {
        match self {
            TagView::ByteArray(v) => v.len() <= i32::MAX,
            TagView::String(s) => encode_utf8(s).len() <= i16::MAX,
            TagView::List(v) => v.len() <= i32::MAX && elems_fit(v, v.len()),
            TagView::Compound(v) => entries_fit(v, v.len()),
            _ => true,
        }
    }
}

/// The place of the entry named `name`, or the number of entries where
/// there is none.
pub open spec fn entry_place(entries: Seq<(Seq<char>, TagView)>, name: Seq<char>, from: int) -> int
    decreases entries.len() - from,
{
    if from < 0 || from >= entries.len() {
        entries.len() as int
    } else if entries[from].0 == name {
        from
    } else {
        entry_place(entries, name, from + 1)
    }
}

/// The entries after `tag` was put under `name`: in the place of the
/// entry of that name, or behind all entries where there was none.
pub open spec fn put(entries: Seq<(Seq<char>, TagView)>, name: Seq<char>, tag: TagView) -> Seq<
    (Seq<char>, TagView),
> {
    let place = entry_place(entries, name, 0);
    if place < entries.len() {
        entries.update(place, (name, tag))
    } else {
        entries.push((name, tag))
    }
}

/// The entries that are kept of the first `n` entries read: each name once,
/// with the value that was read last for it.
pub open spec fn collected(raw: Seq<(Seq<char>, TagView)>, n: nat) -> Seq<(Seq<char>, TagView)>
    decreases n,
{
    if n == 0 || n > raw.len() {
        Seq::empty()
    } else {
        put(collected(raw, (n - 1) as nat), raw[n - 1].0, raw[n - 1].1)
    }
}

/// The value of kind `kind` at the start of `b`, with the number of bytes
/// it takes.
pub open spec fn read_payload(b: Seq<u8>, kind: i8) -> Result<(TagView, int), NbtError>
    decreases b.len(), 1nat, 0nat,
{
    if kind == TAG_END {
        Ok((TagView::End, 0))
    } else if kind == TAG_BYTE {
        if b.len() < 1 {
            Err(NbtError::UnexpectedEof)
        } else {
            Ok((TagView::Byte(sbyte_of(b[0])), 1))
        }
    } else if kind == TAG_SHORT {
        if b.len() < 2 {
            Err(NbtError::UnexpectedEof)
        } else {
            Ok((TagView::Short(short_of(b)), 2))
        }
    } else if kind == TAG_INT {
        if b.len() < 4 {
            Err(NbtError::UnexpectedEof)
        } else {
            Ok((TagView::Int(int_of(b)), 4))
        }
    } else if kind == TAG_LONG {
        if b.len() < 8 {
            Err(NbtError::UnexpectedEof)
        } else {
            Ok((TagView::Long(long_of(b)), 8))
        }
    } else if kind == TAG_FLOAT {
        if b.len() < 4 {
            Err(NbtError::UnexpectedEof)
        } else {
            Ok((TagView::Float(float_of(b)), 4))
        }
    } else if kind == TAG_DOUBLE {
        if b.len() < 8 {
            Err(NbtError::UnexpectedEof)
        } else {
            Ok((TagView::Double(double_of(b)), 8))
        }
    } else if kind == TAG_BYTE_ARRAY {
        if b.len() < 4 {
            Err(NbtError::UnexpectedEof)
        } else if int_of(b) < 0 {
            Err(NbtError::NegativeCount)
        } else if b.len() < 4 + int_of(b) {
            Err(NbtError::UnexpectedEof)
        } else {
            Ok((TagView::ByteArray(sbytes_of(b.subrange(4, 4 + int_of(b)))), 4 + int_of(b)))
        }
    } else if kind == TAG_STRING {
        match utfstring_of(b) {
            Ok((s, n)) => Ok((TagView::String(s), n)),
            Err(e) => Err(store_error(e)),
        }
    } else if kind == TAG_LIST {
        if b.len() < 5 {
            Err(NbtError::UnexpectedEof)
        } else if int_of(b.skip(1)) < 0 {
            Err(NbtError::NegativeCount)
        } else {
            match read_elems(b.skip(5), sbyte_of(b[0]), int_of(b.skip(1)) as nat) {
                Ok((elems, n)) => Ok((TagView::List(elems), 5 + n)),
                Err(e) => Err(e),
            }
        }
    } else if kind == TAG_COMPOUND {
        match read_entries(b) {
            Ok((raw, n)) => Ok((TagView::Compound(collected(raw, raw.len())), n)),
            Err(e) => Err(e),
        }
    } else {
        Err(NbtError::UnknownKind)
    }
}

/// The `count` values of kind `kind` at the start of `b`, with the number
/// of bytes they take.
pub open spec fn read_elems(b: Seq<u8>, kind: i8, count: nat) -> Result<
    (Seq<TagView>, int),
    NbtError,
>
    decreases b.len(), 2nat, count,
{
    if count == 0 {
        Ok((Seq::empty(), 0))
    } else {
        match read_payload(b, kind) {
            Err(e) => Err(e),
            Ok((first, n)) => if n < 0 || n > b.len() {
                Err(NbtError::UnexpectedEof)
            } else {
                match read_elems(b.skip(n), kind, (count - 1) as nat) {
                    Err(e) => Err(e),
                    Ok((rest, m)) => Ok((seq![first] + rest, n + m)),
                }
            },
        }
    }
}

/// The entry of a compound at the start of `b`, with the number of bytes
/// it takes, or nothing where the end mark stands there.
pub open spec fn read_entry(b: Seq<u8>) -> Result<Option<((Seq<char>, TagView), int)>, NbtError>
    decreases b.len(), 0nat, 0nat,
{
    if b.len() < 1 {
        Err(NbtError::UnexpectedEof)
    } else if sbyte_of(b[0]) == TAG_END {
        Ok(None)
    } else {
        match utfstring_of(b.skip(1)) {
            Err(e) => Err(store_error(e)),
            Ok((name, n)) => if n < 0 || 1 + n > b.len() {
                Err(NbtError::UnexpectedEof)
            } else {
                match read_payload(b.skip(1 + n), sbyte_of(b[0])) {
                    Err(e) => Err(e),
                    Ok((tag, m)) => Ok(Some(((name, tag), 1 + n + m))),
                }
            },
        }
    }
}

/// The entries of a compound at the start of `b` up to its end mark, as
/// they stand there, with the number of bytes they take, end mark
/// included.
pub open spec fn read_entries(b: Seq<u8>) -> Result<(Seq<(Seq<char>, TagView)>, int), NbtError>
    decreases b.len(), 0nat, 1nat,
{
    match read_entry(b) {
        Err(e) => Err(e),
        Ok(None) => Ok((Seq::empty(), 1)),
        Ok(Some((entry, n))) => if n < 1 || n > b.len() {
            Err(NbtError::UnexpectedEof)
        } else {
            match read_entries(b.skip(n)) {
                Err(e) => Err(e),
                Ok((rest, r)) => Ok((seq![entry] + rest, n + r)),
            }
        },
    }
}

/// The views of the elements of a list, in order.
pub open spec fn tags_view(tags: Seq<Tag>) -> Seq<TagView> {
    Seq::new(tags.len(), |i: int| tags[i]@)
}

/// The views of the entries of a compound, in order.
pub open spec fn entries_view(entries: Seq<(String, Tag)>) -> Seq<(Seq<char>, TagView)> {
    Seq::new(entries.len(), |i: int| (entries[i].0@, entries[i].1@))
}

/// A list is seen as the views of its elements.
pub proof fn lemma_list_view(tags: Vec<Tag>)
    ensures
        Tag::List(tags)@ == TagView::List(tags_view(tags@)),
{
    assert(Tag::List(tags)@->List_0 =~= tags_view(tags@));
}

/// A compound is seen as the views of its entries.
pub proof fn lemma_compound_view(entries: Vec<(String, Tag)>)
    ensures
        Tag::Compound(entries)@ == TagView::Compound(entries_view(entries@)),
{
    assert(Tag::Compound(entries)@->Compound_0 =~= entries_view(entries@));
}

/// The error of the store that stands for an error of the codec.
fn store(e: CodecError) -> (r: NbtError)
    ensures
        r == store_error(e),
{
    match e {
        CodecError::UnexpectedEof => NbtError::UnexpectedEof,
        CodecError::InvalidUtf8 => NbtError::InvalidUtf8,
        CodecError::TooLong => NbtError::TooLong,
    }
}

/// What reading the rest of a list comes to, given the elements and the
/// number of bytes read before it.
pub open spec fn elems_joined(
    before: Seq<TagView>,
    consumed: int,
    rest: Result<(Seq<TagView>, int), NbtError>,
) -> Result<(Seq<TagView>, int), NbtError> {
    match rest {
        Ok((elems, n)) => Ok((before + elems, consumed + n)),
        Err(e) => Err(e),
    }
}

/// What reading the rest of a compound comes to, given the entries and the
/// number of bytes read before it.
pub open spec fn entries_joined(
    before: Seq<(Seq<char>, TagView)>,
    consumed: int,
    rest: Result<(Seq<(Seq<char>, TagView)>, int), NbtError>,
) -> Result<(Seq<(Seq<char>, TagView)>, int), NbtError> {
    match rest {
        Ok((entries, n)) => Ok((before + entries, consumed + n)),
        Err(e) => Err(e),
    }
}

/// The entries that are kept of the first `n` entries do not depend on the
/// entries behind them.
pub proof fn lemma_collected_prefix(
    a: Seq<(Seq<char>, TagView)>,
    b: Seq<(Seq<char>, TagView)>,
    n: nat,
)
    requires
        n <= a.len(),
        n <= b.len(),
        forall|k: int| 0 <= k < n ==> a[k] == b[k],
    ensures
        collected(a, n) == collected(b, n),
    decreases n,
{
    if n > 0 {
        lemma_collected_prefix(a, b, (n - 1) as nat);
    }
}

/// Puts `tag` under `name`: in the place of the entry of that name, or
/// behind all entries where there is none.
pub fn insert(entries: &mut Vec<(String, Tag)>, name: String, tag: Tag)
    ensures
        entries_view(final(entries)@) == put(entries_view(old(entries)@), name@, tag@),
{
    let ghost before = entries_view(entries@);
    let n: usize = entries.len();
    let mut i: usize = 0;
    while i < n
        invariant
            i <= n,
            n == entries@.len(),
            entries@ == old(entries)@,
            before == entries_view(entries@),
            entry_place(before, name@, i as int) == entry_place(before, name@, 0),
        decreases n - i,
    {
        if entries[i].0 == name {
            assert(before[i as int].0 == name@);
            entries[i] = (name, tag);
            assert(entries_view(entries@) =~= put(before, name@, tag@));
            return ;
        }
        assert(before[i as int].0 != name@);
        i += 1;
    }
    entries.push((name, tag));
    assert(entries_view(entries@) =~= put(before, name@, tag@));
}

impl Tag {
    /// The byte that tells the kind of the value.
    pub fn kind(&self) -> (k: i8)
        ensures
            k == self@.kind(),
    {
        match self {
            Tag::End => TAG_END,
            Tag::Byte(_) => TAG_BYTE,
            Tag::Short(_) => TAG_SHORT,
            Tag::Int(_) => TAG_INT,
            Tag::Long(_) => TAG_LONG,
            Tag::Float(_) => TAG_FLOAT,
            Tag::Double(_) => TAG_DOUBLE,
            Tag::ByteArray(_) => TAG_BYTE_ARRAY,
            Tag::String(_) => TAG_STRING,
            Tag::List(_) => TAG_LIST,
            Tag::Compound(_) => TAG_COMPOUND,
        }
    }

    /// Reads the value of kind `tag_kind` that the reader stands at. The
    /// reader stays in place on failure.
    pub fn read(reader: &mut Reader, tag_kind: i8) -> (r: Result<Tag, NbtError>)
        ensures
            match r {
                Ok(tag) => {
                    &&& read_payload(old(reader)@, tag_kind) matches Ok((value, n))
                    &&& tag@ == value
                    &&& 0 <= n <= old(reader)@.len()
                    &&& final(reader)@ == old(reader)@.skip(n)
                },
                Err(e) => read_payload(old(reader)@, tag_kind) == Err::<(TagView, int), NbtError>(
                    e,
                ) && final(reader)@ == old(reader)@,
            },
        decreases old(reader)@.len(), 1nat, 0nat,
    {
        if tag_kind == TAG_END {
            assert(reader@.skip(0) =~= reader@);
            Ok(Tag::End)
        } else if TAG_BYTE <= tag_kind && tag_kind <= TAG_DOUBLE {
            Tag::read_number(reader, tag_kind)
        } else if tag_kind == TAG_BYTE_ARRAY {
            Tag::read_byte_array(reader)
        } else if tag_kind == TAG_STRING {
            match read_utfstring(reader) {
                Ok(v) => Ok(Tag::String(v)),
                Err(e) => Err(store(e)),
            }
        } else if tag_kind == TAG_LIST {
            Tag::read_list(reader)
        } else if tag_kind == TAG_COMPOUND {
            let ghost start = reader@;
            let mut ahead: Reader = *reader;
            match Tag::read_entries(&mut ahead) {
                Ok(entries) => {
                    proof {
                        lemma_compound_view(entries);
                    }
                    *reader = ahead;
                    Ok(Tag::Compound(entries))
                },
                Err(e) => Err(e),
            }
        } else {
            Err(NbtError::UnknownKind)
        }
    }

    /// Reads a number of one of the six kinds of numbers.
    fn read_number(reader: &mut Reader, tag_kind: i8) -> (r: Result<Tag, NbtError>)
        requires
            TAG_BYTE <= tag_kind <= TAG_DOUBLE,
        ensures
            match r {
                Ok(tag) => {
                    &&& read_payload(old(reader)@, tag_kind) matches Ok((value, n))
                    &&& tag@ == value
                    &&& 0 <= n <= old(reader)@.len()
                    &&& final(reader)@ == old(reader)@.skip(n)
                },
                Err(e) => read_payload(old(reader)@, tag_kind) == Err::<(TagView, int), NbtError>(
                    e,
                ) && final(reader)@ == old(reader)@,
            },
    {
        if tag_kind == TAG_BYTE {
            match read_sbyte(reader) {
                Ok(v) => Ok(Tag::Byte(v)),
                Err(e) => Err(store(e)),
            }
        } else if tag_kind == TAG_SHORT {
            match read_short(reader) {
                Ok(v) => Ok(Tag::Short(v)),
                Err(e) => Err(store(e)),
            }
        } else if tag_kind == TAG_INT {
            match read_int(reader) {
                Ok(v) => Ok(Tag::Int(v)),
                Err(e) => Err(store(e)),
            }
        } else if tag_kind == TAG_LONG {
            match read_long(reader) {
                Ok(v) => Ok(Tag::Long(v)),
                Err(e) => Err(store(e)),
            }
        } else if tag_kind == TAG_FLOAT {
            match read_float(reader) {
                Ok(v) => Ok(Tag::Float(v)),
                Err(e) => Err(store(e)),
            }
        } else {
            match read_double(reader) {
                Ok(v) => Ok(Tag::Double(v)),
                Err(e) => Err(store(e)),
            }
        }
    }

    /// Reads an array of bytes: its count, then that many bytes.
    fn read_byte_array(reader: &mut Reader) -> (r: Result<Tag, NbtError>)
        ensures
            match r {
                Ok(tag) => {
                    &&& read_payload(old(reader)@, TAG_BYTE_ARRAY) matches Ok((value, n))
                    &&& tag@ == value
                    &&& 0 <= n <= old(reader)@.len()
                    &&& final(reader)@ == old(reader)@.skip(n)
                },
                Err(e) => read_payload(old(reader)@, TAG_BYTE_ARRAY) == Err::<
                    (TagView, int),
                    NbtError,
                >(e) && final(reader)@ == old(reader)@,
            },
    {
        let mut ahead: Reader = *reader;
        let count: i32 = match read_int(&mut ahead) {
            Ok(v) => v,
            Err(e) => {
                return Err(store(e));
            },
        };
        if count < 0 {
            return Err(NbtError::NegativeCount);
        }
        match read_bytearray(&mut ahead, count as usize) {
            Ok(v) => {
                assert(old(reader)@.skip(4).take(count as int) =~= old(reader)@.subrange(
                    4,
                    4 + count,
                ));
                assert(ahead@ =~= old(reader)@.skip(4 + count));
                *reader = ahead;
                Ok(Tag::ByteArray(v))
            },
            Err(e) => Err(store(e)),
        }
    }

    /// Reads a list: the kind of its elements, their count, and the
    /// elements.
    fn read_list(reader: &mut Reader) -> (r: Result<Tag, NbtError>)
        ensures
            match r {
                Ok(tag) => {
                    &&& read_payload(old(reader)@, TAG_LIST) matches Ok((value, n))
                    &&& tag@ == value
                    &&& 0 <= n <= old(reader)@.len()
                    &&& final(reader)@ == old(reader)@.skip(n)
                },
                Err(e) => read_payload(old(reader)@, TAG_LIST) == Err::<(TagView, int), NbtError>(
                    e,
                ) && final(reader)@ == old(reader)@,
            },
        decreases old(reader)@.len(), 0nat, 0nat,
    {
        let mut ahead: Reader = *reader;
        let elem_kind: i8 = match read_sbyte(&mut ahead) {
            Ok(v) => v,
            Err(e) => {
                return Err(store(e));
            },
        };
        let count: i32 = match read_int(&mut ahead) {
            Ok(v) => v,
            Err(e) => {
                return Err(store(e));
            },
        };
        if count < 0 {
            return Err(NbtError::NegativeCount);
        }
        assert(ahead@ =~= old(reader)@.skip(5));
        let ghost body = ahead@;
        match Tag::read_elems(&mut ahead, elem_kind, count as usize) {
            Ok(list) => {
                proof {
                    lemma_list_view(list);
                    let n = read_elems(body, elem_kind, count as nat)->Ok_0.1;
                    assert(ahead@ =~= old(reader)@.skip(5 + n));
                }
                *reader = ahead;
                Ok(Tag::List(list))
            },
            Err(e) => Err(e),
        }
    }

    /// Reads `count` values of kind `tag_kind`, one after the other.
    #[verifier::rlimit(50)]
    fn read_elems(reader: &mut Reader, tag_kind: i8, count: usize) -> (r: Result<
        Vec<Tag>,
        NbtError,
    >)
        ensures
            match r {
                Ok(list) => {
                    &&& read_elems(old(reader)@, tag_kind, count as nat) matches Ok((elems, n))
                    &&& tags_view(list@) == elems
                    &&& 0 <= n <= old(reader)@.len()
                    &&& final(reader)@ == old(reader)@.skip(n)
                },
                Err(e) => read_elems(old(reader)@, tag_kind, count as nat) == Err::<
                    (Seq<TagView>, int),
                    NbtError,
                >(e),
            },
        decreases old(reader)@.len(), 2nat, 0nat,
    {
        let ghost start = reader@;
        let ghost mut consumed: int = 0;
        let mut list: Vec<Tag> = Vec::new();
        let mut i: usize = 0;
        while i < count
            invariant
                i <= count,
                start == old(reader)@,
                0 <= consumed <= start.len(),
                reader@ == start.skip(consumed),
                list@.len() == i,
                read_elems(start, tag_kind, count as nat) == elems_joined(
                    tags_view(list@),
                    consumed,
                    read_elems(reader@, tag_kind, (count - i) as nat),
                ),
            decreases count - i,
        {
            let ghost here = reader@;
            let ghost seen = tags_view(list@);
            let tag = Tag::read(reader, tag_kind)?;
            proof {
                let n = read_payload(here, tag_kind)->Ok_0.1;
                assert(reader@ =~= start.skip(consumed + n));
                consumed = consumed + n;
            }
            list.push(tag);
            i += 1;
            proof {
                assert(tags_view(list@) =~= seen + seq![tag@]);
                let rest = read_elems(reader@, tag_kind, (count - i) as nat);
                if rest is Ok {
                    assert(seen + (seq![tag@] + rest->Ok_0.0) =~= tags_view(list@) + rest->Ok_0.0);
                }
            }
        }
        assert(tags_view(list@) + Seq::<TagView>::empty() =~= tags_view(list@));
        Ok(list)
    }

    /// Reads the entries of a compound up to its end mark and keeps one
    /// entry per name, the one that was read last.
    #[verifier::rlimit(50)]
    fn read_entries(reader: &mut Reader) -> (r: Result<Vec<(String, Tag)>, NbtError>)
        ensures
            match r {
                Ok(entries) => {
                    &&& read_entries(old(reader)@) matches Ok((raw, n))
                    &&& entries_view(entries@) == collected(raw, raw.len())
                    &&& 0 <= n <= old(reader)@.len()
                    &&& final(reader)@ == old(reader)@.skip(n)
                },
                Err(e) => read_entries(old(reader)@) == Err::<
                    (Seq<(Seq<char>, TagView)>, int),
                    NbtError,
                >(e),
            },
        decreases old(reader)@.len(), 0nat, 1nat,
    {
        let ghost start = reader@;
        let ghost mut consumed: int = 0;
        let ghost mut raw: Seq<(Seq<char>, TagView)> = Seq::empty();
        let mut entries: Vec<(String, Tag)> = Vec::new();
        loop
            invariant
                start == old(reader)@,
                0 <= consumed <= start.len(),
                reader@ == start.skip(consumed),
                entries_view(entries@) == collected(raw, raw.len()),
                read_entries(start) == entries_joined(raw, consumed, read_entries(reader@)),
            decreases reader@.len(),
        {
            let ghost here = reader@;
            let ghost seen = raw;
            match Tag::read_entry(reader)? {
                None => {
                    proof {
                        assert(raw + Seq::<(Seq<char>, TagView)>::empty() =~= raw);
                        assert(reader@ =~= start.skip(consumed + 1));
                    }
                    return Ok(entries);
                },
                Some((name, tag)) => {
                    proof {
                        let n = read_entry(here)->Ok_0->Some_0.1;
                        assert(reader@ =~= start.skip(consumed + n));
                        consumed = consumed + n;
                        raw = raw.push((name@, tag@));
                        lemma_collected_prefix(seen, raw, seen.len());
                        let rest = read_entries(reader@);
                        if rest is Ok {
                            assert(seen + (seq![(name@, tag@)] + rest->Ok_0.0) =~= raw
                                + rest->Ok_0.0);
                        }
                    }
                    insert(&mut entries, name, tag);
                },
            }
        }
    }

    /// Reads one entry of a compound: its kind, its name and its value, or
    /// the end mark.
    fn read_entry(reader: &mut Reader) -> (r: Result<Option<(String, Tag)>, NbtError>)
        ensures
            match r {
                Ok(Some(entry)) => {
                    &&& read_entry(old(reader)@) matches Ok(Some((value, n)))
                    &&& (entry.0@, entry.1@) == value
                    &&& 1 <= n <= old(reader)@.len()
                    &&& final(reader)@ == old(reader)@.skip(n)
                },
                Ok(None) => {
                    &&& read_entry(old(reader)@) == Ok::<
                        Option<((Seq<char>, TagView), int)>,
                        NbtError,
                    >(None)
                    &&& old(reader)@.len() >= 1
                    &&& final(reader)@ == old(reader)@.skip(1)
                },
                Err(e) => read_entry(old(reader)@) == Err::<
                    Option<((Seq<char>, TagView), int)>,
                    NbtError,
                >(e),
            },
        decreases old(reader)@.len(), 0nat, 0nat,
    {
        let ghost here = reader@;
        let tag_kind: i8 = match read_sbyte(reader) {
            Ok(v) => v,
            Err(e) => {
                return Err(store(e));
            },
        };
        if tag_kind == TAG_END {
            return Ok(None);
        }
        let name = match read_utfstring(reader) {
            Ok(v) => v,
            Err(e) => {
                return Err(store(e));
            },
        };
        proof {
            let n = utfstring_of(here.skip(1))->Ok_0.1;
            assert(here.skip(1).skip(n) =~= here.skip(1 + n));
            assert(1 + n <= here.len());
        }
        let tag = Tag::read(reader, tag_kind)?;
        proof {
            let n = utfstring_of(here.skip(1))->Ok_0.1;
            let m = read_payload(here.skip(1 + n), tag_kind)->Ok_0.1;
            assert(reader@ =~= here.skip(1 + n + m));
        }
        Ok(Some((name, tag)))
    }

    /// Appends the value as it is written, without its kind and name, or
    /// appends nothing where a length in it does not fit its field.
    pub fn write(&self, writer: &mut Vec<u8>) -> (r: Result<(), NbtError>)
        ensures
            match r {
                Ok(()) => self@.fits() && final(writer)@ == old(writer)@ + self@.payload(),
                Err(e) => !self@.fits() && e == NbtError::TooLong && final(writer)@ == old(writer)@,
            },
        decreases self, 1nat,
    {
        match self {
            Tag::End => {
                assert(writer@ =~= old(writer)@ + self@.payload());
                Ok(())
            },
            Tag::Byte(v) => {
                write_sbyte(writer, *v);
                assert(writer@ =~= old(writer)@ + self@.payload());
                Ok(())
            },
            Tag::Short(v) => {
                write_short(writer, *v);
                Ok(())
            },
            Tag::Int(v) => {
                write_int(writer, *v);
                Ok(())
            },
            Tag::Long(v) => {
                write_long(writer, *v);
                Ok(())
            },
            Tag::Float(v) => {
                write_float(writer, *v);
                Ok(())
            },
            Tag::Double(v) => {
                write_double(writer, *v);
                Ok(())
            },
            Tag::ByteArray(v) => {
                if v.len() > 0x7fff_ffff {
                    return Err(NbtError::TooLong);
                }
                write_int(writer, v.len() as i32);
                write_bytearray(writer, v.as_slice());
                assert(writer@ =~= old(writer)@ + self@.payload());
                Ok(())
            },
            Tag::String(s) => match write_utfstring(writer, s.as_str()) {
                Ok(()) => Ok(()),
                Err(_) => Err(NbtError::TooLong),
            },
            Tag::List(v) => Tag::write_list(v, writer),
            Tag::Compound(v) => Tag::write_compound(v, writer),
        }
    }

    /// Appends a list: the kind of its first element, or byte for an empty
    /// list, the count of its elements and their payloads.
    fn write_list(list: &Vec<Tag>, writer: &mut Vec<u8>) -> (r: Result<(), NbtError>)
        ensures
            match r {
                Ok(()) => Tag::List(*list)@.fits() && final(writer)@ == old(writer)@ + Tag::List(
                    *list,
                )@.payload(),
                Err(e) => !Tag::List(*list)@.fits() && e == NbtError::TooLong && final(writer)@
                    == old(writer)@,
            },
        decreases list, 0nat,
    {
        proof {
            lemma_list_view(*list);
        }
        let ghost elems = tags_view(list@);
        let n: usize = list.len();
        if n > 0x7fff_ffff {
            return Err(NbtError::TooLong);
        }
        let mark: usize = writer.len();
        let tag_kind: i8 = if n > 0 {
            list[0].kind()
        } else {
            TAG_BYTE
        };
        write_sbyte(writer, tag_kind);
        write_int(writer, n as i32);
        let ghost head = writer@;
        let mut i: usize = 0;
        while i < n
            invariant
                i <= n,
                n == list@.len(),
                n <= i32::MAX,
                elems == tags_view(list@),
                Tag::List(*list)@ == TagView::List(elems),
                mark == old(writer)@.len(),
                head == old(writer)@ + seq![sbyte_bits(list_kind(elems))] + int_bytes(n as i32),
                writer@ == head + elems_payload(elems, i as nat),
                elems_fit(elems, i as nat),
            decreases n - i,
        {
            proof {
                vstd::std_specs::vec::axiom_vec_index_decreases(*list, i as int);
            }
            match list[i].write(writer) {
                Ok(()) => {},
                Err(e) => {
                    writer.truncate(mark);
                    assert(writer@ =~= old(writer)@);
                    proof {
                        if elems_fit(elems, n as nat) {
                            lemma_elems_fit_prefix(elems, i as nat + 1, n as nat);
                        }
                    }
                    return Err(NbtError::TooLong);
                },
            }
            i += 1;
            assert(writer@ =~= head + elems_payload(elems, i as nat));
        }
        assert(final(writer)@ =~= old(writer)@ + Tag::List(*list)@.payload());
        Ok(())
    }

    /// Appends the entries of a compound, each with its kind and name, and
    /// the end mark.
    #[verifier::rlimit(50)]
    fn write_compound(entries: &Vec<(String, Tag)>, writer: &mut Vec<u8>) -> (r: Result<
        (),
        NbtError,
    >)
        ensures
            match r {
                Ok(()) => Tag::Compound(*entries)@.fits() && final(writer)@ == old(writer)@
                    + Tag::Compound(*entries)@.payload(),
                Err(e) => !Tag::Compound(*entries)@.fits() && e == NbtError::TooLong
                    && final(writer)@ == old(writer)@,
            },
        decreases entries, 0nat,
    {
        proof {
            lemma_compound_view(*entries);
        }
        let ghost view = entries_view(entries@);
        let n: usize = entries.len();
        let mark: usize = writer.len();
        let mut i: usize = 0;
        while i < n
            invariant
                i <= n,
                n == entries@.len(),
                view == entries_view(entries@),
                Tag::Compound(*entries)@ == TagView::Compound(view),
                mark == old(writer)@.len(),
                writer@ == old(writer)@ + entries_payload(view, i as nat),
                entries_fit(view, i as nat),
            decreases n - i,
        {
            let ghost before = writer@;
            proof {
                vstd::std_specs::vec::axiom_vec_index_decreases(*entries, i as int);
                assert(view[i as int] == (entries@[i as int].0@, entries@[i as int].1@));
            }
            write_sbyte(writer, entries[i].1.kind());
            let named = write_utfstring(writer, entries[i].0.as_str());
            let written = match named {
                Ok(()) => entries[i].1.write(writer),
                Err(_) => Err(NbtError::TooLong),
            };
            match written {
                Ok(()) => {},
                Err(e) => {
                    writer.truncate(mark);
                    assert(writer@ =~= old(writer)@);
                    proof {
                        if entries_fit(view, n as nat) {
                            lemma_entries_fit_prefix(view, i as nat + 1, n as nat);
                        }
                    }
                    return Err(NbtError::TooLong);
                },
            }
            assert(writer@ =~= before + entry_bytes(view[i as int].0, view[i as int].1));
            i += 1;
            assert(writer@ =~= old(writer)@ + entries_payload(view, i as nat));
        }
        write_sbyte(writer, TAG_END);
        assert(final(writer)@ =~= old(writer)@ + Tag::Compound(*entries)@.payload());
        Ok(())
    }
}

/// A list whose first `m` elements can be written can have its first `n`
/// elements written, for `n` up to `m`.
pub proof fn lemma_elems_fit_prefix(elems: Seq<TagView>, n: nat, m: nat)
    requires
        n <= m <= elems.len(),
        elems_fit(elems, m),
    ensures
        elems_fit(elems, n),
    decreases m,
{
    if n < m {
        lemma_elems_fit_prefix(elems, n, (m - 1) as nat);
    }
}

/// A compound whose first `m` entries can be written can have its first
/// `n` entries written, for `n` up to `m`.
pub proof fn lemma_entries_fit_prefix(entries: Seq<(Seq<char>, TagView)>, n: nat, m: nat)
    requires
        n <= m <= entries.len(),
        entries_fit(entries, m),
    ensures
        entries_fit(entries, n),
    decreases m,
{
    if n < m {
        lemma_entries_fit_prefix(entries, n, (m - 1) as nat);
    }
}


/// Whether each of the first `n` elements of a list is of kind `kind` and
/// comes back as it is from its written form.
pub open spec fn elems_canonical(elems: Seq<TagView>, kind: i8, n: nat) -> bool
    decreases elems, n,
{
    n > 0 && n <= elems.len() ==> elems_canonical(elems, kind, (n - 1) as nat) && elems[n
        - 1].kind() == kind && elems[n - 1].canonical()
}

/// Whether each of the first `n` entries of a compound comes back as it is
/// from its written form: its name can be written, and its value is no end
/// mark and comes back as it is.
pub open spec fn entries_canonical(entries: Seq<(Seq<char>, TagView)>, n: nat) -> bool
    decreases entries, n,
{
    n > 0 && n <= entries.len() ==> entries_canonical(entries, (n - 1) as nat) && encode_utf8(
        entries[n - 1].0,
    ).len() <= i16::MAX && entries[n - 1].1.kind() != TAG_END && entries[n - 1].1.canonical()
}

/// Whether no two entries have the same name.
pub open spec fn names_distinct(entries: Seq<(Seq<char>, TagView)>) -> bool {
    forall|i: int, j: int|
        0 <= i < j < entries.len() ==> (#[trigger] entries[i]).0 != (#[trigger] entries[j]).0
}

impl TagView {
    /// Whether the value comes back as it is from its written form: it can
    /// be written, the elements of every list are of one kind, which for an
    /// empty list is byte, and in every compound the names differ and no
    /// value is an end mark.
    pub open spec fn canonical(self) -> bool
        decreases self, 0nat,
    {
        match self {
            TagView::ByteArray(v) => v.len() <= i32::MAX,
            TagView::String(s) => encode_utf8(s).len() <= i16::MAX,
            TagView::List(v) => v.len() <= i32::MAX && elems_canonical(v, list_kind(v), v.len()),
            TagView::Compound(v) => entries_canonical(v, v.len()) && names_distinct(v),
            _ => true,
        }
    }
}

/// The payloads of the elements from place `k` up to place `n`.
pub open spec fn elems_payload_from(elems: Seq<TagView>, k: nat, n: nat) -> Seq<u8>
    decreases n - k,
{
    if k >= n || n > elems.len() {
        Seq::empty()
    } else {
        elems[k as int].payload() + elems_payload_from(elems, k + 1, n)
    }
}

/// The written entries from place `k` up to place `n`.
pub open spec fn entries_payload_from(entries: Seq<(Seq<char>, TagView)>, k: nat, n: nat) -> Seq<
    u8,
>
    decreases n - k,
{
    if k >= n || n > entries.len() {
        Seq::empty()
    } else {
        entry_bytes(entries[k as int].0, entries[k as int].1) + entries_payload_from(
            entries,
            k + 1,
            n,
        )
    }
}

/// The payloads of the first `n` elements are those of the first `k` and
/// then those from place `k` on.
pub proof fn lemma_elems_payload_split(elems: Seq<TagView>, k: nat, n: nat)
    requires
        k <= n <= elems.len(),
    ensures
        elems_payload(elems, n) == elems_payload(elems, k) + elems_payload_from(elems, k, n),
    decreases n - k,
{
    if k < n {
        lemma_elems_payload_split(elems, k + 1, n);
        assert(elems_payload(elems, k + 1) == elems_payload(elems, k) + elems[k as int].payload());
        assert(elems_payload(elems, k) + elems_payload_from(elems, k, n) =~= elems_payload(
            elems,
            k + 1,
        ) + elems_payload_from(elems, k + 1, n));
    } else {
        assert(elems_payload(elems, k) + elems_payload_from(elems, k, n) =~= elems_payload(
            elems,
            n,
        ));
    }
}

/// The written form of the first `n` entries is that of the first `k` and
/// then that of those from place `k` on.
pub proof fn lemma_entries_payload_split(entries: Seq<(Seq<char>, TagView)>, k: nat, n: nat)
    requires
        k <= n <= entries.len(),
    ensures
        entries_payload(entries, n) == entries_payload(entries, k) + entries_payload_from(
            entries,
            k,
            n,
        ),
    decreases n - k,
{
    if k < n {
        lemma_entries_payload_split(entries, k + 1, n);
        assert(entries_payload(entries, k + 1) == entries_payload(entries, k) + entry_bytes(
            entries[k as int].0,
            entries[k as int].1,
        ));
        assert(entries_payload(entries, k) + entries_payload_from(entries, k, n)
            =~= entries_payload(entries, k + 1) + entries_payload_from(entries, k + 1, n));
    } else {
        assert(entries_payload(entries, k) + entries_payload_from(entries, k, n)
            =~= entries_payload(entries, n));
    }
}

/// What holds of the first `n` elements holds of each of them.
pub proof fn lemma_elems_canonical_at(elems: Seq<TagView>, kind: i8, n: nat, k: nat)
    requires
        k < n <= elems.len(),
        elems_canonical(elems, kind, n),
    ensures
        elems[k as int].kind() == kind,
        elems[k as int].canonical(),
    decreases n,
{
    if k + 1 < n {
        lemma_elems_canonical_at(elems, kind, (n - 1) as nat, k);
    }
}

/// What holds of the first `n` entries holds of each of them.
pub proof fn lemma_entries_canonical_at(entries: Seq<(Seq<char>, TagView)>, n: nat, k: nat)
    requires
        k < n <= entries.len(),
        entries_canonical(entries, n),
    ensures
        encode_utf8(entries[k as int].0).len() <= i16::MAX,
        entries[k as int].1.kind() != TAG_END,
        entries[k as int].1.canonical(),
    decreases n,
{
    if k + 1 < n {
        lemma_entries_canonical_at(entries, (n - 1) as nat, k);
    }
}

/// Of entries with different names, all are kept as they are.
pub proof fn lemma_collected_distinct(raw: Seq<(Seq<char>, TagView)>, n: nat)
    requires
        n <= raw.len(),
        names_distinct(raw),
    ensures
        collected(raw, n) == raw.take(n as int),
    decreases n,
{
    if n > 0 {
        lemma_collected_distinct(raw, (n - 1) as nat);
        let kept = raw.take(n as int - 1);
        let name = raw[n - 1].0;
        assert forall|i: int| 0 <= i < kept.len() implies (#[trigger] kept[i]).0 != name by {
            assert(raw[i].0 != raw[n - 1].0);
        }
        lemma_entry_place_absent(kept, name, 0);
        assert(put(kept, name, raw[n - 1].1) =~= raw.take(n as int));
    } else {
        assert(collected(raw, n) =~= raw.take(n as int));
    }
}

/// A name that no entry from place `from` on has is not found from there.
pub proof fn lemma_entry_place_absent(
    entries: Seq<(Seq<char>, TagView)>,
    name: Seq<char>,
    from: int,
)
    requires
        0 <= from <= entries.len(),
        forall|i: int| from <= i < entries.len() ==> (#[trigger] entries[i]).0 != name,
    ensures
        entry_place(entries, name, from) == entries.len(),
    decreases entries.len() - from,
{
    if from < entries.len() {
        lemma_entry_place_absent(entries, name, from + 1);
    }
}


/// A document: a named compound.
#[derive(Debug, PartialEq)]
pub struct NBT {
    key: String,
    tag: Tag,
}

/// The mathematical view of a document.
#[verifier::ext_equal]
pub struct NbtView {
    pub key: Seq<char>,
    pub tag: TagView,
}

impl View for NBT {
    type V = NbtView;

    closed spec fn view(&self) -> NbtView {
        NbtView { key: self.key@, tag: self.tag@ }
    }
}

/// The document at the start of `b`, with the number of bytes it takes:
/// the kind of a compound, the name, the entries and the end mark.
pub open spec fn read_document(b: Seq<u8>) -> Result<(NbtView, int), NbtError> {
    if b.len() < 1 {
        Err(NbtError::UnexpectedEof)
    } else if sbyte_of(b[0]) != TAG_COMPOUND {
        Err(NbtError::NotCompound)
    } else {
        match utfstring_of(b.skip(1)) {
            Err(e) => Err(store_error(e)),
            Ok((key, n)) => match read_payload(b.skip(1 + n), TAG_COMPOUND) {
                Err(e) => Err(e),
                Ok((tag, m)) => Ok((NbtView { key, tag }, 1 + n + m)),
            },
        }
    }
}

impl NbtView {
    /// Whether the document can be written: its root is a compound, and
    /// its name and everything in it fit their length fields.
    pub open spec fn fits(self) -> bool {
        self.tag is Compound && encode_utf8(self.key).len() <= i16::MAX && self.tag.fits()
    }

    /// The document as it is written.
    pub open spec fn bytes(self) -> Seq<u8> {
        seq![sbyte_bits(TAG_COMPOUND)] + utfstring_bytes(self.key) + self.tag.payload()
    }
}

impl From<Tag> for NBT {
    /// A document without a name.
    fn from(tag: Tag) -> (r: Self)
        ensures
            r@ == (NbtView { key: Seq::empty(), tag: tag@ }),
    {
        NBT { key: String::new(), tag }
    }
}

/// What `from` gives is told by its own contract, over the view of the
/// document: two strings of the same text are not known to be one value,
/// so no document can be named here.
impl vstd::std_specs::convert::FromSpecImpl<Tag> for NBT {
    open spec fn obeys_from_spec() -> bool {
        false
    }

    open spec fn from_spec(tag: Tag) -> NBT {
        arbitrary()
    }
}

impl NBT {
    /// A document with the given name and root.
    pub fn new(key: &str, tag: Tag) -> (r: Self)
        ensures
            r@ == (NbtView { key: key@, tag: tag@ }),
    {
        NBT { key: key.to_owned(), tag }
    }

    /// Reads a document. The reader stays in place on failure.
    pub fn read(reader: &mut Reader) -> (r: Result<NBT, NbtError>)
        ensures
            match r {
                Ok(doc) => {
                    &&& read_document(old(reader)@) matches Ok((value, n))
                    &&& doc@ == value
                    &&& final(reader)@ == old(reader)@.skip(n)
                },
                Err(e) => read_document(old(reader)@) == Err::<(NbtView, int), NbtError>(e)
                    && final(reader)@ == old(reader)@,
            },
    {
        let mut ahead: Reader = *reader;
        let tag_kind: i8 = match read_sbyte(&mut ahead) {
            Ok(v) => v,
            Err(e) => {
                return Err(store(e));
            },
        };
        if tag_kind != TAG_COMPOUND {
            return Err(NbtError::NotCompound);
        }
        let key = match read_utfstring(&mut ahead) {
            Ok(v) => v,
            Err(e) => {
                return Err(store(e));
            },
        };
        proof {
            let n = utfstring_of(old(reader)@.skip(1))->Ok_0.1;
            assert(old(reader)@.skip(1).skip(n) =~= old(reader)@.skip(1 + n));
        }
        let tag = Tag::read(&mut ahead, tag_kind)?;
        proof {
            let n = utfstring_of(old(reader)@.skip(1))->Ok_0.1;
            let m = read_payload(old(reader)@.skip(1 + n), TAG_COMPOUND)->Ok_0.1;
            assert(ahead@ =~= old(reader)@.skip(1 + n + m));
        }
        *reader = ahead;
        Ok(NBT { key, tag })
    }

    /// Appends the document as it is written, or appends nothing where
    /// its root is no compound or a length in it does not fit its field.
    pub fn write(&self, writer: &mut Vec<u8>) -> (r: Result<(), NbtError>)
        ensures
            match r {
                Ok(()) => self@.fits() && final(writer)@ == old(writer)@ + self@.bytes(),
                Err(e) => !self@.fits() && final(writer)@ == old(writer)@ && e == (if self@.tag
                    is Compound {
                    NbtError::TooLong
                } else {
                    NbtError::NotCompound
                }),
            },
    {
        if self.tag.kind() != TAG_COMPOUND {
            return Err(NbtError::NotCompound);
        }
        let mark: usize = writer.len();
        write_sbyte(writer, TAG_COMPOUND);
        let named = write_utfstring(writer, self.key.as_str());
        let written = match named {
            Ok(()) => self.tag.write(writer),
            Err(_) => Err(NbtError::TooLong),
        };
        match written {
            Ok(()) => {
                assert(writer@ =~= old(writer)@ + self@.bytes());
                Ok(())
            },
            Err(_) => {
                writer.truncate(mark);
                assert(writer@ =~= old(writer)@);
                Err(NbtError::TooLong)
            },
        }
    }

    /// The name of the document.
    pub fn key(&self) -> (r: &str)
        ensures
            r@ == self@.key,
    {
        self.key.as_str()
    }

    /// The root of the document.
    pub fn tag(&self) -> (r: &Tag)
        ensures
            r@ == self@.tag,
    {
        &self.tag
    }
}

} // verus!
