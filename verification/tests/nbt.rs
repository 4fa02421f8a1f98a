use qubiq::nbt::{insert, NbtError, Tag, NBT};
use qubiq::util::Reader;

fn name(text: &str) -> Vec<u8> {
    let mut bytes = (text.len() as u16).to_be_bytes().to_vec();
    bytes.extend(text.as_bytes());
    bytes
}

fn written(tag: &Tag) -> Vec<u8> {
    let mut out = Vec::new();
    assert_eq!(tag.write(&mut out), Ok(()));
    out
}

fn read_back(tag: &Tag) -> Tag {
    let bytes = written(tag);
    let mut reader = Reader::new(&bytes);
    let read = Tag::read(&mut reader, tag.kind()).unwrap();
    assert_eq!(reader.remaining(), 0);
    read
}

#[test]
fn kinds() {
    assert_eq!(Tag::End.kind(), 0x00);
    assert_eq!(Tag::Byte(0).kind(), 0x01);
    assert_eq!(Tag::Short(0).kind(), 0x02);
    assert_eq!(Tag::Int(0).kind(), 0x03);
    assert_eq!(Tag::Long(0).kind(), 0x04);
    assert_eq!(Tag::Float(0).kind(), 0x05);
    assert_eq!(Tag::Double(0).kind(), 0x06);
    assert_eq!(Tag::ByteArray(vec![]).kind(), 0x07);
    assert_eq!(Tag::String(String::new()).kind(), 0x08);
    assert_eq!(Tag::List(vec![]).kind(), 0x09);
    assert_eq!(Tag::Compound(vec![]).kind(), 0x0a);
}

#[test]
fn numbers_are_written_big_endian() {
    assert_eq!(written(&Tag::End), Vec::<u8>::new());
    assert_eq!(written(&Tag::Byte(-2)), vec![0xfe]);
    assert_eq!(written(&Tag::Short(258)), vec![1, 2]);
    assert_eq!(written(&Tag::Int(-1)), vec![0xff; 4]);
    assert_eq!(written(&Tag::Long(1)), vec![0, 0, 0, 0, 0, 0, 0, 1]);
    assert_eq!(written(&Tag::Float(1.0f32.to_bits())), vec![0x3f, 0x80, 0, 0]);
    assert_eq!(
        written(&Tag::Double(1.0f64.to_bits())),
        vec![0x3f, 0xf0, 0, 0, 0, 0, 0, 0]
    );
}

#[test]
fn byte_array_has_a_count() {
    assert_eq!(written(&Tag::ByteArray(vec![1, -1])), vec![0, 0, 0, 2, 0x01, 0xff]);
    assert_eq!(read_back(&Tag::ByteArray(vec![1, -1, 0])), Tag::ByteArray(vec![1, -1, 0]));
}

#[test]
fn string_has_a_length() {
    assert_eq!(written(&Tag::String("hi".to_string())), vec![0, 2, b'h', b'i']);
    assert_eq!(read_back(&Tag::String("h\u{e9}".to_string())), Tag::String("h\u{e9}".to_string()));
}

#[test]
fn list_tells_the_kind_of_its_first_element() {
    let list = Tag::List(vec![Tag::Short(1), Tag::Short(-1)]);
    assert_eq!(written(&list), vec![0x02, 0, 0, 0, 2, 0, 1, 0xff, 0xff]);
    assert_eq!(read_back(&list), list);
}

#[test]
fn empty_list_tells_byte() {
    assert_eq!(written(&Tag::List(vec![])), vec![0x01, 0, 0, 0, 0]);
    assert_eq!(read_back(&Tag::List(vec![])), Tag::List(vec![]));
}

#[test]
fn nested_lists_round_trip() {
    let list = Tag::List(vec![
        Tag::List(vec![Tag::Byte(1), Tag::Byte(2)]),
        Tag::List(vec![]),
        Tag::List(vec![Tag::Byte(3)]),
    ]);
    assert_eq!(read_back(&list), list);
}

#[test]
fn list_of_end_marks_takes_no_bytes_per_element() {
    let bytes = [0x00, 0, 0, 0, 3];
    let mut reader = Reader::new(&bytes);
    assert_eq!(
        Tag::read(&mut reader, 0x09),
        Ok(Tag::List(vec![Tag::End, Tag::End, Tag::End]))
    );
}

#[test]
fn compound_is_written_entry_by_entry() {
    let compound = Tag::Compound(vec![
        ("a".to_string(), Tag::Byte(1)),
        ("bc".to_string(), Tag::Short(2)),
    ]);
    let mut expected = vec![0x01];
    expected.extend(name("a"));
    expected.push(1);
    expected.push(0x02);
    expected.extend(name("bc"));
    expected.extend([0, 2]);
    expected.push(0x00);
    assert_eq!(written(&compound), expected);
    assert_eq!(read_back(&compound), compound);
}

#[test]
fn nested_compound_round_trips() {
    let compound = Tag::Compound(vec![
        ("numbers".to_string(), Tag::List(vec![Tag::Int(1), Tag::Int(2)])),
        (
            "inner".to_string(),
            Tag::Compound(vec![
                ("x".to_string(), Tag::Long(-5)),
                ("f".to_string(), Tag::Float(2.5f32.to_bits())),
                ("d".to_string(), Tag::Double(0.1f64.to_bits())),
                ("s".to_string(), Tag::String("text".to_string())),
                ("empty".to_string(), Tag::Compound(vec![])),
            ]),
        ),
        ("bytes".to_string(), Tag::ByteArray(vec![-1, 0, 1])),
    ]);
    assert_eq!(read_back(&compound), compound);
}

#[test]
fn reading_keeps_the_last_entry_of_a_name() {
    let mut bytes = vec![0x01];
    bytes.extend(name("a"));
    bytes.push(1);
    bytes.push(0x01);
    bytes.extend(name("b"));
    bytes.push(2);
    bytes.push(0x02);
    bytes.extend(name("a"));
    bytes.extend([0, 3]);
    bytes.push(0x00);
    let mut reader = Reader::new(&bytes);
    assert_eq!(
        Tag::read(&mut reader, 0x0a),
        Ok(Tag::Compound(vec![
            ("a".to_string(), Tag::Short(3)),
            ("b".to_string(), Tag::Byte(2)),
        ]))
    );
    assert_eq!(reader.remaining(), 0);
}

#[test]
fn insert_replaces_or_appends() {
    let mut entries = vec![("a".to_string(), Tag::Byte(1))];
    insert(&mut entries, "b".to_string(), Tag::Byte(2));
    insert(&mut entries, "a".to_string(), Tag::Int(3));
    assert_eq!(
        entries,
        vec![("a".to_string(), Tag::Int(3)), ("b".to_string(), Tag::Byte(2))]
    );
}

#[test]
fn unknown_kind_is_refused() {
    let bytes = [0u8; 4];
    let mut reader = Reader::new(&bytes);
    assert_eq!(Tag::read(&mut reader, 0x0b), Err(NbtError::UnknownKind));
    assert_eq!(Tag::read(&mut reader, -1), Err(NbtError::UnknownKind));
    assert_eq!(reader.remaining(), 4);
    let list = [0x0b, 0, 0, 0, 1];
    assert_eq!(Tag::read(&mut Reader::new(&list), 0x09), Err(NbtError::UnknownKind));
    let empty_list = [0x0b, 0, 0, 0, 0];
    assert_eq!(Tag::read(&mut Reader::new(&empty_list), 0x09), Ok(Tag::List(vec![])));
}

#[test]
fn negative_counts_are_refused() {
    let array = [0xff, 0xff, 0xff, 0xff];
    assert_eq!(Tag::read(&mut Reader::new(&array), 0x07), Err(NbtError::NegativeCount));
    let list = [0x01, 0x80, 0, 0, 0];
    assert_eq!(Tag::read(&mut Reader::new(&list), 0x09), Err(NbtError::NegativeCount));
}

#[test]
fn values_that_end_early_are_refused_in_place() {
    let cases: [(i8, &[u8]); 10] = [
        (0x01, &[]),
        (0x02, &[0]),
        (0x03, &[0, 0, 0]),
        (0x04, &[0; 7]),
        (0x05, &[0; 3]),
        (0x06, &[0; 7]),
        (0x07, &[0, 0, 0, 2, 1]),
        (0x08, &[0, 2, b'a']),
        (0x09, &[0x01, 0, 0, 0, 2, 5]),
        (0x0a, &[0x01, 0, 1, b'a', 7]),
    ];
    for (kind, bytes) in cases {
        let mut reader = Reader::new(bytes);
        assert_eq!(Tag::read(&mut reader, kind), Err(NbtError::UnexpectedEof));
        assert_eq!(reader.remaining(), bytes.len());
    }
}

#[test]
fn invalid_text_is_refused() {
    let string = [0, 1, 0xff];
    assert_eq!(Tag::read(&mut Reader::new(&string), 0x08), Err(NbtError::InvalidUtf8));
    let compound = [0x01, 0, 1, 0xff, 1, 0];
    assert_eq!(Tag::read(&mut Reader::new(&compound), 0x0a), Err(NbtError::InvalidUtf8));
}

#[test]
fn lengths_that_do_not_fit_are_refused() {
    let long = "s".repeat(40000);
    let mut out = vec![1u8];
    assert_eq!(Tag::String(long.clone()).write(&mut out), Err(NbtError::TooLong));
    assert_eq!(out, vec![1u8]);
    let inside = Tag::Compound(vec![
        ("ok".to_string(), Tag::Byte(1)),
        ("list".to_string(), Tag::List(vec![Tag::String("fine".to_string()), Tag::String(long.clone())])),
    ]);
    assert_eq!(inside.write(&mut out), Err(NbtError::TooLong));
    assert_eq!(out, vec![1u8]);
    let named = Tag::Compound(vec![(long, Tag::Byte(1))]);
    assert_eq!(named.write(&mut out), Err(NbtError::TooLong));
    assert_eq!(out, vec![1u8]);
}

#[test]
fn document_round_trip() {
    let doc = NBT::new(
        "ClassicWorld",
        Tag::Compound(vec![
            ("X".to_string(), Tag::Short(4)),
            ("Name".to_string(), Tag::String("w".to_string())),
        ]),
    );
    assert_eq!(doc.key(), "ClassicWorld");
    let mut out = Vec::new();
    assert_eq!(doc.write(&mut out), Ok(()));
    let mut expected = vec![0x0a];
    expected.extend(name("ClassicWorld"));
    expected.push(0x02);
    expected.extend(name("X"));
    expected.extend([0, 4]);
    expected.push(0x08);
    expected.extend(name("Name"));
    expected.extend(name("w"));
    expected.push(0x00);
    assert_eq!(out, expected);
    out.push(0x99);
    let mut reader = Reader::new(&out);
    let read = NBT::read(&mut reader).unwrap();
    assert_eq!(read, doc);
    assert_eq!(read.tag(), doc.tag());
    assert_eq!(reader.remaining(), 1);
}

#[test]
fn document_must_be_a_compound() {
    let bytes = [0x01, 0, 0, 5];
    let mut reader = Reader::new(&bytes);
    assert_eq!(NBT::read(&mut reader), Err(NbtError::NotCompound));
    assert_eq!(reader.remaining(), 4);
    assert_eq!(NBT::read(&mut Reader::new(&[])), Err(NbtError::UnexpectedEof));
    let mut out = vec![3u8];
    assert_eq!(NBT::new("n", Tag::Int(5)).write(&mut out), Err(NbtError::NotCompound));
    assert_eq!(out, vec![3u8]);
}

#[test]
fn document_with_a_name_that_does_not_fit_is_refused() {
    let mut out = Vec::new();
    let doc = NBT::new(&"k".repeat(32768), Tag::Compound(vec![]));
    assert_eq!(doc.write(&mut out), Err(NbtError::TooLong));
    assert!(out.is_empty());
}

#[test]
fn document_that_ends_early_is_refused() {
    let mut bytes = vec![0x0a];
    bytes.extend(name("n"));
    bytes.push(0x01);
    bytes.extend(name("a"));
    bytes.push(1);
    assert_eq!(NBT::read(&mut Reader::new(&bytes)), Err(NbtError::UnexpectedEof));
    bytes.push(0x00);
    assert_eq!(
        NBT::read(&mut Reader::new(&bytes)),
        Ok(NBT::new("n", Tag::Compound(vec![("a".to_string(), Tag::Byte(1))])))
    );
}

#[test]
fn document_from_a_value_has_no_name() {
    let doc = NBT::from(Tag::Compound(vec![("a".to_string(), Tag::Byte(1))]));
    assert_eq!(doc.key(), "");
    assert_eq!(doc.tag(), &Tag::Compound(vec![("a".to_string(), Tag::Byte(1))]));
    let mut out = Vec::new();
    assert_eq!(doc.write(&mut out), Ok(()));
    assert_eq!(out, vec![0x0a, 0, 0, 0x01, 0, 1, b'a', 1, 0x00]);
}
