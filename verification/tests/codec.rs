use qubiq::util::{
    append_bytes, read_byte, read_bytearray, read_double, read_float, read_int, read_long,
    read_mcstring, read_sbyte, read_short, read_utfstring, write_bytearray, write_byte,
    write_double, write_float, write_int, write_long, write_mcstring, write_sbyte, write_short,
    write_utfstring, CodecError, Reader,
};

fn padded(text: &str) -> Vec<u8> {
    let mut bytes = text.as_bytes().to_vec();
    bytes.resize(64, 0x20);
    bytes
}

#[test]
fn byte_is_written_as_it_is() {
    let mut out = vec![0xaa];
    write_byte(&mut out, 0xfe);
    assert_eq!(out, vec![0xaa, 0xfe]);
}

#[test]
fn signed_byte_is_twos_complement() {
    let mut out = Vec::new();
    write_sbyte(&mut out, -1);
    write_sbyte(&mut out, -128);
    write_sbyte(&mut out, 127);
    write_sbyte(&mut out, 0);
    assert_eq!(out, vec![0xff, 0x80, 0x7f, 0x00]);
    let mut reader = Reader::new(&out);
    assert_eq!(read_sbyte(&mut reader), Ok(-1));
    assert_eq!(read_sbyte(&mut reader), Ok(-128));
    assert_eq!(read_sbyte(&mut reader), Ok(127));
    assert_eq!(read_sbyte(&mut reader), Ok(0));
    assert_eq!(read_sbyte(&mut reader), Err(CodecError::UnexpectedEof));
}

#[test]
fn short_is_big_endian() {
    let mut out = Vec::new();
    write_short(&mut out, 0x0102);
    write_short(&mut out, -2);
    write_short(&mut out, i16::MIN);
    write_short(&mut out, i16::MAX);
    assert_eq!(out, vec![0x01, 0x02, 0xff, 0xfe, 0x80, 0x00, 0x7f, 0xff]);
    let mut reader = Reader::new(&out);
    assert_eq!(read_short(&mut reader), Ok(0x0102));
    assert_eq!(read_short(&mut reader), Ok(-2));
    assert_eq!(read_short(&mut reader), Ok(i16::MIN));
    assert_eq!(read_short(&mut reader), Ok(i16::MAX));
    assert_eq!(reader.remaining(), 0);
}

#[test]
fn int_is_big_endian() {
    let mut out = Vec::new();
    write_int(&mut out, 0x01020304);
    write_int(&mut out, -1);
    write_int(&mut out, i32::MIN);
    assert_eq!(
        out,
        vec![0x01, 0x02, 0x03, 0x04, 0xff, 0xff, 0xff, 0xff, 0x80, 0x00, 0x00, 0x00]
    );
    let mut reader = Reader::new(&out);
    assert_eq!(read_int(&mut reader), Ok(0x01020304));
    assert_eq!(read_int(&mut reader), Ok(-1));
    assert_eq!(read_int(&mut reader), Ok(i32::MIN));
}

#[test]
fn long_is_big_endian() {
    let mut out = Vec::new();
    write_long(&mut out, 0x0102030405060708);
    write_long(&mut out, -2);
    write_long(&mut out, i64::MIN);
    write_long(&mut out, i64::MAX);
    assert_eq!(&out[..8], &[1, 2, 3, 4, 5, 6, 7, 8]);
    assert_eq!(&out[8..16], &[0xff, 0xff, 0xff, 0xff, 0xff, 0xff, 0xff, 0xfe]);
    assert_eq!(&out[16..24], &[0x80, 0, 0, 0, 0, 0, 0, 0]);
    let mut reader = Reader::new(&out);
    assert_eq!(read_long(&mut reader), Ok(0x0102030405060708));
    assert_eq!(read_long(&mut reader), Ok(-2));
    assert_eq!(read_long(&mut reader), Ok(i64::MIN));
    assert_eq!(read_long(&mut reader), Ok(i64::MAX));
}

#[test]
fn floats_are_carried_by_their_bits() {
    let mut out = Vec::new();
    write_float(&mut out, 1.5f32.to_bits());
    write_double(&mut out, (-2.25f64).to_bits());
    assert_eq!(&out[..4], &1.5f32.to_be_bytes());
    assert_eq!(&out[4..], &(-2.25f64).to_be_bytes());
    let mut reader = Reader::new(&out);
    assert_eq!(read_float(&mut reader).map(f32::from_bits), Ok(1.5));
    assert_eq!(read_double(&mut reader).map(f64::from_bits), Ok(-2.25));
}

#[test]
fn integer_round_trips_agree_with_the_standard_encoding() {
    for v in [0i16, 1, -1, 255, 256, -256, 12345, -12345, i16::MIN, i16::MAX] {
        let mut out = Vec::new();
        write_short(&mut out, v);
        assert_eq!(out, v.to_be_bytes());
        assert_eq!(read_short(&mut Reader::new(&out)), Ok(v));
    }
    for v in [0i32, 1, -1, 65536, -65537, 0x7fff_ffff, i32::MIN] {
        let mut out = Vec::new();
        write_int(&mut out, v);
        assert_eq!(out, v.to_be_bytes());
        assert_eq!(read_int(&mut Reader::new(&out)), Ok(v));
    }
    for v in [0i64, 1, -1, 1 << 40, -(1 << 40), i64::MAX, i64::MIN] {
        let mut out = Vec::new();
        write_long(&mut out, v);
        assert_eq!(out, v.to_be_bytes());
        assert_eq!(read_long(&mut Reader::new(&out)), Ok(v));
    }
}

#[test]
fn reads_fail_on_short_input_and_stay_in_place() {
    let data = [0x01u8];
    let mut reader = Reader::new(&data);
    assert_eq!(read_short(&mut reader), Err(CodecError::UnexpectedEof));
    assert_eq!(read_int(&mut reader), Err(CodecError::UnexpectedEof));
    assert_eq!(read_long(&mut reader), Err(CodecError::UnexpectedEof));
    assert_eq!(read_float(&mut reader), Err(CodecError::UnexpectedEof));
    assert_eq!(read_double(&mut reader), Err(CodecError::UnexpectedEof));
    assert_eq!(read_mcstring(&mut reader), Err(CodecError::UnexpectedEof));
    assert_eq!(read_bytearray(&mut reader, 2), Err(CodecError::UnexpectedEof));
    assert_eq!(reader.remaining(), 1);
    assert_eq!(read_byte(&mut reader), Ok(1));
    assert_eq!(read_byte(&mut reader), Err(CodecError::UnexpectedEof));
}

#[test]
fn reader_takes_bytes_in_order() {
    let data = [1u8, 2, 3, 4, 5];
    let mut reader = Reader::new(&data);
    assert_eq!(reader.take(2), Ok(&data[..2]));
    assert_eq!(reader.take(4), Err(CodecError::UnexpectedEof));
    assert_eq!(reader.take(3), Ok(&data[2..]));
    assert_eq!(reader.take(0), Ok(&data[5..]));
}

#[test]
fn wire_string_is_padded_with_spaces() {
    let mut out = Vec::new();
    write_mcstring(&mut out, "Alice");
    assert_eq!(out.len(), 64);
    assert_eq!(out, padded("Alice"));
    let mut reader = Reader::new(&out);
    let text = read_mcstring(&mut reader).unwrap();
    assert_eq!(text, format!("Alice{}", " ".repeat(59)));
    assert_eq!(reader.remaining(), 0);
}

#[test]
fn wire_string_of_exactly_64_bytes_is_unchanged() {
    let text = "x".repeat(64);
    let mut out = Vec::new();
    write_mcstring(&mut out, &text);
    assert_eq!(out, text.as_bytes());
    assert_eq!(read_mcstring(&mut Reader::new(&out)), Ok(text));
}

#[test]
fn wire_string_is_cut_after_64_bytes() {
    let text = "y".repeat(100);
    let mut out = Vec::new();
    write_mcstring(&mut out, &text);
    assert_eq!(out, "y".repeat(64).as_bytes());
}

#[test]
fn wire_string_cut_within_a_character_reads_with_a_replacement() {
    let text = format!("{}\u{e9}", "a".repeat(63));
    let mut out = Vec::new();
    write_mcstring(&mut out, &text);
    assert_eq!(out.len(), 64);
    assert_eq!(out[63], 0xc3);
    let read = read_mcstring(&mut Reader::new(&out)).unwrap();
    assert_eq!(read, format!("{}\u{fffd}", "a".repeat(63)));
}

#[test]
fn wire_string_with_invalid_bytes_is_read_lossily() {
    let mut data = padded("ab");
    data[1] = 0xff;
    let read = read_mcstring(&mut Reader::new(&data)).unwrap();
    assert_eq!(read, format!("a\u{fffd}{}", " ".repeat(62)));
}

#[test]
fn wire_string_keeps_multibyte_text() {
    let mut out = Vec::new();
    write_mcstring(&mut out, "h\u{e9}llo");
    assert_eq!(&out[..6], "h\u{e9}llo".as_bytes());
    assert_eq!(out.len(), 64);
    let read = read_mcstring(&mut Reader::new(&out)).unwrap();
    assert_eq!(read, format!("h\u{e9}llo{}", " ".repeat(58)));
}

#[test]
fn length_prefixed_string_round_trip() {
    let mut out = Vec::new();
    assert_eq!(write_utfstring(&mut out, "BlockArray"), Ok(()));
    assert_eq!(&out[..2], &[0x00, 0x0a]);
    assert_eq!(&out[2..], b"BlockArray");
    out.push(0x77);
    let mut reader = Reader::new(&out);
    assert_eq!(read_utfstring(&mut reader), Ok("BlockArray".to_string()));
    assert_eq!(reader.remaining(), 1);
}

#[test]
fn empty_length_prefixed_string() {
    let mut out = Vec::new();
    assert_eq!(write_utfstring(&mut out, ""), Ok(()));
    assert_eq!(out, vec![0x00, 0x00]);
    assert_eq!(read_utfstring(&mut Reader::new(&out)), Ok(String::new()));
}

#[test]
fn negative_string_length_reads_as_empty() {
    let data = [0xff, 0xff, 0x41];
    let mut reader = Reader::new(&data);
    assert_eq!(read_utfstring(&mut reader), Ok(String::new()));
    assert_eq!(reader.remaining(), 1);
}

#[test]
fn length_prefixed_string_errors() {
    let short = [0x00];
    assert_eq!(read_utfstring(&mut Reader::new(&short)), Err(CodecError::UnexpectedEof));
    let truncated = [0x00, 0x05, 0x41, 0x42];
    let mut reader = Reader::new(&truncated);
    assert_eq!(read_utfstring(&mut reader), Err(CodecError::UnexpectedEof));
    assert_eq!(reader.remaining(), 4);
    let invalid = [0x00, 0x02, 0xc3, 0x28];
    let mut reader = Reader::new(&invalid);
    assert_eq!(read_utfstring(&mut reader), Err(CodecError::InvalidUtf8));
    assert_eq!(reader.remaining(), 4);
}

#[test]
fn length_prefixed_string_that_is_too_long_is_refused() {
    let mut out = vec![9u8];
    let long = "z".repeat(32768);
    assert_eq!(write_utfstring(&mut out, &long), Err(CodecError::TooLong));
    assert_eq!(out, vec![9u8]);
    let fits = "z".repeat(32767);
    assert_eq!(write_utfstring(&mut out, &fits), Ok(()));
    assert_eq!(out.len(), 1 + 2 + 32767);
    assert_eq!(&out[1..3], &[0x7f, 0xff]);
    assert_eq!(read_utfstring(&mut Reader::new(&out[1..])), Ok(fits));
}

#[test]
fn byte_array_round_trip() {
    let values: Vec<i8> = vec![0, 1, -1, 127, -128];
    let mut out = Vec::new();
    write_bytearray(&mut out, &values);
    assert_eq!(out, vec![0x00, 0x01, 0xff, 0x7f, 0x80]);
    let mut reader = Reader::new(&out);
    assert_eq!(read_bytearray(&mut reader, 5), Ok(values));
    assert_eq!(read_bytearray(&mut reader, 0), Ok(Vec::new()));
}

#[test]
fn bytes_are_appended_as_they_are() {
    let mut out = vec![1u8];
    append_bytes(&mut out, &[2, 3]);
    append_bytes(&mut out, &[]);
    assert_eq!(out, vec![1, 2, 3]);
}
