use packstream::buffer::UnpackableBuffer;
use packstream::codec::{decode, decode_with_depth};
use packstream::error::CodecError;
use packstream::unpacker::{text_value, Unpacker, DEFAULT_MAX_DEPTH};
use packstream::value::{MessageStructure, MessageValue};

fn unpacker(bytes: Vec<u8>) -> Unpacker {
    Unpacker::new(UnpackableBuffer::new(Some(bytes)))
}

#[test]
fn every_tiny_int_marker_decodes_to_itself() {
    for marker in 0x00u8..=0x7F {
        assert_eq!(decode(vec![marker]), Ok(MessageValue::TinyInt(marker as i8)));
    }
    for marker in 0xF0u8..=0xFF {
        assert_eq!(decode(vec![marker]), Ok(MessageValue::TinyInt(marker as i8)));
    }
    assert_eq!(decode(vec![0xFF]), Ok(MessageValue::TinyInt(-1)));
    assert_eq!(decode(vec![0xF0]), Ok(MessageValue::TinyInt(-16)));
}

#[test]
fn reserved_markers_are_malformed() {
    let mut reserved: Vec<u8> = Vec::new();
    reserved.extend(0x90u8..=0xAF);
    reserved.extend(0xC4u8..=0xC7);
    reserved.push(0xCF);
    reserved.extend(0xD3u8..=0xEF);
    assert_eq!(reserved.len(), 32 + 4 + 1 + 29);
    for marker in reserved {
        assert_eq!(decode(vec![marker]), Err(CodecError::DecodeMalformed));
        assert_eq!(
            decode(vec![marker, 0, 0, 0, 0, 0, 0, 0, 0]),
            Err(CodecError::DecodeMalformed)
        );
    }
}

#[test]
fn every_first_byte_gives_a_value_or_an_error() {
    for marker in 0u8..=255 {
        let mut bytes = vec![marker];
        bytes.extend(vec![0u8; 9]);
        let mut source = unpacker(bytes);
        match source.unpack() {
            Ok(_) => assert!(source.available() < 10),
            Err(_) => assert_eq!(source.available(), 10),
        }
    }
}

#[test]
fn empty_input_is_end_of_data() {
    assert_eq!(decode(Vec::new()), Err(CodecError::EndOfData));
}

#[test]
fn truncated_values_are_end_of_data() {
    let whole: Vec<Vec<u8>> = vec![
        vec![0xC1, 1, 2, 3, 4, 5, 6, 7, 8],
        vec![0xC8, 0x80],
        vec![0xC9, 1, 2],
        vec![0xCA, 1, 2, 3, 4],
        vec![0xCB, 1, 2, 3, 4, 5, 6, 7, 8],
        vec![0xCC, 2, 9, 9],
        vec![0xCD, 0, 2, 9, 9],
        vec![0xCE, 0, 0, 0, 2, 9, 9],
        vec![0xD0, 2, b'a', b'b'],
        vec![0xD1, 0, 2, b'a', b'b'],
        vec![0xD2, 0, 0, 0, 2, b'a', b'b'],
        vec![0x82, b'a', b'b'],
        vec![0xB2, 0x01, 0xC0, 0xC0],
    ];
    for bytes in whole {
        assert!(decode(bytes.clone()).is_ok());
        for cut in 1..bytes.len() {
            assert_eq!(decode(bytes[..cut].to_vec()), Err(CodecError::EndOfData));
        }
    }
}

#[test]
fn bytes_after_the_value_are_malformed() {
    assert_eq!(decode(vec![0x01, 0x02]), Err(CodecError::DecodeMalformed));
    assert_eq!(decode(vec![0xB0, 0x01, 0xC0]), Err(CodecError::DecodeMalformed));
}

#[test]
fn fixed_width_integers_decode_big_endian() {
    assert_eq!(decode(vec![0xC8, 0xEF]), Ok(MessageValue::TinyInt(-17)));
    assert_eq!(decode(vec![0xC8, 0x05]), Ok(MessageValue::TinyInt(5)));
    assert_eq!(decode(vec![0xC9, 0x01, 0x02]), Ok(MessageValue::SmallInt(0x0102)));
    assert_eq!(decode(vec![0xC9, 0xFF, 0xFE]), Ok(MessageValue::SmallInt(-2)));
    assert_eq!(decode(vec![0xCA, 0, 0, 0, 0x2A]), Ok(MessageValue::Int(42)));
    assert_eq!(decode(vec![0xCA, 0x80, 0, 0, 0]), Ok(MessageValue::Int(i32::MIN)));
    assert_eq!(
        decode(vec![0xCB, 0x7F, 0xFF, 0xFF, 0xFF, 0xFF, 0xFF, 0xFF, 0xFF]),
        Ok(MessageValue::BigInt(i64::MAX))
    );
    assert_eq!(
        decode(vec![0xCB, 0xFF, 0xFF, 0xFF, 0xFF, 0xFF, 0xFF, 0xFF, 0xFE]),
        Ok(MessageValue::BigInt(-2))
    );
}

#[test]
fn float_decodes_to_its_bits() {
    assert_eq!(
        decode(vec![0xC1, 0x40, 0x09, 0x21, 0xFB, 0x54, 0x44, 0x2D, 0x18]),
        Ok(MessageValue::Float(std::f64::consts::PI.to_bits()))
    );
}

#[test]
fn strings_and_bytes_decode_with_any_header_width() {
    let abc = MessageValue::String("abc".to_string());
    assert_eq!(decode(vec![0x83, b'a', b'b', b'c']), Ok(abc.clone()));
    assert_eq!(decode(vec![0xD0, 3, b'a', b'b', b'c']), Ok(abc.clone()));
    assert_eq!(decode(vec![0xD1, 0, 3, b'a', b'b', b'c']), Ok(abc.clone()));
    assert_eq!(decode(vec![0xD2, 0, 0, 0, 3, b'a', b'b', b'c']), Ok(abc));
    let raw = MessageValue::Bytes(vec![1, 2]);
    assert_eq!(decode(vec![0xCC, 2, 1, 2]), Ok(raw.clone()));
    assert_eq!(decode(vec![0xCD, 0, 2, 1, 2]), Ok(raw.clone()));
    assert_eq!(decode(vec![0xCE, 0, 0, 0, 2, 1, 2]), Ok(raw));
}

#[test]
fn length_headers_are_read_most_significant_byte_first() {
    let mut bytes = vec![0xCD, 0x01, 0x02];
    bytes.extend(vec![7u8; 0x0102]);
    assert_eq!(decode(bytes), Ok(MessageValue::Bytes(vec![7u8; 0x0102])));
    let mut bytes = vec![0xCD, 0x02, 0x01];
    bytes.extend(vec![7u8; 0x0102]);
    assert_eq!(decode(bytes), Err(CodecError::EndOfData));
}

#[test]
fn invalid_utf8_is_malformed() {
    assert_eq!(decode(vec![0x81, 0xFF]), Err(CodecError::DecodeMalformed));
    assert_eq!(decode(vec![0x82, 0xC3, 0x28]), Err(CodecError::DecodeMalformed));
    assert_eq!(decode(vec![0xD0, 2, 0xC0, 0x80]), Err(CodecError::DecodeMalformed));
    assert_eq!(decode(vec![0xD0, 3, 0xED, 0xA0, 0x80]), Err(CodecError::DecodeMalformed));
    assert_eq!(decode(vec![0xD1, 0, 1, 0x80]), Err(CodecError::DecodeMalformed));
    assert_eq!(decode(vec![0xD2, 0, 0, 0, 2, b'a', 0xE2]), Err(CodecError::DecodeMalformed));
}

#[test]
fn valid_utf8_becomes_the_text_it_spells() {
    assert_eq!(
        decode(vec![0x82, 0xC3, 0xBC]),
        Ok(MessageValue::String("\u{00FC}".to_string()))
    );
    assert_eq!(
        decode(vec![0x84, 0xF0, 0x9F, 0x98, 0x80]),
        Ok(MessageValue::String("\u{1F600}".to_string()))
    );
    assert_eq!(
        text_value(vec![b'o', b'k', 0xE2, 0x82, 0xAC]),
        Ok(MessageValue::String("ok\u{20AC}".to_string()))
    );
    assert_eq!(text_value(vec![0xE2, 0x82]), Err(CodecError::DecodeMalformed));
    assert_eq!(text_value(Vec::new()), Ok(MessageValue::String(String::new())));
}

#[test]
fn structure_fields_decode_in_order() {
    let bytes = vec![0xB3, 0x7A, 0x01, 0x81, b'z', 0xB1, 0x05, 0xC3];
    let inner = MessageStructure::new(0x05, vec![MessageValue::Bool(true)]);
    let expected = MessageStructure::new(
        0x7A,
        vec![
            MessageValue::TinyInt(1),
            MessageValue::String("z".to_string()),
            MessageValue::Structure(inner),
        ],
    );
    assert_eq!(decode(bytes), Ok(MessageValue::Structure(expected)));
}

#[test]
fn structure_missing_its_tag_is_end_of_data() {
    assert_eq!(decode(vec![0xB0]), Err(CodecError::EndOfData));
    assert_eq!(decode_with_depth(vec![0xB0], 0), Err(CodecError::EndOfData));
    assert_eq!(decode(vec![0xB2, 0x01, 0xC0]), Err(CodecError::EndOfData));
}

fn nested(levels: usize) -> Vec<u8> {
    let mut bytes = Vec::new();
    for _ in 0..levels {
        bytes.push(0xB1);
        bytes.push(0x00);
    }
    bytes.push(0xC0);
    bytes
}

#[test]
fn nesting_is_bounded_by_the_depth_given() {
    assert_eq!(decode_with_depth(vec![0xC0], 0), Ok(MessageValue::Null));
    assert_eq!(decode_with_depth(vec![0xB0, 0x01], 0), Err(CodecError::DecodeMalformed));
    assert!(decode_with_depth(vec![0xB0, 0x01], 1).is_ok());
    assert!(decode_with_depth(nested(5), 5).is_ok());
    assert_eq!(decode_with_depth(nested(5), 4), Err(CodecError::DecodeMalformed));
    assert!(decode(nested(DEFAULT_MAX_DEPTH)).is_ok());
    assert_eq!(decode(nested(DEFAULT_MAX_DEPTH + 1)), Err(CodecError::DecodeMalformed));
    assert_eq!(decode(nested(100_000)), Err(CodecError::DecodeMalformed));
}

#[test]
fn first_failure_in_reading_order_is_reported() {
    // the first field is malformed, the second is cut short
    assert_eq!(decode(vec![0xB2, 0x01, 0xC5, 0xC9, 0x00]), Err(CodecError::DecodeMalformed));
    // the first field is cut short, no second field follows
    assert_eq!(decode(vec![0xB2, 0x01, 0xC9, 0x00]), Err(CodecError::EndOfData));
}

#[test]
fn unpack_takes_one_value_at_a_time() {
    let mut source = unpacker(vec![0x01, 0x81, b'a', 0xC9, 0x00, 0x80, 0xC0]);
    assert_eq!(source.unpack(), Ok(MessageValue::TinyInt(1)));
    assert_eq!(source.available(), 6);
    assert_eq!(source.unpack(), Ok(MessageValue::String("a".to_string())));
    assert_eq!(source.unpack(), Ok(MessageValue::SmallInt(128)));
    assert_eq!(source.available(), 1);
    assert_eq!(source.unpack(), Ok(MessageValue::Null));
    assert_eq!(source.available(), 0);
    assert_eq!(source.unpack(), Err(CodecError::EndOfData));
}

#[test]
fn failed_unpack_consumes_nothing() {
    let mut source = unpacker(vec![0x01, 0xB2, 0x09, 0xC0, 0xCA, 0x00]);
    assert_eq!(source.unpack(), Ok(MessageValue::TinyInt(1)));
    assert_eq!(source.unpack(), Err(CodecError::EndOfData));
    assert_eq!(source.available(), 5);
    assert_eq!(source.read_u8(), Ok(0xB2));
    assert_eq!(source.read(2), Ok(&[0x09u8, 0xC0][..]));
    assert_eq!(source.unpack(), Err(CodecError::EndOfData));
    assert_eq!(source.available(), 2);
}

#[test]
fn unpacker_reads_raw_bytes() {
    let mut source = unpacker(vec![1, 2, 3, 4, 5]);
    assert_eq!(source.read(2), Ok(&[1u8, 2][..]));
    assert_eq!(source.read_u8(), Ok(3));
    assert_eq!(source.read(3), Err(CodecError::EndOfData));
    assert_eq!(source.read(0), Ok(&[][..]));
    assert_eq!(source.read(2), Ok(&[4u8, 5][..]));
    assert_eq!(source.read_u8(), Err(CodecError::EndOfData));
    source.reset();
    assert_eq!(source.available(), 0);
    assert_eq!(source.read_u8(), Err(CodecError::EndOfData));
    let buffer = source.into_source();
    assert_eq!(buffer.available(), 0);
}

#[test]
fn structure_header_gives_size_and_tag() {
    let mut source = unpacker(vec![0xB3, 0x4E, 0xB0]);
    assert_eq!(source.unpack_structure_header(), Ok((3, 0x4E)));
    assert_eq!(source.available(), 1);
    assert_eq!(source.unpack_structure_header(), Err(CodecError::EndOfData));
    assert_eq!(source.available(), 1);
    let mut source = unpacker(vec![0xC0, 0x01]);
    assert_eq!(source.unpack_structure_header(), Err(CodecError::DecodeMalformed));
    assert_eq!(source.available(), 2);
    let mut source = unpacker(Vec::new());
    assert_eq!(source.unpack_structure_header(), Err(CodecError::EndOfData));
}

#[test]
fn structure_header_after_the_marker() {
    let mut source = unpacker(vec![0x11, 0x22]);
    assert_eq!(source._unpack_structure_header(0xBF), Ok((15, 0x11)));
    assert_eq!(source._unpack_structure_header(0xB0), Ok((0, 0x22)));
    assert_eq!(source._unpack_structure_header(0xB1), Err(CodecError::EndOfData));
    let mut source = unpacker(vec![0x11]);
    assert_eq!(source._unpack_structure_header(0xAF), Err(CodecError::DecodeMalformed));
    assert_eq!(source._unpack_structure_header(0xC0), Err(CodecError::DecodeMalformed));
    assert_eq!(source.available(), 1);
}

#[test]
fn depth_limit_of_an_unpacker() {
    let source = UnpackableBuffer::new(Some(vec![0xB1, 0x01, 0xB0, 0x02]));
    let mut shallow = Unpacker::with_max_depth(source, 1);
    assert_eq!(shallow.unpack(), Err(CodecError::DecodeMalformed));
    assert_eq!(shallow.available(), 4);
    let mut deep = Unpacker::with_max_depth(shallow.into_source(), 2);
    assert!(deep.unpack().is_ok());
    assert_eq!(deep.available(), 0);
}
