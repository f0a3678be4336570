use packstream::buffer::MessageBuffer;
use packstream::codec::{decode, decode_with_depth, encode};
use packstream::error::CodecError;
use packstream::packer::Packer;
use packstream::value::{MessageStructure, MessageValue};

fn text(len: usize) -> String {
    let mut s = String::new();
    for i in 0..len {
        s.push((b'a' + (i % 26) as u8) as char);
    }
    s
}

fn raw(len: usize) -> Vec<u8> {
    let mut v = Vec::new();
    for i in 0..len {
        v.push((i % 251) as u8);
    }
    v
}

fn nulls(count: usize) -> Vec<MessageValue> {
    let mut v = Vec::new();
    for _ in 0..count {
        v.push(MessageValue::Null);
    }
    v
}

fn packed(value: MessageValue) -> Vec<u8> {
    let mut packer = Packer::new(MessageBuffer::new(16));
    assert_eq!(packer.pack(value), Ok(()));
    packer.into_stream().into_bytes()
}

#[test]
fn tiny_int_100_is_one_byte() {
    assert_eq!(encode(MessageValue::TinyInt(100)), Ok(vec![0x64]));
    assert_eq!(decode(vec![0x64]), Ok(MessageValue::TinyInt(100)));
}

#[test]
fn tiny_int_minus_5_is_one_byte() {
    assert_eq!(encode(MessageValue::TinyInt(-5)), Ok(vec![0xFB]));
    assert_eq!(decode(vec![0xFB]), Ok(MessageValue::TinyInt(-5)));
}

#[test]
fn string_abc_has_tiny_header() {
    assert_eq!(
        encode(MessageValue::String("abc".to_string())),
        Ok(vec![0x83, b'a', b'b', b'c'])
    );
}

#[test]
fn structure_with_int_field() {
    let s = MessageStructure::new(0x01, vec![MessageValue::Int(42)]);
    assert_eq!(
        encode(MessageValue::Structure(s)),
        Ok(vec![0xB1, 0x01, 0xCA, 0x00, 0x00, 0x00, 0x2A])
    );
}

#[test]
fn null_and_bools_are_single_markers() {
    assert_eq!(encode(MessageValue::Null), Ok(vec![0xC0]));
    assert_eq!(encode(MessageValue::Bool(false)), Ok(vec![0xC2]));
    assert_eq!(encode(MessageValue::Bool(true)), Ok(vec![0xC3]));
}

#[test]
fn float_is_marker_and_eight_bytes() {
    let one = 1.0f64.to_bits();
    assert_eq!(
        encode(MessageValue::Float(one)),
        Ok(vec![0xC1, 0x3F, 0xF0, 0, 0, 0, 0, 0, 0])
    );
    let value = (-2.5f64).to_bits();
    let bytes = encode(MessageValue::Float(value)).unwrap();
    assert_eq!(bytes, vec![0xC1, 0xC0, 0x04, 0, 0, 0, 0, 0, 0]);
    match decode(bytes) {
        Ok(MessageValue::Float(bits)) => assert_eq!(f64::from_bits(bits), -2.5),
        other => panic!("unexpected {:?}", other),
    }
}

#[test]
fn tiny_int_boundary_at_minus_16() {
    assert_eq!(encode(MessageValue::TinyInt(-16)), Ok(vec![0xF0]));
    assert_eq!(encode(MessageValue::TinyInt(-17)), Ok(vec![0xC8, 0xEF]));
    assert_eq!(encode(MessageValue::TinyInt(-128)), Ok(vec![0xC8, 0x80]));
    assert_eq!(encode(MessageValue::TinyInt(-1)), Ok(vec![0xFF]));
    assert_eq!(encode(MessageValue::TinyInt(0)), Ok(vec![0x00]));
}

#[test]
fn tiny_int_boundary_at_127() {
    assert_eq!(encode(MessageValue::TinyInt(127)), Ok(vec![0x7F]));
    assert_eq!(encode(MessageValue::SmallInt(128)), Ok(vec![0xC9, 0x00, 0x80]));
}

#[test]
fn wider_integers_keep_their_width() {
    assert_eq!(encode(MessageValue::SmallInt(-2)), Ok(vec![0xC9, 0xFF, 0xFE]));
    assert_eq!(encode(MessageValue::SmallInt(i16::MIN)), Ok(vec![0xC9, 0x80, 0x00]));
    assert_eq!(encode(MessageValue::SmallInt(i16::MAX)), Ok(vec![0xC9, 0x7F, 0xFF]));
    assert_eq!(encode(MessageValue::Int(-1)), Ok(vec![0xCA, 0xFF, 0xFF, 0xFF, 0xFF]));
    assert_eq!(
        encode(MessageValue::Int(0x01020304)),
        Ok(vec![0xCA, 0x01, 0x02, 0x03, 0x04])
    );
    assert_eq!(encode(MessageValue::Int(i32::MIN)), Ok(vec![0xCA, 0x80, 0, 0, 0]));
    assert_eq!(
        encode(MessageValue::BigInt(0x0102030405060708)),
        Ok(vec![0xCB, 1, 2, 3, 4, 5, 6, 7, 8])
    );
    assert_eq!(
        encode(MessageValue::BigInt(i64::MIN)),
        Ok(vec![0xCB, 0x80, 0, 0, 0, 0, 0, 0, 0])
    );
    assert_eq!(
        encode(MessageValue::BigInt(-1)),
        Ok(vec![0xCB, 0xFF, 0xFF, 0xFF, 0xFF, 0xFF, 0xFF, 0xFF, 0xFF])
    );
}

#[test]
fn string_header_boundary_15_16() {
    let short = encode(MessageValue::String(text(15))).unwrap();
    assert_eq!(short[0], 0x8F);
    assert_eq!(short.len(), 1 + 15);
    let long = encode(MessageValue::String(text(16))).unwrap();
    assert_eq!(&long[..2], &[0xD0, 0x10]);
    assert_eq!(long.len(), 2 + 16);
    assert_eq!(&long[2..], text(16).as_bytes());
}

#[test]
fn string_header_boundary_255_256() {
    let short = encode(MessageValue::String(text(255))).unwrap();
    assert_eq!(&short[..2], &[0xD0, 0xFF]);
    assert_eq!(short.len(), 2 + 255);
    let long = encode(MessageValue::String(text(256))).unwrap();
    assert_eq!(&long[..3], &[0xD1, 0x01, 0x00]);
    assert_eq!(long.len(), 3 + 256);
}

#[test]
fn string_header_boundary_65535_65536() {
    let short = encode(MessageValue::String(text(65535))).unwrap();
    assert_eq!(&short[..3], &[0xD1, 0xFF, 0xFF]);
    assert_eq!(short.len(), 3 + 65535);
    let long = encode(MessageValue::String(text(65536))).unwrap();
    assert_eq!(&long[..5], &[0xD2, 0x00, 0x01, 0x00, 0x00]);
    assert_eq!(long.len(), 5 + 65536);
    assert_eq!(decode(long), Ok(MessageValue::String(text(65536))));
}

#[test]
fn empty_string_is_marker_only() {
    assert_eq!(encode(MessageValue::String(String::new())), Ok(vec![0x80]));
    assert_eq!(decode(vec![0x80]), Ok(MessageValue::String(String::new())));
}

#[test]
fn string_length_counts_utf8_bytes() {
    // five characters, fifteen bytes, the sixteenth byte tips the header
    let fifteen = "\u{20AC}".repeat(5);
    let bytes = encode(MessageValue::String(fifteen.clone())).unwrap();
    assert_eq!(bytes[0], 0x8F);
    assert_eq!(&bytes[1..], fifteen.as_bytes());
    let sixteen = format!("{}a", fifteen);
    let bytes = encode(MessageValue::String(sixteen.clone())).unwrap();
    assert_eq!(&bytes[..2], &[0xD0, 16]);
    assert_eq!(decode(bytes), Ok(MessageValue::String(sixteen)));
}

#[test]
fn bytes_header_boundary_255_256() {
    assert_eq!(encode(MessageValue::Bytes(Vec::new())), Ok(vec![0xCC, 0x00]));
    assert_eq!(encode(MessageValue::Bytes(vec![7, 8])), Ok(vec![0xCC, 0x02, 7, 8]));
    let short = encode(MessageValue::Bytes(raw(255))).unwrap();
    assert_eq!(&short[..2], &[0xCC, 0xFF]);
    assert_eq!(short.len(), 2 + 255);
    let long = encode(MessageValue::Bytes(raw(256))).unwrap();
    assert_eq!(&long[..3], &[0xCD, 0x01, 0x00]);
    assert_eq!(long.len(), 3 + 256);
    assert_eq!(&long[3..], &raw(256)[..]);
}

#[test]
fn bytes_header_boundary_65535_65536() {
    let short = encode(MessageValue::Bytes(raw(65535))).unwrap();
    assert_eq!(&short[..3], &[0xCD, 0xFF, 0xFF]);
    assert_eq!(short.len(), 3 + 65535);
    let long = encode(MessageValue::Bytes(raw(65536))).unwrap();
    assert_eq!(&long[..5], &[0xCE, 0x00, 0x01, 0x00, 0x00]);
    assert_eq!(long.len(), 5 + 65536);
    assert_eq!(decode(long), Ok(MessageValue::Bytes(raw(65536))));
}

#[test]
fn structure_with_no_fields() {
    let s = MessageStructure::new(0x70, Vec::new());
    let bytes = encode(MessageValue::Structure(s.clone())).unwrap();
    assert_eq!(bytes, vec![0xB0, 0x70]);
    assert_eq!(decode(bytes), Ok(MessageValue::Structure(s)));
}

#[test]
fn structure_with_fifteen_fields() {
    let s = MessageStructure::new(0x10, nulls(15));
    let bytes = encode(MessageValue::Structure(s.clone())).unwrap();
    let mut expected = vec![0xBF, 0x10];
    expected.extend(vec![0xC0; 15]);
    assert_eq!(bytes, expected);
    assert_eq!(decode(bytes), Ok(MessageValue::Structure(s)));
}

#[test]
fn structure_with_sixteen_fields_overflows() {
    let s = MessageStructure::new(0x10, nulls(16));
    assert_eq!(encode(MessageValue::Structure(s)), Err(CodecError::EncodeOverflow));
}

#[test]
fn overflow_inside_a_field_fails_the_whole_value() {
    let inner = MessageStructure::new(2, nulls(16));
    let outer = MessageStructure::new(
        1,
        vec![MessageValue::TinyInt(1), MessageValue::Structure(inner), MessageValue::Null],
    );
    assert_eq!(encode(MessageValue::Structure(outer)), Err(CodecError::EncodeOverflow));
}

#[test]
fn failed_pack_leaves_the_sink_as_it_was() {
    let mut packer = Packer::new(MessageBuffer::new(4));
    assert_eq!(packer.pack(MessageValue::TinyInt(1)), Ok(()));
    let inner = MessageStructure::new(2, nulls(16));
    let outer = MessageStructure::new(
        1,
        vec![MessageValue::String("kept?".to_string()), MessageValue::Structure(inner)],
    );
    assert_eq!(packer.pack(MessageValue::Structure(outer)), Err(CodecError::EncodeOverflow));
    assert_eq!(packer.pack(MessageValue::TinyInt(2)), Ok(()));
    assert_eq!(packer.into_stream().into_bytes(), vec![0x01, 0x02]);
}

#[test]
fn pack_appends_in_call_order() {
    let mut packer = Packer::new(MessageBuffer::new(0));
    assert_eq!(packer.pack(MessageValue::Bool(true)), Ok(()));
    assert_eq!(packer.pack(MessageValue::String("hi".to_string())), Ok(()));
    assert_eq!(packer.pack(MessageValue::SmallInt(300)), Ok(()));
    assert_eq!(
        packer.into_stream().into_bytes(),
        vec![0xC3, 0x82, b'h', b'i', 0xC9, 0x01, 0x2C]
    );
}

#[test]
fn sink_grows_past_its_first_capacity() {
    let mut packer = Packer::new(MessageBuffer::new(2));
    assert_eq!(packer.pack(MessageValue::Bytes(raw(5000))), Ok(()));
    let bytes = packer.into_stream().into_bytes();
    assert_eq!(bytes.len(), 3 + 5000);
    assert_eq!(&bytes[3..], &raw(5000)[..]);
}

#[test]
fn message_buffer_appends_everything() {
    let mut sink = MessageBuffer::new(1);
    assert_eq!(sink.try_write(&[1, 2, 3]), Ok(3));
    assert_eq!(sink.try_write(&[]), Ok(0));
    assert_eq!(sink.try_write(&[4]), Ok(1));
    assert_eq!(sink.len(), 4);
    sink.truncate(3);
    assert_eq!(sink.into_bytes(), vec![1, 2, 3]);
}

#[test]
fn sink_is_sized_when_made_and_grows_when_full() {
    let mut sink = MessageBuffer::new(4);
    assert_eq!(sink.capacity(), 4);
    assert_eq!(sink.len(), 0);
    assert_eq!(sink.try_write(&[1, 2, 3]), Ok(3));
    assert_eq!(sink.capacity(), 4);
    assert_eq!(sink.try_write(&[4]), Ok(1));
    assert_eq!(sink.capacity(), 4);
    assert_eq!(sink.try_write(&[5, 6, 7]), Ok(3));
    assert_eq!(sink.capacity(), 7);
    assert_eq!(sink.len(), 7);
    sink.truncate(2);
    assert_eq!(sink.capacity(), 7);
    assert_eq!(sink.try_write(&[9]), Ok(1));
    assert_eq!(sink.capacity(), 7);
    assert_eq!(sink.into_bytes(), vec![1, 2, 9]);
}

#[test]
fn sink_of_no_capacity_takes_everything() {
    let mut sink = MessageBuffer::new(0);
    assert_eq!(sink.capacity(), 0);
    assert_eq!(sink.into_bytes(), Vec::<u8>::new());
    let mut sink = MessageBuffer::new(0);
    assert_eq!(sink.try_write(&[7; 300]), Ok(300));
    assert_eq!(sink.capacity(), 300);
    assert_eq!(sink.into_bytes(), vec![7; 300]);
    let unused = MessageBuffer::new(8192);
    assert_eq!(unused.capacity(), 8192);
    assert_eq!(unused.into_bytes(), Vec::<u8>::new());
}

#[test]
fn string_headers_by_length() {
    let cases: Vec<(usize, Vec<u8>)> = vec![
        (0, vec![0x80]),
        (1, vec![0x81]),
        (15, vec![0x8F]),
        (16, vec![0xD0, 0x10]),
        (255, vec![0xD0, 0xFF]),
        (256, vec![0xD1, 0x01, 0x00]),
        (65535, vec![0xD1, 0xFF, 0xFF]),
        (65536, vec![0xD2, 0x00, 0x01, 0x00, 0x00]),
        (0xFFFF_FFFF, vec![0xD2, 0xFF, 0xFF, 0xFF, 0xFF]),
    ];
    for (length, expected) in cases {
        let mut packer = Packer::new(MessageBuffer::new(8));
        assert_eq!(packer.pack_string_header(length), Ok(()));
        assert_eq!(packer.into_stream().into_bytes(), expected);
    }
}

#[test]
fn bytes_headers_by_length() {
    let cases: Vec<(usize, Vec<u8>)> = vec![
        (0, vec![0xCC, 0x00]),
        (255, vec![0xCC, 0xFF]),
        (256, vec![0xCD, 0x01, 0x00]),
        (65535, vec![0xCD, 0xFF, 0xFF]),
        (65536, vec![0xCE, 0x00, 0x01, 0x00, 0x00]),
        (0xFFFF_FFFF, vec![0xCE, 0xFF, 0xFF, 0xFF, 0xFF]),
    ];
    for (length, expected) in cases {
        let mut packer = Packer::new(MessageBuffer::new(8));
        assert_eq!(packer.pack_bytes_header(length), Ok(()));
        assert_eq!(packer.into_stream().into_bytes(), expected);
    }
}

#[test]
fn headers_beyond_four_length_bytes_overflow() {
    let too_long = (0xFFFF_FFFFu64 + 1) as usize;
    if too_long as u64 == 0x1_0000_0000 {
        let mut packer = Packer::new(MessageBuffer::new(8));
        assert_eq!(packer.pack_raw(&[9]), Ok(()));
        assert_eq!(packer.pack_string_header(too_long), Err(CodecError::EncodeOverflow));
        assert_eq!(packer.pack_bytes_header(too_long), Err(CodecError::EncodeOverflow));
        assert_eq!(packer.into_stream().into_bytes(), vec![9]);
    }
}

#[test]
fn pack_struct_writes_marker_tag_and_fields() {
    let mut packer = Packer::new(MessageBuffer::new(8));
    assert_eq!(
        packer.pack_struct(0x44, vec![MessageValue::TinyInt(3), MessageValue::Null]),
        Ok(())
    );
    assert_eq!(packer.pack_struct(0x45, nulls(16)), Err(CodecError::EncodeOverflow));
    assert_eq!(packer.into_stream().into_bytes(), vec![0xB2, 0x44, 0x03, 0xC0]);
}

#[test]
fn raw_bytes_and_end_of_stream() {
    let mut packer = Packer::new(MessageBuffer::new(8));
    assert_eq!(packer.pack_raw(&[0xAA, 0xBB]), Ok(()));
    assert_eq!(packer.pack_end_of_stream(), Ok(()));
    assert_eq!(packer.into_stream().into_bytes(), vec![0xAA, 0xBB, 0xDF]);
}

#[test]
fn encode_and_pack_agree() {
    let value = MessageValue::Structure(MessageStructure::new(
        9,
        vec![MessageValue::BigInt(-7), MessageValue::String("x".to_string())],
    ));
    assert_eq!(encode(value.clone()).unwrap(), packed(value));
}

fn sample(depth: usize) -> MessageValue {
    let mut fields = vec![
        MessageValue::String("name".to_string()),
        MessageValue::Bytes(vec![0, 255, 128]),
        MessageValue::TinyInt(-17),
        MessageValue::TinyInt(-16),
        MessageValue::SmallInt(-300),
        MessageValue::Int(70000),
        MessageValue::BigInt(-5_000_000_000),
        MessageValue::Float(3.5f64.to_bits()),
        MessageValue::Float(f64::NAN.to_bits()),
        MessageValue::Bool(true),
        MessageValue::Bool(false),
        MessageValue::Null,
        MessageValue::String("gr\u{00FC}\u{00DF}e \u{1F600}".to_string()),
    ];
    if depth > 0 {
        fields.push(sample(depth - 1));
    }
    MessageValue::Structure(MessageStructure::new(depth as u8, fields))
}

#[test]
fn round_trip_of_nested_values() {
    for depth in 0..6 {
        let value = sample(depth);
        let bytes = encode(value.clone()).unwrap();
        assert_eq!(decode(bytes), Ok(value));
    }
}

#[test]
fn round_trip_of_every_one_byte_integer() {
    for i in i8::MIN..=i8::MAX {
        let bytes = encode(MessageValue::TinyInt(i)).unwrap();
        assert_eq!(bytes.len(), if i >= -16 { 1 } else { 2 });
        assert_eq!(decode(bytes), Ok(MessageValue::TinyInt(i)));
    }
}

#[test]
fn round_trip_needs_enough_depth() {
    let value = sample(3);
    let bytes = encode(value.clone()).unwrap();
    assert_eq!(decode_with_depth(bytes.clone(), 4), Ok(value));
    assert_eq!(decode_with_depth(bytes, 3), Err(CodecError::DecodeMalformed));
}
