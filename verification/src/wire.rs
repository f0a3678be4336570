//! The wire grammar, stated over the models of values.
//!
//! `spec_pack` gives the bytes of a value and `spec_unpack` reads one value
//! off the front of a byte sequence. The executable encoder and decoder are
//! verified against these two functions.

use vstd::prelude::*;
use vstd::utf8::{decode_utf8, encode_utf8, valid_utf8};
use crate::endian::{be_bytes, be_value, to_signed, to_unsigned};
use crate::error::CodecError;
use crate::value::{StructureView, ValueView};

verus! {

pub const MARKER_NULL: u8 = 0xC0;

pub const MARKER_FLOAT: u8 = 0xC1;

pub const MARKER_FALSE: u8 = 0xC2;

pub const MARKER_TRUE: u8 = 0xC3;

pub const MARKER_INT_8: u8 = 0xC8;

pub const MARKER_INT_16: u8 = 0xC9;

pub const MARKER_INT_32: u8 = 0xCA;

pub const MARKER_INT_64: u8 = 0xCB;

pub const MARKER_BYTES_8: u8 = 0xCC;

pub const MARKER_BYTES_16: u8 = 0xCD;

pub const MARKER_BYTES_32: u8 = 0xCE;

pub const MARKER_STRING_8: u8 = 0xD0;

pub const MARKER_STRING_16: u8 = 0xD1;

pub const MARKER_STRING_32: u8 = 0xD2;

pub const MARKER_TINY_STRING: u8 = 0x80;

pub const MARKER_TINY_STRUCT: u8 = 0xB0;

pub const MARKER_END_OF_STREAM: u8 = 0xDF;

/// The largest number of fields that a structure marker can announce.
pub const MAX_FIELDS: usize = 15;

/// The largest length that a string or bytes header can announce.
pub const MAX_LENGTH: u64 = 0xFFFF_FFFF;

/// The header of a string whose UTF-8 form has `len` bytes, or `None` where no
/// header can express `len`.
pub open spec fn string_header(len: nat) -> Option<Seq<u8>> {
    if len <= 15 {
        Some(seq![(MARKER_TINY_STRING + len) as u8])
    } else if len <= 0xFF {
        Some(seq![MARKER_STRING_8] + be_bytes(len, 1))
    } else if len <= 0xFFFF {
        Some(seq![MARKER_STRING_16] + be_bytes(len, 2))
    } else if len <= MAX_LENGTH {
        Some(seq![MARKER_STRING_32] + be_bytes(len, 4))
    } else {
        None
    }
}

/// The header of a run of `len` raw bytes, or `None` where no header can
/// express `len`.
pub open spec fn bytes_header(len: nat) -> Option<Seq<u8>> {
    if len <= 0xFF {
        Some(seq![MARKER_BYTES_8] + be_bytes(len, 1))
    } else if len <= 0xFFFF {
        Some(seq![MARKER_BYTES_16] + be_bytes(len, 2))
    } else if len <= MAX_LENGTH {
        Some(seq![MARKER_BYTES_32] + be_bytes(len, 4))
    } else {
        None
    }
}

/// The marker and signature byte of a structure with `count` fields.
pub open spec fn struct_header(tag: u8, count: nat) -> Option<Seq<u8>> {
    if count <= MAX_FIELDS {
        Some(seq![(MARKER_TINY_STRUCT + count) as u8, tag])
    } else {
        None
    }
}

/// The bytes of a value, or `None` where the value has no encoding: a
/// structure with more than fifteen fields, or a length beyond the widest
/// header, anywhere inside it.
pub open spec fn spec_pack(value: ValueView) -> Option<Seq<u8>>
    decreases value, 0nat,
{
    match value {
        ValueView::Null => Some(seq![MARKER_NULL]),
        ValueView::Bool(b) => Some(
            seq![if b {
                MARKER_TRUE
            } else {
                MARKER_FALSE
            }],
        ),
        ValueView::Float(bits) => Some(seq![MARKER_FLOAT] + be_bytes(bits as nat, 8)),
        ValueView::TinyInt(i) => if i >= -16 {
            Some(seq![to_unsigned(i as int, 1) as u8])
        } else {
            Some(seq![MARKER_INT_8] + be_bytes(to_unsigned(i as int, 1), 1))
        },
        ValueView::SmallInt(i) => Some(seq![MARKER_INT_16] + be_bytes(to_unsigned(i as int, 2), 2)),
        ValueView::Int(i) => Some(seq![MARKER_INT_32] + be_bytes(to_unsigned(i as int, 4), 4)),
        ValueView::BigInt(i) => Some(seq![MARKER_INT_64] + be_bytes(to_unsigned(i as int, 8), 8)),
        ValueView::String(chars) => {
            let text = encode_utf8(chars);
            match string_header(text.len()) {
                Some(header) => Some(header + text),
                None => None,
            }
        },
        ValueView::Bytes(raw) => match bytes_header(raw.len()) {
            Some(header) => Some(header + raw),
            None => None,
        },
        ValueView::Structure(s) => match struct_header(s.tag, s.fields.len()) {
            Some(header) => match spec_pack_fields(s.fields, s.fields.len()) {
                Some(body) => Some(header + body),
                None => None,
            },
            None => None,
        },
    }
}

/// The bytes of the first `count` of `fields`, one after the other.
pub open spec fn spec_pack_fields(fields: Seq<ValueView>, count: nat) -> Option<Seq<u8>>
    decreases fields, count,
{
    if count == 0 || count > fields.len() {
        Some(Seq::empty())
    } else {
        match spec_pack_fields(fields, (count - 1) as nat) {
            Some(front) => match spec_pack(fields[count - 1]) {
                Some(last) => Some(front + last),
                None => None,
            },
            None => None,
        }
    }
}

/// Whether a value has an encoding: no structure inside it has more than
/// fifteen fields, and no string or byte run inside it is longer than four
/// length bytes can say.
pub open spec fn representable(value: ValueView) -> bool
    decreases value,
{
    match value {
        ValueView::String(chars) => encode_utf8(chars).len() <= MAX_LENGTH,
        ValueView::Bytes(raw) => raw.len() <= MAX_LENGTH,
        ValueView::Structure(s) => {
            &&& s.fields.len() <= MAX_FIELDS
            &&& forall|i: int| 0 <= i < s.fields.len() ==> representable(#[trigger] s.fields[i])
        },
        _ => true,
    }
}

/// How deeply structures nest inside a value: `0` for a scalar, and for a
/// structure one more than its deepest field.
pub open spec fn value_depth(value: ValueView) -> nat
    decreases value, 0nat,
{
    match value {
        ValueView::Structure(s) => 1 + fields_depth(s.fields, s.fields.len()),
        _ => 0,
    }
}

/// The depth of the deepest among the first `count` of `fields`.
pub open spec fn fields_depth(fields: Seq<ValueView>, count: nat) -> nat
    decreases fields, count,
{
    if count == 0 || count > fields.len() {
        0
    } else {
        let front = fields_depth(fields, (count - 1) as nat);
        let last = value_depth(fields[count - 1]);
        if front >= last {
            front
        } else {
            last
        }
    }
}

/// The number that the first `width` of `bytes` spell.
pub open spec fn spec_read_number(bytes: Seq<u8>, width: nat) -> Result<nat, CodecError> {
    if bytes.len() < width {
        Err(CodecError::EndOfData)
    } else {
        Ok(be_value(bytes.take(width as int)))
    }
}

/// The first `len` of `bytes`.
pub open spec fn spec_read_payload(bytes: Seq<u8>, len: nat) -> Result<Seq<u8>, CodecError> {
    if bytes.len() < len {
        Err(CodecError::EndOfData)
    } else {
        Ok(bytes.take(len as int))
    }
}

/// The payload that follows a `width`-byte length at the front of `bytes`,
/// with the number of bytes that length and payload take together.
pub open spec fn spec_unpack_sized(bytes: Seq<u8>, width: nat) -> Result<(Seq<u8>, nat), CodecError> {
    match spec_read_number(bytes, width) {
        Ok(len) => match spec_read_payload(bytes.skip(width as int), len) {
            Ok(payload) => Ok((payload, width + len)),
            Err(e) => Err(e),
        },
        Err(e) => Err(e),
    }
}

/// The string that a payload spells, where it is UTF-8.
pub open spec fn spec_text(payload: Seq<u8>) -> Result<ValueView, CodecError> {
    if valid_utf8(payload) {
        Ok(ValueView::String(decode_utf8(payload)))
    } else {
        Err(CodecError::DecodeMalformed)
    }
}

/// Whether `marker` alone is a small integer.
pub open spec fn is_tiny_int_marker(marker: u8) -> bool {
    marker <= 0x7F || marker >= 0xF0
}

/// Whether `marker` starts a string of at most fifteen bytes.
pub open spec fn is_tiny_string_marker(marker: u8) -> bool {
    MARKER_TINY_STRING <= marker <= 0x8F
}

/// Whether `marker` starts a structure.
pub open spec fn is_struct_marker(marker: u8) -> bool {
    MARKER_TINY_STRUCT <= marker <= 0xBF
}

/// Whether `marker` starts an integer of one, two, four or eight bytes.
pub open spec fn is_int_marker(marker: u8) -> bool {
    MARKER_INT_8 <= marker <= MARKER_INT_64
}

/// Whether `marker` starts a run of raw bytes.
pub open spec fn is_bytes_marker(marker: u8) -> bool {
    MARKER_BYTES_8 <= marker <= MARKER_BYTES_32
}

/// Whether `marker` starts a string with a length of its own.
pub open spec fn is_string_marker(marker: u8) -> bool {
    MARKER_STRING_8 <= marker <= MARKER_STRING_32
}

/// Whether no rule of the grammar starts with `marker`.
pub open spec fn is_reserved_marker(marker: u8) -> bool {
    ||| 0x90 <= marker <= 0xAF
    ||| 0xC4 <= marker <= 0xC7
    ||| marker == 0xCF
    ||| 0xD3 <= marker <= 0xEF
}

/// The number of bytes that follow an integer marker.
pub open spec fn int_width(marker: u8) -> nat {
    if marker == MARKER_INT_8 {
        1
    } else if marker == MARKER_INT_16 {
        2
    } else if marker == MARKER_INT_32 {
        4
    } else {
        8
    }
}

/// The number of length bytes that follow a string or bytes marker.
pub open spec fn length_width(marker: u8) -> nat {
    if marker == MARKER_BYTES_8 || marker == MARKER_STRING_8 {
        1
    } else if marker == MARKER_BYTES_16 || marker == MARKER_STRING_16 {
        2
    } else {
        4
    }
}

/// The integer value of the width that `marker` announces.
pub open spec fn int_value(marker: u8, i: int) -> ValueView {
    if marker == MARKER_INT_8 {
        ValueView::TinyInt(i as i8)
    } else if marker == MARKER_INT_16 {
        ValueView::SmallInt(i as i16)
    } else if marker == MARKER_INT_32 {
        ValueView::Int(i as i32)
    } else {
        ValueView::BigInt(i as i64)
    }
}

/// The integer that follows an integer marker, with the bytes it takes.
pub open spec fn spec_unpack_int(marker: u8, rest: Seq<u8>) -> Result<(ValueView, nat), CodecError> {
    match spec_read_number(rest, int_width(marker)) {
        Ok(n) => Ok((int_value(marker, to_signed(n, int_width(marker))), int_width(marker))),
        Err(e) => Err(e),
    }
}

/// The number that follows the float marker, with the bytes it takes.
pub open spec fn spec_unpack_float(rest: Seq<u8>) -> Result<(ValueView, nat), CodecError> {
    match spec_read_number(rest, 8) {
        Ok(bits) => Ok((ValueView::Float(bits as u64), 8)),
        Err(e) => Err(e),
    }
}

/// The string of `len` bytes at the front of `rest`.
pub open spec fn spec_unpack_tiny_string(rest: Seq<u8>, len: nat) -> Result<
    (ValueView, nat),
    CodecError,
> {
    match spec_read_payload(rest, len) {
        Ok(payload) => match spec_text(payload) {
            Ok(v) => Ok((v, len)),
            Err(e) => Err(e),
        },
        Err(e) => Err(e),
    }
}

/// The string that follows a string marker: a length of `width` bytes, then
/// the text.
pub open spec fn spec_unpack_string(rest: Seq<u8>, width: nat) -> Result<
    (ValueView, nat),
    CodecError,
> {
    match spec_unpack_sized(rest, width) {
        Ok((payload, used)) => match spec_text(payload) {
            Ok(v) => Ok((v, used)),
            Err(e) => Err(e),
        },
        Err(e) => Err(e),
    }
}

/// The raw bytes that follow a bytes marker: a length of `width` bytes, then
/// the run.
pub open spec fn spec_unpack_bytes(rest: Seq<u8>, width: nat) -> Result<
    (ValueView, nat),
    CodecError,
> {
    match spec_unpack_sized(rest, width) {
        Ok((payload, used)) => Ok((ValueView::Bytes(payload), used)),
        Err(e) => Err(e),
    }
}

/// Reads one value off the front of `bytes`, with structures nested at most
/// `depth` deep. Gives the value and the number of bytes it took.
pub open spec fn spec_unpack(bytes: Seq<u8>, depth: nat) -> Result<(ValueView, nat), CodecError>
    decreases depth, 2nat,
{
    if bytes.len() == 0 {
        Err(CodecError::EndOfData)
    } else {
        match spec_unpack_marked(bytes[0], bytes.skip(1), depth) {
            Ok((value, used)) => Ok((value, 1 + used)),
            Err(e) => Err(e),
        }
    }
}

/// Reads what follows `marker`: the value that marker and `rest` spell, and
/// the number of bytes of `rest` it took.
pub open spec fn spec_unpack_marked(marker: u8, rest: Seq<u8>, depth: nat) -> Result<
    (ValueView, nat),
    CodecError,
>
    decreases depth, 1nat,
{
    if is_tiny_int_marker(marker) {
        Ok((ValueView::TinyInt(to_signed(marker as nat, 1) as i8), 0))
    } else if is_tiny_string_marker(marker) {
        spec_unpack_tiny_string(rest, (marker - MARKER_TINY_STRING) as nat)
    } else if is_struct_marker(marker) {
        spec_unpack_struct((marker - MARKER_TINY_STRUCT) as nat, rest, depth)
    } else if marker == MARKER_NULL {
        Ok((ValueView::Null, 0))
    } else if marker == MARKER_FALSE {
        Ok((ValueView::Bool(false), 0))
    } else if marker == MARKER_TRUE {
        Ok((ValueView::Bool(true), 0))
    } else if marker == MARKER_FLOAT {
        spec_unpack_float(rest)
    } else if is_int_marker(marker) {
        spec_unpack_int(marker, rest)
    } else if is_bytes_marker(marker) {
        spec_unpack_bytes(rest, length_width(marker))
    } else if is_string_marker(marker) {
        spec_unpack_string(rest, length_width(marker))
    } else {
        Err(CodecError::DecodeMalformed)
    }
}

/// Reads what follows the marker of a structure with `count` fields: the
/// signature byte and the fields. A structure is refused where `depth` is
/// `0`.
pub open spec fn spec_unpack_struct(count: nat, rest: Seq<u8>, depth: nat) -> Result<
    (ValueView, nat),
    CodecError,
>
    decreases depth, 0nat,
{
    if rest.len() == 0 {
        Err(CodecError::EndOfData)
    } else if depth == 0 {
        Err(CodecError::DecodeMalformed)
    } else {
        match spec_unpack_fields(rest.skip(1), count, (depth - 1) as nat) {
            Ok((fields, used)) => Ok(
                (ValueView::Structure(StructureView { tag: rest[0], fields }), 1 + used),
            ),
            Err(e) => Err(e),
        }
    }
}

/// Reads `count` values off the front of `bytes`, one after the other, each
/// nested at most `depth` deep.
pub open spec fn spec_unpack_fields(bytes: Seq<u8>, count: nat, depth: nat) -> Result<
    (Seq<ValueView>, nat),
    CodecError,
>
    decreases depth, count + 3,
{
    if count == 0 {
        Ok((Seq::empty(), 0))
    } else {
        match spec_unpack(bytes, depth) {
            Ok((first, used)) => match spec_unpack_fields(
                bytes.skip(used as int),
                (count - 1) as nat,
                depth,
            ) {
                Ok((rest, more)) => Ok((seq![first] + rest, used + more)),
                Err(e) => Err(e),
            },
            Err(e) => Err(e),
        }
    }
}

/// The bytes of a message: `spec_pack` under the name that the library's
/// surface uses.
pub open spec fn spec_encode(value: ValueView) -> Option<Seq<u8>> {
    spec_pack(value)
}

/// The one value that `bytes` hold. Bytes left over after the value make the
/// message malformed.
pub open spec fn spec_decode(bytes: Seq<u8>, depth: nat) -> Result<ValueView, CodecError> {
    match spec_unpack(bytes, depth) {
        Ok((value, used)) => if used == bytes.len() {
            Ok(value)
        } else {
            Err(CodecError::DecodeMalformed)
        },
        Err(e) => Err(e),
    }
}

} // verus!
