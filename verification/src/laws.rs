//! What holds of the wire grammar and of the chunk framing as a whole.

use vstd::prelude::*;
use vstd::utf8::{encode_utf8, encode_utf8_decode_utf8, encode_utf8_valid_utf8};
use crate::endian::{
    be_bytes, be_value, lemma_be_bytes_len, lemma_be_round_trip, lemma_radix_values, radix,
    to_signed, to_unsigned,
};
use crate::error::CodecError;
use crate::frame::{
    spec_accept, spec_accept_all, spec_concat, spec_frame, spec_read_message, spec_reads,
    spec_reassemble, spec_split, spec_write_message, valid_chunks, AssemblerView, MAX_CHUNK,
};
use crate::value::ValueView;
use crate::wire::{
    fields_depth, is_reserved_marker, is_string_marker, is_struct_marker, is_tiny_int_marker,
    is_tiny_string_marker, length_width, representable, spec_decode, spec_encode, spec_pack,
    spec_pack_fields, spec_read_number, spec_read_payload, spec_unpack, spec_unpack_fields,
    spec_unpack_sized, spec_unpack_struct, string_header, value_depth, MARKER_FLOAT,
    MARKER_INT_16, MARKER_INT_32, MARKER_INT_64, MARKER_INT_8, MARKER_TINY_STRING,
    MARKER_TINY_STRUCT,
};

verus! {

/// A number written in `width` bytes is read back from the front of what
/// follows, and the rest is left.
pub proof fn lemma_read_number_written(n: nat, width: nat, tail: Seq<u8>)
    requires
        n < radix(width),
    ensures
        be_bytes(n, width).len() == width,
        spec_read_number(be_bytes(n, width) + tail, width) == Ok::<nat, CodecError>(n),
        (be_bytes(n, width) + tail).skip(width as int) == tail,
{
    lemma_be_bytes_len(n, width);
    lemma_be_round_trip(n, width);
    assert((be_bytes(n, width) + tail).take(width as int) =~= be_bytes(n, width));
    assert((be_bytes(n, width) + tail).skip(width as int) =~= tail);
}

/// A payload written behind its length in `width` bytes is read back whole.
pub proof fn lemma_unpack_sized_written(payload: Seq<u8>, width: nat, tail: Seq<u8>)
    requires
        payload.len() < radix(width),
    ensures
        spec_unpack_sized(be_bytes(payload.len(), width) + payload + tail, width) == Ok::<
            (Seq<u8>, nat),
            CodecError,
        >((payload, width + payload.len())),
{
    let len = payload.len();
    lemma_read_number_written(len, width, payload + tail);
    assert(be_bytes(len, width) + payload + tail =~= be_bytes(len, width) + (payload + tail));
    assert((payload + tail).take(len as int) =~= payload);
}

/// What `spec_unpack` takes lies within the bytes it was given.
pub proof fn lemma_unpack_within(bytes: Seq<u8>, depth: nat)
    requires
        spec_unpack(bytes, depth) is Ok,
    ensures
        spec_unpack(bytes, depth)->Ok_0.1 <= bytes.len(),
    decreases depth, 2nat,
{
    let marker = bytes[0];
    let rest = bytes.skip(1);
    if is_struct_marker(marker) && !is_tiny_int_marker(marker)
        && !is_tiny_string_marker(marker) {
        lemma_unpack_fields_within(
            rest.skip(1),
            (marker - MARKER_TINY_STRUCT) as nat,
            (depth - 1) as nat,
        );
    }
}

/// What `spec_unpack_fields` takes lies within the bytes it was given.
pub proof fn lemma_unpack_fields_within(bytes: Seq<u8>, count: nat, depth: nat)
    requires
        spec_unpack_fields(bytes, count, depth) is Ok,
    ensures
        spec_unpack_fields(bytes, count, depth)->Ok_0.1 <= bytes.len(),
        spec_unpack_fields(bytes, count, depth)->Ok_0.0.len() == count,
    decreases depth, count + 3,
{
    if count > 0 {
        lemma_unpack_within(bytes, depth);
        let used = spec_unpack(bytes, depth)->Ok_0.1;
        lemma_unpack_fields_within(bytes.skip(used as int), (count - 1) as nat, depth);
    }
}

/// Reading `count` values and then one more is reading `count + 1` values.
pub proof fn lemma_unpack_fields_snoc(bytes: Seq<u8>, count: nat, depth: nat)
    requires
        spec_unpack_fields(bytes, count, depth) is Ok,
        spec_unpack(bytes.skip(spec_unpack_fields(bytes, count, depth)->Ok_0.1 as int), depth) is Ok,
    ensures
        ({
            let (values, used) = spec_unpack_fields(bytes, count, depth)->Ok_0;
            let (last, more) = spec_unpack(bytes.skip(used as int), depth)->Ok_0;
            spec_unpack_fields(bytes, count + 1, depth) == Ok::<(Seq<ValueView>, nat), CodecError>(
                (values.push(last), used + more),
            )
        }),
    decreases count,
{
    reveal_with_fuel(spec_unpack_fields, 2);
    let (values, used) = spec_unpack_fields(bytes, count, depth)->Ok_0;
    let (last, more) = spec_unpack(bytes.skip(used as int), depth)->Ok_0;
    if count == 0 {
        assert(bytes.skip(0) =~= bytes);
        assert(seq![last] + Seq::<ValueView>::empty() =~= values.push(last));
    } else {
        let (first, taken) = spec_unpack(bytes, depth)->Ok_0;
        let after = bytes.skip(taken as int);
        let (middle, further) = spec_unpack_fields(after, (count - 1) as nat, depth)->Ok_0;
        lemma_unpack_within(bytes, depth);
        lemma_unpack_fields_within(after, (count - 1) as nat, depth);
        assert(after.skip(further as int) =~= bytes.skip(used as int));
        lemma_unpack_fields_snoc(after, (count - 1) as nat, depth);
        assert(seq![first] + middle.push(last) =~= values.push(last));
    }
}

/// A marker, a number in `width` bytes and whatever follows: the number is
/// read back from behind the marker.
proof fn lemma_marked_number(marker: u8, n: nat, width: nat, tail: Seq<u8>)
    requires
        n < radix(width),
    ensures
        ({
            let bytes = seq![marker] + be_bytes(n, width) + tail;
            &&& bytes.len() == 1 + width + tail.len()
            &&& bytes[0] == marker
            &&& spec_read_number(bytes.skip(1), width) == Ok::<nat, CodecError>(n)
        }),
{
    let bytes = seq![marker] + be_bytes(n, width) + tail;
    lemma_read_number_written(n, width, tail);
    assert(bytes.skip(1) =~= be_bytes(n, width) + tail);
}

/// Round trip, with bytes behind, for floats.
proof fn lemma_unpack_packed_float(bits: u64, tail: Seq<u8>, depth: nat)
    ensures
        spec_unpack(spec_pack(ValueView::Float(bits))->0 + tail, depth) == Ok::<(ValueView, nat), CodecError>(
            (ValueView::Float(bits), spec_pack(ValueView::Float(bits))->0.len()),
        ),
{
    lemma_radix_values();
    lemma_marked_number(MARKER_FLOAT, bits as nat, 8, tail);
}

/// Round trip, with bytes behind, for the integers of one byte.
proof fn lemma_unpack_packed_tiny_int(i: i8, tail: Seq<u8>, depth: nat)
    ensures
        spec_unpack(spec_pack(ValueView::TinyInt(i))->0 + tail, depth) == Ok::<(ValueView, nat), CodecError>(
            (ValueView::TinyInt(i), spec_pack(ValueView::TinyInt(i))->0.len()),
        ),
{
    lemma_radix_values();
    let pattern = to_unsigned(i as int, 1);
    if i >= -16 {
        let bytes = seq![pattern as u8] + tail;
        assert(bytes[0] == pattern);
        assert(to_signed(pattern, 1) == i);
    } else {
        lemma_marked_number(MARKER_INT_8, pattern, 1, tail);
        assert(to_signed(pattern, 1) == i);
    }
}

/// Round trip, with bytes behind, for the integers of two bytes.
proof fn lemma_unpack_packed_small_int(i: i16, tail: Seq<u8>, depth: nat)
    ensures
        spec_unpack(spec_pack(ValueView::SmallInt(i))->0 + tail, depth) == Ok::<(ValueView, nat), CodecError>(
            (ValueView::SmallInt(i), spec_pack(ValueView::SmallInt(i))->0.len()),
        ),
{
    lemma_radix_values();
    let pattern = to_unsigned(i as int, 2);
    lemma_marked_number(MARKER_INT_16, pattern, 2, tail);
    assert(to_signed(pattern, 2) == i);
}

/// Round trip, with bytes behind, for the integers of four bytes.
proof fn lemma_unpack_packed_int(i: i32, tail: Seq<u8>, depth: nat)
    ensures
        spec_unpack(spec_pack(ValueView::Int(i))->0 + tail, depth) == Ok::<(ValueView, nat), CodecError>(
            (ValueView::Int(i), spec_pack(ValueView::Int(i))->0.len()),
        ),
{
    lemma_radix_values();
    let pattern = to_unsigned(i as int, 4);
    lemma_marked_number(MARKER_INT_32, pattern, 4, tail);
    assert(to_signed(pattern, 4) == i);
}

/// Round trip, with bytes behind, for the integers of eight bytes.
proof fn lemma_unpack_packed_big_int(i: i64, tail: Seq<u8>, depth: nat)
    ensures
        spec_unpack(spec_pack(ValueView::BigInt(i))->0 + tail, depth) == Ok::<(ValueView, nat), CodecError>(
            (ValueView::BigInt(i), spec_pack(ValueView::BigInt(i))->0.len()),
        ),
{
    lemma_radix_values();
    let pattern = to_unsigned(i as int, 8);
    lemma_marked_number(MARKER_INT_64, pattern, 8, tail);
    assert(to_signed(pattern, 8) == i);
}

/// Round trip, with bytes behind, for strings.
proof fn lemma_unpack_packed_string(chars: Seq<char>, tail: Seq<u8>, depth: nat)
    requires
        spec_pack(ValueView::String(chars)) is Some,
    ensures
        spec_unpack(spec_pack(ValueView::String(chars))->0 + tail, depth) == Ok::<
            (ValueView, nat),
            CodecError,
        >((ValueView::String(chars), spec_pack(ValueView::String(chars))->0.len())),
{
    let text = encode_utf8(chars);
    encode_utf8_valid_utf8(chars);
    encode_utf8_decode_utf8(chars);
    lemma_text_packed(text, tail);
}

/// Round trip, with bytes behind, for raw bytes.
proof fn lemma_unpack_packed_bytes(raw: Seq<u8>, tail: Seq<u8>, depth: nat)
    requires
        spec_pack(ValueView::Bytes(raw)) is Some,
    ensures
        spec_unpack(spec_pack(ValueView::Bytes(raw))->0 + tail, depth) == Ok::<
            (ValueView, nat),
            CodecError,
        >((ValueView::Bytes(raw), spec_pack(ValueView::Bytes(raw))->0.len())),
{
    lemma_radix_values();
    let bytes = spec_pack(ValueView::Bytes(raw))->0 + tail;
    let len = raw.len();
    let width: nat = if len <= 0xFF {
        1
    } else if len <= 0xFFFF {
        2
    } else {
        4
    };
    lemma_be_bytes_len(len, width);
    lemma_unpack_sized_written(raw, width, tail);
    assert(bytes.skip(1) =~= be_bytes(len, width) + raw + tail);
}

/// Round trip, with bytes behind: a value's encoding, whatever follows it, is
/// read back as that value, and exactly the encoding is taken.
pub proof fn lemma_unpack_packed(value: ValueView, tail: Seq<u8>, depth: nat)
    requires
        spec_pack(value) is Some,
        value_depth(value) <= depth,
    ensures
        spec_unpack(spec_pack(value)->0 + tail, depth) == Ok::<(ValueView, nat), CodecError>(
            (value, spec_pack(value)->0.len()),
        ),
    decreases value, 0nat,
{
    match value {
        ValueView::String(chars) => {
            lemma_unpack_packed_string(chars, tail, depth);
        },
        ValueView::Bytes(raw) => {
            lemma_unpack_packed_bytes(raw, tail, depth);
        },
        ValueView::Structure(s) => {
            let count = s.fields.len();
            let body = spec_pack_fields(s.fields, count)->0;
            let bytes = spec_pack(value)->0 + tail;
            lemma_unpack_packed_fields(s.fields, count, tail, (depth - 1) as nat);
            let rest = bytes.skip(1);
            assert(rest =~= seq![s.tag] + body + tail);
            assert(rest.skip(1) =~= body + tail);
            assert(s.fields.take(count as int) =~= s.fields);
            assert(bytes[0] == MARKER_TINY_STRUCT + count);
            assert(spec_unpack_struct(count, rest, depth) == Ok::<(ValueView, nat), CodecError>(
                (value, 1 + body.len()),
            ));
        },
        ValueView::Float(bits) => {
            lemma_unpack_packed_float(bits, tail, depth);
        },
        ValueView::TinyInt(i) => {
            lemma_unpack_packed_tiny_int(i, tail, depth);
        },
        ValueView::SmallInt(i) => {
            lemma_unpack_packed_small_int(i, tail, depth);
        },
        ValueView::Int(i) => {
            lemma_unpack_packed_int(i, tail, depth);
        },
        ValueView::BigInt(i) => {
            lemma_unpack_packed_big_int(i, tail, depth);
        },
        ValueView::Bool(b) => {},
        ValueView::Null => {},
    }
}

/// A string's header and text, whatever follows them, are read back as the
/// payload that the text is.
proof fn lemma_text_packed(text: Seq<u8>, tail: Seq<u8>)
    requires
        string_header(text.len()) is Some,
    ensures
        ({
            let bytes = string_header(text.len())->0 + text + tail;
            let len = text.len();
            &&& bytes.len() > 0
            &&& !is_tiny_int_marker(bytes[0])
            &&& !is_struct_marker(bytes[0])
            &&& len <= 15 ==> {
                &&& is_tiny_string_marker(bytes[0])
                &&& bytes[0] - MARKER_TINY_STRING == len
                &&& spec_read_payload(bytes.skip(1), len) == Ok::<
                    Seq<u8>,
                    CodecError,
                >(text)
            }
            &&& len > 15 ==> {
                &&& is_string_marker(bytes[0])
                &&& spec_unpack_sized(bytes.skip(1), length_width(bytes[0])) == Ok::<
                    (Seq<u8>, nat),
                    CodecError,
                >((text, (bytes.len() - tail.len() - 1) as nat))
            }
            &&& bytes.len() == string_header(text.len())->0.len() + len + tail.len()
        }),
{
    lemma_radix_values();
    let len = text.len();
    let bytes = string_header(len)->0 + text + tail;
    if len <= 15 {
        assert(bytes.skip(1) =~= text + tail);
        assert((text + tail).take(len as int) =~= text);
    } else {
        let width: nat = if len <= 0xFF {
            1
        } else if len <= 0xFFFF {
            2
        } else {
            4
        };
        lemma_be_bytes_len(len, width);
        lemma_unpack_sized_written(text, width, tail);
        assert(bytes.skip(1) =~= be_bytes(len, width) + text + tail);
    }
}

/// Round trip for the first `count` fields of a structure.
pub proof fn lemma_unpack_packed_fields(
    fields: Seq<ValueView>,
    count: nat,
    tail: Seq<u8>,
    depth: nat,
)
    requires
        count <= fields.len(),
        spec_pack_fields(fields, count) is Some,
        fields_depth(fields, count) <= depth,
    ensures
        spec_unpack_fields(spec_pack_fields(fields, count)->0 + tail, count, depth) == Ok::<
            (Seq<ValueView>, nat),
            CodecError,
        >((fields.take(count as int), spec_pack_fields(fields, count)->0.len())),
    decreases fields, count,
{
    if count == 0 {
        assert(fields.take(0) =~= Seq::<ValueView>::empty());
    } else {
        let front = spec_pack_fields(fields, (count - 1) as nat)->0;
        let last = spec_pack(fields[count - 1])->0;
        let bytes = front + last + tail;
        lemma_unpack_packed_fields(fields, (count - 1) as nat, last + tail, depth);
        lemma_unpack_packed(fields[count - 1], tail, depth);
        assert(bytes =~= front + (last + tail));
        assert(bytes.skip(front.len() as int) =~= last + tail);
        lemma_unpack_fields_snoc(bytes, (count - 1) as nat, depth);
        assert(fields.take(count - 1).push(fields[count - 1]) =~= fields.take(count as int));
    }
}

/// Round trip: every value that has an encoding is decoded from it again,
/// where the decoder lets structures nest as deep as the value does.
pub proof fn lemma_round_trip(value: ValueView, depth: nat)
    requires
        representable(value),
        value_depth(value) <= depth,
    ensures
        spec_encode(value) is Some,
        spec_decode(spec_encode(value)->0, depth) == Ok::<ValueView, CodecError>(value),
{
    lemma_pack_representable(value);
    lemma_unpack_packed(value, Seq::empty(), depth);
    assert(spec_pack(value)->0 + Seq::<u8>::empty() =~= spec_pack(value)->0);
}

/// A marker that starts no rule of the grammar makes the bytes malformed,
/// whatever follows it.
pub proof fn lemma_reserved_marker(bytes: Seq<u8>, depth: nat)
    requires
        bytes.len() > 0,
        is_reserved_marker(bytes[0]),
    ensures
        spec_unpack(bytes, depth) == Err::<(ValueView, nat), CodecError>(
            CodecError::DecodeMalformed,
        ),
        spec_decode(bytes, depth) == Err::<ValueView, CodecError>(CodecError::DecodeMalformed),
{
}

/// Reassembly undoes framing: the chunks of a framed message, whatever
/// follows the terminator, are put together to the payloads in order, and
/// exactly the frame is taken.
pub proof fn lemma_reassemble_framed(chunks: Seq<Seq<u8>>, tail: Seq<u8>)
    requires
        valid_chunks(chunks),
    ensures
        spec_reassemble(spec_frame(chunks) + tail) == Ok::<(Seq<u8>, nat), CodecError>(
            (spec_concat(chunks), spec_frame(chunks).len()),
        ),
    decreases chunks.len(),
{
    lemma_radix_values();
    let wire = spec_frame(chunks) + tail;
    if chunks.len() == 0 {
        reveal_with_fuel(be_value, 3);
        assert(wire.take(2) =~= seq![0u8, 0u8]);
        assert(wire.take(2).drop_last() =~= seq![0u8]);
    } else {
        let first = chunks[0];
        let later = chunks.drop_first();
        let len = first.len();
        assert(valid_chunks(later)) by {
            assert forall|i: int| 0 <= i < later.len() implies 1 <= (#[trigger] later[i]).len()
                <= MAX_CHUNK by {
                assert(later[i] == chunks[i + 1]);
            }
        }
        lemma_reassemble_framed(later, tail);
        lemma_read_number_written(len, 2, first + spec_frame(later) + tail);
        assert(wire =~= be_bytes(len, 2) + (first + spec_frame(later) + tail));
        assert(wire.skip(2 + len as int) =~= spec_frame(later) + tail);
        assert(wire.subrange(2, 2 + len as int) =~= first);
    }
}

/// Cutting a payload into chunks loses nothing: the chunks are valid and,
/// put together, are the payload.
pub proof fn lemma_split_concat(payload: Seq<u8>, size: nat)
    requires
        1 <= size <= MAX_CHUNK,
    ensures
        valid_chunks(spec_split(payload, size)),
        spec_concat(spec_split(payload, size)) == payload,
    decreases payload.len(),
{
    if payload.len() > 0 {
        let n = if payload.len() <= size {
            payload.len()
        } else {
            size
        };
        let later = spec_split(payload.skip(n as int), size);
        let pieces = spec_split(payload, size);
        lemma_split_concat(payload.skip(n as int), size);
        assert(pieces.drop_first() =~= later);
        assert(payload.take(n as int) + payload.skip(n as int) =~= payload);
        assert forall|i: int| 0 <= i < pieces.len() implies 1 <= (#[trigger] pieces[i]).len()
            <= MAX_CHUNK by {
            if i > 0 {
                assert(pieces[i] == later[i - 1]);
            }
        }
    }
}

/// How a payload is cut into chunks does not show in what is read: a
/// message in any valid chunks is read as its payloads, put together, are
/// decoded.
pub proof fn lemma_read_framed(chunks: Seq<Seq<u8>>, tail: Seq<u8>, depth: nat)
    requires
        valid_chunks(chunks),
    ensures
        spec_read_message(spec_frame(chunks) + tail, depth) == match spec_decode(
            spec_concat(chunks),
            depth,
        ) {
            Ok(value) => Ok::<(ValueView, nat), CodecError>((value, spec_frame(chunks).len())),
            Err(e) => Err(e),
        },
{
    lemma_reassemble_framed(chunks, tail);
}

/// A message split across chunks of any sizes is read as the same payload
/// sent in one chunk is.
pub proof fn lemma_chunking_invisible(chunks: Seq<Seq<u8>>, depth: nat)
    requires
        valid_chunks(chunks),
        1 <= spec_concat(chunks).len() <= MAX_CHUNK,
    ensures
        ({
            let split = spec_read_message(spec_frame(chunks), depth);
            let whole = spec_read_message(spec_frame(seq![spec_concat(chunks)]), depth);
            &&& split is Ok <==> whole is Ok
            &&& split is Ok ==> split->Ok_0.0 == whole->Ok_0.0
            &&& split is Err ==> split->Err_0 == whole->Err_0
        }),
{
    let payload = spec_concat(chunks);
    let one = seq![payload];
    assert(spec_concat(one) =~= payload) by {
        assert(one.drop_first() =~= Seq::<Seq<u8>>::empty());
        reveal_with_fuel(spec_concat, 2);
    }
    lemma_read_framed(chunks, Seq::empty(), depth);
    lemma_read_framed(one, Seq::empty(), depth);
    assert(spec_frame(chunks) + Seq::<u8>::empty() =~= spec_frame(chunks));
    assert(spec_frame(one) + Seq::<u8>::empty() =~= spec_frame(one));
}

/// A structure written as a message is read back from the wire as itself,
/// whatever the chunk size, where the reader lets structures nest as deep as
/// it does.
pub proof fn lemma_message_round_trip(message: ValueView, chunk_size: nat, depth: nat)
    requires
        1 <= chunk_size <= MAX_CHUNK,
        spec_write_message(message, chunk_size) is Some,
        value_depth(message) <= depth,
    ensures
        spec_read_message(spec_write_message(message, chunk_size)->0, depth) == Ok::<
            (ValueView, nat),
            CodecError,
        >((message, spec_write_message(message, chunk_size)->0.len())),
{
    let bytes = spec_encode(message)->0;
    let chunks = spec_split(bytes, chunk_size);
    lemma_split_concat(bytes, chunk_size);
    lemma_pack_representable(message);
    lemma_round_trip(message, depth);
    lemma_read_framed(chunks, Seq::empty(), depth);
    assert(spec_frame(chunks) + Seq::<u8>::empty() =~= spec_frame(chunks));
}

/// The assembler, fed the reads of a framed message, ends with the chunks'
/// payloads in order and the message complete.
pub proof fn lemma_assembler_reads(state: AssemblerView, chunks: Seq<Seq<u8>>)
    requires
        valid_chunks(chunks),
        !state.done,
        state.pending == 0,
    ensures
        spec_accept_all(state, spec_reads(chunks)) == Ok::<AssemblerView, CodecError>(
            AssemblerView { payload: state.payload + spec_concat(chunks), pending: 0, done: true },
        ),
    decreases chunks.len(),
{
    lemma_radix_values();
    let reads = spec_reads(chunks);
    if chunks.len() == 0 {
        reveal_with_fuel(be_value, 3);
        reveal_with_fuel(spec_accept_all, 2);
        assert(reads[0].drop_last() =~= seq![0u8]);
        assert(reads.drop_first() =~= Seq::<Seq<u8>>::empty());
        assert(state.payload + Seq::<u8>::empty() =~= state.payload);
    } else {
        let first = chunks[0];
        let later = chunks.drop_first();
        let header = be_bytes(first.len(), 2);
        assert(valid_chunks(later)) by {
            assert forall|i: int| 0 <= i < later.len() implies 1 <= (#[trigger] later[i]).len()
                <= MAX_CHUNK by {
                assert(later[i] == chunks[i + 1]);
            }
        }
        lemma_be_bytes_len(first.len(), 2);
        lemma_be_round_trip(first.len(), 2);
        let waiting = AssemblerView { payload: state.payload, pending: first.len(), done: false };
        let joined = AssemblerView { payload: state.payload + first, pending: 0, done: false };
        assert(spec_accept(state, header) == Ok::<AssemblerView, CodecError>(waiting));
        assert(spec_accept(waiting, first) == Ok::<AssemblerView, CodecError>(joined));
        assert(reads[0] == header);
        assert(reads.drop_first()[0] == first);
        assert(reads.drop_first().drop_first() =~= spec_reads(later));
        lemma_assembler_reads(joined, later);
        assert(state.payload + first + spec_concat(later) =~= state.payload + spec_concat(
            chunks,
        ));
        reveal_with_fuel(spec_accept_all, 3);
    }
}

/// A value has an encoding exactly where it is representable.
pub proof fn lemma_pack_representable(value: ValueView)
    ensures
        spec_pack(value) is Some <==> representable(value),
    decreases value, 0nat,
{
    match value {
        ValueView::Structure(s) => {
            lemma_pack_fields_representable(s.fields, s.fields.len());
        },
        _ => {},
    }
}

/// The first `count` fields have an encoding exactly where each of them is
/// representable.
pub proof fn lemma_pack_fields_representable(fields: Seq<ValueView>, count: nat)
    requires
        count <= fields.len(),
    ensures
        spec_pack_fields(fields, count) is Some <==> forall|i: int|
            0 <= i < count ==> representable(#[trigger] fields[i]),
    decreases fields, count,
{
    if count > 0 {
        lemma_pack_fields_representable(fields, (count - 1) as nat);
        lemma_pack_representable(fields[count - 1]);
    }
}

} // verus!
