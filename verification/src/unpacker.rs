//! The decoder: from bytes back to a value.

use vstd::prelude::*;
use vstd::slice::slice_to_vec;
use vstd::utf8::{encode_utf8, valid_utf8};
use crate::buffer::UnpackableBuffer;
use crate::endian::{lemma_radix_monotonic, lemma_radix_values, radix, read_be, signed_of};
use crate::error::CodecError;
use crate::value::{views_of, MessageStructure, MessageValue, ValueView};
use crate::wire::{
    is_int_marker, is_struct_marker, spec_read_number, spec_read_payload, spec_text, spec_unpack,
    spec_unpack_bytes, spec_unpack_fields, spec_unpack_float, spec_unpack_int,
    spec_unpack_marked, spec_unpack_sized, spec_unpack_string, spec_unpack_struct,
    spec_unpack_tiny_string, MARKER_BYTES_16, MARKER_BYTES_32, MARKER_BYTES_8, MARKER_FALSE,
    MARKER_FLOAT, MARKER_INT_16, MARKER_INT_32, MARKER_INT_64, MARKER_INT_8, MARKER_NULL,
    MARKER_STRING_16, MARKER_STRING_32, MARKER_STRING_8, MARKER_TINY_STRING, MARKER_TINY_STRUCT,
    MARKER_TRUE,
};

verus! {

/// How deep structures may nest where the caller sets no limit of its own.
pub const DEFAULT_MAX_DEPTH: usize = 64;

/// Calls `String::from_utf8` of the standard library.
///
/// Taken on trust, not proved: the call gives a string exactly where `bytes`
/// are valid UTF-8, and the UTF-8 form of that string is `bytes`.
#[verifier::external_body]
fn string_from_utf8(bytes: Vec<u8>) -> (r: Option<String>)
    ensures
        match r {
            Some(text) => valid_utf8(bytes@) && encode_utf8(text@) == bytes@,
            None => !valid_utf8(bytes@),
        },
{
    String::from_utf8(bytes).ok()
}

/// Reads values off a byte source, by the wire grammar.
pub struct Unpacker {
    unpackable: UnpackableBuffer,
    max_depth: usize,
}

impl Unpacker {
    /// The byte source.
    pub closed spec fn source(&self) -> UnpackableBuffer {
        self.unpackable
    }

    /// How deep structures may nest in a value that `unpack` accepts.
    pub closed spec fn max_depth(&self) -> nat {
        self.max_depth as nat
    }

    /// Whether the byte source is well formed.
    pub open spec fn wf(&self) -> bool {
        self.source().wf()
    }

    /// The resident bytes that have not been read yet.
    pub open spec fn remaining(&self) -> Seq<u8> {
        self.source().remaining()
    }

    /// The number of resident bytes already read.
    pub open spec fn position(&self) -> nat {
        self.source().position()
    }

    /// Whether two decoders differ at most in the cursor of their source.
    pub open spec fn same_bytes(&self, other: &Unpacker) -> bool {
        &&& self.max_depth() == other.max_depth()
        &&& self.source().resident() == other.source().resident()
        &&& self.source().region() == other.source().region()
    }

    /// A decoder over `unpackable` that lets structures nest
    /// `DEFAULT_MAX_DEPTH` deep.
    pub fn new(unpackable: UnpackableBuffer) -> (r: Self)
        ensures
            r.source() == unpackable,
            r.max_depth() == DEFAULT_MAX_DEPTH,
    {
        Self { unpackable, max_depth: DEFAULT_MAX_DEPTH }
    }

    /// A decoder over `unpackable` that lets structures nest `max_depth`
    /// deep.
    pub fn with_max_depth(unpackable: UnpackableBuffer, max_depth: usize) -> (r: Self)
        ensures
            r.source() == unpackable,
            r.max_depth() == max_depth,
    {
        Self { unpackable, max_depth }
    }

    /// The number of resident bytes that have not been read yet.
    pub fn available(&self) -> (r: usize)
        requires
            self.wf(),
        ensures
            r == self.remaining().len(),
            self.position() + r == self.source().resident().len(),
    {
        self.unpackable.available()
    }

    /// The byte source, given back for the next message.
    pub fn into_source(self) -> (r: UnpackableBuffer)
        ensures
            r == self.source(),
    {
        self.unpackable
    }

    /// Discards all resident bytes and rewinds the cursor.
    pub fn reset(&mut self)
        requires
            old(self).wf(),
        ensures
            final(self).wf(),
            final(self).max_depth() == old(self).max_depth(),
            final(self).source().resident() == Seq::<u8>::empty(),
            final(self).source().position() == 0,
            final(self).source().region() == old(self).source().region(),
    {
        self.unpackable.reset();
    }

    /// The next `n` unread bytes, past which the cursor moves; or
    /// `EndOfData`, with nothing changed, where fewer than `n` are resident.
    pub fn read(&mut self, n: usize) -> (r: Result<&[u8], CodecError>)
        requires
            old(self).wf(),
        ensures
            final(self).wf(),
            final(self).same_bytes(old(self)),
            match r {
                Ok(bytes) => {
                    &&& n <= old(self).source().remaining().len()
                    &&& bytes@ == old(self).source().remaining().take(n as int)
                    &&& final(self).source().position() == old(self).source().position() + n
                    &&& final(self).remaining() == old(self).remaining().skip(n as int)
                },
                Err(e) => {
                    &&& e == CodecError::EndOfData
                    &&& n > old(self).source().remaining().len()
                    &&& final(self).source().position() == old(self).source().position()
                },
            },
    {
        self.unpackable.read(n)
    }

    /// The next unread byte, past which the cursor moves; or `EndOfData`,
    /// with nothing changed, where none is resident.
    pub fn read_u8(&mut self) -> (r: Result<u8, CodecError>)
        requires
            old(self).wf(),
        ensures
            final(self).wf(),
            final(self).same_bytes(old(self)),
            match r {
                Ok(byte) => {
                    &&& old(self).source().remaining().len() > 0
                    &&& byte == old(self).source().remaining()[0]
                    &&& final(self).source().position() == old(self).source().position() + 1
                    &&& final(self).remaining() == old(self).remaining().skip(1)
                },
                Err(e) => {
                    &&& e == CodecError::EndOfData
                    &&& old(self).source().remaining().len() == 0
                    &&& final(self).source().position() == old(self).source().position()
                },
            },
    {
        self.unpackable.read_u8()
    }

    /// Reads the number that the next `width` bytes spell, most significant
    /// byte first.
    fn read_number(&mut self, width: usize) -> (r: Result<u64, CodecError>)
        requires
            old(self).wf(),
            width <= 8,
        ensures
            final(self).wf(),
            final(self).same_bytes(old(self)),
            old(self).position() <= final(self).position(),
            match spec_read_number(old(self).remaining(), width as nat) {
                Ok(n) => {
                    &&& r == Ok::<u64, CodecError>(n as u64)
                    &&& n < radix(width as nat)
                    &&& final(self).position() == old(self).position() + width
                    &&& final(self).remaining() == old(self).remaining().skip(width as int)
                },
                Err(e) => r == Err::<u64, CodecError>(e),
            },
    {
        proof {
            lemma_radix_values();
            lemma_radix_monotonic(width as nat, 8);
        }
        match self.unpackable.read(width) {
            Ok(bytes) => Ok(read_be(bytes)),
            Err(e) => Err(e),
        }
    }

    /// Reads the next `len` bytes into a vector of their own.
    fn read_payload(&mut self, len: usize) -> (r: Result<Vec<u8>, CodecError>)
        requires
            old(self).wf(),
        ensures
            final(self).wf(),
            final(self).same_bytes(old(self)),
            old(self).position() <= final(self).position(),
            match spec_read_payload(old(self).remaining(), len as nat) {
                Ok(payload) => {
                    &&& r is Ok
                    &&& r->Ok_0@ == payload
                    &&& final(self).position() == old(self).position() + len
                    &&& final(self).remaining() == old(self).remaining().skip(len as int)
                },
                Err(e) => r is Err && r->Err_0 == e,
            },
    {
        match self.unpackable.read(len) {
            Ok(bytes) => Ok(slice_to_vec(bytes)),
            Err(e) => Err(e),
        }
    }

    /// Reads a `width`-byte length and the payload of that length.
    fn read_sized(&mut self, width: usize) -> (r: Result<Vec<u8>, CodecError>)
        requires
            old(self).wf(),
            width == 1 || width == 2 || width == 4,
        ensures
            final(self).wf(),
            final(self).same_bytes(old(self)),
            old(self).position() <= final(self).position(),
            match spec_unpack_sized(old(self).remaining(), width as nat) {
                Ok((payload, used)) => {
                    &&& r is Ok
                    &&& r->Ok_0@ == payload
                    &&& final(self).position() == old(self).position() + used
                    &&& final(self).remaining() == old(self).remaining().skip(used as int)
                },
                Err(e) => r is Err && r->Err_0 == e,
            },
    {
        proof {
            lemma_radix_values();
        }
        let len = match self.read_number(width) {
            Ok(n) => n as usize,
            Err(e) => {
                return Err(e);
            },
        };
        let r = self.read_payload(len);
        proof {
            if r is Ok {
                assert(self.remaining() =~= old(self).remaining().skip(width + len));
            }
        }
        r
    }

    /// The size and the signature byte of a structure whose marker has been
    /// read already. A marker of another kind is `DecodeMalformed`; a missing
    /// signature byte is `EndOfData`. On failure nothing is consumed.
    pub fn _unpack_structure_header(&mut self, marker: u8) -> (r: Result<(u8, u8), CodecError>)
        requires
            old(self).wf(),
        ensures
            final(self).wf(),
            final(self).same_bytes(old(self)),
            r == if !(MARKER_TINY_STRUCT <= marker <= 0xBF) {
                Err::<(u8, u8), CodecError>(CodecError::DecodeMalformed)
            } else if old(self).remaining().len() == 0 {
                Err(CodecError::EndOfData)
            } else {
                Ok(((marker - MARKER_TINY_STRUCT) as u8, old(self).remaining()[0]))
            },
            r is Ok ==> final(self).position() == old(self).position() + 1,
            r is Ok ==> final(self).remaining() == old(self).remaining().skip(1),
            r is Err ==> final(self).position() == old(self).position(),
    {
        if marker >= MARKER_TINY_STRUCT && marker <= 0xBF {
            match self.read_u8() {
                Ok(sig) => Ok((marker - MARKER_TINY_STRUCT, sig)),
                Err(e) => Err(e),
            }
        } else {
            Err(CodecError::DecodeMalformed)
        }
    }

    /// Reads a structure marker and signature byte: the size and the
    /// signature. With no byte left it is `EndOfData`; with a marker of
    /// another kind `DecodeMalformed`; with the signature byte missing
    /// `EndOfData`. On failure nothing is consumed.
    pub fn unpack_structure_header(&mut self) -> (r: Result<(u8, u8), CodecError>)
        requires
            old(self).wf(),
        ensures
            final(self).wf(),
            final(self).same_bytes(old(self)),
            r == if old(self).remaining().len() == 0 {
                Err::<(u8, u8), CodecError>(CodecError::EndOfData)
            } else if !(MARKER_TINY_STRUCT <= old(self).remaining()[0] <= 0xBF) {
                Err(CodecError::DecodeMalformed)
            } else if old(self).remaining().len() == 1 {
                Err(CodecError::EndOfData)
            } else {
                Ok(
                    (
                        (old(self).remaining()[0] - MARKER_TINY_STRUCT) as u8,
                        old(self).remaining()[1],
                    ),
                )
            },
            r is Ok ==> final(self).position() == old(self).position() + 2,
            r is Ok ==> final(self).remaining() == old(self).remaining().skip(2),
            r is Err ==> final(self).position() == old(self).position(),
    {
        let start = self.unpackable.pos();
        let marker = match self.read_u8() {
            Ok(marker) => marker,
            Err(e) => {
                return Err(e);
            },
        };
        let r = self._unpack_structure_header(marker);
        if r.is_err() {
            self.unpackable.rewind(start);
        }
        proof {
            if r is Ok {
                assert(self.remaining() =~= old(self).remaining().skip(2));
            }
        }
        r
    }

    /// Reads the integer that follows an integer marker.
    fn unpack_int(&mut self, marker: u8) -> (r: Result<MessageValue, CodecError>)
        requires
            old(self).wf(),
            is_int_marker(marker),
        ensures
            final(self).wf(),
            final(self).same_bytes(old(self)),
            old(self).position() <= final(self).position(),
            match spec_unpack_int(marker, old(self).remaining()) {
                Ok((value, used)) => {
                    &&& r is Ok
                    &&& r->Ok_0@ == value
                    &&& final(self).position() == old(self).position() + used
                    &&& final(self).remaining() == old(self).remaining().skip(used as int)
                },
                Err(e) => r is Err && r->Err_0 == e,
            },
    {
        proof {
            lemma_radix_values();
        }
        if marker == MARKER_INT_8 {
            match self.read_number(1) {
                Ok(n) => Ok(MessageValue::TinyInt(signed_of(n, 1) as i8)),
                Err(e) => Err(e),
            }
        } else if marker == MARKER_INT_16 {
            match self.read_number(2) {
                Ok(n) => Ok(MessageValue::SmallInt(signed_of(n, 2) as i16)),
                Err(e) => Err(e),
            }
        } else if marker == MARKER_INT_32 {
            match self.read_number(4) {
                Ok(n) => Ok(MessageValue::Int(signed_of(n, 4) as i32)),
                Err(e) => Err(e),
            }
        } else {
            match self.read_number(8) {
                Ok(n) => Ok(MessageValue::BigInt(signed_of(n, 8))),
                Err(e) => Err(e),
            }
        }
    }

    /// Reads the eight bytes that follow the float marker.
    fn unpack_float(&mut self) -> (r: Result<MessageValue, CodecError>)
        requires
            old(self).wf(),
        ensures
            final(self).wf(),
            final(self).same_bytes(old(self)),
            old(self).position() <= final(self).position(),
            match spec_unpack_float(old(self).remaining()) {
                Ok((value, used)) => {
                    &&& r is Ok
                    &&& r->Ok_0@ == value
                    &&& final(self).position() == old(self).position() + used
                    &&& final(self).remaining() == old(self).remaining().skip(used as int)
                },
                Err(e) => r is Err && r->Err_0 == e,
            },
    {
        proof {
            lemma_radix_values();
        }
        match self.read_number(8) {
            Ok(bits) => Ok(MessageValue::Float(bits)),
            Err(e) => Err(e),
        }
    }

    /// Reads a string of `len` bytes.
    fn unpack_tiny_string(&mut self, len: usize) -> (r: Result<MessageValue, CodecError>)
        requires
            old(self).wf(),
        ensures
            final(self).wf(),
            final(self).same_bytes(old(self)),
            old(self).position() <= final(self).position(),
            match spec_unpack_tiny_string(old(self).remaining(), len as nat) {
                Ok((value, used)) => {
                    &&& r is Ok
                    &&& r->Ok_0@ == value
                    &&& final(self).position() == old(self).position() + used
                    &&& final(self).remaining() == old(self).remaining().skip(used as int)
                },
                Err(e) => r is Err && r->Err_0 == e,
            },
    {
        match self.read_payload(len) {
            Ok(payload) => text_value(payload),
            Err(e) => Err(e),
        }
    }

    /// Reads a length of `width` bytes and the text of that length.
    fn unpack_string(&mut self, width: usize) -> (r: Result<MessageValue, CodecError>)
        requires
            old(self).wf(),
            width == 1 || width == 2 || width == 4,
        ensures
            final(self).wf(),
            final(self).same_bytes(old(self)),
            old(self).position() <= final(self).position(),
            match spec_unpack_string(old(self).remaining(), width as nat) {
                Ok((value, used)) => {
                    &&& r is Ok
                    &&& r->Ok_0@ == value
                    &&& final(self).position() == old(self).position() + used
                    &&& final(self).remaining() == old(self).remaining().skip(used as int)
                },
                Err(e) => r is Err && r->Err_0 == e,
            },
    {
        match self.read_sized(width) {
            Ok(payload) => text_value(payload),
            Err(e) => Err(e),
        }
    }

    /// Reads a length of `width` bytes and the raw bytes of that length.
    fn unpack_bytes(&mut self, width: usize) -> (r: Result<MessageValue, CodecError>)
        requires
            old(self).wf(),
            width == 1 || width == 2 || width == 4,
        ensures
            final(self).wf(),
            final(self).same_bytes(old(self)),
            old(self).position() <= final(self).position(),
            match spec_unpack_bytes(old(self).remaining(), width as nat) {
                Ok((value, used)) => {
                    &&& r is Ok
                    &&& r->Ok_0@ == value
                    &&& final(self).position() == old(self).position() + used
                    &&& final(self).remaining() == old(self).remaining().skip(used as int)
                },
                Err(e) => r is Err && r->Err_0 == e,
            },
    {
        match self.read_sized(width) {
            Ok(payload) => Ok(MessageValue::Bytes(payload)),
            Err(e) => Err(e),
        }
    }

    /// Reads what follows a structure marker: signature byte and fields.
    fn unpack_struct(&mut self, marker: u8, depth: usize) -> (r: Result<MessageValue, CodecError>)
        requires
            old(self).wf(),
            is_struct_marker(marker),
        ensures
            final(self).wf(),
            final(self).same_bytes(old(self)),
            old(self).position() <= final(self).position(),
            match spec_unpack_struct(
                (marker - MARKER_TINY_STRUCT) as nat,
                old(self).remaining(),
                depth as nat,
            ) {
                Ok((value, used)) => {
                    &&& r is Ok
                    &&& r->Ok_0@ == value
                    &&& final(self).position() == old(self).position() + used
                    &&& final(self).remaining() == old(self).remaining().skip(used as int)
                },
                Err(e) => r is Err && r->Err_0 == e,
            },
        decreases depth, 0nat,
    {
        let ghost rest = self.remaining();
        let (size, tag) = match self._unpack_structure_header(marker) {
            Ok(header) => header,
            Err(e) => {
                return Err(e);
            },
        };
        if depth == 0 {
            return Err(CodecError::DecodeMalformed);
        }
        match self.unpack_fields(size, depth - 1) {
            Ok(fields) => {
                proof {
                    let used = spec_unpack_fields(
                        rest.skip(1),
                        size as nat,
                        (depth - 1) as nat,
                    )->Ok_0.1;
                    self.unpackable.lemma_wf_bounds();
                    old(self).unpackable.lemma_wf_bounds();
                    assert(self.remaining() =~= rest.skip(1 + used as int));
                }
                Ok(MessageValue::Structure(MessageStructure::new(tag, fields)))
            },
            Err(e) => Err(e),
        }
    }

    /// Reads what follows `marker`.
    fn unpack_marked(&mut self, marker: u8, depth: usize) -> (r: Result<MessageValue, CodecError>)
        requires
            old(self).wf(),
        ensures
            final(self).wf(),
            final(self).same_bytes(old(self)),
            old(self).position() <= final(self).position(),
            match spec_unpack_marked(marker, old(self).remaining(), depth as nat) {
                Ok((value, used)) => {
                    &&& r is Ok
                    &&& r->Ok_0@ == value
                    &&& final(self).position() == old(self).position() + used
                    &&& final(self).remaining() == old(self).remaining().skip(used as int)
                },
                Err(e) => r is Err && r->Err_0 == e,
            },
        decreases depth, 1nat,
    {
        proof {
            lemma_radix_values();
            assert(self.remaining().skip(0) =~= self.remaining());
        }
        if marker <= 0x7F || marker >= 0xF0 {
            Ok(MessageValue::TinyInt(signed_of(marker as u64, 1) as i8))
        } else if marker >= MARKER_TINY_STRING && marker <= 0x8F {
            self.unpack_tiny_string((marker - MARKER_TINY_STRING) as usize)
        } else if marker >= MARKER_TINY_STRUCT && marker <= 0xBF {
            self.unpack_struct(marker, depth)
        } else if marker == MARKER_NULL {
            Ok(MessageValue::Null)
        } else if marker == MARKER_FALSE {
            Ok(MessageValue::Bool(false))
        } else if marker == MARKER_TRUE {
            Ok(MessageValue::Bool(true))
        } else if marker == MARKER_FLOAT {
            self.unpack_float()
        } else if marker >= MARKER_INT_8 && marker <= MARKER_INT_64 {
            self.unpack_int(marker)
        } else if marker == MARKER_BYTES_8 {
            self.unpack_bytes(1)
        } else if marker == MARKER_BYTES_16 {
            self.unpack_bytes(2)
        } else if marker == MARKER_BYTES_32 {
            self.unpack_bytes(4)
        } else if marker == MARKER_STRING_8 {
            self.unpack_string(1)
        } else if marker == MARKER_STRING_16 {
            self.unpack_string(2)
        } else if marker == MARKER_STRING_32 {
            self.unpack_string(4)
        } else {
            Err(CodecError::DecodeMalformed)
        }
    }

    /// Reads one value, with structures nested at most `depth` deep. On
    /// failure the cursor may stand anywhere at or past where it stood.
    fn unpack_inner(&mut self, depth: usize) -> (r: Result<MessageValue, CodecError>)
        requires
            old(self).wf(),
        ensures
            final(self).wf(),
            final(self).same_bytes(old(self)),
            old(self).position() <= final(self).position(),
            match spec_unpack(old(self).remaining(), depth as nat) {
                Ok((value, used)) => {
                    &&& r is Ok
                    &&& r->Ok_0@ == value
                    &&& final(self).position() == old(self).position() + used
                    &&& final(self).remaining() == old(self).remaining().skip(used as int)
                },
                Err(e) => r is Err && r->Err_0 == e,
            },
        decreases depth, 2nat,
    {
        let marker = match self.read_u8() {
            Ok(marker) => marker,
            Err(e) => {
                return Err(e);
            },
        };
        let ghost rest = self.remaining();
        let r = self.unpack_marked(marker, depth);
        proof {
            if r is Ok {
                let used = spec_unpack_marked(marker, rest, depth as nat)->Ok_0.1;
                self.unpackable.lemma_wf_bounds();
                old(self).unpackable.lemma_wf_bounds();
                assert(self.remaining() =~= old(self).remaining().skip(1 + used as int));
            }
        }
        r
    }

    /// Reads `size` values, one after the other, each nested at most `depth`
    /// deep. On failure the cursor may stand anywhere at or past where it
    /// stood.
    fn unpack_fields(&mut self, size: u8, depth: usize) -> (r: Result<
        Vec<MessageValue>,
        CodecError,
    >)
        requires
            old(self).wf(),
        ensures
            final(self).wf(),
            final(self).same_bytes(old(self)),
            old(self).position() <= final(self).position(),
            match spec_unpack_fields(old(self).remaining(), size as nat, depth as nat) {
                Ok((values, used)) => {
                    &&& r is Ok
                    &&& views_of(r->Ok_0@) == values
                    &&& final(self).position() == old(self).position() + used
                    &&& final(self).remaining() == old(self).remaining().skip(used as int)
                },
                Err(e) => r is Err && r->Err_0 == e,
            },
        decreases depth, 4nat,
    {
        let ghost body = self.remaining();
        let ghost whole = spec_unpack_fields(body, size as nat, depth as nat);
        let mut fields: Vec<MessageValue> = Vec::new();
        let mut i: u8 = 0;
        assert(views_of(fields@) =~= Seq::<ValueView>::empty());
        assert(body.skip(0) =~= body);
        let ghost mut taken: nat = 0;
        while i < size
            invariant
                self.wf(),
                self.same_bytes(old(self)),
                i <= size,
                fields@.len() == i,
                body == old(self).remaining(),
                whole == spec_unpack_fields(body, size as nat, depth as nat),
                self.position() == old(self).position() + taken,
                taken <= body.len(),
                self.remaining() == body.skip(taken as int),
                match spec_unpack_fields(self.remaining(), (size - i) as nat, depth as nat) {
                    Ok((more, used)) => {
                        &&& whole is Ok
                        &&& whole->Ok_0.0 == views_of(fields@) + more
                        &&& whole->Ok_0.1 == taken + used
                    },
                    Err(e) => whole == Err::<(Seq<ValueView>, nat), CodecError>(e),
                },
            decreases size - i,
        {
            let ghost before = self.remaining();
            let ghost seen = views_of(fields@);
            proof {
                self.unpackable.lemma_wf_bounds();
            }
            match self.unpack_value(depth) {
                Ok(field) => {
                    fields.push(field);
                    proof {
                        let first = field@;
                        let used = spec_unpack(before, depth as nat)->Ok_0.1;
                        self.unpackable.lemma_wf_bounds();
                        taken = taken + used;
                        assert(self.remaining() =~= body.skip(taken as int));
                        assert(views_of(fields@) =~= seen.push(first));
                        let then = spec_unpack_fields(
                            self.remaining(),
                            (size - i - 1) as nat,
                            depth as nat,
                        );
                        if then is Ok {
                            assert(seen + (seq![first] + then->Ok_0.0) =~= seen.push(first)
                                + then->Ok_0.0);
                        }
                    }
                },
                Err(e) => {
                    return Err(e);
                },
            }
            i += 1;
        }
        proof {
            assert(views_of(fields@) + Seq::<ValueView>::empty() =~= views_of(fields@));
        }
        Ok(fields)
    }

    /// Reads one value, with structures nested at most `depth` deep. On
    /// failure nothing is consumed.
    fn unpack_value(&mut self, depth: usize) -> (r: Result<MessageValue, CodecError>)
        requires
            old(self).wf(),
        ensures
            final(self).wf(),
            final(self).same_bytes(old(self)),
            match spec_unpack(old(self).remaining(), depth as nat) {
                Ok((value, used)) => {
                    &&& r is Ok
                    &&& r->Ok_0@ == value
                    &&& final(self).position() == old(self).position() + used
                    &&& final(self).remaining() == old(self).remaining().skip(used as int)
                },
                Err(e) => {
                    &&& r is Err
                    &&& r->Err_0 == e
                    &&& final(self).position() == old(self).position()
                    &&& final(self).remaining() == old(self).remaining()
                },
            },
        decreases depth, 3nat,
    {
        let start = self.unpackable.pos();
        let r = self.unpack_inner(depth);
        if r.is_err() {
            self.unpackable.rewind(start);
        }
        r
    }

    /// Reads one value off the unread bytes, as the wire grammar spells it,
    /// and moves the cursor past it. Fails with `EndOfData` where the bytes
    /// end inside the value, and with `DecodeMalformed` on a marker that the
    /// grammar does not know, on text that is not UTF-8, and on structures
    /// nested deeper than `max_depth`. On failure nothing is consumed.
    pub fn unpack(&mut self) -> (r: Result<MessageValue, CodecError>)
        requires
            old(self).wf(),
        ensures
            final(self).wf(),
            final(self).same_bytes(old(self)),
            match spec_unpack(old(self).remaining(), old(self).max_depth()) {
                Ok((value, used)) => {
                    &&& r is Ok
                    &&& r->Ok_0@ == value
                    &&& final(self).position() == old(self).position() + used
                    &&& final(self).remaining() == old(self).remaining().skip(used as int)
                },
                Err(e) => {
                    &&& r is Err
                    &&& r->Err_0 == e
                    &&& final(self).position() == old(self).position()
                    &&& final(self).remaining() == old(self).remaining()
                },
            },
    {
        let depth = self.max_depth;
        self.unpack_value(depth)
    }
}

/// The string value that `payload` spells, or `DecodeMalformed` where it is
/// not UTF-8.
pub fn text_value(payload: Vec<u8>) -> (r: Result<MessageValue, CodecError>)
    ensures
        match spec_text(payload@) {
            Ok(v) => r is Ok && r->Ok_0@ == v,
            Err(e) => r is Err && r->Err_0 == e,
        },
{
    match string_from_utf8(payload) {
        Some(text) => {
            proof {
                vstd::utf8::encode_utf8_decode_utf8(text@);
            }
            Ok(MessageValue::String(text))
        },
        None => Err(CodecError::DecodeMalformed),
    }
}

} // verus!
