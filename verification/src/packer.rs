//! The encoder: from a value to its bytes.

use vstd::prelude::*;
use crate::buffer::MessageBuffer;
use crate::endian::{be_bytes, lemma_radix_values, push_be, unsigned_of};
use crate::error::CodecError;
use crate::value::{views_of, MessageValue, StructureView, ValueView};
use crate::wire::{
    bytes_header, spec_pack, spec_pack_fields, string_header, struct_header, MARKER_BYTES_16,
    MARKER_BYTES_32, MARKER_BYTES_8, MARKER_END_OF_STREAM, MARKER_FALSE, MARKER_FLOAT,
    MARKER_INT_16, MARKER_INT_32, MARKER_INT_64, MARKER_INT_8, MARKER_NULL, MARKER_STRING_16,
    MARKER_STRING_32, MARKER_STRING_8, MARKER_TINY_STRING, MARKER_TINY_STRUCT, MARKER_TRUE,
    MAX_FIELDS, MAX_LENGTH,
};

verus! {

/// Writes values into a sink, each as the wire grammar spells it.
pub struct Packer {
    stream: MessageBuffer,
}

impl View for Packer {
    type V = Seq<u8>;

    closed spec fn view(&self) -> Seq<u8> {
        self.stream@
    }
}

impl Packer {
    /// An encoder that appends to `stream`.
    pub fn new(stream: MessageBuffer) -> (r: Packer)
        ensures
            r@ == stream@,
    {
        Packer { stream: stream }
    }

    /// The sink with everything written so far.
    pub fn into_stream(self) -> (r: MessageBuffer)
        ensures
            r@ == self@,
    {
        self.stream
    }

    /// Appends `data` as it is.
    pub fn pack_raw(&mut self, data: &[u8]) -> (r: Result<(), CodecError>)
        ensures
            r is Ok,
            final(self)@ == old(self)@ + data@,
    {
        let _ = self.stream.try_write(data);
        Ok(())
    }

    /// Appends one byte.
    fn pack_byte(&mut self, byte: u8)
        ensures
            final(self)@ == old(self)@ + seq![byte],
    {
        let mut bytes: Vec<u8> = Vec::new();
        bytes.push(byte);
        let _ = self.stream.try_write(bytes.as_slice());
        assert(bytes@ =~= seq![byte]);
    }

    /// Appends a marker followed by the `width` low-order bytes of `n`.
    fn pack_marked(&mut self, marker: u8, n: u64, width: usize)
        ensures
            final(self)@ == old(self)@ + (seq![marker] + be_bytes(
                n as nat,
                width as nat,
            )),
    {
        let mut bytes: Vec<u8> = Vec::new();
        bytes.push(marker);
        push_be(&mut bytes, n, width);
        let _ = self.stream.try_write(bytes.as_slice());
        assert(bytes@ =~= seq![marker] + be_bytes(n as nat, width as nat));
    }

    /// Appends the header of a string whose UTF-8 form has `length` bytes.
    /// Fails with `EncodeOverflow`, writing nothing, where no header can
    /// express `length`.
    pub fn pack_string_header(&mut self, length: usize) -> (r: Result<(), CodecError>)
        ensures
            match string_header(length as nat) {
                Some(header) => r is Ok && final(self)@ == old(self)@ + header,
                None => r == Err::<(), CodecError>(CodecError::EncodeOverflow) && final(self)@
                    == old(self)@,
            },
    {
        if length <= 0x0F {
            self.pack_byte(MARKER_TINY_STRING + length as u8);
            Ok(())
        } else if length <= 0xFF {
            self.pack_marked(MARKER_STRING_8, length as u64, 1);
            Ok(())
        } else if length <= 0xFFFF {
            self.pack_marked(MARKER_STRING_16, length as u64, 2);
            Ok(())
        } else if length as u64 <= MAX_LENGTH {
            self.pack_marked(MARKER_STRING_32, length as u64, 4);
            Ok(())
        } else {
            Err(CodecError::EncodeOverflow)
        }
    }

    /// Appends the header of a run of `length` raw bytes. Fails with
    /// `EncodeOverflow`, writing nothing, where no header can express
    /// `length`.
    pub fn pack_bytes_header(&mut self, length: usize) -> (r: Result<(), CodecError>)
        ensures
            match bytes_header(length as nat) {
                Some(header) => r is Ok && final(self)@ == old(self)@ + header,
                None => r == Err::<(), CodecError>(CodecError::EncodeOverflow) && final(self)@
                    == old(self)@,
            },
    {
        if length <= 0xFF {
            self.pack_marked(MARKER_BYTES_8, length as u64, 1);
            Ok(())
        } else if length <= 0xFFFF {
            self.pack_marked(MARKER_BYTES_16, length as u64, 2);
            Ok(())
        } else if length as u64 <= MAX_LENGTH {
            self.pack_marked(MARKER_BYTES_32, length as u64, 4);
            Ok(())
        } else {
            Err(CodecError::EncodeOverflow)
        }
    }

    /// Appends the marker that ends a stream of values.
    pub fn pack_end_of_stream(&mut self) -> (r: Result<(), CodecError>)
        ensures
            r is Ok,
            final(self)@ == old(self)@ + seq![MARKER_END_OF_STREAM],
    {
        self.pack_byte(MARKER_END_OF_STREAM);
        Ok(())
    }

    /// Appends a structure: marker, signature byte, then each field in order.
    /// Fails with `EncodeOverflow` where there are more than fifteen fields or
    /// a field has no encoding; the sink is then as it was before the call.
    pub fn pack_struct(&mut self, sig: u8, fields: Vec<MessageValue>) -> (r: Result<
        (),
        CodecError,
    >)
        ensures
            match spec_pack(
                ValueView::Structure(
                    StructureView { tag: sig, fields: views_of(fields@) },
                ),
            ) {
                Some(bytes) => r is Ok && final(self)@ == old(self)@ + bytes,
                None => r == Err::<(), CodecError>(CodecError::EncodeOverflow) && final(self)@
                    == old(self)@,
            },
        decreases views_of(fields@),
    {
        let start = self.stream.len();
        let size = fields.len();
        let ghost models = views_of(fields@);
        if size > MAX_FIELDS {
            return Err(CodecError::EncodeOverflow);
        }
        let mut header: Vec<u8> = Vec::new();
        header.push(MARKER_TINY_STRUCT + size as u8);
        header.push(sig);
        let _ = self.stream.try_write(header.as_slice());
        assert(header@ =~= struct_header(sig, size as nat)->0);
        let ghost written = old(self)@ + header@;
        for field in it: fields
            invariant
                it.seq() == fields@,
                models == views_of(fields@),
                models.len() <= MAX_FIELDS,
                start == old(self)@.len(),
                written == old(self)@ + struct_header(sig, models.len())->0,
                spec_pack_fields(models, it.index() as nat) is Some,
                self@ == written + spec_pack_fields(models, it.index() as nat)->0,
        {
            let ghost k = it.index() as nat;
            assert(field@ == models[k as int]);
            assert(decreases_to!(models => models[k as int]));
            match self.pack(field) {
                Ok(()) => {
                    assert(self@ =~= written + spec_pack_fields(models, k + 1)->0);
                },
                Err(e) => {
                    proof {
                        lemma_pack_fields_fail(models, k + 1, models.len());
                    }
                    self.stream.truncate(start);
                    assert(self@ =~= old(self)@);
                    return Err(e);
                },
            }
        }
        assert(self@ =~= old(self)@ + (struct_header(sig, models.len())->0 + spec_pack_fields(
            models,
            models.len(),
        )->0));
        Ok(())
    }

    /// Appends the encoding of `val`. Fails with `EncodeOverflow` where the
    /// value has none: a structure with more than fifteen fields, or a string
    /// or byte run longer than the widest header expresses, anywhere inside
    /// it. The sink is then as it was before the call.
    pub fn pack(&mut self, val: MessageValue) -> (r: Result<(), CodecError>)
        ensures
            match spec_pack(val@) {
                Some(bytes) => r is Ok && final(self)@ == old(self)@ + bytes,
                None => r == Err::<(), CodecError>(CodecError::EncodeOverflow) && final(self)@
                    == old(self)@,
            },
        decreases val@,
    {
        proof {
            lemma_radix_values();
        }
        match val {
            MessageValue::Null => {
                self.pack_byte(MARKER_NULL);
                Ok(())
            },
            MessageValue::Bool(val) => {
                if val {
                    self.pack_byte(MARKER_TRUE);
                } else {
                    self.pack_byte(MARKER_FALSE);
                }
                Ok(())
            },
            MessageValue::Float(f) => {
                self.pack_marked(MARKER_FLOAT, f, 8);
                Ok(())
            },
            MessageValue::TinyInt(i) => {
                let pattern = unsigned_of(i as i64, 1);
                if -0x10 <= i {
                    self.pack_byte(pattern as u8);
                } else {
                    self.pack_marked(MARKER_INT_8, pattern, 1);
                }
                Ok(())
            },
            MessageValue::SmallInt(i) => {
                self.pack_marked(MARKER_INT_16, unsigned_of(i as i64, 2), 2);
                Ok(())
            },
            MessageValue::Int(i) => {
                self.pack_marked(MARKER_INT_32, unsigned_of(i as i64, 4), 4);
                Ok(())
            },
            MessageValue::BigInt(i) => {
                self.pack_marked(MARKER_INT_64, unsigned_of(i, 8), 8);
                Ok(())
            },
            MessageValue::String(s) => {
                let bytes = s.as_str().as_bytes();
                let length = bytes.len();
                match self.pack_string_header(length) {
                    Ok(()) => {
                        let _ = self.stream.try_write(bytes);
                        assert(self@ =~= old(self)@ + (string_header(length as nat)->0
                            + bytes@));
                        Ok(())
                    },
                    Err(e) => Err(e),
                }
            },
            MessageValue::Bytes(b) => {
                let length = b.len();
                match self.pack_bytes_header(length) {
                    Ok(()) => {
                        let _ = self.stream.try_write(b.as_slice());
                        assert(self@ =~= old(self)@ + (bytes_header(length as nat)->0 + b@));
                        Ok(())
                    },
                    Err(e) => Err(e),
                }
            },
            MessageValue::Structure(s) => {
                let (tag, fields) = s.into_parts();
                self.pack_struct(tag, fields)
            },
        }
    }
}

/// Once a prefix of the fields has no encoding, no longer prefix has one.
pub proof fn lemma_pack_fields_fail(fields: Seq<ValueView>, short: nat, long: nat)
    requires
        short <= long <= fields.len(),
        spec_pack_fields(fields, short) is None,
    ensures
        spec_pack_fields(fields, long) is None,
    decreases long,
{
    if short < long {
        lemma_pack_fields_fail(fields, short, (long - 1) as nat);
    }
}

} // verus!
