//! Whole messages: one value to its bytes, and bytes back to one value.

use vstd::prelude::*;
use crate::buffer::{MessageBuffer, UnpackableBuffer};
use crate::error::CodecError;
use crate::packer::Packer;
use crate::unpacker::{Unpacker, DEFAULT_MAX_DEPTH};
use crate::value::MessageValue;
use crate::wire::{spec_decode, spec_encode};

verus! {

/// The bytes of `value`, or `EncodeOverflow` where it has no encoding.
pub fn encode(value: MessageValue) -> (r: Result<Vec<u8>, CodecError>)
    ensures
        match spec_encode(value@) {
            Some(bytes) => r is Ok && r->Ok_0@ == bytes,
            None => r is Err && r->Err_0 == CodecError::EncodeOverflow,
        },
{
    let mut packer = Packer::new(MessageBuffer::new(64));
    match packer.pack(value) {
        Ok(()) => {
            let bytes = packer.into_stream().into_bytes();
            assert(bytes@ =~= spec_encode(value@)->0);
            Ok(bytes)
        },
        Err(e) => Err(e),
    }
}

/// The one value that `bytes` hold, with structures nested at most
/// `max_depth` deep. Bytes left over after the value are `DecodeMalformed`.
pub fn decode_with_depth(bytes: Vec<u8>, max_depth: usize) -> (r: Result<MessageValue, CodecError>)
    ensures
        match spec_decode(bytes@, max_depth as nat) {
            Ok(value) => r is Ok && r->Ok_0@ == value,
            Err(e) => r is Err && r->Err_0 == e,
        },
{
    let source = UnpackableBuffer::new(Some(bytes));
    let mut unpacker = Unpacker::with_max_depth(source, max_depth);
    assert(unpacker.remaining() =~= bytes@);
    match unpacker.unpack() {
        Ok(value) => {
            if unpacker.available() == 0 {
                Ok(value)
            } else {
                Err(CodecError::DecodeMalformed)
            }
        },
        Err(e) => Err(e),
    }
}

/// The one value that `bytes` hold, with structures nested at most
/// `DEFAULT_MAX_DEPTH` deep.
pub fn decode(bytes: Vec<u8>) -> (r: Result<MessageValue, CodecError>)
    ensures
        match spec_decode(bytes@, DEFAULT_MAX_DEPTH as nat) {
            Ok(value) => r is Ok && r->Ok_0@ == value,
            Err(e) => r is Err && r->Err_0 == e,
        },
{
    decode_with_depth(bytes, DEFAULT_MAX_DEPTH)
}

} // verus!
