//! Chunk framing: a message's bytes travel as length-prefixed chunks, and a
//! chunk of length zero ends the message.

use vstd::prelude::*;
use vstd::slice::slice_subrange;
use crate::codec::{decode_with_depth, encode};
use crate::endian::{be_bytes, be_value, lemma_radix_values, push_be, read_be};
use crate::error::CodecError;
use crate::value::{MessageStructure, MessageValue, ValueView};
use crate::wire::{spec_decode, spec_encode};

verus! {

/// The largest payload that one chunk carries.
pub const MAX_CHUNK: usize = 0xFFFF;

/// The number of bytes in a chunk's length header.
pub const HEADER_SIZE: usize = 2;

/// One chunk on the wire: the payload behind its length in two bytes.
pub open spec fn spec_chunk(payload: Seq<u8>) -> Seq<u8> {
    be_bytes(payload.len(), 2) + payload
}

/// The chunk of length zero that ends a message.
pub open spec fn spec_terminator() -> Seq<u8> {
    seq![0u8, 0u8]
}

/// Whether every chunk has at least one byte and no more than a length
/// header can announce.
pub open spec fn valid_chunks(chunks: Seq<Seq<u8>>) -> bool {
    forall|i: int| 0 <= i < chunks.len() ==> 1 <= (#[trigger] chunks[i]).len() <= MAX_CHUNK
}

/// The payloads of the chunks, one after the other.
pub open spec fn spec_concat(chunks: Seq<Seq<u8>>) -> Seq<u8>
    decreases chunks.len(),
{
    if chunks.len() == 0 {
        Seq::empty()
    } else {
        chunks[0] + spec_concat(chunks.drop_first())
    }
}

/// A message on the wire: each chunk in order, then the terminator.
pub open spec fn spec_frame(chunks: Seq<Seq<u8>>) -> Seq<u8>
    decreases chunks.len(),
{
    if chunks.len() == 0 {
        spec_terminator()
    } else {
        spec_chunk(chunks[0]) + spec_frame(chunks.drop_first())
    }
}

/// A payload cut into chunks of `size` bytes, the last one shorter where the
/// payload's length is no multiple of `size`.
pub open spec fn spec_split(payload: Seq<u8>, size: nat) -> Seq<Seq<u8>>
    decreases payload.len(),
{
    if payload.len() == 0 || size == 0 {
        Seq::empty()
    } else {
        let n = if payload.len() <= size {
            payload.len()
        } else {
            size
        };
        seq![payload.take(n as int)] + spec_split(payload.skip(n as int), size)
    }
}

/// The payload of the message at the front of `wire`, put together from its
/// chunks, with the number of wire bytes that the message takes. Bytes that
/// end before the terminator are `EndOfData`.
pub open spec fn spec_reassemble(wire: Seq<u8>) -> Result<(Seq<u8>, nat), CodecError>
    decreases wire.len(),
{
    if wire.len() < 2 {
        Err(CodecError::EndOfData)
    } else {
        let n = be_value(wire.take(2));
        if n == 0 {
            Ok((Seq::empty(), 2))
        } else if wire.len() < 2 + n {
            Err(CodecError::EndOfData)
        } else {
            match spec_reassemble(wire.skip(2 + n as int)) {
                Ok((rest, used)) => Ok((wire.subrange(2, 2 + n as int) + rest, 2 + n + used)),
                Err(e) => Err(e),
            }
        }
    }
}

/// The wire form of a structure sent in chunks of `chunk_size` bytes, or
/// `None` where the structure has no encoding.
pub open spec fn spec_write_message(message: ValueView, chunk_size: nat) -> Option<Seq<u8>> {
    match spec_encode(message) {
        Some(bytes) => Some(spec_frame(spec_split(bytes, chunk_size))),
        None => None,
    }
}

/// The value that the message at the front of `wire` holds, with the number
/// of wire bytes that the message takes.
pub open spec fn spec_read_message(wire: Seq<u8>, depth: nat) -> Result<(ValueView, nat), CodecError> {
    match spec_reassemble(wire) {
        Ok((payload, used)) => match spec_decode(payload, depth) {
            Ok(value) => Ok((value, used)),
            Err(e) => Err(e),
        },
        Err(e) => Err(e),
    }
}

/// The wire form of `payload`: chunks of `chunk_size` bytes, the last one
/// shorter where need be, then the terminator.
pub fn frame_message(payload: &[u8], chunk_size: u16) -> (r: Vec<u8>)
    requires
        chunk_size > 0,
    ensures
        r@ == spec_frame(spec_split(payload@, chunk_size as nat)),
{
    let size = chunk_size as usize;
    let mut out: Vec<u8> = Vec::new();
    let mut pos: usize = 0;
    let ghost whole = spec_frame(spec_split(payload@, size as nat));
    assert(payload@.skip(0) =~= payload@);
    while pos < payload.len()
        invariant
            pos <= payload@.len(),
            0 < size <= MAX_CHUNK,
            whole == spec_frame(spec_split(payload@, size as nat)),
            whole == out@ + spec_frame(spec_split(payload@.skip(pos as int), size as nat)),
        decreases payload@.len() - pos,
    {
        let left = payload.len() - pos;
        let n = if left <= size {
            left
        } else {
            size
        };
        let ghost before = out@;
        let ghost rest = payload@.skip(pos as int);
        push_be(&mut out, n as u64, 2);
        let chunk = slice_subrange(payload, pos, pos + n);
        let mut i: usize = 0;
        while i < n
            invariant
                i <= n,
                chunk@.len() == n,
                out@ == before + be_bytes(n as nat, 2) + chunk@.take(i as int),
            decreases n - i,
        {
            out.push(chunk[i]);
            i += 1;
            assert(chunk@.take(i as int) =~= chunk@.take(i - 1).push(chunk@[i - 1]));
        }
        proof {
            assert(chunk@.take(n as int) =~= chunk@);
            assert(chunk@ =~= rest.take(n as int));
            assert(rest.skip(n as int) =~= payload@.skip(pos + n));
            let pieces = spec_split(rest, size as nat);
            let later = spec_split(rest.skip(n as int), size as nat);
            assert(pieces == seq![rest.take(n as int)] + later);
            assert(pieces[0] == rest.take(n as int));
            assert(pieces.drop_first() =~= later);
            assert(spec_frame(pieces) == spec_chunk(rest.take(n as int)) + spec_frame(later));
            assert(whole =~= out@ + spec_frame(later));
        }
        pos = pos + n;
    }
    out.push(0);
    out.push(0);
    assert(out@ =~= whole);
    out
}

/// The wire form of a structure: its encoding in chunks of `chunk_size`
/// bytes, then the terminator. Fails with `EncodeOverflow` where the
/// structure has no encoding.
pub fn write_message(message: MessageStructure, chunk_size: u16) -> (r: Result<
    Vec<u8>,
    CodecError,
>)
    requires
        chunk_size > 0,
    ensures
        match spec_write_message(ValueView::Structure(message@), chunk_size as nat) {
            Some(wire) => r is Ok && r->Ok_0@ == wire,
            None => r is Err && r->Err_0 == CodecError::EncodeOverflow,
        },
{
    match encode(MessageValue::Structure(message)) {
        Ok(bytes) => Ok(frame_message(bytes.as_slice(), chunk_size)),
        Err(e) => Err(e),
    }
}

/// Mathematical model of a [`ChunkAssembler`].
pub struct AssemblerView {
    /// The payload put together so far.
    pub payload: Seq<u8>,
    /// How many payload bytes the chunk under way still lacks; `0` between
    /// chunks.
    pub pending: nat,
    /// Whether the terminator has been seen.
    pub done: bool,
}

/// An assembler that has seen nothing yet.
pub open spec fn spec_assembler() -> AssemblerView {
    AssemblerView { payload: Seq::empty(), pending: 0, done: false }
}

/// How many bytes the inbound flow is to read next, all of them: two for a
/// chunk's header, the announced length for its payload, none once the
/// message is complete.
pub open spec fn spec_wanted(state: AssemblerView) -> nat {
    if state.done {
        0
    } else if state.pending == 0 {
        HEADER_SIZE as nat
    } else {
        state.pending
    }
}

/// The state after a read delivered `data`. A read that delivered another
/// number of bytes than were wanted came up short: `EndOfData`. A complete
/// message takes in nothing more.
pub open spec fn spec_accept(state: AssemblerView, data: Seq<u8>) -> Result<
    AssemblerView,
    CodecError,
> {
    if state.done {
        Ok(state)
    } else if data.len() != spec_wanted(state) {
        Err(CodecError::EndOfData)
    } else if state.pending == 0 {
        let n = be_value(data);
        if n == 0 {
            Ok(AssemblerView { payload: state.payload, pending: 0, done: true })
        } else {
            Ok(AssemblerView { payload: state.payload, pending: n, done: false })
        }
    } else {
        Ok(AssemblerView { payload: state.payload + data, pending: 0, done: false })
    }
}

/// The reads that the inbound flow makes of a framed message, in order: for
/// each chunk its header and its payload, and at last the terminator.
pub open spec fn spec_reads(chunks: Seq<Seq<u8>>) -> Seq<Seq<u8>>
    decreases chunks.len(),
{
    if chunks.len() == 0 {
        seq![spec_terminator()]
    } else {
        seq![be_bytes(chunks[0].len(), 2), chunks[0]] + spec_reads(chunks.drop_first())
    }
}

/// The state after one read after the other delivered `reads`.
pub open spec fn spec_accept_all(state: AssemblerView, reads: Seq<Seq<u8>>) -> Result<
    AssemblerView,
    CodecError,
>
    decreases reads.len(),
{
    if reads.len() == 0 {
        Ok(state)
    } else {
        match spec_accept(state, reads[0]) {
            Ok(next) => spec_accept_all(next, reads.drop_first()),
            Err(e) => Err(e),
        }
    }
}

/// Puts one message together from the reads of the inbound flow. It says how
/// many bytes to read next and takes in what the read delivered; the
/// transport itself is the caller's.
pub struct ChunkAssembler {
    data: Vec<u8>,
    pending: u16,
    done: bool,
}

impl View for ChunkAssembler {
    type V = AssemblerView;

    closed spec fn view(&self) -> AssemblerView {
        AssemblerView { payload: self.data@, pending: self.pending as nat, done: self.done }
    }
}

impl ChunkAssembler {
    /// An assembler at the start of a message.
    pub fn new() -> (r: Self)
        ensures
            r@ == spec_assembler(),
    {
        ChunkAssembler { data: Vec::new(), pending: 0, done: false }
    }

    /// How many bytes to read next.
    pub fn wanted(&self) -> (r: usize)
        ensures
            r == spec_wanted(self@),
    {
        if self.done {
            0
        } else if self.pending == 0 {
            HEADER_SIZE
        } else {
            self.pending as usize
        }
    }

    /// Whether the terminator has been seen.
    pub fn is_done(&self) -> (r: bool)
        ensures
            r == self@.done,
    {
        self.done
    }

    /// Takes in what the last read delivered, and returns how many bytes to
    /// read next. A read that came up short is `EndOfData`, and the state
    /// stays as it was.
    pub fn accept(&mut self, data: &[u8]) -> (r: Result<usize, CodecError>)
        ensures
            match spec_accept(old(self)@, data@) {
                Ok(next) => final(self)@ == next && r == Ok::<usize, CodecError>(
                    spec_wanted(next) as usize,
                ),
                Err(e) => final(self)@ == old(self)@ && r == Err::<usize, CodecError>(e),
            },
    {
        if self.done {
            return Ok(0);
        }
        if data.len() != self.wanted() {
            return Err(CodecError::EndOfData);
        }
        if self.pending == 0 {
            proof {
                lemma_radix_values();
            }
            let n = read_be(data) as u16;
            if n == 0 {
                self.done = true;
            } else {
                self.pending = n;
            }
        } else {
            let mut i: usize = 0;
            while i < data.len()
                invariant
                    i <= data@.len(),
                    self.pending == old(self).pending,
                    self.done == old(self).done,
                    self.data@ == old(self).data@ + data@.take(i as int),
                decreases data@.len() - i,
            {
                self.data.push(data[i]);
                i += 1;
                assert(data@.take(i as int) =~= data@.take(i - 1).push(data@[i - 1]));
            }
            assert(data@.take(i as int) =~= data@);
            self.pending = 0;
        }
        Ok(self.wanted())
    }

    /// The payload put together so far: the whole message once the
    /// terminator has been seen.
    pub fn into_payload(self) -> (r: Vec<u8>)
        ensures
            r@ == self@.payload,
    {
        self.data
    }
}

/// The payload of the message at the front of `wire`, put together from its
/// chunks, with the number of wire bytes that the message takes. Bytes that
/// end before the terminator are `EndOfData`.
pub fn reassemble(wire: &[u8]) -> (r: Result<(Vec<u8>, usize), CodecError>)
    ensures
        match spec_reassemble(wire@) {
            Ok((payload, used)) => r is Ok && r->Ok_0.0@ == payload && r->Ok_0.1 == used,
            Err(e) => r is Err && r->Err_0 == e,
        },
{
    let mut assembler = ChunkAssembler::new();
    let mut pos: usize = 0;
    let ghost whole = spec_reassemble(wire@);
    assert(wire@.skip(0) =~= wire@);
    assert(Seq::<u8>::empty() + Seq::<u8>::empty() =~= Seq::<u8>::empty());
    while !assembler.is_done()
        invariant
            pos <= wire@.len(),
            whole == spec_reassemble(wire@),
            assembler@.pending == 0,
            assembler@.done ==> whole == Ok::<(Seq<u8>, nat), CodecError>(
                (assembler@.payload, pos as nat),
            ),
            !assembler@.done ==> match spec_reassemble(wire@.skip(pos as int)) {
                Ok((rest, used)) => whole == Ok::<(Seq<u8>, nat), CodecError>(
                    (assembler@.payload + rest, (pos + used) as nat),
                ),
                Err(e) => whole == Err::<(Seq<u8>, nat), CodecError>(e),
            },
        decreases wire@.len() - pos, if assembler@.done { 0int } else { 1int },
    {
        let ghost rest = wire@.skip(pos as int);
        let ghost so_far = assembler@.payload;
        if wire.len() - pos < HEADER_SIZE {
            return Err(CodecError::EndOfData);
        }
        let header = slice_subrange(wire, pos, pos + HEADER_SIZE);
        assert(header@ =~= rest.take(2));
        let n = match assembler.accept(header) {
            Ok(n) => n,
            Err(e) => {
                return Err(e);
            },
        };
        pos = pos + HEADER_SIZE;
        if n > 0 {
            if wire.len() - pos < n {
                return Err(CodecError::EndOfData);
            }
            let chunk = slice_subrange(wire, pos, pos + n);
            assert(chunk@ =~= rest.subrange(2, 2 + n));
            match assembler.accept(chunk) {
                Ok(_) => {},
                Err(e) => {
                    return Err(e);
                },
            }
            pos = pos + n;
            proof {
                assert(rest.skip(2 + n) =~= wire@.skip(pos as int));
                let later = spec_reassemble(wire@.skip(pos as int));
                if later is Ok {
                    assert(so_far + (chunk@ + later->Ok_0.0) =~= so_far + chunk@
                        + later->Ok_0.0);
                }
            }
        } else {
            assert(so_far + Seq::<u8>::empty() =~= so_far);
        }
    }
    Ok((assembler.into_payload(), pos))
}

/// The value that the message at the front of `wire` holds, with the number
/// of wire bytes that the message takes. The chunks' payloads, put together,
/// must hold exactly one value, with structures nested at most `max_depth`
/// deep.
pub fn read_message(wire: &[u8], max_depth: usize) -> (r: Result<(MessageValue, usize), CodecError>)
    ensures
        match spec_read_message(wire@, max_depth as nat) {
            Ok((value, used)) => r is Ok && r->Ok_0.0@ == value && r->Ok_0.1 == used,
            Err(e) => r is Err && r->Err_0 == e,
        },
{
    match reassemble(wire) {
        Ok((payload, used)) => match decode_with_depth(payload, max_depth) {
            Ok(value) => Ok((value, used)),
            Err(e) => Err(e),
        },
        Err(e) => Err(e),
    }
}

} // verus!
