//! The byte sink that the encoder fills and the byte source that the decoder
//! drains.

use vstd::prelude::*;
use vstd::slice::slice_subrange;
use crate::endian::be_value;
use crate::error::CodecError;

verus! {

/// A run of encoded bytes in a region that is sized when the sink is made
/// and grows when it is full. Writing appends, and never drops or cuts short
/// what it is given.
pub struct MessageBuffer {
    buffer: Vec<u8>,
    cursor: usize,
}

impl View for MessageBuffer {
    type V = Seq<u8>;

    closed spec fn view(&self) -> Seq<u8> {
        self.buffer@.take(self.cursor as int)
    }
}

impl MessageBuffer {
    #[verifier::type_invariant]
    spec fn cursor_in_region(&self) -> bool {
        self.cursor <= self.buffer@.len()
    }

    /// The size of the region: how many bytes the sink holds before it has
    /// to grow.
    pub closed spec fn spec_capacity(&self) -> nat {
        self.buffer@.len()
    }

    /// An empty sink with a region of `capacity` bytes.
    pub fn new(capacity: usize) -> (r: Self)
        ensures
            r@ == Seq::<u8>::empty(),
            r.spec_capacity() == capacity,
    {
        MessageBuffer { buffer: vec![0u8; capacity], cursor: 0 }
    }

    /// The size of the region.
    pub fn capacity(&self) -> (r: usize)
        ensures
            r == self.spec_capacity(),
            self@.len() <= r,
    {
        proof {
            use_type_invariant(self);
        }
        self.buffer.len()
    }

    /// Appends all of `data` and returns how many bytes were appended. The
    /// region grows by what does not fit.
    pub fn try_write(&mut self, data: &[u8]) -> (r: Result<usize, CodecError>)
        ensures
            r == Ok::<usize, CodecError>(data@.len() as usize),
            final(self)@ == old(self)@ + data@,
            final(self).spec_capacity() == if old(self)@.len() + data@.len() > old(
                self,
            ).spec_capacity() {
                old(self)@.len() + data@.len()
            } else {
                old(self).spec_capacity()
            },
    {
        proof {
            use_type_invariant(&*self);
        }
        let start = self.cursor;
        let mut region: Vec<u8> = Vec::new();
        self.cursor = 0;
        core::mem::swap(&mut self.buffer, &mut region);
        let mut at: usize = start;
        let mut i: usize = 0;
        while i < data.len()
            invariant
                i <= data@.len(),
                at == start + i,
                at <= region@.len(),
                region@.len() == if at > old(self).buffer@.len() {
                    at as nat
                } else {
                    old(self).buffer@.len()
                },
                region@.take(at as int) == old(self).buffer@.take(start as int) + data@.take(
                    i as int,
                ),
            decreases data@.len() - i,
        {
            let ghost before = region@;
            if at < region.len() {
                region.set(at, data[i]);
            } else {
                region.push(data[i]);
            }
            assert(region.len() == region@.len());
            at = at + 1;
            i += 1;
            assert(region@.take(at as int) =~= before.take(at - 1).push(data@[i - 1]));
            assert(data@.take(i as int) =~= data@.take(i - 1).push(data@[i - 1]));
        }
        assert(data@.take(i as int) =~= data@);
        core::mem::swap(&mut self.buffer, &mut region);
        self.cursor = at;
        Ok(data.len())
    }

    /// The number of bytes written so far.
    pub fn len(&self) -> (r: usize)
        ensures
            r == self@.len(),
    {
        proof {
            use_type_invariant(self);
        }
        self.cursor
    }

    /// Drops everything written after the first `len` bytes: the way to take
    /// back a value that was written in part only. The region stays as it
    /// is.
    pub fn truncate(&mut self, len: usize)
        requires
            len <= old(self)@.len(),
        ensures
            final(self)@ == old(self)@.subrange(0, len as int),
            final(self).spec_capacity() == old(self).spec_capacity(),
    {
        proof {
            use_type_invariant(&*self);
        }
        self.cursor = len;
        assert(self@ =~= old(self)@.subrange(0, len as int));
    }

    /// The bytes written so far.
    pub fn into_bytes(self) -> (r: Vec<u8>)
        ensures
            r@ == self@,
    {
        proof {
            use_type_invariant(&self);
        }
        let written = self.cursor;
        let mut bytes = self.buffer;
        bytes.truncate(written);
        assert(bytes@ =~= self@);
        bytes
    }
}

/// The size of a region after a delivery of `delivered` bytes towards a
/// request for `requested` more: room for the request is made first, where
/// the request fits the machine, and then for whatever came beyond it.
pub open spec fn spec_region_after(region: nat, resident: nat, delivered: nat, requested: nat) -> nat {
    let asked = if resident + requested <= usize::MAX && resident + requested > region {
        resident + requested
    } else {
        region
    };
    if resident + delivered > asked {
        resident + delivered
    } else {
        asked
    }
}

/// A growable region of bytes of which a prefix is resident, with a read
/// cursor inside that prefix.
pub struct UnpackableBuffer {
    buffer: Vec<u8>,
    used: usize,
    pos: usize,
}

impl UnpackableBuffer {
    /// Whether the cursor lies inside the resident bytes and these inside the
    /// region. Constructors establish this and every method keeps it.
    pub closed spec fn wf(&self) -> bool {
        self.pos <= self.used <= self.buffer@.len()
    }

    /// What well-formedness means for the model.
    pub proof fn lemma_wf_bounds(&self)
        requires
            self.wf(),
        ensures
            self.position() <= self.resident().len() <= self.region(),
            self.remaining().len() == self.resident().len() - self.position(),
    {
    }

    /// The bytes that have been received and not discarded.
    pub closed spec fn resident(&self) -> Seq<u8> {
        self.buffer@.subrange(0, self.used as int)
    }

    /// The number of resident bytes already read.
    pub closed spec fn position(&self) -> nat {
        self.pos as nat
    }

    /// The size of the region, resident bytes included.
    pub closed spec fn region(&self) -> nat {
        self.buffer@.len()
    }

    /// The resident bytes that have not been read yet.
    pub open spec fn remaining(&self) -> Seq<u8> {
        self.resident().skip(self.position() as int)
    }

    /// A buffer over `buffer`, all of it resident and unread, or an empty one
    /// where none is given.
    pub fn new(buffer: Option<Vec<u8>>) -> (r: Self)
        ensures
            r.wf(),
            r.position() == 0,
            r.resident() == match buffer {
                Some(bytes) => bytes@,
                None => Seq::<u8>::empty(),
            },
            r.region() == r.resident().len(),
    {
        match buffer {
            Some(buffer) => {
                let len = buffer.len();
                assert(buffer@.subrange(0, len as int) =~= buffer@);
                Self { buffer, used: len, pos: 0 }
            },
            None => {
                let r = Self { buffer: Vec::with_capacity(8192), used: 0, pos: 0 };
                assert(r.resident() =~= Seq::<u8>::empty());
                r
            },
        }
    }

    /// Discards all resident bytes and rewinds the cursor. The region is kept
    /// for the next message.
    pub fn reset(&mut self)
        requires
            old(self).wf(),
        ensures
            final(self).wf(),
            final(self).resident() == Seq::<u8>::empty(),
            final(self).position() == 0,
            final(self).region() == old(self).region(),
    {
        self.pos = 0;
        self.used = 0;
        assert(self.resident() =~= Seq::<u8>::empty());
    }

    /// The number of resident bytes that have not been read yet.
    pub fn available(&self) -> (r: usize)
        requires
            self.wf(),
        ensures
            r == self.remaining().len(),
            self.position() + r == self.resident().len(),
    {
        self.used - self.pos
    }

    /// The next `n` unread bytes, past which the cursor moves; or
    /// `EndOfData`, with nothing changed, where fewer than `n` are resident.
    pub fn read(&mut self, n: usize) -> (r: Result<&[u8], CodecError>)
        requires
            old(self).wf(),
        ensures
            final(self).wf(),
            final(self).resident() == old(self).resident(),
            final(self).region() == old(self).region(),
            match r {
                Ok(bytes) => {
                    &&& n <= old(self).remaining().len()
                    &&& bytes@ == old(self).remaining().take(n as int)
                    &&& final(self).position() == old(self).position() + n
                    &&& final(self).remaining() == old(self).remaining().skip(n as int)
                },
                Err(e) => {
                    &&& e == CodecError::EndOfData
                    &&& n > old(self).remaining().len()
                    &&& final(self).position() == old(self).position()
                },
            },
    {
        if n > self.used - self.pos {
            return Err(CodecError::EndOfData);
        }
        let start = self.pos;
        self.pos = self.pos + n;
        let result = slice_subrange(self.buffer.as_slice(), start, start + n);
        assert(result@ =~= old(self).remaining().take(n as int));
        Ok(result)
    }

    /// The next unread byte, past which the cursor moves; or `EndOfData`,
    /// with nothing changed, where none is resident.
    pub fn read_u8(&mut self) -> (r: Result<u8, CodecError>)
        requires
            old(self).wf(),
        ensures
            final(self).wf(),
            final(self).resident() == old(self).resident(),
            final(self).region() == old(self).region(),
            match r {
                Ok(byte) => {
                    &&& old(self).remaining().len() > 0
                    &&& byte == old(self).remaining()[0]
                    &&& final(self).position() == old(self).position() + 1
                    &&& final(self).remaining() == old(self).remaining().skip(1)
                },
                Err(e) => {
                    &&& e == CodecError::EndOfData
                    &&& old(self).remaining().len() == 0
                    &&& final(self).position() == old(self).position()
                },
            },
    {
        if self.pos >= self.used {
            return Err(CodecError::EndOfData);
        }
        let result = self.buffer[self.pos];
        self.pos += 1;
        Ok(result)
    }

    /// Moves the cursor back to `position`, so that bytes read since are
    /// unread again.
    pub fn rewind(&mut self, position: usize)
        requires
            old(self).wf(),
            position <= old(self).position(),
        ensures
            final(self).wf(),
            final(self).resident() == old(self).resident(),
            final(self).region() == old(self).region(),
            final(self).position() == position,
    {
        self.pos = position;
    }

    /// The cursor: how many resident bytes have been read.
    pub fn pos(&self) -> (r: usize)
        requires
            self.wf(),
        ensures
            r == self.position(),
            r <= self.resident().len(),
    {
        self.pos
    }

    /// Takes the last two resident bytes off the end and returns the number
    /// they spell, most significant byte first. With fewer than two resident
    /// bytes it returns `0` and changes nothing. A cursor that stood in the
    /// bytes taken moves back to the new end.
    pub fn pop_u16(&mut self) -> (r: u16)
        requires
            old(self).wf(),
        ensures
            final(self).wf(),
            final(self).region() == old(self).region(),
            old(self).resident().len() >= 2 ==> {
                let len = old(self).resident().len() as int;
                &&& r == be_value(old(self).resident().subrange(len - 2, len))
                &&& final(self).resident() == old(self).resident().subrange(0, len - 2)
                &&& final(self).position() == if old(self).position() <= len - 2 {
                    old(self).position() as int
                } else {
                    len - 2
                }
            },
            old(self).resident().len() < 2 ==> {
                &&& r == 0
                &&& final(self).resident() == old(self).resident()
                &&& final(self).position() == old(self).position()
            },
    {
        if self.used >= 2 {
            let high = self.buffer[self.used - 2];
            let low = self.buffer[self.used - 1];
            let result = (high as u16) * 256 + (low as u16);
            proof {
                let len = self.used as int;
                let pair = old(self).resident().subrange(len - 2, len);
                reveal_with_fuel(be_value, 3);
                assert(pair.drop_last().drop_last() =~= Seq::<u8>::empty());
                assert(pair.drop_last().last() == high);
                assert(pair.last() == low);
            }
            let end = self.used - 2;
            if self.pos > end {
                self.pos = end;
            }
            self.used = end;
            assert(self.resident() =~= old(self).resident().subrange(0, end as int));
            result
        } else {
            0
        }
    }

    /// Grows the region to `new_size` bytes where it is smaller. Resident
    /// bytes and cursor stay as they are.
    pub fn resize_buffer(&mut self, new_size: usize)
        requires
            old(self).wf(),
        ensures
            final(self).wf(),
            final(self).resident() == old(self).resident(),
            final(self).position() == old(self).position(),
            final(self).region() == if new_size > old(self).region() {
                new_size as nat
            } else {
                old(self).region()
            },
    {
        while self.buffer.len() < new_size
            invariant
                self.pos == old(self).pos,
                self.used == old(self).used,
                self.pos <= self.used <= self.buffer@.len(),
                old(self).buffer@.len() <= self.buffer@.len(),
                self.buffer@.len() <= new_size || self.buffer@.len() == old(self).buffer@.len(),
                self.buffer@.subrange(0, self.used as int) == old(self).buffer@.subrange(
                    0,
                    self.used as int,
                ),
            decreases new_size - self.buffer@.len(),
        {
            let ghost before = self.buffer@;
            self.buffer.push(0);
            assert(self.buffer@.subrange(0, self.used as int) =~= before.subrange(
                0,
                self.used as int,
            ));
        }
    }

    /// Takes in what one read from the transport delivered towards a request
    /// for `n_bytes` more resident bytes, and returns how many of these are
    /// still outstanding. All of `data` becomes resident, after the bytes
    /// already there. An empty delivery while bytes are outstanding means
    /// that the transport has closed: that is `EndOfData`, and nothing
    /// changes.
    pub fn receive(&mut self, data: &[u8], n_bytes: usize) -> (r: Result<usize, CodecError>)
        requires
            old(self).wf(),
        ensures
            final(self).wf(),
            final(self).position() == old(self).position(),
            match r {
                Ok(outstanding) => {
                    &&& data@.len() > 0 || n_bytes == 0
                    &&& final(self).resident() == old(self).resident() + data@
                    &&& outstanding == if n_bytes > data@.len() {
                        n_bytes - data@.len()
                    } else {
                        0
                    }
                    &&& final(self).region() == spec_region_after(
                        old(self).region(),
                        old(self).resident().len(),
                        data@.len(),
                        n_bytes as nat,
                    )
                },
                Err(e) => {
                    &&& e == CodecError::EndOfData
                    &&& data@.len() == 0 && n_bytes > 0
                    &&& final(self).resident() == old(self).resident()
                    &&& final(self).region() == old(self).region()
                },
            },
    {
        if data.len() == 0 && n_bytes > 0 {
            return Err(CodecError::EndOfData);
        }
        match self.used.checked_add(n_bytes) {
            Some(end) => {
                if end > self.buffer.len() {
                    self.resize_buffer(end);
                }
            },
            None => {},
        }
        let ghost start = self.resident();
        let ghost made_room = self.region();
        let mut i: usize = 0;
        while i < data.len()
            invariant
                i <= data@.len(),
                self.pos == old(self).pos,
                self.pos <= self.used <= self.buffer@.len(),
                made_room == spec_region_after(
                    old(self).region(),
                    old(self).resident().len(),
                    0,
                    n_bytes as nat,
                ),
                self.used == old(self).used + i,
                self.buffer@.len() == if made_room >= self.used {
                    made_room
                } else {
                    self.used as nat
                },
                start == old(self).resident(),
                self.buffer@.subrange(0, self.used as int) == start + data@.subrange(0, i as int),
            decreases data@.len() - i,
        {
            let ghost before = self.buffer@;
            if self.used < self.buffer.len() {
                self.buffer.set(self.used, data[i]);
            } else {
                self.buffer.push(data[i]);
            }
            assert(self.buffer.len() == self.buffer@.len());
            self.used = self.used + 1;
            i += 1;
            assert(self.buffer@.subrange(0, self.used as int) =~= before.subrange(
                0,
                self.used - 1,
            ).push(data@[i - 1]));
            assert(data@.subrange(0, i as int) =~= data@.subrange(0, i - 1).push(data@[i - 1]));
        }
        assert(data@.subrange(0, i as int) =~= data@);
        if n_bytes > data.len() {
            Ok(n_bytes - data.len())
        } else {
            Ok(0)
        }
    }
}

} // verus!
