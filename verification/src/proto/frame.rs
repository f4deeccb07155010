//! Frames: a length, and that many bytes.

use super::number::{le4, lemma_le4, push_u32, read_u32, value4};
use crate::bytes::{append_bytes, copy_range};
use vstd::prelude::*;

verus! {

/// A payload with its length before it.
pub open spec fn framed(payload: Seq<u8>) -> Seq<u8> {
    le4(payload.len() as u32) + payload
}

/// A payload with its length before it.
pub fn frame(payload: &[u8]) -> (out: Vec<u8>)
    ensures
        out@ == framed(payload@),
{
    let mut out: Vec<u8> = Vec::new();
    push_u32(&mut out, payload.len() as u32);
    append_bytes(&mut out, payload);
    assert(out@ =~= framed(payload@));
    out
}

/// Why a stream of frames is given up on.
#[derive(Clone, Copy, Debug, PartialEq, Eq, Structural)]
pub enum FrameError {
    /// A frame is announced that is longer than allowed.
    TooLong { len: u32, max: u32 },
}

/// Cuts a stream of bytes into frames, however the bytes arrive.
pub struct FrameDecoder {
    max: u32,
    pending: Vec<u8>,
}

/// What the bytes at hand begin with.
pub enum Peek {
    /// Less than a frame.
    Partial,
    /// A frame of this length.
    Whole(u32),
    /// The announcement of a frame of this length, which is too long.
    TooLong(u32),
}

/// What the bytes at hand begin with.
pub open spec fn peek(bytes: Seq<u8>, max: u32) -> Peek {
    if bytes.len() < 4 {
        Peek::Partial
    } else if value4(bytes.take(4)) > max {
        Peek::TooLong(value4(bytes.take(4)))
    } else if bytes.len() < 4 + value4(bytes.take(4)) {
        Peek::Partial
    } else {
        Peek::Whole(value4(bytes.take(4)))
    }
}

impl FrameDecoder {
    /// The bytes not cut into frames yet.
    pub closed spec fn bytes(&self) -> Seq<u8> {
        self.pending@
    }

    /// The longest frame allowed.
    pub closed spec fn limit(&self) -> u32 {
        self.max
    }

    /// A decoder of frames of at most `max` bytes.
    pub fn new(max: u32) -> (decoder: FrameDecoder)
        ensures
            decoder.limit() == max,
            decoder.bytes() == Seq::<u8>::empty(),
    {
        FrameDecoder { max, pending: Vec::new() }
    }

    /// Takes in bytes that arrived.
    pub fn feed(&mut self, bytes: &[u8])
        ensures
            final(self).limit() == old(self).limit(),
            final(self).bytes() == old(self).bytes() + bytes@,
    {
        append_bytes(&mut self.pending, bytes);
    }

    /// The next frame, where it has arrived in full.
    pub fn next_frame(&mut self) -> (res: Result<Option<Vec<u8>>, FrameError>)
        ensures
            final(self).limit() == old(self).limit(),
            match peek(old(self).bytes(), old(self).limit()) {
                Peek::Partial => res is Ok && res->Ok_0 is None && final(self).bytes() == old(
                    self,
                ).bytes(),
                Peek::Whole(len) => {
                    &&& res is Ok
                    &&& res->Ok_0 is Some
                    &&& res->Ok_0->0@ == old(self).bytes().subrange(4, 4 + len)
                    &&& final(self).bytes() == old(self).bytes().skip(4 + len)
                },
                Peek::TooLong(len) => {
                    &&& res == Err::<Option<Vec<u8>>, FrameError>(
                        FrameError::TooLong { len, max: old(self).limit() },
                    )
                    &&& final(self).bytes() == old(self).bytes()
                },
            },
    {
        if self.pending.len() < 4 {
            return Ok(None);
        }
        let len = read_u32(self.pending.as_slice(), 0);
        assert(self.pending@.subrange(0, 4) =~= self.pending@.take(4));
        if len > self.max {
            return Err(FrameError::TooLong { len, max: self.max });
        }
        if self.pending.len() - 4 < len as usize {
            return Ok(None);
        }
        let end = 4 + len as usize;
        let frame = copy_range(self.pending.as_slice(), 4, end);
        let rest = copy_range(self.pending.as_slice(), end, self.pending.len());
        assert(rest@ =~= self.pending@.skip(end as int));
        self.pending = rest;
        Ok(Some(frame))
    }
}

/// A frame comes out as it was put in, whatever follows it on the wire.
pub proof fn law_framed_comes_out(payload: Seq<u8>, rest: Seq<u8>, max: u32)
    requires
        payload.len() <= max,
    ensures
        peek(framed(payload) + rest, max) == Peek::Whole(payload.len() as u32),
        (framed(payload) + rest).subrange(4, (4 + payload.len()) as int) == payload,
        (framed(payload) + rest).skip((4 + payload.len()) as int) == rest,
{
    let bytes = framed(payload) + rest;
    lemma_le4(payload.len() as u32);
    assert(bytes.take(4) =~= le4(payload.len() as u32));
    assert(bytes.subrange(4, (4 + payload.len()) as int) =~= payload);
    assert(bytes.skip((4 + payload.len()) as int) =~= rest);
}

/// Bytes that are only part of a frame wait for the rest.
pub proof fn law_part_of_a_frame_waits(payload: Seq<u8>, n: int, max: u32)
    requires
        payload.len() <= max,
        0 <= n < 4 + payload.len(),
    ensures
        peek(framed(payload).take(n), max) == Peek::Partial,
{
    let bytes = framed(payload).take(n);
    lemma_le4(payload.len() as u32);
    if n >= 4 {
        assert(bytes.take(4) =~= le4(payload.len() as u32));
    }
}

/// A frame that is announced longer than allowed is refused at once, whatever of
/// it has arrived.
pub proof fn law_long_frame_is_refused(len: u32, rest: Seq<u8>, max: u32)
    requires
        len > max,
    ensures
        peek(le4(len) + rest, max) == Peek::TooLong(len),
{
    lemma_le4(len);
    assert((le4(len) + rest).take(4) =~= le4(len));
}

} // verus!
