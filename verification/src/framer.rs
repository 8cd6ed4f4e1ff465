//! The request framer: turns a stream of reads into a stream of frames.
//!
//! A framer owns the bytes read from one connection that do not yet form
//! a complete frame.  Each `feed` appends newly read bytes and drains
//! every complete frame from the front of the buffer, so a single read
//! carrying several pipelined requests yields them all, in order.
//! Nothing is discarded on `Incomplete`; a malformed buffer is reported
//! and is fatal for the connection.

use vstd::prelude::*;

use crate::decode::{spec_decode_at, MalformedKind, SpecParse};
use crate::resp::{lemma_value_view_seq_push, value_view_seq, GValue, RESPValues};

verus! {

/// The specified result of draining every complete frame from the front of
/// a buffer: the frames in order, the bytes left over, and the reason if
/// draining stopped on a malformed frame.
pub ghost struct ExtractResult {
    pub frames: Seq<GValue>,
    pub rest: Seq<u8>,
    pub error: Option<MalformedKind>,
}

/// Drains complete frames from the front of `buf` until the remainder is
/// an incomplete prefix or malformed.
pub open spec fn spec_extract(buf: Seq<u8>) -> ExtractResult
    decreases buf.len(),
{
    match spec_decode_at(buf, 0) {
        SpecParse::Found { v, end } => {
            if 0 < end <= buf.len() {
                let tail_result = spec_extract(buf.subrange(end, buf.len() as int));
                ExtractResult {
                    frames: seq![v] + tail_result.frames,
                    rest: tail_result.rest,
                    error: tail_result.error,
                }
            } else {
                // a found frame always lies inside the buffer and consumes
                // at least one byte (`lemma_decode_found_bounds`), so this
                // branch is never reached
                ExtractResult { frames: seq![v], rest: Seq::empty(), error: None }
            }
        },
        SpecParse::Incomplete => ExtractResult { frames: Seq::empty(), rest: buf, error: None },
        SpecParse::Malformed { kind } => ExtractResult {
            frames: Seq::empty(),
            rest: buf,
            error: Some(kind),
        },
    }
}

/// One connection's incremental decoder state: the bytes read so far that
/// do not yet form a complete frame.
pub struct Framer {
    buf: Vec<u8>,
}

impl View for Framer {
    type V = Seq<u8>;

    closed spec fn view(&self) -> Seq<u8> {
        self.buf@
    }
}

/// Appends the bytes of `src` to `dst`.
#[verifier::loop_isolation(false)]
fn push_bytes(dst: &mut Vec<u8>, src: &[u8])
    ensures
        final(dst)@ == old(dst)@ + src@,
{
    let mut i: usize = 0;
    while i < src.len()
        invariant
            i <= src@.len(),
            dst@ == old(dst)@ + src@.take(i as int),
        decreases src@.len() - i,
    {
        dst.push(src[i]);
        proof {
            assert(old(dst)@ + src@.take(i as int) + seq![src@[i as int]] =~= old(dst)@
                + src@.take(i as int + 1));
        }
        i += 1;
    }
    proof {
        assert(src@.take(src@.len() as int) =~= src@);
    }
}

impl Framer {
    /// A framer with an empty buffer.
    pub fn new() -> (r: Framer)
        ensures
            r@ == Seq::<u8>::empty(),
    {
        Framer { buf: Vec::new() }
    }

    /// Appends newly read bytes and drains every complete frame from the
    /// front of the buffer, in order.  The second component reports a
    /// malformed buffer; the caller must then drop the connection, since a
    /// binary protocol cannot be resynchronized safely.
    #[verifier::loop_isolation(false)]
    pub fn feed(&mut self, chunk: &[u8]) -> (r: (Vec<RESPValues>, Option<MalformedKind>))
        ensures
            ({
                let res = spec_extract(old(self)@ + chunk@);
                &&& value_view_seq(r.0@) == res.frames
                &&& final(self)@ == res.rest
                &&& r.1 == res.error
            }),
    {
        push_bytes(&mut self.buf, chunk);
        let ghost stream = self.buf@;
        let mut frames: Vec<RESPValues> = Vec::new();
        loop
            invariant
                spec_extract(stream).frames == value_view_seq(frames@) + spec_extract(
                    self.buf@,
                ).frames,
                spec_extract(stream).rest == spec_extract(self.buf@).rest,
                spec_extract(stream).error == spec_extract(self.buf@).error,
            decreases self.buf@.len(),
        {
            proof {
                assert(value_view_seq(frames@) + Seq::<GValue>::empty() =~= value_view_seq(
                    frames@,
                ));
            }
            match RESPValues::decode(self.buf.as_slice()) {
                Ok((v, consumed)) => {
                    let ghost before = self.buf@;
                    let ghost frames_old = frames@;
                    let tail = self.buf.split_off(consumed);
                    self.buf = tail;
                    frames.push(v);
                    proof {
                        assert(self.buf@ =~= before.subrange(consumed as int, before.len() as int));
                        assert(spec_decode_at(before, 0) == (SpecParse::Found {
                            v: v@,
                            end: consumed as int,
                        }));
                        let tail_frames = spec_extract(self.buf@).frames;
                        assert(spec_extract(before).frames == seq![v@] + tail_frames);
                        assert(spec_extract(before).rest == spec_extract(self.buf@).rest);
                        assert(spec_extract(before).error == spec_extract(self.buf@).error);
                        lemma_value_view_seq_push(frames_old, v);
                        assert(frames@ == frames_old.push(v));
                        assert(value_view_seq(frames@) =~= value_view_seq(frames_old) + seq![v@]);
                        assert((value_view_seq(frames_old) + seq![v@]) + tail_frames
                            =~= value_view_seq(frames_old) + (seq![v@] + tail_frames));
                        assert(spec_extract(stream).frames == value_view_seq(frames@)
                            + tail_frames);
                    }
                },
                Err(e) => {
                    match e {
                        crate::decode::DecodeOutcome::Incomplete => {
                            return (frames, None);
                        },
                        crate::decode::DecodeOutcome::Malformed(kind) => {
                            return (frames, Some(kind));
                        },
                    }
                },
            }
        }
    }
}

} // verus!
