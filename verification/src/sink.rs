//! The byte-sink abstraction: an ordered destination for bytes that either
//! accepts a write whole or reports a failure, plus an in-memory sink and
//! UTF-8 push helpers layered on top of any sink.
use vstd::prelude::*;

verus! {

use vstd::utf8::{encode_scalar, encode_utf8};
use crate::encoding::encode_char;

/// The failure a sink reports when it rejects a write.  A failing write
/// aborts whatever pipeline produced it; bytes already accepted stay where
/// they are.
#[derive(Clone, Copy, Debug, PartialEq, Eq)]
pub struct SinkError;

/// True when `post` is `pre` extended by some prefix of `bytes`: what a
/// failed write leaves behind — whatever part of the attempt arrived
/// stays, nothing is rolled back, and nothing else appears.
pub open spec fn wrote_prefix(pre: Seq<u8>, post: Seq<u8>, bytes: Seq<u8>) -> bool {
    exists|k: int| 0 <= k <= bytes.len() && post == pre + #[trigger] bytes.take(k)
}

/// A step that left a prefix of one segment behind also left a prefix of
/// the whole rendering that the segment sits in: `done` was already fully
/// written, the step appended part of `part`, and `rest` never started.
pub proof fn lemma_wrote_prefix_extend(
    c0: Seq<u8>,
    done: Seq<u8>,
    part: Seq<u8>,
    rest: Seq<u8>,
    cur: Seq<u8>,
)
    requires
        wrote_prefix(c0 + done, cur, part),
    ensures
        wrote_prefix(c0, cur, done + part + rest),
{
    let k = choose|k: int| 0 <= k <= part.len() && cur == (c0 + done) + part.take(k);
    assert(cur =~= c0 + (done + part + rest).take(done.len() + k));
}

/// The first segment's case of the same: a failed first step left a
/// prefix of the whole rendering behind.
pub proof fn lemma_wrote_prefix_head(c0: Seq<u8>, part: Seq<u8>, rest: Seq<u8>, cur: Seq<u8>)
    requires
        wrote_prefix(c0, cur, part),
    ensures
        wrote_prefix(c0, cur, part + rest),
{
    let k = choose|k: int| 0 <= k <= part.len() && cur == c0 + part.take(k);
    assert(cur =~= c0 + (part + rest).take(k));
}

/// An ordered destination for bytes.  `contents` is the sequence of bytes
/// the sink has accepted so far: a successful `write` appends the given
/// bytes whole, and a failed one leaves some prefix of them appended —
/// bytes already accepted are never rolled back.  A sink may declare
/// itself `infallible`, and its writes then always succeed.
pub trait ByteSink {
    /// The bytes accepted so far.  A sink that verified code reasons about
    /// overrides this with its real model; a sink living outside the
    /// verified world can leave the default, of which nothing is claimed.
    open spec fn contents(&self) -> Seq<u8> {
        Seq::<u8>::empty()
    }

    /// Whether this sink can ever reject a write.  The cautious default
    /// says it can; an in-memory sink overrides this, and its callers then
    /// learn that every write succeeds.
    open spec fn infallible(&self) -> bool {
        false
    }

    fn write(&mut self, buf: &[u8]) -> (r: Result<(), SinkError>)
        ensures
            (match r {
                Ok(()) => final(self).contents() == old(self).contents() + buf@,
                Err(_) => wrote_prefix(old(self).contents(), final(self).contents(), buf@),
            }),
            old(self).infallible() ==> r is Ok && final(self).infallible(),
    ;
}

/// An in-memory sink backed by a byte vector; its writes always succeed.
pub struct VecSink {
    pub bytes: Vec<u8>,
}

impl VecSink {
    /// An empty sink.
    pub fn new() -> (s: VecSink)
        ensures
            s.contents() == Seq::<u8>::empty(),
            s.infallible(),
    {
        VecSink { bytes: Vec::new() }
    }

    /// An empty sink that has room for `n` bytes before it reallocates.
    pub fn with_capacity(n: usize) -> (s: VecSink)
        ensures
            s.contents() == Seq::<u8>::empty(),
            s.infallible(),
    {
        VecSink { bytes: Vec::with_capacity(n) }
    }

    /// Hand the accepted bytes back.
    pub fn into_bytes(self) -> (v: Vec<u8>)
        ensures
            v@ == self.contents(),
    {
        self.bytes
    }
}

impl ByteSink for VecSink {
    open spec fn contents(&self) -> Seq<u8> {
        self.bytes@
    }

    open spec fn infallible(&self) -> bool {
        true
    }

    fn write(&mut self, buf: &[u8]) -> (r: Result<(), SinkError>)
        ensures
            r is Ok,
    {
        let mut i: usize = 0;
        while i < buf.len()
            invariant
                i <= buf@.len(),
                self.bytes@ == old(self).bytes@ + buf@.subrange(0, i as int),
            decreases buf@.len() - i,
        {
            self.bytes.push(buf[i]);
            proof {
                assert(old(self).bytes@ + buf@.subrange(0, i as int) + seq![buf@[i as int]]
                    =~= old(self).bytes@ + buf@.subrange(0, i + 1));
            }
            i = i + 1;
        }
        proof {
            assert(buf@.subrange(0, buf@.len() as int) =~= buf@);
        }
        Ok(())
    }
}

/// UTF-8 push operations over any byte sink: a single character or a whole
/// string slice, each reporting the number of bytes it appended.
pub struct Utf8Write;

impl Utf8Write {
    /// Append the UTF-8 encoding of `c` to the sink.
    pub fn push<W: ByteSink>(w: &mut W, c: char) -> (r: Result<usize, SinkError>)
        ensures
            (match r {
                Ok(n) => {
                    &&& final(w).contents() == old(w).contents() + encode_scalar(c as u32)
                    &&& n == encode_scalar(c as u32).len()
                },
                Err(_) => wrote_prefix(
                    old(w).contents(),
                    final(w).contents(),
                    encode_scalar(c as u32),
                ),
            }),
            old(w).infallible() ==> r is Ok && final(w).infallible(),
    {
        let buf = encode_char(c);
        match w.write(buf.as_slice()) {
            Ok(()) => Ok(buf.len()),
            Err(e) => Err(e),
        }
    }

    /// Append the bytes of `s` to the sink.
    pub fn push_str<W: ByteSink>(w: &mut W, s: &str) -> (r: Result<usize, SinkError>)
        ensures
            (match r {
                Ok(n) => {
                    &&& final(w).contents() == old(w).contents() + encode_utf8(s@)
                    &&& n == encode_utf8(s@).len()
                },
                Err(_) => wrote_prefix(old(w).contents(), final(w).contents(), encode_utf8(s@)),
            }),
            old(w).infallible() ==> r is Ok && final(w).infallible(),
    {
        let bytes = s.as_bytes();
        match w.write(bytes) {
            Ok(()) => Ok(bytes.len()),
            Err(e) => Err(e),
        }
    }
}

} // verus!
