//! Model of the peekable stream: a duplex byte stream wrapped together with
//! an in-memory read-ahead buffer.
//!
//! The buffer holds bytes that were pulled off the underlying stream while
//! inspecting a request preamble.  Downstream readers always observe the
//! buffer's bytes first, in order, and only then fresh bytes of the
//! underlying stream.  The underlying stream itself lives outside the
//! library: the event loop reads single bytes from it and hands them in
//! through [`PeekableStream::feed`], and serves downstream reads from
//! [`PeekableStream::read_into`] while the buffer is non-empty.

use vstd::prelude::*;

use crate::header::{spec_parse, spec_serialize, upsert, Header};
use crate::RwebError;

verus! {

/// Preamble reads are refused once the buffer passes this many bytes
/// without a terminating blank line.
pub const MAX_HEADER_LEN: usize = 65536;

/// The read-ahead state of a peekable stream.
pub struct PeekableStream {
    pub peek_buf: Vec<u8>,
}

/// The smaller of two lengths.
pub open spec fn min_len(a: int, b: int) -> int {
    if a < b {
        a
    } else {
        b
    }
}

/// The buffer ends with the blank line that terminates a preamble.
pub open spec fn ends_crlfcrlf(s: Seq<u8>) -> bool {
    s.len() >= 4 && s[s.len() - 4] == 13 && s[s.len() - 3] == 10 && s[s.len() - 2] == 13 && s[
        s.len() - 1] == 10
}

/// What a preamble scan asks of its caller next.
pub enum PeekPoll {
    /// The buffer holds a complete preamble: parse it.
    Done,
    /// The scan failed; carries the error to report.
    Fail(RwebError),
    /// Another byte of the underlying stream is needed.
    NeedMore,
}

/// One downstream read observing `r`: while the peek buffer `p` is
/// non-empty the read drains its front, and only with `p` empty does it
/// take bytes directly from the underlying stream `s`.
pub open spec fn valid_read(p: Seq<u8>, s: Seq<u8>, r: Seq<u8>) -> bool {
    if p.len() > 0 {
        r.len() <= p.len() && r == p.take(r.len() as int)
    } else {
        r.len() <= s.len() && r == s.take(r.len() as int)
    }
}

/// The peek buffer after a read observing `r`.
pub open spec fn step_peek(p: Seq<u8>, r: Seq<u8>) -> Seq<u8> {
    if p.len() > 0 {
        p.skip(r.len() as int)
    } else {
        p
    }
}

/// The underlying stream's remaining bytes after a read observing `r`.
pub open spec fn step_stream(p: Seq<u8>, s: Seq<u8>, r: Seq<u8>) -> Seq<u8> {
    if p.len() > 0 {
        s
    } else {
        s.skip(r.len() as int)
    }
}

/// A run of downstream reads from state `(p, s)` that observes the chunks
/// `rs` in order.
pub open spec fn reads_observe(p: Seq<u8>, s: Seq<u8>, rs: Seq<Seq<u8>>) -> bool
    decreases rs.len(),
{
    if rs.len() == 0 {
        true
    } else {
        valid_read(p, s, rs[0]) && reads_observe(
            step_peek(p, rs[0]),
            step_stream(p, s, rs[0]),
            rs.drop_first(),
        )
    }
}

/// The peek buffer left after a run of reads.
pub open spec fn final_peek(p: Seq<u8>, s: Seq<u8>, rs: Seq<Seq<u8>>) -> Seq<u8>
    decreases rs.len(),
{
    if rs.len() == 0 {
        p
    } else {
        final_peek(step_peek(p, rs[0]), step_stream(p, s, rs[0]), rs.drop_first())
    }
}

/// The underlying stream bytes left after a run of reads.
pub open spec fn final_stream(p: Seq<u8>, s: Seq<u8>, rs: Seq<Seq<u8>>) -> Seq<u8>
    decreases rs.len(),
{
    if rs.len() == 0 {
        s
    } else {
        final_stream(step_peek(p, rs[0]), step_stream(p, s, rs[0]), rs.drop_first())
    }
}

/// The concatenation of a sequence of chunks.
pub open spec fn concat_all(rs: Seq<Seq<u8>>) -> Seq<u8>
    decreases rs.len(),
{
    if rs.len() == 0 {
        Seq::empty()
    } else {
        rs[0].add(concat_all(rs.drop_first()))
    }
}

/// Law: whatever succession of reads is made, the bytes observed are
/// exactly the peek buffer as it stood first, followed by the bytes the
/// underlying stream produced — nothing reordered, nothing skipped.
pub proof fn lemma_reads_observe_buffer_then_stream(p: Seq<u8>, s: Seq<u8>, rs: Seq<Seq<u8>>)
    requires
        reads_observe(p, s, rs),
    ensures
        concat_all(rs).add(final_peek(p, s, rs).add(final_stream(p, s, rs))) == p.add(s),
        concat_all(rs) == p.add(s).take(concat_all(rs).len() as int),
    decreases rs.len(),
{
    if rs.len() == 0 {
        assert(concat_all(rs).add(final_peek(p, s, rs).add(final_stream(p, s, rs))) =~= p.add(
            s,
        ));
        assert(concat_all(rs) =~= p.add(s).take(0));
    } else {
        let r = rs[0];
        let pm = step_peek(p, r);
        let sm = step_stream(p, s, r);
        lemma_reads_observe_buffer_then_stream(pm, sm, rs.drop_first());
        assert(r.add(pm.add(sm)) =~= p.add(s));
        assert(concat_all(rs).add(final_peek(p, s, rs).add(final_stream(p, s, rs))) =~= r.add(
            concat_all(rs.drop_first()).add(
                final_peek(pm, sm, rs.drop_first()).add(final_stream(pm, sm, rs.drop_first())),
            ),
        ));
        assert(concat_all(rs).add(final_peek(p, s, rs).add(final_stream(p, s, rs))) =~= p.add(
            s,
        ));
        assert(concat_all(rs) =~= p.add(s).take(concat_all(rs).len() as int));
    }
}

/// Law: after the buffer is reset to a serialized preamble, the first
/// bytes observed downstream are exactly that serialized preamble.
pub proof fn lemma_reset_header_observed(
    m: Seq<u8>,
    u: Seq<u8>,
    v: Seq<u8>,
    es: Seq<(Seq<u8>, Seq<u8>)>,
    s: Seq<u8>,
    rs: Seq<Seq<u8>>,
)
    requires
        reads_observe(spec_serialize(m, u, v, es), s, rs),
        concat_all(rs).len() <= spec_serialize(m, u, v, es).len(),
    ensures
        concat_all(rs) == spec_serialize(m, u, v, es).take(concat_all(rs).len() as int),
{
    let p = spec_serialize(m, u, v, es);
    lemma_reads_observe_buffer_then_stream(p, s, rs);
    assert(p.add(s).take(concat_all(rs).len() as int) =~= p.take(concat_all(rs).len() as int));
}

/// Law: with the peek buffer cleared, every byte observed downstream comes
/// directly from the underlying stream, and the buffer stays empty.
pub proof fn lemma_peek_remove_observed(s: Seq<u8>, rs: Seq<Seq<u8>>)
    requires
        reads_observe(Seq::empty(), s, rs),
    ensures
        concat_all(rs) == s.take(concat_all(rs).len() as int),
        final_peek(Seq::empty(), s, rs) == Seq::<u8>::empty(),
    decreases rs.len(),
{
    lemma_reads_observe_buffer_then_stream(Seq::empty(), s, rs);
    assert(Seq::<u8>::empty().add(s) =~= s);
    assert(concat_all(rs) =~= s.take(concat_all(rs).len() as int));
    if rs.len() > 0 {
        assert(step_peek(Seq::empty(), rs[0]) =~= Seq::<u8>::empty());
        lemma_peek_remove_observed(step_stream(Seq::empty(), s, rs[0]), rs.drop_first());
    }
}

impl PeekableStream {
    /// A fresh wrapper with an empty read-ahead buffer.
    pub fn new() -> (r: PeekableStream)
        ensures
            r.peek_buf@ == Seq::<u8>::empty(),
    {
        PeekableStream { peek_buf: Vec::new() }
    }

    /// Number of buffered bytes.
    pub fn buffered(&self) -> (r: usize)
        ensures
            r == self.peek_buf@.len(),
    {
        self.peek_buf.len()
    }

    /// Appends one byte pulled off the underlying stream while peeking.
    pub fn feed(&mut self, b: u8)
        ensures
            final(self).peek_buf@ == old(self).peek_buf@.push(b),
    {
        self.peek_buf.push(b);
    }

    /// Copies up to `n` front bytes of the buffer without consuming them.
    pub fn peek(&self, n: usize) -> (r: Vec<u8>)
        ensures
            r@ == self.peek_buf@.take(min_len(n as int, self.peek_buf@.len() as int)),
    {
        let len = if n < self.peek_buf.len() {
            n
        } else {
            self.peek_buf.len()
        };
        let mut out: Vec<u8> = Vec::new();
        let mut i: usize = 0;
        while i < len
            invariant
                i <= len <= self.peek_buf@.len(),
                out@ == self.peek_buf@.take(i as int),
            decreases len - i,
        {
            proof {
                assert(self.peek_buf@.take(i + 1) =~= self.peek_buf@.take(i as int).push(
                    self.peek_buf@[i as int],
                ));
            }
            out.push(self.peek_buf[i]);
            i = i + 1;
        }
        out
    }

    /// Serves one downstream read of up to `n` bytes from the buffer: the
    /// front bytes are returned and consumed, in order.  With the buffer
    /// empty nothing is returned and the caller reads the underlying
    /// stream directly.
    pub fn read_into(&mut self, n: usize) -> (r: Vec<u8>)
        ensures
            r@ == old(self).peek_buf@.take(
                min_len(n as int, old(self).peek_buf@.len() as int),
            ),
            final(self).peek_buf@ == old(self).peek_buf@.skip(r@.len() as int),
            r@.add(final(self).peek_buf@) == old(self).peek_buf@,
            forall|s: Seq<u8>| #[trigger] valid_read(old(self).peek_buf@, s, r@),
            step_peek(old(self).peek_buf@, r@) == final(self).peek_buf@,
    {
        let len = if n < self.peek_buf.len() {
            n
        } else {
            self.peek_buf.len()
        };
        let r = self.peek(n);
        let rest = self.peek_buf.split_off(len);
        proof {
            assert(old(self).peek_buf@.subrange(0, len as int) =~= old(self).peek_buf@.take(
                len as int,
            ));
            assert(old(self).peek_buf@.subrange(len as int, old(self).peek_buf@.len() as int)
                =~= old(self).peek_buf@.skip(len as int));
        }
        self.peek_buf = rest;
        proof {
            assert(r@.add(self.peek_buf@) =~= old(self).peek_buf@);
            assert forall|s: Seq<u8>| #[trigger] valid_read(old(self).peek_buf@, s, r@) by {
                if old(self).peek_buf@.len() == 0 {
                    assert(r@ =~= s.take(r@.len() as int));
                }
            }
        }
        r
    }

    /// Replaces the whole buffer with the serialized form of a preamble,
    /// so the downstream side sees a rewritten preamble.
    pub fn reset_header(&mut self, header: &Header)
        ensures
            final(self).peek_buf@ == spec_serialize(
                header.method@,
                header.uri@,
                header.version@,
                header.entries(),
            ),
    {
        self.peek_buf = header.serialize();
    }

    /// Drops the buffer entirely; used before tunneling, whose preamble
    /// must not reach the upstream side.
    pub fn peek_remove(&mut self)
        ensures
            final(self).peek_buf@ == Seq::<u8>::empty(),
    {
        self.peek_buf.clear();
    }

    /// Whether the buffered bytes already end with the preamble terminator.
    pub fn buffer_complete(&self) -> (r: bool)
        ensures
            r == ends_crlfcrlf(self.peek_buf@),
    {
        let n = self.peek_buf.len();
        n >= 4 && self.peek_buf[n - 4] == 13 && self.peek_buf[n - 3] == 10 && self.peek_buf[n
            - 2] == 13 && self.peek_buf[n - 1] == 10
    }

    /// One step of the preamble scan: parse when the terminator is seen,
    /// fail with the fixed "header too long" error once the buffer passes
    /// the limit without it, and ask for another byte otherwise.
    pub fn peek_header_poll(&self) -> (r: PeekPoll)
        ensures
            ends_crlfcrlf(self.peek_buf@) ==> r is Done,
            !ends_crlfcrlf(self.peek_buf@) && self.peek_buf@.len() > MAX_HEADER_LEN
                ==> (r matches PeekPoll::Fail(e) && e.code == 500 && e.msg@
                == "header too long"@),
            !ends_crlfcrlf(self.peek_buf@) && self.peek_buf@.len() <= MAX_HEADER_LEN
                ==> r is NeedMore,
    {
        if self.buffer_complete() {
            PeekPoll::Done
        } else if self.peek_buf.len() > MAX_HEADER_LEN {
            PeekPoll::Fail(RwebError::new(500, "header too long"))
        } else {
            PeekPoll::NeedMore
        }
    }

    /// Parses the buffered bytes as a preamble, leaving them buffered.
    pub fn parse_buffer(&self) -> (r: Result<Header, RwebError>)
        ensures
            r is Ok <==> spec_parse(self.peek_buf@) is Some,
            r matches Ok(h) ==> spec_parse(self.peek_buf@) matches Some(p) && h.method@
                == p.method && h.uri@ == p.uri && h.version@ == p.version && h.entries()
                == p.entries && h.wf(),
            r matches Err(e) ==> e.code == 2400,
    {
        Header::parse(self.peek_buf.as_slice())
    }

    /// Parses the buffer, sets the given header, and writes the rewritten
    /// preamble back into the buffer.
    pub fn peek_header_set(&mut self, key: Vec<u8>, value: Vec<u8>) -> (r: Result<
        (),
        RwebError,
    >)
        ensures
            r is Ok <==> spec_parse(old(self).peek_buf@) is Some,
            r is Ok ==> (spec_parse(old(self).peek_buf@) matches Some(p) && final(self).peek_buf@ == spec_serialize(
                p.method,
                p.uri,
                p.version,
                upsert(p.entries, key@, value@),
            )),
            r matches Err(e) ==> e.code == 2400 && final(self).peek_buf@ == old(self).peek_buf@,
    {
        match Header::parse(self.peek_buf.as_slice()) {
            Ok(mut h) => {
                h.set(key, value);
                self.peek_buf = h.serialize();
                Ok(())
            },
            Err(e) => Err(e),
        }
    }

    /// Parses the buffer, removes the given header, and writes the
    /// rewritten preamble back into the buffer.
    pub fn peek_header_remove(&mut self, key: &[u8]) -> (r: Result<(), RwebError>)
        ensures
            r is Ok <==> spec_parse(old(self).peek_buf@) is Some,
            r is Ok ==> (spec_parse(old(self).peek_buf@) matches Some(p) && final(self).peek_buf@ == spec_serialize(
                p.method,
                p.uri,
                p.version,
                crate::header::remove_key(p.entries, key@),
            )),
            r matches Err(e) ==> e.code == 2400 && final(self).peek_buf@ == old(self).peek_buf@,
    {
        match Header::parse(self.peek_buf.as_slice()) {
            Ok(mut h) => {
                h.remove(key);
                self.peek_buf = h.serialize();
                Ok(())
            },
            Err(e) => Err(e),
        }
    }
}

} // verus!
