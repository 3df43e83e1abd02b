//! The streaming reassembler: a fixed working buffer, the bytes carried between reads, and
//! the count of bytes read.
use vstd::prelude::*;
use vstd::utf8::*;

use crate::decode::{lemma_settle, lemma_valid_up_to, settle, step, valid_up_to, MAX_CARRY};

verus! {

broadcast use vstd::seq::group_seq_axioms;

/// Capacity of the working buffer, in bytes.
pub const CAPACITY: usize = 256;

/// What one call of [`Reassembler::feed`] produced.
#[derive(Debug)]
pub enum Step {
    /// Well-formed text decoded from this chunk and the carry before it; possibly empty.
    Text(String),
    /// The source signalled end-of-stream; the total number of bytes read.
    End(u64),
}

/// Why a chunk was refused.
#[derive(Debug, Clone, Copy, PartialEq, Eq)]
pub enum StreamError {
    /// The chunk is longer than the free region of the working buffer.
    BufferOverrun,
}

/// `r` reports end-of-stream with `total` bytes read.
pub open spec fn is_end(r: Result<Step, StreamError>, total: nat) -> bool {
    match r {
        Ok(Step::End(t)) => t == total,
        _ => false,
    }
}

/// `r` refuses the chunk as longer than the free region.
pub open spec fn is_overrun(r: Result<Step, StreamError>) -> bool {
    match r {
        Err(StreamError::BufferOverrun) => true,
        _ => false,
    }
}

/// `r` is a text fragment whose UTF-8 encoding is `bytes`.
pub open spec fn is_text(r: Result<Step, StreamError>, bytes: Seq<u8>) -> bool {
    match r {
        Ok(Step::Text(text)) => encode_utf8(text@) == bytes,
        _ => false,
    }
}

/// Decodes an arbitrarily chunked byte stream into fragments of well-formed UTF-8 text,
/// carrying an unfinished character from one chunk to the next.
pub struct Reassembler {
    buf: Vec<u8>,
    offset: usize,
    total: u64,
}

/// Relies on std::str::from_utf8: on failure `Utf8Error::valid_up_to` is the length of the
/// longest prefix made of whole, well-formed characters; on success that is the whole slice.
#[verifier::external_body]
fn utf8_valid_len(bytes: &[u8], start: usize, end: usize) -> (r: usize)
    requires
        start <= end <= bytes@.len(),
    ensures
        r == valid_up_to(bytes@.subrange(start as int, end as int)),
{
    match std::str::from_utf8(&bytes[start..end]) {
        Ok(text) => text.len(),
        Err(e) => e.valid_up_to(),
    }
}

/// Relies on String::from_utf8: well-formed bytes become the string of the characters
/// that they encode.
#[verifier::external_body]
fn text_from_utf8(bytes: Vec<u8>) -> (r: String)
    requires
        valid_utf8(bytes@),
    ensures
        r@ == decode_utf8(bytes@),
{
    match String::from_utf8(bytes) {
        Ok(text) => text,
        Err(_) => String::new(),
    }
}

fn append_range(out: &mut Vec<u8>, src: &Vec<u8>, from: usize, to: usize)
    requires
        from <= to <= src@.len(),
    ensures
        final(out)@ == old(out)@ + src@.subrange(from as int, to as int),
{
    let mut i: usize = from;
    while i < to
        invariant
            from <= i <= to <= src@.len(),
            out@ == old(out)@ + src@.subrange(from as int, i as int),
        decreases to - i,
    {
        out.push(src[i]);
        i = i + 1;
    }
}

/// Writes `chunk` into `buf` from index `at`, keeping the bytes before it.
fn write_at(buf: &mut Vec<u8>, at: usize, chunk: &[u8])
    requires
        at + chunk@.len() <= old(buf)@.len(),
    ensures
        final(buf)@.len() == old(buf)@.len(),
        final(buf)@.take(at + chunk@.len()) == old(buf)@.take(at as int) + chunk@,
{
    let n = chunk.len();
    let cap = buf.len();
    let mut i: usize = 0;
    while i < n
        invariant
            n == chunk@.len(),
            at + n <= cap,
            cap == buf@.len(),
            buf@.len() == old(buf)@.len(),
            i <= n,
            forall|j: int| 0 <= j < at ==> buf@[j] == old(buf)@[j],
            forall|j: int| 0 <= j < i ==> buf@[at + j] == chunk@[j],
        decreases n - i,
    {
        buf[at + i] = chunk[i];
        i = i + 1;
    }
    assert(buf@.take(at + chunk@.len()) =~= old(buf)@.take(at as int) + chunk@);
}

/// Settles `buf[..end]`: returns the bytes to emit and the index where the carry begins.
fn decode_region(buf: &Vec<u8>, end: usize) -> (r: (Vec<u8>, usize))
    requires
        end <= buf@.len(),
    ensures
        r.0@ == settle(buf@.take(end as int)).0,
        r.1 <= end,
        end - r.1 <= MAX_CARRY,
        buf@.subrange(r.1 as int, end as int) == settle(buf@.take(end as int)).1,
{
    let ghost s0 = buf@.take(end as int);
    let mut out: Vec<u8> = Vec::new();
    let mut pos: usize = 0;
    let mut v: usize = utf8_valid_len(buf.as_slice(), 0, end);
    assert(buf@.subrange(0, end as int) =~= s0);
    assert(s0.subrange(0, end as int) =~= s0);
    proof {
        lemma_valid_up_to(s0);
    }
    while end - (pos + v) > MAX_CARRY
        invariant
            end <= buf@.len(),
            s0 == buf@.take(end as int),
            pos + v <= end,
            v == valid_up_to(s0.subrange(pos as int, end as int)),
            out@ + settle(s0.subrange(pos as int, end as int)).0 == settle(s0).0,
            settle(s0.subrange(pos as int, end as int)).1 == settle(s0).1,
        decreases end - pos,
    {
        let ghost sub = s0.subrange(pos as int, end as int);
        assert(sub.skip(v + 1) =~= s0.subrange(pos + v + 1, end as int));
        assert(sub.take(v as int) =~= buf@.subrange(pos as int, pos + v));
        append_range(&mut out, buf, pos, pos + v);
        assert(out@ + settle(sub.skip(v + 1)).0 =~= settle(s0).0);
        pos = pos + v + 1;
        v = utf8_valid_len(buf.as_slice(), pos, end);
        assert(buf@.subrange(pos as int, end as int) =~= s0.subrange(pos as int, end as int));
        proof {
            lemma_valid_up_to(s0.subrange(pos as int, end as int));
        }
    }
    let ghost sub = s0.subrange(pos as int, end as int);
    assert(sub.take(v as int) =~= buf@.subrange(pos as int, pos + v));
    assert(sub.skip(v as int) =~= buf@.subrange(pos + v, end as int));
    append_range(&mut out, buf, pos, pos + v);
    assert(out@ =~= settle(s0).0);
    (out, pos + v)
}

/// Moves `buf[from..to]` to the front of `buf`.
fn move_to_front(buf: &mut Vec<u8>, from: usize, to: usize)
    requires
        from <= to <= old(buf)@.len(),
    ensures
        final(buf)@.len() == old(buf)@.len(),
        final(buf)@.take(to - from) == old(buf)@.subrange(from as int, to as int),
{
    let mut tail: Vec<u8> = Vec::new();
    append_range(&mut tail, buf, from, to);
    let mut k: usize = 0;
    while k < tail.len()
        invariant
            from <= to <= old(buf)@.len(),
            buf@.len() == old(buf)@.len(),
            tail@ == old(buf)@.subrange(from as int, to as int),
            k <= tail@.len(),
            buf@.take(k as int) == tail@.take(k as int),
        decreases tail@.len() - k,
    {
        buf[k] = tail[k];
        k = k + 1;
        assert(buf@.take(k as int) =~= tail@.take(k as int));
    }
    assert(buf@.take(to - from) =~= tail@);
}

impl Reassembler {
    /// The buffer has its full capacity and the carry fits in its first `MAX_CARRY` bytes.
    pub closed spec fn wf(&self) -> bool {
        &&& self.buf@.len() == CAPACITY
        &&& self.offset <= MAX_CARRY
    }

    /// The bytes held over from earlier chunks.
    pub closed spec fn carry(&self) -> Seq<u8> {
        self.buf@.take(self.offset as int)
    }

    /// The number of bytes read since the session began.
    pub closed spec fn total_spec(&self) -> nat {
        self.total as nat
    }

    /// A reassembler with an empty carry and a zero count.
    pub fn new() -> (r: Self)
        ensures
            r.wf(),
            r.carry() == Seq::<u8>::empty(),
            r.total_spec() == 0,
    {
        let mut buf: Vec<u8> = Vec::new();
        let mut i: usize = 0;
        while i < CAPACITY
            invariant
                i <= CAPACITY,
                buf@.len() == i,
            decreases CAPACITY - i,
        {
            buf.push(0);
            i = i + 1;
        }
        let r = Reassembler { buf, offset: 0, total: 0 };
        assert(r.carry() =~= Seq::<u8>::empty());
        r
    }

    /// Clears the carry and the count, to begin a new session.
    pub fn reset(&mut self)
        requires
            old(self).wf(),
        ensures
            final(self).wf(),
            final(self).carry() == Seq::<u8>::empty(),
            final(self).total_spec() == 0,
    {
        self.offset = 0;
        self.total = 0;
        assert(self.carry() =~= Seq::<u8>::empty());
    }

    /// How many bytes are carried over, waiting for the rest of their character.
    pub fn pending(&self) -> (r: usize)
        requires
            self.wf(),
        ensures
            r == self.carry().len(),
    {
        self.offset
    }

    /// The size of the free region that the next read may fill.
    pub fn free_space(&self) -> (r: usize)
        requires
            self.wf(),
        ensures
            r == CAPACITY - self.carry().len(),
            r >= CAPACITY - MAX_CARRY,
    {
        CAPACITY - self.offset
    }

    /// The number of bytes read since the session began.
    pub fn total(&self) -> (r: u64)
        ensures
            r == self.total_spec(),
    {
        self.total
    }

    /// Takes the bytes of one read. An empty chunk is end-of-stream: the state is kept and
    /// the total is reported. A chunk longer than the free region is refused and the state
    /// kept. Otherwise the chunk is appended to the carry, the longest well-formed prefix is
    /// emitted, and the rest is carried; a rest longer than `MAX_CARRY` bytes holds a
    /// malformed byte, which is dropped before decoding resumes.
    pub fn feed(&mut self, chunk: &[u8]) -> (r: Result<Step, StreamError>)
        requires
            old(self).wf(),
            old(self).total_spec() + chunk@.len() <= u64::MAX,
        ensures
            final(self).wf(),
            chunk@.len() == 0 ==> is_end(r, old(self).total_spec()) && *final(self) == *old(self),
            chunk@.len() > 0 && chunk@.len() > CAPACITY - old(self).carry().len() ==> is_overrun(r)
                && *final(self) == *old(self),
            chunk@.len() > 0 && chunk@.len() <= CAPACITY - old(self).carry().len() ==> {
                &&& is_text(r, step(old(self).carry(), chunk@).0)
                &&& final(self).carry() == step(old(self).carry(), chunk@).1
                &&& final(self).total_spec() == old(self).total_spec() + chunk@.len()
            },
    {
        let n = chunk.len();
        if n == 0 {
            return Ok(Step::End(self.total));
        }
        if n > CAPACITY - self.offset {
            return Err(StreamError::BufferOverrun);
        }
        let off = self.offset;
        let end = off + n;
        let ghost s0 = self.carry() + chunk@;
        write_at(&mut self.buf, off, chunk);
        assert(self.buf@.take(end as int) =~= s0);
        let (out, cut) = decode_region(&self.buf, end);
        move_to_front(&mut self.buf, cut, end);
        self.offset = end - cut;
        assert(self.carry() =~= settle(s0).1);
        self.total = self.total + n as u64;
        proof {
            lemma_settle(s0);
            decode_utf8_encode_utf8(out@);
        }
        let text = text_from_utf8(out);
        Ok(Step::Text(text))
    }
}

} // verus!
