//! The mathematical model of chunked UTF-8 reassembly.
use vstd::prelude::*;
use vstd::utf8::*;

verus! {

broadcast use vstd::seq::group_seq_axioms;

/// Length of the longest prefix of `s` made of whole, well-formed UTF-8 characters.
pub open spec fn valid_up_to(s: Seq<u8>) -> int
    decreases s.len(),
{
    if s.len() > 0 && valid_first_scalar(s) && length_of_first_scalar(s) <= s.len() {
        length_of_first_scalar(s) + valid_up_to(pop_first_scalar(s))
    } else {
        0
    }
}

/// Longest carry ever held: one less than the widest UTF-8 encoding.
pub const MAX_CARRY: usize = 3;

/// Decodes the filled region `s` as far as it goes. Returns the bytes to emit and the bytes
/// to carry into the next step. A tail longer than `MAX_CARRY` cannot be the start of one
/// character, so its first byte is dropped and decoding resumes after it.
pub open spec fn settle(s: Seq<u8>) -> (Seq<u8>, Seq<u8>)
    decreases s.len(),
{
    let v = valid_up_to(s);
    // `valid_up_to` never passes the end, so the second test only makes termination evident.
    if s.len() - v <= MAX_CARRY || !(0 <= v < s.len()) {
        (s.take(v), s.skip(v))
    } else {
        let rest = settle(s.skip(v + 1));
        (s.take(v) + rest.0, rest.1)
    }
}

/// One step of the reassembler: the carry from before, followed by a new chunk.
pub open spec fn step(carry: Seq<u8>, chunk: Seq<u8>) -> (Seq<u8>, Seq<u8>) {
    settle(carry + chunk)
}

/// Feeds every chunk in order, starting from `carry`. Returns the fragments emitted, one per
/// chunk, and the final carry.
pub open spec fn run(carry: Seq<u8>, chunks: Seq<Seq<u8>>) -> (Seq<Seq<u8>>, Seq<u8>)
    decreases chunks.len(),
{
    if chunks.len() == 0 {
        (Seq::empty(), carry)
    } else {
        let first = step(carry, chunks[0]);
        let rest = run(first.1, chunks.drop_first());
        (seq![first.0] + rest.0, rest.1)
    }
}

/// Sum of the lengths of the chunks.
pub open spec fn total_len(chunks: Seq<Seq<u8>>) -> int
    decreases chunks.len(),
{
    if chunks.len() == 0 {
        0
    } else {
        chunks[0].len() + total_len(chunks.drop_first())
    }
}

proof fn lemma_first_scalar_len(s: Seq<u8>)
    requires
        valid_first_scalar(s),
    ensures
        1 <= length_of_first_scalar(s) <= 4,
        length_of_first_scalar(s) <= s.len(),
{
}

/// The bytes before `valid_up_to(s)` are well-formed, and decoding stops there.
pub proof fn lemma_valid_up_to(s: Seq<u8>)
    ensures
        0 <= valid_up_to(s) <= s.len(),
        valid_utf8(s.take(valid_up_to(s))),
        valid_up_to(s) < s.len() ==> !valid_first_scalar(s.skip(valid_up_to(s))),
    decreases s.len(),
{
    if s.len() > 0 && valid_first_scalar(s) {
        lemma_first_scalar_len(s);
        let k = length_of_first_scalar(s);
        let t = pop_first_scalar(s);
        lemma_valid_up_to(t);
        let w = valid_up_to(t);
        let head = s.take(k);
        assert(valid_utf8(head)) by {
            reveal_with_fuel(valid_utf8, 2);
            assert(pop_first_scalar(head) =~= Seq::<u8>::empty());
        }
        valid_utf8_concat(head, t.take(w));
        assert(head + t.take(w) =~= s.take(k + w));
        assert(t.skip(w) =~= s.skip(k + w));
    } else {
        assert(s.take(0) =~= Seq::<u8>::empty());
        assert(s.skip(0) =~= s);
    }
}

/// On well-formed input, `valid_up_to` reaches the end.
pub proof fn lemma_valid_up_to_of_valid(s: Seq<u8>)
    requires
        valid_utf8(s),
    ensures
        valid_up_to(s) == s.len(),
    decreases s.len(),
{
    if s.len() > 0 {
        lemma_first_scalar_len(s);
        lemma_valid_up_to_of_valid(pop_first_scalar(s));
    }
}

/// Where `s` is followed by `r` into well-formed text, decoding `s` stops inside its last
/// character: the tail is shorter than one character and completes into well-formed text.
pub proof fn lemma_valid_up_to_of_prefix(s: Seq<u8>, r: Seq<u8>)
    requires
        valid_utf8(s + r),
    ensures
        s.len() - valid_up_to(s) <= MAX_CARRY,
        valid_utf8(s.skip(valid_up_to(s)) + r),
    decreases s.len(),
{
    let t = s + r;
    if s.len() == 0 {
        assert(s.skip(0) =~= s);
    } else {
        lemma_first_scalar_len(t);
        let k = length_of_first_scalar(t);
        assert(s[0] == t[0]);
        if s.len() >= k {
            assert(forall|i: int| 0 <= i < k ==> s[i] == t[i]);
            assert(valid_first_scalar(s));
            assert(length_of_first_scalar(s) == k);
            assert(pop_first_scalar(s) + r =~= pop_first_scalar(t));
            lemma_valid_up_to_of_prefix(pop_first_scalar(s), r);
            lemma_valid_up_to(pop_first_scalar(s));
            assert(valid_up_to(s) == k + valid_up_to(pop_first_scalar(s)));
            assert(pop_first_scalar(s).skip(valid_up_to(pop_first_scalar(s))) =~= s.skip(
                valid_up_to(s),
            ));
        } else {
            if valid_first_scalar(s) {
                lemma_first_scalar_len(s);
                assert(false);
            }
            assert(s.skip(0) =~= s);
        }
    }
}

/// Facts about one settling of the filled region: what is emitted is well-formed, the carry
/// is short and cannot begin with a whole character, and no byte is invented.
pub proof fn lemma_settle(s: Seq<u8>)
    ensures
        valid_utf8(settle(s).0),
        settle(s).1.len() <= MAX_CARRY,
        settle(s).1.len() == 0 || !valid_first_scalar(settle(s).1),
        settle(s).0.len() + settle(s).1.len() <= s.len(),
    decreases s.len(),
{
    lemma_valid_up_to(s);
    let v = valid_up_to(s);
    if s.len() - v <= MAX_CARRY {
    } else {
        lemma_settle(s.skip(v + 1));
        valid_utf8_concat(s.take(v), settle(s.skip(v + 1)).0);
    }
}

/// Where `s` is followed by `r` into well-formed text, settling `s` drops nothing: the
/// emitted bytes and the carry make up `s`, and the carry completes into well-formed text.
pub proof fn lemma_settle_of_prefix(s: Seq<u8>, r: Seq<u8>)
    requires
        valid_utf8(s + r),
    ensures
        settle(s).0 + settle(s).1 == s,
        valid_utf8(settle(s).1 + r),
{
    lemma_valid_up_to(s);
    lemma_valid_up_to_of_prefix(s, r);
    assert(s.take(valid_up_to(s)) + s.skip(valid_up_to(s)) =~= s);
}

proof fn lemma_run_valid(carry: Seq<u8>, chunks: Seq<Seq<u8>>)
    requires
        valid_utf8(carry + chunks.flatten()),
        carry.len() == 0 || !valid_first_scalar(carry),
    ensures
        run(carry, chunks).0.flatten() + run(carry, chunks).1 == carry + chunks.flatten(),
        run(carry, chunks).1.len() == 0,
    decreases chunks.len(),
{
    if chunks.len() == 0 {
        assert(carry + chunks.flatten() =~= carry);
        assert(run(carry, chunks).0.flatten() =~= Seq::<u8>::empty());
        if carry.len() > 0 {
            assert(valid_first_scalar(carry));
        }
    } else {
        let s = carry + chunks[0];
        let r = chunks.drop_first().flatten();
        assert(carry + chunks.flatten() =~= s + r);
        lemma_settle_of_prefix(s, r);
        lemma_settle(s);
        let first = settle(s);
        lemma_run_valid(first.1, chunks.drop_first());
        let rest = run(first.1, chunks.drop_first());
        let emitted = seq![first.0] + rest.0;
        assert(emitted.drop_first() =~= rest.0);
        assert(emitted.flatten() == first.0 + rest.0.flatten());
        assert(emitted.flatten() + rest.1 =~= first.0 + (rest.0.flatten() + rest.1));
    }
}

/// Well-formed text, cut into chunks anywhere, comes out whole: the emitted fragments
/// concatenate to the text, and nothing is left carried at the end.
pub proof fn lemma_round_trip(chunks: Seq<Seq<u8>>)
    requires
        valid_utf8(chunks.flatten()),
    ensures
        run(Seq::empty(), chunks).0.flatten() == chunks.flatten(),
        run(Seq::empty(), chunks).1 == Seq::<u8>::empty(),
{
    assert(Seq::<u8>::empty() + chunks.flatten() =~= chunks.flatten());
    lemma_run_valid(Seq::empty(), chunks);
    assert(run(Seq::empty(), chunks).0.flatten() + run(Seq::empty(), chunks).1 =~= run(
        Seq::empty(),
        chunks,
    ).0.flatten());
}

/// Every emitted fragment is well-formed UTF-8 on its own, whatever the input, so none ends
/// inside a character.
pub proof fn lemma_fragments_well_formed(carry: Seq<u8>, chunks: Seq<Seq<u8>>)
    ensures
        run(carry, chunks).0.len() == chunks.len(),
        forall|i: int| 0 <= i < chunks.len() ==> valid_utf8(#[trigger] run(carry, chunks).0[i]),
    decreases chunks.len(),
{
    if chunks.len() > 0 {
        let first = step(carry, chunks[0]);
        lemma_settle(carry + chunks[0]);
        lemma_fragments_well_formed(first.1, chunks.drop_first());
        let out = run(carry, chunks).0;
        assert forall|i: int| 0 <= i < chunks.len() implies valid_utf8(#[trigger] out[i]) by {
            if i > 0 {
                assert(out[i] == run(first.1, chunks.drop_first()).0[i - 1]);
            }
        }
    }
}

/// After any chunk, whatever bytes it held, the carry is at most `MAX_CARRY` bytes long.
pub proof fn lemma_carry_bounded(carry: Seq<u8>, chunks: Seq<Seq<u8>>)
    requires
        carry.len() <= MAX_CARRY,
    ensures
        run(carry, chunks).1.len() <= MAX_CARRY,
    decreases chunks.len(),
{
    if chunks.len() > 0 {
        lemma_settle(carry + chunks[0]);
        lemma_carry_bounded(step(carry, chunks[0]).1, chunks.drop_first());
    }
}

/// Each step consumes its chunk: what it emits and what it carries never exceed what it was
/// given, and the carry stays within `MAX_CARRY` bytes, so a buffer of more than
/// `MAX_CARRY` bytes always has room for the next read.
pub proof fn lemma_progress(carry: Seq<u8>, chunk: Seq<u8>)
    ensures
        step(carry, chunk).1.len() <= MAX_CARRY,
        step(carry, chunk).0.len() + step(carry, chunk).1.len() <= carry.len() + chunk.len(),
{
    lemma_settle(carry + chunk);
}

/// Counting the bytes of each chunk as it arrives gives the length of all the bytes supplied.
pub proof fn lemma_total_len(chunks: Seq<Seq<u8>>)
    ensures
        total_len(chunks) == chunks.flatten().len(),
    decreases chunks.len(),
{
    if chunks.len() > 0 {
        lemma_total_len(chunks.drop_first());
    }
}

} // verus!
