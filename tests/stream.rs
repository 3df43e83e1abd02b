use utf8_stream::decode::MAX_CARRY;
use utf8_stream::reassembler::{Reassembler, Step, StreamError, CAPACITY};

fn text(r: Result<Step, StreamError>) -> String {
    match r {
        Ok(Step::Text(t)) => t,
        other => panic!("expected text, got {:?}", other),
    }
}

fn end(r: Result<Step, StreamError>) -> u64 {
    match r {
        Ok(Step::End(total)) => total,
        other => panic!("expected end-of-stream, got {:?}", other),
    }
}

/// Feeds every chunk, then end-of-stream; returns the fragments and the reported total.
fn feed_all(chunks: &[&[u8]]) -> (Vec<String>, u64) {
    let mut r = Reassembler::new();
    let mut out = Vec::new();
    for c in chunks {
        out.push(text(r.feed(c)));
        assert!(r.pending() <= MAX_CARRY);
    }
    let total = end(r.feed(&[]));
    (out, total)
}

#[test]
fn ascii_chunks_pass_through() {
    let (frags, total) = feed_all(&[b"He", b"llo"]);
    assert_eq!(frags, vec!["He".to_string(), "llo".to_string()]);
    assert_eq!(total, 5);
}

#[test]
fn three_byte_char_split_across_chunks() {
    let euro = "€".as_bytes();
    assert_eq!(euro.len(), 3);
    let mut r = Reassembler::new();
    assert_eq!(text(r.feed(&euro[..1])), "");
    assert_eq!(r.pending(), 1);
    assert_eq!(text(r.feed(&euro[1..])), "€");
    assert_eq!(r.pending(), 0);
    assert_eq!(end(r.feed(&[])), 3);
}

#[test]
fn immediate_end_of_stream() {
    let (frags, total) = feed_all(&[]);
    assert!(frags.is_empty());
    assert_eq!(total, 0);
}

#[test]
fn invalid_byte_inside_chunk_is_dropped() {
    let (frags, total) = feed_all(&[b"ab\xFFcdef"]);
    assert_eq!(frags, vec!["abcdef".to_string()]);
    assert_eq!(total, 7);
}

#[test]
fn invalid_byte_held_then_dropped() {
    let mut r = Reassembler::new();
    assert_eq!(text(r.feed(b"a\xFFb")), "a");
    assert_eq!(r.pending(), 2);
    assert_eq!(text(r.feed(b"cd")), "bcd");
    assert_eq!(r.pending(), 0);
    assert_eq!(end(r.feed(&[])), 5);
}

#[test]
fn invalid_bytes_never_stall() {
    let mut r = Reassembler::new();
    for _ in 0..1000 {
        let frag = text(r.feed(b"\xFF"));
        assert_eq!(frag, "");
        assert!(r.pending() <= MAX_CARRY);
        assert!(r.free_space() >= CAPACITY - MAX_CARRY);
    }
    assert_eq!(end(r.feed(&[])), 1000);
}

#[test]
fn round_trip_one_byte_chunks() {
    let s = "héllo, wörld € 𝄞 ok";
    let bytes = s.as_bytes();
    let chunks: Vec<&[u8]> = bytes.chunks(1).collect();
    let (frags, total) = feed_all(&chunks);
    assert_eq!(frags.concat(), s);
    assert_eq!(total as usize, bytes.len());
}

#[test]
fn round_trip_every_split_point() {
    let s = "a€𝄞é漢字b";
    let bytes = s.as_bytes();
    for cut in 1..bytes.len() {
        let (frags, total) = feed_all(&[&bytes[..cut], &bytes[cut..]]);
        assert_eq!(frags.concat(), s);
        assert_eq!(total as usize, bytes.len());
    }
}

#[test]
fn four_byte_char_carry_is_three() {
    let clef = "𝄞".as_bytes();
    let mut r = Reassembler::new();
    assert_eq!(text(r.feed(&clef[..3])), "");
    assert_eq!(r.pending(), 3);
    assert_eq!(r.free_space(), CAPACITY - 3);
    assert_eq!(text(r.feed(&clef[3..])), "𝄞");
}

#[test]
fn oversized_chunk_is_refused() {
    let mut r = Reassembler::new();
    let big = vec![b'x'; CAPACITY + 1];
    assert!(matches!(r.feed(&big), Err(StreamError::BufferOverrun)));
    assert_eq!(r.total(), 0);
    let full = vec![b'x'; CAPACITY];
    assert_eq!(text(r.feed(&full)).len(), CAPACITY);
    assert_eq!(text(r.feed(&"é".as_bytes()[..1])), "");
    assert!(matches!(r.feed(&full), Err(StreamError::BufferOverrun)));
    assert_eq!(r.pending(), 1);
    assert_eq!(r.total(), CAPACITY as u64 + 1);
}

#[test]
fn total_counts_every_byte() {
    let (_, total) = feed_all(&[b"ab", b"\xE2", b"\x82\xAC", b"\xFF\xFF\xFF\xFF\xFF", b"z"]);
    assert_eq!(total, 11);
}

#[test]
fn reset_clears_carry_and_count() {
    let mut r = Reassembler::new();
    text(r.feed(&"€".as_bytes()[..2]));
    assert_eq!(r.pending(), 2);
    r.reset();
    assert_eq!(r.pending(), 0);
    assert_eq!(r.total(), 0);
    assert_eq!(r.free_space(), CAPACITY);
    assert_eq!(text(r.feed(b"ok")), "ok");
}

#[test]
fn end_of_stream_keeps_state() {
    let mut r = Reassembler::new();
    text(r.feed(&"€".as_bytes()[..1]));
    assert_eq!(end(r.feed(&[])), 1);
    assert_eq!(r.pending(), 1);
}
