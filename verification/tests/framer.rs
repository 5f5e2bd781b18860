//! Byte-stream framing.

use hoverboard::link::framer::{
    encode, FrameError, StreamFramer, MAX_L2_LEN, MAX_STREAM_FRAME, SOF, STREAM_CRC_LEN, STREAM_HEADER_LEN,
};

// Collect emitted L2 frames into owned vectors so assertions outlive the borrow.
fn run(chunks: &[&[u8]]) -> Vec<Vec<u8>> {
    let mut framer: StreamFramer<MAX_STREAM_FRAME> = StreamFramer::new();
    let mut got: Vec<Vec<u8>> = Vec::new();
    for chunk in chunks {
        got.extend(framer.feed(chunk));
    }
    got
}

// Encode an L2 frame (frag-hdr + chunk) into a stream frame.
fn frame(l2: &[u8]) -> Vec<u8> {
    let mut out = [0u8; MAX_STREAM_FRAME];
    let n = encode(l2, &mut out).unwrap();
    out[..n].to_vec()
}

#[test]
fn framer_round_trip_nonempty() {
    // L2 frame = frag-hdr 0x00 + chunk [1,2,3,4].
    let l2 = [0x00, 1, 2, 3, 4];
    let got = run(&[&frame(&l2)]);
    assert_eq!(got.len(), 1);
    assert_eq!(&got[0][..], &l2);
}

#[test]
fn round_trip_empty_payload() {
    // Empty chunk: the L2 frame is a lone frag-hdr (len == 1). This is the "empty
    // payload" framer case.
    let l2 = [0x00];
    let f = frame(&l2);
    assert_eq!(f.len(), STREAM_HEADER_LEN + 1 + STREAM_CRC_LEN); // SOF len hdr CRC CRC
    let got = run(&[&f]);
    assert_eq!(got.len(), 1);
    assert_eq!(&got[0][..], &l2);
}

#[test]
fn bad_crc_dropped() {
    let mut f = frame(&[0x00, 0xAA, 0xBB]);
    let hdr_off = STREAM_HEADER_LEN; // first byte of the L2 frame (frag-hdr)
    f[hdr_off + 1] ^= 0xFF; // corrupt a chunk byte, leave CRC
    let got = run(&[&f]);
    assert_eq!(got.len(), 0);
}

#[test]
fn split_across_read_chunks() {
    let l2 = [0x00, 9, 8, 7, 6, 5];
    let f = frame(&l2);
    // Split inside the header, inside the chunk, and inside the CRC (last byte alone).
    let got = run(&[&f[..1], &f[1..3], &f[3..f.len() - 1], &f[f.len() - 1..]]);
    assert_eq!(got.len(), 1);
    assert_eq!(&got[0][..], &l2);
}

#[test]
fn coalesced_frames() {
    let a = frame(&[0x00, 1]);
    let b = frame(&[0x11, 2, 3]);
    let c = frame(&[0x22]); // empty chunk
    let mut joined = Vec::new();
    joined.extend_from_slice(&a);
    joined.extend_from_slice(&b);
    joined.extend_from_slice(&c);
    let got = run(&[&joined]);
    assert_eq!(got.len(), 3);
    assert_eq!(&got[0][..], &[0x00, 1]);
    assert_eq!(&got[1][..], &[0x11, 2, 3]);
    assert_eq!(&got[2][..], &[0x22]);
}

#[test]
fn resync_past_garbage_and_false_sof() {
    let l2 = [0x00, 0x11, 0x22];
    // Leading garbage that contains a stray 0x5A which is NOT a real frame start. The stray SOF
    // declares len=1, so its candidate frame (5A 01 77 00 00) completes within the garbage, fails
    // CRC, and the framer resyncs past it, then decodes the real frame that follows.
    let mut stream = Vec::new();
    stream.extend_from_slice(&[0x00, 0xFF, SOF, 0x01, 0x77, 0x00, 0x00]);
    stream.extend_from_slice(&frame(&l2));
    let got = run(&[&stream]);
    assert_eq!(got.len(), 1);
    assert_eq!(&got[0][..], &l2);
}

#[test]
fn false_sof_with_large_len_delays_then_recovers() {
    // The format has no magic/version byte after SOF, so a stray 0x5A whose `len` byte is large
    // declares a long frame that absorbs the following real frame as payload. Recovery is only
    // DELAYED, not lost: once the declared window fills the CRC fails, the framer resyncs by
    // replaying the buffered tail, and the embedded real frame is found. (Within a truncated
    // stream the window never fills, so nothing is emitted; this documents that boundary.)
    let l2 = [0x00, 0x11, 0x22];
    let real = frame(&l2);

    // Truncated: the false 153-byte window never fills, so the real frame stays buffered.
    let mut short = Vec::new();
    short.extend_from_slice(&[SOF, 0x99]); // stray SOF, len = 153
    short.extend_from_slice(&real);
    assert_eq!(run(&[&short]).len(), 0);

    // Continued: enough trailing bytes to fill the false window. The candidate CRC fails, the
    // framer replays the tail, and the real frame is recovered.
    let mut long = short.clone();
    long.extend_from_slice(&[0u8; 160]); // pad past the 153-byte window
    let got = run(&[&long]);
    assert_eq!(got.len(), 1);
    assert_eq!(&got[0][..], &l2);
}

#[test]
fn iterative_resync_terminates_on_pathological_garbage() {
    // A run of SOF bytes far longer than MAX_STREAM_FRAME, each a false frame start that resyncs
    // a byte at a time. The resync must be iterative/bounded: a recursive resync would recurse
    // per dropped byte and blow the GD32 stack. The properties pinned here: it terminates (no
    // crash, no stack growth), it emits no false frame for the garbage, and the framer is not
    // wedged afterward (once the false window is flushed, a real frame is recovered).
    let garbage = vec![SOF; MAX_STREAM_FRAME * 4];
    let l2 = [0x00, 0xA5, 0x5A];

    let mut framer: StreamFramer<MAX_STREAM_FRAME> = StreamFramer::new();
    assert!(framer.feed(&garbage).is_empty(), "garbage must not emit a frame");

    // Flush the trailing false-SOF window, then feed a real frame: it is recovered. (An all-SOF
    // run never self-completes its declared window, so recovery is delayed until non-SOF bytes
    // flush it - the documented byte-stream resync-delay property.)
    let mut got: Vec<Vec<u8>> = Vec::new();
    assert!(framer.feed(&[0x00; MAX_STREAM_FRAME]).is_empty(), "flush must not emit a frame");
    got.extend(framer.feed(&frame(&l2)));
    assert_eq!(got.len(), 1);
    assert_eq!(&got[0][..], &l2);
}

#[test]
fn resync_false_sof_then_real_frame() {
    // A false SOF immediately followed by a len that points past the real frame; the CRC fails
    // and the framer must still recover the following real frame.
    let l2 = [0x33, 0x42];
    let mut stream = Vec::new();
    stream.extend_from_slice(&[SOF, 0x02, 0xDE, 0xAD]); // false SOF, len=2, junk that fails CRC
    stream.extend_from_slice(&frame(&l2));
    let got = run(&[&stream]);
    assert_eq!(got.len(), 1);
    assert_eq!(&got[0][..], &l2);
}

#[test]
fn trailing_bytes_tolerated() {
    let l2 = [0x00, 0x55];
    let mut stream = frame(&l2);
    // Trailing non-SOF garbage after a complete frame must not break or fabricate a frame.
    stream.extend_from_slice(&[0x00, 0x01, 0x02, 0xFF]);
    let got = run(&[&stream]);
    assert_eq!(got.len(), 1);
    assert_eq!(&got[0][..], &l2);
}

#[test]
fn frames_stand_in_the_stream_in_order_and_apart() {
    let first = [0x00, 9, 8];
    let second = [0x41];
    let (f, g) = (frame(&first), frame(&second));
    let mut s = vec![1, 2, 3];
    s.extend(&f);
    s.push(0x7F);
    s.extend(&g);
    s.extend([SOF, 5, 1]);
    let got = run(&[&s]);
    assert_eq!(got, vec![first.to_vec(), second.to_vec()]);
    assert_eq!(s[3..3 + f.len()], f[..]);
    let at = 3 + f.len() + 1;
    assert_eq!(s[at..at + g.len()], g[..]);
    // What stays behind is the end of the stream: it goes on where it stopped.
    let mut framer: StreamFramer<MAX_STREAM_FRAME> = StreamFramer::new();
    assert_eq!(framer.feed(&s).len(), 2);
    let last = frame(&[1, 2, 3, 4, 5]);
    assert_eq!(framer.feed(&last[3..]), vec![vec![1, 2, 3, 4, 5]]);
}

#[test]
fn len_zero_is_rejected() {
    // A frame claiming len == 0 (no frag-hdr) is structurally invalid: resync, deliver nothing,
    // and still recover a following real frame.
    let l2 = [0x00, 0x77];
    let mut stream = Vec::new();
    stream.extend_from_slice(&[SOF, 0x00, 0x12, 0x34]);
    stream.extend_from_slice(&frame(&l2));
    let got = run(&[&stream]);
    assert_eq!(got.len(), 1);
    assert_eq!(&got[0][..], &l2);
}

#[test]
fn encode_rejects_empty_and_oversize() {
    let mut out = [0u8; MAX_STREAM_FRAME];
    assert_eq!(encode(&[], &mut out), Err(FrameError::BadLen));
    let too_long = [0u8; MAX_L2_LEN + 1];
    assert_eq!(encode(&too_long, &mut out), Err(FrameError::BadLen));
    // Out buffer too small.
    let mut tiny = [0u8; 3];
    assert_eq!(encode(&[0x00, 1], &mut tiny), Err(FrameError::OutTooSmall));
}

// Drive `feed_one` repeatedly across each feed slice, collecting frames via the
// one-frame-per-call path (the receive-drain contract), advancing by the reported consumed count.
fn run_feed_one(feeds: &[&[u8]]) -> Vec<Vec<u8>> {
    let mut framer: StreamFramer<MAX_STREAM_FRAME> = StreamFramer::new();
    let mut got: Vec<Vec<u8>> = Vec::new();
    for feed in feeds {
        let mut pos = 0;
        loop {
            let (one, consumed) = framer.feed_one(&feed[pos..]);
            pos += consumed;
            let had_frame = one.is_some();
            if let Some(f) = one {
                got.push(f);
            }
            // Done with this feed once it is fully consumed and produced no further frame.
            if !had_frame && (pos >= feed.len() || consumed == 0) {
                break;
            }
        }
    }
    got
}

#[test]
fn feed_one_returns_one_frame_per_call() {
    // The one-frame-per-call contract: each call returns exactly ONE frame and consumes only that
    // frame's bytes, leaving the coalesced remainder for the next call.
    let a = frame(&[0x00, 0x11]);
    let b = frame(&[0x11, 0x22, 0x33]);
    let mut joined = Vec::new();
    joined.extend_from_slice(&a);
    joined.extend_from_slice(&b);

    let mut framer: StreamFramer<MAX_STREAM_FRAME> = StreamFramer::new();
    let (one, consumed) = framer.feed_one(&joined);
    assert_eq!(consumed, a.len(), "consumed exactly the first frame");
    assert_eq!(one.unwrap(), &[0x00, 0x11]);
    let (two, consumed2) = framer.feed_one(&joined[consumed..]);
    assert_eq!(consumed2, b.len());
    assert_eq!(two.unwrap(), &[0x11, 0x22, 0x33]);
}

#[test]
fn feed_one_header_split_across_feeds() {
    // SOF alone in the first feed, len + rest in the second: the bulk body copy must resume
    // correctly after the header completes on a later feed.
    let l2 = [0x00u8, 1, 2, 3, 4, 5, 6, 7];
    let f = frame(&l2);
    let got = run_feed_one(&[&f[..1], &f[1..]]);
    assert_eq!(got.len(), 1);
    assert_eq!(&got[0][..], &l2);
}

#[test]
fn feed_one_body_split_across_feeds() {
    // Header + partial body in the first feed, the rest (incl CRC) in the second: two bulk copies
    // accumulate the one frame across the boundary.
    let l2 = [0x00u8, 10, 20, 30, 40, 50, 60, 70, 80, 90];
    let f = frame(&l2);
    let mid = f.len() - 3; // split inside the body, before the CRC
    let got = run_feed_one(&[&f[..mid], &f[mid..]]);
    assert_eq!(got.len(), 1);
    assert_eq!(&got[0][..], &l2);
}

#[test]
fn feed_one_resyncs_past_garbage_and_false_sof() {
    // Leading garbage + a false SOF (len=1, fails CRC) then the real frame, in one feed: feed_one
    // bulk-skips the garbage, drops the false candidate, and delivers the real frame.
    let l2 = [0x00u8, 0xAB, 0xCD];
    let mut stream = Vec::new();
    stream.extend_from_slice(&[0x00, 0xFF, 0x13, SOF, 0x01, 0x77, 0x00, 0x00]);
    stream.extend_from_slice(&frame(&l2));
    let got = run_feed_one(&[&stream]);
    assert_eq!(got.len(), 1);
    assert_eq!(&got[0][..], &l2);
}

#[test]
fn feed_one_matches_feed_on_coalesced_stream() {
    // Equivalence: the one-frame-per-call path yields the same frames, same order, as the
    // emit-all `feed` for a coalesced multi-frame stream.
    let a = frame(&[0x00, 1]);
    let b = frame(&[0x11, 2, 3, 4]);
    let c = frame(&[0x22]); // empty chunk
    let mut joined = Vec::new();
    for f in [&a, &b, &c] {
        joined.extend_from_slice(f);
    }
    let via_feed = run(&[&joined]);
    let via_feed_one = run_feed_one(&[&joined]);
    assert_eq!(via_feed, via_feed_one);
    assert_eq!(via_feed.len(), 3);
}

// --- The differential property test ----------------------------------------------------------
//
// Over many pseudo-random byte streams (real frames + garbage + explicit false SOFs + SOF
// runs), split into random chunks of <= 24 B (the `recv_l2_frame` PULL_CHUNK stage), the two
// decode paths must agree EXACTLY: the emit-all `feed` and the iterated one-frame-per-call
// `feed_one` produce the identical frame sequence, and `feed_one` accounts for every input
// byte. Fully deterministic: a fixed-seed xorshift, no wall-clock / OS randomness.

/// A tiny deterministic xorshift64 (seed must be nonzero); reproducible across runs/platforms.
struct Rng(u64);
impl Rng {
    fn new(seed: u64) -> Self {
        Rng(seed | 1)
    }
    fn next_u32(&mut self) -> u32 {
        let mut x = self.0;
        x ^= x << 13;
        x ^= x >> 7;
        x ^= x << 17;
        self.0 = x;
        (x >> 32) as u32
    }
    /// A value in `0..n` (n > 0).
    fn below(&mut self, n: u32) -> u32 {
        self.next_u32() % n
    }
    fn byte(&mut self) -> u8 {
        self.next_u32() as u8
    }
}

/// Build one pseudo-random wire stream mixing valid frames, garbage, false SOFs, and SOF runs.
fn build_stream(rng: &mut Rng) -> Vec<u8> {
    let mut s = Vec::new();
    let segments = 3 + rng.below(12);
    for _ in 0..segments {
        match rng.below(4) {
            0 => {
                // A valid frame with a random-length, random-content L2 body.
                let l2len = 1 + rng.below(24) as usize;
                let mut l2 = Vec::with_capacity(l2len);
                for _ in 0..l2len {
                    l2.push(rng.byte());
                }
                let mut out = [0u8; MAX_STREAM_FRAME];
                let n = encode(&l2, &mut out).unwrap();
                s.extend_from_slice(&out[..n]);
            }
            1 => {
                // Random garbage (may itself contain stray SOF bytes).
                let g = 1 + rng.below(10);
                for _ in 0..g {
                    s.push(rng.byte());
                }
            }
            2 => {
                // An explicit false SOF with a random len byte and random junk body.
                s.push(SOF);
                s.push(rng.byte());
                let j = rng.below(8);
                for _ in 0..j {
                    s.push(rng.byte());
                }
            }
            _ => {
                // A run of SOF bytes (the pathological resync-a-byte-at-a-time case).
                let r = 1 + rng.below(6) as usize;
                s.resize(s.len() + r, SOF);
            }
        }
    }
    s
}

/// Split `s` into random chunks of size 1..=24 (the recv-drain stage width).
fn chunk<'a>(s: &'a [u8], rng: &mut Rng) -> Vec<&'a [u8]> {
    let mut chunks = Vec::new();
    let mut i = 0;
    while i < s.len() {
        let max = 24.min(s.len() - i) as u32;
        let sz = 1 + rng.below(max) as usize;
        chunks.push(&s[i..i + sz]);
        i += sz;
    }
    chunks
}

/// Drive iterated `feed_one` over the chunk sequence, collecting frames and total consumed.
fn via_feed_one(chunks: &[&[u8]]) -> (Vec<Vec<u8>>, usize) {
    let mut framer: StreamFramer<MAX_STREAM_FRAME> = StreamFramer::new();
    let mut got: Vec<Vec<u8>> = Vec::new();
    let mut total = 0usize;
    for c in chunks {
        let mut pos = 0;
        loop {
            let (one, consumed) = framer.feed_one(&c[pos..]);
            pos += consumed;
            total += consumed;
            let had = one.is_some();
            if let Some(f) = one {
                got.push(f);
            }
            if !had && (pos >= c.len() || consumed == 0) {
                break;
            }
        }
    }
    (got, total)
}

#[test]
fn feed_and_feed_one_agree_on_random_chunked_streams() {
    // Iterate many deterministic streams from a fixed root seed.
    let root = Rng::new(0x9E37_79B9_7F4A_7C15);
    for iter in 0..2000u64 {
        let mut sr = Rng::new(root.0 ^ iter.wrapping_mul(0x2545_F491_4F6C_DD1D));
        let stream = build_stream(&mut sr);

        // Same chunk boundaries feed both decoders (apples-to-apples).
        let chunks = chunk(&stream, &mut sr);

        let via_feed = {
            let mut framer: StreamFramer<MAX_STREAM_FRAME> = StreamFramer::new();
            let mut got: Vec<Vec<u8>> = Vec::new();
            for c in &chunks {
                got.extend(framer.feed(c));
            }
            got
        };
        let (via_one, consumed) = via_feed_one(&chunks);

        assert_eq!(
            via_feed,
            via_one,
            "feed vs iterated feed_one disagree on stream {iter} (len {})",
            stream.len()
        );
        assert_eq!(
            consumed,
            stream.len(),
            "feed_one must account for every input byte on stream {iter}"
        );
    }
}
