use ogt::fold::summary::{Fold, SLICE_MAX_BYTES};
use ogt::runner::drain::{drain_chunks, Drained};
use ogt::runner::ring::{trim_tail, TAIL_RING_MAX};
use ogt::runner::spill::{
    payload_is_binary, FeedStep, PumpStep, ReadEvent, SpillError, StreamCapture, StreamSink,
    READ_CHUNK,
};

const PATH: &[u8] = b"/folds/1_test.log";

fn sink(threshold: usize) -> StreamSink {
    StreamSink::new("test".to_string(), Some(b"/folds".to_vec()), threshold, true)
}

fn cut(raw: &[u8], size: usize) -> Vec<Vec<u8>> {
    raw.chunks(size).map(|c| c.to_vec()).collect()
}

fn drain(sink: StreamSink, raw: &[u8]) -> Drained {
    drain_chunks(sink, &cut(raw, READ_CHUNK), PATH.to_vec()).unwrap()
}

fn numbered(n: usize) -> Vec<u8> {
    (0..n)
        .flat_map(|i| format!("line {i}\n").into_bytes())
        .collect()
}

fn folded(capture: StreamCapture) -> Fold {
    match capture {
        StreamCapture::Folded(fold) => fold,
        _ => panic!("expected a fold"),
    }
}

#[test]
fn stays_buffered_below_the_gate() {
    let raw = b"small output\n";
    let done = drain(sink(1_000), raw);
    match done.capture {
        StreamCapture::Passthrough(bytes) => assert_eq!(bytes, raw),
        StreamCapture::Folded(_) => panic!("must not fold below the threshold"),
        StreamCapture::BinaryPassthrough(_) => {
            panic!("must not cross the threshold below it, text or not")
        }
    }
    assert!(done.file.is_empty());
}

#[test]
fn disabled_never_spills_however_large() {
    let raw = vec![b'x'; 200_000];
    let s = StreamSink::new("test".to_string(), Some(b"/folds".to_vec()), 10, false);
    let capture = drain(s, &raw).capture;
    assert!(matches!(capture, StreamCapture::Passthrough(_)));
}

#[test]
fn spilled_file_is_byte_identical_to_the_input() {
    let raw = numbered(40_000);
    let done = drain(sink(100), &raw);
    let fold = folded(done.capture);
    assert_eq!(done.file, raw);
    assert_eq!(fold.raw_bytes, raw.len());
    assert_eq!(fold.total_lines, 40_000);
    assert_eq!(fold.path, PATH);
}

#[test]
fn head_and_tail_survive_a_stream_far_larger_than_memory_window() {
    let raw = numbered(40_000);
    let fold = folded(drain(sink(100), &raw).capture);
    assert!(fold.head.starts_with("line 0\nline 1\n"));
    assert_eq!(fold.head.lines().count(), 50);
    assert!(fold.tail.ends_with("line 39999"));
    assert_eq!(fold.tail.lines().count(), 50);
}

#[test]
fn folding_matches_the_in_memory_path_byte_for_byte() {
    let raw: String = (0..5_000).map(|i| format!("line {i}\n")).collect();
    let streamed = folded(drain(sink(100), raw.as_bytes()).capture);
    let in_memory = Fold::from_output(raw.as_bytes(), PATH.to_vec());

    assert_eq!(streamed.head, in_memory.head);
    assert_eq!(streamed.tail, in_memory.tail);
    assert_eq!(streamed.total_lines, in_memory.total_lines);
    assert_eq!(streamed.raw_bytes, in_memory.raw_bytes);
    assert_eq!(streamed.kept_bytes, in_memory.kept_bytes);
}

#[test]
fn single_huge_line_keeps_head_only() {
    let raw = vec![b'x'; 200_000];
    let fold = folded(drain(sink(100), &raw).capture);
    assert_eq!(fold.total_lines, 1);
    assert!(fold.tail.is_empty(), "one line leaves nothing for the tail");
    assert!(fold.head.len() <= SLICE_MAX_BYTES);
}

#[test]
fn invalid_utf8_is_not_folded_at_all() {
    let mut raw = Vec::new();
    for i in 0..20_000 {
        raw.extend_from_slice(&[0xff, 0xfe, b'a' + (i % 26) as u8, b'\n']);
    }
    let done = drain(sink(100), &raw);
    let capture = done.capture;
    assert!(
        matches!(capture, StreamCapture::BinaryPassthrough(_)),
        "invalid UTF-8 above the threshold must not take the fold path"
    );
    assert!(
        !capture.is_folded(),
        "a binary stream must not be reported as folded"
    );
    assert_eq!(
        capture.kept_bytes(),
        capture.raw_bytes(),
        "every byte must reach the caller, so kept equals raw"
    );
    let StreamCapture::BinaryPassthrough(fold) = capture else {
        unreachable!("just asserted");
    };
    assert_eq!(
        done.file, raw,
        "persisted bytes must be exactly what the stream carried"
    );
    assert!(fold.head.len() <= SLICE_MAX_BYTES);
    assert!(fold.tail.len() <= SLICE_MAX_BYTES);
}

#[test]
fn tail_ring_stays_bounded_across_many_chunks() {
    let mut s = sink(10);
    for i in 0..2_000 {
        let step = s
            .feed(format!("chunk {i} padding padding padding\n").as_bytes())
            .unwrap();
        if step == FeedStep::Open {
            s.spill(PATH.to_vec());
        }
    }
    assert!(
        s.tail().len() <= TAIL_RING_MAX,
        "tail ring grew to {}",
        s.tail().len()
    );
    assert!(s.is_spilling(), "must have spilled");
}

#[test]
fn accessors_report_passthrough_bytes_before_emit_consumes_the_capture() {
    let raw = b"small output\n";
    let capture = drain(sink(1_000), raw).capture;
    assert!(!capture.is_folded());
    assert_eq!(capture.raw_bytes(), raw.len());
    assert_eq!(capture.kept_bytes(), raw.len());
    assert!(capture.fold_path().is_none());
}

#[test]
fn accessors_report_folded_raw_and_kept_bytes() {
    let raw = numbered(40_000);
    let capture = drain(sink(100), &raw).capture;
    assert!(capture.is_folded());
    assert_eq!(capture.raw_bytes(), raw.len());
    assert!(capture.kept_bytes() < capture.raw_bytes());
    assert!(capture.fold_path().is_some());
}

#[test]
fn empty_stream_is_empty_passthrough() {
    match drain(sink(10), b"").capture {
        StreamCapture::Passthrough(bytes) => assert!(bytes.is_empty()),
        StreamCapture::Folded(_) => panic!("empty stream must not fold"),
        StreamCapture::BinaryPassthrough(_) => {
            panic!("an empty stream is text, and must not spill at all")
        }
    }
}

#[test]
fn gate_opens_at_the_threshold_and_not_before() {
    // Ten tokens of four bytes: 36 bytes estimate to nine, 37 to ten.
    let below = vec![b'a'; 36];
    let at = vec![b'a'; 37];
    assert!(matches!(
        drain(sink(10), &below).capture,
        StreamCapture::Passthrough(_)
    ));
    assert!(matches!(drain(sink(10), &at).capture, StreamCapture::Folded(_)));
}

#[test]
fn crossing_does_not_depend_on_the_chunks() {
    let raw = numbered(300);
    for size in [1, 7, 64, 1_000, 100_000] {
        let done = drain_chunks(sink(500), &cut(&raw, size), PATH.to_vec()).unwrap();
        assert!(done.capture.is_folded(), "chunks of {size}");
        assert_eq!(done.file, raw, "chunks of {size}");
    }
}

#[test]
fn streaming_matches_memory_for_every_chunk_size() {
    let raw = numbered(5_000);
    let in_memory = Fold::from_output(&raw, PATH.to_vec());
    for threshold in [0, 1, 100, 2_001] {
        for size in [1, 61, 997, 8_000, 16_001, 65_536] {
            let done = drain_chunks(sink(threshold), &cut(&raw, size), PATH.to_vec()).unwrap();
            let fold = folded(done.capture);
            assert_eq!(fold.head, in_memory.head, "chunks of {size}");
            assert_eq!(fold.tail, in_memory.tail, "chunks of {size}");
            assert_eq!(fold.total_lines, in_memory.total_lines, "chunks of {size}");
            assert_eq!(fold.raw_bytes, in_memory.raw_bytes, "chunks of {size}");
            assert_eq!(fold.kept_bytes, in_memory.kept_bytes, "chunks of {size}");
            assert_eq!(done.file, raw, "chunks of {size}");
        }
    }
}

#[test]
fn the_head_fills_while_spilling() {
    let mut s = sink(1);
    assert_eq!(s.feed(b"abc"), Ok(FeedStep::Open));
    assert_eq!(s.spill(PATH.to_vec()), b"abc");
    assert_eq!(s.head(), b"abc");
    assert_eq!(s.feed(b"def"), Ok(FeedStep::Append));
    assert_eq!(s.head(), b"abcdef");
    assert_eq!(s.feed(&[b'x'; SLICE_MAX_BYTES]), Ok(FeedStep::Append));
    assert_eq!(s.head().len(), SLICE_MAX_BYTES);
    assert!(s.head().starts_with(b"abcdefxxx"));
    let mut short = sink(1);
    short.feed(b"abc").unwrap();
    short.spill(PATH.to_vec());
    short.feed(b"def").unwrap();
    let fold = folded(short.finish());
    assert_eq!(fold.head, "abcdef");
    assert_eq!(fold.raw_bytes, 6);
    assert_eq!(fold.total_lines, 1);
}

#[test]
fn missing_directory_matters_only_past_the_gate() {
    let small = StreamSink::new("test".to_string(), None, 10, true);
    let done = drain_chunks(small, &vec![b"hello".to_vec()], PATH.to_vec()).unwrap();
    assert!(matches!(done.capture, StreamCapture::Passthrough(_)));
    let large = StreamSink::new("test".to_string(), None, 10, true);
    let refused = drain_chunks(large, &vec![vec![b'x'; 100]], PATH.to_vec());
    assert!(matches!(refused, Err(SpillError::NoFoldDirectory)));
    assert_eq!(
        SpillError::NoFoldDirectory.message(),
        "no fold directory available (no data_local_dir on this platform)"
    );
}

#[test]
fn a_refused_text_stream_tries_again_and_a_binary_one_does_not() {
    let mut text = StreamSink::new("test".to_string(), None, 1, true);
    assert_eq!(text.feed(b"abcd"), Err(SpillError::NoFoldDirectory));
    assert_eq!(text.feed(b"e"), Err(SpillError::NoFoldDirectory));
    let mut binary = StreamSink::new("test".to_string(), None, 1, true);
    assert_eq!(binary.feed(b"ab\0d"), Err(SpillError::NoFoldDirectory));
    assert_eq!(binary.feed(b"e"), Ok(FeedStep::Hold));
    match binary.finish() {
        StreamCapture::Passthrough(bytes) => assert_eq!(bytes, b"ab\0de"),
        _ => panic!("nothing was opened"),
    }
}

#[test]
fn an_empty_chunk_changes_nothing() {
    let mut s = sink(0);
    assert_eq!(s.feed(b""), Ok(FeedStep::Hold));
    assert_eq!(s.raw_bytes(), 0);
    assert!(!s.is_spilling());
    assert_eq!(s.feed(b"x"), Ok(FeedStep::Open));
    s.spill(PATH.to_vec());
    assert_eq!(s.feed(b"y\nz"), Ok(FeedStep::Append));
    assert_eq!(s.feed(b""), Ok(FeedStep::Hold));
    assert_eq!(s.raw_bytes(), 4);
    assert_eq!(s.newlines(), 1);
    assert_eq!(s.last_byte(), Some(b'z'));
    assert_eq!(s.head(), b"xy\nz");
    assert_eq!(s.tail(), b"xy\nz");
    assert_eq!(s.slug(), "test");
    assert_eq!(s.dir().unwrap(), b"/folds");
}

#[test]
fn spilling_twice_hands_nothing_out() {
    let mut s = sink(1);
    s.feed(b"abcd").unwrap();
    assert_eq!(s.spill(b"/one".to_vec()), b"abcd");
    assert!(s.spill(b"/two".to_vec()).is_empty());
    assert_eq!(folded(s.finish()).path, b"/one");
}

#[test]
fn pump_follows_the_reads() {
    let mut s = sink(1);
    assert_eq!(s.pump(ReadEvent::Interrupted), PumpStep::Retry);
    assert_eq!(s.pump(ReadEvent::Failed), PumpStep::ReadFailed);
    assert_eq!(s.pump(ReadEvent::Bytes(b"abcd")), PumpStep::Fed(FeedStep::Open));
    s.spill(PATH.to_vec());
    assert_eq!(s.pump(ReadEvent::Bytes(b"e")), PumpStep::Fed(FeedStep::Append));
    assert_eq!(s.pump(ReadEvent::Bytes(b"")), PumpStep::Finish);
    let mut lost = StreamSink::new("test".to_string(), None, 1, true);
    assert_eq!(
        lost.pump(ReadEvent::Bytes(b"abcd")),
        PumpStep::Refused(SpillError::NoFoldDirectory)
    );
    let mut quiet = sink(1_000);
    assert_eq!(quiet.pump(ReadEvent::Bytes(b"abcd")), PumpStep::Fed(FeedStep::Hold));
}

#[test]
fn payload_is_binary_on_nul_and_on_invalid_utf8() {
    assert!(!payload_is_binary(b""));
    assert!(!payload_is_binary(b"plain\n"));
    assert!(!payload_is_binary("caf\u{e9} \u{1f600}".as_bytes()));
    assert!(payload_is_binary(b"a\0b"));
    assert!(payload_is_binary(b"\xff\xfe"));
    assert!(payload_is_binary(b"cut \xc3"));
    assert!(payload_is_binary(b"\xc0\x80"));
    assert!(payload_is_binary(b"\xed\xa0\x80"));
    assert!(payload_is_binary(b"\xf4\x90\x80\x80"));
}

#[test]
fn the_whole_stream_decides_whether_it_is_text() {
    // A NUL behind the crossing counts, and a character cut by it does not.
    let mut late = sink(0);
    assert_eq!(late.feed(b"a"), Ok(FeedStep::Open));
    late.spill(PATH.to_vec());
    assert_eq!(late.feed(b"\0"), Ok(FeedStep::Append));
    match late.finish() {
        StreamCapture::BinaryPassthrough(fold) => assert_eq!(fold.raw_bytes, 2),
        _ => panic!("a NUL byte must not be folded"),
    }
    let mut split = sink(0);
    assert_eq!(split.feed(&[0xc3]), Ok(FeedStep::Open));
    split.spill(PATH.to_vec());
    assert_eq!(split.feed(&[0xa9]), Ok(FeedStep::Append));
    let fold = folded(split.finish());
    assert_eq!(fold.raw_bytes, 2);
    assert_eq!(fold.head, "\u{e9}");
}

#[test]
fn text_is_told_by_its_bytes_and_not_by_its_chunks() {
    let samples: [&[u8]; 12] = [
        b"plain",
        "\u{e9}\u{20ac}\u{1f600}".as_bytes(),
        b"cut \xc3",
        b"cut \xe2\x82",
        b"cut \xf0\x9f\x98",
        b"\xc3 apart \xa9",
        b"\xa9",
        b"late \xff",
        b"\xe2\x82\0",
        b"\xc0\x80",
        b"\xed\xa0\x80",
        b"\xf4\x90\x80\x80",
    ];
    for raw in samples {
        let binary = payload_is_binary(raw);
        for size in 1..=raw.len() {
            let done = drain_chunks(sink(0), &cut(raw, size), PATH.to_vec()).unwrap();
            let spared = matches!(done.capture, StreamCapture::BinaryPassthrough(_));
            assert_eq!(spared, binary, "{raw:?} in chunks of {size}");
            assert_eq!(done.capture.is_folded(), !binary, "{raw:?} in chunks of {size}");
            assert_eq!(done.file, raw);
        }
    }
}

#[test]
fn counts_are_those_of_the_stream_for_every_chunk_size() {
    let raw = b"one\ntwo\n\nthree";
    for threshold in [0, 2, 1_000] {
        for size in 1..=raw.len() {
            let mut s = sink(threshold);
            assert_eq!(s.last_byte(), None);
            for chunk in raw.chunks(size) {
                if s.feed(chunk).unwrap() == FeedStep::Open {
                    s.spill(PATH.to_vec());
                }
            }
            assert_eq!(s.raw_bytes(), raw.len());
            assert_eq!(s.newlines(), 3);
            assert_eq!(s.last_byte(), Some(b'e'));
        }
    }
}

#[test]
fn spilling_keeps_both_ends_of_the_buffer() {
    let raw: Vec<u8> = (0..40_000usize).map(|i| b'a' + (i % 26) as u8).collect();
    let mut s = sink(1);
    s.feed(&raw).unwrap();
    assert!(s.head().is_empty() && s.tail().is_empty());
    assert_eq!(s.spill(PATH.to_vec()), raw);
    assert_eq!(s.head().as_slice(), &raw[..SLICE_MAX_BYTES]);
    assert_eq!(s.tail().as_slice(), &raw[raw.len() - TAIL_RING_MAX..]);
    assert!(s.spill(b"/other".to_vec()).is_empty());
    assert_eq!(s.tail().as_slice(), &raw[raw.len() - TAIL_RING_MAX..]);
}

#[test]
fn trim_tail_leaves_small_rings_alone() {
    let mut ring = vec![b'\n'; TAIL_RING_MAX];
    trim_tail(&mut ring);
    assert_eq!(ring.len(), TAIL_RING_MAX);
}

#[test]
fn trim_tail_keeps_the_byte_limit() {
    let mut ring = vec![b'x'; TAIL_RING_MAX + 1];
    trim_tail(&mut ring);
    assert_eq!(ring.len(), SLICE_MAX_BYTES);
}

#[test]
fn trim_tail_keeps_the_line_limit() {
    let mut ring: Vec<u8> = (0..5_000).flat_map(|_| b"abc\n".to_vec()).collect();
    ring.extend_from_slice(b"rest");
    trim_tail(&mut ring);
    let mut expected: Vec<u8> = b"abc\n".repeat(49);
    expected.extend_from_slice(b"rest");
    assert_eq!(ring, expected);
    let mut ended = b"abc\n".repeat(5_000);
    trim_tail(&mut ended);
    assert_eq!(ended, b"abc\n".repeat(50));
    let mut unended = b"x\n".repeat(TAIL_RING_MAX);
    unended.push(b'y');
    trim_tail(&mut unended);
    let mut last = b"x\n".repeat(49);
    last.push(b'y');
    assert_eq!(unended, last);
}

#[test]
fn multibyte_text_is_summarised_verbatim_for_every_chunk_size() {
    let raw: String = (0..4_000).map(|i| format!("\u{20ac}{i}\u{e9}")).collect();
    let in_memory = Fold::from_output(raw.as_bytes(), PATH.to_vec());
    assert!(raw.starts_with(in_memory.head.as_str()));
    for size in [1, 997, 8_000, 16_001, 65_536] {
        let done = drain_chunks(sink(100), &cut(raw.as_bytes(), size), PATH.to_vec()).unwrap();
        let fold = folded(done.capture);
        assert_eq!(fold.head, in_memory.head, "chunks of {size}");
        assert_eq!(fold.tail, in_memory.tail, "chunks of {size}");
        assert_eq!(done.file, raw.as_bytes(), "chunks of {size}");
    }
}

#[test]
fn a_late_tail_is_shown_whatever_the_ring_dropped() {
    // Tiny lines first, so that the ring is cut by lines, then one very long line.
    let mut raw = vec![b'\n'; 40_000];
    raw.extend_from_slice(&vec![b'z'; 20_000]);
    raw.extend_from_slice(b"\nend");
    let in_memory = Fold::from_output(&raw, PATH.to_vec());
    assert!(in_memory.tail.ends_with("z\nend"));
    for size in [1_000, 7_777, 30_000] {
        let done = drain_chunks(sink(100), &cut(&raw, size), PATH.to_vec()).unwrap();
        let fold = folded(done.capture);
        assert_eq!(fold.tail, in_memory.tail, "chunks of {size}");
        assert_eq!(fold.head, in_memory.head, "chunks of {size}");
        assert_eq!(fold.total_lines, 40_002, "chunks of {size}");
    }
}

#[test]
fn small_and_unfolded_runs_need_no_directory() {
    let raw = b"a few bytes";
    for size in 1..=raw.len() {
        let small = StreamSink::new("test".to_string(), None, 10, true);
        let done = drain_chunks(small, &cut(raw, size), PATH.to_vec()).unwrap();
        assert!(matches!(done.capture, StreamCapture::Passthrough(bytes) if bytes == raw));
        let off = StreamSink::new("test".to_string(), None, 0, false);
        let done = drain_chunks(off, &cut(raw, size), PATH.to_vec()).unwrap();
        assert!(matches!(done.capture, StreamCapture::Passthrough(bytes) if bytes == raw));
    }
}
