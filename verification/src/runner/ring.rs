//! The bounded window over the end of a stream.

use vstd::prelude::*;

use crate::bytes;
use crate::bytes::NEWLINE;
use crate::fold::summary;
use crate::fold::summary::{SLICE_MAX_BYTES, TAIL_LINES};
use crate::text;

verus! {

/// Upper bound on the tail ring before it is trimmed back. Trimming at twice the
/// slice limit keeps the work per byte constant on average.
pub const TAIL_RING_MAX: usize = 2 * SLICE_MAX_BYTES;

/// How many line feeds the last [`TAIL_LINES`] lines of a ring hold: one each, but for
/// a last line that has not ended.
pub open spec fn line_feeds_to_keep(ring: Seq<u8>) -> nat {
    if ring.len() > 0 && ring.last() == NEWLINE {
        TAIL_LINES as nat
    } else {
        (TAIL_LINES - 1) as nat
    }
}

/// Where a ring that outgrew [`TAIL_RING_MAX`] is cut: what stays is its longest
/// suffix of at most [`SLICE_MAX_BYTES`] bytes and [`TAIL_LINES`] lines.
pub open spec fn ring_cut(ring: Seq<u8>) -> int {
    bytes::suffix_start(ring, ring.len() - SLICE_MAX_BYTES, line_feeds_to_keep(ring))
}

/// The ring once it has been bounded.
pub open spec fn trimmed(ring: Seq<u8>) -> Seq<u8> {
    if ring.len() <= TAIL_RING_MAX {
        ring
    } else {
        ring.skip(ring_cut(ring))
    }
}

/// Whether `part` is how `stream` ends.
pub open spec fn ends_with(stream: Seq<u8>, part: Seq<u8>) -> bool {
    &&& part.len() <= stream.len()
    &&& part == stream.skip(stream.len() - part.len())
}

/// Whether `ring` is the end of `stream` and reaches back as far as a summary can
/// show: over [`SLICE_MAX_BYTES`] bytes, over the whole stream, or from the start of
/// a line over [`TAIL_LINES`] lines.
pub open spec fn ring_covers(ring: Seq<u8>, stream: Seq<u8>) -> bool {
    &&& ends_with(stream, ring)
    &&& {
        ||| ring.len() >= SLICE_MAX_BYTES
        ||| ring.len() == stream.len()
        ||| {
            &&& stream[stream.len() - ring.len() - 1] == NEWLINE
            &&& summary::lines_in(ring) >= TAIL_LINES
        }
    }
}

/// Bound the tail ring: past [`TAIL_RING_MAX`] bytes, keep the last
/// [`SLICE_MAX_BYTES`] and of those only the last [`TAIL_LINES`] lines, a last line
/// that has not ended among them.
pub fn trim_tail(tail: &mut Vec<u8>)
    ensures
        final(tail)@ == trimmed(old(tail)@),
        final(tail)@.len() <= TAIL_RING_MAX,
        old(tail)@.len() <= 16_000 ==> final(tail)@ == old(tail)@,
        old(tail)@.len() > 16_000 ==> {
            let kept = final(tail)@;
            let unended: nat = if old(tail)@.last() == 10 {
                0
            } else {
                1
            };
            let lines = bytes::count_newlines(kept) + unended;
            &&& 0 < kept.len() <= 8_000
            &&& kept == old(tail)@.skip(old(tail)@.len() - kept.len())
            &&& lines <= 50
            &&& kept.len() == 8_000 || {
                &&& lines == 50
                &&& old(tail)@[old(tail)@.len() - kept.len() - 1] == 10
            }
        },
{
    let len: usize = tail.len();
    if len <= TAIL_RING_MAX {
        return;
    }
    let keep: usize = if tail[len - 1] == NEWLINE {
        TAIL_LINES
    } else {
        TAIL_LINES - 1
    };
    let cut: usize = bytes::find_suffix_start(tail.as_slice(), len - SLICE_MAX_BYTES, keep);
    proof {
        bytes::lemma_suffix_start(tail@, len - SLICE_MAX_BYTES, keep as nat);
        assert(tail@.skip(len as int) =~= Seq::<u8>::empty());
    }
    let kept = tail.split_off(cut);
    *tail = kept;
}

/// Trimming leaves at most [`TAIL_RING_MAX`] bytes from the end of the ring; where it
/// cuts at all, at most [`SLICE_MAX_BYTES`] bytes and [`TAIL_LINES`] lines.
pub proof fn law_trim_bounds_the_ring(ring: Seq<u8>)
    ensures
        ends_with(ring, trimmed(ring)),
        trimmed(ring).len() <= TAIL_RING_MAX,
        ring.len() > TAIL_RING_MAX ==> {
            &&& trimmed(ring).len() <= SLICE_MAX_BYTES
            &&& summary::lines_in(trimmed(ring)) <= TAIL_LINES
        },
{
    if ring.len() > TAIL_RING_MAX {
        bytes::lemma_suffix_start(
            ring,
            ring.len() - SLICE_MAX_BYTES,
            line_feeds_to_keep(ring),
        );
        let kept = trimmed(ring);
        if kept.len() > 0 {
            assert(kept.last() == ring.last());
        } else {
            assert(kept =~= Seq::<u8>::empty());
        }
    } else {
        assert(ring.skip(0) =~= ring);
    }
}

/// A ring that covers its stream still does once a chunk is appended to both.
pub proof fn lemma_append_covers(ring: Seq<u8>, stream: Seq<u8>, chunk: Seq<u8>)
    requires
        ring_covers(ring, stream),
    ensures
        ring_covers(ring + chunk, stream + chunk),
{
    let s = stream + chunk;
    let r = ring + chunk;
    assert(r =~= s.skip(s.len() - r.len()));
    bytes::lemma_count_add(ring, chunk);
    if ring.len() < stream.len() {
        assert(s[s.len() - r.len() - 1] == stream[stream.len() - ring.len() - 1]);
    }
    if chunk.len() > 0 {
        assert(r.last() == chunk.last());
        bytes::lemma_count_add(chunk.drop_last(), seq![chunk.last()]);
    } else {
        assert(r =~= ring);
    }
}

/// A ring that covers its stream still does once it is trimmed.
pub proof fn lemma_trim_covers(ring: Seq<u8>, stream: Seq<u8>)
    requires
        ring_covers(ring, stream),
    ensures
        ring_covers(trimmed(ring), stream),
{
    if ring.len() > TAIL_RING_MAX {
        let from = ring.len() - SLICE_MAX_BYTES;
        let cut = ring_cut(ring);
        let kept = ring.skip(cut);
        bytes::lemma_suffix_start(ring, from, line_feeds_to_keep(ring));
        assert(kept =~= stream.skip(stream.len() - kept.len()));
        if cut > from {
            assert(ring[cut - 1] == NEWLINE);
            assert(ring[cut - 1] == stream[stream.len() - ring.len() + cut - 1]);
            assert(kept.len() > 0) by {
                if kept.len() == 0 {
                    assert(kept =~= Seq::<u8>::empty());
                }
            }
            assert(kept.last() == ring.last());
        }
    }
}

/// The last bytes of a stream cover it when there are enough of them.
pub proof fn lemma_suffix_covers(stream: Seq<u8>, n: int)
    requires
        0 <= n <= stream.len(),
        n >= SLICE_MAX_BYTES || n == stream.len(),
    ensures
        ring_covers(stream.skip(stream.len() - n), stream),
{
}

/// Trimming never drops anything a summary could show: a ring that covers its
/// stream yields the tail that the whole stream would yield.
pub proof fn law_ring_shows_what_the_stream_shows(ring: Seq<u8>, stream: Seq<u8>, lines: nat)
    requires
        ring_covers(ring, stream),
        lines <= TAIL_LINES,
    ensures
        summary::tail_slice(ring, stream.len(), lines) == summary::tail_slice(
            stream,
            stream.len(),
            lines,
        ),
{
    let raw = stream.len();
    if ring.len() >= SLICE_MAX_BYTES {
        assert(ring.skip(ring.len() - SLICE_MAX_BYTES) =~= stream.skip(
            stream.len() - SLICE_MAX_BYTES,
        ));
        if ring.len() == SLICE_MAX_BYTES {
            assert(ring.skip(0) =~= ring);
        }
        if stream.len() == SLICE_MAX_BYTES {
            assert(stream.skip(0) =~= stream);
        }
    } else if ring.len() == stream.len() {
        assert(stream.skip(0) =~= stream);
    } else if lines > 0 {
        let cut = if stream.len() > SLICE_MAX_BYTES {
            stream.skip(stream.len() - SLICE_MAX_BYTES)
        } else {
            stream
        };
        let body = summary::without_final_newline(cut);
        let whole = if cut.len() == SLICE_MAX_BYTES && raw > SLICE_MAX_BYTES {
            body.skip(text::partial_head(body) as int)
        } else {
            body
        };
        let ring_body = summary::without_final_newline(ring);
        assert(ring.len() > 0) by {
            if ring.len() == 0 {
                assert(ring =~= Seq::<u8>::empty());
            }
        }
        assert(ring.last() == stream.last());
        assert(cut.last() == stream.last());
        // `whole` is more than `ring_body` by a part that ends in a line feed.
        let lead = cut.len() - ring.len();
        assert(cut[lead - 1] == NEWLINE);
        assert(body[lead - 1] == NEWLINE);
        let p = body.len() - whole.len();
        assert(p <= lead - 1);
        let shift = lead - p;
        assert(whole.skip(shift) =~= ring_body);
        assert(whole[shift - 1] == NEWLINE);
        lemma_shown_lines_lie_in_the_ring(whole, ring_body, shift, (lines - 1) as nat, ring);
    }
}

/// Where a longer text continues a shorter one to the front by a part that ends in
/// a line feed, and the shorter one holds enough line feeds, the same lines are last
/// in both.
proof fn lemma_shown_lines_lie_in_the_ring(
    whole: Seq<u8>,
    part: Seq<u8>,
    shift: int,
    max: nat,
    ring: Seq<u8>,
)
    requires
        0 < shift <= whole.len(),
        whole.skip(shift) == part,
        whole[shift - 1] == NEWLINE,
        max < TAIL_LINES,
        part == summary::without_final_newline(ring),
        summary::lines_in(ring) >= TAIL_LINES,
    ensures
        whole.skip(bytes::suffix_start(whole, 0, max)) == part.skip(
            bytes::suffix_start(part, 0, max),
        ),
{
    assert(bytes::count_newlines(part) + 1 == summary::lines_in(ring)) by {
        if ring.len() == 0 {
            assert(ring =~= Seq::<u8>::empty());
        }
    }
    bytes::lemma_suffix_start(part, 0, max);
    let i = bytes::suffix_start(part, 0, max);
    assert(whole.skip(shift + i) =~= part.skip(i));
    if i == 0 {
        assert(part.skip(0) =~= part);
        bytes::lemma_count_skip_step(whole, shift - 1);
    } else {
        bytes::lemma_count_skip_step(part, i - 1);
        assert(whole.skip(shift + i - 1) =~= part.skip(i - 1));
    }
    bytes::lemma_suffix_start_is(whole, 0, max, shift + i);
}

} // verus!
