//! What holds of every stream that is driven through a sink, however its bytes are
//! cut into chunks.

use vstd::prelude::*;
use vstd::utf8::*;

use crate::bytes;
use crate::fold::laws;
use crate::fold::summary;
use crate::fold::tokens;
use crate::runner::ring;
use crate::runner::ring::TAIL_RING_MAX;
use crate::runner::spawn;
use crate::runner::spawn::EmissionView;
use crate::runner::spill;
use crate::runner::spill::{CaptureView, FeedStep, Phase, SinkView, SpillError, StreamSink};

verus! {

/// The stream that arrives as `chunks`.
pub open spec fn joined(chunks: Seq<Seq<u8>>) -> Seq<u8>
    decreases chunks.len(),
{
    if chunks.len() == 0 {
        Seq::empty()
    } else {
        joined(chunks.drop_last()) + chunks.last()
    }
}

/// The sink that `start` becomes when it is fed `chunks` in turn and its fold file
/// opens at `path`.
pub open spec fn driven(start: SinkView, chunks: Seq<Seq<u8>>, path: Seq<u8>) -> SinkView
    decreases chunks.len(),
{
    if chunks.len() == 0 {
        start
    } else {
        let (sink, step) = spill::fed(driven(start, chunks.drop_last(), path), chunks.last());
        if step == Ok::<FeedStep, SpillError>(FeedStep::Open) {
            spill::spilled(sink, path)
        } else {
            sink
        }
    }
}

/// The bytes that the driver has been told to write by then: the prefix that
/// [`spill::StreamSink::spill`] hands out, then every appended chunk.
pub open spec fn written(start: SinkView, chunks: Seq<Seq<u8>>, path: Seq<u8>) -> Seq<u8>
    decreases chunks.len(),
{
    if chunks.len() == 0 {
        Seq::empty()
    } else {
        let before = written(start, chunks.drop_last(), path);
        let (sink, step) = spill::fed(driven(start, chunks.drop_last(), path), chunks.last());
        match step {
            Ok(FeedStep::Open) => before + sink.stream,
            Ok(FeedStep::Append) => before + chunks.last(),
            _ => before,
        }
    }
}

/// A sink before its first chunk.
pub open spec fn unfed(start: SinkView) -> bool {
    start == spill::fresh(start.slug, start.dir, start.threshold_tokens, start.enabled)
}

/// A sink before its first chunk, with somewhere to spill to.
pub open spec fn ready(start: SinkView) -> bool {
    start.dir is Some && unfed(start)
}

/// The chunks that have arrived early are a prefix of the stream.
pub proof fn lemma_joined_take(chunks: Seq<Seq<u8>>, k: int)
    requires
        0 <= k <= chunks.len(),
    ensures
        joined(chunks.take(k)).len() <= joined(chunks).len(),
        joined(chunks.take(k)) == joined(chunks).take(joined(chunks.take(k)).len() as int),
    decreases chunks.len(),
{
    if k == chunks.len() {
        assert(chunks.take(k) =~= chunks);
        assert(joined(chunks).take(joined(chunks).len() as int) =~= joined(chunks));
    } else {
        let rest = chunks.drop_last();
        assert(rest.take(k) =~= chunks.take(k));
        lemma_joined_take(rest, k);
        let n = joined(rest.take(k)).len() as int;
        assert(joined(chunks).take(n) =~= joined(rest).take(n));
    }
}

/// Where a driven sink stands, in full.
pub proof fn lemma_driven(start: SinkView, chunks: Seq<Seq<u8>>, path: Seq<u8>)
    requires
        ready(start),
    ensures
        ({
            let end = driven(start, chunks, path);
            let total = joined(chunks);
            &&& end.stream == total
            &&& end.slug == start.slug
            &&& end.dir == start.dir
            &&& end.threshold_tokens == start.threshold_tokens
            &&& end.enabled == start.enabled
            &&& match end.phase {
                Phase::Buffering => {
                    &&& !end.binary
                    &&& end.ring.len() == 0
                    &&& total.len() == 0 || !spill::reaches_threshold(start, total.len())
                    &&& written(start, chunks, path).len() == 0
                },
                Phase::Spilling { path: at } => {
                    &&& at == path
                    &&& total.len() > 0
                    &&& spill::reaches_threshold(start, total.len())
                    &&& written(start, chunks, path) == total
                    &&& end.ring.len() <= TAIL_RING_MAX
                    &&& ring::ring_covers(end.ring, total)
                },
            }
        }),
    decreases chunks.len(),
{
    let end = driven(start, chunks, path);
    let total = joined(chunks);
    if chunks.len() > 0 {
        let rest = chunks.drop_last();
        let chunk = chunks.last();
        lemma_driven(start, rest, path);
        let before = driven(start, rest, path);
        if chunk.len() == 0 {
            assert(total =~= joined(rest));
        } else if before.phase is Spilling {
            tokens::law_estimate_is_monotone(joined(rest).len(), total.len());
            ring::lemma_append_covers(before.ring, joined(rest), chunk);
            ring::lemma_trim_covers(before.ring + chunk, total);
            ring::law_trim_bounds_the_ring(before.ring + chunk);
        } else if end.phase is Spilling {
            ring::lemma_suffix_covers(total, end.ring.len() as int);
            assert(total.skip(0) =~= total);
            assert(written(start, chunks, path) =~= total);
        }
    }
}

/// Whether a stream crosses the threshold depends on its size alone, not on its chunks:
/// it does exactly when it is not empty, folding is on, and its estimate reaches
/// the threshold.
pub proof fn law_crossing_goes_by_size(start: SinkView, chunks: Seq<Seq<u8>>, path: Seq<u8>)
    requires
        ready(start),
    ensures
        driven(start, chunks, path).phase is Spilling <==> joined(chunks).len() > 0
            && spill::reaches_threshold(start, joined(chunks).len()),
        spill::captured(driven(start, chunks, path)) is Passthrough <==> joined(chunks).len() == 0
            || !spill::reaches_threshold(start, joined(chunks).len()),
        driven(start, chunks, path).phase is Spilling <==> start.enabled && joined(chunks).len()
            > 0 && (joined(chunks).len() + 3) / 4 >= start.threshold_tokens,
{
    lemma_driven(start, chunks, path);
}

/// A stream crosses from one size on, and that size is fixed by the configured threshold
/// alone: below four times the tokens less three bytes, every byte is handed over; from
/// there on, none is held back from the disk.
pub proof fn law_threshold_is_the_configured_one(
    start: SinkView,
    chunks: Seq<Seq<u8>>,
    path: Seq<u8>,
)
    requires
        ready(start),
        start.enabled,
        joined(chunks).len() > 0,
    ensures
        joined(chunks).len() + 3 < 4 * start.threshold_tokens ==> {
            &&& spill::captured(driven(start, chunks, path)) == CaptureView::Passthrough(
                joined(chunks),
            )
            &&& written(start, chunks, path).len() == 0
        },
        joined(chunks).len() + 3 >= 4 * start.threshold_tokens ==> {
            &&& spill::captured(driven(start, chunks, path)) !is Passthrough
            &&& written(start, chunks, path) == joined(chunks)
        },
{
    lemma_driven(start, chunks, path);
}

/// A stream is its chunks, one behind the other.
pub proof fn law_joined_is_the_chunks_in_turn(chunks: Seq<Seq<u8>>)
    ensures
        joined(chunks) == chunks.flatten(),
    decreases chunks.len(),
{
    if chunks.len() == 0 {
        assert(chunks.flatten() =~= Seq::<u8>::empty());
    } else {
        law_joined_is_the_chunks_in_turn(chunks.drop_last());
        chunks.drop_last().lemma_flatten_and_flatten_alt_are_equivalent();
        chunks.lemma_flatten_and_flatten_alt_are_equivalent();
    }
}

/// Output below the threshold is handed over byte for byte, and nothing is written. No
/// fold directory is needed for it, and the sink refuses no chunk.
pub proof fn law_small_output_is_untouched(
    start: SinkView,
    chunks: Seq<Seq<u8>>,
    path: Seq<u8>,
)
    requires
        unfed(start),
        joined(chunks).len() == 0 || !spill::reaches_threshold(start, joined(chunks).len()),
    ensures
        driven(start, chunks, path) == (SinkView { stream: joined(chunks), ..start }),
        spill::captured(driven(start, chunks, path)) == CaptureView::Passthrough(joined(chunks)),
        written(start, chunks, path).len() == 0,
        forall|k: int|
            0 <= k < chunks.len() ==> spill::fed(
                driven(start, chunks.take(k), path),
                #[trigger] chunks[k],
            ).1 == Ok::<FeedStep, SpillError>(FeedStep::Hold),
    decreases chunks.len(),
{
    if chunks.len() > 0 {
        let rest = chunks.drop_last();
        let last = chunks.len() - 1;
        tokens::law_estimate_is_monotone(joined(rest).len(), joined(chunks).len());
        law_small_output_is_untouched(start, rest, path);
        assert(joined(rest) + chunks.last() == joined(chunks));
        if chunks.last().len() == 0 {
            assert(joined(chunks) =~= joined(rest));
        }
        assert(chunks.take(last) =~= rest);
        assert forall|k: int| 0 <= k < chunks.len() implies spill::fed(
            driven(start, chunks.take(k), path),
            #[trigger] chunks[k],
        ).1 == Ok::<FeedStep, SpillError>(FeedStep::Hold) by {
            if k < last {
                assert(rest[k] == chunks[k]);
                assert(rest.take(k) =~= chunks.take(k));
            }
        }
    }
}

/// With folding off, output is handed over byte for byte however large it is, with or
/// without a fold directory.
pub proof fn law_disabled_never_spills(
    start: SinkView,
    chunks: Seq<Seq<u8>>,
    path: Seq<u8>,
)
    requires
        unfed(start),
        !start.enabled,
    ensures
        spill::captured(driven(start, chunks, path)) == CaptureView::Passthrough(joined(chunks)),
        written(start, chunks, path).len() == 0,
{
    law_small_output_is_untouched(start, chunks, path);
}

/// The fold file holds exactly the stream, whatever its bytes are.
pub proof fn law_disk_holds_the_stream(start: SinkView, chunks: Seq<Seq<u8>>, path: Seq<u8>)
    requires
        ready(start),
        driven(start, chunks, path).phase is Spilling,
    ensures
        written(start, chunks, path) == joined(chunks),
        spill::captured(driven(start, chunks, path)).fold_path() == Some(path),
{
    lemma_driven(start, chunks, path);
}

/// Every capture accounts for every byte of the stream, and everything but a fold
/// hands all of them to the caller.
pub proof fn law_every_byte_is_accounted_for(
    start: SinkView,
    chunks: Seq<Seq<u8>>,
    path: Seq<u8>,
)
    requires
        ready(start),
    ensures
        ({
            let capture = spill::captured(driven(start, chunks, path));
            &&& capture.raw_bytes() == joined(chunks).len()
            &&& capture !is Folded ==> capture.kept_bytes() == capture.raw_bytes()
            &&& capture is Passthrough <==> capture.fold_path() is None
        }),
{
    lemma_driven(start, chunks, path);
}

/// A stream that is not text is never folded: past the threshold, and only there, it is
/// kept on disk and handed over from it. One byte that is not text is enough, wherever
/// in the stream it stands.
pub proof fn law_binary_is_never_folded(start: SinkView, chunks: Seq<Seq<u8>>, path: Seq<u8>)
    requires
        ready(start),
    ensures
        spill::captured(driven(start, chunks, path)) is BinaryPassthrough <==> {
            &&& joined(chunks).len() > 0
            &&& spill::reaches_threshold(start, joined(chunks).len())
            &&& !spill::is_text(joined(chunks))
        },
{
    law_crossing_goes_by_size(start, chunks, path);
    lemma_driven(start, chunks, path);
}

/// A text stream is folded past the threshold, and only there, even where a chunk ends
/// inside a character.
pub proof fn law_text_folds(start: SinkView, chunks: Seq<Seq<u8>>, path: Seq<u8>)
    requires
        ready(start),
    ensures
        spill::captured(driven(start, chunks, path)) is Folded <==> {
            &&& joined(chunks).len() > 0
            &&& spill::reaches_threshold(start, joined(chunks).len())
            &&& spill::is_text(joined(chunks))
        },
{
    law_crossing_goes_by_size(start, chunks, path);
    lemma_driven(start, chunks, path);
}

/// Folding while streaming gives the summary that folding the same bytes in memory
/// gives, however they were cut into chunks.
pub proof fn law_streaming_matches_memory(start: SinkView, chunks: Seq<Seq<u8>>, path: Seq<u8>)
    requires
        ready(start),
        joined(chunks).len() > 0,
        spill::reaches_threshold(start, joined(chunks).len()),
    ensures
        ({
            let fold = summary::fold_of_stream(joined(chunks), path);
            let capture = spill::captured(driven(start, chunks, path));
            if spill::is_text(joined(chunks)) {
                capture == CaptureView::Folded(fold)
            } else {
                capture == CaptureView::BinaryPassthrough(fold)
            }
        }),
{
    law_crossing_goes_by_size(start, chunks, path);
    lemma_driven(start, chunks, path);
}

/// How a stream is cut into chunks decides nothing: two cuts of the same bytes are
/// captured alike and leave the same file.
pub proof fn law_chunks_do_not_matter(
    start: SinkView,
    one: Seq<Seq<u8>>,
    other: Seq<Seq<u8>>,
    path: Seq<u8>,
)
    requires
        ready(start),
        joined(one) == joined(other),
    ensures
        spill::captured(driven(start, one, path)) == spill::captured(driven(start, other, path)),
        written(start, one, path) == written(start, other, path),
{
    lemma_driven(start, one, path);
    lemma_driven(start, other, path);
    assert(written(start, one, path) =~= written(start, other, path));
}

/// What a sink counts and remembers is what its whole stream holds, whatever its chunks
/// were and whether or not it crossed the threshold.
pub proof fn law_counts_ignore_chunks(
    sink: &StreamSink,
    start: SinkView,
    chunks: Seq<Seq<u8>>,
    path: Seq<u8>,
)
    requires
        ready(start),
        sink.wf(),
        sink@ == driven(start, chunks, path),
    ensures
        sink.counted_bytes() == joined(chunks).len(),
        sink.counted_newlines() == bytes::count_newlines(joined(chunks)),
        sink.remembered_last() == summary::last_of(joined(chunks)),
{
    lemma_driven(start, chunks, path);
    spill::law_counts_are_those_of_the_stream(sink);
}

/// However long a stream is, the ring over its end is bounded, is how the stream ends,
/// and reaches back as far as a summary can show.
pub proof fn law_ring_is_bounded(start: SinkView, chunks: Seq<Seq<u8>>, path: Seq<u8>)
    requires
        ready(start),
    ensures
        driven(start, chunks, path).ring.len() <= TAIL_RING_MAX,
        driven(start, chunks, path).phase is Spilling ==> ring::ring_covers(
            driven(start, chunks, path).ring,
            joined(chunks),
        ),
{
    lemma_driven(start, chunks, path);
}

/// A folded stream that is valid UTF-8 as a whole is summarised verbatim: what the
/// summary shows first is how the stream starts, what it shows last is how the stream
/// ends but for a final line feed, and no byte has been replaced.
pub proof fn law_folded_text_is_verbatim(
    start: SinkView,
    chunks: Seq<Seq<u8>>,
    path: Seq<u8>,
)
    requires
        ready(start),
        valid_utf8(joined(chunks)),
    ensures
        spill::captured(driven(start, chunks, path)) matches CaptureView::Folded(fold) ==> {
            let first = encode_utf8(fold.head);
            let last = encode_utf8(fold.tail);
            let body = summary::without_final_newline(joined(chunks));
            &&& first.len() <= joined(chunks).len()
            &&& first == joined(chunks).take(first.len() as int)
            &&& last.len() <= body.len()
            &&& last == body.skip(body.len() - last.len())
        },
{
    lemma_driven(start, chunks, path);
    laws::law_text_is_shown_verbatim(joined(chunks), path);
}

/// A fold sends one byte more than it counts as kept: the line feed behind the summary.
pub proof fn law_fold_sends_what_it_keeps(
    head: Seq<u8>,
    tail: Seq<u8>,
    total_lines: nat,
    raw_bytes: nat,
    path: Seq<u8>,
)
    ensures
        ({
            let fold = summary::fold_of_regions(head, tail, total_lines, raw_bytes, path);
            let sent = spawn::emission_of(CaptureView::Folded(fold));
            sent matches EmissionView::Bytes(b) && b.len() == fold.kept_bytes + 1
        }),
{
    let fold = summary::fold_of_regions(head, tail, total_lines, raw_bytes, path);
    spawn::lemma_line_feed_adds_a_byte(summary::rendered(fold.head, fold.tail, fold.path));
}

/// The row of a stream carries the real byte count, folded or not.
pub proof fn law_row_carries_the_real_count(
    start: SinkView,
    chunks: Seq<Seq<u8>>,
    path: Seq<u8>,
)
    requires
        ready(start),
    ensures
        ({
            let row = spawn::row_of(spill::captured(driven(start, chunks, path)));
            &&& row.raw_bytes == Some(joined(chunks).len())
            &&& !row.folded ==> row.kept_bytes == row.raw_bytes
        }),
{
    law_every_byte_is_accounted_for(start, chunks, path);
}

/// The two streams of a run never share a slug.
pub proof fn law_slugs_differ(slug: Seq<char>)
    ensures
        slug + ".out"@ != slug + ".err"@,
{
    reveal_strlit(".out");
    reveal_strlit(".err");
    let n = slug.len() as int;
    assert((slug + ".out"@)[n + 1] == 'o');
    assert((slug + ".err"@)[n + 1] == 'e');
}

} // verus!
