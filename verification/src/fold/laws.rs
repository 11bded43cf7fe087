//! What holds of every summary.

use vstd::prelude::*;
use vstd::utf8::*;

use crate::bytes;
use crate::bytes::NEWLINE;
use crate::fold::summary;
use crate::fold::summary::{HEAD_LINES, SLICE_MAX_BYTES, TAIL_LINES};
use crate::text;

verus! {

/// Neither end of a summary takes more than [`SLICE_MAX_BYTES`] bytes, whatever the
/// stream held.
pub proof fn law_summary_is_bounded(
    head: Seq<u8>,
    tail: Seq<u8>,
    total_lines: nat,
    raw_bytes: nat,
    path: Seq<u8>,
)
    ensures
        ({
            let fold = summary::fold_of_regions(head, tail, total_lines, raw_bytes, path);
            &&& encode_utf8(fold.head).len() <= SLICE_MAX_BYTES
            &&& encode_utf8(fold.tail).len() <= SLICE_MAX_BYTES
        }),
{
    let lines = summary::tail_line_budget(
        total_lines,
        summary::head_line_count(head, raw_bytes),
    );
    text::lemma_prefix_within_len(
        text::text_of(summary::head_slice(head, raw_bytes)),
        SLICE_MAX_BYTES as nat,
    );
    text::lemma_suffix_within_len(
        text::text_of(summary::tail_slice(tail, raw_bytes, lines)),
        SLICE_MAX_BYTES as nat,
    );
}

/// The head shows at most [`HEAD_LINES`] lines, the tail at most [`TAIL_LINES`], and
/// the two together no more lines than the stream has.
pub proof fn law_summary_shows_few_lines(stream: Seq<u8>)
    ensures
        ({
            let first = summary::head_line_count(stream, stream.len());
            let lines = summary::tail_line_budget(summary::lines_in(stream), first);
            let last = summary::tail_slice(stream, stream.len(), lines);
            &&& first <= HEAD_LINES
            &&& lines <= TAIL_LINES
            &&& lines == 0 ==> last.len() == 0
            &&& lines > 0 ==> bytes::count_newlines(last) < lines
            &&& first + lines <= summary::lines_in(stream)
        }),
{
    let raw = stream.len();
    summary::lemma_head_lines(stream, raw);
    if raw > 0 {
        let body = head_body(stream);
        let e = bytes::prefix_end(body, (HEAD_LINES - 1) as nat);
        bytes::lemma_prefix_end(body, (HEAD_LINES - 1) as nat);
        assert(summary::head_slice(stream, raw) =~= stream.take(e));
        bytes::lemma_count_add(stream.take(e), stream.skip(e));
        assert(stream.take(e) + stream.skip(e) =~= stream);
        if stream.last() == NEWLINE {
            assert(e < raw);
            assert(stream.skip(e).last() == NEWLINE);
        }
    }
    let first = summary::head_line_count(stream, raw);
    let lines = summary::tail_line_budget(summary::lines_in(stream), first);
    if lines > 0 {
        bytes::lemma_suffix_start(tail_body(stream, raw), 0, (lines - 1) as nat);
    }
}

/// The part of the end of a stream from which the last lines are taken.
spec fn tail_body(region: Seq<u8>, raw: nat) -> Seq<u8> {
    let cut = if region.len() > SLICE_MAX_BYTES {
        region.skip(region.len() - SLICE_MAX_BYTES)
    } else {
        region
    };
    let body = summary::without_final_newline(cut);
    if cut.len() == SLICE_MAX_BYTES && raw > SLICE_MAX_BYTES {
        body.skip(text::partial_head(body) as int)
    } else {
        body
    }
}

/// A stream of one line leaves nothing for the tail.
pub proof fn law_single_line_keeps_head_only(stream: Seq<u8>, path: Seq<u8>)
    requires
        summary::lines_in(stream) <= 1,
    ensures
        summary::fold_of_stream(stream, path).tail.len() == 0,
{
    let raw = stream.len();
    assert(summary::tail_line_budget(
        summary::lines_in(stream),
        summary::head_line_count(stream, raw),
    ) == 0);
    let none = Seq::<u8>::empty();
    assert(valid_utf8(none));
    assert(decode_utf8(none).len() == 0);
    assert(encode_utf8(decode_utf8(none)).len() == 0);
}

/// The head of a valid UTF-8 stream is cut between characters.
pub proof fn lemma_head_slice_of_text(stream: Seq<u8>)
    requires
        valid_utf8(stream),
    ensures
        ({
            let shown = summary::head_slice(stream, stream.len());
            &&& valid_utf8(shown)
            &&& shown.len() <= SLICE_MAX_BYTES
            &&& shown.len() <= stream.len()
            &&& shown == stream.take(shown.len() as int)
        }),
{
    let raw = stream.len();
    let cut = if raw > SLICE_MAX_BYTES {
        stream.take(SLICE_MAX_BYTES as int)
    } else {
        stream
    };
    let c = cut.len() as int;
    assert(cut =~= stream.take(c));
    let whole = if raw > c {
        cut.take(c - text::partial_tail(cut))
    } else {
        cut
    };
    let w = whole.len() as int;
    assert(whole =~= stream.take(w));
    assert(is_char_boundary(stream, w)) by {
        if raw > c {
            text::lemma_partial_tail_boundary(stream, c);
        } else {
            is_char_boundary_start_end_of_seq(stream);
        }
    }
    let body = summary::without_final_newline(whole);
    let b = body.len() as int;
    assert(body =~= stream.take(b));
    assert(is_char_boundary(stream, b)) by {
        if b < w {
            text::lemma_boundary_behind_ascii(stream, w);
        }
    }
    let e = bytes::prefix_end(body, (HEAD_LINES - 1) as nat);
    bytes::lemma_prefix_end(body, (HEAD_LINES - 1) as nat);
    assert(body.take(e) =~= stream.take(e));
    assert(is_char_boundary(stream, e)) by {
        if e < b {
            assert(stream[e] == NEWLINE);
            text::lemma_boundary_behind_ascii(stream, e + 1);
        }
    }
    valid_utf8_split(stream, e);
    assert(stream.take(e) =~= stream.subrange(0, e));
}

/// The tail of a valid UTF-8 stream is cut between characters.
pub proof fn lemma_tail_slice_of_text(stream: Seq<u8>, lines: nat)
    requires
        valid_utf8(stream),
    ensures
        ({
            let shown = summary::tail_slice(stream, stream.len(), lines);
            let body = summary::without_final_newline(stream);
            &&& valid_utf8(shown)
            &&& shown.len() <= SLICE_MAX_BYTES
            &&& shown.len() <= body.len()
            &&& shown == body.skip(body.len() - shown.len())
        }),
{
    let raw = stream.len();
    let trunk = summary::without_final_newline(stream);
    let b = trunk.len() as int;
    is_char_boundary_start_end_of_seq(stream);
    assert(is_char_boundary(stream, b)) by {
        if b < raw {
            text::lemma_boundary_behind_ascii(stream, raw as int);
        }
    }
    valid_utf8_split(stream, b);
    assert(trunk =~= stream.subrange(0, b));
    assert(valid_utf8(trunk));
    if lines == 0 {
        assert(trunk.skip(b) =~= Seq::<u8>::empty());
    } else {
        let whole = tail_body(stream, raw);
        let w = b - whole.len();
        let cut = if raw > SLICE_MAX_BYTES {
            stream.skip(raw - SLICE_MAX_BYTES)
        } else {
            stream
        };
        let c = raw - cut.len();
        let body = summary::without_final_newline(cut);
        assert(body =~= trunk.skip(c));
        assert(whole =~= trunk.skip(w));
        is_char_boundary_start_end_of_seq(trunk);
        assert(is_char_boundary(trunk, w)) by {
            if cut.len() == SLICE_MAX_BYTES && raw > SLICE_MAX_BYTES {
                text::lemma_partial_head_boundary(trunk, c);
            }
        }
        let i = bytes::suffix_start(whole, 0, (lines - 1) as nat);
        bytes::lemma_suffix_start(whole, 0, (lines - 1) as nat);
        let e = w + i;
        assert(whole.skip(i) =~= trunk.skip(e));
        assert(is_char_boundary(trunk, e)) by {
            if i > 0 {
                assert(trunk[e - 1] == NEWLINE);
                text::lemma_boundary_behind_ascii(trunk, e);
            }
        }
        valid_utf8_split(trunk, e);
        assert(trunk.skip(e) =~= trunk.subrange(e, b));
    }
}

/// What a summary shows of valid UTF-8 it shows as it is: bytes that are valid and
/// within the limit survive decoding and capping.
pub proof fn lemma_shown_verbatim(shown: Seq<u8>)
    requires
        valid_utf8(shown),
        shown.len() <= SLICE_MAX_BYTES,
    ensures
        encode_utf8(text::prefix_within(text::text_of(shown), SLICE_MAX_BYTES as nat)) == shown,
        encode_utf8(text::suffix_within(text::text_of(shown), SLICE_MAX_BYTES as nat)) == shown,
{
    decode_utf8_encode_utf8(shown);
}

/// A summary shows text verbatim: the head of a valid UTF-8 stream is a prefix of the
/// stream, byte for byte, and the tail is how the stream ends but for a final line
/// feed. No replacement character is put in.
pub proof fn law_text_is_shown_verbatim(stream: Seq<u8>, path: Seq<u8>)
    requires
        valid_utf8(stream),
    ensures
        ({
            let fold = summary::fold_of_stream(stream, path);
            let first = encode_utf8(fold.head);
            let last = encode_utf8(fold.tail);
            let body = summary::without_final_newline(stream);
            &&& first.len() <= stream.len()
            &&& first == stream.take(first.len() as int)
            &&& last.len() <= body.len()
            &&& last == body.skip(body.len() - last.len())
        }),
{
    let raw = stream.len();
    let lines = summary::tail_line_budget(
        summary::lines_in(stream),
        summary::head_line_count(stream, raw),
    );
    lemma_head_slice_of_text(stream);
    lemma_tail_slice_of_text(stream, lines);
    lemma_shown_verbatim(summary::head_slice(stream, raw));
    lemma_shown_verbatim(summary::tail_slice(stream, raw, lines));
}

/// The first [`SLICE_MAX_BYTES`] bytes of a stream show the head that the whole stream
/// shows.
pub proof fn law_prefix_shows_what_the_stream_shows(stream: Seq<u8>, prefix: int)
    requires
        0 <= prefix <= stream.len(),
        prefix >= SLICE_MAX_BYTES || prefix == stream.len(),
    ensures
        summary::head_slice(stream.take(prefix), stream.len()) == summary::head_slice(
            stream,
            stream.len(),
        ),
        summary::head_line_count(stream.take(prefix), stream.len())
            == summary::head_line_count(stream, stream.len()),
{
    let region = stream.take(prefix);
    if prefix == stream.len() {
        assert(region =~= stream);
    } else {
        assert(region.take(SLICE_MAX_BYTES as int) =~= stream.take(SLICE_MAX_BYTES as int));
        assert(prefix == SLICE_MAX_BYTES ==> region =~= stream.take(SLICE_MAX_BYTES as int));
    }
}

/// The part of the start of a stream from which the first lines are taken.
spec fn head_body(stream: Seq<u8>) -> Seq<u8> {
    let cut = if stream.len() > SLICE_MAX_BYTES {
        stream.take(SLICE_MAX_BYTES as int)
    } else {
        stream
    };
    let whole = if stream.len() > cut.len() {
        cut.take(cut.len() - text::partial_tail(cut))
    } else {
        cut
    };
    summary::without_final_newline(whole)
}

/// The head of a stream is how it starts, up to the fiftieth line feed, to 8000 bytes but
/// for a character cut there, or to the end but for a final line feed; and it stops at none
/// of these before it has to.
pub proof fn law_head_shows_all_it_may(stream: Seq<u8>)
    ensures
        ({
            let n = stream.len();
            let shown = summary::head_slice(stream, n);
            let e = shown.len() as int;
            &&& e <= n
            &&& shown == stream.take(e)
            &&& e <= 8_000
            &&& bytes::count_newlines(shown) <= 49
            &&& {
                ||| e == n
                ||| e == n - 1 && stream[e] == 10
                ||| bytes::count_newlines(shown) == 49 && stream[e] == 10
                ||| n > 8_000 && e >= 8_000 - 4
            }
        }),
{
    let body = head_body(stream);
    let e = bytes::prefix_end(body, (HEAD_LINES - 1) as nat);
    bytes::lemma_prefix_end(body, (HEAD_LINES - 1) as nat);
    assert(summary::head_slice(stream, stream.len()) =~= stream.take(e));
}

/// The tail of a stream is how it ends but for a final line feed, back over as many lines as
/// it is given, to 8000 bytes but for a character cut there, or to the start; and it stops at
/// none of these before it has to.
pub proof fn law_tail_shows_all_it_may(stream: Seq<u8>, lines: nat)
    requires
        lines > 0,
    ensures
        ({
            let n = stream.len();
            let shown = summary::tail_slice(stream, n, lines);
            let k = shown.len() as int;
            let end = if n > 0 && stream.last() == 10 {
                n - 1
            } else {
                n as int
            };
            &&& k <= end
            &&& shown == stream.subrange(end - k, end)
            &&& k <= 8_000
            &&& bytes::count_newlines(shown) <= lines - 1
            &&& {
                ||| k == end
                ||| bytes::count_newlines(shown) == lines - 1 && stream[end - k - 1] == 10
                ||| n > 8_000 && k >= 8_000 - 4
            }
        }),
{
    let n = stream.len();
    let whole = tail_body(stream, n);
    let i = bytes::suffix_start(whole, 0, (lines - 1) as nat);
    bytes::lemma_suffix_start(whole, 0, (lines - 1) as nat);
    let shown = summary::tail_slice(stream, n, lines);
    let k = shown.len() as int;
    let end = if n > 0 && stream.last() == 10 {
        n - 1
    } else {
        n as int
    };
    let w = end - whole.len();
    assert(whole =~= stream.subrange(w, end));
    assert(shown =~= stream.subrange(end - k, end));
    if i > 0 {
        assert(whole[i - 1] == stream[w + i - 1]);
    }
}

/// A summary of valid UTF-8 is the head and, of the lines that are left, the last fifty,
/// under the totals of the stream.
pub proof fn law_summary_is_head_tail_and_totals(stream: Seq<u8>, path: Seq<u8>)
    requires
        valid_utf8(stream),
    ensures
        ({
            let n = stream.len();
            let fold = summary::fold_of_stream(stream, path);
            let newlines = bytes::count_newlines(stream);
            let total = if n > 0 && stream.last() != 10 {
                newlines + 1
            } else {
                newlines
            };
            let first = if n == 0 {
                0
            } else {
                bytes::count_newlines(summary::head_slice(stream, n)) + 1
            };
            let left = total - first;
            &&& fold.raw_bytes == n
            &&& fold.path == path
            &&& fold.total_lines == total
            &&& encode_utf8(fold.head) == summary::head_slice(stream, n)
            &&& left <= 0 ==> fold.tail.len() == 0
            &&& 0 < left <= 50 ==> encode_utf8(fold.tail) == summary::tail_slice(
                stream,
                n,
                left as nat,
            )
            &&& left > 50 ==> encode_utf8(fold.tail) == summary::tail_slice(stream, n, 50)
            &&& fold.kept_bytes == encode_utf8(
                summary::rendered(fold.head, fold.tail, path),
            ).len()
        }),
{
    let n = stream.len();
    let lines = summary::tail_line_budget(
        summary::lines_in(stream),
        summary::head_line_count(stream, n),
    );
    lemma_head_slice_of_text(stream);
    lemma_tail_slice_of_text(stream, lines);
    lemma_shown_verbatim(summary::head_slice(stream, n));
    lemma_shown_verbatim(summary::tail_slice(stream, n, lines));
    let none = Seq::<u8>::empty();
    assert(valid_utf8(none));
    assert(decode_utf8(none).len() == 0);
    assert(encode_utf8(decode_utf8(none)).len() == 0);
}

/// The text of a summary: its head, its tail on lines of its own where there is one, and the
/// place of the full output in brackets.
pub proof fn law_summary_text(head: Seq<char>, tail: Seq<char>, path: Seq<u8>)
    ensures
        ({
            let place = "[full output: "@ + text::text_of(path) + "]"@;
            let shown = summary::rendered(head, tail, path);
            &&& tail.len() == 0 ==> shown == head + "\n"@ + place
            &&& tail.len() > 0 ==> shown == head + "\n"@ + tail + "\n"@ + place
        }),
{
    let place = "[full output: "@ + text::text_of(path) + "]"@;
    let shown = summary::rendered(head, tail, path);
    if tail.len() == 0 {
        assert(shown =~= head + "\n"@ + place);
    } else {
        assert(shown =~= head + "\n"@ + tail + "\n"@ + place);
    }
}

/// Where the head of valid UTF-8 is cut by its bytes, it ends at the last character boundary
/// within 8000 bytes, but for a line feed right before that.
pub proof fn law_head_is_cut_at_the_last_character(stream: Seq<u8>)
    requires
        valid_utf8(stream),
        stream.len() > 8_000,
        bytes::count_newlines(summary::head_slice(stream, stream.len())) < 49,
    ensures
        ({
            let e = summary::head_slice(stream, stream.len()).len() as int;
            &&& is_char_boundary(stream, e)
            &&& forall|j: int|
                e < j <= 8_000 && #[trigger] is_char_boundary(stream, j) ==> j == e + 1
                    && stream[e] == 10
        }),
{
    let cut = stream.take(8_000);
    let p = text::partial_tail(cut) as int;
    let w = 8_000 - p;
    let body = head_body(stream);
    let e = bytes::prefix_end(body, (HEAD_LINES - 1) as nat);
    bytes::lemma_prefix_end(body, (HEAD_LINES - 1) as nat);
    assert(summary::head_slice(stream, stream.len()) =~= stream.take(e));
    assert(body =~= stream.take(body.len() as int));
    text::lemma_partial_tail_boundary(stream, 8_000);
    assert(w - 1 <= e <= w);
    if e < w {
        assert(stream[e] == 10);
        text::lemma_boundary_behind_ascii(stream, w);
    }
    assert forall|j: int| e < j <= 8_000 && #[trigger] is_char_boundary(stream, j) implies j
        == e + 1 && stream[e] == 10 by {
        if j > w {
            let part = stream.subrange(w, j);
            assert(valid_utf8(part)) by {
                valid_utf8_split(stream, w);
                let tail = stream.subrange(w, stream.len() as int);
                is_char_boundary_iff_not_is_continuation_byte(stream, j);
                is_char_boundary_iff_not_is_continuation_byte(tail, j - w);
                assert(tail[j - w] == stream[j]);
                valid_utf8_split(tail, j - w);
                assert(tail.subrange(0, j - w) =~= part);
            }
            assert(part[0] == cut[w]);
        }
    }
}

/// Where the tail of valid UTF-8 is cut by its bytes, it starts at the first character
/// boundary within the last 8000 bytes.
pub proof fn law_tail_is_cut_at_the_first_character(stream: Seq<u8>, lines: nat)
    requires
        valid_utf8(stream),
        stream.len() > 8_000,
        bytes::count_newlines(summary::tail_slice(stream, stream.len(), lines)) + 1 < lines,
    ensures
        ({
            let n = stream.len();
            let end = if stream.last() == 10 {
                n - 1
            } else {
                n as int
            };
            let from = end - summary::tail_slice(stream, n, lines).len();
            &&& n - 8_000 <= from <= end
            &&& is_char_boundary(stream, from)
            &&& forall|j: int| n - 8_000 <= j < from ==> !#[trigger] is_char_boundary(stream, j)
        }),
{
    let n = stream.len();
    let whole = tail_body(stream, n);
    let i = bytes::suffix_start(whole, 0, (lines - 1) as nat);
    bytes::lemma_suffix_start(whole, 0, (lines - 1) as nat);
    let end = if stream.last() == 10 {
        n - 1
    } else {
        n as int
    };
    let c = n - 8_000;
    let trunk = stream.subrange(0, end);
    let body = trunk.skip(c);
    assert(summary::without_final_newline(stream.skip(c)) =~= body);
    is_char_boundary_start_end_of_seq(stream);
    assert(is_char_boundary(stream, end)) by {
        if end < n {
            text::lemma_boundary_behind_ascii(stream, n as int);
        }
    }
    valid_utf8_split(stream, end);
    text::lemma_partial_head_boundary(trunk, c);
    let from = c + text::partial_head(body);
    if from < end {
        is_char_boundary_iff_not_is_continuation_byte(trunk, from);
        is_char_boundary_iff_not_is_continuation_byte(stream, from);
        assert(trunk[from] == stream[from]);
    }
    assert forall|j: int| c <= j < from implies !#[trigger] is_char_boundary(stream, j) by {
        assert(body[j - c] == stream[j]);
        is_char_boundary_iff_not_is_continuation_byte(stream, j);
    }
}

} // verus!
