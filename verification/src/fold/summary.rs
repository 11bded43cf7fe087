//! The summary of a folded stream: its first lines, its last lines, its totals,
//! and where the whole of it is kept.

use vstd::prelude::*;
use vstd::string::*;
use vstd::utf8::*;

use crate::bytes;
use crate::bytes::NEWLINE;
use crate::text;

verus! {

/// Most bytes shown of either end of a stream.
pub const SLICE_MAX_BYTES: usize = 8_000;

/// Most lines shown of the start of a stream.
pub const HEAD_LINES: usize = 50;

/// Most lines shown of the end of a stream.
pub const TAIL_LINES: usize = 50;

/// The summary of one folded stream.
#[derive(Debug)]
pub struct Fold {
    /// The first lines of the stream, without the line feed that ends the last.
    pub head: String,
    /// The last lines of the stream, without the line feed that ends the last.
    pub tail: String,
    /// How many lines the stream held.
    pub total_lines: usize,
    /// How many bytes the stream held.
    pub raw_bytes: usize,
    /// How many bytes the rendered summary takes.
    pub kept_bytes: usize,
    /// Where every byte of the stream is kept.
    pub path: Vec<u8>,
}

/// What a [`Fold`] says.
pub struct FoldView {
    pub head: Seq<char>,
    pub tail: Seq<char>,
    pub total_lines: nat,
    pub raw_bytes: nat,
    pub kept_bytes: nat,
    pub path: Seq<u8>,
}

impl View for Fold {
    type V = FoldView;

    open spec fn view(&self) -> FoldView {
        FoldView {
            head: self.head@,
            tail: self.tail@,
            total_lines: self.total_lines as nat,
            raw_bytes: self.raw_bytes as nat,
            kept_bytes: self.kept_bytes as nat,
            path: self.path@,
        }
    }
}

/// The line total of a stream with `newlines` line feeds and this last byte: an
/// unended last line counts.
pub open spec fn line_total(newlines: nat, last_byte: Option<u8>) -> nat {
    match last_byte {
        Some(b) if b != NEWLINE => newlines + 1,
        _ => newlines,
    }
}

/// The last byte of a stream, where it has one.
pub open spec fn last_of(stream: Seq<u8>) -> Option<u8> {
    if stream.len() == 0 {
        None
    } else {
        Some(stream.last())
    }
}

/// How many lines a stream holds.
pub open spec fn lines_in(stream: Seq<u8>) -> nat {
    line_total(bytes::count_newlines(stream), last_of(stream))
}

/// `b` without the line feed at its end, where it ends in one.
pub open spec fn without_final_newline(b: Seq<u8>) -> Seq<u8> {
    if b.len() > 0 && b.last() == NEWLINE {
        b.drop_last()
    } else {
        b
    }
}

/// The bytes shown of the start of a stream of `raw` bytes that starts with
/// `region`: at most [`SLICE_MAX_BYTES`] bytes and [`HEAD_LINES`] lines, no
/// character left partial by the cut.
pub open spec fn head_slice(region: Seq<u8>, raw: nat) -> Seq<u8> {
    let cut = if region.len() > SLICE_MAX_BYTES {
        region.take(SLICE_MAX_BYTES as int)
    } else {
        region
    };
    let whole = if raw > cut.len() {
        cut.take(cut.len() - text::partial_tail(cut))
    } else {
        cut
    };
    let body = without_final_newline(whole);
    body.take(bytes::prefix_end(body, (HEAD_LINES - 1) as nat))
}

/// How many lines of the stream the head shows, whole or in part.
pub open spec fn head_line_count(region: Seq<u8>, raw: nat) -> nat {
    if region.len() == 0 {
        0
    } else {
        bytes::count_newlines(head_slice(region, raw)) + 1
    }
}

/// How many lines are left for the tail once the head has taken its own.
pub open spec fn tail_line_budget(total_lines: nat, head_lines: nat) -> nat {
    if total_lines <= head_lines {
        0
    } else if total_lines - head_lines <= TAIL_LINES {
        (total_lines - head_lines) as nat
    } else {
        TAIL_LINES as nat
    }
}

/// The bytes shown of the end of a stream of `raw` bytes that ends with `region`:
/// at most [`SLICE_MAX_BYTES`] bytes and `lines` lines, no character left partial
/// by the cut.
pub open spec fn tail_slice(region: Seq<u8>, raw: nat, lines: nat) -> Seq<u8> {
    let cut = if region.len() > SLICE_MAX_BYTES {
        region.skip(region.len() - SLICE_MAX_BYTES)
    } else {
        region
    };
    let body = without_final_newline(cut);
    let whole = if cut.len() == SLICE_MAX_BYTES && raw > SLICE_MAX_BYTES {
        body.skip(text::partial_head(body) as int)
    } else {
        body
    };
    if lines == 0 {
        Seq::empty()
    } else {
        whole.skip(bytes::suffix_start(whole, 0, (lines - 1) as nat))
    }
}

/// The text of a summary: the head, the tail where there is one, and the place of
/// the full output.
pub open spec fn rendered(head: Seq<char>, tail: Seq<char>, path: Seq<u8>) -> Seq<char> {
    let opening = head + "\n"@;
    let shown = if tail.len() == 0 {
        opening
    } else {
        opening + tail + "\n"@
    };
    shown + "[full output: "@ + text::text_of(path) + "]"@
}

/// The summary of a stream of `raw_bytes` bytes and `total_lines` lines, of which
/// `head` is the start and `tail` the end, kept at `path`.
pub open spec fn fold_of_regions(
    head: Seq<u8>,
    tail: Seq<u8>,
    total_lines: nat,
    raw_bytes: nat,
    path: Seq<u8>,
) -> FoldView {
    let lines = tail_line_budget(total_lines, head_line_count(head, raw_bytes));
    let head_text = text::prefix_within(
        text::text_of(head_slice(head, raw_bytes)),
        SLICE_MAX_BYTES as nat,
    );
    let tail_text = text::suffix_within(
        text::text_of(tail_slice(tail, raw_bytes, lines)),
        SLICE_MAX_BYTES as nat,
    );
    FoldView {
        head: head_text,
        tail: tail_text,
        total_lines,
        raw_bytes,
        kept_bytes: encode_utf8(rendered(head_text, tail_text, path)).len(),
        path,
    }
}

/// The summary of a stream that is at hand as a whole.
pub open spec fn fold_of_stream(stream: Seq<u8>, path: Seq<u8>) -> FoldView {
    fold_of_regions(stream, stream, lines_in(stream), stream.len(), path)
}

/// The line total from a line feed count and the last byte of the stream.
pub fn total_lines_from(newlines: usize, last_byte: Option<u8>) -> (total: usize)
    requires
        line_total(newlines as nat, last_byte) <= usize::MAX,
    ensures
        total == line_total(newlines as nat, last_byte),
        last_byte is None || last_byte == Some(10u8) ==> total == newlines,
        last_byte is Some && last_byte != Some(10u8) ==> total == newlines + 1,
{
    match last_byte {
        Some(b) => if b != NEWLINE {
            newlines + 1
        } else {
            newlines
        },
        None => newlines,
    }
}

/// A stream holds at most as many lines as bytes.
pub proof fn lemma_lines_bound(stream: Seq<u8>)
    ensures
        lines_in(stream) <= stream.len(),
{
    bytes::lemma_count_bound(stream);
    if stream.len() > 0 {
        bytes::lemma_count_bound(stream.drop_last());
    }
}

fn trim_final_newline(b: &[u8]) -> (body: &[u8])
    ensures
        body@ == without_final_newline(b@),
{
    let n: usize = b.len();
    if n > 0 && b[n - 1] == NEWLINE {
        let body = vstd::slice::slice_subrange(b, 0, n - 1);
        assert(body@ =~= b@.drop_last());
        body
    } else {
        b
    }
}

/// Cut the shown start out of the first bytes of a stream of `raw_bytes` bytes.
pub fn slice_head(region: &[u8], raw_bytes: usize) -> (shown: &[u8])
    ensures
        shown@ == head_slice(region@, raw_bytes as nat),
{
    let cut = if region.len() > SLICE_MAX_BYTES {
        vstd::slice::slice_subrange(region, 0, SLICE_MAX_BYTES)
    } else {
        region
    };
    let whole = if raw_bytes > cut.len() {
        let partial: usize = text::find_partial_tail(cut);
        vstd::slice::slice_subrange(cut, 0, cut.len() - partial)
    } else {
        cut
    };
    let body = trim_final_newline(whole);
    let end: usize = bytes::find_prefix_end(body, HEAD_LINES - 1);
    vstd::slice::slice_subrange(body, 0, end)
}

/// Cut the shown end out of the last bytes of a stream of `raw_bytes` bytes.
pub fn slice_tail(region: &[u8], raw_bytes: usize, lines: usize) -> (shown: &[u8])
    ensures
        shown@ == tail_slice(region@, raw_bytes as nat, lines as nat),
{
    let cut = if region.len() > SLICE_MAX_BYTES {
        vstd::slice::slice_subrange(region, region.len() - SLICE_MAX_BYTES, region.len())
    } else {
        region
    };
    let body = trim_final_newline(cut);
    let whole = if cut.len() == SLICE_MAX_BYTES && raw_bytes > SLICE_MAX_BYTES {
        let partial: usize = text::find_partial_head(body);
        vstd::slice::slice_subrange(body, partial, body.len())
    } else {
        body
    };
    if lines == 0 {
        let shown = vstd::slice::slice_subrange(whole, 0, 0);
        assert(shown@ =~= Seq::<u8>::empty());
        shown
    } else {
        let start: usize = bytes::find_suffix_start(whole, 0, lines - 1);
        vstd::slice::slice_subrange(whole, start, whole.len())
    }
}

/// Lay out the text of a summary.
fn layout(head: &str, tail: &str, path: &[u8]) -> (text: String)
    ensures
        text@ == rendered(head@, tail@, path@),
{
    let mut text = head.to_owned();
    text.append("\n");
    if !tail.is_empty() {
        text.append(tail);
        text.append("\n");
    }
    text.append("[full output: ");
    let shown_path = text::to_text(path);
    text.append(shown_path.as_str());
    text.append("]");
    text
}

impl Fold {
    /// Summarise a stream from its first bytes, its last bytes and its totals.
    pub fn from_regions(
        head: &[u8],
        tail: &[u8],
        total_lines: usize,
        raw_bytes: usize,
        path: Vec<u8>,
    ) -> (fold: Fold)
        ensures
            fold@ == fold_of_regions(
                head@,
                tail@,
                total_lines as nat,
                raw_bytes as nat,
                path@,
            ),
            fold.total_lines == total_lines,
            fold.raw_bytes == raw_bytes,
            fold.path@ == path@,
            ({
                let shown = fold_of_regions(
                    head@,
                    tail@,
                    total_lines as nat,
                    raw_bytes as nat,
                    path@,
                );
                fold.head@ == shown.head && fold.tail@ == shown.tail
            }),
            fold.kept_bytes == encode_utf8(rendered(fold.head@, fold.tail@, fold.path@)).len(),
    {
        let head_bytes = slice_head(head, raw_bytes);
        let newlines: usize = bytes::newline_count(head_bytes);
        proof {
            bytes::lemma_count_bound(head_bytes@);
            lemma_head_lines(head@, raw_bytes as nat);
        }
        let head_lines: usize = if head.len() == 0 {
            0
        } else {
            newlines + 1
        };
        let lines: usize = if total_lines <= head_lines {
            0
        } else if total_lines - head_lines <= TAIL_LINES {
            total_lines - head_lines
        } else {
            TAIL_LINES
        };
        let tail_bytes = slice_tail(tail, raw_bytes, lines);
        let head_text = text::cap_front(text::to_text(head_bytes), SLICE_MAX_BYTES);
        let tail_text = text::cap_back(text::to_text(tail_bytes), SLICE_MAX_BYTES);
        let text = layout(head_text.as_str(), tail_text.as_str(), path.as_slice());
        let kept_bytes: usize = text.as_str().as_bytes().len();
        Fold { head: head_text, tail: tail_text, total_lines, raw_bytes, kept_bytes, path }
    }

    /// Summarise a stream that is at hand as a whole.
    pub fn from_output(raw: &[u8], path: Vec<u8>) -> (fold: Fold)
        ensures
            fold@ == fold_of_stream(raw@, path@),
            fold.raw_bytes == raw@.len(),
            fold.path@ == path@,
            fold.total_lines == bytes::count_newlines(raw@) + if raw@.len() > 0 && raw@.last()
                != 10 {
                1int
            } else {
                0int
            },
    {
        let last_byte: Option<u8> = if raw.len() == 0 {
            None
        } else {
            Some(raw[raw.len() - 1])
        };
        proof {
            lemma_lines_bound(raw@);
        }
        let total: usize = total_lines_from(bytes::newline_count(raw), last_byte);
        Fold::from_regions(raw, raw, total, raw.len(), path)
    }

    /// The text that stands in for the stream.
    pub fn render(&self) -> (text: String)
        ensures
            text@ == rendered(self.head@, self.tail@, self.path@),
            self.tail@.len() == 0 ==> text@ == self.head@ + "\n"@ + "[full output: "@
                + text::text_of(self.path@) + "]"@,
            self.tail@.len() > 0 ==> text@ == self.head@ + "\n"@ + self.tail@ + "\n"@
                + "[full output: "@ + text::text_of(self.path@) + "]"@,
    {
        layout(self.head.as_str(), self.tail.as_str(), self.path.as_slice())
    }
}

/// The head never shows more than [`HEAD_LINES`] lines.
pub proof fn lemma_head_lines(region: Seq<u8>, raw: nat)
    ensures
        head_line_count(region, raw) <= HEAD_LINES,
{
    let cut = if region.len() > SLICE_MAX_BYTES {
        region.take(SLICE_MAX_BYTES as int)
    } else {
        region
    };
    let whole = if raw > cut.len() {
        cut.take(cut.len() - text::partial_tail(cut))
    } else {
        cut
    };
    bytes::lemma_prefix_end(without_final_newline(whole), (HEAD_LINES - 1) as nat);
}

} // verus!
