//! The size threshold of one stream: bytes are held in memory below it and go to disk
//! from the chunk that crosses it.
//!
//! * While **buffering**, raw bytes accumulate. If the child ends here, they are
//!   the output, byte for byte.
//! * On crossing, the driver opens the fold file and writes the buffered prefix.
//! * While **spilling**, every chunk goes straight to disk. Only counts, the first
//!   bytes, a bounded ring over the last bytes and what tells text from anything else
//!   stay in memory.
//!
//! A [`StreamSink`] decides; whoever drives it opens the file and writes.

use vstd::prelude::*;
use vstd::utf8::*;

use crate::bytes;
use crate::fold::laws;
use crate::fold::summary;
use crate::fold::summary::{Fold, FoldView, SLICE_MAX_BYTES};
use crate::fold::tokens;
use crate::runner::paths;
use crate::runner::ring;
use crate::runner::ring::TAIL_RING_MAX;
use crate::runner::scan;
use crate::runner::scan::TextScan;

verus! {

/// Read size per `read` call on a child pipe.
pub const READ_CHUNK: usize = 65_536;

/// What one stream produced.
#[derive(Debug)]
pub enum StreamCapture {
    /// Stayed under the threshold: these are the child's bytes.
    Passthrough(Vec<u8>),
    /// Crossed the threshold: the full output is on disk, this is the summary of it.
    Folded(Fold),
    /// Crossed the threshold but is not text. Every byte is on disk at the path of the
    /// fold and reaches the caller unchanged; the summary is never shown.
    BinaryPassthrough(Fold),
}

/// What a [`StreamCapture`] says.
pub enum CaptureView {
    Passthrough(Seq<u8>),
    Folded(FoldView),
    BinaryPassthrough(FoldView),
}

impl View for StreamCapture {
    type V = CaptureView;

    open spec fn view(&self) -> CaptureView {
        match self {
            StreamCapture::Passthrough(held) => CaptureView::Passthrough(held@),
            StreamCapture::Folded(fold) => CaptureView::Folded(fold@),
            StreamCapture::BinaryPassthrough(fold) => CaptureView::BinaryPassthrough(fold@),
        }
    }
}

impl CaptureView {
    /// How many bytes the command produced.
    pub open spec fn raw_bytes(self) -> nat {
        match self {
            CaptureView::Passthrough(held) => held.len(),
            CaptureView::Folded(fold) => fold.raw_bytes,
            CaptureView::BinaryPassthrough(fold) => fold.raw_bytes,
        }
    }

    /// How many bytes are meant for the caller: the summary of a fold, and
    /// everything otherwise.
    pub open spec fn kept_bytes(self) -> nat {
        match self {
            CaptureView::Passthrough(held) => held.len(),
            CaptureView::Folded(fold) => fold.kept_bytes,
            CaptureView::BinaryPassthrough(fold) => fold.raw_bytes,
        }
    }

    /// Where the full output lies on disk, if the stream crossed the threshold.
    pub open spec fn fold_path(self) -> Option<Seq<u8>> {
        match self {
            CaptureView::Passthrough(_) => None,
            CaptureView::Folded(fold) => Some(fold.path),
            CaptureView::BinaryPassthrough(fold) => Some(fold.path),
        }
    }
}

impl StreamCapture {
    /// How many bytes the command produced on this stream.
    pub fn raw_bytes(&self) -> (n: usize)
        ensures
            n == self@.raw_bytes(),
            match self {
                StreamCapture::Passthrough(held) => n == held@.len(),
                StreamCapture::Folded(fold) => n == fold.raw_bytes,
                StreamCapture::BinaryPassthrough(fold) => n == fold.raw_bytes,
            },
    {
        match self {
            StreamCapture::Passthrough(held) => held.len(),
            StreamCapture::Folded(fold) => fold.raw_bytes,
            StreamCapture::BinaryPassthrough(fold) => fold.raw_bytes,
        }
    }

    /// How many bytes are meant for the caller: all of them, or only the summary of
    /// a fold.
    pub fn kept_bytes(&self) -> (n: usize)
        ensures
            n == self@.kept_bytes(),
            match self {
                StreamCapture::Passthrough(held) => n == held@.len(),
                StreamCapture::Folded(fold) => n == fold.kept_bytes,
                StreamCapture::BinaryPassthrough(fold) => n == fold.raw_bytes,
            },
    {
        match self {
            StreamCapture::Passthrough(held) => held.len(),
            StreamCapture::Folded(fold) => fold.kept_bytes,
            StreamCapture::BinaryPassthrough(fold) => fold.raw_bytes,
        }
    }

    /// Whether the stream was summarised.
    pub fn is_folded(&self) -> (yes: bool)
        ensures
            yes == (self@ is Folded),
            yes == (self is Folded),
    {
        match self {
            StreamCapture::Folded(_) => true,
            _ => false,
        }
    }

    /// Where the full output lies on disk, if this stream crossed the threshold.
    pub fn fold_path(&self) -> (path: Option<&Vec<u8>>)
        ensures
            self@.fold_path() is Some <==> path is Some,
            path matches Some(p) ==> self@.fold_path() == Some(p@),
            match self {
                StreamCapture::Passthrough(_) => path is None,
                StreamCapture::Folded(fold) => path == Some(&fold.path),
                StreamCapture::BinaryPassthrough(fold) => path == Some(&fold.path),
            },
    {
        match self {
            StreamCapture::Passthrough(_) => None,
            StreamCapture::Folded(fold) => Some(&fold.path),
            StreamCapture::BinaryPassthrough(fold) => Some(&fold.path),
        }
    }
}

/// Whether `run` can be rendered as text: valid UTF-8 without a NUL byte.
pub open spec fn is_text(run: Seq<u8>) -> bool {
    valid_utf8(run) && !run.contains(0)
}

/// Whether a run of bytes cannot be rendered as text without loss. A NUL byte
/// counts on its own: text holds none, and it is the usual mark of a binary file.
pub fn payload_is_binary(run: &[u8]) -> (binary: bool)
    ensures
        binary == !is_text(run@),
        binary <==> !valid_utf8(run@) || exists|i: int|
            0 <= i < run@.len() && #[trigger] run@[i] == 0,
{
    let mut i: usize = 0;
    while i < run.len()
        invariant
            i <= run@.len(),
            forall|k: int| 0 <= k < i ==> run@[k] != 0,
        decreases run@.len() - i,
    {
        if run[i] == 0 {
            assert(run@.contains(0));
            return true;
        }
        i = i + 1;
    }
    std::str::from_utf8(run).is_err()
}

enum State {
    Buffering(Vec<u8>),
    Spilling,
}

/// Where a stream stands at the threshold.
pub enum Phase {
    /// Everything is still in memory.
    Buffering,
    /// Everything is on disk at `path`.
    Spilling { path: Seq<u8> },
}

/// What a [`StreamSink`] knows: its settings, the stream so far, and where it stands.
pub struct SinkView {
    pub slug: Seq<char>,
    pub dir: Option<Seq<u8>>,
    pub threshold_tokens: nat,
    pub enabled: bool,
    /// Every byte fed so far.
    pub stream: Seq<u8>,
    pub phase: Phase,
    /// The window over the end of the stream, once it spills.
    pub ring: Seq<u8>,
    /// Whether the held bytes were not text when they last reached the threshold. Such a
    /// stream does not ask for a fold file twice.
    pub binary: bool,
}

/// What the driver owes a sink that has taken a chunk.
#[derive(Debug, Clone, Copy, PartialEq, Eq, Structural)]
pub enum FeedStep {
    /// Nothing: the chunk is held in memory, or there was none.
    Hold,
    /// Open the fold file, hand its path to [`StreamSink::spill`] and write what that
    /// returns.
    Open,
    /// Write the chunk to the open fold file.
    Append,
}

/// Why a sink cannot go on.
#[derive(Debug, Clone, Copy, PartialEq, Eq, Structural)]
pub enum SpillError {
    /// The stream crossed the threshold and there is no directory to keep it in.
    NoFoldDirectory,
}

impl SpillError {
    /// The error in words.
    pub fn message(&self) -> (text: &'static str)
        ensures
            text@ == "no fold directory available (no data_local_dir on this platform)"@,
    {
        "no fold directory available (no data_local_dir on this platform)"
    }
}

/// What came of one read on a child pipe.
pub enum ReadEvent<'a> {
    /// These bytes were read; none means the end of the stream.
    Bytes(&'a [u8]),
    /// The read was interrupted before it got anything.
    Interrupted,
    /// The read failed for good.
    Failed,
}

/// What the driver does next.
#[derive(Debug, Clone, Copy, PartialEq, Eq, Structural)]
pub enum PumpStep {
    /// Carry out the step, then read on.
    Fed(FeedStep),
    /// Read on.
    Retry,
    /// Finish the sink.
    Finish,
    /// Give up with the sink's error.
    Refused(SpillError),
    /// Give up with the error of the read.
    ReadFailed,
}

/// A sink that has seen nothing.
pub open spec fn fresh(
    slug: Seq<char>,
    dir: Option<Seq<u8>>,
    threshold_tokens: nat,
    enabled: bool,
) -> SinkView {
    SinkView {
        slug,
        dir,
        threshold_tokens,
        enabled,
        stream: Seq::empty(),
        phase: Phase::Buffering,
        ring: Seq::empty(),
        binary: false,
    }
}

/// Whether a stream of `len` bytes is at or past the threshold of `sink`.
pub open spec fn reaches_threshold(sink: SinkView, len: nat) -> bool {
    sink.enabled && tokens::estimated_tokens(len) >= sink.threshold_tokens
}

/// A sink that has taken `chunk`, and what it answers.
pub open spec fn fed(sink: SinkView, chunk: Seq<u8>) -> (SinkView, Result<FeedStep, SpillError>) {
    let stream = sink.stream + chunk;
    if chunk.len() == 0 {
        (sink, Ok(FeedStep::Hold))
    } else if sink.phase is Spilling {
        (
            SinkView { stream, ring: ring::trimmed(sink.ring + chunk), ..sink },
            Ok(FeedStep::Append),
        )
    } else if reaches_threshold(sink, stream.len()) && !sink.binary {
        (
            SinkView { stream, binary: !is_text(stream), ..sink },
            if sink.dir is None {
                Err(SpillError::NoFoldDirectory)
            } else {
                Ok(FeedStep::Open)
            },
        )
    } else {
        (SinkView { stream, ..sink }, Ok(FeedStep::Hold))
    }
}

/// A sink whose fold file has been opened at `path`.
pub open spec fn spilled(sink: SinkView, path: Seq<u8>) -> SinkView {
    if sink.phase is Spilling {
        sink
    } else {
        SinkView { phase: Phase::Spilling { path }, ring: last_bytes(sink.stream), ..sink }
    }
}

/// The last bytes of a stream, as many as a ring starts with.
pub open spec fn last_bytes(stream: Seq<u8>) -> Seq<u8> {
    if stream.len() > TAIL_RING_MAX {
        stream.skip(stream.len() - TAIL_RING_MAX)
    } else {
        stream
    }
}

/// The first bytes of a stream, as many as a summary can show.
pub open spec fn first_bytes(stream: Seq<u8>) -> Seq<u8> {
    if stream.len() > SLICE_MAX_BYTES {
        stream.take(SLICE_MAX_BYTES as int)
    } else {
        stream
    }
}

/// What a sink hands over when its stream has ended: the bytes it still holds, or a
/// fold if the stream is text, or else the place of its bytes.
pub open spec fn captured(sink: SinkView) -> CaptureView {
    match sink.phase {
        Phase::Buffering => CaptureView::Passthrough(sink.stream),
        Phase::Spilling { path } => {
            let fold = summary::fold_of_stream(sink.stream, path);
            if is_text(sink.stream) {
                CaptureView::Folded(fold)
            } else {
                CaptureView::BinaryPassthrough(fold)
            }
        },
    }
}

/// Size threshold and bookkeeping for one stream. Standard output and standard error
/// each own one; they are never merged.
pub struct StreamSink {
    slug: String,
    dir: Option<Vec<u8>>,
    threshold_tokens: usize,
    enabled: bool,
    state: State,
    path: Option<Vec<u8>>,
    raw_bytes: usize,
    newlines: usize,
    last_byte: Option<u8>,
    head: Vec<u8>,
    tail: Vec<u8>,
    binary: bool,
    scan: TextScan,
    stream: Ghost<Seq<u8>>,
}

impl View for StreamSink {
    type V = SinkView;

    closed spec fn view(&self) -> SinkView {
        SinkView {
            slug: self.slug@,
            dir: paths::owned(self.dir),
            threshold_tokens: self.threshold_tokens as nat,
            enabled: self.enabled,
            stream: self.stream@,
            phase: match self.state {
                State::Buffering(_) => Phase::Buffering,
                State::Spilling => Phase::Spilling { path: self.path->0@ },
            },
            ring: self.tail@,
            binary: self.binary,
        }
    }
}

impl StreamSink {
    /// The counts are those of the stream. While buffering, the buffer is the stream;
    /// while spilling, the head is its start, the ring reaches back far enough, and the
    /// scan has seen all of it.
    pub closed spec fn wf(&self) -> bool {
        &&& self.raw_bytes == self.stream@.len()
        &&& self.newlines == bytes::count_newlines(self.stream@)
        &&& self.last_byte == summary::last_of(self.stream@)
        &&& self.tail@.len() <= TAIL_RING_MAX
        &&& match self.state {
            State::Buffering(buf) => {
                &&& buf@ == self.stream@
                &&& self.path is None
                &&& self.head@.len() == 0
                &&& self.tail@.len() == 0
                &&& self.scan.has_seen(Seq::empty())
                &&& self.scan.held() == 0
            },
            State::Spilling => {
                &&& self.path is Some
                &&& self.head@ == first_bytes(self.stream@)
                &&& ring::ring_covers(self.tail@, self.stream@)
                &&& self.scan.has_seen(self.stream@)
            },
        }
    }

    /// How many bytes have been counted.
    pub closed spec fn counted_bytes(&self) -> nat {
        self.raw_bytes as nat
    }

    /// How many line feeds have been counted.
    pub closed spec fn counted_newlines(&self) -> nat {
        self.newlines as nat
    }

    /// The byte that is remembered as the last.
    pub closed spec fn remembered_last(&self) -> Option<u8> {
        self.last_byte
    }

    /// The bytes kept from the start of a stream that has spilled.
    pub closed spec fn kept_head(&self) -> Seq<u8> {
        self.head@
    }

    /// How many bytes of the stream are held in memory.
    pub closed spec fn held(&self) -> nat {
        self.head@.len() + self.tail@.len() + self.scan.held() + match self.state {
            State::Buffering(buf) => buf@.len(),
            State::Spilling => 0,
        }
    }

    /// A sink for a stream of which nothing has been seen.
    pub fn new(
        slug: String,
        dir: Option<Vec<u8>>,
        threshold_tokens: usize,
        enabled: bool,
    ) -> (sink: StreamSink)
        ensures
            sink.wf(),
            sink@ == fresh(
                slug@,
                paths::owned(dir),
                threshold_tokens as nat,
                enabled,
            ),
            sink@.slug == slug@,
            sink@.dir is Some <==> dir is Some,
            dir matches Some(d) ==> sink@.dir == Some(d@),
            sink@.threshold_tokens == threshold_tokens,
            sink@.enabled == enabled,
            sink@.stream.len() == 0,
            sink@.phase is Buffering,
            sink@.ring.len() == 0,
            !sink@.binary,
    {
        StreamSink {
            slug,
            dir,
            threshold_tokens,
            enabled,
            state: State::Buffering(Vec::new()),
            path: None,
            raw_bytes: 0,
            newlines: 0,
            last_byte: None,
            head: Vec::new(),
            tail: Vec::new(),
            binary: false,
            scan: TextScan::new(),
            stream: Ghost(Seq::empty()),
        }
    }

    /// The name that the fold file of this stream carries.
    pub fn slug(&self) -> (slug: &String)
        ensures
            slug@ == self@.slug,
    {
        &self.slug
    }

    /// The directory that the fold file of this stream goes to.
    pub fn dir(&self) -> (dir: Option<&Vec<u8>>)
        ensures
            dir is Some <==> self@.dir is Some,
            dir matches Some(d) ==> self@.dir == Some(d@),
    {
        match &self.dir {
            Some(d) => Some(d),
            None => None,
        }
    }

    /// How many bytes the stream holds so far.
    pub fn raw_bytes(&self) -> (n: usize)
        requires
            self.wf(),
        ensures
            n == self@.stream.len(),
            n == self.counted_bytes(),
    {
        self.raw_bytes
    }

    /// Whether the stream has gone to disk.
    pub fn is_spilling(&self) -> (yes: bool)
        ensures
            yes == (self@.phase is Spilling),
    {
        match &self.state {
            State::Spilling => true,
            State::Buffering(_) => false,
        }
    }

    /// How many line feeds the stream holds so far.
    pub fn newlines(&self) -> (n: usize)
        requires
            self.wf(),
        ensures
            n == bytes::count_newlines(self@.stream),
            n == self.counted_newlines(),
    {
        self.newlines
    }

    /// The last byte of the stream so far.
    pub fn last_byte(&self) -> (last: Option<u8>)
        requires
            self.wf(),
        ensures
            last == summary::last_of(self@.stream),
            last == self.remembered_last(),
            self@.stream.len() == 0 ==> last is None,
            self@.stream.len() > 0 ==> last == Some(self@.stream.last()),
    {
        self.last_byte
    }

    /// The first bytes of the stream: nothing while buffering, and never more than a
    /// summary can show.
    pub fn head(&self) -> (head: &Vec<u8>)
        requires
            self.wf(),
        ensures
            head@ == self.kept_head(),
            head@.len() <= SLICE_MAX_BYTES,
            self@.phase is Spilling ==> head@.len() <= self@.stream.len() && head@
                == self@.stream.take(head@.len() as int),
            self@.phase is Spilling ==> head@.len() == 8_000 || head@.len()
                == self@.stream.len(),
            self@.phase is Buffering ==> head@.len() == 0,
            self@.phase is Spilling ==> head@ == first_bytes(self@.stream),
    {
        &self.head
    }

    /// The ring over the end of the stream: empty while buffering, bounded always.
    pub fn tail(&self) -> (tail: &Vec<u8>)
        requires
            self.wf(),
        ensures
            tail@ == self@.ring,
            tail@.len() <= TAIL_RING_MAX,
            self@.phase is Buffering ==> tail@.len() == 0,
            self@.phase is Spilling ==> ring::ring_covers(tail@, self@.stream),
    {
        &self.tail
    }

    /// Take one chunk of raw child bytes.
    pub fn feed(&mut self, chunk: &[u8]) -> (step: Result<FeedStep, SpillError>)
        requires
            old(self).wf(),
            old(self)@.stream.len() + chunk.len() <= usize::MAX,
        ensures
            final(self).wf(),
            (final(self)@, step) == fed(old(self)@, chunk@),
            chunk@.len() == 0 ==> *final(self) == *old(self),
            final(self)@.slug == old(self)@.slug,
            final(self)@.dir == old(self)@.dir,
            final(self)@.threshold_tokens == old(self)@.threshold_tokens,
            final(self)@.enabled == old(self)@.enabled,
            final(self)@.stream == old(self)@.stream + chunk@,
            final(self)@.phase == old(self)@.phase,
            ({
                let size = old(self)@.stream.len() + chunk@.len();
                let asks = chunk@.len() > 0 && old(self)@.phase is Buffering
                    && old(self)@.enabled && !old(self)@.binary && (size + 3) / 4
                    >= old(self)@.threshold_tokens;
                let stream = final(self)@.stream;
                &&& step is Err <==> asks && old(self)@.dir is None
                &&& step == Ok::<FeedStep, SpillError>(FeedStep::Open) <==> asks
                    && old(self)@.dir is Some
                &&& step == Ok::<FeedStep, SpillError>(FeedStep::Append) <==> chunk@.len() > 0
                    && old(self)@.phase is Spilling
                &&& asks ==> final(self)@.binary == (!valid_utf8(stream) || stream.contains(0))
                &&& !asks ==> final(self)@.binary == old(self)@.binary
            }),
            old(self)@.phase is Buffering ==> final(self)@.ring == old(self)@.ring,
            old(self)@.phase is Spilling ==> {
                let all = old(self)@.ring + chunk@;
                let kept = final(self)@.ring;
                &&& kept == ring::trimmed(all)
                &&& all.len() <= 16_000 ==> kept == all
                &&& kept.len() <= 16_000
                &&& kept.len() <= all.len()
                &&& kept == all.skip(all.len() - kept.len())
            },
    {
        if chunk.is_empty() {
            assert(old(self)@.ring + chunk@ =~= old(self)@.ring);
            assert(old(self)@.ring.skip(0) =~= old(self)@.ring);
            assert(old(self)@.stream + chunk@ =~= old(self)@.stream);
            return Ok(FeedStep::Hold);
        }
        let ghost before = self.stream@;
        let ghost after = before + chunk@;
        proof {
            bytes::lemma_count_add(before, chunk@);
            bytes::lemma_count_bound(after);
        }
        self.raw_bytes = self.raw_bytes + chunk.len();
        self.newlines = self.newlines + bytes::newline_count(chunk);
        self.last_byte = Some(chunk[chunk.len() - 1]);
        self.stream = Ghost(after);
        match &mut self.state {
            State::Buffering(buf) => {
                bytes::append_bytes(buf, chunk);
                if self.enabled && !self.binary && tokens::estimate_tokens_len(self.raw_bytes)
                    >= self.threshold_tokens {
                    self.binary = payload_is_binary(buf.as_slice());
                    match &self.dir {
                        Some(_) => Ok(FeedStep::Open),
                        None => Err(SpillError::NoFoldDirectory),
                    }
                } else {
                    Ok(FeedStep::Hold)
                }
            },
            State::Spilling => {
                proof {
                    ring::lemma_append_covers(self.tail@, before, chunk@);
                    ring::lemma_trim_covers(self.tail@ + chunk@, after);
                    ring::law_trim_bounds_the_ring(self.tail@ + chunk@);
                }
                if self.head.len() < SLICE_MAX_BYTES {
                    let room: usize = SLICE_MAX_BYTES - self.head.len();
                    let more: usize = if chunk.len() < room {
                        chunk.len()
                    } else {
                        room
                    };
                    bytes::append_bytes(
                        &mut self.head,
                        vstd::slice::slice_subrange(chunk, 0, more),
                    );
                }
                assert(self.head@ =~= first_bytes(after));
                bytes::append_bytes(&mut self.tail, chunk);
                ring::trim_tail(&mut self.tail);
                self.scan.see(chunk, Ghost(before));
                Ok(FeedStep::Append)
            },
        }
    }

    /// Cross into the spilling state with the fold file open at `path`, and hand out
    /// the buffered prefix, which the driver writes to it.
    pub fn spill(&mut self, path: Vec<u8>) -> (prefix: Vec<u8>)
        requires
            old(self).wf(),
        ensures
            final(self).wf(),
            final(self)@ == spilled(old(self)@, path@),
            old(self)@.phase is Buffering ==> {
                &&& prefix@ == old(self)@.stream
                &&& final(self).kept_head() == first_bytes(old(self)@.stream)
                &&& final(self)@.phase == (Phase::Spilling { path: path@ })
                &&& final(self)@.ring == old(self)@.stream.skip(
                    old(self)@.stream.len() - final(self)@.ring.len(),
                )
                &&& final(self)@.ring.len() == if old(self)@.stream.len() > 16_000 {
                    16_000
                } else {
                    old(self)@.stream.len()
                }
                &&& final(self).kept_head() == old(self)@.stream.take(
                    if old(self)@.stream.len() > 8_000 {
                        8_000
                    } else {
                        old(self)@.stream.len() as int
                    },
                )
            },
            final(self)@.stream == old(self)@.stream,
            final(self)@.binary == old(self)@.binary,
            final(self)@.slug == old(self)@.slug,
            final(self)@.dir == old(self)@.dir,
            final(self)@.threshold_tokens == old(self)@.threshold_tokens,
            final(self)@.enabled == old(self)@.enabled,
            old(self)@.phase is Spilling ==> prefix@.len() == 0 && *final(self) == *old(self),
    {
        let mut state = State::Spilling;
        std::mem::swap(&mut self.state, &mut state);
        match state {
            State::Spilling => Vec::new(),
            State::Buffering(buf) => {
                let len: usize = buf.len();
                let head_len: usize = if len > SLICE_MAX_BYTES {
                    SLICE_MAX_BYTES
                } else {
                    len
                };
                let ring_from: usize = if len > TAIL_RING_MAX {
                    len - TAIL_RING_MAX
                } else {
                    0
                };
                self.head = bytes::copy_bytes(
                    vstd::slice::slice_subrange(buf.as_slice(), 0, head_len),
                );
                self.tail = bytes::copy_bytes(
                    vstd::slice::slice_subrange(buf.as_slice(), ring_from, len),
                );
                proof {
                    ring::lemma_suffix_covers(buf@, len - ring_from);
                    assert(self.tail@ =~= buf@.skip(len - (len - ring_from)));
                    assert(self.tail@ =~= last_bytes(buf@));
                    assert(self.head@ =~= first_bytes(buf@));
                    assert(Seq::<u8>::empty() + buf@ =~= buf@);
                }
                ring::trim_tail(&mut self.tail);
                self.scan.see(buf.as_slice(), Ghost(Seq::empty()));
                self.path = Some(path);
                buf
            },
        }
    }

    /// Decide what to do about one read on the child's pipe.
    pub fn pump(&mut self, event: ReadEvent<'_>) -> (step: PumpStep)
        requires
            old(self).wf(),
            event matches ReadEvent::Bytes(chunk) ==> old(self)@.stream.len() + chunk.len()
                <= usize::MAX,
        ensures
            final(self).wf(),
            match event {
                ReadEvent::Bytes(chunk) => if chunk@.len() == 0 {
                    step == PumpStep::Finish && *final(self) == *old(self)
                } else {
                    &&& final(self)@ == fed(old(self)@, chunk@).0
                    &&& step == match fed(old(self)@, chunk@).1 {
                        Ok(owed) => PumpStep::Fed(owed),
                        Err(refusal) => PumpStep::Refused(refusal),
                    }
                },
                ReadEvent::Interrupted => step == PumpStep::Retry && *final(self) == *old(self),
                ReadEvent::Failed => step == PumpStep::ReadFailed && *final(self) == *old(self),
            },
    {
        match event {
            ReadEvent::Bytes(chunk) => {
                if chunk.is_empty() {
                    return PumpStep::Finish;
                }
                match self.feed(chunk) {
                    Ok(owed) => PumpStep::Fed(owed),
                    Err(refusal) => PumpStep::Refused(refusal),
                }
            },
            ReadEvent::Interrupted => PumpStep::Retry,
            ReadEvent::Failed => PumpStep::ReadFailed,
        }
    }

    /// Hand over what the stream came to.
    pub fn finish(self) -> (capture: StreamCapture)
        requires
            self.wf(),
        ensures
            capture@ == captured(self@),
            match self@.phase {
                Phase::Buffering => capture matches StreamCapture::Passthrough(held) && held@
                    == self@.stream,
                Phase::Spilling { path } => {
                    let text = valid_utf8(self@.stream) && !self@.stream.contains(0);
                    &&& text <==> capture is Folded
                    &&& !text <==> capture is BinaryPassthrough
                    &&& capture matches StreamCapture::Folded(fold) ==> fold.path@ == path
                        && fold.raw_bytes == self@.stream.len()
                    &&& capture matches StreamCapture::BinaryPassthrough(fold) ==> fold.path@
                        == path && fold.raw_bytes == self@.stream.len()
                },
            },
    {
        let ghost stream = self.stream@;
        proof {
            summary::lemma_lines_bound(stream);
        }
        match self.state {
            State::Buffering(buf) => StreamCapture::Passthrough(buf),
            State::Spilling => {
                let total: usize = summary::total_lines_from(self.newlines, self.last_byte);
                let path: Vec<u8> = self.path.unwrap();
                let fold = Fold::from_regions(
                    self.head.as_slice(),
                    self.tail.as_slice(),
                    total,
                    self.raw_bytes,
                    path,
                );
                proof {
                    let lines = summary::tail_line_budget(
                        summary::lines_in(stream),
                        summary::head_line_count(stream, stream.len()),
                    );
                    laws::law_prefix_shows_what_the_stream_shows(
                        stream,
                        self.head@.len() as int,
                    );
                    assert(self.head@ =~= stream.take(self.head@.len() as int));
                    ring::law_ring_shows_what_the_stream_shows(self.tail@, stream, lines);
                }
                if self.scan.is_text(Ghost(stream)) {
                    StreamCapture::Folded(fold)
                } else {
                    StreamCapture::BinaryPassthrough(fold)
                }
            },
        }
    }
}

/// Memory stops growing at the threshold: before it a sink holds the stream, and behind
/// it never more than one slice, one ring and an unended character.
pub proof fn law_memory_stops_growing(sink: &StreamSink)
    requires
        sink.wf(),
    ensures
        sink.kept_head().len() <= SLICE_MAX_BYTES,
        sink@.ring.len() <= TAIL_RING_MAX,
        sink@.phase is Buffering ==> {
            &&& sink.kept_head().len() == 0
            &&& sink@.ring.len() == 0
            &&& sink.held() == sink@.stream.len()
        },
        sink@.phase is Spilling ==> {
            &&& sink.kept_head() == first_bytes(sink@.stream)
            &&& ring::ends_with(sink@.stream, sink@.ring)
            &&& sink.held() <= SLICE_MAX_BYTES + TAIL_RING_MAX + 3
        },
{
    if sink@.phase is Spilling {
        scan::lemma_remembers_little(&sink.scan, sink.stream@);
    }
}

/// What a sink has counted and remembered is what its stream holds, whatever its chunks
/// were and wherever it stands.
pub proof fn law_counts_are_those_of_the_stream(sink: &StreamSink)
    requires
        sink.wf(),
    ensures
        sink.counted_bytes() == sink@.stream.len(),
        sink.counted_newlines() == bytes::count_newlines(sink@.stream),
        sink.remembered_last() == summary::last_of(sink@.stream),
{
}

} // verus!
