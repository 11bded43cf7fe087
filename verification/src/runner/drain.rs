//! Driving a sink over a stream that is at hand as chunks, with the fold file kept in
//! memory.

use vstd::prelude::*;
use vstd::utf8::*;

use crate::bytes;
use crate::fold::summary;
use crate::fold::tokens;
use crate::runner::laws;
use crate::runner::paths;
use crate::runner::spill;
use crate::runner::spill::{CaptureView, FeedStep, SpillError, StreamCapture, StreamSink};

verus! {

/// What a drained stream left behind.
#[derive(Debug)]
pub struct Drained {
    /// What the stream came to.
    pub capture: StreamCapture,
    /// What was written to the fold file; nothing where none was opened.
    pub file: Vec<u8>,
}

/// Feed every chunk to a sink that has seen nothing, carry out what it asks for with
/// the fold file at `path`, and finish it.
///
/// The lack of a fold directory is an error only if the stream reaches the threshold.
pub fn drain_chunks(sink: StreamSink, chunks: &Vec<Vec<u8>>, path: Vec<u8>) -> (result: Result<
    Drained,
    SpillError,
>)
    requires
        sink.wf(),
        laws::unfed(sink@),
        laws::joined(paths::contents(chunks@)).len() <= usize::MAX,
    ensures
        ({
            let stream = laws::joined(paths::contents(chunks@));
            let crosses = sink@.enabled && stream.len() > 0 && (stream.len() + 3) / 4
                >= sink@.threshold_tokens;
            &&& result is Err <==> sink@.dir is None && crosses
            &&& result matches Err(e) ==> e == SpillError::NoFoldDirectory
            &&& result matches Ok(done) ==> {
                &&& done.capture@ == if !crosses {
                    CaptureView::Passthrough(stream)
                } else if spill::is_text(stream) {
                    CaptureView::Folded(summary::fold_of_stream(stream, path@))
                } else {
                    CaptureView::BinaryPassthrough(summary::fold_of_stream(stream, path@))
                }
                &&& done.capture is Passthrough <==> !crosses
                &&& done.capture is Folded <==> crosses && valid_utf8(stream)
                    && !stream.contains(0)
                &&& done.capture matches StreamCapture::Passthrough(held) ==> held@ == stream
                &&& done.capture@.raw_bytes() == stream.len()
                &&& done.file@ == if crosses {
                    stream
                } else {
                    Seq::empty()
                }
            }
        }),
{
    let ghost start = sink@;
    let ghost all = paths::contents(chunks@);
    let ghost total = laws::joined(all);
    let mut live = sink;
    let mut file: Vec<u8> = Vec::new();
    let mut i: usize = 0;
    proof {
        assert(all.take(0) =~= Seq::<Seq<u8>>::empty());
        assert(file@ =~= laws::written(start, all.take(0), path@));
    }
    while i < chunks.len()
        invariant
            i <= chunks@.len(),
            all == paths::contents(chunks@),
            total == laws::joined(all),
            total.len() <= usize::MAX,
            start == sink@,
            live.wf(),
            live@.dir == start.dir,
            live@.stream == laws::joined(all.take(i as int)),
            laws::unfed(start),
            start.dir is Some ==> {
                &&& live@ == laws::driven(start, all.take(i as int), path@)
                &&& file@ == laws::written(start, all.take(i as int), path@)
            },
            start.dir is None ==> {
                &&& live@.phase is Buffering
                &&& !live@.binary
                &&& live@.threshold_tokens == start.threshold_tokens
                &&& live@.enabled == start.enabled
                &&& live@.stream.len() > 0 ==> !spill::reaches_threshold(start, live@.stream.len())
                &&& file@.len() == 0
            },
        decreases chunks@.len() - i,
    {
        proof {
            assert(all.take(i + 1).drop_last() =~= all.take(i as int));
            assert(all.take(i + 1).last() == chunks@[i as int]@);
            laws::lemma_joined_take(all, i + 1);
            if start.dir is Some {
                laws::lemma_driven(start, all.take(i as int), path@);
            }
        }
        match live.feed(chunks[i].as_slice()) {
            Ok(FeedStep::Hold) => {
                assert(live@.stream =~= laws::joined(all.take(i + 1)));
            },
            Ok(FeedStep::Open) => {
                let prefix = live.spill(bytes::copy_bytes(path.as_slice()));
                bytes::append_bytes(&mut file, prefix.as_slice());
            },
            Ok(FeedStep::Append) => {
                bytes::append_bytes(&mut file, chunks[i].as_slice());
            },
            Err(refusal) => {
                proof {
                    tokens::law_estimate_is_monotone(
                        laws::joined(all.take(i + 1)).len(),
                        total.len(),
                    );
                }
                return Err(refusal);
            },
        }
        i = i + 1;
    }
    proof {
        assert(all.take(i as int) =~= all);
        if start.dir is Some {
            laws::lemma_driven(start, all, path@);
        }
        assert(file@.len() == 0 ==> file@ =~= Seq::<u8>::empty());
    }
    Ok(Drained { capture: live.finish(), file })
}

} // verus!
