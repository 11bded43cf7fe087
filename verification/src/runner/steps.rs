//! The last part of a run: what is delivered, rotated and tracked, and in which order.
//!
//! Rotation deletes fold files, and a stream that is not text is delivered from one. So
//! both streams are delivered before rotation runs, however few files it leaves. The row
//! comes last.

use vstd::prelude::*;
use vstd::utf8::*;

use crate::fold::summary;
use crate::fold::OutcomeView;
use crate::runner::laws;
use crate::runner::spawn;
use crate::runner::spawn::{
    ChildEnd, CommandView, Completion, CompletionView, Emission, EmissionView, InvocationRecord,
    RecordView, RunOutcome,
};
use crate::runner::spill;
use crate::runner::spill::{CaptureView, SinkView};

verus! {

/// Where a stream of the run is delivered.
#[derive(Debug, Clone, Copy, PartialEq, Eq, Structural)]
pub enum Destination {
    /// The caller's standard output.
    Stdout,
    /// The caller's standard error.
    Stderr,
}

/// One thing to do at the end of a run.
#[derive(Debug)]
pub enum Step {
    /// Send this to that destination.
    Deliver(Destination, Emission),
    /// Delete the oldest fold files until this many are left.
    Rotate(usize),
    /// Append this row to the tracking file.
    Track(InvocationRecord),
}

/// What a [`Step`] says.
pub enum StepView {
    Deliver(Destination, EmissionView),
    Rotate(nat),
    Track(RecordView),
}

impl View for Step {
    type V = StepView;

    open spec fn view(&self) -> StepView {
        match self {
            Step::Deliver(dest, emission) => StepView::Deliver(*dest, emission@),
            Step::Rotate(max_files) => StepView::Rotate(*max_files as nat),
            Step::Track(record) => StepView::Track(record@),
        }
    }
}

/// What a list of steps says.
pub open spec fn step_views(steps: Seq<Step>) -> Seq<StepView> {
    Seq::new(steps.len(), |i: int| steps[i]@)
}

/// The steps of a run, in order.
pub open spec fn order_of(done: CompletionView) -> Seq<StepView> {
    let delivered = seq![
        StepView::Deliver(Destination::Stdout, done.stdout),
        StepView::Deliver(Destination::Stderr, done.stderr),
    ];
    let rotated = match done.rotate {
        Some(max_files) => delivered.push(StepView::Rotate(max_files)),
        None => delivered,
    };
    rotated.push(StepView::Track(done.record))
}

/// Whether nothing is delivered once rotation has run.
pub open spec fn delivers_before_rotating(steps: Seq<StepView>) -> bool {
    forall|i: int, j: int|
        0 <= i < steps.len() && 0 <= j < steps.len() && (#[trigger] steps[i]) is Deliver && (
        #[trigger] steps[j]) is Rotate ==> i < j
}

/// Whether `step` is still to be done: all of them are until a delivery fails; from then
/// on only rotation is.
pub open spec fn is_owed_after(step: StepView, failed: bool) -> bool {
    !failed || step is Rotate
}

/// Put the steps of a completed run in order, and hand out what the caller is told.
pub fn run_steps(done: Completion) -> (plan: (Vec<Step>, RunOutcome))
    ensures
        step_views(plan.0@) == order_of(done@),
        delivers_before_rotating(step_views(plan.0@)),
        plan.1@ == done@.outcome,
        plan.1 == done.outcome,
        plan.0@.len() == if done.rotate is Some {
            4int
        } else {
            3int
        },
        plan.0@[0] == Step::Deliver(Destination::Stdout, done.stdout),
        plan.0@[1] == Step::Deliver(Destination::Stderr, done.stderr),
        done.rotate matches Some(max_files) ==> plan.0@[2] == Step::Rotate(max_files),
        plan.0@.last() == Step::Track(done.record),
{
    let mut steps: Vec<Step> = Vec::new();
    steps.push(Step::Deliver(Destination::Stdout, done.stdout));
    steps.push(Step::Deliver(Destination::Stderr, done.stderr));
    match done.rotate {
        Some(max_files) => {
            steps.push(Step::Rotate(max_files));
        },
        None => {},
    }
    steps.push(Step::Track(done.record));
    assert(step_views(steps@) =~= order_of(done@));
    (steps, done.outcome)
}

/// Whether `step` is still to be done, given whether a delivery has failed.
pub fn is_owed(step: &Step, failed: bool) -> (yes: bool)
    ensures
        yes == is_owed_after(step@, failed),
        yes <==> !failed || step is Rotate,
{
    match step {
        Step::Rotate(_) => true,
        _ => !failed,
    }
}

/// What the steps of a run act on: the files on disk, what each destination has
/// received, and the rows tracked. `failed` tells whether a file to deliver was missing.
pub struct World {
    pub disk: Map<Seq<u8>, Seq<u8>>,
    pub out: Seq<u8>,
    pub err: Seq<u8>,
    pub rows: Seq<RecordView>,
    pub failed: bool,
}

/// A world in which nothing has been delivered or tracked.
pub open spec fn untouched(disk: Map<Seq<u8>, Seq<u8>>) -> World {
    World { disk, out: Seq::empty(), err: Seq::empty(), rows: Seq::empty(), failed: false }
}

/// The world after one step. `rotation` is what rotation makes of the files on disk, given
/// how many it is to leave.
pub open spec fn performed_one(
    world: World,
    step: StepView,
    rotation: spec_fn(Map<Seq<u8>, Seq<u8>>, nat) -> Map<Seq<u8>, Seq<u8>>,
) -> World {
    if !is_owed_after(step, world.failed) {
        world
    } else {
        match step {
            StepView::Deliver(dest, emission) => {
                if emission matches EmissionView::File(path) && !world.disk.contains_key(path) {
                    World { failed: true, ..world }
                } else {
                    let sent = match emission {
                        EmissionView::Bytes(held) => held,
                        EmissionView::File(path) => world.disk[path],
                    };
                    match dest {
                        Destination::Stdout => World { out: world.out + sent, ..world },
                        Destination::Stderr => World { err: world.err + sent, ..world },
                    }
                }
            },
            StepView::Rotate(max_files) => World {
                disk: rotation(world.disk, max_files),
                ..world
            },
            StepView::Track(record) => World { rows: world.rows.push(record), ..world },
        }
    }
}

/// The world after all of `steps`.
pub open spec fn performed(
    world: World,
    steps: Seq<StepView>,
    rotation: spec_fn(Map<Seq<u8>, Seq<u8>>, nat) -> Map<Seq<u8>, Seq<u8>>,
) -> World
    decreases steps.len(),
{
    if steps.len() == 0 {
        world
    } else {
        performed_one(performed(world, steps.drop_last(), rotation), steps.last(), rotation)
    }
}

/// Whether the file that `capture` is to be delivered from, if any, is on disk.
pub open spec fn is_at_hand(capture: CaptureView, disk: Map<Seq<u8>, Seq<u8>>) -> bool {
    capture matches CaptureView::BinaryPassthrough(fold) ==> disk.contains_key(fold.path)
}

/// What the destination of `capture` is to receive, given the files on disk.
pub open spec fn owed_to_destination(
    capture: CaptureView,
    disk: Map<Seq<u8>, Seq<u8>>,
) -> Seq<u8> {
    match capture {
        CaptureView::Passthrough(held) => held,
        CaptureView::Folded(fold) => encode_utf8(
            summary::rendered(fold.head, fold.tail, fold.path) + "\n"@,
        ),
        CaptureView::BinaryPassthrough(fold) => disk[fold.path],
    }
}

/// Each destination receives what its stream came to, and one row is tracked, whatever
/// rotation does to the files on disk.
pub proof fn law_both_streams_arrive(
    done: CompletionView,
    out: CaptureView,
    err: CaptureView,
    disk: Map<Seq<u8>, Seq<u8>>,
    rotation: spec_fn(Map<Seq<u8>, Seq<u8>>, nat) -> Map<Seq<u8>, Seq<u8>>,
)
    requires
        done.stdout == spawn::emission_of(out),
        done.stderr == spawn::emission_of(err),
        is_at_hand(out, disk),
        is_at_hand(err, disk),
    ensures
        ({
            let end = performed(untouched(disk), order_of(done), rotation);
            &&& !end.failed
            &&& end.out == owed_to_destination(out, disk)
            &&& end.err == owed_to_destination(err, disk)
            &&& end.rows == seq![done.record]
        }),
{
    let world = untouched(disk);
    let steps = order_of(done);
    let none = Seq::<u8>::empty();
    let first = steps.take(1);
    let second = steps.take(2);
    assert(first.drop_last() =~= Seq::<StepView>::empty());
    assert(second.drop_last() =~= first);
    assert(performed(world, first.drop_last(), rotation) == world);
    let after_first = performed(world, first, rotation);
    assert(after_first == performed_one(world, steps[0], rotation));
    assert(none + owed_to_destination(out, disk) =~= owed_to_destination(out, disk));
    let after_second = performed(world, second, rotation);
    assert(after_second == performed_one(after_first, steps[1], rotation));
    assert(none + owed_to_destination(err, disk) =~= owed_to_destination(err, disk));
    if let Some(max_files) = done.rotate {
        let third = steps.take(3);
        assert(third.drop_last() =~= second);
        assert(steps.drop_last() =~= third);
        assert(performed(world, third, rotation) == performed_one(
            after_second,
            steps[2],
            rotation,
        ));
    } else {
        assert(steps.drop_last() =~= second);
    }
    assert(Seq::<RecordView>::empty().push(done.record) =~= seq![done.record]);
}

/// A stream that is not folded reaches its destination byte for byte, below the threshold
/// and above it, text or not, however few files rotation leaves and whatever the other
/// stream holds.
pub proof fn law_unfolded_output_survives_rotation(
    cmd: CommandView,
    fold_dir: Option<Seq<u8>>,
    max_files: usize,
    ts_ms: u128,
    end: ChildEnd,
    exec_time_ms: u128,
    starts: (SinkView, SinkView),
    chunks: (Seq<Seq<u8>>, Seq<Seq<u8>>),
    at: (Seq<u8>, Seq<u8>),
    disk: Map<Seq<u8>, Seq<u8>>,
    rotation: spec_fn(Map<Seq<u8>, Seq<u8>>, nat) -> Map<Seq<u8>, Seq<u8>>,
)
    requires
        laws::ready(starts.0),
        laws::ready(starts.1),
        laws::driven(starts.0, chunks.0, at.0).phase is Spilling ==> disk.contains_pair(
            at.0,
            laws::written(starts.0, chunks.0, at.0),
        ),
        laws::driven(starts.1, chunks.1, at.1).phase is Spilling ==> disk.contains_pair(
            at.1,
            laws::written(starts.1, chunks.1, at.1),
        ),
    ensures
        ({
            let out = spill::captured(laws::driven(starts.0, chunks.0, at.0));
            let err = spill::captured(laws::driven(starts.1, chunks.1, at.1));
            let done = spawn::completion_of(
                cmd,
                fold_dir,
                max_files,
                ts_ms,
                end,
                exec_time_ms,
                out,
                err,
            );
            let world = performed(untouched(disk), order_of(done), rotation);
            &&& !world.failed
            &&& out !is Folded ==> {
                &&& world.out == laws::joined(chunks.0)
                &&& done.outcome.stdout == OutcomeView::Passthrough
            }
            &&& err !is Folded ==> {
                &&& world.err == laws::joined(chunks.1)
                &&& done.outcome.stderr == OutcomeView::Passthrough
            }
        }),
{
    let out = spill::captured(laws::driven(starts.0, chunks.0, at.0));
    let err = spill::captured(laws::driven(starts.1, chunks.1, at.1));
    let done = spawn::completion_of(
        cmd,
        fold_dir,
        max_files,
        ts_ms,
        end,
        exec_time_ms,
        out,
        err,
    );
    laws::lemma_driven(starts.0, chunks.0, at.0);
    laws::lemma_driven(starts.1, chunks.1, at.1);
    law_both_streams_arrive(done, out, err, disk, rotation);
}

/// Once a delivery has failed, nothing more is delivered or tracked, but rotation still
/// runs.
pub proof fn law_failure_leaves_only_rotation(
    world: World,
    step: StepView,
    rotation: spec_fn(Map<Seq<u8>, Seq<u8>>, nat) -> Map<Seq<u8>, Seq<u8>>,
)
    requires
        world.failed,
    ensures
        ({
            let end = performed_one(world, step, rotation);
            &&& end.failed
            &&& end.out == world.out
            &&& end.err == world.err
            &&& end.rows == world.rows
            &&& end.disk == match step {
                StepView::Rotate(max_files) => rotation(world.disk, max_files),
                _ => world.disk,
            }
        }),
{
}

/// The streams of a run do not touch each other: what one sends, what the caller is told
/// of it and what its row says are the same whatever the other came to. So are the exit
/// code and the rest of the row.
pub proof fn law_streams_are_independent(
    cmd: CommandView,
    fold_dir: Option<Seq<u8>>,
    max_files: usize,
    ts_ms: u128,
    end: ChildEnd,
    exec_time_ms: u128,
    stream: CaptureView,
    one: CaptureView,
    other: CaptureView,
)
    ensures
        ({
            let a = spawn::completion_of(
                cmd,
                fold_dir,
                max_files,
                ts_ms,
                end,
                exec_time_ms,
                stream,
                one,
            );
            let b = spawn::completion_of(
                cmd,
                fold_dir,
                max_files,
                ts_ms,
                end,
                exec_time_ms,
                stream,
                other,
            );
            &&& a.stdout == b.stdout
            &&& a.outcome.stdout == b.outcome.stdout
            &&& a.outcome.exit_code == b.outcome.exit_code
            &&& a.record == (RecordView { stderr: a.record.stderr, ..b.record })
        }),
        ({
            let a = spawn::completion_of(
                cmd,
                fold_dir,
                max_files,
                ts_ms,
                end,
                exec_time_ms,
                one,
                stream,
            );
            let b = spawn::completion_of(
                cmd,
                fold_dir,
                max_files,
                ts_ms,
                end,
                exec_time_ms,
                other,
                stream,
            );
            &&& a.stderr == b.stderr
            &&& a.outcome.stderr == b.outcome.stderr
            &&& a.outcome.exit_code == b.outcome.exit_code
            &&& a.record == (RecordView { stdout: a.record.stdout, ..b.record })
        }),
{
}

} // verus!
