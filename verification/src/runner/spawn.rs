//! One run of a command: its sinks before it starts, and, once both streams have
//! ended, what reaches each destination, what is recorded, and what the caller is
//! told. Standard output and standard error are measured independently.

use vstd::prelude::*;
use vstd::string::*;
use vstd::utf8::*;

use crate::bytes;
use crate::fold::summary;
use crate::fold::{FoldConfig, FoldOutcome, OutcomeView};
use crate::runner::parts;
use crate::runner::parts::{ArgPath, ArgView, Part, PartView};
use crate::runner::paths;
use crate::runner::spill;
use crate::runner::spill::{CaptureView, StreamCapture, StreamSink};
use crate::text;

verus! {

/// Result of running a command under the fold threshold. One stream can fold while the
/// other passes through.
#[derive(Debug)]
pub struct RunOutcome {
    /// Exit code of the child, signal deaths reported as `128 + signal`.
    pub exit_code: i32,
    /// What happened to stdout.
    pub stdout: FoldOutcome,
    /// What happened to stderr.
    pub stderr: FoldOutcome,
}

/// What a [`RunOutcome`] says.
pub struct RunView {
    pub exit_code: int,
    pub stdout: OutcomeView,
    pub stderr: OutcomeView,
}

impl View for RunOutcome {
    type V = RunView;

    open spec fn view(&self) -> RunView {
        RunView {
            exit_code: self.exit_code as int,
            stdout: self.stdout@,
            stderr: self.stderr@,
        }
    }
}

/// How a child ended.
#[derive(Debug, Clone, Copy)]
pub enum ChildEnd {
    /// It exited with this code.
    Exited(i32),
    /// This signal killed it.
    Signaled(u8),
}

/// A command as it is started: the program, its arguments, and the directory it runs
/// in where that is known. They are held as their own bytes where the platform's strings
/// are bytes, and as the bytes of their text elsewhere.
#[derive(Debug)]
pub struct CommandLine {
    pub program: Vec<u8>,
    pub args: Vec<Vec<u8>>,
    pub cwd: Option<Vec<u8>>,
    /// The paths of the run as the platform takes them apart, where that is not at
    /// slashes alone.
    pub native: Option<RunPaths>,
}

/// The paths of a run, taken apart.
#[derive(Debug)]
pub struct RunPaths {
    /// The components of the program.
    pub program: Vec<Part>,
    /// Every argument, taken as a path.
    pub args: Vec<ArgPath>,
    /// The components of the fold directory, where there is one.
    pub fold_dir: Vec<Part>,
}

/// What [`RunPaths`] say.
pub struct RunPathsView {
    pub program: Seq<PartView>,
    pub args: Seq<ArgView>,
    pub fold_dir: Seq<PartView>,
}

impl View for RunPaths {
    type V = RunPathsView;

    open spec fn view(&self) -> RunPathsView {
        RunPathsView {
            program: parts::part_views(self.program@),
            args: parts::arg_views(self.args@),
            fold_dir: parts::part_views(self.fold_dir@),
        }
    }
}

/// What a [`CommandLine`] says.
pub struct CommandView {
    pub program: Seq<u8>,
    pub args: Seq<Seq<u8>>,
    pub cwd: Option<Seq<u8>>,
    pub native: Option<RunPathsView>,
}

impl View for CommandLine {
    type V = CommandView;

    open spec fn view(&self) -> CommandView {
        CommandView {
            program: self.program@,
            args: paths::contents(self.args@),
            cwd: paths::owned(self.cwd),
            native: match self.native {
                Some(run) => Some(run@),
                None => None,
            },
        }
    }
}

/// One tracking row: what an invocation was and what became of its output.
#[derive(Debug)]
pub struct InvocationRecord {
    pub ts_ms: u128,
    pub program: String,
    pub args: String,
    pub cwd: Option<String>,
    pub exit_code: i32,
    pub exec_time_ms: u128,
    pub stdout_raw_bytes: Option<usize>,
    pub stdout_kept_bytes: Option<usize>,
    pub stdout_folded: bool,
    pub stdout_path: Option<String>,
    pub stderr_raw_bytes: Option<usize>,
    pub stderr_kept_bytes: Option<usize>,
    pub stderr_folded: bool,
    pub stderr_path: Option<String>,
    pub reads_fold: bool,
    pub captured: bool,
}

/// What a row says of one stream.
pub struct StreamRow {
    pub raw_bytes: Option<nat>,
    pub kept_bytes: Option<nat>,
    pub folded: bool,
    pub path: Option<Seq<char>>,
}

/// What an [`InvocationRecord`] says.
pub struct RecordView {
    pub ts_ms: u128,
    pub program: Seq<char>,
    pub args: Seq<char>,
    pub cwd: Option<Seq<char>>,
    pub exit_code: int,
    pub exec_time_ms: u128,
    pub stdout: StreamRow,
    pub stderr: StreamRow,
    pub reads_fold: bool,
    pub captured: bool,
}

/// The characters of an optional string.
pub open spec fn optional_text(text: Option<String>) -> Option<Seq<char>> {
    match text {
        Some(t) => Some(t@),
        None => None,
    }
}

/// The value of an optional count.
pub open spec fn optional_count(count: Option<usize>) -> Option<nat> {
    match count {
        Some(n) => Some(n as nat),
        None => None,
    }
}

impl View for InvocationRecord {
    type V = RecordView;

    open spec fn view(&self) -> RecordView {
        RecordView {
            ts_ms: self.ts_ms,
            program: self.program@,
            args: self.args@,
            cwd: optional_text(self.cwd),
            exit_code: self.exit_code as int,
            exec_time_ms: self.exec_time_ms,
            stdout: StreamRow {
                raw_bytes: optional_count(self.stdout_raw_bytes),
                kept_bytes: optional_count(self.stdout_kept_bytes),
                folded: self.stdout_folded,
                path: optional_text(self.stdout_path),
            },
            stderr: StreamRow {
                raw_bytes: optional_count(self.stderr_raw_bytes),
                kept_bytes: optional_count(self.stderr_kept_bytes),
                folded: self.stderr_folded,
                path: optional_text(self.stderr_path),
            },
            reads_fold: self.reads_fold,
            captured: self.captured,
        }
    }
}

/// What goes to a destination.
#[derive(Debug)]
pub enum Emission {
    /// These bytes.
    Bytes(Vec<u8>),
    /// The contents of the file at this path, copied unchanged.
    File(Vec<u8>),
}

/// What an [`Emission`] says.
pub enum EmissionView {
    Bytes(Seq<u8>),
    File(Seq<u8>),
}

impl View for Emission {
    type V = EmissionView;

    open spec fn view(&self) -> EmissionView {
        match self {
            Emission::Bytes(b) => EmissionView::Bytes(b@),
            Emission::File(path) => EmissionView::File(path@),
        }
    }
}

/// Everything that follows from a run whose streams have ended.
#[derive(Debug)]
pub struct Completion {
    /// How many fold files rotation is to leave, where it is to run at all.
    pub rotate: Option<usize>,
    /// The tracking row.
    pub record: InvocationRecord,
    /// What goes to the caller's standard output.
    pub stdout: Emission,
    /// What goes to the caller's standard error.
    pub stderr: Emission,
    /// What the caller is told.
    pub outcome: RunOutcome,
}

/// What a [`Completion`] says.
pub struct CompletionView {
    pub rotate: Option<nat>,
    pub record: RecordView,
    pub stdout: EmissionView,
    pub stderr: EmissionView,
    pub outcome: RunView,
}

impl View for Completion {
    type V = CompletionView;

    open spec fn view(&self) -> CompletionView {
        CompletionView {
            rotate: optional_count(self.rotate),
            record: self.record@,
            stdout: self.stdout@,
            stderr: self.stderr@,
            outcome: self.outcome@,
        }
    }
}

/// The text of an optional byte string.
pub open spec fn optional_text_of(bytes: Option<Seq<u8>>) -> Option<Seq<char>> {
    match bytes {
        Some(b) => Some(text::text_of(b)),
        None => None,
    }
}

/// `words` with a space between each two.
pub open spec fn spaced(words: Seq<Seq<char>>) -> Seq<char>
    decreases words.len(),
{
    if words.len() == 0 {
        Seq::empty()
    } else if words.len() == 1 {
        words[0]
    } else {
        spaced(words.drop_last()) + " "@ + words.last()
    }
}

/// The arguments of a command as text.
pub open spec fn arg_texts(args: Seq<Seq<u8>>) -> Seq<Seq<char>> {
    Seq::new(args.len(), |i: int| text::text_of(args[i]))
}

/// The name that fold files of a command carry: the last name in its program path.
pub open spec fn slug_of(cmd: CommandView) -> Seq<char> {
    match cmd.native {
        Some(run) => parts::name_shown(run.program),
        None => paths::basename_of(cmd.program),
    }
}

/// Whether an argument, as text, leads inside `fold_dir`, where paths are parted at
/// slashes alone.
pub open spec fn text_reads_fold(cmd: CommandView, fold_dir: Seq<u8>) -> bool {
    exists|i: int|
        0 <= i < cmd.args.len() && paths::reads_fold_dir(
            encode_utf8(text::text_of(#[trigger] cmd.args[i])),
            fold_dir,
            cmd.cwd,
        )
}

/// Whether a command names a path inside `fold_dir`.
pub open spec fn command_reads_fold(cmd: CommandView, fold_dir: Option<Seq<u8>>) -> bool {
    match (fold_dir, cmd.native) {
        (None, _) => false,
        (Some(_), Some(run)) => parts::any_leads_inside(run.args, run.fold_dir),
        (Some(dir), None) => text_reads_fold(cmd, dir),
    }
}

/// What a row says of a stream that came to `capture`.
pub open spec fn row_of(capture: CaptureView) -> StreamRow {
    StreamRow {
        raw_bytes: Some(capture.raw_bytes()),
        kept_bytes: Some(capture.kept_bytes()),
        folded: capture is Folded,
        path: optional_text_of(capture.fold_path()),
    }
}

/// The row of a run.
pub open spec fn record_of(
    cmd: CommandView,
    fold_dir: Option<Seq<u8>>,
    ts_ms: u128,
    exit_code: int,
    exec_time_ms: u128,
    out: CaptureView,
    err: CaptureView,
) -> RecordView {
    RecordView {
        ts_ms,
        program: text::text_of(cmd.program),
        args: spaced(arg_texts(cmd.args)),
        cwd: optional_text_of(cmd.cwd),
        exit_code,
        exec_time_ms,
        stdout: row_of(out),
        stderr: row_of(err),
        reads_fold: command_reads_fold(cmd, fold_dir),
        captured: true,
    }
}

/// What goes to the destination of a stream that came to `capture`: its bytes below
/// the threshold, the summary and a line feed for a fold, and the file otherwise.
pub open spec fn emission_of(capture: CaptureView) -> EmissionView {
    match capture {
        CaptureView::Passthrough(held) => EmissionView::Bytes(held),
        CaptureView::Folded(fold) => EmissionView::Bytes(
            encode_utf8(summary::rendered(fold.head, fold.tail, fold.path) + "\n"@),
        ),
        CaptureView::BinaryPassthrough(fold) => EmissionView::File(fold.path),
    }
}

/// What the caller is told of a stream that came to `capture`.
pub open spec fn outcome_of(capture: CaptureView) -> OutcomeView {
    match capture {
        CaptureView::Folded(fold) => OutcomeView::Folded(fold),
        _ => OutcomeView::Passthrough,
    }
}

/// The exit code that a child's end is reported as.
pub open spec fn code_of(end: ChildEnd) -> int {
    match end {
        ChildEnd::Exited(code) => code as int,
        ChildEnd::Signaled(signal) => 128 + signal,
    }
}

/// Everything that follows from a run of `cmd` that ended like this, with streams that
/// came to `out` and `err`. Rotation runs only after a fold and where there is a fold
/// directory.
pub open spec fn completion_of(
    cmd: CommandView,
    fold_dir: Option<Seq<u8>>,
    max_files: usize,
    ts_ms: u128,
    end: ChildEnd,
    exec_time_ms: u128,
    out: CaptureView,
    err: CaptureView,
) -> CompletionView {
    CompletionView {
        rotate: if (out is Folded || err is Folded) && fold_dir is Some {
            Some(max_files as nat)
        } else {
            None
        },
        record: record_of(cmd, fold_dir, ts_ms, code_of(end), exec_time_ms, out, err),
        stdout: emission_of(out),
        stderr: emission_of(err),
        outcome: RunView {
            exit_code: code_of(end),
            stdout: outcome_of(out),
            stderr: outcome_of(err),
        },
    }
}

/// The exit code of a child: its own, or `128 + signal` where a signal killed it.
pub fn exit_code(end: ChildEnd) -> (code: i32)
    ensures
        code == code_of(end),
        end matches ChildEnd::Exited(own) ==> code == own,
        end matches ChildEnd::Signaled(signal) ==> code == 128 + signal,
{
    match end {
        ChildEnd::Exited(code) => code,
        ChildEnd::Signaled(signal) => 128 + signal as i32,
    }
}

/// Fold-file slug from the command's program name.
pub fn program_slug(cmd: &CommandLine) -> (slug: String)
    ensures
        slug@ == slug_of(cmd@),
        match cmd.native {
            Some(run) => slug@ == parts::name_shown(parts::part_views(run.program@)),
            None => slug@ == paths::basename_of(cmd.program@),
        },
{
    match &cmd.native {
        Some(run) => parts::basename_of_parts(&run.program),
        None => paths::basename(cmd.program.as_slice()),
    }
}

fn copy_optional(bytes: &Option<Vec<u8>>) -> (copy: Option<Vec<u8>>)
    ensures
        paths::owned(copy) == paths::owned(*bytes),
{
    match bytes {
        Some(b) => Some(bytes::copy_bytes(b.as_slice())),
        None => None,
    }
}

/// The sinks of a run, for standard output and for standard error. Their slugs end
/// differently, so that both streams can spill in the same second.
pub fn stream_sinks(
    cmd: &CommandLine,
    dir: &Option<Vec<u8>>,
    cfg: &FoldConfig,
) -> (sinks: (StreamSink, StreamSink))
    ensures
        sinks.0.wf(),
        sinks.1.wf(),
        sinks.0@.slug == slug_of(cmd@) + ".out"@,
        sinks.1@.slug == slug_of(cmd@) + ".err"@,
        sinks.0@.threshold_tokens == cfg.threshold_tokens,
        sinks.1@.threshold_tokens == cfg.threshold_tokens,
        sinks.0@.enabled == cfg.enabled,
        sinks.1@.enabled == cfg.enabled,
        sinks.0@.dir == sinks.1@.dir,
        *dir is None ==> sinks.0@.dir is None,
        *dir matches Some(at) ==> sinks.0@.dir == Some(at@),
        sinks.0@.stream.len() == 0 && sinks.1@.stream.len() == 0,
        sinks.0@.phase is Buffering && sinks.1@.phase is Buffering,
        ({
            let slug = slug_of(cmd@);
            let at = paths::owned(*dir);
            let limit = cfg.threshold_tokens as nat;
            &&& sinks.0@ == spill::fresh(slug + ".out"@, at, limit, cfg.enabled)
            &&& sinks.1@ == spill::fresh(slug + ".err"@, at, limit, cfg.enabled)
        }),
{
    let mut out_slug = program_slug(cmd);
    out_slug.append(".out");
    let mut err_slug = program_slug(cmd);
    err_slug.append(".err");
    let out_dir = copy_optional(dir);
    let err_dir = copy_optional(dir);
    (
        StreamSink::new(out_slug, out_dir, cfg.threshold_tokens, cfg.enabled),
        StreamSink::new(err_slug, err_dir, cfg.threshold_tokens, cfg.enabled),
    )
}

/// The arguments of a command as text, and the directory it runs in.
pub fn cmd_args_and_cwd(cmd: &CommandLine) -> (parts: (Vec<String>, Option<Vec<u8>>))
    ensures
        parts.0@.len() == cmd@.args.len(),
        forall|i: int|
            0 <= i < parts.0@.len() ==> (#[trigger] parts.0@[i])@ == text::text_of(cmd@.args[i]),
        paths::owned(parts.1) == cmd@.cwd,
        parts.0@.len() == cmd.args@.len(),
        forall|i: int|
            0 <= i < cmd.args@.len() ==> (#[trigger] parts.0@[i])@ == text::text_of(
                cmd.args@[i]@,
            ),
        parts.1 is Some <==> cmd.cwd is Some,
        cmd.cwd matches Some(dir) ==> parts.1->0@ == dir@,
{
    let mut args: Vec<String> = Vec::new();
    let mut i: usize = 0;
    while i < cmd.args.len()
        invariant
            i <= cmd.args@.len(),
            args@.len() == i,
            forall|k: int|
                0 <= k < i ==> (#[trigger] args@[k])@ == text::text_of(cmd@.args[k]),
        decreases cmd.args@.len() - i,
    {
        args.push(text::to_text(cmd.args[i].as_slice()));
        i = i + 1;
    }
    (args, copy_optional(&cmd.cwd))
}

/// The characters of each of a list of strings.
pub open spec fn texts(words: Seq<String>) -> Seq<Seq<char>> {
    Seq::new(words.len(), |i: int| words[i]@)
}

/// Join `words` with a space between each two.
fn join_words(words: &Vec<String>) -> (text: String)
    ensures
        text@ == spaced(texts(words@)),
{
    let mut text = String::new();
    let mut i: usize = 0;
    proof {
        assert(texts(words@).take(0) =~= Seq::<Seq<char>>::empty());
        assert(text@ =~= spaced(texts(words@).take(0)));
    }
    while i < words.len()
        invariant
            i <= words@.len(),
            text@ == spaced(texts(words@).take(i as int)),
        decreases words@.len() - i,
    {
        let ghost shown = texts(words@).take(i + 1);
        proof {
            assert(shown.drop_last() =~= texts(words@).take(i as int));
        }
        if i > 0 {
            text.append(" ");
        }
        text.append(words[i].as_str());
        assert(text@ =~= spaced(shown));
        i = i + 1;
    }
    assert(texts(words@).take(i as int) =~= texts(words@));
    text
}

fn show_optional(bytes: Option<&Vec<u8>>) -> (text: Option<String>)
    ensures
        optional_text(text) == optional_text_of(
            match bytes {
                Some(b) => Some(b@),
                None => None,
            },
        ),
{
    match bytes {
        Some(b) => Some(text::to_text(b.as_slice())),
        None => None,
    }
}

fn as_optional_slice(bytes: &Option<Vec<u8>>) -> (slice: Option<&[u8]>)
    ensures
        paths::optional(slice) == paths::owned(*bytes),
{
    match bytes {
        Some(b) => Some(b.as_slice()),
        None => None,
    }
}

/// Build the tracking row of an invocation from the command as started and from both
/// captures, which are only read.
pub fn build_record(
    cmd: &CommandLine,
    fold_dir: &Option<Vec<u8>>,
    ts_ms: u128,
    exit_code: i32,
    exec_time_ms: u128,
    out_capture: &StreamCapture,
    err_capture: &StreamCapture,
) -> (record: InvocationRecord)
    ensures
        record@ == record_of(
            cmd@,
            paths::owned(*fold_dir),
            ts_ms,
            exit_code as int,
            exec_time_ms,
            out_capture@,
            err_capture@,
        ),
        record.ts_ms == ts_ms,
        record.exit_code == exit_code,
        record.exec_time_ms == exec_time_ms,
        record.captured,
        record.program@ == text::text_of(cmd.program@),
        record.args@ == spaced(
            Seq::new(cmd.args@.len(), |i: int| text::text_of(cmd.args@[i]@)),
        ),
        record.cwd is Some <==> cmd.cwd is Some,
        cmd.cwd matches Some(dir) ==> (record.cwd matches Some(shown) && shown@
            == text::text_of(dir@)),
        match out_capture {
            StreamCapture::Passthrough(held) => {
                &&& record.stdout_raw_bytes == Some(held.len())
                &&& record.stdout_kept_bytes == Some(held.len())
                &&& !record.stdout_folded
                &&& record.stdout_path is None
            },
            StreamCapture::Folded(fold) => {
                &&& record.stdout_raw_bytes == Some(fold.raw_bytes)
                &&& record.stdout_kept_bytes == Some(fold.kept_bytes)
                &&& record.stdout_folded
                &&& record.stdout_path matches Some(at) && at@ == text::text_of(fold.path@)
            },
            StreamCapture::BinaryPassthrough(fold) => {
                &&& record.stdout_raw_bytes == Some(fold.raw_bytes)
                &&& record.stdout_kept_bytes == Some(fold.raw_bytes)
                &&& !record.stdout_folded
                &&& record.stdout_path matches Some(at) && at@ == text::text_of(fold.path@)
            },
        },
        match err_capture {
            StreamCapture::Passthrough(held) => {
                &&& record.stderr_raw_bytes == Some(held.len())
                &&& record.stderr_kept_bytes == Some(held.len())
                &&& !record.stderr_folded
                &&& record.stderr_path is None
            },
            StreamCapture::Folded(fold) => {
                &&& record.stderr_raw_bytes == Some(fold.raw_bytes)
                &&& record.stderr_kept_bytes == Some(fold.kept_bytes)
                &&& record.stderr_folded
                &&& record.stderr_path matches Some(at) && at@ == text::text_of(fold.path@)
            },
            StreamCapture::BinaryPassthrough(fold) => {
                &&& record.stderr_raw_bytes == Some(fold.raw_bytes)
                &&& record.stderr_kept_bytes == Some(fold.raw_bytes)
                &&& !record.stderr_folded
                &&& record.stderr_path matches Some(at) && at@ == text::text_of(fold.path@)
            },
        },
        *fold_dir is None ==> !record.reads_fold,
        cmd.native matches Some(run) ==> *fold_dir is Some ==> {
            &&& forall|i: int|
                0 <= i < run.args@.len() && parts::arg_leads_inside(
                    (#[trigger] run.args@[i])@,
                    parts::part_views(run.fold_dir@),
                ) ==> record.reads_fold
            &&& record.reads_fold ==> exists|i: int|
                0 <= i < run.args@.len() && parts::arg_leads_inside(
                    (#[trigger] run.args@[i])@,
                    parts::part_views(run.fold_dir@),
                )
        },
        *fold_dir matches Some(dir) ==> cmd.native is None ==> {
            &&& forall|i: int|
                0 <= i < cmd.args@.len() && paths::reads_fold_dir(
                    encode_utf8(text::text_of((#[trigger] cmd.args@[i])@)),
                    dir@,
                    paths::owned(cmd.cwd),
                ) ==> record.reads_fold
            &&& record.reads_fold ==> exists|i: int|
                0 <= i < cmd.args@.len() && paths::reads_fold_dir(
                    encode_utf8(text::text_of((#[trigger] cmd.args@[i])@)),
                    dir@,
                    paths::owned(cmd.cwd),
                )
        },
{
    let program = text::to_text(cmd.program.as_slice());
    let (args, cwd) = cmd_args_and_cwd(cmd);
    let reads_fold = match (fold_dir, &cmd.native) {
        (Some(_), Some(run)) => parts::parts_read_fold_dir(&run.args, &run.fold_dir),
        _ => paths::args_read_fold_dir(
            args.as_slice(),
            as_optional_slice(fold_dir),
            as_optional_slice(&cwd),
        ),
    };
    proof {
        assert(texts(args@) =~= arg_texts(cmd@.args));
        let dir = paths::owned(*fold_dir);
        if cmd@.native is None && reads_fold {
            let i = choose|i: int|
                0 <= i < args@.len() && paths::reads_fold_dir(
                    encode_utf8(#[trigger] args@[i]@),
                    dir->0,
                    cmd@.cwd,
                );
            assert(paths::reads_fold_dir(
                encode_utf8(text::text_of(cmd@.args[i])),
                dir->0,
                cmd@.cwd,
            ));
        }
        if cmd@.native is None && command_reads_fold(cmd@, dir) {
            let i = choose|i: int|
                0 <= i < cmd@.args.len() && paths::reads_fold_dir(
                    encode_utf8(text::text_of(#[trigger] cmd@.args[i])),
                    dir->0,
                    cmd@.cwd,
                );
            assert(paths::reads_fold_dir(encode_utf8(args@[i]@), dir->0, cmd@.cwd));
        }
    }
    proof {
        assert(arg_texts(cmd@.args) =~= Seq::new(
            cmd.args@.len(),
            |i: int| text::text_of(cmd.args@[i]@),
        ));
        if let Some(dir) = paths::owned(*fold_dir) {
            let cwd = paths::owned(cmd.cwd);
            if cmd@.native is None {
                assert forall|i: int|
                    0 <= i < cmd.args@.len() && paths::reads_fold_dir(
                        encode_utf8(text::text_of((#[trigger] cmd.args@[i])@)),
                        dir,
                        cwd,
                    ) implies reads_fold by {
                    assert(cmd@.args[i] == cmd.args@[i]@);
                }
                if reads_fold {
                    let i = choose|i: int|
                        0 <= i < cmd@.args.len() && paths::reads_fold_dir(
                            encode_utf8(text::text_of(#[trigger] cmd@.args[i])),
                            dir,
                            cwd,
                        );
                    assert(cmd@.args[i] == cmd.args@[i]@);
                }
            }
        }
    }
    InvocationRecord {
        ts_ms,
        program,
        args: join_words(&args),
        cwd: show_optional(cwd.as_ref()),
        exit_code,
        exec_time_ms,
        stdout_raw_bytes: Some(out_capture.raw_bytes()),
        stdout_kept_bytes: Some(out_capture.kept_bytes()),
        stdout_folded: out_capture.is_folded(),
        stdout_path: show_optional(out_capture.fold_path()),
        stderr_raw_bytes: Some(err_capture.raw_bytes()),
        stderr_kept_bytes: Some(err_capture.kept_bytes()),
        stderr_folded: err_capture.is_folded(),
        stderr_path: show_optional(err_capture.fold_path()),
        reads_fold,
        captured: true,
    }
}

/// Decide what goes to the destination of one captured stream, and what the caller is
/// told of it. Bytes below the threshold go out raw, and so does what is not text.
pub fn emit(capture: StreamCapture) -> (emitted: (Emission, FoldOutcome))
    ensures
        emitted.0@ == emission_of(capture@),
        emitted.1@ == outcome_of(capture@),
        match capture {
            StreamCapture::Passthrough(held) => {
                &&& emitted.0 == Emission::Bytes(held)
                &&& emitted.1 is Passthrough
            },
            StreamCapture::Folded(fold) => {
                let tail = if fold.tail@.len() == 0 {
                    Seq::empty()
                } else {
                    fold.tail@ + "\n"@
                };
                &&& emitted.1 == FoldOutcome::Folded(fold)
                &&& emitted.0 matches Emission::Bytes(sent) && sent@ == encode_utf8(
                    fold.head@ + "\n"@ + tail + "[full output: "@ + text::text_of(fold.path@)
                        + "]"@ + "\n"@,
                )
            },
            StreamCapture::BinaryPassthrough(fold) => {
                &&& emitted.0 == Emission::File(fold.path)
                &&& emitted.1 is Passthrough
            },
        },
{
    match capture {
        StreamCapture::Passthrough(held) => (Emission::Bytes(held), FoldOutcome::Passthrough),
        StreamCapture::Folded(fold) => {
            let mut rendered = fold.render();
            rendered.append("\n");
            let shown = bytes::copy_bytes(rendered.as_str().as_bytes());
            proof {
                assert(fold.head@ + "\n"@ + Seq::<char>::empty() =~= fold.head@ + "\n"@);
                assert(fold.head@ + "\n"@ + (fold.tail@ + "\n"@) =~= fold.head@ + "\n"@
                    + fold.tail@ + "\n"@);
            }
            (Emission::Bytes(shown), FoldOutcome::Folded(fold))
        },
        StreamCapture::BinaryPassthrough(fold) => {
            (Emission::File(fold.path), FoldOutcome::Passthrough)
        },
    }
}

/// A line feed behind a text takes one byte.
pub proof fn lemma_line_feed_adds_a_byte(shown: Seq<char>)
    ensures
        encode_utf8(shown + "\n"@).len() == encode_utf8(shown).len() + 1,
{
    reveal_strlit("\n");
    text::lemma_encode_add(shown, "\n"@);
    assert("\n"@ =~= seq!['\n']);
    assert(encode_utf8(seq!['\n']).len() == 1) by {
        reveal_with_fuel(encode_utf8, 2);
        assert(seq!['\n'].drop_first() =~= Seq::<char>::empty());
    }
}

/// Work out everything that follows from a run whose streams have ended: whether
/// rotation runs, the row, both emissions, and the outcome. In which order that is
/// carried out, [`run_steps`](crate::runner::steps::run_steps) tells.
pub fn complete_run(
    cmd: &CommandLine,
    fold_dir: &Option<Vec<u8>>,
    cfg: &FoldConfig,
    ts_ms: u128,
    end: ChildEnd,
    exec_time_ms: u128,
    out_capture: StreamCapture,
    err_capture: StreamCapture,
) -> (done: Completion)
    ensures
        done@ == completion_of(
            cmd@,
            paths::owned(*fold_dir),
            cfg.max_files,
            ts_ms,
            end,
            exec_time_ms,
            out_capture@,
            err_capture@,
        ),
        end matches ChildEnd::Exited(own) ==> done.outcome.exit_code == own,
        end matches ChildEnd::Signaled(signal) ==> done.outcome.exit_code == 128 + signal,
        done.record.exit_code == done.outcome.exit_code,
        done.record@ == record_of(
            cmd@,
            paths::owned(*fold_dir),
            ts_ms,
            done.outcome.exit_code as int,
            exec_time_ms,
            out_capture@,
            err_capture@,
        ),
        done.stdout@ == emission_of(out_capture@),
        done.stderr@ == emission_of(err_capture@),
        done.rotate == if *fold_dir is Some && (out_capture is Folded || err_capture is Folded) {
            Some(cfg.max_files)
        } else {
            None
        },
        match out_capture {
            StreamCapture::Passthrough(held) => {
                &&& done.stdout == Emission::Bytes(held)
                &&& done.outcome.stdout is Passthrough
                &&& done.record.stdout_kept_bytes == Some(held.len())
            },
            StreamCapture::Folded(fold) => {
                &&& done.outcome.stdout == FoldOutcome::Folded(fold)
                &&& done.record.stdout_kept_bytes == Some(fold.kept_bytes)
                &&& done.stdout matches Emission::Bytes(sent) && (fold.kept_bytes == encode_utf8(
                    summary::rendered(fold.head@, fold.tail@, fold.path@),
                ).len()
                    ==> sent@.len() == done.record.stdout_kept_bytes->0 + 1)
            },
            StreamCapture::BinaryPassthrough(fold) => {
                &&& done.stdout == Emission::File(fold.path)
                &&& done.outcome.stdout is Passthrough
                &&& done.record.stdout_kept_bytes == done.record.stdout_raw_bytes
            },
        },
        match err_capture {
            StreamCapture::Passthrough(held) => {
                &&& done.stderr == Emission::Bytes(held)
                &&& done.outcome.stderr is Passthrough
                &&& done.record.stderr_kept_bytes == Some(held.len())
            },
            StreamCapture::Folded(fold) => {
                &&& done.outcome.stderr == FoldOutcome::Folded(fold)
                &&& done.record.stderr_kept_bytes == Some(fold.kept_bytes)
                &&& done.stderr matches Emission::Bytes(sent) && (fold.kept_bytes == encode_utf8(
                    summary::rendered(fold.head@, fold.tail@, fold.path@),
                ).len()
                    ==> sent@.len() == done.record.stderr_kept_bytes->0 + 1)
            },
            StreamCapture::BinaryPassthrough(fold) => {
                &&& done.stderr == Emission::File(fold.path)
                &&& done.outcome.stderr is Passthrough
                &&& done.record.stderr_kept_bytes == done.record.stderr_raw_bytes
            },
        },
{
    let code: i32 = exit_code(end);
    let folded = out_capture.is_folded() || err_capture.is_folded();
    let rotate: Option<usize> = if folded && fold_dir.is_some() {
        Some(cfg.max_files)
    } else {
        None
    };
    // The record is built before the captures are consumed.
    let record = build_record(
        cmd,
        fold_dir,
        ts_ms,
        code,
        exec_time_ms,
        &out_capture,
        &err_capture,
    );
    proof {
        if let CaptureView::Folded(fold) = out_capture@ {
            lemma_line_feed_adds_a_byte(summary::rendered(fold.head, fold.tail, fold.path));
        }
        if let CaptureView::Folded(fold) = err_capture@ {
            lemma_line_feed_adds_a_byte(summary::rendered(fold.head, fold.tail, fold.path));
        }
    }
    let (stdout, stdout_outcome) = emit(out_capture);
    let (stderr, stderr_outcome) = emit(err_capture);
    Completion {
        rotate,
        record,
        stdout,
        stderr,
        outcome: RunOutcome { exit_code: code, stdout: stdout_outcome, stderr: stderr_outcome },
    }
}

/// The paths of a run, taken apart at slashes.
pub open spec fn parted_at_slashes(cmd: CommandView, fold_dir: Seq<u8>) -> RunPathsView {
    RunPathsView {
        program: paths::components_of(cmd.program),
        args: Seq::new(
            cmd.args.len(),
            |i: int| paths::arg_of(encode_utf8(text::text_of(cmd.args[i])), cmd.cwd),
        ),
        fold_dir: paths::components_of(fold_dir),
    }
}

/// One rule holds for every platform: a command whose paths come parted at slashes is
/// named, and read for folds, as the same command whose paths the library parts itself.
pub proof fn law_one_rule_for_all_platforms(cmd: CommandView, fold_dir: Seq<u8>)
    requires
        cmd.native is None,
    ensures
        ({
            let parted = CommandView {
                native: Some(parted_at_slashes(cmd, fold_dir)),
                ..cmd
            };
            &&& slug_of(parted) == slug_of(cmd)
            &&& command_reads_fold(parted, Some(fold_dir)) == command_reads_fold(
                cmd,
                Some(fold_dir),
            )
        }),
{
    let run = parted_at_slashes(cmd, fold_dir);
    if text_reads_fold(cmd, fold_dir) {
        let i = choose|i: int|
            0 <= i < cmd.args.len() && paths::reads_fold_dir(
                encode_utf8(text::text_of(#[trigger] cmd.args[i])),
                fold_dir,
                cmd.cwd,
            );
        assert(parts::arg_leads_inside(run.args[i], run.fold_dir));
    }
    if parts::any_leads_inside(run.args, run.fold_dir) {
        let i = choose|i: int|
            0 <= i < run.args.len() && parts::arg_leads_inside(
                #[trigger] run.args[i],
                run.fold_dir,
            );
        assert(paths::reads_fold_dir(
            encode_utf8(text::text_of(cmd.args[i])),
            fold_dir,
            cmd.cwd,
        ));
    }
}

} // verus!
