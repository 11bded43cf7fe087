//! What holds of every run: the code it reports, the row it leaves, and what it sends.

use vstd::prelude::*;
use vstd::utf8::*;

use crate::fold::summary;
use crate::runner::laws;
use crate::runner::parts;
use crate::runner::paths;
use crate::runner::spawn;
use crate::runner::spawn::{ChildEnd, CommandView, EmissionView};
use crate::runner::spill;
use crate::runner::spill::{CaptureView, SinkView};
use crate::split;
use crate::text;

verus! {

/// A run reports the code that its child exited with, or 128 and the signal that killed it,
/// to the caller and in the row alike.
pub proof fn law_exit_code_is_reported(
    cmd: CommandView,
    fold_dir: Option<Seq<u8>>,
    max_files: usize,
    ts_ms: u128,
    end: ChildEnd,
    exec_time_ms: u128,
    out: CaptureView,
    err: CaptureView,
)
    ensures
        ({
            let done = spawn::completion_of(
                cmd,
                fold_dir,
                max_files,
                ts_ms,
                end,
                exec_time_ms,
                out,
                err,
            );
            &&& end matches ChildEnd::Exited(code) ==> done.outcome.exit_code == code
            &&& end matches ChildEnd::Signaled(signal) ==> done.outcome.exit_code == 128 + signal
            &&& done.record.exit_code == done.outcome.exit_code
        }),
{
}

/// Two ends of a child are told apart by the code, but for an exit code that is itself past
/// 128: no signal is reported as a small exit code.
pub proof fn law_signal_deaths_lie_past_128(code: i32, signal: u8, other: u8)
    ensures
        spawn::code_of(ChildEnd::Signaled(signal)) >= 128,
        code < 128 ==> spawn::code_of(ChildEnd::Exited(code)) != spawn::code_of(
            ChildEnd::Signaled(signal),
        ),
        signal != other ==> spawn::code_of(ChildEnd::Signaled(signal)) != spawn::code_of(
            ChildEnd::Signaled(other),
        ),
{
}

/// The row counts what each stream held and what of it was sent. The summary of a fold is
/// counted without the line feed that is sent behind it; of any other stream every byte
/// counts as sent, and is.
pub proof fn law_row_counts_what_is_sent(
    cmd: CommandView,
    fold_dir: Option<Seq<u8>>,
    max_files: usize,
    ts_ms: u128,
    end: ChildEnd,
    exec_time_ms: u128,
    starts: (SinkView, SinkView),
    chunks: (Seq<Seq<u8>>, Seq<Seq<u8>>),
    at: (Seq<u8>, Seq<u8>),
)
    requires
        laws::ready(starts.0),
        laws::ready(starts.1),
    ensures
        ({
            let out = spill::captured(laws::driven(starts.0, chunks.0, at.0));
            let err = spill::captured(laws::driven(starts.1, chunks.1, at.1));
            let done = spawn::completion_of(
                cmd,
                fold_dir,
                max_files,
                ts_ms,
                end,
                exec_time_ms,
                out,
                err,
            );
            &&& done.record.stdout.raw_bytes == Some(laws::joined(chunks.0).len())
            &&& done.record.stderr.raw_bytes == Some(laws::joined(chunks.1).len())
            &&& done.record.stdout.folded == (done.outcome.stdout is Folded)
            &&& done.record.stderr.folded == (done.outcome.stderr is Folded)
            &&& done.outcome.stdout is Folded ==> (done.stdout matches EmissionView::Bytes(sent)
                && done.record.stdout.kept_bytes == Some((sent.len() - 1) as nat) && sent.len()
                > 0)
            &&& done.outcome.stderr is Folded ==> (done.stderr matches EmissionView::Bytes(sent)
                && done.record.stderr.kept_bytes == Some((sent.len() - 1) as nat) && sent.len()
                > 0)
            &&& done.outcome.stdout is Passthrough ==> {
                &&& done.record.stdout.kept_bytes == Some(laws::joined(chunks.0).len())
                &&& done.stdout == EmissionView::Bytes(laws::joined(chunks.0)) || done.stdout
                    == EmissionView::File(at.0)
            }
            &&& done.outcome.stderr is Passthrough ==> {
                &&& done.record.stderr.kept_bytes == Some(laws::joined(chunks.1).len())
                &&& done.stderr == EmissionView::Bytes(laws::joined(chunks.1)) || done.stderr
                    == EmissionView::File(at.1)
            }
        }),
{
    laws::lemma_driven(starts.0, chunks.0, at.0);
    laws::lemma_driven(starts.1, chunks.1, at.1);
    let out = spill::captured(laws::driven(starts.0, chunks.0, at.0));
    let err = spill::captured(laws::driven(starts.1, chunks.1, at.1));
    if let CaptureView::Folded(fold) = out {
        spawn::lemma_line_feed_adds_a_byte(summary::rendered(fold.head, fold.tail, fold.path));
    }
    if let CaptureView::Folded(fold) = err {
        spawn::lemma_line_feed_adds_a_byte(summary::rendered(fold.head, fold.tail, fold.path));
    }
}

/// The row says that a fold was read back exactly if one of the arguments leads inside the
/// fold directory, whichever that is.
pub proof fn law_no_argument_is_overlooked(
    cmd: CommandView,
    fold_dir: Seq<u8>,
    ts_ms: u128,
    code: int,
    exec_time_ms: u128,
    out: CaptureView,
    err: CaptureView,
)
    ensures
        ({
            let row = spawn::record_of(
                cmd,
                Some(fold_dir),
                ts_ms,
                code,
                exec_time_ms,
                out,
                err,
            );
            &&& cmd.native is None ==> (row.reads_fold <==> exists|i: int|
                0 <= i < cmd.args.len() && paths::reads_fold_dir(
                    encode_utf8(text::text_of(#[trigger] cmd.args[i])),
                    fold_dir,
                    cmd.cwd,
                ))
            &&& cmd.native matches Some(run) ==> (row.reads_fold <==> exists|i: int|
                0 <= i < run.args.len() && parts::arg_leads_inside(
                    #[trigger] run.args[i],
                    run.fold_dir,
                ))
        }),
        !spawn::record_of(cmd, None, ts_ms, code, exec_time_ms, out, err).reads_fold,
{
}

/// Arguments count one by one: a list of them reads a fold back exactly if one of its two
/// parts does, wherever it is parted.
pub proof fn law_arguments_count_one_by_one(
    cmd: CommandView,
    fold_dir: Seq<u8>,
    early: Seq<Seq<u8>>,
    late: Seq<Seq<u8>>,
)
    requires
        cmd.native is None,
    ensures
        spawn::command_reads_fold(CommandView { args: early + late, ..cmd }, Some(fold_dir))
            <==> spawn::command_reads_fold(CommandView { args: early, ..cmd }, Some(fold_dir))
            || spawn::command_reads_fold(CommandView { args: late, ..cmd }, Some(fold_dir)),
        forall|arg: Seq<u8>|
            #![trigger text::text_of(arg)]
            spawn::command_reads_fold(CommandView { args: seq![arg], ..cmd }, Some(fold_dir))
                <==> paths::reads_fold_dir(
                encode_utf8(text::text_of(arg)),
                fold_dir,
                cmd.cwd,
            ),
{
    let whole = CommandView { args: early + late, ..cmd };
    let first = CommandView { args: early, ..cmd };
    let second = CommandView { args: late, ..cmd };
    if spawn::text_reads_fold(whole, fold_dir) {
        let i = choose|i: int|
            0 <= i < whole.args.len() && paths::reads_fold_dir(
                encode_utf8(text::text_of(#[trigger] whole.args[i])),
                fold_dir,
                cmd.cwd,
            );
        if i < early.len() {
            assert(whole.args[i] == first.args[i]);
            assert(spawn::text_reads_fold(first, fold_dir));
        } else {
            assert(whole.args[i] == second.args[i - early.len()]);
            assert(spawn::text_reads_fold(second, fold_dir));
        }
    }
    if spawn::text_reads_fold(first, fold_dir) {
        let i = choose|i: int|
            0 <= i < first.args.len() && paths::reads_fold_dir(
                encode_utf8(text::text_of(#[trigger] first.args[i])),
                fold_dir,
                cmd.cwd,
            );
        assert(whole.args[i] == first.args[i]);
        assert(spawn::text_reads_fold(whole, fold_dir));
    }
    if spawn::text_reads_fold(second, fold_dir) {
        let i = choose|i: int|
            0 <= i < second.args.len() && paths::reads_fold_dir(
                encode_utf8(text::text_of(#[trigger] second.args[i])),
                fold_dir,
                cmd.cwd,
            );
        assert(whole.args[i + early.len()] == second.args[i]);
        assert(spawn::text_reads_fold(whole, fold_dir));
    }
    assert forall|arg: Seq<u8>|
        #![trigger text::text_of(arg)]
        spawn::command_reads_fold(CommandView { args: seq![arg], ..cmd }, Some(fold_dir))
            <==> paths::reads_fold_dir(encode_utf8(text::text_of(arg)), fold_dir, cmd.cwd) by {
        let one = CommandView { args: seq![arg], ..cmd };
        assert(one.args[0] == arg);
    }
}

/// The arguments in a row come apart again at the spaces, where none of them holds one.
pub proof fn law_spaced_words_come_apart(words: Seq<Seq<char>>)
    requires
        words.len() > 0,
        forall|i: int| 0 <= i < words.len() ==> !(#[trigger] words[i]).contains(' '),
    ensures
        split::split(spawn::spaced(words), ' ') == words,
    decreases words.len(),
{
    reveal_strlit(" ");
    let last = words.last();
    assert(last == words[words.len() - 1]);
    split::lemma_split_without_sep(last, ' ');
    if words.len() == 1 {
        assert(words =~= seq![last]);
    } else {
        let rest = words.drop_last();
        assert forall|i: int| 0 <= i < rest.len() implies !(#[trigger] rest[i]).contains(' ') by {
            assert(rest[i] == words[i]);
        }
        law_spaced_words_come_apart(rest);
        split::lemma_split_concat(spawn::spaced(rest), ' ', last);
        assert(spawn::spaced(words) =~= spawn::spaced(rest).push(' ') + last);
        assert(rest + seq![last] =~= words);
    }
}

/// The text of the arguments in a row takes all of their characters, and one between each
/// two.
pub proof fn law_spaced_words_keep_every_character(words: Seq<Seq<char>>, word: Seq<char>)
    ensures
        spawn::spaced(Seq::empty()).len() == 0,
        spawn::spaced(seq![word]) == word,
        words.len() > 0 ==> spawn::spaced(words.push(word)) == spawn::spaced(words).push(' ')
            + word,
{
    reveal_strlit(" ");
    assert(words.push(word).drop_last() =~= words);
    if words.len() > 0 {
        assert(spawn::spaced(words.push(word)) =~= spawn::spaced(words).push(' ') + word);
    }
}

/// Rotation runs after a fold and where there is a fold directory, to the configured number
/// of files, and not otherwise.
pub proof fn law_rotation_follows_a_fold(
    cmd: CommandView,
    fold_dir: Option<Seq<u8>>,
    max_files: usize,
    ts_ms: u128,
    end: ChildEnd,
    exec_time_ms: u128,
    out: CaptureView,
    err: CaptureView,
)
    ensures
        ({
            let done = spawn::completion_of(
                cmd,
                fold_dir,
                max_files,
                ts_ms,
                end,
                exec_time_ms,
                out,
                err,
            );
            let folded = done.outcome.stdout is Folded || done.outcome.stderr is Folded;
            &&& done.rotate is Some <==> folded && fold_dir is Some
            &&& done.rotate matches Some(left) ==> left == max_files
            &&& done.outcome.stdout is Folded <==> out is Folded
            &&& done.outcome.stderr is Folded <==> err is Folded
        }),
{
}

} // verus!
