use ogt::fold::{FoldConfig, FoldOutcome};
use ogt::runner::drain::drain_chunks;
use ogt::runner::parts::{ArgPath, Part};
use ogt::runner::paths::components;
use ogt::runner::spawn::{
    build_record, cmd_args_and_cwd, complete_run, emit, exit_code, program_slug, stream_sinks,
    ChildEnd, CommandLine, Completion, Emission, RunPaths,
};
use ogt::runner::spill::{StreamCapture, READ_CHUNK};
use ogt::runner::steps::{is_owed, run_steps, Destination, Step};

fn cfg(threshold: usize) -> FoldConfig {
    FoldConfig {
        enabled: true,
        threshold_tokens: threshold,
        directory: Some(b"/folds".to_vec()),
        max_files: 20,
    }
}

fn sh(script: &str) -> CommandLine {
    CommandLine {
        program: b"sh".to_vec(),
        args: vec![b"-c".to_vec(), script.as_bytes().to_vec()],
        cwd: Some(b"/work".to_vec()),
        native: None,
    }
}

/// A run whose child has produced `out` and `err`: what follows from it, what both
/// destinations receive, and what both fold files hold.
struct Run {
    done: Completion,
    out: Vec<u8>,
    err: Vec<u8>,
    out_file: Vec<u8>,
    err_file: Vec<u8>,
    err_slug: String,
}

fn receive(emission: &Emission, file: &[u8]) -> Vec<u8> {
    match emission {
        Emission::Bytes(bytes) => bytes.clone(),
        Emission::File(_) => file.to_vec(),
    }
}

fn run_command(cmd: &CommandLine, out: &[u8], err: &[u8], cfg: &FoldConfig, end: ChildEnd) -> Run {
    let dir = cfg.directory.clone();
    let (out_sink, err_sink) = stream_sinks(cmd, &dir, cfg);
    let out_path = format!("/folds/1_{}.log", out_sink.slug());
    let err_slug = err_sink.slug().clone();
    let err_path = format!("/folds/1_{err_slug}.log");
    let cut = |raw: &[u8]| -> Vec<Vec<u8>> { raw.chunks(READ_CHUNK).map(|c| c.to_vec()).collect() };
    let from_out = drain_chunks(out_sink, &cut(out), out_path.into_bytes()).unwrap();
    let from_err = drain_chunks(err_sink, &cut(err), err_path.into_bytes()).unwrap();
    let done = complete_run(cmd, &dir, cfg, 1, end, 5, from_out.capture, from_err.capture);
    Run {
        out: receive(&done.stdout, &from_out.file),
        err: receive(&done.stderr, &from_err.file),
        out_file: from_out.file,
        err_file: from_err.file,
        err_slug,
        done,
    }
}

fn run(out: &[u8], err: &[u8], cfg: &FoldConfig, end: ChildEnd) -> Run {
    run_command(&sh("script"), out, err, cfg, end)
}

const OK: ChildEnd = ChildEnd::Exited(0);

/// 40k numbered lines: ~270 KB, well past the default threshold.
fn big_lines() -> String {
    (1..=40_000).map(|i| format!("line {i}\n")).collect()
}

fn binary_lines() -> Vec<u8> {
    let line = b"\xff\xfe\x80\x01abcdefghijklmnopqrstuvwxyzabcdefghijklmnopqrstuv\n";
    line.iter().copied().cycle().take(line.len() * 4_000).collect()
}

#[test]
fn binary_passthrough_is_byte_for_byte() {
    let run = run(b"\xff\xfe\x80\x01hello", b"", &cfg(25_000), OK);
    assert!(matches!(run.done.outcome.stdout, FoldOutcome::Passthrough));
    assert_eq!(run.out, b"\xff\xfe\x80\x01hello");
    assert!(run.err.is_empty());
}

#[test]
fn folded_run_persists_the_childs_full_output_exactly() {
    let run = run(big_lines().as_bytes(), b"", &cfg(100), OK);
    let FoldOutcome::Folded(fold) = run.done.outcome.stdout else {
        panic!("expected stdout to fold");
    };
    assert_eq!(
        run.out_file,
        big_lines().into_bytes(),
        "persisted bytes must equal the child's full output exactly"
    );
    assert_eq!(fold.total_lines, 40_000);
    assert!(run.out.len() < fold.raw_bytes / 10);
    let printed = String::from_utf8(run.out).unwrap();
    assert!(printed.contains("line 1\n"));
    assert!(printed.contains("line 40000"));
    assert!(printed.contains("[full output: "));
}

#[test]
fn binary_above_the_gate_reaches_the_caller_byte_for_byte() {
    let expected = binary_lines();
    let run = run(&expected, b"", &cfg(100), OK);
    assert!(
        matches!(run.done.outcome.stdout, FoldOutcome::Passthrough),
        "a binary stream must not be reported as folded"
    );
    assert_eq!(
        run.out,
        expected,
        "the caller must receive the child's bytes exactly; a lossy decode \
         would show {} bytes and contain efbfbd",
        run.out.len()
    );
    assert!(
        !run.out.windows(3).any(|w| w == [0xef, 0xbf, 0xbd]),
        "the output contains U+FFFD, so it went through a UTF-8 decode"
    );
    assert!(run.err.is_empty());
}

#[test]
fn text_above_the_gate_still_folds() {
    let run = run(big_lines().as_bytes(), b"", &cfg(100), OK);
    assert!(matches!(run.done.outcome.stdout, FoldOutcome::Folded(_)));
    let printed = String::from_utf8(run.out).unwrap();
    assert!(printed.contains("[full output: "), "got: {printed}");
}

#[test]
fn a_nul_byte_alone_marks_the_stream_binary() {
    let line = b"text\0more text padding padding padding\n";
    let raw: Vec<u8> = line.iter().copied().cycle().take(line.len() * 4_000).collect();
    let run = run(&raw, b"", &cfg(100), OK);
    assert!(
        matches!(run.done.outcome.stdout, FoldOutcome::Passthrough),
        "a stream containing NUL must pass through unfolded"
    );
    assert!(run.out.contains(&0), "the NUL byte must survive");
}

#[test]
fn binary_run_persists_invalid_utf8_exactly_on_disk() {
    let expected = binary_lines();
    let run = run(&expected, b"", &cfg(100), OK);
    assert!(
        matches!(run.done.outcome.stdout, FoldOutcome::Passthrough),
        "invalid UTF-8 above the threshold must not be folded"
    );
    assert_eq!(run.out, expected, "the caller must receive the bytes exactly");
    assert_eq!(
        run.out_file, expected,
        "the spilled file must hold every byte exactly"
    );
    assert!(run.err_file.is_empty());
}

#[test]
fn stdout_folds_while_stderr_passes_through() {
    let run = run(big_lines().as_bytes(), b"oops\n", &cfg(100), OK);
    assert!(matches!(run.done.outcome.stdout, FoldOutcome::Folded(_)));
    assert!(matches!(run.done.outcome.stderr, FoldOutcome::Passthrough));
    assert_eq!(run.err, b"oops\n", "stderr stays untouched");
}

#[test]
fn stderr_folds_while_stdout_passes_through() {
    let run = run(b"tiny\n", big_lines().as_bytes(), &cfg(100), OK);
    assert!(matches!(run.done.outcome.stdout, FoldOutcome::Passthrough));
    assert_eq!(run.out, b"tiny\n");
    assert!(
        matches!(run.done.outcome.stderr, FoldOutcome::Folded(_)),
        "expected stderr to fold"
    );
    assert_eq!(run.err_file, big_lines().into_bytes());
    assert_eq!(
        run.err_slug, "sh.err",
        "stderr fold file must carry the .err suffix"
    );
}

#[test]
fn both_streams_folding_get_separate_files() {
    let run = run(big_lines().as_bytes(), big_lines().as_bytes(), &cfg(100), OK);
    let (FoldOutcome::Folded(o), FoldOutcome::Folded(e)) =
        (run.done.outcome.stdout, run.done.outcome.stderr)
    else {
        panic!("expected both streams to fold");
    };
    assert_ne!(o.path, e.path, "one fold file per stream, never shared");
    assert_eq!(run.out_file, big_lines().into_bytes());
    assert_eq!(run.err_file, big_lines().into_bytes());
}

#[test]
fn exit_code_propagates() {
    let run = run(b"", b"", &cfg(25_000), ChildEnd::Exited(3));
    assert_eq!(run.done.outcome.exit_code, 3);
}

#[test]
fn exit_code_propagates_after_a_fold() {
    let run = run(big_lines().as_bytes(), b"", &cfg(100), ChildEnd::Exited(2));
    assert_eq!(run.done.outcome.exit_code, 2);
    assert!(matches!(run.done.outcome.stdout, FoldOutcome::Folded(_)));
}

#[test]
fn empty_output_prints_nothing() {
    let run = run(b"", b"", &cfg(25_000), OK);
    assert_eq!(run.done.outcome.exit_code, 0);
    assert!(run.out.is_empty(), "no output must mean no bytes written");
    assert!(run.err.is_empty());
    assert!(matches!(run.done.outcome.stdout, FoldOutcome::Passthrough));
    assert!(matches!(run.done.outcome.stderr, FoldOutcome::Passthrough));
    assert!(
        run.out_file.is_empty() && run.done.record.stdout_path.is_none(),
        "an empty run must not create a fold file"
    );
}

#[test]
fn disabled_config_passes_large_output_through_untouched() {
    let disabled = FoldConfig {
        enabled: false,
        ..cfg(100)
    };
    let run = run(big_lines().as_bytes(), b"", &disabled, OK);
    assert!(matches!(run.done.outcome.stdout, FoldOutcome::Passthrough));
    assert_eq!(run.out, big_lines().into_bytes());
}

#[test]
fn interleaved_streams_are_never_merged() {
    let run = run(b"a\nc\n", b"b\nd\n", &cfg(25_000), OK);
    assert_eq!(run.out, b"a\nc\n");
    assert_eq!(run.err, b"b\nd\n");
}

#[test]
fn large_output_survives_a_slow_reader_without_deadlock() {
    let run = run(
        big_lines().as_bytes(),
        big_lines().as_bytes(),
        &cfg(25_000),
        OK,
    );
    assert_eq!(run.done.outcome.exit_code, 0);
}

#[test]
fn program_slug_uses_the_basename() {
    let grep = CommandLine {
        program: b"/usr/bin/grep".to_vec(),
        args: vec![],
        cwd: None,
        native: None,
    };
    let cargo = CommandLine {
        program: b"cargo".to_vec(),
        args: vec![],
        cwd: None,
        native: None,
    };
    assert_eq!(program_slug(&grep), "grep");
    assert_eq!(program_slug(&cargo), "cargo");
}

#[test]
fn tracking_row_records_raw_and_kept_bytes_for_a_fold() {
    let row = run(big_lines().as_bytes(), b"", &cfg(100), OK).done.record;
    assert!(row.stdout_folded);
    assert_eq!(row.stdout_raw_bytes, Some(big_lines().len()));
    assert_eq!(row.stdout_path.as_deref(), Some("/folds/1_sh.out.log"));
    assert_eq!(row.exit_code, 0);
}

#[test]
fn tracking_row_for_passthrough_carries_real_nonzero_bytes() {
    let row = run(b"hello", b"", &cfg(25_000), OK).done.record;
    assert!(!row.stdout_folded);
    assert_eq!(row.stdout_raw_bytes, Some(5));
    assert_eq!(row.stdout_kept_bytes, Some(5));
    assert!(row.stdout_path.is_none());
}

fn cat(path: &[u8]) -> CommandLine {
    CommandLine {
        program: b"cat".to_vec(),
        args: vec![path.to_vec()],
        cwd: Some(b"/work".to_vec()),
        native: None,
    }
}

#[test]
fn reads_fold_true_when_an_arg_resolves_inside_the_fold_dir() {
    let cmd = cat(b"/folds/1_grep.out.log");
    let row = run_command(&cmd, b"leftover fold content\n", b"", &cfg(25_000), OK)
        .done
        .record;
    assert!(row.reads_fold);
}

#[test]
fn reads_fold_false_for_an_unrelated_argument() {
    let cmd = cat(b"/elsewhere.txt");
    let row = run_command(&cmd, b"hi\n", b"", &cfg(25_000), OK).done.record;
    assert!(!row.reads_fold);
}

#[test]
fn a_signal_death_is_reported_past_128() {
    assert_eq!(exit_code(ChildEnd::Signaled(9)), 137);
    assert_eq!(exit_code(ChildEnd::Signaled(15)), 143);
    assert_eq!(exit_code(ChildEnd::Exited(-1)), -1);
}

#[test]
fn rotation_runs_only_after_a_fold() {
    let big = big_lines();
    assert_eq!(run(big.as_bytes(), b"", &cfg(100), OK).done.rotate, Some(20));
    assert_eq!(run(b"", big.as_bytes(), &cfg(100), OK).done.rotate, Some(20));
    assert_eq!(run(b"small", b"", &cfg(100), OK).done.rotate, None);
    assert_eq!(run(&binary_lines(), b"", &cfg(100), OK).done.rotate, None);
}

#[test]
fn rotation_needs_a_directory() {
    let fold = ogt::fold::summary::Fold::from_output(b"x", b"/f".to_vec());
    let done = complete_run(
        &sh("x"),
        &None,
        &cfg(100),
        1,
        OK,
        1,
        StreamCapture::Folded(fold),
        StreamCapture::Passthrough(vec![]),
    );
    assert_eq!(done.rotate, None);
    assert!(!done.record.reads_fold);
}

#[test]
fn the_row_carries_the_command() {
    let cmd = CommandLine {
        program: b"/usr/bin/grep".to_vec(),
        args: vec![b"-n".to_vec(), b"a\xff".to_vec(), b"src".to_vec()],
        cwd: Some(b"/work".to_vec()),
        native: None,
    };
    let (args, cwd) = cmd_args_and_cwd(&cmd);
    assert_eq!(args, ["-n", "a\u{fffd}", "src"]);
    assert_eq!(cwd.as_deref(), Some(&b"/work"[..]));
    let out = StreamCapture::Passthrough(b"ab".to_vec());
    let err = StreamCapture::Passthrough(vec![]);
    let row = build_record(&cmd, &None, 7, 1, 12, &out, &err);
    assert_eq!(row.ts_ms, 7);
    assert_eq!(row.program, "/usr/bin/grep");
    assert_eq!(row.args, "-n a\u{fffd} src");
    assert_eq!(row.cwd.as_deref(), Some("/work"));
    assert_eq!(row.exit_code, 1);
    assert_eq!(row.exec_time_ms, 12);
    assert_eq!(row.stdout_raw_bytes, Some(2));
    assert_eq!(row.stderr_raw_bytes, Some(0));
    assert!(row.captured);
    let bare = CommandLine {
        program: b"ls".to_vec(),
        args: vec![],
        cwd: None,
        native: None,
    };
    let row = build_record(&bare, &None, 0, 0, 0, &out, &err);
    assert_eq!(row.args, "");
    assert!(row.cwd.is_none());
}

#[test]
fn a_binary_row_keeps_every_byte_and_names_its_file() {
    let raw = binary_lines();
    let row = run(&raw, b"", &cfg(100), OK).done.record;
    assert!(!row.stdout_folded);
    assert_eq!(row.stdout_raw_bytes, Some(raw.len()));
    assert_eq!(row.stdout_kept_bytes, Some(raw.len()));
    assert_eq!(row.stdout_path.as_deref(), Some("/folds/1_sh.out.log"));
}

#[test]
fn a_fold_sends_its_summary_and_a_line_feed() {
    let fold = ogt::fold::summary::Fold::from_output(b"one\n", b"/f".to_vec());
    let kept = fold.kept_bytes;
    let (emission, outcome) = emit(StreamCapture::Folded(fold));
    let Emission::Bytes(sent) = emission else {
        panic!("a fold sends bytes");
    };
    assert_eq!(sent, b"one\n[full output: /f]\n");
    assert_eq!(sent.len(), kept + 1);
    assert!(matches!(outcome, FoldOutcome::Folded(_)));
}

#[test]
fn sinks_of_one_run_carry_different_slugs() {
    let (out, err) = stream_sinks(&cat(b"x"), &None, &cfg(100));
    assert_eq!(out.slug(), "cat.out");
    assert_eq!(err.slug(), "cat.err");
    assert!(out.dir().is_none());
}

#[test]
fn both_streams_are_delivered_before_rotation() {
    let tight = FoldConfig {
        max_files: 0,
        ..cfg(100)
    };
    let binary = binary_lines();
    let run = run(&binary, big_lines().as_bytes(), &tight, OK);
    let file = run.out_file;
    let (steps, outcome) = run_steps(run.done);
    assert_eq!(steps.len(), 4);
    assert!(matches!(
        &steps[0],
        Step::Deliver(Destination::Stdout, Emission::File(_))
    ));
    assert!(matches!(
        &steps[1],
        Step::Deliver(Destination::Stderr, Emission::Bytes(_))
    ));
    assert!(matches!(&steps[2], Step::Rotate(0)));
    assert!(matches!(&steps[3], Step::Track(_)));
    assert!(matches!(outcome.stdout, FoldOutcome::Passthrough));
    assert!(matches!(outcome.stderr, FoldOutcome::Folded(_)));

    // Rotation deletes every file; the binary stream has arrived by then.
    let mut disk = Some(file);
    let mut received: Vec<u8> = Vec::new();
    for step in steps {
        match step {
            Step::Deliver(Destination::Stdout, emission) => {
                received = receive(&emission, disk.as_deref().unwrap());
            }
            Step::Rotate(_) => disk = None,
            _ => {}
        }
    }
    assert_eq!(received, binary);
    assert!(disk.is_none());
}

#[test]
fn a_run_without_a_fold_does_not_rotate() {
    let (steps, _) = run_steps(run(b"small", b"", &cfg(100), OK).done);
    assert_eq!(steps.len(), 3);
    assert!(matches!(&steps[2], Step::Track(_)));
}

#[test]
fn after_a_failed_delivery_only_rotation_is_owed() {
    let (steps, _) = run_steps(run(big_lines().as_bytes(), b"", &cfg(100), OK).done);
    let owed: Vec<bool> = steps.iter().map(|s| is_owed(s, true)).collect();
    assert_eq!(owed, [false, false, true, false]);
    assert!(steps.iter().all(|s| is_owed(s, false)));
}

#[test]
fn one_stream_does_not_depend_on_the_other() {
    let big = big_lines();
    let quiet = run(big.as_bytes(), b"", &cfg(100), OK);
    let loud = run(big.as_bytes(), &binary_lines(), &cfg(100), OK);
    assert_eq!(quiet.out, loud.out);
    assert_eq!(quiet.out_file, loud.out_file);
    assert_eq!(quiet.done.record.stdout_kept_bytes, loud.done.record.stdout_kept_bytes);
    assert_eq!(quiet.done.record.stdout_path, loud.done.record.stdout_path);
}

fn drive_path(names: &[&str]) -> Vec<Part> {
    let mut parts = vec![Part::Prefix(b"C:".to_vec()), Part::Root];
    for name in names {
        parts.push(Part::Name(name.as_bytes().to_vec()));
    }
    parts
}

fn drive_command(arg: Vec<Part>) -> CommandLine {
    CommandLine {
        program: b"C:\\bin\\cat.exe".to_vec(),
        args: vec![b"C:\\folds\\1.log".to_vec()],
        cwd: Some(b"C:\\work".to_vec()),
        native: Some(RunPaths {
            program: drive_path(&["bin", "cat.exe"]),
            args: vec![ArgPath {
                absolute: true,
                parts: arg,
                from_cwd: None,
            }],
            fold_dir: drive_path(&["folds"]),
        }),
    }
}

#[test]
fn paths_that_come_as_components_name_and_read_folds() {
    let reading = drive_command(drive_path(&["folds", "1.log"]));
    assert_eq!(program_slug(&reading), "cat.exe");
    let (out, err) = stream_sinks(&reading, &None, &cfg(100));
    assert_eq!(out.slug(), "cat.exe.out");
    assert_eq!(err.slug(), "cat.exe.err");
    let dir = Some(b"C:\\folds".to_vec());
    let none = StreamCapture::Passthrough(vec![]);
    let row = build_record(&reading, &dir, 0, 0, 0, &none, &none);
    assert!(row.reads_fold);
    assert_eq!(row.program, "C:\\bin\\cat.exe");
    assert_eq!(row.args, "C:\\folds\\1.log");
    assert!(!build_record(&reading, &None, 0, 0, 0, &none, &none).reads_fold);
    let other = drive_command(drive_path(&["work", "1.log"]));
    assert!(!build_record(&other, &dir, 0, 0, 0, &none, &none).reads_fold);
}

#[test]
fn one_rule_holds_for_both_forms_of_a_command() {
    let none = StreamCapture::Passthrough(vec![]);
    let dir = Some(b"/folds".to_vec());
    for path in ["/folds/x", "/folds/../x", "x", "../folds/x", "/elsewhere"] {
        let slashes = cat(path.as_bytes());
        let mut parted = cat(path.as_bytes());
        parted.native = Some(RunPaths {
            program: components(b"cat"),
            args: vec![ArgPath {
                absolute: path.starts_with('/'),
                parts: components(path.as_bytes()),
                from_cwd: Some(components(format!("/work/{path}").as_bytes())),
            }],
            fold_dir: components(b"/folds"),
        });
        assert_eq!(program_slug(&slashes), program_slug(&parted));
        assert_eq!(
            build_record(&slashes, &dir, 0, 0, 0, &none, &none).reads_fold,
            build_record(&parted, &dir, 0, 0, 0, &none, &none).reads_fold,
            "{path}"
        );
    }
}
