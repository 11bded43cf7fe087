use ogt::runner::parts::{
    basename_of_parts, parts_lie_inside, parts_read_fold_dir, resolve, ArgPath, Part,
};
use ogt::runner::paths::{
    arg_reads_fold_dir, args_read_fold_dir, basename, components, path_lies_inside, place,
};
use std::path::{Component, Path, PathBuf};

#[test]
fn basename_strips_leading_path_components() {
    assert_eq!(basename(b"/usr/bin/grep"), "grep");
    assert_eq!(basename(b"rg"), "rg");
}

const SAMPLES: [&str; 27] = [
    "", "/", ".", "..", "./", "/.", "a", "a/", "a/b", "a//b", "a/./b", "./a/b", "/a/b/.", "a/..",
    "../a", "//a", "/a/../b", ".hidden", "...", "/a/bc", "/a/b", "a/b/c", "/..", "./..",
    "../../a", "/a/b/../../..", "a/b/../c",
];

/// The components that `std` finds in `path`.
fn parts(path: &Path) -> Vec<Part> {
    path.components()
        .map(|part| match part {
            Component::Prefix(p) => Part::Prefix(p.as_os_str().as_encoded_bytes().to_vec()),
            Component::RootDir => Part::Root,
            Component::CurDir => Part::Current,
            Component::ParentDir => Part::Parent,
            Component::Normal(n) => Part::Name(n.as_encoded_bytes().to_vec()),
        })
        .collect()
}

fn drive() -> Part {
    Part::Prefix(b"C:".to_vec())
}

fn name(text: &str) -> Part {
    Part::Name(text.as_bytes().to_vec())
}

/// Where `path` leads, by the components that `std` finds in it.
fn expected_place(path: &Path) -> PathBuf {
    let mut at = PathBuf::new();
    for part in path.components() {
        if part != Component::ParentDir {
            at.push(part.as_os_str());
            continue;
        }
        match at.components().next_back() {
            Some(Component::Normal(_)) => {
                at.pop();
            }
            Some(Component::CurDir) => at = PathBuf::from(".."),
            Some(Component::RootDir) => {}
            _ => at.push(".."),
        }
    }
    at
}

#[test]
fn components_agree_with_std() {
    for text in SAMPLES {
        assert_eq!(components(text.as_bytes()), parts(Path::new(text)), "{text:?}");
    }
}

#[test]
fn places_agree_with_std_components() {
    for text in SAMPLES {
        let expected = parts(&expected_place(Path::new(text)));
        assert_eq!(place(text.as_bytes()), expected, "{text:?}");
    }
}

#[test]
fn lying_inside_agrees_with_std() {
    for path in SAMPLES {
        for base in SAMPLES {
            let expected =
                expected_place(Path::new(path)).starts_with(expected_place(Path::new(base)));
            assert_eq!(
                path_lies_inside(path.as_bytes(), base.as_bytes()),
                expected,
                "{path:?} in {base:?}"
            );
        }
    }
}

#[test]
fn a_parent_takes_the_name_before_it_back() {
    assert_eq!(place(b"/a/b/../c"), place(b"/a/c"));
    assert_eq!(place(b"/a/.."), place(b"/"));
    assert_eq!(place(b"/../.."), place(b"/"));
    assert_eq!(place(b"a/../.."), place(b".."));
    assert_eq!(place(b"./.."), place(b".."));
    assert!(place(b"a/..").is_empty());
}

#[test]
fn climbing_out_of_the_fold_directory_reads_nothing_back() {
    let args = vec!["/folds/../etc/passwd".to_string()];
    assert!(!args_read_fold_dir(&args, Some(b"/folds"), Some(b"/")));
    let back = vec!["/folds/../folds/x".to_string()];
    assert!(args_read_fold_dir(&back, Some(b"/folds"), Some(b"/")));
    assert!(arg_reads_fold_dir("../folds/x", b"/folds", Some(b"/work")));
    assert!(!arg_reads_fold_dir("../x", b"/folds", Some(b"/folds")));
    assert!(arg_reads_fold_dir("/f/x", b"/a/../f", None));
    assert!(!path_lies_inside(b"/folds/..", b"/folds"));
}

#[test]
fn basenames_agree_with_std() {
    for text in SAMPLES {
        let expected = Path::new(text)
            .file_name()
            .map(|n| n.to_string_lossy().into_owned())
            .unwrap_or_else(|| "command".to_string());
        assert_eq!(basename(text.as_bytes()), expected, "{text:?}");
    }
}

#[test]
fn basename_decodes_what_is_not_text() {
    assert_eq!(basename(b"/bin/a\xff"), "a\u{fffd}");
}

#[test]
fn a_basename_is_its_own_basename() {
    for text in SAMPLES {
        let name = basename(text.as_bytes());
        assert!(!name.is_empty(), "{text:?}");
        assert!(!name.contains('/'), "{text:?}");
        assert_eq!(basename(name.as_bytes()), name, "{text:?}");
    }
    let shown = basename(b"/bin/\xff..");
    assert_eq!(shown, "\u{fffd}..");
    assert_eq!(basename(shown.as_bytes()), shown);
    for bare in ["", "/", "..", "a/.."] {
        assert_eq!(basename(bare.as_bytes()), "command");
    }
}

#[test]
fn arguments_are_resolved_from_where_the_command_runs() {
    for arg in SAMPLES {
        for dir in ["/a", "/a/b", "a", "/", "", "/x"] {
            for cwd in ["/", "/a", "/a/b/", "a", "", "/x/y"] {
                let resolved = expected_place(&Path::new(cwd).join(arg));
                let expected = resolved.starts_with(dir);
                assert_eq!(
                    arg_reads_fold_dir(arg, dir.as_bytes(), Some(cwd.as_bytes())),
                    expected,
                    "{arg:?} from {cwd:?} in {dir:?}"
                );
            }
            let without =
                Path::new(arg).is_absolute() && expected_place(Path::new(arg)).starts_with(dir);
            assert_eq!(arg_reads_fold_dir(arg, dir.as_bytes(), None), without);
        }
    }
}

#[test]
fn full_paths_into_the_fold_directory_are_seen_from_anywhere() {
    assert!(arg_reads_fold_dir("/data/folds/1_grep.log", b"/data/folds", None));
    assert!(arg_reads_fold_dir("/data/folds/1_grep.log", b"/data/folds/", Some(b"/tmp")));
    assert!(!arg_reads_fold_dir("/data/folds2/1_grep.log", b"/data/folds", None));
}

#[test]
fn relative_paths_need_a_directory() {
    assert!(arg_reads_fold_dir("1_grep.log", b"/data/folds", Some(b"/data/folds")));
    assert!(arg_reads_fold_dir("folds/x", b"/data/folds", Some(b"/data")));
    assert!(!arg_reads_fold_dir("1_grep.log", b"/data/folds", Some(b"/data")));
    assert!(!arg_reads_fold_dir("1_grep.log", b"/data/folds", None));
}

#[test]
fn any_argument_counts_and_no_directory_means_none() {
    let args = vec!["-n".to_string(), "/f/x".to_string()];
    assert!(args_read_fold_dir(&args, Some(b"/f"), None));
    assert!(!args_read_fold_dir(&args, Some(b"/g"), Some(b"/")));
    assert!(!args_read_fold_dir(&args, None, Some(b"/f")));
    assert!(!args_read_fold_dir(&[], Some(b"/f"), Some(b"/f")));
}

#[test]
fn drives_are_kept_apart_and_never_climbed_out_of() {
    let up = vec![drive(), Part::Root, name("a"), Part::Parent, Part::Parent];
    assert_eq!(resolve(&up), [drive(), Part::Root]);
    // Relative to wherever the drive stands, there is nothing to take back.
    let relative = vec![drive(), Part::Parent, name("x")];
    assert_eq!(resolve(&relative), relative);
    let folds = vec![drive(), Part::Root, name("folds")];
    let file = vec![drive(), Part::Root, name("folds"), name("1.log")];
    let out = vec![drive(), Part::Root, name("folds"), Part::Parent, name("etc")];
    let elsewhere = vec![Part::Prefix(b"D:".to_vec()), Part::Root, name("folds")];
    assert!(parts_lie_inside(&file, &folds));
    assert!(parts_lie_inside(&folds, &folds));
    assert!(!parts_lie_inside(&out, &folds));
    assert!(!parts_lie_inside(&elsewhere, &folds));
    assert!(!parts_lie_inside(&folds, &file));
}

#[test]
fn arguments_that_come_as_components_are_read_for_folds() {
    let folds = vec![drive(), Part::Root, name("folds")];
    let file = || vec![drive(), Part::Root, name("folds"), name("1.log")];
    let plain = ArgPath {
        absolute: false,
        parts: vec![name("-n")],
        from_cwd: Some(vec![drive(), Part::Root, name("work"), name("-n")]),
    };
    let absolute = ArgPath {
        absolute: true,
        parts: file(),
        from_cwd: None,
    };
    let relative = ArgPath {
        absolute: false,
        parts: vec![name("1.log")],
        from_cwd: Some(file()),
    };
    let lost = ArgPath {
        absolute: false,
        parts: file(),
        from_cwd: None,
    };
    assert!(!parts_read_fold_dir(&vec![], &folds));
    let mut args = vec![plain];
    assert!(!parts_read_fold_dir(&args, &folds));
    args.push(lost);
    assert!(!parts_read_fold_dir(&args, &folds));
    args.push(relative);
    assert!(parts_read_fold_dir(&args, &folds));
    assert!(parts_read_fold_dir(&vec![absolute], &folds));
}

#[test]
fn basenames_of_components_are_their_last_name() {
    assert_eq!(basename_of_parts(&vec![drive(), Part::Root, name("rg.exe")]), "rg.exe");
    assert_eq!(basename_of_parts(&vec![drive(), Part::Root]), "command");
    assert_eq!(basename_of_parts(&vec![name("a"), Part::Parent]), "command");
    assert_eq!(basename_of_parts(&vec![Part::Current]), "command");
    assert_eq!(basename_of_parts(&vec![]), "command");
    assert_eq!(basename_of_parts(&vec![Part::Name(b"a\xff".to_vec())]), "a\u{fffd}");
}
