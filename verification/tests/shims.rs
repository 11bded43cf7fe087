use ogt::init::shims::{is_ogt_shim, render_shim};

#[test]
fn render_shim_carries_marker_and_absolute_ogt_path() {
    let script = render_shim("/abs/path/to/ogt", "grep");
    assert!(script.starts_with("#!/bin/sh\n"));
    assert!(is_ogt_shim(&script));
    assert!(script.contains("exec \"/abs/path/to/ogt\" grep \"$@\""));
    assert!(script.contains("OGT_SHIM_DIR"));
}

#[test]
fn render_shim_is_specific_to_its_program() {
    let grep = render_shim("/abs/ogt", "grep");
    let cat = render_shim("/abs/ogt", "cat");
    assert_ne!(grep, cat);
    assert!(grep.contains(" grep \"$@\""));
    assert!(cat.contains(" cat \"$@\""));
}

#[test]
fn render_shim_normalizes_the_shim_dir_to_the_platform_form() {
    let script = render_shim("/abs/ogt", "grep");
    assert!(
        script.contains("command -v cygpath"),
        "shim must probe for cygpath:\n{script}"
    );
    assert!(
        script.contains("cygpath -w"),
        "shim must normalize OGT_SHIM_DIR to the Windows form:\n{script}"
    );
    assert!(
        script.contains("OGT_SHIM_DIR=\"$(cygpath -w \"${OGT_SHIM_DIR}\")\""),
        "normalization must rewrite OGT_SHIM_DIR in place:\n{script}"
    );
}

#[test]
fn is_ogt_shim_rejects_unmarked_content() {
    assert!(!is_ogt_shim("#!/bin/sh\necho hi\n"));
}

#[test]
fn is_ogt_shim_rejects_a_loose_substring_match() {
    assert!(!is_ogt_shim(
        "#!/bin/sh\necho 'ogt shim v1 mentioned here'\n"
    ));
}

#[test]
fn render_shim_gives_the_whole_script() {
    let expected = "#!/bin/sh\n\
        # ogt shim v1\n\
        OGT_SHIM_DIR=\"$(cd \"$(dirname \"$0\")\" && pwd)\"\n\
        if command -v cygpath >/dev/null 2>&1; then\n\
        OGT_SHIM_DIR=\"$(cygpath -w \"${OGT_SHIM_DIR}\")\"\n\
        fi\n\
        export OGT_SHIM_DIR\n\
        exec \"/opt/ogt\" rg \"$@\"\n";
    assert_eq!(render_shim("/opt/ogt", "rg"), expected);
}

#[test]
fn render_shim_is_specific_to_its_executable() {
    assert_ne!(render_shim("/a/ogt", "grep"), render_shim("/b/ogt", "grep"));
}

#[test]
fn rendered_shims_are_recognised_whatever_the_names() {
    assert!(is_ogt_shim(&render_shim("", "")));
    assert!(is_ogt_shim(&render_shim("/with\nnewline", "odd name")));
    assert!(is_ogt_shim(&render_shim("/caf\u{e9}/ogt", "\u{1f600}")));
}

#[test]
fn marker_line_is_matched_exactly() {
    assert!(is_ogt_shim("# ogt shim v1"));
    assert!(is_ogt_shim("first\n# ogt shim v1\nlast"));
    assert!(is_ogt_shim("first\r\n# ogt shim v1\r\nlast"));
    assert!(!is_ogt_shim("#!/bin/sh\n   # ogt shim v1  \n"));
    assert!(!is_ogt_shim("\t# ogt shim v1\n"));
    assert!(!is_ogt_shim("# ogt shim v1 \n"));
    assert!(!is_ogt_shim("\u{a0}# ogt shim v1\u{3000}\n"));
    assert!(!is_ogt_shim("# ogt shim v1\r\r\n"));
    assert!(!is_ogt_shim("# ogt shim v1\r"));
}

#[test]
fn marker_line_must_stand_alone() {
    assert!(!is_ogt_shim(""));
    assert!(!is_ogt_shim("ogt shim v1\n"));
    assert!(!is_ogt_shim("#ogt shim v1\n"));
    assert!(!is_ogt_shim("# ogt shim v12\n"));
    assert!(!is_ogt_shim("## ogt shim v1\n"));
    assert!(!is_ogt_shim("# ogt shim\nv1\n"));
    assert!(!is_ogt_shim("\u{200b}# ogt shim v1\n"));
}

#[test]
fn recognition_agrees_with_lines() {
    let samples = [
        "",
        "# ogt shim v1",
        "# ogt shim v1\r",
        "# ogt shim v1\r\n",
        "\r# ogt shim v1\n",
        "   # ogt shim v1  \n",
        "a\n# ogt shim v1\nb",
        "a\r# ogt shim v1\nb",
        "a\n# ogt shim v1\r\r\nb",
        "\n\n\n",
        "# ogt  shim v1\n",
        "# ogt shim v1\n# ogt shim v1\n",
        "x # ogt shim v1\n",
    ];
    for text in samples {
        let expected = text.lines().any(|line| line == "# ogt shim v1");
        assert_eq!(is_ogt_shim(text), expected, "{text:?}");
    }
}
