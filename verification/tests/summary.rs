use ogt::fold::summary::{
    slice_head, slice_tail, total_lines_from, Fold, HEAD_LINES, SLICE_MAX_BYTES, TAIL_LINES,
};
use ogt::fold::tokens::estimate_tokens_len;
use ogt::text::{cap_back, cap_front, to_text};

#[test]
fn tokens_are_estimated_by_fours() {
    assert_eq!(estimate_tokens_len(0), 0);
    assert_eq!(estimate_tokens_len(1), 1);
    assert_eq!(estimate_tokens_len(4), 1);
    assert_eq!(estimate_tokens_len(5), 2);
    assert_eq!(estimate_tokens_len(100_000), 25_000);
    assert_eq!(estimate_tokens_len(usize::MAX), usize::MAX / 4 + 1);
}

#[test]
fn an_unended_last_line_counts() {
    assert_eq!(total_lines_from(0, None), 0);
    assert_eq!(total_lines_from(0, Some(b'x')), 1);
    assert_eq!(total_lines_from(3, Some(b'\n')), 3);
    assert_eq!(total_lines_from(3, Some(b'x')), 4);
}

#[test]
fn short_output_is_shown_once() {
    let fold = Fold::from_output(b"one\ntwo\n", b"/f".to_vec());
    assert_eq!(fold.head, "one\ntwo");
    assert_eq!(fold.tail, "");
    assert_eq!(fold.total_lines, 2);
    assert_eq!(fold.raw_bytes, 8);
    assert_eq!(fold.render(), "one\ntwo\n[full output: /f]");
    assert_eq!(fold.kept_bytes, fold.render().len());
}

#[test]
fn the_tail_takes_what_the_head_left() {
    let raw: String = (0..60).map(|i| format!("{i}\n")).collect();
    let fold = Fold::from_output(raw.as_bytes(), b"/f".to_vec());
    assert_eq!(fold.head.lines().count(), HEAD_LINES);
    assert_eq!(fold.tail, "50\n51\n52\n53\n54\n55\n56\n57\n58\n59");
    let text = fold.render();
    assert!(text.starts_with("0\n1\n"));
    assert!(text.ends_with("\n59\n[full output: /f]"));
    assert_eq!(fold.kept_bytes, text.len());
}

#[test]
fn long_lines_are_cut_between_characters() {
    // Three-byte characters do not divide the limit.
    let raw: String = "\u{20ac}".repeat(5_000) + "\n" + &"\u{20ac}".repeat(5_000) + "\n";
    let fold = Fold::from_output(raw.as_bytes(), b"/f".to_vec());
    assert_eq!(fold.head, "\u{20ac}".repeat(2_666));
    assert_eq!(fold.tail, "\u{20ac}".repeat(2_666));
    assert!(!fold.render().contains('\u{fffd}'));
}

#[test]
fn summaries_of_invalid_bytes_stay_bounded() {
    let raw = vec![0xffu8; 20_000];
    let fold = Fold::from_output(&raw, b"/f".to_vec());
    assert!(fold.head.len() <= SLICE_MAX_BYTES);
    assert!(fold.head.chars().all(|c| c == '\u{fffd}'));
    assert_eq!(fold.head.len(), 7_998);
    assert_eq!(fold.tail, "");
    let mut two = vec![0xffu8; 20_000];
    two.push(b'\n');
    two.extend_from_slice(&[0xfe; 20_000]);
    let fold = Fold::from_output(&two, b"/f".to_vec());
    assert_eq!(fold.tail.len(), 7_998);
}

#[test]
fn slices_keep_both_limits() {
    let lines: Vec<u8> = (0..200).flat_map(|_| b"ab\n".to_vec()).collect();
    assert_eq!(slice_head(&lines, lines.len()).len(), HEAD_LINES * 3 - 1);
    assert_eq!(slice_tail(&lines, lines.len(), TAIL_LINES).len(), TAIL_LINES * 3 - 1);
    assert_eq!(slice_tail(&lines, lines.len(), 1), b"ab");
    assert!(slice_tail(&lines, lines.len(), 0).is_empty());
    let wide = vec![b'x'; 9_000];
    assert_eq!(slice_head(&wide, wide.len()).len(), SLICE_MAX_BYTES);
    assert_eq!(slice_tail(&wide, wide.len(), 5).len(), SLICE_MAX_BYTES);
}

#[test]
fn decoding_keeps_text_and_replaces_the_rest() {
    assert_eq!(to_text("caf\u{e9}".as_bytes()), "caf\u{e9}");
    assert_eq!(to_text(b"a\xffb"), "a\u{fffd}b");
}

#[test]
fn caps_keep_characters_whole() {
    let text = "a\u{20ac}b".to_string();
    assert_eq!(cap_front(text.clone(), 5), "a\u{20ac}b");
    assert_eq!(cap_front(text.clone(), 4), "a\u{20ac}");
    assert_eq!(cap_front(text.clone(), 3), "a");
    assert_eq!(cap_front(text.clone(), 0), "");
    assert_eq!(cap_back(text.clone(), 4), "\u{20ac}b");
    assert_eq!(cap_back(text.clone(), 3), "b");
    assert_eq!(cap_back(text, 0), "");
}
