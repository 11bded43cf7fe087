//! Text of PATH shims: the shim script, and the marker by which a generated shim is
//! recognised. Nothing here touches the file system.
//!
//! Every shim names the executable by its absolute path, so that it keeps working
//! whatever the order of `PATH`, and exports its own directory before it runs the
//! executable, so that the directory can be taken out of `PATH` again.

use vstd::prelude::*;
use vstd::string::*;

use crate::split;

verus! {

/// Marker that every generated shim carries as a comment line of its own.
pub const MARKER: &'static str = "ogt shim v1";

/// The variable in which a shim hands its own directory on.
pub const OGT_SHIM_DIR: &'static str = "OGT_SHIM_DIR";

/// The comment line that marks a generated shim.
pub open spec fn marker_line() -> Seq<char> {
    "# "@ + MARKER@
}

/// The script of the shim for `program` that runs `ogt_exe`.
pub open spec fn shim_script(ogt_exe: Seq<char>, program: Seq<char>) -> Seq<char> {
    let var = OGT_SHIM_DIR@;
    let header = "#!/bin/sh\n"@ + marker_line() + "\n"@;
    let locate = var + "=\"$(cd \"$(dirname \"$0\")\" && pwd)\"\n"@;
    let normalize = "if command -v cygpath >/dev/null 2>&1; then\n"@ + var
        + "=\"$(cygpath -w \"${"@ + var + "}\")\"\nfi\n"@;
    let export = "export "@ + var + "\n"@;
    let run = "exec \""@ + ogt_exe + "\" "@ + program + " \"$@\"\n"@;
    header + locate + normalize + export + run
}

/// Whether a line, of which `piece` is what stands before the line feed, or at the end
/// of the text, is the marker line. A carriage return before a line feed belongs to the
/// end of the line.
pub open spec fn is_marker(piece: Seq<char>, ended: bool) -> bool {
    piece == marker_line() || (ended && piece == marker_line().push('\r'))
}

/// Whether one line of `contents` is the marker line.
pub open spec fn is_marked(contents: Seq<char>) -> bool {
    let pieces = split::split(contents, '\n');
    exists|i: int|
        0 <= i < pieces.len() && is_marker(#[trigger] pieces[i], i + 1 < pieces.len())
}

/// Render the shim script for `program`, which runs `ogt_exe`.
///
/// The shim rewrites its directory through `cygpath -w` where that program exists, so
/// that the directory has the form in which `PATH` lists it there. Elsewhere the branch
/// is skipped.
pub fn render_shim(ogt_exe: &str, program: &str) -> (script: String)
    ensures
        script@ == shim_script(ogt_exe@, program@),
        script@ == "#!/bin/sh\n"@ + "# "@ + "ogt shim v1"@ + "\n"@ + "OGT_SHIM_DIR"@
            + "=\"$(cd \"$(dirname \"$0\")\" && pwd)\"\n"@
            + "if command -v cygpath >/dev/null 2>&1; then\n"@ + "OGT_SHIM_DIR"@
            + "=\"$(cygpath -w \"${"@ + "OGT_SHIM_DIR"@ + "}\")\"\nfi\n"@ + "export "@
            + "OGT_SHIM_DIR"@ + "\n"@ + "exec \""@ + ogt_exe@ + "\" "@ + program@ + " \"$@\"\n"@,
{
    let mut header = "#!/bin/sh\n".to_owned();
    let mut marker = "# ".to_owned();
    marker.append(MARKER);
    header.append(marker.as_str());
    header.append("\n");
    let mut locate = OGT_SHIM_DIR.to_owned();
    locate.append("=\"$(cd \"$(dirname \"$0\")\" && pwd)\"\n");
    let mut normalize = "if command -v cygpath >/dev/null 2>&1; then\n".to_owned();
    normalize.append(OGT_SHIM_DIR);
    normalize.append("=\"$(cygpath -w \"${");
    normalize.append(OGT_SHIM_DIR);
    normalize.append("}\")\"\nfi\n");
    let mut export = "export ".to_owned();
    export.append(OGT_SHIM_DIR);
    export.append("\n");
    let mut run = "exec \"".to_owned();
    run.append(ogt_exe);
    run.append("\" ");
    run.append(program);
    run.append(" \"$@\"\n");
    let mut script = header;
    script.append(locate.as_str());
    script.append(normalize.as_str());
    script.append(export.as_str());
    script.append(run.as_str());
    proof {
        law_script_is_a_fixed_text_and_the_call(ogt_exe@, program@);
    }
    script
}

fn chars_of(text: &str) -> (chars: Vec<char>)
    ensures
        chars@ == text@,
{
    let mut chars: Vec<char> = Vec::new();
    for c in it: text.chars()
        invariant
            it.seq() == text@,
            chars@ == text@.take(it.index() as int),
    {
        chars.push(c);
        assert(chars@ =~= text@.take(it.index() + 1));
    }
    assert(text@.take(text@.len() as int) =~= text@);
    chars
}

/// Whether `chars[from..to]` is `marker`.
fn range_is(chars: &Vec<char>, from: usize, to: usize, marker: &Vec<char>) -> (yes: bool)
    requires
        from <= to <= chars@.len(),
    ensures
        yes == (chars@.subrange(from as int, to as int) == marker@),
{
    let ghost piece = chars@.subrange(from as int, to as int);
    if to - from != marker.len() {
        return false;
    }
    let mut i: usize = 0;
    while i < marker.len()
        invariant
            i <= marker@.len(),
            from <= to <= chars@.len(),
            to - from == marker@.len(),
            piece == chars@.subrange(from as int, to as int),
            forall|k: int| 0 <= k < i ==> piece[k] == marker@[k],
        decreases marker@.len() - i,
    {
        if chars[from + i] != marker[i] {
            assert(piece[i as int] != marker@[i as int]);
            return false;
        }
        i = i + 1;
    }
    assert(piece =~= marker@);
    true
}

/// Whether `chars[from..to]`, with a line feed behind it, is the marker line.
fn ended_line_is(chars: &Vec<char>, from: usize, to: usize, marker: &Vec<char>) -> (yes: bool)
    requires
        from <= to <= chars@.len(),
        marker@ == marker_line(),
    ensures
        yes == is_marker(chars@.subrange(from as int, to as int), true),
{
    let ghost piece = chars@.subrange(from as int, to as int);
    if from < to && chars[to - 1] == '\r' {
        proof {
            assert(piece.drop_last() =~= chars@.subrange(from as int, to - 1));
            assert(piece =~= piece.drop_last().push('\r'));
            assert(marker@.push('\r').drop_last() =~= marker@);
            lemma_marker_ends_plainly();
        }
        range_is(chars, from, to - 1, marker)
    } else {
        proof {
            assert(marker@.push('\r').last() == '\r');
        }
        range_is(chars, from, to, marker)
    }
}

/// The marker line is one line and does not end in a carriage return.
proof fn lemma_marker_ends_plainly()
    ensures
        marker_line().len() > 0,
        marker_line().len() == 13,
        marker_line().last() == '1',
        !marker_line().contains('\n'),
{
    reveal_strlit("# ");
    reveal_strlit("ogt shim v1");
}

/// Whether `contents` is a generated shim: one of its lines is the marker comment,
/// exactly. A line that merely mentions the marker does not count, nor one with white
/// space around it.
pub fn is_ogt_shim(contents: &str) -> (yes: bool)
    ensures
        yes == is_marked(contents@),
        yes <==> exists|i: int| #[trigger] marker_stands_at(contents@, i),
{
    let mut marker_text = "# ".to_owned();
    marker_text.append(MARKER);
    let marker = chars_of(marker_text.as_str());
    let chars = chars_of(contents);
    let mut start: usize = 0;
    let mut i: usize = 0;
    proof {
        assert(chars@.take(0) =~= Seq::<char>::empty());
        assert(chars@.subrange(0, 0) =~= Seq::<char>::empty());
    }
    while i < chars.len()
        invariant
            start <= i <= chars@.len(),
            chars@ == contents@,
            marker@ == marker_line(),
            ({
                let pieces = split::split(chars@.take(i as int), '\n');
                &&& pieces.len() > 0
                &&& pieces.last() == chars@.subrange(start as int, i as int)
                &&& forall|k: int|
                    0 <= k < pieces.len() - 1 ==> !is_marker(#[trigger] pieces[k], true)
            }),
        decreases chars@.len() - i,
    {
        let ghost pieces = split::split(chars@.take(i as int), '\n');
        proof {
            assert(chars@.take(i + 1).drop_last() =~= chars@.take(i as int));
        }
        if chars[i] == '\n' {
            if ended_line_is(&chars, start, i, &marker) {
                proof {
                    lemma_line_stays(contents@, i as int);
                    law_marker_is_a_line_of_its_own(contents@);
                    let all = split::split(contents@, '\n');
                    assert(all[pieces.len() - 1] == pieces.last());
                }
                return true;
            }
            start = i + 1;
            proof {
                let more = pieces.push(Seq::empty());
                assert forall|k: int| 0 <= k < more.len() - 1 implies !is_marker(
                    #[trigger] more[k],
                    true,
                ) by {
                    assert(more[k] == pieces[k]);
                }
                assert(chars@.subrange(i + 1, i + 1) =~= Seq::<char>::empty());
            }
        } else {
            proof {
                let grown = pieces.drop_last().push(pieces.last().push(chars@[i as int]));
                assert forall|k: int| 0 <= k < grown.len() - 1 implies !is_marker(
                    #[trigger] grown[k],
                    true,
                ) by {
                    assert(grown[k] == pieces[k]);
                }
                assert(chars@.subrange(start as int, i + 1) =~= chars@.subrange(
                    start as int,
                    i as int,
                ).push(chars@[i as int]));
            }
        }
        i = i + 1;
    }
    assert(chars@.take(i as int) =~= chars@);
    let yes = range_is(&chars, start, i, &marker);
    proof {
        law_marker_is_a_line_of_its_own(contents@);
        let pieces = split::split(contents@, '\n');
        let last = pieces.len() - 1;
        if yes {
            assert(is_marker(pieces[last], last + 1 < pieces.len()));
        } else {
            assert forall|k: int| 0 <= k < pieces.len() implies !is_marker(
                #[trigger] pieces[k],
                k + 1 < pieces.len(),
            ) by {
                if k == last {
                    assert(pieces[k] == pieces.last());
                }
            }
        }
    }
    yes
}

/// The lines before a line feed are lines of the whole text.
proof fn lemma_line_stays(s: Seq<char>, i: int)
    requires
        0 <= i < s.len(),
        s[i] == '\n',
    ensures
        ({
            let early = split::split(s.take(i), '\n');
            let all = split::split(s, '\n');
            &&& 0 < early.len() < all.len()
            &&& all[early.len() - 1] == early.last()
        }),
{
    assert(s.take(i).push('\n') + s.skip(i + 1) =~= s);
    split::lemma_split_concat(s.take(i), '\n', s.skip(i + 1));
    split::lemma_split_nonempty(s.take(i), '\n');
    split::lemma_split_nonempty(s.skip(i + 1), '\n');
}

/// For every executable and program a shim is the same seven lines and one call: the
/// shebang, the marker, its own directory, three lines that rewrite the directory through
/// `cygpath`, its export, and the line that runs the executable.
pub proof fn law_script_is_a_fixed_text_and_the_call(ogt_exe: Seq<char>, program: Seq<char>)
    ensures
        shim_script(ogt_exe, program) == "#!/bin/sh\n"@ + "# "@ + "ogt shim v1"@ + "\n"@ + "OGT_SHIM_DIR"@
            + "=\"$(cd \"$(dirname \"$0\")\" && pwd)\"\n"@
            + "if command -v cygpath >/dev/null 2>&1; then\n"@ + "OGT_SHIM_DIR"@
            + "=\"$(cygpath -w \"${"@ + "OGT_SHIM_DIR"@ + "}\")\"\nfi\n"@ + "export "@
            + "OGT_SHIM_DIR"@ + "\n"@ + "exec \""@ + ogt_exe + "\" "@ + program
            + " \"$@\"\n"@,
{
    assert(shim_script(ogt_exe, program) =~= "#!/bin/sh\n"@ + "# "@ + "ogt shim v1"@ + "\n"@ + "OGT_SHIM_DIR"@
            + "=\"$(cd \"$(dirname \"$0\")\" && pwd)\"\n"@
            + "if command -v cygpath >/dev/null 2>&1; then\n"@ + "OGT_SHIM_DIR"@
            + "=\"$(cygpath -w \"${"@ + "OGT_SHIM_DIR"@ + "}\")\"\nfi\n"@ + "export "@
            + "OGT_SHIM_DIR"@ + "\n"@ + "exec \""@ + ogt_exe + "\" "@ + program
            + " \"$@\"\n"@);
}

/// What stands before the call does not depend on what is called: any two shims start with
/// the same text, which ends where the call starts, and the call is all that follows.
pub proof fn law_only_the_call_differs(
    ogt_exe: Seq<char>,
    program: Seq<char>,
    other_exe: Seq<char>,
    other_program: Seq<char>,
)
    ensures
        ({
            let one = shim_script(ogt_exe, program);
            let other = shim_script(other_exe, other_program);
            let call = "exec \""@ + ogt_exe + "\" "@ + program + " \"$@\"\n"@;
            let other_call = "exec \""@ + other_exe + "\" "@ + other_program
                + " \"$@\"\n"@;
            let n = one.len() - call.len();
            &&& n == other.len() - other_call.len()
            &&& 0 <= n
            &&& one.take(n) == other.take(n)
            &&& one.skip(n) == call
            &&& other.skip(n) == other_call
        }),
{
    law_script_is_a_fixed_text_and_the_call(ogt_exe, program);
    law_script_is_a_fixed_text_and_the_call(other_exe, other_program);
    let one = shim_script(ogt_exe, program);
    let other = shim_script(other_exe, other_program);
    let call = "exec \""@ + ogt_exe + "\" "@ + program + " \"$@\"\n"@;
    let other_call = "exec \""@ + other_exe + "\" "@ + other_program + " \"$@\"\n"@;
    let n = one.len() - call.len();
    assert(one.take(n) =~= other.take(n));
    assert(one.skip(n) =~= call);
    assert(other.skip(n) =~= other_call);
}

/// Whether the marker stands in `contents` from `i` on and is a line there: what is before
/// it is nothing or ends in a line feed, and what follows is nothing or ends the line.
pub open spec fn marker_stands_at(contents: Seq<char>, i: int) -> bool {
    let end = i + 13;
    &&& 0 <= i && end <= contents.len()
    &&& contents.subrange(i, end) == "# "@ + "ogt shim v1"@
    &&& i == 0 || contents[i - 1] == '\n'
    &&& {
        ||| end == contents.len()
        ||| contents[end] == '\n'
        ||| end + 1 < contents.len() && contents[end] == '\r' && contents[end + 1] == '\n'
    }
}

/// A text is recognised exactly if the marker is one of its lines, wherever that stands
/// and whatever the other lines are.
pub proof fn law_marker_is_a_line_of_its_own(contents: Seq<char>)
    ensures
        is_marked(contents) <==> exists|i: int| #[trigger] marker_stands_at(contents, i),
        forall|i: int|
            0 <= i && i + 13 <= contents.len() && contents.subrange(i, i + 13) == "# "@
                + "ogt shim v1"@ && (i == 0 || contents[i - 1] == '\n') && (i + 13
                == contents.len() || contents[i + 13] == '\n' || (i + 14 < contents.len()
                && contents[i + 13] == '\r' && contents[i + 14] == '\n'))
                <==> #[trigger] marker_stands_at(contents, i),
{
    let pieces = split::split(contents, '\n');
    lemma_marker_ends_plainly();
    if is_marked(contents) {
        let k = choose|k: int|
            0 <= k < pieces.len() && is_marker(#[trigger] pieces[k], k + 1 < pieces.len());
        let at = split::lemma_piece_stands(contents, '\n', k);
        let line = pieces[k];
        assert(contents.subrange(at, at + 13) =~= line.take(13));
        assert(line.take(13) =~= marker_line());
        if line.len() == 14 {
            assert(contents[at + 13] == line[13]);
        }
        assert(marker_stands_at(contents, at));
    }
    if exists|i: int| #[trigger] marker_stands_at(contents, i) {
        let i = choose|i: int| #[trigger] marker_stands_at(contents, i);
        let end = i + 13;
        let to = if end < contents.len() && contents[end] == '\r' {
            end + 1
        } else {
            end
        };
        let line = contents.subrange(i, to);
        let mark = contents.subrange(i, end);
        assert(mark == marker_line());
        assert(!line.contains('\n')) by {
            if line.contains('\n') {
                let j = choose|j: int| 0 <= j < line.len() && line[j] == '\n';
                assert(mark[j] == '\n');
            }
        }
        let k = split::lemma_line_is_a_piece(contents, '\n', i, to);
        if to > end {
            assert(line =~= marker_line().push('\r'));
        }
        assert(is_marker(pieces[k], k + 1 < pieces.len()));
    }
}

/// Every rendered shim is recognised, whatever the executable and the program are
/// called.
pub proof fn law_rendered_shim_is_recognised(ogt_exe: Seq<char>, program: Seq<char>)
    ensures
        is_marked(shim_script(ogt_exe, program)),
{
    let script = shim_script(ogt_exe, program);
    let shebang = "#!/bin/sh"@;
    let mark = marker_line();
    reveal_strlit("#!/bin/sh\n");
    reveal_strlit("#!/bin/sh");
    reveal_strlit("\n");
    let start = shebang.push('\n') + mark.push('\n');
    assert("#!/bin/sh\n"@ + mark + "\n"@ =~= start);
    let rest = script.skip(start.len() as int);
    assert(script =~= shebang.push('\n') + (mark.push('\n') + rest));
    split::lemma_split_concat(shebang, '\n', mark.push('\n') + rest);
    split::lemma_split_concat(mark, '\n', rest);
    assert(!shebang.contains('\n'));
    lemma_marker_ends_plainly();
    split::lemma_split_without_sep(shebang, '\n');
    split::lemma_split_without_sep(mark, '\n');
    let pieces = split::split(script, '\n');
    assert(pieces[1] == mark);
    assert(is_marker(pieces[1], 1 + 1 < pieces.len()));
}

/// A shim is specific to its program: for one executable, different programs give
/// different scripts.
pub proof fn law_shim_is_specific_to_its_program(
    ogt_exe: Seq<char>,
    program: Seq<char>,
    other: Seq<char>,
)
    requires
        program != other,
    ensures
        shim_script(ogt_exe, program) != shim_script(ogt_exe, other),
{
    let a = shim_script(ogt_exe, program);
    let b = shim_script(ogt_exe, other);
    let suffix = " \"$@\"\n"@;
    let front = a.take(a.len() - suffix.len() - program.len());
    assert(a =~= front + program + suffix);
    assert(b =~= front + other + suffix);
    if a == b {
        assert(program =~= a.subrange(front.len() as int, a.len() - suffix.len()));
        assert(other =~= b.subrange(front.len() as int, b.len() - suffix.len()));
    }
}

/// A shim is specific to its executable: for one program, different executables give
/// different scripts.
pub proof fn law_shim_is_specific_to_its_executable(
    ogt_exe: Seq<char>,
    other: Seq<char>,
    program: Seq<char>,
)
    requires
        ogt_exe != other,
    ensures
        shim_script(ogt_exe, program) != shim_script(other, program),
{
    let a = shim_script(ogt_exe, program);
    let b = shim_script(other, program);
    let suffix = "\" "@ + program + " \"$@\"\n"@;
    let front = a.take(a.len() - suffix.len() - ogt_exe.len());
    assert(a =~= front + ogt_exe + suffix);
    assert(b =~= front + other + suffix);
    if a == b {
        assert(ogt_exe =~= a.subrange(front.len() as int, a.len() - suffix.len()));
        assert(other =~= b.subrange(front.len() as int, b.len() - suffix.len()));
    }
}

} // verus!
