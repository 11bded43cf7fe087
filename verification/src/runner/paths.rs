//! Slash-separated paths, taken apart the way `std::path` takes them apart.
//!
//! A path is a byte string. Its components are a leading `/` where it is absolute and
//! the names between its slashes; repeated slashes, a slash at the end and `.` are
//! dropped, except for a `.` at the very start of a relative path. Where they lead,
//! [`crate::runner::parts`] tells, for these and for any other paths.

use vstd::prelude::*;
use vstd::utf8::*;

use crate::bytes;
use crate::runner::parts;
use crate::runner::parts::{ArgView, Part, PartView};
use crate::runner::path_laws;
use crate::split;
use crate::text;

verus! {

/// The separator of path components.
pub const SLASH: u8 = 47;

/// The only byte of the component that stands for the directory itself.
pub const DOT: u8 = 46;

/// Whether a path starts at the root.
pub open spec fn is_absolute(path: Seq<u8>) -> bool {
    path.len() > 0 && path[0] == SLASH
}

/// Whether a piece between slashes names something, be it `..`.
pub open spec fn is_name(piece: Seq<u8>) -> bool {
    piece.len() > 0 && piece != seq![DOT]
}

/// How the directory above is written.
pub open spec fn parent() -> Seq<u8> {
    seq![DOT, DOT]
}

/// The component that a piece between slashes stands for, where it names something.
pub open spec fn part_of(piece: Seq<u8>) -> PartView {
    if piece == parent() {
        PartView::Parent
    } else {
        PartView::Name(piece)
    }
}

/// The components among `pieces` that name something, in order.
pub open spec fn names(pieces: Seq<Seq<u8>>) -> Seq<PartView>
    decreases pieces.len(),
{
    if pieces.len() == 0 {
        Seq::empty()
    } else if is_name(pieces.last()) {
        names(pieces.drop_last()).push(part_of(pieces.last()))
    } else {
        names(pieces.drop_last())
    }
}

/// What a path with these pieces starts with: the root, a leading `.`, or nothing.
pub open spec fn lead(pieces: Seq<Seq<u8>>, absolute: bool) -> Seq<PartView> {
    if absolute {
        seq![PartView::Root]
    } else if pieces.len() > 0 && pieces[0] == seq![DOT] {
        seq![PartView::Current]
    } else {
        Seq::empty()
    }
}

/// The components of a path.
pub open spec fn components_of(path: Seq<u8>) -> Seq<PartView> {
    let pieces = split::split(path, SLASH);
    lead(pieces, is_absolute(path)) + names(pieces)
}

/// The place that a path leads to.
pub open spec fn place_of(path: Seq<u8>) -> Seq<PartView> {
    parts::resolved(components_of(path))
}

/// Whether `path` leads to `base` or to a place under it.
pub open spec fn lies_inside(path: Seq<u8>, base: Seq<u8>) -> bool {
    parts::leads_inside(components_of(path), components_of(base))
}

/// `path`, taken from `base` where it is not absolute.
pub open spec fn join(base: Seq<u8>, path: Seq<u8>) -> Seq<u8> {
    if is_absolute(path) {
        path
    } else if base.len() > 0 && base.last() != SLASH {
        base.push(SLASH) + path
    } else {
        base + path
    }
}

/// The last component of a path, where that is a name other than `..`.
pub open spec fn file_name_of(path: Seq<u8>) -> Option<Seq<u8>> {
    parts::file_name(components_of(path))
}

/// The contents of a list of byte strings.
pub open spec fn contents(list: Seq<Vec<u8>>) -> Seq<Seq<u8>> {
    Seq::new(list.len(), |i: int| list[i]@)
}

/// The contents of an optional byte string that is owned.
pub open spec fn owned(bytes: Option<Vec<u8>>) -> Option<Seq<u8>> {
    match bytes {
        Some(b) => Some(b@),
        None => None,
    }
}

/// The contents of an optional byte string that is borrowed.
pub open spec fn optional(bytes: Option<&[u8]>) -> Option<Seq<u8>> {
    match bytes {
        Some(b) => Some(b@),
        None => None,
    }
}

/// An argument taken as a path, from `cwd` where it is relative.
pub open spec fn arg_of(arg: Seq<u8>, cwd: Option<Seq<u8>>) -> ArgView {
    ArgView {
        absolute: is_absolute(arg),
        parts: components_of(arg),
        from_cwd: match cwd {
            Some(dir) => Some(components_of(join(dir, arg))),
            None => None,
        },
    }
}

/// Whether `arg`, taken from `cwd` where it is relative, leads inside `fold_dir`. A
/// relative argument without a current directory does not.
pub open spec fn reads_fold_dir(
    arg: Seq<u8>,
    fold_dir: Seq<u8>,
    cwd: Option<Seq<u8>>,
) -> bool {
    parts::arg_leads_inside(arg_of(arg, cwd), components_of(fold_dir))
}

proof fn lemma_lead_names_push(pieces: Seq<Seq<u8>>, piece: Seq<u8>, absolute: bool)
    ensures
        ({
            let before = lead(pieces, absolute) + names(pieces);
            let after = lead(pieces.push(piece), absolute) + names(pieces.push(piece));
            after == if is_name(piece) {
                before.push(part_of(piece))
            } else if !absolute && pieces.len() == 0 && piece == seq![DOT] {
                before.push(PartView::Current)
            } else {
                before
            }
        }),
{
    let more = pieces.push(piece);
    assert(more.drop_last() =~= pieces);
    if pieces.len() > 0 {
        assert(more[0] == pieces[0]);
    }
    let before = lead(pieces, absolute) + names(pieces);
    let after = lead(more, absolute) + names(more);
    if is_name(piece) {
        assert(after =~= before.push(part_of(piece)));
    } else if !absolute && pieces.len() == 0 && piece == seq![DOT] {
        assert(after =~= before.push(PartView::Current));
    } else {
        assert(after =~= before);
    }
}

/// Put `piece` behind the components found so far, where it is one.
fn push_piece(found: &mut Vec<Part>, piece: Vec<u8>, leading: bool)
    ensures
        parts::part_views(final(found)@) == if is_name(piece@) {
            parts::part_views(old(found)@).push(part_of(piece@))
        } else if leading && piece@ == seq![DOT] {
            parts::part_views(old(found)@).push(PartView::Current)
        } else {
            parts::part_views(old(found)@)
        },
{
    let ghost before = parts::part_views(found@);
    let dot = piece.len() == 1 && piece[0] == DOT;
    let up = piece.len() == 2 && piece[0] == DOT && piece[1] == DOT;
    proof {
        if dot {
            assert(piece@ =~= seq![DOT]);
        }
        if up {
            assert(piece@ =~= parent());
        }
    }
    if dot {
        if leading {
            found.push(Part::Current);
            assert(parts::part_views(found@) =~= before.push(PartView::Current));
        }
    } else if up {
        found.push(Part::Parent);
        assert(parts::part_views(found@) =~= before.push(PartView::Parent));
    } else if piece.len() > 0 {
        found.push(Part::Name(piece));
        assert(parts::part_views(found@) =~= before.push(PartView::Name(piece@)));
    }
}

/// Take a path apart.
pub fn components(path: &[u8]) -> (found: Vec<Part>)
    ensures
        parts::part_views(found@) == components_of(path@),
{
    let absolute = path.len() > 0 && path[0] == SLASH;
    let mut found: Vec<Part> = Vec::new();
    if absolute {
        found.push(Part::Root);
    }
    let mut piece: Vec<u8> = Vec::new();
    let mut first = true;
    let mut i: usize = 0;
    proof {
        assert(path@.take(0) =~= Seq::<u8>::empty());
        let start = split::split(path@.take(0), SLASH).drop_last();
        assert(start =~= Seq::<Seq<u8>>::empty());
        assert(parts::part_views(found@) =~= lead(start, absolute) + names(start));
    }
    while i < path.len()
        invariant
            i <= path@.len(),
            absolute == is_absolute(path@),
            ({
                let pieces = split::split(path@.take(i as int), SLASH);
                &&& pieces.len() > 0
                &&& piece@ == pieces.last()
                &&& first == (pieces.len() == 1)
                &&& parts::part_views(found@) == lead(pieces.drop_last(), absolute) + names(
                    pieces.drop_last(),
                )
            }),
        decreases path@.len() - i,
    {
        let ghost pieces = split::split(path@.take(i as int), SLASH);
        proof {
            assert(path@.take(i + 1).drop_last() =~= path@.take(i as int));
            assert(pieces.drop_last().push(pieces.last()) =~= pieces);
            lemma_lead_names_push(pieces.drop_last(), pieces.last(), absolute);
        }
        let b = path[i];
        if b == SLASH {
            let mut done: Vec<u8> = Vec::new();
            std::mem::swap(&mut done, &mut piece);
            push_piece(&mut found, done, first && !absolute);
            first = false;
            proof {
                assert(piece@ =~= Seq::<u8>::empty());
                assert(pieces.push(Seq::empty()).drop_last() =~= pieces);
            }
        } else {
            piece.push(b);
            proof {
                let grown = pieces.drop_last().push(pieces.last().push(b));
                assert(grown.drop_last() =~= pieces.drop_last());
            }
        }
        i = i + 1;
    }
    proof {
        assert(path@.take(i as int) =~= path@);
        let pieces = split::split(path@, SLASH);
        assert(pieces.drop_last().push(pieces.last()) =~= pieces);
        lemma_lead_names_push(pieces.drop_last(), pieces.last(), absolute);
    }
    push_piece(&mut found, piece, first && !absolute);
    found
}

/// Tell from the components of a path where it leads.
pub fn place(path: &[u8]) -> (at: Vec<Part>)
    ensures
        parts::part_views(at@) == place_of(path@),
{
    parts::resolve(&components(path))
}

/// Whether `path` leads to `base` or to a place under it.
pub fn path_lies_inside(path: &[u8], base: &[u8]) -> (yes: bool)
    ensures
        yes == lies_inside(path@, base@),
{
    parts::parts_lie_inside(&components(path), &components(base))
}

/// Append a relative path to a directory.
fn join_relative(base: &[u8], path: &[u8]) -> (joined: Vec<u8>)
    requires
        !is_absolute(path@),
    ensures
        joined@ == join(base@, path@),
{
    let mut joined = bytes::copy_bytes(base);
    if base.len() > 0 && base[base.len() - 1] != SLASH {
        joined.push(SLASH);
    }
    bytes::append_bytes(&mut joined, path);
    joined
}

/// Whether one argument, resolved as a path against `cwd`, leads inside `fold_dir`.
pub fn arg_reads_fold_dir(arg: &str, fold_dir: &[u8], cwd: Option<&[u8]>) -> (reads: bool)
    ensures
        reads == reads_fold_dir(encode_utf8(arg@), fold_dir@, optional(cwd)),
        ({
            let path = encode_utf8(arg@);
            let dir = components_of(fold_dir@);
            if path.len() > 0 && path[0] == 47 {
                reads == parts::leads_inside(components_of(path), dir)
            } else {
                match cwd {
                    None => !reads,
                    Some(at) => reads == parts::leads_inside(
                        components_of(
                            if at@.len() == 0 || at@.last() == 47 {
                                at@ + path
                            } else {
                                at@.push(47) + path
                            },
                        ),
                        dir,
                    ),
                }
            }
        }),
{
    let path = arg.as_bytes();
    if path.len() > 0 && path[0] == SLASH {
        return path_lies_inside(path, fold_dir);
    }
    match cwd {
        Some(dir) => {
            let full = join_relative(dir, path);
            path_lies_inside(full.as_slice(), fold_dir)
        },
        None => false,
    }
}

/// Whether any of `args` leads inside `fold_dir`: whether an invocation reads back a
/// file that an earlier one folded. Only the arguments are inspected.
pub fn args_read_fold_dir(
    args: &[String],
    fold_dir: Option<&[u8]>,
    cwd: Option<&[u8]>,
) -> (reads: bool)
    ensures
        reads == (fold_dir matches Some(dir) && exists|i: int|
            0 <= i < args@.len() && reads_fold_dir(
                encode_utf8(#[trigger] args@[i]@),
                dir@,
                optional(cwd),
            )),
{
    match fold_dir {
        None => false,
        Some(dir) => {
            let mut i: usize = 0;
            while i < args.len()
                invariant
                    i <= args@.len(),
                    fold_dir == Some(dir),
                    forall|k: int|
                        0 <= k < i ==> !reads_fold_dir(
                            encode_utf8(#[trigger] args@[k]@),
                            dir@,
                            optional(cwd),
                        ),
                decreases args@.len() - i,
            {
                if arg_reads_fold_dir(args[i].as_str(), dir, cwd) {
                    return true;
                }
                i = i + 1;
            }
            false
        },
    }
}

/// The last name in a program path, for display and for file names; `command` where
/// there is none.
pub open spec fn basename_of(program: Seq<u8>) -> Seq<char> {
    parts::name_shown(components_of(program))
}

/// Whether `shown` is what a path can end in: it is not empty, holds no slash, and is its
/// own basename.
pub open spec fn is_own_basename(shown: Seq<char>) -> bool {
    &&& shown.len() > 0
    &&& !shown.contains('/')
    &&& basename_of(encode_utf8(shown)) == shown
}

/// Basename of a program path or name.
pub fn basename(program: &[u8]) -> (name: String)
    ensures
        name@ == basename_of(program@),
        is_own_basename(name@),
{
    let shown = parts::basename_of_parts(&components(program));
    proof {
        match file_name_of(program@) {
            Some(last) => {
                if valid_utf8(last) {
                    path_laws::law_basename_is_its_own_basename(program@);
                } else {
                    path_laws::lemma_file_name_is_plain(program@);
                    reveal_strlit(".");
                    reveal_strlit("..");
                    assert(!shown@.contains('/')) by {
                        if shown@.contains('/') {
                            let i = choose|i: int| 0 <= i < shown@.len() && shown@[i] == '/';
                            assert(last.contains(shown@[i] as u8));
                        }
                    }
                    path_laws::lemma_plain_text_is_its_own_basename(shown@);
                }
            },
            None => {
                path_laws::lemma_command_is_its_own_basename();
            },
        }
    }
    shown
}

/// What a list or an option of byte strings holds is what its members hold.
pub proof fn law_contents_are_the_bytes(list: Seq<Vec<u8>>, one: Vec<u8>)
    ensures
        contents(list).len() == list.len(),
        forall|i: int| 0 <= i < list.len() ==> contents(list)[i] == (#[trigger] list[i])@,
        owned(Some(one)) == Some(one@),
        owned(None) is None,
        optional(None) is None,
{
}

} // verus!
