//! What holds of every path.

use vstd::prelude::*;
use vstd::utf8::*;

use crate::runner::parts;
use crate::runner::parts::PartView;
use crate::runner::paths;
use crate::runner::paths::{DOT, SLASH};
use crate::split;
use crate::text;

verus! {

proof fn lemma_names_add(a: Seq<Seq<u8>>, b: Seq<Seq<u8>>)
    ensures
        paths::names(a + b) == paths::names(a) + paths::names(b),
    decreases b.len(),
{
    if b.len() == 0 {
        assert(a + b =~= a);
        assert(paths::names(a) + paths::names(b) =~= paths::names(a));
    } else {
        lemma_names_add(a, b.drop_last());
        assert((a + b).drop_last() =~= a + b.drop_last());
        assert(paths::names(a + b) =~= paths::names(a) + paths::names(b));
    }
}

/// Joining a relative path to a directory puts its names behind the directory's
/// components.
pub proof fn law_join_appends_components(base: Seq<u8>, path: Seq<u8>)
    requires
        base.len() > 0,
        !paths::is_absolute(path),
    ensures
        paths::components_of(paths::join(base, path)) == paths::components_of(base)
            + paths::names(split::split(path, SLASH)),
{
    let joined = paths::join(base, path);
    let rest = split::split(path, SLASH);
    assert(paths::is_absolute(joined) == paths::is_absolute(base));
    let trunk = if base.last() == SLASH {
        base.drop_last()
    } else {
        base
    };
    assert(joined =~= trunk.push(SLASH) + path);
    let front = split::split(trunk, SLASH);
    split::lemma_split_concat(trunk, SLASH, path);
    split::lemma_split_nonempty(trunk, SLASH);
    lemma_names_add(front, rest);
    assert((front + rest)[0] == front[0]);
    let pieces = split::split(base, SLASH);
    if base.last() == SLASH {
        assert(pieces =~= front.push(Seq::empty()));
        assert(pieces.drop_last() =~= front);
        assert(pieces[0] == front[0]);
    }
    assert(paths::names(pieces) == paths::names(front));
    assert(paths::components_of(joined) =~= paths::components_of(base) + paths::names(rest));
}

/// Whether a path holds a `..`.
pub open spec fn climbs(path: Seq<u8>) -> bool {
    paths::names(split::split(path, SLASH)).contains(PartView::Parent)
}

/// The only component of `..` is the directory above.
proof fn lemma_parent_names()
    ensures
        !paths::is_absolute(paths::parent()),
        paths::names(split::split(paths::parent(), SLASH)) == seq![PartView::Parent],
{
    let up = paths::parent();
    assert(!up.contains(SLASH));
    split::lemma_split_without_sep(up, SLASH);
    reveal_with_fuel(paths::names, 2);
    assert(up.len() == 2);
    assert(seq![DOT].len() == 1);
    assert(paths::names(split::split(up, SLASH)) =~= seq![PartView::Parent]);
}

/// Whatever is joined to a directory without a root of its own and without climbing
/// lies inside it.
pub proof fn law_joined_path_lies_inside(base: Seq<u8>, path: Seq<u8>)
    requires
        !paths::is_absolute(path),
        !climbs(path),
    ensures
        paths::lies_inside(paths::join(base, path), base),
{
    if base.len() > 0 {
        law_join_appends_components(base, path);
        parts::law_descending_leads_inside(
            paths::components_of(base),
            paths::names(split::split(path, SLASH)),
        );
    } else {
        reveal_with_fuel(paths::names, 2);
        assert(seq![DOT].len() == 1);
        assert(paths::names(split::split(base, SLASH)) =~= Seq::<PartView>::empty());
        assert(paths::components_of(base) =~= Seq::<PartView>::empty());
        let place = paths::place_of(paths::join(base, path));
        assert(place.take(0) =~= Seq::<PartView>::empty());
    }
}

/// Climbing out of a directory leads outside it.
pub proof fn law_parent_lies_outside(base: Seq<u8>)
    requires
        ({
            let place = paths::place_of(base);
            &&& place.len() > 0
            &&& place.last() is Name
        }),
    ensures
        !paths::lies_inside(paths::join(base, paths::parent()), base),
{
    let up = paths::join(base, paths::parent());
    lemma_parent_names();
    assert(base.len() > 0) by {
        if base.len() == 0 {
            reveal_with_fuel(paths::names, 2);
            assert(paths::names(split::split(base, SLASH)) =~= Seq::<PartView>::empty());
            assert(paths::components_of(base) =~= Seq::<PartView>::empty());
        }
    }
    law_join_appends_components(base, paths::parent());
    assert(paths::components_of(up) =~= paths::components_of(base).push(PartView::Parent));
    parts::law_climbing_leads_outside(paths::components_of(base));
}

/// Climbing takes a name back: a directory joined with a name and `..` leads to itself.
pub proof fn law_climbing_takes_a_name_back(base: Seq<u8>, name: Seq<u8>)
    requires
        base.len() > 0,
        paths::is_name(name),
        name != paths::parent(),
        !name.contains(SLASH),
    ensures
        paths::place_of(paths::join(paths::join(base, name), paths::parent()))
            == paths::place_of(base),
{
    let down = paths::join(base, name);
    let back = paths::join(down, paths::parent());
    assert(!paths::is_absolute(name)) by {
        if paths::is_absolute(name) {
            assert(name.contains(name[0]));
        }
    }
    split::lemma_split_without_sep(name, SLASH);
    reveal_with_fuel(paths::names, 2);
    assert(paths::names(split::split(name, SLASH)) =~= seq![PartView::Name(name)]);
    law_join_appends_components(base, name);
    assert(paths::components_of(down).drop_last() =~= paths::components_of(base));
    lemma_parent_names();
    law_join_appends_components(down, paths::parent());
    assert(paths::components_of(back).drop_last() =~= paths::components_of(down));
    let part = PartView::Name(name);
    assert(paths::components_of(down).last() == part);
    assert(paths::components_of(back).last() == PartView::Parent);
    assert(paths::place_of(down) == paths::place_of(base).push(part));
    assert(paths::place_of(base).push(part).drop_last() =~= paths::place_of(base));
}

/// Lying inside is transitive.
pub proof fn law_inside_is_transitive(path: Seq<u8>, middle: Seq<u8>, base: Seq<u8>)
    requires
        paths::lies_inside(path, middle),
        paths::lies_inside(middle, base),
    ensures
        paths::lies_inside(path, base),
{
    parts::law_leading_inside_is_transitive(
        paths::components_of(path),
        paths::components_of(middle),
        paths::components_of(base),
    );
}

/// Naming a file in an absolute fold directory by its full path is seen as reading it
/// back, wherever the command runs.
pub proof fn law_full_path_is_seen(fold_dir: Seq<u8>, name: Seq<u8>, cwd: Option<Seq<u8>>)
    requires
        paths::is_absolute(fold_dir),
        !paths::is_absolute(name),
        !climbs(name),
    ensures
        paths::reads_fold_dir(paths::join(fold_dir, name), fold_dir, cwd),
{
    law_joined_path_lies_inside(fold_dir, name);
    assert(paths::is_absolute(paths::join(fold_dir, name)));
}

/// Any relative argument that does not climb is seen as reading a fold back when the
/// command runs inside the fold directory.
pub proof fn law_relative_path_is_seen(fold_dir: Seq<u8>, arg: Seq<u8>, cwd: Seq<u8>)
    requires
        !paths::is_absolute(arg),
        !climbs(arg),
        paths::lies_inside(cwd, fold_dir),
    ensures
        paths::reads_fold_dir(arg, fold_dir, Some(cwd)),
{
    law_joined_path_lies_inside(cwd, arg);
    law_inside_is_transitive(paths::join(cwd, arg), cwd, fold_dir);
}

/// The basename of a program is its own name, whatever directory it is called from.
pub proof fn law_basename_strips_directories(dir: Seq<u8>, name: Seq<u8>)
    requires
        paths::is_name(name),
        name != paths::parent(),
        !name.contains(SLASH),
    ensures
        paths::basename_of(name) == text::text_of(name),
        paths::basename_of(paths::join(dir, name)) == text::text_of(name),
{
    assert(!paths::is_absolute(name)) by {
        if paths::is_absolute(name) {
            assert(name.contains(name[0]));
        }
    }
    split::lemma_split_without_sep(name, SLASH);
    let pieces = split::split(name, SLASH);
    reveal_with_fuel(paths::names, 2);
    let part = PartView::Name(name);
    assert(paths::names(pieces) =~= seq![part]);
    assert(paths::components_of(name).last() == part);
    if dir.len() > 0 {
        law_join_appends_components(dir, name);
        assert(paths::components_of(paths::join(dir, name)).last() == part);
    } else {
        assert(paths::join(dir, name) =~= name);
    }
}

/// Whether `part` is what a piece of `pieces` that names something stands for.
spec fn is_from(part: PartView, pieces: Seq<Seq<u8>>) -> bool {
    exists|k: int|
        0 <= k < pieces.len() && paths::is_name(pieces[k]) && part == paths::part_of(
            #[trigger] pieces[k],
        )
}

proof fn lemma_names_are_pieces(pieces: Seq<Seq<u8>>)
    ensures
        forall|i: int|
            0 <= i < paths::names(pieces).len() ==> is_from(
                #[trigger] paths::names(pieces)[i],
                pieces,
            ),
    decreases pieces.len(),
{
    if pieces.len() > 0 {
        let rest = pieces.drop_last();
        lemma_names_are_pieces(rest);
        assert forall|i: int| 0 <= i < paths::names(pieces).len() implies is_from(
            #[trigger] paths::names(pieces)[i],
            pieces,
        ) by {
            let part = paths::names(pieces)[i];
            if i < paths::names(rest).len() {
                assert(part == paths::names(rest)[i]);
                let k = choose|k: int|
                    0 <= k < rest.len() && paths::is_name(rest[k]) && part == paths::part_of(
                        #[trigger] rest[k],
                    );
                assert(pieces[k] == rest[k]);
            } else {
                assert(part == paths::part_of(pieces[pieces.len() - 1]));
            }
        }
    }
}

/// A file name is a name without a slash.
pub proof fn lemma_file_name_is_plain(path: Seq<u8>)
    ensures
        paths::file_name_of(path) matches Some(name) ==> {
            &&& paths::is_name(name)
            &&& name != paths::parent()
            &&& !name.contains(SLASH)
        },
{
    let pieces = split::split(path, SLASH);
    let names = paths::names(pieces);
    if let Some(name) = paths::file_name_of(path) {
        lemma_names_are_pieces(pieces);
        split::lemma_pieces_hold_no_separator(path, SLASH);
        assert(names.len() > 0);
        let part = names[names.len() - 1];
        assert(part == PartView::Name(name));
        let k = choose|k: int|
            0 <= k < pieces.len() && paths::is_name(pieces[k]) && part == paths::part_of(
                #[trigger] pieces[k],
            );
        assert(!pieces[k].contains(SLASH));
    }
}

/// Text without a slash that is neither empty nor a dot or two is its own basename.
pub proof fn lemma_plain_text_is_its_own_basename(shown: Seq<char>)
    requires
        shown.len() > 0,
        !shown.contains('/'),
        shown != "."@,
        shown != ".."@,
    ensures
        paths::is_own_basename(shown),
{
    let name = encode_utf8(shown);
    encode_utf8_valid_utf8(shown);
    encode_utf8_decode_utf8(shown);
    text::lemma_ascii_in_encoding(shown, '/');
    reveal_strlit(".");
    reveal_strlit("..");
    assert(name.len() > 0) by {
        if name.len() == 0 {
            assert(decode_utf8(name).len() == 0);
        }
    }
    assert(name != seq![DOT]) by {
        is_ascii_chars_encode_utf8("."@);
        encode_utf8_decode_utf8("."@);
        assert(encode_utf8("."@) =~= seq![DOT]);
    }
    assert(name != paths::parent()) by {
        is_ascii_chars_encode_utf8(".."@);
        encode_utf8_decode_utf8(".."@);
        assert(encode_utf8(".."@) =~= paths::parent());
    }
    law_basename_strips_directories(Seq::empty(), name);
}

/// A basename is what a path can end in: it is not empty, holds no slash, and is its own
/// basename. Here for programs whose name is valid UTF-8, or that have none;
/// [`paths::basename`] states it for every program.
pub proof fn law_basename_is_its_own_basename(program: Seq<u8>)
    requires
        paths::file_name_of(program) matches Some(name) ==> valid_utf8(name),
    ensures
        paths::is_own_basename(paths::basename_of(program)),
{
    match paths::file_name_of(program) {
        Some(name) => {
            lemma_file_name_is_plain(program);
            decode_utf8_encode_utf8(name);
            let shown = decode_utf8(name);
            text::lemma_ascii_in_encoding(shown, '/');
            reveal_strlit(".");
            reveal_strlit("..");
            is_ascii_chars_encode_utf8("."@);
            assert(encode_utf8("."@) =~= seq![DOT]);
            is_ascii_chars_encode_utf8(".."@);
            assert(encode_utf8(".."@) =~= paths::parent());
            lemma_plain_text_is_its_own_basename(shown);
        },
        None => {
            lemma_command_is_its_own_basename();
        },
    }
}

/// The stand-in for a missing name is its own basename.
pub proof fn lemma_command_is_its_own_basename()
    ensures
        paths::is_own_basename("command"@),
{
    reveal_strlit("command");
    reveal_strlit(".");
    reveal_strlit("..");
    assert("command"@.len() == 7);
    lemma_plain_text_is_its_own_basename("command"@);
}

/// A program that leads to the directory above has no name of its own and is called
/// `command`.
pub proof fn law_parent_has_no_basename(dir: Seq<u8>)
    ensures
        paths::basename_of(paths::join(dir, paths::parent())) == "command"@,
{
    lemma_parent_names();
    if dir.len() > 0 {
        law_join_appends_components(dir, paths::parent());
        assert(paths::components_of(paths::join(dir, paths::parent())).last()
            == PartView::Parent);
    } else {
        assert(paths::join(dir, paths::parent()) =~= paths::parent());
        assert(paths::components_of(paths::parent()).last() == PartView::Parent);
    }
}

/// The absolute path that leads down through `names`: a slash before each.
pub open spec fn slashed(names: Seq<Seq<u8>>) -> Seq<u8>
    decreases names.len(),
{
    if names.len() == 0 {
        Seq::empty()
    } else {
        slashed(names.drop_last()).push(47) + names.last()
    }
}

/// Whether each of `names` can be the name of a file: not empty, no slash, not `.` or `..`.
pub open spec fn are_file_names(names: Seq<Seq<u8>>) -> bool {
    forall|i: int|
        0 <= i < names.len() ==> {
            let name = #[trigger] names[i];
            name.len() > 0 && !name.contains(47) && name != seq![46u8] && name != seq![46u8, 46u8]
        }
}

/// One more piece behind a slash puts its own components behind those of the path.
pub proof fn lemma_components_add(base: Seq<u8>, path: Seq<u8>)
    requires
        base.len() > 0,
    ensures
        paths::components_of(base.push(SLASH) + path) == paths::components_of(base)
            + paths::names(split::split(path, SLASH)),
{
    let whole = base.push(SLASH) + path;
    let front = split::split(base, SLASH);
    let rest = split::split(path, SLASH);
    split::lemma_split_concat(base, SLASH, path);
    split::lemma_split_nonempty(base, SLASH);
    lemma_names_add(front, rest);
    assert((front + rest)[0] == front[0]);
    assert(whole[0] == base[0]);
    assert(paths::components_of(whole) =~= paths::components_of(base) + paths::names(rest));
}

/// The only component of a file name is that name.
proof fn lemma_file_name_names(name: Seq<u8>)
    requires
        paths::is_name(name),
        name != paths::parent(),
        !name.contains(SLASH),
    ensures
        paths::names(split::split(name, SLASH)) == seq![PartView::Name(name)],
{
    split::lemma_split_without_sep(name, SLASH);
    reveal_with_fuel(paths::names, 2);
    assert(paths::names(split::split(name, SLASH)) =~= seq![PartView::Name(name)]);
}

/// An absolute path is its root and its names, byte for byte and in order, and leads there.
pub proof fn law_absolute_path_is_its_names(names: Seq<Seq<u8>>)
    requires
        names.len() > 0,
        are_file_names(names),
    ensures
        ({
            let parts = paths::components_of(slashed(names));
            &&& parts.len() == names.len() + 1
            &&& parts[0] == PartView::Root
            &&& forall|i: int|
                0 <= i < names.len() ==> #[trigger] parts[i + 1] == PartView::Name(names[i])
            &&& paths::place_of(slashed(names)) == parts
        }),
    decreases names.len(),
{
    let rest = names.drop_last();
    let last = names.last();
    let path = slashed(names);
    let parts = paths::components_of(path);
    assert(last == names[names.len() - 1]);
    lemma_file_name_names(last);
    assert(are_file_names(rest)) by {
        assert forall|i: int| 0 <= i < rest.len() implies {
            let name = #[trigger] rest[i];
            name.len() > 0 && !name.contains(47) && name != seq![46u8] && name != seq![46u8, 46u8]
        } by {
            assert(rest[i] == names[i]);
        }
    }
    if rest.len() == 0 {
        let none = Seq::<u8>::empty();
        assert(slashed(rest) =~= none);
        split::lemma_split_concat(none, SLASH, last);
        assert(path =~= none.push(SLASH) + last);
        lemma_names_add(split::split(none, SLASH), split::split(last, SLASH));
        reveal_with_fuel(paths::names, 2);
        assert(seq![DOT].len() == 1);
        assert(paths::names(split::split(none, SLASH)) =~= Seq::<PartView>::empty());
        assert(parts =~= seq![PartView::Root, PartView::Name(last)]);
    } else {
        law_absolute_path_is_its_names(rest);
        lemma_components_add(slashed(rest), last);
        let early = paths::components_of(slashed(rest));
        assert(parts =~= early.push(PartView::Name(last)));
        assert forall|i: int| 0 <= i < names.len() implies #[trigger] parts[i + 1]
            == PartView::Name(names[i]) by {
            if i < rest.len() {
                assert(early[i + 1] == PartView::Name(rest[i]));
            }
        }
    }
    assert(!parts.contains(PartView::Parent)) by {
        if parts.contains(PartView::Parent) {
            let i = choose|i: int| 0 <= i < parts.len() && parts[i] == PartView::Parent;
            if i > 0 {
                assert(parts[(i - 1) + 1] == PartView::Name(names[i - 1]));
            }
        }
    }
    parts::law_descending_leads_inside(Seq::empty(), parts);
    assert(Seq::<PartView>::empty() + parts =~= parts);
}

/// One absolute path lies inside another exactly if the names of the other are its first
/// names, each in full.
pub proof fn law_inside_goes_by_whole_names(inner: Seq<Seq<u8>>, outer: Seq<Seq<u8>>)
    requires
        inner.len() > 0,
        outer.len() > 0,
        are_file_names(inner),
        are_file_names(outer),
    ensures
        paths::lies_inside(slashed(inner), slashed(outer)) <==> outer.len() <= inner.len()
            && inner.take(outer.len() as int) == outer,
        paths::lies_inside(slashed(inner), seq![47u8]),
{
    let a = paths::components_of(slashed(inner));
    let b = paths::components_of(slashed(outer));
    lemma_root();
    law_absolute_path_is_its_names(inner);
    law_absolute_path_is_its_names(outer);
    assert(a.take(1) =~= seq![PartView::Root]);
    if paths::lies_inside(slashed(inner), slashed(outer)) {
        assert forall|i: int| 0 <= i < outer.len() implies inner[i] == #[trigger] outer[i] by {
            assert(a.take(b.len() as int)[i + 1] == b[i + 1]);
            assert(a[i + 1] == PartView::Name(inner[i]));
            assert(b[i + 1] == PartView::Name(outer[i]));
        }
        assert(inner.take(outer.len() as int) =~= outer);
    }
    if outer.len() <= inner.len() && inner.take(outer.len() as int) == outer {
        assert forall|k: int| 0 <= k < b.len() implies #[trigger] a[k] == b[k] by {
            if k > 0 {
                assert(a[(k - 1) + 1] == PartView::Name(inner[k - 1]));
                assert(b[(k - 1) + 1] == PartView::Name(outer[k - 1]));
                assert(inner.take(outer.len() as int)[k - 1] == inner[k - 1]);
            }
        }
        assert(a.take(b.len() as int) =~= b);
    }
}

/// A lone slash is the root.
proof fn lemma_root()
    ensures
        paths::components_of(seq![SLASH]) == seq![PartView::Root],
        paths::place_of(seq![SLASH]) == seq![PartView::Root],
{
    let none = Seq::<u8>::empty();
    assert(seq![SLASH] =~= none.push(SLASH) + none);
    split::lemma_split_concat(none, SLASH, none);
    lemma_names_add(split::split(none, SLASH), split::split(none, SLASH));
    reveal_with_fuel(paths::names, 2);
    assert(seq![DOT].len() == 1);
    assert(paths::names(split::split(none, SLASH)) =~= Seq::<PartView>::empty());
    let parts = paths::components_of(seq![SLASH]);
    assert(parts =~= seq![PartView::Root]);
    assert(parts.drop_last() =~= Seq::<PartView>::empty());
    reveal_with_fuel(parts::resolved, 2);
    assert(paths::place_of(seq![SLASH]) =~= seq![PartView::Root]);
}

/// A second slash, a `.` between slashes and a slash at the end change nothing.
pub proof fn law_spare_slashes_and_dots_do_not_matter(base: Seq<u8>, path: Seq<u8>)
    requires
        base.len() > 0,
    ensures
        ({
            let plain = paths::components_of(base.push(47) + path);
            &&& paths::components_of(base.push(47).push(47) + path) == plain
            &&& paths::components_of(base.push(47).push(46).push(47) + path) == plain
        }),
        paths::components_of(base.push(47)) == paths::components_of(base),
        paths::components_of(base.push(47).push(46)) == paths::components_of(base),
        paths::basename_of(base.push(47)) == paths::basename_of(base),
{
    let none = Seq::<u8>::empty();
    let dot = seq![DOT];
    let plain = paths::components_of(base.push(SLASH) + path);
    lemma_components_add(base, path);
    lemma_components_add(base.push(SLASH), path);
    lemma_components_add(base, none);
    lemma_components_add(base, dot);
    lemma_components_add(base.push(SLASH) + dot, path);
    reveal_with_fuel(paths::names, 2);
    split::lemma_split_without_sep(none, SLASH);
    split::lemma_split_without_sep(dot, SLASH);
    assert(paths::names(split::split(none, SLASH)) =~= Seq::<PartView>::empty());
    assert(paths::names(split::split(dot, SLASH)) =~= Seq::<PartView>::empty());
    let parts = paths::components_of(base);
    assert(parts + Seq::<PartView>::empty() =~= parts);
    assert(base.push(SLASH) + none =~= base.push(SLASH));
    assert(base.push(SLASH) + dot =~= base.push(47).push(46));
    assert(base.push(47).push(46).push(47) + path =~= (base.push(SLASH) + dot).push(SLASH) + path);
}

/// Behind any directory, a program is called by what follows the last slash.
pub proof fn law_basename_follows_the_last_slash(dir: Seq<u8>, name: Seq<u8>)
    requires
        name.len() > 0,
        !name.contains(47),
        name != seq![46u8],
        name != seq![46u8, 46u8],
    ensures
        paths::basename_of(name) == text::text_of(name),
        paths::basename_of(dir.push(47) + name) == text::text_of(name),
{
    law_basename_strips_directories(dir, name);
    lemma_file_name_names(name);
    if dir.len() > 0 {
        lemma_components_add(dir, name);
        assert(paths::components_of(dir.push(SLASH) + name).last() == PartView::Name(name));
    } else {
        let names = seq![name];
        assert(slashed(names.drop_last()) =~= dir);
        assert(slashed(names) =~= dir.push(SLASH) + name);
        law_absolute_path_is_its_names(names);
        let parts = paths::components_of(slashed(names));
        assert(parts[0int + 1int] == PartView::Name(names[0]));
    }
}

/// A relative path is its names, byte for byte and in order.
pub proof fn law_relative_path_is_its_names(first: Seq<u8>, names: Seq<Seq<u8>>)
    requires
        are_file_names(names),
        are_file_names(seq![first]),
    ensures
        ({
            let parts = paths::components_of(first + slashed(names));
            &&& parts.len() == names.len() + 1
            &&& parts[0] == PartView::Name(first)
            &&& forall|i: int|
                0 <= i < names.len() ==> #[trigger] parts[i + 1] == PartView::Name(names[i])
        }),
    decreases names.len(),
{
    let parts = paths::components_of(first + slashed(names));
    assert(seq![first][0] == first);
    if names.len() == 0 {
        assert(first + slashed(names) =~= first);
        lemma_file_name_names(first);
        split::lemma_split_without_sep(first, SLASH);
        assert(!paths::is_absolute(first)) by {
            if paths::is_absolute(first) {
                assert(first.contains(first[0]));
            }
        }
        assert(parts =~= seq![PartView::Name(first)]);
    } else {
        let rest = names.drop_last();
        let last = names.last();
        assert(last == names[names.len() - 1]);
        assert(are_file_names(rest)) by {
            assert forall|i: int| 0 <= i < rest.len() implies {
                let name = #[trigger] rest[i];
                name.len() > 0 && !name.contains(47) && name != seq![46u8] && name
                    != seq![46u8, 46u8]
            } by {
                assert(rest[i] == names[i]);
            }
        }
        law_relative_path_is_its_names(first, rest);
        lemma_file_name_names(last);
        let early = first + slashed(rest);
        assert(first + slashed(names) =~= early.push(SLASH) + last);
        lemma_components_add(early, last);
        let front = paths::components_of(early);
        assert(parts =~= front.push(PartView::Name(last)));
        assert forall|i: int| 0 <= i < names.len() implies #[trigger] parts[i + 1]
            == PartView::Name(names[i]) by {
            if i < rest.len() {
                assert(front[i + 1] == PartView::Name(rest[i]));
            }
        }
    }
}

/// Two dots behind a slash are the directory above, whatever stands before them.
pub proof fn law_two_dots_are_the_directory_above(base: Seq<u8>)
    requires
        base.len() > 0,
    ensures
        paths::components_of(base.push(47).push(46).push(46)) == paths::components_of(base).push(
            PartView::Parent,
        ),
{
    lemma_parent_names();
    lemma_components_add(base, paths::parent());
    assert(base.push(SLASH) + paths::parent() =~= base.push(47).push(46).push(46));
    assert(paths::components_of(base) + seq![PartView::Parent] =~= paths::components_of(
        base,
    ).push(PartView::Parent));
}

} // verus!
