//! Paths as components, and where they lead.
//!
//! Each platform has its own way of writing a path down. What is told here is told from
//! the components that the platform takes a path apart into: [`crate::runner::paths`]
//! takes slash-separated paths apart, and any other path comes as components already.
//! `..` takes back the name before it. No link is followed and nothing is looked up.

use vstd::prelude::*;

use crate::bytes;
use crate::text;

verus! {

/// One component of a path.
#[derive(Debug, PartialEq, Eq)]
pub enum Part {
    /// What stands before the root on platforms that have such a thing, such as a drive.
    Prefix(Vec<u8>),
    /// The root.
    Root,
    /// The directory itself.
    Current,
    /// The directory above.
    Parent,
    /// A name.
    Name(Vec<u8>),
}

/// What a [`Part`] says.
pub enum PartView {
    Prefix(Seq<u8>),
    Root,
    Current,
    Parent,
    Name(Seq<u8>),
}

impl View for Part {
    type V = PartView;

    open spec fn view(&self) -> PartView {
        match self {
            Part::Prefix(p) => PartView::Prefix(p@),
            Part::Root => PartView::Root,
            Part::Current => PartView::Current,
            Part::Parent => PartView::Parent,
            Part::Name(n) => PartView::Name(n@),
        }
    }
}

/// What a list of components says.
pub open spec fn part_views(parts: Seq<Part>) -> Seq<PartView> {
    Seq::new(parts.len(), |i: int| parts[i]@)
}

/// What an optional list of components says.
pub open spec fn optional_parts(parts: Option<Vec<Part>>) -> Option<Seq<PartView>> {
    match parts {
        Some(p) => Some(part_views(p@)),
        None => None,
    }
}

/// Where `part` leads from the place that `place` resolves to: `..` takes a name back,
/// stays at the root, and is kept where there is nothing to take back.
pub open spec fn step(place: Seq<PartView>, part: PartView) -> Seq<PartView> {
    if part !is Parent || place.len() == 0 {
        place.push(part)
    } else {
        match place.last() {
            PartView::Name(_) => place.drop_last(),
            PartView::Root => place,
            PartView::Current => place.drop_last().push(part),
            PartView::Prefix(_) => place.push(part),
            PartView::Parent => place.push(part),
        }
    }
}

/// Components without the names that a `..` takes back.
pub open spec fn resolved(parts: Seq<PartView>) -> Seq<PartView>
    decreases parts.len(),
{
    if parts.len() == 0 {
        Seq::empty()
    } else {
        step(resolved(parts.drop_last()), parts.last())
    }
}

/// Whether the path `inner` leads to where `outer` leads, or to a place under it.
pub open spec fn leads_inside(inner: Seq<PartView>, outer: Seq<PartView>) -> bool {
    let place = resolved(inner);
    let base = resolved(outer);
    base.len() <= place.len() && place.take(base.len() as int) == base
}

/// The name that a path ends in, where it ends in one.
pub open spec fn file_name(parts: Seq<PartView>) -> Option<Seq<u8>> {
    if parts.len() > 0 {
        match parts.last() {
            PartView::Name(name) => Some(name),
            _ => None,
        }
    } else {
        None
    }
}

/// The name that a path ends in, as text; `command` where it ends in none.
pub open spec fn name_shown(parts: Seq<PartView>) -> Seq<char> {
    match file_name(parts) {
        Some(name) => text::text_of(name),
        None => "command"@,
    }
}

/// An argument taken as a path.
#[derive(Debug)]
pub struct ArgPath {
    /// Whether it leads to the same place from everywhere.
    pub absolute: bool,
    /// Its components.
    pub parts: Vec<Part>,
    /// The components of the path that it makes when it is joined to the current
    /// directory, where that is known.
    pub from_cwd: Option<Vec<Part>>,
}

/// What an [`ArgPath`] says.
pub struct ArgView {
    pub absolute: bool,
    pub parts: Seq<PartView>,
    pub from_cwd: Option<Seq<PartView>>,
}

impl View for ArgPath {
    type V = ArgView;

    open spec fn view(&self) -> ArgView {
        ArgView {
            absolute: self.absolute,
            parts: part_views(self.parts@),
            from_cwd: optional_parts(self.from_cwd),
        }
    }
}

/// What a list of arguments says.
pub open spec fn arg_views(args: Seq<ArgPath>) -> Seq<ArgView> {
    Seq::new(args.len(), |i: int| args[i]@)
}

/// Whether an argument leads inside `fold_dir`: by itself where it is absolute, and from
/// the current directory otherwise. Without a current directory it does not.
pub open spec fn arg_leads_inside(arg: ArgView, fold_dir: Seq<PartView>) -> bool {
    if arg.absolute {
        leads_inside(arg.parts, fold_dir)
    } else {
        match arg.from_cwd {
            Some(parts) => leads_inside(parts, fold_dir),
            None => false,
        }
    }
}

/// Whether any of `args` leads inside `fold_dir`.
pub open spec fn any_leads_inside(args: Seq<ArgView>, fold_dir: Seq<PartView>) -> bool {
    exists|i: int| 0 <= i < args.len() && arg_leads_inside(#[trigger] args[i], fold_dir)
}

fn copy_part(part: &Part) -> (copy: Part)
    ensures
        copy@ == part@,
{
    match part {
        Part::Prefix(p) => Part::Prefix(bytes::copy_bytes(p.as_slice())),
        Part::Root => Part::Root,
        Part::Current => Part::Current,
        Part::Parent => Part::Parent,
        Part::Name(n) => Part::Name(bytes::copy_bytes(n.as_slice())),
    }
}

fn same_part(a: &Part, b: &Part) -> (yes: bool)
    ensures
        yes == (a@ == b@),
{
    match (a, b) {
        (Part::Prefix(p), Part::Prefix(q)) => bytes::bytes_equal(p.as_slice(), q.as_slice()),
        (Part::Root, Part::Root) => true,
        (Part::Current, Part::Current) => true,
        (Part::Parent, Part::Parent) => true,
        (Part::Name(m), Part::Name(n)) => bytes::bytes_equal(m.as_slice(), n.as_slice()),
        _ => false,
    }
}

/// Take one step from `place`.
fn take_step(place: &mut Vec<Part>, part: Part)
    ensures
        part_views(final(place)@) == step(part_views(old(place)@), part@),
{
    let ghost before = part_views(place@);
    let n: usize = place.len();
    let up = match &part {
        Part::Parent => true,
        _ => false,
    };
    if !up || n == 0 {
        place.push(part);
        assert(part_views(place@) =~= before.push(part@));
        return;
    }
    assert(before.last() == place@[n - 1]@);
    match &place[n - 1] {
        Part::Name(_) => {
            place.pop();
            assert(part_views(place@) =~= before.drop_last());
        },
        Part::Root => {},
        Part::Current => {
            place.pop();
            place.push(part);
            assert(part_views(place@) =~= before.drop_last().push(part@));
        },
        _ => {
            place.push(part);
            assert(part_views(place@) =~= before.push(part@));
        },
    }
}

/// Tell from the components of a path where it leads.
pub fn resolve(parts: &Vec<Part>) -> (at: Vec<Part>)
    ensures
        part_views(at@) == resolved(part_views(parts@)),
{
    let ghost all = part_views(parts@);
    let mut at: Vec<Part> = Vec::new();
    let mut i: usize = 0;
    proof {
        assert(all.take(0) =~= Seq::<PartView>::empty());
        assert(part_views(at@) =~= resolved(all.take(0)));
    }
    while i < parts.len()
        invariant
            i <= parts@.len(),
            all == part_views(parts@),
            part_views(at@) == resolved(all.take(i as int)),
        decreases parts@.len() - i,
    {
        let part = copy_part(&parts[i]);
        proof {
            assert(all.take(i + 1).drop_last() =~= all.take(i as int));
            assert(all.take(i + 1).last() == part@);
        }
        take_step(&mut at, part);
        i = i + 1;
    }
    assert(all.take(i as int) =~= all);
    at
}

/// Whether the path `inner` leads to where `outer` leads, or to a place under it.
pub fn parts_lie_inside(inner: &Vec<Part>, outer: &Vec<Part>) -> (yes: bool)
    ensures
        yes == leads_inside(part_views(inner@), part_views(outer@)),
        ({
            let place = resolved(part_views(inner@));
            let base = resolved(part_views(outer@));
            yes <==> base.len() <= place.len() && forall|k: int|
                0 <= k < base.len() ==> #[trigger] place[k] == base[k]
        }),
{
    let place = resolve(inner);
    let base = resolve(outer);
    proof {
        assert(part_views(place@).len() == place@.len());
        assert(part_views(base@).len() == base@.len());
    }
    if base.len() > place.len() {
        return false;
    }
    let mut i: usize = 0;
    while i < base.len()
        invariant
            i <= base@.len() <= place@.len(),
            part_views(place@) == resolved(part_views(inner@)),
            part_views(base@) == resolved(part_views(outer@)),
            forall|k: int| 0 <= k < i ==> place@[k]@ == base@[k]@,
        decreases base@.len() - i,
    {
        if !same_part(&place[i], &base[i]) {
            proof {
                let at = i as int;
                assert(part_views(place@).take(base@.len() as int)[at] == place@[at]@);
                assert(part_views(base@)[at] == base@[at]@);
            }
            return false;
        }
        i = i + 1;
    }
    assert(part_views(place@).take(base@.len() as int) =~= part_views(base@));
    assert forall|k: int| 0 <= k < base@.len() implies #[trigger] part_views(place@)[k]
        == part_views(base@)[k] by {
        assert(place@[k]@ == base@[k]@);
    }
    true
}

/// Whether any of `args` leads inside `fold_dir`: whether an invocation reads back a file
/// that an earlier one folded. Only the arguments are inspected.
pub fn parts_read_fold_dir(args: &Vec<ArgPath>, fold_dir: &Vec<Part>) -> (reads: bool)
    ensures
        reads == any_leads_inside(arg_views(args@), part_views(fold_dir@)),
        forall|i: int|
            0 <= i < args@.len() && arg_leads_inside(
                (#[trigger] args@[i])@,
                part_views(fold_dir@),
            ) ==> reads,
        reads ==> exists|i: int|
            0 <= i < args@.len() && arg_leads_inside(
                (#[trigger] args@[i])@,
                part_views(fold_dir@),
            ),
        forall|i: int|
            0 <= i < args@.len() ==> {
                let arg = #[trigger] args@[i];
                let dir = part_views(fold_dir@);
                &&& arg.absolute && leads_inside(part_views(arg.parts@), dir) ==> reads
                &&& !arg.absolute && arg.from_cwd is Some && leads_inside(
                    part_views(arg.from_cwd->0@),
                    dir,
                ) ==> reads
            },
        reads ==> exists|i: int|
            0 <= i < args@.len() && {
                let arg = #[trigger] args@[i];
                let dir = part_views(fold_dir@);
                if arg.absolute {
                    leads_inside(part_views(arg.parts@), dir)
                } else {
                    arg.from_cwd is Some && leads_inside(part_views(arg.from_cwd->0@), dir)
                }
            },
{
    let mut i: usize = 0;
    while i < args.len()
        invariant
            i <= args@.len(),
            forall|k: int|
                0 <= k < i ==> !arg_leads_inside(
                    #[trigger] arg_views(args@)[k],
                    part_views(fold_dir@),
                ),
            forall|k: int|
                0 <= k < i ==> !arg_leads_inside(
                    (#[trigger] args@[k])@,
                    part_views(fold_dir@),
                ),
            forall|k: int|
                0 <= k < i ==> {
                    let arg = #[trigger] args@[k];
                    let dir = part_views(fold_dir@);
                    if arg.absolute {
                        !leads_inside(part_views(arg.parts@), dir)
                    } else {
                        arg.from_cwd is Some ==> !leads_inside(
                            part_views(arg.from_cwd->0@),
                            dir,
                        )
                    }
                },
        decreases args@.len() - i,
    {
        let arg = &args[i];
        let reads = if arg.absolute {
            parts_lie_inside(&arg.parts, fold_dir)
        } else {
            match &arg.from_cwd {
                Some(parts) => parts_lie_inside(parts, fold_dir),
                None => false,
            }
        };
        assert(arg_views(args@)[i as int] == arg@);
        assert(arg@ == args@[i as int]@);
        if reads {
            return true;
        }
        i = i + 1;
    }
    false
}

/// The name that a path ends in, for display and for file names; `command` where it ends
/// in none.
pub fn basename_of_parts(parts: &Vec<Part>) -> (name: String)
    ensures
        name@ == name_shown(part_views(parts@)),
        parts@.len() > 0 ==> (parts@.last() matches Part::Name(last) ==> name@ == text::text_of(
            last@,
        )),
        parts@.len() == 0 || parts@.last() !is Name ==> name@ == "command"@,
        file_name(part_views(parts@)) matches Some(last) ==> {
            &&& !vstd::utf8::valid_utf8(last) ==> name@.contains(text::REPLACEMENT)
            &&& text::ascii_is_from(name@, last)
        },
{
    let n: usize = parts.len();
    proof {
        assert(part_views(parts@).len() == n);
    }
    if n == 0 {
        return "command".to_owned();
    }
    proof {
        assert(part_views(parts@).last() == parts@[n - 1]@);
    }
    match &parts[n - 1] {
        Part::Name(name) => text::to_text(name.as_slice()),
        _ => "command".to_owned(),
    }
}

/// Leading inside is transitive.
pub proof fn law_leading_inside_is_transitive(
    path: Seq<PartView>,
    middle: Seq<PartView>,
    base: Seq<PartView>,
)
    requires
        leads_inside(path, middle),
        leads_inside(middle, base),
    ensures
        leads_inside(path, base),
{
    let a = resolved(path);
    let b = resolved(middle);
    let c = resolved(base);
    assert(a.take(c.len() as int) =~= a.take(b.len() as int).take(c.len() as int));
}

/// Steps that do not climb lead to a place under the one they start from.
pub proof fn law_descending_leads_inside(base: Seq<PartView>, more: Seq<PartView>)
    requires
        !more.contains(PartView::Parent),
    ensures
        resolved(base + more) == resolved(base) + more,
        leads_inside(base + more, base),
    decreases more.len(),
{
    if more.len() == 0 {
        assert(base + more =~= base);
        assert(resolved(base) + more =~= resolved(base));
    } else {
        let rest = more.drop_last();
        assert(!rest.contains(PartView::Parent)) by {
            if rest.contains(PartView::Parent) {
                let i = choose|i: int| 0 <= i < rest.len() && rest[i] == PartView::Parent;
                assert(more[i] == PartView::Parent);
            }
        }
        assert(more[more.len() - 1] != PartView::Parent);
        law_descending_leads_inside(base, rest);
        assert((base + more).drop_last() =~= base + rest);
        assert(resolved(base + more) =~= resolved(base) + more);
    }
    assert((resolved(base) + more).take(resolved(base).len() as int) =~= resolved(base));
}

/// Climbing out of a directory leads outside it.
pub proof fn law_climbing_leads_outside(base: Seq<PartView>)
    requires
        resolved(base).len() > 0,
        resolved(base).last() is Name,
    ensures
        !leads_inside(base.push(PartView::Parent), base),
{
    let up = base.push(PartView::Parent);
    assert(up.drop_last() =~= base);
    assert(resolved(up) == resolved(base).drop_last());
}

/// What one more component does to where a path leads, whatever the path is: a component
/// other than `..` is put behind, and `..` takes a name back, stays at the root, stands in
/// for the directory itself, and is put behind anything else.
pub proof fn law_one_more_component(path: Seq<PartView>, part: PartView)
    ensures
        ({
            let place = resolved(path);
            let next = resolved(path.push(part));
            &&& part != PartView::Parent ==> next == place.push(part)
            &&& part == PartView::Parent ==> {
                &&& place.len() == 0 ==> next == seq![PartView::Parent]
                &&& place.len() > 0 && place.last() is Name ==> next == place.drop_last()
                &&& place.len() > 0 && place.last() is Root ==> next == place
                &&& place.len() > 0 && place.last() is Current ==> next
                    == place.drop_last().push(PartView::Parent)
                &&& place.len() > 0 && (place.last() is Prefix || place.last() is Parent)
                    ==> next == place.push(PartView::Parent)
            }
        }),
{
    assert(path.push(part).drop_last() =~= path);
    if resolved(path).len() == 0 {
        assert(resolved(path).push(part) =~= seq![part]);
    }
}

/// Leading inside means that every component of the one place is a component of the other,
/// from the first on.
pub proof fn law_inside_means_a_common_start(inner: Seq<PartView>, outer: Seq<PartView>)
    ensures
        leads_inside(inner, outer) <==> {
            &&& resolved(outer).len() <= resolved(inner).len()
            &&& forall|k: int|
                0 <= k < resolved(outer).len() ==> #[trigger] resolved(inner)[k]
                    == resolved(outer)[k]
        },
{
    let a = resolved(inner);
    let b = resolved(outer);
    if b.len() <= a.len() && (forall|k: int| 0 <= k < b.len() ==> #[trigger] a[k] == b[k]) {
        assert(a.take(b.len() as int) =~= b);
    }
    if leads_inside(inner, outer) {
        assert forall|k: int| 0 <= k < b.len() implies #[trigger] a[k] == b[k] by {
            assert(a.take(b.len() as int)[k] == a[k]);
        }
    }
}

/// An absolute argument is judged by itself wherever the command runs, and any other from
/// the current directory alone.
pub proof fn law_arguments_are_judged_where_they_lead(arg: ArgView, fold_dir: Seq<PartView>)
    ensures
        arg.absolute ==> arg_leads_inside(arg, fold_dir) == leads_inside(arg.parts, fold_dir),
        !arg.absolute && arg.from_cwd is None ==> !arg_leads_inside(arg, fold_dir),
        !arg.absolute ==> (arg.from_cwd matches Some(full) ==> arg_leads_inside(arg, fold_dir)
            == leads_inside(full, fold_dir)),
{
}

/// Two components that say the same are the same kind of component and hold the same bytes.
pub proof fn law_components_say_what_they_are(a: Part, b: Part)
    ensures
        a@ == b@ <==> match (a, b) {
            (Part::Prefix(p), Part::Prefix(q)) => p@ == q@,
            (Part::Name(p), Part::Name(q)) => p@ == q@,
            (Part::Root, Part::Root) => true,
            (Part::Current, Part::Current) => true,
            (Part::Parent, Part::Parent) => true,
            _ => false,
        },
{
}

} // verus!
