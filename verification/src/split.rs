//! Splitting a sequence at a separator.

use vstd::prelude::*;

verus! {

/// The pieces of `s` between the occurrences of `sep`, empty ones included. There is
/// always at least one.
pub open spec fn split<T>(s: Seq<T>, sep: T) -> Seq<Seq<T>>
    decreases s.len(),
{
    if s.len() == 0 {
        seq![Seq::empty()]
    } else {
        let before = split(s.drop_last(), sep);
        if s.last() == sep {
            before.push(Seq::empty())
        } else {
            before.drop_last().push(before.last().push(s.last()))
        }
    }
}

/// There is always a piece.
pub proof fn lemma_split_nonempty<T>(s: Seq<T>, sep: T)
    ensures
        split(s, sep).len() > 0,
    decreases s.len(),
{
    if s.len() > 0 {
        lemma_split_nonempty(s.drop_last(), sep);
    }
}

/// No piece holds the separator.
pub proof fn lemma_pieces_hold_no_separator<T>(s: Seq<T>, sep: T)
    ensures
        forall|i: int|
            0 <= i < split(s, sep).len() ==> !(#[trigger] split(s, sep)[i]).contains(sep),
    decreases s.len(),
{
    if s.len() > 0 {
        let before = split(s.drop_last(), sep);
        lemma_pieces_hold_no_separator(s.drop_last(), sep);
        lemma_split_nonempty(s.drop_last(), sep);
        assert(!before.last().contains(sep));
        if s.last() != sep {
            let grown = before.last().push(s.last());
            assert(!grown.contains(sep)) by {
                if grown.contains(sep) {
                    let i = choose|i: int| 0 <= i < grown.len() && grown[i] == sep;
                    assert(before.last()[i] == sep);
                }
            }
        }
    }
}

/// Piece `k` of `s` stands in `s` at the place returned: behind a separator or at the
/// start, and up to a separator or to the end.
pub proof fn lemma_piece_stands<T>(s: Seq<T>, sep: T, k: int) -> (at: int)
    requires
        0 <= k < split(s, sep).len(),
    ensures
        ({
            let piece = split(s, sep)[k];
            &&& 0 <= at && at + piece.len() <= s.len()
            &&& s.subrange(at, at + piece.len()) == piece
            &&& at == 0 || s[at - 1] == sep
            &&& k + 1 < split(s, sep).len() ==> at + piece.len() < s.len() && s[at
                + piece.len()] == sep
            &&& k + 1 == split(s, sep).len() ==> at + piece.len() == s.len()
        }),
    decreases s.len(),
{
    let pieces = split(s, sep);
    if s.len() == 0 {
        assert(s.subrange(0, 0) =~= pieces[k]);
        0
    } else {
        let rest = s.drop_last();
        let before = split(rest, sep);
        lemma_split_nonempty(rest, sep);
        if s.last() == sep && k + 1 == pieces.len() {
            assert(s.subrange(s.len() as int, s.len() as int) =~= pieces[k]);
            s.len() as int
        } else {
            let at = lemma_piece_stands(rest, sep, k);
            let old = before[k];
            if s.last() != sep && k + 1 == pieces.len() {
                assert(pieces[k] == old.push(s.last()));
                assert(s.subrange(at, at + old.len() + 1) =~= old.push(s.last()));
            } else {
                assert(pieces[k] == old);
                assert(s.subrange(at, at + old.len()) =~= rest.subrange(at, at + old.len()));
            }
            at
        }
    }
}

/// What stands between two separators, or between one and an end of `s`, and holds none
/// is a piece.
pub proof fn lemma_line_is_a_piece<T>(s: Seq<T>, sep: T, from: int, to: int) -> (k: int)
    requires
        0 <= from <= to <= s.len(),
        from == 0 || s[from - 1] == sep,
        to == s.len() || s[to] == sep,
        !s.subrange(from, to).contains(sep),
    ensures
        0 <= k < split(s, sep).len(),
        split(s, sep)[k] == s.subrange(from, to),
        k + 1 < split(s, sep).len() <==> to < s.len(),
{
    let line = s.subrange(from, to);
    lemma_split_without_sep(line, sep);
    let tail = s.skip(from);
    if to < s.len() {
        assert(tail =~= line.push(sep) + s.skip(to + 1));
        lemma_split_concat(line, sep, s.skip(to + 1));
        lemma_split_nonempty(s.skip(to + 1), sep);
    } else {
        assert(tail =~= line);
    }
    if from == 0 {
        assert(tail =~= s);
        0
    } else {
        let head = s.take(from - 1);
        assert(s =~= head.push(sep) + tail);
        lemma_split_concat(head, sep, tail);
        split(head, sep).len() as int
    }
}

/// A sequence without the separator is its own only piece.
pub proof fn lemma_split_without_sep<T>(s: Seq<T>, sep: T)
    requires
        !s.contains(sep),
    ensures
        split(s, sep) == seq![s],
    decreases s.len(),
{
    if s.len() == 0 {
        assert(s =~= Seq::empty());
    } else {
        assert(!s.drop_last().contains(sep)) by {
            if s.drop_last().contains(sep) {
                let i = choose|i: int| 0 <= i < s.len() - 1 && s.drop_last()[i] == sep;
                assert(s[i] == sep);
            }
        }
        assert(s[s.len() - 1] != sep);
        lemma_split_without_sep(s.drop_last(), sep);
        assert(s.drop_last().push(s.last()) =~= s);
        assert(split(s, sep) =~= seq![s]);
    }
}

/// Splitting at a separator in the middle splits the two sides on their own.
pub proof fn lemma_split_concat<T>(a: Seq<T>, sep: T, b: Seq<T>)
    ensures
        split(a.push(sep) + b, sep) == split(a, sep) + split(b, sep),
    decreases b.len(),
{
    let whole = a.push(sep) + b;
    if b.len() == 0 {
        assert(whole =~= a.push(sep));
        assert(whole.drop_last() =~= a);
        assert(split(whole, sep) =~= split(a, sep) + split(b, sep));
    } else {
        lemma_split_concat(a, sep, b.drop_last());
        lemma_split_nonempty(b.drop_last(), sep);
        assert(whole.drop_last() =~= a.push(sep) + b.drop_last());
        assert(split(whole, sep) =~= split(a, sep) + split(b, sep));
    }
}

} // verus!
