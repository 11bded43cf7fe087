//! Newline counting and line-bounded prefixes and suffixes of byte strings.

use vstd::prelude::*;

verus! {

/// The line feed that ends a line.
pub const NEWLINE: u8 = 10;

/// The number of line feeds in `s`.
pub open spec fn count_newlines(s: Seq<u8>) -> nat
    decreases s.len(),
{
    if s.len() == 0 {
        0
    } else {
        count_newlines(s.drop_last()) + (if s.last() == NEWLINE {
            1nat
        } else {
            0nat
        })
    }
}

/// The count is how many of the bytes are line feeds.
pub proof fn law_count_is_how_many_line_feeds(s: Seq<u8>)
    ensures
        count_newlines(s) == s.filter(|b: u8| b == 10).len(),
    decreases s.len(),
{
    reveal(Seq::filter);
    if s.len() > 0 {
        law_count_is_how_many_line_feeds(s.drop_last());
    }
}

/// Counting distributes over concatenation.
pub proof fn lemma_count_add(a: Seq<u8>, b: Seq<u8>)
    ensures
        count_newlines(a + b) == count_newlines(a) + count_newlines(b),
    decreases b.len(),
{
    if b.len() == 0 {
        assert(a + b =~= a);
    } else {
        lemma_count_add(a, b.drop_last());
        assert((a + b).drop_last() =~= a + b.drop_last());
    }
}

/// A byte string holds at most one line feed per byte.
pub proof fn lemma_count_bound(s: Seq<u8>)
    ensures
        count_newlines(s) <= s.len(),
    decreases s.len(),
{
    if s.len() > 0 {
        lemma_count_bound(s.drop_last());
    }
}

/// Dropping more from the front never adds line feeds.
pub proof fn lemma_count_skip_monotone(s: Seq<u8>, i: int, j: int)
    requires
        0 <= i <= j <= s.len(),
    ensures
        count_newlines(s.skip(j)) <= count_newlines(s.skip(i)),
{
    lemma_count_add(s.subrange(i, j), s.skip(j));
    assert(s.subrange(i, j) + s.skip(j) =~= s.skip(i));
}

/// Taking more from the front never loses line feeds.
pub proof fn lemma_count_take_monotone(s: Seq<u8>, i: int, j: int)
    requires
        0 <= i <= j <= s.len(),
    ensures
        count_newlines(s.take(i)) <= count_newlines(s.take(j)),
{
    lemma_count_add(s.take(i), s.subrange(i, j));
    assert(s.take(i) + s.subrange(i, j) =~= s.take(j));
}

/// One byte more at the front of a suffix counts one more line feed exactly when
/// that byte is one.
pub proof fn lemma_count_skip_step(s: Seq<u8>, i: int)
    requires
        0 <= i < s.len(),
    ensures
        count_newlines(s.skip(i)) == count_newlines(s.skip(i + 1)) + (if s[i] == NEWLINE {
            1nat
        } else {
            0nat
        }),
{
    reveal_with_fuel(count_newlines, 2);
    lemma_count_add(seq![s[i]], s.skip(i + 1));
    assert(seq![s[i]] + s.skip(i + 1) =~= s.skip(i));
    assert(seq![s[i]].drop_last() =~= Seq::<u8>::empty());
}

/// The first index at or after `from` whose suffix holds at most `max` line
/// feeds: where the longest such suffix of `s.skip(from)` starts.
pub open spec fn suffix_start(s: Seq<u8>, from: int, max: nat) -> int
    decreases s.len() - from,
{
    if from >= s.len() || count_newlines(s.skip(from)) <= max {
        from
    } else {
        suffix_start(s, from + 1, max)
    }
}

/// `suffix_start` is the index that keeps the limit and whose predecessor breaks it.
pub proof fn lemma_suffix_start_is(s: Seq<u8>, from: int, max: nat, i: int)
    requires
        0 <= from <= i <= s.len(),
        count_newlines(s.skip(i)) <= max,
        i == from || count_newlines(s.skip(i - 1)) > max,
    ensures
        suffix_start(s, from, max) == i,
    decreases i - from,
{
    if from < i {
        lemma_count_skip_monotone(s, from, i - 1);
        lemma_suffix_start_is(s, from + 1, max, i);
    }
}

/// Where `suffix_start` lies, that its suffix keeps the limit, and that one byte
/// more would break it.
pub proof fn lemma_suffix_start(s: Seq<u8>, from: int, max: nat)
    requires
        0 <= from <= s.len(),
    ensures
        from <= suffix_start(s, from, max) <= s.len(),
        count_newlines(s.skip(suffix_start(s, from, max))) <= max,
        suffix_start(s, from, max) > from ==> {
            &&& s[suffix_start(s, from, max) - 1] == NEWLINE
            &&& count_newlines(s.skip(suffix_start(s, from, max))) == max
        },
    decreases s.len() - from,
{
    if from >= s.len() {
        assert(s.skip(from) =~= Seq::<u8>::empty());
    } else if count_newlines(s.skip(from)) > max {
        lemma_suffix_start(s, from + 1, max);
        lemma_count_skip_step(s, from);
    }
}

/// The length of the longest prefix of `s` with at most `max` line feeds.
pub open spec fn prefix_end(s: Seq<u8>, max: nat) -> int
    decreases s.len(),
{
    if count_newlines(s) <= max || s.len() == 0 {
        s.len() as int
    } else {
        prefix_end(s.drop_last(), max)
    }
}

/// `prefix_end` is the length that keeps the limit and whose successor breaks it.
pub proof fn lemma_prefix_end_is(s: Seq<u8>, max: nat, e: int)
    requires
        0 <= e <= s.len(),
        count_newlines(s.take(e)) <= max,
        e == s.len() || count_newlines(s.take(e + 1)) > max,
    ensures
        prefix_end(s, max) == e,
    decreases s.len(),
{
    if e == s.len() {
        assert(s.take(e) =~= s);
    } else {
        lemma_count_take_monotone(s, e + 1, s.len() as int);
        assert(s.take(s.len() as int) =~= s);
        let t = s.drop_last();
        assert(t.take(e) =~= s.take(e));
        if e < t.len() {
            assert(t.take(e + 1) =~= s.take(e + 1));
        }
        lemma_prefix_end_is(t, max, e);
    }
}

/// Where `prefix_end` lies and that its prefix keeps the limit.
pub proof fn lemma_prefix_end(s: Seq<u8>, max: nat)
    ensures
        0 <= prefix_end(s, max) <= s.len(),
        count_newlines(s.take(prefix_end(s, max))) <= max,
        prefix_end(s, max) < s.len() ==> {
            &&& s[prefix_end(s, max)] == NEWLINE
            &&& count_newlines(s.take(prefix_end(s, max))) == max
        },
    decreases s.len(),
{
    if count_newlines(s) <= max || s.len() == 0 {
        assert(s.take(s.len() as int) =~= s);
    } else {
        let t = s.drop_last();
        lemma_prefix_end(t, max);
        assert(t.take(prefix_end(t, max)) =~= s.take(prefix_end(t, max)));
        assert(t.take(t.len() as int) =~= t);
    }
}

/// Count the line feeds in `bytes`.
pub(crate) fn newline_count(bytes: &[u8]) -> (n: usize)
    ensures
        n == count_newlines(bytes@),
{
    let mut n: usize = 0;
    let mut i: usize = 0;
    assert(bytes@.take(0) =~= Seq::<u8>::empty());
    while i < bytes.len()
        invariant
            i <= bytes@.len(),
            n == count_newlines(bytes@.take(i as int)),
            n <= i,
        decreases bytes@.len() - i,
    {
        assert(bytes@.take(i + 1).drop_last() =~= bytes@.take(i as int));
        if bytes[i] == NEWLINE {
            n = n + 1;
        }
        i = i + 1;
    }
    assert(bytes@.take(i as int) =~= bytes@);
    n
}

/// Find where the longest suffix of `bytes[from..]` with at most `max` line feeds
/// starts.
pub(crate) fn find_suffix_start(bytes: &[u8], from: usize, max: usize) -> (start: usize)
    requires
        from <= bytes@.len(),
    ensures
        start == suffix_start(bytes@, from as int, max as nat),
        from <= start <= bytes@.len(),
{
    let mut i: usize = bytes.len();
    let mut seen: usize = 0;
    assert(bytes@.skip(i as int) =~= Seq::<u8>::empty());
    while i > from
        invariant
            from <= i <= bytes@.len(),
            seen == count_newlines(bytes@.skip(i as int)),
            seen <= max,
        decreases i,
    {
        proof {
            lemma_count_skip_step(bytes@, i - 1);
        }
        if bytes[i - 1] == NEWLINE {
            if seen == max {
                proof {
                    lemma_suffix_start_is(bytes@, from as int, max as nat, i as int);
                }
                return i;
            }
            seen = seen + 1;
        }
        i = i - 1;
    }
    proof {
        lemma_suffix_start_is(bytes@, from as int, max as nat, i as int);
    }
    i
}

/// Find the length of the longest prefix of `bytes` with at most `max` line feeds.
pub(crate) fn find_prefix_end(bytes: &[u8], max: usize) -> (end: usize)
    ensures
        end == prefix_end(bytes@, max as nat),
        end <= bytes@.len(),
{
    let mut i: usize = 0;
    let mut seen: usize = 0;
    assert(bytes@.take(0) =~= Seq::<u8>::empty());
    while i < bytes.len()
        invariant
            i <= bytes@.len(),
            seen == count_newlines(bytes@.take(i as int)),
            seen <= max,
        decreases bytes@.len() - i,
    {
        assert(bytes@.take(i + 1).drop_last() =~= bytes@.take(i as int));
        if bytes[i] == NEWLINE {
            if seen == max {
                proof {
                    lemma_prefix_end_is(bytes@, max as nat, i as int);
                }
                return i;
            }
            seen = seen + 1;
        }
        i = i + 1;
    }
    proof {
        lemma_prefix_end_is(bytes@, max as nat, i as int);
    }
    i
}

/// Whether two byte strings hold the same bytes.
pub(crate) fn bytes_equal(a: &[u8], b: &[u8]) -> (same: bool)
    ensures
        same == (a@ == b@),
{
    if a.len() != b.len() {
        return false;
    }
    let mut i: usize = 0;
    while i < a.len()
        invariant
            i <= a@.len(),
            a@.len() == b@.len(),
            forall|k: int| 0 <= k < i ==> a@[k] == b@[k],
        decreases a@.len() - i,
    {
        if a[i] != b[i] {
            return false;
        }
        i = i + 1;
    }
    assert(a@ =~= b@);
    true
}

/// Append `other` to `buf`.
pub(crate) fn append_bytes(buf: &mut Vec<u8>, other: &[u8])
    ensures
        final(buf)@ == old(buf)@ + other@,
{
    buf.extend_from_slice(other);
    assert(buf@ =~= old(buf)@ + other@);
}

/// Copy `bytes` into a vector of its own.
pub(crate) fn copy_bytes(bytes: &[u8]) -> (copy: Vec<u8>)
    ensures
        copy@ == bytes@,
{
    vstd::slice::slice_to_vec(bytes)
}

} // verus!
