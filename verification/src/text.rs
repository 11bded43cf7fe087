//! Bytes as text: validity, decoding, and cuts that keep characters whole.

use vstd::prelude::*;
use vstd::string::*;
use vstd::utf8::*;

verus! {

/// The error of `std::str::from_utf8`, carried without looking inside.
#[verifier::external_type_specification]
#[verifier::external_body]
pub struct ExUtf8Error(std::str::Utf8Error);

/// `std::str::from_utf8` succeeds exactly on valid UTF-8, and the text it returns
/// is made of the bytes it was given. Nothing is claimed of the error.
pub assume_specification<'a>[ std::str::from_utf8 ](v: &'a [u8]) -> (res: Result<
    &'a str,
    std::str::Utf8Error,
>)
    ensures
        res is Ok <==> valid_utf8(v@),
        res matches Ok(text) ==> text.spec_bytes() == v@,
;

/// What `String::from_utf8_lossy` makes of bytes that are not valid UTF-8.
pub uninterp spec fn lossy_text(bytes: Seq<u8>) -> Seq<char>;

/// The text that `bytes` are shown as: their own characters where they are valid
/// UTF-8, and a lossy decoding where they are not.
pub open spec fn text_of(bytes: Seq<u8>) -> Seq<char> {
    if valid_utf8(bytes) {
        decode_utf8(bytes)
    } else {
        lossy_text(bytes)
    }
}

/// The character that stands for bytes that are no character.
pub const REPLACEMENT: char = '\u{fffd}';

/// Whether every ASCII character of `shown` stands among `bytes`.
pub open spec fn ascii_is_from(shown: Seq<char>, bytes: Seq<u8>) -> bool {
    forall|i: int|
        0 <= i < shown.len() && (#[trigger] shown[i]) as u32 <= 0x7f ==> bytes.contains(
            shown[i] as u8,
        )
}

/// `String::from_utf8_lossy` keeps valid UTF-8 as it is. On other bytes the result
/// depends on nothing but the bytes; it holds a U+FFFD in place of what is invalid, and
/// no ASCII character that the bytes do not hold. Which bytes become U+FFFD is left
/// unsaid.
#[verifier::external_body]
pub(crate) fn decode_lossy(bytes: &[u8]) -> (text: String)
    ensures
        valid_utf8(bytes@) ==> text@ == decode_utf8(bytes@),
        !valid_utf8(bytes@) ==> text@ == lossy_text(bytes@),
        !valid_utf8(bytes@) ==> text@.contains(REPLACEMENT) && ascii_is_from(text@, bytes@),
{
    String::from_utf8_lossy(bytes).into_owned()
}

/// Decode `bytes` for display. Bytes that are no text show a U+FFFD, and no ASCII
/// character that is not among them.
pub fn to_text(bytes: &[u8]) -> (text: String)
    ensures
        text@ == text_of(bytes@),
        valid_utf8(bytes@) ==> encode_utf8(text@) == bytes@,
        !valid_utf8(bytes@) ==> text@ == lossy_text(bytes@),
        !valid_utf8(bytes@) ==> text@.contains('\u{fffd}'),
        !valid_utf8(bytes@) ==> text@.contains(REPLACEMENT),
        ascii_is_from(text@, bytes@),
{
    proof {
        if valid_utf8(bytes@) {
            decode_utf8_encode_utf8(bytes@);
            lemma_decoded_ascii_is_from(bytes@);
        }
    }
    decode_lossy(bytes)
}

/// An ASCII byte stands in the encoding of a character exactly if it is that character.
proof fn lemma_ascii_in_scalar(x: u32, b: u8)
    requires
        is_scalar(x),
        b <= 0x7f,
    ensures
        encode_scalar(x).contains(b) <==> x == b,
{
    assert(x <= 0x7f ==> (x & 0x7f) as u8 == x) by (bit_vector);
    assert((0xc0u8 | ((x >> 6) & 0x1f) as u8) >= 0x80) by (bit_vector);
    assert((0xe0u8 | ((x >> 12) & 0x0f) as u8) >= 0x80) by (bit_vector);
    assert((0xf0u8 | ((x >> 18) & 0x07) as u8) >= 0x80) by (bit_vector);
    assert((0x80u8 | (x & 0x3f) as u8) >= 0x80) by (bit_vector);
    assert((0x80u8 | ((x >> 6) & 0x3f) as u8) >= 0x80) by (bit_vector);
    assert((0x80u8 | ((x >> 12) & 0x3f) as u8) >= 0x80) by (bit_vector);
    if x == b {
        assert(encode_scalar(x)[0] == b);
    }
}

/// Encoded text holds an ASCII byte exactly if the text holds that character.
pub proof fn lemma_ascii_in_encoding(t: Seq<char>, c: char)
    requires
        c as u32 <= 0x7f,
    ensures
        encode_utf8(t).contains(c as u8) <==> t.contains(c),
    decreases t.len(),
{
    if t.len() > 0 {
        let rest = t.drop_first();
        let first = encode_scalar(t[0] as u32);
        let b = c as u8;
        lemma_ascii_in_encoding(rest, c);
        char_is_scalar(t[0]);
        lemma_ascii_in_scalar(t[0] as u32, b);
        let all = encode_utf8(t);
        assert(all == first + encode_utf8(rest));
        if t.contains(c) {
            let i = choose|i: int| 0 <= i < t.len() && t[i] == c;
            if i == 0 {
                let k = choose|k: int| 0 <= k < first.len() && first[k] == b;
                assert(all[k] == b);
            } else {
                assert(rest[i - 1] == c);
                let k = choose|k: int|
                    0 <= k < encode_utf8(rest).len() && encode_utf8(rest)[k] == b;
                assert(all[first.len() + k] == b);
            }
        }
        if all.contains(b) {
            let k = choose|k: int| 0 <= k < all.len() && all[k] == b;
            if k < first.len() {
                assert(first[k] == b);
                char_u32_cast(t[0], b as u32);
                assert(t[0] == c);
            } else {
                assert(encode_utf8(rest)[k - first.len()] == b);
                let i = choose|i: int| 0 <= i < rest.len() && rest[i] == c;
                assert(t[i + 1] == c);
            }
        }
    }
}

/// The ASCII characters of valid UTF-8 stand among its bytes.
proof fn lemma_decoded_ascii_is_from(bytes: Seq<u8>)
    requires
        valid_utf8(bytes),
    ensures
        ascii_is_from(decode_utf8(bytes), bytes),
{
    let shown = decode_utf8(bytes);
    decode_utf8_encode_utf8(bytes);
    assert forall|i: int|
        0 <= i < shown.len() && (#[trigger] shown[i]) as u32 <= 0x7f implies bytes.contains(
        shown[i] as u8,
    ) by {
        lemma_ascii_in_encoding(shown, shown[i]);
    }
}

/// Encoding distributes over concatenation.
pub proof fn lemma_encode_add(a: Seq<char>, b: Seq<char>)
    ensures
        encode_utf8(a + b) == encode_utf8(a) + encode_utf8(b),
    decreases a.len(),
{
    if a.len() == 0 {
        assert(a + b =~= b);
        assert(encode_utf8(a) + encode_utf8(b) =~= encode_utf8(b));
    } else {
        lemma_encode_add(a.drop_first(), b);
        assert((a + b).drop_first() =~= a.drop_first() + b);
        assert(encode_utf8(a + b) =~= encode_utf8(a) + encode_utf8(b));
    }
}

/// Every character prefix ends at a boundary of the encoding.
pub proof fn lemma_prefix_is_boundary(t: Seq<char>, j: int)
    requires
        0 <= j <= t.len(),
    ensures
        is_char_boundary(encode_utf8(t), encode_utf8(t.take(j)).len() as int),
    decreases j,
{
    encode_utf8_valid_utf8(t);
    if j == 0 {
        assert(t.take(0) =~= Seq::<char>::empty());
    } else {
        encode_utf8_first_scalar(t);
        assert(pop_first_scalar(encode_utf8(t)) =~= encode_utf8(t.drop_first()));
        assert(t.take(j).drop_first() =~= t.drop_first().take(j - 1));
        lemma_prefix_is_boundary(t.drop_first(), j - 1);
        lemma_encode_add(t.take(j), t.skip(j));
        assert(t.take(j) + t.skip(j) =~= t);
    }
}

/// A character encodes to one to four bytes.
pub proof fn lemma_encode_char(c: char)
    ensures
        1 <= encode_utf8(seq![c]).len() <= 4,
{
    reveal_with_fuel(encode_utf8, 2);
    assert(seq![c].drop_first() =~= Seq::<char>::empty());
}

/// The longest prefix of `t` that encodes to at most `max` bytes.
pub open spec fn prefix_within(t: Seq<char>, max: nat) -> Seq<char>
    decreases t.len(),
{
    if encode_utf8(t).len() <= max || t.len() == 0 {
        t
    } else {
        prefix_within(t.drop_last(), max)
    }
}

/// The longest suffix of `t` that encodes to at most `max` bytes.
pub open spec fn suffix_within(t: Seq<char>, max: nat) -> Seq<char>
    decreases t.len(),
{
    if encode_utf8(t).len() <= max || t.len() == 0 {
        t
    } else {
        suffix_within(t.drop_first(), max)
    }
}

/// `prefix_within` keeps its limit.
pub proof fn lemma_prefix_within_len(t: Seq<char>, max: nat)
    ensures
        encode_utf8(prefix_within(t, max)).len() <= max,
    decreases t.len(),
{
    if encode_utf8(t).len() > max && t.len() > 0 {
        lemma_prefix_within_len(t.drop_last(), max);
    }
}

/// `suffix_within` keeps its limit.
pub proof fn lemma_suffix_within_len(t: Seq<char>, max: nat)
    ensures
        encode_utf8(suffix_within(t, max)).len() <= max,
    decreases t.len(),
{
    if encode_utf8(t).len() > max && t.len() > 0 {
        lemma_suffix_within_len(t.drop_first(), max);
    }
}

proof fn lemma_prefix_within_is(t: Seq<char>, max: nat, m: int)
    requires
        0 <= m <= t.len(),
        encode_utf8(t.take(m)).len() <= max,
        m == t.len() || encode_utf8(t.take(m + 1)).len() > max,
    ensures
        prefix_within(t, max) == t.take(m),
    decreases t.len(),
{
    if m == t.len() {
        assert(t.take(m) =~= t);
    } else {
        lemma_encode_add(t.take(m + 1), t.skip(m + 1));
        assert(t.take(m + 1) + t.skip(m + 1) =~= t);
        let d = t.drop_last();
        assert(d.take(m) =~= t.take(m));
        if m < d.len() {
            assert(d.take(m + 1) =~= t.take(m + 1));
        }
        lemma_prefix_within_is(d, max, m);
    }
}

proof fn lemma_suffix_within_is(t: Seq<char>, max: nat, m: int)
    requires
        0 <= m <= t.len(),
        encode_utf8(t.skip(m)).len() <= max,
        m == 0 || encode_utf8(t.skip(m - 1)).len() > max,
    ensures
        suffix_within(t, max) == t.skip(m),
    decreases t.len(),
{
    if m == 0 {
        assert(t.skip(m) =~= t);
    } else {
        lemma_encode_add(t.take(m - 1), t.skip(m - 1));
        assert(t.take(m - 1) + t.skip(m - 1) =~= t);
        let d = t.drop_first();
        assert(d.skip(m - 1) =~= t.skip(m));
        if m > 1 {
            assert(d.skip(m - 2) =~= t.skip(m - 1));
        }
        lemma_suffix_within_is(d, max, m - 1);
    }
}

/// Splitting the encoding of `t` at a boundary splits the characters of `t`.
proof fn lemma_split_chars(t: Seq<char>, k: int)
    requires
        is_char_boundary(encode_utf8(t), k),
        0 <= k <= encode_utf8(t).len(),
    ensures
        ({
            let a = decode_utf8(encode_utf8(t).subrange(0, k));
            let b = decode_utf8(encode_utf8(t).subrange(k, encode_utf8(t).len() as int));
            &&& t == a + b
            &&& encode_utf8(a) == encode_utf8(t).subrange(0, k)
            &&& encode_utf8(b) == encode_utf8(t).subrange(k, encode_utf8(t).len() as int)
        }),
{
    let bytes = encode_utf8(t);
    encode_utf8_valid_utf8(t);
    encode_utf8_decode_utf8(t);
    valid_utf8_split(bytes, k);
    decode_utf8_split(bytes, k);
    decode_utf8_encode_utf8(bytes.subrange(0, k));
    decode_utf8_encode_utf8(bytes.subrange(k, bytes.len() as int));
}

/// Keep the longest prefix of `text` that takes at most `max` bytes.
pub fn cap_front(text: String, max: usize) -> (kept: String)
    ensures
        kept@ == prefix_within(text@, max as nat),
        kept@.len() <= text@.len(),
        kept@ == text@.take(kept@.len() as int),
        encode_utf8(kept@).len() <= max,
        kept@.len() == text@.len() || encode_utf8(
            text@.take(kept@.len() + 1int),
        ).len() > max,
{
    let s = text.as_str();
    let len: usize = s.as_bytes().len();
    if len <= max {
        return text;
    }
    let ghost bytes = encode_utf8(text@);
    proof {
        encode_utf8_valid_utf8(text@);
        is_char_boundary_start_end_of_seq(bytes);
    }
    let mut k: usize = max;
    while !s.is_char_boundary(k)
        invariant
            s@ == text@,
            bytes == encode_utf8(text@),
            valid_utf8(bytes),
            is_char_boundary(bytes, 0),
            k <= max < bytes.len(),
            forall|j: int| k < j <= max ==> !is_char_boundary(bytes, j),
        decreases k,
    {
        k = k - 1;
    }
    let (front, _rest) = s.split_at(k);
    proof {
        lemma_split_chars(text@, k as int);
        encode_utf8_decode_utf8(front@);
        let m = front@.len() as int;
        assert(front@ == text@.take(m));
        assert(encode_utf8(front@).len() == k);
        if m < text@.len() {
            lemma_prefix_is_boundary(text@, m + 1);
            lemma_encode_add(text@.take(m), seq![text@[m]]);
            assert(text@.take(m) + seq![text@[m]] =~= text@.take(m + 1));
            lemma_encode_char(text@[m]);
        }
        lemma_prefix_within_is(text@, max as nat, m);
    }
    front.to_owned()
}

/// Keep the longest suffix of `text` that takes at most `max` bytes.
pub fn cap_back(text: String, max: usize) -> (kept: String)
    ensures
        kept@ == suffix_within(text@, max as nat),
        kept@.len() <= text@.len(),
        kept@ == text@.skip(text@.len() - kept@.len()),
        encode_utf8(kept@).len() <= max,
        kept@.len() == text@.len() || encode_utf8(
            text@.skip(text@.len() - kept@.len() - 1),
        ).len() > max,
{
    let s = text.as_str();
    let len: usize = s.as_bytes().len();
    if len <= max {
        return text;
    }
    let ghost bytes = encode_utf8(text@);
    proof {
        encode_utf8_valid_utf8(text@);
        is_char_boundary_start_end_of_seq(bytes);
    }
    let from: usize = len - max;
    let mut k: usize = from;
    while !s.is_char_boundary(k)
        invariant
            s@ == text@,
            bytes == encode_utf8(text@),
            valid_utf8(bytes),
            is_char_boundary(bytes, bytes.len() as int),
            from <= k <= bytes.len(),
            bytes.len() == len,
            forall|j: int| from <= j < k ==> !is_char_boundary(bytes, j),
        decreases len - k,
    {
        k = k + 1;
    }
    let (front, back) = s.split_at(k);
    proof {
        lemma_split_chars(text@, k as int);
        encode_utf8_decode_utf8(front@);
        encode_utf8_decode_utf8(back@);
        let m = front@.len() as int;
        assert(front@ == text@.take(m));
        assert(back@ == text@.skip(m));
        assert(encode_utf8(back@).len() == len - k);
        if m > 0 {
            lemma_prefix_is_boundary(text@, m - 1);
            lemma_encode_add(text@.take(m - 1), text@.skip(m - 1));
            assert(text@.take(m - 1) + text@.skip(m - 1) =~= text@);
            lemma_encode_add(text@.take(m - 1), seq![text@[m - 1]]);
            assert(text@.take(m - 1) + seq![text@[m - 1]] =~= text@.take(m));
            lemma_encode_char(text@[m - 1]);
        }
        lemma_suffix_within_is(text@, max as nat, m);
    }
    back.to_owned()
}

/// How many bytes at the end of `b` begin a character without ending it.
pub open spec fn partial_tail(b: Seq<u8>) -> nat {
    let n = b.len() as int;
    if n >= 1 && lead_wider_than(b[n - 1], 1) {
        1
    } else if n >= 2 && is_continuation_byte(b[n - 1]) && lead_wider_than(b[n - 2], 2) {
        2
    } else if n >= 3 && is_continuation_byte(b[n - 1]) && is_continuation_byte(b[n - 2])
        && lead_wider_than(b[n - 3], 3) {
        3
    } else {
        0
    }
}

/// Whether `byte` leads a character of more than `width` bytes.
pub open spec fn lead_wider_than(byte: u8, width: int) -> bool {
    ||| width < 2 && is_leading_byte_width_2(byte)
    ||| width < 3 && is_leading_byte_width_3(byte)
    ||| width < 4 && is_leading_byte_width_4(byte)
}

/// How many of the first three bytes of `b` continue a character begun earlier.
pub open spec fn partial_head(b: Seq<u8>) -> nat {
    if b.len() < 1 || !is_continuation_byte(b[0]) {
        0
    } else if b.len() < 2 || !is_continuation_byte(b[1]) {
        1
    } else if b.len() < 3 || !is_continuation_byte(b[2]) {
        2
    } else {
        3
    }
}

/// In valid UTF-8 a continuation byte stands at most three bytes behind a lead
/// that is wide enough to reach it.
proof fn lemma_continuation_has_lead(b: Seq<u8>, i: int) -> (d: int)
    requires
        valid_utf8(b),
        0 <= i < b.len(),
        is_continuation_byte(b[i]),
    ensures
        1 <= d <= 3,
        d <= i,
        lead_wider_than(b[i - d], d),
        forall|k: int| i - d < k <= i ==> is_continuation_byte(#[trigger] b[k]),
    decreases b.len(),
{
    let w = length_of_first_scalar(b);
    if i < w {
        i
    } else {
        let rest = pop_first_scalar(b);
        let d = lemma_continuation_has_lead(rest, i - w);
        assert(rest[i - w - d] == b[i - d]);
        assert forall|k: int| i - d < k <= i implies is_continuation_byte(#[trigger] b[k]) by {
            assert(rest[k - w] == b[k]);
        }
        d
    }
}

/// Cutting valid UTF-8 at `n` and dropping what the cut left partial ends at a
/// character boundary.
pub proof fn lemma_partial_tail_boundary(b: Seq<u8>, n: int)
    requires
        valid_utf8(b),
        0 <= n <= b.len(),
    ensures
        is_char_boundary(b, n - partial_tail(b.take(n))),
{
    let p = b.take(n);
    let m = n - partial_tail(p);
    is_char_boundary_start_end_of_seq(b);
    if m < b.len() {
        is_char_boundary_iff_not_is_continuation_byte(b, m);
        if partial_tail(p) == 0 && is_continuation_byte(b[n]) {
            let d = lemma_continuation_has_lead(b, n);
            assert(p[n - d] == b[n - d]);
            assert(d >= 2 ==> is_continuation_byte(b[n - 1]));
            assert(d >= 3 ==> is_continuation_byte(b[n - 2]));
        }
    }
}

/// Cutting valid UTF-8 at `n` and dropping what the cut left partial behind it
/// starts at a character boundary.
pub proof fn lemma_partial_head_boundary(b: Seq<u8>, n: int)
    requires
        valid_utf8(b),
        0 <= n <= b.len(),
    ensures
        n + partial_head(b.skip(n)) <= b.len(),
        is_char_boundary(b, n + partial_head(b.skip(n))),
{
    let p = b.skip(n);
    let m = n + partial_head(p);
    is_char_boundary_start_end_of_seq(b);
    if m < b.len() {
        is_char_boundary_iff_not_is_continuation_byte(b, m);
        if is_continuation_byte(b[m]) {
            assert(p[m - n] == b[m]);
            let d = lemma_continuation_has_lead(b, m);
            assert(p[m - d - n] == b[m - d]);
        }
    }
}

/// In valid UTF-8 the place right behind an ASCII byte is a character boundary.
pub proof fn lemma_boundary_behind_ascii(b: Seq<u8>, n: int)
    requires
        valid_utf8(b),
        0 < n <= b.len(),
        b[n - 1] < 0x80,
    ensures
        is_char_boundary(b, n),
        is_char_boundary(b, n - 1),
{
    is_char_boundary_start_end_of_seq(b);
    is_char_boundary_iff_not_is_continuation_byte(b, n - 1);
    if n < b.len() {
        is_char_boundary_iff_not_is_continuation_byte(b, n);
        if is_continuation_byte(b[n]) {
            let d = lemma_continuation_has_lead(b, n);
            assert(d >= 2 ==> is_continuation_byte(b[n - 1]));
        }
    }
}

fn continues(byte: u8) -> (yes: bool)
    ensures
        yes == is_continuation_byte(byte),
{
    0x80 <= byte && byte <= 0xbf
}

fn leads_past(byte: u8, width: u8) -> (yes: bool)
    requires
        1 <= width <= 3,
    ensures
        yes == lead_wider_than(byte, width as int),
{
    (width < 2 && 0xc0 <= byte && byte <= 0xdf) || (width < 3 && 0xe0 <= byte && byte <= 0xef) || (
    0xf0 <= byte && byte <= 0xf7)
}

/// Count the bytes of a character that a cut at the end of `b` left partial.
pub(crate) fn find_partial_tail(b: &[u8]) -> (n: usize)
    ensures
        n == partial_tail(b@),
        n <= b@.len(),
{
    let n: usize = b.len();
    if n >= 1 && leads_past(b[n - 1], 1) {
        1
    } else if n >= 2 && continues(b[n - 1]) && leads_past(b[n - 2], 2) {
        2
    } else if n >= 3 && continues(b[n - 1]) && continues(b[n - 2]) && leads_past(b[n - 3], 3) {
        3
    } else {
        0
    }
}

/// Count the bytes of a character that a cut at the start of `b` left partial.
pub(crate) fn find_partial_head(b: &[u8]) -> (n: usize)
    ensures
        n == partial_head(b@),
        n <= b@.len(),
{
    if b.len() < 1 || !continues(b[0]) {
        0
    } else if b.len() < 2 || !continues(b[1]) {
        1
    } else if b.len() < 3 || !continues(b[2]) {
        2
    } else {
        3
    }
}

} // verus!
