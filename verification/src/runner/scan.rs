//! Telling text from anything else while a stream goes by.

use vstd::prelude::*;
use vstd::utf8::*;

use crate::bytes;
use crate::runner::spill;
use crate::text;

verus! {

/// What is remembered of a stream to tell whether it is text: whether it has already
/// shown that it is not, and the bytes of a character that has not ended yet.
#[derive(Debug)]
pub struct TextScan {
    spoiled: bool,
    pending: Vec<u8>,
}

/// Whether no stream that starts with `stream` is text.
pub open spec fn hopeless(stream: Seq<u8>) -> bool {
    forall|rest: Seq<u8>| !spill::is_text(#[trigger] (stream + rest))
}

/// Whether `bytes` begin one character and do not end it.
pub open spec fn unended(bytes: Seq<u8>) -> bool {
    1 <= bytes.len() <= 3 && text::lead_wider_than(bytes[0], bytes.len() as int)
}

/// Whether `stream` is valid UTF-8 without NUL up to `pending`, a character that has
/// not ended.
pub open spec fn ends_in(stream: Seq<u8>, pending: Seq<u8>) -> bool {
    let ended = stream.len() - pending.len();
    &&& ended >= 0
    &&& stream.skip(ended) == pending
    &&& spill::is_text(stream.take(ended))
    &&& pending.len() == 0 || unended(pending)
}

impl TextScan {
    /// Whether this is what is to be remembered of `stream`.
    pub closed spec fn has_seen(&self, stream: Seq<u8>) -> bool {
        &&& self.pending@.len() <= 3
        &&& if self.spoiled {
            hopeless(stream)
        } else {
            ends_in(stream, self.pending@)
        }
    }

    /// How many bytes are remembered.
    pub closed spec fn held(&self) -> nat {
        self.pending@.len()
    }

    /// A scan that has seen nothing.
    pub(crate) fn new() -> (scan: TextScan)
        ensures
            scan.has_seen(Seq::empty()),
            scan.held() == 0,
    {
        let scan = TextScan { spoiled: false, pending: Vec::new() };
        proof {
            let none = Seq::<u8>::empty();
            assert(none.skip(0) =~= none);
            assert(none.take(0) =~= none);
            assert(scan.pending@ =~= none);
        }
        scan
    }

    /// Look at the next bytes of the stream.
    pub(crate) fn see(&mut self, chunk: &[u8], Ghost(stream): Ghost<Seq<u8>>)
        requires
            old(self).has_seen(stream),
        ensures
            final(self).has_seen(stream + chunk@),
    {
        if self.spoiled {
            proof {
                lemma_hopeless_stays(stream, chunk@);
            }
            return;
        }
        let mut data = bytes::copy_bytes(self.pending.as_slice());
        bytes::append_bytes(&mut data, chunk);
        let partial: usize = text::find_partial_tail(data.as_slice());
        let ended: usize = data.len() - partial;
        let whole = vstd::slice::slice_subrange(data.as_slice(), 0, ended);
        if spill::payload_is_binary(whole) {
            proof {
                lemma_spoiled(stream, self.pending@, chunk@);
            }
            self.spoiled = true;
        } else {
            proof {
                lemma_still_text(stream, self.pending@, chunk@);
            }
            let rest = data.split_off(ended);
            self.pending = rest;
        }
    }

    /// Whether the stream seen so far is text.
    pub(crate) fn is_text(&self, Ghost(stream): Ghost<Seq<u8>>) -> (yes: bool)
        requires
            self.has_seen(stream),
        ensures
            yes == spill::is_text(stream),
    {
        proof {
            assert(stream + Seq::<u8>::empty() =~= stream);
            if !self.spoiled {
                lemma_unended_is_not_text(stream, self.pending@);
            }
        }
        !self.spoiled && self.pending.len() == 0
    }
}

/// A scan never remembers as much as a whole character.
pub proof fn lemma_remembers_little(scan: &TextScan, stream: Seq<u8>)
    requires
        scan.has_seen(stream),
    ensures
        scan.held() <= 3,
{
}

/// Nothing that follows makes a hopeless stream text.
proof fn lemma_hopeless_stays(stream: Seq<u8>, chunk: Seq<u8>)
    requires
        hopeless(stream),
    ensures
        hopeless(stream + chunk),
{
    assert forall|rest: Seq<u8>| !spill::is_text(#[trigger] (stream + chunk + rest)) by {
        assert(stream + chunk + rest =~= stream + (chunk + rest));
    }
}

/// A stream that ends inside a character is not text yet; one that ends behind a
/// character is.
proof fn lemma_unended_is_not_text(stream: Seq<u8>, pending: Seq<u8>)
    requires
        ends_in(stream, pending),
    ensures
        spill::is_text(stream) <==> pending.len() == 0,
{
    let ended = stream.len() - pending.len();
    if pending.len() == 0 {
        assert(stream.take(ended) =~= stream);
    } else {
        assert(stream.subrange(0, ended) =~= stream.take(ended));
        assert(stream.subrange(ended, stream.len() as int) =~= pending);
        assert(!valid_utf8(pending));
        partial_valid_partial_invalid_utf8(stream, ended);
    }
}

/// What a cut leaves partial is a character that has not ended.
proof fn lemma_partial_is_unended(data: Seq<u8>)
    ensures
        text::partial_tail(data) <= data.len(),
        text::partial_tail(data) > 0 ==> unended(
            data.skip(data.len() - text::partial_tail(data)),
        ),
{
}

/// Valid UTF-8 behind valid UTF-8 is valid on its own.
proof fn lemma_rest_is_valid(front: Seq<u8>, rest: Seq<u8>)
    requires
        valid_utf8(front),
        valid_utf8(front + rest),
    ensures
        valid_utf8(rest),
{
    let all = front + rest;
    let n = front.len() as int;
    assert(all.subrange(0, n) =~= front);
    assert(all.subrange(n, all.len() as int) =~= rest);
    if !valid_utf8(rest) {
        partial_valid_partial_invalid_utf8(all, n);
    }
}

/// Where the ended part of the pending and the new bytes is not text, the stream is
/// hopeless.
proof fn lemma_spoiled(stream: Seq<u8>, pending: Seq<u8>, chunk: Seq<u8>)
    requires
        ends_in(stream, pending),
        ({
            let data = pending + chunk;
            !spill::is_text(data.subrange(0, data.len() - text::partial_tail(data)))
        }),
    ensures
        hopeless(stream + chunk),
{
    let data = pending + chunk;
    let cut = data.len() - text::partial_tail(data);
    let whole = data.subrange(0, cut);
    let front = stream.take(stream.len() - pending.len());
    lemma_partial_is_unended(data);
    assert forall|rest: Seq<u8>| !spill::is_text(#[trigger] (stream + chunk + rest)) by {
        let all = stream + chunk + rest;
        let behind = data + rest;
        assert(all =~= front + behind);
        if spill::is_text(all) {
            lemma_rest_is_valid(front, behind);
            text::lemma_partial_tail_boundary(behind, data.len() as int);
            assert(behind.take(data.len() as int) =~= data);
            valid_utf8_split(behind, cut);
            assert(behind.subrange(0, cut) =~= whole);
            assert(whole.contains(0));
            let i = choose|i: int| 0 <= i < whole.len() && whole[i] == 0;
            assert(all[front.len() + i] == 0);
        }
    }
}

/// Where the ended part of the pending and the new bytes is text, the stream is text up
/// to what the cut leaves partial.
proof fn lemma_still_text(stream: Seq<u8>, pending: Seq<u8>, chunk: Seq<u8>)
    requires
        ends_in(stream, pending),
        ({
            let data = pending + chunk;
            spill::is_text(data.subrange(0, data.len() - text::partial_tail(data)))
        }),
    ensures
        ({
            let data = pending + chunk;
            ends_in(
                stream + chunk,
                data.subrange(data.len() - text::partial_tail(data), data.len() as int),
            )
        }),
{
    let data = pending + chunk;
    let cut = data.len() - text::partial_tail(data);
    lemma_partial_is_unended(data);
    let whole = data.subrange(0, cut);
    let left = data.subrange(cut, data.len() as int);
    let front = stream.take(stream.len() - pending.len());
    let more = stream + chunk;
    let ended = more.len() - left.len();
    assert(more =~= front + data);
    assert(more.skip(ended) =~= left);
    assert(more.take(ended) =~= front + whole);
    valid_utf8_concat(front, whole);
    assert(!(front + whole).contains(0)) by {
        if (front + whole).contains(0) {
            let i = choose|i: int| 0 <= i < (front + whole).len() && (front + whole)[i] == 0;
            if i < front.len() {
                assert(front[i] == 0);
            } else {
                assert(whole[i - front.len()] == 0);
            }
        }
    }
    assert(left =~= data.skip(cut));
}

} // verus!
