//! Token estimates from byte counts.

use vstd::prelude::*;

verus! {

/// How many bytes are taken for one token.
pub const BYTES_PER_TOKEN: usize = 4;

/// The estimated token count of `len` bytes: one token per four bytes, a started
/// group counting in full.
pub open spec fn estimated_tokens(len: nat) -> nat {
    (len + 3) / 4
}

/// Estimate the token count of `len` bytes.
pub fn estimate_tokens_len(len: usize) -> (tokens: usize)
    ensures
        tokens == estimated_tokens(len as nat),
        tokens == (len + 3) / 4,
{
    let whole: usize = len / BYTES_PER_TOKEN;
    if len % BYTES_PER_TOKEN == 0 {
        whole
    } else {
        whole + 1
    }
}

/// The estimate is the fewest groups of four that hold all the bytes.
pub proof fn law_estimate_counts_started_groups(len: nat)
    ensures
        4 * estimated_tokens(len) >= len,
        len > 0 ==> 4 * (estimated_tokens(len) - 1) < len,
        len == 0 ==> estimated_tokens(len) == 0,
{
}

/// More bytes never estimate to fewer tokens.
pub proof fn law_estimate_is_monotone(a: nat, b: nat)
    requires
        a <= b,
    ensures
        estimated_tokens(a) <= estimated_tokens(b),
{
}

} // verus!
