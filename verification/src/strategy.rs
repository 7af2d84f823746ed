//! The strategy dispatcher: one pass over the lengths of the strings decides
//! how their masks are aggregated.

use crate::chunks::{byte_length, total_len};
use vstd::prelude::*;

verus! {

/// How the masks of a collection of strings are aggregated.
#[derive(Clone, Copy, Debug, PartialEq, Eq, Structural)]
pub enum Strategy {
    /// One pass over all the strings.
    Sequential,
    /// Chunk by chunk, the chunks in parallel.
    ParallelChunked,
}

/// The strategy for `strings` under `limit`: sequential as long as all the
/// strings together stay within the limit.
pub open spec fn strategy_for(strings: Seq<&str>, limit: nat) -> Strategy {
    if total_len(strings) <= limit {
        Strategy::Sequential
    } else {
        Strategy::ParallelChunked
    }
}

/// Chooses the strategy by adding up the byte lengths of the strings.
///
/// The sum is checked: once it exceeds the limit, or no longer fits the
/// counter, the answer is the chunked strategy and the scan ends.
pub fn select_strategy(strings: &[&str], length_limit: usize) -> (strategy: Strategy)
    ensures
        strategy == strategy_for(strings@, length_limit as nat),
{
    let mut total: usize = 0;
    let mut i: usize = 0;
    while i < strings.len()
        invariant
            i <= strings@.len(),
            total == total_len(strings@.take(i as int)),
            total <= length_limit,
        decreases strings@.len() - i,
    {
        proof {
            assert(strings@.take(i + 1).drop_last() == strings@.take(i as int));
            lemma_total_len_grows(strings@, i + 1);
        }
        match total.checked_add(byte_length(strings[i])) {
            Some(sum) => {
                if sum > length_limit {
                    return Strategy::ParallelChunked;
                }
                total = sum;
            },
            None => {
                return Strategy::ParallelChunked;
            },
        }
        i = i + 1;
    }
    proof {
        assert(strings@.take(i as int) == strings@);
    }
    Strategy::Sequential
}

/// The leading strings of a list never take up more bytes than the whole list.
pub proof fn lemma_total_len_grows(strings: Seq<&str>, n: int)
    requires
        0 <= n <= strings.len(),
    ensures
        total_len(strings.take(n)) <= total_len(strings),
    decreases strings.len() - n,
{
    if n == strings.len() {
        assert(strings.take(n) == strings);
    } else {
        assert(strings.take(n + 1).drop_last() == strings.take(n));
        lemma_total_len_grows(strings, n + 1);
    }
}

} // verus!
