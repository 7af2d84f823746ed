//! The common alphabet of a collection of strings, rendered as text.

use crate::chunks::LENGTH_LIMIT_PER_CHUNK;
use crate::combine::{
    common_mask, encodings, find_common_mask, lemma_combined_failure_is_member,
    lemma_common_mask_of_none, texts,
};
use crate::error::{AggregateError, EncodingError};
use crate::mask::encoding;
use crate::parallel::{effective_limit, find_common_mask_parallel};
use crate::render::{lemma_full_mask_renders_every_symbol, mask_to_chars, rendering};
use crate::strategy::{select_strategy, strategy_for, Strategy};
use vstd::prelude::*;

verus! {

/// The symbols that all of `texts` have in common, rendered in ascending bit
/// order, or the failure of the first text that cannot be encoded.
pub open spec fn common_alphabet(texts: Seq<Seq<char>>) -> Result<Seq<char>, EncodingError> {
    match common_mask(texts) {
        Ok(mask) => Ok(rendering(mask)),
        Err(error) => Err(error),
    }
}

/// No texts at all have every symbol in common.
pub proof fn lemma_common_alphabet_of_none()
    ensures
        common_alphabet(Seq::empty()) == Ok::<Seq<char>, EncodingError>(
            " abcdefghijklmnopqrstuvwxyz.,'-\""@,
        ),
{
    lemma_common_mask_of_none();
    lemma_full_mask_renders_every_symbol();
}

/// Renders the mask of an aggregation as text and hands a failure on as it is.
pub fn render_outcome(outcome: Result<u32, AggregateError>) -> (result: Result<
    String,
    AggregateError,
>)
    ensures
        match outcome {
            Ok(mask) => result matches Ok(text) && text@ == rendering(mask),
            Err(error) => result matches Err(e) && e == error,
        },
{
    match outcome {
        Ok(mask) => Ok(mask_to_chars(mask)),
        Err(error) => Err(error),
    }
}

/// The symbols that all of `strings` have in common, as text in ascending bit
/// order. No strings at all have every symbol in common.
///
/// `length_limit` is the number of bytes up to which the strings are handled
/// in one pass, and the size of a chunk beyond that; without one the default
/// applies. A limit of zero is rejected. Otherwise the call succeeds exactly
/// when every string can be encoded. A failure is that of one of the strings,
/// and in the single pass it is the first one in order.
pub fn common_alphabets(strings: &[&str], length_limit: Option<usize>) -> (result: Result<
    String,
    AggregateError,
>)
    ensures
        length_limit == Some(0usize) <==> (result matches Err(e) && e
            == AggregateError::ZeroLengthLimit),
        result is Ok <==> length_limit != Some(0usize) && common_mask(texts(strings@)) is Ok,
        result matches Ok(text) ==> common_alphabet(texts(strings@)) == Ok::<
            Seq<char>,
            EncodingError,
        >(text@),
        result matches Err(AggregateError::Encoding(error)) ==> exists|i: int|
            0 <= i < strings@.len() && #[trigger] encoding(strings@[i]@) == Err::<
                u32,
                EncodingError,
            >(error),
        strategy_for(strings@, effective_limit(length_limit)) == Strategy::Sequential ==> (result
            matches Err(AggregateError::Encoding(error)) ==> common_mask(texts(strings@)) == Err::<
            u32,
            EncodingError,
        >(error)),
{
    let limit = match length_limit {
        Some(limit) => limit,
        None => LENGTH_LIMIT_PER_CHUNK,
    };
    if limit == 0 {
        return Err(AggregateError::ZeroLengthLimit);
    }
    let outcome = match select_strategy(strings, limit) {
        Strategy::Sequential => match find_common_mask(strings) {
            Ok(mask) => Ok(mask),
            Err(error) => {
                proof {
                    lemma_combined_failure_is_member(encodings(texts(strings@)));
                }
                Err(AggregateError::Encoding(error))
            },
        },
        Strategy::ParallelChunked => find_common_mask_parallel(strings, Some(limit)),
    };
    render_outcome(outcome)
}

} // verus!
