//! The parallel aggregator: the strings are chunked, every chunk is reduced
//! to a partial mask by a worker, and the partial masks are intersected.
//!
//! Intersection does not depend on the order or the grouping of the masks, so
//! the mask that comes out is the one that a single pass over all the strings
//! gives. Which failure is reported when several chunks fail is left open.

use crate::chunks::{
    chunk_views, chunked, lemma_chunked_covers, Chunker, LENGTH_LIMIT_PER_CHUNK,
};
use crate::combine::{
    combined, common_mask, encodings, find_common_mask, lemma_combined_concat,
    lemma_combined_failure_is_member, lemma_combined_ok, lemma_common_mask_concat, merged, texts,
};
use crate::error::{AggregateError, EncodingError};
use crate::mask::encoding;
use rayon::iter::{ParallelBridge, ParallelIterator};
use vstd::prelude::*;

verus! {

/// The limit that applies: the one given, or the default.
pub open spec fn effective_limit(length_limit: Option<usize>) -> nat {
    match length_limit {
        Some(limit) => limit as nat,
        None => LENGTH_LIMIT_PER_CHUNK as nat,
    }
}

/// A chunker over `strings` with the given length limit, or with the default
/// limit where none is given. A limit of zero is rejected with `None`.
pub fn chunk_strings_by<'a, 's>(strings: &'a [&'s str], length_limit: Option<usize>) -> (chunker:
    Option<Chunker<'a, 's>>)
    ensures
        chunker is Some <==> length_limit != Some(0usize),
        chunker matches Some(c) ==> c.remaining() == strings@ && c.limit() == effective_limit(
            length_limit,
        ),
{
    match length_limit {
        Some(length_limit) => Chunker::with_length_limit(strings, length_limit),
        None => Some(Chunker::new(strings)),
    }
}

/// The mask that every reduction starts from: all symbols.
fn seed_mask() -> (mask: u32)
    ensures
        mask == u32::MAX,
{
    u32::MAX
}

/// Merges two partial masks into their intersection.
fn merge_masks(left: u32, right: u32) -> (intersection: Result<u32, EncodingError>)
    ensures
        intersection == merged(Ok::<u32, EncodingError>(left), Ok(right)),
{
    Ok(left & right)
}

/// The partial result of every chunk: its common mask, or its first failure.
pub open spec fn partial_masks(chunks: Seq<Seq<&str>>) -> Seq<Result<u32, EncodingError>> {
    chunks.map_values(|chunk: Seq<&str>| common_mask(texts(chunk)))
}

/// What a parallel reduction of `partials` may come to. A mask comes out only
/// where no partial result is a failure, and it is their intersection. A
/// failure that comes out is one of the partial results.
pub open spec fn reduction_outcome(
    partials: Seq<Result<u32, EncodingError>>,
    outcome: Result<u32, EncodingError>,
) -> bool {
    match outcome {
        Ok(mask) => combined(partials) == Ok::<u32, EncodingError>(mask),
        Err(error) => exists|i: int|
            0 <= i < partials.len() && #[trigger] partials[i] == Err::<u32, EncodingError>(error),
    }
}

/// Trusted: rayon's `par_bridge`, `map` and `try_reduce`, called in a row.
/// `par_bridge` hands the chunks out to the workers of the thread pool, `map`
/// has each chunk reduced to its partial result by `find_common_mask`, and
/// `try_reduce` merges the partial masks with `merge_masks`, starting from
/// `seed_mask` wherever a worker starts.
///
/// The claim is what rayon documents of `try_reduce`. Where every partial
/// result is a mask, the one mask that they reduce to comes back; the order
/// and the grouping in which the workers merged them do not show, since
/// merging is associative and commutative and the seed is its identity.
/// Where partial results are failures, one of them comes back, and rayon does
/// not say which.
#[verifier::external_body]
fn reduce_chunks(chunks: Vec<Vec<&str>>) -> (outcome: Result<u32, EncodingError>)
    ensures
        reduction_outcome(partial_masks(chunk_views(chunks@)), outcome),
{
    chunks.into_iter().par_bridge().map(|chunk| find_common_mask(&chunk)).try_reduce(
        || seed_mask(),
        |left, right| merge_masks(left, right),
    )
}

/// The mask that the strings have in common, computed chunk by chunk with the
/// chunks in parallel.
///
/// A limit of zero is rejected. Otherwise the call succeeds exactly when every
/// string can be encoded, with the mask that a single pass over the strings
/// gives; where it fails, the failure is that of one of the strings.
pub fn find_common_mask_parallel(strings: &[&str], length_limit: Option<usize>) -> (result: Result<
    u32,
    AggregateError,
>)
    ensures
        length_limit == Some(0usize) <==> result == Err::<u32, AggregateError>(
            AggregateError::ZeroLengthLimit,
        ),
        result is Ok <==> length_limit != Some(0usize) && common_mask(texts(strings@)) is Ok,
        result matches Ok(mask) ==> common_mask(texts(strings@)) == Ok::<u32, EncodingError>(mask),
        result matches Err(AggregateError::Encoding(error)) ==> exists|i: int|
            0 <= i < strings@.len() && #[trigger] encoding(strings@[i]@) == Err::<
                u32,
                EncodingError,
            >(error),
{
    match chunk_strings_by(strings, length_limit) {
        None => Err(AggregateError::ZeroLengthLimit),
        Some(chunker) => {
            let chunks = chunker.collect();
            let outcome = reduce_chunks(chunks);
            proof {
                lemma_partition_agrees(chunk_views(chunks@), outcome);
            }
            reduction_result(outcome)
        },
    }
}

/// The result of an aggregation, given what the reduction of its chunks came
/// to: the mask, or the failure as one of encoding.
pub fn reduction_result(outcome: Result<u32, EncodingError>) -> (result: Result<
    u32,
    AggregateError,
>)
    ensures
        result == match outcome {
            Ok(mask) => Ok::<u32, AggregateError>(mask),
            Err(error) => Err(AggregateError::Encoding(error)),
        },
{
    match outcome {
        Ok(mask) => Ok(mask),
        Err(error) => Err(AggregateError::Encoding(error)),
    }
}

/// The partial results of a list of chunks fold to the common mask of all
/// their strings: cutting a list into chunks changes neither the mask nor the
/// first failure.
pub proof fn lemma_chunks_fold(chunks: Seq<Seq<&str>>)
    ensures
        combined(partial_masks(chunks)) == common_mask(texts(chunks.flatten())),
    decreases chunks.len(),
{
    if chunks.len() > 0 {
        let first = chunks.first();
        let rest = chunks.drop_first();
        let head = seq![common_mask(texts(first))];
        lemma_chunks_fold(rest);
        assert(partial_masks(chunks) == head + partial_masks(rest));
        lemma_combined_concat(head, partial_masks(rest));
        lemma_common_mask_concat(first, rest.flatten());
        assert(combined(head.drop_last()) == Ok::<u32, EncodingError>(u32::MAX));
        if let Ok(mask) = head[0] {
            assert(u32::MAX & mask == mask) by (bit_vector);
        }
        assert(combined(head) == head[0]);
    }
}

/// Every string of every chunk is one of the strings of the flattened list.
pub proof fn lemma_flatten_member(chunks: Seq<Seq<&str>>, i: int, j: int)
    requires
        0 <= i < chunks.len(),
        0 <= j < chunks[i].len(),
    ensures
        exists|k: int|
            0 <= k < chunks.flatten().len() && #[trigger] chunks.flatten()[k] == chunks[i][j],
    decreases chunks.len(),
{
    let first = chunks.first();
    let rest = chunks.drop_first();
    if i == 0 {
        assert(chunks.flatten()[j] == chunks[i][j]);
    } else {
        lemma_flatten_member(rest, i - 1, j);
        let k = choose|k: int|
            0 <= k < rest.flatten().len() && #[trigger] rest.flatten()[k] == rest[i - 1][j];
        assert(chunks.flatten()[first.len() + k] == chunks[i][j]);
    }
}

/// Whatever a parallel reduction over the chunks of a list comes to, it
/// agrees with a single pass over the list: both succeed or both fail, a mask
/// that comes out is the common mask of the list, and a failure that comes
/// out is the failure of one of the strings.
pub proof fn lemma_partition_agrees(chunks: Seq<Seq<&str>>, outcome: Result<u32, EncodingError>)
    requires
        reduction_outcome(partial_masks(chunks), outcome),
    ensures
        outcome is Ok <==> common_mask(texts(chunks.flatten())) is Ok,
        outcome is Ok ==> outcome == common_mask(texts(chunks.flatten())),
        outcome matches Err(error) ==> exists|k: int|
            0 <= k < chunks.flatten().len() && #[trigger] encoding(chunks.flatten()[k]@) == Err::<
                u32,
                EncodingError,
            >(error),
{
    let partials = partial_masks(chunks);
    lemma_chunks_fold(chunks);
    if let Err(error) = outcome {
        let i = choose|i: int|
            0 <= i < partials.len() && #[trigger] partials[i] == Err::<u32, EncodingError>(error);
        lemma_combined_ok(partials);
        let results = encodings(texts(chunks[i]));
        lemma_combined_failure_is_member(results);
        let j = choose|j: int| 0 <= j < results.len() && #[trigger] results[j] == combined(results);
        lemma_flatten_member(chunks, i, j);
        let k = choose|k: int|
            0 <= k < chunks.flatten().len() && #[trigger] chunks.flatten()[k] == chunks[i][j];
        assert(encoding(chunks.flatten()[k]@) == Err::<u32, EncodingError>(error));
    }
}

/// The two strategies agree. Whatever the parallel reduction over the chunks
/// of `strings` under `limit` comes to, it succeeds exactly when the single
/// pass over `strings` succeeds, and then with the same mask.
pub proof fn lemma_strategies_agree(
    strings: Seq<&str>,
    limit: nat,
    outcome: Result<u32, EncodingError>,
)
    requires
        reduction_outcome(partial_masks(chunked(strings, limit)), outcome),
    ensures
        outcome is Ok <==> common_mask(texts(strings)) is Ok,
        outcome is Ok ==> outcome == common_mask(texts(strings)),
{
    lemma_chunked_covers(strings, limit);
    lemma_partition_agrees(chunked(strings, limit), outcome);
}

} // verus!
