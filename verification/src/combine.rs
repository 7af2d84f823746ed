//! The mask combiner: many masks in, their intersection out.
//!
//! Masks are intersected with bitwise AND, starting from the mask with every
//! bit set, so that no masks at all give every symbol. The first failure in
//! order ends the fold and is the result.

use crate::error::EncodingError;
use crate::mask::{encoding, mask_string};
use vstd::prelude::*;

verus! {

/// The left-to-right intersection of `results`: the first failure in order,
/// or the bitwise AND of all the masks where none failed.
pub open spec fn combined<E>(results: Seq<Result<u32, E>>) -> Result<u32, E>
    decreases results.len(),
{
    if results.len() == 0 {
        Ok(u32::MAX)
    } else {
        match combined(results.drop_last()) {
            Err(e) => Err(e),
            Ok(lower) => match results.last() {
                Ok(mask) => Ok(lower & mask),
                Err(e) => Err(e),
            },
        }
    }
}

/// The texts of a list of strings.
pub open spec fn texts(strings: Seq<&str>) -> Seq<Seq<char>> {
    strings.map_values(|string: &str| string@)
}

/// What each text encodes to.
pub open spec fn encodings(texts: Seq<Seq<char>>) -> Seq<Result<u32, EncodingError>> {
    texts.map_values(|text: Seq<char>| encoding(text))
}

/// The mask of the symbols that all of `texts` have in common, or the failure
/// of the first text that cannot be encoded.
pub open spec fn common_mask(texts: Seq<Seq<char>>) -> Result<u32, EncodingError> {
    combined(encodings(texts))
}

/// Intersects `masks` from left to right and stops at the first failure.
pub fn intersect_masks<E: Copy>(masks: &[Result<u32, E>]) -> (result: Result<u32, E>)
    ensures
        result == combined(masks@),
{
    let mut common: u32 = u32::MAX;
    let mut i: usize = 0;
    while i < masks.len()
        invariant
            i <= masks@.len(),
            combined(masks@.take(i as int)) == Ok::<u32, E>(common),
        decreases masks@.len() - i,
    {
        proof {
            assert(masks@.take(i + 1).drop_last() == masks@.take(i as int));
        }
        match masks[i] {
            Ok(mask) => {
                common = common & mask;
            },
            Err(error) => {
                proof {
                    lemma_combined_stops(masks@, i + 1);
                }
                return Err(error);
            },
        }
        i = i + 1;
    }
    proof {
        assert(masks@.take(i as int) == masks@);
    }
    Ok(common)
}

/// The mask that the strings have in common, encoding one string after the
/// other and stopping at the first that fails.
pub fn find_common_mask(strings: &[&str]) -> (result: Result<u32, EncodingError>)
    ensures
        result == common_mask(texts(strings@)),
{
    let ghost results = encodings(texts(strings@));
    let mut common: u32 = u32::MAX;
    let mut i: usize = 0;
    while i < strings.len()
        invariant
            i <= strings@.len(),
            results == encodings(texts(strings@)),
            combined(results.take(i as int)) == Ok::<u32, EncodingError>(common),
        decreases strings@.len() - i,
    {
        proof {
            assert(results.take(i + 1).drop_last() == results.take(i as int));
        }
        match mask_string(strings[i]) {
            Ok(mask) => {
                common = common & mask;
            },
            Err(error) => {
                proof {
                    lemma_combined_stops(results, i + 1);
                }
                return Err(error);
            },
        }
        i = i + 1;
    }
    proof {
        assert(results.take(i as int) == results);
    }
    Ok(common)
}

/// A failure among the first `n` results is the result of the whole fold:
/// nothing after it is looked at.
pub proof fn lemma_combined_stops<E>(results: Seq<Result<u32, E>>, n: int)
    requires
        0 <= n <= results.len(),
        combined(results.take(n)) is Err,
    ensures
        combined(results) == combined(results.take(n)),
    decreases results.len() - n,
{
    if n == results.len() {
        assert(results.take(n) == results);
    } else {
        assert(results.take(n + 1).drop_last() == results.take(n));
        lemma_combined_stops(results, n + 1);
    }
}

/// How two partial results merge: the left failure first, then the right
/// one, and the AND of the masks where neither failed.
pub open spec fn merged<E>(left: Result<u32, E>, right: Result<u32, E>) -> Result<u32, E> {
    match left {
        Err(e) => Err(e),
        Ok(lower) => match right {
            Ok(mask) => Ok(lower & mask),
            Err(e) => Err(e),
        },
    }
}

/// The mask with every bit set is the identity of merging: it stands for no
/// constraint at all.
pub proof fn lemma_merged_identity(result: Result<u32, EncodingError>)
    ensures
        merged(Ok(u32::MAX), result) == result,
        merged(result, Ok(u32::MAX)) == result,
{
    if let Ok(mask) = result {
        assert(u32::MAX & mask == mask) by (bit_vector);
        assert(mask & u32::MAX == mask) by (bit_vector);
    }
}

/// Merging is associative: how partial results are grouped does not matter.
pub proof fn lemma_merged_associative(
    a: Result<u32, EncodingError>,
    b: Result<u32, EncodingError>,
    c: Result<u32, EncodingError>,
)
    ensures
        merged(merged(a, b), c) == merged(a, merged(b, c)),
{
    if let Ok(x) = a {
        if let Ok(y) = b {
            if let Ok(z) = c {
                assert((x & y) & z == x & (y & z)) by (bit_vector);
            }
        }
    }
}

/// Merging two masks is commutative: in which order they arrive does not
/// matter.
pub proof fn lemma_merged_commutative(left: u32, right: u32)
    ensures
        merged(Ok::<u32, EncodingError>(left), Ok(right)) == merged(
            Ok::<u32, EncodingError>(right),
            Ok(left),
        ),
{
    assert(left & right == right & left) by (bit_vector);
}

/// No results at all fold to the mask with every bit set, and so do no texts.
pub proof fn lemma_common_mask_of_none()
    ensures
        combined(Seq::<Result<u32, EncodingError>>::empty()) == Ok::<u32, EncodingError>(u32::MAX),
        common_mask(Seq::empty()) == Ok::<u32, EncodingError>(u32::MAX),
{
}

/// The fold succeeds exactly when every result is a mask.
pub proof fn lemma_combined_ok<E>(results: Seq<Result<u32, E>>)
    ensures
        combined(results) is Ok <==> forall|i: int|
            0 <= i < results.len() ==> (#[trigger] results[i]) is Ok,
    decreases results.len(),
{
    if results.len() > 0 {
        let front = results.drop_last();
        lemma_combined_ok(front);
        if combined(results) is Ok {
            assert forall|i: int| 0 <= i < results.len() implies (#[trigger] results[i]) is Ok by {
                if i < front.len() {
                    assert(front[i] == results[i]);
                }
            }
        }
    }
}

/// A fold that fails reports the first failure in order.
pub proof fn lemma_combined_first_failure<E>(results: Seq<Result<u32, E>>, i: int)
    requires
        0 <= i < results.len(),
        results[i] is Err,
        forall|j: int| 0 <= j < i ==> (#[trigger] results[j]) is Ok,
    ensures
        combined(results) == results[i],
{
    let before = results.take(i);
    assert forall|j: int| 0 <= j < before.len() implies (#[trigger] before[j]) is Ok by {
        assert(before[j] == results[j]);
    }
    lemma_combined_ok(before);
    assert(results.take(i + 1).drop_last() == before);
    lemma_combined_stops(results, i + 1);
}

/// A fold that fails reports the failure of one of its results.
pub proof fn lemma_combined_failure_is_member<E>(results: Seq<Result<u32, E>>)
    requires
        combined(results) is Err,
    ensures
        exists|i: int| 0 <= i < results.len() && #[trigger] results[i] == combined(results),
    decreases results.len(),
{
    let front = results.drop_last();
    if combined(front) is Err {
        lemma_combined_failure_is_member(front);
        let i = choose|i: int| 0 <= i < front.len() && #[trigger] front[i] == combined(front);
        assert(results[i] == front[i]);
    } else {
        assert(results.last() == combined(results));
    }
}

/// Folding a list is folding its two parts and merging the outcomes.
pub proof fn lemma_combined_concat<E>(left: Seq<Result<u32, E>>, right: Seq<Result<u32, E>>)
    ensures
        combined(left + right) == merged(combined(left), combined(right)),
    decreases right.len(),
{
    if right.len() == 0 {
        if let Ok(lower) = combined(left) {
            assert(lower & u32::MAX == lower) by (bit_vector);
        }
    } else {
        let front = right.drop_last();
        assert((left + right).drop_last() == left + front);
        lemma_combined_concat(left, front);
        if let Ok(a) = combined(left) {
            if let Ok(b) = combined(front) {
                if let Ok(c) = right.last() {
                    assert((a & b) & c == a & (b & c)) by (bit_vector);
                }
            }
        }
    }
}

/// The common mask of two lists of texts, one after the other, is the merge
/// of their common masks.
pub proof fn lemma_common_mask_concat(left: Seq<&str>, right: Seq<&str>)
    ensures
        common_mask(texts(left + right)) == merged(
            common_mask(texts(left)),
            common_mask(texts(right)),
        ),
{
    assert(encodings(texts(left + right)) == encodings(texts(left)) + encodings(texts(right)));
    lemma_combined_concat(encodings(texts(left)), encodings(texts(right)));
}

} // verus!
