//! The chunker: an ordered list of strings, cut into byte-bounded groups.
//!
//! Strings are never split and never reordered. A chunk takes as many of the
//! next strings as fit into the length limit together; a string that is longer
//! than the limit by itself forms a chunk of its own.

use vstd::prelude::*;
use vstd::string::StringSliceAdditionalSpecFns;

verus! {

/// The length limit of a chunk where none is given: 1 MiB.
pub const LENGTH_LIMIT_PER_CHUNK: usize = 1_048_576;

/// The number of bytes that `string` takes up.
pub open spec fn byte_len(string: &str) -> nat {
    string.spec_bytes().len()
}

/// The number of bytes that `strings` take up together.
pub open spec fn total_len(strings: Seq<&str>) -> nat
    decreases strings.len(),
{
    if strings.len() == 0 {
        0
    } else {
        total_len(strings.drop_last()) + byte_len(strings.last())
    }
}

/// How many of the leading strings of `strings` fit into `budget` bytes
/// together.
pub open spec fn fitting(strings: Seq<&str>, budget: nat) -> nat
    decreases strings.len(),
{
    if strings.len() == 0 || byte_len(strings[0]) > budget {
        0
    } else {
        1 + fitting(strings.drop_first(), (budget - byte_len(strings[0])) as nat)
    }
}

/// The number of strings in the first chunk of `strings`: none where there
/// are no strings, one where the first string alone exceeds the limit, and
/// otherwise as many as fit into the limit together.
pub open spec fn first_chunk_len(strings: Seq<&str>, limit: nat) -> nat {
    if strings.len() == 0 {
        0
    } else if byte_len(strings[0]) > limit {
        1
    } else {
        fitting(strings, limit)
    }
}

/// What holds of every chunk: its strings fit into the limit together, or it
/// is a single string that exceeds the limit by itself.
pub open spec fn within_limit(chunk: Seq<&str>, limit: nat) -> bool {
    total_len(chunk) <= limit || (chunk.len() == 1 && byte_len(chunk[0]) > limit)
}

/// The chunks of `strings` under `limit`, in order.
pub open spec fn chunked(strings: Seq<&str>, limit: nat) -> Seq<Seq<&str>>
    decreases strings.len(),
    via chunked_terminates
{
    if strings.len() == 0 {
        Seq::empty()
    } else {
        let n = first_chunk_len(strings, limit) as int;
        seq![strings.take(n)] + chunked(strings.skip(n), limit)
    }
}

#[via_fn]
proof fn chunked_terminates(strings: Seq<&str>, limit: nat) {
    if strings.len() != 0 {
        lemma_fitting_bounds(strings, limit);
    }
}

/// No more strings fit than there are, and the first string is among those
/// that fit unless it alone exceeds the budget.
pub proof fn lemma_fitting_bounds(strings: Seq<&str>, budget: nat)
    ensures
        fitting(strings, budget) <= strings.len(),
        strings.len() > 0 && byte_len(strings[0]) <= budget ==> fitting(strings, budget) >= 1,
    decreases strings.len(),
{
    if strings.len() != 0 && byte_len(strings[0]) <= budget {
        lemma_fitting_bounds(strings.drop_first(), (budget - byte_len(strings[0])) as nat);
    }
}

/// The byte length of a string, as `str::len` counts it.
pub fn byte_length(string: &str) -> (length: usize)
    ensures
        length == byte_len(string),
{
    string.as_bytes().len()
}

/// Cuts an ordered list of strings into chunks, one chunk per call of `next`.
///
/// The chunker borrows the strings and hands out the same references; it keeps
/// the position of the first string that no chunk has taken yet.
pub struct Chunker<'a, 's> {
    strings: &'a [&'s str],
    position: usize,
    length_limit: usize,
}

impl<'a, 's> Chunker<'a, 's> {
    #[verifier::type_invariant]
    spec fn well_formed(self) -> bool {
        &&& self.position <= self.strings@.len()
        &&& self.length_limit >= 1
    }

    /// The strings that no chunk has taken yet.
    pub closed spec fn remaining(self) -> Seq<&'s str> {
        self.strings@.skip(self.position as int)
    }

    /// The length limit of a chunk, in bytes.
    pub closed spec fn limit(self) -> nat {
        self.length_limit as nat
    }

    /// A chunker over `strings` with the default length limit.
    pub fn new(strings: &'a [&'s str]) -> (chunker: Self)
        ensures
            chunker.remaining() == strings@,
            chunker.limit() == LENGTH_LIMIT_PER_CHUNK,
    {
        Chunker { strings, position: 0, length_limit: LENGTH_LIMIT_PER_CHUNK }
    }

    /// A chunker over `strings` with the given length limit, which has to be
    /// positive: a limit of zero is rejected with `None`.
    pub fn with_length_limit(strings: &'a [&'s str], length_limit: usize) -> (chunker: Option<Self>)
        ensures
            chunker is Some <==> length_limit >= 1,
            chunker matches Some(c) ==> c.remaining() == strings@ && c.limit() == length_limit,
    {
        if length_limit == 0 {
            None
        } else {
            Some(Chunker { strings, position: 0, length_limit })
        }
    }

    /// The next chunk, or `None` once every string has been handed out.
    ///
    /// A chunk is never empty. It holds the leading strings that are left, as
    /// many as fit into the limit together, or the first one alone where that
    /// string exceeds the limit by itself.
    pub fn next(&mut self) -> (chunk: Option<Vec<&'s str>>)
        ensures
            final(self).limit() == old(self).limit(),
            chunk is None <==> old(self).remaining().len() == 0,
            chunk is None ==> final(self).remaining() == old(self).remaining(),
            chunk matches Some(c) ==> {
                &&& c@ == old(self).remaining().take(
                    first_chunk_len(old(self).remaining(), old(self).limit()) as int,
                )
                &&& final(self).remaining() == old(self).remaining().skip(c@.len() as int)
                &&& 1 <= c@.len() <= old(self).remaining().len()
                &&& within_limit(c@, old(self).limit())
            },
    {
        proof {
            use_type_invariant(&*self);
        }
        let ghost rest = self.remaining();
        let ghost limit = self.limit();
        let mut chunk: Vec<&'s str> = Vec::new();
        let mut length: usize = 0;
        proof {
            assert(rest.skip(0) == rest);
        }
        while self.position < self.strings.len()
            invariant
                self.strings == old(self).strings,
                self.length_limit == old(self).length_limit,
                rest == old(self).remaining(),
                limit == old(self).limit(),
                old(self).position <= self.position <= self.strings@.len(),
                self.length_limit >= 1,
                chunk@.len() == self.position - old(self).position,
                chunk@ == rest.take(chunk@.len() as int),
                length == total_len(chunk@),
                length <= self.length_limit,
                chunk@.len() > 0 ==> byte_len(rest[0]) <= limit,
                fitting(rest, limit) == chunk@.len() + fitting(
                    rest.skip(chunk@.len() as int),
                    (limit - length) as nat,
                ),
            decreases self.strings@.len() - self.position,
        {
            let ghost taken = chunk@.len() as int;
            let string = self.strings[self.position];
            let string_length = byte_length(string);
            proof {
                assert(rest.skip(taken).drop_first() == rest.skip(taken + 1));
                assert(rest.take(taken).push(string).drop_last() == rest.take(taken));
            }
            if string_length > self.length_limit - length {
                if chunk.is_empty() {
                    self.position = self.position + 1;
                    chunk.push(string);
                    return Some(chunk);
                } else {
                    return Some(chunk);
                }
            } else {
                self.position = self.position + 1;
                chunk.push(string);
                length = length + string_length;
            }
        }
        if chunk.is_empty() {
            None
        } else {
            Some(chunk)
        }
    }

    /// All the chunks that are left, in order: joined, they are the strings
    /// that were left, none of them is empty, and each is within the limit or
    /// a single oversized string.
    pub fn collect(self) -> (chunks: Vec<Vec<&'s str>>)
        ensures
            chunk_views(chunks@) == chunked(self.remaining(), self.limit()),
            chunk_views(chunks@).flatten() == self.remaining(),
            forall|i: int|
                0 <= i < chunks@.len() ==> (#[trigger] chunks@[i])@.len() >= 1 && within_limit(
                    chunks@[i]@,
                    self.limit(),
                ),
    {
        let ghost rest = self.remaining();
        let ghost limit = self.limit();
        let mut chunker = self;
        let mut chunks: Vec<Vec<&'s str>> = Vec::new();
        loop
            invariant
                rest == self.remaining(),
                limit == self.limit(),
                chunker.limit() == limit,
                chunk_views(chunks@) + chunked(chunker.remaining(), limit) == chunked(
                    rest,
                    limit,
                ),
            decreases chunker.remaining().len(),
        {
            let ghost before = chunker.remaining();
            let ghost done = chunk_views(chunks@);
            match chunker.next() {
                None => {
                    proof {
                        lemma_chunked_covers(rest, limit);
                        assert forall|i: int| 0 <= i < chunks@.len() implies (#[trigger] chunks@[i])@.len()
                            >= 1 && within_limit(chunks@[i]@, limit) by {
                            assert(chunk_views(chunks@)[i] == chunks@[i]@);
                            lemma_chunked_bounded(rest, limit, i);
                        }
                    }
                    return chunks;
                },
                Some(chunk) => {
                    chunks.push(chunk);
                    proof {
                        lemma_first_chunk(before, limit);
                        assert(done.push(chunk@) + chunked(chunker.remaining(), limit) == done
                            + (seq![chunk@] + chunked(chunker.remaining(), limit)));
                    }
                },
            }
        }
    }
}

/// The chunks as sequences of strings.
pub open spec fn chunk_views(chunks: Seq<Vec<&str>>) -> Seq<Seq<&str>> {
    chunks.map_values(|chunk: Vec<&str>| chunk@)
}

/// The strings of a list take up the bytes of the first string and those of
/// the rest.
pub proof fn lemma_total_len_front(strings: Seq<&str>)
    requires
        strings.len() > 0,
    ensures
        total_len(strings) == byte_len(strings[0]) + total_len(strings.drop_first()),
    decreases strings.len(),
{
    let front = strings.drop_last();
    let tail = strings.drop_first();
    if strings.len() == 1 {
        assert(total_len(front) == 0);
    } else {
        lemma_total_len_front(front);
        assert(front.drop_first() == tail.drop_last());
    }
}

/// The strings that fit are the longest leading run that stays within the
/// budget: they fit together, and the string after them would not.
pub proof fn lemma_fitting_is_longest(strings: Seq<&str>, budget: nat)
    ensures
        fitting(strings, budget) <= strings.len(),
        total_len(strings.take(fitting(strings, budget) as int)) <= budget,
        fitting(strings, budget) < strings.len() ==> total_len(
            strings.take(fitting(strings, budget) as int),
        ) + byte_len(strings[fitting(strings, budget) as int]) > budget,
    decreases strings.len(),
{
    let n = fitting(strings, budget) as int;
    if strings.len() > 0 && byte_len(strings[0]) <= budget {
        let tail = strings.drop_first();
        let left = (budget - byte_len(strings[0])) as nat;
        lemma_fitting_is_longest(tail, left);
        lemma_total_len_front(strings.take(n));
        assert(strings.take(n).drop_first() == tail.take(n - 1));
    }
}

/// The first chunk of a list that is not empty: it is not empty either, it is
/// within the limit or a single oversized string, and it cannot take the next
/// string as well.
pub proof fn lemma_first_chunk(strings: Seq<&str>, limit: nat)
    requires
        strings.len() > 0,
    ensures
        1 <= first_chunk_len(strings, limit) <= strings.len(),
        within_limit(strings.take(first_chunk_len(strings, limit) as int), limit),
        first_chunk_len(strings, limit) < strings.len() ==> total_len(
            strings.take(first_chunk_len(strings, limit) as int),
        ) + byte_len(strings[first_chunk_len(strings, limit) as int]) > limit,
{
    lemma_fitting_bounds(strings, limit);
    lemma_fitting_is_longest(strings, limit);
}

/// Chunking covers the input: the chunks, joined in order, are the strings
/// that went in.
pub proof fn lemma_chunked_covers(strings: Seq<&str>, limit: nat)
    ensures
        chunked(strings, limit).flatten() == strings,
    decreases strings.len(),
{
    if strings.len() > 0 {
        let n = first_chunk_len(strings, limit) as int;
        lemma_first_chunk(strings, limit);
        lemma_chunked_covers(strings.skip(n), limit);
        let all = chunked(strings, limit);
        assert(all.drop_first() == chunked(strings.skip(n), limit));
    }
}

/// Every chunk is bounded and none is empty: chunk `i` holds at least one
/// string, and it is within the limit or a single oversized string.
pub proof fn lemma_chunked_bounded(strings: Seq<&str>, limit: nat, i: int)
    requires
        0 <= i < chunked(strings, limit).len(),
    ensures
        chunked(strings, limit)[i].len() >= 1,
        within_limit(chunked(strings, limit)[i], limit),
    decreases strings.len(),
{
    if strings.len() > 0 {
        let n = first_chunk_len(strings, limit) as int;
        lemma_first_chunk(strings, limit);
        if i > 0 {
            lemma_chunked_bounded(strings.skip(n), limit, i - 1);
        }
    }
}

/// An empty list has no chunks, and only an empty list has none.
pub proof fn lemma_chunked_empty(strings: Seq<&str>, limit: nat)
    ensures
        chunked(strings, limit).len() == 0 <==> strings.len() == 0,
{
}

} // verus!
