//! The set of bytes that occur in a text, with upper case folded onto lower
//! case. It is here to compare against the mask encoder, not to replace it.

use fxhash::FxHashSet;
use vstd::prelude::*;
use vstd::std_specs::iter::IteratorSpec;

verus! {

/// fxhash's hasher, which the sets of this module are hashed with.
#[verifier::external_type_specification]
#[verifier::external_body]
pub struct ExFxHasher(fxhash::FxHasher);

/// std's builder of default hashers, which `FxHashSet` is made with.
#[verifier::external_type_specification]
#[verifier::external_body]
#[verifier::reject_recursive_types(H)]
pub struct ExBuildHasherDefault<H>(std::hash::BuildHasherDefault<H>);

/// The byte that stands for a character: an ASCII upper-case letter gives its
/// lower-case letter, any other character the low eight bits of its code.
pub open spec fn folded_byte(c: char) -> u8 {
    if 'A' <= c <= 'Z' {
        (c as u32 + 32) as u8
    } else {
        (c as u32 % 256) as u8
    }
}

/// The bytes that stand for the characters of `text`.
pub open spec fn folded_bytes(text: Seq<char>) -> Set<u8> {
    Set::new(|byte: u8| exists|i: int| 0 <= i < text.len() && #[trigger] folded_byte(text[i]) == byte)
}

/// Folds one character to its byte.
pub fn fold_byte(c: char) -> (byte: u8)
    ensures
        byte == folded_byte(c),
{
    let code: u32 = c as u32;
    if 65 <= code && code <= 90 {
        (code + 32) as u8
    } else {
        assert(code & 0xff == code % 256) by (bit_vector);
        (code & 0xff) as u8
    }
}

/// Trusted: `HashSet::insert` on a set that is hashed with fxhash's
/// `FxHasher`. The claim is that the byte is in the set afterwards and that
/// nothing else has changed, which needs equal bytes to hash alike: the hasher
/// starts from a fixed state and takes in nothing but the bytes written to it.
#[verifier::external_body]
fn insert_byte(set: &mut FxHashSet<u8>, byte: u8)
    ensures
        final(set)@ == old(set)@.insert(byte),
{
    set.insert(byte);
}

/// The distinct bytes of `string`, case folded.
pub fn alphabet_set(string: &str) -> (set: FxHashSet<u8>)
    ensures
        set@ == folded_bytes(string@),
{
    let mut set: FxHashSet<u8> = FxHashSet::default();
    let mut chars = string.chars();
    let ghost mut seen: Seq<char> = Seq::empty();
    loop
        invariant
            chars.obeys_prophetic_iter_laws(),
            chars.decrease() is Some,
            seen + chars.remaining() == string@,
            set@ == folded_bytes(seen),
        decreases chars.decrease()->0,
    {
        match chars.next() {
            None => {
                return set;
            },
            Some(c) => {
                insert_byte(&mut set, fold_byte(c));
                proof {
                    let longer = seen.push(c);
                    assert forall|byte: u8| #[trigger]
                        folded_bytes(longer).contains(byte) <==> folded_bytes(seen).insert(
                            folded_byte(c),
                        ).contains(byte) by {
                        if folded_bytes(longer).contains(byte) {
                            let i = choose|i: int|
                                0 <= i < longer.len() && #[trigger] folded_byte(longer[i]) == byte;
                            if i < seen.len() {
                                assert(folded_byte(seen[i]) == byte);
                            }
                        }
                        if folded_bytes(seen).contains(byte) {
                            let i = choose|i: int|
                                0 <= i < seen.len() && #[trigger] folded_byte(seen[i]) == byte;
                            assert(folded_byte(longer[i]) == byte);
                        }
                        if byte == folded_byte(c) {
                            assert(folded_byte(longer[seen.len() as int]) == byte);
                        }
                    }
                    seen = longer;
                }
            },
        }
    }
}

} // verus!
