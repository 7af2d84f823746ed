//! The mask encoder: one text in, one 32-bit alphabet mask out.
//!
//! A mask has one bit per encodable symbol. Bit 0 is the space, bits 1 to 26
//! are the letters `a` to `z` (upper case folds onto lower case), and bits 27
//! to 31 are the full stop, the comma, the apostrophe, the hyphen and the
//! double quote.

use crate::error::EncodingError;
use vstd::prelude::*;
use vstd::std_specs::iter::IteratorSpec;

verus! {

/// The bit that stands for `c` in a mask, or `None` where `c` is not encodable.
pub open spec fn symbol_bit(c: char) -> Option<u32> {
    if c == ' ' {
        Some(0u32)
    } else if 'a' <= c <= 'z' {
        Some((c as u32 - 'a' as u32 + 1) as u32)
    } else if 'A' <= c <= 'Z' {
        Some((c as u32 - 'A' as u32 + 1) as u32)
    } else if c == '.' {
        Some(27u32)
    } else if c == ',' {
        Some(28u32)
    } else if c == '\'' {
        Some(29u32)
    } else if c == '-' {
        Some(30u32)
    } else if c == '"' {
        Some(31u32)
    } else {
        None
    }
}

/// The mask of a single character: its bit alone, or nothing where the
/// character is not encodable.
pub open spec fn symbol_mask(c: char) -> u32 {
    match symbol_bit(c) {
        Some(bit) => 1u32 << bit,
        None => 0u32,
    }
}

/// Every character of `text` is encodable.
pub open spec fn encodable(text: Seq<char>) -> bool {
    forall|i: int| 0 <= i < text.len() ==> (#[trigger] symbol_bit(text[i])) is Some
}

/// `i` is the position of the first character of `text` that is not encodable.
pub open spec fn first_unencodable(text: Seq<char>, i: int) -> bool {
    &&& 0 <= i < text.len()
    &&& symbol_bit(text[i]) is None
    &&& encodable(text.take(i))
}

/// The union of the bits of all characters of `text`.
pub open spec fn mask_of(text: Seq<char>) -> u32
    decreases text.len(),
{
    if text.len() == 0 {
        0u32
    } else {
        mask_of(text.drop_last()) | symbol_mask(text.last())
    }
}

/// What encoding `text` yields: its mask, or the first character that has no bit.
pub open spec fn encoding(text: Seq<char>) -> Result<u32, EncodingError> {
    if encodable(text) {
        Ok(mask_of(text))
    } else {
        Err(EncodingError { character: text[choose|i: int| first_unencodable(text, i)] })
    }
}

/// The bit of one character, computed from its code point: the six
/// punctuation symbols have fixed bits, and a letter's bit is the low five
/// bits of its code, which upper and lower case share.
fn bit_of(c: char) -> (bit: Option<u32>)
    ensures
        bit == symbol_bit(c),
        bit matches Some(b) ==> b < 32,
{
    let code: u32 = c as u32;
    if code == 32 {
        Some(0)
    } else if code == 46 {
        Some(27)
    } else if code == 44 {
        Some(28)
    } else if code == 39 {
        Some(29)
    } else if code == 45 {
        Some(30)
    } else if code == 34 {
        Some(31)
    } else if (65 <= code && code <= 90) || (97 <= code && code <= 122) {
        assert(65 <= code <= 90 ==> code & 31 == code - 64) by (bit_vector);
        assert(97 <= code <= 122 ==> code & 31 == code - 96) by (bit_vector);
        Some(code & 31)
    } else {
        None
    }
}

/// Encodes `string` into its alphabet mask.
///
/// Succeeds exactly when every character is encodable, and then returns the
/// union of the characters' bits. Otherwise it stops at the first character
/// that is not encodable and reports that character; no partial mask comes
/// back.
pub fn mask_string(string: &str) -> (result: Result<u32, EncodingError>)
    ensures
        result == encoding(string@),
{
    let mut chars = string.chars();
    let mut mask: u32 = 0;
    let ghost mut seen: Seq<char> = Seq::empty();
    loop
        invariant
            chars.obeys_prophetic_iter_laws(),
            chars.decrease() is Some,
            seen + chars.remaining() == string@,
            encodable(seen),
            mask == mask_of(seen),
        decreases chars.decrease()->0,
    {
        match chars.next() {
            None => {
                return Ok(mask);
            },
            Some(c) => {
                match bit_of(c) {
                    Some(bit) => {
                        mask = mask | (1u32 << bit);
                        proof {
                            assert(seen.push(c).drop_last() == seen);
                            seen = seen.push(c);
                        }
                    },
                    None => {
                        proof {
                            let at = seen.len() as int;
                            assert(string@.take(at) == seen);
                            lemma_first_unencodable_unique(string@, at);
                        }
                        return Err(EncodingError { character: c });
                    },
                }
            },
        }
    }
}

/// At most one position is the first one that is not encodable, so a text
/// that has one fails with the character found there.
pub proof fn lemma_first_unencodable_unique(text: Seq<char>, i: int)
    requires
        first_unencodable(text, i),
    ensures
        !encodable(text),
        forall|j: int| first_unencodable(text, j) ==> j == i,
        encoding(text) == Err::<u32, EncodingError>(EncodingError { character: text[i] }),
{
    assert forall|j: int| first_unencodable(text, j) implies j == i by {
        if j < i {
            assert(text.take(i)[j] == text[j]);
        } else if i < j {
            assert(text.take(j)[i] == text[i]);
        }
    }
}

/// Bit `bit` is set in `mask`.
pub open spec fn has_bit(mask: u32, bit: u32) -> bool {
    mask & (1u32 << bit) != 0
}

/// A bit is set in the mask of a text exactly when the text holds a character
/// of that bit's symbol.
pub proof fn lemma_mask_bits(text: Seq<char>, bit: u32)
    requires
        bit < 32,
    ensures
        has_bit(mask_of(text), bit) <==> exists|i: int|
            0 <= i < text.len() && #[trigger] symbol_bit(text[i]) == Some(bit),
    decreases text.len(),
{
    if text.len() == 0 {
        assert(0u32 & (1u32 << bit) == 0) by (bit_vector);
    } else {
        let front = text.drop_last();
        let last = text.last();
        lemma_mask_bits(front, bit);
        let lower = mask_of(front);
        let top = symbol_mask(last);
        assert(has_bit(lower | top, bit) <==> has_bit(lower, bit) || has_bit(top, bit))
            by (bit_vector);
        match symbol_bit(last) {
            Some(b) => {
                assert(((1u32 << b) & (1u32 << bit) != 0) <==> b == bit) by (bit_vector)
                    requires
                        b < 32,
                        bit < 32,
                ;
            },
            None => {
                assert(0u32 & (1u32 << bit) == 0) by (bit_vector);
            },
        }
        if has_bit(mask_of(text), bit) {
            if has_bit(lower, bit) {
                let i = choose|i: int|
                    0 <= i < front.len() && #[trigger] symbol_bit(front[i]) == Some(bit);
                assert(symbol_bit(text[i]) == Some(bit));
            } else {
                assert(symbol_bit(text[text.len() - 1]) == Some(bit));
            }
        }
        if exists|i: int| 0 <= i < text.len() && #[trigger] symbol_bit(text[i]) == Some(bit) {
            let i = choose|i: int|
                0 <= i < text.len() && #[trigger] symbol_bit(text[i]) == Some(bit);
            if i < front.len() {
                assert(symbol_bit(front[i]) == Some(bit));
            }
        }
    }
}

} // verus!
