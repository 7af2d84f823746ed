//! The mask renderer: a mask back into text, one symbol per set bit.
//!
//! Rendering is the inverse of encoding as far as a mask can tell: the text
//! that renders a mask encodes to that mask again.

use crate::error::EncodingError;
use crate::mask::{encodable, encoding, has_bit, mask_of, symbol_bit};
use vstd::prelude::*;

verus! {

/// Trusted: `String::push`, which appends the given character to the end of
/// the string.
pub assume_specification[ String::push ](text: &mut String, ch: char)
    ensures
        final(text)@ == old(text)@.push(ch),
;

/// The character that renders bit `bit`: the inverse of `symbol_bit`, with the
/// lower-case letter standing for both cases.
pub open spec fn bit_symbol(bit: u32) -> char {
    if bit == 0 {
        ' '
    } else if bit <= 26 {
        (bit + 96) as char
    } else if bit == 27 {
        '.'
    } else if bit == 28 {
        ','
    } else if bit == 29 {
        '\''
    } else if bit == 30 {
        '-'
    } else {
        '"'
    }
}

/// The symbols of the bits of `mask` below `n`, in ascending bit order.
pub open spec fn rendering_below(mask: u32, n: nat) -> Seq<char>
    decreases n,
{
    if n == 0 {
        Seq::empty()
    } else {
        let bit = (n - 1) as u32;
        let lower = rendering_below(mask, (n - 1) as nat);
        if has_bit(mask, bit) {
            lower.push(bit_symbol(bit))
        } else {
            lower
        }
    }
}

/// The text that renders `mask`: one symbol per set bit, in ascending bit order.
pub open spec fn rendering(mask: u32) -> Seq<char> {
    rendering_below(mask, 32)
}

/// The character that renders one bit.
fn symbol_of(bit: u32) -> (c: char)
    ensures
        c == bit_symbol(bit),
{
    if bit == 0 {
        ' '
    } else if bit <= 26 {
        let code: u8 = (bit + 96) as u8;
        code as char
    } else if bit == 27 {
        '.'
    } else if bit == 28 {
        ','
    } else if bit == 29 {
        '\''
    } else if bit == 30 {
        '-'
    } else {
        '"'
    }
}

/// Renders a mask as text: the symbols of its set bits in ascending bit order.
pub fn mask_to_chars(mask: u32) -> (text: String)
    ensures
        text@ == rendering(mask),
{
    let mut text = String::new();
    let mut bit: u32 = 0;
    while bit < 32
        invariant
            bit <= 32,
            text@ == rendering_below(mask, bit as nat),
        decreases 32 - bit,
    {
        if mask & (1u32 << bit) != 0 {
            text.push(symbol_of(bit));
        }
        bit = bit + 1;
    }
    text
}

/// The mask with exactly the bits below `n` set.
pub open spec fn low_bits(n: u32) -> u32 {
    if n >= 32 {
        u32::MAX
    } else {
        !(u32::MAX << n)
    }
}

/// Rendering a bit and encoding the symbol gives the bit back.
pub proof fn lemma_symbol_round_trip(bit: u32)
    requires
        bit < 32,
    ensures
        symbol_bit(bit_symbol(bit)) == Some(bit),
{
}

/// The rendering of the bits below `n` is encodable, and its mask holds
/// exactly those bits of `mask`.
pub proof fn lemma_rendering_below(mask: u32, n: u32)
    requires
        n <= 32,
    ensures
        encodable(rendering_below(mask, n as nat)),
        mask_of(rendering_below(mask, n as nat)) == mask & low_bits(n),
    decreases n,
{
    if n == 0 {
        assert(mask & !(u32::MAX << 0u32) == 0) by (bit_vector);
    } else {
        let bit = (n - 1) as u32;
        let lower = rendering_below(mask, bit as nat);
        lemma_rendering_below(mask, bit);
        lemma_symbol_round_trip(bit);
        if has_bit(mask, bit) {
            let text = lower.push(bit_symbol(bit));
            assert(text.drop_last() == lower);
            assert(encodable(text)) by {
                assert forall|i: int| 0 <= i < text.len() implies (#[trigger] symbol_bit(
                    text[i],
                )) is Some by {
                    if i < lower.len() {
                        assert(text[i] == lower[i]);
                    }
                }
            }
            assert((mask & !(u32::MAX << bit)) | (1u32 << bit) == mask & low_bits(n))
                by (bit_vector)
                requires
                    bit < 32,
                    n == bit + 1,
                    mask & (1u32 << bit) != 0,
            ;
        } else {
            assert(mask & !(u32::MAX << bit) == mask & low_bits(n)) by (bit_vector)
                requires
                    bit < 32,
                    n == bit + 1,
                    mask & (1u32 << bit) == 0,
            ;
        }
    }
}

/// Every mask is the encoding of its own rendering.
pub proof fn lemma_rendering_encodes_back(mask: u32)
    ensures
        encoding(rendering(mask)) == Ok::<u32, EncodingError>(mask),
{
    lemma_rendering_below(mask, 32);
    assert(mask & u32::MAX == mask) by (bit_vector);
}

/// The symbols of all the bits below `n`, in ascending bit order.
pub open spec fn symbols_below(n: nat) -> Seq<char> {
    Seq::new(n, |bit: int| bit_symbol(bit as u32))
}

/// The mask with every bit set renders as every symbol.
pub proof fn lemma_full_mask_below(n: u32)
    requires
        n <= 32,
    ensures
        rendering_below(u32::MAX, n as nat) == symbols_below(n as nat),
    decreases n,
{
    if n > 0 {
        let bit = (n - 1) as u32;
        lemma_full_mask_below(bit);
        assert(u32::MAX & (1u32 << bit) != 0) by (bit_vector)
            requires
                bit < 32,
        ;
    }
}

/// The mask with every bit set, which stands for no constraint at all,
/// renders as the thirty-two symbols in bit order.
pub proof fn lemma_full_mask_renders_every_symbol()
    ensures
        rendering(u32::MAX) == " abcdefghijklmnopqrstuvwxyz.,'-\""@,
{
    reveal_strlit(" abcdefghijklmnopqrstuvwxyz.,'-\"");
    lemma_full_mask_below(32);
    let symbols = symbols_below(32);
    let text = " abcdefghijklmnopqrstuvwxyz.,'-\""@;
    assert forall|i: int| 0 <= i < 32 implies symbols[i] == text[i] by {
        let bit = i as u32;
        if 1 <= bit <= 26 {
            assert(bit_symbol(bit) as u32 == bit + 96);
        }
    }
    assert(symbols =~= text);
}

/// Encoding a text, rendering the mask and encoding the rendering again
/// yields the mask of the text.
pub proof fn lemma_encode_render_encode(text: Seq<char>)
    requires
        encodable(text),
    ensures
        encoding(rendering(mask_of(text))) == encoding(text),
{
    lemma_rendering_encodes_back(mask_of(text));
}

} // verus!
