//! Alphabet masks: the set of symbols a text uses, packed into 32 bits, and the
//! symbols that a whole collection of texts has in common.
//!
//! A text is encoded into a mask with one bit per symbol ([`mask`]), masks are
//! intersected ([`combine`]) and a mask is rendered back into text
//! ([`render`]). A small collection is aggregated in one pass; a large one is
//! cut into byte-bounded chunks ([`chunks`]) that are reduced in parallel
//! ([`parallel`]). Which of the two it is depends on the total length of the
//! strings ([`strategy`]), and both give the same mask ([`alphabets`]).

pub mod alphabets;
pub mod charset;
pub mod chunks;
pub mod combine;
pub mod error;
pub mod mask;
pub mod parallel;
pub mod render;
pub mod strategy;
