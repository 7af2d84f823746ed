//! The failures that the library reports.

use vstd::prelude::*;
use vstd::string::StringExecFns;

verus! {

/// A character outside the encodable set was found in a text.
#[derive(Clone, Copy, Debug, PartialEq, Eq, Structural)]
pub struct EncodingError {
    /// The offending character.
    pub character: char,
}

/// Why an aggregation over a collection of strings failed.
#[derive(Clone, Copy, Debug, PartialEq, Eq, Structural)]
pub enum AggregateError {
    /// The length limit was zero; it has to be positive.
    ZeroLengthLimit,
    /// One of the strings holds a character that cannot be encoded.
    Encoding(EncodingError),
}

/// The text that `{:?}` gives for a character: the character between single
/// quotes, escaped where it is not printable.
pub uninterp spec fn debug_text(c: char) -> Seq<char>;

/// Trusted: std's `Debug` for `char`, reached through `format!`. The claim
/// is that the text depends on the character alone. What the text is on a
/// given character is not stated: it carries the name `debug_text`.
#[verifier::external_body]
fn debug_char(c: char) -> (text: String)
    ensures
        text@ == debug_text(c),
{
    format!("{:?}", c)
}

/// The message that reports a character, given the character as quoted text.
pub open spec fn message_around(quoted: Seq<char>) -> Seq<char> {
    "String contains invalid character "@ + quoted + "."@
}

/// Builds the message that reports a character from its quoted text.
pub fn compose_message(quoted: &str) -> (message: String)
    ensures
        message@ == message_around(quoted@),
{
    let mut message = "String contains invalid character ".to_owned();
    message.append(quoted);
    message.append(".");
    message
}

impl EncodingError {
    /// The text of the message: it names the offending character.
    pub open spec fn message_text(self) -> Seq<char> {
        message_around(debug_text(self.character))
    }

    /// The message of this error, which names the offending character.
    pub fn message(&self) -> (message: String)
        ensures
            message@ == self.message_text(),
    {
        let quoted = debug_char(self.character);
        compose_message(quoted.as_str())
    }
}

} // verus!
