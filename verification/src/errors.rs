//! Error values surfaced by the codec.
use vstd::prelude::*;

verus! {

/// What went wrong during an encode or decode call.
#[derive(Debug, Clone, Copy, PartialEq, Eq, Structural)]
pub enum ErrorKind {
    /// A non-final group carried fewer bits than the target width.
    PartialGroupMidStream,
    /// A value had no entry in the selected repertoire tier.
    UnencodableValue,
    /// A character needed more than one UTF-16 code unit.
    InvalidCharacterWidth,
    /// A padding character stood somewhere other than the final position.
    MisplacedPadding,
    /// A character's codepoint matched no tier's table.
    InvalidCharacter,
    /// An error built directly from a caller-supplied message.
    General,
}

/// An error of the codec: its kind, and a human-readable message.
#[derive(Debug)]
pub struct Base32768Error {
    pub kind: ErrorKind,
    pub msg: String,
}

impl Base32768Error {
    /// A general error carrying the given message.
    pub fn new(msg: String) -> (e: Base32768Error)
        ensures
            e.kind == ErrorKind::General,
            e.msg == msg,
    {
        Base32768Error { kind: ErrorKind::General, msg }
    }

    /// An error of the given kind, with a fixed message describing it.
    pub fn of_kind(kind: ErrorKind) -> (e: Base32768Error)
        ensures
            e.kind == kind,
    {
        let msg: String = match kind {
            ErrorKind::PartialGroupMidStream => String::from_str(
                "Got partial group before the end of the stream",
            ),
            ErrorKind::UnencodableValue => String::from_str(
                "Got value with no entry in the selected repertoire",
            ),
            ErrorKind::InvalidCharacterWidth => String::from_str(
                "Got invalid length for encoded character",
            ),
            ErrorKind::MisplacedPadding => String::from_str(
                "Got padding character in the middle of the stream",
            ),
            ErrorKind::InvalidCharacter => String::from_str(
                "Got character not present in any repertoire",
            ),
            ErrorKind::General => String::from_str("Encoding error"),
        };
        Base32768Error { kind, msg }
    }

    /// The message, for callers that want to print the error.
    pub fn message(&self) -> (m: &str)
        ensures
            m@ == self.msg@,
    {
        self.msg.as_str()
    }
}

} // verus!
