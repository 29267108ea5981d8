//! The parse error taxonomy: each grammar failure carries the token and
//! source position at which it was detected.

use vstd::prelude::*;

use crate::token::Position;
use crate::token::Token;
use crate::token::TokenInfo;
use crate::token::TokenInfoV;
use crate::token::TokenV;

verus! {

/// What can go wrong while parsing a token stream.
#[derive(Debug)]
pub enum Error {
    /// The grammar required more input than the token stream held.
    EndOfTokenStream(Position),
    /// A condition the parser holds to be unreachable.
    InternalAssertion(String),
    /// A reference entry opened without a cite key.
    MissingCiteKey(TokenInfo),
    /// A tag value began with a token that cannot open one.
    MissingContent(TokenInfo),
    /// An `@` was not followed by an entry type.
    MissingEntryType(TokenInfo),
    /// A tag began with a token that cannot be a name.
    MissingTagName(TokenInfo),
    /// A specific token was required and another was found.
    UnexpectedToken(Token, TokenInfo),
    /// An error raised by a caller of the library.
    Custom(String),
}

/// The mathematical shape of an error.
pub enum ErrorV {
    EndOfTokenStream(Position),
    InternalAssertion(Seq<char>),
    MissingCiteKey(TokenInfoV),
    MissingContent(TokenInfoV),
    MissingEntryType(TokenInfoV),
    MissingTagName(TokenInfoV),
    UnexpectedToken(TokenV, TokenInfoV),
    Custom(Seq<char>),
}

impl View for Error {
    type V = ErrorV;

    open spec fn view(&self) -> ErrorV {
        match self {
            Error::EndOfTokenStream(p) => ErrorV::EndOfTokenStream(*p),
            Error::InternalAssertion(m) => ErrorV::InternalAssertion(m@),
            Error::MissingCiteKey(t) => ErrorV::MissingCiteKey(t@),
            Error::MissingContent(t) => ErrorV::MissingContent(t@),
            Error::MissingEntryType(t) => ErrorV::MissingEntryType(t@),
            Error::MissingTagName(t) => ErrorV::MissingTagName(t@),
            Error::UnexpectedToken(e, f) => ErrorV::UnexpectedToken(e@, f@),
            Error::Custom(m) => ErrorV::Custom(m@),
        }
    }
}

impl Error {
    /// Wraps a caller-supplied message as an error.
    pub fn custom(val: String) -> (r: Error)
        ensures
            r@ == ErrorV::Custom(val@),
    {
        Error::Custom(val)
    }
}

/// The result of a parsing operation.
pub type ParseResult<T> = Result<T, Error>;

} // verus!
