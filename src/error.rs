use vstd::prelude::*;

verus! {

/// Why a buffer could not be decoded.
#[derive(Debug, Clone)]
pub enum BdecodeError {
    /// A decimal digit was required at this position.
    ExpectedDigit(usize),
    /// A string's length prefix is not closed by `':'` at this position.
    ExpectedColon(usize),
    /// The buffer ended, or a stray `'e'` came, at this position.
    UnexpectedEof(usize),
    /// A dictionary closed at this position with a key that has no value.
    ExpectedValue(usize),
    /// The open containers reached this nesting limit.
    DepthExceeded(usize),
    /// A limit of the token layout or of the token count was exceeded.
    LimitExceeded(usize),
    /// An integer does not fit; the text is its digits.
    Overflow(String),
}

/// An error as a value of the specification.
pub enum ErrorView {
    ExpectedDigit(int),
    ExpectedColon(int),
    UnexpectedEof(int),
    ExpectedValue(int),
    DepthExceeded(int),
    LimitExceeded(int),
    Overflow(Seq<char>),
}

impl View for BdecodeError {
    type V = ErrorView;

    open spec fn view(&self) -> ErrorView {
        match self {
            BdecodeError::ExpectedDigit(p) => ErrorView::ExpectedDigit(*p as int),
            BdecodeError::ExpectedColon(p) => ErrorView::ExpectedColon(*p as int),
            BdecodeError::UnexpectedEof(p) => ErrorView::UnexpectedEof(*p as int),
            BdecodeError::ExpectedValue(p) => ErrorView::ExpectedValue(*p as int),
            BdecodeError::DepthExceeded(n) => ErrorView::DepthExceeded(*n as int),
            BdecodeError::LimitExceeded(n) => ErrorView::LimitExceeded(*n as int),
            BdecodeError::Overflow(s) => ErrorView::Overflow(s@),
        }
    }
}

} // verus!
