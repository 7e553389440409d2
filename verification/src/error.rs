//! The errors of the teeny toolchain.
use vstd::prelude::*;

verus! {

/// An error of the toolchain, with its message.
#[derive(Debug)]
pub enum Error {
    Lexer(String),
    Io(String),
    Parse(String),
    Runtime(String),
}

/// The mathematical value of an [`Error`]: its variant and its message.
pub enum ErrorView {
    Lexer(Seq<char>),
    Io(Seq<char>),
    Parse(Seq<char>),
    Runtime(Seq<char>),
}

impl View for Error {
    type V = ErrorView;

    open spec fn view(&self) -> ErrorView {
        match self {
            Error::Lexer(m) => ErrorView::Lexer(m@),
            Error::Io(m) => ErrorView::Io(m@),
            Error::Parse(m) => ErrorView::Parse(m@),
            Error::Runtime(m) => ErrorView::Runtime(m@),
        }
    }
}

} // verus!
