use vstd::prelude::*;

verus! {

/// Failures of the message model. Every fallible operation of the crate
/// reports one of these and never recovers locally.
#[derive(Debug, PartialEq, Eq)]
pub enum Error {
    /// The underlying byte stream failed, or ended before a fixed-length read
    /// could be satisfied.
    Io(String),
    /// The request line does not follow `METHOD URL VERSION`.
    MalformedRequestLine(String),
    /// A header line does not follow `key: value`.
    MalformedHeaders(String),
    /// The directory index page could not be rendered.
    IndexRendering(String),
    /// The directory index page could not be assembled.
    IndexGeneration(String),
}

/// An [`Error`] with its diagnostic as text.
pub enum ErrorView {
    Io(Seq<char>),
    MalformedRequestLine(Seq<char>),
    MalformedHeaders(Seq<char>),
    IndexRendering(Seq<char>),
    IndexGeneration(Seq<char>),
}

impl View for Error {
    type V = ErrorView;

    open spec fn view(&self) -> ErrorView {
        match self {
            Error::Io(m) => ErrorView::Io(m@),
            Error::MalformedRequestLine(m) => ErrorView::MalformedRequestLine(m@),
            Error::MalformedHeaders(m) => ErrorView::MalformedHeaders(m@),
            Error::IndexRendering(m) => ErrorView::IndexRendering(m@),
            Error::IndexGeneration(m) => ErrorView::IndexGeneration(m@),
        }
    }
}

} // verus!
