//! The error type shared by all streams.
use vstd::prelude::*;

verus! {

/// The simple conditions under which a stream operation fails.
#[non_exhaustive]
#[derive(Debug, Clone, Copy, PartialEq, Eq, Structural)]
pub enum ErrorKind {
    /// No bytes of a buffer have been written.
    WriteZero,
    /// No bytes of a buffer have been read.
    UnexpectedEof,
    /// The operation was cut short before it did anything; trying again is in order.
    Interrupted,
    /// The stream has no data right now, but is not at its end.
    WouldBlock,
    /// The stream did not hold valid UTF-8.
    InvalidData,
    /// An argument was out of the range the stream can honour.
    InvalidInput,
    /// A condition of the host that is none of the others.
    Other,
}

#[derive(Debug)]
enum ErrorInner {
    Kind(ErrorKind),
}

/// An opaque error, made from the [`ErrorKind`] that it reports.
#[derive(Debug)]
pub struct Error {
    inner: ErrorInner,
}

impl View for Error {
    type V = ErrorKind;

    closed spec fn view(&self) -> ErrorKind {
        match self.inner {
            ErrorInner::Kind(kind) => kind,
        }
    }
}

impl Error {
    /// The condition that this error reports.
    pub fn kind(&self) -> (kind: ErrorKind)
        ensures
            kind == self@,
    {
        match self.inner {
            ErrorInner::Kind(kind) => kind,
        }
    }

    /// Whether the failed operation may simply be tried again.
    pub open spec fn interrupted(&self) -> bool {
        self@ == ErrorKind::Interrupted
    }

    /// Whether this error is of kind [`ErrorKind::Interrupted`], by the kind it holds.
    pub fn is_interrupted_impl(&self) -> (yes: bool)
        ensures
            yes == self.interrupted(),
    {
        match self.inner {
            ErrorInner::Kind(ErrorKind::Interrupted) => true,
            ErrorInner::Kind(_) => false,
        }
    }

    /// The error that holds `kind`.
    pub fn from_kind_impl(kind: ErrorKind) -> (error: Error)
        ensures
            error@ == kind,
    {
        Error { inner: ErrorInner::Kind(kind) }
    }

    /// Whether this error is of kind [`ErrorKind::Interrupted`].
    pub fn is_interrupted(&self) -> (yes: bool)
        ensures
            yes == self.interrupted(),
    {
        self.is_interrupted_impl()
    }

    /// The error that reports `kind`.
    pub fn from_kind(kind: ErrorKind) -> (error: Error)
        ensures
            error@ == kind,
    {
        Error::from_kind_impl(kind)
    }
}

impl From<ErrorKind> for Error {
    fn from(err: ErrorKind) -> (error: Error) {
        Error::from_kind(err)
    }
}

/// Converting a kind gives the error that reports it.
pub proof fn lemma_from_kind(err: ErrorKind)
    ensures
        <Error as vstd::std_specs::convert::FromSpec<ErrorKind>>::from_spec(err)@ == err,
{
}

impl vstd::std_specs::convert::FromSpecImpl<ErrorKind> for Error {
    open spec fn obeys_from_spec() -> bool {
        true
    }

    closed spec fn from_spec(err: ErrorKind) -> Error {
        Error { inner: ErrorInner::Kind(err) }
    }
}

} // verus!
