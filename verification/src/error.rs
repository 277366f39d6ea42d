//! The one failure report of the library: what failed, and where.

use vstd::prelude::*;
use vstd::string::to_string_from_display_ensures;

verus! {

/// What went wrong: the store failed, or the bytes of a file could not be
/// turned into a value.
#[derive(Debug)]
pub enum ErrorKind<T> {
    /// The store's own error.
    Loader(T),
    /// The message of the conversion that failed.
    Deserialization(String),
}

/// A failure together with the location in the store at which it occurred.
#[derive(Debug)]
pub struct Error<T> {
    parent: String,
    pub kind: ErrorKind<T>,
}

/// A failure report, as contracts see it.
pub struct ErrorView<T> {
    pub location: Seq<char>,
    pub kind: ErrorKind<T>,
}

impl<T> ErrorView<T> {
    /// The text of the report, given the text of the store's error for the
    /// case that the store failed.
    pub open spec fn message(self, loader_cause: Seq<char>) -> Seq<char> {
        match self.kind {
            ErrorKind::Loader(_) => "Error loading asset at "@ + self.location + ": "@
                + loader_cause,
            ErrorKind::Deserialization(cause) => "Error deserializing asset at "@ + self.location
                + ": "@ + cause@,
        }
    }
}

impl<T> View for Error<T> {
    type V = ErrorView<T>;

    closed spec fn view(&self) -> ErrorView<T> {
        ErrorView { location: self.parent@, kind: self.kind }
    }
}

impl<T> Error<T> {
    /// Reports that the bytes found at `parent` could not be converted, with
    /// the message of the conversion.
    pub fn deserialization(parent: String, error: String) -> (e: Error<T>)
        ensures
            e@ == (ErrorView::<T> { location: parent@, kind: ErrorKind::Deserialization(error) }),
    {
        Error { parent, kind: ErrorKind::Deserialization(error) }
    }

    /// Reports that the store failed at `parent`.
    pub fn loader(parent: String, error: T) -> (e: Error<T>)
        ensures
            e@ == (ErrorView { location: parent@, kind: ErrorKind::Loader(error) }),
    {
        Error { parent, kind: ErrorKind::Loader(error) }
    }

    /// Writes the report out. `loader_cause` is the text of the store's
    /// error; a report of a failed conversion carries its own message and
    /// does not read it.
    pub fn message(&self, loader_cause: &str) -> (text: String)
        ensures
            text@ == self@.message(loader_cause@),
    {
        match &self.kind {
            ErrorKind::Loader(_) => {
                let mut text = String::from_str("Error loading asset at ");
                text.append(self.parent.as_str());
                text.append(": ");
                text.append(loader_cause);
                text
            },
            ErrorKind::Deserialization(cause) => {
                let mut text = String::from_str("Error deserializing asset at ");
                text.append(self.parent.as_str());
                text.append(": ");
                text.append(cause.as_str());
                text
            },
        }
    }

    /// Writes the report out, with the store's error in its own words.
    pub fn to_string(&self) -> (text: String) where T: core::fmt::Display
        ensures
            match self@.kind {
                ErrorKind::Loader(e) => exists|cause: String|
                    to_string_from_display_ensures::<T>(&e, cause) && text@ == self@.message(
                        cause@,
                    ),
                ErrorKind::Deserialization(_) => text@ == self@.message(Seq::empty()),
            },
    {
        match &self.kind {
            ErrorKind::Loader(e) => {
                let cause = e.to_string();
                self.message(cause.as_str())
            },
            ErrorKind::Deserialization(_) => self.message(""),
        }
    }
}

} // verus!
