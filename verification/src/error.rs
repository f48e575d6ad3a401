//! The error model: a closed taxonomy of the four failure kinds that the
//! codec engine can report. Every failure path of reading or writing a
//! configuration file is mediated through [`Error`]; nothing is silently
//! swallowed or auto-corrected.

use vstd::prelude::*;

verus! {

/// Mathematical view of an [`Error`]: the same four kinds, with every
/// embedded context string seen as a sequence of characters.
pub enum SpecError {
    /// Diagnostic text of an underlying I/O failure.
    Io(Seq<char>),
    /// The offending raw line, verbatim.
    Format(Seq<char>),
    /// The declared type name and the offending raw value string.
    Parse(Seq<char>, Seq<char>),
    /// The name of the absent field.
    Missing(Seq<char>),
}

/// A failure of reading or writing a configuration file.
///
/// Each kind carries enough literal context (the raw line, the field
/// name, the declared type name, the raw value) to diagnose the problem
/// without re-reading the file.
#[derive(Debug, Clone, PartialEq, Eq)]
pub enum Error {
    /// The file could not be read or written; carries the diagnostic
    /// text of the underlying I/O failure.
    Io(String),
    /// A line is incorrectly formatted: it does not split into exactly
    /// two `=`-delimited parts. Carries the offending line verbatim.
    Format(String),
    /// A raw value string could not be converted into its declared
    /// type. Carries the declared type name and the raw value.
    Parse(String, String),
    /// A field required by the schema is absent from the parsed line
    /// set. Carries the field name.
    Missing(String),
}

impl View for Error {
    type V = SpecError;

    open spec fn view(&self) -> SpecError {
        match self {
            Error::Io(m) => SpecError::Io(m@),
            Error::Format(l) => SpecError::Format(l@),
            Error::Parse(t, v) => SpecError::Parse(t@, v@),
            Error::Missing(f) => SpecError::Missing(f@),
        }
    }
}

impl Error {
    /// The exact human-readable rendering of each error kind.
    pub open spec fn spec_message(self) -> Seq<char> {
        match self {
            Error::Io(m) => m@,
            Error::Format(l) => "Incorrect formatting: "@ + l@,
            Error::Parse(t, v) => "Failed to parse "@ + t@ + " from '"@ + v@ + "'"@,
            Error::Missing(f) => "Missing field: "@ + f@,
        }
    }

    /// A human-readable diagnostic message for this error.
    pub fn message(&self) -> (r: String)
        ensures
            r@ == self.spec_message(),
    {
        match self {
            Error::Io(m) => m.clone(),
            Error::Format(l) => {
                let mut s = "Incorrect formatting: ".to_owned();
                s.append(l.as_str());
                s
            },
            Error::Parse(t, v) => {
                let mut s = "Failed to parse ".to_owned();
                s.append(t.as_str());
                s.append(" from '");
                s.append(v.as_str());
                s.append("'");
                s
            },
            Error::Missing(f) => {
                let mut s = "Missing field: ".to_owned();
                s.append(f.as_str());
                s
            },
        }
    }

    /// The diagnostic text of the underlying cause, exposed for chained
    /// inspection: present exactly for the `Io` kind.
    pub fn cause(&self) -> (r: Option<&String>)
        ensures
            match self {
                Error::Io(m) => r == Some(m),
                _ => r is None,
            },
    {
        match self {
            Error::Io(m) => Some(m),
            _ => None,
        }
    }
}

} // verus!
