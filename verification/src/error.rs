//! What can go wrong when a model is loaded or audio is enhanced.

use crate::text::{debug_str, debug_text, decimal, push_decimal};
use vstd::prelude::*;
use vstd::string::*;

verus! {

/// Errors returned when loading a model or enhancing audio.
#[derive(Debug)]
#[non_exhaustive]
pub enum Error {
    /// Reading the weight blob or manifest from disk failed; what the system said of it.
    Io(String),
    /// The weight blob or manifest is malformed.
    Weights(String),
    /// A tensor the model needs is absent from the manifest.
    MissingTensor(String),
    /// Input audio was too short to produce a single 10 ms frame.
    TooShort {
        /// Number of samples supplied.
        samples: usize,
        /// Minimum number of samples required (one frame).
        needed: usize,
    },
}

/// What an [`Error`] says.
pub enum ErrorView {
    Io(Seq<char>),
    Weights(Seq<char>),
    MissingTensor(Seq<char>),
    TooShort { samples: nat, needed: nat },
}

impl View for Error {
    type V = ErrorView;

    open spec fn view(&self) -> ErrorView {
        match *self {
            Error::Io(e) => ErrorView::Io(e@),
            Error::Weights(m) => ErrorView::Weights(m@),
            Error::MissingTensor(n) => ErrorView::MissingTensor(n@),
            Error::TooShort { samples, needed } => ErrorView::TooShort {
                samples: samples as nat,
                needed: needed as nat,
            },
        }
    }
}

impl Error {
    /// The message that a user sees.
    pub open spec fn text(self) -> Seq<char> {
        match self {
            Error::Io(e) => "io error: "@ + e@,
            Error::Weights(m) => "invalid weights: "@ + m@,
            Error::MissingTensor(n) => "weights are missing tensor "@ + debug_text(n@),
            Error::TooShort { samples, needed } => "audio too short: "@ + decimal(samples as nat)
                + " samples, need at least "@ + decimal(needed as nat),
        }
    }

    /// The message that a user sees.
    pub fn message(&self) -> (r: String)
        ensures
            r@ == self.text(),
    {
        match self {
            Error::Io(e) => {
                let mut s = "io error: ".to_owned();
                s.append(e.as_str());
                s
            },
            Error::Weights(m) => {
                let mut s = "invalid weights: ".to_owned();
                s.append(m.as_str());
                s
            },
            Error::MissingTensor(n) => {
                let mut s = "weights are missing tensor ".to_owned();
                s.append(debug_str(n.as_str()).as_str());
                s
            },
            Error::TooShort { samples, needed } => {
                let mut s = "audio too short: ".to_owned();
                push_decimal(&mut s, *samples);
                s.append(" samples, need at least ");
                push_decimal(&mut s, *needed);
                s
            },
        }
    }

    /// The error behind this one, where reading a file failed.
    pub fn source(&self) -> (r: Option<&String>)
        ensures
            r == match *self {
                Error::Io(e) => Some(&e),
                _ => None::<&String>,
            },
    {
        match self {
            Error::Io(e) => Some(e),
            _ => None,
        }
    }
}

} // verus!
