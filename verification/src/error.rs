//! The library's error type.

use vstd::prelude::*;

verus! {

/// What went wrong, with a message.
#[derive(Clone, Debug)]
pub enum Error {
    /// I/O failure from a capture source, file, or socket.
    Io(String),
    /// A capture/pcap/packet buffer was malformed or truncated.
    Parse(String),
    /// Configuration was invalid or referenced an unknown option.
    Config(String),
    /// A requested capture backend is not available on this platform/build.
    UnsupportedBackend(String),
}

/// An [`Error`] with the text of its message.
pub ghost enum Failure {
    Io(Seq<char>),
    Parse(Seq<char>),
    Config(Seq<char>),
    UnsupportedBackend(Seq<char>),
}

impl Failure {
    /// The one-line description of the failure.
    pub open spec fn text(self) -> Seq<char> {
        match self {
            Failure::Io(m) => "io error: "@ + m,
            Failure::Parse(m) => "parse error: "@ + m,
            Failure::Config(m) => "config error: "@ + m,
            Failure::UnsupportedBackend(m) => "unsupported capture backend: "@ + m,
        }
    }
}

impl View for Error {
    type V = Failure;

    open spec fn view(&self) -> Failure {
        match *self {
            Error::Io(m) => Failure::Io(m@),
            Error::Parse(m) => Failure::Parse(m@),
            Error::Config(m) => Failure::Config(m@),
            Error::UnsupportedBackend(m) => Failure::UnsupportedBackend(m@),
        }
    }
}

impl Error {
    /// The one-line description of the error.
    pub fn to_text(&self) -> (s: String)
        ensures
            s@ == self@.text(),
    {
        match self {
            Error::Io(m) => {
                let mut s = "io error: ".to_owned();
                s.append(m.as_str());
                s
            },
            Error::Parse(m) => {
                let mut s = "parse error: ".to_owned();
                s.append(m.as_str());
                s
            },
            Error::Config(m) => {
                let mut s = "config error: ".to_owned();
                s.append(m.as_str());
                s
            },
            Error::UnsupportedBackend(m) => {
                let mut s = "unsupported capture backend: ".to_owned();
                s.append(m.as_str());
                s
            },
        }
    }
}

} // verus!
