//! The error type of the crate.
use vstd::prelude::*;

use crate::blob;

verus! {

/// Any error caused by this crate.
#[derive(Clone, Copy, Debug, PartialEq, Eq, Structural)]
#[non_exhaustive]
pub enum Error {
    /// Not produced by this crate.
    Unknown,
    /// The blob itself is malformed.
    Blob(blob::Error),
    /// A node name holds more than one `@`.
    InvalidNodeName,
    /// A string path does not start with a slash.
    InvalidPath,
    /// A count of cells is above the limit of [`Cells`](crate::Cells).
    TooManyCells,
    /// The value of a property does not fit the requested type.
    UnsuitableProperty,
}

impl Error {
    /// The text that describes the error.
    pub open spec fn spec_message(self) -> Seq<char> {
        match self {
            Error::Unknown => "devicetree error: "@ + "unknown"@,
            Error::Blob(err) => err.spec_message(),
            Error::InvalidNodeName => "devicetree error: "@ + "invalid node name"@,
            Error::InvalidPath => "devicetree error: "@ + "invalid path"@,
            Error::TooManyCells => "devicetree error: "@ + "too many cells"@,
            Error::UnsuitableProperty => "devicetree error: "@ + "unsuitable property"@,
        }
    }

    /// Describes the error in words.
    pub fn message(&self) -> (text: String)
        ensures
            text@ == self.spec_message(),
    {
        let description: &str = match self {
            Error::Unknown => "unknown",
            Error::Blob(err) => return err.message(),
            Error::InvalidNodeName => "invalid node name",
            Error::InvalidPath => "invalid path",
            Error::TooManyCells => "too many cells",
            Error::UnsuitableProperty => "unsuitable property",
        };
        let mut text = "devicetree error: ".to_owned();
        text.append(description);
        text
    }
}

impl From<blob::Error> for Error {
    fn from(err: blob::Error) -> (r: Error) {
        Error::Blob(err)
    }
}

impl vstd::std_specs::convert::FromSpecImpl<blob::Error> for Error {
    open spec fn obeys_from_spec() -> bool {
        true
    }

    open spec fn from_spec(err: blob::Error) -> Error {
        Error::Blob(err)
    }
}

} // verus!
