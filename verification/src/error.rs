use vstd::prelude::*;
use vstd::std_specs::convert::FromSpecImpl;

verus! {

/// `core::fmt::Error`, the fault a text sink reports. It carries no data.
#[verifier::external_type_specification]
#[verifier::external_body]
pub struct ExFmtError(core::fmt::Error);

/// Why a point could not be encoded.
#[derive(Debug)]
pub enum Error {
    /// A measurement name, tag key or field key begins with an underscore.
    NamingRestrictions,
    /// The point has no field.
    EmptyFieldSet,
    /// A measurement name, tag key, tag value or field key is longer than 64 KiB.
    StringLengthLimit,
    /// A measurement name, tag key, tag value or field key holds a newline.
    Newline,
    /// The sink reported a fault.
    Fmt(core::fmt::Error),
}

impl Error {
    /// The message that describes this error.
    pub fn message(&self) -> (s: String)
        ensures
            s@ == self.message_text(),
    {
        match self {
            Error::NamingRestrictions => String::from_str(
                "measurement names, tag keys, and field keys cannot begin with an underscore",
            ),
            Error::EmptyFieldSet => String::from_str("points must have at least one field"),
            Error::StringLengthLimit => String::from_str("length limit 64KB"),
            Error::Newline => String::from_str(
                "line protocol does not support the newline character in tag or field values",
            ),
            Error::Fmt(_) => String::from_str("an error occurred when formatting an argument"),
        }
    }

    /// The text of `message`. For a sink's fault it is the text that
    /// `core::fmt::Error` shows.
    pub open spec fn message_text(&self) -> Seq<char> {
        match self {
            Error::NamingRestrictions =>
                "measurement names, tag keys, and field keys cannot begin with an underscore"@,
            Error::EmptyFieldSet => "points must have at least one field"@,
            Error::StringLengthLimit => "length limit 64KB"@,
            Error::Newline =>
                "line protocol does not support the newline character in tag or field values"@,
            Error::Fmt(_) => "an error occurred when formatting an argument"@,
        }
    }
}

impl From<core::fmt::Error> for Error {
    fn from(value: core::fmt::Error) -> (e: Error) {
        Error::Fmt(value)
    }
}

impl FromSpecImpl<core::fmt::Error> for Error {
    open spec fn obeys_from_spec() -> bool {
        true
    }

    open spec fn from_spec(value: core::fmt::Error) -> Error {
        Error::Fmt(value)
    }
}

} // verus!
