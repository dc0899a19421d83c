//! Errors of the conversion to Arrow and of the writers.

use crate::text;
use crate::types::{IoError, IoErrorV, RdbError, RdbErrorV};
use arrow::error::ArrowError;
use vstd::prelude::*;
use vstd::std_specs::convert::FromSpecImpl;

verus! {

/// Errors that can occur during RDB-to-Arrow conversion.
#[derive(Debug)]
pub enum ArrowConvertError {
    /// Error from the RDB parser.
    Parser(RdbError),
    /// Error from Arrow operations, by its message.
    Arrow(String),
    /// Error from Parquet operations, by its message.
    Parquet(String),
    /// I/O error.
    Io(IoError),
    /// The rows of an entry do not fit into the batch that they belong to.
    BatchFull,
}

/// What an `ArrowConvertError` holds.
#[verifier::ext_equal]
pub enum ArrowConvertErrorV {
    Parser(RdbErrorV),
    Arrow(Seq<char>),
    Parquet(Seq<char>),
    Io(IoErrorV),
    BatchFull,
}

impl View for ArrowConvertError {
    type V = ArrowConvertErrorV;

    open spec fn view(&self) -> ArrowConvertErrorV {
        match *self {
            ArrowConvertError::Parser(e) => ArrowConvertErrorV::Parser(e@),
            ArrowConvertError::Arrow(m) => ArrowConvertErrorV::Arrow(m@),
            ArrowConvertError::Parquet(m) => ArrowConvertErrorV::Parquet(m@),
            ArrowConvertError::Io(e) => ArrowConvertErrorV::Io(e@),
            ArrowConvertError::BatchFull => ArrowConvertErrorV::BatchFull,
        }
    }
}

impl ArrowConvertErrorV {
    /// The text of the error.
    pub open spec fn text(self) -> Seq<char> {
        match self {
            ArrowConvertErrorV::Parser(e) => "RDB parser error: "@ + e.text(),
            ArrowConvertErrorV::Arrow(m) => "Arrow error: "@ + m,
            ArrowConvertErrorV::Parquet(m) => "Parquet error: "@ + m,
            ArrowConvertErrorV::Io(e) => "I/O error: "@ + e.text(),
            ArrowConvertErrorV::BatchFull => "Arrow error: a batch has outgrown its columns"@,
        }
    }
}

impl ArrowConvertError {
    /// The text of the error.
    pub fn message(&self) -> (r: String)
        ensures
            r@ == self@.text(),
    {
        match self {
            ArrowConvertError::Parser(e) => text::join2("RDB parser error: ", e.message().as_str()),
            ArrowConvertError::Arrow(m) => text::join2("Arrow error: ", m.as_str()),
            ArrowConvertError::Parquet(m) => text::join2("Parquet error: ", m.as_str()),
            ArrowConvertError::Io(e) => text::join2("I/O error: ", e.message().as_str()),
            ArrowConvertError::BatchFull => "Arrow error: a batch has outgrown its columns".to_owned(),
        }
    }
}

impl From<RdbError> for ArrowConvertError {
    fn from(e: RdbError) -> (r: Self) {
        ArrowConvertError::Parser(e)
    }
}

impl FromSpecImpl<RdbError> for ArrowConvertError {
    open spec fn obeys_from_spec() -> bool {
        true
    }

    open spec fn from_spec(e: RdbError) -> Self {
        ArrowConvertError::Parser(e)
    }
}

impl From<IoError> for ArrowConvertError {
    fn from(e: IoError) -> (r: Self) {
        ArrowConvertError::Io(e)
    }
}

impl FromSpecImpl<IoError> for ArrowConvertError {
    open spec fn obeys_from_spec() -> bool {
        true
    }

    open spec fn from_spec(e: IoError) -> Self {
        ArrowConvertError::Io(e)
    }
}

/// Calls `to_string` on an `arrow::error::ArrowError`. Nothing is claimed of the text.
#[verifier::external_body]
pub(crate) fn arrow_message(e: &ArrowError) -> (r: String) {
    e.to_string()
}

} // verus!
