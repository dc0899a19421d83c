//! Classified errors of the command line.

use crate::error::{ArrowConvertError, ArrowConvertErrorV};
use crate::io::{IoContext, IoContextV, RdbOpenError};
use crate::types::{IoError, IoErrorV, RdbError, RdbErrorV};
use vstd::prelude::*;
use vstd::std_specs::convert::FromSpecImpl;

verus! {

/// A failed read or write, with the path where it is known.
#[derive(Debug)]
pub enum IoFailure {
    /// The error alone.
    Bare(IoError),
    /// The error and the path.
    At(IoContext),
}

/// Any other failure.
#[derive(Debug)]
pub enum OtherFailure {
    /// A failed conversion.
    Convert(ArrowConvertError),
    /// A failure that is known by its message alone.
    Message(String),
}

/// A classified error. Each class has an exit code of its own.
#[derive(Debug)]
pub enum CliError {
    /// Usage error: bad flag value, unknown type name, conflicting options.
    Usage(String),
    /// I/O failure: file not found, permission denied, directory not writable.
    Io(IoFailure),
    /// The parser rejected the input as corrupt or unsupported.
    Corrupt(RdbError),
    /// `validate` ran to completion but found at least one type whose counts differ.
    ValidationFailed(String),
    /// Anything else.
    Other(OtherFailure),
}

/// What a `CliError` holds.
#[verifier::ext_equal]
pub enum CliErrorV {
    Usage(Seq<char>),
    Io(IoErrorV),
    IoAt(IoContextV),
    Corrupt(RdbErrorV),
    ValidationFailed(Seq<char>),
    Convert(ArrowConvertErrorV),
    Message(Seq<char>),
}

impl View for CliError {
    type V = CliErrorV;

    open spec fn view(&self) -> CliErrorV {
        match *self {
            CliError::Usage(m) => CliErrorV::Usage(m@),
            CliError::Io(IoFailure::Bare(e)) => CliErrorV::Io(e@),
            CliError::Io(IoFailure::At(c)) => CliErrorV::IoAt(c@),
            CliError::Corrupt(e) => CliErrorV::Corrupt(e@),
            CliError::ValidationFailed(m) => CliErrorV::ValidationFailed(m@),
            CliError::Other(OtherFailure::Convert(e)) => CliErrorV::Convert(e@),
            CliError::Other(OtherFailure::Message(m)) => CliErrorV::Message(m@),
        }
    }
}

/// What lies behind a parser error.
pub open spec fn rdb_causes(e: RdbErrorV) -> Seq<Seq<char>> {
    match e {
        RdbErrorV::Io(io) => seq![io.text()],
        _ => Seq::empty(),
    }
}

impl CliErrorV {
    /// The text of the error.
    pub open spec fn text(self) -> Seq<char> {
        match self {
            CliErrorV::Usage(m) => m,
            CliErrorV::Io(e) => e.text(),
            CliErrorV::IoAt(c) => c.text(),
            CliErrorV::Corrupt(e) => e.text(),
            CliErrorV::ValidationFailed(m) => m,
            CliErrorV::Convert(e) => e.text(),
            CliErrorV::Message(m) => m,
        }
    }

    /// What lies behind the error, from the outside in.
    pub open spec fn causes(self) -> Seq<Seq<char>> {
        match self {
            CliErrorV::Usage(_) => Seq::empty(),
            CliErrorV::ValidationFailed(_) => Seq::empty(),
            CliErrorV::Io(e) => seq![e.text()],
            CliErrorV::IoAt(c) => seq![c.text(), c.source.text()],
            CliErrorV::Corrupt(e) => seq![e.text()] + rdb_causes(e),
            CliErrorV::Convert(e) => seq![e.text()] + match e {
                ArrowConvertErrorV::Parser(p) => seq![p.text()] + rdb_causes(p),
                ArrowConvertErrorV::Arrow(m) => seq![m],
                ArrowConvertErrorV::Parquet(m) => seq![m],
                ArrowConvertErrorV::Io(io) => seq![io.text()],
                ArrowConvertErrorV::BatchFull => Seq::empty(),
            },
            CliErrorV::Message(m) => seq![m],
        }
    }

    /// The exit code of the class of the error.
    pub open spec fn code(self) -> int {
        match self {
            CliErrorV::Usage(_) => 2,
            CliErrorV::Io(_) => 3,
            CliErrorV::IoAt(_) => 3,
            CliErrorV::Corrupt(_) => 4,
            CliErrorV::ValidationFailed(_) => 5,
            CliErrorV::Convert(_) => 1,
            CliErrorV::Message(_) => 1,
        }
    }
}

/// Strings, each by its text.
pub open spec fn texts(v: Seq<String>) -> Seq<Seq<char>> {
    v.map_values(|s: String| s@)
}

impl CliError {
    /// The exit code for the process: 2 for usage, 3 for I/O, 4 for corrupt input, 5 for a
    /// failed validation, 1 for anything else.
    pub fn exit_code(&self) -> (r: i32)
        ensures
            r as int == self@.code(),
    {
        match self {
            CliError::Usage(_) => 2,
            CliError::Io(_) => 3,
            CliError::Corrupt(_) => 4,
            CliError::ValidationFailed(_) => 5,
            CliError::Other(_) => 1,
        }
    }

    /// The text of the error.
    pub fn message(&self) -> (r: String)
        ensures
            r@ == self@.text(),
    {
        match self {
            CliError::Usage(m) => m.clone(),
            CliError::Io(IoFailure::Bare(e)) => e.message(),
            CliError::Io(IoFailure::At(c)) => c.message(),
            CliError::Corrupt(e) => e.message(),
            CliError::ValidationFailed(m) => m.clone(),
            CliError::Other(OtherFailure::Convert(e)) => e.message(),
            CliError::Other(OtherFailure::Message(m)) => m.clone(),
        }
    }

    /// What lies behind the error, from the outside in.
    pub fn causes(&self) -> (r: Vec<String>)
        ensures
            texts(r@) == self@.causes(),
    {
        let mut out: Vec<String> = Vec::new();
        match self {
            CliError::Usage(_) => {},
            CliError::ValidationFailed(_) => {},
            CliError::Io(IoFailure::Bare(e)) => {
                out.push(e.message());
            },
            CliError::Io(IoFailure::At(c)) => {
                out.push(c.message());
                out.push(c.cause());
            },
            CliError::Corrupt(e) => {
                out.push(e.message());
                push_rdb_causes(e, &mut out);
            },
            CliError::Other(OtherFailure::Convert(e)) => {
                out.push(e.message());
                match e {
                    ArrowConvertError::Parser(p) => {
                        out.push(p.message());
                        push_rdb_causes(p, &mut out);
                    },
                    ArrowConvertError::Arrow(m) => {
                        out.push(m.clone());
                    },
                    ArrowConvertError::Parquet(m) => {
                        out.push(m.clone());
                    },
                    ArrowConvertError::Io(io) => {
                        out.push(io.message());
                    },
                    ArrowConvertError::BatchFull => {},
                }
            },
            CliError::Other(OtherFailure::Message(m)) => {
                out.push(m.clone());
            },
        }
        assert(texts(out@) == self@.causes());
        out
    }
}

fn push_rdb_causes(e: &RdbError, out: &mut Vec<String>)
    ensures
        texts(final(out)@) == texts(old(out)@) + rdb_causes(e@),
{
    match e {
        RdbError::Io(io) => {
            out.push(io.message());
        },
        _ => {},
    }
    assert(texts(out@) == texts(old(out)@) + rdb_causes(e@));
}

impl From<IoContext> for CliError {
    fn from(e: IoContext) -> (r: Self) {
        CliError::Io(IoFailure::At(e))
    }
}

impl FromSpecImpl<IoContext> for CliError {
    open spec fn obeys_from_spec() -> bool {
        true
    }

    open spec fn from_spec(e: IoContext) -> Self {
        CliError::Io(IoFailure::At(e))
    }
}

impl From<IoError> for CliError {
    fn from(e: IoError) -> (r: Self) {
        CliError::Io(IoFailure::Bare(e))
    }
}

impl FromSpecImpl<IoError> for CliError {
    open spec fn obeys_from_spec() -> bool {
        true
    }

    open spec fn from_spec(e: IoError) -> Self {
        CliError::Io(IoFailure::Bare(e))
    }
}

impl From<RdbOpenError> for CliError {
    fn from(e: RdbOpenError) -> (r: Self) {
        match e {
            RdbOpenError::Io(io) => CliError::Io(IoFailure::At(io)),
            RdbOpenError::Rdb(rdb) => CliError::Corrupt(rdb),
        }
    }
}

impl FromSpecImpl<RdbOpenError> for CliError {
    open spec fn obeys_from_spec() -> bool {
        true
    }

    open spec fn from_spec(e: RdbOpenError) -> Self {
        match e {
            RdbOpenError::Io(io) => CliError::Io(IoFailure::At(io)),
            RdbOpenError::Rdb(rdb) => CliError::Corrupt(rdb),
        }
    }
}

impl From<RdbError> for CliError {
    fn from(e: RdbError) -> (r: Self) {
        CliError::Corrupt(e)
    }
}

impl FromSpecImpl<RdbError> for CliError {
    open spec fn obeys_from_spec() -> bool {
        true
    }

    open spec fn from_spec(e: RdbError) -> Self {
        CliError::Corrupt(e)
    }
}

impl From<ArrowConvertError> for CliError {
    /// Parser errors on the way to Arrow are still corruption, and I/O errors are I/O errors.
    fn from(e: ArrowConvertError) -> (r: Self) {
        match e {
            ArrowConvertError::Parser(rdb) => CliError::Corrupt(rdb),
            ArrowConvertError::Io(io) => CliError::Io(IoFailure::Bare(io)),
            other => CliError::Other(OtherFailure::Convert(other)),
        }
    }
}

impl FromSpecImpl<ArrowConvertError> for CliError {
    open spec fn obeys_from_spec() -> bool {
        true
    }

    open spec fn from_spec(e: ArrowConvertError) -> Self {
        match e {
            ArrowConvertError::Parser(rdb) => CliError::Corrupt(rdb),
            ArrowConvertError::Io(io) => CliError::Io(IoFailure::Bare(io)),
            other => CliError::Other(OtherFailure::Convert(other)),
        }
    }
}

impl From<String> for CliError {
    /// Strings come from parsing what users typed, so they signal a usage mistake.
    fn from(s: String) -> (r: Self) {
        CliError::Usage(s)
    }
}

impl FromSpecImpl<String> for CliError {
    open spec fn obeys_from_spec() -> bool {
        true
    }

    open spec fn from_spec(s: String) -> Self {
        CliError::Usage(s)
    }
}

/// Whether two errors are of one class.
pub open spec fn same_class(a: CliErrorV, b: CliErrorV) -> bool {
    match a {
        CliErrorV::Usage(_) => b is Usage,
        CliErrorV::Io(_) | CliErrorV::IoAt(_) => b is Io || b is IoAt,
        CliErrorV::Corrupt(_) => b is Corrupt,
        CliErrorV::ValidationFailed(_) => b is ValidationFailed,
        CliErrorV::Convert(_) | CliErrorV::Message(_) => b is Convert || b is Message,
    }
}

/// Errors have the same exit code exactly if they are of one class, and none has that of
/// success.
pub proof fn law_exit_codes_tell_classes(a: CliErrorV, b: CliErrorV)
    ensures
        a.code() == b.code() <==> same_class(a, b),
        a.code() != 0,
{
}

} // verus!
