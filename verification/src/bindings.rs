//! What the Python bindings decide.

use crate::batcher::BatcherConfig;
use crate::error::{ArrowConvertError, ArrowConvertErrorV};
use crate::export::batcher_config;
use crate::schema::{heuristics_named, Heuristic};
use crate::types::{RdbError, RdbErrorV};
use vstd::prelude::*;

verus! {

/// Checks the batching options of a call.
pub fn make_batcher_config(
    batch_size: usize,
    batch_bytes: Option<usize>,
    max_entry_bytes: Option<usize>,
    heuristics: &str,
) -> (r: Result<BatcherConfig, String>)
    ensures
        if batch_size == 0 {
            r matches Err(e) && e@ == "batch_size must be > 0"@
        } else {
            match heuristics_named(heuristics@) {
                Err(m) => r matches Err(e) && e@ == m,
                Ok(set) => r matches Ok(c) && c.heuristics@ == set && c == (BatcherConfig {
                    batch_size,
                    batch_bytes: match batch_bytes {
                        Some(n) => Some(n),
                        None => Some(67_108_864usize),
                    },
                    max_entry_bytes,
                    heuristics: c.heuristics,
                }),
            }
        },
{
    if batch_size == 0 {
        return Err("batch_size must be > 0".to_owned());
    }
    match Heuristic::parse_set(heuristics) {
        Err(e) => Err(e),
        Ok(set) => Ok(batcher_config(batch_size, batch_bytes, max_entry_bytes, set)),
    }
}

/// Checks the row group size of a call.
pub fn check_row_group_size(row_group_size: usize) -> (r: Result<(), String>)
    ensures
        r is Ok <==> row_group_size > 0,
        r matches Err(e) ==> e@ == "row_group_size must be > 0"@,
{
    if row_group_size == 0 {
        Err("row_group_size must be > 0".to_owned())
    } else {
        Ok(())
    }
}

/// The Python exceptions that errors are raised as.
#[derive(Debug, Clone, Copy, PartialEq, Eq, Structural)]
pub enum ExceptionKind {
    OsError,
    ValueError,
    RuntimeError,
}

/// The exception of a parser error, and its text.
pub open spec fn rdb_exception(e: RdbErrorV) -> (ExceptionKind, Seq<char>) {
    match e {
        RdbErrorV::Io(io) => (ExceptionKind::OsError, io.text()),
        other => (ExceptionKind::ValueError, other.text()),
    }
}

/// The exception of a conversion error, and its text.
pub open spec fn convert_exception(e: ArrowConvertErrorV) -> (ExceptionKind, Seq<char>) {
    match e {
        ArrowConvertErrorV::Io(io) => (ExceptionKind::OsError, io.text()),
        ArrowConvertErrorV::Parser(rdb) => rdb_exception(rdb),
        other => (ExceptionKind::RuntimeError, other.text()),
    }
}

/// The exception of a parser error, and its text.
pub fn rdb_to_py_err(e: &RdbError) -> (r: (ExceptionKind, String))
    ensures
        (r.0, r.1@) == rdb_exception(e@),
{
    match e {
        RdbError::Io(io) => (ExceptionKind::OsError, io.message()),
        other => (ExceptionKind::ValueError, other.message()),
    }
}

/// The exception of a conversion error, and its text.
pub fn arrow_to_py_err(e: &ArrowConvertError) -> (r: (ExceptionKind, String))
    ensures
        (r.0, r.1@) == convert_exception(e@),
{
    match e {
        ArrowConvertError::Io(io) => (ExceptionKind::OsError, io.message()),
        ArrowConvertError::Parser(rdb) => rdb_to_py_err(rdb),
        other => (ExceptionKind::RuntimeError, other.message()),
    }
}

} // verus!
