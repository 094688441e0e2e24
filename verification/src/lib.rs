//! A verified columnar table engine: named, typed, nullable columns
//! gathered into tables, with row selection, sorting, grouping, joins,
//! windowed transforms, delimited-text and JSON ingestion, and a
//! reader-writer handle for sharing one table across callers. Every
//! operation's behaviour is stated in its contract and proved.

use vstd::prelude::*;

pub mod types;
pub mod text;
pub mod column;
pub mod order;
pub mod arith;
pub mod table;
pub mod group;
pub mod join;
pub mod codec;
pub mod jsonio;
pub mod handle;
pub mod laws;

verus! {

/// Classifies every way an engine operation can fail. Each fallible
/// operation's contract says exactly which variant it returns and when.
#[derive(Clone, Copy, Debug, PartialEq, Eq, Structural)]
pub enum EngineError {
    NotFound,
    LengthMismatch,
    SchemaMismatch,
    TypeMismatch,
    CastError,
    IndexOutOfBounds,
    InvalidArgument,
    UnsupportedAggregator,
    UnsupportedJoinKind,
    ParseError,
    IoError,
    InternalError,
}

} // verus!
