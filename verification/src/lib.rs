//! The storage kernel of an embedded key-value engine: a fixed-size,
//! memory-mapped page holding an ordered set of variable-length key/value
//! records, with point lookup, insert-or-update, and tombstone deletion done
//! entirely by in-place byte manipulation — no auxiliary in-memory index.
//!
//! The page format, the sorted slot-directory protocol, and the leaf-page
//! algorithms are verified: every operation preserves the byte-level
//! structural invariants (offset ordering, record bounds, strict key order),
//! and each public operation's contract pins the entries the page denotes
//! before and after the call. File handling and memory-map creation sit
//! outside the library; a page receives its mapped region ready-made.

pub mod controller;
pub mod inner;
pub mod layout;
pub mod leaf;
pub mod meta;
pub mod model;
pub mod node;
pub mod page;
pub mod region;

use vstd::prelude::*;

verus! {

/// Errors raised by the page engine. Structural errors describe a page whose
/// header or offset fields fail validation when an existing region is reopened.
#[derive(Clone, Copy, Debug, PartialEq, Eq, Structural)]
pub enum MiniBaseError {
    HeaderInvalid,
    CapacityInvalid,
    DataHeadOffsetInvalid,
    DataTailOffsetInvalid,
    DataDirNotExist,
    SchemaNameInvalid,
    MeteFileAlreadyExist,
    DataFileAlreadyExist,
    ExtraFileAlreadyExist,
    Io,
}

pub type MiniBaseResult<T> = Result<T, MiniBaseError>;

} // verus!
