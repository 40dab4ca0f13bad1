//! Model types of the remote-engine interface: how another node addresses a
//! table here.

use vstd::prelude::*;

verus! {

/// How a remote request fails to convert.
#[derive(Debug, Clone, Copy, PartialEq, Eq, Structural)]
pub enum Error {
    /// The request carries no table identifier.
    EmptyTableIdentifier,
    /// The request carries no read request.
    EmptyTableReadRequest,
    /// The request carries no row group.
    EmptyRowGroup,
}

/// The full name of a table: catalog, schema and table.
#[derive(Debug, Clone, PartialEq, Eq)]
pub struct TableIdentifier {
    pub catalog: Vec<u8>,
    pub schema: Vec<u8>,
    pub table: Vec<u8>,
}

/// A remote read: the addressed table and what to read of it.
#[derive(Debug)]
pub struct ReadRequest {
    pub table: TableIdentifier,
    /// The pushed-down predicate of the read.
    pub predicate: crate::sstprune::Predicate,
}

/// A remote write: the addressed table and the rows to write.
#[derive(Debug)]
pub struct WriteRequest {
    pub table: TableIdentifier,
    /// The rows to write, in the writer's column order.
    pub rows: Vec<crate::row::Row>,
}

} // verus!
