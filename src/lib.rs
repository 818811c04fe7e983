//! A small in-memory table store with a single-predicate `SELECT` query
//! surface: typed values, rows, ordered secondary indexes, a query parser
//! and an executor that chooses between an index lookup and a full scan.

pub mod text;
pub mod value;
pub mod index;
pub mod table;
pub mod parser;
pub mod execute;
