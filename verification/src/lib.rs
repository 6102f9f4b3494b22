//! An in-memory columnar table engine: typed, equal-length columns under a
//! shared schema, with relational operations over them — row filtering,
//! stable multi-key sorting, grouped summation, pivoting, point lookup
//! through a prebuilt index, and zero-copy row-range slicing.
//!
//! Every operation consumes a table and produces a new, independently owned
//! table; inputs are never mutated. Failures are synchronous `Result` errors,
//! raised before any partial output is built.
pub mod value;
pub mod column;
pub mod table;
pub mod filter;
pub mod sort;
pub mod group;
pub mod index;
pub mod slice;
pub mod text;
pub mod pivot;
pub mod paging;
