//! Structural validation of Arrow arrays that cross the sandbox boundary.
//!
//! A sandboxed decoder returns offsets, lengths and validity bitmaps that the host is about to trust.
//! This checks them first. What it checks is bounds: whether a string is valid UTF-8 is a question
//! about values, and reading a badly encoded one cannot leave its buffer.

pub mod check;
pub mod corpus;
pub mod error;
pub mod indirect;
pub mod laws;
pub mod layout;
pub mod rule_laws;
pub mod schema;
pub mod type_laws;

pub use check::{check, check_schema, MAX_DEPTH};
pub use error::{Invariant, Result, Violation};
pub use indirect::{check_dictionary, check_views};
pub use layout::{layout, Layout};
pub use schema::{DataType, Field, Kind, Schema};
