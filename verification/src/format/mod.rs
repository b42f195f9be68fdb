//! The container that carries a dataset.
//!
//! A container is a header, a run of sections, a footer that describes them, and a trailer that says
//! where the footer is. The footer holds the schema, the reference to the decoder that reads the
//! dataset, and a digest for every section. The schema and the decoder module are bytes that nothing
//! here looks inside.
//!
//! Every section's digest is in the footer and the trailer carries a digest over the header and the
//! footer. [`Container::parse`] checks that one, which is cheap, and [`Container::verify`] checks the
//! sections, which reads the whole file.

pub mod builder;
pub mod container;
pub mod digest;
pub mod directory;
pub mod error;
pub mod frames;
pub mod layout;
pub mod layout_laws;
pub mod meta;
pub mod roundtrip;
pub mod tag;

pub use builder::Builder;
pub use container::Container;
pub use digest::Digest;
pub use directory::{Directory, FileHeader, Placement};
pub use error::{Error, Result};
pub use layout::{DecoderLocation, SchemaEncoding, SectionKind, FORMAT_MAJOR, FORMAT_MINOR, MAGIC};
pub use meta::{Dataset, DecoderRef, Schema, Section};
