//! A binary serialization runtime for large, read-mostly datasets.
//!
//! Records are packed bit by bit into fixed-size byte structures, kept as
//! named, schema-checked resources in a resource storage, built through
//! append-only containers and read back through borrowed views.
//!
//! - [`bits`] is the mathematical model of bit fields, with its laws.
//! - [`codec`] reads and writes bit fields in byte buffers.
//! - [`structs`] holds the views of single structures and their fields.
//! - [`array_view`] reads a resource as an array of structures.
//! - [`text`] compares schemas and describes how they differ.
//! - [`storage`] is the resource storage.
//! - [`buffer`] is the growth buffer of the containers.
//! - [`external_vector`] builds vectors element by element.
//! - [`multi_vector`] builds and reads multivectors.
//! - [`archive`] builds and opens archives.
//! - [`error`] is the error of all of them.

pub mod archive;
pub mod array_view;
pub mod bits;
pub mod buffer;
pub mod codec;
pub mod error;
pub mod external_vector;
pub mod multi_vector;
pub mod storage;
pub mod structs;
pub mod text;
