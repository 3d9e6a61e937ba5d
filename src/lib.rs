//! Conversion between textual mesh formats and in-memory mesh containers,
//! through a format-agnostic push (deserialization) and pull (serialization)
//! protocol.
//!
//! The MEDIT format is read and written in full; PLY is read in its ASCII
//! form. Readers fill any container that implements
//! [`de::DeserializeMesh`]; [`mesh::Mesh`] is the container of this crate.

pub mod attribute;
pub mod de;
pub mod entity;
pub mod error;
pub mod group;
pub mod item_reader;
pub mod medit;
pub mod mesh;
pub mod naming;
pub mod ply;
pub mod registry;
pub mod round_trip;
pub mod result;
pub mod ser;
pub mod text;
