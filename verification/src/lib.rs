//! A schema-driven binary serialization engine. Values live inside one
//! contiguous byte buffer and are reached in place through cursors; nothing
//! is unpacked into a tree of objects.
//!
//! A schema is read once, from its textual or its compiled form, into a
//! flat registry of nodes. A portal is a node that stands for another node
//! of the same registry, so that a schema may describe a type that holds
//! itself while the registry holds no cycle. Every traversal counts its
//! steps and stops at `MAX_DEPTH`, which is what keeps a portal that leads
//! back to itself from being followed forever.
//!
//! - `memory`: the bytes, bump allocation, bounds-checked reads and writes
//! - `json`: JSON values, their text, and the parser for it
//! - `schema`: the registry and the three forms of a schema
//! - `factory`: a schema ready to make buffers from
//! - `pointer`: cursors, and what each kind of value does with one
//! - `value`, `edits`: what reading gives and what writing does, as models
//! - `shape`: the layout of a buffer that was written here
//! - `buffer`: get, set, delete, import, compact and close, by path
//! - `laws` and the other `_laws` modules: what is proved of all this

#![allow(non_camel_case_types)]

pub mod buffer;
pub mod bytes;
pub mod compact_laws;
pub mod edit_laws;
pub mod edits;
pub mod error;
pub mod factory;
pub mod json;
pub mod json_laws;
pub mod laws;
pub mod memory;
pub mod pointer;
pub mod read_laws;
pub mod schema;
pub mod schema_laws;
pub mod shape;
pub mod shape_laws;
pub mod tight_laws;
pub mod value;
pub mod write_laws;

use vstd::prelude::*;

verus! {

/// Format tag stored in the first byte of every buffer.
pub const PROTOCOL_VERSION: u8 = 1;

/// How deep a traversal may go before it fails: every dereference of a
/// portal and every descent into a nested value counts one.
pub const MAX_DEPTH: usize = 255;

} // verus!
