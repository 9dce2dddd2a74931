//! The factory: a schema, read once from its textual or its compiled
//! form, from which buffers are made.

use vstd::prelude::*;
use vstd::string::StringSliceAdditionalSpecFns;
use crate::buffer::{empty_bytes, NoProtoBuffer};
use crate::bytes::bytes_copy;
use crate::error::NP_Error;
use crate::json::{json_decode, parse_json, JsonValue, NP_JSON};
use crate::schema::{
    bytes_of_tree, described_tree, nodes_view, registry_of_tree, tree_of_bytes, NP_Schema,
    SchemaNode, SchemaTree,
};
use crate::schema_laws::{lemma_registry_sound, lemma_tree_of_bytes_valid};

verus! {

/// The tree and the registry that a textual description gives: there is
/// none where the description is none, passes a limit of the compiled
/// form, or holds a portal whose path leads nowhere.
pub open spec fn schema_of_json(j: JsonValue) -> Option<(SchemaTree, Seq<SchemaNode>)> {
    match described_tree(j, 0) {
        None => None,
        Some(t) => match registry_of_tree(t) {
            None => None,
            Some(nodes) => Some((t, nodes)),
        },
    }
}

/// The tree and the registry that the text of a description gives.
pub open spec fn schema_of_text(text: Seq<u8>) -> Option<(SchemaTree, Seq<SchemaNode>)> {
    match parse_json(text) {
        None => None,
        Some(j) => schema_of_json(j),
    }
}

/// The tree and the registry that compiled bytes give: there is none
/// where the bytes are not the compiled form of one tree and nothing
/// more, or hold a portal whose path leads nowhere.
pub open spec fn schema_of_bytes(b: Seq<u8>) -> Option<(SchemaTree, Seq<SchemaNode>)> {
    match tree_of_bytes(b, 0, 0) {
        None => None,
        Some((t, end)) => if end == b.len() {
            match registry_of_tree(t) {
                None => None,
                Some(nodes) => Some((t, nodes)),
            }
        } else {
            None
        },
    }
}

/// A schema, ready to make buffers from.
#[derive(Debug)]
pub struct NP_Factory {
    /// The registry of the schema.
    pub schema: NP_Schema,
    /// The compiled form of the schema.
    pub schema_bytes: Vec<u8>,
}

impl NP_Factory {
    /// Whether the registry of this factory is sound.
    pub open spec fn wf(&self) -> bool {
        self.schema.wf()
    }

    /// Reads a schema from a textual description that was parsed already.
    pub fn new_json_value(json_schema: &NP_JSON) -> (r: Result<NP_Factory, NP_Error>)
        ensures
            match schema_of_json(json_schema@) {
                Some((t, nodes)) => r matches Ok(f) && f.schema@ == nodes && f.schema_bytes@
                    == bytes_of_tree(t) && f.wf(),
                None => r matches Err(e) && e == NP_Error::Schema,
            },
    {
        let (bytes, plain) = match NP_Schema::from_json(Vec::new(), json_schema, 0) {
            Ok((_, bytes, plain)) => (bytes, plain),
            Err(e) => { return Err(e); },
        };
        let ghost t = described_tree(json_schema@, 0)->0;
        assert(nodes_view(plain@) =~= crate::schema::nodes_of_tree(t, 0));
        match NP_Schema::resolve_portals(plain) {
            Ok(parsed) => {
                proof {
                    lemma_registry_sound(t);
                }
                Ok(NP_Factory { schema: NP_Schema { parsed }, schema_bytes: bytes })
            },
            Err(e) => Err(e),
        }
    }

    /// Reads a schema from the text of its description.
    pub fn new_json(json_schema: &str) -> (r: Result<NP_Factory, NP_Error>)
        ensures
            match schema_of_text(json_schema.spec_bytes()) {
                Some((t, nodes)) => r matches Ok(f) && f.schema@ == nodes && f.schema_bytes@
                    == bytes_of_tree(t) && f.wf(),
                None => r matches Err(e) && e == NP_Error::Schema,
            },
    {
        match json_decode(json_schema.as_bytes()) {
            Some(parsed) => NP_Factory::new_json_value(&parsed),
            None => Err(NP_Error::Schema),
        }
    }

    /// Reads a schema from its compiled form.
    pub fn new_compiled(schema_bytes: &[u8]) -> (r: Result<NP_Factory, NP_Error>)
        ensures
            match schema_of_bytes(schema_bytes@) {
                Some((t, nodes)) => r matches Ok(f) && f.schema@ == nodes && f.schema_bytes@
                    == schema_bytes@ && f.wf(),
                None => r matches Err(e) && e == NP_Error::Schema,
            },
    {
        let (end, plain) = match NP_Schema::from_bytes(Vec::new(), 0, schema_bytes, 0) {
            Ok((_, end, plain)) => (end, plain),
            Err(e) => { return Err(e); },
        };
        if end != schema_bytes.len() {
            return Err(NP_Error::Schema);
        }
        let ghost t = tree_of_bytes(schema_bytes@, 0, 0).unwrap().0;
        assert(nodes_view(plain@) =~= crate::schema::nodes_of_tree(t, 0));
        match NP_Schema::resolve_portals(plain) {
            Ok(parsed) => {
                proof {
                    lemma_tree_of_bytes_valid(schema_bytes@, 0, 0);
                    lemma_registry_sound(t);
                }
                Ok(NP_Factory { schema: NP_Schema { parsed }, schema_bytes: bytes_copy(schema_bytes) })
            },
            Err(e) => Err(e),
        }
    }

    /// The compiled form of the schema.
    pub fn compile_schema(&self) -> (r: &[u8])
        ensures
            r@ == self.schema_bytes@,
    {
        self.schema_bytes.as_slice()
    }

    /// A buffer of this schema that holds nothing yet.
    pub fn empty_buffer(&self, capacity: Option<u32>) -> (r: NoProtoBuffer<'_>)
        ensures
            r@ == empty_bytes(),
            r.memory.schema == &self.schema,
            r.shaped(),
    {
        NoProtoBuffer::new(&self.schema, capacity)
    }

    /// A buffer of this schema over bytes that were produced earlier.
    pub fn open_buffer(&self, bytes: Vec<u8>) -> (r: NoProtoBuffer<'_>)
        ensures
            r@ == bytes@,
            r.memory.schema == &self.schema,
    {
        NoProtoBuffer::load(&self.schema, bytes)
    }
}

} // verus!
