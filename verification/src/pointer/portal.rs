//! The portal type: a node that stands for another node of the schema,
//! named by a path from the root. Through portals a schema can describe a
//! type that holds itself.

use vstd::prelude::*;
use crate::MAX_DEPTH;
use crate::bytes::{bytes_append, bytes_copy, copy_range};
use crate::memory::NP_Memory;
use crate::edits::{compact_value, import_value};
use crate::pointer::{compacted_cursor, exported, sized, NP_Cursor};
use crate::error::NP_Error;
use crate::json::{JsonValue, NP_JSON};
use crate::schema::{
    bytes_of_tree, limited, nodes_of_tree, nodes_view, portal_json, portal_of_bytes,
    portal_of_json, word_portal, word_to, word_type, NP_Parsed_Schema, NP_TypeKeys, SchemaNode,
    SchemaTree, MAX_PATH, TAG_PORTAL,
};

verus! {

/// Defines the behavior of the portal type.
pub struct NP_Portal();

impl NP_Portal {
    /// The name and the kind of this type.
    pub fn type_idx() -> (r: (&'static str, NP_TypeKeys))
        ensures
            r.0@ == "portal"@,
            r.1 == NP_TypeKeys::Portal,
    {
        ("portal", NP_TypeKeys::Portal)
    }

    /// The name and the kind of this value's type.
    pub fn self_type_idx(&self) -> (r: (&'static str, NP_TypeKeys))
        ensures
            r.0@ == "portal"@,
            r.1 == NP_TypeKeys::Portal,
    {
        ("portal", NP_TypeKeys::Portal)
    }

    /// The textual description of a portal with the given path.
    pub fn description(path: &[u8]) -> (r: NP_JSON)
        ensures
            r@ == portal_json(path@),
    {
        let mut schema_json: Vec<(Vec<u8>, NP_JSON)> = Vec::new();
        schema_json.push((word_type(), NP_JSON::string_of(word_portal())));
        schema_json.push((word_to(), NP_JSON::string_of(bytes_copy(path))));
        proof {
            NP_JSON::lemma_members_view(schema_json@, schema_json@.len());
        }
        let r = NP_JSON::dictionary_of(schema_json);
        assert(r@->Dictionary_0 =~= portal_json(path@)->Dictionary_0);
        r
    }

    /// The textual description of the node at `address`, if it is a portal:
    /// its type and its path. The JSON null if it is not.
    pub fn schema_to_json(schema: &Vec<NP_Parsed_Schema>, address: usize) -> (r: Result<
        NP_JSON,
        NP_Error,
    >)
        requires
            address < schema.len(),
        ensures
            r matches Ok(j) && j@ == (match schema@[address as int]@ {
                SchemaNode::Portal { path, .. } => portal_json(path),
                _ => JsonValue::Null,
            }),
    {
        match &schema[address] {
            NP_Parsed_Schema::Portal { path, .. } => Ok(NP_Portal::description(path.as_slice())),
            _ => Ok(NP_JSON::Null),
        }
    }

    /// Adds the portal that `json_schema` describes to the registry under
    /// construction, not yet resolved, and gives its compiled form: the
    /// tag, the length of the path in two bytes, and the path. Fails when
    /// there is no string `to`, or the path is longer than two bytes can say.
    pub fn from_json_to_schema(schema: Vec<NP_Parsed_Schema>, json_schema: &NP_JSON) -> (r: Result<
        (bool, Vec<u8>, Vec<NP_Parsed_Schema>),
        NP_Error,
    >)
        ensures
            match r {
                Ok((sortable, bytes, nodes)) => {
                    &&& !sortable
                    &&& limited(portal_of_json(json_schema@), 0) matches Some(t)
                    &&& bytes@ == bytes_of_tree(t)
                    &&& nodes_view(nodes@) == nodes_view(schema@) + nodes_of_tree(
                        t,
                        schema@.len() as int,
                    )
                },
                Err(e) => e == NP_Error::Schema && limited(portal_of_json(json_schema@), 0)
                    is None,
            },
    {
        let mut schema = schema;
        let ghost before = nodes_view(schema@);
        let to: &NP_JSON = match json_schema.get(word_to().as_slice()) {
            Some(value) => value,
            None => { return Err(NP_Error::Schema); },
        };
        match to {
            NP_JSON::String(path) => {
                if path.len() > MAX_PATH {
                    return Err(NP_Error::Schema);
                }
                let mut schema_vec: Vec<u8> = Vec::new();
                schema_vec.push(TAG_PORTAL);
                schema.push(
                    NP_Parsed_Schema::Portal {
                        path: bytes_copy(path.as_slice()),
                        schema: 0,
                        parent_schema: 0,
                    },
                );
                let size: usize = path.len();
                schema_vec.push((size / 256) as u8);
                schema_vec.push((size % 256) as u8);
                bytes_append(&mut schema_vec, path.as_slice());
                let ghost t = SchemaTree::Portal(path@);
                assert(schema_vec@ =~= bytes_of_tree(t));
                assert(nodes_view(schema@) =~= before + nodes_of_tree(t, before.len() as int));
                Ok((false, schema_vec, schema))
            },
            _ => Err(NP_Error::Schema),
        }
    }

    /// Adds the portal whose compiled form starts at `address` to the
    /// registry under construction, not yet resolved, and gives the
    /// position behind it. Fails when the bytes end before the path does.
    pub fn from_bytes_to_schema(schema: Vec<NP_Parsed_Schema>, address: usize, bytes: &[u8]) -> (r:
        Result<(bool, usize, Vec<NP_Parsed_Schema>), NP_Error>)
        ensures
            match r {
                Ok((sortable, next, nodes)) => {
                    &&& !sortable
                    &&& portal_of_bytes(bytes@, address as int) matches Some((t, end))
                    &&& end == next
                    &&& address < next <= bytes.len()
                    &&& nodes_view(nodes@) == nodes_view(schema@) + nodes_of_tree(
                        t,
                        schema@.len() as int,
                    )
                },
                Err(e) => e == NP_Error::Schema && portal_of_bytes(bytes@, address as int)
                    is None,
            },
    {
        let mut schema = schema;
        let ghost before = nodes_view(schema@);
        if address > bytes.len() || bytes.len() - address < 3 {
            return Err(NP_Error::Schema);
        }
        let path_size: usize = (bytes[address + 1] as usize) * 256 + (bytes[address + 2] as usize);
        if bytes.len() - address - 3 < path_size {
            return Err(NP_Error::Schema);
        }
        let path: Vec<u8> = copy_range(bytes, address + 3, address + 3 + path_size);
        let ghost t = SchemaTree::Portal(path@);
        schema.push(NP_Parsed_Schema::Portal { path, schema: 0, parent_schema: 0 });
        assert(nodes_view(schema@) =~= before + nodes_of_tree(t, before.len() as int));
        Ok((false, address + 3 + path_size, schema))
    }

    /// A portal has no value of its own to fall back on.
    pub fn default_value(_depth: usize, _schema_addr: usize, _schemas: &Vec<NP_Parsed_Schema>) -> (r:
        Option<NP_Portal>)
        ensures
            r is None,
    {
        None
    }
}


impl NP_Portal {
    /// Exports the value behind a portal: the value is that of the node
    /// the portal points at, in the same slot, one step deeper. The JSON
    /// null if the node at the cursor is no portal.
    pub fn to_json(depth: usize, cursor: &NP_Cursor, memory: &NP_Memory) -> (r: Result<
        NP_JSON,
        NP_Error,
    >)
        requires
            memory.schema.wf(),
            cursor.schema_addr < memory.schema@.len(),
        ensures
            match memory.schema@[cursor.schema_addr as int] {
                SchemaNode::Portal { .. } => exported(cursor.value(memory, depth as nat), r),
                _ => r matches Ok(j) && j@ == JsonValue::Null,
            },
        decreases MAX_DEPTH + 1 - depth, 0nat,
    {
        match &memory.schema.parsed[cursor.schema_addr] {
            NP_Parsed_Schema::Portal { schema, parent_schema, .. } => {
                if depth > MAX_DEPTH {
                    return Err(NP_Error::RecursionLimit);
                }
                let next = NP_Cursor::new(*schema, *parent_schema, cursor.buff_addr);
                NP_Cursor::json_encode(depth + 1, &next, memory)
            },
            _ => Ok(NP_JSON::Null),
        }
    }

    /// Computes the size of the value behind a portal: that of the value
    /// of the node the portal points at, in the same slot, one step
    /// deeper. Fails if the node at the cursor is no portal.
    pub fn get_size(depth: usize, cursor: &NP_Cursor, memory: &NP_Memory) -> (r: Result<
        usize,
        NP_Error,
    >)
        requires
            memory.schema.wf(),
            cursor.schema_addr < memory.schema@.len(),
        ensures
            match memory.schema@[cursor.schema_addr as int] {
                SchemaNode::Portal { .. } => sized(cursor.value(memory, depth as nat), r),
                _ => r == Err::<usize, NP_Error>(NP_Error::Schema),
            },
        decreases MAX_DEPTH + 1 - depth, 0nat,
    {
        match &memory.schema.parsed[cursor.schema_addr] {
            NP_Parsed_Schema::Portal { schema, parent_schema, .. } => {
                if depth > MAX_DEPTH {
                    return Err(NP_Error::RecursionLimit);
                }
                let next = NP_Cursor::new(*schema, *parent_schema, cursor.buff_addr);
                NP_Cursor::calc_size(depth + 1, &next, memory)
            },
            _ => Err(NP_Error::Schema),
        }
    }
}


impl NP_Portal {
    /// Imports a JSON value through a portal: into the same slot, as the
    /// node the portal points at says, one step deeper. Nothing is done if
    /// the node at the cursor is no portal.
    pub fn set_from_json(
        depth: usize,
        apply_null: bool,
        cursor: NP_Cursor,
        memory: &mut NP_Memory,
        value: &NP_JSON,
    ) -> (r: Result<(), NP_Error>)
        requires
            old(memory).schema.wf(),
            cursor.schema_addr < old(memory).schema@.len(),
        ensures
            final(memory).schema == old(memory).schema,
            match old(memory).schema@[cursor.schema_addr as int] {
                SchemaNode::Portal { .. } => {
                    let done = import_value(
                        old(memory).schema@,
                        old(memory)@,
                        cursor.schema_addr as int,
                        cursor.buff_addr as int,
                        depth as nat,
                        apply_null,
                        value@,
                    );
                    final(memory)@ == done.0 && r == done.1
                },
                _ => final(memory)@ == old(memory)@ && r == Ok::<(), NP_Error>(()),
            },
        decreases MAX_DEPTH + 1 - depth, 0nat,
    {
        let schema = memory.schema;
        match &schema.parsed[cursor.schema_addr] {
            NP_Parsed_Schema::Portal { schema: target, parent_schema, .. } => {
                if depth > MAX_DEPTH {
                    return Err(NP_Error::RecursionLimit);
                }
                let next = NP_Cursor::new(*target, *parent_schema, cursor.buff_addr);
                NP_Cursor::set_from_json(depth + 1, apply_null, next, memory, value)
            },
            _ => Ok(()),
        }
    }

    /// Copies the value behind a portal: as the value of the node the
    /// portal points at, from the same slot into the same slot, one step
    /// deeper, so that the copy holds the value itself and nothing of the
    /// portal. Fails if the node at the cursor is no portal.
    pub fn do_compact(
        depth: usize,
        from_cursor: NP_Cursor,
        from_memory: &NP_Memory,
        to_cursor: NP_Cursor,
        to_memory: &mut NP_Memory,
    ) -> (r: Result<NP_Cursor, NP_Error>)
        requires
            from_memory.schema.wf(),
            from_cursor.schema_addr < from_memory.schema@.len(),
        ensures
            final(to_memory).schema == old(to_memory).schema,
            match from_memory.schema@[from_cursor.schema_addr as int] {
                SchemaNode::Portal { .. } => {
                    let done = compact_value(
                        from_memory.schema@,
                        from_memory@,
                        from_cursor.schema_addr as int,
                        from_cursor.buff_addr as int,
                        depth as nat,
                        old(to_memory)@,
                        to_cursor.buff_addr as int,
                    );
                    final(to_memory)@ == done.0 && match done.1 {
                        Ok(_) => r == Ok::<NP_Cursor, NP_Error>(
                            compacted_cursor(
                                from_memory.schema@,
                                from_cursor.schema_addr as int,
                                depth as nat,
                                to_cursor,
                            ),
                        ),
                        Err(e) => r == Err::<NP_Cursor, NP_Error>(e),
                    }
                },
                _ => final(to_memory)@ == old(to_memory)@ && r == Err::<NP_Cursor, NP_Error>(
                    NP_Error::Schema,
                ),
            },
        decreases MAX_DEPTH + 1 - depth, 0nat,
    {
        match &from_memory.schema.parsed[from_cursor.schema_addr] {
            NP_Parsed_Schema::Portal { schema, parent_schema, .. } => {
                if depth > MAX_DEPTH {
                    return Err(NP_Error::RecursionLimit);
                }
                let from_next = NP_Cursor::new(*schema, *parent_schema, from_cursor.buff_addr);
                let to_next = NP_Cursor::new(*schema, *parent_schema, to_cursor.buff_addr);
                NP_Cursor::compact(depth + 1, from_next, from_memory, to_next, to_memory)
            },
            _ => Err(NP_Error::Schema),
        }
    }
}

} // verus!
