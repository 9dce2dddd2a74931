//! What writing does to the bytes of a buffer: the model that setting,
//! deleting, importing and compacting are stated over.
//!
//! Storage is only ever added at the end. A value that no longer fits
//! where it stands is written anew at the end and its slot is pointed
//! there; the bytes it leaves behind stay until the buffer is compacted.

use vstd::prelude::*;
use crate::MAX_DEPTH;
use crate::error::NP_Error;
use crate::json::{member_value, JsonValue};
use crate::memory::{in_bounds, le32, spec_read_address, spec_write, zero_bytes, MAX_SIZE};
use crate::pointer::string::stored_string;
use crate::schema::{find_field, SchemaNode};

verus! {

/// Storing `bytes` as a new string at the end of `mem` and pointing the
/// slot at `slot` there.
pub open spec fn allocate_string(mem: Seq<u8>, slot: int, bytes: Seq<u8>) -> (
    Seq<u8>,
    Result<(), NP_Error>,
) {
    if !in_bounds(mem, slot, 4) {
        (mem, Err(NP_Error::Address))
    } else if mem.len() + 4 + bytes.len() > MAX_SIZE {
        (mem, Err(NP_Error::Allocation))
    } else {
        (
            spec_write(mem + le32(bytes.len() as u32) + bytes, slot, le32(mem.len() as u32)),
            Ok(()),
        )
    }
}

/// Storing a table of `count` empty slots at the end of `mem` and pointing
/// the slot at `slot` there.
pub open spec fn allocate_table(mem: Seq<u8>, slot: int, count: nat) -> (
    Seq<u8>,
    Result<(), NP_Error>,
) {
    if !in_bounds(mem, slot, 4) {
        (mem, Err(NP_Error::Address))
    } else if mem.len() + 4 * count > MAX_SIZE {
        (mem, Err(NP_Error::Allocation))
    } else {
        (spec_write(mem + zero_bytes(4 * count), slot, le32(mem.len() as u32)), Ok(()))
    }
}

/// Setting the slot at `slot` to 0.
pub open spec fn clear_slot(mem: Seq<u8>, slot: int) -> (Seq<u8>, Result<(), NP_Error>) {
    if !in_bounds(mem, slot, 4) {
        (mem, Err(NP_Error::Address))
    } else {
        (spec_write(mem, slot, le32(0)), Ok(()))
    }
}

/// Writing `bytes` as the string behind the slot at `slot`. Where a string
/// stands there already and is at least as long, the new one is written
/// over it; otherwise it is stored anew at the end.
pub open spec fn write_string(mem: Seq<u8>, slot: int, bytes: Seq<u8>) -> (
    Seq<u8>,
    Result<(), NP_Error>,
) {
    if bytes.len() >= u32::MAX {
        (mem, Err(NP_Error::Allocation))
    } else {
        match spec_read_address(mem, slot) {
            Err(e) => (mem, Err(e)),
            Ok(address) => if address == 0 {
                allocate_string(mem, slot, bytes)
            } else {
                match spec_read_address(mem, address as int) {
                    Err(e) => (mem, Err(e)),
                    Ok(size) => if size >= bytes.len() {
                        if in_bounds(mem, address + 4, size as int) {
                            (
                                spec_write(
                                    spec_write(mem, address as int, le32(bytes.len() as u32)),
                                    address + 4,
                                    bytes,
                                ),
                                Ok(()),
                            )
                        } else {
                            (mem, Err(NP_Error::Address))
                        }
                    } else {
                        allocate_string(mem, slot, bytes)
                    },
                }
            },
        }
    }
}

/// Where a path leads in a buffer as it is: the schema address, the
/// parent's schema address and the slot of the value reached, and the
/// steps taken; or nothing where the path names no field, passes through
/// a string, or meets a struct that is absent. Every portal passed
/// through and every field entered is one step.
pub open spec fn find_path(
    nodes: Seq<SchemaNode>,
    mem: Seq<u8>,
    schema: int,
    parent: int,
    slot: int,
    path: Seq<Seq<u8>>,
    i: int,
    depth: nat,
) -> Result<Option<(int, int, int, nat)>, NP_Error>
    decreases MAX_DEPTH + 1 - depth,
{
    if depth > MAX_DEPTH {
        Err(NP_Error::RecursionLimit)
    } else if schema < 0 || schema >= nodes.len() {
        Err(NP_Error::Schema)
    } else {
        match nodes[schema] {
            SchemaNode::Portal { schema: target, parent_schema, .. } => find_path(
                nodes,
                mem,
                target,
                parent_schema,
                slot,
                path,
                i,
                depth + 1,
            ),
            SchemaNode::String => if i < 0 || i >= path.len() {
                Ok(Some((schema, parent, slot, depth)))
            } else {
                Ok(None)
            },
            SchemaNode::Struct { fields } => if i < 0 || i >= path.len() {
                Ok(Some((schema, parent, slot, depth)))
            } else {
                match find_field(fields, path[i], 0) {
                    None => Ok(None),
                    Some(k) => match spec_read_address(mem, slot) {
                        Err(e) => Err(e),
                        Ok(address) => if address == 0 {
                            Ok(None)
                        } else if !in_bounds(mem, address as int, 4 * (fields.len() as int)) {
                            Err(NP_Error::Address)
                        } else {
                            find_path(
                                nodes,
                                mem,
                                fields[k].1,
                                schema,
                                address + 4 * k,
                                path,
                                i + 1,
                                depth + 1,
                            )
                        },
                    },
                }
            },
        }
    }
}

/// Where a path leads in a buffer when every struct that is absent on the
/// way is stored first: the bytes afterwards, and what `find_path` gives.
pub open spec fn make_path(
    nodes: Seq<SchemaNode>,
    mem: Seq<u8>,
    schema: int,
    parent: int,
    slot: int,
    path: Seq<Seq<u8>>,
    i: int,
    depth: nat,
) -> (Seq<u8>, Result<Option<(int, int, int, nat)>, NP_Error>)
    decreases MAX_DEPTH + 1 - depth,
{
    if depth > MAX_DEPTH {
        (mem, Err(NP_Error::RecursionLimit))
    } else if schema < 0 || schema >= nodes.len() {
        (mem, Err(NP_Error::Schema))
    } else {
        match nodes[schema] {
            SchemaNode::Portal { schema: target, parent_schema, .. } => make_path(
                nodes,
                mem,
                target,
                parent_schema,
                slot,
                path,
                i,
                depth + 1,
            ),
            SchemaNode::String => if i < 0 || i >= path.len() {
                (mem, Ok(Some((schema, parent, slot, depth))))
            } else {
                (mem, Ok(None))
            },
            SchemaNode::Struct { fields } => if i < 0 || i >= path.len() {
                (mem, Ok(Some((schema, parent, slot, depth))))
            } else {
                match find_field(fields, path[i], 0) {
                    None => (mem, Ok(None)),
                    Some(k) => match spec_read_address(mem, slot) {
                        Err(e) => (mem, Err(e)),
                        Ok(address) => if address == 0 {
                            match allocate_table(mem, slot, fields.len()) {
                                (after, Err(e)) => (after, Err(e)),
                                (after, Ok(_)) => make_path(
                                    nodes,
                                    after,
                                    fields[k].1,
                                    schema,
                                    mem.len() + 4 * k,
                                    path,
                                    i + 1,
                                    depth + 1,
                                ),
                            }
                        } else if !in_bounds(mem, address as int, 4 * (fields.len() as int)) {
                            (mem, Err(NP_Error::Address))
                        } else {
                            make_path(
                                nodes,
                                mem,
                                fields[k].1,
                                schema,
                                address + 4 * k,
                                path,
                                i + 1,
                                depth + 1,
                            )
                        },
                    },
                }
            },
        }
    }
}

/// Importing a JSON null: the slot is set to 0 where nulls are to be
/// applied, and left alone where they are not.
pub open spec fn import_null(mem: Seq<u8>, slot: int, apply_null: bool) -> (
    Seq<u8>,
    Result<(), NP_Error>,
) {
    if apply_null {
        clear_slot(mem, slot)
    } else {
        (mem, Ok(()))
    }
}

/// Importing a JSON value into the slot at `slot`, as the node at `schema`
/// says: the bytes afterwards, and whether it went well. A string takes a
/// JSON string. A struct takes a dictionary: it is stored first where it
/// is absent, and each of its fields takes the member of its name, if
/// there is one, one step deeper. A portal takes what the node it points
/// at takes, one step deeper. A value of another kind is refused. What was
/// written before an error stays written.
pub open spec fn import_value(
    nodes: Seq<SchemaNode>,
    mem: Seq<u8>,
    schema: int,
    slot: int,
    depth: nat,
    apply_null: bool,
    json: JsonValue,
) -> (Seq<u8>, Result<(), NP_Error>)
    decreases MAX_DEPTH + 1 - depth, 1nat, 0nat,
{
    if depth > MAX_DEPTH {
        (mem, Err(NP_Error::RecursionLimit))
    } else if schema < 0 || schema >= nodes.len() {
        (mem, Err(NP_Error::Schema))
    } else {
        match nodes[schema] {
            SchemaNode::Portal { schema: target, .. } => import_value(
                nodes,
                mem,
                target,
                slot,
                depth + 1,
                apply_null,
                json,
            ),
            SchemaNode::String => match json {
                JsonValue::String(bytes) => write_string(mem, slot, bytes),
                JsonValue::Null => import_null(mem, slot, apply_null),
                _ => (mem, Err(NP_Error::Encoding)),
            },
            SchemaNode::Struct { fields } => match json {
                JsonValue::Dictionary(members) => match spec_read_address(mem, slot) {
                    Err(e) => (mem, Err(e)),
                    Ok(address) => if address == 0 {
                        match allocate_table(mem, slot, fields.len()) {
                            (after, Err(e)) => (after, Err(e)),
                            (after, Ok(_)) => import_fields(
                                nodes,
                                after,
                                fields,
                                mem.len() as int,
                                0,
                                depth + 1,
                                apply_null,
                                members,
                            ),
                        }
                    } else if !in_bounds(mem, address as int, 4 * (fields.len() as int)) {
                        (mem, Err(NP_Error::Address))
                    } else {
                        import_fields(
                            nodes,
                            mem,
                            fields,
                            address as int,
                            0,
                            depth + 1,
                            apply_null,
                            members,
                        )
                    },
                },
                JsonValue::Null => import_null(mem, slot, apply_null),
                _ => (mem, Err(NP_Error::Encoding)),
            },
        }
    }
}

/// Importing the members of a dictionary into the fields from the `i`-th
/// on of the struct whose table of slots stands at `table`.
pub open spec fn import_fields(
    nodes: Seq<SchemaNode>,
    mem: Seq<u8>,
    fields: Seq<(Seq<u8>, int)>,
    table: int,
    i: nat,
    depth: nat,
    apply_null: bool,
    members: Seq<(Seq<u8>, JsonValue)>,
) -> (Seq<u8>, Result<(), NP_Error>)
    decreases MAX_DEPTH + 1 - depth, 2nat, fields.len() - i,
{
    if i >= fields.len() {
        (mem, Ok(()))
    } else {
        match member_value(members, fields[i as int].0) {
            None => import_fields(nodes, mem, fields, table, i + 1, depth, apply_null, members),
            Some(json) => match import_value(
                nodes,
                mem,
                fields[i as int].1,
                table + 4 * i,
                depth,
                apply_null,
                json,
            ) {
                (after, Err(e)) => (after, Err(e)),
                (after, Ok(_)) => import_fields(
                    nodes,
                    after,
                    fields,
                    table,
                    i + 1,
                    depth,
                    apply_null,
                    members,
                ),
            },
        }
    }
}

/// Copying the value behind the slot at `from_slot` of `from` to the end
/// of `to`, and pointing the slot at `to_slot` of `to` there: the bytes of
/// `to` afterwards, and whether it went well. Nothing is written for a
/// value that is absent. A struct's table is stored first, then its
/// fields one after the other, each one step deeper, each into its slot
/// of the new table. A portal is copied as the node it points at, one
/// step deeper.
pub open spec fn compact_value(
    nodes: Seq<SchemaNode>,
    from: Seq<u8>,
    schema: int,
    from_slot: int,
    depth: nat,
    to: Seq<u8>,
    to_slot: int,
) -> (Seq<u8>, Result<(), NP_Error>)
    decreases MAX_DEPTH + 1 - depth, 1nat, 0nat,
{
    if depth > MAX_DEPTH {
        (to, Err(NP_Error::RecursionLimit))
    } else if schema < 0 || schema >= nodes.len() {
        (to, Err(NP_Error::Schema))
    } else {
        match nodes[schema] {
            SchemaNode::Portal { schema: target, .. } => compact_value(
                nodes,
                from,
                target,
                from_slot,
                depth + 1,
                to,
                to_slot,
            ),
            SchemaNode::String => match stored_string(from, from_slot) {
                Err(e) => (to, Err(e)),
                Ok(None) => (to, Ok(())),
                Ok(Some(bytes)) => allocate_string(to, to_slot, bytes),
            },
            SchemaNode::Struct { fields } => match spec_read_address(from, from_slot) {
                Err(e) => (to, Err(e)),
                Ok(address) => if address == 0 {
                    (to, Ok(()))
                } else if !in_bounds(from, address as int, 4 * (fields.len() as int)) {
                    (to, Err(NP_Error::Address))
                } else {
                    match allocate_table(to, to_slot, fields.len()) {
                        (after, Err(e)) => (after, Err(e)),
                        (after, Ok(_)) => compact_fields(
                            nodes,
                            from,
                            fields,
                            address as int,
                            0,
                            depth + 1,
                            after,
                            to.len() as int,
                        ),
                    }
                },
            },
        }
    }
}

/// Copying the fields from the `i`-th on of the struct whose table stands
/// at `from_table` of `from` into the struct whose table stands at
/// `to_table` of `to`.
pub open spec fn compact_fields(
    nodes: Seq<SchemaNode>,
    from: Seq<u8>,
    fields: Seq<(Seq<u8>, int)>,
    from_table: int,
    i: nat,
    depth: nat,
    to: Seq<u8>,
    to_table: int,
) -> (Seq<u8>, Result<(), NP_Error>)
    decreases MAX_DEPTH + 1 - depth, 2nat, fields.len() - i,
{
    if i >= fields.len() {
        (to, Ok(()))
    } else {
        match compact_value(
            nodes,
            from,
            fields[i as int].1,
            from_table + 4 * i,
            depth,
            to,
            to_table + 4 * i,
        ) {
            (after, Err(e)) => (after, Err(e)),
            (after, Ok(_)) => compact_fields(
                nodes,
                from,
                fields,
                from_table,
                i + 1,
                depth,
                after,
                to_table,
            ),
        }
    }
}

} // verus!
