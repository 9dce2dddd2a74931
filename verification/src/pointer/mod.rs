//! Cursors, and what each kind of value does with one.
//!
//! A cursor locates a value without taking it out of the buffer: it holds
//! the address of the schema node that describes the value, and the
//! address of the slot that holds the value's own address. Every traversal
//! counts its steps: one for each portal it passes through and one for each
//! descent into a field. Past `MAX_DEPTH` steps it fails, which is what
//! keeps a schema that points back at itself from being walked forever.

pub mod portal;
pub mod string;
pub mod structs;

use vstd::prelude::*;
use crate::MAX_DEPTH;
use crate::bytes::segments_view;
use crate::edits::{compact_value, find_path, import_value, make_path};
use crate::error::NP_Error;
use crate::json::NP_JSON;
use crate::memory::NP_Memory;
use crate::pointer::portal::NP_Portal;
use crate::pointer::structs::NP_Struct;
use crate::schema::{find_field_index, NP_Parsed_Schema, SchemaNode};
use crate::value::{json_of_value, read_value, size_of_value, Value};

verus! {

/// Where the root value's slot stands in every buffer.
pub const ROOT_SLOT: usize = 1;

/// A locator for a value inside a buffer.
#[derive(Clone, Copy, Debug, PartialEq, Eq, Structural)]
pub struct NP_Cursor {
    /// The address of the schema node that describes the value.
    pub schema_addr: usize,
    /// The address of the schema node of the struct that holds the value.
    pub parent_schema_addr: usize,
    /// The address of the slot that holds the value's address.
    pub buff_addr: usize,
}

/// A size, or the largest number where the size passes it.
pub open spec fn saturated(n: int) -> int {
    if n > usize::MAX {
        usize::MAX as int
    } else {
        n
    }
}

/// The sum of two sizes, or the largest number where the sum passes it.
pub fn add_sizes(a: usize, b: usize) -> (r: usize)
    ensures
        r == saturated(a + b),
{
    if a > usize::MAX - b {
        usize::MAX
    } else {
        a + b
    }
}

/// Whether `r` is what exporting gives for what was read: the value as
/// JSON, or the error that reading met.
pub open spec fn exported(value: Result<Value, NP_Error>, r: Result<NP_JSON, NP_Error>) -> bool {
    match value {
        Ok(v) => r matches Ok(j) && j@ == json_of_value(v),
        Err(e) => r matches Err(f) && f == e,
    }
}

/// Whether `r` is what sizing gives for what was read: the size of the
/// value, or the error that reading met.
pub open spec fn sized(value: Result<Value, NP_Error>, r: Result<usize, NP_Error>) -> bool {
    match value {
        Ok(v) => r == Ok::<usize, NP_Error>(saturated(size_of_value(v) as int) as usize),
        Err(e) => r == Err::<usize, NP_Error>(e),
    }
}

impl NP_Cursor {
    /// A cursor of the given addresses.
    pub fn new(schema_addr: usize, parent_schema_addr: usize, buff_addr: usize) -> (r: Self)
        ensures
            r == (NP_Cursor { schema_addr, parent_schema_addr, buff_addr }),
    {
        NP_Cursor { schema_addr, parent_schema_addr, buff_addr }
    }

    /// The cursor of the root value.
    pub open spec fn root_cursor() -> NP_Cursor {
        NP_Cursor { schema_addr: 0, parent_schema_addr: 0, buff_addr: ROOT_SLOT }
    }

    /// The cursor of the root value.
    pub fn root() -> (r: Self)
        ensures
            r == NP_Cursor::root_cursor(),
    {
        NP_Cursor { schema_addr: 0, parent_schema_addr: 0, buff_addr: ROOT_SLOT }
    }

    /// The value that this cursor locates in `memory`, read `depth` steps
    /// from where the traversal began.
    pub open spec fn value(&self, memory: &NP_Memory, depth: nat) -> Result<Value, NP_Error> {
        read_value(memory.schema@, memory@, self.schema_addr as int, self.buff_addr as int, depth)
    }

    /// Exports the value that `cursor` locates as JSON.
    pub fn json_encode(depth: usize, cursor: &NP_Cursor, memory: &NP_Memory) -> (r: Result<
        NP_JSON,
        NP_Error,
    >)
        requires
            memory.schema.wf(),
            cursor.schema_addr < memory.schema@.len(),
        ensures
            exported(cursor.value(memory, depth as nat), r),
        decreases MAX_DEPTH + 1 - depth, 1nat,
    {
        match &memory.schema.parsed[cursor.schema_addr] {
            NP_Parsed_Schema::Portal { .. } => NP_Portal::to_json(depth, cursor, memory),
            NP_Parsed_Schema::String => crate::pointer::string::to_json(depth, cursor, memory),
            NP_Parsed_Schema::Struct { .. } => NP_Struct::to_json(depth, cursor, memory),
        }
    }

    /// Computes how many bytes the value that `cursor` locates would take
    /// in a buffer that holds nothing else.
    pub fn calc_size(depth: usize, cursor: &NP_Cursor, memory: &NP_Memory) -> (r: Result<
        usize,
        NP_Error,
    >)
        requires
            memory.schema.wf(),
            cursor.schema_addr < memory.schema@.len(),
        ensures
            sized(cursor.value(memory, depth as nat), r),
        decreases MAX_DEPTH + 1 - depth, 1nat,
    {
        match &memory.schema.parsed[cursor.schema_addr] {
            NP_Parsed_Schema::Portal { .. } => NP_Portal::get_size(depth, cursor, memory),
            NP_Parsed_Schema::String => crate::pointer::string::get_size(depth, cursor, memory),
            NP_Parsed_Schema::Struct { .. } => NP_Struct::get_size(depth, cursor, memory),
        }
    }
}


/// The cursor that copying gives back: the destination's, with the schema
/// addresses of the node that the portals at the source lead to.
pub open spec fn compacted_cursor(
    nodes: Seq<SchemaNode>,
    schema: int,
    depth: nat,
    to_cursor: NP_Cursor,
) -> NP_Cursor
    decreases MAX_DEPTH + 1 - depth,
{
    if depth > MAX_DEPTH || schema < 0 || schema >= nodes.len() {
        to_cursor
    } else {
        match nodes[schema] {
            SchemaNode::Portal { schema: target, parent_schema, .. } => compacted_cursor(
                nodes,
                target,
                depth + 1,
                NP_Cursor {
                    schema_addr: target as usize,
                    parent_schema_addr: parent_schema as usize,
                    buff_addr: to_cursor.buff_addr,
                },
            ),
            _ => to_cursor,
        }
    }
}

/// Whether `r` is what following a path gives for what the model says:
/// the cursor of the value reached with the steps taken, nothing, or the
/// error.
pub open spec fn found(
    place: Result<Option<(int, int, int, nat)>, NP_Error>,
    r: Result<Option<(NP_Cursor, usize)>, NP_Error>,
) -> bool {
    match place {
        Err(e) => r == Err::<Option<(NP_Cursor, usize)>, NP_Error>(e),
        Ok(None) => r == Ok::<Option<(NP_Cursor, usize)>, NP_Error>(None),
        Ok(Some((schema, parent, slot, depth))) => r matches Ok(Some((cursor, steps)))
            && cursor.schema_addr == schema && cursor.parent_schema_addr == parent
            && cursor.buff_addr == slot && steps == depth,
    }
}

impl NP_Cursor {
    /// Imports a JSON value into the value that `cursor` locates.
    pub fn set_from_json(
        depth: usize,
        apply_null: bool,
        cursor: NP_Cursor,
        memory: &mut NP_Memory,
        value: &NP_JSON,
    ) -> (r: Result<(), NP_Error>)
        requires
            old(memory).schema.wf(),
            cursor.schema_addr < old(memory).schema@.len(),
        ensures
            final(memory).schema == old(memory).schema,
            final(memory)@ == import_value(
                old(memory).schema@,
                old(memory)@,
                cursor.schema_addr as int,
                cursor.buff_addr as int,
                depth as nat,
                apply_null,
                value@,
            ).0,
            r == import_value(
                old(memory).schema@,
                old(memory)@,
                cursor.schema_addr as int,
                cursor.buff_addr as int,
                depth as nat,
                apply_null,
                value@,
            ).1,
        decreases MAX_DEPTH + 1 - depth, 1nat,
    {
        let schema = memory.schema;
        match &schema.parsed[cursor.schema_addr] {
            NP_Parsed_Schema::Portal { .. } => NP_Portal::set_from_json(
                depth,
                apply_null,
                cursor,
                memory,
                value,
            ),
            NP_Parsed_Schema::String => crate::pointer::string::set_from_json(
                depth,
                apply_null,
                cursor,
                memory,
                value,
            ),
            NP_Parsed_Schema::Struct { .. } => NP_Struct::set_from_json(
                depth,
                apply_null,
                cursor,
                memory,
                value,
            ),
        }
    }

    /// Copies the value that `from_cursor` locates in `from_memory` to the
    /// end of `to_memory`, and points the slot of `to_cursor` there.
    pub fn compact(
        depth: usize,
        from_cursor: NP_Cursor,
        from_memory: &NP_Memory,
        to_cursor: NP_Cursor,
        to_memory: &mut NP_Memory,
    ) -> (r: Result<NP_Cursor, NP_Error>)
        requires
            from_memory.schema.wf(),
            from_cursor.schema_addr < from_memory.schema@.len(),
        ensures
            final(to_memory).schema == old(to_memory).schema,
            final(to_memory)@ == compact_value(
                from_memory.schema@,
                from_memory@,
                from_cursor.schema_addr as int,
                from_cursor.buff_addr as int,
                depth as nat,
                old(to_memory)@,
                to_cursor.buff_addr as int,
            ).0,
            match compact_value(
                from_memory.schema@,
                from_memory@,
                from_cursor.schema_addr as int,
                from_cursor.buff_addr as int,
                depth as nat,
                old(to_memory)@,
                to_cursor.buff_addr as int,
            ).1 {
                Ok(_) => r == Ok::<NP_Cursor, NP_Error>(
                    compacted_cursor(
                        from_memory.schema@,
                        from_cursor.schema_addr as int,
                        depth as nat,
                        to_cursor,
                    ),
                ),
                Err(e) => r == Err::<NP_Cursor, NP_Error>(e),
            },
        decreases MAX_DEPTH + 1 - depth, 1nat,
    {
        match &from_memory.schema.parsed[from_cursor.schema_addr] {
            NP_Parsed_Schema::Portal { .. } => NP_Portal::do_compact(
                depth,
                from_cursor,
                from_memory,
                to_cursor,
                to_memory,
            ),
            NP_Parsed_Schema::String => crate::pointer::string::do_compact(
                depth,
                from_cursor,
                from_memory,
                to_cursor,
                to_memory,
            ),
            NP_Parsed_Schema::Struct { .. } => NP_Struct::do_compact(
                depth,
                from_cursor,
                from_memory,
                to_cursor,
                to_memory,
            ),
        }
    }

    /// Follows `path` from `cursor` through the buffer as it is. Returns
    /// the cursor of the value reached and the steps taken, or nothing
    /// where the path names no field, passes through a string, or meets a
    /// struct that is absent.
    pub fn select(memory: &NP_Memory, cursor: NP_Cursor, path: &Vec<Vec<u8>>, depth: usize) -> (r:
        Result<Option<(NP_Cursor, usize)>, NP_Error>)
        requires
            memory.schema.wf(),
            cursor.schema_addr < memory.schema@.len(),
        ensures
            found(
                find_path(
                    memory.schema@,
                    memory@,
                    cursor.schema_addr as int,
                    cursor.parent_schema_addr as int,
                    cursor.buff_addr as int,
                    segments_view(path@),
                    0,
                    depth as nat,
                ),
                r,
            ),
            r matches Ok(Some((reached, steps))) ==> reached.schema_addr < memory.schema@.len()
                && !(memory.schema@[reached.schema_addr as int] is Portal) && steps <= MAX_DEPTH,
    {
        if depth > MAX_DEPTH {
            return Err(NP_Error::RecursionLimit);
        }
        let ghost nodes = memory.schema@;
        let ghost names = segments_view(path@);
        let mut current: NP_Cursor = cursor;
        let mut i: usize = 0;
        let mut steps: usize = depth;
        loop
            invariant
                memory.schema.wf(),
                nodes == memory.schema@,
                names == segments_view(path@),
                current.schema_addr < nodes.len(),
                i <= path.len(),
                steps <= MAX_DEPTH + 1,
                find_path(
                    nodes,
                    memory@,
                    current.schema_addr as int,
                    current.parent_schema_addr as int,
                    current.buff_addr as int,
                    names,
                    i as int,
                    steps as nat,
                ) == find_path(
                    nodes,
                    memory@,
                    cursor.schema_addr as int,
                    cursor.parent_schema_addr as int,
                    cursor.buff_addr as int,
                    names,
                    0,
                    depth as nat,
                ),
            decreases MAX_DEPTH + 1 - steps,
        {
            if steps > MAX_DEPTH {
                return Err(NP_Error::RecursionLimit);
            }
            match &memory.schema.parsed[current.schema_addr] {
                NP_Parsed_Schema::Portal { schema, parent_schema, .. } => {
                    current = NP_Cursor::new(*schema, *parent_schema, current.buff_addr);
                    steps += 1;
                },
                NP_Parsed_Schema::String => {
                    if i >= path.len() {
                        return Ok(Some((current, steps)));
                    } else {
                        return Ok(None);
                    }
                },
                NP_Parsed_Schema::Struct { fields } => {
                    if i >= path.len() {
                        return Ok(Some((current, steps)));
                    }
                    let k: usize = match find_field_index(fields, path[i].as_slice()) {
                        Some(k) => k,
                        None => { return Ok(None); },
                    };
                    let address: u32 = match memory.read_address(current.buff_addr) {
                        Ok(a) => a,
                        Err(e) => { return Err(e); },
                    };
                    if address == 0 {
                        return Ok(None);
                    }
                    let table: usize = address as usize;
                    if table > memory.length() || memory.length() - table < 4 * fields.len() {
                        return Err(NP_Error::Address);
                    }
                    current = NP_Cursor::new(fields[k].1, current.schema_addr, table + 4 * k);
                    i += 1;
                    steps += 1;
                },
            }
        }
    }

    /// Follows `path` from `cursor` through the buffer, and stores every
    /// struct that is absent on the way. Returns the cursor of the value
    /// reached and the steps taken, or nothing where the path names no
    /// field or passes through a string.
    pub fn select_make(
        memory: &mut NP_Memory,
        cursor: NP_Cursor,
        path: &Vec<Vec<u8>>,
        depth: usize,
    ) -> (r: Result<Option<(NP_Cursor, usize)>, NP_Error>)
        requires
            old(memory).schema.wf(),
            cursor.schema_addr < old(memory).schema@.len(),
        ensures
            final(memory).schema == old(memory).schema,
            final(memory)@ == make_path(
                old(memory).schema@,
                old(memory)@,
                cursor.schema_addr as int,
                cursor.parent_schema_addr as int,
                cursor.buff_addr as int,
                segments_view(path@),
                0,
                depth as nat,
            ).0,
            found(
                make_path(
                    old(memory).schema@,
                    old(memory)@,
                    cursor.schema_addr as int,
                    cursor.parent_schema_addr as int,
                    cursor.buff_addr as int,
                    segments_view(path@),
                    0,
                    depth as nat,
                ).1,
                r,
            ),
            r matches Ok(Some((reached, steps))) ==> reached.schema_addr < old(memory).schema@.len()
                && !(old(memory).schema@[reached.schema_addr as int] is Portal) && steps
                <= MAX_DEPTH,
    {
        if depth > MAX_DEPTH {
            return Err(NP_Error::RecursionLimit);
        }
        let schema = memory.schema;
        let ghost nodes = schema@;
        let ghost names = segments_view(path@);
        let mut current: NP_Cursor = cursor;
        let mut i: usize = 0;
        let mut steps: usize = depth;
        loop
            invariant
                schema.wf(),
                memory.schema == schema,
                schema == old(memory).schema,
                nodes == schema@,
                names == segments_view(path@),
                current.schema_addr < nodes.len(),
                i <= path.len(),
                steps <= MAX_DEPTH + 1,
                make_path(
                    nodes,
                    memory@,
                    current.schema_addr as int,
                    current.parent_schema_addr as int,
                    current.buff_addr as int,
                    names,
                    i as int,
                    steps as nat,
                ) == make_path(
                    nodes,
                    old(memory)@,
                    cursor.schema_addr as int,
                    cursor.parent_schema_addr as int,
                    cursor.buff_addr as int,
                    names,
                    0,
                    depth as nat,
                ),
            decreases MAX_DEPTH + 1 - steps,
        {
            if steps > MAX_DEPTH {
                return Err(NP_Error::RecursionLimit);
            }
            match &schema.parsed[current.schema_addr] {
                NP_Parsed_Schema::Portal { schema: target, parent_schema, .. } => {
                    current = NP_Cursor::new(*target, *parent_schema, current.buff_addr);
                    steps += 1;
                },
                NP_Parsed_Schema::String => {
                    if i >= path.len() {
                        return Ok(Some((current, steps)));
                    } else {
                        return Ok(None);
                    }
                },
                NP_Parsed_Schema::Struct { fields } => {
                    if i >= path.len() {
                        return Ok(Some((current, steps)));
                    }
                    let k: usize = match find_field_index(fields, path[i].as_slice()) {
                        Some(k) => k,
                        None => { return Ok(None); },
                    };
                    let address: u32 = match memory.read_address(current.buff_addr) {
                        Ok(a) => a,
                        Err(e) => { return Err(e); },
                    };
                    let table: usize = if address == 0 {
                        match memory.store_table(current.buff_addr, fields.len()) {
                            Ok(t) => t,
                            Err(e) => { return Err(e); },
                        }
                    } else {
                        let t: usize = address as usize;
                        if t > memory.length() || memory.length() - t < 4 * fields.len() {
                            return Err(NP_Error::Address);
                        }
                        t
                    };
                    assert(table + 4 * fields.len() <= usize::MAX) by {
                        let total: usize = memory.bytes.len();
                    }
                    current = NP_Cursor::new(fields[k].1, current.schema_addr, table + 4 * k);
                    i += 1;
                    steps += 1;
                },
            }
        }
    }
}

} // verus!
