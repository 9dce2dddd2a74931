//! The string type: bytes of text behind a length.

use vstd::prelude::*;
use vstd::utf8::{decode_utf8, valid_utf8};
use crate::MAX_DEPTH;
use crate::bytes::bytes_equal;
use crate::memory::{spec_read_address, NP_Memory};
use crate::pointer::{add_sizes, exported, sized, NP_Cursor};
use crate::edits::{compact_value, import_value, write_string};
use crate::value::read_string_at;
use crate::error::NP_Error;
use crate::json::{JsonValue, NP_JSON};
use crate::schema::{
    bytes_of_tree, is_string_name, nodes_of_tree, nodes_view, string_json, word_str, word_string,
    word_type, word_utf8, NP_Parsed_Schema, NP_TypeKeys, SchemaNode, SchemaTree, TAG_STRING,
};

verus! {

/// The name and the kind of this type.
pub fn type_idx() -> (r: (&'static str, NP_TypeKeys))
    ensures
        r.0@ == "string"@,
        r.1 == NP_TypeKeys::String,
{
    ("string", NP_TypeKeys::String)
}

/// Whether a schema means this type by `type_str`: `string`, `str` and
/// `utf8` all do.
pub fn is_type(type_str: &[u8]) -> (r: bool)
    ensures
        r == is_string_name(type_str@),
{
    bytes_equal(word_string().as_slice(), type_str) || bytes_equal(word_str().as_slice(), type_str)
        || bytes_equal(word_utf8().as_slice(), type_str)
}

/// The textual description of a string.
pub fn description() -> (r: NP_JSON)
    ensures
        r@ == string_json(),
{
    let mut members: Vec<(Vec<u8>, NP_JSON)> = Vec::new();
    members.push((word_type(), NP_JSON::string_of(word_string())));
    proof {
        NP_JSON::lemma_members_view(members@, members@.len());
    }
    let r = NP_JSON::dictionary_of(members);
    assert(r@->Dictionary_0 =~= string_json()->Dictionary_0);
    r
}

/// The textual description of the node at `address`, if it is a string;
/// the JSON null if it is not.
pub fn schema_to_json(schema: &Vec<NP_Parsed_Schema>, address: usize) -> (r: Result<
    NP_JSON,
    NP_Error,
>)
    requires
        address < schema.len(),
    ensures
        r matches Ok(j) && j@ == (match schema@[address as int]@ {
            SchemaNode::String => string_json(),
            _ => JsonValue::Null,
        }),
{
    match &schema[address] {
        NP_Parsed_Schema::String => Ok(description()),
        _ => Ok(NP_JSON::Null),
    }
}

/// Adds a string node to the registry under construction and gives its
/// compiled form. A string asks for nothing of its description.
pub fn from_json_to_schema(schema: Vec<NP_Parsed_Schema>, json_schema: &NP_JSON) -> (r: Result<
    (bool, Vec<u8>, Vec<NP_Parsed_Schema>),
    NP_Error,
>)
    ensures
        r matches Ok((sortable, bytes, nodes)) && !sortable && bytes@ == bytes_of_tree(
            SchemaTree::String,
        ) && nodes_view(nodes@) == nodes_view(schema@) + nodes_of_tree(
            SchemaTree::String,
            schema@.len() as int,
        ),
{
    let mut schema = schema;
    let ghost before = nodes_view(schema@);
    let mut schema_vec: Vec<u8> = Vec::new();
    schema_vec.push(TAG_STRING);
    schema.push(NP_Parsed_Schema::String);
    assert(schema_vec@ =~= bytes_of_tree(SchemaTree::String));
    assert(nodes_view(schema@) =~= before + nodes_of_tree(SchemaTree::String, before.len() as int));
    Ok((false, schema_vec, schema))
}

/// Adds the string node whose compiled form starts at `address`, and gives
/// the position behind it.
pub fn from_bytes_to_schema(schema: Vec<NP_Parsed_Schema>, address: usize, bytes: &[u8]) -> (r:
    Result<(bool, usize, Vec<NP_Parsed_Schema>), NP_Error>)
    requires
        address < bytes.len(),
    ensures
        r matches Ok((sortable, next, nodes)) && !sortable && next == address + 1 && nodes_view(
            nodes@,
        ) == nodes_view(schema@) + nodes_of_tree(SchemaTree::String, schema@.len() as int),
{
    let mut schema = schema;
    let ghost before = nodes_view(schema@);
    schema.push(NP_Parsed_Schema::String);
    assert(nodes_view(schema@) =~= before + nodes_of_tree(SchemaTree::String, before.len() as int));
    Ok((false, address + 1, schema))
}


/// The bytes of the string behind the slot at `slot`: nothing where the
/// slot holds 0.
pub open spec fn stored_string(mem: Seq<u8>, slot: int) -> Result<Option<Seq<u8>>, NP_Error> {
    match spec_read_address(mem, slot) {
        Err(e) => Err(e),
        Ok(address) => if address == 0 {
            Ok(None)
        } else {
            match read_string_at(mem, address as int) {
                Err(e) => Err(e),
                Ok(bytes) => Ok(Some(bytes)),
            }
        },
    }
}

/// Reads the bytes of the string that `cursor` locates.
pub fn read_bytes(cursor: &NP_Cursor, memory: &NP_Memory) -> (r: Result<Option<Vec<u8>>, NP_Error>)
    ensures
        match stored_string(memory@, cursor.buff_addr as int) {
            Err(e) => r matches Err(f) && f == e,
            Ok(None) => r matches Ok(None),
            Ok(Some(bytes)) => r matches Ok(Some(v)) && v@ == bytes,
        },
{
    let address: u32 = match memory.read_address(cursor.buff_addr) {
        Ok(a) => a,
        Err(e) => { return Err(e); },
    };
    if address == 0 {
        return Ok(None);
    }
    let addr: usize = address as usize;
    let size: u32 = match memory.read_address(addr) {
        Ok(n) => n,
        Err(e) => { return Err(e); },
    };
    let total: usize = memory.length();
    assert(addr + 4 <= total);
    match memory.read(addr + 4, size as usize) {
        Ok(bytes) => Ok(Some(bytes)),
        Err(e) => Err(e),
    }
}

/// `String::from_utf8` of the standard library: the string whose UTF-8
/// encoding the bytes are, or nothing where the bytes are no valid UTF-8.
#[verifier::external_body]
fn string_from_utf8(bytes: Vec<u8>) -> (r: Option<String>)
    ensures
        match r {
            Some(s) => valid_utf8(bytes@) && s@ == decode_utf8(bytes@),
            None => !valid_utf8(bytes@),
        },
{
    match String::from_utf8(bytes) {
        Ok(s) => Some(s),
        Err(_) => None,
    }
}

/// What decoding stored bytes as text gives.
pub open spec fn decoded(bytes: Result<Option<Seq<u8>>, NP_Error>) -> Result<
    Option<Seq<char>>,
    NP_Error,
> {
    match bytes {
        Err(e) => Err(e),
        Ok(None) => Ok(None),
        Ok(Some(b)) => if valid_utf8(b) {
            Ok(Some(decode_utf8(b)))
        } else {
            Err(NP_Error::Encoding)
        },
    }
}

/// Reads the string that `cursor` locates: nothing where the slot holds
/// 0. Fails where the string lies outside the buffer, or its bytes are no
/// valid UTF-8.
pub fn buffer_read(cursor: &NP_Cursor, memory: &NP_Memory) -> (r: Result<Option<String>, NP_Error>)
    ensures
        match decoded(stored_string(memory@, cursor.buff_addr as int)) {
            Err(e) => r matches Err(f) && f == e,
            Ok(None) => r matches Ok(None),
            Ok(Some(text)) => r matches Ok(Some(s)) && s@ == text,
        },
{
    match read_bytes(cursor, memory) {
        Err(e) => Err(e),
        Ok(None) => Ok(None),
        Ok(Some(bytes)) => match string_from_utf8(bytes) {
            Some(s) => Ok(Some(s)),
            None => Err(NP_Error::Encoding),
        },
    }
}

/// Exports the string that `cursor` locates as JSON. The JSON null if the
/// node at the cursor is no string.
pub fn to_json(depth: usize, cursor: &NP_Cursor, memory: &NP_Memory) -> (r: Result<
    NP_JSON,
    NP_Error,
>)
    requires
        cursor.schema_addr < memory.schema@.len(),
    ensures
        match memory.schema@[cursor.schema_addr as int] {
            SchemaNode::String => exported(cursor.value(memory, depth as nat), r),
            _ => r matches Ok(j) && j@ == JsonValue::Null,
        },
{
    match &memory.schema.parsed[cursor.schema_addr] {
        NP_Parsed_Schema::String => {
            if depth > MAX_DEPTH {
                return Err(NP_Error::RecursionLimit);
            }
            match read_bytes(cursor, memory) {
                Err(e) => Err(e),
                Ok(None) => Ok(NP_JSON::Null),
                Ok(Some(bytes)) => Ok(NP_JSON::string_of(bytes)),
            }
        },
        _ => Ok(NP_JSON::Null),
    }
}

/// Computes the size of the string that `cursor` locates: its length and
/// its bytes. Fails if the node at the cursor is no string.
pub fn get_size(depth: usize, cursor: &NP_Cursor, memory: &NP_Memory) -> (r: Result<
    usize,
    NP_Error,
>)
    requires
        cursor.schema_addr < memory.schema@.len(),
    ensures
        match memory.schema@[cursor.schema_addr as int] {
            SchemaNode::String => sized(cursor.value(memory, depth as nat), r),
            _ => r == Err::<usize, NP_Error>(NP_Error::Schema),
        },
{
    match &memory.schema.parsed[cursor.schema_addr] {
        NP_Parsed_Schema::String => {
            if depth > MAX_DEPTH {
                return Err(NP_Error::RecursionLimit);
            }
            let address: u32 = match memory.read_address(cursor.buff_addr) {
                Ok(a) => a,
                Err(e) => { return Err(e); },
            };
            if address == 0 {
                return Ok(0);
            }
            let addr: usize = address as usize;
            let size: usize = match memory.read_address(addr) {
                Ok(n) => n as usize,
                Err(e) => { return Err(e); },
            };
            let total: usize = memory.length();
            if total - addr - 4 < size {
                return Err(NP_Error::Address);
            }
            Ok(add_sizes(4, size))
        },
        _ => Err(NP_Error::Schema),
    }
}


/// Writes `value` as the string that `cursor` locates. Where a string
/// stands there already and is at least as long, the new one takes its
/// place; otherwise the new one is stored at the end and the slot is
/// pointed there, and the old bytes stay until the buffer is compacted.
pub fn buffer_write(cursor: &NP_Cursor, memory: &mut NP_Memory, value: &[u8]) -> (r: Result<
    NP_Cursor,
    NP_Error,
>)
    ensures
        final(memory).schema == old(memory).schema,
        final(memory)@ == write_string(old(memory)@, cursor.buff_addr as int, value@).0,
        match write_string(old(memory)@, cursor.buff_addr as int, value@).1 {
            Ok(_) => r == Ok::<NP_Cursor, NP_Error>(*cursor),
            Err(e) => r == Err::<NP_Cursor, NP_Error>(e),
        },
{
    let str_size: usize = value.len();
    if str_size >= u32::MAX as usize {
        return Err(NP_Error::Allocation);
    }
    let address: u32 = match memory.read_address(cursor.buff_addr) {
        Ok(a) => a,
        Err(e) => { return Err(e); },
    };
    let mut reuse: bool = false;
    let addr: usize = address as usize;
    if address != 0 {
        let prev_size: usize = match memory.read_address(addr) {
            Ok(n) => n as usize,
            Err(e) => { return Err(e); },
        };
        if prev_size >= str_size {
            let total: usize = memory.length();
            if total - addr - 4 < prev_size {
                return Err(NP_Error::Address);
            }
            reuse = true;
        }
    }
    if reuse {
        match memory.write_address(addr, str_size as u32) {
            Ok(_) => {},
            Err(e) => { return Err(e); },
        }
        match memory.write(addr + 4, value) {
            Ok(_) => Ok(*cursor),
            Err(e) => Err(e),
        }
    } else {
        match memory.store_string(cursor.buff_addr, value) {
            Ok(_) => Ok(*cursor),
            Err(e) => Err(e),
        }
    }
}

/// Imports a JSON value into the string that `cursor` locates: a JSON
/// string is written, a null clears the slot where nulls are to be
/// applied, and anything else is refused. Nothing is done if the node at
/// the cursor is no string.
pub fn set_from_json(
    depth: usize,
    apply_null: bool,
    cursor: NP_Cursor,
    memory: &mut NP_Memory,
    value: &NP_JSON,
) -> (r: Result<(), NP_Error>)
    requires
        cursor.schema_addr < old(memory).schema@.len(),
    ensures
        final(memory).schema == old(memory).schema,
        match old(memory).schema@[cursor.schema_addr as int] {
            SchemaNode::String => {
                let done = import_value(
                    old(memory).schema@,
                    old(memory)@,
                    cursor.schema_addr as int,
                    cursor.buff_addr as int,
                    depth as nat,
                    apply_null,
                    value@,
                );
                final(memory)@ == done.0 && r == done.1
            },
            _ => final(memory)@ == old(memory)@ && r == Ok::<(), NP_Error>(()),
        },
{
    let schema = memory.schema;
    match &schema.parsed[cursor.schema_addr] {
        NP_Parsed_Schema::String => {
            if depth > MAX_DEPTH {
                return Err(NP_Error::RecursionLimit);
            }
            proof {
                value.lemma_view();
            }
            match value {
                NP_JSON::String(bytes) => match buffer_write(&cursor, memory, bytes.as_slice()) {
                    Ok(_) => Ok(()),
                    Err(e) => Err(e),
                },
                NP_JSON::Null => {
                    if apply_null {
                        memory.clear(cursor.buff_addr)
                    } else {
                        Ok(())
                    }
                },
                _ => Err(NP_Error::Encoding),
            }
        },
        _ => Ok(()),
    }
}

/// Copies the string that `from_cursor` locates to the end of
/// `to_memory` and points the slot of `to_cursor` there. Nothing is
/// written where there is no string. Fails if the node at the cursor is
/// no string.
pub fn do_compact(
    depth: usize,
    from_cursor: NP_Cursor,
    from_memory: &NP_Memory,
    to_cursor: NP_Cursor,
    to_memory: &mut NP_Memory,
) -> (r: Result<NP_Cursor, NP_Error>)
    requires
        from_cursor.schema_addr < from_memory.schema@.len(),
    ensures
        final(to_memory).schema == old(to_memory).schema,
        match from_memory.schema@[from_cursor.schema_addr as int] {
            SchemaNode::String => {
                let done = compact_value(
                    from_memory.schema@,
                    from_memory@,
                    from_cursor.schema_addr as int,
                    from_cursor.buff_addr as int,
                    depth as nat,
                    old(to_memory)@,
                    to_cursor.buff_addr as int,
                );
                final(to_memory)@ == done.0 && match done.1 {
                    Ok(_) => r == Ok::<NP_Cursor, NP_Error>(to_cursor),
                    Err(e) => r == Err::<NP_Cursor, NP_Error>(e),
                }
            },
            _ => final(to_memory)@ == old(to_memory)@ && r == Err::<NP_Cursor, NP_Error>(
                NP_Error::Schema,
            ),
        },
{
    match &from_memory.schema.parsed[from_cursor.schema_addr] {
        NP_Parsed_Schema::String => {
            if depth > MAX_DEPTH {
                return Err(NP_Error::RecursionLimit);
            }
            match read_bytes(&from_cursor, from_memory) {
                Err(e) => Err(e),
                Ok(None) => Ok(to_cursor),
                Ok(Some(bytes)) => match to_memory.store_string(
                    to_cursor.buff_addr,
                    bytes.as_slice(),
                ) {
                    Ok(_) => Ok(to_cursor),
                    Err(e) => Err(e),
                },
            }
        },
        _ => Err(NP_Error::Schema),
    }
}

} // verus!
