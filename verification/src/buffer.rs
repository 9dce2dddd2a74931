//! The buffer: values of one schema in one run of bytes, reached by path.
//!
//! The first byte of a buffer is the format tag. The next four bytes are
//! the root slot: the address of the root value, least significant byte
//! first, or 0 where there is no root value yet. Everything behind them is
//! storage that grows at the end.

use vstd::prelude::*;
use vstd::string::StringSliceAdditionalSpecFns;
use crate::PROTOCOL_VERSION;
use crate::bytes::{bytes_copy, segments_view, split_dots, split_path};
use crate::edits::{clear_slot, compact_value, find_path, import_value, make_path, write_string};
use crate::error::NP_Error;
use crate::json::{json_decode, json_member, parse_json, JsonValue, NP_JSON};
use crate::laws::{
    buffer_shaped, law_compaction_gives_shape, law_compaction_keeps_value, law_del_keeps_shape,
    law_import_keeps_shape, law_new_has_shape, law_set_keeps_shape, law_set_then_get,
    law_set_then_get_text,
};
use crate::memory::{spec_read_address, NP_Memory};
use crate::pointer::string::decoded;
use crate::pointer::{exported, saturated, NP_Cursor, ROOT_SLOT};
use crate::schema::{NP_Parsed_Schema, NP_Schema, SchemaNode};
use crate::value::{read_string_at, read_value, size_of_value};

verus! {

/// The bytes of a buffer that holds nothing yet.
pub open spec fn empty_bytes() -> Seq<u8> {
    seq![PROTOCOL_VERSION, 0u8, 0u8, 0u8, 0u8]
}

/// The key `value`, under which a JSON payload holds what is to be imported.
pub open spec fn key_value() -> Seq<u8> {
    seq![0x76u8, 0x61u8, 0x6cu8, 0x75u8, 0x65u8]
}

/// The key `value`.
pub fn word_value() -> (r: Vec<u8>)
    ensures
        r@ == key_value(),
{
    let r: Vec<u8> = vec![0x76u8, 0x61u8, 0x6cu8, 0x75u8, 0x65u8];
    assert(r@ =~= key_value());
    r
}

/// The segments of a path, each as its UTF-8 bytes.
pub open spec fn path_view(path: Seq<&str>) -> Seq<Seq<u8>> {
    Seq::new(path.len(), |i: int| path[i].spec_bytes())
}

/// The segments of a path, each as its UTF-8 bytes.
pub fn path_segments(path: &[&str]) -> (r: Vec<Vec<u8>>)
    ensures
        segments_view(r@) == path_view(path@),
{
    let mut out: Vec<Vec<u8>> = Vec::with_capacity(path.len());
    let mut i: usize = 0;
    while i < path.len()
        invariant
            i <= path.len(),
            out@.len() == i,
            forall|k: int| 0 <= k < i ==> out@[k]@ == path@[k].spec_bytes(),
        decreases path.len() - i,
    {
        out.push(bytes_copy(path[i].as_bytes()));
        i += 1;
    }
    assert(segments_view(out@) =~= path_view(path@));
    out
}

/// The bytes of the string behind the slot that a path led to: nothing
/// where the slot holds 0, and an error where it holds a struct.
pub open spec fn terminal_bytes(nodes: Seq<SchemaNode>, mem: Seq<u8>, schema: int, slot: int) -> Result<
    Option<Seq<u8>>,
    NP_Error,
> {
    match spec_read_address(mem, slot) {
        Err(e) => Err(e),
        Ok(address) => if address == 0 {
            Ok(None)
        } else {
            match nodes[schema] {
                SchemaNode::String => match read_string_at(mem, address as int) {
                    Err(e) => Err(e),
                    Ok(bytes) => Ok(Some(bytes)),
                },
                _ => Err(NP_Error::Encoding),
            }
        },
    }
}

/// The bytes of the string that is reached when `path` is followed from
/// the `i`-th segment on, starting at the given node and slot.
pub open spec fn reached_bytes(
    nodes: Seq<SchemaNode>,
    mem: Seq<u8>,
    schema: int,
    parent: int,
    slot: int,
    path: Seq<Seq<u8>>,
    i: int,
    depth: nat,
) -> Result<Option<Seq<u8>>, NP_Error> {
    match find_path(nodes, mem, schema, parent, slot, path, i, depth) {
        Err(e) => Err(e),
        Ok(None) => Ok(None),
        Ok(Some((reached, _, reached_slot, _))) => terminal_bytes(
            nodes,
            mem,
            reached,
            reached_slot,
        ),
    }
}

/// What reading the string at a path gives: nothing where the path leads
/// to no value; an error where it leads to a struct, or to bytes that are
/// no valid UTF-8.
pub open spec fn get_model(nodes: Seq<SchemaNode>, mem: Seq<u8>, path: Seq<Seq<u8>>) -> Result<
    Option<Seq<char>>,
    NP_Error,
> {
    decoded(reached_bytes(nodes, mem, 0, 0, ROOT_SLOT as int, path, 0, 0))
}

/// What writing a string at a path does: the bytes afterwards, and
/// whether the string was written. It is not where the schema has no such
/// path; it is an error where the path leads to a struct.
pub open spec fn set_model(
    nodes: Seq<SchemaNode>,
    mem: Seq<u8>,
    path: Seq<Seq<u8>>,
    value: Seq<u8>,
) -> (Seq<u8>, Result<bool, NP_Error>) {
    let reached = make_path(nodes, mem, 0, 0, ROOT_SLOT as int, path, 0, 0);
    match reached.1 {
        Err(e) => (reached.0, Err(e)),
        Ok(None) => (reached.0, Ok(false)),
        Ok(Some((schema, _, slot, _))) => match nodes[schema] {
            SchemaNode::String => {
                let written = write_string(reached.0, slot, value);
                match written.1 {
                    Ok(_) => (written.0, Ok(true)),
                    Err(e) => (written.0, Err(e)),
                }
            },
            _ => (reached.0, Err(NP_Error::Encoding)),
        },
    }
}

/// What deleting the value at a path does: the bytes afterwards, and
/// whether there was a value to delete.
pub open spec fn del_model(nodes: Seq<SchemaNode>, mem: Seq<u8>, path: Seq<Seq<u8>>) -> (
    Seq<u8>,
    Result<bool, NP_Error>,
) {
    match find_path(nodes, mem, 0, 0, ROOT_SLOT as int, path, 0, 0) {
        Err(e) => (mem, Err(e)),
        Ok(None) => (mem, Ok(false)),
        Ok(Some((_, _, slot, _))) => match spec_read_address(mem, slot) {
            Err(e) => (mem, Err(e)),
            Ok(address) => if address == 0 {
                (mem, Ok(false))
            } else {
                (clear_slot(mem, slot).0, Ok(true))
            },
        },
    }
}

/// What importing a JSON payload at a path does: the bytes afterwards,
/// and whether the payload was imported. The payload is a dictionary
/// whose member `value` holds what is to be imported; nulls in it clear
/// what they stand for.
pub open spec fn import_model(
    nodes: Seq<SchemaNode>,
    mem: Seq<u8>,
    path: Seq<Seq<u8>>,
    text: Seq<u8>,
) -> (Seq<u8>, Result<bool, NP_Error>) {
    match parse_json(text) {
        None => (mem, Err(NP_Error::Encoding)),
        Some(payload) => match json_member(payload, key_value()) {
            None => (mem, Err(NP_Error::Encoding)),
            Some(value) => {
                let reached = make_path(nodes, mem, 0, 0, ROOT_SLOT as int, path, 0, 0);
                match reached.1 {
                    Err(e) => (reached.0, Err(e)),
                    Ok(None) => (reached.0, Ok(false)),
                    Ok(Some((schema, _, slot, depth))) => {
                        let imported = import_value(
                            nodes,
                            reached.0,
                            schema,
                            slot,
                            depth,
                            true,
                            value,
                        );
                        match imported.1 {
                            Ok(_) => (imported.0, Ok(true)),
                            Err(e) => (imported.0, Err(e)),
                        }
                    },
                }
            },
        },
    }
}

/// What compacting gives: the bytes of a buffer that holds the root value
/// and nothing else.
pub open spec fn compact_model(nodes: Seq<SchemaNode>, mem: Seq<u8>) -> (
    Seq<u8>,
    Result<(), NP_Error>,
) {
    compact_value(nodes, mem, 0, ROOT_SLOT as int, 0, empty_bytes(), ROOT_SLOT as int)
}

/// The sizes that `calc_bytes` reports.
#[derive(Clone, Copy, Debug, PartialEq, Eq, Structural)]
pub struct NP_Size_Data {
    /// The size of the buffer as it is.
    pub current_buffer: usize,
    /// The size the buffer would have after compaction.
    pub after_compaction: usize,
    /// What compaction would win: the first less the second, or 0.
    pub wasted_bytes: usize,
}

/// The sizes of a buffer of `current` bytes whose root value takes `size`.
pub open spec fn size_data(current: nat, size: nat) -> NP_Size_Data {
    let after = saturated(5 + size as int);
    NP_Size_Data {
        current_buffer: current as usize,
        after_compaction: after as usize,
        wasted_bytes: if current > after {
            (current - after) as usize
        } else {
            0
        },
    }
}

/// A buffer: the bytes, and the schema that describes them.
#[derive(Debug)]
pub struct NoProtoBuffer<'a> {
    pub memory: NP_Memory<'a>,
}

impl<'a> View for NoProtoBuffer<'a> {
    type V = Seq<u8>;

    open spec fn view(&self) -> Seq<u8> {
        self.memory@
    }
}

impl<'a> NoProtoBuffer<'a> {
    /// Whether the schema of this buffer is sound.
    pub open spec fn wf(&self) -> bool {
        self.memory.schema.wf()
    }

    /// The nodes of the schema of this buffer.
    pub open spec fn nodes(&self) -> Seq<SchemaNode> {
        self.memory.schema@
    }

    /// Whether this buffer has the shape that this library writes: its
    /// values lie behind the header and inside the buffer, and no two of
    /// them share a byte. A buffer that was made here has it; loaded
    /// bytes need not.
    pub open spec fn shaped(&self) -> bool {
        buffer_shaped(self.nodes(), self@)
    }

    /// A buffer that holds nothing yet: the format tag and an empty root
    /// slot. `capacity` says how many bytes to make room for; 1024 where
    /// it says nothing.
    pub fn new(model: &'a NP_Schema, capacity: Option<u32>) -> (r: Self)
        ensures
            r@ == empty_bytes(),
            r.memory.schema == model,
            r.shaped(),
    {
        proof {
            law_new_has_shape(model@);
        }
        let capacity: u32 = match capacity {
            Some(x) => x,
            None => 1024,
        };
        let mut new_bytes: Vec<u8> = Vec::with_capacity(capacity as usize);
        new_bytes.push(PROTOCOL_VERSION);
        new_bytes.push(0);
        new_bytes.push(0);
        new_bytes.push(0);
        new_bytes.push(0);
        assert(new_bytes@ =~= empty_bytes());
        NoProtoBuffer { memory: NP_Memory::existing(new_bytes, model) }
    }

    /// A buffer of bytes that were produced earlier.
    pub fn load(model: &'a NP_Schema, bytes: Vec<u8>) -> (r: Self)
        ensures
            r@ == bytes@,
            r.memory.schema == model,
    {
        NoProtoBuffer { memory: NP_Memory::existing(bytes, model) }
    }

    /// Hands the root cursor and the storage to `callback`, for reading,
    /// and returns what it returns.
    pub fn open<F>(&mut self, callback: F) -> (r: Result<(), NP_Error>) where
        F: FnOnce(NP_Cursor, &NP_Memory) -> Result<(), NP_Error>,

        requires
            callback.requires((NP_Cursor::root_cursor(), &old(self).memory)),
        ensures
            callback.ensures((NP_Cursor::root_cursor(), &old(self).memory), r),
            *final(self) == *old(self),
    {
        let buffer = NP_Cursor::root();
        callback(buffer, &self.memory)
    }

    /// Reads the string at `path`. Nothing where the schema has no such
    /// path or a value on the way is absent.
    pub fn get(&self, path: &[&str]) -> (r: Result<Option<String>, NP_Error>)
        requires
            self.wf(),
        ensures
            match get_model(self.nodes(), self@, path_view(path@)) {
                Err(e) => r matches Err(f) && f == e,
                Ok(None) => r matches Ok(None),
                Ok(Some(text)) => r matches Ok(Some(s)) && s@ == text,
            },
    {
        let segments: Vec<Vec<u8>> = path_segments(path);
        self.get_at(&segments)
    }

    /// Reads the string at the path of the given segments.
    pub fn get_at(&self, segments: &Vec<Vec<u8>>) -> (r: Result<Option<String>, NP_Error>)
        requires
            self.wf(),
        ensures
            match get_model(self.nodes(), self@, segments_view(segments@)) {
                Err(e) => r matches Err(f) && f == e,
                Ok(None) => r matches Ok(None),
                Ok(Some(text)) => r matches Ok(Some(s)) && s@ == text,
            },
    {
        match NP_Cursor::select(&self.memory, NP_Cursor::root(), segments, 0) {
            Err(e) => Err(e),
            Ok(None) => Ok(None),
            Ok(Some((cursor, _))) => {
                let address: u32 = match self.memory.read_address(cursor.buff_addr) {
                    Ok(a) => a,
                    Err(e) => { return Err(e); },
                };
                if address == 0 {
                    return Ok(None);
                }
                match &self.memory.schema.parsed[cursor.schema_addr] {
                    NP_Parsed_Schema::String => crate::pointer::string::buffer_read(
                        &cursor,
                        &self.memory,
                    ),
                    _ => Err(NP_Error::Encoding),
                }
            },
        }
    }

    /// Exports the value at `path` as JSON: a string, a dictionary of the
    /// fields of a struct by their names, or null where there is no value
    /// or the schema has no such path.
    pub fn json_encode(&self, path: &[&str]) -> (r: Result<NP_JSON, NP_Error>)
        requires
            self.wf(),
        ensures
            match find_path(self.nodes(), self@, 0, 0, ROOT_SLOT as int, path_view(path@), 0, 0) {
                Err(e) => r matches Err(f) && f == e,
                Ok(None) => r matches Ok(j) && j@ == JsonValue::Null,
                Ok(Some((schema, _, slot, depth))) => exported(
                    read_value(self.nodes(), self@, schema, slot, depth),
                    r,
                ),
            },
    {
        let segments: Vec<Vec<u8>> = path_segments(path);
        match NP_Cursor::select(&self.memory, NP_Cursor::root(), &segments, 0) {
            Err(e) => Err(e),
            Ok(None) => Ok(NP_JSON::Null),
            Ok(Some((cursor, depth))) => NP_Cursor::json_encode(depth, &cursor, &self.memory),
        }
    }

    /// Writes `value` as the string at `path`, storing every struct that
    /// is absent on the way. Returns whether the schema has such a path.
    pub fn set(&mut self, path: &[&str], value: &str) -> (r: Result<bool, NP_Error>)
        requires
            old(self).wf(),
        ensures
            final(self).memory.schema == old(self).memory.schema,
            old(self).shaped() ==> final(self).shaped(),
            old(self).shaped() && r == Ok::<bool, NP_Error>(true) ==> get_model(
                final(self).nodes(),
                final(self)@,
                path_view(path@),
            ) == Ok::<Option<Seq<char>>, NP_Error>(Some(value@)),
            final(self)@ == set_model(
                old(self).nodes(),
                old(self)@,
                path_view(path@),
                value.spec_bytes(),
            ).0,
            r == set_model(old(self).nodes(), old(self)@, path_view(path@), value.spec_bytes()).1,
    {
        proof {
            if self.shaped() && set_model(
                self.nodes(),
                self@,
                path_view(path@),
                value.spec_bytes(),
            ).1 == Ok::<bool, NP_Error>(true) {
                law_set_then_get_text(self.nodes(), self@, path_view(path@), value@);
            }
        }
        let segments: Vec<Vec<u8>> = path_segments(path);
        self.set_at(&segments, value.as_bytes())
    }

    /// Writes `value` as the string at the path of the given segments.
    pub fn set_at(&mut self, segments: &Vec<Vec<u8>>, value: &[u8]) -> (r: Result<bool, NP_Error>)
        requires
            old(self).wf(),
        ensures
            final(self).memory.schema == old(self).memory.schema,
            old(self).shaped() ==> final(self).shaped(),
            old(self).shaped() && r == Ok::<bool, NP_Error>(true) ==> get_model(
                final(self).nodes(),
                final(self)@,
                segments_view(segments@),
            ) == decoded(Ok::<Option<Seq<u8>>, NP_Error>(Some(value@))),
            final(self)@ == set_model(
                old(self).nodes(),
                old(self)@,
                segments_view(segments@),
                value@,
            ).0,
            r == set_model(old(self).nodes(), old(self)@, segments_view(segments@), value@).1,
    {
        proof {
            if self.shaped() {
                law_set_keeps_shape(self.nodes(), self@, segments_view(segments@), value@);
                if set_model(self.nodes(), self@, segments_view(segments@), value@).1 == Ok::<
                    bool,
                    NP_Error,
                >(true) {
                    law_set_then_get(self.nodes(), self@, segments_view(segments@), value@);
                }
            }
        }
        let schema = self.memory.schema;
        match NP_Cursor::select_make(&mut self.memory, NP_Cursor::root(), segments, 0) {
            Err(e) => Err(e),
            Ok(None) => Ok(false),
            Ok(Some((cursor, _))) => match &schema.parsed[cursor.schema_addr] {
                NP_Parsed_Schema::String => match crate::pointer::string::buffer_write(
                    &cursor,
                    &mut self.memory,
                    value,
                ) {
                    Ok(_) => Ok(true),
                    Err(e) => Err(e),
                },
                _ => Err(NP_Error::Encoding),
            },
        }
    }

    /// Deletes the value at `path`: its slot is set to 0, and its bytes
    /// stay until the buffer is compacted. Returns whether there was a
    /// value.
    pub fn del(&mut self, path: &[&str]) -> (r: Result<bool, NP_Error>)
        requires
            old(self).wf(),
        ensures
            final(self).memory.schema == old(self).memory.schema,
            old(self).shaped() ==> final(self).shaped(),
            old(self).shaped() && r == Ok::<bool, NP_Error>(true) ==> get_model(
                final(self).nodes(),
                final(self)@,
                path_view(path@),
            ) == Ok::<Option<Seq<char>>, NP_Error>(None),
            final(self)@ == del_model(old(self).nodes(), old(self)@, path_view(path@)).0,
            r == del_model(old(self).nodes(), old(self)@, path_view(path@)).1,
    {
        let segments: Vec<Vec<u8>> = path_segments(path);
        self.del_at(&segments)
    }

    /// Deletes the value at the path of the given segments.
    pub fn del_at(&mut self, segments: &Vec<Vec<u8>>) -> (r: Result<bool, NP_Error>)
        requires
            old(self).wf(),
        ensures
            final(self).memory.schema == old(self).memory.schema,
            old(self).shaped() ==> final(self).shaped(),
            old(self).shaped() && r == Ok::<bool, NP_Error>(true) ==> get_model(
                final(self).nodes(),
                final(self)@,
                segments_view(segments@),
            ) == Ok::<Option<Seq<char>>, NP_Error>(None),
            final(self)@ == del_model(old(self).nodes(), old(self)@, segments_view(segments@)).0,
            r == del_model(old(self).nodes(), old(self)@, segments_view(segments@)).1,
    {
        proof {
            if self.shaped() {
                law_del_keeps_shape(self.nodes(), self@, segments_view(segments@));
            }
        }
        match NP_Cursor::select(&self.memory, NP_Cursor::root(), segments, 0) {
            Err(e) => Err(e),
            Ok(None) => Ok(false),
            Ok(Some((cursor, _))) => {
                let address: u32 = match self.memory.read_address(cursor.buff_addr) {
                    Ok(a) => a,
                    Err(e) => { return Err(e); },
                };
                if address == 0 {
                    Ok(false)
                } else {
                    match self.memory.clear(cursor.buff_addr) {
                        Ok(_) => Ok(true),
                        Err(e) => Err(e),
                    }
                }
            },
        }
    }

    /// Writes `value` as the string at the dot-separated `path`.
    pub fn deep_set(&mut self, path: &str, value: &str) -> (r: Result<bool, NP_Error>)
        requires
            old(self).wf(),
        ensures
            final(self).memory.schema == old(self).memory.schema,
            old(self).shaped() ==> final(self).shaped(),
            final(self)@ == set_model(
                old(self).nodes(),
                old(self)@,
                split_path(path.spec_bytes()),
                value.spec_bytes(),
            ).0,
            r == set_model(
                old(self).nodes(),
                old(self)@,
                split_path(path.spec_bytes()),
                value.spec_bytes(),
            ).1,
    {
        let segments: Vec<Vec<u8>> = split_dots(path.as_bytes());
        self.set_at(&segments, value.as_bytes())
    }

    /// Reads the string at the dot-separated `path`.
    pub fn deep_get(&self, path: &str) -> (r: Result<Option<String>, NP_Error>)
        requires
            self.wf(),
        ensures
            match get_model(self.nodes(), self@, split_path(path.spec_bytes())) {
                Err(e) => r matches Err(f) && f == e,
                Ok(None) => r matches Ok(None),
                Ok(Some(text)) => r matches Ok(Some(s)) && s@ == text,
            },
    {
        let segments: Vec<Vec<u8>> = split_dots(path.as_bytes());
        self.get_at(&segments)
    }

    /// Imports a JSON payload at `path`: the member `value` of the
    /// payload is imported into the value that the path leads to. Returns
    /// whether the schema has such a path.
    pub fn set_with_json(&mut self, path: &[&str], json_value: &str) -> (r: Result<bool, NP_Error>)
        requires
            old(self).wf(),
        ensures
            final(self).memory.schema == old(self).memory.schema,
            old(self).shaped() ==> final(self).shaped(),
            final(self)@ == import_model(
                old(self).nodes(),
                old(self)@,
                path_view(path@),
                json_value.spec_bytes(),
            ).0,
            r == import_model(
                old(self).nodes(),
                old(self)@,
                path_view(path@),
                json_value.spec_bytes(),
            ).1,
    {
        proof {
            if self.shaped() {
                law_import_keeps_shape(
                    self.nodes(),
                    self@,
                    path_view(path@),
                    json_value.spec_bytes(),
                );
            }
        }
        let payload: NP_JSON = match json_decode(json_value.as_bytes()) {
            Some(j) => j,
            None => { return Err(NP_Error::Encoding); },
        };
        let value: &NP_JSON = match payload.get(word_value().as_slice()) {
            Some(v) => v,
            None => { return Err(NP_Error::Encoding); },
        };
        let segments: Vec<Vec<u8>> = path_segments(path);
        match NP_Cursor::select_make(&mut self.memory, NP_Cursor::root(), &segments, 0) {
            Err(e) => Err(e),
            Ok(None) => Ok(false),
            Ok(Some((cursor, depth))) => match NP_Cursor::set_from_json(
                depth,
                true,
                cursor,
                &mut self.memory,
                value,
            ) {
                Ok(_) => Ok(true),
                Err(e) => Err(e),
            },
        }
    }

    /// Rebuilds the buffer so that it holds the root value and nothing
    /// else. `new_capacity` says how many bytes to make room for; the
    /// size of the buffer as it is where it says nothing. Where copying
    /// fails the buffer stays as it was.
    pub fn compact(&mut self, new_capacity: Option<u32>) -> (r: Result<(), NP_Error>)
        requires
            old(self).wf(),
        ensures
            final(self).memory.schema == old(self).memory.schema,
            old(self).shaped() ==> final(self).shaped() && final(self)@.len()
                <= old(self)@.len(),
            r is Ok ==> final(self).shaped(),
            r is Ok ==> forall|path: Seq<Seq<u8>>| #[trigger]
                get_model(final(self).nodes(), final(self)@, path) == get_model(
                    old(self).nodes(),
                    old(self)@,
                    path,
                ),
            match compact_model(old(self).nodes(), old(self)@).1 {
                Ok(_) => final(self)@ == compact_model(old(self).nodes(), old(self)@).0 && r
                    == Ok::<(), NP_Error>(()),
                Err(e) => final(self)@ == old(self)@ && r == Err::<(), NP_Error>(e),
            },
    {
        proof {
            if compact_model(self.nodes(), self@).1 is Ok {
                law_compaction_gives_shape(self.nodes(), self@);
                let packed = compact_model(self.nodes(), self@).0;
                assert forall|path: Seq<Seq<u8>>| #[trigger]
                    get_model(self.nodes(), packed, path) == get_model(
                        self.nodes(),
                        self@,
                        path,
                    ) by {
                    law_compaction_keeps_value(self.nodes(), self@, path);
                }
            }
        }
        let capacity: usize = match new_capacity {
            Some(x) => x as usize,
            None => self.memory.length(),
        };
        let mut new_bytes: Vec<u8> = Vec::with_capacity(capacity);
        new_bytes.push(PROTOCOL_VERSION);
        new_bytes.push(0);
        new_bytes.push(0);
        new_bytes.push(0);
        new_bytes.push(0);
        assert(new_bytes@ =~= empty_bytes());
        let mut new_memory: NP_Memory<'a> = NP_Memory::existing(new_bytes, self.memory.schema);
        match NP_Cursor::compact(
            0,
            NP_Cursor::root(),
            &self.memory,
            NP_Cursor::root(),
            &mut new_memory,
        ) {
            Ok(_) => {
                self.memory = new_memory;
                Ok(())
            },
            Err(e) => Err(e),
        }
    }

    /// Reports the size of the buffer as it is and the size it would have
    /// after compaction.
    pub fn calc_bytes(&self) -> (r: Result<NP_Size_Data, NP_Error>)
        requires
            self.wf(),
        ensures
            match read_value(self.nodes(), self@, 0, ROOT_SLOT as int, 0) {
                Ok(v) => r == Ok::<NP_Size_Data, NP_Error>(
                    size_data(self@.len(), size_of_value(v)),
                ),
                Err(e) => r == Err::<NP_Size_Data, NP_Error>(e),
            },
    {
        let root = NP_Cursor::root();
        let size: usize = match NP_Cursor::calc_size(0, &root, &self.memory) {
            Ok(n) => n,
            Err(e) => { return Err(e); },
        };
        let current: usize = self.memory.length();
        let after: usize = crate::pointer::add_sizes(5, size);
        let wasted: usize = if current > after {
            current - after
        } else {
            0
        };
        Ok(NP_Size_Data { current_buffer: current, after_compaction: after, wasted_bytes: wasted })
    }

    /// Reports how many bytes compaction would win.
    pub fn calc_wasted_bytes(&self) -> (r: Result<usize, NP_Error>)
        requires
            self.wf(),
        ensures
            match read_value(self.nodes(), self@, 0, ROOT_SLOT as int, 0) {
                Ok(v) => r == Ok::<usize, NP_Error>(
                    size_data(self@.len(), size_of_value(v)).wasted_bytes,
                ),
                Err(e) => r == Err::<usize, NP_Error>(e),
            },
    {
        match self.calc_bytes() {
            Ok(data) => Ok(data.wasted_bytes),
            Err(e) => Err(e),
        }
    }

    /// Gives up the buffer and returns its bytes. The buffer is the only
    /// holder of its storage, so this always succeeds.
    pub fn close(self) -> (r: Result<Vec<u8>, NP_Error>)
        ensures
            r matches Ok(bytes) && bytes@ == self@,
    {
        Ok(self.memory.dump())
    }
}

} // verus!
