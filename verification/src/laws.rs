//! What holds of the library as a whole.

use vstd::prelude::*;
use crate::MAX_DEPTH;
use crate::buffer::{
    compact_model, del_model, empty_bytes, get_model, import_model, set_model, size_data,
};
use crate::edit_laws::{
    lemma_others_kept, lemma_compact_shape, lemma_find_path, lemma_find_path_leaf, lemma_find_path_reads,
    lemma_import_value, lemma_make_path, lemma_make_path_leaf, lemma_make_path_reads,
};
use vstd::set_lib::{lemma_int_range, lemma_subset_equality, set_int_range};
use crate::shape::{footprint, shaped};
use crate::shape_laws::lemma_footprint_size;
use crate::tight_laws::{lemma_make_path_grown, lemma_string_grown};
use crate::write_laws::{lemma_make_path_value, written_value};
use crate::shape_laws::{
    apart, lemma_absent_footprint, lemma_shaped_inside, lemma_shaped_size, lemma_slot_cleared,
    lemma_string_written, lemma_updated_same,
};
use vstd::utf8::{encode_utf8, encode_utf8_decode_utf8, encode_utf8_valid_utf8};
use crate::compact_laws::{
    agrees_on, lemma_compact_error, lemma_compact_succeeds, lemma_compact_value,
};
use crate::edits::{compact_value, find_path, import_value, make_path, write_string};
use crate::json::{json_member, parse_json};
use crate::memory::{spec_read_address, MAX_SIZE};
use crate::pointer::string::decoded;
use crate::pointer::ROOT_SLOT;
use crate::read_laws::{lemma_path_reads_value, value_at};
use crate::error::NP_Error;
use crate::factory::{schema_of_bytes, schema_of_json, schema_of_text};
use crate::json::stringify_spec;
use crate::json_laws::{law_json_round_trip, printable};
use crate::json::JsonValue;
use crate::schema::{
    bytes_of_tree, described_tree, find_field, json_of_nodes, json_of_tree, SchemaNode,
};
use crate::schema_laws::{
    lemma_compiled_reads_back, lemma_description_reads_back, lemma_registry_describes,
    lemma_registry_sound,
};
use crate::value::{read_value, size_of_value, Value};

verus! {

/// Whether a textual description is the one that is written for the
/// schema it describes: `type` first, then `fields` or `to`, nothing
/// else, and a string called `string`.
pub open spec fn canonical(j: JsonValue) -> bool {
    described_tree(j, 0) matches Some(t) && j == json_of_tree(t)
}

/// The textual round trip: a schema that is read from a textual
/// description is written out as the description of the same schema, and
/// reading what was written gives the same registry again. So a
/// description that is written in the library's own way comes back
/// unchanged.
pub proof fn law_textual_round_trip(j: JsonValue)
    requires
        schema_of_json(j) is Some,
    ensures
        ({
            let (t, nodes) = schema_of_json(j)->0;
            &&& json_of_nodes(nodes, 0) == Ok::<JsonValue, NP_Error>(json_of_tree(t))
            &&& schema_of_json(json_of_tree(t)) == Some((t, nodes))
            &&& canonical(j) ==> json_of_nodes(nodes, 0) == Ok::<JsonValue, NP_Error>(j)
        }),
{
    let (t, nodes) = schema_of_json(j)->0;
    lemma_registry_sound(t);
    lemma_registry_describes(nodes, t, 0);
    lemma_description_reads_back(t, 0);
}

/// The textual round trip, in text: the text that is written for the
/// schema that a description gives is read as the same schema again, and
/// written the same again. So a text in the library's own way of writing
/// comes back letter for letter. The description must not nest deeper
/// than JSON text may.
pub proof fn law_text_round_trip(j: JsonValue)
    requires
        schema_of_json(j) is Some,
        printable(json_of_tree(schema_of_json(j).unwrap().0), 0),
    ensures
        ({
            let (t, nodes) = schema_of_json(j)->0;
            let written = stringify_spec(json_of_tree(t));
            &&& json_of_nodes(nodes, 0) == Ok::<JsonValue, NP_Error>(json_of_tree(t))
            &&& schema_of_text(written) == Some((t, nodes))
        }),
{
    let (t, nodes) = schema_of_json(j)->0;
    law_textual_round_trip(j);
    law_json_round_trip(json_of_tree(t));
}

/// The compiled round trip: the compiled form of a schema is read as the
/// same schema, so that the registry read from it, and the textual
/// description written from that registry, are those of the schema that
/// was compiled.
pub proof fn law_compiled_round_trip(j: JsonValue)
    requires
        schema_of_json(j) is Some,
    ensures
        ({
            let (t, nodes) = schema_of_json(j)->0;
            &&& schema_of_bytes(bytes_of_tree(t)) == Some((t, nodes))
            &&& json_of_nodes(nodes, 0) == Ok::<JsonValue, NP_Error>(json_of_tree(t))
        }),
{
    let (t, nodes) = schema_of_json(j)->0;
    let b = bytes_of_tree(t);
    assert(b.subrange(0, b.len() as int) =~= b);
    lemma_compiled_reads_back(t, 0, b, 0);
    law_textual_round_trip(j);
}

/// Whether following portals from the node at `schema` meets nothing but
/// portals for `steps` steps.
pub open spec fn only_portals(nodes: Seq<SchemaNode>, schema: int, steps: nat) -> bool
    decreases steps,
{
    if steps == 0 {
        true
    } else if schema < 0 || schema >= nodes.len() {
        false
    } else {
        match nodes[schema] {
            SchemaNode::Portal { schema: target, .. } => only_portals(
                nodes,
                target,
                (steps - 1) as nat,
            ),
            _ => false,
        }
    }
}

/// A portal that points at itself leads to nothing but portals, however
/// far it is followed.
pub proof fn lemma_self_portal(nodes: Seq<SchemaNode>, schema: int, steps: nat)
    requires
        0 <= schema < nodes.len(),
        nodes[schema] matches SchemaNode::Portal { schema: target, .. } && target == schema,
    ensures
        only_portals(nodes, schema, steps),
    decreases steps,
{
    if steps > 0 {
        lemma_self_portal(nodes, schema, (steps - 1) as nat);
    }
}

/// The recursion guard: where following portals never leaves the
/// portals, every traversal fails with `RecursionLimit`, and writes
/// nothing: reading, following a path, following a path while storing
/// what is absent, importing and copying alike.
pub proof fn law_recursion_guard(
    nodes: Seq<SchemaNode>,
    mem: Seq<u8>,
    schema: int,
    parent: int,
    slot: int,
    depth: nat,
    path: Seq<Seq<u8>>,
    i: int,
    apply_null: bool,
    json: JsonValue,
    to: Seq<u8>,
    to_slot: int,
)
    requires
        only_portals(nodes, schema, (MAX_DEPTH + 1 - depth) as nat),
    ensures
        read_value(nodes, mem, schema, slot, depth) == Err::<crate::value::Value, NP_Error>(
            NP_Error::RecursionLimit,
        ),
        find_path(nodes, mem, schema, parent, slot, path, i, depth) == Err::<
            Option<(int, int, int, nat)>,
            NP_Error,
        >(NP_Error::RecursionLimit),
        make_path(nodes, mem, schema, parent, slot, path, i, depth) == (
            mem,
            Err::<Option<(int, int, int, nat)>, NP_Error>(NP_Error::RecursionLimit),
        ),
        import_value(nodes, mem, schema, slot, depth, apply_null, json) == (
            mem,
            Err::<(), NP_Error>(NP_Error::RecursionLimit),
        ),
        compact_value(nodes, mem, schema, slot, depth, to, to_slot) == (
            to,
            Err::<(), NP_Error>(NP_Error::RecursionLimit),
        ),
    decreases MAX_DEPTH + 1 - depth,
{
    if depth <= MAX_DEPTH {
        match nodes[schema] {
            SchemaNode::Portal { schema: target, parent_schema, .. } => {
                law_recursion_guard(
                    nodes,
                    mem,
                    target,
                    parent_schema,
                    slot,
                    depth + 1,
                    path,
                    i,
                    apply_null,
                    json,
                    to,
                    to_slot,
                );
            },
            _ => {},
        }
    }
}


/// The root slot of a buffer that holds nothing holds 0.
pub proof fn lemma_empty_root_slot()
    ensures
        spec_read_address(empty_bytes(), ROOT_SLOT as int) == Ok::<u32, NP_Error>(0u32),
{
    assert(empty_bytes().subrange(1, 5) =~= seq![0u8, 0u8, 0u8, 0u8]);
}

/// Reading by path reads the value of the buffer: where the root value is
/// read without error, `get` gives the string that the value holds at
/// the path.
pub proof fn law_get_reads_value(nodes: Seq<SchemaNode>, mem: Seq<u8>, path: Seq<Seq<u8>>)
    requires
        read_value(nodes, mem, 0, ROOT_SLOT as int, 0) is Ok,
    ensures
        get_model(nodes, mem, path) == decoded(
            value_at(read_value(nodes, mem, 0, ROOT_SLOT as int, 0)->Ok_0, path, 0),
        ),
{
    lemma_path_reads_value(nodes, mem, 0, 0, ROOT_SLOT as int, path, 0, 0);
}

/// Compaction is correct: where it goes well, the root value of the new
/// buffer is the root value of the old one, so that every path reads in
/// the new buffer what it read in the old one; and the new buffer holds
/// the root value and nothing else.
pub proof fn law_compaction_keeps_value(nodes: Seq<SchemaNode>, mem: Seq<u8>, path: Seq<Seq<u8>>)
    requires
        compact_model(nodes, mem).1 is Ok,
    ensures
        ({
            let after = compact_model(nodes, mem).0;
            let value = read_value(nodes, mem, 0, ROOT_SLOT as int, 0);
            &&& value is Ok
            &&& read_value(nodes, after, 0, ROOT_SLOT as int, 0) == value
            &&& get_model(nodes, after, path) == get_model(nodes, mem, path)
            &&& after.len() == 5 + size_of_value(value->Ok_0)
            &&& after.len() <= MAX_SIZE
        }),
{
    let after = compact_model(nodes, mem).0;
    lemma_empty_root_slot();
    lemma_compact_value(nodes, mem, 0, ROOT_SLOT as int, 0, empty_bytes(), ROOT_SLOT as int);
    assert(agrees_on(after, after, ROOT_SLOT as int, 5, after.len() as int));
    law_get_reads_value(nodes, mem, path);
    law_get_reads_value(nodes, after, path);
}

/// When compaction goes well: whenever the root value is read without
/// error and a buffer that holds it and nothing else stays within the
/// 32-bit address space. Otherwise it fails and the buffer is left as it
/// was.
pub proof fn law_compaction_succeeds(nodes: Seq<SchemaNode>, mem: Seq<u8>)
    ensures
        compact_model(nodes, mem).1 is Ok <==> (read_value(nodes, mem, 0, ROOT_SLOT as int, 0) matches Ok(
            v,
        ) && 5 + size_of_value(v) <= MAX_SIZE),
{
    lemma_empty_root_slot();
    if compact_model(nodes, mem).1 is Ok {
        lemma_compact_value(nodes, mem, 0, ROOT_SLOT as int, 0, empty_bytes(), ROOT_SLOT as int);
        let v = read_value(nodes, mem, 0, ROOT_SLOT as int, 0)->Ok_0;
        if v is Absent {
            assert(size_of_value(v) == 0);
        }
    }
    if read_value(nodes, mem, 0, ROOT_SLOT as int, 0) matches Ok(v) && 5 + size_of_value(v)
        <= MAX_SIZE {
        lemma_compact_succeeds(
            nodes,
            mem,
            0,
            ROOT_SLOT as int,
            0,
            empty_bytes(),
            ROOT_SLOT as int,
        );
    }
}

/// How compaction fails: either as reading the root value fails, or
/// because a buffer that holds the root value and nothing else would pass
/// the 32-bit address space.
pub proof fn law_compaction_fails(nodes: Seq<SchemaNode>, mem: Seq<u8>)
    ensures
        compact_model(nodes, mem).1 matches Err(e) ==> e == NP_Error::Allocation || read_value(
            nodes,
            mem,
            0,
            ROOT_SLOT as int,
            0,
        ) == Err::<Value, NP_Error>(e),
{
    lemma_compact_error(nodes, mem, 0, ROOT_SLOT as int, 0, empty_bytes(), ROOT_SLOT as int);
}

/// Size accounting: a buffer that was just compacted has nothing to win
/// from compaction. Its size as it is and its size after compaction are
/// the same.
pub proof fn law_size_accounting(nodes: Seq<SchemaNode>, mem: Seq<u8>)
    requires
        compact_model(nodes, mem).1 is Ok,
    ensures
        ({
            let after = compact_model(nodes, mem).0;
            let value = read_value(nodes, after, 0, ROOT_SLOT as int, 0);
            let sizes = size_data(after.len(), size_of_value(value->Ok_0));
            &&& value is Ok
            &&& sizes.current_buffer == sizes.after_compaction
            &&& sizes.wasted_bytes == 0
        }),
{
    law_compaction_keeps_value(nodes, mem, Seq::<Seq<u8>>::empty());
}

/// Size accounting: a buffer that holds nothing yet has nothing to win
/// from compaction either, where its root value can be read at all.
pub proof fn law_size_accounting_when_empty(nodes: Seq<SchemaNode>, schema: int, depth: nat)
    requires
        read_value(nodes, empty_bytes(), schema, ROOT_SLOT as int, depth) is Ok,
    ensures
        read_value(nodes, empty_bytes(), schema, ROOT_SLOT as int, depth) == Ok::<
            Value,
            NP_Error,
        >(Value::Absent),
        size_data(5, 0).current_buffer == size_data(5, 0).after_compaction,
        size_data(5, 0).wasted_bytes == 0,
    decreases MAX_DEPTH + 1 - depth,
{
    lemma_empty_root_slot();
    match nodes[schema] {
        SchemaNode::Portal { schema: target, .. } => {
            law_size_accounting_when_empty(nodes, target, depth + 1);
        },
        _ => {},
    }
}


/// Whether a buffer has the shape that this library writes: it holds the
/// header, and its root value has the shape.
pub open spec fn buffer_shaped(nodes: Seq<SchemaNode>, mem: Seq<u8>) -> bool {
    mem.len() >= 5 && shaped(nodes, mem, 0, ROOT_SLOT as int, 0)
}

/// The root slot of a buffer of the shape shares no byte with the root
/// value.
pub proof fn lemma_root_apart(nodes: Seq<SchemaNode>, mem: Seq<u8>)
    requires
        buffer_shaped(nodes, mem),
    ensures
        apart(nodes, mem, 0, ROOT_SLOT as int, 0),
{
    lemma_shaped_inside(nodes, mem, 0, ROOT_SLOT as int, 0);
}

/// A buffer that holds nothing yet has the shape.
pub proof fn law_new_has_shape(nodes: Seq<SchemaNode>)
    ensures
        buffer_shaped(nodes, empty_bytes()),
{
    lemma_empty_root_slot();
    lemma_absent_footprint(nodes, empty_bytes(), 0, ROOT_SLOT as int, 0);
}

/// Writing a string keeps the shape, whether it goes well or not.
pub proof fn law_set_keeps_shape(
    nodes: Seq<SchemaNode>,
    mem: Seq<u8>,
    path: Seq<Seq<u8>>,
    value: Seq<u8>,
)
    requires
        buffer_shaped(nodes, mem),
    ensures
        buffer_shaped(nodes, set_model(nodes, mem, path, value).0),
        set_model(nodes, mem, path, value).0.len() >= mem.len(),
{
    let made = make_path(nodes, mem, 0, 0, ROOT_SLOT as int, path, 0, 0);
    let last = set_model(nodes, mem, path, value).0;
    lemma_root_apart(nodes, mem);
    lemma_make_path_leaf(nodes, mem, 0, 0, ROOT_SLOT as int, path, 0, 0);
    match made.1 {
        Ok(Some((reached, _, slot, steps))) => {
            lemma_updated_same(nodes, made.0, reached, slot, steps);
            if nodes[reached] is String && write_string(made.0, slot, value).1 is Ok {
                lemma_string_written(nodes, made.0, reached, slot, steps, value);
            }
        },
        _ => {},
    }
    lemma_make_path(nodes, mem, 0, 0, ROOT_SLOT as int, path, 0, 0, last);
}

/// What was written is read back: in a buffer of the shape, after a
/// string was written at a path, reading at that path gives the string.
pub proof fn law_set_then_get(
    nodes: Seq<SchemaNode>,
    mem: Seq<u8>,
    path: Seq<Seq<u8>>,
    value: Seq<u8>,
)
    requires
        buffer_shaped(nodes, mem),
        set_model(nodes, mem, path, value).1 == Ok::<bool, NP_Error>(true),
    ensures
        get_model(nodes, set_model(nodes, mem, path, value).0, path) == decoded(
            Ok::<Option<Seq<u8>>, NP_Error>(Some(value)),
        ),
{
    let made = make_path(nodes, mem, 0, 0, ROOT_SLOT as int, path, 0, 0);
    let last = set_model(nodes, mem, path, value).0;
    lemma_root_apart(nodes, mem);
    lemma_make_path_leaf(nodes, mem, 0, 0, ROOT_SLOT as int, path, 0, 0);
    let (reached, _, slot, steps) = made.1->Ok_0->0;
    lemma_string_written(nodes, made.0, reached, slot, steps, value);
    lemma_make_path_reads(nodes, mem, 0, 0, ROOT_SLOT as int, path, 0, 0, last, value);
}

/// Writing a string changes the value of the buffer as the path says and
/// no more: in a buffer of the shape, the root value after a string was
/// written is the root value before with the string put at the path.
/// Every struct that was absent on the way is there afterwards, with its
/// other fields absent; everything else is as it was.
pub proof fn law_set_writes_value(
    nodes: Seq<SchemaNode>,
    mem: Seq<u8>,
    path: Seq<Seq<u8>>,
    value: Seq<u8>,
)
    requires
        buffer_shaped(nodes, mem),
        set_model(nodes, mem, path, value).1 == Ok::<bool, NP_Error>(true),
        read_value(nodes, mem, 0, ROOT_SLOT as int, 0) is Ok,
        read_value(nodes, set_model(nodes, mem, path, value).0, 0, ROOT_SLOT as int, 0) is Ok,
    ensures
        read_value(nodes, set_model(nodes, mem, path, value).0, 0, ROOT_SLOT as int, 0) == Ok::<
            Value,
            NP_Error,
        >(
            written_value(
                nodes,
                0,
                0,
                read_value(nodes, mem, 0, ROOT_SLOT as int, 0)->Ok_0,
                path,
                0,
                value,
            ),
        ),
{
    let made = make_path(nodes, mem, 0, 0, ROOT_SLOT as int, path, 0, 0);
    let last = set_model(nodes, mem, path, value).0;
    lemma_root_apart(nodes, mem);
    lemma_make_path_leaf(nodes, mem, 0, 0, ROOT_SLOT as int, path, 0, 0);
    let (reached, _, slot, steps) = made.1->Ok_0->0;
    lemma_string_written(nodes, made.0, reached, slot, steps, value);
    assert(read_value(nodes, last, reached, slot, steps) == Ok::<Value, NP_Error>(
        Value::String(value),
    ));
    lemma_make_path_value(nodes, mem, 0, 0, ROOT_SLOT as int, path, 0, 0, last, value);
}

/// Writing leaves the rest alone: in a buffer of the shape, after a
/// string was written at one path, a string that stood at another path
/// is read there as before.
pub proof fn law_set_leaves_others(
    nodes: Seq<SchemaNode>,
    mem: Seq<u8>,
    path: Seq<Seq<u8>>,
    other: Seq<Seq<u8>>,
    value: Seq<u8>,
)
    requires
        buffer_shaped(nodes, mem),
        set_model(nodes, mem, path, value).1 == Ok::<bool, NP_Error>(true),
        other != path,
        crate::buffer::reached_bytes(nodes, mem, 0, 0, ROOT_SLOT as int, other, 0, 0) matches Ok(
            Some(_),
        ),
    ensures
        get_model(nodes, set_model(nodes, mem, path, value).0, other) == get_model(
            nodes,
            mem,
            other,
        ),
{
    let made = make_path(nodes, mem, 0, 0, ROOT_SLOT as int, path, 0, 0);
    let last = set_model(nodes, mem, path, value).0;
    lemma_root_apart(nodes, mem);
    lemma_make_path_leaf(nodes, mem, 0, 0, ROOT_SLOT as int, path, 0, 0);
    let (reached, _, slot, steps) = made.1->Ok_0->0;
    lemma_string_written(nodes, made.0, reached, slot, steps, value);
    assert(path.subrange(0, path.len() as int) =~= path);
    assert(other.subrange(0, other.len() as int) =~= other);
    lemma_others_kept(nodes, mem, 0, 0, ROOT_SLOT as int, path, other, 0, 0, last);
}

/// What was written is read back, in text: in a buffer of the shape,
/// after a text was written at a path, reading at that path gives the
/// text.
pub proof fn law_set_then_get_text(
    nodes: Seq<SchemaNode>,
    mem: Seq<u8>,
    path: Seq<Seq<u8>>,
    text: Seq<char>,
)
    requires
        buffer_shaped(nodes, mem),
        set_model(nodes, mem, path, encode_utf8(text)).1 == Ok::<bool, NP_Error>(true),
    ensures
        get_model(nodes, set_model(nodes, mem, path, encode_utf8(text)).0, path) == Ok::<
            Option<Seq<char>>,
            NP_Error,
        >(Some(text)),
{
    law_set_then_get(nodes, mem, path, encode_utf8(text));
    encode_utf8_valid_utf8(text);
    encode_utf8_decode_utf8(text);
}

/// Deleting keeps the shape; and where a value was deleted, reading at
/// its path gives nothing afterwards.
pub proof fn law_del_keeps_shape(nodes: Seq<SchemaNode>, mem: Seq<u8>, path: Seq<Seq<u8>>)
    requires
        buffer_shaped(nodes, mem),
    ensures
        buffer_shaped(nodes, del_model(nodes, mem, path).0),
        del_model(nodes, mem, path).1 == Ok::<bool, NP_Error>(true) ==> get_model(
            nodes,
            del_model(nodes, mem, path).0,
            path,
        ) == Ok::<Option<Seq<char>>, NP_Error>(None),
{
    let place = find_path(nodes, mem, 0, 0, ROOT_SLOT as int, path, 0, 0);
    let last = del_model(nodes, mem, path).0;
    lemma_root_apart(nodes, mem);
    lemma_find_path_leaf(nodes, mem, 0, 0, ROOT_SLOT as int, path, 0, 0);
    match place {
        Ok(Some((reached, _, slot, steps))) => {
            lemma_updated_same(nodes, mem, reached, slot, steps);
            lemma_slot_cleared(nodes, mem, reached, slot, steps);
            lemma_find_path(nodes, mem, 0, 0, ROOT_SLOT as int, path, 0, 0, last);
            if del_model(nodes, mem, path).1 == Ok::<bool, NP_Error>(true) {
                lemma_find_path_reads(nodes, mem, 0, 0, ROOT_SLOT as int, path, 0, 0, last);
            }
        },
        _ => {},
    }
}

/// Importing a JSON payload keeps the shape, whether it goes well or not.
pub proof fn law_import_keeps_shape(
    nodes: Seq<SchemaNode>,
    mem: Seq<u8>,
    path: Seq<Seq<u8>>,
    text: Seq<u8>,
)
    requires
        buffer_shaped(nodes, mem),
    ensures
        buffer_shaped(nodes, import_model(nodes, mem, path, text).0),
{
    let last = import_model(nodes, mem, path, text).0;
    lemma_root_apart(nodes, mem);
    match parse_json(text) {
        Some(payload) => match json_member(payload, crate::buffer::key_value()) {
            Some(value) => {
                let made = make_path(nodes, mem, 0, 0, ROOT_SLOT as int, path, 0, 0);
                lemma_make_path_leaf(nodes, mem, 0, 0, ROOT_SLOT as int, path, 0, 0);
                match made.1 {
                    Ok(Some((reached, _, slot, steps))) => {
                        lemma_import_value(nodes, made.0, reached, slot, steps, true, value);
                    },
                    _ => {},
                }
                lemma_make_path(nodes, mem, 0, 0, ROOT_SLOT as int, path, 0, 0, last);
            },
            None => {},
        },
        None => {},
    }
}

/// What compaction gives has the shape, whatever it was given; and what
/// it gives for a buffer of the shape is no larger than the buffer.
pub proof fn law_compaction_gives_shape(nodes: Seq<SchemaNode>, mem: Seq<u8>)
    requires
        compact_model(nodes, mem).1 is Ok,
    ensures
        buffer_shaped(nodes, compact_model(nodes, mem).0),
        buffer_shaped(nodes, mem) ==> compact_model(nodes, mem).0.len() <= mem.len(),
{
    lemma_empty_root_slot();
    lemma_compact_shape(nodes, mem, 0, ROOT_SLOT as int, 0, empty_bytes(), ROOT_SLOT as int);
    law_compaction_keeps_value(nodes, mem, Seq::<Seq<u8>>::empty());
    if buffer_shaped(nodes, mem) {
        lemma_shaped_size(nodes, mem, 0, ROOT_SLOT as int, 0);
    }
}

/// Size accounting: in a buffer of the shape, the size after compaction
/// is never more than the size as it is, so that what compaction would
/// win is the one less the other.
pub proof fn law_wasted_bytes(nodes: Seq<SchemaNode>, mem: Seq<u8>)
    requires
        buffer_shaped(nodes, mem),
        read_value(nodes, mem, 0, ROOT_SLOT as int, 0) is Ok,
        mem.len() <= usize::MAX,
    ensures
        ({
            let sizes = size_data(
                mem.len(),
                size_of_value(read_value(nodes, mem, 0, ROOT_SLOT as int, 0)->Ok_0),
            );
            &&& sizes.after_compaction <= sizes.current_buffer
            &&& sizes.wasted_bytes == sizes.current_buffer - sizes.after_compaction
        }),
{
    lemma_shaped_size(nodes, mem, 0, ROOT_SLOT as int, 0);
}


/// Whether a buffer of the shape holds its root value and nothing else:
/// every byte behind the header belongs to the root value.
pub open spec fn tight(nodes: Seq<SchemaNode>, mem: Seq<u8>) -> bool {
    &&& buffer_shaped(nodes, mem)
    &&& forall|x: int| #[trigger]
        footprint(nodes, mem, 0, ROOT_SLOT as int, 0).contains(x) <==> 5 <= x < mem.len()
}

/// Size accounting: a buffer that holds its root value and nothing else
/// has nothing to win from compaction. Its size as it is and its size
/// after compaction are the same.
pub proof fn law_tight_has_no_waste(nodes: Seq<SchemaNode>, mem: Seq<u8>)
    requires
        tight(nodes, mem),
        read_value(nodes, mem, 0, ROOT_SLOT as int, 0) is Ok,
        mem.len() <= usize::MAX,
    ensures
        ({
            let sizes = size_data(
                mem.len(),
                size_of_value(read_value(nodes, mem, 0, ROOT_SLOT as int, 0)->Ok_0),
            );
            &&& sizes.current_buffer == sizes.after_compaction
            &&& sizes.wasted_bytes == 0
        }),
{
    lemma_footprint_size(nodes, mem, 0, ROOT_SLOT as int, 0);
    lemma_int_range(5, mem.len() as int);
    assert(footprint(nodes, mem, 0, ROOT_SLOT as int, 0) =~= set_int_range(5, mem.len() as int));
}

/// A buffer that holds nothing yet holds nothing else than its root value.
pub proof fn law_new_is_tight(nodes: Seq<SchemaNode>)
    ensures
        tight(nodes, empty_bytes()),
{
    law_new_has_shape(nodes);
    lemma_empty_root_slot();
    lemma_absent_footprint(nodes, empty_bytes(), 0, ROOT_SLOT as int, 0);
}

/// What compaction gives holds the root value and nothing else.
pub proof fn law_compaction_gives_tight(nodes: Seq<SchemaNode>, mem: Seq<u8>)
    requires
        compact_model(nodes, mem).1 is Ok,
    ensures
        tight(nodes, compact_model(nodes, mem).0),
{
    let after = compact_model(nodes, mem).0;
    law_compaction_gives_shape(nodes, mem);
    law_compaction_keeps_value(nodes, mem, Seq::<Seq<u8>>::empty());
    lemma_footprint_size(nodes, after, 0, ROOT_SLOT as int, 0);
    lemma_shaped_inside(nodes, after, 0, ROOT_SLOT as int, 0);
    lemma_int_range(5, after.len() as int);
    let taken = footprint(nodes, after, 0, ROOT_SLOT as int, 0);
    assert(taken.subset_of(set_int_range(5, after.len() as int)));
    lemma_subset_equality(taken, set_int_range(5, after.len() as int));
    assert forall|x: int| #[trigger] taken.contains(x) <==> 5 <= x < after.len() by {
        assert(set_int_range(5, after.len() as int).contains(x) <==> 5 <= x < after.len());
    }
}

/// Whether writing a string at a path would put it where no string stood:
/// the path leads to a string that is absent, or it leads to no string.
pub open spec fn writes_afresh(nodes: Seq<SchemaNode>, mem: Seq<u8>, path: Seq<Seq<u8>>) -> bool {
    let made = make_path(nodes, mem, 0, 0, ROOT_SLOT as int, path, 0, 0);
    match made.1 {
        Ok(Some((reached, _, slot, _))) => nodes[reached] is String ==> spec_read_address(
            made.0,
            slot,
        ) == Ok::<u32, NP_Error>(0u32),
        _ => true,
    }
}

/// With nothing overwritten and nothing deleted, nothing is wasted: a
/// buffer that holds its root value and nothing else still does after a
/// string was written where none stood.
pub proof fn law_fresh_set_keeps_tight(
    nodes: Seq<SchemaNode>,
    mem: Seq<u8>,
    path: Seq<Seq<u8>>,
    value: Seq<u8>,
)
    requires
        tight(nodes, mem),
        writes_afresh(nodes, mem, path),
    ensures
        tight(nodes, set_model(nodes, mem, path, value).0),
{
    let made = make_path(nodes, mem, 0, 0, ROOT_SLOT as int, path, 0, 0);
    let last = set_model(nodes, mem, path, value).0;
    law_set_keeps_shape(nodes, mem, path, value);
    lemma_root_apart(nodes, mem);
    lemma_make_path_leaf(nodes, mem, 0, 0, ROOT_SLOT as int, path, 0, 0);
    match made.1 {
        Ok(Some((reached, _, slot, steps))) => {
            lemma_updated_same(nodes, made.0, reached, slot, steps);
            if nodes[reached] is String && write_string(made.0, slot, value).1 is Ok {
                lemma_string_written(nodes, made.0, reached, slot, steps, value);
                lemma_string_grown(nodes, made.0, reached, slot, steps, value);
            }
        },
        _ => {},
    }
    lemma_make_path_grown(nodes, mem, 0, 0, ROOT_SLOT as int, path, 0, 0, last);
    lemma_shaped_inside(nodes, last, 0, ROOT_SLOT as int, 0);
    assert forall|x: int| #[trigger]
        footprint(nodes, last, 0, ROOT_SLOT as int, 0).contains(x) <==> 5 <= x < last.len() by {
        if footprint(nodes, mem, 0, ROOT_SLOT as int, 0).contains(x) {
        }
    }
}


/// Depth adds up along a path: every segment that is followed is at least
/// one step, on top of the steps taken before, and a path is followed to
/// its end within `MAX_DEPTH` steps or not at all. So a path of more
/// segments than that never leads to a value, whatever the schema.
pub proof fn law_depth_adds_up(
    nodes: Seq<SchemaNode>,
    mem: Seq<u8>,
    schema: int,
    parent: int,
    slot: int,
    path: Seq<Seq<u8>>,
    i: int,
    depth: nat,
)
    requires
        0 <= i <= path.len(),
    ensures
        find_path(nodes, mem, schema, parent, slot, path, i, depth) matches Ok(
            Some((_, _, _, steps)),
        ) ==> depth + (path.len() - i) <= steps <= MAX_DEPTH,
        make_path(nodes, mem, schema, parent, slot, path, i, depth).1 matches Ok(
            Some((_, _, _, steps)),
        ) ==> depth + (path.len() - i) <= steps <= MAX_DEPTH,
    decreases MAX_DEPTH + 1 - depth,
{
    if depth > MAX_DEPTH || schema < 0 || schema >= nodes.len() {
    } else {
        match nodes[schema] {
            SchemaNode::Portal { schema: target, parent_schema, .. } => {
                law_depth_adds_up(nodes, mem, target, parent_schema, slot, path, i, depth + 1);
            },
            SchemaNode::String => {},
            SchemaNode::Struct { fields } => {
                if i < path.len() {
                    match find_field(fields, path[i], 0) {
                        None => {},
                        Some(k) => {
                            match spec_read_address(mem, slot) {
                                Ok(address) => {
                                    if address == 0 {
                                        let stored = crate::edits::allocate_table(
                                            mem,
                                            slot,
                                            fields.len(),
                                        ).0;
                                        law_depth_adds_up(
                                            nodes,
                                            stored,
                                            fields[k].1,
                                            schema,
                                            mem.len() + 4 * k,
                                            path,
                                            i + 1,
                                            depth + 1,
                                        );
                                    } else {
                                        law_depth_adds_up(
                                            nodes,
                                            mem,
                                            fields[k].1,
                                            schema,
                                            address + 4 * k,
                                            path,
                                            i + 1,
                                            depth + 1,
                                        );
                                    }
                                },
                                Err(_) => {},
                            }
                        },
                    }
                }
            },
        }
    }
}

} // verus!
