//! What holds of writing a string by path: the value of the buffer
//! afterwards is the value before with the string put at the path.

use vstd::prelude::*;
use crate::MAX_DEPTH;
use crate::compact_laws::{
    empty_slot, lemma_read_fields_each, lemma_read_fields_index, lemma_same_address,
};
use crate::edit_laws::{
    leaf_updated, lemma_child_apart, lemma_find_field_bounds, lemma_make_path, lemma_portal_shape,
};
use crate::edits::{allocate_table, make_path};
use crate::error::NP_Error;
use crate::memory::spec_read_address;
use crate::schema::{find_field, SchemaNode};
use crate::shape::{fields_shaped, shaped};
use crate::shape_laws::{
    apart, child_value, lemma_child_updated, lemma_shaped_inside, lemma_siblings_kept,
    lemma_table_stored,
};
use crate::value::{read_fields, read_value, Value};

verus! {

/// The fields of a struct that was just stored: all absent.
pub open spec fn absent_fields(fields: Seq<(Seq<u8>, int)>) -> Seq<(Seq<u8>, Value)> {
    Seq::new(fields.len(), |j: int| (fields[j].0, Value::Absent))
}

/// The value `v` with the string `text` put where `path` leads from its
/// `i`-th segment on, as the node at `schema` says: a struct that is
/// absent on the way is there afterwards, with its other fields absent.
/// The value is left as it is where the path leads to no string.
pub open spec fn written_value(
    nodes: Seq<SchemaNode>,
    schema: int,
    depth: nat,
    v: Value,
    path: Seq<Seq<u8>>,
    i: int,
    text: Seq<u8>,
) -> Value
    decreases MAX_DEPTH + 1 - depth,
{
    if depth > MAX_DEPTH || schema < 0 || schema >= nodes.len() {
        v
    } else {
        match nodes[schema] {
            SchemaNode::Portal { schema: target, .. } => written_value(
                nodes,
                target,
                depth + 1,
                v,
                path,
                i,
                text,
            ),
            SchemaNode::String => if i < 0 || i >= path.len() {
                Value::String(text)
            } else {
                v
            },
            SchemaNode::Struct { fields } => if i < 0 || i >= path.len() {
                v
            } else {
                match find_field(fields, path[i], 0) {
                    None => v,
                    Some(k) => {
                        let held = match v {
                            Value::Struct(held) => held,
                            _ => absent_fields(fields),
                        };
                        Value::Struct(
                            held.update(
                                k,
                                (
                                    fields[k].0,
                                    written_value(
                                        nodes,
                                        fields[k].1,
                                        depth + 1,
                                        held[k].1,
                                        path,
                                        i + 1,
                                        text,
                                    ),
                                ),
                            ),
                        )
                    },
                }
            },
        }
    }
}

/// A slot that holds 0 is read as no value, where it is read at all.
pub proof fn lemma_absent_reads(
    nodes: Seq<SchemaNode>,
    mem: Seq<u8>,
    schema: int,
    slot: int,
    depth: nat,
)
    requires
        spec_read_address(mem, slot) == Ok::<u32, NP_Error>(0u32),
        read_value(nodes, mem, schema, slot, depth) is Ok,
    ensures
        read_value(nodes, mem, schema, slot, depth) == Ok::<Value, NP_Error>(Value::Absent),
    decreases MAX_DEPTH + 1 - depth,
{
    match nodes[schema] {
        SchemaNode::Portal { schema: target, .. } => {
            lemma_absent_reads(nodes, mem, target, slot, depth + 1);
        },
        _ => {},
    }
}

/// A slot that holds 0 and from which a path can be followed is read as
/// no value.
pub proof fn lemma_made_absent_reads(
    nodes: Seq<SchemaNode>,
    mem: Seq<u8>,
    schema: int,
    parent: int,
    slot: int,
    path: Seq<Seq<u8>>,
    i: int,
    depth: nat,
)
    requires
        spec_read_address(mem, slot) == Ok::<u32, NP_Error>(0u32),
        make_path(nodes, mem, schema, parent, slot, path, i, depth).1 matches Ok(Some(_)),
    ensures
        read_value(nodes, mem, schema, slot, depth) == Ok::<Value, NP_Error>(Value::Absent),
    decreases MAX_DEPTH + 1 - depth,
{
    match nodes[schema] {
        SchemaNode::Portal { schema: target, parent_schema, .. } => {
            lemma_made_absent_reads(nodes, mem, target, parent_schema, slot, path, i, depth + 1);
        },
        _ => {},
    }
}

/// Where a string was written behind the slot that a path led to, the
/// value from which the path was followed is read afterwards as it was
/// read before, with the string put at the path.
pub proof fn lemma_make_path_value(
    nodes: Seq<SchemaNode>,
    mem: Seq<u8>,
    schema: int,
    parent: int,
    slot: int,
    path: Seq<Seq<u8>>,
    i: int,
    depth: nat,
    last: Seq<u8>,
    text: Seq<u8>,
)
    requires
        shaped(nodes, mem, schema, slot, depth),
        apart(nodes, mem, schema, slot, depth),
        mem.len() >= 5,
        leaf_updated(nodes, make_path(nodes, mem, schema, parent, slot, path, i, depth), last),
        make_path(nodes, mem, schema, parent, slot, path, i, depth).1 matches Ok(
            Some((reached, _, reached_slot, steps)),
        ) && nodes[reached] is String && read_value(nodes, last, reached, reached_slot, steps)
            == Ok::<Value, NP_Error>(Value::String(text)),
        read_value(nodes, mem, schema, slot, depth) is Ok,
        read_value(nodes, last, schema, slot, depth) is Ok,
    ensures
        read_value(nodes, last, schema, slot, depth) == Ok::<Value, NP_Error>(
            written_value(
                nodes,
                schema,
                depth,
                read_value(nodes, mem, schema, slot, depth)->Ok_0,
                path,
                i,
                text,
            ),
        ),
    decreases MAX_DEPTH + 1 - depth, 1nat,
{
    lemma_shaped_inside(nodes, mem, schema, slot, depth);
    match nodes[schema] {
        SchemaNode::Portal { schema: target, parent_schema, .. } => {
            lemma_portal_shape(nodes, mem, last, schema, slot, depth);
            lemma_make_path_value(
                nodes,
                mem,
                target,
                parent_schema,
                slot,
                path,
                i,
                depth + 1,
                last,
                text,
            );
        },
        SchemaNode::String => {},
        SchemaNode::Struct { fields } => {
            lemma_find_field_bounds(fields, path[i], 0);
            let k = find_field(fields, path[i], 0)->0;
            let address = spec_read_address(mem, slot)->Ok_0;
            if address == 0 {
                let stored = allocate_table(mem, slot, fields.len()).0;
                lemma_table_stored(nodes, mem, schema, slot, depth);
                lemma_struct_value(
                    nodes,
                    stored,
                    schema,
                    slot,
                    path,
                    i,
                    depth,
                    last,
                    text,
                    mem.len() as int,
                    k,
                );
                let held = read_fields(
                    nodes,
                    stored,
                    fields,
                    mem.len() as int,
                    fields.len(),
                    depth + 1,
                )->Ok_0;
                lemma_read_fields_index(
                    nodes,
                    stored,
                    fields,
                    mem.len() as int,
                    fields.len(),
                    depth + 1,
                );
                assert forall|j: int| 0 <= j < fields.len() implies held[j] == absent_fields(
                    fields,
                )[j] by {
                    assert(empty_slot(stored, mem.len() as int, j));
                    assert(held[j].0 == fields[j].0);
                    lemma_absent_reads(
                        nodes,
                        stored,
                        fields[j].1,
                        mem.len() + 4 * j,
                        (depth + 1) as nat,
                    );
                }
                assert(held =~= absent_fields(fields));
            } else {
                lemma_struct_value(
                    nodes,
                    mem,
                    schema,
                    slot,
                    path,
                    i,
                    depth,
                    last,
                    text,
                    address as int,
                    k,
                );
            }
        },
    }
}

/// As `lemma_make_path_value` says, for a struct that is there and through
/// whose `k`-th field the path goes on.
pub proof fn lemma_struct_value(
    nodes: Seq<SchemaNode>,
    mem: Seq<u8>,
    schema: int,
    slot: int,
    path: Seq<Seq<u8>>,
    i: int,
    depth: nat,
    last: Seq<u8>,
    text: Seq<u8>,
    table: int,
    k: int,
)
    requires
        depth <= MAX_DEPTH,
        0 <= schema < nodes.len(),
        nodes[schema] is Struct,
        0 <= i < path.len(),
        find_field(nodes[schema]->fields, path[i], 0) == Some(k),
        0 <= k < nodes[schema]->fields.len(),
        shaped(nodes, mem, schema, slot, depth),
        apart(nodes, mem, schema, slot, depth),
        mem.len() >= 5,
        table != 0,
        table == table as u32,
        spec_read_address(mem, slot) == Ok::<u32, NP_Error>(table as u32),
        leaf_updated(
            nodes,
            make_path(
                nodes,
                mem,
                nodes[schema]->fields[k].1,
                schema,
                table + 4 * k,
                path,
                i + 1,
                depth + 1,
            ),
            last,
        ),
        make_path(
            nodes,
            mem,
            nodes[schema]->fields[k].1,
            schema,
            table + 4 * k,
            path,
            i + 1,
            depth + 1,
        ).1 matches Ok(Some((reached, _, reached_slot, steps))) && nodes[reached] is String
            && read_value(nodes, last, reached, reached_slot, steps) == Ok::<Value, NP_Error>(
            Value::String(text),
        ),
        read_value(nodes, last, schema, slot, depth) is Ok,
        read_fields(nodes, mem, nodes[schema]->fields, table, nodes[schema]->fields.len(), depth + 1)
            is Ok || empty_slot(mem, table, k),
    ensures
        read_fields(nodes, mem, nodes[schema]->fields, table, nodes[schema]->fields.len(), depth + 1)
            is Ok ==> read_value(nodes, last, schema, slot, depth) == Ok::<Value, NP_Error>(
            Value::Struct(
                read_fields(
                    nodes,
                    mem,
                    nodes[schema]->fields,
                    table,
                    nodes[schema]->fields.len(),
                    depth + 1,
                )->Ok_0.update(
                    k,
                    (
                        nodes[schema]->fields[k].0,
                        written_value(
                            nodes,
                            nodes[schema]->fields[k].1,
                            depth + 1,
                            read_fields(
                                nodes,
                                mem,
                                nodes[schema]->fields,
                                table,
                                nodes[schema]->fields.len(),
                                depth + 1,
                            )->Ok_0[k].1,
                            path,
                            i + 1,
                            text,
                        ),
                    ),
                ),
            ),
        ),
        read_fields(nodes, mem, nodes[schema]->fields, table, nodes[schema]->fields.len(), depth + 1)
            is Ok,
    decreases MAX_DEPTH + 1 - depth, 0nat,
{
    let fields = nodes[schema]->fields;
    let n = fields.len();
    let d1: nat = depth + 1;
    let slot_k = table + 4 * k;
    assert(fields_shaped(nodes, mem, fields, table, d1));
    lemma_child_apart(nodes, mem, fields, table, d1, k);
    lemma_make_path(nodes, mem, fields[k].1, schema, slot_k, path, i + 1, d1, last);
    lemma_child_updated(nodes, mem, last, schema, slot, depth, table, k);
    lemma_same_address(mem, last, slot);
    lemma_shaped_inside(nodes, mem, schema, slot, depth);
    lemma_siblings_kept(nodes, mem, last, fields, table, d1, k);
    lemma_read_fields_index(nodes, last, fields, table, n, d1);
    let after = read_fields(nodes, last, fields, table, n, d1)->Ok_0;
    assert forall|j: int| 0 <= j < n implies read_value(
        nodes,
        mem,
        fields[j].1,
        table + 4 * j,
        d1,
    ) is Ok by {
        if j != k {
            assert(child_value(nodes, last, fields, table, d1, j) == child_value(
                nodes,
                mem,
                fields,
                table,
                d1,
                j,
            ));
            assert(after[j].0 == fields[j].0);
        } else {
            if empty_slot(mem, table, k) {
                lemma_made_absent_reads(nodes, mem, fields[k].1, schema, slot_k, path, i + 1, d1);
            } else {
                lemma_read_fields_index(nodes, mem, fields, table, n, d1);
                let before = read_fields(nodes, mem, fields, table, n, d1)->Ok_0;
                assert(before[k].0 == fields[k].0);
            }
        }
    }
    let values = crate::compact_laws::field_values(nodes, mem, fields, table, d1);
    lemma_read_fields_each(nodes, mem, fields, table, n, d1, values);
    assert(values.take(n as int) =~= values);
    let before = read_fields(nodes, mem, fields, table, n, d1)->Ok_0;
    assert(after[k].0 == fields[k].0);
    lemma_make_path_value(nodes, mem, fields[k].1, schema, slot_k, path, i + 1, d1, last, text);
    let written = written_value(nodes, fields[k].1, d1, before[k].1, path, i + 1, text);
    assert forall|j: int| 0 <= j < n implies after[j] == before.update(
        k,
        (fields[k].0, written),
    )[j] by {
        if j != k {
            assert(child_value(nodes, last, fields, table, d1, j) == child_value(
                nodes,
                mem,
                fields,
                table,
                d1,
                j,
            ));
            assert(after[j].0 == fields[j].0);
        }
    }
    assert(after =~= before.update(k, (fields[k].0, written)));
}

} // verus!
