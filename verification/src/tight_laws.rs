//! What holds of buffers in which every byte behind the header belongs to
//! a value: writing where nothing stood keeps them so.

use vstd::prelude::*;
use vstd::set_lib::set_int_range;
use crate::MAX_DEPTH;
use crate::compact_laws::empty_slot;
use crate::edit_laws::{
    leaf_updated, lemma_child_apart, lemma_find_field_bounds, lemma_make_path, lemma_portal_shape,
};
use crate::edits::{allocate_string, allocate_table, make_path};
use crate::error::NP_Error;
use crate::memory::spec_read_address;
use crate::schema::{find_field, SchemaNode};
use crate::shape::{
    child_footprint, fields_footprint, fields_shaped, footprint, lemma_fields_footprint, shaped,
};
use crate::shape_laws::{
    apart, lemma_absent_footprint, lemma_child_updated, lemma_shaped_inside, lemma_siblings_kept,
    lemma_string_allocated, lemma_table_stored, updated,
};

verus! {

/// Whether the value behind the slot at `slot` takes in `after` the bytes
/// it took in `before` and all that was added at the end.
pub open spec fn grown(
    nodes: Seq<SchemaNode>,
    before: Seq<u8>,
    after: Seq<u8>,
    schema: int,
    slot: int,
    depth: nat,
) -> bool {
    forall|x: int| #[trigger]
        footprint(nodes, after, schema, slot, depth).contains(x) <==> footprint(
            nodes,
            before,
            schema,
            slot,
            depth,
        ).contains(x) || before.len() <= x < after.len()
}

/// Growing twice is growing.
pub proof fn lemma_grown_twice(
    nodes: Seq<SchemaNode>,
    a: Seq<u8>,
    b: Seq<u8>,
    c: Seq<u8>,
    schema: int,
    slot: int,
    depth: nat,
)
    requires
        grown(nodes, a, b, schema, slot, depth),
        grown(nodes, b, c, schema, slot, depth),
        a.len() <= b.len() <= c.len(),
    ensures
        grown(nodes, a, c, schema, slot, depth),
{
    assert forall|x: int| #[trigger]
        footprint(nodes, c, schema, slot, depth).contains(x) <==> footprint(
            nodes,
            a,
            schema,
            slot,
            depth,
        ).contains(x) || a.len() <= x < c.len() by {
        if footprint(nodes, b, schema, slot, depth).contains(x) {
        }
    }
}

/// Where the value of one field of a struct grew, the struct grew.
pub proof fn lemma_child_grown(
    nodes: Seq<SchemaNode>,
    before: Seq<u8>,
    after: Seq<u8>,
    schema: int,
    slot: int,
    depth: nat,
    table: int,
    k: int,
)
    requires
        depth <= MAX_DEPTH,
        0 <= schema < nodes.len(),
        nodes[schema] is Struct,
        shaped(nodes, before, schema, slot, depth),
        apart(nodes, before, schema, slot, depth),
        table != 0,
        spec_read_address(before, slot) == Ok::<u32, NP_Error>(table as u32),
        table == table as u32,
        0 <= k < nodes[schema]->fields.len(),
        updated(nodes, before, after, nodes[schema]->fields[k].1, table + 4 * k, depth + 1),
        grown(nodes, before, after, nodes[schema]->fields[k].1, table + 4 * k, depth + 1),
    ensures
        grown(nodes, before, after, schema, slot, depth),
{
    let fields = nodes[schema]->fields;
    let n = fields.len();
    let d1: nat = depth + 1;
    let own = set_int_range(table, table + 4 * n);
    let inner_before = fields_footprint(nodes, before, fields, table, n, d1);
    let inner_after = fields_footprint(nodes, after, fields, table, n, d1);
    lemma_child_updated(nodes, before, after, schema, slot, depth, table, k);
    crate::compact_laws::lemma_same_address(before, after, slot);
    assert(fields_shaped(nodes, before, fields, table, d1));
    lemma_shaped_inside(nodes, before, schema, slot, depth);
    lemma_siblings_kept(nodes, before, after, fields, table, d1, k);
    lemma_fields_footprint(nodes, before, fields, table, n, d1);
    lemma_fields_footprint(nodes, after, fields, table, n, d1);
    assert(footprint(nodes, before, schema, slot, depth) == own + inner_before);
    assert(footprint(nodes, after, schema, slot, depth) == own + inner_after);
    assert forall|x: int| #[trigger]
        footprint(nodes, after, schema, slot, depth).contains(x) <==> footprint(
            nodes,
            before,
            schema,
            slot,
            depth,
        ).contains(x) || before.len() <= x < after.len() by {
        if inner_after.contains(x) {
            let j = choose|j: int|
                0 <= j < n && (#[trigger] child_footprint(nodes, after, fields, table, d1, j)).contains(
                    x,
                );
            if j != k {
                assert(child_footprint(nodes, before, fields, table, d1, j).contains(x));
            } else {
                assert(footprint(nodes, after, fields[k].1, table + 4 * k, d1).contains(x));
                if footprint(nodes, before, fields[k].1, table + 4 * k, d1).contains(x) {
                    assert(child_footprint(nodes, before, fields, table, d1, k).contains(x));
                }
            }
        }
        if inner_before.contains(x) {
            let j = choose|j: int|
                0 <= j < n && (#[trigger] child_footprint(
                    nodes,
                    before,
                    fields,
                    table,
                    d1,
                    j,
                )).contains(x);
            if j != k {
                assert(child_footprint(nodes, after, fields, table, d1, j).contains(x));
            } else {
                assert(footprint(nodes, before, fields[k].1, table + 4 * k, d1).contains(x));
                assert(footprint(nodes, after, fields[k].1, table + 4 * k, d1).contains(x));
                assert(child_footprint(nodes, after, fields, table, d1, k).contains(x));
            }
        }
        if before.len() <= x < after.len() {
            assert(footprint(nodes, after, fields[k].1, table + 4 * k, d1).contains(x));
            assert(child_footprint(nodes, after, fields, table, d1, k).contains(x));
        }
    }
}

/// A struct whose table was stored where it was absent grew by its table.
pub proof fn lemma_table_grown(
    nodes: Seq<SchemaNode>,
    mem: Seq<u8>,
    schema: int,
    slot: int,
    depth: nat,
)
    requires
        depth <= MAX_DEPTH,
        0 <= schema < nodes.len(),
        nodes[schema] is Struct,
        spec_read_address(mem, slot) == Ok::<u32, NP_Error>(0u32),
        mem.len() >= 5,
        allocate_table(mem, slot, nodes[schema]->fields.len()).1 is Ok,
    ensures
        grown(
            nodes,
            mem,
            allocate_table(mem, slot, nodes[schema]->fields.len()).0,
            schema,
            slot,
            depth,
        ),
{
    let fields = nodes[schema]->fields;
    let n = fields.len();
    let base = mem.len() as int;
    let d1: nat = depth + 1;
    let after = allocate_table(mem, slot, n).0;
    lemma_table_stored(nodes, mem, schema, slot, depth);
    lemma_absent_footprint(nodes, mem, schema, slot, depth);
    lemma_fields_footprint(nodes, after, fields, base, n, d1);
    let own = set_int_range(base, base + 4 * n);
    let inner = fields_footprint(nodes, after, fields, base, n, d1);
    assert(footprint(nodes, after, schema, slot, depth) == own + inner);
    assert forall|x: int| !inner.contains(x) by {
        if inner.contains(x) {
            let j = choose|j: int|
                0 <= j < n && (#[trigger] child_footprint(nodes, after, fields, base, d1, j)).contains(
                    x,
                );
            assert(empty_slot(after, base, j));
            lemma_absent_footprint(nodes, after, fields[j].1, base + 4 * j, d1);
        }
    }
    assert forall|x: int| #[trigger]
        footprint(nodes, after, schema, slot, depth).contains(x) <==> footprint(
            nodes,
            mem,
            schema,
            slot,
            depth,
        ).contains(x) || mem.len() <= x < after.len() by {
        if base <= x < base + 4 * n {
            assert(own.contains(x));
        }
    }
}

/// A string that was stored where none stood grew from nothing.
pub proof fn lemma_string_grown(
    nodes: Seq<SchemaNode>,
    mem: Seq<u8>,
    schema: int,
    slot: int,
    depth: nat,
    value: Seq<u8>,
)
    requires
        depth <= MAX_DEPTH,
        0 <= schema < nodes.len(),
        nodes[schema] is String,
        spec_read_address(mem, slot) == Ok::<u32, NP_Error>(0u32),
        mem.len() >= 5,
        allocate_string(mem, slot, value).1 is Ok,
    ensures
        grown(nodes, mem, allocate_string(mem, slot, value).0, schema, slot, depth),
{
    let after = allocate_string(mem, slot, value).0;
    let base = mem.len() as int;
    lemma_string_allocated(nodes, mem, schema, slot, depth, value);
    lemma_absent_footprint(nodes, mem, schema, slot, depth);
    assert(crate::buffer::terminal_bytes(nodes, after, schema, slot) == Ok::<
        Option<Seq<u8>>,
        NP_Error,
    >(Some(value)));
    crate::memory::lemma_le32_value_of_encoding(base as u32);
    crate::compact_laws::lemma_read_written_address(
        mem + crate::memory::le32(value.len() as u32) + value,
        slot,
        base as u32,
    );
    assert(footprint(nodes, after, schema, slot, depth) == set_int_range(
        base,
        base + 4 + value.len(),
    ));
}

/// Whether `last` is what following a path gave, with the value that the
/// path led to grown, if it led to one; or just what following the path
/// gave.
pub open spec fn leaf_grown(
    nodes: Seq<SchemaNode>,
    made: (Seq<u8>, Result<Option<(int, int, int, nat)>, NP_Error>),
    last: Seq<u8>,
) -> bool {
    match made.1 {
        Ok(Some((reached, _, reached_slot, steps))) => grown(
            nodes,
            made.0,
            last,
            reached,
            reached_slot,
            steps,
        ),
        _ => last == made.0,
    }
}

/// Following a path while storing what is absent, and then growing the
/// value that the path led to, grows the value from which the path was
/// followed.
pub proof fn lemma_make_path_grown(
    nodes: Seq<SchemaNode>,
    mem: Seq<u8>,
    schema: int,
    parent: int,
    slot: int,
    path: Seq<Seq<u8>>,
    i: int,
    depth: nat,
    last: Seq<u8>,
)
    requires
        shaped(nodes, mem, schema, slot, depth),
        apart(nodes, mem, schema, slot, depth),
        mem.len() >= 5,
        leaf_updated(nodes, make_path(nodes, mem, schema, parent, slot, path, i, depth), last),
        leaf_grown(nodes, make_path(nodes, mem, schema, parent, slot, path, i, depth), last),
    ensures
        grown(nodes, mem, last, schema, slot, depth),
    decreases MAX_DEPTH + 1 - depth,
{
    lemma_shaped_inside(nodes, mem, schema, slot, depth);
    if depth > MAX_DEPTH || schema < 0 || schema >= nodes.len() {
    } else {
        match nodes[schema] {
            SchemaNode::Portal { schema: target, parent_schema, .. } => {
                lemma_portal_shape(nodes, mem, last, schema, slot, depth);
                lemma_portal_shape(nodes, last, last, schema, slot, depth);
                lemma_make_path_grown(
                    nodes,
                    mem,
                    target,
                    parent_schema,
                    slot,
                    path,
                    i,
                    depth + 1,
                    last,
                );
            },
            SchemaNode::String => {},
            SchemaNode::Struct { fields } => {
                if 0 <= i < path.len() {
                    lemma_find_field_bounds(fields, path[i], 0);
                    match find_field(fields, path[i], 0) {
                        None => {},
                        Some(k) => {
                            let address = spec_read_address(mem, slot)->Ok_0;
                            let d1: nat = depth + 1;
                            if address == 0 {
                                if allocate_table(mem, slot, fields.len()).1 is Ok {
                                    let stored = allocate_table(mem, slot, fields.len()).0;
                                    let base = mem.len() as int;
                                    lemma_table_stored(nodes, mem, schema, slot, depth);
                                    lemma_table_grown(nodes, mem, schema, slot, depth);
                                    assert(empty_slot(stored, base, k));
                                    lemma_absent_footprint(
                                        nodes,
                                        stored,
                                        fields[k].1,
                                        base + 4 * k,
                                        d1,
                                    );
                                    lemma_make_path(
                                        nodes,
                                        stored,
                                        fields[k].1,
                                        schema,
                                        base + 4 * k,
                                        path,
                                        i + 1,
                                        d1,
                                        last,
                                    );
                                    lemma_make_path_grown(
                                        nodes,
                                        stored,
                                        fields[k].1,
                                        schema,
                                        base + 4 * k,
                                        path,
                                        i + 1,
                                        d1,
                                        last,
                                    );
                                    lemma_child_grown(
                                        nodes,
                                        stored,
                                        last,
                                        schema,
                                        slot,
                                        depth,
                                        base,
                                        k,
                                    );
                                    lemma_grown_twice(
                                        nodes,
                                        mem,
                                        stored,
                                        last,
                                        schema,
                                        slot,
                                        depth,
                                    );
                                }
                            } else {
                                let table = address as int;
                                assert(fields_shaped(nodes, mem, fields, table, d1));
                                lemma_child_apart(nodes, mem, fields, table, d1, k);
                                lemma_make_path(
                                    nodes,
                                    mem,
                                    fields[k].1,
                                    schema,
                                    table + 4 * k,
                                    path,
                                    i + 1,
                                    d1,
                                    last,
                                );
                                lemma_make_path_grown(
                                    nodes,
                                    mem,
                                    fields[k].1,
                                    schema,
                                    table + 4 * k,
                                    path,
                                    i + 1,
                                    d1,
                                    last,
                                );
                                lemma_child_grown(
                                    nodes,
                                    mem,
                                    last,
                                    schema,
                                    slot,
                                    depth,
                                    table,
                                    k,
                                );
                            }
                        },
                    }
                }
            },
        }
    }
}

} // verus!
