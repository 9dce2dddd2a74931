//! What holds of writing into a buffer that has the shape this library
//! writes: the buffer keeps the shape, and what was written is read back.

use vstd::prelude::*;
use vstd::set_lib::set_int_range;
use crate::MAX_DEPTH;
use crate::buffer::{reached_bytes, terminal_bytes};
use crate::compact_laws::{empty_slot, lemma_same_address};
use crate::edits::{
    allocate_string, allocate_table, compact_fields, compact_value, find_path, import_fields,
    import_value, make_path, write_string,
};
use crate::json::{member_value, JsonValue};
use crate::pointer::string::stored_string;
use crate::error::NP_Error;
use crate::memory::{in_bounds, spec_read_address};
use crate::schema::{find_field, SchemaNode};
use crate::shape::{
    child_footprint, fields_footprint, fields_shaped, footprint, lemma_fields_footprint, shaped,
};
use crate::shape_laws::{
    apart, keeps, lemma_siblings_kept, lemma_absent_footprint, lemma_child_updated, lemma_shaped_inside, lemma_slot_cleared,
    lemma_string_written, lemma_table_stored, lemma_updated_same, lemma_updated_twice, updated,
};

verus! {

/// A field that is found is one of the fields.
pub proof fn lemma_find_field_bounds(fields: Seq<(Seq<u8>, int)>, name: Seq<u8>, from: int)
    requires
        0 <= from,
    ensures
        find_field(fields, name, from) matches Some(k) ==> from <= k < fields.len()
            && fields[k].0 == name,
    decreases fields.len() - from,
{
    if from < fields.len() && fields[from].0 != name {
        lemma_find_field_bounds(fields, name, from + 1);
    }
}

/// The slot of a field of a struct that has the shape shares no byte with
/// the field's value.
pub proof fn lemma_child_apart(
    nodes: Seq<SchemaNode>,
    mem: Seq<u8>,
    fields: Seq<(Seq<u8>, int)>,
    table: int,
    depth: nat,
    k: int,
)
    requires
        fields_shaped(nodes, mem, fields, table, depth),
        0 <= k < fields.len(),
    ensures
        shaped(nodes, mem, fields[k].1, table + 4 * k, depth),
        apart(nodes, mem, fields[k].1, table + 4 * k, depth),
{
    let own = set_int_range(table, table + 4 * fields.len());
    assert(child_footprint(nodes, mem, fields, table, depth, k).disjoint(own));
    assert forall|x: int| table + 4 * k <= x < table + 4 * k + 4 implies !(#[trigger] footprint(
        nodes,
        mem,
        fields[k].1,
        table + 4 * k,
        depth,
    ).contains(x)) by {
        assert(own.contains(x));
        if child_footprint(nodes, mem, fields, table, depth, k).contains(x) {
        }
    }
}

/// A portal has the shape, takes the bytes and is written anew as the
/// node it points at, one step deeper.
pub proof fn lemma_portal_shape(
    nodes: Seq<SchemaNode>,
    mem: Seq<u8>,
    after: Seq<u8>,
    schema: int,
    slot: int,
    depth: nat,
)
    requires
        depth <= MAX_DEPTH,
        0 <= schema < nodes.len(),
        nodes[schema] is Portal,
    ensures
        shaped(nodes, mem, schema, slot, depth) == shaped(
            nodes,
            mem,
            nodes[schema]->Portal_schema,
            slot,
            depth + 1,
        ),
        footprint(nodes, mem, schema, slot, depth) == footprint(
            nodes,
            mem,
            nodes[schema]->Portal_schema,
            slot,
            depth + 1,
        ),
        apart(nodes, mem, schema, slot, depth) == apart(
            nodes,
            mem,
            nodes[schema]->Portal_schema,
            slot,
            depth + 1,
        ),
        updated(nodes, mem, after, schema, slot, depth) == updated(
            nodes,
            mem,
            after,
            nodes[schema]->Portal_schema,
            slot,
            depth + 1,
        ),
{
    let target = nodes[schema]->Portal_schema;
    if spec_read_address(mem, slot) == Ok::<u32, NP_Error>(0u32) {
        lemma_absent_footprint(nodes, mem, target, slot, depth + 1);
    }
    if spec_read_address(after, slot) == Ok::<u32, NP_Error>(0u32) {
        lemma_absent_footprint(nodes, after, target, slot, depth + 1);
    }
    assert(footprint(nodes, mem, schema, slot, depth) == footprint(
        nodes,
        mem,
        target,
        slot,
        depth + 1,
    ));
    assert(footprint(nodes, after, schema, slot, depth) == footprint(
        nodes,
        after,
        target,
        slot,
        depth + 1,
    ));
}

/// Whether `last` is what following a path gave, with the value that the
/// path led to written anew, if it led to one; or just what following
/// the path gave.
pub open spec fn leaf_updated(
    nodes: Seq<SchemaNode>,
    made: (Seq<u8>, Result<Option<(int, int, int, nat)>, NP_Error>),
    last: Seq<u8>,
) -> bool {
    match made.1 {
        Ok(Some((reached, _, reached_slot, steps))) => updated(
            nodes,
            made.0,
            last,
            reached,
            reached_slot,
            steps,
        ) && apart(nodes, last, reached, reached_slot, steps),
        _ => last == made.0,
    }
}

/// Following a path while storing what is absent, and then writing the
/// value that the path led to anew, writes the value anew from which the
/// path was followed.
pub proof fn lemma_make_path(
    nodes: Seq<SchemaNode>,
    mem: Seq<u8>,
    schema: int,
    parent: int,
    slot: int,
    path: Seq<Seq<u8>>,
    i: int,
    depth: nat,
    last: Seq<u8>,
)
    requires
        shaped(nodes, mem, schema, slot, depth),
        apart(nodes, mem, schema, slot, depth),
        mem.len() >= 5,
        leaf_updated(nodes, make_path(nodes, mem, schema, parent, slot, path, i, depth), last),
    ensures
        updated(nodes, mem, last, schema, slot, depth),
        apart(nodes, last, schema, slot, depth),
    decreases MAX_DEPTH + 1 - depth,
{
    lemma_updated_same(nodes, mem, schema, slot, depth);
    lemma_shaped_inside(nodes, mem, schema, slot, depth);
    if depth > MAX_DEPTH || schema < 0 || schema >= nodes.len() {
    } else {
        match nodes[schema] {
            SchemaNode::Portal { schema: target, parent_schema, .. } => {
                lemma_portal_shape(nodes, mem, last, schema, slot, depth);
                lemma_portal_shape(nodes, last, last, schema, slot, depth);
                lemma_make_path(nodes, mem, target, parent_schema, slot, path, i, depth + 1, last);
            },
            SchemaNode::String => {},
            SchemaNode::Struct { fields } => {
                if 0 <= i < path.len() {
                    lemma_find_field_bounds(fields, path[i], 0);
                    match find_field(fields, path[i], 0) {
                        None => {},
                        Some(k) => {
                            let address = spec_read_address(mem, slot)->Ok_0;
                            let d1: nat = depth + 1;
                            if address == 0 {
                                if allocate_table(mem, slot, fields.len()).1 is Ok {
                                    let stored = allocate_table(mem, slot, fields.len()).0;
                                    let base = mem.len() as int;
                                    lemma_table_stored(nodes, mem, schema, slot, depth);
                                    assert(empty_slot(stored, base, k));
                                    lemma_absent_footprint(
                                        nodes,
                                        stored,
                                        fields[k].1,
                                        base + 4 * k,
                                        d1,
                                    );
                                    lemma_make_path(
                                        nodes,
                                        stored,
                                        fields[k].1,
                                        schema,
                                        base + 4 * k,
                                        path,
                                        i + 1,
                                        d1,
                                        last,
                                    );
                                    lemma_child_updated(
                                        nodes,
                                        stored,
                                        last,
                                        schema,
                                        slot,
                                        depth,
                                        base,
                                        k,
                                    );
                                    lemma_updated_twice(
                                        nodes,
                                        mem,
                                        stored,
                                        last,
                                        schema,
                                        slot,
                                        depth,
                                    );
                                }
                            } else {
                                let table = address as int;
                                assert(fields_shaped(nodes, mem, fields, table, d1));
                                lemma_child_apart(nodes, mem, fields, table, d1, k);
                                lemma_make_path(
                                    nodes,
                                    mem,
                                    fields[k].1,
                                    schema,
                                    table + 4 * k,
                                    path,
                                    i + 1,
                                    d1,
                                    last,
                                );
                                lemma_child_updated(
                                    nodes,
                                    mem,
                                    last,
                                    schema,
                                    slot,
                                    depth,
                                    table,
                                    k,
                                );
                            }
                        },
                    }
                }
            },
        }
    }
}

/// The value that following a path while storing what is absent leads to
/// has the shape, lies no deeper than the limit, and is no portal.
pub proof fn lemma_make_path_leaf(
    nodes: Seq<SchemaNode>,
    mem: Seq<u8>,
    schema: int,
    parent: int,
    slot: int,
    path: Seq<Seq<u8>>,
    i: int,
    depth: nat,
)
    requires
        shaped(nodes, mem, schema, slot, depth),
        apart(nodes, mem, schema, slot, depth),
        mem.len() >= 5,
    ensures
        make_path(nodes, mem, schema, parent, slot, path, i, depth).0.len() >= 5,
        make_path(nodes, mem, schema, parent, slot, path, i, depth).1 matches Ok(
            Some((reached, _, reached_slot, steps)),
        ) ==> {
            let made = make_path(nodes, mem, schema, parent, slot, path, i, depth).0;
            &&& steps <= MAX_DEPTH
            &&& 0 <= reached < nodes.len()
            &&& !(nodes[reached] is Portal)
            &&& shaped(nodes, made, reached, reached_slot, steps)
            &&& apart(nodes, made, reached, reached_slot, steps)
        },
    decreases MAX_DEPTH + 1 - depth,
{
    if depth > MAX_DEPTH || schema < 0 || schema >= nodes.len() {
    } else {
        match nodes[schema] {
            SchemaNode::Portal { schema: target, parent_schema, .. } => {
                lemma_portal_shape(nodes, mem, mem, schema, slot, depth);
                lemma_make_path_leaf(nodes, mem, target, parent_schema, slot, path, i, depth + 1);
            },
            SchemaNode::String => {},
            SchemaNode::Struct { fields } => {
                if 0 <= i < path.len() {
                    lemma_find_field_bounds(fields, path[i], 0);
                    match find_field(fields, path[i], 0) {
                        None => {},
                        Some(k) => {
                            let address = spec_read_address(mem, slot)->Ok_0;
                            let d1: nat = depth + 1;
                            lemma_shaped_inside(nodes, mem, schema, slot, depth);
                            if address == 0 {
                                if allocate_table(mem, slot, fields.len()).1 is Ok {
                                    let stored = allocate_table(mem, slot, fields.len()).0;
                                    let base = mem.len() as int;
                                    lemma_table_stored(nodes, mem, schema, slot, depth);
                                    assert(empty_slot(stored, base, k));
                                    lemma_absent_footprint(
                                        nodes,
                                        stored,
                                        fields[k].1,
                                        base + 4 * k,
                                        d1,
                                    );
                                    lemma_make_path_leaf(
                                        nodes,
                                        stored,
                                        fields[k].1,
                                        schema,
                                        base + 4 * k,
                                        path,
                                        i + 1,
                                        d1,
                                    );
                                }
                            } else {
                                let table = address as int;
                                assert(fields_shaped(nodes, mem, fields, table, d1));
                                lemma_child_apart(nodes, mem, fields, table, d1, k);
                                lemma_make_path_leaf(
                                    nodes,
                                    mem,
                                    fields[k].1,
                                    schema,
                                    table + 4 * k,
                                    path,
                                    i + 1,
                                    d1,
                                );
                            }
                        },
                    }
                }
            },
        }
    }
}


/// What was written behind the slot that a path led to is read where the
/// path is followed again.
pub proof fn lemma_make_path_reads(
    nodes: Seq<SchemaNode>,
    mem: Seq<u8>,
    schema: int,
    parent: int,
    slot: int,
    path: Seq<Seq<u8>>,
    i: int,
    depth: nat,
    last: Seq<u8>,
    value: Seq<u8>,
)
    requires
        shaped(nodes, mem, schema, slot, depth),
        apart(nodes, mem, schema, slot, depth),
        mem.len() >= 5,
        leaf_updated(nodes, make_path(nodes, mem, schema, parent, slot, path, i, depth), last),
        make_path(nodes, mem, schema, parent, slot, path, i, depth).1 matches Ok(
            Some((reached, _, reached_slot, _)),
        ) && terminal_bytes(nodes, last, reached, reached_slot) == Ok::<
            Option<Seq<u8>>,
            NP_Error,
        >(Some(value)),
    ensures
        reached_bytes(nodes, last, schema, parent, slot, path, i, depth) == Ok::<
            Option<Seq<u8>>,
            NP_Error,
        >(Some(value)),
    decreases MAX_DEPTH + 1 - depth,
{
    lemma_shaped_inside(nodes, mem, schema, slot, depth);
    match nodes[schema] {
        SchemaNode::Portal { schema: target, parent_schema, .. } => {
            lemma_portal_shape(nodes, mem, last, schema, slot, depth);
            lemma_make_path_reads(
                nodes,
                mem,
                target,
                parent_schema,
                slot,
                path,
                i,
                depth + 1,
                last,
                value,
            );
        },
        SchemaNode::String => {},
        SchemaNode::Struct { fields } => {
            if 0 <= i < path.len() {
                lemma_find_field_bounds(fields, path[i], 0);
                let k = find_field(fields, path[i], 0)->0;
                let address = spec_read_address(mem, slot)->Ok_0;
                let d1: nat = depth + 1;
                if address == 0 {
                    let stored = allocate_table(mem, slot, fields.len()).0;
                    let base = mem.len() as int;
                    lemma_table_stored(nodes, mem, schema, slot, depth);
                    assert(empty_slot(stored, base, k));
                    lemma_absent_footprint(nodes, stored, fields[k].1, base + 4 * k, d1);
                    lemma_make_path(
                        nodes,
                        stored,
                        fields[k].1,
                        schema,
                        base + 4 * k,
                        path,
                        i + 1,
                        d1,
                        last,
                    );
                    lemma_make_path_reads(
                        nodes,
                        stored,
                        fields[k].1,
                        schema,
                        base + 4 * k,
                        path,
                        i + 1,
                        d1,
                        last,
                        value,
                    );
                    lemma_child_updated(nodes, stored, last, schema, slot, depth, base, k);
                    lemma_same_address(stored, last, slot);
                } else {
                    let table = address as int;
                    assert(fields_shaped(nodes, mem, fields, table, d1));
                    lemma_child_apart(nodes, mem, fields, table, d1, k);
                    lemma_make_path(
                        nodes,
                        mem,
                        fields[k].1,
                        schema,
                        table + 4 * k,
                        path,
                        i + 1,
                        d1,
                        last,
                    );
                    lemma_make_path_reads(
                        nodes,
                        mem,
                        fields[k].1,
                        schema,
                        table + 4 * k,
                        path,
                        i + 1,
                        d1,
                        last,
                        value,
                    );
                    lemma_child_updated(nodes, mem, last, schema, slot, depth, table, k);
                    lemma_same_address(mem, last, slot);
                }
            }
        },
    }
}

/// Whether `last` is `mem` with the value that a path led to written
/// anew, if the path led to one; or just `mem`.
pub open spec fn found_updated(
    nodes: Seq<SchemaNode>,
    mem: Seq<u8>,
    place: Result<Option<(int, int, int, nat)>, NP_Error>,
    last: Seq<u8>,
) -> bool {
    match place {
        Ok(Some((reached, _, reached_slot, steps))) => updated(
            nodes,
            mem,
            last,
            reached,
            reached_slot,
            steps,
        ) && apart(nodes, last, reached, reached_slot, steps),
        _ => last == mem,
    }
}

/// Following a path and then writing the value that the path led to anew
/// writes the value anew from which the path was followed; and the slot
/// that the path led to lies inside the buffer.
pub proof fn lemma_find_path(
    nodes: Seq<SchemaNode>,
    mem: Seq<u8>,
    schema: int,
    parent: int,
    slot: int,
    path: Seq<Seq<u8>>,
    i: int,
    depth: nat,
    last: Seq<u8>,
)
    requires
        shaped(nodes, mem, schema, slot, depth),
        apart(nodes, mem, schema, slot, depth),
        find_path(nodes, mem, schema, parent, slot, path, i, depth) matches Ok(
            Some((_, _, reached_slot, _)),
        ) && in_bounds(mem, reached_slot, 4) ==> found_updated(
            nodes,
            mem,
            find_path(nodes, mem, schema, parent, slot, path, i, depth),
            last,
        ),
        !(find_path(nodes, mem, schema, parent, slot, path, i, depth) matches Ok(Some(_)))
            ==> last == mem,
    ensures
        updated(nodes, mem, last, schema, slot, depth),
        apart(nodes, last, schema, slot, depth),
    decreases MAX_DEPTH + 1 - depth,
{
    lemma_updated_same(nodes, mem, schema, slot, depth);
    lemma_shaped_inside(nodes, mem, schema, slot, depth);
    if depth > MAX_DEPTH || schema < 0 || schema >= nodes.len() {
    } else {
        match nodes[schema] {
            SchemaNode::Portal { schema: target, parent_schema, .. } => {
                lemma_portal_shape(nodes, mem, last, schema, slot, depth);
                lemma_portal_shape(nodes, last, last, schema, slot, depth);
                lemma_find_path(nodes, mem, target, parent_schema, slot, path, i, depth + 1, last);
            },
            SchemaNode::String => {},
            SchemaNode::Struct { fields } => {
                if 0 <= i < path.len() {
                    lemma_find_field_bounds(fields, path[i], 0);
                    match find_field(fields, path[i], 0) {
                        None => {},
                        Some(k) => {
                            let address = spec_read_address(mem, slot)->Ok_0;
                            let d1: nat = depth + 1;
                            if address != 0 {
                                let table = address as int;
                                assert(fields_shaped(nodes, mem, fields, table, d1));
                                lemma_child_apart(nodes, mem, fields, table, d1, k);
                                lemma_find_path(
                                    nodes,
                                    mem,
                                    fields[k].1,
                                    schema,
                                    table + 4 * k,
                                    path,
                                    i + 1,
                                    d1,
                                    last,
                                );
                                lemma_child_updated(
                                    nodes,
                                    mem,
                                    last,
                                    schema,
                                    slot,
                                    depth,
                                    table,
                                    k,
                                );
                            }
                        },
                    }
                }
            },
        }
    }
}

/// Importing a JSON value writes the value anew into which it is
/// imported, whether the import goes well or not.
pub proof fn lemma_import_value(
    nodes: Seq<SchemaNode>,
    mem: Seq<u8>,
    schema: int,
    slot: int,
    depth: nat,
    apply_null: bool,
    json: JsonValue,
)
    requires
        shaped(nodes, mem, schema, slot, depth),
        apart(nodes, mem, schema, slot, depth),
        mem.len() >= 5,
    ensures
        updated(
            nodes,
            mem,
            import_value(nodes, mem, schema, slot, depth, apply_null, json).0,
            schema,
            slot,
            depth,
        ),
        apart(
            nodes,
            import_value(nodes, mem, schema, slot, depth, apply_null, json).0,
            schema,
            slot,
            depth,
        ),
    decreases MAX_DEPTH + 1 - depth, 1nat, 0nat,
{
    let after = import_value(nodes, mem, schema, slot, depth, apply_null, json).0;
    lemma_updated_same(nodes, mem, schema, slot, depth);
    lemma_shaped_inside(nodes, mem, schema, slot, depth);
    if depth > MAX_DEPTH || schema < 0 || schema >= nodes.len() {
    } else {
        match nodes[schema] {
            SchemaNode::Portal { schema: target, .. } => {
                lemma_portal_shape(nodes, mem, after, schema, slot, depth);
                lemma_portal_shape(nodes, after, after, schema, slot, depth);
                lemma_import_value(nodes, mem, target, slot, depth + 1, apply_null, json);
            },
            SchemaNode::String => {
                match json {
                    JsonValue::String(bytes) => {
                        if write_string(mem, slot, bytes).1 is Ok {
                            lemma_string_written(nodes, mem, schema, slot, depth, bytes);
                        }
                    },
                    JsonValue::Null => {
                        if apply_null {
                            lemma_slot_cleared(nodes, mem, schema, slot, depth);
                        }
                    },
                    _ => {},
                }
            },
            SchemaNode::Struct { fields } => {
                match json {
                    JsonValue::Dictionary(members) => {
                        let address = spec_read_address(mem, slot)->Ok_0;
                        if address == 0 {
                            if allocate_table(mem, slot, fields.len()).1 is Ok {
                                let stored = allocate_table(mem, slot, fields.len()).0;
                                lemma_table_stored(nodes, mem, schema, slot, depth);
                                lemma_import_fields(
                                    nodes,
                                    stored,
                                    schema,
                                    slot,
                                    depth,
                                    mem.len() as int,
                                    0,
                                    apply_null,
                                    members,
                                );
                                lemma_updated_twice(nodes, mem, stored, after, schema, slot, depth);
                            }
                        } else {
                            lemma_import_fields(
                                nodes,
                                mem,
                                schema,
                                slot,
                                depth,
                                address as int,
                                0,
                                apply_null,
                                members,
                            );
                        }
                    },
                    JsonValue::Null => {
                        if apply_null {
                            lemma_slot_cleared(nodes, mem, schema, slot, depth);
                        }
                    },
                    _ => {},
                }
            },
        }
    }
}

/// Importing into the fields of a struct from the `i`-th on writes the
/// struct anew.
pub proof fn lemma_import_fields(
    nodes: Seq<SchemaNode>,
    mem: Seq<u8>,
    schema: int,
    slot: int,
    depth: nat,
    table: int,
    i: nat,
    apply_null: bool,
    members: Seq<(Seq<u8>, JsonValue)>,
)
    requires
        depth <= MAX_DEPTH,
        0 <= schema < nodes.len(),
        nodes[schema] is Struct,
        shaped(nodes, mem, schema, slot, depth),
        apart(nodes, mem, schema, slot, depth),
        mem.len() >= 5,
        table != 0,
        table == table as u32,
        spec_read_address(mem, slot) == Ok::<u32, NP_Error>(table as u32),
    ensures
        updated(
            nodes,
            mem,
            import_fields(
                nodes,
                mem,
                nodes[schema]->fields,
                table,
                i,
                depth + 1,
                apply_null,
                members,
            ).0,
            schema,
            slot,
            depth,
        ),
        apart(
            nodes,
            import_fields(
                nodes,
                mem,
                nodes[schema]->fields,
                table,
                i,
                depth + 1,
                apply_null,
                members,
            ).0,
            schema,
            slot,
            depth,
        ),
    decreases MAX_DEPTH + 1 - depth, 0nat, nodes[schema]->fields.len() - i,
{
    let fields = nodes[schema]->fields;
    let d1: nat = depth + 1;
    let after = import_fields(nodes, mem, fields, table, i, d1, apply_null, members).0;
    lemma_updated_same(nodes, mem, schema, slot, depth);
    if i < fields.len() {
        match member_value(members, fields[i as int].0) {
            None => {
                lemma_import_fields(
                    nodes,
                    mem,
                    schema,
                    slot,
                    depth,
                    table,
                    i + 1,
                    apply_null,
                    members,
                );
            },
            Some(json) => {
                assert(fields_shaped(nodes, mem, fields, table, d1));
                lemma_child_apart(nodes, mem, fields, table, d1, i as int);
                lemma_import_value(
                    nodes,
                    mem,
                    fields[i as int].1,
                    table + 4 * i,
                    d1,
                    apply_null,
                    json,
                );
                let done = import_value(
                    nodes,
                    mem,
                    fields[i as int].1,
                    table + 4 * i,
                    d1,
                    apply_null,
                    json,
                );
                let middle = done.0;
                lemma_child_updated(nodes, mem, middle, schema, slot, depth, table, i as int);
                lemma_same_address(mem, middle, slot);
                if done.1 is Ok {
                    lemma_import_fields(
                        nodes,
                        middle,
                        schema,
                        slot,
                        depth,
                        table,
                        i + 1,
                        apply_null,
                        members,
                    );
                    lemma_updated_twice(nodes, mem, middle, after, schema, slot, depth);
                }
            },
        }
    }
}

/// Copying a value into a slot that holds 0 writes the value behind the
/// slot anew, whether the copying goes well or not.
pub proof fn lemma_compact_shape(
    nodes: Seq<SchemaNode>,
    from: Seq<u8>,
    schema: int,
    from_slot: int,
    depth: nat,
    to: Seq<u8>,
    to_slot: int,
)
    requires
        spec_read_address(to, to_slot) == Ok::<u32, NP_Error>(0u32),
        to.len() >= 5,
    ensures
        updated(
            nodes,
            to,
            compact_value(nodes, from, schema, from_slot, depth, to, to_slot).0,
            schema,
            to_slot,
            depth,
        ),
        apart(
            nodes,
            compact_value(nodes, from, schema, from_slot, depth, to, to_slot).0,
            schema,
            to_slot,
            depth,
        ),
    decreases MAX_DEPTH + 1 - depth, 1nat, 0nat,
{
    let after = compact_value(nodes, from, schema, from_slot, depth, to, to_slot).0;
    lemma_absent_footprint(nodes, to, schema, to_slot, depth);
    lemma_updated_same(nodes, to, schema, to_slot, depth);
    if depth > MAX_DEPTH || schema < 0 || schema >= nodes.len() {
    } else {
        match nodes[schema] {
            SchemaNode::Portal { schema: target, .. } => {
                lemma_portal_shape(nodes, to, after, schema, to_slot, depth);
                lemma_portal_shape(nodes, after, after, schema, to_slot, depth);
                lemma_compact_shape(nodes, from, target, from_slot, depth + 1, to, to_slot);
            },
            SchemaNode::String => {
                match stored_string(from, from_slot) {
                    Ok(Some(bytes)) => {
                        if allocate_string(to, to_slot, bytes).1 is Ok {
                            assert(write_string(to, to_slot, bytes) == allocate_string(
                                to,
                                to_slot,
                                bytes,
                            ));
                            lemma_string_written(nodes, to, schema, to_slot, depth, bytes);
                        }
                    },
                    _ => {},
                }
            },
            SchemaNode::Struct { fields } => {
                let address = spec_read_address(from, from_slot);
                if address is Ok && address->Ok_0 != 0 && in_bounds(
                    from,
                    address->Ok_0 as int,
                    4 * (fields.len() as int),
                ) && allocate_table(to, to_slot, fields.len()).1 is Ok {
                    let stored = allocate_table(to, to_slot, fields.len()).0;
                    lemma_table_stored(nodes, to, schema, to_slot, depth);
                    lemma_compact_fields_shape(
                        nodes,
                        from,
                        schema,
                        address->Ok_0 as int,
                        0,
                        depth,
                        stored,
                        to_slot,
                        to.len() as int,
                    );
                    lemma_updated_twice(nodes, to, stored, after, schema, to_slot, depth);
                }
            },
        }
    }
}

/// Copying the fields of a struct from the `i`-th on, into slots that
/// hold 0, writes the struct anew.
pub proof fn lemma_compact_fields_shape(
    nodes: Seq<SchemaNode>,
    from: Seq<u8>,
    schema: int,
    from_table: int,
    i: nat,
    depth: nat,
    to: Seq<u8>,
    to_slot: int,
    to_table: int,
)
    requires
        depth <= MAX_DEPTH,
        0 <= schema < nodes.len(),
        nodes[schema] is Struct,
        shaped(nodes, to, schema, to_slot, depth),
        apart(nodes, to, schema, to_slot, depth),
        to.len() >= 5,
        to_table != 0,
        to_table == to_table as u32,
        spec_read_address(to, to_slot) == Ok::<u32, NP_Error>(to_table as u32),
        forall|j: int|
            i <= j < nodes[schema]->fields.len() ==> #[trigger] empty_slot(to, to_table, j),
    ensures
        updated(
            nodes,
            to,
            compact_fields(
                nodes,
                from,
                nodes[schema]->fields,
                from_table,
                i,
                depth + 1,
                to,
                to_table,
            ).0,
            schema,
            to_slot,
            depth,
        ),
        apart(
            nodes,
            compact_fields(
                nodes,
                from,
                nodes[schema]->fields,
                from_table,
                i,
                depth + 1,
                to,
                to_table,
            ).0,
            schema,
            to_slot,
            depth,
        ),
    decreases MAX_DEPTH + 1 - depth, 0nat, nodes[schema]->fields.len() - i,
{
    let fields = nodes[schema]->fields;
    let n = fields.len();
    let d1: nat = depth + 1;
    let after = compact_fields(nodes, from, fields, from_table, i, d1, to, to_table).0;
    lemma_updated_same(nodes, to, schema, to_slot, depth);
    if i < n {
        let slot = to_table + 4 * i;
        assert(empty_slot(to, to_table, i as int));
        assert(fields_shaped(nodes, to, fields, to_table, d1));
        lemma_compact_shape(nodes, from, fields[i as int].1, from_table + 4 * i, d1, to, slot);
        let done = compact_value(nodes, from, fields[i as int].1, from_table + 4 * i, d1, to, slot);
        let middle = done.0;
        lemma_child_updated(nodes, to, middle, schema, to_slot, depth, to_table, i as int);
        lemma_same_address(to, middle, to_slot);
        if done.1 is Ok {
            assert forall|j: int| i + 1 <= j < n implies #[trigger] empty_slot(
                middle,
                to_table,
                j,
            ) by {
                assert(empty_slot(to, to_table, j));
                lemma_child_apart(nodes, to, fields, to_table, d1, j);
                lemma_absent_footprint(nodes, to, fields[i as int].1, slot, d1);
                lemma_shaped_inside(nodes, to, schema, to_slot, depth);
                assert forall|x: int| to_table + 4 * j <= x < to_table + 4 * j + 4 implies middle[x]
                    == to[x] by {
                    assert(!footprint(nodes, to, fields[i as int].1, slot, d1).contains(x));
                }
                lemma_same_address(to, middle, to_table + 4 * j);
            }
            lemma_compact_fields_shape(
                nodes,
                from,
                schema,
                from_table,
                i + 1,
                depth,
                middle,
                to_slot,
                to_table,
            );
            lemma_updated_twice(nodes, to, middle, after, schema, to_slot, depth);
        }
    }
}


/// What is behind the slot that a path led to, after the value there was
/// written anew, is read where the path is followed again.
pub proof fn lemma_find_path_reads(
    nodes: Seq<SchemaNode>,
    mem: Seq<u8>,
    schema: int,
    parent: int,
    slot: int,
    path: Seq<Seq<u8>>,
    i: int,
    depth: nat,
    last: Seq<u8>,
)
    requires
        shaped(nodes, mem, schema, slot, depth),
        apart(nodes, mem, schema, slot, depth),
        find_path(nodes, mem, schema, parent, slot, path, i, depth) matches Ok(Some(_)),
        found_updated(
            nodes,
            mem,
            find_path(nodes, mem, schema, parent, slot, path, i, depth),
            last,
        ),
    ensures
        find_path(nodes, last, schema, parent, slot, path, i, depth) == find_path(
            nodes,
            mem,
            schema,
            parent,
            slot,
            path,
            i,
            depth,
        ),
    decreases MAX_DEPTH + 1 - depth,
{
    lemma_shaped_inside(nodes, mem, schema, slot, depth);
    match nodes[schema] {
        SchemaNode::Portal { schema: target, parent_schema, .. } => {
            lemma_portal_shape(nodes, mem, last, schema, slot, depth);
            lemma_find_path_reads(
                nodes,
                mem,
                target,
                parent_schema,
                slot,
                path,
                i,
                depth + 1,
                last,
            );
        },
        SchemaNode::String => {},
        SchemaNode::Struct { fields } => {
            if 0 <= i < path.len() {
                lemma_find_field_bounds(fields, path[i], 0);
                let k = find_field(fields, path[i], 0)->0;
                let address = spec_read_address(mem, slot)->Ok_0;
                let d1: nat = depth + 1;
                let table = address as int;
                assert(fields_shaped(nodes, mem, fields, table, d1));
                lemma_child_apart(nodes, mem, fields, table, d1, k);
                lemma_shaped_inside(nodes, mem, fields[k].1, table + 4 * k, d1);
                lemma_find_path(
                    nodes,
                    mem,
                    fields[k].1,
                    schema,
                    table + 4 * k,
                    path,
                    i + 1,
                    d1,
                    last,
                );
                lemma_find_path_reads(
                    nodes,
                    mem,
                    fields[k].1,
                    schema,
                    table + 4 * k,
                    path,
                    i + 1,
                    d1,
                    last,
                );
                lemma_child_updated(nodes, mem, last, schema, slot, depth, table, k);
                lemma_same_address(mem, last, slot);
            }
        },
    }
}

/// The slot that a path leads to in a buffer of the shape lies inside the
/// buffer, and the value behind it has the shape.
pub proof fn lemma_find_path_leaf(
    nodes: Seq<SchemaNode>,
    mem: Seq<u8>,
    schema: int,
    parent: int,
    slot: int,
    path: Seq<Seq<u8>>,
    i: int,
    depth: nat,
)
    requires
        shaped(nodes, mem, schema, slot, depth),
        apart(nodes, mem, schema, slot, depth),
    ensures
        find_path(nodes, mem, schema, parent, slot, path, i, depth) matches Ok(
            Some((reached, _, reached_slot, steps)),
        ) ==> shaped(nodes, mem, reached, reached_slot, steps) && apart(
            nodes,
            mem,
            reached,
            reached_slot,
            steps,
        ) && in_bounds(mem, reached_slot, 4),
    decreases MAX_DEPTH + 1 - depth,
{
    lemma_shaped_inside(nodes, mem, schema, slot, depth);
    if depth > MAX_DEPTH || schema < 0 || schema >= nodes.len() {
    } else {
        match nodes[schema] {
            SchemaNode::Portal { schema: target, parent_schema, .. } => {
                lemma_portal_shape(nodes, mem, mem, schema, slot, depth);
                lemma_find_path_leaf(nodes, mem, target, parent_schema, slot, path, i, depth + 1);
            },
            SchemaNode::String => {},
            SchemaNode::Struct { fields } => {
                if 0 <= i < path.len() {
                    lemma_find_field_bounds(fields, path[i], 0);
                    match find_field(fields, path[i], 0) {
                        None => {},
                        Some(k) => {
                            let address = spec_read_address(mem, slot)->Ok_0;
                            let d1: nat = depth + 1;
                            if address != 0 {
                                let table = address as int;
                                assert(fields_shaped(nodes, mem, fields, table, d1));
                                lemma_child_apart(nodes, mem, fields, table, d1, k);
                                lemma_find_path_leaf(
                                    nodes,
                                    mem,
                                    fields[k].1,
                                    schema,
                                    table + 4 * k,
                                    path,
                                    i + 1,
                                    d1,
                                );
                            }
                        },
                    }
                }
            },
        }
    }
}


/// What following a path reads depends on the slot from which it is
/// followed and on the bytes of the value behind it only.
pub proof fn lemma_frame_reached(
    nodes: Seq<SchemaNode>,
    m1: Seq<u8>,
    m2: Seq<u8>,
    schema: int,
    parent: int,
    slot: int,
    path: Seq<Seq<u8>>,
    i: int,
    depth: nat,
)
    requires
        shaped(nodes, m1, schema, slot, depth),
        keeps(m1, m2, slot, footprint(nodes, m1, schema, slot, depth)),
    ensures
        reached_bytes(nodes, m2, schema, parent, slot, path, i, depth) == reached_bytes(
            nodes,
            m1,
            schema,
            parent,
            slot,
            path,
            i,
            depth,
        ),
    decreases MAX_DEPTH + 1 - depth,
{
    lemma_shaped_inside(nodes, m1, schema, slot, depth);
    lemma_same_address(m1, m2, slot);
    let address = spec_read_address(m1, slot)->Ok_0;
    if depth > MAX_DEPTH || schema < 0 || schema >= nodes.len() {
    } else {
        match nodes[schema] {
            SchemaNode::Portal { schema: target, parent_schema, .. } => {
                lemma_portal_shape(nodes, m1, m2, schema, slot, depth);
                lemma_frame_reached(
                    nodes,
                    m1,
                    m2,
                    target,
                    parent_schema,
                    slot,
                    path,
                    i,
                    depth + 1,
                );
            },
            SchemaNode::String => {
                if address != 0 {
                    let a = address as int;
                    let bytes = crate::value::read_string_at(m1, a)->Ok_0;
                    assert forall|x: int| a <= x < a + 4 + bytes.len() implies m2[x] == m1[x] by {
                        assert(set_int_range(a, a + 4 + bytes.len()).contains(x));
                    }
                    lemma_same_address(m1, m2, a);
                    assert(m2.subrange(a + 4, a + 4 + bytes.len()) =~= m1.subrange(
                        a + 4,
                        a + 4 + bytes.len(),
                    ));
                }
            },
            SchemaNode::Struct { fields } => {
                if address != 0 && 0 <= i < path.len() {
                    lemma_find_field_bounds(fields, path[i], 0);
                    match find_field(fields, path[i], 0) {
                        None => {},
                        Some(k) => {
                            let table = address as int;
                            let d1: nat = depth + 1;
                            let n = fields.len();
                            assert(fields_shaped(nodes, m1, fields, table, d1));
                            lemma_child_apart(nodes, m1, fields, table, d1, k);
                            lemma_fields_footprint(nodes, m1, fields, table, n, d1);
                            let inner = child_footprint(nodes, m1, fields, table, d1, k);
                            assert forall|x: int| table + 4 * k <= x < table + 4 * k + 4 implies m2[x]
                                == m1[x] by {
                                assert(set_int_range(table, table + 4 * n).contains(x));
                            }
                            assert forall|x: int| inner.contains(x) implies m2[x] == m1[x] by {
                                assert(fields_footprint(nodes, m1, fields, table, n, d1).contains(x));
                            }
                            lemma_frame_reached(
                                nodes,
                                m1,
                                m2,
                                fields[k].1,
                                schema,
                                table + 4 * k,
                                path,
                                i + 1,
                                d1,
                            );
                        },
                    }
                }
            },
        }
    }
}

/// Where a string was written behind the slot that one path led to, a
/// string that another path leads to is read as it was read before.
pub proof fn lemma_others_kept(
    nodes: Seq<SchemaNode>,
    mem: Seq<u8>,
    schema: int,
    parent: int,
    slot: int,
    path: Seq<Seq<u8>>,
    other: Seq<Seq<u8>>,
    i: int,
    depth: nat,
    last: Seq<u8>,
)
    requires
        shaped(nodes, mem, schema, slot, depth),
        apart(nodes, mem, schema, slot, depth),
        mem.len() >= 5,
        0 <= i <= path.len(),
        i <= other.len(),
        path.subrange(i, path.len() as int) != other.subrange(i, other.len() as int),
        leaf_updated(nodes, make_path(nodes, mem, schema, parent, slot, path, i, depth), last),
        make_path(nodes, mem, schema, parent, slot, path, i, depth).1 matches Ok(
            Some((reached, _, _, _)),
        ) && nodes[reached] is String,
        reached_bytes(nodes, mem, schema, parent, slot, other, i, depth) matches Ok(Some(_)),
    ensures
        reached_bytes(nodes, last, schema, parent, slot, other, i, depth) == reached_bytes(
            nodes,
            mem,
            schema,
            parent,
            slot,
            other,
            i,
            depth,
        ),
    decreases MAX_DEPTH + 1 - depth,
{
    lemma_shaped_inside(nodes, mem, schema, slot, depth);
    match nodes[schema] {
        SchemaNode::Portal { schema: target, parent_schema, .. } => {
            lemma_portal_shape(nodes, mem, last, schema, slot, depth);
            lemma_others_kept(
                nodes,
                mem,
                target,
                parent_schema,
                slot,
                path,
                other,
                i,
                depth + 1,
                last,
            );
        },
        SchemaNode::String => {
            assert(path.subrange(i, path.len() as int) =~= other.subrange(i, other.len() as int));
        },
        SchemaNode::Struct { fields } => {
            lemma_find_field_bounds(fields, path[i], 0);
            lemma_find_field_bounds(fields, other[i], 0);
            let k = find_field(fields, path[i], 0)->0;
            let j = find_field(fields, other[i], 0)->0;
            let address = spec_read_address(mem, slot)->Ok_0;
            let table = address as int;
            let d1: nat = depth + 1;
            assert(fields_shaped(nodes, mem, fields, table, d1));
            lemma_child_apart(nodes, mem, fields, table, d1, k);
            lemma_make_path(nodes, mem, fields[k].1, schema, table + 4 * k, path, i + 1, d1, last);
            lemma_child_updated(nodes, mem, last, schema, slot, depth, table, k);
            lemma_same_address(mem, last, slot);
            if path[i] == other[i] {
                assert(path.subrange(i + 1, path.len() as int) != other.subrange(
                    i + 1,
                    other.len() as int,
                )) by {
                    if path.subrange(i + 1, path.len() as int) == other.subrange(
                        i + 1,
                        other.len() as int,
                    ) {
                        assert(path.subrange(i, path.len() as int) =~= seq![path[i]]
                            + path.subrange(i + 1, path.len() as int));
                        assert(other.subrange(i, other.len() as int) =~= seq![other[i]]
                            + other.subrange(i + 1, other.len() as int));
                    }
                }
                lemma_others_kept(
                    nodes,
                    mem,
                    fields[k].1,
                    schema,
                    table + 4 * k,
                    path,
                    other,
                    i + 1,
                    d1,
                    last,
                );
            } else {
                lemma_siblings_kept(nodes, mem, last, fields, table, d1, k);
                lemma_child_apart(nodes, mem, fields, table, d1, j);
                assert(keeps(
                    mem,
                    last,
                    table + 4 * j,
                    child_footprint(nodes, mem, fields, table, d1, j),
                ));
                lemma_frame_reached(
                    nodes,
                    mem,
                    last,
                    fields[j].1,
                    schema,
                    table + 4 * j,
                    other,
                    i + 1,
                    d1,
                );
            }
        },
    }
}

} // verus!
