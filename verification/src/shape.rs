//! The shape of a buffer that this library wrote: every value lies behind
//! the header and inside the buffer, and no two values share a byte. In
//! such a buffer a write to one value leaves every other value as it was.
//!
//! Bytes that come from elsewhere need not have this shape. Every
//! operation checks what it reads, so that it fails on them rather than
//! reads outside the buffer; but only for buffers of this shape is more
//! promised than that.

use vstd::prelude::*;
use vstd::set_lib::set_int_range;
use crate::MAX_DEPTH;
use crate::memory::{in_bounds, spec_read_address};
use crate::schema::SchemaNode;
use crate::value::read_string_at;

verus! {

/// The bytes that the value behind the slot at `slot` takes: those of a
/// string; those of a struct's table and of its fields' values; none
/// where there is no value.
pub open spec fn footprint(
    nodes: Seq<SchemaNode>,
    mem: Seq<u8>,
    schema: int,
    slot: int,
    depth: nat,
) -> Set<int>
    decreases MAX_DEPTH + 1 - depth, 1nat, 0nat,
{
    if depth > MAX_DEPTH || schema < 0 || schema >= nodes.len() {
        Set::empty()
    } else {
        match nodes[schema] {
            SchemaNode::Portal { schema: target, .. } => footprint(
                nodes,
                mem,
                target,
                slot,
                depth + 1,
            ),
            SchemaNode::String => match spec_read_address(mem, slot) {
                Err(_) => Set::empty(),
                Ok(address) => if address == 0 {
                    Set::empty()
                } else {
                    match read_string_at(mem, address as int) {
                        Err(_) => Set::empty(),
                        Ok(bytes) => set_int_range(address as int, address + 4 + bytes.len()),
                    }
                },
            },
            SchemaNode::Struct { fields } => match spec_read_address(mem, slot) {
                Err(_) => Set::empty(),
                Ok(address) => if address == 0 {
                    Set::empty()
                } else {
                    set_int_range(address as int, address + 4 * fields.len()) + fields_footprint(
                        nodes,
                        mem,
                        fields,
                        address as int,
                        fields.len(),
                        depth + 1,
                    )
                },
            },
        }
    }
}

/// The bytes that the values of the first `n` fields take.
pub open spec fn fields_footprint(
    nodes: Seq<SchemaNode>,
    mem: Seq<u8>,
    fields: Seq<(Seq<u8>, int)>,
    table: int,
    n: nat,
    depth: nat,
) -> Set<int>
    decreases MAX_DEPTH + 1 - depth, 2nat, n,
{
    if n == 0 || n > fields.len() {
        Set::empty()
    } else {
        fields_footprint(nodes, mem, fields, table, (n - 1) as nat, depth) + footprint(
            nodes,
            mem,
            fields[n - 1].1,
            table + 4 * (n - 1),
            depth,
        )
    }
}

/// The bytes that the value of the `j`-th field takes.
pub open spec fn child_footprint(
    nodes: Seq<SchemaNode>,
    mem: Seq<u8>,
    fields: Seq<(Seq<u8>, int)>,
    table: int,
    depth: nat,
    j: int,
) -> Set<int> {
    footprint(nodes, mem, fields[j].1, table + 4 * j, depth)
}

/// Whether the value behind the slot at `slot` has the shape that this
/// library writes. A slot that holds 0 has it. A value that is there
/// lies behind the header and inside the buffer, no deeper than
/// `MAX_DEPTH`; the values of a struct's fields have the shape too; and
/// the table of a struct and the values of its fields share no byte.
pub open spec fn shaped(
    nodes: Seq<SchemaNode>,
    mem: Seq<u8>,
    schema: int,
    slot: int,
    depth: nat,
) -> bool
    decreases MAX_DEPTH + 1 - depth, 1nat,
{
    match spec_read_address(mem, slot) {
        Err(_) => false,
        Ok(address) => if address == 0 {
            true
        } else if depth > MAX_DEPTH || schema < 0 || schema >= nodes.len() {
            false
        } else {
            match nodes[schema] {
                SchemaNode::Portal { schema: target, .. } => shaped(
                    nodes,
                    mem,
                    target,
                    slot,
                    depth + 1,
                ),
                SchemaNode::String => address >= 5 && read_string_at(mem, address as int) is Ok,
                SchemaNode::Struct { fields } => address >= 5 && in_bounds(
                    mem,
                    address as int,
                    4 * (fields.len() as int),
                ) && fields_shaped(nodes, mem, fields, address as int, depth + 1),
            }
        },
    }
}

/// Whether the values of the fields of the struct whose table stands at
/// `table` have the shape, and they and the table share no byte.
pub open spec fn fields_shaped(
    nodes: Seq<SchemaNode>,
    mem: Seq<u8>,
    fields: Seq<(Seq<u8>, int)>,
    table: int,
    depth: nat,
) -> bool
    decreases MAX_DEPTH + 1 - depth, 2nat,
{
    &&& forall|j: int|
        0 <= j < fields.len() ==> shaped(
            nodes,
            mem,
            (#[trigger] fields[j]).1,
            table + 4 * j,
            depth,
        )
    &&& forall|j: int|
        0 <= j < fields.len() ==> (#[trigger] child_footprint(
            nodes,
            mem,
            fields,
            table,
            depth,
            j,
        )).disjoint(set_int_range(table, table + 4 * fields.len()))
    &&& forall|j: int, k: int|
        0 <= j < k < fields.len() ==> (#[trigger] child_footprint(
            nodes,
            mem,
            fields,
            table,
            depth,
            j,
        )).disjoint(#[trigger] child_footprint(nodes, mem, fields, table, depth, k))
}

/// A byte belongs to the values of the first `n` fields where it belongs
/// to the value of one of them.
pub proof fn lemma_fields_footprint(
    nodes: Seq<SchemaNode>,
    mem: Seq<u8>,
    fields: Seq<(Seq<u8>, int)>,
    table: int,
    n: nat,
    depth: nat,
)
    requires
        n <= fields.len(),
    ensures
        forall|x: int|
            fields_footprint(nodes, mem, fields, table, n, depth).contains(x) <==> exists|j: int|
                0 <= j < n && (#[trigger] child_footprint(
                    nodes,
                    mem,
                    fields,
                    table,
                    depth,
                    j,
                )).contains(x),
    decreases n,
{
    if n > 0 {
        lemma_fields_footprint(nodes, mem, fields, table, (n - 1) as nat, depth);
        let before = fields_footprint(nodes, mem, fields, table, (n - 1) as nat, depth);
        let last = child_footprint(nodes, mem, fields, table, depth, n - 1);
        assert(fields_footprint(nodes, mem, fields, table, n, depth) == before + last);
        assert forall|x: int|
            fields_footprint(nodes, mem, fields, table, n, depth).contains(x) <==> exists|j: int|
                0 <= j < n && (#[trigger] child_footprint(
                    nodes,
                    mem,
                    fields,
                    table,
                    depth,
                    j,
                )).contains(x) by {
            if before.contains(x) {
                let j = choose|j: int|
                    0 <= j < n - 1 && (#[trigger] child_footprint(
                        nodes,
                        mem,
                        fields,
                        table,
                        depth,
                        j,
                    )).contains(x);
                assert(child_footprint(nodes, mem, fields, table, depth, j).contains(x));
            }
            if last.contains(x) {
                assert(child_footprint(nodes, mem, fields, table, depth, n - 1).contains(x));
            }
            if exists|j: int|
                0 <= j < n && (#[trigger] child_footprint(
                    nodes,
                    mem,
                    fields,
                    table,
                    depth,
                    j,
                )).contains(x) {
                let j = choose|j: int|
                    0 <= j < n && (#[trigger] child_footprint(
                        nodes,
                        mem,
                        fields,
                        table,
                        depth,
                        j,
                    )).contains(x);
                if j < n - 1 {
                    assert(before.contains(x));
                }
            }
        }
    }
}

} // verus!
