//! What holds of copying a value from one buffer to the end of another:
//! the copy is read as the same value, and takes as many bytes as the
//! value's size says.

use vstd::prelude::*;
use crate::MAX_DEPTH;
use crate::edits::{allocate_string, allocate_table, compact_fields, compact_value};
use crate::error::NP_Error;
use crate::memory::{
    in_bounds, le32, lemma_le32_value_of_encoding, spec_read_address, spec_write, zero_bytes,
    MAX_SIZE,
};
use crate::pointer::string::stored_string;
use crate::schema::SchemaNode;
use crate::value::{
    lemma_read_fields_fails, read_fields, read_string_at, read_value, size_of_fields,
    size_of_value, Value,
};

verus! {

/// Whether `m2` holds what `m` holds in the slot at `slot` and from `lo`
/// up to `hi`.
pub open spec fn agrees_on(m: Seq<u8>, m2: Seq<u8>, slot: int, lo: int, hi: int) -> bool {
    &&& m2.len() >= hi
    &&& m2.len() >= slot + 4
    &&& forall|k: int| lo <= k < hi ==> m2[k] == m[k]
    &&& forall|k: int| slot <= k < slot + 4 ==> m2[k] == m[k]
}

/// Whether the value behind the slot at `slot` of `m` is `v`, and stays
/// `v` whatever changes outside the slot and the bytes from `lo` up to
/// `hi`.
pub open spec fn stored(
    nodes: Seq<SchemaNode>,
    m: Seq<u8>,
    schema: int,
    slot: int,
    depth: nat,
    v: Value,
    lo: int,
    hi: int,
) -> bool {
    forall|m2: Seq<u8>| #[trigger]
        agrees_on(m, m2, slot, lo, hi) ==> read_value(nodes, m2, schema, slot, depth) == Ok::<
            Value,
            NP_Error,
        >(v)
}

/// Whether `b` holds what `a` holds in its first `len` bytes, but for
/// those from `lo` up to `hi`.
pub open spec fn same_outside(a: Seq<u8>, b: Seq<u8>, len: int, lo: int, hi: int) -> bool {
    &&& b.len() >= len
    &&& forall|k: int| 0 <= k < len && !(lo <= k < hi) ==> b[k] == a[k]
}

/// Whether the `j`-th slot of the table at `table` holds 0.
pub open spec fn empty_slot(m: Seq<u8>, table: int, j: int) -> bool {
    spec_read_address(m, table + 4 * j) == Ok::<u32, NP_Error>(0u32)
}

/// The address in four bytes does not depend on the bytes around them.
pub proof fn lemma_same_address(m: Seq<u8>, m2: Seq<u8>, slot: int)
    requires
        0 <= slot,
        slot + 4 <= m.len(),
        slot + 4 <= m2.len(),
        forall|k: int| slot <= k < slot + 4 ==> m2[k] == m[k],
    ensures
        spec_read_address(m2, slot) == spec_read_address(m, slot),
{
    assert(m2.subrange(slot, slot + 4) =~= m.subrange(slot, slot + 4));
}

/// An address that was written is read back.
pub proof fn lemma_read_written_address(m: Seq<u8>, slot: int, address: u32)
    requires
        in_bounds(m, slot, 4),
    ensures
        spec_read_address(spec_write(m, slot, le32(address)), slot) == Ok::<u32, NP_Error>(
            address,
        ),
{
    lemma_le32_value_of_encoding(address);
    assert(spec_write(m, slot, le32(address)).subrange(slot, slot + 4) =~= le32(address));
}

/// The values of the fields of the struct whose table stands at `table`,
/// each as it is read, with its name.
pub open spec fn field_values(
    nodes: Seq<SchemaNode>,
    mem: Seq<u8>,
    fields: Seq<(Seq<u8>, int)>,
    table: int,
    depth: nat,
) -> Seq<(Seq<u8>, Value)> {
    Seq::new(
        fields.len(),
        |j: int| (fields[j].0, read_value(nodes, mem, fields[j].1, table + 4 * j, depth)->Ok_0),
    )
}

/// Where each of the first `n` fields is read as its value, the fields
/// together are read as those values.
pub proof fn lemma_read_fields_each(
    nodes: Seq<SchemaNode>,
    mem: Seq<u8>,
    fields: Seq<(Seq<u8>, int)>,
    table: int,
    n: nat,
    depth: nat,
    values: Seq<(Seq<u8>, Value)>,
)
    requires
        n <= fields.len(),
        n <= values.len(),
        forall|j: int|
            0 <= j < n ==> (#[trigger] values[j]).0 == fields[j].0 && read_value(
                nodes,
                mem,
                fields[j].1,
                table + 4 * j,
                depth,
            ) == Ok::<Value, NP_Error>(values[j].1),
    ensures
        read_fields(nodes, mem, fields, table, n, depth) == Ok::<
            Seq<(Seq<u8>, Value)>,
            NP_Error,
        >(values.take(n as int)),
    decreases n,
{
    if n > 0 {
        lemma_read_fields_each(nodes, mem, fields, table, (n - 1) as nat, depth, values);
        assert(values[n - 1].0 == fields[n - 1].0);
        assert(values.take(n as int) =~= values.take(n - 1).push(values[n - 1]));
    } else {
        assert(values.take(0) =~= Seq::<(Seq<u8>, Value)>::empty());
    }
}

/// A slot that holds 0 is read as no value, whatever else changes.
pub proof fn lemma_absent_stored(
    nodes: Seq<SchemaNode>,
    to: Seq<u8>,
    schema: int,
    to_slot: int,
    depth: nat,
)
    requires
        depth <= MAX_DEPTH,
        0 <= schema < nodes.len(),
        !(nodes[schema] is Portal),
        spec_read_address(to, to_slot) == Ok::<u32, NP_Error>(0u32),
    ensures
        stored(nodes, to, schema, to_slot, depth, Value::Absent, to.len() as int, to.len() as int),
{
    assert forall|m2: Seq<u8>| #[trigger]
        agrees_on(to, m2, to_slot, to.len() as int, to.len() as int) implies read_value(
        nodes,
        m2,
        schema,
        to_slot,
        depth,
    ) == Ok::<Value, NP_Error>(Value::Absent) by {
        lemma_same_address(to, m2, to_slot);
    }
}

/// A string that was stored at the end is read back through its slot,
/// whatever else changes; and storing it changed nothing but the slot.
pub proof fn lemma_string_stored(
    nodes: Seq<SchemaNode>,
    to: Seq<u8>,
    schema: int,
    to_slot: int,
    depth: nat,
    bytes: Seq<u8>,
)
    requires
        depth <= MAX_DEPTH,
        0 <= schema < nodes.len(),
        nodes[schema] is String,
        allocate_string(to, to_slot, bytes).1 is Ok,
    ensures
        ({
            let after = allocate_string(to, to_slot, bytes).0;
            &&& after.len() == to.len() + 4 + bytes.len()
            &&& after.len() <= MAX_SIZE
            &&& same_outside(to, after, to.len() as int, to_slot, to_slot + 4)
            &&& stored(
                nodes,
                after,
                schema,
                to_slot,
                depth,
                Value::String(bytes),
                to.len() as int,
                after.len() as int,
            )
        }),
{
    let after = allocate_string(to, to_slot, bytes).0;
    let base = to.len() as int;
    let grown = to + le32(bytes.len() as u32) + bytes;
    assert(after == spec_write(grown, to_slot, le32(base as u32)));
    lemma_read_written_address(grown, to_slot, base as u32);
    lemma_le32_value_of_encoding(bytes.len() as u32);
    assert forall|m2: Seq<u8>| #[trigger]
        agrees_on(after, m2, to_slot, base, after.len() as int) implies read_value(
        nodes,
        m2,
        schema,
        to_slot,
        depth,
    ) == Ok::<Value, NP_Error>(Value::String(bytes)) by {
        lemma_same_address(after, m2, to_slot);
        assert(spec_read_address(m2, to_slot) == Ok::<u32, NP_Error>(base as u32));
        assert(m2.subrange(base, base + 4) =~= le32(bytes.len() as u32));
        assert(spec_read_address(m2, base) == Ok::<u32, NP_Error>(bytes.len() as u32));
        assert(m2.subrange(base + 4, base + 4 + bytes.len()) =~= bytes);
        assert(read_string_at(m2, base) == Ok::<Seq<u8>, NP_Error>(bytes));
    }
}

/// A struct whose table was stored at the end and whose fields were
/// stored behind it is read back through its slot, whatever else changes.
pub proof fn lemma_struct_stored(
    nodes: Seq<SchemaNode>,
    to: Seq<u8>,
    after: Seq<u8>,
    schema: int,
    to_slot: int,
    depth: nat,
    values: Seq<(Seq<u8>, Value)>,
)
    requires
        depth <= MAX_DEPTH,
        0 <= schema < nodes.len(),
        nodes[schema] is Struct,
        in_bounds(to, to_slot, 4),
        to.len() + 4 * nodes[schema]->fields.len() <= after.len() <= MAX_SIZE,
        values.len() == nodes[schema]->fields.len(),
        forall|k: int| to_slot <= k < to_slot + 4 ==> after[k] == le32(to.len() as u32)[k - to_slot],
        forall|j: int|
            0 <= j < values.len() ==> (#[trigger] values[j]).0 == nodes[schema]->fields[j].0
                && stored(
                nodes,
                after,
                nodes[schema]->fields[j].1,
                to.len() + 4 * j,
                depth + 1,
                values[j].1,
                (to.len() + 4 * values.len()) as int,
                after.len() as int,
            ),
    ensures
        stored(
            nodes,
            after,
            schema,
            to_slot,
            depth,
            Value::Struct(values),
            to.len() as int,
            after.len() as int,
        ),
{
    let fields = nodes[schema]->fields;
    let n = fields.len();
    let base = to.len() as int;
    lemma_le32_value_of_encoding(base as u32);
    assert forall|m2: Seq<u8>| #[trigger]
        agrees_on(after, m2, to_slot, base, after.len() as int) implies read_value(
        nodes,
        m2,
        schema,
        to_slot,
        depth,
    ) == Ok::<Value, NP_Error>(Value::Struct(values)) by {
        assert(m2.subrange(to_slot, to_slot + 4) =~= le32(base as u32));
        assert(spec_read_address(m2, to_slot) == Ok::<u32, NP_Error>(base as u32));
        assert forall|j: int| 0 <= j < n implies (#[trigger] values[j]).0 == fields[j].0
            && read_value(nodes, m2, fields[j].1, base + 4 * j, depth + 1) == Ok::<
            Value,
            NP_Error,
        >(values[j].1) by {
            assert(agrees_on(after, m2, base + 4 * j, base + 4 * n, after.len() as int));
        }
        lemma_read_fields_each(nodes, m2, fields, base, n, depth + 1, values);
        assert(values.take(n as int) =~= values);
    }
}

/// Copying a value that went well: the value was read from the source
/// without error; the destination grew by the value's size and kept all
/// it held but the slot; and the slot now leads to the value, whatever
/// else of the destination changes later.
pub proof fn lemma_compact_value(
    nodes: Seq<SchemaNode>,
    from: Seq<u8>,
    schema: int,
    from_slot: int,
    depth: nat,
    to: Seq<u8>,
    to_slot: int,
)
    requires
        compact_value(nodes, from, schema, from_slot, depth, to, to_slot).1 is Ok,
        spec_read_address(to, to_slot) == Ok::<u32, NP_Error>(0u32),
    ensures
        ({
            let after = compact_value(nodes, from, schema, from_slot, depth, to, to_slot).0;
            let value = read_value(nodes, from, schema, from_slot, depth);
            &&& value is Ok
            &&& after.len() == to.len() + size_of_value(value->Ok_0)
            &&& (value->Ok_0 is Absent || after.len() <= MAX_SIZE)
            &&& same_outside(to, after, to.len() as int, to_slot, to_slot + 4)
            &&& stored(
                nodes,
                after,
                schema,
                to_slot,
                depth,
                value->Ok_0,
                to.len() as int,
                after.len() as int,
            )
        }),
    decreases MAX_DEPTH + 1 - depth, 1nat, 0nat,
{
    let after = compact_value(nodes, from, schema, from_slot, depth, to, to_slot).0;
    let value = read_value(nodes, from, schema, from_slot, depth);
    match nodes[schema] {
        SchemaNode::Portal { schema: target, .. } => {
            lemma_compact_value(nodes, from, target, from_slot, depth + 1, to, to_slot);
            let v = value->Ok_0;
            assert forall|m2: Seq<u8>| #[trigger]
                agrees_on(after, m2, to_slot, to.len() as int, after.len() as int) implies read_value(
                nodes,
                m2,
                schema,
                to_slot,
                depth,
            ) == Ok::<Value, NP_Error>(v) by {
                assert(read_value(nodes, m2, target, to_slot, depth + 1) == Ok::<Value, NP_Error>(
                    v,
                ));
            }
        },
        SchemaNode::String => {
            match stored_string(from, from_slot) {
                Ok(None) => {
                    lemma_absent_stored(nodes, to, schema, to_slot, depth);
                },
                Ok(Some(bytes)) => {
                    lemma_string_stored(nodes, to, schema, to_slot, depth, bytes);
                },
                Err(_) => {},
            }
        },
        SchemaNode::Struct { fields } => {
            lemma_compact_struct(nodes, from, schema, from_slot, depth, to, to_slot);
        },
    }
}

/// Copying a struct that went well: as `lemma_compact_value` says.
pub proof fn lemma_compact_struct(
    nodes: Seq<SchemaNode>,
    from: Seq<u8>,
    schema: int,
    from_slot: int,
    depth: nat,
    to: Seq<u8>,
    to_slot: int,
)
    requires
        depth <= MAX_DEPTH,
        0 <= schema < nodes.len(),
        nodes[schema] is Struct,
        compact_value(nodes, from, schema, from_slot, depth, to, to_slot).1 is Ok,
        spec_read_address(to, to_slot) == Ok::<u32, NP_Error>(0u32),
    ensures
        ({
            let after = compact_value(nodes, from, schema, from_slot, depth, to, to_slot).0;
            let value = read_value(nodes, from, schema, from_slot, depth);
            &&& value is Ok
            &&& after.len() == to.len() + size_of_value(value->Ok_0)
            &&& (value->Ok_0 is Absent || after.len() <= MAX_SIZE)
            &&& same_outside(to, after, to.len() as int, to_slot, to_slot + 4)
            &&& stored(
                nodes,
                after,
                schema,
                to_slot,
                depth,
                value->Ok_0,
                to.len() as int,
                after.len() as int,
            )
        }),
    decreases MAX_DEPTH + 1 - depth, 0nat, 0nat,
{
    let after = compact_value(nodes, from, schema, from_slot, depth, to, to_slot).0;
    let fields = nodes[schema]->fields;
    let address = spec_read_address(from, from_slot)->Ok_0;
    if address == 0 {
        lemma_absent_stored(nodes, to, schema, to_slot, depth);
    } else {
        let base = to.len() as int;
        let n = fields.len();
        let grown = to + zero_bytes(4 * n);
        let with_table = spec_write(grown, to_slot, le32(base as u32));
        assert(allocate_table(to, to_slot, n).0 == with_table);
        assert forall|j: int| 0 <= j < n implies #[trigger] empty_slot(with_table, base, j) by {
            assert(with_table.subrange(base + 4 * j, base + 4 * j + 4) =~= seq![
                0u8,
                0u8,
                0u8,
                0u8,
            ]);
        }
        lemma_compact_fields(nodes, from, fields, address as int, 0, depth + 1, with_table, base);
        let values = field_values(nodes, from, fields, address as int, depth + 1);
        assert forall|j: int| 0 <= j < n implies (#[trigger] values[j]).0 == fields[j].0
            && read_value(nodes, from, fields[j].1, address + 4 * j, depth + 1) == Ok::<
            Value,
            NP_Error,
        >(values[j].1) by {}
        lemma_read_fields_each(nodes, from, fields, address as int, n, depth + 1, values);
        assert(values.take(n as int) =~= values);
        assert(size_of_fields(values, 0) == 0);
        assert(size_of_value(Value::Struct(values)) == 4 * n + size_of_fields(values, n));
        assert(read_value(nodes, from, schema, from_slot, depth) == Ok::<Value, NP_Error>(
            Value::Struct(values),
        ));
        assert forall|k: int| to_slot <= k < to_slot + 4 implies after[k] == le32(
            base as u32,
        )[k - to_slot] by {
            assert(after[k] == with_table[k]);
        }
        assert forall|k: int| 0 <= k < to.len() && !(to_slot <= k < to_slot + 4) implies after[k]
            == to[k] by {
            assert(after[k] == with_table[k]);
        }
        lemma_struct_stored(nodes, to, after, schema, to_slot, depth, values);
    }
}

/// Copying the fields from the `i`-th on that went well: each was read
/// from the source without error; the destination grew by their sizes and
/// kept all it held but their slots; and each slot now leads to its
/// field's value, whatever else of the destination changes later.
pub proof fn lemma_compact_fields(
    nodes: Seq<SchemaNode>,
    from: Seq<u8>,
    fields: Seq<(Seq<u8>, int)>,
    from_table: int,
    i: nat,
    depth: nat,
    to: Seq<u8>,
    to_table: int,
)
    requires
        compact_fields(nodes, from, fields, from_table, i, depth, to, to_table).1 is Ok,
        i <= fields.len(),
        0 <= to_table,
        to_table + 4 * fields.len() <= to.len(),
        to.len() <= MAX_SIZE,
        forall|j: int| i <= j < fields.len() ==> #[trigger] empty_slot(to, to_table, j),
    ensures
        ({
            let after = compact_fields(nodes, from, fields, from_table, i, depth, to, to_table).0;
            let values = field_values(nodes, from, fields, from_table, depth);
            &&& forall|j: int|
                i <= j < fields.len() ==> read_value(
                    nodes,
                    from,
                    fields[j].1,
                    from_table + 4 * j,
                    depth,
                ) == Ok::<Value, NP_Error>((#[trigger] values[j]).1)
            &&& after.len() == to.len() + size_of_fields(values, fields.len()) - size_of_fields(
                values,
                i,
            )
            &&& after.len() <= MAX_SIZE
            &&& same_outside(
                to,
                after,
                to.len() as int,
                to_table + 4 * i,
                to_table + 4 * fields.len(),
            )
            &&& forall|j: int|
                i <= j < fields.len() ==> stored(
                    nodes,
                    after,
                    fields[j].1,
                    to_table + 4 * j,
                    depth,
                    (#[trigger] values[j]).1,
                    to.len() as int,
                    after.len() as int,
                )
        }),
    decreases MAX_DEPTH + 1 - depth, 2nat, fields.len() - i,
{
    let n = fields.len();
    let after = compact_fields(nodes, from, fields, from_table, i, depth, to, to_table).0;
    let values = field_values(nodes, from, fields, from_table, depth);
    if i < n {
        let slot = to_table + 4 * i;
        let first = compact_value(
            nodes,
            from,
            fields[i as int].1,
            from_table + 4 * i,
            depth,
            to,
            slot,
        );
        let middle = first.0;
        assert(empty_slot(to, to_table, i as int));
        lemma_compact_value(nodes, from, fields[i as int].1, from_table + 4 * i, depth, to, slot);
        let v = values[i as int].1;
        assert(middle.len() <= MAX_SIZE);
        assert(empty_slot(to, to_table, i as int));
        assert forall|j: int| i + 1 <= j < n implies #[trigger] empty_slot(middle, to_table, j) by {
            assert(empty_slot(to, to_table, j));
            lemma_same_address(to, middle, to_table + 4 * j);
        }
        lemma_compact_fields(nodes, from, fields, from_table, i + 1, depth, middle, to_table);
        assert(size_of_fields(values, i + 1) == size_of_fields(values, i) + size_of_value(v));
        assert forall|j: int| i <= j < n implies stored(
            nodes,
            after,
            fields[j].1,
            to_table + 4 * j,
            depth,
            (#[trigger] values[j]).1,
            to.len() as int,
            after.len() as int,
        ) by {
            assert forall|m2: Seq<u8>| #[trigger]
                agrees_on(after, m2, to_table + 4 * j, to.len() as int, after.len() as int) implies read_value(
                nodes,
                m2,
                fields[j].1,
                to_table + 4 * j,
                depth,
            ) == Ok::<Value, NP_Error>(values[j].1) by {
                if j == i {
                    assert(agrees_on(middle, m2, slot, to.len() as int, middle.len() as int));
                } else {
                    assert(agrees_on(
                        after,
                        m2,
                        to_table + 4 * j,
                        middle.len() as int,
                        after.len() as int,
                    ));
                }
            }
        }
    } else {
        assert(after == to);
    }
}


/// Where the first `n` fields are read as some values, each of them is
/// read as its own.
pub proof fn lemma_read_fields_index(
    nodes: Seq<SchemaNode>,
    mem: Seq<u8>,
    fields: Seq<(Seq<u8>, int)>,
    table: int,
    n: nat,
    depth: nat,
)
    requires
        read_fields(nodes, mem, fields, table, n, depth) is Ok,
    ensures
        n <= fields.len(),
        read_fields(nodes, mem, fields, table, n, depth)->Ok_0.len() == n,
        forall|j: int|
            0 <= j < n ==> (#[trigger] read_fields(nodes, mem, fields, table, n, depth)->Ok_0[j])
                == (
                fields[j].0,
                read_value(nodes, mem, fields[j].1, table + 4 * j, depth)->Ok_0,
            ) && read_value(nodes, mem, fields[j].1, table + 4 * j, depth) is Ok,
    decreases n,
{
    if n > 0 {
        lemma_read_fields_index(nodes, mem, fields, table, (n - 1) as nat, depth);
    }
}

/// The sizes of the first fields grow with their number.
pub proof fn lemma_size_of_fields_grows(values: Seq<(Seq<u8>, Value)>, i: nat, n: nat)
    requires
        i <= n <= values.len(),
    ensures
        size_of_fields(values, i) <= size_of_fields(values, n),
    decreases n,
{
    if i < n {
        lemma_size_of_fields_grows(values, i, (n - 1) as nat);
        assert(size_of_fields(values, n) == size_of_fields(values, (n - 1) as nat) + size_of_value(
            values[n - 1].1,
        ));
    }
}

/// When copying goes well: whenever the value is read from the source
/// without error, the slot of the destination lies in it and is empty,
/// and the destination has room for the value.
pub proof fn lemma_compact_succeeds(
    nodes: Seq<SchemaNode>,
    from: Seq<u8>,
    schema: int,
    from_slot: int,
    depth: nat,
    to: Seq<u8>,
    to_slot: int,
)
    requires
        read_value(nodes, from, schema, from_slot, depth) is Ok,
        spec_read_address(to, to_slot) == Ok::<u32, NP_Error>(0u32),
        to.len() + size_of_value(read_value(nodes, from, schema, from_slot, depth)->Ok_0)
            <= MAX_SIZE,
    ensures
        compact_value(nodes, from, schema, from_slot, depth, to, to_slot).1 is Ok,
    decreases MAX_DEPTH + 1 - depth, 1nat, 0nat,
{
    match nodes[schema] {
        SchemaNode::Portal { schema: target, .. } => {
            lemma_compact_succeeds(nodes, from, target, from_slot, depth + 1, to, to_slot);
        },
        SchemaNode::String => {},
        SchemaNode::Struct { fields } => {
            let address = spec_read_address(from, from_slot)->Ok_0;
            if address != 0 {
                let n = fields.len();
                let base = to.len() as int;
                let with_table = allocate_table(to, to_slot, n).0;
                let read = read_fields(nodes, from, fields, address as int, n, depth + 1)->Ok_0;
                lemma_read_fields_index(nodes, from, fields, address as int, n, depth + 1);
                let values = field_values(nodes, from, fields, address as int, depth + 1);
                assert(read =~= values);
                assert(size_of_value(Value::Struct(values)) == 4 * n + size_of_fields(values, n));
                assert(size_of_fields(values, 0) == 0);
                assert(with_table == spec_write(
                    to + zero_bytes(4 * n),
                    to_slot,
                    le32(base as u32),
                ));
                assert forall|j: int| 0 <= j < n implies #[trigger] empty_slot(
                    with_table,
                    base,
                    j,
                ) by {
                    assert(with_table.subrange(base + 4 * j, base + 4 * j + 4) =~= seq![
                        0u8,
                        0u8,
                        0u8,
                        0u8,
                    ]);
                }
                assert forall|j: int| 0 <= j < n implies read_value(
                    nodes,
                    from,
                    fields[j].1,
                    address + 4 * j,
                    depth + 1,
                ) == Ok::<Value, NP_Error>((#[trigger] values[j]).1) by {
                    assert(read[j] == values[j]);
                }
                lemma_compact_fields_succeed(
                    nodes,
                    from,
                    fields,
                    address as int,
                    0,
                    depth + 1,
                    with_table,
                    base,
                );
            }
        },
    }
}

/// When copying the fields from the `i`-th on goes well.
pub proof fn lemma_compact_fields_succeed(
    nodes: Seq<SchemaNode>,
    from: Seq<u8>,
    fields: Seq<(Seq<u8>, int)>,
    from_table: int,
    i: nat,
    depth: nat,
    to: Seq<u8>,
    to_table: int,
)
    requires
        i <= fields.len(),
        0 <= to_table,
        to_table + 4 * fields.len() <= to.len(),
        forall|j: int| i <= j < fields.len() ==> #[trigger] empty_slot(to, to_table, j),
        forall|j: int|
            i <= j < fields.len() ==> read_value(
                nodes,
                from,
                fields[j].1,
                from_table + 4 * j,
                depth,
            ) == Ok::<Value, NP_Error>(
                (#[trigger] field_values(nodes, from, fields, from_table, depth)[j]).1,
            ),
        to.len() + size_of_fields(
            field_values(nodes, from, fields, from_table, depth),
            fields.len(),
        ) - size_of_fields(field_values(nodes, from, fields, from_table, depth), i) <= MAX_SIZE,
    ensures
        compact_fields(nodes, from, fields, from_table, i, depth, to, to_table).1 is Ok,
    decreases MAX_DEPTH + 1 - depth, 2nat, fields.len() - i,
{
    let n = fields.len();
    let values = field_values(nodes, from, fields, from_table, depth);
    if i < n {
        let slot = to_table + 4 * i;
        assert(empty_slot(to, to_table, i as int));
        assert(read_value(nodes, from, fields[i as int].1, from_table + 4 * i, depth) == Ok::<
            Value,
            NP_Error,
        >(values[i as int].1));
        lemma_size_of_fields_grows(values, i + 1, n);
        assert(size_of_fields(values, i + 1) == size_of_fields(values, i) + size_of_value(
            values[i as int].1,
        ));
        lemma_compact_succeeds(nodes, from, fields[i as int].1, from_table + 4 * i, depth, to, slot);
        lemma_compact_value(nodes, from, fields[i as int].1, from_table + 4 * i, depth, to, slot);
        let middle = compact_value(
            nodes,
            from,
            fields[i as int].1,
            from_table + 4 * i,
            depth,
            to,
            slot,
        ).0;
        assert forall|j: int| i + 1 <= j < n implies #[trigger] empty_slot(middle, to_table, j) by {
            assert(empty_slot(to, to_table, j));
            lemma_same_address(to, middle, to_table + 4 * j);
        }
        lemma_compact_fields_succeed(
            nodes,
            from,
            fields,
            from_table,
            i + 1,
            depth,
            middle,
            to_table,
        );
    }
}


/// How copying fails: where the slot of the destination lies in it,
/// copying fails either as reading the value from the source fails, or
/// because the destination has no room. And the destination never
/// shrinks.
pub proof fn lemma_compact_error(
    nodes: Seq<SchemaNode>,
    from: Seq<u8>,
    schema: int,
    from_slot: int,
    depth: nat,
    to: Seq<u8>,
    to_slot: int,
)
    requires
        in_bounds(to, to_slot, 4),
    ensures
        compact_value(nodes, from, schema, from_slot, depth, to, to_slot).0.len() >= to.len(),
        compact_value(nodes, from, schema, from_slot, depth, to, to_slot).1 is Ok ==> read_value(
            nodes,
            from,
            schema,
            from_slot,
            depth,
        ) is Ok,
        compact_value(nodes, from, schema, from_slot, depth, to, to_slot).1 matches Err(e) ==> e
            == NP_Error::Allocation || read_value(nodes, from, schema, from_slot, depth) == Err::<
            Value,
            NP_Error,
        >(e),
    decreases MAX_DEPTH + 1 - depth, 1nat, 0nat,
{
    if depth > MAX_DEPTH || schema < 0 || schema >= nodes.len() {
    } else {
        match nodes[schema] {
            SchemaNode::Portal { schema: target, .. } => {
                lemma_compact_error(nodes, from, target, from_slot, depth + 1, to, to_slot);
            },
            SchemaNode::String => {},
            SchemaNode::Struct { fields } => {
                let address = spec_read_address(from, from_slot);
                if address is Ok && address->Ok_0 != 0 && in_bounds(
                    from,
                    address->Ok_0 as int,
                    4 * (fields.len() as int),
                ) && allocate_table(to, to_slot, fields.len()).1 is Ok {
                    let with_table = allocate_table(to, to_slot, fields.len()).0;
                    lemma_compact_fields_error(
                        nodes,
                        from,
                        fields,
                        address->Ok_0 as int,
                        0,
                        depth + 1,
                        with_table,
                        to.len() as int,
                    );
                }
            },
        }
    }
}

/// How copying the fields from the `i`-th on fails.
pub proof fn lemma_compact_fields_error(
    nodes: Seq<SchemaNode>,
    from: Seq<u8>,
    fields: Seq<(Seq<u8>, int)>,
    from_table: int,
    i: nat,
    depth: nat,
    to: Seq<u8>,
    to_table: int,
)
    requires
        i <= fields.len(),
        0 <= to_table,
        to_table + 4 * fields.len() <= to.len(),
        read_fields(nodes, from, fields, from_table, i, depth) is Ok,
    ensures
        compact_fields(nodes, from, fields, from_table, i, depth, to, to_table).0.len()
            >= to.len(),
        compact_fields(nodes, from, fields, from_table, i, depth, to, to_table).1 is Ok
            ==> read_fields(nodes, from, fields, from_table, fields.len(), depth) is Ok,
        compact_fields(nodes, from, fields, from_table, i, depth, to, to_table).1 matches Err(e)
            ==> e == NP_Error::Allocation || read_fields(
            nodes,
            from,
            fields,
            from_table,
            fields.len(),
            depth,
        ) == Err::<Seq<(Seq<u8>, Value)>, NP_Error>(e),
    decreases MAX_DEPTH + 1 - depth, 2nat, fields.len() - i,
{
    if i < fields.len() {
        let slot = to_table + 4 * i;
        lemma_compact_error(nodes, from, fields[i as int].1, from_table + 4 * i, depth, to, slot);
        let done = compact_value(
            nodes,
            from,
            fields[i as int].1,
            from_table + 4 * i,
            depth,
            to,
            slot,
        );
        let read = read_value(nodes, from, fields[i as int].1, from_table + 4 * i, depth);
        assert(read_fields(nodes, from, fields, from_table, i + 1, depth) == match read {
            Err(e) => Err::<Seq<(Seq<u8>, Value)>, NP_Error>(e),
            Ok(value) => Ok::<Seq<(Seq<u8>, Value)>, NP_Error>(
                read_fields(nodes, from, fields, from_table, i, depth)->Ok_0.push(
                    (fields[i as int].0, value),
                ),
            ),
        });
        if done.1 is Ok {
            lemma_compact_fields_error(
                nodes,
                from,
                fields,
                from_table,
                i + 1,
                depth,
                done.0,
                to_table,
            );
        } else if read is Err {
            lemma_read_fields_fails(
                nodes,
                from,
                fields,
                from_table,
                i + 1,
                fields.len(),
                depth,
            );
        }
    }
}

} // verus!
