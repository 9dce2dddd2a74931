//! What holds of buffers that have the shape this library writes.

use vstd::prelude::*;
use vstd::set_lib::{lemma_int_range, lemma_len_subset, lemma_set_disjoint_lens, set_int_range};
use crate::MAX_DEPTH;
use crate::buffer::terminal_bytes;
use crate::compact_laws::{
    empty_slot, field_values, lemma_read_written_address, lemma_same_address,
};
use crate::edits::{allocate_string, allocate_table, clear_slot, write_string};
use crate::memory::{le32, lemma_le32_value_of_encoding, spec_write, zero_bytes, MAX_SIZE};
use crate::error::NP_Error;
use crate::memory::{in_bounds, spec_read_address};
use crate::schema::SchemaNode;
use crate::shape::{
    child_footprint, fields_footprint, fields_shaped, footprint,
    lemma_fields_footprint, shaped,
};
use crate::value::{
    read_fields, read_string_at, read_value, size_of_fields, size_of_value, Value,
};

verus! {

/// The value of the `j`-th field, as it is read.
pub open spec fn child_value(
    nodes: Seq<SchemaNode>,
    mem: Seq<u8>,
    fields: Seq<(Seq<u8>, int)>,
    table: int,
    depth: nat,
    j: int,
) -> Result<Value, NP_Error> {
    read_value(nodes, mem, fields[j].1, table + 4 * j, depth)
}

/// The slot of a value that has the shape lies inside the buffer, and the
/// value's bytes lie behind the header and inside the buffer.
pub proof fn lemma_shaped_inside(
    nodes: Seq<SchemaNode>,
    mem: Seq<u8>,
    schema: int,
    slot: int,
    depth: nat,
)
    requires
        shaped(nodes, mem, schema, slot, depth),
    ensures
        in_bounds(mem, slot, 4),
        forall|x: int| footprint(nodes, mem, schema, slot, depth).contains(x) ==> 5 <= x < mem.len(),
    decreases MAX_DEPTH + 1 - depth,
{
    let address = spec_read_address(mem, slot)->Ok_0;
    if depth > MAX_DEPTH || schema < 0 || schema >= nodes.len() {
        assert(footprint(nodes, mem, schema, slot, depth) == Set::<int>::empty());
    } else {
        match nodes[schema] {
            SchemaNode::Portal { schema: target, .. } => {
                assert(footprint(nodes, mem, schema, slot, depth) == footprint(
                    nodes,
                    mem,
                    target,
                    slot,
                    depth + 1,
                ));
                if address != 0 {
                    lemma_shaped_inside(nodes, mem, target, slot, depth + 1);
                } else {
                    lemma_absent_footprint(nodes, mem, target, slot, depth + 1);
                }
            },
            SchemaNode::String => {
                if address != 0 {
                    let a = address as int;
                    let bytes = read_string_at(mem, a)->Ok_0;
                    assert(footprint(nodes, mem, schema, slot, depth) == set_int_range(
                        a,
                        a + 4 + bytes.len(),
                    ));
                    assert(a + 4 + bytes.len() <= mem.len());
                } else {
                    assert(footprint(nodes, mem, schema, slot, depth) == Set::<int>::empty());
                }
            },
            SchemaNode::Struct { fields } => {
                if address == 0 {
                    assert(footprint(nodes, mem, schema, slot, depth) == Set::<int>::empty());
                } else {
                    let n = fields.len();
                    let table = address as int;
                    let d1: nat = depth + 1;
                    assert(fields_shaped(nodes, mem, fields, table, d1));
                    lemma_fields_footprint(nodes, mem, fields, table, n, d1);
                    let own = set_int_range(table, table + 4 * n);
                    let inner = fields_footprint(nodes, mem, fields, table, n, d1);
                    assert(footprint(nodes, mem, schema, slot, depth) == own + inner);
                    assert forall|x: int| inner.contains(x) implies 5 <= x < mem.len() by {
                        let j = choose|j: int|
                            0 <= j < n && (#[trigger] child_footprint(
                                nodes,
                                mem,
                                fields,
                                table,
                                d1,
                                j,
                            )).contains(x);
                        assert(shaped(nodes, mem, fields[j].1, table + 4 * j, d1));
                        lemma_shaped_inside(nodes, mem, fields[j].1, table + 4 * j, d1);
                        assert(footprint(nodes, mem, fields[j].1, table + 4 * j, d1).contains(x));
                    }
                    assert forall|x: int| (own + inner).contains(x) implies 5 <= x
                        < mem.len() by {
                        if !inner.contains(x) {
                            assert(own.contains(x));
                        }
                    }
                }
            },
        }
    }
}

/// A slot that holds 0 leads to no bytes.
pub proof fn lemma_absent_footprint(
    nodes: Seq<SchemaNode>,
    mem: Seq<u8>,
    schema: int,
    slot: int,
    depth: nat,
)
    requires
        spec_read_address(mem, slot) == Ok::<u32, NP_Error>(0u32),
    ensures
        footprint(nodes, mem, schema, slot, depth) == Set::<int>::empty(),
        shaped(nodes, mem, schema, slot, depth),
    decreases MAX_DEPTH + 1 - depth,
{
    if depth <= MAX_DEPTH && 0 <= schema < nodes.len() {
        match nodes[schema] {
            SchemaNode::Portal { schema: target, .. } => {
                lemma_absent_footprint(nodes, mem, target, slot, depth + 1);
            },
            _ => {},
        }
    }
}

/// The bytes of the first `n` fields are the same in two buffers where
/// those of each field are.
pub proof fn lemma_fields_footprint_same(
    nodes: Seq<SchemaNode>,
    m1: Seq<u8>,
    m2: Seq<u8>,
    fields: Seq<(Seq<u8>, int)>,
    table: int,
    n: nat,
    depth: nat,
)
    requires
        n <= fields.len(),
        forall|j: int|
            0 <= j < n ==> #[trigger] child_footprint(nodes, m2, fields, table, depth, j)
                == child_footprint(nodes, m1, fields, table, depth, j),
    ensures
        fields_footprint(nodes, m2, fields, table, n, depth) == fields_footprint(
            nodes,
            m1,
            fields,
            table,
            n,
            depth,
        ),
    decreases n,
{
    if n > 0 {
        lemma_fields_footprint_same(nodes, m1, m2, fields, table, (n - 1) as nat, depth);
        assert(child_footprint(nodes, m2, fields, table, depth, n - 1) == child_footprint(
            nodes,
            m1,
            fields,
            table,
            depth,
            n - 1,
        ));
    }
}

/// The first `n` fields are read alike in two buffers where each field is.
pub proof fn lemma_read_fields_same(
    nodes: Seq<SchemaNode>,
    m1: Seq<u8>,
    m2: Seq<u8>,
    fields: Seq<(Seq<u8>, int)>,
    table: int,
    n: nat,
    depth: nat,
)
    requires
        n <= fields.len(),
        forall|j: int|
            0 <= j < n ==> #[trigger] child_value(nodes, m2, fields, table, depth, j)
                == child_value(nodes, m1, fields, table, depth, j),
    ensures
        read_fields(nodes, m2, fields, table, n, depth) == read_fields(
            nodes,
            m1,
            fields,
            table,
            n,
            depth,
        ),
    decreases n,
{
    if n > 0 {
        lemma_read_fields_same(nodes, m1, m2, fields, table, (n - 1) as nat, depth);
        assert(child_value(nodes, m2, fields, table, depth, n - 1) == child_value(
            nodes,
            m1,
            fields,
            table,
            depth,
            n - 1,
        ));
    }
}

/// Whether `m2` is at least as long as `m1` and holds what `m1` holds in
/// the slot at `slot` and in the bytes of `bytes`.
pub open spec fn keeps(m1: Seq<u8>, m2: Seq<u8>, slot: int, bytes: Set<int>) -> bool {
    &&& m2.len() >= m1.len()
    &&& forall|x: int| slot <= x < slot + 4 ==> m2[x] == m1[x]
    &&& forall|x: int| bytes.contains(x) ==> m2[x] == m1[x]
}

/// A value that has the shape depends on its slot and its own bytes only:
/// in a buffer that keeps them it has the shape too, takes the same bytes
/// and is read alike.
pub proof fn lemma_frame(
    nodes: Seq<SchemaNode>,
    m1: Seq<u8>,
    m2: Seq<u8>,
    schema: int,
    slot: int,
    depth: nat,
)
    requires
        shaped(nodes, m1, schema, slot, depth),
        keeps(m1, m2, slot, footprint(nodes, m1, schema, slot, depth)),
    ensures
        shaped(nodes, m2, schema, slot, depth),
        footprint(nodes, m2, schema, slot, depth) == footprint(nodes, m1, schema, slot, depth),
        read_value(nodes, m2, schema, slot, depth) == read_value(nodes, m1, schema, slot, depth),
    decreases MAX_DEPTH + 1 - depth, 1nat,
{
    lemma_shaped_inside(nodes, m1, schema, slot, depth);
    lemma_same_address(m1, m2, slot);
    let address = spec_read_address(m1, slot)->Ok_0;
    if depth > MAX_DEPTH || schema < 0 || schema >= nodes.len() {
    } else {
        match nodes[schema] {
            SchemaNode::Portal { schema: target, .. } => {
                if address == 0 {
                    lemma_absent_footprint(nodes, m1, target, slot, depth + 1);
                }
                lemma_frame(nodes, m1, m2, target, slot, depth + 1);
            },
            SchemaNode::String => {
                if address != 0 {
                    let a = address as int;
                    let bytes = read_string_at(m1, a)->Ok_0;
                    assert forall|x: int| a <= x < a + 4 + bytes.len() implies m2[x] == m1[x] by {
                        assert(set_int_range(a, a + 4 + bytes.len()).contains(x));
                    }
                    lemma_same_address(m1, m2, a);
                    assert(m2.subrange(a + 4, a + 4 + bytes.len()) =~= m1.subrange(
                        a + 4,
                        a + 4 + bytes.len(),
                    ));
                }
            },
            SchemaNode::Struct { fields } => {
                if address != 0 {
                    let table = address as int;
                    let d1: nat = depth + 1;
                    assert(fields_shaped(nodes, m1, fields, table, d1));
                    lemma_fields_footprint(nodes, m1, fields, table, fields.len(), d1);
                    assert forall|x: int|
                        table <= x < table + 4 * fields.len() || fields_footprint(
                            nodes,
                            m1,
                            fields,
                            table,
                            fields.len(),
                            d1,
                        ).contains(x) implies m2[x] == m1[x] by {
                        if table <= x < table + 4 * fields.len() {
                            assert(set_int_range(table, table + 4 * fields.len()).contains(x));
                        }
                    }
                    lemma_frame_fields(nodes, m1, m2, fields, table, d1);
                }
            },
        }
    }
}

/// The fields of a struct that has the shape depend on the struct's table
/// and their own bytes only.
pub proof fn lemma_frame_fields(
    nodes: Seq<SchemaNode>,
    m1: Seq<u8>,
    m2: Seq<u8>,
    fields: Seq<(Seq<u8>, int)>,
    table: int,
    depth: nat,
)
    requires
        fields_shaped(nodes, m1, fields, table, depth),
        m2.len() >= m1.len(),
        forall|x: int| table <= x < table + 4 * fields.len() ==> m2[x] == m1[x],
        forall|x: int|
            fields_footprint(nodes, m1, fields, table, fields.len(), depth).contains(x) ==> m2[x]
                == m1[x],
    ensures
        fields_shaped(nodes, m2, fields, table, depth),
        fields_footprint(nodes, m2, fields, table, fields.len(), depth) == fields_footprint(
            nodes,
            m1,
            fields,
            table,
            fields.len(),
            depth,
        ),
        read_fields(nodes, m2, fields, table, fields.len(), depth) == read_fields(
            nodes,
            m1,
            fields,
            table,
            fields.len(),
            depth,
        ),
        forall|j: int|
            0 <= j < fields.len() ==> #[trigger] child_footprint(nodes, m2, fields, table, depth, j)
                == child_footprint(nodes, m1, fields, table, depth, j),
    decreases MAX_DEPTH + 1 - depth, 2nat,
{
    let n = fields.len();
    lemma_fields_footprint(nodes, m1, fields, table, n, depth);
    assert forall|j: int| 0 <= j < n implies shaped(
        nodes,
        m2,
        (#[trigger] fields[j]).1,
        table + 4 * j,
        depth,
    ) && footprint(nodes, m2, fields[j].1, table + 4 * j, depth) == footprint(
        nodes,
        m1,
        fields[j].1,
        table + 4 * j,
        depth,
    ) && read_value(nodes, m2, fields[j].1, table + 4 * j, depth) == read_value(
        nodes,
        m1,
        fields[j].1,
        table + 4 * j,
        depth,
    ) by {
        assert(shaped(nodes, m1, fields[j].1, table + 4 * j, depth));
        let inner = child_footprint(nodes, m1, fields, table, depth, j);
        assert forall|x: int| inner.contains(x) implies m2[x] == m1[x] by {
            assert(fields_footprint(nodes, m1, fields, table, n, depth).contains(x));
        }
        lemma_frame(nodes, m1, m2, fields[j].1, table + 4 * j, depth);
    }
    assert forall|j: int| 0 <= j < n implies #[trigger] child_footprint(
        nodes,
        m2,
        fields,
        table,
        depth,
        j,
    ) == child_footprint(nodes, m1, fields, table, depth, j) by {
        let field = fields[j];
    }
    assert forall|j: int| 0 <= j < n implies #[trigger] child_value(
        nodes,
        m2,
        fields,
        table,
        depth,
        j,
    ) == child_value(nodes, m1, fields, table, depth, j) by {
        let field = fields[j];
    }
    lemma_fields_footprint_same(nodes, m1, m2, fields, table, n, depth);
    lemma_read_fields_same(nodes, m1, m2, fields, table, n, depth);
    assert forall|j: int| 0 <= j < n implies (#[trigger] child_footprint(
        nodes,
        m2,
        fields,
        table,
        depth,
        j,
    )).disjoint(set_int_range(table, table + 4 * n)) by {
        assert(child_footprint(nodes, m1, fields, table, depth, j).disjoint(
            set_int_range(table, table + 4 * n),
        ));
    }
    assert forall|j: int, k: int| 0 <= j < k < n implies (#[trigger] child_footprint(
        nodes,
        m2,
        fields,
        table,
        depth,
        j,
    )).disjoint(#[trigger] child_footprint(nodes, m2, fields, table, depth, k)) by {
        assert(child_footprint(nodes, m1, fields, table, depth, j).disjoint(
            child_footprint(nodes, m1, fields, table, depth, k),
        ));
    }
}

/// The values of the first `n` fields of a struct that has the shape take
/// as many bytes as their sizes say, where they are read without error.
pub proof fn lemma_fields_footprint_size(
    nodes: Seq<SchemaNode>,
    mem: Seq<u8>,
    fields: Seq<(Seq<u8>, int)>,
    table: int,
    n: nat,
    depth: nat,
)
    requires
        n <= fields.len(),
        fields_shaped(nodes, mem, fields, table, depth),
        forall|j: int|
            0 <= j < fields.len() ==> #[trigger] child_value(nodes, mem, fields, table, depth, j)
                is Ok,
    ensures
        fields_footprint(nodes, mem, fields, table, n, depth).finite(),
        fields_footprint(nodes, mem, fields, table, n, depth).len() == size_of_fields(
            field_values(nodes, mem, fields, table, depth),
            n,
        ),
    decreases MAX_DEPTH + 1 - depth, 1nat, n,
{
    let values = field_values(nodes, mem, fields, table, depth);
    if n > 0 {
        lemma_fields_footprint_size(nodes, mem, fields, table, (n - 1) as nat, depth);
        let before = fields_footprint(nodes, mem, fields, table, (n - 1) as nat, depth);
        let last = child_footprint(nodes, mem, fields, table, depth, n - 1);
        assert(shaped(nodes, mem, fields[n - 1].1, table + 4 * (n - 1), depth));
        assert(child_value(nodes, mem, fields, table, depth, n - 1) is Ok);
        lemma_footprint_size(nodes, mem, fields[n - 1].1, table + 4 * (n - 1), depth);
        lemma_fields_footprint(nodes, mem, fields, table, (n - 1) as nat, depth);
        assert(before.disjoint(last)) by {
            assert forall|x: int| before.contains(x) implies !last.contains(x) by {
                let j = choose|j: int|
                    0 <= j < n - 1 && (#[trigger] child_footprint(
                        nodes,
                        mem,
                        fields,
                        table,
                        depth,
                        j,
                    )).contains(x);
                assert(child_footprint(nodes, mem, fields, table, depth, j).disjoint(
                    child_footprint(nodes, mem, fields, table, depth, n - 1),
                ));
            }
        }
        lemma_set_disjoint_lens(before, last);
        assert(size_of_fields(values, n) == size_of_fields(values, (n - 1) as nat) + size_of_value(
            values[n - 1].1,
        ));
    } else {
        assert(size_of_fields(values, 0) == 0);
    }
}

/// A value that has the shape takes as many bytes as its size says, where
/// it is read without error.
pub proof fn lemma_footprint_size(
    nodes: Seq<SchemaNode>,
    mem: Seq<u8>,
    schema: int,
    slot: int,
    depth: nat,
)
    requires
        shaped(nodes, mem, schema, slot, depth),
        read_value(nodes, mem, schema, slot, depth) is Ok,
    ensures
        footprint(nodes, mem, schema, slot, depth).finite(),
        footprint(nodes, mem, schema, slot, depth).len() == size_of_value(
            read_value(nodes, mem, schema, slot, depth)->Ok_0,
        ),
    decreases MAX_DEPTH + 1 - depth, 0nat, 0nat,
{
    let address = spec_read_address(mem, slot)->Ok_0;
    match nodes[schema] {
        SchemaNode::Portal { schema: target, .. } => {
            if address == 0 {
                lemma_absent_footprint(nodes, mem, target, slot, depth + 1);
            }
            lemma_footprint_size(nodes, mem, target, slot, depth + 1);
        },
        SchemaNode::String => {
            if address != 0 {
                let bytes = read_string_at(mem, address as int)->Ok_0;
                lemma_int_range(address as int, address + 4 + bytes.len());
            }
        },
        SchemaNode::Struct { fields } => {
            if address != 0 {
                let n = fields.len();
                let table = address as int;
                let d1: nat = depth + 1;
                let values = field_values(nodes, mem, fields, table, d1);
                assert(fields_shaped(nodes, mem, fields, table, d1));
                crate::compact_laws::lemma_read_fields_index(nodes, mem, fields, table, n, d1);
                let read = read_fields(nodes, mem, fields, table, n, d1)->Ok_0;
                assert(read =~= values);
                assert forall|j: int| 0 <= j < n implies #[trigger] child_value(
                    nodes,
                    mem,
                    fields,
                    table,
                    d1,
                    j,
                ) is Ok by {
                    assert(read[j] == values[j]);
                }
                lemma_fields_footprint_size(nodes, mem, fields, table, n, d1);
                lemma_fields_footprint(nodes, mem, fields, table, n, d1);
                lemma_int_range(table, table + 4 * n);
                let own = set_int_range(table, table + 4 * n);
                let inner = fields_footprint(nodes, mem, fields, table, n, d1);
                assert(own.disjoint(inner)) by {
                    assert forall|x: int| inner.contains(x) implies !own.contains(x) by {
                        let j = choose|j: int|
                            0 <= j < n && (#[trigger] child_footprint(
                                nodes,
                                mem,
                                fields,
                                table,
                                d1,
                                j,
                            )).contains(x);
                        assert(child_footprint(nodes, mem, fields, table, d1, j).disjoint(own));
                    }
                }
                lemma_set_disjoint_lens(own, inner);
                assert(size_of_value(Value::Struct(values)) == 4 * n + size_of_fields(values, n));
            }
        },
    }
}

/// A value that has the shape and is read without error is no larger than
/// the buffer behind its header.
pub proof fn lemma_shaped_size(
    nodes: Seq<SchemaNode>,
    mem: Seq<u8>,
    schema: int,
    slot: int,
    depth: nat,
)
    requires
        shaped(nodes, mem, schema, slot, depth),
        read_value(nodes, mem, schema, slot, depth) is Ok,
        mem.len() >= 5,
    ensures
        5 + size_of_value(read_value(nodes, mem, schema, slot, depth)->Ok_0) <= mem.len(),
{
    lemma_footprint_size(nodes, mem, schema, slot, depth);
    lemma_shaped_inside(nodes, mem, schema, slot, depth);
    lemma_int_range(5, mem.len() as int);
    assert(footprint(nodes, mem, schema, slot, depth).subset_of(
        set_int_range(5, mem.len() as int),
    ));
    lemma_len_subset(
        footprint(nodes, mem, schema, slot, depth),
        set_int_range(5, mem.len() as int),
    );
}


/// Whether the slot at `slot` shares no byte with the value behind it.
pub open spec fn apart(
    nodes: Seq<SchemaNode>,
    mem: Seq<u8>,
    schema: int,
    slot: int,
    depth: nat,
) -> bool {
    forall|x: int|
        slot <= x < slot + 4 ==> !(#[trigger] footprint(nodes, mem, schema, slot, depth).contains(
            x,
        ))
}

/// Whether `after` is `before` with the value behind the slot at `slot`
/// written anew: the value has the shape; it takes bytes it took before or
/// bytes that were added at the end; and nothing changed but the slot, the
/// bytes the value took before, and what was added at the end.
pub open spec fn updated(
    nodes: Seq<SchemaNode>,
    before: Seq<u8>,
    after: Seq<u8>,
    schema: int,
    slot: int,
    depth: nat,
) -> bool {
    &&& shaped(nodes, after, schema, slot, depth)
    &&& after.len() >= before.len()
    &&& forall|x: int| #[trigger]
        footprint(nodes, after, schema, slot, depth).contains(x) ==> footprint(
            nodes,
            before,
            schema,
            slot,
            depth,
        ).contains(x) || before.len() <= x
    &&& forall|x: int|
        0 <= x < before.len() && !(slot <= x < slot + 4) && !footprint(
            nodes,
            before,
            schema,
            slot,
            depth,
        ).contains(x) ==> #[trigger] after[x] == before[x]
}

/// A buffer is itself with any of its values written anew.
pub proof fn lemma_updated_same(
    nodes: Seq<SchemaNode>,
    mem: Seq<u8>,
    schema: int,
    slot: int,
    depth: nat,
)
    requires
        shaped(nodes, mem, schema, slot, depth),
    ensures
        updated(nodes, mem, mem, schema, slot, depth),
{
}

/// Writing a value anew twice is writing it anew.
pub proof fn lemma_updated_twice(
    nodes: Seq<SchemaNode>,
    a: Seq<u8>,
    b: Seq<u8>,
    c: Seq<u8>,
    schema: int,
    slot: int,
    depth: nat,
)
    requires
        updated(nodes, a, b, schema, slot, depth),
        updated(nodes, b, c, schema, slot, depth),
    ensures
        updated(nodes, a, c, schema, slot, depth),
{
    assert forall|x: int| #[trigger]
        footprint(nodes, c, schema, slot, depth).contains(x) implies footprint(
        nodes,
        a,
        schema,
        slot,
        depth,
    ).contains(x) || a.len() <= x by {
        if footprint(nodes, b, schema, slot, depth).contains(x) {
        }
    }
    assert forall|x: int|
        0 <= x < a.len() && !(slot <= x < slot + 4) && !footprint(
            nodes,
            a,
            schema,
            slot,
            depth,
        ).contains(x) implies #[trigger] c[x] == a[x] by {
        assert(b[x] == a[x]);
        if footprint(nodes, b, schema, slot, depth).contains(x) {
        }
    }
}

/// Where the value of one field of a struct was written anew, the values
/// of the other fields are as they were.
pub proof fn lemma_siblings_kept(
    nodes: Seq<SchemaNode>,
    before: Seq<u8>,
    after: Seq<u8>,
    fields: Seq<(Seq<u8>, int)>,
    table: int,
    depth: nat,
    k: int,
)
    requires
        fields_shaped(nodes, before, fields, table, depth),
        0 <= k < fields.len(),
        5 <= table,
        table + 4 * fields.len() <= before.len(),
        updated(nodes, before, after, fields[k].1, table + 4 * k, depth),
    ensures
        fields_shaped(nodes, after, fields, table, depth),
        forall|j: int|
            0 <= j < fields.len() && j != k ==> #[trigger] child_footprint(
                nodes,
                after,
                fields,
                table,
                depth,
                j,
            ) == child_footprint(nodes, before, fields, table, depth, j),
        forall|x: int|
            table <= x < table + 4 * fields.len() && !(table + 4 * k <= x < table + 4 * k + 4)
                ==> after[x] == before[x],
        forall|j: int|
            0 <= j < fields.len() && j != k ==> #[trigger] child_value(
                nodes,
                after,
                fields,
                table,
                depth,
                j,
            ) == child_value(nodes, before, fields, table, depth, j),
        forall|j: int|
            0 <= j < fields.len() && j != k ==> keeps(
                before,
                after,
                table + 4 * j,
                #[trigger] child_footprint(nodes, before, fields, table, depth, j),
            ),
{
    let n = fields.len();
    let own = set_int_range(table, table + 4 * n);
    let slot_k = table + 4 * k;
    let changed = child_footprint(nodes, before, fields, table, depth, k);
    assert(changed.disjoint(own));
    assert forall|x: int| table <= x < table + 4 * n && !(slot_k <= x < slot_k + 4) implies after[x]
        == before[x] by {
        assert(own.contains(x));
    }
    assert forall|j: int| 0 <= j < n && j != k implies shaped(
        nodes,
        after,
        (#[trigger] fields[j]).1,
        table + 4 * j,
        depth,
    ) && footprint(nodes, after, fields[j].1, table + 4 * j, depth) == footprint(
        nodes,
        before,
        fields[j].1,
        table + 4 * j,
        depth,
    ) && read_value(nodes, after, fields[j].1, table + 4 * j, depth) == read_value(
        nodes,
        before,
        fields[j].1,
        table + 4 * j,
        depth,
    ) by {
        let other = child_footprint(nodes, before, fields, table, depth, j);
        assert(shaped(nodes, before, fields[j].1, table + 4 * j, depth));
        lemma_shaped_inside(nodes, before, fields[j].1, table + 4 * j, depth);
        assert(other.disjoint(own));
        if j < k {
            assert(other.disjoint(changed));
        } else {
            assert(changed.disjoint(other));
        }
        assert forall|x: int| table + 4 * j <= x < table + 4 * j + 4 implies after[x]
            == before[x] by {
            assert(own.contains(x));
        }
        assert forall|x: int| other.contains(x) implies after[x] == before[x] by {
            assert(!own.contains(x));
            assert(!changed.contains(x));
        }
        lemma_frame(nodes, before, after, fields[j].1, table + 4 * j, depth);
    }
    assert forall|j: int| 0 <= j < n && j != k implies #[trigger] child_footprint(
        nodes,
        after,
        fields,
        table,
        depth,
        j,
    ) == child_footprint(nodes, before, fields, table, depth, j) by {
        let field = fields[j];
    }
    assert forall|j: int| 0 <= j < n && j != k implies #[trigger] child_value(
        nodes,
        after,
        fields,
        table,
        depth,
        j,
    ) == child_value(nodes, before, fields, table, depth, j) by {
        let field = fields[j];
    }
    assert forall|j: int| 0 <= j < n && j != k implies keeps(
        before,
        after,
        table + 4 * j,
        #[trigger] child_footprint(nodes, before, fields, table, depth, j),
    ) by {
        let other = child_footprint(nodes, before, fields, table, depth, j);
        assert(shaped(nodes, before, fields[j].1, table + 4 * j, depth));
        lemma_shaped_inside(nodes, before, fields[j].1, table + 4 * j, depth);
        assert(other.disjoint(own));
        if j < k {
            assert(other.disjoint(changed));
        } else {
            assert(changed.disjoint(other));
        }
        assert forall|x: int| table + 4 * j <= x < table + 4 * j + 4 implies after[x]
            == before[x] by {
            assert(own.contains(x));
        }
        assert forall|x: int| other.contains(x) implies after[x] == before[x] by {
            assert(!own.contains(x));
            assert(!changed.contains(x));
        }
    }
    assert forall|j: int| 0 <= j < n implies shaped(
        nodes,
        after,
        (#[trigger] fields[j]).1,
        table + 4 * j,
        depth,
    ) by {
    }
    let fresh = child_footprint(nodes, after, fields, table, depth, k);
    assert forall|x: int| fresh.contains(x) implies changed.contains(x) || before.len() <= x by {
        assert(footprint(nodes, after, fields[k].1, table + 4 * k, depth).contains(x));
    }
    assert forall|j: int| 0 <= j < n implies (#[trigger] child_footprint(
        nodes,
        after,
        fields,
        table,
        depth,
        j,
    )).disjoint(own) by {
        if j != k {
            assert(child_footprint(nodes, before, fields, table, depth, j).disjoint(own));
        } else {
            assert forall|x: int| fresh.contains(x) implies !own.contains(x) by {
                if changed.contains(x) {
                }
            }
        }
    }
    assert forall|i: int, j: int| 0 <= i < j < n implies (#[trigger] child_footprint(
        nodes,
        after,
        fields,
        table,
        depth,
        i,
    )).disjoint(#[trigger] child_footprint(nodes, after, fields, table, depth, j)) by {
        let first = child_footprint(nodes, before, fields, table, depth, i);
        let second = child_footprint(nodes, before, fields, table, depth, j);
        assert(first.disjoint(second));
        if i == k {
            assert(shaped(nodes, before, fields[j].1, table + 4 * j, depth));
            lemma_shaped_inside(nodes, before, fields[j].1, table + 4 * j, depth);
            assert forall|x: int| fresh.contains(x) implies !second.contains(x) by {
                if changed.contains(x) {
                }
            }
        } else if j == k {
            assert(shaped(nodes, before, fields[i].1, table + 4 * i, depth));
            lemma_shaped_inside(nodes, before, fields[i].1, table + 4 * i, depth);
            assert forall|x: int| first.contains(x) implies !fresh.contains(x) by {
                if changed.contains(x) {
                }
            }
        }
    }
}

/// Where the value of one field of a struct was written anew, the struct
/// was written anew; and its slot was left alone.
pub proof fn lemma_child_updated(
    nodes: Seq<SchemaNode>,
    before: Seq<u8>,
    after: Seq<u8>,
    schema: int,
    slot: int,
    depth: nat,
    table: int,
    k: int,
)
    requires
        depth <= MAX_DEPTH,
        0 <= schema < nodes.len(),
        nodes[schema] is Struct,
        shaped(nodes, before, schema, slot, depth),
        apart(nodes, before, schema, slot, depth),
        table != 0,
        spec_read_address(before, slot) == Ok::<u32, NP_Error>(table as u32),
        table == table as u32,
        0 <= k < nodes[schema]->fields.len(),
        updated(nodes, before, after, nodes[schema]->fields[k].1, table + 4 * k, depth + 1),
    ensures
        updated(nodes, before, after, schema, slot, depth),
        apart(nodes, after, schema, slot, depth),
        forall|x: int| slot <= x < slot + 4 ==> after[x] == before[x],
{
    let fields = nodes[schema]->fields;
    let n = fields.len();
    let d1: nat = depth + 1;
    let own = set_int_range(table, table + 4 * n);
    let slot_k = table + 4 * k;
    let inner_before = fields_footprint(nodes, before, fields, table, n, d1);
    let inner_after = fields_footprint(nodes, after, fields, table, n, d1);
    let changed = child_footprint(nodes, before, fields, table, d1, k);
    let fresh = child_footprint(nodes, after, fields, table, d1, k);
    assert(fields_shaped(nodes, before, fields, table, d1));
    assert(footprint(nodes, before, schema, slot, depth) == own + inner_before);
    lemma_shaped_inside(nodes, before, schema, slot, depth);
    lemma_fields_footprint(nodes, before, fields, table, n, d1);
    lemma_fields_footprint(nodes, after, fields, table, n, d1);
    lemma_siblings_kept(nodes, before, after, fields, table, d1, k);
    assert forall|x: int| changed.contains(x) implies inner_before.contains(x) by {
        assert(child_footprint(nodes, before, fields, table, d1, k).contains(x));
    }
    assert forall|x: int| slot <= x < slot + 4 implies after[x] == before[x] by {
        assert(!footprint(nodes, before, schema, slot, depth).contains(x));
        assert(!own.contains(x));
        assert(!changed.contains(x));
        assert(!footprint(nodes, before, fields[k].1, slot_k, d1).contains(x));
    }
    lemma_same_address(before, after, slot);
    assert(footprint(nodes, after, schema, slot, depth) == own + inner_after);
    assert forall|x: int| #[trigger]
        footprint(nodes, after, schema, slot, depth).contains(x) implies footprint(
        nodes,
        before,
        schema,
        slot,
        depth,
    ).contains(x) || before.len() <= x by {
        if inner_after.contains(x) {
            let j = choose|j: int|
                0 <= j < n && (#[trigger] child_footprint(nodes, after, fields, table, d1, j)).contains(
                    x,
                );
            if j != k {
                assert(child_footprint(nodes, before, fields, table, d1, j).contains(x));
            } else {
                assert(footprint(nodes, after, fields[k].1, slot_k, d1).contains(x));
            }
        } else {
            assert(own.contains(x));
        }
    }
    assert forall|x: int|
        0 <= x < before.len() && !(slot <= x < slot + 4) && !footprint(
            nodes,
            before,
            schema,
            slot,
            depth,
        ).contains(x) implies #[trigger] after[x] == before[x] by {
        assert(!own.contains(x));
        assert(!changed.contains(x));
        assert(!footprint(nodes, before, fields[k].1, slot_k, d1).contains(x));
    }
    assert forall|x: int| slot <= x < slot + 4 implies !(#[trigger] footprint(
        nodes,
        after,
        schema,
        slot,
        depth,
    ).contains(x)) by {
        assert(!footprint(nodes, before, schema, slot, depth).contains(x));
    }
}


/// Storing the table of a struct that was absent writes the struct anew:
/// its table stands at the end, and its fields are absent.
pub proof fn lemma_table_stored(
    nodes: Seq<SchemaNode>,
    mem: Seq<u8>,
    schema: int,
    slot: int,
    depth: nat,
)
    requires
        depth <= MAX_DEPTH,
        0 <= schema < nodes.len(),
        nodes[schema] is Struct,
        spec_read_address(mem, slot) == Ok::<u32, NP_Error>(0u32),
        mem.len() >= 5,
        allocate_table(mem, slot, nodes[schema]->fields.len()).1 is Ok,
    ensures
        ({
            let after = allocate_table(mem, slot, nodes[schema]->fields.len()).0;
            let n = nodes[schema]->fields.len();
            &&& updated(nodes, mem, after, schema, slot, depth)
            &&& apart(nodes, after, schema, slot, depth)
            &&& spec_read_address(after, slot) == Ok::<u32, NP_Error>(mem.len() as u32)
            &&& after.len() == mem.len() + 4 * n
            &&& after.len() <= MAX_SIZE
            &&& forall|j: int| 0 <= j < n ==> #[trigger] empty_slot(after, mem.len() as int, j)
        }),
{
    let fields = nodes[schema]->fields;
    let n = fields.len();
    let base = mem.len() as int;
    let d1: nat = depth + 1;
    let grown = mem + zero_bytes(4 * n);
    let after = spec_write(grown, slot, le32(base as u32));
    assert(allocate_table(mem, slot, n).0 == after);
    lemma_read_written_address(grown, slot, base as u32);
    assert forall|j: int| 0 <= j < n implies #[trigger] empty_slot(after, base, j) by {
        assert(after.subrange(base + 4 * j, base + 4 * j + 4) =~= seq![0u8, 0u8, 0u8, 0u8]);
    }
    assert forall|j: int| 0 <= j < n implies shaped(
        nodes,
        after,
        (#[trigger] fields[j]).1,
        base + 4 * j,
        d1,
    ) && footprint(nodes, after, fields[j].1, base + 4 * j, d1) == Set::<int>::empty() by {
        assert(empty_slot(after, base, j));
        lemma_absent_footprint(nodes, after, fields[j].1, base + 4 * j, d1);
    }
    assert forall|j: int| 0 <= j < n implies #[trigger] child_footprint(
        nodes,
        after,
        fields,
        base,
        d1,
        j,
    ) == Set::<int>::empty() by {
        let field = fields[j];
    }
    assert(fields_shaped(nodes, after, fields, base, d1));
    lemma_fields_footprint(nodes, after, fields, base, n, d1);
    let own = set_int_range(base, base + 4 * n);
    let inner = fields_footprint(nodes, after, fields, base, n, d1);
    assert(footprint(nodes, after, schema, slot, depth) == own + inner);
    assert forall|x: int| !inner.contains(x) by {
        if inner.contains(x) {
            let j = choose|j: int|
                0 <= j < n && (#[trigger] child_footprint(nodes, after, fields, base, d1, j)).contains(
                    x,
                );
        }
    }
    lemma_absent_footprint(nodes, mem, schema, slot, depth);
    assert forall|x: int|
        0 <= x < mem.len() && !(slot <= x < slot + 4) implies #[trigger] after[x] == mem[x] by {
        assert(grown[x] == mem[x]);
    }
}

/// Clearing a slot writes the value behind it anew: there is none.
pub proof fn lemma_slot_cleared(
    nodes: Seq<SchemaNode>,
    mem: Seq<u8>,
    schema: int,
    slot: int,
    depth: nat,
)
    requires
        in_bounds(mem, slot, 4),
    ensures
        ({
            let after = clear_slot(mem, slot).0;
            &&& updated(nodes, mem, after, schema, slot, depth)
            &&& apart(nodes, after, schema, slot, depth)
            &&& spec_read_address(after, slot) == Ok::<u32, NP_Error>(0u32)
        }),
{
    let after = spec_write(mem, slot, le32(0));
    lemma_read_written_address(mem, slot, 0u32);
    lemma_absent_footprint(nodes, after, schema, slot, depth);
}

/// Writing a string over one that is at least as long writes the value
/// behind its slot anew, and the string is what is read there afterwards.
pub proof fn lemma_string_overwritten(
    nodes: Seq<SchemaNode>,
    mem: Seq<u8>,
    schema: int,
    slot: int,
    depth: nat,
    value: Seq<u8>,
    a: int,
    size: int,
)
    requires
        depth <= MAX_DEPTH,
        0 <= schema < nodes.len(),
        nodes[schema] is String,
        apart(nodes, mem, schema, slot, depth),
        5 <= a,
        a == a as u32,
        spec_read_address(mem, slot) == Ok::<u32, NP_Error>(a as u32),
        spec_read_address(mem, a) == Ok::<u32, NP_Error>(size as u32),
        size == size as u32,
        value.len() <= size,
        value.len() < u32::MAX,
        in_bounds(mem, a + 4, size),
    ensures
        ({
            let after = spec_write(
                spec_write(mem, a, le32(value.len() as u32)),
                a + 4,
                value,
            );
            &&& updated(nodes, mem, after, schema, slot, depth)
            &&& apart(nodes, after, schema, slot, depth)
            &&& terminal_bytes(nodes, after, schema, slot) == Ok::<Option<Seq<u8>>, NP_Error>(
                Some(value),
            )
        }),
{
    let first = spec_write(mem, a, le32(value.len() as u32));
    let after = spec_write(first, a + 4, value);
    lemma_le32_value_of_encoding(value.len() as u32);
    let old_bytes = read_string_at(mem, a)->Ok_0;
    assert(old_bytes.len() == size);
    let taken = set_int_range(a, a + 4 + size);
    assert(footprint(nodes, mem, schema, slot, depth) == taken);
    assert forall|x: int| slot <= x < slot + 4 implies after[x] == mem[x] by {
        assert(!footprint(nodes, mem, schema, slot, depth).contains(x));
        assert(!taken.contains(x));
    }
    lemma_same_address(mem, after, slot);
    assert(after.subrange(a, a + 4) =~= le32(value.len() as u32));
    assert(spec_read_address(after, a) == Ok::<u32, NP_Error>(value.len() as u32));
    assert(after.subrange(a + 4, a + 4 + value.len()) =~= value);
    assert(read_string_at(after, a) == Ok::<Seq<u8>, NP_Error>(value));
    assert(footprint(nodes, after, schema, slot, depth) == set_int_range(a, a + 4 + value.len()));
    assert forall|x: int|
        0 <= x < mem.len() && !(slot <= x < slot + 4) && !footprint(
            nodes,
            mem,
            schema,
            slot,
            depth,
        ).contains(x) implies #[trigger] after[x] == mem[x] by {
        assert(!taken.contains(x));
    }
    assert forall|x: int| #[trigger]
        footprint(nodes, after, schema, slot, depth).contains(x) implies footprint(
        nodes,
        mem,
        schema,
        slot,
        depth,
    ).contains(x) || mem.len() <= x by {
        assert(taken.contains(x));
    }
}

/// Storing a string at the end writes the value behind its slot anew,
/// and the string is what is read there afterwards.
pub proof fn lemma_string_allocated(
    nodes: Seq<SchemaNode>,
    mem: Seq<u8>,
    schema: int,
    slot: int,
    depth: nat,
    value: Seq<u8>,
)
    requires
        depth <= MAX_DEPTH,
        0 <= schema < nodes.len(),
        nodes[schema] is String,
        mem.len() >= 5,
        allocate_string(mem, slot, value).1 is Ok,
    ensures
        ({
            let after = allocate_string(mem, slot, value).0;
            &&& updated(nodes, mem, after, schema, slot, depth)
            &&& apart(nodes, after, schema, slot, depth)
            &&& terminal_bytes(nodes, after, schema, slot) == Ok::<Option<Seq<u8>>, NP_Error>(
                Some(value),
            )
        }),
{
    let base = mem.len() as int;
    let grown = mem + le32(value.len() as u32) + value;
    let after = spec_write(grown, slot, le32(base as u32));
    assert(allocate_string(mem, slot, value).0 == after);
    lemma_le32_value_of_encoding(value.len() as u32);
    lemma_read_written_address(grown, slot, base as u32);
    assert(after.subrange(base, base + 4) =~= le32(value.len() as u32));
    assert(spec_read_address(after, base) == Ok::<u32, NP_Error>(value.len() as u32));
    assert(after.subrange(base + 4, base + 4 + value.len()) =~= value);
    assert(read_string_at(after, base) == Ok::<Seq<u8>, NP_Error>(value));
    assert(footprint(nodes, after, schema, slot, depth) == set_int_range(
        base,
        base + 4 + value.len(),
    ));
    assert forall|x: int|
        0 <= x < mem.len() && !(slot <= x < slot + 4) implies #[trigger] after[x] == mem[x] by {
        assert(grown[x] == mem[x]);
    }
}

/// Writing a string writes the value behind its slot anew, and the string
/// is what is read there afterwards.
pub proof fn lemma_string_written(
    nodes: Seq<SchemaNode>,
    mem: Seq<u8>,
    schema: int,
    slot: int,
    depth: nat,
    value: Seq<u8>,
)
    requires
        depth <= MAX_DEPTH,
        0 <= schema < nodes.len(),
        nodes[schema] is String,
        shaped(nodes, mem, schema, slot, depth),
        apart(nodes, mem, schema, slot, depth),
        mem.len() >= 5,
        write_string(mem, slot, value).1 is Ok,
    ensures
        ({
            let after = write_string(mem, slot, value).0;
            &&& updated(nodes, mem, after, schema, slot, depth)
            &&& apart(nodes, after, schema, slot, depth)
            &&& terminal_bytes(nodes, after, schema, slot) == Ok::<Option<Seq<u8>>, NP_Error>(
                Some(value),
            )
        }),
{
    let address = spec_read_address(mem, slot)->Ok_0;
    if address != 0 && spec_read_address(mem, address as int)->Ok_0 >= value.len() {
        lemma_string_overwritten(
            nodes,
            mem,
            schema,
            slot,
            depth,
            value,
            address as int,
            spec_read_address(mem, address as int)->Ok_0 as int,
        );
    } else {
        lemma_string_allocated(nodes, mem, schema, slot, depth, value);
    }
}

} // verus!
