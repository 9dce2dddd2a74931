//! What a buffer holds, as a value: the model that reading, sizing,
//! exporting and compacting are stated over.

use vstd::prelude::*;
use crate::MAX_DEPTH;
use crate::error::NP_Error;
use crate::json::JsonValue;
use crate::memory::{in_bounds, spec_read, spec_read_address};
use crate::schema::SchemaNode;

verus! {

/// The value behind a slot. A slot holds the address of its value, or 0
/// where there is none.
pub enum Value {
    /// The slot holds 0.
    Absent,
    /// The bytes of a string.
    String(Seq<u8>),
    /// The fields of a struct, in the schema's order, each with its name.
    Struct(Seq<(Seq<u8>, Value)>),
}

/// The bytes of the string stored at `address`: a length in four bytes,
/// then as many bytes.
pub open spec fn read_string_at(mem: Seq<u8>, address: int) -> Result<Seq<u8>, NP_Error> {
    match spec_read_address(mem, address) {
        Err(e) => Err(e),
        Ok(size) => spec_read(mem, address + 4, size as int),
    }
}

/// The value behind the slot at `slot`, read as the node at `schema` says,
/// `depth` steps from where the traversal began. A portal is read as the
/// node it points at, one step deeper. A struct's fields are read one step
/// deeper, from the table of slots that the struct's address points at.
/// Reading fails with the first error met: past `MAX_DEPTH` steps, or
/// outside the buffer.
pub open spec fn read_value(
    nodes: Seq<SchemaNode>,
    mem: Seq<u8>,
    schema: int,
    slot: int,
    depth: nat,
) -> Result<Value, NP_Error>
    decreases MAX_DEPTH + 1 - depth, 1nat, 0nat,
{
    if depth > MAX_DEPTH {
        Err(NP_Error::RecursionLimit)
    } else if schema < 0 || schema >= nodes.len() {
        Err(NP_Error::Schema)
    } else {
        match nodes[schema] {
            SchemaNode::Portal { schema: target, .. } => read_value(
                nodes,
                mem,
                target,
                slot,
                depth + 1,
            ),
            SchemaNode::String => match spec_read_address(mem, slot) {
                Err(e) => Err(e),
                Ok(address) => if address == 0 {
                    Ok(Value::Absent)
                } else {
                    match read_string_at(mem, address as int) {
                        Err(e) => Err(e),
                        Ok(bytes) => Ok(Value::String(bytes)),
                    }
                },
            },
            SchemaNode::Struct { fields } => match spec_read_address(mem, slot) {
                Err(e) => Err(e),
                Ok(address) => if address == 0 {
                    Ok(Value::Absent)
                } else if !in_bounds(mem, address as int, 4 * (fields.len() as int)) {
                    Err(NP_Error::Address)
                } else {
                    match read_fields(
                        nodes,
                        mem,
                        fields,
                        address as int,
                        fields.len(),
                        depth + 1,
                    ) {
                        Err(e) => Err(e),
                        Ok(values) => Ok(Value::Struct(values)),
                    }
                },
            },
        }
    }
}

/// The values of the first `n` fields of the struct whose table of slots
/// stands at `table`.
pub open spec fn read_fields(
    nodes: Seq<SchemaNode>,
    mem: Seq<u8>,
    fields: Seq<(Seq<u8>, int)>,
    table: int,
    n: nat,
    depth: nat,
) -> Result<Seq<(Seq<u8>, Value)>, NP_Error>
    decreases MAX_DEPTH + 1 - depth, 2nat, n,
{
    if n == 0 {
        Ok(Seq::empty())
    } else if n > fields.len() {
        Err(NP_Error::Schema)
    } else {
        match read_fields(nodes, mem, fields, table, (n - 1) as nat, depth) {
            Err(e) => Err(e),
            Ok(before) => match read_value(
                nodes,
                mem,
                fields[n - 1].1,
                table + 4 * (n - 1),
                depth,
            ) {
                Err(e) => Err(e),
                Ok(value) => Ok(before.push((fields[n - 1].0, value))),
            },
        }
    }
}

/// Where reading the first `n` fields fails, reading more fails alike.
pub proof fn lemma_read_fields_fails(
    nodes: Seq<SchemaNode>,
    mem: Seq<u8>,
    fields: Seq<(Seq<u8>, int)>,
    table: int,
    n: nat,
    m: nat,
    depth: nat,
)
    requires
        read_fields(nodes, mem, fields, table, n, depth) is Err,
        n <= m <= fields.len(),
    ensures
        read_fields(nodes, mem, fields, table, m, depth) == read_fields(
            nodes,
            mem,
            fields,
            table,
            n,
            depth,
        ),
    decreases m,
{
    if n < m {
        lemma_read_fields_fails(nodes, mem, fields, table, n, (m - 1) as nat, depth);
    }
}

/// How many bytes a value takes in a buffer that holds nothing else: a
/// string its length and its bytes, a struct its table of slots and its
/// fields.
pub open spec fn size_of_value(v: Value) -> nat
    decreases v, 0nat,
{
    match v {
        Value::Absent => 0,
        Value::String(bytes) => 4 + bytes.len(),
        Value::Struct(fields) => 4 * fields.len() + size_of_fields(fields, fields.len()),
    }
}

/// How many bytes the values of the first `n` fields take.
pub open spec fn size_of_fields(fields: Seq<(Seq<u8>, Value)>, n: nat) -> nat
    decreases fields, n,
{
    if n == 0 || n > fields.len() {
        0
    } else {
        size_of_fields(fields, (n - 1) as nat) + size_of_value(fields[n - 1].1)
    }
}

/// A value as JSON: null where there is none, a string, or a dictionary
/// of the fields by their names.
pub open spec fn json_of_value(v: Value) -> JsonValue
    decreases v, 0nat,
{
    match v {
        Value::Absent => JsonValue::Null,
        Value::String(bytes) => JsonValue::String(bytes),
        Value::Struct(fields) => JsonValue::Dictionary(json_of_value_fields(fields, fields.len())),
    }
}

/// The first `n` fields as members of a dictionary.
pub open spec fn json_of_value_fields(fields: Seq<(Seq<u8>, Value)>, n: nat) -> Seq<
    (Seq<u8>, JsonValue),
>
    decreases fields, n,
{
    if n == 0 || n > fields.len() {
        Seq::empty()
    } else {
        json_of_value_fields(fields, (n - 1) as nat).push(
            (fields[n - 1].0, json_of_value(fields[n - 1].1)),
        )
    }
}

/// What is computed from the first `n` fields when one more field is put
/// behind them.
pub proof fn lemma_value_fields_push(fields: Seq<(Seq<u8>, Value)>, field: (Seq<u8>, Value))
    ensures
        size_of_fields(fields.push(field), fields.len() + 1) == size_of_fields(
            fields,
            fields.len(),
        ) + size_of_value(field.1),
        json_of_value_fields(fields.push(field), fields.len() + 1) == json_of_value_fields(
            fields,
            fields.len(),
        ).push((field.0, json_of_value(field.1))),
{
    let more = fields.push(field);
    let n = fields.len();
    lemma_value_fields_prefix(fields, more, n);
    assert(more[n as int] == field);
    assert(size_of_fields(more, n + 1) == size_of_fields(more, n) + size_of_value(
        more[n as int].1,
    ));
    assert(json_of_value_fields(more, n + 1) == json_of_value_fields(more, n).push(
        (more[n as int].0, json_of_value(more[n as int].1)),
    ));
}

/// What is computed from the first `n` fields depends on those fields only.
pub proof fn lemma_value_fields_prefix(
    f1: Seq<(Seq<u8>, Value)>,
    f2: Seq<(Seq<u8>, Value)>,
    n: nat,
)
    requires
        n <= f1.len(),
        n <= f2.len(),
        forall|k: int| 0 <= k < n ==> f1[k] == f2[k],
    ensures
        size_of_fields(f1, n) == size_of_fields(f2, n),
        json_of_value_fields(f1, n) == json_of_value_fields(f2, n),
    decreases n,
{
    if n > 0 {
        lemma_value_fields_prefix(f1, f2, (n - 1) as nat);
        assert(size_of_fields(f1, n) == size_of_fields(f1, (n - 1) as nat) + size_of_value(
            f1[n - 1].1,
        ));
        assert(size_of_fields(f2, n) == size_of_fields(f2, (n - 1) as nat) + size_of_value(
            f2[n - 1].1,
        ));
        assert(json_of_value_fields(f1, n) == json_of_value_fields(f1, (n - 1) as nat).push(
            (f1[n - 1].0, json_of_value(f1[n - 1].1)),
        ));
        assert(json_of_value_fields(f2, n) == json_of_value_fields(f2, (n - 1) as nat).push(
            (f2[n - 1].0, json_of_value(f2[n - 1].1)),
        ));
    } else {
        assert(size_of_fields(f1, n) == 0 && size_of_fields(f2, n) == 0);
        assert(json_of_value_fields(f1, n) == Seq::<(Seq<u8>, JsonValue)>::empty());
        assert(json_of_value_fields(f2, n) == Seq::<(Seq<u8>, JsonValue)>::empty());
    }
}

} // verus!
