//! What holds of reading by path: it reads what the value of the buffer
//! holds at that path.

use vstd::prelude::*;
use crate::MAX_DEPTH;
use crate::buffer::reached_bytes;
use crate::compact_laws::lemma_read_fields_index;
use crate::error::NP_Error;
use crate::memory::spec_read_address;
use crate::schema::{find_field, SchemaNode};
use crate::value::{read_fields, read_value, Value};

verus! {

/// The index of the first field from `from` on whose name is `name`.
pub open spec fn find_value_field(
    fields: Seq<(Seq<u8>, Value)>,
    name: Seq<u8>,
    from: int,
) -> Option<int>
    decreases fields.len() - from,
{
    if from < 0 || from >= fields.len() {
        None
    } else if fields[from].0 == name {
        Some(from)
    } else {
        find_value_field(fields, name, from + 1)
    }
}

/// The bytes of the string that a value holds where `path` leads from its
/// `i`-th segment on: each segment names a field of a struct. Nothing
/// where the path meets a value that is absent, names no field, or goes
/// on behind a string; an error where it ends at a struct.
pub open spec fn value_at(v: Value, path: Seq<Seq<u8>>, i: int) -> Result<
    Option<Seq<u8>>,
    NP_Error,
>
    decreases path.len() - i,
{
    match v {
        Value::Absent => Ok(None),
        Value::String(bytes) => if i < 0 || i >= path.len() {
            Ok(Some(bytes))
        } else {
            Ok(None)
        },
        Value::Struct(fields) => if i < 0 || i >= path.len() {
            Err(NP_Error::Encoding)
        } else {
            match find_value_field(fields, path[i], 0) {
                None => Ok(None),
                Some(k) => value_at(fields[k].1, path, i + 1),
            }
        },
    }
}

/// A name is found among the values of fields where it is found among
/// the fields.
pub proof fn lemma_same_find(
    fields: Seq<(Seq<u8>, int)>,
    values: Seq<(Seq<u8>, Value)>,
    name: Seq<u8>,
    from: int,
)
    requires
        fields.len() == values.len(),
        forall|j: int| 0 <= j < fields.len() ==> (#[trigger] values[j]).0 == fields[j].0,
    ensures
        find_value_field(values, name, from) == find_field(fields, name, from),
        find_field(fields, name, from) matches Some(k) ==> 0 <= k < fields.len(),
    decreases fields.len() - from,
{
    if 0 <= from < fields.len() {
        assert(values[from].0 == fields[from].0);
        if fields[from].0 != name {
            lemma_same_find(fields, values, name, from + 1);
        }
    }
}

/// Where the value behind a slot is read without error, following a path
/// from that slot reads what the value holds at the path.
pub proof fn lemma_path_reads_value(
    nodes: Seq<SchemaNode>,
    mem: Seq<u8>,
    schema: int,
    parent: int,
    slot: int,
    path: Seq<Seq<u8>>,
    i: int,
    depth: nat,
)
    requires
        read_value(nodes, mem, schema, slot, depth) is Ok,
    ensures
        reached_bytes(nodes, mem, schema, parent, slot, path, i, depth) == value_at(
            read_value(nodes, mem, schema, slot, depth)->Ok_0,
            path,
            i,
        ),
    decreases MAX_DEPTH + 1 - depth,
{
    match nodes[schema] {
        SchemaNode::Portal { schema: target, parent_schema, .. } => {
            lemma_path_reads_value(nodes, mem, target, parent_schema, slot, path, i, depth + 1);
        },
        SchemaNode::String => {},
        SchemaNode::Struct { fields } => {
            let address = spec_read_address(mem, slot)->Ok_0;
            if address != 0 && 0 <= i < path.len() {
                let n = fields.len();
                let values = read_fields(nodes, mem, fields, address as int, n, depth + 1)->Ok_0;
                lemma_read_fields_index(nodes, mem, fields, address as int, n, depth + 1);
                assert forall|j: int| 0 <= j < n implies (#[trigger] values[j]).0
                    == fields[j].0 by {
                    assert(read_fields(nodes, mem, fields, address as int, n, depth + 1)->Ok_0[j]
                        == values[j]);
                }
                lemma_same_find(fields, values, path[i], 0);
                match find_field(fields, path[i], 0) {
                    Some(k) => {
                        assert(read_fields(nodes, mem, fields, address as int, n, depth + 1)->Ok_0[k]
                            == values[k]);
                        lemma_path_reads_value(
                            nodes,
                            mem,
                            fields[k].1,
                            schema,
                            address + 4 * k,
                            path,
                            i + 1,
                            depth + 1,
                        );
                    },
                    None => {},
                }
            }
        },
    }
}

} // verus!
