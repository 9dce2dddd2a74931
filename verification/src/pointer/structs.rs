//! The struct type: named fields, each with a type of its own.

use vstd::prelude::*;
use crate::MAX_DEPTH;
use crate::bytes::{bytes_append, bytes_copy, copy_range};
use crate::edits::{compact_fields, compact_value, import_fields, import_value};
use crate::memory::NP_Memory;
use crate::pointer::{add_sizes, exported, saturated, sized, NP_Cursor};
use crate::value::{
    json_of_value_fields, lemma_read_fields_fails, lemma_value_fields_push, read_fields,
    size_of_fields, Value,
};
use crate::error::NP_Error;
use crate::json::{JsonValue, NP_JSON};
use crate::schema::{
    bytes_of_fields, bytes_of_tree, field_addresses, field_json, field_of_json, field_shape,
    valid_fields, fields_count, fields_of_bytes, fields_of_json, json_of_node_fields,
    json_of_nodes, lemma_fields_of_json_index, lemma_fields_push, lemma_nodes_len, limited,
    nodes_of_fields, nodes_of_tree, nodes_view, struct_json, struct_node, struct_of_bytes,
    struct_of_json, tree_of_bytes, valid_tree, word_fields, word_struct, word_type,
    NP_Parsed_Schema, NP_Schema, NP_TypeKeys, SchemaNode, SchemaTree, MAX_FIELDS, TAG_STRUCT,
};

verus! {

/// Defines the behavior of the struct type.
pub struct NP_Struct();

impl NP_Struct {
    /// The name and the kind of this type.
    pub fn type_idx() -> (r: (&'static str, NP_TypeKeys))
        ensures
            r.0@ == "struct"@,
            r.1 == NP_TypeKeys::Struct,
    {
        ("struct", NP_TypeKeys::Struct)
    }

    /// The name and the description that a pair of a textual description holds.
    pub fn field_parts(item: &NP_JSON) -> (r: Option<(&Vec<u8>, &NP_JSON)>)
        ensures
            match r {
                Some((name, description)) => field_shape(item@) == Some((name@, description@)),
                None => field_shape(item@) is None,
            },
    {
        proof {
            item.lemma_view();
        }
        match item {
            NP_JSON::Array(pair) => {
                if pair.len() != 2 {
                    return None;
                }
                proof {
                    pair[0].lemma_view();
                }
                match &pair[0] {
                    NP_JSON::String(name) => Some((name, &pair[1])),
                    _ => None,
                }
            },
            _ => None,
        }
    }

    /// The textual description of one field.
    pub fn field_description(name: &[u8], description: NP_JSON) -> (r: NP_JSON)
        ensures
            r@ == field_json(name@, description@),
    {
        let mut pair: Vec<NP_JSON> = Vec::new();
        pair.push(NP_JSON::string_of(bytes_copy(name)));
        pair.push(description);
        proof {
            NP_JSON::lemma_items_view(pair@, pair@.len());
        }
        let r = NP_JSON::array_of(pair);
        assert(r@->Array_0 =~= field_json(name@, description@)->Array_0);
        r
    }

    /// The textual description of a struct whose fields are described by `items`.
    pub fn description(items: Vec<NP_JSON>) -> (r: NP_JSON)
        ensures
            r@ == struct_json(NP_JSON::items_view(items@, items@.len())),
    {
        let mut members: Vec<(Vec<u8>, NP_JSON)> = Vec::new();
        members.push((word_type(), NP_JSON::string_of(word_struct())));
        members.push((word_fields(), NP_JSON::array_of(items)));
        proof {
            NP_JSON::lemma_members_view(members@, members@.len());
        }
        let r = NP_JSON::dictionary_of(members);
        assert(r@->Dictionary_0 =~= struct_json(
            NP_JSON::items_view(items@, items@.len()),
        )->Dictionary_0);
        r
    }

    /// The textual description of the struct at `address`: its type and its
    /// fields, each a pair of its name and its own description. The JSON
    /// null if the node is no struct. Fails when the node of a field does
    /// not stand behind the struct.
    #[verifier::loop_isolation(false)]
    pub fn schema_to_json(schema: &Vec<NP_Parsed_Schema>, address: usize) -> (r: Result<
        NP_JSON,
        NP_Error,
    >)
        requires
            address < schema.len(),
        ensures
            match schema@[address as int]@ {
                SchemaNode::Struct { .. } => match r {
                    Ok(j) => json_of_nodes(nodes_view(schema@), address as int) == Ok::<
                        JsonValue,
                        NP_Error,
                    >(j@),
                    Err(e) => json_of_nodes(nodes_view(schema@), address as int) == Err::<
                        JsonValue,
                        NP_Error,
                    >(e),
                },
                _ => r matches Ok(j) && j@ == JsonValue::Null,
            },
        decreases schema.len() - address, 0nat,
    {
        proof {
            reveal_with_fuel(json_of_node_fields, 2);
        }
        let fields: &Vec<(Vec<u8>, usize)> = match &schema[address] {
            NP_Parsed_Schema::Struct { fields } => fields,
            _ => { return Ok(NP_JSON::Null); },
        };
        let ghost nodes = nodes_view(schema@);
        let ghost views = NP_Parsed_Schema::fields_view(fields@);
        let mut items: Vec<NP_JSON> = Vec::with_capacity(fields.len());
        let mut i: usize = 0;
        assert(NP_JSON::items_view(items@, 0) =~= Seq::<JsonValue>::empty());
        while i < fields.len()
            invariant
                i <= fields.len(),
                address < schema.len(),
                nodes == nodes_view(schema@),
                views == NP_Parsed_Schema::fields_view(fields@),
                items@.len() == i,
                json_of_node_fields(nodes, address as int, views, i as nat) == Ok::<
                    Seq<JsonValue>,
                    NP_Error,
                >(NP_JSON::items_view(items@, items@.len())),
            decreases fields.len() - i,
        {
            let child: usize = fields[i].1;
            if child <= address || child >= schema.len() {
                proof {
                    assert(json_of_node_fields(nodes, address as int, views, (i + 1) as nat)
                        == Err::<Seq<JsonValue>, NP_Error>(NP_Error::Schema));
                    lemma_json_of_node_fields_fails(
                        nodes,
                        address as int,
                        views,
                        (i + 1) as nat,
                        views.len(),
                    );
                }
                return Err(NP_Error::Schema);
            }
            let description: NP_JSON = match NP_Schema::_type_to_json(schema, child) {
                Ok(j) => j,
                Err(e) => {
                    proof {
                        assert(json_of_node_fields(nodes, address as int, views, (i + 1) as nat)
                            == Err::<Seq<JsonValue>, NP_Error>(e));
                        lemma_json_of_node_fields_fails(
                            nodes,
                            address as int,
                            views,
                            (i + 1) as nat,
                            views.len(),
                        );
                    }
                    return Err(e);
                },
            };
            let pair: NP_JSON = NP_Struct::field_description(fields[i].0.as_slice(), description);
            proof {
                NP_JSON::lemma_items_view_push(items@, pair);
            }
            items.push(pair);
            i += 1;
            assert(json_of_node_fields(nodes, address as int, views, i as nat) == Ok::<
                Seq<JsonValue>,
                NP_Error,
            >(NP_JSON::items_view(items@, items@.len())));
        }
        assert(views.len() == i);
        Ok(NP_Struct::description(items))
    }

    /// Adds one field that a pair of a textual description describes: the
    /// nodes of its tree, `depth` structs deep. Gives the field's name and
    /// the compiled form of its tree. Fails when the pair holds no name and
    /// description, the name is longer than 255 bytes, or the description
    /// fails.
    pub fn field_from_json(schema: Vec<NP_Parsed_Schema>, item: &NP_JSON, depth: usize) -> (r:
        Result<(Vec<u8>, Vec<u8>, Vec<NP_Parsed_Schema>), NP_Error>)
        ensures
            match r {
                Ok((name, bytes, nodes)) => {
                    &&& field_of_json(item@, depth as nat) matches Some(field)
                    &&& field.0 == name@
                    &&& name@.len() <= MAX_FIELDS
                    &&& valid_tree(field.1, depth as nat)
                    &&& bytes@ == bytes_of_tree(field.1)
                    &&& nodes_view(nodes@) == nodes_view(schema@) + nodes_of_tree(
                        field.1,
                        schema@.len() as int,
                    )
                },
                Err(e) => e == NP_Error::Schema && !(field_of_json(item@, depth as nat) matches Some(
                    field,
                ) && field.0.len() <= MAX_FIELDS && valid_tree(field.1, depth as nat)),
            },
        decreases MAX_DEPTH + 1 - depth, 2nat,
    {
        let (name, description) = match NP_Struct::field_parts(item) {
            Some(parts) => parts,
            None => { return Err(NP_Error::Schema); },
        };
        if name.len() > MAX_FIELDS {
            return Err(NP_Error::Schema);
        }
        match NP_Schema::from_json(schema, description, depth) {
            Ok((_, bytes, nodes)) => Ok((bytes_copy(name.as_slice()), bytes, nodes)),
            Err(e) => Err(e),
        }
    }

    /// Adds the fields that the pairs of a textual description describe,
    /// one behind the other, to the registry under construction. Gives
    /// their compiled form, and each field's name with the address of its
    /// node.
    pub fn fields_from_json(schema: Vec<NP_Parsed_Schema>, items: &Vec<NP_JSON>, depth: usize) -> (r:
        Result<(Vec<u8>, Vec<(Vec<u8>, usize)>, Vec<NP_Parsed_Schema>), NP_Error>)
        ensures
            match r {
                Ok((bytes, recorded, nodes)) => {
                    let iv = NP_JSON::items_view(items@, items@.len());
                    &&& fields_of_json(iv, iv.len(), depth as nat) matches Some(tf)
                    &&& tf.len() == items@.len()
                    &&& valid_fields(tf, depth as nat)
                    &&& bytes@ == bytes_of_fields(tf, tf.len())
                    &&& nodes_view(nodes@) == nodes_view(schema@) + nodes_of_fields(
                        tf,
                        tf.len(),
                        schema@.len() as int,
                    )
                    &&& NP_Parsed_Schema::fields_view(recorded@) == field_addresses(
                        tf,
                        schema@.len() as int,
                    )
                },
                Err(e) => {
                    let iv = NP_JSON::items_view(items@, items@.len());
                    &&& e == NP_Error::Schema
                    &&& !(fields_of_json(iv, iv.len(), depth as nat) matches Some(tf)
                        && valid_fields(tf, depth as nat))
                },
            },
        decreases MAX_DEPTH + 1 - depth, 3nat,
    {
        let ghost iv: Seq<JsonValue> = NP_JSON::items_view(items@, items@.len());
        let ghost d: nat = depth as nat;
        let ghost before = nodes_view(schema@);
        let ghost base: int = schema@.len() as int;
        proof {
            NP_JSON::lemma_items_view(items@, items@.len());
        }
        let count: usize = items.len();
        let mut schema = schema;
        let mut bytes: Vec<u8> = Vec::new();
        let mut recorded: Vec<(Vec<u8>, usize)> = Vec::with_capacity(count);
        let ghost mut tf: Seq<(Seq<u8>, SchemaTree)> = Seq::empty();
        let mut i: usize = 0;
        assert(bytes@ =~= bytes_of_fields(tf, 0));
        assert(nodes_view(schema@) =~= before + nodes_of_fields(tf, 0, base));
        while i < count
            invariant
                i <= count,
                count == items.len(),
                d == depth as nat,
                iv == NP_JSON::items_view(items@, items@.len()),
                iv.len() == items.len(),
                forall|k: int| 0 <= k < items.len() ==> iv[k] == items@[k]@,
                fields_of_json(iv, i as nat, d) == Some(tf),
                tf.len() == i,
                valid_fields(tf, d),
                bytes@ == bytes_of_fields(tf, i as nat),
                schema@.len() == base + fields_count(tf, i as nat),
                nodes_view(schema@) == before + nodes_of_fields(tf, i as nat, base),
                recorded@.len() == i,
                forall|k: int|
                    0 <= k < i ==> (#[trigger] recorded@[k]).0@ == tf[k].0 && recorded@[k].1 == base
                        + fields_count(tf, k as nat),
            decreases count - i,
        {
            let child_address: usize = schema.len();
            let (name, child_bytes, child_schema) = match NP_Struct::field_from_json(
                schema,
                &items[i],
                depth,
            ) {
                Ok(found) => found,
                Err(_) => {
                    proof {
                        if fields_of_json(iv, iv.len(), d) is Some {
                            lemma_fields_of_json_index(iv, iv.len(), d, i as int);
                            let all = fields_of_json(iv, iv.len(), d)->0;
                            if valid_fields(all, d) {
                                assert(all[i as int].0.len() <= MAX_FIELDS);
                            }
                        }
                    }
                    return Err(NP_Error::Schema);
                },
            };
            schema = child_schema;
            let ghost field = field_of_json(iv[i as int], d)->0;
            let ghost old_tf = tf;
            bytes.push(name.len() as u8);
            bytes_append(&mut bytes, name.as_slice());
            bytes_append(&mut bytes, child_bytes.as_slice());
            recorded.push((name, child_address));
            proof {
                tf = old_tf.push(field);
                lemma_fields_push(old_tf, field, base);
                lemma_nodes_len(field.1, child_address as int);
                assert(fields_of_json(iv, (i + 1) as nat, d) == Some(tf));
                assert(bytes@ =~= bytes_of_fields(tf, (i + 1) as nat));
                assert(nodes_view(schema@) =~= before + nodes_of_fields(tf, (i + 1) as nat, base));
                assert forall|k: int| 0 <= k < tf.len() implies (#[trigger] tf[k]).0.len()
                    <= MAX_FIELDS && valid_tree(tf[k].1, d) by {
                    if k < i {
                        assert(tf[k] == old_tf[k]);
                    }
                }
            }
            i += 1;
        }
        assert(NP_Parsed_Schema::fields_view(recorded@) =~= field_addresses(tf, base));
        Ok((bytes, recorded, schema))
    }

    /// Adds the struct that `json_schema` describes, with the nodes of its
    /// fields behind it, to the registry under construction, and gives its
    /// compiled form. Fails when `fields` is no array of pairs of a name
    /// and a description, when there are no fields or more than 255, when
    /// a name is longer than 255 bytes, or when a field's own description
    /// fails.
    pub fn from_json_to_schema(
        schema: Vec<NP_Parsed_Schema>,
        json_schema: &NP_JSON,
        depth: usize,
    ) -> (r: Result<(bool, Vec<u8>, Vec<NP_Parsed_Schema>), NP_Error>)
        ensures
            match r {
                Ok((sortable, bytes, nodes)) => {
                    &&& !sortable
                    &&& limited(struct_of_json(json_schema@, depth as nat), depth as nat) matches Some(
                        t,
                    )
                    &&& bytes@ == bytes_of_tree(t)
                    &&& nodes_view(nodes@) == nodes_view(schema@) + nodes_of_tree(
                        t,
                        schema@.len() as int,
                    )
                },
                Err(e) => e == NP_Error::Schema && limited(
                    struct_of_json(json_schema@, depth as nat),
                    depth as nat,
                ) is None,
            },
        decreases MAX_DEPTH + 1 - depth, 0nat,
    {
        if depth > MAX_DEPTH {
            return Err(NP_Error::Schema);
        }
        let fields_json: &NP_JSON = match json_schema.get(word_fields().as_slice()) {
            Some(value) => value,
            None => { return Err(NP_Error::Schema); },
        };
        proof {
            fields_json.lemma_view();
        }
        let items: &Vec<NP_JSON> = match fields_json {
            NP_JSON::Array(items) => items,
            _ => { return Err(NP_Error::Schema); },
        };
        let ghost iv: Seq<JsonValue> = NP_JSON::items_view(items@, items@.len());
        let ghost d1: nat = (depth + 1) as nat;
        let count: usize = items.len();
        assert(struct_of_json(json_schema@, depth as nat) == match fields_of_json(
            iv,
            iv.len(),
            d1,
        ) {
            Some(fields) => Some(SchemaTree::Struct(fields)),
            None => None,
        });
        if count == 0 || count > MAX_FIELDS {
            proof {
                if fields_of_json(iv, iv.len(), d1) is Some && count > 0 {
                    lemma_fields_of_json_index(iv, iv.len(), d1, 0);
                }
            }
            return Err(NP_Error::Schema);
        }
        let mut schema = schema;
        let ghost before = nodes_view(schema@);
        let address: usize = schema.len();
        schema.push(NP_Parsed_Schema::Struct { fields: Vec::new() });
        let ghost with_placeholder = nodes_view(schema@);
        assert(with_placeholder.len() == address + 1);
        assert(with_placeholder.subrange(0, address as int) =~= before);
        let (fields_bytes, recorded, filled) = match NP_Struct::fields_from_json(
            schema,
            items,
            depth + 1,
        ) {
            Ok(found) => found,
            Err(_) => { return Err(NP_Error::Schema); },
        };
        let ghost tf = fields_of_json(iv, iv.len(), d1)->0;
        let ghost t = SchemaTree::Struct(tf);
        let mut schema = filled;
        let mut bytes: Vec<u8> = Vec::new();
        bytes.push(TAG_STRUCT);
        bytes.push(count as u8);
        bytes_append(&mut bytes, fields_bytes.as_slice());
        proof {
            assert(valid_tree(t, depth as nat));
            assert(bytes@ =~= bytes_of_tree(t));
        }
        let ghost nodes_then = nodes_view(schema@);
        assert(nodes_then.len() == with_placeholder.len() + nodes_of_fields(
            tf,
            tf.len(),
            address + 1,
        ).len());
        schema[address] = NP_Parsed_Schema::Struct { fields: recorded };
        proof {
            assert(schema@[address as int]@ == struct_node(tf, address as int));
            assert(nodes_view(schema@) =~= nodes_then.update(
                address as int,
                struct_node(tf, address as int),
            ));
            assert(nodes_of_tree(t, address as int) == seq![struct_node(tf, address as int)]
                + nodes_of_fields(tf, tf.len(), address + 1));
            assert(nodes_view(schema@) =~= before + nodes_of_tree(t, address as int));
        }
        Ok((false, bytes, schema))
    }

    /// Adds the struct whose compiled form starts at `address`, with the
    /// nodes of its fields behind it, to the registry under construction,
    /// and gives the position behind it. Fails when the bytes end early,
    /// when the struct has no field, or when a field's own form fails.
    #[verifier::loop_isolation(false)]
    pub fn from_bytes_to_schema(
        schema: Vec<NP_Parsed_Schema>,
        address: usize,
        bytes: &[u8],
        depth: usize,
    ) -> (r: Result<(bool, usize, Vec<NP_Parsed_Schema>), NP_Error>)
        ensures
            match r {
                Ok((sortable, next, nodes)) => {
                    &&& !sortable
                    &&& struct_of_bytes(bytes@, address as int, depth as nat) matches Some((t, end))
                    &&& end == next
                    &&& address < next <= bytes.len()
                    &&& nodes_view(nodes@) == nodes_view(schema@) + nodes_of_tree(
                        t,
                        schema@.len() as int,
                    )
                },
                Err(e) => e == NP_Error::Schema && struct_of_bytes(
                    bytes@,
                    address as int,
                    depth as nat,
                ) is None,
            },
        decreases MAX_DEPTH + 1 - depth, 0nat,
    {
        if depth > MAX_DEPTH || address > bytes.len() || bytes.len() - address < 2 {
            return Err(NP_Error::Schema);
        }
        let count: usize = bytes[address + 1] as usize;
        if count == 0 {
            return Err(NP_Error::Schema);
        }
        let ghost d1: nat = (depth + 1) as nat;
        let mut schema = schema;
        let ghost before = nodes_view(schema@);
        let node_address: usize = schema.len();
        schema.push(NP_Parsed_Schema::Struct { fields: Vec::new() });
        let ghost placeholder = schema@[node_address as int]@;
        let mut recorded: Vec<(Vec<u8>, usize)> = Vec::with_capacity(count);
        let ghost mut tf: Seq<(Seq<u8>, SchemaTree)> = Seq::empty();
        let mut pos: usize = address + 2;
        let mut i: usize = 0;
        assert(nodes_view(schema@) =~= before + seq![placeholder] + nodes_of_fields(
            tf,
            0,
            node_address + 1,
        ));
        while i < count
            invariant
                i <= count,
                address < pos <= bytes.len(),
                fields_of_bytes(bytes@, pos as int, (count - i) as nat, d1, tf) == fields_of_bytes(
                    bytes@,
                    address + 2,
                    count as nat,
                    d1,
                    Seq::empty(),
                ),
                tf.len() == i,
                schema@.len() == node_address + 1 + fields_count(tf, i as nat),
                nodes_view(schema@) == before + seq![placeholder] + nodes_of_fields(
                    tf,
                    i as nat,
                    node_address + 1,
                ),
                recorded@.len() == i,
                forall|k: int|
                    0 <= k < i ==> (#[trigger] recorded@[k]).0@ == tf[k].0 && recorded@[k].1
                        == node_address + 1 + fields_count(tf, k as nat),
            decreases count - i,
        {
            if pos >= bytes.len() {
                return Err(NP_Error::Schema);
            }
            let name_size: usize = bytes[pos] as usize;
            if bytes.len() - pos - 1 < name_size {
                return Err(NP_Error::Schema);
            }
            let name: Vec<u8> = copy_range(bytes, pos + 1, pos + 1 + name_size);
            let child_address: usize = schema.len();
            let (next, child_schema) = match NP_Schema::from_bytes(
                schema,
                pos + 1 + name_size,
                bytes,
                depth + 1,
            ) {
                Ok((_, next, child_schema)) => (next, child_schema),
                Err(_) => { return Err(NP_Error::Schema); },
            };
            schema = child_schema;
            let ghost child_found = tree_of_bytes(bytes@, pos + 1 + name_size, d1)->0;
            let ghost field = (name@, child_found.0);
            let ghost old_tf = tf;
            recorded.push((name, child_address));
            proof {
                tf = old_tf.push(field);
                lemma_fields_push(old_tf, field, node_address + 1);
                lemma_nodes_len(field.1, child_address as int);
                assert(nodes_view(schema@) =~= before + seq![placeholder] + nodes_of_fields(
                    tf,
                    (i + 1) as nat,
                    node_address + 1,
                ));
            }
            pos = next;
            i += 1;
        }
        let ghost t = SchemaTree::Struct(tf);
        let ghost nodes_then = nodes_view(schema@);
        schema[node_address] = NP_Parsed_Schema::Struct { fields: recorded };
        proof {
            assert(NP_Parsed_Schema::fields_view(recorded@) =~= field_addresses(
                tf,
                node_address + 1,
            ));
            assert(schema@[node_address as int]@ == struct_node(tf, node_address as int));
            assert(nodes_view(schema@) =~= nodes_then.update(
                node_address as int,
                struct_node(tf, node_address as int),
            ));
            assert(nodes_of_tree(t, node_address as int) == seq![
                struct_node(tf, node_address as int),
            ] + nodes_of_fields(tf, tf.len(), node_address + 1));
            assert(nodes_view(schema@) =~= before + nodes_of_tree(t, node_address as int));
        }
        Ok((false, pos, schema))
    }
}

/// Where the description of the first `n` fields of a struct fails, that of
/// more fields fails in the same way.
pub proof fn lemma_json_of_node_fields_fails(
    nodes: Seq<SchemaNode>,
    address: int,
    fields: Seq<(Seq<u8>, int)>,
    n: nat,
    m: nat,
)
    requires
        json_of_node_fields(nodes, address, fields, n) is Err,
        n <= m <= fields.len(),
    ensures
        json_of_node_fields(nodes, address, fields, m) == json_of_node_fields(
            nodes,
            address,
            fields,
            n,
        ),
    decreases m,
{
    if n < m {
        lemma_json_of_node_fields_fails(nodes, address, fields, n, (m - 1) as nat);
    }
}


impl NP_Struct {
    /// Exports the struct that `cursor` locates as JSON: a dictionary of
    /// its fields by their names, each exported one step deeper; null
    /// where the slot holds 0. The JSON null if the node at the cursor is
    /// no struct.
    #[verifier::loop_isolation(false)]
    pub fn to_json(depth: usize, cursor: &NP_Cursor, memory: &NP_Memory) -> (r: Result<
        NP_JSON,
        NP_Error,
    >)
        requires
            memory.schema.wf(),
            cursor.schema_addr < memory.schema@.len(),
        ensures
            match memory.schema@[cursor.schema_addr as int] {
                SchemaNode::Struct { .. } => exported(cursor.value(memory, depth as nat), r),
                _ => r matches Ok(j) && j@ == JsonValue::Null,
            },
        decreases MAX_DEPTH + 1 - depth, 0nat,
    {
        let fields: &Vec<(Vec<u8>, usize)> = match &memory.schema.parsed[cursor.schema_addr] {
            NP_Parsed_Schema::Struct { fields } => fields,
            _ => { return Ok(NP_JSON::Null); },
        };
        if depth > MAX_DEPTH {
            return Err(NP_Error::RecursionLimit);
        }
        let address: u32 = match memory.read_address(cursor.buff_addr) {
            Ok(a) => a,
            Err(e) => { return Err(e); },
        };
        if address == 0 {
            return Ok(NP_JSON::Null);
        }
        let table: usize = address as usize;
        let count: usize = fields.len();
        let ghost nodes = memory.schema@;
        let ghost names = NP_Parsed_Schema::fields_view(fields@);
        assert(nodes[cursor.schema_addr as int] == SchemaNode::Struct { fields: names });
        if table > memory.length() || memory.length() - table < 4 * count {
            return Err(NP_Error::Address);
        }
        let ghost d1: nat = (depth + 1) as nat;
        let mut members: Vec<(Vec<u8>, NP_JSON)> = Vec::with_capacity(count);
        let ghost mut values: Seq<(Seq<u8>, Value)> = Seq::empty();
        let mut i: usize = 0;
        assert(NP_JSON::members_view(members@, 0) =~= json_of_value_fields(values, 0));
        while i < count
            invariant
                i <= count,
                values.len() == i,
                members@.len() == i,
                read_fields(nodes, memory@, names, table as int, i as nat, d1) == Ok::<
                    Seq<(Seq<u8>, Value)>,
                    NP_Error,
                >(values),
                NP_JSON::members_view(members@, members@.len()) == json_of_value_fields(
                    values,
                    values.len(),
                ),
            decreases count - i,
        {
            let child = NP_Cursor::new(fields[i].1, cursor.schema_addr, table + 4 * i);
            assert(names[i as int].1 == fields[i as int].1);
            let exported_child: NP_JSON = match NP_Cursor::json_encode(depth + 1, &child, memory) {
                Ok(j) => j,
                Err(e) => {
                    proof {
                        assert(read_fields(nodes, memory@, names, table as int, (i + 1) as nat, d1)
                            == Err::<Seq<(Seq<u8>, Value)>, NP_Error>(e));
                        lemma_read_fields_fails(
                            nodes,
                            memory@,
                            names,
                            table as int,
                            (i + 1) as nat,
                            count as nat,
                            d1,
                        );
                    }
                    return Err(e);
                },
            };
            let ghost child_value = child.value(memory, d1)->Ok_0;
            let member = (bytes_copy(fields[i].0.as_slice()), exported_child);
            proof {
                lemma_value_fields_push(values, (names[i as int].0, child_value));
                NP_JSON::lemma_members_view_push(members@, member);
                values = values.push((names[i as int].0, child_value));
            }
            members.push(member);
            i += 1;
        }
        Ok(NP_JSON::dictionary_of(members))
    }

    /// Computes the size of the struct that `cursor` locates: its table of
    /// slots and the sizes of its fields, each computed one step deeper; 0
    /// where the slot holds 0. Fails if the node at the cursor is no struct.
    #[verifier::loop_isolation(false)]
    pub fn get_size(depth: usize, cursor: &NP_Cursor, memory: &NP_Memory) -> (r: Result<
        usize,
        NP_Error,
    >)
        requires
            memory.schema.wf(),
            cursor.schema_addr < memory.schema@.len(),
        ensures
            match memory.schema@[cursor.schema_addr as int] {
                SchemaNode::Struct { .. } => sized(cursor.value(memory, depth as nat), r),
                _ => r == Err::<usize, NP_Error>(NP_Error::Schema),
            },
        decreases MAX_DEPTH + 1 - depth, 0nat,
    {
        let fields: &Vec<(Vec<u8>, usize)> = match &memory.schema.parsed[cursor.schema_addr] {
            NP_Parsed_Schema::Struct { fields } => fields,
            _ => { return Err(NP_Error::Schema); },
        };
        if depth > MAX_DEPTH {
            return Err(NP_Error::RecursionLimit);
        }
        let address: u32 = match memory.read_address(cursor.buff_addr) {
            Ok(a) => a,
            Err(e) => { return Err(e); },
        };
        if address == 0 {
            return Ok(0);
        }
        let table: usize = address as usize;
        let count: usize = fields.len();
        let ghost nodes = memory.schema@;
        let ghost names = NP_Parsed_Schema::fields_view(fields@);
        assert(nodes[cursor.schema_addr as int] == SchemaNode::Struct { fields: names });
        if table > memory.length() || memory.length() - table < 4 * count {
            return Err(NP_Error::Address);
        }
        let ghost d1: nat = (depth + 1) as nat;
        let mut total: usize = 4 * count;
        let ghost mut values: Seq<(Seq<u8>, Value)> = Seq::empty();
        let mut i: usize = 0;
        assert(size_of_fields(values, 0) == 0);
        while i < count
            invariant
                i <= count,
                values.len() == i,
                read_fields(nodes, memory@, names, table as int, i as nat, d1) == Ok::<
                    Seq<(Seq<u8>, Value)>,
                    NP_Error,
                >(values),
                total == saturated(4 * count + size_of_fields(values, values.len())),
            decreases count - i,
        {
            let child = NP_Cursor::new(fields[i].1, cursor.schema_addr, table + 4 * i);
            assert(names[i as int].1 == fields[i as int].1);
            let child_size: usize = match NP_Cursor::calc_size(depth + 1, &child, memory) {
                Ok(n) => n,
                Err(e) => {
                    proof {
                        assert(read_fields(nodes, memory@, names, table as int, (i + 1) as nat, d1)
                            == Err::<Seq<(Seq<u8>, Value)>, NP_Error>(e));
                        lemma_read_fields_fails(
                            nodes,
                            memory@,
                            names,
                            table as int,
                            (i + 1) as nat,
                            count as nat,
                            d1,
                        );
                    }
                    return Err(e);
                },
            };
            let ghost child_value = child.value(memory, d1)->Ok_0;
            proof {
                lemma_value_fields_push(values, (names[i as int].0, child_value));
                values = values.push((names[i as int].0, child_value));
            }
            total = add_sizes(total, child_size);
            i += 1;
        }
        Ok(total)
    }
}


impl NP_Struct {
    /// Imports a JSON value into the struct that `cursor` locates. A
    /// dictionary is taken field by field: the struct is stored first
    /// where it is absent, and each field takes the member of its name,
    /// if there is one, one step deeper. A null clears the slot where
    /// nulls are to be applied. Anything else is refused. Nothing is done
    /// if the node at the cursor is no struct.
    #[verifier::loop_isolation(false)]
    pub fn set_from_json(
        depth: usize,
        apply_null: bool,
        cursor: NP_Cursor,
        memory: &mut NP_Memory,
        value: &NP_JSON,
    ) -> (r: Result<(), NP_Error>)
        requires
            old(memory).schema.wf(),
            cursor.schema_addr < old(memory).schema@.len(),
        ensures
            final(memory).schema == old(memory).schema,
            match old(memory).schema@[cursor.schema_addr as int] {
                SchemaNode::Struct { .. } => {
                    let done = import_value(
                        old(memory).schema@,
                        old(memory)@,
                        cursor.schema_addr as int,
                        cursor.buff_addr as int,
                        depth as nat,
                        apply_null,
                        value@,
                    );
                    final(memory)@ == done.0 && r == done.1
                },
                _ => final(memory)@ == old(memory)@ && r == Ok::<(), NP_Error>(()),
            },
        decreases MAX_DEPTH + 1 - depth, 0nat,
    {
        let schema = memory.schema;
        let fields: &Vec<(Vec<u8>, usize)> = match &schema.parsed[cursor.schema_addr] {
            NP_Parsed_Schema::Struct { fields } => fields,
            _ => { return Ok(()); },
        };
        if depth > MAX_DEPTH {
            return Err(NP_Error::RecursionLimit);
        }
        proof {
            value.lemma_view();
        }
        let ghost nodes = schema@;
        let ghost names = NP_Parsed_Schema::fields_view(fields@);
        assert(nodes[cursor.schema_addr as int] == SchemaNode::Struct { fields: names });
        match value {
            NP_JSON::Dictionary(members) => {
                let address: u32 = match memory.read_address(cursor.buff_addr) {
                    Ok(a) => a,
                    Err(e) => { return Err(e); },
                };
                let count: usize = fields.len();
                let table: usize = if address == 0 {
                    match memory.store_table(cursor.buff_addr, count) {
                        Ok(t) => t,
                        Err(e) => { return Err(e); },
                    }
                } else {
                    let t: usize = address as usize;
                    if t > memory.length() || memory.length() - t < 4 * count {
                        return Err(NP_Error::Address);
                    }
                    t
                };
                let ghost start = memory@;
                let ghost mv = NP_JSON::members_view(members@, members@.len());
                let ghost d1: nat = (depth + 1) as nat;
                assert(table + 4 * count <= usize::MAX) by {
                    let total: usize = memory.bytes.len();
                }
                let mut i: usize = 0;
                while i < count
                    invariant
                        i <= count,
                        memory.schema == schema,
                        table + 4 * count <= usize::MAX,
                        import_fields(
                            nodes,
                            memory@,
                            names,
                            table as int,
                            i as nat,
                            d1,
                            apply_null,
                            mv,
                        ) == import_fields(nodes, start, names, table as int, 0, d1, apply_null, mv),
                    decreases count - i,
                {
                    assert(names[i as int] == (fields@[i as int].0@, fields@[i as int].1 as int));
                    match value.get(fields[i].0.as_slice()) {
                        None => {},
                        Some(member) => {
                            let child = NP_Cursor::new(
                                fields[i].1,
                                cursor.schema_addr,
                                table + 4 * i,
                            );
                            match NP_Cursor::set_from_json(
                                depth + 1,
                                apply_null,
                                child,
                                memory,
                                member,
                            ) {
                                Ok(_) => {},
                                Err(e) => { return Err(e); },
                            }
                        },
                    }
                    i += 1;
                }
                Ok(())
            },
            NP_JSON::Null => {
                if apply_null {
                    memory.clear(cursor.buff_addr)
                } else {
                    Ok(())
                }
            },
            _ => Err(NP_Error::Encoding),
        }
    }

    /// Copies the struct that `from_cursor` locates to the end of
    /// `to_memory` and points the slot of `to_cursor` there: a new table
    /// first, then the fields one after the other, each copied one step
    /// deeper into its slot of the new table. Nothing is written where
    /// there is no struct. Fails if the node at the cursor is no struct.
    #[verifier::loop_isolation(false)]
    pub fn do_compact(
        depth: usize,
        from_cursor: NP_Cursor,
        from_memory: &NP_Memory,
        to_cursor: NP_Cursor,
        to_memory: &mut NP_Memory,
    ) -> (r: Result<NP_Cursor, NP_Error>)
        requires
            from_memory.schema.wf(),
            from_cursor.schema_addr < from_memory.schema@.len(),
        ensures
            final(to_memory).schema == old(to_memory).schema,
            match from_memory.schema@[from_cursor.schema_addr as int] {
                SchemaNode::Struct { .. } => {
                    let done = compact_value(
                        from_memory.schema@,
                        from_memory@,
                        from_cursor.schema_addr as int,
                        from_cursor.buff_addr as int,
                        depth as nat,
                        old(to_memory)@,
                        to_cursor.buff_addr as int,
                    );
                    final(to_memory)@ == done.0 && match done.1 {
                        Ok(_) => r == Ok::<NP_Cursor, NP_Error>(to_cursor),
                        Err(e) => r == Err::<NP_Cursor, NP_Error>(e),
                    }
                },
                _ => final(to_memory)@ == old(to_memory)@ && r == Err::<NP_Cursor, NP_Error>(
                    NP_Error::Schema,
                ),
            },
        decreases MAX_DEPTH + 1 - depth, 0nat,
    {
        let fields: &Vec<(Vec<u8>, usize)> = match &from_memory.schema.parsed[from_cursor.schema_addr] {
            NP_Parsed_Schema::Struct { fields } => fields,
            _ => { return Err(NP_Error::Schema); },
        };
        if depth > MAX_DEPTH {
            return Err(NP_Error::RecursionLimit);
        }
        let ghost nodes = from_memory.schema@;
        let ghost names = NP_Parsed_Schema::fields_view(fields@);
        assert(nodes[from_cursor.schema_addr as int] == SchemaNode::Struct { fields: names });
        let address: u32 = match from_memory.read_address(from_cursor.buff_addr) {
            Ok(a) => a,
            Err(e) => { return Err(e); },
        };
        if address == 0 {
            return Ok(to_cursor);
        }
        let from_table: usize = address as usize;
        let count: usize = fields.len();
        if from_table > from_memory.length() || from_memory.length() - from_table < 4 * count {
            return Err(NP_Error::Address);
        }
        let to_schema = to_memory.schema;
        let to_table: usize = match to_memory.store_table(to_cursor.buff_addr, count) {
            Ok(t) => t,
            Err(e) => { return Err(e); },
        };
        let ghost start = to_memory@;
        let ghost d1: nat = (depth + 1) as nat;
        assert(to_table + 4 * count <= usize::MAX);
        let mut i: usize = 0;
        while i < count
            invariant
                i <= count,
                to_memory.schema == to_schema,
                compact_fields(
                    nodes,
                    from_memory@,
                    names,
                    from_table as int,
                    i as nat,
                    d1,
                    to_memory@,
                    to_table as int,
                ) == compact_fields(
                    nodes,
                    from_memory@,
                    names,
                    from_table as int,
                    0,
                    d1,
                    start,
                    to_table as int,
                ),
            decreases count - i,
        {
            assert(names[i as int] == (fields@[i as int].0@, fields@[i as int].1 as int));
            let from_child = NP_Cursor::new(
                fields[i].1,
                from_cursor.schema_addr,
                from_table + 4 * i,
            );
            let to_child = NP_Cursor::new(fields[i].1, to_cursor.schema_addr, to_table + 4 * i);
            match NP_Cursor::compact(depth + 1, from_child, from_memory, to_child, to_memory) {
                Ok(_) => {},
                Err(e) => { return Err(e); },
            }
            i += 1;
        }
        Ok(to_cursor)
    }
}

} // verus!
