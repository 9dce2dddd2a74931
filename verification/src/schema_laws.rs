//! What holds of the three forms of a schema: the textual description, the
//! compiled bytes and the registry.

use vstd::prelude::*;
use crate::MAX_DEPTH;
use crate::error::NP_Error;
use crate::json::{find_member, json_member, JsonValue};
use crate::schema::{
    be16, bytes_of_fields, bytes_of_tree, field_addresses, field_json, field_of_json, field_shape,
    fields_count, fields_of_bytes, fields_of_json, is_string_name, json_of_fields,
    json_of_node_fields, json_of_nodes, json_of_tree, key_fields, key_to, key_type,
    lemma_fields_nodes_len, lemma_nodes_len, name_portal, name_str, name_string, name_struct,
    name_utf8, node_count, nodes_of_fields, nodes_of_tree, portal_of_bytes, registry_of_tree,
    resolve_node, resolved, struct_node, struct_of_bytes, struct_of_json, tree_of_bytes,
    resolve_from, tree_of_json, valid_fields, valid_tree, wf_nodes, SchemaNode, SchemaTree,
    MAX_FIELDS, TAG_PORTAL, TAG_STRING, TAG_STRUCT,
};

verus! {

// ---------------------------------------------------------------------
// Textual form
// ---------------------------------------------------------------------
/// The descriptions of the first `n` fields, one by one.
pub proof fn lemma_json_of_fields_index(fields: Seq<(Seq<u8>, SchemaTree)>, n: nat)
    requires
        n <= fields.len(),
    ensures
        json_of_fields(fields, n).len() == n,
        forall|k: int|
            0 <= k < n ==> #[trigger] json_of_fields(fields, n)[k] == field_json(
                fields[k].0,
                json_of_tree(fields[k].1),
            ),
    decreases n,
{
    if n > 0 {
        lemma_json_of_fields_index(fields, (n - 1) as nat);
        assert(json_of_fields(fields, n) == json_of_fields(fields, (n - 1) as nat).push(
            field_json(fields[n - 1].0, json_of_tree(fields[n - 1].1)),
        ));
    } else {
        assert(json_of_fields(fields, n) == Seq::<JsonValue>::empty());
    }
}

/// The words of the textual form differ from one another.
pub proof fn lemma_words_differ()
    ensures
        key_type() != key_fields(),
        key_type() != key_to(),
        key_fields() != key_to(),
        !is_string_name(name_struct()),
        !is_string_name(name_portal()),
        name_struct() != name_portal(),
{
    assert(key_type().len() == 4 && key_fields().len() == 6 && key_to().len() == 2);
    assert(name_struct()[3] != name_string()[3]);
    assert(name_struct().len() != name_str().len());
    assert(name_struct().len() != name_utf8().len());
    assert(name_portal()[0] != name_string()[0]);
    assert(name_portal().len() != name_str().len());
    assert(name_portal().len() != name_utf8().len());
    assert(name_struct()[0] != name_portal()[0]);
}

/// The description that is written for a tree is read as that tree.
pub proof fn lemma_description_reads_back(t: SchemaTree, depth: nat)
    requires
        valid_tree(t, depth),
    ensures
        tree_of_json(json_of_tree(t), depth) == Some(t),
    decreases t, 0nat,
{
    lemma_words_differ();
    reveal_with_fuel(find_member, 3);
    match t {
        SchemaTree::String => {
            let members = seq![(key_type(), JsonValue::String(name_string()))];
            assert(json_of_tree(t) == JsonValue::Dictionary(members));
            assert(members[0].0 == key_type());
            assert(find_member(members, key_type(), 0) == Some(0int));
            assert(json_member(json_of_tree(t), key_type()) == Some(
                JsonValue::String(name_string()),
            ));
        },
        SchemaTree::Portal(path) => {
            let members = seq![
                (key_type(), JsonValue::String(name_portal())),
                (key_to(), JsonValue::String(path)),
            ];
            assert(json_of_tree(t) == JsonValue::Dictionary(members));
            assert(members[0].0 == key_type());
            assert(members[1].0 == key_to());
            assert(find_member(members, key_type(), 0) == Some(0int));
            assert(find_member(members, key_to(), 0) == Some(1int));
            assert(json_member(json_of_tree(t), key_type()) == Some(
                JsonValue::String(name_portal()),
            ));
            assert(json_member(json_of_tree(t), key_to()) == Some(JsonValue::String(path)));
        },
        SchemaTree::Struct(fields) => {
            let items = json_of_fields(fields, fields.len());
            let members = seq![
                (key_type(), JsonValue::String(name_struct())),
                (key_fields(), JsonValue::Array(items)),
            ];
            assert(json_of_tree(t) == JsonValue::Dictionary(members));
            assert(members[0].0 == key_type());
            assert(members[1].0 == key_fields());
            assert(find_member(members, key_type(), 0) == Some(0int));
            assert(find_member(members, key_fields(), 0) == Some(1int));
            assert(json_member(json_of_tree(t), key_type()) == Some(
                JsonValue::String(name_struct()),
            ));
            assert(json_member(json_of_tree(t), key_fields()) == Some(JsonValue::Array(items)));
            lemma_json_of_fields_index(fields, fields.len());
            assert(valid_fields(fields, depth + 1));
            lemma_fields_read_back(fields, fields.len(), depth + 1);
            assert(fields.take(fields.len() as int) =~= fields);
            assert(struct_of_json(json_of_tree(t), depth) == Some(t));
        },
    }
}

/// The descriptions that are written for fields are read as those fields.
pub proof fn lemma_fields_read_back(fields: Seq<(Seq<u8>, SchemaTree)>, n: nat, depth: nat)
    requires
        n <= fields.len(),
        valid_fields(fields, depth),
    ensures
        fields_of_json(json_of_fields(fields, fields.len()), n, depth) == Some(
            fields.take(n as int),
        ),
    decreases fields, n,
{
    let items = json_of_fields(fields, fields.len());
    lemma_json_of_fields_index(fields, fields.len());
    if n > 0 {
        lemma_fields_read_back(fields, (n - 1) as nat, depth);
        let field = fields[n - 1];
        assert(valid_tree(field.1, depth));
        lemma_description_reads_back(field.1, depth);
        let pair = seq![JsonValue::String(field.0), json_of_tree(field.1)];
        assert(items[n - 1] == JsonValue::Array(pair));
        assert(pair[0] == JsonValue::String(field.0) && pair[1] == json_of_tree(field.1));
        assert(field_shape(items[n - 1]) == Some((field.0, json_of_tree(field.1))));
        assert(field_of_json(items[n - 1], depth) == Some(field));
        assert(fields.take(n as int) =~= fields.take(n - 1).push(field));
        assert(fields_of_json(items, n, depth) == Some(fields.take(n as int)));
    } else {
        assert(fields.take(0) =~= Seq::<(Seq<u8>, SchemaTree)>::empty());
        assert(fields_of_json(items, 0, depth) == Some(Seq::<(Seq<u8>, SchemaTree)>::empty()));
    }
}

// ---------------------------------------------------------------------
// Compiled form
// ---------------------------------------------------------------------
/// The compiled form of the first `k` fields starts that of the first `n`.
pub proof fn lemma_bytes_of_fields_grow(fields: Seq<(Seq<u8>, SchemaTree)>, k: nat, n: nat)
    requires
        k <= n <= fields.len(),
    ensures
        bytes_of_fields(fields, k).len() <= bytes_of_fields(fields, n).len(),
        bytes_of_fields(fields, n).subrange(0, bytes_of_fields(fields, k).len() as int)
            == bytes_of_fields(fields, k),
    decreases n,
{
    if k < n {
        lemma_bytes_of_fields_grow(fields, k, (n - 1) as nat);
        assert(bytes_of_fields(fields, n) == bytes_of_fields(fields, (n - 1) as nat) + seq![
            fields[n - 1].0.len() as u8,
        ] + fields[n - 1].0 + bytes_of_tree(fields[n - 1].1));
        assert(bytes_of_fields(fields, n).subrange(0, bytes_of_fields(fields, k).len() as int)
            =~= bytes_of_fields(fields, (n - 1) as nat).subrange(
            0,
            bytes_of_fields(fields, k).len() as int,
        ));
    } else {
        assert(bytes_of_fields(fields, n).subrange(0, bytes_of_fields(fields, n).len() as int)
            =~= bytes_of_fields(fields, n));
    }
}

/// Where the compiled form of a tree stands in some bytes, it is read as
/// that tree.
pub proof fn lemma_compiled_reads_back(t: SchemaTree, depth: nat, b: Seq<u8>, pos: int)
    requires
        valid_tree(t, depth),
        0 <= pos,
        pos + bytes_of_tree(t).len() <= b.len(),
        b.subrange(pos, pos + bytes_of_tree(t).len()) == bytes_of_tree(t),
    ensures
        tree_of_bytes(b, pos, depth) == Some((t, pos + bytes_of_tree(t).len())),
    decreases t, 0nat,
{
    let text = bytes_of_tree(t);
    assert(forall|i: int|
        0 <= i < text.len() ==> b[pos + i] == #[trigger] b.subrange(pos, pos + text.len())[i]);
    assert(forall|i: int| 0 <= i < text.len() ==> b[pos + i] == #[trigger] text[i]);
    match t {
        SchemaTree::String => {
            assert(text[0] == TAG_STRING);
            assert(b[pos] == text[0]);
        },
        SchemaTree::Portal(path) => {
            assert(text =~= seq![TAG_PORTAL] + be16(path.len() as int) + path);
            assert(text[0] == TAG_PORTAL);
            assert(b[pos] == text[0]);
            assert(b[pos + 1] == text[1] && b[pos + 2] == text[2]);
            assert(text[1] == (path.len() as int / 256) as u8);
            assert(text[2] == (path.len() as int % 256) as u8);
            let n = b[pos + 1] as int * 256 + b[pos + 2] as int;
            assert(n == path.len());
            assert(b.subrange(pos + 3, pos + 3 + n) =~= path) by {
                assert forall|i: int| 0 <= i < n implies b[pos + 3 + i] == path[i] by {
                    assert(b[pos + (3 + i)] == text[3 + i]);
                }
            }
            assert(portal_of_bytes(b, pos) == Some((t, pos + 3 + n)));
        },
        SchemaTree::Struct(fields) => {
            let body = bytes_of_fields(fields, fields.len());
            assert(text =~= seq![TAG_STRUCT, fields.len() as u8] + body);
            assert(text[0] == TAG_STRUCT && text[1] == fields.len() as u8);
            assert(b[pos] == text[0] && b[pos + 1] == text[1]);
            assert(b.subrange(pos + 2, pos + 2 + body.len()) =~= body) by {
                assert forall|i: int| 0 <= i < body.len() implies b[pos + 2 + i] == body[i] by {
                    assert(b[pos + (2 + i)] == text[2 + i]);
                }
            }
            assert(valid_fields(fields, depth + 1));
            assert(bytes_of_fields(fields, 0) == Seq::<u8>::empty());
            lemma_fields_compiled_read_back(fields, 0, depth + 1, b, pos + 2);
            assert(fields.take(0) =~= Seq::<(Seq<u8>, SchemaTree)>::empty());
            assert(struct_of_bytes(b, pos, depth) == Some((t, pos + text.len())));
        },
    }
}

/// Where the compiled form of some fields stands in some bytes, what is
/// left of it behind the first `k` fields is read as the fields from the
/// `k`-th on.
pub proof fn lemma_fields_compiled_read_back(
    fields: Seq<(Seq<u8>, SchemaTree)>,
    k: nat,
    depth: nat,
    b: Seq<u8>,
    start: int,
)
    requires
        k <= fields.len(),
        valid_fields(fields, depth),
        0 <= start,
        start + bytes_of_fields(fields, fields.len()).len() <= b.len(),
        b.subrange(start, start + bytes_of_fields(fields, fields.len()).len()) == bytes_of_fields(
            fields,
            fields.len(),
        ),
    ensures
        fields_of_bytes(
            b,
            start + bytes_of_fields(fields, k).len(),
            (fields.len() - k) as nat,
            depth,
            fields.take(k as int),
        ) == Some(
            (SchemaTree::Struct(fields), start + bytes_of_fields(fields, fields.len()).len()),
        ),
    decreases fields, fields.len() - k,
{
    let n = fields.len();
    let all = bytes_of_fields(fields, n);
    let pos = start + bytes_of_fields(fields, k).len();
    if k == n {
        assert(fields.take(k as int) =~= fields);
    } else {
        let field = fields[k as int];
        let next_k = (k + 1) as nat;
        let upto = bytes_of_fields(fields, next_k);
        lemma_bytes_of_fields_grow(fields, next_k, n);
        assert(upto == bytes_of_fields(fields, k) + seq![field.0.len() as u8] + field.0
            + bytes_of_tree(field.1));
        let before = bytes_of_fields(fields, k).len() as int;
        let name_size = field.0.len() as int;
        let child = bytes_of_tree(field.1);
        assert(name_size <= MAX_FIELDS);
        assert(valid_tree(field.1, depth));
        assert forall|i: int| 0 <= i < upto.len() implies b[start + i] == upto[i] by {
            assert(b[start + i] == b.subrange(start, start + all.len())[i]);
            assert(all.subrange(0, upto.len() as int)[i] == all[i]);
        }
        assert(b[pos] == field.0.len() as u8) by {
            assert(b[start + before] == upto[before]);
        }
        assert(b.subrange(pos + 1, pos + 1 + name_size) =~= field.0) by {
            assert forall|i: int| 0 <= i < name_size implies b[pos + 1 + i] == field.0[i] by {
                assert(b[start + (before + 1 + i)] == upto[before + 1 + i]);
            }
        }
        assert(b.subrange(pos + 1 + name_size, pos + 1 + name_size + child.len()) =~= child) by {
            assert forall|i: int| 0 <= i < child.len() implies b[pos + 1 + name_size + i]
                == child[i] by {
                assert(b[start + (before + 1 + name_size + i)] == upto[before + 1 + name_size + i]);
            }
        }
        lemma_compiled_reads_back(field.1, depth, b, pos + 1 + name_size);
        lemma_fields_compiled_read_back(fields, next_k, depth, b, start);
        assert(fields.take(next_k as int) =~= fields.take(k as int).push(field));
        assert(start + upto.len() == pos + 1 + name_size + child.len());
    }
}


/// The tree that is read from compiled bytes keeps the limits of the
/// compiled form, and its form ends inside the bytes.
pub proof fn lemma_tree_of_bytes_valid(b: Seq<u8>, pos: int, depth: nat)
    requires
        tree_of_bytes(b, pos, depth) is Some,
    ensures
        valid_tree(tree_of_bytes(b, pos, depth).unwrap().0, depth),
        pos < tree_of_bytes(b, pos, depth).unwrap().1 <= b.len(),
    decreases MAX_DEPTH + 1 - depth, 1nat, 0nat,
{
    if b[pos] == TAG_STRUCT {
        lemma_fields_of_bytes_valid(
            b,
            pos + 2,
            b[pos + 1] as nat,
            depth + 1,
            Seq::<(Seq<u8>, SchemaTree)>::empty(),
        );
    }
}

/// The struct that is read from the compiled forms of fields holds the
/// fields read before and as many more as were asked for, and these keep
/// the limits of the compiled form.
pub proof fn lemma_fields_of_bytes_valid(
    b: Seq<u8>,
    pos: int,
    remaining: nat,
    depth: nat,
    acc: Seq<(Seq<u8>, SchemaTree)>,
)
    requires
        fields_of_bytes(b, pos, remaining, depth, acc) is Some,
        valid_fields(acc, depth),
        0 <= pos <= b.len(),
    ensures
        fields_of_bytes(b, pos, remaining, depth, acc).unwrap().0 matches SchemaTree::Struct(fields)
            && fields.len() == acc.len() + remaining && valid_fields(fields, depth),
        pos <= fields_of_bytes(b, pos, remaining, depth, acc).unwrap().1 <= b.len(),
    decreases MAX_DEPTH + 1 - depth, 2nat, remaining,
{
    if remaining > 0 {
        let name = b.subrange(pos + 1, pos + 1 + b[pos]);
        lemma_tree_of_bytes_valid(b, pos + 1 + b[pos], depth);
        let found = tree_of_bytes(b, pos + 1 + b[pos], depth)->0;
        let more = acc.push((name, found.0));
        assert forall|i: int| 0 <= i < more.len() implies (#[trigger] more[i]).0.len()
            <= MAX_FIELDS && valid_tree(more[i].1, depth) by {
            if i < acc.len() {
                assert(more[i] == acc[i]);
            }
        }
        lemma_fields_of_bytes_valid(b, found.1, (remaining - 1) as nat, depth, more);
    }
}

// ---------------------------------------------------------------------
// Registry
// ---------------------------------------------------------------------
/// Whether two nodes are described alike: they are of one kind, with the
/// same fields or the same path.
pub open spec fn same_description(a: SchemaNode, b: SchemaNode) -> bool {
    match a {
        SchemaNode::String => b is String,
        SchemaNode::Struct { .. } => b == a,
        SchemaNode::Portal { path, .. } => b is Portal && b->path == path,
    }
}

/// Whether the nodes of a tree stand in a registry from `base` on, with
/// portals resolved or not.
pub open spec fn holds_tree(nodes: Seq<SchemaNode>, t: SchemaTree, base: int) -> bool {
    &&& 0 <= base
    &&& base + node_count(t) <= nodes.len()
    &&& forall|i: int|
        0 <= i < node_count(t) ==> same_description(
            #[trigger] nodes_of_tree(t, base)[i],
            nodes[base + i],
        )
}

/// The nodes of the first `n` fields hold the nodes of each field's tree.
pub proof fn lemma_nodes_of_fields_index(
    fields: Seq<(Seq<u8>, SchemaTree)>,
    n: nat,
    base: int,
    k: int,
    i: int,
)
    requires
        n <= fields.len(),
        0 <= k < n,
        0 <= i < node_count(fields[k].1),
    ensures
        fields_count(fields, k as nat) + i < fields_count(fields, n),
        nodes_of_fields(fields, n, base).len() == fields_count(fields, n),
        nodes_of_fields(fields, n, base)[fields_count(fields, k as nat) + i] == nodes_of_tree(
            fields[k].1,
            base + fields_count(fields, k as nat),
        )[i],
    decreases n,
{
    lemma_fields_nodes_len(fields, n, base);
    lemma_fields_nodes_len(fields, (n - 1) as nat, base);
    lemma_nodes_len(fields[n - 1].1, base + fields_count(fields, (n - 1) as nat));
    assert(fields_count(fields, n) == fields_count(fields, (n - 1) as nat) + node_count(
        fields[n - 1].1,
    ));
    assert(nodes_of_fields(fields, n, base) == nodes_of_fields(fields, (n - 1) as nat, base)
        + nodes_of_tree(fields[n - 1].1, base + fields_count(fields, (n - 1) as nat)));
    if k < n - 1 {
        lemma_nodes_of_fields_index(fields, (n - 1) as nat, base, k, i);
    }
}

/// A registry that holds a struct holds each field's tree at the field's
/// address, which lies behind the struct and inside the struct's nodes.
pub proof fn lemma_holds_field(
    nodes: Seq<SchemaNode>,
    fields: Seq<(Seq<u8>, SchemaTree)>,
    base: int,
    k: int,
)
    requires
        holds_tree(nodes, SchemaTree::Struct(fields), base),
        0 <= k < fields.len(),
    ensures
        holds_tree(nodes, fields[k].1, base + 1 + fields_count(fields, k as nat)),
        base + 1 + fields_count(fields, k as nat) + node_count(fields[k].1) <= base + node_count(
            SchemaTree::Struct(fields),
        ),
{
    let t = SchemaTree::Struct(fields);
    let child = fields[k].1;
    let child_base = base + 1 + fields_count(fields, k as nat);
    lemma_nodes_len(child, child_base);
    lemma_fields_nodes_len(fields, fields.len(), base + 1);
    assert(nodes_of_tree(t, base) == seq![struct_node(fields, base)] + nodes_of_fields(
        fields,
        fields.len(),
        base + 1,
    ));
    lemma_nodes_of_fields_index(fields, fields.len(), base + 1, k, node_count(child) - 1);
    assert(node_count(t) == 1 + fields_count(fields, fields.len()));
    assert forall|i: int| 0 <= i < node_count(child) implies same_description(
        #[trigger] nodes_of_tree(child, child_base)[i],
        nodes[child_base + i],
    ) by {
        lemma_nodes_of_fields_index(fields, fields.len(), base + 1, k, i);
        let j = 1 + fields_count(fields, k as nat) + i;
        assert(nodes_of_tree(t, base)[j] == nodes_of_fields(fields, fields.len(), base + 1)[j - 1]);
        assert(same_description(nodes_of_tree(t, base)[j], nodes[base + j]));
    }
}

/// A registry that holds a tree describes it as the tree's own textual
/// description.
pub proof fn lemma_registry_describes(nodes: Seq<SchemaNode>, t: SchemaTree, base: int)
    requires
        holds_tree(nodes, t, base),
    ensures
        json_of_nodes(nodes, base) == Ok::<JsonValue, NP_Error>(json_of_tree(t)),
    decreases t, 0nat,
{
    lemma_nodes_len(t, base);
    assert(same_description(nodes_of_tree(t, base)[0], nodes[base + 0]));
    match t {
        SchemaTree::Struct(fields) => {
            assert(nodes_of_tree(t, base) == seq![struct_node(fields, base)] + nodes_of_fields(
                fields,
                fields.len(),
                base + 1,
            ));
            assert(nodes[base] == struct_node(fields, base));
            lemma_registry_describes_fields(nodes, fields, base, fields.len());
        },
        _ => {},
    }
}

/// A registry that holds a struct describes its first `n` fields as their
/// own textual descriptions.
pub proof fn lemma_registry_describes_fields(
    nodes: Seq<SchemaNode>,
    fields: Seq<(Seq<u8>, SchemaTree)>,
    base: int,
    n: nat,
)
    requires
        holds_tree(nodes, SchemaTree::Struct(fields), base),
        n <= fields.len(),
    ensures
        json_of_node_fields(nodes, base, field_addresses(fields, base + 1), n) == Ok::<
            Seq<JsonValue>,
            NP_Error,
        >(json_of_fields(fields, n)),
    decreases fields, n,
{
    let addresses = field_addresses(fields, base + 1);
    if n > 0 {
        lemma_registry_describes_fields(nodes, fields, base, (n - 1) as nat);
        lemma_holds_field(nodes, fields, base, n - 1);
        lemma_nodes_len(fields[n - 1].1, 0);
        lemma_registry_describes(
            nodes,
            fields[n - 1].1,
            base + 1 + fields_count(fields, (n - 1) as nat),
        );
        assert(addresses[n - 1] == (
            fields[n - 1].0,
            base + 1 + fields_count(fields, (n - 1) as nat),
        ));
        assert(json_of_fields(fields, n) == json_of_fields(fields, (n - 1) as nat).push(
            field_json(fields[n - 1].0, json_of_tree(fields[n - 1].1)),
        ));
    } else {
        assert(json_of_fields(fields, n) == Seq::<JsonValue>::empty());
    }
}

/// Whether the struct nodes from `from` up to `to` have 1 to 255 fields
/// whose nodes stand behind them and before `to`.
pub open spec fn structs_sound(nodes: Seq<SchemaNode>, from: int, to: int) -> bool {
    forall|a: int|
        from <= a < to ==> (#[trigger] nodes[a] matches SchemaNode::Struct { fields } ==> {
            &&& 1 <= fields.len() <= MAX_FIELDS
            &&& forall|i: int| 0 <= i < fields.len() ==> a < (#[trigger] fields[i]).1 < to
        })
}

/// In a registry that holds a tree within the limits, the struct nodes of
/// the tree are sound.
pub proof fn lemma_structs_sound(nodes: Seq<SchemaNode>, t: SchemaTree, depth: nat, base: int)
    requires
        holds_tree(nodes, t, base),
        valid_tree(t, depth),
    ensures
        structs_sound(nodes, base, base + node_count(t)),
    decreases t, 0nat,
{
    lemma_nodes_len(t, base);
    assert(same_description(nodes_of_tree(t, base)[0], nodes[base + 0]));
    match t {
        SchemaTree::Struct(fields) => {
            assert(nodes_of_tree(t, base) == seq![struct_node(fields, base)] + nodes_of_fields(
                fields,
                fields.len(),
                base + 1,
            ));
            assert(nodes[base] == struct_node(fields, base));
            assert(valid_fields(fields, depth + 1));
            lemma_fields_sound(nodes, fields, depth + 1, base, fields.len());
            let addresses = field_addresses(fields, base + 1);
            assert forall|i: int| 0 <= i < addresses.len() implies base < (
            #[trigger] addresses[i]).1 < base + node_count(t) by {
                lemma_holds_field(nodes, fields, base, i);
                lemma_nodes_len(fields[i].1, 0);
            }
        },
        _ => {},
    }
}

/// In a registry that holds a struct within the limits, the struct nodes
/// of its first `n` fields are sound.
pub proof fn lemma_fields_sound(
    nodes: Seq<SchemaNode>,
    fields: Seq<(Seq<u8>, SchemaTree)>,
    depth: nat,
    base: int,
    n: nat,
)
    requires
        holds_tree(nodes, SchemaTree::Struct(fields), base),
        valid_fields(fields, depth),
        n <= fields.len(),
    ensures
        forall|a: int|
            base + 1 <= a < base + 1 + fields_count(fields, n) ==> (
            #[trigger] nodes[a] matches SchemaNode::Struct { fields: inner } ==> {
                &&& 1 <= inner.len() <= MAX_FIELDS
                &&& forall|i: int|
                    0 <= i < inner.len() ==> a < (#[trigger] inner[i]).1 < base + 1 + fields_count(
                        fields,
                        fields.len(),
                    )
            }),
    decreases fields, n,
{
    if n > 0 {
        lemma_fields_sound(nodes, fields, depth, base, (n - 1) as nat);
        lemma_holds_field(nodes, fields, base, n - 1);
        assert(valid_tree(fields[n - 1].1, depth));
        lemma_structs_sound(
            nodes,
            fields[n - 1].1,
            depth,
            base + 1 + fields_count(fields, (n - 1) as nat),
        );
        assert(fields_count(fields, n) == fields_count(fields, (n - 1) as nat) + node_count(
            fields[n - 1].1,
        ));
    } else {
        assert(fields_count(fields, n) == 0);
    }
}

/// Where a path leads lies inside the registry.
pub proof fn lemma_resolve_in_bounds(
    nodes: Seq<SchemaNode>,
    segments: Seq<Seq<u8>>,
    i: int,
    current: int,
    parent: int,
)
    requires
        resolve_from(nodes, segments, i, current, parent) is Some,
    ensures
        0 <= resolve_from(nodes, segments, i, current, parent).unwrap().0 < nodes.len(),
        0 <= resolve_from(nodes, segments, i, current, parent).unwrap().1 < nodes.len(),
    decreases segments.len() - i,
{
    if 0 <= i < segments.len() {
        match nodes[current] {
            SchemaNode::Struct { fields } => {
                let k = crate::schema::find_field(fields, segments[i], 0)->0;
                lemma_resolve_in_bounds(nodes, segments, i + 1, fields[k].1, current);
            },
            _ => {},
        }
    }
}

/// The registry of a tree within the limits is sound, and it holds the tree.
pub proof fn lemma_registry_sound(t: SchemaTree)
    requires
        valid_tree(t, 0),
        registry_of_tree(t) is Some,
    ensures
        wf_nodes(registry_of_tree(t)->0),
        holds_tree(registry_of_tree(t)->0, t, 0),
{
    let plain = nodes_of_tree(t, 0);
    let nodes = resolved(plain);
    lemma_nodes_len(t, 0);
    assert forall|i: int| 0 <= i < node_count(t) implies same_description(
        #[trigger] nodes_of_tree(t, 0)[i],
        nodes[0 + i],
    ) by {
        assert(resolve_node(plain, plain[i]) is Some);
    }
    lemma_structs_sound(nodes, t, 0, 0);
    assert forall|a: int| 0 <= a < nodes.len() implies match #[trigger] nodes[a] {
        SchemaNode::String => true,
        SchemaNode::Struct { fields } => {
            &&& 1 <= fields.len() <= MAX_FIELDS
            &&& forall|i: int| 0 <= i < fields.len() ==> a < (#[trigger] fields[i]).1 < nodes.len()
        },
        SchemaNode::Portal { schema, parent_schema, .. } => {
            &&& 0 <= schema < nodes.len()
            &&& 0 <= parent_schema < nodes.len()
        },
    } by {
        assert(resolve_node(plain, plain[a]) is Some);
        match plain[a] {
            SchemaNode::Portal { path, .. } => {
                lemma_resolve_in_bounds(plain, crate::bytes::split_path(path), 0, 0, 0);
            },
            _ => {},
        }
    }
}

} // verus!
