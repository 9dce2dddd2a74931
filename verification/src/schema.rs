//! The schema registry: a flat sequence of nodes, each reached by its
//! address, built once from a textual or a compiled description.
//!
//! A description is a tree. The registry lays the tree out in the order in
//! which its nodes are met: a node first, then the nodes of its fields, one
//! field after the other. A portal names another node by a path from the
//! root; once the registry is built, the path is resolved to that node's
//! address, so that the registry stays flat while the types it describes
//! may refer to themselves.

use vstd::prelude::*;
use crate::MAX_DEPTH;
use crate::bytes::split_path;
use crate::error::NP_Error;
use crate::bytes::{bytes_copy, bytes_equal};
use crate::json::{json_member, JsonValue, NP_JSON};

verus! {

/// The tag that starts a string node in a compiled schema.
pub const TAG_STRING: u8 = 2;

/// The tag that starts a struct node in a compiled schema.
pub const TAG_STRUCT: u8 = 21;

/// The tag that starts a portal node in a compiled schema.
pub const TAG_PORTAL: u8 = 26;

/// The most fields a struct may have, and the most bytes a field's name may have.
pub const MAX_FIELDS: usize = 255;

/// The most bytes a portal's path may have.
pub const MAX_PATH: usize = 65535;

/// The kinds of schema nodes.
#[derive(Clone, Copy, Debug, PartialEq, Eq, Structural)]
pub enum NP_TypeKeys {
    String,
    Struct,
    Portal,
}

/// A description of a type, as a tree.
pub enum SchemaTree {
    String,
    /// The fields in their order, each with its name.
    Struct(Seq<(Seq<u8>, SchemaTree)>),
    /// The dot-separated path to another node, from the root.
    Portal(Seq<u8>),
}

/// The mathematical value of a node of the registry.
pub enum SchemaNode {
    String,
    /// The fields in their order, each with its name and its node's address.
    Struct { fields: Seq<(Seq<u8>, int)> },
    /// The path, and the addresses it resolves to: the target and the
    /// struct that holds the target.
    Portal { path: Seq<u8>, schema: int, parent_schema: int },
}

/// A node of the registry.
#[derive(Debug, PartialEq, Eq)]
pub enum NP_Parsed_Schema {
    String,
    Struct { fields: Vec<(Vec<u8>, usize)> },
    Portal { path: Vec<u8>, schema: usize, parent_schema: usize },
}

impl NP_Parsed_Schema {
    /// The names and addresses of a struct's fields.
    pub open spec fn fields_view(fields: Seq<(Vec<u8>, usize)>) -> Seq<(Seq<u8>, int)> {
        Seq::new(fields.len(), |i: int| (fields[i].0@, fields[i].1 as int))
    }
}

impl View for NP_Parsed_Schema {
    type V = SchemaNode;

    open spec fn view(&self) -> SchemaNode {
        match self {
            NP_Parsed_Schema::String => SchemaNode::String,
            NP_Parsed_Schema::Struct { fields } => SchemaNode::Struct {
                fields: NP_Parsed_Schema::fields_view(fields@),
            },
            NP_Parsed_Schema::Portal { path, schema, parent_schema } => SchemaNode::Portal {
                path: path@,
                schema: *schema as int,
                parent_schema: *parent_schema as int,
            },
        }
    }
}

/// The values of a vector of nodes.
pub open spec fn nodes_view(nodes: Seq<NP_Parsed_Schema>) -> Seq<SchemaNode> {
    Seq::new(nodes.len(), |i: int| nodes[i]@)
}

// ---------------------------------------------------------------------
// Words of the textual form
// ---------------------------------------------------------------------
/// The key `type`.
pub open spec fn key_type() -> Seq<u8> {
    seq![0x74u8, 0x79u8, 0x70u8, 0x65u8]
}

/// The key `fields`.
pub open spec fn key_fields() -> Seq<u8> {
    seq![0x66u8, 0x69u8, 0x65u8, 0x6cu8, 0x64u8, 0x73u8]
}

/// The key `to`.
pub open spec fn key_to() -> Seq<u8> {
    seq![0x74u8, 0x6fu8]
}

/// The type name `string`.
pub open spec fn name_string() -> Seq<u8> {
    seq![0x73u8, 0x74u8, 0x72u8, 0x69u8, 0x6eu8, 0x67u8]
}

/// The type name `str`, which also means a string.
pub open spec fn name_str() -> Seq<u8> {
    seq![0x73u8, 0x74u8, 0x72u8]
}

/// The type name `utf8`, which also means a string.
pub open spec fn name_utf8() -> Seq<u8> {
    seq![0x75u8, 0x74u8, 0x66u8, 0x38u8]
}

/// The type name `struct`.
pub open spec fn name_struct() -> Seq<u8> {
    seq![0x73u8, 0x74u8, 0x72u8, 0x75u8, 0x63u8, 0x74u8]
}

/// The type name `portal`.
pub open spec fn name_portal() -> Seq<u8> {
    seq![0x70u8, 0x6fu8, 0x72u8, 0x74u8, 0x61u8, 0x6cu8]
}

/// Whether a type name means a string.
pub open spec fn is_string_name(name: Seq<u8>) -> bool {
    name == name_string() || name == name_str() || name == name_utf8()
}

// ---------------------------------------------------------------------
// Textual form to tree
// ---------------------------------------------------------------------
/// The portal that a textual description stands for: `to` must be a string.
pub open spec fn portal_of_json(j: JsonValue) -> Option<SchemaTree> {
    match json_member(j, key_to()) {
        Some(JsonValue::String(path)) => Some(SchemaTree::Portal(path)),
        _ => None,
    }
}

/// The struct that a textual description stands for, where it stands `depth`
/// structs deep: `fields` must be an array of pairs of a name and a
/// description.
pub open spec fn struct_of_json(j: JsonValue, depth: nat) -> Option<SchemaTree>
    decreases MAX_DEPTH + 1 - depth, 0nat, 0nat,
{
    if depth > MAX_DEPTH {
        None
    } else {
        match json_member(j, key_fields()) {
            Some(JsonValue::Array(items)) => match fields_of_json(items, items.len(), depth + 1) {
                Some(fields) => Some(SchemaTree::Struct(fields)),
                None => None,
            },
            _ => None,
        }
    }
}

/// The tree that a textual description stands for, where it stands `depth`
/// structs deep. A description is a dictionary with a string `type`, which
/// names a string, a struct or a portal. Members that the type does not ask
/// for are passed over. There is no tree where a member that it asks for is
/// missing or the nesting passes `MAX_DEPTH`.
pub open spec fn tree_of_json(j: JsonValue, depth: nat) -> Option<SchemaTree>
    decreases MAX_DEPTH + 1 - depth, 1nat, 0nat,
{
    if depth > MAX_DEPTH {
        None
    } else {
        match json_member(j, key_type()) {
            Some(JsonValue::String(name)) => {
                if is_string_name(name) {
                    Some(SchemaTree::String)
                } else if name == name_struct() {
                    struct_of_json(j, depth)
                } else if name == name_portal() {
                    portal_of_json(j)
                } else {
                    None
                }
            },
            _ => None,
        }
    }
}

/// The name and the description that a pair holds.
pub open spec fn field_shape(item: JsonValue) -> Option<(Seq<u8>, JsonValue)> {
    match item {
        JsonValue::Array(pair) => {
            if pair.len() == 2 {
                match pair[0] {
                    JsonValue::String(name) => Some((name, pair[1])),
                    _ => None,
                }
            } else {
                None
            }
        },
        _ => None,
    }
}

/// The name and tree of one field of a textual description.
pub open spec fn field_of_json(item: JsonValue, depth: nat) -> Option<(Seq<u8>, SchemaTree)>
    decreases MAX_DEPTH + 1 - depth, 2nat, 0nat,
{
    match field_shape(item) {
        Some((name, description)) => match tree_of_json(description, depth) {
            Some(tree) => Some((name, tree)),
            None => None,
        },
        None => None,
    }
}

/// The names and trees of the first `n` fields of a textual description.
pub open spec fn fields_of_json(items: Seq<JsonValue>, n: nat, depth: nat) -> Option<
    Seq<(Seq<u8>, SchemaTree)>,
>
    decreases MAX_DEPTH + 1 - depth, 3nat, n,
{
    if n == 0 {
        Some(Seq::empty())
    } else if n > items.len() {
        None
    } else {
        match fields_of_json(items, (n - 1) as nat, depth) {
            None => None,
            Some(before) => match field_of_json(items[n - 1], depth) {
                Some(field) => Some(before.push(field)),
                None => None,
            },
        }
    }
}

/// Whether a tree that stands `depth` structs deep keeps the limits of the
/// compiled form: a struct has 1 to 255 fields, a field's name at most 255
/// bytes, a portal's path at most 65535 bytes, and the nesting does not
/// pass `MAX_DEPTH`.
pub open spec fn valid_tree(t: SchemaTree, depth: nat) -> bool
    decreases MAX_DEPTH + 1 - depth,
{
    if depth > MAX_DEPTH {
        false
    } else {
        match t {
            SchemaTree::String => true,
            SchemaTree::Portal(path) => path.len() <= MAX_PATH,
            SchemaTree::Struct(fields) => {
                &&& 1 <= fields.len() <= MAX_FIELDS
                &&& forall|i: int|
                    0 <= i < fields.len() ==> (#[trigger] fields[i]).0.len() <= MAX_FIELDS
                        && valid_tree(fields[i].1, depth + 1)
            },
        }
    }
}

// ---------------------------------------------------------------------
// Tree to textual form
// ---------------------------------------------------------------------
/// The textual description of a string.
pub open spec fn string_json() -> JsonValue {
    JsonValue::Dictionary(seq![(key_type(), JsonValue::String(name_string()))])
}

/// The textual description of a portal.
pub open spec fn portal_json(path: Seq<u8>) -> JsonValue {
    JsonValue::Dictionary(
        seq![
            (key_type(), JsonValue::String(name_portal())),
            (key_to(), JsonValue::String(path)),
        ],
    )
}

/// The textual description of a struct whose fields are described by `items`.
pub open spec fn struct_json(items: Seq<JsonValue>) -> JsonValue {
    JsonValue::Dictionary(
        seq![
            (key_type(), JsonValue::String(name_struct())),
            (key_fields(), JsonValue::Array(items)),
        ],
    )
}

/// The textual description of one field.
pub open spec fn field_json(name: Seq<u8>, description: JsonValue) -> JsonValue {
    JsonValue::Array(seq![JsonValue::String(name), description])
}

/// The textual description of a tree: `type` first, then `fields` or `to`,
/// and nothing else.
pub open spec fn json_of_tree(t: SchemaTree) -> JsonValue
    decreases t, 0nat,
{
    match t {
        SchemaTree::String => string_json(),
        SchemaTree::Portal(path) => portal_json(path),
        SchemaTree::Struct(fields) => struct_json(json_of_fields(fields, fields.len())),
    }
}

/// The textual descriptions of the first `n` fields.
pub open spec fn json_of_fields(fields: Seq<(Seq<u8>, SchemaTree)>, n: nat) -> Seq<JsonValue>
    decreases fields, n,
{
    if n == 0 || n > fields.len() {
        Seq::empty()
    } else {
        json_of_fields(fields, (n - 1) as nat).push(
            field_json(fields[n - 1].0, json_of_tree(fields[n - 1].1)),
        )
    }
}

// ---------------------------------------------------------------------
// Tree to compiled form and back
// ---------------------------------------------------------------------
/// The two bytes that store `x`, most significant first.
pub open spec fn be16(x: int) -> Seq<u8> {
    seq![(x / 256) as u8, (x % 256) as u8]
}

/// The compiled form of a tree: the nodes in the order in which they are
/// met, each led by its tag. A portal's tag is followed by the length of
/// its path in two bytes, most significant first, and by the path. A
/// struct's tag is followed by the number of its fields in one byte, and
/// for each field by the length of its name in one byte, the name, and the
/// field's own compiled form.
pub open spec fn bytes_of_tree(t: SchemaTree) -> Seq<u8>
    decreases t, 0nat,
{
    match t {
        SchemaTree::String => seq![TAG_STRING],
        SchemaTree::Portal(path) => seq![TAG_PORTAL] + be16(path.len() as int) + path,
        SchemaTree::Struct(fields) => seq![TAG_STRUCT, fields.len() as u8] + bytes_of_fields(
            fields,
            fields.len(),
        ),
    }
}

/// The compiled form of the first `n` fields.
pub open spec fn bytes_of_fields(fields: Seq<(Seq<u8>, SchemaTree)>, n: nat) -> Seq<u8>
    decreases fields, n,
{
    if n == 0 || n > fields.len() {
        Seq::empty()
    } else {
        bytes_of_fields(fields, (n - 1) as nat) + seq![fields[n - 1].0.len() as u8] + fields[n
            - 1].0 + bytes_of_tree(fields[n - 1].1)
    }
}

/// The portal whose compiled form starts at `pos`, and the position behind it.
pub open spec fn portal_of_bytes(b: Seq<u8>, pos: int) -> Option<(SchemaTree, int)> {
    if 0 <= pos && pos + 3 <= b.len() {
        let n = b[pos + 1] as int * 256 + b[pos + 2] as int;
        if pos + 3 + n <= b.len() {
            Some((SchemaTree::Portal(b.subrange(pos + 3, pos + 3 + n)), pos + 3 + n))
        } else {
            None
        }
    } else {
        None
    }
}

/// The struct whose compiled form starts at `pos`, where it stands `depth`
/// structs deep, and the position behind it.
pub open spec fn struct_of_bytes(b: Seq<u8>, pos: int, depth: nat) -> Option<(SchemaTree, int)>
    decreases MAX_DEPTH + 1 - depth, 0nat, 0nat,
{
    if depth <= MAX_DEPTH && 0 <= pos && pos + 2 <= b.len() && b[pos + 1] > 0 {
        fields_of_bytes(b, pos + 2, b[pos + 1] as nat, depth + 1, Seq::empty())
    } else {
        None
    }
}

/// The tree whose compiled form starts at `pos`, where it stands `depth`
/// structs deep, and the position behind it.
pub open spec fn tree_of_bytes(b: Seq<u8>, pos: int, depth: nat) -> Option<(SchemaTree, int)>
    decreases MAX_DEPTH + 1 - depth, 1nat, 0nat,
{
    if depth > MAX_DEPTH || pos < 0 || pos >= b.len() {
        None
    } else if b[pos] == TAG_STRING {
        Some((SchemaTree::String, pos + 1))
    } else if b[pos] == TAG_PORTAL {
        portal_of_bytes(b, pos)
    } else if b[pos] == TAG_STRUCT {
        struct_of_bytes(b, pos, depth)
    } else {
        None
    }
}

/// The fields whose compiled forms start at `pos`, `remaining` of them,
/// behind those in `acc`, as a struct, and the position behind them.
pub open spec fn fields_of_bytes(
    b: Seq<u8>,
    pos: int,
    remaining: nat,
    depth: nat,
    acc: Seq<(Seq<u8>, SchemaTree)>,
) -> Option<(SchemaTree, int)>
    decreases MAX_DEPTH + 1 - depth, 2nat, remaining,
{
    if remaining == 0 {
        Some((SchemaTree::Struct(acc), pos))
    } else if pos < 0 || pos >= b.len() || pos + 1 + b[pos] > b.len() {
        None
    } else {
        let name = b.subrange(pos + 1, pos + 1 + b[pos]);
        match tree_of_bytes(b, pos + 1 + b[pos], depth) {
            None => None,
            Some((tree, next)) => fields_of_bytes(
                b,
                next,
                (remaining - 1) as nat,
                depth,
                acc.push((name, tree)),
            ),
        }
    }
}

// ---------------------------------------------------------------------
// Tree to registry
// ---------------------------------------------------------------------
/// How many nodes a tree takes in the registry.
pub open spec fn node_count(t: SchemaTree) -> nat
    decreases t, 0nat,
{
    match t {
        SchemaTree::String => 1,
        SchemaTree::Portal(_) => 1,
        SchemaTree::Struct(fields) => 1 + fields_count(fields, fields.len()),
    }
}

/// How many nodes the first `n` fields take in the registry.
pub open spec fn fields_count(fields: Seq<(Seq<u8>, SchemaTree)>, n: nat) -> nat
    decreases fields, n,
{
    if n == 0 || n > fields.len() {
        0
    } else {
        fields_count(fields, (n - 1) as nat) + node_count(fields[n - 1].1)
    }
}

/// Each field's name with the address of the field's node, where the node
/// of the first field stands at `base`.
pub open spec fn field_addresses(fields: Seq<(Seq<u8>, SchemaTree)>, base: int) -> Seq<
    (Seq<u8>, int),
> {
    Seq::new(fields.len(), |i: int| (fields[i].0, base + fields_count(fields, i as nat)))
}

/// The node of a struct that stands at `base`: the nodes of its fields
/// follow it.
pub open spec fn struct_node(fields: Seq<(Seq<u8>, SchemaTree)>, base: int) -> SchemaNode {
    SchemaNode::Struct { fields: field_addresses(fields, base + 1) }
}

/// Whether the fields of a struct that stands `depth - 1` structs deep keep
/// the limits of the compiled form.
pub open spec fn valid_fields(fields: Seq<(Seq<u8>, SchemaTree)>, depth: nat) -> bool {
    forall|i: int|
        0 <= i < fields.len() ==> (#[trigger] fields[i]).0.len() <= MAX_FIELDS && valid_tree(
            fields[i].1,
            depth,
        )
}

/// The nodes of a tree whose first node stands at `base`. Portals are not
/// resolved yet: their addresses are 0.
pub open spec fn nodes_of_tree(t: SchemaTree, base: int) -> Seq<SchemaNode>
    decreases t, 0nat,
{
    match t {
        SchemaTree::String => seq![SchemaNode::String],
        SchemaTree::Portal(path) => seq![SchemaNode::Portal { path, schema: 0, parent_schema: 0 }],
        SchemaTree::Struct(fields) => seq![struct_node(fields, base)] + nodes_of_fields(
            fields,
            fields.len(),
            base + 1,
        ),
    }
}

/// The nodes of the first `n` fields, the first of which stands at `base`.
pub open spec fn nodes_of_fields(fields: Seq<(Seq<u8>, SchemaTree)>, n: nat, base: int) -> Seq<
    SchemaNode,
>
    decreases fields, n,
{
    if n == 0 || n > fields.len() {
        Seq::empty()
    } else {
        nodes_of_fields(fields, (n - 1) as nat, base) + nodes_of_tree(
            fields[n - 1].1,
            base + fields_count(fields, (n - 1) as nat),
        )
    }
}

// ---------------------------------------------------------------------
// Registry to textual form
// ---------------------------------------------------------------------
/// The textual description of the node at `address`. The nodes of a
/// struct's fields must stand behind the struct.
pub open spec fn json_of_nodes(nodes: Seq<SchemaNode>, address: int) -> Result<JsonValue, NP_Error>
    decreases nodes.len() - address, 1nat, 0nat,
{
    if address < 0 || address >= nodes.len() {
        Err(NP_Error::Schema)
    } else {
        match nodes[address] {
            SchemaNode::String => Ok(string_json()),
            SchemaNode::Portal { path, .. } => Ok(portal_json(path)),
            SchemaNode::Struct { fields } => match json_of_node_fields(
                nodes,
                address,
                fields,
                fields.len(),
            ) {
                Ok(items) => Ok(struct_json(items)),
                Err(e) => Err(e),
            },
        }
    }
}

/// The textual descriptions of the first `n` fields of the struct at `address`.
pub open spec fn json_of_node_fields(
    nodes: Seq<SchemaNode>,
    address: int,
    fields: Seq<(Seq<u8>, int)>,
    n: nat,
) -> Result<Seq<JsonValue>, NP_Error>
    decreases nodes.len() - address, 0nat, n,
{
    if n == 0 {
        Ok(Seq::empty())
    } else if n > fields.len() {
        Err(NP_Error::Schema)
    } else {
        match json_of_node_fields(nodes, address, fields, (n - 1) as nat) {
            Err(e) => Err(e),
            Ok(before) => {
                let child = fields[n - 1].1;
                if child <= address || child >= nodes.len() {
                    Err(NP_Error::Schema)
                } else {
                    match json_of_nodes(nodes, child) {
                        Err(e) => Err(e),
                        Ok(description) => Ok(before.push(field_json(fields[n - 1].0, description))),
                    }
                }
            },
        }
    }
}


// ---------------------------------------------------------------------
// Portal resolution
// ---------------------------------------------------------------------
/// The index of the first field from `from` on whose name is `name`.
pub open spec fn find_field(fields: Seq<(Seq<u8>, int)>, name: Seq<u8>, from: int) -> Option<int>
    decreases fields.len() - from,
{
    if from < 0 || from >= fields.len() {
        None
    } else if fields[from].0 == name {
        Some(from)
    } else {
        find_field(fields, name, from + 1)
    }
}

/// Where the segments from the `i`-th on lead, starting at the node
/// `current`, which the struct `parent` holds: the address of the node
/// reached and of the struct that holds it. Each segment names a field of
/// the struct reached so far.
pub open spec fn resolve_from(
    nodes: Seq<SchemaNode>,
    segments: Seq<Seq<u8>>,
    i: int,
    current: int,
    parent: int,
) -> Option<(int, int)>
    decreases segments.len() - i,
{
    if current < 0 || current >= nodes.len() || parent < 0 || parent >= nodes.len() {
        None
    } else if i < 0 || i >= segments.len() {
        Some((current, parent))
    } else {
        match nodes[current] {
            SchemaNode::Struct { fields } => match find_field(fields, segments[i], 0) {
                Some(k) => resolve_from(nodes, segments, i + 1, fields[k].1, current),
                None => None,
            },
            _ => None,
        }
    }
}

/// Where a portal's path leads: the path is taken from the root, and the
/// empty path is the root itself.
pub open spec fn resolve_path(nodes: Seq<SchemaNode>, path: Seq<u8>) -> Option<(int, int)> {
    resolve_from(nodes, split_path(path), 0, 0, 0)
}

/// A node with its portal resolved, if it is one.
pub open spec fn resolve_node(nodes: Seq<SchemaNode>, node: SchemaNode) -> Option<SchemaNode> {
    match node {
        SchemaNode::Portal { path, .. } => match resolve_path(nodes, path) {
            Some((target, parent)) => Some(
                SchemaNode::Portal { path, schema: target, parent_schema: parent },
            ),
            None => None,
        },
        _ => Some(node),
    }
}

/// Whether the path of every portal leads to a node.
pub open spec fn resolvable(nodes: Seq<SchemaNode>) -> bool {
    forall|k: int| 0 <= k < nodes.len() ==> resolve_node(nodes, #[trigger] nodes[k]) is Some
}

/// The registry with every portal resolved.
pub open spec fn resolved(nodes: Seq<SchemaNode>) -> Seq<SchemaNode> {
    Seq::new(nodes.len(), |k: int| resolve_node(nodes, nodes[k])->0)
}

/// Whether a registry is sound: it has a root, the nodes of a struct's
/// fields stand behind the struct, and every portal points at nodes of
/// this registry.
pub open spec fn wf_nodes(nodes: Seq<SchemaNode>) -> bool {
    &&& nodes.len() > 0
    &&& forall|a: int|
        0 <= a < nodes.len() ==> match #[trigger] nodes[a] {
            SchemaNode::String => true,
            SchemaNode::Struct { fields } => {
                &&& 1 <= fields.len() <= MAX_FIELDS
                &&& forall|i: int|
                    0 <= i < fields.len() ==> a < (#[trigger] fields[i]).1 < nodes.len()
            },
            SchemaNode::Portal { schema, parent_schema, .. } => {
                &&& 0 <= schema < nodes.len()
                &&& 0 <= parent_schema < nodes.len()
            },
        }
}

/// The registry that a tree gives, if its portals can be resolved.
pub open spec fn registry_of_tree(t: SchemaTree) -> Option<Seq<SchemaNode>> {
    if resolvable(nodes_of_tree(t, 0)) {
        Some(resolved(nodes_of_tree(t, 0)))
    } else {
        None
    }
}


/// A tree, if there is one and it keeps the limits of the compiled form.
pub open spec fn limited(t: Option<SchemaTree>, depth: nat) -> Option<SchemaTree> {
    match t {
        Some(t) => if valid_tree(t, depth) {
            Some(t)
        } else {
            None
        },
        None => None,
    }
}

/// The tree that a textual description stands for, if it keeps the limits
/// of the compiled form.
pub open spec fn described_tree(j: JsonValue, depth: nat) -> Option<SchemaTree> {
    limited(tree_of_json(j, depth), depth)
}

// ---------------------------------------------------------------------
// Facts about the functions over the first fields
// ---------------------------------------------------------------------
/// What is computed from the first `n` fields depends on those fields only.
pub proof fn lemma_fields_prefix(
    f1: Seq<(Seq<u8>, SchemaTree)>,
    f2: Seq<(Seq<u8>, SchemaTree)>,
    n: nat,
    base: int,
)
    requires
        n <= f1.len(),
        n <= f2.len(),
        forall|k: int| 0 <= k < n ==> f1[k] == f2[k],
    ensures
        fields_count(f1, n) == fields_count(f2, n),
        bytes_of_fields(f1, n) == bytes_of_fields(f2, n),
        nodes_of_fields(f1, n, base) == nodes_of_fields(f2, n, base),
        json_of_fields(f1, n) == json_of_fields(f2, n),
    decreases n,
{
    if n > 0 {
        lemma_fields_prefix(f1, f2, (n - 1) as nat, base);
        assert(fields_count(f1, n) == fields_count(f1, (n - 1) as nat) + node_count(f1[n - 1].1));
        assert(fields_count(f2, n) == fields_count(f2, (n - 1) as nat) + node_count(f2[n - 1].1));
        assert(bytes_of_fields(f1, n) == bytes_of_fields(f1, (n - 1) as nat) + seq![
            f1[n - 1].0.len() as u8,
        ] + f1[n - 1].0 + bytes_of_tree(f1[n - 1].1));
        assert(bytes_of_fields(f2, n) == bytes_of_fields(f2, (n - 1) as nat) + seq![
            f2[n - 1].0.len() as u8,
        ] + f2[n - 1].0 + bytes_of_tree(f2[n - 1].1));
        assert(nodes_of_fields(f1, n, base) == nodes_of_fields(f1, (n - 1) as nat, base)
            + nodes_of_tree(f1[n - 1].1, base + fields_count(f1, (n - 1) as nat)));
        assert(nodes_of_fields(f2, n, base) == nodes_of_fields(f2, (n - 1) as nat, base)
            + nodes_of_tree(f2[n - 1].1, base + fields_count(f2, (n - 1) as nat)));
        assert(json_of_fields(f1, n) == json_of_fields(f1, (n - 1) as nat).push(
            field_json(f1[n - 1].0, json_of_tree(f1[n - 1].1)),
        ));
        assert(json_of_fields(f2, n) == json_of_fields(f2, (n - 1) as nat).push(
            field_json(f2[n - 1].0, json_of_tree(f2[n - 1].1)),
        ));
    } else {
        assert(fields_count(f1, n) == 0 && fields_count(f2, n) == 0);
        assert(bytes_of_fields(f1, n) == Seq::<u8>::empty());
        assert(bytes_of_fields(f2, n) == Seq::<u8>::empty());
        assert(nodes_of_fields(f1, n, base) == Seq::<SchemaNode>::empty());
        assert(nodes_of_fields(f2, n, base) == Seq::<SchemaNode>::empty());
        assert(json_of_fields(f1, n) == Seq::<JsonValue>::empty());
        assert(json_of_fields(f2, n) == Seq::<JsonValue>::empty());
    }
}

/// What is computed from the fields when one more field is put behind them.
pub proof fn lemma_fields_push(
    fields: Seq<(Seq<u8>, SchemaTree)>,
    field: (Seq<u8>, SchemaTree),
    base: int,
)
    ensures
        forall|k: nat|
            k <= fields.len() ==> #[trigger] fields_count(fields.push(field), k) == fields_count(
                fields,
                k,
            ),
        fields_count(fields.push(field), fields.len() + 1) == fields_count(fields, fields.len())
            + node_count(field.1),
        bytes_of_fields(fields.push(field), fields.len() + 1) == bytes_of_fields(
            fields,
            fields.len(),
        ) + seq![field.0.len() as u8] + field.0 + bytes_of_tree(field.1),
        nodes_of_fields(fields.push(field), fields.len() + 1, base) == nodes_of_fields(
            fields,
            fields.len(),
            base,
        ) + nodes_of_tree(field.1, base + fields_count(fields, fields.len())),
        json_of_fields(fields.push(field), fields.len() + 1) == json_of_fields(
            fields,
            fields.len(),
        ).push(field_json(field.0, json_of_tree(field.1))),
{
    let more = fields.push(field);
    let n = fields.len();
    assert forall|k: nat| k <= fields.len() implies #[trigger] fields_count(more, k)
        == fields_count(fields, k) by {
        lemma_fields_prefix(fields, more, k, base);
    }
    lemma_fields_prefix(fields, more, n, base);
    assert(more[n as int] == field);
    assert(fields_count(more, n + 1) == fields_count(more, n) + node_count(more[n as int].1));
    assert(bytes_of_fields(more, n + 1) == bytes_of_fields(more, n) + seq![
        more[n as int].0.len() as u8,
    ] + more[n as int].0 + bytes_of_tree(more[n as int].1));
    assert(nodes_of_fields(more, n + 1, base) == nodes_of_fields(more, n, base) + nodes_of_tree(
        more[n as int].1,
        base + fields_count(more, n),
    ));
    assert(json_of_fields(more, n + 1) == json_of_fields(more, n).push(
        field_json(more[n as int].0, json_of_tree(more[n as int].1)),
    ));
}

/// A tree takes as many nodes as `node_count` says.
pub proof fn lemma_nodes_len(t: SchemaTree, base: int)
    ensures
        nodes_of_tree(t, base).len() == node_count(t),
        node_count(t) >= 1,
    decreases t, 0nat,
{
    match t {
        SchemaTree::Struct(fields) => {
            lemma_fields_nodes_len(fields, fields.len(), base + 1);
        },
        _ => {},
    }
}

/// The first `n` fields take as many nodes as `fields_count` says.
pub proof fn lemma_fields_nodes_len(fields: Seq<(Seq<u8>, SchemaTree)>, n: nat, base: int)
    requires
        n <= fields.len(),
    ensures
        nodes_of_fields(fields, n, base).len() == fields_count(fields, n),
        n > 0 ==> fields_count(fields, n) > fields_count(fields, (n - 1) as nat),
    decreases fields, n,
{
    if n > 0 {
        lemma_fields_nodes_len(fields, (n - 1) as nat, base);
        lemma_nodes_len(fields[n - 1].1, base + fields_count(fields, (n - 1) as nat));
        assert(fields_count(fields, n) == fields_count(fields, (n - 1) as nat) + node_count(
            fields[n - 1].1,
        ));
        assert(nodes_of_fields(fields, n, base) == nodes_of_fields(fields, (n - 1) as nat, base)
            + nodes_of_tree(fields[n - 1].1, base + fields_count(fields, (n - 1) as nat)));
    } else {
        assert(nodes_of_fields(fields, n, base) == Seq::<SchemaNode>::empty());
        assert(fields_count(fields, n) == 0);
    }
}

/// Where the first `n` items describe fields, each of them describes its own.
pub proof fn lemma_fields_of_json_index(items: Seq<JsonValue>, n: nat, depth: nat, k: int)
    requires
        fields_of_json(items, n, depth) is Some,
        0 <= k < n,
    ensures
        n <= items.len(),
        fields_of_json(items, n, depth)->0.len() == n,
        field_of_json(items[k], depth) == Some(fields_of_json(items, n, depth)->0[k]),
    decreases n,
{
    if k < n - 1 {
        lemma_fields_of_json_index(items, (n - 1) as nat, depth, k);
    } else if n > 1 {
        lemma_fields_of_json_index(items, (n - 1) as nat, depth, k - 1);
    }
}

// ---------------------------------------------------------------------
// The words of the textual form, as bytes
// ---------------------------------------------------------------------
/// The key `type`.
pub fn word_type() -> (r: Vec<u8>)
    ensures
        r@ == key_type(),
{
    let r: Vec<u8> = vec![0x74u8, 0x79u8, 0x70u8, 0x65u8];
    assert(r@ =~= key_type());
    r
}

/// The key `fields`.
pub fn word_fields() -> (r: Vec<u8>)
    ensures
        r@ == key_fields(),
{
    let r: Vec<u8> = vec![0x66u8, 0x69u8, 0x65u8, 0x6cu8, 0x64u8, 0x73u8];
    assert(r@ =~= key_fields());
    r
}

/// The key `to`.
pub fn word_to() -> (r: Vec<u8>)
    ensures
        r@ == key_to(),
{
    let r: Vec<u8> = vec![0x74u8, 0x6fu8];
    assert(r@ =~= key_to());
    r
}

/// The type name `string`.
pub fn word_string() -> (r: Vec<u8>)
    ensures
        r@ == name_string(),
{
    let r: Vec<u8> = vec![0x73u8, 0x74u8, 0x72u8, 0x69u8, 0x6eu8, 0x67u8];
    assert(r@ =~= name_string());
    r
}

/// The type name `str`.
pub fn word_str() -> (r: Vec<u8>)
    ensures
        r@ == name_str(),
{
    let r: Vec<u8> = vec![0x73u8, 0x74u8, 0x72u8];
    assert(r@ =~= name_str());
    r
}

/// The type name `utf8`.
pub fn word_utf8() -> (r: Vec<u8>)
    ensures
        r@ == name_utf8(),
{
    let r: Vec<u8> = vec![0x75u8, 0x74u8, 0x66u8, 0x38u8];
    assert(r@ =~= name_utf8());
    r
}

/// The type name `struct`.
pub fn word_struct() -> (r: Vec<u8>)
    ensures
        r@ == name_struct(),
{
    let r: Vec<u8> = vec![0x73u8, 0x74u8, 0x72u8, 0x75u8, 0x63u8, 0x74u8];
    assert(r@ =~= name_struct());
    r
}

/// The type name `portal`.
pub fn word_portal() -> (r: Vec<u8>)
    ensures
        r@ == name_portal(),
{
    let r: Vec<u8> = vec![0x70u8, 0x6fu8, 0x72u8, 0x74u8, 0x61u8, 0x6cu8];
    assert(r@ =~= name_portal());
    r
}


// ---------------------------------------------------------------------
// The registry
// ---------------------------------------------------------------------
/// The schema registry: the nodes of a schema, each at its address. The
/// root stands at address 0.
#[derive(Debug, PartialEq, Eq)]
pub struct NP_Schema {
    pub parsed: Vec<NP_Parsed_Schema>,
}

impl View for NP_Schema {
    type V = Seq<SchemaNode>;

    open spec fn view(&self) -> Seq<SchemaNode> {
        nodes_view(self.parsed@)
    }
}

impl NP_Schema {
    /// Whether this registry is sound.
    pub open spec fn wf(&self) -> bool {
        wf_nodes(self@)
    }

    /// Checks whether this registry is sound. One that a factory built
    /// always is.
    pub fn is_sound(&self) -> (r: bool)
        ensures
            r == self.wf(),
    {
        let count: usize = self.parsed.len();
        if count == 0 {
            return false;
        }
        let ghost nodes = self@;
        let mut address: usize = 0;
        while address < count
            invariant
                address <= count,
                count == self.parsed.len(),
                nodes == self@,
                forall|a: int|
                    0 <= a < address ==> match #[trigger] nodes[a] {
                        SchemaNode::String => true,
                        SchemaNode::Struct { fields } => {
                            &&& 1 <= fields.len() <= MAX_FIELDS
                            &&& forall|i: int|
                                0 <= i < fields.len() ==> a < (#[trigger] fields[i]).1
                                    < nodes.len()
                        },
                        SchemaNode::Portal { schema, parent_schema, .. } => {
                            &&& 0 <= schema < nodes.len()
                            &&& 0 <= parent_schema < nodes.len()
                        },
                    },
            decreases count - address,
        {
            match &self.parsed[address] {
                NP_Parsed_Schema::String => {},
                NP_Parsed_Schema::Struct { fields } => {
                    if fields.len() == 0 || fields.len() > MAX_FIELDS {
                        assert(nodes[address as int] is Struct);
                        return false;
                    }
                    let ghost names = NP_Parsed_Schema::fields_view(fields@);
                    let mut i: usize = 0;
                    while i < fields.len()
                        invariant
                            i <= fields.len(),
                            address < count,
                            count == self.parsed.len(),
                            nodes == self@,
                            names == NP_Parsed_Schema::fields_view(fields@),
                            nodes[address as int] == (SchemaNode::Struct { fields: names }),
                            forall|k: int|
                                0 <= k < i ==> address < (#[trigger] names[k]).1 < nodes.len(),
                        decreases fields.len() - i,
                    {
                        if fields[i].1 <= address || fields[i].1 >= count {
                            assert(names[i as int].1 == fields@[i as int].1);
                            return false;
                        }
                        i += 1;
                    }
                },
                NP_Parsed_Schema::Portal { schema, parent_schema, .. } => {
                    if *schema >= count || *parent_schema >= count {
                        assert(nodes[address as int] is Portal);
                        return false;
                    }
                },
            }
            address += 1;
        }
        true
    }
}

/// The index of the first of `fields` whose name is `name`.
pub fn find_field_index(fields: &Vec<(Vec<u8>, usize)>, name: &[u8]) -> (r: Option<usize>)
    ensures
        match r {
            Some(k) => find_field(NP_Parsed_Schema::fields_view(fields@), name@, 0) == Some(
                k as int,
            ) && k < fields.len(),
            None => find_field(NP_Parsed_Schema::fields_view(fields@), name@, 0) is None,
        },
{
    let ghost views = NP_Parsed_Schema::fields_view(fields@);
    let mut i: usize = 0;
    while i < fields.len()
        invariant
            i <= fields.len(),
            views == NP_Parsed_Schema::fields_view(fields@),
            find_field(views, name@, i as int) == find_field(views, name@, 0),
        decreases fields.len() - i,
    {
        if bytes_equal(fields[i].0.as_slice(), name) {
            return Some(i);
        }
        i += 1;
    }
    None
}

/// A copy of the names and addresses of a struct's fields.
pub fn copy_fields(fields: &Vec<(Vec<u8>, usize)>) -> (r: Vec<(Vec<u8>, usize)>)
    ensures
        NP_Parsed_Schema::fields_view(r@) == NP_Parsed_Schema::fields_view(fields@),
{
    let mut out: Vec<(Vec<u8>, usize)> = Vec::with_capacity(fields.len());
    let mut i: usize = 0;
    while i < fields.len()
        invariant
            i <= fields.len(),
            out@.len() == i,
            forall|k: int| 0 <= k < i ==> out@[k].0@ == fields@[k].0@ && out@[k].1 == fields@[k].1,
        decreases fields.len() - i,
    {
        out.push((bytes_copy(fields[i].0.as_slice()), fields[i].1));
        i += 1;
    }
    assert(NP_Parsed_Schema::fields_view(out@) =~= NP_Parsed_Schema::fields_view(fields@));
    out
}

/// Follows a portal's path from the root. Returns the address of the node
/// it leads to and of the struct that holds that node.
pub fn resolve_portal_path(nodes: &Vec<NP_Parsed_Schema>, path: &[u8]) -> (r: Option<
    (usize, usize),
>)
    ensures
        match r {
            Some((target, parent)) => resolve_path(nodes_view(nodes@), path@) == Some(
                (target as int, parent as int),
            ) && target < nodes.len() && parent < nodes.len(),
            None => resolve_path(nodes_view(nodes@), path@) is None,
        },
{
    let segments: Vec<Vec<u8>> = crate::bytes::split_dots(path);
    let ghost views = nodes_view(nodes@);
    let ghost names = crate::bytes::segments_view(segments@);
    let mut current: usize = 0;
    let mut parent: usize = 0;
    let mut i: usize = 0;
    loop
        invariant
            i <= segments.len(),
            views == nodes_view(nodes@),
            names == crate::bytes::segments_view(segments@),
            names == split_path(path@),
            resolve_from(views, names, i as int, current as int, parent as int) == resolve_path(
                views,
                path@,
            ),
        decreases segments.len() - i,
    {
        if current >= nodes.len() || parent >= nodes.len() {
            return None;
        }
        if i >= segments.len() {
            return Some((current, parent));
        }
        match &nodes[current] {
            NP_Parsed_Schema::Struct { fields } => {
                match find_field_index(fields, segments[i].as_slice()) {
                    Some(k) => {
                        parent = current;
                        current = fields[k].1;
                        i += 1;
                    },
                    None => {
                        return None;
                    },
                }
            },
            _ => {
                return None;
            },
        }
    }
}

impl NP_Schema {
    /// Resolves every portal of a registry that was just built: each
    /// portal's path is followed from the root, and the addresses it leads
    /// to are stored in the portal. Fails when a path leads nowhere.
    pub fn resolve_portals(schema: Vec<NP_Parsed_Schema>) -> (r: Result<
        Vec<NP_Parsed_Schema>,
        NP_Error,
    >)
        ensures
            match r {
                Ok(nodes) => resolvable(nodes_view(schema@)) && nodes_view(nodes@) == resolved(
                    nodes_view(schema@),
                ),
                Err(e) => e == NP_Error::Schema && !resolvable(nodes_view(schema@)),
            },
    {
        let ghost views = nodes_view(schema@);
        let mut out: Vec<NP_Parsed_Schema> = Vec::with_capacity(schema.len());
        let mut k: usize = 0;
        while k < schema.len()
            invariant
                k <= schema.len(),
                views == nodes_view(schema@),
                out@.len() == k,
                forall|m: int| 0 <= m < k ==> resolve_node(views, views[m]) == Some(out@[m]@),
            decreases schema.len() - k,
        {
            match &schema[k] {
                NP_Parsed_Schema::String => {
                    out.push(NP_Parsed_Schema::String);
                },
                NP_Parsed_Schema::Struct { fields } => {
                    out.push(NP_Parsed_Schema::Struct { fields: copy_fields(fields) });
                },
                NP_Parsed_Schema::Portal { path, .. } => {
                    match resolve_portal_path(&schema, path.as_slice()) {
                        Some((target, parent)) => {
                            out.push(
                                NP_Parsed_Schema::Portal {
                                    path: bytes_copy(path.as_slice()),
                                    schema: target,
                                    parent_schema: parent,
                                },
                            );
                        },
                        None => {
                            assert(resolve_node(views, views[k as int]) is None);
                            return Err(NP_Error::Schema);
                        },
                    }
                },
            }
            k += 1;
        }
        assert(nodes_view(out@) =~= resolved(views));
        Ok(out)
    }
}


impl NP_Schema {
    /// Adds the tree that `json_schema` describes to the registry under
    /// construction, `depth` structs deep, and gives its compiled form.
    /// Fails when the description is none, or passes a limit of the
    /// compiled form.
    pub fn from_json(schema: Vec<NP_Parsed_Schema>, json_schema: &NP_JSON, depth: usize) -> (r:
        Result<(bool, Vec<u8>, Vec<NP_Parsed_Schema>), NP_Error>)
        ensures
            match r {
                Ok((sortable, bytes, nodes)) => {
                    &&& !sortable
                    &&& described_tree(json_schema@, depth as nat) matches Some(t)
                    &&& bytes@ == bytes_of_tree(t)
                    &&& nodes_view(nodes@) == nodes_view(schema@) + nodes_of_tree(
                        t,
                        schema@.len() as int,
                    )
                },
                Err(e) => e == NP_Error::Schema && described_tree(json_schema@, depth as nat)
                    is None,
            },
        decreases MAX_DEPTH + 1 - depth, 1nat,
    {
        if depth > MAX_DEPTH {
            return Err(NP_Error::Schema);
        }
        let kind: &NP_JSON = match json_schema.get(word_type().as_slice()) {
            Some(value) => value,
            None => { return Err(NP_Error::Schema); },
        };
        match kind {
            NP_JSON::String(name) => {
                if crate::pointer::string::is_type(name.as_slice()) {
                    crate::pointer::string::from_json_to_schema(schema, json_schema)
                } else if bytes_equal(name.as_slice(), word_struct().as_slice()) {
                    crate::pointer::structs::NP_Struct::from_json_to_schema(
                        schema,
                        json_schema,
                        depth,
                    )
                } else if bytes_equal(name.as_slice(), word_portal().as_slice()) {
                    crate::pointer::portal::NP_Portal::from_json_to_schema(schema, json_schema)
                } else {
                    Err(NP_Error::Schema)
                }
            },
            _ => Err(NP_Error::Schema),
        }
    }

    /// Adds the tree whose compiled form starts at `address` to the
    /// registry under construction, `depth` structs deep, and gives the
    /// position behind it. Fails when no tree's form stands there.
    pub fn from_bytes(
        schema: Vec<NP_Parsed_Schema>,
        address: usize,
        bytes: &[u8],
        depth: usize,
    ) -> (r: Result<(bool, usize, Vec<NP_Parsed_Schema>), NP_Error>)
        ensures
            match r {
                Ok((sortable, next, nodes)) => {
                    &&& !sortable
                    &&& tree_of_bytes(bytes@, address as int, depth as nat) matches Some((t, end))
                    &&& end == next
                    &&& address < next <= bytes.len()
                    &&& nodes_view(nodes@) == nodes_view(schema@) + nodes_of_tree(
                        t,
                        schema@.len() as int,
                    )
                },
                Err(e) => e == NP_Error::Schema && tree_of_bytes(
                    bytes@,
                    address as int,
                    depth as nat,
                ) is None,
            },
        decreases MAX_DEPTH + 1 - depth, 1nat,
    {
        if depth > MAX_DEPTH || address >= bytes.len() {
            return Err(NP_Error::Schema);
        }
        let tag: u8 = bytes[address];
        if tag == TAG_STRING {
            crate::pointer::string::from_bytes_to_schema(schema, address, bytes)
        } else if tag == TAG_PORTAL {
            crate::pointer::portal::NP_Portal::from_bytes_to_schema(schema, address, bytes)
        } else if tag == TAG_STRUCT {
            crate::pointer::structs::NP_Struct::from_bytes_to_schema(schema, address, bytes, depth)
        } else {
            Err(NP_Error::Schema)
        }
    }

    /// The textual description of the node at `address`.
    pub fn _type_to_json(schema: &Vec<NP_Parsed_Schema>, address: usize) -> (r: Result<
        NP_JSON,
        NP_Error,
    >)
        ensures
            match r {
                Ok(j) => json_of_nodes(nodes_view(schema@), address as int) == Ok::<
                    JsonValue,
                    NP_Error,
                >(j@),
                Err(e) => json_of_nodes(nodes_view(schema@), address as int) == Err::<
                    JsonValue,
                    NP_Error,
                >(e),
            },
        decreases schema.len() - address, 1nat,
    {
        if address >= schema.len() {
            return Err(NP_Error::Schema);
        }
        match &schema[address] {
            NP_Parsed_Schema::String => crate::pointer::string::schema_to_json(schema, address),
            NP_Parsed_Schema::Struct { .. } => crate::pointer::structs::NP_Struct::schema_to_json(
                schema,
                address,
            ),
            NP_Parsed_Schema::Portal { .. } => crate::pointer::portal::NP_Portal::schema_to_json(
                schema,
                address,
            ),
        }
    }

    /// The textual description of this schema.
    pub fn to_json(&self) -> (r: Result<NP_JSON, NP_Error>)
        ensures
            match r {
                Ok(j) => json_of_nodes(self@, 0) == Ok::<JsonValue, NP_Error>(j@),
                Err(e) => json_of_nodes(self@, 0) == Err::<JsonValue, NP_Error>(e),
            },
    {
        NP_Schema::_type_to_json(&self.parsed, 0)
    }
}

} // verus!
