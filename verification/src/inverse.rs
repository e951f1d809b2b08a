//! The inverse mapping: the tree that a plan stands for, as a reader of the
//! manifest and of the files would put it together again, and the laws that
//! tie it to the tree that the plan was made from.

use vstd::prelude::*;
use crate::classify::{representation, script_kind};
use crate::instance::{InstanceModel, PropertyModel};
use crate::json::{JsonModel, render};
use crate::layout::{lemma_metadata_sound, metadata_document, property_members};
use crate::manifest::{child_members, lemma_manifest_sound, manifest_document, ManifestModel};
use crate::names::resolved;
use crate::plan::{
    child_plans,
    metadata_of,
    MetadataModel,
    node_plan,
    PlanModel,
    rep_of,
    root_plan,
    siblings_of,
};
use crate::properties::{externalized, lemma_externalized, source_text};
use crate::reader::{lemma_read_inverts_render, read};
use crate::value::{decoding, encoding, is_encodable, lemma_decoding_inverts_encoding, ValueModel};

verus! {

/// The property under which the content of a source file is read back.
pub open spec fn source_property(text: Seq<char>) -> PropertyModel {
    PropertyModel { name: "Source"@, value: ValueModel::Text(text) }
}

/// The display name that a plan node stands for: the one that its metadata
/// holds, else its resolved name.
pub open spec fn rebuilt_name(plan: PlanModel) -> Seq<char> {
    match plan.metadata {
        Some(meta) => match meta.original_name {
            Some(name) => name,
            None => plan.component,
        },
        None => plan.component,
    }
}

/// The properties that a plan node stands for: the content of its source
/// file as the source property, then the properties of its metadata.
pub open spec fn rebuilt_properties(plan: PlanModel) -> Seq<PropertyModel> {
    let source = match plan.content {
        Some(text) => seq![source_property(text)],
        None => Seq::empty(),
    };
    let rest = match plan.metadata {
        Some(meta) => meta.properties,
        None => Seq::empty(),
    };
    source + rest
}

/// The tree that a plan stands for. Identities are not written to the
/// disk, so every node of it has the identity zero.
pub open spec fn rebuilt(plan: PlanModel) -> InstanceModel
    decreases plan,
{
    InstanceModel {
        id: 0,
        class: plan.class,
        name: rebuilt_name(plan),
        properties: rebuilt_properties(plan),
        children: rebuilt_children(plan.children, plan.children.len()),
    }
}

/// The trees that the first `n` of a list of plans stand for.
pub open spec fn rebuilt_children(plans: Seq<PlanModel>, n: nat) -> Seq<InstanceModel>
    decreases plans, n,
{
    if n == 0 || n > plans.len() {
        Seq::empty()
    } else {
        rebuilt_children(plans, (n - 1) as nat).push(rebuilt(plans[n - 1]))
    }
}

/// The properties of a node that a projection keeps: for a script-like
/// class the source text, empty where the node has none, and then every
/// property that is externalized.
pub open spec fn kept_properties(node: InstanceModel) -> Seq<PropertyModel> {
    let source = if script_kind(node.class) is Some {
        seq![
            source_property(
                match source_text(node.class, node.properties) {
                    Some(text) => text,
                    None => Seq::empty(),
                },
            ),
        ]
    } else {
        Seq::empty()
    };
    source + externalized(node.class, node.properties)
}

/// What a projection keeps of a tree: every node with its class and
/// display name, its kept properties, and its children in their order,
/// without those whose names could not be resolved. Identities are not
/// kept: every node has the identity zero.
pub open spec fn preserved(node: InstanceModel, limit: nat) -> InstanceModel
    decreases node,
{
    InstanceModel {
        id: 0,
        class: node.class,
        name: node.name,
        properties: kept_properties(node),
        children: preserved_children(node.children, node.children.len(), limit),
    }
}

/// What a projection keeps of the first `n` children of a directory.
pub open spec fn preserved_children(children: Seq<InstanceModel>, n: nat, limit: nat) -> Seq<
    InstanceModel,
>
    decreases children, n,
{
    if n == 0 || n > children.len() {
        Seq::empty()
    } else {
        let rest = preserved_children(children, (n - 1) as nat, limit);
        if resolved(siblings_of(children), n - 1, limit) is Some {
            rest.push(preserved(children[n - 1], limit))
        } else {
            rest
        }
    }
}

/// The tree that the plan of a node stands for is what the projection keeps
/// of the node, whatever name the node was written under.
pub proof fn lemma_rebuilt_node(
    node: InstanceModel,
    component: Seq<char>,
    has_children: bool,
    is_root: bool,
    limit: nat,
)
    ensures
        rebuilt(
            node_plan(node, component, representation(node.class, has_children), is_root, limit),
        ) == preserved(node, limit),
    decreases node,
{
    let rep = representation(node.class, has_children);
    let plan = node_plan(node, component, rep, is_root, limit);
    lemma_rebuilt_children(node.children, node.children.len(), limit);
    assert(rep.source_kind() is Some <==> script_kind(node.class) is Some);
    assert(rebuilt_name(plan) == node.name);
    assert(rebuilt_properties(plan) =~= kept_properties(node));
}

/// The trees that the plans of the first `n` children of a directory stand
/// for are what the projection keeps of those children.
pub proof fn lemma_rebuilt_children(children: Seq<InstanceModel>, n: nat, limit: nat)
    requires
        n <= children.len(),
    ensures
        rebuilt_children(child_plans(children, n, limit), child_plans(children, n, limit).len())
            == preserved_children(children, n, limit),
    decreases children, n,
{
    if n > 0 {
        let before = child_plans(children, (n - 1) as nat, limit);
        lemma_rebuilt_children(children, (n - 1) as nat, limit);
        match resolved(siblings_of(children), n - 1, limit) {
            Some(name) => {
                let child = children[n - 1];
                let plan = node_plan(child, name, rep_of(child), false, limit);
                lemma_rebuilt_node(child, name, child.children.len() > 0, false, limit);
                lemma_rebuilt_same(before.push(plan), before, before.len());
            },
            None => {},
        }
    }
}

/// Lists of plans that agree on their first `n` plans stand for the same
/// first `n` trees.
proof fn lemma_rebuilt_same(a: Seq<PlanModel>, b: Seq<PlanModel>, n: nat)
    requires
        n <= a.len(),
        n <= b.len(),
        forall|i: int| 0 <= i < n ==> a[i] == b[i],
    ensures
        rebuilt_children(a, n) == rebuilt_children(b, n),
    decreases n,
{
    if n > 0 {
        lemma_rebuilt_same(a, b, (n - 1) as nat);
    }
}

/// The properties that the members of a property object stand for, if
/// every member is a tagged encoding.
pub open spec fn read_members(members: Seq<(Seq<char>, JsonModel)>) -> Option<Seq<PropertyModel>>
    decreases members.len(),
{
    if members.len() == 0 {
        Some(Seq::empty())
    } else {
        match (read_members(members.drop_last()), decoding(members.last().1)) {
            (Some(rest), Some(value)) => Some(
                rest.push(PropertyModel { name: members.last().0, value }),
            ),
            _ => None,
        }
    }
}

/// The metadata that a document stands for, if it has the shape of a
/// metadata document.
pub open spec fn read_metadata(doc: JsonModel) -> Option<MetadataModel> {
    match doc {
        JsonModel::Object(members) => if members.len() == 1 && members[0].0 == "properties"@ {
            match members[0].1 {
                JsonModel::Object(inner) => match read_members(inner) {
                    Some(properties) => Some(MetadataModel { original_name: None, properties }),
                    None => None,
                },
                _ => None,
            }
        } else if members.len() == 2 && members[0].0 == "name"@ && members[1].0
            == "properties"@ {
            match (members[0].1, members[1].1) {
                (JsonModel::Str(name), JsonModel::Object(inner)) => match read_members(inner) {
                    Some(properties) => Some(
                        MetadataModel { original_name: Some(name), properties },
                    ),
                    None => None,
                },
                _ => None,
            }
        } else {
            None
        },
        _ => None,
    }
}

/// Reading the members that were written for properties whose values all
/// have encodings gives the properties back, names, types and values.
pub proof fn lemma_members_round_trip(props: Seq<PropertyModel>)
    requires
        forall|i: int| 0 <= i < props.len() ==> is_encodable((#[trigger] props[i]).value),
    ensures
        property_members(props).len() == props.len(),
        read_members(property_members(props)) == Some(props),
    decreases props.len(),
{
    if props.len() > 0 {
        let head = props.drop_last();
        let last = props.last();
        lemma_members_round_trip(head);
        lemma_decoding_inverts_encoding(last.value);
        let members = property_members(props);
        assert(members == property_members(head).push((last.name, encoding(last.value))));
        assert(members.drop_last() == property_members(head));
        assert(head.push(PropertyModel { name: last.name, value: last.value }) == props);
    } else {
        assert(props == Seq::<PropertyModel>::empty());
    }
}

/// Reading the document that was written for metadata whose properties all
/// have encodings gives the metadata back.
pub proof fn lemma_metadata_document_round_trip(meta: MetadataModel)
    requires
        forall|i: int|
            0 <= i < meta.properties.len() ==> is_encodable((#[trigger] meta.properties[i]).value),
    ensures
        read_metadata(metadata_document(meta)) == Some(meta),
{
    lemma_members_round_trip(meta.properties);
}

/// What the metadata file of a node holds: one member for each property
/// that is externalized, under the property's name and with its tagged
/// value, in the order of the properties, and no other. A property that
/// holds the default of its class has no member.
pub proof fn lemma_metadata_members(node: InstanceModel, component: Seq<char>, is_root: bool)
    requires
        metadata_of(node, component, is_root) is Some,
    ensures
        ({
            let kept = externalized(node.class, node.properties);
            let members = property_members(metadata_of(node, component, is_root).unwrap().properties);
            &&& members.len() == kept.len()
            &&& forall|k: int|
                0 <= k < kept.len() ==> #[trigger] members[k] == (
                    kept[k].name,
                    encoding(kept[k].value),
                )
        }),
{
    let kept = externalized(node.class, node.properties);
    lemma_externalized(node.class, node.properties);
    lemma_members_of(kept);
}

/// The members written for properties whose values all have encodings are
/// the names and the tagged values of the properties, one for one.
pub proof fn lemma_members_of(props: Seq<PropertyModel>)
    requires
        forall|i: int| 0 <= i < props.len() ==> is_encodable((#[trigger] props[i]).value),
    ensures
        property_members(props).len() == props.len(),
        forall|k: int|
            0 <= k < props.len() ==> #[trigger] property_members(props)[k] == (
                props[k].name,
                encoding(props[k].value),
            ),
    decreases props.len(),
{
    if props.len() > 0 {
        let head = props.drop_last();
        lemma_members_of(head);
        let members = property_members(props);
        assert forall|k: int| 0 <= k < props.len() implies #[trigger] members[k] == (
            props[k].name,
            encoding(props[k].value),
        ) by {
            if k < head.len() {
                assert(members[k] == property_members(head)[k]);
                assert(head[k] == props[k]);
            }
        }
    }
}

/// Round trip of a metadata file: reading the document that was written
/// for the metadata of a node gives the metadata back, the display name and
/// every externalized property with its type and value.
pub proof fn lemma_metadata_round_trip(node: InstanceModel, component: Seq<char>, is_root: bool)
    requires
        metadata_of(node, component, is_root) is Some,
    ensures
        read_metadata(metadata_document(metadata_of(node, component, is_root).unwrap()))
            == metadata_of(node, component, is_root),
{
    let meta = metadata_of(node, component, is_root).unwrap();
    lemma_externalized(node.class, node.properties);
    lemma_members_round_trip(meta.properties);
}

/// Round trip of a metadata file through its text: reading the text that
/// was written for the metadata of a node gives the metadata back.
pub proof fn lemma_metadata_text_round_trip(
    node: InstanceModel,
    component: Seq<char>,
    is_root: bool,
)
    requires
        metadata_of(node, component, is_root) is Some,
    ensures
        ({
            let meta = metadata_of(node, component, is_root).unwrap();
            let text = render(metadata_document(meta));
            read(text) is Some && read_metadata(read(text).unwrap()) == Some(meta)
        }),
{
    let meta = metadata_of(node, component, is_root).unwrap();
    lemma_metadata_sound(meta);
    lemma_read_inverts_render(metadata_document(meta));
    lemma_metadata_round_trip(node, component, is_root);
}

/// The manifest entry that a document stands for under the given key, if
/// the document has the shape of a manifest document.
pub open spec fn read_entry(key: Seq<char>, doc: JsonModel) -> Option<ManifestModel>
    decreases doc, 1nat,
{
    match doc {
        JsonModel::Object(members) => if members.len() == 2 && members[0].0 == "className"@
            && members[1].0 == "children"@ {
            match (members[0].1, members[1].1) {
                (JsonModel::Str(class), JsonModel::Object(inner)) => match read_entries(
                    members[1].1,
                    inner.len(),
                ) {
                    Some(children) => Some(ManifestModel { key, class, path: None, children }),
                    None => None,
                },
                _ => None,
            }
        } else if members.len() == 3 && members[0].0 == "className"@ && members[1].0 == "path"@
            && members[2].0 == "children"@ {
            match (members[0].1, members[1].1, members[2].1) {
                (
                    JsonModel::Str(class),
                    JsonModel::Str(path),
                    JsonModel::Object(inner),
                ) => match read_entries(members[2].1, inner.len()) {
                    Some(children) => Some(
                        ManifestModel { key, class, path: Some(path), children },
                    ),
                    None => None,
                },
                _ => None,
            }
        } else {
            None
        },
        _ => None,
    }
}

/// The manifest entries that the first `n` members of an object stand for.
pub open spec fn read_entries(object: JsonModel, n: nat) -> Option<Seq<ManifestModel>>
    decreases object, 0nat, n,
{
    match object {
        JsonModel::Object(inner) => if n == 0 || n > inner.len() {
            Some(Seq::empty())
        } else {
            match (
                read_entries(object, (n - 1) as nat),
                read_entry(inner[n - 1].0, inner[n - 1].1),
            ) {
                (Some(rest), Some(entry)) => Some(rest.push(entry)),
                _ => None,
            }
        },
        _ => None,
    }
}

/// Reading the document that was written for a manifest entry gives the
/// entry back, with the entries below it.
pub proof fn lemma_manifest_round_trip(m: ManifestModel)
    ensures
        read_entry(m.key, manifest_document(m)) == Some(m),
    decreases m, 1nat,
{
    lemma_entries_round_trip(m, m.children.len());
    let members = manifest_document(m)->Object_0;
    match m.path {
        Some(p) => {
            assert(members.len() == 3);
        },
        None => {
            assert(members.len() == 2);
        },
    }
    assert(m.children.take(m.children.len() as int) == m.children);
}

/// Reading the members that were written for the first `n` children of a
/// manifest entry gives those children back.
proof fn lemma_entries_round_trip(m: ManifestModel, n: nat)
    requires
        n <= m.children.len(),
    ensures
        child_members(m.children, n).len() == n,
        read_entries(JsonModel::Object(child_members(m.children, n)), n) == Some(
            m.children.take(n as int),
        ),
    decreases m, 0nat, n,
{
    let object = JsonModel::Object(child_members(m.children, n));
    if n > 0 {
        let head = JsonModel::Object(child_members(m.children, (n - 1) as nat));
        lemma_entries_round_trip(m, (n - 1) as nat);
        lemma_manifest_round_trip(m.children[n - 1]);
        lemma_read_entries_prefix(object, head, (n - 1) as nat);
        assert(m.children.take(n as int) == m.children.take(n - 1).push(m.children[n - 1]));
    } else {
        assert(m.children.take(0) == Seq::<ManifestModel>::empty());
    }
}

/// Objects that agree on their first `n` members stand for the same first
/// `n` entries.
proof fn lemma_read_entries_prefix(a: JsonModel, b: JsonModel, n: nat)
    requires
        a is Object,
        b is Object,
        n <= a->Object_0.len(),
        n <= b->Object_0.len(),
        forall|i: int| 0 <= i < n ==> a->Object_0[i] == b->Object_0[i],
    ensures
        read_entries(a, n) == read_entries(b, n),
    decreases n,
{
    if n > 0 {
        lemma_read_entries_prefix(a, b, (n - 1) as nat);
    }
}

/// Round trip of the manifest through its text: reading the text that was
/// written for a manifest gives the manifest back, every entry with its
/// key, class and file name, in order.
pub proof fn lemma_manifest_text_round_trip(m: ManifestModel)
    ensures
        read(render(manifest_document(m))) is Some,
        read_entry(m.key, read(render(manifest_document(m))).unwrap()) == Some(m),
{
    lemma_manifest_sound(m);
    lemma_read_inverts_render(manifest_document(m));
    lemma_manifest_round_trip(m);
}

/// Round trip: the tree that the plan of a whole tree stands for has, node
/// by node, the class and display name of the tree that was planned, its
/// children in their order, and every property that the projection keeps.
/// Only this is lost: a property that holds the default of its class, a
/// property whose value has no encoding, and a node whose name could not be
/// resolved, with what is below it.
pub proof fn lemma_round_trip(tree: InstanceModel, limit: nat)
    ensures
        rebuilt(root_plan(tree, limit)) == preserved(tree, limit),
{
    lemma_rebuilt_node(tree, Seq::empty(), true, true, limit);
}

} // verus!
