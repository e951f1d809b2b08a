//! The write plan and the projection driver that builds it: one pass over the
//! tree, depth first and in the order of declaration, that classifies each
//! node, resolves its name among its siblings and externalizes its
//! properties.

use vstd::prelude::*;
use crate::classify::{class_has_rule, classify, has_specific_rule, Representation, representation};
use crate::instance::{
    Instance,
    InstanceModel,
    node_count,
    nodes_among,
    Property,
    property_models,
    PropertyModel,
};
use crate::names::{
    claimed_before,
    entries,
    is_safe,
    lemma_claimed_grows,
    lemma_resolved,
    NameTable,
    reserved_entries,
    resolved,
    sanitize,
    sanitize_name,
};
use crate::properties::{
    externalize,
    externalized,
    lemma_externalized,
    names_of,
    omitted,
    source_text,
};
use crate::text::{same_text, string_views};
use crate::value::is_encodable;

verus! {

/// The number of candidates tried for one name unless the caller says
/// otherwise.
pub const DEFAULT_SUFFIX_LIMIT: u32 = 1000000;

/// What is written beside a node because neither its name nor its content
/// can hold it.
#[derive(Debug, PartialEq, Eq)]
pub struct Metadata {
    /// The display name of the node, where its resolved name differs from it.
    pub original_name: Option<String>,
    /// The externalized properties.
    pub properties: Vec<Property>,
}

/// One node of the write plan: a filesystem entity that is ready to be made.
#[derive(Debug, PartialEq, Eq)]
pub struct PlanNode {
    /// The kind of entity.
    pub kind: Representation,
    /// The resolved name of the node in its parent directory; empty for the
    /// root, which is the output root directory itself.
    pub component: String,
    /// The declared class.
    pub class: String,
    /// The source text, for a node that has a source file.
    pub content: Option<String>,
    /// The metadata, if any is needed.
    pub metadata: Option<Metadata>,
    /// The plans of the children that could be named, in their order.
    pub children: Vec<PlanNode>,
    /// The identity of the node that this plan was made for.
    pub origin: u128,
}

/// What the driver reports while it walks the tree.
#[derive(Debug, PartialEq, Eq)]
pub enum Event {
    /// A node was planned.
    NodeProcessed { id: u128 },
    /// The class of a node has no rule of its own; the node became a plain
    /// directory. For information only.
    UnsupportedClassFallback { id: u128, class: String },
    /// A property of a node has no canonical encoding and was left out; the
    /// node was planned without it.
    InvalidPropertyValue { id: u128, property: String },
    /// The sanitized name of a node was taken and the node got a suffix.
    NameCollisionResolved { id: u128, name: String },
    /// No candidate name of a node was free; the node and what is below it
    /// were left out, its siblings were not.
    NameCollisionUnresolved { id: u128, name: String },
}

/// The mathematical value of metadata.
pub struct MetadataModel {
    pub original_name: Option<Seq<char>>,
    pub properties: Seq<PropertyModel>,
}

/// The mathematical value of a plan.
pub struct PlanModel {
    pub kind: Representation,
    pub component: Seq<char>,
    pub class: Seq<char>,
    pub content: Option<Seq<char>>,
    pub metadata: Option<MetadataModel>,
    pub children: Seq<PlanModel>,
    pub origin: int,
}

/// The mathematical value of an event.
pub enum EventModel {
    NodeProcessed { id: int },
    UnsupportedClassFallback { id: int, class: Seq<char> },
    InvalidPropertyValue { id: int, property: Seq<char> },
    NameCollisionResolved { id: int, name: Seq<char> },
    NameCollisionUnresolved { id: int, name: Seq<char> },
}

impl View for Metadata {
    type V = MetadataModel;

    open spec fn view(&self) -> MetadataModel {
        MetadataModel {
            original_name: match self.original_name {
                Some(name) => Some(name@),
                None => None,
            },
            properties: property_models(self.properties@),
        }
    }
}

/// The mathematical value of a plan.
pub open spec fn plan_model(plan: PlanNode) -> PlanModel
    decreases plan,
{
    PlanModel {
        kind: plan.kind,
        component: plan.component@,
        class: plan.class@,
        content: match plan.content {
            Some(text) => Some(text@),
            None => None,
        },
        metadata: match plan.metadata {
            Some(meta) => Some(meta@),
            None => None,
        },
        children: Seq::new(
            plan.children@.len(),
            |i: int|
                if 0 <= i < plan.children@.len() {
                    plan_model(plan.children@[i])
                } else {
                    arbitrary()
                },
        ),
        origin: plan.origin as int,
    }
}

impl View for PlanNode {
    type V = PlanModel;

    open spec fn view(&self) -> PlanModel {
        plan_model(*self)
    }
}

/// The mathematical values of a list of plans.
pub open spec fn plan_models(list: Seq<PlanNode>) -> Seq<PlanModel> {
    Seq::new(list.len(), |i: int| list[i]@)
}

impl View for Event {
    type V = EventModel;

    open spec fn view(&self) -> EventModel {
        match self {
            Event::NodeProcessed { id } => EventModel::NodeProcessed { id: *id as int },
            Event::UnsupportedClassFallback { id, class } => EventModel::UnsupportedClassFallback {
                id: *id as int,
                class: class@,
            },
            Event::InvalidPropertyValue { id, property } => EventModel::InvalidPropertyValue {
                id: *id as int,
                property: property@,
            },
            Event::NameCollisionResolved { id, name } => EventModel::NameCollisionResolved {
                id: *id as int,
                name: name@,
            },
            Event::NameCollisionUnresolved { id, name } => EventModel::NameCollisionUnresolved {
                id: *id as int,
                name: name@,
            },
        }
    }
}

/// The mathematical values of a list of events.
pub open spec fn event_models(list: Seq<Event>) -> Seq<EventModel> {
    Seq::new(list.len(), |i: int| list[i]@)
}

/// The representation of a node that is not the root.
pub open spec fn rep_of(node: InstanceModel) -> Representation {
    representation(node.class, node.children.len() > 0)
}

/// The representation of the root. The root is the output root directory
/// itself, so it is a directory whether it has children or not.
pub open spec fn root_rep(node: InstanceModel) -> Representation {
    representation(node.class, true)
}

/// The children of one directory as the name resolver sees them: display name
/// and representation, in the order of declaration.
pub open spec fn siblings_of(children: Seq<InstanceModel>) -> Seq<(Seq<char>, Representation)> {
    Seq::new(children.len(), |i: int| (children[i].name, rep_of(children[i])))
}

/// Whether the name under which a node is written differs from its display
/// name. The root is written under a name that the caller chose.
pub open spec fn is_renamed(node: InstanceModel, component: Seq<char>, is_root: bool) -> bool {
    is_root || component != node.name
}

/// The metadata of a node: it is there where a property is externalized or
/// the node is renamed, and it then holds the externalized properties and,
/// for a renamed node, the display name.
pub open spec fn metadata_of(node: InstanceModel, component: Seq<char>, is_root: bool) -> Option<
    MetadataModel,
> {
    let kept = externalized(node.class, node.properties);
    if kept.len() > 0 || is_renamed(node, component, is_root) {
        Some(
            MetadataModel {
                original_name: if is_renamed(node, component, is_root) {
                    Some(node.name)
                } else {
                    None
                },
                properties: kept,
            },
        )
    } else {
        None
    }
}

/// The content of the source file of a node: its source text, empty where it
/// has none; nothing for a node without a source file.
pub open spec fn content_of(node: InstanceModel, rep: Representation) -> Option<Seq<char>> {
    if rep.source_kind() is Some {
        Some(
            match source_text(node.class, node.properties) {
                Some(text) => text,
                None => Seq::empty(),
            },
        )
    } else {
        None
    }
}

/// The plan of a node that is written under the name `component` as the
/// representation `rep`, together with the plans of the nodes below it.
pub open spec fn node_plan(
    node: InstanceModel,
    component: Seq<char>,
    rep: Representation,
    is_root: bool,
    limit: nat,
) -> PlanModel
    decreases node,
{
    PlanModel {
        kind: rep,
        component,
        class: node.class,
        content: content_of(node, rep),
        metadata: metadata_of(node, component, is_root),
        children: child_plans(node.children, node.children.len(), limit),
        origin: node.id,
    }
}

/// The plans of the first `n` children of a directory: one for each child
/// whose name could be resolved, in the order of declaration.
pub open spec fn child_plans(children: Seq<InstanceModel>, n: nat, limit: nat) -> Seq<PlanModel>
    decreases children, n,
{
    if n == 0 || n > children.len() {
        Seq::empty()
    } else {
        let rest = child_plans(children, (n - 1) as nat, limit);
        match resolved(siblings_of(children), n - 1, limit) {
            Some(name) => rest.push(
                node_plan(children[n - 1], name, rep_of(children[n - 1]), false, limit),
            ),
            None => rest,
        }
    }
}

/// The plan of a whole tree.
pub open spec fn root_plan(root: InstanceModel, limit: nat) -> PlanModel {
    node_plan(root, Seq::empty(), root_rep(root), true, limit)
}

/// One event for each property that was left out.
pub open spec fn omission_events(id: int, names: Seq<Seq<char>>) -> Seq<EventModel> {
    Seq::new(names.len(), |i: int| EventModel::InvalidPropertyValue { id, property: names[i] })
}

/// The events of one node by itself: the fallback of its class, the
/// properties left out, the suffix that its name got, and that it was
/// planned.
pub open spec fn own_events(node: InstanceModel, component: Seq<char>, is_root: bool) -> Seq<
    EventModel,
> {
    let fallback = if has_specific_rule(node.class) {
        Seq::empty()
    } else {
        seq![EventModel::UnsupportedClassFallback { id: node.id, class: node.class }]
    };
    let suffixed = if !is_root && component != sanitize(node.name) {
        seq![EventModel::NameCollisionResolved { id: node.id, name: component }]
    } else {
        Seq::empty()
    };
    fallback + omission_events(node.id, names_of(omitted(node.class, node.properties))) + suffixed
        + seq![EventModel::NodeProcessed { id: node.id }]
}

/// The events of a node and of the nodes below it, in the order of the walk.
pub open spec fn node_events(
    node: InstanceModel,
    component: Seq<char>,
    is_root: bool,
    limit: nat,
) -> Seq<EventModel>
    decreases node,
{
    own_events(node, component, is_root) + child_events(
        node.children,
        node.children.len(),
        limit,
    )
}

/// The events of the first `n` children of a directory and of the nodes below
/// them. A child whose name could not be resolved gives one event and nothing
/// from below it.
pub open spec fn child_events(children: Seq<InstanceModel>, n: nat, limit: nat) -> Seq<EventModel>
    decreases children, n,
{
    if n == 0 || n > children.len() {
        Seq::empty()
    } else {
        child_events(children, (n - 1) as nat, limit) + match resolved(
            siblings_of(children),
            n - 1,
            limit,
        ) {
            Some(name) => node_events(children[n - 1], name, false, limit),
            None => seq![
                EventModel::NameCollisionUnresolved {
                    id: children[n - 1].id,
                    name: children[n - 1].name,
                },
            ],
        }
    }
}

/// The events of a whole tree.
pub open spec fn root_events(root: InstanceModel, limit: nat) -> Seq<EventModel> {
    node_events(root, Seq::empty(), true, limit)
}


/// Whether the names in a plan are in order: in every directory, each child
/// has a name that is safe as a path component, and what one child takes up
/// in the directory is taken up by no other child and is not kept by the
/// directory for itself. In particular two children of one directory never
/// have names that are equal without regard to letter case.
pub open spec fn well_named(plan: PlanModel) -> bool
    decreases plan,
{
    &&& forall|a: int, b: int|
        0 <= a < b < plan.children.len() ==> entries(
            (#[trigger] plan.children[a]).component,
            plan.children[a].kind,
        ).disjoint(entries((#[trigger] plan.children[b]).component, plan.children[b].kind))
    &&& forall|a: int|
        0 <= a < plan.children.len() ==> {
            &&& is_safe((#[trigger] plan.children[a]).component)
            &&& entries(plan.children[a].component, plan.children[a].kind).disjoint(
                reserved_entries(),
            )
            &&& well_named(plan.children[a])
        }
}

/// The plans of the first `n` children of a directory are named in order:
/// each is well named, each has a safe name, what each takes up is claimed
/// after the `n` children and is not kept by the directory, and no two of
/// them take up the same.
pub proof fn lemma_children_well_named(children: Seq<InstanceModel>, n: nat, limit: nat)
    requires
        n <= children.len(),
    ensures
        child_plans(children, n, limit).len() <= n,
        forall|a: int|
            0 <= a < child_plans(children, n, limit).len() ==> {
                let plan = #[trigger] child_plans(children, n, limit)[a];
                &&& is_safe(plan.component)
                &&& well_named(plan)
                &&& entries(plan.component, plan.kind).subset_of(
                    claimed_before(siblings_of(children), n, limit),
                )
                &&& entries(plan.component, plan.kind).disjoint(reserved_entries())
            },
        forall|a: int, b: int|
            0 <= a < b < child_plans(children, n, limit).len() ==> entries(
                (#[trigger] child_plans(children, n, limit)[a]).component,
                child_plans(children, n, limit)[a].kind,
            ).disjoint(
                entries(
                    (#[trigger] child_plans(children, n, limit)[b]).component,
                    child_plans(children, n, limit)[b].kind,
                ),
            ),
    decreases children, n,
{
    if n > 0 {
        let siblings = siblings_of(children);
        let before = child_plans(children, (n - 1) as nat, limit);
        let all = child_plans(children, n, limit);
        let claimed = claimed_before(siblings, (n - 1) as nat, limit);
        lemma_children_well_named(children, (n - 1) as nat, limit);
        lemma_claimed_grows(siblings, 0, (n - 1) as nat, limit);
        lemma_claimed_grows(siblings, (n - 1) as nat, n, limit);
        match resolved(siblings, n - 1, limit) {
            Some(name) => {
                let child = children[n - 1];
                let plan = node_plan(child, name, rep_of(child), false, limit);
                lemma_resolved(claimed, siblings[n - 1].0, siblings[n - 1].1, limit);
                lemma_plan_well_named(child, name, rep_of(child), false, limit);
                assert(all == before.push(plan));
                assert forall|a: int| 0 <= a < all.len() implies {
                    let p = #[trigger] all[a];
                    &&& is_safe(p.component)
                    &&& well_named(p)
                    &&& entries(p.component, p.kind).subset_of(
                        claimed_before(siblings, n, limit),
                    )
                    &&& entries(p.component, p.kind).disjoint(reserved_entries())
                } by {
                    if a < before.len() {
                        assert(all[a] == before[a]);
                    }
                }
                assert forall|a: int, b: int| 0 <= a < b < all.len() implies entries(
                    (#[trigger] all[a]).component,
                    all[a].kind,
                ).disjoint(entries((#[trigger] all[b]).component, all[b].kind)) by {
                    assert(all[a] == before[a]);
                    if b < before.len() {
                        assert(all[b] == before[b]);
                    }
                }
            },
            None => {},
        }
    }
}

/// The plan of a node is well named, whatever the tree below the node.
pub proof fn lemma_plan_well_named(
    node: InstanceModel,
    component: Seq<char>,
    rep: Representation,
    is_root: bool,
    limit: nat,
)
    ensures
        well_named(node_plan(node, component, rep, is_root, limit)),
    decreases node,
{
    lemma_children_well_named(node.children, node.children.len(), limit);
}

/// Whether every name in a tree could be resolved, in every directory.
pub open spec fn fully_named(node: InstanceModel, limit: nat) -> bool
    decreases node,
{
    forall|i: int|
        0 <= i < node.children.len() ==> (#[trigger] resolved(
            siblings_of(node.children),
            i,
            limit,
        )) is Some && fully_named(node.children[i], limit)
}

/// The number of nodes of a plan.
pub open spec fn plan_size(plan: PlanModel) -> nat
    decreases plan,
{
    1 + plans_size(plan.children, plan.children.len())
}

/// The number of nodes of the first `n` of a list of plans.
pub open spec fn plans_size(plans: Seq<PlanModel>, n: nat) -> nat
    decreases plans, n,
{
    if n == 0 || n > plans.len() {
        0
    } else {
        plans_size(plans, (n - 1) as nat) + plan_size(plans[n - 1])
    }
}

/// Each plan among the plans of the first `n` children of a directory is
/// the plan of one of those children, under the name that the child resolved
/// to. Where the names of all of them resolved, there is one plan for each
/// child, in the order of the children.
pub proof fn lemma_child_plans(children: Seq<InstanceModel>, n: nat, limit: nat)
    requires
        n <= children.len(),
    ensures
        child_plans(children, n, limit).len() <= n,
        forall|k: int|
            0 <= k < child_plans(children, n, limit).len() ==> exists|i: int|
                0 <= i < n && resolved(siblings_of(children), i, limit) is Some
                    && #[trigger] child_plans(children, n, limit)[k] == node_plan(
                    children[i],
                    resolved(siblings_of(children), i, limit).unwrap(),
                    rep_of(children[i]),
                    false,
                    limit,
                ),
        (forall|i: int| 0 <= i < n ==> (#[trigger] resolved(siblings_of(children), i, limit)) is Some)
            ==> child_plans(children, n, limit).len() == n && forall|i: int|
            0 <= i < n ==> #[trigger] child_plans(children, n, limit)[i] == node_plan(
                children[i],
                resolved(siblings_of(children), i, limit).unwrap(),
                rep_of(children[i]),
                false,
                limit,
            ),
    decreases n,
{
    if n > 0 {
        let before = child_plans(children, (n - 1) as nat, limit);
        let all = child_plans(children, n, limit);
        lemma_child_plans(children, (n - 1) as nat, limit);
        assert forall|k: int| 0 <= k < all.len() implies exists|i: int|
            0 <= i < n && resolved(siblings_of(children), i, limit) is Some && #[trigger] all[k]
                == node_plan(
                children[i],
                resolved(siblings_of(children), i, limit).unwrap(),
                rep_of(children[i]),
                false,
                limit,
            ) by {
            if k < before.len() {
                let i = choose|i: int|
                    0 <= i < n - 1 && resolved(siblings_of(children), i, limit) is Some
                        && before[k] == node_plan(
                        children[i],
                        resolved(siblings_of(children), i, limit).unwrap(),
                        rep_of(children[i]),
                        false,
                        limit,
                    );
                assert(all[k] == before[k]);
                assert(0 <= i < n && resolved(siblings_of(children), i, limit) is Some && all[k]
                    == node_plan(
                    children[i],
                    resolved(siblings_of(children), i, limit).unwrap(),
                    rep_of(children[i]),
                    false,
                    limit,
                ));
            } else {
                assert(resolved(siblings_of(children), n - 1, limit) is Some && all[k]
                    == node_plan(
                    children[n - 1],
                    resolved(siblings_of(children), n - 1, limit).unwrap(),
                    rep_of(children[n - 1]),
                    false,
                    limit,
                ));
            }
        }
        if forall|i: int|
            0 <= i < n ==> (#[trigger] resolved(siblings_of(children), i, limit)) is Some {
            assert(resolved(siblings_of(children), n - 1, limit) is Some);
            assert forall|i: int| 0 <= i < n implies #[trigger] all[i] == node_plan(
                children[i],
                resolved(siblings_of(children), i, limit).unwrap(),
                rep_of(children[i]),
                false,
                limit,
            ) by {
                if i < n - 1 {
                    assert(all[i] == before[i]);
                }
            }
        }
    }
}

/// One plan node for each node: the plan of a tree in which every name
/// could be resolved has as many nodes as the tree.
pub proof fn lemma_one_plan_per_node(
    node: InstanceModel,
    component: Seq<char>,
    rep: Representation,
    is_root: bool,
    limit: nat,
)
    requires
        fully_named(node, limit),
    ensures
        plan_size(node_plan(node, component, rep, is_root, limit)) == node_count(node),
    decreases node, 1nat,
{
    lemma_plans_per_nodes(node, node.children.len(), limit);
    lemma_child_plans(node.children, node.children.len(), limit);
}

/// The plans of the first `n` children of a node in which every name could
/// be resolved have as many nodes as the trees of those children.
proof fn lemma_plans_per_nodes(node: InstanceModel, n: nat, limit: nat)
    requires
        fully_named(node, limit),
        n <= node.children.len(),
    ensures
        child_plans(node.children, n, limit).len() == n,
        plans_size(child_plans(node.children, n, limit), n) == nodes_among(node.children, n),
    decreases node, 0nat, n,
{
    if n > 0 {
        let children = node.children;
        let before = child_plans(children, (n - 1) as nat, limit);
        let all = child_plans(children, n, limit);
        lemma_plans_per_nodes(node, (n - 1) as nat, limit);
        assert(resolved(siblings_of(children), n - 1, limit) is Some);
        let name = resolved(siblings_of(children), n - 1, limit).unwrap();
        lemma_one_plan_per_node(children[n - 1], name, rep_of(children[n - 1]), false, limit);
        lemma_plans_size_same(all, before, (n - 1) as nat);
    }
}

/// Lists of plans that agree on their first `n` plans have the same number
/// of nodes in them.
proof fn lemma_plans_size_same(a: Seq<PlanModel>, b: Seq<PlanModel>, n: nat)
    requires
        n <= a.len(),
        n <= b.len(),
        forall|i: int| 0 <= i < n ==> a[i] == b[i],
    ensures
        plans_size(a, n) == plans_size(b, n),
    decreases n,
{
    if n > 0 {
        lemma_plans_size_same(a, b, (n - 1) as nat);
    }
}

/// Whether a plan hangs together: in every node, the kind of source file
/// is the one of the class, a source text is there exactly where there is a
/// source file, a source file has no children, and the properties in the
/// metadata all have encodings.
pub open spec fn is_coherent(plan: PlanModel) -> bool
    decreases plan,
{
    &&& plan.kind.source_kind() == crate::classify::script_kind(plan.class)
    &&& plan.content is Some <==> plan.kind.source_kind() is Some
    &&& plan.kind is SourceFile ==> plan.children.len() == 0
    &&& plan.metadata is Some ==> forall|i: int|
        0 <= i < plan.metadata.unwrap().properties.len() ==> is_encodable(
            (#[trigger] plan.metadata.unwrap().properties[i]).value,
        )
    &&& forall|i: int| 0 <= i < plan.children.len() ==> is_coherent(#[trigger] plan.children[i])
}

/// The plan of a node hangs together where the node is planned as the
/// representation of its class, and as a source file only if it has no
/// children.
pub proof fn lemma_plan_coherent(
    node: InstanceModel,
    component: Seq<char>,
    has_children: bool,
    is_root: bool,
    limit: nat,
)
    requires
        has_children || node.children.len() == 0,
    ensures
        is_coherent(
            node_plan(node, component, representation(node.class, has_children), is_root, limit),
        ),
    decreases node, 1nat,
{
    let plan = node_plan(
        node,
        component,
        representation(node.class, has_children),
        is_root,
        limit,
    );
    lemma_externalized(node.class, node.properties);
    lemma_children_coherent(node, node.children.len(), limit);
    if plan.kind is SourceFile {
        assert(node.children.len() == 0);
        assert(plan.children.len() == 0);
    }
    assert(plan.kind.source_kind() == crate::classify::script_kind(plan.class));
    assert(plan.content is Some <==> plan.kind.source_kind() is Some);
    if plan.metadata is Some {
        let props = plan.metadata.unwrap().properties;
        assert(props == externalized(node.class, node.properties));
        assert forall|i: int| 0 <= i < props.len() implies is_encodable(
            (#[trigger] props[i]).value,
        ) by {
            assert(crate::properties::is_kept(node.class, props[i]));
        }
    }
    assert forall|i: int| 0 <= i < plan.children.len() implies is_coherent(
        #[trigger] plan.children[i],
    ) by {
        assert(plan.children[i] == child_plans(node.children, node.children.len(), limit)[i]);
    }
}

/// The plans of the first `n` children of a node hang together.
proof fn lemma_children_coherent(node: InstanceModel, n: nat, limit: nat)
    requires
        n <= node.children.len(),
    ensures
        forall|i: int|
            0 <= i < child_plans(node.children, n, limit).len() ==> is_coherent(
                #[trigger] child_plans(node.children, n, limit)[i],
            ),
    decreases node, 0nat, n,
{
    if n > 0 {
        let children = node.children;
        let before = child_plans(children, (n - 1) as nat, limit);
        let all = child_plans(children, n, limit);
        lemma_children_coherent(node, (n - 1) as nat, limit);
        match resolved(siblings_of(children), n - 1, limit) {
            Some(name) => {
                let child = children[n - 1];
                lemma_plan_coherent(child, name, child.children.len() > 0, false, limit);
                assert forall|i: int| 0 <= i < all.len() implies is_coherent(#[trigger] all[i]) by {
                    if i < before.len() {
                        assert(all[i] == before[i]);
                    }
                }
            },
            None => {},
        }
    }
}

/// Whether no directory of a tree has so many children that names could
/// run out: nine times the number of children, and six, stays below the
/// limit.
pub open spec fn is_narrow(node: InstanceModel, limit: nat) -> bool
    decreases node,
{
    &&& 9 * node.children.len() + 6 < limit || node.children.len() == 0
    &&& forall|i: int| 0 <= i < node.children.len() ==> is_narrow(#[trigger] node.children[i], limit)
}

/// In a tree without very large directories every name resolves.
pub proof fn lemma_narrow_is_fully_named(node: InstanceModel, limit: nat)
    requires
        is_narrow(node, limit),
    ensures
        fully_named(node, limit),
    decreases node,
{
    assert forall|i: int| 0 <= i < node.children.len() implies (#[trigger] resolved(
        siblings_of(node.children),
        i,
        limit,
    )) is Some && fully_named(node.children[i], limit) by {
        crate::capacity::lemma_name_resolves(siblings_of(node.children), i, limit);
        lemma_narrow_is_fully_named(node.children[i], limit);
    }
}

/// Whether the events tell of a fatal error of the walk: a name that could
/// not be resolved.
pub open spec fn has_unresolved(events: Seq<EventModel>) -> bool {
    exists|i: int| 0 <= i < events.len() && (#[trigger] events[i]) is NameCollisionUnresolved
}

/// Events that follow one another tell of an unresolved name exactly if
/// the first or the second do.
pub proof fn lemma_unresolved_add(a: Seq<EventModel>, b: Seq<EventModel>)
    ensures
        has_unresolved(a + b) <==> has_unresolved(a) || has_unresolved(b),
{
    let all = a + b;
    if has_unresolved(a) {
        let i = choose|i: int| 0 <= i < a.len() && (#[trigger] a[i]) is NameCollisionUnresolved;
        assert(all[i] is NameCollisionUnresolved);
    }
    if has_unresolved(b) {
        let i = choose|i: int| 0 <= i < b.len() && (#[trigger] b[i]) is NameCollisionUnresolved;
        assert(all[i + a.len()] is NameCollisionUnresolved);
    }
    if has_unresolved(all) {
        let i = choose|i: int| 0 <= i < all.len() && (#[trigger] all[i]) is NameCollisionUnresolved;
        if i < a.len() {
            assert(a[i] is NameCollisionUnresolved);
        } else {
            assert(b[i - a.len()] is NameCollisionUnresolved);
        }
    }
}

/// The events of a node and of what is below it tell of an unresolved name
/// exactly if some name below the node could not be resolved.
pub proof fn lemma_unresolved_events(
    node: InstanceModel,
    component: Seq<char>,
    is_root: bool,
    limit: nat,
)
    ensures
        has_unresolved(node_events(node, component, is_root, limit)) <==> !fully_named(node, limit),
    decreases node, 1nat,
{
    let own = own_events(node, component, is_root);
    let below = child_events(node.children, node.children.len(), limit);
    lemma_unresolved_add(own, below);
    lemma_unresolved_below(node, node.children.len(), limit);
    let fallback = if has_specific_rule(node.class) {
        Seq::<EventModel>::empty()
    } else {
        seq![EventModel::UnsupportedClassFallback { id: node.id, class: node.class }]
    };
    let left_out = omission_events(node.id, names_of(omitted(node.class, node.properties)));
    let suffixed = if !is_root && component != sanitize(node.name) {
        seq![EventModel::NameCollisionResolved { id: node.id, name: component }]
    } else {
        Seq::<EventModel>::empty()
    };
    let done = seq![EventModel::NodeProcessed { id: node.id }];
    lemma_unresolved_add(fallback, left_out);
    lemma_unresolved_add(fallback + left_out, suffixed);
    lemma_unresolved_add(fallback + left_out + suffixed, done);
    assert(!has_unresolved(own));
}

/// The events of the first `n` children of a node tell of an unresolved
/// name exactly if the name of one of them, or a name below one of them,
/// could not be resolved.
proof fn lemma_unresolved_below(node: InstanceModel, n: nat, limit: nat)
    requires
        n <= node.children.len(),
    ensures
        !has_unresolved(child_events(node.children, n, limit)) <==> forall|i: int|
            0 <= i < n ==> (#[trigger] resolved(siblings_of(node.children), i, limit)) is Some
                && fully_named(node.children[i], limit),
    decreases node, 0nat, n,
{
    if n > 0 {
        let children = node.children;
        let before = child_events(children, (n - 1) as nat, limit);
        lemma_unresolved_below(node, (n - 1) as nat, limit);
        match resolved(siblings_of(children), n - 1, limit) {
            Some(name) => {
                let last = node_events(children[n - 1], name, false, limit);
                lemma_unresolved_events(children[n - 1], name, false, limit);
                lemma_unresolved_add(before, last);
            },
            None => {
                let last = seq![
                    EventModel::NameCollisionUnresolved {
                        id: children[n - 1].id,
                        name: children[n - 1].name,
                    },
                ];
                assert(last[0] is NameCollisionUnresolved);
                lemma_unresolved_add(before, last);
            },
        }
    }
}

/// What a projection gives: the write plan and the events of the walk.
#[derive(Debug, PartialEq, Eq)]
pub struct Projection {
    /// The plan of the root and of everything below it.
    pub plan: PlanNode,
    /// The events, in the order of the walk.
    pub events: Vec<Event>,
}

fn push_event(events: &mut Vec<Event>, e: Event)
    ensures
        event_models(final(events)@) == event_models(old(events)@).push(e@),
{
    events.push(e);
    assert(event_models(events@) =~= event_models(old(events)@).push(e@));
}

fn push_omissions(events: &mut Vec<Event>, id: u128, names: &Vec<String>)
    ensures
        event_models(final(events)@) == event_models(old(events)@) + omission_events(
            id as int,
            string_views(names@),
        ),
{
    let mut i: usize = 0;
    while i < names.len()
        invariant
            i <= names.len(),
            event_models(events@) == event_models(old(events)@) + omission_events(
                id as int,
                string_views(names@),
            ).take(i as int),
        decreases names.len() - i,
    {
        push_event(events, Event::InvalidPropertyValue { id, property: names[i].clone() });
        i += 1;
        assert(event_models(events@) =~= event_models(old(events)@) + omission_events(
            id as int,
            string_views(names@),
        ).take(i as int));
    }
    assert(omission_events(id as int, string_views(names@)).take(names.len() as int)
        == omission_events(id as int, string_views(names@)));
}

fn plan_node(
    node: &Instance,
    component: String,
    rep: Representation,
    is_root: bool,
    limit: u32,
    events: &mut Vec<Event>,
) -> (plan: PlanNode)
    ensures
        plan@ == node_plan(node@, component@, rep, is_root, limit as nat),
        event_models(final(events)@) == event_models(old(events)@) + node_events(
            node@,
            component@,
            is_root,
            limit as nat,
        ),
    decreases node,
{
    let ghost model = node@;
    let ghost start = event_models(events@);
    if !class_has_rule(node.class.as_str()) {
        push_event(
            events,
            Event::UnsupportedClassFallback { id: node.id, class: node.class.clone() },
        );
    }
    let sorted = externalize(node.class.as_str(), &node.properties);
    push_omissions(events, node.id, &sorted.omitted);
    let renamed = is_root || !same_text(component.as_str(), node.name.as_str());
    if !is_root {
        let clean = sanitize_name(node.name.as_str());
        if !same_text(component.as_str(), clean.as_str()) {
            push_event(
                events,
                Event::NameCollisionResolved { id: node.id, name: component.clone() },
            );
        }
    }
    push_event(events, Event::NodeProcessed { id: node.id });
    assert(event_models(events@) =~= start + own_events(model, component@, is_root));
    let content = match rep {
        Representation::PlainDirectory => None,
        _ => Some(
            match sorted.source {
                Some(text) => text,
                None => String::new(),
            },
        ),
    };
    let metadata = if sorted.kept.len() > 0 || renamed {
        Some(
            Metadata {
                original_name: if renamed {
                    Some(node.name.clone())
                } else {
                    None
                },
                properties: sorted.kept,
            },
        )
    } else {
        None
    };
    assert(match metadata {
        Some(meta) => Some(meta@),
        None => None,
    } == metadata_of(model, component@, is_root));
    let mut table = NameTable::new(limit);
    let mut children: Vec<PlanNode> = Vec::new();
    let mut i: usize = 0;
    assert(plan_models(children@) =~= child_plans(model.children, 0, limit as nat));
    assert(event_models(events@) =~= start + own_events(model, component@, is_root)
        + child_events(model.children, 0, limit as nat));
    while i < node.children.len()
        invariant
            i <= node.children.len(),
            model == node@,
            model.children.len() == node.children@.len(),
            table.limit() == limit,
            table.wf(),
            table@ == claimed_before(siblings_of(model.children), i as nat, limit as nat),
            plan_models(children@) == child_plans(model.children, i as nat, limit as nat),
            event_models(events@) == start + own_events(model, component@, is_root) + child_events(
                model.children,
                i as nat,
                limit as nat,
            ),
        decreases node.children.len() - i,
    {
        let child = &node.children[i];
        let ghost before = event_models(events@);
        let ghost plans = plan_models(children@);
        assert(model.children[i as int] == child@);
        assert(child@.children.len() == child.children@.len());
        let child_rep = classify(child.class.as_str(), child.children.len() > 0);
        assert(siblings_of(model.children)[i as int] == (child@.name, child_rep));
        match table.resolve(child.name.as_str(), child_rep) {
            Ok(name) => {
                let planned = plan_node(child, name, child_rep, false, limit, events);
                children.push(planned);
                assert(plan_models(children@) =~= plans.push(planned@));
            },
            Err(_) => {
                push_event(
                    events,
                    Event::NameCollisionUnresolved { id: child.id, name: child.name.clone() },
                );
            },
        }
        i += 1;
        assert(event_models(events@) =~= start + own_events(model, component@, is_root)
            + child_events(model.children, i as nat, limit as nat));
    }
    let plan = PlanNode {
        kind: rep,
        component,
        class: node.class.clone(),
        content,
        metadata,
        children,
        origin: node.id,
    };
    assert(plan@.children =~= plan_models(plan.children@));
    plan
}

/// Plans the projection of a whole tree: classifies every node, resolves
/// every name among its siblings in the order of declaration, and
/// externalizes the properties. The root becomes the output root directory
/// itself. Every other node has exactly one plan node, except a node whose
/// name could not be resolved within `limit` candidates and the nodes below
/// it, which are reported and left out; that happens in no tree whose
/// directories are narrow for the limit. The result depends on the tree and
/// the limit alone.
pub fn build_plan(root: &Instance, limit: u32) -> (out: Projection)
    ensures
        out.plan@ == root_plan(root@, limit as nat),
        event_models(out.events@) == root_events(root@, limit as nat),
        out.plan@.kind.is_directory(),
        well_named(out.plan@),
        is_coherent(out.plan@),
        is_narrow(root@, limit as nat) ==> fully_named(root@, limit as nat) && plan_size(out.plan@)
            == node_count(root@),
        has_unresolved(event_models(out.events@)) <==> !fully_named(root@, limit as nat),
{
    proof {
        lemma_unresolved_events(root@, Seq::empty(), true, limit as nat);
        if is_narrow(root@, limit as nat) {
            lemma_narrow_is_fully_named(root@, limit as nat);
            lemma_one_plan_per_node(root@, Seq::empty(), root_rep(root@), true, limit as nat);
        }
        lemma_plan_well_named(root@, Seq::empty(), root_rep(root@), true, limit as nat);
        lemma_plan_coherent(root@, Seq::empty(), true, true, limit as nat);
    }
    let mut events: Vec<Event> = Vec::new();
    let rep = classify(root.class.as_str(), true);
    let plan = plan_node(root, String::new(), rep, true, limit, &mut events);
    assert(event_models(events@) =~= root_events(root@, limit as nat));
    Projection { plan, events }
}

} // verus!
