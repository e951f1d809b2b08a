//! The input of a projection: a tree of instance nodes.

use vstd::prelude::*;
use crate::value::{Value, ValueModel};

verus! {

/// One property of a node: its name and its value.
#[derive(Debug, PartialEq, Eq)]
pub struct Property {
    /// The property's name.
    pub name: String,
    /// The property's value.
    pub value: Value,
}

/// One node of the decoded tree. A node owns its children; references to
/// other nodes are held as property values and own nothing.
#[derive(Debug, PartialEq, Eq)]
pub struct Instance {
    /// The identity token of the node.
    pub id: u128,
    /// The class identifier.
    pub class: String,
    /// The display name.
    pub name: String,
    /// The properties, in a fixed order.
    pub properties: Vec<Property>,
    /// The children, in the order of their declaration.
    pub children: Vec<Instance>,
}

/// The mathematical value of a property.
pub struct PropertyModel {
    pub name: Seq<char>,
    pub value: ValueModel,
}

/// The mathematical value of a node and of the tree below it.
pub struct InstanceModel {
    pub id: int,
    pub class: Seq<char>,
    pub name: Seq<char>,
    pub properties: Seq<PropertyModel>,
    pub children: Seq<InstanceModel>,
}

impl View for Property {
    type V = PropertyModel;

    open spec fn view(&self) -> PropertyModel {
        PropertyModel { name: self.name@, value: self.value@ }
    }
}

/// The mathematical values of a list of properties.
pub open spec fn property_models(list: Seq<Property>) -> Seq<PropertyModel> {
    Seq::new(list.len(), |i: int| list[i]@)
}

/// The mathematical value of a node and of the tree below it.
pub open spec fn instance_model(node: Instance) -> InstanceModel
    decreases node,
{
    InstanceModel {
        id: node.id as int,
        class: node.class@,
        name: node.name@,
        properties: property_models(node.properties@),
        children: Seq::new(
            node.children@.len(),
            |i: int|
                if 0 <= i < node.children@.len() {
                    instance_model(node.children@[i])
                } else {
                    arbitrary()
                },
        ),
    }
}

impl View for Instance {
    type V = InstanceModel;

    open spec fn view(&self) -> InstanceModel {
        instance_model(*self)
    }
}

/// The number of nodes of a tree.
pub open spec fn node_count(node: InstanceModel) -> nat
    decreases node,
{
    1 + nodes_among(node.children, node.children.len())
}

/// The number of nodes of the trees below the first `n` of a list of nodes.
pub open spec fn nodes_among(nodes: Seq<InstanceModel>, n: nat) -> nat
    decreases nodes, n,
{
    if n == 0 || n > nodes.len() {
        0
    } else {
        nodes_among(nodes, (n - 1) as nat) + node_count(nodes[n - 1])
    }
}

impl Property {
    /// A copy of the property.
    pub fn duplicate(&self) -> (copy: Property)
        ensures
            copy@ == self@,
    {
        Property { name: self.name.clone(), value: self.value.duplicate() }
    }
}

} // verus!
