//! The property externalizer: which properties of a node go into its
//! metadata, which one is its source text, and which cannot be written.

use vstd::prelude::*;
use crate::classify::{script_kind, script_kind_of, ScriptKind};
use crate::instance::{Property, property_models, PropertyModel};
use crate::text::{same_text, string_views};
use crate::value::{is_encodable, Value, ValueModel};

verus! {

/// The default value of a property of a class, where the table has one:
/// `Archivable` is true for every class, `Disabled` is false for scripts that
/// run on the server or the client, and `LinkedSource` is the empty text for
/// every script-like class.
pub open spec fn default_value(class: Seq<char>, property: Seq<char>) -> Option<ValueModel> {
    if property == "Archivable"@ {
        Some(ValueModel::Bool(true))
    } else if property == "Disabled"@ && (script_kind(class) == Some(ScriptKind::Server)
        || script_kind(class) == Some(ScriptKind::Client)) {
        Some(ValueModel::Bool(false))
    } else if property == "LinkedSource"@ && script_kind(class) is Some {
        Some(ValueModel::Text(Seq::empty()))
    } else {
        None
    }
}

/// Whether a property holds the source text of a node of the class: the
/// class is script-like and the property is a text named `Source`.
pub open spec fn is_source(class: Seq<char>, p: PropertyModel) -> bool {
    script_kind(class) is Some && p.name == "Source"@ && p.value is Text
}

/// Whether a value is a structural annotation, which is written out whatever
/// the default is.
pub open spec fn is_structural(v: ValueModel) -> bool {
    v is Tags
}

/// Whether a property goes into the metadata: it is not the source text, its
/// value has an encoding, and it is a structural annotation or differs from
/// the default of its class.
pub open spec fn is_kept(class: Seq<char>, p: PropertyModel) -> bool {
    &&& !is_source(class, p)
    &&& is_encodable(p.value)
    &&& (is_structural(p.value) || default_value(class, p.name) != Some(p.value))
}

/// Whether a property is left out because its value has no encoding.
pub open spec fn is_omitted(class: Seq<char>, p: PropertyModel) -> bool {
    !is_source(class, p) && !is_encodable(p.value)
}

/// The test that picks the properties that go into the metadata.
pub open spec fn kept_of(class: Seq<char>) -> spec_fn(PropertyModel) -> bool {
    |p: PropertyModel| is_kept(class, p)
}

/// The test that picks the properties that are left out.
pub open spec fn omitted_of(class: Seq<char>) -> spec_fn(PropertyModel) -> bool {
    |p: PropertyModel| is_omitted(class, p)
}

/// The properties that go into the metadata, in their order.
pub open spec fn externalized(class: Seq<char>, props: Seq<PropertyModel>) -> Seq<PropertyModel> {
    props.filter(kept_of(class))
}

/// The properties that are left out because their values have no encoding, in
/// their order.
pub open spec fn omitted(class: Seq<char>, props: Seq<PropertyModel>) -> Seq<PropertyModel> {
    props.filter(omitted_of(class))
}

/// The source text of a node: the text of its first source property, if it
/// has one.
pub open spec fn source_text(class: Seq<char>, props: Seq<PropertyModel>) -> Option<Seq<char>>
    decreases props.len(),
{
    if props.len() == 0 {
        None
    } else {
        match source_text(class, props.drop_last()) {
            Some(text) => Some(text),
            None => if is_source(class, props.last()) {
                Some(props.last().value->Text_0)
            } else {
                None
            },
        }
    }
}

/// What is externalized is a selection of the node's properties: each
/// externalized property is one that is to be kept, so its value has an
/// encoding, and each property that is to be kept is externalized.
pub proof fn lemma_externalized(class: Seq<char>, props: Seq<PropertyModel>)
    ensures
        externalized(class, props).len() <= props.len(),
        forall|i: int|
            0 <= i < externalized(class, props).len() ==> is_kept(
                class,
                #[trigger] externalized(class, props)[i],
            ),
        forall|i: int|
            0 <= i < props.len() && is_kept(class, props[i]) ==> externalized(
                class,
                props,
            ).contains(#[trigger] props[i]),
    decreases props.len(),
{
    reveal(Seq::filter);
    if props.len() > 0 {
        let head = props.drop_last();
        let out = externalized(class, props);
        lemma_externalized(class, head);
        assert forall|i: int| 0 <= i < props.len() && is_kept(class, props[i]) implies out.contains(
            #[trigger] props[i],
        ) by {
            if i == props.len() - 1 {
                assert(out[out.len() - 1] == props[i]);
            } else {
                assert(externalized(class, head).contains(head[i]));
                let j = choose|j: int|
                    0 <= j < externalized(class, head).len() && externalized(class, head)[j]
                        == head[i];
                assert(out[j] == props[i]);
            }
        }
    }
}

/// What the externalizer makes of the properties of one node.
#[derive(Debug, PartialEq, Eq)]
pub struct Externalized {
    /// The properties that go into the metadata.
    pub kept: Vec<Property>,
    /// The names of the properties that were left out because their values
    /// have no encoding.
    pub omitted: Vec<String>,
    /// The source text, if the node has one.
    pub source: Option<String>,
}

/// The names of a list of properties.
pub open spec fn names_of(props: Seq<PropertyModel>) -> Seq<Seq<char>> {
    Seq::new(props.len(), |i: int| props[i].name)
}

/// The default value of a property of a class, where the table has one.
pub fn default_of(class: &str, property: &str) -> (r: Option<Value>)
    ensures
        match r {
            Some(v) => default_value(class@, property@) == Some(v@),
            None => default_value(class@, property@) is None,
        },
{
    proof {
        reveal_strlit("Disabled");
        reveal_strlit("LinkedSource");
        assert("Disabled"@.len() == 8 && "LinkedSource"@.len() == 12);
    }
    if same_text(property, "Archivable") {
        Some(Value::Bool(true))
    } else if same_text(property, "Disabled") {
        match script_kind_of(class) {
            Some(ScriptKind::Server) => Some(Value::Bool(false)),
            Some(ScriptKind::Client) => Some(Value::Bool(false)),
            _ => None,
        }
    } else if same_text(property, "LinkedSource") {
        if script_kind_of(class).is_some() {
            let empty = String::new();
            Some(Value::Text(empty))
        } else {
            None
        }
    } else {
        None
    }
}

fn differs_from_default(class: &str, p: &Property) -> (r: bool)
    ensures
        r == (default_value(class@, p@.name) != Some(p@.value)),
{
    match default_of(class, p.name.as_str()) {
        Some(v) => !v.same_as(&p.value),
        None => true,
    }
}

fn holds_source(class: &str, p: &Property) -> (r: bool)
    ensures
        r == is_source(class@, p@),
{
    match &p.value {
        Value::Text(_) => script_kind_of(class).is_some() && same_text(p.name.as_str(), "Source"),
        _ => false,
    }
}

/// Sorts the properties of a node of the given class into those that go
/// into its metadata, those that cannot be written, and its source text.
/// Nothing else is lost: a property that is in neither list is the source
/// text or holds the default of its class.
pub fn externalize(class: &str, properties: &Vec<Property>) -> (out: Externalized)
    ensures
        property_models(out.kept@) == externalized(class@, property_models(properties@)),
        string_views(out.omitted@) == names_of(omitted(class@, property_models(properties@))),
        match out.source {
            Some(text) => source_text(class@, property_models(properties@)) == Some(text@),
            None => source_text(class@, property_models(properties@)) is None,
        },
{
    let ghost props = property_models(properties@);
    let mut kept: Vec<Property> = Vec::new();
    let mut omitted_names: Vec<String> = Vec::new();
    let mut source: Option<String> = None;
    let mut i: usize = 0;
    proof {
        reveal(Seq::filter);
        assert(props.take(0) =~= Seq::empty());
        assert(names_of(Seq::<PropertyModel>::empty()) =~= Seq::empty());
        assert(string_views(omitted_names@) =~= Seq::empty());
        assert(property_models(kept@) =~= Seq::empty());
    }
    while i < properties.len()
        invariant
            i <= properties.len(),
            props == property_models(properties@),
            property_models(kept@) == externalized(class@, props.take(i as int)),
            string_views(omitted_names@) == names_of(omitted(class@, props.take(i as int))),
            match source {
                Some(text) => source_text(class@, props.take(i as int)) == Some(text@),
                None => source_text(class@, props.take(i as int)) is None,
            },
        decreases properties.len() - i,
    {
        let p = &properties[i];
        let ghost before = props.take(i as int);
        let ghost after = props.take(i + 1);
        assert(after.drop_last() == before);
        assert(after.last() == p@);
        assert(after == before.push(p@));
        proof {
            before.lemma_filter_push(p@, kept_of(class@));
            before.lemma_filter_push(p@, omitted_of(class@));
        }
        if holds_source(class, p) {
            if source.is_none() {
                match &p.value {
                    Value::Text(text) => {
                        source = Some(text.clone());
                    },
                    _ => {},
                }
            }
        } else if p.value.is_encodable() {
            if matches!(p.value, Value::Tags(_)) || differs_from_default(class, p) {
                let ghost old_kept = property_models(kept@);
                kept.push(p.duplicate());
                assert(property_models(kept@) =~= old_kept.push(p@));
            }
        } else {
            let ghost old_names = string_views(omitted_names@);
            omitted_names.push(p.name.clone());
            assert(string_views(omitted_names@) =~= old_names.push(p@.name));
            assert(names_of(omitted(class@, before).push(p@)) =~= names_of(
                omitted(class@, before),
            ).push(p@.name));
        }
        i += 1;
    }
    assert(props.take(properties.len() as int) == props);
    Externalized { kept, omitted: omitted_names, source }
}

} // verus!
