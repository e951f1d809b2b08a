//! The manifest builder: the document that mirrors the physical layout and
//! lets a build tool put the tree together again. It is built from the
//! finished plan and from the failures of the writer, so that it names
//! nothing that was not made.

use vstd::prelude::*;
use crate::classify::{extension, Representation};
use crate::json::{Json, JsonModel, Member};
use crate::plan::{PlanModel, PlanNode};
use crate::reader::is_sound;
use crate::text::{concat, extended, same_text, string_views};
use crate::writer::{Failure, failure_models, FailureModel, is_blocked};

verus! {

/// One entry of the manifest.
#[derive(Debug, PartialEq, Eq)]
pub struct ManifestNode {
    /// The resolved name of the node, under which its parent lists it.
    pub key: String,
    /// The declared class.
    pub class: String,
    /// The name of the node's file, where that is not the key itself.
    pub path: Option<String>,
    /// The entries of the children that were made, in their order.
    pub children: Vec<ManifestNode>,
}

/// The mathematical value of a manifest entry.
pub struct ManifestModel {
    pub key: Seq<char>,
    pub class: Seq<char>,
    pub path: Option<Seq<char>>,
    pub children: Seq<ManifestModel>,
}

/// The mathematical value of a manifest entry.
pub open spec fn manifest_model(m: ManifestNode) -> ManifestModel
    decreases m,
{
    ManifestModel {
        key: m.key@,
        class: m.class@,
        path: match m.path {
            Some(p) => Some(p@),
            None => None,
        },
        children: Seq::new(
            m.children@.len(),
            |i: int|
                if 0 <= i < m.children@.len() {
                    manifest_model(m.children@[i])
                } else {
                    arbitrary()
                },
        ),
    }
}

impl View for ManifestNode {
    type V = ManifestModel;

    open spec fn view(&self) -> ManifestModel {
        manifest_model(*self)
    }
}

/// The mathematical values of a list of manifest entries.
pub open spec fn manifest_models(list: Seq<ManifestNode>) -> Seq<ManifestModel> {
    Seq::new(list.len(), |i: int| list[i]@)
}

/// The name of the file of a node where it differs from the node's resolved
/// name: a source file carries its extension. A directory is named by the
/// resolved name itself and needs no pointer.
pub open spec fn entry_name(plan: PlanModel) -> Option<Seq<char>> {
    match plan.kind {
        Representation::SourceFile(kind) => Some(plan.component + extension(kind)),
        _ => None,
    }
}

/// The manifest entry of a node at the path `own` that was made, with the
/// entries of the nodes below it that were made.
pub open spec fn manifest_node(
    plan: PlanModel,
    own: Seq<Seq<char>>,
    failures: Seq<FailureModel>,
) -> ManifestModel
    decreases plan,
{
    ManifestModel {
        key: plan.component,
        class: plan.class,
        path: entry_name(plan),
        children: if plan.kind.is_directory() {
            manifest_children(plan.children, plan.children.len(), own, failures)
        } else {
            Seq::empty()
        },
    }
}

/// The manifest entries of the first `n` children of the directory at
/// `parent`: one for each child against which no failure is held, in the
/// order of the plan.
pub open spec fn manifest_children(
    children: Seq<PlanModel>,
    n: nat,
    parent: Seq<Seq<char>>,
    failures: Seq<FailureModel>,
) -> Seq<ManifestModel>
    decreases children, n,
{
    if n == 0 || n > children.len() {
        Seq::empty()
    } else {
        let rest = manifest_children(children, (n - 1) as nat, parent, failures);
        let own = parent.push(children[n - 1].component);
        if is_blocked(own, failures) {
            rest
        } else {
            rest.push(manifest_node(children[n - 1], own, failures))
        }
    }
}

/// The manifest of a plan after a run with the given failures: the entries
/// of exactly the nodes that were made. There is none where the output root
/// itself could not be made.
pub open spec fn manifest(plan: PlanModel, failures: Seq<FailureModel>) -> Option<ManifestModel> {
    if is_blocked(Seq::empty(), failures) {
        None
    } else {
        Some(manifest_node(plan, Seq::empty(), failures))
    }
}

/// The number of entries of a manifest.
pub open spec fn manifest_size(m: ManifestModel) -> nat
    decreases m,
{
    1 + sizes(m.children, m.children.len())
}

/// The number of entries of the first `n` of a list of manifests.
pub open spec fn sizes(list: Seq<ManifestModel>, n: nat) -> nat
    decreases list, n,
{
    if n == 0 || n > list.len() {
        0
    } else {
        sizes(list, (n - 1) as nat) + manifest_size(list[n - 1])
    }
}

/// The document of a manifest entry: the class under `className`, the file
/// name under `path` where the entry has one, and under `children` an object
/// with one member for each child, named by the child's key.
pub open spec fn manifest_document(m: ManifestModel) -> JsonModel
    decreases m,
{
    let class = seq![("className"@, JsonModel::Str(m.class))];
    let path = match m.path {
        Some(p) => seq![("path"@, JsonModel::Str(p))],
        None => Seq::empty(),
    };
    let children = seq![
        ("children"@, JsonModel::Object(child_members(m.children, m.children.len()))),
    ];
    JsonModel::Object(class + path + children)
}

/// The members that stand for the first `n` children of a manifest entry.
pub open spec fn child_members(children: Seq<ManifestModel>, n: nat) -> Seq<
    (Seq<char>, JsonModel),
>
    decreases children, n,
{
    if n == 0 || n > children.len() {
        Seq::empty()
    } else {
        child_members(children, (n - 1) as nat).push(
            (children[n - 1].key, manifest_document(children[n - 1])),
        )
    }
}

/// The manifest lists what was made and nothing else: among the first `n`
/// children of a directory, each child against which no failure is held has
/// its entry, and each entry is that of such a child.
pub proof fn lemma_manifest_children(
    children: Seq<PlanModel>,
    n: nat,
    parent: Seq<Seq<char>>,
    failures: Seq<FailureModel>,
)
    requires
        n <= children.len(),
    ensures
        manifest_children(children, n, parent, failures).len() <= n,
        forall|i: int|
            0 <= i < n && !is_blocked(parent.push(children[i].component), failures)
                ==> manifest_children(children, n, parent, failures).contains(
                #[trigger] manifest_node(children[i], parent.push(children[i].component), failures),
            ),
        forall|k: int|
            0 <= k < manifest_children(children, n, parent, failures).len() ==> exists|i: int|
                0 <= i < n && !is_blocked(parent.push(children[i].component), failures)
                    && #[trigger] manifest_children(children, n, parent, failures)[k]
                    == manifest_node(children[i], parent.push(children[i].component), failures),
    decreases n,
{
    if n > 0 {
        let rest = manifest_children(children, (n - 1) as nat, parent, failures);
        let all = manifest_children(children, n, parent, failures);
        lemma_manifest_children(children, (n - 1) as nat, parent, failures);
        assert forall|i: int|
            0 <= i < n && !is_blocked(parent.push(children[i].component), failures) implies all.contains(
            #[trigger] manifest_node(children[i], parent.push(children[i].component), failures),
        ) by {
            let entry = manifest_node(children[i], parent.push(children[i].component), failures);
            if i == n - 1 {
                assert(all[all.len() - 1] == entry);
            } else {
                assert(rest.contains(entry));
                let j = choose|j: int| 0 <= j < rest.len() && rest[j] == entry;
                assert(all[j] == entry);
            }
        }
        assert forall|k: int| 0 <= k < all.len() implies exists|i: int|
            0 <= i < n && !is_blocked(parent.push(children[i].component), failures) && #[trigger] all[k]
                == manifest_node(children[i], parent.push(children[i].component), failures) by {
            if k < rest.len() {
                let i = choose|i: int|
                    0 <= i < n - 1 && !is_blocked(parent.push(children[i].component), failures)
                        && rest[k] == manifest_node(children[i], parent.push(children[i].component), failures);
                assert(all[k] == manifest_node(children[i], parent.push(children[i].component), failures));
            } else {
                assert(all[k] == manifest_node(children[n - 1], parent.push(children[n - 1].component), failures));
            }
        }
    }
}

/// A manifest document holds no number, so every number in it is a numeral
/// that JSON accepts.
pub proof fn lemma_manifest_sound(m: ManifestModel)
    ensures
        is_sound(manifest_document(m)),
    decreases m, 1nat,
{
    lemma_child_members_sound(m, m.children.len());
    let members = manifest_document(m)->Object_0;
    assert forall|i: int| 0 <= i < members.len() implies is_sound((#[trigger] members[i]).1) by {}
}

/// The members written for the first `n` children of a manifest entry hold
/// no number.
proof fn lemma_child_members_sound(m: ManifestModel, n: nat)
    requires
        n <= m.children.len(),
    ensures
        forall|i: int|
            0 <= i < child_members(m.children, n).len() ==> is_sound(
                (#[trigger] child_members(m.children, n)[i]).1,
            ),
        is_sound(JsonModel::Object(child_members(m.children, n))),
    decreases m, 0nat, n,
{
    let members = child_members(m.children, n);
    if n > 0 {
        lemma_child_members_sound(m, (n - 1) as nat);
        lemma_manifest_sound(m.children[n - 1]);
        let head = child_members(m.children, (n - 1) as nat);
        assert forall|i: int| 0 <= i < members.len() implies is_sound((#[trigger] members[i]).1) by {
            if i < head.len() {
                assert(members[i] == head[i]);
            }
        }
    }
}

fn is_prefix(a: &Vec<String>, b: &Vec<String>) -> (r: bool)
    ensures
        r == string_views(a@).is_prefix_of(string_views(b@)),
{
    if a.len() > b.len() {
        return false;
    }
    let mut i: usize = 0;
    while i < a.len()
        invariant
            i <= a.len() <= b.len(),
            forall|k: int| 0 <= k < i ==> a@[k]@ == b@[k]@,
        decreases a.len() - i,
    {
        if !same_text(a[i].as_str(), b[i].as_str()) {
            assert(string_views(a@)[i as int] != string_views(b@).subrange(
                0,
                a@.len() as int,
            )[i as int]);
            return false;
        }
        i += 1;
    }
    assert(string_views(a@) =~= string_views(b@).subrange(0, a@.len() as int));
    true
}

/// Whether a failure is held against the node at `own` or against a
/// directory above it.
pub fn blocks(failures: &Vec<Failure>, own: &Vec<String>) -> (r: bool)
    ensures
        r == is_blocked(string_views(own@), failure_models(failures@)),
{
    let mut i: usize = 0;
    while i < failures.len()
        invariant
            i <= failures.len(),
            forall|k: int|
                0 <= k < i ==> !(#[trigger] failure_models(failures@)[k]).owner.is_prefix_of(
                    string_views(own@),
                ),
        decreases failures.len() - i,
    {
        if is_prefix(&failures[i].owner, own) {
            assert(failure_models(failures@)[i as int].owner.is_prefix_of(string_views(own@)));
            return true;
        }
        i += 1;
    }
    false
}

fn entry_of(plan: &PlanNode, own: &Vec<String>, failures: &Vec<Failure>) -> (m: ManifestNode)
    ensures
        m@ == manifest_node(plan@, string_views(own@), failure_models(failures@)),
    decreases plan,
{
    let ghost model = plan@;
    let ghost held = failure_models(failures@);
    let mut children: Vec<ManifestNode> = Vec::new();
    let path = match plan.kind {
        Representation::SourceFile(kind) => Some(
            concat(plan.component.as_str(), kind.extension()),
        ),
        _ => None,
    };
    let is_directory = match plan.kind {
        Representation::SourceFile(_) => false,
        _ => true,
    };
    if is_directory {
        let mut i: usize = 0;
        assert(manifest_models(children@) =~= manifest_children(
            model.children,
            0,
            string_views(own@),
            held,
        ));
        while i < plan.children.len()
            invariant
                i <= plan.children.len(),
                model == plan@,
                model.children.len() == plan.children@.len(),
                held == failure_models(failures@),
                manifest_models(children@) == manifest_children(
                    model.children,
                    i as nat,
                    string_views(own@),
                    held,
                ),
            decreases plan.children.len() - i,
        {
            let child = &plan.children[i];
            assert(model.children[i as int] == child@);
            let place = extended(own, child.component.as_str());
            if !blocks(failures, &place) {
                let ghost before = manifest_models(children@);
                let entry = entry_of(child, &place, failures);
                children.push(entry);
                assert(manifest_models(children@) =~= before.push(entry@));
            }
            i += 1;
        }
    }
    let m = ManifestNode {
        key: plan.component.clone(),
        class: plan.class.clone(),
        path,
        children,
    };
    assert(m@.children =~= manifest_models(m.children@));
    assert(m@.children =~= manifest_node(model, string_views(own@), held).children);
    assert(m@.path == entry_name(model));
    m
}

/// Builds the manifest of a plan after a run with the given failures. Every
/// node that was made has its entry, under the entry of its parent and in
/// the order of the plan; a node against which a failure is held has none,
/// and neither has anything below it.
pub fn build_manifest(plan: &PlanNode, failures: &Vec<Failure>) -> (r: Option<ManifestNode>)
    ensures
        match r {
            Some(m) => manifest(plan@, failure_models(failures@)) == Some(m@),
            None => manifest(plan@, failure_models(failures@)) is None,
        },
{
    let root: Vec<String> = Vec::new();
    assert(string_views(root@) =~= Seq::empty());
    if blocks(failures, &root) {
        None
    } else {
        Some(entry_of(plan, &root, failures))
    }
}

/// The document of a manifest.
pub fn manifest_json(m: &ManifestNode) -> (j: Json)
    ensures
        j@ == manifest_document(m@),
        is_sound(j@),
    decreases m,
{
    proof {
        lemma_manifest_sound(m@);
    }
    let ghost model = m@;
    let mut members: Vec<Member> = Vec::new();
    let class = Json::Str(m.class.clone());
    assert(class@ == JsonModel::Str(m.class@));
    members.push(Member { key: "className".to_owned(), value: class });
    match &m.path {
        Some(p) => {
            let text = Json::Str(p.clone());
            assert(text@ == JsonModel::Str(p@));
            members.push(Member { key: "path".to_owned(), value: text });
        },
        None => {},
    }
    let mut inner: Vec<Member> = Vec::new();
    let mut i: usize = 0;
    while i < m.children.len()
        invariant
            i <= m.children.len(),
            model == m@,
            model.children.len() == m.children@.len(),
            inner@.len() == i,
            forall|k: int|
                0 <= k < i ==> (#[trigger] inner@[k])@ == child_members(
                    model.children,
                    model.children.len(),
                )[k],
            child_members(model.children, i as nat).len() == i,
            forall|k: int|
                0 <= k < i ==> child_members(model.children, i as nat)[k] == #[trigger] child_members(
                    model.children,
                    model.children.len(),
                )[k],
        decreases m.children.len() - i,
    {
        assert(model.children[i as int] == m.children@[i as int]@);
        proof {
            lemma_child_members(model.children, (i + 1) as nat, model.children.len());
            lemma_child_members(model.children, i as nat, (i + 1) as nat);
        }
        let doc = manifest_json(&m.children[i]);
        inner.push(Member { key: m.children[i].key.clone(), value: doc });
        i += 1;
    }
    let object = Json::Object(inner);
    assert(object@->Object_0 =~= child_members(model.children, model.children.len()));
    let ghost inner_doc = object@;
    members.push(Member { key: "children".to_owned(), value: object });
    assert(members@[members@.len() - 1]@ == ("children"@, inner_doc));
    let j = Json::Object(members);
    assert(j@->Object_0 =~= manifest_document(model)->Object_0);
    j
}

/// The members of the first `n` children are the first `n` of the members of
/// the first `m` children.
proof fn lemma_child_members(children: Seq<ManifestModel>, n: nat, m: nat)
    requires
        n <= m <= children.len(),
    ensures
        child_members(children, n).len() == n,
        child_members(children, m).len() == m,
        forall|k: int| 0 <= k < n ==> child_members(children, n)[k] == child_members(children, m)[k],
    decreases m,
{
    if n < m {
        lemma_child_members(children, n, (m - 1) as nat);
    } else {
        if n > 0 {
            lemma_child_members(children, (n - 1) as nat, (n - 1) as nat);
        }
    }
}

/// The number of entries of a manifest, or the largest number that fits
/// where there are more.
pub fn count_entries(m: &ManifestNode) -> (n: usize)
    ensures
        n == if manifest_size(m@) > usize::MAX {
            usize::MAX as nat
        } else {
            manifest_size(m@)
        },
    decreases m,
{
    let ghost model = m@;
    let mut total: usize = 0;
    let mut i: usize = 0;
    while i < m.children.len()
        invariant
            i <= m.children.len(),
            model == m@,
            model.children.len() == m.children@.len(),
            total == if sizes(model.children, i as nat) > usize::MAX {
                usize::MAX as nat
            } else {
                sizes(model.children, i as nat)
            },
        decreases m.children.len() - i,
    {
        assert(model.children[i as int] == m.children@[i as int]@);
        total = total.saturating_add(count_entries(&m.children[i]));
        i += 1;
    }
    total.saturating_add(1)
}

} // verus!
