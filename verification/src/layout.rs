//! The physical layout of a write plan: the directories and files that stand
//! for each node, as a list of operations in the order in which they have to
//! be performed, and the content of the metadata files.

use vstd::prelude::*;
use crate::classify::{extension, Representation, ScriptKind};
use crate::instance::{Property, PropertyModel};
use crate::json::{Json, JsonModel, Member, render};
use crate::names::{
    lemma_fold_add,
    lemma_kept_names,
    dir_meta_file,
    entries,
    fold,
    init_file,
    manifest_file,
    meta_suffix,
    reserved_entries,
};
use crate::plan::{Metadata, MetadataModel, PlanModel, PlanNode, well_named};
use crate::reader::is_sound;
use crate::text::{concat, copy_strings, extended, string_views};
use crate::value::{encoding, is_encodable, lemma_encoding_sound};

verus! {

/// One operation on the filesystem. Paths are lists of components below the
/// output root; the empty path is the output root itself.
#[derive(Debug, PartialEq, Eq)]
pub struct WriteOp {
    /// The path of the node that the operation belongs to.
    pub owner: Vec<String>,
    /// The path of the directory or file to make.
    pub path: Vec<String>,
    /// The content of the file to write; nothing for a directory to create.
    pub content: Option<String>,
}

/// The mathematical value of an operation.
pub struct OpModel {
    pub owner: Seq<Seq<char>>,
    pub path: Seq<Seq<char>>,
    pub content: Option<Seq<char>>,
}

impl View for WriteOp {
    type V = OpModel;

    open spec fn view(&self) -> OpModel {
        OpModel {
            owner: string_views(self.owner@),
            path: string_views(self.path@),
            content: match self.content {
                Some(text) => Some(text@),
                None => None,
            },
        }
    }
}

/// The mathematical values of a list of operations.
pub open spec fn op_models(list: Seq<WriteOp>) -> Seq<OpModel> {
    Seq::new(list.len(), |i: int| list[i]@)
}

/// The members of the property object of a metadata file: one for each
/// property whose value has an encoding, under the property's name, in the
/// order of the properties.
pub open spec fn property_members(props: Seq<PropertyModel>) -> Seq<(Seq<char>, JsonModel)>
    decreases props.len(),
{
    if props.len() == 0 {
        Seq::empty()
    } else {
        let rest = property_members(props.drop_last());
        if is_encodable(props.last().value) {
            rest.push((props.last().name, encoding(props.last().value)))
        } else {
            rest
        }
    }
}

/// The document of a metadata file: the display name under `name` where the
/// node was renamed, and the tagged properties under `properties`.
pub open spec fn metadata_document(meta: MetadataModel) -> JsonModel {
    let properties = ("properties"@, JsonModel::Object(property_members(meta.properties)));
    JsonModel::Object(
        match meta.original_name {
            Some(name) => seq![("name"@, JsonModel::Str(name)), properties],
            None => seq![properties],
        },
    )
}

/// The path of a node: the path of its parent directory followed by its
/// name; for the root, the output root.
pub open spec fn own_path(plan: PlanModel, parent: Seq<Seq<char>>, is_root: bool) -> Seq<
    Seq<char>,
> {
    if is_root {
        parent
    } else {
        parent.push(plan.component)
    }
}

/// The operation that writes the metadata of a node, if it has any.
pub open spec fn meta_ops(plan: PlanModel, owner: Seq<Seq<char>>, path: Seq<Seq<char>>) -> Seq<
    OpModel,
> {
    match plan.metadata {
        Some(meta) => seq![
            OpModel { owner, path, content: Some(render(metadata_document(meta))) },
        ],
        None => Seq::empty(),
    }
}

/// The text of a content that may be missing.
pub open spec fn text_of(content: Option<Seq<char>>) -> Seq<char> {
    match content {
        Some(text) => text,
        None => Seq::empty(),
    }
}

/// The operations that make a node itself, without what is below it. A
/// source file is written under its name and extension, its metadata beside
/// it; a directory is created first, then the init file of a script and the
/// metadata file are written into it.
pub open spec fn own_ops(plan: PlanModel, parent: Seq<Seq<char>>, is_root: bool) -> Seq<OpModel> {
    let own = own_path(plan, parent, is_root);
    match plan.kind {
        Representation::SourceFile(kind) => seq![
            OpModel {
                owner: own,
                path: parent.push(plan.component + extension(kind)),
                content: Some(text_of(plan.content)),
            },
        ] + meta_ops(plan, own, parent.push(plan.component + meta_suffix())),
        Representation::DirectoryWithInit(kind) => seq![
            OpModel { owner: own, path: own, content: None },
            OpModel {
                owner: own,
                path: own.push(init_file(kind)),
                content: Some(text_of(plan.content)),
            },
        ] + meta_ops(plan, own, own.push(dir_meta_file())),
        Representation::PlainDirectory => seq![OpModel { owner: own, path: own, content: None }]
            + meta_ops(plan, own, own.push(dir_meta_file())),
    }
}

/// The operations that make a node and everything below it, in order: the
/// node itself first, then its children one after the other. A directory is
/// created before anything is written into it.
pub open spec fn node_ops(plan: PlanModel, parent: Seq<Seq<char>>, is_root: bool) -> Seq<OpModel>
    decreases plan,
{
    own_ops(plan, parent, is_root) + if plan.kind.is_directory() {
        children_ops(plan.children, plan.children.len(), own_path(plan, parent, is_root))
    } else {
        Seq::empty()
    }
}

/// The operations that make the first `n` children of a directory.
pub open spec fn children_ops(children: Seq<PlanModel>, n: nat, parent: Seq<Seq<char>>) -> Seq<
    OpModel,
>
    decreases children, n,
{
    if n == 0 || n > children.len() {
        Seq::empty()
    } else {
        children_ops(children, (n - 1) as nat, parent) + node_ops(children[n - 1], parent, false)
    }
}

/// The operations that materialize a whole plan below the output root.
pub open spec fn plan_ops(plan: PlanModel) -> Seq<OpModel> {
    node_ops(plan, Seq::empty(), true)
}

/// Whether operation `j` creates the directory that holds the target of
/// operation `i`, for a node that is the node of operation `i` or above it.
pub open spec fn creates_directory_of(ops: Seq<OpModel>, j: int, i: int) -> bool {
    &&& ops[j].content is None
    &&& ops[j].path == ops[i].path.drop_last()
    &&& ops[j].owner.is_prefix_of(ops[i].owner)
}

/// Whether the directory that holds the target of operation `i` is created
/// by an operation before it.
pub open spec fn directory_comes_first(ops: Seq<OpModel>, i: int) -> bool {
    exists|j: int| 0 <= j < i && #[trigger] creates_directory_of(ops, j, i)
}

/// Whether operation `i` among the operations of a node writes straight into
/// the directory `parent`, which is there already, or into a directory that
/// an operation before it creates.
pub open spec fn is_placed(ops: Seq<OpModel>, i: int, parent: Seq<Seq<char>>) -> bool {
    ops[i].path.len() > 0 && ((ops[i].path.drop_last() == parent && parent.is_prefix_of(
        ops[i].owner,
    )) || directory_comes_first(ops, i))
}

/// Among the operations of a node that is not the root, every operation is
/// placed with respect to the directory of the node's parent.
pub proof fn lemma_node_ops_placed(plan: PlanModel, parent: Seq<Seq<char>>)
    ensures
        forall|i: int|
            0 <= i < node_ops(plan, parent, false).len() ==> is_placed(
                node_ops(plan, parent, false),
                i,
                parent,
            ),
    decreases plan,
{
    let ops = node_ops(plan, parent, false);
    let own = parent.push(plan.component);
    let first = own_ops(plan, parent, false);
    assert(own.drop_last() == parent);
    assert(parent.is_prefix_of(own)) by {
        assert(own.subrange(0, parent.len() as int) =~= parent);
    }
    assert(own.is_prefix_of(own)) by {
        assert(own.subrange(0, own.len() as int) =~= own);
    }
    assert forall|i: int| 0 <= i < first.len() implies is_placed(first, i, parent) by {
        match plan.kind {
            Representation::SourceFile(kind) => {
                assert(parent.push(plan.component + extension(kind)).drop_last() == parent);
                assert(parent.push(plan.component + meta_suffix()).drop_last() == parent);
            },
            Representation::DirectoryWithInit(kind) => {
                assert(own.push(init_file(kind)).drop_last() == own);
                assert(own.push(dir_meta_file()).drop_last() == own);
                if i > 0 {
                    assert(creates_directory_of(first, 0, i));
                }
            },
            Representation::PlainDirectory => {
                assert(own.push(dir_meta_file()).drop_last() == own);
                if i > 0 {
                    assert(creates_directory_of(first, 0, i));
                }
            },
        }
    }
    if plan.kind.is_directory() {
        let rest = children_ops(plan.children, plan.children.len(), own);
        lemma_children_ops_placed(plan.children, plan.children.len(), own);
        assert(ops == first + rest);
        assert(first[0].content is None && first[0].path == own && first[0].owner == own);
        assert forall|i: int| 0 <= i < ops.len() implies is_placed(ops, i, parent) by {
            if i < first.len() {
                assert(ops[i] == first[i]);
                assert(is_placed(first, i, parent));
                if !(first[i].path.drop_last() == parent && parent.is_prefix_of(first[i].owner)) {
                    let j = choose|j: int| 0 <= j < i && #[trigger] creates_directory_of(first, j, i);
                    assert(ops[j] == first[j]);
                    assert(creates_directory_of(ops, j, i));
                }
            } else {
                let k = i - first.len();
                assert(ops[i] == rest[k]);
                assert(is_placed(rest, k, own));
                if rest[k].path.drop_last() == own && own.is_prefix_of(rest[k].owner) {
                    assert(ops[0] == first[0]);
                    assert(creates_directory_of(ops, 0, i));
                } else {
                    let j = choose|j: int| 0 <= j < k && #[trigger] creates_directory_of(rest, j, k);
                    assert(ops[j + first.len()] == rest[j]);
                    assert(creates_directory_of(ops, j + first.len(), i));
                }
            }
        }
    } else {
        assert(ops =~= first);
    }
}

/// Among the operations of the first `n` children of a directory, every
/// operation is placed with respect to that directory.
pub proof fn lemma_children_ops_placed(children: Seq<PlanModel>, n: nat, parent: Seq<Seq<char>>)
    requires
        n <= children.len(),
    ensures
        forall|i: int|
            0 <= i < children_ops(children, n, parent).len() ==> is_placed(
                children_ops(children, n, parent),
                i,
                parent,
            ),
    decreases children, n,
{
    if n > 0 {
        let before = children_ops(children, (n - 1) as nat, parent);
        let last = node_ops(children[n - 1], parent, false);
        let ops = children_ops(children, n, parent);
        lemma_children_ops_placed(children, (n - 1) as nat, parent);
        lemma_node_ops_placed(children[n - 1], parent);
        assert(ops == before + last);
        assert forall|i: int| 0 <= i < ops.len() implies is_placed(ops, i, parent) by {
            if i < before.len() {
                assert(ops[i] == before[i]);
                assert(is_placed(before, i, parent));
                if !(before[i].path.drop_last() == parent && parent.is_prefix_of(before[i].owner)) {
                    let j = choose|j: int|
                        0 <= j < i && #[trigger] creates_directory_of(before, j, i);
                    assert(ops[j] == before[j]);
                    assert(creates_directory_of(ops, j, i));
                }
            } else {
                let k = i - before.len();
                assert(ops[i] == last[k]);
                assert(is_placed(last, k, parent));
                if !(last[k].path.drop_last() == parent && parent.is_prefix_of(last[k].owner)) {
                    let j = choose|j: int| 0 <= j < k && #[trigger] creates_directory_of(last, j, k);
                    assert(ops[j + before.len()] == last[j]);
                    assert(creates_directory_of(ops, j + before.len(), i));
                }
            }
        }
    }
}

/// Directories before their contents: among the operations of a plan whose
/// root is a directory, the first creates the output root, and every other
/// one has its target in a directory that an operation before it creates.
pub proof fn lemma_directories_come_first(plan: PlanModel)
    requires
        plan.kind.is_directory(),
    ensures
        plan_ops(plan).len() > 0,
        plan_ops(plan)[0].content is None,
        plan_ops(plan)[0].path == Seq::<Seq<char>>::empty(),
        forall|i: int|
            0 < i < plan_ops(plan).len() ==> (#[trigger] plan_ops(plan)[i]).path.len() > 0
                && directory_comes_first(plan_ops(plan), i),
{
    let root = Seq::<Seq<char>>::empty();
    let ops = plan_ops(plan);
    let first = own_ops(plan, root, true);
    let rest = children_ops(plan.children, plan.children.len(), root);
    lemma_children_ops_placed(plan.children, plan.children.len(), root);
    assert(ops == first + rest);
    assert(first[0].content is None && first[0].path == root && first[0].owner == root);
    assert(ops[0] == first[0]);
    assert forall|i: int| 0 < i < ops.len() implies (#[trigger] ops[i]).path.len() > 0
        && directory_comes_first(ops, i) by {
        assert(root.is_prefix_of(ops[i].owner)) by {
            assert(ops[i].owner.subrange(0, 0) =~= root);
        }
        if i < first.len() {
            assert(ops[i] == first[i]);
            match plan.kind {
                Representation::DirectoryWithInit(kind) => {
                    assert(root.push(init_file(kind)).drop_last() == root);
                    assert(root.push(dir_meta_file()).drop_last() == root);
                },
                _ => {
                    assert(root.push(dir_meta_file()).drop_last() == root);
                },
            }
            assert(creates_directory_of(ops, 0, i));
        } else {
            let k = i - first.len();
            assert(ops[i] == rest[k]);
            assert(is_placed(rest, k, root));
            if rest[k].path.drop_last() == root && root.is_prefix_of(rest[k].owner) {
                assert(creates_directory_of(ops, 0, i));
            } else {
                let j = choose|j: int| 0 <= j < k && #[trigger] creates_directory_of(rest, j, k);
                assert(ops[j + first.len()] == rest[j]);
                assert(creates_directory_of(ops, j + first.len(), i));
            }
        }
    }
}

/// Every number in a metadata document is a numeral that JSON accepts.
pub proof fn lemma_metadata_sound(meta: MetadataModel)
    ensures
        is_sound(metadata_document(meta)),
{
    lemma_members_sound(meta.properties);
    let members = metadata_document(meta)->Object_0;
    assert forall|i: int| 0 <= i < members.len() implies is_sound((#[trigger] members[i]).1) by {}
}

/// Every number in the members written for properties is a numeral that
/// JSON accepts.
pub proof fn lemma_members_sound(props: Seq<PropertyModel>)
    ensures
        forall|i: int|
            0 <= i < property_members(props).len() ==> is_sound(
                (#[trigger] property_members(props)[i]).1,
            ),
        is_sound(JsonModel::Object(property_members(props))),
    decreases props.len(),
{
    let members = property_members(props);
    if props.len() > 0 {
        lemma_members_sound(props.drop_last());
        let head = property_members(props.drop_last());
        assert forall|i: int| 0 <= i < members.len() implies is_sound((#[trigger] members[i]).1) by {
            if i < head.len() {
                assert(members[i] == head[i]);
            } else {
                lemma_encoding_sound(props.last().value);
            }
        }
    }
}

/// A path without regard to letter case.
pub open spec fn fold_path(path: Seq<Seq<char>>) -> Seq<Seq<char>> {
    Seq::new(path.len(), |i: int| fold(path[i]))
}

/// Whether two operations have the same target on a filesystem that does
/// not tell upper case from lower case.
pub open spec fn same_target(a: OpModel, b: OpModel) -> bool {
    fold_path(a.path) == fold_path(b.path)
}

/// Whether the target of an operation lies below the directory `parent`.
pub open spec fn lies_below(op: OpModel, parent: Seq<Seq<char>>) -> bool {
    op.path.len() > parent.len() && op.path.take(parent.len() as int) == parent
}

/// The folded name of the entry of `parent` in or under which the target of
/// an operation lies.
pub open spec fn entry_in(op: OpModel, parent: Seq<Seq<char>>) -> Seq<char> {
    fold(op.path[parent.len() as int])
}

/// Targets under different entries of one directory differ.
pub proof fn lemma_entries_tell_apart(a: OpModel, b: OpModel, parent: Seq<Seq<char>>)
    requires
        lies_below(a, parent),
        lies_below(b, parent),
        entry_in(a, parent) != entry_in(b, parent),
    ensures
        !same_target(a, b),
{
    assert(fold_path(a.path)[parent.len() as int] == entry_in(a, parent));
    assert(fold_path(b.path)[parent.len() as int] == entry_in(b, parent));
}

/// What is below an entry of a directory is below the directory, under
/// that entry.
pub proof fn lemma_below_entry(op: OpModel, parent: Seq<Seq<char>>, name: Seq<char>)
    requires
        op.path == parent.push(name) || lies_below(op, parent.push(name)),
    ensures
        lies_below(op, parent),
        entry_in(op, parent) == fold(name),
{
    let own = parent.push(name);
    if op.path == own {
        assert(own.take(parent.len() as int) =~= parent);
    } else {
        assert(op.path.take(parent.len() as int) =~= own.take(parent.len() as int));
        assert(own.take(parent.len() as int) =~= parent);
        assert(op.path.take(own.len() as int)[parent.len() as int] == name);
    }
}

/// The names of the files that a directory holds for itself are kept by
/// the directory, and they differ.
pub proof fn lemma_own_files(kind: ScriptKind)
    ensures
        reserved_entries().contains(fold(init_file(kind))),
        reserved_entries().contains(fold(dir_meta_file())),
        fold(init_file(kind)) != fold(dir_meta_file()),
{
    lemma_kept_names(kind);
    assert(fold(init_file(kind)).len() != fold(dir_meta_file()).len());
}

/// The name of a source file and the name of its metadata file differ.
pub proof fn lemma_file_names(name: Seq<char>, kind: ScriptKind)
    ensures
        fold(name + extension(kind)) != fold(name + meta_suffix()),
{
    lemma_kept_names(kind);
    lemma_fold_add(name, extension(kind));
    lemma_fold_add(name, meta_suffix());
    assert(fold(name + extension(kind)).len() == fold(name).len() + extension(kind).len());
    assert(fold(name + meta_suffix()).len() == fold(name).len() + 10);
}

/// Whether the operations in a list have targets that differ pairwise.
pub open spec fn targets_differ(ops: Seq<OpModel>) -> bool {
    forall|i: int, j: int|
        0 <= i < j < ops.len() ==> !same_target(#[trigger] ops[i], #[trigger] ops[j])
}

/// The operations of a directory of a well named plan: the first creates
/// the directory, the others have their targets below it, and no two have
/// the same target.
pub proof fn lemma_directory_targets(plan: PlanModel, parent: Seq<Seq<char>>, is_root: bool)
    requires
        well_named(plan),
        plan.kind.is_directory(),
    ensures
        node_ops(plan, parent, is_root).len() > 0,
        node_ops(plan, parent, is_root)[0].path == own_path(plan, parent, is_root),
        forall|i: int|
            0 < i < node_ops(plan, parent, is_root).len() ==> lies_below(
                #[trigger] node_ops(plan, parent, is_root)[i],
                own_path(plan, parent, is_root),
            ),
        targets_differ(node_ops(plan, parent, is_root)),
    decreases plan, 1nat,
{
    let own = own_path(plan, parent, is_root);
    let ops = node_ops(plan, parent, is_root);
    let first = own_ops(plan, parent, is_root);
    let rest = children_ops(plan.children, plan.children.len(), own);
    lemma_children_targets(plan, plan.children.len(), own);
    assert(ops == first + rest);
    let kind = match plan.kind {
        Representation::DirectoryWithInit(kind) => kind,
        _ => ScriptKind::Module,
    };
    lemma_own_files(kind);
    assert(own.push(init_file(kind)).take(own.len() as int) =~= own);
    assert(own.push(dir_meta_file()).take(own.len() as int) =~= own);
    assert forall|i: int| 0 < i < ops.len() implies lies_below(#[trigger] ops[i], own) by {
        if i >= first.len() {
            assert(ops[i] == rest[i - first.len()]);
        } else {
            assert(ops[i] == first[i]);
        }
    }
    assert forall|i: int| 0 < i < ops.len() implies reserved_entries().contains(
        entry_in(#[trigger] ops[i], own),
    ) == (i < first.len()) by {
        if i >= first.len() {
            assert(ops[i] == rest[i - first.len()]);
        } else {
            assert(ops[i] == first[i]);
        }
    }
    assert forall|i: int, j: int| 0 <= i < j < ops.len() implies !same_target(
        #[trigger] ops[i],
        #[trigger] ops[j],
    ) by {
        if i == 0 {
            assert(ops[0] == first[0]);
            assert(fold_path(ops[i].path).len() != fold_path(ops[j].path).len());
        } else if j < first.len() {
            assert(ops[i] == first[i]);
            assert(ops[j] == first[j]);
            lemma_entries_tell_apart(ops[i], ops[j], own);
        } else if i < first.len() {
            lemma_entries_tell_apart(ops[i], ops[j], own);
        } else {
            assert(ops[i] == rest[i - first.len()]);
            assert(ops[j] == rest[j - first.len()]);
        }
    }
}

/// The operations of the first `n` children of a directory of a well named
/// plan: their targets lie below the directory, under entries that the
/// children take up and the directory does not keep for itself, and no two
/// have the same target.
pub proof fn lemma_children_targets(plan: PlanModel, n: nat, parent: Seq<Seq<char>>)
    requires
        well_named(plan),
        n <= plan.children.len(),
    ensures
        forall|i: int|
            0 <= i < children_ops(plan.children, n, parent).len() ==> {
                let op = #[trigger] children_ops(plan.children, n, parent)[i];
                &&& lies_below(op, parent)
                &&& !reserved_entries().contains(entry_in(op, parent))
                &&& exists|c: int|
                    0 <= c < n && entries(
                        (#[trigger] plan.children[c]).component,
                        plan.children[c].kind,
                    ).contains(entry_in(op, parent))
            },
        targets_differ(children_ops(plan.children, n, parent)),
    decreases plan, 0nat, n,
{
    if n > 0 {
        let children = plan.children;
        let child = children[n - 1];
        let before = children_ops(children, (n - 1) as nat, parent);
        let last = node_ops(child, parent, false);
        let ops = children_ops(children, n, parent);
        lemma_children_targets(plan, (n - 1) as nat, parent);
        lemma_node_targets(child, parent);
        assert(ops == before + last);
        assert forall|i: int| 0 <= i < ops.len() implies {
            let op = #[trigger] ops[i];
            &&& lies_below(op, parent)
            &&& !reserved_entries().contains(entry_in(op, parent))
            &&& exists|c: int|
                0 <= c < n && entries(
                    (#[trigger] children[c]).component,
                    children[c].kind,
                ).contains(entry_in(op, parent))
        } by {
            if i < before.len() {
                assert(ops[i] == before[i]);
                let c = choose|c: int|
                    0 <= c < n - 1 && entries(
                        (#[trigger] children[c]).component,
                        children[c].kind,
                    ).contains(entry_in(before[i], parent));
                assert(entries(children[c].component, children[c].kind).contains(
                    entry_in(ops[i], parent),
                ));
            } else {
                assert(ops[i] == last[i - before.len()]);
                assert(entries(children[n - 1].component, children[n - 1].kind).contains(
                    entry_in(ops[i], parent),
                ));
            }
        }
        assert forall|i: int, j: int| 0 <= i < j < ops.len() implies !same_target(
            #[trigger] ops[i],
            #[trigger] ops[j],
        ) by {
            if j < before.len() {
                assert(ops[i] == before[i]);
                assert(ops[j] == before[j]);
            } else if i >= before.len() {
                assert(ops[i] == last[i - before.len()]);
                assert(ops[j] == last[j - before.len()]);
            } else {
                assert(ops[i] == before[i]);
                assert(ops[j] == last[j - before.len()]);
                let c = choose|c: int|
                    0 <= c < n - 1 && entries(
                        (#[trigger] children[c]).component,
                        children[c].kind,
                    ).contains(entry_in(before[i], parent));
                assert(entries(children[c].component, children[c].kind).disjoint(
                    entries(children[n - 1].component, children[n - 1].kind),
                ));
                lemma_entries_tell_apart(ops[i], ops[j], parent);
            }
        }
    }
}

/// The operations of a node of a well named plan that is not the root:
/// their targets lie below the directory of the node's parent, under
/// entries that the node takes up, and no two have the same target.
pub proof fn lemma_node_targets(plan: PlanModel, parent: Seq<Seq<char>>)
    requires
        well_named(plan),
    ensures
        forall|i: int|
            0 <= i < node_ops(plan, parent, false).len() ==> {
                let op = #[trigger] node_ops(plan, parent, false)[i];
                lies_below(op, parent) && entries(plan.component, plan.kind).contains(
                    entry_in(op, parent),
                )
            },
        targets_differ(node_ops(plan, parent, false)),
    decreases plan, 2nat,
{
    let ops = node_ops(plan, parent, false);
    match plan.kind {
        Representation::SourceFile(kind) => {
            let first = own_ops(plan, parent, false);
            assert(ops =~= first);
            lemma_file_names(plan.component, kind);
            assert forall|i: int| 0 <= i < ops.len() implies {
                let op = #[trigger] ops[i];
                lies_below(op, parent) && entries(plan.component, plan.kind).contains(
                    entry_in(op, parent),
                )
            } by {
                assert(parent.push(plan.component + extension(kind)).take(parent.len() as int)
                    =~= parent);
                assert(parent.push(plan.component + meta_suffix()).take(parent.len() as int)
                    =~= parent);
            }
            assert forall|i: int, j: int| 0 <= i < j < ops.len() implies !same_target(
                #[trigger] ops[i],
                #[trigger] ops[j],
            ) by {
                lemma_entries_tell_apart(ops[i], ops[j], parent);
            }
        },
        _ => {
            lemma_directory_targets(plan, parent, false);
            assert forall|i: int| 0 <= i < ops.len() implies {
                let op = #[trigger] ops[i];
                lies_below(op, parent) && entries(plan.component, plan.kind).contains(
                    entry_in(op, parent),
                )
            } by {
                lemma_below_entry(ops[i], parent, plan.component);
            }
        },
    }
}

/// Nothing is written twice: the operations of a well named plan whose root
/// is a directory have targets that differ pairwise, even where the
/// filesystem does not tell upper case from lower case. So no node
/// overwrites what stands for another node.
pub proof fn lemma_targets_differ(plan: PlanModel)
    requires
        well_named(plan),
        plan.kind.is_directory(),
    ensures
        targets_differ(plan_ops(plan)),
{
    lemma_directory_targets(plan, Seq::empty(), true);
}

/// The names of the entries that a node makes in the directory of its
/// parent: a directory makes one, under its name; a source file makes its
/// file and, where it has metadata, the metadata file beside it.
pub open spec fn node_entries(plan: PlanModel) -> Seq<Seq<char>> {
    match plan.kind {
        Representation::SourceFile(kind) => seq![plan.component + extension(kind)] + if plan.metadata is Some {
            seq![plan.component + meta_suffix()]
        } else {
            Seq::empty()
        },
        _ => seq![plan.component],
    }
}

/// The names of the files that a directory holds for itself: the init file
/// of a script, and the metadata file where the node has metadata.
pub open spec fn own_file_names(plan: PlanModel) -> Seq<Seq<char>> {
    let init = match plan.kind {
        Representation::DirectoryWithInit(kind) => seq![init_file(kind)],
        _ => Seq::empty(),
    };
    init + if plan.metadata is Some {
        seq![dir_meta_file()]
    } else {
        Seq::empty()
    }
}

/// The names of the entries that the first `n` children of a directory
/// make in it, in the order of the children.
pub open spec fn children_entries(children: Seq<PlanModel>, n: nat) -> Seq<Seq<char>>
    decreases n,
{
    if n == 0 || n > children.len() {
        Seq::empty()
    } else {
        children_entries(children, (n - 1) as nat) + node_entries(children[n - 1])
    }
}

/// The names of all the entries of the directory of a node: the files that
/// the directory holds for itself, then what each child makes in it.
pub open spec fn directory_entries(plan: PlanModel) -> Seq<Seq<char>> {
    own_file_names(plan) + children_entries(plan.children, plan.children.len())
}

/// Whether one of the operations has `target` as its target.
pub open spec fn is_made(ops: Seq<OpModel>, target: Seq<Seq<char>>) -> bool {
    exists|i: int| 0 <= i < ops.len() && (#[trigger] ops[i]).path == target
}

/// Whether the target of an operation is one of the entries `names` of the
/// directory `dir`, or lies below one of them.
pub open spec fn lands_in(op: OpModel, dir: Seq<Seq<char>>, names: Seq<Seq<char>>) -> bool {
    op.path.len() > dir.len() && exists|j: int|
        0 <= j < names.len() && op.path.take((dir.len() + 1) as int) == dir.push(#[trigger] names[j])
}

/// What lands in some entries lands in those entries among more.
proof fn lemma_lands_in_more(
    op: OpModel,
    dir: Seq<Seq<char>>,
    before: Seq<Seq<char>>,
    names: Seq<Seq<char>>,
    after: Seq<Seq<char>>,
)
    requires
        lands_in(op, dir, names),
    ensures
        lands_in(op, dir, before + names + after),
{
    let j = choose|j: int|
        0 <= j < names.len() && op.path.take((dir.len() + 1) as int) == dir.push(#[trigger] names[j]);
    let all = before + names + after;
    assert(all[j + before.len()] == names[j]);
}

/// What is made by some operations is made by those operations among more.
proof fn lemma_is_made_more(
    before: Seq<OpModel>,
    ops: Seq<OpModel>,
    after: Seq<OpModel>,
    target: Seq<Seq<char>>,
)
    requires
        is_made(ops, target),
    ensures
        is_made(before + ops + after, target),
{
    let i = choose|i: int| 0 <= i < ops.len() && (#[trigger] ops[i]).path == target;
    let all = before + ops + after;
    assert(all[i + before.len()] == ops[i]);
}

/// What a node makes in the directory of its parent: each of its entries is
/// the target of one of its operations, and every one of its operations has
/// its target at or below one of its entries.
pub proof fn lemma_node_entries(plan: PlanModel, parent: Seq<Seq<char>>)
    requires
        well_named(plan),
    ensures
        forall|j: int|
            0 <= j < node_entries(plan).len() ==> is_made(
                node_ops(plan, parent, false),
                parent.push(#[trigger] node_entries(plan)[j]),
            ),
        forall|i: int|
            0 <= i < node_ops(plan, parent, false).len() ==> lands_in(
                #[trigger] node_ops(plan, parent, false)[i],
                parent,
                node_entries(plan),
            ),
{
    let ops = node_ops(plan, parent, false);
    let names = node_entries(plan);
    let own = parent.push(plan.component);
    match plan.kind {
        Representation::SourceFile(kind) => {
            let first = own_ops(plan, parent, false);
            assert(ops =~= first);
            assert forall|j: int| 0 <= j < names.len() implies is_made(
                ops,
                parent.push(#[trigger] names[j]),
            ) by {
                assert(ops[j].path == parent.push(names[j]));
            }
            assert forall|i: int| 0 <= i < ops.len() implies lands_in(
                #[trigger] ops[i],
                parent,
                names,
            ) by {
                assert(ops[i].path == parent.push(names[i]));
                assert(ops[i].path.take((parent.len() + 1) as int) =~= parent.push(names[i]));
            }
        },
        _ => {
            lemma_directory_targets(plan, parent, false);
            assert(names[0] == plan.component);
            assert(ops[0].path == parent.push(names[0]));
            assert forall|i: int| 0 <= i < ops.len() implies lands_in(
                #[trigger] ops[i],
                parent,
                names,
            ) by {
                if i > 0 {
                    assert(lies_below(ops[i], own));
                    assert(ops[i].path.take((parent.len() + 1) as int) =~= own);
                } else {
                    assert(ops[i].path.take((parent.len() + 1) as int) =~= own);
                }
            }
        },
    }
}

/// What the first `n` children of a directory make in it: each of their
/// entries is the target of one of their operations, and every one of their
/// operations has its target at or below one of their entries.
pub proof fn lemma_children_entries(plan: PlanModel, n: nat, parent: Seq<Seq<char>>)
    requires
        well_named(plan),
        n <= plan.children.len(),
    ensures
        forall|j: int|
            0 <= j < children_entries(plan.children, n).len() ==> is_made(
                children_ops(plan.children, n, parent),
                parent.push(#[trigger] children_entries(plan.children, n)[j]),
            ),
        forall|i: int|
            0 <= i < children_ops(plan.children, n, parent).len() ==> lands_in(
                #[trigger] children_ops(plan.children, n, parent)[i],
                parent,
                children_entries(plan.children, n),
            ),
    decreases n,
{
    if n > 0 {
        let children = plan.children;
        let child = children[n - 1];
        let before_ops = children_ops(children, (n - 1) as nat, parent);
        let last_ops = node_ops(child, parent, false);
        let ops = children_ops(children, n, parent);
        let before = children_entries(children, (n - 1) as nat);
        let last = node_entries(child);
        let names = children_entries(children, n);
        let no_ops = Seq::<OpModel>::empty();
        let no_names = Seq::<Seq<char>>::empty();
        lemma_children_entries(plan, (n - 1) as nat, parent);
        lemma_node_entries(child, parent);
        assert(ops == before_ops + last_ops);
        assert(names == before + last);
        assert(ops =~= no_ops + before_ops + last_ops);
        assert(ops =~= before_ops + last_ops + no_ops);
        assert(names =~= no_names + before + last);
        assert(names =~= before + last + no_names);
        assert forall|j: int| 0 <= j < names.len() implies is_made(
            ops,
            parent.push(#[trigger] names[j]),
        ) by {
            if j < before.len() {
                assert(names[j] == before[j]);
                lemma_is_made_more(no_ops, before_ops, last_ops, parent.push(before[j]));
            } else {
                assert(names[j] == last[j - before.len()]);
                lemma_is_made_more(before_ops, last_ops, no_ops, parent.push(last[j - before.len()]));
            }
        }
        assert forall|i: int| 0 <= i < ops.len() implies lands_in(#[trigger] ops[i], parent, names) by {
            if i < before_ops.len() {
                assert(ops[i] == before_ops[i]);
                lemma_lands_in_more(ops[i], parent, no_names, before, last);
            } else {
                assert(ops[i] == last_ops[i - before_ops.len()]);
                lemma_lands_in_more(ops[i], parent, before, last, no_names);
            }
        }
    }
}

/// What a directory holds: each entry of the directory — the files that it
/// holds for itself and what its children make in it — is the target of one
/// of the operations of its node, and every operation after the one that
/// creates the directory has its target at or below one of those entries.
/// So the directory holds its entries and nothing else.
pub proof fn lemma_directory_entries(plan: PlanModel, parent: Seq<Seq<char>>, is_root: bool)
    requires
        well_named(plan),
        plan.kind.is_directory(),
    ensures
        forall|j: int|
            0 <= j < directory_entries(plan).len() ==> is_made(
                node_ops(plan, parent, is_root),
                own_path(plan, parent, is_root).push(#[trigger] directory_entries(plan)[j]),
            ),
        forall|i: int|
            0 < i < node_ops(plan, parent, is_root).len() ==> lands_in(
                #[trigger] node_ops(plan, parent, is_root)[i],
                own_path(plan, parent, is_root),
                directory_entries(plan),
            ),
{
    let own = own_path(plan, parent, is_root);
    let ops = node_ops(plan, parent, is_root);
    let first = own_ops(plan, parent, is_root);
    let rest = children_ops(plan.children, plan.children.len(), own);
    let own_names = own_file_names(plan);
    let child_names = children_entries(plan.children, plan.children.len());
    let names = directory_entries(plan);
    let no_ops = Seq::<OpModel>::empty();
    let no_names = Seq::<Seq<char>>::empty();
    lemma_children_entries(plan, plan.children.len(), own);
    assert(ops == first + rest);
    assert(ops =~= first + rest + no_ops);
    assert(names =~= own_names + child_names + no_names);
    assert(names =~= no_names + own_names + child_names);
    assert(first.len() == 1 + own_names.len());
    assert forall|k: int| 0 <= k < own_names.len() implies (#[trigger] first[k + 1]).path
        == own.push(own_names[k]) by {}
    assert forall|j: int| 0 <= j < names.len() implies is_made(
        ops,
        own.push(#[trigger] names[j]),
    ) by {
        if j < own_names.len() {
            assert(names[j] == own_names[j]);
            assert(ops[j + 1] == first[j + 1]);
        } else {
            assert(names[j] == child_names[j - own_names.len()]);
            lemma_is_made_more(first, rest, no_ops, own.push(child_names[j - own_names.len()]));
        }
    }
    assert forall|i: int| 0 < i < ops.len() implies lands_in(#[trigger] ops[i], own, names) by {
        if i < first.len() {
            assert(ops[i] == first[i]);
            assert(first[i].path == own.push(own_names[i - 1]));
            assert(ops[i].path.take((own.len() + 1) as int) =~= own.push(own_names[i - 1]));
            assert(names[i - 1] == own_names[i - 1]);
        } else {
            assert(ops[i] == rest[i - first.len()]);
            lemma_lands_in_more(ops[i], own, own_names, child_names, no_names);
        }
    }
}

/// The entries that the first `n` children of a directory of a well named
/// plan make in it differ pairwise, whatever the case of their letters, and
/// none is a name that the directory keeps for itself.
pub proof fn lemma_children_entries_differ(plan: PlanModel, n: nat)
    requires
        well_named(plan),
        n <= plan.children.len(),
    ensures
        forall|j: int|
            0 <= j < children_entries(plan.children, n).len() ==> !reserved_entries().contains(
                fold(#[trigger] children_entries(plan.children, n)[j]),
            ) && exists|k: int|
                0 <= k < n && entries(
                    (#[trigger] plan.children[k]).component,
                    plan.children[k].kind,
                ).contains(fold(children_entries(plan.children, n)[j])),
        forall|a: int, b: int|
            0 <= a < b < children_entries(plan.children, n).len() ==> fold(
                #[trigger] children_entries(plan.children, n)[a],
            ) != fold(#[trigger] children_entries(plan.children, n)[b]),
    decreases n,
{
    if n > 0 {
        let children = plan.children;
        let child = children[n - 1];
        let before = children_entries(children, (n - 1) as nat);
        let last = node_entries(child);
        let names = children_entries(children, n);
        lemma_children_entries_differ(plan, (n - 1) as nat);
        assert(names == before + last);
        let taken = entries(child.component, child.kind);
        assert forall|j: int| 0 <= j < last.len() implies taken.contains(fold(#[trigger] last[j])) by {}
        match child.kind {
            Representation::SourceFile(kind) => {
                lemma_file_names(child.component, kind);
            },
            _ => {},
        }
        assert forall|j: int| 0 <= j < names.len() implies !reserved_entries().contains(
            fold(#[trigger] names[j]),
        ) && exists|k: int|
            0 <= k < n && entries((#[trigger] children[k]).component, children[k].kind).contains(
                fold(names[j]),
            ) by {
            if j < before.len() {
                assert(names[j] == before[j]);
                let k = choose|k: int|
                    0 <= k < n - 1 && entries(
                        (#[trigger] children[k]).component,
                        children[k].kind,
                    ).contains(fold(before[j]));
                assert(entries(children[k].component, children[k].kind).contains(fold(names[j])));
            } else {
                assert(names[j] == last[j - before.len()]);
                assert(entries(children[n - 1].component, children[n - 1].kind).contains(
                    fold(names[j]),
                ));
            }
        }
        assert forall|a: int, b: int| 0 <= a < b < names.len() implies fold(#[trigger] names[a])
            != fold(#[trigger] names[b]) by {
            if b < before.len() {
                assert(names[a] == before[a]);
                assert(names[b] == before[b]);
            } else if a >= before.len() {
                assert(names[a] == last[a - before.len()]);
                assert(names[b] == last[b - before.len()]);
            } else {
                assert(names[a] == before[a]);
                assert(names[b] == last[b - before.len()]);
                let k = choose|k: int|
                    0 <= k < n - 1 && entries(
                        (#[trigger] children[k]).component,
                        children[k].kind,
                    ).contains(fold(before[a]));
                assert(entries(children[k].component, children[k].kind).disjoint(
                    entries(children[n - 1].component, children[n - 1].kind),
                ));
            }
        }
    }
}

/// Nothing is lost or doubled in a directory: the entries of the directory
/// of a node of a well named plan differ pairwise, whatever the case of
/// their letters.
pub proof fn lemma_directory_entries_differ(plan: PlanModel)
    requires
        well_named(plan),
        plan.kind.is_directory(),
    ensures
        forall|a: int, b: int|
            0 <= a < b < directory_entries(plan).len() ==> fold(
                #[trigger] directory_entries(plan)[a],
            ) != fold(#[trigger] directory_entries(plan)[b]),
{
    let own_names = own_file_names(plan);
    let child_names = children_entries(plan.children, plan.children.len());
    let names = directory_entries(plan);
    let kind = match plan.kind {
        Representation::DirectoryWithInit(kind) => kind,
        _ => ScriptKind::Module,
    };
    lemma_own_files(kind);
    lemma_children_entries_differ(plan, plan.children.len());
    assert forall|a: int, b: int| 0 <= a < b < names.len() implies fold(#[trigger] names[a])
        != fold(#[trigger] names[b]) by {
        if b < own_names.len() {
            assert(names[a] == own_names[a]);
            assert(names[b] == own_names[b]);
        } else if a >= own_names.len() {
            assert(names[a] == child_names[a - own_names.len()]);
            assert(names[b] == child_names[b - own_names.len()]);
        } else {
            assert(names[a] == own_names[a]);
            assert(names[b] == child_names[b - own_names.len()]);
            assert(reserved_entries().contains(fold(own_names[a])));
        }
    }
}

/// A container with metadata and two children that are directories holds
/// three entries and no more: its metadata file and one directory for each
/// child.
pub proof fn lemma_container_entries(plan: PlanModel)
    requires
        plan.kind is PlainDirectory,
        plan.metadata is Some,
        plan.children.len() == 2,
        plan.children[0].kind.is_directory(),
        plan.children[1].kind.is_directory(),
    ensures
        directory_entries(plan) == seq![
            dir_meta_file(),
            plan.children[0].component,
            plan.children[1].component,
        ],
{
    reveal_with_fuel(children_entries, 3);
    assert(directory_entries(plan) =~= seq![
        dir_meta_file(),
        plan.children[0].component,
        plan.children[1].component,
    ]);
}

/// No operation of a well named plan whose root is a directory has the
/// manifest file at the output root as its target, so the manifest can be
/// written there at the end without overwriting anything.
pub proof fn lemma_manifest_target_free(plan: PlanModel)
    requires
        well_named(plan),
        plan.kind.is_directory(),
    ensures
        forall|i: int|
            0 <= i < plan_ops(plan).len() ==> fold_path((#[trigger] plan_ops(plan)[i]).path)
                != seq![fold(manifest_file())],
{
    let root = Seq::<Seq<char>>::empty();
    let ops = plan_ops(plan);
    let first = own_ops(plan, root, true);
    let rest = children_ops(plan.children, plan.children.len(), root);
    lemma_children_targets(plan, plan.children.len(), root);
    assert(ops == first + rest);
    let kind = match plan.kind {
        Representation::DirectoryWithInit(kind) => kind,
        _ => ScriptKind::Module,
    };
    lemma_kept_names(kind);
    assert(fold(init_file(kind)).len() == 8 || fold(init_file(kind)).len() == 15);
    assert(fold(dir_meta_file()).len() == 14);
    assert(fold(manifest_file()).len() == 20);
    assert(reserved_entries().contains(fold(manifest_file())));
    assert forall|i: int| 0 <= i < ops.len() implies fold_path((#[trigger] ops[i]).path) != seq![
        fold(manifest_file()),
    ] by {
        let target = fold_path(ops[i].path);
        let wanted = seq![fold(manifest_file())];
        assert(wanted.len() == 1 && wanted[0] == fold(manifest_file()));
        assert(target.len() == ops[i].path.len());
        if i < first.len() {
            assert(ops[i] == first[i]);
            if i > 0 {
                assert(first[i].path == root.push(init_file(kind)) || first[i].path == root.push(
                    dir_meta_file(),
                ));
                assert(target[0] == fold(ops[i].path[0]));
                assert(target[0].len() != 20);
            } else {
                assert(ops[i].path.len() == 0);
            }
        } else {
            assert(ops[i] == rest[i - first.len()]);
            assert(lies_below(ops[i], root));
            assert(target[0] == entry_in(ops[i], root));
            assert(!reserved_entries().contains(entry_in(ops[i], root)));
        }
    }
}

fn property_object(props: &Vec<Property>) -> (j: Json)
    ensures
        j@ == JsonModel::Object(property_members(crate::instance::property_models(props@))),
{
    let ghost models = crate::instance::property_models(props@);
    let mut members: Vec<Member> = Vec::new();
    let mut i: usize = 0;
    assert(models.take(0) =~= Seq::empty());
    while i < props.len()
        invariant
            i <= props.len(),
            models == crate::instance::property_models(props@),
            members@.len() == property_members(models.take(i as int)).len(),
            forall|k: int|
                0 <= k < members@.len() ==> (#[trigger] members@[k])@ == property_members(
                    models.take(i as int),
                )[k],
        decreases props.len() - i,
    {
        assert(models.take(i + 1).drop_last() == models.take(i as int));
        assert(models.take(i + 1).last() == props@[i as int]@);
        match props[i].value.encode() {
            Some(tagged) => {
                members.push(Member { key: props[i].name.clone(), value: tagged });
            },
            None => {},
        }
        i += 1;
    }
    assert(models.take(props.len() as int) == models);
    let j = Json::Object(members);
    assert(j@->Object_0 =~= property_members(models));
    j
}

/// The document of a metadata file.
pub fn metadata_json(meta: &Metadata) -> (j: Json)
    ensures
        j@ == metadata_document(meta@),
        is_sound(j@),
{
    proof {
        lemma_metadata_sound(meta@);
    }
    let mut members: Vec<Member> = Vec::new();
    match &meta.original_name {
        Some(name) => {
            let text = Json::Str(name.clone());
            assert(text@ == JsonModel::Str(name@));
            members.push(Member { key: "name".to_owned(), value: text });
        },
        None => {},
    }
    let object = property_object(&meta.properties);
    let ghost inner = object@;
    members.push(Member { key: "properties".to_owned(), value: object });
    assert(members@[members@.len() - 1]@ == ("properties"@, inner));
    let j = Json::Object(members);
    assert(j@->Object_0 =~= metadata_document(meta@)->Object_0);
    j
}

fn push_op(ops: &mut Vec<WriteOp>, op: WriteOp)
    ensures
        op_models(final(ops)@) == op_models(old(ops)@).push(op@),
{
    ops.push(op);
    assert(op_models(ops@) =~= op_models(old(ops)@).push(op@));
}

fn push_meta_op(ops: &mut Vec<WriteOp>, plan: &PlanNode, owner: &Vec<String>, path: Vec<String>)
    ensures
        op_models(final(ops)@) == op_models(old(ops)@) + meta_ops(
            plan@,
            string_views(owner@),
            string_views(path@),
        ),
{
    match &plan.metadata {
        Some(meta) => {
            let text = metadata_json(meta).to_text();
            push_op(ops, WriteOp { owner: copy_strings(owner), path, content: Some(text) });
            assert(op_models(ops@) =~= op_models(old(ops)@) + meta_ops(
                plan@,
                string_views(owner@),
                string_views(path@),
            ));
        },
        None => {
            assert(op_models(ops@) =~= op_models(old(ops)@) + meta_ops(
                plan@,
                string_views(owner@),
                string_views(path@),
            ));
        },
    }
}

fn source_of(plan: &PlanNode) -> (text: String)
    ensures
        text@ == text_of(plan@.content),
{
    match &plan.content {
        Some(text) => text.clone(),
        None => String::new(),
    }
}

fn collect_ops(plan: &PlanNode, parent: &Vec<String>, is_root: bool, ops: &mut Vec<WriteOp>)
    ensures
        op_models(final(ops)@) == op_models(old(ops)@) + node_ops(
            plan@,
            string_views(parent@),
            is_root,
        ),
    decreases plan,
{
    let ghost model = plan@;
    let ghost start = op_models(ops@);
    let ghost above = string_views(parent@);
    let own = if is_root {
        copy_strings(parent)
    } else {
        extended(parent, plan.component.as_str())
    };
    assert(string_views(own@) == own_path(model, above, is_root));
    match plan.kind {
        Representation::SourceFile(kind) => {
            let file = concat(plan.component.as_str(), kind.extension());
            push_op(
                ops,
                WriteOp {
                    owner: copy_strings(&own),
                    path: extended(parent, file.as_str()),
                    content: Some(source_of(plan)),
                },
            );
            let meta = concat(plan.component.as_str(), ".meta.json");
            push_meta_op(ops, plan, &own, extended(parent, meta.as_str()));
            assert(op_models(ops@) =~= start + node_ops(model, above, is_root));
        },
        Representation::DirectoryWithInit(kind) => {
            push_op(ops, WriteOp { owner: copy_strings(&own), path: copy_strings(&own), content: None });
            let init = concat("init", kind.extension());
            push_op(
                ops,
                WriteOp {
                    owner: copy_strings(&own),
                    path: extended(&own, init.as_str()),
                    content: Some(source_of(plan)),
                },
            );
            push_meta_op(ops, plan, &own, extended(&own, "init.meta.json"));
            assert(op_models(ops@) =~= start + own_ops(model, above, is_root));
            collect_children(plan, &own, ops);
            assert(op_models(ops@) =~= start + node_ops(model, above, is_root));
        },
        Representation::PlainDirectory => {
            push_op(ops, WriteOp { owner: copy_strings(&own), path: copy_strings(&own), content: None });
            push_meta_op(ops, plan, &own, extended(&own, "init.meta.json"));
            assert(op_models(ops@) =~= start + own_ops(model, above, is_root));
            collect_children(plan, &own, ops);
            assert(op_models(ops@) =~= start + node_ops(model, above, is_root));
        },
    }
}

fn collect_children(plan: &PlanNode, own: &Vec<String>, ops: &mut Vec<WriteOp>)
    ensures
        op_models(final(ops)@) == op_models(old(ops)@) + children_ops(
            plan@.children,
            plan@.children.len(),
            string_views(own@),
        ),
    decreases plan, 0nat,
{
    let ghost start = op_models(ops@);
    let ghost model = plan@;
    let mut i: usize = 0;
    assert(op_models(ops@) =~= start + children_ops(model.children, 0, string_views(own@)));
    while i < plan.children.len()
        invariant
            i <= plan.children.len(),
            model == plan@,
            model.children.len() == plan.children@.len(),
            op_models(ops@) == start + children_ops(
                model.children,
                i as nat,
                string_views(own@),
            ),
        decreases plan.children.len() - i,
    {
        assert(model.children[i as int] == plan.children@[i as int]@);
        collect_ops(&plan.children[i], own, false, ops);
        i += 1;
        assert(op_models(ops@) =~= start + children_ops(
            model.children,
            i as nat,
            string_views(own@),
        ));
    }
}

/// The operations that materialize a plan below the output root, in the
/// order in which they have to be performed. For a plan whose root is a
/// directory, every directory is created before anything is written into it;
/// if the plan is well named as well, no two operations have the same
/// target and none has the manifest file as its target.
pub fn operations(plan: &PlanNode) -> (ops: Vec<WriteOp>)
    ensures
        op_models(ops@) == plan_ops(plan@),
        plan@.kind.is_directory() ==> forall|i: int|
            0 < i < ops@.len() ==> (#[trigger] op_models(ops@)[i]).path.len() > 0
                && directory_comes_first(op_models(ops@), i),
        plan@.kind.is_directory() && well_named(plan@) ==> targets_differ(op_models(ops@)),
        plan@.kind.is_directory() && well_named(plan@) ==> forall|i: int|
            0 <= i < ops@.len() ==> fold_path((#[trigger] op_models(ops@)[i]).path) != seq![
                fold(manifest_file()),
            ],
{
    proof {
        if plan@.kind.is_directory() {
            lemma_directories_come_first(plan@);
            if well_named(plan@) {
                lemma_targets_differ(plan@);
                lemma_manifest_target_free(plan@);
            }
        }
    }
    let mut ops: Vec<WriteOp> = Vec::new();
    let root: Vec<String> = Vec::new();
    assert(string_views(root@) =~= Seq::empty());
    collect_ops(plan, &root, true, &mut ops);
    assert(op_models(ops@) =~= plan_ops(plan@));
    ops
}

} // verus!
