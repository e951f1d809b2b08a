//! The disk as a run leaves it and as a reader finds it: the files that the
//! operations of a plan write, and the tree that the manifest and those
//! files stand for together.

use vstd::prelude::*;
use crate::classify::{extension, Representation, script_kind, ScriptKind};
use crate::instance::{InstanceModel};
use crate::inverse::{
    lemma_manifest_text_round_trip,
    lemma_metadata_document_round_trip,
    lemma_round_trip,
    preserved,
    read_entry,
    read_metadata,
    rebuilt,
    rebuilt_children,
    rebuilt_name,
    rebuilt_properties,
    source_property,
};
use crate::json::render;
use crate::layout::{
    children_ops,
    entry_in,
    lemma_below_entry,
    lemma_file_names,
    lemma_metadata_sound,
    lemma_node_targets,
    lemma_own_files,
    lies_below,
    metadata_document,
    node_ops,
    OpModel,
    own_ops,
    own_path,
    plan_ops,
    same_target,
    targets_differ,
};
use crate::manifest::{manifest_children, manifest_document, manifest_node, ManifestModel};
use crate::names::{dir_meta_file, entries, fold, init_file, meta_suffix};
use crate::plan::{is_coherent, MetadataModel, PlanModel, well_named};
use crate::reader::{lemma_read_inverts_render, read};
use crate::writer::{
    FailureModel,
    final_manifest,
    initial,
    is_blocked,
    lemma_run_invariant,
    lemma_unblocked_was_done,
    run,
    was_done,
};

verus! {

/// The files on a disk that held the files `base` after the first `n` of a
/// list of operations were dealt with, where `done` holds the numbers of the
/// operations that were done: a file that was written holds what was
/// written last, every other file is as it was.
pub open spec fn written_over(
    base: Map<Seq<Seq<char>>, Seq<char>>,
    ops: Seq<OpModel>,
    done: Set<int>,
    n: nat,
) -> Map<Seq<Seq<char>>, Seq<char>>
    decreases n,
{
    if n == 0 || n > ops.len() {
        base
    } else {
        let before = written_over(base, ops, done, (n - 1) as nat);
        match ops[n - 1].content {
            Some(text) => if done.contains(n - 1) {
                before.insert(ops[n - 1].path, text)
            } else {
                before
            },
            None => before,
        }
    }
}

/// The files on a disk that was empty after all of a list of operations
/// were dealt with.
pub open spec fn disk_of(ops: Seq<OpModel>, done: Set<int>) -> Map<Seq<Seq<char>>, Seq<char>> {
    written_over(Map::empty(), ops, done, ops.len())
}

/// Whether a file is written at `p` by one of the first `n` operations that
/// was done.
pub open spec fn is_written(ops: Seq<OpModel>, done: Set<int>, n: nat, p: Seq<Seq<char>>) -> bool {
    exists|i: int|
        0 <= i < n && (#[trigger] ops[i]).path == p && ops[i].content is Some && done.contains(i)
}

/// Whether every operation was done unless a failure is held against its
/// node or against a directory above it.
pub open spec fn made_unless_blocked(
    ops: Seq<OpModel>,
    done: Set<int>,
    failures: Seq<FailureModel>,
) -> bool {
    forall|i: int|
        0 <= i < ops.len() && !is_blocked((#[trigger] ops[i]).owner, failures) ==> done.contains(i)
}

/// Whether the operations of a list have paths that differ pairwise.
pub open spec fn paths_differ(ops: Seq<OpModel>) -> bool {
    forall|i: int, j: int|
        0 <= i < j < ops.len() ==> (#[trigger] ops[i]).path != (#[trigger] ops[j]).path
}

/// Operations whose targets differ have paths that differ.
pub proof fn lemma_paths_differ(ops: Seq<OpModel>)
    requires
        targets_differ(ops),
    ensures
        paths_differ(ops),
{
    assert forall|i: int, j: int| 0 <= i < j < ops.len() implies (#[trigger] ops[i]).path
        != (#[trigger] ops[j]).path by {
        assert(!same_target(ops[i], ops[j]));
    }
}

/// What is on the disk after operations with different paths: where an
/// operation that was done wrote a file, the file is there with the content
/// of that operation; everywhere else the disk is as it was. Nothing is
/// deleted.
pub proof fn lemma_written_over(
    base: Map<Seq<Seq<char>>, Seq<char>>,
    ops: Seq<OpModel>,
    done: Set<int>,
    n: nat,
)
    requires
        paths_differ(ops),
        n <= ops.len(),
    ensures
        forall|i: int|
            0 <= i < n && (#[trigger] ops[i]).content is Some && done.contains(i) ==> written_over(
                base,
                ops,
                done,
                n,
            ).contains_key(ops[i].path) && written_over(base, ops, done, n)[ops[i].path]
                == ops[i].content.unwrap(),
        forall|p: Seq<Seq<char>>|
            !is_written(ops, done, n, p) ==> (#[trigger] written_over(
                base,
                ops,
                done,
                n,
            ).contains_key(p)) == base.contains_key(p),
        forall|p: Seq<Seq<char>>|
            !is_written(ops, done, n, p) && base.contains_key(p) ==> #[trigger] written_over(
                base,
                ops,
                done,
                n,
            )[p] == base[p],
    decreases n,
{
    if n > 0 {
        lemma_written_over(base, ops, done, (n - 1) as nat);
        let before = written_over(base, ops, done, (n - 1) as nat);
        let after = written_over(base, ops, done, n);
        assert forall|i: int|
            0 <= i < n && (#[trigger] ops[i]).content is Some && done.contains(
                i,
            ) implies after.contains_key(ops[i].path) && after[ops[i].path]
            == ops[i].content.unwrap() by {
            if i < n - 1 {
                assert(ops[i].path != ops[n - 1].path);
            }
        }
        assert forall|p: Seq<Seq<char>>| !is_written(ops, done, n, p) implies (#[trigger] after
            .contains_key(p)) == base.contains_key(p) && (base.contains_key(p) ==> after[p]
            == base[p]) by {
            if is_written(ops, done, (n - 1) as nat, p) {
                let i = choose|i: int|
                    0 <= i < n - 1 && (#[trigger] ops[i]).path == p && ops[i].content is Some
                        && done.contains(i);
                assert(0 <= i < n && ops[i].path == p && ops[i].content is Some && done.contains(
                    i,
                ));
            }
            if ops[n - 1].content is Some && done.contains(n - 1) && ops[n - 1].path == p {
                assert(is_written(ops, done, n, p));
            }
        }
    }
}

/// Running twice changes nothing more: doing the same operations again on
/// the disk that they left gives the same disk.
pub proof fn lemma_written_again(
    base: Map<Seq<Seq<char>>, Seq<char>>,
    ops: Seq<OpModel>,
    done: Set<int>,
)
    requires
        paths_differ(ops),
    ensures
        written_over(written_over(base, ops, done, ops.len()), ops, done, ops.len())
            == written_over(base, ops, done, ops.len()),
{
    let once = written_over(base, ops, done, ops.len());
    let twice = written_over(once, ops, done, ops.len());
    lemma_written_over(base, ops, done, ops.len());
    lemma_written_over(once, ops, done, ops.len());
    assert forall|p: Seq<Seq<char>>| #[trigger]
        twice.contains_key(p) == once.contains_key(p) && (once.contains_key(p) ==> twice[p]
            == once[p]) by {
        if is_written(ops, done, ops.len(), p) {
            let i = choose|i: int|
                0 <= i < ops.len() && (#[trigger] ops[i]).path == p && ops[i].content is Some
                    && done.contains(i);
            assert(twice.contains_key(ops[i].path) && twice[ops[i].path]
                == ops[i].content.unwrap());
            assert(once.contains_key(ops[i].path) && once[ops[i].path] == ops[i].content.unwrap());
        }
    }
    assert(twice =~= once);
}

/// The metadata that the file at `path` holds: none where there is no such
/// file; nothing at all where the file cannot be read.
pub open spec fn read_meta_file(disk: Map<Seq<Seq<char>>, Seq<char>>, path: Seq<Seq<char>>) -> Option<
    Option<MetadataModel>,
> {
    if !disk.contains_key(path) {
        Some(None)
    } else {
        match read(disk[path]) {
            Some(document) => match read_metadata(document) {
                Some(meta) => Some(Some(meta)),
                None => None,
            },
            None => None,
        }
    }
}

/// The path of the source file of a manifest entry in the directory
/// `parent`, if the entry has one: the file that the entry points to, or
/// the init file of a directory whose class is script-like.
pub open spec fn source_path(entry: ManifestModel, parent: Seq<Seq<char>>, own: Seq<Seq<char>>) -> Option<
    Seq<Seq<char>>,
> {
    match entry.path {
        Some(file) => Some(parent.push(file)),
        None => match script_kind(entry.class) {
            Some(kind) => Some(own.push(init_file(kind))),
            None => None,
        },
    }
}

/// The path of the metadata file of a manifest entry in the directory
/// `parent`: beside the file that the entry points to, or in the directory
/// that the entry stands for.
pub open spec fn meta_path(entry: ManifestModel, parent: Seq<Seq<char>>, own: Seq<Seq<char>>) -> Seq<
    Seq<char>,
> {
    match entry.path {
        Some(_) => parent.push(entry.key + meta_suffix()),
        None => own.push(dir_meta_file()),
    }
}

/// The tree that a manifest entry and the files on the disk stand for: the
/// class from the entry, the display name from the metadata file or else
/// the key, the source text from the source file, the other properties from
/// the metadata file, and the children from the entries below. Nothing where
/// a file that ought to be there is missing or cannot be read.
pub open spec fn read_node(
    entry: ManifestModel,
    parent: Seq<Seq<char>>,
    is_root: bool,
    disk: Map<Seq<Seq<char>>, Seq<char>>,
) -> Option<InstanceModel>
    decreases entry,
{
    let own = if is_root {
        parent
    } else {
        parent.push(entry.key)
    };
    let source = match source_path(entry, parent, own) {
        Some(p) => if disk.contains_key(p) {
            Some(seq![source_property(disk[p])])
        } else {
            None
        },
        None => Some(Seq::empty()),
    };
    match (
        source,
        read_meta_file(disk, meta_path(entry, parent, own)),
        read_nodes(entry.children, entry.children.len(), own, disk),
    ) {
        (Some(source), Some(meta), Some(children)) => Some(
            InstanceModel {
                id: 0,
                class: entry.class,
                name: match meta {
                    Some(MetadataModel { original_name: Some(name), .. }) => name,
                    _ => entry.key,
                },
                properties: source + match meta {
                    Some(meta) => meta.properties,
                    None => Seq::empty(),
                },
                children,
            },
        ),
        _ => None,
    }
}

/// The trees that the first `n` of a list of manifest entries and the files
/// on the disk stand for.
pub open spec fn read_nodes(
    entries: Seq<ManifestModel>,
    n: nat,
    parent: Seq<Seq<char>>,
    disk: Map<Seq<Seq<char>>, Seq<char>>,
) -> Option<Seq<InstanceModel>>
    decreases entries, n,
{
    if n == 0 || n > entries.len() {
        Some(Seq::empty())
    } else {
        match (
            read_nodes(entries, (n - 1) as nat, parent, disk),
            read_node(entries[n - 1], parent, false, disk),
        ) {
            (Some(rest), Some(node)) => Some(rest.push(node)),
            _ => None,
        }
    }
}


/// What an operation that is among operations with different paths leaves
/// on the disk, where no failure blocks its node: its file, with its
/// content.
pub proof fn lemma_lookup(
    global: Seq<OpModel>,
    done: Set<int>,
    failures: Seq<FailureModel>,
    g: OpModel,
)
    requires
        paths_differ(global),
        made_unless_blocked(global, done, failures),
        global.contains(g),
        g.content is Some,
        !is_blocked(g.owner, failures),
    ensures
        disk_of(global, done).contains_key(g.path),
        disk_of(global, done)[g.path] == g.content.unwrap(),
{
    lemma_written_over(Map::empty(), global, done, global.len());
    let i = choose|i: int| 0 <= i < global.len() && global[i] == g;
    assert(global[i].content is Some);
    assert(done.contains(i));
}

/// A file on the disk was written by one of the operations.
pub proof fn lemma_written(global: Seq<OpModel>, done: Set<int>, p: Seq<Seq<char>>) -> (g: OpModel)
    requires
        paths_differ(global),
        disk_of(global, done).contains_key(p),
    ensures
        global.contains(g),
        g.path == p,
        g.content is Some,
{
    lemma_written_over(Map::empty(), global, done, global.len());
    assert(is_written(global, done, global.len(), p));
    let i = choose|i: int|
        0 <= i < global.len() && (#[trigger] global[i]).path == p && global[i].content is Some
            && done.contains(i);
    global[i]
}

/// The tree that a plan stands for after a run with the given failures:
/// the tree that the plan stands for, without the nodes against which a
/// failure is held and without what is below them.
pub open spec fn surviving(
    plan: PlanModel,
    own: Seq<Seq<char>>,
    failures: Seq<FailureModel>,
) -> InstanceModel
    decreases plan,
{
    InstanceModel {
        id: 0,
        class: plan.class,
        name: rebuilt_name(plan),
        properties: rebuilt_properties(plan),
        children: if plan.kind.is_directory() {
            surviving_children(plan.children, plan.children.len(), own, failures)
        } else {
            Seq::empty()
        },
    }
}

/// The trees that the first `n` children of the directory at `parent`
/// stand for after a run with the given failures.
pub open spec fn surviving_children(
    children: Seq<PlanModel>,
    n: nat,
    parent: Seq<Seq<char>>,
    failures: Seq<FailureModel>,
) -> Seq<InstanceModel>
    decreases children, n,
{
    if n == 0 || n > children.len() {
        Seq::empty()
    } else {
        let rest = surviving_children(children, (n - 1) as nat, parent, failures);
        let own = parent.push(children[n - 1].component);
        if is_blocked(own, failures) {
            rest
        } else {
            rest.push(surviving(children[n - 1], own, failures))
        }
    }
}

/// Without failures the whole tree of a plan that hangs together survives.
pub proof fn lemma_all_survive(plan: PlanModel, own: Seq<Seq<char>>)
    requires
        is_coherent(plan),
    ensures
        surviving(plan, own, Seq::empty()) == rebuilt(plan),
    decreases plan, 1nat,
{
    lemma_all_children_survive(plan, plan.children.len(), own);
    if !plan.kind.is_directory() {
        assert(rebuilt_children(plan.children, plan.children.len()) =~= Seq::<
            InstanceModel,
        >::empty());
    }
}

/// Without failures the trees of the first `n` children of a plan that
/// hangs together survive.
proof fn lemma_all_children_survive(plan: PlanModel, n: nat, own: Seq<Seq<char>>)
    requires
        is_coherent(plan),
        n <= plan.children.len(),
    ensures
        surviving_children(plan.children, n, own, Seq::empty()) == rebuilt_children(
            plan.children,
            n,
        ),
    decreases plan, 0nat, n,
{
    if n > 0 {
        lemma_all_children_survive(plan, (n - 1) as nat, own);
        lemma_all_survive(plan.children[n - 1], own.push(plan.children[n - 1].component));
        assert(!is_blocked(
            own.push(plan.children[n - 1].component),
            Seq::<FailureModel>::empty(),
        ));
    }
}

/// An operation is among the operations of the first `n` children of a
/// directory exactly if it is among the operations of one of them.
pub proof fn lemma_children_ops_contains(
    children: Seq<PlanModel>,
    n: nat,
    parent: Seq<Seq<char>>,
    g: OpModel,
)
    requires
        n <= children.len(),
    ensures
        children_ops(children, n, parent).contains(g) <==> exists|i: int|
            0 <= i < n && (#[trigger] node_ops(children[i], parent, false)).contains(g),
    decreases n,
{
    if n > 0 {
        let before = children_ops(children, (n - 1) as nat, parent);
        let last = node_ops(children[n - 1], parent, false);
        let all = children_ops(children, n, parent);
        lemma_children_ops_contains(children, (n - 1) as nat, parent, g);
        assert(all == before + last);
        if all.contains(g) {
            let k = choose|k: int| 0 <= k < all.len() && all[k] == g;
            if k < before.len() {
                assert(before[k] == g);
                assert(before.contains(g));
            } else {
                assert(last[k - before.len()] == g);
                assert(last.contains(g));
            }
        }
        if exists|i: int|
            0 <= i < n && (#[trigger] node_ops(children[i], parent, false)).contains(g) {
            let i = choose|i: int|
                0 <= i < n && (#[trigger] node_ops(children[i], parent, false)).contains(g);
            if i < n - 1 {
                assert(before.contains(g));
                let k = choose|k: int| 0 <= k < before.len() && before[k] == g;
                assert(all[k] == g);
            } else {
                let k = choose|k: int| 0 <= k < last.len() && last[k] == g;
                assert(all[k + before.len()] == g);
            }
        }
    } else {
        assert(children_ops(children, n, parent) =~= Seq::<OpModel>::empty());
    }
}

/// Whether every operation of `part` is among the operations of `global`.
pub open spec fn holds_all(global: Seq<OpModel>, part: Seq<OpModel>) -> bool {
    forall|k: int| 0 <= k < part.len() ==> global.contains(#[trigger] part[k])
}

/// Whether the target of an operation lies where only a node of the plan
/// `plan` in the directory `parent`, or a node below it, writes.
pub open spec fn belongs(g: OpModel, plan: PlanModel, parent: Seq<Seq<char>>, is_root: bool) -> bool {
    is_root || (lies_below(g, parent) && entries(plan.component, plan.kind).contains(
        entry_in(g, parent),
    ))
}

/// Whether every operation of `global` that belongs to the node of `plan`
/// is among the operations of that node.
pub open spec fn covers(
    global: Seq<OpModel>,
    plan: PlanModel,
    parent: Seq<Seq<char>>,
    is_root: bool,
) -> bool {
    forall|g: OpModel| #[trigger]
        global.contains(g) && belongs(g, plan, parent, is_root) ==> node_ops(
            plan,
            parent,
            is_root,
        ).contains(g)
}

/// The operations of a child are among the operations that hold those of
/// its parent.
proof fn lemma_child_holds(
    plan: PlanModel,
    parent: Seq<Seq<char>>,
    is_root: bool,
    global: Seq<OpModel>,
    i: int,
)
    requires
        plan.kind.is_directory(),
        0 <= i < plan.children.len(),
        holds_all(global, node_ops(plan, parent, is_root)),
    ensures
        holds_all(
            global,
            node_ops(plan.children[i], own_path(plan, parent, is_root), false),
        ),
{
    let own = own_path(plan, parent, is_root);
    let ops = node_ops(plan, parent, is_root);
    let first = own_ops(plan, parent, is_root);
    let rest = children_ops(plan.children, plan.children.len(), own);
    let part = node_ops(plan.children[i], own, false);
    assert(ops == first + rest);
    assert forall|k: int| 0 <= k < part.len() implies global.contains(#[trigger] part[k]) by {
        lemma_children_ops_contains(plan.children, plan.children.len(), own, part[k]);
        assert(part.contains(part[k]));
        assert(rest.contains(part[k]));
        let j = choose|j: int| 0 <= j < rest.len() && rest[j] == part[k];
        assert(ops[j + first.len()] == part[k]);
    }
}

/// What belongs to a child and is among operations that cover its parent
/// is among the operations of the child.
proof fn lemma_child_covers(
    plan: PlanModel,
    parent: Seq<Seq<char>>,
    is_root: bool,
    global: Seq<OpModel>,
    i: int,
)
    requires
        well_named(plan),
        plan.kind.is_directory(),
        0 <= i < plan.children.len(),
        covers(global, plan, parent, is_root),
    ensures
        covers(global, plan.children[i], own_path(plan, parent, is_root), false),
{
    let own = own_path(plan, parent, is_root);
    let ops = node_ops(plan, parent, is_root);
    let first = own_ops(plan, parent, is_root);
    let rest = children_ops(plan.children, plan.children.len(), own);
    let child = plan.children[i];
    assert(ops == first + rest);
    let kind = match plan.kind {
        Representation::DirectoryWithInit(kind) => kind,
        _ => ScriptKind::Module,
    };
    lemma_own_files(kind);
    assert forall|g: OpModel| #[trigger]
        global.contains(g) && belongs(g, child, own, false) implies node_ops(
        child,
        own,
        false,
    ).contains(g) by {
        if !is_root {
            lemma_below_entry(g, parent, plan.component);
        }
        assert(belongs(g, plan, parent, is_root));
        assert(ops.contains(g));
        let k = choose|k: int| 0 <= k < ops.len() && ops[k] == g;
        if k < first.len() {
            assert(g == first[k]);
            assert(false);
        } else {
            assert(rest[k - first.len()] == g);
            assert(rest.contains(g));
            lemma_children_ops_contains(plan.children, plan.children.len(), own, g);
            let c = choose|c: int|
                0 <= c < plan.children.len() && (#[trigger] node_ops(
                    plan.children[c],
                    own,
                    false,
                )).contains(g);
            lemma_node_targets(plan.children[c], own);
            let part = node_ops(plan.children[c], own, false);
            let j = choose|j: int| 0 <= j < part.len() && part[j] == g;
            assert(entries(plan.children[c].component, plan.children[c].kind).contains(
                entry_in(part[j], own),
            ));
            if c < i {
                assert(entries(plan.children[c].component, plan.children[c].kind).disjoint(
                    entries(plan.children[i].component, plan.children[i].kind),
                ));
            } else if c > i {
                assert(entries(plan.children[i].component, plan.children[i].kind).disjoint(
                    entries(plan.children[c].component, plan.children[c].kind),
                ));
            }
        }
    }
}


/// The metadata file of a node that no failure blocks reads back as the
/// metadata of its plan, and where the plan has no metadata there is no such
/// file.
proof fn lemma_read_meta(
    plan: PlanModel,
    parent: Seq<Seq<char>>,
    is_root: bool,
    global: Seq<OpModel>,
    done: Set<int>,
    failures: Seq<FailureModel>,
)
    requires
        well_named(plan),
        is_coherent(plan),
        paths_differ(global),
        made_unless_blocked(global, done, failures),
        !is_blocked(own_path(plan, parent, is_root), failures),
        holds_all(global, node_ops(plan, parent, is_root)),
        covers(global, plan, parent, is_root),
        !is_root || plan.kind.is_directory(),
    ensures
        read_meta_file(
            disk_of(global, done),
            meta_path(
                manifest_node(plan, own_path(plan, parent, is_root), failures),
                parent,
                own_path(plan, parent, is_root),
            ),
        ) == Some(plan.metadata),
{
    let own = own_path(plan, parent, is_root);
    let entry = manifest_node(plan, own, failures);
    let disk = disk_of(global, done);
    let ops = node_ops(plan, parent, is_root);
    let first = own_ops(plan, parent, is_root);
    let target = meta_path(entry, parent, own);
    let kind = match plan.kind.source_kind() {
        Some(kind) => kind,
        None => ScriptKind::Module,
    };
    lemma_own_files(kind);
    lemma_file_names(plan.component, kind);
    let first_len = first.len();
    if plan.kind.is_directory() {
        assert(ops == first + children_ops(plan.children, plan.children.len(), own));
    } else {
        assert(ops =~= first);
    }
    match plan.metadata {
        Some(meta) => {
            let op = first[first_len - 1];
            assert(ops[first_len - 1] == op);
            assert(op.path == target);
            assert(op.owner == own);
            assert(op.content == Some(render(metadata_document(meta))));
            lemma_lookup(global, done, failures, op);
            lemma_metadata_sound(meta);
            lemma_read_inverts_render(metadata_document(meta));
            lemma_metadata_document_round_trip(meta);
        },
        None => {
            if disk.contains_key(target) {
                let g = lemma_written(global, done, target);
                if !is_root {
                    if plan.kind.is_directory() {
                        assert(target.take(own.len() as int) =~= own);
                        lemma_below_entry(g, parent, plan.component);
                    } else {
                        assert(target.take(parent.len() as int) =~= parent);
                    }
                }
                assert(belongs(g, plan, parent, is_root));
                assert(ops.contains(g));
                let k = choose|k: int| 0 <= k < ops.len() && ops[k] == g;
                if k < first_len {
                    assert(g == first[k]);
                    match plan.kind {
                        Representation::SourceFile(kind) => {
                            assert(k == 0);
                            assert(g.path.last() == plan.component + extension(kind));
                            assert(target.last() == plan.component + meta_suffix());
                        },
                        Representation::DirectoryWithInit(kind) => {
                            assert(k == 1);
                            assert(g.path.last() == init_file(kind));
                            assert(target.last() == dir_meta_file());
                        },
                        Representation::PlainDirectory => {},
                    }
                    assert(false);
                } else {
                    let rest = children_ops(plan.children, plan.children.len(), own);
                    assert(rest[k - first_len] == g);
                    assert(rest.contains(g));
                    lemma_children_ops_contains(plan.children, plan.children.len(), own, g);
                    let c = choose|c: int|
                        0 <= c < plan.children.len() && (#[trigger] node_ops(
                            plan.children[c],
                            own,
                            false,
                        )).contains(g);
                    lemma_node_targets(plan.children[c], own);
                    let part = node_ops(plan.children[c], own, false);
                    let j = choose|j: int| 0 <= j < part.len() && part[j] == g;
                    assert(entries(plan.children[c].component, plan.children[c].kind).contains(
                        entry_in(part[j], own),
                    ));
                    assert(entry_in(g, own) == fold(dir_meta_file()));
                    assert(false);
                }
            }
        },
    }
}

/// The source file of a node that no failure blocks reads back as the
/// source text of its plan.
proof fn lemma_read_source(
    plan: PlanModel,
    parent: Seq<Seq<char>>,
    is_root: bool,
    global: Seq<OpModel>,
    done: Set<int>,
    failures: Seq<FailureModel>,
)
    requires
        is_coherent(plan),
        paths_differ(global),
        made_unless_blocked(global, done, failures),
        !is_blocked(own_path(plan, parent, is_root), failures),
        holds_all(global, node_ops(plan, parent, is_root)),
    ensures
        ({
            let own = own_path(plan, parent, is_root);
            let entry = manifest_node(plan, own, failures);
            match source_path(entry, parent, own) {
                Some(p) => plan.content is Some && disk_of(global, done).contains_key(p)
                    && disk_of(global, done)[p] == plan.content.unwrap(),
                None => plan.content is None,
            }
        }),
{
    let own = own_path(plan, parent, is_root);
    let ops = node_ops(plan, parent, is_root);
    let first = own_ops(plan, parent, is_root);
    if plan.kind.is_directory() {
        assert(ops == first + children_ops(plan.children, plan.children.len(), own));
    } else {
        assert(ops =~= first);
    }
    match plan.kind {
        Representation::SourceFile(kind) => {
            assert(ops[0] == first[0]);
            lemma_lookup(global, done, failures, first[0]);
        },
        Representation::DirectoryWithInit(kind) => {
            assert(ops[1] == first[1]);
            lemma_lookup(global, done, failures, first[1]);
        },
        Representation::PlainDirectory => {},
    }
}

/// The manifest entry of a node that no failure blocks and the files on the
/// disk stand for what survives of the tree of the node's plan.
proof fn lemma_read_node(
    plan: PlanModel,
    parent: Seq<Seq<char>>,
    is_root: bool,
    global: Seq<OpModel>,
    done: Set<int>,
    failures: Seq<FailureModel>,
)
    requires
        well_named(plan),
        is_coherent(plan),
        paths_differ(global),
        made_unless_blocked(global, done, failures),
        !is_blocked(own_path(plan, parent, is_root), failures),
        holds_all(global, node_ops(plan, parent, is_root)),
        covers(global, plan, parent, is_root),
        !is_root || plan.kind.is_directory(),
    ensures
        read_node(
            manifest_node(plan, own_path(plan, parent, is_root), failures),
            parent,
            is_root,
            disk_of(global, done),
        ) == Some(surviving(plan, own_path(plan, parent, is_root), failures)),
    decreases plan, 1nat,
{
    let own = own_path(plan, parent, is_root);
    let entry = manifest_node(plan, own, failures);
    let disk = disk_of(global, done);
    lemma_read_meta(plan, parent, is_root, global, done, failures);
    lemma_read_source(plan, parent, is_root, global, done, failures);
    if plan.kind.is_directory() {
        lemma_read_nodes(plan, plan.children.len(), parent, is_root, global, done, failures);
    } else {
        assert(entry.children =~= Seq::<ManifestModel>::empty());
    }
    let back = read_node(entry, parent, is_root, disk);
    assert(back is Some);
    assert(back.unwrap().name == rebuilt_name(plan));
    assert(back.unwrap().properties =~= rebuilt_properties(plan));
    assert(back.unwrap().children == surviving(plan, own, failures).children);
}

/// Lists of manifest entries that agree on their first `n` entries stand
/// for the same first `n` trees.
proof fn lemma_read_nodes_prefix(
    a: Seq<ManifestModel>,
    b: Seq<ManifestModel>,
    n: nat,
    parent: Seq<Seq<char>>,
    disk: Map<Seq<Seq<char>>, Seq<char>>,
)
    requires
        n <= a.len(),
        n <= b.len(),
        forall|i: int| 0 <= i < n ==> a[i] == b[i],
    ensures
        read_nodes(a, n, parent, disk) == read_nodes(b, n, parent, disk),
    decreases n,
{
    if n > 0 {
        lemma_read_nodes_prefix(a, b, (n - 1) as nat, parent, disk);
    }
}

/// The manifest entries of the first `n` children of a directory that no
/// failure blocks, and the files on the disk, stand for what survives of
/// the trees of those children.
proof fn lemma_read_nodes(
    plan: PlanModel,
    n: nat,
    parent: Seq<Seq<char>>,
    is_root: bool,
    global: Seq<OpModel>,
    done: Set<int>,
    failures: Seq<FailureModel>,
)
    requires
        well_named(plan),
        is_coherent(plan),
        plan.kind.is_directory(),
        n <= plan.children.len(),
        paths_differ(global),
        made_unless_blocked(global, done, failures),
        holds_all(global, node_ops(plan, parent, is_root)),
        covers(global, plan, parent, is_root),
    ensures
        read_nodes(
            manifest_children(plan.children, n, own_path(plan, parent, is_root), failures),
            manifest_children(plan.children, n, own_path(plan, parent, is_root), failures).len(),
            own_path(plan, parent, is_root),
            disk_of(global, done),
        ) == Some(
            surviving_children(plan.children, n, own_path(plan, parent, is_root), failures),
        ),
    decreases plan, 0nat, n,
{
    let own = own_path(plan, parent, is_root);
    let disk = disk_of(global, done);
    if n > 0 {
        let child = plan.children[n - 1];
        let before = manifest_children(plan.children, (n - 1) as nat, own, failures);
        let all = manifest_children(plan.children, n, own, failures);
        lemma_read_nodes(plan, (n - 1) as nat, parent, is_root, global, done, failures);
        if !is_blocked(own.push(child.component), failures) {
            lemma_child_holds(plan, parent, is_root, global, n - 1);
            lemma_child_covers(plan, parent, is_root, global, n - 1);
            lemma_read_node(child, own, false, global, done, failures);
            assert(all == before.push(manifest_node(child, own.push(child.component), failures)));
            lemma_read_nodes_prefix(all, before, before.len(), own, disk);
        }
    }
}

/// The tree that the text of a manifest file and the files on the disk
/// stand for.
pub open spec fn read_project(
    manifest_text: Seq<char>,
    disk: Map<Seq<Seq<char>>, Seq<char>>,
) -> Option<InstanceModel> {
    match read(manifest_text) {
        Some(document) => match read_entry(Seq::empty(), document) {
            Some(entry) => read_node(entry, Seq::empty(), true, disk),
            None => None,
        },
        None => None,
    }
}

/// The numbers of the operations that were done in the course of a run.
pub open spec fn done_in(plan: PlanModel, outcomes: Seq<Option<Seq<char>>>) -> Set<int> {
    Set::new(|k: int| was_done(plan, outcomes, k))
}

/// What a run leaves behind can be read back, whatever failed: after a
/// complete run in which the output root was made, the text of the manifest
/// together with the files that were written reads back as the tree that
/// the plan stands for, without the nodes against which a failure is held
/// and without what is below them. So the manifest names nothing that was
/// not made, and a failure in one place loses nothing in another.
pub proof fn lemma_run_round_trip(plan: PlanModel, outcomes: Seq<Option<Seq<char>>>)
    requires
        well_named(plan),
        is_coherent(plan),
        plan.kind.is_directory(),
        plan.component == Seq::<char>::empty(),
        final_manifest(run(initial(plan), outcomes)) is Some,
    ensures
        ({
            let w = run(initial(plan), outcomes);
            read_project(
                render(manifest_document(final_manifest(w).unwrap())),
                disk_of(plan_ops(plan), done_in(plan, outcomes)),
            ) == Some(surviving(plan, Seq::empty(), w.failures))
        }),
{
    let w = run(initial(plan), outcomes);
    let global = plan_ops(plan);
    let done = done_in(plan, outcomes);
    let root = Seq::<Seq<char>>::empty();
    lemma_run_invariant(plan, outcomes);
    lemma_unblocked_was_done(plan, outcomes);
    crate::layout::lemma_targets_differ(plan);
    lemma_paths_differ(global);
    assert forall|k: int| 0 <= k < global.len() implies global.contains(#[trigger] global[k]) by {}
    lemma_read_node(plan, root, true, global, done, w.failures);
    let entry = manifest_node(plan, root, w.failures);
    assert(final_manifest(w) == Some(entry));
    lemma_manifest_text_round_trip(entry);
}

/// Round trip of a whole project: where every operation of the plan of a
/// tree was done, the text of the manifest together with the files that
/// were written reads back as what the projection keeps of the tree: every
/// class and display name, the children in their order, the source texts,
/// and every externalized property with its type and value.
pub proof fn lemma_project_round_trip(tree: InstanceModel, limit: nat)
    ensures
        ({
            let plan = crate::plan::root_plan(tree, limit);
            let entry = manifest_node(plan, Seq::empty(), Seq::empty());
            read_project(
                render(manifest_document(entry)),
                disk_of(plan_ops(plan), Set::full()),
            ) == Some(preserved(tree, limit))
        }),
{
    let plan = crate::plan::root_plan(tree, limit);
    let global = plan_ops(plan);
    let root = Seq::<Seq<char>>::empty();
    let none = Seq::<FailureModel>::empty();
    crate::plan::lemma_plan_well_named(tree, Seq::empty(), crate::plan::root_rep(tree), true, limit);
    crate::plan::lemma_plan_coherent(tree, Seq::empty(), true, true, limit);
    crate::layout::lemma_targets_differ(plan);
    lemma_paths_differ(global);
    assert forall|k: int| 0 <= k < global.len() implies global.contains(#[trigger] global[k]) by {}
    assert(!is_blocked(root, none));
    lemma_read_node(plan, root, true, global, Set::full(), none);
    lemma_all_survive(plan, root);
    lemma_round_trip(tree, limit);
    let entry = manifest_node(plan, root, none);
    lemma_manifest_text_round_trip(entry);
    assert(entry.key == Seq::<char>::empty());
}

} // verus!
