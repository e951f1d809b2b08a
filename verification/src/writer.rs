//! The filesystem writer as a state machine. The machine holds the
//! operations of a plan and decides which one comes next; whoever drives it
//! performs the operation on the disk and reports how it ended. A failure is
//! held against the node that the operation belongs to: nothing more is
//! attempted for that node or below it, while its siblings go on.

use vstd::prelude::*;
use crate::instance::Instance;
use crate::json::render;
use crate::layout::{
    creates_directory_of,
    directory_comes_first,
    lemma_directories_come_first,
    op_models,
    operations,
    OpModel,
    plan_ops,
    WriteOp,
};
use crate::manifest::{
    blocks,
    build_manifest,
    count_entries,
    manifest,
    manifest_document,
    manifest_json,
    manifest_size,
};
use crate::plan::{
    event_models,
    has_unresolved,
    root_events,
    root_plan,
    Event,
    EventModel,
    PlanModel,
    PlanNode,
    Projection,
};
use crate::text::{copy_strings, string_views};

verus! {

/// An operation that failed.
#[derive(Debug, PartialEq, Eq)]
pub struct Failure {
    /// The path of the node that the operation belongs to.
    pub owner: Vec<String>,
    /// The path that could not be made.
    pub path: Vec<String>,
    /// Why, in the words of whoever performed the operation.
    pub cause: String,
}

/// The mathematical value of a failure.
pub struct FailureModel {
    pub owner: Seq<Seq<char>>,
    pub path: Seq<Seq<char>>,
    pub cause: Seq<char>,
}

impl View for Failure {
    type V = FailureModel;

    open spec fn view(&self) -> FailureModel {
        FailureModel {
            owner: string_views(self.owner@),
            path: string_views(self.path@),
            cause: self.cause@,
        }
    }
}

/// The mathematical values of a list of failures.
pub open spec fn failure_models(list: Seq<Failure>) -> Seq<FailureModel> {
    Seq::new(list.len(), |i: int| list[i]@)
}

/// Whether nothing more is attempted for the node at `owner`: an operation
/// failed for the node itself or for a directory above it.
pub open spec fn is_blocked(owner: Seq<Seq<char>>, failures: Seq<FailureModel>) -> bool {
    exists|i: int| 0 <= i < failures.len() && (#[trigger] failures[i]).owner.is_prefix_of(owner)
}

/// The index of the first operation at or after `from` that is to be
/// attempted, or the number of operations where there is none.
pub open spec fn next_pending(ops: Seq<OpModel>, failures: Seq<FailureModel>, from: nat) -> nat
    decreases ops.len() - from,
{
    if from >= ops.len() {
        ops.len()
    } else if is_blocked(ops[from as int].owner, failures) {
        next_pending(ops, failures, from + 1)
    } else {
        from
    }
}

/// The state of the writer: the plan, its operations, how many of them are
/// dealt with, and the failures so far in the order in which they occurred.
pub struct WriterModel {
    pub plan: PlanModel,
    pub ops: Seq<OpModel>,
    pub cursor: nat,
    pub failures: Seq<FailureModel>,
}

/// The state in which the next operation to attempt is at hand.
pub open spec fn advanced(w: WriterModel) -> WriterModel {
    WriterModel { cursor: next_pending(w.ops, w.failures, w.cursor), ..w }
}

/// The state after the outcome of the next operation to attempt has been
/// reported: the operation is dealt with, and where it failed, with the given
/// cause, the failure is added. Where no operation is left the report changes
/// nothing.
pub open spec fn recorded(w: WriterModel, failure: Option<Seq<char>>) -> WriterModel {
    let at = next_pending(w.ops, w.failures, w.cursor);
    if at >= w.ops.len() {
        advanced(w)
    } else {
        WriterModel {
            plan: w.plan,
            ops: w.ops,
            cursor: at + 1,
            failures: match failure {
                Some(cause) => w.failures.push(
                    FailureModel { owner: w.ops[at as int].owner, path: w.ops[at as int].path, cause },
                ),
                None => w.failures,
            },
        }
    }
}

/// Whether every operation is dealt with: done, failed or passed over.
pub open spec fn is_finished(w: WriterModel) -> bool {
    next_pending(w.ops, w.failures, w.cursor) == w.ops.len()
}

/// A node that was left out, with what is below it, because no candidate
/// of its name was free.
#[derive(Debug, PartialEq, Eq)]
pub struct Unresolved {
    /// The identity of the node.
    pub id: u128,
    /// The display name of the node.
    pub name: String,
}

/// A property that was left out because its value has no encoding.
#[derive(Debug, PartialEq, Eq)]
pub struct Dropped {
    /// The identity of the node that the property belongs to.
    pub id: u128,
    /// The name of the property.
    pub property: String,
}

/// The mathematical value of an unresolved node.
pub struct UnresolvedModel {
    pub id: int,
    pub name: Seq<char>,
}

/// The mathematical value of a dropped property.
pub struct DroppedModel {
    pub id: int,
    pub property: Seq<char>,
}

impl View for Unresolved {
    type V = UnresolvedModel;

    open spec fn view(&self) -> UnresolvedModel {
        UnresolvedModel { id: self.id as int, name: self.name@ }
    }
}

impl View for Dropped {
    type V = DroppedModel;

    open spec fn view(&self) -> DroppedModel {
        DroppedModel { id: self.id as int, property: self.property@ }
    }
}

/// The mathematical values of a list of unresolved nodes.
pub open spec fn unresolved_models(list: Seq<Unresolved>) -> Seq<UnresolvedModel> {
    Seq::new(list.len(), |i: int| list[i]@)
}

/// The mathematical values of a list of dropped properties.
pub open spec fn dropped_models(list: Seq<Dropped>) -> Seq<DroppedModel> {
    Seq::new(list.len(), |i: int| list[i]@)
}

/// The nodes that the events of a walk tell to be left out for want of a
/// free name, in the order of the walk.
pub open spec fn unresolved_in(events: Seq<EventModel>) -> Seq<UnresolvedModel>
    decreases events.len(),
{
    if events.len() == 0 {
        Seq::empty()
    } else {
        let rest = unresolved_in(events.drop_last());
        match events.last() {
            EventModel::NameCollisionUnresolved { id, name } => rest.push(
                UnresolvedModel { id, name },
            ),
            _ => rest,
        }
    }
}

/// The properties that the events of a walk tell to be left out, in the
/// order of the walk.
pub open spec fn dropped_in(events: Seq<EventModel>) -> Seq<DroppedModel>
    decreases events.len(),
{
    if events.len() == 0 {
        Seq::empty()
    } else {
        let rest = dropped_in(events.drop_last());
        match events.last() {
            EventModel::InvalidPropertyValue { id, property } => rest.push(
                DroppedModel { id, property },
            ),
            _ => rest,
        }
    }
}

/// Nodes are listed as unresolved exactly where an event tells of one.
pub proof fn lemma_unresolved_in(events: Seq<EventModel>)
    ensures
        unresolved_in(events).len() > 0 <==> has_unresolved(events),
    decreases events.len(),
{
    if events.len() > 0 {
        let head = events.drop_last();
        lemma_unresolved_in(head);
        if has_unresolved(head) {
            let i = choose|i: int|
                0 <= i < head.len() && (#[trigger] head[i]) is NameCollisionUnresolved;
            assert(events[i] is NameCollisionUnresolved);
        }
        if has_unresolved(events) {
            let i = choose|i: int|
                0 <= i < events.len() && (#[trigger] events[i]) is NameCollisionUnresolved;
            if i < head.len() {
                assert(head[i] is NameCollisionUnresolved);
            }
        }
        if events.last() is NameCollisionUnresolved {
            assert(events[events.len() - 1] is NameCollisionUnresolved);
        }
    }
}

/// Whether a run succeeded: every operation was dealt with, none failed,
/// and every name could be resolved when the tree was planned. A failed
/// write and an unresolved name are the fatal errors; either makes the run a
/// failure, whatever else was made.
pub open spec fn succeeded(w: WriterModel, events: Seq<EventModel>) -> bool {
    is_finished(w) && w.failures.len() == 0 && !has_unresolved(events)
}

/// How a run ended.
#[derive(Debug, PartialEq, Eq)]
pub struct Report {
    /// Whether every operation was dealt with. A run that was given up
    /// before that has no manifest and counts nothing.
    pub complete: bool,
    /// The number of nodes that were made.
    pub materialized: usize,
    /// Every failed write, with its path and its cause, in the order in
    /// which they occurred.
    pub failures: Vec<Failure>,
    /// Every node that was left out because its name could not be resolved,
    /// in the order of the walk.
    pub unresolved: Vec<Unresolved>,
    /// Every property that was left out because its value has no encoding,
    /// with the node it belongs to, in the order of the walk. These are
    /// warnings: they do not make the run a failure.
    pub dropped: Vec<Dropped>,
    /// The text of the manifest file, which lists the nodes that were made.
    pub manifest: Option<String>,
}

/// The manifest with which a run in the given state ends, if it ends with
/// one: the run is complete and the output root was made.
pub open spec fn final_manifest(w: WriterModel) -> Option<crate::manifest::ManifestModel> {
    if is_finished(w) {
        manifest(w.plan, w.failures)
    } else {
        None
    }
}

/// The state of the writer of a plan before anything is attempted.
pub open spec fn initial(plan: PlanModel) -> WriterModel {
    WriterModel { plan, ops: plan_ops(plan), cursor: 0, failures: Seq::empty() }
}

/// The state of a run after the outcomes of the operations that were
/// attempted have been reported one after the other: nothing for an
/// operation that was done, the cause for one that failed.
pub open spec fn run(w: WriterModel, outcomes: Seq<Option<Seq<char>>>) -> WriterModel
    decreases outcomes.len(),
{
    if outcomes.len() == 0 {
        w
    } else {
        recorded(run(w, outcomes.drop_last()), outcomes.last())
    }
}

/// Looking for the next operation again from where it was found finds it
/// again.
pub proof fn lemma_next_pending_again(ops: Seq<OpModel>, failures: Seq<FailureModel>, from: nat)
    ensures
        next_pending(ops, failures, next_pending(ops, failures, from)) == next_pending(
            ops,
            failures,
            from,
        ),
    decreases ops.len() - from,
{
    if from < ops.len() && is_blocked(ops[from as int].owner, failures) {
        lemma_next_pending_again(ops, failures, from + 1);
    }
}

/// Asking for the next operation changes nothing that matters: the same
/// operation is next, the same report is taken in the same way, and the run
/// ends in the same way. So the states that a writer goes through, whoever
/// drives it, are those of `run`, but for operations that were looked at and
/// passed over.
pub proof fn lemma_asking_is_idle(w: WriterModel, outcome: Option<Seq<char>>)
    ensures
        advanced(advanced(w)) == advanced(w),
        recorded(advanced(w), outcome) == recorded(w, outcome),
        is_finished(advanced(w)) == is_finished(w),
        final_manifest(advanced(w)) == final_manifest(w),
{
    lemma_next_pending_again(w.ops, w.failures, w.cursor);
}

/// A failure is held against one node and what is below it, never against a
/// sibling: the failed node's path is no prefix of the path of a node under
/// another name in the same directory, nor of anything below that node.
pub proof fn lemma_failure_spares_siblings(
    parent: Seq<Seq<char>>,
    failed: Seq<char>,
    sibling: Seq<char>,
    below: Seq<Seq<char>>,
)
    requires
        failed != sibling,
    ensures
        !parent.push(failed).is_prefix_of(parent.push(sibling) + below),
{
    let a = parent.push(failed);
    let b = parent.push(sibling) + below;
    if a.is_prefix_of(b) {
        assert(a[parent.len() as int] == b.subrange(0, a.len() as int)[parent.len() as int]);
        assert(b[parent.len() as int] == sibling);
    }
}

/// Nothing blocks an operation while nothing has failed.
pub proof fn lemma_next_pending_unblocked(ops: Seq<OpModel>, from: nat)
    ensures
        next_pending(ops, Seq::empty(), from) == if from >= ops.len() {
            ops.len()
        } else {
            from
        },
{
}

/// Where every operation of a plan is done, the run ends after as many
/// reports as the plan has operations, without a failure and with the
/// manifest of the whole plan.
pub proof fn lemma_run_without_failure(plan: PlanModel, outcomes: Seq<Option<Seq<char>>>)
    requires
        outcomes.len() <= plan_ops(plan).len(),
        forall|i: int| 0 <= i < outcomes.len() ==> outcomes[i] is None,
    ensures
        run(initial(plan), outcomes) == (WriterModel {
            cursor: outcomes.len(),
            ..initial(plan)
        }),
        outcomes.len() == plan_ops(plan).len() ==> final_manifest(run(initial(plan), outcomes))
            == manifest(plan, Seq::empty()) && manifest(plan, Seq::empty()) is Some,
    decreases outcomes.len(),
{
    if outcomes.len() > 0 {
        lemma_run_without_failure(plan, outcomes.drop_last());
        lemma_next_pending_unblocked(plan_ops(plan), (outcomes.len() - 1) as nat);
    }
    lemma_next_pending_unblocked(plan_ops(plan), outcomes.len());
}

/// In every state that a run reaches, the operations are those of the plan,
/// no more of them are dealt with than there are, and each failure is that
/// of an operation that was attempted.
pub proof fn lemma_run_invariant(plan: PlanModel, outcomes: Seq<Option<Seq<char>>>)
    ensures
        run(initial(plan), outcomes).plan == plan,
        run(initial(plan), outcomes).ops == plan_ops(plan),
        run(initial(plan), outcomes).cursor <= plan_ops(plan).len(),
        run(initial(plan), outcomes).failures.len() <= outcomes.len(),
        forall|k: int|
            0 <= k < run(initial(plan), outcomes).failures.len() ==> exists|i: int|
                0 <= i < run(initial(plan), outcomes).cursor && (#[trigger] plan_ops(plan)[i]).owner
                    == (#[trigger] run(initial(plan), outcomes).failures[k]).owner && plan_ops(
                    plan,
                )[i].path == run(initial(plan), outcomes).failures[k].path,
    decreases outcomes.len(),
{
    if outcomes.len() > 0 {
        let before = run(initial(plan), outcomes.drop_last());
        let after = run(initial(plan), outcomes);
        lemma_run_invariant(plan, outcomes.drop_last());
        lemma_next_pending_range(before.ops, before.failures, before.cursor);
        let at = next_pending(before.ops, before.failures, before.cursor);
        assert forall|k: int| 0 <= k < after.failures.len() implies exists|i: int|
            0 <= i < after.cursor && (#[trigger] plan_ops(plan)[i]).owner
                == (#[trigger] after.failures[k]).owner && plan_ops(plan)[i].path
                == after.failures[k].path by {
            if k < before.failures.len() {
                let i = choose|i: int|
                    0 <= i < before.cursor && (#[trigger] plan_ops(plan)[i]).owner
                        == before.failures[k].owner && plan_ops(plan)[i].path
                        == before.failures[k].path;
                assert(plan_ops(plan)[i].owner == after.failures[k].owner);
            } else {
                assert(plan_ops(plan)[at as int].owner == after.failures[k].owner);
            }
        }
    }
}

/// The next operation to attempt is not before the cursor and not past the
/// end.
pub proof fn lemma_next_pending_range(ops: Seq<OpModel>, failures: Seq<FailureModel>, from: nat)
    ensures
        next_pending(ops, failures, from) <= ops.len(),
        from <= ops.len() ==> from <= next_pending(ops, failures, from),
        next_pending(ops, failures, from) < ops.len() ==> !is_blocked(
            ops[next_pending(ops, failures, from) as int].owner,
            failures,
        ),
    decreases ops.len() - from,
{
    if from < ops.len() && is_blocked(ops[from as int].owner, failures) {
        lemma_next_pending_range(ops, failures, from + 1);
    }
}

/// Whether operation `k` was attempted and done in the course of a run.
pub open spec fn was_done(plan: PlanModel, outcomes: Seq<Option<Seq<char>>>, k: int) -> bool
    decreases outcomes.len(),
{
    if outcomes.len() == 0 {
        false
    } else {
        let before = run(initial(plan), outcomes.drop_last());
        was_done(plan, outcomes.drop_last(), k) || (outcomes.last() is None && k < before.ops.len()
            && k == next_pending(before.ops, before.failures, before.cursor))
    }
}

/// What blocks a node blocks it for good, and blocks what is below it.
pub proof fn lemma_blocked_stays(
    owner: Seq<Seq<char>>,
    below: Seq<Seq<char>>,
    failures: Seq<FailureModel>,
    more: FailureModel,
)
    requires
        is_blocked(owner, failures),
        owner.is_prefix_of(below),
    ensures
        is_blocked(below, failures),
        is_blocked(below, failures.push(more)),
{
    let i = choose|i: int|
        0 <= i < failures.len() && (#[trigger] failures[i]).owner.is_prefix_of(owner);
    assert(failures[i].owner.is_prefix_of(below)) by {
        assert(failures[i].owner =~= below.subrange(0, failures[i].owner.len() as int));
    }
    assert(failures.push(more)[i] == failures[i]);
}

/// The operations that are passed over on the way to the next one to
/// attempt are blocked.
pub proof fn lemma_passed_over(ops: Seq<OpModel>, failures: Seq<FailureModel>, from: nat, k: int)
    requires
        from <= k < next_pending(ops, failures, from),
    ensures
        k < ops.len(),
        is_blocked(ops[k].owner, failures),
    decreases ops.len() - from,
{
    if from < ops.len() && is_blocked(ops[from as int].owner, failures) && from < k {
        lemma_passed_over(ops, failures, from + 1, k);
    }
}

/// In every state that a run reaches, each operation that is dealt with was
/// either done or is blocked by a failure.
pub proof fn lemma_dealt_with(plan: PlanModel, outcomes: Seq<Option<Seq<char>>>)
    ensures
        forall|k: int|
            0 <= k < run(initial(plan), outcomes).cursor ==> #[trigger] was_done(plan, outcomes, k)
                || is_blocked(plan_ops(plan)[k].owner, run(initial(plan), outcomes).failures),
    decreases outcomes.len(),
{
    if outcomes.len() > 0 {
        let before = run(initial(plan), outcomes.drop_last());
        let after = run(initial(plan), outcomes);
        let ops = plan_ops(plan);
        lemma_dealt_with(plan, outcomes.drop_last());
        lemma_run_invariant(plan, outcomes.drop_last());
        lemma_next_pending_range(ops, before.failures, before.cursor);
        let at = next_pending(ops, before.failures, before.cursor);
        assert forall|k: int| 0 <= k < after.cursor implies #[trigger] was_done(plan, outcomes, k)
            || is_blocked(ops[k].owner, after.failures) by {
            assert(ops[k].owner.is_prefix_of(ops[k].owner)) by {
                assert(ops[k].owner =~= ops[k].owner.subrange(0, ops[k].owner.len() as int));
            }
            let blocked_before = if k < before.cursor {
                !was_done(plan, outcomes.drop_last(), k)
            } else {
                k < at
            };
            if k < before.cursor {
                assert(was_done(plan, outcomes.drop_last(), k) || is_blocked(
                    ops[k].owner,
                    before.failures,
                ));
            } else if k < at {
                lemma_passed_over(ops, before.failures, before.cursor, k);
            }
            if blocked_before {
                if after.failures != before.failures {
                    lemma_blocked_stays(
                        ops[k].owner,
                        ops[k].owner,
                        before.failures,
                        after.failures.last(),
                    );
                    assert(after.failures == before.failures.push(after.failures.last()));
                }
            } else if k == at && k >= before.cursor {
                match outcomes.last() {
                    Some(cause) => {
                        assert(after.failures[after.failures.len() - 1].owner == ops[k].owner);
                    },
                    None => {},
                }
            }
        }
    }
}

/// What a complete run made: each operation was attempted and done unless
/// a failure is held against its node or against a directory above it. The
/// manifest has entries for the nodes that are not blocked, and for no
/// other, so that every operation of a node that the manifest names was
/// done.
pub proof fn lemma_unblocked_was_done(plan: PlanModel, outcomes: Seq<Option<Seq<char>>>)
    requires
        is_finished(run(initial(plan), outcomes)),
    ensures
        forall|k: int|
            0 <= k < plan_ops(plan).len() ==> #[trigger] was_done(plan, outcomes, k) || is_blocked(
                plan_ops(plan)[k].owner,
                run(initial(plan), outcomes).failures,
            ),
{
    let w = run(initial(plan), outcomes);
    let ops = plan_ops(plan);
    lemma_run_invariant(plan, outcomes);
    lemma_dealt_with(plan, outcomes);
    assert forall|k: int| 0 <= k < ops.len() implies #[trigger] was_done(plan, outcomes, k)
        || is_blocked(ops[k].owner, w.failures) by {
        if k >= w.cursor {
            lemma_passed_over(ops, w.failures, w.cursor, k);
        }
    }
}

/// Directories before their contents, in every run: when an operation is
/// about to be attempted, the directory that holds its target was created
/// by an operation that was attempted before and was done.
pub proof fn lemma_directory_was_made(plan: PlanModel, outcomes: Seq<Option<Seq<char>>>)
    requires
        plan.kind.is_directory(),
    ensures
        ({
            let w = run(initial(plan), outcomes);
            let at = next_pending(w.ops, w.failures, w.cursor) as int;
            0 < at < w.ops.len() ==> exists|j: int|
                0 <= j < at && #[trigger] creates_directory_of(w.ops, j, at) && was_done(
                    plan,
                    outcomes,
                    j,
                )
        }),
{
    let w = run(initial(plan), outcomes);
    let ops = plan_ops(plan);
    let at = next_pending(w.ops, w.failures, w.cursor) as int;
    lemma_run_invariant(plan, outcomes);
    lemma_next_pending_range(ops, w.failures, w.cursor);
    lemma_dealt_with(plan, outcomes);
    lemma_directories_come_first(plan);
    if 0 < at < ops.len() {
        assert(directory_comes_first(ops, at)) by {
            assert(ops[at].path.len() > 0);
        }
        let j = choose|j: int| 0 <= j < at && #[trigger] creates_directory_of(ops, j, at);
        if j >= w.cursor {
            lemma_passed_over(ops, w.failures, w.cursor, j);
        }
        if is_blocked(ops[j].owner, w.failures) {
            let i = choose|i: int|
                0 <= i < w.failures.len() && (#[trigger] w.failures[i]).owner.is_prefix_of(
                    ops[j].owner,
                );
            assert(w.failures[i].owner.is_prefix_of(ops[at].owner)) by {
                assert(w.failures[i].owner =~= ops[at].owner.subrange(
                    0,
                    w.failures[i].owner.len() as int,
                ));
            }
        }
        assert(was_done(plan, outcomes, j));
    }
}

/// Whether a report is the one with which a run in the given state ends,
/// for a plan whose walk gave the events `events`: it says whether the run
/// is complete, holds every failure, every unresolved node and every dropped
/// property, holds the text of the final manifest where there is one, and
/// counts its entries.
pub open spec fn is_report_of(report: Report, w: WriterModel, events: Seq<EventModel>) -> bool {
    &&& report.complete == is_finished(w)
    &&& failure_models(report.failures@) == w.failures
    &&& unresolved_models(report.unresolved@) == unresolved_in(events)
    &&& dropped_models(report.dropped@) == dropped_in(events)
    &&& match report.manifest {
        Some(text) => final_manifest(w) is Some && text@ == render(
            manifest_document(final_manifest(w).unwrap()),
        ),
        None => final_manifest(w) is None,
    }
    &&& report.materialized == match final_manifest(w) {
        Some(m) => if manifest_size(m) > usize::MAX {
            usize::MAX as nat
        } else {
            manifest_size(m)
        },
        None => 0,
    }
}

/// Whether a projection is the one of a tree: its plan and its events are
/// those that the tree and the limit determine.
pub open spec fn is_projection_of(projection: Projection, tree: Instance, limit: u32) -> bool {
    &&& projection.plan@ == root_plan(tree@, limit as nat)
    &&& event_models(projection.events@) == root_events(tree@, limit as nat)
}

/// Determinism: two runs on the same tree give the same plan, the same
/// events and the same operations in the same order, byte for byte; and
/// where the disk answers both alike, as two empty output roots do, they end
/// with the same failures, the same count and the same manifest text.
pub proof fn lemma_runs_agree(
    tree: Instance,
    again: Instance,
    limit: u32,
    first: Projection,
    second: Projection,
    outcomes: Seq<Option<Seq<char>>>,
    first_report: Report,
    second_report: Report,
)
    requires
        tree@ == again@,
        is_projection_of(first, tree, limit),
        is_projection_of(second, again, limit),
        is_report_of(
            first_report,
            run(initial(first.plan@), outcomes),
            event_models(first.events@),
        ),
        is_report_of(
            second_report,
            run(initial(second.plan@), outcomes),
            event_models(second.events@),
        ),
    ensures
        first.plan@ == second.plan@,
        event_models(first.events@) == event_models(second.events@),
        plan_ops(first.plan@) == plan_ops(second.plan@),
        first_report.complete == second_report.complete,
        first_report.materialized == second_report.materialized,
        failure_models(first_report.failures@) == failure_models(second_report.failures@),
        unresolved_models(first_report.unresolved@) == unresolved_models(
            second_report.unresolved@,
        ),
        dropped_models(first_report.dropped@) == dropped_models(second_report.dropped@),
        first_report.manifest is Some <==> second_report.manifest is Some,
        first_report.manifest is Some ==> first_report.manifest.unwrap()@
            == second_report.manifest.unwrap()@,
{
}

/// The writer of one run.
pub struct Writer<'a> {
    plan: &'a PlanNode,
    events: &'a Vec<Event>,
    ops: Vec<WriteOp>,
    cursor: usize,
    failures: Vec<Failure>,
}

impl<'a> View for Writer<'a> {
    type V = WriterModel;

    closed spec fn view(&self) -> WriterModel {
        WriterModel {
            plan: self.plan@,
            ops: op_models(self.ops@),
            cursor: self.cursor as nat,
            failures: failure_models(self.failures@),
        }
    }
}

impl WriteOp {
    /// A copy of the operation.
    pub fn duplicate(&self) -> (copy: WriteOp)
        ensures
            copy@ == self@,
    {
        WriteOp {
            owner: copy_strings(&self.owner),
            path: copy_strings(&self.path),
            content: match &self.content {
                Some(text) => Some(text.clone()),
                None => None,
            },
        }
    }
}

impl Report {
    /// Whether the report is that of a success: the run is complete, no
    /// write failed and no node is unresolved.
    pub open spec fn tells_success(&self) -> bool {
        self.complete && self.failures@.len() == 0 && self.unresolved@.len() == 0
    }

    /// Whether the run succeeded: it is complete, no write failed, and no
    /// node was left out for want of a name. For the report that `finish`
    /// gives this is so exactly if no fatal error occurred, in planning or in
    /// writing.
    pub fn is_success(&self) -> (r: bool)
        ensures
            r == self.tells_success(),
    {
        self.complete && self.failures.len() == 0 && self.unresolved.len() == 0
    }
}

fn collect_unresolved(events: &Vec<Event>) -> (out: Vec<Unresolved>)
    ensures
        unresolved_models(out@) == unresolved_in(event_models(events@)),
{
    let ghost all = event_models(events@);
    let mut out: Vec<Unresolved> = Vec::new();
    let mut i: usize = 0;
    assert(all.take(0) =~= Seq::<EventModel>::empty());
    assert(unresolved_models(out@) =~= unresolved_in(all.take(0)));
    while i < events.len()
        invariant
            i <= events.len(),
            all == event_models(events@),
            unresolved_models(out@) == unresolved_in(all.take(i as int)),
        decreases events.len() - i,
    {
        assert(all.take(i + 1).drop_last() == all.take(i as int));
        assert(all.take(i + 1).last() == events@[i as int]@);
        match &events[i] {
            Event::NameCollisionUnresolved { id, name } => {
                let ghost before = unresolved_models(out@);
                let item = Unresolved { id: *id, name: name.clone() };
                out.push(item);
                assert(unresolved_models(out@) =~= before.push(item@));
            },
            _ => {},
        }
        i += 1;
    }
    assert(all.take(events.len() as int) == all);
    out
}

fn collect_dropped(events: &Vec<Event>) -> (out: Vec<Dropped>)
    ensures
        dropped_models(out@) == dropped_in(event_models(events@)),
{
    let ghost all = event_models(events@);
    let mut out: Vec<Dropped> = Vec::new();
    let mut i: usize = 0;
    assert(all.take(0) =~= Seq::<EventModel>::empty());
    assert(dropped_models(out@) =~= dropped_in(all.take(0)));
    while i < events.len()
        invariant
            i <= events.len(),
            all == event_models(events@),
            dropped_models(out@) == dropped_in(all.take(i as int)),
        decreases events.len() - i,
    {
        assert(all.take(i + 1).drop_last() == all.take(i as int));
        assert(all.take(i + 1).last() == events@[i as int]@);
        match &events[i] {
            Event::InvalidPropertyValue { id, property } => {
                let ghost before = dropped_models(out@);
                let item = Dropped { id: *id, property: property.clone() };
                out.push(item);
                assert(dropped_models(out@) =~= before.push(item@));
            },
            _ => {},
        }
        i += 1;
    }
    assert(all.take(events.len() as int) == all);
    out
}

impl<'a> Writer<'a> {
    /// The events of the walk that planned what the writer writes.
    pub closed spec fn events(&self) -> Seq<EventModel> {
        event_models(self.events@)
    }

    /// The writer of a projection, before anything is attempted.
    pub fn new(projection: &'a Projection) -> (w: Writer<'a>)
        ensures
            w@ == initial(projection.plan@),
            w.events() == event_models(projection.events@),
    {
        let plan = &projection.plan;
        let w = Writer {
            plan,
            events: &projection.events,
            ops: operations(plan),
            cursor: 0,
            failures: Vec::new(),
        };
        assert(failure_models(w.failures@) =~= Seq::empty());
        w
    }

    fn blocked(&self, at: usize) -> (r: bool)
        requires
            at < self.ops@.len(),
        ensures
            r == is_blocked(self@.ops[at as int].owner, self@.failures),
    {
        blocks(&self.failures, &self.ops[at].owner)
    }

    fn advance(&mut self)
        ensures
            final(self)@ == advanced(old(self)@),
            final(self).events() == old(self).events(),
            final(self)@.cursor <= final(self)@.ops.len(),
            final(self)@.cursor < final(self)@.ops.len() ==> !is_blocked(
                final(self)@.ops[final(self)@.cursor as int].owner,
                final(self)@.failures,
            ),
    {
        let mut at: usize = if self.cursor > self.ops.len() {
            self.ops.len()
        } else {
            self.cursor
        };
        while at < self.ops.len() && self.blocked(at)
            invariant
                at <= self.ops@.len(),
                *self == *old(self),
                next_pending(self@.ops, self@.failures, self@.cursor) == next_pending(
                    self@.ops,
                    self@.failures,
                    at as nat,
                ),
            decreases self.ops@.len() - at,
        {
            at += 1;
        }
        self.cursor = at;
    }

    /// The operation to perform next, if any is left. Operations come in the
    /// order of the plan; those of a node for which an operation failed, and
    /// those of the nodes below it, are passed over.
    pub fn next_op(&mut self) -> (r: Option<WriteOp>)
        ensures
            final(self)@ == advanced(old(self)@),
            final(self).events() == old(self).events(),
            match r {
                Some(op) => {
                    &&& final(self)@.cursor < final(self)@.ops.len()
                    &&& op@ == final(self)@.ops[final(self)@.cursor as int]
                    &&& !is_blocked(op@.owner, final(self)@.failures)
                },
                None => final(self)@.cursor == final(self)@.ops.len(),
            },
    {
        self.advance();
        if self.cursor < self.ops.len() {
            Some(self.ops[self.cursor].duplicate())
        } else {
            None
        }
    }

    /// Takes the report of how the operation that `next_op` gave ended:
    /// `Ok` where it was done, the cause where it failed. The operation is
    /// then dealt with, and a failure is held against its node. One attempt
    /// is all an operation gets.
    pub fn record(&mut self, outcome: Result<(), String>)
        ensures
            final(self)@ == recorded(
                old(self)@,
                match outcome {
                    Ok(_) => None,
                    Err(cause) => Some(cause@),
                },
            ),
            final(self).events() == old(self).events(),
    {
        self.advance();
        if self.cursor < self.ops.len() {
            match outcome {
                Ok(_) => {},
                Err(cause) => {
                    let failure = Failure {
                        owner: copy_strings(&self.ops[self.cursor].owner),
                        path: copy_strings(&self.ops[self.cursor].path),
                        cause,
                    };
                    let ghost before = failure_models(self.failures@);
                    self.failures.push(failure);
                    assert(failure_models(self.failures@) =~= before.push(failure@));
                },
            }
            self.cursor = self.cursor + 1;
        }
    }

    /// Whether every operation is dealt with: done, failed or passed over.
    pub fn is_finished(&self) -> (r: bool)
        ensures
            r == is_finished(self@),
    {
        let mut at: usize = if self.cursor > self.ops.len() {
            self.ops.len()
        } else {
            self.cursor
        };
        while at < self.ops.len() && self.blocked(at)
            invariant
                at <= self.ops@.len(),
                next_pending(self@.ops, self@.failures, self@.cursor) == next_pending(
                    self@.ops,
                    self@.failures,
                    at as nat,
                ),
            decreases self.ops@.len() - at,
        {
            at += 1;
        }
        at == self.ops.len()
    }

    /// Ends the run. The report holds every failed write, every node that
    /// was left out for want of a name and every property that was dropped.
    /// It tells a success exactly if the run succeeded: every operation was
    /// dealt with, no write failed and every name was resolved. Where the run
    /// is complete and the output root was made, the report holds the text of
    /// the manifest, which has an entry for exactly the nodes that were made,
    /// and their number.
    pub fn finish(self) -> (report: Report)
        ensures
            is_report_of(report, self@, self.events()),
            report.tells_success() <==> succeeded(self@, self.events()),
    {
        proof {
            lemma_unresolved_in(self.events());
        }
        let unresolved = collect_unresolved(self.events);
        let dropped = collect_dropped(self.events);
        let complete = self.is_finished();
        let made = if complete {
            build_manifest(self.plan, &self.failures)
        } else {
            None
        };
        let (materialized, text) = match &made {
            Some(m) => (count_entries(m), Some(manifest_json(m).to_text())),
            None => (0, None),
        };
        Report {
            complete,
            materialized,
            failures: self.failures,
            unresolved,
            dropped,
            manifest: text,
        }
    }

    /// The failures so far, in the order in which they occurred.
    pub fn failures(&self) -> (list: &Vec<Failure>)
        ensures
            failure_models(list@) == self@.failures,
    {
        &self.failures
    }
}

} // verus!
