//! Laws of plan passes.

use vstd::prelude::*;

use crate::ids::{ContentId, SnapshotId};
use crate::model::{ManifestEntry, ManifestRecord, Snapshot};
use crate::runtime::fetch::{AttemptModel, FetchOutcome, VaultError};
use crate::runtime::intake::Fact;
use crate::runtime::plan::{
    items_of, lands, plan_len, settles_body, settles_manifest, settles_object, Count,
    ExecuteReport, FetchKey, Note, PlanItem, PlanView, Settlement,
};
use crate::runtime::state::{is_root_of, RuntimeReconcile};

verus! {

/// Counting an item adds one to the number of settled items.
proof fn lemma_counting(report: ExecuteReport, count: Count)
    requires
        report.countable(),
    ensures
        report.counting(count).settled() == report.settled() + 1,
        report.counting(count).unfulfilled == report.unfulfilled,
{
}

/// Every snapshot body that is settled is counted once, unless a failure
/// ends the run; a failure changes nothing.
pub proof fn law_bodies_are_counted_once<
    A: FnOnce(&Snapshot) -> bool,
    I: FnOnce(&Vec<u8>) -> Result<(), VaultError>,
>(
    before: PlanView,
    snapshot: SnapshotId,
    outcome: FetchOutcome<Snapshot>,
    authorize: A,
    import: I,
    after: PlanView,
    r: Settlement,
)
    requires
        before.report.countable(),
        settles_body(before, snapshot, outcome, authorize, import, after, r),
    ensures
        r.failure is Some ==> after == before,
        r.failure is None ==> after.report.settled() == before.report.settled() + 1
            && after.cursor == before.cursor + 1,
{
    lemma_counting(before.report, Count::SnapshotBody);
    lemma_counting(before.report, Count::Missing);
    lemma_counting(before.report, Count::Invalid);
    lemma_counting(before.report, Count::UnavailableKey);
    lemma_counting(before.report, Count::TransportError);
    lemma_counting(before.report, Count::LocalFailure);
}

/// Every manifest that is settled is counted once, unless a failure ends
/// the run; a failure changes nothing.
pub proof fn law_manifests_are_counted_once(
    before: PlanView,
    key: FetchKey,
    outcome: FetchOutcome<ManifestRecord>,
    derived: ContentId,
    after: PlanView,
    r: Settlement,
)
    requires
        before.report.countable(),
        settles_manifest(before, key, outcome, derived, after, r),
    ensures
        r.failure is Some ==> after == before,
        r.failure is None ==> after.report.settled() == before.report.settled() + 1
            && after.cursor == before.cursor + 1,
{
    lemma_counting(before.report, Count::Manifest);
    lemma_counting(before.report, Count::Missing);
    lemma_counting(before.report, Count::Invalid);
    lemma_counting(before.report, Count::UnavailableKey);
    lemma_counting(before.report, Count::TransportError);
    lemma_counting(before.report, Count::LocalFailure);
}

/// Every object that is settled is counted once, unless a failure ends the
/// run; a failure changes nothing.
pub proof fn law_objects_are_counted_once(
    before: PlanView,
    content: ContentId,
    attempt: AttemptModel,
    after: PlanView,
    r: Settlement,
)
    requires
        before.report.countable(),
        settles_object(before, content, attempt, after, r),
    ensures
        r.failure is Some ==> after == before,
        r.failure is None ==> after.report.settled() == before.report.settled() + 1
            && after.cursor == before.cursor + 1,
{
    lemma_counting(before.report, Count::Object);
    lemma_counting(before.report, Count::Missing);
    lemma_counting(before.report, Count::Invalid);
    lemma_counting(before.report, Count::UnavailableKey);
    lemma_counting(before.report, Count::TransportError);
    lemma_counting(before.report, Count::LocalFailure);
}

/// A body lands only if its announcement describes it, its author is
/// authorized and its bytes became resident; then it is recorded, and no
/// plan asks for it again.
pub proof fn law_landed_bodies_agree_and_are_resident<
    A: FnOnce(&Snapshot) -> bool,
    I: FnOnce(&Vec<u8>) -> Result<(), VaultError>,
>(
    before: PlanView,
    snapshot: SnapshotId,
    body: Snapshot,
    authorize: A,
    import: I,
    after: PlanView,
    r: Settlement,
)
    requires
        settles_body(
            before,
            snapshot,
            FetchOutcome::Fulfilled(body),
            authorize,
            import,
            after,
            r,
        ),
        after.facts != before.facts,
    ensures
        before.runtime.announcements.contains_key(snapshot),
        before.runtime.announcements[snapshot].describes(&body),
        call_ensures(authorize, (&body,), true),
        exists|imported: Result<(), VaultError>|
            #[trigger] call_ensures(import, (&body.encoded,), imported) && imported is Ok,
        after.runtime.bodies.contains_key(body.id),
        !after.runtime.announcements.dom().difference(after.runtime.bodies.dom()).contains(body.id),
        after.remaining() == before.remaining() - 1,
{
}

/// A root manifest that lands takes its snapshot out of the plan's pending
/// snapshots, and any manifest that lands out of the pending manifests.
pub proof fn law_landed_manifests_leave_the_plan(
    before: PlanView,
    key: FetchKey,
    record: ManifestRecord,
    derived: ContentId,
    after: PlanView,
    r: Settlement,
    plan: RuntimeReconcile,
)
    requires
        before.runtime.consistent(),
        settles_manifest(before, key, FetchOutcome::Fulfilled(record), derived, after, r),
        r.failure is None,
        after.runtime.plans(&plan),
    ensures
        !plan.pending_manifests@.contains_key(record.manifest_id),
        record.is_root ==> !plan.pending_snapshots@.contains(record.manifest.snapshot),
        after.remaining() == before.remaining() - 1,
{
    if before.runtime.manifests.contains_key(record.manifest_id) {
        assert(before.runtime.manifests.dom().contains(record.manifest_id));
        assert(after.runtime.manifests.dom().contains(record.manifest_id));
        let held = before.runtime.manifests[record.manifest_id];
        assert(held.manifest@ == record.manifest@);
        assert(held.manifest@.snapshot == record.manifest@.snapshot);
        assert(record.is_root ==> is_root_of(
            before.runtime.manifests,
            record.manifest_id,
            record.manifest.snapshot,
        ));
    }
}

/// An object that lands is local, so nothing maps to it as wanted any more.
pub proof fn law_landed_objects_are_local(
    before: PlanView,
    content: ContentId,
    attempt: AttemptModel,
    after: PlanView,
    r: Settlement,
)
    requires
        settles_object(before, content, attempt, after, r),
        attempt.aggregate is Fulfilled,
    ensures
        after.runtime.local.contains(content),
        forall|entry: ManifestEntry|
            entry.content_id == content ==> !#[trigger] after.runtime.wants(entry),
        after.remaining() == before.remaining() - 1,
{
}

/// Absent, key-less and locally refused items never earn a note.
pub proof fn law_no_blame_without_evidence(
    before: PlanView,
    key: FetchKey,
    outcome: FetchOutcome<ManifestRecord>,
    derived: ContentId,
    after: PlanView,
    r: Settlement,
)
    requires
        settles_manifest(before, key, outcome, derived, after, r),
        outcome is Missing || outcome is UnavailableKey || outcome is Local,
    ensures
        r.notes@ == Seq::<Note>::empty(),
{
}

/// Whatever is planned has its turn: bodies first, then roots, then
/// children, then objects.
pub proof fn law_everything_planned_has_its_turn(plan: RuntimeReconcile)
    requires
        plan.wf(),
    ensures
        forall|s: SnapshotId| #[trigger]
            plan.pending_snapshot_bodies@.contains(s) ==> items_of(plan).contains(
                PlanItem::Body(s),
            ),
        forall|s: SnapshotId| #[trigger]
            plan.pending_snapshots@.contains(s) ==> items_of(plan).contains(PlanItem::Root(s)),
        forall|c: ContentId| #[trigger]
            plan.pending_manifests@.contains_key(c) ==> items_of(plan).contains(
                PlanItem::Child(c, plan.pending_manifests@[c]),
            ),
        forall|c: ContentId| #[trigger]
            plan.pending_objects@.contains_key(c) ==> items_of(plan).contains(PlanItem::Object(c)),
{
    let bodies = plan.pending_snapshot_bodies.keys();
    let roots = plan.pending_snapshots.keys();
    let children = plan.pending_manifests.keys();
    let objects = plan.pending_objects.keys();
    plan.pending_snapshot_bodies.lemma_keys();
    plan.pending_snapshots.lemma_keys();
    plan.pending_manifests.lemma_keys();
    plan.pending_objects.lemma_keys();
    assert forall|s: SnapshotId| #[trigger]
        plan.pending_snapshot_bodies@.contains(s) implies items_of(plan).contains(
        PlanItem::Body(s),
    ) by {
        assert(bodies.contains(s));
        let i = bodies.index_of(s);
        assert(items_of(plan)[i] == PlanItem::Body(s));
    }
    assert forall|s: SnapshotId| #[trigger]
        plan.pending_snapshots@.contains(s) implies items_of(plan).contains(PlanItem::Root(s)) by {
        assert(roots.contains(s));
        let i = roots.index_of(s);
        assert(items_of(plan)[bodies.len() + i] == PlanItem::Root(s));
    }
    assert forall|c: ContentId| #[trigger]
        plan.pending_manifests@.contains_key(c) implies items_of(plan).contains(
        PlanItem::Child(c, plan.pending_manifests@[c]),
    ) by {
        assert(plan.pending_manifests@.dom().contains(c));
        assert(children.contains(c));
        let i = children.index_of(c);
        assert(items_of(plan)[bodies.len() + roots.len() + i] == PlanItem::Child(
            c,
            plan.pending_manifests@[c],
        ));
    }
    assert forall|c: ContentId| #[trigger]
        plan.pending_objects@.contains_key(c) implies items_of(plan).contains(
        PlanItem::Object(c),
    ) by {
        assert(plan.pending_objects@.dom().contains(c));
        assert(objects.contains(c));
        let i = objects.index_of(c);
        assert(items_of(plan)[bodies.len() + roots.len() + children.len() + i]
            == PlanItem::Object(c));
    }
}

/// What a committed fact was counted as when its item landed.
pub open spec fn counts_as(fact: Fact) -> Option<Count> {
    match fact {
        Fact::SnapshotBody(_) => Some(Count::SnapshotBody),
        Fact::Manifest(_) => Some(Count::Manifest),
        Fact::LocalObject(_) => Some(Count::Object),
        _ => None,
    }
}

/// How many facts landed under a count.
pub open spec fn counted(facts: Seq<Fact>, count: Count) -> nat
    decreases facts.len(),
{
    if facts.len() == 0 {
        0
    } else {
        counted(facts.drop_last(), count) + if counts_as(facts.last()) == Some(count) {
            1nat
        } else {
            0nat
        }
    }
}

/// What one turn of a pass comes to: the current item lands with a fact of
/// its kind, is counted without landing, or is skipped; a failure leaves
/// the pass as it was.
pub open spec fn steps(before: PlanView, after: PlanView) -> bool {
    ||| after == before
    ||| before.cursor < before.items.len() && {
        ||| after == (PlanView { cursor: before.cursor + 1, ..before })
        ||| exists|count: Count|
            {
                &&& after == #[trigger] before.passed_over(count)
                &&& !(count is SnapshotBody || count is Manifest || count is Object)
            }
        ||| exists|count: Count|
            {
                &&& #[trigger] lands(before, after, count)
                &&& counts_as(after.facts.last()) == Some(count)
            }
    }
}

/// A snapshot body that is settled is one turn of its pass.
pub proof fn law_settling_a_body_is_a_step<
    A: FnOnce(&Snapshot) -> bool,
    I: FnOnce(&Vec<u8>) -> Result<(), VaultError>,
>(
    before: PlanView,
    snapshot: SnapshotId,
    outcome: FetchOutcome<Snapshot>,
    authorize: A,
    import: I,
    after: PlanView,
    r: Settlement,
)
    requires
        before.cursor < before.items.len(),
        settles_body(before, snapshot, outcome, authorize, import, after, r),
    ensures
        steps(before, after),
{
    if after.facts.len() == before.facts.len() + 1 {
        assert(lands(before, after, Count::SnapshotBody));
    }
}

/// A manifest that is settled is one turn of its pass.
pub proof fn law_settling_a_manifest_is_a_step(
    before: PlanView,
    key: FetchKey,
    outcome: FetchOutcome<ManifestRecord>,
    derived: ContentId,
    after: PlanView,
    r: Settlement,
)
    requires
        before.cursor < before.items.len(),
        settles_manifest(before, key, outcome, derived, after, r),
    ensures
        steps(before, after),
{
    if after.facts.len() == before.facts.len() + 1 {
        assert(lands(before, after, Count::Manifest));
    }
}

/// An object that is settled is one turn of its pass.
pub proof fn law_settling_an_object_is_a_step(
    before: PlanView,
    content: ContentId,
    attempt: AttemptModel,
    after: PlanView,
    r: Settlement,
)
    requires
        before.cursor < before.items.len(),
        settles_object(before, content, attempt, after, r),
    ensures
        steps(before, after),
{
    if after.facts.len() == before.facts.len() + 1 {
        assert(lands(before, after, Count::Object));
    }
}

/// A pass from its start through any number of turns.
pub open spec fn passes(views: Seq<PlanView>) -> bool {
    &&& views.len() > 0
    &&& views[0].cursor == 0
    &&& views[0].facts == Seq::<Fact>::empty()
    &&& views[0].items.len() <= usize::MAX
    &&& forall|i: int| 0 <= i < views.len() ==> (#[trigger] views[i]).report.countable()
    &&& forall|i: int|
        0 <= i < views.len() - 1 ==> steps(#[trigger] views[i], views[i + 1])
}

/// Whether a report grew by exactly the facts.
pub open spec fn grew_by(
    before: ExecuteReport,
    after: ExecuteReport,
    bodies: int,
    manifests: int,
    objects: int,
) -> bool {
    &&& after.snapshot_bodies == before.snapshot_bodies + bodies
    &&& after.manifests == before.manifests + manifests
    &&& after.objects == before.objects + objects
}

/// A pass counts what it landed: the report grew by one for each fact,
/// under the fact's kind. What the pass would leave unfulfilled is what it
/// planned and did not land, and a pass that landed nothing left the state
/// as it was.
pub proof fn law_a_pass_reports_what_it_landed(views: Seq<PlanView>)
    requires
        passes(views),
    ensures
        grew_by(
            views[0].report,
            views.last().report,
            counted(views.last().facts, Count::SnapshotBody) as int,
            counted(views.last().facts, Count::Manifest) as int,
            counted(views.last().facts, Count::Object) as int,
        ),
        views.last().facts.len() == counted(views.last().facts, Count::SnapshotBody) + counted(
            views.last().facts,
            Count::Manifest,
        ) + counted(views.last().facts, Count::Object),
        views.last().items == views[0].items,
        views.last().facts.len() <= views.last().cursor <= views[0].items.len(),
        views.last().final_report().unfulfilled == views[0].items.len()
            - views.last().facts.len(),
        views.last().facts.len() == 0 ==> views.last().runtime == views[0].runtime,
    decreases views.len(),
{
    if views.len() > 1 {
        let init = views.drop_last();
        assert(views[init.len() - 1] == init.last());
        assert forall|i: int| 0 <= i < init.len() - 1 implies steps(
            #[trigger] init[i],
            init[i + 1],
        ) by {
            assert(views[i] == init[i]);
            assert(steps(views[i], views[i + 1]));
        }
        assert forall|i: int| 0 <= i < init.len() implies (
        #[trigger] init[i]).report.countable() by {
            assert(views[i].report.countable());
        }
        law_a_pass_reports_what_it_landed(init);
        let before = init.last();
        let after = views.last();
        assert(views[init.len() - 1 + 1] == after);
        assert(steps(before, after));
        if exists|count: Count|
            #[trigger] lands(before, after, count) && counts_as(after.facts.last()) == Some(count) {
            assert(after.facts.drop_last() == before.facts);
        } else {
            assert(after.facts == before.facts);
        }
    }
}

/// A run: passes that each go on counting where the one before it stopped,
/// from a report in which nothing is counted.
pub open spec fn runs(run: Seq<Seq<PlanView>>) -> bool {
    &&& run.len() > 0
    &&& run[0][0].report.settled() == 0
    &&& forall|i: int| 0 <= i < run.len() ==> passes(#[trigger] run[i])
    &&& forall|i: int|
        0 <= i < run.len() - 1 ==> run[i + 1][0].report == (#[trigger] run[i]).last().report
}

/// How many facts several passes landed under a count.
pub open spec fn landed(run: Seq<Seq<PlanView>>, count: Count) -> nat
    decreases run.len(),
{
    if run.len() == 0 {
        0
    } else {
        landed(run.drop_last(), count) + counted(run.last().last().facts, count)
    }
}

/// A run reports what its passes landed, and leaves unfulfilled what its
/// last pass planned and did not land.
pub proof fn law_a_run_reports_what_it_landed(run: Seq<Seq<PlanView>>)
    requires
        runs(run),
    ensures
        run.last().last().final_report().snapshot_bodies == landed(run, Count::SnapshotBody),
        run.last().last().final_report().manifests == landed(run, Count::Manifest),
        run.last().last().final_report().objects == landed(run, Count::Object),
        run.last().last().final_report().unfulfilled == run.last()[0].items.len()
            - run.last().last().facts.len(),
    decreases run.len(),
{
    law_a_pass_reports_what_it_landed(run.last());
    let init = run.drop_last();
    if run.len() > 1 {
        assert forall|i: int| 0 <= i < init.len() implies passes(#[trigger] init[i]) by {
            assert(init[i] == run[i]);
        }
        assert forall|i: int| 0 <= i < init.len() - 1 implies init[i + 1][0].report == (
        #[trigger] init[i]).last().report by {
            assert(init[i] == run[i]);
            assert(init[i + 1] == run[i + 1]);
        }
        law_a_run_reports_what_it_landed(init);
        assert(run[init.len() - 1] == init.last());
        assert(run[init.len() - 1 + 1] == run.last());
    } else {
        assert(init.len() == 0);
        assert(landed(init, Count::SnapshotBody) == 0);
        assert(landed(init, Count::Manifest) == 0);
        assert(landed(init, Count::Object) == 0);
        assert(run.last() == run[0]);
    }
}

/// A run that converged reports exactly what it committed, which is what
/// its passes but the last landed; and what it leaves unfulfilled is what
/// the state still plans.
pub proof fn law_a_converged_run_reports_what_it_committed(
    run: Seq<Seq<PlanView>>,
    plan: RuntimeReconcile,
)
    requires
        runs(run),
        run.last()[0].runtime.plans(&plan),
        run.last()[0].items == items_of(plan),
        run.last().last().facts.len() == 0,
    ensures
        run.last().last().final_report().snapshot_bodies == landed(
            run.drop_last(),
            Count::SnapshotBody,
        ),
        run.last().last().final_report().manifests == landed(run.drop_last(), Count::Manifest),
        run.last().last().final_report().objects == landed(run.drop_last(), Count::Object),
        run.last().last().runtime.plans(&plan),
        run.last().last().final_report().unfulfilled == plan_len(plan),
{
    law_a_run_reports_what_it_landed(run);
    law_a_pass_reports_what_it_landed(run.last());
}

} // verus!
