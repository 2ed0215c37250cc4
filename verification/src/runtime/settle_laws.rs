//! What settling an item changes, count by count and note by note.

use vstd::prelude::*;

use crate::ids::{ContentId, SnapshotId};
use crate::model::{ChildManifest, ManifestRecord, Snapshot, StoreFailure};
use crate::order::Key;
use crate::runtime::backoff::{BackoffView, Standing};
use crate::runtime::drain::{disposed, frames, DrainReport, Framing};
use crate::runtime::fetch::{AttemptModel, FetchOutcome, VaultError};
use crate::runtime::intake::{EngineError, Fact, Outcome};
use crate::runtime::plan::{
    items_of, object_notes, rested, settles_body, settles_import, settles_manifest, settles_object,
    settles_unlanded, Count, ExecuteReport, FetchKey, Note, PlanItem, PlanView, Settlement,
};
use crate::runtime::record_laws::matches_body;
use crate::runtime::state::{PendingObjectFetch, RuntimeReconcile};
use crate::transport::mailbox::{Disposition, MailboxError};

verus! {

/// Nothing has its turn but what is planned: a body or a root of a pending
/// snapshot, a pending child under its planned link, or a pending object.
pub proof fn law_only_what_is_planned_has_its_turn(plan: RuntimeReconcile, i: int)
    requires
        plan.wf(),
        0 <= i < items_of(plan).len(),
    ensures
        match items_of(plan)[i] {
            PlanItem::Body(s) => plan.pending_snapshot_bodies@.contains(s),
            PlanItem::Root(s) => plan.pending_snapshots@.contains(s),
            PlanItem::Child(c, link) => plan.pending_manifests@.contains_key(c)
                && plan.pending_manifests@[c] == link,
            PlanItem::Object(c) => plan.pending_objects@.contains_key(c),
        },
{
    let bodies = plan.pending_snapshot_bodies.keys();
    let roots = plan.pending_snapshots.keys();
    let children = plan.pending_manifests.keys();
    let objects = plan.pending_objects.keys();
    plan.pending_snapshot_bodies.lemma_keys();
    plan.pending_snapshots.lemma_keys();
    plan.pending_manifests.lemma_keys();
    plan.pending_objects.lemma_keys();
    if i < bodies.len() {
        assert(bodies.contains(bodies[i]));
    } else if i < bodies.len() + roots.len() {
        assert(roots.contains(roots[i - bodies.len()]));
    } else if i < bodies.len() + roots.len() + children.len() {
        assert(children.contains(children[i - bodies.len() - roots.len()]));
        assert(plan.pending_manifests@.dom().contains(
            children[i - bodies.len() - roots.len()],
        ));
    } else {
        let k = i - bodies.len() - roots.len() - children.len();
        assert(objects.contains(objects[k]));
        assert(plan.pending_objects@.dom().contains(objects[k]));
    }
}

/// Whether one item has its turn before another: bodies before roots before
/// children before objects, and among each in id order.
pub open spec fn goes_before(a: PlanItem, b: PlanItem) -> bool {
    match (a, b) {
        (PlanItem::Body(x), PlanItem::Body(y)) => SnapshotId::before(x, y),
        (PlanItem::Body(_), _) => true,
        (PlanItem::Root(x), PlanItem::Root(y)) => SnapshotId::before(x, y),
        (PlanItem::Root(_), PlanItem::Child(_, _)) => true,
        (PlanItem::Root(_), PlanItem::Object(_)) => true,
        (PlanItem::Child(x, _), PlanItem::Child(y, _)) => ContentId::before(x, y),
        (PlanItem::Child(_, _), PlanItem::Object(_)) => true,
        (PlanItem::Object(x), PlanItem::Object(y)) => ContentId::before(x, y),
        _ => false,
    }
}

/// Bodies have their turn first, then roots, then children, then objects,
/// each in id order and none twice.
pub proof fn law_items_have_their_turn_in_order(plan: RuntimeReconcile, i: int, j: int)
    requires
        plan.wf(),
        0 <= i < j < items_of(plan).len(),
    ensures
        goes_before(items_of(plan)[i], items_of(plan)[j]),
        items_of(plan)[i] != items_of(plan)[j],
{
    plan.pending_snapshot_bodies.lemma_keys();
    plan.pending_snapshots.lemma_keys();
    plan.pending_manifests.lemma_keys();
    plan.pending_objects.lemma_keys();
    if let PlanItem::Body(x) = items_of(plan)[i] {
        SnapshotId::irreflexive(x);
    }
    if let PlanItem::Root(x) = items_of(plan)[i] {
        SnapshotId::irreflexive(x);
    }
    if let PlanItem::Child(x, _) = items_of(plan)[i] {
        ContentId::irreflexive(x);
    }
    if let PlanItem::Object(x) = items_of(plan)[i] {
        ContentId::irreflexive(x);
    }
}

/// Backoff is kept on a body and a root by their snapshot, and on a child
/// by the storage id of its link; an object has no key of its own.
pub proof fn law_items_are_keyed_by_what_is_fetched(
    snapshot: SnapshotId,
    content: ContentId,
    link: ChildManifest,
)
    ensures
        PlanItem::Body(snapshot).keyed() == Some(FetchKey::Body(snapshot)),
        PlanItem::Root(snapshot).keyed() == Some(FetchKey::Root(snapshot)),
        PlanItem::Child(content, link).keyed() == Some(FetchKey::Storage(link.storage)),
        PlanItem::Object(content).keyed() is None,
{
}

/// What one counter goes up by when an item is counted.
pub open spec fn one_if(condition: bool) -> int {
    if condition {
        1
    } else {
        0
    }
}

/// Counting an item adds one to the counter of its own sort and to no
/// other.
pub proof fn law_each_sort_has_its_counter(report: ExecuteReport, count: Count)
    requires
        report.countable(),
    ensures
        ({
            let after = report.counting(count);
            &&& after.snapshot_bodies == report.snapshot_bodies + one_if(count is SnapshotBody)
            &&& after.manifests == report.manifests + one_if(count is Manifest)
            &&& after.objects == report.objects + one_if(count is Object)
            &&& after.missing == report.missing + one_if(count is Missing)
            &&& after.invalid == report.invalid + one_if(count is Invalid)
            &&& after.unavailable_keys == report.unavailable_keys + one_if(count is UnavailableKey)
            &&& after.transport_errors == report.transport_errors + one_if(count is TransportError)
            &&& after.local_failures == report.local_failures + one_if(count is LocalFailure)
            &&& after.unfulfilled == report.unfulfilled
        }),
{
}

/// Whether a pass went on past an item that did not land: nothing is
/// recorded, and the counters went up by these.
pub open spec fn went_past(
    before: PlanView,
    after: PlanView,
    missing: int,
    invalid: int,
    unavailable_keys: int,
    transport_errors: int,
    local_failures: int,
) -> bool {
    &&& after.runtime == before.runtime
    &&& after.items == before.items
    &&& after.objects == before.objects
    &&& after.facts == before.facts
    &&& after.cursor == before.cursor + 1
    &&& after.report.missing == before.report.missing + missing
    &&& after.report.invalid == before.report.invalid + invalid
    &&& after.report.unavailable_keys == before.report.unavailable_keys + unavailable_keys
    &&& after.report.transport_errors == before.report.transport_errors + transport_errors
    &&& after.report.local_failures == before.report.local_failures + local_failures
    &&& after.report.snapshot_bodies == before.report.snapshot_bodies
    &&& after.report.manifests == before.report.manifests
    &&& after.report.objects == before.report.objects
    &&& after.report.unfulfilled == before.report.unfulfilled
}

/// Absent items, refused bytes, missing keys, failed routes and local
/// refusals are each counted as what they are. Refused bytes and failed
/// routes are noted against the key, the others against none, and a disk
/// that can take nothing more ends the run and changes nothing.
pub proof fn law_failures_are_counted_as_what_they_are<T>(
    before: PlanView,
    key: FetchKey,
    outcome: FetchOutcome<T>,
    after: PlanView,
    r: Settlement,
)
    requires
        before.report.countable(),
        !(outcome is Fulfilled),
        settles_unlanded(before, key, outcome, after, r),
    ensures
        outcome is Missing ==> went_past(before, after, 1, 0, 0, 0, 0) && r.notes@ == Seq::<
            Note,
        >::empty() && r.failure is None,
        outcome is Invalid ==> went_past(before, after, 0, 1, 0, 0, 0) && r.notes@
            == seq![Note::Invalid(key)] && r.failure is None,
        outcome is UnavailableKey ==> went_past(before, after, 0, 0, 1, 0, 0) && r.notes@
            == Seq::<Note>::empty() && r.failure is None,
        outcome is Transport ==> went_past(before, after, 0, 0, 0, 1, 0) && r.notes@
            == seq![Note::TransportFailure(key)] && r.failure is None,
        outcome is Local ==> went_past(before, after, 0, 0, 0, 0, 1) && r.notes@ == Seq::<
            Note,
        >::empty() && r.failure is None,
        outcome matches FetchOutcome::Store(failure) ==> after == before && r.notes@ == Seq::<
            Note,
        >::empty() && r.failure == Some(EngineError::Store(failure)),
{
}

/// Whether a pass went on past an item that landed: one fact is added, and
/// of the counters only these went up.
pub open spec fn landed_past(
    before: PlanView,
    after: PlanView,
    fact: Fact,
    snapshot_bodies: int,
    manifests: int,
    objects: int,
) -> bool {
    &&& after.items == before.items
    &&& after.objects == before.objects
    &&& after.facts == before.facts.push(fact)
    &&& after.cursor == before.cursor + 1
    &&& after.report.missing == before.report.missing
    &&& after.report.invalid == before.report.invalid
    &&& after.report.unavailable_keys == before.report.unavailable_keys
    &&& after.report.transport_errors == before.report.transport_errors
    &&& after.report.local_failures == before.report.local_failures
    &&& after.report.snapshot_bodies == before.report.snapshot_bodies + snapshot_bodies
    &&& after.report.manifests == before.report.manifests + manifests
    &&& after.report.objects == before.report.objects + objects
    &&& after.report.unfulfilled == before.report.unfulfilled
}

proof fn lemma_pushed<T>(before: Seq<T>, after: Seq<T>)
    requires
        after.len() == before.len() + 1,
        after.drop_last() == before,
    ensures
        after == before.push(after.last()),
{
    assert(after =~= before.push(after.last()));
}

/// A fetched body that its announcement does not describe is counted as
/// invalid and noted against the snapshot's body, and nothing is recorded.
/// Without an announcement the run ends.
pub proof fn law_bodies_have_to_be_the_announced_ones<
    A: FnOnce(&Snapshot) -> bool,
    I: FnOnce(&Vec<u8>) -> Result<(), VaultError>,
>(
    before: PlanView,
    snapshot: SnapshotId,
    body: Snapshot,
    authorize: A,
    import: I,
    after: PlanView,
    r: Settlement,
)
    requires
        before.report.countable(),
        settles_body(
            before,
            snapshot,
            FetchOutcome::Fulfilled(body),
            authorize,
            import,
            after,
            r,
        ),
    ensures
        !before.runtime.announcements.contains_key(snapshot) ==> after == before && r.notes@
            == Seq::<Note>::empty() && r.failure == Some(
            EngineError::AnnouncementUnavailable(snapshot),
        ),
        before.runtime.announcements.contains_key(snapshot) && !matches_body(
            before.runtime.announcements[snapshot],
            body,
        ) ==> went_past(before, after, 0, 1, 0, 0, 0) && r.notes@ == seq![
            Note::Invalid(FetchKey::Body(snapshot)),
        ] && r.failure is None,
        before.runtime.announcements.contains_key(snapshot) && (forall|allowed: bool| #[trigger]
            call_ensures(authorize, (&body,), allowed) ==> !allowed) ==> went_past(
            before,
            after,
            0,
            1,
            0,
            0,
            0,
        ) && r.notes@ == seq![Note::Invalid(FetchKey::Body(snapshot))] && r.failure is None,
{
}

/// A body that lands was described by its announcement, allowed by its
/// author's standing and taken by the vault. It is counted once as a body,
/// recorded under its id and committed as it came, and its key is cleared.
pub proof fn law_landed_bodies_are_recorded<
    A: FnOnce(&Snapshot) -> bool,
    I: FnOnce(&Vec<u8>) -> Result<(), VaultError>,
>(
    before: PlanView,
    snapshot: SnapshotId,
    outcome: FetchOutcome<Snapshot>,
    authorize: A,
    import: I,
    after: PlanView,
    r: Settlement,
)
    requires
        before.report.countable(),
        settles_body(before, snapshot, outcome, authorize, import, after, r),
        after.facts != before.facts,
    ensures
        outcome matches FetchOutcome::Fulfilled(body) && {
            &&& before.runtime.announcements.contains_key(snapshot)
            &&& matches_body(before.runtime.announcements[snapshot], body)
            &&& call_ensures(authorize, (&body,), true)
            &&& exists|imported: Result<(), VaultError>|
                #[trigger] call_ensures(import, (&body.encoded,), imported) && imported is Ok
            &&& after.runtime.bodies == before.runtime.bodies.insert(body.id, body)
            &&& after.runtime.announcements == before.runtime.announcements
            &&& after.runtime.manifests == before.runtime.manifests
            &&& after.runtime.local == before.runtime.local
            &&& after.facts.last() matches Fact::SnapshotBody(copy)
            &&& copy.id == body.id
            &&& copy.parents@ == body.parents@
            &&& copy.author == body.author
            &&& copy.membership == body.membership
            &&& copy.epoch == body.epoch
            &&& copy.encoded@ == body.encoded@
            &&& landed_past(before, after, after.facts.last(), 1, 0, 0)
            &&& r.notes@ == seq![Note::Fulfilled(FetchKey::Body(snapshot))]
            &&& r.failure is None
        },
{
    match outcome {
        FetchOutcome::Fulfilled(body) => {
            let key = FetchKey::Body(snapshot);
            let imported = choose|imported: Result<(), VaultError>|
                #[trigger] call_ensures(import, (&body.encoded,), imported) && settles_import(
                    before,
                    key,
                    body,
                    imported,
                    after,
                    r,
                );
            assert(settles_import(before, key, body, imported, after, r));
            lemma_pushed(before.facts, after.facts);
        },
        _ => {},
    }
}

/// What the vault made of an agreeing body decides: taken, the body lands;
/// a full or unwritable disk ends the run and changes nothing; any other
/// refusal is a local failure that is held against no one.
pub proof fn law_imports_decide_over_bodies(
    before: PlanView,
    key: FetchKey,
    body: Snapshot,
    imported: Result<(), VaultError>,
    after: PlanView,
    r: Settlement,
)
    requires
        before.report.countable(),
        settles_import(before, key, body, imported, after, r),
    ensures
        imported == Err::<(), VaultError>(VaultError::Io(StoreFailure::StorageFull)) ==> after
            == before && r.notes@ == Seq::<Note>::empty() && r.failure == Some(
            EngineError::Store(StoreFailure::StorageFull),
        ),
        imported == Err::<(), VaultError>(VaultError::Io(StoreFailure::Unwritable)) ==> after
            == before && r.notes@ == Seq::<Note>::empty() && r.failure == Some(
            EngineError::Store(StoreFailure::Unwritable),
        ),
        imported == Err::<(), VaultError>(VaultError::Io(StoreFailure::Transient)) || imported
            == Err::<(), VaultError>(VaultError::Root) ==> went_past(
            before,
            after,
            0,
            0,
            0,
            0,
            1,
        ) && r.notes@ == Seq::<Note>::empty() && r.failure is None,
        imported is Ok && before.runtime.body_refusal(&body) is None ==> after.runtime.bodies
            == before.runtime.bodies.insert(body.id, body) && after.facts.len()
            == before.facts.len() + 1 && r.notes@ == seq![Note::Fulfilled(key)]
            && r.failure is None,
{
}

/// A fetched manifest that the state refuses ends the run with that refusal
/// and changes nothing; any other lands: it is counted once as a manifest,
/// committed as it came, and its key is cleared.
pub proof fn law_fetched_manifests_are_recorded(
    before: PlanView,
    key: FetchKey,
    record: ManifestRecord,
    derived: ContentId,
    after: PlanView,
    r: Settlement,
)
    requires
        before.report.countable(),
        settles_manifest(before, key, FetchOutcome::Fulfilled(record), derived, after, r),
    ensures
        before.runtime.manifest_refusal(&record, derived) matches Some(error) ==> after == before
            && r.notes@ == Seq::<Note>::empty() && r.failure == Some(EngineError::Runtime(error)),
        before.runtime.manifest_refusal(&record, derived) is None ==> {
            &&& after.runtime.manifests.contains_key(record.manifest_id)
            &&& !before.runtime.manifests.contains_key(record.manifest_id)
                ==> after.runtime.manifests[record.manifest_id] == record
            &&& after.runtime.announcements == before.runtime.announcements
            &&& after.runtime.bodies == before.runtime.bodies
            &&& after.runtime.local == before.runtime.local
            &&& after.facts.last() matches Fact::Manifest(copy)
            &&& copy.is_root == record.is_root
            &&& copy.manifest_id == record.manifest_id
            &&& copy.representations@ == record.representations@
            &&& copy.transport == record.transport
            &&& copy.manifest.snapshot == record.manifest.snapshot
            &&& copy.manifest.entries@ == record.manifest.entries@
            &&& copy.manifest.children@ == record.manifest.children@
            &&& landed_past(before, after, after.facts.last(), 0, 1, 0)
            &&& r.notes@ == seq![Note::Fulfilled(key)]
            &&& r.failure is None
        },
{
    if before.runtime.manifest_refusal(&record, derived) is None {
        lemma_pushed(before.facts, after.facts);
        if before.runtime.manifests.contains_key(record.manifest_id) {
            assert(after.runtime.manifests.dom().contains(record.manifest_id));
        }
        assert(after.facts.last() matches Fact::Manifest(copy) && copy.manifest@
            == record.manifest@);
    }
}

/// A fulfilled object is local from then on, counted once and committed; a
/// disk that can take nothing more ends the run and changes nothing; and
/// any other verdict is counted as what it is.
pub proof fn law_objects_are_settled_by_their_verdict(
    before: PlanView,
    content: ContentId,
    attempt: AttemptModel,
    after: PlanView,
    r: Settlement,
)
    requires
        before.report.countable(),
        settles_object(before, content, attempt, after, r),
    ensures
        attempt.aggregate is Fulfilled ==> {
            &&& landed_past(before, after, Fact::LocalObject(content), 0, 0, 1)
            &&& after.runtime.local == before.runtime.local.insert(content)
            &&& after.runtime.manifests == before.runtime.manifests
            &&& after.runtime.announcements == before.runtime.announcements
            &&& after.runtime.bodies == before.runtime.bodies
            &&& after.runtime.materialization == before.runtime.materialization
            &&& r.failure is None
        },
        attempt.aggregate matches FetchOutcome::Store(failure) ==> after == before && r.failure
            == Some(EngineError::Store(failure)),
        attempt.aggregate is Missing ==> went_past(before, after, 1, 0, 0, 0, 0)
            && r.failure is None,
        attempt.aggregate is Invalid ==> went_past(before, after, 0, 1, 0, 0, 0)
            && r.failure is None,
        attempt.aggregate is UnavailableKey ==> went_past(before, after, 0, 0, 1, 0, 0)
            && r.failure is None,
        attempt.aggregate is Transport ==> went_past(before, after, 0, 0, 0, 1, 0)
            && r.failure is None,
        attempt.aggregate is Local ==> went_past(before, after, 0, 0, 0, 0, 1)
            && r.failure is None,
{
    if attempt.aggregate is Fulfilled {
        lemma_pushed(before.facts, after.facts);
    }
}

/// Every representation whose bytes were refused is noted as invalid, every
/// one whose route failed as a transport failure, and the one that served
/// the object as fulfilled, in this order; nothing else is noted.
pub proof fn law_every_tried_representation_is_noted(
    before: PlanView,
    content: ContentId,
    attempt: AttemptModel,
    after: PlanView,
    r: Settlement,
    i: int,
)
    requires
        settles_object(before, content, attempt, after, r),
    ensures
        ({
            let refused = attempt.invalid.len() as int;
            let failed = attempt.transport_failed.len() as int;
            let landed = attempt.aggregate is Fulfilled && attempt.fulfilled is Some;
            &&& r.notes@.len() == refused + failed + one_if(landed)
            &&& 0 <= i < refused ==> r.notes@[i] == Note::Invalid(
                FetchKey::Storage(attempt.invalid[i]),
            )
            &&& 0 <= i < failed ==> r.notes@[refused + i] == Note::TransportFailure(
                FetchKey::Storage(attempt.transport_failed[i]),
            )
            &&& landed ==> r.notes@[refused + failed] == Note::Fulfilled(
                FetchKey::Storage(attempt.fulfilled->0),
            )
        }),
{
    assert(r.notes@ == object_notes(attempt));
}

/// Whether backoff leaves a key alone: it is cooling down, and no more runs
/// have gone by since than the cooldown lasts.
pub open spec fn left_alone(backoff: BackoffView, key: FetchKey) -> bool {
    &&& backoff.ledger.contains_key(key)
    &&& backoff.ledger[key] matches Standing::Cooling { since }
    &&& backoff.run - since <= backoff.cooldown
}

/// A key may be attempted exactly when it is not left alone, and of an
/// object's candidates exactly those are attempted whose storage ids may
/// be, in plan order.
pub proof fn law_candidates_rest_while_they_cool_down(
    backoff: BackoffView,
    candidates: Seq<PendingObjectFetch>,
    candidate: PendingObjectFetch,
    key: FetchKey,
)
    ensures
        backoff.eligible(key) <==> !left_alone(backoff, key),
        rested(backoff, candidates).contains(candidate) <==> candidates.contains(candidate)
            && !left_alone(backoff, FetchKey::Storage(candidate.storage_id)),
        rested(backoff, candidates) == candidates.filter(
            |c: PendingObjectFetch| !left_alone(backoff, FetchKey::Storage(c.storage_id)),
        ),
{
    let keep = |c: PendingObjectFetch| backoff.eligible(FetchKey::Storage(c.storage_id));
    let awake = |c: PendingObjectFetch| !left_alone(backoff, FetchKey::Storage(c.storage_id));
    crate::runtime::wanted_laws::lemma_filter_contains(candidates, keep, candidate);
    assert forall|c: PendingObjectFetch| #[trigger] keep(c) == awake(c) by {}
    assert(keep =~= awake);
}

/// The report of a run that ends tells what was planned and did not land,
/// and keeps every other count.
pub proof fn law_the_last_report_tells_what_is_left(v: PlanView)
    requires
        v.facts.len() <= v.items.len() <= usize::MAX,
    ensures
        v.final_report().unfulfilled == v.items.len() - v.facts.len(),
        v.final_report() == (ExecuteReport {
            unfulfilled: v.final_report().unfulfilled,
            ..v.report
        }),
{
}

/// A key that failed in an earlier run and not in this one carries one more
/// strike, up to the agreed number, which begins a cooldown in this run.
pub proof fn law_strikes_add_up(v: BackoffView, key: FetchKey, strikes: u64, last: u64)
    requires
        v.ledger.contains_key(key),
        v.ledger[key] == (Standing::Struck { strikes, last }),
        last != v.run,
        strikes < v.max_strikes,
    ensures
        v.noted(Note::Invalid(key)).ledger == v.ledger.insert(
            key,
            if strikes + 1 < v.max_strikes {
                Standing::Struck { strikes: (strikes + 1) as u64, last: v.run }
            } else {
                Standing::Cooling { since: v.run }
            },
        ),
{
}

/// The first failure of a key is its first strike, which begins a cooldown
/// where one strike is enough; so is the first failure after a cooldown.
pub proof fn law_first_failures_are_first_strikes(v: BackoffView, key: FetchKey)
    requires
        !v.ledger.contains_key(key) || (v.ledger[key] is Cooling && !left_alone(v, key)),
    ensures
        v.noted(Note::Invalid(key)).ledger == v.ledger.insert(
            key,
            if v.max_strikes > 1 {
                Standing::Struck { strikes: 1, last: v.run }
            } else {
                Standing::Cooling { since: v.run }
            },
        ),
{
}

/// A key that failed in this run already, or is left alone, is not struck
/// again.
pub proof fn law_nothing_is_struck_twice(v: BackoffView, key: FetchKey, strikes: u64)
    requires
        v.ledger.contains_key(key),
        v.ledger[key] == (Standing::Struck { strikes, last: v.run }) || left_alone(v, key),
    ensures
        v.noted(Note::Invalid(key)).ledger == v.ledger,
{
    assert(v.ledger.insert(key, v.ledger[key]) =~= v.ledger);
}

/// Refused bytes and failed routes are struck alike, valid bytes clear the
/// record, and no note changes the run, the measures or another key.
pub proof fn law_notes_are_kept_by_key(v: BackoffView, key: FetchKey, other: FetchKey)
    ensures
        v.noted(Note::TransportFailure(key)) == v.noted(Note::Invalid(key)),
        v.noted(Note::Fulfilled(key)).ledger == v.ledger.remove(key),
        ({
            let after = v.noted(Note::Invalid(key));
            &&& after.run == v.run
            &&& after.max_strikes == v.max_strikes
            &&& after.cooldown == v.cooldown
            &&& after.ledger.contains_key(key)
            &&& other != key ==> (after.ledger.contains_key(other) <==> v.ledger.contains_key(
                other,
            )) && after.ledger[other] == v.ledger[other]
        }),
        ({
            let after = v.noted(Note::Fulfilled(key));
            &&& after.run == v.run
            &&& after.max_strikes == v.max_strikes
            &&& after.cooldown == v.cooldown
        }),
{
}

/// An outcome adds one to its own count and to no other; what a relay holds
/// counts as deferred.
pub proof fn law_each_outcome_has_its_counter(report: DrainReport, outcome: Outcome)
    requires
        report.total() < usize::MAX,
    ensures
        ({
            let after = report.counting(outcome);
            &&& after.accepted == report.accepted + one_if(outcome is Accepted)
            &&& after.duplicates == report.duplicates + one_if(outcome is Duplicate)
            &&& after.deferred == report.deferred + one_if(
                outcome is Deferred || outcome is RelayHeld,
            )
            &&& after.skipped == report.skipped + one_if(outcome is Skipped)
            &&& after.discarded == report.discarded + one_if(outcome is Discarded)
        }),
{
}

/// A handover is consumed exactly when its message was accepted, was known
/// or can never be read; everything else is offered again.
pub proof fn law_only_settled_handovers_are_consumed(outcome: Outcome)
    ensures
        disposed(outcome) == Disposition::Ack <==> outcome is Accepted || outcome is Duplicate
            || outcome is Discarded,
        disposed(outcome) == Disposition::Retry <==> outcome is Deferred || outcome is RelayHeld
            || outcome is Skipped,
{
}

/// What cannot be opened is poison; what opens is a rotation exactly when
/// its first byte is the rotation version, and a control message otherwise,
/// and is handed on unchanged.
pub proof fn law_framings_are_told_by_the_first_byte(
    framing: Framing,
    opened: Result<Seq<u8>, MailboxError>,
    rotation_version: u8,
)
    requires
        frames(framing, opened, rotation_version),
    ensures
        framing is Poison <==> opened is Err,
        framing is Rotation <==> (opened is Ok && (opened->Ok_0).len() > 0 && (opened->Ok_0)[0]
            == rotation_version),
        framing matches Framing::Rotation(bytes) ==> bytes@ == opened->Ok_0,
        framing matches Framing::Control(bytes) ==> bytes@ == opened->Ok_0,
{
}

/// A body that its announcement describes, that is allowed, and that the
/// vault takes, lands.
pub proof fn law_good_bodies_land<
    A: FnOnce(&Snapshot) -> bool,
    I: FnOnce(&Vec<u8>) -> Result<(), VaultError>,
>(
    before: PlanView,
    snapshot: SnapshotId,
    body: Snapshot,
    authorize: A,
    import: I,
    after: PlanView,
    r: Settlement,
)
    requires
        settles_body(
            before,
            snapshot,
            FetchOutcome::Fulfilled(body),
            authorize,
            import,
            after,
            r,
        ),
        body.id == snapshot,
        before.runtime.announcements.contains_key(snapshot),
        matches_body(before.runtime.announcements[snapshot], body),
        forall|allowed: bool| #[trigger]
            call_ensures(authorize, (&body,), allowed) ==> allowed,
        forall|imported: Result<(), VaultError>| #[trigger]
            call_ensures(import, (&body.encoded,), imported) ==> imported is Ok,
    ensures
        after.facts.len() == before.facts.len() + 1,
        after.runtime.bodies.contains_key(snapshot),
        after.runtime.bodies[snapshot] == body,
        r.failure is None,
        r.notes@ == seq![Note::Fulfilled(FetchKey::Body(snapshot))],
{
    assert(before.runtime.body_refusal(&body) is None);
}

} // verus!
