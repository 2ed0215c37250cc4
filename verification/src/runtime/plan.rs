//! One pass over a fetch plan: which item comes next, what each fetch
//! result adds to the state, the report and the facts to commit, and when a
//! run is over.
//!
//! The caller fetches. A pass names the next item, takes the result, and
//! answers with notes on the representations that were tried, by which the
//! caller keeps its backoff. Time and backoff are the caller's too: whether
//! the budget is spent is handed in, and an item that is cooling down is
//! skipped.

use vstd::prelude::*;

use crate::ids::{ContentId, SnapshotId, StorageId};
use crate::model::{ChildManifest, Manifest, ManifestRecord, Snapshot, SnapshotAnnouncement};
use crate::runtime::backoff::{Backoff, BackoffView};
use crate::runtime::fetch::{
    fatal, fatal_vault, AttemptModel, FetchOutcome, ObjectAttempt, VaultError,
};
use crate::runtime::intake::{EngineError, Fact};
use crate::runtime::state::{PendingObjectFetch, RuntimeReconcile, RuntimeState, RuntimeView};

verus! {

/// The counts of a run.
#[derive(Debug, Clone, Copy, PartialEq, Eq, Structural)]
pub struct ExecuteReport {
    pub snapshot_bodies: usize,
    pub manifests: usize,
    pub objects: usize,
    pub missing: usize,
    pub invalid: usize,
    pub unavailable_keys: usize,
    pub transport_errors: usize,
    pub local_failures: usize,
    /// What the last pass planned and did not land.
    pub unfulfilled: usize,
}

/// What one settled item is counted as.
#[derive(Debug, Clone, Copy, PartialEq, Eq, Structural)]
pub enum Count {
    SnapshotBody,
    Manifest,
    Object,
    Missing,
    Invalid,
    UnavailableKey,
    TransportError,
    LocalFailure,
}

impl ExecuteReport {
    /// How many items were settled.
    pub open spec fn settled(self) -> int {
        self.snapshot_bodies + self.manifests + self.objects + self.missing + self.invalid
            + self.unavailable_keys + self.transport_errors + self.local_failures
    }

    /// The counts after one more item.
    pub open spec fn counting(self, count: Count) -> ExecuteReport {
        match count {
            Count::SnapshotBody => ExecuteReport {
                snapshot_bodies: (self.snapshot_bodies + 1) as usize,
                ..self
            },
            Count::Manifest => ExecuteReport { manifests: (self.manifests + 1) as usize, ..self },
            Count::Object => ExecuteReport { objects: (self.objects + 1) as usize, ..self },
            Count::Missing => ExecuteReport { missing: (self.missing + 1) as usize, ..self },
            Count::Invalid => ExecuteReport { invalid: (self.invalid + 1) as usize, ..self },
            Count::UnavailableKey => ExecuteReport {
                unavailable_keys: (self.unavailable_keys + 1) as usize,
                ..self
            },
            Count::TransportError => ExecuteReport {
                transport_errors: (self.transport_errors + 1) as usize,
                ..self
            },
            Count::LocalFailure => ExecuteReport {
                local_failures: (self.local_failures + 1) as usize,
                ..self
            },
        }
    }

    pub fn new() -> (r: Self)
        ensures
            r.settled() == 0,
            r.unfulfilled == 0,
    {
        ExecuteReport {
            snapshot_bodies: 0,
            manifests: 0,
            objects: 0,
            missing: 0,
            invalid: 0,
            unavailable_keys: 0,
            transport_errors: 0,
            local_failures: 0,
            unfulfilled: 0,
        }
    }

    /// Whether one more item can be counted, whatever it is counted as.
    pub open spec fn countable(self) -> bool {
        &&& self.snapshot_bodies < usize::MAX
        &&& self.manifests < usize::MAX
        &&& self.objects < usize::MAX
        &&& self.missing < usize::MAX
        &&& self.invalid < usize::MAX
        &&& self.unavailable_keys < usize::MAX
        &&& self.transport_errors < usize::MAX
        &&& self.local_failures < usize::MAX
    }

    /// Whether the counters have room for one more item.
    pub fn has_room(&self) -> (b: bool)
        ensures
            b == self.countable(),
    {
        self.snapshot_bodies < usize::MAX && self.manifests < usize::MAX && self.objects
            < usize::MAX && self.missing < usize::MAX && self.invalid < usize::MAX
            && self.unavailable_keys < usize::MAX && self.transport_errors < usize::MAX
            && self.local_failures < usize::MAX
    }

    fn count(&mut self, count: Count)
        requires
            old(self).countable(),
        ensures
            *final(self) == old(self).counting(count),
    {
        match count {
            Count::SnapshotBody => {
                self.snapshot_bodies = self.snapshot_bodies + 1;
            },
            Count::Manifest => {
                self.manifests = self.manifests + 1;
            },
            Count::Object => {
                self.objects = self.objects + 1;
            },
            Count::Missing => {
                self.missing = self.missing + 1;
            },
            Count::Invalid => {
                self.invalid = self.invalid + 1;
            },
            Count::UnavailableKey => {
                self.unavailable_keys = self.unavailable_keys + 1;
            },
            Count::TransportError => {
                self.transport_errors = self.transport_errors + 1;
            },
            Count::LocalFailure => {
                self.local_failures = self.local_failures + 1;
            },
        }
    }
}

/// What backoff is kept by. Bodies and roots have no storage address before
/// they are fetched.
#[derive(Debug, Clone, Copy, PartialEq, Eq)]
pub enum FetchKey {
    Body(SnapshotId),
    Root(SnapshotId),
    Storage(StorageId),
}

/// What a settled item says of a key.
#[derive(Debug, Clone, Copy, PartialEq, Eq)]
pub enum Note {
    /// Bytes came and were refused.
    Invalid(FetchKey),
    /// The route failed.
    TransportFailure(FetchKey),
    /// Valid bytes came.
    Fulfilled(FetchKey),
}

/// One item of a plan.
#[derive(Debug, Clone, Copy, PartialEq, Eq)]
pub enum PlanItem {
    Body(SnapshotId),
    Root(SnapshotId),
    Child(ContentId, ChildManifest),
    Object(ContentId),
}

impl PlanItem {
    pub open spec fn keyed(self) -> Option<FetchKey> {
        match self {
            PlanItem::Body(snapshot) => Some(FetchKey::Body(snapshot)),
            PlanItem::Root(snapshot) => Some(FetchKey::Root(snapshot)),
            PlanItem::Child(_, link) => Some(FetchKey::Storage(link.storage)),
            PlanItem::Object(_) => None,
        }
    }

    /// The key of an item. An object has one for each representation.
    pub fn key(&self) -> (r: Option<FetchKey>)
        ensures
            r == self.keyed(),
    {
        match self {
            PlanItem::Body(snapshot) => Some(FetchKey::Body(*snapshot)),
            PlanItem::Root(snapshot) => Some(FetchKey::Root(*snapshot)),
            PlanItem::Child(_, link) => Some(FetchKey::Storage(link.storage)),
            PlanItem::Object(_) => None,
        }
    }
}

/// What settling an item answers: notes on the keys that were tried, and
/// the failure that ends the run, if there is one.
#[derive(Debug, PartialEq, Eq)]
pub struct Settlement {
    pub notes: Vec<Note>,
    pub failure: Option<EngineError>,
}

/// Items in the order in which a pass takes them: bodies, roots, children,
/// objects.
pub open spec fn item_at(plan: RuntimeReconcile, i: int) -> PlanItem {
    let bodies = plan.pending_snapshot_bodies.keys();
    let roots = plan.pending_snapshots.keys();
    let children = plan.pending_manifests.keys();
    let objects = plan.pending_objects.keys();
    if i < bodies.len() {
        PlanItem::Body(bodies[i])
    } else if i < bodies.len() + roots.len() {
        PlanItem::Root(roots[i - bodies.len()])
    } else if i < bodies.len() + roots.len() + children.len() {
        let child = children[i - bodies.len() - roots.len()];
        PlanItem::Child(child, plan.pending_manifests@[child])
    } else {
        PlanItem::Object(objects[i - bodies.len() - roots.len() - children.len()])
    }
}

/// How many items a plan has.
pub open spec fn plan_len(plan: RuntimeReconcile) -> nat {
    plan.pending_snapshot_bodies.keys().len() + plan.pending_snapshots.keys().len()
        + plan.pending_manifests.keys().len() + plan.pending_objects.keys().len()
}

/// All items of a plan.
pub open spec fn items_of(plan: RuntimeReconcile) -> Seq<PlanItem> {
    Seq::new(plan_len(plan), |i: int| item_at(plan, i))
}

/// One pass over a plan.
pub struct PlanPass {
    runtime: RuntimeState,
    plan: RuntimeReconcile,
    report: ExecuteReport,
    cursor: usize,
    len: usize,
    remaining: usize,
    facts: Vec<Fact>,
}

/// The mathematical value of a [`PlanPass`].
#[verifier::ext_equal]
pub struct PlanView {
    pub runtime: RuntimeView,
    pub report: ExecuteReport,
    pub items: Seq<PlanItem>,
    /// The representations planned for each object.
    pub objects: Map<ContentId, Vec<PendingObjectFetch>>,
    pub cursor: nat,
    pub facts: Seq<Fact>,
}

impl PlanView {
    /// How many planned items have not landed.
    pub open spec fn remaining(self) -> int {
        self.items.len() - self.facts.len()
    }

    /// The item whose turn it is.
    pub open spec fn current(self) -> PlanItem {
        self.items[self.cursor as int]
    }

    /// Whether the current item is a snapshot body, and its announcement
    /// describes this one.
    pub open spec fn describes(self, body: &Snapshot) -> bool {
        &&& self.current() matches PlanItem::Body(snapshot)
        &&& self.runtime.announcements.contains_key(snapshot)
        &&& self.runtime.announcements[snapshot].describes(body)
    }

    /// The pass after the current item was settled without landing.
    pub open spec fn passed_over(self, count: Count) -> PlanView {
        PlanView { report: self.report.counting(count), cursor: self.cursor + 1, ..self }
    }

    /// The report of a run that ends here.
    pub open spec fn final_report(self) -> ExecuteReport {
        ExecuteReport { unfulfilled: self.remaining() as usize, ..self.report }
    }
}

/// Whether an item landed: it is counted, one fact is added, and everything
/// else of the pass is as it was, the state aside.
pub open spec fn lands(before: PlanView, after: PlanView, count: Count) -> bool {
    &&& after.items == before.items
    &&& after.objects == before.objects
    &&& after.cursor == before.cursor + 1
    &&& after.report == before.report.counting(count)
    &&& after.facts.len() == before.facts.len() + 1
    &&& after.facts.drop_last() == before.facts
}

/// What a result that did not land is counted as.
pub open spec fn miscount<T>(outcome: FetchOutcome<T>) -> Count {
    match outcome {
        FetchOutcome::Missing => Count::Missing,
        FetchOutcome::UnavailableKey => Count::UnavailableKey,
        FetchOutcome::Transport => Count::TransportError,
        FetchOutcome::Local => Count::LocalFailure,
        _ => Count::Invalid,
    }
}

/// What a result that did not land says of the item's key. Absent, key-less
/// and locally refused items say nothing against their representation.
pub open spec fn blame<T>(key: FetchKey, outcome: FetchOutcome<T>) -> Seq<Note> {
    match outcome {
        FetchOutcome::Invalid => seq![Note::Invalid(key)],
        FetchOutcome::Transport => seq![Note::TransportFailure(key)],
        _ => Seq::empty(),
    }
}

/// The mathematical value of a [`Settlement`].
pub open spec fn settles_as(s: Settlement, notes: Seq<Note>, failure: Option<EngineError>) -> bool {
    s.notes@ == notes && s.failure == failure
}

/// How a result that is not `Fulfilled` settles an item: a disk that can
/// take nothing more ends the run and changes nothing, any other result is
/// counted and noted.
pub open spec fn settles_unlanded<T>(
    before: PlanView,
    key: FetchKey,
    outcome: FetchOutcome<T>,
    after: PlanView,
    r: Settlement,
) -> bool {
    match outcome {
        FetchOutcome::Store(failure) => after == before && settles_as(
            r,
            Seq::empty(),
            Some(EngineError::Store(failure)),
        ),
        _ => after == before.passed_over(miscount(outcome)) && settles_as(
            r,
            blame(key, outcome),
            None,
        ),
    }
}

/// How the arrival of an agreeing and authorized body settles its item,
/// given what the vault made of its bytes. The body is resident before its
/// fact is added.
pub open spec fn settles_import(
    before: PlanView,
    key: FetchKey,
    body: Snapshot,
    imported: Result<(), VaultError>,
    after: PlanView,
    r: Settlement,
) -> bool {
    match imported {
        Err(VaultError::Io(failure)) if fatal(failure) is Some => after == before && settles_as(
            r,
            Seq::empty(),
            Some(EngineError::Store(failure)),
        ),
        Err(_) => after == before.passed_over(Count::LocalFailure) && settles_as(
            r,
            Seq::empty(),
            None,
        ),
        Ok(_) => match before.runtime.body_refusal(&body) {
            Some(error) => after == before && settles_as(
                r,
                Seq::empty(),
                Some(EngineError::Runtime(error)),
            ),
            None => {
                &&& lands(before, after, Count::SnapshotBody)
                &&& after.runtime == before.runtime.with_body(body)
                &&& after.facts.last() matches Fact::SnapshotBody(copy)
                &&& copy.alike(&body)
                &&& settles_as(r, seq![Note::Fulfilled(key)], None)
            },
        },
    }
}

/// How a fetched body settles its item. It has to be the one that its
/// announcement describes, and authorized; only then is it imported.
pub open spec fn settles_body<
    A: FnOnce(&Snapshot) -> bool,
    I: FnOnce(&Vec<u8>) -> Result<(), VaultError>,
>(
    before: PlanView,
    snapshot: SnapshotId,
    outcome: FetchOutcome<Snapshot>,
    authorize: A,
    import: I,
    after: PlanView,
    r: Settlement,
) -> bool {
    let key = FetchKey::Body(snapshot);
    match outcome {
        FetchOutcome::Fulfilled(body) => if !before.runtime.announcements.contains_key(snapshot) {
            after == before && settles_as(
                r,
                Seq::empty(),
                Some(EngineError::AnnouncementUnavailable(snapshot)),
            )
        } else if !before.runtime.announcements[snapshot].describes(&body) {
            after == before.passed_over(Count::Invalid) && settles_as(
                r,
                seq![Note::Invalid(key)],
                None,
            )
        } else {
            ||| call_ensures(authorize, (&body,), false) && after == before.passed_over(
                Count::Invalid,
            ) && settles_as(r, seq![Note::Invalid(key)], None)
            ||| call_ensures(authorize, (&body,), true) && exists|imported: Result<(), VaultError>|
                #[trigger] call_ensures(import, (&body.encoded,), imported) && settles_import(
                    before,
                    key,
                    body,
                    imported,
                    after,
                    r,
                )
        },
        _ => settles_unlanded(before, key, outcome, after, r),
    }
}

/// How a fetched manifest settles its item. `derived` is the identity that
/// the manifest hashes to.
pub open spec fn settles_manifest(
    before: PlanView,
    key: FetchKey,
    outcome: FetchOutcome<ManifestRecord>,
    derived: ContentId,
    after: PlanView,
    r: Settlement,
) -> bool {
    match outcome {
        FetchOutcome::Fulfilled(record) => match before.runtime.manifest_refusal(
            &record,
            derived,
        ) {
            Some(error) => after == before && settles_as(
                r,
                Seq::empty(),
                Some(EngineError::Runtime(error)),
            ),
            None => {
                &&& lands(before, after, Count::Manifest)
                &&& if before.runtime.manifests.contains_key(record.manifest_id) {
                    before.runtime.with_merged(&record, after.runtime)
                } else {
                    after.runtime == before.runtime.with_manifest(record)
                }
                &&& after.facts.last() matches Fact::Manifest(copy)
                &&& copy.alike(&record)
                &&& settles_as(r, seq![Note::Fulfilled(key)], None)
            },
        },
        _ => settles_unlanded(before, key, outcome, after, r),
    }
}

/// What an attempt at an object says of the representations it tried,
/// whatever came of it: refused bytes first, then failed routes, then the
/// one that served valid bytes.
pub open spec fn object_notes(attempt: AttemptModel) -> Seq<Note> {
    let refused = attempt.invalid.map_values(
        |storage: StorageId| Note::Invalid(FetchKey::Storage(storage)),
    );
    let failed = attempt.transport_failed.map_values(
        |storage: StorageId| Note::TransportFailure(FetchKey::Storage(storage)),
    );
    let landed = match (attempt.aggregate, attempt.fulfilled) {
        (FetchOutcome::Fulfilled(_), Some(storage)) => seq![
            Note::Fulfilled(FetchKey::Storage(storage)),
        ],
        _ => Seq::empty(),
    };
    refused + failed + landed
}

/// How an attempt at an object settles its item.
pub open spec fn settles_object(
    before: PlanView,
    content: ContentId,
    attempt: AttemptModel,
    after: PlanView,
    r: Settlement,
) -> bool {
    match attempt.aggregate {
        FetchOutcome::Fulfilled(_) => {
            &&& lands(before, after, Count::Object)
            &&& after.runtime == (RuntimeView {
                local: before.runtime.local.insert(content),
                ..before.runtime
            })
            &&& after.facts.last() == Fact::LocalObject(content)
            &&& settles_as(r, object_notes(attempt), None)
        },
        FetchOutcome::Store(failure) => after == before && settles_as(
            r,
            object_notes(attempt),
            Some(EngineError::Store(failure)),
        ),
        _ => after == before.passed_over(miscount(attempt.aggregate)) && settles_as(
            r,
            object_notes(attempt),
            None,
        ),
    }
}

/// The announcement that a planned body derives from. A miss is a
/// disagreement between plan and state.
fn planned_announcement<'a>(runtime: &'a RuntimeState, snapshot: &SnapshotId) -> (r: Result<
    &'a SnapshotAnnouncement,
    EngineError,
>)
    requires
        runtime.inv(),
    ensures
        match r {
            Ok(announcement) => runtime@.announcements.contains_key(*snapshot) && *announcement
                == runtime@.announcements[*snapshot],
            Err(error) => !runtime@.announcements.contains_key(*snapshot) && error
                == EngineError::AnnouncementUnavailable(*snapshot),
        },
{
    match runtime.announcement(snapshot) {
        Some(announcement) => Ok(announcement),
        None => Err(EngineError::AnnouncementUnavailable(*snapshot)),
    }
}

/// The candidates whose representations are not cooling down, in plan
/// order.
pub open spec fn rested(
    backoff: BackoffView,
    candidates: Seq<PendingObjectFetch>,
) -> Seq<PendingObjectFetch> {
    candidates.filter(
        |candidate: PendingObjectFetch| backoff.eligible(FetchKey::Storage(candidate.storage_id)),
    )
}

/// The candidates whose representations are not cooling down, in plan
/// order.
fn eligible_candidates(candidates: &Vec<PendingObjectFetch>, backoff: &Backoff) -> (r: Vec<
    PendingObjectFetch,
>)
    requires
        backoff.inv(),
    ensures
        r@ == rested(backoff@, candidates@),
{
    let mut chosen: Vec<PendingObjectFetch> = Vec::new();
    let mut i: usize = 0;
    proof {
        reveal(Seq::filter);
        assert(chosen@ =~= rested(backoff@, candidates@.take(0)));
    }
    while i < candidates.len()
        invariant
            backoff.inv(),
            i <= candidates@.len(),
            chosen@ == rested(backoff@, candidates@.take(i as int)),
        decreases candidates@.len() - i,
    {
        let candidate: PendingObjectFetch = candidates[i];
        proof {
            reveal(Seq::filter);
            assert(candidates@.take(i + 1).drop_last() =~= candidates@.take(i as int));
            assert(candidates@.take(i + 1).last() == candidate);
        }
        if backoff.eligible(&FetchKey::Storage(candidate.storage_id)) {
            chosen.push(candidate);
        }
        i = i + 1;
    }
    proof {
        assert(candidates@.take(i as int) =~= candidates@);
    }
    chosen
}

/// What of an item is attempted.
#[derive(Debug, PartialEq, Eq)]
pub enum Chance {
    /// Nothing: it is cooling down, and stays pending.
    Rest,
    /// A body or a manifest.
    Item,
    /// An object, by these representations.
    Candidates(Vec<PendingObjectFetch>),
}

/// What a pass goes on with.
#[derive(Debug, PartialEq, Eq)]
pub enum Turn {
    /// The budget is spent: the run ends with this report, and what the
    /// pass landed is not committed.
    Stop(ExecuteReport),
    /// The next item.
    Item(PlanItem),
    /// The plan is exhausted.
    Exhausted,
}

/// How an exhausted pass ends.
pub enum PassEnd {
    /// Nothing landed: the run has converged and ends with this report.
    Converged(ExecuteReport),
    /// Facts to commit; then the run may go on.
    Commit { facts: Vec<Fact>, report: ExecuteReport, remaining: usize },
}

/// What a run does once a pass's facts are committed.
#[derive(Debug, Clone, Copy, PartialEq, Eq, Structural)]
pub enum RunStep {
    /// Another pass, which goes on counting here.
    Again(ExecuteReport),
    /// The run ends with this report.
    Stop(ExecuteReport),
}

/// Whether another pass may start after a commit. A spent budget leaves the
/// rest planned for the next run.
pub fn after_commit(report: ExecuteReport, remaining: usize, spent: bool) -> (r: RunStep)
    ensures
        r == if spent {
            RunStep::Stop(ExecuteReport { unfulfilled: remaining, ..report })
        } else {
            RunStep::Again(report)
        },
{
    if spent {
        RunStep::Stop(ExecuteReport { unfulfilled: remaining, ..report })
    } else {
        RunStep::Again(report)
    }
}

/// How many items a plan has, when the number can be counted.
pub fn item_count(plan: &RuntimeReconcile) -> (r: Option<usize>)
    ensures
        match r {
            Some(n) => n == plan_len(*plan),
            None => plan_len(*plan) > usize::MAX,
        },
{
    let bodies: usize = plan.pending_snapshot_bodies.len();
    let roots: usize = plan.pending_snapshots.len();
    let children: usize = plan.pending_manifests.len();
    let objects: usize = plan.pending_objects.len();
    match bodies.checked_add(roots) {
        Some(first) => match first.checked_add(children) {
            Some(second) => second.checked_add(objects),
            None => None,
        },
        None => None,
    }
}

impl View for PlanPass {
    type V = PlanView;

    closed spec fn view(&self) -> PlanView {
        PlanView {
            runtime: self.runtime@,
            report: self.report,
            items: items_of(self.plan),
            objects: self.plan.pending_objects@,
            cursor: self.cursor as nat,
            facts: self.facts@,
        }
    }
}

impl PlanPass {
    pub closed spec fn wf(&self) -> bool {
        &&& self.runtime.inv()
        &&& self.plan.wf()
        &&& self.len == plan_len(self.plan)
        &&& self.remaining == self.len - self.facts@.len()
    }

    /// No more items landed than had their turn.
    pub open spec fn inv(&self) -> bool {
        &&& self.wf()
        &&& self@.cursor <= self@.items.len()
        &&& self@.facts.len() <= self@.cursor
        &&& self@.items.len() <= usize::MAX
    }

    /// Starts a pass over the state's plan.
    pub fn begin(runtime: RuntimeState, plan: RuntimeReconcile, report: ExecuteReport) -> (r: Self)
        requires
            runtime.inv(),
            plan.wf(),
            runtime@.plans(&plan),
            plan_len(plan) <= usize::MAX,
        ensures
            r.inv(),
            r@ == (PlanView {
                runtime: runtime@,
                report,
                items: items_of(plan),
                objects: plan.pending_objects@,
                cursor: 0,
                facts: Seq::empty(),
            }),
    {
        let len: usize = match item_count(&plan) {
            Some(len) => len,
            None => 0,
        };
        let r = PlanPass {
            runtime,
            plan,
            report,
            cursor: 0,
            len,
            remaining: len,
            facts: Vec::new(),
        };
        proof {
            assert(r@.facts =~= Seq::empty());
        }
        r
    }

    /// The state, with what landed so far.
    pub fn runtime(&self) -> (r: &RuntimeState)
        requires
            self.inv(),
        ensures
            r.inv(),
            r@ == self@.runtime,
    {
        &self.runtime
    }

    /// The report so far.
    pub fn report(&self) -> (r: ExecuteReport)
        ensures
            r == self@.report,
    {
        self.report
    }

    /// Who is next. Every item asks whether the budget is spent.
    pub fn turn(&self, spent: bool) -> (r: Turn)
        requires
            self.inv(),
        ensures
            r == if self@.cursor == self@.items.len() {
                Turn::Exhausted
            } else if spent {
                Turn::Stop(self@.final_report())
            } else {
                Turn::Item(self@.current())
            },
    {
        if self.cursor == self.len {
            return Turn::Exhausted;
        }
        if spent {
            return Turn::Stop(ExecuteReport { unfulfilled: self.remaining, ..self.report });
        }
        let bodies: usize = self.plan.pending_snapshot_bodies.len();
        if self.cursor < bodies {
            return Turn::Item(
                PlanItem::Body(*self.plan.pending_snapshot_bodies.key(self.cursor)),
            );
        }
        let i: usize = self.cursor - bodies;
        let roots: usize = self.plan.pending_snapshots.len();
        if i < roots {
            return Turn::Item(PlanItem::Root(*self.plan.pending_snapshots.key(i)));
        }
        let i: usize = i - roots;
        let children: usize = self.plan.pending_manifests.len();
        if i < children {
            return Turn::Item(
                PlanItem::Child(
                    *self.plan.pending_manifests.key(i),
                    *self.plan.pending_manifests.value(i),
                ),
            );
        }
        Turn::Item(PlanItem::Object(*self.plan.pending_objects.key(i - children)))
    }

    /// Every representation of an object whose turn it is, in plan order.
    fn candidates(&self) -> (r: &Vec<PendingObjectFetch>)
        requires
            self.inv(),
            self@.cursor < self@.items.len(),
            self@.current() is Object,
        ensures
            self@.current() matches PlanItem::Object(content) && self@.objects.contains_key(
                content,
            ) && *r == self@.objects[content],
    {
        let bodies: usize = self.plan.pending_snapshot_bodies.len();
        let roots: usize = self.plan.pending_snapshots.len();
        let children: usize = self.plan.pending_manifests.len();
        self.plan.pending_objects.value(self.cursor - bodies - roots - children)
    }

    /// What of the item whose turn it is backoff lets be attempted. An
    /// object with every representation cooling down is not attempted at
    /// all.
    pub fn chance(&self, backoff: &Backoff) -> (r: Chance)
        requires
            self.inv(),
            self@.cursor < self@.items.len(),
            backoff.inv(),
        ensures
            match self@.current() {
                PlanItem::Object(content) => {
                    let left = rested(backoff@, self@.objects[content]@);
                    if left.len() == 0 {
                        r is Rest
                    } else {
                        r matches Chance::Candidates(candidates) && candidates@ == left
                    }
                },
                item => item.keyed() matches Some(key) && r == if backoff@.eligible(key) {
                    Chance::Item
                } else {
                    Chance::Rest
                },
            },
    {
        let key: Option<FetchKey> = match self.turn(false) {
            Turn::Item(item) => item.key(),
            _ => None,
        };
        match key {
            Some(key) => if backoff.eligible(&key) {
                Chance::Item
            } else {
                Chance::Rest
            },
            None => {
                let candidates = eligible_candidates(self.candidates(), backoff);
                if candidates.len() == 0 {
                    Chance::Rest
                } else {
                    Chance::Candidates(candidates)
                }
            },
        }
    }

    /// Passes an item over without an attempt: it is cooling down and stays
    /// pending.
    pub fn skip(&mut self)
        requires
            old(self).inv(),
            old(self)@.cursor < old(self)@.items.len(),
        ensures
            final(self).inv(),
            final(self)@ == (PlanView { cursor: old(self)@.cursor + 1, ..old(self)@ }),
    {
        self.cursor = self.cursor + 1;
    }

    /// Counts the current item as not landed and passes on.
    fn pass_over(&mut self, count: Count)
        requires
            old(self).inv(),
            old(self)@.cursor < old(self)@.items.len(),
            old(self)@.report.countable(),
        ensures
            final(self).inv(),
            final(self)@ == old(self)@.passed_over(count),
    {
        self.report.count(count);
        self.cursor = self.cursor + 1;
    }

    /// Counts the current item as landed, adds its fact and passes on.
    fn land(&mut self, count: Count, fact: Fact)
        requires
            old(self).inv(),
            old(self)@.cursor < old(self)@.items.len(),
            old(self)@.report.countable(),
        ensures
            final(self).inv(),
            lands(old(self)@, final(self)@, count),
            final(self)@.runtime == old(self)@.runtime,
            final(self)@.facts.last() == fact,
    {
        self.report.count(count);
        self.facts.push(fact);
        self.remaining = self.remaining - 1;
        self.cursor = self.cursor + 1;
        proof {
            assert(self@.facts.drop_last() =~= old(self)@.facts);
        }
    }

    /// Settles an item whose result is not `Fulfilled`.
    fn settle_unlanded<T>(&mut self, key: FetchKey, outcome: FetchOutcome<T>) -> (r: Settlement)
        requires
            old(self).inv(),
            old(self)@.cursor < old(self)@.items.len(),
            old(self)@.report.countable(),
            !(outcome is Fulfilled),
        ensures
            final(self).inv(),
            settles_unlanded(old(self)@, key, outcome, final(self)@, r),
    {
        let mut notes: Vec<Note> = Vec::new();
        match outcome {
            FetchOutcome::Store(failure) => {
                return Settlement { notes, failure: Some(EngineError::Store(failure)) };
            },
            FetchOutcome::Missing => {
                self.pass_over(Count::Missing);
            },
            FetchOutcome::UnavailableKey => {
                self.pass_over(Count::UnavailableKey);
            },
            FetchOutcome::Transport => {
                self.pass_over(Count::TransportError);
                notes.push(Note::TransportFailure(key));
            },
            FetchOutcome::Local => {
                self.pass_over(Count::LocalFailure);
            },
            FetchOutcome::Invalid | FetchOutcome::Fulfilled(_) => {
                self.pass_over(Count::Invalid);
                notes.push(Note::Invalid(key));
            },
        }
        proof {
            assert(notes@ =~= blame(key, outcome));
        }
        Settlement { notes, failure: None }
    }

    /// Settles a snapshot body. `authorize` checks the author's signature,
    /// and `import` makes the body's bytes resident. Only a body that its
    /// announcement describes is shown to the one, and only an authorized
    /// one to the other.
    pub fn settle_body<
        A: FnOnce(&Snapshot) -> bool,
        I: FnOnce(&Vec<u8>) -> Result<(), VaultError>,
    >(&mut self, outcome: FetchOutcome<Snapshot>, authorize: A, import: I) -> (r: Settlement)
        requires
            old(self).inv(),
            old(self)@.cursor < old(self)@.items.len(),
            old(self)@.current() is Body,
            old(self)@.report.countable(),
            outcome matches FetchOutcome::Fulfilled(body) ==> old(self)@.describes(&body) ==> {
                &&& call_requires(authorize, (&body,))
                &&& call_ensures(authorize, (&body,), true) ==> call_requires(
                    import,
                    (&body.encoded,),
                )
            },
        ensures
            final(self).inv(),
            old(self)@.current() matches PlanItem::Body(snapshot) && settles_body(
                old(self)@,
                snapshot,
                outcome,
                authorize,
                import,
                final(self)@,
                r,
            ),
    {
        let snapshot: SnapshotId = *self.plan.pending_snapshot_bodies.key(self.cursor);
        let key = FetchKey::Body(snapshot);
        let body: Snapshot = match outcome {
            FetchOutcome::Fulfilled(body) => body,
            other => return self.settle_unlanded(key, other),
        };
        let mut notes: Vec<Note> = Vec::new();
        let agrees: bool = match planned_announcement(&self.runtime, &snapshot) {
            Ok(announced) => announced.agrees(&body),
            Err(error) => {
                return Settlement { notes, failure: Some(error) };
            },
        };
        if !agrees || !authorize(&body) {
            self.pass_over(Count::Invalid);
            notes.push(Note::Invalid(key));
            proof {
                assert(notes@ =~= seq![Note::Invalid(key)]);
            }
            return Settlement { notes, failure: None };
        }
        let imported: Result<(), VaultError> = import(&body.encoded);
        if let Err(refusal) = imported {
            if let Some(failure) = fatal_vault(&refusal) {
                return Settlement { notes, failure: Some(EngineError::Store(failure)) };
            }
            self.pass_over(Count::LocalFailure);
            return Settlement { notes, failure: None };
        }
        let copy = body.duplicate();
        if let Err(error) = self.runtime.record_snapshot_body(body) {
            return Settlement { notes, failure: Some(EngineError::Runtime(error)) };
        }
        self.land(Count::SnapshotBody, Fact::SnapshotBody(copy));
        notes.push(Note::Fulfilled(key));
        proof {
            assert(notes@ =~= seq![Note::Fulfilled(key)]);
        }
        Settlement { notes, failure: None }
    }

    /// Settles a root or child manifest. `identity` says what a manifest
    /// hashes to.
    pub fn settle_manifest<I: FnOnce(&Manifest) -> ContentId>(
        &mut self,
        outcome: FetchOutcome<ManifestRecord>,
        identity: I,
    ) -> (r: Settlement)
        requires
            old(self).inv(),
            old(self)@.cursor < old(self)@.items.len(),
            old(self)@.current() is Root || old(self)@.current() is Child,
            old(self)@.report.countable(),
            outcome matches FetchOutcome::Fulfilled(record) ==> record.wf() && call_requires(
                identity,
                (&record.manifest,),
            ),
        ensures
            final(self).inv(),
            old(self)@.current().keyed() matches Some(key) && match outcome {
                FetchOutcome::Fulfilled(record) => exists|derived: ContentId| #[trigger]
                    call_ensures(identity, (&record.manifest,), derived) && settles_manifest(
                        old(self)@,
                        key,
                        outcome,
                        derived,
                        final(self)@,
                        r,
                    ),
                _ => settles_unlanded(old(self)@, key, outcome, final(self)@, r),
            },
    {
        let mut notes: Vec<Note> = Vec::new();
        let key: FetchKey = match self.turn(false) {
            Turn::Item(item) => match item.key() {
                Some(key) => key,
                None => return Settlement { notes, failure: None },
            },
            _ => return Settlement { notes, failure: None },
        };
        let record: ManifestRecord = match outcome {
            FetchOutcome::Fulfilled(record) => record,
            other => return self.settle_unlanded(key, other),
        };
        let copy = record.duplicate();
        if let Err(error) = self.runtime.record_manifest(record, identity) {
            return Settlement { notes, failure: Some(EngineError::Runtime(error)) };
        }
        self.land(Count::Manifest, Fact::Manifest(copy));
        notes.push(Note::Fulfilled(key));
        proof {
            assert(notes@ =~= seq![Note::Fulfilled(key)]);
        }
        Settlement { notes, failure: None }
    }

    /// Settles an object. Every representation that was tried is noted,
    /// whatever came of the object.
    pub fn settle_object(&mut self, attempt: ObjectAttempt) -> (r: Settlement)
        requires
            old(self).inv(),
            old(self)@.cursor < old(self)@.items.len(),
            old(self)@.current() is Object,
            old(self)@.report.countable(),
        ensures
            final(self).inv(),
            old(self)@.current() matches PlanItem::Object(content) && settles_object(
                old(self)@,
                content,
                attempt@,
                final(self)@,
                r,
            ),
    {
        let content: ContentId = match self.turn(false) {
            Turn::Item(PlanItem::Object(content)) => content,
            _ => return Settlement { notes: Vec::new(), failure: None },
        };
        let notes = attempt_notes(&attempt);
        match attempt.aggregate {
            FetchOutcome::Fulfilled(_) => {
                self.runtime.mark_local_object(content);
                self.land(Count::Object, Fact::LocalObject(content));
                Settlement { notes, failure: None }
            },
            FetchOutcome::Store(failure) => Settlement {
                notes,
                failure: Some(EngineError::Store(failure)),
            },
            FetchOutcome::Missing => {
                self.pass_over(Count::Missing);
                Settlement { notes, failure: None }
            },
            FetchOutcome::Invalid => {
                self.pass_over(Count::Invalid);
                Settlement { notes, failure: None }
            },
            FetchOutcome::UnavailableKey => {
                self.pass_over(Count::UnavailableKey);
                Settlement { notes, failure: None }
            },
            FetchOutcome::Transport => {
                self.pass_over(Count::TransportError);
                Settlement { notes, failure: None }
            },
            FetchOutcome::Local => {
                self.pass_over(Count::LocalFailure);
                Settlement { notes, failure: None }
            },
        }
    }

    /// Ends an exhausted pass.
    pub fn finish(self) -> (r: PassEnd)
        requires
            self.inv(),
            self@.cursor == self@.items.len(),
        ensures
            match r {
                PassEnd::Converged(report) => self@.facts.len() == 0 && report
                    == self@.final_report(),
                PassEnd::Commit { facts, report, remaining } => self@.facts.len() > 0 && facts@
                    == self@.facts && report == self@.report && remaining == self@.remaining(),
            },
    {
        if self.facts.len() == 0 {
            PassEnd::Converged(ExecuteReport { unfulfilled: self.remaining, ..self.report })
        } else {
            PassEnd::Commit { facts: self.facts, report: self.report, remaining: self.remaining }
        }
    }
}

/// The notes on the representations that an attempt tried.
fn attempt_notes(attempt: &ObjectAttempt) -> (r: Vec<Note>)
    ensures
        r@ == object_notes(attempt@),
{
    let mut notes: Vec<Note> = Vec::new();
    let ghost refused = attempt@.invalid.map_values(
        |storage: StorageId| Note::Invalid(FetchKey::Storage(storage)),
    );
    let ghost failed = attempt@.transport_failed.map_values(
        |storage: StorageId| Note::TransportFailure(FetchKey::Storage(storage)),
    );
    let mut i: usize = 0;
    while i < attempt.invalid.len()
        invariant
            i <= attempt.invalid@.len(),
            refused == attempt.invalid@.map_values(
                |storage: StorageId| Note::Invalid(FetchKey::Storage(storage)),
            ),
            notes@ == refused.take(i as int),
        decreases attempt.invalid@.len() - i,
    {
        notes.push(Note::Invalid(FetchKey::Storage(attempt.invalid[i])));
        i = i + 1;
        proof {
            assert(notes@ =~= refused.take(i as int));
        }
    }
    let mut j: usize = 0;
    proof {
        assert(refused.take(i as int) =~= refused);
        assert(notes@ =~= refused + failed.take(0));
    }
    while j < attempt.transport_failed.len()
        invariant
            j <= attempt.transport_failed@.len(),
            failed == attempt.transport_failed@.map_values(
                |storage: StorageId| Note::TransportFailure(FetchKey::Storage(storage)),
            ),
            notes@ == refused + failed.take(j as int),
        decreases attempt.transport_failed@.len() - j,
    {
        notes.push(Note::TransportFailure(FetchKey::Storage(attempt.transport_failed[j])));
        j = j + 1;
        proof {
            assert(notes@ =~= refused + failed.take(j as int));
        }
    }
    proof {
        assert(failed.take(j as int) =~= failed);
    }
    if let FetchOutcome::Fulfilled(_) = &attempt.aggregate {
        if let Some(storage) = attempt.fulfilled {
            notes.push(Note::Fulfilled(FetchKey::Storage(storage)));
        }
    }
    proof {
        assert(notes@ =~= object_notes(attempt@));
    }
    notes
}

} // verus!
