//! Control-plane intake: what becomes of each control message.
//!
//! A message is committed as facts, suppressed as invalid, or held until
//! the membership history that it depends on arrives. Which of these
//! depends on evidence that lies outside this module: signatures, the
//! standing of transitions in the membership log, opened capabilities. The
//! caller gathers that evidence and hands it in; everything that is decided
//! on it is decided here.

use vstd::prelude::*;

use crate::ids::{ContentId, ControlMessageId, DeviceId, SnapshotId, TransitionId};
use crate::model::{
    AnnouncementModel, AnnouncementUpdate, ManifestRecord, MembershipTransition, Snapshot,
    SnapshotAnnouncement, StoreFailure, TransitionStatus,
};
use crate::order::Key;
use crate::runtime::state::RuntimeError;
use crate::sorted::SortedMap;

verus! {

/// A membership transition as it travels.
#[derive(Debug, PartialEq, Eq)]
pub struct TransitionPayload {
    pub transition: Vec<u8>,
}

/// A wrapped capability as it travels, with redundant delivery metadata.
#[derive(Debug, PartialEq, Eq)]
pub struct CapabilityPayload {
    pub device: DeviceId,
    pub epoch: u64,
    pub wrapped: Vec<u8>,
}

/// A control message.
#[derive(Debug, PartialEq, Eq)]
pub enum Message {
    MembershipTransition(TransitionPayload),
    SnapshotAnnouncement(SnapshotAnnouncement),
    KeyRotation(TransitionId),
    Capability(CapabilityPayload),
}

/// An opened capability, as far as intake reads it.
#[derive(Debug, Clone, Copy, PartialEq, Eq)]
pub struct Capability {
    pub device: DeviceId,
    pub transition: TransitionId,
    pub covered_epoch: u64,
}

/// A capability that its own authorizing history admits. `control_keys`
/// holds the control key of every epoch from the first on.
#[derive(Debug, PartialEq, Eq)]
pub struct AuthorizedCapability {
    pub device: DeviceId,
    pub transition: TransitionId,
    pub control_keys: Vec<[u8; 32]>,
}

/// What the membership history says of a capability.
#[derive(Debug, PartialEq, Eq)]
pub enum Authorization {
    Authorized(AuthorizedCapability),
    /// The history does not reach the transition yet; `observed` says
    /// whether the transition itself was seen.
    UnknownTransition { transition: TransitionId, observed: bool },
    /// The history rules the capability out for good.
    Refused,
}

/// What is known about one message beyond its own bytes.
pub struct Evidence {
    /// A carried transition, when its bytes are within the limits and parse.
    pub transition: Option<MembershipTransition>,
    /// The epoch of the observed transition that an announcement is bound
    /// to, when that transition was observed.
    pub bound_epoch: Option<u64>,
    /// Whether an announcement's signature verifies.
    pub signed: bool,
    /// The standing of the transition that an announcement is bound to.
    pub status: Option<TransitionStatus>,
    /// A carried capability, when it opens.
    pub capability: Option<Capability>,
    /// What the history says of that capability.
    pub authorization: Authorization,
}

/// A durable fact.
#[derive(Debug, PartialEq, Eq)]
pub enum Fact {
    Transition(MembershipTransition),
    Announcement(SnapshotAnnouncement),
    Capability(AuthorizedCapability),
    ControlMessage(ControlMessageId),
    SnapshotBody(Snapshot),
    Manifest(ManifestRecord),
    LocalObject(ContentId),
}

/// What a held message waits for.
#[derive(Debug, Clone, Copy, PartialEq, Eq)]
pub enum DeferredWait {
    /// The arrival of exactly this transition.
    Unseen(TransitionId),
    /// A change in the standing of this observed transition, which any
    /// transition may bring.
    StatusBlocked(TransitionId),
}

impl DeferredWait {
    pub open spec fn wakes(self, committed: TransitionId) -> bool {
        match self {
            DeferredWait::Unseen(awaited) => awaited == committed,
            DeferredWait::StatusBlocked(_) => true,
        }
    }

    /// Whether a committed transition unblocks the wait.
    pub fn wake_on(&self, committed: &TransitionId) -> (b: bool)
        ensures
            b == self.wakes(*committed),
    {
        match self {
            DeferredWait::Unseen(awaited) => awaited.same(committed),
            DeferredWait::StatusBlocked(_) => true,
        }
    }
}

/// A held message.
#[derive(Debug, PartialEq, Eq)]
pub struct PendingEntry {
    pub id: ControlMessageId,
    pub message: Message,
    pub wait: DeferredWait,
}

/// What fails a whole pass.
#[derive(Debug, Clone, Copy, PartialEq, Eq)]
pub enum EngineError {
    /// An observed transition has no standing: the two views of the log
    /// disagree.
    TransitionUnclassified(TransitionId),
    /// A planned snapshot has no announcement.
    AnnouncementUnavailable(SnapshotId),
    /// The local disk can take nothing more.
    Store(StoreFailure),
    /// The state refused a fact.
    Runtime(RuntimeError),
}

/// What is decided about one message.
pub enum Decision {
    Commit(Seq<Fact>),
    Suppress,
    Defer(DeferredWait),
    Fail(EngineError),
}

/// The announcement that a snapshot's next one has to be compatible with:
/// the one already committed, or else one that this batch is about to
/// commit.
pub open spec fn known_announcement(
    known: Map<SnapshotId, AnnouncementModel>,
    staged: Map<SnapshotId, AnnouncementModel>,
    snapshot: SnapshotId,
) -> Option<AnnouncementModel> {
    if known.contains_key(snapshot) {
        Some(known[snapshot])
    } else if staged.contains_key(snapshot) {
        Some(staged[snapshot])
    } else {
        None
    }
}

/// Whether an announcement contradicts the one known for its snapshot.
pub open spec fn forks(
    known: Map<SnapshotId, AnnouncementModel>,
    staged: Map<SnapshotId, AnnouncementModel>,
    announcement: SnapshotAnnouncement,
) -> bool {
    match known_announcement(known, staged, announcement.snapshot) {
        Some(existing) => existing.update(announcement@) == AnnouncementUpdate::Fork,
        None => false,
    }
}

/// What is decided about an announcement. The lookup of the transition it
/// is bound to comes first, so an announcement ahead of its transition is
/// held whatever its signature; nothing is committed unsigned.
pub open spec fn decide_announcement(
    known: Map<SnapshotId, AnnouncementModel>,
    staged: Map<SnapshotId, AnnouncementModel>,
    id: ControlMessageId,
    announcement: SnapshotAnnouncement,
    evidence: Evidence,
) -> Decision {
    match evidence.bound_epoch {
        None => Decision::Defer(DeferredWait::Unseen(announcement.membership)),
        Some(epoch) => if epoch != announcement.epoch || !evidence.signed {
            Decision::Suppress
        } else {
            match evidence.status {
                None => Decision::Fail(
                    EngineError::TransitionUnclassified(announcement.membership),
                ),
                Some(TransitionStatus::Invalid) => Decision::Suppress,
                Some(TransitionStatus::Canonical) => if forks(known, staged, announcement) {
                    Decision::Suppress
                } else {
                    Decision::Commit(
                        seq![Fact::Announcement(announcement), Fact::ControlMessage(id)],
                    )
                },
                Some(_) => Decision::Defer(DeferredWait::StatusBlocked(announcement.membership)),
            }
        },
    }
}

/// What is decided about a capability. Its delivery metadata must agree
/// with the capability itself; then its history decides.
pub open spec fn decide_capability(
    id: ControlMessageId,
    payload: CapabilityPayload,
    evidence: Evidence,
) -> Decision {
    match evidence.capability {
        None => Decision::Suppress,
        Some(capability) => if payload.device != capability.device || payload.epoch
            != capability.covered_epoch {
            Decision::Suppress
        } else {
            match evidence.authorization {
                Authorization::Authorized(authorized) => Decision::Commit(
                    seq![Fact::Capability(authorized), Fact::ControlMessage(id)],
                ),
                Authorization::UnknownTransition { transition, observed } => Decision::Defer(
                    if observed {
                        DeferredWait::StatusBlocked(transition)
                    } else {
                        DeferredWait::Unseen(transition)
                    },
                ),
                Authorization::Refused => Decision::Suppress,
            }
        },
    }
}

/// What is decided about a message.
pub open spec fn decide(
    known: Map<SnapshotId, AnnouncementModel>,
    staged: Map<SnapshotId, AnnouncementModel>,
    id: ControlMessageId,
    message: Message,
    evidence: Evidence,
) -> Decision {
    match message {
        Message::MembershipTransition(_) => match evidence.transition {
            Some(transition) => Decision::Commit(
                seq![Fact::Transition(transition), Fact::ControlMessage(id)],
            ),
            None => Decision::Suppress,
        },
        Message::SnapshotAnnouncement(announcement) => decide_announcement(
            known,
            staged,
            id,
            announcement,
            evidence,
        ),
        Message::KeyRotation(_) => Decision::Suppress,
        Message::Capability(payload) => decide_capability(id, payload, evidence),
    }
}

/// The announcements of a batch after one more message was decided.
pub open spec fn stage(
    staged: Map<SnapshotId, AnnouncementModel>,
    message: Message,
    decision: Decision,
) -> Map<SnapshotId, AnnouncementModel> {
    match message {
        Message::SnapshotAnnouncement(announcement) => if decision is Commit {
            staged.insert(announcement.snapshot, announcement@)
        } else {
            staged
        },
        _ => staged,
    }
}

/// Announcements by snapshot, taken by their views.
pub open spec fn announced(map: Map<SnapshotId, SnapshotAnnouncement>) -> Map<
    SnapshotId,
    AnnouncementModel,
> {
    map.map_values(|a: SnapshotAnnouncement| a@)
}

/// What a message comes to: facts, nothing, or the message back.
enum Action {
    Commit(Vec<Fact>),
    Suppress,
    Defer(DeferredWait, Message),
    Fail(EngineError, Message),
}

/// What becomes of one delivery.
#[derive(Debug, Clone, Copy, PartialEq, Eq, Structural)]
pub enum Outcome {
    /// Committed, or suppressed for good.
    Accepted,
    /// Nothing new.
    Duplicate,
    /// Held until its dependency arrives.
    Deferred,
    /// Not held, because too much is held already.
    RelayHeld,
    /// Not processable yet.
    Skipped,
    /// Never processable.
    Discarded,
}

/// Facts to commit together, and the announcements among them.
pub struct Batch {
    pub facts: Vec<Fact>,
    pub staged: SortedMap<SnapshotId, SnapshotAnnouncement>,
}

/// How a delivery goes on.
pub enum Step {
    /// It is settled.
    Settle(Outcome),
    /// Its facts have to be committed before it is accepted.
    Commit(Batch),
}

/// The result of one delivery, with what the inbox has to note: ids whose
/// messages are suppressed, and ids that must count as unseen again.
pub struct Pass {
    pub step: Step,
    pub suppressed: Vec<ControlMessageId>,
    pub forgotten: Vec<ControlMessageId>,
}

/// The mathematical value of a [`Step`].
pub enum StepModel {
    Settle(Outcome),
    Commit { facts: Seq<Fact>, staged: Map<SnapshotId, AnnouncementModel> },
}

/// The mathematical value of a [`Pass`].
#[verifier::ext_equal]
pub struct PassModel {
    pub step: StepModel,
    pub suppressed: Seq<ControlMessageId>,
    pub forgotten: Seq<ControlMessageId>,
}

impl View for Pass {
    type V = PassModel;

    open spec fn view(&self) -> PassModel {
        PassModel {
            step: match self.step {
                Step::Settle(outcome) => StepModel::Settle(outcome),
                Step::Commit(batch) => StepModel::Commit {
                    facts: batch.facts@,
                    staged: announced(batch.staged@),
                },
            },
            suppressed: self.suppressed@,
            forgotten: self.forgotten@,
        }
    }
}

impl Pass {
    /// The announcements of a batch are in key order.
    pub open spec fn wf(&self) -> bool {
        self.step matches Step::Commit(batch) ==> batch.staged.wf()
    }
}

/// A settled pass.
pub open spec fn settled(
    outcome: Outcome,
    suppressed: Seq<ControlMessageId>,
    forgotten: Seq<ControlMessageId>,
) -> PassModel {
    PassModel { step: StepModel::Settle(outcome), suppressed, forgotten }
}

/// The ids of held messages are distinct.
pub open spec fn distinct(pending: Seq<PendingEntry>) -> bool {
    forall|i: int, j: int|
        0 <= i < j < pending.len() ==> (#[trigger] pending[i]).id != (#[trigger] pending[j]).id
}

/// Whether a message is held.
pub open spec fn holds(pending: Seq<PendingEntry>, id: ControlMessageId) -> bool {
    exists|i: int| 0 <= i < pending.len() && (#[trigger] pending[i]).id == id
}

/// Where a held message is.
pub open spec fn slot(pending: Seq<PendingEntry>, id: ControlMessageId) -> int {
    choose|i: int| 0 <= i < pending.len() && (#[trigger] pending[i]).id == id
}

/// The held messages after one more is held: behind the others, or in the
/// place it already has.
pub open spec fn hold(pending: Seq<PendingEntry>, entry: PendingEntry) -> Seq<PendingEntry> {
    if holds(pending, entry.id) {
        pending.update(slot(pending, entry.id), entry)
    } else {
        pending.push(entry)
    }
}

/// The volatile side of intake.
pub struct Intake {
    device: DeviceId,
    pending: Vec<PendingEntry>,
    announcements: SortedMap<SnapshotId, SnapshotAnnouncement>,
    epoch_keys: SortedMap<u64, [u8; 32]>,
    max_pending: usize,
}

/// The mathematical value of an [`Intake`].
#[verifier::ext_equal]
pub struct IntakeView {
    pub device: DeviceId,
    pub pending: Seq<PendingEntry>,
    pub announcements: Map<SnapshotId, AnnouncementModel>,
    pub epoch_keys: Map<u64, [u8; 32]>,
    pub max_pending: usize,
}

impl View for Intake {
    type V = IntakeView;

    closed spec fn view(&self) -> IntakeView {
        IntakeView {
            device: self.device,
            pending: self.pending@,
            announcements: announced(self.announcements@),
            epoch_keys: self.epoch_keys@,
            max_pending: self.max_pending,
        }
    }
}

impl Intake {
    pub closed spec fn wf(&self) -> bool {
        self.announcements.wf() && self.epoch_keys.wf()
    }

    /// No message is held twice, and no more are held than allowed.
    pub open spec fn inv(&self) -> bool {
        &&& self.wf()
        &&& distinct(self@.pending)
        &&& self@.pending.len() <= self@.max_pending
    }

    pub fn new(device: DeviceId, max_pending: usize) -> (r: Self)
        ensures
            r.inv(),
            r@ == (IntakeView {
                device,
                pending: Seq::empty(),
                announcements: Map::empty(),
                epoch_keys: Map::empty(),
                max_pending,
            }),
    {
        let r = Intake {
            device,
            pending: Vec::new(),
            announcements: SortedMap::new(),
            epoch_keys: SortedMap::new(),
            max_pending,
        };
        proof {
            assert(r@.announcements =~= Map::<SnapshotId, AnnouncementModel>::empty());
            assert(r@ =~= (IntakeView {
                device,
                pending: Seq::empty(),
                announcements: Map::empty(),
                epoch_keys: Map::empty(),
                max_pending,
            }));
        }
        r
    }

    /// How many messages are held.
    pub fn pending_count(&self) -> (n: usize)
        ensures
            n == self@.pending.len(),
    {
        self.pending.len()
    }

    /// A held message, by its place in arrival order.
    pub fn pending_entry(&self, i: usize) -> (r: &PendingEntry)
        requires
            i < self@.pending.len(),
        ensures
            *r == self@.pending[i as int],
    {
        &self.pending[i]
    }

    /// The control key held for an epoch.
    pub fn epoch_key(&self, epoch: u64) -> (r: Option<[u8; 32]>)
        requires
            self.inv(),
        ensures
            r == self@.epoch_keys.get(epoch),
    {
        match self.epoch_keys.get(&epoch) {
            Some(key) => Some(*key),
            None => None,
        }
    }

    /// Installs a control key, replacing one that is held.
    pub fn add_epoch_key(&mut self, epoch: u64, key: [u8; 32])
        requires
            old(self).inv(),
        ensures
            final(self).inv(),
            final(self)@ == (IntakeView {
                epoch_keys: old(self)@.epoch_keys.insert(epoch, key),
                ..old(self)@
            }),
    {
        self.epoch_keys.insert(epoch, key);
        proof {
            assert(self@ =~= (IntakeView {
                epoch_keys: old(self)@.epoch_keys.insert(epoch, key),
                ..old(self)@
            }));
        }
    }

    /// Where a message is held, if it is.
    fn find(&self, id: &ControlMessageId) -> (r: Option<usize>)
        requires
            self.inv(),
        ensures
            match r {
                Some(i) => i < self@.pending.len() && self@.pending[i as int].id == *id && holds(
                    self@.pending,
                    *id,
                ) && i == slot(self@.pending, *id),
                None => !holds(self@.pending, *id),
            },
    {
        let mut i: usize = 0;
        while i < self.pending.len()
            invariant
                self.inv(),
                i <= self.pending@.len(),
                forall|j: int| 0 <= j < i ==> (#[trigger] self.pending@[j]).id != *id,
            decreases self.pending@.len() - i,
        {
            if self.pending[i].id.same(id) {
                proof {
                    assert(self.pending@[i as int].id == *id);
                    assert(holds(self@.pending, *id));
                    let k = slot(self@.pending, *id);
                    assert(self@.pending[k].id == *id);
                    assert(k == i);
                }
                return Some(i);
            }
            i = i + 1;
        }
        None
    }

    /// Holds a message, in arrival order.
    fn hold_pending(&mut self, id: ControlMessageId, message: Message, wait: DeferredWait)
        requires
            old(self).inv(),
            old(self)@.pending.len() < old(self)@.max_pending,
        ensures
            final(self).inv(),
            final(self)@ == (IntakeView {
                pending: hold(old(self)@.pending, PendingEntry { id, message, wait }),
                ..old(self)@
            }),
    {
        let entry = PendingEntry { id, message, wait };
        let ghost after = IntakeView {
            pending: hold(old(self)@.pending, entry),
            ..old(self)@
        };
        match self.find(&id) {
            Some(i) => {
                self.pending[i] = entry;
            },
            None => {
                self.pending.push(entry);
            },
        }
        proof {
            assert(self@ =~= after);
        }
    }

    /// Takes a held message out.
    pub fn take_pending(&mut self, id: &ControlMessageId) -> (r: Option<PendingEntry>)
        requires
            old(self).inv(),
        ensures
            final(self).inv(),
            match r {
                Some(entry) => holds(old(self)@.pending, *id) && entry == old(self)@.pending[slot(
                    old(self)@.pending,
                    *id,
                )] && final(self)@ == (IntakeView {
                    pending: old(self)@.pending.remove(slot(old(self)@.pending, *id)),
                    ..old(self)@
                }),
                None => !holds(old(self)@.pending, *id) && final(self)@ == old(self)@,
            },
    {
        match self.find(id) {
            Some(i) => {
                let entry = self.pending.remove(i);
                proof {
                    assert(self@ =~= (IntakeView {
                        pending: old(self)@.pending.remove(i as int),
                        ..old(self)@
                    }));
                }
                Some(entry)
            },
            None => None,
        }
    }
}

/// Whether a committed transition re-drives a held message; without one,
/// every message is re-driven.
pub open spec fn woken(entry: PendingEntry, committed: Option<TransitionId>) -> bool {
    match committed {
        Some(id) => entry.wait.wakes(id),
        None => true,
    }
}

/// The state of a walk over the held messages.
#[verifier::ext_equal]
pub struct Walk {
    pub kept: Seq<PendingEntry>,
    pub facts: Seq<Fact>,
    pub staged: Map<SnapshotId, AnnouncementModel>,
    pub suppressed: Seq<ControlMessageId>,
    pub failed: Option<EngineError>,
}

impl Walk {
    /// What one more held message does to the walk. A message that is not
    /// re-driven stays held, one that has to wait again is held under its
    /// new dependency, and a failure holds back the message that failed and
    /// all that follow.
    pub open spec fn step(
        self,
        known: Map<SnapshotId, AnnouncementModel>,
        entry: PendingEntry,
        evidence: Evidence,
        committed: Option<TransitionId>,
    ) -> Walk {
        if self.failed is Some || !woken(entry, committed) {
            Walk { kept: self.kept.push(entry), ..self }
        } else {
            let decision = decide(known, self.staged, entry.id, entry.message, evidence);
            match decision {
                Decision::Commit(facts) => Walk {
                    facts: self.facts + facts,
                    staged: stage(self.staged, entry.message, decision),
                    ..self
                },
                Decision::Suppress => Walk { suppressed: self.suppressed.push(entry.id), ..self },
                Decision::Defer(wait) => Walk {
                    kept: self.kept.push(PendingEntry { wait, ..entry }),
                    ..self
                },
                Decision::Fail(error) => Walk {
                    kept: self.kept.push(entry),
                    failed: Some(error),
                    ..self
                },
            }
        }
    }
}

/// A walk over held messages in arrival order, from the announcements that
/// the batch already holds.
pub open spec fn walk(
    known: Map<SnapshotId, AnnouncementModel>,
    pending: Seq<PendingEntry>,
    evidence: Seq<Evidence>,
    committed: Option<TransitionId>,
    start: Map<SnapshotId, AnnouncementModel>,
) -> Walk
    decreases pending.len(),
{
    if pending.len() == 0 {
        Walk {
            kept: Seq::empty(),
            facts: Seq::empty(),
            staged: start,
            suppressed: Seq::empty(),
            failed: None,
        }
    } else {
        walk(known, pending.drop_last(), evidence, committed, start).step(
            known,
            pending.last(),
            evidence[pending.len() - 1],
            committed,
        )
    }
}

/// Once a walk failed, the rest of the messages stay held as they were.
proof fn lemma_walk_failed(
    known: Map<SnapshotId, AnnouncementModel>,
    pending: Seq<PendingEntry>,
    evidence: Seq<Evidence>,
    committed: Option<TransitionId>,
    start: Map<SnapshotId, AnnouncementModel>,
    n: int,
)
    requires
        0 <= n <= pending.len(),
        walk(known, pending.take(n), evidence, committed, start).failed is Some,
    ensures
        walk(known, pending, evidence, committed, start).failed == walk(
            known,
            pending.take(n),
            evidence,
            committed,
            start,
        ).failed,
        walk(known, pending, evidence, committed, start).kept == walk(
            known,
            pending.take(n),
            evidence,
            committed,
            start,
        ).kept + pending.skip(n),
    decreases pending.len(),
{
    let upto = walk(known, pending.take(n), evidence, committed, start);
    if n == pending.len() {
        assert(pending.take(n) =~= pending);
        assert(upto.kept + pending.skip(n) =~= upto.kept);
    } else {
        assert(pending.drop_last().take(n) =~= pending.take(n));
        lemma_walk_failed(known, pending.drop_last(), evidence, committed, start, n);
        assert(upto.kept + pending.skip(n) =~= (upto.kept + pending.drop_last().skip(n)).push(
            pending.last(),
        ));
    }
}

/// What is kept of a walk keeps its ids and their order, hence is no more
/// and as distinct as what was held.
proof fn lemma_walk_kept(
    known: Map<SnapshotId, AnnouncementModel>,
    pending: Seq<PendingEntry>,
    evidence: Seq<Evidence>,
    committed: Option<TransitionId>,
    start: Map<SnapshotId, AnnouncementModel>,
)
    requires
        distinct(pending),
    ensures
        distinct(walk(known, pending, evidence, committed, start).kept),
        walk(known, pending, evidence, committed, start).kept.len() <= pending.len(),
        forall|i: int|
            0 <= i < walk(known, pending, evidence, committed, start).kept.len() ==> holds(
                pending,
                (#[trigger] walk(known, pending, evidence, committed, start).kept[i]).id,
            ),
    decreases pending.len(),
{
    if pending.len() > 0 {
        let rest = pending.drop_last();
        lemma_walk_kept(known, rest, evidence, committed, start);
        let before = walk(known, rest, evidence, committed, start).kept;
        assert forall|i: int| 0 <= i < before.len() implies holds(pending, (#[trigger] before[i]).id)
            && before[i].id != pending.last().id by {
            assert(holds(rest, before[i].id));
            let j = slot(rest, before[i].id);
            assert(pending[j] == rest[j]);
        }
        assert(holds(pending, pending.last().id)) by {
            assert(pending[pending.len() - 1].id == pending.last().id);
        }
    }
}

proof fn lemma_announced_insert(
    map: Map<SnapshotId, SnapshotAnnouncement>,
    snapshot: SnapshotId,
    announcement: SnapshotAnnouncement,
)
    ensures
        announced(map.insert(snapshot, announcement)) == announced(map).insert(
            snapshot,
            announcement@,
        ),
{
    assert(announced(map.insert(snapshot, announcement)) =~= announced(map).insert(
        snapshot,
        announcement@,
    ));
}

/// The transition that a message carries.
pub open spec fn carried(message: Message, evidence: Evidence) -> Option<TransitionId> {
    match (message, evidence.transition) {
        (Message::MembershipTransition(_), Some(transition)) => Some(transition.id),
        _ => None,
    }
}

/// The id of the transition that a message carries.
fn committed_transition(message: &Message, evidence: &Evidence) -> (r: Option<TransitionId>)
    ensures
        r == carried(*message, *evidence),
{
    match (message, &evidence.transition) {
        (Message::MembershipTransition(_), Some(transition)) => Some(transition.id),
        _ => None,
    }
}

/// What becomes of a message, and which messages are held afterwards.
/// `held` is the dependency of a message that was taken out of the held
/// ones; `pending_evidence` is the evidence on those that are still held.
pub open spec fn committed_pass(
    before: IntakeView,
    id: ControlMessageId,
    message: Message,
    is_new: bool,
    held: Option<DeferredWait>,
    evidence: Evidence,
    pending_evidence: Seq<Evidence>,
) -> (Result<PassModel, EngineError>, Seq<PendingEntry>) {
    let none = Map::<SnapshotId, AnnouncementModel>::empty();
    let decision = decide(before.announcements, none, id, message, evidence);
    match decision {
        Decision::Suppress => (
            Ok(settled(Outcome::Accepted, seq![id], Seq::empty())),
            before.pending,
        ),
        Decision::Defer(wait) => if before.pending.len() >= before.max_pending {
            (Ok(settled(Outcome::RelayHeld, Seq::empty(), seq![id])), before.pending)
        } else {
            (
                Ok(settled(Outcome::Deferred, Seq::empty(), Seq::empty())),
                hold(before.pending, PendingEntry { id, message, wait }),
            )
        },
        Decision::Fail(error) => (
            Err(error),
            match held {
                Some(wait) => hold(before.pending, PendingEntry { id, message, wait }),
                None => before.pending,
            },
        ),
        Decision::Commit(own) => {
            let facts = if is_new {
                own
            } else {
                Seq::empty()
            };
            let staged = if is_new {
                stage(none, message, decision)
            } else {
                none
            };
            match message {
                Message::MembershipTransition(_) => {
                    let walked = walk(
                        before.announcements,
                        before.pending,
                        pending_evidence,
                        carried(message, evidence),
                        staged,
                    );
                    match walked.failed {
                        Some(error) => (Err(error), walked.kept),
                        None => (
                            Ok(batch(facts + walked.facts, walked.staged, walked.suppressed)),
                            walked.kept,
                        ),
                    }
                },
                _ => (Ok(batch(facts, staged, Seq::empty())), before.pending),
            }
        },
    }
}

/// A pass with facts to commit, or a duplicate where there are none.
pub open spec fn batch(
    facts: Seq<Fact>,
    staged: Map<SnapshotId, AnnouncementModel>,
    suppressed: Seq<ControlMessageId>,
) -> PassModel {
    PassModel {
        step: if facts.len() == 0 {
            StepModel::Settle(Outcome::Duplicate)
        } else {
            StepModel::Commit { facts, staged }
        },
        suppressed,
        forgotten: Seq::empty(),
    }
}

/// The mathematical value of a pass or its failure.
pub open spec fn passed(r: Result<Pass, EngineError>) -> Result<PassModel, EngineError> {
    match r {
        Ok(pass) => Ok(pass@),
        Err(error) => Err(error),
    }
}

/// Whether an action carries out a decision on a message.
spec fn acts(action: Action, decision: Decision, message: Message) -> bool {
    match decision {
        Decision::Commit(facts) => action matches Action::Commit(v) && v@ == facts,
        Decision::Suppress => action is Suppress,
        Decision::Defer(wait) => action == Action::Defer(wait, message),
        Decision::Fail(error) => action == Action::Fail(error, message),
    }
}

/// A settled pass.
fn settle(
    outcome: Outcome,
    suppressed: Vec<ControlMessageId>,
    forgotten: Vec<ControlMessageId>,
) -> (r: Pass)
    ensures
        r.wf(),
        r@ == settled(outcome, suppressed@, forgotten@),
{
    Pass { step: Step::Settle(outcome), suppressed, forgotten }
}

/// A pass that ends in facts, if there are any.
fn conclude(
    facts: Vec<Fact>,
    staged: SortedMap<SnapshotId, SnapshotAnnouncement>,
    suppressed: Vec<ControlMessageId>,
) -> (r: Pass)
    requires
        staged.wf(),
    ensures
        r.wf(),
        r@ == batch(facts@, announced(staged@), suppressed@),
{
    let step = if facts.len() == 0 {
        Step::Settle(Outcome::Duplicate)
    } else {
        Step::Commit(Batch { facts, staged })
    };
    let r = Pass { step, suppressed, forgotten: Vec::new() };
    proof {
        assert(r@.forgotten =~= Seq::empty());
    }
    r
}

impl Intake {
    /// Decides about an announcement.
    fn announcement_action(
        &self,
        id: &ControlMessageId,
        announcement: SnapshotAnnouncement,
        evidence: &Evidence,
        staged: &mut SortedMap<SnapshotId, SnapshotAnnouncement>,
    ) -> (r: Action)
        requires
            self.inv(),
            old(staged).wf(),
        ensures
            final(staged).wf(),
            ({
                let message = Message::SnapshotAnnouncement(announcement);
                let decision = decide_announcement(
                    self@.announcements,
                    announced(old(staged)@),
                    *id,
                    announcement,
                    *evidence,
                );
                &&& acts(r, decision, message)
                &&& announced(final(staged)@) == stage(announced(old(staged)@), message, decision)
            }),
    {
        let epoch: u64 = match evidence.bound_epoch {
            None => {
                let wait = DeferredWait::Unseen(announcement.membership);
                return Action::Defer(wait, Message::SnapshotAnnouncement(announcement));
            },
            Some(epoch) => epoch,
        };
        if epoch != announcement.epoch || !evidence.signed {
            return Action::Suppress;
        }
        match evidence.status {
            None => {
                let error = EngineError::TransitionUnclassified(announcement.membership);
                Action::Fail(error, Message::SnapshotAnnouncement(announcement))
            },
            Some(TransitionStatus::Invalid) => Action::Suppress,
            Some(TransitionStatus::Canonical) => {
                let known: Option<&SnapshotAnnouncement> = match self.announcements.get(
                    &announcement.snapshot,
                ) {
                    Some(existing) => Some(existing),
                    None => staged.get(&announcement.snapshot),
                };
                let committable: bool = match known {
                    None => true,
                    Some(existing) => match existing.check_update(&announcement) {
                        AnnouncementUpdate::Fork => false,
                        _ => true,
                    },
                };
                if !committable {
                    return Action::Suppress;
                }
                let copy = announcement.duplicate();
                proof {
                    lemma_announced_insert(staged@, announcement.snapshot, copy);
                }
                staged.insert(announcement.snapshot, copy);
                let mut facts: Vec<Fact> = Vec::new();
                facts.push(Fact::Announcement(announcement));
                facts.push(Fact::ControlMessage(*id));
                proof {
                    assert(facts@ =~= seq![
                        Fact::Announcement(announcement),
                        Fact::ControlMessage(*id),
                    ]);
                }
                Action::Commit(facts)
            },
            Some(_) => {
                let wait = DeferredWait::StatusBlocked(announcement.membership);
                Action::Defer(wait, Message::SnapshotAnnouncement(announcement))
            },
        }
    }

    /// Decides about a capability.
    fn capability_action(
        &self,
        id: &ControlMessageId,
        payload: CapabilityPayload,
        evidence: Evidence,
    ) -> (r: Action)
        ensures
            acts(r, decide_capability(*id, payload, evidence), Message::Capability(payload)),
    {
        let capability: Capability = match evidence.capability {
            None => return Action::Suppress,
            Some(capability) => capability,
        };
        if !payload.device.same(&capability.device) || payload.epoch != capability.covered_epoch {
            return Action::Suppress;
        }
        match evidence.authorization {
            Authorization::Authorized(authorized) => {
                let mut facts: Vec<Fact> = Vec::new();
                facts.push(Fact::Capability(authorized));
                facts.push(Fact::ControlMessage(*id));
                proof {
                    assert(facts@ =~= seq![
                        Fact::Capability(authorized),
                        Fact::ControlMessage(*id),
                    ]);
                }
                Action::Commit(facts)
            },
            Authorization::UnknownTransition { transition, observed } => {
                let wait = if observed {
                    DeferredWait::StatusBlocked(transition)
                } else {
                    DeferredWait::Unseen(transition)
                };
                Action::Defer(wait, Message::Capability(payload))
            },
            Authorization::Refused => Action::Suppress,
        }
    }

    /// Decides about a message.
    fn message_action(
        &self,
        id: &ControlMessageId,
        message: Message,
        evidence: Evidence,
        staged: &mut SortedMap<SnapshotId, SnapshotAnnouncement>,
    ) -> (r: Action)
        requires
            self.inv(),
            old(staged).wf(),
        ensures
            final(staged).wf(),
            ({
                let decision = decide(
                    self@.announcements,
                    announced(old(staged)@),
                    *id,
                    message,
                    evidence,
                );
                &&& acts(r, decision, message)
                &&& announced(final(staged)@) == stage(announced(old(staged)@), message, decision)
            }),
    {
        match message {
            Message::MembershipTransition(_) => match evidence.transition {
                Some(transition) => {
                    let mut facts: Vec<Fact> = Vec::new();
                    facts.push(Fact::Transition(transition));
                    facts.push(Fact::ControlMessage(*id));
                    proof {
                        assert(facts@ =~= seq![
                            Fact::Transition(transition),
                            Fact::ControlMessage(*id),
                        ]);
                    }
                    Action::Commit(facts)
                },
                None => Action::Suppress,
            },
            Message::SnapshotAnnouncement(announcement) => self.announcement_action(
                id,
                announcement,
                &evidence,
                staged,
            ),
            Message::KeyRotation(_) => Action::Suppress,
            Message::Capability(payload) => self.capability_action(id, payload, evidence),
        }
    }

    /// Walks the held messages in arrival order and re-drives those that a
    /// committed transition unblocks. On a failure the message that failed
    /// and all that follow are held again as they were.
    fn flush_pending(
        &mut self,
        staged: &mut SortedMap<SnapshotId, SnapshotAnnouncement>,
        committed: Option<TransitionId>,
        evidence: Vec<Evidence>,
        suppressed: &mut Vec<ControlMessageId>,
    ) -> (r: Result<Vec<Fact>, EngineError>)
        requires
            old(self).inv(),
            old(staged).wf(),
            old(suppressed)@.len() == 0,
            evidence@.len() == old(self)@.pending.len(),
        ensures
            final(self).inv(),
            final(staged).wf(),
            ({
                let walked = walk(
                    old(self)@.announcements,
                    old(self)@.pending,
                    evidence@,
                    committed,
                    announced(old(staged)@),
                );
                &&& final(self)@ == (IntakeView { pending: walked.kept, ..old(self)@ })
                &&& match r {
                    Ok(facts) => walked.failed is None && facts@ == walked.facts && announced(
                        final(staged)@,
                    ) == walked.staged && final(suppressed)@ == walked.suppressed,
                    Err(error) => walked.failed == Some(error),
                }
            }),
    {
        let ghost known = self@.announcements;
        let ghost all = self@.pending;
        let ghost start = announced(staged@);
        let ghost before = self@;
        let mut taken: Vec<PendingEntry> = Vec::new();
        std::mem::swap(&mut taken, &mut self.pending);
        let ghost given = evidence@;
        let mut judging = evidence;
        let mut kept: Vec<PendingEntry> = Vec::new();
        let mut facts: Vec<Fact> = Vec::new();
        let ghost mut n: int = 0;
        proof {
            lemma_walk_kept(known, all, given, committed, start);
            assert(all.skip(0) =~= all);
            assert(given.skip(0) =~= given);
            assert(all.take(0) =~= Seq::empty());
            assert(self@.announcements == known);
            assert(suppressed@ =~= Seq::empty());
        }
        while taken.len() > 0
            invariant
                self.inv(),
                self@ == (IntakeView { pending: Seq::empty(), ..before }),
                before.announcements == known,
                before.pending == all,
                old(self)@ == before,
                start == announced(old(staged)@),
                staged.wf(),
                given.len() == all.len(),
                0 <= n <= all.len(),
                taken@ == all.skip(n),
                given == evidence@,
                judging@ == given.skip(n),
                distinct(walk(known, all, given, committed, start).kept),
                walk(known, all, given, committed, start).kept.len() <= all.len(),
                all.len() <= before.max_pending,
                ({
                    let walked = walk(known, all.take(n), given, committed, start);
                    &&& walked.kept == kept@
                    &&& walked.facts == facts@
                    &&& walked.staged == announced(staged@)
                    &&& walked.suppressed == suppressed@
                    &&& walked.failed is None
                }),
            decreases taken@.len(),
        {
            let ghost walked = walk(known, all.take(n), given, committed, start);
            let entry = taken.remove(0);
            let judged = judging.remove(0);
            proof {
                assert(entry == all[n]);
                assert(judged == given[n]);
                assert(taken@ =~= all.skip(n + 1));
                assert(judging@ =~= given.skip(n + 1));
                assert(all.take(n + 1).drop_last() =~= all.take(n));
                assert(all.take(n + 1).last() == entry);
                n = n + 1;
                assert(walk(known, all.take(n), given, committed, start) == walked.step(
                    known,
                    entry,
                    judged,
                    committed,
                ));
            }
            let parked: bool = match committed {
                Some(id) => !entry.wait.wake_on(&id),
                None => false,
            };
            if parked {
                kept.push(entry);
                continue ;
            }
            let id = entry.id;
            let wait = entry.wait;
            match self.message_action(&id, entry.message, judged, staged) {
                Action::Commit(mut more) => {
                    facts.append(&mut more);
                },
                Action::Suppress => {
                    suppressed.push(id);
                },
                Action::Defer(next, message) => {
                    kept.push(PendingEntry { id, message, wait: next });
                },
                Action::Fail(error, message) => {
                    kept.push(PendingEntry { id, message, wait });
                    proof {
                        lemma_walk_failed(known, all, given, committed, start, n);
                    }
                    kept.append(&mut taken);
                    self.pending = kept;
                    proof {
                        assert(self@ =~= (IntakeView {
                            pending: walk(known, all, given, committed, start).kept,
                            ..before
                        }));
                    }
                    return Err(error);
                },
            }
        }
        proof {
            assert(all.take(n) =~= all);
        }
        self.pending = kept;
        proof {
            assert(self@ =~= (IntakeView {
                pending: walk(known, all, given, committed, start).kept,
                ..before
            }));
        }
        Ok(facts)
    }

    /// Settles what becomes of a message: suppresses it, holds it, or hands
    /// out the facts to commit, with those of the held messages that it
    /// unblocks. A message that is not new adds no facts of its own.
    pub fn commit_action(
        &mut self,
        id: ControlMessageId,
        message: Message,
        is_new: bool,
        held: Option<DeferredWait>,
        evidence: Evidence,
        pending_evidence: Vec<Evidence>,
    ) -> (r: Result<Pass, EngineError>)
        requires
            old(self).inv(),
            pending_evidence@.len() == old(self)@.pending.len(),
            held is Some ==> old(self)@.pending.len() < old(self)@.max_pending,
        ensures
            final(self).inv(),
            r matches Ok(pass) ==> pass.wf(),
            (passed(r), final(self)@.pending) == committed_pass(
                old(self)@,
                id,
                message,
                is_new,
                held,
                evidence,
                pending_evidence@,
            ),
            final(self)@ == (IntakeView { pending: final(self)@.pending, ..old(self)@ }),
    {
        let committed = committed_transition(&message, &evidence);
        let is_transition: bool = match &message {
            Message::MembershipTransition(_) => true,
            _ => false,
        };
        let mut staged: SortedMap<SnapshotId, SnapshotAnnouncement> = SortedMap::new();
        proof {
            assert(announced(staged@) =~= Map::<SnapshotId, AnnouncementModel>::empty());
        }
        let mut facts: Vec<Fact> = match self.message_action(&id, message, evidence, &mut staged) {
            Action::Commit(facts) => facts,
            Action::Suppress => {
                let mut suppressed: Vec<ControlMessageId> = Vec::new();
                suppressed.push(id);
                proof {
                    assert(suppressed@ =~= seq![id]);
                }
                return Ok(settle(Outcome::Accepted, suppressed, Vec::new()));
            },
            Action::Defer(wait, message) => {
                if self.pending.len() >= self.max_pending {
                    let mut forgotten: Vec<ControlMessageId> = Vec::new();
                    forgotten.push(id);
                    proof {
                        assert(forgotten@ =~= seq![id]);
                    }
                    return Ok(settle(Outcome::RelayHeld, Vec::new(), forgotten));
                }
                self.hold_pending(id, message, wait);
                return Ok(settle(Outcome::Deferred, Vec::new(), Vec::new()));
            },
            Action::Fail(error, message) => {
                if let Some(wait) = held {
                    self.hold_pending(id, message, wait);
                }
                return Err(error);
            },
        };
        if !is_new {
            facts = Vec::new();
            staged = SortedMap::new();
        }
        let ghost own = facts@;
        let ghost start = announced(staged@);
        proof {
            let none = Map::<SnapshotId, AnnouncementModel>::empty();
            if !is_new {
                assert(start =~= none);
                assert(own =~= Seq::empty());
            }
        }
        let mut suppressed: Vec<ControlMessageId> = Vec::new();
        if is_transition {
            match self.flush_pending(&mut staged, committed, pending_evidence, &mut suppressed) {
                Ok(mut more) => {
                    facts.append(&mut more);
                },
                Err(error) => return Err(error),
            }
        }
        Ok(conclude(facts, staged, suppressed))
    }

    /// Installs the control keys of an authorized capability, each for the
    /// epoch of its position, where no key is held yet.
    fn fill_keys(&mut self, control_keys: &Vec<[u8; 32]>)
        requires
            old(self).inv(),
        ensures
            final(self).inv(),
            final(self)@ == (IntakeView {
                epoch_keys: filled(old(self)@.epoch_keys, control_keys@),
                ..old(self)@
            }),
    {
        let ghost before = self@;
        let mut index: usize = 0;
        proof {
            assert(filled(before.epoch_keys, control_keys@.take(0)) =~= before.epoch_keys);
        }
        while index < control_keys.len()
            invariant
                self.inv(),
                index <= control_keys@.len(),
                self@ == (IntakeView {
                    epoch_keys: filled(before.epoch_keys, control_keys@.take(index as int)),
                    ..before
                }),
            decreases control_keys@.len() - index,
        {
            let epoch: u64 = index as u64 + 1;
            if !self.epoch_keys.contains_key(&epoch) {
                self.add_epoch_key(epoch, control_keys[index]);
            }
            index = index + 1;
            proof {
                assert(self@.epoch_keys =~= filled(
                    before.epoch_keys,
                    control_keys@.take(index as int),
                ));
            }
        }
        proof {
            assert(control_keys@.take(index as int) =~= control_keys@);
        }
    }

    /// Mirrors a batch whose facts are durable: held keys stay, missing
    /// ones are installed, and the announcements join the projection.
    /// Returns the ids that have to be remembered as seen.
    pub fn note_committed(&mut self, batch: Batch) -> (r: Vec<ControlMessageId>)
        requires
            old(self).inv(),
            batch.staged.wf(),
        ensures
            final(self).inv(),
            final(self)@ == (IntakeView {
                epoch_keys: installed(old(self)@.epoch_keys, batch.facts@),
                announcements: old(self)@.announcements.union_prefer_right(
                    announced(batch.staged@),
                ),
                ..old(self)@
            }),
            r@ == seen(batch.facts@),
    {
        let ghost before = self@;
        let facts = &batch.facts;
        let mut ids: Vec<ControlMessageId> = Vec::new();
        let mut i: usize = 0;
        proof {
            assert(facts@.take(0) =~= Seq::empty());
        }
        while i < facts.len()
            invariant
                self.inv(),
                i <= facts@.len(),
                self@ == (IntakeView {
                    epoch_keys: installed(before.epoch_keys, facts@.take(i as int)),
                    ..before
                }),
                ids@ == seen(facts@.take(i as int)),
            decreases facts@.len() - i,
        {
            proof {
                assert(facts@.take(i + 1).drop_last() =~= facts@.take(i as int));
                assert(facts@.take(i + 1).last() == facts@[i as int]);
            }
            match &facts[i] {
                Fact::ControlMessage(id) => {
                    ids.push(*id);
                },
                Fact::Capability(authorized) => {
                    self.fill_keys(&authorized.control_keys);
                },
                _ => {},
            }
            i = i + 1;
        }
        proof {
            assert(facts@.take(i as int) =~= facts@);
        }
        let ghost known = self.announcements@;
        let ghost staged = batch.staged@;
        self.announcements.merge(batch.staged);
        proof {
            assert(announced(known.union_prefer_right(staged)) =~= announced(
                known,
            ).union_prefer_right(announced(staged)));
            assert(self@ =~= (IntakeView {
                epoch_keys: installed(before.epoch_keys, batch.facts@),
                announcements: before.announcements.union_prefer_right(announced(staged)),
                ..before
            }));
        }
        ids
    }
}

/// Keys by epoch, after those of one capability fill the epochs that had
/// none: the first key is that of the first epoch.
pub open spec fn filled(keys: Map<u64, [u8; 32]>, control_keys: Seq<[u8; 32]>) -> Map<
    u64,
    [u8; 32],
> {
    Map::new(
        |epoch: u64| keys.contains_key(epoch) || 1 <= epoch <= control_keys.len(),
        |epoch: u64|
            if keys.contains_key(epoch) {
                keys[epoch]
            } else {
                control_keys[epoch - 1]
            },
    )
}

/// Keys by epoch, after the capabilities among some facts.
pub open spec fn installed(keys: Map<u64, [u8; 32]>, facts: Seq<Fact>) -> Map<u64, [u8; 32]>
    decreases facts.len(),
{
    if facts.len() == 0 {
        keys
    } else {
        let rest = installed(keys, facts.drop_last());
        match facts.last() {
            Fact::Capability(authorized) => filled(rest, authorized.control_keys@),
            _ => rest,
        }
    }
}

/// The control messages among some facts.
pub open spec fn seen(facts: Seq<Fact>) -> Seq<ControlMessageId>
    decreases facts.len(),
{
    if facts.len() == 0 {
        Seq::empty()
    } else {
        let rest = seen(facts.drop_last());
        match facts.last() {
            Fact::ControlMessage(id) => rest.push(id),
            _ => rest,
        }
    }
}

/// A rotation delivery as it travels: an epoch's keys for a device that
/// holds no later epoch secret.
#[derive(Debug, PartialEq, Eq)]
pub struct RotationDelivery {
    pub device: DeviceId,
    pub epoch: u64,
    pub transition: Vec<u8>,
    pub wrapped: Vec<u8>,
}

/// What is known about a rotation delivery beyond its own bytes.
pub struct RotationEvidence {
    /// The carried capability, when it opens.
    pub capability: Option<Capability>,
    /// The carried transition, when it parses.
    pub transition: Option<MembershipTransition>,
    /// Whether the transition is within the limits.
    pub within_limits: bool,
    /// What the history, with the carried transition in it, says of the
    /// capability.
    pub authorization: Authorization,
    /// The members of the epoch that the transition opens, when that
    /// history derives them.
    pub members: Option<Vec<DeviceId>>,
}

/// What is decided about a rotation delivery.
pub enum RotationDecision {
    Commit(MembershipTransition, AuthorizedCapability),
    Suppress,
    Skip,
    Fail(EngineError),
}

/// What is decided about a rotation delivery. Every binding has to agree:
/// the delivery is for this device, the capability is this device's and
/// covers the delivered epoch, and the transition is the capability's own,
/// at that epoch. The sender has to be a member of the epoch granted. Only
/// a gap in the history is left for another attempt.
pub open spec fn decide_rotation(
    device: DeviceId,
    sender: DeviceId,
    delivery: RotationDelivery,
    evidence: RotationEvidence,
) -> RotationDecision {
    match (evidence.capability, evidence.transition) {
        (Some(capability), Some(transition)) => if delivery.device != device || capability.device
            != device || delivery.epoch != capability.covered_epoch || transition.id
            != capability.transition || transition.epoch != delivery.epoch
            || !evidence.within_limits {
            RotationDecision::Suppress
        } else {
            match evidence.authorization {
                Authorization::Authorized(authorized) => match evidence.members {
                    Some(members) => if members@.contains(sender) {
                        RotationDecision::Commit(transition, authorized)
                    } else {
                        RotationDecision::Suppress
                    },
                    None => RotationDecision::Fail(
                        EngineError::TransitionUnclassified(transition.id),
                    ),
                },
                Authorization::UnknownTransition { .. } => RotationDecision::Skip,
                Authorization::Refused => RotationDecision::Suppress,
            }
        },
        _ => RotationDecision::Suppress,
    }
}

/// What becomes of a rotation delivery, and which messages are held
/// afterwards.
pub open spec fn rotated_pass(
    before: IntakeView,
    id: ControlMessageId,
    sender: DeviceId,
    delivery: RotationDelivery,
    evidence: RotationEvidence,
    pending_evidence: Seq<Evidence>,
) -> (Result<PassModel, EngineError>, Seq<PendingEntry>) {
    match decide_rotation(before.device, sender, delivery, evidence) {
        RotationDecision::Suppress => (
            Ok(settled(Outcome::Accepted, seq![id], Seq::empty())),
            before.pending,
        ),
        RotationDecision::Skip => (
            Ok(settled(Outcome::Skipped, Seq::empty(), seq![id])),
            before.pending,
        ),
        RotationDecision::Fail(error) => (Err(error), before.pending),
        RotationDecision::Commit(transition, authorized) => {
            let walked = walk(
                before.announcements,
                before.pending,
                pending_evidence,
                Some(transition.id),
                Map::empty(),
            );
            let own = seq![
                Fact::Transition(transition),
                Fact::Capability(authorized),
                Fact::ControlMessage(id),
            ];
            match walked.failed {
                Some(error) => (Err(error), walked.kept),
                None => (
                    Ok(batch(own + walked.facts, walked.staged, walked.suppressed)),
                    walked.kept,
                ),
            }
        },
    }
}

/// What the inbox makes of the bytes of a control message.
pub enum Ingest {
    /// A message that was not seen before, with the evidence on it.
    Accepted { id: ControlMessageId, message: Message, evidence: Evidence },
    /// Bytes that were seen before, with their id when they decode.
    Duplicate(Option<ControlMessageId>),
    /// The key of the epoch is not held.
    UnknownEpoch,
    /// Bytes that can never become a message.
    Failed,
}

/// What the inbox makes of the bytes of a rotation delivery.
pub enum RotationIngest {
    /// A delivery that was not seen before, with the evidence on it.
    Accepted { id: ControlMessageId, delivery: RotationDelivery, evidence: RotationEvidence },
    Duplicate,
    /// Bytes that can never become a delivery.
    Failed,
}

/// What becomes of ingested control bytes. Seen bytes re-drive their
/// message when it is still held.
pub open spec fn accepted_pass(
    before: IntakeView,
    ingest: Ingest,
    pending_evidence: Seq<Evidence>,
) -> (Result<PassModel, EngineError>, Seq<PendingEntry>) {
    match ingest {
        Ingest::UnknownEpoch => (
            Ok(settled(Outcome::Skipped, Seq::empty(), Seq::empty())),
            before.pending,
        ),
        Ingest::Failed => (
            Ok(settled(Outcome::Discarded, Seq::empty(), Seq::empty())),
            before.pending,
        ),
        Ingest::Duplicate(Some(id)) if holds(before.pending, id) => {
            let at = slot(before.pending, id);
            let entry = before.pending[at];
            committed_pass(
                IntakeView { pending: before.pending.remove(at), ..before },
                id,
                entry.message,
                false,
                Some(entry.wait),
                pending_evidence[at],
                pending_evidence.remove(at),
            )
        },
        Ingest::Duplicate(_) => (
            Ok(settled(Outcome::Duplicate, Seq::empty(), Seq::empty())),
            before.pending,
        ),
        Ingest::Accepted { id, message, evidence } => committed_pass(
            before,
            id,
            message,
            true,
            None,
            evidence,
            pending_evidence,
        ),
    }
}

/// What becomes of ingested rotation bytes.
pub open spec fn accepted_rotation(
    before: IntakeView,
    sender: DeviceId,
    ingest: RotationIngest,
    pending_evidence: Seq<Evidence>,
) -> (Result<PassModel, EngineError>, Seq<PendingEntry>) {
    match ingest {
        RotationIngest::Failed => (
            Ok(settled(Outcome::Discarded, Seq::empty(), Seq::empty())),
            before.pending,
        ),
        RotationIngest::Duplicate => (
            Ok(settled(Outcome::Duplicate, Seq::empty(), Seq::empty())),
            before.pending,
        ),
        RotationIngest::Accepted { id, delivery, evidence } => rotated_pass(
            before,
            id,
            sender,
            delivery,
            evidence,
            pending_evidence,
        ),
    }
}

/// Whether a device is among some members.
fn is_member(members: &Vec<DeviceId>, device: &DeviceId) -> (b: bool)
    ensures
        b == members@.contains(*device),
{
    let mut i: usize = 0;
    while i < members.len()
        invariant
            i <= members@.len(),
            forall|j: int| 0 <= j < i ==> #[trigger] members@[j] != *device,
        decreases members@.len() - i,
    {
        if members[i].same(device) {
            return true;
        }
        i = i + 1;
    }
    false
}

/// Decides about a rotation delivery.
fn rotation_decision(
    device: &DeviceId,
    sender: &DeviceId,
    delivery: &RotationDelivery,
    evidence: RotationEvidence,
) -> (r: RotationDecision)
    ensures
        r == decide_rotation(*device, *sender, *delivery, evidence),
{
    if !delivery.device.same(device) {
        return RotationDecision::Suppress;
    }
    let capability: Capability = match evidence.capability {
        Some(capability) => capability,
        None => return RotationDecision::Suppress,
    };
    if !capability.device.same(device) || delivery.epoch != capability.covered_epoch {
        return RotationDecision::Suppress;
    }
    let transition: MembershipTransition = match evidence.transition {
        Some(transition) => transition,
        None => return RotationDecision::Suppress,
    };
    if !transition.id.same(&capability.transition) || transition.epoch != delivery.epoch
        || !evidence.within_limits {
        return RotationDecision::Suppress;
    }
    let authorized: AuthorizedCapability = match evidence.authorization {
        Authorization::Authorized(authorized) => authorized,
        Authorization::UnknownTransition { .. } => return RotationDecision::Skip,
        Authorization::Refused => return RotationDecision::Suppress,
    };
    match &evidence.members {
        Some(members) => if is_member(members, sender) {
            RotationDecision::Commit(transition, authorized)
        } else {
            RotationDecision::Suppress
        },
        None => RotationDecision::Fail(EngineError::TransitionUnclassified(transition.id)),
    }
}

impl Intake {
    /// Settles what becomes of a rotation delivery: suppresses it, leaves
    /// it for another attempt, or hands out the transition, the capability
    /// and the delivery's id to commit together, with the facts of the held
    /// messages that the transition unblocks.
    pub fn rotation_commit(
        &mut self,
        id: ControlMessageId,
        sender: DeviceId,
        delivery: RotationDelivery,
        evidence: RotationEvidence,
        pending_evidence: Vec<Evidence>,
    ) -> (r: Result<Pass, EngineError>)
        requires
            old(self).inv(),
            pending_evidence@.len() == old(self)@.pending.len(),
        ensures
            final(self).inv(),
            r matches Ok(pass) ==> pass.wf(),
            (passed(r), final(self)@.pending) == rotated_pass(
                old(self)@,
                id,
                sender,
                delivery,
                evidence,
                pending_evidence@,
            ),
            final(self)@ == (IntakeView { pending: final(self)@.pending, ..old(self)@ }),
    {
        let (transition, authorized) = match rotation_decision(
            &self.device,
            &sender,
            &delivery,
            evidence,
        ) {
            RotationDecision::Commit(transition, authorized) => (transition, authorized),
            RotationDecision::Suppress => {
                let mut suppressed: Vec<ControlMessageId> = Vec::new();
                suppressed.push(id);
                proof {
                    assert(suppressed@ =~= seq![id]);
                }
                return Ok(settle(Outcome::Accepted, suppressed, Vec::new()));
            },
            RotationDecision::Skip => {
                let mut forgotten: Vec<ControlMessageId> = Vec::new();
                forgotten.push(id);
                proof {
                    assert(forgotten@ =~= seq![id]);
                }
                return Ok(settle(Outcome::Skipped, Vec::new(), forgotten));
            },
            RotationDecision::Fail(error) => return Err(error),
        };
        let committed = transition.id;
        let mut staged: SortedMap<SnapshotId, SnapshotAnnouncement> = SortedMap::new();
        let mut facts: Vec<Fact> = Vec::new();
        facts.push(Fact::Transition(transition));
        facts.push(Fact::Capability(authorized));
        facts.push(Fact::ControlMessage(id));
        proof {
            assert(announced(staged@) =~= Map::<SnapshotId, AnnouncementModel>::empty());
            assert(facts@ =~= seq![
                Fact::Transition(transition),
                Fact::Capability(authorized),
                Fact::ControlMessage(id),
            ]);
        }
        let mut suppressed: Vec<ControlMessageId> = Vec::new();
        match self.flush_pending(&mut staged, Some(committed), pending_evidence, &mut suppressed) {
            Ok(mut more) => {
                facts.append(&mut more);
            },
            Err(error) => return Err(error),
        }
        Ok(conclude(facts, staged, suppressed))
    }

    /// Settles what becomes of ingested control bytes.
    pub fn accept_control(
        &mut self,
        ingest: Ingest,
        pending_evidence: Vec<Evidence>,
    ) -> (r: Result<Pass, EngineError>)
        requires
            old(self).inv(),
            pending_evidence@.len() == old(self)@.pending.len(),
        ensures
            final(self).inv(),
            r matches Ok(pass) ==> pass.wf(),
            (passed(r), final(self)@.pending) == accepted_pass(
                old(self)@,
                ingest,
                pending_evidence@,
            ),
            final(self)@ == (IntakeView { pending: final(self)@.pending, ..old(self)@ }),
    {
        match ingest {
            Ingest::UnknownEpoch => Ok(settle(Outcome::Skipped, Vec::new(), Vec::new())),
            Ingest::Failed => Ok(settle(Outcome::Discarded, Vec::new(), Vec::new())),
            Ingest::Duplicate(None) => Ok(settle(Outcome::Duplicate, Vec::new(), Vec::new())),
            Ingest::Duplicate(Some(id)) => match self.find(&id) {
                Some(at) => {
                    let ghost before = self@;
                    let mut pending_evidence = pending_evidence;
                    let entry = self.pending.remove(at);
                    let evidence = pending_evidence.remove(at);
                    proof {
                        assert(self@ =~= (IntakeView {
                            pending: before.pending.remove(at as int),
                            ..before
                        }));
                    }
                    self.commit_action(
                        id,
                        entry.message,
                        false,
                        Some(entry.wait),
                        evidence,
                        pending_evidence,
                    )
                },
                None => Ok(settle(Outcome::Duplicate, Vec::new(), Vec::new())),
            },
            Ingest::Accepted { id, message, evidence } => self.commit_action(
                id,
                message,
                true,
                None,
                evidence,
                pending_evidence,
            ),
        }
    }

    /// Settles what becomes of ingested rotation bytes. Rotation deliveries
    /// are never held, so seen ones have nothing to re-drive.
    pub fn accept_rotation(
        &mut self,
        sender: DeviceId,
        ingest: RotationIngest,
        pending_evidence: Vec<Evidence>,
    ) -> (r: Result<Pass, EngineError>)
        requires
            old(self).inv(),
            pending_evidence@.len() == old(self)@.pending.len(),
        ensures
            final(self).inv(),
            r matches Ok(pass) ==> pass.wf(),
            (passed(r), final(self)@.pending) == accepted_rotation(
                old(self)@,
                sender,
                ingest,
                pending_evidence@,
            ),
            final(self)@ == (IntakeView { pending: final(self)@.pending, ..old(self)@ }),
    {
        match ingest {
            RotationIngest::Failed => Ok(settle(Outcome::Discarded, Vec::new(), Vec::new())),
            RotationIngest::Duplicate => Ok(settle(Outcome::Duplicate, Vec::new(), Vec::new())),
            RotationIngest::Accepted { id, delivery, evidence } => self.rotation_commit(
                id,
                sender,
                delivery,
                evidence,
                pending_evidence,
            ),
        }
    }
}

} // verus!
