//! What becomes of a delivery as a whole: its outcome, what is committed,
//! what is held afterwards, and what the inbox has to note.

use vstd::prelude::*;

use crate::ids::{ControlMessageId, DeviceId, SnapshotId};
use crate::model::{AnnouncementModel, MembershipTransition};
use crate::runtime::intake::{
    accepted_pass, accepted_rotation, committed_pass, decide, decide_rotation, distinct, hold,
    holds, rotated_pass, slot, walk, AuthorizedCapability, Decision, DeferredWait, EngineError,
    Evidence, Fact, Ingest, IntakeView, Message, Outcome, PassModel, PendingEntry, RotationDecision,
    RotationDelivery, RotationEvidence, RotationIngest, StepModel,
};

verus! {

/// Holding a message puts it behind the others, or, where one with its id
/// is held, into the place of that one; no other message is touched.
pub proof fn law_messages_are_held_in_arrival_order(pending: Seq<PendingEntry>, entry: PendingEntry)
    requires
        distinct(pending),
    ensures
        (forall|i: int| 0 <= i < pending.len() ==> (#[trigger] pending[i]).id != entry.id) ==> hold(
            pending,
            entry,
        ).len() == pending.len() + 1 && hold(pending, entry)[pending.len() as int] == entry,
        forall|i: int|
            0 <= i < pending.len() && (#[trigger] pending[i]).id == entry.id ==> hold(
                pending,
                entry,
            ).len() == pending.len() && hold(pending, entry)[i] == entry,
        forall|i: int|
            0 <= i < pending.len() && (#[trigger] pending[i]).id != entry.id ==> hold(
                pending,
                entry,
            )[i] == pending[i],
{
    if holds(pending, entry.id) {
        let at = slot(pending, entry.id);
        assert(pending[at].id == entry.id);
    }
}

/// A message that has to wait is held, under its id and what it waits for,
/// while there is room; nothing is committed for it and nothing noted.
pub proof fn law_waiting_messages_are_held(
    before: IntakeView,
    id: ControlMessageId,
    message: Message,
    is_new: bool,
    held: Option<DeferredWait>,
    evidence: Evidence,
    pending_evidence: Seq<Evidence>,
    wait: DeferredWait,
)
    requires
        decide(before.announcements, Map::empty(), id, message, evidence) == Decision::Defer(wait),
        before.pending.len() < before.max_pending,
        forall|i: int| 0 <= i < before.pending.len() ==> (#[trigger] before.pending[i]).id != id,
    ensures
        ({
            let (pass, pending) = committed_pass(
                before,
                id,
                message,
                is_new,
                held,
                evidence,
                pending_evidence,
            );
            &&& pending == before.pending.push(PendingEntry { id, message, wait })
            &&& pass matches Ok(pass)
            &&& pass.step == StepModel::Settle(Outcome::Deferred)
            &&& pass.suppressed.len() == 0
            &&& pass.forgotten.len() == 0
        }),
{
}

/// A message that fails the pass is held again under what it waited for, if
/// it was taken out of the held ones; otherwise nothing is held for it.
pub proof fn law_failed_messages_keep_their_slot(
    before: IntakeView,
    id: ControlMessageId,
    message: Message,
    is_new: bool,
    held: Option<DeferredWait>,
    evidence: Evidence,
    pending_evidence: Seq<Evidence>,
    error: EngineError,
)
    requires
        decide(before.announcements, Map::empty(), id, message, evidence) == Decision::Fail(error),
        forall|i: int| 0 <= i < before.pending.len() ==> (#[trigger] before.pending[i]).id != id,
    ensures
        ({
            let (pass, pending) = committed_pass(
                before,
                id,
                message,
                is_new,
                held,
                evidence,
                pending_evidence,
            );
            &&& pass == Err::<PassModel, EngineError>(error)
            &&& match held {
                Some(wait) => pending == before.pending.push(PendingEntry { id, message, wait }),
                None => pending == before.pending,
            }
        }),
{
}

/// A new message that is not a transition commits exactly what is decided
/// about it, stages its own announcement if it is one, and leaves the held
/// messages alone; one that is not new commits nothing.
pub proof fn law_messages_commit_their_own_facts(
    before: IntakeView,
    id: ControlMessageId,
    message: Message,
    is_new: bool,
    held: Option<DeferredWait>,
    evidence: Evidence,
    pending_evidence: Seq<Evidence>,
    own: Seq<Fact>,
)
    requires
        decide(before.announcements, Map::empty(), id, message, evidence) == Decision::Commit(own),
        !(message is MembershipTransition),
    ensures
        ({
            let (pass, pending) = committed_pass(
                before,
                id,
                message,
                is_new,
                held,
                evidence,
                pending_evidence,
            );
            &&& pending == before.pending
            &&& pass matches Ok(pass)
            &&& pass.suppressed.len() == 0
            &&& pass.forgotten.len() == 0
            &&& !is_new ==> pass.step == StepModel::Settle(Outcome::Duplicate)
            &&& is_new ==> {
                &&& pass.step matches StepModel::Commit { facts, staged }
                &&& facts == own
                &&& match message {
                    Message::SnapshotAnnouncement(a) => forall|s: SnapshotId|
                        {
                            &&& #[trigger] staged.contains_key(s) <==> s == a.snapshot
                            &&& s == a.snapshot ==> staged[s] == a@
                        },
                    _ => forall|s: SnapshotId| !#[trigger] staged.contains_key(s),
                }
            }
        }),
{
    assert(own.len() == 2);
}

/// A committed transition re-drives the held messages: what they come to
/// is committed behind its own facts, in one batch, and what stays held is
/// what the walk over them keeps.
pub proof fn law_transitions_flush_the_held_messages(
    before: IntakeView,
    id: ControlMessageId,
    message: Message,
    is_new: bool,
    held: Option<DeferredWait>,
    evidence: Evidence,
    pending_evidence: Seq<Evidence>,
    transition: MembershipTransition,
)
    requires
        message is MembershipTransition,
        evidence.transition == Some(transition),
    ensures
        ({
            let (pass, pending) = committed_pass(
                before,
                id,
                message,
                is_new,
                held,
                evidence,
                pending_evidence,
            );
            let walked = walk(
                before.announcements,
                before.pending,
                pending_evidence,
                Some(transition.id),
                Map::empty(),
            );
            let own = if is_new {
                2int
            } else {
                0int
            };
            &&& pending == walked.kept
            &&& match walked.failed {
                Some(error) => pass == Err::<PassModel, EngineError>(error),
                None => {
                    &&& pass matches Ok(pass)
                    &&& pass.suppressed == walked.suppressed
                    &&& pass.forgotten.len() == 0
                    &&& if own + walked.facts.len() == 0 {
                        pass.step == StepModel::Settle(Outcome::Duplicate)
                    } else {
                        &&& pass.step matches StepModel::Commit { facts, staged }
                        &&& facts.len() == own + walked.facts.len()
                        &&& is_new ==> facts[0] == Fact::Transition(transition) && facts[1]
                            == Fact::ControlMessage(id)
                        &&& forall|k: int|
                            0 <= k < walked.facts.len() ==> facts[own + k]
                                == #[trigger] walked.facts[k]
                        &&& staged == walked.staged
                    }
                },
            }
        }),
{
    let none = Map::<SnapshotId, AnnouncementModel>::empty();
    let decision = decide(before.announcements, none, id, message, evidence);
    assert(crate::runtime::intake::stage(none, message, decision) == none);
}

/// What the inbox cannot open yet is left for later, what can never become
/// a message is discarded, and seen bytes whose message is not held are
/// duplicates; none of them changes anything.
pub proof fn law_ingested_bytes_have_their_outcome(
    before: IntakeView,
    ingest: Ingest,
    pending_evidence: Seq<Evidence>,
    outcome: Outcome,
)
    requires
        match ingest {
            Ingest::UnknownEpoch => outcome == Outcome::Skipped,
            Ingest::Failed => outcome == Outcome::Discarded,
            Ingest::Duplicate(None) => outcome == Outcome::Duplicate,
            Ingest::Duplicate(Some(id)) => outcome == Outcome::Duplicate && forall|i: int|
                0 <= i < before.pending.len() ==> (#[trigger] before.pending[i]).id != id,
            Ingest::Accepted { .. } => false,
        },
    ensures
        ({
            let (pass, pending) = accepted_pass(before, ingest, pending_evidence);
            &&& pending == before.pending
            &&& pass matches Ok(pass)
            &&& pass.step == StepModel::Settle(outcome)
            &&& pass.suppressed.len() == 0
            &&& pass.forgotten.len() == 0
        }),
{
}

/// A new message is settled as such, on the evidence it came with.
pub proof fn law_new_messages_are_settled(
    before: IntakeView,
    id: ControlMessageId,
    message: Message,
    evidence: Evidence,
    pending_evidence: Seq<Evidence>,
)
    ensures
        accepted_pass(before, Ingest::Accepted { id, message, evidence }, pending_evidence)
            == committed_pass(before, id, message, true, None, evidence, pending_evidence),
{
}

/// Seen bytes whose message is held re-drive exactly that message, taken
/// out of the held ones, on the evidence on it; it adds no facts of its own
/// and keeps its dependency if the pass fails.
pub proof fn law_redelivery_redrives_the_held_message(
    before: IntakeView,
    pending_evidence: Seq<Evidence>,
    i: int,
)
    requires
        distinct(before.pending),
        0 <= i < before.pending.len(),
    ensures
        accepted_pass(before, Ingest::Duplicate(Some(before.pending[i].id)), pending_evidence)
            == committed_pass(
            IntakeView { pending: before.pending.remove(i), ..before },
            before.pending[i].id,
            before.pending[i].message,
            false,
            Some(before.pending[i].wait),
            pending_evidence[i],
            pending_evidence.remove(i),
        ),
{
    let id = before.pending[i].id;
    assert(holds(before.pending, id));
    let at = slot(before.pending, id);
    assert(before.pending[at].id == id);
    assert(at == i);
}

/// A rotation delivery that is committed commits its transition, its
/// capability and its id, in that order and before anything else, and
/// re-drives the held messages with the transition.
pub proof fn law_rotations_commit_together(
    before: IntakeView,
    id: ControlMessageId,
    sender: DeviceId,
    delivery: RotationDelivery,
    evidence: RotationEvidence,
    pending_evidence: Seq<Evidence>,
    transition: MembershipTransition,
    authorized: AuthorizedCapability,
)
    requires
        decide_rotation(before.device, sender, delivery, evidence) == RotationDecision::Commit(
            transition,
            authorized,
        ),
    ensures
        ({
            let (pass, pending) = rotated_pass(
                before,
                id,
                sender,
                delivery,
                evidence,
                pending_evidence,
            );
            let walked = walk(
                before.announcements,
                before.pending,
                pending_evidence,
                Some(transition.id),
                Map::empty(),
            );
            &&& pending == walked.kept
            &&& match walked.failed {
                Some(error) => pass == Err::<PassModel, EngineError>(error),
                None => {
                    &&& pass matches Ok(pass)
                    &&& pass.suppressed == walked.suppressed
                    &&& pass.forgotten.len() == 0
                    &&& pass.step matches StepModel::Commit { facts, staged }
                    &&& facts.len() == 3 + walked.facts.len()
                    &&& facts[0] == Fact::Transition(transition)
                    &&& facts[1] == Fact::Capability(authorized)
                    &&& facts[2] == Fact::ControlMessage(id)
                    &&& forall|k: int|
                        0 <= k < walked.facts.len() ==> facts[3 + k] == #[trigger] walked.facts[k]
                    &&& staged == walked.staged
                },
            }
        }),
{
}

/// A rotation delivery that is not committed changes nothing that is held:
/// a dropped one is accepted and its id noted, one that the history does not
/// reach yet is left for another attempt and its id forgotten, and a failure
/// is passed on.
pub proof fn law_other_rotations_change_nothing(
    before: IntakeView,
    id: ControlMessageId,
    sender: DeviceId,
    delivery: RotationDelivery,
    evidence: RotationEvidence,
    pending_evidence: Seq<Evidence>,
)
    requires
        !(decide_rotation(before.device, sender, delivery, evidence) is Commit),
    ensures
        ({
            let (pass, pending) = rotated_pass(
                before,
                id,
                sender,
                delivery,
                evidence,
                pending_evidence,
            );
            &&& pending == before.pending
            &&& match decide_rotation(before.device, sender, delivery, evidence) {
                RotationDecision::Suppress => pass matches Ok(pass) && pass.step
                    == StepModel::Settle(Outcome::Accepted) && pass.suppressed == seq![id]
                    && pass.forgotten.len() == 0,
                RotationDecision::Skip => pass matches Ok(pass) && pass.step == StepModel::Settle(
                    Outcome::Skipped,
                ) && pass.suppressed.len() == 0 && pass.forgotten == seq![id],
                RotationDecision::Fail(error) => pass == Err::<PassModel, EngineError>(error),
                RotationDecision::Commit(..) => true,
            }
        }),
{
}

/// Rotation bytes that can never become a delivery are discarded, seen ones
/// are duplicates, and new ones are settled on their evidence.
pub proof fn law_ingested_rotations_have_their_outcome(
    before: IntakeView,
    sender: DeviceId,
    ingest: RotationIngest,
    pending_evidence: Seq<Evidence>,
)
    ensures
        match ingest {
            RotationIngest::Accepted { id, delivery, evidence } => accepted_rotation(
                before,
                sender,
                ingest,
                pending_evidence,
            ) == rotated_pass(before, id, sender, delivery, evidence, pending_evidence),
            _ => {
                let (pass, pending) = accepted_rotation(before, sender, ingest, pending_evidence);
                &&& pending == before.pending
                &&& pass matches Ok(pass)
                &&& pass.step == StepModel::Settle(
                    if ingest is Failed {
                        Outcome::Discarded
                    } else {
                        Outcome::Duplicate
                    },
                )
                &&& pass.suppressed.len() == 0
                &&& pass.forgotten.len() == 0
            },
        },
{
}

} // verus!
