//! Laws of control-plane intake.

use vstd::prelude::*;

use crate::ids::{ControlMessageId, DeviceId, SnapshotId, TransitionId};
use crate::model::{AnnouncementModel, SnapshotAnnouncement, TransitionStatus};
use crate::runtime::intake::{
    committed_pass, decide, decide_announcement, decide_rotation, distinct, holds, installed,
    rotated_pass, slot, stage, walk, Decision, DeferredWait, EngineError, Evidence,
    Fact, IntakeView, Message, Outcome, PassModel, PendingEntry, RotationDecision,
    RotationDelivery, RotationEvidence, StepModel,
};

verus! {

/// An announcement is committed only if its author signed it, it names the
/// epoch of the transition it is bound to, and that transition is
/// canonical.
pub proof fn law_committed_announcements_are_authorized(
    known: Map<SnapshotId, AnnouncementModel>,
    staged: Map<SnapshotId, AnnouncementModel>,
    id: ControlMessageId,
    announcement: SnapshotAnnouncement,
    evidence: Evidence,
)
    requires
        decide_announcement(known, staged, id, announcement, evidence) is Commit,
    ensures
        evidence.signed,
        evidence.bound_epoch == Some(announcement.epoch),
        evidence.status == Some(TransitionStatus::Canonical),
{
}

/// An announcement that is ahead of its transition waits for exactly that
/// transition, whether or not it is signed.
pub proof fn law_early_announcements_wait(
    known: Map<SnapshotId, AnnouncementModel>,
    staged: Map<SnapshotId, AnnouncementModel>,
    id: ControlMessageId,
    announcement: SnapshotAnnouncement,
    evidence: Evidence,
)
    requires
        evidence.bound_epoch is None,
    ensures
        decide_announcement(known, staged, id, announcement, evidence) == Decision::Defer(
            DeferredWait::Unseen(announcement.membership),
        ),
{
}

/// Whatever is committed of a message, its id is committed with it.
pub proof fn law_committed_messages_are_seen(
    known: Map<SnapshotId, AnnouncementModel>,
    staged: Map<SnapshotId, AnnouncementModel>,
    id: ControlMessageId,
    message: Message,
    evidence: Evidence,
)
    requires
        decide(known, staged, id, message, evidence) is Commit,
    ensures
        decide(known, staged, id, message, evidence)->Commit_0.contains(Fact::ControlMessage(id)),
{
    let facts = decide(known, staged, id, message, evidence)->Commit_0;
    assert(facts[1] == Fact::ControlMessage(id));
}

/// A message that has to wait when as many are held as allowed is shed: it
/// is not held, nothing is committed for it, and its id counts as unseen
/// again, so that the relay's next offer is judged afresh.
pub proof fn law_excess_messages_are_shed(
    before: IntakeView,
    id: ControlMessageId,
    message: Message,
    is_new: bool,
    held: Option<DeferredWait>,
    evidence: Evidence,
    pending_evidence: Seq<Evidence>,
)
    requires
        decide(before.announcements, Map::empty(), id, message, evidence) is Defer,
        before.pending.len() >= before.max_pending,
    ensures
        committed_pass(before, id, message, is_new, held, evidence, pending_evidence) == (
            Ok::<PassModel, EngineError>(
                PassModel {
                    step: StepModel::Settle(Outcome::RelayHeld),
                    suppressed: Seq::empty(),
                    forgotten: seq![id],
                },
            ),
            before.pending,
        ),
{
}

/// A suppressed message commits nothing and changes nothing that is held.
pub proof fn law_suppression_leaves_no_trace(
    before: IntakeView,
    id: ControlMessageId,
    message: Message,
    is_new: bool,
    held: Option<DeferredWait>,
    evidence: Evidence,
    pending_evidence: Seq<Evidence>,
)
    requires
        decide(before.announcements, Map::empty(), id, message, evidence) is Suppress,
    ensures
        ({
            let (pass, pending) = committed_pass(
                before,
                id,
                message,
                is_new,
                held,
                evidence,
                pending_evidence,
            );
            &&& pending == before.pending
            &&& pass == Ok::<PassModel, EngineError>(
                PassModel {
                    step: StepModel::Settle(Outcome::Accepted),
                    suppressed: seq![id],
                    forgotten: Seq::empty(),
                },
            )
        }),
{
}

/// A held message that waits for another transition than the committed one
/// stays held as it is.
pub proof fn law_unrelated_transitions_leave_messages_held(
    known: Map<SnapshotId, AnnouncementModel>,
    pending: Seq<PendingEntry>,
    evidence: Seq<Evidence>,
    committed: TransitionId,
    start: Map<SnapshotId, AnnouncementModel>,
    i: int,
)
    requires
        0 <= i < pending.len(),
        !pending[i].wait.wakes(committed),
    ensures
        walk(known, pending, evidence, Some(committed), start).kept.contains(pending[i]),
    decreases pending.len(),
{
    let kept = walk(known, pending, evidence, Some(committed), start).kept;
    let before = walk(known, pending.drop_last(), evidence, Some(committed), start).kept;
    if i == pending.len() - 1 {
        assert(kept[kept.len() - 1] == pending[i]);
    } else {
        law_unrelated_transitions_leave_messages_held(
            known,
            pending.drop_last(),
            evidence,
            committed,
            start,
            i,
        );
        let j = before.index_of(pending[i]);
        assert(before[j] == pending[i]);
        assert(kept[j] == before[j]);
    }
}

/// Messages that stay held keep the order in which they arrived.
pub proof fn law_held_messages_keep_their_order(
    known: Map<SnapshotId, AnnouncementModel>,
    pending: Seq<PendingEntry>,
    evidence: Seq<Evidence>,
    committed: Option<TransitionId>,
    start: Map<SnapshotId, AnnouncementModel>,
    i: int,
    j: int,
)
    requires
        distinct(pending),
        0 <= i < j < walk(known, pending, evidence, committed, start).kept.len(),
    ensures
        ({
            let kept = walk(known, pending, evidence, committed, start).kept;
            &&& holds(pending, kept[i].id)
            &&& holds(pending, kept[j].id)
            &&& slot(pending, kept[i].id) < slot(pending, kept[j].id)
        }),
    decreases pending.len(),
{
    let kept = walk(known, pending, evidence, committed, start).kept;
    let rest = pending.drop_last();
    let before = walk(known, rest, evidence, committed, start).kept;
    lemma_kept_are_held(known, rest, evidence, committed, start);
    assert(kept[i] == before[i]);
    lemma_slot_of_prefix(pending, before[i].id);
    if j < before.len() {
        assert(kept[j] == before[j]);
        law_held_messages_keep_their_order(known, rest, evidence, committed, start, i, j);
        lemma_slot_of_prefix(pending, before[j].id);
    } else {
        assert(kept[j].id == pending.last().id);
        lemma_slot_is(pending, pending.len() - 1);
    }
}

/// What stays held was held.
proof fn lemma_kept_are_held(
    known: Map<SnapshotId, AnnouncementModel>,
    pending: Seq<PendingEntry>,
    evidence: Seq<Evidence>,
    committed: Option<TransitionId>,
    start: Map<SnapshotId, AnnouncementModel>,
)
    ensures
        forall|i: int|
            0 <= i < walk(known, pending, evidence, committed, start).kept.len() ==> holds(
                pending,
                (#[trigger] walk(known, pending, evidence, committed, start).kept[i]).id,
            ),
    decreases pending.len(),
{
    if pending.len() > 0 {
        let rest = pending.drop_last();
        lemma_kept_are_held(known, rest, evidence, committed, start);
        let kept = walk(known, pending, evidence, committed, start).kept;
        let before = walk(known, rest, evidence, committed, start).kept;
        assert forall|i: int| 0 <= i < kept.len() implies holds(
            pending,
            (#[trigger] kept[i]).id,
        ) by {
            if i < before.len() {
                assert(kept[i] == before[i]);
                assert(holds(rest, before[i].id));
                let j = slot(rest, before[i].id);
                assert(pending[j].id == kept[i].id);
            } else {
                assert(pending[pending.len() - 1].id == kept[i].id);
            }
        }
    }
}

proof fn lemma_slot_is(pending: Seq<PendingEntry>, i: int)
    requires
        distinct(pending),
        0 <= i < pending.len(),
    ensures
        holds(pending, pending[i].id),
        slot(pending, pending[i].id) == i,
{
    assert(holds(pending, pending[i].id));
    let j = slot(pending, pending[i].id);
    assert(pending[j].id == pending[i].id);
}

/// A message held among all but the last has the same place among all.
proof fn lemma_slot_of_prefix(pending: Seq<PendingEntry>, id: ControlMessageId)
    requires
        distinct(pending),
        pending.len() > 0,
        holds(pending.drop_last(), id),
    ensures
        holds(pending, id),
        slot(pending, id) == slot(pending.drop_last(), id),
        slot(pending, id) < pending.len() - 1,
{
    let j = slot(pending.drop_last(), id);
    assert(pending.drop_last()[j].id == id);
    assert(pending[j].id == id);
    lemma_slot_is(pending, j);
}

/// Unless the walk failed, every held message is still held, or was
/// suppressed, or has its id among the facts to commit.
pub proof fn law_held_messages_are_never_lost(
    known: Map<SnapshotId, AnnouncementModel>,
    pending: Seq<PendingEntry>,
    evidence: Seq<Evidence>,
    committed: Option<TransitionId>,
    start: Map<SnapshotId, AnnouncementModel>,
    i: int,
)
    requires
        0 <= i < pending.len(),
        walk(known, pending, evidence, committed, start).failed is None,
    ensures
        ({
            let walked = walk(known, pending, evidence, committed, start);
            ||| holds(walked.kept, pending[i].id)
            ||| walked.suppressed.contains(pending[i].id)
            ||| walked.facts.contains(Fact::ControlMessage(pending[i].id))
        }),
    decreases pending.len(),
{
    let id = pending[i].id;
    let after = walk(known, pending, evidence, committed, start);
    let before = walk(known, pending.drop_last(), evidence, committed, start);
    if i == pending.len() - 1 {
        let entry = pending.last();
        let judged = evidence[pending.len() - 1];
        let decision = decide(known, before.staged, entry.id, entry.message, judged);
        if after.kept.len() > before.kept.len() {
            assert(after.kept[before.kept.len() as int].id == id);
        } else if decision is Suppress {
            assert(after.suppressed[before.suppressed.len() as int] == id);
        } else {
            law_committed_messages_are_seen(known, before.staged, entry.id, entry.message, judged);
            let facts = decision->Commit_0;
            let k = facts.index_of(Fact::ControlMessage(id));
            assert(facts[k] == Fact::ControlMessage(id));
            assert(after.facts[before.facts.len() + k] == Fact::ControlMessage(id));
        }
    } else {
        assert(pending.drop_last()[i] == pending[i]);
        law_held_messages_are_never_lost(
            known,
            pending.drop_last(),
            evidence,
            committed,
            start,
            i,
        );
        if holds(before.kept, id) {
            let k = slot(before.kept, id);
            assert(before.kept[k].id == id);
            assert(after.kept[k].id == id);
        } else if before.suppressed.contains(id) {
            let k = before.suppressed.index_of(id);
            assert(after.suppressed[k] == id);
        } else {
            let k = before.facts.index_of(Fact::ControlMessage(id));
            assert(after.facts[k] == Fact::ControlMessage(id));
        }
    }
}

/// A failed walk holds the message that failed, and all that follow it, as
/// they were; in particular the last one.
pub proof fn law_failure_holds_back_the_rest(
    known: Map<SnapshotId, AnnouncementModel>,
    pending: Seq<PendingEntry>,
    evidence: Seq<Evidence>,
    committed: Option<TransitionId>,
    start: Map<SnapshotId, AnnouncementModel>,
    n: int,
)
    requires
        0 < n <= pending.len(),
        walk(known, pending.take(n - 1), evidence, committed, start).failed is None,
        walk(known, pending.take(n), evidence, committed, start).failed is Some,
    ensures
        walk(known, pending, evidence, committed, start).failed == walk(
            known,
            pending.take(n),
            evidence,
            committed,
            start,
        ).failed,
        walk(known, pending, evidence, committed, start).kept == walk(
            known,
            pending.take(n - 1),
            evidence,
            committed,
            start,
        ).kept + pending.skip(n - 1),
    decreases pending.len(),
{
    let prefix = walk(known, pending.take(n - 1), evidence, committed, start);
    if n == pending.len() {
        assert(pending.take(n) =~= pending);
        assert(pending.drop_last() =~= pending.take(n - 1));
        assert(prefix.kept + pending.skip(n - 1) =~= prefix.kept.push(pending.last()));
    } else {
        let rest = pending.drop_last();
        assert(rest.take(n) =~= pending.take(n));
        assert(rest.take(n - 1) =~= pending.take(n - 1));
        law_failure_holds_back_the_rest(known, rest, evidence, committed, start, n);
        assert(prefix.kept + pending.skip(n - 1) =~= (prefix.kept + rest.skip(n - 1)).push(
            pending.last(),
        ));
    }
}

/// Whether the announcements of a batch make one statement about each
/// snapshot: the one already known, if there is one.
pub open spec fn consistent_batch(
    known: Map<SnapshotId, AnnouncementModel>,
    staged: Map<SnapshotId, AnnouncementModel>,
    facts: Seq<Fact>,
) -> bool {
    &&& forall|s: SnapshotId| #[trigger]
        staged.contains_key(s) && known.contains_key(s) ==> staged[s].statement
            == known[s].statement
    &&& forall|i: int|
        0 <= i < facts.len() ==> ((#[trigger] facts[i]) matches Fact::Announcement(a)
            ==> staged.contains_key(a.snapshot) && staged[a.snapshot].statement == a@.statement)
}

/// Two messages that are released together never fork: all announcements
/// among the facts of one walk make one statement about each snapshot, and
/// it is the known one if there is one.
pub proof fn law_released_batches_never_fork(
    known: Map<SnapshotId, AnnouncementModel>,
    pending: Seq<PendingEntry>,
    evidence: Seq<Evidence>,
    committed: Option<TransitionId>,
)
    ensures
        consistent_batch(
            known,
            walk(known, pending, evidence, committed, Map::empty()).staged,
            walk(known, pending, evidence, committed, Map::empty()).facts,
        ),
    decreases pending.len(),
{
    if pending.len() > 0 {
        law_released_batches_never_fork(known, pending.drop_last(), evidence, committed);
        let before = walk(known, pending.drop_last(), evidence, committed, Map::empty());
        let after = walk(known, pending, evidence, committed, Map::empty());
        let entry = pending.last();
        let judged = evidence[pending.len() - 1];
        assert forall|s: SnapshotId| #[trigger]
            after.staged.contains_key(s) && known.contains_key(s) implies after.staged[s].statement
            == known[s].statement by {
            assert(before.staged.contains_key(s) ==> before.staged[s].statement
                == known[s].statement);
        }
        assert forall|i: int| 0 <= i < after.facts.len() implies (
        (#[trigger] after.facts[i]) matches Fact::Announcement(a) ==> after.staged.contains_key(
            a.snapshot,
        ) && after.staged[a.snapshot].statement == a@.statement) by {
            if i < before.facts.len() {
                assert(after.facts[i] == before.facts[i]);
                if let Fact::Announcement(a) = before.facts[i] {
                    assert(before.staged.contains_key(a.snapshot));
                    assert(before.staged[a.snapshot].statement == a@.statement);
                }
            }
        }
    }
}

/// No commit changes the statement that is known about a snapshot: after
/// any pass, every announcement that joins the projection repeats the
/// statement already there.
pub proof fn law_known_statements_never_change(
    before: IntakeView,
    id: ControlMessageId,
    message: Message,
    is_new: bool,
    held: Option<DeferredWait>,
    evidence: Evidence,
    pending_evidence: Seq<Evidence>,
    snapshot: SnapshotId,
)
    requires
        before.announcements.contains_key(snapshot),
        ({
            let (pass, _) = committed_pass(
                before,
                id,
                message,
                is_new,
                held,
                evidence,
                pending_evidence,
            );
            pass matches Ok(pass) && pass.step is Commit
        }),
    ensures
        ({
            let (pass, _) = committed_pass(
                before,
                id,
                message,
                is_new,
                held,
                evidence,
                pending_evidence,
            );
            let joined = before.announcements.union_prefer_right(pass->Ok_0.step->staged);
            joined.contains_key(snapshot) && joined[snapshot].statement
                == before.announcements[snapshot].statement
        }),
{
    let none = Map::<SnapshotId, AnnouncementModel>::empty();
    let decision = decide(before.announcements, none, id, message, evidence);
    match message {
        Message::MembershipTransition(_) => {
            law_released_batches_never_fork(
                before.announcements,
                before.pending,
                pending_evidence,
                crate::runtime::intake::carried(message, evidence),
            );
            assert(stage(none, message, decision) == none);
        },
        _ => {},
    }
}

/// The same of rotation deliveries.
pub proof fn law_rotations_never_change_known_statements(
    before: IntakeView,
    id: ControlMessageId,
    sender: DeviceId,
    delivery: RotationDelivery,
    evidence: RotationEvidence,
    pending_evidence: Seq<Evidence>,
    snapshot: SnapshotId,
)
    requires
        before.announcements.contains_key(snapshot),
        ({
            let (pass, _) = rotated_pass(before, id, sender, delivery, evidence, pending_evidence);
            pass matches Ok(pass) && pass.step is Commit
        }),
    ensures
        ({
            let (pass, _) = rotated_pass(before, id, sender, delivery, evidence, pending_evidence);
            let joined = before.announcements.union_prefer_right(pass->Ok_0.step->staged);
            joined.contains_key(snapshot) && joined[snapshot].statement
                == before.announcements[snapshot].statement
        }),
{
    if let RotationDecision::Commit(transition, _) = decide_rotation(
        before.device,
        sender,
        delivery,
        evidence,
    ) {
        law_released_batches_never_fork(
            before.announcements,
            before.pending,
            pending_evidence,
            Some(transition.id),
        );
    }
}

/// A rotation delivery is committed only from a member of the epoch it
/// grants, for this device, and with every binding in agreement.
pub proof fn law_rotations_come_from_members(
    device: DeviceId,
    sender: DeviceId,
    delivery: RotationDelivery,
    evidence: RotationEvidence,
)
    requires
        decide_rotation(device, sender, delivery, evidence) is Commit,
    ensures
        delivery.device == device,
        evidence.members matches Some(members) && members@.contains(sender),
        ({
            &&& evidence.capability matches Some(capability)
            &&& evidence.transition matches Some(transition)
            &&& capability.device == device
            &&& capability.covered_epoch == delivery.epoch
            &&& capability.transition == transition.id
            &&& transition.epoch == delivery.epoch
        }),
{
}

/// A key that is held is never replaced by a commit.
pub proof fn law_held_keys_stay(keys: Map<u64, [u8; 32]>, facts: Seq<Fact>, epoch: u64)
    requires
        keys.contains_key(epoch),
    ensures
        installed(keys, facts).contains_key(epoch),
        installed(keys, facts)[epoch] == keys[epoch],
    decreases facts.len(),
{
    if facts.len() > 0 {
        law_held_keys_stay(keys, facts.drop_last(), epoch);
    }
}

/// Once a capability is committed, there is a key for every epoch that it
/// covers.
pub proof fn law_capabilities_open_their_epochs(
    keys: Map<u64, [u8; 32]>,
    facts: Seq<Fact>,
    i: int,
    epoch: u64,
)
    requires
        0 <= i < facts.len(),
        facts[i] matches Fact::Capability(authorized) && 1 <= epoch
            <= authorized.control_keys@.len(),
    ensures
        installed(keys, facts).contains_key(epoch),
    decreases facts.len(),
{
    if i < facts.len() - 1 {
        law_capabilities_open_their_epochs(keys, facts.drop_last(), i, epoch);
        law_held_keys_stay(
            installed(keys, facts.drop_last()),
            seq![facts.last()],
            epoch,
        );
        let last = seq![facts.last()];
        assert(last.drop_last() =~= Seq::empty());
    }
}

} // verus!
