//! What intake decides, in terms of the message, the evidence on it and
//! what is already known.

use vstd::prelude::*;

use crate::ids::{ControlMessageId, DeviceId, SnapshotId, TransitionId};
use crate::model::{AnnouncementModel, MembershipTransition, SnapshotAnnouncement, TransitionStatus};
use crate::runtime::intake::{
    decide, decide_rotation, holds, installed, seen, stage, walk, Authorization, Capability,
    CapabilityPayload, Decision, DeferredWait, EngineError, Evidence, Fact, Message, PendingEntry,
    RotationDecision, RotationDelivery, RotationEvidence,
};

verus! {

/// Whether a capability among some facts brings a key for an epoch.
pub open spec fn brings_key(fact: Fact, epoch: u64) -> bool {
    fact matches Fact::Capability(authorized) && 1 <= epoch <= authorized.control_keys@.len()
}

/// The key at each position of a capability is that of the epoch of the
/// same number, counted from one: where an epoch had no key, it holds
/// exactly that key of the first committed capability that covers it.
pub proof fn law_keys_are_installed_by_epoch(
    keys: Map<u64, [u8; 32]>,
    facts: Seq<Fact>,
    i: int,
    epoch: u64,
)
    requires
        !keys.contains_key(epoch),
        0 <= i < facts.len(),
        brings_key(facts[i], epoch),
        forall|j: int| 0 <= j < i ==> !brings_key(#[trigger] facts[j], epoch),
    ensures
        installed(keys, facts).contains_key(epoch),
        facts[i] matches Fact::Capability(authorized) && installed(keys, facts)[epoch]
            == authorized.control_keys@[epoch - 1],
    decreases facts.len(),
{
    let rest = facts.drop_last();
    if i < facts.len() - 1 {
        assert(rest[i] == facts[i]);
        assert forall|j: int| 0 <= j < i implies !brings_key(#[trigger] rest[j], epoch) by {
            assert(rest[j] == facts[j]);
        }
        law_keys_are_installed_by_epoch(keys, rest, i, epoch);
    } else {
        assert forall|j: int| 0 <= j < rest.len() implies !brings_key(
            #[trigger] rest[j],
            epoch,
        ) by {
            assert(rest[j] == facts[j]);
        }
        lemma_no_key(keys, rest, epoch);
    }
}

proof fn lemma_no_key(keys: Map<u64, [u8; 32]>, facts: Seq<Fact>, epoch: u64)
    requires
        forall|j: int| 0 <= j < facts.len() ==> !brings_key(#[trigger] facts[j], epoch),
    ensures
        installed(keys, facts).contains_key(epoch) <==> keys.contains_key(epoch),
        keys.contains_key(epoch) ==> installed(keys, facts)[epoch] == keys[epoch],
    decreases facts.len(),
{
    if facts.len() > 0 {
        let rest = facts.drop_last();
        assert forall|j: int| 0 <= j < rest.len() implies !brings_key(
            #[trigger] rest[j],
            epoch,
        ) by {
            assert(rest[j] == facts[j]);
        }
        lemma_no_key(keys, rest, epoch);
        assert(!brings_key(facts[facts.len() - 1], epoch));
    }
}

/// An epoch that no committed capability covers gets no key, and a key that
/// is held stays what it is.
pub proof fn law_no_other_key_is_installed(
    keys: Map<u64, [u8; 32]>,
    facts: Seq<Fact>,
    epoch: u64,
)
    ensures
        (forall|j: int| 0 <= j < facts.len() ==> !brings_key(#[trigger] facts[j], epoch)) ==> (
        installed(keys, facts).contains_key(epoch) <==> keys.contains_key(epoch)),
        keys.contains_key(epoch) ==> installed(keys, facts).contains_key(epoch) && installed(
            keys,
            facts,
        )[epoch] == keys[epoch],
{
    if forall|j: int| 0 <= j < facts.len() ==> !brings_key(#[trigger] facts[j], epoch) {
        lemma_no_key(keys, facts, epoch);
    }
    if keys.contains_key(epoch) {
        crate::runtime::intake_laws::law_held_keys_stay(keys, facts, epoch);
    }
}

/// The ids to remember are those of the control messages among the facts,
/// in their order.
pub proof fn law_committed_ids_are_remembered(facts: Seq<Fact>)
    ensures
        seen(facts) == facts.filter(|fact: Fact| fact is ControlMessage).map_values(
            |fact: Fact| fact->ControlMessage_0,
        ),
        forall|id: ControlMessageId| #[trigger]
            seen(facts).contains(id) <==> facts.contains(Fact::ControlMessage(id)),
    decreases facts.len(),
{
    reveal(Seq::filter);
    let ids = |fact: Fact| fact->ControlMessage_0;
    let keep = |fact: Fact| fact is ControlMessage;
    if facts.len() > 0 {
        let rest = facts.drop_last();
        law_committed_ids_are_remembered(rest);
        if facts.last() is ControlMessage {
            assert(rest.filter(keep).push(facts.last()).map_values(ids) =~= rest.filter(
                keep,
            ).map_values(ids).push(facts.last()->ControlMessage_0));
        }
        assert forall|id: ControlMessageId| #[trigger]
            seen(facts).contains(id) <==> facts.contains(Fact::ControlMessage(id)) by {
            assert(facts[facts.len() - 1] == facts.last());
            if facts.contains(Fact::ControlMessage(id)) && facts.last() != Fact::ControlMessage(
                id,
            ) {
                let k = facts.index_of(Fact::ControlMessage(id));
                assert(rest[k] == Fact::ControlMessage(id));
            }
            if rest.contains(Fact::ControlMessage(id)) {
                assert(facts[rest.index_of(Fact::ControlMessage(id))] == Fact::ControlMessage(id));
                assert(seen(rest).contains(id));
                let k = seen(rest).index_of(id);
                assert(seen(facts)[k] == id);
            }
            if facts.last() is ControlMessage {
                assert(seen(facts)[seen(rest).len() as int] == facts.last()->ControlMessage_0);
            }
            if seen(facts).contains(id) {
                let k = seen(facts).index_of(id);
                if k < seen(rest).len() {
                    assert(seen(rest)[k] == id);
                    assert(seen(rest).contains(id));
                }
            }
        }
    } else {
        assert(seen(facts) =~= facts.filter(keep).map_values(ids));
    }
}

/// Whether an announcement states something else about its snapshot than
/// another does.
pub open spec fn contradicts(held: AnnouncementModel, a: SnapshotAnnouncement) -> bool {
    ||| held.statement.snapshot != a.snapshot
    ||| held.statement.author != a.author
    ||| held.statement.epoch != a.epoch
    ||| held.statement.membership != a.membership
    ||| held.statement.body_root != a.body_root
    ||| held.statement.root_manifest != a.root_manifest
    ||| held.statement.root_manifest_transport != a.root_manifest_transport
}

/// An announcement is committed exactly when the transition it is bound to
/// was observed at its epoch and is canonical, its signature verifies, and
/// nothing that is committed, or else about to be, contradicts it. Then the
/// announcement and the message's id are committed.
pub proof fn law_announcements_commit_exactly_when_they_may(
    known: Map<SnapshotId, AnnouncementModel>,
    staged: Map<SnapshotId, AnnouncementModel>,
    id: ControlMessageId,
    a: SnapshotAnnouncement,
    evidence: Evidence,
)
    ensures
        decide(known, staged, id, Message::SnapshotAnnouncement(a), evidence) is Commit <==> {
            &&& evidence.bound_epoch == Some(a.epoch)
            &&& evidence.signed
            &&& evidence.status == Some(TransitionStatus::Canonical)
            &&& known.contains_key(a.snapshot) ==> !contradicts(known[a.snapshot], a)
            &&& !known.contains_key(a.snapshot) && staged.contains_key(a.snapshot) ==> !contradicts(
                staged[a.snapshot],
                a,
            )
        },
        decide(known, staged, id, Message::SnapshotAnnouncement(a), evidence) matches Decision::Commit(
            facts,
        ) ==> facts.len() == 2 && facts[0] == Fact::Announcement(a) && facts[1]
            == Fact::ControlMessage(id),
{
    assert(forall|m: AnnouncementModel| #[trigger]
        contradicts(m, a) <==> m.statement != a@.statement);
}

/// An announcement waits for its transition where that was not observed,
/// and for a change in its standing where it was observed, is neither
/// canonical nor invalid, and the announcement is good.
pub proof fn law_announcements_wait_exactly_when_they_must(
    known: Map<SnapshotId, AnnouncementModel>,
    staged: Map<SnapshotId, AnnouncementModel>,
    id: ControlMessageId,
    a: SnapshotAnnouncement,
    evidence: Evidence,
    wait: DeferredWait,
)
    ensures
        decide(known, staged, id, Message::SnapshotAnnouncement(a), evidence) == Decision::Defer(
            wait,
        ) <==> {
            ||| evidence.bound_epoch is None && wait == DeferredWait::Unseen(a.membership)
            ||| {
                &&& evidence.bound_epoch == Some(a.epoch)
                &&& evidence.signed
                &&& evidence.status == Some(TransitionStatus::Contested) || evidence.status == Some(
                    TransitionStatus::Voided,
                ) || evidence.status == Some(TransitionStatus::Orphaned) || evidence.status == Some(
                    TransitionStatus::Pending,
                )
                &&& wait == DeferredWait::StatusBlocked(a.membership)
            }
        },
{
}

/// An announcement is dropped for good exactly when it names another epoch
/// than its transition's, is unsigned, is bound to an invalid transition, or
/// contradicts what is known. A good one whose observed transition has no
/// standing fails the pass.
pub proof fn law_bad_announcements_are_suppressed(
    known: Map<SnapshotId, AnnouncementModel>,
    staged: Map<SnapshotId, AnnouncementModel>,
    id: ControlMessageId,
    a: SnapshotAnnouncement,
    evidence: Evidence,
)
    ensures
        decide(known, staged, id, Message::SnapshotAnnouncement(a), evidence) is Suppress
            <==> evidence.bound_epoch is Some && {
            ||| evidence.bound_epoch != Some(a.epoch)
            ||| !evidence.signed
            ||| evidence.status == Some(TransitionStatus::Invalid)
            ||| evidence.status == Some(TransitionStatus::Canonical) && {
                ||| known.contains_key(a.snapshot) && contradicts(known[a.snapshot], a)
                ||| !known.contains_key(a.snapshot) && staged.contains_key(a.snapshot)
                    && contradicts(staged[a.snapshot], a)
            }
        },
        decide(known, staged, id, Message::SnapshotAnnouncement(a), evidence) matches Decision::Fail(
            error,
        ) ==> evidence.bound_epoch == Some(a.epoch) && evidence.signed && evidence.status is None
            && error == EngineError::TransitionUnclassified(a.membership),
        evidence.bound_epoch == Some(a.epoch) && evidence.signed && evidence.status is None
            ==> decide(known, staged, id, Message::SnapshotAnnouncement(a), evidence) is Fail,
{
    assert(forall|m: AnnouncementModel| #[trigger]
        contradicts(m, a) <==> m.statement != a@.statement);
}

/// A membership transition is committed exactly when it parses, together
/// with the message's id, and dropped otherwise. A bare rotation notice is
/// always dropped.
pub proof fn law_transitions_commit_when_they_parse(
    known: Map<SnapshotId, AnnouncementModel>,
    staged: Map<SnapshotId, AnnouncementModel>,
    id: ControlMessageId,
    message: Message,
    evidence: Evidence,
)
    ensures
        message is MembershipTransition ==> match evidence.transition {
            Some(transition) => decide(known, staged, id, message, evidence) matches Decision::Commit(
                facts,
            ) && facts.len() == 2 && facts[0] == Fact::Transition(transition) && facts[1]
                == Fact::ControlMessage(id),
            None => decide(known, staged, id, message, evidence) is Suppress,
        },
        message is KeyRotation ==> decide(known, staged, id, message, evidence) is Suppress,
{
}

/// A capability is committed exactly when it opens, is for the device and
/// epoch that the delivery names, and its own history authorizes it; the
/// committed one is the one that was authorized. A history that does not
/// reach its transition yet makes it wait: for the transition itself where
/// that was not observed, for its standing where it was. Anything else is
/// dropped.
pub proof fn law_capabilities_are_judged_by_their_history(
    known: Map<SnapshotId, AnnouncementModel>,
    staged: Map<SnapshotId, AnnouncementModel>,
    id: ControlMessageId,
    payload: CapabilityPayload,
    evidence: Evidence,
)
    ensures
        ({
            let decision = decide(known, staged, id, Message::Capability(payload), evidence);
            let good = evidence.capability matches Some(capability) && capability.device
                == payload.device && capability.covered_epoch == payload.epoch;
            &&& !good ==> decision is Suppress
            &&& good ==> match evidence.authorization {
                Authorization::Authorized(authorized) => decision matches Decision::Commit(facts)
                    && facts.len() == 2 && facts[0] == Fact::Capability(authorized) && facts[1]
                    == Fact::ControlMessage(id),
                Authorization::UnknownTransition { transition, observed } => decision
                    == Decision::Defer(
                    if observed {
                        DeferredWait::StatusBlocked(transition)
                    } else {
                        DeferredWait::Unseen(transition)
                    },
                ),
                Authorization::Refused => decision is Suppress,
            }
        }),
{
}

/// Whether every binding of a rotation delivery agrees.
pub open spec fn bindings_agree(
    device: DeviceId,
    delivery: RotationDelivery,
    capability: Capability,
    transition: MembershipTransition,
) -> bool {
    &&& delivery.device == device
    &&& capability.device == device
    &&& capability.covered_epoch == delivery.epoch
    &&& capability.transition == transition.id
    &&& transition.epoch == delivery.epoch
}

/// A rotation delivery is committed exactly when its parts open and parse
/// within the limits, every binding agrees, its own history authorizes the
/// capability, and the sender is a member of the epoch granted. Only a gap
/// in the history leaves it for another attempt, only unknown members fail
/// the pass, and anything else drops it for good.
pub proof fn law_rotations_are_judged_by_their_bindings(
    device: DeviceId,
    sender: DeviceId,
    delivery: RotationDelivery,
    evidence: RotationEvidence,
)
    ensures
        ({
            let decision = decide_rotation(device, sender, delivery, evidence);
            let good = evidence.within_limits && evidence.capability is Some
                && evidence.transition is Some && bindings_agree(
                device,
                delivery,
                evidence.capability->0,
                evidence.transition->0,
            );
            &&& !good ==> decision is Suppress
            &&& good ==> match evidence.authorization {
                Authorization::Refused => decision is Suppress,
                Authorization::UnknownTransition { .. } => decision is Skip,
                Authorization::Authorized(authorized) => match evidence.members {
                    None => decision == RotationDecision::Fail(
                        EngineError::TransitionUnclassified(evidence.transition->0.id),
                    ),
                    Some(members) => if exists|i: int|
                        0 <= i < members@.len() && #[trigger] members@[i] == sender {
                        decision == RotationDecision::Commit(evidence.transition->0, authorized)
                    } else {
                        decision is Suppress
                    },
                },
            }
        }),
{
    if let Some(members) = evidence.members {
        if exists|i: int| 0 <= i < members@.len() && #[trigger] members@[i] == sender {
            let i = choose|i: int| 0 <= i < members@.len() && #[trigger] members@[i] == sender;
            assert(members@.contains(sender));
        } else if members@.contains(sender) {
            assert(members@[members@.index_of(sender)] == sender);
        }
    }
}

/// Whether a held message is left alone by a committed transition: it waits
/// for another one.
pub open spec fn asleep(entry: PendingEntry, committed: Option<TransitionId>) -> bool {
    committed matches Some(transition) && entry.wait matches DeferredWait::Unseen(awaited)
        && awaited != transition
}

/// A held message waits for exactly the transition it names, or, where it
/// waits for a change in standing, for any.
pub proof fn law_messages_wake_on_what_they_wait_for(wait: DeferredWait, committed: TransitionId)
    ensures
        wait.wakes(committed) <==> wait is StatusBlocked || wait == DeferredWait::Unseen(committed),
{
}

/// The announcements that a walk had staged when it came to a message.
pub open spec fn staged_before(
    known: Map<SnapshotId, AnnouncementModel>,
    pending: Seq<PendingEntry>,
    evidence: Seq<Evidence>,
    committed: Option<TransitionId>,
    start: Map<SnapshotId, AnnouncementModel>,
    i: int,
) -> Map<SnapshotId, AnnouncementModel> {
    walk(known, pending.take(i), evidence, committed, start).staged
}

/// A walk goes on from where it was: what it had kept, committed and
/// suppressed after some messages comes first in what it has after all.
pub proof fn law_walks_go_in_arrival_order(
    known: Map<SnapshotId, AnnouncementModel>,
    pending: Seq<PendingEntry>,
    evidence: Seq<Evidence>,
    committed: Option<TransitionId>,
    start: Map<SnapshotId, AnnouncementModel>,
    n: int,
)
    requires
        0 <= n <= pending.len(),
    ensures
        ({
            let some = walk(known, pending.take(n), evidence, committed, start);
            let all = walk(known, pending, evidence, committed, start);
            &&& some.facts.len() <= all.facts.len()
            &&& some.facts == all.facts.take(some.facts.len() as int)
            &&& some.suppressed.len() <= all.suppressed.len()
            &&& some.suppressed == all.suppressed.take(some.suppressed.len() as int)
            &&& some.kept.len() <= all.kept.len()
            &&& some.kept == all.kept.take(some.kept.len() as int)
            &&& some.failed is Some ==> all.failed == some.failed
        }),
    decreases pending.len(),
{
    let some = walk(known, pending.take(n), evidence, committed, start);
    let all = walk(known, pending, evidence, committed, start);
    if n == pending.len() {
        assert(pending.take(n) =~= pending);
        assert(all.facts.take(all.facts.len() as int) =~= all.facts);
        assert(all.suppressed.take(all.suppressed.len() as int) =~= all.suppressed);
        assert(all.kept.take(all.kept.len() as int) =~= all.kept);
    } else {
        let rest = pending.drop_last();
        assert(rest.take(n) =~= pending.take(n));
        law_walks_go_in_arrival_order(known, rest, evidence, committed, start, n);
        let before = walk(known, rest, evidence, committed, start);
        assert(all.facts.take(some.facts.len() as int) =~= before.facts.take(
            some.facts.len() as int,
        ));
        assert(all.suppressed.take(some.suppressed.len() as int) =~= before.suppressed.take(
            some.suppressed.len() as int,
        ));
        assert(all.kept.take(some.kept.len() as int) =~= before.kept.take(some.kept.len() as int));
    }
}

/// Unless the walk failed, each held message meets its own fate: left alone
/// it stays as it is, and otherwise it is committed, dropped, or held under
/// its new dependency, as is decided about it.
pub proof fn law_held_messages_meet_their_fate(
    known: Map<SnapshotId, AnnouncementModel>,
    pending: Seq<PendingEntry>,
    evidence: Seq<Evidence>,
    committed: Option<TransitionId>,
    start: Map<SnapshotId, AnnouncementModel>,
    i: int,
)
    requires
        0 <= i < pending.len(),
        walk(known, pending, evidence, committed, start).failed is None,
    ensures
        ({
            let walked = walk(known, pending, evidence, committed, start);
            if asleep(pending[i], committed) {
                walked.kept.contains(pending[i])
            } else {
                match decide(
                    known,
                    staged_before(known, pending, evidence, committed, start, i),
                    pending[i].id,
                    pending[i].message,
                    evidence[i],
                ) {
                    Decision::Commit(facts) => forall|k: int|
                        0 <= k < facts.len() ==> walked.facts.contains(#[trigger] facts[k]),
                    Decision::Suppress => walked.suppressed.contains(pending[i].id),
                    Decision::Defer(wait) => walked.kept.contains(
                        PendingEntry { id: pending[i].id, message: pending[i].message, wait },
                    ),
                    Decision::Fail(_) => false,
                }
            }
        }),
    decreases pending.len(),
{
    let after = walk(known, pending, evidence, committed, start);
    let rest = pending.drop_last();
    let before = walk(known, rest, evidence, committed, start);
    if i == pending.len() - 1 {
        assert(pending.take(i) =~= rest);
        let decision = decide(known, before.staged, pending[i].id, pending[i].message, evidence[i]);
        if asleep(pending[i], committed) {
            assert(after.kept[before.kept.len() as int] == pending[i]);
        } else if let Decision::Commit(facts) = decision {
            assert forall|k: int| 0 <= k < facts.len() implies after.facts.contains(
                #[trigger] facts[k],
            ) by {
                assert(after.facts[before.facts.len() + k] == facts[k]);
            }
        } else if decision is Suppress {
            assert(after.suppressed[before.suppressed.len() as int] == pending[i].id);
        } else if let Decision::Defer(wait) = decision {
            assert(after.kept[before.kept.len() as int] == (PendingEntry {
                id: pending[i].id,
                message: pending[i].message,
                wait,
            }));
        }
    } else {
        assert(rest[i] == pending[i]);
        assert(rest.take(i) =~= pending.take(i));
        law_held_messages_meet_their_fate(known, rest, evidence, committed, start, i);
        assert(forall|x: PendingEntry| #[trigger]
            before.kept.contains(x) ==> after.kept.contains(x)) by {
            assert forall|x: PendingEntry| #[trigger] before.kept.contains(x) implies
                after.kept.contains(x) by {
                assert(after.kept[before.kept.index_of(x)] == x);
            }
        }
        assert forall|x: Fact| #[trigger] before.facts.contains(x) implies after.facts.contains(
            x,
        ) by {
            assert(after.facts[before.facts.index_of(x)] == x);
        }
        assert forall|x: ControlMessageId| #[trigger] before.suppressed.contains(x) implies
            after.suppressed.contains(x) by {
            assert(after.suppressed[before.suppressed.index_of(x)] == x);
        }
    }
}

/// What is decided about a held message when a walk comes to it.
pub open spec fn fate(
    known: Map<SnapshotId, AnnouncementModel>,
    pending: Seq<PendingEntry>,
    evidence: Seq<Evidence>,
    committed: Option<TransitionId>,
    start: Map<SnapshotId, AnnouncementModel>,
    i: int,
) -> Decision {
    decide(
        known,
        staged_before(known, pending, evidence, committed, start, i),
        pending[i].id,
        pending[i].message,
        evidence[i],
    )
}

/// A walk commits nothing of its own: every fact comes from a held message
/// that is awake and to be committed.
pub proof fn law_walks_commit_only_decisions(
    known: Map<SnapshotId, AnnouncementModel>,
    pending: Seq<PendingEntry>,
    evidence: Seq<Evidence>,
    committed: Option<TransitionId>,
    start: Map<SnapshotId, AnnouncementModel>,
    fact: Fact,
)
    requires
        walk(known, pending, evidence, committed, start).facts.contains(fact),
    ensures
        exists|i: int|
            {
                &&& 0 <= i < pending.len()
                &&& !asleep(pending[i], committed)
                &&& #[trigger] fate(known, pending, evidence, committed, start, i)
                    matches Decision::Commit(facts)
                &&& facts.contains(fact)
            },
    decreases pending.len(),
{
    let rest = pending.drop_last();
    let after = walk(known, pending, evidence, committed, start);
    let before = walk(known, rest, evidence, committed, start);
    let last = pending.len() - 1;
    let f = after.facts.index_of(fact);
    assert(after.facts[f] == fact);
    if f < before.facts.len() {
        assert(before.facts[f] == fact);
        law_walks_commit_only_decisions(known, rest, evidence, committed, start, fact);
        let i = choose|i: int|
            {
                &&& 0 <= i < rest.len()
                &&& !asleep(rest[i], committed)
                &&& #[trigger] fate(known, rest, evidence, committed, start, i)
                    matches Decision::Commit(facts)
                &&& facts.contains(fact)
            };
        assert(rest.take(i) =~= pending.take(i));
        assert(fate(known, pending, evidence, committed, start, i) == fate(
            known,
            rest,
            evidence,
            committed,
            start,
            i,
        ));
    } else {
        assert(pending.take(last) =~= rest);
        let decision = fate(known, pending, evidence, committed, start, last);
        let facts = decision->Commit_0;
        assert(facts[f - before.facts.len()] == fact);
    }
}

/// A walk drops nothing of its own: every dropped id is that of a held
/// message that is awake and to be dropped.
pub proof fn law_walks_drop_only_what_is_decided(
    known: Map<SnapshotId, AnnouncementModel>,
    pending: Seq<PendingEntry>,
    evidence: Seq<Evidence>,
    committed: Option<TransitionId>,
    start: Map<SnapshotId, AnnouncementModel>,
    id: ControlMessageId,
)
    requires
        walk(known, pending, evidence, committed, start).suppressed.contains(id),
    ensures
        exists|i: int|
            {
                &&& 0 <= i < pending.len()
                &&& !asleep(pending[i], committed)
                &&& #[trigger] fate(known, pending, evidence, committed, start, i) is Suppress
                &&& pending[i].id == id
            },
    decreases pending.len(),
{
    let rest = pending.drop_last();
    let after = walk(known, pending, evidence, committed, start);
    let before = walk(known, rest, evidence, committed, start);
    let last = pending.len() - 1;
    let s = after.suppressed.index_of(id);
    assert(after.suppressed[s] == id);
    if s < before.suppressed.len() {
        assert(before.suppressed[s] == id);
        law_walks_drop_only_what_is_decided(known, rest, evidence, committed, start, id);
        let i = choose|i: int|
            {
                &&& 0 <= i < rest.len()
                &&& !asleep(rest[i], committed)
                &&& #[trigger] fate(known, rest, evidence, committed, start, i) is Suppress
                &&& rest[i].id == id
            };
        assert(rest.take(i) =~= pending.take(i));
        assert(fate(known, pending, evidence, committed, start, i) == fate(
            known,
            rest,
            evidence,
            committed,
            start,
            i,
        ));
    } else {
        assert(pending.take(last) =~= rest);
        assert(fate(known, pending, evidence, committed, start, last) is Suppress);
    }
}

/// A walk holds nothing of its own: unless it failed, whatever it keeps is a
/// held message that was left alone, as it was, or one that has to wait
/// again, under what it now waits for.
pub proof fn law_walks_keep_only_what_waits(
    known: Map<SnapshotId, AnnouncementModel>,
    pending: Seq<PendingEntry>,
    evidence: Seq<Evidence>,
    committed: Option<TransitionId>,
    start: Map<SnapshotId, AnnouncementModel>,
    entry: PendingEntry,
)
    requires
        walk(known, pending, evidence, committed, start).failed is None,
        walk(known, pending, evidence, committed, start).kept.contains(entry),
    ensures
        exists|i: int|
            {
                &&& 0 <= i < pending.len()
                &&& #[trigger] fate(known, pending, evidence, committed, start, i) == fate(
                    known,
                    pending,
                    evidence,
                    committed,
                    start,
                    i,
                )
                &&& entry.id == pending[i].id
                &&& entry.message == pending[i].message
                &&& if asleep(pending[i], committed) {
                    entry.wait == pending[i].wait
                } else {
                    fate(known, pending, evidence, committed, start, i) == Decision::Defer(
                        entry.wait,
                    )
                }
            },
    decreases pending.len(),
{
    let rest = pending.drop_last();
    let after = walk(known, pending, evidence, committed, start);
    let before = walk(known, rest, evidence, committed, start);
    let last = pending.len() - 1;
    let s = after.kept.index_of(entry);
    assert(after.kept[s] == entry);
    if s < before.kept.len() {
        assert(before.kept[s] == entry);
        law_walks_keep_only_what_waits(known, rest, evidence, committed, start, entry);
        let i = choose|i: int|
            {
                &&& 0 <= i < rest.len()
                &&& #[trigger] fate(known, rest, evidence, committed, start, i) == fate(
                    known,
                    rest,
                    evidence,
                    committed,
                    start,
                    i,
                )
                &&& entry.id == rest[i].id
                &&& entry.message == rest[i].message
                &&& if asleep(rest[i], committed) {
                    entry.wait == rest[i].wait
                } else {
                    fate(known, rest, evidence, committed, start, i) == Decision::Defer(entry.wait)
                }
            };
        assert(rest.take(i) =~= pending.take(i));
        assert(fate(known, pending, evidence, committed, start, i) == fate(
            known,
            rest,
            evidence,
            committed,
            start,
            i,
        ));
    } else {
        assert(pending.take(last) =~= rest);
        let decision = fate(known, pending, evidence, committed, start, last);
    }
}

/// Whether a fact announces a snapshot.
pub open spec fn announces(fact: Fact, snapshot: SnapshotId) -> bool {
    fact matches Fact::Announcement(a) && a.snapshot == snapshot
}

/// What a walk stages is what its facts announce: for each snapshot the
/// last announcement among them, and before any what was staged at the
/// start.
pub proof fn law_walks_stage_what_they_announce(
    known: Map<SnapshotId, AnnouncementModel>,
    pending: Seq<PendingEntry>,
    evidence: Seq<Evidence>,
    committed: Option<TransitionId>,
    start: Map<SnapshotId, AnnouncementModel>,
    snapshot: SnapshotId,
)
    ensures
        ({
            let walked = walk(known, pending, evidence, committed, start);
            &&& (forall|f: int|
                0 <= f < walked.facts.len() ==> !announces(#[trigger] walked.facts[f], snapshot))
                ==> (walked.staged.contains_key(snapshot) <==> start.contains_key(snapshot)) && (
            start.contains_key(snapshot) ==> walked.staged[snapshot] == start[snapshot])
            &&& forall|f: int|
                {
                    &&& 0 <= f < walked.facts.len()
                    &&& announces(#[trigger] walked.facts[f], snapshot)
                    &&& forall|g: int|
                        f < g < walked.facts.len() ==> !announces(
                            #[trigger] walked.facts[g],
                            snapshot,
                        )
                } ==> walked.staged.contains_key(snapshot) && walked.staged[snapshot]
                    == walked.facts[f]->Announcement_0@
        }),
    decreases pending.len(),
{
    if pending.len() > 0 {
        let rest = pending.drop_last();
        let after = walk(known, pending, evidence, committed, start);
        let before = walk(known, rest, evidence, committed, start);
        let entry = pending.last();
        law_walks_stage_what_they_announce(known, rest, evidence, committed, start, snapshot);
        let decision = decide(
            known,
            before.staged,
            entry.id,
            entry.message,
            evidence[pending.len() - 1],
        );
        assert forall|f: int| 0 <= f < before.facts.len() implies after.facts[f]
            == #[trigger] before.facts[f] by {}
        if before.failed is None && !asleep(entry, committed) && decision is Commit {
            let facts = decision->Commit_0;
            assert(facts.len() == 2);
            let n = before.facts.len() as int;
            assert(after.facts.len() == n + 2);
            assert(after.facts[n] == facts[0]);
            assert(after.facts[n + 1] == facts[1]);
            if announces(facts[0], snapshot) {
                assert(after.staged[snapshot] == facts[0]->Announcement_0@);
                assert forall|f: int|
                    {
                        &&& 0 <= f < after.facts.len()
                        &&& announces(#[trigger] after.facts[f], snapshot)
                        &&& forall|g: int|
                            f < g < after.facts.len() ==> !announces(
                                #[trigger] after.facts[g],
                                snapshot,
                            )
                    } implies after.staged.contains_key(snapshot) && after.staged[snapshot]
                    == after.facts[f]->Announcement_0@ by {
                    assert(f <= n + 1);
                    if f < n {
                        assert(announces(after.facts[n], snapshot));
                    }
                }
                assert(announces(after.facts[n], snapshot));
            } else {
                assert(after.staged.contains_key(snapshot) == before.staged.contains_key(snapshot));
                assert forall|f: int|
                    {
                        &&& 0 <= f < after.facts.len()
                        &&& announces(#[trigger] after.facts[f], snapshot)
                        &&& forall|g: int|
                            f < g < after.facts.len() ==> !announces(
                                #[trigger] after.facts[g],
                                snapshot,
                            )
                    } implies after.staged.contains_key(snapshot) && after.staged[snapshot]
                    == after.facts[f]->Announcement_0@ by {
                    assert(f < n);
                    assert(before.facts[f] == after.facts[f]);
                    assert forall|g: int| f < g < before.facts.len() implies !announces(
                        #[trigger] before.facts[g],
                        snapshot,
                    ) by {
                        assert(after.facts[g] == before.facts[g]);
                    }
                }
                if forall|f: int|
                    0 <= f < after.facts.len() ==> !announces(
                        #[trigger] after.facts[f],
                        snapshot,
                    ) {
                    assert forall|f: int| 0 <= f < before.facts.len() implies !announces(
                        #[trigger] before.facts[f],
                        snapshot,
                    ) by {
                        assert(after.facts[f] == before.facts[f]);
                    }
                }
            }
        } else {
            assert(after.facts =~= before.facts);
            assert(after.staged == before.staged);
        }
    }
}

/// An announcement joins its batch exactly when it is committed, under its
/// own snapshot; no other message does.
pub proof fn law_committed_announcements_join_the_batch(
    staged: Map<SnapshotId, AnnouncementModel>,
    message: Message,
    decision: Decision,
)
    ensures
        message matches Message::SnapshotAnnouncement(a) ==> decision is Commit ==> stage(
            staged,
            message,
            decision,
        ) == staged.insert(a.snapshot, a@),
        !(message is SnapshotAnnouncement && decision is Commit) ==> stage(
            staged,
            message,
            decision,
        ) == staged,
{
}

} // verus!
