//! What holds of the runtime state across operations.

use vstd::prelude::*;

use crate::ids::{ContentId, DriveId, SnapshotId, StorageId};
use crate::model::{
    AnnouncementUpdate, ManifestEntry, ManifestModel, ManifestRecord, ObjectKind, Snapshot,
    SnapshotAnnouncement,
};
use crate::order::{in_order, lemma_in_order, lists, Key};
use crate::runtime::listing::{
    entry_at, holds_entry, holds_link, lemma_before_position, lemma_entries, lemma_first_link,
    lemma_links, lemma_position, link_at, position, seen_first,
};
use crate::runtime::obligations::ObligationsView;
use crate::runtime::state::{
    candidate_of, entries_of, is_root_of, links_of, links_to, records_in_order, roots_clash,
    MaterializationState, PendingObjectFetch, RuntimeError, RuntimeReconcile, RuntimeView,
};

verus! {

/// Recording an announcement that was accepted once more is accepted,
/// reports no news and changes nothing.
pub proof fn law_announcement_replay(
    v: RuntimeView,
    first: SnapshotAnnouncement,
    again: SnapshotAnnouncement,
)
    requires
        v.announcement_refusal(&first) is None,
        first.update(&again) == AnnouncementUpdate::Same,
    ensures
        v.with_announcement(first).announcement_refusal(&again) is None,
        !v.with_announcement(first).announcement_news(&again),
        v.with_announcement(first).with_announcement(again) == v.with_announcement(first),
{
    assert(first.statement() == again.statement());
    assert(first.statement().snapshot == again.statement().snapshot);
    assert(first.statement().author == again.statement().author);
    assert(first.statement().epoch == again.statement().epoch);
    assert(first.statement().membership == again.statement().membership);
    let id = first.snapshot;
    if !v.announcement_news(&first) {
        let known = v.announcements[id];
        assert(known.update(&first) == AnnouncementUpdate::Same);
        assert(known.statement() == again.statement());
        assert(known.update(&again) == AnnouncementUpdate::Same);
    }
}

/// No accepted announcement changes the statement known for a snapshot:
/// only its route can change.
pub proof fn law_statements_never_change(
    v: RuntimeView,
    announcement: SnapshotAnnouncement,
    snapshot: SnapshotId,
)
    requires
        v.announcement_refusal(&announcement) is None,
        v.announcements.contains_key(snapshot),
    ensures
        v.with_announcement(announcement).announcements.contains_key(snapshot),
        v.with_announcement(announcement).announcements[snapshot].statement()
            == v.announcements[snapshot].statement(),
{
}

/// Announcement and body of one snapshot may be recorded in either order:
/// whichever comes second is refused exactly when they disagree, and
/// otherwise both orders build the same state.
pub proof fn law_pairing_is_order_agnostic(
    v: RuntimeView,
    announcement: SnapshotAnnouncement,
    body: Snapshot,
)
    requires
        announcement.snapshot == body.id,
        !v.announcements.contains_key(body.id),
        !v.bodies.contains_key(body.id),
    ensures
        v.announcement_refusal(&announcement) is None,
        v.body_refusal(&body) is None,
        v.with_announcement(announcement).body_refusal(&body) is None <==> announcement.describes(
            &body,
        ),
        v.with_body(body).announcement_refusal(&announcement) is None <==> announcement.describes(
            &body,
        ),
        v.with_announcement(announcement).with_body(body) == v.with_body(body).with_announcement(
            announcement,
        ),
{
    assert(v.with_announcement(announcement).with_body(body) =~= v.with_body(
        body,
    ).with_announcement(announcement));
}

/// In every state that facts can build, a recorded body is the one that
/// the recorded announcement describes.
pub proof fn law_pairs_agree(v: RuntimeView, snapshot: SnapshotId)
    requires
        v.consistent(),
        v.announcements.contains_key(snapshot),
        v.bodies.contains_key(snapshot),
    ensures
        v.announcements[snapshot].describes(&v.bodies[snapshot]),
{
}

/// Recording a manifest again is accepted and leaves its representations
/// and its first root as they were.
pub proof fn law_manifest_replay(
    v: RuntimeView,
    first: ManifestRecord,
    again: ManifestRecord,
    derived: ContentId,
    after: RuntimeView,
)
    requires
        v.manifest_refusal(&first, derived) is None,
        !v.manifests.contains_key(first.manifest_id),
        again.alike(&first),
        v.with_manifest(first).with_merged(&again, after),
    ensures
        v.with_manifest(first).manifest_refusal(&again, derived) is None,
        after.manifests[first.manifest_id].alike(&first),
        after.roots == v.with_manifest(first).roots,
        after.parents == v.with_manifest(first).parents,
{
    let w = v.with_manifest(first);
    let held = w.manifests[first.manifest_id];
    assert(held == first);
    assert(!roots_clash(held.representations@, again.representations@));
    assert(held.representations@.union_prefer_right(again.representations@)
        =~= first.representations@);
}

/// Representations are never lost, and a storage id never changes the
/// transport root behind it.
pub proof fn law_representations_only_grow(
    v: RuntimeView,
    record: ManifestRecord,
    derived: ContentId,
    after: RuntimeView,
    storage: StorageId,
)
    requires
        v.manifest_refusal(&record, derived) is None,
        v.manifests.contains_key(record.manifest_id),
        v.with_merged(&record, after),
        v.manifests[record.manifest_id].representations@.contains_key(storage),
    ensures
        after.manifests[record.manifest_id].representations@.contains_key(storage),
        after.manifests[record.manifest_id].representations@[storage]
            == v.manifests[record.manifest_id].representations@[storage],
{
    let held = v.manifests[record.manifest_id];
    if record.representations@.contains_key(storage) {
        assert(!roots_clash(held.representations@, record.representations@));
    }
}

/// In every state that facts can build, a manifest with representations
/// serves its first root from among them.
pub proof fn law_first_root_is_represented(v: RuntimeView, manifest: ContentId)
    requires
        v.consistent(),
        v.manifests.contains_key(manifest),
    ensures
        v.manifests[manifest].represented(),
{
}

/// A child manifest belongs to one snapshot: all recorded manifests that
/// link to it are of that snapshot.
pub proof fn law_children_have_one_owner(
    v: RuntimeView,
    a: ContentId,
    b: ContentId,
    child: ContentId,
)
    requires
        v.consistent(),
        links_to(v.manifests, a, child),
        links_to(v.manifests, b, child),
    ensures
        v.manifests[a].manifest.snapshot == v.manifests[b].manifest.snapshot,
        v.parents.get(child) == Some(v.manifests[a].manifest.snapshot),
{
}

/// The announced root manifest, once recorded, is the one served: no
/// further root recorded for the snapshot can displace it.
pub proof fn law_announced_root_wins(v: RuntimeView, snapshot: SnapshotId)
    requires
        v.consistent(),
        v.announcements.contains_key(snapshot),
        is_root_of(v.manifests, v.announcements[snapshot].root_manifest, snapshot),
    ensures
        v.root_manifest(snapshot) == Some(v.announcements[snapshot].root_manifest),
{
}

/// Without an announced root, the smallest recorded root is served.
pub proof fn law_smallest_root_otherwise(v: RuntimeView, snapshot: SnapshotId)
    requires
        v.consistent(),
        v.roots.contains_key(snapshot),
        !(v.announcements.contains_key(snapshot) && is_root_of(
            v.manifests,
            v.announcements[snapshot].root_manifest,
            snapshot,
        )),
    ensures
        v.root_manifest(snapshot) matches Some(root) && is_root_of(v.manifests, root, snapshot) && (
        forall|m: ContentId|
            is_root_of(v.manifests, m, snapshot) ==> m == root || #[trigger] ContentId::before(
                root,
                m,
            )),
{
    let members = in_order::<ContentId>(v.roots[snapshot]);
    v.lemma_orders();
    let m = choose|m: ContentId| #[trigger] v.roots[snapshot].contains(m);
    assert(members.contains(m));
    assert(members.contains(members[0]));
    assert(v.roots[snapshot].contains(members[0]));
    assert forall|m: ContentId| is_root_of(v.manifests, m, snapshot) implies m == members[0]
        || #[trigger] ContentId::before(members[0], m) by {
        assert(v.roots[snapshot].contains(m));
        assert(members.contains(m));
        let i = members.index_of(m);
        assert(members[i] == m);
    }
}

/// A snapshot serves a root manifest exactly when one is recorded for it.
pub proof fn law_recorded_roots_are_served(v: RuntimeView, snapshot: SnapshotId)
    requires
        v.consistent(),
    ensures
        v.root_manifest(snapshot) is Some <==> exists|m: ContentId| #[trigger]
            is_root_of(v.manifests, m, snapshot),
        v.root_manifest(snapshot) matches Some(root) ==> is_root_of(v.manifests, root, snapshot),
{
    if v.roots.contains_key(snapshot) {
        let m = choose|m: ContentId| #[trigger] v.roots[snapshot].contains(m);
        assert(is_root_of(v.manifests, m, snapshot));
        if !(v.announcements.contains_key(snapshot) && is_root_of(
            v.manifests,
            v.announcements[snapshot].root_manifest,
            snapshot,
        )) {
            law_smallest_root_otherwise(v, snapshot);
        }
    }
}

/// Whether every recorded manifest bears the identity that it hashes to.
/// `identity` says which content ids a manifest can hash to.
pub open spec fn identified(
    v: RuntimeView,
    identity: spec_fn(ManifestModel, ContentId) -> bool,
) -> bool {
    forall|m: ContentId| #[trigger]
        v.manifests.contains_key(m) ==> identity(v.manifests[m].manifest@, m)
}

/// A step of a state's history: a manifest is offered together with the
/// identity that it hashes to, or something else than manifests is
/// recorded.
pub open spec fn identifies(
    before: RuntimeView,
    after: RuntimeView,
    identity: spec_fn(ManifestModel, ContentId) -> bool,
) -> bool {
    ||| after.manifests == before.manifests
    ||| exists|record: ManifestRecord, derived: ContentId, r: Result<bool, RuntimeError>|
        {
            &&& #[trigger] before.records_manifest(&record, derived, after, r)
            &&& identity(record.manifest@, derived)
        }
}

/// Recording a manifest keeps every recorded manifest under the identity
/// that it hashes to.
pub proof fn law_recording_keeps_identities(
    before: RuntimeView,
    record: ManifestRecord,
    derived: ContentId,
    after: RuntimeView,
    r: Result<bool, RuntimeError>,
    identity: spec_fn(ManifestModel, ContentId) -> bool,
)
    requires
        identified(before, identity),
        before.records_manifest(&record, derived, after, r),
        identity(record.manifest@, derived),
    ensures
        identified(after, identity),
{
    assert forall|m: ContentId| #[trigger] after.manifests.contains_key(m) implies identity(
        after.manifests[m].manifest@,
        m,
    ) by {
        assert(after.manifests.dom().contains(m));
        if m != record.manifest_id || before.manifests.contains_key(m) {
            assert(before.manifests.dom().contains(m));
            assert(before.manifests.contains_key(m));
        }
    }
}

/// In every state of a history that starts empty, every recorded manifest
/// hashes to its id.
pub proof fn law_recorded_manifests_hash_to_their_ids(
    drive: DriveId,
    history: Seq<RuntimeView>,
    n: int,
    identity: spec_fn(ManifestModel, ContentId) -> bool,
)
    requires
        history.len() > 0,
        history[0] == RuntimeView::empty(drive),
        forall|i: int|
            0 <= i < history.len() - 1 ==> identifies(
                #[trigger] history[i],
                history[i + 1],
                identity,
            ),
        0 <= n < history.len(),
    ensures
        identified(history[n], identity),
    decreases n,
{
    if n > 0 {
        law_recorded_manifests_hash_to_their_ids(drive, history, n - 1, identity);
        let before = history[n - 1];
        let after = history[n - 1 + 1];
        assert(identifies(before, after, identity));
        if after.manifests != before.manifests {
            let (record, derived, r) = choose|
                record: ManifestRecord,
                derived: ContentId,
                r: Result<bool, RuntimeError>,
            |
                {
                    &&& #[trigger] before.records_manifest(&record, derived, after, r)
                    &&& identity(record.manifest@, derived)
                };
            law_recording_keeps_identities(before, record, derived, after, r, identity);
        }
    }
}

/// Nothing recorded, nothing to fetch.
pub proof fn law_empty_state_plans_nothing(drive: DriveId, plan: RuntimeReconcile)
    requires
        RuntimeView::empty(drive).plans(&plan),
    ensures
        plan.pending_snapshots@ == Set::<SnapshotId>::empty(),
        plan.pending_snapshot_bodies@ == Set::<SnapshotId>::empty(),
        plan.pending_manifests@.dom() == Set::<ContentId>::empty(),
        plan.pending_objects@.dom() == Set::<ContentId>::empty(),
{
    let v = RuntimeView::empty(drive);
    let none = Seq::<ContentId>::empty();
    assert(lists(none, v.manifests.dom()));
    lemma_in_order::<ContentId>(none, v.manifests.dom());
    assert(records_in_order(v.manifests).len() == 0);
    assert(plan.pending_snapshots@ =~= Set::<SnapshotId>::empty());
    assert(plan.pending_snapshot_bodies@ =~= Set::<SnapshotId>::empty());
    assert(plan.pending_manifests@.dom() =~= Set::<ContentId>::empty());
    assert(plan.pending_objects@.dom() =~= Set::<ContentId>::empty());
}

/// A recorded body is no longer wanted.
pub proof fn law_recorded_body_leaves_the_plan(
    v: RuntimeView,
    body: Snapshot,
    plan: RuntimeReconcile,
)
    requires
        v.with_body(body).plans(&plan),
    ensures
        !plan.pending_snapshot_bodies@.contains(body.id),
{
}

/// A recorded manifest is no longer wanted, and a recorded root resolves
/// its snapshot; a child manifest does not.
pub proof fn law_recorded_manifest_leaves_the_plan(
    v: RuntimeView,
    record: ManifestRecord,
    plan: RuntimeReconcile,
)
    requires
        v.with_manifest(record).plans(&plan),
    ensures
        !plan.pending_manifests@.contains_key(record.manifest_id),
        record.is_root ==> !plan.pending_snapshots@.contains(record.manifest.snapshot),
        !record.is_root ==> (plan.pending_snapshots@.contains(record.manifest.snapshot)
            <==> v.announcements.contains_key(record.manifest.snapshot) && !v.roots.contains_key(
            record.manifest.snapshot,
        )),
{
}

proof fn lemma_candidates_of(
    v: RuntimeView,
    entries: Seq<ManifestEntry>,
    content: ContentId,
)
    ensures
        forall|i: int|
            0 <= i < entries.len() && (#[trigger] entries[i]).content_id == content && v.wants(
                entries[i],
            ) ==> v.candidates(entries, content).contains(candidate_of(entries[i])),
        forall|c: PendingObjectFetch| #[trigger]
            v.candidates(entries, content).contains(c) ==> exists|i: int|
                0 <= i < entries.len() && (#[trigger] entries[i]).content_id == content && v.wants(
                    entries[i],
                ) && c == candidate_of(entries[i]),
        v.candidates(entries, content).no_duplicates(),
    decreases entries.len(),
{
    let all = v.candidates(entries, content);
    if entries.len() > 0 {
        let init = entries.drop_last();
        let last = entries.last();
        lemma_candidates_of(v, init, content);
        let earlier = v.candidates(init, content);
        assert forall|i: int|
            0 <= i < entries.len() && (#[trigger] entries[i]).content_id == content && v.wants(
                entries[i],
            ) implies all.contains(candidate_of(entries[i])) by {
            if i < init.len() {
                assert(init[i] == entries[i]);
                assert(earlier.contains(candidate_of(init[i])));
                let j = earlier.index_of(candidate_of(init[i]));
                assert(earlier[j] == candidate_of(init[i]));
                assert(all[j] == candidate_of(init[i]));
            } else if !earlier.contains(candidate_of(last)) {
                assert(all[all.len() - 1] == candidate_of(last));
            }
        }
        assert forall|c: PendingObjectFetch| #[trigger] all.contains(c) implies exists|i: int|
            0 <= i < entries.len() && (#[trigger] entries[i]).content_id == content && v.wants(
                entries[i],
            ) && c == candidate_of(entries[i]) by {
            let j = all.index_of(c);
            assert(all[j] == c);
            if j < earlier.len() {
                assert(earlier[j] == c);
                assert(earlier.contains(c));
                let i = choose|i: int|
                    0 <= i < init.len() && (#[trigger] init[i]).content_id == content && v.wants(
                        init[i],
                    ) && c == candidate_of(init[i]);
                assert(entries[i] == init[i]);
            } else {
                assert(entries[entries.len() - 1] == last);
            }
        }
    }
}

/// Whoever comes first among the candidates was first seen before any
/// sighting of the other.
proof fn lemma_candidate_order(
    v: RuntimeView,
    entries: Seq<ManifestEntry>,
    content: ContentId,
    a: int,
    b: int,
    q: int,
) -> (p: int)
    requires
        0 <= a < b < v.candidates(entries, content).len(),
        0 <= q < entries.len(),
        entries[q].content_id == content,
        v.wants(entries[q]),
        candidate_of(entries[q]) == v.candidates(entries, content)[b],
    ensures
        0 <= p < q,
        entries[p].content_id == content,
        v.wants(entries[p]),
        candidate_of(entries[p]) == v.candidates(entries, content)[a],
    decreases entries.len(),
{
    let all = v.candidates(entries, content);
    let init = entries.drop_last();
    let earlier = v.candidates(init, content);
    lemma_candidates_of(v, entries, content);
    lemma_candidates_of(v, init, content);
    if q < init.len() {
        assert(init[q] == entries[q]);
        assert(earlier.contains(candidate_of(init[q])));
        let j = earlier.index_of(candidate_of(init[q]));
        assert(earlier[j] == all[j]);
        assert(all[j] == all[b]);
        assert(j == b);
        let p = lemma_candidate_order(v, init, content, a, b, q);
        assert(init[p] == entries[p]);
        p
    } else if b < earlier.len() {
        assert(earlier.contains(earlier[b]));
        let sooner = choose|i: int|
            0 <= i < init.len() && (#[trigger] init[i]).content_id == content && v.wants(init[i])
                && earlier[b] == candidate_of(init[i]);
        let p = lemma_candidate_order(v, init, content, a, b, sooner);
        assert(init[p] == entries[p]);
        p
    } else {
        assert(earlier.contains(earlier[a]));
        let p = choose|i: int|
            0 <= i < init.len() && (#[trigger] init[i]).content_id == content && v.wants(init[i])
                && earlier[a] == candidate_of(init[i]);
        assert(init[p] == entries[p]);
        p
    }
}

/// Whether a recorded manifest holds, at a place, an entry that asks for a
/// candidate.
pub open spec fn asks_at(
    v: RuntimeView,
    manifest: ContentId,
    place: int,
    content: ContentId,
    candidate: PendingObjectFetch,
) -> bool {
    exists|entry: ManifestEntry|
        {
            &&& #[trigger] entry_at(v.manifests, manifest, place, entry)
            &&& entry.content_id == content
            &&& v.wants(entry)
            &&& candidate == candidate_of(entry)
        }
}

/// The candidates of a planned object are what the wanted entries of the
/// recorded manifests ask for: one for each of them, none for anything
/// else, and none twice. The same representation in several manifests is
/// fetched once, and no alternative representation is lost.
pub proof fn law_candidates_are_the_distinct_wanted_mappings(
    v: RuntimeView,
    plan: RuntimeReconcile,
    content: ContentId,
)
    requires
        v.consistent(),
        v.plans(&plan),
        plan.pending_objects@.contains_key(content),
    ensures
        plan.pending_objects@[content]@.no_duplicates(),
        forall|entry: ManifestEntry| #[trigger]
            holds_entry(v.manifests, entry) && entry.content_id == content && v.wants(entry)
                ==> plan.pending_objects@[content]@.contains(candidate_of(entry)),
        forall|c: PendingObjectFetch| #[trigger]
            plan.pending_objects@[content]@.contains(c) ==> exists|entry: ManifestEntry|
                #[trigger] holds_entry(v.manifests, entry) && entry.content_id == content
                    && v.wants(entry) && c == candidate_of(entry),
{
    let entries = entries_of(records_in_order(v.manifests));
    let candidates = plan.pending_objects@[content]@;
    lemma_candidates_of(v, entries, content);
    assert forall|entry: ManifestEntry| #[trigger]
        holds_entry(v.manifests, entry) && entry.content_id == content && v.wants(
            entry,
        ) implies candidates.contains(candidate_of(entry)) by {
        lemma_entries(v, entry);
        assert(entries[entries.index_of(entry)] == entry);
    }
    assert forall|c: PendingObjectFetch| #[trigger] candidates.contains(c) implies exists|
        entry: ManifestEntry,
    | #[trigger]
        holds_entry(v.manifests, entry) && entry.content_id == content && v.wants(entry) && c
            == candidate_of(entry) by {
        let i = choose|i: int|
            0 <= i < entries.len() && (#[trigger] entries[i]).content_id == content && v.wants(
                entries[i],
            ) && c == candidate_of(entries[i]);
        assert(entries.contains(entries[i]));
        lemma_entries(v, entries[i]);
    }
}

/// The candidates of a planned object stand in first-seen order: whatever
/// place asks for the later of two, a place that is seen first asks for the
/// earlier. Places are seen in manifest-id order, and in entry order within
/// a manifest.
pub proof fn law_candidates_stand_in_first_seen_order(
    v: RuntimeView,
    plan: RuntimeReconcile,
    content: ContentId,
    a: int,
    b: int,
    manifest: ContentId,
    place: int,
)
    requires
        v.consistent(),
        v.plans(&plan),
        plan.pending_objects@.contains_key(content),
        0 <= a < b < plan.pending_objects@[content]@.len(),
        asks_at(v, manifest, place, content, plan.pending_objects@[content]@[b]),
    ensures
        exists|m: ContentId, k: int|
            #[trigger] asks_at(v, m, k, content, plan.pending_objects@[content]@[a]) && seen_first(
                m,
                k,
                manifest,
                place,
            ),
{
    let entries = entries_of(records_in_order(v.manifests));
    let candidates = plan.pending_objects@[content]@;
    assert(candidates == v.candidates(entries, content));
    let entry = choose|entry: ManifestEntry|
        {
            &&& #[trigger] entry_at(v.manifests, manifest, place, entry)
            &&& entry.content_id == content
            &&& v.wants(entry)
            &&& candidates[b] == candidate_of(entry)
        };
    lemma_position(v, manifest, place, entry);
    let p = lemma_candidate_order(v, entries, content, a, b, position(v, manifest, place));
    let at = lemma_before_position(v, p, manifest, place);
    assert(entry_at(v.manifests, at.0, at.1, entries[p]));
    assert(asks_at(v, at.0, at.1, content, candidates[a]));
}

/// A content is planned exactly when it is not local and a recorded
/// manifest maps it as a directory node, or as anything the residency
/// policy asks for.
pub proof fn law_wanted_objects_are_planned(
    v: RuntimeView,
    plan: RuntimeReconcile,
    content: ContentId,
)
    requires
        v.consistent(),
        v.plans(&plan),
    ensures
        plan.pending_objects@.contains_key(content) <==> !v.local.contains(content) && exists|
            entry: ManifestEntry,
        | #[trigger]
            holds_entry(v.manifests, entry) && entry.content_id == content && (entry.kind
                == ObjectKind::Tree || v.desired(content) != MaterializationState::RemoteOnly),
{
    let entries = entries_of(records_in_order(v.manifests));
    let all = v.candidates(entries, content);
    lemma_candidates_of(v, entries, content);
    if plan.pending_objects@.contains_key(content) {
        assert(all.contains(all[0]));
        let i = choose|i: int|
            0 <= i < entries.len() && (#[trigger] entries[i]).content_id == content && v.wants(
                entries[i],
            ) && all[0] == candidate_of(entries[i]);
        assert(entries.contains(entries[i]));
        lemma_entries(v, entries[i]);
    }
    if !v.local.contains(content) && exists|entry: ManifestEntry| #[trigger]
        holds_entry(v.manifests, entry) && entry.content_id == content && (entry.kind
            == ObjectKind::Tree || v.desired(content) != MaterializationState::RemoteOnly) {
        let entry = choose|entry: ManifestEntry| #[trigger]
            holds_entry(v.manifests, entry) && entry.content_id == content && (entry.kind
                == ObjectKind::Tree || v.desired(content) != MaterializationState::RemoteOnly);
        lemma_entries(v, entry);
        let i = entries.index_of(entry);
        assert(entries[i] == entry);
        assert(all.contains(candidate_of(entries[i])));
        assert(all[all.index_of(candidate_of(entry))] == candidate_of(entry));
    }
}

/// The planned manifests are exactly the children that a recorded manifest
/// links to and that are not recorded themselves, each by a link that names
/// it.
pub proof fn law_planned_manifests_are_the_missing_children(
    v: RuntimeView,
    plan: RuntimeReconcile,
    child: ContentId,
)
    requires
        v.consistent(),
        v.plans(&plan),
    ensures
        plan.pending_manifests@.contains_key(child) <==> !v.manifests.contains_key(child) && exists|
            m: ContentId,
        | #[trigger] links_to(v.manifests, m, child),
        plan.pending_manifests@.contains_key(child) ==> holds_link(
            v.manifests,
            plan.pending_manifests@[child],
        ) && plan.pending_manifests@[child].manifest == child,
{
    let links = links_of(records_in_order(v.manifests));
    lemma_first_link(links, child);
    if plan.pending_manifests@.contains_key(child) {
        let link = plan.pending_manifests@[child];
        lemma_links(v, link);
        let (m, place) = choose|m: ContentId, place: int| #[trigger]
            link_at(v.manifests, m, place, link);
        assert(v.manifests[m].manifest.children@[place].manifest == child);
        assert(links_to(v.manifests, m, child));
    }
    if exists|m: ContentId| #[trigger] links_to(v.manifests, m, child) {
        let m = choose|m: ContentId| #[trigger] links_to(v.manifests, m, child);
        let children = v.manifests[m].manifest.children@;
        let i = choose|i: int| 0 <= i < children.len() && (#[trigger] children[i]).manifest
            == child;
        assert(link_at(v.manifests, m, i, children[i]));
        lemma_links(v, children[i]);
        assert(links.contains(children[i]));
    }
}

/// What is local is never planned.
pub proof fn law_local_objects_leave_the_plan(
    v: RuntimeView,
    plan: RuntimeReconcile,
    content: ContentId,
)
    requires
        v.plans(&plan),
        v.local.contains(content),
    ensures
        !plan.pending_objects@.contains_key(content),
{
    let entries = entries_of(records_in_order(v.manifests));
    lemma_candidates_of(v, entries, content);
    let all = v.candidates(entries, content);
    if all.len() > 0 {
        assert(all.contains(all[0]));
    }
}

/// Remote-only content stays out of the plan unless a recorded manifest
/// maps it as a directory node.
pub proof fn law_remote_only_content_is_not_planned(
    v: RuntimeView,
    plan: RuntimeReconcile,
    content: ContentId,
)
    requires
        v.consistent(),
        v.plans(&plan),
        v.desired(content) == MaterializationState::RemoteOnly,
        forall|entry: ManifestEntry| #[trigger]
            holds_entry(v.manifests, entry) && entry.content_id == content ==> entry.kind
                != ObjectKind::Tree,
    ensures
        !plan.pending_objects@.contains_key(content),
{
    law_wanted_objects_are_planned(v, plan, content);
}

/// Queueing and discharging commute, and repeating either changes nothing.
pub proof fn law_obligations_replay<Q>(o: ObligationsView<Q>, a: Q, b: Q)
    ensures
        o.queue(a).discharge(b) == o.discharge(b).queue(a),
        o.queue(a).queue(a) == o.queue(a),
        o.discharge(a).discharge(a) == o.discharge(a),
{
    assert(o.queue(a).queue(a) =~= o.queue(a));
    assert(o.discharge(a).discharge(a) =~= o.discharge(a));
}

/// An obligation is owed from the moment it is queued until it is
/// discharged, and never again after that.
pub proof fn law_obligations_are_paid_once<Q>(o: ObligationsView<Q>, item: Q, other: Q)
    ensures
        !o.discharged.contains(item) ==> o.queue(item).pending().contains(item),
        !o.discharge(item).pending().contains(item),
        !o.discharge(item).queue(item).pending().contains(item),
        o.discharge(item).covered(item),
        other != item ==> (o.discharge(item).pending().contains(other) <==> o.pending().contains(
            other,
        )),
{
}

} // verus!
