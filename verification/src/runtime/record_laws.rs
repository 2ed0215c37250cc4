//! What recording a fact refuses, and what it changes.

use vstd::prelude::*;

use crate::ids::{BaoRoot, ContentId, SnapshotId, StorageId};
use crate::model::{
    AnnouncementUpdate, ChildManifest, ManifestRecord, Snapshot, SnapshotAnnouncement,
};
use crate::runtime::obligations::ObligationsView;
use crate::runtime::state::{
    first_clash, is_root_of, link_children, links_to, roots_clash, RuntimeError, RuntimeView,
};

verus! {

/// Whether two announcements state the same of a snapshot.
pub open spec fn same_statement(a: SnapshotAnnouncement, b: SnapshotAnnouncement) -> bool {
    &&& a.snapshot == b.snapshot
    &&& a.author == b.author
    &&& a.epoch == b.epoch
    &&& a.membership == b.membership
    &&& a.body_root == b.body_root
    &&& a.root_manifest == b.root_manifest
    &&& a.root_manifest_transport == b.root_manifest_transport
}

/// Whether two announcements name the same route bytes, or none.
pub open spec fn same_route(a: SnapshotAnnouncement, b: SnapshotAnnouncement) -> bool {
    match (a.node_addr, b.node_addr) {
        (Some(x), Some(y)) => x@ == y@,
        (None, None) => true,
        _ => false,
    }
}

/// Whether a body has the author, the epoch and the membership that an
/// announcement names.
pub open spec fn matches_body(a: SnapshotAnnouncement, body: Snapshot) -> bool {
    a.author == body.author && a.epoch == body.epoch && a.membership == body.membership
}

/// A reannouncement forks exactly when it states something else, repeats
/// exactly when statement, route and signature are the same, and updates the
/// route otherwise.
pub proof fn law_reannouncements_are_classified(a: SnapshotAnnouncement, b: SnapshotAnnouncement)
    ensures
        a.update(&b) == AnnouncementUpdate::Fork <==> !same_statement(a, b),
        a.update(&b) == AnnouncementUpdate::Same <==> same_statement(a, b) && same_route(a, b)
            && a.signature@ == b.signature@,
        a.update(&b) == AnnouncementUpdate::RouteUpdate <==> same_statement(a, b) && !(same_route(
            a,
            b,
        ) && a.signature@ == b.signature@),
{
}

/// An announcement is refused exactly when the recorded body is not the one
/// it describes, or another statement about the snapshot is recorded.
pub proof fn law_announcements_are_refused_when_they_contradict(
    v: RuntimeView,
    a: SnapshotAnnouncement,
)
    ensures
        v.announcement_refusal(&a) == Some(
            RuntimeError::AnnouncementBodyMismatch { snapshot: a.snapshot },
        ) <==> v.bodies.contains_key(a.snapshot) && !matches_body(a, v.bodies[a.snapshot]),
        v.announcement_refusal(&a) == Some(
            RuntimeError::ConflictingAnnouncement { snapshot: a.snapshot },
        ) <==> (v.bodies.contains_key(a.snapshot) ==> matches_body(a, v.bodies[a.snapshot]))
            && v.announcements.contains_key(a.snapshot) && !same_statement(
            v.announcements[a.snapshot],
            a,
        ),
        v.announcement_refusal(&a) is None <==> (v.bodies.contains_key(a.snapshot) ==> matches_body(
            a,
            v.bodies[a.snapshot],
        )) && (v.announcements.contains_key(a.snapshot) ==> same_statement(
            v.announcements[a.snapshot],
            a,
        )),
{
}

/// An accepted announcement is what is recorded for its snapshot from then
/// on, unless exactly it was recorded already; nothing else changes.
pub proof fn law_accepted_announcements_are_recorded(
    v: RuntimeView,
    a: SnapshotAnnouncement,
    other: SnapshotId,
)
    requires
        v.announcement_refusal(&a) is None,
    ensures
        ({
            let w = v.with_announcement(a);
            let repeated = v.announcements.contains_key(a.snapshot) && same_route(
                v.announcements[a.snapshot],
                a,
            ) && v.announcements[a.snapshot].signature@ == a.signature@;
            &&& v.announcement_news(&a) <==> !repeated
            &&& w.announcements.contains_key(a.snapshot)
            &&& w.announcements[a.snapshot]@ == a@
            &&& !repeated ==> w.announcements[a.snapshot] == a
            &&& repeated ==> w == v
            &&& other != a.snapshot ==> (w.announcements.contains_key(other)
                <==> v.announcements.contains_key(other)) && w.announcements[other]
                == v.announcements[other]
            &&& w == (RuntimeView { announcements: w.announcements, ..v })
        }),
{
    law_announcements_are_refused_when_they_contradict(v, a);
    let w = v.with_announcement(a);
    if v.announcements.contains_key(a.snapshot) {
        law_reannouncements_are_classified(v.announcements[a.snapshot], a);
    }
    assert(w =~= (RuntimeView { announcements: w.announcements, ..v }));
}

/// A body is refused exactly when the recorded announcement describes
/// another one; an accepted body is recorded under its id, and nothing else
/// changes.
pub proof fn law_bodies_are_recorded_unless_they_contradict(
    v: RuntimeView,
    body: Snapshot,
    other: SnapshotId,
)
    ensures
        v.body_refusal(&body) is Some <==> v.announcements.contains_key(body.id) && !matches_body(
            v.announcements[body.id],
            body,
        ),
        v.body_refusal(&body) matches Some(error) ==> error
            == (RuntimeError::AnnouncementBodyMismatch { snapshot: body.id }),
        v.with_body(body).bodies.contains_key(body.id),
        v.with_body(body).bodies[body.id] == body,
        other != body.id ==> (v.with_body(body).bodies.contains_key(other)
            <==> v.bodies.contains_key(other)) && v.with_body(body).bodies[other]
            == v.bodies[other],
        v.with_body(body) == (RuntimeView { bodies: v.with_body(body).bodies, ..v }),
{
}

/// Whether two records name different transport roots for one storage id.
pub open spec fn disagree_on_a_root(
    a: Map<StorageId, BaoRoot>,
    b: Map<StorageId, BaoRoot>,
) -> bool {
    exists|storage: StorageId|
        a.contains_key(storage) && #[trigger] b.contains_key(storage) && a[storage] != b[storage]
}

/// Whether some representation of a record has its first root.
pub open spec fn first_root_is_held(record: ManifestRecord) -> bool {
    exists|storage: StorageId| #[trigger]
        record.representations@.contains_key(storage) && record.representations@[storage]
            == record.transport
}

/// Whether a record has a representation.
pub open spec fn has_representation(record: ManifestRecord) -> bool {
    exists|storage: StorageId| #[trigger] record.representations@.contains_key(storage)
}

proof fn lemma_has_representation(record: ManifestRecord)
    ensures
        has_representation(record) <==> record.representations@ != Map::<
            StorageId,
            BaoRoot,
        >::empty(),
        record.represented() <==> !has_representation(record) || first_root_is_held(record),
{
    if !has_representation(record) {
        assert(record.representations@ =~= Map::<StorageId, BaoRoot>::empty());
    }
}

/// A record of a manifest that hashes to something else than it claims is
/// refused before anything else is looked at.
pub proof fn law_manifests_are_what_they_hash_to(
    v: RuntimeView,
    record: ManifestRecord,
    derived: ContentId,
)
    ensures
        v.manifest_refusal(&record, derived) == Some(
            RuntimeError::ManifestIdentityMismatch { manifest: record.manifest_id, derived },
        ) <==> record.manifest_id != derived,
{
}

/// Another record of a held manifest conflicts exactly when it has other
/// mappings or another role, or names another root for a storage id that is
/// held; one that brings the first representations has to hold its own
/// first root.
pub proof fn law_other_records_of_a_manifest_have_to_agree(
    v: RuntimeView,
    record: ManifestRecord,
    derived: ContentId,
)
    requires
        record.manifest_id == derived,
        v.manifests.contains_key(record.manifest_id),
    ensures
        ({
            let held = v.manifests[record.manifest_id];
            let conflict = held.manifest.snapshot != record.manifest.snapshot
                || held.manifest.entries@ != record.manifest.entries@ || held.manifest.children@
                != record.manifest.children@ || held.is_root != record.is_root
                || disagree_on_a_root(held.representations@, record.representations@);
            let unrepresented = !has_representation(held) && has_representation(record)
                && !first_root_is_held(record);
            v.manifest_refusal(&record, derived) == if conflict {
                Some(RuntimeError::ConflictingManifest { manifest: record.manifest_id })
            } else if unrepresented {
                Some(RuntimeError::TransportNotRepresented { manifest: record.manifest_id })
            } else {
                None
            }
        }),
{
    let held = v.manifests[record.manifest_id];
    lemma_has_representation(held);
    lemma_has_representation(record);
    assert(roots_clash(held.representations@, record.representations@) <==> disagree_on_a_root(
        held.representations@,
        record.representations@,
    )) by {
        if disagree_on_a_root(held.representations@, record.representations@) {
            let s = choose|storage: StorageId|
                held.representations@.contains_key(storage)
                    && #[trigger] record.representations@.contains_key(storage)
                    && held.representations@[storage] != record.representations@[storage];
            assert(record.representations@.contains_key(s));
        }
    }
    assert(held.manifest@ == record.manifest@ <==> held.manifest.snapshot
        == record.manifest.snapshot && held.manifest.entries@ == record.manifest.entries@
        && held.manifest.children@ == record.manifest.children@);
}

proof fn lemma_first_clash(
    parents: Map<ContentId, SnapshotId>,
    children: Seq<ChildManifest>,
    snapshot: SnapshotId,
)
    ensures
        match first_clash(parents, children, snapshot) {
            Some(child) => exists|i: int|
                {
                    &&& 0 <= i < children.len()
                    &&& (#[trigger] children[i]).manifest == child
                    &&& parents.contains_key(child)
                    &&& parents[child] != snapshot
                    &&& forall|j: int|
                        0 <= j < i && parents.contains_key((#[trigger] children[j]).manifest)
                            ==> parents[children[j].manifest] == snapshot
                },
            None => forall|j: int|
                0 <= j < children.len() && parents.contains_key((#[trigger] children[j]).manifest)
                    ==> parents[children[j].manifest] == snapshot,
        },
    decreases children.len(),
{
    if children.len() > 0 {
        let init = children.drop_last();
        lemma_first_clash(parents, init, snapshot);
        assert(children[children.len() - 1] == children.last());
        match first_clash(parents, init, snapshot) {
            Some(child) => {
                let i = choose|i: int|
                    {
                        &&& 0 <= i < init.len()
                        &&& (#[trigger] init[i]).manifest == child
                        &&& parents.contains_key(child)
                        &&& parents[child] != snapshot
                        &&& forall|j: int|
                            0 <= j < i && parents.contains_key((#[trigger] init[j]).manifest)
                                ==> parents[init[j].manifest] == snapshot
                    };
                assert(children[i].manifest == child);
                assert forall|j: int|
                    0 <= j < i && parents.contains_key(
                        (#[trigger] children[j]).manifest,
                    ) implies parents[children[j].manifest] == snapshot by {
                    assert(init[j] == children[j]);
                }
            },
            None => {
                assert forall|j: int|
                    0 <= j < init.len() && parents.contains_key(
                        (#[trigger] children[j]).manifest,
                    ) implies parents[children[j].manifest] == snapshot by {
                    assert(init[j] == children[j]);
                }
            },
        }
    }
}

/// A manifest that is not held is refused exactly when it has
/// representations and none has its first root, or when it links to a child
/// that belongs to another snapshot; the first such child is named.
pub proof fn law_new_manifests_claim_no_foreign_child(
    v: RuntimeView,
    record: ManifestRecord,
    derived: ContentId,
)
    requires
        record.manifest_id == derived,
        !v.manifests.contains_key(record.manifest_id),
    ensures
        v.manifest_refusal(&record, derived) == Some(
            RuntimeError::TransportNotRepresented { manifest: record.manifest_id },
        ) <==> has_representation(record) && !first_root_is_held(record),
        !(has_representation(record) && !first_root_is_held(record)) ==> match v.manifest_refusal(
            &record,
            derived,
        ) {
            None => forall|j: int|
                0 <= j < record.manifest.children@.len() && v.parents.contains_key(
                    (#[trigger] record.manifest.children@[j]).manifest,
                ) ==> v.parents[record.manifest.children@[j].manifest] == record.manifest.snapshot,
            Some(error) => exists|i: int|
                {
                    let child = (#[trigger] record.manifest.children@[i]).manifest;
                    &&& 0 <= i < record.manifest.children@.len()
                    &&& error == (RuntimeError::ConflictingChildParent { manifest: child })
                    &&& v.parents.contains_key(child)
                    &&& v.parents[child] != record.manifest.snapshot
                    &&& forall|j: int|
                        0 <= j < i && v.parents.contains_key(
                            (#[trigger] record.manifest.children@[j]).manifest,
                        ) ==> v.parents[record.manifest.children@[j].manifest]
                            == record.manifest.snapshot
                },
        },
{
    lemma_has_representation(record);
    lemma_first_clash(v.parents, record.manifest.children@, record.manifest.snapshot);
}

proof fn lemma_linked(
    parents: Map<ContentId, SnapshotId>,
    children: Seq<ChildManifest>,
    snapshot: SnapshotId,
    child: ContentId,
)
    ensures
        ({
            let linked = link_children(parents, children, snapshot);
            let named = exists|i: int|
                0 <= i < children.len() && (#[trigger] children[i]).manifest == child;
            &&& linked.contains_key(child) <==> parents.contains_key(child) || named
            &&& named ==> linked[child] == snapshot
            &&& !named && parents.contains_key(child) ==> linked[child] == parents[child]
        }),
    decreases children.len(),
{
    if children.len() > 0 {
        let init = children.drop_last();
        lemma_linked(parents, init, snapshot, child);
        assert(children[children.len() - 1] == children.last());
        if exists|i: int| 0 <= i < init.len() && (#[trigger] init[i]).manifest == child {
            let i = choose|i: int| 0 <= i < init.len() && (#[trigger] init[i]).manifest == child;
            assert(children[i].manifest == child);
        }
        if exists|i: int| 0 <= i < children.len() && (#[trigger] children[i]).manifest == child {
            let i = choose|i: int|
                0 <= i < children.len() && (#[trigger] children[i]).manifest == child;
            if i < init.len() {
                assert(init[i].manifest == child);
            }
        }
    }
}

/// A manifest that was not held is recorded as it came; if it is a root it
/// joins its snapshot's roots; each child it links to belongs to its
/// snapshot from then on; and nothing else changes.
pub proof fn law_new_manifests_are_recorded(
    v: RuntimeView,
    record: ManifestRecord,
    other: ContentId,
    snapshot: SnapshotId,
    child: ContentId,
)
    ensures
        ({
            let w = v.with_manifest(record);
            let linked = exists|i: int|
                0 <= i < record.manifest.children@.len() && (
                #[trigger] record.manifest.children@[i]).manifest == child;
            &&& w.manifests.contains_key(record.manifest_id)
            &&& w.manifests[record.manifest_id] == record
            &&& other != record.manifest_id ==> (w.manifests.contains_key(other)
                <==> v.manifests.contains_key(other)) && w.manifests[other] == v.manifests[other]
            &&& w.roots_of(snapshot).contains(other) <==> v.roots_of(snapshot).contains(other) || (
            record.is_root && record.manifest.snapshot == snapshot && other == record.manifest_id)
            &&& w.parents.contains_key(child) <==> v.parents.contains_key(child) || linked
            &&& linked ==> w.parents[child] == record.manifest.snapshot
            &&& !linked && v.parents.contains_key(child) ==> w.parents[child] == v.parents[child]
            &&& w == (RuntimeView {
                manifests: w.manifests,
                roots: w.roots,
                parents: w.parents,
                ..v
            })
        }),
{
    lemma_linked(v.parents, record.manifest.children@, record.manifest.snapshot, child);
}

/// Another record of a held manifest pools its representations with the
/// held ones and changes nothing else, but for the first root of a record
/// that had no representation: it becomes the one that came with the first.
pub proof fn law_representations_are_pooled(
    v: RuntimeView,
    record: ManifestRecord,
    after: RuntimeView,
    storage: StorageId,
    other: ContentId,
)
    requires
        v.manifests.contains_key(record.manifest_id),
        v.with_merged(&record, after),
    ensures
        ({
            let held = v.manifests[record.manifest_id];
            let result = after.manifests[record.manifest_id];
            &&& after.manifests.contains_key(record.manifest_id)
            &&& result.representations@.contains_key(storage)
                <==> held.representations@.contains_key(storage)
                || record.representations@.contains_key(storage)
            &&& record.representations@.contains_key(storage) ==> result.representations@[storage]
                == record.representations@[storage]
            &&& !record.representations@.contains_key(storage)
                && held.representations@.contains_key(storage) ==> result.representations@[storage]
                == held.representations@[storage]
            &&& result.transport == if !has_representation(held) && has_representation(record) {
                record.transport
            } else {
                held.transport
            }
            &&& result.is_root == held.is_root
            &&& result.manifest_id == held.manifest_id
            &&& result.manifest@ == held.manifest@
            &&& after.manifests.contains_key(other) <==> v.manifests.contains_key(other)
            &&& other != record.manifest_id && v.manifests.contains_key(other)
                ==> after.manifests[other] == v.manifests[other]
            &&& after.announcements == v.announcements
            &&& after.bodies == v.bodies
            &&& after.roots == v.roots
            &&& after.parents == v.parents
            &&& after.local == v.local
            &&& after.materialization == v.materialization
        }),
{
    lemma_has_representation(v.manifests[record.manifest_id]);
    lemma_has_representation(record);
    assert(after.manifests.dom().contains(other) <==> v.manifests.dom().contains(other));
    assert(after.manifests.dom().contains(record.manifest_id));
}

/// A record that is refused changes nothing and its refusal is reported; an
/// accepted one is reported as new exactly when its manifest was not held.
pub proof fn law_manifest_records_are_reported(
    v: RuntimeView,
    record: ManifestRecord,
    derived: ContentId,
    after: RuntimeView,
    r: Result<bool, RuntimeError>,
)
    requires
        v.records_manifest(&record, derived, after, r),
    ensures
        r is Err ==> after == v && v.manifest_refusal(&record, derived) == Some(r->Err_0),
        r is Ok <==> v.manifest_refusal(&record, derived) is None,
        r matches Ok(new) ==> new == !v.manifests.contains_key(record.manifest_id),
        r matches Ok(new) ==> after.manifests.contains_key(record.manifest_id),
        r matches Ok(true) ==> after.manifests[record.manifest_id] == record,
        r matches Ok(false) ==> v.with_merged(&record, after),
{
    if r == Ok::<bool, RuntimeError>(false) {
        assert(after.manifests.dom().contains(record.manifest_id));
    }
}

/// An obligation is owed while it is queued and not discharged, and needs
/// no further queueing once it is either; queueing and discharging touch
/// the one obligation only.
pub proof fn law_obligations_are_kept_apart<Q>(o: ObligationsView<Q>, item: Q, other: Q)
    ensures
        o.pending().contains(item) <==> o.queued.contains(item) && !o.discharged.contains(item),
        o.covered(item) <==> o.queued.contains(item) || o.discharged.contains(item),
        o.queue(item).queued.contains(other) <==> o.queued.contains(other) || other == item,
        o.queue(item).discharged == o.discharged,
        o.discharge(item).discharged.contains(other) <==> o.discharged.contains(other) || other
            == item,
        o.discharge(item).queued == o.queued,
{
}

/// An empty state records nothing, holds nothing and owes nothing.
pub proof fn law_empty_states_hold_nothing(drive: crate::ids::DriveId)
    ensures
        ({
            let v = RuntimeView::empty(drive);
            &&& v.drive == drive
            &&& forall|s: SnapshotId| !#[trigger] v.announcements.contains_key(s)
            &&& forall|s: SnapshotId| !#[trigger] v.bodies.contains_key(s)
            &&& forall|m: ContentId| !#[trigger] v.manifests.contains_key(m)
            &&& forall|s: SnapshotId| !#[trigger] v.roots.contains_key(s)
            &&& forall|c: ContentId| !#[trigger] v.parents.contains_key(c)
            &&& forall|c: ContentId| !#[trigger] v.local.contains(c)
            &&& forall|c: ContentId| !#[trigger] v.materialization.contains_key(c)
            &&& v.carry.pending() == Set::<SnapshotId>::empty()
        }),
{
    let v = RuntimeView::empty(drive);
    assert(v.carry.pending() =~= Set::<SnapshotId>::empty());
}

/// A snapshot is recorded exactly when an announcement, a body or a root
/// manifest of it is.
pub proof fn law_recorded_snapshots_have_a_record(v: RuntimeView, snapshot: SnapshotId)
    requires
        v.consistent(),
    ensures
        v.recorded().contains(snapshot) <==> v.announcements.contains_key(snapshot)
            || v.bodies.contains_key(snapshot) || exists|m: ContentId|
            v.manifests.contains_key(m) && (#[trigger] v.manifests[m]).is_root
                && v.manifests[m].manifest.snapshot == snapshot,
{
    if v.roots.contains_key(snapshot) {
        let m = choose|m: ContentId| #[trigger] v.roots[snapshot].contains(m);
        assert(is_root_of(v.manifests, m, snapshot));
        assert(v.manifests[m].is_root);
    }
    if exists|m: ContentId|
        v.manifests.contains_key(m) && (#[trigger] v.manifests[m]).is_root
            && v.manifests[m].manifest.snapshot == snapshot {
        let m = choose|m: ContentId|
            v.manifests.contains_key(m) && (#[trigger] v.manifests[m]).is_root
                && v.manifests[m].manifest.snapshot == snapshot;
        assert(is_root_of(v.manifests, m, snapshot));
    }
}

/// Everything is filed where it belongs: records under their own ids, a
/// body only beside an announcement that describes it, root manifests under
/// their snapshots, and every linked child under the snapshot of the
/// manifests that link to it.
pub proof fn law_records_are_filed_where_they_belong(
    v: RuntimeView,
    snapshot: SnapshotId,
    manifest: ContentId,
    child: ContentId,
)
    requires
        v.consistent(),
    ensures
        v.announcements.contains_key(snapshot) ==> v.announcements[snapshot].snapshot == snapshot,
        v.bodies.contains_key(snapshot) ==> v.bodies[snapshot].id == snapshot,
        v.announcements.contains_key(snapshot) && v.bodies.contains_key(snapshot) ==> matches_body(
            v.announcements[snapshot],
            v.bodies[snapshot],
        ),
        v.manifests.contains_key(manifest) ==> v.manifests[manifest].manifest_id == manifest && (
        !has_representation(v.manifests[manifest]) || first_root_is_held(v.manifests[manifest])),
        v.roots_of(snapshot).contains(manifest) <==> v.manifests.contains_key(manifest)
            && v.manifests[manifest].is_root && v.manifests[manifest].manifest.snapshot == snapshot,
        v.parents.contains_key(child) <==> exists|m: ContentId, i: int|
            v.manifests.contains_key(m) && 0 <= i < v.manifests[m].manifest.children@.len() && (
            #[trigger] v.manifests[m].manifest.children@[i]).manifest == child,
        forall|m: ContentId, i: int|
            v.manifests.contains_key(m) && 0 <= i < v.manifests[m].manifest.children@.len() && (
            #[trigger] v.manifests[m].manifest.children@[i]).manifest == child
                ==> v.parents[child] == v.manifests[m].manifest.snapshot,
{
    if v.manifests.contains_key(manifest) {
        lemma_has_representation(v.manifests[manifest]);
        assert(is_root_of(v.manifests, manifest, snapshot) <==> v.manifests[manifest].is_root
            && v.manifests[manifest].manifest.snapshot == snapshot);
    }
    if v.roots_of(snapshot).contains(manifest) {
        assert(v.roots[snapshot].contains(manifest));
        assert(is_root_of(v.manifests, manifest, snapshot));
    }
    assert forall|m: ContentId, i: int|
        v.manifests.contains_key(m) && 0 <= i < v.manifests[m].manifest.children@.len() && (
        #[trigger] v.manifests[m].manifest.children@[i]).manifest
            == child implies v.parents.contains_key(child) && v.parents[child]
        == v.manifests[m].manifest.snapshot by {
        assert(links_to(v.manifests, m, child));
    }
    if v.parents.contains_key(child) {
        let m = choose|m: ContentId| links_to(v.manifests, m, child);
        assert(links_to(v.manifests, m, child));
        let children = v.manifests[m].manifest.children@;
        let i = choose|i: int| 0 <= i < children.len() && (#[trigger] children[i]).manifest == child;
        assert(v.manifests[m].manifest.children@[i].manifest == child);
    }
}

} // verus!
