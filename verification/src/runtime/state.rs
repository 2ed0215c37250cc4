//! The runtime state: which control messages were seen, which snapshots
//! are announced, which bodies and manifests are recorded, which objects
//! are local, and what is still owed to other devices.
//!
//! The state is rebuilt by replaying durable facts. Every mutator either
//! applies one fact or refuses it and changes nothing, and replaying a
//! fact that already holds is a no-op.

use vstd::prelude::*;

use crate::ids::{
    BaoRoot, ContentId, ControlMessageId, DeviceId, DriveId, SealedCapabilityFactId, SnapshotId,
    StorageId, TransitionId,
};
use crate::model::{
    transport_is_represented, AnnouncementUpdate, ChildManifest, FetchStatus, Manifest,
    ManifestEntry, ManifestRecord, ObjectKind, Snapshot, SnapshotAnnouncement,
};
use crate::order::{in_order, lists, Key};
use crate::runtime::obligations::{models, seal_first, Obligations, ObligationsView};
use crate::sorted::{SortedMap, SortedSet};

verus! {

/// Local residency policy for one content object.
#[derive(Debug, Clone, Copy, PartialEq, Eq, Structural)]
pub enum MaterializationState {
    RemoteOnly,
    Cached,
    Pinned,
}

/// Why a fact was refused.
#[derive(Debug, Clone, Copy, PartialEq, Eq)]
pub enum RuntimeError {
    /// Another statement about this snapshot is already recorded.
    ConflictingAnnouncement { snapshot: SnapshotId },
    /// Body and announcement of this snapshot disagree.
    AnnouncementBodyMismatch { snapshot: SnapshotId },
    /// Another record of this manifest is already held.
    ConflictingManifest { manifest: ContentId },
    /// This child manifest already belongs to another snapshot.
    ConflictingChildParent { manifest: ContentId },
    /// The manifest does not hash to the identity it claims.
    ManifestIdentityMismatch { manifest: ContentId, derived: ContentId },
    /// The record's first transport root is not among its representations.
    TransportNotRepresented { manifest: ContentId },
}

/// The mathematical value of a [`RuntimeState`].
#[verifier::ext_equal]
pub struct RuntimeView {
    pub drive: DriveId,
    pub seen: Set<ControlMessageId>,
    pub announcements: Map<SnapshotId, SnapshotAnnouncement>,
    pub bodies: Map<SnapshotId, Snapshot>,
    pub manifests: Map<ContentId, ManifestRecord>,
    /// The root manifests recorded for each snapshot.
    pub roots: Map<SnapshotId, Set<ContentId>>,
    /// The snapshot that owns each linked child manifest.
    pub parents: Map<ContentId, SnapshotId>,
    pub local: Set<ContentId>,
    pub materialization: Map<ContentId, MaterializationState>,
    pub announcement: ObligationsView<(SnapshotId, DeviceId)>,
    pub announcement_sealed: Map<SnapshotId, Vec<u8>>,
    pub announcement_route_sealed: Map<(SnapshotId, Seq<u8>), Vec<u8>>,
    pub transition: ObligationsView<(TransitionId, DeviceId)>,
    pub transition_sealed: Map<TransitionId, Vec<u8>>,
    pub capability: ObligationsView<(u64, DeviceId)>,
    pub capability_sealed: Map<(u64, DeviceId), Vec<u8>>,
    pub carry: ObligationsView<SnapshotId>,
}

/// Records the snapshot as the owner of each linked child.
pub open spec fn link_children(
    parents: Map<ContentId, SnapshotId>,
    children: Seq<ChildManifest>,
    snapshot: SnapshotId,
) -> Map<ContentId, SnapshotId>
    decreases children.len(),
{
    if children.len() == 0 {
        parents
    } else {
        link_children(parents, children.drop_last(), snapshot).insert(
            children.last().manifest,
            snapshot,
        )
    }
}

impl RuntimeView {
    pub open spec fn empty(drive: DriveId) -> Self {
        RuntimeView {
            drive,
            seen: Set::empty(),
            announcements: Map::empty(),
            bodies: Map::empty(),
            manifests: Map::empty(),
            roots: Map::empty(),
            parents: Map::empty(),
            local: Set::empty(),
            materialization: Map::empty(),
            announcement: ObligationsView::empty(),
            announcement_sealed: Map::empty(),
            announcement_route_sealed: Map::empty(),
            transition: ObligationsView::empty(),
            transition_sealed: Map::empty(),
            capability: ObligationsView::empty(),
            capability_sealed: Map::empty(),
            carry: ObligationsView::empty(),
        }
    }

    /// What holds of every state that facts can build.
    pub open spec fn consistent(self) -> bool {
        &&& snapshots_consistent(self.announcements, self.bodies)
        &&& manifests_consistent(self.manifests)
        &&& roots_consistent(self.manifests, self.roots)
        &&& parents_consistent(self.manifests, self.parents)
        &&& self.finitely_recorded()
    }

    /// What is recorded can be listed.
    pub open spec fn finitely_recorded(self) -> bool {
        &&& self.announcements.dom().finite()
        &&& self.bodies.dom().finite()
        &&& self.manifests.dom().finite()
        &&& self.roots.dom().finite()
        &&& forall|s: SnapshotId| #[trigger] self.roots.contains_key(s) ==> self.roots[s].finite()
    }
}

/// A recorded root manifest of a snapshot.
pub open spec fn is_root_of(
    manifests: Map<ContentId, ManifestRecord>,
    manifest: ContentId,
    snapshot: SnapshotId,
) -> bool {
    &&& manifests.contains_key(manifest)
    &&& manifests[manifest].is_root
    &&& manifests[manifest].manifest.snapshot == snapshot
}

/// A recorded manifest that links to a child.
pub open spec fn links_to(
    manifests: Map<ContentId, ManifestRecord>,
    manifest: ContentId,
    child: ContentId,
) -> bool {
    &&& manifests.contains_key(manifest)
    &&& names_child(manifests[manifest].manifest.children@, child)
}

/// Whether one of the links names a child.
pub open spec fn names_child(children: Seq<ChildManifest>, child: ContentId) -> bool {
    exists|i: int| 0 <= i < children.len() && (#[trigger] children[i]).manifest == child
}

/// Records are filed under their own identities, and no recorded
/// announcement contradicts its recorded body.
pub open spec fn snapshots_consistent(
    announcements: Map<SnapshotId, SnapshotAnnouncement>,
    bodies: Map<SnapshotId, Snapshot>,
) -> bool {
    &&& forall|s: SnapshotId| #[trigger]
        announcements.contains_key(s) ==> announcements[s].snapshot == s
    &&& forall|s: SnapshotId| #[trigger] bodies.contains_key(s) ==> bodies[s].id == s
    &&& forall|s: SnapshotId|
        #![trigger announcements.contains_key(s), bodies.contains_key(s)]
        announcements.contains_key(s) && bodies.contains_key(s) ==> announcements[s].describes(
            &bodies[s],
        )
}

/// Every manifest record is filed under its identity and serves its
/// first root from among its representations.
pub open spec fn manifests_consistent(manifests: Map<ContentId, ManifestRecord>) -> bool {
    forall|m: ContentId| #[trigger]
        manifests.contains_key(m) ==> manifests[m].manifest_id == m && manifests[m].wf()
            && manifests[m].represented()
}

/// The root index says which root manifests are recorded.
pub open spec fn roots_consistent(
    manifests: Map<ContentId, ManifestRecord>,
    roots: Map<SnapshotId, Set<ContentId>>,
) -> bool {
    &&& forall|m: ContentId, s: SnapshotId| #[trigger]
        is_root_of(manifests, m, s) ==> roots.contains_key(s) && roots[s].contains(m)
    &&& forall|m: ContentId, s: SnapshotId|
        roots.contains_key(s) && #[trigger] roots[s].contains(m) ==> is_root_of(manifests, m, s)
    &&& forall|s: SnapshotId| #[trigger]
        roots.contains_key(s) ==> exists|m: ContentId| #[trigger] roots[s].contains(m)
}

/// The child index says which snapshot owns each linked child, and names
/// no child that no recorded manifest links to.
pub open spec fn parents_consistent(
    manifests: Map<ContentId, ManifestRecord>,
    parents: Map<ContentId, SnapshotId>,
) -> bool {
    &&& forall|m: ContentId, c: ContentId| #[trigger]
        links_to(manifests, m, c) ==> parents.contains_key(c) && parents[c]
            == manifests[m].manifest.snapshot
    &&& forall|c: ContentId| #[trigger]
        parents.contains_key(c) ==> exists|m: ContentId| links_to(manifests, m, c)
}

/// Durably retained runtime sync state.
pub struct RuntimeState {
    drive: DriveId,
    seen_control_messages: SortedSet<ControlMessageId>,
    announcements: SortedMap<SnapshotId, SnapshotAnnouncement>,
    snapshot_bodies: SortedMap<SnapshotId, Snapshot>,
    manifests: SortedMap<ContentId, ManifestRecord>,
    root_manifests_by_snapshot: SortedMap<SnapshotId, SortedSet<ContentId>>,
    child_parent_by_manifest: SortedMap<ContentId, SnapshotId>,
    local_objects: SortedSet<ContentId>,
    materialization: SortedMap<ContentId, MaterializationState>,
    announcement: Obligations<(SnapshotId, DeviceId)>,
    announcement_sealed: SortedMap<SnapshotId, Vec<u8>>,
    announcement_route_sealed: SortedMap<(SnapshotId, Vec<u8>), Vec<u8>>,
    transition: Obligations<(TransitionId, DeviceId)>,
    transition_sealed: SortedMap<TransitionId, Vec<u8>>,
    capability: Obligations<(u64, DeviceId)>,
    capability_sealed: SortedMap<(u64, DeviceId), Vec<u8>>,
    carry: Obligations<SnapshotId>,
}

impl View for RuntimeState {
    type V = RuntimeView;

    closed spec fn view(&self) -> RuntimeView {
        RuntimeView {
            drive: self.drive,
            seen: self.seen_control_messages@,
            announcements: self.announcements@,
            bodies: self.snapshot_bodies@,
            manifests: self.manifests@,
            roots: self.root_manifests_by_snapshot@.map_values(|s: SortedSet<ContentId>| s@),
            parents: self.child_parent_by_manifest@,
            local: self.local_objects@,
            materialization: self.materialization@,
            announcement: self.announcement@,
            announcement_sealed: self.announcement_sealed@,
            announcement_route_sealed: self.announcement_route_sealed@,
            transition: self.transition@,
            transition_sealed: self.transition_sealed@,
            capability: self.capability@,
            capability_sealed: self.capability_sealed@,
            carry: self.carry@,
        }
    }
}

impl RuntimeState {
    /// Every collection is in key order.
    pub closed spec fn wf(&self) -> bool {
        &&& self.seen_control_messages.wf()
        &&& self.announcements.wf()
        &&& self.snapshot_bodies.wf()
        &&& self.manifests.wf()
        &&& self.root_manifests_by_snapshot.wf()
        &&& forall|s: SnapshotId| #[trigger]
            self.root_manifests_by_snapshot@.contains_key(s)
                ==> self.root_manifests_by_snapshot@[s].wf()
        &&& self.child_parent_by_manifest.wf()
        &&& self.local_objects.wf()
        &&& self.materialization.wf()
        &&& self.announcement.wf()
        &&& self.announcement_sealed.wf()
        &&& self.announcement_route_sealed.wf()
        &&& self.transition.wf()
        &&& self.transition_sealed.wf()
        &&& self.capability.wf()
        &&& self.capability_sealed.wf()
        &&& self.carry.wf()
    }

    pub open spec fn inv(&self) -> bool {
        self.wf() && self@.consistent()
    }

    /// An empty state for one drive.
    pub fn new(drive: DriveId) -> (r: Self)
        ensures
            r.inv(),
            r@ == RuntimeView::empty(drive),
    {
        let r = RuntimeState {
            drive,
            seen_control_messages: SortedSet::new(),
            announcements: SortedMap::new(),
            snapshot_bodies: SortedMap::new(),
            manifests: SortedMap::new(),
            root_manifests_by_snapshot: SortedMap::new(),
            child_parent_by_manifest: SortedMap::new(),
            local_objects: SortedSet::new(),
            materialization: SortedMap::new(),
            announcement: Obligations::new(),
            announcement_sealed: SortedMap::new(),
            announcement_route_sealed: SortedMap::new(),
            transition: Obligations::new(),
            transition_sealed: SortedMap::new(),
            capability: Obligations::new(),
            capability_sealed: SortedMap::new(),
            carry: Obligations::new(),
        };
        proof {
            assert(r@ =~= RuntimeView::empty(drive));
        }
        r
    }

    /// The drive this state belongs to.
    pub fn drive(&self) -> (d: DriveId)
        ensures
            d == self@.drive,
    {
        self.drive
    }

    /// Whether the plaintext object is present locally.
    pub fn is_local(&self, id: &ContentId) -> (b: bool)
        requires
            self.inv(),
        ensures
            b == self@.local.contains(*id),
    {
        self.local_objects.contains(id)
    }

    /// Records a control message id; `true` on the first sighting.
    pub fn remember_control_message(&mut self, id: &ControlMessageId) -> (first: bool)
        requires
            old(self).inv(),
        ensures
            final(self).inv(),
            final(self)@ == (RuntimeView { seen: old(self)@.seen.insert(*id), ..old(self)@ }),
            first == !old(self)@.seen.contains(*id),
    {
        let first = self.seen_control_messages.insert(*id);
        proof {
            assert(self@ =~= (RuntimeView { seen: old(self)@.seen.insert(*id), ..old(self)@ }));
        }
        first
    }
}

/// Two records disagree on the transport root behind one storage id.
pub open spec fn roots_clash(
    held: Map<StorageId, BaoRoot>,
    incoming: Map<StorageId, BaoRoot>,
) -> bool {
    exists|storage: StorageId| #[trigger]
        incoming.contains_key(storage) && held.contains_key(storage) && held[storage]
            != incoming[storage]
}

/// A link whose child already belongs to another snapshot.
pub open spec fn child_clash(
    parents: Map<ContentId, SnapshotId>,
    link: ChildManifest,
    snapshot: SnapshotId,
) -> bool {
    parents.contains_key(link.manifest) && parents[link.manifest] != snapshot
}

/// The first linked child that already belongs to another snapshot.
pub open spec fn first_clash(
    parents: Map<ContentId, SnapshotId>,
    children: Seq<ChildManifest>,
    snapshot: SnapshotId,
) -> Option<ContentId>
    decreases children.len(),
{
    if children.len() == 0 {
        None
    } else {
        match first_clash(parents, children.drop_last(), snapshot) {
            Some(child) => Some(child),
            None => if child_clash(parents, children.last(), snapshot) {
                Some(children.last().manifest)
            } else {
                None
            },
        }
    }
}

/// Whether a record brings the first representations of a held manifest.
pub open spec fn completes(held: &ManifestRecord, incoming: &ManifestRecord) -> bool {
    held.representations@ == Map::<StorageId, BaoRoot>::empty() && incoming.representations@
        != Map::<StorageId, BaoRoot>::empty()
}

/// A held record after another record of the same manifest was merged
/// into it: the representations are pooled, and only a record that had
/// none takes over the incoming first root.
pub open spec fn merged(
    held: &ManifestRecord,
    incoming: &ManifestRecord,
    result: &ManifestRecord,
) -> bool {
    &&& result.is_root == held.is_root
    &&& result.manifest_id == held.manifest_id
    &&& result.manifest == held.manifest
    &&& result.representations@ == held.representations@.union_prefer_right(
        incoming.representations@,
    )
    &&& result.transport == if completes(held, incoming) {
        incoming.transport
    } else {
        held.transport
    }
}

impl RuntimeView {
    /// Why an announcement is refused, if it is.
    pub open spec fn announcement_refusal(
        self,
        announcement: &SnapshotAnnouncement,
    ) -> Option<RuntimeError> {
        let id = announcement.snapshot;
        if self.bodies.contains_key(id) && !announcement.describes(&self.bodies[id]) {
            Some(RuntimeError::AnnouncementBodyMismatch { snapshot: id })
        } else if self.announcements.contains_key(id) && self.announcements[id].update(announcement)
            == AnnouncementUpdate::Fork {
            Some(RuntimeError::ConflictingAnnouncement { snapshot: id })
        } else {
            None
        }
    }

    /// Whether an accepted announcement changes what is recorded.
    pub open spec fn announcement_news(self, announcement: &SnapshotAnnouncement) -> bool {
        let id = announcement.snapshot;
        self.announcements.contains_key(id) ==> self.announcements[id].update(announcement)
            == AnnouncementUpdate::RouteUpdate
    }

    /// The state after an announcement is accepted.
    pub open spec fn with_announcement(self, announcement: SnapshotAnnouncement) -> RuntimeView {
        if self.announcement_news(&announcement) {
            RuntimeView {
                announcements: self.announcements.insert(announcement.snapshot, announcement),
                ..self
            }
        } else {
            self
        }
    }

    /// The state after a snapshot body is accepted.
    pub open spec fn with_body(self, body: Snapshot) -> RuntimeView {
        RuntimeView { bodies: self.bodies.insert(body.id, body), ..self }
    }

    /// Why a snapshot body is refused, if it is.
    pub open spec fn body_refusal(self, body: &Snapshot) -> Option<RuntimeError> {
        if self.announcements.contains_key(body.id) && !self.announcements[body.id].describes(
            body,
        ) {
            Some(RuntimeError::AnnouncementBodyMismatch { snapshot: body.id })
        } else {
            None
        }
    }

    /// Why a manifest record is refused, if it is. `derived` is the
    /// identity that the manifest hashes to.
    pub open spec fn manifest_refusal(
        self,
        record: &ManifestRecord,
        derived: ContentId,
    ) -> Option<RuntimeError> {
        let id = record.manifest_id;
        if id != derived {
            Some(RuntimeError::ManifestIdentityMismatch { manifest: id, derived })
        } else if self.manifests.contains_key(id) {
            let held = self.manifests[id];
            if held.manifest@ != record.manifest@ || held.is_root != record.is_root || roots_clash(
                held.representations@,
                record.representations@,
            ) {
                Some(RuntimeError::ConflictingManifest { manifest: id })
            } else if completes(&held, record) && !record.represented() {
                Some(RuntimeError::TransportNotRepresented { manifest: id })
            } else {
                None
            }
        } else if !record.represented() {
            Some(RuntimeError::TransportNotRepresented { manifest: id })
        } else {
            match first_clash(self.parents, record.manifest.children@, record.manifest.snapshot) {
                Some(child) => Some(RuntimeError::ConflictingChildParent { manifest: child }),
                None => None,
            }
        }
    }

    /// The root manifests recorded for a snapshot.
    pub open spec fn roots_of(self, snapshot: SnapshotId) -> Set<ContentId> {
        if self.roots.contains_key(snapshot) {
            self.roots[snapshot]
        } else {
            Set::empty()
        }
    }

    /// The state after a manifest that was not held is recorded.
    pub open spec fn with_manifest(self, record: ManifestRecord) -> RuntimeView {
        let snapshot = record.manifest.snapshot;
        RuntimeView {
            manifests: self.manifests.insert(record.manifest_id, record),
            roots: if record.is_root {
                self.roots.insert(snapshot, self.roots_of(snapshot).insert(record.manifest_id))
            } else {
                self.roots
            },
            parents: link_children(self.parents, record.manifest.children@, snapshot),
            ..self
        }
    }

    /// The state after another record of a held manifest was merged.
    pub open spec fn with_merged(self, record: &ManifestRecord, after: RuntimeView) -> bool {
        let id = record.manifest_id;
        &&& after == (RuntimeView { manifests: after.manifests, ..self })
        &&& after.manifests.dom() == self.manifests.dom()
        &&& forall|m: ContentId| #[trigger]
            self.manifests.contains_key(m) && m != id ==> after.manifests[m] == self.manifests[m]
        &&& merged(&self.manifests[id], record, &after.manifests[id])
    }

    /// What becomes of a record whose manifest hashes to `derived`: a
    /// refusal that changes nothing, a merge, or a new entry.
    pub open spec fn records_manifest(
        self,
        record: &ManifestRecord,
        derived: ContentId,
        after: RuntimeView,
        r: Result<bool, RuntimeError>,
    ) -> bool {
        match self.manifest_refusal(record, derived) {
            Some(e) => r == Err::<bool, RuntimeError>(e) && after == self,
            None => if self.manifests.contains_key(record.manifest_id) {
                r == Ok::<bool, RuntimeError>(false) && self.with_merged(record, after)
            } else {
                r == Ok::<bool, RuntimeError>(true) && after == self.with_manifest(*record)
            },
        }
    }
}

proof fn lemma_link_children(
    parents: Map<ContentId, SnapshotId>,
    children: Seq<ChildManifest>,
    snapshot: SnapshotId,
    c: ContentId,
)
    ensures
        link_children(parents, children, snapshot).contains_key(c) <==> parents.contains_key(c)
            || names_child(children, c),
        names_child(children, c) ==> link_children(parents, children, snapshot)[c] == snapshot,
        !names_child(children, c) && parents.contains_key(c) ==> link_children(
            parents,
            children,
            snapshot,
        )[c] == parents[c],
    decreases children.len(),
{
    if children.len() > 0 {
        let init = children.drop_last();
        lemma_link_children(parents, init, snapshot, c);
        assert(names_child(children, c) <==> names_child(init, c) || children.last().manifest == c)
            by {
            if names_child(children, c) {
                let i = choose|i: int|
                    0 <= i < children.len() && (#[trigger] children[i]).manifest == c;
                if i < init.len() {
                    assert(init[i].manifest == c);
                }
            }
            if names_child(init, c) {
                let i = choose|i: int| 0 <= i < init.len() && (#[trigger] init[i]).manifest == c;
                assert(children[i].manifest == c);
            }
            assert(children[children.len() - 1] == children.last());
        }
    }
}

proof fn lemma_no_clash(
    parents: Map<ContentId, SnapshotId>,
    children: Seq<ChildManifest>,
    snapshot: SnapshotId,
    c: ContentId,
)
    requires
        first_clash(parents, children, snapshot) is None,
        names_child(children, c),
        parents.contains_key(c),
    ensures
        parents[c] == snapshot,
    decreases children.len(),
{
    let i = choose|i: int| 0 <= i < children.len() && (#[trigger] children[i]).manifest == c;
    let init = children.drop_last();
    if i < init.len() {
        assert(init[i].manifest == c);
        lemma_no_clash(parents, init, snapshot, c);
    }
}

/// Recording a manifest that was not held keeps the indexes exact.
proof fn lemma_with_manifest(v: RuntimeView, record: ManifestRecord)
    requires
        v.consistent(),
        record.wf(),
        record.represented(),
        !v.manifests.contains_key(record.manifest_id),
        first_clash(v.parents, record.manifest.children@, record.manifest.snapshot) is None,
    ensures
        v.with_manifest(record).consistent(),
{
    let w = v.with_manifest(record);
    let id = record.manifest_id;
    let snapshot = record.manifest.snapshot;
    let children = record.manifest.children@;
    assert forall|m: ContentId, s: SnapshotId| #[trigger]
        is_root_of(w.manifests, m, s) implies w.roots.contains_key(s) && w.roots[s].contains(m) by {
        if m != id {
            assert(is_root_of(v.manifests, m, s));
        }
    }
    assert forall|m: ContentId, s: SnapshotId|
        w.roots.contains_key(s) && #[trigger] w.roots[s].contains(m) implies is_root_of(
        w.manifests,
        m,
        s,
    ) by {
        if record.is_root && s == snapshot {
            if m != id {
                assert(v.roots_of(s).contains(m));
                assert(v.roots.contains_key(s) && v.roots[s].contains(m));
                assert(is_root_of(v.manifests, m, s));
            }
        } else {
            assert(v.roots[s].contains(m));
            assert(is_root_of(v.manifests, m, s));
        }
    }
    assert forall|s: SnapshotId| #[trigger] w.roots.contains_key(s) implies exists|m: ContentId| #[trigger]
        w.roots[s].contains(m) by {
        if record.is_root && s == snapshot {
            assert(w.roots[s].contains(id));
        } else {
            assert(v.roots.contains_key(s));
            let m = choose|m: ContentId| #[trigger] v.roots[s].contains(m);
            assert(w.roots[s].contains(m));
        }
    }
    assert forall|m: ContentId, c: ContentId| #[trigger]
        links_to(w.manifests, m, c) implies w.parents.contains_key(c) && w.parents[c]
        == w.manifests[m].manifest.snapshot by {
        lemma_link_children(v.parents, children, snapshot, c);
        if m != id {
            assert(links_to(v.manifests, m, c));
            if names_child(children, c) {
                lemma_no_clash(v.parents, children, snapshot, c);
            }
        }
    }
    assert forall|c: ContentId| #[trigger] w.parents.contains_key(c) implies exists|m: ContentId|
        links_to(w.manifests, m, c) by {
        lemma_link_children(v.parents, children, snapshot, c);
        if names_child(children, c) {
            assert(links_to(w.manifests, id, c));
        } else {
            let m = choose|m: ContentId| links_to(v.manifests, m, c);
            assert(links_to(w.manifests, m, c));
        }
    }
}

/// Merging representations into a held record keeps the state consistent.
proof fn lemma_with_merged(v: RuntimeView, record: ManifestRecord, w: RuntimeView)
    requires
        v.consistent(),
        v.manifests.contains_key(record.manifest_id),
        v.with_merged(&record, w),
        w.manifests[record.manifest_id].wf(),
        !roots_clash(
            v.manifests[record.manifest_id].representations@,
            record.representations@,
        ),
        completes(&v.manifests[record.manifest_id], &record) ==> record.represented(),
    ensures
        w.consistent(),
{
    let id = record.manifest_id;
    let held = v.manifests[id];
    let result = w.manifests[id];
    assert forall|m: ContentId| #[trigger] w.manifests.contains_key(m) implies
        w.manifests[m].manifest_id == m && w.manifests[m].wf() && w.manifests[m].represented() by {
        assert(v.manifests.contains_key(m));
        if m == id {
            if completes(&held, &record) {
                let s = choose|s: StorageId| #[trigger]
                    record.representations@.contains_key(s) && record.representations@[s]
                        == record.transport;
                assert(result.representations@.contains_key(s));
                assert(result.representations@[s] == result.transport);
            } else if held.representations@ == Map::<StorageId, BaoRoot>::empty() {
                assert(result.representations@ =~= Map::<StorageId, BaoRoot>::empty());
            } else {
                let s = choose|s: StorageId| #[trigger]
                    held.representations@.contains_key(s) && held.representations@[s]
                        == held.transport;
                assert(result.representations@.contains_key(s));
                assert(result.representations@[s] == result.transport);
            }
        }
    }
    assert forall|m: ContentId, s: SnapshotId| is_root_of(w.manifests, m, s) == is_root_of(
        v.manifests,
        m,
        s,
    ) by {
        assert(w.manifests.contains_key(m) == v.manifests.contains_key(m));
    }
    assert forall|m: ContentId, c: ContentId| links_to(w.manifests, m, c) == links_to(
        v.manifests,
        m,
        c,
    ) by {
        assert(w.manifests.contains_key(m) == v.manifests.contains_key(m));
    }
    assert forall|m: ContentId, s: SnapshotId| #[trigger]
        is_root_of(w.manifests, m, s) implies w.roots.contains_key(s) && w.roots[s].contains(m) by {
        assert(is_root_of(v.manifests, m, s));
    }
    assert forall|m: ContentId, s: SnapshotId|
        w.roots.contains_key(s) && #[trigger] w.roots[s].contains(m) implies is_root_of(
        w.manifests,
        m,
        s,
    ) by {
        assert(is_root_of(v.manifests, m, s));
    }
    assert forall|m: ContentId, c: ContentId| #[trigger]
        links_to(w.manifests, m, c) implies w.parents.contains_key(c) && w.parents[c]
        == w.manifests[m].manifest.snapshot by {
        assert(links_to(v.manifests, m, c));
    }
    assert forall|c: ContentId| #[trigger] w.parents.contains_key(c) implies exists|m: ContentId|
        links_to(w.manifests, m, c) by {
        let m = choose|m: ContentId| links_to(v.manifests, m, c);
        assert(links_to(w.manifests, m, c));
    }
}

/// Whether two records name different transport roots for one storage id.
fn representations_clash(
    held: &SortedMap<StorageId, BaoRoot>,
    incoming: &SortedMap<StorageId, BaoRoot>,
) -> (b: bool)
    requires
        held.wf(),
        incoming.wf(),
    ensures
        b == roots_clash(held@, incoming@),
{
    proof {
        incoming.lemma_keys();
    }
    let mut i: usize = 0;
    while i < incoming.len()
        invariant
            held.wf(),
            incoming.wf(),
            i <= incoming.keys().len(),
            lists(incoming.keys(), incoming@.dom()),
            forall|j: int|
                0 <= j < i && held@.contains_key(#[trigger] incoming.keys()[j])
                    ==> held@[incoming.keys()[j]] == incoming@[incoming.keys()[j]],
        decreases incoming.keys().len() - i,
    {
        let storage: StorageId = *incoming.key(i);
        let transport: BaoRoot = *incoming.value(i);
        if let Some(root) = held.get(&storage) {
            if !root.same(&transport) {
                proof {
                    assert(incoming@.contains_key(storage));
                }
                return true;
            }
        }
        i = i + 1;
    }
    proof {
        assert forall|s: StorageId| #[trigger] incoming@.contains_key(s) && held@.contains_key(
            s,
        ) implies held@[s] == incoming@[s] by {
            assert(incoming@.dom().contains(s));
            assert(incoming.keys().contains(s));
            let j = incoming.keys().index_of(s);
            assert(incoming.keys()[j] == s);
        }
    }
    false
}

/// Adds every incoming representation to the held ones.
fn pool_representations(
    held: &mut SortedMap<StorageId, BaoRoot>,
    incoming: &SortedMap<StorageId, BaoRoot>,
)
    requires
        old(held).wf(),
        incoming.wf(),
    ensures
        final(held).wf(),
        final(held)@ == old(held)@.union_prefer_right(incoming@),
{
    proof {
        incoming.lemma_keys();
    }
    let ghost before = held@;
    let mut i: usize = 0;
    while i < incoming.len()
        invariant
            held.wf(),
            incoming.wf(),
            i <= incoming.keys().len(),
            lists(incoming.keys(), incoming@.dom()),
            forall|s: StorageId| #[trigger]
                held@.contains_key(s) <==> before.contains_key(s) || incoming.keys().take(
                    i as int,
                ).contains(s),
            forall|s: StorageId| #[trigger]
                held@.contains_key(s) ==> held@[s] == if incoming.keys().take(i as int).contains(s) {
                    incoming@[s]
                } else {
                    before[s]
                },
        decreases incoming.keys().len() - i,
    {
        let storage: StorageId = *incoming.key(i);
        let transport: BaoRoot = *incoming.value(i);
        held.insert(storage, transport);
        proof {
            let head = incoming.keys().take(i as int);
            let next = incoming.keys().take(i + 1);
            assert(next =~= head.push(storage));
            assert forall|s: StorageId| #[trigger] next.contains(s) <==> head.contains(s) || s
                == storage by {
                if head.contains(s) {
                    assert(next[head.index_of(s)] == s);
                }
                assert(next[i as int] == storage);
            }
        }
        i = i + 1;
    }
    proof {
        assert(incoming.keys().take(i as int) =~= incoming.keys());
        assert forall|s: StorageId| held@.contains_key(s) == before.union_prefer_right(
            incoming@,
        ).contains_key(s) by {
            assert(incoming.keys().contains(s) <==> incoming@.dom().contains(s));
        }
        assert forall|s: StorageId| #[trigger] held@.contains_key(s) implies held@[s]
            == before.union_prefer_right(incoming@)[s] by {
            assert(incoming.keys().contains(s) <==> incoming@.dom().contains(s));
        }
        assert(held@ =~= before.union_prefer_right(incoming@));
    }
}

impl RuntimeState {
    /// Records a snapshot announcement. The same announcement again is a
    /// no-op, another route replaces the known one, and another statement
    /// about the same snapshot is refused, as is one that contradicts the
    /// recorded body. Returns `true` when the record changed.
    pub fn record_announcement(&mut self, announcement: SnapshotAnnouncement) -> (r: Result<
        bool,
        RuntimeError,
    >)
        requires
            old(self).inv(),
        ensures
            final(self).inv(),
            match old(self)@.announcement_refusal(&announcement) {
                Some(e) => r == Err::<bool, RuntimeError>(e) && final(self)@ == old(self)@,
                None => r == Ok::<bool, RuntimeError>(old(self)@.announcement_news(&announcement))
                    && final(self)@ == old(self)@.with_announcement(announcement),
            },
    {
        let id: SnapshotId = announcement.snapshot;
        if let Some(body) = self.snapshot_bodies.get(&id) {
            if !announcement.agrees(body) {
                return Err(RuntimeError::AnnouncementBodyMismatch { snapshot: id });
            }
        }
        let update: Option<AnnouncementUpdate> = match self.announcements.get(&id) {
            None => None,
            Some(existing) => Some(existing.check_update(&announcement)),
        };
        match update {
            Some(AnnouncementUpdate::Same) => Ok(false),
            Some(AnnouncementUpdate::Fork) => Err(
                RuntimeError::ConflictingAnnouncement { snapshot: id },
            ),
            _ => {
                let ghost after = RuntimeView {
                    announcements: old(self)@.announcements.insert(id, announcement),
                    ..old(self)@
                };
                self.announcements.insert(id, announcement);
                proof {
                    assert(self@ =~= after);
                }
                Ok(true)
            },
        }
    }

    /// Records a verified snapshot body. A body that contradicts the
    /// recorded announcement is refused. Returns `true` when the snapshot
    /// had no recorded body.
    pub fn record_snapshot_body(&mut self, snapshot: Snapshot) -> (r: Result<bool, RuntimeError>)
        requires
            old(self).inv(),
        ensures
            final(self).inv(),
            match old(self)@.body_refusal(&snapshot) {
                Some(e) => r == Err::<bool, RuntimeError>(e) && final(self)@ == old(self)@,
                None => r == Ok::<bool, RuntimeError>(!old(self)@.bodies.contains_key(snapshot.id))
                    && final(self)@ == old(self)@.with_body(snapshot),
            },
    {
        let id: SnapshotId = snapshot.id;
        if let Some(announcement) = self.announcements.get(&id) {
            if !announcement.agrees(&snapshot) {
                return Err(RuntimeError::AnnouncementBodyMismatch { snapshot: id });
            }
        }
        let ghost after = RuntimeView {
            bodies: old(self)@.bodies.insert(id, snapshot),
            ..old(self)@
        };
        let displaced = self.snapshot_bodies.insert(id, snapshot);
        proof {
            assert(self@ =~= after);
        }
        Ok(displaced.is_none())
    }

    /// Merges another record of a held manifest into it.
    fn merge_manifest(&mut self, record: ManifestRecord) -> (r: Result<bool, RuntimeError>)
        requires
            old(self).inv(),
            record.wf(),
            old(self)@.manifests.contains_key(record.manifest_id),
        ensures
            final(self).inv(),
            match old(self)@.manifest_refusal(&record, record.manifest_id) {
                Some(e) => r == Err::<bool, RuntimeError>(e) && final(self)@ == old(self)@,
                None => r == Ok::<bool, RuntimeError>(false) && old(self)@.with_merged(
                    &record,
                    final(self)@,
                ),
            },
    {
        let id: ContentId = record.manifest_id;
        let ghost before = self@;
        match self.manifests.get(&id) {
            None => {
                return Ok(false);
            },
            Some(held) => {
                if !held.manifest.same(&record.manifest) || held.is_root != record.is_root {
                    return Err(RuntimeError::ConflictingManifest { manifest: id });
                }
                if representations_clash(&held.representations, &record.representations) {
                    return Err(RuntimeError::ConflictingManifest { manifest: id });
                }
                if held.representations.is_empty() && !record.representations.is_empty()
                    && !transport_is_represented(&record) {
                    return Err(RuntimeError::TransportNotRepresented { manifest: id });
                }
            },
        }
        if let Some(taken) = self.manifests.remove(&id) {
            let completes_empty: bool = taken.representations.is_empty()
                && !record.representations.is_empty();
            let transport: BaoRoot = if completes_empty {
                record.transport
            } else {
                taken.transport
            };
            let ghost held = taken;
            let mut representations = taken.representations;
            pool_representations(&mut representations, &record.representations);
            let result = ManifestRecord {
                is_root: taken.is_root,
                manifest_id: taken.manifest_id,
                representations,
                transport,
                manifest: taken.manifest,
            };
            self.manifests.insert(id, result);
            proof {
                assert(before.manifests[id] == held);
                assert(merged(&held, &record, &result));
                assert(self@.manifests.dom() =~= before.manifests.dom());
                assert(before.with_merged(&record, self@)) by {
                    assert(self@ =~= (RuntimeView { manifests: self@.manifests, ..before }));
                }
                lemma_with_merged(before, record, self@);
            }
        }
        Ok(false)
    }

    /// Records a manifest and the sealed representations it is known
    /// under. `identity` says what the manifest's canonical bytes hash to.
    /// Another record of a held manifest adds its representations. A
    /// refusal changes nothing. Returns `true` when the manifest was not
    /// held before.
    pub fn record_manifest<I: FnOnce(&Manifest) -> ContentId>(
        &mut self,
        record: ManifestRecord,
        identity: I,
    ) -> (r: Result<bool, RuntimeError>)
        requires
            old(self).inv(),
            record.wf(),
            call_requires(identity, (&record.manifest,)),
        ensures
            final(self).inv(),
            exists|derived: ContentId| #[trigger]
                call_ensures(identity, (&record.manifest,), derived) && old(self)@.records_manifest(
                    &record,
                    derived,
                    final(self)@,
                    r,
                ),
    {
        let derived: ContentId = identity(&record.manifest);
        self.enter_manifest(record, derived)
    }

    /// Records a manifest that hashes to `derived`.
    fn enter_manifest(&mut self, record: ManifestRecord, derived: ContentId) -> (r: Result<
        bool,
        RuntimeError,
    >)
        requires
            old(self).inv(),
            record.wf(),
        ensures
            final(self).inv(),
            old(self)@.records_manifest(&record, derived, final(self)@, r),
    {
        let id: ContentId = record.manifest_id;
        if !id.same(&derived) {
            return Err(RuntimeError::ManifestIdentityMismatch { manifest: id, derived });
        }
        if self.manifests.contains_key(&id) {
            return self.merge_manifest(record);
        }
        if !transport_is_represented(&record) {
            return Err(RuntimeError::TransportNotRepresented { manifest: id });
        }
        let snapshot: SnapshotId = record.manifest.snapshot;
        let ghost before = self@;
        let ghost children = record.manifest.children@;
        let mut i: usize = 0;
        while i < record.manifest.children.len()
            invariant
                self.inv(),
                before == self@,
                before == old(self)@,
                children == record.manifest.children@,
                snapshot == record.manifest.snapshot,
                i <= children.len(),
                first_clash(before.parents, children.take(i as int), snapshot) is None,
                before.manifest_refusal(&record, derived) == match first_clash(
                    before.parents,
                    children,
                    snapshot,
                ) {
                    Some(child) => Some(RuntimeError::ConflictingChildParent { manifest: child }),
                    None => None,
                },
            decreases children.len() - i,
        {
            let link: ChildManifest = record.manifest.children[i];
            proof {
                assert(children.take(i + 1).drop_last() =~= children.take(i as int));
                assert(children.take(i + 1).last() == link);
            }
            if let Some(owner) = self.child_parent_by_manifest.get(&link.manifest) {
                if !owner.same(&snapshot) {
                    proof {
                        lemma_first_clash_prefix(before.parents, children, snapshot, i + 1);
                    }
                    return Err(
                        RuntimeError::ConflictingChildParent { manifest: link.manifest },
                    );
                }
            }
            i = i + 1;
        }
        proof {
            assert(children.take(i as int) =~= children);
        }
        let mut k: usize = 0;
        while k < record.manifest.children.len()
            invariant
                self.wf(),
                children == record.manifest.children@,
                k <= children.len(),
                self@ == (RuntimeView {
                    parents: link_children(before.parents, children.take(k as int), snapshot),
                    ..before
                }),
            decreases children.len() - k,
        {
            let link: ChildManifest = record.manifest.children[k];
            proof {
                assert(children.take(k + 1).drop_last() =~= children.take(k as int));
                assert(children.take(k + 1).last() == link);
            }
            self.child_parent_by_manifest.insert(link.manifest, snapshot);
            k = k + 1;
            proof {
                assert(self@ =~= (RuntimeView {
                    parents: link_children(before.parents, children.take(k as int), snapshot),
                    ..before
                }));
            }
        }
        proof {
            assert(children.take(k as int) =~= children);
        }
        if record.is_root {
            let mut roots: SortedSet<ContentId> = match self.root_manifests_by_snapshot.remove(
                &snapshot,
            ) {
                Some(roots) => roots,
                None => SortedSet::new(),
            };
            let ghost held = roots@;
            proof {
                assert(held =~= before.roots_of(snapshot));
            }
            roots.insert(id);
            self.root_manifests_by_snapshot.insert(snapshot, roots);
            proof {
                assert(self@.roots =~= before.roots.insert(
                    snapshot,
                    before.roots_of(snapshot).insert(id),
                ));
            }
        }
        self.manifests.insert(id, record);
        proof {
            assert(self@ =~= before.with_manifest(record));
            lemma_with_manifest(before, record);
        }
        Ok(true)
    }
}

/// The first clash of a prefix is the first clash of the whole.
proof fn lemma_first_clash_prefix(
    parents: Map<ContentId, SnapshotId>,
    children: Seq<ChildManifest>,
    snapshot: SnapshotId,
    n: int,
)
    requires
        0 <= n <= children.len(),
        first_clash(parents, children.take(n), snapshot) is Some,
    ensures
        first_clash(parents, children, snapshot) == first_clash(parents, children.take(n), snapshot),
    decreases children.len() - n,
{
    if n == children.len() {
        assert(children.take(n) =~= children);
    } else {
        assert(children.take(n + 1).drop_last() =~= children.take(n));
        lemma_first_clash_prefix(parents, children, snapshot, n + 1);
    }
}

/// The recorded manifests, in manifest-id order.
pub open spec fn records_in_order(manifests: Map<ContentId, ManifestRecord>) -> Seq<
    ManifestRecord,
> {
    let ids = in_order::<ContentId>(manifests.dom());
    Seq::new(ids.len(), |i: int| manifests[ids[i]])
}

/// The entries of a sequence of records, one record after the other.
pub open spec fn entries_of(records: Seq<ManifestRecord>) -> Seq<ManifestEntry>
    decreases records.len(),
{
    if records.len() == 0 {
        Seq::empty()
    } else {
        entries_of(records.drop_last()) + records.last().manifest.entries@
    }
}

/// The child links of a sequence of records, one record after the other.
pub open spec fn links_of(records: Seq<ManifestRecord>) -> Seq<ChildManifest>
    decreases records.len(),
{
    if records.len() == 0 {
        Seq::empty()
    } else {
        links_of(records.drop_last()) + records.last().manifest.children@
    }
}

/// The entries that map one plaintext content, in their order.
pub open spec fn mappings(entries: Seq<ManifestEntry>, content: ContentId) -> Seq<ManifestEntry>
    decreases entries.len(),
{
    if entries.len() == 0 {
        Seq::empty()
    } else if entries.last().content_id == content {
        mappings(entries.drop_last(), content).push(entries.last())
    } else {
        mappings(entries.drop_last(), content)
    }
}

impl RuntimeView {
    /// The residency policy in force for one content object.
    pub open spec fn desired(self, content: ContentId) -> MaterializationState {
        if self.materialization.contains_key(content) {
            self.materialization[content]
        } else {
            MaterializationState::RemoteOnly
        }
    }

    pub open spec fn status(self, content: ContentId) -> FetchStatus {
        if self.local.contains(content) {
            FetchStatus::Available
        } else if self.desired(content) == MaterializationState::RemoteOnly {
            FetchStatus::RemoteOnly
        } else {
            FetchStatus::Fetching
        }
    }

    /// The snapshots that anything is recorded for.
    pub open spec fn recorded(self) -> Set<SnapshotId> {
        self.announcements.dom().union(self.bodies.dom()).union(self.roots.dom())
    }

    /// The root manifest served for a snapshot: the announced one when it
    /// is recorded, otherwise the smallest recorded one.
    pub open spec fn root_manifest(self, snapshot: SnapshotId) -> Option<ContentId> {
        if !self.roots.contains_key(snapshot) {
            None
        } else if self.announcements.contains_key(snapshot) && self.roots[snapshot].contains(
            self.announcements[snapshot].root_manifest,
        ) {
            Some(self.announcements[snapshot].root_manifest)
        } else {
            Some(in_order::<ContentId>(self.roots[snapshot])[0])
        }
    }
}

impl RuntimeState {
    /// The residency of an object, as the view layer sees it.
    pub fn status(&self, id: &ContentId) -> (r: FetchStatus)
        requires
            self.inv(),
        ensures
            r == self@.status(*id),
    {
        if self.is_local(id) {
            FetchStatus::Available
        } else {
            match self.desired(id) {
                MaterializationState::RemoteOnly => FetchStatus::RemoteOnly,
                MaterializationState::Cached => FetchStatus::Fetching,
                MaterializationState::Pinned => FetchStatus::Fetching,
            }
        }
    }

    /// The residency policy in force for one content object.
    fn desired(&self, id: &ContentId) -> (r: MaterializationState)
        requires
            self.inv(),
        ensures
            r == self@.desired(*id),
    {
        match self.materialization.get(id) {
            Some(state) => *state,
            None => MaterializationState::RemoteOnly,
        }
    }

    /// The announcement for one snapshot, if recorded.
    pub fn announcement(&self, snapshot: &SnapshotId) -> (r: Option<&SnapshotAnnouncement>)
        requires
            self.inv(),
        ensures
            match r {
                Some(a) => self@.announcements.contains_key(*snapshot) && *a
                    == self@.announcements[*snapshot],
                None => !self@.announcements.contains_key(*snapshot),
            },
    {
        self.announcements.get(snapshot)
    }

    /// The record for one manifest id, if recorded.
    pub fn manifest_record(&self, manifest: &ContentId) -> (r: Option<&ManifestRecord>)
        requires
            self.inv(),
        ensures
            match r {
                Some(m) => self@.manifests.contains_key(*manifest) && *m
                    == self@.manifests[*manifest],
                None => !self@.manifests.contains_key(*manifest),
            },
    {
        self.manifests.get(manifest)
    }

    /// The recorded body for one snapshot, if any.
    pub fn snapshot_body(&self, snapshot: &SnapshotId) -> (r: Option<&Snapshot>)
        requires
            self.inv(),
        ensures
            match r {
                Some(b) => self@.bodies.contains_key(*snapshot) && *b == self@.bodies[*snapshot],
                None => !self@.bodies.contains_key(*snapshot),
            },
    {
        self.snapshot_bodies.get(snapshot)
    }

    /// The snapshot whose recorded manifests link to a child manifest.
    pub fn manifest_parent_snapshot(&self, child: &ContentId) -> (r: Option<SnapshotId>)
        requires
            self.inv(),
        ensures
            r == self@.parents.get(*child),
    {
        match self.child_parent_by_manifest.get(child) {
            Some(snapshot) => Some(*snapshot),
            None => None,
        }
    }

    /// Every snapshot that an announcement, a body or a root manifest is
    /// recorded for, in snapshot-id order.
    pub fn recorded_snapshots(&self) -> (r: Vec<SnapshotId>)
        requires
            self.inv(),
        ensures
            r@ == in_order::<SnapshotId>(self@.recorded()),
            lists(r@, self@.recorded()),
    {
        let mut all: SortedSet<SnapshotId> = SortedSet::new();
        proof {
            self.announcements.lemma_keys();
            self.snapshot_bodies.lemma_keys();
            self.root_manifests_by_snapshot.lemma_keys();
        }
        let mut i: usize = 0;
        while i < self.announcements.len()
            invariant
                self.inv(),
                all.wf(),
                i <= self.announcements.keys().len(),
                forall|s: SnapshotId| #[trigger]
                    all@.contains(s) <==> self.announcements.keys().take(i as int).contains(s),
            decreases self.announcements.keys().len() - i,
        {
            all.insert(*self.announcements.key(i));
            proof {
                lemma_take_contains(self.announcements.keys(), i as int);
            }
            i = i + 1;
        }
        proof {
            assert(self.announcements.keys().take(i as int) =~= self.announcements.keys());
        }
        let mut j: usize = 0;
        while j < self.snapshot_bodies.len()
            invariant
                self.inv(),
                all.wf(),
                j <= self.snapshot_bodies.keys().len(),
                forall|s: SnapshotId| #[trigger]
                    all@.contains(s) <==> self.announcements.keys().contains(s)
                        || self.snapshot_bodies.keys().take(j as int).contains(s),
            decreases self.snapshot_bodies.keys().len() - j,
        {
            all.insert(*self.snapshot_bodies.key(j));
            proof {
                lemma_take_contains(self.snapshot_bodies.keys(), j as int);
            }
            j = j + 1;
        }
        proof {
            assert(self.snapshot_bodies.keys().take(j as int) =~= self.snapshot_bodies.keys());
        }
        let mut k: usize = 0;
        while k < self.root_manifests_by_snapshot.len()
            invariant
                self.inv(),
                all.wf(),
                k <= self.root_manifests_by_snapshot.keys().len(),
                forall|s: SnapshotId| #[trigger]
                    all@.contains(s) <==> self.announcements.keys().contains(s)
                        || self.snapshot_bodies.keys().contains(s)
                        || self.root_manifests_by_snapshot.keys().take(k as int).contains(s),
            decreases self.root_manifests_by_snapshot.keys().len() - k,
        {
            all.insert(*self.root_manifests_by_snapshot.key(k));
            proof {
                lemma_take_contains(self.root_manifests_by_snapshot.keys(), k as int);
            }
            k = k + 1;
        }
        proof {
            assert(self.root_manifests_by_snapshot.keys().take(k as int)
                =~= self.root_manifests_by_snapshot.keys());
            assert forall|s: SnapshotId| all@.contains(s) == self@.recorded().contains(s) by {
                assert(self.announcements.keys().contains(s) <==> self.announcements@.dom().contains(s));
                assert(self.snapshot_bodies.keys().contains(s) <==> self.snapshot_bodies@.dom().contains(s));
                assert(self.root_manifests_by_snapshot.keys().contains(s)
                    <==> self.root_manifests_by_snapshot@.dom().contains(s));
                assert(self@.roots.dom().contains(s) <==> self.root_manifests_by_snapshot@.dom().contains(s));
            }
            assert(all@ =~= self@.recorded());
        }
        members(&all)
    }

    /// Every recorded manifest record, in manifest-id order.
    pub fn manifest_records(&self) -> (r: Vec<&ManifestRecord>)
        requires
            self.inv(),
        ensures
            r@.len() == records_in_order(self@.manifests).len(),
            forall|i: int|
                0 <= i < r@.len() ==> *(#[trigger] r@[i]) == records_in_order(self@.manifests)[i]
                    && r@[i].wf(),
    {
        proof {
            self.manifests.lemma_keys();
        }
        let mut r: Vec<&ManifestRecord> = Vec::new();
        let mut i: usize = 0;
        while i < self.manifests.len()
            invariant
                self.inv(),
                self.manifests.keys() == in_order::<ContentId>(self@.manifests.dom()),
                i <= self.manifests.keys().len(),
                r@.len() == i,
                forall|j: int|
                    0 <= j < i ==> *(#[trigger] r@[j]) == records_in_order(self@.manifests)[j]
                        && r@[j].wf(),
            decreases self.manifests.keys().len() - i,
        {
            r.push(self.manifests.value(i));
            i = i + 1;
        }
        r
    }

    /// The root-manifest record served for one snapshot. A recorded root
    /// other than the announced one never stands in for it.
    pub fn root_manifest_record(&self, snapshot: &SnapshotId) -> (r: Option<&ManifestRecord>)
        requires
            self.inv(),
        ensures
            match self@.root_manifest(*snapshot) {
                Some(id) => r matches Some(m) && self@.manifests.contains_key(id) && *m
                    == self@.manifests[id],
                None => r is None,
            },
    {
        match self.root_manifests_by_snapshot.get(snapshot) {
            None => None,
            Some(roots) => {
                proof {
                    assert(self@.roots.contains_key(*snapshot));
                    assert(self@.roots[*snapshot] == roots@);
                    roots.lemma_keys();
                    let m = choose|m: ContentId| #[trigger] self@.roots[*snapshot].contains(m);
                    assert(roots.keys().contains(m));
                }
                let announced: Option<ContentId> = match self.announcements.get(snapshot) {
                    Some(announcement) => Some(announcement.root_manifest),
                    None => None,
                };
                let smallest: ContentId = *roots.key(0);
                proof {
                    assert(roots.keys().contains(smallest));
                    assert(self@.roots[*snapshot].contains(smallest));
                }
                let id: ContentId = match announced {
                    Some(id) => if roots.contains(&id) {
                        id
                    } else {
                        smallest
                    },
                    None => smallest,
                };
                proof {
                    assert(self@.roots[*snapshot].contains(id));
                    assert(is_root_of(self@.manifests, id, *snapshot));
                }
                self.manifests.get(&id)
            },
        }
    }

    /// Every recorded mapping for one plaintext content, in manifest-id
    /// order.
    pub fn recorded_mappings(&self, content: &ContentId) -> (r: Vec<ManifestEntry>)
        requires
            self.inv(),
        ensures
            r@ == mappings(entries_of(records_in_order(self@.manifests)), *content),
    {
        proof {
            self.manifests.lemma_keys();
        }
        let ghost records = records_in_order(self@.manifests);
        let mut r: Vec<ManifestEntry> = Vec::new();
        let mut i: usize = 0;
        while i < self.manifests.len()
            invariant
                self.inv(),
                self.manifests.keys() == in_order::<ContentId>(self@.manifests.dom()),
                records == records_in_order(self@.manifests),
                i <= self.manifests.keys().len(),
                r@ == mappings(entries_of(records.take(i as int)), *content),
            decreases self.manifests.keys().len() - i,
        {
            let record = self.manifests.value(i);
            let ghost head = entries_of(records.take(i as int));
            let ghost own = record.manifest.entries@;
            let mut j: usize = 0;
            proof {
                assert(own.take(0) =~= Seq::<ManifestEntry>::empty());
                assert(head + own.take(0) =~= head);
            }
            while j < record.manifest.entries.len()
                invariant
                    own == record.manifest.entries@,
                    j <= own.len(),
                    r@ == mappings(head + own.take(j as int), *content),
                decreases own.len() - j,
            {
                let entry: ManifestEntry = record.manifest.entries[j];
                proof {
                    let next = head + own.take(j + 1);
                    assert(next.drop_last() =~= head + own.take(j as int));
                    assert(next.last() == entry);
                }
                if entry.content_id.same(content) {
                    r.push(entry);
                }
                j = j + 1;
            }
            proof {
                assert(own.take(j as int) =~= own);
                assert(records.take(i + 1).drop_last() =~= records.take(i as int));
                assert(records.take(i + 1).last() == *record);
            }
            i = i + 1;
        }
        proof {
            assert(records.take(i as int) =~= records);
        }
        r
    }

    /// Remembers that an object is present locally; `true` when it was not.
    pub fn mark_local_object(&mut self, content_id: ContentId) -> (first: bool)
        requires
            old(self).inv(),
        ensures
            final(self).inv(),
            final(self)@ == (RuntimeView {
                local: old(self)@.local.insert(content_id),
                ..old(self)@
            }),
            first == !old(self)@.local.contains(content_id),
    {
        let first = self.local_objects.insert(content_id);
        proof {
            assert(self@ =~= (RuntimeView {
                local: old(self)@.local.insert(content_id),
                ..old(self)@
            }));
        }
        first
    }

    /// Forgets that an object is present locally; `true` when it was.
    pub fn remove_local_object(&mut self, content_id: ContentId) -> (was: bool)
        requires
            old(self).inv(),
        ensures
            final(self).inv(),
            final(self)@ == (RuntimeView {
                local: old(self)@.local.remove(content_id),
                ..old(self)@
            }),
            was == old(self)@.local.contains(content_id),
    {
        let was = self.local_objects.remove(&content_id);
        proof {
            assert(self@ =~= (RuntimeView {
                local: old(self)@.local.remove(content_id),
                ..old(self)@
            }));
        }
        was
    }

    /// Sets the residency policy for one content object and returns the
    /// policy it replaces.
    pub fn set_materialization(
        &mut self,
        content_id: ContentId,
        state: MaterializationState,
    ) -> (r: Option<MaterializationState>)
        requires
            old(self).inv(),
        ensures
            final(self).inv(),
            final(self)@ == (RuntimeView {
                materialization: old(self)@.materialization.insert(content_id, state),
                ..old(self)@
            }),
            r == old(self)@.materialization.get(content_id),
    {
        let displaced = self.materialization.insert(content_id, state);
        proof {
            assert(self@ =~= (RuntimeView {
                materialization: old(self)@.materialization.insert(content_id, state),
                ..old(self)@
            }));
        }
        displaced
    }
}

/// The members of a prefix that is one longer.
proof fn lemma_take_contains<T>(s: Seq<T>, i: int)
    requires
        0 <= i < s.len(),
    ensures
        forall|x: T| #[trigger] s.take(i + 1).contains(x) <==> s.take(i).contains(x) || x == s[i],
{
    assert forall|x: T| #[trigger] s.take(i + 1).contains(x) <==> s.take(i).contains(x) || x
        == s[i] by {
        if s.take(i).contains(x) {
            let j = s.take(i).index_of(x);
            assert(s.take(i)[j] == x);
            assert(s.take(i + 1)[j] == x);
        }
        if s.take(i + 1).contains(x) {
            let j = s.take(i + 1).index_of(x);
            assert(s.take(i + 1)[j] == x);
            if j < i {
                assert(s.take(i)[j] == x);
            }
        }
        assert(s.take(i + 1)[i] == s[i]);
    }
}

/// The members of a set of snapshots, in order.
fn members(set: &SortedSet<SnapshotId>) -> (r: Vec<SnapshotId>)
    requires
        set.wf(),
    ensures
        r@ == in_order::<SnapshotId>(set@),
        lists(r@, set@),
{
    proof {
        set.lemma_keys();
    }
    let mut r: Vec<SnapshotId> = Vec::new();
    let mut i: usize = 0;
    while i < set.len()
        invariant
            i <= set.keys().len(),
            r@ == set.keys().take(i as int),
        decreases set.keys().len() - i,
    {
        r.push(*set.key(i));
        i = i + 1;
        proof {
            assert(r@ =~= set.keys().take(i as int));
        }
    }
    proof {
        assert(r@ =~= set.keys());
    }
    r
}

/// The outboxes: what is owed to whom, and the exact bytes it is paid in.
impl RuntimeState {
    /// Queues an announcement for one recipient; `true` the first time.
    pub fn record_announcement_queued(
        &mut self,
        snapshot: SnapshotId,
        recipient: DeviceId,
    ) -> (first: bool)
        requires
            old(self).inv(),
        ensures
            final(self).inv(),
            final(self)@ == (RuntimeView {
                announcement: old(self)@.announcement.queue((snapshot, recipient)),
                ..old(self)@
            }),
            first == !old(self)@.announcement.queued.contains((snapshot, recipient)),
    {
        let first = self.announcement.queue((snapshot, recipient));
        proof {
            assert(self@ =~= (RuntimeView {
                announcement: old(self)@.announcement.queue((snapshot, recipient)),
                ..old(self)@
            }));
        }
        first
    }

    /// Keeps the sealed announcement of a snapshot. The first seal wins.
    pub fn record_announcement_sealed(
        &mut self,
        snapshot: SnapshotId,
        sealed: Vec<u8>,
    ) -> (kept: bool)
        requires
            old(self).inv(),
        ensures
            final(self).inv(),
            kept == !old(self)@.announcement_sealed.contains_key(snapshot),
            final(self)@ == if kept {
                RuntimeView {
                    announcement_sealed: old(self)@.announcement_sealed.insert(snapshot, sealed),
                    ..old(self)@
                }
            } else {
                old(self)@
            },
    {
        let kept = seal_first(&mut self.announcement_sealed, snapshot, sealed);
        proof {
            if kept {
                assert(self@ =~= (RuntimeView {
                    announcement_sealed: old(self)@.announcement_sealed.insert(snapshot, sealed),
                    ..old(self)@
                }));
            } else {
                assert(self@ =~= old(self)@);
            }
        }
        kept
    }

    /// Keeps a reseal for one snapshot under one route. The first seal for
    /// the pair wins.
    pub fn record_announcement_route_sealed(
        &mut self,
        snapshot: SnapshotId,
        route: Vec<u8>,
        sealed: Vec<u8>,
    ) -> (kept: bool)
        requires
            old(self).inv(),
        ensures
            final(self).inv(),
            kept == !old(self)@.announcement_route_sealed.contains_key((snapshot, route@)),
            final(self)@ == if kept {
                RuntimeView {
                    announcement_route_sealed: old(self)@.announcement_route_sealed.insert(
                        (snapshot, route@),
                        sealed,
                    ),
                    ..old(self)@
                }
            } else {
                old(self)@
            },
    {
        let ghost key = (snapshot, route@);
        let kept = seal_first(&mut self.announcement_route_sealed, (snapshot, route), sealed);
        proof {
            if kept {
                assert(self@ =~= (RuntimeView {
                    announcement_route_sealed: old(self)@.announcement_route_sealed.insert(
                        key,
                        sealed,
                    ),
                    ..old(self)@
                }));
            } else {
                assert(self@ =~= old(self)@);
            }
        }
        kept
    }

    /// Marks an announcement as delivered; `true` the first time.
    pub fn record_announcement_delivered(
        &mut self,
        snapshot: SnapshotId,
        recipient: DeviceId,
    ) -> (first: bool)
        requires
            old(self).inv(),
        ensures
            final(self).inv(),
            final(self)@ == (RuntimeView {
                announcement: old(self)@.announcement.discharge((snapshot, recipient)),
                ..old(self)@
            }),
            first == !old(self)@.announcement.discharged.contains((snapshot, recipient)),
    {
        let first = self.announcement.discharge((snapshot, recipient));
        proof {
            assert(self@ =~= (RuntimeView {
                announcement: old(self)@.announcement.discharge((snapshot, recipient)),
                ..old(self)@
            }));
        }
        first
    }

    /// The sealed announcement of a snapshot, if a send sealed it.
    pub fn announcement_sealed_bytes(&self, snapshot: &SnapshotId) -> (r: Option<&[u8]>)
        requires
            self.inv(),
        ensures
            match r {
                Some(bytes) => self@.announcement_sealed.contains_key(*snapshot) && bytes@
                    == self@.announcement_sealed[*snapshot]@,
                None => !self@.announcement_sealed.contains_key(*snapshot),
            },
    {
        match self.announcement_sealed.get(snapshot) {
            Some(bytes) => Some(bytes.as_slice()),
            None => None,
        }
    }

    /// The reseal for one snapshot under one route, if there is one.
    pub fn announcement_route_sealed_bytes(
        &self,
        snapshot: &SnapshotId,
        route: &[u8],
    ) -> (r: Option<&[u8]>)
        requires
            self.inv(),
        ensures
            match r {
                Some(bytes) => self@.announcement_route_sealed.contains_key((*snapshot, route@)) && bytes@
                    == self@.announcement_route_sealed[(*snapshot, route@)]@,
                None => !self@.announcement_route_sealed.contains_key((*snapshot, route@)),
            },
    {
        let key: (SnapshotId, Vec<u8>) = (*snapshot, vstd::slice::slice_to_vec(route));
        match self.announcement_route_sealed.get(&key) {
            Some(bytes) => Some(bytes.as_slice()),
            None => None,
        }
    }

    /// The announcements still owed, by snapshot and then by recipient.
    pub fn pending_announcements(&self) -> (r: Vec<(SnapshotId, DeviceId)>)
        requires
            self.inv(),
        ensures
            r@ == in_order::<(SnapshotId, DeviceId)>(self@.announcement.pending()),
            lists(r@, self@.announcement.pending()),
    {
        let r = self.announcement.pending();
        proof {
            assert(models(r@) =~= r@);
        }
        r
    }

    /// Whether an announcement is queued or delivered.
    pub fn announcement_covered(&self, snapshot: SnapshotId, recipient: DeviceId) -> (b: bool)
        requires
            self.inv(),
        ensures
            b == self@.announcement.covered((snapshot, recipient)),
    {
        self.announcement.covered(&(snapshot, recipient))
    }

    /// Queues a transition for one recipient; `true` the first time.
    pub fn record_transition_queued(
        &mut self,
        id: TransitionId,
        recipient: DeviceId,
    ) -> (first: bool)
        requires
            old(self).inv(),
        ensures
            final(self).inv(),
            final(self)@ == (RuntimeView {
                transition: old(self)@.transition.queue((id, recipient)),
                ..old(self)@
            }),
            first == !old(self)@.transition.queued.contains((id, recipient)),
    {
        let first = self.transition.queue((id, recipient));
        proof {
            assert(self@ =~= (RuntimeView {
                transition: old(self)@.transition.queue((id, recipient)),
                ..old(self)@
            }));
        }
        first
    }

    /// Keeps the sealed bytes of a transition. The first seal wins.
    pub fn record_transition_sealed(&mut self, id: TransitionId, sealed: Vec<u8>) -> (kept: bool)
        requires
            old(self).inv(),
        ensures
            final(self).inv(),
            kept == !old(self)@.transition_sealed.contains_key(id),
            final(self)@ == if kept {
                RuntimeView {
                    transition_sealed: old(self)@.transition_sealed.insert(id, sealed),
                    ..old(self)@
                }
            } else {
                old(self)@
            },
    {
        let kept = seal_first(&mut self.transition_sealed, id, sealed);
        proof {
            if kept {
                assert(self@ =~= (RuntimeView {
                    transition_sealed: old(self)@.transition_sealed.insert(id, sealed),
                    ..old(self)@
                }));
            } else {
                assert(self@ =~= old(self)@);
            }
        }
        kept
    }

    /// Marks a transition as delivered; `true` the first time.
    pub fn record_transition_delivered(
        &mut self,
        id: TransitionId,
        recipient: DeviceId,
    ) -> (first: bool)
        requires
            old(self).inv(),
        ensures
            final(self).inv(),
            final(self)@ == (RuntimeView {
                transition: old(self)@.transition.discharge((id, recipient)),
                ..old(self)@
            }),
            first == !old(self)@.transition.discharged.contains((id, recipient)),
    {
        let first = self.transition.discharge((id, recipient));
        proof {
            assert(self@ =~= (RuntimeView {
                transition: old(self)@.transition.discharge((id, recipient)),
                ..old(self)@
            }));
        }
        first
    }

    /// The sealed bytes of a transition, if a send sealed them.
    pub fn transition_sealed_bytes(&self, id: TransitionId) -> (r: Option<&[u8]>)
        requires
            self.inv(),
        ensures
            match r {
                Some(bytes) => self@.transition_sealed.contains_key(id) && bytes@
                    == self@.transition_sealed[id]@,
                None => !self@.transition_sealed.contains_key(id),
            },
    {
        match self.transition_sealed.get(&id) {
            Some(bytes) => Some(bytes.as_slice()),
            None => None,
        }
    }

    /// The transitions still owed, by transition and then by recipient.
    pub fn pending_transitions(&self) -> (r: Vec<(TransitionId, DeviceId)>)
        requires
            self.inv(),
        ensures
            r@ == in_order::<(TransitionId, DeviceId)>(self@.transition.pending()),
            lists(r@, self@.transition.pending()),
    {
        let r = self.transition.pending();
        proof {
            assert(models(r@) =~= r@);
        }
        r
    }

    /// Whether a transition is queued or delivered.
    pub fn transition_covered(&self, id: TransitionId, recipient: DeviceId) -> (b: bool)
        requires
            self.inv(),
        ensures
            b == self@.transition.covered((id, recipient)),
    {
        self.transition.covered(&(id, recipient))
    }

    /// Queues an epoch's capability for one recipient; `true` the first time.
    pub fn record_capability_queued(&mut self, epoch: u64, recipient: DeviceId) -> (first: bool)
        requires
            old(self).inv(),
        ensures
            final(self).inv(),
            final(self)@ == (RuntimeView {
                capability: old(self)@.capability.queue((epoch, recipient)),
                ..old(self)@
            }),
            first == !old(self)@.capability.queued.contains((epoch, recipient)),
    {
        let first = self.capability.queue((epoch, recipient));
        proof {
            assert(self@ =~= (RuntimeView {
                capability: old(self)@.capability.queue((epoch, recipient)),
                ..old(self)@
            }));
        }
        first
    }

    /// Keeps the sealed capability of an epoch for one recipient. The first
    /// seal for the pair wins.
    pub fn record_capability_sealed(
        &mut self,
        epoch: u64,
        recipient: DeviceId,
        sealed: Vec<u8>,
    ) -> (kept: bool)
        requires
            old(self).inv(),
        ensures
            final(self).inv(),
            kept == !old(self)@.capability_sealed.contains_key((epoch, recipient)),
            final(self)@ == if kept {
                RuntimeView {
                    capability_sealed: old(self)@.capability_sealed.insert((epoch, recipient), sealed),
                    ..old(self)@
                }
            } else {
                old(self)@
            },
    {
        let kept = seal_first(&mut self.capability_sealed, (epoch, recipient), sealed);
        proof {
            if kept {
                assert(self@ =~= (RuntimeView {
                    capability_sealed: old(self)@.capability_sealed.insert((epoch, recipient), sealed),
                    ..old(self)@
                }));
            } else {
                assert(self@ =~= old(self)@);
            }
        }
        kept
    }

    /// Replaces the sealed capability that `supersedes` names. `identity`
    /// names the capability that is held for the pair; when that is not the
    /// one superseded, or none is held, nothing changes.
    pub fn record_capability_replaced<
        I: FnOnce(u64, &DeviceId, &Vec<u8>) -> SealedCapabilityFactId,
    >(
        &mut self,
        epoch: u64,
        recipient: DeviceId,
        identity: I,
        supersedes: SealedCapabilityFactId,
        replacement: Vec<u8>,
    )
        requires
            old(self).inv(),
            old(self)@.capability_sealed.contains_key((epoch, recipient)) ==> call_requires(
                identity,
                (epoch, &recipient, &old(self)@.capability_sealed[(epoch, recipient)]),
            ),
        ensures
            final(self).inv(),
            if old(self)@.capability_sealed.contains_key((epoch, recipient)) {
                exists|current: SealedCapabilityFactId| #[trigger]
                    call_ensures(
                        identity,
                        (epoch, &recipient, &old(self)@.capability_sealed[(epoch, recipient)]),
                        current,
                    ) && final(self)@ == if current == supersedes {
                        RuntimeView {
                            capability_sealed: old(self)@.capability_sealed.insert(
                                (epoch, recipient),
                                replacement,
                            ),
                            ..old(self)@
                        }
                    } else {
                        old(self)@
                    }
            } else {
                final(self)@ == old(self)@
            },
    {
        let current: SealedCapabilityFactId = match self.capability_sealed.get(
            &(epoch, recipient),
        ) {
            Some(held) => identity(epoch, &recipient, held),
            None => return,
        };
        if !current.same(&supersedes) {
            return;
        }
        self.capability_sealed.insert((epoch, recipient), replacement);
        proof {
            assert(self@ =~= (RuntimeView {
                capability_sealed: old(self)@.capability_sealed.insert(
                    (epoch, recipient),
                    replacement,
                ),
                ..old(self)@
            }));
        }
    }

    /// Marks a capability as delivered; `true` the first time.
    pub fn record_capability_delivered(&mut self, epoch: u64, recipient: DeviceId) -> (first: bool)
        requires
            old(self).inv(),
        ensures
            final(self).inv(),
            final(self)@ == (RuntimeView {
                capability: old(self)@.capability.discharge((epoch, recipient)),
                ..old(self)@
            }),
            first == !old(self)@.capability.discharged.contains((epoch, recipient)),
    {
        let first = self.capability.discharge((epoch, recipient));
        proof {
            assert(self@ =~= (RuntimeView {
                capability: old(self)@.capability.discharge((epoch, recipient)),
                ..old(self)@
            }));
        }
        first
    }

    /// The sealed capability of an epoch for one recipient, if sealed.
    pub fn capability_sealed_bytes(&self, epoch: u64, recipient: DeviceId) -> (r: Option<&[u8]>)
        requires
            self.inv(),
        ensures
            match r {
                Some(bytes) => self@.capability_sealed.contains_key((epoch, recipient)) && bytes@
                    == self@.capability_sealed[(epoch, recipient)]@,
                None => !self@.capability_sealed.contains_key((epoch, recipient)),
            },
    {
        match self.capability_sealed.get(&(epoch, recipient)) {
            Some(bytes) => Some(bytes.as_slice()),
            None => None,
        }
    }

    /// The capabilities still owed, by epoch and then by recipient.
    pub fn pending_capabilities(&self) -> (r: Vec<(u64, DeviceId)>)
        requires
            self.inv(),
        ensures
            r@ == in_order::<(u64, DeviceId)>(self@.capability.pending()),
            lists(r@, self@.capability.pending()),
    {
        let r = self.capability.pending();
        proof {
            assert(models(r@) =~= r@);
        }
        r
    }

    /// Whether a capability is queued or delivered.
    pub fn capability_covered(&self, epoch: u64, recipient: DeviceId) -> (b: bool)
        requires
            self.inv(),
        ensures
            b == self@.capability.covered((epoch, recipient)),
    {
        self.capability.covered(&(epoch, recipient))
    }

    /// Queues a head to be re-authored at a new epoch; `true` the first time.
    pub fn record_carry_queued(&mut self, head: SnapshotId) -> (first: bool)
        requires
            old(self).inv(),
        ensures
            final(self).inv(),
            final(self)@ == (RuntimeView {
                carry: old(self)@.carry.queue(head),
                ..old(self)@
            }),
            first == !old(self)@.carry.queued.contains(head),
    {
        let first = self.carry.queue(head);
        proof {
            assert(self@ =~= (RuntimeView {
                carry: old(self)@.carry.queue(head),
                ..old(self)@
            }));
        }
        first
    }

    /// Marks a head as carried, or as needing no carry; `true` the first time.
    pub fn record_carry_done(&mut self, head: SnapshotId) -> (first: bool)
        requires
            old(self).inv(),
        ensures
            final(self).inv(),
            final(self)@ == (RuntimeView {
                carry: old(self)@.carry.discharge(head),
                ..old(self)@
            }),
            first == !old(self)@.carry.discharged.contains(head),
    {
        let first = self.carry.discharge(head);
        proof {
            assert(self@ =~= (RuntimeView {
                carry: old(self)@.carry.discharge(head),
                ..old(self)@
            }));
        }
        first
    }

    /// The heads still to carry, in ascending order.
    pub fn pending_carries(&self) -> (r: Vec<SnapshotId>)
        requires
            self.inv(),
        ensures
            r@ == in_order::<SnapshotId>(self@.carry.pending()),
            lists(r@, self@.carry.pending()),
    {
        let r = self.carry.pending();
        proof {
            assert(models(r@) =~= r@);
        }
        r
    }

    /// Whether a head is queued or carried.
    pub fn carry_covered(&self, head: SnapshotId) -> (b: bool)
        requires
            self.inv(),
        ensures
            b == self@.carry.covered(head),
    {
        self.carry.covered(&head)
    }
}

/// One object fetch that the state still wants.
#[derive(Debug, Clone, Copy, PartialEq, Eq)]
pub struct PendingObjectFetch {
    pub content_id: ContentId,
    pub storage_id: StorageId,
    pub transport: BaoRoot,
    pub kind: ObjectKind,
    pub version: u8,
    pub encryption_epoch: u64,
    pub size: u64,
}

impl PendingObjectFetch {
    pub fn same(&self, other: &Self) -> (b: bool)
        ensures
            b == (*self == *other),
    {
        self.content_id.same(&other.content_id) && self.storage_id.same(&other.storage_id)
            && self.transport.same(&other.transport) && self.kind == other.kind && self.version
            == other.version && self.encryption_epoch == other.encryption_epoch && self.size
            == other.size
    }
}

/// What still has to be fetched.
#[derive(Debug, PartialEq, Eq)]
pub struct RuntimeReconcile {
    /// Announced snapshots without a recorded root manifest.
    pub pending_snapshots: SortedSet<SnapshotId>,
    /// Announced snapshots without a recorded body.
    pub pending_snapshot_bodies: SortedSet<SnapshotId>,
    /// Linked child manifests that are not recorded, with the first link.
    pub pending_manifests: SortedMap<ContentId, ChildManifest>,
    /// Wanted objects with every distinct representation they are mapped
    /// to, in the order in which the mappings are met.
    pub pending_objects: SortedMap<ContentId, Vec<PendingObjectFetch>>,
}

/// The fetch that an entry asks for.
pub open spec fn candidate_of(entry: ManifestEntry) -> PendingObjectFetch {
    PendingObjectFetch {
        content_id: entry.content_id,
        storage_id: entry.storage_id,
        transport: entry.transport,
        kind: entry.kind,
        version: entry.version,
        encryption_epoch: entry.encryption_epoch,
        size: entry.size,
    }
}

/// The first link that names a child.
pub open spec fn first_link(links: Seq<ChildManifest>, child: ContentId) -> Option<ChildManifest>
    decreases links.len(),
{
    if links.len() == 0 {
        None
    } else {
        match first_link(links.drop_last(), child) {
            Some(link) => Some(link),
            None => if links.last().manifest == child {
                Some(links.last())
            } else {
                None
            },
        }
    }
}

impl RuntimeView {
    /// Whether an entry's object is to be fetched: directory nodes always,
    /// content only where the residency policy asks for it, and nothing
    /// that is already local.
    pub open spec fn wants(self, entry: ManifestEntry) -> bool {
        !self.local.contains(entry.content_id) && (entry.kind == ObjectKind::Tree || self.desired(
            entry.content_id,
        ) != MaterializationState::RemoteOnly)
    }

    /// The distinct fetches that the wanted entries for one content ask
    /// for, in the order of their first entry.
    pub open spec fn candidates(self, entries: Seq<ManifestEntry>, content: ContentId) -> Seq<
        PendingObjectFetch,
    >
        decreases entries.len(),
    {
        if entries.len() == 0 {
            Seq::empty()
        } else {
            let earlier = self.candidates(entries.drop_last(), content);
            let entry = entries.last();
            if entry.content_id == content && self.wants(entry) && !earlier.contains(
                candidate_of(entry),
            ) {
                earlier.push(candidate_of(entry))
            } else {
                earlier
            }
        }
    }

    /// The child manifests still to fetch, found in a sequence of links.
    pub open spec fn plans_manifests(
        self,
        links: Seq<ChildManifest>,
        plan: Map<ContentId, ChildManifest>,
    ) -> bool {
        &&& forall|c: ContentId| #[trigger]
            plan.contains_key(c) <==> !self.manifests.contains_key(c) && first_link(
                links,
                c,
            ) is Some
        &&& forall|c: ContentId| #[trigger]
            plan.contains_key(c) ==> first_link(links, c) == Some(plan[c])
    }

    /// The objects still to fetch, found in a sequence of entries.
    pub open spec fn plans_objects(
        self,
        entries: Seq<ManifestEntry>,
        plan: Map<ContentId, Vec<PendingObjectFetch>>,
    ) -> bool {
        &&& forall|c: ContentId| #[trigger]
            plan.contains_key(c) <==> self.candidates(entries, c).len() > 0
        &&& forall|c: ContentId| #[trigger]
            plan.contains_key(c) ==> plan[c]@ == self.candidates(entries, c)
    }

    /// The whole fetch plan.
    pub open spec fn plans(self, plan: &RuntimeReconcile) -> bool {
        let records = records_in_order(self.manifests);
        &&& plan.pending_snapshots@ == self.announcements.dom().difference(self.roots.dom())
        &&& plan.pending_snapshot_bodies@ == self.announcements.dom().difference(
            self.bodies.dom(),
        )
        &&& self.plans_manifests(links_of(records), plan.pending_manifests@)
        &&& self.plans_objects(entries_of(records), plan.pending_objects@)
    }
}

impl RuntimeReconcile {
    pub open spec fn wf(&self) -> bool {
        &&& self.pending_snapshots.wf()
        &&& self.pending_snapshot_bodies.wf()
        &&& self.pending_manifests.wf()
        &&& self.pending_objects.wf()
    }
}

impl RuntimeState {
    /// Announced snapshots that lack a root manifest, and those that lack
    /// a body.
    fn pending_announced(&self) -> (r: (SortedSet<SnapshotId>, SortedSet<SnapshotId>))
        requires
            self.inv(),
        ensures
            r.0.wf(),
            r.1.wf(),
            r.0@ == self@.announcements.dom().difference(self@.roots.dom()),
            r.1@ == self@.announcements.dom().difference(self@.bodies.dom()),
    {
        let mut snapshots: SortedSet<SnapshotId> = SortedSet::new();
        let mut bodies: SortedSet<SnapshotId> = SortedSet::new();
        proof {
            self.announcements.lemma_keys();
        }
        let ghost keys = self.announcements.keys();
        let mut i: usize = 0;
        while i < self.announcements.len()
            invariant
                self.inv(),
                snapshots.wf(),
                bodies.wf(),
                keys == self.announcements.keys(),
                i <= keys.len(),
                forall|s: SnapshotId| #[trigger]
                    snapshots@.contains(s) <==> keys.take(i as int).contains(s)
                        && !self@.roots.contains_key(s),
                forall|s: SnapshotId| #[trigger]
                    bodies@.contains(s) <==> keys.take(i as int).contains(s)
                        && !self@.bodies.contains_key(s),
            decreases keys.len() - i,
        {
            let snapshot: SnapshotId = *self.announcements.key(i);
            if !self.root_manifests_by_snapshot.contains_key(&snapshot) {
                snapshots.insert(snapshot);
            }
            if !self.snapshot_bodies.contains_key(&snapshot) {
                bodies.insert(snapshot);
            }
            proof {
                lemma_take_contains(keys, i as int);
            }
            i = i + 1;
        }
        proof {
            assert(keys.take(i as int) =~= keys);
            assert forall|s: SnapshotId|
                keys.contains(s) <==> self@.announcements.dom().contains(s) by {}
            assert(snapshots@ =~= self@.announcements.dom().difference(self@.roots.dom()));
            assert(bodies@ =~= self@.announcements.dom().difference(self@.bodies.dom()));
        }
        (snapshots, bodies)
    }

    /// Adds the unrecorded children of one manifest to the plan.
    fn plan_links(
        &self,
        children: &Vec<ChildManifest>,
        plan: &mut SortedMap<ContentId, ChildManifest>,
        Ghost(head): Ghost<Seq<ChildManifest>>,
    )
        requires
            self.inv(),
            old(plan).wf(),
            self@.plans_manifests(head, old(plan)@),
        ensures
            final(plan).wf(),
            self@.plans_manifests(head + children@, final(plan)@),
    {
        let mut i: usize = 0;
        proof {
            assert(head + children@.take(0) =~= head);
        }
        while i < children.len()
            invariant
                self.inv(),
                plan.wf(),
                i <= children@.len(),
                self@.plans_manifests(head + children@.take(i as int), plan@),
            decreases children@.len() - i,
        {
            let link: ChildManifest = children[i];
            let ghost links = head + children@.take(i as int);
            let ghost next = head + children@.take(i + 1);
            proof {
                assert(next.drop_last() =~= links);
                assert(next.last() == link);
            }
            if !self.manifests.contains_key(&link.manifest) && !plan.contains_key(&link.manifest) {
                plan.insert(link.manifest, link);
            }
            i = i + 1;
        }
        proof {
            assert(children@.take(i as int) =~= children@);
        }
    }

    /// Adds the wanted objects of one manifest to the plan.
    fn plan_entries(
        &self,
        entries: &Vec<ManifestEntry>,
        plan: &mut SortedMap<ContentId, Vec<PendingObjectFetch>>,
        Ghost(head): Ghost<Seq<ManifestEntry>>,
    )
        requires
            self.inv(),
            old(plan).wf(),
            self@.plans_objects(head, old(plan)@),
        ensures
            final(plan).wf(),
            self@.plans_objects(head + entries@, final(plan)@),
    {
        let mut i: usize = 0;
        proof {
            assert(head + entries@.take(0) =~= head);
        }
        while i < entries.len()
            invariant
                self.inv(),
                plan.wf(),
                i <= entries@.len(),
                self@.plans_objects(head + entries@.take(i as int), plan@),
            decreases entries@.len() - i,
        {
            let entry: ManifestEntry = entries[i];
            let ghost met = head + entries@.take(i as int);
            let ghost next = head + entries@.take(i + 1);
            let ghost before = plan@;
            proof {
                assert(next.drop_last() =~= met);
                assert(next.last() == entry);
            }
            let wanted: bool = !self.local_objects.contains(&entry.content_id) && (entry.kind
                == ObjectKind::Tree || self.desired(&entry.content_id)
                != MaterializationState::RemoteOnly);
            if wanted {
                let candidate = PendingObjectFetch {
                    content_id: entry.content_id,
                    storage_id: entry.storage_id,
                    transport: entry.transport,
                    kind: entry.kind,
                    version: entry.version,
                    encryption_epoch: entry.encryption_epoch,
                    size: entry.size,
                };
                let mut candidates: Vec<PendingObjectFetch> = match plan.remove(&entry.content_id) {
                    Some(known) => known,
                    None => Vec::new(),
                };
                proof {
                    if !before.contains_key(entry.content_id) {
                        assert(self@.candidates(met, entry.content_id).len() == 0);
                        assert(candidates@ =~= self@.candidates(met, entry.content_id));
                    }
                }
                if !holds_candidate(&candidates, &candidate) {
                    candidates.push(candidate);
                }
                plan.insert(entry.content_id, candidates);
                proof {
                    assert(plan@[entry.content_id]@ == self@.candidates(next, entry.content_id));
                    assert(self@.candidates(next, entry.content_id).contains(candidate)) by {
                        if self@.candidates(met, entry.content_id).contains(candidate) {
                        } else {
                            let s = self@.candidates(next, entry.content_id);
                            assert(s[s.len() - 1] == candidate);
                        }
                    }
                    assert forall|c: ContentId| c != entry.content_id implies #[trigger] plan@.contains_key(c)
                        == before.contains_key(c) && self@.candidates(next, c) == self@.candidates(met, c) by {}
                }
            } else {
                proof {
                    assert forall|c: ContentId| self@.candidates(next, c) == self@.candidates(met, c) by {}
                }
            }
            i = i + 1;
        }
        proof {
            assert(entries@.take(i as int) =~= entries@);
        }
    }

    /// The current fetch plan: announcements without a recorded root
    /// manifest or body, linked children that are not recorded, and wanted
    /// objects that are not local.
    pub fn reconcile(&self) -> (r: RuntimeReconcile)
        requires
            self.inv(),
        ensures
            r.wf(),
            self@.plans(&r),
    {
        let (pending_snapshots, pending_snapshot_bodies) = self.pending_announced();
        let mut pending_manifests: SortedMap<ContentId, ChildManifest> = SortedMap::new();
        let mut pending_objects: SortedMap<ContentId, Vec<PendingObjectFetch>> = SortedMap::new();
        proof {
            self.manifests.lemma_keys();
        }
        let ghost records = records_in_order(self@.manifests);
        let mut i: usize = 0;
        while i < self.manifests.len()
            invariant
                self.inv(),
                self.manifests.keys() == in_order::<ContentId>(self@.manifests.dom()),
                records == records_in_order(self@.manifests),
                i <= self.manifests.keys().len(),
                pending_manifests.wf(),
                pending_objects.wf(),
                self@.plans_manifests(links_of(records.take(i as int)), pending_manifests@),
                self@.plans_objects(entries_of(records.take(i as int)), pending_objects@),
            decreases self.manifests.keys().len() - i,
        {
            let record = self.manifests.value(i);
            proof {
                assert(records.take(i + 1).drop_last() =~= records.take(i as int));
                assert(records.take(i + 1).last() == *record);
            }
            self.plan_links(
                &record.manifest.children,
                &mut pending_manifests,
                Ghost(links_of(records.take(i as int))),
            );
            self.plan_entries(
                &record.manifest.entries,
                &mut pending_objects,
                Ghost(entries_of(records.take(i as int))),
            );
            i = i + 1;
        }
        proof {
            assert(records.take(i as int) =~= records);
        }
        RuntimeReconcile {
            pending_snapshots,
            pending_snapshot_bodies,
            pending_manifests,
            pending_objects,
        }
    }
}

/// Whether a fetch is already among the candidates.
fn holds_candidate(candidates: &Vec<PendingObjectFetch>, candidate: &PendingObjectFetch) -> (b:
    bool)
    ensures
        b == candidates@.contains(*candidate),
{
    let mut i: usize = 0;
    while i < candidates.len()
        invariant
            i <= candidates@.len(),
            forall|j: int| 0 <= j < i ==> candidates@[j] != *candidate,
        decreases candidates@.len() - i,
    {
        if candidates[i].same(candidate) {
            return true;
        }
        i = i + 1;
    }
    false
}

} // verus!
