//! Records, reconciliation and obligations of the runtime state.

use wyrd_sync::ids::{
    BaoRoot, ContentId, ControlMessageId, DeviceId, DriveId, SealedCapabilityFactId, SnapshotId,
    StorageId, TransitionId,
};
use wyrd_sync::model::{
    ChildManifest, FetchStatus, Manifest, ManifestEntry, ManifestRecord, ObjectKind, Snapshot,
    SnapshotAnnouncement,
};
use wyrd_sync::runtime::state::{MaterializationState, RuntimeError, RuntimeState};
use wyrd_sync::sorted::SortedMap;

/// A deterministic stand-in for the content hash.
fn digest(domain: u8, bytes: &[u8]) -> [u8; 32] {
    let mut out = [0u8; 32];
    for lane in 0..4u8 {
        let mut h: u64 = 0xcbf2_9ce4_8422_2325 ^ u64::from(lane) ^ (u64::from(domain) << 8);
        for b in bytes {
            h = (h ^ u64::from(*b)).wrapping_mul(0x0000_0100_0000_01b3);
            h ^= h >> 29;
        }
        out[usize::from(lane) * 8..usize::from(lane) * 8 + 8].copy_from_slice(&h.to_le_bytes());
    }
    out
}

fn canonical_bytes(manifest: &Manifest) -> Vec<u8> {
    let mut out = manifest.snapshot.as_bytes().to_vec();
    for entry in &manifest.entries {
        out.extend_from_slice(entry.content_id.as_bytes());
        out.extend_from_slice(entry.storage_id.as_bytes());
        out.extend_from_slice(&entry.encryption_epoch.to_le_bytes());
        out.extend_from_slice(&entry.size.to_le_bytes());
        out.extend_from_slice(entry.transport.as_bytes());
    }
    out.push(0xFF);
    for link in &manifest.children {
        out.extend_from_slice(link.tree.as_bytes());
        out.extend_from_slice(link.manifest.as_bytes());
        out.extend_from_slice(link.storage.as_bytes());
        out.extend_from_slice(link.transport.as_bytes());
    }
    out
}

fn manifest_id_for(record: &ManifestRecord) -> ContentId {
    ContentId::from_bytes(digest(3, &canonical_bytes(&record.manifest)))
}

fn record(state: &mut RuntimeState, record: ManifestRecord) -> Result<bool, RuntimeError> {
    state.record_manifest(record, |manifest: &Manifest| {
        ContentId::from_bytes(digest(3, &canonical_bytes(manifest)))
    })
}

fn drive() -> DriveId {
    DriveId::from_bytes([0xEE; 32])
}

fn announcement(snapshot: u8, author: u8, epoch: u64) -> SnapshotAnnouncement {
    announced(
        SnapshotId::from_bytes([snapshot; 32]),
        DeviceId::from_bytes([author; 32]),
        epoch,
        TransitionId::from_bytes([0x33; 32]),
    )
}

fn announced(
    snapshot: SnapshotId,
    author: DeviceId,
    epoch: u64,
    membership: TransitionId,
) -> SnapshotAnnouncement {
    SnapshotAnnouncement {
        snapshot,
        author,
        epoch,
        membership,
        body_root: BaoRoot::from_bytes([0x44; 32]),
        root_manifest: ContentId::from_bytes([0x55; 32]),
        root_manifest_transport: BaoRoot::from_bytes([0x66; 32]),
        node_addr: None,
        signature: [0x77; 64],
    }
}

fn representations(pairs: &[(u8, u8)]) -> SortedMap<StorageId, BaoRoot> {
    let mut map = SortedMap::new();
    for (storage, root) in pairs {
        map.insert(
            StorageId::from_bytes([*storage; 32]),
            BaoRoot::from_bytes([*root; 32]),
        );
    }
    map
}

fn manifest_record(
    snapshot: u8,
    manifest_id: u8,
    object: u8,
    child: u8,
    is_root: bool,
) -> ManifestRecord {
    let entry = ManifestEntry {
        content_id: ContentId::from_bytes([object; 32]),
        kind: ObjectKind::Chunk,
        version: 0,
        storage_id: StorageId::from_bytes([0xA0; 32]),
        encryption_epoch: 1,
        size: 123,
        transport: BaoRoot::from_bytes([0xB0; 32]),
    };
    ManifestRecord {
        is_root,
        manifest_id: ContentId::from_bytes([manifest_id; 32]),
        representations: representations(&[(0xA0, 0xC0)]),
        transport: BaoRoot::from_bytes([0xC0; 32]),
        manifest: Manifest::new(
            SnapshotId::from_bytes([snapshot; 32]),
            vec![entry],
            vec![ChildManifest {
                tree: ContentId::from_bytes([child; 32]),
                manifest: ContentId::from_bytes([child + 1; 32]),
                storage: StorageId::from_bytes([child + 2; 32]),
                transport: BaoRoot::from_bytes([0xB1; 32]),
            }],
        ),
    }
}

fn root_manifest(snapshot: u8, manifest_id: u8, object: u8, child: u8) -> ManifestRecord {
    let mut record = manifest_record(snapshot, manifest_id, object, child, true);
    record.manifest_id = manifest_id_for(&record);
    record
}

fn body(author: DeviceId, membership: TransitionId, epoch: u64) -> Snapshot {
    let mut encoded = vec![0x51; 32];
    encoded.extend_from_slice(author.as_bytes());
    encoded.extend_from_slice(membership.as_bytes());
    encoded.extend_from_slice(&epoch.to_le_bytes());
    encoded.extend_from_slice(&42u64.to_le_bytes());
    Snapshot {
        id: SnapshotId::from_bytes(digest(2, &encoded)),
        parents: Vec::new(),
        author,
        membership,
        epoch,
        encoded,
    }
}

#[test]
fn announcements_and_manifests_are_idempotent() {
    let mut state = RuntimeState::new(drive());
    assert!(state.record_announcement(announcement(1, 2, 3)).unwrap());
    assert!(!state.record_announcement(announcement(1, 2, 3)).unwrap());
    assert!(record(&mut state, root_manifest(1, 9, 4, 5)).unwrap());
    assert!(!record(&mut state, root_manifest(1, 9, 4, 5)).unwrap());

    let plan = state.reconcile();
    assert!(plan.pending_snapshots.is_empty());
    assert_eq!(plan.pending_manifests.len(), 1);
    assert_eq!(plan.pending_objects.len(), 0, "remote-only content is not queued");

    state.set_materialization(ContentId::from_bytes([4; 32]), MaterializationState::Cached);
    let plan = state.reconcile();
    assert_eq!(plan.pending_objects.len(), 1);
    assert_eq!(
        plan.pending_objects.get(&ContentId::from_bytes([4; 32])).unwrap()[0].kind,
        ObjectKind::Chunk
    );
    state.mark_local_object(ContentId::from_bytes([4; 32]));
    assert!(state.reconcile().pending_objects.is_empty());
}

#[test]
fn child_manifests_do_not_resolve_the_snapshot() {
    let mut state = RuntimeState::new(drive());
    state.record_announcement(announcement(1, 2, 3)).unwrap();

    let mut child = manifest_record(1, 8, 4, 5, false);
    child.is_root = false;
    child.manifest = Manifest::new(child.manifest.snapshot, Vec::new(), child.manifest.children);
    child.manifest_id = manifest_id_for(&child);
    assert!(record(&mut state, child).unwrap());

    let plan = state.reconcile();
    assert!(plan.pending_snapshots.contains(&SnapshotId::from_bytes([1; 32])));
    assert_eq!(plan.pending_manifests.len(), 1);

    let mut root = root_manifest(1, 9, 4, 5);
    root.representations
        .insert(StorageId::from_bytes([0xB0; 32]), BaoRoot::from_bytes([0xD0; 32]));
    assert!(record(&mut state, root).unwrap());
    assert!(state.reconcile().pending_snapshots.is_empty());
}

#[test]
fn derived_indexes_reject_child_claimed_by_another_snapshot() {
    let mut state = RuntimeState::new(drive());
    assert!(record(&mut state, root_manifest(1, 9, 4, 5)).unwrap());

    let conflicting = root_manifest(2, 10, 8, 5);
    assert!(matches!(
        record(&mut state, conflicting),
        Err(RuntimeError::ConflictingChildParent { .. })
    ));
    assert_eq!(
        state.manifest_parent_snapshot(&ContentId::from_bytes([6; 32])),
        Some(SnapshotId::from_bytes([1; 32]))
    );
}

#[test]
fn derived_indexes_reject_child_claimed_by_non_root_manifests() {
    let mut first = manifest_record(1, 9, 4, 5, false);
    first.manifest_id = manifest_id_for(&first);
    let mut state = RuntimeState::new(drive());
    assert!(record(&mut state, first).unwrap());

    let mut conflicting = manifest_record(2, 10, 8, 5, false);
    conflicting.manifest_id = manifest_id_for(&conflicting);
    assert!(matches!(
        record(&mut state, conflicting),
        Err(RuntimeError::ConflictingChildParent { .. })
    ));
    // The rejected insert leaves the index untouched.
    assert_eq!(
        state.manifest_parent_snapshot(&ContentId::from_bytes([6; 32])),
        Some(SnapshotId::from_bytes([1; 32]))
    );
    assert_eq!(state.manifest_records().len(), 1);
}

#[test]
fn derived_root_index_is_rebuilt_by_state_mutations() {
    let mut state = RuntimeState::new(drive());
    state.record_announcement(announcement(1, 2, 3)).unwrap();
    let root = root_manifest(1, 9, 4, 5);
    let root_id = root.manifest_id;
    record(&mut state, root).unwrap();

    assert!(state.reconcile().pending_snapshots.is_empty());
    assert_eq!(
        state
            .root_manifest_record(&SnapshotId::from_bytes([1; 32]))
            .map(|r| r.manifest_id),
        Some(root_id)
    );
}

#[test]
fn alternate_manifest_representations_merge_by_plaintext_identity() {
    let mut state = RuntimeState::new(drive());
    assert!(record(&mut state, root_manifest(1, 9, 4, 5)).unwrap());
    // A re-sealed representation: a fresh storage id and, with it, the
    // transport root of its own bytes.
    let mut a = root_manifest(1, 9, 4, 5);
    a.representations = representations(&[(0xB0, 0xD0)]);
    a.transport = BaoRoot::from_bytes([0xD0; 32]);
    assert!(!record(&mut state, a).unwrap());
    let stored = state
        .manifest_record(&manifest_id_for(&root_manifest(1, 9, 4, 5)))
        .unwrap();
    assert_eq!(stored.representations.len(), 2);
    assert_eq!(
        stored.representations.get(&StorageId::from_bytes([0xB0; 32])),
        Some(&BaoRoot::from_bytes([0xD0; 32])),
        "each storage id keeps its own root"
    );
}

#[test]
fn conflicting_representation_roots_leave_the_record_untouched() {
    let mut state = RuntimeState::new(drive());
    let mut first = root_manifest(1, 9, 4, 5);
    first.representations = representations(&[(0xB0, 0xC1)]);
    first.transport = BaoRoot::from_bytes([0xC1; 32]);
    assert!(record(&mut state, first).unwrap());

    // The new representation sorts before the conflicting one, so a merge
    // that is not atomic would leave it behind after the error.
    let mut second = root_manifest(1, 9, 4, 5);
    second.transport = BaoRoot::from_bytes([0xC1; 32]);
    second.representations = representations(&[(0xA0, 0xC2), (0xB0, 0xC3)]);
    assert!(matches!(
        record(&mut state, second),
        Err(RuntimeError::ConflictingManifest { .. })
    ));

    let stored = state
        .manifest_record(&manifest_id_for(&root_manifest(1, 9, 4, 5)))
        .unwrap();
    assert_eq!(stored.representations.len(), 1, "no partial merge");
    assert_eq!(
        stored.representations.get(&StorageId::from_bytes([0xB0; 32])),
        Some(&BaoRoot::from_bytes([0xC1; 32]))
    );
    assert!(!stored
        .representations
        .contains_key(&StorageId::from_bytes([0xA0; 32])));
}

#[test]
fn unrepresented_transport_is_rejected_before_any_mutation() {
    let mut state = RuntimeState::new(drive());
    let id = manifest_id_for(&root_manifest(1, 9, 4, 5));
    let mut bad = root_manifest(1, 9, 4, 5);
    bad.transport = BaoRoot::from_bytes([0xD0; 32]);
    assert!(matches!(
        record(&mut state, bad),
        Err(RuntimeError::TransportNotRepresented { .. })
    ));
    assert!(
        state.manifest_record(&id).is_none(),
        "the rejected record leaves no state behind"
    );
    let mut bare = root_manifest(1, 9, 4, 5);
    bare.representations = representations(&[]);
    assert!(record(&mut state, bare).unwrap());
    assert!(state.manifest_record(&id).is_some());
}

#[test]
fn completing_a_representationless_record_adopts_the_incoming_root() {
    let mut state = RuntimeState::new(drive());
    let id = manifest_id_for(&root_manifest(1, 9, 4, 5));
    let mut bare = root_manifest(1, 9, 4, 5);
    bare.representations = representations(&[]);
    bare.transport = BaoRoot::from_bytes([0xA0; 32]);
    assert!(record(&mut state, bare).unwrap());
    let mut filled = root_manifest(1, 9, 4, 5);
    filled.representations = representations(&[(0xB0, 0xD0)]);
    filled.transport = BaoRoot::from_bytes([0xD0; 32]);
    assert!(!record(&mut state, filled).unwrap());
    let stored = state.manifest_record(&id).unwrap();
    assert_eq!(stored.transport, BaoRoot::from_bytes([0xD0; 32]));
    assert!(
        (0..stored.representations.len())
            .any(|i| *stored.representations.value(i) == stored.transport),
        "the adopted root is represented"
    );

    // An inconsistent completion fails without mutating.
    let mut other = RuntimeState::new(drive());
    let mut bare = root_manifest(1, 9, 4, 5);
    bare.representations = representations(&[]);
    assert!(record(&mut other, bare).unwrap());
    let mut inconsistent = root_manifest(1, 9, 4, 5);
    inconsistent.representations = representations(&[(0xB0, 0xD0)]);
    inconsistent.transport = BaoRoot::from_bytes([0xE0; 32]);
    assert!(matches!(
        record(&mut other, inconsistent),
        Err(RuntimeError::TransportNotRepresented { .. })
    ));
    let stored = other.manifest_record(&id).unwrap();
    assert!(
        stored.representations.is_empty(),
        "the failed completion leaves the record untouched"
    );
}

#[test]
fn conflicting_records_are_rejected() {
    let mut state = RuntimeState::new(drive());
    state.record_announcement(announcement(1, 2, 3)).unwrap();
    assert!(matches!(
        state.record_announcement(announcement(1, 9, 3)),
        Err(RuntimeError::ConflictingAnnouncement { .. })
    ));

    record(&mut state, root_manifest(1, 9, 4, 5)).unwrap();
    let mut conflicting = root_manifest(1, 9, 4, 5);
    conflicting.manifest.entries[0].size = 999;
    conflicting.manifest_id = ContentId::from_bytes([0xFE; 32]);
    assert!(matches!(
        record(&mut state, conflicting),
        Err(RuntimeError::ManifestIdentityMismatch { .. })
    ));
}

#[test]
fn reannouncements_update_routes_and_reject_forks() {
    let id = SnapshotId::from_bytes([1; 32]);
    let mut state = RuntimeState::new(drive());
    let mut first = announcement(1, 2, 3);
    first.node_addr = Some(vec![0x01, 0x02]);
    assert!(state.record_announcement(first.duplicate()).unwrap());

    assert!(!state.record_announcement(first).unwrap());
    let mut rerouted = announcement(1, 2, 3);
    rerouted.node_addr = Some(vec![0x03, 0x04]);
    assert!(state.record_announcement(rerouted.duplicate()).unwrap());
    assert_eq!(state.announcement(&id).unwrap().node_addr, rerouted.node_addr);
    let mut unrouted = announcement(1, 2, 3);
    unrouted.node_addr = None;
    assert!(state.record_announcement(unrouted).unwrap());
    assert!(state.announcement(&id).unwrap().node_addr.is_none());

    let mut forked_root = announcement(1, 2, 3);
    forked_root.root_manifest = ContentId::from_bytes([0x99; 32]);
    assert!(matches!(
        state.record_announcement(forked_root),
        Err(RuntimeError::ConflictingAnnouncement { .. })
    ));
    let mut forked_body = announcement(1, 2, 3);
    forked_body.body_root = BaoRoot::from_bytes([0x98; 32]);
    assert!(matches!(
        state.record_announcement(forked_body),
        Err(RuntimeError::ConflictingAnnouncement { .. })
    ));
}

#[test]
fn control_messages_dedupe_by_id() {
    let mut state = RuntimeState::new(drive());
    let id = ControlMessageId::from_bytes([0xAB; 32]);
    assert!(state.remember_control_message(&id));
    assert!(!state.remember_control_message(&id));
}

#[test]
fn remote_only_materialization_stays_out_of_the_plan() {
    let mut state = RuntimeState::new(drive());
    record(&mut state, root_manifest(1, 9, 4, 5)).unwrap();
    state.set_materialization(ContentId::from_bytes([4; 32]), MaterializationState::RemoteOnly);
    assert!(state.reconcile().pending_objects.is_empty());
}

#[test]
fn object_plan_carries_the_encryption_epoch() {
    let mut state = RuntimeState::new(drive());
    record(&mut state, root_manifest(1, 9, 4, 5)).unwrap();
    state.set_materialization(ContentId::from_bytes([4; 32]), MaterializationState::Pinned);
    let plan = state.reconcile();
    assert_eq!(
        plan.pending_objects.get(&ContentId::from_bytes([4; 32])).unwrap()[0].encryption_epoch,
        1
    );
}

fn with_entry(
    snapshot: u8,
    storage: u8,
    epoch: u64,
    keep_children: bool,
) -> ManifestRecord {
    let mut record = root_manifest(snapshot, 9, 4, 5);
    record.manifest.entries[0].storage_id = StorageId::from_bytes([storage; 32]);
    record.manifest.entries[0].encryption_epoch = epoch;
    if !keep_children {
        record.manifest.children = Vec::new();
    }
    record.manifest_id = manifest_id_for(&record);
    record
}

#[test]
fn alternate_epoch_representations_all_survive_reconciliation() {
    let mut state = RuntimeState::new(drive());
    let content = ContentId::from_bytes([4; 32]);
    assert!(record(&mut state, with_entry(1, 0xA0, 1, true)).unwrap());
    assert!(record(&mut state, with_entry(1, 0xB0, 2, true)).unwrap());
    state.set_materialization(content, MaterializationState::Pinned);
    let plan = state.reconcile();
    let candidates = plan.pending_objects.get(&content).unwrap();
    assert_eq!(candidates.len(), 2, "both representations reach the plan");
    let mut epochs: Vec<u64> = candidates.iter().map(|c| c.encryption_epoch).collect();
    epochs.sort_unstable();
    assert_eq!(epochs, vec![1, 2], "no epoch representation is lost");
    let mut storages: Vec<u8> = candidates.iter().map(|c| c.storage_id.as_bytes()[0]).collect();
    storages.sort_unstable();
    assert_eq!(storages, vec![0xA0, 0xB0]);
}

#[test]
fn identical_entries_across_manifests_fetch_once() {
    let mut state = RuntimeState::new(drive());
    let content = ContentId::from_bytes([4; 32]);
    assert!(record(&mut state, with_entry(1, 0xA0, 1, false)).unwrap());
    assert!(record(&mut state, with_entry(2, 0xA0, 1, false)).unwrap());
    assert!(record(&mut state, with_entry(3, 0xB0, 2, false)).unwrap());
    state.set_materialization(content, MaterializationState::Pinned);
    let plan = state.reconcile();
    let candidates = plan.pending_objects.get(&content).unwrap();
    assert_eq!(candidates.len(), 2, "duplicate collapses, epoch alternative stays");
}

#[test]
fn reconcile_without_announcements_is_empty() {
    let state = RuntimeState::new(drive());
    let plan = state.reconcile();
    assert!(plan.pending_snapshots.is_empty());
    assert!(plan.pending_snapshot_bodies.is_empty());
    assert!(plan.pending_manifests.is_empty());
    assert!(plan.pending_objects.is_empty());
}

#[test]
fn announced_snapshots_want_bodies_until_one_is_recorded() {
    let mut state = RuntimeState::new(drive());
    let author = DeviceId::from_bytes([2; 32]);
    let membership = TransitionId::from_bytes([0x33; 32]);
    let body = body(author, membership, 3);
    let id = body.id;
    state
        .record_announcement(announced(id, author, 3, membership))
        .unwrap();

    let plan = state.reconcile();
    assert!(plan.pending_snapshot_bodies.contains(&id));
    assert!(plan.pending_snapshots.contains(&id), "manifest side too");

    assert!(state.record_snapshot_body(body.duplicate()).unwrap());
    assert!(!state.record_snapshot_body(body).unwrap(), "replay is a no-op");
    assert!(
        state.reconcile().pending_snapshot_bodies.is_empty(),
        "the body is no longer wanted"
    );
    assert!(state.snapshot_body(&id).is_some());
}

#[test]
fn recorded_bodies_must_match_their_announcement() {
    let author = DeviceId::from_bytes([2; 32]);
    let other_author = DeviceId::from_bytes([9; 32]);
    let membership = TransitionId::from_bytes([0x33; 32]);
    let other_membership = TransitionId::from_bytes([0x44; 32]);
    let body = body(author, membership, 3);
    let id = body.id;

    for announcement in [
        announced(id, other_author, 3, membership),
        announced(id, author, 4, membership),
        announced(id, author, 3, other_membership),
    ] {
        let mut state = RuntimeState::new(drive());
        state.record_announcement(announcement).unwrap();
        assert!(
            matches!(
                state.record_snapshot_body(body.duplicate()),
                Err(RuntimeError::AnnouncementBodyMismatch { .. })
            ),
            "a disagreeing pair must never be recorded"
        );
        assert!(state.snapshot_body(&id).is_none());
    }

    let mut state = RuntimeState::new(drive());
    state
        .record_announcement(announced(id, author, 3, membership))
        .unwrap();
    assert!(state.record_snapshot_body(body).unwrap());
}

#[test]
fn announcements_are_rejected_when_they_disagree_with_recorded_bodies() {
    let author = DeviceId::from_bytes([2; 32]);
    let other_author = DeviceId::from_bytes([9; 32]);
    let membership = TransitionId::from_bytes([0x33; 32]);
    let body = body(author, membership, 3);
    let id = body.id;

    let mut state = RuntimeState::new(drive());
    assert!(state.record_snapshot_body(body).unwrap());
    assert!(
        matches!(
            state.record_announcement(announced(id, other_author, 3, membership)),
            Err(RuntimeError::AnnouncementBodyMismatch { .. })
        ),
        "a disagreeing announcement must never join a recorded body"
    );
    assert!(state.snapshot_body(&id).is_some(), "the body stays");
    assert!(state.announcement(&id).is_none(), "nothing is recorded");

    state
        .record_announcement(announced(id, author, 3, membership))
        .unwrap();
    assert!(state.announcement(&id).is_some());
}

#[test]
fn set_materialization_returns_previous_value() {
    let mut state = RuntimeState::new(drive());
    let id = ContentId::from_bytes([0x44; 32]);
    assert_eq!(state.set_materialization(id, MaterializationState::Cached), None);
    assert_eq!(
        state.set_materialization(id, MaterializationState::Pinned),
        Some(MaterializationState::Cached)
    );
}

#[test]
fn status_follows_residency_and_policy() {
    let mut state = RuntimeState::new(drive());
    let id = ContentId::from_bytes([0x44; 32]);
    assert_eq!(state.status(&id), FetchStatus::RemoteOnly);
    state.set_materialization(id, MaterializationState::Cached);
    assert_eq!(state.status(&id), FetchStatus::Fetching);
    assert!(state.mark_local_object(id));
    assert!(!state.mark_local_object(id));
    assert_eq!(state.status(&id), FetchStatus::Available);
    assert!(state.is_local(&id));
    assert!(state.remove_local_object(id));
    assert!(!state.remove_local_object(id));
    assert_eq!(state.status(&id), FetchStatus::Fetching);
    assert_eq!(state.drive(), drive());
}

#[test]
fn trees_are_wanted_whatever_the_policy() {
    let mut state = RuntimeState::new(drive());
    let mut root = root_manifest(1, 9, 4, 5);
    root.manifest.entries[0].kind = ObjectKind::Tree;
    root.manifest_id = manifest_id_for(&root);
    record(&mut state, root).unwrap();
    let content = ContentId::from_bytes([4; 32]);
    assert!(state.reconcile().pending_objects.contains_key(&content));
    state.mark_local_object(content);
    assert!(!state.reconcile().pending_objects.contains_key(&content));
}

#[test]
fn the_announced_root_is_served_and_the_smallest_otherwise() {
    let snapshot = SnapshotId::from_bytes([1; 32]);
    let mut state = RuntimeState::new(drive());
    let a = with_entry(1, 0xA0, 1, false);
    let b = with_entry(1, 0xB0, 2, false);
    let (id_a, id_b) = (a.manifest_id, b.manifest_id);
    let (small, large) = if id_a.as_bytes() < id_b.as_bytes() {
        (id_a, id_b)
    } else {
        (id_b, id_a)
    };
    assert!(state.root_manifest_record(&snapshot).is_none());
    record(&mut state, a).unwrap();
    record(&mut state, b).unwrap();
    assert_eq!(state.root_manifest_record(&snapshot).unwrap().manifest_id, small);
    let mut named = announcement(1, 2, 3);
    named.root_manifest = large;
    state.record_announcement(named).unwrap();
    assert_eq!(state.root_manifest_record(&snapshot).unwrap().manifest_id, large);
    assert_eq!(state.recorded_snapshots(), vec![snapshot]);
    assert_eq!(
        state.recorded_mappings(&ContentId::from_bytes([4; 32])).len(),
        2
    );
}

#[test]
fn announcement_obligations_are_discharged_once() {
    let mut state = RuntimeState::new(drive());
    let snapshot = SnapshotId::from_bytes([1; 32]);
    let device = DeviceId::from_bytes([2; 32]);
    assert!(!state.announcement_covered(snapshot, device));
    assert!(state.record_announcement_queued(snapshot, device));
    assert!(!state.record_announcement_queued(snapshot, device));
    assert_eq!(state.pending_announcements(), vec![(snapshot, device)]);
    assert!(state.announcement_covered(snapshot, device));
    assert!(state.record_announcement_sealed(snapshot, vec![1]));
    assert!(!state.record_announcement_sealed(snapshot, vec![2]), "the first seal wins");
    assert_eq!(state.announcement_sealed_bytes(&snapshot), Some(&[1u8][..]));
    assert!(state.record_announcement_route_sealed(snapshot, vec![9], vec![3]));
    assert!(!state.record_announcement_route_sealed(snapshot, vec![9], vec![4]));
    assert_eq!(
        state.announcement_route_sealed_bytes(&snapshot, &[9]),
        Some(&[3u8][..])
    );
    assert_eq!(state.announcement_route_sealed_bytes(&snapshot, &[8]), None);
    assert!(state.record_announcement_delivered(snapshot, device));
    assert!(!state.record_announcement_delivered(snapshot, device));
    assert!(state.pending_announcements().is_empty());
    assert!(state.announcement_covered(snapshot, device));
    assert!(!state.record_announcement_queued(snapshot, device), "delivered stays delivered");
}

#[test]
fn transition_and_carry_obligations_are_discharged_once() {
    let mut state = RuntimeState::new(drive());
    let id = TransitionId::from_bytes([1; 32]);
    let device = DeviceId::from_bytes([2; 32]);
    assert!(state.record_transition_queued(id, device));
    assert!(state.record_transition_sealed(id, vec![1]));
    assert!(!state.record_transition_sealed(id, vec![2]));
    assert_eq!(state.transition_sealed_bytes(id), Some(&[1u8][..]));
    assert_eq!(state.pending_transitions(), vec![(id, device)]);
    assert!(state.record_transition_delivered(id, device));
    assert!(state.pending_transitions().is_empty());
    assert!(state.transition_covered(id, device));

    let head = SnapshotId::from_bytes([3; 32]);
    assert!(state.record_carry_queued(head));
    assert!(!state.record_carry_queued(head));
    assert_eq!(state.pending_carries(), vec![head]);
    assert!(state.record_carry_done(head));
    assert!(!state.record_carry_done(head));
    assert!(state.pending_carries().is_empty());
    assert!(state.carry_covered(head));
}

fn fact_id(epoch: u64, recipient: &DeviceId, sealed: &[u8]) -> SealedCapabilityFactId {
    let mut bytes = epoch.to_le_bytes().to_vec();
    bytes.extend_from_slice(recipient.as_bytes());
    bytes.extend_from_slice(sealed);
    SealedCapabilityFactId::from_bytes(digest(9, &bytes))
}

fn replace(
    state: &mut RuntimeState,
    recipient: DeviceId,
    supersedes: SealedCapabilityFactId,
    replacement: Vec<u8>,
) {
    state.record_capability_replaced(
        2,
        recipient,
        |epoch: u64, recipient: &DeviceId, sealed: &Vec<u8>| fact_id(epoch, recipient, sealed),
        supersedes,
        replacement,
    );
}

#[test]
fn capability_obligations_are_discharged_once() {
    let mut state = RuntimeState::new(drive());
    let device = DeviceId::from_bytes([2; 32]);
    assert!(!state.capability_covered(2, device));
    assert!(state.record_capability_queued(2, device));
    assert!(!state.record_capability_queued(2, device));
    assert!(state.capability_covered(2, device));
    assert_eq!(state.pending_capabilities(), vec![(2, device)]);
    assert!(state.record_capability_sealed(2, device, vec![1]));
    assert!(!state.record_capability_sealed(2, device, vec![2]), "the first seal wins");
    assert_eq!(state.capability_sealed_bytes(2, device), Some(&[1u8][..]));
    assert_eq!(state.capability_sealed_bytes(3, device), None);
    assert!(state.record_capability_delivered(2, device));
    assert!(!state.record_capability_delivered(2, device));
    assert!(state.pending_capabilities().is_empty());
    assert!(state.capability_covered(2, device));
}

#[test]
fn a_replacement_applies_only_to_the_capability_it_names() {
    let mut state = RuntimeState::new(drive());
    let device = DeviceId::from_bytes([2; 32]);
    replace(&mut state, device, fact_id(2, &device, &[1]), vec![3]);
    assert_eq!(state.capability_sealed_bytes(2, device), None, "nothing to supersede");
    state.record_capability_sealed(2, device, vec![1]);
    replace(&mut state, device, fact_id(2, &device, &[9]), vec![3]);
    assert_eq!(state.capability_sealed_bytes(2, device), Some(&[1u8][..]));
    replace(&mut state, device, fact_id(2, &device, &[1]), vec![3]);
    assert_eq!(state.capability_sealed_bytes(2, device), Some(&[3u8][..]));
    replace(&mut state, device, fact_id(2, &device, &[1]), vec![4]);
    assert_eq!(state.capability_sealed_bytes(2, device), Some(&[3u8][..]), "superseded before");
}

#[test]
fn candidates_stand_in_first_seen_order() {
    let mut state = RuntimeState::new(drive());
    let content = ContentId::from_bytes([4; 32]);
    let mut records = Vec::new();
    for (snapshot, storages) in [(1, [0xD0, 0xA0]), (2, [0xA0, 0xC0]), (3, [0xB0, 0xD0])] {
        let mut made = with_entry(snapshot, storages[0], 1, false);
        let mut second = made.manifest.entries[0];
        second.storage_id = StorageId::from_bytes([storages[1]; 32]);
        made.manifest.entries.push(second);
        made.manifest_id = manifest_id_for(&made);
        records.push(made);
    }
    let mut expected: Vec<StorageId> = Vec::new();
    let mut by_id: Vec<&ManifestRecord> = records.iter().collect();
    by_id.sort_by_key(|made| *made.manifest_id.as_bytes());
    for made in by_id {
        for entry in &made.manifest.entries {
            if !expected.contains(&entry.storage_id) {
                expected.push(entry.storage_id);
            }
        }
    }
    for made in records {
        assert!(record(&mut state, made).unwrap());
    }
    state.set_materialization(content, MaterializationState::Pinned);
    let plan = state.reconcile();
    let storages: Vec<StorageId> = plan
        .pending_objects
        .get(&content)
        .unwrap()
        .iter()
        .map(|candidate| candidate.storage_id)
        .collect();
    assert_eq!(storages.len(), 4);
    assert_eq!(storages, expected);
}

#[test]
fn unrecorded_children_are_planned_by_a_link_that_names_them() {
    let mut state = RuntimeState::new(drive());
    let root = root_manifest(1, 9, 4, 5);
    let link = root.manifest.children[0];
    assert!(record(&mut state, root).unwrap());
    let plan = state.reconcile();
    assert_eq!(plan.pending_manifests.len(), 1);
    assert_eq!(plan.pending_manifests.get(&link.manifest), Some(&link));
    assert_eq!(
        state.manifest_parent_snapshot(&link.manifest),
        Some(SnapshotId::from_bytes([1; 32]))
    );
}
