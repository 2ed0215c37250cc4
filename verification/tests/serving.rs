//! What a device serves of its recorded state, and the routes it publishes.

use std::collections::HashMap;

use wyrd_sync::ids::{
    BaoRoot, ContentId, DeviceId, DriveId, SnapshotId, StorageId, TransitionId,
};
use wyrd_sync::model::{
    ChildManifest, Manifest, ManifestEntry, ManifestRecord, ObjectKind, Snapshot,
    SnapshotAnnouncement,
};
use wyrd_sync::runtime::fetch::BulkError;
use wyrd_sync::runtime::state::RuntimeState;
use wyrd_sync::runtime::RouteReport;
use wyrd_sync::seal::{seal_manifest, KindBytes};
use wyrd_sync::serving::{held_roots, hex_to_32, limit_reply, root_name, VaultSource};
use wyrd_sync::sorted::SortedMap;
use wyrd_sync::transport::addr::{encode_node_addr, IpSocket, NodeAddr};
use wyrd_sync::transport::routes::{publish_recorded_routes, BlobRef, Publication};

fn digest(domain: u8, bytes: &[u8]) -> [u8; 32] {
    let mut out = [0u8; 32];
    for lane in 0..4u8 {
        let mut h: u64 = 0xcbf2_9ce4_8422_2325 ^ u64::from(lane) ^ (u64::from(domain) << 8);
        for b in bytes {
            h = (h ^ u64::from(*b)).wrapping_mul(0x0000_0100_0000_01b3);
            h ^= h >> 29;
        }
        out[usize::from(lane) * 8..usize::from(lane) * 8 + 8].copy_from_slice(&h.to_le_bytes());
    }
    out
}

fn kinds() -> KindBytes {
    KindBytes::new(1, 2, 3, 4).unwrap()
}

fn derive(kind: ObjectKind, bytes: &Vec<u8>) -> ContentId {
    ContentId::from_bytes(digest(kinds().byte(kind), bytes))
}

fn address(bytes: &Vec<u8>) -> StorageId {
    StorageId::from_bytes(digest(0x80, bytes))
}

fn blob_root(bytes: &[u8]) -> BaoRoot {
    BaoRoot::from_bytes(digest(0x81, bytes))
}

fn root_of(bytes: &Vec<u8>) -> BaoRoot {
    blob_root(bytes)
}

fn drive() -> DriveId {
    DriveId::from_bytes([0xEE; 32])
}

/// Envelopes by their transport root.
#[derive(Default)]
struct Vault(HashMap<BaoRoot, Vec<u8>>);

impl Vault {
    fn import(&mut self, sealed: &[u8]) -> BaoRoot {
        let root = blob_root(sealed);
        self.0.entry(root).or_insert_with(|| sealed.to_vec());
        root
    }

    fn sealed(&self, root: &BaoRoot) -> Result<Option<Vec<u8>>, String> {
        Ok(self.0.get(root).cloned())
    }
}

fn record(
    is_root: bool,
    manifest_id: ContentId,
    representations: &[(StorageId, BaoRoot)],
    transport: BaoRoot,
    manifest: Manifest,
) -> ManifestRecord {
    let mut map = SortedMap::new();
    for (storage, root) in representations {
        map.insert(*storage, *root);
    }
    ManifestRecord {
        is_root,
        manifest_id,
        representations: map,
        transport,
        manifest,
    }
}

#[test]
fn the_source_serves_recorded_state_only() {
    let mut vault = Vault::default();
    let source = VaultSource::from_state(&RuntimeState::new(drive()));
    let snapshot = SnapshotId::from_bytes([0x01; 32]);
    assert_eq!(
        source.fetch_root_manifest(
            &snapshot,
            usize::MAX,
            |root: &BaoRoot| vault.sealed(root),
            &root_of
        ),
        Ok(None)
    );
    assert_eq!(source.fetch_snapshot(&snapshot, usize::MAX), Ok(None));
    assert_eq!(
        source.fetch_sealed(
            &StorageId::from_bytes([0x02; 32]),
            usize::MAX,
            |root: &BaoRoot| vault.sealed(root),
            &root_of
        ),
        Ok(None)
    );
    assert_eq!(
        source.fetch_transport(
            &BaoRoot::from_bytes([0x03; 32]),
            usize::MAX,
            |root: &BaoRoot| vault.sealed(root),
            &root_of
        ),
        Ok(None)
    );

    let manifest = Manifest::new(snapshot, Vec::new(), Vec::new());
    let (manifest_id, obj) = seal_manifest(
        &kinds(),
        &[0x07; 32],
        &manifest,
        Some([0x21; 24]),
        &|manifest: &Manifest| manifest.snapshot.as_bytes().to_vec(),
        &derive,
    )
    .unwrap();
    let envelope = obj.encode(&kinds());
    let storage = address(&envelope);
    let transport = vault.import(&envelope);
    let mut runtime = RuntimeState::new(drive());
    runtime
        .record_manifest(
            record(
                true,
                manifest_id,
                &[(storage, transport)],
                transport,
                manifest,
            ),
            |_: &Manifest| manifest_id,
        )
        .unwrap();
    let source = VaultSource::from_state(&runtime);
    let served = source
        .fetch_root_manifest(
            &snapshot,
            usize::MAX,
            |root: &BaoRoot| vault.sealed(root),
            &root_of
        )
        .unwrap()
        .expect("the recorded root manifest serves");
    assert_eq!(served.content_id, manifest_id);
    assert_eq!(served.sealed, envelope);
    assert_eq!(
        source.fetch_transport(
            &transport,
            usize::MAX,
            |root: &BaoRoot| vault.sealed(root),
            &root_of
        ),
        Ok(Some(envelope.clone()))
    );
    assert_eq!(
        source.fetch_sealed(
            &storage,
            usize::MAX,
            |root: &BaoRoot| vault.sealed(root),
            &root_of
        ),
        Ok(Some(envelope.clone()))
    );
    assert_eq!(
        source.fetch_sealed(&storage, 10, |root: &BaoRoot| vault.sealed(root), &root_of),
        Err(BulkError::Oversize {
            bytes: envelope.len(),
            max: 10
        })
    );
    assert_eq!(
        source.fetch_root_manifest(
            &snapshot,
            10,
            |_: &BaoRoot| Err("gone".to_string()),
            &root_of
        ),
        Err(BulkError::Transport("gone".to_string()))
    );
}

#[test]
fn recorded_bodies_entries_and_children_are_served() {
    let mut vault = Vault::default();
    let mut runtime = RuntimeState::new(drive());
    let body = Snapshot {
        id: SnapshotId::from_bytes([0x01; 32]),
        parents: Vec::new(),
        author: DeviceId::from_bytes([0x02; 32]),
        membership: TransitionId::from_bytes([0x03; 32]),
        epoch: 1,
        encoded: vec![1, 2, 3],
    };
    let at = body.id;
    runtime.record_snapshot_body(body).unwrap();
    let object = vault.import(b"sealed object");
    let child = vault.import(b"sealed child");
    let manifest = Manifest::new(
        at,
        vec![ManifestEntry {
            content_id: ContentId::from_bytes([0x10; 32]),
            kind: ObjectKind::Chunk,
            version: 0,
            storage_id: StorageId::from_bytes([0x11; 32]),
            encryption_epoch: 1,
            size: 13,
            transport: object,
        }],
        vec![ChildManifest {
            tree: ContentId::from_bytes([0x12; 32]),
            manifest: ContentId::from_bytes([0x13; 32]),
            storage: StorageId::from_bytes([0x14; 32]),
            transport: child,
        }],
    );
    let id = ContentId::from_bytes([0x20; 32]);
    let own = vault.import(b"sealed root");
    runtime
        .record_manifest(
            record(
                true,
                id,
                &[(StorageId::from_bytes([0x21; 32]), own)],
                own,
                manifest,
            ),
            |_: &Manifest| id,
        )
        .unwrap();
    let source = VaultSource::from_state(&runtime);
    assert_eq!(source.fetch_snapshot(&at, 3), Ok(Some(vec![1, 2, 3])));
    assert_eq!(
        source.fetch_snapshot(&at, 2),
        Err(BulkError::Oversize { bytes: 3, max: 2 })
    );
    for (storage, expected) in [
        ([0x11; 32], b"sealed object".as_slice()),
        ([0x14; 32], b"sealed child"),
        ([0x21; 32], b"sealed root"),
    ] {
        assert_eq!(
            source.fetch_sealed(
                &StorageId::from_bytes(storage),
                usize::MAX,
                |root: &BaoRoot| vault.sealed(root),
                &root_of
            ),
            Ok(Some(expected.to_vec()))
        );
    }
}

#[test]
fn a_root_without_representations_serves_nothing() {
    let snapshot = SnapshotId::from_bytes([0x01; 32]);
    let id = ContentId::from_bytes([0x20; 32]);
    let mut runtime = RuntimeState::new(drive());
    runtime
        .record_manifest(
            record(
                true,
                id,
                &[],
                BaoRoot::from_bytes([0x30; 32]),
                Manifest::new(snapshot, Vec::new(), Vec::new()),
            ),
            |_: &Manifest| id,
        )
        .unwrap();
    let source = VaultSource::from_state(&runtime);
    assert_eq!(
        source.fetch_root_manifest(
            &snapshot,
            usize::MAX,
            |_: &BaoRoot| Ok(Some(vec![1])),
            &root_of
        ),
        Ok(None)
    );
}

#[test]
fn the_vault_is_verified_on_read() {
    let source = VaultSource::from_state(&RuntimeState::new(drive()));
    let root = blob_root(b"what was sealed");
    let refused = Err(BulkError::Transport(
        "vault bytes do not hash to their root".to_string(),
    ));
    assert_eq!(
        source.fetch_transport(
            &root,
            usize::MAX,
            |_: &BaoRoot| Ok(Some(b"what was sealed".to_vec())),
            &root_of
        ),
        Ok(Some(b"what was sealed".to_vec()))
    );
    assert_eq!(
        source.fetch_transport(
            &root,
            usize::MAX,
            |_: &BaoRoot| Ok(Some(b"what was torn".to_vec())),
            &root_of
        ),
        refused
    );
    // A mismatch is refused whatever the ceiling.
    assert_eq!(
        source.fetch_transport(
            &root,
            1,
            |_: &BaoRoot| Ok(Some(b"what was torn".to_vec())),
            &root_of
        ),
        refused
    );
    assert_eq!(
        source.fetch_transport(
            &root,
            1,
            |_: &BaoRoot| Ok(Some(b"what was sealed".to_vec())),
            &root_of
        ),
        Err(BulkError::Oversize { bytes: 15, max: 1 })
    );
}

#[test]
fn a_torn_root_manifest_and_a_torn_representation_are_not_served() {
    let snapshot = SnapshotId::from_bytes([0x01; 32]);
    let id = ContentId::from_bytes([0x20; 32]);
    let storage = StorageId::from_bytes([0x21; 32]);
    let own = blob_root(b"sealed root");
    let mut runtime = RuntimeState::new(drive());
    runtime
        .record_manifest(
            record(
                true,
                id,
                &[(storage, own)],
                own,
                Manifest::new(snapshot, Vec::new(), Vec::new()),
            ),
            |_: &Manifest| id,
        )
        .unwrap();
    let source = VaultSource::from_state(&runtime);
    let torn = |_: &BaoRoot| Ok(Some(b"sealed".to_vec()));
    let text = "vault bytes do not hash to their root".to_string();
    assert_eq!(
        source.fetch_root_manifest(&snapshot, usize::MAX, torn, &root_of),
        Err(BulkError::Transport(text.clone()))
    );
    assert_eq!(
        source.fetch_sealed(&storage, usize::MAX, torn, &root_of),
        Err(BulkError::Transport(text))
    );
    let whole = |_: &BaoRoot| Ok(Some(b"sealed root".to_vec()));
    assert_eq!(
        source.fetch_sealed(&storage, usize::MAX, whole, &root_of),
        Ok(Some(b"sealed root".to_vec()))
    );
}

#[test]
fn replies_are_held_to_their_ceiling() {
    assert_eq!(limit_reply(Ok(None), 0), Ok(None));
    assert_eq!(limit_reply(Ok(Some(vec![7; 4])), 4), Ok(Some(vec![7; 4])));
    assert_eq!(
        limit_reply(Ok(Some(vec![7; 5])), 4),
        Err(BulkError::Oversize { bytes: 5, max: 4 })
    );
    assert_eq!(
        limit_reply(Err("torn".to_string()), 4),
        Err(BulkError::Transport("torn".to_string()))
    );
}

#[test]
fn hex_names_are_read_in_either_case() {
    let mut name = "00".repeat(30);
    name.push_str("aF09");
    let mut expected = [0u8; 32];
    expected[30] = 0xAF;
    expected[31] = 0x09;
    assert_eq!(hex_to_32(&name), Ok(expected));
    for refused in [
        "".to_string(),
        "0".repeat(63),
        "0".repeat(65),
        format!("{}g0", "0".repeat(62)),
        format!("{}+1", "0".repeat(62)),
        format!("{}é", "0".repeat(62)),
    ] {
        assert_eq!(hex_to_32(&refused), Err(()), "{refused}");
    }
}

#[test]
fn unfinished_imports_are_not_among_the_roots() {
    let names = vec![
        "02".repeat(32),
        ".tmp-orphan".to_string(),
        "01".repeat(32),
        "not-a-root".to_string(),
    ];
    assert_eq!(
        held_roots(&names),
        vec![
            BaoRoot::from_bytes([0x01; 32]),
            BaoRoot::from_bytes([0x02; 32])
        ]
    );
    assert_eq!(held_roots(&Vec::new()), Vec::new());
}

fn node(byte: u8) -> NodeAddr {
    let key = *iroh::SecretKey::from_bytes(&[byte; 32]).public().as_bytes();
    let mut address = NodeAddr::new(key).unwrap();
    address.with_ip_addr(IpSocket::V4 {
        octets: [10, 0, 0, byte],
        port: 7000,
    });
    address
}

fn announcement(snapshot: u8, node_addr: Option<Vec<u8>>) -> SnapshotAnnouncement {
    SnapshotAnnouncement {
        snapshot: SnapshotId::from_bytes([snapshot; 32]),
        author: DeviceId::from_bytes([0x22; 32]),
        epoch: 1,
        membership: TransitionId::from_bytes([0x33; 32]),
        body_root: BaoRoot::from_bytes([0x44; 32]),
        root_manifest: ContentId::from_bytes([0x55; 32]),
        root_manifest_transport: BaoRoot::from_bytes([0x66; 32]),
        node_addr,
        signature: [0; 64],
    }
}

#[test]
fn routes_lead_to_the_announcing_peer() {
    let mut runtime = RuntimeState::new(drive());
    let routed = SnapshotId::from_bytes([0x01; 32]);
    let unrouted = SnapshotId::from_bytes([0x02; 32]);
    runtime
        .record_announcement(announcement(0x01, Some(encode_node_addr(&node(5)))))
        .unwrap();
    runtime.record_announcement(announcement(0x02, None)).unwrap();
    runtime
        .record_announcement(announcement(0x03, Some(vec![0xFF, 0x00])))
        .unwrap();
    let first = BaoRoot::from_bytes([0x71; 32]);
    let second = BaoRoot::from_bytes([0x72; 32]);
    let id = ContentId::from_bytes([0x55; 32]);
    let entry = ManifestEntry {
        content_id: ContentId::from_bytes([0x10; 32]),
        kind: ObjectKind::Chunk,
        version: 0,
        storage_id: StorageId::from_bytes([0x11; 32]),
        encryption_epoch: 1,
        size: 13,
        transport: BaoRoot::from_bytes([0x73; 32]),
    };
    runtime
        .record_manifest(
            record(
                true,
                id,
                &[
                    (StorageId::from_bytes([0x81; 32]), first),
                    (StorageId::from_bytes([0x82; 32]), second),
                ],
                first,
                Manifest::new(routed, vec![entry], Vec::new()),
            ),
            |_: &Manifest| id,
        )
        .unwrap();
    let unserved = ContentId::from_bytes([0x56; 32]);
    runtime
        .record_manifest(
            record(
                false,
                unserved,
                &[(StorageId::from_bytes([0x83; 32]), second)],
                second,
                Manifest::new(unrouted, Vec::new(), Vec::new()),
            ),
            |_: &Manifest| unserved,
        )
        .unwrap();
    let routes = publish_recorded_routes(&runtime);
    let blob = |hash: BaoRoot| BlobRef {
        announced: routed,
        hash,
    };
    let root = BaoRoot::from_bytes([0x66; 32]);
    let body = BaoRoot::from_bytes([0x44; 32]);
    assert_eq!(
        routes.publications,
        vec![
            Publication::Root {
                snapshot: routed,
                manifest: id,
                blob: blob(root)
            },
            Publication::Snapshot {
                snapshot: routed,
                blob: blob(body)
            },
            Publication::Transport { blob: blob(root) },
            Publication::Transport { blob: blob(body) },
            Publication::Transport { blob: blob(first) },
            Publication::Sealed {
                storage: StorageId::from_bytes([0x81; 32]),
                blob: blob(first)
            },
            Publication::Sealed {
                storage: StorageId::from_bytes([0x82; 32]),
                blob: blob(second)
            },
            Publication::Transport {
                blob: blob(entry.transport)
            },
            Publication::Sealed {
                storage: entry.storage_id,
                blob: blob(entry.transport)
            },
        ]
    );
    assert_eq!(
        routes.report,
        RouteReport {
            published: 9,
            undecodable: 1
        }
    );
    assert_eq!(routes.providers.len(), 1);
    assert_eq!(routes.providers.get(&routed).unwrap().id(), node(5).id());
}

#[test]
fn a_state_without_announcements_publishes_nothing() {
    let routes = publish_recorded_routes(&RuntimeState::new(drive()));
    assert!(routes.publications.is_empty());
    assert_eq!(routes.report.published, 0);
    assert_eq!(routes.report.undecodable, 0);
}

#[test]
fn a_root_is_named_by_its_hexadecimal() {
    let mut bytes = [0u8; 32];
    bytes[0] = 0xAF;
    bytes[31] = 0x09;
    let root = BaoRoot::from_bytes(bytes);
    let name = root_name(&root);
    assert_eq!(name, format!("af{}09", "00".repeat(30)));
    assert_eq!(hex_to_32(&name), Ok(bytes));
    assert_eq!(held_roots(&vec![name]), vec![root]);
}
