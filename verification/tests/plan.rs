//! Fetching and plan passes, against an in-memory peer with real seals.

use std::cell::RefCell;
use std::collections::{HashMap, HashSet};

use wyrd_sync::ids::{
    BaoRoot, ContentId, DeviceId, DriveId, SnapshotId, StorageId, TransitionId,
};
use wyrd_sync::model::{
    ChildManifest, FetchStatus, Manifest, ManifestEntry, ObjectKind, Snapshot,
    SnapshotAnnouncement, StoreFailure,
};
use wyrd_sync::runtime::backoff::Backoff;
use wyrd_sync::runtime::fetch::{
    fatal_store, fatal_vault, fetch_representation, object, snapshot_body, worse, BulkError,
    CandidateResult, FetchOutcome, ObjectFormat, SealedManifest, VaultError,
};
use wyrd_sync::runtime::intake::{EngineError, Fact};
use wyrd_sync::runtime::plan::{
    after_commit, item_count, Chance, ExecuteReport, FetchKey, Note, PassEnd, PlanItem, PlanPass,
    RunStep, Turn,
};
use wyrd_sync::runtime::state::{
    MaterializationState, PendingObjectFetch, RuntimeError, RuntimeState,
};
use wyrd_sync::seal::{
    entry_for, seal, seal_manifest, EncryptedObject, KindBytes, SEAL_VERSION,
};

type Reply = Result<Option<Vec<u8>>, BulkError>;

const MAX_BYTES: usize = 64 * 1024 * 1024;
const MAX_PARENTS: usize = 16;
const MAX_CHUNK: usize = 4096;
const FETCH_MAX_STRIKES: u64 = 3;
const FETCH_COOLDOWN_PASSES: u64 = 4;

fn digest(domain: u8, bytes: &[u8]) -> [u8; 32] {
    let mut out = [0u8; 32];
    for lane in 0..4u8 {
        let mut h: u64 = 0xcbf2_9ce4_8422_2325 ^ u64::from(lane) ^ (u64::from(domain) << 8);
        for b in bytes {
            h = (h ^ u64::from(*b)).wrapping_mul(0x0000_0100_0000_01b3);
            h ^= h >> 29;
        }
        out[usize::from(lane) * 8..usize::from(lane) * 8 + 8].copy_from_slice(&h.to_le_bytes());
    }
    out
}

fn kinds() -> KindBytes {
    KindBytes::new(1, 2, 3, 4).unwrap()
}

fn derive(kind: ObjectKind, bytes: &Vec<u8>) -> ContentId {
    ContentId::from_bytes(digest(kinds().byte(kind), bytes))
}

fn address(bytes: &Vec<u8>) -> StorageId {
    StorageId::from_bytes(digest(0x80, bytes))
}

fn transport_root(bytes: &Vec<u8>) -> BaoRoot {
    BaoRoot::from_bytes(digest(0x81, bytes))
}

fn canonical_bytes(manifest: &Manifest) -> Vec<u8> {
    let mut out = manifest.snapshot.as_bytes().to_vec();
    out.push(manifest.entries.len() as u8);
    for entry in &manifest.entries {
        out.extend_from_slice(entry.content_id.as_bytes());
        out.push(kinds().byte(entry.kind));
        out.push(entry.version);
        out.extend_from_slice(entry.storage_id.as_bytes());
        out.extend_from_slice(&entry.encryption_epoch.to_le_bytes());
        out.extend_from_slice(&entry.size.to_le_bytes());
        out.extend_from_slice(entry.transport.as_bytes());
    }
    for link in &manifest.children {
        out.extend_from_slice(link.tree.as_bytes());
        out.extend_from_slice(link.manifest.as_bytes());
        out.extend_from_slice(link.storage.as_bytes());
        out.extend_from_slice(link.transport.as_bytes());
    }
    out
}

struct Reader<'a>(&'a [u8]);

impl Reader<'_> {
    fn take<const N: usize>(&mut self) -> Option<[u8; N]> {
        if self.0.len() < N {
            return None;
        }
        let (head, tail) = self.0.split_at(N);
        self.0 = tail;
        head.try_into().ok()
    }
}

fn parse_manifest(bytes: &Vec<u8>) -> Option<Manifest> {
    let mut r = Reader(bytes);
    let snapshot = SnapshotId::from_bytes(r.take::<32>()?);
    let [count] = r.take::<1>()?;
    let mut entries = Vec::new();
    for _ in 0..count {
        entries.push(ManifestEntry {
            content_id: ContentId::from_bytes(r.take::<32>()?),
            kind: kinds().kind(r.take::<1>()?[0])?,
            version: r.take::<1>()?[0],
            storage_id: StorageId::from_bytes(r.take::<32>()?),
            encryption_epoch: u64::from_le_bytes(r.take::<8>()?),
            size: u64::from_le_bytes(r.take::<8>()?),
            transport: BaoRoot::from_bytes(r.take::<32>()?),
        });
    }
    let mut children = Vec::new();
    while !r.0.is_empty() {
        children.push(ChildManifest {
            tree: ContentId::from_bytes(r.take::<32>()?),
            manifest: ContentId::from_bytes(r.take::<32>()?),
            storage: StorageId::from_bytes(r.take::<32>()?),
            transport: BaoRoot::from_bytes(r.take::<32>()?),
        });
    }
    Some(Manifest::new(snapshot, entries, children))
}

fn author() -> DeviceId {
    DeviceId::from_bytes([0xA7; 32])
}

fn membership() -> TransitionId {
    TransitionId::from_bytes([0x11; 32])
}

fn body_with_parents(parents: usize) -> Snapshot {
    let parents: Vec<SnapshotId> = (0..parents)
        .map(|index| SnapshotId::from_bytes([index as u8 | 1; 32]))
        .collect();
    make_body(parents, author(), membership(), 2)
}

fn make_body(
    parents: Vec<SnapshotId>,
    author: DeviceId,
    membership: TransitionId,
    epoch: u64,
) -> Snapshot {
    let mut encoded = author.as_bytes().to_vec();
    encoded.extend_from_slice(membership.as_bytes());
    encoded.extend_from_slice(&epoch.to_le_bytes());
    for parent in &parents {
        encoded.extend_from_slice(parent.as_bytes());
    }
    Snapshot {
        id: SnapshotId::from_bytes(*derive(ObjectKind::Snapshot, &encoded).as_bytes()),
        parents,
        author,
        membership,
        epoch,
        encoded,
    }
}

fn decode_snapshot(bytes: &Vec<u8>) -> Option<Snapshot> {
    let mut r = Reader(bytes);
    let author = DeviceId::from_bytes(r.take::<32>()?);
    let membership = TransitionId::from_bytes(r.take::<32>()?);
    let epoch = u64::from_le_bytes(r.take::<8>()?);
    let mut parents = Vec::new();
    while !r.0.is_empty() {
        parents.push(SnapshotId::from_bytes(r.take::<32>()?));
    }
    Some(make_body(parents, author, membership, epoch))
}

fn manifest_key(secret: &[u8; 32], epoch: u64, snapshot: &SnapshotId) -> [u8; 32] {
    let mut bytes = secret.to_vec();
    bytes.extend_from_slice(&epoch.to_le_bytes());
    bytes.extend_from_slice(snapshot.as_bytes());
    digest(0x90, &bytes)
}

fn object_key(secret: &[u8; 32], epoch: u64, content: &ContentId, kind: ObjectKind) -> [u8; 32] {
    let mut bytes = secret.to_vec();
    bytes.extend_from_slice(&epoch.to_le_bytes());
    bytes.extend_from_slice(content.as_bytes());
    bytes.push(kinds().byte(kind));
    digest(0x91, &bytes)
}

/// A peer: what it serves, and how its routes misbehave.
#[derive(Default)]
struct Peer {
    roots: HashMap<SnapshotId, (ContentId, Vec<u8>)>,
    snapshots: HashMap<SnapshotId, Vec<u8>>,
    sealed: HashMap<StorageId, Vec<u8>>,
    transport: HashMap<BaoRoot, Vec<u8>>,
    dead_transport: bool,
    failing: HashSet<StorageId>,
    attempts: RefCell<HashMap<StorageId, usize>>,
}

fn gate(bytes: Option<&Vec<u8>>, max: usize) -> Reply {
    match bytes {
        None => Ok(None),
        Some(bytes) if bytes.len() > max => Err(BulkError::Oversize {
            bytes: bytes.len(),
            max,
        }),
        Some(bytes) => Ok(Some(bytes.clone())),
    }
}

impl Peer {
    fn fetch_transport(&self, root: BaoRoot, max: usize) -> Reply {
        if self.dead_transport {
            return Err(BulkError::Transport("injected dead route".to_string()));
        }
        gate(self.transport.get(&root), max)
    }

    fn fetch_sealed(&self, storage: StorageId, max: usize) -> Reply {
        *self.attempts.borrow_mut().entry(storage).or_insert(0) += 1;
        if self.failing.contains(&storage) {
            return Err(BulkError::Transport("injected failure".to_string()));
        }
        gate(self.sealed.get(&storage), max)
    }

    fn fetch_snapshot(&self, snapshot: SnapshotId, max: usize) -> Reply {
        gate(self.snapshots.get(&snapshot), max)
    }

    fn fetch_root(
        &self,
        snapshot: SnapshotId,
        max: usize,
    ) -> Result<Option<SealedManifest>, BulkError> {
        match self.roots.get(&snapshot) {
            None => Ok(None),
            Some((content_id, sealed)) => Ok(gate(Some(sealed), max)?.map(|sealed| {
                SealedManifest {
                    content_id: *content_id,
                    sealed,
                }
            })),
        }
    }

    fn publish_transport(&mut self, bytes: Vec<u8>) -> BaoRoot {
        let root = transport_root(&bytes);
        self.transport.insert(root, bytes);
        root
    }

    fn publish_body(&mut self, body: &Snapshot) {
        self.snapshots.insert(body.id, body.encoded.clone());
        self.publish_transport(body.encoded.clone());
    }
}

/// How the local stores answer.
#[derive(Clone, Copy, PartialEq)]
enum Disk {
    Healthy,
    Refusing,
    Full,
}

impl Disk {
    fn refusal(self) -> Result<(), StoreFailure> {
        match self {
            Disk::Healthy => Ok(()),
            Disk::Refusing => Err(StoreFailure::Transient),
            Disk::Full => Err(StoreFailure::StorageFull),
        }
    }
}

/// The surroundings of a plan run: committed facts, epoch secrets, stores.
struct Engine {
    announcements: Vec<SnapshotAnnouncement>,
    facts: Vec<Fact>,
    pinned: Vec<ContentId>,
    cached: Vec<ContentId>,
    secrets: HashMap<u64, [u8; 32]>,
    vault: RefCell<HashMap<BaoRoot, Vec<u8>>>,
    objects: RefCell<HashMap<ContentId, Vec<u8>>>,
    object_disk: Disk,
    vault_disk: Disk,
    authorized: bool,
    backoff: Backoff,
    notes: Vec<Note>,
    commits: usize,
}

const SECRET: [u8; 32] = [0x09; 32];

impl Engine {
    fn new() -> Engine {
        Engine {
            announcements: Vec::new(),
            facts: Vec::new(),
            pinned: Vec::new(),
            cached: Vec::new(),
            secrets: HashMap::from([(1, [0x08; 32]), (2, SECRET)]),
            vault: RefCell::new(HashMap::new()),
            objects: RefCell::new(HashMap::new()),
            object_disk: Disk::Healthy,
            vault_disk: Disk::Healthy,
            authorized: true,
            backoff: Backoff::new(FETCH_MAX_STRIKES, FETCH_COOLDOWN_PASSES),
            notes: Vec::new(),
            commits: 0,
        }
    }

    fn rebuild(&self) -> RuntimeState {
        let mut state = RuntimeState::new(DriveId::from_bytes([0xEE; 32]));
        for announcement in &self.announcements {
            state.record_announcement(announcement.duplicate()).unwrap();
        }
        for fact in &self.facts {
            match fact {
                Fact::SnapshotBody(body) => {
                    state.record_snapshot_body(body.duplicate()).unwrap();
                }
                Fact::Manifest(record) => {
                    state
                        .record_manifest(record.duplicate(), identity)
                        .unwrap();
                }
                Fact::LocalObject(content) => {
                    state.mark_local_object(*content);
                }
                _ => unreachable!(),
            }
        }
        for content in &self.pinned {
            state.set_materialization(*content, MaterializationState::Pinned);
        }
        for content in &self.cached {
            state.set_materialization(*content, MaterializationState::Cached);
        }
        state
    }

    fn import(&self, bytes: &Vec<u8>) -> Result<(), VaultError> {
        self.vault_disk.refusal().map_err(VaultError::Io)?;
        self.vault
            .borrow_mut()
            .insert(transport_root(bytes), bytes.clone());
        Ok(())
    }

    fn insert(&self, content: ContentId, bytes: &Vec<u8>) -> Result<(), StoreFailure> {
        self.object_disk.refusal()?;
        self.objects.borrow_mut().insert(content, bytes.clone());
        Ok(())
    }

    fn run(&mut self, peer: &Peer) -> Result<ExecuteReport, EngineError> {
        self.run_sliced(peer, &mut || false)
    }

    fn run_sliced(
        &mut self,
        peer: &Peer,
        spent: &mut dyn FnMut() -> bool,
    ) -> Result<ExecuteReport, EngineError> {
        let format = ObjectFormat {
            kinds: kinds(),
            derive,
            parse_manifest,
            within_limits: |_: &Manifest| true,
            address,
            transport_root,
        };
        let mut report = ExecuteReport::new();
        self.backoff.begin_run();
        loop {
            let runtime = self.rebuild();
            let plan = runtime.reconcile();
            assert!(item_count(&plan).is_some());
            let mut pass = PlanPass::begin(runtime, plan, report);
            loop {
                let item = match pass.turn(spent()) {
                    Turn::Stop(report) => return Ok(report),
                    Turn::Exhausted => break,
                    Turn::Item(item) => item,
                };
                let chance = pass.chance(&self.backoff);
                if chance == Chance::Rest {
                    pass.skip();
                    continue;
                }
                let manifest = |epoch: u64, snapshot: SnapshotId| {
                    self.secrets
                        .get(&epoch)
                        .map(|secret| manifest_key(secret, epoch, &snapshot))
                };
                let settlement = match item {
                    PlanItem::Body(snapshot) => {
                        let outcome = snapshot_body(
                            pass.runtime(),
                            &snapshot,
                            MAX_BYTES,
                            MAX_PARENTS,
                            &derive,
                            decode_snapshot,
                            |root, max| peer.fetch_transport(root, max),
                            |id, max| peer.fetch_snapshot(id, max),
                        );
                        pass.settle_body(
                            outcome,
                            |_: &Snapshot| self.authorized,
                            |bytes: &Vec<u8>| self.import(bytes),
                        )
                    }
                    PlanItem::Root(snapshot) => {
                        let outcome = format.root(
                            pass.runtime(),
                            &snapshot,
                            MAX_BYTES,
                            manifest,
                            |root, max| peer.fetch_transport(root, max),
                            |id, max| peer.fetch_root(id, max),
                            |bytes: &Vec<u8>| self.import(bytes),
                        );
                        pass.settle_manifest(outcome, identity)
                    }
                    PlanItem::Child(id, link) => {
                        let outcome = format.child(
                            pass.runtime(),
                            &id,
                            &link,
                            MAX_BYTES,
                            manifest,
                            |root, max| peer.fetch_transport(root, max),
                            |id, max| peer.fetch_sealed(id, max),
                            |bytes: &Vec<u8>| self.import(bytes),
                        );
                        pass.settle_manifest(outcome, identity)
                    }
                    PlanItem::Object(content) => {
                        let Chance::Candidates(candidates) = chance else {
                            unreachable!()
                        };
                        let attempt = format.fetch_object(
                            &content,
                            &candidates,
                            MAX_BYTES,
                            MAX_CHUNK,
                            |epoch: u64, content: ContentId, kind: ObjectKind, _: u8| {
                                self.secrets
                                    .get(&epoch)
                                    .map(|secret| object_key(secret, epoch, &content, kind))
                            },
                            |root, max| peer.fetch_transport(root, max),
                            |id, max| peer.fetch_sealed(id, max),
                            |bytes: &Vec<u8>| self.import(bytes),
                            |_: ObjectKind, content: ContentId, bytes: &Vec<u8>| {
                                self.insert(content, bytes)
                            },
                        );
                        pass.settle_object(attempt)
                    }
                };
                for note in &settlement.notes {
                    self.backoff.note(*note);
                }
                self.notes.extend(settlement.notes);
                if let Some(error) = settlement.failure {
                    return Err(error);
                }
                assert!(pass.report().has_room());
            }
            match pass.finish() {
                PassEnd::Converged(report) => return Ok(report),
                PassEnd::Commit {
                    facts,
                    report: counted,
                    remaining,
                } => {
                    self.facts.extend(facts);
                    self.commits += 1;
                    match after_commit(counted, remaining, spent()) {
                        RunStep::Stop(report) => return Ok(report),
                        RunStep::Again(counted) => report = counted,
                    }
                }
            }
        }
    }

    fn evict(&mut self, content: ContentId) {
        self.facts.retain(|fact| *fact != Fact::LocalObject(content));
        self.objects.borrow_mut().remove(&content);
    }

    fn count(&self, matches: impl Fn(&Fact) -> bool) -> usize {
        self.facts.iter().filter(|fact| matches(fact)).count()
    }
}

fn identity(manifest: &Manifest) -> ContentId {
    derive(ObjectKind::Manifest, &canonical_bytes(manifest))
}

struct Published {
    root_manifest: ContentId,
    root_transport: BaoRoot,
    content: ContentId,
    object: StorageId,
    object_transport: BaoRoot,
}

fn seal_chunk(secret: &[u8; 32], epoch: u64, plaintext: &[u8], seed: u8) -> (ManifestEntry, Vec<u8>) {
    let plaintext = plaintext.to_vec();
    let content = derive(ObjectKind::Chunk, &plaintext);
    let obj = seal(
        &kinds(),
        &object_key(secret, epoch, &content, ObjectKind::Chunk),
        ObjectKind::Chunk,
        &content,
        Some([seed; 24]),
        &plaintext,
        &derive,
    )
    .unwrap();
    let entry = entry_for(
        &kinds(),
        ObjectKind::Chunk,
        SEAL_VERSION,
        epoch,
        &obj,
        &content,
        plaintext.len() as u64,
        &address,
        &transport_root,
    )
    .unwrap();
    (entry, obj.encode(&kinds()))
}

fn sealed_manifest(secret: &[u8; 32], epoch: u64, manifest: &Manifest, seed: u8) -> (ContentId, Vec<u8>) {
    let (id, obj) = seal_manifest(
        &kinds(),
        &manifest_key(secret, epoch, &manifest.snapshot),
        manifest,
        Some([seed; 24]),
        &canonical_bytes,
        &derive,
    )
    .unwrap();
    (id, obj.encode(&kinds()))
}

/// Publishes a root manifest that maps one object and links one child.
fn publish_into(
    peer: &mut Peer,
    manifest_secret: &[u8; 32],
    manifest_epoch: u64,
    object_secret: &[u8; 32],
    object_epoch: u64,
    snapshot: SnapshotId,
    plaintext: &[u8],
) -> Published {
    publish_seeded(
        peer,
        (manifest_secret, manifest_epoch),
        (object_secret, object_epoch),
        snapshot,
        plaintext,
        0x21,
    )
}

fn publish_seeded(
    peer: &mut Peer,
    (manifest_secret, manifest_epoch): (&[u8; 32], u64),
    (object_secret, object_epoch): (&[u8; 32], u64),
    snapshot: SnapshotId,
    plaintext: &[u8],
    seed: u8,
) -> Published {
    let (entry, object) = seal_chunk(object_secret, object_epoch, plaintext, seed);
    peer.sealed.insert(entry.storage_id, object.clone());
    peer.publish_transport(object);
    let (child_id, child) = sealed_manifest(
        manifest_secret,
        manifest_epoch,
        &Manifest::new(snapshot, Vec::new(), Vec::new()),
        seed + 1,
    );
    let child_storage = address(&child);
    let child_transport = peer.publish_transport(child.clone());
    peer.sealed.insert(child_storage, child);
    let (root_id, root) = sealed_manifest(
        manifest_secret,
        manifest_epoch,
        &Manifest::new(
            snapshot,
            vec![entry],
            vec![ChildManifest {
                tree: ContentId::from_bytes([0xC1; 32]),
                manifest: child_id,
                storage: child_storage,
                transport: child_transport,
            }],
        ),
        seed + 2,
    );
    let root_transport = peer.publish_transport(root.clone());
    peer.roots.insert(snapshot, (root_id, root));
    Published {
        root_manifest: root_id,
        root_transport,
        content: entry.content_id,
        object: entry.storage_id,
        object_transport: entry.transport,
    }
}

fn announce(engine: &mut Engine, body: &Snapshot, root: ContentId, transport: BaoRoot) {
    engine.announcements.push(SnapshotAnnouncement {
        snapshot: body.id,
        author: body.author,
        epoch: body.epoch,
        membership: body.membership,
        body_root: transport_root(&body.encoded),
        root_manifest: root,
        root_manifest_transport: transport,
        node_addr: None,
        signature: [0x77; 64],
    });
}

/// An engine that knows an announcement, and a peer that serves it.
fn published(plaintext: &[u8]) -> (Engine, Peer, Published) {
    published_under(plaintext, &SECRET, 2)
}

fn published_under(plaintext: &[u8], secret: &[u8; 32], epoch: u64) -> (Engine, Peer, Published) {
    let mut engine = Engine::new();
    let mut peer = Peer::default();
    let body = body_with_parents(0);
    let published = publish_into(&mut peer, &SECRET, 2, secret, epoch, body.id, plaintext);
    peer.publish_body(&body);
    announce(&mut engine, &body, published.root_manifest, published.root_transport);
    engine.pinned.push(published.content);
    (engine, peer, published)
}

#[test]
fn attempts_settle_into_fetch_status() {
    assert_eq!(FetchOutcome::Fulfilled(()).settled(), FetchStatus::Available);
    for outcome in [
        FetchOutcome::<()>::Missing,
        FetchOutcome::UnavailableKey,
        FetchOutcome::Transport,
    ] {
        assert_eq!(outcome.settled(), FetchStatus::Unavailable);
    }
    for outcome in [FetchOutcome::<()>::Invalid, FetchOutcome::Local] {
        assert_eq!(outcome.settled(), FetchStatus::Corrupt);
    }
}

#[test]
fn worse_failure_wins_by_actionability() {
    assert_eq!(
        worse(FetchOutcome::Missing, FetchOutcome::Transport),
        FetchOutcome::Transport
    );
    assert_eq!(
        worse(FetchOutcome::Invalid, FetchOutcome::UnavailableKey),
        FetchOutcome::Invalid
    );
    assert_eq!(
        worse(FetchOutcome::Transport, FetchOutcome::Local),
        FetchOutcome::Transport
    );
}

#[test]
fn only_a_full_or_unwritable_disk_is_fatal() {
    assert_eq!(fatal_store(StoreFailure::Transient), None);
    assert_eq!(
        fatal_store(StoreFailure::Unwritable),
        Some(StoreFailure::Unwritable)
    );
    assert_eq!(
        fatal_vault(&VaultError::Io(StoreFailure::StorageFull)),
        Some(StoreFailure::StorageFull)
    );
    assert_eq!(fatal_vault(&VaultError::Root), None);
}

#[test]
fn transport_root_falls_back_to_the_storage_address() {
    let mut peer = Peer::default();
    let storage = StorageId::from_bytes([0x5A; 32]);
    let sealed = vec![0x42; 40];
    peer.sealed.insert(storage, sealed.clone());
    assert_eq!(
        fetch_representation(
            &BaoRoot::from_bytes([0xEE; 32]),
            &storage,
            MAX_BYTES,
            |root, max| peer.fetch_transport(root, max),
            |id, max| peer.fetch_sealed(id, max),
        ),
        Ok(Some(sealed)),
        "the forged root names nothing; the storage address serves"
    );
}

#[test]
fn a_stale_transport_field_degrades_to_the_storage_route() {
    let mut peer = Peer::default();
    let storage = StorageId::from_bytes([0x5B; 32]);
    let sealed = vec![0x7C; 48];
    peer.sealed.insert(storage, sealed.clone());
    let claimed = transport_root(&b"bytes that are not the representation".to_vec());
    assert_ne!(claimed, transport_root(&sealed));
    assert_eq!(
        fetch_representation(
            &claimed,
            &storage,
            MAX_BYTES,
            |root, max| peer.fetch_transport(root, max),
            |id, max| peer.fetch_sealed(id, max),
        ),
        Ok(Some(sealed)),
    );
}

#[test]
fn oversize_transport_response_is_representation_terminal() {
    let storage = StorageId::from_bytes([0x7C; 32]);
    assert_eq!(
        fetch_representation(
            &BaoRoot::from_bytes([0xEE; 32]),
            &storage,
            64,
            |_, _| Err(BulkError::Oversize { bytes: 65, max: 64 }),
            |_, _| Ok(Some(vec![0x42; 40])),
        ),
        Err(BulkError::Oversize { bytes: 65, max: 64 }),
        "the healthy storage route is not tried after an oversize transport response"
    );
}

fn fetch_body(peer: &Peer, id: &SnapshotId) -> FetchOutcome<Snapshot> {
    let runtime = RuntimeState::new(DriveId::from_bytes([0xEE; 32]));
    snapshot_body(
        &runtime,
        id,
        MAX_BYTES,
        MAX_PARENTS,
        &derive,
        decode_snapshot,
        |root, max| peer.fetch_transport(root, max),
        |id, max| peer.fetch_snapshot(id, max),
    )
}

#[test]
fn snapshot_body_over_the_parent_ceiling_is_invalid() {
    let body = body_with_parents(MAX_PARENTS + 1);
    let mut peer = Peer::default();
    peer.publish_body(&body);
    let outcome = fetch_body(&peer, &body.id);
    assert!(
        matches!(outcome, FetchOutcome::Invalid),
        "a body over the parent ceiling is invalid remote data: {outcome:?}"
    );
}

#[test]
fn snapshot_body_at_the_parent_ceiling_is_fulfilled() {
    let body = body_with_parents(MAX_PARENTS);
    let mut peer = Peer::default();
    peer.publish_body(&body);
    assert!(
        matches!(fetch_body(&peer, &body.id), FetchOutcome::Fulfilled(_)),
        "the maximum legal parent count still converges"
    );
}

#[test]
fn a_body_under_another_address_is_invalid() {
    let body = body_with_parents(1);
    let mut peer = Peer::default();
    let other = SnapshotId::from_bytes([0x42; 32]);
    peer.snapshots.insert(other, body.encoded.clone());
    assert_eq!(fetch_body(&peer, &other), FetchOutcome::Invalid);
    assert_eq!(fetch_body(&peer, &body.id), FetchOutcome::Missing);
}

fn chunk_run(len: usize) -> (Engine, ExecuteReport, Published) {
    let (mut engine, peer, published) = published(&vec![0x5A; len]);
    let report = engine.run(&peer).unwrap();
    (engine, report, published)
}

#[test]
fn chunk_over_the_payload_ceiling_is_invalid_and_unimported() {
    let (engine, report, published) = chunk_run(MAX_CHUNK + 1);
    assert_eq!(report.objects, 0);
    assert!(report.invalid > 0, "an over-ceiling chunk is invalid remote data");
    assert!(engine
        .notes
        .contains(&Note::Invalid(FetchKey::Storage(published.object))));
    assert!(
        !engine.objects.borrow().contains_key(&published.content)
            && !engine.vault.borrow().contains_key(&published.object_transport),
        "nothing lands: no residency, no plaintext object"
    );
}

#[test]
fn chunk_at_the_payload_ceiling_imports() {
    let (engine, report, published) = chunk_run(MAX_CHUNK);
    assert_eq!(report.objects, 1, "the maximum legal chunk still converges");
    assert!(engine.objects.borrow().contains_key(&published.content));
    assert!(engine.vault.borrow().contains_key(&published.object_transport));
}

#[test]
fn announced_body_over_the_parent_ceiling_commits_nothing() {
    let mut engine = Engine::new();
    let mut peer = Peer::default();
    let body = body_with_parents(MAX_PARENTS + 1);
    peer.publish_body(&body);
    announce(
        &mut engine,
        &body,
        ContentId::from_bytes([0x55; 32]),
        BaoRoot::from_bytes([0x66; 32]),
    );
    let report = engine.run(&peer).unwrap();
    assert_eq!(report.snapshot_bodies, 0);
    assert_eq!(report.invalid, 1);
    assert!(engine.facts.is_empty());
    assert!(engine.vault.borrow().is_empty());
}

#[test]
fn announced_body_at_the_parent_ceiling_converges_once() {
    let mut engine = Engine::new();
    let mut peer = Peer::default();
    let body = body_with_parents(MAX_PARENTS);
    peer.publish_body(&body);
    announce(
        &mut engine,
        &body,
        ContentId::from_bytes([0x55; 32]),
        BaoRoot::from_bytes([0x66; 32]),
    );
    let report = engine.run(&peer).unwrap();
    assert_eq!(report.snapshot_bodies, 1);
    assert_eq!(engine.count(|f| matches!(f, Fact::SnapshotBody(_))), 1);
    let report = engine.run(&peer).unwrap();
    assert_eq!(report.snapshot_bodies, 0);
}

#[test]
fn planned_body_without_announcement_fails() {
    // A plan for a body whose announcement the state does not have.
    let mut engine = Engine::new();
    let body = body_with_parents(0);
    announce(
        &mut engine,
        &body,
        ContentId::from_bytes([0x55; 32]),
        BaoRoot::from_bytes([0x66; 32]),
    );
    let plan = engine.rebuild().reconcile();
    let bare = RuntimeState::new(DriveId::from_bytes([0xEE; 32]));
    let snapshot = body.id;
    let mut pass = PlanPass::begin(bare, plan, ExecuteReport::new());
    let settlement = pass.settle_body(
        FetchOutcome::Fulfilled(body),
        |_: &Snapshot| true,
        |_: &Vec<u8>| Ok(()),
    );
    assert!(matches!(
        settlement.failure,
        Some(EngineError::AnnouncementUnavailable(id)) if id == snapshot
    ));
}

#[test]
fn planned_body_with_announcement_resolves() {
    let mut engine = Engine::new();
    let body = body_with_parents(0);
    announce(
        &mut engine,
        &body,
        ContentId::from_bytes([0x55; 32]),
        BaoRoot::from_bytes([0x66; 32]),
    );
    let runtime = engine.rebuild();
    let plan = runtime.reconcile();
    let snapshot = body.id;
    let mut pass = PlanPass::begin(runtime, plan, ExecuteReport::new());
    let settlement = pass.settle_body(
        FetchOutcome::Fulfilled(body),
        |_: &Snapshot| true,
        |_: &Vec<u8>| Ok(()),
    );
    assert_eq!(settlement.failure, None);
    assert_eq!(
        settlement.notes,
        vec![Note::Fulfilled(FetchKey::Body(snapshot))]
    );
    assert!(pass.runtime().snapshot_body(&snapshot).is_some());
}

#[test]
fn plan_executes_to_convergence() {
    let (mut engine, peer, published) = published(b"hello wyrd");
    let report = engine.run(&peer).unwrap();
    assert_eq!(report.manifests, 2, "root plus its child");
    assert_eq!(report.objects, 1);
    assert_eq!(report.unfulfilled, 0);
    assert_eq!(
        engine.objects.borrow().get(&published.content).map(Vec::as_slice),
        Some(b"hello wyrd".as_slice())
    );
    assert_eq!(engine.count(|f| matches!(f, Fact::Manifest(_))), 2);
    assert_eq!(engine.count(|f| *f == Fact::LocalObject(published.content)), 1);

    // A second run is a no-op: everything recorded, nothing pending.
    let report = engine.run(&peer).unwrap();
    assert_eq!(report, ExecuteReport::new());
}

#[test]
fn plan_waits_for_absent_bytes_then_converges() {
    let (mut engine, peer, _) = published(b"late bytes");
    let report = engine.run(&Peer::default()).unwrap();
    assert_eq!(report.manifests, 0);
    assert_eq!(report.objects, 0);
    assert_eq!(report.unfulfilled, 2, "root manifest plus body");
    assert!(engine.facts.is_empty());

    let report = engine.run(&peer).unwrap();
    assert_eq!(report.manifests, 2);
    assert_eq!(report.objects, 1);
    assert_eq!(report.unfulfilled, 0);
}

#[test]
fn plan_rejects_corrupt_bulk_without_poison() {
    let (mut engine, peer, _) = published(b"honest bytes");
    let snapshot = engine.announcements[0].snapshot;
    let mut hostile = Peer::default();
    hostile
        .roots
        .insert(snapshot, (ContentId::from_bytes([0xEE; 32]), vec![0xAA; 10]));
    let report = engine.run(&hostile).unwrap();
    assert_eq!(report.manifests, 0);
    assert_eq!(
        report.unfulfilled, 2,
        "the hostile root and the absent body stay pending"
    );

    let foreign = EncryptedObject {
        version: SEAL_VERSION,
        kind: ObjectKind::Manifest,
        nonce: [0x11; 24],
        ciphertext: vec![0x22; 64],
    };
    hostile.roots.insert(
        snapshot,
        (ContentId::from_bytes([0xEF; 32]), foreign.encode(&kinds())),
    );
    let report = engine.run(&hostile).unwrap();
    assert_eq!(report.manifests, 0);
    assert_eq!(
        report.unfulfilled, 2,
        "the skipped root and the absent body stay pending"
    );
    assert!(engine.facts.is_empty());

    let report = engine.run(&peer).unwrap();
    assert_eq!(report.manifests, 2);
    assert_eq!(report.objects, 1);
    assert_eq!(report.unfulfilled, 0);
}

#[test]
fn plan_skips_objects_without_epoch_capability() {
    let (mut engine, peer, published) = published_under(b"future epoch", &[0x0A; 32], 9);
    let report = engine.run(&peer).unwrap();
    assert_eq!(report.manifests, 2);
    assert_eq!(report.objects, 0);
    assert_eq!(report.unfulfilled, 1);
    assert!(!engine.objects.borrow().contains_key(&published.content));
    assert_eq!(engine.count(|f| matches!(f, Fact::LocalObject(_))), 0);
}

#[test]
fn plan_counts_unknown_epoch_objects_as_unavailable_keys() {
    let (mut engine, peer, _) = published_under(b"future epoch", &[0x0A; 32], 9);
    let report = engine.run(&peer).unwrap();
    assert_eq!(report.manifests, 2);
    assert_eq!(report.objects, 0);
    assert_eq!(report.unfulfilled, 1);
    assert_eq!(report.unavailable_keys, 2, "one attempt per pass");
    assert_eq!(report.missing, 0);
    assert_eq!(report.invalid, 0);
    assert_eq!(report.transport_errors, 0);
    assert_eq!(report.local_failures, 0);
}

#[test]
fn plan_enforces_limits_on_bulk_bytes() {
    let (mut engine, _, _) = published(b"unused");
    let snapshot = engine.announcements[0].snapshot;
    let mut oversize = Peer::default();
    oversize.roots.insert(
        snapshot,
        (
            ContentId::from_bytes([0xED; 32]),
            vec![0xAA; 64 * 1024 * 1024 + 1],
        ),
    );
    let report = engine.run(&oversize).unwrap();
    assert_eq!(report.manifests, 0);
    assert_eq!(
        report.unfulfilled, 2,
        "the oversize root and the absent body stay pending"
    );
    assert!(engine.facts.is_empty());
}

#[test]
fn plan_counts_absent_object_bytes_as_missing() {
    let (mut engine, mut peer, published) = published(b"withheld bytes");
    peer.sealed.remove(&published.object);
    peer.transport.remove(&published.object_transport);
    let report = engine.run(&peer).unwrap();
    assert_eq!(report.manifests, 2);
    assert_eq!(report.objects, 0);
    assert_eq!(report.unfulfilled, 1);
    assert_eq!(report.missing, 2, "one attempt per pass");
    assert_eq!(report.transport_errors, 0);
    assert_eq!(report.invalid, 0);
    assert_eq!(report.unavailable_keys, 0);
    assert_eq!(report.local_failures, 0);
    assert!(!engine
        .notes
        .iter()
        .any(|note| matches!(note, Note::Invalid(_) | Note::TransportFailure(_))));
}

#[test]
fn plan_counts_rejected_object_bytes_as_invalid() {
    let (mut engine, mut peer, published) = published(b"corrupt bytes");
    peer.sealed.insert(published.object, vec![0xFF; 64]);
    peer.transport.remove(&published.object_transport);
    let report = engine.run(&peer).unwrap();
    assert_eq!(report.manifests, 2);
    assert_eq!(report.objects, 0);
    assert_eq!(report.unfulfilled, 1);
    assert_eq!(report.invalid, 2, "one attempt per pass");
    assert_eq!(report.missing, 0);
    assert_eq!(report.transport_errors, 0);
    assert_eq!(report.unavailable_keys, 0);
    assert_eq!(report.local_failures, 0);
    assert!(!engine.objects.borrow().contains_key(&published.content));
}

#[test]
fn plan_counts_refused_imports_as_local_failures() {
    let (mut engine, peer, _) = published(b"refused bytes");
    engine.object_disk = Disk::Refusing;
    let report = engine.run(&peer).unwrap();
    assert_eq!(report.manifests, 2);
    assert_eq!(report.objects, 0);
    assert_eq!(report.unfulfilled, 1);
    assert_eq!(report.local_failures, 2, "one attempt per pass");
    assert_eq!(report.missing, 0);
    assert_eq!(report.invalid, 0);
    assert_eq!(report.unavailable_keys, 0);
    assert_eq!(report.transport_errors, 0);
}

#[test]
fn plan_aborts_on_full_disk_instead_of_stalling() {
    let (mut engine, peer, published) = published(b"full disk bytes");
    engine.object_disk = Disk::Full;
    assert_eq!(
        engine.run(&peer),
        Err(EngineError::Store(StoreFailure::StorageFull))
    );
    assert!(!engine.objects.borrow().contains_key(&published.content));

    let mut engine = Engine::new();
    let body = body_with_parents(0);
    let mut peer = Peer::default();
    peer.publish_body(&body);
    announce(
        &mut engine,
        &body,
        ContentId::from_bytes([0x55; 32]),
        BaoRoot::from_bytes([0x66; 32]),
    );
    engine.vault_disk = Disk::Full;
    assert_eq!(
        engine.run(&peer),
        Err(EngineError::Store(StoreFailure::StorageFull))
    );
    engine.vault_disk = Disk::Refusing;
    let report = engine.run(&peer).unwrap();
    assert_eq!(report.local_failures, 1);
    assert!(engine.facts.is_empty(), "no fact without residency");
}

#[test]
fn plan_counts_transport_errors_separately_from_absence() {
    let (mut engine, mut peer, published) = published(b"counted errors");
    peer.transport.remove(&published.object_transport);
    peer.failing.insert(published.object);
    let report = engine.run(&peer).unwrap();
    assert_eq!(report.manifests, 2);
    assert_eq!(report.objects, 0);
    assert_eq!(report.unfulfilled, 1);
    assert_eq!(report.transport_errors, 2);
    assert_eq!(report.missing, 0);
    assert_eq!(report.invalid, 0);
    assert_eq!(report.unavailable_keys, 0);
    assert_eq!(report.local_failures, 0);
    assert!(!engine.objects.borrow().contains_key(&published.content));
    assert!(engine
        .notes
        .contains(&Note::TransportFailure(FetchKey::Storage(published.object))));

    peer.failing.clear();
    let report = engine.run(&peer).unwrap();
    assert_eq!(report.objects, 1);
    assert_eq!(report.unfulfilled, 0);
    assert_eq!(report.transport_errors, 0);
}

#[test]
fn plan_rejects_root_manifest_for_another_snapshot() {
    // A well-sealed manifest that names another snapshot.
    let mut engine = Engine::new();
    let mut peer = Peer::default();
    let body = body_with_parents(0);
    let stranger = Manifest::new(SnapshotId::from_bytes([0x99; 32]), Vec::new(), Vec::new());
    let bytes = canonical_bytes(&stranger);
    let id = derive(ObjectKind::Manifest, &bytes);
    let sealed = seal(
        &kinds(),
        &manifest_key(&SECRET, 2, &body.id),
        ObjectKind::Manifest,
        &id,
        Some([1; 24]),
        &bytes,
        &derive,
    )
    .unwrap()
    .encode(&kinds());
    let transport = peer.publish_transport(sealed.clone());
    peer.roots.insert(body.id, (id, sealed));
    announce(&mut engine, &body, id, transport);
    let report = engine.run(&peer).unwrap();
    assert_eq!(report.manifests, 0, "wrong-snapshot root commits nothing");
    assert_eq!(report.invalid, 1, "rejected bytes count as invalid");
    assert_eq!(report.missing, 1, "the absent body");
    assert_eq!(report.unfulfilled, 2);
    assert_eq!(
        engine.notes,
        vec![Note::Invalid(FetchKey::Root(body.id))]
    );
    assert!(engine.facts.is_empty());
}

#[test]
fn plan_ignores_resealed_equivalents_of_recorded_manifests() {
    let (mut engine, peer, published) = published(b"stable record");
    let report = engine.run(&peer).unwrap();
    assert_eq!(report.manifests, 2);
    assert_eq!(report.objects, 1);
    let commits = engine.commits;
    let before = engine
        .rebuild()
        .manifest_record(&published.root_manifest)
        .unwrap()
        .duplicate();

    let snapshot = engine.announcements[0].snapshot;
    let mut resealed = Peer::default();
    publish_seeded(
        &mut resealed,
        (&SECRET, 2),
        (&SECRET, 2),
        snapshot,
        b"stable record",
        0x61,
    );
    assert_ne!(
        peer.roots[&snapshot].1, resealed.roots[&snapshot].1,
        "fresh seals must yield fresh bytes"
    );
    let report = engine.run(&resealed).unwrap();
    assert_eq!(report.manifests, 0);
    assert_eq!(report.objects, 0);
    assert_eq!(report.unfulfilled, 0);
    assert_eq!(engine.commits, commits, "no new commits");
    let after = engine
        .rebuild()
        .manifest_record(&published.root_manifest)
        .unwrap()
        .duplicate();
    assert_eq!(before, after, "records keep original storage ids");
}

#[test]
fn plan_rejects_bodies_that_disagree_with_their_announcement() {
    for field in 0..3 {
        let mut engine = Engine::new();
        let mut peer = Peer::default();
        let body = body_with_parents(0);
        peer.publish_body(&body);
        announce(
            &mut engine,
            &body,
            ContentId::from_bytes([0x55; 32]),
            BaoRoot::from_bytes([0x66; 32]),
        );
        let lying = &mut engine.announcements[0];
        match field {
            0 => lying.author = DeviceId::from_bytes([0x31; 32]),
            1 => lying.epoch += 1,
            _ => lying.membership = TransitionId::from_bytes([0x31; 32]),
        }
        let report = engine.run(&peer).unwrap();
        assert_eq!(report.invalid, 1);
        assert_eq!(report.unfulfilled, 2, "body and root stay pending");
        assert_eq!(engine.notes, vec![Note::Invalid(FetchKey::Body(body.id))]);
        assert!(engine.facts.is_empty());
        assert!(engine.vault.borrow().is_empty(), "nothing is imported");
    }
}

#[test]
fn unauthorized_bodies_are_invalid_and_unimported() {
    let mut engine = Engine::new();
    let mut peer = Peer::default();
    let body = body_with_parents(0);
    peer.publish_body(&body);
    announce(
        &mut engine,
        &body,
        ContentId::from_bytes([0x55; 32]),
        BaoRoot::from_bytes([0x66; 32]),
    );
    engine.authorized = false;
    let report = engine.run(&peer).unwrap();
    assert_eq!(report.invalid, 1);
    assert!(engine.vault.borrow().is_empty());
    assert!(engine.facts.is_empty());
}

#[test]
fn plan_falls_back_to_the_next_candidate() {
    let mut engine = Engine::new();
    let mut peer = Peer::default();
    let body = body_with_parents(0);
    peer.publish_body(&body);
    let plaintext = b"fallback content";
    let (healthy, sealed) = seal_chunk(&SECRET, 2, plaintext, 0x41);
    let mut corrupt = healthy;
    corrupt.storage_id = StorageId::from_bytes([0x01; 32]);
    corrupt.transport = BaoRoot::from_bytes([0x02; 32]);
    peer.sealed.insert(corrupt.storage_id, vec![0xFF; 64]);
    peer.sealed.insert(healthy.storage_id, sealed);
    let (root, bytes) = sealed_manifest(
        &SECRET,
        2,
        &Manifest::new(body.id, vec![corrupt, healthy], Vec::new()),
        0x51,
    );
    let transport = peer.publish_transport(bytes);
    announce(&mut engine, &body, root, transport);
    engine.pinned.push(healthy.content_id);
    let report = engine.run(&peer).unwrap();
    assert_eq!(report.manifests, 1);
    assert_eq!(report.objects, 1, "the healthy candidate fulfills");
    assert_eq!(report.unfulfilled, 0);
    assert!(engine.objects.borrow().contains_key(&healthy.content_id));
    assert!(engine
        .notes
        .contains(&Note::Invalid(FetchKey::Storage(corrupt.storage_id))));
    assert!(engine
        .notes
        .contains(&Note::Fulfilled(FetchKey::Storage(healthy.storage_id))));
}

#[test]
fn plan_fetches_duplicate_entries_once() {
    let mut engine = Engine::new();
    let mut peer = Peer::default();
    let body = body_with_parents(0);
    peer.publish_body(&body);
    let (entry, sealed) = seal_chunk(&SECRET, 2, b"shared entry", 0x41);
    peer.sealed.insert(entry.storage_id, sealed);
    let (child, child_bytes) = sealed_manifest(
        &SECRET,
        2,
        &Manifest::new(body.id, vec![entry], Vec::new()),
        0x51,
    );
    let child_storage = address(&child_bytes);
    let child_transport = peer.publish_transport(child_bytes);
    let (root, bytes) = sealed_manifest(
        &SECRET,
        2,
        &Manifest::new(
            body.id,
            vec![entry],
            vec![ChildManifest {
                tree: ContentId::from_bytes([0x7E; 32]),
                manifest: child,
                storage: child_storage,
                transport: child_transport,
            }],
        ),
        0x61,
    );
    let transport = peer.publish_transport(bytes);
    announce(&mut engine, &body, root, transport);
    engine.pinned.push(entry.content_id);
    let report = engine.run(&peer).unwrap();
    assert_eq!(report.manifests, 2);
    assert_eq!(report.objects, 1);
    assert_eq!(report.unfulfilled, 0);
    assert_eq!(
        peer.attempts.borrow().get(&entry.storage_id),
        Some(&1),
        "duplicate entries across manifests fetch once"
    );
}

#[test]
fn dead_transport_route_falls_back_to_the_storage_route() {
    let (mut engine, mut peer, published) = published(b"fallback hello");
    peer.dead_transport = true;
    let report = engine.run(&peer).unwrap();
    assert_eq!(report.snapshot_bodies, 1);
    assert_eq!(report.manifests, 2, "root plus child, over the fallback");
    assert_eq!(report.objects, 1);
    assert_eq!(report.unfulfilled, 0);
    assert_eq!(
        engine.objects.borrow().get(&published.content).map(Vec::as_slice),
        Some(b"fallback hello".as_slice())
    );
}

#[test]
fn fallback_route_serving_a_forked_identity_commits_nothing() {
    let mut engine = Engine::new();
    let mut peer = Peer::default();
    let body = body_with_parents(0);
    peer.publish_body(&body);
    let (root_a, sealed_a) = sealed_manifest(
        &SECRET,
        2,
        &Manifest::new(body.id, Vec::new(), Vec::new()),
        0x21,
    );
    let (probe, _) = seal_chunk(&SECRET, 2, b"fork probe", 0x22);
    let (root_b, sealed_b) = sealed_manifest(
        &SECRET,
        2,
        &Manifest::new(body.id, vec![probe], Vec::new()),
        0x23,
    );
    assert_ne!(root_a, root_b, "distinct manifests must yield distinct ids");
    peer.roots.insert(body.id, (root_b, sealed_b));
    announce(&mut engine, &body, root_a, transport_root(&sealed_a));
    let report = engine.run(&peer).unwrap();
    assert_eq!(
        report.manifests, 0,
        "a forked identity commits no manifest record"
    );
    // The body commits in the first pass, so the plan runs a second.
    assert_eq!(report.invalid, 2);
    assert_eq!(report.snapshot_bodies, 1, "the body still converges");
}

#[test]
fn fetch_converges_through_the_signed_transport_roots_alone() {
    let (mut engine, mut peer, published) = published(b"transport hello");
    peer.roots.clear();
    peer.snapshots.clear();
    peer.sealed.clear();
    let report = engine.run(&peer).unwrap();
    assert_eq!(report.snapshot_bodies, 1);
    assert_eq!(report.manifests, 2);
    assert_eq!(report.objects, 1);
    assert_eq!(report.unfulfilled, 0);
    assert_eq!(
        engine.objects.borrow().get(&published.content).map(Vec::as_slice),
        Some(b"transport hello".as_slice())
    );
}

/// Corrupts the served bytes of the published object.
fn corrupt(peer: &mut Peer, published: &Published) {
    peer.sealed.insert(published.object, vec![0xFF; 64]);
    peer.transport.remove(&published.object_transport);
}

fn heal(peer: &mut Peer, plaintext: &[u8]) {
    let (entry, sealed) = seal_chunk(&SECRET, 2, plaintext, 0x21);
    peer.sealed.insert(entry.storage_id, sealed);
}

#[test]
fn repeatedly_invalid_representations_back_off() {
    let (mut engine, mut peer, published) = published(b"backoff probe");
    corrupt(&mut peer, &published);
    // The first run makes two passes: two attempts, one strike.
    let report = engine.run(&peer).unwrap();
    assert_eq!(report.invalid, 2, "attempted while striking");
    for _ in 0..FETCH_MAX_STRIKES - 1 {
        let report = engine.run(&peer).unwrap();
        assert_eq!(report.invalid, 1, "attempted while striking");
    }
    for _ in 0..FETCH_COOLDOWN_PASSES {
        let report = engine.run(&peer).unwrap();
        assert_eq!(report.invalid, 0, "backing off");
        assert_eq!(report.unfulfilled, 1);
    }
    let report = engine.run(&peer).unwrap();
    assert_eq!(report.invalid, 1, "retried after the cooldown");
    let next = engine.run(&peer).unwrap();
    assert_eq!(next.invalid, 1, "strike count restarted, not resumed");
    heal(&mut peer, b"backoff probe");
    let report = engine.run(&peer).unwrap();
    assert_eq!(report.objects, 1);
    assert_eq!(report.unfulfilled, 0);
    assert_eq!(report.invalid, 0);
}

#[test]
fn fulfillment_clears_fetch_strikes() {
    let (mut engine, mut peer, published) = published(b"strike probe");
    corrupt(&mut peer, &published);
    let report = engine.run(&peer).unwrap();
    assert_eq!(report.invalid, 2);
    assert_eq!(report.manifests, 2);
    heal(&mut peer, b"strike probe");
    let report = engine.run(&peer).unwrap();
    assert_eq!(report.objects, 1, "valid bytes fulfill and clear strikes");
    engine.evict(published.content);
    corrupt(&mut peer, &published);
    for _ in 0..3 {
        let report = engine.run(&peer).unwrap();
        assert_eq!(report.invalid, 1, "attempted while striking");
    }
    let report = engine.run(&peer).unwrap();
    assert_eq!(report.invalid, 0, "cooled only after fresh strikes");
    assert_eq!(report.unfulfilled, 1);
}

/// Two snapshots that map one content, one of them under a representation
/// whose served bytes are corrupt. The corrupt one's manifest comes first
/// in id order, so its candidate is tried first. Gives the corrupt storage
/// id, the healthy entry and the healthy bytes.
fn two_representations(
    engine: &mut Engine,
    peer: &mut Peer,
    plaintext: &[u8],
    both_bodies: bool,
) -> (StorageId, ManifestEntry, Vec<u8>) {
    let (good, sealed) = seal_chunk(&SECRET, 2, plaintext, 0x41);
    let bad = ManifestEntry {
        storage_id: StorageId::from_bytes([0xBD; 32]),
        transport: BaoRoot::from_bytes([0xB0; 32]),
        ..good
    };
    let good_body = body_with_parents(0);
    let (good_id, good_root) = sealed_manifest(
        &SECRET,
        2,
        &Manifest::new(good_body.id, vec![good], Vec::new()),
        0x51,
    );
    let (bad_body, bad_id, bad_root) = (1..=MAX_PARENTS)
        .map(|parents| {
            let body = body_with_parents(parents);
            let manifest = Manifest::new(body.id, vec![bad], Vec::new());
            let (id, root) = sealed_manifest(&SECRET, 2, &manifest, 0x52);
            (body, id, root)
        })
        .find(|(_, id, _)| id.as_bytes() < good_id.as_bytes())
        .expect("a corrupt manifest that sorts first");
    peer.publish_body(&good_body);
    if both_bodies {
        peer.publish_body(&bad_body);
    }
    let transport = peer.publish_transport(good_root);
    announce(engine, &good_body, good_id, transport);
    let transport = peer.publish_transport(bad_root);
    announce(engine, &bad_body, bad_id, transport);
    engine.pinned.push(good.content_id);
    peer.sealed.insert(bad.storage_id, vec![0xFF; 64]);
    (bad.storage_id, good, sealed)
}

#[test]
fn absent_representations_do_not_strike() {
    let mut engine = Engine::new();
    let mut peer = Peer::default();
    two_representations(&mut engine, &mut peer, b"two-rep content", true);
    for _ in 0..FETCH_MAX_STRIKES {
        let report = engine.run(&peer).unwrap();
        assert_eq!(report.invalid, 1, "aggregate invalid; corrupt strikes");
    }
    let report = engine.run(&peer).unwrap();
    assert_eq!(report.invalid, 0, "corrupt representation cooled");
    assert_eq!(report.missing, 1, "absent representation still attempted");
}

#[test]
fn corrupt_candidates_strike_even_when_a_fallback_fulfills() {
    let mut engine = Engine::new();
    let mut peer = Peer::default();
    let (bad, good, sealed) =
        two_representations(&mut engine, &mut peer, b"strike-through-fallback", false);
    let report = engine.run(&peer).unwrap();
    assert_eq!(report.manifests, 2);
    assert_eq!(report.invalid, 1);
    peer.sealed.insert(good.storage_id, sealed);
    engine.notes.clear();
    let report = engine.run(&peer).unwrap();
    assert_eq!(report.objects, 1, "fallback fulfills");
    assert_eq!(report.invalid, 0, "aggregate is fulfilled, not invalid");
    assert_eq!(
        engine.notes,
        vec![
            Note::Invalid(FetchKey::Storage(bad)),
            Note::Fulfilled(FetchKey::Storage(good.storage_id))
        ]
    );
    engine.evict(good.content_id);
    peer.sealed.remove(&good.storage_id);
    let report = engine.run(&peer).unwrap();
    assert_eq!(report.invalid, 1, "third strike cools the corrupt rep");
    let report = engine.run(&peer).unwrap();
    assert_eq!(report.invalid, 0, "corrupt rep cooled despite the fallback");
    assert_eq!(
        report.missing, 2,
        "the absent healthy rep and the announced-but-unpublished body"
    );
}

#[test]
fn invalid_roots_back_off() {
    let mut engine = Engine::new();
    let mut peer = Peer::default();
    let body = body_with_parents(0);
    let rogue = Manifest::new(SnapshotId::from_bytes([0x22; 32]), Vec::new(), Vec::new());
    let bytes = canonical_bytes(&rogue);
    let rogue_id = derive(ObjectKind::Manifest, &bytes);
    let sealed = seal(
        &kinds(),
        &manifest_key(&SECRET, 2, &body.id),
        ObjectKind::Manifest,
        &rogue_id,
        Some([1; 24]),
        &bytes,
        &derive,
    )
    .unwrap()
    .encode(&kinds());
    peer.roots.insert(body.id, (rogue_id, sealed));
    announce(
        &mut engine,
        &body,
        ContentId::from_bytes([0x55; 32]),
        BaoRoot::from_bytes([0x66; 32]),
    );
    for _ in 0..FETCH_MAX_STRIKES {
        let report = engine.run(&peer).unwrap();
        assert_eq!(report.invalid, 1, "attempted while striking");
    }
    for _ in 0..FETCH_COOLDOWN_PASSES {
        let report = engine.run(&peer).unwrap();
        assert_eq!(report.invalid, 0, "backing off");
        assert_eq!(
            report.unfulfilled, 2,
            "the cooled root and the absent body stay pending"
        );
    }
    let report = engine.run(&peer).unwrap();
    assert_eq!(report.invalid, 1, "retried after the cooldown");
}

#[test]
fn dead_routes_strike_like_refused_bytes() {
    let mut backoff = Backoff::new(2, 1);
    let key = FetchKey::Storage(StorageId::from_bytes([7; 32]));
    let other = FetchKey::Root(SnapshotId::from_bytes([7; 32]));
    backoff.begin_run();
    backoff.note(Note::TransportFailure(key));
    backoff.note(Note::TransportFailure(key));
    assert!(backoff.eligible(&key), "one strike per run");
    backoff.begin_run();
    backoff.note(Note::Invalid(key));
    assert!(!backoff.eligible(&key), "cooling from the last strike on");
    assert!(backoff.eligible(&other));
    backoff.begin_run();
    assert!(!backoff.eligible(&key));
    backoff.begin_run();
    assert!(backoff.eligible(&key));
    assert_eq!(backoff.run(), 4);
    backoff.note(Note::Fulfilled(key));
    backoff.note(Note::Invalid(key));
    assert!(backoff.eligible(&key));
}

#[test]
fn a_spent_budget_stops_the_run() {
    let (mut engine, peer, _) = published(b"budget");
    // Already spent: nothing is attempted.
    let report = engine.run_sliced(&peer, &mut || true).unwrap();
    assert_eq!(report.unfulfilled, 2);
    assert_eq!(report.snapshot_bodies, 0);
    assert!(engine.facts.is_empty());
    // Spent after the first item of the first pass: what landed is not
    // committed, and counts as fulfilled.
    let mut turns = 0;
    let report = engine
        .run_sliced(&peer, &mut || {
            turns += 1;
            turns > 1
        })
        .unwrap();
    assert_eq!(report.snapshot_bodies, 1);
    assert_eq!(report.unfulfilled, 1);
    assert!(engine.facts.is_empty());
    // Spent right after the first commit.
    let mut turns = 0;
    let report = engine
        .run_sliced(&peer, &mut || {
            turns += 1;
            turns > 3
        })
        .unwrap();
    assert_eq!((report.snapshot_bodies, report.manifests), (1, 1));
    assert_eq!(engine.commits, 1);
    assert_eq!(report.unfulfilled, 0);
    // The rest is picked up by the next run.
    let report = engine.run(&peer).unwrap();
    assert_eq!((report.manifests, report.objects), (1, 1));
    assert_eq!(report.unfulfilled, 0);
}

#[test]
fn an_attempt_blames_exactly_what_failed() {
    let candidates: Vec<PendingObjectFetch> = (1..=5u8)
        .map(|i| PendingObjectFetch {
            content_id: ContentId::from_bytes([9; 32]),
            storage_id: StorageId::from_bytes([i; 32]),
            transport: BaoRoot::from_bytes([i; 32]),
            kind: ObjectKind::Chunk,
            version: 0,
            encryption_epoch: 1,
            size: 1,
        })
        .collect();
    let results = [
        CandidateResult::Absent,
        CandidateResult::Rejected,
        CandidateResult::Unreachable,
        CandidateResult::Landed,
        CandidateResult::Fatal(StoreFailure::StorageFull),
    ];
    let attempt = object(&candidates, |candidate: &PendingObjectFetch| {
        results[usize::from(candidate.storage_id.as_bytes()[0] - 1)]
    });
    assert_eq!(attempt.aggregate, FetchOutcome::Fulfilled(()));
    assert_eq!(attempt.invalid, vec![StorageId::from_bytes([2; 32])]);
    assert_eq!(attempt.transport_failed, vec![StorageId::from_bytes([3; 32])]);
    assert_eq!(attempt.fulfilled, Some(StorageId::from_bytes([4; 32])));
}

#[test]
fn announced_chunk_over_the_payload_ceiling_never_resides() {
    let (mut engine, peer, published) = published(&vec![0x5A; MAX_CHUNK + 1]);
    let report = engine.run(&peer).unwrap();
    assert_eq!(
        report.objects, 0,
        "an over-ceiling chunk never becomes a local object"
    );
    assert!(report.invalid > 0, "refused as invalid remote data");
    assert!(report.unfulfilled > 0, "the refused object stays pending");
    assert!(!engine.objects.borrow().contains_key(&published.content));
    assert_eq!(engine.count(|f| matches!(f, Fact::LocalObject(_))), 0);
    assert!(
        !engine.vault.borrow().contains_key(&published.object_transport),
        "the rejected representation never became vault-resident"
    );
}

#[test]
fn announced_chunk_at_the_payload_ceiling_converges() {
    let plaintext = vec![0x5B; MAX_CHUNK];
    let (mut engine, peer, published) = published(&plaintext);
    let report = engine.run(&peer).unwrap();
    assert_eq!(report.objects, 1);
    assert_eq!(
        engine.objects.borrow().get(&published.content),
        Some(&plaintext),
        "the full payload is served"
    );
    assert!(
        engine.vault.borrow().contains_key(&published.object_transport),
        "the accepted representation is vault-resident"
    );
}

#[test]
fn plan_imports_only_through_insert_verified() {
    let (mut engine, peer, published) = published(b"pinned import");
    engine.pinned.clear();
    engine.cached.push(published.content);
    let report = engine.run(&peer).unwrap();
    assert_eq!(report.objects, 1);
    assert_eq!(report.unfulfilled, 0);
    assert!(engine.objects.borrow().contains_key(&published.content));
}

#[test]
fn a_stalled_provider_cannot_outlast_the_runs_deadline() {
    let mut engine = Engine::new();
    let mut peer = Peer::default();
    let body = body_with_parents(0);
    let mut entries = Vec::new();
    for index in 0..3u8 {
        let plaintext = [index, b'-', b'p', b'a', b'y', b'l', b'o', b'a', b'd'];
        let (entry, _) = seal_chunk(&SECRET, 2, &plaintext, index + 1);
        engine.pinned.push(entry.content_id);
        peer.failing.insert(entry.storage_id);
        entries.push(entry);
    }
    let (id, sealed) = sealed_manifest(
        &SECRET,
        2,
        &Manifest::new(body.id, entries, Vec::new()),
        0x51,
    );
    let transport = peer.publish_transport(sealed);
    peer.publish_body(&body);
    announce(&mut engine, &body, id, transport);
    let seeded = engine.run(&peer).unwrap();
    assert_eq!(seeded.manifests, 1, "the root is recorded");
    assert_eq!(seeded.unfulfilled, 3, "the objects stay pending");

    // The budget covers two attempts.
    let mut turns = 0;
    let report = engine
        .run_sliced(&peer, &mut || {
            turns += 1;
            turns > 2
        })
        .unwrap();
    assert_eq!(report.transport_errors, 2, "only the budgeted attempts ran");
    assert_eq!(report.unfulfilled, 3, "every item stays pending");
    assert_eq!(report.objects, 0);

    // A run whose budget is gone attempts nothing.
    let attempts = peer.attempts.borrow().values().sum::<usize>();
    let report = engine.run_sliced(&peer, &mut || true).unwrap();
    assert_eq!(report.transport_errors, 0);
    assert_eq!(report.unfulfilled, 3);
    assert_eq!(peer.attempts.borrow().values().sum::<usize>(), attempts);
}

#[test]
fn a_manifest_that_the_state_refuses_fails_the_pass() {
    let mut engine = Engine::new();
    let mut peer = Peer::default();
    let body = body_with_parents(0);
    let (id, sealed) = sealed_manifest(
        &SECRET,
        2,
        &Manifest::new(body.id, Vec::new(), Vec::new()),
        0x51,
    );
    let transport = peer.publish_transport(sealed);
    announce(&mut engine, &body, id, transport);
    let runtime = engine.rebuild();
    let plan = runtime.reconcile();
    let mut pass = PlanPass::begin(runtime, plan, ExecuteReport::new());
    pass.skip();
    assert_eq!(pass.turn(false), Turn::Item(PlanItem::Root(body.id)));
    let format = ObjectFormat {
        kinds: kinds(),
        derive,
        parse_manifest,
        within_limits: |_: &Manifest| true,
        address,
        transport_root,
    };
    let outcome = format.root(
        pass.runtime(),
        &body.id,
        MAX_BYTES,
        |epoch: u64, snapshot: SnapshotId| Some(manifest_key(&SECRET, epoch, &snapshot)),
        |root, max| peer.fetch_transport(root, max),
        |id, max| peer.fetch_root(id, max),
        |_: &Vec<u8>| Ok(()),
    );
    assert!(matches!(outcome, FetchOutcome::Fulfilled(_)));
    let derived = ContentId::from_bytes([0x13; 32]);
    let settlement = pass.settle_manifest(outcome, |_: &Manifest| derived);
    assert_eq!(
        settlement.failure,
        Some(EngineError::Runtime(
            RuntimeError::ManifestIdentityMismatch {
                manifest: id,
                derived
            }
        ))
    );
    assert!(settlement.notes.is_empty());
}

fn planned(storages: &[u8]) -> Vec<PendingObjectFetch> {
    storages
        .iter()
        .map(|storage| PendingObjectFetch {
            content_id: ContentId::from_bytes([9; 32]),
            storage_id: StorageId::from_bytes([*storage; 32]),
            transport: BaoRoot::from_bytes([*storage; 32]),
            kind: ObjectKind::Chunk,
            version: 0,
            encryption_epoch: 1,
            size: 1,
        })
        .collect()
}

#[test]
fn nothing_is_tried_after_a_landing_or_a_full_disk() {
    for last in [
        CandidateResult::Landed,
        CandidateResult::Fatal(StoreFailure::StorageFull),
    ] {
        let tried = RefCell::new(Vec::new());
        object(&planned(&[1, 2, 3]), |candidate: &PendingObjectFetch| {
            let storage = candidate.storage_id.as_bytes()[0];
            tried.borrow_mut().push(storage);
            if storage == 2 {
                last
            } else {
                CandidateResult::Absent
            }
        });
        assert_eq!(tried.into_inner(), vec![1, 2]);
    }
}

#[test]
fn the_storage_route_is_not_asked_after_bytes_or_oversize() {
    for first in [
        Ok(Some(vec![1])),
        Err(BulkError::Oversize { bytes: 65, max: 64 }),
    ] {
        let asked = RefCell::new(0);
        let expected = match &first {
            Ok(bytes) => Ok(bytes.clone()),
            Err(_) => Err(BulkError::Oversize { bytes: 65, max: 64 }),
        };
        let reply = fetch_representation(
            &BaoRoot::from_bytes([0xEE; 32]),
            &StorageId::from_bytes([0x7C; 32]),
            64,
            |_, _| first,
            |_, _| {
                *asked.borrow_mut() += 1;
                Ok(None)
            },
        );
        assert_eq!(reply, expected);
        assert_eq!(asked.into_inner(), 0);
    }
}

#[test]
fn refused_bytes_are_offered_to_neither_store() {
    let format = ObjectFormat {
        kinds: kinds(),
        derive,
        parse_manifest,
        within_limits: |_: &Manifest| true,
        address,
        transport_root,
    };
    let (entry, sealed) = seal_chunk(&SECRET, 2, b"a chunk", 0x31);
    let candidate = PendingObjectFetch {
        content_id: entry.content_id,
        storage_id: entry.storage_id,
        transport: entry.transport,
        kind: entry.kind,
        version: entry.version,
        encryption_epoch: entry.encryption_epoch,
        size: entry.size,
    };
    let attempt = |served: Vec<u8>, max_chunk: usize, resident: bool| {
        let offered = RefCell::new(Vec::new());
        let result = format.try_candidate(
            &entry.content_id,
            &candidate,
            MAX_BYTES,
            max_chunk,
            |epoch: u64, content: ContentId, kind: ObjectKind, _: u8| {
                Some(object_key(&SECRET, epoch, &content, kind))
            },
            |_, _| Ok(Some(served)),
            |_, _| unreachable!(),
            |_: &Vec<u8>| {
                offered.borrow_mut().push("vault");
                if resident {
                    Ok(())
                } else {
                    Err(VaultError::Root)
                }
            },
            |_: ObjectKind, _: ContentId, _: &Vec<u8>| {
                offered.borrow_mut().push("objects");
                Ok(())
            },
        );
        (result, offered.into_inner())
    };
    assert_eq!(
        attempt(sealed.clone(), MAX_CHUNK, true),
        (CandidateResult::Landed, vec!["vault", "objects"])
    );
    assert_eq!(
        attempt(sealed.clone(), MAX_CHUNK, false),
        (CandidateResult::Declined, vec!["vault"])
    );
    assert_eq!(
        attempt(sealed.clone(), 6, true),
        (CandidateResult::Rejected, Vec::new())
    );
    let mut tampered = sealed;
    *tampered.last_mut().unwrap() ^= 1;
    assert_eq!(
        attempt(tampered, MAX_CHUNK, true),
        (CandidateResult::Rejected, Vec::new())
    );
}

#[test]
fn a_converged_run_reports_what_it_committed() {
    let (mut engine, mut peer, published) = published(b"counted");
    peer.sealed.remove(&published.object);
    peer.transport.remove(&published.object_transport);
    let report = engine.run(&peer).unwrap();
    assert_eq!(
        report.snapshot_bodies,
        engine.count(|f| matches!(f, Fact::SnapshotBody(_)))
    );
    assert_eq!(
        report.manifests,
        engine.count(|f| matches!(f, Fact::Manifest(_)))
    );
    assert_eq!(report.manifests, 2);
    assert_eq!(
        report.objects,
        engine.count(|f| matches!(f, Fact::LocalObject(_)))
    );
    assert_eq!(report.objects, 0);
    let plan = engine.rebuild().reconcile();
    assert_eq!(Some(report.unfulfilled), item_count(&plan));
}
