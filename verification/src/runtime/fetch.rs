//! Fetching and admitting manifests, snapshot bodies and objects.
//!
//! Every fetch is handed the routes it may use as functions: a transport
//! route that serves by transport root, and an older route that serves by
//! snapshot or storage address. What a route answers is untrusted. Bytes
//! are admitted only after they opened under the right key as the right
//! content, and a record only after its ciphertext is resident locally.

use vstd::prelude::*;

use crate::ids::{BaoRoot, ContentId, SnapshotId, StorageId};
use crate::model::{
    ChildManifest, FetchStatus, Manifest, ManifestEntry, ManifestRecord, ObjectKind, Snapshot,
    SnapshotAnnouncement, StoreFailure,
};
use crate::order::Key;
use crate::runtime::state::{PendingObjectFetch, RuntimeState, RuntimeView};
use crate::seal::{
    addresses, derives, hashes, open_manifest, opens_manifest, parse, rooted, seen, verifies,
    verify, EncryptedObject, KindBytes, SealError,
};
use crate::sorted::SortedMap;

verus! {

/// Why a route served nothing.
#[derive(Debug, PartialEq, Eq)]
pub enum BulkError {
    /// The route is dead or failed underway.
    Transport(String),
    /// The bytes exceed the ceiling that was asked for.
    Oversize { bytes: usize, max: usize },
}

/// Why the vault did not take bytes.
#[derive(Debug, Clone, Copy, PartialEq, Eq, Structural)]
pub enum VaultError {
    /// The disk refused, and how it classifies the refusal.
    Io(StoreFailure),
    /// The vault is not this drive's directory.
    Root,
}

/// A root manifest as the eager exchange serves it.
#[derive(Debug, PartialEq, Eq)]
pub struct SealedManifest {
    pub content_id: ContentId,
    pub sealed: Vec<u8>,
}

/// The result of one fetch. Everything but `Fulfilled` leaves the item
/// pending.
#[derive(Debug, PartialEq, Eq)]
pub enum FetchOutcome<T> {
    Fulfilled(T),
    /// No route holds it.
    Missing,
    /// Bytes came and were refused.
    Invalid,
    /// No epoch secret is held to open the seal.
    UnavailableKey,
    /// The route failed.
    Transport,
    /// The bytes verified and the local store refused them.
    Local,
    /// The local disk can take nothing more: the whole pass ends.
    Store(StoreFailure),
}

/// A refusal that no later item of the pass can escape.
pub open spec fn fatal(failure: StoreFailure) -> Option<StoreFailure> {
    match failure {
        StoreFailure::Transient => None,
        other => Some(other),
    }
}

/// Whether a vault refusal ends the pass.
pub fn fatal_vault(error: &VaultError) -> (r: Option<StoreFailure>)
    ensures
        r == match *error {
            VaultError::Io(failure) => fatal(failure),
            VaultError::Root => None,
        },
{
    match error {
        VaultError::Io(failure) => fatal_store(*failure),
        VaultError::Root => None,
    }
}

/// Whether an object-store refusal ends the pass.
pub fn fatal_store(failure: StoreFailure) -> (r: Option<StoreFailure>)
    ensures
        r == fatal(failure),
{
    match failure {
        StoreFailure::Transient => None,
        StoreFailure::StorageFull => Some(StoreFailure::StorageFull),
        StoreFailure::Unwritable => Some(StoreFailure::Unwritable),
    }
}

/// How actionable an outcome is.
pub open spec fn rank<T>(outcome: FetchOutcome<T>) -> int {
    match outcome {
        FetchOutcome::Fulfilled(_) => 255,
        FetchOutcome::Missing => 0,
        FetchOutcome::UnavailableKey => 1,
        FetchOutcome::Invalid => 2,
        FetchOutcome::Local => 3,
        FetchOutcome::Transport => 4,
        FetchOutcome::Store(_) => 5,
    }
}

/// The more actionable of two outcomes; the first when they rank equal.
pub open spec fn worst<T>(first: FetchOutcome<T>, second: FetchOutcome<T>) -> FetchOutcome<T> {
    if rank(second) > rank(first) {
        second
    } else {
        first
    }
}

fn rank_of(outcome: &FetchOutcome<()>) -> (r: u8)
    ensures
        r == rank(*outcome),
{
    match outcome {
        FetchOutcome::Fulfilled(()) => 255,
        FetchOutcome::Missing => 0,
        FetchOutcome::UnavailableKey => 1,
        FetchOutcome::Invalid => 2,
        FetchOutcome::Local => 3,
        FetchOutcome::Transport => 4,
        FetchOutcome::Store(_) => 5,
    }
}

/// The more actionable of two outcomes, by the order: a full disk, a dead
/// route, a local refusal, invalid bytes, a missing key, plain absence.
pub fn worse(first: FetchOutcome<()>, second: FetchOutcome<()>) -> (r: FetchOutcome<()>)
    ensures
        r == worst(first, second),
{
    if rank_of(&second) > rank_of(&first) {
        second
    } else {
        first
    }
}

impl<T> FetchOutcome<T> {
    /// What a finished attempt means for readers of the object.
    pub open spec fn settles(self) -> FetchStatus {
        match self {
            FetchOutcome::Fulfilled(_) => FetchStatus::Available,
            FetchOutcome::Invalid => FetchStatus::Corrupt,
            FetchOutcome::Local => FetchStatus::Corrupt,
            _ => FetchStatus::Unavailable,
        }
    }

    /// Settles a finished attempt: absence, a missing key, a dead route and
    /// a full disk may pass and can be retried; refused bytes need repair.
    pub fn settled(&self) -> (r: FetchStatus)
        ensures
            r == self.settles(),
    {
        match self {
            FetchOutcome::Fulfilled(_) => FetchStatus::Available,
            FetchOutcome::Missing => FetchStatus::Unavailable,
            FetchOutcome::UnavailableKey => FetchStatus::Unavailable,
            FetchOutcome::Transport => FetchStatus::Unavailable,
            FetchOutcome::Store(_) => FetchStatus::Unavailable,
            FetchOutcome::Invalid => FetchStatus::Corrupt,
            FetchOutcome::Local => FetchStatus::Corrupt,
        }
    }
}

/// What a route that serves bytes by address can answer.
pub type Reply = Result<Option<Vec<u8>>, BulkError>;

/// Whether an answer of the transport route leads on to the other route:
/// absence and a dead route do, an oversize representation does not.
pub open spec fn falls_back(reply: Reply) -> bool {
    match reply {
        Ok(Some(_)) => false,
        Ok(None) => true,
        Err(BulkError::Transport(_)) => true,
        Err(BulkError::Oversize { .. }) => false,
    }
}

/// Whether the transport route can answer a request so that the other route
/// is asked: it is asked on no other answer.
pub open spec fn may_fall_back<T: FnOnce(BaoRoot, usize) -> Reply>(
    root: BaoRoot,
    max: usize,
    fetch_transport: T,
) -> bool {
    exists|first: Reply| #[trigger]
        call_ensures(fetch_transport, (root, max), first) && falls_back(first)
}

/// What fetching one representation over its two routes gives.
pub open spec fn represents<
    T: FnOnce(BaoRoot, usize) -> Reply,
    S: FnOnce(StorageId, usize) -> Reply,
>(
    transport: BaoRoot,
    storage: StorageId,
    max: usize,
    fetch_transport: T,
    fetch_sealed: S,
    r: Reply,
) -> bool {
    exists|first: Reply|
        {
            &&& #[trigger] call_ensures(fetch_transport, (transport, max), first)
            &&& if falls_back(first) {
                call_ensures(fetch_sealed, (storage, max), r)
            } else {
                r == first
            }
        }
}

/// Fetches one representation: by its transport root first, and by its
/// storage address when that route holds nothing or is dead.
pub fn fetch_representation<
    T: FnOnce(BaoRoot, usize) -> Reply,
    S: FnOnce(StorageId, usize) -> Reply,
>(
    transport: &BaoRoot,
    storage: &StorageId,
    max: usize,
    fetch_transport: T,
    fetch_sealed: S,
) -> (r: Reply)
    requires
        call_requires(fetch_transport, (*transport, max)),
        may_fall_back(*transport, max, fetch_transport) ==> call_requires(
            fetch_sealed,
            (*storage, max),
        ),
    ensures
        represents(*transport, *storage, max, fetch_transport, fetch_sealed, r),
{
    let first: Reply = fetch_transport(*transport, max);
    proof {
        assert(falls_back(first) ==> may_fall_back(*transport, max, fetch_transport));
    }
    match first {
        Ok(Some(bytes)) => Ok(Some(bytes)),
        Ok(None) => fetch_sealed(*storage, max),
        Err(BulkError::Transport(_)) => fetch_sealed(*storage, max),
        Err(BulkError::Oversize { bytes, max }) => Err(BulkError::Oversize { bytes, max }),
    }
}

/// The object format, as far as fetching needs it: the kind bytes, the
/// derivation of content ids, the manifest parser and its structural
/// ceilings, and the two addresses of sealed bytes.
pub struct ObjectFormat<D, P, C, A, R> {
    pub kinds: KindBytes,
    pub derive: D,
    pub parse_manifest: P,
    pub within_limits: C,
    pub address: A,
    pub transport_root: R,
}

impl<
    D: Fn(ObjectKind, &Vec<u8>) -> ContentId,
    P: Fn(&Vec<u8>) -> Option<Manifest>,
    C: Fn(&Manifest) -> bool,
    A: Fn(&Vec<u8>) -> StorageId,
    R: Fn(&Vec<u8>) -> BaoRoot,
> ObjectFormat<D, P, C, A, R> {
    /// The format answers for every input.
    pub open spec fn total(&self) -> bool {
        &&& self.kinds.wf()
        &&& derives(self.derive)
        &&& forall|bytes: Vec<u8>| #[trigger] call_requires(self.parse_manifest, (&bytes,))
        &&& forall|manifest: Manifest| #[trigger] call_requires(self.within_limits, (&manifest,))
        &&& forall|bytes: Vec<u8>| #[trigger] call_requires(self.address, (&bytes,))
        &&& forall|bytes: Vec<u8>| #[trigger] call_requires(self.transport_root, (&bytes,))
    }

    /// The record that a sealed envelope makes when it is opened as a
    /// manifest of a snapshot.
    pub open spec fn is_record(
        &self,
        bytes: Seq<u8>,
        manifest: Manifest,
        expected: ContentId,
        is_root: bool,
        record: ManifestRecord,
    ) -> bool {
        &&& record.is_root == is_root
        &&& record.manifest_id == expected
        &&& record.manifest == manifest
        &&& record.wf()
        &&& rooted(self.transport_root, bytes, record.transport)
        &&& exists|storage: StorageId| #[trigger]
            addresses(self.address, bytes, storage) && record.representations@ == Map::<
                StorageId,
                BaoRoot,
            >::empty().insert(storage, record.transport)
    }

    /// What opening sealed bytes as a manifest of a snapshot gives.
    pub open spec fn opens_record(
        &self,
        sealed: Seq<u8>,
        key: Seq<u8>,
        expected: ContentId,
        snapshot: SnapshotId,
        is_root: bool,
        r: Option<ManifestRecord>,
    ) -> bool {
        match parse(&self.kinds, sealed) {
            None => r is None,
            Some(obj) => exists|opened: Result<Manifest, SealError>|
                {
                    &&& #[trigger] opens_manifest(
                        &self.kinds,
                        key,
                        expected,
                        obj,
                        self.derive,
                        self.parse_manifest,
                        opened,
                    )
                    &&& match opened {
                        Err(_) => r is None,
                        Ok(manifest) => exists|fits: bool|
                            {
                                &&& #[trigger] call_ensures(
                                    self.within_limits,
                                    (&manifest,),
                                    fits,
                                )
                                &&& match r {
                                    None => !fits || manifest.snapshot != snapshot,
                                    Some(record) => fits && manifest.snapshot == snapshot
                                        && self.is_record(
                                        obj.bytes(&self.kinds),
                                        manifest,
                                        expected,
                                        is_root,
                                        record,
                                    ),
                                }
                            },
                    }
                },
        }
    }

    /// Opens sealed bytes as a manifest of a snapshot: the envelope must
    /// open under the key as the expected content, parse, keep within the
    /// structural ceilings and name the snapshot.
    pub fn open_record(
        &self,
        sealed: &Vec<u8>,
        key: &[u8; 32],
        expected: &ContentId,
        snapshot: &SnapshotId,
        is_root: bool,
    ) -> (r: Option<ManifestRecord>)
        requires
            self.total(),
        ensures
            self.opens_record(sealed@, key@, *expected, *snapshot, is_root, r),
    {
        let obj: EncryptedObject = match EncryptedObject::decode(sealed.as_slice(), &self.kinds) {
            Ok(obj) => obj,
            Err(_) => {
                return None;
            },
        };
        let opened = open_manifest(
            &self.kinds,
            key,
            expected,
            &obj,
            &self.derive,
            &self.parse_manifest,
        );
        let ghost reading = opened;
        let manifest: Manifest = match opened {
            Ok(manifest) => manifest,
            Err(_) => {
                return None;
            },
        };
        let fits: bool = (self.within_limits)(&manifest);
        proof {
            assert(reading == Ok::<Manifest, SealError>(manifest));
            assert(call_ensures(self.within_limits, (&manifest,), fits));
        }
        if !fits || !manifest.snapshot.same(snapshot) {
            return None;
        }
        let encoded: Vec<u8> = obj.encode(&self.kinds);
        let transport: BaoRoot = (self.transport_root)(&encoded);
        let storage: StorageId = (self.address)(&encoded);
        let mut representations: SortedMap<StorageId, BaoRoot> = SortedMap::new();
        representations.insert(storage, transport);
        let record = ManifestRecord {
            is_root,
            manifest_id: *expected,
            representations,
            transport,
            manifest,
        };
        proof {
            assert(addresses(self.address, encoded@, storage));
            assert(rooted(self.transport_root, encoded@, transport));
            assert(self.is_record(
                obj@.bytes(&self.kinds),
                manifest,
                *expected,
                is_root,
                record,
            ));
        }
        Some(record)
    }

    /// Whether sealed bytes open as a manifest of a snapshot.
    pub open spec fn opens_as(
        &self,
        sealed: Seq<u8>,
        key: Seq<u8>,
        expected: ContentId,
        snapshot: SnapshotId,
        is_root: bool,
    ) -> bool {
        exists|record: ManifestRecord| #[trigger]
            self.opens_record(sealed, key, expected, snapshot, is_root, Some(record))
    }

    /// What admitting sealed bytes as a manifest gives: the record, once the
    /// vault holds the bytes.
    pub open spec fn admits<I: FnOnce(&Vec<u8>) -> Result<(), VaultError>>(
        &self,
        sealed: Vec<u8>,
        key: Seq<u8>,
        expected: ContentId,
        snapshot: SnapshotId,
        is_root: bool,
        import: I,
        r: FetchOutcome<ManifestRecord>,
    ) -> bool {
        exists|opened: Option<ManifestRecord>|
            {
                &&& #[trigger] self.opens_record(sealed@, key, expected, snapshot, is_root, opened)
                &&& match opened {
                    None => r == FetchOutcome::<ManifestRecord>::Invalid,
                    Some(record) => exists|imported: Result<(), VaultError>|
                        {
                            &&& #[trigger] call_ensures(import, (&sealed,), imported)
                            &&& r == after_import(record, imported)
                        },
                }
            }
    }

    /// Admits sealed bytes as a manifest: they must open as the expected
    /// record before the vault is offered them, and the vault must hold them
    /// before the record counts.
    fn take_in<I: FnOnce(&Vec<u8>) -> Result<(), VaultError>>(
        &self,
        sealed: Vec<u8>,
        key: &[u8; 32],
        expected: &ContentId,
        snapshot: &SnapshotId,
        is_root: bool,
        import: I,
    ) -> (r: FetchOutcome<ManifestRecord>)
        requires
            self.total(),
            self.opens_as(sealed@, key@, *expected, *snapshot, is_root) ==> call_requires(
                import,
                (&sealed,),
            ),
        ensures
            self.admits(sealed, key@, *expected, *snapshot, is_root, import, r),
    {
        let opened = self.open_record(&sealed, key, expected, snapshot, is_root);
        let ghost reading = opened;
        match opened {
            None => FetchOutcome::Invalid,
            Some(record) => {
                proof {
                    assert(reading == Some(record));
                    assert(self.opens_as(sealed@, key@, *expected, *snapshot, is_root));
                }
                let imported: Result<(), VaultError> = import(&sealed);
                proof {
                    assert(call_ensures(import, (&sealed,), imported));
                }
                match imported {
                    Ok(()) => FetchOutcome::Fulfilled(record),
                    Err(error) => match fatal_vault(&error) {
                        Some(failure) => FetchOutcome::Store(failure),
                        None => FetchOutcome::Local,
                    },
                }
            },
        }
    }
}

/// What an import makes of an item that is otherwise ready.
pub open spec fn after_import<T>(item: T, imported: Result<(), VaultError>) -> FetchOutcome<T> {
    match imported {
        Ok(()) => FetchOutcome::Fulfilled(item),
        Err(VaultError::Root) => FetchOutcome::Local,
        Err(VaultError::Io(failure)) => match fatal(failure) {
            Some(failure) => FetchOutcome::Store(failure),
            None => FetchOutcome::Local,
        },
    }
}

/// What the routes to one item come to.
pub enum Served {
    /// Bytes to be admitted.
    Sealed(Vec<u8>),
    /// No route holds the item.
    Absent,
    /// The bytes are too large, or not the ones the author named.
    Refused,
    /// The last route failed.
    Unreachable,
}

/// What a reply of the last route comes to.
pub open spec fn served_by(reply: Reply) -> Served {
    match reply {
        Ok(Some(bytes)) => Served::Sealed(bytes),
        Ok(None) => Served::Absent,
        Err(BulkError::Oversize { .. }) => Served::Refused,
        Err(BulkError::Transport(_)) => Served::Unreachable,
    }
}

/// What the eager exchange can answer.
pub type EagerReply = Result<Option<SealedManifest>, BulkError>;

/// What a reply of the eager exchange comes to: a manifest under another
/// identity than the announced one is a fork of the author's statement.
pub open spec fn served_eagerly(announced: ContentId, reply: EagerReply) -> Served {
    match reply {
        Ok(Some(manifest)) => if manifest.content_id == announced {
            Served::Sealed(manifest.sealed)
        } else {
            Served::Refused
        },
        Ok(None) => Served::Absent,
        Err(BulkError::Oversize { .. }) => Served::Refused,
        Err(BulkError::Transport(_)) => Served::Unreachable,
    }
}

/// What the two routes to an announced root manifest come to.
pub open spec fn serves_root<
    T: FnOnce(BaoRoot, usize) -> Reply,
    E: FnOnce(SnapshotId, usize) -> EagerReply,
>(
    announcement: SnapshotAnnouncement,
    snapshot: SnapshotId,
    max: usize,
    fetch_transport: T,
    fetch_root_manifest: E,
    r: Served,
) -> bool {
    exists|first: Reply|
        {
            &&& #[trigger] call_ensures(
                fetch_transport,
                (announcement.root_manifest_transport, max),
                first,
            )
            &&& if falls_back(first) {
                exists|second: EagerReply| #[trigger]
                    call_ensures(fetch_root_manifest, (snapshot, max), second) && r
                        == served_eagerly(announcement.root_manifest, second)
            } else {
                r == served_by(first)
            }
        }
}

/// Fetches an announced root manifest: by the transport root that the
/// author signed, or through the eager exchange under the same identity.
fn serve_root<
    T: FnOnce(BaoRoot, usize) -> Reply,
    E: FnOnce(SnapshotId, usize) -> EagerReply,
>(
    announcement: &SnapshotAnnouncement,
    snapshot: &SnapshotId,
    max: usize,
    fetch_transport: T,
    fetch_root_manifest: E,
) -> (r: Served)
    requires
        call_requires(fetch_transport, (announcement.root_manifest_transport, max)),
        may_fall_back(announcement.root_manifest_transport, max, fetch_transport) ==> call_requires(
            fetch_root_manifest,
            (*snapshot, max),
        ),
    ensures
        serves_root(*announcement, *snapshot, max, fetch_transport, fetch_root_manifest, r),
{
    let first: Reply = fetch_transport(announcement.root_manifest_transport, max);
    let ghost answer = first;
    match first {
        Ok(Some(bytes)) => {
            return Served::Sealed(bytes);
        },
        Ok(None) => {},
        Err(BulkError::Transport(_)) => {},
        Err(BulkError::Oversize { .. }) => {
            return Served::Refused;
        },
    }
    proof {
        assert(falls_back(answer));
        assert(may_fall_back(announcement.root_manifest_transport, max, fetch_transport));
    }
    let second: EagerReply = fetch_root_manifest(*snapshot, max);
    let ghost eager = second;
    let r = match second {
        Ok(Some(manifest)) => if manifest.content_id.same(&announcement.root_manifest) {
            Served::Sealed(manifest.sealed)
        } else {
            Served::Refused
        },
        Ok(None) => Served::Absent,
        Err(BulkError::Oversize { .. }) => Served::Refused,
        Err(BulkError::Transport(_)) => Served::Unreachable,
    };
    proof {
        assert(call_ensures(fetch_root_manifest, (*snapshot, max), eager));
        assert(r == served_eagerly(announcement.root_manifest, eager));
    }
    r
}

impl<
    D: Fn(ObjectKind, &Vec<u8>) -> ContentId,
    P: Fn(&Vec<u8>) -> Option<Manifest>,
    C: Fn(&Manifest) -> bool,
    A: Fn(&Vec<u8>) -> StorageId,
    R: Fn(&Vec<u8>) -> BaoRoot,
> ObjectFormat<D, P, C, A, R> {
    /// What the bytes that the routes came up with make of a manifest item.
    pub open spec fn settles_manifest<I: FnOnce(&Vec<u8>) -> Result<(), VaultError>>(
        &self,
        served: Served,
        key: Seq<u8>,
        expected: ContentId,
        snapshot: SnapshotId,
        is_root: bool,
        import: I,
        r: FetchOutcome<ManifestRecord>,
    ) -> bool {
        match served {
            Served::Sealed(sealed) => self.admits(
                sealed,
                key,
                expected,
                snapshot,
                is_root,
                import,
                r,
            ),
            Served::Absent => r == FetchOutcome::<ManifestRecord>::Missing,
            Served::Refused => r == FetchOutcome::<ManifestRecord>::Invalid,
            Served::Unreachable => r == FetchOutcome::<ManifestRecord>::Transport,
        }
    }

    /// Whether the vault may be offered what the routes came up with: bytes
    /// that open as the expected manifest, and nothing else.
    pub open spec fn importable<I: FnOnce(&Vec<u8>) -> Result<(), VaultError>>(
        &self,
        served: Served,
        key: Seq<u8>,
        expected: ContentId,
        snapshot: SnapshotId,
        is_root: bool,
        import: I,
    ) -> bool {
        served matches Served::Sealed(sealed) ==> self.opens_as(
            sealed@,
            key,
            expected,
            snapshot,
            is_root,
        ) ==> call_requires(import, (&sealed,))
    }

    fn settle_manifest<I: FnOnce(&Vec<u8>) -> Result<(), VaultError>>(
        &self,
        served: Served,
        key: &[u8; 32],
        expected: &ContentId,
        snapshot: &SnapshotId,
        is_root: bool,
        import: I,
    ) -> (r: FetchOutcome<ManifestRecord>)
        requires
            self.total(),
            self.importable(served, key@, *expected, *snapshot, is_root, import),
        ensures
            self.settles_manifest(served, key@, *expected, *snapshot, is_root, import, r),
    {
        match served {
            Served::Sealed(sealed) => self.take_in(
                sealed,
                key,
                expected,
                snapshot,
                is_root,
                import,
            ),
            Served::Absent => FetchOutcome::Missing,
            Served::Refused => FetchOutcome::Invalid,
            Served::Unreachable => FetchOutcome::Transport,
        }
    }

    /// Fetches and admits a snapshot's root manifest.
    ///
    /// The bytes must open under the snapshot's manifest key as exactly the
    /// manifest that the author announced, and name the snapshot; the vault
    /// is offered no others. Without an announcement there is nothing to
    /// look for, and without the epoch's key nothing to open: no route is
    /// asked then.
    pub fn root<
        K: FnOnce(u64, SnapshotId) -> Option<[u8; 32]>,
        T: FnOnce(BaoRoot, usize) -> Reply,
        E: FnOnce(SnapshotId, usize) -> EagerReply,
        I: FnOnce(&Vec<u8>) -> Result<(), VaultError>,
    >(
        &self,
        runtime: &RuntimeState,
        snapshot: &SnapshotId,
        max: usize,
        manifest_key: K,
        fetch_transport: T,
        fetch_root_manifest: E,
        import: I,
    ) -> (r: FetchOutcome<ManifestRecord>)
        requires
            self.total(),
            runtime.inv(),
            runtime@.announcements.contains_key(*snapshot) ==> ({
                let announcement = runtime@.announcements[*snapshot];
                let root = announcement.root_manifest_transport;
                &&& call_requires(manifest_key, (announcement.epoch, *snapshot))
                &&& forall|key: [u8; 32]| #[trigger]
                    call_ensures(manifest_key, (announcement.epoch, *snapshot), Some(key)) ==> {
                        &&& call_requires(fetch_transport, (root, max))
                        &&& may_fall_back(root, max, fetch_transport) ==> call_requires(
                            fetch_root_manifest,
                            (*snapshot, max),
                        )
                        &&& forall|served: Served| #[trigger]
                            serves_root(
                                announcement,
                                *snapshot,
                                max,
                                fetch_transport,
                                fetch_root_manifest,
                                served,
                            ) ==> self.importable(
                                served,
                                key@,
                                announcement.root_manifest,
                                *snapshot,
                                true,
                                import,
                            )
                    }
            }),
        ensures
            !runtime@.announcements.contains_key(*snapshot) ==> r == FetchOutcome::<
                ManifestRecord,
            >::Missing,
            runtime@.announcements.contains_key(*snapshot) ==> ({
                let announcement = runtime@.announcements[*snapshot];
                exists|key: Option<[u8; 32]>|
                    {
                        &&& #[trigger] call_ensures(
                            manifest_key,
                            (announcement.epoch, *snapshot),
                            key,
                        )
                        &&& match key {
                            None => r == FetchOutcome::<ManifestRecord>::UnavailableKey,
                            Some(key) => exists|served: Served|
                                {
                                    &&& #[trigger] serves_root(
                                        announcement,
                                        *snapshot,
                                        max,
                                        fetch_transport,
                                        fetch_root_manifest,
                                        served,
                                    )
                                    &&& self.settles_manifest(
                                        served,
                                        key@,
                                        announcement.root_manifest,
                                        *snapshot,
                                        true,
                                        import,
                                        r,
                                    )
                                },
                        }
                    }
            }),
    {
        let announcement = match runtime.announcement(snapshot) {
            Some(announcement) => announcement,
            None => {
                return FetchOutcome::Missing;
            },
        };
        let held: Option<[u8; 32]> = manifest_key(announcement.epoch, *snapshot);
        let ghost answer = held;
        let key: [u8; 32] = match held {
            Some(key) => key,
            None => {
                return FetchOutcome::UnavailableKey;
            },
        };
        proof {
            assert(answer == Some(key));
            assert(call_ensures(manifest_key, (announcement.epoch, *snapshot), Some(key)));
        }
        let served = serve_root(
            announcement,
            snapshot,
            max,
            fetch_transport,
            fetch_root_manifest,
        );
        self.settle_manifest(
            served,
            &key,
            &announcement.root_manifest,
            snapshot,
            true,
            import,
        )
    }

    /// Fetches and admits a child manifest that a recorded manifest links
    /// to, under the key of the snapshot that owns it. The vault is offered
    /// no bytes but those that open as the linked manifest.
    pub fn child<
        K: FnOnce(u64, SnapshotId) -> Option<[u8; 32]>,
        T: FnOnce(BaoRoot, usize) -> Reply,
        S: FnOnce(StorageId, usize) -> Reply,
        I: FnOnce(&Vec<u8>) -> Result<(), VaultError>,
    >(
        &self,
        runtime: &RuntimeState,
        id: &ContentId,
        link: &ChildManifest,
        max: usize,
        manifest_key: K,
        fetch_transport: T,
        fetch_sealed: S,
        import: I,
    ) -> (r: FetchOutcome<ManifestRecord>)
        requires
            self.total(),
            runtime.inv(),
            owner(runtime@, *id) matches Some(snapshot) ==> ({
                let epoch = runtime@.announcements[snapshot].epoch;
                &&& call_requires(manifest_key, (epoch, snapshot))
                &&& forall|key: [u8; 32]| #[trigger]
                    call_ensures(manifest_key, (epoch, snapshot), Some(key)) ==> {
                        &&& call_requires(fetch_transport, (link.transport, max))
                        &&& may_fall_back(link.transport, max, fetch_transport) ==> call_requires(
                            fetch_sealed,
                            (link.storage, max),
                        )
                        &&& forall|reply: Reply| #[trigger]
                            represents(
                                link.transport,
                                link.storage,
                                max,
                                fetch_transport,
                                fetch_sealed,
                                reply,
                            ) ==> self.importable(
                                served_by(reply),
                                key@,
                                link.manifest,
                                snapshot,
                                false,
                                import,
                            )
                    }
            }),
        ensures
            match owner(runtime@, *id) {
                None => r == FetchOutcome::<ManifestRecord>::Missing,
                Some(snapshot) => exists|key: Option<[u8; 32]>|
                    {
                        &&& #[trigger] call_ensures(
                            manifest_key,
                            (runtime@.announcements[snapshot].epoch, snapshot),
                            key,
                        )
                        &&& match key {
                            None => r == FetchOutcome::<ManifestRecord>::UnavailableKey,
                            Some(key) => exists|reply: Reply|
                                {
                                    &&& #[trigger] represents(
                                        link.transport,
                                        link.storage,
                                        max,
                                        fetch_transport,
                                        fetch_sealed,
                                        reply,
                                    )
                                    &&& self.settles_manifest(
                                        served_by(reply),
                                        key@,
                                        link.manifest,
                                        snapshot,
                                        false,
                                        import,
                                        r,
                                    )
                                },
                        }
                    },
            },
    {
        let snapshot: SnapshotId = match runtime.manifest_parent_snapshot(id) {
            Some(snapshot) => snapshot,
            None => {
                return FetchOutcome::Missing;
            },
        };
        let epoch: u64 = match runtime.announcement(&snapshot) {
            Some(announcement) => announcement.epoch,
            None => {
                return FetchOutcome::Missing;
            },
        };
        let held: Option<[u8; 32]> = manifest_key(epoch, snapshot);
        let ghost answer = held;
        let key: [u8; 32] = match held {
            Some(key) => key,
            None => {
                return FetchOutcome::UnavailableKey;
            },
        };
        proof {
            assert(answer == Some(key));
            assert(owner(runtime@, *id) == Some(snapshot));
            assert(call_ensures(manifest_key, (epoch, snapshot), Some(key)));
        }
        let reply = fetch_representation(
            &link.transport,
            &link.storage,
            max,
            fetch_transport,
            fetch_sealed,
        );
        let ghost routes = reply;
        let served = match reply {
            Ok(Some(bytes)) => Served::Sealed(bytes),
            Ok(None) => Served::Absent,
            Err(BulkError::Oversize { .. }) => Served::Refused,
            Err(BulkError::Transport(_)) => Served::Unreachable,
        };
        proof {
            assert(served == served_by(routes));
        }
        self.settle_manifest(served, &key, &link.manifest, &snapshot, false, import)
    }
}

/// The announced snapshot that owns a child manifest.
pub open spec fn owner(v: RuntimeView, child: ContentId) -> Option<SnapshotId> {
    if v.parents.contains_key(child) && v.announcements.contains_key(v.parents[child]) {
        Some(v.parents[child])
    } else {
        None
    }
}

/// A content id, read as the snapshot id that a snapshot body hashes to.
pub open spec fn names_snapshot(content: ContentId, snapshot: SnapshotId) -> bool {
    content@ == snapshot@
}

/// Whether bytes hash to a snapshot id, as the body of that snapshot does.
pub open spec fn hashes_to_snapshot<D: Fn(ObjectKind, &Vec<u8>) -> ContentId>(
    derive: D,
    bytes: Seq<u8>,
    snapshot: SnapshotId,
) -> bool {
    exists|id: ContentId| #[trigger]
        hashes(derive, ObjectKind::Snapshot, bytes, id) && names_snapshot(id, snapshot)
}

/// What decoding the bytes of a snapshot body gives.
pub open spec fn decodes_body<
    D: Fn(ObjectKind, &Vec<u8>) -> ContentId,
    F: FnOnce(&Vec<u8>) -> Option<Snapshot>,
>(
    bytes: Vec<u8>,
    snapshot: SnapshotId,
    max_parents: usize,
    derive: D,
    decode: F,
    r: FetchOutcome<Snapshot>,
) -> bool {
    exists|derived: ContentId|
        {
            &&& #[trigger] hashes(derive, ObjectKind::Snapshot, bytes@, derived)
            &&& if !names_snapshot(derived, snapshot) {
                r == FetchOutcome::<Snapshot>::Invalid
            } else {
                exists|decoded: Option<Snapshot>|
                    {
                        &&& #[trigger] call_ensures(decode, (&bytes,), decoded)
                        &&& match decoded {
                            None => r == FetchOutcome::<Snapshot>::Invalid,
                            Some(body) => if body.parents@.len() > max_parents {
                                r == FetchOutcome::<Snapshot>::Invalid
                            } else {
                                r == FetchOutcome::Fulfilled(
                                    Snapshot { id: snapshot, encoded: bytes, ..body },
                                )
                            },
                        }
                    }
            }
        }
}

/// Decodes the bytes of a snapshot body: they must hash to the snapshot id,
/// parse, and name no more parents than allowed.
pub fn decode_body<
    D: Fn(ObjectKind, &Vec<u8>) -> ContentId,
    F: FnOnce(&Vec<u8>) -> Option<Snapshot>,
>(
    bytes: Vec<u8>,
    snapshot: &SnapshotId,
    max_parents: usize,
    derive: &D,
    decode: F,
) -> (r: FetchOutcome<Snapshot>)
    requires
        derives(*derive),
        hashes_to_snapshot(*derive, bytes@, *snapshot) ==> call_requires(decode, (&bytes,)),
    ensures
        decodes_body(bytes, *snapshot, max_parents, *derive, decode, r),
{
    let derived: ContentId = derive(ObjectKind::Snapshot, &bytes);
    proof {
        assert(hashes(*derive, ObjectKind::Snapshot, bytes@, derived));
    }
    if !crate::order::bytes_equal(
        derived.as_bytes().as_slice(),
        snapshot.as_bytes().as_slice(),
    ) {
        return FetchOutcome::Invalid;
    }
    proof {
        assert(hashes_to_snapshot(*derive, bytes@, *snapshot));
    }
    let decoded: Option<Snapshot> = decode(&bytes);
    let ghost reading = decoded;
    match decoded {
        None => FetchOutcome::Invalid,
        Some(body) => {
            proof {
                assert(reading == Some(body));
                assert(call_ensures(decode, (&bytes,), reading));
            }
            if body.parents.len() > max_parents {
                return FetchOutcome::Invalid;
            }
            FetchOutcome::Fulfilled(
                Snapshot {
                    id: *snapshot,
                    parents: body.parents,
                    author: body.author,
                    membership: body.membership,
                    epoch: body.epoch,
                    encoded: bytes,
                },
            )
        },
    }
}

/// What the routes to a snapshot body come to: by the announced body root
/// first, when the snapshot is announced, and by the snapshot's own address
/// otherwise.
pub open spec fn serves_body<
    T: FnOnce(BaoRoot, usize) -> Reply,
    S: FnOnce(SnapshotId, usize) -> Reply,
>(
    v: RuntimeView,
    snapshot: SnapshotId,
    max: usize,
    fetch_transport: T,
    fetch_snapshot: S,
    r: Reply,
) -> bool {
    if v.announcements.contains_key(snapshot) {
        exists|first: Reply|
            {
                &&& #[trigger] call_ensures(
                    fetch_transport,
                    (v.announcements[snapshot].body_root, max),
                    first,
                )
                &&& if falls_back(first) {
                    call_ensures(fetch_snapshot, (snapshot, max), r)
                } else {
                    r == first
                }
            }
    } else {
        call_ensures(fetch_snapshot, (snapshot, max), r)
    }
}

/// Whether the routes to a snapshot body may be asked as far as they are:
/// the announced body root where there is one, and the snapshot's own
/// address where there is none or the first route leads on.
pub open spec fn body_routes<
    T: FnOnce(BaoRoot, usize) -> Reply,
    S: FnOnce(SnapshotId, usize) -> Reply,
>(
    v: RuntimeView,
    snapshot: SnapshotId,
    max: usize,
    fetch_transport: T,
    fetch_snapshot: S,
) -> bool {
    if v.announcements.contains_key(snapshot) {
        let root = v.announcements[snapshot].body_root;
        &&& call_requires(fetch_transport, (root, max))
        &&& may_fall_back(root, max, fetch_transport) ==> call_requires(
            fetch_snapshot,
            (snapshot, max),
        )
    } else {
        call_requires(fetch_snapshot, (snapshot, max))
    }
}

fn serve_body<
    T: FnOnce(BaoRoot, usize) -> Reply,
    S: FnOnce(SnapshotId, usize) -> Reply,
>(
    runtime: &RuntimeState,
    snapshot: &SnapshotId,
    max: usize,
    fetch_transport: T,
    fetch_snapshot: S,
) -> (r: Reply)
    requires
        runtime.inv(),
        body_routes(runtime@, *snapshot, max, fetch_transport, fetch_snapshot),
    ensures
        serves_body(runtime@, *snapshot, max, fetch_transport, fetch_snapshot, r),
{
    let announced: Option<BaoRoot> = match runtime.announcement(snapshot) {
        Some(announcement) => Some(announcement.body_root),
        None => None,
    };
    match announced {
        None => fetch_snapshot(*snapshot, max),
        Some(body_root) => {
            let first: Reply = fetch_transport(body_root, max);
            proof {
                assert(falls_back(first) ==> may_fall_back(body_root, max, fetch_transport));
            }
            match first {
                Ok(Some(bytes)) => Ok(Some(bytes)),
                Ok(None) => fetch_snapshot(*snapshot, max),
                Err(BulkError::Transport(_)) => fetch_snapshot(*snapshot, max),
                Err(BulkError::Oversize { bytes, max }) => Err(
                    BulkError::Oversize { bytes, max },
                ),
            }
        },
    }
}

/// Fetches and validates a snapshot body. The id covers the bytes, so only
/// the author's own body can come back under it.
pub fn snapshot_body<
    D: Fn(ObjectKind, &Vec<u8>) -> ContentId,
    F: FnOnce(&Vec<u8>) -> Option<Snapshot>,
    T: FnOnce(BaoRoot, usize) -> Reply,
    S: FnOnce(SnapshotId, usize) -> Reply,
>(
    runtime: &RuntimeState,
    snapshot: &SnapshotId,
    max: usize,
    max_parents: usize,
    derive: &D,
    decode: F,
    fetch_transport: T,
    fetch_snapshot: S,
) -> (r: FetchOutcome<Snapshot>)
    requires
        runtime.inv(),
        derives(*derive),
        body_routes(runtime@, *snapshot, max, fetch_transport, fetch_snapshot),
        forall|bytes: Vec<u8>|
            hashes_to_snapshot(*derive, bytes@, *snapshot) ==> #[trigger] call_requires(
                decode,
                (&bytes,),
            ),
    ensures
        exists|reply: Reply|
            {
                &&& #[trigger] serves_body(
                    runtime@,
                    *snapshot,
                    max,
                    fetch_transport,
                    fetch_snapshot,
                    reply,
                )
                &&& match served_by(reply) {
                    Served::Sealed(bytes) => decodes_body(
                        bytes,
                        *snapshot,
                        max_parents,
                        *derive,
                        decode,
                        r,
                    ),
                    Served::Absent => r == FetchOutcome::<Snapshot>::Missing,
                    Served::Refused => r == FetchOutcome::<Snapshot>::Invalid,
                    Served::Unreachable => r == FetchOutcome::<Snapshot>::Transport,
                }
            },
{
    let reply = serve_body(runtime, snapshot, max, fetch_transport, fetch_snapshot);
    let ghost routes = reply;
    match reply {
        Ok(Some(bytes)) => {
            proof {
                assert(served_by(routes) == Served::Sealed(bytes));
            }
            decode_body(bytes, snapshot, max_parents, derive, decode)
        },
        Ok(None) => FetchOutcome::Missing,
        Err(BulkError::Oversize { .. }) => FetchOutcome::Invalid,
        Err(BulkError::Transport(_)) => FetchOutcome::Transport,
    }
}

/// What became of one representation of an object.
#[derive(Debug, Clone, Copy, PartialEq, Eq, Structural)]
pub enum CandidateResult {
    /// The epoch's key is not held.
    NoKey,
    /// No route holds it.
    Absent,
    /// Its last route failed.
    Unreachable,
    /// Its bytes came and were refused.
    Rejected,
    /// Its bytes verified and were not taken locally.
    Declined,
    /// The local disk can take nothing more.
    Fatal(StoreFailure),
    /// Its plaintext is stored.
    Landed,
}

/// The manifest entry that a planned fetch stands for.
pub open spec fn entry_of(content: ContentId, candidate: PendingObjectFetch) -> ManifestEntry {
    ManifestEntry {
        content_id: content,
        kind: candidate.kind,
        version: candidate.version,
        storage_id: candidate.storage_id,
        encryption_epoch: candidate.encryption_epoch,
        size: candidate.size,
        transport: candidate.transport,
    }
}

/// Whether a verified plaintext is within the ceiling of its kind.
pub open spec fn within_ceiling(kind: ObjectKind, len: nat, max_chunk: usize) -> bool {
    kind == ObjectKind::Chunk ==> len <= max_chunk
}

/// What storing a verified representation comes to: the ciphertext goes to
/// the vault first, then the plaintext to the object store.
pub open spec fn stores<
    I: FnOnce(&Vec<u8>) -> Result<(), VaultError>,
    N: FnOnce(ObjectKind, ContentId, &Vec<u8>) -> Result<(), StoreFailure>,
>(
    sealed: Vec<u8>,
    kind: ObjectKind,
    content: ContentId,
    plaintext: Vec<u8>,
    import: I,
    insert_verified: N,
    r: CandidateResult,
) -> bool {
    exists|imported: Result<(), VaultError>|
        {
            &&& #[trigger] call_ensures(import, (&sealed,), imported)
            &&& match after_import((), imported) {
                FetchOutcome::Store(failure) => r == CandidateResult::Fatal(failure),
                FetchOutcome::Fulfilled(_) => exists|inserted: Result<(), StoreFailure>|
                    {
                        &&& #[trigger] call_ensures(
                            insert_verified,
                            (kind, content, &plaintext),
                            inserted,
                        )
                        &&& r == match inserted {
                            Ok(()) => CandidateResult::Landed,
                            Err(failure) => match fatal(failure) {
                                Some(failure) => CandidateResult::Fatal(failure),
                                None => CandidateResult::Declined,
                            },
                        }
                    },
                _ => r == CandidateResult::Declined,
            }
        }
}

/// Whether both stores may be offered a verified representation: the vault
/// its ciphertext, and the object store its plaintext once the vault holds
/// the ciphertext.
pub open spec fn storable<
    I: FnOnce(&Vec<u8>) -> Result<(), VaultError>,
    N: FnOnce(ObjectKind, ContentId, &Vec<u8>) -> Result<(), StoreFailure>,
>(
    sealed: Vec<u8>,
    kind: ObjectKind,
    content: ContentId,
    plaintext: Vec<u8>,
    import: I,
    insert_verified: N,
) -> bool {
    &&& call_requires(import, (&sealed,))
    &&& call_ensures(import, (&sealed,), Ok::<(), VaultError>(())) ==> call_requires(
        insert_verified,
        (kind, content, &plaintext),
    )
}

fn store<
    I: FnOnce(&Vec<u8>) -> Result<(), VaultError>,
    N: FnOnce(ObjectKind, ContentId, &Vec<u8>) -> Result<(), StoreFailure>,
>(
    sealed: &Vec<u8>,
    kind: ObjectKind,
    content: &ContentId,
    plaintext: &Vec<u8>,
    import: I,
    insert_verified: N,
) -> (r: CandidateResult)
    requires
        storable(*sealed, kind, *content, *plaintext, import, insert_verified),
    ensures
        stores(*sealed, kind, *content, *plaintext, import, insert_verified, r),
{
    let imported: Result<(), VaultError> = import(sealed);
    proof {
        assert(call_ensures(import, (sealed,), imported));
    }
    if let Err(error) = imported {
        return match fatal_vault(&error) {
            Some(failure) => CandidateResult::Fatal(failure),
            None => CandidateResult::Declined,
        };
    }
    proof {
        assert(imported->Ok_0 == ());
        assert(imported == Ok::<(), VaultError>(()));
    }
    let inserted: Result<(), StoreFailure> = insert_verified(kind, *content, plaintext);
    proof {
        assert(call_ensures(insert_verified, (kind, *content, plaintext), inserted));
    }
    match inserted {
        Ok(()) => CandidateResult::Landed,
        Err(failure) => match fatal_store(failure) {
            Some(failure) => CandidateResult::Fatal(failure),
            None => CandidateResult::Declined,
        },
    }
}

impl<
    D: Fn(ObjectKind, &Vec<u8>) -> ContentId,
    P: Fn(&Vec<u8>) -> Option<Manifest>,
    C: Fn(&Manifest) -> bool,
    A: Fn(&Vec<u8>) -> StorageId,
    R: Fn(&Vec<u8>) -> BaoRoot,
> ObjectFormat<D, P, C, A, R> {
    /// What the bytes of one representation come to.
    pub open spec fn settles_candidate<
        I: FnOnce(&Vec<u8>) -> Result<(), VaultError>,
        N: FnOnce(ObjectKind, ContentId, &Vec<u8>) -> Result<(), StoreFailure>,
    >(
        &self,
        content: ContentId,
        candidate: PendingObjectFetch,
        key: Seq<u8>,
        sealed: Vec<u8>,
        max_chunk: usize,
        import: I,
        insert_verified: N,
        r: CandidateResult,
    ) -> bool {
        exists|verified: Result<Vec<u8>, crate::seal::CryptoError>|
            {
                &&& #[trigger] verifies(
                    &self.kinds,
                    entry_of(content, candidate),
                    key,
                    sealed@,
                    self.derive,
                    self.address,
                    seen(verified),
                )
                &&& match verified {
                    Err(_) => r == CandidateResult::Rejected,
                    Ok(plaintext) => if !within_ceiling(
                        candidate.kind,
                        plaintext@.len(),
                        max_chunk,
                    ) {
                        r == CandidateResult::Rejected
                    } else {
                        stores(
                            sealed,
                            candidate.kind,
                            content,
                            plaintext,
                            import,
                            insert_verified,
                            r,
                        )
                    },
                }
            }
    }

    /// Whether sealed bytes verify as a planned representation, and their
    /// plaintext keeps within the ceiling of its kind.
    pub open spec fn admissible(
        &self,
        content: ContentId,
        candidate: PendingObjectFetch,
        key: Seq<u8>,
        sealed: Seq<u8>,
        max_chunk: usize,
        plaintext: Seq<u8>,
    ) -> bool {
        &&& verifies(
            &self.kinds,
            entry_of(content, candidate),
            key,
            sealed,
            self.derive,
            self.address,
            Ok(plaintext),
        )
        &&& within_ceiling(candidate.kind, plaintext.len(), max_chunk)
    }

    /// What trying one representation may call. Without the epoch's key no
    /// route is asked, and neither store is offered bytes that are not
    /// admissible.
    pub open spec fn attemptable<
        K: FnOnce(u64, ContentId, ObjectKind, u8) -> Option<[u8; 32]>,
        T: FnOnce(BaoRoot, usize) -> Reply,
        S: FnOnce(StorageId, usize) -> Reply,
        I: FnOnce(&Vec<u8>) -> Result<(), VaultError>,
        N: FnOnce(ObjectKind, ContentId, &Vec<u8>) -> Result<(), StoreFailure>,
    >(
        &self,
        content: ContentId,
        candidate: PendingObjectFetch,
        max: usize,
        max_chunk: usize,
        object_key: K,
        fetch_transport: T,
        fetch_sealed: S,
        import: I,
        insert_verified: N,
    ) -> bool {
        let named = (candidate.encryption_epoch, content, candidate.kind, candidate.version);
        &&& call_requires(object_key, named)
        &&& forall|key: [u8; 32]| #[trigger]
            call_ensures(object_key, named, Some(key)) ==> {
                &&& call_requires(fetch_transport, (candidate.transport, max))
                &&& may_fall_back(candidate.transport, max, fetch_transport) ==> call_requires(
                    fetch_sealed,
                    (candidate.storage_id, max),
                )
                &&& forall|reply: Reply, plaintext: Vec<u8>|
                    {
                        &&& #[trigger] represents(
                            candidate.transport,
                            candidate.storage_id,
                            max,
                            fetch_transport,
                            fetch_sealed,
                            reply,
                        )
                        &&& served_by(reply) matches Served::Sealed(sealed)
                        &&& self.admissible(
                            content,
                            candidate,
                            key@,
                            sealed@,
                            max_chunk,
                            #[trigger] plaintext@,
                        )
                    } ==> storable(
                        served_by(reply)->Sealed_0,
                        candidate.kind,
                        content,
                        plaintext,
                        import,
                        insert_verified,
                    )
            }
    }

    /// What trying one representation comes to.
    pub open spec fn tries<
        K: FnOnce(u64, ContentId, ObjectKind, u8) -> Option<[u8; 32]>,
        T: FnOnce(BaoRoot, usize) -> Reply,
        S: FnOnce(StorageId, usize) -> Reply,
        I: FnOnce(&Vec<u8>) -> Result<(), VaultError>,
        N: FnOnce(ObjectKind, ContentId, &Vec<u8>) -> Result<(), StoreFailure>,
    >(
        &self,
        content: ContentId,
        candidate: PendingObjectFetch,
        max: usize,
        max_chunk: usize,
        object_key: K,
        fetch_transport: T,
        fetch_sealed: S,
        import: I,
        insert_verified: N,
        r: CandidateResult,
    ) -> bool {
        let named = (candidate.encryption_epoch, content, candidate.kind, candidate.version);
        exists|key: Option<[u8; 32]>|
            {
                &&& #[trigger] call_ensures(object_key, named, key)
                &&& match key {
                    None => r == CandidateResult::NoKey,
                    Some(key) => exists|reply: Reply|
                        {
                            &&& #[trigger] represents(
                                candidate.transport,
                                candidate.storage_id,
                                max,
                                fetch_transport,
                                fetch_sealed,
                                reply,
                            )
                            &&& match served_by(reply) {
                                Served::Absent => r == CandidateResult::Absent,
                                Served::Unreachable => r == CandidateResult::Unreachable,
                                Served::Refused => r == CandidateResult::Rejected,
                                Served::Sealed(sealed) => self.settles_candidate(
                                    content,
                                    candidate,
                                    key@,
                                    sealed,
                                    max_chunk,
                                    import,
                                    insert_verified,
                                    r,
                                ),
                            }
                        },
                }
            }
    }

    /// Fetches, verifies and stores one representation of an object.
    pub fn try_candidate<
        K: FnOnce(u64, ContentId, ObjectKind, u8) -> Option<[u8; 32]>,
        T: FnOnce(BaoRoot, usize) -> Reply,
        S: FnOnce(StorageId, usize) -> Reply,
        I: FnOnce(&Vec<u8>) -> Result<(), VaultError>,
        N: FnOnce(ObjectKind, ContentId, &Vec<u8>) -> Result<(), StoreFailure>,
    >(
        &self,
        content: &ContentId,
        candidate: &PendingObjectFetch,
        max: usize,
        max_chunk: usize,
        object_key: K,
        fetch_transport: T,
        fetch_sealed: S,
        import: I,
        insert_verified: N,
    ) -> (r: CandidateResult)
        requires
            self.total(),
            self.attemptable(
                *content,
                *candidate,
                max,
                max_chunk,
                object_key,
                fetch_transport,
                fetch_sealed,
                import,
                insert_verified,
            ),
        ensures
            self.tries(
                *content,
                *candidate,
                max,
                max_chunk,
                object_key,
                fetch_transport,
                fetch_sealed,
                import,
                insert_verified,
                r,
            ),
    {
        let held: Option<[u8; 32]> = object_key(
            candidate.encryption_epoch,
            *content,
            candidate.kind,
            candidate.version,
        );
        let ghost answer = held;
        let key: [u8; 32] = match held {
            Some(key) => key,
            None => {
                return CandidateResult::NoKey;
            },
        };
        proof {
            assert(answer == Some(key));
            assert(call_ensures(
                object_key,
                (candidate.encryption_epoch, *content, candidate.kind, candidate.version),
                Some(key),
            ));
        }
        let reply = fetch_representation(
            &candidate.transport,
            &candidate.storage_id,
            max,
            fetch_transport,
            fetch_sealed,
        );
        let ghost routes = reply;
        let sealed: Vec<u8> = match reply {
            Ok(Some(sealed)) => sealed,
            Ok(None) => {
                return CandidateResult::Absent;
            },
            Err(BulkError::Oversize { .. }) => {
                return CandidateResult::Rejected;
            },
            Err(BulkError::Transport(_)) => {
                return CandidateResult::Unreachable;
            },
        };
        proof {
            assert(served_by(routes) == Served::Sealed(sealed));
        }
        let entry = ManifestEntry {
            content_id: *content,
            kind: candidate.kind,
            version: candidate.version,
            storage_id: candidate.storage_id,
            encryption_epoch: candidate.encryption_epoch,
            size: candidate.size,
            transport: candidate.transport,
        };
        let verified = verify(
            &self.kinds,
            &entry,
            &key,
            sealed.as_slice(),
            &self.derive,
            &self.address,
        );
        let ghost reading = verified;
        proof {
            assert(entry == entry_of(*content, *candidate));
        }
        let plaintext: Vec<u8> = match verified {
            Ok(plaintext) => plaintext,
            Err(_) => {
                return CandidateResult::Rejected;
            },
        };
        proof {
            assert(reading == Ok::<Vec<u8>, crate::seal::CryptoError>(plaintext));
        }
        if candidate.kind == ObjectKind::Chunk && plaintext.len() > max_chunk {
            return CandidateResult::Rejected;
        }
        proof {
            assert(self.admissible(
                *content,
                *candidate,
                key@,
                sealed@,
                max_chunk,
                plaintext@,
            ));
        }
        store(&sealed, candidate.kind, content, &plaintext, import, insert_verified)
    }
}

/// The outcome of one object fetch, with what it says of each
/// representation: the aggregate verdict, the representations whose bytes
/// were refused, those whose routes failed, and the one that landed.
#[derive(Debug, PartialEq, Eq)]
pub struct ObjectAttempt {
    pub aggregate: FetchOutcome<()>,
    pub invalid: Vec<StorageId>,
    pub transport_failed: Vec<StorageId>,
    pub fulfilled: Option<StorageId>,
}

/// The mathematical value of an [`ObjectAttempt`].
#[verifier::ext_equal]
pub struct AttemptModel {
    pub aggregate: FetchOutcome<()>,
    pub invalid: Seq<StorageId>,
    pub transport_failed: Seq<StorageId>,
    pub fulfilled: Option<StorageId>,
}

impl View for ObjectAttempt {
    type V = AttemptModel;

    open spec fn view(&self) -> AttemptModel {
        AttemptModel {
            aggregate: self.aggregate,
            invalid: self.invalid@,
            transport_failed: self.transport_failed@,
            fulfilled: self.fulfilled,
        }
    }
}

/// Whether a representation's result ends the attempt.
pub open spec fn terminal(result: CandidateResult) -> bool {
    result is Landed || result is Fatal
}

impl AttemptModel {
    pub open spec fn start() -> AttemptModel {
        AttemptModel {
            aggregate: FetchOutcome::Missing,
            invalid: Seq::empty(),
            transport_failed: Seq::empty(),
            fulfilled: None,
        }
    }

    /// The attempt after one more representation was tried.
    pub open spec fn after(self, storage: StorageId, result: CandidateResult) -> AttemptModel {
        match result {
            CandidateResult::NoKey => AttemptModel {
                aggregate: worst(self.aggregate, FetchOutcome::UnavailableKey),
                ..self
            },
            CandidateResult::Absent => AttemptModel {
                aggregate: worst(self.aggregate, FetchOutcome::Missing),
                ..self
            },
            CandidateResult::Unreachable => AttemptModel {
                aggregate: worst(self.aggregate, FetchOutcome::Transport),
                transport_failed: self.transport_failed.push(storage),
                ..self
            },
            CandidateResult::Rejected => AttemptModel {
                aggregate: worst(self.aggregate, FetchOutcome::Invalid),
                invalid: self.invalid.push(storage),
                ..self
            },
            CandidateResult::Declined => AttemptModel {
                aggregate: worst(self.aggregate, FetchOutcome::Local),
                ..self
            },
            CandidateResult::Fatal(failure) => AttemptModel {
                aggregate: FetchOutcome::Store(failure),
                ..self
            },
            CandidateResult::Landed => AttemptModel {
                aggregate: FetchOutcome::Fulfilled(()),
                fulfilled: Some(storage),
                ..self
            },
        }
    }
}

/// The attempt that a sequence of results adds up to.
pub open spec fn tally(
    candidates: Seq<PendingObjectFetch>,
    results: Seq<CandidateResult>,
) -> AttemptModel
    decreases results.len(),
{
    if results.len() == 0 {
        AttemptModel::start()
    } else {
        tally(candidates, results.drop_last()).after(
            candidates[results.len() - 1].storage_id,
            results.last(),
        )
    }
}

/// Whether results are those of representations that were tried in order
/// until one ended the attempt or none was left.
pub open spec fn stops(
    candidates: Seq<PendingObjectFetch>,
    results: Seq<CandidateResult>,
) -> bool {
    &&& results.len() <= candidates.len()
    &&& forall|i: int| 0 <= i < results.len() - 1 ==> !terminal(#[trigger] results[i])
    &&& results.len() == candidates.len() || (results.len() > 0 && terminal(results.last()))
}

/// The results of trying representations in order until one ends the
/// attempt.
pub open spec fn tried<F: Fn(&PendingObjectFetch) -> CandidateResult>(
    candidates: Seq<PendingObjectFetch>,
    attempt: F,
    results: Seq<CandidateResult>,
) -> bool {
    &&& stops(candidates, results)
    &&& forall|i: int|
        0 <= i < results.len() ==> call_ensures(attempt, (&candidates[i],), #[trigger] results[i])
}

/// Whether representations are left to try: the results so far are those of
/// the first ones, and none of them ended the attempt.
pub open spec fn goes_on<F: Fn(&PendingObjectFetch) -> CandidateResult>(
    candidates: Seq<PendingObjectFetch>,
    attempt: F,
    results: Seq<CandidateResult>,
) -> bool {
    &&& results.len() < candidates.len()
    &&& forall|i: int|
        0 <= i < results.len() ==> call_ensures(attempt, (&candidates[i],), #[trigger] results[i])
            && !terminal(results[i])
}

/// Fetches one object by trying each usable representation in plan order.
/// The first that lands fulfils the object, so one bad representation never
/// blocks a good one; a disk that can take nothing more ends the attempt.
/// No representation is tried after either.
pub fn object<F: Fn(&PendingObjectFetch) -> CandidateResult>(
    candidates: &Vec<PendingObjectFetch>,
    attempt: F,
) -> (r: ObjectAttempt)
    requires
        forall|results: Seq<CandidateResult>| #[trigger]
            goes_on(candidates@, attempt, results) ==> call_requires(
                attempt,
                (&candidates@[results.len() as int],),
            ),
    ensures
        exists|results: Seq<CandidateResult>| #[trigger]
            tried(candidates@, attempt, results) && r@ == tally(candidates@, results),
{
    let mut aggregate: FetchOutcome<()> = FetchOutcome::Missing;
    let mut invalid: Vec<StorageId> = Vec::new();
    let mut transport_failed: Vec<StorageId> = Vec::new();
    let ghost mut results: Seq<CandidateResult> = Seq::empty();
    let mut i: usize = 0;
    while i < candidates.len()
        invariant
            i <= candidates@.len(),
            results.len() == i,
            forall|earlier: Seq<CandidateResult>| #[trigger]
                goes_on(candidates@, attempt, earlier) ==> call_requires(
                    attempt,
                    (&candidates@[earlier.len() as int],),
                ),
            forall|j: int|
                0 <= j < i ==> call_ensures(attempt, (&candidates@[j],), #[trigger] results[j])
                    && !terminal(results[j]),
            tally(candidates@, results) == (AttemptModel {
                aggregate,
                invalid: invalid@,
                transport_failed: transport_failed@,
                fulfilled: None,
            }),
        decreases candidates@.len() - i,
    {
        let candidate = &candidates[i];
        proof {
            assert(goes_on(candidates@, attempt, results));
        }
        let result: CandidateResult = attempt(candidate);
        let ghost before = results;
        proof {
            results = results.push(result);
            assert(results.drop_last() =~= before);
        }
        match result {
            CandidateResult::NoKey => {
                aggregate = worse(aggregate, FetchOutcome::UnavailableKey);
            },
            CandidateResult::Absent => {
                aggregate = worse(aggregate, FetchOutcome::Missing);
            },
            CandidateResult::Unreachable => {
                aggregate = worse(aggregate, FetchOutcome::Transport);
                transport_failed.push(candidate.storage_id);
            },
            CandidateResult::Rejected => {
                aggregate = worse(aggregate, FetchOutcome::Invalid);
                invalid.push(candidate.storage_id);
            },
            CandidateResult::Declined => {
                aggregate = worse(aggregate, FetchOutcome::Local);
            },
            CandidateResult::Fatal(failure) => {
                let r = ObjectAttempt {
                    aggregate: FetchOutcome::Store(failure),
                    invalid,
                    transport_failed,
                    fulfilled: None,
                };
                proof {
                    assert(tried(candidates@, attempt, results));
                    assert(r@ =~= tally(candidates@, results));
                }
                return r;
            },
            CandidateResult::Landed => {
                let r = ObjectAttempt {
                    aggregate: FetchOutcome::Fulfilled(()),
                    invalid,
                    transport_failed,
                    fulfilled: Some(candidate.storage_id),
                };
                proof {
                    assert(tried(candidates@, attempt, results));
                    assert(r@ =~= tally(candidates@, results));
                }
                return r;
            },
        }
        i = i + 1;
    }
    let r = ObjectAttempt { aggregate, invalid, transport_failed, fulfilled: None };
    proof {
        assert(tried(candidates@, attempt, results));
    }
    r
}

impl<
    D: Fn(ObjectKind, &Vec<u8>) -> ContentId,
    P: Fn(&Vec<u8>) -> Option<Manifest>,
    C: Fn(&Manifest) -> bool,
    A: Fn(&Vec<u8>) -> StorageId,
    R: Fn(&Vec<u8>) -> BaoRoot,
> ObjectFormat<D, P, C, A, R> {
    /// Whether each result is what trying the representation in its place
    /// comes to, and none but the last ended the attempt.
    pub open spec fn tries_in_order<
        K: Fn(u64, ContentId, ObjectKind, u8) -> Option<[u8; 32]>,
        T: Fn(BaoRoot, usize) -> Reply,
        S: Fn(StorageId, usize) -> Reply,
        I: Fn(&Vec<u8>) -> Result<(), VaultError>,
        N: Fn(ObjectKind, ContentId, &Vec<u8>) -> Result<(), StoreFailure>,
    >(
        &self,
        content: ContentId,
        candidates: Seq<PendingObjectFetch>,
        max: usize,
        max_chunk: usize,
        object_key: K,
        fetch_transport: T,
        fetch_sealed: S,
        import: I,
        insert_verified: N,
        results: Seq<CandidateResult>,
    ) -> bool {
        &&& results.len() <= candidates.len()
        &&& forall|i: int|
            0 <= i < results.len() ==> self.tries(
                content,
                candidates[i],
                max,
                max_chunk,
                object_key,
                fetch_transport,
                fetch_sealed,
                import,
                insert_verified,
                #[trigger] results[i],
            )
        &&& forall|i: int| 0 <= i < results.len() - 1 ==> !terminal(#[trigger] results[i])
    }

    /// Fetches one object: tries its representations in plan order, until
    /// one lands or the disk can take nothing more. Nothing is asked for,
    /// and neither store offered anything, on behalf of a representation
    /// after that.
    pub fn fetch_object<
        K: Fn(u64, ContentId, ObjectKind, u8) -> Option<[u8; 32]> + Copy,
        T: Fn(BaoRoot, usize) -> Reply + Copy,
        S: Fn(StorageId, usize) -> Reply + Copy,
        I: Fn(&Vec<u8>) -> Result<(), VaultError> + Copy,
        N: Fn(ObjectKind, ContentId, &Vec<u8>) -> Result<(), StoreFailure> + Copy,
    >(
        &self,
        content: &ContentId,
        candidates: &Vec<PendingObjectFetch>,
        max: usize,
        max_chunk: usize,
        object_key: K,
        fetch_transport: T,
        fetch_sealed: S,
        import: I,
        insert_verified: N,
    ) -> (r: ObjectAttempt)
        requires
            self.total(),
            forall|results: Seq<CandidateResult>| #[trigger]
                self.tries_in_order(
                    *content,
                    candidates@,
                    max,
                    max_chunk,
                    object_key,
                    fetch_transport,
                    fetch_sealed,
                    import,
                    insert_verified,
                    results,
                ) && results.len() < candidates@.len() && (results.len() == 0 || !terminal(
                    results.last(),
                )) ==> self.attemptable(
                    *content,
                    candidates@[results.len() as int],
                    max,
                    max_chunk,
                    object_key,
                    fetch_transport,
                    fetch_sealed,
                    import,
                    insert_verified,
                ),
        ensures
            exists|results: Seq<CandidateResult>|
                {
                    &&& #[trigger] self.tries_in_order(
                        *content,
                        candidates@,
                        max,
                        max_chunk,
                        object_key,
                        fetch_transport,
                        fetch_sealed,
                        import,
                        insert_verified,
                        results,
                    )
                    &&& stops(candidates@, results)
                    &&& r@ == tally(candidates@, results)
                },
    {
        let attempt = |candidate: &PendingObjectFetch| -> (r: CandidateResult)
            requires
                self.total(),
                self.attemptable(
                    *content,
                    *candidate,
                    max,
                    max_chunk,
                    object_key,
                    fetch_transport,
                    fetch_sealed,
                    import,
                    insert_verified,
                ),
            ensures
                self.tries(
                    *content,
                    *candidate,
                    max,
                    max_chunk,
                    object_key,
                    fetch_transport,
                    fetch_sealed,
                    import,
                    insert_verified,
                    r,
                ),
            {
                self.try_candidate(
                    content,
                    candidate,
                    max,
                    max_chunk,
                    object_key,
                    fetch_transport,
                    fetch_sealed,
                    import,
                    insert_verified,
                )
            };
        proof {
            assert forall|results: Seq<CandidateResult>| #[trigger]
                goes_on(candidates@, attempt, results) implies call_requires(
                attempt,
                (&candidates@[results.len() as int],),
            ) by {
                assert(self.tries_in_order(
                    *content,
                    candidates@,
                    max,
                    max_chunk,
                    object_key,
                    fetch_transport,
                    fetch_sealed,
                    import,
                    insert_verified,
                    results,
                ));
            }
        }
        let r = object(candidates, attempt);
        proof {
            let results = choose|results: Seq<CandidateResult>| #[trigger]
                tried(candidates@, attempt, results) && r@ == tally(candidates@, results);
            assert(self.tries_in_order(
                *content,
                candidates@,
                max,
                max_chunk,
                object_key,
                fetch_transport,
                fetch_sealed,
                import,
                insert_verified,
                results,
            ));
        }
        r
    }
}

} // verus!
