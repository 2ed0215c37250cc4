//! The records of the object model, as far as synchronisation reads them.

use vstd::prelude::*;

use crate::ids::{BaoRoot, ContentId, DeviceId, SnapshotId, StorageId, TransitionId};
use crate::order::{bytes_equal, Key};
use crate::sorted::SortedMap;

verus! {

/// What an object is: a piece of file content, a directory node, a
/// snapshot body, or a manifest.
#[derive(Debug, Clone, Copy, PartialEq, Eq, Structural)]
pub enum ObjectKind {
    Chunk,
    Tree,
    Snapshot,
    Manifest,
}

/// How far along the local copy of an object is, as the view layer sees it.
#[derive(Debug, Clone, Copy, PartialEq, Eq, Structural)]
pub enum FetchStatus {
    Available,
    Fetching,
    RemoteOnly,
    Unavailable,
    Corrupt,
}

/// Why the local disk refused bytes.
#[derive(Debug, Clone, Copy, PartialEq, Eq, Structural)]
pub enum StoreFailure {
    /// A condition that the next run may not meet again.
    Transient,
    /// The disk is full.
    StorageFull,
    /// This process may not write to the disk.
    Unwritable,
}

/// A manifest's mapping of one plaintext object to one sealed representation.
#[derive(Debug, Clone, Copy, PartialEq, Eq)]
pub struct ManifestEntry {
    pub content_id: ContentId,
    pub kind: ObjectKind,
    pub version: u8,
    pub storage_id: StorageId,
    pub encryption_epoch: u64,
    pub size: u64,
    pub transport: BaoRoot,
}

impl ManifestEntry {
    pub fn same(&self, other: &Self) -> (b: bool)
        ensures
            b == (*self == *other),
    {
        self.content_id.same(&other.content_id) && self.kind == other.kind && self.version
            == other.version && self.storage_id.same(&other.storage_id) && self.encryption_epoch
            == other.encryption_epoch && self.size == other.size && self.transport.same(
            &other.transport,
        )
    }
}

/// A manifest's link to the manifest of a subtree.
#[derive(Debug, Clone, Copy, PartialEq, Eq)]
pub struct ChildManifest {
    pub tree: ContentId,
    pub manifest: ContentId,
    pub storage: StorageId,
    pub transport: BaoRoot,
}

impl ChildManifest {
    pub fn same(&self, other: &Self) -> (b: bool)
        ensures
            b == (*self == *other),
    {
        self.tree.same(&other.tree) && self.manifest.same(&other.manifest) && self.storage.same(
            &other.storage,
        ) && self.transport.same(&other.transport)
    }
}

/// The mappings of one snapshot subtree.
#[derive(Debug, PartialEq, Eq)]
pub struct Manifest {
    pub snapshot: SnapshotId,
    pub entries: Vec<ManifestEntry>,
    pub children: Vec<ChildManifest>,
}

/// The mathematical value of a [`Manifest`].
#[verifier::ext_equal]
pub struct ManifestModel {
    pub snapshot: SnapshotId,
    pub entries: Seq<ManifestEntry>,
    pub children: Seq<ChildManifest>,
}

impl View for Manifest {
    type V = ManifestModel;

    open spec fn view(&self) -> ManifestModel {
        ManifestModel {
            snapshot: self.snapshot,
            entries: self.entries@,
            children: self.children@,
        }
    }
}

impl Manifest {
    pub fn new(
        snapshot: SnapshotId,
        entries: Vec<ManifestEntry>,
        children: Vec<ChildManifest>,
    ) -> (r: Self)
        ensures
            r.snapshot == snapshot,
            r.entries == entries,
            r.children == children,
    {
        Manifest { snapshot, entries, children }
    }

    /// Whether two manifests state the same mappings in the same order.
    pub fn same(&self, other: &Self) -> (b: bool)
        ensures
            b == (self@ == other@),
    {
        if !self.snapshot.same(&other.snapshot) || self.entries.len() != other.entries.len()
            || self.children.len() != other.children.len() {
            return false;
        }
        let mut i: usize = 0;
        while i < self.entries.len()
            invariant
                i <= self.entries@.len(),
                self.entries@.len() == other.entries@.len(),
                forall|j: int| 0 <= j < i ==> self.entries@[j] == other.entries@[j],
            decreases self.entries@.len() - i,
        {
            if !self.entries[i].same(&other.entries[i]) {
                return false;
            }
            i = i + 1;
        }
        let mut k: usize = 0;
        while k < self.children.len()
            invariant
                k <= self.children@.len(),
                self.children@.len() == other.children@.len(),
                forall|j: int| 0 <= j < k ==> self.children@[j] == other.children@[j],
            decreases self.children@.len() - k,
        {
            if !self.children[k].same(&other.children[k]) {
                return false;
            }
            k = k + 1;
        }
        proof {
            assert(self@ =~= other@);
        }
        true
    }

    /// A manifest with the same mappings.
    pub fn duplicate(&self) -> (r: Self)
        ensures
            r@ == self@,
    {
        let mut entries: Vec<ManifestEntry> = Vec::new();
        let mut i: usize = 0;
        while i < self.entries.len()
            invariant
                i <= self.entries@.len(),
                entries@ == self.entries@.take(i as int),
            decreases self.entries@.len() - i,
        {
            entries.push(self.entries[i]);
            i = i + 1;
            proof {
                assert(entries@ =~= self.entries@.take(i as int));
            }
        }
        let mut children: Vec<ChildManifest> = Vec::new();
        let mut k: usize = 0;
        while k < self.children.len()
            invariant
                k <= self.children@.len(),
                children@ == self.children@.take(k as int),
            decreases self.children@.len() - k,
        {
            children.push(self.children[k]);
            k = k + 1;
            proof {
                assert(children@ =~= self.children@.take(k as int));
            }
        }
        let r = Manifest { snapshot: self.snapshot, entries, children };
        proof {
            assert(r@ =~= self@);
        }
        r
    }
}

/// A snapshot body. `id` is the content address of `encoded`, the body's
/// canonical bytes; the other fields are what those bytes say.
#[derive(Debug, PartialEq, Eq)]
pub struct Snapshot {
    pub id: SnapshotId,
    pub parents: Vec<SnapshotId>,
    pub author: DeviceId,
    pub membership: TransitionId,
    pub epoch: u64,
    pub encoded: Vec<u8>,
}

impl Snapshot {
    /// The same body up to the identity of its vectors.
    pub open spec fn alike(&self, other: &Snapshot) -> bool {
        &&& self.id == other.id
        &&& self.parents@ == other.parents@
        &&& self.author == other.author
        &&& self.membership == other.membership
        &&& self.epoch == other.epoch
        &&& self.encoded@ == other.encoded@
    }

    /// A body with the same content.
    pub fn duplicate(&self) -> (r: Self)
        ensures
            r.alike(self),
    {
        Snapshot {
            id: self.id,
            parents: vstd::slice::slice_to_vec(self.parents.as_slice()),
            author: self.author,
            membership: self.membership,
            epoch: self.epoch,
            encoded: vstd::slice::slice_to_vec(self.encoded.as_slice()),
        }
    }
}

/// An author's signed statement that a snapshot exists, and where its
/// body and root manifest can be fetched.
#[derive(Debug, PartialEq, Eq)]
pub struct SnapshotAnnouncement {
    pub snapshot: SnapshotId,
    pub author: DeviceId,
    pub epoch: u64,
    pub membership: TransitionId,
    pub body_root: BaoRoot,
    pub root_manifest: ContentId,
    pub root_manifest_transport: BaoRoot,
    /// The serving address, as opaque route bytes.
    pub node_addr: Option<Vec<u8>>,
    pub signature: [u8; 64],
}

/// The part of an announcement that no reannouncement may change.
pub struct AnnouncementStatement {
    pub snapshot: SnapshotId,
    pub author: DeviceId,
    pub epoch: u64,
    pub membership: TransitionId,
    pub body_root: BaoRoot,
    pub root_manifest: ContentId,
    pub root_manifest_transport: BaoRoot,
}

/// The mathematical value of a [`SnapshotAnnouncement`].
#[verifier::ext_equal]
pub struct AnnouncementModel {
    pub statement: AnnouncementStatement,
    pub route: Option<Seq<u8>>,
    pub signature: Seq<u8>,
}

/// How a reannouncement relates to the announcement already known.
#[derive(Debug, Clone, Copy, PartialEq, Eq, Structural)]
pub enum AnnouncementUpdate {
    /// The same announcement again.
    Same,
    /// The same statement under another route.
    RouteUpdate,
    /// Another statement about the same snapshot.
    Fork,
}

/// The route bytes of an announcement, if it names a route.
pub open spec fn route_of(node_addr: Option<Vec<u8>>) -> Option<Seq<u8>> {
    match node_addr {
        Some(bytes) => Some(bytes@),
        None => None,
    }
}

impl AnnouncementModel {
    /// How another announcement relates to this one.
    pub open spec fn update(self, other: AnnouncementModel) -> AnnouncementUpdate {
        if self.statement != other.statement {
            AnnouncementUpdate::Fork
        } else if self.route == other.route && self.signature == other.signature {
            AnnouncementUpdate::Same
        } else {
            AnnouncementUpdate::RouteUpdate
        }
    }
}

impl View for SnapshotAnnouncement {
    type V = AnnouncementModel;

    open spec fn view(&self) -> AnnouncementModel {
        AnnouncementModel {
            statement: self.statement(),
            route: route_of(self.node_addr),
            signature: self.signature@,
        }
    }
}

impl SnapshotAnnouncement {
    pub open spec fn statement(&self) -> AnnouncementStatement {
        AnnouncementStatement {
            snapshot: self.snapshot,
            author: self.author,
            epoch: self.epoch,
            membership: self.membership,
            body_root: self.body_root,
            root_manifest: self.root_manifest,
            root_manifest_transport: self.root_manifest_transport,
        }
    }

    /// How `other` relates to this announcement.
    pub open spec fn update(&self, other: &SnapshotAnnouncement) -> AnnouncementUpdate {
        self@.update(other@)
    }

    /// Whether a snapshot body is the one that this announcement describes.
    pub open spec fn describes(&self, body: &Snapshot) -> bool {
        self.author == body.author && self.epoch == body.epoch && self.membership
            == body.membership
    }

    pub fn agrees(&self, body: &Snapshot) -> (b: bool)
        ensures
            b == self.describes(body),
    {
        self.author.same(&body.author) && self.epoch == body.epoch && self.membership.same(
            &body.membership,
        )
    }

    /// Classifies a reannouncement of the same snapshot.
    pub fn check_update(&self, other: &SnapshotAnnouncement) -> (r: AnnouncementUpdate)
        ensures
            r == self.update(other),
    {
        let same_core: bool = self.snapshot.same(&other.snapshot) && self.author.same(
            &other.author,
        ) && self.epoch == other.epoch && self.membership.same(&other.membership)
            && self.body_root.same(&other.body_root) && self.root_manifest.same(
            &other.root_manifest,
        ) && self.root_manifest_transport.same(&other.root_manifest_transport);
        if !same_core {
            return AnnouncementUpdate::Fork;
        }
        let same_route: bool = match (&self.node_addr, &other.node_addr) {
            (Some(a), Some(b)) => bytes_equal(a.as_slice(), b.as_slice()),
            (None, None) => true,
            _ => false,
        };
        if same_route && bytes_equal(self.signature.as_slice(), other.signature.as_slice()) {
            AnnouncementUpdate::Same
        } else {
            AnnouncementUpdate::RouteUpdate
        }
    }

    /// An announcement with the same content.
    pub fn duplicate(&self) -> (r: Self)
        ensures
            r@ == self@,
    {
        let node_addr: Option<Vec<u8>> = match &self.node_addr {
            Some(bytes) => Some(vstd::slice::slice_to_vec(bytes.as_slice())),
            None => None,
        };
        SnapshotAnnouncement {
            snapshot: self.snapshot,
            author: self.author,
            epoch: self.epoch,
            membership: self.membership,
            body_root: self.body_root,
            root_manifest: self.root_manifest,
            root_manifest_transport: self.root_manifest_transport,
            node_addr,
            signature: self.signature,
        }
    }
}

/// A membership transition, as far as intake reads it.
#[derive(Debug, PartialEq, Eq)]
pub struct MembershipTransition {
    pub id: TransitionId,
    pub epoch: u64,
    /// The transition's canonical bytes.
    pub bytes: Vec<u8>,
}

/// The standing of an observed transition in the membership history.
#[derive(Debug, Clone, Copy, PartialEq, Eq, Structural)]
pub enum TransitionStatus {
    Canonical,
    Contested,
    Voided,
    Orphaned,
    Pending,
    Invalid,
}

/// A manifest, as one device holds it: its identity, and the sealed
/// representations under which it is known.
#[derive(Debug, PartialEq, Eq)]
pub struct ManifestRecord {
    /// Whether this record is the snapshot's root manifest.
    pub is_root: bool,
    pub manifest_id: ContentId,
    /// Each recorded sealed representation, with that representation's own
    /// transport root.
    pub representations: SortedMap<StorageId, BaoRoot>,
    /// The transport root that the holder serves first.
    pub transport: BaoRoot,
    pub manifest: Manifest,
}

impl ManifestRecord {
    pub open spec fn wf(&self) -> bool {
        self.representations.wf()
    }

    /// A record without representations serves nothing; any other serves
    /// its first root from among them.
    pub open spec fn represented(&self) -> bool {
        self.representations@ == Map::<StorageId, BaoRoot>::empty() || exists|storage: StorageId|
            #[trigger] self.representations@.contains_key(storage)
                && self.representations@[storage] == self.transport
    }

    /// The same record up to the identity of its vectors.
    pub open spec fn alike(&self, other: &ManifestRecord) -> bool {
        &&& self.is_root == other.is_root
        &&& self.manifest_id == other.manifest_id
        &&& self.representations@ == other.representations@
        &&& self.transport == other.transport
        &&& self.manifest@ == other.manifest@
    }

    /// A record with the same content.
    pub fn duplicate(&self) -> (r: Self)
        requires
            self.wf(),
        ensures
            r.wf(),
            r.alike(self),
    {
        ManifestRecord {
            is_root: self.is_root,
            manifest_id: self.manifest_id,
            representations: self.representations.duplicate(),
            transport: self.transport,
            manifest: self.manifest.duplicate(),
        }
    }
}

/// Whether a record's first root is one of its representations, or it has
/// no representation at all.
pub fn transport_is_represented(record: &ManifestRecord) -> (b: bool)
    requires
        record.wf(),
    ensures
        b == record.represented(),
{
    if record.representations.is_empty() {
        return true;
    }
    let mut i: usize = 0;
    while i < record.representations.len()
        invariant
            record.wf(),
            i <= record.representations.keys().len(),
            forall|j: int|
                0 <= j < i ==> record.representations@[#[trigger] record.representations.keys()[j]]
                    != record.transport,
        decreases record.representations.keys().len() - i,
    {
        if record.representations.value(i).same(&record.transport) {
            return true;
        }
        i = i + 1;
    }
    proof {
        record.representations.lemma_keys();
        assert forall|s: StorageId| #[trigger]
            record.representations@.contains_key(s) implies record.representations@[s]
            != record.transport by {
            assert(record.representations@.dom().contains(s));
            assert(record.representations.keys().contains(s));
            let j = record.representations.keys().index_of(s);
            assert(record.representations.keys()[j] == s);
        }
    }
    false
}

} // verus!
