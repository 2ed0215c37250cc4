//! The 32-byte identities of the object model.
//!
//! Each kind of identity is a type of its own, so that an address of one
//! kind cannot stand where another is meant. All of them are ordered
//! lexicographically by their bytes.

use vstd::prelude::*;

use crate::order::{
    bytes_equal, bytes_precede, lemma_lex_connected, lemma_lex_irreflexive, lemma_lex_transitive,
    lex_before, Key,
};

verus! {

/// The identity of one drive.
#[derive(Debug, Clone, Copy, PartialEq, Eq, Hash)]
pub struct DriveId {
    bytes: [u8; 32],
}

impl View for DriveId {
    type V = Seq<u8>;

    closed spec fn view(&self) -> Seq<u8> {
        self.bytes@
    }
}

impl DriveId {
    pub fn from_bytes(bytes: [u8; 32]) -> (id: Self)
        ensures
            id@ == bytes@,
    {
        DriveId { bytes }
    }

    pub fn as_bytes(&self) -> (bytes: &[u8; 32])
        ensures
            bytes@ == self@,
    {
        &self.bytes
    }

    /// An identity is its bytes: there are thirty-two of them, and they
    /// tell it apart from every other identity of its kind.
    pub proof fn lemma_bytes(a: Self, b: Self)
        ensures
            a@.len() == 32,
            a@ == b@ ==> a == b,
    {
        if a@ == b@ {
            assert forall|i: int| 0 <= i < 32 implies a.bytes[i] == b.bytes[i] by {
                assert(a@[i] == b@[i]);
            }
            assert(a.bytes =~= b.bytes);
        }
    }
}

impl Key for DriveId {
    type Model = DriveId;

    open spec fn model(&self) -> DriveId {
        *self
    }

    open spec fn before(a: DriveId, b: DriveId) -> bool {
        lex_before(a@, b@)
    }

    proof fn irreflexive(a: DriveId) {
        lemma_lex_irreflexive(a@);
    }

    proof fn transitive(a: DriveId, b: DriveId, c: DriveId) {
        lemma_lex_transitive(a@, b@, c@);
    }

    proof fn connected(a: DriveId, b: DriveId) {
        lemma_lex_connected(a@, b@);
        DriveId::lemma_bytes(a, b);
    }

    fn precedes(&self, other: &Self) -> (b: bool) {
        bytes_precede(self.bytes.as_slice(), other.bytes.as_slice())
    }

    fn same(&self, other: &Self) -> (b: bool) {
        proof {
            DriveId::lemma_bytes(*self, *other);
        }
        bytes_equal(self.bytes.as_slice(), other.bytes.as_slice())
    }
}

/// A device's identity: its x-only secp256k1 public key.
#[derive(Debug, Clone, Copy, PartialEq, Eq, Hash)]
pub struct DeviceId {
    bytes: [u8; 32],
}

impl View for DeviceId {
    type V = Seq<u8>;

    closed spec fn view(&self) -> Seq<u8> {
        self.bytes@
    }
}

impl DeviceId {
    pub fn from_bytes(bytes: [u8; 32]) -> (id: Self)
        ensures
            id@ == bytes@,
    {
        DeviceId { bytes }
    }

    pub fn as_bytes(&self) -> (bytes: &[u8; 32])
        ensures
            bytes@ == self@,
    {
        &self.bytes
    }

    /// An identity is its bytes: there are thirty-two of them, and they
    /// tell it apart from every other identity of its kind.
    pub proof fn lemma_bytes(a: Self, b: Self)
        ensures
            a@.len() == 32,
            a@ == b@ ==> a == b,
    {
        if a@ == b@ {
            assert forall|i: int| 0 <= i < 32 implies a.bytes[i] == b.bytes[i] by {
                assert(a@[i] == b@[i]);
            }
            assert(a.bytes =~= b.bytes);
        }
    }
}

impl Key for DeviceId {
    type Model = DeviceId;

    open spec fn model(&self) -> DeviceId {
        *self
    }

    open spec fn before(a: DeviceId, b: DeviceId) -> bool {
        lex_before(a@, b@)
    }

    proof fn irreflexive(a: DeviceId) {
        lemma_lex_irreflexive(a@);
    }

    proof fn transitive(a: DeviceId, b: DeviceId, c: DeviceId) {
        lemma_lex_transitive(a@, b@, c@);
    }

    proof fn connected(a: DeviceId, b: DeviceId) {
        lemma_lex_connected(a@, b@);
        DeviceId::lemma_bytes(a, b);
    }

    fn precedes(&self, other: &Self) -> (b: bool) {
        bytes_precede(self.bytes.as_slice(), other.bytes.as_slice())
    }

    fn same(&self, other: &Self) -> (b: bool) {
        proof {
            DeviceId::lemma_bytes(*self, *other);
        }
        bytes_equal(self.bytes.as_slice(), other.bytes.as_slice())
    }
}

/// The content address of a snapshot body.
#[derive(Debug, Clone, Copy, PartialEq, Eq, Hash)]
pub struct SnapshotId {
    bytes: [u8; 32],
}

impl View for SnapshotId {
    type V = Seq<u8>;

    closed spec fn view(&self) -> Seq<u8> {
        self.bytes@
    }
}

impl SnapshotId {
    pub fn from_bytes(bytes: [u8; 32]) -> (id: Self)
        ensures
            id@ == bytes@,
    {
        SnapshotId { bytes }
    }

    pub fn as_bytes(&self) -> (bytes: &[u8; 32])
        ensures
            bytes@ == self@,
    {
        &self.bytes
    }

    /// An identity is its bytes: there are thirty-two of them, and they
    /// tell it apart from every other identity of its kind.
    pub proof fn lemma_bytes(a: Self, b: Self)
        ensures
            a@.len() == 32,
            a@ == b@ ==> a == b,
    {
        if a@ == b@ {
            assert forall|i: int| 0 <= i < 32 implies a.bytes[i] == b.bytes[i] by {
                assert(a@[i] == b@[i]);
            }
            assert(a.bytes =~= b.bytes);
        }
    }
}

impl Key for SnapshotId {
    type Model = SnapshotId;

    open spec fn model(&self) -> SnapshotId {
        *self
    }

    open spec fn before(a: SnapshotId, b: SnapshotId) -> bool {
        lex_before(a@, b@)
    }

    proof fn irreflexive(a: SnapshotId) {
        lemma_lex_irreflexive(a@);
    }

    proof fn transitive(a: SnapshotId, b: SnapshotId, c: SnapshotId) {
        lemma_lex_transitive(a@, b@, c@);
    }

    proof fn connected(a: SnapshotId, b: SnapshotId) {
        lemma_lex_connected(a@, b@);
        SnapshotId::lemma_bytes(a, b);
    }

    fn precedes(&self, other: &Self) -> (b: bool) {
        bytes_precede(self.bytes.as_slice(), other.bytes.as_slice())
    }

    fn same(&self, other: &Self) -> (b: bool) {
        proof {
            SnapshotId::lemma_bytes(*self, *other);
        }
        bytes_equal(self.bytes.as_slice(), other.bytes.as_slice())
    }
}

/// The content address of a plaintext object.
#[derive(Debug, Clone, Copy, PartialEq, Eq, Hash)]
pub struct ContentId {
    bytes: [u8; 32],
}

impl View for ContentId {
    type V = Seq<u8>;

    closed spec fn view(&self) -> Seq<u8> {
        self.bytes@
    }
}

impl ContentId {
    pub fn from_bytes(bytes: [u8; 32]) -> (id: Self)
        ensures
            id@ == bytes@,
    {
        ContentId { bytes }
    }

    pub fn as_bytes(&self) -> (bytes: &[u8; 32])
        ensures
            bytes@ == self@,
    {
        &self.bytes
    }

    /// An identity is its bytes: there are thirty-two of them, and they
    /// tell it apart from every other identity of its kind.
    pub proof fn lemma_bytes(a: Self, b: Self)
        ensures
            a@.len() == 32,
            a@ == b@ ==> a == b,
    {
        if a@ == b@ {
            assert forall|i: int| 0 <= i < 32 implies a.bytes[i] == b.bytes[i] by {
                assert(a@[i] == b@[i]);
            }
            assert(a.bytes =~= b.bytes);
        }
    }
}

impl Key for ContentId {
    type Model = ContentId;

    open spec fn model(&self) -> ContentId {
        *self
    }

    open spec fn before(a: ContentId, b: ContentId) -> bool {
        lex_before(a@, b@)
    }

    proof fn irreflexive(a: ContentId) {
        lemma_lex_irreflexive(a@);
    }

    proof fn transitive(a: ContentId, b: ContentId, c: ContentId) {
        lemma_lex_transitive(a@, b@, c@);
    }

    proof fn connected(a: ContentId, b: ContentId) {
        lemma_lex_connected(a@, b@);
        ContentId::lemma_bytes(a, b);
    }

    fn precedes(&self, other: &Self) -> (b: bool) {
        bytes_precede(self.bytes.as_slice(), other.bytes.as_slice())
    }

    fn same(&self, other: &Self) -> (b: bool) {
        proof {
            ContentId::lemma_bytes(*self, *other);
        }
        bytes_equal(self.bytes.as_slice(), other.bytes.as_slice())
    }
}

/// The address of one sealed representation.
#[derive(Debug, Clone, Copy, PartialEq, Eq, Hash)]
pub struct StorageId {
    bytes: [u8; 32],
}

impl View for StorageId {
    type V = Seq<u8>;

    closed spec fn view(&self) -> Seq<u8> {
        self.bytes@
    }
}

impl StorageId {
    pub fn from_bytes(bytes: [u8; 32]) -> (id: Self)
        ensures
            id@ == bytes@,
    {
        StorageId { bytes }
    }

    pub fn as_bytes(&self) -> (bytes: &[u8; 32])
        ensures
            bytes@ == self@,
    {
        &self.bytes
    }

    /// An identity is its bytes: there are thirty-two of them, and they
    /// tell it apart from every other identity of its kind.
    pub proof fn lemma_bytes(a: Self, b: Self)
        ensures
            a@.len() == 32,
            a@ == b@ ==> a == b,
    {
        if a@ == b@ {
            assert forall|i: int| 0 <= i < 32 implies a.bytes[i] == b.bytes[i] by {
                assert(a@[i] == b@[i]);
            }
            assert(a.bytes =~= b.bytes);
        }
    }
}

impl Key for StorageId {
    type Model = StorageId;

    open spec fn model(&self) -> StorageId {
        *self
    }

    open spec fn before(a: StorageId, b: StorageId) -> bool {
        lex_before(a@, b@)
    }

    proof fn irreflexive(a: StorageId) {
        lemma_lex_irreflexive(a@);
    }

    proof fn transitive(a: StorageId, b: StorageId, c: StorageId) {
        lemma_lex_transitive(a@, b@, c@);
    }

    proof fn connected(a: StorageId, b: StorageId) {
        lemma_lex_connected(a@, b@);
        StorageId::lemma_bytes(a, b);
    }

    fn precedes(&self, other: &Self) -> (b: bool) {
        bytes_precede(self.bytes.as_slice(), other.bytes.as_slice())
    }

    fn same(&self, other: &Self) -> (b: bool) {
        proof {
            StorageId::lemma_bytes(*self, *other);
        }
        bytes_equal(self.bytes.as_slice(), other.bytes.as_slice())
    }
}

/// The transport root of one representation: the address under which
/// its bytes travel.
#[derive(Debug, Clone, Copy, PartialEq, Eq, Hash)]
pub struct BaoRoot {
    bytes: [u8; 32],
}

impl View for BaoRoot {
    type V = Seq<u8>;

    closed spec fn view(&self) -> Seq<u8> {
        self.bytes@
    }
}

impl BaoRoot {
    pub fn from_bytes(bytes: [u8; 32]) -> (id: Self)
        ensures
            id@ == bytes@,
    {
        BaoRoot { bytes }
    }

    pub fn as_bytes(&self) -> (bytes: &[u8; 32])
        ensures
            bytes@ == self@,
    {
        &self.bytes
    }

    /// An identity is its bytes: there are thirty-two of them, and they
    /// tell it apart from every other identity of its kind.
    pub proof fn lemma_bytes(a: Self, b: Self)
        ensures
            a@.len() == 32,
            a@ == b@ ==> a == b,
    {
        if a@ == b@ {
            assert forall|i: int| 0 <= i < 32 implies a.bytes[i] == b.bytes[i] by {
                assert(a@[i] == b@[i]);
            }
            assert(a.bytes =~= b.bytes);
        }
    }
}

impl Key for BaoRoot {
    type Model = BaoRoot;

    open spec fn model(&self) -> BaoRoot {
        *self
    }

    open spec fn before(a: BaoRoot, b: BaoRoot) -> bool {
        lex_before(a@, b@)
    }

    proof fn irreflexive(a: BaoRoot) {
        lemma_lex_irreflexive(a@);
    }

    proof fn transitive(a: BaoRoot, b: BaoRoot, c: BaoRoot) {
        lemma_lex_transitive(a@, b@, c@);
    }

    proof fn connected(a: BaoRoot, b: BaoRoot) {
        lemma_lex_connected(a@, b@);
        BaoRoot::lemma_bytes(a, b);
    }

    fn precedes(&self, other: &Self) -> (b: bool) {
        bytes_precede(self.bytes.as_slice(), other.bytes.as_slice())
    }

    fn same(&self, other: &Self) -> (b: bool) {
        proof {
            BaoRoot::lemma_bytes(*self, *other);
        }
        bytes_equal(self.bytes.as_slice(), other.bytes.as_slice())
    }
}

/// The identity of a membership transition.
#[derive(Debug, Clone, Copy, PartialEq, Eq, Hash)]
pub struct TransitionId {
    bytes: [u8; 32],
}

impl View for TransitionId {
    type V = Seq<u8>;

    closed spec fn view(&self) -> Seq<u8> {
        self.bytes@
    }
}

impl TransitionId {
    pub fn from_bytes(bytes: [u8; 32]) -> (id: Self)
        ensures
            id@ == bytes@,
    {
        TransitionId { bytes }
    }

    pub fn as_bytes(&self) -> (bytes: &[u8; 32])
        ensures
            bytes@ == self@,
    {
        &self.bytes
    }

    /// An identity is its bytes: there are thirty-two of them, and they
    /// tell it apart from every other identity of its kind.
    pub proof fn lemma_bytes(a: Self, b: Self)
        ensures
            a@.len() == 32,
            a@ == b@ ==> a == b,
    {
        if a@ == b@ {
            assert forall|i: int| 0 <= i < 32 implies a.bytes[i] == b.bytes[i] by {
                assert(a@[i] == b@[i]);
            }
            assert(a.bytes =~= b.bytes);
        }
    }
}

impl Key for TransitionId {
    type Model = TransitionId;

    open spec fn model(&self) -> TransitionId {
        *self
    }

    open spec fn before(a: TransitionId, b: TransitionId) -> bool {
        lex_before(a@, b@)
    }

    proof fn irreflexive(a: TransitionId) {
        lemma_lex_irreflexive(a@);
    }

    proof fn transitive(a: TransitionId, b: TransitionId, c: TransitionId) {
        lemma_lex_transitive(a@, b@, c@);
    }

    proof fn connected(a: TransitionId, b: TransitionId) {
        lemma_lex_connected(a@, b@);
        TransitionId::lemma_bytes(a, b);
    }

    fn precedes(&self, other: &Self) -> (b: bool) {
        bytes_precede(self.bytes.as_slice(), other.bytes.as_slice())
    }

    fn same(&self, other: &Self) -> (b: bool) {
        proof {
            TransitionId::lemma_bytes(*self, *other);
        }
        bytes_equal(self.bytes.as_slice(), other.bytes.as_slice())
    }
}

/// The identity of one control message.
#[derive(Debug, Clone, Copy, PartialEq, Eq, Hash)]
pub struct ControlMessageId {
    bytes: [u8; 32],
}

impl View for ControlMessageId {
    type V = Seq<u8>;

    closed spec fn view(&self) -> Seq<u8> {
        self.bytes@
    }
}

impl ControlMessageId {
    pub fn from_bytes(bytes: [u8; 32]) -> (id: Self)
        ensures
            id@ == bytes@,
    {
        ControlMessageId { bytes }
    }

    pub fn as_bytes(&self) -> (bytes: &[u8; 32])
        ensures
            bytes@ == self@,
    {
        &self.bytes
    }

    /// An identity is its bytes: there are thirty-two of them, and they
    /// tell it apart from every other identity of its kind.
    pub proof fn lemma_bytes(a: Self, b: Self)
        ensures
            a@.len() == 32,
            a@ == b@ ==> a == b,
    {
        if a@ == b@ {
            assert forall|i: int| 0 <= i < 32 implies a.bytes[i] == b.bytes[i] by {
                assert(a@[i] == b@[i]);
            }
            assert(a.bytes =~= b.bytes);
        }
    }
}

impl Key for ControlMessageId {
    type Model = ControlMessageId;

    open spec fn model(&self) -> ControlMessageId {
        *self
    }

    open spec fn before(a: ControlMessageId, b: ControlMessageId) -> bool {
        lex_before(a@, b@)
    }

    proof fn irreflexive(a: ControlMessageId) {
        lemma_lex_irreflexive(a@);
    }

    proof fn transitive(a: ControlMessageId, b: ControlMessageId, c: ControlMessageId) {
        lemma_lex_transitive(a@, b@, c@);
    }

    proof fn connected(a: ControlMessageId, b: ControlMessageId) {
        lemma_lex_connected(a@, b@);
        ControlMessageId::lemma_bytes(a, b);
    }

    fn precedes(&self, other: &Self) -> (b: bool) {
        bytes_precede(self.bytes.as_slice(), other.bytes.as_slice())
    }

    fn same(&self, other: &Self) -> (b: bool) {
        proof {
            ControlMessageId::lemma_bytes(*self, *other);
        }
        bytes_equal(self.bytes.as_slice(), other.bytes.as_slice())
    }
}

/// The identity of one sealed capability delivery.
#[derive(Debug, Clone, Copy, PartialEq, Eq, Hash)]
pub struct SealedCapabilityFactId {
    bytes: [u8; 32],
}

impl View for SealedCapabilityFactId {
    type V = Seq<u8>;

    closed spec fn view(&self) -> Seq<u8> {
        self.bytes@
    }
}

impl SealedCapabilityFactId {
    pub fn from_bytes(bytes: [u8; 32]) -> (id: Self)
        ensures
            id@ == bytes@,
    {
        SealedCapabilityFactId { bytes }
    }

    pub fn as_bytes(&self) -> (bytes: &[u8; 32])
        ensures
            bytes@ == self@,
    {
        &self.bytes
    }

    /// An identity is its bytes: there are thirty-two of them, and they
    /// tell it apart from every other identity of its kind.
    pub proof fn lemma_bytes(a: Self, b: Self)
        ensures
            a@.len() == 32,
            a@ == b@ ==> a == b,
    {
        if a@ == b@ {
            assert forall|i: int| 0 <= i < 32 implies a.bytes[i] == b.bytes[i] by {
                assert(a@[i] == b@[i]);
            }
            assert(a.bytes =~= b.bytes);
        }
    }
}

impl Key for SealedCapabilityFactId {
    type Model = SealedCapabilityFactId;

    open spec fn model(&self) -> SealedCapabilityFactId {
        *self
    }

    open spec fn before(a: SealedCapabilityFactId, b: SealedCapabilityFactId) -> bool {
        lex_before(a@, b@)
    }

    proof fn irreflexive(a: SealedCapabilityFactId) {
        lemma_lex_irreflexive(a@);
    }

    proof fn transitive(a: SealedCapabilityFactId, b: SealedCapabilityFactId, c: SealedCapabilityFactId) {
        lemma_lex_transitive(a@, b@, c@);
    }

    proof fn connected(a: SealedCapabilityFactId, b: SealedCapabilityFactId) {
        lemma_lex_connected(a@, b@);
        SealedCapabilityFactId::lemma_bytes(a, b);
    }

    fn precedes(&self, other: &Self) -> (b: bool) {
        bytes_precede(self.bytes.as_slice(), other.bytes.as_slice())
    }

    fn same(&self, other: &Self) -> (b: bool) {
        proof {
            SealedCapabilityFactId::lemma_bytes(*self, *other);
        }
        bytes_equal(self.bytes.as_slice(), other.bytes.as_slice())
    }
}

} // verus!
