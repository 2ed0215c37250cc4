//! Sealed objects and the verification of manifest entries.
//!
//! Every object that a vault stores is an [`EncryptedObject`]: version,
//! kind, nonce and ciphertext, sealed with XChaCha20-Poly1305. The
//! associated data binds version, kind and content id, so an envelope can
//! only be opened as the content it was sealed for. The sealed bytes carry
//! neither the content id nor any path.
//!
//! How content and storage ids are derived, how manifests are written and
//! which byte stands for which kind belongs to the object format. Callers
//! hand these in: the kind bytes as [`KindBytes`], the derivations as
//! functions.

use vstd::prelude::*;

use chacha20poly1305::aead::{Aead, KeyInit, Payload};
use chacha20poly1305::XChaCha20Poly1305;

use crate::ids::{BaoRoot, ContentId, StorageId};
use crate::model::{Manifest, ManifestEntry, ObjectKind};
use crate::order::Key;

verus! {

/// The only sealed-envelope version.
pub const SEAL_VERSION: u8 = 0x00;

/// Header length: version, kind and a 24-byte nonce.
pub const SEAL_HEADER_LEN: usize = 26;

/// Length of the authentication tag that ends every ciphertext.
pub const SEAL_TAG_LEN: usize = 16;

/// Most bytes of plaintext in one envelope: as many blocks of 64 bytes as
/// the cipher's 32-bit counter numbers after the first, which makes the key
/// of the tag.
pub const MAX_SEAL_PLAINTEXT: u64 = 274_877_906_816;

/// Most bytes of ciphertext in one envelope: the plaintext and a tag.
pub const MAX_SEAL_CIPHERTEXT: u64 = 274_877_906_832;

/// Why sealing or opening failed.
#[derive(Debug, Clone, Copy, PartialEq, Eq, Structural)]
pub enum CryptoError {
    /// The bytes are not a sealed envelope of the current version.
    Malformed,
    /// The plaintext does not hash to the named content.
    IdentityMismatch,
    /// No randomness, or a plaintext that the cipher cannot take.
    RngFailed,
    /// The authentication tag does not verify.
    OpenFailed,
    /// The envelope is not the one that the entry describes.
    HeaderMismatch,
}

/// Why opening a sealed manifest failed.
#[derive(Debug, Clone, Copy, PartialEq, Eq, Structural)]
pub enum SealError {
    Crypto(CryptoError),
    /// The opened bytes are not a canonical manifest.
    Manifest,
}

/// The byte that stands for each kind of object in an envelope.
#[derive(Debug, Clone, Copy, PartialEq, Eq)]
pub struct KindBytes {
    chunk: u8,
    tree: u8,
    snapshot: u8,
    manifest: u8,
}

impl KindBytes {
    /// No byte stands for two kinds.
    pub closed spec fn wf(&self) -> bool {
        &&& self.chunk != self.tree
        &&& self.chunk != self.snapshot
        &&& self.chunk != self.manifest
        &&& self.tree != self.snapshot
        &&& self.tree != self.manifest
        &&& self.snapshot != self.manifest
    }

    pub closed spec fn spec_byte(&self, kind: ObjectKind) -> u8 {
        match kind {
            ObjectKind::Chunk => self.chunk,
            ObjectKind::Tree => self.tree,
            ObjectKind::Snapshot => self.snapshot,
            ObjectKind::Manifest => self.manifest,
        }
    }

    /// The table that gives each kind its byte, or nothing when two kinds
    /// would share one.
    pub fn new(chunk: u8, tree: u8, snapshot: u8, manifest: u8) -> (r: Option<Self>)
        ensures
            r is Some <==> chunk != tree && chunk != snapshot && chunk != manifest && tree
                != snapshot && tree != manifest && snapshot != manifest,
            r matches Some(k) ==> k.wf() && k.spec_byte(ObjectKind::Chunk) == chunk && k.spec_byte(
                ObjectKind::Tree,
            ) == tree && k.spec_byte(ObjectKind::Snapshot) == snapshot && k.spec_byte(
                ObjectKind::Manifest,
            ) == manifest,
    {
        if chunk != tree && chunk != snapshot && chunk != manifest && tree != snapshot && tree
            != manifest && snapshot != manifest {
            Some(KindBytes { chunk, tree, snapshot, manifest })
        } else {
            None
        }
    }

    pub fn byte(&self, kind: ObjectKind) -> (b: u8)
        ensures
            b == self.spec_byte(kind),
    {
        match kind {
            ObjectKind::Chunk => self.chunk,
            ObjectKind::Tree => self.tree,
            ObjectKind::Snapshot => self.snapshot,
            ObjectKind::Manifest => self.manifest,
        }
    }

    /// The kind that a byte stands for, if it stands for one.
    pub fn kind(&self, byte: u8) -> (r: Option<ObjectKind>)
        requires
            self.wf(),
        ensures
            match r {
                Some(kind) => self.spec_byte(kind) == byte,
                None => forall|kind: ObjectKind| self.spec_byte(kind) != byte,
            },
    {
        if byte == self.chunk {
            Some(ObjectKind::Chunk)
        } else if byte == self.tree {
            Some(ObjectKind::Tree)
        } else if byte == self.snapshot {
            Some(ObjectKind::Snapshot)
        } else if byte == self.manifest {
            Some(ObjectKind::Manifest)
        } else {
            None
        }
    }

    /// Different kinds have different bytes.
    pub proof fn lemma_injective(&self, a: ObjectKind, b: ObjectKind)
        requires
            self.wf(),
            self.spec_byte(a) == self.spec_byte(b),
        ensures
            a == b,
    {
    }
}

/// A sealed, vault-storable object.
#[derive(Debug, PartialEq, Eq)]
pub struct EncryptedObject {
    pub version: u8,
    pub kind: ObjectKind,
    pub nonce: [u8; 24],
    pub ciphertext: Vec<u8>,
}

/// The mathematical value of an [`EncryptedObject`].
#[verifier::ext_equal]
pub struct EnvelopeModel {
    pub version: u8,
    pub kind: ObjectKind,
    pub nonce: Seq<u8>,
    pub ciphertext: Seq<u8>,
}

impl EnvelopeModel {
    /// The canonical sealed bytes: version, kind, nonce, ciphertext.
    pub open spec fn bytes(self, kinds: &KindBytes) -> Seq<u8> {
        seq![self.version, kinds.spec_byte(self.kind)] + self.nonce + self.ciphertext
    }
}

/// The envelope that sealed bytes spell out, if they spell one out.
pub open spec fn parse(kinds: &KindBytes, bytes: Seq<u8>) -> Option<EnvelopeModel> {
    if bytes.len() < SEAL_HEADER_LEN + SEAL_TAG_LEN {
        None
    } else if exists|kind: ObjectKind| kinds.spec_byte(kind) == bytes[1] {
        Some(
            EnvelopeModel {
                version: bytes[0],
                kind: choose|kind: ObjectKind| kinds.spec_byte(kind) == bytes[1],
                nonce: bytes.subrange(2, SEAL_HEADER_LEN as int),
                ciphertext: bytes.skip(SEAL_HEADER_LEN as int),
            },
        )
    } else {
        None
    }
}

impl View for EncryptedObject {
    type V = EnvelopeModel;

    open spec fn view(&self) -> EnvelopeModel {
        EnvelopeModel {
            version: self.version,
            kind: self.kind,
            nonce: self.nonce@,
            ciphertext: self.ciphertext@,
        }
    }
}

impl EncryptedObject {
    /// The canonical sealed bytes.
    pub fn encode(&self, kinds: &KindBytes) -> (out: Vec<u8>)
        ensures
            out@ == self@.bytes(kinds),
    {
        let mut out: Vec<u8> = Vec::new();
        out.push(self.version);
        out.push(kinds.byte(self.kind));
        out.extend_from_slice(self.nonce.as_slice());
        out.extend_from_slice(self.ciphertext.as_slice());
        proof {
            assert(out@ =~= self@.bytes(kinds));
        }
        out
    }

    /// Parses sealed bytes. Bytes too short for a header and a tag, and
    /// kinds that no byte stands for, are refused.
    pub fn decode(bytes: &[u8], kinds: &KindBytes) -> (r: Result<Self, CryptoError>)
        requires
            kinds.wf(),
        ensures
            match parse(kinds, bytes@) {
                Some(model) => r matches Ok(obj) && obj@ == model,
                None => r == Err::<EncryptedObject, CryptoError>(CryptoError::Malformed),
            },
    {
        if bytes.len() < SEAL_HEADER_LEN + SEAL_TAG_LEN {
            return Err(CryptoError::Malformed);
        }
        let kind: ObjectKind = match kinds.kind(bytes[1]) {
            Some(kind) => kind,
            None => {
                return Err(CryptoError::Malformed);
            },
        };
        let mut nonce: [u8; 24] = [0u8;24];
        let mut i: usize = 0;
        while i < 24
            invariant
                i <= 24,
                bytes@.len() >= SEAL_HEADER_LEN + SEAL_TAG_LEN,
                forall|j: int| 0 <= j < i ==> nonce@[j] == bytes@[j + 2],
            decreases 24 - i,
        {
            nonce[i] = bytes[i + 2];
            i = i + 1;
        }
        let ciphertext: Vec<u8> = vstd::slice::slice_to_vec(
            vstd::slice::slice_subrange(bytes, SEAL_HEADER_LEN, bytes.len()),
        );
        let obj = EncryptedObject { version: bytes[0], kind, nonce, ciphertext };
        proof {
            assert(kinds.spec_byte(kind) == bytes@[1]);
            let chosen = choose|k: ObjectKind| kinds.spec_byte(k) == bytes@[1];
            kinds.lemma_injective(kind, chosen);
            assert(obj@ =~= parse(kinds, bytes@)->0);
        }
        Ok(obj)
    }
}

/// The associated data of an envelope: version, kind, content id.
pub open spec fn aad(kinds: &KindBytes, version: u8, kind: ObjectKind, content: ContentId) -> Seq<
    u8,
> {
    seq![version, kinds.spec_byte(kind)] + content@
}

fn seal_aad(kinds: &KindBytes, version: u8, kind: ObjectKind, content_id: &ContentId) -> (r: Vec<
    u8,
>)
    ensures
        r@ == aad(kinds, version, kind, *content_id),
{
    let mut r: Vec<u8> = Vec::new();
    r.push(version);
    r.push(kinds.byte(kind));
    r.extend_from_slice(content_id.as_bytes().as_slice());
    proof {
        assert(r@ =~= aad(kinds, version, kind, *content_id));
    }
    r
}

/// What XChaCha20-Poly1305 makes of a plaintext.
pub uninterp spec fn aead_sealed(
    key: Seq<u8>,
    nonce: Seq<u8>,
    aad: Seq<u8>,
    plaintext: Seq<u8>,
) -> Seq<u8>;

/// What XChaCha20-Poly1305 finds in a ciphertext: the plaintext, or nothing
/// when the tag does not verify.
pub uninterp spec fn aead_opened(
    key: Seq<u8>,
    nonce: Seq<u8>,
    aad: Seq<u8>,
    ciphertext: Seq<u8>,
) -> Option<Seq<u8>>;

/// Whether the cipher's block counter reaches to the end of a plaintext.
pub open spec fn sealable(plaintext: Seq<u8>) -> bool {
    plaintext.len() <= MAX_SEAL_PLAINTEXT
}

/// `chacha20poly1305::XChaCha20Poly1305::encrypt`: encrypts every plaintext
/// whose blocks its counter can number. The ciphertext is a tag longer than
/// the plaintext, and decrypting it under the same key, nonce and
/// associated data gives the plaintext back.
#[verifier::external_body]
fn aead_encrypt(key: &[u8; 32], nonce: &[u8; 24], aad: &[u8], plaintext: &[u8]) -> (r: Option<
    Vec<u8>,
>)
    requires
        plaintext@.len() <= MAX_SEAL_PLAINTEXT,
        plaintext@.len() + SEAL_TAG_LEN <= isize::MAX,
    ensures
        r is Some,
        r matches Some(c) ==> c@ == aead_sealed(key@, nonce@, aad@, plaintext@) && c@.len()
            == plaintext@.len() + SEAL_TAG_LEN && aead_opened(key@, nonce@, aad@, c@) == Some(
            plaintext@,
        ),
{
    XChaCha20Poly1305::new(chacha20poly1305::Key::from_slice(key)).encrypt(
        chacha20poly1305::XNonce::from_slice(nonce),
        Payload { msg: plaintext, aad },
    ).ok()
}

/// `chacha20poly1305::XChaCha20Poly1305::decrypt`: the plaintext of a
/// ciphertext whose tag verifies over the associated data.
#[verifier::external_body]
fn aead_decrypt(key: &[u8; 32], nonce: &[u8; 24], aad: &[u8], ciphertext: &[u8]) -> (r: Option<
    Vec<u8>,
>)
    requires
        ciphertext@.len() <= MAX_SEAL_CIPHERTEXT,
    ensures
        match r {
            Some(p) => aead_opened(key@, nonce@, aad@, ciphertext@) == Some(p@),
            None => aead_opened(key@, nonce@, aad@, ciphertext@) is None,
        },
{
    XChaCha20Poly1305::new(chacha20poly1305::Key::from_slice(key)).decrypt(
        chacha20poly1305::XNonce::from_slice(nonce),
        Payload { msg: ciphertext, aad },
    ).ok()
}

/// Whether a derivation can give this id to these bytes.
pub open spec fn hashes<D: Fn(ObjectKind, &Vec<u8>) -> ContentId>(
    derive: D,
    kind: ObjectKind,
    bytes: Seq<u8>,
    id: ContentId,
) -> bool {
    exists|v: Vec<u8>| v@ == bytes && #[trigger] call_ensures(derive, (kind, &v), id)
}

/// Whether a derivation can give another id to these bytes.
pub open spec fn mismatches<D: Fn(ObjectKind, &Vec<u8>) -> ContentId>(
    derive: D,
    kind: ObjectKind,
    bytes: Seq<u8>,
    id: ContentId,
) -> bool {
    exists|other: ContentId| other != id && #[trigger] hashes(derive, kind, bytes, other)
}

/// Whether a derivation answers for all bytes.
pub open spec fn derives<D: Fn(ObjectKind, &Vec<u8>) -> ContentId>(derive: D) -> bool {
    forall|kind: ObjectKind, v: Vec<u8>| #[trigger] call_requires(derive, (kind, &v))
}

/// An envelope that seals a plaintext under a key as some content.
pub open spec fn seals(
    kinds: &KindBytes,
    key: Seq<u8>,
    kind: ObjectKind,
    content: ContentId,
    nonce: Seq<u8>,
    plaintext: Seq<u8>,
    obj: EnvelopeModel,
) -> bool {
    let bound = aad(kinds, SEAL_VERSION, kind, content);
    &&& sealable(plaintext)
    &&& obj.version == SEAL_VERSION
    &&& obj.kind == kind
    &&& obj.nonce == nonce
    &&& obj.ciphertext == aead_sealed(key, nonce, bound, plaintext)
    &&& obj.ciphertext.len() == plaintext.len() + SEAL_TAG_LEN
    &&& aead_opened(key, nonce, bound, obj.ciphertext) == Some(plaintext)
}

/// What an envelope holds when it is opened as some content, before the
/// content itself is checked.
pub open spec fn unsealed(
    kinds: &KindBytes,
    key: Seq<u8>,
    content: ContentId,
    obj: EnvelopeModel,
) -> Result<Seq<u8>, CryptoError> {
    if obj.version != SEAL_VERSION {
        Err(CryptoError::Malformed)
    } else if obj.ciphertext.len() > MAX_SEAL_CIPHERTEXT {
        Err(CryptoError::OpenFailed)
    } else {
        match aead_opened(
            key,
            obj.nonce,
            aad(kinds, obj.version, obj.kind, content),
            obj.ciphertext,
        ) {
            Some(plaintext) => Ok(plaintext),
            None => Err(CryptoError::OpenFailed),
        }
    }
}

/// What opening an envelope as some content gives: nothing but the
/// plaintext that hashes to that content.
pub open spec fn opens<D: Fn(ObjectKind, &Vec<u8>) -> ContentId>(
    kinds: &KindBytes,
    key: Seq<u8>,
    expected: ContentId,
    obj: EnvelopeModel,
    derive: D,
    r: Result<Seq<u8>, CryptoError>,
) -> bool {
    match unsealed(kinds, key, expected, obj) {
        Err(e) => r == Err::<Seq<u8>, CryptoError>(e),
        Ok(plaintext) => match r {
            Ok(p) => p == plaintext && hashes(derive, obj.kind, plaintext, expected),
            Err(e) => e == CryptoError::IdentityMismatch && mismatches(
                derive,
                obj.kind,
                plaintext,
                expected,
            ),
        },
    }
}

/// A result, with its bytes taken by their view.
pub open spec fn seen<E>(r: Result<Vec<u8>, E>) -> Result<Seq<u8>, E> {
    match r {
        Ok(bytes) => Ok(bytes@),
        Err(e) => Err(e),
    }
}

/// Seals a plaintext under a nonce, bound to the content that it is.
fn seal_bound(
    kinds: &KindBytes,
    key: &[u8; 32],
    kind: ObjectKind,
    content_id: &ContentId,
    nonce: Option<[u8; 24]>,
    plaintext: &[u8],
) -> (r: Result<EncryptedObject, CryptoError>)
    requires
        plaintext@.len() + SEAL_TAG_LEN <= isize::MAX,
    ensures
        match r {
            Ok(obj) => {
                &&& nonce matches Some(n)
                &&& seals(kinds, key@, kind, *content_id, n@, plaintext@, obj@)
            },
            Err(e) => e == CryptoError::RngFailed && (nonce is None || !sealable(plaintext@)),
        },
{
    let nonce: [u8; 24] = match nonce {
        Some(nonce) => nonce,
        None => {
            return Err(CryptoError::RngFailed);
        },
    };
    if plaintext.len() as u64 > MAX_SEAL_PLAINTEXT {
        return Err(CryptoError::RngFailed);
    }
    let bound = seal_aad(kinds, SEAL_VERSION, kind, content_id);
    match aead_encrypt(key, &nonce, bound.as_slice(), plaintext) {
        Some(ciphertext) => Ok(
            EncryptedObject { version: SEAL_VERSION, kind, nonce, ciphertext },
        ),
        None => Err(CryptoError::RngFailed),
    }
}

/// Seals a plaintext under a per-epoch key and a fresh nonce; `nonce` is
/// `None` when no randomness could be had. A content id that is not the
/// plaintext's own is refused: no envelope ever names foreign content.
pub fn seal<D: Fn(ObjectKind, &Vec<u8>) -> ContentId>(
    kinds: &KindBytes,
    key: &[u8; 32],
    kind: ObjectKind,
    content_id: &ContentId,
    nonce: Option<[u8; 24]>,
    plaintext: &Vec<u8>,
    derive: &D,
) -> (r: Result<EncryptedObject, CryptoError>)
    requires
        derives(*derive),
        plaintext@.len() + SEAL_TAG_LEN <= isize::MAX,
    ensures
        match r {
            Ok(obj) => {
                &&& hashes(*derive, kind, plaintext@, *content_id)
                &&& nonce matches Some(n)
                &&& seals(kinds, key@, kind, *content_id, n@, plaintext@, obj@)
            },
            Err(e) => (e == CryptoError::IdentityMismatch && mismatches(
                *derive,
                kind,
                plaintext@,
                *content_id,
            )) || (e
                == CryptoError::RngFailed && hashes(*derive, kind, plaintext@, *content_id) && (
            nonce is None || !sealable(plaintext@))),
        },
{
    let derived: ContentId = derive(kind, plaintext);
    proof {
        assert(hashes(*derive, kind, plaintext@, derived));
    }
    if !derived.same(content_id) {
        return Err(CryptoError::IdentityMismatch);
    }
    seal_bound(kinds, key, kind, content_id, nonce, plaintext.as_slice())
}

/// Opens a sealed object: the version must be current, the tag must verify
/// over the associated data that names `expected`, and the plaintext must
/// hash to `expected`.
pub fn open<D: Fn(ObjectKind, &Vec<u8>) -> ContentId>(
    kinds: &KindBytes,
    key: &[u8; 32],
    expected: &ContentId,
    obj: &EncryptedObject,
    derive: &D,
) -> (r: Result<Vec<u8>, CryptoError>)
    requires
        derives(*derive),
    ensures
        opens(kinds, key@, *expected, obj@, *derive, seen(r)),
{
    if obj.version != SEAL_VERSION {
        return Err(CryptoError::Malformed);
    }
    if obj.ciphertext.len() as u64 > MAX_SEAL_CIPHERTEXT {
        return Err(CryptoError::OpenFailed);
    }
    let bound = seal_aad(kinds, obj.version, obj.kind, expected);
    let plaintext: Vec<u8> = match aead_decrypt(
        key,
        &obj.nonce,
        bound.as_slice(),
        obj.ciphertext.as_slice(),
    ) {
        Some(plaintext) => plaintext,
        None => {
            return Err(CryptoError::OpenFailed);
        },
    };
    let derived: ContentId = derive(obj.kind, &plaintext);
    proof {
        assert(unsealed(kinds, key@, *expected, obj@) == Ok::<Seq<u8>, CryptoError>(plaintext@));
        assert(hashes(*derive, obj.kind, plaintext@, derived));
    }
    if !derived.same(expected) {
        proof {
            assert(mismatches(*derive, obj.kind, plaintext@, *expected));
        }
        return Err(CryptoError::IdentityMismatch);
    }
    Ok(plaintext)
}

/// Seals a whole manifest under its snapshot's manifest key. Returns the
/// manifest's identity beside the sealed object.
pub fn seal_manifest<
    C: Fn(&Manifest) -> Vec<u8>,
    D: Fn(ObjectKind, &Vec<u8>) -> ContentId,
>(
    kinds: &KindBytes,
    manifest_key: &[u8; 32],
    manifest: &Manifest,
    nonce: Option<[u8; 24]>,
    canonical_bytes: &C,
    derive: &D,
) -> (r: Result<(ContentId, EncryptedObject), CryptoError>)
    requires
        derives(*derive),
        call_requires(*canonical_bytes, (manifest,)),
        forall|bytes: Vec<u8>| #[trigger]
            call_ensures(*canonical_bytes, (manifest,), bytes) ==> bytes@.len() + SEAL_TAG_LEN
                <= isize::MAX,
    ensures
        exists|bytes: Vec<u8>|
            {
                &&& #[trigger] call_ensures(*canonical_bytes, (manifest,), bytes)
                &&& match r {
                    Ok((id, obj)) => {
                        &&& hashes(*derive, ObjectKind::Manifest, bytes@, id)
                        &&& nonce matches Some(n)
                        &&& seals(
                            kinds,
                            manifest_key@,
                            ObjectKind::Manifest,
                            id,
                            n@,
                            bytes@,
                            obj@,
                        )
                    },
                    Err(e) => e == CryptoError::RngFailed && (nonce is None || !sealable(bytes@)),
                }
            },
{
    let plaintext: Vec<u8> = canonical_bytes(manifest);
    let content_id: ContentId = derive(ObjectKind::Manifest, &plaintext);
    proof {
        assert(hashes(*derive, ObjectKind::Manifest, plaintext@, content_id));
    }
    match seal_bound(
        kinds,
        manifest_key,
        ObjectKind::Manifest,
        &content_id,
        nonce,
        plaintext.as_slice(),
    ) {
        Ok(obj) => Ok((content_id, obj)),
        Err(e) => Err(e),
    }
}

/// What opening a sealed manifest gives: first the bytes must open as the
/// expected content, then they must parse.
pub open spec fn opens_manifest<
    D: Fn(ObjectKind, &Vec<u8>) -> ContentId,
    P: Fn(&Vec<u8>) -> Option<Manifest>,
>(
    kinds: &KindBytes,
    key: Seq<u8>,
    expected: ContentId,
    obj: EnvelopeModel,
    derive: D,
    parse_manifest: P,
    r: Result<Manifest, SealError>,
) -> bool {
    if obj.kind != ObjectKind::Manifest {
        r == Err::<Manifest, SealError>(SealError::Crypto(CryptoError::HeaderMismatch))
    } else {
        match r {
            Ok(manifest) => exists|bytes: Vec<u8>, parsed: Option<Manifest>|
                opens(kinds, key, expected, obj, derive, Ok(bytes@)) && #[trigger] call_ensures(
                    parse_manifest,
                    (&bytes,),
                    parsed,
                ) && parsed == Some(manifest),
            Err(SealError::Manifest) => exists|bytes: Vec<u8>, parsed: Option<Manifest>|
                opens(kinds, key, expected, obj, derive, Ok(bytes@)) && #[trigger] call_ensures(
                    parse_manifest,
                    (&bytes,),
                    parsed,
                ) && parsed is None,
            Err(SealError::Crypto(e)) => opens(kinds, key, expected, obj, derive, Err(e)),
        }
    }
}

/// Opens a sealed manifest: crypto first, then canonical structure.
pub fn open_manifest<
    D: Fn(ObjectKind, &Vec<u8>) -> ContentId,
    P: Fn(&Vec<u8>) -> Option<Manifest>,
>(
    kinds: &KindBytes,
    manifest_key: &[u8; 32],
    expected: &ContentId,
    obj: &EncryptedObject,
    derive: &D,
    parse_manifest: &P,
) -> (r: Result<Manifest, SealError>)
    requires
        derives(*derive),
        forall|bytes: Vec<u8>| #[trigger] call_requires(*parse_manifest, (&bytes,)),
    ensures
        opens_manifest(kinds, manifest_key@, *expected, obj@, *derive, *parse_manifest, r),
{
    if obj.kind != ObjectKind::Manifest {
        return Err(SealError::Crypto(CryptoError::HeaderMismatch));
    }
    let plaintext: Vec<u8> = match open(kinds, manifest_key, expected, obj, derive) {
        Ok(plaintext) => plaintext,
        Err(e) => {
            return Err(SealError::Crypto(e));
        },
    };
    let parsed: Option<Manifest> = parse_manifest(&plaintext);
    proof {
        assert(opens(kinds, manifest_key@, *expected, obj@, *derive, Ok(plaintext@)));
    }
    match parsed {
        Some(manifest) => Ok(manifest),
        None => Err(SealError::Manifest),
    }
}

/// Whether an addressing function can give this storage id to these bytes.
pub open spec fn addresses<A: Fn(&Vec<u8>) -> StorageId>(
    address: A,
    bytes: Seq<u8>,
    id: StorageId,
) -> bool {
    exists|v: Vec<u8>| v@ == bytes && #[trigger] call_ensures(address, (&v,), id)
}

/// Whether a transport-root function can give this root to these bytes.
pub open spec fn rooted<R: Fn(&Vec<u8>) -> BaoRoot>(
    transport_root: R,
    bytes: Seq<u8>,
    root: BaoRoot,
) -> bool {
    exists|v: Vec<u8>| v@ == bytes && #[trigger] call_ensures(transport_root, (&v,), root)
}

impl EncryptedObject {
    /// The storage address of this representation, which is that of its
    /// sealed bytes.
    pub fn storage_id<A: Fn(&Vec<u8>) -> StorageId>(&self, kinds: &KindBytes, address: &A) -> (r:
        StorageId)
        requires
            kinds.wf(),
            forall|bytes: Vec<u8>| #[trigger] call_requires(*address, (&bytes,)),
        ensures
            addresses(*address, self@.bytes(kinds), r),
    {
        let encoded: Vec<u8> = self.encode(kinds);
        address(&encoded)
    }
}

/// What the end-to-end check of a mapping gives: the plaintext, when the
/// envelope has the entry's form, header and address, opens as the entry's
/// content and has the entry's size.
pub open spec fn verifies<
    D: Fn(ObjectKind, &Vec<u8>) -> ContentId,
    A: Fn(&Vec<u8>) -> StorageId,
>(
    kinds: &KindBytes,
    entry: ManifestEntry,
    key: Seq<u8>,
    sealed: Seq<u8>,
    derive: D,
    address: A,
    r: Result<Seq<u8>, CryptoError>,
) -> bool {
    let header = Err::<Seq<u8>, CryptoError>(CryptoError::HeaderMismatch);
    match parse(kinds, sealed) {
        None => r == Err::<Seq<u8>, CryptoError>(CryptoError::Malformed),
        Some(obj) => if obj.version != entry.version || obj.kind != entry.kind {
            r == header
        } else {
            exists|id: StorageId|
                {
                    &&& #[trigger] addresses(address, obj.bytes(kinds), id)
                    &&& if id != entry.storage_id {
                        r == header
                    } else {
                        exists|opened: Result<Seq<u8>, CryptoError>|
                            {
                                &&& #[trigger] opens(
                                    kinds,
                                    key,
                                    entry.content_id,
                                    obj,
                                    derive,
                                    opened,
                                )
                                &&& r == match opened {
                                    Ok(p) => if p.len() == entry.size {
                                        opened
                                    } else {
                                        header
                                    },
                                    Err(_) => opened,
                                }
                            }
                    }
                }
        },
    }
}

/// Enforces a manifest mapping end to end and returns the verified
/// plaintext.
pub fn verify<D: Fn(ObjectKind, &Vec<u8>) -> ContentId, A: Fn(&Vec<u8>) -> StorageId>(
    kinds: &KindBytes,
    entry: &ManifestEntry,
    epoch_key: &[u8; 32],
    sealed: &[u8],
    derive: &D,
    address: &A,
) -> (r: Result<Vec<u8>, CryptoError>)
    requires
        kinds.wf(),
        derives(*derive),
        forall|bytes: Vec<u8>| #[trigger] call_requires(*address, (&bytes,)),
    ensures
        verifies(kinds, *entry, epoch_key@, sealed@, *derive, *address, seen(r)),
{
    let obj: EncryptedObject = match EncryptedObject::decode(sealed, kinds) {
        Ok(obj) => obj,
        Err(e) => {
            return Err(e);
        },
    };
    if obj.version != entry.version || obj.kind != entry.kind {
        return Err(CryptoError::HeaderMismatch);
    }
    let storage: StorageId = obj.storage_id(kinds, address);
    if !storage.same(&entry.storage_id) {
        return Err(CryptoError::HeaderMismatch);
    }
    let opened = open(kinds, epoch_key, &entry.content_id, &obj, derive);
    let ghost reading = seen(opened);
    proof {
        assert(opens(kinds, epoch_key@, entry.content_id, obj@, *derive, reading));
    }
    match opened {
        Ok(plaintext) => {
            if plaintext.len() as u64 != entry.size {
                return Err(CryptoError::HeaderMismatch);
            }
            Ok(plaintext)
        },
        Err(e) => Err(e),
    }
}

/// Builds the entry for freshly sealed content. `address` and
/// `transport_root` give the addresses of sealed bytes.
pub fn entry_for<A: Fn(&Vec<u8>) -> StorageId, R: Fn(&Vec<u8>) -> BaoRoot>(
    kinds: &KindBytes,
    kind: ObjectKind,
    version: u8,
    epoch: u64,
    obj: &EncryptedObject,
    content_id: &ContentId,
    size: u64,
    address: &A,
    transport_root: &R,
) -> (r: Result<ManifestEntry, CryptoError>)
    requires
        kinds.wf(),
        forall|bytes: Vec<u8>| #[trigger] call_requires(*address, (&bytes,)),
        forall|bytes: Vec<u8>| #[trigger] call_requires(*transport_root, (&bytes,)),
    ensures
        if version != SEAL_VERSION || obj.version != version || obj.kind != kind {
            r == Err::<ManifestEntry, CryptoError>(CryptoError::HeaderMismatch)
        } else {
            &&& r matches Ok(entry)
            &&& addresses(*address, obj@.bytes(kinds), entry.storage_id)
            &&& rooted(*transport_root, obj@.bytes(kinds), entry.transport)
            &&& entry == (ManifestEntry {
                content_id: *content_id,
                kind,
                version,
                storage_id: entry.storage_id,
                encryption_epoch: epoch,
                size,
                transport: entry.transport,
            })
        },
{
    if version != SEAL_VERSION {
        return Err(CryptoError::HeaderMismatch);
    }
    if obj.version != version || obj.kind != kind {
        return Err(CryptoError::HeaderMismatch);
    }
    let encoded: Vec<u8> = obj.encode(kinds);
    let transport: BaoRoot = transport_root(&encoded);
    proof {
        assert(rooted(*transport_root, obj@.bytes(kinds), transport));
    }
    Ok(
        ManifestEntry {
            content_id: *content_id,
            kind,
            version,
            storage_id: obj.storage_id(kinds, address),
            encryption_epoch: epoch,
            size,
            transport,
        },
    )
}

/// Parsing the canonical bytes of an envelope gives the envelope back.
pub proof fn law_envelope_round_trip(kinds: &KindBytes, obj: EnvelopeModel)
    requires
        kinds.wf(),
        obj.nonce.len() == 24,
        obj.ciphertext.len() >= SEAL_TAG_LEN,
    ensures
        parse(kinds, obj.bytes(kinds)) == Some(obj),
{
    let bytes = obj.bytes(kinds);
    assert(kinds.spec_byte(obj.kind) == bytes[1]);
    let chosen = choose|k: ObjectKind| kinds.spec_byte(k) == bytes[1];
    kinds.lemma_injective(obj.kind, chosen);
    assert(parse(kinds, bytes)->0 =~= obj);
}

/// Whatever parses was written canonically: encoding the parsed envelope
/// gives the same bytes again.
pub proof fn law_envelope_is_canonical(kinds: &KindBytes, bytes: Seq<u8>)
    requires
        kinds.wf(),
        parse(kinds, bytes) is Some,
    ensures
        (parse(kinds, bytes)->0).bytes(kinds) == bytes,
{
    assert((parse(kinds, bytes)->0).bytes(kinds) =~= bytes);
}

/// A derivation that gives the same bytes the same id every time.
pub open spec fn functional<D: Fn(ObjectKind, &Vec<u8>) -> ContentId>(derive: D) -> bool {
    forall|kind: ObjectKind, bytes: Seq<u8>, a: ContentId, b: ContentId| #[trigger]
        hashes(derive, kind, bytes, a) && #[trigger] hashes(derive, kind, bytes, b) ==> a == b
}

/// What was sealed opens again, under the same key and as the same content,
/// to the same plaintext.
pub proof fn law_sealed_objects_open<D: Fn(ObjectKind, &Vec<u8>) -> ContentId>(
    kinds: &KindBytes,
    key: Seq<u8>,
    kind: ObjectKind,
    content: ContentId,
    nonce: Seq<u8>,
    plaintext: Seq<u8>,
    obj: EnvelopeModel,
    derive: D,
    opened: Result<Seq<u8>, CryptoError>,
)
    requires
        functional(derive),
        hashes(derive, kind, plaintext, content),
        seals(kinds, key, kind, content, nonce, plaintext, obj),
        opens(kinds, key, content, obj, derive, opened),
    ensures
        opened == Ok::<Seq<u8>, CryptoError>(plaintext),
{
}

/// A sealed manifest opens again as the manifest that was sealed, as long
/// as the parser reads back what was written.
pub proof fn law_sealed_manifests_open<
    D: Fn(ObjectKind, &Vec<u8>) -> ContentId,
    P: Fn(&Vec<u8>) -> Option<Manifest>,
>(
    kinds: &KindBytes,
    key: Seq<u8>,
    manifest: Manifest,
    bytes: Seq<u8>,
    id: ContentId,
    nonce: Seq<u8>,
    obj: EnvelopeModel,
    derive: D,
    parse_manifest: P,
    opened: Result<Manifest, SealError>,
)
    requires
        functional(derive),
        forall|v: Vec<u8>, parsed: Option<Manifest>|
            v@ == bytes && #[trigger] call_ensures(parse_manifest, (&v,), parsed) ==> (
            parsed matches Some(m) && m@ == manifest@),
        hashes(derive, ObjectKind::Manifest, bytes, id),
        seals(kinds, key, ObjectKind::Manifest, id, nonce, bytes, obj),
        opens_manifest(kinds, key, id, obj, derive, parse_manifest, opened),
    ensures
        opened matches Ok(m) && m@ == manifest@,
{
}

/// The entry built for a freshly sealed object verifies under the same
/// key and gives the plaintext back.
pub proof fn law_fresh_entries_verify<
    D: Fn(ObjectKind, &Vec<u8>) -> ContentId,
    A: Fn(&Vec<u8>) -> StorageId,
>(
    kinds: &KindBytes,
    key: Seq<u8>,
    entry: ManifestEntry,
    nonce: Seq<u8>,
    plaintext: Seq<u8>,
    obj: EnvelopeModel,
    derive: D,
    address: A,
    verified: Result<Seq<u8>, CryptoError>,
)
    requires
        kinds.wf(),
        nonce.len() == 24,
        functional(derive),
        forall|bytes: Seq<u8>, a: StorageId, b: StorageId| #[trigger]
            addresses(address, bytes, a) && #[trigger] addresses(address, bytes, b) ==> a == b,
        hashes(derive, entry.kind, plaintext, entry.content_id),
        addresses(address, obj.bytes(kinds), entry.storage_id),
        entry.version == SEAL_VERSION,
        entry.size == plaintext.len(),
        seals(kinds, key, entry.kind, entry.content_id, nonce, plaintext, obj),
        verifies(kinds, entry, key, obj.bytes(kinds), derive, address, verified),
    ensures
        verified == Ok::<Seq<u8>, CryptoError>(plaintext),
{
    law_envelope_round_trip(kinds, obj);
}

/// Nothing but the entry's own content ever verifies: the plaintext hashes
/// to the content id and has the recorded size.
pub proof fn law_verified_plaintext_is_the_content<
    D: Fn(ObjectKind, &Vec<u8>) -> ContentId,
    A: Fn(&Vec<u8>) -> StorageId,
>(
    kinds: &KindBytes,
    entry: ManifestEntry,
    key: Seq<u8>,
    sealed: Seq<u8>,
    derive: D,
    address: A,
    plaintext: Seq<u8>,
)
    requires
        kinds.wf(),
        verifies(kinds, entry, key, sealed, derive, address, Ok(plaintext)),
    ensures
        hashes(derive, entry.kind, plaintext, entry.content_id),
        addresses(address, sealed, entry.storage_id),
        plaintext.len() == entry.size,
        entry.version == SEAL_VERSION,
{
    law_envelope_is_canonical(kinds, sealed);
}

} // verus!
