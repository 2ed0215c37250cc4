//! How an envelope is laid out, and what opens.

use vstd::prelude::*;

use crate::ids::{BaoRoot, ContentId, StorageId};
use crate::model::{Manifest, ManifestEntry, ObjectKind};
use crate::seal::{
    aad, addresses, aead_opened, aead_sealed, hashes, law_envelope_is_canonical, mismatches, opens,
    opens_manifest, parse, rooted, sealable, seals, seen, unsealed, verifies, CryptoError,
    EnvelopeModel, KindBytes, SealError,
};

verus! {

/// An envelope is written as its version, the byte of its kind, its nonce
/// and its ciphertext.
pub proof fn law_envelopes_are_laid_out(kinds: &KindBytes, obj: EnvelopeModel, i: int)
    requires
        obj.nonce.len() == 24,
    ensures
        obj.bytes(kinds).len() == 26 + obj.ciphertext.len(),
        obj.bytes(kinds)[0] == obj.version,
        obj.bytes(kinds)[1] == kinds.spec_byte(obj.kind),
        0 <= i < 24 ==> obj.bytes(kinds)[2 + i] == obj.nonce[i],
        0 <= i < obj.ciphertext.len() ==> obj.bytes(kinds)[26 + i] == obj.ciphertext[i],
{
}

/// Bytes are an envelope exactly when there is room for a header and a tag
/// and their second byte stands for a kind. Its parts are then read from
/// their places, whatever the version.
pub proof fn law_envelopes_are_read_from_their_places(
    kinds: &KindBytes,
    bytes: Seq<u8>,
    kind: ObjectKind,
    i: int,
)
    requires
        kinds.wf(),
    ensures
        bytes.len() < 42 ==> parse(kinds, bytes) is None,
        bytes.len() >= 42 && bytes[1] == kinds.spec_byte(kind) ==> parse(kinds, bytes) is Some
            && (parse(kinds, bytes)->0).kind == kind,
        parse(kinds, bytes) matches Some(obj) ==> {
            &&& bytes.len() >= 42
            &&& obj.version == bytes[0]
            &&& kinds.spec_byte(obj.kind) == bytes[1]
            &&& obj.nonce.len() == 24
            &&& 0 <= i < 24 ==> obj.nonce[i] == bytes[2 + i]
            &&& obj.ciphertext.len() == bytes.len() - 26
            &&& 0 <= i < bytes.len() - 26 ==> obj.ciphertext[i] == bytes[26 + i]
        },
{
    if bytes.len() >= 42 && bytes[1] == kinds.spec_byte(kind) {
        let chosen = choose|k: ObjectKind| kinds.spec_byte(k) == bytes[1];
        kinds.lemma_injective(kind, chosen);
    }
}

/// The associated data is the version, the byte of the kind and the content
/// id, and tells any two of these apart.
pub proof fn law_associated_data_names_what_is_sealed(
    kinds: &KindBytes,
    version: u8,
    kind: ObjectKind,
    content: ContentId,
    other_version: u8,
    other_kind: ObjectKind,
    other_content: ContentId,
    i: int,
)
    requires
        kinds.wf(),
    ensures
        aad(kinds, version, kind, content).len() == 34,
        aad(kinds, version, kind, content)[0] == version,
        aad(kinds, version, kind, content)[1] == kinds.spec_byte(kind),
        0 <= i < 32 ==> aad(kinds, version, kind, content)[2 + i] == content@[i],
        aad(kinds, version, kind, content) == aad(kinds, other_version, other_kind, other_content)
            ==> version == other_version && kind == other_kind && content == other_content,
{
    let a = aad(kinds, version, kind, content);
    let b = aad(kinds, other_version, other_kind, other_content);
    ContentId::lemma_bytes(content, other_content);
    ContentId::lemma_bytes(other_content, content);
    if a == b {
        assert(a[0] == b[0]);
        assert(a[1] == b[1]);
        kinds.lemma_injective(kind, other_kind);
        assert(content@ =~= other_content@) by {
            assert forall|j: int| 0 <= j < 32 implies content@[j] == other_content@[j] by {
                assert(a[2 + j] == b[2 + j]);
            }
        }
    }
}

/// A seal is of the current version and of the kind that was asked for,
/// carries the nonce, and its ciphertext is the plaintext under the key,
/// the nonce and the associated data of its content, with a tag. Nothing
/// larger than the cipher's counter reaches is sealed.
pub proof fn law_seals_bind_what_they_carry(
    kinds: &KindBytes,
    key: Seq<u8>,
    kind: ObjectKind,
    content: ContentId,
    nonce: Seq<u8>,
    plaintext: Seq<u8>,
    obj: EnvelopeModel,
)
    requires
        seals(kinds, key, kind, content, nonce, plaintext, obj),
    ensures
        obj.version == 0,
        obj.kind == kind,
        obj.nonce == nonce,
        obj.ciphertext.len() == plaintext.len() + 16,
        obj.ciphertext == aead_sealed(
            key,
            nonce,
            seq![0u8, kinds.spec_byte(kind)] + content@,
            plaintext,
        ),
        aead_opened(
            key,
            nonce,
            seq![0u8, kinds.spec_byte(kind)] + content@,
            obj.ciphertext,
        ) == Some(plaintext),
        plaintext.len() <= 64 * 0xffff_fffe,
{
}

/// A plaintext can be sealed exactly when the counter numbers its blocks of
/// 64 bytes after the first.
pub proof fn law_sealable_plaintexts_are_counted(plaintext: Seq<u8>)
    ensures
        sealable(plaintext) <==> plaintext.len() <= 64 * 0xffff_fffe,
{
}

/// Opening gives a plaintext only if the version is current, the tag
/// verifies over the version, the kind and the expected content, and the
/// plaintext hashes to that content. Another version is malformed, a tag
/// that does not verify is a failed opening, and a plaintext that hashes to
/// something else is a mismatch.
pub proof fn law_nothing_opens_but_the_expected_content<
    D: Fn(ObjectKind, &Vec<u8>) -> ContentId,
>(
    kinds: &KindBytes,
    key: Seq<u8>,
    expected: ContentId,
    obj: EnvelopeModel,
    derive: D,
    r: Result<Seq<u8>, CryptoError>,
)
    requires
        opens(kinds, key, expected, obj, derive, r),
    ensures
        ({
            let bound = seq![obj.version, kinds.spec_byte(obj.kind)] + expected@;
            let found = aead_opened(key, obj.nonce, bound, obj.ciphertext);
            let fits = obj.ciphertext.len() <= 64 * 0xffff_fffe + 16;
            &&& r matches Ok(plaintext) ==> obj.version == 0 && fits && found == Some(plaintext)
                && hashes(derive, obj.kind, plaintext, expected)
            &&& obj.version != 0 <==> r == Err::<Seq<u8>, CryptoError>(CryptoError::Malformed)
            &&& obj.version == 0 && !(fits && found is Some) <==> r == Err::<
                Seq<u8>,
                CryptoError,
            >(CryptoError::OpenFailed)
            &&& r == Err::<Seq<u8>, CryptoError>(CryptoError::IdentityMismatch) ==> obj.version
                == 0 && fits && found is Some && mismatches(derive, obj.kind, found->0, expected)
            &&& r != Err::<Seq<u8>, CryptoError>(CryptoError::HeaderMismatch)
            &&& r != Err::<Seq<u8>, CryptoError>(CryptoError::RngFailed)
        }),
{
}

/// Only an envelope of the manifest kind is opened as a manifest. What
/// opens has to parse; what does not open fails as any envelope would.
pub proof fn law_manifests_open_crypto_first<
    D: Fn(ObjectKind, &Vec<u8>) -> ContentId,
    P: Fn(&Vec<u8>) -> Option<Manifest>,
>(
    kinds: &KindBytes,
    key: Seq<u8>,
    expected: ContentId,
    obj: EnvelopeModel,
    derive: D,
    parse_manifest: P,
    r: Result<Manifest, SealError>,
)
    requires
        opens_manifest(kinds, key, expected, obj, derive, parse_manifest, r),
    ensures
        obj.kind != ObjectKind::Manifest ==> r == Err::<Manifest, SealError>(
            SealError::Crypto(CryptoError::HeaderMismatch),
        ),
        r matches Ok(manifest) ==> obj.kind == ObjectKind::Manifest && exists|bytes: Vec<u8>|
            #[trigger] call_ensures(parse_manifest, (&bytes,), Some(manifest)) && hashes(
                derive,
                ObjectKind::Manifest,
                bytes@,
                expected,
            ) && aead_opened(
                key,
                obj.nonce,
                seq![obj.version, kinds.spec_byte(ObjectKind::Manifest)] + expected@,
                obj.ciphertext,
            ) == Some(bytes@),
        r == Err::<Manifest, SealError>(SealError::Manifest) ==> obj.kind == ObjectKind::Manifest
            && exists|bytes: Vec<u8>|
            #[trigger] call_ensures(parse_manifest, (&bytes,), None::<Manifest>) && hashes(
                derive,
                ObjectKind::Manifest,
                bytes@,
                expected,
            ),
{
    if let Ok(manifest) = r {
        let (bytes, parsed) = choose|bytes: Vec<u8>, parsed: Option<Manifest>|
            opens(kinds, key, expected, obj, derive, Ok(bytes@)) && #[trigger] call_ensures(
                parse_manifest,
                (&bytes,),
                parsed,
            ) && parsed == Some(manifest);
        assert(call_ensures(parse_manifest, (&bytes,), Some(manifest)));
    }
    if r == Err::<Manifest, SealError>(SealError::Manifest) && obj.kind == ObjectKind::Manifest {
        let (bytes, parsed) = choose|bytes: Vec<u8>, parsed: Option<Manifest>|
            opens(kinds, key, expected, obj, derive, Ok(bytes@)) && #[trigger] call_ensures(
                parse_manifest,
                (&bytes,),
                parsed,
            ) && parsed is None;
        assert(parsed == None::<Manifest>);
        assert(call_ensures(parse_manifest, (&bytes,), None::<Manifest>));
    }
}

/// A mapping verifies only if the sealed bytes are an envelope with the
/// entry's version, kind and address, opening to the entry's content and
/// size. Bytes that are no envelope are malformed, and a header, an address
/// or a size that differs is a header mismatch.
pub proof fn law_mappings_are_enforced<
    D: Fn(ObjectKind, &Vec<u8>) -> ContentId,
    A: Fn(&Vec<u8>) -> StorageId,
>(
    kinds: &KindBytes,
    entry: ManifestEntry,
    key: Seq<u8>,
    sealed: Seq<u8>,
    derive: D,
    address: A,
    r: Result<Seq<u8>, CryptoError>,
)
    requires
        kinds.wf(),
        verifies(kinds, entry, key, sealed, derive, address, r),
    ensures
        parse(kinds, sealed) is None ==> r == Err::<Seq<u8>, CryptoError>(CryptoError::Malformed),
        parse(kinds, sealed) matches Some(obj) ==> obj.version != entry.version || obj.kind
            != entry.kind ==> r == Err::<Seq<u8>, CryptoError>(CryptoError::HeaderMismatch),
        (forall|id: StorageId| #[trigger] addresses(address, sealed, id) ==> id != entry.storage_id)
            ==> r is Err,
        r matches Ok(plaintext) ==> {
            &&& sealed.len() >= 42
            &&& sealed[0] == entry.version
            &&& sealed[1] == kinds.spec_byte(entry.kind)
            &&& addresses(address, sealed, entry.storage_id)
            &&& aead_opened(
                key,
                sealed.subrange(2, 26),
                seq![entry.version, kinds.spec_byte(entry.kind)] + entry.content_id@,
                sealed.skip(26),
            ) == Some(plaintext)
            &&& hashes(derive, entry.kind, plaintext, entry.content_id)
            &&& plaintext.len() == entry.size
        },
{
    if parse(kinds, sealed) is Some {
        law_envelope_is_canonical(kinds, sealed);
    }
}

/// An envelope that has the entry's header and address and opens as the
/// entry's content verifies exactly when the size is the entry's.
pub proof fn law_the_size_has_the_last_word<
    D: Fn(ObjectKind, &Vec<u8>) -> ContentId,
    A: Fn(&Vec<u8>) -> StorageId,
>(
    kinds: &KindBytes,
    entry: ManifestEntry,
    key: Seq<u8>,
    sealed: Seq<u8>,
    derive: D,
    address: A,
    plaintext: Seq<u8>,
    r: Result<Seq<u8>, CryptoError>,
)
    requires
        kinds.wf(),
        verifies(kinds, entry, key, sealed, derive, address, r),
        parse(kinds, sealed) matches Some(obj) && obj.version == entry.version && obj.kind
            == entry.kind && unsealed(kinds, key, entry.content_id, obj) == Ok::<
            Seq<u8>,
            CryptoError,
        >(plaintext),
        forall|id: StorageId| #[trigger]
            addresses(address, sealed, id) ==> id == entry.storage_id,
        forall|id: ContentId| #[trigger]
            hashes(derive, entry.kind, plaintext, id) ==> id == entry.content_id,
    ensures
        r == if plaintext.len() == entry.size {
            Ok::<Seq<u8>, CryptoError>(plaintext)
        } else {
            Err(CryptoError::HeaderMismatch)
        },
{
    law_envelope_is_canonical(kinds, sealed);
}

/// Hashing, addressing and rooting are of the very bytes that are named,
/// and of no others.
pub proof fn law_addresses_are_of_the_bytes_they_name<
    D: Fn(ObjectKind, &Vec<u8>) -> ContentId,
    A: Fn(&Vec<u8>) -> StorageId,
    R: Fn(&Vec<u8>) -> BaoRoot,
>(
    derive: D,
    address: A,
    transport_root: R,
    kind: ObjectKind,
    bytes: Vec<u8>,
    content: ContentId,
    storage: StorageId,
    root: BaoRoot,
)
    ensures
        call_ensures(derive, (kind, &bytes), content) ==> hashes(derive, kind, bytes@, content),
        hashes(derive, kind, bytes@, content) ==> exists|v: Vec<u8>|
            v@ == bytes@ && #[trigger] call_ensures(derive, (kind, &v), content),
        mismatches(derive, kind, bytes@, content) ==> exists|v: Vec<u8>, other: ContentId|
            v@ == bytes@ && #[trigger] call_ensures(derive, (kind, &v), other) && other != content,
        call_ensures(address, (&bytes,), storage) ==> addresses(address, bytes@, storage),
        addresses(address, bytes@, storage) ==> exists|v: Vec<u8>|
            v@ == bytes@ && #[trigger] call_ensures(address, (&v,), storage),
        call_ensures(transport_root, (&bytes,), root) ==> rooted(transport_root, bytes@, root),
        rooted(transport_root, bytes@, root) ==> exists|v: Vec<u8>|
            v@ == bytes@ && #[trigger] call_ensures(transport_root, (&v,), root),
{
    if mismatches(derive, kind, bytes@, content) {
        let other = choose|other: ContentId|
            other != content && #[trigger] hashes(derive, kind, bytes@, other);
        let v = choose|v: Vec<u8>|
            v@ == bytes@ && #[trigger] call_ensures(derive, (kind, &v), other);
        assert(v@ == bytes@ && call_ensures(derive, (kind, &v), other));
    }
}

/// A result is told by its bytes: success keeps them, and an error is the
/// same error.
pub proof fn law_results_are_told_by_their_bytes<E>(r: Result<Vec<u8>, E>)
    ensures
        r matches Ok(bytes) ==> seen(r) == Ok::<Seq<u8>, E>(bytes@),
        r matches Err(e) ==> seen(r) == Err::<Seq<u8>, E>(e),
{
}

} // verus!
