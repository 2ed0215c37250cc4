//! Sealing and opening of objects and manifests, with the real cipher.

use chacha20poly1305::aead::{Aead, KeyInit, Payload};
use chacha20poly1305::XChaCha20Poly1305;
use wyrd_sync::ids::{BaoRoot, ContentId, SnapshotId, StorageId};
use wyrd_sync::model::{Manifest, ManifestEntry, ObjectKind};
use wyrd_sync::seal::{
    entry_for, open, open_manifest, seal, seal_manifest, verify, CryptoError, EncryptedObject,
    KindBytes, SealError, MAX_SEAL_CIPHERTEXT, MAX_SEAL_PLAINTEXT, SEAL_TAG_LEN, SEAL_VERSION,
};

fn digest(domain: u8, bytes: &[u8]) -> [u8; 32] {
    let mut out = [0u8; 32];
    for lane in 0..4u8 {
        let mut h: u64 = 0xcbf2_9ce4_8422_2325 ^ u64::from(lane) ^ (u64::from(domain) << 8);
        for b in bytes {
            h = (h ^ u64::from(*b)).wrapping_mul(0x0000_0100_0000_01b3);
            h ^= h >> 29;
        }
        out[usize::from(lane) * 8..usize::from(lane) * 8 + 8].copy_from_slice(&h.to_le_bytes());
    }
    out
}

fn kinds() -> KindBytes {
    KindBytes::new(1, 2, 3, 4).unwrap()
}

fn derive(kind: ObjectKind, bytes: &Vec<u8>) -> ContentId {
    ContentId::from_bytes(digest(kinds().byte(kind), bytes))
}

fn address(bytes: &Vec<u8>) -> StorageId {
    StorageId::from_bytes(digest(0x80, bytes))
}

fn transport_root(bytes: &Vec<u8>) -> BaoRoot {
    BaoRoot::from_bytes(digest(0x81, bytes))
}

fn nonce(seed: u8) -> Option<[u8; 24]> {
    Some([seed; 24])
}

fn object_key() -> [u8; 32] {
    [0x01; 32]
}

fn chunk_fixture() -> (ContentId, Vec<u8>) {
    let plaintext = b"hello, vaults learn nothing".to_vec();
    let id = derive(ObjectKind::Chunk, &plaintext);
    (id, plaintext)
}

fn sealed(seed: u8) -> (ContentId, Vec<u8>, EncryptedObject) {
    let (id, plaintext) = chunk_fixture();
    let obj = seal(
        &kinds(),
        &object_key(),
        ObjectKind::Chunk,
        &id,
        nonce(seed),
        &plaintext,
        &derive,
    )
    .unwrap();
    (id, plaintext, obj)
}

#[test]
fn seal_open_round_trips() {
    let (id, plaintext, obj) = sealed(1);
    assert_eq!(open(&kinds(), &object_key(), &id, &obj, &derive).unwrap(), plaintext);
    assert_ne!(obj.ciphertext, plaintext);
    assert_eq!(obj.ciphertext.len(), plaintext.len() + 16);
}

#[test]
fn seal_refuses_a_foreign_content_id() {
    let (_, plaintext) = chunk_fixture();
    let foreign = ContentId::from_bytes([0xFF; 32]);
    assert_eq!(
        seal(
            &kinds(),
            &object_key(),
            ObjectKind::Chunk,
            &foreign,
            nonce(1),
            &plaintext,
            &derive
        ),
        Err(CryptoError::IdentityMismatch)
    );
}

#[test]
fn seal_without_randomness_fails() {
    let (id, plaintext) = chunk_fixture();
    assert_eq!(
        seal(&kinds(), &object_key(), ObjectKind::Chunk, &id, None, &plaintext, &derive),
        Err(CryptoError::RngFailed)
    );
}

#[test]
fn open_with_the_wrong_key_fails_the_tag() {
    let (id, _, obj) = sealed(1);
    assert_eq!(
        open(&kinds(), &[0x99; 32], &id, &obj, &derive),
        Err(CryptoError::OpenFailed)
    );
}

#[test]
fn open_with_the_wrong_content_id_fails_the_tag() {
    let (_, _, obj) = sealed(1);
    let other = ContentId::from_bytes([0xAB; 32]);
    assert_eq!(
        open(&kinds(), &object_key(), &other, &obj, &derive),
        Err(CryptoError::OpenFailed)
    );
}

#[test]
fn the_second_check_catches_a_hand_crafted_mismatch() {
    // An envelope whose tag verifies for one content id while its
    // plaintext is another's: the tag passes, the hash must still fail.
    let key = object_key();
    let q = ContentId::from_bytes([0x51; 32]);
    let plaintext = b"plaintext that is not Q".to_vec();
    let nonce = [0x0Du8; 24];
    let mut aad = vec![SEAL_VERSION, kinds().byte(ObjectKind::Chunk)];
    aad.extend_from_slice(q.as_bytes());
    let ciphertext = XChaCha20Poly1305::new(chacha20poly1305::Key::from_slice(&key))
        .encrypt(
            chacha20poly1305::XNonce::from_slice(&nonce),
            Payload {
                msg: &plaintext,
                aad: &aad,
            },
        )
        .unwrap();
    let obj = EncryptedObject {
        version: SEAL_VERSION,
        kind: ObjectKind::Chunk,
        nonce,
        ciphertext,
    };
    assert_eq!(
        open(&kinds(), &key, &q, &obj, &derive),
        Err(CryptoError::IdentityMismatch)
    );
}

#[test]
fn sealed_bytes_leak_neither_content_nor_structure() {
    let (id, plaintext, obj) = sealed(1);
    let sealed = obj.encode(&kinds());
    assert!(
        sealed.windows(32).all(|w| w != id.as_bytes()),
        "no content id in the sealed bytes"
    );
    assert!(
        sealed.windows(plaintext.len()).all(|w| w != plaintext.as_slice()),
        "no plaintext in the sealed bytes"
    );
}

#[test]
fn storage_ids_are_stable_per_seal_and_fresh_per_wrap() {
    let (_, _, a) = sealed(1);
    let (_, _, b) = sealed(2);
    assert_ne!(a.encode(&kinds()), b.encode(&kinds()), "fresh nonce per seal");
    assert_ne!(
        a.storage_id(&kinds(), &address),
        b.storage_id(&kinds(), &address),
        "equal plaintexts stay unlinkable"
    );
    assert_eq!(
        a.storage_id(&kinds(), &address),
        EncryptedObject::decode(&a.encode(&kinds()), &kinds())
            .unwrap()
            .storage_id(&kinds(), &address),
        "decode/encode stability"
    );
}

#[test]
fn malformed_seals_are_rejected() {
    assert_eq!(
        EncryptedObject::decode(&[0x00; 10], &kinds()),
        Err(CryptoError::Malformed)
    );
    let empty = Vec::new();
    let empty_id = derive(ObjectKind::Chunk, &empty);
    let mut obj = seal(
        &kinds(),
        &object_key(),
        ObjectKind::Chunk,
        &empty_id,
        nonce(1),
        &empty,
        &derive,
    )
    .map(|o| o.encode(&kinds()))
    .unwrap();
    // Empty plaintext seals to a tag alone; truncating into the tag is
    // malformed, not a tag failure.
    obj.truncate(obj.len() - 1);
    assert_eq!(EncryptedObject::decode(&obj, &kinds()), Err(CryptoError::Malformed));
    let hi = b"hi".to_vec();
    let hi_id = derive(ObjectKind::Chunk, &hi);
    let mut bad_kind = seal(
        &kinds(),
        &object_key(),
        ObjectKind::Chunk,
        &hi_id,
        nonce(1),
        &hi,
        &derive,
    )
    .unwrap()
    .encode(&kinds());
    bad_kind[1] = 0x09;
    assert_eq!(
        EncryptedObject::decode(&bad_kind, &kinds()),
        Err(CryptoError::Malformed)
    );
}

fn canonical_bytes(manifest: &Manifest) -> Vec<u8> {
    let mut out = b"manifest".to_vec();
    out.extend_from_slice(manifest.snapshot.as_bytes());
    out
}

fn parse_manifest(bytes: &Vec<u8>) -> Option<Manifest> {
    let snapshot: [u8; 32] = bytes.strip_prefix(b"manifest")?.try_into().ok()?;
    Some(Manifest::new(SnapshotId::from_bytes(snapshot), Vec::new(), Vec::new()))
}

#[test]
fn manifest_seals_under_the_snapshot_key() {
    let key = [0x03; 32];
    let snapshot = SnapshotId::from_bytes([0x77; 32]);
    let manifest = Manifest::new(snapshot, Vec::new(), Vec::new());
    let (content_id, obj) =
        seal_manifest(&kinds(), &key, &manifest, nonce(1), &canonical_bytes, &derive).unwrap();
    assert_eq!(obj.kind, ObjectKind::Manifest);
    assert_eq!(
        open_manifest(&kinds(), &key, &content_id, &obj, &derive, &parse_manifest).unwrap(),
        manifest
    );
    // The kind travels in the envelope: opening a chunk as a manifest is a
    // header mismatch.
    let hi = b"hi".to_vec();
    let hi_id = derive(ObjectKind::Chunk, &hi);
    let chunk_obj = seal(
        &kinds(),
        &[0x04; 32],
        ObjectKind::Chunk,
        &hi_id,
        nonce(2),
        &hi,
        &derive,
    )
    .unwrap();
    assert_eq!(
        open_manifest(&kinds(), &key, &content_id, &chunk_obj, &derive, &parse_manifest),
        Err(SealError::Crypto(CryptoError::HeaderMismatch))
    );
}

#[test]
fn a_manifest_that_does_not_parse_is_told_from_a_crypto_failure() {
    let key = [0x03; 32];
    let bytes = b"not a manifest".to_vec();
    let id = derive(ObjectKind::Manifest, &bytes);
    let obj = seal(&kinds(), &key, ObjectKind::Manifest, &id, nonce(1), &bytes, &derive).unwrap();
    assert_eq!(
        open_manifest(&kinds(), &key, &id, &obj, &derive, &parse_manifest),
        Err(SealError::Manifest)
    );
}

fn entry() -> (ManifestEntry, Vec<u8>, EncryptedObject) {
    let (id, plaintext, obj) = sealed(1);
    let entry = entry_for(
        &kinds(),
        ObjectKind::Chunk,
        SEAL_VERSION,
        3,
        &obj,
        &id,
        plaintext.len() as u64,
        &address,
        &transport_root,
    )
    .unwrap();
    (entry, plaintext, obj)
}

#[test]
fn verify_enforces_the_whole_entry() {
    let (entry, plaintext, obj) = entry();
    let bytes = obj.encode(&kinds());
    assert_eq!(entry.transport, transport_root(&bytes));
    assert_eq!(
        verify(&kinds(), &entry, &object_key(), &bytes, &derive, &address).unwrap(),
        plaintext
    );
    // Another epoch's key fails the tag.
    assert_eq!(
        verify(&kinds(), &entry, &[0x09; 32], &bytes, &derive, &address),
        Err(CryptoError::OpenFailed)
    );
    // A lying entry fails the header.
    let mut lying = entry;
    lying.size += 1;
    assert_eq!(
        verify(&kinds(), &lying, &object_key(), &bytes, &derive, &address),
        Err(CryptoError::HeaderMismatch)
    );
    let mut swapped = entry;
    swapped.storage_id = StorageId::from_bytes([0x11; 32]);
    assert_eq!(
        verify(&kinds(), &swapped, &object_key(), &bytes, &derive, &address),
        Err(CryptoError::HeaderMismatch)
    );
}

#[test]
fn entry_for_refuses_a_mismatched_envelope() {
    let (id, plaintext, obj) = sealed(1);
    assert_eq!(
        entry_for(
            &kinds(),
            ObjectKind::Tree,
            SEAL_VERSION,
            1,
            &obj,
            &id,
            plaintext.len() as u64,
            &address,
            &transport_root,
        ),
        Err(CryptoError::HeaderMismatch)
    );
}

#[test]
fn kind_bytes_have_to_differ() {
    assert!(KindBytes::new(1, 2, 3, 3).is_none());
    assert_eq!(kinds().kind(4), Some(ObjectKind::Manifest));
    assert_eq!(kinds().kind(5), None);
}

#[test]
fn the_cipher_agrees_with_the_crate() {
    let (id, plaintext, obj) = sealed(7);
    let mut aad = vec![SEAL_VERSION, kinds().byte(ObjectKind::Chunk)];
    aad.extend_from_slice(id.as_bytes());
    let expected = XChaCha20Poly1305::new(chacha20poly1305::Key::from_slice(&object_key()))
        .encrypt(
            chacha20poly1305::XNonce::from_slice(&[7u8; 24]),
            Payload {
                msg: &plaintext,
                aad: &aad,
            },
        )
        .unwrap();
    assert_eq!(obj.ciphertext, expected);
    assert_eq!(obj.nonce, [7u8; 24]);
}

#[test]
fn the_ceilings_are_those_of_the_block_counter() {
    assert_eq!(MAX_SEAL_PLAINTEXT, 64 * (u64::from(u32::MAX) - 1));
    assert_eq!(MAX_SEAL_CIPHERTEXT, MAX_SEAL_PLAINTEXT + SEAL_TAG_LEN as u64);
    let (_, plaintext, obj) = sealed(9);
    assert_eq!(obj.ciphertext.len(), plaintext.len() + SEAL_TAG_LEN);
}
