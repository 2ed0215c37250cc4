//! What the routes and the two stores make of one fetch.

use vstd::prelude::*;

use crate::ids::{BaoRoot, ContentId, SnapshotId, StorageId};
use crate::model::{
    FetchStatus, Manifest, ManifestRecord, ObjectKind, Snapshot, SnapshotAnnouncement, StoreFailure,
};
use crate::runtime::fetch::{
    after_import, decodes_body, entry_of, falls_back, fatal, owner, represents, served_by,
    served_eagerly, serves_body, serves_root, stops, stores, tally, within_ceiling, worst,
    BulkError, CandidateResult, EagerReply, FetchOutcome, ObjectFormat, Reply, SealedManifest,
    Served, VaultError,
};
use crate::runtime::state::{PendingObjectFetch, RuntimeView};
use crate::seal::{
    addresses, hashes, law_envelope_is_canonical, law_verified_plaintext_is_the_content, opens,
    opens_manifest, parse, rooted, seen, unsealed, verifies, CryptoError, SealError,
};

verus! {

/// A full and an unwritable disk end a pass, and nothing else does.
pub proof fn law_only_lasting_failures_are_fatal(failure: StoreFailure)
    ensures
        fatal(failure) is None <==> failure == StoreFailure::Transient,
        failure != StoreFailure::Transient ==> fatal(failure) == Some(failure),
{
}

/// Whether the first outcome is plainly more actionable than the second: a
/// full disk before a dead route, a dead route before a local refusal, that
/// before invalid bytes, those before a missing key, and that before plain
/// absence.
pub open spec fn outranks<T>(a: FetchOutcome<T>, b: FetchOutcome<T>) -> bool {
    match a {
        FetchOutcome::Fulfilled(_) => !(b is Fulfilled),
        FetchOutcome::Store(_) => b is Transport || b is Local || b is Invalid
            || b is UnavailableKey || b is Missing,
        FetchOutcome::Transport => b is Local || b is Invalid || b is UnavailableKey
            || b is Missing,
        FetchOutcome::Local => b is Invalid || b is UnavailableKey || b is Missing,
        FetchOutcome::Invalid => b is UnavailableKey || b is Missing,
        FetchOutcome::UnavailableKey => b is Missing,
        FetchOutcome::Missing => false,
    }
}

/// Of two outcomes the more actionable stands, whichever came first; of two
/// of one sort, the first.
pub proof fn law_the_more_actionable_outcome_stands<T>(a: FetchOutcome<T>, b: FetchOutcome<T>)
    ensures
        outranks(a, b) ==> worst(a, b) == a && worst(b, a) == a,
        !outranks(a, b) && !outranks(b, a) ==> worst(a, b) == a,
{
}

/// Refused bytes and a refusing store need repair, a fulfilled object is
/// available, and everything else may pass and can be retried.
pub proof fn law_outcomes_tell_readers_what_to_expect<T>(outcome: FetchOutcome<T>)
    ensures
        outcome.settles() == FetchStatus::Available <==> outcome is Fulfilled,
        outcome.settles() == FetchStatus::Corrupt <==> outcome is Invalid || outcome is Local,
        outcome.settles() == FetchStatus::Unavailable <==> outcome is Missing
            || outcome is UnavailableKey || outcome is Transport || outcome is Store,
{
}

/// Absence and a dead route lead on to the other route; bytes and an
/// oversize refusal end the search. What the last route answers is taken as
/// it is: its bytes, absence, a refusal, or a failed route.
pub proof fn law_replies_are_taken_as_they_are(reply: Reply)
    ensures
        falls_back(reply) <==> reply == Ok::<Option<Vec<u8>>, BulkError>(None) || (reply is Err
            && reply->Err_0 is Transport),
        reply matches Ok(Some(bytes)) ==> served_by(reply) == Served::Sealed(bytes),
        served_by(reply) is Sealed <==> reply is Ok && reply->Ok_0 is Some,
        served_by(reply) is Absent <==> reply == Ok::<Option<Vec<u8>>, BulkError>(None),
        served_by(reply) is Refused <==> reply is Err && reply->Err_0 is Oversize,
        served_by(reply) is Unreachable <==> reply is Err && reply->Err_0 is Transport,
{
}

/// A manifest that the eager exchange serves under another identity than
/// the announced one is refused; any other reply is taken as it is.
pub proof fn law_eager_replies_have_to_be_the_announced_manifest(
    announced: ContentId,
    reply: EagerReply,
)
    ensures
        reply matches Ok(Some(manifest)) ==> served_eagerly(announced, reply) == if announced
            == manifest.content_id {
            Served::Sealed(manifest.sealed)
        } else {
            Served::Refused
        },
        served_eagerly(announced, reply) is Absent <==> reply == Ok::<
            Option<SealedManifest>,
            BulkError,
        >(None),
        reply is Err && reply->Err_0 is Oversize ==> served_eagerly(announced, reply) is Refused,
        served_eagerly(announced, reply) is Unreachable <==> reply is Err
            && reply->Err_0 is Transport,
{
}

/// An item counts once the vault holds it; a full or unwritable disk ends
/// the pass; any other refusal is local.
pub proof fn law_imports_decide<T>(item: T, imported: Result<(), VaultError>)
    ensures
        imported is Ok ==> after_import(item, imported) == FetchOutcome::Fulfilled(item),
        imported == Err::<(), VaultError>(VaultError::Root) || imported == Err::<(), VaultError>(
            VaultError::Io(StoreFailure::Transient),
        ) ==> after_import(item, imported) is Local,
        imported == Err::<(), VaultError>(VaultError::Io(StoreFailure::StorageFull))
            ==> after_import(item, imported) == FetchOutcome::<T>::Store(
            StoreFailure::StorageFull,
        ),
        imported == Err::<(), VaultError>(VaultError::Io(StoreFailure::Unwritable))
            ==> after_import(item, imported) == FetchOutcome::<T>::Store(StoreFailure::Unwritable),
{
}

/// A child is owned by the snapshot whose manifest links to it, as long as
/// that snapshot is announced.
pub proof fn law_children_are_owned_by_announced_snapshots(
    v: RuntimeView,
    manifest: ContentId,
    i: int,
    child: ContentId,
)
    requires
        v.consistent(),
    ensures
        v.manifests.contains_key(manifest) && 0 <= i
            < v.manifests[manifest].manifest.children@.len()
            && v.manifests[manifest].manifest.children@[i].manifest == child ==> owner(v, child)
            == if v.announcements.contains_key(v.manifests[manifest].manifest.snapshot) {
            Some(v.manifests[manifest].manifest.snapshot)
        } else {
            None
        },
        owner(v, child) matches Some(snapshot) ==> v.announcements.contains_key(snapshot)
            && exists|m: ContentId, k: int|
            {
                &&& v.manifests.contains_key(m)
                &&& v.manifests[m].manifest.snapshot == snapshot
                &&& 0 <= k < v.manifests[m].manifest.children@.len()
                &&& (#[trigger] v.manifests[m].manifest.children@[k]).manifest == child
            },
{
    if v.manifests.contains_key(manifest) && 0 <= i < v.manifests[manifest].manifest.children@.len()
        && v.manifests[manifest].manifest.children@[i].manifest == child {
        assert(crate::runtime::state::links_to(v.manifests, manifest, child));
    }
    if owner(v, child) is Some {
        let m = choose|m: ContentId| crate::runtime::state::links_to(v.manifests, m, child);
        assert(crate::runtime::state::links_to(v.manifests, m, child));
        let children = v.manifests[m].manifest.children@;
        let k = choose|k: int| 0 <= k < children.len() && (#[trigger] children[k]).manifest == child;
        assert(v.manifests[m].manifest.children@[k].manifest == child);
    }
}

/// A representation is asked for by its transport root first. The bytes or
/// the oversize refusal of that route stand; only where it holds nothing or
/// is dead does the storage address answer.
pub proof fn law_representations_come_by_root_then_by_address<
    T: FnOnce(BaoRoot, usize) -> Reply,
    S: FnOnce(StorageId, usize) -> Reply,
>(
    transport: BaoRoot,
    storage: StorageId,
    max: usize,
    fetch_transport: T,
    fetch_sealed: S,
    r: Reply,
)
    requires
        represents(transport, storage, max, fetch_transport, fetch_sealed, r),
    ensures
        call_ensures(fetch_transport, (transport, max), r) || call_ensures(
            fetch_sealed,
            (storage, max),
            r,
        ),
        (forall|first: Reply| #[trigger]
            call_ensures(fetch_transport, (transport, max), first) ==> first == Ok::<
                Option<Vec<u8>>,
                BulkError,
            >(None) || (first is Err && first->Err_0 is Transport)) ==> call_ensures(
            fetch_sealed,
            (storage, max),
            r,
        ),
        (forall|first: Reply| #[trigger]
            call_ensures(fetch_transport, (transport, max), first) ==> (first is Ok
                && first->Ok_0 is Some) || (first is Err && first->Err_0 is Oversize))
            ==> call_ensures(fetch_transport, (transport, max), r),
{
}

/// A root manifest is asked for by the announced transport root first, and
/// through the eager exchange under the announced identity where that route
/// holds nothing or is dead.
pub proof fn law_roots_come_by_root_then_eagerly<
    T: FnOnce(BaoRoot, usize) -> Reply,
    E: FnOnce(SnapshotId, usize) -> EagerReply,
>(
    announcement: SnapshotAnnouncement,
    snapshot: SnapshotId,
    max: usize,
    fetch_transport: T,
    fetch_root_manifest: E,
    r: Served,
)
    requires
        serves_root(announcement, snapshot, max, fetch_transport, fetch_root_manifest, r),
    ensures
        r matches Served::Sealed(sealed) ==> call_ensures(
            fetch_transport,
            (announcement.root_manifest_transport, max),
            Ok::<Option<Vec<u8>>, BulkError>(Some(sealed)),
        ) || call_ensures(
            fetch_root_manifest,
            (snapshot, max),
            Ok::<Option<SealedManifest>, BulkError>(
                Some(SealedManifest { content_id: announcement.root_manifest, sealed }),
            ),
        ),
        (forall|first: Reply| #[trigger]
            call_ensures(
                fetch_transport,
                (announcement.root_manifest_transport, max),
                first,
            ) ==> first is Ok && first->Ok_0 is Some) ==> r is Sealed,
        r is Absent ==> call_ensures(
            fetch_root_manifest,
            (snapshot, max),
            Ok::<Option<SealedManifest>, BulkError>(None),
        ),
{
    let first = choose|first: Reply|
        {
            &&& #[trigger] call_ensures(
                fetch_transport,
                (announcement.root_manifest_transport, max),
                first,
            )
            &&& if falls_back(first) {
                exists|second: EagerReply| #[trigger]
                    call_ensures(fetch_root_manifest, (snapshot, max), second) && r
                        == served_eagerly(announcement.root_manifest, second)
            } else {
                r == served_by(first)
            }
        };
    if falls_back(first) {
        let second = choose|second: EagerReply| #[trigger]
            call_ensures(fetch_root_manifest, (snapshot, max), second) && r == served_eagerly(
                announcement.root_manifest,
                second,
            );
        if let Ok(Some(manifest)) = second {
            if manifest.content_id == announcement.root_manifest {
                assert(second == Ok::<Option<SealedManifest>, BulkError>(
                    Some(
                        SealedManifest {
                            content_id: announcement.root_manifest,
                            sealed: manifest.sealed,
                        },
                    ),
                ));
            }
        }
    } else if let Ok(Some(bytes)) = first {
        assert(first == Ok::<Option<Vec<u8>>, BulkError>(Some(bytes)));
    }
}

/// A body is asked for by the announced body root first, where the snapshot
/// is announced, and by the snapshot's own address where it is not, or
/// where the first route holds nothing or is dead.
pub proof fn law_bodies_come_by_root_then_by_snapshot<
    T: FnOnce(BaoRoot, usize) -> Reply,
    S: FnOnce(SnapshotId, usize) -> Reply,
>(
    v: RuntimeView,
    snapshot: SnapshotId,
    max: usize,
    fetch_transport: T,
    fetch_snapshot: S,
    r: Reply,
)
    requires
        serves_body(v, snapshot, max, fetch_transport, fetch_snapshot, r),
    ensures
        !v.announcements.contains_key(snapshot) ==> call_ensures(
            fetch_snapshot,
            (snapshot, max),
            r,
        ),
        v.announcements.contains_key(snapshot) ==> call_ensures(
            fetch_transport,
            (v.announcements[snapshot].body_root, max),
            r,
        ) || call_ensures(fetch_snapshot, (snapshot, max), r),
        v.announcements.contains_key(snapshot) && (forall|first: Reply| #[trigger]
            call_ensures(
                fetch_transport,
                (v.announcements[snapshot].body_root, max),
                first,
            ) ==> (first is Ok && first->Ok_0 is Some) || (first is Err
                && first->Err_0 is Oversize)) ==> call_ensures(
            fetch_transport,
            (v.announcements[snapshot].body_root, max),
            r,
        ),
        v.announcements.contains_key(snapshot) && (forall|first: Reply| #[trigger]
            call_ensures(
                fetch_transport,
                (v.announcements[snapshot].body_root, max),
                first,
            ) ==> first == Ok::<Option<Vec<u8>>, BulkError>(None) || (first is Err
                && first->Err_0 is Transport)) ==> call_ensures(fetch_snapshot, (snapshot, max), r),
{
}

/// Bytes that hash to the snapshot id, read as a body and name no more
/// parents than allowed are that body: its parents, author, membership and
/// epoch are what was read, its id is the snapshot's and its bytes are the
/// ones that came. Everything else is invalid.
pub proof fn law_bodies_are_what_their_bytes_say<
    D: Fn(ObjectKind, &Vec<u8>) -> ContentId,
    F: FnOnce(&Vec<u8>) -> Option<Snapshot>,
>(
    bytes: Vec<u8>,
    snapshot: SnapshotId,
    max_parents: usize,
    derive: D,
    decode: F,
    r: FetchOutcome<Snapshot>,
)
    requires
        decodes_body(bytes, snapshot, max_parents, derive, decode, r),
    ensures
        r is Fulfilled || r is Invalid,
        r matches FetchOutcome::Fulfilled(body) ==> {
            &&& body.id == snapshot
            &&& body.encoded == bytes
            &&& body.parents@.len() <= max_parents
            &&& exists|id: ContentId| #[trigger]
                hashes(derive, ObjectKind::Snapshot, bytes@, id) && id@ == snapshot@
            &&& exists|read: Snapshot|
                {
                    &&& #[trigger] call_ensures(decode, (&bytes,), Some(read))
                    &&& body.parents == read.parents
                    &&& body.author == read.author
                    &&& body.membership == read.membership
                    &&& body.epoch == read.epoch
                }
        },
        (forall|id: ContentId| #[trigger]
            hashes(derive, ObjectKind::Snapshot, bytes@, id) ==> id@ == snapshot@) && (forall|
            read: Option<Snapshot>,
        | #[trigger]
            call_ensures(decode, (&bytes,), read) ==> read is Some && (read->0).parents@.len()
                <= max_parents) ==> r is Fulfilled,
{
    if let FetchOutcome::Fulfilled(body) = r {
        let derived = choose|derived: ContentId|
            {
                &&& #[trigger] hashes(derive, ObjectKind::Snapshot, bytes@, derived)
                &&& if !crate::runtime::fetch::names_snapshot(derived, snapshot) {
                    r == FetchOutcome::<Snapshot>::Invalid
                } else {
                    exists|decoded: Option<Snapshot>|
                        {
                            &&& #[trigger] call_ensures(decode, (&bytes,), decoded)
                            &&& match decoded {
                                None => r == FetchOutcome::<Snapshot>::Invalid,
                                Some(body) => if body.parents@.len() > max_parents {
                                    r == FetchOutcome::<Snapshot>::Invalid
                                } else {
                                    r == FetchOutcome::Fulfilled(
                                        Snapshot { id: snapshot, encoded: bytes, ..body },
                                    )
                                },
                            }
                        }
                }
            };
        let decoded = choose|decoded: Option<Snapshot>|
            {
                &&& #[trigger] call_ensures(decode, (&bytes,), decoded)
                &&& match decoded {
                    None => r == FetchOutcome::<Snapshot>::Invalid,
                    Some(body) => if body.parents@.len() > max_parents {
                        r == FetchOutcome::<Snapshot>::Invalid
                    } else {
                        r == FetchOutcome::Fulfilled(
                            Snapshot { id: snapshot, encoded: bytes, ..body },
                        )
                    },
                }
            };
        assert(decoded == Some(decoded->0));
        assert(call_ensures(decode, (&bytes,), Some(decoded->0)));
    }
}

/// The record of an opened manifest is filed under the expected identity
/// and role, and has exactly one representation: the sealed bytes that
/// came, under their own address and their own root.
pub proof fn law_opened_manifests_are_held_as_they_came<
    D: Fn(ObjectKind, &Vec<u8>) -> ContentId,
    P: Fn(&Vec<u8>) -> Option<Manifest>,
    C: Fn(&Manifest) -> bool,
    A: Fn(&Vec<u8>) -> StorageId,
    R: Fn(&Vec<u8>) -> BaoRoot,
>(
    format: ObjectFormat<D, P, C, A, R>,
    sealed: Seq<u8>,
    key: Seq<u8>,
    expected: ContentId,
    snapshot: SnapshotId,
    is_root: bool,
    record: ManifestRecord,
)
    requires
        format.kinds.wf(),
        format.opens_record(sealed, key, expected, snapshot, is_root, Some(record)),
    ensures
        record.is_root == is_root,
        record.manifest_id == expected,
        record.manifest.snapshot == snapshot,
        rooted(format.transport_root, sealed, record.transport),
        exists|storage: StorageId| #[trigger]
            addresses(format.address, sealed, storage) && record.representations@ == Map::<
                StorageId,
                BaoRoot,
            >::empty().insert(storage, record.transport),
        call_ensures(format.within_limits, (&record.manifest,), true),
        exists|plaintext: Vec<u8>| #[trigger]
            call_ensures(format.parse_manifest, (&plaintext,), Some(record.manifest)) && hashes(
                format.derive,
                ObjectKind::Manifest,
                plaintext@,
                expected,
            ),
{
    law_envelope_is_canonical(&format.kinds, sealed);
    let obj = parse(&format.kinds, sealed)->0;
    let opened = choose|opened: Result<Manifest, SealError>|
        {
            &&& #[trigger] opens_manifest(
                &format.kinds,
                key,
                expected,
                obj,
                format.derive,
                format.parse_manifest,
                opened,
            )
            &&& match opened {
                Err(_) => false,
                Ok(manifest) => exists|fits: bool|
                    {
                        &&& #[trigger] call_ensures(format.within_limits, (&manifest,), fits)
                        &&& fits && manifest.snapshot == snapshot && format.is_record(
                            obj.bytes(&format.kinds),
                            manifest,
                            expected,
                            is_root,
                            record,
                        )
                    },
            }
        };
    let manifest = opened->Ok_0;
    assert(record.manifest == manifest);
    let (bytes, parsed) = choose|bytes: Vec<u8>, parsed: Option<Manifest>|
        opens(&format.kinds, key, expected, obj, format.derive, Ok(bytes@))
            && #[trigger] call_ensures(format.parse_manifest, (&bytes,), parsed) && parsed == Some(
            manifest,
        );
    assert(call_ensures(format.parse_manifest, (&bytes,), Some(record.manifest)));
}

/// Both stores decide over a verified representation: it lands once the
/// vault holds its ciphertext and the object store its plaintext. A full or
/// unwritable disk on either side is fatal, and any other refusal declines.
pub proof fn law_both_stores_have_to_hold_it<
    I: FnOnce(&Vec<u8>) -> Result<(), VaultError>,
    N: FnOnce(ObjectKind, ContentId, &Vec<u8>) -> Result<(), StoreFailure>,
>(
    sealed: Vec<u8>,
    kind: ObjectKind,
    content: ContentId,
    plaintext: Vec<u8>,
    import: I,
    insert_verified: N,
    r: CandidateResult,
)
    requires
        stores(sealed, kind, content, plaintext, import, insert_verified, r),
    ensures
        r is Landed || r is Declined || r is Fatal,
        r is Landed ==> call_ensures(import, (&sealed,), Ok::<(), VaultError>(()))
            && call_ensures(insert_verified, (kind, content, &plaintext), Ok::<(), StoreFailure>(
            (),
        )),
        r matches CandidateResult::Fatal(failure) ==> failure != StoreFailure::Transient && (
        call_ensures(import, (&sealed,), Err::<(), VaultError>(VaultError::Io(failure)))
            || call_ensures(
            insert_verified,
            (kind, content, &plaintext),
            Err::<(), StoreFailure>(failure),
        )),
        r is Declined ==> call_ensures(import, (&sealed,), Err::<(), VaultError>(VaultError::Root))
            || call_ensures(
            import,
            (&sealed,),
            Err::<(), VaultError>(VaultError::Io(StoreFailure::Transient)),
        ) || call_ensures(
            insert_verified,
            (kind, content, &plaintext),
            Err::<(), StoreFailure>(StoreFailure::Transient),
        ),
{
    let imported = choose|imported: Result<(), VaultError>|
        {
            &&& #[trigger] call_ensures(import, (&sealed,), imported)
            &&& match after_import((), imported) {
                FetchOutcome::Store(failure) => r == CandidateResult::Fatal(failure),
                FetchOutcome::Fulfilled(_) => exists|inserted: Result<(), StoreFailure>|
                    {
                        &&& #[trigger] call_ensures(
                            insert_verified,
                            (kind, content, &plaintext),
                            inserted,
                        )
                        &&& r == match inserted {
                            Ok(()) => CandidateResult::Landed,
                            Err(failure) => match fatal(failure) {
                                Some(failure) => CandidateResult::Fatal(failure),
                                None => CandidateResult::Declined,
                            },
                        }
                    },
                _ => r == CandidateResult::Declined,
            }
        };
    assert(call_ensures(import, (&sealed,), imported));
    if imported is Ok {
        assert(imported->Ok_0 == ());
        assert(imported == Ok::<(), VaultError>(()));
        let inserted = choose|inserted: Result<(), StoreFailure>|
            {
                &&& #[trigger] call_ensures(
                    insert_verified,
                    (kind, content, &plaintext),
                    inserted,
                )
                &&& r == match inserted {
                    Ok(()) => CandidateResult::Landed,
                    Err(failure) => match fatal(failure) {
                        Some(failure) => CandidateResult::Fatal(failure),
                        None => CandidateResult::Declined,
                    },
                }
            };
        assert(call_ensures(insert_verified, (kind, content, &plaintext), inserted));
        if inserted is Ok {
            assert(inserted->Ok_0 == ());
            assert(inserted == Ok::<(), StoreFailure>(()));
        }
    }
}

/// Whether sealed bytes verified as one planned representation: they have
/// its address, version and kind, opened under the key to a plaintext of
/// its size that hashes to the content under its kind, and a piece of file
/// content keeps to its ceiling.
pub open spec fn verified_as<
    D: Fn(ObjectKind, &Vec<u8>) -> ContentId,
    P: Fn(&Vec<u8>) -> Option<Manifest>,
    C: Fn(&Manifest) -> bool,
    A: Fn(&Vec<u8>) -> StorageId,
    R: Fn(&Vec<u8>) -> BaoRoot,
>(
    format: ObjectFormat<D, P, C, A, R>,
    content: ContentId,
    candidate: PendingObjectFetch,
    key: Seq<u8>,
    sealed: Seq<u8>,
    max_chunk: usize,
    plaintext: Seq<u8>,
) -> bool {
    &&& addresses(format.address, sealed, candidate.storage_id)
    &&& parse(&format.kinds, sealed) matches Some(obj)
    &&& obj.version == candidate.version
    &&& obj.kind == candidate.kind
    &&& unsealed(&format.kinds, key, content, obj) == Ok::<Seq<u8>, CryptoError>(plaintext)
    &&& hashes(format.derive, candidate.kind, plaintext, content)
    &&& plaintext.len() == candidate.size
    &&& candidate.kind == ObjectKind::Chunk ==> plaintext.len() <= max_chunk
}

/// A representation lands only as what was planned: its bytes came by the
/// candidate's own root or storage address, verified as the candidate under
/// the key of its epoch, content, kind and version, and both stores took
/// them, the object store under the candidate's kind and the content id.
pub proof fn law_landed_representations_are_the_planned_ones<
    D: Fn(ObjectKind, &Vec<u8>) -> ContentId,
    P: Fn(&Vec<u8>) -> Option<Manifest>,
    C: Fn(&Manifest) -> bool,
    A: Fn(&Vec<u8>) -> StorageId,
    R: Fn(&Vec<u8>) -> BaoRoot,
    K: FnOnce(u64, ContentId, ObjectKind, u8) -> Option<[u8; 32]>,
    T: FnOnce(BaoRoot, usize) -> Reply,
    S: FnOnce(StorageId, usize) -> Reply,
    I: FnOnce(&Vec<u8>) -> Result<(), VaultError>,
    N: FnOnce(ObjectKind, ContentId, &Vec<u8>) -> Result<(), StoreFailure>,
>(
    format: ObjectFormat<D, P, C, A, R>,
    content: ContentId,
    candidate: PendingObjectFetch,
    max: usize,
    max_chunk: usize,
    object_key: K,
    fetch_transport: T,
    fetch_sealed: S,
    import: I,
    insert_verified: N,
) -> (landed: ([u8; 32], Vec<u8>, Vec<u8>))
    requires
        format.kinds.wf(),
        format.tries(
            content,
            candidate,
            max,
            max_chunk,
            object_key,
            fetch_transport,
            fetch_sealed,
            import,
            insert_verified,
            CandidateResult::Landed,
        ),
    ensures
        call_ensures(
            object_key,
            (candidate.encryption_epoch, content, candidate.kind, candidate.version),
            Some(landed.0),
        ),
        call_ensures(
            fetch_transport,
            (candidate.transport, max),
            Ok::<Option<Vec<u8>>, BulkError>(Some(landed.1)),
        ) || call_ensures(
            fetch_sealed,
            (candidate.storage_id, max),
            Ok::<Option<Vec<u8>>, BulkError>(Some(landed.1)),
        ),
        verified_as(
            format,
            content,
            candidate,
            landed.0@,
            landed.1@,
            max_chunk,
            landed.2@,
        ),
        call_ensures(import, (&landed.1,), Ok::<(), VaultError>(())),
        call_ensures(
            insert_verified,
            (candidate.kind, content, &landed.2),
            Ok::<(), StoreFailure>(()),
        ),
{
    let r = CandidateResult::Landed;
    let named = (candidate.encryption_epoch, content, candidate.kind, candidate.version);
    let key = choose|key: Option<[u8; 32]>|
        {
            &&& #[trigger] call_ensures(object_key, named, key)
            &&& match key {
                None => r == CandidateResult::NoKey,
                Some(key) => exists|reply: Reply|
                    {
                        &&& #[trigger] represents(
                            candidate.transport,
                            candidate.storage_id,
                            max,
                            fetch_transport,
                            fetch_sealed,
                            reply,
                        )
                        &&& match served_by(reply) {
                            Served::Absent => r == CandidateResult::Absent,
                            Served::Unreachable => r == CandidateResult::Unreachable,
                            Served::Refused => r == CandidateResult::Rejected,
                            Served::Sealed(sealed) => format.settles_candidate(
                                content,
                                candidate,
                                key@,
                                sealed,
                                max_chunk,
                                import,
                                insert_verified,
                                r,
                            ),
                        }
                    },
            }
        };
    assert(key == Some(key->0));
    let reply = choose|reply: Reply|
        {
            &&& #[trigger] represents(
                candidate.transport,
                candidate.storage_id,
                max,
                fetch_transport,
                fetch_sealed,
                reply,
            )
            &&& match served_by(reply) {
                Served::Absent => r == CandidateResult::Absent,
                Served::Unreachable => r == CandidateResult::Unreachable,
                Served::Refused => r == CandidateResult::Rejected,
                Served::Sealed(sealed) => format.settles_candidate(
                    content,
                    candidate,
                    (key->0)@,
                    sealed,
                    max_chunk,
                    import,
                    insert_verified,
                    r,
                ),
            }
        };
    let sealed = served_by(reply)->Sealed_0;
    assert(reply == Ok::<Option<Vec<u8>>, BulkError>(Some(sealed)));
    law_representations_come_by_root_then_by_address(
        candidate.transport,
        candidate.storage_id,
        max,
        fetch_transport,
        fetch_sealed,
        reply,
    );
    let verified = choose|verified: Result<Vec<u8>, CryptoError>|
        {
            &&& #[trigger] verifies(
                &format.kinds,
                entry_of(content, candidate),
                (key->0)@,
                sealed@,
                format.derive,
                format.address,
                seen(verified),
            )
            &&& match verified {
                Err(_) => r == CandidateResult::Rejected,
                Ok(plaintext) => if !within_ceiling(
                    candidate.kind,
                    plaintext@.len(),
                    max_chunk,
                ) {
                    r == CandidateResult::Rejected
                } else {
                    stores(
                        sealed,
                        candidate.kind,
                        content,
                        plaintext,
                        import,
                        insert_verified,
                        r,
                    )
                },
            }
        };
    let plaintext = verified->Ok_0;
    assert(seen(verified) == Ok::<Seq<u8>, CryptoError>(plaintext@));
    law_verified_plaintext_is_the_content(
        &format.kinds,
        entry_of(content, candidate),
        (key->0)@,
        sealed@,
        format.derive,
        format.address,
        plaintext@,
    );
    law_both_stores_have_to_hold_it(
        sealed,
        candidate.kind,
        content,
        plaintext,
        import,
        insert_verified,
        r,
    );
    (key->0, sealed, plaintext)
}

/// Without the epoch's key nothing is asked for; with it, absence, a failed
/// route and an oversize refusal of the routes are the representation's.
pub proof fn law_unserved_representations_have_their_verdict<
    D: Fn(ObjectKind, &Vec<u8>) -> ContentId,
    P: Fn(&Vec<u8>) -> Option<Manifest>,
    C: Fn(&Manifest) -> bool,
    A: Fn(&Vec<u8>) -> StorageId,
    R: Fn(&Vec<u8>) -> BaoRoot,
    K: FnOnce(u64, ContentId, ObjectKind, u8) -> Option<[u8; 32]>,
    T: FnOnce(BaoRoot, usize) -> Reply,
    S: FnOnce(StorageId, usize) -> Reply,
    I: FnOnce(&Vec<u8>) -> Result<(), VaultError>,
    N: FnOnce(ObjectKind, ContentId, &Vec<u8>) -> Result<(), StoreFailure>,
>(
    format: ObjectFormat<D, P, C, A, R>,
    content: ContentId,
    candidate: PendingObjectFetch,
    max: usize,
    max_chunk: usize,
    object_key: K,
    fetch_transport: T,
    fetch_sealed: S,
    import: I,
    insert_verified: N,
    r: CandidateResult,
)
    requires
        format.tries(
            content,
            candidate,
            max,
            max_chunk,
            object_key,
            fetch_transport,
            fetch_sealed,
            import,
            insert_verified,
            r,
        ),
    ensures
        r is NoKey ==> call_ensures(
            object_key,
            (candidate.encryption_epoch, content, candidate.kind, candidate.version),
            None::<[u8; 32]>,
        ),
        (forall|key: Option<[u8; 32]>| #[trigger]
            call_ensures(
                object_key,
                (candidate.encryption_epoch, content, candidate.kind, candidate.version),
                key,
            ) ==> key is None) ==> r is NoKey,
        r is Absent ==> call_ensures(
            fetch_sealed,
            (candidate.storage_id, max),
            Ok::<Option<Vec<u8>>, BulkError>(None),
        ),
        r is Unreachable ==> exists|reply: Reply| #[trigger]
            call_ensures(fetch_sealed, (candidate.storage_id, max), reply) && reply is Err
                && reply->Err_0 is Transport,
{
    let named = (candidate.encryption_epoch, content, candidate.kind, candidate.version);
    let key = choose|key: Option<[u8; 32]>|
        {
            &&& #[trigger] call_ensures(object_key, named, key)
            &&& match key {
                None => r == CandidateResult::NoKey,
                Some(key) => exists|reply: Reply|
                    {
                        &&& #[trigger] represents(
                            candidate.transport,
                            candidate.storage_id,
                            max,
                            fetch_transport,
                            fetch_sealed,
                            reply,
                        )
                        &&& match served_by(reply) {
                            Served::Absent => r == CandidateResult::Absent,
                            Served::Unreachable => r == CandidateResult::Unreachable,
                            Served::Refused => r == CandidateResult::Rejected,
                            Served::Sealed(sealed) => format.settles_candidate(
                                content,
                                candidate,
                                key@,
                                sealed,
                                max_chunk,
                                import,
                                insert_verified,
                                r,
                            ),
                        }
                    },
            }
        };
    assert(call_ensures(object_key, named, key));
    if let Some(held) = key {
        let reply = choose|reply: Reply|
            {
                &&& #[trigger] represents(
                    candidate.transport,
                    candidate.storage_id,
                    max,
                    fetch_transport,
                    fetch_sealed,
                    reply,
                )
                &&& match served_by(reply) {
                    Served::Absent => r == CandidateResult::Absent,
                    Served::Unreachable => r == CandidateResult::Unreachable,
                    Served::Refused => r == CandidateResult::Rejected,
                    Served::Sealed(sealed) => format.settles_candidate(
                        content,
                        candidate,
                        held@,
                        sealed,
                        max_chunk,
                        import,
                        insert_verified,
                        r,
                    ),
                }
            };
        let first = choose|first: Reply|
            {
                &&& #[trigger] call_ensures(fetch_transport, (candidate.transport, max), first)
                &&& if falls_back(first) {
                    call_ensures(fetch_sealed, (candidate.storage_id, max), reply)
                } else {
                    reply == first
                }
            };
        if let Served::Sealed(sealed) = served_by(reply) {
            let verified = choose|verified: Result<Vec<u8>, CryptoError>|
                {
                    &&& #[trigger] verifies(
                        &format.kinds,
                        entry_of(content, candidate),
                        held@,
                        sealed@,
                        format.derive,
                        format.address,
                        seen(verified),
                    )
                    &&& match verified {
                        Err(_) => r == CandidateResult::Rejected,
                        Ok(plaintext) => if !within_ceiling(
                            candidate.kind,
                            plaintext@.len(),
                            max_chunk,
                        ) {
                            r == CandidateResult::Rejected
                        } else {
                            stores(
                                sealed,
                                candidate.kind,
                                content,
                                plaintext,
                                import,
                                insert_verified,
                                r,
                            )
                        },
                    }
                };
            if let Ok(plaintext) = verified {
                if within_ceiling(candidate.kind, plaintext@.len(), max_chunk) {
                    law_both_stores_have_to_hold_it(
                        sealed,
                        candidate.kind,
                        content,
                        plaintext,
                        import,
                        insert_verified,
                        r,
                    );
                }
            }
        }
    }
}

/// Representations are tried in plan order, and none after one that landed
/// or met a disk that can take nothing more; short of that all are tried.
pub proof fn law_trying_stops_at_the_first_end(
    candidates: Seq<PendingObjectFetch>,
    results: Seq<CandidateResult>,
    i: int,
)
    requires
        stops(candidates, results),
    ensures
        results.len() <= candidates.len(),
        0 <= i < results.len() && (results[i] is Landed || results[i] is Fatal) ==> i
            == results.len() - 1,
        results.len() < candidates.len() ==> results.len() > 0 && (results.last() is Landed
            || results.last() is Fatal),
{
    if 0 <= i < results.len() - 1 {
        assert(!crate::runtime::fetch::terminal(results[i]));
    }
}

/// The storage ids of the candidates whose results are of one sort, in plan
/// order.
pub open spec fn of_sort(
    candidates: Seq<PendingObjectFetch>,
    results: Seq<CandidateResult>,
    sort: spec_fn(CandidateResult) -> bool,
) -> Seq<StorageId>
    decreases results.len(),
{
    if results.len() == 0 {
        Seq::empty()
    } else {
        let earlier = of_sort(candidates, results.drop_last(), sort);
        if sort(results.last()) {
            earlier.push(candidates[results.len() - 1].storage_id)
        } else {
            earlier
        }
    }
}

/// Refused representations and failed routes are listed once for each time
/// they were tried, in plan order.
pub proof fn law_blame_is_listed_in_plan_order(
    candidates: Seq<PendingObjectFetch>,
    results: Seq<CandidateResult>,
)
    ensures
        tally(candidates, results).invalid == of_sort(
            candidates,
            results,
            |r: CandidateResult| r is Rejected,
        ),
        tally(candidates, results).transport_failed == of_sort(
            candidates,
            results,
            |r: CandidateResult| r is Unreachable,
        ),
    decreases results.len(),
{
    if results.len() > 0 {
        law_blame_is_listed_in_plan_order(candidates, results.drop_last());
    }
}

/// Whether an envelope opens under a key, as some content, to exactly this
/// plaintext: the tag verifies, and the plaintext hashes to nothing else.
pub open spec fn opens_only_to<D: Fn(ObjectKind, &Vec<u8>) -> ContentId>(
    kinds: &crate::seal::KindBytes,
    key: Seq<u8>,
    content: ContentId,
    sealed: Seq<u8>,
    derive: D,
    plaintext: Seq<u8>,
) -> bool {
    &&& parse(kinds, sealed) matches Some(obj)
    &&& unsealed(kinds, key, content, obj) == Ok::<Seq<u8>, CryptoError>(plaintext)
    &&& forall|id: ContentId| #[trigger] hashes(derive, obj.kind, plaintext, id) ==> id == content
}

/// Sealed bytes that open as the expected manifest of the snapshot, within
/// the limits, are taken as it.
pub proof fn law_good_manifests_open<
    D: Fn(ObjectKind, &Vec<u8>) -> ContentId,
    P: Fn(&Vec<u8>) -> Option<Manifest>,
    C: Fn(&Manifest) -> bool,
    A: Fn(&Vec<u8>) -> StorageId,
    R: Fn(&Vec<u8>) -> BaoRoot,
>(
    format: ObjectFormat<D, P, C, A, R>,
    sealed: Seq<u8>,
    key: Seq<u8>,
    expected: ContentId,
    snapshot: SnapshotId,
    is_root: bool,
    plaintext: Seq<u8>,
    r: Option<ManifestRecord>,
)
    requires
        format.opens_record(sealed, key, expected, snapshot, is_root, r),
        opens_only_to(&format.kinds, key, expected, sealed, format.derive, plaintext),
        parse(&format.kinds, sealed) matches Some(obj) && obj.kind == ObjectKind::Manifest,
        forall|bytes: Vec<u8>, parsed: Option<Manifest>|
            bytes@ == plaintext && #[trigger] call_ensures(
                format.parse_manifest,
                (&bytes,),
                parsed,
            ) ==> parsed is Some && (parsed->0).snapshot == snapshot,
        forall|manifest: Manifest, fits: bool| #[trigger]
            call_ensures(format.within_limits, (&manifest,), fits) ==> fits,
    ensures
        r is Some,
{
    let obj = parse(&format.kinds, sealed)->0;
    let opened = choose|opened: Result<Manifest, SealError>|
        {
            &&& #[trigger] opens_manifest(
                &format.kinds,
                key,
                expected,
                obj,
                format.derive,
                format.parse_manifest,
                opened,
            )
            &&& match opened {
                Err(_) => r is None,
                Ok(manifest) => exists|fits: bool|
                    {
                        &&& #[trigger] call_ensures(format.within_limits, (&manifest,), fits)
                        &&& match r {
                            None => !fits || manifest.snapshot != snapshot,
                            Some(record) => fits && manifest.snapshot == snapshot
                                && format.is_record(
                                obj.bytes(&format.kinds),
                                manifest,
                                expected,
                                is_root,
                                record,
                            ),
                        }
                    },
            }
        };
    match opened {
        Ok(manifest) => {
            let (bytes, parsed) = choose|bytes: Vec<u8>, parsed: Option<Manifest>|
                opens(&format.kinds, key, expected, obj, format.derive, Ok(bytes@))
                    && #[trigger] call_ensures(format.parse_manifest, (&bytes,), parsed) && parsed
                    == Some(manifest);
            assert(bytes@ == plaintext);
            assert(manifest.snapshot == snapshot);
        },
        Err(SealError::Manifest) => {
            let (bytes, parsed) = choose|bytes: Vec<u8>, parsed: Option<Manifest>|
                opens(&format.kinds, key, expected, obj, format.derive, Ok(bytes@))
                    && #[trigger] call_ensures(format.parse_manifest, (&bytes,), parsed)
                    && parsed is None;
            assert(bytes@ == plaintext);
            assert(false);
        },
        Err(SealError::Crypto(e)) => {
            assert(opens(&format.kinds, key, expected, obj, format.derive, Err(e)));
            assert(false);
        },
    }
}

/// What the routes came up with decides over a manifest: absence is
/// missing, a refusal invalid, a failed route a failed route. Bytes that do
/// not open as the manifest are invalid; bytes that do count as the vault
/// takes them.
pub proof fn law_served_manifests_are_taken_in<
    D: Fn(ObjectKind, &Vec<u8>) -> ContentId,
    P: Fn(&Vec<u8>) -> Option<Manifest>,
    C: Fn(&Manifest) -> bool,
    A: Fn(&Vec<u8>) -> StorageId,
    R: Fn(&Vec<u8>) -> BaoRoot,
    I: FnOnce(&Vec<u8>) -> Result<(), VaultError>,
>(
    format: ObjectFormat<D, P, C, A, R>,
    served: Served,
    key: Seq<u8>,
    expected: ContentId,
    snapshot: SnapshotId,
    is_root: bool,
    import: I,
    r: FetchOutcome<ManifestRecord>,
)
    requires
        format.settles_manifest(served, key, expected, snapshot, is_root, import, r),
    ensures
        served is Absent ==> r is Missing,
        served is Refused ==> r is Invalid,
        served is Unreachable ==> r is Transport,
        served matches Served::Sealed(sealed) ==> (forall|opened: Option<ManifestRecord>| #[trigger]
            format.opens_record(sealed@, key, expected, snapshot, is_root, opened)
                ==> opened is None) ==> r is Invalid,
        served matches Served::Sealed(sealed) ==> (forall|opened: Option<ManifestRecord>| #[trigger]
            format.opens_record(sealed@, key, expected, snapshot, is_root, opened)
                ==> opened is Some) && (forall|imported: Result<(), VaultError>| #[trigger]
            call_ensures(import, (&sealed,), imported) ==> imported is Ok) ==> (
        r matches FetchOutcome::Fulfilled(record) && format.opens_record(
            sealed@,
            key,
            expected,
            snapshot,
            is_root,
            Some(record),
        )),
{
    if let Served::Sealed(sealed) = served {
        let opened = choose|opened: Option<ManifestRecord>|
            {
                &&& #[trigger] format.opens_record(
                    sealed@,
                    key,
                    expected,
                    snapshot,
                    is_root,
                    opened,
                )
                &&& match opened {
                    None => r == FetchOutcome::<ManifestRecord>::Invalid,
                    Some(record) => exists|imported: Result<(), VaultError>|
                        {
                            &&& #[trigger] call_ensures(import, (&sealed,), imported)
                            &&& r == after_import(record, imported)
                        },
                }
            };
        if let Some(record) = opened {
            let imported = choose|imported: Result<(), VaultError>|
                {
                    &&& #[trigger] call_ensures(import, (&sealed,), imported)
                    &&& r == after_import(record, imported)
                };
            assert(call_ensures(import, (&sealed,), imported));
            assert(opened == Some(record));
        }
    }
}

/// A representation that is served, verifies as the planned one and is
/// taken by both stores lands, whatever its size: only a piece of file
/// content has a ceiling of its own.
pub proof fn law_good_representations_land<
    D: Fn(ObjectKind, &Vec<u8>) -> ContentId,
    P: Fn(&Vec<u8>) -> Option<Manifest>,
    C: Fn(&Manifest) -> bool,
    A: Fn(&Vec<u8>) -> StorageId,
    R: Fn(&Vec<u8>) -> BaoRoot,
    I: FnOnce(&Vec<u8>) -> Result<(), VaultError>,
    N: FnOnce(ObjectKind, ContentId, &Vec<u8>) -> Result<(), StoreFailure>,
>(
    format: ObjectFormat<D, P, C, A, R>,
    content: ContentId,
    candidate: PendingObjectFetch,
    key: Seq<u8>,
    sealed: Vec<u8>,
    max_chunk: usize,
    import: I,
    insert_verified: N,
    plaintext: Seq<u8>,
    r: CandidateResult,
)
    requires
        format.kinds.wf(),
        format.settles_candidate(
            content,
            candidate,
            key,
            sealed,
            max_chunk,
            import,
            insert_verified,
            r,
        ),
        opens_only_to(&format.kinds, key, content, sealed@, format.derive, plaintext),
        parse(&format.kinds, sealed@) matches Some(obj) && obj.version == candidate.version
            && obj.kind == candidate.kind,
        forall|id: StorageId| #[trigger]
            addresses(format.address, sealed@, id) ==> id == candidate.storage_id,
        plaintext.len() == candidate.size,
        candidate.kind == ObjectKind::Chunk ==> plaintext.len() <= max_chunk,
        forall|imported: Result<(), VaultError>| #[trigger]
            call_ensures(import, (&sealed,), imported) ==> imported is Ok,
        forall|stored: Vec<u8>, inserted: Result<(), StoreFailure>| #[trigger]
            call_ensures(insert_verified, (candidate.kind, content, &stored), inserted)
                ==> inserted is Ok,
    ensures
        r is Landed,
{
    let verified = choose|verified: Result<Vec<u8>, CryptoError>|
        {
            &&& #[trigger] verifies(
                &format.kinds,
                entry_of(content, candidate),
                key,
                sealed@,
                format.derive,
                format.address,
                seen(verified),
            )
            &&& match verified {
                Err(_) => r == CandidateResult::Rejected,
                Ok(found) => if !within_ceiling(candidate.kind, found@.len(), max_chunk) {
                    r == CandidateResult::Rejected
                } else {
                    stores(
                        sealed,
                        candidate.kind,
                        content,
                        found,
                        import,
                        insert_verified,
                        r,
                    )
                },
            }
        };
    crate::seal_laws::law_the_size_has_the_last_word(
        &format.kinds,
        entry_of(content, candidate),
        key,
        sealed@,
        format.derive,
        format.address,
        plaintext,
        seen(verified),
    );
    let found = verified->Ok_0;
    assert(found@ == plaintext);
    law_both_stores_have_to_hold_it(
        sealed,
        candidate.kind,
        content,
        found,
        import,
        insert_verified,
        r,
    );
}

/// A representation that does not verify, and a piece of file content over
/// its ceiling, are rejected, and neither store is asked.
pub proof fn law_bad_representations_are_rejected<
    D: Fn(ObjectKind, &Vec<u8>) -> ContentId,
    P: Fn(&Vec<u8>) -> Option<Manifest>,
    C: Fn(&Manifest) -> bool,
    A: Fn(&Vec<u8>) -> StorageId,
    R: Fn(&Vec<u8>) -> BaoRoot,
    I: FnOnce(&Vec<u8>) -> Result<(), VaultError>,
    N: FnOnce(ObjectKind, ContentId, &Vec<u8>) -> Result<(), StoreFailure>,
>(
    format: ObjectFormat<D, P, C, A, R>,
    content: ContentId,
    candidate: PendingObjectFetch,
    key: Seq<u8>,
    sealed: Vec<u8>,
    max_chunk: usize,
    import: I,
    insert_verified: N,
    r: CandidateResult,
)
    requires
        format.kinds.wf(),
        format.settles_candidate(
            content,
            candidate,
            key,
            sealed,
            max_chunk,
            import,
            insert_verified,
            r,
        ),
        forall|plaintext: Seq<u8>|
            !#[trigger] verified_as(
                format,
                content,
                candidate,
                key,
                sealed@,
                max_chunk,
                plaintext,
            ),
    ensures
        r is Rejected,
{
    let verified = choose|verified: Result<Vec<u8>, CryptoError>|
        {
            &&& #[trigger] verifies(
                &format.kinds,
                entry_of(content, candidate),
                key,
                sealed@,
                format.derive,
                format.address,
                seen(verified),
            )
            &&& match verified {
                Err(_) => r == CandidateResult::Rejected,
                Ok(found) => if !within_ceiling(candidate.kind, found@.len(), max_chunk) {
                    r == CandidateResult::Rejected
                } else {
                    stores(
                        sealed,
                        candidate.kind,
                        content,
                        found,
                        import,
                        insert_verified,
                        r,
                    )
                },
            }
        };
    if let Ok(found) = verified {
        assert(seen(verified) == Ok::<Seq<u8>, CryptoError>(found@));
        law_verified_plaintext_is_the_content(
            &format.kinds,
            entry_of(content, candidate),
            key,
            sealed@,
            format.derive,
            format.address,
            found@,
        );
        assert(!verified_as(format, content, candidate, key, sealed@, max_chunk, found@));
    }
}

} // verus!
