//! What holds of every fetch.

use vstd::prelude::*;

use crate::ids::{BaoRoot, ContentId, SnapshotId, StorageId};
use crate::model::{Manifest, ManifestRecord, ObjectKind, Snapshot, StoreFailure};
use crate::runtime::fetch::{
    decodes_body, falls_back, may_fall_back, names_snapshot, rank, represents, stops, tally,
    terminal, worst, BulkError, CandidateResult, FetchOutcome, ObjectFormat, Reply, Served,
    VaultError,
};
use crate::runtime::state::PendingObjectFetch;
use crate::seal::hashes;

verus! {

/// The more actionable of several outcomes does not depend on how they are
/// grouped, and is at least as actionable as each of them.
pub proof fn law_worst_is_the_most_actionable<T>(
    a: FetchOutcome<T>,
    b: FetchOutcome<T>,
    c: FetchOutcome<T>,
)
    ensures
        worst(worst(a, b), c) == worst(a, worst(b, c)),
        rank(worst(a, b)) >= rank(a),
        rank(worst(a, b)) >= rank(b),
        worst(a, b) == a || worst(a, b) == b,
{
}

/// A disk that can take nothing more outranks every other failure.
pub proof fn law_full_disks_outrank_other_failures<T>(
    failure: StoreFailure,
    other: FetchOutcome<T>,
)
    requires
        !(other is Fulfilled),
        !(other is Store),
    ensures
        worst(FetchOutcome::<T>::Store(failure), other) == FetchOutcome::<T>::Store(failure),
        worst(other, FetchOutcome::<T>::Store(failure)) == FetchOutcome::<T>::Store(failure),
{
}

/// Oversize is a property of the bytes: where the transport route can only
/// answer oversize, that answer stands and nothing leads on to another
/// route.
pub proof fn law_oversize_ends_the_routes<
    T: FnOnce(BaoRoot, usize) -> Reply,
    S: FnOnce(StorageId, usize) -> Reply,
>(
    transport: BaoRoot,
    storage: StorageId,
    max: usize,
    fetch_transport: T,
    fetch_sealed: S,
    r: Reply,
)
    requires
        represents(transport, storage, max, fetch_transport, fetch_sealed, r),
        forall|first: Reply| #[trigger]
            call_ensures(fetch_transport, (transport, max), first) ==> first matches Err(
                BulkError::Oversize { .. },
            ),
    ensures
        r matches Err(BulkError::Oversize { .. }),
        call_ensures(fetch_transport, (transport, max), r),
        !may_fall_back(transport, max, fetch_transport),
{
}

/// A dead or empty transport route never hides what the other route serves.
pub proof fn law_dead_routes_fall_back<
    T: FnOnce(BaoRoot, usize) -> Reply,
    S: FnOnce(StorageId, usize) -> Reply,
>(
    transport: BaoRoot,
    storage: StorageId,
    max: usize,
    fetch_transport: T,
    fetch_sealed: S,
    r: Reply,
)
    requires
        represents(transport, storage, max, fetch_transport, fetch_sealed, r),
        forall|first: Reply| #[trigger]
            call_ensures(fetch_transport, (transport, max), first) ==> falls_back(first),
    ensures
        call_ensures(fetch_sealed, (storage, max), r),
{
}

/// Whatever a peer serves, a fulfilled manifest is the expected one, of the
/// expected snapshot, and its one representation is the one it serves.
pub proof fn law_fulfilled_manifests_are_the_expected_ones<
    D: Fn(ObjectKind, &Vec<u8>) -> ContentId,
    P: Fn(&Vec<u8>) -> Option<Manifest>,
    C: Fn(&Manifest) -> bool,
    A: Fn(&Vec<u8>) -> StorageId,
    R: Fn(&Vec<u8>) -> BaoRoot,
    I: FnOnce(&Vec<u8>) -> Result<(), VaultError>,
>(
    format: ObjectFormat<D, P, C, A, R>,
    served: Served,
    key: Seq<u8>,
    expected: ContentId,
    snapshot: SnapshotId,
    is_root: bool,
    import: I,
    record: ManifestRecord,
)
    requires
        format.settles_manifest(
            served,
            key,
            expected,
            snapshot,
            is_root,
            import,
            FetchOutcome::Fulfilled(record),
        ),
    ensures
        record.manifest_id == expected,
        record.manifest.snapshot == snapshot,
        record.is_root == is_root,
        record.wf(),
        record.represented(),
        served matches Served::Sealed(sealed) && call_ensures(
            import,
            (&sealed,),
            Ok::<(), VaultError>(()),
        ),
{
    if let Served::Sealed(sealed) = served {
        let opened = choose|opened: Option<ManifestRecord>|
            {
                &&& #[trigger] format.opens_record(
                    sealed@,
                    key,
                    expected,
                    snapshot,
                    is_root,
                    opened,
                )
                &&& match opened {
                    None => FetchOutcome::Fulfilled(record) == FetchOutcome::<
                        ManifestRecord,
                    >::Invalid,
                    Some(r) => exists|imported: Result<(), VaultError>|
                        {
                            &&& #[trigger] call_ensures(import, (&sealed,), imported)
                            &&& FetchOutcome::Fulfilled(record)
                                == crate::runtime::fetch::after_import(r, imported)
                        },
                }
            };
        assert(opened == Some(record));
        let imported = choose|imported: Result<(), VaultError>|
            {
                &&& #[trigger] call_ensures(import, (&sealed,), imported)
                &&& FetchOutcome::Fulfilled(record) == crate::runtime::fetch::after_import(
                    record,
                    imported,
                )
            };
        assert(imported is Ok);
        assert(imported == Ok::<(), VaultError>(imported->Ok_0));
        assert(imported->Ok_0 == ());
        assert(exists|storage: StorageId|
            #[trigger] record.representations@.contains_key(storage)
                && record.representations@[storage] == record.transport) by {
            let storage = choose|storage: StorageId|
                record.representations@ == Map::<StorageId, BaoRoot>::empty().insert(
                    storage,
                    record.transport,
                );
            assert(record.representations@.contains_key(storage));
        }
    }
}

/// Whatever a peer serves, a fulfilled body is filed under the snapshot id,
/// hashes to it and keeps within the parent ceiling.
pub proof fn law_fulfilled_bodies_are_the_snapshots_own<
    D: Fn(ObjectKind, &Vec<u8>) -> ContentId,
    F: FnOnce(&Vec<u8>) -> Option<Snapshot>,
>(
    bytes: Vec<u8>,
    snapshot: SnapshotId,
    max_parents: usize,
    derive: D,
    decode: F,
    body: Snapshot,
)
    requires
        decodes_body(
            bytes,
            snapshot,
            max_parents,
            derive,
            decode,
            FetchOutcome::Fulfilled(body),
        ),
    ensures
        body.id == snapshot,
        body.encoded == bytes,
        body.parents@.len() <= max_parents,
        exists|id: ContentId| #[trigger]
            hashes(derive, ObjectKind::Snapshot, bytes@, id) && names_snapshot(id, snapshot),
{
}

/// The verdict that one representation alone would give.
pub open spec fn verdict(result: CandidateResult) -> FetchOutcome<()> {
    match result {
        CandidateResult::NoKey => FetchOutcome::UnavailableKey,
        CandidateResult::Absent => FetchOutcome::Missing,
        CandidateResult::Unreachable => FetchOutcome::Transport,
        CandidateResult::Rejected => FetchOutcome::Invalid,
        CandidateResult::Declined => FetchOutcome::Local,
        CandidateResult::Fatal(failure) => FetchOutcome::Store(failure),
        CandidateResult::Landed => FetchOutcome::Fulfilled(()),
    }
}

proof fn lemma_tally(candidates: Seq<PendingObjectFetch>, results: Seq<CandidateResult>)
    requires
        results.len() <= candidates.len(),
        forall|i: int| 0 <= i < results.len() - 1 ==> !terminal(#[trigger] results[i]),
    ensures
        forall|i: int|
            0 <= i < results.len() ==> rank(verdict(#[trigger] results[i])) <= rank(
                tally(candidates, results).aggregate,
            ),
        results.len() == 0 ==> tally(candidates, results).aggregate == FetchOutcome::<()>::Missing,
        results.len() > 0 ==> exists|i: int|
            0 <= i < results.len() && tally(candidates, results).aggregate == verdict(
                #[trigger] results[i],
            ),
        forall|storage: StorageId| #[trigger]
            tally(candidates, results).invalid.contains(storage) <==> exists|i: int|
                0 <= i < results.len() && #[trigger] results[i] is Rejected
                    && candidates[i].storage_id == storage,
        forall|storage: StorageId| #[trigger]
            tally(candidates, results).transport_failed.contains(storage) <==> exists|i: int|
                0 <= i < results.len() && #[trigger] results[i] is Unreachable
                    && candidates[i].storage_id == storage,
        results.len() > 0 && results.last() is Landed ==> tally(candidates, results).fulfilled
            == Some(candidates[results.len() - 1].storage_id),
        results.len() == 0 || !(results.last() is Landed) ==> tally(
            candidates,
            results,
        ).fulfilled is None,
    decreases results.len(),
{
    if results.len() > 0 {
        let init = results.drop_last();
        let last = results.last();
        let storage = candidates[results.len() - 1].storage_id;
        lemma_tally(candidates, init);
        let before = tally(candidates, init);
        let after = tally(candidates, results);
        if init.len() > 0 {
            assert(!terminal(results[init.len() - 1]));
            assert(init.last() == results[init.len() - 1]);
        }
        assert(rank(before.aggregate) <= 4) by {
            if init.len() > 0 {
                let k = choose|k: int|
                    0 <= k < init.len() && before.aggregate == verdict(#[trigger] init[k]);
                assert(init[k] == results[k]);
                assert(!terminal(results[k]));
            }
        }
        assert(before.fulfilled is None);
        assert forall|i: int| 0 <= i < results.len() implies rank(verdict(#[trigger] results[i]))
            <= rank(after.aggregate) by {
            if i < init.len() {
                assert(init[i] == results[i]);
            }
        }
        assert(exists|i: int|
            0 <= i < results.len() && after.aggregate == verdict(#[trigger] results[i])) by {
            assert(results[results.len() - 1] == last);
            if after.aggregate != verdict(last) {
                assert(after.aggregate == before.aggregate);
                if init.len() > 0 {
                    let k = choose|k: int|
                        0 <= k < init.len() && before.aggregate == verdict(#[trigger] init[k]);
                    assert(results[k] == init[k]);
                } else {
                    assert(before.aggregate == FetchOutcome::<()>::Missing);
                    assert(rank(verdict(last)) == 0);
                }
            }
        }
        assert forall|s: StorageId| #[trigger] after.invalid.contains(s) <==> exists|i: int|
            0 <= i < results.len() && #[trigger] results[i] is Rejected && candidates[i].storage_id
                == s by {
            lemma_push_contains(before.invalid, storage, s);
            if before.invalid.contains(s) {
                let k = choose|k: int|
                    0 <= k < init.len() && #[trigger] init[k] is Rejected
                        && candidates[k].storage_id == s;
                assert(results[k] == init[k]);
            }
            if exists|i: int|
                0 <= i < results.len() && #[trigger] results[i] is Rejected
                    && candidates[i].storage_id == s {
                let k = choose|i: int|
                    0 <= i < results.len() && #[trigger] results[i] is Rejected
                        && candidates[i].storage_id == s;
                if k < init.len() {
                    assert(init[k] == results[k]);
                }
            }
            assert(results[results.len() - 1] == last);
        }
        assert forall|s: StorageId| #[trigger] after.transport_failed.contains(s)
            <==> exists|i: int|
            0 <= i < results.len() && #[trigger] results[i] is Unreachable
                && candidates[i].storage_id == s by {
            lemma_push_contains(before.transport_failed, storage, s);
            if before.transport_failed.contains(s) {
                let k = choose|k: int|
                    0 <= k < init.len() && #[trigger] init[k] is Unreachable
                        && candidates[k].storage_id == s;
                assert(results[k] == init[k]);
            }
            if exists|i: int|
                0 <= i < results.len() && #[trigger] results[i] is Unreachable
                    && candidates[i].storage_id == s {
                let k = choose|i: int|
                    0 <= i < results.len() && #[trigger] results[i] is Unreachable
                        && candidates[i].storage_id == s;
                if k < init.len() {
                    assert(init[k] == results[k]);
                }
            }
            assert(results[results.len() - 1] == last);
        }
    }
}

proof fn lemma_push_contains<T>(s: Seq<T>, x: T, y: T)
    ensures
        s.push(x).contains(y) <==> s.contains(y) || x == y,
{
    if s.contains(y) {
        assert(s.push(x)[s.index_of(y)] == y);
    }
    assert(s.push(x)[s.len() as int] == x);
}

/// One landed representation fulfils the object, whatever the others did,
/// and nothing else does; it is the last that is tried.
pub proof fn law_one_good_representation_is_enough(
    candidates: Seq<PendingObjectFetch>,
    results: Seq<CandidateResult>,
)
    requires
        stops(candidates, results),
    ensures
        tally(candidates, results).aggregate is Fulfilled <==> exists|i: int|
            0 <= i < results.len() && #[trigger] results[i] is Landed,
        tally(candidates, results).fulfilled is Some <==> tally(
            candidates,
            results,
        ).aggregate is Fulfilled,
        forall|i: int|
            0 <= i < results.len() && #[trigger] results[i] is Landed ==> i == results.len() - 1
                && tally(candidates, results).fulfilled == Some(candidates[i].storage_id),
{
    lemma_tally(candidates, results);
    if exists|i: int| 0 <= i < results.len() && #[trigger] results[i] is Landed {
        let i = choose|i: int| 0 <= i < results.len() && #[trigger] results[i] is Landed;
        assert(i == results.len() - 1);
        assert(rank(verdict(results[i])) == 255);
    }
    if results.len() > 0 {
        assert(results[results.len() - 1] == results.last());
    }
}

/// When no representation lands, the most actionable of their verdicts is
/// the object's.
pub proof fn law_the_most_actionable_verdict_stands(
    candidates: Seq<PendingObjectFetch>,
    results: Seq<CandidateResult>,
)
    requires
        stops(candidates, results),
    ensures
        forall|i: int|
            0 <= i < results.len() ==> rank(verdict(#[trigger] results[i])) <= rank(
                tally(candidates, results).aggregate,
            ),
        candidates.len() > 0 ==> exists|i: int|
            0 <= i < results.len() && tally(candidates, results).aggregate == verdict(
                #[trigger] results[i],
            ),
        candidates.len() == 0 ==> tally(candidates, results).aggregate == FetchOutcome::<()>::Missing,
{
    lemma_tally(candidates, results);
}

/// Only representations whose bytes were refused count as invalid, and only
/// those whose routes failed count as unreachable: absence, a missing key
/// and a local refusal are held against none.
pub proof fn law_blame_is_exact(
    candidates: Seq<PendingObjectFetch>,
    results: Seq<CandidateResult>,
    storage: StorageId,
)
    requires
        stops(candidates, results),
    ensures
        tally(candidates, results).invalid.contains(storage) <==> exists|i: int|
            0 <= i < results.len() && #[trigger] results[i] is Rejected
                && candidates[i].storage_id == storage,
        tally(candidates, results).transport_failed.contains(storage) <==> exists|i: int|
            0 <= i < results.len() && #[trigger] results[i] is Unreachable
                && candidates[i].storage_id == storage,
{
    lemma_tally(candidates, results);
}

} // verus!
