//! What the serving surface hands out, related to the recorded manifests
//! themselves.

use vstd::prelude::*;
use vstd::utf8::encode_utf8;

use crate::ids::{BaoRoot, ContentId, SnapshotId, StorageId};
use crate::model::ManifestRecord;
use crate::order::{in_order, Key};
use crate::order_laws::{law_the_first_difference_decides, smaller_at};
use crate::runtime::fetch::BulkError;
use crate::runtime::laws::law_recorded_roots_are_served;
use crate::runtime::state::{is_root_of, records_in_order, RuntimeView};
use crate::serving::{
    addresses, entered, hex_bytes, hex_char, hex_name, hex_value, is_hex_32, lemma_entered,
    lemma_entered_more, limited, mapped_pairs, named_roots, reads, record_pairs,
    representation_pairs, root_bytes, root_pairs, served_addresses, served_root, serves_bodies,
    serves_roots, sorted_roots, SourceView,
};

verus! {

/// Whether a recorded manifest's entry names a root for a storage id.
pub open spec fn entry_names(v: RuntimeView, storage: StorageId, root: BaoRoot) -> bool {
    exists|m: ContentId, i: int|
        {
            &&& v.manifests.contains_key(m)
            &&& 0 <= i < v.manifests[m].manifest.entries@.len()
            &&& (#[trigger] v.manifests[m].manifest.entries@[i]).storage_id == storage
            &&& v.manifests[m].manifest.entries@[i].transport == root
        }
}

/// Whether a recorded manifest's child link names a root for a storage id.
pub open spec fn link_names(v: RuntimeView, storage: StorageId, root: BaoRoot) -> bool {
    exists|m: ContentId, i: int|
        {
            &&& v.manifests.contains_key(m)
            &&& 0 <= i < v.manifests[m].manifest.children@.len()
            &&& (#[trigger] v.manifests[m].manifest.children@[i]).storage == storage
            &&& v.manifests[m].manifest.children@[i].transport == root
        }
}

/// Whether the root manifest of some snapshot has a representation under a
/// storage id.
pub open spec fn root_names(v: RuntimeView, storage: StorageId, root: BaoRoot) -> bool {
    exists|s: SnapshotId|
        {
            &&& #[trigger] v.root_manifest(s) is Some
            &&& v.manifests[v.root_manifest(s)->0].representations@.contains_key(storage)
            &&& v.manifests[v.root_manifest(s)->0].representations@[storage] == root
        }
}

/// Whether anything that is recorded to be served names a root for a
/// storage id.
pub open spec fn names_root(v: RuntimeView, storage: StorageId, root: BaoRoot) -> bool {
    entry_names(v, storage, root) || link_names(v, storage, root) || root_names(v, storage, root)
}

proof fn lemma_pair_of_record(
    records: Seq<ManifestRecord>,
    n: int,
    pair: (StorageId, BaoRoot),
)
    requires
        0 <= n < records.len(),
        mapped_pairs(records[n]).contains(pair),
    ensures
        record_pairs(records).contains(pair),
    decreases records.len(),
{
    let earlier = record_pairs(records.drop_last());
    let last = mapped_pairs(records.last());
    if n == records.len() - 1 {
        let i = last.index_of(pair);
        assert(record_pairs(records)[earlier.len() + i] == pair);
    } else {
        lemma_pair_of_record(records.drop_last(), n, pair);
        let i = earlier.index_of(pair);
        assert(record_pairs(records)[i] == pair);
    }
}

proof fn lemma_record_of_pair(records: Seq<ManifestRecord>, pair: (StorageId, BaoRoot)) -> (n: int)
    requires
        record_pairs(records).contains(pair),
    ensures
        0 <= n < records.len(),
        mapped_pairs(records[n]).contains(pair),
    decreases records.len(),
{
    let earlier = record_pairs(records.drop_last());
    let last = mapped_pairs(records.last());
    let i = record_pairs(records).index_of(pair);
    if i < earlier.len() {
        assert(earlier[i] == pair);
        lemma_record_of_pair(records.drop_last(), pair)
    } else {
        assert(last[i - earlier.len()] == pair);
        records.len() - 1
    }
}

/// The pairs that the recorded manifests map are those of their entries
/// and links.
proof fn lemma_mapped(v: RuntimeView, storage: StorageId, root: BaoRoot)
    requires
        v.consistent(),
    ensures
        record_pairs(records_in_order(v.manifests)).contains((storage, root)) <==> entry_names(
            v,
            storage,
            root,
        ) || link_names(v, storage, root),
{
    let records = records_in_order(v.manifests);
    let pair = (storage, root);
    v.lemma_records();
    if record_pairs(records).contains(pair) {
        let n = lemma_record_of_pair(records, pair);
        let m = records[n].manifest_id;
        let entries = v.manifests[m].manifest.entries@;
        let children = v.manifests[m].manifest.children@;
        let i = mapped_pairs(records[n]).index_of(pair);
        if i < entries.len() {
            assert(v.manifests[m].manifest.entries@[i].storage_id == storage);
        } else {
            let j = i - entries.len();
            assert(v.manifests[m].manifest.children@[j].storage == storage);
        }
    }
    if entry_names(v, storage, root) {
        let (m, i) = choose|m: ContentId, i: int|
            {
                &&& v.manifests.contains_key(m)
                &&& 0 <= i < v.manifests[m].manifest.entries@.len()
                &&& (#[trigger] v.manifests[m].manifest.entries@[i]).storage_id == storage
                &&& v.manifests[m].manifest.entries@[i].transport == root
            };
        let n = choose|n: int| 0 <= n < records.len() && #[trigger] records[n] == v.manifests[m];
        assert(mapped_pairs(records[n])[i] == pair);
        lemma_pair_of_record(records, n, pair);
    }
    if link_names(v, storage, root) {
        let (m, i) = choose|m: ContentId, i: int|
            {
                &&& v.manifests.contains_key(m)
                &&& 0 <= i < v.manifests[m].manifest.children@.len()
                &&& (#[trigger] v.manifests[m].manifest.children@[i]).storage == storage
                &&& v.manifests[m].manifest.children@[i].transport == root
            };
        let n = choose|n: int| 0 <= n < records.len() && #[trigger] records[n] == v.manifests[m];
        assert(mapped_pairs(records[n])[records[n].manifest.entries@.len() + i] == pair);
        lemma_pair_of_record(records, n, pair);
    }
}

proof fn lemma_representation_pair(record: ManifestRecord, storage: StorageId, root: BaoRoot)
    requires
        record.wf(),
    ensures
        representation_pairs(record).contains((storage, root)) <==> record.representations@
            .contains_key(storage) && record.representations@[storage] == root,
{
    let storages = in_order::<StorageId>(record.representations@.dom());
    record.representations.lemma_keys();
    if representation_pairs(record).contains((storage, root)) {
        let i = representation_pairs(record).index_of((storage, root));
        assert(storages.contains(storages[i]));
        assert(record.representations@.dom().contains(storages[i]));
    }
    if record.representations@.contains_key(storage) {
        assert(record.representations@.dom().contains(storage));
        assert(storages.contains(storage));
        let i = storages.index_of(storage);
        assert(representation_pairs(record)[i] == (storage, record.representations@[storage]));
    }
}

proof fn lemma_root_pair(
    v: RuntimeView,
    snapshots: Seq<SnapshotId>,
    storage: StorageId,
    root: BaoRoot,
)
    requires
        v.consistent(),
    ensures
        root_pairs(v, snapshots).contains((storage, root)) <==> exists|i: int|
            {
                &&& 0 <= i < snapshots.len()
                &&& v.root_manifest(#[trigger] snapshots[i]) is Some
                &&& v.manifests[v.root_manifest(snapshots[i])->0].representations@.contains_key(
                    storage,
                )
                &&& v.manifests[v.root_manifest(snapshots[i])->0].representations@[storage] == root
            },
    decreases snapshots.len(),
{
    let pair = (storage, root);
    if snapshots.len() > 0 {
        let init = snapshots.drop_last();
        let earlier = root_pairs(v, init);
        let all = root_pairs(v, snapshots);
        let last = snapshots.last();
        lemma_root_pair(v, init, storage, root);
        law_recorded_roots_are_served(v, last);
        assert(snapshots[snapshots.len() - 1] == last);
        if all.contains(pair) {
            let i = all.index_of(pair);
            if i < earlier.len() {
                assert(earlier[i] == pair);
                let k = choose|i: int|
                    {
                        &&& 0 <= i < init.len()
                        &&& v.root_manifest(#[trigger] init[i]) is Some
                        &&& v.manifests[v.root_manifest(
                            init[i],
                        )->0].representations@.contains_key(storage)
                        &&& v.manifests[v.root_manifest(init[i])->0].representations@[storage]
                            == root
                    };
                assert(snapshots[k] == init[k]);
            } else {
                let record = served_root(v, last)->0;
                assert(representation_pairs(record)[i - earlier.len()] == pair);
                lemma_representation_pair(record, storage, root);
            }
        }
        if exists|i: int|
            {
                &&& 0 <= i < snapshots.len()
                &&& v.root_manifest(#[trigger] snapshots[i]) is Some
                &&& v.manifests[v.root_manifest(snapshots[i])->0].representations@.contains_key(
                    storage,
                )
                &&& v.manifests[v.root_manifest(snapshots[i])->0].representations@[storage] == root
            } {
            let k = choose|i: int|
                {
                    &&& 0 <= i < snapshots.len()
                    &&& v.root_manifest(#[trigger] snapshots[i]) is Some
                    &&& v.manifests[v.root_manifest(
                        snapshots[i],
                    )->0].representations@.contains_key(storage)
                    &&& v.manifests[v.root_manifest(snapshots[i])->0].representations@[storage]
                        == root
                };
            if k < init.len() {
                assert(init[k] == snapshots[k]);
                assert(earlier.contains(pair));
                assert(all[earlier.index_of(pair)] == pair);
            } else {
                let record = v.manifests[v.root_manifest(last)->0];
                assert(record.representations@ != Map::<StorageId, BaoRoot>::empty());
                lemma_representation_pair(record, storage, root);
                let p = representation_pairs(record).index_of(pair);
                assert(all[earlier.len() + p] == pair);
            }
        }
    }
}

proof fn lemma_rooted(v: RuntimeView, storage: StorageId, root: BaoRoot)
    requires
        v.consistent(),
    ensures
        root_pairs(v, in_order::<SnapshotId>(v.recorded())).contains((storage, root))
            <==> root_names(v, storage, root),
{
    let snapshots = in_order::<SnapshotId>(v.recorded());
    v.lemma_orders();
    lemma_root_pair(v, snapshots, storage, root);
    if root_names(v, storage, root) {
        let s = choose|s: SnapshotId|
            {
                &&& #[trigger] v.root_manifest(s) is Some
                &&& v.manifests[v.root_manifest(s)->0].representations@.contains_key(storage)
                &&& v.manifests[v.root_manifest(s)->0].representations@[storage] == root
            };
        assert(v.recorded().contains(s));
        assert(snapshots.contains(s));
        let i = snapshots.index_of(s);
        assert(snapshots[i] == s);
    }
}

/// A storage id is served exactly when something recorded names a root for
/// it: an entry or a child link of a recorded manifest, or a representation
/// of a snapshot's root manifest. What is served is a root so named.
pub proof fn law_served_addresses_are_named(v: RuntimeView, storage: StorageId)
    requires
        v.consistent(),
    ensures
        served_addresses(v).contains_key(storage) <==> exists|root: BaoRoot| #[trigger]
            names_root(v, storage, root),
        served_addresses(v).contains_key(storage) ==> names_root(
            v,
            storage,
            served_addresses(v)[storage],
        ),
{
    let first = root_pairs(v, in_order::<SnapshotId>(v.recorded()));
    let second = record_pairs(records_in_order(v.manifests));
    let pairs = first + second;
    lemma_entered(Map::empty(), pairs, storage);
    if served_addresses(v).contains_key(storage) {
        let root = served_addresses(v)[storage];
        let i = choose|i: int| 0 <= i < pairs.len() && #[trigger] pairs[i] == (storage, root);
        if i < first.len() {
            assert(first[i] == (storage, root));
            lemma_rooted(v, storage, root);
        } else {
            assert(second[i - first.len()] == (storage, root));
            lemma_mapped(v, storage, root);
        }
        assert(names_root(v, storage, root));
    }
    if exists|root: BaoRoot| #[trigger] names_root(v, storage, root) {
        let root = choose|root: BaoRoot| #[trigger] names_root(v, storage, root);
        lemma_rooted(v, storage, root);
        lemma_mapped(v, storage, root);
        if first.contains((storage, root)) {
            let i = first.index_of((storage, root));
            assert(pairs[i].0 == storage);
        } else {
            assert(second.contains((storage, root)));
            let i = second.index_of((storage, root));
            assert(pairs[first.len() + i].0 == storage);
        }
        assert(addresses(pairs, storage));
    }
}

/// An entry of a recorded manifest whose storage id nothing else names
/// another root for is served under exactly the entry's root.
pub proof fn law_entries_are_served_under_their_roots(v: RuntimeView, manifest: ContentId, i: int)
    requires
        v.consistent(),
        v.manifests.contains_key(manifest),
        0 <= i < v.manifests[manifest].manifest.entries@.len(),
        forall|root: BaoRoot|
            names_root(v, v.manifests[manifest].manifest.entries@[i].storage_id, root) ==> root
                == v.manifests[manifest].manifest.entries@[i].transport,
    ensures
        ({
            let entry = v.manifests[manifest].manifest.entries@[i];
            &&& served_addresses(v).contains_key(entry.storage_id)
            &&& served_addresses(v)[entry.storage_id] == entry.transport
        }),
{
    let entry = v.manifests[manifest].manifest.entries@[i];
    assert(entry_names(v, entry.storage_id, entry.transport));
    assert(names_root(v, entry.storage_id, entry.transport));
    law_served_addresses_are_named(v, entry.storage_id);
}

/// A child link of a recorded manifest whose storage id nothing else names
/// another root for is served under exactly the link's root.
pub proof fn law_links_are_served_under_their_roots(v: RuntimeView, manifest: ContentId, i: int)
    requires
        v.consistent(),
        v.manifests.contains_key(manifest),
        0 <= i < v.manifests[manifest].manifest.children@.len(),
        forall|root: BaoRoot|
            names_root(v, v.manifests[manifest].manifest.children@[i].storage, root) ==> root
                == v.manifests[manifest].manifest.children@[i].transport,
    ensures
        ({
            let link = v.manifests[manifest].manifest.children@[i];
            &&& served_addresses(v).contains_key(link.storage)
            &&& served_addresses(v)[link.storage] == link.transport
        }),
{
    let link = v.manifests[manifest].manifest.children@[i];
    assert(link_names(v, link.storage, link.transport));
    assert(names_root(v, link.storage, link.transport));
    law_served_addresses_are_named(v, link.storage);
}

/// A representation of a snapshot's root manifest whose storage id nothing
/// else names another root for is served under exactly its root.
pub proof fn law_representations_are_served_under_their_roots(
    v: RuntimeView,
    snapshot: SnapshotId,
    manifest: ContentId,
    storage: StorageId,
)
    requires
        v.consistent(),
        v.root_manifest(snapshot) == Some(manifest),
        v.manifests[manifest].representations@.contains_key(storage),
        forall|root: BaoRoot|
            names_root(v, storage, root) ==> root
                == v.manifests[manifest].representations@[storage],
    ensures
        served_addresses(v).contains_key(storage),
        served_addresses(v)[storage] == v.manifests[manifest].representations@[storage],
{
    assert(v.root_manifest(snapshot) is Some);
    assert(root_names(v, storage, v.manifests[manifest].representations@[storage]));
    assert(names_root(v, storage, v.manifests[manifest].representations@[storage]));
    law_served_addresses_are_named(v, storage);
}

proof fn lemma_untouched(
    map: Map<StorageId, BaoRoot>,
    pairs: Seq<(StorageId, BaoRoot)>,
    storage: StorageId,
)
    requires
        !addresses(pairs, storage),
    ensures
        entered(map, pairs).contains_key(storage) <==> map.contains_key(storage),
        entered(map, pairs)[storage] == map[storage],
    decreases pairs.len(),
{
    if pairs.len() > 0 {
        let rest = pairs.drop_last();
        assert(pairs[pairs.len() - 1] == pairs.last());
        assert(!addresses(rest, storage)) by {
            if addresses(rest, storage) {
                let i = choose|i: int| 0 <= i < rest.len() && (#[trigger] rest[i]).0 == storage;
                assert(pairs[i].0 == storage);
            }
        }
        lemma_untouched(map, rest, storage);
    }
}

proof fn lemma_last_entered(
    map: Map<StorageId, BaoRoot>,
    pairs: Seq<(StorageId, BaoRoot)>,
    i: int,
)
    requires
        0 <= i < pairs.len(),
        forall|j: int| i < j < pairs.len() ==> (#[trigger] pairs[j]).0 != pairs[i].0,
    ensures
        entered(map, pairs).contains_key(pairs[i].0),
        entered(map, pairs)[pairs[i].0] == pairs[i].1,
    decreases pairs.len(),
{
    let rest = pairs.drop_last();
    assert(pairs[pairs.len() - 1] == pairs.last());
    if i < rest.len() {
        assert forall|j: int| i < j < rest.len() implies (#[trigger] rest[j]).0 != rest[i].0 by {
            assert(pairs[j].0 != pairs[i].0);
        }
        lemma_last_entered(map, rest, i);
        assert(pairs[pairs.len() - 1].0 != pairs[i].0);
    }
}

proof fn lemma_last_recorded(
    map: Map<StorageId, BaoRoot>,
    records: Seq<ManifestRecord>,
    n: int,
    i: int,
)
    requires
        0 <= n < records.len(),
        0 <= i < mapped_pairs(records[n]).len(),
        forall|j: int|
            i < j < mapped_pairs(records[n]).len() ==> (#[trigger] mapped_pairs(records[n])[j]).0
                != mapped_pairs(records[n])[i].0,
        forall|k: int|
            n < k < records.len() ==> !addresses(
                mapped_pairs(#[trigger] records[k]),
                mapped_pairs(records[n])[i].0,
            ),
    ensures
        entered(map, record_pairs(records)).contains_key(mapped_pairs(records[n])[i].0),
        entered(map, record_pairs(records))[mapped_pairs(records[n])[i].0] == mapped_pairs(
            records[n],
        )[i].1,
    decreases records.len(),
{
    let init = records.drop_last();
    let last = mapped_pairs(records.last());
    assert(records[records.len() - 1] == records.last());
    lemma_entered_more(map, record_pairs(init), last);
    if n == records.len() - 1 {
        lemma_last_entered(entered(map, record_pairs(init)), last, i);
    } else {
        assert(init[n] == records[n]);
        assert forall|k: int| n < k < init.len() implies !addresses(
            mapped_pairs(#[trigger] init[k]),
            mapped_pairs(init[n])[i].0,
        ) by {
            assert(init[k] == records[k]);
        }
        lemma_last_recorded(map, init, n, i);
        lemma_untouched(
            entered(map, record_pairs(init)),
            last,
            mapped_pairs(records[n])[i].0,
        );
    }
}

/// Whether a recorded manifest's entries or links name a storage id.
pub open spec fn manifest_names(record: ManifestRecord, storage: StorageId) -> bool {
    ||| exists|i: int|
        0 <= i < record.manifest.entries@.len() && (
        #[trigger] record.manifest.entries@[i]).storage_id == storage
    ||| exists|i: int|
        0 <= i < record.manifest.children@.len() && (
        #[trigger] record.manifest.children@[i]).storage == storage
}

proof fn lemma_manifest_names(record: ManifestRecord, storage: StorageId)
    ensures
        addresses(mapped_pairs(record), storage) ==> manifest_names(record, storage),
{
    let pairs = mapped_pairs(record);
    if addresses(pairs, storage) {
        let i = choose|i: int| 0 <= i < pairs.len() && (#[trigger] pairs[i]).0 == storage;
        if i < record.manifest.entries@.len() {
            assert(record.manifest.entries@[i].storage_id == storage);
        } else {
            assert(record.manifest.children@[i - record.manifest.entries@.len()].storage
                == storage);
        }
    }
}

/// Where several name a root for one storage id, the last one is served:
/// manifests count in id order, after every representation, and within a
/// manifest entries in their order, and the links after them.
pub proof fn law_the_last_named_root_is_served(v: RuntimeView, manifest: ContentId, i: int)
    requires
        v.consistent(),
        v.manifests.contains_key(manifest),
    ensures
        ({
            let entries = v.manifests[manifest].manifest.entries@;
            let storage = entries[i].storage_id;
            (0 <= i < entries.len() && (forall|j: int|
                i < j < entries.len() ==> (#[trigger] entries[j]).storage_id != storage) && (forall|
                j: int,
            |
                0 <= j < v.manifests[manifest].manifest.children@.len() ==> (
                #[trigger] v.manifests[manifest].manifest.children@[j]).storage != storage)
                && (forall|m: ContentId|
                v.manifests.contains_key(m) && ContentId::before(manifest, m) ==> !manifest_names(
                    #[trigger] v.manifests[m],
                    storage,
                ))) ==> served_addresses(v).contains_key(storage) && served_addresses(v)[storage]
                == entries[i].transport
        }),
        ({
            let children = v.manifests[manifest].manifest.children@;
            let storage = children[i].storage;
            (0 <= i < children.len() && (forall|j: int|
                i < j < children.len() ==> (#[trigger] children[j]).storage != storage) && (forall|
                m: ContentId,
            |
                v.manifests.contains_key(m) && ContentId::before(manifest, m) ==> !manifest_names(
                    #[trigger] v.manifests[m],
                    storage,
                ))) ==> served_addresses(v).contains_key(storage) && served_addresses(v)[storage]
                == children[i].transport
        }),
{
    let records = records_in_order(v.manifests);
    let first = root_pairs(v, in_order::<SnapshotId>(v.recorded()));
    v.lemma_records();
    let n = choose|n: int|
        0 <= n < records.len() && #[trigger] records[n] == v.manifests[manifest];
    let entries = v.manifests[manifest].manifest.entries@;
    let children = v.manifests[manifest].manifest.children@;
    let pairs = mapped_pairs(records[n]);
    assert(records[n].manifest_id == manifest);
    lemma_entered_more(Map::empty(), first, record_pairs(records));
    let base = entered(Map::empty(), first);
    if 0 <= i < entries.len() && (forall|j: int|
        i < j < entries.len() ==> (#[trigger] entries[j]).storage_id != entries[i].storage_id) && (
    forall|j: int|
        0 <= j < children.len() ==> (#[trigger] children[j]).storage != entries[i].storage_id) && (
    forall|m: ContentId|
        v.manifests.contains_key(m) && ContentId::before(manifest, m) ==> !manifest_names(
            #[trigger] v.manifests[m],
            entries[i].storage_id,
        )) {
        let storage = entries[i].storage_id;
        assert(pairs[i] == (storage, entries[i].transport));
        assert forall|j: int| i < j < pairs.len() implies (#[trigger] mapped_pairs(
            records[n],
        )[j]).0 != mapped_pairs(records[n])[i].0 by {
            if j < entries.len() {
                assert(entries[j].storage_id != storage);
            } else {
                assert(children[j - entries.len()].storage != storage);
            }
        }
        assert forall|k: int| n < k < records.len() implies !addresses(
            mapped_pairs(#[trigger] records[k]),
            storage,
        ) by {
            assert(ContentId::before(records[n].manifest_id, records[k].manifest_id));
            assert(records[k] == v.manifests[records[k].manifest_id]);
            lemma_manifest_names(records[k], storage);
        }
        lemma_last_recorded(base, records, n, i);
    }
    if 0 <= i < children.len() && (forall|j: int|
        i < j < children.len() ==> (#[trigger] children[j]).storage != children[i].storage) && (
    forall|m: ContentId|
        v.manifests.contains_key(m) && ContentId::before(manifest, m) ==> !manifest_names(
            #[trigger] v.manifests[m],
            children[i].storage,
        )) {
        let storage = children[i].storage;
        let at = entries.len() + i;
        assert(pairs[at] == (storage, children[i].transport));
        assert forall|j: int| at < j < pairs.len() implies (#[trigger] mapped_pairs(
            records[n],
        )[j]).0 != mapped_pairs(records[n])[at].0 by {
            assert(children[j - entries.len()].storage != storage);
        }
        assert forall|k: int| n < k < records.len() implies !addresses(
            mapped_pairs(#[trigger] records[k]),
            storage,
        ) by {
            assert(ContentId::before(records[n].manifest_id, records[k].manifest_id));
            assert(records[k] == v.manifests[records[k].manifest_id]);
            lemma_manifest_names(records[k], storage);
        }
        lemma_last_recorded(base, records, n, at);
    }
}

/// Whether a snapshot's root manifest has a representation under a storage
/// id.
pub open spec fn represents(v: RuntimeView, snapshot: SnapshotId, storage: StorageId) -> bool {
    v.root_manifest(snapshot) is Some && v.manifests[v.root_manifest(
        snapshot,
    )->0].representations@.contains_key(storage)
}

proof fn lemma_representations_entered(
    map: Map<StorageId, BaoRoot>,
    record: ManifestRecord,
    storage: StorageId,
)
    requires
        record.wf(),
    ensures
        ({
            let after = entered(map, representation_pairs(record));
            if record.representations@.contains_key(storage) {
                after.contains_key(storage) && after[storage] == record.representations@[storage]
            } else {
                (after.contains_key(storage) <==> map.contains_key(storage)) && after[storage]
                    == map[storage]
            }
        }),
{
    let storages = in_order::<StorageId>(record.representations@.dom());
    let pairs = representation_pairs(record);
    record.representations.lemma_keys();
    if record.representations@.contains_key(storage) {
        assert(record.representations@.dom().contains(storage));
        assert(storages.contains(storage));
        let i = storages.index_of(storage);
        assert(pairs[i] == (storage, record.representations@[storage]));
        assert forall|j: int| i < j < pairs.len() implies (#[trigger] pairs[j]).0 != pairs[i].0 by {
            assert(storages[j] != storages[i]);
        }
        lemma_last_entered(map, pairs, i);
    } else {
        if addresses(pairs, storage) {
            let i = choose|i: int| 0 <= i < pairs.len() && (#[trigger] pairs[i]).0 == storage;
            assert(storages.contains(storages[i]));
            assert(record.representations@.dom().contains(storage));
        }
        lemma_untouched(map, pairs, storage);
    }
}

proof fn lemma_last_rooted(v: RuntimeView, snapshots: Seq<SnapshotId>, n: int, storage: StorageId)
    requires
        v.consistent(),
        0 <= n < snapshots.len(),
        represents(v, snapshots[n], storage),
        forall|k: int|
            n < k < snapshots.len() ==> !represents(v, #[trigger] snapshots[k], storage),
    ensures
        entered(Map::empty(), root_pairs(v, snapshots)).contains_key(storage),
        entered(Map::empty(), root_pairs(v, snapshots))[storage] == v.manifests[v.root_manifest(
            snapshots[n],
        )->0].representations@[storage],
    decreases snapshots.len(),
{
    let none = Map::<StorageId, BaoRoot>::empty();
    let init = snapshots.drop_last();
    let last = snapshots.last();
    let earlier = entered(none, root_pairs(v, init));
    assert(snapshots[snapshots.len() - 1] == last);
    law_recorded_roots_are_served(v, last);
    if n < init.len() {
        assert(init[n] == snapshots[n]);
        assert forall|k: int| n < k < init.len() implies !represents(
            v,
            #[trigger] init[k],
            storage,
        ) by {
            assert(init[k] == snapshots[k]);
        }
        lemma_last_rooted(v, init, n, storage);
    }
    if let Some(record) = served_root(v, last) {
        lemma_entered_more(none, root_pairs(v, init), representation_pairs(record));
        lemma_representations_entered(earlier, record, storage);
    } else if n == init.len() {
        assert(v.manifests[v.root_manifest(last)->0].representations@ != Map::<
            StorageId,
            BaoRoot,
        >::empty());
    }
}

/// Where only representations name a storage id, the one of the last
/// snapshot in id order is served.
pub proof fn law_the_last_represented_root_is_served(
    v: RuntimeView,
    snapshot: SnapshotId,
    storage: StorageId,
)
    requires
        v.consistent(),
        represents(v, snapshot, storage),
        forall|s: SnapshotId| #[trigger]
            SnapshotId::before(snapshot, s) ==> !represents(v, s, storage),
        forall|m: ContentId|
            v.manifests.contains_key(m) ==> !manifest_names(#[trigger] v.manifests[m], storage),
    ensures
        served_addresses(v).contains_key(storage),
        served_addresses(v)[storage] == v.manifests[v.root_manifest(
            snapshot,
        )->0].representations@[storage],
{
    let snapshots = in_order::<SnapshotId>(v.recorded());
    let records = records_in_order(v.manifests);
    v.lemma_orders();
    v.lemma_records();
    assert(v.recorded().contains(snapshot));
    assert(snapshots.contains(snapshot));
    let n = snapshots.index_of(snapshot);
    assert forall|k: int| n < k < snapshots.len() implies !represents(
        v,
        #[trigger] snapshots[k],
        storage,
    ) by {
        assert(SnapshotId::before(snapshots[n], snapshots[k]));
    }
    lemma_last_rooted(v, snapshots, n, storage);
    if addresses(record_pairs(records), storage) {
        let all = record_pairs(records);
        let i = choose|i: int| 0 <= i < all.len() && (#[trigger] all[i]).0 == storage;
        assert(all.contains(all[i]));
        let at = lemma_record_of_pair(records, all[i]);
        let j = mapped_pairs(records[at]).index_of(all[i]);
        assert(mapped_pairs(records[at])[j].0 == storage);
        lemma_manifest_names(records[at], storage);
        assert(records[at] == v.manifests[records[at].manifest_id]);
    }
    let first = root_pairs(v, snapshots);
    lemma_entered_more(Map::empty(), first, record_pairs(records));
    lemma_untouched(entered(Map::empty(), first), record_pairs(records), storage);
}

/// A snapshot's root manifest is served exactly when one is recorded for
/// the snapshot and it has a representation, and then under its own id and
/// its first root.
pub proof fn law_roots_are_served_under_their_first_root(
    v: RuntimeView,
    source: SourceView,
    snapshot: SnapshotId,
)
    requires
        v.consistent(),
        serves_roots(v, source.roots),
    ensures
        source.roots.contains_key(snapshot) <==> v.root_manifest(snapshot) is Some && (exists|
            storage: StorageId,
        | #[trigger]
            v.manifests[v.root_manifest(snapshot)->0].representations@.contains_key(storage)),
        source.roots.contains_key(snapshot) ==> ({
            let (manifest, transport) = source.roots[snapshot];
            &&& v.root_manifest(snapshot) == Some(manifest)
            &&& is_root_of(v.manifests, manifest, snapshot)
            &&& transport == v.manifests[manifest].transport
        }),
{
    law_recorded_roots_are_served(v, snapshot);
    if let Some(id) = v.root_manifest(snapshot) {
        let held = v.manifests[id].representations@;
        if !(exists|storage: StorageId| #[trigger] held.contains_key(storage)) {
            assert(held =~= Map::<StorageId, BaoRoot>::empty());
        }
    }
}

/// The bodies that are served are exactly the recorded ones, byte for byte.
pub proof fn law_bodies_are_served_as_recorded(
    v: RuntimeView,
    source: SourceView,
    snapshot: SnapshotId,
)
    requires
        serves_bodies(v, source.bodies),
    ensures
        source.bodies.contains_key(snapshot) <==> v.bodies.contains_key(snapshot),
        v.bodies.contains_key(snapshot) ==> source.bodies[snapshot]
            == v.bodies[snapshot].encoded@,
{
    assert(source.bodies.contains_key(snapshot) <==> v.bodies.contains_key(snapshot));
}

/// Whatever is read out of the vault is what the vault holds there, hashes
/// to the root asked for and keeps to the ceiling; nothing comes back only
/// when the vault holds nothing; and an oversize reply is refused with its
/// length and the ceiling.
pub proof fn law_reads_are_verified<
    V: FnOnce(&BaoRoot) -> Result<Option<Vec<u8>>, String>,
    T: Fn(&Vec<u8>) -> BaoRoot,
>(
    root: BaoRoot,
    max: usize,
    vault: V,
    transport_root: T,
    r: Result<Option<Vec<u8>>, BulkError>,
)
    requires
        reads(root, max, vault, transport_root, r),
    ensures
        r matches Ok(Some(bytes)) ==> call_ensures(
            vault,
            (&root,),
            Ok::<Option<Vec<u8>>, String>(Some(bytes)),
        ) && call_ensures(transport_root, (&bytes,), root) && bytes@.len() <= max,
        r matches Ok(None) ==> call_ensures(
            vault,
            (&root,),
            Ok::<Option<Vec<u8>>, String>(None),
        ),
        r matches Err(BulkError::Oversize { bytes: n, max: ceiling }) ==> ceiling == max && n > max
            && exists|bytes: Vec<u8>|
            #[trigger] call_ensures(vault, (&root,), Ok::<Option<Vec<u8>>, String>(Some(bytes)))
                && bytes@.len() == n && call_ensures(transport_root, (&bytes,), root),
        r matches Err(BulkError::Transport(text)) ==> call_ensures(
            vault,
            (&root,),
            Err::<Option<Vec<u8>>, String>(text),
        ) || exists|bytes: Vec<u8>, derived: BaoRoot|
            #[trigger] call_ensures(vault, (&root,), Ok::<Option<Vec<u8>>, String>(Some(bytes)))
                && #[trigger] call_ensures(transport_root, (&bytes,), derived) && derived != root,
{
    let reply = choose|reply: Result<Option<Vec<u8>>, String>|
        {
            &&& #[trigger] call_ensures(vault, (&root,), reply)
            &&& match reply {
                Ok(Some(bytes)) => exists|derived: BaoRoot|
                    {
                        &&& #[trigger] call_ensures(transport_root, (&bytes,), derived)
                        &&& if derived == root {
                            r == limited(reply, max)
                        } else {
                            r matches Err(BulkError::Transport(text)) && text@
                                == "vault bytes do not hash to their root"@
                        }
                    },
                _ => r == limited(reply, max),
            }
        };
    if let Ok(Some(bytes)) = reply {
        let derived = choose|derived: BaoRoot|
            {
                &&& #[trigger] call_ensures(transport_root, (&bytes,), derived)
                &&& if derived == root {
                    r == limited(reply, max)
                } else {
                    r matches Err(BulkError::Transport(text)) && text@
                        == "vault bytes do not hash to their root"@
                }
            };
        assert(call_ensures(transport_root, (&bytes,), derived));
        assert(bytes.len() as usize == bytes@.len());
    }
}

/// Bytes that hash to the root and keep to the ceiling are read out
/// unchanged.
pub proof fn law_good_bytes_are_read<
    V: FnOnce(&BaoRoot) -> Result<Option<Vec<u8>>, String>,
    T: Fn(&Vec<u8>) -> BaoRoot,
>(
    root: BaoRoot,
    max: usize,
    vault: V,
    transport_root: T,
    held: Vec<u8>,
    r: Result<Option<Vec<u8>>, BulkError>,
)
    requires
        reads(root, max, vault, transport_root, r),
        forall|reply: Result<Option<Vec<u8>>, String>|
            call_ensures(vault, (&root,), reply) ==> reply == Ok::<Option<Vec<u8>>, String>(
                Some(held),
            ),
        forall|derived: BaoRoot|
            call_ensures(transport_root, (&held,), derived) ==> derived == root,
        held@.len() <= max,
    ensures
        r == Ok::<Option<Vec<u8>>, BulkError>(Some(held)),
{
}

/// A hexadecimal digit stands for its value in either case, and nothing
/// else is a digit.
pub proof fn law_hex_digits(digit: u8)
    ensures
        48 <= digit <= 57 ==> hex_value(digit) == Some((digit - 48) as u8),
        97 <= digit <= 102 ==> hex_value(digit) == Some((digit - 87) as u8) && hex_value(
            (digit - 32) as u8,
        ) == hex_value(digit),
        hex_value(digit) is Some <==> 48 <= digit <= 57 || 65 <= digit <= 70 || 97 <= digit <= 102,
        digit < 16 ==> hex_value(hex_char(digit)) == Some(digit) && !(65 <= hex_char(digit) <= 70),
{
}

/// A name is read as a root exactly when it is 64 digits, two for each
/// byte, the high one first.
pub proof fn law_names_are_read_digit_by_digit(text: Seq<u8>, i: int)
    requires
        0 <= i < 32,
    ensures
        is_hex_32(text) ==> text.len() == 64 && hex_value(text[2 * i]) is Some && hex_value(
            text[2 * i + 1],
        ) is Some,
        is_hex_32(text) ==> hex_bytes(text).len() == 32 && hex_bytes(text)[i] == 16 * hex_value(
            text[2 * i],
        )->0 + hex_value(text[2 * i + 1])->0,
        text.len() == 64 && (forall|j: int|
            0 <= j < 64 ==> 48 <= #[trigger] text[j] <= 57 || 65 <= text[j] <= 70 || 97 <= text[j]
                <= 102) ==> is_hex_32(text),
{
    if is_hex_32(text) {
        assert(hex_value(text[2 * i]) is Some);
        assert(hex_value(text[2 * i + 1]) is Some);
    }
}

/// A root's file name is 64 lower-case digits, two for each byte, the high
/// one first.
pub proof fn law_root_names_are_lower_case(root: BaoRoot, i: int)
    requires
        0 <= i < 32,
    ensures
        hex_name(root@).len() == 64,
        hex_value(hex_name(root@)[2 * i]) == Some((root@[i] / 16) as u8),
        hex_value(hex_name(root@)[2 * i + 1]) == Some((root@[i] % 16) as u8),
        !(65 <= hex_name(root@)[2 * i] <= 70),
        !(65 <= hex_name(root@)[2 * i + 1] <= 70),
{
    BaoRoot::lemma_bytes(root, root);
    assert((2 * i) / 2 == i && (2 * i) % 2 == 0);
    assert((2 * i + 1) / 2 == i && (2 * i + 1) % 2 == 1);
}

/// Every name that reads as a root gives that root once, in the order of
/// the names, and no other name gives one.
pub proof fn law_named_roots_are_the_readable_names(names: Seq<String>)
    ensures
        named_roots(names) == names.filter(|name: String| is_hex_32(encode_utf8(name@))).map_values(
            |name: String| hex_bytes(encode_utf8(name@)),
        ),
    decreases names.len(),
{
    reveal(Seq::filter);
    let keep = |name: String| is_hex_32(encode_utf8(name@));
    let read = |name: String| hex_bytes(encode_utf8(name@));
    if names.len() > 0 {
        law_named_roots_are_the_readable_names(names.drop_last());
        let earlier = names.drop_last().filter(keep);
        if keep(names.last()) {
            assert(earlier.push(names.last()).map_values(read) =~= earlier.map_values(read).push(
                read(names.last()),
            ));
        }
    } else {
        assert(named_roots(names) =~= names.filter(keep).map_values(read));
    }
}

/// The vault holds a root exactly when one of its file names reads as it.
pub proof fn law_held_roots_are_the_named_ones(
    names: Seq<String>,
    roots: Seq<BaoRoot>,
    root: BaoRoot,
)
    requires
        root_bytes(roots).to_multiset() == named_roots(names).to_multiset(),
    ensures
        roots.contains(root) <==> exists|i: int|
            0 <= i < names.len() && is_hex_32(encode_utf8(#[trigger] names[i]@)) && hex_bytes(
                encode_utf8(names[i]@),
            ) == root@,
{
    let keep = |name: String| is_hex_32(encode_utf8(name@));
    let read = |name: String| hex_bytes(encode_utf8(name@));
    let kept = names.filter(keep);
    law_named_roots_are_the_readable_names(names);
    root_bytes(roots).to_multiset_ensures();
    named_roots(names).to_multiset_ensures();
    assert(root_bytes(roots).contains(root@) <==> named_roots(names).contains(root@)) by {
        let count = root_bytes(roots).to_multiset().count(root@);
        assert(count == named_roots(names).to_multiset().count(root@));
    }
    if roots.contains(root) {
        let i = roots.index_of(root);
        assert(root_bytes(roots)[i] == root@);
        let j = named_roots(names).index_of(root@);
        assert(read(kept[j]) == root@);
        crate::runtime::wanted_laws::lemma_filter_contains(names, keep, kept[j]);
        assert(kept.contains(kept[j]));
        let k = names.index_of(kept[j]);
        assert(names[k] == kept[j]);
        assert(is_hex_32(encode_utf8(names[k]@)));
    }
    if exists|i: int|
        0 <= i < names.len() && is_hex_32(encode_utf8(#[trigger] names[i]@)) && hex_bytes(
            encode_utf8(names[i]@),
        ) == root@ {
        let i = choose|i: int|
            0 <= i < names.len() && is_hex_32(encode_utf8(#[trigger] names[i]@)) && hex_bytes(
                encode_utf8(names[i]@),
            ) == root@;
        assert(names.contains(names[i]));
        crate::runtime::wanted_laws::lemma_filter_contains(names, keep, names[i]);
        let j = kept.index_of(names[i]);
        assert(named_roots(names)[j] == root@);
        let k = root_bytes(roots).index_of(root@);
        BaoRoot::lemma_bytes(roots[k], root);
        assert(roots[k] == root);
    }
}

/// The roots that a vault holds are named in the order of their bytes.
pub proof fn law_held_roots_are_in_order(roots: Seq<BaoRoot>, i: int, j: int)
    requires
        sorted_roots(roots),
        0 <= i < j < roots.len(),
    ensures
        roots[i] == roots[j] || exists|k: int| smaller_at(roots[i]@, roots[j]@, k),
{
    BaoRoot::connected(roots[i], roots[j]);
    assert(!BaoRoot::before(roots[j], roots[i]));
    law_the_first_difference_decides(roots[i]@, roots[j]@);
}

} // verus!
