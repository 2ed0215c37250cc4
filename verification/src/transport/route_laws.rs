//! Which routes are published, related to what the state records.

use vstd::prelude::*;

use crate::ids::{BaoRoot, ContentId, SnapshotId, StorageId};
use crate::model::{ChildManifest, ManifestEntry, ManifestRecord};
use crate::order::{ascending, in_order, Key};
use crate::runtime::state::{records_in_order, RuntimeView};
use crate::transport::addr::{parse_route, NodeAddr};
use crate::transport::routes::{
    announced_routes, child_routes, entry_routes, manifest_routes, provided, provides,
    record_routes, recorded_routes, refusals, refuses, representation_routes, snapshot_routes,
    BlobRef, Publication,
};

verus! {

/// Whether a snapshot is announced with a route that decodes.
pub open spec fn decodes(v: RuntimeView, snapshot: SnapshotId) -> bool {
    &&& v.announcements.contains_key(snapshot)
    &&& v.announcements[snapshot].node_addr is Some
    &&& parse_route(v.announcements[snapshot].node_addr->0@) is Some
}

/// Whether a snapshot is announced with a route that does not decode.
pub open spec fn garbles(v: RuntimeView, snapshot: SnapshotId) -> bool {
    &&& v.announcements.contains_key(snapshot)
    &&& v.announcements[snapshot].node_addr is Some
    &&& parse_route(v.announcements[snapshot].node_addr->0@) is None
}

/// Whether an entry, a child link or a representation of a record seals a
/// storage id under a root.
pub open spec fn seals(record: ManifestRecord, storage: StorageId, root: BaoRoot) -> bool {
    ||| record.representations@.contains_key(storage) && record.representations@[storage] == root
    ||| exists|i: int|
        {
            &&& 0 <= i < record.manifest.entries@.len()
            &&& (#[trigger] record.manifest.entries@[i]).storage_id == storage
            &&& record.manifest.entries@[i].transport == root
        }
    ||| exists|i: int|
        {
            &&& 0 <= i < record.manifest.children@.len()
            &&& (#[trigger] record.manifest.children@[i]).storage == storage
            &&& record.manifest.children@[i].transport == root
        }
}

/// Whether a root is a record's first root, or that of an entry or a child
/// link of it.
pub open spec fn carries(record: ManifestRecord, root: BaoRoot) -> bool {
    ||| record.transport == root
    ||| exists|i: int|
        0 <= i < record.manifest.entries@.len() && (
        #[trigger] record.manifest.entries@[i]).transport == root
    ||| exists|i: int|
        0 <= i < record.manifest.children@.len() && (
        #[trigger] record.manifest.children@[i]).transport == root
}

proof fn lemma_entry_routed(entries: Seq<ManifestEntry>, at: SnapshotId, i: int)
    requires
        0 <= i < entries.len(),
    ensures
        entry_routes(entries, at).len() == 2 * entries.len(),
        ({
            let blob = BlobRef { announced: at, hash: entries[i].transport };
            &&& entry_routes(entries, at)[2 * i] == (Publication::Transport { blob })
            &&& entry_routes(entries, at)[2 * i + 1] == (Publication::Sealed {
                storage: entries[i].storage_id,
                blob,
            })
        }),
    decreases entries.len(),
{
    let init = entries.drop_last();
    reveal_with_fuel(entry_routes, 2);
    if init.len() > 0 {
        lemma_entry_routed(init, at, if i < init.len() { i } else { 0 });
    }
    assert(entries[entries.len() - 1] == entries.last());
}

proof fn lemma_child_routed(children: Seq<ChildManifest>, at: SnapshotId, i: int)
    requires
        0 <= i < children.len(),
    ensures
        child_routes(children, at).len() == 2 * children.len(),
        ({
            let blob = BlobRef { announced: at, hash: children[i].transport };
            &&& child_routes(children, at)[2 * i] == (Publication::Transport { blob })
            &&& child_routes(children, at)[2 * i + 1] == (Publication::Sealed {
                storage: children[i].storage,
                blob,
            })
        }),
    decreases children.len(),
{
    let init = children.drop_last();
    reveal_with_fuel(child_routes, 2);
    if init.len() > 0 {
        lemma_child_routed(init, at, if i < init.len() { i } else { 0 });
    }
    assert(children[children.len() - 1] == children.last());
}

proof fn lemma_lengths(record: ManifestRecord)
    requires
        record.wf(),
    ensures
        entry_routes(record.manifest.entries@, record.manifest.snapshot).len() == 2
            * record.manifest.entries@.len(),
        child_routes(record.manifest.children@, record.manifest.snapshot).len() == 2
            * record.manifest.children@.len(),
        record_routes(record).len() == 1 + in_order::<StorageId>(
            record.representations@.dom(),
        ).len() + 2 * record.manifest.entries@.len() + 2 * record.manifest.children@.len(),
{
    if record.manifest.entries@.len() > 0 {
        lemma_entry_routed(record.manifest.entries@, record.manifest.snapshot, 0);
    }
    if record.manifest.children@.len() > 0 {
        lemma_child_routed(record.manifest.children@, record.manifest.snapshot, 0);
    }
}

/// What the routes of a record contain.
proof fn lemma_record_routed(record: ManifestRecord, i: int, storage: StorageId)
    requires
        record.wf(),
    ensures
        ({
            let at = record.manifest.snapshot;
            let routes = record_routes(record);
            &&& routes.contains(
                Publication::Transport { blob: BlobRef { announced: at, hash: record.transport } },
            )
            &&& 0 <= i < record.manifest.entries@.len() ==> ({
                let entry = record.manifest.entries@[i];
                let blob = BlobRef { announced: at, hash: entry.transport };
                &&& routes.contains(Publication::Transport { blob })
                &&& routes.contains(Publication::Sealed { storage: entry.storage_id, blob })
            })
            &&& 0 <= i < record.manifest.children@.len() ==> ({
                let link = record.manifest.children@[i];
                let blob = BlobRef { announced: at, hash: link.transport };
                &&& routes.contains(Publication::Transport { blob })
                &&& routes.contains(Publication::Sealed { storage: link.storage, blob })
            })
            &&& record.representations@.contains_key(storage) ==> routes.contains(
                Publication::Sealed {
                    storage,
                    blob: BlobRef { announced: at, hash: record.representations@[storage] },
                },
            )
        }),
{
    let at = record.manifest.snapshot;
    let routes = record_routes(record);
    let storages = in_order::<StorageId>(record.representations@.dom());
    let sealed = representation_routes(record.representations@, storages, at);
    let entries = entry_routes(record.manifest.entries@, at);
    lemma_lengths(record);
    record.representations.lemma_keys();
    assert(routes[0] == (Publication::Transport {
        blob: BlobRef { announced: at, hash: record.transport },
    }));
    if 0 <= i < record.manifest.entries@.len() {
        lemma_entry_routed(record.manifest.entries@, at, i);
        let p = 1 + sealed.len() + 2 * i;
        assert(routes[p] == entries[2 * i]);
        assert(routes[p + 1] == entries[2 * i + 1]);
    }
    if 0 <= i < record.manifest.children@.len() {
        lemma_child_routed(record.manifest.children@, at, i);
        let p = 1 + sealed.len() + entries.len() + 2 * i;
        let children = child_routes(record.manifest.children@, at);
        assert(routes[p] == children[2 * i]);
        assert(routes[p + 1] == children[2 * i + 1]);
    }
    if record.representations@.contains_key(storage) {
        assert(record.representations@.dom().contains(storage));
        assert(storages.contains(storage));
        let k = storages.index_of(storage);
        assert(routes[1 + k] == sealed[k]);
    }
}

/// The routes of a record hold nothing else.
proof fn lemma_route_of_record(record: ManifestRecord, route: Publication)
    requires
        record.wf(),
        record_routes(record).contains(route),
    ensures
        match route {
            Publication::Root { .. } => false,
            Publication::Snapshot { .. } => false,
            Publication::Transport { blob } => blob.announced == record.manifest.snapshot
                && carries(record, blob.hash),
            Publication::Sealed { storage, blob } => blob.announced == record.manifest.snapshot
                && seals(record, storage, blob.hash),
        },
{
    let at = record.manifest.snapshot;
    let routes = record_routes(record);
    let storages = in_order::<StorageId>(record.representations@.dom());
    let entries = record.manifest.entries@;
    let children = record.manifest.children@;
    lemma_lengths(record);
    record.representations.lemma_keys();
    let p = routes.index_of(route);
    let sealed = 1 + storages.len();
    if p == 0 {
    } else if p < sealed {
        assert(storages.contains(storages[p - 1]));
        assert(record.representations@.dom().contains(storages[p - 1]));
    } else if p < sealed + 2 * entries.len() {
        let i = (p - sealed) / 2;
        lemma_entry_routed(entries, at, i);
        assert(p - sealed == 2 * i || p - sealed == 2 * i + 1);
        assert(entry_routes(entries, at)[p - sealed] == route);
        assert(record.manifest.entries@[i].transport == entries[i].transport);
    } else {
        let q = p - sealed - 2 * entries.len();
        let i = q / 2;
        lemma_child_routed(children, at, i);
        assert(q == 2 * i || q == 2 * i + 1);
        assert(child_routes(children, at)[q] == route);
        assert(record.manifest.children@[i].transport == children[i].transport);
    }
}

proof fn lemma_manifest_routed(
    v: RuntimeView,
    records: Seq<ManifestRecord>,
    n: int,
    route: Publication,
)
    requires
        0 <= n < records.len(),
        provides(v, records[n].manifest.snapshot) is Some,
        record_routes(records[n]).contains(route),
    ensures
        manifest_routes(v, records).contains(route),
    decreases records.len(),
{
    let earlier = manifest_routes(v, records.drop_last());
    let all = manifest_routes(v, records);
    if n == records.len() - 1 {
        let i = record_routes(records[n]).index_of(route);
        assert(all[earlier.len() + i] == route);
    } else {
        lemma_manifest_routed(v, records.drop_last(), n, route);
        assert(all[earlier.index_of(route)] == route);
    }
}

proof fn lemma_manifest_of_route(
    v: RuntimeView,
    records: Seq<ManifestRecord>,
    route: Publication,
) -> (n: int)
    requires
        manifest_routes(v, records).contains(route),
    ensures
        0 <= n < records.len(),
        provides(v, records[n].manifest.snapshot) is Some,
        record_routes(records[n]).contains(route),
    decreases records.len(),
{
    let earlier = manifest_routes(v, records.drop_last());
    let i = manifest_routes(v, records).index_of(route);
    if i < earlier.len() {
        assert(earlier[i] == route);
        lemma_manifest_of_route(v, records.drop_last(), route)
    } else {
        assert(record_routes(records.last())[i - earlier.len()] == route);
        records.len() - 1
    }
}

proof fn lemma_snapshot_routed(
    v: RuntimeView,
    snapshots: Seq<SnapshotId>,
    n: int,
    route: Publication,
)
    requires
        0 <= n < snapshots.len(),
        provides(v, snapshots[n]) is Some,
        announced_routes(v.announcements[snapshots[n]], snapshots[n]).contains(route),
    ensures
        snapshot_routes(v, snapshots).contains(route),
    decreases snapshots.len(),
{
    let earlier = snapshot_routes(v, snapshots.drop_last());
    let all = snapshot_routes(v, snapshots);
    if n == snapshots.len() - 1 {
        let last = announced_routes(v.announcements[snapshots[n]], snapshots[n]);
        assert(all[earlier.len() + last.index_of(route)] == route);
    } else {
        lemma_snapshot_routed(v, snapshots.drop_last(), n, route);
        assert(all[earlier.index_of(route)] == route);
    }
}

proof fn lemma_snapshot_of_route(
    v: RuntimeView,
    snapshots: Seq<SnapshotId>,
    route: Publication,
) -> (n: int)
    requires
        snapshot_routes(v, snapshots).contains(route),
    ensures
        0 <= n < snapshots.len(),
        provides(v, snapshots[n]) is Some,
        announced_routes(v.announcements[snapshots[n]], snapshots[n]).contains(route),
    decreases snapshots.len(),
{
    let earlier = snapshot_routes(v, snapshots.drop_last());
    let i = snapshot_routes(v, snapshots).index_of(route);
    if i < earlier.len() {
        assert(earlier[i] == route);
        lemma_snapshot_of_route(v, snapshots.drop_last(), route)
    } else {
        let last = announced_routes(v.announcements[snapshots.last()], snapshots.last());
        assert(last[i - earlier.len()] == route);
        snapshots.len() - 1
    }
}

proof fn lemma_recorded_route(v: RuntimeView, manifest: ContentId, route: Publication)
    requires
        v.consistent(),
        v.manifests.contains_key(manifest),
        decodes(v, v.manifests[manifest].manifest.snapshot),
        record_routes(v.manifests[manifest]).contains(route),
    ensures
        recorded_routes(v).contains(route),
{
    let records = records_in_order(v.manifests);
    let announced = snapshot_routes(v, in_order::<SnapshotId>(v.recorded()));
    let routes = manifest_routes(v, records);
    v.lemma_records();
    let n = choose|n: int|
        0 <= n < records.len() && #[trigger] records[n] == v.manifests[manifest];
    lemma_manifest_routed(v, records, n, route);
    assert(recorded_routes(v)[announced.len() + routes.index_of(route)] == route);
}

/// Every recorded manifest whose snapshot's address decodes is routed by
/// its own first root, from the peer that announced the snapshot.
pub proof fn law_manifests_are_routed(v: RuntimeView, manifest: ContentId)
    requires
        v.consistent(),
        v.manifests.contains_key(manifest),
        decodes(v, v.manifests[manifest].manifest.snapshot),
    ensures
        recorded_routes(v).contains(
            Publication::Transport {
                blob: BlobRef {
                    announced: v.manifests[manifest].manifest.snapshot,
                    hash: v.manifests[manifest].transport,
                },
            },
        ),
{
    let record = v.manifests[manifest];
    let blob = BlobRef { announced: record.manifest.snapshot, hash: record.transport };
    lemma_record_routed(record, -1, arbitrary());
    lemma_recorded_route(v, manifest, Publication::Transport { blob });
}

/// Every entry of a recorded manifest whose snapshot's address decodes is
/// routed by its root and by its storage id, from the peer that announced
/// the snapshot.
pub proof fn law_entries_are_routed(v: RuntimeView, manifest: ContentId, i: int)
    requires
        v.consistent(),
        v.manifests.contains_key(manifest),
        decodes(v, v.manifests[manifest].manifest.snapshot),
        0 <= i < v.manifests[manifest].manifest.entries@.len(),
    ensures
        ({
            let record = v.manifests[manifest];
            let entry = record.manifest.entries@[i];
            let blob = BlobRef { announced: record.manifest.snapshot, hash: entry.transport };
            &&& recorded_routes(v).contains(Publication::Transport { blob })
            &&& recorded_routes(v).contains(
                Publication::Sealed { storage: entry.storage_id, blob },
            )
        }),
{
    let record = v.manifests[manifest];
    let entry = record.manifest.entries@[i];
    let blob = BlobRef { announced: record.manifest.snapshot, hash: entry.transport };
    lemma_record_routed(record, i, entry.storage_id);
    lemma_recorded_route(v, manifest, Publication::Transport { blob });
    lemma_recorded_route(v, manifest, Publication::Sealed { storage: entry.storage_id, blob });
}

/// Every child link of a recorded manifest whose snapshot's address decodes
/// is routed by its root and by its storage id, from the peer that
/// announced the snapshot.
pub proof fn law_links_are_routed(v: RuntimeView, manifest: ContentId, i: int)
    requires
        v.consistent(),
        v.manifests.contains_key(manifest),
        decodes(v, v.manifests[manifest].manifest.snapshot),
        0 <= i < v.manifests[manifest].manifest.children@.len(),
    ensures
        ({
            let record = v.manifests[manifest];
            let link = record.manifest.children@[i];
            let blob = BlobRef { announced: record.manifest.snapshot, hash: link.transport };
            &&& recorded_routes(v).contains(Publication::Transport { blob })
            &&& recorded_routes(v).contains(Publication::Sealed { storage: link.storage, blob })
        }),
{
    let record = v.manifests[manifest];
    let link = record.manifest.children@[i];
    let blob = BlobRef { announced: record.manifest.snapshot, hash: link.transport };
    lemma_record_routed(record, i, link.storage);
    lemma_recorded_route(v, manifest, Publication::Transport { blob });
    lemma_recorded_route(v, manifest, Publication::Sealed { storage: link.storage, blob });
}

/// Every representation of a recorded manifest whose snapshot's address
/// decodes is routed by its storage id, under its own root, from the peer
/// that announced the snapshot.
pub proof fn law_representations_are_routed(
    v: RuntimeView,
    manifest: ContentId,
    storage: StorageId,
)
    requires
        v.consistent(),
        v.manifests.contains_key(manifest),
        decodes(v, v.manifests[manifest].manifest.snapshot),
        v.manifests[manifest].representations@.contains_key(storage),
    ensures
        recorded_routes(v).contains(
            Publication::Sealed {
                storage,
                blob: BlobRef {
                    announced: v.manifests[manifest].manifest.snapshot,
                    hash: v.manifests[manifest].representations@[storage],
                },
            },
        ),
{
    let record = v.manifests[manifest];
    let blob = BlobRef {
        announced: record.manifest.snapshot,
        hash: record.representations@[storage],
    };
    lemma_record_routed(record, -1, storage);
    lemma_recorded_route(v, manifest, Publication::Sealed { storage, blob });
}

/// Every announcement whose address decodes routes the announced root
/// manifest and the body, each by the snapshot and by its root.
pub proof fn law_announcements_are_routed(v: RuntimeView, snapshot: SnapshotId)
    requires
        v.consistent(),
        decodes(v, snapshot),
    ensures
        ({
            let announcement = v.announcements[snapshot];
            let root = BlobRef {
                announced: snapshot,
                hash: announcement.root_manifest_transport,
            };
            let body = BlobRef { announced: snapshot, hash: announcement.body_root };
            &&& recorded_routes(v).contains(
                Publication::Root { snapshot, manifest: announcement.root_manifest, blob: root },
            )
            &&& recorded_routes(v).contains(Publication::Snapshot { snapshot, blob: body })
            &&& recorded_routes(v).contains(Publication::Transport { blob: root })
            &&& recorded_routes(v).contains(Publication::Transport { blob: body })
        }),
{
    let announcement = v.announcements[snapshot];
    let own = announced_routes(announcement, snapshot);
    let snapshots = in_order::<SnapshotId>(v.recorded());
    let announced = snapshot_routes(v, snapshots);
    v.lemma_orders();
    assert(v.recorded().contains(snapshot));
    assert(snapshots.contains(snapshot));
    let n = snapshots.index_of(snapshot);
    assert forall|k: int| 0 <= k < 4 implies recorded_routes(v).contains(#[trigger] own[k]) by {
        assert(own.contains(own[k]));
        lemma_snapshot_routed(v, snapshots, n, own[k]);
        assert(recorded_routes(v)[announced.index_of(own[k])] == own[k]);
    }
    let root = BlobRef { announced: snapshot, hash: announcement.root_manifest_transport };
    let body = BlobRef { announced: snapshot, hash: announcement.body_root };
    assert(own[0] == (Publication::Root {
        snapshot,
        manifest: announcement.root_manifest,
        blob: root,
    }));
    assert(own[1] == (Publication::Snapshot { snapshot, blob: body }));
    assert(own[2] == (Publication::Transport { blob: root }));
    assert(own[3] == (Publication::Transport { blob: body }));
}

/// Whether a recorded manifest of a snapshot seals a storage id under a
/// root.
pub open spec fn sealed_by(
    v: RuntimeView,
    snapshot: SnapshotId,
    storage: StorageId,
    root: BaoRoot,
) -> bool {
    exists|m: ContentId|
        {
            &&& v.manifests.contains_key(m)
            &&& v.manifests[m].manifest.snapshot == snapshot
            &&& seals(#[trigger] v.manifests[m], storage, root)
        }
}

/// Whether a recorded manifest of a snapshot carries a root.
pub open spec fn carried_by(v: RuntimeView, snapshot: SnapshotId, root: BaoRoot) -> bool {
    exists|m: ContentId|
        {
            &&& v.manifests.contains_key(m)
            &&& v.manifests[m].manifest.snapshot == snapshot
            &&& carries(#[trigger] v.manifests[m], root)
        }
}

/// Every published route comes from an announcement whose address decodes,
/// or from a recorded manifest of such a snapshot: a sealed route from an
/// entry, a link or a representation of the manifest with that storage id
/// and that root; a transport route from the manifest's first root, an
/// entry or a link, or from the announced root manifest or body; and the
/// root and body routes from the announcement itself.
pub proof fn law_every_route_is_recorded(v: RuntimeView, route: Publication)
    requires
        v.consistent(),
        recorded_routes(v).contains(route),
    ensures
        match route {
            Publication::Root { snapshot, manifest, blob } => {
                &&& decodes(v, snapshot)
                &&& blob.announced == snapshot
                &&& manifest == v.announcements[snapshot].root_manifest
                &&& blob.hash == v.announcements[snapshot].root_manifest_transport
            },
            Publication::Snapshot { snapshot, blob } => {
                &&& decodes(v, snapshot)
                &&& blob.announced == snapshot
                &&& blob.hash == v.announcements[snapshot].body_root
            },
            Publication::Transport { blob } => {
                &&& decodes(v, blob.announced)
                &&& blob.hash == v.announcements[blob.announced].root_manifest_transport
                    || blob.hash == v.announcements[blob.announced].body_root || carried_by(
                    v,
                    blob.announced,
                    blob.hash,
                )
            },
            Publication::Sealed { storage, blob } => {
                &&& decodes(v, blob.announced)
                &&& sealed_by(v, blob.announced, storage, blob.hash)
            },
        },
{
    let snapshots = in_order::<SnapshotId>(v.recorded());
    let records = records_in_order(v.manifests);
    let announced = snapshot_routes(v, snapshots);
    let manifests = manifest_routes(v, records);
    v.lemma_records();
    let p = recorded_routes(v).index_of(route);
    if p < announced.len() {
        assert(announced[p] == route);
        let n = lemma_snapshot_of_route(v, snapshots, route);
        let own = announced_routes(v.announcements[snapshots[n]], snapshots[n]);
        let k = own.index_of(route);
        assert(k == 0 || k == 1 || k == 2 || k == 3);
    } else {
        assert(manifests[p - announced.len()] == route);
        let n = lemma_manifest_of_route(v, records, route);
        let m = records[n].manifest_id;
        assert(v.manifests[m] == records[n]);
        lemma_route_of_record(records[n], route);
    }
}

proof fn lemma_counted(v: RuntimeView, snapshots: Seq<SnapshotId>)
    requires
        snapshots.no_duplicates(),
    ensures
        snapshots.to_set().filter(|s: SnapshotId| garbles(v, s)).finite(),
        snapshots.to_set().filter(|s: SnapshotId| decodes(v, s)).finite(),
        refusals(v, snapshots) == snapshots.to_set().filter(|s: SnapshotId| garbles(v, s)).len(),
        snapshot_routes(v, snapshots).len() == 4 * snapshots.to_set().filter(
            |s: SnapshotId| decodes(v, s),
        ).len(),
    decreases snapshots.len(),
{
    let bad = |s: SnapshotId| garbles(v, s);
    let good = |s: SnapshotId| decodes(v, s);
    let all = snapshots.to_set();
    if snapshots.len() == 0 {
        assert(all.filter(bad) =~= Set::<SnapshotId>::empty());
        assert(all.filter(good) =~= Set::<SnapshotId>::empty());
    } else {
        let init = snapshots.drop_last();
        let last = snapshots.last();
        let earlier = init.to_set();
        lemma_counted(v, init);
        assert(snapshots[snapshots.len() - 1] == last);
        assert(!earlier.contains(last)) by {
            if init.contains(last) {
                let i = init.index_of(last);
                assert(snapshots[i] == snapshots[snapshots.len() - 1]);
            }
        }
        assert forall|s: SnapshotId| all.contains(s) <==> earlier.contains(s) || s == last by {
            if snapshots.contains(s) && s != last {
                let i = snapshots.index_of(s);
                assert(init[i] == s);
            }
            if init.contains(s) {
                assert(snapshots[init.index_of(s)] == s);
            }
        }
        assert(all.filter(bad) =~= if garbles(v, last) {
            earlier.filter(bad).insert(last)
        } else {
            earlier.filter(bad)
        });
        assert(all.filter(good) =~= if decodes(v, last) {
            earlier.filter(good).insert(last)
        } else {
            earlier.filter(good)
        });
        assert(refuses(v, last) <==> garbles(v, last));
        assert(provides(v, last) is Some <==> decodes(v, last));
    }
}

/// As many announcements are reported undecodable as carry a route that
/// does not decode.
pub proof fn law_garbled_routes_are_counted(v: RuntimeView)
    requires
        v.consistent(),
    ensures
        refusals(v, in_order::<SnapshotId>(v.recorded())) == v.announcements.dom().filter(
            |s: SnapshotId| garbles(v, s),
        ).len(),
{
    let snapshots = in_order::<SnapshotId>(v.recorded());
    crate::order::lemma_ordered::<SnapshotId>(v.recorded());
    lemma_counted(v, snapshots);
    assert forall|s: SnapshotId| snapshots.to_set().contains(s) <==> v.recorded().contains(s) by {
        assert(snapshots.contains(s) <==> v.recorded().contains(s));
    }
    assert(snapshots.to_set().filter(|s: SnapshotId| garbles(v, s)) =~= v.announcements.dom().filter(
        |s: SnapshotId| garbles(v, s),
    ));
}

/// How many routes some records have: one for each first root and each
/// representation, two for each entry and link.
pub open spec fn routes_due(v: RuntimeView, records: Seq<ManifestRecord>) -> nat
    decreases records.len(),
{
    if records.len() == 0 {
        0
    } else {
        let record = records.last();
        routes_due(v, records.drop_last()) + if decodes(v, record.manifest.snapshot) {
            1 + record.representations@.dom().len() + 2 * record.manifest.entries@.len() + 2
                * record.manifest.children@.len()
        } else {
            0
        }
    }
}

proof fn lemma_routes_due(v: RuntimeView, records: Seq<ManifestRecord>)
    requires
        forall|n: int| 0 <= n < records.len() ==> (#[trigger] records[n]).wf(),
    ensures
        manifest_routes(v, records).len() == routes_due(v, records),
    decreases records.len(),
{
    if records.len() > 0 {
        let record = records.last();
        assert(records[records.len() - 1] == record);
        assert forall|n: int| 0 <= n < records.drop_last().len() implies (
        #[trigger] records.drop_last()[n]).wf() by {
            assert(records[n].wf());
        }
        lemma_routes_due(v, records.drop_last());
        lemma_lengths(record);
        record.representations.lemma_keys();
        let storages = in_order::<StorageId>(record.representations@.dom());
        storages.unique_seq_to_set();
        assert(storages.to_set() =~= record.representations@.dom()) by {
            assert forall|s: StorageId|
                storages.to_set().contains(s) <==> record.representations@.dom().contains(s) by {
                assert(storages.contains(s) <==> record.representations@.dom().contains(s));
            }
        }
        assert(provides(v, record.manifest.snapshot) is Some <==> decodes(
            v,
            record.manifest.snapshot,
        ));
    }
}

/// Each announcement whose address decodes has exactly four routes, and
/// each recorded manifest of such a snapshot one for its first root, one
/// for each representation, and two for each entry and link; there are no
/// others.
pub proof fn law_routes_are_counted(v: RuntimeView)
    requires
        v.consistent(),
    ensures
        recorded_routes(v).len() == 4 * v.announcements.dom().filter(
            |s: SnapshotId| decodes(v, s),
        ).len() + routes_due(v, records_in_order(v.manifests)),
{
    let snapshots = in_order::<SnapshotId>(v.recorded());
    crate::order::lemma_ordered::<SnapshotId>(v.recorded());
    lemma_counted(v, snapshots);
    assert forall|s: SnapshotId| snapshots.to_set().contains(s) <==> v.recorded().contains(s) by {
        assert(snapshots.contains(s) <==> v.recorded().contains(s));
    }
    assert(snapshots.to_set().filter(|s: SnapshotId| decodes(v, s)) =~= v.announcements.dom().filter(
        |s: SnapshotId| decodes(v, s),
    ));
    v.lemma_records();
    lemma_routes_due(v, records_in_order(v.manifests));
}

/// The providers are exactly the announced snapshots whose routes decode,
/// each with the address that its route decodes to.
pub proof fn law_providers_are_the_decoded_addresses(
    v: RuntimeView,
    providers: Map<SnapshotId, NodeAddr>,
    snapshot: SnapshotId,
)
    requires
        provided(v, providers),
    ensures
        providers.contains_key(snapshot) <==> decodes(v, snapshot),
        providers.contains_key(snapshot) ==> parse_route(
            v.announcements[snapshot].node_addr->0@,
        ) == Some(providers[snapshot]@),
{
    assert(providers.contains_key(snapshot) <==> provides(v, snapshot) is Some);
}

proof fn lemma_roots_ascend(v: RuntimeView, snapshots: Seq<SnapshotId>, i: int, j: int)
    requires
        ascending::<SnapshotId>(snapshots),
        0 <= i < j < snapshot_routes(v, snapshots).len(),
        snapshot_routes(v, snapshots)[i] is Root,
        snapshot_routes(v, snapshots)[j] is Root,
    ensures
        SnapshotId::before(
            snapshot_routes(v, snapshots)[i]->Root_snapshot,
            snapshot_routes(v, snapshots)[j]->Root_snapshot,
        ),
    decreases snapshots.len(),
{
    let init = snapshots.drop_last();
    let last = snapshots.last();
    let earlier = snapshot_routes(v, init);
    assert(ascending::<SnapshotId>(init)) by {
        assert forall|a: int, b: int| 0 <= a < b < init.len() implies SnapshotId::before(
            #[trigger] init[a],
            #[trigger] init[b],
        ) by {
            assert(SnapshotId::before(snapshots[a], snapshots[b]));
        }
    }
    if j < earlier.len() {
        lemma_roots_ascend(v, init, i, j);
    } else {
        let own = announced_routes(v.announcements[last], last);
        assert(own[j - earlier.len()] is Root);
        assert(j == earlier.len());
        assert(earlier.contains(earlier[i]));
        let n = lemma_snapshot_of_route(v, init, earlier[i]);
        let theirs = announced_routes(v.announcements[init[n]], init[n]);
        let k = theirs.index_of(earlier[i]);
        assert(k == 0);
        assert(SnapshotId::before(snapshots[n], snapshots[snapshots.len() - 1]));
    }
}

/// Announcements are routed before everything that their manifests bring,
/// and in snapshot-id order.
pub proof fn law_announcements_are_routed_first(v: RuntimeView, i: int, j: int)
    requires
        v.consistent(),
        0 <= i < recorded_routes(v).len(),
        0 <= j < recorded_routes(v).len(),
    ensures
        recorded_routes(v)[i] is Root && recorded_routes(v)[j] is Sealed ==> i < j,
        recorded_routes(v)[i] is Snapshot && recorded_routes(v)[j] is Sealed ==> i < j,
        i < j && recorded_routes(v)[i] is Root && recorded_routes(v)[j] is Root
            ==> SnapshotId::before(
            recorded_routes(v)[i]->Root_snapshot,
            recorded_routes(v)[j]->Root_snapshot,
        ),
{
    let snapshots = in_order::<SnapshotId>(v.recorded());
    let records = records_in_order(v.manifests);
    let announced = snapshot_routes(v, snapshots);
    let manifests = manifest_routes(v, records);
    v.lemma_orders();
    v.lemma_records();
    assert forall|k: int| 0 <= k < recorded_routes(v).len() implies (if k < announced.len() {
        !(#[trigger] recorded_routes(v)[k] is Sealed)
    } else {
        recorded_routes(v)[k] is Sealed || recorded_routes(v)[k] is Transport
    }) by {
        let route = recorded_routes(v)[k];
        if k < announced.len() {
            assert(announced[k] == route);
            let n = lemma_snapshot_of_route(v, snapshots, route);
            let own = announced_routes(v.announcements[snapshots[n]], snapshots[n]);
            let at = own.index_of(route);
            assert(at == 0 || at == 1 || at == 2 || at == 3);
        } else {
            assert(manifests[k - announced.len()] == route);
            let n = lemma_manifest_of_route(v, records, route);
            lemma_route_of_record(records[n], route);
        }
    }
    if i < j && recorded_routes(v)[i] is Root && recorded_routes(v)[j] is Root {
        lemma_roots_ascend(v, snapshots, i, j);
    }
}

} // verus!
