//! Route publication: where everything that the state records can be
//! fetched.
//!
//! Content is served by the peer that announced it. So the address of one
//! announcement feeds the announcement's own roots and every manifest that
//! its snapshot introduced. An announcement whose route is absent or does
//! not decode publishes nothing: routes are untrusted, and a refusal must
//! not fail a pass.

use vstd::prelude::*;

use crate::ids::{BaoRoot, ContentId, SnapshotId, StorageId};
use crate::model::{ChildManifest, ManifestEntry, ManifestRecord, SnapshotAnnouncement};
use crate::order::in_order;
use crate::runtime::state::{records_in_order, RuntimeState, RuntimeView};
use crate::runtime::RouteReport;
use crate::sorted::SortedMap;
use crate::transport::addr::{decode_node_addr, parse_route, NodeAddr, NodeAddrModel};

verus! {

/// Where a blob is served: by the peer that announced a snapshot, under a
/// transport root.
#[derive(Debug, Clone, Copy, PartialEq, Eq)]
pub struct BlobRef {
    pub announced: SnapshotId,
    pub hash: BaoRoot,
}

/// One route.
#[derive(Debug, Clone, Copy, PartialEq, Eq)]
pub enum Publication {
    /// The root manifest of a snapshot.
    Root { snapshot: SnapshotId, manifest: ContentId, blob: BlobRef },
    /// The body of a snapshot.
    Snapshot { snapshot: SnapshotId, blob: BlobRef },
    /// A blob by its transport root.
    Transport { blob: BlobRef },
    /// A sealed representation by its storage id.
    Sealed { storage: StorageId, blob: BlobRef },
}

/// The routes that a state records, with the addresses they lead to.
pub struct Routes {
    /// The address of each announced snapshot whose route decodes.
    pub providers: SortedMap<SnapshotId, NodeAddr>,
    pub publications: Vec<Publication>,
    pub report: RouteReport,
}

/// The address that an announcement carries.
pub open spec fn provider_of(announcement: SnapshotAnnouncement) -> Option<NodeAddrModel> {
    match announcement.node_addr {
        Some(bytes) => parse_route(bytes@),
        None => None,
    }
}

/// The address that the state has for a snapshot.
pub open spec fn provides(v: RuntimeView, snapshot: SnapshotId) -> Option<NodeAddrModel> {
    if v.announcements.contains_key(snapshot) {
        provider_of(v.announcements[snapshot])
    } else {
        None
    }
}

/// Whether a snapshot's announcement carries a route that does not decode.
pub open spec fn refuses(v: RuntimeView, snapshot: SnapshotId) -> bool {
    v.announcements.contains_key(snapshot) && v.announcements[snapshot].node_addr is Some
        && provides(v, snapshot) is None
}

/// The routes of an announcement.
pub open spec fn announced_routes(announcement: SnapshotAnnouncement, at: SnapshotId) -> Seq<
    Publication,
> {
    let root = BlobRef { announced: at, hash: announcement.root_manifest_transport };
    let body = BlobRef { announced: at, hash: announcement.body_root };
    seq![
        Publication::Root { snapshot: at, manifest: announcement.root_manifest, blob: root },
        Publication::Snapshot { snapshot: at, blob: body },
        Publication::Transport { blob: root },
        Publication::Transport { blob: body },
    ]
}

/// The routes of some snapshots, one after the other.
pub open spec fn snapshot_routes(v: RuntimeView, snapshots: Seq<SnapshotId>) -> Seq<Publication>
    decreases snapshots.len(),
{
    if snapshots.len() == 0 {
        Seq::empty()
    } else {
        let earlier = snapshot_routes(v, snapshots.drop_last());
        let last = snapshots.last();
        if provides(v, last) is Some {
            earlier + announced_routes(v.announcements[last], last)
        } else {
            earlier
        }
    }
}

/// How many of some snapshots have a route that does not decode.
pub open spec fn refusals(v: RuntimeView, snapshots: Seq<SnapshotId>) -> nat
    decreases snapshots.len(),
{
    if snapshots.len() == 0 {
        0
    } else {
        refusals(v, snapshots.drop_last()) + if refuses(v, snapshots.last()) {
            1nat
        } else {
            0nat
        }
    }
}

/// The two routes of a sealed object: by its transport root, and by its
/// storage id.
pub open spec fn sealed_routes(storage: StorageId, hash: BaoRoot, at: SnapshotId) -> Seq<
    Publication,
> {
    let blob = BlobRef { announced: at, hash };
    seq![Publication::Transport { blob }, Publication::Sealed { storage, blob }]
}

/// The routes of a manifest's entries.
pub open spec fn entry_routes(entries: Seq<ManifestEntry>, at: SnapshotId) -> Seq<Publication>
    decreases entries.len(),
{
    if entries.len() == 0 {
        Seq::empty()
    } else {
        entry_routes(entries.drop_last(), at) + sealed_routes(
            entries.last().storage_id,
            entries.last().transport,
            at,
        )
    }
}

/// The routes of a manifest's children.
pub open spec fn child_routes(children: Seq<ChildManifest>, at: SnapshotId) -> Seq<Publication>
    decreases children.len(),
{
    if children.len() == 0 {
        Seq::empty()
    } else {
        child_routes(children.drop_last(), at) + sealed_routes(
            children.last().storage,
            children.last().transport,
            at,
        )
    }
}

/// The routes of a manifest's sealed representations, each under its own
/// root.
pub open spec fn representation_routes(
    representations: Map<StorageId, BaoRoot>,
    storages: Seq<StorageId>,
    at: SnapshotId,
) -> Seq<Publication> {
    Seq::new(
        storages.len(),
        |i: int|
            Publication::Sealed {
                storage: storages[i],
                blob: BlobRef { announced: at, hash: representations[storages[i]] },
            },
    )
}

/// The routes of a manifest record.
pub open spec fn record_routes(record: ManifestRecord) -> Seq<Publication> {
    let at = record.manifest.snapshot;
    seq![Publication::Transport { blob: BlobRef { announced: at, hash: record.transport } }]
        + representation_routes(
        record.representations@,
        in_order::<StorageId>(record.representations@.dom()),
        at,
    ) + entry_routes(record.manifest.entries@, at) + child_routes(record.manifest.children@, at)
}

/// The routes of some records, one after the other.
pub open spec fn manifest_routes(v: RuntimeView, records: Seq<ManifestRecord>) -> Seq<Publication>
    decreases records.len(),
{
    if records.len() == 0 {
        Seq::empty()
    } else {
        let earlier = manifest_routes(v, records.drop_last());
        if provides(v, records.last().manifest.snapshot) is Some {
            earlier + record_routes(records.last())
        } else {
            earlier
        }
    }
}

/// Every route that a state records: those of the announcements in
/// snapshot-id order, then those of the manifests in manifest-id order.
pub open spec fn recorded_routes(v: RuntimeView) -> Seq<Publication> {
    snapshot_routes(v, in_order::<SnapshotId>(v.recorded())) + manifest_routes(
        v,
        records_in_order(v.manifests),
    )
}

fn push_sealed(out: &mut Vec<Publication>, storage: StorageId, hash: BaoRoot, at: SnapshotId)
    ensures
        final(out)@ == old(out)@ + sealed_routes(storage, hash, at),
{
    let blob = BlobRef { announced: at, hash };
    out.push(Publication::Transport { blob });
    out.push(Publication::Sealed { storage, blob });
    proof {
        assert(out@ =~= old(out)@ + sealed_routes(storage, hash, at));
    }
}

/// Adds the routes of a record.
fn push_record(out: &mut Vec<Publication>, record: &ManifestRecord)
    requires
        record.wf(),
    ensures
        final(out)@ == old(out)@ + record_routes(*record),
{
    let at: SnapshotId = record.manifest.snapshot;
    let ghost before = out@;
    let ghost storages = record.representations.keys();
    let ghost held = record.representations@;
    proof {
        record.representations.lemma_keys();
    }
    out.push(Publication::Transport { blob: BlobRef { announced: at, hash: record.transport } });
    let ghost start = out@;
    let mut i: usize = 0;
    proof {
        assert(out@ =~= start + representation_routes(held, storages, at).take(0));
    }
    while i < record.representations.len()
        invariant
            record.wf(),
            storages == record.representations.keys(),
            held == record.representations@,
            i <= storages.len(),
            out@ == start + representation_routes(held, storages, at).take(i as int),
        decreases storages.len() - i,
    {
        let storage: StorageId = *record.representations.key(i);
        let hash: BaoRoot = *record.representations.value(i);
        out.push(Publication::Sealed { storage, blob: BlobRef { announced: at, hash } });
        i = i + 1;
        proof {
            assert(out@ =~= start + representation_routes(held, storages, at).take(i as int));
        }
    }
    let ghost sealed = out@;
    proof {
        assert(representation_routes(held, storages, at).take(i as int) =~= representation_routes(
            held,
            storages,
            at,
        ));
        assert(record.manifest.entries@.take(0) =~= Seq::empty());
        assert(out@ =~= sealed + entry_routes(record.manifest.entries@.take(0), at));
    }
    let mut j: usize = 0;
    while j < record.manifest.entries.len()
        invariant
            j <= record.manifest.entries@.len(),
            out@ == sealed + entry_routes(record.manifest.entries@.take(j as int), at),
        decreases record.manifest.entries@.len() - j,
    {
        let entry: ManifestEntry = record.manifest.entries[j];
        proof {
            let entries = record.manifest.entries@;
            assert(entries.take(j + 1).drop_last() =~= entries.take(j as int));
            assert(entries.take(j + 1).last() == entry);
            assert(sealed + entry_routes(entries.take(j as int), at) + sealed_routes(
                entry.storage_id,
                entry.transport,
                at,
            ) =~= sealed + entry_routes(entries.take(j + 1), at));
        }
        push_sealed(out, entry.storage_id, entry.transport, at);
        j = j + 1;
    }
    let ghost entered = out@;
    proof {
        assert(record.manifest.entries@.take(j as int) =~= record.manifest.entries@);
        assert(record.manifest.children@.take(0) =~= Seq::empty());
        assert(out@ =~= entered + child_routes(record.manifest.children@.take(0), at));
    }
    let mut k: usize = 0;
    while k < record.manifest.children.len()
        invariant
            k <= record.manifest.children@.len(),
            out@ == entered + child_routes(record.manifest.children@.take(k as int), at),
        decreases record.manifest.children@.len() - k,
    {
        let link: ChildManifest = record.manifest.children[k];
        proof {
            let children = record.manifest.children@;
            assert(children.take(k + 1).drop_last() =~= children.take(k as int));
            assert(children.take(k + 1).last() == link);
            assert(entered + child_routes(children.take(k as int), at) + sealed_routes(
                link.storage,
                link.transport,
                at,
            ) =~= entered + child_routes(children.take(k + 1), at));
        }
        push_sealed(out, link.storage, link.transport, at);
        k = k + 1;
    }
    proof {
        assert(record.manifest.children@.take(k as int) =~= record.manifest.children@);
        assert(out@ =~= before + record_routes(*record));
    }
}

/// Adds the routes of an announcement.
fn push_announcement(
    out: &mut Vec<Publication>,
    announcement: &SnapshotAnnouncement,
    at: SnapshotId,
)
    ensures
        final(out)@ == old(out)@ + announced_routes(*announcement, at),
{
    let root = BlobRef { announced: at, hash: announcement.root_manifest_transport };
    let body = BlobRef { announced: at, hash: announcement.body_root };
    out.push(
        Publication::Root { snapshot: at, manifest: announcement.root_manifest, blob: root },
    );
    out.push(Publication::Snapshot { snapshot: at, blob: body });
    out.push(Publication::Transport { blob: root });
    out.push(Publication::Transport { blob: body });
    proof {
        assert(out@ =~= old(out)@ + announced_routes(*announcement, at));
    }
}

/// Whether providers are exactly the addresses that decode.
pub open spec fn provided(v: RuntimeView, providers: Map<SnapshotId, NodeAddr>) -> bool {
    &&& forall|s: SnapshotId| #[trigger] providers.contains_key(s) <==> provides(v, s) is Some
    &&& forall|s: SnapshotId| #[trigger]
        providers.contains_key(s) ==> providers[s].inv() && provides(v, s) == Some(providers[s]@)
}

/// Whether providers are exactly the addresses of some snapshots that
/// decode.
spec fn provided_among(
    v: RuntimeView,
    snapshots: Seq<SnapshotId>,
    providers: Map<SnapshotId, NodeAddr>,
) -> bool {
    &&& forall|s: SnapshotId| #[trigger]
        providers.contains_key(s) <==> snapshots.contains(s) && provides(v, s) is Some
    &&& forall|s: SnapshotId| #[trigger]
        providers.contains_key(s) ==> providers[s].inv() && provides(v, s) == Some(providers[s]@)
}

/// Every route that a state records, in order of publication.
pub fn publish_recorded_routes(state: &RuntimeState) -> (r: Routes)
    requires
        state.inv(),
    ensures
        r.providers.wf(),
        provided(state@, r.providers@),
        r.publications@ == recorded_routes(state@),
        r.report.published == recorded_routes(state@).len(),
        r.report.undecodable == refusals(state@, in_order::<SnapshotId>(state@.recorded())),
{
    let ghost v = state@;
    let snapshots = state.recorded_snapshots();
    let mut providers: SortedMap<SnapshotId, NodeAddr> = SortedMap::new();
    let mut publications: Vec<Publication> = Vec::new();
    let mut undecodable: usize = 0;
    let mut i: usize = 0;
    proof {
        assert(snapshots@.take(0) =~= Seq::empty());
    }
    while i < snapshots.len()
        invariant
            state.inv(),
            v == state@,
            i <= snapshots@.len(),
            providers.wf(),
            provided_among(v, snapshots@.take(i as int), providers@),
            publications@ == snapshot_routes(v, snapshots@.take(i as int)),
            undecodable == refusals(v, snapshots@.take(i as int)),
            undecodable <= i,
        decreases snapshots@.len() - i,
    {
        let snapshot: SnapshotId = snapshots[i];
        proof {
            let some = snapshots@.take(i + 1);
            assert(some.drop_last() =~= snapshots@.take(i as int));
            assert(some.last() == snapshot);
            assert forall|s: SnapshotId|
                some.contains(s) <==> snapshots@.take(i as int).contains(s) || s == snapshot by {
                if snapshots@.take(i as int).contains(s) {
                    let j = snapshots@.take(i as int).index_of(s);
                    assert(some[j] == s);
                }
                if some.contains(s) && s != snapshot {
                    let j = some.index_of(s);
                    assert(snapshots@.take(i as int)[j] == s);
                }
                assert(some[i as int] == snapshot);
            }
        }
        i = i + 1;
        let announcement = match state.announcement(&snapshot) {
            Some(announcement) => announcement,
            None => continue ,
        };
        let bytes = match &announcement.node_addr {
            Some(bytes) => bytes,
            None => continue ,
        };
        match decode_node_addr(bytes.as_slice()) {
            Ok(provider) => {
                push_announcement(&mut publications, announcement, snapshot);
                providers.insert(snapshot, provider);
            },
            Err(_) => {
                undecodable = undecodable + 1;
            },
        }
    }
    proof {
        assert(snapshots@.take(i as int) =~= snapshots@);
    }
    proof {
        assert forall|s: SnapshotId| provides(v, s) is Some implies snapshots@.contains(s) by {
            assert(v.recorded().contains(s));
        }
        assert(provided(v, providers@));
    }
    let ghost announced = publications@;
    let records = state.manifest_records();
    let ghost all = records_in_order(v.manifests);
    let mut j: usize = 0;
    proof {
        assert(all.take(0) =~= Seq::empty());
        assert(publications@ =~= announced + manifest_routes(v, all.take(0)));
    }
    while j < records.len()
        invariant
            state.inv(),
            v == state@,
            all == records_in_order(v.manifests),
            records@.len() == all.len(),
            forall|k: int|
                0 <= k < records@.len() ==> *(#[trigger] records@[k]) == all[k]
                    && records@[k].wf(),
            j <= records@.len(),
            providers.wf(),
            provided(v, providers@),
            publications@ == announced + manifest_routes(v, all.take(j as int)),
        decreases records@.len() - j,
    {
        let record: &ManifestRecord = records[j];
        proof {
            assert(all.take(j + 1).drop_last() =~= all.take(j as int));
            assert(all.take(j + 1).last() == *record);
        }
        j = j + 1;
        if providers.contains_key(&record.manifest.snapshot) {
            push_record(&mut publications, record);
            proof {
                assert(announced + manifest_routes(v, all.take(j - 1)) + record_routes(*record)
                    =~= announced + manifest_routes(v, all.take(j as int)));
            }
        }
    }
    proof {
        assert(all.take(j as int) =~= all);
    }
    let report = RouteReport { published: publications.len(), undecodable };
    Routes { providers, publications, report }
}

/// The snapshot whose announcer serves a route.
pub open spec fn served_from(publication: Publication) -> SnapshotId {
    match publication {
        Publication::Root { blob, .. } => blob.announced,
        Publication::Snapshot { blob, .. } => blob.announced,
        Publication::Transport { blob } => blob.announced,
        Publication::Sealed { blob, .. } => blob.announced,
    }
}

proof fn lemma_entry_routes(entries: Seq<ManifestEntry>, at: SnapshotId, i: int)
    requires
        0 <= i < entry_routes(entries, at).len(),
    ensures
        served_from(entry_routes(entries, at)[i]) == at,
    decreases entries.len(),
{
    let earlier = entry_routes(entries.drop_last(), at);
    if i < earlier.len() {
        lemma_entry_routes(entries.drop_last(), at, i);
    }
}

proof fn lemma_child_routes(children: Seq<ChildManifest>, at: SnapshotId, i: int)
    requires
        0 <= i < child_routes(children, at).len(),
    ensures
        served_from(child_routes(children, at)[i]) == at,
    decreases children.len(),
{
    let earlier = child_routes(children.drop_last(), at);
    if i < earlier.len() {
        lemma_child_routes(children.drop_last(), at, i);
    }
}

proof fn lemma_record_routes(record: ManifestRecord, i: int)
    requires
        0 <= i < record_routes(record).len(),
    ensures
        served_from(record_routes(record)[i]) == record.manifest.snapshot,
{
    let at = record.manifest.snapshot;
    let sealed = 1 + in_order::<StorageId>(record.representations@.dom()).len();
    let entries = entry_routes(record.manifest.entries@, at);
    if i >= sealed && i < sealed + entries.len() {
        lemma_entry_routes(record.manifest.entries@, at, i - sealed);
    } else if i >= sealed + entries.len() {
        lemma_child_routes(record.manifest.children@, at, i - sealed - entries.len());
    }
}

proof fn lemma_snapshot_routes(v: RuntimeView, snapshots: Seq<SnapshotId>, i: int)
    requires
        0 <= i < snapshot_routes(v, snapshots).len(),
    ensures
        provides(v, served_from(snapshot_routes(v, snapshots)[i])) is Some,
    decreases snapshots.len(),
{
    let earlier = snapshot_routes(v, snapshots.drop_last());
    if i < earlier.len() {
        lemma_snapshot_routes(v, snapshots.drop_last(), i);
    }
}

proof fn lemma_manifest_routes(v: RuntimeView, records: Seq<ManifestRecord>, i: int)
    requires
        0 <= i < manifest_routes(v, records).len(),
    ensures
        provides(v, served_from(manifest_routes(v, records)[i])) is Some,
    decreases records.len(),
{
    let earlier = manifest_routes(v, records.drop_last());
    if i < earlier.len() {
        lemma_manifest_routes(v, records.drop_last(), i);
    } else {
        lemma_record_routes(records.last(), i - earlier.len());
    }
}

/// Every published route leads to an address that decoded: a snapshot whose
/// route is absent or undecodable publishes nothing.
pub proof fn law_routes_lead_to_decoded_addresses(v: RuntimeView, i: int)
    requires
        0 <= i < recorded_routes(v).len(),
    ensures
        provides(v, served_from(recorded_routes(v)[i])) is Some,
{
    let snapshots = in_order::<SnapshotId>(v.recorded());
    let announced = snapshot_routes(v, snapshots);
    if i < announced.len() {
        lemma_snapshot_routes(v, snapshots, i);
    } else {
        lemma_manifest_routes(v, records_in_order(v.manifests), i - announced.len());
    }
}

} // verus!
