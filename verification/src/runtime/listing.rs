//! What walking the recorded manifests in order comes upon.
//!
//! The plan is stated over walks: manifest after manifest in id order, and
//! within each manifest entry after entry. Here those walks are related to
//! the recorded manifests themselves.

use vstd::prelude::*;

use crate::ids::{ContentId, SnapshotId};
use crate::model::{ChildManifest, ManifestEntry, ManifestRecord};
use crate::order::{ascending, in_order, lemma_ordered, lists, Key};
use crate::runtime::state::{entries_of, first_link, links_of, records_in_order, RuntimeView};

verus! {

/// Whether a recorded manifest holds an entry at a place.
pub open spec fn entry_at(
    manifests: Map<ContentId, ManifestRecord>,
    manifest: ContentId,
    place: int,
    entry: ManifestEntry,
) -> bool {
    &&& manifests.contains_key(manifest)
    &&& 0 <= place < manifests[manifest].manifest.entries@.len()
    &&& manifests[manifest].manifest.entries@[place] == entry
}

/// Whether some recorded manifest holds an entry.
pub open spec fn holds_entry(
    manifests: Map<ContentId, ManifestRecord>,
    entry: ManifestEntry,
) -> bool {
    exists|manifest: ContentId, place: int| #[trigger] entry_at(manifests, manifest, place, entry)
}

/// Whether a recorded manifest holds a child link at a place.
pub open spec fn link_at(
    manifests: Map<ContentId, ManifestRecord>,
    manifest: ContentId,
    place: int,
    link: ChildManifest,
) -> bool {
    &&& manifests.contains_key(manifest)
    &&& 0 <= place < manifests[manifest].manifest.children@.len()
    &&& manifests[manifest].manifest.children@[place] == link
}

/// Whether some recorded manifest holds a child link.
pub open spec fn holds_link(
    manifests: Map<ContentId, ManifestRecord>,
    link: ChildManifest,
) -> bool {
    exists|manifest: ContentId, place: int| #[trigger] link_at(manifests, manifest, place, link)
}

/// Whether the first place is seen before the second: manifests are walked
/// in id order, and the entries of each in theirs.
pub open spec fn seen_first(
    manifest: ContentId,
    place: int,
    other_manifest: ContentId,
    other_place: int,
) -> bool {
    ContentId::before(manifest, other_manifest) || (manifest == other_manifest && place
        < other_place)
}

impl RuntimeView {
    /// The orderings of what is recorded name all of it and nothing else.
    pub proof fn lemma_orders(self)
        requires
            self.consistent(),
        ensures
            ascending::<ContentId>(in_order::<ContentId>(self.manifests.dom())),
            lists(in_order::<ContentId>(self.manifests.dom()), self.manifests.dom()),
            ascending::<SnapshotId>(in_order::<SnapshotId>(self.announcements.dom())),
            lists(in_order::<SnapshotId>(self.announcements.dom()), self.announcements.dom()),
            ascending::<SnapshotId>(in_order::<SnapshotId>(self.bodies.dom())),
            lists(in_order::<SnapshotId>(self.bodies.dom()), self.bodies.dom()),
            ascending::<SnapshotId>(in_order::<SnapshotId>(self.recorded())),
            lists(in_order::<SnapshotId>(self.recorded()), self.recorded()),
            forall|s: SnapshotId| #[trigger]
                self.roots.contains_key(s) ==> ascending::<ContentId>(
                    in_order::<ContentId>(self.roots[s]),
                ) && lists(in_order::<ContentId>(self.roots[s]), self.roots[s]),
    {
        lemma_ordered::<ContentId>(self.manifests.dom());
        lemma_ordered::<SnapshotId>(self.announcements.dom());
        lemma_ordered::<SnapshotId>(self.bodies.dom());
        lemma_ordered::<SnapshotId>(self.recorded());
        assert forall|s: SnapshotId| #[trigger] self.roots.contains_key(s) implies ascending::<
            ContentId,
        >(in_order::<ContentId>(self.roots[s])) && lists(
            in_order::<ContentId>(self.roots[s]),
            self.roots[s],
        ) by {
            lemma_ordered::<ContentId>(self.roots[s]);
        }
    }

    /// The walk over the recorded manifests comes upon each of them once,
    /// in id order, and upon no other record.
    pub proof fn lemma_records(self)
        requires
            self.consistent(),
        ensures
            forall|m: ContentId| #[trigger]
                self.manifests.contains_key(m) ==> exists|n: int|
                    0 <= n < records_in_order(self.manifests).len() && #[trigger] records_in_order(
                        self.manifests,
                    )[n] == self.manifests[m],
            forall|n: int|
                0 <= n < records_in_order(self.manifests).len() ==> ({
                    let record = #[trigger] records_in_order(self.manifests)[n];
                    self.manifests.contains_key(record.manifest_id)
                        && self.manifests[record.manifest_id] == record
                }),
            forall|a: int, b: int|
                0 <= a < b < records_in_order(self.manifests).len() ==> ContentId::before(
                    (#[trigger] records_in_order(self.manifests)[a]).manifest_id,
                    (#[trigger] records_in_order(self.manifests)[b]).manifest_id,
                ),
    {
        let ids = in_order::<ContentId>(self.manifests.dom());
        let records = records_in_order(self.manifests);
        lemma_ordered::<ContentId>(self.manifests.dom());
        assert forall|n: int| 0 <= n < records.len() implies (#[trigger] records[n]).manifest_id
            == ids[n] && self.manifests.contains_key(ids[n]) by {
            assert(ids.contains(ids[n]));
            assert(self.manifests.dom().contains(ids[n]));
        }
        assert forall|m: ContentId| #[trigger] self.manifests.contains_key(m) implies exists|
            n: int,
        | 0 <= n < records.len() && #[trigger] records[n] == self.manifests[m] by {
            assert(self.manifests.dom().contains(m));
            assert(ids.contains(m));
            let n = ids.index_of(m);
            assert(records[n] == self.manifests[m]);
        }
    }
}

/// The walk over the first records is the start of the walk over all.
proof fn lemma_prefix(records: Seq<ManifestRecord>, n: int)
    requires
        0 <= n <= records.len(),
    ensures
        entries_of(records.take(n)).len() <= entries_of(records).len(),
        forall|p: int|
            0 <= p < entries_of(records.take(n)).len() ==> #[trigger] entries_of(
                records.take(n),
            )[p] == entries_of(records)[p],
    decreases records.len(),
{
    if n == records.len() {
        assert(records.take(n) =~= records);
    } else {
        let init = records.drop_last();
        assert(init.take(n) =~= records.take(n));
        lemma_prefix(init, n);
    }
}

/// Where the walk comes upon one entry of one record.
proof fn lemma_walked(records: Seq<ManifestRecord>, n: int, place: int)
    requires
        0 <= n < records.len(),
        0 <= place < records[n].manifest.entries@.len(),
    ensures
        entries_of(records.take(n)).len() + place < entries_of(records).len(),
        entries_of(records)[entries_of(records.take(n)).len() + place]
            == records[n].manifest.entries@[place],
{
    let next = records.take(n + 1);
    assert(next.drop_last() =~= records.take(n));
    assert(next.last() == records[n]);
    lemma_prefix(records, n + 1);
    assert(entries_of(next)[entries_of(records.take(n)).len() + place]
        == records[n].manifest.entries@[place]);
}

/// Whatever the walk comes upon is an entry of one of the records.
proof fn lemma_walk_of(records: Seq<ManifestRecord>, p: int) -> (at: (int, int))
    requires
        0 <= p < entries_of(records).len(),
    ensures
        0 <= at.0 < records.len(),
        0 <= at.1 < records[at.0].manifest.entries@.len(),
        p == entries_of(records.take(at.0)).len() + at.1,
        entries_of(records)[p] == records[at.0].manifest.entries@[at.1],
    decreases records.len(),
{
    let init = records.drop_last();
    let earlier = entries_of(init);
    if p < earlier.len() {
        let at = lemma_walk_of(init, p);
        assert(init.take(at.0) =~= records.take(at.0));
        at
    } else {
        assert(records.take(records.len() - 1) =~= init);
        (records.len() - 1, p - earlier.len())
    }
}

/// The walk comes upon the entries of an earlier record before those of a
/// later one.
proof fn lemma_walk_order(
    records: Seq<ManifestRecord>,
    n: int,
    place: int,
    other: int,
    other_place: int,
)
    requires
        0 <= n < records.len(),
        0 <= place < records[n].manifest.entries@.len(),
        0 <= other < records.len(),
        0 <= other_place < records[other].manifest.entries@.len(),
        entries_of(records.take(n)).len() + place < entries_of(records.take(other)).len()
            + other_place,
    ensures
        n < other || (n == other && place < other_place),
{
    if other < n {
        let next = records.take(other + 1);
        assert(next.drop_last() =~= records.take(other));
        assert(next.last() == records[other]);
        assert(records.take(n).take(other + 1) =~= next);
        lemma_prefix(records.take(n), other + 1);
    }
}

/// The entries that the walk comes upon are those of the recorded
/// manifests.
pub proof fn lemma_entries(v: RuntimeView, entry: ManifestEntry)
    requires
        v.consistent(),
    ensures
        entries_of(records_in_order(v.manifests)).contains(entry) <==> holds_entry(
            v.manifests,
            entry,
        ),
{
    let records = records_in_order(v.manifests);
    let entries = entries_of(records);
    v.lemma_records();
    if entries.contains(entry) {
        let at = lemma_walk_of(records, entries.index_of(entry));
        assert(entry_at(v.manifests, records[at.0].manifest_id, at.1, entry));
    }
    if holds_entry(v.manifests, entry) {
        let (m, place) = choose|m: ContentId, place: int| #[trigger]
            entry_at(v.manifests, m, place, entry);
        let n = choose|n: int| 0 <= n < records.len() && #[trigger] records[n] == v.manifests[m];
        lemma_walked(records, n, place);
        assert(entries[entries_of(records.take(n)).len() + place] == entry);
    }
}

/// Where the walk comes upon the entry at a place of a recorded manifest.
pub open spec fn position(v: RuntimeView, manifest: ContentId, place: int) -> int {
    let records = records_in_order(v.manifests);
    let n = choose|n: int|
        0 <= n < records.len() && #[trigger] records[n] == v.manifests[manifest];
    entries_of(records.take(n)).len() + place
}

/// The walk comes upon every entry of a recorded manifest at its position.
pub proof fn lemma_position(v: RuntimeView, manifest: ContentId, place: int, entry: ManifestEntry)
    requires
        v.consistent(),
        entry_at(v.manifests, manifest, place, entry),
    ensures
        0 <= position(v, manifest, place) < entries_of(records_in_order(v.manifests)).len(),
        entries_of(records_in_order(v.manifests))[position(v, manifest, place)] == entry,
{
    let records = records_in_order(v.manifests);
    v.lemma_records();
    let n = choose|n: int|
        0 <= n < records.len() && #[trigger] records[n] == v.manifests[manifest];
    lemma_walked(records, n, place);
}

/// What the walk comes upon before a place of a recorded manifest stands at
/// a place that is seen first.
pub proof fn lemma_before_position(v: RuntimeView, p: int, manifest: ContentId, place: int) -> (at:
    (ContentId, int))
    requires
        v.consistent(),
        v.manifests.contains_key(manifest),
        0 <= place < v.manifests[manifest].manifest.entries@.len(),
        0 <= p < position(v, manifest, place),
    ensures
        p < entries_of(records_in_order(v.manifests)).len(),
        entry_at(v.manifests, at.0, at.1, entries_of(records_in_order(v.manifests))[p]),
        seen_first(at.0, at.1, manifest, place),
{
    let records = records_in_order(v.manifests);
    v.lemma_records();
    let other = choose|n: int|
        0 <= n < records.len() && #[trigger] records[n] == v.manifests[manifest];
    lemma_walked(records, other, place);
    let at = lemma_walk_of(records, p);
    lemma_walk_order(records, at.0, at.1, other, place);
    assert(records[other].manifest_id == manifest);
    (records[at.0].manifest_id, at.1)
}

proof fn lemma_links_walked(records: Seq<ManifestRecord>, n: int, place: int)
    requires
        0 <= n < records.len(),
        0 <= place < records[n].manifest.children@.len(),
    ensures
        links_of(records).contains(records[n].manifest.children@[place]),
    decreases records.len(),
{
    let earlier = links_of(records.drop_last());
    let link = records[n].manifest.children@[place];
    if n == records.len() - 1 {
        assert(links_of(records)[earlier.len() + place] == link);
    } else {
        lemma_links_walked(records.drop_last(), n, place);
        let i = earlier.index_of(link);
        assert(earlier[i] == link);
        assert(links_of(records)[i] == link);
    }
}

proof fn lemma_links_walk_of(records: Seq<ManifestRecord>, p: int) -> (at: (int, int))
    requires
        0 <= p < links_of(records).len(),
    ensures
        0 <= at.0 < records.len(),
        0 <= at.1 < records[at.0].manifest.children@.len(),
        links_of(records)[p] == records[at.0].manifest.children@[at.1],
    decreases records.len(),
{
    let earlier = links_of(records.drop_last());
    if p < earlier.len() {
        lemma_links_walk_of(records.drop_last(), p)
    } else {
        (records.len() - 1, p - earlier.len())
    }
}

/// The links that the walk comes upon are those of the recorded manifests.
pub proof fn lemma_links(v: RuntimeView, link: ChildManifest)
    requires
        v.consistent(),
    ensures
        links_of(records_in_order(v.manifests)).contains(link) <==> holds_link(v.manifests, link),
{
    let records = records_in_order(v.manifests);
    let links = links_of(records);
    v.lemma_records();
    if links.contains(link) {
        let at = lemma_links_walk_of(records, links.index_of(link));
        assert(link_at(v.manifests, records[at.0].manifest_id, at.1, link));
    }
    if holds_link(v.manifests, link) {
        let (m, place) = choose|m: ContentId, place: int| #[trigger]
            link_at(v.manifests, m, place, link);
        let n = choose|n: int| 0 <= n < records.len() && #[trigger] records[n] == v.manifests[m];
        lemma_links_walked(records, n, place);
    }
}

/// The first link that names a child is one of the links, and there is one
/// where any of them names the child.
pub proof fn lemma_first_link(links: Seq<ChildManifest>, child: ContentId)
    ensures
        first_link(links, child) matches Some(link) ==> links.contains(link) && link.manifest
            == child,
        forall|link: ChildManifest| #[trigger]
            links.contains(link) && link.manifest == child ==> first_link(links, child) is Some,
    decreases links.len(),
{
    if links.len() > 0 {
        let init = links.drop_last();
        lemma_first_link(init, child);
        if let Some(link) = first_link(init, child) {
            let i = init.index_of(link);
            assert(init[i] == link);
            assert(links[i] == link);
        }
        assert(links[links.len() - 1] == links.last());
        assert forall|link: ChildManifest| #[trigger]
            links.contains(link) && link.manifest == child implies first_link(
            links,
            child,
        ) is Some by {
            let i = links.index_of(link);
            assert(links[i] == link);
            if i < init.len() {
                assert(init[i] == link);
                assert(init.contains(link));
            }
        }
    }
}

} // verus!
