//! What a fetch plan asks for, and what is looked up for reuse, in terms of
//! the recorded manifests, the local objects and the residency policy.

use vstd::prelude::*;

use crate::ids::{ContentId, SnapshotId};
use crate::model::{ChildManifest, FetchStatus, ManifestEntry, ManifestRecord, ObjectKind};
use crate::runtime::laws::{
    law_candidates_are_the_distinct_wanted_mappings, law_planned_manifests_are_the_missing_children,
    law_wanted_objects_are_planned,
};
use crate::runtime::listing::{
    entry_at, holds_entry, lemma_entries, lemma_first_link, link_at, seen_first,
};
use crate::runtime::state::{
    candidate_of, entries_of, first_link, links_of, mappings, records_in_order,
    MaterializationState, RuntimeReconcile, RuntimeView,
};

verus! {

/// Every candidate that is planned for a content is a wanted entry of a
/// recorded manifest, field by field: fetching it derives the key, and
/// verifies the envelope, that the manifest describes.
pub proof fn law_candidates_carry_their_entries(
    v: RuntimeView,
    plan: RuntimeReconcile,
    content: ContentId,
    i: int,
)
    requires
        v.consistent(),
        v.plans(&plan),
        plan.pending_objects@.contains_key(content),
        0 <= i < plan.pending_objects@[content]@.len(),
    ensures
        exists|m: ContentId, k: int|
            {
                let c = plan.pending_objects@[content]@[i];
                let e = #[trigger] v.manifests[m].manifest.entries@[k];
                &&& v.manifests.contains_key(m)
                &&& 0 <= k < v.manifests[m].manifest.entries@.len()
                &&& e.content_id == content
                &&& c.content_id == e.content_id
                &&& c.storage_id == e.storage_id
                &&& c.transport == e.transport
                &&& c.kind == e.kind
                &&& c.version == e.version
                &&& c.encryption_epoch == e.encryption_epoch
                &&& c.size == e.size
                &&& !v.local.contains(content)
                &&& e.kind == ObjectKind::Tree || (v.materialization.contains_key(content)
                    && v.materialization[content] != MaterializationState::RemoteOnly)
            },
{
    law_candidates_are_the_distinct_wanted_mappings(v, plan, content);
    let all = plan.pending_objects@[content]@;
    assert(all.contains(all[i]));
    let entry = choose|entry: ManifestEntry|
        #[trigger] holds_entry(v.manifests, entry) && entry.content_id == content && v.wants(entry)
            && all[i] == candidate_of(entry);
    let (m, k) = choose|m: ContentId, k: int| #[trigger] entry_at(v.manifests, m, k, entry);
    assert(v.manifests[m].manifest.entries@[k] == entry);
}

/// Every wanted entry of a recorded manifest is planned, field by field.
pub proof fn law_wanted_entries_become_candidates(
    v: RuntimeView,
    plan: RuntimeReconcile,
    m: ContentId,
    k: int,
)
    requires
        v.consistent(),
        v.plans(&plan),
        v.manifests.contains_key(m),
        0 <= k < v.manifests[m].manifest.entries@.len(),
        !v.local.contains(v.manifests[m].manifest.entries@[k].content_id),
        v.manifests[m].manifest.entries@[k].kind == ObjectKind::Tree || (
        v.materialization.contains_key(v.manifests[m].manifest.entries@[k].content_id)
            && v.materialization[v.manifests[m].manifest.entries@[k].content_id]
            != MaterializationState::RemoteOnly),
    ensures
        plan.pending_objects@.contains_key(v.manifests[m].manifest.entries@[k].content_id),
        exists|i: int|
            {
                let e = v.manifests[m].manifest.entries@[k];
                let c = #[trigger] plan.pending_objects@[v.manifests[m].manifest.entries@[k].content_id]@[i];
                &&& 0 <= i < plan.pending_objects@[e.content_id]@.len()
                &&& c.content_id == e.content_id
                &&& c.storage_id == e.storage_id
                &&& c.transport == e.transport
                &&& c.kind == e.kind
                &&& c.version == e.version
                &&& c.encryption_epoch == e.encryption_epoch
                &&& c.size == e.size
            },
{
    let e = v.manifests[m].manifest.entries@[k];
    assert(entry_at(v.manifests, m, k, e));
    assert(holds_entry(v.manifests, e));
    law_wanted_objects_are_planned(v, plan, e.content_id);
    law_candidates_are_the_distinct_wanted_mappings(v, plan, e.content_id);
    let all = plan.pending_objects@[e.content_id]@;
    assert(v.wants(e));
    let i = all.index_of(candidate_of(e));
    assert(all[i] == candidate_of(e));
}

/// A content that is local, or that no recorded manifest maps, or that is
/// mapped as no directory node and wanted by no policy, is not planned.
pub proof fn law_nothing_else_is_planned(
    v: RuntimeView,
    plan: RuntimeReconcile,
    content: ContentId,
)
    requires
        v.consistent(),
        v.plans(&plan),
        v.local.contains(content) || forall|m: ContentId, k: int|
            v.manifests.contains_key(m) && 0 <= k < v.manifests[m].manifest.entries@.len() && (
            #[trigger] v.manifests[m].manifest.entries@[k]).content_id == content
                ==> v.manifests[m].manifest.entries@[k].kind != ObjectKind::Tree && (
            !v.materialization.contains_key(content) || v.materialization[content]
                == MaterializationState::RemoteOnly),
    ensures
        !plan.pending_objects@.contains_key(content),
{
    if plan.pending_objects@.contains_key(content) {
        law_wanted_objects_are_planned(v, plan, content);
        let entry = choose|entry: ManifestEntry| #[trigger]
            holds_entry(v.manifests, entry) && entry.content_id == content && (entry.kind
                == ObjectKind::Tree || v.desired(content) != MaterializationState::RemoteOnly);
        let (m, k) = choose|m: ContentId, k: int| #[trigger] entry_at(v.manifests, m, k, entry);
        assert(v.manifests[m].manifest.entries@[k] == entry);
    }
}

/// No planned object is without a candidate, and no two candidates of one
/// object agree in every field.
pub proof fn law_candidates_differ(
    v: RuntimeView,
    plan: RuntimeReconcile,
    content: ContentId,
    i: int,
    j: int,
)
    requires
        v.consistent(),
        v.plans(&plan),
        plan.pending_objects@.contains_key(content),
        0 <= i < j < plan.pending_objects@[content]@.len(),
    ensures
        ({
            let a = plan.pending_objects@[content]@[i];
            let b = plan.pending_objects@[content]@[j];
            a.storage_id != b.storage_id || a.transport != b.transport || a.kind != b.kind
                || a.version != b.version || a.encryption_epoch != b.encryption_epoch || a.size
                != b.size
        }),
{
    law_candidates_are_the_distinct_wanted_mappings(v, plan, content);
    law_candidates_carry_their_entries(v, plan, content, i);
    law_candidates_carry_their_entries(v, plan, content, j);
    let all = plan.pending_objects@[content]@;
    assert(all[i] != all[j]);
}

/// A planned object has a candidate.
pub proof fn law_planned_objects_have_candidates(
    v: RuntimeView,
    plan: RuntimeReconcile,
    content: ContentId,
)
    requires
        v.plans(&plan),
        plan.pending_objects@.contains_key(content),
    ensures
        plan.pending_objects@[content]@.len() > 0,
{
}

/// A root manifest is wanted for exactly the announced snapshots that no
/// root manifest is recorded for, and a body for exactly the announced
/// snapshots whose body is not recorded.
pub proof fn law_announced_snapshots_are_completed(
    v: RuntimeView,
    plan: RuntimeReconcile,
    snapshot: SnapshotId,
)
    requires
        v.consistent(),
        v.plans(&plan),
    ensures
        plan.pending_snapshots@.contains(snapshot) <==> v.announcements.contains_key(snapshot)
            && forall|m: ContentId| #[trigger]
            v.manifests.contains_key(m) && v.manifests[m].is_root
                ==> v.manifests[m].manifest.snapshot != snapshot,
        plan.pending_snapshot_bodies@.contains(snapshot) <==> v.announcements.contains_key(snapshot)
            && !v.bodies.contains_key(snapshot),
{
    if v.roots.contains_key(snapshot) {
        let m = choose|m: ContentId| #[trigger] v.roots[snapshot].contains(m);
        assert(crate::runtime::state::is_root_of(v.manifests, m, snapshot));
        assert(v.manifests.contains_key(m));
    } else {
        assert forall|m: ContentId| #[trigger]
            v.manifests.contains_key(m) && v.manifests[m].is_root implies
            v.manifests[m].manifest.snapshot != snapshot by {
            if v.manifests[m].manifest.snapshot == snapshot {
                assert(crate::runtime::state::is_root_of(v.manifests, m, snapshot));
            }
        }
    }
}

/// A child manifest is wanted exactly when a recorded manifest links to it
/// and it is not recorded itself; it is fetched by one of the links that
/// name it, as that link stands in its manifest.
pub proof fn law_linked_children_are_completed(
    v: RuntimeView,
    plan: RuntimeReconcile,
    child: ContentId,
)
    requires
        v.consistent(),
        v.plans(&plan),
    ensures
        plan.pending_manifests@.contains_key(child) <==> !v.manifests.contains_key(child) && exists|
            m: ContentId,
            k: int,
        |
            v.manifests.contains_key(m) && 0 <= k < v.manifests[m].manifest.children@.len() && (
            #[trigger] v.manifests[m].manifest.children@[k]).manifest == child,
        plan.pending_manifests@.contains_key(child) ==> exists|m: ContentId, k: int|
            {
                let l = #[trigger] v.manifests[m].manifest.children@[k];
                let p = plan.pending_manifests@[child];
                &&& v.manifests.contains_key(m)
                &&& 0 <= k < v.manifests[m].manifest.children@.len()
                &&& l.manifest == child
                &&& p.manifest == child
                &&& p.tree == l.tree
                &&& p.storage == l.storage
                &&& p.transport == l.transport
            },
{
    law_planned_manifests_are_the_missing_children(v, plan, child);
    if plan.pending_manifests@.contains_key(child) {
        let link = plan.pending_manifests@[child];
        let (m, k) = choose|m: ContentId, k: int| #[trigger] link_at(v.manifests, m, k, link);
        assert(v.manifests[m].manifest.children@[k] == link);
    }
    if exists|m: ContentId, k: int|
        v.manifests.contains_key(m) && 0 <= k < v.manifests[m].manifest.children@.len() && (
        #[trigger] v.manifests[m].manifest.children@[k]).manifest == child {
        let (m, k) = choose|m: ContentId, k: int|
            v.manifests.contains_key(m) && 0 <= k < v.manifests[m].manifest.children@.len() && (
            #[trigger] v.manifests[m].manifest.children@[k]).manifest == child;
        let children = v.manifests[m].manifest.children@;
        assert(children[k].manifest == child);
        assert(crate::runtime::state::links_to(v.manifests, m, child));
    }
}

proof fn lemma_links_prefix(records: Seq<ManifestRecord>, n: int)
    requires
        0 <= n <= records.len(),
    ensures
        links_of(records.take(n)).len() <= links_of(records).len(),
        forall|p: int|
            0 <= p < links_of(records.take(n)).len() ==> #[trigger] links_of(records.take(n))[p]
                == links_of(records)[p],
    decreases records.len(),
{
    if n == records.len() {
        assert(records.take(n) =~= records);
    } else {
        let init = records.drop_last();
        assert(init.take(n) =~= records.take(n));
        lemma_links_prefix(init, n);
    }
}

proof fn lemma_link_walked(records: Seq<ManifestRecord>, n: int, place: int)
    requires
        0 <= n < records.len(),
        0 <= place < records[n].manifest.children@.len(),
    ensures
        links_of(records.take(n)).len() + place < links_of(records).len(),
        links_of(records)[links_of(records.take(n)).len() + place]
            == records[n].manifest.children@[place],
{
    let next = records.take(n + 1);
    assert(next.drop_last() =~= records.take(n));
    assert(next.last() == records[n]);
    lemma_links_prefix(records, n + 1);
    assert(links_of(next)[links_of(records.take(n)).len() + place]
        == records[n].manifest.children@[place]);
}

proof fn lemma_place_of_link(records: Seq<ManifestRecord>, p: int) -> (at: (int, int))
    requires
        0 <= p < links_of(records).len(),
    ensures
        0 <= at.0 < records.len(),
        0 <= at.1 < records[at.0].manifest.children@.len(),
        p == links_of(records.take(at.0)).len() + at.1,
        links_of(records)[p] == records[at.0].manifest.children@[at.1],
    decreases records.len(),
{
    let init = records.drop_last();
    let earlier = links_of(init);
    if p < earlier.len() {
        let at = lemma_place_of_link(init, p);
        assert(init.take(at.0) =~= records.take(at.0));
        at
    } else {
        assert(records.take(records.len() - 1) =~= init);
        (records.len() - 1, p - earlier.len())
    }
}

proof fn lemma_first_index(links: Seq<ChildManifest>, child: ContentId) -> (p: int)
    requires
        first_link(links, child) is Some,
    ensures
        0 <= p < links.len(),
        first_link(links, child) == Some(links[p]),
        links[p].manifest == child,
        forall|q: int| 0 <= q < p ==> (#[trigger] links[q]).manifest != child,
    decreases links.len(),
{
    let init = links.drop_last();
    if first_link(init, child) is Some {
        let p = lemma_first_index(init, child);
        assert forall|q: int| 0 <= q < p implies (#[trigger] links[q]).manifest != child by {
            assert(links[q] == init[q]);
        }
        p
    } else {
        lemma_first_link(init, child);
        assert forall|q: int| 0 <= q < init.len() implies (#[trigger] links[q]).manifest
            != child by {
            assert(links[q] == init[q]);
            assert(init.contains(init[q]));
        }
        links.len() - 1
    }
}

/// A missing child is planned under the first link that names it: manifests
/// are walked in id order, and the links of each in theirs.
pub proof fn law_children_are_planned_by_their_first_link(
    v: RuntimeView,
    plan: RuntimeReconcile,
    manifest: ContentId,
    place: int,
    link: ChildManifest,
)
    requires
        v.consistent(),
        v.plans(&plan),
        link_at(v.manifests, manifest, place, link),
        !v.manifests.contains_key(link.manifest),
        forall|m: ContentId, k: int, other: ChildManifest| #[trigger]
            link_at(v.manifests, m, k, other) && seen_first(m, k, manifest, place)
                ==> other.manifest != link.manifest,
    ensures
        plan.pending_manifests@.contains_key(link.manifest),
        plan.pending_manifests@[link.manifest] == link,
{
    let records = records_in_order(v.manifests);
    let links = links_of(records);
    let child = link.manifest;
    v.lemma_records();
    let n = choose|n: int|
        0 <= n < records.len() && #[trigger] records[n] == v.manifests[manifest];
    lemma_link_walked(records, n, place);
    let here = links_of(records.take(n)).len() + place;
    assert(links.contains(links[here]));
    lemma_first_link(links, child);
    let p = lemma_first_index(links, child);
    if p < here {
        let at = lemma_place_of_link(records, p);
        let m = records[at.0].manifest_id;
        assert(link_at(v.manifests, m, at.1, links[p]));
        if at.0 > n {
            let next = records.take(n + 1);
            assert(next.drop_last() =~= records.take(n));
            assert(next.last() == records[n]);
            assert(records.take(at.0).take(n + 1) =~= next);
            lemma_links_prefix(records.take(at.0), n + 1);
        }
        assert(seen_first(m, at.1, manifest, place));
        assert(false);
    }
    assert(links[here] == link);
    assert(p == here);
    assert(plan.pending_manifests@.contains_key(child));
    assert(first_link(links, child) == Some(plan.pending_manifests@[child]));
}

proof fn lemma_mappings_filter(entries: Seq<ManifestEntry>, content: ContentId)
    ensures
        mappings(entries, content) == entries.filter(
            |entry: ManifestEntry| entry.content_id == content,
        ),
    decreases entries.len(),
{
    reveal(Seq::filter);
    if entries.len() > 0 {
        lemma_mappings_filter(entries.drop_last(), content);
    }
}

/// The recorded mappings of a content are the entries that map it, in the
/// order in which the recorded manifests are walked.
pub proof fn law_recorded_mappings_keep_their_order(v: RuntimeView, content: ContentId)
    ensures
        mappings(entries_of(records_in_order(v.manifests)), content) == entries_of(
            records_in_order(v.manifests),
        ).filter(|entry: ManifestEntry| entry.content_id == content),
{
    lemma_mappings_filter(entries_of(records_in_order(v.manifests)), content);
}

/// Every recorded mapping that is handed out for a content is an entry of a
/// recorded manifest and maps that content, and every such entry is handed
/// out.
pub proof fn law_recorded_mappings_are_exact(
    v: RuntimeView,
    content: ContentId,
    entry: ManifestEntry,
)
    requires
        v.consistent(),
    ensures
        mappings(entries_of(records_in_order(v.manifests)), content).contains(entry) <==> (
        entry.content_id == content && exists|m: ContentId, k: int|
            v.manifests.contains_key(m) && 0 <= k < v.manifests[m].manifest.entries@.len()
                && #[trigger] v.manifests[m].manifest.entries@[k] == entry),
{
    let entries = entries_of(records_in_order(v.manifests));
    let keep = |e: ManifestEntry| e.content_id == content;
    lemma_mappings_filter(entries, content);
    lemma_entries(v, entry);
    lemma_filter_contains(entries, keep, entry);
    if holds_entry(v.manifests, entry) {
        let (m, k) = choose|m: ContentId, k: int| #[trigger] entry_at(v.manifests, m, k, entry);
        assert(v.manifests[m].manifest.entries@[k] == entry);
    }
    if exists|m: ContentId, k: int|
        v.manifests.contains_key(m) && 0 <= k < v.manifests[m].manifest.entries@.len()
            && #[trigger] v.manifests[m].manifest.entries@[k] == entry {
        let (m, k) = choose|m: ContentId, k: int|
            v.manifests.contains_key(m) && 0 <= k < v.manifests[m].manifest.entries@.len()
                && #[trigger] v.manifests[m].manifest.entries@[k] == entry;
        assert(entry_at(v.manifests, m, k, entry));
    }
}

/// What a filter keeps.
pub proof fn lemma_filter_contains<T>(s: Seq<T>, keep: spec_fn(T) -> bool, x: T)
    ensures
        s.filter(keep).contains(x) <==> s.contains(x) && keep(x),
    decreases s.len(),
{
    reveal(Seq::filter);
    if s.len() > 0 {
        let init = s.drop_last();
        lemma_filter_contains(init, keep, x);
        let kept = init.filter(keep);
        if init.contains(x) {
            assert(s[init.index_of(x)] == x);
        }
        if s.contains(x) && x != s.last() {
            assert(init[s.index_of(x)] == x);
        }
        assert(s[s.len() - 1] == s.last());
        if kept.contains(x) {
            let i = kept.index_of(x);
            assert(kept.push(s.last())[i] == x);
        }
        assert(kept.push(s.last())[kept.len() as int] == s.last());
        if s.filter(keep).contains(x) && x != s.last() {
            let i = s.filter(keep).index_of(x);
            assert(kept[i] == x);
        }
    }
}

/// An object is available exactly when it is local. One that is not is
/// remote-only unless its policy asks for a copy, and on its way if it does.
pub proof fn law_status_follows_residency_and_policy(v: RuntimeView, content: ContentId)
    ensures
        v.status(content) == FetchStatus::Available <==> v.local.contains(content),
        v.status(content) == FetchStatus::Fetching <==> !v.local.contains(content)
            && v.materialization.contains_key(content) && v.materialization[content]
            != MaterializationState::RemoteOnly,
        v.status(content) == FetchStatus::RemoteOnly <==> !v.local.contains(content) && (
        !v.materialization.contains_key(content) || v.materialization[content]
            == MaterializationState::RemoteOnly),
{
}

} // verus!
