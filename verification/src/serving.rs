//! The serving surface: what of the recorded state a device serves to its
//! peers, and under which addresses.
//!
//! The addresses are derived from the recorded state and never stored, so a
//! restart rebuilds them. The sealed bytes themselves lie in the vault,
//! which is handed in as a function from a transport root to what is held
//! there. What it hands out is verified against the root before it is
//! served.

use vstd::prelude::*;
use vstd::utf8::{encode_utf8, is_leading_byte_width_1, valid_utf8};

use crate::ids::{BaoRoot, ContentId, SnapshotId, StorageId};
use crate::model::{ChildManifest, ManifestEntry, ManifestRecord};
use crate::order::{in_order, Key};
use crate::runtime::fetch::{BulkError, SealedManifest};
use crate::runtime::state::{records_in_order, RuntimeState, RuntimeView};
use crate::sorted::SortedMap;
use crate::transport::addr::utf8_text;

verus! {

/// The value of a hexadecimal digit.
pub open spec fn hex_value(digit: u8) -> Option<u8> {
    if 0x30 <= digit <= 0x39 {
        Some((digit - 0x30) as u8)
    } else if 0x61 <= digit <= 0x66 {
        Some((digit - 0x61 + 10) as u8)
    } else if 0x41 <= digit <= 0x46 {
        Some((digit - 0x41 + 10) as u8)
    } else {
        None
    }
}

/// Whether a text is 64 hexadecimal digits.
pub open spec fn is_hex_32(text: Seq<u8>) -> bool {
    text.len() == 64 && forall|i: int| 0 <= i < 64 ==> hex_value(#[trigger] text[i]) is Some
}

/// The bytes that 64 hexadecimal digits stand for.
pub open spec fn hex_bytes(text: Seq<u8>) -> Seq<u8> {
    Seq::new(
        32,
        |i: int| (hex_value(text[2 * i])->0 * 16 + hex_value(text[2 * i + 1])->0) as u8,
    )
}

fn hex_digit(digit: u8) -> (r: Option<u8>)
    ensures
        r == hex_value(digit),
{
    if 0x30 <= digit && digit <= 0x39 {
        Some(digit - 0x30)
    } else if 0x61 <= digit && digit <= 0x66 {
        Some(digit - 0x61 + 10)
    } else if 0x41 <= digit && digit <= 0x46 {
        Some(digit - 0x41 + 10)
    } else {
        None
    }
}

/// Reads 32 bytes from 64 hexadecimal digits of either case; anything else
/// is refused.
pub fn hex_to_32(name: &str) -> (r: Result<[u8; 32], ()>)
    ensures
        match r {
            Ok(bytes) => is_hex_32(encode_utf8(name@)) && bytes@ == hex_bytes(encode_utf8(name@)),
            Err(_) => !is_hex_32(encode_utf8(name@)),
        },
{
    let text = name.as_bytes();
    if text.len() != 64 {
        return Err(());
    }
    let mut out: [u8; 32] = [0u8;32];
    let mut i: usize = 0;
    while i < 32
        invariant
            i <= 32,
            text@ == encode_utf8(name@),
            text@.len() == 64,
            forall|j: int| 0 <= j < 2 * i ==> hex_value(#[trigger] text@[j]) is Some,
            forall|j: int| 0 <= j < i ==> #[trigger] out@[j] == hex_bytes(text@)[j],
        decreases 32 - i,
    {
        let high: u8 = match hex_digit(text[2 * i]) {
            Some(high) => high,
            None => return Err(()),
        };
        let low: u8 = match hex_digit(text[2 * i + 1]) {
            Some(low) => low,
            None => return Err(()),
        };
        out[i] = high * 16 + low;
        i = i + 1;
    }
    proof {
        assert(out@ =~= hex_bytes(text@));
    }
    Ok(out)
}

/// The lower-case hexadecimal digit of a value below 16.
pub open spec fn hex_char(value: u8) -> u8 {
    if value < 10 {
        (0x30 + value) as u8
    } else {
        (0x61 + value - 10) as u8
    }
}

/// Bytes in lower-case hexadecimal, the high digit first.
pub open spec fn hex_name(bytes: Seq<u8>) -> Seq<u8> {
    Seq::new(
        2 * bytes.len(),
        |i: int|
            if i % 2 == 0 {
                hex_char((bytes[i / 2] / 16) as u8)
            } else {
                hex_char((bytes[i / 2] % 16) as u8)
            },
    )
}

proof fn lemma_ascii_is_utf8(text: Seq<u8>)
    requires
        forall|i: int| 0 <= i < text.len() ==> #[trigger] text[i] < 0x80,
    ensures
        valid_utf8(text),
{
    assert forall|i: int| 0 <= i < text.len() implies #[trigger] is_leading_byte_width_1(
        text[i],
    ) by {
        let byte = text[i];
        assert(byte < 0x80 ==> byte & 0x80 == 0) by (bit_vector);
    }
    assert(text.subrange(0, 0) =~= Seq::empty());
    vstd::utf8::partial_valid_utf8_extend_ascii_block(text, 0, text.len() as int);
    assert(text.subrange(0, text.len() as int) =~= text);
}

fn hex_text(value: u8) -> (r: u8)
    requires
        value < 16,
    ensures
        r == hex_char(value),
{
    if value < 10 {
        0x30 + value
    } else {
        0x61 + (value - 10)
    }
}

/// The name of a root's file in the vault: the root in lower-case
/// hexadecimal.
pub fn root_name(root: &BaoRoot) -> (r: String)
    ensures
        encode_utf8(r@) == hex_name(root@),
{
    let bytes: &[u8; 32] = root.as_bytes();
    let ghost digits = hex_name(root@);
    let mut text: Vec<u8> = Vec::new();
    let mut i: usize = 0;
    while i < 32
        invariant
            i <= 32,
            bytes@ == root@,
            bytes@.len() == 32,
            digits == hex_name(root@),
            text@.len() == 2 * i,
            forall|j: int| 0 <= j < 2 * i ==> #[trigger] text@[j] == digits[j],
        decreases 32 - i,
    {
        let byte: u8 = bytes[i];
        text.push(hex_text(byte / 16));
        text.push(hex_text(byte % 16));
        proof {
            assert((2 * i) / 2 == i && (2 * i) % 2 == 0);
            assert((2 * i + 1) / 2 == i && (2 * i + 1) % 2 == 1);
        }
        i = i + 1;
    }
    proof {
        assert(text@ =~= digits);
        lemma_ascii_is_utf8(text@);
    }
    match utf8_text(text.as_slice()) {
        Some(name) => name.to_owned(),
        None => String::new(),
    }
}

/// A root's file name reads back as the root, so no two roots share a name
/// and every held root is found again among the files.
pub proof fn law_root_names_read_back(root: BaoRoot)
    ensures
        is_hex_32(hex_name(root@)),
        hex_bytes(hex_name(root@)) == root@,
{
    let name = hex_name(root@);
    BaoRoot::lemma_bytes(root, root);
    assert forall|i: int| 0 <= i < 64 implies hex_value(#[trigger] name[i]) is Some by {}
    assert forall|i: int| 0 <= i < 32 implies #[trigger] hex_bytes(name)[i] == root@[i] by {
        assert((2 * i) / 2 == i && (2 * i) % 2 == 0);
        assert((2 * i + 1) / 2 == i && (2 * i + 1) % 2 == 1);
        assert(name[2 * i] == hex_char((root@[i] / 16) as u8));
        assert(name[2 * i + 1] == hex_char((root@[i] % 16) as u8));
    }
    assert(hex_bytes(name) =~= root@);
}

/// Whether roots are in order, repetitions allowed.
pub open spec fn sorted_roots(roots: Seq<BaoRoot>) -> bool {
    forall|i: int, j: int|
        0 <= i < j < roots.len() ==> !BaoRoot::before(#[trigger] roots[j], #[trigger] roots[i])
}

/// The roots that some file names stand for, in the order of the names.
pub open spec fn named_roots(names: Seq<String>) -> Seq<Seq<u8>>
    decreases names.len(),
{
    if names.len() == 0 {
        Seq::empty()
    } else {
        let earlier = named_roots(names.drop_last());
        let name = encode_utf8(names.last()@);
        if is_hex_32(name) {
            earlier.push(hex_bytes(name))
        } else {
            earlier
        }
    }
}

/// The bytes of some roots.
pub open spec fn root_bytes(roots: Seq<BaoRoot>) -> Seq<Seq<u8>> {
    roots.map_values(|root: BaoRoot| root@)
}

/// Puts a root in its place among others.
fn insert_root(roots: &mut Vec<BaoRoot>, root: BaoRoot)
    requires
        sorted_roots(old(roots)@),
    ensures
        sorted_roots(final(roots)@),
        root_bytes(final(roots)@).to_multiset() == root_bytes(old(roots)@).to_multiset().insert(
            root@,
        ),
{
    let ghost before = roots@;
    let mut at: usize = roots.len();
    while at > 0 && root.precedes(&roots[at - 1])
        invariant
            at <= roots@.len(),
            roots@ == before,
            forall|j: int| at <= j < roots@.len() ==> BaoRoot::before(root, #[trigger] roots@[j]),
        decreases at,
    {
        at = at - 1;
    }
    roots.insert(at, root);
    proof {
        assert(roots@ == before.insert(at as int, root));
        assert forall|i: int, j: int| 0 <= i < j < roots@.len() implies !BaoRoot::before(
            #[trigger] roots@[j],
            #[trigger] roots@[i],
        ) by {
            let a = roots@[i];
            let b = roots@[j];
            if BaoRoot::before(b, a) {
                if j == at {
                    assert(a == before[i]);
                    if i < at - 1 {
                        assert(!BaoRoot::before(before[at - 1], before[i]));
                        BaoRoot::connected(before[at - 1], before[i]);
                        if BaoRoot::before(before[i], before[at - 1]) {
                            BaoRoot::transitive(root, before[i], before[at - 1]);
                        }
                    }
                } else if i == at {
                    assert(b == before[j - 1]);
                    assert(BaoRoot::before(root, before[j - 1]));
                    BaoRoot::transitive(root, b, root);
                    BaoRoot::irreflexive(root);
                } else {
                    let x = if i < at { i } else { i - 1 };
                    let y = if j < at { j } else { j - 1 };
                    assert(before[x] == a && before[y] == b);
                }
            }
        }
        let old_bytes = root_bytes(before);
        assert(root_bytes(roots@) =~= old_bytes.insert(at as int, root@));
        vstd::seq_lib::to_multiset_insert(old_bytes, at as int, root@);
    }
}

/// The roots that a vault holds, from the names of its files, in order.
/// Names that are not a root's, such as those of unfinished imports, are
/// passed over.
pub fn held_roots(names: &Vec<String>) -> (r: Vec<BaoRoot>)
    ensures
        sorted_roots(r@),
        root_bytes(r@).to_multiset() == named_roots(names@).to_multiset(),
{
    let mut roots: Vec<BaoRoot> = Vec::new();
    let mut i: usize = 0;
    proof {
        assert(names@.take(0) =~= Seq::empty());
        assert(root_bytes(roots@) =~= Seq::empty());
    }
    while i < names.len()
        invariant
            i <= names@.len(),
            sorted_roots(roots@),
            root_bytes(roots@).to_multiset() == named_roots(names@.take(i as int)).to_multiset(),
        decreases names@.len() - i,
    {
        proof {
            assert(names@.take(i + 1).drop_last() =~= names@.take(i as int));
            assert(names@.take(i + 1).last() == names@[i as int]);
            vstd::seq_lib::to_multiset_build(
                named_roots(names@.take(i as int)),
                hex_bytes(encode_utf8(names@[i as int]@)),
            );
        }
        if let Ok(bytes) = hex_to_32(names[i].as_str()) {
            insert_root(&mut roots, BaoRoot::from_bytes(bytes));
        }
        i = i + 1;
    }
    proof {
        assert(names@.take(i as int) =~= names@);
    }
    roots
}

/// The record that is served as a snapshot's root manifest: the recorded
/// one, unless it has no representation yet.
pub open spec fn served_root(v: RuntimeView, snapshot: SnapshotId) -> Option<ManifestRecord> {
    match v.root_manifest(snapshot) {
        Some(id) => if v.manifests[id].representations@ == Map::<StorageId, BaoRoot>::empty() {
            None
        } else {
            Some(v.manifests[id])
        },
        None => None,
    }
}

/// The representations of a record, each under its own root.
pub open spec fn representation_pairs(record: ManifestRecord) -> Seq<(StorageId, BaoRoot)> {
    let storages = in_order::<StorageId>(record.representations@.dom());
    Seq::new(storages.len(), |i: int| (storages[i], record.representations@[storages[i]]))
}

/// The representations of some snapshots' served root manifests.
pub open spec fn root_pairs(v: RuntimeView, snapshots: Seq<SnapshotId>) -> Seq<
    (StorageId, BaoRoot),
>
    decreases snapshots.len(),
{
    if snapshots.len() == 0 {
        Seq::empty()
    } else {
        let earlier = root_pairs(v, snapshots.drop_last());
        match served_root(v, snapshots.last()) {
            Some(record) => earlier + representation_pairs(record),
            None => earlier,
        }
    }
}

/// What a record's manifest maps: its entries, then its children.
pub open spec fn mapped_pairs(record: ManifestRecord) -> Seq<(StorageId, BaoRoot)> {
    record.manifest.entries@.map_values(
        |entry: ManifestEntry| (entry.storage_id, entry.transport),
    ) + record.manifest.children@.map_values(
        |link: ChildManifest| (link.storage, link.transport),
    )
}

/// What some records' manifests map.
pub open spec fn record_pairs(records: Seq<ManifestRecord>) -> Seq<(StorageId, BaoRoot)>
    decreases records.len(),
{
    if records.len() == 0 {
        Seq::empty()
    } else {
        record_pairs(records.drop_last()) + mapped_pairs(records.last())
    }
}

/// Storage addresses, after some pairs were entered one after the other.
pub open spec fn entered(
    map: Map<StorageId, BaoRoot>,
    pairs: Seq<(StorageId, BaoRoot)>,
) -> Map<StorageId, BaoRoot>
    decreases pairs.len(),
{
    if pairs.len() == 0 {
        map
    } else {
        entered(map, pairs.drop_last()).insert(pairs.last().0, pairs.last().1)
    }
}

/// Every storage address that the state serves.
pub open spec fn served_addresses(v: RuntimeView) -> Map<StorageId, BaoRoot> {
    entered(
        Map::empty(),
        root_pairs(v, in_order::<SnapshotId>(v.recorded())) + record_pairs(
            records_in_order(v.manifests),
        ),
    )
}

/// Entering pairs in two goes is entering them in one.
pub proof fn lemma_entered_more(
    map: Map<StorageId, BaoRoot>,
    first: Seq<(StorageId, BaoRoot)>,
    second: Seq<(StorageId, BaoRoot)>,
)
    ensures
        entered(map, first + second) == entered(entered(map, first), second),
    decreases second.len(),
{
    if second.len() == 0 {
        assert(first + second =~= first);
    } else {
        lemma_entered_more(map, first, second.drop_last());
        assert((first + second).drop_last() =~= first + second.drop_last());
        assert((first + second).last() == second.last());
    }
}

/// What a device serves of its recorded state.
pub struct VaultSource {
    /// Root manifests by snapshot.
    roots: SortedMap<SnapshotId, (ContentId, BaoRoot)>,
    /// Snapshot bodies.
    bodies: SortedMap<SnapshotId, Vec<u8>>,
    /// Transport roots by storage address.
    sealed: SortedMap<StorageId, BaoRoot>,
}

/// The mathematical value of a [`VaultSource`].
#[verifier::ext_equal]
pub struct SourceView {
    pub roots: Map<SnapshotId, (ContentId, BaoRoot)>,
    pub bodies: Map<SnapshotId, Seq<u8>>,
    pub sealed: Map<StorageId, BaoRoot>,
}

impl View for VaultSource {
    type V = SourceView;

    closed spec fn view(&self) -> SourceView {
        SourceView {
            roots: self.roots@,
            bodies: self.bodies@.map_values(|body: Vec<u8>| body@),
            sealed: self.sealed@,
        }
    }
}

/// The root manifests that a state serves.
pub open spec fn serves_roots(
    v: RuntimeView,
    roots: Map<SnapshotId, (ContentId, BaoRoot)>,
) -> bool {
    &&& forall|s: SnapshotId| #[trigger]
        roots.contains_key(s) <==> served_root(v, s) is Some
    &&& forall|s: SnapshotId| #[trigger]
        roots.contains_key(s) ==> (served_root(v, s) matches Some(record) && roots[s] == (
            record.manifest_id,
            record.transport,
        ))
}

/// The bodies that a state serves.
pub open spec fn serves_bodies(v: RuntimeView, bodies: Map<SnapshotId, Seq<u8>>) -> bool {
    &&& forall|s: SnapshotId| #[trigger] bodies.contains_key(s) <==> v.bodies.contains_key(s)
    &&& forall|s: SnapshotId| #[trigger]
        bodies.contains_key(s) ==> bodies[s] == v.bodies[s].encoded@
}

/// The root manifests that a state serves of some snapshots.
spec fn roots_among(
    v: RuntimeView,
    snapshots: Seq<SnapshotId>,
    roots: Map<SnapshotId, (ContentId, BaoRoot)>,
) -> bool {
    &&& forall|s: SnapshotId| #[trigger]
        roots.contains_key(s) <==> snapshots.contains(s) && served_root(v, s) is Some
    &&& forall|s: SnapshotId| #[trigger]
        roots.contains_key(s) ==> (served_root(v, s) matches Some(record) && roots[s] == (
            record.manifest_id,
            record.transport,
        ))
}

/// The bodies that a state serves of some snapshots.
spec fn bodies_among(
    v: RuntimeView,
    snapshots: Seq<SnapshotId>,
    bodies: Map<SnapshotId, Seq<u8>>,
) -> bool {
    &&& forall|s: SnapshotId| #[trigger]
        bodies.contains_key(s) <==> snapshots.contains(s) && v.bodies.contains_key(s)
    &&& forall|s: SnapshotId| #[trigger]
        bodies.contains_key(s) ==> bodies[s] == v.bodies[s].encoded@
}

/// What a reply from the vault comes to under a ceiling.
pub open spec fn limited(reply: Result<Option<Vec<u8>>, String>, max: usize) -> Result<
    Option<Vec<u8>>,
    BulkError,
> {
    match reply {
        Err(text) => Err(BulkError::Transport(text)),
        Ok(None) => Ok(None),
        Ok(Some(bytes)) => if bytes@.len() > max {
            Err(BulkError::Oversize { bytes: bytes@.len() as usize, max })
        } else {
            Ok(Some(bytes))
        },
    }
}

/// Holds a reply from the vault to a ceiling.
pub fn limit_reply(reply: Result<Option<Vec<u8>>, String>, max: usize) -> (r: Result<
    Option<Vec<u8>>,
    BulkError,
>)
    ensures
        r == limited(reply, max),
{
    match reply {
        Err(text) => Err(BulkError::Transport(text)),
        Ok(None) => Ok(None),
        Ok(Some(bytes)) => if bytes.len() > max {
            Err(BulkError::Oversize { bytes: bytes.len(), max })
        } else {
            Ok(Some(bytes))
        },
    }
}

/// Whether the vault may be asked for a root, and whatever it can answer be
/// hashed.
pub open spec fn readable<
    V: FnOnce(&BaoRoot) -> Result<Option<Vec<u8>>, String>,
    T: Fn(&Vec<u8>) -> BaoRoot,
>(root: BaoRoot, vault: V, transport_root: T) -> bool {
    &&& call_requires(vault, (&root,))
    &&& forall|bytes: Vec<u8>|
        call_ensures(vault, (&root,), Ok::<Option<Vec<u8>>, String>(Some(bytes)))
            ==> #[trigger] call_requires(transport_root, (&bytes,))
}

/// What reading a root from the vault comes to under a ceiling: bytes that
/// do not hash to the root that they are held under are not served.
pub open spec fn reads<
    V: FnOnce(&BaoRoot) -> Result<Option<Vec<u8>>, String>,
    T: Fn(&Vec<u8>) -> BaoRoot,
>(
    root: BaoRoot,
    max: usize,
    vault: V,
    transport_root: T,
    r: Result<Option<Vec<u8>>, BulkError>,
) -> bool {
    exists|reply: Result<Option<Vec<u8>>, String>|
        {
            &&& #[trigger] call_ensures(vault, (&root,), reply)
            &&& match reply {
                Ok(Some(bytes)) => exists|derived: BaoRoot|
                    {
                        &&& #[trigger] call_ensures(transport_root, (&bytes,), derived)
                        &&& if derived == root {
                            r == limited(reply, max)
                        } else {
                            r matches Err(BulkError::Transport(text)) && text@
                                == "vault bytes do not hash to their root"@
                        }
                    },
                _ => r == limited(reply, max),
            }
        }
}

/// Reads a root from the vault and verifies what is held there.
fn read_verified<
    V: FnOnce(&BaoRoot) -> Result<Option<Vec<u8>>, String>,
    T: Fn(&Vec<u8>) -> BaoRoot,
>(root: &BaoRoot, max: usize, vault: V, transport_root: &T) -> (r: Result<
    Option<Vec<u8>>,
    BulkError,
>)
    requires
        readable(*root, vault, *transport_root),
    ensures
        reads(*root, max, vault, *transport_root, r),
        r matches Ok(Some(bytes)) ==> call_ensures(*transport_root, (&bytes,), *root),
{
    let reply = vault(root);
    let ghost answer = reply;
    if let Ok(Some(bytes)) = &reply {
        proof {
            assert(answer == Ok::<Option<Vec<u8>>, String>(Some(*bytes)));
        }
        let derived: BaoRoot = transport_root(bytes);
        proof {
            assert(call_ensures(*transport_root, (bytes,), derived));
        }
        if !derived.same(root) {
            return Err(
                BulkError::Transport("vault bytes do not hash to their root".to_owned()),
            );
        }
    }
    limit_reply(reply, max)
}

/// Enters one record's representations.
fn enter_representations(sealed: &mut SortedMap<StorageId, BaoRoot>, record: &ManifestRecord)
    requires
        old(sealed).wf(),
        record.wf(),
    ensures
        final(sealed).wf(),
        final(sealed)@ == entered(old(sealed)@, representation_pairs(*record)),
{
    let ghost before = sealed@;
    let ghost pairs = representation_pairs(*record);
    let mut i: usize = 0;
    proof {
        record.representations.lemma_keys();
        assert(pairs.take(0) =~= Seq::empty());
    }
    while i < record.representations.len()
        invariant
            record.wf(),
            record.representations.keys() == in_order::<StorageId>(
                record.representations@.dom(),
            ),
            pairs == representation_pairs(*record),
            sealed.wf(),
            i <= record.representations.keys().len(),
            sealed@ == entered(before, pairs.take(i as int)),
        decreases record.representations.keys().len() - i,
    {
        proof {
            assert(pairs.take(i + 1).drop_last() =~= pairs.take(i as int));
            assert(pairs.take(i + 1).last() == pairs[i as int]);
        }
        sealed.insert(*record.representations.key(i), *record.representations.value(i));
        i = i + 1;
    }
    proof {
        assert(pairs.take(i as int) =~= pairs);
    }
}

/// Enters what one record's manifest maps.
fn enter_mappings(sealed: &mut SortedMap<StorageId, BaoRoot>, record: &ManifestRecord)
    requires
        old(sealed).wf(),
    ensures
        final(sealed).wf(),
        final(sealed)@ == entered(old(sealed)@, mapped_pairs(*record)),
{
    let ghost before = sealed@;
    let ghost pairs = mapped_pairs(*record);
    let entries = &record.manifest.entries;
    let children = &record.manifest.children;
    let mut i: usize = 0;
    proof {
        assert(pairs.take(0) =~= Seq::empty());
    }
    while i < entries.len()
        invariant
            pairs == mapped_pairs(*record),
            entries@ == record.manifest.entries@,
            sealed.wf(),
            i <= entries@.len(),
            sealed@ == entered(before, pairs.take(i as int)),
        decreases entries@.len() - i,
    {
        proof {
            assert(pairs.take(i + 1).drop_last() =~= pairs.take(i as int));
            assert(pairs.take(i + 1).last() == pairs[i as int]);
        }
        sealed.insert(entries[i].storage_id, entries[i].transport);
        i = i + 1;
    }
    let mut j: usize = 0;
    while j < children.len()
        invariant
            pairs == mapped_pairs(*record),
            entries@ == record.manifest.entries@,
            children@ == record.manifest.children@,
            sealed.wf(),
            j <= children@.len(),
            sealed@ == entered(before, pairs.take(entries@.len() + j)),
        decreases children@.len() - j,
    {
        proof {
            let n = entries@.len() + j;
            assert(pairs.take(n + 1).drop_last() =~= pairs.take(n));
            assert(pairs.take(n + 1).last() == pairs[n]);
        }
        sealed.insert(children[j].storage, children[j].transport);
        j = j + 1;
    }
    proof {
        assert(pairs.take(entries@.len() + j) =~= pairs);
    }
}

impl VaultSource {
    pub closed spec fn wf(&self) -> bool {
        self.roots.wf() && self.bodies.wf() && self.sealed.wf()
    }

    /// Derives what is served from the recorded state. Only recorded state
    /// is served, and a root manifest without a representation is not.
    pub fn from_state(state: &RuntimeState) -> (r: Self)
        requires
            state.inv(),
        ensures
            r.wf(),
            serves_roots(state@, r@.roots),
            serves_bodies(state@, r@.bodies),
            r@.sealed == served_addresses(state@),
    {
        let ghost v = state@;
        let snapshots = state.recorded_snapshots();
        let mut roots: SortedMap<SnapshotId, (ContentId, BaoRoot)> = SortedMap::new();
        let mut bodies: SortedMap<SnapshotId, Vec<u8>> = SortedMap::new();
        let mut sealed: SortedMap<StorageId, BaoRoot> = SortedMap::new();
        let ghost none = Map::<StorageId, BaoRoot>::empty();
        let mut i: usize = 0;
        proof {
            assert(snapshots@.take(0) =~= Seq::empty());
            assert(bodies@.map_values(|body: Vec<u8>| body@) =~= Map::empty());
        }
        while i < snapshots.len()
            invariant
                state.inv(),
                v == state@,
                i <= snapshots@.len(),
                roots.wf(),
                bodies.wf(),
                sealed.wf(),
                none == Map::<StorageId, BaoRoot>::empty(),
                roots_among(v, snapshots@.take(i as int), roots@),
                bodies_among(
                    v,
                    snapshots@.take(i as int),
                    bodies@.map_values(|body: Vec<u8>| body@),
                ),
                sealed@ == entered(none, root_pairs(v, snapshots@.take(i as int))),
            decreases snapshots@.len() - i,
        {
            let snapshot: SnapshotId = snapshots[i];
            let ghost earlier = snapshots@.take(i as int);
            let ghost some = snapshots@.take(i + 1);
            proof {
                assert(some.drop_last() =~= earlier);
                assert(some.last() == snapshot);
                assert forall|s: SnapshotId|
                    some.contains(s) <==> earlier.contains(s) || s == snapshot by {
                    if earlier.contains(s) {
                        let j = earlier.index_of(s);
                        assert(some[j] == s);
                    }
                    if some.contains(s) && s != snapshot {
                        let j = some.index_of(s);
                        assert(earlier[j] == s);
                    }
                    assert(some[i as int] == snapshot);
                }
            }
            if let Some(record) = state.root_manifest_record(&snapshot) {
                if !record.representations.is_empty() {
                    proof {
                        lemma_entered_more(
                            none,
                            root_pairs(v, earlier),
                            representation_pairs(*record),
                        );
                    }
                    roots.insert(snapshot, (record.manifest_id, record.transport));
                    enter_representations(&mut sealed, record);
                }
            }
            if let Some(body) = state.snapshot_body(&snapshot) {
                let ghost held = bodies@;
                let encoded = vstd::slice::slice_to_vec(body.encoded.as_slice());
                bodies.insert(snapshot, encoded);
                proof {
                    assert(bodies@.map_values(|body: Vec<u8>| body@) =~= held.map_values(
                        |body: Vec<u8>| body@,
                    ).insert(snapshot, encoded@));
                }
            }
            i = i + 1;
        }
        proof {
            assert(snapshots@.take(i as int) =~= snapshots@);
        }
        let records = state.manifest_records();
        let ghost all = records_in_order(v.manifests);
        let ghost first = root_pairs(v, snapshots@);
        let mut j: usize = 0;
        proof {
            assert(all.take(0) =~= Seq::empty());
            assert(first + record_pairs(all.take(0)) =~= first);
        }
        while j < records.len()
            invariant
                all == records_in_order(v.manifests),
                records@.len() == all.len(),
                forall|k: int| 0 <= k < records@.len() ==> *(#[trigger] records@[k]) == all[k],
                j <= records@.len(),
                sealed.wf(),
                sealed@ == entered(none, first + record_pairs(all.take(j as int))),
            decreases records@.len() - j,
        {
            let record: &ManifestRecord = records[j];
            proof {
                let upto = record_pairs(all.take(j as int));
                assert(all.take(j + 1).drop_last() =~= all.take(j as int));
                assert(all.take(j + 1).last() == *record);
                lemma_entered_more(none, first + upto, mapped_pairs(*record));
                assert(first + upto + mapped_pairs(*record) =~= first + record_pairs(
                    all.take(j + 1),
                ));
            }
            enter_mappings(&mut sealed, record);
            j = j + 1;
        }
        proof {
            assert(all.take(j as int) =~= all);
        }
        let r = VaultSource { roots, bodies, sealed };
        proof {
            assert forall|s: SnapshotId|
                served_root(v, s) is Some || v.bodies.contains_key(s) implies snapshots@.contains(
                s,
            ) by {
                assert(v.recorded().contains(s));
            }
            assert(serves_roots(v, r@.roots));
            assert(serves_bodies(v, r@.bodies));
        }
        r
    }

    /// Serves a snapshot's root manifest. `transport_root` gives the root
    /// that bytes hash to.
    pub fn fetch_root_manifest<
        V: FnOnce(&BaoRoot) -> Result<Option<Vec<u8>>, String>,
        T: Fn(&Vec<u8>) -> BaoRoot,
    >(&self, snapshot: &SnapshotId, max: usize, vault: V, transport_root: &T) -> (r: Result<
        Option<SealedManifest>,
        BulkError,
    >)
        requires
            self.wf(),
            self@.roots.contains_key(*snapshot) ==> readable(
                self@.roots[*snapshot].1,
                vault,
                *transport_root,
            ),
        ensures
            r matches Ok(Some(manifest)) ==> call_ensures(
                *transport_root,
                (&manifest.sealed,),
                self@.roots[*snapshot].1,
            ),
            if self@.roots.contains_key(*snapshot) {
                let (content_id, transport) = self@.roots[*snapshot];
                exists|read: Result<Option<Vec<u8>>, BulkError>|
                    #[trigger] reads(transport, max, vault, *transport_root, read) && r
                        == match read {
                        Err(error) => Err::<Option<SealedManifest>, BulkError>(error),
                        Ok(None) => Ok(None),
                        Ok(Some(sealed)) => Ok(Some(SealedManifest { content_id, sealed })),
                    }
            } else {
                r == Ok::<Option<SealedManifest>, BulkError>(None)
            },
    {
        let (content_id, transport) = match self.roots.get(snapshot) {
            Some(root) => *root,
            None => return Ok(None),
        };
        match read_verified(&transport, max, vault, transport_root) {
            Err(error) => Err(error),
            Ok(None) => Ok(None),
            Ok(Some(sealed)) => Ok(Some(SealedManifest { content_id, sealed })),
        }
    }

    /// Serves a snapshot body.
    pub fn fetch_snapshot(&self, snapshot: &SnapshotId, max: usize) -> (r: Result<
        Option<Vec<u8>>,
        BulkError,
    >)
        requires
            self.wf(),
        ensures
            if !self@.bodies.contains_key(*snapshot) {
                r == Ok::<Option<Vec<u8>>, BulkError>(None)
            } else if self@.bodies[*snapshot].len() > max {
                r == Err::<Option<Vec<u8>>, BulkError>(
                    BulkError::Oversize { bytes: self@.bodies[*snapshot].len() as usize, max },
                )
            } else {
                r matches Ok(Some(body)) && body@ == self@.bodies[*snapshot]
            },
    {
        match self.bodies.get(snapshot) {
            None => Ok(None),
            Some(body) => if body.len() > max {
                Err(BulkError::Oversize { bytes: body.len(), max })
            } else {
                Ok(Some(vstd::slice::slice_to_vec(body.as_slice())))
            },
        }
    }

    /// Serves a sealed representation.
    pub fn fetch_sealed<
        V: FnOnce(&BaoRoot) -> Result<Option<Vec<u8>>, String>,
        T: Fn(&Vec<u8>) -> BaoRoot,
    >(&self, storage: &StorageId, max: usize, vault: V, transport_root: &T) -> (r: Result<
        Option<Vec<u8>>,
        BulkError,
    >)
        requires
            self.wf(),
            self@.sealed.contains_key(*storage) ==> readable(
                self@.sealed[*storage],
                vault,
                *transport_root,
            ),
        ensures
            r matches Ok(Some(bytes)) ==> call_ensures(
                *transport_root,
                (&bytes,),
                self@.sealed[*storage],
            ),
            if self@.sealed.contains_key(*storage) {
                reads(self@.sealed[*storage], max, vault, *transport_root, r)
            } else {
                r == Ok::<Option<Vec<u8>>, BulkError>(None)
            },
    {
        match self.sealed.get(storage) {
            None => Ok(None),
            Some(transport) => self.fetch_transport(transport, max, vault, transport_root),
        }
    }

    /// Serves whatever the vault holds under a transport root: exactly the
    /// bytes that hash to the root, or nothing.
    pub fn fetch_transport<
        V: FnOnce(&BaoRoot) -> Result<Option<Vec<u8>>, String>,
        T: Fn(&Vec<u8>) -> BaoRoot,
    >(&self, root: &BaoRoot, max: usize, vault: V, transport_root: &T) -> (r: Result<
        Option<Vec<u8>>,
        BulkError,
    >)
        requires
            readable(*root, vault, *transport_root),
        ensures
            r matches Ok(Some(bytes)) ==> call_ensures(*transport_root, (&bytes,), *root),
            reads(*root, max, vault, *transport_root, r),
    {
        read_verified(root, max, vault, transport_root)
    }
}

/// Whether some pairs address a storage id.
pub open spec fn addresses(pairs: Seq<(StorageId, BaoRoot)>, storage: StorageId) -> bool {
    exists|i: int| 0 <= i < pairs.len() && (#[trigger] pairs[i]).0 == storage
}

/// Whatever is entered comes from one of the pairs.
pub proof fn lemma_entered(
    map: Map<StorageId, BaoRoot>,
    pairs: Seq<(StorageId, BaoRoot)>,
    storage: StorageId,
)
    ensures
        entered(map, pairs).contains_key(storage) <==> map.contains_key(storage) || addresses(
            pairs,
            storage,
        ),
        entered(map, pairs).contains_key(storage) && !map.contains_key(storage) ==> exists|i: int|
            0 <= i < pairs.len() && #[trigger] pairs[i] == (storage, entered(map, pairs)[storage]),
    decreases pairs.len(),
{
    if pairs.len() > 0 {
        let rest = pairs.drop_last();
        lemma_entered(map, rest, storage);
        if addresses(rest, storage) {
            let i = choose|i: int| 0 <= i < rest.len() && (#[trigger] rest[i]).0 == storage;
            assert(pairs[i].0 == storage);
        }
        if addresses(pairs, storage) && pairs.last().0 != storage {
            let i = choose|i: int| 0 <= i < pairs.len() && (#[trigger] pairs[i]).0 == storage;
            assert(rest[i].0 == storage);
        }
        if entered(map, pairs).contains_key(storage) && !map.contains_key(storage) {
            if pairs.last().0 == storage {
                assert(pairs[pairs.len() - 1] == (storage, entered(map, pairs)[storage]));
            } else {
                let i = choose|i: int|
                    0 <= i < rest.len() && #[trigger] rest[i] == (
                        storage,
                        entered(map, rest)[storage],
                    );
                assert(pairs[i] == rest[i]);
            }
        }
        assert(pairs[pairs.len() - 1] == pairs.last());
    }
}

proof fn lemma_record_pairs(records: Seq<ManifestRecord>, n: int, storage: StorageId)
    requires
        0 <= n < records.len(),
        addresses(mapped_pairs(records[n]), storage),
    ensures
        addresses(record_pairs(records), storage),
    decreases records.len(),
{
    let earlier = record_pairs(records.drop_last());
    let last = mapped_pairs(records.last());
    if n == records.len() - 1 {
        let i = choose|i: int| 0 <= i < last.len() && (#[trigger] last[i]).0 == storage;
        assert(record_pairs(records)[earlier.len() + i].0 == storage);
    } else {
        lemma_record_pairs(records.drop_last(), n, storage);
        let i = choose|i: int| 0 <= i < earlier.len() && (#[trigger] earlier[i]).0 == storage;
        assert(record_pairs(records)[i].0 == storage);
    }
}

/// Whatever a recorded manifest maps, entry or child, is served by its
/// storage address.
pub proof fn law_every_mapping_is_served(v: RuntimeView, manifest: ContentId, i: int)
    requires
        v.consistent(),
        v.manifests.contains_key(manifest),
        0 <= i < mapped_pairs(v.manifests[manifest]).len(),
    ensures
        served_addresses(v).contains_key(mapped_pairs(v.manifests[manifest])[i].0),
{
    let records = records_in_order(v.manifests);
    v.lemma_records();
    let n = choose|n: int|
        0 <= n < records.len() && #[trigger] records[n] == v.manifests[manifest];
    let storage = mapped_pairs(records[n])[i].0;
    let first = root_pairs(v, in_order::<SnapshotId>(v.recorded()));
    assert(addresses(mapped_pairs(records[n]), storage));
    lemma_record_pairs(records, n, storage);
    let second = record_pairs(records);
    let k = choose|k: int| 0 <= k < second.len() && (#[trigger] second[k]).0 == storage;
    assert((first + second)[first.len() + k].0 == storage);
    lemma_entered(Map::empty(), first + second, storage);
}

/// A snapshot that nothing is recorded for serves neither a root manifest
/// nor a body.
pub proof fn law_only_recorded_state_is_served(
    v: RuntimeView,
    source: SourceView,
    snapshot: SnapshotId,
)
    requires
        serves_roots(v, source.roots),
        serves_bodies(v, source.bodies),
        !v.recorded().contains(snapshot),
    ensures
        !source.roots.contains_key(snapshot),
        !source.bodies.contains_key(snapshot),
{
}

} // verus!
