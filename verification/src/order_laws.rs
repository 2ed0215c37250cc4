//! What the orders are: how bytes, identities, texts and pairs compare.

use vstd::prelude::*;
use vstd::utf8::encode_utf8;

use crate::ids::{
    BaoRoot, ContentId, ControlMessageId, DeviceId, DriveId, SealedCapabilityFactId, SnapshotId,
    StorageId, TransitionId,
};
use crate::order::{ascending, in_order, lemma_in_order, lex_before, lists, Key};

verus! {

/// Whether two byte strings first differ at a place, and the first is the
/// smaller there or ends there.
pub open spec fn smaller_at(a: Seq<u8>, b: Seq<u8>, i: int) -> bool {
    &&& 0 <= i <= a.len()
    &&& i < b.len()
    &&& forall|j: int| 0 <= j < i ==> #[trigger] a[j] == b[j]
    &&& i == a.len() || a[i] < b[i]
}

/// One byte string comes before another exactly when it is the smaller at
/// the first place where they differ, or a proper beginning of it.
pub proof fn law_the_first_difference_decides(a: Seq<u8>, b: Seq<u8>)
    ensures
        lex_before(a, b) <==> exists|i: int| smaller_at(a, b, i),
    decreases a.len(),
{
    if a.len() > 0 && b.len() > 0 {
        let x = a.skip(1);
        let y = b.skip(1);
        law_the_first_difference_decides(x, y);
        if a[0] == b[0] && lex_before(x, y) {
            let i = choose|i: int| smaller_at(x, y, i);
            assert forall|j: int| 0 <= j < i + 1 implies #[trigger] a[j] == b[j] by {
                if j > 0 {
                    assert(x[j - 1] == y[j - 1]);
                }
            }
            assert(smaller_at(a, b, i + 1));
        }
        if a[0] < b[0] {
            assert(smaller_at(a, b, 0));
        }
        if exists|i: int| smaller_at(a, b, i) {
            let i = choose|i: int| smaller_at(a, b, i);
            if i > 0 {
                assert(a[0] == b[0]);
                assert forall|j: int| 0 <= j < i - 1 implies #[trigger] x[j] == y[j] by {
                    assert(a[j + 1] == b[j + 1]);
                }
                assert(smaller_at(x, y, i - 1));
            }
        }
    } else if b.len() > 0 {
        assert(smaller_at(a, b, 0));
    }
}

/// Identities compare as their bytes do.
pub proof fn law_identities_compare_as_their_bytes(
    drives: (DriveId, DriveId),
    devices: (DeviceId, DeviceId),
    snapshots: (SnapshotId, SnapshotId),
    contents: (ContentId, ContentId),
    storages: (StorageId, StorageId),
    roots: (BaoRoot, BaoRoot),
)
    ensures
        DriveId::before(drives.0, drives.1) <==> exists|i: int|
            smaller_at(drives.0@, drives.1@, i),
        DeviceId::before(devices.0, devices.1) <==> exists|i: int|
            smaller_at(devices.0@, devices.1@, i),
        SnapshotId::before(snapshots.0, snapshots.1) <==> exists|i: int|
            smaller_at(snapshots.0@, snapshots.1@, i),
        ContentId::before(contents.0, contents.1) <==> exists|i: int|
            smaller_at(contents.0@, contents.1@, i),
        StorageId::before(storages.0, storages.1) <==> exists|i: int|
            smaller_at(storages.0@, storages.1@, i),
        BaoRoot::before(roots.0, roots.1) <==> exists|i: int| smaller_at(roots.0@, roots.1@, i),
{
    law_the_first_difference_decides(drives.0@, drives.1@);
    law_the_first_difference_decides(devices.0@, devices.1@);
    law_the_first_difference_decides(snapshots.0@, snapshots.1@);
    law_the_first_difference_decides(contents.0@, contents.1@);
    law_the_first_difference_decides(storages.0@, storages.1@);
    law_the_first_difference_decides(roots.0@, roots.1@);
}

/// The identities of control facts compare as their bytes do.
pub proof fn law_fact_identities_compare_as_their_bytes(
    transitions: (TransitionId, TransitionId),
    messages: (ControlMessageId, ControlMessageId),
    capabilities: (SealedCapabilityFactId, SealedCapabilityFactId),
)
    ensures
        TransitionId::before(transitions.0, transitions.1) <==> exists|i: int|
            smaller_at(transitions.0@, transitions.1@, i),
        ControlMessageId::before(messages.0, messages.1) <==> exists|i: int|
            smaller_at(messages.0@, messages.1@, i),
        SealedCapabilityFactId::before(capabilities.0, capabilities.1) <==> exists|i: int|
            smaller_at(capabilities.0@, capabilities.1@, i),
{
    law_the_first_difference_decides(transitions.0@, transitions.1@);
    law_the_first_difference_decides(messages.0@, messages.1@);
    law_the_first_difference_decides(capabilities.0@, capabilities.1@);
}

/// Numbers compare by value, byte strings and texts by their bytes, and
/// pairs by their first parts, then by their second.
pub proof fn law_plain_keys_compare_naturally<A: Key, B: Key>(
    numbers: (u64, u64),
    bytes: (Seq<u8>, Seq<u8>),
    texts: (Seq<char>, Seq<char>),
    first: (A::Model, B::Model),
    second: (A::Model, B::Model),
)
    ensures
        u64::before(numbers.0, numbers.1) <==> numbers.0 < numbers.1,
        Vec::<u8>::before(bytes.0, bytes.1) <==> exists|i: int| smaller_at(bytes.0, bytes.1, i),
        String::before(texts.0, texts.1) <==> exists|i: int|
            smaller_at(encode_utf8(texts.0), encode_utf8(texts.1), i),
        A::before(first.0, second.0) ==> <(A, B)>::before(first, second),
        first.0 == second.0 ==> (<(A, B)>::before(first, second) <==> B::before(
            first.1,
            second.1,
        )),
        A::before(second.0, first.0) ==> !<(A, B)>::before(first, second),
{
    law_the_first_difference_decides(bytes.0, bytes.1);
    law_the_first_difference_decides(encode_utf8(texts.0), encode_utf8(texts.1));
    A::irreflexive(first.0);
    if A::before(second.0, first.0) && A::before(first.0, second.0) {
        A::transitive(first.0, second.0, first.0);
    }
}

/// The ordering of a set is the one ascending sequence that names its
/// members and nothing else.
pub proof fn law_orderings_are_ascending_listings<K: Key>(
    members: Set<K::Model>,
    listing: Seq<K::Model>,
)
    requires
        members.finite(),
    ensures
        listing == in_order::<K>(members) <==> ascending::<K>(listing) && lists(listing, members),
{
    crate::order::lemma_ordered::<K>(members);
    if ascending::<K>(listing) && lists(listing, members) {
        lemma_in_order::<K>(listing, members);
    }
}

/// The ordering of a set names each member once and nothing else, and
/// whatever stands earlier in it comes before what stands later.
pub proof fn law_orderings_name_each_member_once<K: Key>(
    members: Set<K::Model>,
    x: K::Model,
    i: int,
    j: int,
)
    requires
        members.finite(),
    ensures
        (exists|k: int| 0 <= k < in_order::<K>(members).len() && #[trigger] in_order::<K>(
            members,
        )[k] == x) <==> members.contains(x),
        0 <= i < j < in_order::<K>(members).len() ==> K::before(
            in_order::<K>(members)[i],
            in_order::<K>(members)[j],
        ) && in_order::<K>(members)[i] != in_order::<K>(members)[j],
{
    let s = in_order::<K>(members);
    crate::order::lemma_ordered::<K>(members);
    assert(s.contains(x) <==> members.contains(x));
    if s.contains(x) {
        assert(s[s.index_of(x)] == x);
    }
    if 0 <= i < j < s.len() {
        assert(K::before(s[i], s[j]));
        K::irreflexive(s[i]);
    }
}

} // verus!
