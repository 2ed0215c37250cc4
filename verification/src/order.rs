//! The total orders that the durable collections are kept in.
//!
//! Every collection of the runtime state is walked in key order, so that
//! two devices that replay the same facts see the same sequence. This
//! module says what that order is: bytes compare lexicographically,
//! integers by value, pairs by their first component and then by their
//! second.

use vstd::prelude::*;
use vstd::utf8::encode_utf8;

verus! {

/// A key with a strict total order over its mathematical value.
///
/// `model` is the value that contracts speak of; two keys with the same
/// model are the same key.
pub trait Key: Sized {
    type Model;

    spec fn model(&self) -> Self::Model;

    /// Whether `a` comes strictly before `b`.
    spec fn before(a: Self::Model, b: Self::Model) -> bool;

    proof fn irreflexive(a: Self::Model)
        ensures
            !Self::before(a, a),
    ;

    proof fn transitive(a: Self::Model, b: Self::Model, c: Self::Model)
        requires
            Self::before(a, b),
            Self::before(b, c),
        ensures
            Self::before(a, c),
    ;

    proof fn connected(a: Self::Model, b: Self::Model)
        ensures
            a == b || Self::before(a, b) || Self::before(b, a),
    ;

    fn precedes(&self, other: &Self) -> (b: bool)
        ensures
            b == Self::before(self.model(), other.model()),
    ;

    fn same(&self, other: &Self) -> (b: bool)
        ensures
            b == (self.model() == other.model()),
    ;
}

/// A sequence of keys in strictly ascending order.
pub open spec fn ascending<K: Key>(s: Seq<K::Model>) -> bool {
    forall|i: int, j: int| 0 <= i < j < s.len() ==> K::before(#[trigger] s[i], #[trigger] s[j])
}

/// A sequence that names the members of a set and nothing else.
pub open spec fn lists<T>(s: Seq<T>, members: Set<T>) -> bool {
    forall|x: T| #![trigger s.contains(x)] #![trigger members.contains(x)] s.contains(x) <==> members.contains(x)
}

/// The members of a set, each once, in ascending order.
pub open spec fn in_order<K: Key>(members: Set<K::Model>) -> Seq<K::Model> {
    choose|s: Seq<K::Model>| #[trigger] ascending::<K>(s) && lists(s, members)
}

/// Two ascending sequences with the same members are the same sequence.
pub proof fn lemma_ascending_unique<K: Key>(
    a: Seq<K::Model>,
    b: Seq<K::Model>,
    members: Set<K::Model>,
)
    requires
        ascending::<K>(a),
        ascending::<K>(b),
        lists(a, members),
        lists(b, members),
    ensures
        a == b,
    decreases a.len(),
{
    if a.len() == 0 {
        if b.len() > 0 {
            assert(b.contains(b[0]));
            assert(a.contains(b[0]));
        }
        assert(a =~= b);
    } else {
        assert(a.contains(a[0]));
        assert(b.contains(a[0]));
        let j = choose|j: int| 0 <= j < b.len() && b[j] == a[0];
        assert(b.contains(b[0]));
        assert(a.contains(b[0]));
        let i = choose|i: int| 0 <= i < a.len() && a[i] == b[0];
        if j > 0 {
            assert(K::before(b[0], b[j]));
            if i > 0 {
                assert(K::before(a[0], a[i]));
                K::transitive(a[0], b[0], a[0]);
            }
            K::irreflexive(a[0]);
        }
        assert(a[0] == b[0]);
        let ta = a.skip(1);
        let tb = b.skip(1);
        let rest = members.remove(a[0]);
        lemma_lists_skip::<K>(a, members);
        lemma_lists_skip::<K>(b, members);
        lemma_ascending_unique::<K>(ta, tb, rest);
        assert(a =~= seq![a[0]] + ta);
        assert(b =~= seq![b[0]] + tb);
    }
}

/// The tail of an ascending listing lists the set without its first member.
proof fn lemma_lists_skip<K: Key>(s: Seq<K::Model>, members: Set<K::Model>)
    requires
        s.len() > 0,
        ascending::<K>(s),
        lists(s, members),
    ensures
        ascending::<K>(s.skip(1)),
        lists(s.skip(1), members.remove(s[0])),
{
    let t = s.skip(1);
    assert forall|i: int, j: int| 0 <= i < j < t.len() implies K::before(
        #[trigger] t[i],
        #[trigger] t[j],
    ) by {
        assert(K::before(s[i + 1], s[j + 1]));
    }
    assert forall|x: K::Model| t.contains(x) <==> members.remove(s[0]).contains(x) by {
        if t.contains(x) {
            let p = choose|p: int| 0 <= p < t.len() && t[p] == x;
            assert(s[p + 1] == x);
            assert(K::before(s[0], s[p + 1]));
            K::irreflexive(x);
            assert(s.contains(x));
        }
        if members.remove(s[0]).contains(x) {
            assert(members.contains(x));
            assert(s.contains(x));
            let q = choose|q: int| 0 <= q < s.len() && s[q] == x;
            assert(q != 0);
            assert(t[q - 1] == x);
        }
    }
}

/// An ascending listing of a set is the ordering of that set.
pub proof fn lemma_in_order<K: Key>(s: Seq<K::Model>, members: Set<K::Model>)
    requires
        ascending::<K>(s),
        lists(s, members),
    ensures
        in_order::<K>(members) == s,
{
    lemma_ascending_unique::<K>(in_order::<K>(members), s, members);
}

/// A member can be put into its place in an ascending listing.
proof fn lemma_place<K: Key>(s: Seq<K::Model>, members: Set<K::Model>, x: K::Model) -> (t: Seq<
    K::Model,
>)
    requires
        ascending::<K>(s),
        lists(s, members),
        !members.contains(x),
    ensures
        ascending::<K>(t),
        lists(t, members.insert(x)),
    decreases s.len(),
{
    if s.len() > 0 && K::before(x, s.last()) {
        let init = s.drop_last();
        let last = s.last();
        let rest = members.remove(last);
        assert(s[s.len() - 1] == last);
        assert(s.contains(last));
        assert forall|y: K::Model| init.contains(y) <==> rest.contains(y) by {
            if init.contains(y) {
                let i = init.index_of(y);
                assert(s[i] == y);
                assert(s.contains(y));
                assert(K::before(s[i], s[s.len() - 1]));
                K::irreflexive(y);
            }
            if rest.contains(y) {
                assert(s.contains(y));
                let i = s.index_of(y);
                assert(i < init.len());
                assert(init[i] == y);
            }
        }
        assert(ascending::<K>(init)) by {
            assert forall|i: int, j: int| 0 <= i < j < init.len() implies K::before(
                #[trigger] init[i],
                #[trigger] init[j],
            ) by {
                assert(K::before(s[i], s[j]));
            }
        }
        let t = lemma_place::<K>(init, rest, x);
        let all = t.push(last);
        assert forall|i: int, j: int| 0 <= i < j < all.len() implies K::before(
            #[trigger] all[i],
            #[trigger] all[j],
        ) by {
            if j == t.len() {
                let y = t[i];
                assert(t.contains(y));
                if y != x {
                    assert(rest.contains(y));
                    assert(s.contains(y));
                    let k = s.index_of(y);
                    assert(k < s.len() - 1);
                    assert(K::before(s[k], s[s.len() - 1]));
                }
            } else {
                assert(K::before(t[i], t[j]));
            }
        }
        assert forall|y: K::Model| all.contains(y) <==> members.insert(x).contains(y) by {
            if all.contains(y) {
                let i = all.index_of(y);
                if i < t.len() {
                    assert(t[i] == y);
                    assert(t.contains(y));
                }
            }
            if members.insert(x).contains(y) {
                if y == last {
                    assert(all[t.len() as int] == y);
                } else {
                    assert(t.contains(y));
                    assert(all[t.index_of(y)] == y);
                }
            }
        }
        all
    } else {
        let all = s.push(x);
        assert forall|i: int, j: int| 0 <= i < j < all.len() implies K::before(
            #[trigger] all[i],
            #[trigger] all[j],
        ) by {
            if j == s.len() {
                let last = s.last();
                assert(s[s.len() - 1] == last);
                assert(s.contains(last));
                K::connected(x, last);
                if i < s.len() - 1 {
                    assert(K::before(s[i], s[s.len() - 1]));
                    K::transitive(s[i], last, x);
                }
            } else {
                assert(K::before(s[i], s[j]));
            }
        }
        assert forall|y: K::Model| all.contains(y) <==> members.insert(x).contains(y) by {
            if all.contains(y) {
                let i = all.index_of(y);
                if i < s.len() {
                    assert(s[i] == y);
                    assert(s.contains(y));
                }
            }
            if members.insert(x).contains(y) {
                if y == x {
                    assert(all[s.len() as int] == y);
                } else {
                    assert(s.contains(y));
                    assert(all[s.index_of(y)] == y);
                }
            }
        }
        all
    }
}

proof fn lemma_listing<K: Key>(members: Set<K::Model>) -> (s: Seq<K::Model>)
    requires
        members.finite(),
    ensures
        ascending::<K>(s),
        lists(s, members),
    decreases members.len(),
{
    if members.len() == 0 {
        let s = Seq::<K::Model>::empty();
        assert forall|x: K::Model| s.contains(x) <==> members.contains(x) by {
            if members.contains(x) {
                assert(members.remove(x).len() + 1 == members.len());
            }
        }
        s
    } else {
        let x = members.choose();
        let s = lemma_listing::<K>(members.remove(x));
        let t = lemma_place::<K>(s, members.remove(x), x);
        assert(members.remove(x).insert(x) =~= members);
        t
    }
}

/// The ordering of a finite set names its members and nothing else, each
/// once and in ascending order.
pub proof fn lemma_ordered<K: Key>(members: Set<K::Model>)
    requires
        members.finite(),
    ensures
        ascending::<K>(in_order::<K>(members)),
        lists(in_order::<K>(members), members),
        in_order::<K>(members).no_duplicates(),
{
    let s = lemma_listing::<K>(members);
    lemma_in_order::<K>(s, members);
    lemma_ascending_distinct::<K>(s);
}

/// An ascending sequence names each of its members once.
pub proof fn lemma_ascending_distinct<K: Key>(s: Seq<K::Model>)
    requires
        ascending::<K>(s),
    ensures
        s.no_duplicates(),
{
    assert forall|i: int, j: int| 0 <= i < s.len() && 0 <= j < s.len() && i != j implies s[i]
        != s[j] by {
        K::irreflexive(s[i]);
        if i < j {
            assert(K::before(s[i], s[j]));
        } else {
            assert(K::before(s[j], s[i]));
        }
    }
}

/// Lexicographic order of byte strings: at the first difference the
/// smaller byte decides, and a proper prefix comes first.
pub open spec fn lex_before(a: Seq<u8>, b: Seq<u8>) -> bool
    decreases a.len(),
{
    if b.len() == 0 {
        false
    } else if a.len() == 0 {
        true
    } else if a[0] != b[0] {
        a[0] < b[0]
    } else {
        lex_before(a.skip(1), b.skip(1))
    }
}

pub proof fn lemma_lex_irreflexive(a: Seq<u8>)
    ensures
        !lex_before(a, a),
    decreases a.len(),
{
    if a.len() > 0 {
        lemma_lex_irreflexive(a.skip(1));
    }
}

pub proof fn lemma_lex_transitive(a: Seq<u8>, b: Seq<u8>, c: Seq<u8>)
    requires
        lex_before(a, b),
        lex_before(b, c),
    ensures
        lex_before(a, c),
    decreases a.len(),
{
    if a.len() > 0 && a[0] == b[0] && b[0] == c[0] {
        lemma_lex_transitive(a.skip(1), b.skip(1), c.skip(1));
    }
}

pub proof fn lemma_lex_connected(a: Seq<u8>, b: Seq<u8>)
    ensures
        a == b || lex_before(a, b) || lex_before(b, a),
    decreases a.len(),
{
    if a.len() > 0 && b.len() > 0 {
        if a[0] == b[0] {
            lemma_lex_connected(a.skip(1), b.skip(1));
            if a.skip(1) == b.skip(1) {
                assert(a =~= seq![a[0]] + a.skip(1));
                assert(b =~= seq![b[0]] + b.skip(1));
            }
        }
    } else {
        if a.len() == 0 && b.len() == 0 {
            assert(a =~= b);
        }
    }
}

/// A common prefix does not take part in the comparison.
proof fn lemma_lex_skip(a: Seq<u8>, b: Seq<u8>, n: int)
    requires
        0 <= n <= a.len(),
        n <= b.len(),
        a.take(n) == b.take(n),
    ensures
        lex_before(a, b) == lex_before(a.skip(n), b.skip(n)),
    decreases n,
{
    if n == 0 {
        assert(a.skip(0) =~= a);
        assert(b.skip(0) =~= b);
    } else {
        assert(a.take(n)[0] == b.take(n)[0]);
        assert(a.skip(1).take(n - 1) =~= a.take(n).skip(1));
        assert(b.skip(1).take(n - 1) =~= b.take(n).skip(1));
        assert(a[0] == a.take(n)[0] && b[0] == b.take(n)[0]);
        lemma_lex_skip(a.skip(1), b.skip(1), n - 1);
        assert(a.skip(1).skip(n - 1) =~= a.skip(n));
        assert(b.skip(1).skip(n - 1) =~= b.skip(n));
    }
}

/// Compares two byte strings lexicographically.
pub fn bytes_precede(a: &[u8], b: &[u8]) -> (r: bool)
    ensures
        r == lex_before(a@, b@),
{
    let mut i: usize = 0;
    while i < a.len() && i < b.len()
        invariant
            i <= a@.len(),
            i <= b@.len(),
            a@.take(i as int) == b@.take(i as int),
        decreases a@.len() - i,
    {
        if a[i] != b[i] {
            proof {
                lemma_lex_skip(a@, b@, i as int);
            }
            return a[i] < b[i];
        }
        proof {
            assert(a@.take(i + 1) =~= a@.take(i as int).push(a@[i as int]));
            assert(b@.take(i + 1) =~= b@.take(i as int).push(b@[i as int]));
        }
        i = i + 1;
    }
    proof {
        lemma_lex_skip(a@, b@, i as int);
    }
    i < b.len()
}

/// Whether two byte strings are the same.
pub fn bytes_equal(a: &[u8], b: &[u8]) -> (r: bool)
    ensures
        r == (a@ == b@),
{
    if a.len() != b.len() {
        return false;
    }
    let mut i: usize = 0;
    while i < a.len()
        invariant
            i <= a@.len(),
            a@.len() == b@.len(),
            forall|j: int| 0 <= j < i ==> a@[j] == b@[j],
        decreases a@.len() - i,
    {
        if a[i] != b[i] {
            return false;
        }
        i = i + 1;
    }
    proof {
        assert(a@ =~= b@);
    }
    true
}

impl Key for u64 {
    type Model = u64;

    open spec fn model(&self) -> u64 {
        *self
    }

    open spec fn before(a: u64, b: u64) -> bool {
        a < b
    }

    proof fn irreflexive(a: u64) {
    }

    proof fn transitive(a: u64, b: u64, c: u64) {
    }

    proof fn connected(a: u64, b: u64) {
    }

    fn precedes(&self, other: &Self) -> (b: bool) {
        *self < *other
    }

    fn same(&self, other: &Self) -> (b: bool) {
        *self == *other
    }
}

impl Key for Vec<u8> {
    type Model = Seq<u8>;

    open spec fn model(&self) -> Seq<u8> {
        self@
    }

    open spec fn before(a: Seq<u8>, b: Seq<u8>) -> bool {
        lex_before(a, b)
    }

    proof fn irreflexive(a: Seq<u8>) {
        lemma_lex_irreflexive(a);
    }

    proof fn transitive(a: Seq<u8>, b: Seq<u8>, c: Seq<u8>) {
        lemma_lex_transitive(a, b, c);
    }

    proof fn connected(a: Seq<u8>, b: Seq<u8>) {
        lemma_lex_connected(a, b);
    }

    fn precedes(&self, other: &Self) -> (b: bool) {
        bytes_precede(self.as_slice(), other.as_slice())
    }

    fn same(&self, other: &Self) -> (b: bool) {
        bytes_equal(self.as_slice(), other.as_slice())
    }
}

/// Strings compare as their bytes do.
impl Key for String {
    type Model = Seq<char>;

    open spec fn model(&self) -> Seq<char> {
        self@
    }

    open spec fn before(a: Seq<char>, b: Seq<char>) -> bool {
        lex_before(encode_utf8(a), encode_utf8(b))
    }

    proof fn irreflexive(a: Seq<char>) {
        lemma_lex_irreflexive(encode_utf8(a));
    }

    proof fn transitive(a: Seq<char>, b: Seq<char>, c: Seq<char>) {
        lemma_lex_transitive(encode_utf8(a), encode_utf8(b), encode_utf8(c));
    }

    proof fn connected(a: Seq<char>, b: Seq<char>) {
        lemma_lex_connected(encode_utf8(a), encode_utf8(b));
        vstd::utf8::encode_utf8_decode_utf8(a);
        vstd::utf8::encode_utf8_decode_utf8(b);
    }

    fn precedes(&self, other: &Self) -> (b: bool) {
        bytes_precede(self.as_str().as_bytes(), other.as_str().as_bytes())
    }

    fn same(&self, other: &Self) -> (b: bool) {
        proof {
            vstd::utf8::encode_utf8_decode_utf8(self@);
            vstd::utf8::encode_utf8_decode_utf8(other@);
        }
        bytes_equal(self.as_str().as_bytes(), other.as_str().as_bytes())
    }
}

impl<A: Key, B: Key> Key for (A, B) {
    type Model = (A::Model, B::Model);

    open spec fn model(&self) -> (A::Model, B::Model) {
        (self.0.model(), self.1.model())
    }

    open spec fn before(a: (A::Model, B::Model), b: (A::Model, B::Model)) -> bool {
        A::before(a.0, b.0) || (a.0 == b.0 && B::before(a.1, b.1))
    }

    proof fn irreflexive(a: (A::Model, B::Model)) {
        A::irreflexive(a.0);
        B::irreflexive(a.1);
    }

    proof fn transitive(
        a: (A::Model, B::Model),
        b: (A::Model, B::Model),
        c: (A::Model, B::Model),
    ) {
        if A::before(a.0, b.0) && A::before(b.0, c.0) {
            A::transitive(a.0, b.0, c.0);
        } else if a.0 == b.0 && b.0 == c.0 {
            B::transitive(a.1, b.1, c.1);
        }
    }

    proof fn connected(a: (A::Model, B::Model), b: (A::Model, B::Model)) {
        A::connected(a.0, b.0);
        B::connected(a.1, b.1);
    }

    fn precedes(&self, other: &Self) -> (b: bool) {
        if self.0.same(&other.0) {
            proof {
                A::irreflexive(self.0.model());
            }
            self.1.precedes(&other.1)
        } else {
            self.0.precedes(&other.0)
        }
    }

    fn same(&self, other: &Self) -> (b: bool) {
        self.0.same(&other.0) && self.1.same(&other.1)
    }
}

} // verus!
