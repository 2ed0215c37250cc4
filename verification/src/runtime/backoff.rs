//! Backoff: what keeps failing is left alone for a while.
//!
//! Every key that was struck in a run collects one strike for that run,
//! however often it was tried. Enough strikes in a row put it into a
//! cooldown, in which it is not attempted. After the cooldown it starts
//! over, and valid bytes clear its record at any time.

use vstd::prelude::*;

use crate::ids::{SnapshotId, StorageId};
use crate::order::Key;
use crate::runtime::plan::{FetchKey, Note};
use crate::sorted::SortedMap;

verus! {

impl FetchKey {
    /// Where the keys of each sort come in the order.
    pub open spec fn sort(self) -> int {
        match self {
            FetchKey::Body(_) => 0,
            FetchKey::Root(_) => 1,
            FetchKey::Storage(_) => 2,
        }
    }

    fn sort_of(&self) -> (r: u8)
        ensures
            r == self.sort(),
    {
        match self {
            FetchKey::Body(_) => 0,
            FetchKey::Root(_) => 1,
            FetchKey::Storage(_) => 2,
        }
    }
}

impl Key for FetchKey {
    type Model = FetchKey;

    open spec fn model(&self) -> FetchKey {
        *self
    }

    open spec fn before(a: FetchKey, b: FetchKey) -> bool {
        match (a, b) {
            (FetchKey::Body(x), FetchKey::Body(y)) => SnapshotId::before(x, y),
            (FetchKey::Root(x), FetchKey::Root(y)) => SnapshotId::before(x, y),
            (FetchKey::Storage(x), FetchKey::Storage(y)) => StorageId::before(x, y),
            _ => a.sort() < b.sort(),
        }
    }

    proof fn irreflexive(a: FetchKey) {
        match a {
            FetchKey::Body(x) => SnapshotId::irreflexive(x),
            FetchKey::Root(x) => SnapshotId::irreflexive(x),
            FetchKey::Storage(x) => StorageId::irreflexive(x),
        }
    }

    proof fn transitive(a: FetchKey, b: FetchKey, c: FetchKey) {
        match (a, b, c) {
            (FetchKey::Body(x), FetchKey::Body(y), FetchKey::Body(z)) => SnapshotId::transitive(x, y, z),
            (FetchKey::Root(x), FetchKey::Root(y), FetchKey::Root(z)) => SnapshotId::transitive(x, y, z),
            (FetchKey::Storage(x), FetchKey::Storage(y), FetchKey::Storage(z)) => StorageId::transitive(
                x,
                y,
                z,
            ),
            _ => {},
        }
    }

    proof fn connected(a: FetchKey, b: FetchKey) {
        match (a, b) {
            (FetchKey::Body(x), FetchKey::Body(y)) => SnapshotId::connected(x, y),
            (FetchKey::Root(x), FetchKey::Root(y)) => SnapshotId::connected(x, y),
            (FetchKey::Storage(x), FetchKey::Storage(y)) => StorageId::connected(x, y),
            _ => {},
        }
    }

    fn precedes(&self, other: &Self) -> (b: bool) {
        match (self, other) {
            (FetchKey::Body(x), FetchKey::Body(y)) => x.precedes(y),
            (FetchKey::Root(x), FetchKey::Root(y)) => x.precedes(y),
            (FetchKey::Storage(x), FetchKey::Storage(y)) => x.precedes(y),
            _ => self.sort_of() < other.sort_of(),
        }
    }

    fn same(&self, other: &Self) -> (b: bool) {
        match (self, other) {
            (FetchKey::Body(x), FetchKey::Body(y)) => x.same(y),
            (FetchKey::Root(x), FetchKey::Root(y)) => x.same(y),
            (FetchKey::Storage(x), FetchKey::Storage(y)) => x.same(y),
            _ => false,
        }
    }
}

/// The record of one key.
#[derive(Debug, Clone, Copy, PartialEq, Eq)]
pub enum Standing {
    /// Struck this often in a row, in this run last.
    Struck { strikes: u64, last: u64 },
    /// Left alone from this run on.
    Cooling { since: u64 },
}

/// Whether a key may be attempted in a run.
pub open spec fn attemptable(standing: Option<Standing>, run: u64, cooldown: u64) -> bool {
    match standing {
        Some(Standing::Cooling { since }) => run - since > cooldown,
        _ => true,
    }
}

/// The strikes that a key carries into a run.
pub open spec fn carried(standing: Option<Standing>) -> int {
    match standing {
        Some(Standing::Struck { strikes, .. }) => strikes as int,
        _ => 0,
    }
}

/// Whether a key already has its verdict for a run.
pub open spec fn judged(standing: Option<Standing>, run: u64, cooldown: u64) -> bool {
    match standing {
        Some(Standing::Struck { last, .. }) => last == run,
        Some(Standing::Cooling { .. }) => !attemptable(standing, run, cooldown),
        None => false,
    }
}

/// The record of a key after it failed in a run.
pub open spec fn struck(
    standing: Option<Standing>,
    run: u64,
    max_strikes: u64,
    cooldown: u64,
) -> Standing {
    if judged(standing, run, cooldown) {
        standing->0
    } else if carried(standing) + 1 >= max_strikes {
        Standing::Cooling { since: run }
    } else {
        Standing::Struck { strikes: (carried(standing) + 1) as u64, last: run }
    }
}

/// The records of all keys.
pub struct Backoff {
    run: u64,
    max_strikes: u64,
    cooldown: u64,
    ledger: SortedMap<FetchKey, Standing>,
}

/// The mathematical value of a [`Backoff`].
#[verifier::ext_equal]
pub struct BackoffView {
    /// The number of the current run.
    pub run: u64,
    /// The strikes in a row that begin a cooldown.
    pub max_strikes: u64,
    /// The runs that a cooldown lasts.
    pub cooldown: u64,
    pub ledger: Map<FetchKey, Standing>,
}

impl BackoffView {
    pub open spec fn standing(self, key: FetchKey) -> Option<Standing> {
        if self.ledger.contains_key(key) {
            Some(self.ledger[key])
        } else {
            None
        }
    }

    /// Whether a key may be attempted now.
    pub open spec fn eligible(self, key: FetchKey) -> bool {
        attemptable(self.standing(key), self.run, self.cooldown)
    }

    /// The records after a note.
    pub open spec fn noted(self, note: Note) -> BackoffView {
        match note {
            Note::Fulfilled(key) => BackoffView { ledger: self.ledger.remove(key), ..self },
            Note::Invalid(key) => self.with_strike(key),
            Note::TransportFailure(key) => self.with_strike(key),
        }
    }

    pub open spec fn with_strike(self, key: FetchKey) -> BackoffView {
        BackoffView {
            ledger: self.ledger.insert(
                key,
                struck(self.standing(key), self.run, self.max_strikes, self.cooldown),
            ),
            ..self
        }
    }

    /// No record is from a later run, and no key carries as many strikes as
    /// begin a cooldown.
    pub open spec fn valid(self) -> bool {
        forall|key: FetchKey| #[trigger]
            self.ledger.contains_key(key) ==> match self.ledger[key] {
                Standing::Struck { strikes, last } => 0 < strikes < self.max_strikes && last
                    <= self.run,
                Standing::Cooling { since } => since <= self.run,
            }
    }
}

impl View for Backoff {
    type V = BackoffView;

    closed spec fn view(&self) -> BackoffView {
        BackoffView {
            run: self.run,
            max_strikes: self.max_strikes,
            cooldown: self.cooldown,
            ledger: self.ledger@,
        }
    }
}

impl Backoff {
    pub closed spec fn wf(&self) -> bool {
        self.ledger.wf()
    }

    pub open spec fn inv(&self) -> bool {
        self.wf() && self@.valid()
    }

    /// No records, before the first run.
    pub fn new(max_strikes: u64, cooldown: u64) -> (r: Self)
        ensures
            r.inv(),
            r@ == (BackoffView { run: 0, max_strikes, cooldown, ledger: Map::empty() }),
    {
        let r = Backoff { run: 0, max_strikes, cooldown, ledger: SortedMap::new() };
        proof {
            assert(r@ =~= (BackoffView { run: 0, max_strikes, cooldown, ledger: Map::empty() }));
        }
        r
    }

    /// The number of the current run.
    pub fn run(&self) -> (r: u64)
        ensures
            r == self@.run,
    {
        self.run
    }

    /// Begins the next run.
    pub fn begin_run(&mut self)
        requires
            old(self).inv(),
            old(self)@.run < u64::MAX,
        ensures
            final(self).inv(),
            final(self)@ == (BackoffView { run: (old(self)@.run + 1) as u64, ..old(self)@ }),
    {
        self.run = self.run + 1;
        proof {
            assert(self@ =~= (BackoffView { run: (old(self)@.run + 1) as u64, ..old(self)@ }));
        }
    }

    /// Whether a key may be attempted now.
    pub fn eligible(&self, key: &FetchKey) -> (b: bool)
        requires
            self.inv(),
        ensures
            b == self@.eligible(*key),
    {
        match self.ledger.get(key) {
            Some(Standing::Cooling { since }) => self.run - *since > self.cooldown,
            _ => true,
        }
    }

    /// Notes what became of an attempt.
    pub fn note(&mut self, note: Note)
        requires
            old(self).inv(),
        ensures
            final(self).inv(),
            final(self)@ == old(self)@.noted(note),
    {
        match note {
            Note::Fulfilled(key) => {
                let _ = self.ledger.remove(&key);
                proof {
                    assert(self@ =~= old(self)@.noted(note));
                }
            },
            Note::Invalid(key) => self.strike(key),
            Note::TransportFailure(key) => self.strike(key),
        }
    }

    fn strike(&mut self, key: FetchKey)
        requires
            old(self).inv(),
        ensures
            final(self).inv(),
            final(self)@ == old(self)@.with_strike(key),
    {
        let run: u64 = self.run;
        let strikes: u64 = match self.ledger.get(&key) {
            None => 0,
            Some(Standing::Struck { strikes, last }) => {
                if *last == run {
                    proof {
                        assert(self@ =~= old(self)@.with_strike(key));
                    }
                    return;
                }
                *strikes
            },
            Some(Standing::Cooling { since }) => {
                if run - *since <= self.cooldown {
                    proof {
                        assert(self@ =~= old(self)@.with_strike(key));
                    }
                    return;
                }
                0
            },
        };
        let standing = if strikes >= self.max_strikes || strikes + 1 >= self.max_strikes {
            Standing::Cooling { since: run }
        } else {
            Standing::Struck { strikes: strikes + 1, last: run }
        };
        let _ = self.ledger.insert(key, standing);
        proof {
            assert(self@ =~= old(self)@.with_strike(key));
        }
    }
}

/// Failing twice in one run counts once.
pub proof fn law_one_strike_per_run(v: BackoffView, key: FetchKey)
    requires
        v.valid(),
    ensures
        v.with_strike(key).with_strike(key) == v.with_strike(key),
{
    assert(v.with_strike(key).with_strike(key).ledger =~= v.with_strike(key).ledger);
}

/// The strike that fills the measure begins a cooldown of exactly the
/// agreed number of runs, the current one not counted: the key is left
/// alone in this run and those, and attempted again in the next.
pub proof fn law_cooldown_is_served_in_full(v: BackoffView, key: FetchKey, later: u64)
    requires
        v.valid(),
        !judged(v.standing(key), v.run, v.cooldown),
        carried(v.standing(key)) + 1 >= v.max_strikes,
        v.run <= later,
    ensures
        (BackoffView { run: later, ..v.with_strike(key) }).eligible(key) <==> later - v.run
            > v.cooldown,
{
}

/// After its cooldown a key starts over: it carries no strike of before.
pub proof fn law_strikes_start_over(v: BackoffView, key: FetchKey)
    requires
        v.valid(),
        v.standing(key) matches Some(standing) && standing is Cooling,
        v.eligible(key),
        v.max_strikes > 1,
    ensures
        v.with_strike(key).standing(key) == Some(
            Standing::Struck { strikes: 1, last: v.run },
        ),
        v.with_strike(key).eligible(key),
{
}

/// Valid bytes clear a key's record, whatever it was.
pub proof fn law_fulfilment_clears_the_record(v: BackoffView, key: FetchKey)
    ensures
        v.noted(Note::Fulfilled(key)).standing(key) is None,
        v.noted(Note::Fulfilled(key)).eligible(key),
{
}

/// A note changes the record of no other key.
pub proof fn law_other_keys_keep_their_record(
    v: BackoffView,
    note: Note,
    key: FetchKey,
    other: FetchKey,
)
    requires
        note == Note::Fulfilled(key) || note == Note::Invalid(key) || note
            == Note::TransportFailure(key),
        other != key,
    ensures
        v.noted(note).standing(other) == v.standing(other),
{
}

} // verus!
