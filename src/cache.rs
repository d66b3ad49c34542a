use crate::engine::views;
use crate::record::{text_eq, Record, RecordView};
use vstd::prelude::*;

verus! {

#[verifier::external_type_specification]
#[verifier::external_body]
pub struct ExInstant(std::time::Instant);

/// Relies on `Instant::now`: a reading of the monotonic clock.
pub assume_specification[ std::time::Instant::now ]() -> std::time::Instant;

/// Relies on `Instant::elapsed`, read in nanoseconds through
/// `Duration::as_nanos`: the time passed since `origin`, as the clock says.
#[verifier::external_body]
fn nanos_since(origin: &std::time::Instant) -> (r: u128) {
    origin.elapsed().as_nanos()
}

/// What the cache holds: for each key, the stored records and the instant
/// (in nanoseconds on the cache's clock) at which they were stored.
pub type CacheView = Map<Seq<char>, (Seq<RecordView>, u128)>;

/// Whole seconds from `stored` to `now`; zero when `now` is not later.
pub open spec fn age_secs(stored: u128, now: u128) -> int {
    if now >= stored {
        (now - stored) / 1_000_000_000
    } else {
        0
    }
}

pub open spec fn is_fresh(stored: u128, now: u128, ttl: u64) -> bool {
    age_secs(stored, now) < ttl
}

/// What a lookup of `k` at instant `now` yields.
pub open spec fn lookup(m: CacheView, k: Seq<char>, now: u128, ttl: u64) -> Option<Seq<RecordView>> {
    if m.contains_key(k) && is_fresh(m[k].1, now, ttl) {
        Some(m[k].0)
    } else {
        None
    }
}

/// The entries of `m` that are still fresh at `now`.
pub open spec fn sweep(m: CacheView, now: u128, ttl: u64) -> CacheView {
    Map::new(|k: Seq<char>| m.contains_key(k) && is_fresh(m[k].1, now, ttl), |k: Seq<char>| m[k])
}

pub open spec fn opt_views(r: Option<Vec<Record>>) -> Option<Seq<RecordView>> {
    match r {
        Some(v) => Some(views(v@)),
        None => None,
    }
}

struct CacheEntry {
    key: String,
    records: Vec<Record>,
    stored_at: u128,
}

/// A time-to-live cache of record collections keyed by text.
pub struct CacheManager {
    entries: Vec<CacheEntry>,
    ttl_seconds: u64,
    origin: std::time::Instant,
    model: Ghost<CacheView>,
}

fn copy_records(v: &Vec<Record>) -> (r: Vec<Record>)
    ensures
        views(r@) == views(v@),
{
    let mut out: Vec<Record> = Vec::new();
    let mut i: usize = 0;
    while i < v.len()
        invariant
            i <= v.len(),
            views(out@) == views(v@).take(i as int),
        decreases v.len() - i,
    {
        let ghost before = out@;
        out.push(v[i].duplicate());
        assert(views(out@) =~= views(before).push(v@[i as int]@));
        assert(views(out@) =~= views(v@).take(i + 1));
        i = i + 1;
    }
    assert(views(v@).take(v@.len() as int) =~= views(v@));
    out
}

impl View for CacheManager {
    type V = CacheView;

    closed spec fn view(&self) -> CacheView {
        self.model@
    }
}

impl CacheManager {
    /// The configured time to live, in seconds.
    pub closed spec fn ttl(&self) -> u64 {
        self.ttl_seconds
    }

    /// The stored entries agree with the model, one entry per key.
    pub closed spec fn wf(&self) -> bool {
        &&& forall|i: int, j: int|
            0 <= i < j < self.entries@.len() ==> self.entries@[i].key@ != self.entries@[j].key@
        &&& forall|i: int|
            0 <= i < self.entries@.len() ==> self.model@.contains_key(
                #[trigger] self.entries@[i].key@,
            ) && self.model@[self.entries@[i].key@] == (
                views(self.entries@[i].records@),
                self.entries@[i].stored_at,
            )
        &&& forall|k: Seq<char>|
            #[trigger] self.model@.contains_key(k) ==> exists|i: int|
                0 <= i < self.entries@.len() && self.entries@[i].key@ == k
    }

    /// An empty cache whose entries stay fresh for `ttl_seconds` seconds.
    pub fn new(ttl_seconds: u64) -> (r: CacheManager)
        ensures
            r.wf(),
            r@ == CacheView::empty(),
            r.ttl() == ttl_seconds,
    {
        CacheManager {
            entries: Vec::new(),
            ttl_seconds,
            origin: std::time::Instant::now(),
            model: Ghost(CacheView::empty()),
        }
    }

    fn find(&self, key: &str) -> (r: Option<usize>)
        requires
            self.wf(),
        ensures
            match r {
                Some(i) => i < self.entries@.len() && self.entries@[i as int].key@ == key@,
                None => !self@.contains_key(key@),
            },
    {
        let mut i: usize = 0;
        while i < self.entries.len()
            invariant
                self.wf(),
                i <= self.entries.len(),
                forall|j: int| 0 <= j < i ==> self.entries@[j].key@ != key@,
            decreases self.entries.len() - i,
        {
            if text_eq(self.entries[i].key.as_str(), key) {
                return Some(i);
            }
            i = i + 1;
        }
        None
    }

    /// A copy of the records stored under `key`, if they are still fresh at
    /// instant `now`.
    pub fn get_at(&self, key: &str, now: u128) -> (r: Option<Vec<Record>>)
        requires
            self.wf(),
        ensures
            opt_views(r) == lookup(self@, key@, now, self.ttl()),
    {
        match self.find(key) {
            Some(i) => {
                let e = &self.entries[i];
                let age = if now >= e.stored_at {
                    (now - e.stored_at) / 1_000_000_000
                } else {
                    0
                };
                if age < self.ttl_seconds as u128 {
                    Some(copy_records(&e.records))
                } else {
                    None
                }
            },
            None => None,
        }
    }

    /// Stores `value` under `key` at instant `now`, replacing what was there.
    pub fn set_at(&mut self, key: String, value: Vec<Record>, now: u128)
        requires
            old(self).wf(),
        ensures
            final(self).wf(),
            final(self).ttl() == old(self).ttl(),
            final(self)@ == old(self)@.insert(key@, (views(value@), now)),
    {
        let ghost k = key@;
        let ghost newm = self@.insert(key@, (views(value@), now));
        let entry = CacheEntry { key, records: value, stored_at: now };
        match self.find(entry.key.as_str()) {
            Some(i) => {
                self.entries.set(i, entry);
                self.model = Ghost(newm);
                assert forall|k2: Seq<char>| #[trigger] self.model@.contains_key(k2) implies exists|
                    j: int,
                | 0 <= j < self.entries@.len() && self.entries@[j].key@ == k2 by {
                    if k2 != k {
                        let j = choose|j: int|
                            0 <= j < old(self).entries@.len() && old(self).entries@[j].key@ == k2;
                        assert(self.entries@[j].key@ == k2);
                    } else {
                        assert(self.entries@[i as int].key@ == k2);
                    }
                }
            },
            None => {
                self.entries.push(entry);
                self.model = Ghost(newm);
                assert forall|k2: Seq<char>| #[trigger] self.model@.contains_key(k2) implies exists|
                    j: int,
                | 0 <= j < self.entries@.len() && self.entries@[j].key@ == k2 by {
                    if k2 != k {
                        let j = choose|j: int|
                            0 <= j < old(self).entries@.len() && old(self).entries@[j].key@ == k2;
                        assert(self.entries@[j].key@ == k2);
                    } else {
                        assert(self.entries@[old(self).entries@.len() as int].key@ == k2);
                    }
                }
            },
        }
    }

    /// Removes every entry that is no longer fresh at instant `now`.
    pub fn cleanup_at(&mut self, now: u128)
        requires
            old(self).wf(),
        ensures
            final(self).wf(),
            final(self).ttl() == old(self).ttl(),
            final(self)@ == sweep(old(self)@, now, old(self).ttl()),
    {
        let ghost m = self@;
        let ghost target = sweep(m, now, self.ttl_seconds);
        let mut pending: Vec<CacheEntry> = Vec::new();
        std::mem::swap(&mut self.entries, &mut pending);
        let ghost all = pending@;
        self.model = Ghost(Map::empty());
        assert(pending@ =~= all.take(pending@.len() as int));
        assert(self.model@ =~= Map::new(
            |k: Seq<char>|
                target.contains_key(k) && exists|j: int| pending@.len() <= j < all.len() && all[j].key@ == k,
            |k: Seq<char>| target[k],
        ));
        while pending.len() > 0
            invariant
                self.ttl_seconds == old(self).ttl_seconds,
                all == old(self).entries@,
                m == old(self)@,
                target == sweep(m, now, self.ttl_seconds),
                pending@ == all.take(pending@.len() as int),
                pending@.len() <= all.len(),
                self.model@ == Map::new(
                    |k: Seq<char>|
                        target.contains_key(k) && exists|j: int|
                            pending@.len() <= j < all.len() && all[j].key@ == k,
                    |k: Seq<char>| target[k],
                ),
                forall|a: int, b: int|
                    0 <= a < b < all.len() ==> all[a].key@ != all[b].key@,
                forall|i: int|
                    0 <= i < all.len() ==> m.contains_key(#[trigger] all[i].key@) && m[all[i].key@]
                        == (views(all[i].records@), all[i].stored_at),
                forall|k: Seq<char>|
                    #[trigger] m.contains_key(k) ==> exists|i: int| 0 <= i < all.len() && all[i].key@ == k,
                forall|i: int|
                    0 <= i < self.entries@.len() ==> exists|j: int|
                        pending@.len() <= j < all.len() && #[trigger] self.entries@[i] == all[j],
                forall|i: int|
                    0 <= i < self.entries@.len() ==> target.contains_key(#[trigger] self.entries@[i].key@),
                forall|a: int, b: int|
                    0 <= a < b < self.entries@.len() ==> self.entries@[a].key@ != self.entries@[b].key@,
                forall|k: Seq<char>|
                    #[trigger] self.model@.contains_key(k) ==> exists|i: int|
                        0 <= i < self.entries@.len() && self.entries@[i].key@ == k,
            decreases pending.len(),
        {
            let ghost n = pending@.len() - 1;
            let e = pending.pop().unwrap();
            let age = if now >= e.stored_at {
                (now - e.stored_at) / 1_000_000_000
            } else {
                0
            };
            let ghost before = self.entries@;
            let ghost old_model = self.model@;
            let ghost ek = e.key@;
            assert(pending@ =~= all.take(n));
            assert(all[n] == e);
            if age < self.ttl_seconds as u128 {
                self.entries.push(e);
                assert(self.entries@[before.len() as int].key@ == ek);
            }
            self.model = Ghost(
                Map::new(
                    |k: Seq<char>|
                        target.contains_key(k) && exists|j: int|
                            n <= j < all.len() && all[j].key@ == k,
                    |k: Seq<char>| target[k],
                ),
            );
            assert forall|k: Seq<char>| #[trigger] self.model@.contains_key(k) implies exists|i: int|
                0 <= i < self.entries@.len() && self.entries@[i].key@ == k by {
                let j = choose|j: int| n <= j < all.len() && all[j].key@ == k;
                if j == n {
                    assert(m.contains_key(all[n].key@));
                    assert(self.entries@[before.len() as int].key@ == k);
                } else {
                    assert(old_model.contains_key(k));
                    let i = choose|i: int| 0 <= i < before.len() && before[i].key@ == k;
                    assert(self.entries@[i].key@ == k);
                }
            }
            assert forall|i: int| 0 <= i < self.entries@.len() implies exists|j: int|
                pending@.len() <= j < all.len() && #[trigger] self.entries@[i] == all[j] by {
                if i == before.len() {
                    assert(self.entries@[i] == all[n]);
                } else {
                    assert(self.entries@[i] == before[i]);
                }
            }
            assert forall|a: int, b: int|
                0 <= a < b < self.entries@.len() implies self.entries@[a].key@ != self.entries@[b].key@ by {
                if b == before.len() {
                    let ja = choose|j: int| n + 1 <= j < all.len() && before[a] == all[j];
                    assert(self.entries@[a] == all[ja]);
                }
            }
        }
        assert(self.model@ =~= target);
        assert forall|i: int| 0 <= i < self.entries@.len() implies self.model@.contains_key(
            #[trigger] self.entries@[i].key@,
        ) && self.model@[self.entries@[i].key@] == (
            views(self.entries@[i].records@),
            self.entries@[i].stored_at,
        ) by {
            let j = choose|j: int| pending@.len() <= j < all.len() && #[trigger] self.entries@[i] == all[j];
            assert(m.contains_key(all[j].key@));
        }
    }

    /// A copy of the records stored under `key`, if they are still fresh
    /// now: the result agrees with a lookup at the instant the clock gave.
    pub fn get(&self, key: &str) -> (r: Option<Vec<Record>>)
        requires
            self.wf(),
        ensures
            exists|now: u128| opt_views(r) == #[trigger] lookup(self@, key@, now, self.ttl()),
    {
        let now = nanos_since(&self.origin);
        self.get_at(key, now)
    }

    /// Stores `value` under `key`, stamped with the current instant.
    pub fn set(&mut self, key: String, value: Vec<Record>)
        requires
            old(self).wf(),
        ensures
            final(self).wf(),
            final(self).ttl() == old(self).ttl(),
            exists|now: u128|
                final(self)@ == #[trigger] old(self)@.insert(key@, (views(value@), now)),
    {
        let now = nanos_since(&self.origin);
        self.set_at(key, value, now);
    }

    /// Removes every entry that is no longer fresh now.
    pub fn cleanup(&mut self)
        requires
            old(self).wf(),
        ensures
            final(self).wf(),
            final(self).ttl() == old(self).ttl(),
            exists|now: u128| final(self)@ == #[trigger] sweep(old(self)@, now, old(self).ttl()),
    {
        let now = nanos_since(&self.origin);
        self.cleanup_at(now);
    }

    /// The number of entries held, fresh or not.
    pub fn len(&self) -> (r: usize)
        requires
            self.wf(),
        ensures
            r == self@.len(),
    {
        proof {
            self.lemma_len();
        }
        self.entries.len()
    }

    proof fn lemma_len(&self)
        requires
            self.wf(),
        ensures
            self.entries@.len() == self@.len(),
    {
        let keys = self.entries@.map_values(|e: CacheEntry| e.key@);
        assert(keys.no_duplicates());
        assert(keys.to_set() =~= self@.dom()) by {
            assert forall|k: Seq<char>| self@.dom().contains(k) implies keys.to_set().contains(k) by {
                let i = choose|i: int| 0 <= i < self.entries@.len() && self.entries@[i].key@ == k;
                assert(keys[i] == k);
            }
        }
        keys.unique_seq_to_set();
    }

    /// Removes every entry.
    pub fn clear(&mut self)
        requires
            old(self).wf(),
        ensures
            final(self).wf(),
            final(self).ttl() == old(self).ttl(),
            final(self)@ == CacheView::empty(),
    {
        self.entries = Vec::new();
        self.model = Ghost(CacheView::empty());
    }
}

/// Right after `set`, a lookup returns the stored records while fewer than
/// `ttl` whole seconds have passed, and nothing once `ttl` seconds have
/// passed; a sweep at such a later instant drops the entry, and keeps every
/// entry that is still fresh.
pub proof fn lemma_ttl_freshness(
    m: CacheView,
    k: Seq<char>,
    v: Seq<RecordView>,
    stored: u128,
    now: u128,
    ttl: u64,
)
    requires
        stored <= now,
    ensures
        age_secs(stored, now) < ttl ==> lookup(m.insert(k, (v, stored)), k, now, ttl) == Some(v),
        age_secs(stored, now) >= ttl ==> lookup(m.insert(k, (v, stored)), k, now, ttl) is None,
        ttl > 0 ==> lookup(m.insert(k, (v, stored)), k, stored, ttl) == Some(v),
        age_secs(stored, now) >= ttl ==> !sweep(m.insert(k, (v, stored)), now, ttl).contains_key(k),
        forall|k2: Seq<char>|
            lookup(m, k2, now, ttl) is Some ==> #[trigger] sweep(m, now, ttl).contains_key(k2)
                && sweep(m, now, ttl)[k2] == m[k2],
{
}

/// After `clear`, no key yields anything at any instant.
pub proof fn lemma_cleared_is_empty(k: Seq<char>, now: u128, ttl: u64)
    ensures
        lookup(CacheView::empty(), k, now, ttl) is None,
{
}

} // verus!
