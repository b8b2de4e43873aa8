//! Storage for content that was taken out of a prompt.
//!
//! A transform that drops content stores the original here, under the hash that
//! ends up in the prompt. A later request for the hash is answered with the
//! original: lossy on the wire, lossless end to end.

use crate::text::same;
use std::collections::VecDeque;
use std::time::{Duration, Instant};
use vstd::hash_map::StringHashMap;
use vstd::prelude::*;

verus! {

/// A reading of a monotonic clock.
#[verifier::external_type_specification]
#[verifier::external_body]
pub struct ExternalInstant(std::time::Instant);

/// The number of nanoseconds that a duration lasts.
pub uninterp spec fn duration_nanos(duration: std::time::Duration) -> nat;

/// `Instant::now` reads the clock. Nothing is claimed of the reading.
pub assume_specification[ std::time::Instant::now ]() -> (r: std::time::Instant)
;

/// `Instant::elapsed` tells how long ago a reading was taken. It depends on the
/// clock, so nothing is claimed of it.
pub assume_specification[ std::time::Instant::elapsed ](instant: &std::time::Instant) -> (r:
    std::time::Duration)
;

/// `Duration::as_nanos` gives the total number of nanoseconds.
pub assume_specification[ std::time::Duration::as_nanos ](duration: &std::time::Duration) -> (r:
    u128)
    ensures
        r == duration_nanos(*duration),
;

/// `Duration::from_secs` gives the duration of a whole number of seconds.
pub assume_specification[ std::time::Duration::from_secs ](secs: u64) -> (r: std::time::Duration)
    ensures
        duration_nanos(r) == secs * 1_000_000_000,
;

/// How many entries a store keeps by default.
pub const DEFAULT_CAPACITY: usize = 1000;

/// How many seconds an entry lives by default.
pub const DEFAULT_TTL_SECS: u64 = 300;

/// How long an entry lives by default: five minutes.
pub fn default_ttl() -> (r: Duration)
    ensures
        duration_nanos(r) == 300_000_000_000,
{
    Duration::from_secs(DEFAULT_TTL_SECS)
}

/// A storage backend.
///
/// The two specification functions let each implementation say what a store
/// may hold. An implementation that does not say may hold anything.
pub trait CcrStore: Send + Sync {
    /// Whether `payload` may be stored under `hash`.
    open spec fn may_hold(&self, hash: Seq<char>, payload: Seq<char>) -> bool {
        true
    }

    /// Whether there may be `count` entries.
    open spec fn may_count(&self, count: nat) -> bool {
        true
    }

    /// Stores `payload` under `hash`, in place of what was there.
    fn put(&mut self, hash: &str, payload: &str)
        ensures
            final(self).may_hold(hash@, payload@),
    ;

    /// The payload under `hash`, unless it is missing or has expired.
    fn get(&mut self, hash: &str) -> (r: Option<String>)
        ensures
            r matches Some(payload) ==> old(self).may_hold(hash@, payload@),
    ;

    /// The number of entries.
    fn len(&self) -> (r: usize)
        ensures
            self.may_count(r as nat),
    ;

    /// Whether there are no entries.
    fn is_empty(&self) -> (r: bool)
        ensures
            exists|count: nat| #[trigger] self.may_count(count) && r == (count == 0),
    {
        let count: usize = self.len();
        assert(self.may_count(count as nat));
        count == 0
    }
}

/// An entry of a store: the payload, and when it was stored.
pub struct StoredEntry {
    pub payload: Seq<char>,
    pub inserted: nat,
}

/// What an `InMemoryCcrStore` holds. Times are nanoseconds since the store was
/// made.
#[verifier::ext_equal]
pub struct CcrState {
    /// The entries, by their hashes.
    pub entries: Map<Seq<char>, StoredEntry>,
    /// The hashes of the entries, in the order in which they were stored.
    pub order: Seq<Seq<char>>,
    /// How many entries there may be.
    pub capacity: nat,
    /// How long an entry lives.
    pub ttl: nat,
}

impl CcrState {
    /// Whether the order holds the hashes of the entries, each once.
    pub open spec fn is_in_step(self) -> bool {
        &&& self.entries.dom().finite()
        &&& self.order.no_duplicates()
        &&& self.order.to_set() == self.entries.dom()
    }

    /// How many entries there may be: one at least.
    pub open spec fn limit(self) -> nat {
        if self.capacity == 0 {
            1
        } else {
            self.capacity
        }
    }

    /// Whether the order is in step with the entries, and there are no more of
    /// them than there may be.
    pub open spec fn is_valid(self) -> bool {
        self.is_in_step() && self.entries.dom().len() <= self.limit()
    }

    /// Whether an entry has outlived its time at `now`.
    pub open spec fn expired(self, entry: StoredEntry, now: nat) -> bool {
        now > entry.inserted + self.ttl
    }

    /// The state once the entries that were stored first have made room for a
    /// new one.
    pub open spec fn with_room(self) -> CcrState
        decreases self.order.len(),
    {
        if self.entries.dom().len() >= self.capacity && self.order.len() > 0 {
            CcrState {
                entries: self.entries.remove(self.order[0]),
                order: self.order.drop_first(),
                ..self
            }.with_room()
        } else {
            self
        }
    }

    /// The state once `payload` has been stored under `hash` at `now`. A hash
    /// that is there already keeps its place in the order.
    pub open spec fn after_put(self, hash: Seq<char>, payload: Seq<char>, now: nat) -> CcrState {
        let entry = StoredEntry { payload, inserted: now };
        if self.entries.contains_key(hash) {
            CcrState { entries: self.entries.insert(hash, entry), ..self }
        } else {
            let roomy = self.with_room();
            CcrState {
                entries: roomy.entries.insert(hash, entry),
                order: roomy.order.push(hash),
                ..self
            }
        }
    }

    /// What a request for `hash` at `now` is answered.
    pub open spec fn answer(self, hash: Seq<char>, now: nat) -> Option<Seq<char>> {
        if self.entries.contains_key(hash) && !self.expired(self.entries[hash], now) {
            Some(self.entries[hash].payload)
        } else {
            None
        }
    }

    /// The state after a request for `hash` at `now`: an entry that is found
    /// expired is dropped, and its hash loses its place in the order.
    pub open spec fn after_get(self, hash: Seq<char>, now: nat) -> CcrState {
        if self.entries.contains_key(hash) && self.expired(self.entries[hash], now) {
            CcrState {
                entries: self.entries.remove(hash),
                order: self.order.remove_value(hash),
                ..self
            }
        } else {
            self
        }
    }
}

struct Entry {
    payload: String,
    inserted: u128,
}

/// In-memory store with a bounded number of entries, each of bounded age.
///
/// Entries past their time are dropped on the next `get`. When the store is
/// full, the entry that was stored first makes room.
pub struct InMemoryCcrStore {
    map: StringHashMap<Entry>,
    order: VecDeque<String>,
    ttl: Duration,
    capacity: usize,
    started: Instant,
}

impl View for InMemoryCcrStore {
    type V = CcrState;

    closed spec fn view(&self) -> CcrState {
        CcrState {
            entries: self.map@.map_values(
                |entry: Entry|
                    StoredEntry { payload: entry.payload@, inserted: entry.inserted as nat },
            ),
            order: crate::text::texts(self.order@),
            capacity: self.capacity as nat,
            ttl: duration_nanos(self.ttl),
        }
    }
}

impl InMemoryCcrStore {
    /// A store for a thousand entries that live five minutes.
    pub fn new() -> (r: Self)
        ensures
            r@.entries == Map::<Seq<char>, StoredEntry>::empty(),
            r@.order.len() == 0,
            r@.capacity == DEFAULT_CAPACITY,
            r@.ttl == 300_000_000_000,
            r@.is_valid(),
    {
        Self::with_capacity_and_ttl(DEFAULT_CAPACITY, default_ttl())
    }

    /// A store for `capacity` entries that live as long as `ttl`.
    pub fn with_capacity_and_ttl(capacity: usize, ttl: Duration) -> (r: Self)
        ensures
            r@.entries == Map::<Seq<char>, StoredEntry>::empty(),
            r@.order.len() == 0,
            r@.capacity == capacity,
            r@.ttl == duration_nanos(ttl),
            r@.is_valid(),
    {
        let store = InMemoryCcrStore {
            map: StringHashMap::new(),
            order: VecDeque::new(),
            ttl,
            capacity,
            started: Instant::now(),
        };
        assert(store@.order.to_set() =~= store@.entries.dom());
        store
    }

    /// When the store was made.
    pub closed spec fn start(&self) -> Instant {
        self.started
    }

    /// Whether the clock may show `now`, in nanoseconds since the store was
    /// made.
    pub open spec fn may_read(&self, now: nat) -> bool {
        exists|elapsed: Duration|
            {
                &&& #[trigger] call_ensures(Instant::elapsed, (&self.start(),), elapsed)
                &&& now == duration_nanos(elapsed)
            }
    }

    /// The nanoseconds since the store was made, as the clock shows them.
    fn now(&self) -> (r: u128)
        ensures
            self.may_read(r as nat),
    {
        let elapsed: Duration = self.started.elapsed();
        assert(call_ensures(Instant::elapsed, (&self.start(),), elapsed));
        elapsed.as_nanos()
    }

    /// Takes `hash` out of the order.
    fn forget_place(&mut self, hash: &str)
        ensures
            final(self)@ == (CcrState { order: old(self)@.order.remove_value(hash@), ..old(self)@ }),
            final(self).start() == old(self).start(),
    {
        let ghost before = self@.order;
        let mut i: usize = 0;
        while i < self.order.len()
            invariant
                i <= self.order@.len(),
                *self == *old(self),
                before == self@.order,
                forall|j: int| 0 <= j < i ==> before[j] != hash@,
            decreases self.order@.len() - i,
        {
            assert(self.order@[i as int]@ == before[i as int]);
            if same(self.order[i].as_str(), hash) {
                self.order.remove(i);
                proof {
                    before.index_of_first_ensures(hash@);
                    let first = before.index_of_first(hash@)->0;
                    assert(before.contains(hash@));
                    assert(first == i);
                    assert(self@.order == before.remove_value(hash@));
                }
                return;
            }
            i = i + 1;
        }
        proof {
            before.index_of_first_ensures(hash@);
        }
    }

    /// Stores `payload` under `hash` at the time `now`, in nanoseconds since
    /// the store was made.
    pub fn put_at(&mut self, hash: &str, payload: &str, now: u128)
        ensures
            final(self)@ == old(self)@.after_put(hash@, payload@, now as nat),
            final(self).start() == old(self).start(),
            old(self)@.is_valid() ==> final(self)@.is_valid(),
    {
        let ghost before = self@;
        proof {
            if before.is_valid() {
                law_operations_keep_the_store_valid(before, hash@, payload@, now as nat);
            }
        }
        if self.map.contains_key(hash) {
            self.map.insert(
                hash.to_string(),
                Entry { payload: payload.to_string(), inserted: now },
            );
            proof {
                assert(self@.entries == before.after_put(hash@, payload@, now as nat).entries);
            }
            return;
        }
        assert(self@.entries.dom() == self.map@.dom());
        while self.map.len() >= self.capacity
            invariant
                self@.with_room() == before.with_room(),
                self@.entries.dom() == self.map@.dom(),
                self@.capacity == before.capacity,
                self@.ttl == before.ttl,
                self.start() == old(self).start(),
            ensures
                self@ == before.with_room(),
            decreases self.order@.len(),
        {
            let ghost step = self@;
            match self.order.pop_front() {
                Some(oldest) => {
                    self.map.remove(oldest.as_str());
                    proof {
                        assert(oldest@ == step.order[0]);
                        assert(self@ == CcrState {
                            entries: step.entries.remove(step.order[0]),
                            order: step.order.drop_first(),
                            ..step
                        });
                        assert(self@.entries.dom() == self.map@.dom());
                    }
                },
                None => {
                    break;
                },
            }
        }
        self.map.insert(
            hash.to_string(),
            Entry { payload: payload.to_string(), inserted: now },
        );
        self.order.push_back(hash.to_string());
        proof {
            let after = before.after_put(hash@, payload@, now as nat);
            assert(self@.entries == after.entries);
            assert(self@.order == after.order);
        }
    }

    /// The payload under `hash` at the time `now`, in nanoseconds since the
    /// store was made.
    pub fn get_at(&mut self, hash: &str, now: u128) -> (r: Option<String>)
        ensures
            match r {
                Some(payload) => old(self)@.answer(hash@, now as nat) == Some(payload@),
                None => old(self)@.answer(hash@, now as nat) is None,
            },
            final(self)@ == old(self)@.after_get(hash@, now as nat),
            final(self).start() == old(self).start(),
            old(self)@.is_valid() ==> final(self)@.is_valid(),
    {
        let ghost before = self@;
        proof {
            if before.is_valid() {
                law_operations_keep_the_store_valid(before, hash@, hash@, now as nat);
            }
        }
        let found: Option<String> = match self.map.get(hash) {
            Some(entry) => {
                if now.saturating_sub(entry.inserted) > self.ttl.as_nanos() {
                    None
                } else {
                    return Some(entry.payload.clone());
                }
            },
            None => {
                return None;
            },
        };
        self.map.remove(hash);
        proof {
            assert(self@.entries == before.entries.remove(hash@));
        }
        self.forget_place(hash);
        found
    }
}

impl Default for InMemoryCcrStore {
    fn default() -> (r: Self)
        ensures
            r@.entries == Map::<Seq<char>, StoredEntry>::empty(),
            r@.order.len() == 0,
            r@.capacity == DEFAULT_CAPACITY,
            r@.ttl == 300_000_000_000,
            r@.is_valid(),
    {
        Self::new()
    }
}

impl CcrStore for InMemoryCcrStore {
    open spec fn may_hold(&self, hash: Seq<char>, payload: Seq<char>) -> bool {
        self@.entries.contains_key(hash) && self@.entries[hash].payload == payload
    }

    open spec fn may_count(&self, count: nat) -> bool {
        count == self@.entries.dom().len()
    }

    /// Stores `payload` under `hash` at the present time.
    fn put(&mut self, hash: &str, payload: &str)
        ensures
            exists|now: nat| #[trigger]
                old(self).may_read(now) && final(self)@ == old(self)@.after_put(
                    hash@,
                    payload@,
                    now,
                ),
            final(self).start() == old(self).start(),
            old(self)@.is_valid() ==> final(self)@.is_valid(),
    {
        let now: u128 = self.now();
        assert(old(self).may_read(now as nat));
        self.put_at(hash, payload, now);
    }

    /// The payload under `hash` at the present time.
    fn get(&mut self, hash: &str) -> (r: Option<String>)
        ensures
            exists|now: nat|
                {
                    &&& #[trigger] old(self).may_read(now)
                    &&& final(self)@ == old(self)@.after_get(hash@, now)
                    &&& match r {
                        Some(payload) => old(self)@.answer(hash@, now) == Some(payload@),
                        None => old(self)@.answer(hash@, now) is None,
                    }
                },
            final(self).start() == old(self).start(),
            old(self)@.is_valid() ==> final(self)@.is_valid(),
    {
        let now: u128 = self.now();
        assert(old(self).may_read(now as nat));
        self.get_at(hash, now)
    }

    fn len(&self) -> (r: usize) {
        proof {
            assert(self@.entries.dom() == self.map@.dom());
        }
        self.map.len()
    }
}

/// Making room only drops entries.
proof fn lemma_room_takes_nothing_in(state: CcrState)
    ensures
        state.with_room().entries.submap_of(state.entries),
        state.with_room().capacity == state.capacity,
        state.with_room().ttl == state.ttl,
    decreases state.order.len(),
{
    if state.entries.dom().len() >= state.capacity && state.order.len() > 0 {
        let next = CcrState {
            entries: state.entries.remove(state.order[0]),
            order: state.order.drop_first(),
            ..state
        };
        lemma_room_takes_nothing_in(next);
        let roomy = state.with_room();
        assert(roomy == next.with_room());
        assert forall|hash: Seq<char>| #[trigger] roomy.entries.dom().contains(hash) implies {
            &&& state.entries.dom().contains(hash)
            &&& roomy.entries[hash] == state.entries[hash]
        } by {
            assert(next.entries.dom().contains(hash));
        }
    }
}

/// Making room keeps the order in step, and leaves fewer entries than the
/// capacity, or none.
proof fn lemma_room_keeps_in_step(state: CcrState)
    requires
        state.is_in_step(),
    ensures
        state.with_room().is_in_step(),
        state.with_room().entries.dom().len() < state.capacity
            || state.with_room().entries.dom().len() == 0,
    decreases state.order.len(),
{
    if state.entries.dom().len() >= state.capacity && state.order.len() > 0 {
        let oldest = state.order[0];
        let next = CcrState {
            entries: state.entries.remove(oldest),
            order: state.order.drop_first(),
            ..state
        };
        assert(next.order.to_set() =~= state.order.to_set().remove(oldest)) by {
            assert forall|other: Seq<char>|
                next.order.to_set().contains(other) == state.order.to_set().remove(
                    oldest,
                ).contains(other) by {
                if state.order.contains(other) && other != oldest {
                    let i = choose|i: int| 0 <= i < state.order.len() && state.order[i] == other;
                    assert(next.order[i - 1] == other);
                }
                if next.order.contains(other) {
                    let i = choose|i: int| 0 <= i < next.order.len() && next.order[i] == other;
                    assert(state.order[i + 1] == other);
                }
            }
        }
        assert(next.entries.dom() =~= state.entries.dom().remove(oldest));
        lemma_room_keeps_in_step(next);
    } else if state.order.len() == 0 {
        assert(state.entries.dom() =~= Set::empty());
    }
}

/// What was stored under a hash is what a request for it is answered, until
/// its time is over.
pub proof fn law_get_gives_back_what_was_put(
    state: CcrState,
    hash: Seq<char>,
    payload: Seq<char>,
    stored: nat,
    asked: nat,
)
    requires
        asked <= stored + state.ttl,
    ensures
        state.after_put(hash, payload, stored).answer(hash, asked) == Some(payload),
        state.after_put(hash, payload, stored).after_get(hash, asked) == state.after_put(
            hash,
            payload,
            stored,
        ),
{
}

/// Once its time is over, a request for a hash is answered nothing, and drops
/// the entry.
pub proof fn law_expired_entries_are_dropped_on_get(
    state: CcrState,
    hash: Seq<char>,
    payload: Seq<char>,
    stored: nat,
    asked: nat,
)
    requires
        asked > stored + state.ttl,
    ensures
        state.after_put(hash, payload, stored).answer(hash, asked) is None,
        !state.after_put(hash, payload, stored).after_get(hash, asked).entries.contains_key(hash),
{
}

/// A hash under which nothing is stored is answered nothing, and the request
/// changes nothing.
pub proof fn law_missing_hash_is_answered_nothing(state: CcrState, hash: Seq<char>, asked: nat)
    requires
        !state.entries.contains_key(hash),
    ensures
        state.answer(hash, asked) is None,
        state.after_get(hash, asked) == state,
{
}

/// Storing again under a hash replaces the payload and its time. It adds no
/// entry, and the hash keeps its place in the order.
pub proof fn law_put_overwrites(
    state: CcrState,
    hash: Seq<char>,
    first: Seq<char>,
    earlier: nat,
    second: Seq<char>,
    later: nat,
)
    ensures
        ({
            let once = state.after_put(hash, first, earlier);
            let twice = once.after_put(hash, second, later);
            &&& twice.entries.dom() == once.entries.dom()
            &&& twice.order == once.order
            &&& twice == state.after_put(hash, second, later)
        }),
{
    let once = state.after_put(hash, first, earlier);
    let twice = once.after_put(hash, second, later);
    assert(twice.entries.dom() =~= once.entries.dom());
    assert(twice =~= state.after_put(hash, second, later));
}

/// Every operation keeps the store valid: the order holds the hashes of the
/// entries, each once, and there are never more entries than the capacity, or
/// one if the capacity is zero.
pub proof fn law_operations_keep_the_store_valid(
    state: CcrState,
    hash: Seq<char>,
    payload: Seq<char>,
    now: nat,
)
    requires
        state.entries.dom().finite(),
        state.order.no_duplicates(),
        state.order.to_set() == state.entries.dom(),
        state.entries.dom().len() <= state.capacity || state.entries.dom().len() <= 1,
    ensures
        state.after_put(hash, payload, now).is_valid(),
        state.after_get(hash, now).is_valid(),
        forall|after: CcrState|
            after == state.after_put(hash, payload, now) || after == state.after_get(hash, now)
                ==> {
                &&& #[trigger] after.entries.dom().finite()
                &&& after.order.no_duplicates()
                &&& after.order.to_set() == after.entries.dom()
                &&& after.entries.dom().len() <= state.capacity || after.entries.dom().len() <= 1
                &&& after.capacity == state.capacity
                &&& after.ttl == state.ttl
            },
{
    let after = state.after_put(hash, payload, now);
    if state.entries.contains_key(hash) {
        assert(after.entries.dom() =~= state.entries.dom());
    } else {
        lemma_room_keeps_in_step(state);
        lemma_room_takes_nothing_in(state);
        let roomy = state.with_room();
        assert(!roomy.entries.dom().contains(hash)) by {
            if roomy.entries.dom().contains(hash) {
                assert(state.entries.dom().contains(hash));
            }
        }
        assert(!roomy.order.contains(hash)) by {
            if roomy.order.contains(hash) {
                assert(roomy.order.to_set().contains(hash));
            }
        }
        assert(after.order.to_set() =~= roomy.order.to_set().insert(hash)) by {
            assert forall|other: Seq<char>|
                after.order.to_set().contains(other) == roomy.order.to_set().insert(
                    hash,
                ).contains(other) by {
                if roomy.order.contains(other) {
                    let i = choose|i: int| 0 <= i < roomy.order.len() && roomy.order[i] == other;
                    assert(after.order[i] == other);
                }
                if other == hash {
                    assert(after.order[roomy.order.len() as int] == hash);
                }
            }
        }
        assert(after.entries.dom() =~= roomy.entries.dom().insert(hash));
    }
    if state.entries.contains_key(hash) {
        lemma_forgetting_keeps_in_step(state, hash);
    }
}

proof fn lemma_forgetting_keeps_in_step(state: CcrState, hash: Seq<char>)
    requires
        state.is_in_step(),
        state.entries.contains_key(hash),
    ensures
        (CcrState {
            entries: state.entries.remove(hash),
            order: state.order.remove_value(hash),
            ..state
        }).is_in_step(),
{
    let order = state.order;
    let after = order.remove_value(hash);
    assert(order.to_set().contains(hash));
    order.index_of_first_ensures(hash);
    let at = order.index_of_first(hash)->0;
    assert(after == order.remove(at));
    assert(after.to_set() =~= order.to_set().remove(hash)) by {
        assert forall|other: Seq<char>|
            after.to_set().contains(other) == order.to_set().remove(hash).contains(other) by {
            if order.contains(other) && other != hash {
                let k = choose|k: int| 0 <= k < order.len() && order[k] == other;
                if k < at {
                    assert(after[k] == other);
                } else {
                    assert(after[k - 1] == other);
                }
            }
            if after.contains(other) {
                let k = choose|k: int| 0 <= k < after.len() && after[k] == other;
                if k < at {
                    assert(order[k] == other);
                } else {
                    assert(order[k + 1] == other);
                }
            }
        }
    }
    assert(state.entries.remove(hash).dom() =~= state.entries.dom().remove(hash));
}

/// While there is room, storing under a hash leaves every other entry as it
/// is.
pub proof fn law_put_leaves_other_entries_while_there_is_room(
    state: CcrState,
    hash: Seq<char>,
    payload: Seq<char>,
    now: nat,
)
    requires
        state.entries.contains_key(hash) || state.entries.dom().len() < state.capacity,
    ensures
        state.after_put(hash, payload, now).entries.remove(hash) == state.entries.remove(hash),
{
    assert(state.after_put(hash, payload, now).entries.remove(hash) =~= state.entries.remove(hash));
}

/// A full store makes room by dropping the one entry that was stored first,
/// and the new entry comes last.
pub proof fn law_the_oldest_entry_makes_room(
    state: CcrState,
    hash: Seq<char>,
    payload: Seq<char>,
    now: nat,
)
    requires
        state.entries.dom().finite(),
        state.order.no_duplicates(),
        state.order.to_set() == state.entries.dom(),
        state.entries.dom().len() == state.capacity,
        state.capacity > 0,
        !state.entries.contains_key(hash),
    ensures
        state.after_put(hash, payload, now) == (CcrState {
            entries: state.entries.remove(state.order[0]).insert(
                hash,
                StoredEntry { payload, inserted: now },
            ),
            order: state.order.drop_first().push(hash),
            ..state
        }),
{
    state.order.unique_seq_to_set();
    let oldest = state.order[0];
    assert(state.order.to_set().contains(oldest));
    let next = CcrState {
        entries: state.entries.remove(oldest),
        order: state.order.drop_first(),
        ..state
    };
    assert(next.entries.dom() =~= state.entries.dom().remove(oldest));
    assert(next.with_room() == next);
    assert(state.with_room() == next.with_room());
}

/// An entry that expired and was dropped comes last when its hash is stored
/// again.
pub proof fn law_an_expired_hash_comes_last_when_stored_again(
    state: CcrState,
    hash: Seq<char>,
    payload: Seq<char>,
    asked: nat,
    stored: nat,
)
    requires
        state.entries.dom().finite(),
        state.order.no_duplicates(),
        state.order.to_set() == state.entries.dom(),
        state.entries.dom().len() <= state.capacity || state.entries.dom().len() <= 1,
        state.entries.contains_key(hash),
        state.expired(state.entries[hash], asked),
    ensures
        state.after_get(hash, asked).after_put(hash, payload, stored).order
            == state.order.remove_value(hash).push(hash),
{
    let gone = state.after_get(hash, asked);
    lemma_forgetting_keeps_in_step(state, hash);
    assert(gone.entries.dom() =~= state.entries.dom().remove(hash));
    if gone.capacity == 0 {
        assert(gone.entries.dom().len() == 0);
        if gone.order.len() > 0 {
            assert(gone.order.to_set().contains(gone.order[0]));
        }
    }
}

/// A call of `put` or `get`, and when it was made.
pub enum Call {
    Put { hash: Seq<char>, payload: Seq<char>, now: nat },
    Get { hash: Seq<char>, now: nat },
}

/// The state after `calls`.
pub open spec fn after_calls(state: CcrState, calls: Seq<Call>) -> CcrState
    decreases calls.len(),
{
    if calls.len() == 0 {
        state
    } else {
        let earlier = after_calls(state, calls.drop_last());
        match calls.last() {
            Call::Put { hash, payload, now } => earlier.after_put(hash, payload, now),
            Call::Get { hash, now } => earlier.after_get(hash, now),
        }
    }
}

/// The hashes that `calls` put.
pub open spec fn hashes_put(calls: Seq<Call>) -> Set<Seq<char>>
    decreases calls.len(),
{
    if calls.len() == 0 {
        Set::empty()
    } else {
        match calls.last() {
            Call::Put { hash, .. } => hashes_put(calls.drop_last()).insert(hash),
            Call::Get { .. } => hashes_put(calls.drop_last()),
        }
    }
}

/// Whether none of `calls` finds an entry expired.
pub open spec fn nothing_expires(state: CcrState, calls: Seq<Call>) -> bool
    decreases calls.len(),
{
    if calls.len() == 0 {
        true
    } else {
        let earlier = after_calls(state, calls.drop_last());
        &&& nothing_expires(state, calls.drop_last())
        &&& match calls.last() {
            Call::Put { .. } => true,
            Call::Get { hash, now } => earlier.entries.contains_key(hash) ==> !earlier.expired(
                earlier.entries[hash],
                now,
            ),
        }
    }
}

/// After any calls on an empty store there are no more entries than the
/// capacity, or one if it is zero. If no call found an entry expired, there are
/// as many as hashes were put, or as many as there may be if that is less.
pub proof fn law_entries_are_counted(state: CcrState, calls: Seq<Call>)
    requires
        state.order.len() == 0,
        state.entries == Map::<Seq<char>, StoredEntry>::empty(),
    ensures
        after_calls(state, calls).is_valid(),
        after_calls(state, calls).capacity == state.capacity,
        after_calls(state, calls).ttl == state.ttl,
        hashes_put(calls).finite(),
        after_calls(state, calls).entries.dom().subset_of(hashes_put(calls)),
        after_calls(state, calls).entries.dom().finite(),
        after_calls(state, calls).entries.dom().len() <= state.capacity || after_calls(
            state,
            calls,
        ).entries.dom().len() <= 1,
        nothing_expires(state, calls) ==> after_calls(state, calls).entries.dom().len() == if
            hashes_put(calls).len() <= state.capacity {
            hashes_put(calls).len()
        } else if state.capacity > 0 {
            state.capacity
        } else {
            1
        },
    decreases calls.len(),
{
    if calls.len() > 0 {
        let shorter = calls.drop_last();
        law_entries_are_counted(state, shorter);
        let earlier = after_calls(state, shorter);
        let put = hashes_put(shorter);
        match calls.last() {
            Call::Put { hash, payload, now } => {
                law_operations_keep_the_store_valid(earlier, hash, payload, now);
                let after = earlier.after_put(hash, payload, now);
                if earlier.entries.contains_key(hash) {
                    assert(after.entries.dom() =~= earlier.entries.dom());
                    assert(put.insert(hash) =~= put);
                } else {
                    lemma_room_takes_nothing_in(earlier);
                    lemma_room_keeps_in_step(earlier);
                    let roomy = earlier.with_room();
                    assert(after.entries.dom() =~= roomy.entries.dom().insert(hash));
                    assert forall|other: Seq<char>| #[trigger]
                        after.entries.dom().contains(other) implies put.insert(hash).contains(
                        other,
                    ) by {
                        if other != hash {
                            assert(roomy.entries.dom().contains(other));
                            assert(earlier.entries.dom().contains(other));
                        }
                    }
                    if nothing_expires(state, calls) {
                        if earlier.entries.dom().len() < earlier.capacity {
                            assert(roomy == earlier);
                            vstd::set_lib::lemma_subset_equality(earlier.entries.dom(), put);
                        } else if earlier.capacity > 0 {
                            law_the_oldest_entry_makes_room(earlier, hash, payload, now);
                            earlier.order.unique_seq_to_set();
                            assert(earlier.order.to_set().contains(earlier.order[0]));
                            let oldest = earlier.order[0];
                            assert(after.entries.dom() =~= earlier.entries.dom().remove(
                                oldest,
                            ).insert(hash));
                            vstd::set_lib::lemma_len_subset(earlier.entries.dom(), put);
                        } else {
                            vstd::set_lib::lemma_len_subset(after.entries.dom(), put.insert(hash));
                        }
                    }
                }
            },
            Call::Get { hash, now } => {
                law_operations_keep_the_store_valid(earlier, hash, hash, now);
                assert(after_calls(state, calls).entries.dom().subset_of(put));
            },
        }
    } else {
        assert(state.entries.dom() =~= Set::empty());
        assert(state.order.to_set() =~= Set::empty());
    }
}

/// What was put under a hash is what a request for it is answered after any
/// other calls, until its time is over: if none of them puts the hash, and the
/// hash is still held.
pub proof fn law_later_calls_leave_what_was_put(
    state: CcrState,
    hash: Seq<char>,
    payload: Seq<char>,
    stored: nat,
    calls: Seq<Call>,
    asked: nat,
)
    requires
        !hashes_put(calls).contains(hash),
        after_calls(state.after_put(hash, payload, stored), calls).entries.contains_key(hash),
    ensures
        ({
            let after = after_calls(state.after_put(hash, payload, stored), calls);
            &&& after.ttl == state.ttl
            &&& after.entries[hash] == (StoredEntry { payload, inserted: stored })
            &&& after.answer(hash, asked) == if asked <= stored + state.ttl {
                Some(payload)
            } else {
                None
            }
        }),
    decreases calls.len(),
{
    if calls.len() > 0 {
        let shorter = calls.drop_last();
        let earlier = after_calls(state.after_put(hash, payload, stored), shorter);
        lemma_room_takes_nothing_in(earlier);
        law_later_calls_leave_what_was_put(state, hash, payload, stored, shorter, asked);
    }
}

/// Whether no call asks for `hash` after `end`.
pub open spec fn asks_by(calls: Seq<Call>, hash: Seq<char>, end: nat) -> bool {
    forall|i: int|
        0 <= i < calls.len() ==> match #[trigger] calls[i] {
            Call::Put { .. } => true,
            Call::Get { hash: asked, now } => asked == hash ==> now <= end,
        }
}

/// What was put under a hash is still held after any other calls, and so is
/// given back, if there was room for all that they put, and none of them asks
/// for the hash after its time.
pub proof fn law_what_was_put_is_held_while_there_is_room(
    state: CcrState,
    hash: Seq<char>,
    payload: Seq<char>,
    stored: nat,
    calls: Seq<Call>,
    asked: nat,
)
    requires
        state.entries.dom().finite(),
        state.entries.dom().insert(hash).union(hashes_put(calls)).len() <= state.capacity,
        !hashes_put(calls).contains(hash),
        asks_by(calls, hash, stored + state.ttl),
        asked <= stored + state.ttl,
    ensures
        after_calls(state.after_put(hash, payload, stored), calls).entries.contains_key(hash),
        after_calls(state.after_put(hash, payload, stored), calls).answer(hash, asked) == Some(
            payload,
        ),
{
    let all = state.entries.dom().insert(hash).union(hashes_put(calls));
    lemma_puts_are_finite(calls);
    lemma_room_for_all(state, hash, payload, stored, calls, all);
    law_later_calls_leave_what_was_put(state, hash, payload, stored, calls, asked);
}

proof fn lemma_puts_are_finite(calls: Seq<Call>)
    ensures
        hashes_put(calls).finite(),
    decreases calls.len(),
{
    if calls.len() > 0 {
        lemma_puts_are_finite(calls.drop_last());
    }
}

proof fn lemma_put_stays_within(
    state: CcrState,
    hash: Seq<char>,
    payload: Seq<char>,
    now: nat,
    all: Set<Seq<char>>,
)
    requires
        all.finite(),
        all.len() <= state.capacity,
        all.contains(hash),
        state.entries.dom().subset_of(all),
    ensures
        state.after_put(hash, payload, now).entries.dom() == state.entries.dom().insert(hash),
        state.after_put(hash, payload, now).capacity == state.capacity,
{
    if !state.entries.contains_key(hash) {
        assert(state.entries.dom().insert(hash).subset_of(all));
        vstd::set_lib::lemma_len_subset(state.entries.dom().insert(hash), all);
    }
    assert(state.after_put(hash, payload, now).entries.dom() =~= state.entries.dom().insert(hash));
}

proof fn lemma_room_for_all(
    state: CcrState,
    hash: Seq<char>,
    payload: Seq<char>,
    stored: nat,
    calls: Seq<Call>,
    all: Set<Seq<char>>,
)
    requires
        all.finite(),
        all.len() <= state.capacity,
        all.contains(hash),
        state.entries.dom().subset_of(all),
        hashes_put(calls).subset_of(all),
        !hashes_put(calls).contains(hash),
        asks_by(calls, hash, stored + state.ttl),
    ensures
        ({
            let after = after_calls(state.after_put(hash, payload, stored), calls);
            &&& after.entries.contains_key(hash)
            &&& after.entries.dom().subset_of(all)
            &&& after.capacity == state.capacity
        }),
    decreases calls.len(),
{
    let put = state.after_put(hash, payload, stored);
    if calls.len() == 0 {
        lemma_put_stays_within(state, hash, payload, stored, all);
    } else {
        let shorter = calls.drop_last();
        assert forall|i: int| 0 <= i < shorter.len() implies match #[trigger] shorter[i] {
            Call::Put { .. } => true,
            Call::Get { hash: asked, now } => asked == hash ==> now <= stored + state.ttl,
        } by {
            assert(shorter[i] == calls[i]);
        }
        lemma_room_for_all(state, hash, payload, stored, shorter, all);
        let earlier = after_calls(put, shorter);
        match calls.last() {
            Call::Put { hash: other, payload: more, now } => {
                assert(hashes_put(calls).contains(other));
                lemma_put_stays_within(earlier, other, more, now, all);
                assert(earlier.entries.dom().contains(hash));
                assert(earlier.after_put(other, more, now).entries.dom().contains(hash));
            },
            Call::Get { hash: asked, now } => {
                law_later_calls_leave_what_was_put(state, hash, payload, stored, shorter, 0);
                assert(calls[calls.len() - 1] == calls.last());
            },
        }
    }
}

/// A request touches the entry under its hash alone: every other entry stays,
/// and the others keep their order. It drops that entry exactly if it is past
/// its time.
pub proof fn law_a_request_touches_its_hash_alone(
    state: CcrState,
    hash: Seq<char>,
    now: nat,
    other: Seq<char>,
)
    requires
        other != hash,
    ensures
        ({
            let after = state.after_get(hash, now);
            &&& after.entries.contains_key(other) == state.entries.contains_key(other)
            &&& state.entries.contains_key(other) ==> after.entries[other] == state.entries[other]
            &&& after.entries.contains_key(hash) <==> state.entries.contains_key(hash) && now
                <= state.entries[hash].inserted + state.ttl
            &&& after.entries.contains_key(hash) ==> after == state
            &&& forall|i: int|
                0 <= i < state.order.len() && state.order[i] == hash && (forall|j: int|
                    0 <= j < i ==> state.order[j] != hash) && state.entries.contains_key(hash)
                    && !after.entries.contains_key(hash) ==> {
                    &&& after.order.len() == state.order.len() - 1
                    &&& forall|j: int| 0 <= j < i ==> after.order[j] == state.order[j]
                    &&& forall|j: int|
                        i <= j < after.order.len() ==> after.order[j] == #[trigger] state.order[j
                            + 1]
                }
            &&& !state.entries.contains_key(hash) ==> after == state
            &&& after.capacity == state.capacity
            &&& after.ttl == state.ttl
        }),
{
    let order = state.order;
    assert forall|i: int|
        0 <= i < order.len() && order[i] == hash && (forall|j: int| 0 <= j < i ==> order[j] != hash)
        implies order.remove_value(hash) == order.remove(i) by {
        order.index_of_first_ensures(hash);
        assert(order.contains(hash));
    }
}

/// A payload that is stored under a new hash while there is room is added: the
/// hash comes last, and nothing else changes.
pub proof fn law_a_new_entry_comes_last(
    state: CcrState,
    hash: Seq<char>,
    payload: Seq<char>,
    now: nat,
)
    requires
        !state.entries.contains_key(hash),
        state.entries.dom().len() < state.capacity,
    ensures
        state.after_put(hash, payload, now) == (CcrState {
            entries: state.entries.insert(hash, StoredEntry { payload, inserted: now }),
            order: state.order.push(hash),
            ..state
        }),
{
}

/// The time of a call is the whole number of nanoseconds that the clock shows
/// since the store was made, however long that is.
pub proof fn law_times_are_read_from_the_clock(store: InMemoryCcrStore, elapsed: Duration, now: nat)
    ensures
        call_ensures(Instant::elapsed, (&store.start(),), elapsed) ==> store.may_read(
            duration_nanos(elapsed),
        ),
        store.may_read(now) ==> exists|shown: Duration|
            {
                &&& #[trigger] call_ensures(Instant::elapsed, (&store.start(),), shown)
                &&& now == duration_nanos(shown)
            },
{
}

} // verus!
