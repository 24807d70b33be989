//! The cache itself: a keyed store and a recency queue that never part.
use crate::keys::{copy_key, key_model, same_key};
use crate::model::CacheModel;
use crate::time::{clock_millis, is_stale, stale};
use std::collections::{BTreeMap, VecDeque};
use vstd::prelude::*;
use vstd::std_specs::vecdeque::VecDequeAdditionalSpecFns;

verus! {

/// A cache that forgets the least recently used entry when it is full, and
/// any entry that nobody touched for longer than the time to live.
pub struct LruCache<Key, Value> {
    pub(crate) map: BTreeMap<Key, (Value, u64)>,
    pub(crate) list: VecDeque<Key>,
    pub(crate) capacity: usize,
    pub(crate) time_to_live: Option<u64>,
}

impl<Key, Value> View for LruCache<Key, Value> {
    type V = CacheModel<Key, Value>;

    open(crate) spec fn view(&self) -> CacheModel<Key, Value> {
        CacheModel {
            order: self.list@,
            entries: self.map@,
            capacity: self.capacity,
            ttl: self.time_to_live,
        }
    }
}

impl<Key: Ord + Clone, Value: Clone> Clone for LruCache<Key, Value> {
    /// A cache of its own with the same policy, the same queue and the same
    /// touch times, whose values are clones of the values here.
    fn clone(&self) -> (copy: Self)
        ensures
            key_model::<Key>() ==> {
                &&& copy@.order == self@.order
                &&& copy@.capacity == self@.capacity
                &&& copy@.ttl == self@.ttl
                &&& copy@.entries.dom() == self@.entries.dom()
                &&& forall|key: Key| #[trigger]
                    self@.entries.contains_key(key) ==> copy@.entries[key].1
                        == self@.entries[key].1 && cloned(
                        self@.entries[key].0,
                        copy@.entries[key].0,
                    )
                &&& self@.wf() ==> copy@.wf()
            },
    {
        let copy = LruCache {
            map: self.map.clone(),
            list: self.list.clone(),
            capacity: self.capacity,
            time_to_live: self.time_to_live,
        };
        proof {
            if key_model::<Key>() {
                assert forall|i: int| 0 <= i < self.list@.len() implies self.list@[i]
                    == copy.list@[i] by {
                    assert(cloned(self.list[i], copy.list[i]));
                }
                assert(copy.list@ =~= self.list@);
            }
        }
        copy
    }
}

/// The entry under `key`, open for writing, from `BTreeMap::get_mut`. For keys
/// that behave as keys must: the entry is the one that the map holds under
/// `key`, and once the borrow ends the map holds under `key` what was left in
/// the entry, and is otherwise as it was; where the map holds no such key
/// there is no entry and the map is as it was.
#[verifier::external_body]
pub(crate) fn entry_mut<'a, Key: Ord + Clone, Value>(
    map: &'a mut BTreeMap<Key, (Value, u64)>,
    key: &Key,
) -> (slot: Option<&'a mut (Value, u64)>)
    ensures
        key_model::<Key>() ==> match slot {
            Some(entry) => {
                &&& old(map)@.contains_key(*key)
                &&& *entry == old(map)@[*key]
                &&& final(map)@ == old(map)@.insert(*key, *final(entry))
            },
            None => {
                &&& !old(map)@.contains_key(*key)
                &&& final(map)@ == old(map)@
            },
        },
{
    map.get_mut(key)
}

impl<Key: Ord + Clone, Value> LruCache<Key, Value> {
    /// The key type behaves as keys must, and the cache is well formed.
    pub open spec fn wf(&self) -> bool {
        &&& key_model::<Key>()
        &&& self@.wf()
    }

    /// An empty cache that holds at most `capacity` entries, of any age.
    pub fn with_capacity(capacity: usize) -> (cache: LruCache<Key, Value>)
        requires
            key_model::<Key>(),
        ensures
            cache.wf(),
            cache@.order == Seq::<Key>::empty(),
            cache@.entries == Map::<Key, (Value, u64)>::empty(),
            cache@.capacity == capacity,
            cache@.ttl == None::<u64>,
    {
        let cache = LruCache {
            map: BTreeMap::new(),
            list: VecDeque::new(),
            capacity,
            time_to_live: None,
        };
        assert(cache@.order.to_set() =~= cache@.entries.dom());
        cache
    }

    /// An empty cache of unbounded size whose entries live for
    /// `time_to_live` milliseconds after their last touch.
    pub fn with_expiry_duration(time_to_live: u64) -> (cache: LruCache<Key, Value>)
        requires
            key_model::<Key>(),
        ensures
            cache.wf(),
            cache@.order == Seq::<Key>::empty(),
            cache@.entries == Map::<Key, (Value, u64)>::empty(),
            cache@.capacity == usize::MAX,
            cache@.ttl == Some(time_to_live),
    {
        let cache = LruCache {
            map: BTreeMap::new(),
            list: VecDeque::new(),
            capacity: usize::MAX,
            time_to_live: Some(time_to_live),
        };
        assert(cache@.order.to_set() =~= cache@.entries.dom());
        cache
    }

    /// An empty cache that holds at most `capacity` entries, each for
    /// `time_to_live` milliseconds after its last touch.
    pub fn with_expiry_duration_and_capacity(time_to_live: u64, capacity: usize) -> (cache:
        LruCache<Key, Value>)
        requires
            key_model::<Key>(),
        ensures
            cache.wf(),
            cache@.order == Seq::<Key>::empty(),
            cache@.entries == Map::<Key, (Value, u64)>::empty(),
            cache@.capacity == capacity,
            cache@.ttl == Some(time_to_live),
    {
        let cache = LruCache {
            map: BTreeMap::new(),
            list: VecDeque::new(),
            capacity,
            time_to_live: Some(time_to_live),
        };
        assert(cache@.order.to_set() =~= cache@.entries.dom());
        cache
    }

    /// The sweep: drops the stale entries at the front of the queue and hands
    /// them back, oldest first. It stops at the first entry that is not stale.
    pub fn remove_expired(&mut self, now: u64) -> (expired: Vec<(Key, Value)>)
        requires
            old(self).wf(),
        ensures
            final(self).wf(),
            final(self)@ == old(self)@.swept(now),
            expired@ == old(self)@.expired(now),
    {
        let ghost before = self@;
        let ghost mut n: int = 0;
        let mut expired: Vec<(Key, Value)> = Vec::new();
        proof {
            before.lemma_drop_none();
            before.lemma_drop_front(0);
            assert(expired@ =~= before.front_pairs(0));
        }
        loop
            invariant
                key_model::<Key>(),
                before.wf(),
                0 <= n <= before.order.len(),
                self@ == before.drop_front(n),
                expired@ == before.front_pairs(n),
                forall|i: int| 0 <= i < n ==> before.stale_at(i, now),
            ensures
                n == before.stale_count(now),
            decreases before.order.len() - n,
        {
            proof {
                before.lemma_drop_front(n);
            }
            if self.list.len() == 0 {
                proof {
                    before.lemma_stale_run_is(0, n, now);
                }
                break ;
            }
            assert(self.list@[0] == before.order[n + 0]);
            assert(self@.entries.contains_key(before.order[n]));
            let front_is_stale = match self.map.get(&self.list[0]) {
                Some(entry) => is_stale(entry.1, self.time_to_live, now),
                None => false,
            };
            if !front_is_stale {
                proof {
                    before.lemma_stale_run_is(0, n, now);
                }
                break ;
            }
            proof {
                before.lemma_drop_one_more(n);
            }
            if let Some(key) = self.list.pop_front() {
                assert(self.list@ =~= before.drop_front(n).order.skip(1));
                if let Some(entry) = self.map.remove(&key) {
                    expired.push((key, entry.0));
                }
            }
            proof {
                n = n + 1;
                assert(self@ =~= before.drop_front(n));
            }
        }
        proof {
            before.lemma_drop_front(n);
        }
        expired
    }

    /// Where `key` stands in a queue, if it stands there at all.
    fn position(list: &VecDeque<Key>, key: &Key) -> (found: Option<usize>)
        requires
            key_model::<Key>(),
        ensures
            match found {
                Some(at) => at < list@.len() && list@[at as int] == *key,
                None => !list@.contains(*key),
            },
    {
        let mut at: usize = 0;
        while at < list.len()
            invariant
                key_model::<Key>(),
                at <= list@.len(),
                forall|i: int| 0 <= i < at ==> list@[i] != *key,
            decreases list@.len() - at,
        {
            if same_key(&list[at], key) {
                return Some(at);
            }
            at = at + 1;
        }
        None
    }

    /// Moves `key` to the back of a queue that holds it.
    fn update_key(list: &mut VecDeque<Key>, key: &Key)
        requires
            key_model::<Key>(),
            old(list)@.no_duplicates(),
        ensures
            old(list)@.contains(*key) ==> final(list)@ == old(list)@.remove(
                old(list)@.index_of(*key),
            ).push(*key),
            !old(list)@.contains(*key) ==> final(list)@ == old(list)@,
    {
        if let Some(at) = Self::position(list, key) {
            proof {
                list@.index_of_first_ensures(*key);
            }
            if let Some(moved) = list.remove(at) {
                list.push_back(moved);
            }
        }
    }

    /// The capacity sweep: drops least recently used entries until one more
    /// key fits.
    fn remove_lru(&mut self)
        requires
            old(self).wf(),
        ensures
            final(self).wf(),
            final(self)@ == old(self)@.with_room(),
    {
        let ghost before = self@;
        let ghost mut n: int = 0;
        proof {
            before.lemma_drop_none();
        }
        while self.list.len() >= self.capacity && self.list.len() > 0
            invariant
                key_model::<Key>(),
                before.wf(),
                0 <= n <= before.excess() <= before.order.len(),
                self@ == before.drop_front(n),
                self.list@.len() == before.order.len() - n,
            decreases self.list@.len(),
        {
            proof {
                before.lemma_drop_front(n);
                before.lemma_drop_one_more(n);
            }
            if let Some(key) = self.list.pop_front() {
                assert(self.list@ =~= before.drop_front(n).order.skip(1));
                let _ = self.map.remove(&key);
            }
            proof {
                n = n + 1;
                assert(self@ =~= before.drop_front(n));
            }
        }
        proof {
            before.lemma_drop_front(n);
            before.lemma_with_room();
        }
    }

    /// Inserts at the time `now`: sweeps, then touches the key if the cache
    /// holds it, or makes room and takes it in at the back. Returns the value
    /// that the key had, and what the sweep dropped. A lookup of the key at
    /// any later time at which the new entry is not stale finds the value.
    pub fn do_notify_insert(&mut self, key: Key, value: Value, now: u64) -> (result: (
        Option<Value>,
        Vec<(Key, Value)>,
    ))
        requires
            old(self).wf(),
        ensures
            final(self).wf(),
            final(self)@ == old(self)@.inserted(key, value, now),
            result.0 == old(self)@.held(key, now),
            result.1@ == old(self)@.expired(now),
            forall|later: u64|
                !stale(now, old(self)@.ttl, later) ==> #[trigger] final(self)@.held(key, later)
                    == Some(value),
    {
        proof {
            assert forall|later: u64| !stale(now, self@.ttl, later) implies #[trigger] self@.inserted(
                key,
                value,
                now,
            ).held(key, later) == Some(value) by {
                self@.lemma_insert_then_get(key, value, now, later);
            }
        }
        let expired = self.remove_expired(now);
        let ghost swept = self@;
        proof {
            swept.lemma_put_wf(key, value, now);
        }
        if self.map.contains_key(&key) {
            Self::update_key(&mut self.list, &key);
        } else {
            self.remove_lru();
            self.list.push_back(copy_key(&key));
        }
        let previous = match self.map.insert(key, (value, now)) {
            Some(pair) => Some(pair.0),
            None => None,
        };
        proof {
            assert(self@ =~= swept.put(key, value, now));
        }
        (previous, expired)
    }

    /// Removes `key` and returns its value, stale or not. Nothing is swept.
    pub fn remove(&mut self, key: &Key) -> (value: Option<Value>)
        requires
            old(self).wf(),
        ensures
            final(self).wf(),
            final(self)@ == old(self)@.removed(*key),
            value == old(self)@.value_of(*key),
    {
        let ghost before = self@;
        proof {
            before.lemma_removed_wf(*key);
            assert(before.order.to_set().contains(*key) == before.entries.contains_key(*key));
        }
        match self.map.remove(key) {
            Some(pair) => {
                if let Some(at) = Self::position(&self.list, key) {
                    proof {
                        before.lemma_position(at as int);
                    }
                    let _ = self.list.remove(at);
                }
                assert(self@ =~= before.removed(*key));
                Some(pair.0)
            },
            None => {
                assert(self@ =~= before.removed(*key));
                None
            },
        }
    }

    /// Empties the cache.
    pub fn clear(&mut self)
        ensures
            final(self)@ == old(self)@.cleared(),
            final(self)@.wf(),
    {
        self.map.clear();
        self.list.clear();
        assert(self@.order.to_set() =~= self@.entries.dom());
    }

    /// Looks at `key` at the time `now` without touching anything: the value,
    /// unless the key is absent or its entry is stale.
    pub fn do_peek(&self, key: &Key, now: u64) -> (value: Option<&Value>)
        requires
            self.wf(),
        ensures
            match value {
                Some(v) => self@.peeked(*key, now) == Some(*v),
                None => self@.peeked(*key, now).is_none(),
            },
    {
        match self.map.get(key) {
            Some(entry) => {
                if is_stale(entry.1, self.time_to_live, now) {
                    None
                } else {
                    Some(&entry.0)
                }
            },
            None => None,
        }
    }

    /// How many entries count at the time `now`: all but the stale run at the
    /// front of the queue. Nothing is swept.
    pub fn do_len(&self, now: u64) -> (len: usize)
        requires
            self.wf(),
        ensures
            len == self@.live_len(now),
    {
        let mut at: usize = 0;
        loop
            invariant
                key_model::<Key>(),
                self@.wf(),
                at <= self.list@.len(),
                forall|i: int| 0 <= i < at ==> self@.stale_at(i, now),
            ensures
                at <= self.list@.len(),
                at == self@.stale_count(now),
            decreases self.list@.len() - at,
        {
            if at >= self.list.len() {
                proof {
                    self@.lemma_stale_run_is(0, at as int, now);
                }
                break ;
            }
            assert(self@.order.to_set().contains(self@.order[at as int]));
            let stale_here = match self.map.get(&self.list[at]) {
                Some(entry) => is_stale(entry.1, self.time_to_live, now),
                None => false,
            };
            if !stale_here {
                proof {
                    self@.lemma_stale_run_is(0, at as int, now);
                }
                break ;
            }
            at = at + 1;
        }
        self.list.len() - at
    }

    /// Whether nothing counts at the time `now`: the cache holds nothing, or
    /// even its most recently touched entry is stale. Nothing is swept.
    pub fn do_is_empty(&self, now: u64) -> (empty: bool)
        requires
            self.wf(),
        ensures
            empty == self@.none_live(now),
    {
        let len = self.list.len();
        if len == 0 {
            true
        } else {
            assert(self@.order.to_set().contains(self@.order[len - 1]));
            match self.map.get(&self.list[len - 1]) {
                Some(entry) => is_stale(entry.1, self.time_to_live, now),
                None => true,
            }
        }
    }

    /// Looks `key` up at the time `now`: sweeps, then on a hit touches the
    /// entry and hands out its value for writing. Returns also what the sweep
    /// dropped.
    pub fn do_notify_get_mut(&mut self, key: &Key, now: u64) -> (result: (
        Option<&mut Value>,
        Vec<(Key, Value)>,
    ))
        requires
            old(self).wf(),
        ensures
            final(self).wf(),
            result.1@ == old(self)@.expired(now),
            match result.0 {
                Some(value) => {
                    &&& old(self)@.held(*key, now) == Some(*value)
                    &&& final(self)@ == old(self)@.fetched(*key, now).with_value(
                        *key,
                        *final(value),
                    )
                },
                None => {
                    &&& old(self)@.held(*key, now).is_none()
                    &&& final(self)@ == old(self)@.fetched(*key, now)
                },
            },
    {
        let expired = self.remove_expired(now);
        let ghost swept = self@;
        if self.map.contains_key(key) {
            Self::update_key(&mut self.list, key);
            proof {
                swept.lemma_touch_wf(*key, now);
            }
        }
        let slot = match entry_mut(&mut self.map, key) {
            Some(entry) => {
                entry.1 = now;
                Some(&mut entry.0)
            },
            None => None,
        };
        (slot, expired)
    }

    /// Inserts at the clock's time and returns the value that the key had,
    /// with what the sweep dropped, oldest first.
    pub fn notify_insert(&mut self, key: Key, value: Value) -> (result: (
        Option<Value>,
        Vec<(Key, Value)>,
    ))
        requires
            old(self).wf(),
        ensures
            final(self).wf(),
            exists|now: u64|
                {
                    &&& final(self)@ == #[trigger] old(self)@.inserted(key, value, now)
                    &&& result.0 == old(self)@.held(key, now)
                    &&& result.1@ == old(self)@.expired(now)
                    &&& forall|later: u64|
                        !stale(now, old(self)@.ttl, later) ==> #[trigger] final(self)@.held(
                            key,
                            later,
                        ) == Some(value)
                },
    {
        let now = clock_millis();
        self.do_notify_insert(key, value, now)
    }

    /// Inserts at the clock's time and returns the value that the key had.
    pub fn insert(&mut self, key: Key, value: Value) -> (previous: Option<Value>)
        requires
            old(self).wf(),
        ensures
            final(self).wf(),
            exists|now: u64|
                {
                    &&& final(self)@ == #[trigger] old(self)@.inserted(key, value, now)
                    &&& previous == old(self)@.held(key, now)
                    &&& forall|later: u64|
                        !stale(now, old(self)@.ttl, later) ==> #[trigger] final(self)@.held(
                            key,
                            later,
                        ) == Some(value)
                },
    {
        let now = clock_millis();
        self.do_notify_insert(key, value, now).0
    }

    /// Looks `key` up at the clock's time, for writing, and returns also what
    /// the sweep dropped.
    pub fn notify_get_mut(&mut self, key: &Key) -> (result: (
        Option<&mut Value>,
        Vec<(Key, Value)>,
    ))
        requires
            old(self).wf(),
        ensures
            final(self).wf(),
            exists|now: u64|
                {
                    &&& result.1@ == #[trigger] old(self)@.expired(now)
                    &&& match result.0 {
                        Some(value) => {
                            &&& old(self)@.held(*key, now) == Some(*value)
                            &&& final(self)@ == old(self)@.fetched(*key, now).with_value(
                                *key,
                                *final(value),
                            )
                        },
                        None => {
                            &&& old(self)@.held(*key, now).is_none()
                            &&& final(self)@ == old(self)@.fetched(*key, now)
                        },
                    }
                },
    {
        let now = clock_millis();
        self.do_notify_get_mut(key, now)
    }

    /// Looks `key` up at the clock's time, for writing.
    pub fn get_mut(&mut self, key: &Key) -> (found: Option<&mut Value>)
        requires
            old(self).wf(),
        ensures
            final(self).wf(),
            exists|now: u64|
                match found {
                    Some(value) => {
                        &&& #[trigger] old(self)@.held(*key, now) == Some(*value)
                        &&& final(self)@ == old(self)@.fetched(*key, now).with_value(
                            *key,
                            *final(value),
                        )
                    },
                    None => {
                        &&& old(self)@.held(*key, now).is_none()
                        &&& final(self)@ == old(self)@.fetched(*key, now)
                    },
                },
    {
        let now = clock_millis();
        self.do_notify_get_mut(key, now).0
    }

    /// Looks `key` up at the clock's time and returns also what the sweep
    /// dropped.
    pub fn notify_get(&mut self, key: &Key) -> (result: (Option<&Value>, Vec<(Key, Value)>))
        requires
            old(self).wf(),
        ensures
            final(self).wf(),
            exists|now: u64|
                {
                    &&& final(self)@ == #[trigger] old(self)@.fetched(*key, now)
                    &&& result.1@ == old(self)@.expired(now)
                    &&& match result.0 {
                        Some(value) => old(self)@.held(*key, now) == Some(*value),
                        None => old(self)@.held(*key, now).is_none(),
                    }
                },
    {
        let now = clock_millis();
        let ghost before = self@;
        let (found, expired) = self.do_notify_get_mut(key, now);
        match found {
            Some(value) => {
                proof {
                    let hit = before.fetched(*key, now);
                    assert(hit.with_value(*key, *value) =~= hit);
                }
                (Some(&*value), expired)
            },
            None => (None, expired),
        }
    }

    /// Looks `key` up at the clock's time: sweeps, and on a hit touches the
    /// entry and returns its value.
    pub fn get(&mut self, key: &Key) -> (found: Option<&Value>)
        requires
            old(self).wf(),
        ensures
            final(self).wf(),
            exists|now: u64|
                {
                    &&& final(self)@ == #[trigger] old(self)@.fetched(*key, now)
                    &&& match found {
                        Some(value) => old(self)@.held(*key, now) == Some(*value),
                        None => old(self)@.held(*key, now).is_none(),
                    }
                },
    {
        self.notify_get(key).0
    }

    /// Looks at `key` at the clock's time, touching and sweeping nothing.
    pub fn peek(&self, key: &Key) -> (value: Option<&Value>)
        requires
            self.wf(),
        ensures
            exists|now: u64|
                match value {
                    Some(v) => #[trigger] self@.peeked(*key, now) == Some(*v),
                    None => self@.peeked(*key, now).is_none(),
                },
    {
        let now = clock_millis();
        self.do_peek(key, now)
    }

    /// Whether a look at `key` at the clock's time shows a value.
    pub fn contains_key(&self, key: &Key) -> (held: bool)
        requires
            self.wf(),
        ensures
            exists|now: u64| held == #[trigger] self@.peeked(*key, now).is_some(),
    {
        let now = clock_millis();
        self.do_peek(key, now).is_some()
    }

    /// How many entries count at the clock's time.
    pub fn len(&self) -> (len: usize)
        requires
            self.wf(),
        ensures
            exists|now: u64| len == #[trigger] self@.live_len(now),
    {
        let now = clock_millis();
        self.do_len(now)
    }

    /// Whether nothing counts at the clock's time.
    pub fn is_empty(&self) -> (empty: bool)
        requires
            self.wf(),
        ensures
            exists|now: u64| empty == #[trigger] self@.none_live(now),
    {
        let now = clock_millis();
        self.do_is_empty(now)
    }

    /// How many entries the cache may hold.
    pub fn capacity(&self) -> (capacity: usize)
        ensures
            capacity == self@.capacity,
    {
        self.capacity
    }

    /// How long an untouched entry lives, in milliseconds, if it ever dies.
    pub fn time_to_live(&self) -> (ttl: Option<u64>)
        ensures
            ttl == self@.ttl,
    {
        self.time_to_live
    }

    /// How many entries the cache holds, stale ones included.
    pub fn stored_len(&self) -> (len: usize)
        ensures
            len == self@.order.len(),
    {
        self.list.len()
    }

    /// The key at position `at` of the recency queue, where 0 is the least
    /// recently touched.
    pub fn key_at(&self, at: usize) -> (key: Option<&Key>)
        ensures
            match key {
                Some(k) => at < self@.order.len() && *k == self@.order[at as int],
                None => at >= self@.order.len(),
            },
    {
        if at < self.list.len() {
            Some(&self.list[at])
        } else {
            None
        }
    }

    /// The value held under `key`, stale or not. Nothing is touched or swept.
    pub fn stored(&self, key: &Key) -> (value: Option<&Value>)
        requires
            self.wf(),
        ensures
            match value {
                Some(v) => self@.value_of(*key) == Some(*v),
                None => self@.value_of(*key).is_none(),
            },
    {
        match self.map.get(key) {
            Some(entry) => Some(&entry.0),
            None => None,
        }
    }

    /// When the entry under `key` was last touched, if the cache holds one.
    pub fn touched_at(&self, key: &Key) -> (touched: Option<u64>)
        requires
            self.wf(),
        ensures
            touched == if self@.entries.contains_key(*key) {
                Some(self@.entries[*key].1)
            } else {
                None
            },
    {
        match self.map.get(key) {
            Some(entry) => Some(entry.1),
            None => None,
        }
    }
}

} // verus!
