//! Walks through a cache, from the most recently used entry to the least.
use crate::cache::{entry_mut, LruCache};
use crate::keys::key_model;
use crate::model::lemma_unlink;
use crate::time::{clock_millis, is_stale};
use vstd::prelude::*;

verus! {

/// A walk that touches each entry it yields and drops, without a word, each
/// entry that is stale.
pub struct Iter<'a, Key, Value> {
    /// The cache that is walked.
    pub cache: &'a mut LruCache<Key, Value>,
    /// The position in the queue just above the next entry to visit. A step
    /// from a position beyond the queue yields nothing.
    pub item_index: usize,
}

impl<'a, Key: Ord + Clone, Value> Iter<'a, Key, Value> {
    /// The cache is well formed and the walk stands within its queue.
    pub open spec fn wf(&self) -> bool {
        &&& self.cache.wf()
        &&& self.item_index <= self.cache@.order.len()
    }

    /// A walk that starts above the most recently used entry of `cache`.
    pub fn new(cache: &'a mut LruCache<Key, Value>) -> (walk: Self)
        requires
            old(cache).wf(),
        ensures
            walk.wf(),
            *walk.cache == *old(cache),
            *final(walk.cache) == *final(cache),
            walk.item_index == old(cache)@.order.len(),
    {
        let item_index = cache.list.len();
        Iter { cache, item_index }
    }

    /// Walks down to the next entry that is not stale at `now`, dropping
    /// the stale ones on the way, and takes its key out of the queue. The
    /// caller puts the key back.
    fn next_unexpired(&mut self, now: u64) -> (found: Option<Key>)
        requires
            old(self).wf(),
        ensures
            *final(final(self).cache) == *final(old(self).cache),
            final(self).cache.capacity == old(self).cache.capacity,
            final(self).cache.time_to_live == old(self).cache.time_to_live,
            final(self).item_index == old(self).cache@.walk_cursor(
                old(self).item_index as int,
                now,
            ),
            ({
                let before = old(self).cache@;
                let cursor = old(self).item_index as int;
                let stop = before.walk_stop(cursor, now);
                let rest = before.without_span(stop, cursor);
                match found {
                    Some(key) => {
                        &&& stop > 0
                        &&& key == before.order[stop - 1]
                        &&& final(self).cache.list@ == rest.order.remove(stop - 1)
                        &&& final(self).cache.map@ == rest.entries
                    },
                    None => {
                        &&& stop == 0
                        &&& final(self).cache@ == rest
                    },
                }
            }),
    {
        let ghost before = self.cache@;
        let ghost cursor = self.item_index as int;
        proof {
            before.lemma_span_none(cursor);
        }
        loop
            invariant
                key_model::<Key>(),
                before == old(self).cache@,
                cursor == old(self).item_index as int,
                before.wf(),
                0 <= self.item_index <= cursor <= before.order.len(),
                self.cache@ == before.without_span(self.item_index as int, cursor),
                forall|i: int| self.item_index <= i < cursor ==> before.stale_at(i, now),
                *final(self.cache) == *final(old(self).cache),
                self.cache.capacity == old(self).cache.capacity,
                self.cache.time_to_live == old(self).cache.time_to_live,
            decreases self.item_index,
        {
            let ghost lo = self.item_index as int;
            proof {
                before.lemma_without_span(lo, cursor);
            }
            if self.item_index == 0 {
                proof {
                    before.lemma_stale_below_is(0, cursor, now);
                }
                return None;
            }
            self.item_index = self.item_index - 1;
            let key = match self.cache.list.remove(self.item_index) {
                Some(key) => key,
                None => return None,
            };
            assert(key == before.order[lo - 1]);
            let entry = match self.cache.map.get(&key) {
                Some(entry) => entry,
                None => return None,
            };
            if !is_stale(entry.1, self.cache.time_to_live, now) {
                proof {
                    before.lemma_stale_below_is(lo, cursor, now);
                }
                return Some(key);
            }
            let _ = self.cache.map.remove(&key);
            proof {
                before.lemma_span_one_more(lo, cursor);
                assert(self.cache@ =~= before.without_span(lo - 1, cursor));
            }
        }
    }

    /// One step of the walk at the time `now`: drops the stale entries in
    /// the way, then touches the next entry and yields it.
    pub fn do_next(&mut self, now: u64) -> (found: Option<(&Key, &Value)>)
        requires
            old(self).wf(),
        ensures
            final(self).wf(),
            *final(final(self).cache) == *final(old(self).cache),
            final(self).cache@ == old(self).cache@.walked(old(self).item_index as int, now),
            final(self).item_index == old(self).cache@.walk_cursor(
                old(self).item_index as int,
                now,
            ),
            match found {
                Some((key, value)) => old(self).cache@.walk_yield(
                    old(self).item_index as int,
                    now,
                ) == Some((*key, *value)),
                None => old(self).cache@.walk_yield(old(self).item_index as int, now).is_none(),
            },
    {
        let ghost before = self.cache@;
        let ghost cursor = self.item_index as int;
        let ghost stop = before.walk_stop(cursor, now);
        let ghost rest = before.without_span(stop, cursor);
        proof {
            before.lemma_stale_below_ends(cursor, now);
            before.lemma_without_span(stop, cursor);
        }
        let key = match self.next_unexpired(now) {
            Some(key) => key,
            None => {
                return None;
            },
        };
        proof {
            rest.lemma_position(stop - 1);
            rest.lemma_touch_wf(key, now);
        }
        self.cache.list.push_back(key);
        let last = self.cache.list.len() - 1;
        let key = &self.cache.list[last];
        let ghost queue = self.cache.list@;
        let ghost store = self.cache.map@;
        let entry = match entry_mut(&mut self.cache.map, key) {
            Some(entry) => entry,
            None => return None,
        };
        entry.1 = now;
        proof {
            assert(queue =~= rest.touch(*key, now).order);
            assert(store.insert(*key, *entry) =~= rest.touch(*key, now).entries);
        }
        Some((key, &entry.0))
    }

    /// One step of the walk at the clock's time.
    pub fn next(&mut self) -> (found: Option<(&Key, &Value)>)
        requires
            old(self).wf(),
        ensures
            final(self).wf(),
            *final(final(self).cache) == *final(old(self).cache),
            exists|now: u64|
                {
                    &&& final(self).cache@ == #[trigger] old(self).cache@.walked(
                        old(self).item_index as int,
                        now,
                    )
                    &&& final(self).item_index == old(self).cache@.walk_cursor(
                        old(self).item_index as int,
                        now,
                    )
                    &&& match found {
                        Some((key, value)) => old(self).cache@.walk_yield(
                            old(self).item_index as int,
                            now,
                        ) == Some((*key, *value)),
                        None => old(self).cache@.walk_yield(
                            old(self).item_index as int,
                            now,
                        ).is_none(),
                    }
                },
    {
        let now = clock_millis();
        self.do_next(now)
    }
}

/// What a walk that reports stale entries yields.
pub enum TimedEntry<'a, Key: 'a, Value: 'a> {
    /// An entry that is not stale; it was touched.
    Valid(&'a Key, &'a Value),
    /// An entry that was stale; it was taken out of the cache.
    Expired(Key, Value),
}

/// A walk that touches each entry that is not stale, and takes out and
/// hands over each one that is.
pub struct NotifyIter<'a, Key, Value> {
    /// The cache that is walked.
    pub cache: &'a mut LruCache<Key, Value>,
    /// The position in the queue just above the next entry to visit. A step
    /// from a position beyond the queue yields nothing.
    pub item_index: usize,
}

impl<'a, Key: Ord + Clone, Value> NotifyIter<'a, Key, Value> {
    /// The cache is well formed and the walk stands within its queue.
    pub open spec fn wf(&self) -> bool {
        &&& self.cache.wf()
        &&& self.item_index <= self.cache@.order.len()
    }

    /// A walk that starts above the most recently used entry of `cache`.
    pub fn new(cache: &'a mut LruCache<Key, Value>) -> (walk: Self)
        requires
            old(cache).wf(),
        ensures
            walk.wf(),
            *walk.cache == *old(cache),
            *final(walk.cache) == *final(cache),
            walk.item_index == old(cache)@.order.len(),
    {
        let item_index = cache.list.len();
        NotifyIter { cache, item_index }
    }

    /// One step of the walk at the time `now`: visits the entry below the
    /// cursor, which is touched and yielded if it is not stale, and taken
    /// out and handed over if it is.
    pub fn do_next(&mut self, now: u64) -> (found: Option<TimedEntry<'_, Key, Value>>)
        requires
            old(self).wf(),
        ensures
            final(self).wf(),
            *final(final(self).cache) == *final(old(self).cache),
            final(self).cache@ == old(self).cache@.visited(old(self).item_index as int, now),
            old(self).item_index == 0 ==> final(self).item_index == 0,
            old(self).item_index > 0 ==> final(self).item_index == old(self).item_index - 1,
            match found {
                Some(TimedEntry::Valid(key, value)) => {
                    &&& old(self).item_index > 0
                    &&& !old(self).cache@.stale_at(old(self).item_index - 1, now)
                    &&& (*key, *value) == old(self).cache@.pair(old(self).item_index - 1)
                },
                Some(TimedEntry::Expired(key, value)) => {
                    &&& old(self).item_index > 0
                    &&& old(self).cache@.stale_at(old(self).item_index - 1, now)
                    &&& (key, value) == old(self).cache@.pair(old(self).item_index - 1)
                },
                None => old(self).item_index == 0,
            },
    {
        let ghost before = self.cache@;
        if self.item_index == 0 {
            return None;
        }
        self.item_index = self.item_index - 1;
        proof {
            before.lemma_position(self.item_index as int);
            assert(before.order.to_set().contains(before.order[self.item_index as int]));
            before.lemma_removed_wf(before.order[self.item_index as int]);
            before.lemma_touch_wf(before.order[self.item_index as int], now);
            lemma_unlink(before.order, self.item_index as int);
        }
        let key = match self.cache.list.remove(self.item_index) {
            Some(key) => key,
            None => return None,
        };
        let gone = match self.cache.map.get(&key) {
            Some(entry) => is_stale(entry.1, self.cache.time_to_live, now),
            None => return None,
        };
        if gone {
            let pair = match self.cache.map.remove(&key) {
                Some(pair) => pair,
                None => return None,
            };
            assert(self.cache@ =~= before.removed(key));
            return Some(TimedEntry::Expired(key, pair.0));
        }
        self.cache.list.push_back(key);
        let last = self.cache.list.len() - 1;
        let key = &self.cache.list[last];
        let ghost queue = self.cache.list@;
        let ghost store = self.cache.map@;
        let entry = match entry_mut(&mut self.cache.map, key) {
            Some(entry) => entry,
            None => return None,
        };
        entry.1 = now;
        proof {
            assert(queue =~= before.touch(*key, now).order);
            assert(store.insert(*key, *entry) =~= before.touch(*key, now).entries);
        }
        Some(TimedEntry::Valid(key, &entry.0))
    }

    /// One step of the walk at the clock's time.
    pub fn next(&mut self) -> (found: Option<TimedEntry<'_, Key, Value>>)
        requires
            old(self).wf(),
        ensures
            final(self).wf(),
            *final(final(self).cache) == *final(old(self).cache),
            old(self).item_index == 0 ==> final(self).item_index == 0,
            old(self).item_index > 0 ==> final(self).item_index == old(self).item_index - 1,
            exists|now: u64|
                {
                    &&& final(self).cache@ == #[trigger] old(self).cache@.visited(
                        old(self).item_index as int,
                        now,
                    )
                    &&& match found {
                        Some(TimedEntry::Valid(key, value)) => {
                            &&& old(self).item_index > 0
                            &&& !old(self).cache@.stale_at(old(self).item_index - 1, now)
                            &&& (*key, *value) == old(self).cache@.pair(old(self).item_index - 1)
                        },
                        Some(TimedEntry::Expired(key, value)) => {
                            &&& old(self).item_index > 0
                            &&& old(self).cache@.stale_at(old(self).item_index - 1, now)
                            &&& (key, value) == old(self).cache@.pair(old(self).item_index - 1)
                        },
                        None => old(self).item_index == 0,
                    }
                },
    {
        let now = clock_millis();
        self.do_next(now)
    }
}

/// A walk that changes nothing: it passes over what is stale and touches
/// nothing.
pub struct PeekIter<'a, Key, Value> {
    /// The cache that is walked.
    pub cache: &'a LruCache<Key, Value>,
    /// The position in the queue just above the next entry to visit. A step
    /// from a position beyond the queue yields nothing.
    pub item_index: usize,
}

impl<'a, Key: Ord + Clone, Value> PeekIter<'a, Key, Value> {
    /// The cache is well formed and the walk stands within its queue.
    pub open spec fn wf(&self) -> bool {
        &&& self.cache.wf()
        &&& self.item_index <= self.cache@.order.len()
    }

    /// A walk that starts above the most recently used entry of `cache`.
    pub fn new(cache: &'a LruCache<Key, Value>) -> (walk: Self)
        requires
            cache.wf(),
        ensures
            walk.wf(),
            walk.cache == cache,
            walk.item_index == cache@.order.len(),
    {
        let item_index = cache.list.len();
        PeekIter { cache, item_index }
    }

    /// Walks down to the next entry that is not stale at `now` and stops
    /// on it.
    fn next_unexpired(&mut self, now: u64) -> (found: Option<()>)
        requires
            old(self).wf(),
        ensures
            final(self).cache == old(self).cache,
            final(self).item_index == old(self).cache@.walk_cursor(
                old(self).item_index as int,
                now,
            ),
            found.is_some() == (old(self).cache@.walk_stop(old(self).item_index as int, now) > 0),
    {
        let ghost cursor = self.item_index as int;
        loop
            invariant
                self.cache == old(self).cache,
                cursor == old(self).item_index as int,
                self.cache.wf(),
                0 <= self.item_index <= cursor <= self.cache@.order.len(),
                forall|i: int| self.item_index <= i < cursor ==> self.cache@.stale_at(i, now),
            decreases self.item_index,
        {
            if self.item_index == 0 {
                proof {
                    self.cache@.lemma_stale_below_is(0, cursor, now);
                }
                return None;
            }
            self.item_index = self.item_index - 1;
            proof {
                assert(self.cache@.order.to_set().contains(
                    self.cache@.order[self.item_index as int],
                ));
            }
            if self.item_index >= self.cache.list.len() {
                return None;
            }
            let entry = match self.cache.map.get(&self.cache.list[self.item_index]) {
                Some(entry) => entry,
                None => return None,
            };
            if !is_stale(entry.1, self.cache.time_to_live, now) {
                proof {
                    self.cache@.lemma_stale_below_is(self.item_index + 1, cursor, now);
                }
                return Some(());
            }
        }
    }

    /// One step of the walk at the time `now`: yields the next entry that
    /// is not stale.
    pub fn do_next(&mut self, now: u64) -> (found: Option<(&'a Key, &'a Value)>)
        requires
            old(self).wf(),
        ensures
            final(self).wf(),
            final(self).cache == old(self).cache,
            final(self).item_index == old(self).cache@.walk_cursor(
                old(self).item_index as int,
                now,
            ),
            match found {
                Some((key, value)) => old(self).cache@.walk_yield(
                    old(self).item_index as int,
                    now,
                ) == Some((*key, *value)),
                None => old(self).cache@.walk_yield(old(self).item_index as int, now).is_none(),
            },
    {
        proof {
            self.cache@.lemma_stale_below_ends(self.item_index as int, now);
        }
        match self.next_unexpired(now) {
            Some(_) => {
                proof {
                    assert(self.cache@.order.to_set().contains(
                        self.cache@.order[self.item_index as int],
                    ));
                }
                if self.item_index >= self.cache.list.len() {
                    return None;
                }
                let key = &self.cache.list[self.item_index];
                match self.cache.map.get(key) {
                    Some(entry) => Some((key, &entry.0)),
                    None => None,
                }
            },
            None => None,
        }
    }

    /// One step of the walk at the clock's time.
    pub fn next(&mut self) -> (found: Option<(&'a Key, &'a Value)>)
        requires
            old(self).wf(),
        ensures
            final(self).wf(),
            final(self).cache == old(self).cache,
            exists|now: u64|
                {
                    &&& final(self).item_index == #[trigger] old(self).cache@.walk_cursor(
                        old(self).item_index as int,
                        now,
                    )
                    &&& match found {
                        Some((key, value)) => old(self).cache@.walk_yield(
                            old(self).item_index as int,
                            now,
                        ) == Some((*key, *value)),
                        None => old(self).cache@.walk_yield(
                            old(self).item_index as int,
                            now,
                        ).is_none(),
                    }
                },
    {
        let now = clock_millis();
        self.do_next(now)
    }
}

impl<Key: Ord + Clone, Value> LruCache<Key, Value> {
    /// Sweeps at the clock's time and starts a walk that touches what it
    /// yields and drops what is stale.
    pub fn iter(&mut self) -> (walk: Iter<'_, Key, Value>)
        requires
            old(self).wf(),
        ensures
            walk.wf(),
            *final(walk.cache) == *final(self),
            walk.item_index == walk.cache@.order.len(),
            exists|now: u64| walk.cache@ == #[trigger] old(self)@.swept(now),
    {
        let now = clock_millis();
        let _ = self.remove_expired(now);
        Iter::new(self)
    }

    /// Starts a walk that touches what is not stale and hands over what
    /// is. Nothing is swept before.
    pub fn notify_iter(&mut self) -> (walk: NotifyIter<'_, Key, Value>)
        requires
            old(self).wf(),
        ensures
            walk.wf(),
            *walk.cache == *old(self),
            *final(walk.cache) == *final(self),
            walk.item_index == old(self)@.order.len(),
    {
        NotifyIter::new(self)
    }

    /// Starts a walk that changes nothing.
    pub fn peek_iter(&self) -> (walk: PeekIter<'_, Key, Value>)
        requires
            self.wf(),
        ensures
            walk.wf(),
            walk.cache == self,
            walk.item_index == self@.order.len(),
    {
        PeekIter::new(self)
    }
}

} // verus!
