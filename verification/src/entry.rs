//! One place in the cache, held or free, found by a single lookup.
use crate::cache::LruCache;
use crate::keys::copy_key;
use crate::time::clock_millis;
use vstd::prelude::*;

verus! {

/// A place in the cache that holds no value, or none that still counts.
pub struct VacantEntry<'a, Key, Value> {
    /// The key of the place.
    pub key: Key,
    /// The cache that the place belongs to.
    pub cache: &'a mut LruCache<Key, Value>,
}

/// A place in the cache that holds a value.
pub struct OccupiedEntry<'a, Value> {
    /// The value, open for writing.
    pub value: &'a mut Value,
}

/// A place in the cache, as one lookup found it.
pub enum Entry<'a, Key: 'a, Value: 'a> {
    /// No value is held under the key.
    Vacant(VacantEntry<'a, Key, Value>),
    /// A value is held under the key.
    Occupied(OccupiedEntry<'a, Value>),
}

impl<'a, Value> OccupiedEntry<'a, Value> {
    /// Gives up the place for the value in it, open for writing.
    pub fn into_mut(self) -> (value: &'a mut Value)
        ensures
            *value == *old(self.value),
            *final(value) == *final(self.value),
    {
        self.value
    }
}

impl<'a, Key: Ord + Clone, Value> VacantEntry<'a, Key, Value> {
    /// Fills the place at the time `now`: inserts `value` under the key, then
    /// looks the key up and hands out the value for writing.
    pub fn do_insert(self, value: Value, now: u64) -> (held: &'a mut Value)
        requires
            old(self.cache).wf(),
        ensures
            *held == value,
            final(self.cache).wf(),
            final(self.cache)@ == old(self.cache)@.inserted(self.key, value, now).fetched(
                self.key,
                now,
            ).with_value(self.key, *final(held)),
    {
        proof {
            self.cache@.lemma_insert_then_get(self.key, value, now, now);
        }
        let VacantEntry { key, cache } = self;
        let _ = cache.do_notify_insert(copy_key(&key), value, now);
        cache.do_notify_get_mut(&key, now).0.unwrap()
    }

    /// Fills the place at the clock's time.
    pub fn insert(self, value: Value) -> (held: &'a mut Value)
        requires
            old(self.cache).wf(),
        ensures
            *held == value,
            final(self.cache).wf(),
            exists|now: u64|
                final(self.cache)@ == (#[trigger] old(self.cache)@.inserted(
                    self.key,
                    value,
                    now,
                )).fetched(self.key, now).with_value(self.key, *final(held)),
    {
        let now = clock_millis();
        self.do_insert(value, now)
    }
}

impl<Key: Ord + Clone, Value> LruCache<Key, Value> {
    /// Finds the place of `key` at the time `now`. Where a look shows a
    /// value, the cache is swept and the entry touched, as a lookup does;
    /// where it shows none, nothing changes until the place is filled.
    pub fn do_entry(&mut self, key: Key, now: u64) -> (place: Entry<'_, Key, Value>)
        requires
            old(self).wf(),
        ensures
            match place {
                Entry::Occupied(held) => {
                    &&& old(self)@.peeked(key, now) == Some(*held.value)
                    &&& final(self)@ == old(self)@.fetched(key, now).with_value(
                        key,
                        *final(held.value),
                    )
                    &&& final(self).wf()
                },
                Entry::Vacant(free) => {
                    &&& old(self)@.peeked(key, now).is_none()
                    &&& free.key == key
                    &&& *free.cache == *old(self)
                    &&& *final(free.cache) == *final(self)
                },
            },
    {
        if self.do_peek(&key, now).is_some() {
            proof {
                self@.lemma_peeked_is_held(key, now);
            }
            Entry::Occupied(OccupiedEntry { value: self.do_notify_get_mut(&key, now).0.unwrap() })
        } else {
            Entry::Vacant(VacantEntry { key, cache: self })
        }
    }

    /// Finds the place of `key` at the clock's time.
    pub fn entry(&mut self, key: Key) -> (place: Entry<'_, Key, Value>)
        requires
            old(self).wf(),
        ensures
            exists|now: u64|
                match place {
                    Entry::Occupied(held) => {
                        &&& #[trigger] old(self)@.peeked(key, now) == Some(*held.value)
                        &&& final(self)@ == old(self)@.fetched(key, now).with_value(
                            key,
                            *final(held.value),
                        )
                        &&& final(self).wf()
                    },
                    Entry::Vacant(free) => {
                        &&& old(self)@.peeked(key, now).is_none()
                        &&& free.key == key
                        &&& *free.cache == *old(self)
                        &&& *final(free.cache) == *final(self)
                    },
                },
    {
        let now = clock_millis();
        self.do_entry(key, now)
    }
}

impl<'a, Key: Ord + Clone, Value> Entry<'a, Key, Value> {
    /// The value in the place, open for writing; a free place is first
    /// filled with `default`, at the clock's time.
    pub fn or_insert(self, default: Value) -> (held: &'a mut Value)
        requires
            self matches Entry::Vacant(free) ==> free.cache.wf(),
        ensures
            match self {
                Entry::Occupied(place) => {
                    &&& *held == *place.value
                    &&& *final(held) == *final(place.value)
                },
                Entry::Vacant(free) => {
                    &&& *held == default
                    &&& final(free.cache).wf()
                    &&& exists|now: u64|
                        final(free.cache)@ == (#[trigger] free.cache@.inserted(
                            free.key,
                            default,
                            now,
                        )).fetched(free.key, now).with_value(free.key, *final(held))
                },
            },
    {
        match self {
            Entry::Occupied(place) => place.into_mut(),
            Entry::Vacant(free) => free.insert(default),
        }
    }

    /// The value in the place, open for writing; a free place is first
    /// filled with what `default` makes, at the clock's time. A held place
    /// leaves `default` uncalled.
    pub fn or_insert_with<F: FnOnce() -> Value>(self, default: F) -> (held: &'a mut Value)
        requires
            self matches Entry::Vacant(free) ==> free.cache.wf() && default.requires(()),
        ensures
            match self {
                Entry::Occupied(place) => {
                    &&& *held == *place.value
                    &&& *final(held) == *final(place.value)
                },
                Entry::Vacant(free) => {
                    &&& default.ensures((), *held)
                    &&& final(free.cache).wf()
                    &&& exists|now: u64|
                        final(free.cache)@ == (#[trigger] free.cache@.inserted(
                            free.key,
                            *held,
                            now,
                        )).fetched(free.key, now).with_value(free.key, *final(held))
                },
            },
    {
        match self {
            Entry::Occupied(place) => place.into_mut(),
            Entry::Vacant(free) => free.insert(default()),
        }
    }
}

} // verus!
