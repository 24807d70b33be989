//! The cache as a mathematical value: what every operation does to it.
use crate::time::stale;
use vstd::prelude::*;

verus! {

/// A cache as contracts speak of it.
#[verifier::reject_recursive_types(K)]
#[verifier::ext_equal]
pub struct CacheModel<K, V> {
    /// The keys, from the least recently touched to the most recently touched.
    pub order: Seq<K>,
    /// Each key's value and the time at which it was last touched.
    pub entries: Map<K, (V, u64)>,
    /// How many entries the cache may hold.
    pub capacity: usize,
    /// How long an untouched entry lives, in milliseconds, if it ever dies.
    pub ttl: Option<u64>,
}

impl<K, V> CacheModel<K, V> {
    /// The largest number of entries that any operation leaves behind: an
    /// insertion always keeps the entry it brings.
    pub open spec fn bound(self) -> nat {
        if self.capacity == 0 {
            1
        } else {
            self.capacity as nat
        }
    }

    /// The queue and the store hold the same keys, the queue holds each once,
    /// and the cache is within its bound.
    pub open spec fn wf(self) -> bool {
        &&& self.order.no_duplicates()
        &&& self.order.to_set() == self.entries.dom()
        &&& self.order.len() <= self.bound()
    }

    /// When the key at position `i` of the queue was last touched.
    pub open spec fn touched(self, i: int) -> u64 {
        self.entries[self.order[i]].1
    }

    /// The key at position `i` of the queue, with its value.
    pub open spec fn pair(self, i: int) -> (K, V) {
        (self.order[i], self.entries[self.order[i]].0)
    }

    /// Whether the entry at position `i` of the queue is stale at `now`.
    pub open spec fn stale_at(self, i: int, now: u64) -> bool {
        stale(self.touched(i), self.ttl, now)
    }

    /// The length of the run of stale entries that starts at position `from`.
    pub open spec fn stale_run(self, from: int, now: u64) -> nat
        decreases self.order.len() - from,
    {
        if 0 <= from < self.order.len() && self.stale_at(from, now) {
            1 + self.stale_run(from + 1, now)
        } else {
            0
        }
    }

    /// How many entries a sweep at `now` drops: the stale run at the front.
    pub open spec fn stale_count(self, now: u64) -> nat {
        self.stale_run(0, now)
    }

    /// The cache without the first `n` keys of its queue.
    pub open spec fn drop_front(self, n: int) -> Self {
        CacheModel {
            order: self.order.skip(n),
            entries: self.entries.remove_keys(self.order.take(n).to_set()),
            capacity: self.capacity,
            ttl: self.ttl,
        }
    }

    /// The first `n` keys of the queue with their values, oldest first.
    pub open spec fn front_pairs(self, n: int) -> Seq<(K, V)> {
        Seq::new(n as nat, |i: int| self.pair(i))
    }

    /// The cache after a sweep at `now`.
    pub open spec fn swept(self, now: u64) -> Self {
        self.drop_front(self.stale_count(now) as int)
    }

    /// What a sweep at `now` drops, oldest first.
    pub open spec fn expired(self, now: u64) -> Seq<(K, V)> {
        self.front_pairs(self.stale_count(now) as int)
    }

    /// How many entries have to leave before a new key can come in.
    pub open spec fn excess(self) -> nat {
        if self.order.len() < self.capacity {
            0
        } else if self.capacity == 0 {
            self.order.len()
        } else {
            (self.order.len() - self.capacity + 1) as nat
        }
    }

    /// The cache after the least recently used entries made room for one key.
    pub open spec fn with_room(self) -> Self {
        self.drop_front(self.excess() as int)
    }

    /// The queue with `key`, which it holds, moved to the back.
    pub open spec fn promoted(self, key: K) -> Seq<K> {
        self.order.remove(self.order.index_of(key)).push(key)
    }

    /// The cache after `key`, which it holds, was touched at `now`.
    pub open spec fn touch(self, key: K, now: u64) -> Self {
        CacheModel {
            order: self.promoted(key),
            entries: self.entries.insert(key, (self.entries[key].0, now)),
            capacity: self.capacity,
            ttl: self.ttl,
        }
    }

    /// The cache after `key` was given `value` at `now`, with no sweep before:
    /// a key that is held is touched and keeps its place in the count, a new
    /// one comes in at the back once there is room.
    pub open spec fn put(self, key: K, value: V, now: u64) -> Self {
        if self.entries.contains_key(key) {
            CacheModel {
                order: self.promoted(key),
                entries: self.entries.insert(key, (value, now)),
                capacity: self.capacity,
                ttl: self.ttl,
            }
        } else {
            CacheModel {
                order: self.with_room().order.push(key),
                entries: self.with_room().entries.insert(key, (value, now)),
                capacity: self.capacity,
                ttl: self.ttl,
            }
        }
    }

    /// The cache with `value` written under `key`, which it holds; nothing is
    /// touched.
    pub open spec fn with_value(self, key: K, value: V) -> Self {
        CacheModel {
            order: self.order,
            entries: self.entries.insert(key, (value, self.entries[key].1)),
            capacity: self.capacity,
            ttl: self.ttl,
        }
    }

    /// The value under `key`, if the cache holds the key.
    pub open spec fn value_of(self, key: K) -> Option<V> {
        if self.entries.contains_key(key) {
            Some(self.entries[key].0)
        } else {
            None
        }
    }

    /// The cache after an insertion at `now`: sweep, then put.
    pub open spec fn inserted(self, key: K, value: V, now: u64) -> Self {
        self.swept(now).put(key, value, now)
    }

    /// The cache after the insertions `items`, each a key, a value and a time,
    /// one after the other.
    pub open spec fn inserted_all(self, items: Seq<(K, V, u64)>) -> Self
        decreases items.len(),
    {
        if items.len() == 0 {
            self
        } else {
            self.inserted_all(items.drop_last()).inserted(
                items.last().0,
                items.last().1,
                items.last().2,
            )
        }
    }

    /// How many keys were touched after `key`, which the cache holds.
    pub open spec fn behind(self, key: K) -> int {
        self.order.len() - 1 - self.order.index_of(key)
    }

    /// The cache after a lookup of `key` at `now`: sweep, then touch on a hit.
    pub open spec fn fetched(self, key: K, now: u64) -> Self {
        if self.swept(now).entries.contains_key(key) {
            self.swept(now).touch(key, now)
        } else {
            self.swept(now)
        }
    }

    /// What a lookup or an insertion at `now` finds under `key`.
    pub open spec fn held(self, key: K, now: u64) -> Option<V> {
        self.swept(now).value_of(key)
    }

    /// What a look at `key` at `now` shows, with no sweep: the value, unless
    /// the key is absent or its entry is stale.
    pub open spec fn peeked(self, key: K, now: u64) -> Option<V> {
        if self.entries.contains_key(key) && !stale(self.entries[key].1, self.ttl, now) {
            Some(self.entries[key].0)
        } else {
            None
        }
    }

    /// The cache without `key`.
    pub open spec fn removed(self, key: K) -> Self {
        if self.entries.contains_key(key) {
            CacheModel {
                order: self.order.remove(self.order.index_of(key)),
                entries: self.entries.remove(key),
                capacity: self.capacity,
                ttl: self.ttl,
            }
        } else {
            self
        }
    }

    /// The cache with nothing in it.
    pub open spec fn cleared(self) -> Self {
        CacheModel {
            order: Seq::empty(),
            entries: Map::empty(),
            capacity: self.capacity,
            ttl: self.ttl,
        }
    }

    /// How many entries count at `now`: all but the stale run at the front.
    pub open spec fn live_len(self, now: u64) -> nat {
        (self.order.len() - self.stale_count(now)) as nat
    }

    /// Whether the cache counts as empty at `now`: it holds nothing, or even
    /// its most recently touched entry is stale.
    pub open spec fn none_live(self, now: u64) -> bool {
        self.order.len() == 0 || self.stale_at(self.order.len() - 1, now)
    }

    /// Touch times never decrease along the queue.
    pub open spec fn time_ordered(self) -> bool {
        forall|i: int, j: int|
            0 <= i <= j < self.order.len() ==> self.touched(i) <= self.touched(j)
    }

    /// No entry was touched after `now`.
    pub open spec fn not_after(self, now: u64) -> bool {
        forall|i: int| 0 <= i < self.order.len() ==> #[trigger] self.touched(i) <= now
    }
}

impl<K, V> CacheModel<K, V> {
    /// A stale run ends where the queue ends or at the first entry that is
    /// not stale, and nowhere before.
    pub proof fn lemma_stale_run_ends(self, from: int, now: u64)
        requires
            0 <= from <= self.order.len(),
        ensures
            from + self.stale_run(from, now) <= self.order.len(),
            forall|i: int|
                from <= i < from + self.stale_run(from, now) ==> self.stale_at(i, now),
            from + self.stale_run(from, now) == self.order.len() || !self.stale_at(
                from + self.stale_run(from, now),
                now,
            ),
        decreases self.order.len() - from,
    {
        if from < self.order.len() && self.stale_at(from, now) {
            self.lemma_stale_run_ends(from + 1, now);
        }
    }

    /// A run of stale entries from `from` up to `end`, which the queue's end
    /// or an entry that is not stale closes, is the stale run at `from`.
    pub proof fn lemma_stale_run_is(self, from: int, end: int, now: u64)
        requires
            0 <= from <= end <= self.order.len(),
            forall|i: int| from <= i < end ==> self.stale_at(i, now),
            end == self.order.len() || !self.stale_at(end, now),
        ensures
            self.stale_run(from, now) == end - from,
        decreases end - from,
    {
        if from < end {
            self.lemma_stale_run_is(from + 1, end, now);
        }
    }

    /// Dropping nothing changes nothing.
    pub proof fn lemma_drop_none(self)
        ensures
            self.drop_front(0) == self,
    {
        assert(self.order.take(0).to_set() =~= Set::<K>::empty());
        assert(self.drop_front(0) =~= self);
    }

    /// In a queue that holds no key twice, a key sits at the position that
    /// `index_of` names, and at no other.
    pub proof fn lemma_position(self, i: int)
        requires
            self.order.no_duplicates(),
            0 <= i < self.order.len(),
        ensures
            self.order.index_of(self.order[i]) == i,
            self.order.contains(self.order[i]),
    {
        self.order.index_of_first_ensures(self.order[i]);
    }

    /// What is left when the first `n` keys are dropped: a well-formed cache
    /// that holds the other keys, each with its entry, in their order.
    pub proof fn lemma_drop_front(self, n: int)
        requires
            self.wf(),
            0 <= n <= self.order.len(),
        ensures
            self.drop_front(n).wf(),
            self.drop_front(n).order.len() == self.order.len() - n,
            forall|i: int|
                0 <= i < self.order.len() - n ==> #[trigger] self.drop_front(n).order[i]
                    == self.order[n + i],
            forall|i: int|
                n <= i < self.order.len() ==> #[trigger] self.drop_front(n).entries.contains_key(
                    self.order[i],
                ) && self.drop_front(n).entries[self.order[i]] == self.entries[self.order[i]],
            forall|i: int|
                0 <= i < n ==> !#[trigger] self.drop_front(n).entries.contains_key(self.order[i]),
            forall|k: K|
                self.drop_front(n).entries.contains_key(k) ==> self.entries.contains_key(k)
                    && self.drop_front(n).entries[k] == self.entries[k],
    {
        let d = self.drop_front(n);
        let head = self.order.take(n);
        let gone = head.to_set();
        assert forall|i: int| n <= i < self.order.len() implies !gone.contains(self.order[i]) by {
            if gone.contains(self.order[i]) {
                let j = choose|j: int| 0 <= j < head.len() && head[j] == self.order[i];
                assert(self.order[j] == self.order[i]);
            }
        }
        assert forall|i: int| 0 <= i < n implies gone.contains(self.order[i]) by {
            assert(head[i] == self.order[i]);
        }
        assert forall|i: int| n <= i < self.order.len() implies #[trigger] d.entries.contains_key(
            self.order[i],
        ) && d.entries[self.order[i]] == self.entries[self.order[i]] by {
            assert(self.order.contains(self.order[i]));
            assert(self.order.to_set().contains(self.order[i]));
        }
        assert(d.order.to_set() =~= d.entries.dom()) by {
            assert forall|k: K| d.order.to_set().contains(k) == d.entries.dom().contains(k) by {
                if d.order.contains(k) {
                    let i = choose|i: int| 0 <= i < d.order.len() && d.order[i] == k;
                    assert(k == self.order[n + i]);
                    assert(d.entries.contains_key(self.order[n + i]));
                }
                if d.entries.contains_key(k) {
                    assert(self.order.to_set().contains(k));
                    let i = choose|i: int| 0 <= i < self.order.len() && self.order[i] == k;
                    assert(i >= n);
                    assert(d.order[i - n] == k);
                }
            }
        }
    }

    /// Dropping `n` keys and then one more is dropping `n + 1`.
    pub proof fn lemma_drop_one_more(self, n: int)
        requires
            self.wf(),
            0 <= n < self.order.len(),
        ensures
            self.drop_front(n).order.skip(1) == self.drop_front(n + 1).order,
            self.drop_front(n).entries.remove(self.order[n]) == self.drop_front(n + 1).entries,
            self.front_pairs(n).push(self.pair(n)) == self.front_pairs(n + 1),
    {
        assert(self.drop_front(n).order.skip(1) =~= self.drop_front(n + 1).order);
        let short = self.order.take(n);
        let long = self.order.take(n + 1);
        let a = short.to_set();
        let b = long.to_set();
        assert(b =~= a.insert(self.order[n])) by {
            assert forall|k: K| b.contains(k) == a.insert(self.order[n]).contains(k) by {
                if b.contains(k) {
                    let j = choose|j: int| 0 <= j < long.len() && long[j] == k;
                    if j < n {
                        assert(short[j] == k);
                    }
                }
                if a.contains(k) {
                    let j = choose|j: int| 0 <= j < short.len() && short[j] == k;
                    assert(long[j] == k);
                }
                if k == self.order[n] {
                    assert(long[n] == k);
                }
            }
        }
        assert(self.drop_front(n).entries.remove(self.order[n]) =~= self.drop_front(
            n + 1,
        ).entries);
        assert(self.front_pairs(n).push(self.pair(n)) =~= self.front_pairs(n + 1));
    }
}

/// A queue without duplicates that loses the key at position `at` keeps the
/// others, each once and in their order, and no longer holds that key.
pub proof fn lemma_unlink<K>(queue: Seq<K>, at: int)
    requires
        queue.no_duplicates(),
        0 <= at < queue.len(),
    ensures
        queue.remove(at).no_duplicates(),
        queue.remove(at).len() == queue.len() - 1,
        queue.remove(at).to_set() == queue.to_set().remove(queue[at]),
        !queue.remove(at).contains(queue[at]),
        forall|i: int| 0 <= i < at ==> #[trigger] queue.remove(at)[i] == queue[i],
        forall|i: int| at <= i < queue.len() - 1 ==> #[trigger] queue.remove(at)[i] == queue[i + 1],
{
    let rest = queue.remove(at);
    assert forall|i: int| 0 <= i < rest.len() implies #[trigger] rest[i] == queue[if i < at {
        i
    } else {
        i + 1
    }] by {}
    assert forall|k: K| rest.to_set().contains(k) == queue.to_set().remove(queue[at]).contains(
        k,
    ) by {
        if rest.contains(k) {
            let i = choose|i: int| 0 <= i < rest.len() && rest[i] == k;
            let j = if i < at {
                i
            } else {
                i + 1
            };
            assert(queue[j] == k);
        }
        if queue.contains(k) && k != queue[at] {
            let j = choose|j: int| 0 <= j < queue.len() && queue[j] == k;
            let i = if j < at {
                j
            } else {
                j - 1
            };
            assert(rest[i] == k);
        }
    }
    assert(rest.to_set() =~= queue.to_set().remove(queue[at]));
    assert(!rest.to_set().contains(queue[at]));
}

impl<K, V> CacheModel<K, V> {
    /// Moving a key to the back keeps the keys, each once, and the order of
    /// the others.
    pub proof fn lemma_promoted(self, key: K)
        requires
            self.order.no_duplicates(),
            self.order.contains(key),
        ensures
            self.promoted(key).no_duplicates(),
            self.promoted(key).len() == self.order.len(),
            self.promoted(key).to_set() == self.order.to_set(),
            self.promoted(key).last() == key,
            0 <= self.order.index_of(key) < self.order.len(),
            self.order[self.order.index_of(key)] == key,
            forall|i: int|
                0 <= i < self.order.index_of(key) ==> #[trigger] self.promoted(key)[i]
                    == self.order[i],
            forall|i: int|
                self.order.index_of(key) <= i < self.order.len() - 1 ==> #[trigger] self.promoted(
                    key,
                )[i] == self.order[i + 1],
    {
        let at = self.order.index_of(key);
        self.order.index_of_first_ensures(key);
        assert(self.order[at] == key);
        lemma_unlink(self.order, at);
        let rest = self.order.remove(at);
        let moved = rest.push(key);
        assert(moved.no_duplicates()) by {
            assert forall|i: int, j: int|
                0 <= i < moved.len() && 0 <= j < moved.len() && i != j implies moved[i]
                != moved[j] by {
                if i < rest.len() {
                    assert(rest.contains(rest[i]));
                }
                if j < rest.len() {
                    assert(rest.contains(rest[j]));
                }
            }
        }
        assert(moved.to_set() =~= self.order.to_set()) by {
            assert forall|k: K| moved.to_set().contains(k) == self.order.to_set().contains(k) by {
                if moved.contains(k) {
                    let i = choose|i: int| 0 <= i < moved.len() && moved[i] == k;
                    if i < rest.len() {
                        assert(rest.contains(k));
                        assert(rest.to_set().contains(k));
                    }
                }
                if self.order.contains(k) {
                    if k == key {
                        assert(moved[moved.len() - 1] == k);
                    } else {
                        assert(rest.to_set().contains(k));
                        let i = choose|i: int| 0 <= i < rest.len() && rest[i] == k;
                        assert(moved[i] == k);
                    }
                }
            }
        }
    }

    /// A cache that loses a key stays well formed.
    pub proof fn lemma_removed_wf(self, key: K)
        requires
            self.wf(),
        ensures
            self.removed(key).wf(),
    {
        if self.entries.contains_key(key) {
            assert(self.order.to_set().contains(key));
            self.order.index_of_first_ensures(key);
            let at = self.order.index_of(key);
            assert(self.order[at] == key);
            lemma_unlink(self.order, at);
            assert(self.removed(key).order.to_set() =~= self.removed(key).entries.dom());
        }
    }

    /// Making room leaves a well-formed cache with room for one key.
    pub proof fn lemma_with_room(self)
        requires
            self.wf(),
        ensures
            self.with_room().wf(),
            self.with_room().order.len() == self.order.len() - self.excess(),
            self.with_room().order.len() < self.bound(),
    {
        self.lemma_drop_front(self.excess() as int);
    }

    /// A cache that is given a value under a key stays well formed.
    pub proof fn lemma_put_wf(self, key: K, value: V, now: u64)
        requires
            self.wf(),
        ensures
            self.put(key, value, now).wf(),
            self.put(key, value, now).order.last() == key,
            self.put(key, value, now).entries[key] == (value, now),
    {
        let after = self.put(key, value, now);
        if self.entries.contains_key(key) {
            assert(self.order.to_set().contains(key));
            self.lemma_promoted(key);
            assert(after.order.to_set() =~= after.entries.dom());
        } else {
            self.lemma_with_room();
            let room = self.with_room();
            self.lemma_drop_front(self.excess() as int);
            assert(!room.entries.contains_key(key));
            assert(!room.order.to_set().contains(key));
            assert(after.order.no_duplicates()) by {
                assert forall|i: int, j: int|
                    0 <= i < after.order.len() && 0 <= j < after.order.len() && i
                        != j implies after.order[i] != after.order[j] by {
                    if i < room.order.len() {
                        assert(room.order.contains(room.order[i]));
                    }
                    if j < room.order.len() {
                        assert(room.order.contains(room.order[j]));
                    }
                }
            }
            assert(after.order.to_set() =~= after.entries.dom()) by {
                assert forall|k: K|
                    after.order.to_set().contains(k) == after.entries.dom().contains(k) by {
                    if after.order.contains(k) {
                        let i = choose|i: int| 0 <= i < after.order.len() && after.order[i] == k;
                        if i < room.order.len() {
                            assert(room.order.contains(k));
                            assert(room.order.to_set().contains(k));
                        }
                    }
                    if after.entries.contains_key(k) {
                        if k == key {
                            assert(after.order[after.order.len() - 1] == k);
                        } else {
                            assert(room.order.to_set().contains(k));
                            let i = choose|i: int| 0 <= i < room.order.len() && room.order[i] == k;
                            assert(after.order[i] == k);
                        }
                    }
                }
            }
        }
    }

    /// A cache in which a key is touched stays well formed.
    pub proof fn lemma_touch_wf(self, key: K, now: u64)
        requires
            self.wf(),
            self.entries.contains_key(key),
        ensures
            self.touch(key, now).wf(),
    {
        assert(self.order.to_set().contains(key));
        self.lemma_promoted(key);
        assert(self.touch(key, now).order.to_set() =~= self.touch(key, now).entries.dom());
    }

    /// A sweep leaves a well-formed cache.
    pub proof fn lemma_swept_wf(self, now: u64)
        requires
            self.wf(),
        ensures
            self.swept(now).wf(),
    {
        self.lemma_stale_run_ends(0, now);
        self.lemma_drop_front(self.stale_count(now) as int);
    }
}

} // verus!
