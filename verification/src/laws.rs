//! What holds of every cache, whatever was done to it.
use crate::model::{lemma_unlink, CacheModel};
use crate::time::stale;
use vstd::prelude::*;

verus! {

impl<K, V> CacheModel<K, V> {
    /// An insertion leaves the queue and the store in step: the same keys in
    /// both, each once in the queue.
    pub proof fn lemma_inserted_wf(self, key: K, value: V, now: u64)
        requires
            self.wf(),
        ensures
            self.inserted(key, value, now).wf(),
    {
        self.lemma_swept_wf(now);
        self.swept(now).lemma_put_wf(key, value, now);
    }

    /// A lookup leaves the queue and the store in step.
    pub proof fn lemma_fetched_wf(self, key: K, now: u64)
        requires
            self.wf(),
        ensures
            self.fetched(key, now).wf(),
    {
        self.lemma_swept_wf(now);
        if self.swept(now).entries.contains_key(key) {
            self.swept(now).lemma_touch_wf(key, now);
        }
    }

    /// Writing a value under a key that the cache holds moves nothing.
    pub proof fn lemma_with_value_wf(self, key: K, value: V)
        requires
            self.wf(),
            self.entries.contains_key(key),
        ensures
            self.with_value(key, value).wf(),
            self.time_ordered() ==> self.with_value(key, value).time_ordered(),
            forall|now: u64| self.not_after(now) ==> self.with_value(key, value).not_after(now),
    {
        let after = self.with_value(key, value);
        assert(after.entries.dom() =~= self.entries.dom());
        assert forall|i: int| 0 <= i < self.order.len() implies after.touched(i) == self.touched(
            i,
        ) by {}
        assert forall|now: u64| self.not_after(now) implies after.not_after(now) by {
            assert forall|i: int| 0 <= i < after.order.len() implies #[trigger] after.touched(i)
                <= now by {
                assert(self.touched(i) <= now);
            }
        }
    }

    /// The entries that are left when the first `n` are dropped keep their
    /// touch times.
    pub proof fn lemma_drop_front_times(self, n: int)
        requires
            self.wf(),
            0 <= n <= self.order.len(),
        ensures
            forall|i: int|
                0 <= i < self.order.len() - n ==> #[trigger] self.drop_front(n).touched(i)
                    == self.touched(n + i),
            self.time_ordered() ==> self.drop_front(n).time_ordered(),
            forall|now: u64| self.not_after(now) ==> self.drop_front(n).not_after(now),
    {
        self.lemma_drop_front(n);
        let rest = self.drop_front(n);
        assert forall|i: int| 0 <= i < self.order.len() - n implies #[trigger] rest.touched(i)
            == self.touched(n + i) by {
            assert(rest.order[i] == self.order[n + i]);
            assert(rest.entries.contains_key(self.order[n + i]));
        }
        assert forall|now: u64| self.not_after(now) implies rest.not_after(now) by {
            assert forall|i: int| 0 <= i < rest.order.len() implies #[trigger] rest.touched(i)
                <= now by {
                assert(self.touched(n + i) <= now);
            }
        }
        if self.time_ordered() {
            assert forall|i: int, j: int| 0 <= i <= j < rest.order.len() implies rest.touched(i)
                <= rest.touched(j) by {
                assert(rest.touched(i) == self.touched(n + i));
                assert(rest.touched(j) == self.touched(n + j));
            }
        }
    }

    /// While the clock does not run backwards, a sweep keeps the queue
    /// ordered by touch time.
    pub proof fn lemma_swept_time_ordered(self, now: u64)
        requires
            self.wf(),
            self.time_ordered(),
            self.not_after(now),
        ensures
            self.swept(now).time_ordered(),
            self.swept(now).not_after(now),
    {
        self.lemma_stale_run_ends(0, now);
        self.lemma_drop_front_times(self.stale_count(now) as int);
    }

    /// While the clock does not run backwards, giving a key a value keeps the
    /// queue ordered by touch time.
    pub proof fn lemma_put_time_ordered(self, key: K, value: V, now: u64)
        requires
            self.wf(),
            self.time_ordered(),
            self.not_after(now),
        ensures
            self.put(key, value, now).time_ordered(),
            self.put(key, value, now).not_after(now),
    {
        let after = self.put(key, value, now);
        let last = after.order.len() - 1;
        self.lemma_put_wf(key, value, now);
        assert(after.touched(last) == now);
        if self.entries.contains_key(key) {
            assert(self.order.to_set().contains(key));
            self.lemma_promoted(key);
            let at = self.order.index_of(key);
            assert forall|i: int| 0 <= i < last implies #[trigger] after.touched(i)
                == self.touched(
                if i < at {
                    i
                } else {
                    i + 1
                },
            ) by {
                let from = if i < at {
                    i
                } else {
                    i + 1
                };
                assert(after.order[i] == self.order[from]);
                assert(self.order[from] != self.order[at]);
            }
            assert forall|i: int| 0 <= i < after.order.len() implies #[trigger] after.touched(i)
                <= now by {
                if i < last {
                    let from = if i < at {
                        i
                    } else {
                        i + 1
                    };
                    assert(self.touched(from) <= now);
                }
            }
            assert forall|i: int, j: int| 0 <= i <= j < after.order.len() implies after.touched(
                i,
            ) <= after.touched(j) by {
                assert(after.touched(i) <= now);
                if j < last {
                    let from_i = if i < at {
                        i
                    } else {
                        i + 1
                    };
                    let from_j = if j < at {
                        j
                    } else {
                        j + 1
                    };
                    assert(after.touched(i) == self.touched(from_i));
                    assert(after.touched(j) == self.touched(from_j));
                }
            }
        } else {
            let room = self.with_room();
            let n = self.excess() as int;
            self.lemma_with_room();
            self.lemma_drop_front(n);
            self.lemma_drop_front_times(n);
            assert forall|i: int| 0 <= i < last implies #[trigger] after.touched(i)
                == room.touched(i) by {
                assert(after.order[i] == room.order[i]);
                assert(room.order.to_set().contains(room.order[i]));
            }
            assert forall|i: int| 0 <= i < after.order.len() implies #[trigger] after.touched(i)
                <= now by {
                if i < last {
                    assert(room.touched(i) <= now);
                }
            }
            assert forall|i: int, j: int| 0 <= i <= j < after.order.len() implies after.touched(
                i,
            ) <= after.touched(j) by {
                assert(after.touched(i) <= now);
                if j < last {
                    assert(after.touched(i) == room.touched(i));
                    assert(after.touched(j) == room.touched(j));
                }
            }
        }
    }

    /// While the clock does not run backwards, an insertion keeps the queue
    /// ordered by touch time.
    pub proof fn lemma_inserted_time_ordered(self, key: K, value: V, now: u64)
        requires
            self.wf(),
            self.time_ordered(),
            self.not_after(now),
        ensures
            self.inserted(key, value, now).time_ordered(),
            self.inserted(key, value, now).not_after(now),
    {
        self.lemma_swept_wf(now);
        self.lemma_swept_time_ordered(now);
        self.swept(now).lemma_put_time_ordered(key, value, now);
    }

    /// While the clock does not run backwards, a lookup keeps the queue
    /// ordered by touch time.
    pub proof fn lemma_fetched_time_ordered(self, key: K, now: u64)
        requires
            self.wf(),
            self.time_ordered(),
            self.not_after(now),
        ensures
            self.fetched(key, now).time_ordered(),
            self.fetched(key, now).not_after(now),
    {
        self.lemma_swept_wf(now);
        self.lemma_swept_time_ordered(now);
        let swept = self.swept(now);
        if swept.entries.contains_key(key) {
            swept.lemma_put_time_ordered(key, swept.entries[key].0, now);
            assert(swept.touch(key, now) == swept.put(key, swept.entries[key].0, now));
        }
    }

    /// A removal keeps the queue ordered by touch time.
    pub proof fn lemma_removed_time_ordered(self, key: K)
        requires
            self.wf(),
            self.time_ordered(),
        ensures
            self.removed(key).time_ordered(),
            forall|now: u64| self.not_after(now) ==> self.removed(key).not_after(now),
    {
        let after = self.removed(key);
        if self.entries.contains_key(key) {
            assert(self.order.to_set().contains(key));
            self.order.index_of_first_ensures(key);
            let at = self.order.index_of(key);
            assert(self.order[at] == key);
            lemma_unlink(self.order, at);
            assert forall|i: int| 0 <= i < after.order.len() implies #[trigger] after.touched(i)
                == self.touched(
                if i < at {
                    i
                } else {
                    i + 1
                },
            ) by {
                let from = if i < at {
                    i
                } else {
                    i + 1
                };
                assert(after.order[i] == self.order[from]);
                assert(self.order[from] != self.order[at]);
            }
            assert forall|i: int, j: int| 0 <= i <= j < after.order.len() implies after.touched(
                i,
            ) <= after.touched(j) by {
                let from_i = if i < at {
                    i
                } else {
                    i + 1
                };
                let from_j = if j < at {
                    j
                } else {
                    j + 1
                };
                assert(after.touched(i) == self.touched(from_i));
                assert(after.touched(j) == self.touched(from_j));
            }
            assert forall|now: u64| self.not_after(now) implies after.not_after(now) by {
                assert forall|i: int| 0 <= i < after.order.len() implies #[trigger] after.touched(
                    i,
                ) <= now by {
                    let from = if i < at {
                        i
                    } else {
                        i + 1
                    };
                    assert(self.touched(from) <= now);
                }
            }
        }
    }

    /// In a queue ordered by touch time the stale entries are a prefix: an
    /// entry is stale exactly if it stands in the stale run at the front.
    pub proof fn lemma_stale_is_prefix(self, now: u64)
        requires
            self.wf(),
            self.time_ordered(),
        ensures
            self.stale_count(now) <= self.order.len(),
            forall|i: int|
                0 <= i < self.order.len() ==> (self.stale_at(i, now) <==> i < self.stale_count(
                    now,
                )),
            forall|i: int, j: int|
                0 <= i <= j < self.order.len() && self.stale_at(j, now) ==> self.stale_at(i, now),
    {
        self.lemma_stale_run_ends(0, now);
        let n = self.stale_count(now) as int;
        assert forall|i: int, j: int|
            0 <= i <= j < self.order.len() && self.stale_at(j, now) implies self.stale_at(
            i,
            now,
        ) by {
            assert(self.touched(i) <= self.touched(j));
        }
        assert forall|i: int| 0 <= i < self.order.len() implies (self.stale_at(i, now) <==> i
            < n) by {
            if i >= n && self.stale_at(i, now) {
                assert(self.touched(n) <= self.touched(i));
                assert(self.stale_at(n, now));
            }
        }
    }

    /// In a queue ordered by touch time, nothing counts exactly if the cache
    /// counts as empty.
    pub proof fn lemma_none_live(self, now: u64)
        requires
            self.wf(),
            self.time_ordered(),
        ensures
            self.none_live(now) <==> self.live_len(now) == 0,
    {
        self.lemma_stale_is_prefix(now);
    }

    /// After an insertion into a cache with room for at least one entry, no
    /// more entries count than the capacity allows, at whatever time they are
    /// counted.
    pub proof fn lemma_capacity_bound(self, key: K, value: V, now: u64, later: u64)
        requires
            self.wf(),
            self.capacity >= 1,
        ensures
            self.inserted(key, value, now).live_len(later) <= self.capacity,
            self.inserted(key, value, now).order.len() <= self.capacity,
    {
        self.lemma_inserted_wf(key, value, now);
        self.inserted(key, value, now).lemma_stale_run_ends(0, later);
    }

    /// In a queue ordered by touch time, every entry that counts at `now` was
    /// touched no longer ago than the time to live.
    pub proof fn lemma_ttl_bound(self, now: u64, i: int)
        requires
            self.wf(),
            self.time_ordered(),
            self.ttl.is_some(),
            self.stale_count(now) <= i < self.order.len(),
        ensures
            now - self.touched(i) <= self.ttl.unwrap(),
    {
        self.lemma_stale_is_prefix(now);
        assert(!self.stale_at(i, now));
    }

    /// Removing a key that the cache does not hold returns nothing and
    /// changes nothing, so the same entries count as before.
    pub proof fn lemma_remove_absent(self, key: K, now: u64)
        requires
            !self.entries.contains_key(key),
        ensures
            self.value_of(key).is_none(),
            self.removed(key) == self,
            self.removed(key).live_len(now) == self.live_len(now),
    {
    }

    /// What a look shows, a lookup at the same time finds: a sweep drops no
    /// entry that is not stale.
    pub proof fn lemma_peeked_is_held(self, key: K, now: u64)
        requires
            self.wf(),
            self.peeked(key, now).is_some(),
        ensures
            self.held(key, now) == self.peeked(key, now),
    {
        assert(self.order.to_set().contains(key));
        self.order.index_of_first_ensures(key);
        let at = self.order.index_of(key);
        assert(self.order[at] == key);
        self.lemma_stale_run_ends(0, now);
        let n = self.stale_count(now) as int;
        assert(at >= n) by {
            if at < n {
                assert(self.stale_at(at, now));
            }
        }
        self.lemma_drop_front(n);
        assert(self.drop_front(n).entries.contains_key(self.order[at]));
    }

    /// A lookup right after an insertion finds the value that was inserted,
    /// unless the entry has gone stale in between.
    pub proof fn lemma_insert_then_get(self, key: K, value: V, now: u64, later: u64)
        requires
            self.wf(),
            !stale(now, self.ttl, later),
        ensures
            self.inserted(key, value, now).held(key, later) == Some(value),
    {
        let after = self.inserted(key, value, now);
        self.lemma_swept_wf(now);
        self.swept(now).lemma_put_wf(key, value, now);
        let last = after.order.len() - 1;
        assert(after.order.to_set().contains(key));
        assert(after.order[last] == key);
        after.lemma_stale_run_ends(0, later);
        let n = after.stale_count(later) as int;
        assert(n <= last) by {
            if n > last {
                assert(after.stale_at(last, later));
            }
        }
        after.lemma_drop_front(n);
        assert(after.drop_front(n).entries.contains_key(after.order[last]));
    }

    /// An insertion of another key leaves an entry in the cache, as it was,
    /// if the entry is not stale and fewer keys than the capacity less one
    /// were touched after it; one more key then stands behind it.
    pub proof fn lemma_insert_spares(self, spared: K, key: K, value: V, now: u64)
        requires
            self.wf(),
            self.entries.contains_key(spared),
            key != spared,
            !stale(self.entries[spared].1, self.ttl, now),
            self.behind(spared) + 2 <= self.capacity,
        ensures
            self.inserted(key, value, now).entries.contains_key(spared),
            self.inserted(key, value, now).entries[spared] == self.entries[spared],
            self.inserted(key, value, now).behind(spared) <= self.behind(spared) + 1,
    {
        let after = self.inserted(key, value, now);
        self.lemma_inserted_wf(key, value, now);
        assert(self.order.to_set().contains(spared));
        self.order.index_of_first_ensures(spared);
        let at = self.order.index_of(spared);
        assert(self.order[at] == spared);
        self.lemma_stale_run_ends(0, now);
        let n = self.stale_count(now) as int;
        assert(at >= n) by {
            if at < n {
                assert(self.stale_at(at, now));
            }
        }
        let swept = self.swept(now);
        self.lemma_drop_front(n);
        assert(swept.order[at - n] == self.order[n + (at - n)]);
        swept.lemma_position(at - n);
        assert(swept.entries.contains_key(self.order[at]));
        assert(swept.behind(spared) == self.behind(spared));
        swept.lemma_put_wf(key, value, now);
        if swept.entries.contains_key(key) {
            assert(swept.order.to_set().contains(key));
            swept.lemma_promoted(key);
            let moved = swept.order.index_of(key);
            let to = if at - n < moved {
                at - n
            } else {
                at - n - 1
            };
            assert(after.order[to] == spared);
            after.lemma_position(to);
        } else {
            let e = swept.excess() as int;
            swept.lemma_with_room();
            swept.lemma_drop_front(e);
            let room = swept.with_room();
            assert(at - n >= e);
            assert(room.order[at - n - e] == swept.order[e + (at - n - e)]);
            assert(room.entries.contains_key(swept.order[at - n]));
            assert(after.order[at - n - e] == spared);
            after.lemma_position(at - n - e);
        }
    }

    /// A run of insertions of other keys, fewer than the capacity, leaves in
    /// the cache the entry that was touched last before them, as it was, if
    /// it does not go stale meanwhile.
    pub proof fn lemma_inserted_all_spares(self, spared: K, items: Seq<(K, V, u64)>)
        requires
            self.wf(),
            self.entries.contains_key(spared),
            self.order.last() == spared,
            items.len() < self.capacity,
            forall|i: int| 0 <= i < items.len() ==> (#[trigger] items[i]).0 != spared,
            forall|i: int|
                0 <= i < items.len() ==> !stale(
                    self.entries[spared].1,
                    self.ttl,
                    (#[trigger] items[i]).2,
                ),
        ensures
            self.inserted_all(items).wf(),
            self.inserted_all(items).capacity == self.capacity,
            self.inserted_all(items).ttl == self.ttl,
            self.inserted_all(items).entries.contains_key(spared),
            self.inserted_all(items).entries[spared] == self.entries[spared],
            self.inserted_all(items).behind(spared) <= items.len(),
        decreases items.len(),
    {
        if items.len() == 0 {
            assert(self.order.to_set().contains(spared));
            self.lemma_position(self.order.len() - 1);
        } else {
            let first = items.drop_last();
            let next = items.last();
            assert forall|i: int| 0 <= i < first.len() implies (#[trigger] first[i]).0
                != spared by {
                assert(first[i] == items[i]);
            }
            assert forall|i: int| 0 <= i < first.len() implies !stale(
                self.entries[spared].1,
                self.ttl,
                (#[trigger] first[i]).2,
            ) by {
                assert(first[i] == items[i]);
            }
            self.lemma_inserted_all_spares(spared, first);
            let middle = self.inserted_all(first);
            assert(next == items[items.len() - 1]);
            middle.lemma_insert_spares(spared, next.0, next.1, next.2);
            middle.lemma_inserted_wf(next.0, next.1, next.2);
        }
    }

    /// A lookup rescues an entry from eviction: after a hit, insertions of
    /// other keys, fewer than the capacity, leave the entry in the cache with
    /// the value that the lookup found, if it does not go stale meanwhile.
    pub proof fn lemma_touch_renews(self, key: K, now: u64, items: Seq<(K, V, u64)>)
        requires
            self.wf(),
            self.held(key, now).is_some(),
            items.len() < self.capacity,
            forall|i: int| 0 <= i < items.len() ==> (#[trigger] items[i]).0 != key,
            forall|i: int| 0 <= i < items.len() ==> !stale(now, self.ttl, (#[trigger] items[i]).2),
        ensures
            self.fetched(key, now).inserted_all(items).value_of(key) == self.held(key, now),
    {
        let swept = self.swept(now);
        self.lemma_swept_wf(now);
        swept.lemma_put_wf(key, swept.entries[key].0, now);
        assert(swept.touch(key, now) == swept.put(key, swept.entries[key].0, now));
        self.fetched(key, now).lemma_inserted_all_spares(key, items);
    }
}

} // verus!
