//! A walk through the cache, from the most recently touched entry down.
use crate::model::{lemma_unlink, CacheModel};
use vstd::prelude::*;

verus! {

impl<K, V> CacheModel<K, V> {
    /// The length of the run of stale entries that ends just below position
    /// `cursor`.
    pub open spec fn stale_below(self, cursor: int, now: u64) -> nat
        decreases cursor,
    {
        if 0 < cursor <= self.order.len() && self.stale_at(cursor - 1, now) {
            1 + self.stale_below(cursor - 1, now)
        } else {
            0
        }
    }

    /// Where a walk down from `cursor` stops: just above the first entry that
    /// is not stale, or at 0 if there is none.
    pub open spec fn walk_stop(self, cursor: int, now: u64) -> int {
        cursor - self.stale_below(cursor, now)
    }

    /// The cache without the keys at the positions from `lo` up to `hi`.
    pub open spec fn without_span(self, lo: int, hi: int) -> Self {
        CacheModel {
            order: self.order.take(lo) + self.order.skip(hi),
            entries: self.entries.remove_keys(self.order.subrange(lo, hi).to_set()),
            capacity: self.capacity,
            ttl: self.ttl,
        }
    }

    /// The cache after one step of a walk that drops what is stale: the
    /// stale entries just below `cursor` are gone, and the entry below them,
    /// if there is one, is touched at `now`.
    pub open spec fn walked(self, cursor: int, now: u64) -> Self {
        let stop = self.walk_stop(cursor, now);
        if stop > 0 {
            self.without_span(stop, cursor).touch(self.order[stop - 1], now)
        } else {
            self.without_span(stop, cursor)
        }
    }

    /// What one step of a walk down from `cursor` yields: the first entry
    /// below `cursor` that is not stale.
    pub open spec fn walk_yield(self, cursor: int, now: u64) -> Option<(K, V)> {
        let stop = self.walk_stop(cursor, now);
        if stop > 0 {
            Some(self.pair(stop - 1))
        } else {
            None
        }
    }

    /// Where the walk stands after one step down from `cursor`.
    pub open spec fn walk_cursor(self, cursor: int, now: u64) -> int {
        let stop = self.walk_stop(cursor, now);
        if stop > 0 {
            stop - 1
        } else {
            0
        }
    }

    /// The cache after one step of a walk that reports what is stale: the
    /// entry just below `cursor` is dropped if it is stale, and touched at
    /// `now` if not.
    pub open spec fn visited(self, cursor: int, now: u64) -> Self {
        if cursor <= 0 {
            self
        } else if self.stale_at(cursor - 1, now) {
            self.removed(self.order[cursor - 1])
        } else {
            self.touch(self.order[cursor - 1], now)
        }
    }

    /// A run of stale entries from `stop` up to `cursor`, which the queue's
    /// front or an entry that is not stale closes, is the stale run below
    /// `cursor`.
    pub proof fn lemma_stale_below_is(self, stop: int, cursor: int, now: u64)
        requires
            0 <= stop <= cursor <= self.order.len(),
            forall|i: int| stop <= i < cursor ==> self.stale_at(i, now),
            stop == 0 || !self.stale_at(stop - 1, now),
        ensures
            self.stale_below(cursor, now) == cursor - stop,
            self.walk_stop(cursor, now) == stop,
        decreases cursor - stop,
    {
        if stop < cursor {
            self.lemma_stale_below_is(stop, cursor - 1, now);
        }
    }

    /// A stale run below a position ends at the queue's front or just above
    /// an entry that is not stale, and nowhere after.
    pub proof fn lemma_stale_below_ends(self, cursor: int, now: u64)
        requires
            0 <= cursor <= self.order.len(),
        ensures
            0 <= self.walk_stop(cursor, now) <= cursor,
            forall|i: int| self.walk_stop(cursor, now) <= i < cursor ==> self.stale_at(i, now),
            self.walk_stop(cursor, now) == 0 || !self.stale_at(
                self.walk_stop(cursor, now) - 1,
                now,
            ),
        decreases cursor,
    {
        if 0 < cursor && self.stale_at(cursor - 1, now) {
            self.lemma_stale_below_ends(cursor - 1, now);
        }
    }

    /// Taking out an empty span changes nothing.
    pub proof fn lemma_span_none(self, at: int)
        requires
            0 <= at <= self.order.len(),
        ensures
            self.without_span(at, at) == self,
    {
        assert(self.order.subrange(at, at).to_set() =~= Set::<K>::empty());
        assert(self.without_span(at, at) =~= self);
    }

    /// What is left when a span of keys is taken out: a well-formed cache
    /// that holds the other keys, each with its entry, in their order.
    pub proof fn lemma_without_span(self, lo: int, hi: int)
        requires
            self.wf(),
            0 <= lo <= hi <= self.order.len(),
        ensures
            self.without_span(lo, hi).wf(),
            self.without_span(lo, hi).order.len() == self.order.len() - (hi - lo),
            forall|i: int|
                0 <= i < lo ==> #[trigger] self.without_span(lo, hi).order[i] == self.order[i],
            forall|i: int|
                lo <= i < self.order.len() - (hi - lo) ==> #[trigger] self.without_span(
                    lo,
                    hi,
                ).order[i] == self.order[i + (hi - lo)],
            forall|i: int|
                0 <= i < lo || hi <= i < self.order.len() ==> #[trigger] self.without_span(
                    lo,
                    hi,
                ).entries.contains_key(self.order[i]) && self.without_span(
                    lo,
                    hi,
                ).entries[self.order[i]] == self.entries[self.order[i]],
            forall|i: int|
                lo <= i < hi ==> !#[trigger] self.without_span(lo, hi).entries.contains_key(
                    self.order[i],
                ),
    {
        let rest = self.without_span(lo, hi);
        let span = self.order.subrange(lo, hi);
        let gone = span.to_set();
        assert forall|i: int| 0 <= i < lo || hi <= i < self.order.len() implies !gone.contains(
            self.order[i],
        ) by {
            if gone.contains(self.order[i]) {
                let j = choose|j: int| 0 <= j < span.len() && span[j] == self.order[i];
                assert(self.order[lo + j] == self.order[i]);
            }
        }
        assert forall|i: int| lo <= i < hi implies gone.contains(self.order[i]) by {
            assert(span[i - lo] == self.order[i]);
        }
        assert forall|i: int|
            0 <= i < lo || hi <= i < self.order.len() implies #[trigger] rest.entries.contains_key(
            self.order[i],
        ) && rest.entries[self.order[i]] == self.entries[self.order[i]] by {
            assert(self.order.to_set().contains(self.order[i]));
        }
        assert forall|i: int| 0 <= i < rest.order.len() implies #[trigger] rest.order[i]
            == self.order[if i < lo {
            i
        } else {
            i + (hi - lo)
        }] by {}
        assert(rest.order.no_duplicates());
        assert(rest.order.to_set() =~= rest.entries.dom()) by {
            assert forall|k: K| rest.order.to_set().contains(k) == rest.entries.dom().contains(
                k,
            ) by {
                if rest.order.contains(k) {
                    let i = choose|i: int| 0 <= i < rest.order.len() && rest.order[i] == k;
                    let from = if i < lo {
                        i
                    } else {
                        i + (hi - lo)
                    };
                    assert(k == self.order[from]);
                    assert(rest.entries.contains_key(self.order[from]));
                }
                if rest.entries.contains_key(k) {
                    assert(self.order.to_set().contains(k));
                    let i = choose|i: int| 0 <= i < self.order.len() && self.order[i] == k;
                    assert(!(lo <= i < hi));
                    let to = if i < lo {
                        i
                    } else {
                        i - (hi - lo)
                    };
                    assert(rest.order[to] == k);
                }
            }
        }
    }

    /// Taking out a span and then the key just below it is taking out the
    /// span that starts one position lower.
    pub proof fn lemma_span_one_more(self, lo: int, hi: int)
        requires
            self.wf(),
            0 < lo <= hi <= self.order.len(),
        ensures
            self.without_span(lo, hi).order.remove(lo - 1) == self.without_span(lo - 1, hi).order,
            self.without_span(lo, hi).entries.remove(self.order[lo - 1]) == self.without_span(
                lo - 1,
                hi,
            ).entries,
    {
        assert(self.without_span(lo, hi).order.remove(lo - 1) =~= self.without_span(
            lo - 1,
            hi,
        ).order);
        let short = self.order.subrange(lo, hi);
        let long = self.order.subrange(lo - 1, hi);
        assert(long.to_set() =~= short.to_set().insert(self.order[lo - 1])) by {
            assert forall|k: K|
                long.to_set().contains(k) == short.to_set().insert(self.order[lo - 1]).contains(
                    k,
                ) by {
                if long.contains(k) {
                    let j = choose|j: int| 0 <= j < long.len() && long[j] == k;
                    if j > 0 {
                        assert(short[j - 1] == k);
                    }
                }
                if short.contains(k) {
                    let j = choose|j: int| 0 <= j < short.len() && short[j] == k;
                    assert(long[j + 1] == k);
                }
                if k == self.order[lo - 1] {
                    assert(long[0] == k);
                }
            }
        }
        assert(self.without_span(lo, hi).entries.remove(self.order[lo - 1])
            =~= self.without_span(lo - 1, hi).entries);
    }

    /// The entries that are left when a span is taken out keep their touch
    /// times, so a queue ordered by touch time stays ordered.
    pub proof fn lemma_without_span_times(self, lo: int, hi: int)
        requires
            self.wf(),
            0 <= lo <= hi <= self.order.len(),
        ensures
            forall|i: int|
                0 <= i < self.order.len() - (hi - lo) ==> #[trigger] self.without_span(
                    lo,
                    hi,
                ).touched(i) == self.touched(
                    if i < lo {
                        i
                    } else {
                        i + (hi - lo)
                    },
                ),
            self.time_ordered() ==> self.without_span(lo, hi).time_ordered(),
            forall|now: u64| self.not_after(now) ==> self.without_span(lo, hi).not_after(now),
    {
        self.lemma_without_span(lo, hi);
        let rest = self.without_span(lo, hi);
        assert forall|i: int| 0 <= i < rest.order.len() implies #[trigger] rest.touched(i)
            == self.touched(
            if i < lo {
                i
            } else {
                i + (hi - lo)
            },
        ) by {
            let from = if i < lo {
                i
            } else {
                i + (hi - lo)
            };
            assert(rest.order[i] == self.order[from]);
            assert(rest.entries.contains_key(self.order[from]));
        }
        assert forall|now: u64| self.not_after(now) implies rest.not_after(now) by {
            assert forall|i: int| 0 <= i < rest.order.len() implies #[trigger] rest.touched(i)
                <= now by {
                let from = if i < lo {
                    i
                } else {
                    i + (hi - lo)
                };
                assert(self.touched(from) <= now);
            }
        }
        if self.time_ordered() {
            assert forall|i: int, j: int| 0 <= i <= j < rest.order.len() implies rest.touched(i)
                <= rest.touched(j) by {
                let from_i = if i < lo {
                    i
                } else {
                    i + (hi - lo)
                };
                let from_j = if j < lo {
                    j
                } else {
                    j + (hi - lo)
                };
                assert(rest.touched(i) == self.touched(from_i));
                assert(rest.touched(j) == self.touched(from_j));
            }
        }
    }

    /// A step of a walk leaves the queue and the store in step, the walk
    /// within the queue, and everything below the walk as it was: the steps
    /// of a walk yield the entries that were there when it began, each one
    /// from a lower position than the one before.
    pub proof fn lemma_walked(self, cursor: int, now: u64)
        requires
            self.wf(),
            0 <= cursor <= self.order.len(),
        ensures
            self.walked(cursor, now).wf(),
            0 <= self.walk_cursor(cursor, now) <= self.walked(cursor, now).order.len(),
            self.walk_cursor(cursor, now) <= cursor,
            self.walk_yield(cursor, now).is_some() ==> self.walk_cursor(cursor, now) < cursor,
            forall|i: int|
                0 <= i < self.walk_cursor(cursor, now) ==> #[trigger] self.walked(
                    cursor,
                    now,
                ).order[i] == self.order[i] && self.walked(cursor, now).entries[self.order[i]]
                    == self.entries[self.order[i]],
    {
        self.lemma_stale_below_ends(cursor, now);
        let stop = self.walk_stop(cursor, now);
        let rest = self.without_span(stop, cursor);
        self.lemma_without_span(stop, cursor);
        if stop > 0 {
            let key = self.order[stop - 1];
            assert(rest.order[stop - 1] == key);
            rest.lemma_position(stop - 1);
            assert(rest.order.to_set().contains(key));
            rest.lemma_touch_wf(key, now);
            rest.lemma_promoted(key);
            assert forall|i: int| 0 <= i < stop - 1 implies #[trigger] rest.touch(
                key,
                now,
            ).order[i] == self.order[i] && rest.touch(key, now).entries[self.order[i]]
                == self.entries[self.order[i]] by {
                assert(rest.order[i] == self.order[i]);
                assert(rest.entries.contains_key(self.order[i]));
                assert(self.order[i] != self.order[stop - 1]);
            }
        }
    }

    /// While the clock does not run backwards, a step of a walk keeps the
    /// queue ordered by touch time.
    pub proof fn lemma_walked_time_ordered(self, cursor: int, now: u64)
        requires
            self.wf(),
            self.time_ordered(),
            self.not_after(now),
            0 <= cursor <= self.order.len(),
        ensures
            self.walked(cursor, now).time_ordered(),
            self.walked(cursor, now).not_after(now),
    {
        self.lemma_stale_below_ends(cursor, now);
        let stop = self.walk_stop(cursor, now);
        let rest = self.without_span(stop, cursor);
        self.lemma_without_span(stop, cursor);
        self.lemma_without_span_times(stop, cursor);
        if stop > 0 {
            let key = self.order[stop - 1];
            assert(rest.order[stop - 1] == key);
            assert(rest.order.to_set().contains(key));
            rest.lemma_put_time_ordered(key, rest.entries[key].0, now);
            assert(rest.touch(key, now) == rest.put(key, rest.entries[key].0, now));
        }
    }

    /// A visit leaves the queue and the store in step and, while the clock
    /// does not run backwards, the queue ordered by touch time.
    pub proof fn lemma_visited(self, cursor: int, now: u64)
        requires
            self.wf(),
            0 <= cursor <= self.order.len(),
        ensures
            self.visited(cursor, now).wf(),
            cursor > 0 ==> cursor - 1 <= self.visited(cursor, now).order.len(),
            self.time_ordered() && self.not_after(now) ==> self.visited(cursor, now).time_ordered()
                && self.visited(cursor, now).not_after(now),
            forall|i: int|
                0 <= i < cursor - 1 ==> #[trigger] self.visited(cursor, now).order[i]
                    == self.order[i] && self.visited(cursor, now).entries[self.order[i]]
                    == self.entries[self.order[i]],
    {
        if cursor > 0 {
            let key = self.order[cursor - 1];
            self.lemma_position(cursor - 1);
            assert(self.order.to_set().contains(key));
            self.lemma_removed_wf(key);
            self.lemma_touch_wf(key, now);
            self.lemma_promoted(key);
            lemma_unlink(self.order, cursor - 1);
            assert forall|i: int| 0 <= i < cursor - 1 implies #[trigger] self.visited(
                cursor,
                now,
            ).order[i] == self.order[i] && self.visited(cursor, now).entries[self.order[i]]
                == self.entries[self.order[i]] by {
                assert(self.order[i] != self.order[cursor - 1]);
                assert(self.order.to_set().contains(self.order[i]));
            }
            if self.time_ordered() && self.not_after(now) {
                self.lemma_removed_time_ordered(key);
                self.lemma_put_time_ordered(key, self.entries[key].0, now);
                assert(self.touch(key, now) == self.put(key, self.entries[key].0, now));
            }
        }
    }

    /// A walk and a look agree: what a step yields, a look at the same time
    /// shows, and a step yields nothing only if every entry below the walk
    /// is stale.
    pub proof fn lemma_walk_agrees_with_look(self, cursor: int, now: u64)
        requires
            self.wf(),
            0 <= cursor <= self.order.len(),
        ensures
            match self.walk_yield(cursor, now) {
                Some((key, value)) => self.peeked(key, now) == Some(value),
                None => forall|i: int| 0 <= i < cursor ==> self.stale_at(i, now),
            },
    {
        self.lemma_stale_below_ends(cursor, now);
        let stop = self.walk_stop(cursor, now);
        if stop > 0 {
            assert(self.order.to_set().contains(self.order[stop - 1]));
            assert(!self.stale_at(stop - 1, now));
        }
    }
}

} // verus!
