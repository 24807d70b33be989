use fake_clock::FakeClock;
use lru_time_cache::{Entry, LruCache, TimedEntry};

fn sleep(time: u64) {
    FakeClock::advance_time(time);
}

fn queue(cache: &LruCache<u32, u32>) -> Vec<u32> {
    let mut keys = Vec::new();
    let mut at = 0;
    while let Some(key) = cache.key_at(at) {
        keys.push(*key);
        at += 1;
    }
    keys
}

#[test]
fn constructors_set_the_policy() {
    let by_size = LruCache::<u32, u32>::with_capacity(7);
    assert_eq!(by_size.capacity(), 7);
    assert_eq!(by_size.time_to_live(), None);
    let by_age = LruCache::<u32, u32>::with_expiry_duration(250);
    assert_eq!(by_age.capacity(), usize::MAX);
    assert_eq!(by_age.time_to_live(), Some(250));
    let by_both = LruCache::<u32, u32>::with_expiry_duration_and_capacity(250, 7);
    assert_eq!(by_both.capacity(), 7);
    assert_eq!(by_both.time_to_live(), Some(250));
    assert!(by_size.is_empty() && by_age.is_empty() && by_both.is_empty());
}

#[test]
fn the_largest_capacity_is_no_bound() {
    let mut cache = LruCache::<u32, u32>::with_capacity(usize::MAX);
    for key in 0..100u32 {
        let _ = cache.insert(key, key);
    }
    assert_eq!(cache.len(), 100);
    let mut timed = LruCache::<u32, u32>::with_expiry_duration_and_capacity(10, usize::MAX);
    let _ = timed.insert(1, 1);
    assert_eq!(timed.len(), 1);
}

#[test]
fn capacity_zero_keeps_only_the_newest() {
    let mut cache = LruCache::<u32, u32>::with_capacity(0);
    assert_eq!(cache.insert(1, 1), None);
    assert_eq!(queue(&cache), vec![1]);
    assert_eq!(cache.insert(2, 2), None);
    assert_eq!(queue(&cache), vec![2]);
    assert_eq!(cache.insert(2, 3), Some(2));
    assert_eq!(queue(&cache), vec![2]);
}

#[test]
fn insert_of_a_held_key_evicts_nothing() {
    let mut cache = LruCache::<u32, u32>::with_capacity(3);
    for key in 0..3u32 {
        let _ = cache.insert(key, key);
    }
    assert_eq!(cache.insert(0, 100), Some(0));
    assert_eq!(queue(&cache), vec![1, 2, 0]);
    assert_eq!(cache.peek(&0), Some(&100));
    assert_eq!(cache.len(), 3);
}

#[test]
fn sweep_comes_before_eviction() {
    let mut cache = LruCache::<u32, u32>::with_expiry_duration_and_capacity(100, 3);
    let _ = cache.insert(0, 0);
    sleep(60);
    let _ = cache.insert(1, 1);
    let _ = cache.insert(2, 2);
    sleep(50);
    // Key 0 is stale at 110; the sweep drops it, and nothing else has to go.
    let (previous, expired) = cache.notify_insert(3, 3);
    assert_eq!(previous, None);
    assert_eq!(expired, vec![(0, 0)]);
    assert_eq!(queue(&cache), vec![1, 2, 3]);
}

#[test]
fn staleness_is_strict() {
    let mut cache = LruCache::<u32, u32>::with_expiry_duration(100);
    let _ = cache.do_notify_insert(1, 1, 1000);
    assert_eq!(cache.do_peek(&1, 1100), Some(&1));
    assert_eq!(cache.do_peek(&1, 1101), None);
    assert_eq!(cache.do_len(1100), 1);
    assert_eq!(cache.do_len(1101), 0);
    assert!(!cache.do_is_empty(1100));
    assert!(cache.do_is_empty(1101));
    assert_eq!(cache.remove_expired(1100), vec![]);
    assert_eq!(cache.remove_expired(1101), vec![(1, 1)]);
    assert_eq!(cache.stored_len(), 0);
}

#[test]
fn times_near_the_end_of_the_clock_do_not_overflow() {
    let mut cache = LruCache::<u32, u32>::with_expiry_duration(u64::MAX);
    let _ = cache.do_notify_insert(1, 1, u64::MAX - 1);
    assert_eq!(cache.do_peek(&1, u64::MAX), Some(&1));
    assert_eq!(cache.do_len(u64::MAX), 1);
    let mut short = LruCache::<u32, u32>::with_expiry_duration(1);
    let _ = short.do_notify_insert(1, 1, u64::MAX - 2);
    assert_eq!(short.do_peek(&1, u64::MAX - 1), Some(&1));
    assert_eq!(short.do_peek(&1, u64::MAX), None);
}

#[test]
fn a_walk_keeps_an_entry_aged_exactly_the_time_to_live() {
    let mut cache = LruCache::<u32, u32>::with_expiry_duration(100);
    let _ = cache.insert(1, 1);
    sleep(100);
    // At an age of exactly the time to live the entry still counts, for the
    // looks, the count and the walks alike.
    assert_eq!(cache.peek(&1), Some(&1));
    assert_eq!(cache.len(), 1);
    {
        let mut walk = cache.peek_iter();
        assert_eq!(walk.next(), Some((&1, &1)));
        assert!(walk.next().is_none());
    }
    assert_eq!(cache.touched_at(&1), Some(0));
    {
        let mut walk = cache.iter();
        assert_eq!(walk.next(), Some((&1, &1)));
        assert!(walk.next().is_none());
    }
    assert_eq!(cache.stored_len(), 1);
    assert_eq!(cache.touched_at(&1), Some(100));
}

#[test]
fn a_walk_drops_what_is_stale() {
    let mut cache = LruCache::<u32, u32>::with_expiry_duration(100);
    let _ = cache.insert(1, 1);
    sleep(101);
    assert_eq!(cache.peek(&1), None);
    {
        let mut walk = cache.peek_iter();
        assert!(walk.next().is_none());
    }
    assert_eq!(cache.stored_len(), 1);
    {
        let mut walk = lru_time_cache::Iter::new(&mut cache);
        assert!(walk.next().is_none());
    }
    assert_eq!(cache.stored_len(), 0);
}

#[test]
fn a_notifying_walk_hands_over_what_is_stale() {
    let mut cache = LruCache::<u32, u32>::with_expiry_duration(100);
    let _ = cache.insert(1, 10);
    let _ = cache.insert(2, 20);
    sleep(100);
    {
        let mut walk = cache.notify_iter();
        match walk.next() {
            Some(TimedEntry::Valid(key, value)) => assert_eq!((*key, *value), (2, 20)),
            _ => panic!("the entry is not stale"),
        }
    }
    sleep(1);
    let mut walk = cache.notify_iter();
    match walk.next() {
        Some(TimedEntry::Valid(key, value)) => assert_eq!((*key, *value), (2, 20)),
        _ => panic!("the entry was touched a moment ago"),
    }
    match walk.next() {
        Some(TimedEntry::Expired(key, value)) => assert_eq!((key, value), (1, 10)),
        _ => panic!("the entry is stale"),
    }
    assert!(walk.next().is_none());
}

#[test]
fn walks_by_explicit_time() {
    let mut cache = LruCache::<u32, u32>::with_expiry_duration(100);
    let _ = cache.do_notify_insert(1, 10, 0);
    let _ = cache.do_notify_insert(2, 20, 50);
    let _ = cache.do_notify_insert(3, 30, 60);
    {
        let mut walk = cache.peek_iter();
        assert_eq!(walk.do_next(150), Some((&3, &30)));
        assert_eq!(walk.do_next(150), Some((&2, &20)));
        assert_eq!(walk.do_next(150), None);
        assert_eq!(walk.do_next(150), None);
    }
    assert_eq!(queue(&cache), vec![1, 2, 3]);
    {
        let mut walk = lru_time_cache::Iter::new(&mut cache);
        assert_eq!(walk.do_next(150), Some((&3, &30)));
        // Key 2 was touched at 50: at 150 it would still count, at 151 it is
        // stale, and so is key 1.
        assert_eq!(walk.do_next(151), None);
    }
    assert_eq!(queue(&cache), vec![3]);
    assert_eq!(cache.touched_at(&3), Some(150));
    let mut other = LruCache::<u32, u32>::with_expiry_duration(100);
    let _ = other.do_notify_insert(1, 10, 0);
    let _ = other.do_notify_insert(2, 20, 50);
    {
        let mut walk = lru_time_cache::NotifyIter::new(&mut other);
        match walk.do_next(150) {
            Some(TimedEntry::Valid(key, value)) => assert_eq!((*key, *value), (2, 20)),
            _ => panic!("the entry is not stale"),
        }
        match walk.do_next(150) {
            Some(TimedEntry::Expired(key, value)) => assert_eq!((key, value), (1, 10)),
            _ => panic!("the entry is stale"),
        }
        assert!(walk.do_next(150).is_none());
    }
    assert_eq!(queue(&other), vec![2]);
}

#[test]
fn a_walk_set_beyond_the_queue_ends() {
    let mut cache = LruCache::<u32, u32>::with_capacity(3);
    let _ = cache.insert(1, 1);
    let _ = cache.insert(2, 2);
    {
        let mut walk = cache.peek_iter();
        walk.item_index = 10;
        assert!(walk.next().is_none());
    }
    {
        let mut walk = cache.iter();
        walk.item_index = 10;
        assert!(walk.next().is_none());
    }
    {
        let mut walk = cache.notify_iter();
        walk.item_index = 10;
        assert!(walk.next().is_none());
    }
    {
        let mut walk = cache.iter();
        walk.cache.clear();
        assert!(walk.next().is_none());
    }
    assert_eq!(cache.stored_len(), 0);
}

#[test]
fn remove_takes_a_stale_entry_too() {
    let mut cache = LruCache::<u32, u32>::with_expiry_duration(10);
    let _ = cache.insert(1, 11);
    let _ = cache.insert(2, 22);
    sleep(50);
    assert_eq!(cache.peek(&1), None);
    assert_eq!(cache.remove(&1), Some(11));
    assert_eq!(queue(&cache), vec![2]);
    assert_eq!(cache.stored(&1), None);
}

#[test]
fn clear_empties_the_cache() {
    let mut cache = LruCache::<u32, u32>::with_capacity(3);
    let _ = cache.insert(1, 1);
    let _ = cache.insert(2, 2);
    cache.clear();
    assert_eq!(cache.len(), 0);
    assert!(cache.is_empty());
    assert_eq!(cache.stored_len(), 0);
    assert_eq!(cache.peek(&1), None);
    assert_eq!(cache.capacity(), 3);
}

#[test]
fn get_mut_writes_through() {
    let mut cache = LruCache::<u32, u32>::with_capacity(3);
    let _ = cache.insert(1, 1);
    let _ = cache.insert(2, 2);
    sleep(5);
    match cache.get_mut(&1) {
        Some(value) => *value = 100,
        None => panic!("the key is held"),
    }
    assert_eq!(cache.peek(&1), Some(&100));
    assert_eq!(cache.peek(&2), Some(&2));
    assert_eq!(cache.touched_at(&1), Some(5));
    assert_eq!(cache.touched_at(&2), Some(0));
    assert_eq!(queue(&cache), vec![2, 1]);
    assert!(cache.get_mut(&9).is_none());
}

#[test]
fn notify_get_returns_what_the_sweep_dropped() {
    let mut cache = LruCache::<u32, u32>::with_expiry_duration(100);
    let _ = cache.insert(1, 1);
    let _ = cache.insert(2, 2);
    sleep(60);
    let _ = cache.insert(3, 3);
    sleep(60);
    let (found, expired) = cache.notify_get(&3);
    assert_eq!(found, Some(&3));
    assert_eq!(expired, vec![(1, 1), (2, 2)]);
    let (found, expired) = cache.notify_get_mut(&1);
    assert!(found.is_none());
    assert!(expired.is_empty());
}

#[test]
fn is_empty_looks_at_the_most_recent_entry() {
    let mut cache = LruCache::<u32, u32>::with_expiry_duration(100);
    assert!(cache.is_empty());
    let _ = cache.insert(1, 1);
    sleep(80);
    let _ = cache.insert(2, 2);
    sleep(80);
    assert!(!cache.is_empty());
    assert_eq!(cache.len(), 1);
    sleep(21);
    assert!(cache.is_empty());
    assert_eq!(cache.len(), 0);
    assert_eq!(cache.stored_len(), 2);
}

#[test]
fn entry_fills_a_free_place() {
    let mut cache = LruCache::<u32, u32>::with_capacity(2);
    *cache.entry(1).or_insert(10) += 1;
    assert_eq!(cache.peek(&1), Some(&11));
    *cache.entry(1).or_insert(50) += 1;
    assert_eq!(cache.peek(&1), Some(&12));
    let _ = cache.entry(2).or_insert_with(|| 20);
    let _ = cache.entry(2).or_insert_with(|| panic!("the place is held"));
    assert_eq!(cache.peek(&2), Some(&20));
    assert_eq!(queue(&cache), vec![1, 2]);
}

#[test]
fn entry_variants() {
    let mut cache = LruCache::<u32, u32>::with_expiry_duration(100);
    match cache.entry(1) {
        Entry::Vacant(free) => {
            assert_eq!(free.key, 1);
            assert_eq!(*free.insert(10), 10);
        }
        Entry::Occupied(_) => panic!("the place is free"),
    }
    sleep(100);
    match cache.entry(1) {
        Entry::Occupied(held) => assert_eq!(*held.into_mut(), 10),
        Entry::Vacant(_) => panic!("the place is held"),
    }
    assert_eq!(cache.touched_at(&1), Some(100));
    sleep(101);
    match cache.entry(1) {
        Entry::Vacant(free) => assert_eq!(*free.do_insert(11, FakeClock::time()), 11),
        Entry::Occupied(_) => panic!("the entry is stale"),
    }
    assert_eq!(cache.peek(&1), Some(&11));
    assert_eq!(cache.stored_len(), 1);
}

#[test]
fn a_clone_goes_its_own_way() {
    let mut cache = LruCache::<u32, u32>::with_capacity(2);
    let _ = cache.insert(1, 1);
    let mut copy = cache.clone();
    let _ = copy.insert(2, 2);
    let _ = copy.insert(3, 3);
    assert_eq!(queue(&cache), vec![1]);
    assert_eq!(queue(&copy), vec![2, 3]);
}
