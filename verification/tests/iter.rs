use fake_clock::FakeClock;
use lru_time_cache::{LruCache, TimedEntry};

fn sleep(time: u64) {
    FakeClock::advance_time(time);
}

fn collect_touching(lru_cache: &mut LruCache<usize, usize>) -> Vec<(usize, usize)> {
    let mut walk = lru_cache.iter();
    let mut items = Vec::new();
    while let Some((key, value)) = walk.next() {
        items.push((*key, *value));
    }
    items
}

fn collect_peeking(lru_cache: &LruCache<usize, usize>) -> Vec<(&usize, &usize)> {
    let mut walk = lru_cache.peek_iter();
    let mut items = Vec::new();
    while let Some(item) = walk.next() {
        items.push(item);
    }
    items
}

#[test]
fn it_returns_none_when_cache_is_empty() {
    let mut lru_cache = LruCache::<usize, usize>::with_capacity(3);

    let mut walk = lru_cache.iter();
    let next = walk.next();

    assert!(next.is_none());
}

#[test]
fn it_updates_item_timestamps_of_traversed_items() {
    let mut lru_cache = LruCache::<usize, usize>::with_capacity(3);
    let _ = lru_cache.insert(0, 0);
    sleep(1);
    let _ = lru_cache.insert(1, 1);
    sleep(1);
    let _ = lru_cache.insert(2, 2);
    sleep(1);

    let initial_instant0 = lru_cache.touched_at(&0).unwrap();
    let initial_instant2 = lru_cache.touched_at(&2).unwrap();
    sleep(1);

    // only the first two entries should have their timestamp updated (and position in list)
    {
        let mut walk = lru_cache.iter();
        let _ = walk.next();
        let _ = walk.next();
    }

    assert_ne!(lru_cache.touched_at(&2).unwrap(), initial_instant2);
    assert_eq!(lru_cache.touched_at(&0).unwrap(), initial_instant0);
}

#[test]
fn it_moves_traversed_items_to_the_top_of_the_cache() {
    let mut lru_cache = LruCache::<usize, usize>::with_capacity(3);
    let _ = lru_cache.insert(0, 0);
    let _ = lru_cache.insert(1, 1);
    let _ = lru_cache.insert(2, 2);

    {
        let mut walk = lru_cache.iter();
        let _ = walk.next();
        let _ = walk.next();
    }

    assert_eq!(*lru_cache.key_at(0).unwrap(), 0);
    assert_eq!(*lru_cache.key_at(lru_cache.stored_len() - 1).unwrap(), 1);
}

#[test]
fn it_yields_the_most_recent_items_first() {
    let mut lru_cache = LruCache::<usize, usize>::with_capacity(4);
    let _ = lru_cache.insert(2, 2);
    let _ = lru_cache.insert(0, 0);
    let _ = lru_cache.insert(3, 3);
    let _ = lru_cache.insert(1, 1);

    let cached = collect_touching(&mut lru_cache);

    assert_eq!(cached, vec![(1, 1), (3, 3), (0, 0), (2, 2)]);
}

#[test]
fn it_removes_expired_items() {
    let mut lru_cache = LruCache::<usize, usize>::with_expiry_duration(3);
    let _ = lru_cache.insert(0, 0);
    sleep(1);
    let _ = lru_cache.insert(1, 1);
    sleep(4);
    let _ = lru_cache.insert(2, 2);

    let items = collect_touching(&mut lru_cache);

    assert_eq!(items.len(), 1);
    assert_eq!(items[0], (2, 2));
}

#[test]
fn lib_it_returns_none_when_cache_is_empty() {
    let mut lru_cache = LruCache::<usize, usize>::with_capacity(3);

    let mut walk = lru_cache.notify_iter();
    let next = walk.next();

    assert!(next.is_none());
}

#[test]
fn lib_it_yields_the_most_recent_items_first() {
    let mut lru_cache = LruCache::<usize, usize>::with_capacity(4);
    let _ = lru_cache.insert(2, 2);
    let _ = lru_cache.insert(0, 0);
    let _ = lru_cache.insert(3, 3);
    let _ = lru_cache.insert(1, 1);

    let mut cached = Vec::new();
    let mut walk = lru_cache.notify_iter();
    while let Some(entry) = walk.next() {
        match entry {
            TimedEntry::Valid(key, value) => cached.push((*key, *value)),
            _ => panic!("Unexpected expired entry"),
        }
    }

    assert_eq!(cached, vec![(1, 1), (3, 3), (0, 0), (2, 2)]);
}

#[test]
fn it_produces_expired_and_valid_entries() {
    let mut lru_cache = LruCache::<usize, usize>::with_expiry_duration(300);
    let _ = lru_cache.insert(0, 0);
    let _ = lru_cache.insert(1, 1);
    sleep(250);
    let _ = lru_cache.insert(2, 2);
    sleep(60);

    let mut expired = Vec::new();
    {
        let mut walk = lru_cache.notify_iter();
        while let Some(entry) = walk.next() {
            match entry {
                TimedEntry::Expired(key, value) => expired.push((key, value)),
                _ => {}
            }
        }
    }
    let mut valid = Vec::new();
    {
        let mut walk = lru_cache.notify_iter();
        while let Some(entry) = walk.next() {
            match entry {
                TimedEntry::Valid(key, value) => valid.push((*key, *value)),
                _ => {}
            }
        }
    }

    assert_eq!(valid.len(), 1);
    assert_eq!(valid[0], (2, 2));
    assert_eq!(expired.len(), 2);
    assert_eq!(expired[0], (1, 1));
    assert_eq!(expired[1], (0, 0));
}

#[test]
fn lib_it_removes_expired_items() {
    let mut lru_cache = LruCache::<usize, usize>::with_expiry_duration(300);
    let _ = lru_cache.insert(0, 0);
    let _ = lru_cache.insert(1, 1);
    sleep(250);
    let _ = lru_cache.insert(2, 2);
    sleep(60);

    {
        let mut walk = lru_cache.notify_iter();
        while walk.next().is_some() {}
    }

    assert!(lru_cache.get(&0).is_none());
    assert!(lru_cache.get(&1).is_none());
}

#[test]
fn it_yields_cached_entries_in_most_recently_used_order() {
    let time_to_live = 500;
    let mut lru_cache = LruCache::<usize, usize>::with_expiry_duration(time_to_live);

    let _ = lru_cache.insert(1, 1);
    let _ = lru_cache.insert(2, 2);
    let _ = lru_cache.insert(3, 3);

    assert_eq!(
        vec![(&3, &3), (&2, &2), (&1, &1)],
        collect_peeking(&lru_cache)
    );
}

#[test]
fn it_yields_only_unexpired_entries() {
    let time_to_live = 500;
    let mut lru_cache = LruCache::<usize, usize>::with_expiry_duration(time_to_live);

    let _ = lru_cache.insert(1, 1);
    let _ = lru_cache.insert(2, 2);
    sleep(300);
    let _ = lru_cache.insert(3, 3);
    sleep(300);

    let entries = collect_peeking(&lru_cache);

    assert_eq!(entries, vec![(&3, &3)]);
}

#[test]
fn it_doesnt_modify_entry_update_time() {
    let time_to_live = 500;
    let mut lru_cache = LruCache::<usize, usize>::with_expiry_duration(time_to_live);

    let _ = lru_cache.insert(1, 1);
    let expected_time = lru_cache.touched_at(&1).unwrap();

    let _ = collect_peeking(&lru_cache);

    let real_time = lru_cache.touched_at(&1).unwrap();
    assert_eq!(real_time, expected_time);
}
