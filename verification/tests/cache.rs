use fake_clock::FakeClock;
use lru_time_cache::LruCache;
use rand::distributions::{Distribution, Standard};
use rand::thread_rng;

fn sleep(time: u64) {
    FakeClock::advance_time(time);
}

fn generate_random_vec<T>(len: usize) -> Vec<T>
where
    Standard: Distribution<T>,
{
    let mut rng = thread_rng();
    let v: Vec<T> = Standard.sample_iter(&mut rng).take(len).collect();
    v
}

#[test]
fn size_only() {
    let size = 10usize;
    let mut lru_cache = LruCache::<usize, usize>::with_capacity(size);

    for i in 0..10 {
        assert_eq!(lru_cache.len(), i);
        let _ = lru_cache.insert(i, i);
        assert_eq!(lru_cache.len(), i + 1);
    }

    for i in 10..1000 {
        let _ = lru_cache.insert(i, i);
        assert_eq!(lru_cache.len(), size);
    }

    for _ in (0..1000).rev() {
        assert!(lru_cache.contains_key(&(1000 - 1)));
        assert!(lru_cache.get(&(1000 - 1)).is_some());
        assert_eq!(*lru_cache.get(&(1000 - 1)).unwrap(), 1000 - 1);
    }
}

#[test]
fn time_only() {
    let time_to_live = 100;
    let mut lru_cache = LruCache::<usize, usize>::with_expiry_duration(time_to_live);

    for i in 0..10 {
        assert_eq!(lru_cache.len(), i);
        let _ = lru_cache.insert(i, i);
        assert_eq!(lru_cache.len(), i + 1);
    }

    sleep(101);
    let _ = lru_cache.insert(11, 11);

    assert_eq!(lru_cache.len(), 1);

    for i in 0..10 {
        assert!(!lru_cache.is_empty());
        assert_eq!(lru_cache.len(), i + 1);
        let _ = lru_cache.insert(i, i);
        assert_eq!(lru_cache.len(), i + 2);
    }

    sleep(101);
    assert_eq!(0, lru_cache.len());
    assert!(lru_cache.is_empty());
}

#[test]
fn time_only_check() {
    let time_to_live = 50;
    let mut lru_cache = LruCache::<usize, usize>::with_expiry_duration(time_to_live);

    assert_eq!(lru_cache.len(), 0);
    let _ = lru_cache.insert(0, 0);
    assert_eq!(lru_cache.len(), 1);

    sleep(101);

    assert!(!lru_cache.contains_key(&0));
    assert_eq!(lru_cache.len(), 0);
}

#[test]
fn time_and_size() {
    let size = 10usize;
    let time_to_live = 100;
    let mut lru_cache =
        LruCache::<usize, usize>::with_expiry_duration_and_capacity(time_to_live, size);

    for i in 0..1000 {
        if i < size {
            assert_eq!(lru_cache.len(), i);
        }

        let _ = lru_cache.insert(i, i);

        if i < size {
            assert_eq!(lru_cache.len(), i + 1);
        } else {
            assert_eq!(lru_cache.len(), size);
        }
    }

    sleep(101);
    let _ = lru_cache.insert(1, 1);

    assert_eq!(lru_cache.len(), 1);
}

#[derive(PartialEq, PartialOrd, Ord, Clone, Eq)]
struct Temp {
    id: Vec<u8>,
}

#[test]
fn time_size_struct_value() {
    let size = 100usize;
    let time_to_live = 100;

    let mut lru_cache =
        LruCache::<Temp, usize>::with_expiry_duration_and_capacity(time_to_live, size);

    for i in 0..1000 {
        if i < size {
            assert_eq!(lru_cache.len(), i);
        }

        let _ = lru_cache.insert(
            Temp {
                id: generate_random_vec::<u8>(64),
            },
            i,
        );

        if i < size {
            assert_eq!(lru_cache.len(), i + 1);
        } else {
            assert_eq!(lru_cache.len(), size);
        }
    }

    sleep(101);
    let _ = lru_cache.insert(
        Temp {
            id: generate_random_vec::<u8>(64),
        },
        1,
    );

    assert_eq!(lru_cache.len(), 1);
}

#[test]
fn it_removes_expired_entries() {
    let ttl = 200;
    let mut lru_cache = LruCache::<usize, usize>::with_expiry_duration(ttl);
    let _ = lru_cache.insert(1, 1);
    let _ = lru_cache.insert(2, 2);
    sleep(250);

    let _ = lru_cache.notify_insert(3, 3);

    assert_eq!(lru_cache.stored_len(), 1);
    assert_eq!(*lru_cache.stored(&3).unwrap(), 3);
}

#[test]
fn it_returns_removed_expired_entries() {
    let ttl = 200;
    let mut lru_cache = LruCache::<usize, usize>::with_expiry_duration(ttl);
    let _ = lru_cache.insert(1, 1);
    let _ = lru_cache.insert(2, 2);
    sleep(250);

    let (_replaced, expired) = lru_cache.notify_insert(3, 3);

    assert_eq!(expired.len(), 2);
    assert_eq!(expired[0], (1, 1));
    assert_eq!(expired[1], (2, 2));
}

#[test]
fn update_time_check() {
    let time_to_live = 500;
    let mut lru_cache = LruCache::<usize, usize>::with_expiry_duration(time_to_live);

    assert_eq!(lru_cache.len(), 0);
    let _ = lru_cache.insert(0, 0);
    assert_eq!(lru_cache.len(), 1);

    sleep(300);
    assert_eq!(Some(&0), lru_cache.get(&0));
    sleep(300);
    assert_eq!(Some(&0), lru_cache.peek(&0));
    sleep(300);
    assert_eq!(None, lru_cache.peek(&0));
}

#[test]
fn deref_coercions() {
    let mut lru_cache = LruCache::<String, usize>::with_capacity(1);
    let _ = lru_cache.insert("foo".to_string(), 0);
    let foo = "foo".to_string();
    assert_eq!(true, lru_cache.contains_key(&foo));
    assert_eq!(Some(&0), lru_cache.get(&foo));
    assert_eq!(Some(&mut 0), lru_cache.get_mut(&foo));
    assert_eq!(Some(&0), lru_cache.peek(&foo));
    assert_eq!(Some(0), lru_cache.remove(&foo));
}

#[test]
fn it_removes_expired_entries_from_the_map() {
    let ttl = 200;
    let mut lru_cache = LruCache::<usize, usize>::with_expiry_duration(ttl);
    let _ = lru_cache.insert(1, 1);
    let _ = lru_cache.insert(2, 2);
    sleep(150);
    let _ = lru_cache.insert(3, 3);
    let _ = lru_cache.insert(4, 4);
    sleep(60);

    let now = FakeClock::time();
    let _ = lru_cache.remove_expired(now);

    assert_eq!(lru_cache.stored_len(), 2);
    assert_eq!(*lru_cache.stored(&3).unwrap(), 3);
    assert_eq!(*lru_cache.stored(&4).unwrap(), 4);
}

#[test]
fn it_removes_expired_entries_from_the_list() {
    let ttl = 200;
    let mut lru_cache = LruCache::<usize, usize>::with_expiry_duration(ttl);
    let _ = lru_cache.insert(1, 1);
    let _ = lru_cache.insert(2, 2);
    sleep(150);
    let _ = lru_cache.insert(3, 3);
    let _ = lru_cache.insert(4, 4);
    sleep(60);

    let now = FakeClock::time();
    let _ = lru_cache.remove_expired(now);

    assert_eq!(lru_cache.stored_len(), 2);
    assert_eq!(*lru_cache.key_at(0).unwrap(), 3);
    assert_eq!(*lru_cache.key_at(1).unwrap(), 4);
}

#[test]
fn it_returns_expired_entries() {
    let ttl = 200;
    let mut lru_cache = LruCache::<usize, usize>::with_expiry_duration(ttl);
    let _ = lru_cache.insert(1, 1);
    let _ = lru_cache.insert(2, 2);
    sleep(150);
    let _ = lru_cache.insert(3, 3);
    sleep(60);

    let now = FakeClock::time();
    let expired = lru_cache.remove_expired(now);

    assert_eq!(expired.len(), 2);
    assert_eq!(expired[0], (1, 1));
    assert_eq!(expired[1], (2, 2));
}
