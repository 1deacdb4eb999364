use rand::rngs::SmallRng;
use rand::seq::SliceRandom;
use rand::Rng;
use rand::SeedableRng;
use skipidy::entry::Entry;
use skipidy::SkipMap;
use std::borrow::Borrow;
use std::cmp::Ordering;
use std::collections::BTreeMap;

fn random_items(seed: u64, n: usize) -> BTreeMap<usize, usize> {
    let mut rng = SmallRng::seed_from_u64(seed);
    let mut out = BTreeMap::new();
    while out.len() < n {
        out.insert(rng.random::<u64>() as usize, rng.random::<u64>() as usize);
    }
    out
}

#[test]
fn map_replaces_on_duplicate_key() {
    let mut map = SkipMap::<u32, char, 4>::new();
    assert_eq!(map.insert(1, 'a'), None);
    assert_eq!(map.insert(2, 'b'), None);
    assert_eq!(map.insert(3, 'c'), None);
    assert_eq!(map.insert(2, 'B'), Some('b'));
    assert_eq!(map.get(&2), Some(&'B'));
    assert_eq!(map.remove(&2), Some('B'));
    assert_eq!(map.get(&2), None);
    assert!(map.contains(&1));
    assert!(!map.contains(&2));
    assert!(map.contains(&3));
}

#[test]
fn map_last_value_wins() {
    let mut rng = SmallRng::seed_from_u64(9);
    let mut expect: BTreeMap<u16, u32> = BTreeMap::new();
    let mut map = SkipMap::<u16, u32, 32>::new();
    for _ in 0..1000 {
        let k = rng.random::<u16>() % 400;
        let v = rng.random::<u32>();
        assert_eq!(map.insert(k, v), expect.insert(k, v));
    }
    for (k, v) in &expect {
        assert_eq!(map.get(k), Some(v));
    }
    let on_base = map.level_entries(0);
    assert_eq!(on_base.len(), expect.len());
    for (entry, (k, v)) in on_base.iter().zip(expect.iter()) {
        assert_eq!(entry.key, *k);
        assert_eq!(entry.value, *v);
    }
    let mut keys: Vec<u16> = expect.keys().copied().collect();
    keys.shuffle(&mut rng);
    for k in &keys {
        assert_eq!(map.remove(k), expect.remove(k));
        assert_eq!(map.remove(k), None);
    }
    assert!(map.is_empty());
    assert_eq!(map.levels(), 0);
}

#[test]
fn map_insert_get() {
    let items = random_items(1, 1000);
    let mut map = SkipMap::<usize, usize, 32>::new();
    for (k, v) in &items {
        assert!(map.insert(*k, *v).is_none());
    }
    for (k, v) in items.iter().rev() {
        assert!(map.get(k).is_some_and(|x| x == v));
    }
}

#[test]
fn map_insert_get_small() {
    for seed in 0..50 {
        let items = random_items(seed, 8);
        let mut map = SkipMap::<usize, usize, 4>::new();
        for (k, v) in &items {
            assert!(map.insert(*k, *v).is_none());
        }
        for (k, v) in items.iter().rev() {
            assert!(map.get(k).is_some_and(|x| x == v));
        }
    }
}

#[test]
fn map_insert_remove() {
    let items = random_items(2, 1000);
    let mut map = SkipMap::<usize, usize, 32>::new();
    for (k, v) in &items {
        assert!(map.insert(*k, *v).is_none());
    }
    for (k, v) in items.iter().rev() {
        assert!(map.remove(k).is_some_and(|x| x == *v));
    }
    assert!(map.is_empty());
}

#[test]
fn map_insert_remove_small() {
    for seed in 0..50 {
        let items = random_items(200 + seed, 8);
        let mut map = SkipMap::<usize, usize, 32>::new();
        for (k, v) in &items {
            assert!(map.insert(*k, *v).is_none());
        }
        for (k, v) in items.iter().rev() {
            assert!(map.remove(k).is_some_and(|x| x == *v));
        }
    }
}

#[test]
fn map_insert_duplicates() {
    let items = random_items(3, 1000);
    let mut map = SkipMap::<usize, usize, 32>::new();
    for (k, v) in &items {
        assert!(map.insert(*k, *v).is_none());
    }
    for (k, v) in items.iter().rev() {
        assert!(map.insert(*k, 0).is_some_and(|x| x == *v));
    }
}

#[test]
fn map_insert_duplicates_small() {
    for seed in 0..50 {
        let items = random_items(300 + seed, 8);
        let mut map = SkipMap::<usize, usize, 32>::new();
        for (k, v) in &items {
            assert!(map.insert(*k, *v).is_none());
        }
        for (k, v) in items.iter().rev() {
            assert!(map.insert(*k, 0).is_some_and(|x| x == *v));
        }
    }
}

#[test]
fn map_insert_then_get() {
    let mut map = SkipMap::<u32, u32, 4>::new();
    for k in [8u32, 3, 5, 1, 9] {
        assert_eq!(map.insert(k, k * 10), None);
        assert_eq!(map.get(&k), Some(&(k * 10)));
    }
    assert_eq!(map.get(&4), None);
    assert!(!map.contains(&4));
}

#[test]
fn map_replacing_keeps_the_towers() {
    let mut map = SkipMap::<u32, u32, 4>::new();
    map.insert_with(1, 10, 0);
    map.insert_with(2, 20, 0b0010);
    map.insert_with(3, 30, 0b0110);
    assert_eq!(map.levels(), 3);
    let keys = |m: &SkipMap<u32, u32, 4>, level: usize| -> Vec<u32> {
        m.level_entries(level).iter().map(|e| e.key).collect()
    };
    assert_eq!(keys(&map, 0), vec![1, 2, 3]);
    assert_eq!(keys(&map, 1), vec![1, 2, 3]);
    assert_eq!(keys(&map, 2), vec![1, 3]);
    assert_eq!(map.insert_with(2, 21, u64::MAX), Some(20));
    assert_eq!(map.insert_with(1, 11, u64::MAX), Some(10));
    assert_eq!(map.levels(), 3);
    assert_eq!(keys(&map, 0), vec![1, 2, 3]);
    assert_eq!(keys(&map, 1), vec![1, 2, 3]);
    assert_eq!(keys(&map, 2), vec![1, 3]);
    assert_eq!(map.get(&1), Some(&11));
    assert_eq!(map.get(&2), Some(&21));
    assert_eq!(map.insert_with(0, 5, u64::MAX), None);
    assert_eq!(keys(&map, 2), vec![0, 3]);
    assert_eq!(keys(&map, 1), vec![0, 2, 3]);
}

#[test]
fn map_remove_sole_entry() {
    let mut map = SkipMap::<u32, char, 4>::new();
    assert_eq!(map.remove(&1), None);
    assert_eq!(map.insert(1, 'x'), None);
    assert!(!map.is_empty());
    assert_eq!(map.levels(), 1);
    assert_eq!(map.remove(&1), Some('x'));
    assert!(map.is_empty());
    assert_eq!(map.remove(&1), None);
}

#[test]
fn default_map_is_empty() {
    let mut map: SkipMap<u32, u32, 4> = Default::default();
    assert!(map.is_empty());
    assert_eq!(map.insert(1, 2), None);
    assert_eq!(map.get(&1), Some(&2));
}

#[test]
fn entries_compare_by_key() {
    let a = Entry { key: 1u32, value: 'a' };
    let b = Entry { key: 1u32, value: 'b' };
    let c = Entry { key: 2u32, value: 'a' };
    assert!(a == b);
    assert!(a != c);
    assert_eq!(a.partial_cmp(&b), Some(Ordering::Equal));
    assert_eq!(a.partial_cmp(&c), Some(Ordering::Less));
    assert_eq!(c.partial_cmp(&a), Some(Ordering::Greater));
    assert!(a < c);
    let key: &u32 = c.borrow();
    assert_eq!(*key, 2);
}
