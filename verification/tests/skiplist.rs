use rand::rngs::SmallRng;
use rand::seq::SliceRandom;
use rand::Rng;
use rand::SeedableRng;
use skipidy::SkipList;

fn random_values(seed: u64, n: usize) -> Vec<usize> {
    let mut rng = SmallRng::seed_from_u64(seed);
    let mut out = Vec::new();
    for _ in 0..n {
        out.push(rng.random::<u64>() as usize);
    }
    out
}

fn values_on(list: &SkipList<u32, 4>, level: usize) -> Vec<u32> {
    let mut out = Vec::new();
    for v in list.level_values(level) {
        out.push(*v);
    }
    out
}

#[test]
fn set_insert_query_remove_in_reverse() {
    let mut list = SkipList::<u32, 4>::new();
    let values = [10u32, 5, 7, 3, 8, 2];
    for v in values {
        list.insert(v);
    }
    for v in values.iter().rev() {
        assert!(list.contains(v));
    }
    let mut left = values.len();
    for v in values.iter().rev() {
        assert!(!list.is_empty());
        assert_eq!(list.remove(v), Some(*v));
        left -= 1;
        assert_eq!(list.level_values(0).len(), left);
    }
    assert!(list.is_empty());
    assert_eq!(list.levels(), 0);
}

#[test]
fn set_starting_empty() {
    let mut list = SkipList::<u32, 4>::new();
    assert!(!list.contains(&10));
    assert_eq!(list.remove(&10), None);
    list.insert(10);
    assert!(list.contains(&10));
    assert_eq!(list.remove(&10), Some(10));
    assert!(!list.contains(&10));
}

#[test]
fn set_new_minimum_becomes_head() {
    let mut list = SkipList::<u32, 4>::new();
    list.insert(5);
    list.insert(3);
    assert_eq!(values_on(&list, 0), vec![3, 5]);
    assert!(list.contains(&5));
    assert_eq!(list.remove(&3), Some(3));
    assert!(list.contains(&5));
    assert_eq!(values_on(&list, 0), vec![5]);
}

#[test]
fn set_many_random_values() {
    let mut rng = SmallRng::seed_from_u64(0x5eed);
    let mut values: Vec<u32> = Vec::new();
    for _ in 0..200_000 {
        values.push(rng.random::<u32>());
    }
    let mut list = SkipList::<u32, 32>::new();
    for v in &values {
        list.insert(*v);
    }
    values.shuffle(&mut rng);
    for v in &values {
        assert!(list.contains(v));
    }
    values.shuffle(&mut rng);
    for v in &values {
        assert_eq!(list.remove(v), Some(*v));
    }
    assert!(list.is_empty());
}

#[test]
fn list_insert_contains() {
    let items = random_values(1, 1000);
    let mut list = SkipList::<usize, 32>::new();
    for item in &items {
        list.insert(*item);
    }
    for item in items.iter().rev() {
        assert!(list.contains(item));
    }
}

#[test]
fn list_insert_contains_small() {
    for seed in 0..50 {
        let items = random_values(seed, 8);
        let mut list = SkipList::<usize, 4>::new();
        for item in &items {
            list.insert(*item);
        }
        for item in items.iter().rev() {
            assert!(list.contains(item));
        }
        assert!(list.levels() <= 4);
    }
}

#[test]
fn list_insert_remove() {
    let items = random_values(2, 1000);
    let mut list = SkipList::<usize, 32>::new();
    for item in &items {
        list.insert(*item);
    }
    for item in items.iter().rev() {
        assert!(list.remove(item).is_some_and(|v| v == *item));
    }
    assert!(list.is_empty());
}

#[test]
fn list_insert_remove_small() {
    for seed in 0..50 {
        let items = random_values(100 + seed, 8);
        let mut list = SkipList::<usize, 4>::new();
        for item in &items {
            list.insert(*item);
        }
        for item in items.iter().rev() {
            assert!(list.remove(item).is_some_and(|v| v == *item));
        }
        assert!(list.is_empty());
    }
}

#[test]
fn first_insert_gives_one_level() {
    let mut list = SkipList::<u32, 4>::new();
    assert!(list.is_empty());
    assert_eq!(list.levels(), 0);
    list.insert_with(10, u64::MAX);
    assert!(!list.is_empty());
    assert_eq!(list.levels(), 1);
    let mut drawn = SkipList::<u32, 4>::new();
    drawn.insert(10);
    assert_eq!(drawn.levels(), 1);
}

#[test]
fn word_decides_tower_height() {
    let mut list = SkipList::<u32, 8>::new();
    list.insert_with(10, 0);
    // bit 1 is clear: one level, whatever the higher bits are
    list.insert_with(20, 0b1100);
    assert_eq!(list.levels(), 1);
    assert_eq!(list.level_values(1).len(), 0);
    // bit 1 set: two levels, the most that one live level allows
    list.insert_with(30, u64::MAX);
    assert_eq!(list.levels(), 2);
    // bits 1 and 2 set, bit 3 clear: three levels
    list.insert_with(40, 0b0110);
    assert_eq!(list.levels(), 3);
    // bit 0 does not count
    list.insert_with(50, 0b0001);
    assert_eq!(list.levels(), 3);
    // bits 1 to 3 set: four levels, one more than live
    list.insert_with(60, 0b1111_1110);
    assert_eq!(list.levels(), 4);
    let on = |level: usize| -> Vec<u32> {
        list.level_values(level).into_iter().map(|v| *v).collect()
    };
    assert_eq!(on(0), vec![10, 20, 30, 40, 50, 60]);
    assert_eq!(on(1), vec![10, 30, 40, 60]);
    assert_eq!(on(2), vec![10, 40, 60]);
    assert_eq!(on(3), vec![10, 60]);
    assert_eq!(on(4), Vec::<u32>::new());
}

#[test]
fn levels_never_exceed_room() {
    let mut list = SkipList::<u32, 4>::new();
    for v in 0..20u32 {
        list.insert_with(v, u64::MAX);
        assert!(list.levels() <= 4);
    }
    assert_eq!(list.levels(), 4);
    let mut single = SkipList::<u32, 1>::new();
    for v in 0..10u32 {
        single.insert_with(v, u64::MAX);
        assert_eq!(single.levels(), 1);
    }
    let mut drawn = SkipList::<u32, 2>::new();
    for v in 0..200u32 {
        drawn.insert(v);
        assert!(drawn.levels() <= 2);
    }
}

#[test]
fn levels_grow_by_at_most_one() {
    let mut list = SkipList::<u32, 32>::new();
    let mut before = 0;
    for v in 0..500u32 {
        list.insert(v * 7 % 501);
        let now = list.levels();
        assert!(now >= before && now <= before + 1);
        before = now;
    }
}

#[test]
fn bits_beyond_the_word_are_clear() {
    let mut list = SkipList::<u32, 80>::new();
    for v in 1..100u32 {
        list.insert_with(v, u64::MAX);
    }
    assert_eq!(list.levels(), 64);
}

#[test]
fn new_head_takes_over_higher_links() {
    let mut list = SkipList::<u32, 4>::new();
    list.insert_with(5, 0);
    list.insert_with(9, 0b0010);
    list.insert_with(7, 0b0110);
    assert_eq!(values_on(&list, 0), vec![5, 7, 9]);
    assert_eq!(values_on(&list, 1), vec![5, 7, 9]);
    assert_eq!(values_on(&list, 2), vec![5, 7]);
    assert_eq!(list.levels(), 3);
    list.insert_with(3, u64::MAX);
    assert_eq!(list.levels(), 3);
    assert_eq!(values_on(&list, 0), vec![3, 5, 7, 9]);
    assert_eq!(values_on(&list, 1), vec![3, 7, 9]);
    assert_eq!(values_on(&list, 2), vec![3, 7]);
    assert_eq!(values_on(&list, 3), Vec::<u32>::new());
}

#[test]
fn removed_head_hands_links_to_next() {
    let mut list = SkipList::<u32, 4>::new();
    list.insert_with(1, 0);
    list.insert_with(2, 0);
    list.insert_with(3, 0b0010);
    list.insert_with(4, 0b0110);
    assert_eq!(values_on(&list, 0), vec![1, 2, 3, 4]);
    assert_eq!(values_on(&list, 1), vec![1, 3, 4]);
    assert_eq!(values_on(&list, 2), vec![1, 4]);
    assert_eq!(list.levels(), 3);
    // 2 has one level and becomes the head of all three
    assert_eq!(list.remove(&1), Some(1));
    assert_eq!(values_on(&list, 0), vec![2, 3, 4]);
    assert_eq!(values_on(&list, 1), vec![2, 3, 4]);
    assert_eq!(values_on(&list, 2), vec![2, 4]);
    assert_eq!(list.levels(), 3);
    // 3 has two levels and takes over the third
    assert_eq!(list.remove(&2), Some(2));
    assert_eq!(values_on(&list, 1), vec![3, 4]);
    assert_eq!(values_on(&list, 2), vec![3, 4]);
    // without 4 nothing asks for more than two levels
    assert_eq!(list.remove(&4), Some(4));
    assert_eq!(list.levels(), 1);
    assert_eq!(values_on(&list, 0), vec![3]);
    assert_eq!(values_on(&list, 1), Vec::<u32>::new());
}

#[test]
fn removal_behind_head_unlinks_every_level() {
    let mut list = SkipList::<u32, 4>::new();
    list.insert_with(1, 0);
    list.insert_with(3, 0b0010);
    list.insert_with(5, 0b0110);
    list.insert_with(7, 0b0010);
    assert_eq!(list.levels(), 3);
    assert_eq!(values_on(&list, 1), vec![1, 3, 5, 7]);
    assert_eq!(values_on(&list, 2), vec![1, 5]);
    assert_eq!(list.remove(&5), Some(5));
    assert_eq!(values_on(&list, 0), vec![1, 3, 7]);
    assert_eq!(values_on(&list, 1), vec![1, 3, 7]);
    assert_eq!(values_on(&list, 2), Vec::<u32>::new());
    assert_eq!(list.levels(), 2);
    assert_eq!(list.remove(&4), None);
    assert_eq!(list.remove(&0), None);
    assert_eq!(list.remove(&8), None);
    assert_eq!(values_on(&list, 0), vec![1, 3, 7]);
}

#[test]
fn equal_values_are_kept_side_by_side() {
    let mut list = SkipList::<u32, 4>::new();
    list.insert(4);
    list.insert(4);
    list.insert(2);
    list.insert(4);
    assert_eq!(values_on(&list, 0), vec![2, 4, 4, 4]);
    assert_eq!(list.remove(&4), Some(4));
    assert!(list.contains(&4));
    assert_eq!(list.remove(&4), Some(4));
    assert_eq!(list.remove(&4), Some(4));
    assert!(!list.contains(&4));
    assert_eq!(list.remove(&4), None);
    assert_eq!(values_on(&list, 0), vec![2]);
}

#[test]
fn insert_then_remove_restores_the_list() {
    let mut list = SkipList::<u32, 4>::new();
    list.insert_with(10, 0);
    list.insert_with(30, 0b0010);
    list.insert_with(20, 0b0110);
    let levels = list.levels();
    let before: Vec<Vec<u32>> = (0..4).map(|l| values_on(&list, l)).collect();
    for (probe, word) in [(5u32, 0u64), (15, u64::MAX), (25, 0b10), (35, u64::MAX)] {
        list.insert_with(probe, word);
        assert!(list.contains(&probe));
        assert_eq!(list.remove(&probe), Some(probe));
        assert!(!list.contains(&probe));
        assert_eq!(list.levels(), levels);
        let after: Vec<Vec<u32>> = (0..4).map(|l| values_on(&list, l)).collect();
        assert_eq!(after, before);
    }
}

#[test]
fn second_removal_finds_nothing() {
    let mut list = SkipList::<u32, 4>::new();
    for v in [3u32, 1, 2] {
        list.insert(v);
    }
    assert_eq!(list.remove(&2), Some(2));
    assert_eq!(list.remove(&2), None);
    assert!(list.contains(&1));
    assert!(list.contains(&3));
}

#[test]
fn values_ascend_on_every_level() {
    let items = random_values(77, 300);
    let mut list = SkipList::<usize, 16>::new();
    for item in &items {
        list.insert(*item);
    }
    let levels = list.levels();
    assert!(levels >= 1 && levels <= 16);
    assert_eq!(list.level_values(0).len(), items.len());
    for level in 0..16 {
        let chain = list.level_values(level);
        if level < levels {
            assert!(!chain.is_empty());
        } else {
            assert!(chain.is_empty());
        }
        if level + 1 == levels && levels > 1 {
            assert!(chain.len() >= 2);
        }
        for pair in chain.windows(2) {
            assert!(pair[0] <= pair[1]);
        }
    }
}

#[test]
fn default_list_is_empty() {
    let mut list: SkipList<u32, 4> = Default::default();
    assert!(list.is_empty());
    list.insert(1);
    assert!(list.contains(&1));
}

#[test]
fn vacated_slots_are_used_again() {
    let mut list = SkipList::<u32, 4>::new();
    for round in 0..100u32 {
        for v in 0..10u32 {
            list.insert(round * 10 + v);
        }
        for v in 0..10u32 {
            assert_eq!(list.remove(&(round * 10 + v)), Some(round * 10 + v));
        }
        assert!(list.is_empty());
    }
}
