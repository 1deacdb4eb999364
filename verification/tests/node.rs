use skipidy::arena::Arena;
use skipidy::model::bit_set;
use skipidy::node::SkipNode;
use skipidy::order::compare;
use skipidy::order::is_before;
use skipidy::order::is_same;
use skipidy::order::Relation;
use skipidy::storage::NonEmptyStorage;
use skipidy::entry::Entry;

#[test]
fn new_node_has_no_links() {
    let node = SkipNode::<u32, 5>::new(42);
    assert_eq!(node.value, 42);
    assert_eq!(node.nexts, vec![None; 5]);
    let flat = SkipNode::<&str, 0>::new("x");
    assert_eq!(flat.value, "x");
    assert!(flat.nexts.is_empty());
}

#[test]
fn arena_hands_out_vacated_slots() {
    let mut arena = Arena::<u32, 2>::new();
    let a = arena.occupy(SkipNode::new(1));
    let b = arena.occupy(SkipNode::new(2));
    assert_ne!(a, b);
    assert_eq!(*arena.value(a), 1);
    assert_eq!(*arena.value(b), 2);
    assert_eq!(arena.link(a, 0), None);
    arena.set_link(a, 1, Some(b));
    assert_eq!(arena.link(a, 1), Some(b));
    assert_eq!(arena.link(a, 0), None);
    assert_eq!(arena.replace_value(b, 20), 2);
    assert_eq!(*arena.value(b), 20);
    assert_eq!(arena.vacate(a), 1);
    let c = arena.occupy(SkipNode::new(3));
    assert_eq!(c, a);
    assert_eq!(arena.link(c, 1), None);
    assert_eq!(*arena.value(c), 3);
}

#[test]
fn keys_compare_three_ways() {
    assert!(matches!(compare(&1u32, &2u32), Relation::Less));
    assert!(matches!(compare(&2u32, &2u32), Relation::Equal));
    assert!(matches!(compare(&3u32, &2u32), Relation::Greater));
    assert!(is_before(&"a", &"b"));
    assert!(!is_before(&"b", &"b"));
    assert!(is_same(&7i8, &7i8));
    assert!(!is_same(&7i8, &-7i8));
}

#[test]
fn bits_of_a_word() {
    assert!(bit_set(0b0100, 2));
    assert!(!bit_set(0b0100, 1));
    assert!(!bit_set(0b0100, 3));
    assert!(bit_set(1u64 << 63, 63));
    assert!(!bit_set(u64::MAX, 64));
    assert!(!bit_set(u64::MAX, 1000));
    assert!(bit_set(1, 0));
}

#[test]
fn storage_upsert_and_remove() {
    let mut storage = NonEmptyStorage::<u32, &str, 4>::new(Entry { key: 5, value: "five" });
    assert_eq!(storage.levels(), 1);
    assert!(storage.upsert_with(Entry { key: 7, value: "seven" }, 0b10).is_none());
    assert_eq!(storage.levels(), 2);
    let old = storage.upsert(Entry { key: 7, value: "SEVEN" });
    assert_eq!(old.map(|e| e.value), Some("seven"));
    assert_eq!(storage.get(&7).map(|e| e.value), Some("SEVEN"));
    assert!(storage.get(&6).is_none());
    assert!(storage.get(&1).is_none());
    storage.insert_with(Entry { key: 7, value: "again" }, 0);
    storage.insert(Entry { key: 6, value: "six" });
    let keys: Vec<u32> = storage.level_entries(0).iter().map(|e| e.key).collect();
    assert_eq!(keys, vec![5, 6, 7, 7]);
    assert_eq!(storage.get(&7).map(|e| e.value), Some("again"));
    let (rest, gone) = storage.remove(&9);
    assert!(gone.is_none());
    let (rest, gone) = rest.unwrap().remove(&5);
    assert_eq!(gone.map(|e| e.value), Some("five"));
    let (rest, gone) = rest.unwrap().remove(&7);
    assert_eq!(gone.map(|e| e.value), Some("again"));
    let (rest, gone) = rest.unwrap().remove(&7);
    assert_eq!(gone.map(|e| e.value), Some("SEVEN"));
    let (rest, gone) = rest.unwrap().remove(&6);
    assert_eq!(gone.map(|e| e.value), Some("six"));
    assert!(rest.is_none());
}
