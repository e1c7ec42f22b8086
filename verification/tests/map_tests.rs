use std::collections::HashMap;

use patricia_map::PatriciaTreeMap;

#[test]
fn test_map_operations() {
    let num_vals: usize = 10000;

    let mut items: HashMap<u64, String> = HashMap::new();

    for i in 0..num_vals {
        items.insert(i as u64, format!("{}", i));
    }

    let map: PatriciaTreeMap<String> =
        PatriciaTreeMap::from_entries(items.clone().into_iter().collect());

    assert_eq!(map.len(), 10000);
    assert_eq!(*map.get(15).unwrap(), "15".to_string());
    assert_eq!(*map.get(9999).unwrap(), "9999".to_string());
    assert_eq!(map.get(10000), None);

    assert!(map == map);
    let mut map2 = map.clone();
    assert!(map == map2);
    map2.upsert(0xabcdef12, "0xabcdef12".to_owned());
    assert!(map != map2);
    map2.remove(0xabcdef12);
    assert!(map == map2)
}

#[test]
fn test_upsert_get_len() {
    let mut map: PatriciaTreeMap<u32> = PatriciaTreeMap::new();
    assert!(map.is_empty());
    assert_eq!(map.len(), 0);
    map.upsert(1, 10);
    map.upsert(2, 20);
    map.upsert(u64::MAX, 30);
    map.upsert(0, 40);
    assert_eq!(map.len(), 4);
    assert_eq!(map.get(1), Some(&10));
    assert_eq!(map.get(2), Some(&20));
    assert_eq!(map.get(u64::MAX), Some(&30));
    assert_eq!(map.get(0), Some(&40));
    assert_eq!(map.get(3), None);
    // overwriting does not grow the map
    map.upsert(2, 21);
    assert_eq!(map.len(), 4);
    assert_eq!(map.get(2), Some(&21));
    assert!(map.contains_key(2));
    assert!(!map.contains_key(3));
    map.clear();
    assert!(map.is_empty());
    assert_eq!(map.len(), 0);
    assert_eq!(map.get(1), None);
}

#[test]
fn test_remove_then_get_absent() {
    let mut map: PatriciaTreeMap<u32> = PatriciaTreeMap::new();
    map.upsert(8, 1);
    map.upsert(9, 2);
    map.upsert(1024, 3);
    map.remove(9);
    assert_eq!(map.get(9), None);
    assert!(!map.contains_key(9));
    assert_eq!(map.len(), 2);
    assert_eq!(map.get(8), Some(&1));
    assert_eq!(map.get(1024), Some(&3));
    // removing an absent key leaves the map unchanged
    let before = map.clone();
    map.remove(12345);
    assert!(map == before);
    // removing the last entries empties the map
    map.remove(8);
    map.remove(1024);
    assert!(map.is_empty());
    map.remove(8);
    assert!(map.is_empty());
}

#[test]
fn test_clone_is_independent() {
    let mut map: PatriciaTreeMap<String> = PatriciaTreeMap::new();
    map.upsert(3, "three".to_owned());
    map.upsert(300, "three hundred".to_owned());
    let mut copy = map.clone();
    assert!(map == copy);
    copy.upsert(3, "drei".to_owned());
    copy.remove(300);
    assert_eq!(*map.get(3).unwrap(), "three".to_string());
    assert_eq!(*map.get(300).unwrap(), "three hundred".to_string());
    assert_eq!(*copy.get(3).unwrap(), "drei".to_string());
    assert_eq!(copy.get(300), None);
}

#[test]
fn test_eq_ignores_insertion_order() {
    let pairs: Vec<(u64, u32)> = vec![(5, 50), (1, 10), (3, 30), (u64::MAX, 70), (0, 0)];
    let mut reversed = pairs.clone();
    reversed.reverse();
    let a = PatriciaTreeMap::from_entries(pairs);
    let b = PatriciaTreeMap::from_entries(reversed);
    assert!(a == a);
    assert!(a == b);
    assert!(b == a);
    let c: PatriciaTreeMap<u32> = PatriciaTreeMap::from_entries(vec![(5, 50), (1, 10)]);
    assert!(a != c);
    assert!(c != a);
}

#[test]
fn test_from_entries_last_write_wins() {
    let map: PatriciaTreeMap<u32> =
        PatriciaTreeMap::from_entries(vec![(7, 1), (8, 2), (7, 3), (7, 4)]);
    assert_eq!(map.len(), 2);
    assert_eq!(map.get(7), Some(&4));
    assert_eq!(map.get(8), Some(&2));
}

#[test]
fn test_leq_reflexive_and_pointwise() {
    let le = |a: &u32, b: &u32| *a <= *b;
    let mut a: PatriciaTreeMap<u32> = PatriciaTreeMap::new();
    // reflexivity holds for the empty map and for any implicit value
    assert!(a.leq(&a, &0, le));
    assert!(a.leq(&a, &99, le));
    a.upsert(1, 5);
    a.upsert(2, 7);
    a.upsert(1000, 1);
    assert!(a.leq(&a, &0, le));
    assert!(a.leq(&a.clone(), &42, le));
    // a strictly larger map on every key
    let mut b = a.clone();
    b.upsert(2, 9);
    assert!(a.leq(&b, &0, le));
    assert!(!b.leq(&a, &0, le));
    // a key missing from the right side is compared against the implicit value
    let mut c = a.clone();
    c.remove(1000);
    assert!(a.leq(&c, &1, le));
    assert!(!a.leq(&c, &0, le));
}

#[test]
fn test_union_with_join_is_idempotent() {
    let join = |a: &u32, b: &u32| if *a >= *b { *a } else { *b };
    let mut a: PatriciaTreeMap<u32> = PatriciaTreeMap::new();
    a.upsert(1, 5);
    a.upsert(64, 9);
    a.upsert(u64::MAX, 2);
    let before = a.clone();
    let copy = a.clone();
    a.union_with(&copy, join);
    assert!(a == before);
}

#[test]
fn test_union_with_merges_both_sides() {
    let join = |a: &u32, b: &u32| if *a >= *b { *a } else { *b };
    let mut a: PatriciaTreeMap<u32> = PatriciaTreeMap::from_entries(vec![(1, 5), (2, 3)]);
    let b: PatriciaTreeMap<u32> = PatriciaTreeMap::from_entries(vec![(2, 8), (9, 4)]);
    a.union_with(&b, join);
    assert_eq!(a.len(), 3);
    assert_eq!(a.get(1), Some(&5));
    assert_eq!(a.get(2), Some(&8));
    assert_eq!(a.get(9), Some(&4));
}

#[test]
fn test_intersect_with_keeps_only_shared_keys() {
    let meet = |a: &u32, b: &u32| if *a <= *b { *a } else { *b };
    let mut a: PatriciaTreeMap<u32> =
        PatriciaTreeMap::from_entries(vec![(1, 5), (2, 3), (77, 9)]);
    let b: PatriciaTreeMap<u32> = PatriciaTreeMap::from_entries(vec![(2, 8), (77, 4), (500, 1)]);
    a.intersect_with(&b, meet);
    assert_eq!(a.len(), 2);
    assert_eq!(a.get(1), None);
    assert_eq!(a.get(2), Some(&3));
    assert_eq!(a.get(77), Some(&4));
    assert_eq!(a.get(500), None);
}

#[test]
fn test_meet_then_join_adds_no_keys() {
    let join = |a: &u32, b: &u32| if *a >= *b { *a } else { *b };
    let meet = |a: &u32, b: &u32| if *a <= *b { *a } else { *b };
    let a: PatriciaTreeMap<u32> = PatriciaTreeMap::from_entries(vec![(1, 5), (2, 3), (77, 9)]);
    let b: PatriciaTreeMap<u32> = PatriciaTreeMap::from_entries(vec![(2, 8), (500, 1)]);
    // the complementary part of `a`: the keys that the meet drops
    let dropped: PatriciaTreeMap<u32> = PatriciaTreeMap::from_entries(vec![(1, 5), (77, 9)]);
    let mut met = a.clone();
    met.intersect_with(&b, meet);
    assert_eq!(met.len(), 1);
    assert!(met.contains_key(2));
    let mut recovered = met.clone();
    recovered.union_with(&dropped, join);
    // no more keys than originally present in `a`
    assert_eq!(recovered.len(), 3);
    assert!(recovered.contains_key(1));
    assert!(recovered.contains_key(2));
    assert!(recovered.contains_key(77));
    // a key absent from both operands never appears
    assert!(!met.contains_key(12345));
    assert!(!recovered.contains_key(12345));
}

#[test]
fn test_clone_upsert_remove_restores_eq() {
    let mut items: Vec<(u64, String)> = Vec::new();
    for i in 0..10000u64 {
        items.push((i, format!("{}", i)));
    }
    let map: PatriciaTreeMap<String> = PatriciaTreeMap::from_entries(items);
    let mut copy = map.clone();
    copy.upsert(123456789, "extra".to_owned());
    assert!(map != copy);
    copy.remove(123456789);
    assert!(map == copy);
}

#[test]
fn test_iter_yields_keys_ascending() {
    let map: PatriciaTreeMap<u32> = PatriciaTreeMap::from_entries(vec![(5, 55), (1, 11), (3, 33)]);
    let mut it = map.iter();
    assert_eq!(it.next(), Some((1, &11)));
    assert_eq!(it.next(), Some((3, &33)));
    assert_eq!(it.next(), Some((5, &55)));
    assert_eq!(it.next(), None);
    assert_eq!(it.next(), None);
    // a fresh iterator starts over
    let mut again = map.iter();
    assert_eq!(again.next(), Some((1, &11)));

    let wide: PatriciaTreeMap<u32> =
        PatriciaTreeMap::from_entries(vec![(u64::MAX, 1), (0, 2), (1 << 63, 3), ((1 << 63) - 1, 4)]);
    let mut keys: Vec<u64> = Vec::new();
    let mut wit = wide.iter();
    while let Some((k, _)) = wit.next() {
        keys.push(k);
    }
    assert_eq!(keys, vec![0, (1 << 63) - 1, 1 << 63, u64::MAX]);

    let empty: PatriciaTreeMap<u32> = PatriciaTreeMap::new();
    assert_eq!(empty.iter().next(), None);
}

#[test]
fn test_eq_shortcut_and_structural_equality() {
    // equality across maps that share no subtree
    let a: PatriciaTreeMap<u32> = PatriciaTreeMap::from_entries(vec![(10, 1), (20, 2)]);
    let b: PatriciaTreeMap<u32> = PatriciaTreeMap::from_entries(vec![(20, 2), (10, 1)]);
    assert!(a == b);
    // equality through pointer-identical subtrees
    let c = a.clone();
    assert!(a == c);
    // same keys, one differing value
    let d: PatriciaTreeMap<u32> = PatriciaTreeMap::from_entries(vec![(10, 1), (20, 3)]);
    assert!(a != d);
    // default is the empty map
    let e: PatriciaTreeMap<u32> = Default::default();
    assert!(e.is_empty());
    assert!(e != a);
}
