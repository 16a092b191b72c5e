use sync_chain::digest_map::DigestMap;
use sync_chain::digest_set::DigestSet;
use sync_chain::H256;

#[test]
fn digest_set_holds_what_was_put_in() {
    let mut set = DigestSet::new();
    let a = H256::new(1, 0, 0, 0);
    // same leading word as `a`
    let b = H256::new(1, 0, 0, 1);
    let c = H256::new(2, 0, 0, 0);
    assert!(!set.contains(&a));
    assert!(set.insert(a));
    assert!(!set.insert(a));
    assert!(set.insert(b));
    assert!(set.insert(c));
    assert!(set.contains(&a));
    assert!(set.contains(&b));
    assert!(set.contains(&c));
    assert!(set.remove(&a));
    assert!(!set.remove(&a));
    assert!(!set.contains(&a));
    assert!(set.contains(&b));
    assert!(set.remove(&b));
    assert!(!set.contains(&b));
    assert!(set.contains(&c));
    assert!(set.remove(&c));
    assert!(!set.contains(&c));
}

#[test]
fn digest_map_maps_digests_to_values() {
    let mut map: DigestMap<u32> = DigestMap::new();
    let a = H256::new(1, 0, 0, 0);
    // same leading word as `a`
    let b = H256::new(1, 0, 0, 1);
    let c = H256::new(2, 0, 0, 0);
    assert_eq!(map.get(&a), None);
    assert_eq!(map.insert(a, 10), None);
    assert_eq!(map.insert(b, 20), None);
    assert_eq!(map.insert(c, 30), None);
    assert_eq!(map.insert(a, 11), Some(10));
    assert_eq!(map.get(&a), Some(&11));
    assert_eq!(map.get(&b), Some(&20));
    assert_eq!(map.get(&c), Some(&30));
    assert!(map.contains_key(&b));
    assert_eq!(map.remove(&b), Some(20));
    assert_eq!(map.remove(&b), None);
    assert!(!map.contains_key(&b));
    assert_eq!(map.get(&a), Some(&11));
    assert_eq!(map.remove(&a), Some(11));
    assert_eq!(map.get(&a), None);
    assert_eq!(map.get(&c), Some(&30));
}
