use foundry::address::Address;
use foundry::ordered_map::OrderedMap;

fn key(last: u8) -> Address {
    let mut bytes = [0u8; 20];
    bytes[19] = last;
    Address(bytes)
}

#[test]
fn map_reads_back_what_was_inserted() {
    let mut map: OrderedMap<Address, u32> = OrderedMap::new();
    assert_eq!(map.len(), 0);
    assert_eq!(map.get(&key(1)), None);
    map.insert(key(5), 50);
    map.insert(key(1), 10);
    map.insert(key(3), 30);
    assert_eq!(map.len(), 3);
    assert_eq!(map.get(&key(1)), Some(&10));
    assert_eq!(map.get(&key(3)), Some(&30));
    assert_eq!(map.get(&key(5)), Some(&50));
    assert_eq!(map.get(&key(4)), None);
}

#[test]
fn map_replaces_the_value_of_a_key() {
    let mut map: OrderedMap<Address, u32> = OrderedMap::new();
    map.insert(key(1), 10);
    map.insert(key(1), 11);
    assert_eq!(map.len(), 1);
    assert_eq!(map.get(&key(1)), Some(&11));
}

#[test]
fn map_lists_keys_in_order() {
    let mut map: OrderedMap<Vec<u8>, u32> = OrderedMap::new();
    map.insert(vec![2], 0);
    map.insert(vec![1, 9], 1);
    map.insert(vec![], 2);
    map.insert(vec![1], 3);
    let listed: Vec<(Vec<u8>, u32)> =
        (0..map.len()).map(|i| (map.entry(i).0.clone(), *map.entry(i).1)).collect();
    assert_eq!(listed, vec![(vec![], 2), (vec![1], 3), (vec![1, 9], 1), (vec![2], 0)]);
}

#[test]
fn map_removes_a_key() {
    let mut map: OrderedMap<Address, u32> = OrderedMap::new();
    map.insert(key(1), 10);
    map.insert(key(2), 20);
    assert_eq!(map.remove(&key(3)), None);
    assert_eq!(map.remove(&key(1)), Some(10));
    assert_eq!(map.remove(&key(1)), None);
    assert_eq!(map.len(), 1);
    assert_eq!(map.get(&key(2)), Some(&20));
}
