use state_preimages::byte_map::ByteMap;

#[test]
fn a_map_keeps_its_entries_in_the_order_of_their_keys_coming() {
    let mut map: ByteMap<2, u32> = ByteMap::new();
    assert_eq!(map.len(), 0);
    assert_eq!(map.find(&[1, 1]), None);
    for n in 0..200u8 {
        map.push([n, n.wrapping_mul(7)], n as u32);
    }
    assert_eq!(map.len(), 200);
    for n in 0..200u8 {
        assert_eq!(map.find(&[n, n.wrapping_mul(7)]), Some(n as usize));
        assert_eq!(*map.entry(n as usize), ([n, n.wrapping_mul(7)], n as u32));
    }
    assert_eq!(map.find(&[1, 1]), None);
    *map.value_mut(3) = 99;
    assert_eq!(map.entry(3).1, 99);
    assert_eq!(map.entry(4).1, 4);
}
