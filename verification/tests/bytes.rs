use state_preimages::bytes::{bytes_equal, bytes_less};

#[test]
fn bytes_compare_lexicographically() {
    assert!(bytes_less(&[1u8, 2, 3], &[1, 3, 0]));
    assert!(!bytes_less(&[1u8, 3, 0], &[1, 2, 3]));
    assert!(!bytes_less(&[1u8, 2, 3], &[1, 2, 3]));
    assert!(bytes_equal(&[1u8, 2, 3], &[1, 2, 3]));
    assert!(!bytes_equal(&[1u8, 2, 3], &[1, 2, 4]));
}

#[test]
fn the_order_of_bytes_is_total_and_transitive() {
    let keys: Vec<[u8; 2]> = (0..6u8).flat_map(|a| (0..6u8).map(move |b| [a, b])).collect();
    for a in &keys {
        assert!(!bytes_less(a, a));
        for b in &keys {
            assert_eq!(bytes_less(a, b), a < b);
            assert!(bytes_less(a, b) || bytes_less(b, a) || bytes_equal(a, b));
            assert!(!(bytes_less(a, b) && bytes_less(b, a)));
            for c in &keys {
                assert!(!(bytes_less(a, b) && bytes_less(b, c)) || bytes_less(a, c));
            }
        }
    }
}
