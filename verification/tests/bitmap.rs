use crossy_multi_core::bitmap::BitMap;

#[test]
fn get_set() {
    let mut map = BitMap::default();
    for i in 0..64 {
        assert!(!map.get(i));
    }

    map.set(32, true);
    map.set(33, true);
    map.set(12, true);
    map.set(8, true);

    for i in 0..64 {
        if i == 32 || i == 33 || i == 12 || i == 8 {
            assert!(map.get(i));
        } else {
            if i != 0 {
                assert!(!map.get(i), "Failed on {}", i);
            }
        }
    }

    map.set(32, false);
    map.set(33, false);
    map.set(12, false);
    map.set(8, false);

    for i in 0..64 {
        assert!(!map.get(i));
    }

    assert_eq!(map.inner, 0);
}

#[test]
fn set_bit_then_unset_bit_restores_the_row() {
    let mut map = BitMap::default();
    map.set_bit(5);
    map.set_bit(63);
    assert!(map.get(5));
    assert!(map.get(63));
    assert_eq!(map.inner, (1u64 << 5) | (1u64 << 63));
    map.unset_bit(5);
    assert!(!map.get(5));
    assert!(map.get(63));
    map.unset_bit(63);
    assert_eq!(map.inner, 0);
}
