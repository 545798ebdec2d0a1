use kernel_core::std_lib::bitset::{bitset_size_bytes, get_raw, set_raw, BitSet, BitSetRaw};
use kernel_core::rand::Rng;

#[test]
fn std_bitset_set_get_count() {
    let mut bitset = BitSetRaw::new(2048);
    let mut rng = Rng::new(5437891);
    let mut arr = vec![0u8; 2048];
    let mut count0 = 2048;
    for _ in 0..20000 {
        let idx = rng.get(0, 2048) as usize;
        assert_eq!(arr[idx] == 1, bitset.get(idx));
        bitset.set(idx, arr[idx] == 0);
        arr[idx] ^= 1;
        if arr[idx] == 0 { count0 += 1 } else { count0 -= 1 }
        assert_eq!(bitset.get_count0(), count0);
        if count0 != 0 {
            let z = bitset.get_zero_element().unwrap();
            assert!(!bitset.get(z));
        }
    }
}

#[test]
fn std_bitset_fill_and_grow() {
    let mut bitset = BitSetRaw::new(0);
    assert_eq!(bitset.get_zero_element(), None);
    for i in 0..300 {
        bitset.add_one();
        assert_eq!(bitset.get_size(), i + 1);
        let z = bitset.get_zero_element().unwrap();
        assert_eq!(z, i);
        bitset.set(z, true);
        assert_eq!(bitset.get_count0(), 0);
    }
    bitset.set(17, false);
    assert_eq!(bitset.get_zero_element(), Some(17));
}

#[test]
fn std_bitset_store_load_and_raw() {
    let mut b = BitSetRaw::new(100);
    b.set(3, true);
    b.set(99, true);
    let mut words = vec![0u64; 2];
    b.store_to(&mut words);
    assert!(get_raw(&words, 3));
    assert!(get_raw(&words, 99));
    assert!(!get_raw(&words, 4));
    let mut c = BitSetRaw::new(100);
    c.load_from(&words);
    assert!(c.get(3) && c.get(99) && !c.get(50));
    assert_eq!(c.get_count0(), 98);
    set_raw(&mut words, 64, true);
    assert_eq!(words[1] & 1, 1);
    assert_eq!(bitset_size_bytes(100), 400);
    assert_eq!(b.get_size_bytes(), 400);
}

#[test]
fn std_bitset_new_from_cells() {
    let b = BitSetRaw::new_from(3, vec![1u32 << 31, 0, 1u32 << 31]);
    assert!(b.get(0));
    assert!(!b.get(1));
    assert!(b.get(2));
    assert_eq!(b.get_count0(), 1);
    let owned = BitSet::new(5);
    assert_eq!(owned.raw().get_count0(), 5);
}
