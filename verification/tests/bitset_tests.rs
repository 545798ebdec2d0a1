use kernel_core::memory::bitset::{bitset_size_bytes, BitSet, BitSetRaw};
use kernel_core::rand::Rng;

#[test]
fn test_bitset_new() {
    let bitset = BitSetRaw::new(1024 * 8);
    for i in 0..1024 * 8 {
        assert!(!bitset.get(i));
    }
    assert_eq!(bitset.get_count0(), 1024 * 8);
}

#[test]
fn test_bitset_set() {
    let mut bitset = BitSetRaw::new(1024 * 8);
    let mut rng = Rng::new(5437891);
    let mut arr = vec![0u8; 1024 * 8];
    for _ in 0..100000 {
        let idx = rng.get(0, 1024 * 8) as usize;
        assert_eq!(arr[idx] == 1, bitset.get(idx));
        bitset.set(idx, arr[idx] == 0);
        arr[idx] ^= 1;
        assert_eq!(arr[idx] == 1, bitset.get(idx));
    }
}

#[test]
fn test_bitset_zero_count() {
    let mut bitset = BitSetRaw::new(1024 * 8);
    let mut rng = Rng::new(5437891);
    let mut arr = vec![0u8; 1024 * 8];
    let mut count0 = 1024 * 8;
    for _ in 0..100000 {
        let idx = rng.get(0, 1024 * 8) as usize;
        assert_eq!(arr[idx] == 1, bitset.get(idx));
        bitset.set(idx, arr[idx] == 0);
        arr[idx] ^= 1;
        if arr[idx] == 0 {
            count0 += 1;
        } else {
            count0 -= 1;
        }
        assert_eq!(arr[idx] == 1, bitset.get(idx));
        assert_eq!(bitset.get_count0(), count0);
    }
}

#[test]
fn test_bitset_get_zero() {
    let mut bitset = BitSetRaw::new(1024 * 8);
    let mut rng = Rng::new(5437891);
    let mut arr = vec![0u8; 1024 * 8];
    for _ in 0..100000 {
        let idx = rng.get(0, 1024 * 8) as usize;
        bitset.set(idx, arr[idx] == 0);
        arr[idx] ^= 1;
        if bitset.get_count0() != 0 {
            let idx = bitset.get_zero_element().unwrap();
            assert!(!bitset.get(idx));
        }
    }
}

#[test]
fn test_bitset_fill() {
    let mut bitset = BitSetRaw::new(1024 * 8);
    for i in 0..1024 * 8 {
        let idx = bitset.get_zero_element().unwrap();
        assert!(!bitset.get(idx));
        bitset.set(idx, true);
        assert!(bitset.get(idx));
        assert_eq!(bitset.get_count0(), 1024 * 8 - i - 1);
    }
    assert_eq!(bitset.get_zero_element(), None);
}

#[test]
fn test_bitset_store_load() {
    let mut bitset = BitSetRaw::new(1024);
    let mut rng = Rng::new(5437891);
    let mut arr = vec![0u8; 1024];
    let mut buffer = vec![0u64; 16];
    for _ in 0..100 {
        let idx = rng.get(0, 1024) as usize;
        bitset.set(idx, arr[idx] == 0);
        arr[idx] ^= 1;
        bitset.store_to(&mut buffer);
        bitset.load_from(&buffer);
        for j in 0..1024 {
            assert_eq!(arr[j] == 1, bitset.get(j));
        }
    }
}

#[test]
fn test_bitset_clear() {
    let mut bitset = BitSetRaw::new(1024 / 8);
    bitset.set(3, true);
    bitset.clear();
    assert!(!bitset.get(3));
    assert_eq!(bitset.get_count0(), 128);
}

#[test]
fn test_bitset_size_bytes_formula() {
    assert_eq!(bitset_size_bytes(0), 0);
    assert_eq!(bitset_size_bytes(1), 8 + 8 + 4);
    assert_eq!(bitset_size_bytes(64), 8 + 8 + 256);
    assert_eq!(bitset_size_bytes(65), 16 + 16 + 260);
    let b = BitSetRaw::new(100);
    assert_eq!(b.get_size_bytes(), 16 + 16 + 400);
    assert_eq!(b.get_size(), 100);
    assert_eq!(b.get_num_u64(), 2);
}

#[test]
fn test_bitset_new_from_words() {
    let b = BitSetRaw::new_from(70, vec![0b101, 1u64 << 5]);
    assert!(b.get(0));
    assert!(!b.get(1));
    assert!(b.get(2));
    assert!(b.get(69));
    assert_eq!(b.get_count0(), 67);
}

#[test]
fn test_bitset_owned_and_empty() {
    let mut b = BitSet::new(10);
    assert_eq!(b.raw().get_count0(), 10);
    b.raw_mut().set(4, true);
    assert!(b.raw().get(4));
    let e = BitSetRaw::new_empty();
    assert_eq!(e.get_size(), 0);
}
