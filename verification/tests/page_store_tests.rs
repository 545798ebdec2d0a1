use kernel_core::disk::ata::Disk;
use kernel_core::memory_disk::{MemoryDisk, PageIterator, PAGE_DATA, PAGE_SIZE};

fn blank_disk(sectors: usize) -> Disk {
    Disk::new(0x1F0, 0, vec![[0u8; 512]; sectors])
}

fn erased(sectors: usize) -> MemoryDisk {
    let mut d = MemoryDisk::new(blank_disk(sectors));
    d.erase();
    d
}

fn pattern(len: usize, seed: u8) -> Vec<u8> {
    (0..len).map(|i| (i as u8).wrapping_mul(31).wrapping_add(seed)).collect()
}

#[test]
fn sizes_follow_the_disk() {
    let d = MemoryDisk::new(blank_disk(64));
    assert_eq!(d.get_num_pages(), 16);
    assert_eq!(d.get_size(), 16 * 4096);
    assert_eq!(PAGE_SIZE, 4096);
    assert_eq!(PAGE_DATA, 4088);
}

#[test]
fn erase_creates_an_empty_master_object() {
    let d = erased(64);
    let master = d.get_master_page();
    assert!(master >= 2 && master < 8);
    assert_eq!(d.load(master), Vec::<u8>::new());
}

#[test]
fn saved_object_loads_back() {
    let mut d = erased(64);
    let id = d.create();
    assert_eq!(d.load(id), Vec::<u8>::new());
    let data = pattern(10_000, 7);
    d.save(id, &data);
    assert_eq!(d.load(id), data);
    let shorter = pattern(100, 9);
    d.save(id, &shorter);
    assert_eq!(d.load(id), shorter);
    d.save(id, &Vec::new());
    assert_eq!(d.load(id), Vec::<u8>::new());
}

#[test]
fn objects_of_one_page_boundary() {
    let mut d = erased(64);
    let id = d.create();
    let exact = pattern(4088, 1);
    d.save(id, &exact);
    assert_eq!(d.load(id), exact);
    let one_more = pattern(4089, 2);
    d.save(id, &one_more);
    assert_eq!(d.load(id), one_more);
}

#[test]
fn saving_one_object_keeps_another() {
    let mut d = erased(64);
    let master = d.get_master_page();
    let a = d.create();
    let b = d.create();
    let da = pattern(5000, 3);
    let db = pattern(9000, 4);
    d.save(a, &da);
    d.save(b, &db);
    assert_eq!(d.load(a), da);
    let da2 = pattern(300, 5);
    d.save(a, &da2);
    assert_eq!(d.load(b), db);
    assert_eq!(d.load(a), da2);
    assert_eq!(d.load(master), Vec::<u8>::new());
}

#[test]
fn destroyed_pages_are_reused() {
    let mut d = erased(64);
    let a = d.create();
    d.save(a, &pattern(8000, 6));
    d.destroy(a);
    let b = d.create();
    let c = d.create();
    assert_ne!(b, c);
    d.save(b, &pattern(12_000, 8));
    assert_eq!(d.load(b), pattern(12_000, 8));
}

#[test]
fn page_iterator_walks_a_chain() {
    let mut d = erased(64);
    let id = d.create();
    d.save(id, &pattern(9000, 1));
    let mut disk_bytes = vec![0u8; 8 * 4096];
    disk_bytes[4096 * 3..4096 * 3 + 4].copy_from_slice(&9000i32.to_le_bytes());
    disk_bytes[4096 * 3 + 4092..4096 * 4].copy_from_slice(&5i32.to_le_bytes());
    let mut it = PageIterator::new(&disk_bytes, 4096 * 3);
    assert_eq!(it.get_size_left(), 9000);
    assert_eq!(it.get_curr_size(), 4088);
    assert_eq!(it.get_curr_addr(), 4096 * 3 + 4);
    assert!(it.advance(&disk_bytes));
    assert_eq!(it.addr, 5 * 4096);
    assert_eq!(it.get_size_left(), 9000 - 4088);
    assert!(it.is_first);
    disk_bytes[4096 * 5 + 4092..4096 * 6].copy_from_slice(&6i32.to_le_bytes());
    assert!(it.advance(&disk_bytes));
    assert_eq!(it.get_size_left(), 9000 - 2 * 4088);
    assert!(!it.advance(&disk_bytes));
    assert_eq!(it.addr, 6 * 4096);
}

#[test]
fn opening_reads_taken_bits_from_page_one() {
    let mut sectors = vec![[0u8; 512]; 64];
    sectors[8][0] = 0b0000_0111;
    sectors[0][0] = 2;
    let mut d = MemoryDisk::new(Disk::new(0x1F0, 0, sectors));
    assert_eq!(d.get_master_page(), 2);
    let p = d.create();
    assert!(p >= 3);
}

use kernel_core::memory_disk::DiskBox;
use kernel_core::std_lib::serial::{deserialize, serialize, Serial};

#[test]
fn serial_primitives_round_trip() {
    let mut x: u64 = 0x0123_4567_89ab_cdef;
    let bytes = serialize(&mut x);
    assert_eq!(bytes, vec![0xef, 0xcd, 0xab, 0x89, 0x67, 0x45, 0x23, 0x01]);
    assert_eq!(deserialize::<u64>(&bytes), x);
    let mut y: i32 = -2;
    let bytes = serialize(&mut y);
    assert_eq!(bytes, vec![0xfe, 0xff, 0xff, 0xff]);
    assert_eq!(deserialize::<i32>(&bytes), -2);
    let mut z: u8 = 7;
    assert_eq!(serialize(&mut z), vec![7]);
    let mut v = Vec::new();
    let mut idx = 0usize;
    let mut a: i32 = 5;
    let mut b: u64 = 9;
    a.serialize(&mut v);
    b.serialize(&mut v);
    assert_eq!(i32::deserialize(&v, &mut idx), 5);
    assert_eq!(u64::deserialize(&v, &mut idx), 9);
    assert_eq!(idx, 12);
}

#[test]
fn disk_box_saves_and_reads_back() {
    let mut d = erased(64);
    let values = [3u64, 1 << 40, u64::MAX];
    let mut pages = Vec::new();
    for v in values {
        let mut b = DiskBox::new(&mut d, v);
        assert_eq!(*b.get(&d), v);
        let mut enc = Vec::new();
        b.serialize(&mut enc);
        pages.push(enc);
        b.close(&mut d);
    }
    for (i, enc) in pages.iter().enumerate() {
        let mut b: DiskBox<u64> = deserialize(enc);
        assert!(b.obj.is_none());
        assert_eq!(*b.get(&d), values[i]);
        if values[i] < u64::MAX {
            *b.get(&d) += 1;
            assert_eq!(*b.get(&d), values[i] + 1);
        }
        b.set(42);
        assert_eq!(*b.get(&d), 42);
        b.delete(&mut d);
    }
}

#[test]
fn disk_box_new_at_page_is_unloaded() {
    let b: DiskBox<i32> = DiskBox::new_at_page(4);
    assert_eq!(b.page, 4);
    assert!(b.obj.is_none());
}

#[test]
fn serial_more_types_round_trip() {
    let mut a: u32 = 0x0102_0304;
    assert_eq!(serialize(&mut a), vec![4, 3, 2, 1]);
    let mut t: (u8, u16) = (1, 2);
    assert_eq!(serialize(&mut t), vec![1, 2, 0]);
    let mut u: (u32, u8) = (7, 9);
    let bytes = serialize(&mut u);
    assert_eq!(deserialize::<(u32, u8)>(&bytes), (7, 9));
    let mut c = 'é';
    let bytes = serialize(&mut c);
    assert_eq!(bytes, vec![0xe9, 0, 0, 0]);
    assert_eq!(deserialize::<char>(&bytes), 'é');
    let mut n: (i8, (i16, i64)) = (-1, (-300, -5));
    let bytes = serialize(&mut n);
    assert_eq!(bytes.len(), 11);
    assert_eq!(deserialize::<(i8, (i16, i64))>(&bytes), (-1, (-300, -5)));
    let mut z: (usize, isize) = (usize::MAX, isize::MIN);
    let bytes = serialize(&mut z);
    assert_eq!(deserialize::<(usize, isize)>(&bytes), (usize::MAX, isize::MIN));
}

#[test]
fn serial_triples() {
    let mut t: (u8, u16, u32) = (1, 2, 3);
    let bytes = serialize(&mut t);
    assert_eq!(bytes, vec![1, 2, 0, 3, 0, 0, 0]);
    assert_eq!(deserialize::<(u8, u16, u32)>(&bytes), (1, 2, 3));
}

#[test]
fn serial_larger_tuples() {
    let mut t4: (u8, i16, u32, char) = (1, -2, 3, 'x');
    let bytes = serialize(&mut t4);
    assert_eq!(bytes, vec![1, 0xfe, 0xff, 3, 0, 0, 0, b'x', 0, 0, 0]);
    assert_eq!(deserialize::<(u8, i16, u32, char)>(&bytes), (1, -2, 3, 'x'));
    let mut t5: (u8, u8, u8, u8, u64) = (9, 8, 7, 6, 0x0102_0304_0506_0708);
    let bytes = serialize(&mut t5);
    assert_eq!(bytes.len(), 12);
    assert_eq!(deserialize::<(u8, u8, u8, u8, u64)>(&bytes), t5);
    let mut t6: (i8, u16, i32, u64, isize, (u32, u8)) = (-1, 2, -3, 4, -5, (7, 9));
    let bytes = serialize(&mut t6);
    assert_eq!(bytes.len(), 1 + 2 + 4 + 8 + 8 + 5);
    assert_eq!(deserialize::<(i8, u16, i32, u64, isize, (u32, u8))>(&bytes), t6);
}
