use kernel_core::disk::ata::Disk;
use kernel_core::disk::filesystem::{
    create_directory, create_file, delete_directory, delete_file, fs_erase, is_directory, is_file, parse_path,
};
use kernel_core::disk::memory_disk::{get_mounted_disk, mount_disk, unmount_disk, MemoryDisk};
use kernel_core::disk::serial::{deserialize, serialize, Directory};

fn chars(s: &str) -> Vec<char> {
    s.chars().collect()
}

fn blank_disk(n: usize) -> Disk {
    Disk::new(0x1F0, 0, vec![[0u8; 512]; n])
}

fn mounted(n: usize) -> Option<MemoryDisk> {
    let mut slot = None;
    assert!(mount_disk(&mut slot, &blank_disk(n)).is_none());
    slot
}

#[test]
fn disk_read_write() {
    let mut d = blank_disk(4);
    let mut s = [0u8; 512];
    s[0] = 7;
    s[511] = 9;
    d.write(2, &s);
    assert_eq!(d.read(2), s);
    assert_eq!(d.read(1), [0u8; 512]);
    let c = d.clone();
    assert_eq!(c.read(2)[511], 9);
    assert_eq!(c.size(), 4);
}

#[test]
fn memory_disk_sectors() {
    let mut slot = mounted(64);
    let m = slot.as_mut().unwrap();
    assert_eq!(m.get_num_sectors(), 64);
    assert_eq!(m.get_size(), 64 * 512);
    assert_eq!(m.get_num_free_sectors(), 64);
    m.erase();
    assert_eq!(m.get_num_free_sectors(), 62);
    let a = m.alloc_sector();
    let b = m.alloc_sector();
    assert!(a >= 2 && b >= 2 && a != b);
    assert_eq!(m.get_num_free_sectors(), 60);
    m.free_sector(a);
    assert_eq!(m.get_num_free_sectors(), 61);
    m.set_head(&vec![1, 2, 3]);
    assert_eq!(m.get_head(), vec![1, 2, 3]);
    assert_eq!(m.read_sector(0)[0], 3);
    let mut page = [0u8; 512];
    page[5] = 42;
    m.write_sector(10, &page);
    assert_eq!(m.read_sector(10)[5], 42);
}

#[test]
fn bitmap_survives_remount() {
    let mut slot = mounted(64);
    {
        let m = slot.as_mut().unwrap();
        m.erase();
        m.alloc_sector();
        m.alloc_sector();
    }
    let free_before = slot.as_ref().unwrap().get_num_free_sectors();
    let disk = unmount_disk(&mut slot).unwrap();
    assert!(slot.is_none());
    assert!(get_mounted_disk(&slot).is_none());
    mount_disk(&mut slot, &disk);
    assert_eq!(get_mounted_disk(&slot).unwrap().get_num_free_sectors(), free_before);
}

#[test]
fn parse_paths() {
    let names = |s: &str| -> Vec<String> { parse_path(&chars(s)).iter().map(|n| n.iter().collect()).collect() };
    assert_eq!(names("/a//b/./c/../d/"), vec!["a", "b", "d"]);
    assert_eq!(names("../x"), vec!["x"]);
    assert_eq!(names(""), Vec::<String>::new());
    assert_eq!(names("a/b/../.."), Vec::<String>::new());
}

#[test]
fn directory_round_trip() {
    let mut d = Directory::new();
    d.subdirectories.push((vec![3, 4], 700, chars("sub")));
    d.files.push((vec![], 0, chars("f\u{e9}")));
    let bytes = serialize(&d);
    let back = deserialize(&bytes).unwrap();
    assert_eq!(back.subdirectories, d.subdirectories);
    assert_eq!(back.files, d.files);
    assert!(deserialize(&bytes[..bytes.len() - 1].to_vec()).is_none());
    assert!(deserialize(&vec![1, 0, 0]).is_none());
}

#[test]
fn create_check_delete_directories() {
    let mut slot = mounted(128);
    let m = slot.as_mut().unwrap();
    fs_erase(m);
    assert!(is_directory(m, &chars("/")));
    assert!(!is_directory(m, &chars("a")));
    create_directory(m, &chars("a/b/c"));
    assert!(is_directory(m, &chars("a")));
    assert!(is_directory(m, &chars("a/b")));
    assert!(is_directory(m, &chars("/a/b/c/")));
    assert!(!is_directory(m, &chars("a/c")));
    assert!(!is_directory(m, &chars("a/b/c/d")));
    let disk = unmount_disk(&mut slot).unwrap();
    mount_disk(&mut slot, &disk);
    let m = slot.as_mut().unwrap();
    assert!(is_directory(m, &chars("a/b/c")));
    delete_directory(m, &chars("a"));
    assert!(!is_directory(m, &chars("a")));
    assert!(!is_directory(m, &chars("a/b")));
    assert!(!is_directory(m, &chars("a/b/c")));
}

#[test]
fn create_check_delete_files() {
    let mut slot = mounted(128);
    let m = slot.as_mut().unwrap();
    fs_erase(m);
    create_file(m, &chars("notes"));
    create_file(m, &chars("docs/readme"));
    assert!(is_file(m, &chars("notes")));
    assert!(is_file(m, &chars("docs/readme")));
    assert!(is_directory(m, &chars("docs")));
    assert!(!is_file(m, &chars("docs")));
    assert!(!is_file(m, &chars("other")));
    create_file(m, &chars("notes"));
    assert!(is_file(m, &chars("notes")));
    delete_file(m, &chars("notes"));
    assert!(!is_file(m, &chars("notes")));
    assert!(is_file(m, &chars("docs/readme")));
    let disk = unmount_disk(&mut slot).unwrap();
    mount_disk(&mut slot, &disk);
    let m = slot.as_mut().unwrap();
    assert!(is_file(m, &chars("docs/readme")));
    assert!(!is_file(m, &chars("notes")));
}

#[test]
fn file_operations_keep_the_other_entries() {
    let mut slot = mounted(128);
    let m = slot.as_mut().unwrap();
    fs_erase(m);
    create_directory(m, &chars("d/sub"));
    create_file(m, &chars("d/a"));
    create_file(m, &chars("d/b"));
    create_file(m, &chars("d/a"));
    assert!(is_file(m, &chars("d/a")));
    assert!(is_file(m, &chars("d/b")));
    assert!(is_directory(m, &chars("d/sub")));
    delete_file(m, &chars("d/a"));
    assert!(!is_file(m, &chars("d/a")));
    assert!(is_file(m, &chars("d/b")));
    assert!(is_directory(m, &chars("d/sub")));
}

#[test]
fn operations_keep_other_top_level_entries() {
    let mut slot = mounted(256);
    let m = slot.as_mut().unwrap();
    fs_erase(m);
    create_file(m, &chars("a/x"));
    create_directory(m, &chars("a/deep/er"));
    create_file(m, &chars("b/y"));
    create_file(m, &chars("top"));
    delete_file(m, &chars("b/y"));
    assert!(is_file(m, &chars("a/x")) && is_directory(m, &chars("a/deep/er")) && is_file(m, &chars("top")));
    create_directory(m, &chars("c/d"));
    assert!(is_file(m, &chars("a/x")) && is_directory(m, &chars("a/deep/er")) && is_file(m, &chars("top")));
    create_file(m, &chars("b/z"));
    assert!(is_file(m, &chars("a/x")) && is_directory(m, &chars("c/d")));
    delete_directory(m, &chars("b"));
    assert!(!is_directory(m, &chars("b")));
    assert!(is_file(m, &chars("a/x")) && is_directory(m, &chars("a/deep/er")) && is_directory(m, &chars("c/d")));
    assert!(is_file(m, &chars("top")));
}
