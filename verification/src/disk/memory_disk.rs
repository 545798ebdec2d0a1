use vstd::prelude::*;

verus! {

use crate::bits::{bit_of, words_bit, num_words};
use crate::disk::ata::{Disk, MAX_SECTORS, SECTOR_SIZE};
use crate::le::{le_value, enc_le, read_le, write_le, pow256, lemma_enc_le, lemma_enc_le_round_trip, lemma_pow256_values};
use crate::memory::bitset::{BitSet, spec_bitset_size_bytes, zeros};

/// Sectors after the head sector that hold the bitmap of taken sectors of a disk of
/// `n` sectors.
pub open spec fn bitmap_sectors(n: int) -> int {
    (spec_bitset_size_bytes(n) + 511) / 512
}

/// Word `j` of the bitmap stored on a disk: eight bytes of sector `1 + j / 64`, least
/// significant first.
pub open spec fn stored_word(sectors: Seq<Seq<u8>>, j: int) -> u64 {
    le_value(sectors[1 + j / 64].subrange((j % 64) * 8, (j % 64) * 8 + 8)) as u64
}

/// The taken bits of the `n` sectors, as the disk stores them.
pub open spec fn stored_bitmap(sectors: Seq<Seq<u8>>, n: nat) -> Seq<bool> {
    Seq::new(n, |i: int| bit_of(stored_word(sectors, i / 64), (i % 64) as u64))
}

/// Length of the data held in a head sector: its first four bytes, least significant first.
pub open spec fn head_len(s0: Seq<u8>) -> nat {
    le_value(s0.subrange(0, 4))
}

/// The data held in a head sector.
pub open spec fn head_bytes(s0: Seq<u8>) -> Seq<u8> {
    s0.subrange(4, 4 + head_len(s0) as int)
}

/// The head sector that holds `data`: its length, the data, then zeros.
pub open spec fn head_sector(data: Seq<u8>) -> Seq<u8> {
    enc_le(data.len(), 4) + data + Seq::new((508 - data.len()) as nat, |i: int| 0u8)
}

/// A head sector gives back the data it was made with.
pub proof fn lemma_head_round_trip(data: Seq<u8>)
    requires
        data.len() <= 508,
    ensures
        head_sector(data).len() == 512,
        head_len(head_sector(data)) == data.len(),
        head_bytes(head_sector(data)) == data,
{
    lemma_pow256_values();
    lemma_enc_le_round_trip(data.len(), 4);
    let h = head_sector(data);
    assert(h.subrange(0, 4) =~= enc_le(data.len(), 4));
    assert(h.subrange(4, 4 + data.len() as int) =~= data);
}

/// The bitmap of a disk of at least two sectors fits after its head sector, in words
/// that the bitmap sectors cover.
pub proof fn lemma_bitmap_fits(n: int)
    requires
        2 <= n <= MAX_SECTORS,
    ensures
        spec_bitset_size_bytes(n) <= 0x1_0000_0000 - 1,
        1 <= bitmap_sectors(n),
        bitmap_sectors(n) + 1 <= n,
        num_words(n) <= 64 * bitmap_sectors(n),
        64 * bitmap_sectors(n) <= 0x2000_0000,
{
    let w = num_words(n);
    assert(64 * w <= n + 63);
    assert(64 * w >= n);
    let b = spec_bitset_size_bytes(n);
    assert(b == 16 * w + 4 * n);
    let k = bitmap_sectors(n);
    assert(512 * k <= b + 511);
    assert(512 * k >= b);
}

/// The bytes of a sector.
fn sector_bytes(s: &[u8; 512]) -> (r: Vec<u8>)
    ensures
        r@ == s@,
{
    let mut v: Vec<u8> = Vec::new();
    let mut i: usize = 0;
    while i < 512
        invariant
            i <= 512,
            s@.len() == 512,
            v@ == s@.subrange(0, i as int),
        decreases 512 - i,
    {
        v.push(s[i]);
        i = i + 1;
    }
    assert(v@ =~= s@);
    v
}

/// The sector holding the 512 bytes of `v`.
fn bytes_sector(v: &Vec<u8>) -> (r: [u8; 512])
    requires
        v.len() == 512,
    ensures
        r@ == v@,
{
    let mut page = [0u8; 512];
    let mut i: usize = 0;
    while i < 512
        invariant
            i <= 512,
            v.len() == 512,
            page@.len() == 512,
            forall|j: int| 0 <= j < i ==> page@[j] == v@[j],
        decreases 512 - i,
    {
        page[i] = v[i];
        i = i + 1;
    }
    assert(page@ =~= v@);
    page
}

/// The part of `a + b` that lies in `a`.
proof fn lemma_subrange_of_prefix(a: Seq<u8>, b: Seq<u8>, i: int, j: int)
    requires
        0 <= i <= j <= a.len(),
    ensures
        (a + b).subrange(i, j) == a.subrange(i, j),
{
    assert((a + b).subrange(i, j) =~= a.subrange(i, j));
}

/// The sector that stores words `start .. start + 64`, each in eight bytes, least
/// significant first.
fn words_sector(words: &Vec<u64>, start: usize) -> (r: [u8; 512])
    requires
        start + 64 <= words.len(),
    ensures
        forall|w: int|
            0 <= w < 64 ==> #[trigger] r@.subrange(w * 8, w * 8 + 8) == enc_le(words@[start + w] as nat, 8),
{
    let mut bytes: Vec<u8> = Vec::new();
    let mut w: usize = 0;
    while w < 64
        invariant
            w <= 64,
            start + 64 <= words.len(),
            bytes@.len() == w * 8,
            forall|x: int|
                0 <= x < w ==> #[trigger] bytes@.subrange(x * 8, x * 8 + 8) == enc_le(words@[start + x] as nat, 8),
        decreases 64 - w,
    {
        let ghost before = bytes@;
        write_le(&mut bytes, words[start + w], 8);
        proof {
            lemma_enc_le(words@[start + w] as nat, 8);
            assert forall|x: int| 0 <= x < w + 1 implies #[trigger] bytes@.subrange(x * 8, x * 8 + 8) == enc_le(
                words@[start + x] as nat,
                8,
            ) by {
                if x < w {
                    lemma_subrange_of_prefix(before, enc_le(words@[start + w] as nat, 8), x * 8, x * 8 + 8);
                } else {
                    assert(bytes@.subrange(x * 8, x * 8 + 8) =~= enc_le(words@[start + w] as nat, 8));
                }
            }
        }
        w = w + 1;
    }
    bytes_sector(&bytes)
}

/// A disk mounted for the file system: the drive, and which of its sectors are taken.
pub struct MemoryDisk {
    disk: Disk,
    is_taken: BitSet,
}

impl MemoryDisk {
    /// The contents of the sectors.
    pub closed spec fn sectors(&self) -> Seq<Seq<u8>> {
        self.disk@
    }

    /// Which sectors are taken.
    pub closed spec fn taken(&self) -> Seq<bool> {
        self.is_taken@
    }

    /// The channel and position of the drive.
    pub closed spec fn drive(&self) -> (u16, u8) {
        (self.disk.base, self.disk.h)
    }

    /// The internal invariant.
    pub closed spec fn wf(&self) -> bool {
        &&& self.is_taken.wf()
        &&& self.disk@.len() <= MAX_SECTORS
    }

    /// Ready for use: one taken bit per sector, and room for the head and the bitmap.
    pub open spec fn mounted(&self) -> bool {
        &&& self.wf()
        &&& self.taken().len() == self.sectors().len()
        &&& 2 <= self.sectors().len()
    }

    /// Sectors after the head sector that hold the bitmap.
    pub open spec fn spec_bitmap_sectors(&self) -> int {
        bitmap_sectors(self.sectors().len() as int)
    }

    /// A mounted disk has at least one bitmap sector, and room for them after the head.
    pub proof fn lemma_mounted(&self)
        requires
            self.mounted(),
        ensures
            1 <= self.spec_bitmap_sectors(),
            self.spec_bitmap_sectors() + 1 <= self.sectors().len(),
            self.sectors().len() <= MAX_SECTORS,
    {
        lemma_bitmap_fits(self.sectors().len() as int);
    }

    /// Every sector holds 512 bytes.
    pub proof fn lemma_sector_len(&self, i: int)
        requires
            0 <= i < self.sectors().len(),
        ensures
            self.sectors()[i].len() == 512,
    {
    }

    /// The drive `disk`, with no sector known yet.
    pub fn new(disk: &Disk) -> (r: MemoryDisk)
        requires
            disk@.len() <= MAX_SECTORS,
        ensures
            r.wf(),
            r.sectors() == disk@,
            r.taken() == Seq::<bool>::empty(),
            r.drive() == (disk.base, disk.h),
    {
        let is_taken = BitSet::new(0);
        assert(is_taken@ =~= Seq::<bool>::empty());
        MemoryDisk { disk: disk.clone(), is_taken }
    }

    /// Number of sectors.
    pub fn get_num_sectors(&self) -> (r: usize)
        ensures
            r == self.sectors().len(),
    {
        self.disk.size()
    }

    /// Number of sectors that are not taken.
    pub fn get_num_free_sectors(&self) -> (r: usize)
        requires
            self.wf(),
        ensures
            r == zeros(self.taken()).len(),
    {
        self.is_taken.raw().get_count0()
    }

    /// Size in bytes.
    pub fn get_size(&self) -> (r: usize)
        requires
            self.sectors().len() * 512 <= usize::MAX,
        ensures
            r == self.sectors().len() * 512,
    {
        self.get_num_sectors() * SECTOR_SIZE
    }

    /// Sectors after the head sector that hold the bitmap.
    fn get_bitset_num_sectors(&self) -> (r: usize)
        requires
            self.mounted(),
        ensures
            r == self.spec_bitmap_sectors(),
            1 <= r,
            r + 1 <= self.sectors().len(),
    {
        proof {
            lemma_bitmap_fits(self.sectors().len() as int);
        }
        let b = self.is_taken.raw().get_size_bytes();
        (b + 511) / SECTOR_SIZE
    }

    /// The contents of sector `sector`.
    pub fn read_sector(&mut self, sector: usize) -> (r: [u8; 512])
        requires
            old(self).wf(),
            sector < old(self).sectors().len(),
        ensures
            *final(self) == *old(self),
            r@ == old(self).sectors()[sector as int],
    {
        self.disk.read(sector as i32)
    }

    /// Writes `data` to sector `sector`.
    pub fn write_sector(&mut self, sector: usize, data: &[u8; 512])
        requires
            old(self).wf(),
            sector < old(self).sectors().len(),
        ensures
            final(self).wf(),
            final(self).sectors() == old(self).sectors().update(sector as int, data@),
            final(self).taken() == old(self).taken(),
            final(self).drive() == old(self).drive(),
    {
        self.disk.write(sector as i32, data);
    }

    /// Takes some free sector and returns it.
    pub fn alloc_sector(&mut self) -> (r: usize)
        requires
            old(self).mounted(),
            zeros(old(self).taken()).len() > 0,
        ensures
            final(self).mounted(),
            r < old(self).sectors().len(),
            !old(self).taken()[r as int],
            final(self).taken() == old(self).taken().update(r as int, true),
            zeros(final(self).taken()).len() == zeros(old(self).taken()).len() - 1,
            final(self).sectors() == old(self).sectors(),
            final(self).drive() == old(self).drive(),
    {
        let res = self.is_taken.raw_mut().get_zero_element();
        match res {
            Some(i) => {
                self.is_taken.raw_mut().set(i, true);
                i
            },
            None => 0,
        }
    }

    /// Reads the bitmap of taken sectors from the disk.
    pub fn init(&mut self)
        requires
            old(self).wf(),
            2 <= old(self).sectors().len(),
        ensures
            final(self).mounted(),
            final(self).sectors() == old(self).sectors(),
            final(self).taken() == stored_bitmap(old(self).sectors(), old(self).sectors().len()),
            final(self).drive() == old(self).drive(),
    {
        let n = self.disk.size();
        proof {
            lemma_bitmap_fits(n as int);
        }
        self.is_taken = BitSet::new(n);
        let k = self.get_bitset_num_sectors();
        let ghost sectors = self.sectors();
        let mut words: Vec<u64> = Vec::new();
        let mut i: usize = 0;
        while i < k
            invariant
                self.mounted(),
                self.sectors() == sectors,
                self.sectors().len() == n,
                k + 1 <= n,
                i <= k,
                words@.len() == 64 * i,
                forall|j: int| 0 <= j < 64 * i ==> #[trigger] words@[j] == stored_word(sectors, j),
                64 * k <= 0x2000_0000,
                self.drive() == old(self).drive(),
            decreases k - i,
        {
            let sector = self.read_sector(i + 1);
            let bytes = sector_bytes(&sector);
            let mut w: usize = 0;
            while w < 64
                invariant
                    w <= 64,
                    bytes@ == sectors[i + 1],
                    bytes@.len() == 512,
                    words@.len() == 64 * i + w,
                    i < k,
                    64 * k <= 0x2000_0000,
                    forall|j: int| 0 <= j < 64 * i + w ==> #[trigger] words@[j] == stored_word(sectors, j),
                decreases 64 - w,
            {
                let x = read_le(&bytes, w * 8, 8);
                proof {
                    let j = 64 * i + w;
                    assert(j / 64 == i && j % 64 == w) by (nonlinear_arith)
                        requires
                            j == 64 * i + w,
                            w < 64,
                    ;
                }
                words.push(x);
                w = w + 1;
            }
            i = i + 1;
        }
        self.is_taken.raw_mut().load_from(&words);
        proof {
            assert forall|x: int| 0 <= x < n implies #[trigger] self.taken()[x] == stored_bitmap(sectors, n as nat)[x] by {
                assert(x / 64 < num_words(n as int));
            }
            assert(self.taken() =~= stored_bitmap(sectors, n as nat));
        }
    }

    /// Writes the bitmap of taken sectors to the disk.
    fn save_bitmap(&mut self)
        requires
            old(self).mounted(),
        ensures
            final(self).mounted(),
            final(self).taken() == old(self).taken(),
            final(self).drive() == old(self).drive(),
            final(self).sectors().len() == old(self).sectors().len(),
            final(self).sectors()[0] == old(self).sectors()[0],
            forall|j: int|
                old(self).spec_bitmap_sectors() < j < old(self).sectors().len() ==> #[trigger] final(self).sectors()[j]
                    == old(self).sectors()[j],
            stored_bitmap(final(self).sectors(), old(self).sectors().len()) == old(self).taken(),
    {
        let k = self.get_bitset_num_sectors();
        let n = self.get_num_sectors();
        proof {
            lemma_bitmap_fits(n as int);
            lemma_pow256_values();
        }
        let mut words: Vec<u64> = Vec::new();
        let mut z: usize = 0;
        while z < 64 * k
            invariant
                64 * k <= 0x2000_0000,
                z <= 64 * k,
                words@.len() == z,
            decreases 64 * k - z,
        {
            words.push(0);
            z = z + 1;
        }
        self.is_taken.raw().store_to(&mut words);
        let ghost old_sectors = self.sectors();
        let ghost taken = self.taken();
        let mut i: usize = 0;
        while i < k
            invariant
                self.mounted(),
                self.taken() == taken,
                self.drive() == old(self).drive(),
                self.sectors().len() == n,
                old_sectors.len() == n,
                k == bitmap_sectors(n as int),
                k + 1 <= n,
                i <= k,
                words@.len() == 64 * k,
                64 * k <= 0x2000_0000,
                taken.len() == n,
                num_words(n as int) <= 64 * k,
                forall|x: int| 0 <= x < n ==> words_bit(words@, x) == taken[x],
                self.sectors()[0] == old_sectors[0],
                forall|j: int| i + 1 <= j < n ==> #[trigger] self.sectors()[j] == old_sectors[j],
                forall|j: int| 0 <= j < 64 * i ==> #[trigger] stored_word(self.sectors(), j) == words@[j],
            decreases k - i,
        {
            let page = words_sector(&words, 64 * i);
            let ghost prev = self.sectors();
            self.write_sector(i + 1, &page);
            proof {
                assert forall|j: int| 0 <= j < 64 * (i + 1) implies #[trigger] stored_word(self.sectors(), j)
                    == words@[j] by {
                    if j >= 64 * i {
                        let w = j - 64 * i;
                        assert(j / 64 == i && j % 64 == w) by (nonlinear_arith)
                            requires
                                j == 64 * i + w,
                                0 <= w < 64,
                        ;
                        assert(page@.subrange(w * 8, w * 8 + 8) == enc_le(words@[64 * i + w] as nat, 8));
                        lemma_pow256_values();
                        lemma_enc_le_round_trip(words@[j] as nat, 8);
                        assert(self.sectors()[1 + j / 64] == page@);
                    } else {
                        assert(j / 64 < i) by (nonlinear_arith)
                            requires
                                0 <= j < 64 * i,
                        ;
                        assert(stored_word(prev, j) == words@[j]);
                        assert(self.sectors()[1 + j / 64] == prev[1 + j / 64]);
                    }
                }
            }
            i = i + 1;
        }
        proof {
            assert forall|x: int| 0 <= x < n implies #[trigger] stored_bitmap(self.sectors(), n as nat)[x] == taken[x] by {
                assert(x / 64 < num_words(n as int));
                assert(x / 64 < 64 * k);
            }
            assert(stored_bitmap(self.sectors(), n as nat) =~= taken);
        }
    }

    /// The data held in the head sector.
    pub fn get_head(&mut self) -> (r: Vec<u8>)
        requires
            old(self).wf(),
            1 <= old(self).sectors().len(),
            head_len(old(self).sectors()[0]) <= 508,
        ensures
            *final(self) == *old(self),
            r@ == head_bytes(old(self).sectors()[0]),
    {
        let first = self.read_sector(0);
        let bytes = sector_bytes(&first);
        let size = read_le(&bytes, 0, 4) as usize;
        let mut data: Vec<u8> = Vec::new();
        let mut i: usize = 0;
        while i < size
            invariant
                size <= 508,
                i <= size,
                bytes@.len() == 512,
                size == head_len(bytes@),
                data@ == bytes@.subrange(4, 4 + i as int),
            decreases size - i,
        {
            data.push(bytes[i + 4]);
            i = i + 1;
            assert(data@ =~= bytes@.subrange(4, 4 + i as int));
        }
        data
    }

    /// Stores `data` in the head sector.
    pub fn set_head(&mut self, data: &Vec<u8>)
        requires
            old(self).wf(),
            1 <= old(self).sectors().len(),
            data.len() <= 508,
        ensures
            final(self).wf(),
            final(self).sectors() == old(self).sectors().update(0, head_sector(data@)),
            final(self).taken() == old(self).taken(),
            final(self).drive() == old(self).drive(),
    {
        let mut bytes: Vec<u8> = Vec::new();
        write_le(&mut bytes, data.len() as u64, 4);
        proof {
            lemma_enc_le(data.len() as nat, 4);
        }
        let mut i: usize = 0;
        while i < data.len()
            invariant
                i <= data.len(),
                data.len() <= 508,
                bytes@ == enc_le(data.len() as nat, 4) + data@.subrange(0, i as int),
            decreases data.len() - i,
        {
            bytes.push(data[i]);
            i = i + 1;
            assert(bytes@ =~= enc_le(data.len() as nat, 4) + data@.subrange(0, i as int));
        }
        let mut z: usize = 0;
        while z < 508 - data.len()
            invariant
                data.len() <= 508,
                z <= 508 - data.len(),
                bytes@ == enc_le(data.len() as nat, 4) + data@ + Seq::new(z as nat, |x: int| 0u8),
            decreases 508 - data.len() - z,
        {
            bytes.push(0);
            z = z + 1;
            assert(bytes@ =~= enc_le(data.len() as nat, 4) + data@ + Seq::new(z as nat, |x: int| 0u8));
        }
        let page = bytes_sector(&bytes);
        self.write_sector(0, &page);
    }

    /// Frees every sector but the head sector and the bitmap sectors, and stores
    /// empty data in the head sector.
    pub fn erase(&mut self)
        requires
            old(self).mounted(),
        ensures
            final(self).mounted(),
            final(self).taken() == Seq::new(
                old(self).sectors().len(),
                |i: int| i <= old(self).spec_bitmap_sectors(),
            ),
            final(self).sectors() == old(self).sectors().update(0, head_sector(Seq::empty())),
            final(self).drive() == old(self).drive(),
    {
        let raw = self.is_taken.raw_mut();
        proof {
            raw.lemma_wf_shape();
        }
        raw.clear();
        let k = self.get_bitset_num_sectors();
        let n = self.get_num_sectors();
        let mut i: usize = 0;
        while i <= k
            invariant
                self.mounted(),
                self.sectors() == old(self).sectors(),
                self.drive() == old(self).drive(),
                n == self.sectors().len(),
                k + 1 <= n,
                i <= k + 1,
                forall|j: int| 0 <= j < n ==> #[trigger] self.taken()[j] == (j < i),
            decreases k + 1 - i,
        {
            self.is_taken.raw_mut().set(i, true);
            i = i + 1;
        }
        let empty: Vec<u8> = Vec::new();
        self.set_head(&empty);
        assert(self.taken() =~= Seq::new(n as nat, |j: int| j <= k));
    }

    /// Gives back the taken sector `sector`.
    pub fn free_sector(&mut self, sector: usize)
        requires
            old(self).mounted(),
            sector < old(self).sectors().len(),
            old(self).taken()[sector as int],
        ensures
            final(self).mounted(),
            final(self).taken() == old(self).taken().update(sector as int, false),
            zeros(final(self).taken()).len() == zeros(old(self).taken()).len() + 1,
            final(self).sectors() == old(self).sectors(),
            final(self).drive() == old(self).drive(),
    {
        self.is_taken.raw_mut().set(sector, false);
    }
}

/// `m` holds a mounted disk (or nothing).
pub open spec fn slot_ok(slot: Option<MemoryDisk>) -> bool {
    match slot {
        Some(m) => m.mounted(),
        None => true,
    }
}

/// `s` is what the disk of `m` holds once its bitmap is saved: the head sector and
/// the sectors after the bitmap as they were, and the bitmap sectors storing the
/// taken bits.
pub open spec fn saved(m: MemoryDisk, s: Seq<Seq<u8>>) -> bool {
    &&& s.len() == m.sectors().len()
    &&& s[0] == m.sectors()[0]
    &&& forall|j: int| m.spec_bitmap_sectors() < j < s.len() ==> #[trigger] s[j] == m.sectors()[j]
    &&& stored_bitmap(s, s.len()) == m.taken()
}

/// What unmounting the contents `old` of a slot gives back.
pub open spec fn unmounted(old: Option<MemoryDisk>, r: Option<Disk>) -> bool {
    match old {
        Some(m) => r matches Some(d) && saved(m, d@) && (d.base, d.h) == m.drive(),
        None => r is None,
    }
}

/// Takes the mounted disk out of `slot`, after writing its bitmap of taken sectors
/// to it, and gives the drive back.
pub fn unmount_disk(slot: &mut Option<MemoryDisk>) -> (r: Option<Disk>)
    requires
        slot_ok(*old(slot)),
    ensures
        *final(slot) is None,
        unmounted(*old(slot), r),
{
    match slot.take() {
        Some(mut m) => {
            m.save_bitmap();
            Some(m.disk)
        },
        None => None,
    }
}

/// Mounts `disk` in `slot`, unmounting what was there first; gives back the drive
/// that was unmounted.
pub fn mount_disk(slot: &mut Option<MemoryDisk>, disk: &Disk) -> (r: Option<Disk>)
    requires
        slot_ok(*old(slot)),
        2 <= disk@.len() <= MAX_SECTORS,
    ensures
        unmounted(*old(slot), r),
        *final(slot) matches Some(m) && {
            &&& m.mounted()
            &&& m.sectors() == disk@
            &&& m.taken() == stored_bitmap(disk@, disk@.len())
            &&& m.drive() == (disk.base, disk.h)
        },
{
    let previous = unmount_disk(slot);
    let mut m = MemoryDisk::new(disk);
    m.init();
    *slot = Some(m);
    previous
}

/// The disk mounted in `slot`, if any.
pub fn get_mounted_disk(slot: &Option<MemoryDisk>) -> (r: Option<&MemoryDisk>)
    ensures
        match *slot {
            Some(m) => r matches Some(x) && *x == m,
            None => r is None,
        },
{
    slot.as_ref()
}

} // verus!
