use vstd::prelude::*;

verus! {

use crate::bits::{num_words, words_bit};
use crate::disk::ata::Disk;
use crate::le::{le_value, read_le, pow256, lemma_le_value_bound, lemma_pow256_values};
use crate::memory::bitset::{BitSetRaw, spec_bitset_size_bytes, zeros, lemma_zeros_finite};
use crate::std_lib::serial::{Serial, deserialize, rest, serialize};

/// Bytes in a page of the disk's memory.
pub const PAGE_SIZE: usize = 4096;
/// Bytes of an object that each page of its chain holds: a page keeps four bytes
/// at its start (the object's size, in its first page) and four at its end (the
/// number of the next page).
pub const PAGE_DATA: i32 = 4088;

/// The 32-bit little-endian word at `off`, as a signed number.
pub open spec fn word_at(m: Seq<u8>, off: int) -> i32 {
    le_value(m.subrange(off, off + 4)) as u32 as i32
}

/// Reads the signed 32-bit little-endian word at `off`.
fn read_word(m: &Vec<u8>, off: usize) -> (r: i32)
    requires
        off + 4 <= m.len(),
    ensures
        r == word_at(m@, off as int),
{
    let x = read_le(m, off, 4);
    proof {
        lemma_le_value_bound(m@.subrange(off as int, off + 4));
        lemma_pow256_values();
    }
    (x as u32) as i32
}

/// Writes `v` as a 32-bit little-endian word at `off`.
fn write_word(m: &mut Vec<u8>, off: usize, v: i32)
    requires
        off + 4 <= old(m).len(),
    ensures
        final(m).len() == old(m).len(),
        word_at(final(m)@, off as int) == v,
        forall|i: int| 0 <= i < old(m).len() && !(off <= i < off + 4) ==> #[trigger] final(m)@[i] == old(m)@[i],
{
    let u = v as u32;
    let b0 = (u & 0xff) as u8;
    let b1 = ((u >> 8u32) & 0xff) as u8;
    let b2 = ((u >> 16u32) & 0xff) as u8;
    let b3 = ((u >> 24u32) & 0xff) as u8;
    m.set(off, b0);
    m.set(off + 1, b1);
    m.set(off + 2, b2);
    m.set(off + 3, b3);
    proof {
        let s = m@.subrange(off as int, off + 4);
        assert(s =~= seq![b0, b1, b2, b3]);
        reveal_with_fuel(le_value, 5);
        assert(s.drop_first() =~= seq![b1, b2, b3]);
        assert(s.drop_first().drop_first() =~= seq![b2, b3]);
        assert(s.drop_first().drop_first().drop_first() =~= seq![b3]);
        assert(s.drop_first().drop_first().drop_first().drop_first() =~= Seq::<u8>::empty());
        assert(b0 + 256 * (b1 + 256 * (b2 + 256 * (b3 + 256 * 0))) == u && (u as i32) == v) by (bit_vector)
            requires
                u == v as u32,
                b0 == (u & 0xff) as u8,
                b1 == ((u >> 8u32) & 0xff) as u8,
                b2 == ((u >> 16u32) & 0xff) as u8,
                b3 == ((u >> 24u32) & 0xff) as u8,
        ;
    }
}

/// The page that follows page `p` in a chain: the word in the last four bytes of `p`.
pub open spec fn next_page(m: Seq<u8>, p: int) -> i32 {
    word_at(m, p * 4096 + 4092)
}

/// Bytes of an object that a page holds when `left` bytes of it remain.
pub open spec fn chunk_len(left: int) -> int {
    if left < 0 {
        0
    } else if left > 4088 {
        4088
    } else {
        left
    }
}

/// The bytes that the chain starting at page `p` holds, `left` bytes remaining:
/// up to `PAGE_DATA` bytes from offset 4 of each page, then the next page while
/// more remain.
pub open spec fn chunks(m: Seq<u8>, p: int, left: int) -> Seq<u8>
    decreases left,
{
    let here = m.subrange(p * 4096 + 4, p * 4096 + 4 + chunk_len(left));
    if left <= 4088 {
        here
    } else {
        here + chunks(m, next_page(m, p) as int, left - 4088)
    }
}

/// Every page of the chain starting at `p` with `left` bytes remaining is one of
/// the `n` pages.
pub open spec fn chain_ok(m: Seq<u8>, p: int, left: int, n: int) -> bool
    decreases left,
{
    &&& 0 <= p < n
    &&& left > 4088 ==> chain_ok(m, next_page(m, p) as int, left - 4088, n)
}

/// Page `q` belongs to the chain starting at `p` with `left` bytes remaining.
pub open spec fn in_chain(m: Seq<u8>, p: int, left: int, q: int) -> bool
    decreases left,
{
    q == p || (left > 4088 && in_chain(m, next_page(m, p) as int, left - 4088, q))
}

/// Number of pages of a chain that holds `left` bytes.
pub open spec fn pages_for(left: int) -> nat
    decreases left,
{
    if left <= 4088 {
        1
    } else {
        1 + pages_for(left - 4088)
    }
}

/// The size that the first page of the object at page `id` records.
pub open spec fn object_size(m: Seq<u8>, id: int) -> i32 {
    word_at(m, id * 4096)
}

/// The bytes of the object stored at page `id`.
pub open spec fn object(m: Seq<u8>, id: int) -> Seq<u8> {
    chunks(m, id, object_size(m, id) as int)
}

/// Byte `i` of the memory lies in page `q`.
pub open spec fn in_page(i: int, q: int) -> bool {
    q * 4096 <= i < q * 4096 + 4096
}

/// The two memories agree on every byte of every page of the chain starting at `p`
/// (as `m1` links it).
pub open spec fn agree_on_chain(m1: Seq<u8>, m2: Seq<u8>, p: int, left: int) -> bool {
    forall|i: int, q: int| 0 <= i < m1.len() && in_page(i, q) && #[trigger] in_chain(m1, p, left, q) ==> #[trigger] m2[i] == m1[i]
}

/// What a chain holds depends only on the bytes of its own pages.
pub proof fn lemma_chain_frame(m1: Seq<u8>, m2: Seq<u8>, p: int, left: int, n: int)
    requires
        chain_ok(m1, p, left, n),
        m1.len() == m2.len() == n * 4096,
        agree_on_chain(m1, m2, p, left),
    ensures
        chain_ok(m2, p, left, n),
        chunks(m2, p, left) == chunks(m1, p, left),
        forall|q: int| in_chain(m2, p, left, q) == in_chain(m1, p, left, q),
    decreases left,
{
    assert(in_chain(m1, p, left, p));
    assert forall|i: int| p * 4096 <= i < p * 4096 + 4096 implies m2[i] == m1[i] by {
        assert(in_page(i, p));
        assert(0 <= i < m1.len()) by (nonlinear_arith)
            requires
                0 <= p < n,
                p * 4096 <= i < p * 4096 + 4096,
                m1.len() == n * 4096,
        ;
    }
    assert(0 <= p * 4096 && p * 4096 + 4096 <= n * 4096) by (nonlinear_arith)
        requires
            0 <= p < n,
    ;
    let here1 = m1.subrange(p * 4096 + 4, p * 4096 + 4 + chunk_len(left));
    let here2 = m2.subrange(p * 4096 + 4, p * 4096 + 4 + chunk_len(left));
    assert(here1 =~= here2);
    assert(m1.subrange(p * 4096 + 4092, p * 4096 + 4096) =~= m2.subrange(p * 4096 + 4092, p * 4096 + 4096));
    assert(next_page(m1, p) == next_page(m2, p));
    if left > 4088 {
        let nx = next_page(m1, p) as int;
        assert forall|i: int, q: int| 0 <= i < m1.len() && in_page(i, q) && #[trigger] in_chain(m1, nx, left - 4088, q) implies #[trigger] m2[i] == m1[i] by {
            assert(in_chain(m1, p, left, q));
        }
        lemma_chain_frame(m1, m2, nx, left - 4088, n);
        assert forall|q: int| in_chain(m2, p, left, q) == in_chain(m1, p, left, q) by {
            assert(in_chain(m2, nx, left - 4088, q) == in_chain(m1, nx, left - 4088, q));
        }
    }
}

/// The pages of a chain are among the `n` pages.
pub proof fn lemma_chain_in_range(m: Seq<u8>, p: int, left: int, n: int, q: int)
    requires
        chain_ok(m, p, left, n),
        in_chain(m, p, left, q),
    ensures
        0 <= q < n,
    decreases left,
{
    if q != p {
        lemma_chain_in_range(m, next_page(m, p) as int, left - 4088, n, q);
    }
}

/// An object keeps its bytes when no byte of its pages changes.
pub proof fn lemma_object_frame(m1: Seq<u8>, m2: Seq<u8>, id: int, n: int)
    requires
        chain_ok(m1, id, object_size(m1, id) as int, n),
        m1.len() == m2.len() == n * 4096,
        forall|b: int| 0 <= b < m1.len() && in_chain(m1, id, object_size(m1, id) as int, b / 4096) ==> #[trigger] m2[b] == m1[b],
    ensures
        object_size(m2, id) == object_size(m1, id),
        chain_ok(m2, id, object_size(m2, id) as int, n),
        object(m2, id) == object(m1, id),
{
    let size = object_size(m1, id) as int;
    assert(in_chain(m1, id, size, id));
    assert(0 <= id * 4096 && id * 4096 + 4096 <= m1.len()) by (nonlinear_arith)
        requires
            0 <= id < n,
            m1.len() == n * 4096,
    ;
    assert forall|b: int| id * 4096 <= b < id * 4096 + 4 implies m2[b] == m1[b] by {
        lemma_byte_page(id, b - id * 4096);
    }
    assert(m2.subrange(id * 4096, id * 4096 + 4) =~= m1.subrange(id * 4096, id * 4096 + 4));
    assert forall|i: int, q: int| 0 <= i < m1.len() && in_page(i, q) && #[trigger] in_chain(m1, id, size, q) implies #[trigger] m2[i] == m1[i] by {
        assert(i / 4096 == q) by (nonlinear_arith)
            requires
                in_page(i, q),
        ;
    }
    lemma_chain_frame(m1, m2, id, size, n);
}

/// Byte `p * 4096 + off` lies in page `p`.
proof fn lemma_byte_page(p: int, off: int)
    requires
        0 <= p,
        0 <= off < 4096,
    ensures
        (p * 4096 + off) / 4096 == p,
{
    assert((p * 4096 + off) / 4096 == p) by (nonlinear_arith)
        requires
            0 <= p,
            0 <= off < 4096,
    ;
}

/// Where only page `p` changed, any other page `q` holds the same bytes.
proof fn lemma_other_page(m1: Seq<u8>, m2: Seq<u8>, p: int, q: int, lo: int, hi: int)
    requires
        q != p,
        0 <= q,
        0 <= lo <= hi <= 4096,
        q * 4096 + 4096 <= m1.len(),
        m1.len() == m2.len(),
        forall|b: int| 0 <= b < m1.len() && b / 4096 != p ==> #[trigger] m2[b] == m1[b],
    ensures
        m2.subrange(q * 4096 + lo, q * 4096 + hi) == m1.subrange(q * 4096 + lo, q * 4096 + hi),
{
    assert forall|b: int| q * 4096 + lo <= b < q * 4096 + hi implies m2[b] == m1[b] by {
        lemma_byte_page(q, b - q * 4096);
    }
    assert(m2.subrange(q * 4096 + lo, q * 4096 + hi) =~= m1.subrange(q * 4096 + lo, q * 4096 + hi));
}

/// The pages `pages` hold `data` as a chain: page `k` holds the bytes of `data` from
/// `PAGE_DATA * k` on (as many as fit) and, but for the last, links to page `k + 1`.
pub open spec fn written_chain(m: Seq<u8>, pages: Seq<int>, data: Seq<u8>, n: int) -> bool {
    let len = pages.len() as int;
    &&& len >= 1
    &&& forall|k: int| 0 <= k < len ==> 0 <= #[trigger] pages[k] < n
    &&& forall|k: int|
        0 <= k < len ==> m.subrange(#[trigger] pages[k] * 4096 + 4, pages[k] * 4096 + 4 + chunk_len(data.len() - 4088 * k))
            == data.subrange(4088 * k, 4088 * k + chunk_len(data.len() - 4088 * k))
    &&& forall|k: int| 0 <= k < len - 1 ==> next_page(m, #[trigger] pages[k]) == pages[k + 1]
    &&& len > 1 ==> data.len() > 4088 * (len - 1)
    &&& data.len() - 4088 * (len - 1) <= 4088
}

/// A chain written page by page holds the data, from each of its pages on.
proof fn lemma_written_chain(m: Seq<u8>, pages: Seq<int>, data: Seq<u8>, n: int, j: int)
    requires
        written_chain(m, pages, data, n),
        0 <= j < pages.len(),
    ensures
        data.len() >= 4088 * j,
        chunks(m, pages[j], data.len() - 4088 * j) == data.subrange(4088 * j, data.len() as int),
        chain_ok(m, pages[j], data.len() - 4088 * j, n),
        forall|q: int| #[trigger] in_chain(m, pages[j], data.len() - 4088 * j, q) <==> exists|k: int| j <= k < pages.len() && pages[k] == q,
    decreases pages.len() - j,
{
    let len = pages.len() as int;
    let left = data.len() - 4088 * j;
    assert(0 <= pages[j] < n);
    if j == len - 1 {
        if j > 0 {
            assert(data.len() - 4088 * (j - 1) > 4088);
        }
        assert(chunk_len(left) == left);
        assert forall|q: int| in_chain(m, pages[j], left, q) <==> exists|k: int| j <= k < pages.len() && pages[k] == q by {
            if in_chain(m, pages[j], left, q) {
                assert(pages[j] == q);
            }
        }
    } else {
        assert(data.len() - 4088 * j > 4088);
        lemma_written_chain(m, pages, data, n, j + 1);
        assert(next_page(m, pages[j]) == pages[j + 1]);
        assert(4088 * (j + 1) == 4088 * j + 4088);
        assert(chunks(m, pages[j], left) =~= data.subrange(4088 * j, data.len() as int));
        assert forall|q: int| in_chain(m, pages[j], left, q) <==> exists|k: int| j <= k < pages.len() && pages[k] == q by {
            if in_chain(m, pages[j], left, q) && q != pages[j] {
                assert(in_chain(m, pages[j + 1], data.len() - 4088 * (j + 1), q));
                let k = choose|k: int| j + 1 <= k < pages.len() && pages[k] == q;
                assert(j <= k < pages.len() && pages[k] == q);
            }
            if exists|k: int| j <= k < pages.len() && pages[k] == q {
                let k = choose|k: int| j <= k < pages.len() && pages[k] == q;
                if k > j {
                    assert(exists|k2: int| j + 1 <= k2 < pages.len() && pages[k2] == q);
                    assert(in_chain(m, pages[j + 1], data.len() - 4088 * (j + 1), q));
                }
            }
        }
    }
}

/// The number of the page that follows page `page` in its chain.
fn get_next_page(m: &Vec<u8>, page: i32) -> (r: i32)
    requires
        0 <= page,
        page * 4096 + 4096 <= m.len(),
    ensures
        r == next_page(m@, page as int),
{
    read_word(m, page as usize * PAGE_SIZE + PAGE_SIZE - 4)
}

/// Links page `page` to page `next`.
fn set_next_page(m: &mut Vec<u8>, page: i32, next: i32)
    requires
        0 <= page,
        page * 4096 + 4096 <= old(m).len(),
    ensures
        final(m).len() == old(m).len(),
        next_page(final(m)@, page as int) == next,
        forall|i: int|
            0 <= i < old(m).len() && !(page * 4096 + 4092 <= i < page * 4096 + 4096) ==> #[trigger] final(m)@[i] == old(m)@[i],
{
    write_word(m, page as usize * PAGE_SIZE + PAGE_SIZE - 4, next);
}

/// A walk over the pages of a chain: the page it is at, whether that page is the
/// first (it stays so: every page is read as a first page), and the bytes left.
pub struct PageIterator {
    pub addr: usize,
    pub is_first: bool,
    pub size_left: i32,
}

impl PageIterator {
    /// A walk starting at the page at `addr`, whose first word is the size.
    pub fn new(m: &Vec<u8>, addr: usize) -> (r: PageIterator)
        requires
            addr + 4 <= m.len(),
        ensures
            r.addr == addr,
            r.is_first,
            r.size_left == word_at(m@, addr as int),
    {
        PageIterator { addr, is_first: true, size_left: read_word(m, addr) }
    }

    /// Bytes of the object that the current page holds at most.
    pub fn get_curr_size(&self) -> (r: i32)
        ensures
            r == if self.is_first { 4088i32 } else { 4092i32 },
    {
        if self.is_first {
            (PAGE_SIZE - 8) as i32
        } else {
            (PAGE_SIZE - 4) as i32
        }
    }

    /// Where the object's bytes start in the current page.
    pub fn get_curr_addr(&self) -> (r: usize)
        requires
            self.addr + 4 <= usize::MAX,
        ensures
            r == if self.is_first { self.addr + 4 } else { self.addr as int },
    {
        if self.is_first {
            self.addr + 4
        } else {
            self.addr
        }
    }

    /// Moves to the next page of the chain, if bytes remain beyond the current one.
    pub fn advance(&mut self, m: &Vec<u8>) -> (r: bool)
        requires
            old(self).addr + 4096 <= m.len(),
            old(self).addr % 4096 == 0,
            old(self).size_left > (if old(self).is_first { 4088int } else { 4092int }) ==> 0 <= next_page(
                m@,
                old(self).addr as int / 4096,
            ) && next_page(m@, old(self).addr as int / 4096) as int * 4096 <= usize::MAX,
        ensures
            final(self).is_first == old(self).is_first,
            r == (old(self).size_left > (if old(self).is_first { 4088int } else { 4092int })),
            r ==> final(self).size_left == old(self).size_left - (if old(self).is_first { 4088int } else { 4092int })
                && final(self).addr == next_page(m@, old(self).addr as int / 4096) * 4096,
            !r ==> *final(self) == *old(self),
    {
        let curr_size = self.get_curr_size();
        if curr_size >= self.size_left {
            return false;
        }
        self.size_left = self.size_left - curr_size;
        let next = read_word(m, self.addr + PAGE_SIZE - 4);
        assert(self.addr + 4092 == (self.addr / 4096) * 4096 + 4092);
        self.addr = next as usize * PAGE_SIZE;
        true
    }

    /// Bytes of the object left from the current page on.
    pub fn get_size_left(&self) -> (r: i32)
        ensures
            r == self.size_left,
    {
        self.size_left
    }
}

/// Byte `i` of the memory that holds sectors `sectors`, sector after sector.
pub open spec fn sector_byte(sectors: Seq<Seq<u8>>, i: int) -> u8 {
    sectors[i / 512][i % 512]
}

/// Word `j` of the bitset stored from page 1 of the memory `m`.
pub open spec fn stored_word(m: Seq<u8>, j: int) -> u64 {
    le_value(m.subrange(4096 + 8 * j, 4096 + 8 * j + 8)) as u64
}

/// The `n` bits stored from page 1 of the memory `m`.
pub open spec fn stored_bits(m: Seq<u8>, n: nat) -> Seq<bool> {
    Seq::new(n, |i: int| words_bit(Seq::new(num_words(n as int) as nat, |j: int| stored_word(m, j)), i))
}

/// The bits of `bits` with the pages of the chain of the object at `id` cleared.
pub open spec fn destroyed(m: Seq<u8>, bits: Seq<bool>, id: int) -> Seq<bool> {
    Seq::new(bits.len(), |q: int| bits[q] && !in_chain(m, id, object_size(m, id) as int, q))
}

/// A disk mapped into memory page by page, holding objects as chains of pages.
///
/// Pages 0 and 1 onwards are reserved once the disk is erased: page 0 starts with
/// the number of the master object's page, and the bitset of taken pages is read
/// from page 1 onwards when the disk is opened; here it is kept beside the pages.
pub struct MemoryDisk {
    disk: Disk,
    memory: Vec<u8>,
    bitset: BitSetRaw,
}

impl MemoryDisk {
    /// The bytes of the disk's pages.
    pub closed spec fn mem(&self) -> Seq<u8> {
        self.memory@
    }

    /// Which pages are taken.
    pub closed spec fn taken(&self) -> Seq<bool> {
        self.bitset@
    }

    /// Number of sectors of the disk.
    pub closed spec fn sectors(&self) -> nat {
        self.disk@.len()
    }

    /// The memory holds one page per bit, the pages are those that fit on the disk,
    /// and page numbers and byte counts fit their types.
    pub closed spec fn wf(&self) -> bool {
        &&& self.bitset.wf()
        &&& self.memory@.len() == self.bitset@.len() * 4096
        &&& self.bitset@.len() == self.disk@.len() / 8
        &&& 2 <= self.bitset@.len()
        &&& self.disk@.len() <= 0x7fff_ffff
        &&& self.disk@.len() * 1024 <= usize::MAX
    }

    /// Number of pages that hold data.
    pub open spec fn num_pages(&self) -> int {
        self.taken().len() as int
    }

    /// The shape that well-formedness gives.
    pub proof fn lemma_wf(&self)
        requires
            self.wf(),
        ensures
            self.mem().len() == self.num_pages() * 4096,
            2 <= self.num_pages() <= 0x1000_0000,
            self.num_pages() == self.sectors() / 8,
            self.sectors() <= 0x7fff_ffff,
            self.sectors() * 1024 <= usize::MAX,
            self.num_pages() * 4096 <= usize::MAX,
    {
    }

    /// Opens `disk`: its pages as the disk holds them, and the taken bits stored
    /// from page 1 onwards.
    pub fn new(disk: Disk) -> (r: MemoryDisk)
        requires
            16 <= disk@.len() <= 0x7fff_ffff,
            disk@.len() * 1024 <= usize::MAX,
        ensures
            r.wf(),
            r.sectors() == disk@.len(),
            r.num_pages() == disk@.len() / 8,
            forall|i: int| 0 <= i < r.mem().len() ==> #[trigger] r.mem()[i] == sector_byte(disk@, i),
            r.taken() == stored_bits(r.mem(), (disk@.len() / 8) as nat),
    {
        let size = disk.size();
        let n = size / 8;
        let mut memory: Vec<u8> = Vec::new();
        let mut s: usize = 0;
        while s < n * 8
            invariant
                n == disk@.len() / 8,
                16 <= disk@.len() <= 0x7fff_ffff,
                s <= n * 8,
                memory@.len() == s * 512,
                forall|i: int| 0 <= i < memory@.len() ==> #[trigger] memory@[i] == sector_byte(disk@, i),
            decreases n * 8 - s,
        {
            let sector = disk.read(s as i32);
            let mut j: usize = 0;
            while j < 512
                invariant
                    s < n * 8,
                    n == disk@.len() / 8,
                    sector@ == disk@[s as int],
                    j <= 512,
                    memory@.len() == s * 512 + j,
                    forall|i: int| 0 <= i < memory@.len() ==> #[trigger] memory@[i] == sector_byte(disk@, i),
                decreases 512 - j,
            {
                proof {
                    let i = s * 512 + j;
                    assert(i / 512 == s && i % 512 == j) by (nonlinear_arith)
                        requires
                            i == s * 512 + j,
                            j < 512,
                    ;
                }
                memory.push(sector[j]);
                j = j + 1;
            }
            s = s + 1;
            assert(memory@.len() == s * 512) by (nonlinear_arith)
                requires
                    memory@.len() == (s - 1) * 512 + 512,
            ;
        }
        let nw = n / 64 + if n % 64 == 0 { 0 } else { 1 };
        assert(nw == num_words(n as int));
        assert(4096 + 8 * nw <= n * 4096 && memory@.len() == n * 4096 && n * 4096 <= usize::MAX) by (nonlinear_arith)
            requires
                nw == num_words(n as int),
                n >= 2,
                memory@.len() == n * 8 * 512,
                n == disk@.len() / 8,
                disk@.len() * 1024 <= usize::MAX,
        ;
        let mut words: Vec<u64> = Vec::new();
        let mut j: usize = 0;
        while j < nw
            invariant
                j <= nw,
                4096 + 8 * nw <= memory@.len(),
                4096 + 8 * nw <= usize::MAX,
                words@ == Seq::new(j as nat, |k: int| stored_word(memory@, k)),
            decreases nw - j,
        {
            let w = read_le(&memory, 4096 + 8 * j, 8);
            words.push(w);
            j = j + 1;
            assert(words@ =~= Seq::new(j as nat, |k: int| stored_word(memory@, k)));
        }
        assert(spec_bitset_size_bytes(n as int) <= usize::MAX) by (nonlinear_arith)
            requires
                nw == num_words(n as int),
                nw <= n,
                n * 8 * 1024 <= usize::MAX,
        ;
        let bitset = BitSetRaw::new_from(n, words);
        let r = MemoryDisk { disk, memory, bitset };
        assert(r.taken() =~= stored_bits(r.mem(), n as nat));
        r
    }

    /// The number of the master object's page, kept in the first word of page 0.
    pub fn get_master_page(&self) -> (r: i32)
        requires
            self.wf(),
        ensures
            r == word_at(self.mem(), 0),
    {
        read_word(&self.memory, 0)
    }

    /// Number of pages the disk's sectors make, four sectors to a page.
    pub fn get_num_pages(&self) -> (r: usize)
        requires
            self.wf(),
        ensures
            r == self.sectors() / 4,
    {
        self.disk.size() / 4
    }

    /// Bytes of the pages that `get_num_pages` counts.
    pub fn get_size(&self) -> (r: usize)
        requires
            self.wf(),
        ensures
            r == self.sectors() / 4 * 4096,
    {
        let n = self.get_num_pages();
        assert(n * 4096 <= usize::MAX) by (nonlinear_arith)
            requires
                n == self.sectors() / 4,
                self.sectors() * 1024 <= usize::MAX,
        ;
        n * PAGE_SIZE
    }

    /// Pages that the bitset takes in memory.
    fn get_bitset_size(&self) -> (r: usize)
        requires
            self.wf(),
        ensures
            r == (spec_bitset_size_bytes(self.num_pages()) + 4095) / 4096,
    {
        let b = self.bitset.get_size_bytes();
        (b + PAGE_SIZE - 1) / PAGE_SIZE
    }

    /// Number of pages not taken.
    pub open spec fn free_pages(&self) -> nat {
        zeros(self.taken()).len()
    }

    /// Takes a free page and returns its number.
    fn alloc_page(&mut self) -> (r: i32)
        requires
            old(self).wf(),
            old(self).free_pages() > 0,
        ensures
            final(self).wf(),
            0 <= r < old(self).num_pages(),
            !old(self).taken()[r as int],
            final(self).taken() == old(self).taken().update(r as int, true),
            final(self).free_pages() == old(self).free_pages() - 1,
            final(self).mem() == old(self).mem(),
            final(self).sectors() == old(self).sectors(),
    {
        let res = self.bitset.get_zero_element();
        match res {
            Some(i) => {
                self.bitset.set(i, true);
                i as i32
            },
            None => {
                proof {
                    lemma_zeros_finite(self.bitset@);
                }
                0
            },
        }
    }

    /// Takes a free page for a new, empty object and returns its number.
    pub fn create(&mut self) -> (r: i32)
        requires
            old(self).wf(),
            old(self).free_pages() > 0,
        ensures
            final(self).wf(),
            0 <= r < old(self).num_pages(),
            !old(self).taken()[r as int],
            final(self).taken() == old(self).taken().update(r as int, true),
            final(self).free_pages() == old(self).free_pages() - 1,
            object_size(final(self).mem(), r as int) == 0,
            object(final(self).mem(), r as int) == Seq::<u8>::empty(),
            final(self).mem().len() == old(self).mem().len(),
            forall|i: int| 0 <= i < old(self).mem().len() && !(r * 4096 <= i < r * 4096 + 4) ==> #[trigger] final(self).mem()[i] == old(self).mem()[i],
            final(self).sectors() == old(self).sectors(),
            forall|other: int|
                chain_ok(old(self).mem(), other, object_size(old(self).mem(), other) as int, old(self).num_pages()) && (forall|q: int|
                    #[trigger] in_chain(old(self).mem(), other, object_size(old(self).mem(), other) as int, q) ==> old(
                    self,
                ).taken()[q]) ==> #[trigger] object(final(self).mem(), other) == object(old(self).mem(), other),
    {
        let ghost m0 = self.mem();
        let ghost bits = self.taken();
        let page = self.alloc_page();
        proof {
            self.lemma_wf();
            assert(page * 4096 + 4096 <= self.num_pages() * 4096) by (nonlinear_arith)
                requires
                    0 <= page < self.num_pages(),
            ;
        }
        write_word(&mut self.memory, page as usize * PAGE_SIZE, 0);
        proof {
            let m1 = self.mem();
            let n = self.num_pages();
            assert forall|other: int|
                chain_ok(m0, other, object_size(m0, other) as int, n) && (forall|q: int|
                    #[trigger] in_chain(m0, other, object_size(m0, other) as int, q) ==> bits[q]) implies #[trigger] object(m1, other)
                == object(m0, other) by {
                assert forall|b: int|
                    0 <= b < m0.len() && in_chain(m0, other, object_size(m0, other) as int, b / 4096) implies #[trigger] m1[b]
                    == m0[b] by {
                    assert(bits[b / 4096]);
                    if page * 4096 <= b < page * 4096 + 4 {
                        lemma_byte_page(page as int, b - page * 4096);
                    }
                }
                lemma_object_frame(m0, m1, other, n);
            }
        }
        page
    }

    /// Reads the object at page `id`.
    pub fn load(&self, id: i32) -> (r: Vec<u8>)
        requires
            self.wf(),
            chain_ok(self.mem(), id as int, object_size(self.mem(), id as int) as int, self.num_pages()),
        ensures
            r@ == object(self.mem(), id as int),
    {
        proof {
            self.lemma_wf();
            assert(id * 4096 + 4096 <= self.num_pages() * 4096) by (nonlinear_arith)
                requires
                    0 <= id < self.num_pages(),
            ;
        }
        let ghost m = self.mem();
        let ghost n = self.num_pages();
        let mut res: Vec<u8> = Vec::new();
        let mut iter = PageIterator::new(&self.memory, id as usize * PAGE_SIZE);
        let ghost mut pg: int = id as int;
        loop
            invariant_except_break
                self.wf(),
                m == self.mem(),
                n == self.num_pages(),
                m.len() == n * 4096,
                n * 4096 <= usize::MAX,
                iter.is_first,
                iter.addr == pg * 4096,
                chain_ok(m, pg, iter.size_left as int, n),
                res@ + chunks(m, pg, iter.size_left as int) == object(m, id as int),
            ensures
                res@ == object(m, id as int),
            decreases iter.size_left,
        {
            assert(pg * 4096 + 4096 <= n * 4096) by (nonlinear_arith)
                requires
                    0 <= pg < n,
            ;
            let left = iter.get_size_left();
            let curr = iter.get_curr_size();
            let size = if left < curr { left } else { curr };
            let start = iter.get_curr_addr();
            let ghost before = res@;
            let mut i: i32 = 0;
            while i < size
                invariant
                    0 <= i,
                    size <= 4088,
                    i <= size || size < 0,
                    size < 0 ==> i == 0,
                    start == pg * 4096 + 4,
                    pg * 4096 + 4096 <= m.len(),
                    m == self.mem(),
                    res@ == before + m.subrange(start as int, start + i),
                decreases size - i,
            {
                res.push(self.memory[start + i as usize]);
                i = i + 1;
                assert(res@ =~= before + m.subrange(start as int, start + i));
            }
            proof {
                assert(chunk_len(left as int) == if size < 0 { 0 } else { size as int });
                assert(res@ == before + m.subrange(pg * 4096 + 4, pg * 4096 + 4 + chunk_len(left as int)));
            }
            let ghost nx = next_page(m, pg) as int;
            if left > 4088 {
                assert(chain_ok(m, nx, left - 4088, n));
                assert(0 <= nx < n);
                assert(nx * 4096 <= usize::MAX) by (nonlinear_arith)
                    requires
                        0 <= nx < n,
                        n * 4096 <= usize::MAX,
                ;
            }
            proof {
                if left <= 4088 {
                    assert(res@ =~= object(m, id as int));
                } else {
                    assert(before + chunks(m, pg, left as int) == object(m, id as int));
                    assert(res@ + chunks(m, nx, left - 4088) =~= object(m, id as int));
                }
            }
            if !iter.advance(&self.memory) {
                break;
            }
            proof {
                pg = nx;
            }
        }
        res
    }

    /// Frees the pages of the chain of the object at page `id`.
    pub fn destroy(&mut self, id: i32)
        requires
            old(self).wf(),
            chain_ok(old(self).mem(), id as int, object_size(old(self).mem(), id as int) as int, old(self).num_pages()),
        ensures
            final(self).wf(),
            final(self).mem() == old(self).mem(),
            final(self).sectors() == old(self).sectors(),
            final(self).taken() == destroyed(old(self).mem(), old(self).taken(), id as int),
    {
        proof {
            self.lemma_wf();
            assert(id * 4096 + 4096 <= self.num_pages() * 4096) by (nonlinear_arith)
                requires
                    0 <= id < self.num_pages(),
            ;
        }
        let ghost m = self.mem();
        let ghost n = self.num_pages();
        let ghost bits = self.taken();
        let ghost size = object_size(m, id as int) as int;
        let mut iter = PageIterator::new(&self.memory, id as usize * PAGE_SIZE);
        let ghost mut pg: int = id as int;
        loop
            invariant_except_break
                self.wf(),
                m == self.mem(),
                n == self.num_pages(),
                m.len() == n * 4096,
                n * 4096 <= usize::MAX,
                bits.len() == n,
                size == object_size(m, id as int) as int,
                self.sectors() == old(self).sectors(),
                iter.is_first,
                iter.addr == pg * 4096,
                chain_ok(m, pg, iter.size_left as int, n),
                forall|q: int| in_chain(m, pg, iter.size_left as int, q) ==> in_chain(m, id as int, size, q),
                forall|q: int| 0 <= q < n && !in_chain(m, id as int, size, q) ==> self.taken()[q] == bits[q],
                forall|q: int|
                    0 <= q < n && in_chain(m, id as int, size, q) && !in_chain(m, pg, iter.size_left as int, q)
                        ==> !self.taken()[q],
                forall|q: int| 0 <= q < n && #[trigger] self.taken()[q] ==> bits[q],
            ensures
                self.wf(),
                m == self.mem(),
                self.sectors() == old(self).sectors(),
                self.taken() =~= destroyed(m, bits, id as int),
            decreases iter.size_left,
        {
            assert(pg * 4096 + 4096 <= n * 4096) by (nonlinear_arith)
                requires
                    0 <= pg < n,
            ;
            let curr_id = iter.get_curr_addr() / PAGE_SIZE;
            assert(curr_id == pg) by (nonlinear_arith)
                requires
                    curr_id == (pg * 4096 + 4) / 4096,
                    0 <= pg,
            ;
            let ghost before_set = self.taken();
            self.bitset.set(curr_id, false);
            let ghost left = iter.size_left as int;
            let ghost nx = next_page(m, pg) as int;
            if iter.size_left > 4088 {
                assert(chain_ok(m, nx, left - 4088, n));
                assert(nx * 4096 <= usize::MAX) by (nonlinear_arith)
                    requires
                        0 <= nx < n,
                        n * 4096 <= usize::MAX,
                ;
            }
            if !iter.advance(&self.memory) {
                assert forall|q: int| 0 <= q < n && in_chain(m, pg, left, q) implies q == pg by {
                }
                assert forall|q: int| 0 <= q < n implies self.taken()[q] == destroyed(m, bits, id as int)[q] by {
                    assert(self.taken()[q] == (q != pg && before_set[q]));
                    assert(in_chain(m, pg, left, pg));
                    assert(in_chain(m, id as int, size, pg));
                    assert(destroyed(m, bits, id as int)[q] == (bits[q] && !in_chain(m, id as int, size, q)));
                    if q == pg {
                    } else if !in_chain(m, id as int, size, q) {
                        assert(before_set[q] == bits[q]);
                    } else {
                        assert(!in_chain(m, pg, left, q));
                        assert(!before_set[q]);
                    }
                }
                break;
            }
            proof {
                assert forall|q: int| in_chain(m, nx, left - 4088, q) implies in_chain(m, id as int, size, q) by {
                    assert(in_chain(m, pg, left, q));
                }
                assert forall|q: int|
                    0 <= q < n && in_chain(m, id as int, size, q) && !in_chain(m, nx, left - 4088, q) implies !self.taken()[q] by {
                    if q != pg {
                        assert(!in_chain(m, pg, left, q));
                    }
                }
                pg = nx;
            }
        }
    }

    /// Stores `data` as the object at page `id`: its old chain is freed, its size
    /// goes in the first word of page `id`, and its bytes fill page `id` and as many
    /// newly taken pages as they need, each linked to the next.
    #[verifier::rlimit(40)]
    pub fn save(&mut self, id: i32, data: &Vec<u8>)
        requires
            old(self).wf(),
            chain_ok(old(self).mem(), id as int, object_size(old(self).mem(), id as int) as int, old(self).num_pages()),
            data.len() <= 0x7fff_ffff,
            zeros(destroyed(old(self).mem(), old(self).taken(), id as int)).len() >= pages_for(data.len() as int),
        ensures
            final(self).wf(),
            final(self).sectors() == old(self).sectors(),
            object_size(final(self).mem(), id as int) == data.len(),
            object(final(self).mem(), id as int) == data@,
            chain_ok(final(self).mem(), id as int, data.len() as int, final(self).num_pages()),
            forall|q: int|
                0 <= q < old(self).num_pages() ==> #[trigger] final(self).taken()[q] == (destroyed(
                    old(self).mem(),
                    old(self).taken(),
                    id as int,
                )[q] || in_chain(final(self).mem(), id as int, data.len() as int, q)),
            forall|q: int|
                #[trigger] in_chain(final(self).mem(), id as int, data.len() as int, q) ==> !destroyed(
                    old(self).mem(),
                    old(self).taken(),
                    id as int,
                )[q],
            final(self).mem().len() == old(self).mem().len(),
            forall|b: int|
                0 <= b < old(self).mem().len() && !in_chain(final(self).mem(), id as int, data.len() as int, b / 4096)
                    ==> #[trigger] final(self).mem()[b] == old(self).mem()[b],
            forall|other: int|
                chain_ok(old(self).mem(), other, object_size(old(self).mem(), other) as int, old(self).num_pages()) && (forall|q: int|
                    #[trigger] in_chain(old(self).mem(), other, object_size(old(self).mem(), other) as int, q) ==> destroyed(
                        old(self).mem(),
                        old(self).taken(),
                        id as int,
                    )[q]) ==> #[trigger] object(final(self).mem(), other) == object(old(self).mem(), other),
    {
        let ghost m0 = self.mem();
        let ghost d = destroyed(self.mem(), self.taken(), id as int);
        let ghost n = self.num_pages();
        let ghost len = data.len() as int;
        proof {
            self.lemma_wf();
        }
        self.destroy(id);
        proof {
            assert(0 <= id < n);
            assert(id * 4096 + 4096 <= n * 4096) by (nonlinear_arith)
                requires
                    0 <= id < n,
            ;
            assert(in_chain(m0, id as int, object_size(m0, id as int) as int, id as int));
        }
        write_word(&mut self.memory, id as usize * PAGE_SIZE, data.len() as i32);
        let mut iter = PageIterator::new(&self.memory, id as usize * PAGE_SIZE);
        let mut i: usize = 0;
        let ghost mut pg: int = id as int;
        let ghost mut built: Seq<int> = Seq::empty();
        proof {
            assert forall|b: int| 0 <= b < m0.len() && !built.push(pg).contains(b / 4096) implies self.mem()[b] == m0[b] by {
                if id * 4096 <= b < id * 4096 + 4 {
                    lemma_byte_page(id as int, b - id * 4096);
                    assert(built.push(pg)[0] == pg);
                }
            }
        }
        loop
            invariant_except_break
                self.wf(),
                self.sectors() == old(self).sectors(),
                n == self.num_pages(),
                self.mem().len() == n * 4096 == m0.len(),
                n * 4096 <= usize::MAX,
                len == data.len(),
                len <= 0x7fff_ffff,
                d.len() == n,
                d == destroyed(m0, old(self).taken(), id as int),
                iter.is_first,
                iter.addr == pg * 4096,
                iter.size_left == len - i,
                i == 4088 * built.len(),
                i <= len,
                built.len() > 0 ==> i < len,
                0 <= pg < n,
                forall|k: int| 0 <= k < built.len() ==> 0 <= #[trigger] built[k] < n,
                built.push(pg).no_duplicates(),
                built.len() == 0 ==> pg == id,
                built.len() > 0 ==> built[0] == id,
                forall|k: int|
                    0 <= k < built.len() ==> self.mem().subrange(#[trigger] built[k] * 4096 + 4, built[k] * 4096 + 4092)
                        == data@.subrange(4088 * k, 4088 * k + 4088),
                forall|k: int|
                    0 <= k < built.len() ==> next_page(self.mem(), #[trigger] built[k]) == (if k + 1 < built.len() {
                        built[k + 1]
                    } else {
                        pg
                    }),
                word_at(self.mem(), id * 4096) == len,
                forall|b: int| 0 <= b < m0.len() && !built.push(pg).contains(b / 4096) ==> #[trigger] self.mem()[b] == m0[b],
                forall|q: int|
                    0 <= q < n ==> #[trigger] self.taken()[q] == (d[q] || built.contains(q) || (built.len() > 0 && q == pg)),
                forall|q: int| built.push(pg).contains(q) ==> !d[q],
                zeros(self.taken()).len() + (if built.len() > 0 { 1int } else { 0int }) >= pages_for(len - i),
            ensures
                self.wf(),
                self.sectors() == old(self).sectors(),
                self.mem().len() == m0.len(),
                word_at(self.mem(), id * 4096) == len,
                written_chain(self.mem(), built.push(pg), data@, n),
                built.push(pg)[0] == id,
                forall|b: int| 0 <= b < m0.len() && !built.push(pg).contains(b / 4096) ==> #[trigger] self.mem()[b] == m0[b],
                forall|q: int| 0 <= q < n ==> #[trigger] self.taken()[q] == (d[q] || built.push(pg).contains(q)),
                forall|q: int| built.push(pg).contains(q) ==> !d[q],
            decreases len - i,
        {
            assert(pg * 4096 + 4096 <= n * 4096) by (nonlinear_arith)
                requires
                    0 <= pg < n,
            ;
            let remaining = data.len() - i;
            let curr: usize = if remaining < 4088 { remaining } else { 4088 };
            let dst = iter.get_curr_addr();
            let ghost before_copy = self.mem();
            let ghost before_copy_taken = self.taken();
            let mut j: usize = 0;
            while j < curr
                invariant
                    j <= curr <= 4088,
                    i + curr <= data.len(),
                    dst == pg * 4096 + 4,
                    pg * 4096 + 4096 <= before_copy.len(),
                    self.wf(),
                    self.sectors() == old(self).sectors(),
                    self.taken() == before_copy_taken,
                    self.mem().len() == before_copy.len(),
                    forall|b: int| 0 <= b < before_copy.len() && !(dst <= b < dst + j) ==> #[trigger] self.mem()[b] == before_copy[b],
                    self.mem().subrange(dst as int, dst + j) == data@.subrange(i as int, i + j),
                decreases curr - j,
            {
                self.memory.set(dst + j, data[i + j]);
                j = j + 1;
                assert(self.mem().subrange(dst as int, dst + j) =~= data@.subrange(i as int, i + j));
            }
            let page = dst / PAGE_SIZE;
            let ghost i_old = i as int;
            let ghost m_b = self.mem();
            proof {
                lemma_byte_page(pg, 4);
                assert forall|b: int| 0 <= b < m_b.len() && b / 4096 != pg implies m_b[b] == before_copy[b] by {
                    if dst <= b < dst + curr {
                        lemma_byte_page(pg, b - pg * 4096);
                    }
                }
            }
            let ghost before_set = self.taken();
            self.bitset.set(page, true);
            i = i + curr;
            if i == data.len() {
                proof {
                    let pages = built.push(pg);
                    let k0 = built.len() as int;
                    assert(chunk_len(len - 4088 * k0) == curr);
                    assert forall|k: int| 0 <= k < pages.len() implies m_b.subrange(#[trigger] pages[k] * 4096 + 4, pages[k] * 4096 + 4 + chunk_len(data@.len() - 4088 * k))
                        == data@.subrange(4088 * k, 4088 * k + chunk_len(data@.len() - 4088 * k)) by {
                        if k < k0 {
                            assert(pages[k] == built[k]);
                            assert(built.push(pg)[k] != built.push(pg)[k0]);
                            lemma_other_page(before_copy, m_b, pg, built[k], 4, 4092);
                            assert(chunk_len(data@.len() - 4088 * k) == 4088);
                        }
                    }
                    assert forall|k: int| 0 <= k < pages.len() - 1 implies next_page(m_b, #[trigger] pages[k]) == pages[k + 1] by {
                        assert(pages[k] == built[k]);
                        assert(built.push(pg)[k] != built.push(pg)[k0]);
                        lemma_other_page(before_copy, m_b, pg, built[k], 4092, 4096);
                        assert(m_b.subrange(built[k] * 4096 + 4092, built[k] * 4096 + 4092 + 4)
                            =~= before_copy.subrange(built[k] * 4096 + 4092, built[k] * 4096 + 4096));
                    }
                    assert(m_b.subrange(id * 4096, id * 4096 + 4) =~= before_copy.subrange(id * 4096, id * 4096 + 4)) by {
                        if k0 > 0 {
                            assert(built.push(pg)[0] != built.push(pg)[k0]);
                            lemma_other_page(before_copy, m_b, pg, id as int, 0, 4);
                        }
                    }
                    assert forall|b: int| 0 <= b < m0.len() && !pages.contains(b / 4096) implies #[trigger] m_b[b] == m0[b] by {
                        assert(b / 4096 != pg) by {
                            assert(pages[k0] == pg);
                        }
                        assert(!built.push(pg).contains(b / 4096));
                    }
                    assert forall|q: int| 0 <= q < n implies #[trigger] self.taken()[q] == (d[q] || pages.contains(q)) by {
                        if q == pg {
                            assert(pages[k0] == pg);
                        } else if pages.contains(q) {
                            let k = choose|k: int| 0 <= k < pages.len() && pages[k] == q;
                            assert(built[k] == q);
                        } else if built.contains(q) {
                            let k = choose|k: int| 0 <= k < built.len() && built[k] == q;
                            assert(pages[k] == q);
                        }
                    }
                }
                break;
            }
            proof {
                assert(len - i_old > 4088);
                assert(pages_for(len - i_old) == 1 + pages_for(len - i_old - 4088));
                if built.len() == 0 {
                    assert(!before_set[pg]) by {
                        assert(built.push(pg).contains(pg)) by {
                            assert(built.push(pg)[0] == pg);
                        }
                    }
                }
                lemma_zeros_finite(self.taken());
            }
            let np = self.alloc_page();
            set_next_page(&mut self.memory, page as i32, np);
            let ghost m_c = self.mem();
            proof {
                assert(np * 4096 <= usize::MAX) by (nonlinear_arith)
                    requires
                        0 <= np < n,
                        n * 4096 <= usize::MAX,
                ;
                assert((pg * 4096) % 4096 == 0 && (pg * 4096) / 4096 == pg) by (nonlinear_arith)
                    requires
                        0 <= pg,
                ;
            }
            let adv = iter.advance(&self.memory);
            proof {
                assert(adv);
                let k0 = built.len() as int;
                let nb = built.push(pg);
                assert forall|q: int| nb.contains(q) implies self.taken()[q] by {
                    let k = choose|k: int| 0 <= k < nb.len() && nb[k] == q;
                    if k < k0 {
                        assert(built[k] == q);
                        assert(built.contains(q));
                    }
                }
                assert(!nb.contains(np as int));
                assert(nb.push(np as int).no_duplicates());
                assert forall|b: int| 0 <= b < m_c.len() && b / 4096 != pg implies m_c[b] == m_b[b] by {
                    if page * 4096 + 4092 <= b < page * 4096 + 4096 {
                        lemma_byte_page(pg, b - pg * 4096);
                    }
                }
                assert forall|b: int| 0 <= b < m_c.len() && b / 4096 != pg implies m_c[b] == before_copy[b] by {
                }
                assert forall|k: int| 0 <= k < nb.len() implies m_c.subrange(#[trigger] nb[k] * 4096 + 4, nb[k] * 4096 + 4092)
                    == data@.subrange(4088 * k, 4088 * k + 4088) by {
                    if k < k0 {
                        assert(nb[k] == built[k]);
                        assert(nb[k] != nb[k0]);
                        lemma_other_page(before_copy, m_c, pg, built[k], 4, 4092);
                    } else {
                        assert(nb[k] == pg);
                        assert(m_c.subrange(pg * 4096 + 4, pg * 4096 + 4092) =~= m_b.subrange(pg * 4096 + 4, pg * 4096 + 4092));
                    }
                }
                assert forall|k: int| 0 <= k < nb.len() implies next_page(m_c, #[trigger] nb[k]) == (if k + 1 < nb.len() {
                    nb[k + 1]
                } else {
                    np as int
                }) by {
                    if k < k0 {
                        assert(nb[k] == built[k]);
                        assert(nb[k] != nb[k0]);
                        lemma_other_page(before_copy, m_c, pg, built[k], 4092, 4096);
                        assert(m_c.subrange(built[k] * 4096 + 4092, built[k] * 4096 + 4092 + 4)
                            =~= before_copy.subrange(built[k] * 4096 + 4092, built[k] * 4096 + 4096));
                        if k + 1 < k0 {
                            assert(nb[k + 1] == built[k + 1]);
                        }
                    }
                }
                assert(m_c.subrange(id * 4096, id * 4096 + 4) =~= before_copy.subrange(id * 4096, id * 4096 + 4)) by {
                    if k0 > 0 {
                        assert(nb[0] != nb[k0]);
                        lemma_other_page(before_copy, m_c, pg, id as int, 0, 4);
                    }
                }
                assert forall|b: int| 0 <= b < m0.len() && !nb.push(np as int).contains(b / 4096) implies #[trigger] m_c[b] == m0[b] by {
                    assert(b / 4096 != pg) by {
                        assert(nb.push(np as int)[k0] == pg);
                    }
                    assert(!built.push(pg).contains(b / 4096)) by {
                        if built.push(pg).contains(b / 4096) {
                            let k = choose|k: int| 0 <= k < built.push(pg).len() && built.push(pg)[k] == b / 4096;
                            assert(nb.push(np as int)[k] == b / 4096);
                        }
                    }
                }
                assert forall|q: int| 0 <= q < n implies #[trigger] self.taken()[q] == (d[q] || nb.contains(q) || q == np) by {
                    if q == pg {
                        assert(nb[k0] == pg);
                    } else if nb.contains(q) {
                        let k = choose|k: int| 0 <= k < nb.len() && nb[k] == q;
                        assert(built[k] == q);
                    } else if built.contains(q) {
                        let k = choose|k: int| 0 <= k < built.len() && built[k] == q;
                        assert(nb[k] == q);
                    }
                }
                assert forall|q: int| nb.push(np as int).contains(q) implies !d[q] by {
                    if q != np {
                        let k = choose|k: int| 0 <= k < nb.push(np as int).len() && nb.push(np as int)[k] == q;
                        assert(built.push(pg)[k] == q);
                    }
                }
                built = nb;
                pg = np as int;
            }
        }
        proof {
            let pages = built.push(pg);
            lemma_written_chain(self.mem(), pages, data@, n, 0);
            assert(data@.subrange(0, len) =~= data@);
            assert forall|q: int| in_chain(self.mem(), id as int, len, q) <==> pages.contains(q) by {
                if pages.contains(q) {
                    let k = choose|k: int| 0 <= k < pages.len() && pages[k] == q;
                    assert(0 <= k < pages.len() && pages[k] == q);
                }
            }
        }
        proof {
            let m1 = self.mem();
            assert forall|other: int|
                chain_ok(m0, other, object_size(m0, other) as int, n) && (forall|q: int|
                    #[trigger] in_chain(m0, other, object_size(m0, other) as int, q) ==> d[q]) implies #[trigger] object(m1, other)
                == object(m0, other) by {
                assert forall|b: int|
                    0 <= b < m0.len() && in_chain(m0, other, object_size(m0, other) as int, b / 4096) implies #[trigger] m1[b]
                    == m0[b] by {
                    assert(d[b / 4096]);
                }
                lemma_object_frame(m0, m1, other, n);
            }
        }
    }

    /// Empties the disk: only the pages up to the end of the bitset are taken, and a
    /// new, empty master object is created, its page noted in page 0.
    pub fn erase(&mut self)
        requires
            old(self).wf(),
            (spec_bitset_size_bytes(old(self).num_pages()) + 4095) / 4096 + 2 <= old(self).num_pages(),
        ensures
            final(self).wf(),
            final(self).sectors() == old(self).sectors(),
            ({
                let reserved = (spec_bitset_size_bytes(old(self).num_pages()) + 4095) / 4096;
                let master = word_at(final(self).mem(), 0) as int;
                &&& reserved < master < old(self).num_pages()
                &&& forall|q: int| 0 <= q < old(self).num_pages() ==> #[trigger] final(self).taken()[q] == (q <= reserved || q == master)
                &&& object(final(self).mem(), master) == Seq::<u8>::empty()
                &&& chain_ok(final(self).mem(), master, 0, old(self).num_pages())
                &&& forall|b: int|
                    0 <= b < old(self).mem().len() && !(0 <= b < 4) && !(master * 4096 <= b < master * 4096 + 4)
                        ==> #[trigger] final(self).mem()[b] == old(self).mem()[b]
            }),
    {
        let ghost n = self.num_pages();
        let ghost m0 = self.mem();
        proof {
            self.lemma_wf();
            self.bitset.lemma_wf_shape();
        }
        let reserved = self.get_bitset_size();
        self.bitset.clear();
        let mut i: usize = 0;
        while i <= reserved
            invariant
                self.wf(),
                self.sectors() == old(self).sectors(),
                self.mem() == m0,
                n == self.num_pages(),
                reserved + 2 <= n,
                i <= reserved + 1,
                self.taken() == Seq::new(n as nat, |q: int| q < i),
                self.free_pages() == n - i,
            decreases reserved + 1 - i,
        {
            self.bitset.set(i, true);
            i = i + 1;
            assert(self.taken() =~= Seq::new(n as nat, |q: int| q < i));
        }
        let master = self.create();
        proof {
            assert(master * 4096 + 4096 <= n * 4096) by (nonlinear_arith)
                requires
                    0 <= master < n,
            ;
            assert(master * 4096 >= 4096) by (nonlinear_arith)
                requires
                    1 <= master,
            ;
        }
        let ghost m1 = self.mem();
        write_word(&mut self.memory, 0, master);
        proof {
            let m2 = self.mem();
            assert(m2.subrange(master * 4096, master * 4096 + 4) =~= m1.subrange(master * 4096, master * 4096 + 4));
            assert(object_size(m2, master as int) == 0);
            assert(chain_ok(m2, master as int, 0, n));
        }
    }
}

/// A value kept as an object of the disk: the page of the object, and the value once
/// it has been read (or set).
pub struct DiskBox<T: Serial> {
    pub page: i32,
    pub obj: Option<T>,
}

impl<T: Serial> Serial for DiskBox<T> {
    /// A box is written as the number of its page.
    open spec fn enc(&self) -> Seq<u8> {
        self.page.enc()
    }

    proof fn lemma_prefix_free(x: &Self, y: &Self, s: Seq<u8>) {
        i32::lemma_prefix_free(&x.page, &y.page, s);
    }

    fn serialize(&mut self, vec: &mut Vec<u8>) {
        let mut page = self.page;
        page.serialize(vec);
    }

    fn deserialize(vec: &Vec<u8>, idx: &mut usize) -> (r: Self) {
        let ghost x = choose|x: DiskBox<T>| #[trigger] x.enc().is_prefix_of(rest(vec@, *old(idx) as int));
        assert(x.page.enc().is_prefix_of(rest(vec@, *old(idx) as int)));
        let page = i32::deserialize(vec, idx);
        Self::new_at_page(page)
    }
}

impl<T: Serial> DiskBox<T> {
    /// A box for `obj` in a new object of `disk`.
    pub fn new(disk: &mut MemoryDisk, obj: T) -> (r: Self)
        requires
            old(disk).wf(),
            old(disk).free_pages() > 0,
        ensures
            final(disk).wf(),
            final(disk).sectors() == old(disk).sectors(),
            0 <= r.page < old(disk).num_pages(),
            !old(disk).taken()[r.page as int],
            final(disk).taken() == old(disk).taken().update(r.page as int, true),
            object(final(disk).mem(), r.page as int) == Seq::<u8>::empty(),
            chain_ok(final(disk).mem(), r.page as int, 0, final(disk).num_pages()),
            r.obj == Some(obj),
            forall|other: int|
                chain_ok(old(disk).mem(), other, object_size(old(disk).mem(), other) as int, old(disk).num_pages()) && (forall|q: int|
                    #[trigger] in_chain(old(disk).mem(), other, object_size(old(disk).mem(), other) as int, q) ==> old(
                    disk,
                ).taken()[q]) ==> #[trigger] object(final(disk).mem(), other) == object(old(disk).mem(), other),
    {
        let page = disk.create();
        DiskBox { page, obj: Some(obj) }
    }

    /// A box for the object at `page`, to be read on first use.
    pub fn new_at_page(page: i32) -> (r: Self)
        ensures
            r.page == page,
            r.obj is None,
    {
        DiskBox { page, obj: None }
    }

    /// The value, read from the object on first use.
    pub fn get(&mut self, disk: &MemoryDisk) -> (r: &mut T)
        requires
            old(self).obj is None ==> {
                &&& disk.wf()
                &&& chain_ok(disk.mem(), old(self).page as int, object_size(disk.mem(), old(self).page as int) as int, disk.num_pages())
                &&& exists|x: T| #[trigger] x.enc().is_prefix_of(object(disk.mem(), old(self).page as int))
            },
        ensures
            old(self).obj matches Some(v) ==> *r == v,
            old(self).obj is None ==> forall|x: T|
                #[trigger] x.enc().is_prefix_of(object(disk.mem(), old(self).page as int)) ==> (*r).enc() == x.enc(),
            old(self).obj is None ==> (*r).enc().is_prefix_of(object(disk.mem(), old(self).page as int)),
            final(self).page == old(self).page,
            final(self).obj == Some(*final(r)),
    {
        if self.obj.is_none() {
            let bytes = disk.load(self.page);
            let obj: T = deserialize(&bytes);
            self.obj = Some(obj);
        }
        self.obj.as_mut().unwrap()
    }

    /// Replaces the value without reading the object.
    pub fn set(&mut self, obj: T)
        ensures
            final(self).page == old(self).page,
            final(self).obj == Some(obj),
    {
        self.obj = Some(obj);
    }

    /// Frees the object of the box.
    pub fn delete(self, disk: &mut MemoryDisk)
        requires
            old(disk).wf(),
            chain_ok(old(disk).mem(), self.page as int, object_size(old(disk).mem(), self.page as int) as int, old(disk).num_pages()),
        ensures
            final(disk).wf(),
            final(disk).mem() == old(disk).mem(),
            final(disk).sectors() == old(disk).sectors(),
            final(disk).taken() == destroyed(old(disk).mem(), old(disk).taken(), self.page as int),
    {
        disk.destroy(self.page);
    }

    /// What dropping the box does: a value that was read or set is saved to the
    /// object.
    pub fn close(self, disk: &mut MemoryDisk)
        requires
            old(disk).wf(),
            self.obj is Some ==> {
                &&& chain_ok(old(disk).mem(), self.page as int, object_size(old(disk).mem(), self.page as int) as int, old(disk).num_pages())
                &&& self.obj->0.enc().len() <= 0x7fff_ffff
                &&& zeros(destroyed(old(disk).mem(), old(disk).taken(), self.page as int)).len() >= pages_for(self.obj->0.enc().len() as int)
            },
        ensures
            final(disk).wf(),
            final(disk).sectors() == old(disk).sectors(),
            self.obj is None ==> *final(disk) == *old(disk),
            self.obj matches Some(v) ==> {
                &&& object(final(disk).mem(), self.page as int) == v.enc()
                &&& object_size(final(disk).mem(), self.page as int) == v.enc().len()
                &&& chain_ok(final(disk).mem(), self.page as int, v.enc().len() as int, final(disk).num_pages())
            },
    {
        match self.obj {
            Some(obj) => {
                let mut obj = obj;
                let data = serialize(&mut obj);
                disk.save(self.page, &data);
            },
            None => {},
        }
    }
}

/// Where values are read back exactly (`SerialExact`), a box opened on the page of a
/// saved value reads back that very value.
pub proof fn lemma_box_value_round_trip<T: crate::std_lib::serial::SerialExact>(m: Seq<u8>, page: int, v: T, n: int)
    requires
        object(m, page) == v.enc(),
        object_size(m, page) == v.enc().len(),
        chain_ok(m, page, v.enc().len() as int, n),
    ensures
        forall|r: T| #[trigger] r.enc().is_prefix_of(object(m, page)) ==> r == v,
{
    assert(v.enc().is_prefix_of(object(m, page)));
    assert forall|r: T| #[trigger] r.enc().is_prefix_of(object(m, page)) implies r == v by {
        crate::std_lib::serial::lemma_read_back(v, r, object(m, page));
    }
}

/// A value that a box saved to its object is what a box opened on the same page
/// reads back: the object meets what `get` asks for, and whatever value `get`
/// returns has the saved value's encoding.
pub proof fn lemma_box_round_trip<T: Serial>(m: Seq<u8>, page: int, v: T, n: int)
    requires
        object(m, page) == v.enc(),
        object_size(m, page) == v.enc().len(),
        chain_ok(m, page, v.enc().len() as int, n),
    ensures
        chain_ok(m, page, object_size(m, page) as int, n),
        exists|x: T| #[trigger] x.enc().is_prefix_of(object(m, page)),
        forall|r: T| #[trigger] r.enc().is_prefix_of(object(m, page)) ==> r.enc() == v.enc(),
{
    assert(v.enc().is_prefix_of(object(m, page)));
    assert forall|r: T| #[trigger] r.enc().is_prefix_of(object(m, page)) implies r.enc() == v.enc() by {
        T::lemma_prefix_free(&r, &v, object(m, page));
    }
}

} // verus!
