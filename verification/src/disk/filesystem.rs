use vstd::prelude::*;

verus! {

use crate::disk::ata::SECTOR_SIZE;
use crate::disk::memory_disk::{MemoryDisk, head_len, head_bytes, head_sector, lemma_head_round_trip, saved, stored_bitmap};
use crate::disk::serial::{
    Directory, DirV, Entry, EntryV, entry_view, dec_dir, enc_dir, dir_small, lemma_dir_reads_back, serialize,
    deserialize, dec_ref, enc_ref, serialize_ref, deserialize_ref, lemma_enc_ref_len, lemma_ref_reads_back,
};
use crate::memory::bitset::zeros;

/// The contents of the sectors `secs`, one after the other.
pub open spec fn concat_sectors(sectors: Seq<Seq<u8>>, secs: Seq<usize>) -> Seq<u8>
    decreases secs.len(),
{
    if secs.len() == 0 {
        Seq::empty()
    } else {
        concat_sectors(sectors, secs.drop_last()) + sectors[secs.last() as int]
    }
}

/// The first `size` bytes held by the sectors `secs`.
pub open spec fn read_bytes(sectors: Seq<Seq<u8>>, secs: Seq<usize>, size: nat) -> Seq<u8> {
    concat_sectors(sectors, secs).take(size as int)
}

/// `size` bytes fit the sectors `secs` with less than one sector to spare, and every
/// sector lies on a disk of `n` sectors.
pub open spec fn valid_ref(n: nat, secs: Seq<usize>, size: nat) -> bool {
    &&& 1 <= secs.len()
    &&& 512 * (secs.len() - 1) < size <= 512 * secs.len()
    &&& forall|i: int| 0 <= i < secs.len() ==> #[trigger] secs[i] < n
}

/// `data` padded with zeros to `m` bytes.
pub open spec fn padded(data: Seq<u8>, m: nat) -> Seq<u8> {
    Seq::new(m, |x: int| if x < data.len() { data[x] } else { 0u8 })
}

/// Chunk `i` of `data`: its bytes `512 * i ..`, padded with zeros to a sector.
pub open spec fn chunk(data: Seq<u8>, i: int) -> Seq<u8> {
    Seq::new(512, |j: int| if 512 * i + j < data.len() { data[512 * i + j] } else { 0u8 })
}

/// The sectors after writing chunk `i` of `data` to sector `secs[i]`, in order.
pub open spec fn write_chunks(sectors: Seq<Seq<u8>>, secs: Seq<usize>, data: Seq<u8>) -> Seq<Seq<u8>>
    decreases secs.len(),
{
    if secs.len() == 0 {
        sectors
    } else {
        write_chunks(sectors, secs.drop_last(), data).update(secs.last() as int, chunk(data, secs.len() - 1))
    }
}

/// Chunks laid one after the other give the padded data.
proof fn lemma_concat_chunks(w: Seq<Seq<u8>>, secs: Seq<usize>, data: Seq<u8>, k: int)
    requires
        0 <= k <= secs.len(),
        forall|j: int| 0 <= j < k ==> w[secs[j] as int] == #[trigger] chunk(data, j),
        forall|j: int| 0 <= j < secs.len() ==> 0 <= #[trigger] secs[j] < w.len(),
    ensures
        concat_sectors(w, secs.subrange(0, k)) == padded(data, (512 * k) as nat),
    decreases k,
{
    if k > 0 {
        let s = secs.subrange(0, k);
        assert(s.drop_last() =~= secs.subrange(0, k - 1));
        lemma_concat_chunks(w, secs, data, k - 1);
        assert(w[secs[k - 1] as int] == chunk(data, k - 1));
        assert(concat_sectors(w, s) =~= padded(data, (512 * k) as nat));
    } else {
        assert(concat_sectors(w, secs.subrange(0, k)) =~= padded(data, 0));
    }
}

/// Writing chunks to distinct sectors leaves chunk `j` in sector `secs[j]`, and the
/// other sectors as they were.
proof fn lemma_write_chunks(sectors: Seq<Seq<u8>>, secs: Seq<usize>, data: Seq<u8>)
    requires
        secs.no_duplicates(),
        forall|j: int| 0 <= j < secs.len() ==> #[trigger] secs[j] < sectors.len(),
    ensures
        write_chunks(sectors, secs, data).len() == sectors.len(),
        forall|j: int| 0 <= j < secs.len() ==> #[trigger] write_chunks(sectors, secs, data)[secs[j] as int] == chunk(data, j),
        forall|x: int| 0 <= x < sectors.len() && !lists(secs, x) ==> #[trigger] write_chunks(sectors, secs, data)[x] == sectors[x],
    decreases secs.len(),
{
    if secs.len() > 0 {
        let front = secs.drop_last();
        assert forall|a: int, b: int| 0 <= a < b < front.len() implies front[a] != front[b] by {
            assert(front[a] == secs[a] && front[b] == secs[b]);
        }
        lemma_write_chunks(sectors, front, data);
        let w = write_chunks(sectors, secs, data);
        assert forall|j: int| 0 <= j < secs.len() implies #[trigger] w[secs[j] as int] == chunk(data, j) by {
            if j < secs.len() - 1 {
                assert(front[j] == secs[j]);
                assert(secs[j] != secs[secs.len() - 1]);
            }
        }
        assert forall|x: int| 0 <= x < sectors.len() && !lists(secs, x) implies #[trigger] w[x] == sectors[x] by {
            if lists(front, x) {
                let j = choose|j: int| 0 <= j < front.len() && front[j] as int == x;
                assert(secs[j] as int == x);
            }
            assert(secs[secs.len() - 1] as int != x);
        }
    }
}

/// What is written to distinct sectors reads back.
pub proof fn lemma_written_reads_back(sectors: Seq<Seq<u8>>, secs: Seq<usize>, data: Seq<u8>)
    requires
        secs.no_duplicates(),
        valid_ref(sectors.len(), secs, data.len()),
    ensures
        read_bytes(write_chunks(sectors, secs, data), secs, data.len()) == data,
{
    lemma_write_chunks(sectors, secs, data);
    let w = write_chunks(sectors, secs, data);
    lemma_concat_chunks(w, secs, data, secs.len() as int);
    assert(secs.subrange(0, secs.len() as int) =~= secs);
    assert(read_bytes(w, secs, data.len()) =~= data);
}

/// Reading sectors depends on nothing but their contents.
pub proof fn lemma_read_frame(a: Seq<Seq<u8>>, b: Seq<Seq<u8>>, secs: Seq<usize>, size: nat)
    requires
        forall|i: int| 0 <= i < secs.len() ==> a[#[trigger] secs[i] as int] == b[secs[i] as int],
    ensures
        read_bytes(a, secs, size) == read_bytes(b, secs, size),
{
    lemma_concat_frame(a, b, secs);
}

/// Concatenating sectors depends on nothing but their contents.
proof fn lemma_concat_frame(a: Seq<Seq<u8>>, b: Seq<Seq<u8>>, secs: Seq<usize>)
    requires
        forall|i: int| 0 <= i < secs.len() ==> a[#[trigger] secs[i] as int] == b[secs[i] as int],
    ensures
        concat_sectors(a, secs) == concat_sectors(b, secs),
    decreases secs.len(),
{
    if secs.len() > 0 {
        let front = secs.drop_last();
        assert forall|i: int| 0 <= i < front.len() implies a[#[trigger] front[i] as int] == b[front[i] as int] by {
            assert(front[i] == secs[i]);
        }
        lemma_concat_frame(a, b, front);
        assert(a[secs.last() as int] == b[secs.last() as int]);
    }
}

/// The concatenation of `k` whole sectors has `512 * k` bytes.
proof fn lemma_concat_len(sectors: Seq<Seq<u8>>, secs: Seq<usize>)
    requires
        forall|i: int| 0 <= i < secs.len() ==> sectors[#[trigger] secs[i] as int].len() == 512,
    ensures
        concat_sectors(sectors, secs).len() == 512 * secs.len(),
    decreases secs.len(),
{
    if secs.len() > 0 {
        let front = secs.drop_last();
        assert forall|i: int| 0 <= i < front.len() implies sectors[#[trigger] front[i] as int].len() == 512 by {
            assert(front[i] == secs[i]);
        }
        lemma_concat_len(sectors, front);
        assert(sectors[secs[secs.len() - 1] as int].len() == 512);
    }
}

/// Reads the first `size` bytes held by the sectors `sectors`.
fn read_sectors_from_disk(disk: &mut MemoryDisk, sectors: &Vec<usize>, size: usize) -> (r: Vec<u8>)
    requires
        old(disk).wf(),
        valid_ref(old(disk).sectors().len(), sectors@, size as nat),
    ensures
        *final(disk) == *old(disk),
        r@ == read_bytes(old(disk).sectors(), sectors@, size as nat),
{
    let ghost all = disk.sectors();
    let mut res: Vec<u8> = Vec::new();
    let mut size_left = size;
    let mut i: usize = 0;
    while i < sectors.len()
        invariant
            *disk == *old(disk),
            all == disk.sectors(),
            disk.wf(),
            valid_ref(all.len(), sectors@, size as nat),
            i <= sectors.len(),
            size_left == (if size <= 512 * i { 0 } else { size - 512 * i }),
            res@ == concat_sectors(all, sectors@.subrange(0, i as int)).take(size - size_left),
            concat_sectors(all, sectors@.subrange(0, i as int)).len() == 512 * i,
        decreases sectors.len() - i,
    {
        let data = disk.read_sector(sectors[i]);
        let take = if size_left < SECTOR_SIZE { size_left } else { SECTOR_SIZE };
        let ghost before = res@;
        let mut j: usize = 0;
        while j < take
            invariant
                take <= 512,
                j <= take,
                data@.len() == 512,
                res@ == before + data@.subrange(0, j as int),
            decreases take - j,
        {
            res.push(data[j]);
            j = j + 1;
            assert(res@ =~= before + data@.subrange(0, j as int));
        }
        proof {
            let s = sectors@.subrange(0, i + 1);
            assert(s.drop_last() =~= sectors@.subrange(0, i as int));
            assert(concat_sectors(all, s) == concat_sectors(all, sectors@.subrange(0, i as int)) + data@);
            assert(res@ =~= concat_sectors(all, s).take(size - (size_left - take)));
        }
        size_left = size_left - take;
        i = i + 1;
    }
    proof {
        assert(sectors@.subrange(0, sectors.len() as int) =~= sectors@);
    }
    res
}

/// Writes `data` to the sectors `sectors`, 512 bytes to a sector, the last one padded
/// with zeros.
fn write_to_sectors_on_disk(disk: &mut MemoryDisk, sectors: &Vec<usize>, data: &Vec<u8>)
    requires
        old(disk).wf(),
        valid_ref(old(disk).sectors().len(), sectors@, data.len() as nat),
    ensures
        final(disk).wf(),
        final(disk).sectors() == write_chunks(old(disk).sectors(), sectors@, data@),
        final(disk).taken() == old(disk).taken(),
        final(disk).drive() == old(disk).drive(),
{
    let mut size_left = data.len();
    let mut i: usize = 0;
    while i < sectors.len()
        invariant
            disk.wf(),
            disk.taken() == old(disk).taken(),
            disk.drive() == old(disk).drive(),
            valid_ref(old(disk).sectors().len(), sectors@, data.len() as nat),
            i <= sectors.len(),
            size_left == (if data.len() <= 512 * i { 0 } else { data.len() - 512 * i }),
            disk.sectors() == write_chunks(old(disk).sectors(), sectors@.subrange(0, i as int), data@),
            disk.sectors().len() == old(disk).sectors().len(),
        decreases sectors.len() - i,
    {
        let mut page = [0u8; 512];
        let base = data.len() - size_left;
        let take = if size_left < SECTOR_SIZE { size_left } else { SECTOR_SIZE };
        let mut j: usize = 0;
        while j < take
            invariant
                take <= 512,
                j <= take,
                base == 512 * i,
                base + take <= data.len(),
                take == 512 || base + take == data.len(),
                page@.len() == 512,
                forall|x: int| 0 <= x < j ==> page@[x] == data@[base + x],
                forall|x: int| j <= x < 512 ==> page@[x] == 0u8,
            decreases take - j,
        {
            page[j] = data[base + j];
            j = j + 1;
        }
        assert(page@ =~= chunk(data@, i as int));
        disk.write_sector(sectors[i], &page);
        proof {
            let s = sectors@.subrange(0, i + 1);
            assert(s.drop_last() =~= sectors@.subrange(0, i as int));
        }
        size_left = size_left - take;
        i = i + 1;
    }
    proof {
        assert(sectors@.subrange(0, sectors.len() as int) =~= sectors@);
    }
}

/// The directory of no entries.
pub open spec fn empty_dir() -> DirV {
    (Seq::empty(), Seq::empty())
}

/// The directory stored in the first `size` bytes of the sectors `secs`, if they
/// hold one.
pub open spec fn load_dir(sectors: Seq<Seq<u8>>, secs: Seq<usize>, size: nat) -> Option<DirV> {
    match dec_dir(read_bytes(sectors, secs, size), 0) {
        Some((d, _)) => Some(d),
        None => None,
    }
}

/// The first entry of `v` named `name`.
pub open spec fn find_entry(v: Seq<EntryV>, name: Seq<char>) -> Option<EntryV>
    decreases v.len(),
{
    if v.len() == 0 {
        None
    } else if v[0].2 == name {
        Some(v[0])
    } else {
        find_entry(v.drop_first(), name)
    }
}

/// The entries of `v` not named `name`, in order.
pub open spec fn remove_named(v: Seq<EntryV>, name: Seq<char>) -> Seq<EntryV>
    decreases v.len(),
{
    if v.len() == 0 {
        v
    } else if v.last().2 == name {
        remove_named(v.drop_last(), name)
    } else {
        remove_named(v.drop_last(), name).push(v.last())
    }
}

/// Looking a name up after appending an entry finds what was there before, else
/// the new entry where it has the name.
pub proof fn lemma_find_push(u: Seq<EntryV>, e: EntryV, name: Seq<char>)
    ensures
        find_entry(u.push(e), name) == (match find_entry(u, name) {
            Some(x) => Some(x),
            None => if e.2 == name {
                Some(e)
            } else {
                None
            },
        }),
    decreases u.len(),
{
    if u.len() > 0 {
        assert(u.push(e)[0] == u[0]);
        assert(u.push(e).drop_first() =~= u.drop_first().push(e));
        lemma_find_push(u.drop_first(), e, name);
    } else {
        assert(u.push(e)[0] == e);
        assert(u.push(e).drop_first() =~= Seq::<EntryV>::empty());
        assert(find_entry(Seq::<EntryV>::empty(), name) is None);
    }
}

/// No entry named `name` is left after removing those named `name`; entries of
/// other names are found as before.
pub proof fn lemma_find_removed(v: Seq<EntryV>, name: Seq<char>, other: Seq<char>)
    ensures
        find_entry(remove_named(v, name), name) is None,
        other != name ==> find_entry(remove_named(v, name), other) == find_entry(v, other),
    decreases v.len(),
{
    if v.len() > 0 {
        lemma_find_removed(v.drop_last(), name, other);
        let r = remove_named(v.drop_last(), name);
        lemma_find_push(r, v.last(), name);
        lemma_find_push(r, v.last(), other);
        lemma_find_push(v.drop_last(), v.last(), other);
        assert(v.drop_last().push(v.last()) =~= v);
    }
}

/// Entries are equal as values exactly when their parts are.
fn names_equal(a: &Vec<char>, b: &Vec<char>) -> (r: bool)
    ensures
        r == (a@ == b@),
{
    if a.len() != b.len() {
        return false;
    }
    let mut i: usize = 0;
    while i < a.len()
        invariant
            a.len() == b.len(),
            i <= a.len(),
            a@.subrange(0, i as int) == b@.subrange(0, i as int),
        decreases a.len() - i,
    {
        if a[i] != b[i] {
            return false;
        }
        i = i + 1;
        assert(a@.subrange(0, i as int) =~= a@.subrange(0, i - 1).push(a@[i - 1]));
        assert(b@.subrange(0, i as int) =~= b@.subrange(0, i - 1).push(b@[i - 1]));
    }
    assert(a@ =~= a@.subrange(0, a.len() as int));
    assert(b@ =~= b@.subrange(0, b.len() as int));
    true
}

/// A copy of a list of numbers.
fn copy_usizes(v: &Vec<usize>) -> (r: Vec<usize>)
    ensures
        r@ == v@,
{
    let mut out: Vec<usize> = Vec::new();
    let mut i: usize = 0;
    while i < v.len()
        invariant
            i <= v.len(),
            out@ == v@.subrange(0, i as int),
        decreases v.len() - i,
    {
        out.push(v[i]);
        i = i + 1;
    }
    assert(out@ =~= v@);
    out
}

/// A copy of a name.
fn copy_chars(v: &Vec<char>) -> (r: Vec<char>)
    ensures
        r@ == v@,
{
    let mut out: Vec<char> = Vec::new();
    let mut i: usize = 0;
    while i < v.len()
        invariant
            i <= v.len(),
            out@ == v@.subrange(0, i as int),
        decreases v.len() - i,
    {
        out.push(v[i]);
        i = i + 1;
    }
    assert(out@ =~= v@);
    out
}

/// A copy of an entry.
fn copy_entry(e: &Entry) -> (r: Entry)
    ensures
        entry_view(r) == entry_view(*e),
{
    (copy_usizes(&e.0), e.1, copy_chars(&e.2))
}

/// The first entry of `v` named `name`.
fn find_in<'a>(v: &'a Vec<Entry>, name: &Vec<char>) -> (r: Option<&'a Entry>)
    ensures
        r is None <==> find_entry(v@.map_values(|e: Entry| entry_view(e)), name@) is None,
        r matches Some(e) ==> find_entry(v@.map_values(|e: Entry| entry_view(e)), name@) == Some(entry_view(*e)),
{
    let ghost ev = v@.map_values(|e: Entry| entry_view(e));
    assert(ev.subrange(0, ev.len() as int) =~= ev);
    let mut i: usize = 0;
    while i < v.len()
        invariant
            i <= v.len(),
            ev == v@.map_values(|e: Entry| entry_view(e)),
            find_entry(ev, name@) == find_entry(ev.subrange(i as int, ev.len() as int), name@),
        decreases v.len() - i,
    {
        assert(ev.subrange(i as int, ev.len() as int).drop_first() =~= ev.subrange(i + 1, ev.len() as int));
        if names_equal(&v[i].2, name) {
            return Some(&v[i]);
        }
        i = i + 1;
    }
    None
}

/// Removes the entries of `v` named `name`, keeping the order of the others.
fn remove_entries_named(v: &mut Vec<Entry>, name: &Vec<char>)
    ensures
        final(v)@.map_values(|e: Entry| entry_view(e)) == remove_named(
            old(v)@.map_values(|e: Entry| entry_view(e)),
            name@,
        ),
{
    let ghost ev = old(v)@.map_values(|e: Entry| entry_view(e));
    let mut kept: Vec<Entry> = Vec::new();
    let mut rest: Vec<Entry> = Vec::new();
    std::mem::swap(v, &mut rest);
    let mut i: usize = 0;
    while i < rest.len()
        invariant
            i <= rest.len(),
            ev == rest@.map_values(|e: Entry| entry_view(e)),
            kept@.map_values(|e: Entry| entry_view(e)) == remove_named(ev.subrange(0, i as int), name@),
        decreases rest.len() - i,
    {
        let ghost before = kept@;
        proof {
            let s = ev.subrange(0, i + 1);
            assert(s.drop_last() =~= ev.subrange(0, i as int));
        }
        if !names_equal(&rest[i].2, name) {
            kept.push(copy_entry(&rest[i]));
            assert(kept@.map_values(|e: Entry| entry_view(e)) =~= before.map_values(|e: Entry| entry_view(e)).push(
                ev[i as int],
            ));
        }
        i = i + 1;
    }
    assert(ev.subrange(0, rest.len() as int) =~= ev);
    *v = kept;
}

impl Directory {
    /// A directory of no entries.
    pub fn new() -> (r: Directory)
        ensures
            r@ == empty_dir(),
    {
        let r = Directory { subdirectories: Vec::new(), files: Vec::new() };
        assert(r@.0 =~= Seq::<EntryV>::empty());
        assert(r@.1 =~= Seq::<EntryV>::empty());
        r
    }

    /// The first subdirectory named `name`.
    pub fn get_subdirectory(&self, name: &Vec<char>) -> (r: Option<&Entry>)
        ensures
            r is None <==> find_entry(self@.0, name@) is None,
            r matches Some(e) ==> find_entry(self@.0, name@) == Some(entry_view(*e)),
    {
        find_in(&self.subdirectories, name)
    }

    /// The first file named `name`.
    pub fn get_file(&self, name: &Vec<char>) -> (r: Option<&Entry>)
        ensures
            r is None <==> find_entry(self@.1, name@) is None,
            r matches Some(e) ==> find_entry(self@.1, name@) == Some(entry_view(*e)),
    {
        find_in(&self.files, name)
    }
}

/// Sectors needed for `len` bytes.
pub open spec fn sectors_for(len: nat) -> nat {
    ((len + 511) / 512) as nat
}

/// `secs` lists sector `x`.
pub open spec fn lists(secs: Seq<usize>, x: int) -> bool {
    exists|j: int| 0 <= j < secs.len() && secs[j] as int == x
}

/// The bits `t` with those of the sectors `secs` set to `v`.
pub open spec fn marked(t: Seq<bool>, secs: Seq<usize>, v: bool) -> Seq<bool> {
    Seq::new(t.len(), |x: int| if lists(secs, x) { v } else { t[x] })
}

/// The parts of a directory held in memory fit the encoding.
proof fn lemma_dir_small(d: &Directory)
    ensures
        dir_small(d@),
{
    assert(d@.0.len() == d.subdirectories.len());
    assert(d@.1.len() == d.files.len());
    assert forall|i: int| 0 <= i < d@.0.len() implies crate::disk::serial::entry_small(#[trigger] d@.0[i]) by {
        let e = d.subdirectories@[i];
        assert(e.0@.len() == e.0.len());
        assert(e.2@.len() == e.2.len());
    }
    assert forall|i: int| 0 <= i < d@.1.len() implies crate::disk::serial::entry_small(#[trigger] d@.1[i]) by {
        let e = d.files@[i];
        assert(e.0@.len() == e.0.len());
        assert(e.2@.len() == e.2.len());
    }
}

/// The directory stored in the first `size` bytes of the sectors `sectors`.
fn load_directory(disk: &mut MemoryDisk, sectors: &Vec<usize>, size: usize) -> (r: Directory)
    requires
        old(disk).wf(),
        valid_ref(old(disk).sectors().len(), sectors@, size as nat),
        load_dir(old(disk).sectors(), sectors@, size as nat) is Some,
    ensures
        *final(disk) == *old(disk),
        load_dir(old(disk).sectors(), sectors@, size as nat) == Some(r@),
{
    let data = read_sectors_from_disk(disk, sectors, size);
    match deserialize(&data) {
        Some(d) => d,
        None => Directory::new(),
    }
}

/// Gives back the sectors `sectors`.
fn delete_sectors(disk: &mut MemoryDisk, sectors: &Vec<usize>)
    requires
        old(disk).mounted(),
        sectors@.no_duplicates(),
        forall|i: int| 0 <= i < sectors.len() ==> #[trigger] sectors@[i] < old(disk).sectors().len() && old(disk).taken()[sectors@[i] as int],
    ensures
        final(disk).mounted(),
        final(disk).sectors() == old(disk).sectors(),
        final(disk).drive() == old(disk).drive(),
        final(disk).taken() == marked(old(disk).taken(), sectors@, false),
        zeros(final(disk).taken()).len() == zeros(old(disk).taken()).len() + sectors.len(),
{
    let mut i: usize = 0;
    while i < sectors.len()
        invariant
            disk.mounted(),
            disk.sectors() == old(disk).sectors(),
            disk.drive() == old(disk).drive(),
            i <= sectors.len(),
            sectors@.no_duplicates(),
            forall|j: int| 0 <= j < sectors.len() ==> #[trigger] sectors@[j] < old(disk).sectors().len() && old(disk).taken()[sectors@[j] as int],
            disk.taken() == marked(old(disk).taken(), sectors@.subrange(0, i as int), false),
            zeros(disk.taken()).len() == zeros(old(disk).taken()).len() + i,
        decreases sectors.len() - i,
    {
        proof {
            assert(!lists(sectors@.subrange(0, i as int), sectors@[i as int] as int)) by {
                if lists(sectors@.subrange(0, i as int), sectors@[i as int] as int) {
                    let j = choose|j: int| 0 <= j < i && sectors@.subrange(0, i as int)[j] as int == sectors@[i as int] as int;
                    assert(sectors@[j] == sectors@[i as int]);
                }
            }
        }
        let ghost prev = disk.taken();
        disk.free_sector(sectors[i]);
        proof {
            let s = sectors@.subrange(0, i + 1);
            let s0 = sectors@.subrange(0, i as int);
            assert forall|x: int| 0 <= x < disk.taken().len() implies disk.taken()[x] == marked(old(disk).taken(), s, false)[x] by {
                if lists(s, x) && x != sectors@[i as int] {
                    let j = choose|j: int| 0 <= j < s.len() && s[j] as int == x;
                    assert(s0[j] as int == x);
                }
                if lists(s0, x) {
                    let j = choose|j: int| 0 <= j < s0.len() && s0[j] as int == x;
                    assert(s[j] as int == x);
                }
                if x == sectors@[i as int] {
                    assert(s[i as int] as int == x);
                }
            }
            assert(disk.taken() =~= marked(old(disk).taken(), s, false));
        }
        i = i + 1;
    }
    assert(sectors@.subrange(0, sectors.len() as int) =~= sectors@);
}

/// Takes `num` free sectors; gives them back in the order taken.
fn alloc_sectors(disk: &mut MemoryDisk, num: usize) -> (r: Vec<usize>)
    requires
        old(disk).mounted(),
        zeros(old(disk).taken()).len() >= num,
    ensures
        final(disk).mounted(),
        final(disk).drive() == old(disk).drive(),
        final(disk).sectors() == old(disk).sectors(),
        r.len() == num,
        r@.no_duplicates(),
        forall|j: int| 0 <= j < r.len() ==> #[trigger] r@[j] < old(disk).sectors().len() && !old(disk).taken()[r@[j] as int],
        final(disk).taken() == marked(old(disk).taken(), r@, true),
        zeros(final(disk).taken()).len() == zeros(old(disk).taken()).len() - num,
{
    let mut sectors: Vec<usize> = Vec::new();
    let mut i: usize = 0;
    while i < num
        invariant
            disk.mounted(),
            disk.drive() == old(disk).drive(),
            disk.sectors() == old(disk).sectors(),
            i <= num,
            zeros(old(disk).taken()).len() >= num,
            sectors.len() == i,
            sectors@.no_duplicates(),
            forall|j: int| 0 <= j < i ==> #[trigger] sectors@[j] < old(disk).sectors().len() && !old(disk).taken()[sectors@[j] as int],
            disk.taken() == marked(old(disk).taken(), sectors@, true),
            zeros(disk.taken()).len() == zeros(old(disk).taken()).len() - i,
        decreases num - i,
    {
        let s = disk.alloc_sector();
        proof {
            assert(!sectors@.contains(s)) by {
                if sectors@.contains(s) {
                    let j = choose|j: int| 0 <= j < sectors.len() && sectors@[j] == s;
                    assert(lists(sectors@, s as int));
                }
            }
        }
        let ghost before = sectors@;
        sectors.push(s);
        proof {
            assert forall|x: int| 0 <= x < disk.taken().len() implies disk.taken()[x] == marked(old(disk).taken(), sectors@, true)[x] by {
                if lists(before, x) {
                    let j = choose|j: int| 0 <= j < before.len() && before[j] as int == x;
                    assert(sectors@[j] as int == x);
                }
                if lists(sectors@, x) && x != s {
                    let j = choose|j: int| 0 <= j < sectors@.len() && sectors@[j] as int == x;
                    assert(before[j] as int == x);
                }
                if x == s {
                    assert(sectors@[i as int] as int == x);
                }
            }
            assert(disk.taken() =~= marked(old(disk).taken(), sectors@, true));
        }
        i = i + 1;
    }
    sectors
}

/// Stores `dir` in newly taken sectors; gives back the sectors and the size in bytes.
fn store_directory(disk: &mut MemoryDisk, dir: &Directory) -> (r: (Vec<usize>, usize))
    requires
        old(disk).mounted(),
        zeros(old(disk).taken()).len() >= sectors_for(enc_dir(dir@).len()),
    ensures
        final(disk).mounted(),
        final(disk).drive() == old(disk).drive(),
        r.1 == enc_dir(dir@).len(),
        r.0.len() == sectors_for(r.1 as nat),
        valid_ref(old(disk).sectors().len(), r.0@, r.1 as nat),
        r.0@.no_duplicates(),
        forall|i: int| 0 <= i < r.0.len() ==> !old(disk).taken()[#[trigger] r.0@[i] as int],
        final(disk).taken() == marked(old(disk).taken(), r.0@, true),
        zeros(final(disk).taken()).len() == zeros(old(disk).taken()).len() - r.0.len(),
        final(disk).sectors().len() == old(disk).sectors().len(),
        forall|x: int| 0 <= x < old(disk).sectors().len() && !lists(r.0@, x) ==> #[trigger] final(disk).sectors()[x] == old(disk).sectors()[x],
        load_dir(final(disk).sectors(), r.0@, r.1 as nat) == Some(dir@),
{
    let data = serialize(dir);
    let size = data.len();
    let num = size / SECTOR_SIZE + if size % SECTOR_SIZE == 0 { 0 } else { 1 };
    assert(num == sectors_for(size as nat));
    let sectors = alloc_sectors(disk, num);
    proof {
        crate::disk::serial::lemma_enc_dir_len(dir@);
    }
    let ghost mid = disk.sectors();
    write_to_sectors_on_disk(disk, &sectors, &data);
    proof {
        lemma_write_chunks(mid, sectors@, data@);
        lemma_written_reads_back(mid, sectors@, data@);
        lemma_dir_small(dir);
        assert(data@.subrange(0, data@.len() as int) =~= data@);
        lemma_dir_reads_back(dir@, data@, 0);
    }
    (sectors, size)
}

/// The reference to the root directory held in the head sector, where it holds one.
pub open spec fn root_ref(sectors: Seq<Seq<u8>>) -> Option<(Seq<usize>, usize)> {
    if sectors.len() >= 1 && head_len(sectors[0]) <= 508 {
        match dec_ref(head_bytes(sectors[0]), 0) {
            Some((r, _)) => Some(r),
            None => None,
        }
    } else {
        None
    }
}

/// The root directory, where the disk holds a sound one.
pub open spec fn root_dir(sectors: Seq<Seq<u8>>) -> Option<DirV> {
    match root_ref(sectors) {
        Some((secs, size)) => if valid_ref(sectors.len(), secs, size as nat) {
            load_dir(sectors, secs, size as nat)
        } else {
            None
        },
        None => None,
    }
}

/// The root directory of the disk.
fn get_root(disk: &mut MemoryDisk) -> (r: Directory)
    requires
        old(disk).mounted(),
        root_dir(old(disk).sectors()) is Some,
    ensures
        *final(disk) == *old(disk),
        root_dir(old(disk).sectors()) == Some(r@),
{
    let head = disk.get_head();
    match deserialize_ref(&head) {
        Some((sectors, size)) => load_directory(disk, &sectors, size),
        None => Directory::new(),
    }
}

/// Stores `root` in newly taken sectors and makes it the root directory.
fn set_root(disk: &mut MemoryDisk, root: &Directory) -> (r: (Vec<usize>, usize))
    requires
        old(disk).mounted(),
        old(disk).taken()[0],
        zeros(old(disk).taken()).len() >= sectors_for(enc_dir(root@).len()),
        sectors_for(enc_dir(root@).len()) <= 61,
    ensures
        final(disk).mounted(),
        final(disk).drive() == old(disk).drive(),
        r.1 == enc_dir(root@).len(),
        r.0.len() == sectors_for(r.1 as nat),
        valid_ref(old(disk).sectors().len(), r.0@, r.1 as nat),
        r.0@.no_duplicates(),
        forall|i: int| 0 <= i < r.0.len() ==> !old(disk).taken()[#[trigger] r.0@[i] as int],
        final(disk).taken() == marked(old(disk).taken(), r.0@, true),
        zeros(final(disk).taken()).len() == zeros(old(disk).taken()).len() - r.0.len(),
        final(disk).sectors().len() == old(disk).sectors().len(),
        forall|x: int| 0 < x < old(disk).sectors().len() && !lists(r.0@, x) ==> #[trigger] final(disk).sectors()[x] == old(disk).sectors()[x],
        root_ref(final(disk).sectors()) == Some((r.0@, r.1)),
        root_dir(final(disk).sectors()) == Some(root@),
{
    let (sectors, size) = store_directory(disk, root);
    let head = serialize_ref(&sectors, size);
    proof {
        lemma_enc_ref_len(sectors@, size);
    }
    let ghost mid = disk.sectors();
    disk.set_head(&head);
    proof {
        lemma_head_round_trip(head@);
        assert(head@.subrange(0, head@.len() as int) =~= head@);
        lemma_ref_reads_back(sectors@, size, head@, 0);
        assert forall|i: int| 0 <= i < sectors.len() implies disk.sectors()[#[trigger] sectors@[i] as int] == mid[sectors@[i] as int] by {
            assert(sectors@[i] != 0);
        }
        lemma_read_frame(disk.sectors(), mid, sectors@, size as nat);
    }
    (sectors, size)
}

/// `p` split at each slash.
pub open spec fn split_slash(p: Seq<char>) -> Seq<Seq<char>>
    decreases p.len(),
{
    if p.len() == 0 {
        seq![Seq::empty()]
    } else if p.last() == '/' {
        split_slash(p.drop_last()).push(Seq::empty())
    } else {
        let s = split_slash(p.drop_last());
        s.update(s.len() - 1, s.last().push(p.last()))
    }
}

/// The names of `v` that are not empty, in order.
pub open spec fn nonempty(v: Seq<Seq<char>>) -> Seq<Seq<char>>
    decreases v.len(),
{
    if v.len() == 0 {
        v
    } else if v.last().len() > 0 {
        nonempty(v.drop_last()).push(v.last())
    } else {
        nonempty(v.drop_last())
    }
}

/// The names in `parts` with "." dropped and each ".." taking back the name before it.
pub open spec fn resolve(parts: Seq<Seq<char>>) -> Seq<Seq<char>>
    decreases parts.len(),
{
    if parts.len() == 0 {
        parts
    } else {
        let r = resolve(parts.drop_last());
        let c = parts.last();
        if c == seq!['.'] {
            r
        } else if c == seq!['.', '.'] {
            if r.len() > 0 {
                r.drop_last()
            } else {
                r
            }
        } else {
            r.push(c)
        }
    }
}

/// The directory names along the path `p`: its parts between slashes, with "."
/// and ".." resolved.
pub open spec fn parse(p: Seq<char>) -> Seq<Seq<char>> {
    resolve(nonempty(split_slash(p)))
}

/// The names held in a list of names.
pub open spec fn names_view(v: Seq<Vec<char>>) -> Seq<Seq<char>> {
    v.map_values(|n: Vec<char>| n@)
}

/// The parts of `path` between slashes, dropping empty ones.
fn split_path(path: &Vec<char>) -> (r: Vec<Vec<char>>)
    ensures
        names_view(r@) == nonempty(split_slash(path@)),
{
    let mut res: Vec<Vec<char>> = Vec::new();
    let mut curr: Vec<char> = Vec::new();
    let mut i: usize = 0;
    while i < path.len()
        invariant
            i <= path.len(),
            split_slash(path@.subrange(0, i as int)).len() >= 1,
            names_view(res@) == nonempty(split_slash(path@.subrange(0, i as int)).drop_last()),
            curr@ == split_slash(path@.subrange(0, i as int)).last(),
        decreases path.len() - i,
    {
        let c = path[i];
        let ghost before = path@.subrange(0, i as int);
        let ghost sp = split_slash(before);
        proof {
            assert(path@.subrange(0, i + 1).drop_last() =~= before);
        }
        if c == '/' {
            if curr.len() > 0 {
                let ghost r0 = res@;
                res.push(curr);
                assert(names_view(res@) =~= names_view(r0).push(sp.last()));
            }
            curr = Vec::new();
            proof {
                assert(split_slash(path@.subrange(0, i + 1)) == sp.push(Seq::empty()));
                assert(sp.push(Seq::<char>::empty()).drop_last() =~= sp);
                assert(sp.drop_last().push(sp.last()) =~= sp);
                assert(curr@ =~= Seq::<char>::empty());
            }
        } else {
            curr.push(c);
            proof {
                let sp2 = sp.update(sp.len() - 1, sp.last().push(c));
                assert(split_slash(path@.subrange(0, i + 1)) == sp2);
                assert(sp2.drop_last() =~= sp.drop_last());
            }
        }
        i = i + 1;
    }
    proof {
        assert(path@.subrange(0, path.len() as int) =~= path@);
        let sp = split_slash(path@);
        assert(sp.drop_last().push(sp.last()) =~= sp);
    }
    if curr.len() > 0 {
        let ghost r0 = res@;
        res.push(curr);
        assert(names_view(res@) =~= names_view(r0).push(split_slash(path@).last()));
    }
    res
}

/// The directory names along the path `path`: its parts between slashes, with "."
/// dropped and ".." taking back the name before it.
pub fn parse_path(path: &Vec<char>) -> (r: Vec<Vec<char>>)
    ensures
        names_view(r@) == parse(path@),
{
    let parts = split_path(path);
    let ghost pv = names_view(parts@);
    let dot: Vec<char> = vec!['.'];
    let dotdot: Vec<char> = vec!['.', '.'];
    proof {
        assert(dot@ =~= seq!['.']);
        assert(dotdot@ =~= seq!['.', '.']);
    }
    let mut res2: Vec<Vec<char>> = Vec::new();
    let mut i: usize = 0;
    while i < parts.len()
        invariant
            i <= parts.len(),
            pv == names_view(parts@),
            dot@ == seq!['.'],
            dotdot@ == seq!['.', '.'],
            names_view(res2@) == resolve(pv.subrange(0, i as int)),
        decreases parts.len() - i,
    {
        proof {
            assert(pv.subrange(0, i + 1).drop_last() =~= pv.subrange(0, i as int));
        }
        let ghost r0 = res2@;
        if names_equal(&parts[i], &dot) {
        } else if names_equal(&parts[i], &dotdot) {
            if res2.len() > 0 {
                res2.pop();
                assert(names_view(res2@) =~= names_view(r0).drop_last());
            }
        } else {
            res2.push(copy_chars(&parts[i]));
            assert(names_view(res2@) =~= names_view(r0).push(pv[i as int]));
        }
        i = i + 1;
    }
    assert(pv.subrange(0, parts.len() as int) =~= pv);
    res2
}

/// The directory an entry refers to can be read.
pub open spec fn entry_sound(sectors: Seq<Seq<u8>>, e: EntryV) -> bool {
    valid_ref(sectors.len(), e.0, e.1 as nat) && load_dir(sectors, e.0, e.1 as nat) is Some
}

/// The directory an entry refers to.
pub open spec fn entry_dir(sectors: Seq<Seq<u8>>, e: EntryV) -> DirV {
    match load_dir(sectors, e.0, e.1 as nat) {
        Some(d) => d,
        None => empty_dir(),
    }
}

/// Looking `path` up from the directory `d`: `Some(Some(x))` for the directory
/// found, `Some(None)` where a name on the way is missing, `None` where an entry on
/// the way cannot be read.
pub open spec fn walk(sectors: Seq<Seq<u8>>, d: DirV, path: Seq<Seq<char>>) -> Option<Option<DirV>>
    decreases path.len(),
{
    if path.len() == 0 {
        Some(Some(d))
    } else {
        match find_entry(d.0, path[0]) {
            None => Some(None),
            Some(e) => if entry_sound(sectors, e) {
                walk(sectors, entry_dir(sectors, e), path.drop_first())
            } else {
                None
            },
        }
    }
}

/// Looking `path` up from the root directory.
pub open spec fn lookup(sectors: Seq<Seq<u8>>, path: Seq<Seq<char>>) -> Option<Option<DirV>> {
    match root_dir(sectors) {
        Some(root) => walk(sectors, root, path),
        None => None,
    }
}

/// The directory found by following `path` from `d`, or `None` where a name is missing.
fn walk_down(disk: &mut MemoryDisk, d: Directory, path: &Vec<Vec<char>>) -> (r: Option<Directory>)
    requires
        old(disk).mounted(),
        walk(old(disk).sectors(), d@, names_view(path@)) is Some,
    ensures
        *final(disk) == *old(disk),
        walk(old(disk).sectors(), d@, names_view(path@)) == Some(
            match r {
                Some(x) => Some(x@),
                None => None::<DirV>,
            },
        ),
{
    let ghost pv = names_view(path@);
    let ghost sectors = disk.sectors();
    let mut cur = d;
    assert(pv.subrange(0, pv.len() as int) =~= pv);
    let mut i: usize = 0;
    while i < path.len()
        invariant
            *disk == *old(disk),
            sectors == disk.sectors(),
            disk.mounted(),
            pv == names_view(path@),
            i <= path.len(),
            walk(sectors, d@, pv) == walk(sectors, cur@, pv.subrange(i as int, pv.len() as int)),
            walk(sectors, d@, pv) is Some,
        decreases path.len() - i,
    {
        let ghost rest = pv.subrange(i as int, pv.len() as int);
        proof {
            assert(rest.drop_first() =~= pv.subrange(i + 1, pv.len() as int));
            assert(rest[0] == path@[i as int]@);
        }
        let next = match cur.get_subdirectory(&path[i]) {
            None => {
                return None;
            },
            Some(e) => {
                let secs = copy_usizes(&e.0);
                let size = e.1;
                load_directory(disk, &secs, size)
            },
        };
        cur = next;
        i = i + 1;
    }
    proof {
        assert(pv.subrange(path.len() as int, pv.len() as int) =~= Seq::<Seq<char>>::empty());
    }
    Some(cur)
}

/// Whether `path` names a directory.
pub fn is_directory(disk: &mut MemoryDisk, path: &Vec<char>) -> (r: bool)
    requires
        old(disk).mounted(),
        lookup(old(disk).sectors(), parse(path@)) is Some,
    ensures
        *final(disk) == *old(disk),
        r == (lookup(old(disk).sectors(), parse(path@)) matches Some(Some(_))),
{
    let root = get_root(disk);
    let parts = parse_path(path);
    match walk_down(disk, root, &parts) {
        Some(_) => true,
        None => false,
    }
}

/// Whether `path` names a file.
pub fn is_file(disk: &mut MemoryDisk, path: &Vec<char>) -> (r: bool)
    requires
        old(disk).mounted(),
        parse(path@).len() >= 1,
        lookup(old(disk).sectors(), parse(path@).drop_last()) is Some,
    ensures
        *final(disk) == *old(disk),
        r == (lookup(old(disk).sectors(), parse(path@).drop_last()) matches Some(Some(d)) && find_entry(
            d.1,
            parse(path@).last(),
        ) is Some),
{
    let root = get_root(disk);
    let mut parts = parse_path(path);
    let ghost pv = names_view(parts@);
    let file_name = match parts.pop() {
        Some(n) => n,
        None => Vec::new(),
    };
    proof {
        assert(names_view(parts@) =~= pv.drop_last());
    }
    match walk_down(disk, root, &parts) {
        Some(parent) => parent.get_file(&file_name).is_some(),
        None => false,
    }
}

/// The directories met going down `path` from `d`, each without its entries named
/// like the next step; a missing directory is met as an empty one.
pub open spec fn descend(sectors: Seq<Seq<u8>>, d: DirV, path: Seq<Seq<char>>) -> Seq<DirV>
    decreases path.len(),
{
    if path.len() == 0 {
        seq![d]
    } else {
        let child = match find_entry(d.0, path[0]) {
            Some(e) => entry_dir(sectors, e),
            None => empty_dir(),
        };
        seq![(remove_named(d.0, path[0]), d.1)] + descend(sectors, child, path.drop_first())
    }
}

/// Going down `path` from `d` reads sound entries only, and each entry met has
/// distinct sectors, taken in `taken` and lying after the first `reserved + 1`,
/// none of them met before.
pub open spec fn descend_ok(sectors: Seq<Seq<u8>>, taken: Seq<bool>, reserved: int, d: DirV, path: Seq<Seq<char>>) -> bool
    decreases path.len(),
{
    path.len() == 0 || match find_entry(d.0, path[0]) {
        None => descend_ok(sectors, taken, reserved, empty_dir(), path.drop_first()),
        Some(e) => {
            &&& entry_sound(sectors, e)
            &&& e.0.no_duplicates()
            &&& forall|i: int| 0 <= i < e.0.len() ==> reserved < #[trigger] e.0[i] && taken[e.0[i] as int]
            &&& descend_ok(sectors, marked(taken, e.0, false), reserved, entry_dir(sectors, e), path.drop_first())
        },
    }
}

/// Sectors given back going down `path` from `d`.
pub open spec fn descend_freed(sectors: Seq<Seq<u8>>, d: DirV, path: Seq<Seq<char>>) -> nat
    decreases path.len(),
{
    if path.len() == 0 {
        0
    } else {
        match find_entry(d.0, path[0]) {
            None => descend_freed(sectors, empty_dir(), path.drop_first()),
            Some(e) => e.0.len() + descend_freed(sectors, entry_dir(sectors, e), path.drop_first()),
        }
    }
}

/// The taken sectors after going down `path` from `d`, giving back the sectors of
/// each directory met below `d`.
pub open spec fn descend_taken(sectors: Seq<Seq<u8>>, taken: Seq<bool>, d: DirV, path: Seq<Seq<char>>) -> Seq<bool>
    decreases path.len(),
{
    if path.len() == 0 {
        taken
    } else {
        match find_entry(d.0, path[0]) {
            None => descend_taken(sectors, taken, empty_dir(), path.drop_first()),
            Some(e) => descend_taken(sectors, marked(taken, e.0, false), entry_dir(sectors, e), path.drop_first()),
        }
    }
}

/// The values of a list of directories.
pub open spec fn dirs_view(v: Seq<Directory>) -> Seq<DirV> {
    v.map_values(|d: Directory| d@)
}

/// Goes down `path` from `root`, taking each directory met out of its parent and
/// giving back its sectors; a missing directory is met as an empty one. Gives back
/// the directories met.
fn descend_dirs(disk: &mut MemoryDisk, root: Directory, path: &Vec<Vec<char>>) -> (r: Vec<Directory>)
    requires
        old(disk).mounted(),
        descend_ok(old(disk).sectors(), old(disk).taken(), old(disk).spec_bitmap_sectors(), root@, names_view(path@)),
    ensures
        final(disk).mounted(),
        final(disk).sectors() == old(disk).sectors(),
        final(disk).drive() == old(disk).drive(),
        dirs_view(r@) == descend(old(disk).sectors(), root@, names_view(path@)),
        zeros(final(disk).taken()).len() == zeros(old(disk).taken()).len() + descend_freed(
            old(disk).sectors(),
            root@,
            names_view(path@),
        ),
        final(disk).taken().len() == old(disk).taken().len(),
        forall|x: int| 0 <= x <= old(disk).spec_bitmap_sectors() ==> #[trigger] final(disk).taken()[x] == old(disk).taken()[x],
        final(disk).taken() == descend_taken(old(disk).sectors(), old(disk).taken(), root@, names_view(path@)),
{
    let ghost pv = names_view(path@);
    let ghost sectors = disk.sectors();
    let ghost k = disk.spec_bitmap_sectors();
    let ghost z0 = zeros(disk.taken()).len();
    let mut dirs: Vec<Directory> = Vec::new();
    let mut cur = root;
    assert(pv.subrange(0, pv.len() as int) =~= pv);
    let mut i: usize = 0;
    while i < path.len()
        invariant
            disk.mounted(),
            disk.sectors() == sectors,
            disk.drive() == old(disk).drive(),
            k == disk.spec_bitmap_sectors(),
            pv == names_view(path@),
            i <= path.len(),
            dirs.len() == i,
            descend(sectors, root@, pv) == dirs_view(dirs@) + descend(sectors, cur@, pv.subrange(i as int, pv.len() as int)),
            descend_ok(sectors, disk.taken(), k, cur@, pv.subrange(i as int, pv.len() as int)),
            z0 + descend_freed(sectors, root@, pv) == zeros(disk.taken()).len() + descend_freed(
                sectors,
                cur@,
                pv.subrange(i as int, pv.len() as int),
            ),
            disk.taken().len() == old(disk).taken().len(),
            forall|x: int| 0 <= x <= k ==> #[trigger] disk.taken()[x] == old(disk).taken()[x],
            descend_taken(sectors, disk.taken(), cur@, pv.subrange(i as int, pv.len() as int)) == descend_taken(
                sectors,
                old(disk).taken(),
                root@,
                pv,
            ),
        decreases path.len() - i,
    {
        let ghost rest = pv.subrange(i as int, pv.len() as int);
        proof {
            assert(rest.drop_first() =~= pv.subrange(i + 1, pv.len() as int));
            assert(rest[0] == path@[i as int]@);
        }
        let ghost t0 = disk.taken();
        let found = match cur.get_subdirectory(&path[i]) {
            Some(e) => Some(copy_entry(e)),
            None => None,
        };
        remove_entries_named(&mut cur.subdirectories, &path[i]);
        let next = match found {
            Some(e) => {
                let child = load_directory(disk, &e.0, e.1);
                delete_sectors(disk, &e.0);
                proof {
                    assert forall|x: int| 0 <= x <= k implies #[trigger] disk.taken()[x] == old(disk).taken()[x] by {
                        if lists(e.0@, x) {
                            let j = choose|j: int| 0 <= j < e.0@.len() && e.0@[j] as int == x;
                        }
                    }
                }
                child
            },
            None => Directory::new(),
        };
        let ghost d0 = dirs_view(dirs@);
        dirs.push(cur);
        proof {
            assert(dirs_view(dirs@) =~= d0.push(dirs@[i as int]@));
            let tail = descend(sectors, next@, pv.subrange(i + 1, pv.len() as int));
            assert(descend(sectors, root@, pv) =~= dirs_view(dirs@) + tail);
        }
        cur = next;
        i = i + 1;
    }
    let ghost d0 = dirs_view(dirs@);
    proof {
        assert(pv.subrange(path.len() as int, pv.len() as int) =~= Seq::<Seq<char>>::empty());
    }
    dirs.push(cur);
    proof {
        assert(dirs_view(dirs@) =~= d0.push(dirs@[path.len() as int]@));
        assert(descend(sectors, root@, pv) =~= dirs_view(dirs@));
    }
    dirs
}

/// Bytes of directory `d` once a subdirectory entry named `name`, referring to a
/// directory of `child` bytes, is appended.
pub open spec fn level_len(d: DirV, name: Seq<char>, child: nat) -> nat {
    enc_dir(d).len() + 24 + 8 * sectors_for(child) + 4 * name.len()
}

/// Bytes of the top directory of the chain `dirs` along `path`, the bottom one
/// taking `bottom` bytes.
pub open spec fn up_len(dirs: Seq<DirV>, path: Seq<Seq<char>>, bottom: nat) -> nat
    decreases path.len(),
{
    if path.len() == 0 {
        bottom
    } else {
        up_len(dirs, path.drop_last(), level_len(dirs[path.len() - 1], path.last(), bottom))
    }
}

/// Sectors taken by storing the chain `dirs` along `path`, the bottom one taking
/// `bottom` bytes.
pub open spec fn up_need(dirs: Seq<DirV>, path: Seq<Seq<char>>, bottom: nat) -> nat
    decreases path.len(),
{
    if path.len() == 0 {
        sectors_for(bottom)
    } else {
        sectors_for(bottom) + up_need(dirs, path.drop_last(), level_len(dirs[path.len() - 1], path.last(), bottom))
    }
}

/// `d` heads the chain `dirs` along `path` as stored: each level is the directory of
/// `dirs` with one more subdirectory entry, named like the next step and referring
/// to the next level in sectors after the first `reserved + 1`.
pub open spec fn chain_ok(sectors: Seq<Seq<u8>>, reserved: int, d: DirV, dirs: Seq<DirV>, path: Seq<Seq<char>>) -> bool
    decreases path.len(),
{
    if path.len() == 0 {
        dirs.len() == 1 && d == dirs[0]
    } else {
        &&& dirs.len() == path.len() + 1
        &&& d.1 == dirs[0].1
        &&& d.0.len() >= 1
        &&& d.0.drop_last() == dirs[0].0
        &&& d.0.last().2 == path[0]
        &&& entry_sound(sectors, d.0.last())
        &&& forall|i: int| 0 <= i < d.0.last().0.len() ==> reserved < #[trigger] d.0.last().0[i]
        &&& chain_ok(sectors, reserved, entry_dir(sectors, d.0.last()), dirs.drop_first(), path.drop_first())
    }
}

/// The sectors of the chain headed by `d` along `path` are taken.
pub open spec fn chain_taken(sectors: Seq<Seq<u8>>, taken: Seq<bool>, d: DirV, path: Seq<Seq<char>>) -> bool
    decreases path.len(),
{
    path.len() == 0 || {
        &&& forall|i: int| 0 <= i < d.0.last().0.len() ==> #[trigger] d.0.last().0[i] < taken.len() && taken[d.0.last().0[i] as int]
        &&& chain_taken(sectors, taken, entry_dir(sectors, d.0.last()), path.drop_first())
    }
}

/// Sectors `a` and `b` agree on the taken sectors after the first `reserved + 1`.
pub open spec fn agree_above(a: Seq<Seq<u8>>, b: Seq<Seq<u8>>, taken: Seq<bool>, reserved: int) -> bool {
    &&& a.len() == b.len()
    &&& forall|x: int| reserved < x < a.len() && x < taken.len() && taken[x] ==> #[trigger] a[x] == b[x]
}

/// A stored chain stays as it is where only sectors not taken change.
pub proof fn lemma_chain_frame(
    a: Seq<Seq<u8>>,
    b: Seq<Seq<u8>>,
    taken: Seq<bool>,
    reserved: int,
    d: DirV,
    dirs: Seq<DirV>,
    path: Seq<Seq<char>>,
)
    requires
        chain_ok(a, reserved, d, dirs, path),
        chain_taken(a, taken, d, path),
        taken.len() == a.len(),
        agree_above(a, b, taken, reserved),
    ensures
        chain_ok(b, reserved, d, dirs, path),
        chain_taken(b, taken, d, path),
    decreases path.len(),
{
    if path.len() > 0 {
        let e = d.0.last();
        assert forall|i: int| 0 <= i < e.0.len() implies a[#[trigger] e.0[i] as int] == b[e.0[i] as int] by {
            assert(taken[e.0[i] as int]);
        }
        lemma_read_frame(a, b, e.0, e.1 as nat);
        lemma_chain_frame(a, b, taken, reserved, entry_dir(a, e), dirs.drop_first(), path.drop_first());
    }
}

/// More taken sectors keep a chain's sectors taken.
pub proof fn lemma_chain_taken_grow(sectors: Seq<Seq<u8>>, t1: Seq<bool>, t2: Seq<bool>, d: DirV, path: Seq<Seq<char>>)
    requires
        chain_taken(sectors, t1, d, path),
        t1.len() == t2.len(),
        forall|x: int| 0 <= x < t1.len() && #[trigger] t1[x] ==> t2[x],
    ensures
        chain_taken(sectors, t2, d, path),
    decreases path.len(),
{
    if path.len() > 0 {
        let e = d.0.last();
        assert forall|i: int| 0 <= i < e.0.len() implies #[trigger] e.0[i] < t2.len() && t2[e.0[i] as int] by {
            assert(t1[e.0[i] as int]);
        }
        lemma_chain_taken_grow(sectors, t1, t2, entry_dir(sectors, e), path.drop_first());
    }
}

/// No directory of `dirs` holds a subdirectory entry named like the next step of `path`.
pub open spec fn names_fresh(dirs: Seq<DirV>, path: Seq<Seq<char>>) -> bool {
    forall|j: int| 0 <= j < path.len() ==> find_entry(#[trigger] dirs[j].0, path[j]) is None
}

/// Following a stored chain whose appended entries are the only ones of their names
/// finds its last directory.
pub proof fn lemma_chain_walk(sectors: Seq<Seq<u8>>, reserved: int, d: DirV, dirs: Seq<DirV>, path: Seq<Seq<char>>)
    requires
        chain_ok(sectors, reserved, d, dirs, path),
        names_fresh(dirs, path),
    ensures
        walk(sectors, d, path) == Some(Some(dirs.last())),
    decreases path.len(),
{
    if path.len() > 0 {
        assert(names_fresh(dirs.drop_first(), path.drop_first())) by {
            assert forall|j: int| 0 <= j < path.drop_first().len() implies find_entry(#[trigger] dirs.drop_first()[j].0, path.drop_first()[j]) is None by {
                assert(dirs.drop_first()[j] == dirs[j + 1]);
                assert(path.drop_first()[j] == path[j + 1]);
            }
        }
        lemma_chain_walk(sectors, reserved, entry_dir(sectors, d.0.last()), dirs.drop_first(), path.drop_first());
        assert(dirs.drop_first().last() == dirs.last());
        assert(d.0 =~= dirs[0].0.push(d.0.last()));
        lemma_find_push(dirs[0].0, d.0.last(), path[0]);
    }
}

/// Along a stored chain, every prefix of the path leads to a directory.
pub proof fn lemma_chain_prefixes(sectors: Seq<Seq<u8>>, reserved: int, d: DirV, dirs: Seq<DirV>, path: Seq<Seq<char>>, k: int)
    requires
        chain_ok(sectors, reserved, d, dirs, path),
        names_fresh(dirs, path),
        0 <= k <= path.len(),
    ensures
        walk(sectors, d, path.subrange(0, k)) matches Some(Some(_)),
    decreases k,
{
    if k > 0 {
        assert(names_fresh(dirs.drop_first(), path.drop_first())) by {
            assert forall|j: int| 0 <= j < path.drop_first().len() implies find_entry(#[trigger] dirs.drop_first()[j].0, path.drop_first()[j]) is None by {
                assert(dirs.drop_first()[j] == dirs[j + 1]);
                assert(path.drop_first()[j] == path[j + 1]);
            }
        }
        lemma_chain_prefixes(sectors, reserved, entry_dir(sectors, d.0.last()), dirs.drop_first(), path.drop_first(), k - 1);
        assert(d.0 =~= dirs[0].0.push(d.0.last()));
        lemma_find_push(dirs[0].0, d.0.last(), path[0]);
        assert(path.subrange(0, k).drop_first() =~= path.drop_first().subrange(0, k - 1));
        assert(path.subrange(0, k)[0] == path[0]);
    }
}

/// The first `reserved + 1` sectors, the head and the bitmap, are taken.
pub open spec fn reserved_taken(taken: Seq<bool>, reserved: int) -> bool {
    forall|x: int| 0 <= x <= reserved && x < taken.len() ==> #[trigger] taken[x]
}

/// One level more of a stored chain: the directory `parent` of `dirs` with the entry
/// `e` for the chain below it appended.
proof fn lemma_chain_step(
    s_prev: Seq<Seq<u8>>,
    s_new: Seq<Seq<u8>>,
    t_prev: Seq<bool>,
    t_new: Seq<bool>,
    reserved: int,
    cur: DirV,
    e: EntryV,
    dirs: Seq<DirV>,
    path: Seq<Seq<char>>,
)
    requires
        path.len() >= 1,
        dirs.len() == path.len() + 1,
        chain_ok(s_prev, reserved, cur, dirs.drop_first(), path.drop_first()),
        chain_taken(s_prev, t_prev, cur, path.drop_first()),
        t_prev.len() == s_prev.len(),
        t_new.len() == t_prev.len(),
        agree_above(s_prev, s_new, t_prev, reserved),
        forall|x: int| 0 <= x < t_prev.len() && #[trigger] t_prev[x] ==> t_new[x],
        entry_sound(s_new, e),
        entry_dir(s_new, e) == cur,
        forall|i: int| 0 <= i < e.0.len() ==> reserved < #[trigger] e.0[i] && e.0[i] < t_new.len() && t_new[e.0[i] as int],
        e.2 == path[0],
    ensures
        chain_ok(s_new, reserved, (dirs[0].0.push(e), dirs[0].1), dirs, path),
        chain_taken(s_new, t_new, (dirs[0].0.push(e), dirs[0].1), path),
{
    lemma_chain_frame(s_prev, s_new, t_prev, reserved, cur, dirs.drop_first(), path.drop_first());
    lemma_chain_taken_grow(s_new, t_prev, t_new, cur, path.drop_first());
    let d = (dirs[0].0.push(e), dirs[0].1);
    assert(d.0.drop_last() =~= dirs[0].0);
    assert(d.0.last() == e);
}

/// Stores `cur` in newly taken sectors and appends to `parent` a subdirectory entry
/// named `name` for it.
fn store_level(disk: &mut MemoryDisk, cur: &Directory, parent: Directory, name: &Vec<char>) -> (r: Directory)
    requires
        old(disk).mounted(),
        reserved_taken(old(disk).taken(), old(disk).spec_bitmap_sectors()),
        zeros(old(disk).taken()).len() >= sectors_for(enc_dir(cur@).len()),
    ensures
        final(disk).mounted(),
        final(disk).drive() == old(disk).drive(),
        final(disk).sectors().len() == old(disk).sectors().len(),
        r@.1 == parent@.1,
        r@.0.len() == parent@.0.len() + 1,
        r@.0.drop_last() == parent@.0,
        r@.0.last().2 == name@,
        enc_dir(r@).len() == level_len(parent@, name@, enc_dir(cur@).len()),
        entry_sound(final(disk).sectors(), r@.0.last()),
        entry_dir(final(disk).sectors(), r@.0.last()) == cur@,
        forall|i: int| 0 <= i < r@.0.last().0.len() ==> {
            &&& old(disk).spec_bitmap_sectors() < #[trigger] r@.0.last().0[i]
            &&& r@.0.last().0[i] < final(disk).taken().len()
            &&& final(disk).taken()[r@.0.last().0[i] as int]
        },
        reserved_taken(final(disk).taken(), old(disk).spec_bitmap_sectors()),
        final(disk).taken().len() == old(disk).taken().len(),
        forall|x: int| 0 <= x < old(disk).taken().len() && #[trigger] old(disk).taken()[x] ==> final(disk).taken()[x],
        zeros(final(disk).taken()).len() == zeros(old(disk).taken()).len() - sectors_for(enc_dir(cur@).len()),
        agree_above(old(disk).sectors(), final(disk).sectors(), old(disk).taken(), -1),
{
    let ghost k = disk.spec_bitmap_sectors();
    let ghost t_prev = disk.taken();
    let ghost s_prev = disk.sectors();
    let (secs, size) = store_directory(disk, cur);
    let copied = copy_chars(name);
    let ghost e: EntryV = (secs@, size, copied@);
    let ghost p0 = parent@;
    let mut parent = parent;
    parent.subdirectories.push((secs, size, copied));
    proof {
        assert(parent@.0 =~= p0.0.push(e));
        assert(parent@.0.drop_last() =~= p0.0);
        crate::disk::serial::lemma_enc_dir_push(p0, e);
        assert forall|i: int| 0 <= i < e.0.len() implies {
            &&& k < #[trigger] e.0[i]
            &&& e.0[i] < disk.taken().len()
            &&& disk.taken()[e.0[i] as int]
        } by {
            assert(!t_prev[e.0[i] as int]);
            assert(lists(e.0, e.0[i] as int));
        }
        assert forall|x: int| 0 <= x < t_prev.len() && #[trigger] t_prev[x] implies disk.taken()[x] by {
            if lists(e.0, x) {
                let i = choose|i: int| 0 <= i < e.0.len() && e.0[i] as int == x;
            }
        }
        assert forall|x: int| 0 <= x <= k && x < disk.taken().len() implies #[trigger] disk.taken()[x] by {
            assert(t_prev[x]);
        }
        assert forall|x: int| -1 < x < s_prev.len() && x < t_prev.len() && t_prev[x] implies #[trigger] s_prev[x] == disk.sectors()[x] by {
            if lists(e.0, x) {
                let i = choose|i: int| 0 <= i < e.0.len() && e.0[i] as int == x;
            }
        }
    }
    parent
}

/// The state of storing a chain after the levels below `j` are stored: `cur` is
/// level `j`, heading the stored chain below it, and what is left to store fits.
#[verifier::opaque]
pub open spec fn chain_state(
    sectors: Seq<Seq<u8>>,
    taken: Seq<bool>,
    reserved: int,
    cur: DirV,
    dirs: Seq<DirV>,
    path: Seq<Seq<char>>,
    j: int,
) -> bool {
    let l = path.len() as int;
    &&& chain_ok(sectors, reserved, cur, dirs.subrange(j, l + 1), path.subrange(j, l))
    &&& chain_taken(sectors, taken, cur, path.subrange(j, l))
    &&& zeros(taken).len() >= up_need(dirs, path.subrange(0, j), enc_dir(cur).len())
    &&& sectors_for(up_len(dirs, path.subrange(0, j), enc_dir(cur).len())) <= 61
}

/// Storing level `j` and appending its entry to level `j - 1` gives the state of
/// the chain one level up.
proof fn lemma_chain_state_step(
    s_prev: Seq<Seq<u8>>,
    t_prev: Seq<bool>,
    s_new: Seq<Seq<u8>>,
    t_new: Seq<bool>,
    reserved: int,
    cur: DirV,
    next: DirV,
    dirs: Seq<DirV>,
    path: Seq<Seq<char>>,
    j: int,
)
    requires
        1 <= j <= path.len(),
        -1 <= reserved,
        dirs.len() == path.len() + 1,
        chain_state(s_prev, t_prev, reserved, cur, dirs, path, j),
        t_prev.len() == s_prev.len(),
        t_new.len() == t_prev.len(),
        agree_above(s_prev, s_new, t_prev, -1),
        forall|x: int| 0 <= x < t_prev.len() && #[trigger] t_prev[x] ==> t_new[x],
        zeros(t_new).len() == zeros(t_prev).len() - sectors_for(enc_dir(cur).len()),
        next.1 == dirs[j - 1].1,
        next.0.len() == dirs[j - 1].0.len() + 1,
        next.0.drop_last() == dirs[j - 1].0,
        next.0.last().2 == path[j - 1],
        enc_dir(next).len() == level_len(dirs[j - 1], path[j - 1], enc_dir(cur).len()),
        entry_sound(s_new, next.0.last()),
        entry_dir(s_new, next.0.last()) == cur,
        forall|i: int| 0 <= i < next.0.last().0.len() ==> {
            &&& reserved < #[trigger] next.0.last().0[i]
            &&& next.0.last().0[i] < t_new.len()
            &&& t_new[next.0.last().0[i] as int]
        },
    ensures
        chain_state(s_new, t_new, reserved, next, dirs, path, j - 1),
        up_need(dirs, path.subrange(0, j), enc_dir(cur).len()) == sectors_for(enc_dir(cur).len()) + up_need(
            dirs,
            path.subrange(0, j - 1),
            enc_dir(next).len(),
        ),
{
    reveal(chain_state);
    let l = path.len() as int;
    lemma_chain_state_links(s_prev, t_prev, s_new, t_new, reserved, cur, next, dirs, path, j);
    let ps = path.subrange(0, j);
    assert(ps.drop_last() =~= path.subrange(0, j - 1));
    assert(ps.last() == path[j - 1]);
}

/// The links of the chain one level up, for `lemma_chain_state_step`.
proof fn lemma_chain_state_links(
    s_prev: Seq<Seq<u8>>,
    t_prev: Seq<bool>,
    s_new: Seq<Seq<u8>>,
    t_new: Seq<bool>,
    reserved: int,
    cur: DirV,
    next: DirV,
    dirs: Seq<DirV>,
    path: Seq<Seq<char>>,
    j: int,
)
    requires
        1 <= j <= path.len(),
        -1 <= reserved,
        dirs.len() == path.len() + 1,
        chain_ok(s_prev, reserved, cur, dirs.subrange(j, path.len() as int + 1), path.subrange(j, path.len() as int)),
        chain_taken(s_prev, t_prev, cur, path.subrange(j, path.len() as int)),
        t_prev.len() == s_prev.len(),
        t_new.len() == t_prev.len(),
        agree_above(s_prev, s_new, t_prev, -1),
        forall|x: int| 0 <= x < t_prev.len() && #[trigger] t_prev[x] ==> t_new[x],
        next.1 == dirs[j - 1].1,
        next.0.len() == dirs[j - 1].0.len() + 1,
        next.0.drop_last() == dirs[j - 1].0,
        next.0.last().2 == path[j - 1],
        entry_sound(s_new, next.0.last()),
        entry_dir(s_new, next.0.last()) == cur,
        forall|i: int| 0 <= i < next.0.last().0.len() ==> {
            &&& reserved < #[trigger] next.0.last().0[i]
            &&& next.0.last().0[i] < t_new.len()
            &&& t_new[next.0.last().0[i] as int]
        },
    ensures
        chain_ok(s_new, reserved, next, dirs.subrange(j - 1, path.len() as int + 1), path.subrange(j - 1, path.len() as int)),
        chain_taken(s_new, t_new, next, path.subrange(j - 1, path.len() as int)),
{
    let l = path.len() as int;
    let e = next.0.last();
    let dsub = dirs.subrange(j - 1, l + 1);
    let psub = path.subrange(j - 1, l);
    assert(dsub.drop_first() =~= dirs.subrange(j, l + 1));
    assert(psub.drop_first() =~= path.subrange(j, l));
    assert(dsub[0] == dirs[j - 1]);
    assert(psub[0] == path[j - 1]);
    assert(next.0 =~= dirs[j - 1].0.push(e));
    assert(agree_above(s_prev, s_new, t_prev, reserved));
    lemma_chain_step(s_prev, s_new, t_prev, t_new, reserved, cur, e, dsub, psub);
    assert(next == (dsub[0].0.push(e), dsub[0].1));
}

/// Stores the directories `dirs` going up, from the last to the first, each one
/// getting a subdirectory entry, named like the step of `path` between them, for
/// the one below it; the first becomes the root.
fn store_directory_chain(disk: &mut MemoryDisk, dirs: Vec<Directory>, path: &Vec<Vec<char>>)
    requires
        old(disk).mounted(),
        dirs.len() == path.len() + 1,
        reserved_taken(old(disk).taken(), old(disk).spec_bitmap_sectors()),
        zeros(old(disk).taken()).len() >= up_need(dirs_view(dirs@), names_view(path@), enc_dir(dirs_view(dirs@).last()).len()),
        sectors_for(up_len(dirs_view(dirs@), names_view(path@), enc_dir(dirs_view(dirs@).last()).len())) <= 61,
    ensures
        final(disk).mounted(),
        final(disk).drive() == old(disk).drive(),
        final(disk).sectors().len() == old(disk).sectors().len(),
        reserved_taken(final(disk).taken(), old(disk).spec_bitmap_sectors()),
        forall|x: int| 0 <= x < old(disk).taken().len() && #[trigger] old(disk).taken()[x] ==> final(disk).taken()[x],
        agree_above(old(disk).sectors(), final(disk).sectors(), old(disk).taken(), 0),
        zeros(final(disk).taken()).len() == zeros(old(disk).taken()).len() - up_need(
            dirs_view(dirs@),
            names_view(path@),
            enc_dir(dirs_view(dirs@).last()).len(),
        ),
        root_dir(final(disk).sectors()) matches Some(root) && {
            &&& chain_ok(final(disk).sectors(), old(disk).spec_bitmap_sectors(), root, dirs_view(dirs@), names_view(path@))
            &&& chain_taken(final(disk).sectors(), final(disk).taken(), root, names_view(path@))
        },
        root_ref(final(disk).sectors()) matches Some((secs, _)) && forall|i: int| 0 <= i < secs.len() ==> {
            &&& old(disk).spec_bitmap_sectors() < #[trigger] secs[i]
            &&& secs[i] < final(disk).taken().len()
            &&& final(disk).taken()[secs[i] as int]
        },
{
    let ghost dv = dirs_view(dirs@);
    let ghost pv = names_view(path@);
    let ghost k = disk.spec_bitmap_sectors();
    let ghost n = disk.sectors().len();
    let ghost l = path.len() as int;
    let ghost bottom = enc_dir(dv.last()).len();
    let ghost need = up_need(dv, pv, bottom);
    proof {
        disk.lemma_mounted();
    }
    let mut dirs = dirs;
    let mut cur = match dirs.pop() {
        Some(d) => d,
        None => Directory::new(),
    };
    proof {
        reveal(chain_state);
        assert(dv.subrange(l, l + 1) =~= seq![cur@]);
        assert(pv.subrange(l, l) =~= Seq::<Seq<char>>::empty());
        assert(pv.subrange(0, l) =~= pv);
        assert(dirs_view(dirs@) =~= dv.subrange(0, l));
    }
    let mut j: usize = path.len();
    while j > 0
        invariant
            disk.mounted(),
            disk.drive() == old(disk).drive(),
            disk.sectors().len() == n,
            n == old(disk).sectors().len(),
            n == old(disk).taken().len(),
            0 <= k,
            k == disk.spec_bitmap_sectors(),
            k == old(disk).spec_bitmap_sectors(),
            pv == names_view(path@),
            dv.len() == pv.len() + 1,
            l == pv.len(),
            j <= l,
            dirs.len() == j,
            dirs_view(dirs@) == dv.subrange(0, j as int),
            chain_state(disk.sectors(), disk.taken(), k, cur@, dv, pv, j as int),
            zeros(old(disk).taken()).len() - need == zeros(disk.taken()).len() - up_need(
                dv,
                pv.subrange(0, j as int),
                enc_dir(cur@).len(),
            ),
            reserved_taken(disk.taken(), k),
            forall|x: int| 0 <= x < n && #[trigger] old(disk).taken()[x] ==> disk.taken()[x],
            agree_above(old(disk).sectors(), disk.sectors(), old(disk).taken(), -1),
        decreases j,
    {
        let ghost s_prev = disk.sectors();
        let ghost t_prev = disk.taken();
        let ghost dirs_before = dirs_view(dirs@);
        let parent = match dirs.pop() {
            Some(d) => d,
            None => Directory::new(),
        };
        proof {
            assert(dirs_view(dirs@) =~= dirs_before.drop_last());
            assert(parent@ == dirs_before[j - 1]);
            assert(dirs_before[j - 1] == dv[j - 1]);
            assert(dirs_view(dirs@) =~= dv.subrange(0, j - 1));
            reveal(chain_state);
        }
        let next = store_level(disk, &cur, parent, &path[j - 1]);
        proof {
            lemma_chain_state_step(s_prev, t_prev, disk.sectors(), disk.taken(), k, cur@, next@, dv, pv, j as int);
            assert forall|x: int| -1 < x < n && x < n && old(disk).taken()[x] implies #[trigger] old(disk).sectors()[x] == disk.sectors()[x] by {
                assert(t_prev[x]);
                assert(old(disk).sectors()[x] == s_prev[x]);
            }
        }
        cur = next;
        j = j - 1;
    }
    proof {
        reveal(chain_state);
        assert(dv.subrange(0, l + 1) =~= dv);
        assert(pv.subrange(0, l) =~= pv);
        assert(pv.subrange(0, 0) =~= Seq::<Seq<char>>::empty());
    }
    let ghost s_prev = disk.sectors();
    let ghost t_prev = disk.taken();
    let (rs, _rsize) = set_root(disk, &cur);
    proof {
        assert(agree_above(s_prev, disk.sectors(), t_prev, k)) by {
            assert forall|x: int| k < x < s_prev.len() && x < t_prev.len() && t_prev[x] implies #[trigger] s_prev[x] == disk.sectors()[x] by {
                if lists(rs@, x) {
                    let i = choose|i: int| 0 <= i < rs@.len() && rs@[i] as int == x;
                }
            }
        }
        lemma_chain_frame(s_prev, disk.sectors(), t_prev, k, cur@, dv, pv);
        lemma_chain_taken_grow(disk.sectors(), t_prev, disk.taken(), cur@, pv);
        assert forall|i: int| 0 <= i < rs@.len() implies k < #[trigger] rs@[i] && rs@[i] < disk.taken().len() && disk.taken()[rs@[i] as int] by {
            assert(!t_prev[rs@[i] as int]);
            assert(lists(rs@, rs@[i] as int));
        }
        assert(agree_above(old(disk).sectors(), disk.sectors(), old(disk).taken(), 0)) by {
            assert forall|x: int| 0 < x < n && x < n && old(disk).taken()[x] implies #[trigger] old(disk).sectors()[x] == disk.sectors()[x] by {
                assert(t_prev[x]);
                if lists(rs@, x) {
                    let i = choose|i: int| 0 <= i < rs@.len() && rs@[i] as int == x;
                }
            }
        }
        assert forall|x: int| 0 <= x < old(disk).taken().len() && #[trigger] old(disk).taken()[x] implies disk.taken()[x] by {
            assert(t_prev[x]);
        }
        assert forall|x: int| 0 <= x <= k && x < disk.taken().len() implies #[trigger] disk.taken()[x] by {
            assert(t_prev[x]);
        }
    }
}

/// The directories met going down a path number one more than its steps, and none
/// of them but the last holds a subdirectory entry named like the next step.
pub proof fn lemma_descend_shape(sectors: Seq<Seq<u8>>, d: DirV, path: Seq<Seq<char>>)
    ensures
        descend(sectors, d, path).len() == path.len() + 1,
        names_fresh(descend(sectors, d, path), path),
    decreases path.len(),
{
    if path.len() > 0 {
        let child = match find_entry(d.0, path[0]) {
            Some(e) => entry_dir(sectors, e),
            None => empty_dir(),
        };
        lemma_descend_shape(sectors, child, path.drop_first());
        lemma_find_removed(d.0, path[0], path[0]);
        let ds = descend(sectors, d, path);
        assert forall|j: int| 0 <= j < path.len() implies find_entry(#[trigger] ds[j].0, path[j]) is None by {
            if j > 0 {
                assert(ds[j] == descend(sectors, child, path.drop_first())[j - 1]);
                assert(path[j] == path.drop_first()[j - 1]);
            }
        }
    }
}

/// The entries met following `path` from `d` hold sectors after the first
/// `reserved + 1` only.
pub open spec fn walk_above(sectors: Seq<Seq<u8>>, reserved: int, d: DirV, path: Seq<Seq<char>>) -> bool
    decreases path.len(),
{
    path.len() == 0 || match find_entry(d.0, path[0]) {
        None => true,
        Some(e) => entry_sound(sectors, e) ==> {
            &&& forall|i: int| 0 <= i < e.0.len() ==> reserved < #[trigger] e.0[i]
            &&& walk_above(sectors, reserved, entry_dir(sectors, e), path.drop_first())
        },
    }
}

/// A stored chain whose appended entries are the only ones of their names holds
/// sectors after the first `reserved + 1` only.
pub proof fn lemma_chain_above(sectors: Seq<Seq<u8>>, reserved: int, d: DirV, dirs: Seq<DirV>, path: Seq<Seq<char>>)
    requires
        chain_ok(sectors, reserved, d, dirs, path),
        names_fresh(dirs, path),
    ensures
        walk_above(sectors, reserved, d, path),
    decreases path.len(),
{
    if path.len() > 0 {
        assert(names_fresh(dirs.drop_first(), path.drop_first())) by {
            assert forall|j: int| 0 <= j < path.drop_first().len() implies find_entry(#[trigger] dirs.drop_first()[j].0, path.drop_first()[j]) is None by {
                assert(dirs.drop_first()[j] == dirs[j + 1]);
                assert(path.drop_first()[j] == path[j + 1]);
            }
        }
        lemma_chain_above(sectors, reserved, entry_dir(sectors, d.0.last()), dirs.drop_first(), path.drop_first());
        assert(d.0 =~= dirs[0].0.push(d.0.last()));
        lemma_find_push(dirs[0].0, d.0.last(), path[0]);
    }
}

/// Following a path that holds sectors after the first `reserved + 1` only gives
/// the same on sectors that agree after them.
pub proof fn lemma_walk_frame(a: Seq<Seq<u8>>, b: Seq<Seq<u8>>, reserved: int, d: DirV, path: Seq<Seq<char>>)
    requires
        walk_above(a, reserved, d, path),
        walk(a, d, path) is Some,
        a.len() == b.len(),
        forall|x: int| reserved < x < a.len() ==> #[trigger] a[x] == b[x],
    ensures
        walk(a, d, path) == walk(b, d, path),
        walk_above(b, reserved, d, path),
    decreases path.len(),
{
    if path.len() > 0 {
        match find_entry(d.0, path[0]) {
            None => {},
            Some(e) => {
                assert forall|i: int| 0 <= i < e.0.len() implies a[#[trigger] e.0[i] as int] == b[e.0[i] as int] by {
                    assert(reserved < e.0[i]);
                    assert(e.0[i] < a.len());
                }
                lemma_read_frame(a, b, e.0, e.1 as nat);
                lemma_walk_frame(a, b, reserved, entry_dir(a, e), path.drop_first());
            },
        }
    }
}

/// Following `path` from `d` reads entries whose sectors are all taken in `taken`
/// and come after the head sector.
pub open spec fn walk_taken(sectors: Seq<Seq<u8>>, taken: Seq<bool>, d: DirV, path: Seq<Seq<char>>) -> bool
    decreases path.len(),
{
    path.len() == 0 || match find_entry(d.0, path[0]) {
        None => true,
        Some(e) => {
            &&& forall|i: int| 0 <= i < e.0.len() ==> 0 < #[trigger] e.0[i] < taken.len() && taken[e.0[i] as int]
            &&& walk_taken(sectors, taken, entry_dir(sectors, e), path.drop_first())
        },
    }
}

/// Following a path whose entries lie in taken sectors gives the same on sectors
/// that agree on every taken sector.
pub proof fn lemma_walk_frame_taken(a: Seq<Seq<u8>>, b: Seq<Seq<u8>>, taken: Seq<bool>, d: DirV, path: Seq<Seq<char>>)
    requires
        walk_taken(a, taken, d, path),
        agree_above(a, b, taken, 0),
        taken.len() == a.len(),
    ensures
        walk(a, d, path) == walk(b, d, path),
    decreases path.len(),
{
    if path.len() > 0 {
        match find_entry(d.0, path[0]) {
            None => {},
            Some(e) => {
                assert forall|i: int| 0 <= i < e.0.len() implies a[#[trigger] e.0[i] as int] == b[e.0[i] as int] by {
                    assert(0 < e.0[i] < taken.len() && taken[e.0[i] as int]);
                }
                lemma_read_frame(a, b, e.0, e.1 as nat);
                lemma_walk_frame_taken(a, b, taken, entry_dir(a, e), path.drop_first());
            },
        }
    }
}

/// The root directory lies after the bitmap, in taken sectors.
pub open spec fn root_above(m: MemoryDisk) -> bool {
    root_ref(m.sectors()) matches Some((secs, _)) && forall|i: int| 0 <= i < secs.len() ==> {
        &&& m.spec_bitmap_sectors() < #[trigger] secs[i]
        &&& secs[i] < m.taken().len()
        &&& m.taken()[secs[i] as int]
    }
}

/// A file system ready for use: a mounted disk whose head and bitmap sectors are
/// taken, and whose root directory can be read and lies after the bitmap.
pub open spec fn fs_ok(m: MemoryDisk) -> bool {
    &&& m.mounted()
    &&& reserved_taken(m.taken(), m.spec_bitmap_sectors())
    &&& root_dir(m.sectors()) is Some
    &&& root_above(m)
}

/// The root directory of a file system.
pub open spec fn fs_root(m: MemoryDisk) -> DirV {
    match root_dir(m.sectors()) {
        Some(r) => r,
        None => empty_dir(),
    }
}

/// Creating the directories along `path` can read what it goes through and finds
/// room for what it stores.
pub open spec fn create_fits(m: MemoryDisk, path: Seq<Seq<char>>) -> bool {
    let ds = descend(m.sectors(), fs_root(m), path);
    &&& descend_ok(m.sectors(), m.taken(), m.spec_bitmap_sectors(), fs_root(m), path)
    &&& zeros(m.taken()).len() + descend_freed(m.sectors(), fs_root(m), path) >= up_need(
        ds,
        path,
        enc_dir(ds.last()).len(),
    )
    &&& sectors_for(up_len(ds, path, enc_dir(ds.last()).len())) <= 61
}

/// An empty directory takes sixteen bytes.
proof fn lemma_empty_dir_len()
    ensures
        enc_dir(empty_dir()).len() == 16,
{
    crate::le::lemma_enc_le(0, 8);
}

/// Erases the disk and stores an empty root directory.
pub fn fs_erase(disk: &mut MemoryDisk)
    requires
        old(disk).mounted(),
        old(disk).spec_bitmap_sectors() + 1 < old(disk).sectors().len(),
    ensures
        fs_ok(*final(disk)),
        fs_root(*final(disk)) == empty_dir(),
        final(disk).drive() == old(disk).drive(),
        final(disk).sectors().len() == old(disk).sectors().len(),
        zeros(final(disk).taken()).len() == old(disk).sectors().len() - old(disk).spec_bitmap_sectors() - 2,
        lookup(final(disk).sectors(), Seq::empty()) == Some(Some(empty_dir())),
        forall|path: Seq<Seq<char>>| path.len() > 0 ==> #[trigger] lookup(final(disk).sectors(), path) == Some(None::<DirV>),
{
    let ghost k = disk.spec_bitmap_sectors();
    let ghost n = disk.sectors().len();
    disk.erase();
    let root = Directory::new();
    proof {
        lemma_empty_dir_len();
        let t = disk.taken();
        disk.lemma_mounted();
        <usize as vstd::set_lib::FiniteRange>::range_properties((k + 1) as usize, n as usize);
        assert(zeros(t) =~= Set::<usize>::range((k + 1) as usize, n as usize)) by {
            assert forall|x: usize| zeros(t).contains(x) <==> Set::<usize>::range((k + 1) as usize, n as usize).contains(x) by {}
        }
    }
    let ghost t_prev = disk.taken();
    let (rs, _size) = set_root(disk, &root);
    proof {
        assert forall|x: int| 0 <= x <= k && x < disk.taken().len() implies #[trigger] disk.taken()[x] by {
            assert(t_prev[x]);
        }
        assert forall|i: int| 0 <= i < rs@.len() implies {
            &&& k < #[trigger] rs@[i]
            &&& rs@[i] < disk.taken().len()
            &&& disk.taken()[rs@[i] as int]
        } by {
            assert(!t_prev[rs@[i] as int]);
            assert(lists(rs@, rs@[i] as int));
        }
    }
}

/// Creates the directory `path`, and the directories on the way to it that are
/// missing.
pub fn create_directory(disk: &mut MemoryDisk, path: &Vec<char>)
    requires
        fs_ok(*old(disk)),
        create_fits(*old(disk), parse(path@)),
    ensures
        fs_ok(*final(disk)),
        final(disk).drive() == old(disk).drive(),
        final(disk).sectors().len() == old(disk).sectors().len(),
        chain_ok(
            final(disk).sectors(),
            old(disk).spec_bitmap_sectors(),
            fs_root(*final(disk)),
            descend(old(disk).sectors(), fs_root(*old(disk)), parse(path@)),
            parse(path@),
        ),
        lookup(final(disk).sectors(), parse(path@)) == Some(
            Some(descend(old(disk).sectors(), fs_root(*old(disk)), parse(path@)).last()),
        ),
        walk_above(final(disk).sectors(), old(disk).spec_bitmap_sectors(), fs_root(*final(disk)), parse(path@)),
        forall|j: int|
            0 <= j <= parse(path@).len() ==> #[trigger] lookup(final(disk).sectors(), parse(path@).subrange(0, j)) matches Some(
                Some(_),
            ),
        forall|q: Seq<Seq<char>>|
            parse(path@).len() >= 1 && q.len() >= 1 && q[0] != parse(path@)[0] && walk_taken(
                old(disk).sectors(),
                descend_taken(old(disk).sectors(), old(disk).taken(), fs_root(*old(disk)), parse(path@)),
                fs_root(*old(disk)),
                q,
            ) ==> #[trigger] lookup(final(disk).sectors(), q) == lookup(old(disk).sectors(), q),
{
    let ghost s0 = disk.sectors();
    let ghost k = disk.spec_bitmap_sectors();
    let root = get_root(disk);
    let parts = parse_path(path);
    let ghost pv = names_view(parts@);
    let dirs = descend_dirs(disk, root, &parts);
    proof {
        lemma_descend_shape(s0, fs_root(*old(disk)), pv);
        assert forall|x: int| 0 <= x <= k && x < disk.taken().len() implies #[trigger] disk.taken()[x] by {
            assert(old(disk).taken()[x]);
        }
    }
    let ghost dv = dirs_view(dirs@);
    let ghost t_mid = disk.taken();
    store_directory_chain(disk, dirs, &parts);
    proof {
        let root2 = fs_root(*disk);
        if pv.len() >= 1 {
            lemma_frame_after_descend(s0, disk.sectors(), t_mid, k, fs_root(*old(disk)), root2, dv, pv, pv);
        }
        lemma_chain_walk(disk.sectors(), k, root2, dv, pv);
        lemma_chain_above(disk.sectors(), k, root2, dv, pv);
        assert forall|j: int| 0 <= j <= pv.len() implies #[trigger] lookup(disk.sectors(), pv.subrange(0, j)) matches Some(
            Some(_),
        ) by {
            lemma_chain_prefixes(disk.sectors(), k, root2, dv, pv, j);
        }
    }
}

/// Unmounting a file system and mounting its drive again gives the same taken
/// sectors and root directory, and the same directories along every path that
/// reads nothing but sectors after the bitmap.
pub proof fn lemma_remount(m: MemoryDisk, s: Seq<Seq<u8>>, m2: MemoryDisk, path: Seq<Seq<char>>)
    requires
        fs_ok(m),
        saved(m, s),
        m2.mounted(),
        m2.sectors() == s,
        m2.taken() == stored_bitmap(s, s.len()),
    ensures
        m2.taken() == m.taken(),
        fs_ok(m2),
        fs_root(m2) == fs_root(m),
        walk_above(m.sectors(), m.spec_bitmap_sectors(), fs_root(m), path) && walk(m.sectors(), fs_root(m), path) is Some
            ==> lookup(s, path) == lookup(m.sectors(), path) && walk_above(s, m.spec_bitmap_sectors(), fs_root(m2), path),
{
    let k = m.spec_bitmap_sectors();
    let a = m.sectors();
    assert(root_ref(s) == root_ref(a));
    let (secs, size) = root_ref(a).unwrap();
    assert forall|i: int| 0 <= i < secs.len() implies a[#[trigger] secs[i] as int] == s[secs[i] as int] by {
        assert(k < secs[i]);
    }
    lemma_read_frame(a, s, secs, size as nat);
    assert(root_dir(s) == root_dir(a));
    if walk_above(a, k, fs_root(m), path) && walk(a, fs_root(m), path) is Some {
        lemma_walk_frame(a, s, k, fs_root(m), path);
    }
}

/// A new, empty file named `name`.
pub open spec fn new_file(name: Seq<char>) -> EntryV {
    (Seq::empty(), 0, name)
}

/// The chain `dirs` with its last directory replaced by `last`.
pub open spec fn with_last(dirs: Seq<DirV>, last: DirV) -> Seq<DirV> {
    dirs.update(dirs.len() - 1, last)
}

/// Storing the directories met going down `path`, the last one replaced by
/// `last`, finds room.
pub open spec fn chain_fits(m: MemoryDisk, path: Seq<Seq<char>>, last: DirV) -> bool {
    let ds = with_last(descend(m.sectors(), fs_root(m), path), last);
    &&& zeros(m.taken()).len() + descend_freed(m.sectors(), fs_root(m), path) >= up_need(ds, path, enc_dir(last).len())
    &&& sectors_for(up_len(ds, path, enc_dir(last).len())) <= 61
}

/// Going down from an empty directory meets empty directories only.
proof fn lemma_descend_empty(sectors: Seq<Seq<u8>>, path: Seq<Seq<char>>)
    ensures
        descend(sectors, empty_dir(), path).last() == empty_dir(),
    decreases path.len(),
{
    if path.len() > 0 {
        lemma_descend_empty(sectors, path.drop_first());
        lemma_descend_shape(sectors, empty_dir(), path.drop_first());
    }
}

/// Where the last directory met going down `path` holds a file, following `path`
/// finds it.
proof fn lemma_descend_walk(sectors: Seq<Seq<u8>>, taken: Seq<bool>, reserved: int, d: DirV, path: Seq<Seq<char>>)
    requires
        descend_ok(sectors, taken, reserved, d, path),
        descend(sectors, d, path).last().1.len() > 0,
    ensures
        walk(sectors, d, path) == Some(Some(descend(sectors, d, path).last())),
    decreases path.len(),
{
    if path.len() > 0 {
        lemma_descend_shape(sectors, d, path);
        match find_entry(d.0, path[0]) {
            None => {
                lemma_descend_empty(sectors, path.drop_first());
                lemma_descend_shape(sectors, empty_dir(), path.drop_first());
                assert(descend(sectors, d, path).last() == descend(sectors, empty_dir(), path.drop_first()).last());
            },
            Some(e) => {
                let child = entry_dir(sectors, e);
                lemma_descend_shape(sectors, child, path.drop_first());
                assert(descend(sectors, d, path).last() == descend(sectors, child, path.drop_first()).last());
                lemma_descend_walk(sectors, marked(taken, e.0, false), reserved, child, path.drop_first());
            },
        }
    }
}

/// Replacing the files of the last directory keeps the names of the chain fresh.
proof fn lemma_fresh_with_last(dirs: Seq<DirV>, path: Seq<Seq<char>>, last: DirV)
    requires
        dirs.len() == path.len() + 1,
        names_fresh(dirs, path),
    ensures
        names_fresh(with_last(dirs, last), path),
{
    assert forall|j: int| 0 <= j < path.len() implies find_entry(#[trigger] with_last(dirs, last)[j].0, path[j]) is None by {
        assert(with_last(dirs, last)[j] == dirs[j]);
    }
}

/// Stores the chain of directories `dirs` followed by `last`, going up along `path`,
/// and makes its first directory the root.
fn store_with_last(disk: &mut MemoryDisk, dirs: Vec<Directory>, last: Directory, path: &Vec<Vec<char>>)
    requires
        old(disk).mounted(),
        reserved_taken(old(disk).taken(), old(disk).spec_bitmap_sectors()),
        dirs.len() == path.len(),
        names_fresh(dirs_view(dirs@).push(last@), names_view(path@)),
        zeros(old(disk).taken()).len() >= up_need(dirs_view(dirs@).push(last@), names_view(path@), enc_dir(last@).len()),
        sectors_for(up_len(dirs_view(dirs@).push(last@), names_view(path@), enc_dir(last@).len())) <= 61,
    ensures
        fs_ok(*final(disk)),
        final(disk).drive() == old(disk).drive(),
        final(disk).sectors().len() == old(disk).sectors().len(),
        chain_ok(
            final(disk).sectors(),
            old(disk).spec_bitmap_sectors(),
            fs_root(*final(disk)),
            dirs_view(dirs@).push(last@),
            names_view(path@),
        ),
        lookup(final(disk).sectors(), names_view(path@)) == Some(Some(last@)),
        walk_above(final(disk).sectors(), old(disk).spec_bitmap_sectors(), fs_root(*final(disk)), names_view(path@)),
        agree_above(old(disk).sectors(), final(disk).sectors(), old(disk).taken(), 0),
{
    let ghost k = disk.spec_bitmap_sectors();
    let ghost pv = names_view(path@);
    let ghost d0 = dirs_view(dirs@);
    let mut dirs = dirs;
    dirs.push(last);
    let ghost dl = dirs_view(dirs@);
    proof {
        assert(dl =~= d0.push(last@));
    }
    store_directory_chain(disk, dirs, path);
    proof {
        let root2 = fs_root(*disk);
        lemma_chain_walk(disk.sectors(), k, root2, dl, pv);
        lemma_chain_above(disk.sectors(), k, root2, dl, pv);
    }
}

/// Goes down `path` from the root, taking each directory met out of its parent and
/// giving back its sectors; gives back the directories met before the last one, and
/// the last one.
fn descend_from_root(disk: &mut MemoryDisk, path: &Vec<Vec<char>>) -> (r: (Vec<Directory>, Directory))
    requires
        fs_ok(*old(disk)),
        descend_ok(old(disk).sectors(), old(disk).taken(), old(disk).spec_bitmap_sectors(), fs_root(*old(disk)), names_view(path@)),
    ensures
        final(disk).mounted(),
        final(disk).sectors() == old(disk).sectors(),
        final(disk).drive() == old(disk).drive(),
        reserved_taken(final(disk).taken(), old(disk).spec_bitmap_sectors()),
        zeros(final(disk).taken()).len() == zeros(old(disk).taken()).len() + descend_freed(
            old(disk).sectors(),
            fs_root(*old(disk)),
            names_view(path@),
        ),
        final(disk).taken() == descend_taken(old(disk).sectors(), old(disk).taken(), fs_root(*old(disk)), names_view(path@)),
        r.0.len() == path.len(),
        dirs_view(r.0@).push(r.1@) == descend(old(disk).sectors(), fs_root(*old(disk)), names_view(path@)),
        names_fresh(descend(old(disk).sectors(), fs_root(*old(disk)), names_view(path@)), names_view(path@)),
{
    let ghost k = disk.spec_bitmap_sectors();
    let root = get_root(disk);
    let mut dirs = descend_dirs(disk, root, path);
    proof {
        lemma_descend_shape(old(disk).sectors(), fs_root(*old(disk)), names_view(path@));
        assert forall|x: int| 0 <= x <= k && x < disk.taken().len() implies #[trigger] disk.taken()[x] by {
            assert(old(disk).taken()[x]);
        }
    }
    let ghost dv = dirs_view(dirs@);
    let last = match dirs.pop() {
        Some(d) => d,
        None => Directory::new(),
    };
    proof {
        assert(dirs_view(dirs@) =~= dv.drop_last());
        assert(dv.drop_last().push(last@) =~= dv);
    }
    (dirs, last)
}

/// Where following `path` from `d` finds a directory, it is the last directory met
/// going down `path`.
pub proof fn lemma_descend_found(sectors: Seq<Seq<u8>>, d: DirV, path: Seq<Seq<char>>, q: DirV)
    requires
        walk(sectors, d, path) == Some(Some(q)),
    ensures
        descend(sectors, d, path).last() == q,
    decreases path.len(),
{
    if path.len() > 0 {
        lemma_descend_shape(sectors, d, path);
        let e = find_entry(d.0, path[0])->0;
        let child = entry_dir(sectors, e);
        lemma_descend_shape(sectors, child, path.drop_first());
        assert(descend(sectors, d, path).last() == descend(sectors, child, path.drop_first()).last());
        lemma_descend_found(sectors, child, path.drop_first(), q);
    }
}

/// Splits the parsed path into the directory names and the last name.
fn split_last(path: &Vec<char>) -> (r: (Vec<Vec<char>>, Vec<char>))
    requires
        parse(path@).len() >= 1,
    ensures
        names_view(r.0@) == parse(path@).drop_last(),
        r.1@ == parse(path@).last(),
{
    let mut parts = parse_path(path);
    let ghost pall = names_view(parts@);
    let name = match parts.pop() {
        Some(n) => n,
        None => Vec::new(),
    };
    assert(names_view(parts@) =~= pall.drop_last());
    (parts, name)
}

/// Creates an empty file at `path`, and the directories on the way to it that are
/// missing; a file already there is kept as it is, and then nothing is written.
pub fn create_file(disk: &mut MemoryDisk, path: &Vec<char>)
    requires
        fs_ok(*old(disk)),
        parse(path@).len() >= 1,
        descend_ok(
            old(disk).sectors(),
            old(disk).taken(),
            old(disk).spec_bitmap_sectors(),
            fs_root(*old(disk)),
            parse(path@).drop_last(),
        ),
        ({
            let last = descend(old(disk).sectors(), fs_root(*old(disk)), parse(path@).drop_last()).last();
            find_entry(last.1, parse(path@).last()) is None ==> chain_fits(
                *old(disk),
                parse(path@).drop_last(),
                (last.0, last.1.push(new_file(parse(path@).last()))),
            )
        }),
    ensures
        final(disk).mounted(),
        final(disk).drive() == old(disk).drive(),
        final(disk).sectors().len() == old(disk).sectors().len(),
        lookup(final(disk).sectors(), parse(path@).drop_last()) matches Some(Some(x)) && find_entry(
            x.1,
            parse(path@).last(),
        ) is Some,
        final(disk).sectors() == old(disk).sectors() || {
            &&& fs_ok(*final(disk))
            &&& walk_above(
                final(disk).sectors(),
                old(disk).spec_bitmap_sectors(),
                fs_root(*final(disk)),
                parse(path@).drop_last(),
            )
        },
        ({
            let p = descend(old(disk).sectors(), fs_root(*old(disk)), parse(path@).drop_last()).last();
            let name = parse(path@).last();
            &&& lookup(old(disk).sectors(), parse(path@).drop_last()) matches Some(Some(q)) ==> p == q
            &&& find_entry(p.1, name) is Some ==> {
                &&& final(disk).sectors() == old(disk).sectors()
                &&& zeros(final(disk).taken()).len() == zeros(old(disk).taken()).len() + descend_freed(
                    old(disk).sectors(),
                    fs_root(*old(disk)),
                    parse(path@).drop_last(),
                )
            }
            &&& find_entry(p.1, name) is None ==> lookup(final(disk).sectors(), parse(path@).drop_last()) == Some(
                Some((p.0, p.1.push(new_file(name)))),
            )
            &&& find_entry(p.1, name) is None ==> chain_ok(
                final(disk).sectors(),
                old(disk).spec_bitmap_sectors(),
                fs_root(*final(disk)),
                with_last(
                    descend(old(disk).sectors(), fs_root(*old(disk)), parse(path@).drop_last()),
                    (p.0, p.1.push(new_file(name))),
                ),
                parse(path@).drop_last(),
            )
        }),
        forall|q: Seq<Seq<char>>|
            q.len() >= 1 && q[0] != parse(path@)[0] && walk_taken(
                old(disk).sectors(),
                descend_taken(old(disk).sectors(), old(disk).taken(), fs_root(*old(disk)), parse(path@).drop_last()),
                fs_root(*old(disk)),
                q,
            ) ==> #[trigger] lookup(final(disk).sectors(), q) == lookup(old(disk).sectors(), q),
{
    let ghost s0 = disk.sectors();
    let ghost k = disk.spec_bitmap_sectors();
    let ghost root0 = fs_root(*disk);
    let (parts, file_name) = split_last(path);
    let ghost pv = names_view(parts@);
    proof {
        match lookup(s0, pv) {
            Some(Some(q)) => lemma_descend_found(s0, root0, pv, q),
            _ => {},
        }
    }
    let (dirs, mut parent) = descend_from_root(disk, &parts);
    if parent.get_file(&file_name).is_some() {
        proof {
            lemma_descend_shape(s0, root0, pv);
            lemma_descend_walk(s0, old(disk).taken(), k, root0, pv);
        }
        return;
    }
    let ghost p0 = parent@;
    let ghost dv = dirs_view(dirs@).push(p0);
    parent.files.push((Vec::new(), 0, file_name));
    proof {
        let e = new_file(parse(path@).last());
        assert(parent@.1 =~= p0.1.push(e));
        assert(parent@ == (p0.0, p0.1.push(e)));
        lemma_descend_shape(s0, root0, pv);
        lemma_fresh_with_last(dv, pv, parent@);
        assert(with_last(dv, parent@) =~= dirs_view(dirs@).push(parent@));
        lemma_find_push(p0.1, e, e.2);
    }
    let ghost t_mid = disk.taken();
    store_with_last(disk, dirs, parent, &parts);
    proof {
        lemma_frame_after_descend(s0, disk.sectors(), t_mid, k, root0, fs_root(*disk), with_last(dv, parent@), pv, parse(path@));
    }
}

/// Deletes the file at `path`; the directories on the way to it that are missing
/// are created.
pub fn delete_file(disk: &mut MemoryDisk, path: &Vec<char>)
    requires
        fs_ok(*old(disk)),
        parse(path@).len() >= 1,
        descend_ok(
            old(disk).sectors(),
            old(disk).taken(),
            old(disk).spec_bitmap_sectors(),
            fs_root(*old(disk)),
            parse(path@).drop_last(),
        ),
        ({
            let last = descend(old(disk).sectors(), fs_root(*old(disk)), parse(path@).drop_last()).last();
            chain_fits(*old(disk), parse(path@).drop_last(), (last.0, remove_named(last.1, parse(path@).last())))
        }),
    ensures
        fs_ok(*final(disk)),
        final(disk).drive() == old(disk).drive(),
        final(disk).sectors().len() == old(disk).sectors().len(),
        lookup(final(disk).sectors(), parse(path@).drop_last()) matches Some(Some(x)) && find_entry(
            x.1,
            parse(path@).last(),
        ) is None,
        ({
            let p = descend(old(disk).sectors(), fs_root(*old(disk)), parse(path@).drop_last()).last();
            &&& lookup(old(disk).sectors(), parse(path@).drop_last()) matches Some(Some(q)) ==> p == q
            &&& lookup(final(disk).sectors(), parse(path@).drop_last()) == Some(
                Some((p.0, remove_named(p.1, parse(path@).last()))),
            )
            &&& chain_ok(
                final(disk).sectors(),
                old(disk).spec_bitmap_sectors(),
                fs_root(*final(disk)),
                with_last(
                    descend(old(disk).sectors(), fs_root(*old(disk)), parse(path@).drop_last()),
                    (p.0, remove_named(p.1, parse(path@).last())),
                ),
                parse(path@).drop_last(),
            )
        }),
        walk_above(
            final(disk).sectors(),
            old(disk).spec_bitmap_sectors(),
            fs_root(*final(disk)),
            parse(path@).drop_last(),
        ),
        forall|q: Seq<Seq<char>>|
            q.len() >= 1 && q[0] != parse(path@)[0] && walk_taken(
                old(disk).sectors(),
                descend_taken(old(disk).sectors(), old(disk).taken(), fs_root(*old(disk)), parse(path@).drop_last()),
                fs_root(*old(disk)),
                q,
            ) ==> #[trigger] lookup(final(disk).sectors(), q) == lookup(old(disk).sectors(), q),
{
    let ghost s0 = disk.sectors();
    let ghost k = disk.spec_bitmap_sectors();
    let ghost root0 = fs_root(*disk);
    let (parts, file_name) = split_last(path);
    let ghost pv = names_view(parts@);
    proof {
        match lookup(s0, pv) {
            Some(Some(q)) => lemma_descend_found(s0, root0, pv, q),
            _ => {},
        }
    }
    let (dirs, mut parent) = descend_from_root(disk, &parts);
    let ghost p0 = parent@;
    let ghost dv = dirs_view(dirs@).push(p0);
    remove_entries_named(&mut parent.files, &file_name);
    proof {
        assert(parent@ == (p0.0, remove_named(p0.1, parse(path@).last())));
        lemma_fresh_with_last(dv, pv, parent@);
        assert(with_last(dv, parent@) =~= dirs_view(dirs@).push(parent@));
        lemma_find_removed(p0.1, parse(path@).last(), parse(path@).last());
    }
    let ghost t_mid = disk.taken();
    store_with_last(disk, dirs, parent, &parts);
    proof {
        lemma_frame_after_descend(s0, disk.sectors(), t_mid, k, root0, fs_root(*disk), with_last(dv, parent@), pv, parse(path@));
    }
}

/// The directories met following `path` from `d`, as far as the names are found.
pub open spec fn walk_dirs(sectors: Seq<Seq<u8>>, d: DirV, path: Seq<Seq<char>>) -> Seq<DirV>
    decreases path.len(),
{
    if path.len() == 0 {
        seq![d]
    } else {
        match find_entry(d.0, path[0]) {
            None => seq![d],
            Some(e) => seq![d] + walk_dirs(sectors, entry_dir(sectors, e), path.drop_first()),
        }
    }
}

/// Following `path` from `d` reads sound entries only, and each entry met has
/// distinct sectors, taken in `taken` and lying after the first `reserved + 1`, none
/// of them met before.
pub open spec fn follow_ok(sectors: Seq<Seq<u8>>, taken: Seq<bool>, reserved: int, d: DirV, path: Seq<Seq<char>>) -> bool
    decreases path.len(),
{
    path.len() == 0 || match find_entry(d.0, path[0]) {
        None => true,
        Some(e) => {
            &&& entry_sound(sectors, e)
            &&& e.0.no_duplicates()
            &&& forall|i: int| 0 <= i < e.0.len() ==> reserved < #[trigger] e.0[i] && taken[e.0[i] as int]
            &&& follow_ok(sectors, marked(taken, e.0, false), reserved, entry_dir(sectors, e), path.drop_first())
        },
    }
}

/// Sectors given back following `path` from `d`.
pub open spec fn follow_freed(sectors: Seq<Seq<u8>>, d: DirV, path: Seq<Seq<char>>) -> nat
    decreases path.len(),
{
    if path.len() == 0 {
        0
    } else {
        match find_entry(d.0, path[0]) {
            None => 0,
            Some(e) => e.0.len() + follow_freed(sectors, entry_dir(sectors, e), path.drop_first()),
        }
    }
}

/// The taken sectors after following `path` from `d`, giving back the sectors of
/// each directory met below `d`.
pub open spec fn follow_taken(sectors: Seq<Seq<u8>>, taken: Seq<bool>, d: DirV, path: Seq<Seq<char>>) -> Seq<bool>
    decreases path.len(),
{
    if path.len() == 0 {
        taken
    } else {
        match find_entry(d.0, path[0]) {
            None => taken,
            Some(e) => follow_taken(sectors, marked(taken, e.0, false), entry_dir(sectors, e), path.drop_first()),
        }
    }
}

/// The chain stored when deleting the directory `path`: the directories met above
/// it, the last one without its entries named like the deleted directory.
pub open spec fn delete_chain(sectors: Seq<Seq<u8>>, root: DirV, path: Seq<Seq<char>>) -> Seq<DirV> {
    let ds = walk_dirs(sectors, root, path);
    let l = path.len() as int;
    ds.subrange(0, l).update(l - 1, (remove_named(ds[l - 1].0, path.last()), ds[l - 1].1))
}

/// Follows `path` from `root`, giving back the sectors of each directory met below
/// it; gives back the directories met, or `None` where a name is missing.
fn follow_dirs(disk: &mut MemoryDisk, root: Directory, path: &Vec<Vec<char>>) -> (r: Option<Vec<Directory>>)
    requires
        old(disk).mounted(),
        follow_ok(old(disk).sectors(), old(disk).taken(), old(disk).spec_bitmap_sectors(), root@, names_view(path@)),
    ensures
        final(disk).mounted(),
        final(disk).sectors() == old(disk).sectors(),
        final(disk).drive() == old(disk).drive(),
        final(disk).taken().len() == old(disk).taken().len(),
        forall|x: int| 0 <= x <= old(disk).spec_bitmap_sectors() ==> #[trigger] final(disk).taken()[x] == old(disk).taken()[x],
        walk(old(disk).sectors(), root@, names_view(path@)) is Some,
        final(disk).taken() == follow_taken(old(disk).sectors(), old(disk).taken(), root@, names_view(path@)),
        r is None <==> walk(old(disk).sectors(), root@, names_view(path@)) == Some(None::<DirV>),
        r matches Some(v) ==> {
            &&& dirs_view(v@) == walk_dirs(old(disk).sectors(), root@, names_view(path@))
            &&& v.len() == path.len() + 1
            &&& zeros(final(disk).taken()).len() == zeros(old(disk).taken()).len() + follow_freed(
                old(disk).sectors(),
                root@,
                names_view(path@),
            )
        },
{
    let ghost s0 = disk.sectors();
    let ghost k = disk.spec_bitmap_sectors();
    let ghost root0 = root@;
    let ghost z0 = zeros(disk.taken()).len();
    let ghost pv = names_view(path@);
    let ghost l = pv.len() as int;
    let mut dirs: Vec<Directory> = Vec::new();
    let mut cur = root;
    assert(pv.subrange(0, l) =~= pv);
    let mut missing = false;
    let mut i: usize = 0;
    while i < path.len() && !missing
        invariant
            disk.mounted(),
            disk.sectors() == s0,
            s0 == old(disk).sectors(),
            disk.drive() == old(disk).drive(),
            k == disk.spec_bitmap_sectors(),
            pv == names_view(path@),
            l == pv.len(),
            i <= l,
            dirs.len() == i,
            missing ==> walk(s0, root0, pv) == Some(None::<DirV>),
            missing ==> disk.taken() == follow_taken(s0, old(disk).taken(), root0, pv),
            !missing ==> follow_taken(s0, disk.taken(), cur@, pv.subrange(i as int, l)) == follow_taken(
                s0,
                old(disk).taken(),
                root0,
                pv,
            ),
            !missing ==> walk_dirs(s0, root0, pv) == dirs_view(dirs@) + walk_dirs(s0, cur@, pv.subrange(i as int, l)),
            !missing ==> walk(s0, root0, pv) == walk(s0, cur@, pv.subrange(i as int, l)),
            !missing ==> follow_ok(s0, disk.taken(), k, cur@, pv.subrange(i as int, l)),
            !missing ==> z0 + follow_freed(s0, root0, pv) == zeros(disk.taken()).len() + follow_freed(
                s0,
                cur@,
                pv.subrange(i as int, l),
            ),
            disk.taken().len() == old(disk).taken().len(),
            forall|x: int| 0 <= x <= k ==> #[trigger] disk.taken()[x] == old(disk).taken()[x],
        decreases l - i + (if missing { 0int } else { 1int }),
    {
        let ghost rest = pv.subrange(i as int, l);
        proof {
            assert(rest.drop_first() =~= pv.subrange(i + 1, l));
            assert(rest[0] == path@[i as int]@);
        }
        let found = match cur.get_subdirectory(&path[i]) {
            Some(e) => Some(copy_entry(e)),
            None => None,
        };
        match found {
            Some(e) => {
                let child = load_directory(disk, &e.0, e.1);
                delete_sectors(disk, &e.0);
                proof {
                    assert forall|x: int| 0 <= x <= k implies #[trigger] disk.taken()[x] == old(disk).taken()[x] by {
                        if lists(e.0@, x) {
                            let j = choose|j: int| 0 <= j < e.0@.len() && e.0@[j] as int == x;
                        }
                    }
                }
                let ghost d0 = dirs_view(dirs@);
                dirs.push(cur);
                proof {
                    assert(dirs_view(dirs@) =~= d0.push(dirs@[i as int]@));
                    assert(walk_dirs(s0, root0, pv) =~= dirs_view(dirs@) + walk_dirs(s0, child@, pv.subrange(i + 1, l)));
                }
                cur = child;
                i = i + 1;
            },
            None => {
                proof {
                    assert(walk(s0, cur@, rest) == Some(None::<DirV>));
                }
                missing = true;
            },
        }
    }
    if missing {
        return None;
    }
    proof {
        assert(pv.subrange(l, l) =~= Seq::<Seq<char>>::empty());
    }
    let ghost d0 = dirs_view(dirs@);
    dirs.push(cur);
    proof {
        assert(dirs_view(dirs@) =~= d0.push(dirs@[l]@));
        assert(walk_dirs(s0, root0, pv) =~= dirs_view(dirs@));
    }
    Some(dirs)
}

/// A path that leaves the root by another name than the first of `name`s finds the
/// same where the new root holds the same entry of that name, and the sectors it reads
/// are taken ones that the new sectors keep.
proof fn lemma_other_lookups(
    s0: Seq<Seq<u8>>,
    sf: Seq<Seq<u8>>,
    taken: Seq<bool>,
    root: DirV,
    root2: DirV,
    q: Seq<Seq<char>>,
)
    requires
        walk_taken(s0, taken, root, q),
        agree_above(s0, sf, taken, 0),
        taken.len() == s0.len(),
        q.len() >= 1,
        find_entry(root2.0, q[0]) == find_entry(root.0, q[0]),
    ensures
        walk(sf, root2, q) == walk(s0, root, q),
{
    lemma_walk_frame_taken(s0, sf, taken, root, q);
}

/// A root stored by a chain along the nonempty `path`, starting from `first`, has
/// the entries of `first` for every name but the path's first.
proof fn lemma_chain_root(sectors: Seq<Seq<u8>>, reserved: int, root: DirV, dirs: Seq<DirV>, path: Seq<Seq<char>>, other: Seq<char>)
    requires
        chain_ok(sectors, reserved, root, dirs, path),
        path.len() >= 1,
        other != path[0],
    ensures
        find_entry(root.0, other) == find_entry(dirs[0].0, other),
{
    assert(root.0 =~= dirs[0].0.push(root.0.last()));
    lemma_find_push(dirs[0].0, root.0.last(), other);
}

/// A root stored by a chain that starts from the root as going down `path` left it
/// holds the old root's entry of every name but the first of `path`.
proof fn lemma_descend_root(
    sf: Seq<Seq<u8>>,
    reserved: int,
    root2: DirV,
    chain: Seq<DirV>,
    path: Seq<Seq<char>>,
    s0: Seq<Seq<u8>>,
    root: DirV,
    other: Seq<char>,
)
    requires
        chain_ok(sf, reserved, root2, chain, path),
        chain[0].0 == descend(s0, root, path)[0].0,
        path.len() == 0 || other != path[0],
    ensures
        find_entry(root2.0, other) == find_entry(root.0, other),
{
    if path.len() > 0 {
        lemma_chain_root(sf, reserved, root2, chain, path, other);
        lemma_find_removed(root.0, path[0], other);
    }
}

/// After going down `pp` (the path `full` without its last name, or all of it) and
/// storing a chain that starts from the root as that left it, every path that leaves
/// the root by another name than the first of `full`, and reads only sectors still
/// taken after going down, finds what it found before.
proof fn lemma_frame_after_descend(
    s0: Seq<Seq<u8>>,
    sf: Seq<Seq<u8>>,
    taken: Seq<bool>,
    reserved: int,
    root: DirV,
    root2: DirV,
    chain: Seq<DirV>,
    pp: Seq<Seq<char>>,
    full: Seq<Seq<char>>,
)
    requires
        root_dir(s0) == Some(root),
        root_dir(sf) == Some(root2),
        agree_above(s0, sf, taken, 0),
        taken.len() == s0.len(),
        chain_ok(sf, reserved, root2, chain, pp),
        chain[0].0 == descend(s0, root, pp)[0].0,
        full.len() >= 1,
        pp.len() > 0 ==> pp[0] == full[0],
    ensures
        forall|q: Seq<Seq<char>>|
            q.len() >= 1 && q[0] != full[0] && walk_taken(s0, taken, root, q) ==> #[trigger] lookup(sf, q) == lookup(s0, q),
{
    assert forall|q: Seq<Seq<char>>| q.len() >= 1 && q[0] != full[0] && walk_taken(s0, taken, root, q) implies #[trigger] lookup(
        sf,
        q,
    ) == lookup(s0, q) by {
        lemma_descend_root(sf, reserved, root2, chain, pp, s0, root, q[0]);
        lemma_other_lookups(s0, sf, taken, root, root2, q);
    }
}

/// Deletes the directory `path` from its parent, giving back the sectors of the
/// directories on the way to it, itself included. Where a name on the way is
/// missing, the disk is left as it is but for those sectors given back.
pub fn delete_directory(disk: &mut MemoryDisk, path: &Vec<char>)
    requires
        fs_ok(*old(disk)),
        parse(path@).len() >= 1,
        follow_ok(old(disk).sectors(), old(disk).taken(), old(disk).spec_bitmap_sectors(), fs_root(*old(disk)), parse(path@)),
        lookup(old(disk).sectors(), parse(path@)) matches Some(Some(_)) ==> ({
            let ds = delete_chain(old(disk).sectors(), fs_root(*old(disk)), parse(path@));
            &&& zeros(old(disk).taken()).len() + follow_freed(old(disk).sectors(), fs_root(*old(disk)), parse(path@))
                >= up_need(ds, parse(path@).drop_last(), enc_dir(ds.last()).len())
            &&& sectors_for(up_len(ds, parse(path@).drop_last(), enc_dir(ds.last()).len())) <= 61
        }),
    ensures
        final(disk).mounted(),
        final(disk).drive() == old(disk).drive(),
        final(disk).sectors().len() == old(disk).sectors().len(),
        lookup(old(disk).sectors(), parse(path@)) == Some(None::<DirV>) ==> final(disk).sectors() == old(disk).sectors(),
        lookup(old(disk).sectors(), parse(path@)) matches Some(Some(_)) ==> {
            &&& fs_ok(*final(disk))
            &&& chain_ok(
                final(disk).sectors(),
                old(disk).spec_bitmap_sectors(),
                fs_root(*final(disk)),
                delete_chain(old(disk).sectors(), fs_root(*old(disk)), parse(path@)),
                parse(path@).drop_last(),
            )
        },
        lookup(old(disk).sectors(), parse(path@)) matches Some(Some(_)) && parse(path@).len() == 1 ==> forall|q: Seq<Seq<char>>|
            q.len() >= 1 && q[0] == parse(path@)[0] ==> #[trigger] lookup(final(disk).sectors(), q) == Some(None::<DirV>),
        forall|q: Seq<Seq<char>>|
            q.len() >= 1 && q[0] != parse(path@)[0] && walk_taken(
                old(disk).sectors(),
                follow_taken(old(disk).sectors(), old(disk).taken(), fs_root(*old(disk)), parse(path@)),
                fs_root(*old(disk)),
                q,
            ) ==> #[trigger] lookup(final(disk).sectors(), q) == lookup(old(disk).sectors(), q),
{
    let ghost s0 = disk.sectors();
    let ghost k = disk.spec_bitmap_sectors();
    let ghost root0 = fs_root(*disk);
    let root = get_root(disk);
    let parts = parse_path(path);
    let ghost pv = names_view(parts@);
    let ghost l = pv.len() as int;
    let mut dirs = match follow_dirs(disk, root, &parts) {
        Some(v) => v,
        None => {
            return;
        },
    };
    proof {
        assert forall|x: int| 0 <= x <= k && x < disk.taken().len() implies #[trigger] disk.taken()[x] by {
            assert(old(disk).taken()[x]);
        }
    }
    let ghost ds = dirs_view(dirs@);
    let _ = dirs.pop();
    let mut parent = match dirs.pop() {
        Some(d) => d,
        None => Directory::new(),
    };
    proof {
        assert(ds.subrange(0, l) =~= dirs_view(dirs@).push(parent@));
    }
    remove_entries_named(&mut parent.subdirectories, &parts[parts.len() - 1]);
    let mut prefix = parts;
    let _ = prefix.pop();
    dirs.push(parent);
    proof {
        assert(names_view(prefix@) =~= pv.drop_last());
        assert(dirs_view(dirs@) =~= delete_chain(s0, root0, pv));
    }
    let ghost t_mid = disk.taken();
    store_directory_chain(disk, dirs, &prefix);
    proof {
        let sf = disk.sectors();
        let ds = delete_chain(s0, root0, pv);
        assert(ds[0] == (if l == 1 {
            (remove_named(root0.0, pv.last()), root0.1)
        } else {
            root0
        })) by {
            assert(walk_dirs(s0, root0, pv)[0] == root0);
        }
        assert forall|q: Seq<Seq<char>>|
            q.len() >= 1 && q[0] != pv[0] && walk_taken(s0, follow_taken(s0, old(disk).taken(), root0, pv), root0, q) implies #[trigger] lookup(
            sf,
            q,
        ) == lookup(s0, q) by {
            let root2 = fs_root(*disk);
            if l == 1 {
                assert(root2 == ds[0]);
                lemma_find_removed(root0.0, pv.last(), q[0]);
            } else {
                lemma_chain_root(sf, k, root2, ds, pv.drop_last(), q[0]);
            }
            lemma_other_lookups(s0, sf, t_mid, root0, root2, q);
        }
        if l == 1 {
            let dm = delete_chain(s0, root0, pv)[0];
            lemma_find_removed(root0.0, pv[0], pv[0]);
            assert forall|q: Seq<Seq<char>>| q.len() >= 1 && q[0] == pv[0] implies #[trigger] lookup(disk.sectors(), q) == Some(None::<DirV>) by {
                assert(fs_root(*disk) == dm);
            }
        }
    }
}

} // verus!
