use vstd::prelude::*;

verus! {

use crate::le::{le_value, read_le, write_le, enc_le, pow256, lemma_enc_le_round_trip, lemma_pow256_values};

/// A directory entry: the sectors that hold the entry's data, the data's size in
/// bytes, and the entry's name.
pub type Entry = (Vec<usize>, usize, Vec<char>);

/// An entry as mathematical values.
pub type EntryV = (Seq<usize>, usize, Seq<char>);

/// The value of an entry.
pub open spec fn entry_view(e: Entry) -> EntryV {
    (e.0@, e.1, e.2@)
}

/// A directory: its subdirectories and its files.
pub struct Directory {
    pub subdirectories: Vec<Entry>,
    pub files: Vec<Entry>,
}

/// A directory as mathematical values: (subdirectories, files).
pub type DirV = (Seq<EntryV>, Seq<EntryV>);

impl View for Directory {
    type V = DirV;

    open spec fn view(&self) -> DirV {
        (self.subdirectories@.map_values(|e: Entry| entry_view(e)), self.files@.map_values(|e: Entry| entry_view(e)))
    }
}

/// The encoder of `usize` values.
pub open spec fn usize_enc() -> spec_fn(usize) -> Seq<u8> {
    |x: usize| enc_usize(x)
}

/// The decoder of `usize` values.
pub open spec fn usize_dec() -> spec_fn(Seq<u8>, int) -> Option<(usize, int)> {
    |s: Seq<u8>, p: int| dec_usize(s, p)
}

/// The encoder of characters.
pub open spec fn char_enc() -> spec_fn(char) -> Seq<u8> {
    |c: char| enc_char(c)
}

/// The decoder of characters.
pub open spec fn char_dec() -> spec_fn(Seq<u8>, int) -> Option<(char, int)> {
    |s: Seq<u8>, p: int| dec_char(s, p)
}

/// The encoder of entries.
pub open spec fn entry_enc() -> spec_fn(EntryV) -> Seq<u8> {
    |e: EntryV| enc_entry(e)
}

/// The decoder of entries.
pub open spec fn entry_dec() -> spec_fn(Seq<u8>, int) -> Option<(EntryV, int)> {
    |s: Seq<u8>, p: int| dec_entry(s, p)
}

/// `s` holds the bytes `e` from position `p` on.
pub open spec fn bytes_at(s: Seq<u8>, p: int, e: Seq<u8>) -> bool {
    &&& 0 <= p
    &&& p + e.len() <= s.len()
    &&& s.subrange(p, p + e.len()) == e
}

/// The encoding of a 64-bit number: eight bytes, least significant first.
pub open spec fn enc_u64(x: nat) -> Seq<u8> {
    enc_le(x, 8)
}

/// The encoding of a character: its scalar value in four bytes, least significant first.
pub open spec fn enc_char(c: char) -> Seq<u8> {
    enc_le((c as u32) as nat, 4)
}

/// The encodings of the items of `v`, one after the other.
pub open spec fn enc_items<T>(v: Seq<T>, enc: spec_fn(T) -> Seq<u8>) -> Seq<u8>
    decreases v.len(),
{
    if v.len() == 0 {
        Seq::empty()
    } else {
        enc_items(v.drop_last(), enc) + enc(v.last())
    }
}

/// The encoding of a sequence: its length, then its items.
pub open spec fn enc_seq<T>(v: Seq<T>, enc: spec_fn(T) -> Seq<u8>) -> Seq<u8> {
    enc_u64(v.len()) + enc_items(v, enc)
}

/// The encoding of a number that fits in a `usize`.
pub open spec fn enc_usize(x: usize) -> Seq<u8> {
    enc_u64(x as nat)
}

/// The encoding of an entry: its sectors, its size, its name.
pub open spec fn enc_entry(e: EntryV) -> Seq<u8> {
    enc_seq(e.0, usize_enc()) + enc_u64(e.1 as nat) + enc_seq(e.2, char_enc())
}

/// The encoding of a directory: its subdirectories, then its files.
pub open spec fn enc_dir(d: DirV) -> Seq<u8> {
    enc_seq(d.0, entry_enc()) + enc_seq(d.1, entry_enc())
}

/// The encoding of a reference to a directory: its sectors, then its size.
pub open spec fn enc_ref(sectors: Seq<usize>, size: usize) -> Seq<u8> {
    enc_seq(sectors, usize_enc()) + enc_u64(size as nat)
}

/// Reads a 64-bit number at `p`.
pub open spec fn dec_u64(s: Seq<u8>, p: int) -> Option<(nat, int)> {
    if 0 <= p && p + 8 <= s.len() {
        Some((le_value(s.subrange(p, p + 8)), p + 8))
    } else {
        None
    }
}

/// Reads a number that fits in a `usize` at `p`.
pub open spec fn dec_usize(s: Seq<u8>, p: int) -> Option<(usize, int)> {
    match dec_u64(s, p) {
        Some((x, q)) => if x <= usize::MAX {
            Some((x as usize, q))
        } else {
            None
        },
        None => None,
    }
}

/// The scalar values that are characters.
pub open spec fn is_char_value(v: nat) -> bool {
    v <= 0xD7FF || (0xE000 <= v && v <= 0x10FFFF)
}

/// Reads a character at `p`.
pub open spec fn dec_char(s: Seq<u8>, p: int) -> Option<(char, int)> {
    if 0 <= p && p + 4 <= s.len() && is_char_value(le_value(s.subrange(p, p + 4))) {
        Some(((le_value(s.subrange(p, p + 4)) as u32) as char, p + 4))
    } else {
        None
    }
}

/// Reads `n` items at `p`.
pub open spec fn dec_items<T>(s: Seq<u8>, p: int, n: nat, dec: spec_fn(Seq<u8>, int) -> Option<(T, int)>) -> Option<(Seq<T>, int)>
    decreases n,
{
    if n == 0 {
        Some((Seq::empty(), p))
    } else {
        match dec_items(s, p, (n - 1) as nat, dec) {
            Some((xs, q)) => match dec(s, q) {
                Some((x, r)) => Some((xs.push(x), r)),
                None => None,
            },
            None => None,
        }
    }
}

/// Reads a length and that many items at `p`.
pub open spec fn dec_seq<T>(s: Seq<u8>, p: int, dec: spec_fn(Seq<u8>, int) -> Option<(T, int)>) -> Option<(Seq<T>, int)> {
    match dec_u64(s, p) {
        Some((n, q)) => dec_items(s, q, n, dec),
        None => None,
    }
}

/// Reads an entry at `p`.
pub open spec fn dec_entry(s: Seq<u8>, p: int) -> Option<(EntryV, int)> {
    match dec_seq(s, p, usize_dec()) {
        Some((secs, q)) => match dec_usize(s, q) {
            Some((size, r)) => match dec_seq(s, r, char_dec()) {
                Some((name, t)) => Some(((secs, size, name), t)),
                None => None,
            },
            None => None,
        },
        None => None,
    }
}

/// Reads a directory at `p`.
pub open spec fn dec_dir(s: Seq<u8>, p: int) -> Option<(DirV, int)> {
    match dec_seq(s, p, entry_dec()) {
        Some((subs, q)) => match dec_seq(s, q, entry_dec()) {
            Some((files, r)) => Some(((subs, files), r)),
            None => None,
        },
        None => None,
    }
}

/// Reads a reference to a directory at `p`.
pub open spec fn dec_ref(s: Seq<u8>, p: int) -> Option<((Seq<usize>, usize), int)> {
    match dec_seq(s, p, usize_dec()) {
        Some((secs, q)) => match dec_usize(s, q) {
            Some((size, r)) => Some(((secs, size), r)),
            None => None,
        },
        None => None,
    }
}

/// The decoder reads back what the encoder writes for `x`, wherever it stands.
pub open spec fn reads_back_item<T>(enc: spec_fn(T) -> Seq<u8>, dec: spec_fn(Seq<u8>, int) -> Option<(T, int)>, x: T) -> bool {
    forall|s: Seq<u8>, p: int| #[trigger] bytes_at(s, p, enc(x)) ==> dec(s, p) == Some((x, p + enc(x).len()))
}

/// The decoder reads back what the encoder writes for every item of `v`.
pub open spec fn reads_back_all<T>(enc: spec_fn(T) -> Seq<u8>, dec: spec_fn(Seq<u8>, int) -> Option<(T, int)>, v: Seq<T>) -> bool {
    forall|i: int| 0 <= i < v.len() ==> #[trigger] reads_back_item(enc, dec, v[i])
}

/// The decoder reads back what the encoder writes, for every value.
pub open spec fn reads_back<T>(enc: spec_fn(T) -> Seq<u8>, dec: spec_fn(Seq<u8>, int) -> Option<(T, int)>) -> bool {
    forall|x: T| #[trigger] reads_back_item(enc, dec, x)
}

/// Bytes at `p` that spell `a + b` spell `a` at `p` and `b` right after it.
pub proof fn lemma_bytes_at_split(s: Seq<u8>, p: int, a: Seq<u8>, b: Seq<u8>)
    requires
        bytes_at(s, p, a + b),
    ensures
        bytes_at(s, p, a),
        bytes_at(s, p + a.len(), b),
{
    let whole = s.subrange(p, p + (a + b).len());
    assert(whole == a + b);
    assert(s.subrange(p, p + a.len()) =~= whole.subrange(0, a.len() as int));
    assert((a + b).subrange(0, a.len() as int) =~= a);
    assert(s.subrange(p + a.len(), p + a.len() + b.len()) =~= whole.subrange(a.len() as int, (a + b).len() as int));
    assert((a + b).subrange(a.len() as int, (a + b).len() as int) =~= b);
}

/// A 64-bit number reads back.
pub proof fn lemma_u64_reads_back(x: nat, s: Seq<u8>, p: int)
    requires
        x < pow256(8),
        bytes_at(s, p, enc_u64(x)),
    ensures
        enc_u64(x).len() == 8,
        dec_u64(s, p) == Some((x, p + 8)),
{
    lemma_enc_le_round_trip(x, 8);
}

/// Numbers that fit in a `usize` read back.
pub proof fn lemma_usize_reads_back()
    ensures
        reads_back(usize_enc(), usize_dec()),
{
    lemma_pow256_values();
    assert forall|x: usize| #[trigger] reads_back_item(usize_enc(), usize_dec(), x) by {
        assert forall|s: Seq<u8>, p: int| #[trigger] bytes_at(s, p, enc_usize(x)) implies dec_usize(s, p) == Some(
            (x, p + enc_usize(x).len()),
        ) by {
            lemma_u64_reads_back(x as nat, s, p);
        }
    }
}

/// Characters read back.
pub proof fn lemma_char_reads_back()
    ensures
        reads_back(char_enc(), char_dec()),
{
    lemma_pow256_values();
    assert forall|c: char| #[trigger] reads_back_item(char_enc(), char_dec(), c) by {
        assert forall|s: Seq<u8>, p: int| #[trigger] bytes_at(s, p, enc_char(c)) implies dec_char(s, p) == Some(
            (c, p + enc_char(c).len()),
        ) by {
            let u = c as u32;
            vstd::utf8::char_is_scalar(c);
            vstd::utf8::char_u32_cast(c, u);
            assert(is_char_value(u as nat));
            lemma_enc_le_round_trip(u as nat, 4);
            assert(s.subrange(p, p + 4) == enc_char(c));
        }
    }
}

/// Items read back when each item does.
pub proof fn lemma_items_read_back<T>(
    v: Seq<T>,
    enc: spec_fn(T) -> Seq<u8>,
    dec: spec_fn(Seq<u8>, int) -> Option<(T, int)>,
    s: Seq<u8>,
    p: int,
)
    requires
        reads_back_all(enc, dec, v),
        bytes_at(s, p, enc_items(v, enc)),
    ensures
        dec_items(s, p, v.len(), dec) == Some((v, p + enc_items(v, enc).len())),
    decreases v.len(),
{
    if v.len() > 0 {
        assert(reads_back_all(enc, dec, v.drop_last())) by {
            assert forall|i: int| 0 <= i < v.drop_last().len() implies #[trigger] reads_back_item(enc, dec, v.drop_last()[i]) by {
                assert(v.drop_last()[i] == v[i]);
            }
        }
        assert(reads_back_item(enc, dec, v[v.len() - 1]));
        lemma_bytes_at_split(s, p, enc_items(v.drop_last(), enc), enc(v.last()));
        lemma_items_read_back(v.drop_last(), enc, dec, s, p);
        let q = p + enc_items(v.drop_last(), enc).len();
        assert(bytes_at(s, q, enc(v.last())));
        assert(v.drop_last().push(v.last()) =~= v);
    } else {
        assert(v =~= Seq::<T>::empty());
    }
}

/// A sequence reads back when each item does.
pub proof fn lemma_seq_reads_back<T>(
    v: Seq<T>,
    enc: spec_fn(T) -> Seq<u8>,
    dec: spec_fn(Seq<u8>, int) -> Option<(T, int)>,
    s: Seq<u8>,
    p: int,
)
    requires
        reads_back_all(enc, dec, v),
        v.len() < pow256(8),
        bytes_at(s, p, enc_seq(v, enc)),
    ensures
        dec_seq(s, p, dec) == Some((v, p + enc_seq(v, enc).len())),
{
    lemma_bytes_at_split(s, p, enc_u64(v.len()), enc_items(v, enc));
    lemma_u64_reads_back(v.len(), s, p);
    lemma_items_read_back(v, enc, dec, s, p + 8);
}

/// A sequence that can stand in memory has fewer than `2^64` items.
pub open spec fn small_seq<T>(v: Seq<T>) -> bool {
    v.len() <= usize::MAX
}

/// An entry whose parts can stand in memory.
pub open spec fn entry_small(e: EntryV) -> bool {
    small_seq(e.0) && small_seq(e.2)
}

/// A directory whose parts can stand in memory.
pub open spec fn dir_small(d: DirV) -> bool {
    &&& small_seq(d.0)
    &&& small_seq(d.1)
    &&& forall|i: int| 0 <= i < d.0.len() ==> entry_small(#[trigger] d.0[i])
    &&& forall|i: int| 0 <= i < d.1.len() ==> entry_small(#[trigger] d.1[i])
}

/// An entry reads back.
pub proof fn lemma_entry_reads_back(e: EntryV, s: Seq<u8>, p: int)
    requires
        entry_small(e),
        bytes_at(s, p, enc_entry(e)),
    ensures
        dec_entry(s, p) == Some((e, p + enc_entry(e).len())),
{
    lemma_pow256_values();
    lemma_usize_reads_back();
    lemma_char_reads_back();
    let a = enc_seq(e.0, usize_enc());
    let b = enc_u64(e.1 as nat);
    let c = enc_seq(e.2, char_enc());
    assert(enc_entry(e) == a + b + c);
    lemma_bytes_at_split(s, p, a + b, c);
    lemma_bytes_at_split(s, p, a, b);
    assert(reads_back_all(usize_enc(), usize_dec(), e.0));
    assert(reads_back_all(char_enc(), char_dec(), e.2));
    lemma_seq_reads_back(e.0, usize_enc(), usize_dec(), s, p);
    lemma_u64_reads_back(e.1 as nat, s, p + a.len());
    lemma_seq_reads_back(e.2, char_enc(), char_dec(), s, p + a.len() + b.len());
}

/// A directory reads back.
pub proof fn lemma_dir_reads_back(d: DirV, s: Seq<u8>, p: int)
    requires
        dir_small(d),
        bytes_at(s, p, enc_dir(d)),
    ensures
        dec_dir(s, p) == Some((d, p + enc_dir(d).len())),
{
    lemma_pow256_values();
    let enc = entry_enc();
    let dec = entry_dec();
    assert forall|x: EntryV| entry_small(x) implies #[trigger] reads_back_item(enc, dec, x) by {
        assert forall|s: Seq<u8>, p: int| #[trigger] bytes_at(s, p, enc(x)) implies dec(s, p) == Some(
            (x, p + enc(x).len()),
        ) by {
            lemma_entry_reads_back(x, s, p);
        }
    }
    assert(reads_back_all(enc, dec, d.0));
    assert(reads_back_all(enc, dec, d.1));
    let a = enc_seq(d.0, enc);
    let b = enc_seq(d.1, enc);
    lemma_bytes_at_split(s, p, a, b);
    lemma_seq_reads_back(d.0, enc, dec, s, p);
    lemma_seq_reads_back(d.1, enc, dec, s, p + a.len());
}

/// The encoding of the first `i + 1` items extends that of the first `i`.
proof fn lemma_enc_items_step<T>(v: Seq<T>, i: int, enc: spec_fn(T) -> Seq<u8>)
    requires
        0 <= i < v.len(),
    ensures
        enc_items(v.subrange(0, i + 1), enc) == enc_items(v.subrange(0, i), enc) + enc(v[i]),
{
    assert(v.subrange(0, i + 1).drop_last() =~= v.subrange(0, i));
}

/// Appends the eight-byte encoding of `x`.
fn write_u64(out: &mut Vec<u8>, x: u64)
    ensures
        final(out)@ == old(out)@ + enc_u64(x as nat),
{
    write_le(out, x, 8);
}

/// Appends the encoding of a sequence of numbers.
fn write_usizes(out: &mut Vec<u8>, v: &Vec<usize>)
    ensures
        final(out)@ == old(out)@ + enc_seq(v@, usize_enc()),
{
    let ghost start = out@;
    write_u64(out, v.len() as u64);
    let mut i: usize = 0;
    while i < v.len()
        invariant
            i <= v.len(),
            out@ == start + enc_u64(v.len() as nat) + enc_items(v@.subrange(0, i as int), usize_enc()),
        decreases v.len() - i,
    {
        write_u64(out, v[i] as u64);
        proof {
            lemma_enc_items_step(v@, i as int, usize_enc());
        }
        i = i + 1;
    }
    assert(v@.subrange(0, v.len() as int) =~= v@);
    assert(out@ =~= start + enc_seq(v@, usize_enc()));
}

/// Appends the encoding of a name.
fn write_chars(out: &mut Vec<u8>, v: &Vec<char>)
    ensures
        final(out)@ == old(out)@ + enc_seq(v@, char_enc()),
{
    let ghost start = out@;
    write_u64(out, v.len() as u64);
    let mut i: usize = 0;
    while i < v.len()
        invariant
            i <= v.len(),
            out@ == start + enc_u64(v.len() as nat) + enc_items(v@.subrange(0, i as int), char_enc()),
        decreases v.len() - i,
    {
        let c = v[i] as u32;
        write_le(out, c as u64, 4);
        proof {
            lemma_enc_items_step(v@, i as int, char_enc());
        }
        i = i + 1;
    }
    assert(v@.subrange(0, v.len() as int) =~= v@);
    assert(out@ =~= start + enc_seq(v@, char_enc()));
}

/// Appends the encoding of an entry.
fn write_entry(out: &mut Vec<u8>, e: &Entry)
    ensures
        final(out)@ == old(out)@ + enc_entry(entry_view(*e)),
{
    let ghost start = out@;
    write_usizes(out, &e.0);
    write_u64(out, e.1 as u64);
    write_chars(out, &e.2);
    assert(out@ =~= start + enc_entry(entry_view(*e)));
}

/// Appends the encoding of a list of entries.
fn write_entries(out: &mut Vec<u8>, v: &Vec<Entry>)
    ensures
        final(out)@ == old(out)@ + enc_seq(v@.map_values(|e: Entry| entry_view(e)), entry_enc()),
{
    let ghost start = out@;
    let ghost ev = v@.map_values(|e: Entry| entry_view(e));
    write_u64(out, v.len() as u64);
    let mut i: usize = 0;
    while i < v.len()
        invariant
            i <= v.len(),
            ev == v@.map_values(|e: Entry| entry_view(e)),
            out@ == start + enc_u64(v.len() as nat) + enc_items(ev.subrange(0, i as int), entry_enc()),
        decreases v.len() - i,
    {
        write_entry(out, &v[i]);
        proof {
            lemma_enc_items_step(ev, i as int, entry_enc());
        }
        i = i + 1;
    }
    assert(ev.subrange(0, v.len() as int) =~= ev);
    assert(out@ =~= start + enc_seq(ev, entry_enc()));
}

/// The bytes that store `dir`.
pub fn serialize(dir: &Directory) -> (r: Vec<u8>)
    ensures
        r@ == enc_dir(dir@),
{
    let mut out: Vec<u8> = Vec::new();
    write_entries(&mut out, &dir.subdirectories);
    write_entries(&mut out, &dir.files);
    assert(out@ =~= enc_dir(dir@));
    out
}

/// The bytes that store a reference to a directory held in `sectors` and `size` bytes.
pub fn serialize_ref(sectors: &Vec<usize>, size: usize) -> (r: Vec<u8>)
    ensures
        r@ == enc_ref(sectors@, size),
{
    let mut out: Vec<u8> = Vec::new();
    write_usizes(&mut out, sectors);
    write_u64(&mut out, size as u64);
    assert(out@ =~= enc_ref(sectors@, size));
    out
}

/// Calls `char::from_u32`, which std documents as giving the character with scalar
/// value `v`, and `None` where `v` is no scalar value (a surrogate, or above 0x10FFFF).
#[verifier::external_body]
pub(crate) fn char_from_u32(v: u32) -> (r: Option<char>)
    ensures
        r == (if is_char_value(v as nat) {
            Some(v as char)
        } else {
            None::<char>
        }),
{
    char::from_u32(v)
}

/// Once reading items fails, reading more of them fails too.
proof fn lemma_dec_items_none<T>(s: Seq<u8>, p: int, i: nat, n: nat, dec: spec_fn(Seq<u8>, int) -> Option<(T, int)>)
    requires
        i <= n,
        dec_items(s, p, i, dec) is None,
    ensures
        dec_items(s, p, n, dec) is None,
    decreases n - i,
{
    if i < n {
        lemma_dec_items_none(s, p, i, (n - 1) as nat, dec);
    }
}

/// Reads a 64-bit number at `p`.
fn read_u64(s: &Vec<u8>, p: usize) -> (r: Option<(u64, usize)>)
    ensures
        r is None <==> dec_u64(s@, p as int) is None,
        r matches Some((x, q)) ==> dec_u64(s@, p as int) == Some((x as nat, q as int)),
{
    if p <= s.len() && s.len() - p >= 8 {
        let x = read_le(s, p, 8);
        Some((x, p + 8))
    } else {
        None
    }
}

/// Reads a sequence of numbers at `p`.
fn read_usizes(s: &Vec<u8>, p: usize) -> (r: Option<(Vec<usize>, usize)>)
    ensures
        r is None <==> dec_seq(s@, p as int, usize_dec()) is None,
        r matches Some((v, q)) ==> dec_seq(s@, p as int, usize_dec()) == Some((v@, q as int)),
{
    match read_u64(s, p) {
        None => None,
        Some((n, q0)) => {
            let mut out: Vec<usize> = Vec::new();
            let mut q = q0;
            let mut i: u64 = 0;
            while i < n
                invariant
                    i <= n,
                    dec_u64(s@, p as int) == Some((n as nat, q0 as int)),
                    dec_items(s@, q0 as int, i as nat, usize_dec()) == Some((out@, q as int)),
                decreases n - i,
            {
                match read_u64(s, q) {
                    None => {
                        proof {
                            lemma_dec_items_none(s@, q0 as int, (i + 1) as nat, n as nat, usize_dec());
                        }
                        return None;
                    },
                    Some((x, q2)) => {
                        if x <= usize::MAX as u64 {
                            out.push(x as usize);
                            q = q2;
                        } else {
                            proof {
                                lemma_dec_items_none(s@, q0 as int, (i + 1) as nat, n as nat, usize_dec());
                            }
                            return None;
                        }
                    },
                }
                i = i + 1;
            }
            Some((out, q))
        },
    }
}

/// Reads a name at `p`.
fn read_chars(s: &Vec<u8>, p: usize) -> (r: Option<(Vec<char>, usize)>)
    ensures
        r is None <==> dec_seq(s@, p as int, char_dec()) is None,
        r matches Some((v, q)) ==> dec_seq(s@, p as int, char_dec()) == Some((v@, q as int)),
{
    match read_u64(s, p) {
        None => None,
        Some((n, q0)) => {
            let mut out: Vec<char> = Vec::new();
            let mut q = q0;
            let mut i: u64 = 0;
            while i < n
                invariant
                    i <= n,
                    dec_u64(s@, p as int) == Some((n as nat, q0 as int)),
                    dec_items(s@, q0 as int, i as nat, char_dec()) == Some((out@, q as int)),
                decreases n - i,
            {
                if q <= s.len() && s.len() - q >= 4 {
                    let x = read_le(s, q, 4);
                    proof {
                        lemma_pow256_values();
                        crate::le::lemma_le_value_bound(s@.subrange(q as int, q + 4));
                    }
                    match char_from_u32(x as u32) {
                        Some(c) => {
                            out.push(c);
                            q = q + 4;
                        },
                        None => {
                            proof {
                                lemma_dec_items_none(s@, q0 as int, (i + 1) as nat, n as nat, char_dec());
                            }
                            return None;
                        },
                    }
                } else {
                    proof {
                        lemma_dec_items_none(s@, q0 as int, (i + 1) as nat, n as nat, char_dec());
                    }
                    return None;
                }
                i = i + 1;
            }
            Some((out, q))
        },
    }
}

/// Reads an entry at `p`.
fn read_entry(s: &Vec<u8>, p: usize) -> (r: Option<(Entry, usize)>)
    ensures
        r is None <==> dec_entry(s@, p as int) is None,
        r matches Some((e, q)) ==> dec_entry(s@, p as int) == Some((entry_view(e), q as int)),
{
    match read_usizes(s, p) {
        None => None,
        Some((secs, q)) => match read_u64(s, q) {
            None => None,
            Some((size, r)) => {
                if size <= usize::MAX as u64 {
                    match read_chars(s, r) {
                        None => None,
                        Some((name, t)) => Some(((secs, size as usize, name), t)),
                    }
                } else {
                    None
                }
            },
        },
    }
}

/// Reads a list of entries at `p`.
fn read_entries(s: &Vec<u8>, p: usize) -> (r: Option<(Vec<Entry>, usize)>)
    ensures
        r is None <==> dec_seq(s@, p as int, entry_dec()) is None,
        r matches Some((v, q)) ==> dec_seq(s@, p as int, entry_dec()) == Some(
            (v@.map_values(|e: Entry| entry_view(e)), q as int),
        ),
{
    match read_u64(s, p) {
        None => None,
        Some((n, q0)) => {
            let mut out: Vec<Entry> = Vec::new();
            let mut q = q0;
            let mut i: u64 = 0;
            while i < n
                invariant
                    i <= n,
                    dec_u64(s@, p as int) == Some((n as nat, q0 as int)),
                    dec_items(s@, q0 as int, i as nat, entry_dec()) == Some(
                        (out@.map_values(|e: Entry| entry_view(e)), q as int),
                    ),
                decreases n - i,
            {
                match read_entry(s, q) {
                    None => {
                        proof {
                            lemma_dec_items_none(s@, q0 as int, (i + 1) as nat, n as nat, entry_dec());
                        }
                        return None;
                    },
                    Some((e, q2)) => {
                        let ghost before = out@;
                        out.push(e);
                        proof {
                            assert(out@.map_values(|e: Entry| entry_view(e)) =~= before.map_values(
                                |e: Entry| entry_view(e),
                            ).push(entry_view(e)));
                        }
                        q = q2;
                    },
                }
                i = i + 1;
            }
            Some((out, q))
        },
    }
}

/// The directory stored at the start of `data`, if `data` starts with one.
pub fn deserialize(data: &Vec<u8>) -> (r: Option<Directory>)
    ensures
        r is None <==> dec_dir(data@, 0) is None,
        r matches Some(d) ==> dec_dir(data@, 0) matches Some((v, _)) && d@ == v,
{
    match read_entries(data, 0) {
        None => None,
        Some((subdirectories, q)) => match read_entries(data, q) {
            None => None,
            Some((files, _)) => Some(Directory { subdirectories, files }),
        },
    }
}

/// The reference to a directory stored at the start of `data`: its sectors and size.
pub fn deserialize_ref(data: &Vec<u8>) -> (r: Option<(Vec<usize>, usize)>)
    ensures
        r is None <==> dec_ref(data@, 0) is None,
        r matches Some((secs, size)) ==> dec_ref(data@, 0) matches Some((v, _)) && v == (secs@, size),
{
    match read_usizes(data, 0) {
        None => None,
        Some((secs, q)) => match read_u64(data, q) {
            None => None,
            Some((size, _)) => {
                if size <= usize::MAX as u64 {
                    Some((secs, size as usize))
                } else {
                    None
                }
            },
        },
    }
}

/// A directory takes at least the sixteen bytes of its two counts.
pub proof fn lemma_enc_dir_len(d: DirV)
    ensures
        enc_dir(d).len() >= 16,
{
    crate::le::lemma_enc_le(d.0.len(), 8);
    crate::le::lemma_enc_le(d.1.len(), 8);
}

/// A list of numbers takes eight bytes per number after its count.
pub proof fn lemma_enc_usizes_len(v: Seq<usize>)
    ensures
        enc_items(v, usize_enc()).len() == 8 * v.len(),
    decreases v.len(),
{
    if v.len() > 0 {
        lemma_enc_usizes_len(v.drop_last());
        crate::le::lemma_enc_le(v.last() as nat, 8);
    }
}

/// A reference to a directory takes sixteen bytes, and eight per sector.
pub proof fn lemma_enc_ref_len(secs: Seq<usize>, size: usize)
    ensures
        enc_ref(secs, size).len() == 16 + 8 * secs.len(),
{
    lemma_enc_usizes_len(secs);
    crate::le::lemma_enc_le(secs.len() as nat, 8);
    crate::le::lemma_enc_le(size as nat, 8);
}

/// A reference to a directory reads back.
pub proof fn lemma_ref_reads_back(secs: Seq<usize>, size: usize, s: Seq<u8>, p: int)
    requires
        secs.len() <= usize::MAX,
        bytes_at(s, p, enc_ref(secs, size)),
    ensures
        dec_ref(s, p) == Some(((secs, size), p + enc_ref(secs, size).len())),
{
    lemma_pow256_values();
    lemma_usize_reads_back();
    let a = enc_seq(secs, usize_enc());
    let b = enc_u64(size as nat);
    lemma_bytes_at_split(s, p, a, b);
    assert(reads_back_all(usize_enc(), usize_dec(), secs));
    lemma_seq_reads_back(secs, usize_enc(), usize_dec(), s, p);
    lemma_u64_reads_back(size as nat, s, p + a.len());
}

/// A name takes four bytes per character after its count.
pub proof fn lemma_enc_chars_len(v: Seq<char>)
    ensures
        enc_items(v, char_enc()).len() == 4 * v.len(),
    decreases v.len(),
{
    if v.len() > 0 {
        lemma_enc_chars_len(v.drop_last());
        crate::le::lemma_enc_le((v.last() as u32) as nat, 4);
    }
}

/// An entry takes 24 bytes, eight per sector and four per character of its name.
pub proof fn lemma_enc_entry_len(e: EntryV)
    ensures
        enc_entry(e).len() == 24 + 8 * e.0.len() + 4 * e.2.len(),
{
    lemma_enc_usizes_len(e.0);
    lemma_enc_chars_len(e.2);
    crate::le::lemma_enc_le(e.0.len() as nat, 8);
    crate::le::lemma_enc_le(e.1 as nat, 8);
    crate::le::lemma_enc_le(e.2.len() as nat, 8);
}

/// Appending a subdirectory entry adds the bytes of the entry.
pub proof fn lemma_enc_dir_push(d: DirV, e: EntryV)
    ensures
        enc_dir((d.0.push(e), d.1)).len() == enc_dir(d).len() + 24 + 8 * e.0.len() + 4 * e.2.len(),
{
    lemma_enc_entry_len(e);
    assert(d.0.push(e).drop_last() =~= d.0);
    crate::le::lemma_enc_le(d.0.len() as nat, 8);
    crate::le::lemma_enc_le((d.0.len() + 1) as nat, 8);
}

} // verus!
