use vstd::prelude::*;

verus! {

use crate::bits::{bit_of, words_bit, lemma_bit_ops};

/// Reads bit `i` of a buffer of 64-bit words.
pub fn get_raw(words: &Vec<u64>, i: usize) -> (r: bool)
    requires
        i / 64 < words.len(),
    ensures
        r == words_bit(words@, i as int),
{
    let w = words[i / 64];
    let b = (i % 64) as u64;
    proof {
        lemma_bit_ops(w, b, b);
    }
    (w & (1u64 << b)) != 0
}

/// Writes bit `i` of a buffer of 64-bit words; every other bit keeps its value.
pub fn set_raw(words: &mut Vec<u64>, i: usize, val: bool)
    requires
        i / 64 < old(words).len(),
    ensures
        final(words).len() == old(words).len(),
        words_bit(final(words)@, i as int) == val,
        forall|j: int|
            0 <= j < 64 * old(words).len() && j != i ==> words_bit(final(words)@, j) == words_bit(
                old(words)@,
                j,
            ),
{
    let wi = i / 64;
    let b = (i % 64) as u64;
    let w = words[wi];
    let nw = if val {
        w | (1u64 << b)
    } else {
        w & !(1u64 << b)
    };
    words.set(wi, nw);
    proof {
        assert forall|j: int| 0 <= j < 64 * old(words).len() && j != i implies words_bit(
            words@,
            j,
        ) == words_bit(old(words)@, j) by {
            if j / 64 == wi as int {
                lemma_bit_ops(w, b, (j % 64) as u64);
            }
        }
        lemma_bit_ops(w, b, b);
    }
}


/// Bit `b` of a 32-bit cell.
pub open spec fn cell_bit(c: u32, b: u32) -> bool {
    (c >> b) & 1u32 == 1u32
}

/// The element value kept in a cell (bit 31).
pub open spec fn cell_value(c: u32) -> bool {
    cell_bit(c, 31)
}

/// The "is on stack" flag kept in a cell (bit 30).
pub open spec fn cell_on_stack(c: u32) -> bool {
    cell_bit(c, 30)
}

/// The stack entry kept in a cell (bits 0 to 29).
pub open spec fn cell_entry(c: u32) -> u32 {
    c & 0x3fff_ffffu32
}

/// Largest number of elements whose indices fit in a stack entry.
pub const MAX_ELEMENTS: usize = 0x4000_0000;

/// Bytes taken by a bitset of `size` elements: one 32-bit cell per element.
pub open spec fn spec_bitset_size_bytes(size: int) -> int {
    size * 4
}

/// Bytes taken by a bitset of `size` elements.
pub fn bitset_size_bytes(size: usize) -> (r: usize)
    requires
        size * 4 <= usize::MAX,
    ensures
        r == spec_bitset_size_bytes(size as int),
{
    size * 4
}

/// The set of indices whose element is zero.
pub open spec fn zeros(v: Seq<bool>) -> Set<usize> {
    Set::new(|i: usize| i < v.len() && !v[i as int])
}

proof fn lemma_zeros_finite(v: Seq<bool>)
    requires
        v.len() <= usize::MAX,
    ensures
        zeros(v).finite(),
        zeros(v).len() <= v.len(),
{
    <usize as vstd::set_lib::FiniteRange>::range_properties(0, v.len() as usize);
    vstd::set_lib::lemma_len_subset(zeros(v), Set::<usize>::range(0, v.len() as usize));
}

/// What the cell operations do to the three parts of a cell.
proof fn lemma_cell_ops(c: u32, e: u32)
    requires
        e < 0x4000_0000,
    ensures
        cell_value(c | (1u32 << 31u32)),
        cell_on_stack(c | (1u32 << 31u32)) == cell_on_stack(c),
        cell_entry(c | (1u32 << 31u32)) == cell_entry(c),
        !cell_value(c & !(1u32 << 31u32)),
        cell_on_stack(c & !(1u32 << 31u32)) == cell_on_stack(c),
        cell_entry(c & !(1u32 << 31u32)) == cell_entry(c),
        cell_on_stack(c | (1u32 << 30u32)),
        cell_value(c | (1u32 << 30u32)) == cell_value(c),
        cell_entry(c | (1u32 << 30u32)) == cell_entry(c),
        !cell_on_stack(c & !(1u32 << 30u32)),
        cell_value(c & !(1u32 << 30u32)) == cell_value(c),
        cell_entry(c & !(1u32 << 30u32)) == cell_entry(c),
        cell_value((c & 0xc000_0000u32) | e) == cell_value(c),
        cell_on_stack((c & 0xc000_0000u32) | e) == cell_on_stack(c),
        cell_entry((c & 0xc000_0000u32) | e) == e,
        (c & !0xc000_0000u32) == cell_entry(c),
        ((c & (1u32 << 31u32)) != 0) == cell_value(c),
        ((c & (1u32 << 30u32)) != 0) == cell_on_stack(c),
        !cell_value(0u32),
        !cell_on_stack(0u32),
{
    assert(cell_value(c | (1u32 << 31u32)) && cell_on_stack(c | (1u32 << 31u32)) == cell_on_stack(c)
        && cell_entry(c | (1u32 << 31u32)) == cell_entry(c)) by (bit_vector);
    assert(!cell_value(c & !(1u32 << 31u32)) && cell_on_stack(c & !(1u32 << 31u32)) == cell_on_stack(c)
        && cell_entry(c & !(1u32 << 31u32)) == cell_entry(c)) by (bit_vector);
    assert(cell_on_stack(c | (1u32 << 30u32)) && cell_value(c | (1u32 << 30u32)) == cell_value(c)
        && cell_entry(c | (1u32 << 30u32)) == cell_entry(c)) by (bit_vector);
    assert(!cell_on_stack(c & !(1u32 << 30u32)) && cell_value(c & !(1u32 << 30u32)) == cell_value(c)
        && cell_entry(c & !(1u32 << 30u32)) == cell_entry(c)) by (bit_vector);
    assert(cell_value((c & 0xc000_0000u32) | e) == cell_value(c) && cell_on_stack((c & 0xc000_0000u32) | e)
        == cell_on_stack(c) && cell_entry((c & 0xc000_0000u32) | e) == e) by (bit_vector)
        requires
            e < 0x4000_0000,
    ;
    assert((c & !0xc000_0000u32) == cell_entry(c) && ((c & (1u32 << 31u32)) != 0) == cell_value(c)
        && ((c & (1u32 << 30u32)) != 0) == cell_on_stack(c) && !cell_value(0u32) && !cell_on_stack(0u32))
        by (bit_vector);
}


/// A bitset with O(1) search for a zero element, kept in one 32-bit cell per
/// element: bit 31 holds the element, bit 30 says whether the index is on the
/// stack of zero candidates, and bits 0 to 29 of cell `j` hold stack entry `j`.
pub struct BitSetRaw {
    data: Vec<u32>,
    size: usize,
    count0: usize,
    stack_size: usize,
}

impl View for BitSetRaw {
    type V = Seq<bool>;

    closed spec fn view(&self) -> Seq<bool> {
        Seq::new(self.size as nat, |i: int| cell_value(self.data@[i]))
    }
}

impl BitSetRaw {
    closed spec fn stack_seq(&self) -> Seq<usize> {
        Seq::new(self.stack_size as nat, |j: int| cell_entry(self.data@[j]) as usize)
    }

    /// The cell buffer has one cell per element and indices fit in a stack entry.
    pub closed spec fn shape_wf(&self) -> bool {
        &&& self.data.len() == self.size
        &&& self.size <= MAX_ELEMENTS
        &&& self.size * 4 <= usize::MAX
    }

    closed spec fn stack_wf(&self) -> bool {
        &&& self.stack_size <= self.size
        &&& forall|j: int| 0 <= j < self.stack_size ==> #[trigger] self.stack_seq()[j] < self.size
        &&& self.stack_seq().no_duplicates()
        &&& forall|i: usize|
            i < self.size ==> (cell_on_stack(self.data@[i as int]) <==> #[trigger] self.stack_seq().contains(i))
    }

    closed spec fn zeros_on_stack(&self) -> bool {
        forall|i: usize| i < self.size && !self@[i as int] ==> #[trigger] self.stack_seq().contains(i)
    }

    closed spec fn count_wf(&self) -> bool {
        self.count0 == zeros(self@).len()
    }

    /// The internal invariant of the bitset.
    pub closed spec fn wf(&self) -> bool {
        &&& self.shape_wf()
        &&& self.stack_wf()
        &&& self.zeros_on_stack()
        &&& self.count_wf()
    }

    /// Number of zero elements, as a mathematical value.
    pub open spec fn spec_count0(&self) -> nat {
        zeros(self@).len()
    }

    /// A well-formed bitset has at most `MAX_ELEMENTS` elements.
    pub proof fn lemma_len_bound(&self)
        requires
            self.wf(),
        ensures
            self@.len() <= MAX_ELEMENTS,
            self@.len() * 4 <= usize::MAX,
    {
    }

    proof fn lemma_stack_bound(&self, missing: usize)
        requires
            self.shape_wf(),
            self.stack_wf(),
            missing < self.size,
            !self.stack_seq().contains(missing),
        ensures
            self.stack_size < self.size,
    {
        let s = self.stack_seq();
        s.unique_seq_to_set();
        <usize as vstd::set_lib::FiniteRange>::range_properties(0, self.size);
        let r = Set::<usize>::range(0, self.size);
        assert(s.to_set().insert(missing).subset_of(r)) by {
            assert forall|x: usize| s.to_set().insert(missing).contains(x) implies r.contains(x) by {
                if x != missing {
                    let j = choose|j: int| 0 <= j < s.len() && s[j] == x;
                    assert(s[j] < self.size);
                }
            }
        }
        vstd::set_lib::lemma_len_subset(s.to_set().insert(missing), r);
    }

    proof fn lemma_count_bound(&self)
        requires
            self.wf(),
        ensures
            self.count0 <= self.stack_size,
    {
        let s = self.stack_seq();
        s.unique_seq_to_set();
        vstd::seq_lib::seq_to_set_is_finite(s);
        assert(zeros(self@).subset_of(s.to_set()));
        vstd::set_lib::lemma_len_subset(zeros(self@), s.to_set());
    }

    /// Writes cell `i`; the cells other than `i` keep their values.
    fn write_cell(&mut self, i: usize, c: u32)
        requires
            i < old(self).data.len(),
        ensures
            final(self).data@ == old(self).data@.update(i as int, c),
            final(self).size == old(self).size,
            final(self).count0 == old(self).count0,
            final(self).stack_size == old(self).stack_size,
    {
        self.data.set(i, c);
    }

    /// A bitset of no elements.
    pub fn new_empty() -> (r: BitSetRaw)
        ensures
            r.wf(),
            r@ == Seq::<bool>::empty(),
            r.spec_count0() == 0,
    {
        let r = BitSetRaw { data: Vec::new(), size: 0, count0: 0, stack_size: 0 };
        assert(zeros(r@) =~= Set::empty());
        assert(r.stack_seq() =~= Seq::<usize>::empty());
        r
    }

    /// A bitset of `size` elements, all zero.
    pub fn new(size: usize) -> (r: BitSetRaw)
        requires
            size <= MAX_ELEMENTS,
            size * 4 <= usize::MAX,
        ensures
            r.wf(),
            r@ == Seq::new(size as nat, |i: int| false),
            r.spec_count0() == size,
    {
        let mut res = BitSetRaw { data: vec![0u32; size], size, count0: 0, stack_size: 0 };
        res.clear();
        res
    }

    /// A bitset of `size` elements whose cells are taken from `data` (not cleared).
    pub fn new_from(size: usize, data: Vec<u32>) -> (r: BitSetRaw)
        requires
            size <= MAX_ELEMENTS,
            size * 4 <= usize::MAX,
            data.len() == size,
        ensures
            r.wf(),
            r@ == Seq::new(size as nat, |i: int| cell_value(data@[i])),
    {
        let mut res = BitSetRaw { data, size, count0: 0, stack_size: 0 };
        res.update_count0();
        res.setup_stack();
        res
    }

    fn update_count0(&mut self)
        requires
            old(self).shape_wf(),
        ensures
            final(self).shape_wf(),
            final(self).count_wf(),
            final(self).data == old(self).data,
            final(self).size == old(self).size,
            final(self).stack_size == old(self).stack_size,
    {
        self.count0 = 0;
        let mut i: usize = 0;
        assert(zeros(self@.subrange(0, 0)) =~= Set::empty());
        while i < self.size
            invariant
                self.shape_wf(),
                self.data == old(self).data,
                self.size == old(self).size,
                self.stack_size == old(self).stack_size,
                i <= self.size,
                self.count0 == zeros(self@.subrange(0, i as int)).len(),
            decreases self.size - i,
        {
            let ghost pre = self@.subrange(0, i as int);
            let ghost post = self@.subrange(0, i + 1);
            proof {
                lemma_zeros_finite(pre);
            }
            let b = self.get_bit(i);
            if !b {
                assert(zeros(post) =~= zeros(pre).insert(i));
                self.count0 = self.count0 + 1;
            } else {
                assert(zeros(post) =~= zeros(pre));
            }
            i = i + 1;
        }
        assert(self@.subrange(0, self.size as int) =~= self@);
    }

    fn setup_stack(&mut self)
        requires
            old(self).shape_wf(),
        ensures
            final(self).shape_wf(),
            final(self).stack_wf(),
            final(self).zeros_on_stack(),
            final(self)@ == old(self)@,
            final(self).count0 == old(self).count0,
    {
        self.stack_size = 0;
        let mut k: usize = 0;
        while k < self.size
            invariant
                self.shape_wf(),
                self@ == old(self)@,
                self.count0 == old(self).count0,
                self.stack_size == 0,
                k <= self.size,
                forall|j: int| 0 <= j < k ==> !cell_on_stack(#[trigger] self.data@[j]),
            decreases self.size - k,
        {
            let c = self.data[k];
            proof {
                lemma_cell_ops(c, 0);
            }
            self.write_cell(k, c & !(1u32 << 30u32));
            assert(self@ =~= old(self)@);
            k = k + 1;
        }
        assert(self.stack_seq() =~= Seq::<usize>::empty());
        let mut i: usize = 0;
        while i < self.size
            invariant
                self.shape_wf(),
                self.stack_wf(),
                self@ == old(self)@,
                self.count0 == old(self).count0,
                i <= self.size,
                forall|x: usize| #[trigger] self.stack_seq().contains(x) ==> x < i,
                forall|x: usize| x < i && !self@[x as int] ==> #[trigger] self.stack_seq().contains(x),
            decreases self.size - i,
        {
            if !self.get_bit(i) {
                self.add_to_stack(i);
            }
            i = i + 1;
        }
    }

    fn add_to_stack(&mut self, index: usize)
        requires
            old(self).shape_wf(),
            old(self).stack_wf(),
            index < old(self).size,
        ensures
            final(self).shape_wf(),
            final(self).stack_wf(),
            final(self)@ == old(self)@,
            final(self).count0 == old(self).count0,
            final(self).size == old(self).size,
            final(self).stack_seq().contains(index),
            forall|x: usize|
                #[trigger] final(self).stack_seq().contains(x) <==> (old(self).stack_seq().contains(x) || x
                    == index),
    {
        let c = self.data[index];
        proof {
            lemma_cell_ops(c, 0);
        }
        if (c & (1u32 << 30u32)) != 0 {
            return;
        }
        proof {
            self.lemma_stack_bound(index);
        }
        let ghost old_seq = self.stack_seq();
        let ghost old_data = self.data@;
        assert(!old_seq.contains(index));
        self.write_cell(index, c | (1u32 << 30u32));
        let top = self.stack_size;
        let d = self.data[top];
        let e = index as u32;
        proof {
            lemma_cell_ops(d, e);
            lemma_cell_ops(c, 0);
        }
        self.write_cell(top, (d & 0xc000_0000u32) | e);
        self.stack_size = self.stack_size + 1;
        proof {
            assert forall|i: int| 0 <= i < self.size implies cell_value(self.data@[i]) == cell_value(old_data[i])
                && (i != index ==> cell_on_stack(self.data@[i]) == cell_on_stack(old_data[i])) by {
                lemma_cell_ops(old_data[i], e);
            }
            assert forall|j: int| 0 <= j < old_seq.len() implies cell_entry(self.data@[j]) == cell_entry(old_data[j]) by {
                lemma_cell_ops(old_data[j], e);
                lemma_cell_ops(old_data[j], 0);
            }
            assert(self@ =~= old(self)@);
            assert(self.stack_seq() =~= old_seq.push(index));
            assert(self.stack_seq().no_duplicates()) by {
                assert forall|a: int, b: int| 0 <= a < b < self.stack_seq().len() implies self.stack_seq()[a]
                    != self.stack_seq()[b] by {
                    assert(old_seq[a] == self.stack_seq()[a]);
                    if b < old_seq.len() {
                        assert(old_seq[b] == self.stack_seq()[b]);
                    }
                }
            }
            assert forall|i: usize| i < self.size implies (cell_on_stack(self.data@[i as int])
                <==> #[trigger] self.stack_seq().contains(i)) by {
                if i != index {
                    if old_seq.contains(i) {
                        let j = choose|j: int| 0 <= j < old_seq.len() && old_seq[j] == i;
                        assert(self.stack_seq()[j] == i);
                    }
                    if self.stack_seq().contains(i) {
                        let j = choose|j: int| 0 <= j < self.stack_seq().len() && self.stack_seq()[j] == i;
                        assert(old_seq[j] == i);
                    }
                } else {
                    lemma_cell_ops(c, e);
                    assert(self.stack_seq()[old_seq.len() as int] == index);
                }
            }
            assert forall|x: usize| #[trigger] self.stack_seq().contains(x) <==> (old_seq.contains(x) || x == index) by {
                if old_seq.contains(x) {
                    let j = choose|j: int| 0 <= j < old_seq.len() && old_seq[j] == x;
                    assert(self.stack_seq()[j] == x);
                }
                if x == index {
                    assert(self.stack_seq()[old_seq.len() as int] == index);
                }
                if self.stack_seq().contains(x) {
                    let j = choose|j: int| 0 <= j < self.stack_seq().len() && self.stack_seq()[j] == x;
                    if j < old_seq.len() {
                        assert(old_seq[j] == x);
                    }
                }
            }
        }
    }

    fn stack_top(&self) -> (r: usize)
        requires
            self.stack_wf(),
            self.shape_wf(),
            self.stack_size > 0,
        ensures
            r == self.stack_seq().last(),
            r < self.size,
    {
        let c = self.data[self.stack_size - 1];
        proof {
            lemma_cell_ops(c, 0);
        }
        (c & !0xc000_0000u32) as usize
    }

    fn pop_stack(&mut self)
        requires
            old(self).wf(),
            old(self).stack_size > 0,
            old(self)@[old(self).stack_seq().last() as int],
        ensures
            final(self).wf(),
            final(self)@ == old(self)@,
            final(self).count0 == old(self).count0,
            final(self).stack_size == old(self).stack_size - 1,
    {
        let top = self.stack_top();
        let ghost old_seq = self.stack_seq();
        let ghost old_data = self.data@;
        let c = self.data[top];
        proof {
            lemma_cell_ops(c, 0);
        }
        self.write_cell(top, c & !(1u32 << 30u32));
        self.stack_size = self.stack_size - 1;
        proof {
            assert forall|i: int| 0 <= i < self.size implies cell_value(self.data@[i]) == cell_value(old_data[i])
                && cell_entry(self.data@[i]) == cell_entry(old_data[i])
                && (i != top ==> cell_on_stack(self.data@[i]) == cell_on_stack(old_data[i])) by {
                lemma_cell_ops(old_data[i], 0);
            }
            assert(self@ =~= old(self)@);
            assert(self.stack_seq() =~= old_seq.drop_last());
            assert forall|i: usize| i < self.size implies (cell_on_stack(self.data@[i as int])
                <==> #[trigger] self.stack_seq().contains(i)) by {
                if i != top {
                    if old_seq.contains(i) {
                        let j = choose|j: int| 0 <= j < old_seq.len() && old_seq[j] == i;
                        assert(j != old_seq.len() - 1);
                        assert(self.stack_seq()[j] == i);
                    }
                    if self.stack_seq().contains(i) {
                        let j = choose|j: int| 0 <= j < self.stack_seq().len() && self.stack_seq()[j] == i;
                        assert(old_seq[j] == i);
                    }
                } else {
                    if self.stack_seq().contains(i) {
                        let j = choose|j: int| 0 <= j < self.stack_seq().len() && self.stack_seq()[j] == i;
                        assert(old_seq[j] == old_seq[old_seq.len() - 1]);
                    }
                }
            }
            assert forall|i: usize| i < self.size && !self@[i as int] implies #[trigger] self.stack_seq().contains(i) by {
                assert(old_seq.contains(i));
                let j = choose|j: int| 0 <= j < old_seq.len() && old_seq[j] == i;
                assert(j != old_seq.len() - 1);
                assert(self.stack_seq()[j] == i);
            }
        }
    }

    /// Writes the value bit of cell `index`; flags and stack entries stay.
    fn write_value(&mut self, index: usize, val: bool)
        requires
            old(self).shape_wf(),
            old(self).stack_wf(),
            index < old(self).size,
        ensures
            final(self).shape_wf(),
            final(self).stack_wf(),
            final(self)@ == old(self)@.update(index as int, val),
            final(self).stack_seq() == old(self).stack_seq(),
            final(self).count0 == old(self).count0,
            final(self).size == old(self).size,
    {
        let ghost old_data = self.data@;
        let c = self.data[index];
        proof {
            lemma_cell_ops(c, 0);
        }
        if val {
            self.write_cell(index, c | (1u32 << 31u32));
        } else {
            self.write_cell(index, c & !(1u32 << 31u32));
        }
        proof {
            assert forall|i: int| 0 <= i < self.size implies cell_entry(self.data@[i]) == cell_entry(old_data[i])
                && cell_on_stack(self.data@[i]) == cell_on_stack(old_data[i])
                && (i != index ==> cell_value(self.data@[i]) == cell_value(old_data[i])) by {
                lemma_cell_ops(old_data[i], 0);
            }
            assert(self@ =~= old(self)@.update(index as int, val));
            assert(self.stack_seq() =~= old(self).stack_seq());
        }
    }

    /// Sets element `index` to `val`.
    pub fn set(&mut self, index: usize, val: bool)
        requires
            old(self).wf(),
            index < old(self)@.len(),
        ensures
            final(self).wf(),
            final(self)@ == old(self)@.update(index as int, val),
            final(self).spec_count0() == old(self).spec_count0() + (if !val && old(self)@[index as int] {
                1int
            } else if val && !old(self)@[index as int] {
                -1int
            } else {
                0int
            }),
    {
        let ghost old_view = self@;
        let cur = self.get_bit(index);
        proof {
            lemma_zeros_finite(old_view);
        }
        if !val && cur {
            assert(zeros(old_view).len() < old_view.len()) by {
                <usize as vstd::set_lib::FiniteRange>::range_properties(0, self.size);
                vstd::set_lib::lemma_len_subset(zeros(old_view).insert(index), Set::<usize>::range(0, self.size));
            }
            self.count0 = self.count0 + 1;
        } else if val && !cur {
            assert(zeros(old_view).contains(index));
            self.count0 = self.count0 - 1;
        }
        self.write_value(index, val);
        proof {
            if val {
                assert(zeros(self@) =~= zeros(old_view).remove(index));
            } else {
                assert(zeros(self@) =~= zeros(old_view).insert(index));
            }
        }
        if !val {
            self.add_to_stack(index);
        }
        proof {
            assert forall|i: usize| i < self.size && !self@[i as int] implies #[trigger] self.stack_seq().contains(i) by {
                if i != index {
                    assert(!old_view[i as int]);
                }
            }
        }
    }

    /// Element `index`.
    pub fn get(&self, index: usize) -> (r: bool)
        requires
            self.wf(),
            index < self@.len(),
        ensures
            r == self@[index as int],
    {
        self.get_bit(index)
    }

    fn get_bit(&self, index: usize) -> (r: bool)
        requires
            self.shape_wf(),
            index < self@.len(),
        ensures
            r == self@[index as int],
    {
        let c = self.data[index];
        proof {
            lemma_cell_ops(c, 0);
        }
        (c & (1u32 << 31u32)) != 0
    }

    /// Bytes taken by this bitset.
    pub fn get_size_bytes(&self) -> (r: usize)
        requires
            self.wf(),
        ensures
            r == spec_bitset_size_bytes(self@.len() as int),
    {
        bitset_size_bytes(self.size)
    }

    /// Number of elements.
    pub fn get_size(&self) -> (r: usize)
        ensures
            r == self@.len(),
    {
        self.size
    }

    /// Some element that is zero, or `None` when every element is one.
    pub fn get_zero_element(&mut self) -> (r: Option<usize>)
        requires
            old(self).wf(),
        ensures
            final(self).wf(),
            final(self)@ == old(self)@,
            match r {
                Some(i) => i < old(self)@.len() && !old(self)@[i as int],
                None => forall|i: int| 0 <= i < old(self)@.len() ==> old(self)@[i],
            },
            r is None <==> old(self).spec_count0() == 0,
    {
        if self.count0 == 0 {
            proof {
                lemma_zeros_finite(self@);
                assert forall|i: int| 0 <= i < self@.len() implies self@[i] by {
                    if !self@[i] {
                        assert(zeros(self@).contains(i as usize));
                    }
                }
            }
            return None;
        }
        loop
            invariant
                self.wf(),
                self@ == old(self)@,
                self.count0 == old(self).count0,
                self.count0 > 0,
            decreases self.stack_size,
        {
            proof {
                self.lemma_count_bound();
            }
            let idx = self.stack_top();
            if !self.get_bit(idx) {
                proof {
                    lemma_zeros_finite(self@);
                    assert(zeros(self@).contains(idx));
                }
                return Some(idx);
            }
            self.pop_stack();
        }
    }

    /// Sets every element to zero.
    pub fn clear(&mut self)
        requires
            old(self).shape_wf(),
        ensures
            final(self).wf(),
            final(self)@ == Seq::new(old(self)@.len(), |i: int| false),
            final(self).spec_count0() == old(self)@.len(),
    {
        let mut k: usize = 0;
        while k < self.size
            invariant
                self.shape_wf(),
                self.size == old(self).size,
                k <= self.size,
                forall|j: int| 0 <= j < k ==> self.data@[j] == 0u32,
            decreases self.size - k,
        {
            self.write_cell(k, 0u32);
            k = k + 1;
        }
        proof {
            lemma_cell_ops(0u32, 0);
            <usize as vstd::set_lib::FiniteRange>::range_properties(0, self.size);
            assert(zeros(self@) =~= Set::<usize>::range(0, self.size));
            assert(self@ =~= Seq::new(old(self)@.len(), |i: int| false));
        }
        self.count0 = self.size;
        self.setup_stack();
    }

    /// Number of zero elements.
    pub fn get_count0(&self) -> (r: usize)
        requires
            self.wf(),
        ensures
            r == self.spec_count0(),
    {
        self.count0
    }

    /// Replaces the elements by the first `size` bits of the packed words `src`.
    pub fn load_from(&mut self, src: &Vec<u64>)
        requires
            old(self).wf(),
            old(self)@.len() <= 64 * src.len(),
        ensures
            final(self).wf(),
            final(self)@ == Seq::new(old(self)@.len(), |i: int| words_bit(src@, i)),
    {
        let mut i: usize = 0;
        while i < self.size
            invariant
                self.shape_wf(),
                self.stack_wf(),
                self.size == old(self).size,
                self.size <= 64 * src.len(),
                i <= self.size,
                forall|j: int| 0 <= j < i ==> self@[j] == words_bit(src@, j),
            decreases self.size - i,
        {
            let val = get_raw(src, i);
            self.write_value(i, val);
            i = i + 1;
        }
        assert(self@ =~= Seq::new(old(self)@.len(), |i: int| words_bit(src@, i)));
        self.update_count0();
        self.setup_stack();
    }

    /// Packs the elements into the first `size` bits of `dst`; later bits keep their values.
    pub fn store_to(&self, dst: &mut Vec<u64>)
        requires
            self.wf(),
            self@.len() <= 64 * old(dst).len(),
        ensures
            final(dst).len() == old(dst).len(),
            forall|i: int| 0 <= i < self@.len() ==> words_bit(final(dst)@, i) == self@[i],
            forall|i: int| self@.len() <= i < 64 * old(dst).len() ==> words_bit(final(dst)@, i) == words_bit(old(dst)@, i),
    {
        let mut i: usize = 0;
        while i < self.size
            invariant
                self.wf(),
                dst.len() == old(dst).len(),
                self.size <= 64 * dst.len(),
                i <= self.size,
                forall|j: int| 0 <= j < i ==> words_bit(dst@, j) == self@[j],
                forall|j: int| i <= j < 64 * dst.len() ==> words_bit(dst@, j) == words_bit(old(dst)@, j),
            decreases self.size - i,
        {
            let val = self.get_bit(i);
            set_raw(dst, i, val);
            i = i + 1;
        }
    }

    /// Appends one zero element.
    pub fn add_one(&mut self)
        requires
            old(self).wf(),
            old(self)@.len() < MAX_ELEMENTS,
            (old(self)@.len() + 1) * 4 <= usize::MAX,
        ensures
            final(self).wf(),
            final(self)@ == old(self)@.push(false),
            final(self).spec_count0() == old(self).spec_count0() + 1,
    {
        let ghost old_view = self@;
        let ghost old_seq = self.stack_seq();
        proof {
            lemma_zeros_finite(old_view);
        }
        self.data.push(0u32);
        self.size = self.size + 1;
        self.count0 = self.count0 + 1;
        proof {
            lemma_cell_ops(0u32, 0);
            assert(self@ =~= old_view.push(false));
            assert(self.stack_seq() =~= old_seq);
            assert(zeros(self@) =~= zeros(old_view).insert((self.size - 1) as usize));
            assert(!zeros(old_view).contains((self.size - 1) as usize));
        }
        self.add_to_stack(self.size - 1);
        proof {
            assert forall|i: usize| i < self.size && !self@[i as int] implies #[trigger] self.stack_seq().contains(i) by {
                if i != self.size - 1 {
                    assert(!old_view[i as int]);
                    assert(old_seq.contains(i));
                }
            }
        }
    }
}

/// A bitset of `size` zero elements that owns its storage.
pub struct BitSet {
    bitset: BitSetRaw,
}

impl View for BitSet {
    type V = Seq<bool>;

    closed spec fn view(&self) -> Seq<bool> {
        self.bitset@
    }
}

impl BitSet {
    /// The internal invariant.
    pub closed spec fn wf(&self) -> bool {
        self.bitset.wf()
    }

    /// A bitset of `size` zero elements.
    pub fn new(size: usize) -> (r: BitSet)
        requires
            size <= MAX_ELEMENTS,
            size * 4 <= usize::MAX,
        ensures
            r.wf(),
            r@ == Seq::new(size as nat, |i: int| false),
            zeros(r@).len() == size,
    {
        let data = vec![0u32; size];
        let bitset = BitSetRaw::new_from(size, data);
        proof {
            lemma_cell_ops(0u32, 0);
            assert(bitset@ =~= Seq::new(size as nat, |i: int| false));
            <usize as vstd::set_lib::FiniteRange>::range_properties(0, size);
            assert(zeros(bitset@) =~= Set::<usize>::range(0, size));
        }
        BitSet { bitset }
    }

    /// The underlying bitset.
    pub fn raw(&self) -> (r: &BitSetRaw)
        ensures
            r@ == self@,
            self.wf() ==> r.wf(),
    {
        &self.bitset
    }

    /// The underlying bitset, for changes.
    pub fn raw_mut(&mut self) -> (r: &mut BitSetRaw)
        ensures
            r@ == old(self)@,
            old(self).wf() ==> r.wf(),
            final(self)@ == final(r)@,
            final(r).wf() ==> final(self).wf(),
    {
        &mut self.bitset
    }
}

} // verus!
