use vstd::prelude::*;

verus! {

use crate::bits::{words_bit, num_words, lemma_zero_word};
use crate::std_lib::bitset::{get_raw, set_raw};

/// Bytes taken by a bitset of `size` elements: the bits, the "is on stack" bits
/// and a stack of one 32-bit entry per element.
pub open spec fn spec_bitset_size_bytes(size: int) -> int {
    2 * (num_words(size) * 8) + size * 4
}

/// The set of indices whose bit is zero.
pub open spec fn zeros(v: Seq<bool>) -> Set<usize> {
    Set::new(|i: usize| i < v.len() && !v[i as int])
}

/// Bytes taken by a bitset of `size` elements.
pub fn bitset_size_bytes(size: usize) -> (r: usize)
    requires
        spec_bitset_size_bytes(size as int) <= usize::MAX,
    ensures
        r == spec_bitset_size_bytes(size as int),
{
    let s1 = (size / 64 + if size % 64 == 0 { 0 } else { 1 }) * 8;
    let s2 = s1;
    let s3 = size * 4;
    assert(size / 64 + (if size % 64 == 0 { 0int } else { 1int }) == num_words(size as int));
    s1 + s2 + s3
}

/// The finite set `zeros(v)` has at most `v.len()` elements.
pub proof fn lemma_zeros_finite(v: Seq<bool>)
    requires
        v.len() <= usize::MAX,
    ensures
        zeros(v).finite(),
        zeros(v).len() <= v.len(),
{
    <usize as vstd::set_lib::FiniteRange>::range_properties(0, v.len() as usize);
    vstd::set_lib::lemma_len_subset(zeros(v), Set::<usize>::range(0, v.len() as usize));
}

/// The bits `v` with each element of `picks` set to one.
pub open spec fn fill(v: Seq<bool>, picks: Seq<usize>) -> Seq<bool> {
    Seq::new(v.len(), |i: int| v[i] || picks.contains(i as usize))
}

/// Filling a bitset one zero element at a time, as `get_zero_element` followed by
/// `set(i, true)` does: no element is taken twice, each step leaves one zero fewer, and
/// once as many steps have run as there were zeros, every element is one.
pub proof fn lemma_fill(v: Seq<bool>, picks: Seq<usize>)
    requires
        v.len() <= usize::MAX,
        forall|k: int|
            0 <= k < picks.len() ==> (#[trigger] picks[k]) < v.len() && !fill(v, picks.take(k))[picks[k] as int],
    ensures
        forall|j: int, k: int| 0 <= j < k < picks.len() ==> picks[j] != picks[k],
        picks.len() <= zeros(v).len(),
        zeros(fill(v, picks)).len() == zeros(v).len() - picks.len(),
        picks.len() == zeros(v).len() ==> forall|i: int| 0 <= i < v.len() ==> fill(v, picks)[i],
    decreases picks.len(),
{
    lemma_zeros_finite(v);
    if picks.len() == 0 {
        assert(fill(v, picks) =~= v);
    } else {
        let n = picks.len() - 1;
        let q = picks.take(n);
        let p = picks[n];
        assert forall|k: int| 0 <= k < q.len() implies (#[trigger] q[k]) < v.len() && !fill(v, q.take(k))[q[k] as int] by {
            assert(q.take(k) =~= picks.take(k));
            assert(q[k] == picks[k]);
        }
        lemma_fill(v, q);
        let f = fill(v, q);
        assert(!f[p as int]);
        assert(fill(v, picks) =~= f.update(p as int, true)) by {
            assert(picks =~= q.push(p));
        }
        lemma_zeros_finite(f);
        assert(zeros(fill(v, picks)) =~= zeros(f).remove(p));
        assert(zeros(f).contains(p));
        assert forall|j: int, k: int| 0 <= j < k < picks.len() implies picks[j] != picks[k] by {
            if k == n {
                assert(q[j] == picks[j]);
                assert(q.contains(picks[j]));
                assert(f[picks[j] as int]);
            } else {
                assert(q[j] == picks[j] && q[k] == picks[k]);
            }
        }
        if picks.len() == zeros(v).len() {
            assert forall|i: int| 0 <= i < v.len() implies fill(v, picks)[i] by {
                if !fill(v, picks)[i] {
                    assert(zeros(fill(v, picks)).contains(i as usize));
                }
            }
        }
    }
    if picks.len() == 0 && picks.len() == zeros(v).len() {
        assert forall|i: int| 0 <= i < v.len() implies fill(v, picks)[i] by {
            if !fill(v, picks)[i] {
                assert(zeros(fill(v, picks)).contains(i as usize));
            }
        }
    }
}

/// A bitset with O(1) search for a zero element.
///
/// Every index whose bit is zero sits on a stack of candidates; stale candidates
/// (indices set to one since they were pushed) are dropped lazily when the stack
/// top is examined.
pub struct BitSetRaw {
    data: Vec<u64>,
    stack_bits: Vec<u64>,
    stack: Vec<usize>,
    size: usize,
    count0: usize,
    stack_size: usize,
}

impl View for BitSetRaw {
    type V = Seq<bool>;

    closed spec fn view(&self) -> Seq<bool> {
        Seq::new(self.size as nat, |i: int| words_bit(self.data@, i))
    }
}

impl BitSetRaw {
    /// The candidates currently on the stack.
    closed spec fn stack_seq(&self) -> Seq<usize> {
        self.stack@.subrange(0, self.stack_size as int)
    }

    /// The buffers have the lengths that `size` asks for.
    pub closed spec fn shape_wf(&self) -> bool {
        &&& self.data.len() == num_words(self.size as int)
        &&& self.stack_bits.len() == num_words(self.size as int)
        &&& self.stack.len() == self.size
        &&& spec_bitset_size_bytes(self.size as int) <= usize::MAX
    }

    closed spec fn stack_wf(&self) -> bool {
        &&& self.stack_size <= self.size
        &&& forall|j: int| 0 <= j < self.stack_size ==> #[trigger] self.stack@[j] < self.size
        &&& self.stack_seq().no_duplicates()
        &&& forall|i: usize|
            i < self.size ==> (words_bit(self.stack_bits@, i as int) <==> #[trigger] self.stack_seq().contains(i))
    }

    closed spec fn zeros_on_stack(&self) -> bool {
        forall|i: usize| i < self.size && !self@[i as int] ==> #[trigger] self.stack_seq().contains(i)
    }

    closed spec fn count_wf(&self) -> bool {
        self.count0 == zeros(self@).len()
    }

    /// The internal invariant of the bitset.
    pub closed spec fn wf(&self) -> bool {
        &&& self.shape_wf()
        &&& self.stack_wf()
        &&& self.zeros_on_stack()
        &&& self.count_wf()
    }

    /// Number of zero bits, as a mathematical value.
    pub open spec fn spec_count0(&self) -> nat {
        zeros(self@).len()
    }

    /// A well-formed bitset has a well-formed shape.
    pub proof fn lemma_wf_shape(&self)
        requires
            self.wf(),
        ensures
            self.shape_wf(),
    {
    }

    proof fn lemma_index_word(&self, i: int)
        requires
            self.shape_wf(),
            0 <= i < self.size,
        ensures
            i / 64 < self.data.len(),
            i / 64 < self.stack_bits.len(),
            i < 64 * self.data.len(),
    {
    }

    /// The stack holds at most `size` candidates, and fewer when some index is missing.
    proof fn lemma_stack_bound(&self, missing: usize)
        requires
            self.shape_wf(),
            self.stack_wf(),
            missing < self.size,
            !self.stack_seq().contains(missing),
        ensures
            self.stack_size < self.size,
    {
        let s = self.stack_seq();
        s.unique_seq_to_set();
        <usize as vstd::set_lib::FiniteRange>::range_properties(0, self.size);
        let r = Set::<usize>::range(0, self.size);
        assert(s.to_set().insert(missing).subset_of(r)) by {
            assert forall|x: usize| s.to_set().insert(missing).contains(x) implies r.contains(x) by {
                if x != missing {
                    let j = choose|j: int| 0 <= j < s.len() && s[j] == x;
                    assert(self.stack@[j] == x);
                }
            }
        }
        vstd::set_lib::lemma_len_subset(s.to_set().insert(missing), r);
    }

    /// Zeros are all candidates, so there are no more zeros than candidates.
    proof fn lemma_count_bound(&self)
        requires
            self.wf(),
        ensures
            self.count0 <= self.stack_size,
    {
        let s = self.stack_seq();
        s.unique_seq_to_set();
        vstd::seq_lib::seq_to_set_is_finite(s);
        assert(zeros(self@).subset_of(s.to_set()));
        vstd::set_lib::lemma_len_subset(zeros(self@), s.to_set());
    }

    /// A bitset of no elements.
    pub fn new_empty() -> (r: BitSetRaw)
        ensures
            r.wf(),
            r@ == Seq::<bool>::empty(),
            r.spec_count0() == 0,
    {
        let r = BitSetRaw {
            data: Vec::new(),
            stack_bits: Vec::new(),
            stack: Vec::new(),
            size: 0,
            count0: 0,
            stack_size: 0,
        };
        assert(zeros(r@) =~= Set::empty());
        r
    }

    /// A bitset of `size` elements, all zero.
    pub fn new(size: usize) -> (r: BitSetRaw)
        requires
            spec_bitset_size_bytes(size as int) <= usize::MAX,
        ensures
            r.wf(),
            r@ == Seq::new(size as nat, |i: int| false),
            r.spec_count0() == size,
    {
        let nw = size / 64 + if size % 64 == 0 { 0 } else { 1 };
        let mut res = BitSetRaw {
            data: vec![0u64; nw],
            stack_bits: vec![0u64; nw],
            stack: vec![0usize; size],
            size,
            count0: 0,
            stack_size: 0,
        };
        res.clear();
        res
    }

    /// A bitset of `size` elements whose bits are taken from `data` (not cleared).
    pub fn new_from(size: usize, data: Vec<u64>) -> (r: BitSetRaw)
        requires
            spec_bitset_size_bytes(size as int) <= usize::MAX,
            data.len() == num_words(size as int),
        ensures
            r.wf(),
            r@ == Seq::new(size as nat, |i: int| words_bit(data@, i)),
    {
        let nw = size / 64 + if size % 64 == 0 { 0 } else { 1 };
        let mut res = BitSetRaw {
            data,
            stack_bits: vec![0u64; nw],
            stack: vec![0usize; size],
            size,
            count0: 0,
            stack_size: 0,
        };
        res.update_count0();
        res.setup_stack();
        res
    }

    /// Recounts the zero bits.
    fn update_count0(&mut self)
        requires
            old(self).shape_wf(),
        ensures
            final(self).shape_wf(),
            final(self).count_wf(),
            final(self)@ == old(self)@,
            final(self).stack_bits == old(self).stack_bits,
            final(self).stack == old(self).stack,
            final(self).stack_size == old(self).stack_size,
    {
        self.count0 = 0;
        let mut i: usize = 0;
        assert(zeros(self@.subrange(0, 0)) =~= Set::empty());
        while i < self.size
            invariant
                self.shape_wf(),
                self@ == old(self)@,
                self.stack_bits == old(self).stack_bits,
                self.stack == old(self).stack,
                self.stack_size == old(self).stack_size,
                i <= self.size,
                self.count0 == zeros(self@.subrange(0, i as int)).len(),
            decreases self.size - i,
        {
            let ghost pre = self@.subrange(0, i as int);
            let ghost post = self@.subrange(0, i + 1);
            proof {
                lemma_zeros_finite(pre);
            }
            let b = self.get_bit(i);
            if !b {
                assert(zeros(post) =~= zeros(pre).insert(i));
                self.count0 = self.count0 + 1;
            } else {
                assert(zeros(post) =~= zeros(pre));
            }
            i = i + 1;
        }
        assert(self@.subrange(0, self.size as int) =~= self@);
    }

    /// Rebuilds the stack of candidates from the bits.
    fn setup_stack(&mut self)
        requires
            old(self).shape_wf(),
        ensures
            final(self).shape_wf(),
            final(self).stack_wf(),
            final(self).zeros_on_stack(),
            final(self)@ == old(self)@,
            final(self).count0 == old(self).count0,
    {
        self.stack_size = 0;
        let nw = self.stack_bits.len();
        let mut k: usize = 0;
        while k < nw
            invariant
                self.shape_wf(),
                self@ == old(self)@,
                self.count0 == old(self).count0,
                self.stack_size == 0,
                nw == self.stack_bits.len(),
                k <= nw,
                forall|j: int| 0 <= j < k ==> self.stack_bits@[j] == 0u64,
            decreases nw - k,
        {
            self.stack_bits.set(k, 0u64);
            k = k + 1;
        }
        assert(self.stack_seq() =~= Seq::<usize>::empty());
        assert forall|i: usize| i < self.size implies !words_bit(self.stack_bits@, i as int) by {
            self.lemma_index_word(i as int);
            lemma_zero_word((i % 64) as u64);
        }
        let mut i: usize = 0;
        while i < self.size
            invariant
                self.shape_wf(),
                self.stack_wf(),
                self@ == old(self)@,
                self.count0 == old(self).count0,
                i <= self.size,
                forall|x: usize| #[trigger] self.stack_seq().contains(x) ==> x < i,
                forall|x: usize| x < i && !self@[x as int] ==> #[trigger] self.stack_seq().contains(x),
            decreases self.size - i,
        {
            if !self.get_bit(i) {
                self.add_to_stack(i);
            }
            i = i + 1;
        }
    }

    /// Pushes `index` on the stack of candidates unless it is already there.
    fn add_to_stack(&mut self, index: usize)
        requires
            old(self).shape_wf(),
            old(self).stack_wf(),
            index < old(self).size,
        ensures
            final(self).shape_wf(),
            final(self).stack_wf(),
            final(self)@ == old(self)@,
            final(self).count0 == old(self).count0,
            final(self).size == old(self).size,
            final(self).stack_seq().contains(index),
            forall|x: usize| #[trigger] final(self).stack_seq().contains(x) <==> (old(self).stack_seq().contains(x) || x == index),
    {
        proof {
            self.lemma_index_word(index as int);
        }
        if get_raw(&self.stack_bits, index) {
            return;
        }
        proof {
            self.lemma_stack_bound(index);
        }
        let ghost old_seq = self.stack_seq();
        let ghost old_stack = self.stack@;
        assert(!old_seq.contains(index));
        set_raw(&mut self.stack_bits, index, true);
        self.stack.set(self.stack_size, index);
        self.stack_size = self.stack_size + 1;
        proof {
            assert(self.stack_seq() =~= old_seq.push(index));
            assert forall|j: int| 0 <= j < self.stack_size implies #[trigger] self.stack@[j] < self.size by {
                if j < self.stack_size - 1 {
                    assert(self.stack@[j] == old_stack[j]);
                }
            }
            assert(self.stack_seq().no_duplicates()) by {
                assert forall|a: int, b: int| 0 <= a < b < self.stack_seq().len() implies self.stack_seq()[a] != self.stack_seq()[b] by {
                    if b == old_seq.len() {
                        assert(old_seq[a] == self.stack_seq()[a]);
                    } else {
                        assert(old_seq[a] == self.stack_seq()[a]);
                        assert(old_seq[b] == self.stack_seq()[b]);
                    }
                }
            }
            assert forall|i: usize| i < self.size implies (words_bit(self.stack_bits@, i as int)
                <==> #[trigger] self.stack_seq().contains(i)) by {
                self.lemma_index_word(i as int);
                if i != index {
                    assert(old_seq.contains(i) ==> self.stack_seq().contains(i)) by {
                        if old_seq.contains(i) {
                            let j = choose|j: int| 0 <= j < old_seq.len() && old_seq[j] == i;
                            assert(self.stack_seq()[j] == i);
                        }
                    }
                    assert(self.stack_seq().contains(i) ==> old_seq.contains(i)) by {
                        if self.stack_seq().contains(i) {
                            let j = choose|j: int| 0 <= j < self.stack_seq().len() && self.stack_seq()[j] == i;
                            assert(old_seq[j] == i);
                        }
                    }
                } else {
                    assert(self.stack_seq()[old_seq.len() as int] == index);
                }
            }
            assert forall|x: usize| #[trigger] self.stack_seq().contains(x) <==> (old_seq.contains(x) || x == index) by {
                if old_seq.contains(x) {
                    let j = choose|j: int| 0 <= j < old_seq.len() && old_seq[j] == x;
                    assert(self.stack_seq()[j] == x);
                }
                if x == index {
                    assert(self.stack_seq()[old_seq.len() as int] == index);
                }
                if self.stack_seq().contains(x) {
                    let j = choose|j: int| 0 <= j < self.stack_seq().len() && self.stack_seq()[j] == x;
                    if j < old_seq.len() {
                        assert(old_seq[j] == x);
                    }
                }
            }
        }
    }

    /// The candidate on top of the stack.
    fn stack_top(&self) -> (r: usize)
        requires
            self.stack_wf(),
            self.shape_wf(),
            self.stack_size > 0,
        ensures
            r == self.stack_seq().last(),
            r < self.size,
    {
        self.stack[self.stack_size - 1]
    }

    /// Drops the top candidate, whose bit must be one.
    fn pop_stack(&mut self)
        requires
            old(self).wf(),
            old(self).stack_size > 0,
            old(self)@[old(self).stack_seq().last() as int],
        ensures
            final(self).wf(),
            final(self)@ == old(self)@,
            final(self).count0 == old(self).count0,
            final(self).stack_size == old(self).stack_size - 1,
    {
        let top = self.stack_top();
        let ghost old_seq = self.stack_seq();
        proof {
            self.lemma_index_word(top as int);
        }
        set_raw(&mut self.stack_bits, top, false);
        self.stack_size = self.stack_size - 1;
        proof {
            assert(self.stack_seq() =~= old_seq.drop_last());
            assert forall|i: usize| i < self.size implies (words_bit(self.stack_bits@, i as int)
                <==> #[trigger] self.stack_seq().contains(i)) by {
                self.lemma_index_word(i as int);
                if i != top {
                    if old_seq.contains(i) {
                        let j = choose|j: int| 0 <= j < old_seq.len() && old_seq[j] == i;
                        assert(j != old_seq.len() - 1);
                        assert(self.stack_seq()[j] == i);
                    }
                    if self.stack_seq().contains(i) {
                        let j = choose|j: int| 0 <= j < self.stack_seq().len() && self.stack_seq()[j] == i;
                        assert(old_seq[j] == i);
                    }
                } else {
                    if self.stack_seq().contains(i) {
                        let j = choose|j: int| 0 <= j < self.stack_seq().len() && self.stack_seq()[j] == i;
                        assert(old_seq[j] == old_seq[old_seq.len() - 1]);
                    }
                }
            }
            assert forall|i: usize| i < self.size && !self@[i as int] implies #[trigger] self.stack_seq().contains(i) by {
                assert(old_seq.contains(i));
                let j = choose|j: int| 0 <= j < old_seq.len() && old_seq[j] == i;
                assert(j != old_seq.len() - 1);
                assert(self.stack_seq()[j] == i);
            }
        }
    }

    /// Sets element `index` to `val`.
    pub fn set(&mut self, index: usize, val: bool)
        requires
            old(self).wf(),
            index < old(self)@.len(),
        ensures
            final(self).wf(),
            final(self)@ == old(self)@.update(index as int, val),
            final(self).spec_count0() == old(self).spec_count0() + (if !val && old(self)@[index as int] {
                1int
            } else if val && !old(self)@[index as int] {
                -1int
            } else {
                0int
            }),
    {
        let ghost old_view = self@;
        let cur = self.get_bit(index);
        proof {
            lemma_zeros_finite(old_view);
            self.lemma_index_word(index as int);
        }
        if !val && cur {
            assert(!zeros(old_view).contains(index));
            proof {
                lemma_zeros_finite(old_view);
            }
            assert(zeros(old_view).len() < old_view.len()) by {
                <usize as vstd::set_lib::FiniteRange>::range_properties(0, self.size);
                vstd::set_lib::lemma_len_subset(zeros(old_view).insert(index), Set::<usize>::range(0, self.size));
            }
            self.count0 = self.count0 + 1;
        } else if val && !cur {
            assert(zeros(old_view).contains(index));
            self.count0 = self.count0 - 1;
        }
        set_raw(&mut self.data, index, val);
        proof {
            assert(self@ =~= old_view.update(index as int, val)) by {
                assert forall|i: int| 0 <= i < self.size implies self@[i] == old_view.update(index as int, val)[i] by {
                    self.lemma_index_word(i);
                }
            }
            if val {
                assert(zeros(self@) =~= zeros(old_view).remove(index));
            } else {
                assert(zeros(self@) =~= zeros(old_view).insert(index));
            }
        }
        if !val {
            self.add_to_stack(index);
        }
        proof {
            assert forall|i: usize| i < self.size && !self@[i as int] implies #[trigger] self.stack_seq().contains(i) by {
                if i != index {
                    assert(!old_view[i as int]);
                }
            }
        }
    }

    /// Element `index`.
    pub fn get(&self, index: usize) -> (r: bool)
        requires
            self.wf(),
            index < self@.len(),
        ensures
            r == self@[index as int],
    {
        self.get_bit(index)
    }

    fn get_bit(&self, index: usize) -> (r: bool)
        requires
            self.shape_wf(),
            index < self@.len(),
        ensures
            r == self@[index as int],
    {
        proof {
            self.lemma_index_word(index as int);
        }
        get_raw(&self.data, index)
    }

    /// Bytes taken by this bitset.
    pub fn get_size_bytes(&self) -> (r: usize)
        requires
            self.wf(),
        ensures
            r == spec_bitset_size_bytes(self@.len() as int),
    {
        bitset_size_bytes(self.size)
    }

    /// Number of elements.
    pub fn get_size(&self) -> (r: usize)
        ensures
            r == self@.len(),
    {
        self.size
    }

    /// Number of 64-bit words that hold the bits.
    pub fn get_num_u64(&self) -> (r: usize)
        requires
            self.wf(),
        ensures
            r == num_words(self@.len() as int),
    {
        self.data.len()
    }

    /// Some element that is zero, or `None` when every element is one.
    pub fn get_zero_element(&mut self) -> (r: Option<usize>)
        requires
            old(self).wf(),
        ensures
            final(self).wf(),
            final(self)@ == old(self)@,
            final(self).spec_count0() == old(self).spec_count0(),
            match r {
                Some(i) => i < old(self)@.len() && !old(self)@[i as int],
                None => forall|i: int| 0 <= i < old(self)@.len() ==> old(self)@[i],
            },
            r is None <==> old(self).spec_count0() == 0,
    {
        if self.count0 == 0 {
            proof {
                lemma_zeros_finite(self@);
                assert forall|i: int| 0 <= i < self@.len() implies self@[i] by {
                    if !self@[i] {
                        assert(zeros(self@).contains(i as usize));
                    }
                }
            }
            return None;
        }
        loop
            invariant
                self.wf(),
                self@ == old(self)@,
                self.count0 == old(self).count0,
                self.count0 > 0,
            decreases self.stack_size,
        {
            proof {
                self.lemma_count_bound();
            }
            let idx = self.stack_top();
            if !self.get(idx) {
                proof {
                    lemma_zeros_finite(self@);
                    assert(zeros(self@).contains(idx));
                }
                return Some(idx);
            }
            self.pop_stack();
        }
    }

    /// Sets every element to zero.
    pub fn clear(&mut self)
        requires
            old(self).shape_wf(),
        ensures
            final(self).wf(),
            final(self)@ == Seq::new(old(self)@.len(), |i: int| false),
            final(self).spec_count0() == old(self)@.len(),
    {
        let nw = self.data.len();
        let mut k: usize = 0;
        while k < nw
            invariant
                self.shape_wf(),
                self.size == old(self).size,
                nw == self.data.len(),
                k <= nw,
                forall|j: int| 0 <= j < k ==> self.data@[j] == 0u64,
            decreases nw - k,
        {
            self.data.set(k, 0u64);
            k = k + 1;
        }
        proof {
            assert forall|i: int| 0 <= i < self.size implies !self@[i] by {
                self.lemma_index_word(i);
                lemma_zero_word((i % 64) as u64);
            }
            <usize as vstd::set_lib::FiniteRange>::range_properties(0, self.size);
            assert(zeros(self@) =~= Set::<usize>::range(0, self.size));
            assert(self@ =~= Seq::new(old(self)@.len(), |i: int| false));
        }
        self.count0 = self.size;
        self.setup_stack();
    }

    /// Number of zero elements.
    pub fn get_count0(&self) -> (r: usize)
        requires
            self.wf(),
        ensures
            r == self.spec_count0(),
    {
        self.count0
    }

    /// Replaces the bits by the first `num_words(size)` words of `src`.
    pub fn load_from(&mut self, src: &Vec<u64>)
        requires
            old(self).wf(),
            src.len() >= num_words(old(self)@.len() as int),
        ensures
            final(self).wf(),
            final(self)@ == Seq::new(old(self)@.len(), |i: int| words_bit(src@, i)),
    {
        let nw = self.data.len();
        let mut k: usize = 0;
        while k < nw
            invariant
                self.shape_wf(),
                self.size == old(self).size,
                nw == self.data.len(),
                nw <= src.len(),
                k <= nw,
                forall|j: int| 0 <= j < k ==> self.data@[j] == src@[j],
            decreases nw - k,
        {
            self.data.set(k, src[k]);
            k = k + 1;
        }
        proof {
            assert forall|i: int| 0 <= i < self.size implies self@[i] == words_bit(src@, i) by {
                self.lemma_index_word(i);
            }
            assert(self@ =~= Seq::new(old(self)@.len(), |i: int| words_bit(src@, i)));
        }
        self.update_count0();
        self.setup_stack();
    }

    /// Copies the words that hold the bits into the front of `dst`.
    pub fn store_to(&self, dst: &mut Vec<u64>)
        requires
            self.wf(),
            old(dst).len() >= num_words(self@.len() as int),
        ensures
            final(dst).len() == old(dst).len(),
            forall|i: int| 0 <= i < self@.len() ==> words_bit(final(dst)@, i) == self@[i],
            forall|j: int|
                num_words(self@.len() as int) <= j < old(dst).len() ==> final(dst)@[j] == old(dst)@[j],
    {
        let nw = self.data.len();
        let mut k: usize = 0;
        while k < nw
            invariant
                self.wf(),
                nw == self.data.len(),
                dst.len() == old(dst).len(),
                nw <= dst.len(),
                k <= nw,
                forall|j: int| 0 <= j < k ==> dst@[j] == self.data@[j],
                forall|j: int| nw <= j < dst.len() ==> dst@[j] == old(dst)@[j],
            decreases nw - k,
        {
            dst.set(k, self.data[k]);
            k = k + 1;
        }
        proof {
            assert forall|i: int| 0 <= i < self@.len() implies words_bit(dst@, i) == self@[i] by {
                self.lemma_index_word(i);
            }
        }
    }
}

/// A bitset of `size` elements, all zero, that owns its storage.
pub struct BitSet {
    bitset: BitSetRaw,
}

impl View for BitSet {
    type V = Seq<bool>;

    closed spec fn view(&self) -> Seq<bool> {
        self.bitset@
    }
}

impl BitSet {
    /// The internal invariant.
    pub closed spec fn wf(&self) -> bool {
        self.bitset.wf()
    }

    /// A bitset of `size` zero elements.
    pub fn new(size: usize) -> (r: BitSet)
        requires
            spec_bitset_size_bytes(size as int) <= usize::MAX,
        ensures
            r.wf(),
            r@ == Seq::new(size as nat, |i: int| false),
            zeros(r@).len() == size,
    {
        let nw = size / 64 + if size % 64 == 0 { 0 } else { 1 };
        let data = vec![0u64; nw];
        let bitset = BitSetRaw::new_from(size, data);
        proof {
            assert forall|i: int| 0 <= i < size implies !bitset@[i] by {
                lemma_zero_word((i % 64) as u64);
            }
            assert(bitset@ =~= Seq::new(size as nat, |i: int| false));
            <usize as vstd::set_lib::FiniteRange>::range_properties(0, size);
            assert(zeros(bitset@) =~= Set::<usize>::range(0, size));
        }
        BitSet { bitset }
    }

    /// The underlying bitset.
    pub fn raw(&self) -> (r: &BitSetRaw)
        ensures
            r@ == self@,
            self.wf() ==> r.wf(),
    {
        &self.bitset
    }

    /// The underlying bitset, for changes.
    pub fn raw_mut(&mut self) -> (r: &mut BitSetRaw)
        ensures
            r@ == old(self)@,
            old(self).wf() ==> r.wf(),
            final(self)@ == final(r)@,
            final(r).wf() ==> final(self).wf(),
    {
        &mut self.bitset
    }
}

} // verus!
