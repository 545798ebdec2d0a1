use vstd::prelude::*;

verus! {

/// A new heap tree covers `2^INITIAL_ORDER` units.
pub const INITIAL_ORDER: u32 = 10;
/// A heap tree covers at most `2^MAX_ORDER` units.
pub const MAX_ORDER: u32 = 31;

/// `2^order`.
pub open spec fn block_len(order: u32) -> int {
    vstd::arithmetic::power2::pow2(order as nat) as int
}

/// `pos` is a multiple of `2^order`.
pub open spec fn aligned(pos: int, order: u32) -> bool {
    pos % block_len(order) == 0
}

/// The blocks `(start, order)` `a` and `b` share no unit.
pub open spec fn apart(a: (u32, u32), b: (u32, u32)) -> bool {
    a.0 + block_len(a.1) <= b.0 || b.0 + block_len(b.1) <= a.0
}

/// No region of `taken` shares a unit with the `2^order` units at `pos`.
pub open spec fn free_at(taken: Seq<(u32, u32)>, pos: int, order: u32) -> bool {
    forall|i: int| 0 <= i < taken.len() ==> apart(#[trigger] taken[i], (pos as u32, order))
}

/// `2^order` as a 64-bit number.
fn pow2_u64(order: u32) -> (r: u64)
    requires
        order < 32,
    ensures
        r == block_len(order),
{
    proof {
        vstd::bits::lemma_u64_pow2_no_overflow(order as nat);
        vstd::bits::lemma_u64_shl_is_mul(1u64, order as u64);
    }
    1u64 << (order as u64)
}

/// Powers of two up to `2^31` are positive and at most `2^31`.
proof fn lemma_block_len_bounds(order: u32)
    requires
        order <= 31,
    ensures
        0 < block_len(order) <= 0x8000_0000,
        order <= 30 ==> block_len(order) <= 0x4000_0000,
{
    vstd::arithmetic::power2::lemma2_to64();
    if order < 31 {
        vstd::arithmetic::power2::lemma_pow2_strictly_increases(order as nat, 31);
    }
    if order < 30 {
        vstd::arithmetic::power2::lemma_pow2_strictly_increases(order as nat, 30);
    }
}

/// A smaller power of two divides a larger one.
proof fn lemma_block_len_divides(a: u32, b: u32)
    requires
        a <= b,
    ensures
        block_len(b) % block_len(a) == 0,
{
    vstd::arithmetic::power2::lemma_pow2_adds(a as nat, (b - a) as nat);
    vstd::arithmetic::power2::lemma_pow2_pos(a as nat);
    vstd::arithmetic::div_mod::lemma_mod_multiples_basic(block_len((b - a) as u32), block_len(a));
    assert(block_len(b) == block_len((b - a) as u32) * block_len(a)) by (nonlinear_arith)
        requires
            block_len(b) == block_len(a) * block_len((b - a) as u32),
    ;
}

/// Keeps track of the regions taken on a heap: each region has `2^n` units and
/// starts at a multiple of `2^n`; where no such region is free, the heap doubles
/// the units it covers.
pub struct HeapTree {
    blocks: Vec<(u32, u32)>,
    cap_order: u32,
}

impl HeapTree {
    /// The regions taken, as `(start, order)`: `2^order` units from `start`.
    pub closed spec fn taken(&self) -> Seq<(u32, u32)> {
        self.blocks@
    }

    /// The heap covers `2^order` units.
    pub closed spec fn spec_cap_order(&self) -> u32 {
        self.cap_order
    }

    /// Units the heap covers.
    pub open spec fn spec_capacity(&self) -> int {
        block_len(self.spec_cap_order())
    }

    /// The internal invariant: each region is aligned and lies within the heap, and
    /// no two share a unit.
    pub open spec fn wf(&self) -> bool {
        &&& INITIAL_ORDER <= self.spec_cap_order() <= MAX_ORDER
        &&& forall|i: int| 0 <= i < self.taken().len() ==> {
            &&& (#[trigger] self.taken()[i]).1 < 32
            &&& aligned(self.taken()[i].0 as int, self.taken()[i].1)
            &&& self.taken()[i].0 + block_len(self.taken()[i].1) <= self.spec_capacity()
        }
        &&& forall|i: int, j: int| 0 <= i < j < self.taken().len() ==> apart(#[trigger] self.taken()[i], #[trigger] self.taken()[j])
    }

    /// An empty heap of the initial capacity.
    pub fn new() -> (r: HeapTree)
        ensures
            r.wf(),
            r.taken() == Seq::<(u32, u32)>::empty(),
            r.spec_cap_order() == INITIAL_ORDER,
    {
        HeapTree { blocks: Vec::new(), cap_order: INITIAL_ORDER }
    }

    /// Units the heap covers.
    pub fn capacity(&self) -> (r: u64)
        requires
            self.wf(),
        ensures
            r == self.spec_capacity(),
    {
        pow2_u64(self.cap_order)
    }

    /// Whether the region of `2^order` units at `pos` is free.
    fn is_free(&self, pos: u64, order: u32) -> (r: bool)
        requires
            self.wf(),
            order < 32,
            pos + block_len(order) <= u32::MAX + 1,
        ensures
            r == forall|i: int| 0 <= i < self.taken().len() ==> apart(#[trigger] self.taken()[i], (pos as u32, order)),
    {
        let len = pow2_u64(order);
        proof {
            vstd::arithmetic::power2::lemma_pow2_pos(order as nat);
        }
        let mut i: usize = 0;
        while i < self.blocks.len()
            invariant
                self.wf(),
                i <= self.blocks.len(),
                order < 32,
                len == block_len(order),
                len > 0,
                pos + len <= u32::MAX + 1,
                forall|j: int| 0 <= j < i ==> apart(#[trigger] self.taken()[j], (pos as u32, order)),
            decreases self.blocks.len() - i,
        {
            let (s, o) = self.blocks[i];
            proof {
                assert(self.taken()[i as int] == (s, o));
                lemma_block_len_bounds(self.spec_cap_order());
            }
            let olen = pow2_u64(o);
            assert((pos as u32) as int == pos);
            if !(s as u64 + olen <= pos || pos + len <= s as u64) {
                return false;
            }
            i = i + 1;
        }
        true
    }

    /// Takes a free region of `2^order` units starting at a multiple of `2^order`,
    /// doubling the heap until one is free; gives back where it starts.
    pub fn allocate(&mut self, order: u32) -> (r: u32)
        requires
            old(self).wf(),
            order <= 30,
            old(self).spec_cap_order() <= 30,
        ensures
            final(self).wf(),
            aligned(r as int, order),
            forall|i: int| 0 <= i < old(self).taken().len() ==> apart(#[trigger] old(self).taken()[i], (r, order)),
            final(self).taken() == old(self).taken().push((r, order)),
            old(self).spec_capacity() <= final(self).spec_capacity(),
            r + block_len(order) <= final(self).spec_capacity(),
            final(self).spec_cap_order() == old(self).spec_cap_order() ==> forall|p: int|
                0 <= p < r && aligned(p, order) ==> !free_at(old(self).taken(), p, order),
            order <= old(self).spec_cap_order() ==> {
                ||| final(self).spec_cap_order() == old(self).spec_cap_order()
                ||| {
                    &&& final(self).spec_cap_order() == old(self).spec_cap_order() + 1
                    &&& r == old(self).spec_capacity()
                    &&& forall|p: int|
                        0 <= p && p + block_len(order) <= old(self).spec_capacity() && aligned(p, order)
                            ==> !free_at(old(self).taken(), p, order)
                }
            },
            order > old(self).spec_cap_order() ==> final(self).spec_cap_order() == order + 1 && r == block_len(order),
    {
        let len = pow2_u64(order);
        let cap = pow2_u64(self.cap_order);
        proof {
            lemma_block_len_bounds(self.cap_order);
            lemma_block_len_bounds(order);
        }
        if order <= self.cap_order {
            proof {
                lemma_block_len_divides(order, self.cap_order);
                if order < self.cap_order {
                    vstd::arithmetic::power2::lemma_pow2_strictly_increases(order as nat, self.cap_order as nat);
                }
            }
            let mut pos: u64 = 0;
            while pos + len <= cap
                invariant
                    self == old(self),
                    self.wf(),
                    order <= self.spec_cap_order() <= 30,
                    len == block_len(order),
                    cap == self.spec_capacity(),
                    cap <= 0x4000_0000,
                    cap % len == 0,
                    len > 0,
                    len <= cap,
                    pos % len == 0,
                    pos <= cap,
                    forall|p: int| 0 <= p < pos && aligned(p, order) ==> !free_at(self.taken(), p, order),
                decreases cap - pos,
            {
                if self.is_free(pos, order) {
                    assert((pos as u32) as int == pos);
                    self.push_block(pos as u32, order);
                    return pos as u32;
                }
                assert forall|p: int| 0 <= p < pos + len && aligned(p, order) implies !free_at(self.taken(), p, order) by {
                    if p >= pos {
                        assert(p == pos) by (nonlinear_arith)
                            requires
                                (pos as int) <= p < pos + len,
                                p % (len as int) == 0,
                                (pos as int) % (len as int) == 0,
                                len > 0,
                        ;
                    }
                }
                assert((pos + len) % (len as int) == 0) by (nonlinear_arith)
                    requires
                        pos % len == 0,
                        len > 0,
                ;
                pos = pos + len;
            }
            self.cap_order = self.cap_order + 1;
            proof {
                vstd::arithmetic::power2::lemma_pow2_unfold(self.cap_order as nat);
                self.lemma_grow(old(self).spec_capacity());
            }
            assert((cap as u32) as int == cap);
            assert(self.spec_capacity() == 2 * cap);
            self.push_block(cap as u32, order);
            cap as u32
        } else {
            self.cap_order = order + 1;
            proof {
                vstd::arithmetic::power2::lemma_pow2_unfold(self.cap_order as nat);
                vstd::arithmetic::power2::lemma_pow2_strictly_increases(old(self).spec_cap_order() as nat, order as nat);
                self.lemma_grow(old(self).spec_capacity());
            }
            assert((len as u32) as int == len);
            assert(self.spec_capacity() == 2 * len);
            assert forall|i: int| 0 <= i < old(self).taken().len() implies apart(#[trigger] old(self).taken()[i], (len as u32, order)) by {
                assert(old(self).taken()[i].0 + block_len(old(self).taken()[i].1) <= old(self).spec_capacity());
            }
            proof {
                vstd::arithmetic::div_mod::lemma_mod_self_0(len as int);
            }
            self.push_block(len as u32, order);
            len as u32
        }
    }

    /// Growing the heap keeps its regions within it.
    proof fn lemma_grow(&self, old_capacity: int)
        requires
            old_capacity <= self.spec_capacity(),
            forall|i: int| 0 <= i < self.taken().len() ==> {
                &&& (#[trigger] self.taken()[i]).1 < 32
                &&& aligned(self.taken()[i].0 as int, self.taken()[i].1)
                &&& self.taken()[i].0 + block_len(self.taken()[i].1) <= old_capacity
            },
        ensures
            forall|i: int| 0 <= i < self.taken().len() ==> {
                &&& (#[trigger] self.taken()[i]).1 < 32
                &&& aligned(self.taken()[i].0 as int, self.taken()[i].1)
                &&& self.taken()[i].0 + block_len(self.taken()[i].1) <= self.spec_capacity()
            },
    {
    }

    /// Records the region of `2^order` units at `pos`.
    fn push_block(&mut self, pos: u32, order: u32)
        requires
            INITIAL_ORDER <= old(self).spec_cap_order() <= MAX_ORDER,
            forall|i: int| 0 <= i < old(self).taken().len() ==> {
                &&& (#[trigger] old(self).taken()[i]).1 < 32
                &&& aligned(old(self).taken()[i].0 as int, old(self).taken()[i].1)
                &&& old(self).taken()[i].0 + block_len(old(self).taken()[i].1) <= old(self).spec_capacity()
            },
            forall|i: int, j: int| 0 <= i < j < old(self).taken().len() ==> apart(#[trigger] old(self).taken()[i], #[trigger] old(self).taken()[j]),
            order < 32,
            aligned(pos as int, order),
            pos + block_len(order) <= old(self).spec_capacity(),
            forall|i: int| 0 <= i < old(self).taken().len() ==> apart(#[trigger] old(self).taken()[i], (pos, order)),
        ensures
            final(self).wf(),
            final(self).taken() == old(self).taken().push((pos, order)),
            final(self).spec_cap_order() == old(self).spec_cap_order(),
    {
        self.blocks.push((pos, order));
        proof {
            let t = self.taken();
            assert forall|i: int, j: int| 0 <= i < j < t.len() implies apart(#[trigger] t[i], #[trigger] t[j]) by {
                if j == t.len() - 1 {
                    assert(t[j] == (pos, order));
                    assert(t[i] == old(self).taken()[i]);
                } else {
                    assert(t[i] == old(self).taken()[i]);
                    assert(t[j] == old(self).taken()[j]);
                }
            }
            assert forall|i: int| 0 <= i < t.len() implies {
                &&& (#[trigger] t[i]).1 < 32
                &&& aligned(t[i].0 as int, t[i].1)
                &&& t[i].0 + block_len(t[i].1) <= self.spec_capacity()
            } by {
                if i < t.len() - 1 {
                    assert(t[i] == old(self).taken()[i]);
                }
            }
        }
    }

    /// Gives back the region that starts at `pos`.
    pub fn free(&mut self, pos: u32)
        requires
            old(self).wf(),
            exists|i: int| 0 <= i < old(self).taken().len() && (#[trigger] old(self).taken()[i]).0 == pos,
        ensures
            final(self).wf(),
            final(self).spec_capacity() == old(self).spec_capacity(),
            exists|i: int|
                0 <= i < old(self).taken().len() && (#[trigger] old(self).taken()[i]).0 == pos && final(self).taken()
                    == old(self).taken().remove(i),
    {
        let mut i: usize = 0;
        while i < self.blocks.len()
            invariant
                i <= self.blocks.len(),
                self.taken() == old(self).taken(),
                self.spec_cap_order() == old(self).spec_cap_order(),
                self.wf(),
                forall|j: int| 0 <= j < i ==> (#[trigger] self.taken()[j]).0 != pos,
                exists|j: int| 0 <= j < self.taken().len() && (#[trigger] self.taken()[j]).0 == pos,
            decreases self.blocks.len() - i,
        {
            if self.blocks[i].0 == pos {
                let ghost before = self.taken();
                self.blocks.remove(i);
                proof {
                    assert(self.taken() == before.remove(i as int));
                    assert forall|a: int, b: int| 0 <= a < b < self.taken().len() implies apart(#[trigger] self.taken()[a], #[trigger] self.taken()[b]) by {
                        let a0 = if a < i { a } else { a + 1 };
                        let b0 = if b < i { b } else { b + 1 };
                        assert(self.taken()[a] == before[a0]);
                        assert(self.taken()[b] == before[b0]);
                    }
                    assert forall|x: int| 0 <= x < self.taken().len() implies {
                        &&& (#[trigger] self.taken()[x]).1 < 32
                        &&& aligned(self.taken()[x].0 as int, self.taken()[x].1)
                        &&& self.taken()[x].0 + block_len(self.taken()[x].1) <= self.spec_capacity()
                    } by {
                        let x0 = if x < i { x } else { x + 1 };
                        assert(self.taken()[x] == before[x0]);
                    }
                }
                return;
            }
            i = i + 1;
        }
    }
}

/// Giving back the region just taken leaves the regions taken before it.
pub proof fn lemma_allocate_then_free(before: Seq<(u32, u32)>, r: u32, order: u32, i: int)
    requires
        forall|j: int| 0 <= j < before.len() ==> apart(#[trigger] before[j], (r, order)),
        0 <= i < before.len() + 1,
        before.push((r, order))[i].0 == r,
    ensures
        before.push((r, order)).remove(i) == before,
{
    if i < before.len() {
        assert(apart(before[i], (r, order)));
        vstd::arithmetic::power2::lemma_pow2_pos(before[i].1 as nat);
        vstd::arithmetic::power2::lemma_pow2_pos(order as nat);
        assert(before.push((r, order))[i] == before[i]);
    }
    assert(before.push((r, order)).remove(before.len() as int) =~= before);
}

} // verus!
