use vstd::prelude::*;

verus! {

use crate::memory::paging::{
    PageAllocator, PhysAddr, PageTableEntry, alloc_page, create_page_table_entry, free_count, get_entry_addr,
    get_entry_addr_spec, is_entry_table, is_entry_table_spec, page_addr, ID_MAP_END, KERNEL_OFFSET, NUM_PAGES,
    PTE_EXECUTE, PTE_PRESENT, PTE_READ, PTE_USER, PTE_WRITE,
};

/// Index of the virtual address `va` into the root table (level 2), a middle table
/// (level 1) or a leaf table (level 0).
pub open spec fn vpn(va: u64, level: int) -> int {
    if level == 2 {
        (va / 0x4000_0000) as int % 512
    } else if level == 1 {
        (va / 0x20_0000) as int % 512
    } else {
        (va / 0x1000) as int % 512
    }
}

/// The table that entry `i` of table `t` points at, where it is a table entry.
pub open spec fn child(mem: Map<u64, Seq<u64>>, t: u64, i: int) -> Option<u64> {
    if mem.contains_key(t) && is_entry_table_spec(mem[t][i]) {
        get_entry_addr_spec(mem[t][i])
    } else {
        None
    }
}

/// The middle table under entry `i2` of the root.
pub open spec fn mid(mem: Map<u64, Seq<u64>>, root: u64, i2: int) -> Option<u64> {
    child(mem, root, i2)
}

/// The leaf table under entry `i2` of the root and entry `i1` of the middle table.
pub open spec fn leaf(mem: Map<u64, Seq<u64>>, root: u64, i2: int, i1: int) -> Option<u64> {
    match mid(mem, root, i2) {
        Some(t1) => child(mem, t1, i1),
        None => None,
    }
}

/// The entry `e`, where it is present.
pub open spec fn present(e: u64) -> Option<u64> {
    if e & PTE_PRESENT == 0 {
        None
    } else {
        Some(e)
    }
}

/// Walking the tables `mem` from `root` to the leaf entry of `va`: `None` where an
/// upper entry maps a large page (which this kernel never does), `Some(None)` where
/// `va` is not mapped, else its leaf entry, with the address and permission bits.
pub open spec fn walk_entry(mem: Map<u64, Seq<u64>>, root: u64, va: u64) -> Option<Option<u64>> {
    let e2 = mem[root][vpn(va, 2)];
    if e2 & PTE_PRESENT == 0 {
        Some(None)
    } else if !is_entry_table_spec(e2) {
        None
    } else {
        let t1 = get_entry_addr_spec(e2).unwrap();
        let e1 = mem[t1][vpn(va, 1)];
        if e1 & PTE_PRESENT == 0 {
            Some(None)
        } else if !is_entry_table_spec(e1) {
            None
        } else {
            let t0 = get_entry_addr_spec(e1).unwrap();
            Some(present(mem[t0][vpn(va, 0)]))
        }
    }
}

/// Translating `va`: as `walk_entry`, with the address its leaf entry holds.
pub open spec fn lookup(mem: Map<u64, Seq<u64>>, root: u64, va: u64) -> Option<Option<u64>> {
    match walk_entry(mem, root, va) {
        Some(Some(e)) => Some(get_entry_addr_spec(e)),
        Some(None) => Some(None),
        None => None,
    }
}

/// Tables missing on the walk to `va`, which walking there adds: both below the root
/// where its entry is absent, the leaf table where only the middle entry is absent.
pub open spec fn missing_tables(mem: Map<u64, Seq<u64>>, root: u64, va: u64) -> int {
    let e2 = mem[root][vpn(va, 2)];
    if e2 & PTE_PRESENT == 0 {
        2
    } else if !is_entry_table_spec(e2) {
        0
    } else {
        let t1 = get_entry_addr_spec(e2).unwrap();
        if mem[t1][vpn(va, 1)] & PTE_PRESENT == 0 {
            1
        } else {
            0
        }
    }
}

/// The leaf entry of a page mapped at `pa`: present, readable, and writable, usable
/// by user code and executable as asked.
pub open spec fn mapping_entry(pa: u64, writable: bool, user: bool, executable: bool) -> u64 {
    (((((pa >> 12u64) << 10u64) | PTE_PRESENT) | PTE_READ) | (if writable {
        PTE_WRITE
    } else {
        0u64
    }) | (if user {
        PTE_USER
    } else {
        0u64
    })) | (if executable {
        PTE_EXECUTE
    } else {
        0u64
    })
}

/// The tables form a tree under `root`, each table owned by one place: the root is
/// the table of level 2, the table under entry `i2` of the root is owned by `(1, i2)`,
/// and the one under entry `i1` of that by `(0, i2, i1)`; every table has 512 entries.
pub open spec fn tree_ok(mem: Map<u64, Seq<u64>>, owner: Map<u64, (int, int, int)>, root: u64) -> bool {
    &&& mem.contains_key(root)
    &&& owner.contains_key(root) && owner[root] == (2int, -1int, -1int)
    &&& forall|t: u64| #[trigger] mem.contains_key(t) ==> mem[t].len() == 512
    &&& forall|i2: int| 0 <= i2 < 512 && #[trigger] mid(mem, root, i2) is Some ==> {
        &&& mem.contains_key(mid(mem, root, i2).unwrap())
        &&& owner.contains_key(mid(mem, root, i2).unwrap())
        &&& owner[mid(mem, root, i2).unwrap()] == (1int, i2, -1int)
    }
    &&& forall|i2: int, i1: int| 0 <= i2 < 512 && 0 <= i1 < 512 && #[trigger] leaf(mem, root, i2, i1) is Some ==> {
        &&& mem.contains_key(leaf(mem, root, i2, i1).unwrap())
        &&& owner.contains_key(leaf(mem, root, i2, i1).unwrap())
        &&& owner[leaf(mem, root, i2, i1).unwrap()] == (0int, i2, i1)
    }
}

/// Page tables in physical memory: the address of each table page, the 512 entries
/// of each table one after the other, and the root table.
pub struct PageTables {
    frames: Vec<u64>,
    entries: Vec<u64>,
    root: u64,
    owner: Ghost<Map<u64, (int, int, int)>>,
}

impl PageTables {
    /// The tables, by the address of their page.
    pub closed spec fn mem(&self) -> Map<u64, Seq<u64>> {
        Map::new(
            |a: u64| self.frames@.contains(a),
            |a: u64| {
                let k = self.frames@.index_of(a);
                self.entries@.subrange(512 * k, 512 * k + 512)
            },
        )
    }

    /// The root table.
    pub closed spec fn spec_root(&self) -> u64 {
        self.root
    }

    /// Translating `va`.
    pub open spec fn translate(&self, va: u64) -> Option<Option<u64>> {
        lookup(self.mem(), self.spec_root(), va)
    }

    /// The leaf entry of `va`, permission bits included (see `walk_entry`).
    pub open spec fn page_entry(&self, va: u64) -> Option<Option<u64>> {
        walk_entry(self.mem(), self.spec_root(), va)
    }

    /// Tables that walking to `va` adds.
    pub open spec fn spec_missing_tables(&self, va: u64) -> int {
        missing_tables(self.mem(), self.spec_root(), va)
    }

    /// The internal invariant: the tables form a tree, and each lies in a page that
    /// `alloc` marks as used.
    pub closed spec fn wf(&self, alloc: &PageAllocator) -> bool {
        &&& self.frames@.no_duplicates()
        &&& self.entries@.len() == 512 * self.frames@.len()
        &&& tree_ok(self.mem(), self.owner@, self.root)
        &&& forall|k: int| 0 <= k < self.frames@.len() ==> exists|i: int| 0 <= i < NUM_PAGES && #[trigger] self.frames@[k] == page_addr(i) && alloc@[i]
        &&& alloc.wf()
    }
}

/// A table of 512 empty entries.
pub open spec fn empty_table() -> Seq<u64> {
    Seq::new(512, |i: int| 0u64)
}

/// An empty entry is absent and no table entry.
proof fn lemma_zero_entry()
    ensures
        0u64 & PTE_PRESENT == 0,
        !is_entry_table_spec(0u64),
        get_entry_addr_spec(0u64) is None,
{
    assert(0u64 & 1u64 == 0 && 0u64 & (1u64 | 2u64 | 4u64 | 8u64) != 1u64) by (bit_vector);
}

/// A table entry is present.
proof fn lemma_table_entry_present(e: u64)
    ensures
        is_entry_table_spec(e) ==> e & PTE_PRESENT != 0,
{
    assert(e & (1u64 | 2u64 | 4u64 | 8u64) == 1u64 ==> e & 1u64 != 0) by (bit_vector);
}

/// Where the walk to `va` reaches the leaf table `t0`, `va` translates to what its
/// entry there holds.
proof fn lemma_lookup_leaf(mem: Map<u64, Seq<u64>>, root: u64, va: u64, t0: u64)
    requires
        mem.contains_key(root),
        leaf(mem, root, vpn(va, 2), vpn(va, 1)) == Some(t0),
    ensures
        walk_entry(mem, root, va) == Some(present(mem[t0][vpn(va, 0)])),
        lookup(mem, root, va) == Some(get_entry_addr_spec(mem[t0][vpn(va, 0)])),
{
    lemma_table_entry_present(mem[root][vpn(va, 2)]);
    let t1 = mid(mem, root, vpn(va, 2)).unwrap();
    lemma_table_entry_present(mem[t1][vpn(va, 1)]);
}

/// Linking the new, empty table `f` under the absent entry `i2` of the root keeps
/// every translation and the tree.
proof fn lemma_new_mid(mem: Map<u64, Seq<u64>>, owner: Map<u64, (int, int, int)>, root: u64, i2: int, f: u64, e: u64)
    requires
        tree_ok(mem, owner, root),
        0 <= i2 < 512,
        mem[root][i2] & PTE_PRESENT == 0,
        !mem.contains_key(f),
        is_entry_table_spec(e),
        get_entry_addr_spec(e) == Some(f),
    ensures
        ({
            let mem2 = mem.insert(f, empty_table()).insert(root, mem[root].update(i2, e));
            let owner2 = owner.insert(f, (1int, i2, -1int));
            &&& tree_ok(mem2, owner2, root)
            &&& mid(mem2, root, i2) == Some(f)
            &&& forall|va: u64| #[trigger] walk_entry(mem2, root, va) == walk_entry(mem, root, va)
            &&& forall|va: u64| #[trigger] missing_tables(mem2, root, va) <= missing_tables(mem, root, va)
        }),
{
    let mem2 = mem.insert(f, empty_table()).insert(root, mem[root].update(i2, e));
    let owner2 = owner.insert(f, (1int, i2, -1int));
    assert(f != root);
    lemma_zero_entry();
    assert forall|j2: int| 0 <= j2 < 512 && j2 != i2 implies #[trigger] mid(mem2, root, j2) == mid(mem, root, j2) by {
        assert(mem2[root][j2] == mem[root][j2]);
    }
    assert forall|j2: int, j1: int| 0 <= j2 < 512 && 0 <= j1 < 512 implies #[trigger] leaf(mem2, root, j2, j1) == (if j2 == i2 {
        None::<u64>
    } else {
        leaf(mem, root, j2, j1)
    }) by {
        if j2 == i2 {
            assert(mem2[f][j1] == 0u64);
        } else if mid(mem, root, j2) is Some {
            let t1 = mid(mem, root, j2).unwrap();
            assert(owner[t1] == (1int, j2, -1int));
            assert(t1 != root);
            assert(mem2[t1] == mem[t1]);
        }
    }
    assert forall|va: u64| #[trigger] walk_entry(mem2, root, va) == walk_entry(mem, root, va) by {
        let v2 = vpn(va, 2);
        if v2 == i2 {
            assert(mem2[f][vpn(va, 1)] == 0u64);
        } else {
            assert(mem2[root][v2] == mem[root][v2]);
            if mid(mem, root, v2) is Some {
                let t1 = mid(mem, root, v2).unwrap();
                assert(owner[t1] == (1int, v2, -1int));
                assert(mem2[t1] == mem[t1]);
                if leaf(mem, root, v2, vpn(va, 1)) is Some {
                    let t0 = leaf(mem, root, v2, vpn(va, 1)).unwrap();
                    assert(owner[t0].0 == 0);
                    assert(t0 != root && t0 != f);
                    assert(mem2[t0] == mem[t0]);
                }
            }
        }
    }
    assert forall|va: u64| #[trigger] missing_tables(mem2, root, va) <= missing_tables(mem, root, va) by {
        let v2 = vpn(va, 2);
        if v2 == i2 {
            lemma_table_entry_present(e);
            assert(mem2[f][vpn(va, 1)] == 0u64);
        } else {
            assert(mem2[root][v2] == mem[root][v2]);
            if mid(mem, root, v2) is Some {
                let t1 = mid(mem, root, v2).unwrap();
                assert(owner[t1] == (1int, v2, -1int));
                assert(mem2[t1] == mem[t1]);
            }
        }
    }
    assert forall|t: u64| #[trigger] mem2.contains_key(t) implies mem2[t].len() == 512 by {
        if t != f && t != root {
            assert(mem.contains_key(t));
        }
    }
    assert forall|j2: int| 0 <= j2 < 512 && #[trigger] mid(mem2, root, j2) is Some implies {
        &&& mem2.contains_key(mid(mem2, root, j2).unwrap())
        &&& owner2.contains_key(mid(mem2, root, j2).unwrap())
        &&& owner2[mid(mem2, root, j2).unwrap()] == (1int, j2, -1int)
    } by {
        if j2 != i2 {
            let t1 = mid(mem, root, j2).unwrap();
            assert(owner[t1] == (1int, j2, -1int));
            assert(t1 != f);
        }
    }
    assert forall|j2: int, j1: int| 0 <= j2 < 512 && 0 <= j1 < 512 && #[trigger] leaf(mem2, root, j2, j1) is Some implies {
        &&& mem2.contains_key(leaf(mem2, root, j2, j1).unwrap())
        &&& owner2.contains_key(leaf(mem2, root, j2, j1).unwrap())
        &&& owner2[leaf(mem2, root, j2, j1).unwrap()] == (0int, j2, j1)
    } by {
        let t0 = leaf(mem, root, j2, j1).unwrap();
        assert(owner[t0] == (0int, j2, j1));
        assert(t0 != f);
    }
}

/// Linking the new, empty table `f` under the absent entry `i1` of the middle table
/// under entry `i2` of the root keeps every translation and the tree.
proof fn lemma_new_leaf(
    mem: Map<u64, Seq<u64>>,
    owner: Map<u64, (int, int, int)>,
    root: u64,
    i2: int,
    i1: int,
    f: u64,
    e: u64,
)
    requires
        tree_ok(mem, owner, root),
        0 <= i2 < 512,
        0 <= i1 < 512,
        mid(mem, root, i2) is Some,
        mem[mid(mem, root, i2).unwrap()][i1] & PTE_PRESENT == 0,
        !mem.contains_key(f),
        is_entry_table_spec(e),
        get_entry_addr_spec(e) == Some(f),
    ensures
        ({
            let t1 = mid(mem, root, i2).unwrap();
            let mem2 = mem.insert(f, empty_table()).insert(t1, mem[t1].update(i1, e));
            let owner2 = owner.insert(f, (0int, i2, i1));
            &&& tree_ok(mem2, owner2, root)
            &&& mid(mem2, root, i2) == Some(t1)
            &&& leaf(mem2, root, i2, i1) == Some(f)
            &&& forall|va: u64| #[trigger] walk_entry(mem2, root, va) == walk_entry(mem, root, va)
            &&& forall|va: u64| #[trigger] missing_tables(mem2, root, va) <= missing_tables(mem, root, va)
        }),
{
    let t1 = mid(mem, root, i2).unwrap();
    let mem2 = mem.insert(f, empty_table()).insert(t1, mem[t1].update(i1, e));
    let owner2 = owner.insert(f, (0int, i2, i1));
    assert(owner[t1] == (1int, i2, -1int));
    assert(t1 != root && t1 != f);
    assert(mem2[root] == mem[root]);
    assert forall|j2: int| 0 <= j2 < 512 implies #[trigger] mid(mem2, root, j2) == mid(mem, root, j2) by {}
    assert forall|j2: int, j1: int| 0 <= j2 < 512 && 0 <= j1 < 512 implies #[trigger] leaf(mem2, root, j2, j1) == (if j2 == i2 && j1 == i1 {
        Some(f)
    } else {
        leaf(mem, root, j2, j1)
    }) by {
        if mid(mem, root, j2) is Some {
            let u1 = mid(mem, root, j2).unwrap();
            assert(owner[u1] == (1int, j2, -1int));
            if j2 != i2 {
                assert(u1 != t1);
                assert(mem2[u1] == mem[u1]);
            }
        }
    }
    lemma_zero_entry();
    assert forall|va: u64| #[trigger] walk_entry(mem2, root, va) == walk_entry(mem, root, va) by {
        let v2 = vpn(va, 2);
        let v1 = vpn(va, 1);
        if mid(mem, root, v2) is Some {
            let u1 = mid(mem, root, v2).unwrap();
            assert(owner[u1] == (1int, v2, -1int));
            if v2 == i2 && v1 == i1 {
                assert(mem2[f][vpn(va, 0)] == 0u64);
            } else {
                if v2 != i2 {
                    assert(u1 != t1);
                }
                assert(mem2[u1][v1] == mem[u1][v1]);
                if leaf(mem, root, v2, v1) is Some {
                    let t0 = leaf(mem, root, v2, v1).unwrap();
                    assert(owner[t0].0 == 0);
                    assert(t0 != t1 && t0 != f);
                    assert(mem2[t0] == mem[t0]);
                }
            }
        }
    }
    assert forall|va: u64| #[trigger] missing_tables(mem2, root, va) <= missing_tables(mem, root, va) by {
        let v2 = vpn(va, 2);
        let v1 = vpn(va, 1);
        if mid(mem, root, v2) is Some {
            let u1 = mid(mem, root, v2).unwrap();
            assert(owner[u1] == (1int, v2, -1int));
            if v2 == i2 && v1 == i1 {
                lemma_table_entry_present(e);
            } else {
                if v2 != i2 {
                    assert(u1 != t1);
                }
                assert(mem2[u1][v1] == mem[u1][v1]);
            }
        }
    }
    assert forall|t: u64| #[trigger] mem2.contains_key(t) implies mem2[t].len() == 512 by {
        if t != f && t != t1 {
            assert(mem.contains_key(t));
        }
    }
    assert forall|j2: int| 0 <= j2 < 512 && #[trigger] mid(mem2, root, j2) is Some implies {
        &&& mem2.contains_key(mid(mem2, root, j2).unwrap())
        &&& owner2.contains_key(mid(mem2, root, j2).unwrap())
        &&& owner2[mid(mem2, root, j2).unwrap()] == (1int, j2, -1int)
    } by {
        let u1 = mid(mem, root, j2).unwrap();
        assert(owner[u1] == (1int, j2, -1int));
        assert(u1 != f);
    }
    assert forall|j2: int, j1: int| 0 <= j2 < 512 && 0 <= j1 < 512 && #[trigger] leaf(mem2, root, j2, j1) is Some implies {
        &&& mem2.contains_key(leaf(mem2, root, j2, j1).unwrap())
        &&& owner2.contains_key(leaf(mem2, root, j2, j1).unwrap())
        &&& owner2[leaf(mem2, root, j2, j1).unwrap()] == (0int, j2, j1)
    } by {
        if !(j2 == i2 && j1 == i1) {
            let t0 = leaf(mem, root, j2, j1).unwrap();
            assert(owner[t0] == (0int, j2, j1));
            assert(t0 != f);
        }
    }
}

/// Writing entry `i0` of the leaf table under `(i2, i1)` changes the translation of
/// the page `(i2, i1, i0)` only, and keeps the tree.
proof fn lemma_set_leaf(
    mem: Map<u64, Seq<u64>>,
    owner: Map<u64, (int, int, int)>,
    root: u64,
    i2: int,
    i1: int,
    i0: int,
    e: u64,
)
    requires
        tree_ok(mem, owner, root),
        0 <= i2 < 512,
        0 <= i1 < 512,
        0 <= i0 < 512,
        leaf(mem, root, i2, i1) is Some,
    ensures
        ({
            let t0 = leaf(mem, root, i2, i1).unwrap();
            let mem2 = mem.insert(t0, mem[t0].update(i0, e));
            &&& tree_ok(mem2, owner, root)
            &&& forall|j2: int, j1: int| 0 <= j2 < 512 ==> #[trigger] leaf(mem2, root, j2, j1) == leaf(mem, root, j2, j1)
            &&& forall|va: u64| #[trigger] missing_tables(mem2, root, va) == missing_tables(mem, root, va)
            &&& forall|va: u64| #[trigger] walk_entry(mem2, root, va) == (if vpn(va, 2) == i2 && vpn(va, 1) == i1 && vpn(va, 0) == i0 {
                Some(present(e))
            } else {
                walk_entry(mem, root, va)
            })
        }),
{
    let t1 = mid(mem, root, i2).unwrap();
    let t0 = leaf(mem, root, i2, i1).unwrap();
    let mem2 = mem.insert(t0, mem[t0].update(i0, e));
    assert(owner[t0] == (0int, i2, i1));
    assert(owner[t1] == (1int, i2, -1int));
    assert(t0 != root && t0 != t1);
    assert(mem2[root] == mem[root]);
    assert forall|j2: int| 0 <= j2 < 512 implies #[trigger] mid(mem2, root, j2) == mid(mem, root, j2) by {}
    assert forall|j2: int, j1: int| 0 <= j2 < 512 implies #[trigger] leaf(mem2, root, j2, j1) == leaf(mem, root, j2, j1) by {
        if mid(mem, root, j2) is Some {
            let u1 = mid(mem, root, j2).unwrap();
            assert(owner[u1] == (1int, j2, -1int));
            assert(u1 != t0);
        }
    }
    assert forall|va: u64| #[trigger] walk_entry(mem2, root, va) == (if vpn(va, 2) == i2 && vpn(va, 1) == i1 && vpn(va, 0) == i0 {
        Some(present(e))
    } else {
        walk_entry(mem, root, va)
    }) by {
        let v2 = vpn(va, 2);
        let v1 = vpn(va, 1);
        if mid(mem, root, v2) is Some {
            let u1 = mid(mem, root, v2).unwrap();
            assert(owner[u1] == (1int, v2, -1int));
            assert(u1 != t0);
            assert(mem2[u1] == mem[u1]);
            if leaf(mem, root, v2, v1) is Some {
                let u0 = leaf(mem, root, v2, v1).unwrap();
                assert(owner[u0] == (0int, v2, v1));
                if u0 == t0 {
                    assert(v2 == i2 && v1 == i1);
                }
            }
        }
    }
    assert forall|va: u64| #[trigger] missing_tables(mem2, root, va) == missing_tables(mem, root, va) by {
        let v2 = vpn(va, 2);
        if mid(mem, root, v2) is Some {
            let u1 = mid(mem, root, v2).unwrap();
            assert(owner[u1] == (1int, v2, -1int));
            assert(u1 != t0);
            assert(mem2[u1] == mem[u1]);
        }
    }
    assert forall|t: u64| #[trigger] mem2.contains_key(t) implies mem2[t].len() == 512 by {}
}

/// Pages of RAM lie at addresses that make table entries.
proof fn lemma_page_addr_entry(i: int)
    requires
        0 <= i < NUM_PAGES,
    ensures
        (page_addr(i) as u64) & 0xFFFF_F800_0000_0FFFu64 == 0,
        page_addr(i) as u64 == page_addr(i),
{
    let x = page_addr(i) as u64;
    assert(page_addr(i) < 0x8800_0000);
    assert(x % 4096 == 0);
    assert(x & 0xFFFF_F800_0000_0FFFu64 == 0) by (bit_vector)
        requires
            x % 4096 == 0,
            x < 0x8800_0000,
    ;
}

/// A leaf entry for an aligned address, readable and with the permission bits `w`,
/// `u`, `x`, leads to that address.
proof fn lemma_leaf_entry(pa: u64, w: u64, u: u64, x: u64)
    requires
        pa & 0xFFFF_F800_0000_0FFFu64 == 0,
        w == 0 || w == 4,
        u == 0 || u == 16,
        x == 0 || x == 8,
    ensures
        get_entry_addr_spec((((((pa >> 12u64) << 10u64) | PTE_PRESENT) | PTE_READ) | w | u) | x) == Some(pa),
{
    let e = (((((pa >> 12u64) << 10u64) | 1u64) | 2u64) | w | u) | x;
    assert(e & 1u64 != 0 && ((e >> 10u64) << 12u64) == pa) by (bit_vector)
        requires
            pa & 0xFFFF_F800_0000_0FFFu64 == 0,
            w == 0 || w == 4,
            u == 0 || u == 16,
            x == 0 || x == 8,
            e == (((((pa >> 12u64) << 10u64) | 1u64) | 2u64) | w | u) | x,
    ;
}

impl PageTables {
    /// The table at position `k` is found at its address.
    proof fn lemma_index(&self, k: int)
        requires
            self.frames@.no_duplicates(),
            0 <= k < self.frames@.len(),
        ensures
            self.frames@.index_of(self.frames@[k]) == k,
    {
        let s = self.frames@;
        assert(s.contains(s[k]));
        let j = s.index_of(s[k]);
        assert(0 <= j < s.len() && s[j] == s[k]);
    }

    /// Position of the table at address `a`.
    fn find(&self, a: u64) -> (r: usize)
        requires
            self.frames@.contains(a),
            self.frames@.no_duplicates(),
        ensures
            r < self.frames.len(),
            self.frames@[r as int] == a,
            self.frames@.index_of(a) == r,
    {
        let mut k: usize = 0;
        while k < self.frames.len()
            invariant
                k <= self.frames.len(),
                self.frames@.contains(a),
                self.frames@.no_duplicates(),
                forall|j: int| 0 <= j < k ==> self.frames@[j] != a,
            decreases self.frames.len() - k,
        {
            if self.frames[k] == a {
                proof {
                    self.lemma_index(k as int);
                }
                return k;
            }
            k = k + 1;
        }
        proof {
            let j = choose|j: int| 0 <= j < self.frames@.len() && self.frames@[j] == a;
        }
        0
    }

    /// Entry `i` of the table at address `a`.
    fn get(&self, a: u64, i: usize) -> (r: u64)
        requires
            self.frames@.contains(a),
            self.frames@.no_duplicates(),
            self.entries@.len() == 512 * self.frames@.len(),
            i < 512,
        ensures
            r == self.mem()[a][i as int],
    {
        let k = self.find(a);
        let len = self.entries.len();
        proof {
            assert(512 * k + i < 512 * self.frames@.len()) by (nonlinear_arith)
                requires
                    k < self.frames@.len(),
                    i < 512,
            ;
        }
        self.entries[512 * k + i]
    }

    /// Sets entry `i` of the table at address `a` to `e`.
    fn set(&mut self, a: u64, i: usize, e: u64)
        requires
            old(self).frames@.contains(a),
            old(self).frames@.no_duplicates(),
            old(self).entries@.len() == 512 * old(self).frames@.len(),
            i < 512,
        ensures
            final(self).mem() == old(self).mem().insert(a, old(self).mem()[a].update(i as int, e)),
            final(self).frames@ == old(self).frames@,
            final(self).entries@.len() == old(self).entries@.len(),
            final(self).spec_root() == old(self).spec_root(),
            final(self).owner@ == old(self).owner@,
    {
        let k = self.find(a);
        let len = self.entries.len();
        proof {
            assert(512 * k + i < 512 * self.frames@.len()) by (nonlinear_arith)
                requires
                    k < self.frames@.len(),
                    i < 512,
            ;
        }
        self.entries.set(512 * k + i, e);
        proof {
            let m1 = self.mem();
            let m0 = old(self).mem().insert(a, old(self).mem()[a].update(i as int, e));
            assert forall|b: u64| #[trigger] m1.contains_key(b) implies m1[b] == m0[b] by {
                let kb = self.frames@.index_of(b);
                assert(self.frames@.contains(b));
                let j = choose|j: int| 0 <= j < self.frames@.len() && self.frames@[j] == b;
                self.lemma_index(j);
                if b == a {
                    assert(m1[b] =~= m0[b]);
                } else {
                    assert(kb != k);
                    assert(m1[b] =~= m0[b]);
                }
            }
            assert(m1 =~= m0);
        }
    }

    /// Adds the table page at address `f`, all its entries empty.
    fn add(&mut self, f: u64)
        requires
            !old(self).frames@.contains(f),
            old(self).frames@.no_duplicates(),
            old(self).entries@.len() == 512 * old(self).frames@.len(),
        ensures
            final(self).mem() == old(self).mem().insert(f, empty_table()),
            final(self).frames@ == old(self).frames@.push(f),
            final(self).frames@.no_duplicates(),
            final(self).entries@.len() == 512 * final(self).frames@.len(),
            final(self).spec_root() == old(self).spec_root(),
            final(self).owner@ == old(self).owner@,
    {
        let ghost n = self.frames@.len();
        let ghost e0 = self.entries@;
        let mut z: usize = 0;
        while z < 512
            invariant
                z <= 512,
                self.entries@.len() == e0.len() + z,
                self.entries@.subrange(0, e0.len() as int) == e0,
                forall|x: int| e0.len() <= x < e0.len() + z ==> self.entries@[x] == 0u64,
                self.frames@ == old(self).frames@,
                self.root == old(self).root,
                self.owner@ == old(self).owner@,
            decreases 512 - z,
        {
            let ghost before = self.entries@;
            self.entries.push(0);
            assert(self.entries@.subrange(0, e0.len() as int) =~= before.subrange(0, e0.len() as int));
            z = z + 1;
        }
        self.frames.push(f);
        proof {
            let m1 = self.mem();
            let m0 = old(self).mem().insert(f, empty_table());
            assert forall|b: u64| #[trigger] m1.contains_key(b) implies m1[b] == m0[b] by {
                assert(self.frames@.contains(b));
                let j = choose|j: int| 0 <= j < self.frames@.len() && self.frames@[j] == b;
                self.lemma_index(j);
                if b == f {
                    assert(j == n);
                    assert(m1[b] =~= m0[b]);
                } else {
                    assert(j < n);
                    assert(old(self).frames@[j] == b);
                    old(self).lemma_index(j);
                    assert(self.entries@.subrange(512 * j, 512 * j + 512) =~= e0.subrange(512 * j, 512 * j + 512));
                }
            }
            assert forall|b: u64| #[trigger] m0.contains_key(b) implies m1.contains_key(b) by {
                if b == f {
                    assert(self.frames@[n as int] == f);
                } else {
                    let j = choose|j: int| 0 <= j < old(self).frames@.len() && old(self).frames@[j] == b;
                    assert(self.frames@[j] == b);
                }
            }
            assert(m1 =~= m0);
        }
    }
}

/// The allocator `b` keeps every page `a` has taken, and has at most `n` fewer free.
pub open spec fn alloc_grows(a: &PageAllocator, b: &PageAllocator, n: int) -> bool {
    &&& b.wf()
    &&& b@.len() == a@.len()
    &&& forall|i: int| 0 <= i < a@.len() && #[trigger] a@[i] ==> b@[i]
    &&& free_count(b@) + n >= free_count(a@)
}

/// `va` and `vb` lie in the same page.
pub open spec fn same_page(va: u64, vb: u64) -> bool {
    vpn(va, 2) == vpn(vb, 2) && vpn(va, 1) == vpn(vb, 1) && vpn(va, 0) == vpn(vb, 0)
}

impl PageTables {
    /// Takes a new page for a table and adds it, empty.
    fn new_table(&mut self, alloc: &mut PageAllocator) -> (f: u64)
        requires
            old(self).wf(&*old(alloc)),
            free_count(old(alloc)@) >= 1,
        ensures
            !old(self).frames@.contains(f),
            final(self).mem() == old(self).mem().insert(f, empty_table()),
            final(self).spec_root() == old(self).spec_root(),
            final(self).owner@ == old(self).owner@,
            final(self).frames@.no_duplicates(),
            final(self).entries@.len() == 512 * final(self).frames@.len(),
            forall|k: int| 0 <= k < final(self).frames@.len() ==> exists|i: int| 0 <= i < NUM_PAGES && #[trigger] final(self).frames@[k] == page_addr(i) && final(alloc)@[i],
            alloc_grows(&*old(alloc), &*final(alloc), 1),
            f & 0xFFFF_F800_0000_0FFFu64 == 0,
    {
        proof {
            old(alloc).lemma_len();
        }
        let f = alloc_page(alloc);
        let ghost i = choose|i: int| 0 <= i < NUM_PAGES && !old(alloc)@[i] && f == page_addr(i) && alloc@ == old(alloc)@.update(i, true);
        proof {
            lemma_page_addr_entry(i);
            if self.frames@.contains(f) {
                let k = choose|k: int| 0 <= k < self.frames@.len() && self.frames@[k] == f;
                let j = choose|j: int| 0 <= j < NUM_PAGES && #[trigger] self.frames@[k] == page_addr(j) && old(alloc)@[j];
                assert(page_addr(i) == page_addr(j));
                assert(i == j);
            }
            assert forall|x: int| 0 <= x < old(alloc)@.len() && #[trigger] old(alloc)@[x] implies alloc@[x] by {
                assert(alloc@[x] == old(alloc)@.update(i, true)[x]);
            }
        }
        let ghost fr0 = self.frames@;
        self.add(f);
        proof {
            assert forall|k: int| 0 <= k < self.frames@.len() implies exists|j: int| 0 <= j < NUM_PAGES && #[trigger] self.frames@[k] == page_addr(j) && alloc@[j] by {
                if k < fr0.len() {
                    assert(self.frames@[k] == fr0[k]);
                    let j = choose|j: int| 0 <= j < NUM_PAGES && #[trigger] fr0[k] == page_addr(j) && old(alloc)@[j];
                    assert(alloc@[j] == old(alloc)@.update(i, true)[j]);
                    assert(alloc@[j]);
                } else {
                    assert(self.frames@[k] == page_addr(i));
                    assert(alloc@[i] == old(alloc)@.update(i, true)[i]);
                }
            }
        }
        f
    }

    /// The leaf table on the way to `va` and the index of `va` in it, adding the
    /// tables missing on the way; `None` where an upper entry maps a large page.
    /// Every translation stays as it was.
    pub fn get_address_page_table_entry(&mut self, alloc: &mut PageAllocator, va: u64) -> (r: Option<(u64, usize)>)
        requires
            old(self).wf(&*old(alloc)),
            free_count(old(alloc)@) >= old(self).spec_missing_tables(va),
        ensures
            final(self).wf(&*final(alloc)),
            alloc_grows(&*old(alloc), &*final(alloc), old(self).spec_missing_tables(va)),
            final(self).spec_root() == old(self).spec_root(),
            forall|vb: u64| #[trigger] final(self).translate(vb) == old(self).translate(vb),
            forall|vb: u64| #[trigger] final(self).page_entry(vb) == old(self).page_entry(vb),
            forall|vb: u64| #[trigger] final(self).spec_missing_tables(vb) <= old(self).spec_missing_tables(vb),
            r is None <==> old(self).translate(va) is None,
            r matches Some((t0, i0)) ==> {
                &&& i0 == vpn(va, 0)
                &&& leaf(final(self).mem(), final(self).spec_root(), vpn(va, 2), vpn(va, 1)) == Some(t0)
            },
            leaf(old(self).mem(), old(self).spec_root(), vpn(va, 2), vpn(va, 1)) is Some ==> *final(alloc) == *old(alloc)
                && *final(self) == *old(self),
    {
        let i2 = ((va / 0x4000_0000) % 512) as usize;
        let i1 = ((va / 0x20_0000) % 512) as usize;
        let i0 = ((va / 0x1000) % 512) as usize;
        let root = self.root;
        proof {
            assert(self.mem().contains_key(root));
        }
        let e2 = self.get(root, i2);
        let t1 = match get_entry_addr(e2) {
            Some(t) => {
                if !is_entry_table(e2) {
                    return None;
                }
                t
            },
            None => {
                let ghost m0 = self.mem();
                let ghost o0 = self.owner@;
                let f = self.new_table(alloc);
                let e = create_page_table_entry(f);
                assert(self.mem().contains_key(root));
                self.set(root, i2, e);
                self.owner = Ghost(o0.insert(f, (1int, i2 as int, -1int)));
                proof {
                    lemma_new_mid(m0, o0, root, i2 as int, f, e);
                    assert(self.mem() =~= m0.insert(f, empty_table()).insert(root, m0[root].update(i2 as int, e)));
                }
                f
            },
        };
        proof {
            assert(mid(self.mem(), root, i2 as int) == Some(t1));
            assert(self.mem().contains_key(t1));
            assert(self.translate(va) == old(self).translate(va));
            assert(self.mem()[root][i2 as int] & PTE_PRESENT != 0);
        }
        let ghost s1 = self.mem();
        let e1 = self.get(t1, i1);
        let t0 = match get_entry_addr(e1) {
            Some(t) => {
                if !is_entry_table(e1) {
                    return None;
                }
                t
            },
            None => {
                let ghost m0 = self.mem();
                let ghost o0 = self.owner@;
                let f = self.new_table(alloc);
                let e = create_page_table_entry(f);
                assert(self.mem().contains_key(t1));
                self.set(t1, i1, e);
                self.owner = Ghost(o0.insert(f, (0int, i2 as int, i1 as int)));
                proof {
                    lemma_new_leaf(m0, o0, root, i2 as int, i1 as int, f, e);
                    assert(self.mem() =~= m0.insert(f, empty_table()).insert(t1, m0[t1].update(i1 as int, e)));
                }
                f
            },
        };
        Some((t0, i0))
    }
}

impl PageTables {
    /// The leaf entry of `va`, permission bits included, read without adding any table
    /// (see `walk_entry`).
    pub fn leaf_entry(&self, alloc: &PageAllocator, va: u64) -> (r: Option<Option<u64>>)
        requires
            self.wf(alloc),
        ensures
            r == self.page_entry(va),
    {
        let i2 = ((va / 0x4000_0000) % 512) as usize;
        let i1 = ((va / 0x20_0000) % 512) as usize;
        let i0 = ((va / 0x1000) % 512) as usize;
        let root = self.root;
        proof {
            assert(self.mem().contains_key(root));
        }
        let e2 = self.get(root, i2);
        if (e2 & PTE_PRESENT) == 0 {
            return Some(None);
        }
        if !is_entry_table(e2) {
            return None;
        }
        let t1 = (e2 >> 10) << 12;
        proof {
            assert(mid(self.mem(), root, i2 as int) == Some(t1));
            assert(self.mem().contains_key(t1));
        }
        let e1 = self.get(t1, i1);
        if (e1 & PTE_PRESENT) == 0 {
            return Some(None);
        }
        if !is_entry_table(e1) {
            return None;
        }
        let t0 = (e1 >> 10) << 12;
        proof {
            assert(leaf(self.mem(), root, i2 as int, i1 as int) == Some(t0));
            assert(self.mem().contains_key(t0));
        }
        let e0 = self.get(t0, i0);
        if (e0 & PTE_PRESENT) == 0 {
            Some(None)
        } else {
            Some(Some(e0))
        }
    }
}

impl PageTables {
    /// Well-formed tables come with a well-formed allocator.
    pub proof fn lemma_wf_alloc(&self, alloc: &PageAllocator)
        requires
            self.wf(alloc),
        ensures
            alloc.wf(),
    {
    }

    /// Where `va` is mapped, the tables on the way to it are all there.
    proof fn lemma_mapped_leaf(&self, alloc: &PageAllocator, va: u64)
        requires
            self.wf(alloc),
            self.translate(va) matches Some(Some(_)),
        ensures
            leaf(self.mem(), self.spec_root(), vpn(va, 2), vpn(va, 1)) is Some,
    {
        let mem = self.mem();
        let root = self.root;
        lemma_table_entry_present(mem[root][vpn(va, 2)]);
        assert(mid(mem, root, vpn(va, 2)) is Some);
        let t1 = mid(mem, root, vpn(va, 2)).unwrap();
        assert(mem.contains_key(t1));
        lemma_table_entry_present(mem[t1][vpn(va, 1)]);
    }
}

impl PageTables {
    /// The tables stay well formed while the allocator only takes more pages.
    proof fn lemma_wf_alloc_grows(&self, a: &PageAllocator, b: &PageAllocator)
        requires
            self.wf(a),
            b.wf(),
            forall|i: int| 0 <= i < a@.len() && #[trigger] a@[i] ==> b@[i],
        ensures
            self.wf(b),
    {
        a.lemma_len();
        assert forall|k: int| 0 <= k < self.frames@.len() implies exists|j: int| 0 <= j < NUM_PAGES && #[trigger] self.frames@[k] == page_addr(j) && b@[j] by {
            let j = choose|j: int| 0 <= j < NUM_PAGES && #[trigger] self.frames@[k] == page_addr(j) && a@[j];
            assert(b@[j]);
        }
    }

    /// A page table with every entry empty, in a newly taken page.
    pub fn create_page_table(alloc: &mut PageAllocator) -> (r: PageTables)
        requires
            old(alloc).wf(),
            free_count(old(alloc)@) >= 1,
        ensures
            r.wf(&*final(alloc)),
            alloc_grows(&*old(alloc), &*final(alloc), 1),
            forall|va: u64| #[trigger] r.translate(va) == Some(None::<u64>),
    {
        proof {
            old(alloc).lemma_len();
        }
        let root = alloc_page(alloc);
        let ghost i = choose|i: int| 0 <= i < NUM_PAGES && !old(alloc)@[i] && root == page_addr(i) && alloc@ == old(alloc)@.update(i, true);
        proof {
            lemma_page_addr_entry(i);
            assert forall|x: int| 0 <= x < old(alloc)@.len() && #[trigger] old(alloc)@[x] implies alloc@[x] by {
                assert(alloc@[x] == old(alloc)@.update(i, true)[x]);
            }
        }
        let mut t = PageTables { frames: Vec::new(), entries: Vec::new(), root, owner: Ghost(Map::empty()) };
        assert(t.mem() =~= Map::<u64, Seq<u64>>::empty());
        t.add(root);
        t.owner = Ghost(Map::<u64, (int, int, int)>::empty().insert(root, (2int, -1int, -1int)));
        proof {
            lemma_zero_entry();
            let m = t.mem();
            assert(m =~= Map::<u64, Seq<u64>>::empty().insert(root, empty_table()));
            assert forall|i2: int| 0 <= i2 < 512 implies #[trigger] mid(m, root, i2) is None by {
                assert(m[root][i2] == 0u64);
            }
            assert forall|i2: int, i1: int| 0 <= i2 < 512 && 0 <= i1 < 512 implies #[trigger] leaf(m, root, i2, i1) is None by {
                assert(mid(m, root, i2) is None);
            }
            assert forall|va: u64| #[trigger] t.translate(va) == Some(None::<u64>) by {
                assert(m[root][vpn(va, 2)] == 0u64);
            }
            assert forall|k: int| 0 <= k < t.frames@.len() implies exists|j: int| 0 <= j < NUM_PAGES && #[trigger] t.frames@[k] == page_addr(j) && alloc@[j] by {
                assert(t.frames@[k] == page_addr(i));
                assert(alloc@[i] == old(alloc)@.update(i, true)[i]);
            }
        }
        t
    }

    /// Maps the page of `va` to the page at `pa`, readable, and writable, usable by
    /// user code and executable as asked; a mapping already there is kept where
    /// `ignore_if_exists` holds. Every other page keeps its translation.
    pub fn map_page(
        &mut self,
        alloc: &mut PageAllocator,
        va: u64,
        pa: PhysAddr,
        ignore_if_exists: bool,
        writable: bool,
        user: bool,
        executable: bool,
    )
        requires
            old(self).wf(&*old(alloc)),
            free_count(old(alloc)@) >= old(self).spec_missing_tables(va),
            old(self).translate(va) is Some,
            !ignore_if_exists ==> old(self).translate(va) == Some(None::<u64>),
            pa & 0xFFFF_F800_0000_0FFFu64 == 0,
        ensures
            final(self).wf(&*final(alloc)),
            alloc_grows(&*old(alloc), &*final(alloc), old(self).spec_missing_tables(va)),
            final(self).translate(va) == (if ignore_if_exists && old(self).translate(va) != Some(None::<u64>) {
                old(self).translate(va)
            } else {
                Some(Some(pa))
            }),
            final(self).page_entry(va) == (if ignore_if_exists && old(self).translate(va) != Some(None::<u64>) {
                old(self).page_entry(va)
            } else {
                Some(Some(mapping_entry(pa, writable, user, executable)))
            }),
            forall|vb: u64| !same_page(vb, va) ==> #[trigger] final(self).translate(vb) == old(self).translate(vb),
            forall|vb: u64| !same_page(vb, va) ==> #[trigger] final(self).page_entry(vb) == old(self).page_entry(vb),
            forall|vb: u64| #[trigger] final(self).spec_missing_tables(vb) <= old(self).spec_missing_tables(vb),
            leaf(old(self).mem(), old(self).spec_root(), vpn(va, 2), vpn(va, 1)) is Some ==> *final(alloc) == *old(alloc),
    {
        let slot = self.get_address_page_table_entry(alloc, va);
        let (t0, i0) = match slot {
            Some(s) => s,
            None => {
                return;
            },
        };
        proof {
            let m = self.mem();
            let t1 = mid(m, self.root, vpn(va, 2)).unwrap();
            assert(m.contains_key(t0));
        }
        let cur = self.get(t0, i0);
        if ignore_if_exists && (cur & PTE_PRESENT) != 0 {
            return;
        }
        let w: u64 = if writable { PTE_WRITE } else { 0 };
        let u: u64 = if user { PTE_USER } else { 0 };
        let x: u64 = if executable { PTE_EXECUTE } else { 0 };
        let e = create_page_table_entry(pa) | PTE_READ | w | u | x;
        let ghost m0 = self.mem();
        let ghost p1 = *self;
        proof {
            lemma_leaf_entry(pa, w, u, x);
            lemma_set_leaf(m0, self.owner@, self.root, vpn(va, 2), vpn(va, 1), vpn(va, 0), e);
        }
        self.set(t0, i0, e);
        proof {
            assert(self.mem() =~= m0.insert(t0, m0[t0].update(i0 as int, e)));
            assert forall|vb: u64| !same_page(vb, va) implies #[trigger] self.translate(vb) == old(self).translate(vb) by {
                assert(lookup(self.mem(), self.root, vb) == lookup(m0, self.root, vb));
                assert(p1.translate(vb) == old(self).translate(vb));
            }
            assert forall|vb: u64| !same_page(vb, va) implies #[trigger] self.page_entry(vb) == old(self).page_entry(vb) by {
                assert(walk_entry(self.mem(), self.root, vb) == walk_entry(m0, self.root, vb));
                assert(p1.page_entry(vb) == old(self).page_entry(vb));
            }
            assert(e == mapping_entry(pa, writable, user, executable));
            assert(present(e) == Some(e));
            assert forall|vb: u64| #[trigger] self.spec_missing_tables(vb) <= old(self).spec_missing_tables(vb) by {
                assert(missing_tables(self.mem(), self.root, vb) == missing_tables(m0, self.root, vb));
                assert(p1.spec_missing_tables(vb) <= old(self).spec_missing_tables(vb));
            }
        }
    }

    /// The physical address `va` translates to: itself below the end of the identity
    /// map, else the address its leaf entry holds; missing tables on the way are added.
    pub fn virt_to_phys(&mut self, alloc: &mut PageAllocator, va: u64) -> (r: Option<PhysAddr>)
        requires
            va >= ID_MAP_END ==> {
                &&& old(self).wf(&*old(alloc))
                &&& free_count(old(alloc)@) >= old(self).spec_missing_tables(va)
                &&& old(self).translate(va) is Some
            },
        ensures
            va < ID_MAP_END ==> *final(self) == *old(self) && *final(alloc) == *old(alloc),
            va >= ID_MAP_END ==> final(self).wf(&*final(alloc)) && alloc_grows(
                &*old(alloc),
                &*final(alloc),
                old(self).spec_missing_tables(va),
            ),
            forall|vb: u64| #[trigger] final(self).page_entry(vb) == old(self).page_entry(vb),
            va >= ID_MAP_END && (old(self).translate(va) matches Some(Some(_))) ==> *final(self) == *old(self)
                && *final(alloc) == *old(alloc),
            forall|vb: u64| #[trigger] final(self).translate(vb) == old(self).translate(vb),
            r == (if va < ID_MAP_END {
                Some(va)
            } else {
                old(self).translate(va).unwrap()
            }),
    {
        if va < ID_MAP_END {
            return Some(va);
        }
        proof {
            if old(self).translate(va) matches Some(Some(_)) {
                old(self).lemma_mapped_leaf(&*old(alloc), va);
            }
        }
        let (t0, i0) = match self.get_address_page_table_entry(alloc, va) {
            Some(s) => s,
            None => {
                return None;
            },
        };
        proof {
            assert(self.mem().contains_key(t0));
            lemma_lookup_leaf(self.mem(), self.root, va, t0);
            let p1 = *self;
            assert(p1.translate(va) == old(self).translate(va));
        }
        let e = self.get(t0, i0);
        get_entry_addr(e)
    }

    /// Removes the mapping of the page of `va`. Every other page keeps its translation.
    pub fn unmap_page(&mut self, alloc: &mut PageAllocator, va: u64)
        requires
            old(self).wf(&*old(alloc)),
            old(self).translate(va) matches Some(Some(_)),
        ensures
            final(self).wf(&*final(alloc)),
            final(self).translate(va) == Some(None::<u64>),
            final(self).page_entry(va) == Some(None::<u64>),
            forall|vb: u64| !same_page(vb, va) ==> #[trigger] final(self).translate(vb) == old(self).translate(vb),
            forall|vb: u64| !same_page(vb, va) ==> #[trigger] final(self).page_entry(vb) == old(self).page_entry(vb),
            *final(alloc) == *old(alloc),
    {
        proof {
            old(self).lemma_mapped_leaf(&*old(alloc), va);
        }
        let (t0, i0) = match self.get_address_page_table_entry(alloc, va) {
            Some(s) => s,
            None => {
                return;
            },
        };
        proof {
            assert(self.mem().contains_key(t0));
        }
        let ghost m0 = self.mem();
        let ghost p1 = *self;
        proof {
            lemma_zero_entry();
            lemma_set_leaf(m0, self.owner@, self.root, vpn(va, 2), vpn(va, 1), vpn(va, 0), 0u64);
        }
        self.set(t0, i0, 0);
        proof {
            assert(self.mem() =~= m0.insert(t0, m0[t0].update(i0 as int, 0u64)));
            assert forall|vb: u64| !same_page(vb, va) implies #[trigger] self.translate(vb) == old(self).translate(vb) by {
                assert(lookup(self.mem(), self.root, vb) == lookup(m0, self.root, vb));
                assert(p1.translate(vb) == old(self).translate(vb));
            }
            assert forall|vb: u64| !same_page(vb, va) implies #[trigger] self.page_entry(vb) == old(self).page_entry(vb) by {
                assert(walk_entry(self.mem(), self.root, vb) == walk_entry(m0, self.root, vb));
                assert(p1.page_entry(vb) == old(self).page_entry(vb));
            }
            assert(p1.translate(va) == old(self).translate(va));
        }
    }
}

/// Maps the page of `va` to a newly taken page, as `map_page` does.
pub fn map_page_auto(
    tables: &mut PageTables,
    alloc: &mut PageAllocator,
    va: u64,
    ignore_if_exists: bool,
    writable: bool,
    user: bool,
    executable: bool,
)
    requires
        old(tables).wf(&*old(alloc)),
        free_count(old(alloc)@) >= 1 + old(tables).spec_missing_tables(va),
        old(tables).translate(va) is Some,
        !ignore_if_exists ==> old(tables).translate(va) == Some(None::<u64>),
    ensures
        final(tables).wf(&*final(alloc)),
        alloc_grows(&*old(alloc), &*final(alloc), 1 + old(tables).spec_missing_tables(va)),
        ignore_if_exists && old(tables).translate(va) != Some(None::<u64>) ==> final(tables).translate(va) == old(
            tables,
        ).translate(va) && final(tables).page_entry(va) == old(tables).page_entry(va),
        !(ignore_if_exists && old(tables).translate(va) != Some(None::<u64>)) ==> exists|i: int|
            0 <= i < NUM_PAGES && !old(alloc)@[i] && final(tables).translate(va) == Some(Some(page_addr(i) as u64))
                && final(tables).page_entry(va) == Some(Some(mapping_entry(page_addr(i) as u64, writable, user, executable))),
        forall|vb: u64| !same_page(vb, va) ==> #[trigger] final(tables).translate(vb) == old(tables).translate(vb),
        forall|vb: u64| !same_page(vb, va) ==> #[trigger] final(tables).page_entry(vb) == old(tables).page_entry(vb),
        forall|vb: u64| #[trigger] final(tables).spec_missing_tables(vb) <= old(tables).spec_missing_tables(vb),
{
    proof {
        old(alloc).lemma_len();
    }
    let pa = alloc_page(alloc);
    let ghost i = choose|i: int| 0 <= i < NUM_PAGES && !old(alloc)@[i] && pa == page_addr(i) && alloc@ == old(alloc)@.update(i, true);
    proof {
        lemma_page_addr_entry(i);
        assert forall|x: int| 0 <= x < old(alloc)@.len() && #[trigger] old(alloc)@[x] implies alloc@[x] by {
            assert(alloc@[x] == old(alloc)@.update(i, true)[x]);
        }
        tables.lemma_wf_alloc_grows(&*old(alloc), &*alloc);
    }
    tables.map_page(alloc, va, pa, ignore_if_exists, writable, user, executable);
    proof {
        if !(ignore_if_exists && old(tables).translate(va) != Some(None::<u64>)) {
            assert(pa == page_addr(i) as u64);
            assert(0 <= i < NUM_PAGES && !old(alloc)@[i]);
        }
    }
}

} // verus!
