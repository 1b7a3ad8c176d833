//! Three-level page tables kept in physical frames.
//!
//! A virtual page number has 27 bits, nine per level. A table node is one
//! frame of 512 entries; an entry is a 64-bit word holding a physical page
//! number above ten flag bits.
use vstd::prelude::*;
use crate::config::{PPN_LIMIT, VPN_LIMIT};
use crate::mm::phys_mem::{PhysMem, zero_frame, lemma_zero_frame_words};
use crate::mm::frame_allocator::FrameAllocator;

verus! {

/// Entry flag: the entry is in use.
pub const PTE_V: u8 = 1;

/// Entry flag: the page may be read.
pub const PTE_R: u8 = 2;

/// Entry flag: the page may be written.
pub const PTE_W: u8 = 4;

/// Entry flag: the page may be executed.
pub const PTE_X: u8 = 8;

/// Entry flag: the page is accessible in user mode.
pub const PTE_U: u8 = 16;

/// One page-table entry.
#[derive(Clone, Copy, PartialEq, Eq, Structural, Debug)]
pub struct PageTableEntry {
    pub bits: u64,
}

impl PageTableEntry {
    /// The entry that points at frame `ppn` with the flags `flags`.
    pub open spec fn of(ppn: u64, flags: u8) -> PageTableEntry {
        PageTableEntry { bits: (ppn * 1024 + flags) as u64 }
    }

    /// The physical page number held by the entry.
    pub open spec fn target(self) -> u64 {
        ((self.bits / 1024) % PPN_LIMIT) as u64
    }

    /// The low eight flag bits of the entry.
    pub open spec fn flag_bits(self) -> u8 {
        (self.bits % 256) as u8
    }

    /// Whether the entry is in use.
    pub open spec fn valid(self) -> bool {
        self.bits % 2 == 1
    }

    /// An entry that points at frame `ppn` with the flags `flags`.
    pub fn new(ppn: u64, flags: u8) -> (e: PageTableEntry)
        requires
            ppn < PPN_LIMIT,
        ensures
            e == Self::of(ppn, flags),
            e.target() == ppn,
            e.flag_bits() == flags,
            e.valid() == (flags & PTE_V != 0),
    {
        assert((flags & 1u8 != 0) == (flags % 2 == 1)) by (bit_vector);
        PageTableEntry { bits: ppn * 1024 + flags as u64 }
    }

    /// The entry that is not in use.
    pub fn empty() -> (e: PageTableEntry)
        ensures
            e.bits == 0,
            !e.valid(),
    {
        PageTableEntry { bits: 0 }
    }

    /// The physical page number held by the entry.
    pub fn ppn(&self) -> (p: u64)
        ensures
            p == self.target(),
            p < PPN_LIMIT,
    {
        (self.bits / 1024) % PPN_LIMIT
    }

    /// The low eight flag bits of the entry.
    pub fn flags(&self) -> (f: u8)
        ensures
            f == self.flag_bits(),
    {
        (self.bits % 256) as u8
    }

    /// Whether the entry is in use.
    pub fn is_valid(&self) -> (b: bool)
        ensures
            b == self.valid(),
    {
        self.bits % 2 == 1
    }

    /// Whether the page may be read.
    pub fn readable(&self) -> (b: bool)
        ensures
            b == (self.flag_bits() & PTE_R != 0),
    {
        self.flags() & PTE_R != 0
    }

    /// Whether the page may be written.
    pub fn writable(&self) -> (b: bool)
        ensures
            b == (self.flag_bits() & PTE_W != 0),
    {
        self.flags() & PTE_W != 0
    }

    /// Whether the page may be executed.
    pub fn executable(&self) -> (b: bool)
        ensures
            b == (self.flag_bits() & PTE_X != 0),
    {
        self.flags() & PTE_X != 0
    }

    /// Whether the page is accessible in user mode.
    pub fn user(&self) -> (b: bool)
        ensures
            b == (self.flag_bits() & PTE_U != 0),
    {
        self.flags() & PTE_U != 0
    }
}

/// Number of table positions in one tree: the root, 512 second-level
/// nodes, and 512 * 512 third-level nodes.
pub open spec fn slot_limit() -> int {
    262657
}

/// Position of the second-level node on the path of `vpn`.
pub open spec fn mid_slot(vpn: int) -> int {
    1 + vpn / 262144
}

/// Position of the third-level node on the path of `vpn`.
pub open spec fn leaf_slot(vpn: int) -> int {
    513 + vpn / 512
}

/// The frame that the word `w`, read as an entry, points at, if it is in use.
pub open spec fn entry_target(w: u64) -> Option<int> {
    if w % 2 == 1 {
        Some(((w / 1024) % PPN_LIMIT) as int)
    } else {
        None
    }
}

/// The frame of the second-level node at index `i0` of the root.
pub open spec fn mid_table(mem: PhysMem, root: int, i0: int) -> Option<int> {
    entry_target(mem.word(root, i0))
}

/// The frame of the third-level node reached by `i0`, then `i1`.
pub open spec fn leaf_table(mem: PhysMem, root: int, i0: int, i1: int) -> Option<int> {
    match mid_table(mem, root, i0) {
        None => None,
        Some(m) => entry_target(mem.word(m, i1)),
    }
}

/// The frame of the node at position `slot` of the tree rooted at `root`.
pub open spec fn table_at(mem: PhysMem, root: int, slot: int) -> Option<int> {
    if slot == 0 {
        Some(root)
    } else if slot <= 512 {
        mid_table(mem, root, slot - 1)
    } else {
        leaf_table(mem, root, (slot - 513) / 512, (slot - 513) % 512)
    }
}

/// The entry that the walk from `root` finds for `vpn`, if one is in use.
pub open spec fn leaf_entry(mem: PhysMem, root: int, vpn: int) -> Option<PageTableEntry> {
    match table_at(mem, root, leaf_slot(vpn)) {
        None => None,
        Some(l) => {
            let w = mem.word(l, vpn % 512);
            if w % 2 == 1 {
                Some(PageTableEntry { bits: w })
            } else {
                None
            }
        },
    }
}

/// The nodes reachable from `root` are frames of memory and form a tree:
/// no frame serves at two positions.
pub open spec fn structure(mem: PhysMem, root: int) -> bool {
    &&& 0 <= root < mem.num_frames()
    &&& forall|s: int|
        0 <= s < slot_limit() ==> (#[trigger] table_at(mem, root, s) matches Some(p) ==> 0 <= p
            < mem.num_frames())
    &&& forall|s: int, t: int|
        0 <= s < slot_limit() && 0 <= t < slot_limit() && s != t && (#[trigger] table_at(
            mem,
            root,
            s,
        )) is Some && (#[trigger] table_at(mem, root, t)) is Some ==> table_at(mem, root, s)
            != table_at(mem, root, t)
}

/// How many nodes are missing on the path of `vpn`.
pub open spec fn tables_missing(mem: PhysMem, root: int, vpn: int) -> nat {
    let a: nat = if table_at(mem, root, mid_slot(vpn)) is None {
        1
    } else {
        0
    };
    let b: nat = if table_at(mem, root, leaf_slot(vpn)) is None {
        1
    } else {
        0
    };
    a + b
}

/// Two memories that agree on every node of a tree hold the same tree.
pub proof fn lemma_same_tables(m1: PhysMem, m2: PhysMem, root: int, region: Set<int>)
    requires
        0 <= root < m1.num_frames(),
        m2.num_frames() == m1.num_frames(),
        forall|s: int|
            0 <= s < slot_limit() ==> (#[trigger] table_at(m1, root, s) matches Some(p) ==> 0 <= p
                < m1.num_frames() && region.contains(p)),
        forall|p: int|
            0 <= p < m1.num_frames() && region.contains(p) ==> #[trigger] m2.frame(p) == m1.frame(p),
    ensures
        forall|s: int|
            0 <= s < slot_limit() ==> #[trigger] table_at(m2, root, s) == table_at(m1, root, s),
        forall|v: int|
            0 <= v < VPN_LIMIT ==> #[trigger] leaf_entry(m2, root, v) == leaf_entry(m1, root, v),
        structure(m1, root) ==> structure(m2, root),
{
    assert(table_at(m1, root, 0) == Some(root));
    assert(m2.frame(root) == m1.frame(root));
    assert forall|s: int| 0 <= s < slot_limit() implies #[trigger] table_at(m2, root, s)
        == table_at(m1, root, s) by {
        if s == 0 {
        } else if s <= 512 {
        } else {
            let i0 = (s - 513) / 512;
            let i1 = (s - 513) % 512;
            assert(table_at(m1, root, 1 + i0) == mid_table(m1, root, i0));
            if let Some(m) = mid_table(m1, root, i0) {
                assert(m2.frame(m) == m1.frame(m));
            }
        }
    }
    assert forall|v: int| 0 <= v < VPN_LIMIT implies #[trigger] leaf_entry(m2, root, v)
        == leaf_entry(m1, root, v) by {
        assert(table_at(m2, root, leaf_slot(v)) == table_at(m1, root, leaf_slot(v)));
        if let Some(l) = table_at(m1, root, leaf_slot(v)) {
            assert(m2.frame(l) == m1.frame(l));
        }
    }
}

/// Effect of putting the fresh, zeroed node `f` under index `i0` of the root.
pub proof fn lemma_install_mid(m1: PhysMem, m2: PhysMem, root: int, i0: int, f: int)
    requires
        structure(m1, root),
        0 <= i0 < 512,
        mid_table(m1, root, i0) is None,
        0 <= f < m1.num_frames(),
        forall|s: int| 0 <= s < slot_limit() ==> #[trigger] table_at(m1, root, s) != Some(f),
        m1.frame(f) == zero_frame(),
        m1.same_except(&m2, root),
        entry_target(m2.word(root, i0)) == Some(f),
        forall|j: int| 0 <= j < 512 && j != i0 ==> #[trigger] m2.word(root, j) == m1.word(root, j),
    ensures
        structure(m2, root),
        forall|s: int|
            0 <= s < slot_limit() ==> #[trigger] table_at(m2, root, s) == (if s == 1 + i0 {
                Some(f)
            } else {
                table_at(m1, root, s)
            }),
        forall|v: int|
            0 <= v < VPN_LIMIT ==> #[trigger] leaf_entry(m2, root, v) == leaf_entry(m1, root, v),
{
    assert(table_at(m1, root, 0) == Some(root));
    assert(m2.frame(f) == m1.frame(f));
    assert forall|s: int| 0 <= s < slot_limit() implies #[trigger] table_at(m2, root, s) == (if s
        == 1 + i0 {
        Some(f)
    } else {
        table_at(m1, root, s)
    }) by {
        if s == 0 {
        } else if s <= 512 {
        } else {
            let j0 = (s - 513) / 512;
            let j1 = (s - 513) % 512;
            assert(table_at(m1, root, 1 + j0) == mid_table(m1, root, j0));
            if j0 == i0 {
                lemma_zero_frame_words(j1);
            } else {
                if let Some(m) = mid_table(m1, root, j0) {
                    assert(m2.frame(m) == m1.frame(m));
                }
            }
        }
    }
    assert forall|v: int| 0 <= v < VPN_LIMIT implies #[trigger] leaf_entry(m2, root, v)
        == leaf_entry(m1, root, v) by {
        assert(table_at(m2, root, leaf_slot(v)) == table_at(m1, root, leaf_slot(v)));
        if let Some(l) = table_at(m1, root, leaf_slot(v)) {
            assert(m2.frame(l) == m1.frame(l));
        }
    }
    assert forall|s: int, t: int|
        0 <= s < slot_limit() && 0 <= t < slot_limit() && s != t && (#[trigger] table_at(
            m2,
            root,
            s,
        )) is Some && (#[trigger] table_at(m2, root, t)) is Some implies table_at(m2, root, s)
        != table_at(m2, root, t) by {
        assert(table_at(m1, root, s) != Some(f));
        assert(table_at(m1, root, t) != Some(f));
    }
}

/// Effect of putting the fresh, zeroed node `f` under index `i1` of the
/// second-level node at `i0`.
pub proof fn lemma_install_leaf(m1: PhysMem, m2: PhysMem, root: int, i0: int, i1: int, f: int)
    requires
        structure(m1, root),
        0 <= i0 < 512,
        0 <= i1 < 512,
        mid_table(m1, root, i0) is Some,
        leaf_table(m1, root, i0, i1) is None,
        0 <= f < m1.num_frames(),
        forall|s: int| 0 <= s < slot_limit() ==> #[trigger] table_at(m1, root, s) != Some(f),
        m1.frame(f) == zero_frame(),
        m1.same_except(&m2, mid_table(m1, root, i0)->0),
        entry_target(m2.word(mid_table(m1, root, i0)->0, i1)) == Some(f),
        forall|j: int|
            0 <= j < 512 && j != i1 ==> #[trigger] m2.word(mid_table(m1, root, i0)->0, j)
                == m1.word(mid_table(m1, root, i0)->0, j),
    ensures
        structure(m2, root),
        forall|s: int|
            0 <= s < slot_limit() ==> #[trigger] table_at(m2, root, s) == (if s == 513 + i0 * 512
                + i1 {
                Some(f)
            } else {
                table_at(m1, root, s)
            }),
        forall|v: int|
            0 <= v < VPN_LIMIT ==> #[trigger] leaf_entry(m2, root, v) == leaf_entry(m1, root, v),
{
    let m = mid_table(m1, root, i0)->0;
    assert(table_at(m1, root, 0) == Some(root));
    assert(table_at(m1, root, 1 + i0) == Some(m));
    assert(m2.frame(f) == m1.frame(f));
    assert(m2.frame(root) == m1.frame(root));
    assert forall|s: int| 0 <= s < slot_limit() implies #[trigger] table_at(m2, root, s) == (if s
        == 513 + i0 * 512 + i1 {
        Some(f)
    } else {
        table_at(m1, root, s)
    }) by {
        if s == 0 {
        } else if s <= 512 {
        } else {
            let j0 = (s - 513) / 512;
            let j1 = (s - 513) % 512;
            assert(table_at(m1, root, 1 + j0) == mid_table(m1, root, j0));
            if j0 == i0 {
            } else {
                if let Some(mm) = mid_table(m1, root, j0) {
                    assert(m2.frame(mm) == m1.frame(mm));
                }
            }
        }
    }
    assert forall|v: int| 0 <= v < VPN_LIMIT implies #[trigger] leaf_entry(m2, root, v)
        == leaf_entry(m1, root, v) by {
        let s = leaf_slot(v);
        assert(table_at(m2, root, s) == (if s == 513 + i0 * 512 + i1 {
            Some(f)
        } else {
            table_at(m1, root, s)
        }));
        if s == 513 + i0 * 512 + i1 {
            lemma_zero_frame_words(v % 512);
        } else {
            if let Some(l) = table_at(m1, root, s) {
                assert(m2.frame(l) == m1.frame(l));
            }
        }
    }
    assert forall|s: int, t: int|
        0 <= s < slot_limit() && 0 <= t < slot_limit() && s != t && (#[trigger] table_at(
            m2,
            root,
            s,
        )) is Some && (#[trigger] table_at(m2, root, t)) is Some implies table_at(m2, root, s)
        != table_at(m2, root, t) by {
        assert(table_at(m1, root, s) != Some(f));
        assert(table_at(m1, root, t) != Some(f));
    }
}

/// Effect of writing the word `w` as the entry of `vpn` in its third-level node.
pub proof fn lemma_write_entry(m1: PhysMem, m2: PhysMem, root: int, vpn: int, w: u64)
    requires
        structure(m1, root),
        0 <= vpn < VPN_LIMIT,
        table_at(m1, root, leaf_slot(vpn)) is Some,
        m1.same_except(&m2, table_at(m1, root, leaf_slot(vpn))->0),
        m2.word(table_at(m1, root, leaf_slot(vpn))->0, vpn % 512) == w,
        forall|j: int|
            0 <= j < 512 && j != vpn % 512 ==> #[trigger] m2.word(
                table_at(m1, root, leaf_slot(vpn))->0,
                j,
            ) == m1.word(table_at(m1, root, leaf_slot(vpn))->0, j),
    ensures
        structure(m2, root),
        forall|s: int|
            0 <= s < slot_limit() ==> #[trigger] table_at(m2, root, s) == table_at(m1, root, s),
        forall|v: int|
            0 <= v < VPN_LIMIT && v != vpn ==> #[trigger] leaf_entry(m2, root, v) == leaf_entry(
                m1,
                root,
                v,
            ),
        leaf_entry(m2, root, vpn) == (if w % 2 == 1 {
            Some(PageTableEntry { bits: w })
        } else {
            None
        }),
{
    let ls = leaf_slot(vpn);
    let l = table_at(m1, root, ls)->0;
    assert(table_at(m1, root, 0) == Some(root));
    assert(m2.frame(root) == m1.frame(root));
    assert forall|s: int| 0 <= s < slot_limit() implies #[trigger] table_at(m2, root, s)
        == table_at(m1, root, s) by {
        if s == 0 {
        } else if s <= 512 {
        } else {
            let j0 = (s - 513) / 512;
            assert(table_at(m1, root, 1 + j0) == mid_table(m1, root, j0));
            if let Some(mm) = mid_table(m1, root, j0) {
                assert(m2.frame(mm) == m1.frame(mm));
            }
        }
    }
    assert forall|v: int| 0 <= v < VPN_LIMIT && v != vpn implies #[trigger] leaf_entry(
        m2,
        root,
        v,
    ) == leaf_entry(m1, root, v) by {
        let s = leaf_slot(v);
        assert(table_at(m2, root, s) == table_at(m1, root, s));
        if let Some(l2) = table_at(m1, root, s) {
            if s != ls {
                assert(m2.frame(l2) == m1.frame(l2));
            }
        }
    }
    assert(table_at(m2, root, ls) == table_at(m1, root, ls));
}

/// A token names its root: the table that [`PageTable::from_token`] makes
/// of the token of a table has the root of that table.
pub proof fn lemma_token_names_root(root: int)
    requires
        0 <= root < PPN_LIMIT,
    ensures
        PageTable::token_of(root) % PPN_LIMIT == root,
{
}

/// Why a mapping could not be installed.
#[derive(Clone, Copy, PartialEq, Eq, Structural, Debug)]
pub enum MapError {
    /// The page already has an entry in use.
    AlreadyMapped,
    /// The frame pool ran dry while a node was being added.
    OutOfFrames,
}

/// A page table: the root node and the frames of all its nodes.
///
/// A table made by [`PageTable::from_token`] is a view: it owns no frame
/// and serves only to look pages up.
pub struct PageTable {
    root_ppn: u64,
    frames: Vec<u64>,
}

impl PageTable {
    /// Frame of the root node.
    pub closed spec fn root(&self) -> int {
        self.root_ppn as int
    }

    /// The frames that this table owns as nodes.
    pub closed spec fn owned(&self) -> Set<int> {
        Set::new(|p: int| 0 <= p <= u64::MAX && self.frames@.contains(p as u64))
    }

    /// The table's nodes form a tree in memory, and the table owns each of
    /// them as a frame that the pool has handed out.
    pub closed spec fn wf(&self, fa: &FrameAllocator) -> bool {
        &&& structure(fa.memory(), self.root())
        &&& forall|s: int|
            0 <= s < slot_limit() ==> (#[trigger] table_at(fa.memory(), self.root(), s) matches Some(
                p,
            ) ==> self.frames@.contains(p as u64))
        &&& self.frames@.no_duplicates()
        &&& forall|i: int|
            0 <= i < self.frames@.len() ==> fa.is_allocated(#[trigger] self.frames@[i] as int)
    }

    /// What follows from the invariant: the tree is sound, every node is
    /// owned, and every owned frame is handed out.
    pub proof fn lemma_wf(&self, fa: &FrameAllocator)
        requires
            self.wf(fa),
        ensures
            structure(fa.memory(), self.root()),
            self.owned().contains(self.root()),
            forall|s: int|
                0 <= s < slot_limit() ==> (#[trigger] table_at(fa.memory(), self.root(), s) matches Some(
                    p,
                ) ==> self.owned().contains(p)),
            forall|p: int| self.owned().contains(p) ==> #[trigger] fa.is_allocated(p),
    {
        assert(table_at(fa.memory(), self.root(), 0) == Some(self.root()));
        assert forall|p: int| self.owned().contains(p) implies #[trigger] fa.is_allocated(p) by {
            let i = choose|i: int| 0 <= i < self.frames@.len() && self.frames@[i] == p as u64;
            assert(fa.is_allocated(self.frames@[i] as int));
        }
    }

    /// The invariant survives any change of memory and pool outside the
    /// table's own frames, and the table then maps what it mapped.
    pub proof fn lemma_unchanged_outside(&self, fa1: &FrameAllocator, fa2: &FrameAllocator, region: Set<int>)
        requires
            self.wf(fa1),
            fa1.wf(),
            fa1.unchanged_outside(fa2, region),
            self.owned().disjoint(region),
        ensures
            self.wf(fa2),
            forall|s: int| 0 <= s < slot_limit() ==> #[trigger] table_at(fa2.memory(), self.root(), s) == table_at(fa1.memory(), self.root(), s),
            forall|v: int| 0 <= v < VPN_LIMIT ==> #[trigger] leaf_entry(fa2.memory(), self.root(), v) == leaf_entry(fa1.memory(), self.root(), v),
    {
        self.lemma_wf(fa1);
        assert forall|p: int|
            0 <= p < fa1.memory().num_frames() && self.owned().contains(p) implies #[trigger] fa2.memory().frame(
            p,
        ) == fa1.memory().frame(p) by {
            assert(!region.contains(p));
        }
        lemma_same_tables(fa1.memory(), fa2.memory(), self.root(), self.owned());
        assert forall|i: int| 0 <= i < self.frames@.len() implies fa2.is_allocated(
            #[trigger] self.frames@[i] as int,
        ) by {
            let p = self.frames@[i] as int;
            assert(self.owned().contains(p));
            assert(!region.contains(p));
            assert(fa1.is_allocated(p));
        }
    }

    /// The value that names this table to the hardware: the paging mode
    /// above the root's frame number.
    pub open spec fn token_of(root: int) -> u64 {
        (0x8000_0000_0000_0000 + root) as u64
    }

    /// The value that names this table to the hardware.
    pub fn token(&self) -> (t: u64)
        requires
            self.root() < PPN_LIMIT,
        ensures
            t == Self::token_of(self.root()),
    {
        0x8000_0000_0000_0000u64 + self.root_ppn
    }

    /// Frame of the root node.
    pub fn root_ppn(&self) -> (p: u64)
        ensures
            p == self.root(),
    {
        self.root_ppn
    }

    /// A view of the table that `token` names. It owns nothing.
    pub fn from_token(token: u64) -> (pt: PageTable)
        ensures
            pt.root() == token % PPN_LIMIT,
            pt.owned() == Set::<int>::empty(),
    {
        let pt = PageTable { root_ppn: token % PPN_LIMIT, frames: Vec::new() };
        assert(pt.owned() =~= Set::<int>::empty());
        pt
    }

    /// A table with a fresh, empty root; `None` when no frame is left.
    pub fn new(fa: &mut FrameAllocator) -> (r: Option<PageTable>)
        requires
            old(fa).wf(),
        ensures
            final(fa).wf(),
            r is None <==> old(fa).free_count() == 0,
            r is None ==> *final(fa) == *old(fa),
            r matches Some(pt) ==> {
                &&& pt.wf(final(fa))
                &&& !old(fa).is_allocated(pt.root())
                &&& pt.owned() == set![pt.root()]
                &&& old(fa).unchanged_outside(final(fa), pt.owned())
                &&& final(fa).free_count() == old(fa).free_count() - 1
                &&& forall|s: int| 0 < s < slot_limit() ==> (#[trigger] table_at(final(fa).memory(), pt.root(), s)) is None
                &&& forall|v: int| 0 <= v < VPN_LIMIT ==> (#[trigger] leaf_entry(final(fa).memory(), pt.root(), v)) is None
            },
    {
        match fa.allocate() {
            None => None,
            Some(f) => {
                let mut frames: Vec<u64> = Vec::new();
                frames.push(f);
                let pt = PageTable { root_ppn: f, frames };
                proof {
                    fa.lemma_allocated_in_range(f as int);
                    final_fa_root_empty(fa, f as int);
                    assert(pt.frames@ =~= seq![f]);
                    assert(pt.frames@[0] == f);
                    assert forall|p: int| pt.owned().contains(p) <==> p == f as int by {
                        if pt.owned().contains(p) {
                            let i = choose|i: int| 0 <= i < pt.frames@.len() && pt.frames@[i] == p as u64;
                        }
                    }
                    assert(pt.owned() =~= set![pt.root()]);
                    assert forall|s: int| 0 <= s < slot_limit() implies (#[trigger] table_at(
                        fa.memory(),
                        pt.root(),
                        s,
                    ) matches Some(p) ==> pt.frames@.contains(p as u64)) by {
                        if s == 0 {
                            assert(pt.frames@[0] == f);
                        }
                    }
                }
                Some(pt)
            },
        }
    }

    /// Looks `vpn` up.
    pub fn translate(&self, fa: &FrameAllocator, vpn: u64) -> (r: Option<PageTableEntry>)
        requires
            fa.wf(),
            structure(fa.memory(), self.root()) || self.wf(fa),
            vpn < VPN_LIMIT,
        ensures
            r == leaf_entry(fa.memory(), self.root(), vpn as int),
    {
        proof {
            if self.wf(fa) {
                self.lemma_wf(fa);
            }
        }
        let i0 = vpn / 262144;
        let i1 = (vpn / 512) % 512;
        let i2 = vpn % 512;
        proof {
            assert(table_at(fa.memory(), self.root(), 1 + i0 as int) == mid_table(
                fa.memory(),
                self.root(),
                i0 as int,
            ));
            assert(table_at(fa.memory(), self.root(), leaf_slot(vpn as int)) == leaf_table(
                fa.memory(),
                self.root(),
                i0 as int,
                i1 as int,
            ));
        }
        let w0 = fa.read_word(self.root_ppn, i0);
        if w0 % 2 != 1 {
            return None;
        }
        let m = (w0 / 1024) % PPN_LIMIT;
        let w1 = fa.read_word(m, i1);
        if w1 % 2 != 1 {
            return None;
        }
        let l = (w1 / 1024) % PPN_LIMIT;
        let w2 = fa.read_word(l, i2);
        if w2 % 2 != 1 {
            return None;
        }
        Some(PageTableEntry { bits: w2 })
    }

    /// What making sure of the node at position `slot` leaves behind: the
    /// node exists, in the frame `m`; it is new exactly when it was missing,
    /// and then it is a frame that was free; every other node and every entry
    /// is as before.
    pub open spec fn node_added(
        &self,
        next: &PageTable,
        fa0: &FrameAllocator,
        fa1: &FrameAllocator,
        slot: int,
        m: int,
    ) -> bool {
        &&& next.wf(fa1)
        &&& next.root() == self.root()
        &&& table_at(fa1.memory(), next.root(), slot) == Some(m)
        &&& forall|s: int|
            0 <= s < slot_limit() && s != slot ==> #[trigger] table_at(fa1.memory(), next.root(), s) == table_at(fa0.memory(), self.root(), s)
        &&& forall|v: int|
            0 <= v < VPN_LIMIT ==> #[trigger] leaf_entry(fa1.memory(), next.root(), v) == leaf_entry(fa0.memory(), self.root(), v)
        &&& fa1.free_count() == fa0.free_count() - (if table_at(fa0.memory(), self.root(), slot) is None {
            1int
        } else {
            0int
        })
        &&& self.owned().subset_of(next.owned())
        &&& forall|p: int|
            next.owned().contains(p) && !self.owned().contains(p) ==> !fa0.is_allocated(p)
        &&& fa0.unchanged_outside(fa1, next.owned())
    }

    /// What a successful [`PageTable::map`] of `vpn` leaves behind: the
    /// entry `(ppn, flags | V)` for `vpn`; every other entry as before; the
    /// nodes on the path of `vpn` beside those that existed, each new one a
    /// frame that was free.
    pub open spec fn mapped(
        &self,
        next: &PageTable,
        fa0: &FrameAllocator,
        fa1: &FrameAllocator,
        vpn: int,
        ppn: u64,
        flags: u8,
    ) -> bool {
        &&& next.wf(fa1)
        &&& next.root() == self.root()
        &&& leaf_entry(fa1.memory(), next.root(), vpn) == Some(
            PageTableEntry::of(ppn, flags | PTE_V),
        )
        &&& forall|v: int|
            0 <= v < VPN_LIMIT && v != vpn ==> #[trigger] leaf_entry(fa1.memory(), next.root(), v)
                == leaf_entry(fa0.memory(), self.root(), v)
        &&& forall|s: int|
            0 <= s < slot_limit() ==> (#[trigger] table_at(fa1.memory(), next.root(), s) is Some
                <==> table_at(fa0.memory(), self.root(), s) is Some || s == mid_slot(vpn) || s
                == leaf_slot(vpn))
        &&& fa1.free_count() == fa0.free_count() - tables_missing(fa0.memory(), self.root(), vpn)
        &&& self.owned().subset_of(next.owned())
        &&& forall|p: int|
            next.owned().contains(p) && !self.owned().contains(p) ==> !fa0.is_allocated(p)
        &&& fa0.unchanged_outside(fa1, next.owned())
    }

    /// Two nodes made sure of and the entry written make a mapping.
    #[verifier::rlimit(40)]
    proof fn lemma_map_done(
        &self,
        s1: &PageTable,
        s2: &PageTable,
        next: &PageTable,
        fa0: &FrameAllocator,
        fa1: &FrameAllocator,
        fa2: &FrameAllocator,
        fa3: &FrameAllocator,
        vpn: int,
        ppn: u64,
        flags: u8,
        m: int,
        l: int,
    )
        requires
            0 <= vpn < VPN_LIMIT,
            ppn < PPN_LIMIT,
            self.wf(fa0),
            leaf_entry(fa0.memory(), self.root(), vpn) is None,
            self.node_added(s1, fa0, fa1, mid_slot(vpn), m),
            s1.node_added(s2, fa1, fa2, leaf_slot(vpn), l),
            *next == *s2,
            next.wf(fa3),
            forall|s: int|
                0 <= s < slot_limit() ==> #[trigger] table_at(fa3.memory(), next.root(), s)
                    == table_at(fa2.memory(), s2.root(), s),
            forall|v: int|
                0 <= v < VPN_LIMIT && v != vpn ==> #[trigger] leaf_entry(
                    fa3.memory(),
                    next.root(),
                    v,
                ) == leaf_entry(fa2.memory(), s2.root(), v),
            leaf_entry(fa3.memory(), next.root(), vpn) == Some(
                PageTableEntry::of(ppn, flags | PTE_V),
            ),
            fa2.same_allocation(fa3),
            fa2.unchanged_outside(fa3, next.owned()),
        ensures
            self.mapped(next, fa0, fa3, vpn, ppn, flags),
    {
        s1.lemma_wf(fa1);
        s2.lemma_wf(fa2);
        fa0.lemma_unchanged_trans(fa1, fa2, s1.owned(), s2.owned());
        fa0.lemma_unchanged_trans(fa2, fa3, s2.owned(), s2.owned());
        assert forall|p: int|
            next.owned().contains(p) && !self.owned().contains(p) implies !fa0.is_allocated(p) by {
            if !s1.owned().contains(p) {
                assert(!fa1.is_allocated(p));
                assert(fa1.is_allocated(p) == fa0.is_allocated(p));
            }
        }
        assert forall|s: int| 0 <= s < slot_limit() implies ((#[trigger] table_at(
            fa3.memory(),
            next.root(),
            s,
        )) is Some <==> table_at(fa0.memory(), self.root(), s) is Some || s == mid_slot(vpn) || s
            == leaf_slot(vpn)) by {
            assert(table_at(fa3.memory(), next.root(), s) == table_at(fa2.memory(), s2.root(), s));
            if s != leaf_slot(vpn) {
                assert(table_at(fa2.memory(), s2.root(), s) == table_at(fa1.memory(), s1.root(), s));
                if s != mid_slot(vpn) {
                    assert(table_at(fa1.memory(), s1.root(), s) == table_at(
                        fa0.memory(),
                        self.root(),
                        s,
                    ));
                }
            }
        }
        assert forall|v: int| 0 <= v < VPN_LIMIT && v != vpn implies #[trigger] leaf_entry(
            fa3.memory(),
            next.root(),
            v,
        ) == leaf_entry(fa0.memory(), self.root(), v) by {
            assert(leaf_entry(fa2.memory(), s2.root(), v) == leaf_entry(fa1.memory(), s1.root(), v));
            assert(leaf_entry(fa1.memory(), s1.root(), v) == leaf_entry(
                fa0.memory(),
                self.root(),
                v,
            ));
        }
        assert(table_at(fa1.memory(), s1.root(), leaf_slot(vpn)) == table_at(
            fa0.memory(),
            self.root(),
            leaf_slot(vpn),
        ));
    }

    /// Makes sure that the root has a second-level node at index `i0`, and
    /// returns its frame; `None` when the node is missing and no frame is left.
    #[verifier::rlimit(40)]
    fn ensure_mid(&mut self, fa: &mut FrameAllocator, i0: u64) -> (r: Option<u64>)
        requires
            old(fa).wf(),
            old(self).wf(old(fa)),
            i0 < 512,
        ensures
            final(fa).wf(),
            r is None <==> table_at(old(fa).memory(), old(self).root(), 1 + i0) is None && old(fa).free_count() == 0,
            r matches Some(m) ==> old(self).node_added(final(self), old(fa), final(fa), 1 + i0, m as int),
    {
        let root = self.root_ppn;
        let ghost fa0 = *fa;
        let ghost self0 = *self;
        proof {
            self.lemma_wf(fa);
            assert(table_at(fa.memory(), self.root(), 1 + i0 as int) == mid_table(
                fa.memory(),
                self.root(),
                i0 as int,
            ));
        }
        let w0 = fa.read_word(root, i0);
        if w0 % 2 == 1 {
            return Some((w0 / 1024) % PPN_LIMIT);
        }
        match fa.allocate() {
            None => None,
            Some(f) => {
                let ghost fa1 = *fa;
                proof {
                    fa.lemma_allocated_in_range(f as int);
                    assert forall|p: int|
                        0 <= p < fa0.memory().num_frames() && self0.owned().contains(
                            p,
                        ) implies #[trigger] fa1.memory().frame(p) == fa0.memory().frame(p) by {
                        assert(fa0.is_allocated(p));
                    }
                    lemma_same_tables(fa0.memory(), fa1.memory(), root as int, self0.owned());
                    assert forall|s: int| 0 <= s < slot_limit() implies #[trigger] table_at(
                        fa1.memory(),
                        root as int,
                        s,
                    ) != Some(f as int) by {
                        assert(table_at(fa1.memory(), root as int, s) == table_at(
                            fa0.memory(),
                            root as int,
                            s,
                        ));
                        if let Some(p) = table_at(fa0.memory(), root as int, s) {
                            assert(self0.owned().contains(p));
                            assert(fa0.is_allocated(p));
                        }
                    }
                }
                fa.write_word(root, i0, f * 1024 + 1);
                let ghost before = self.frames@;
                self.frames.push(f);
                proof {
                    lemma_install_mid(fa1.memory(), fa.memory(), root as int, i0 as int, f as int);
                    assert(self.frames@[before.len() as int] == f);
                    assert forall|x: u64| before.contains(x) implies self.frames@.contains(x) by {
                        let i = choose|i: int| 0 <= i < before.len() && before[i] == x;
                        assert(self.frames@[i] == x);
                    }
                    assert forall|i: int| 0 <= i < self.frames@.len() implies fa.is_allocated(
                        #[trigger] self.frames@[i] as int,
                    ) by {
                        if i < before.len() {
                            assert(self.frames@[i] == before[i]);
                            assert(fa0.is_allocated(before[i] as int));
                            assert(fa1.is_allocated(before[i] as int));
                        }
                    }
                    assert(self.frames@.no_duplicates()) by {
                        assert forall|i: int, j: int|
                            0 <= i < self.frames@.len() && 0 <= j < self.frames@.len() && i
                                != j implies self.frames@[i] != self.frames@[j] by {
                            if i < before.len() {
                                assert(fa0.is_allocated(before[i] as int));
                            }
                            if j < before.len() {
                                assert(fa0.is_allocated(before[j] as int));
                            }
                        }
                    }
                    assert forall|p: int|
                        self.owned().contains(p) && !self0.owned().contains(p) implies !fa0.is_allocated(
                        p,
                    ) by {
                        let i = choose|i: int|
                            0 <= i < self.frames@.len() && self.frames@[i] == p as u64;
                        if i < before.len() {
                            assert(before.contains(before[i]));
                        }
                    }
                    assert(self.owned().contains(f as int));
                    assert(self.owned().contains(root as int)) by {
                        assert(self0.owned().contains(root as int));
                    }
                    assert forall|q: int|
                        0 <= q < fa0.memory().num_frames() && !self.owned().contains(
                            q,
                        ) implies #[trigger] fa.memory().frame(q) == fa0.memory().frame(q) by {
                        assert(fa1.memory().frame(q) == fa0.memory().frame(q));
                    }
                    assert forall|q: int| !self.owned().contains(q) implies #[trigger] fa.is_allocated(
                        q,
                    ) == fa0.is_allocated(q) by {
                        assert(fa1.is_allocated(q) == fa0.is_allocated(q));
                    }
                }
                Some(f)
            },
        }
    }

    /// Makes sure that the second-level node `m` at index `i0` has a
    /// third-level node at index `i1`, and returns its frame; `None` when the
    /// node is missing and no frame is left.
    #[verifier::rlimit(40)]
    fn ensure_leaf(&mut self, fa: &mut FrameAllocator, i0: u64, i1: u64, m: u64) -> (r: Option<u64>)
        requires
            old(fa).wf(),
            old(self).wf(old(fa)),
            i0 < 512,
            i1 < 512,
            table_at(old(fa).memory(), old(self).root(), 1 + i0) == Some(m as int),
        ensures
            final(fa).wf(),
            r is None <==> table_at(old(fa).memory(), old(self).root(), 513 + i0 * 512 + i1) is None && old(fa).free_count() == 0,
            r matches Some(l) ==> old(self).node_added(
                final(self),
                old(fa),
                final(fa),
                513 + i0 * 512 + i1,
                l as int,
            ),
    {
        let root = self.root_ppn;
        let ghost fa0 = *fa;
        let ghost self0 = *self;
        proof {
            self.lemma_wf(fa);
            assert(table_at(fa.memory(), self.root(), 1 + i0 as int) == mid_table(
                fa.memory(),
                self.root(),
                i0 as int,
            ));
            assert(table_at(fa.memory(), self.root(), 513 + i0 * 512 + i1) == leaf_table(
                fa.memory(),
                self.root(),
                i0 as int,
                i1 as int,
            ));
        }
        let w1 = fa.read_word(m, i1);
        if w1 % 2 == 1 {
            return Some((w1 / 1024) % PPN_LIMIT);
        }
        match fa.allocate() {
            None => None,
            Some(f) => {
                let ghost fa1 = *fa;
                proof {
                    fa.lemma_allocated_in_range(f as int);
                    assert forall|p: int|
                        0 <= p < fa0.memory().num_frames() && self0.owned().contains(
                            p,
                        ) implies #[trigger] fa1.memory().frame(p) == fa0.memory().frame(p) by {
                        assert(fa0.is_allocated(p));
                    }
                    lemma_same_tables(fa0.memory(), fa1.memory(), root as int, self0.owned());
                    assert forall|s: int| 0 <= s < slot_limit() implies #[trigger] table_at(
                        fa1.memory(),
                        root as int,
                        s,
                    ) != Some(f as int) by {
                        assert(table_at(fa1.memory(), root as int, s) == table_at(
                            fa0.memory(),
                            root as int,
                            s,
                        ));
                        if let Some(p) = table_at(fa0.memory(), root as int, s) {
                            assert(self0.owned().contains(p));
                            assert(fa0.is_allocated(p));
                        }
                    }
                    assert(table_at(fa1.memory(), root as int, 1 + i0 as int) == mid_table(
                        fa1.memory(),
                        root as int,
                        i0 as int,
                    ));
                    assert(table_at(fa1.memory(), root as int, 513 + i0 * 512 + i1) == leaf_table(
                        fa1.memory(),
                        root as int,
                        i0 as int,
                        i1 as int,
                    ));
                }
                fa.write_word(m, i1, f * 1024 + 1);
                let ghost before = self.frames@;
                self.frames.push(f);
                proof {
                    lemma_install_leaf(
                        fa1.memory(),
                        fa.memory(),
                        root as int,
                        i0 as int,
                        i1 as int,
                        f as int,
                    );
                    assert(self.frames@[before.len() as int] == f);
                    assert forall|x: u64| before.contains(x) implies self.frames@.contains(x) by {
                        let i = choose|i: int| 0 <= i < before.len() && before[i] == x;
                        assert(self.frames@[i] == x);
                    }
                    assert forall|i: int| 0 <= i < self.frames@.len() implies fa.is_allocated(
                        #[trigger] self.frames@[i] as int,
                    ) by {
                        if i < before.len() {
                            assert(self.frames@[i] == before[i]);
                            assert(fa0.is_allocated(before[i] as int));
                            assert(fa1.is_allocated(before[i] as int));
                        }
                    }
                    assert(self.frames@.no_duplicates()) by {
                        assert forall|i: int, j: int|
                            0 <= i < self.frames@.len() && 0 <= j < self.frames@.len() && i
                                != j implies self.frames@[i] != self.frames@[j] by {
                            if i < before.len() {
                                assert(fa0.is_allocated(before[i] as int));
                            }
                            if j < before.len() {
                                assert(fa0.is_allocated(before[j] as int));
                            }
                        }
                    }
                    assert forall|p: int|
                        self.owned().contains(p) && !self0.owned().contains(p) implies !fa0.is_allocated(
                        p,
                    ) by {
                        let i = choose|i: int|
                            0 <= i < self.frames@.len() && self.frames@[i] == p as u64;
                        if i < before.len() {
                            assert(before.contains(before[i]));
                        }
                    }
                    assert(self.owned().contains(f as int));
                    assert(self.owned().contains(m as int)) by {
                        assert(self0.owned().contains(m as int));
                    }
                    assert forall|q: int|
                        0 <= q < fa0.memory().num_frames() && !self.owned().contains(
                            q,
                        ) implies #[trigger] fa.memory().frame(q) == fa0.memory().frame(q) by {
                        assert(fa1.memory().frame(q) == fa0.memory().frame(q));
                    }
                    assert forall|q: int| !self.owned().contains(q) implies #[trigger] fa.is_allocated(
                        q,
                    ) == fa0.is_allocated(q) by {
                        assert(fa1.is_allocated(q) == fa0.is_allocated(q));
                    }
                }
                Some(f)
            },
        }
    }

    /// Writes `w` as the entry of `vpn`, whose third-level node is `l`.
    fn set_entry(&mut self, fa: &mut FrameAllocator, vpn: u64, l: u64, w: u64)
        requires
            old(fa).wf(),
            old(self).wf(old(fa)),
            vpn < VPN_LIMIT,
            table_at(old(fa).memory(), old(self).root(), leaf_slot(vpn as int)) == Some(l as int),
        ensures
            final(fa).wf(),
            final(self).wf(final(fa)),
            *final(self) == *old(self),
            forall|s: int|
                0 <= s < slot_limit() ==> #[trigger] table_at(final(fa).memory(), final(self).root(), s) == table_at(old(fa).memory(), old(self).root(), s),
            forall|v: int|
                0 <= v < VPN_LIMIT && v != vpn ==> #[trigger] leaf_entry(final(fa).memory(), final(self).root(), v)
                    == leaf_entry(old(fa).memory(), old(self).root(), v),
            leaf_entry(final(fa).memory(), final(self).root(), vpn as int) == (if w % 2 == 1 {
                Some(PageTableEntry { bits: w })
            } else {
                None
            }),
            old(fa).same_allocation(final(fa)),
            old(fa).unchanged_outside(final(fa), final(self).owned()),
    {
        let ghost fa0 = *fa;
        proof {
            self.lemma_wf(fa);
            fa.lemma_allocated_in_range(l as int);
        }
        fa.write_word(l, vpn % 512, w);
        proof {
            lemma_write_entry(fa0.memory(), fa.memory(), self.root(), vpn as int, w);
        }
    }

    /// Installs the entry `(ppn, flags | V)` for `vpn`, adding the nodes
    /// that are missing on its path. Fails without any change when `vpn`
    /// already has an entry in use, and with `OutOfFrames` exactly when the
    /// pool holds fewer frames than there are nodes missing.
    #[verifier::rlimit(40)]
    pub fn map(&mut self, fa: &mut FrameAllocator, vpn: u64, ppn: u64, flags: u8) -> (r: Result<
        (),
        MapError,
    >)
        requires
            old(fa).wf(),
            old(self).wf(old(fa)),
            vpn < VPN_LIMIT,
            ppn < PPN_LIMIT,
        ensures
            final(fa).wf(),
            r == Err::<(), MapError>(MapError::AlreadyMapped) <==> leaf_entry(old(fa).memory(), old(self).root(), vpn as int) is Some,
            r == Err::<(), MapError>(MapError::AlreadyMapped) ==> *final(self) == *old(self)
                && *final(fa) == *old(fa),
            r == Err::<(), MapError>(MapError::OutOfFrames) <==> leaf_entry(old(fa).memory(), old(self).root(), vpn as int) is None && old(fa).free_count() < tables_missing(old(fa).memory(), old(self).root(), vpn as int),
            r is Ok <==> leaf_entry(old(fa).memory(), old(self).root(), vpn as int) is None && old(fa).free_count() >= tables_missing(old(fa).memory(), old(self).root(), vpn as int),
            r is Ok ==> old(self).mapped(final(self), old(fa), final(fa), vpn as int, ppn, flags),
    {
        proof {
            self.lemma_wf(fa);
        }
        if self.translate(fa, vpn).is_some() {
            return Err(MapError::AlreadyMapped);
        }
        let i0 = vpn / 262144;
        let i1 = (vpn / 512) % 512;
        let ghost fa0 = *fa;
        let ghost self0 = *self;
        let m = match self.ensure_mid(fa, i0) {
            None => {
                return Err(MapError::OutOfFrames);
            },
            Some(m) => m,
        };
        let ghost fa1 = *fa;
        let ghost self1 = *self;
        let l = match self.ensure_leaf(fa, i0, i1, m) {
            None => {
                return Err(MapError::OutOfFrames);
            },
            Some(l) => l,
        };
        let ghost fa2 = *fa;
        let ghost self2 = *self;
        let e = PageTableEntry::new(ppn, flags | PTE_V);
        assert((flags | 1u8) & 1u8 != 0) by (bit_vector);
        self.set_entry(fa, vpn, l, e.bits);
        proof {
            self0.lemma_map_done(
                &self1,
                &self2,
                self,
                &fa0,
                &fa1,
                &fa2,
                fa,
                vpn as int,
                ppn,
                flags,
                m as int,
                l as int,
            );
        }
        Ok(())
    }

    /// Clears the entry of `vpn`. Returns `false`, and changes nothing, when
    /// `vpn` has no entry in use.
    pub fn unmap(&mut self, fa: &mut FrameAllocator, vpn: u64) -> (r: bool)
        requires
            old(fa).wf(),
            old(self).wf(old(fa)),
            vpn < VPN_LIMIT,
        ensures
            final(fa).wf(),
            final(self).wf(final(fa)),
            *final(self) == *old(self),
            r == leaf_entry(old(fa).memory(), old(self).root(), vpn as int) is Some,
            !r ==> *final(fa) == *old(fa),
            leaf_entry(final(fa).memory(), final(self).root(), vpn as int) is None,
            forall|v: int|
                0 <= v < VPN_LIMIT && v != vpn ==> #[trigger] leaf_entry(final(fa).memory(), final(self).root(), v)
                    == leaf_entry(old(fa).memory(), old(self).root(), v),
            forall|s: int|
                0 <= s < slot_limit() ==> #[trigger] table_at(final(fa).memory(), final(self).root(), s) == table_at(old(fa).memory(), old(self).root(), s),
            old(fa).same_allocation(final(fa)),
            old(fa).unchanged_outside(final(fa), final(self).owned()),
    {
        proof {
            self.lemma_wf(fa);
        }
        if self.translate(fa, vpn).is_none() {
            return false;
        }
        let i0 = vpn / 262144;
        let i1 = (vpn / 512) % 512;
        proof {
            assert(table_at(fa.memory(), self.root(), 1 + i0 as int) == mid_table(
                fa.memory(),
                self.root(),
                i0 as int,
            ));
            assert(table_at(fa.memory(), self.root(), leaf_slot(vpn as int)) == leaf_table(
                fa.memory(),
                self.root(),
                i0 as int,
                i1 as int,
            ));
        }
        let w0 = fa.read_word(self.root_ppn, i0);
        let m = (w0 / 1024) % PPN_LIMIT;
        let w1 = fa.read_word(m, i1);
        let l = (w1 / 1024) % PPN_LIMIT;
        self.set_entry(fa, vpn, l, 0);
        true
    }

    /// Gives every node's frame back to the pool.
    pub fn release(self, fa: &mut FrameAllocator)
        requires
            old(fa).wf(),
            self.wf(old(fa)),
        ensures
            final(fa).wf(),
            old(fa).unchanged_outside(final(fa), self.owned()),
            final(fa).memory() == old(fa).memory(),
            forall|p: int| self.owned().contains(p) ==> !#[trigger] final(fa).is_allocated(p),
            final(fa).free_count() == old(fa).free_count() + self.owned().len(),
            final(fa).free_count() >= old(fa).free_count() + 1,
            self.owned().finite(),
    {
        let n = self.frames.len();
        proof {
            assert(table_at(fa.memory(), self.root(), 0) == Some(self.root()));
            assert(self.frames@.contains(self.root_ppn));
        }
        let mut i: usize = 0;
        proof {
            self.lemma_owned_len();
        }
        while i < n
            invariant
                i <= n,
                n == self.frames@.len(),
                fa.wf(),
                self.frames@.no_duplicates(),
                old(fa).unchanged_outside(fa, self.owned()),
                fa.memory() == old(fa).memory(),
                fa.free_count() == old(fa).free_count() + i,
                forall|k: int| 0 <= k < i ==> !fa.is_allocated(#[trigger] self.frames@[k] as int),
                forall|k: int| i <= k < n ==> fa.is_allocated(#[trigger] self.frames@[k] as int),
            decreases n - i,
        {
            let f = self.frames[i];
            let ghost prev = *fa;
            fa.free(f);
            proof {
                assert(self.owned().contains(f as int));
                assert forall|k: int| 0 <= k < i + 1 implies !fa.is_allocated(
                    #[trigger] self.frames@[k] as int,
                ) by {
                    if k < i {
                        assert(!prev.is_allocated(self.frames@[k] as int));
                    }
                }
                assert forall|k: int| i + 1 <= k < n implies fa.is_allocated(
                    #[trigger] self.frames@[k] as int,
                ) by {
                    assert(prev.is_allocated(self.frames@[k] as int));
                }
                assert forall|q: int| !self.owned().contains(q) implies #[trigger] fa.is_allocated(
                    q,
                ) == old(fa).is_allocated(q) by {
                    assert(prev.is_allocated(q) == old(fa).is_allocated(q));
                }
            }
            i += 1;
        }
        proof {
            assert forall|p: int| self.owned().contains(p) implies !#[trigger] fa.is_allocated(
                p,
            ) by {
                let k = choose|k: int| 0 <= k < self.frames@.len() && self.frames@[k] == p as u64;
                assert(!fa.is_allocated(self.frames@[k] as int));
            }
        }
    }

    /// The owned frames are as many as the list that records them is long.
    proof fn lemma_owned_len(&self)
        requires
            self.frames@.no_duplicates(),
        ensures
            self.owned().finite(),
            self.owned().len() == self.frames@.len(),
    {
        let s = self.frames@.to_set();
        self.frames@.unique_seq_to_set();
        let f = |x: u64| x as int;
        let m = s.map(f);
        assert(m =~= self.owned()) by {
            assert forall|p: int| self.owned().contains(p) implies m.contains(p) by {
                assert(s.contains(p as u64));
                assert(f(p as u64) == p);
            }
        }
        vstd::set_lib::lemma_map_size(s, m, f);
    }
}

/// A freshly handed-out root has no node below it and no entry in use.
proof fn final_fa_root_empty(fa: &FrameAllocator, f: int)
    requires
        fa.wf(),
        0 <= f < fa.memory().num_frames(),
        fa.memory().frame(f) == zero_frame(),
    ensures
        structure(fa.memory(), f),
        forall|s: int| 0 < s < slot_limit() ==> (#[trigger] table_at(fa.memory(), f, s)) is None,
        forall|v: int| 0 <= v < VPN_LIMIT ==> (#[trigger] leaf_entry(fa.memory(), f, v)) is None,
{
    let mem = fa.memory();
    assert forall|s: int| 0 < s < slot_limit() implies (#[trigger] table_at(mem, f, s)) is None by {
        if s <= 512 {
            lemma_zero_frame_words(s - 1);
        } else {
            lemma_zero_frame_words((s - 513) / 512);
        }
    }
    assert forall|v: int| 0 <= v < VPN_LIMIT implies (#[trigger] leaf_entry(mem, f, v)) is None by {
        assert(table_at(mem, f, leaf_slot(v)) is None);
    }
}

} // verus!
