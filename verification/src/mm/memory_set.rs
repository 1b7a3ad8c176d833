//! Address spaces: a page table and the regions mapped through it.
use vstd::prelude::*;
use crate::config::{PPN_LIMIT, VA_LIMIT, VPN_LIMIT};
use crate::mm::address::{VirtAddr, VirtPageNum};
use crate::mm::frame_allocator::FrameAllocator;
use crate::mm::page_table::{leaf_entry, leaf_slot, mid_slot, slot_limit, structure, table_at,
    MapError, PageTable, PageTableEntry, PTE_R, PTE_U, PTE_V, PTE_W};
use crate::mm::phys_mem::{zero_frame, PhysMem};

verus! {

/// Permission bit: the region may be read.
pub const PERM_R: u8 = 2;

/// Permission bit: the region may be written.
pub const PERM_W: u8 = 4;

/// Permission bit: the region may be executed.
pub const PERM_X: u8 = 8;

/// Permission bit: the region is accessible in user mode.
pub const PERM_U: u8 = 16;

/// The permission bits of a region, laid out as in a page-table entry.
#[derive(Clone, Copy, PartialEq, Eq, Structural, Debug)]
pub struct MapPermission {
    pub bits: u8,
}

impl MapPermission {
    /// The permissions with the bits `bits`, if all of them are known flags
    /// (valid, read, write, execute, user).
    pub fn from_bits(bits: u8) -> (r: Option<MapPermission>)
        ensures
            r == (if bits & 0xe0 == 0 {
                Some(MapPermission { bits })
            } else {
                None
            }),
    {
        if bits & 0xe0 == 0 {
            Some(MapPermission { bits })
        } else {
            None
        }
    }
}

/// Why an access in user mode failed.
#[derive(Clone, Copy, PartialEq, Eq, Structural, Debug)]
pub enum AccessError {
    /// The page of the address is not mapped.
    NotMapped,
    /// The page is mapped, but not for this kind of access in user mode.
    PermissionDenied,
}

/// How a region's pages find their frames.
#[derive(Clone, Copy, PartialEq, Eq, Structural, Debug)]
pub enum MapType {
    /// Page `n` is frame `n`: a kernel region, shared by all address spaces.
    Identical,
    /// Every page has a frame of its own from the pool.
    Framed,
}

/// What a region is, as plain values: its page range, the frame recorded
/// for each page, and how and with which permissions it maps.
pub struct AreaView {
    pub start: int,
    pub end: int,
    pub slots: Seq<Option<u64>>,
    pub map_type: MapType,
    pub perm: MapPermission,
}

impl AreaView {
    /// The region lies in the address space and has a slot for every page.
    pub open spec fn shape_ok(self) -> bool {
        &&& 0 <= self.start <= self.end <= VPN_LIMIT
        &&& self.slots.len() == self.end - self.start
    }

    /// The frame that page `vpn` is mapped to through this region.
    pub open spec fn frame_at(self, vpn: int) -> Option<u64> {
        if self.start <= vpn < self.end {
            self.slots[vpn - self.start]
        } else {
            None
        }
    }

    /// Whether the region's pages have frames of their own.
    pub open spec fn framed(self) -> bool {
        self.map_type == MapType::Framed
    }

    /// The same region with `slot` recorded for page `vpn`.
    pub open spec fn with_slot(self, vpn: int, slot: Option<u64>) -> AreaView {
        AreaView { slots: self.slots.update(vpn - self.start, slot), ..self }
    }

    /// How many pages of `[from, to)` have a frame recorded.
    pub open spec fn mapped_count(self, from: int, to: int) -> nat
        decreases to - from,
    {
        if from >= to {
            0
        } else {
            let last: nat = if self.frame_at(to - 1) is Some { 1 } else { 0 };
            self.mapped_count(from, to - 1) + last
        }
    }

    /// The same region ending at `to` instead: pages that are added are not
    /// mapped yet, pages beyond `to` are dropped.
    pub open spec fn resized(self, to: int) -> AreaView {
        AreaView {
            end: to,
            slots: Seq::new(
                (to - self.start) as nat,
                |i: int| if i < self.slots.len() { self.slots[i] } else { None },
            ),
            ..self
        }
    }
}

/// One contiguous region of an address space.
///
/// `data_frames` has one slot per page of the region; a slot holds the
/// frame that the page is mapped to while it is mapped.
pub struct MapArea {
    start_vpn: u64,
    end_vpn: u64,
    data_frames: Vec<Option<u64>>,
    map_type: MapType,
    map_perm: MapPermission,
}

impl View for MapArea {
    type V = AreaView;

    closed spec fn view(&self) -> AreaView {
        AreaView {
            start: self.start_vpn as int,
            end: self.end_vpn as int,
            slots: self.data_frames@,
            map_type: self.map_type,
            perm: self.map_perm,
        }
    }
}

impl MapArea {
    /// A region over the pages that `[start_va, end_va)` touches, with no
    /// page mapped yet.
    pub fn new(start_va: VirtAddr, end_va: VirtAddr, map_type: MapType, map_perm: MapPermission) -> (area:
        MapArea)
        requires
            start_va.0 <= end_va.0 <= VA_LIMIT,
        ensures
            area@.shape_ok(),
            area@.start == start_va.floor_of(),
            area@.end == end_va.ceil_of(),
            area@.map_type == map_type,
            area@.perm == map_perm,
            forall|i: int| 0 <= i < area@.slots.len() ==> area@.slots[i] is None,
    {
        let start_vpn = start_va.floor().0;
        let end_vpn = end_va.ceil().0;
        let n = end_vpn - start_vpn;
        let mut data_frames: Vec<Option<u64>> = Vec::new();
        let mut i: u64 = 0;
        while i < n
            invariant
                i <= n,
                data_frames@.len() == i,
                forall|k: int| 0 <= k < i ==> data_frames@[k] is None,
            decreases n - i,
        {
            data_frames.push(None);
            i += 1;
        }
        MapArea { start_vpn, end_vpn, data_frames, map_type, map_perm }
    }

    /// A region over the pages `[start_vpn, end_vpn)`, with no page mapped yet.
    pub fn from_pages(start_vpn: u64, end_vpn: u64, map_type: MapType, map_perm: MapPermission) -> (area:
        MapArea)
        requires
            start_vpn <= end_vpn <= VPN_LIMIT,
        ensures
            area@ == MemorySet::blank_area(start_vpn as int, end_vpn as int, map_type, map_perm),
    {
        let n = end_vpn - start_vpn;
        let mut data_frames: Vec<Option<u64>> = Vec::new();
        let mut i: u64 = 0;
        while i < n
            invariant
                i <= n,
                data_frames@.len() == i,
                forall|k: int| 0 <= k < i ==> data_frames@[k] is None,
            decreases n - i,
        {
            data_frames.push(None);
            i += 1;
        }
        let area = MapArea { start_vpn, end_vpn, data_frames, map_type, map_perm };
        proof {
            assert(area@.slots =~= MemorySet::blank_area(
                start_vpn as int,
                end_vpn as int,
                map_type,
                map_perm,
            ).slots);
        }
        area
    }

    /// First page of the region.
    pub fn start(&self) -> (v: u64)
        ensures
            v == self@.start,
    {
        self.start_vpn
    }

    /// First page past the region.
    pub fn end(&self) -> (v: u64)
        ensures
            v == self@.end,
    {
        self.end_vpn
    }
}

/// The table nodes that exist in the tree rooted at `root`.
pub open spec fn nodes_of(mem: PhysMem, root: int) -> Set<int> {
    Set::new(|s: int| 0 <= s < slot_limit() && table_at(mem, root, s) is Some)
}

/// Frames that mapping page `vpn` takes from the pool when the table nodes
/// `nodes` exist: the missing nodes on its path and, for a framed page, one
/// data frame.
pub open spec fn page_cost(nodes: Set<int>, vpn: int, framed: bool) -> nat {
    let a: nat = if framed { 1 } else { 0 };
    let b: nat = if nodes.contains(mid_slot(vpn)) { 0 } else { 1 };
    let c: nat = if nodes.contains(leaf_slot(vpn)) { 0 } else { 1 };
    a + b + c
}

/// The table nodes that exist after page `vpn` was mapped.
pub open spec fn nodes_with(nodes: Set<int>, vpn: int) -> Set<int> {
    nodes.insert(mid_slot(vpn)).insert(leaf_slot(vpn))
}

/// Frames that mapping the pages `[start, end)` takes from the pool.
pub open spec fn range_cost(nodes: Set<int>, start: int, end: int, framed: bool) -> nat
    decreases end - start,
{
    if start >= end {
        0
    } else {
        page_cost(nodes, start, framed) + range_cost(nodes_with(nodes, start), start + 1, end, framed)
    }
}

/// The table nodes that exist after the pages `[start, end)` were mapped.
pub open spec fn nodes_with_range(nodes: Set<int>, start: int, end: int) -> Set<int>
    decreases end - start,
{
    if start >= end {
        nodes
    } else {
        nodes_with(nodes_with_range(nodes, start, end - 1), end - 1)
    }
}

/// One address space.
pub struct MemorySet {
    page_table: PageTable,
    areas: Vec<MapArea>,
    data: Ghost<Set<int>>,
}

impl MemorySet {
    /// Frame of the page table's root.
    pub closed spec fn root(&self) -> int {
        self.page_table.root()
    }

    /// The regions, in the order in which they were added.
    pub closed spec fn areas(&self) -> Seq<AreaView> {
        self.areas@.map_values(|a: MapArea| a@)
    }

    /// The frames that hold the nodes of the page table.
    pub closed spec fn table_frames(&self) -> Set<int> {
        self.page_table.owned()
    }

    /// The frames that the framed pages own.
    pub closed spec fn data_frames(&self) -> Set<int> {
        self.data@
    }

    /// The frames that this address space owns: the nodes of its page table
    /// and the frames of its framed pages.
    pub open spec fn frames(&self) -> Set<int> {
        self.table_frames().union(self.data_frames())
    }

    /// The entry in use for page `vpn`, if there is one.
    pub open spec fn entry(&self, fa: &FrameAllocator, vpn: int) -> Option<PageTableEntry> {
        leaf_entry(fa.memory(), self.root(), vpn)
    }

    /// The table nodes that exist.
    pub open spec fn nodes(&self, fa: &FrameAllocator) -> Set<int> {
        nodes_of(fa.memory(), self.root())
    }

    /// Whether some region records a frame for page `vpn`.
    pub open spec fn backed(&self, vpn: int) -> bool {
        exists|a: int| 0 <= a < self.areas().len() && (#[trigger] self.areas()[a].frame_at(vpn)) is Some
    }

    /// The byte that the address space holds at address `va`, if the page
    /// is mapped.
    pub open spec fn user_byte(&self, fa: &FrameAllocator, va: int) -> Option<u8> {
        match leaf_entry(fa.memory(), self.root(), va / 4096) {
            None => None,
            Some(e) => Some(fa.memory().frame(e.target() as int)[va % 4096]),
        }
    }

    /// What must hold of the frame `p` recorded for page `v` in region `a`.
    pub closed spec fn slot_ok(&self, fa: &FrameAllocator, a: int, v: int, p: u64) -> bool {
        let area = self.areas()[a];
        &&& leaf_entry(fa.memory(), self.root(), v) == Some(
            PageTableEntry::of(p, area.perm.bits | PTE_V),
        )
        &&& p < fa.memory().num_frames()
        &&& area.framed() ==> self.data@.contains(p as int)
        &&& !area.framed() ==> p == v && p < fa.pool_start()
    }

    /// Every region has a slot for each of its pages.
    #[verifier::opaque]
    pub closed spec fn shapes_ok(&self) -> bool {
        forall|a: int| 0 <= a < self.areas().len() ==> (#[trigger] self.areas()[a]).shape_ok()
    }

    /// Every recorded frame is the one that the page table holds.
    #[verifier::opaque]
    pub closed spec fn all_slots_ok(&self, fa: &FrameAllocator) -> bool {
        forall|a: int, v: int|
            0 <= a < self.areas().len() ==> ((#[trigger] self.areas()[a].frame_at(v)) matches Some(
                p,
            ) ==> self.slot_ok(fa, a, v, p))
    }

    /// Every entry in use belongs to a region.
    #[verifier::opaque]
    pub closed spec fn entries_backed(&self, fa: &FrameAllocator) -> bool {
        forall|v: int|
            0 <= v < VPN_LIMIT && (#[trigger] leaf_entry(fa.memory(), self.root(), v)) is Some
                ==> self.backed(v)
    }

    /// No frame is recorded twice.
    #[verifier::opaque]
    pub closed spec fn slots_distinct(&self) -> bool {
        forall|a: int, v: int, b: int, w: int|
            0 <= a < self.areas().len() && 0 <= b < self.areas().len() && (a != b || v != w) && (
            #[trigger] self.areas()[a].frame_at(v)) is Some && (#[trigger] self.areas()[b].frame_at(
                w,
            )) is Some ==> self.areas()[a].frame_at(v) != self.areas()[b].frame_at(w)
    }

    /// The frames of framed pages are handed out and are no table nodes.
    #[verifier::opaque]
    pub closed spec fn data_ok(&self, fa: &FrameAllocator) -> bool {
        forall|p: int|
            #[trigger] self.data@.contains(p) ==> fa.is_allocated(p)
                && !self.page_table.owned().contains(p)
    }

    /// The invariant of an address space: the page table is sound; a page
    /// has an entry in use exactly when a region records a frame for it, and
    /// the entry then holds that frame and the region's permissions; no frame
    /// is recorded twice; framed pages own frames of the pool, identical
    /// pages name kernel frames below it.
    pub closed spec fn wf(&self, fa: &FrameAllocator) -> bool {
        &&& self.page_table.wf(fa)
        &&& self.shapes_ok()
        &&& self.all_slots_ok(fa)
        &&& self.entries_backed(fa)
        &&& self.slots_distinct()
        &&& self.data_ok(fa)
    }

    /// One step of mapping: `next` is `self` after page `vpn` of region `a`
    /// got the frame `ppn`, the pool going from `fa0` to `fa2`.
    spec fn map_step(
        &self,
        next: &MemorySet,
        fa0: &FrameAllocator,
        fa2: &FrameAllocator,
        a: int,
        vpn: int,
        ppn: u64,
    ) -> bool {
        let area = self.areas()[a];
        &&& self.wf(fa0)
        &&& fa0.wf()
        &&& fa2.wf()
        &&& 0 <= a < self.areas().len()
        &&& area.start <= vpn < area.end
        &&& leaf_entry(fa0.memory(), self.root(), vpn) is None
        &&& next.root() == self.root()
        &&& next.areas() == self.areas().update(a, area.with_slot(vpn, Some(ppn)))
        &&& leaf_entry(fa2.memory(), self.root(), vpn) == Some(
            PageTableEntry::of(ppn, area.perm.bits | PTE_V),
        )
        &&& forall|v: int|
            0 <= v < VPN_LIMIT && v != vpn ==> #[trigger] leaf_entry(fa2.memory(), self.root(), v)
                == leaf_entry(fa0.memory(), self.root(), v)
        &&& ppn < fa0.memory().num_frames()
        &&& area.framed() ==> !fa0.is_allocated(ppn as int) && fa2.is_allocated(ppn as int)
            && fa0.pool_start() <= ppn && next.data@ == self.data@.insert(ppn as int)
        &&& !area.framed() ==> ppn == vpn && ppn < fa0.pool_start() && next.data@ == self.data@
        &&& next.page_table.wf(fa2)
        &&& self.page_table.owned().subset_of(next.page_table.owned())
        &&& forall|q: int|
            next.page_table.owned().contains(q) && !self.page_table.owned().contains(q)
                ==> !fa0.is_allocated(q) && q != ppn
        &&& fa0.unchanged_outside(fa2, next.page_table.owned().insert(ppn as int))
    }

    proof fn lemma_map_slots(
        &self,
        next: &MemorySet,
        fa0: &FrameAllocator,
        fa2: &FrameAllocator,
        a: int,
        vpn: int,
        ppn: u64,
    )
        requires
            self.map_step(next, fa0, fa2, a, vpn, ppn),
        ensures
            next.shapes_ok(),
            next.all_slots_ok(fa2),
    {
        reveal(MemorySet::shapes_ok);
        reveal(MemorySet::all_slots_ok);
        assert(self.areas()[a].shape_ok());
        assert forall|b: int| 0 <= b < next.areas().len() implies (#[trigger] next.areas()[b]).shape_ok() by {
            assert(self.areas()[b].shape_ok());
        }
        assert forall|b: int, v: int| 0 <= b < next.areas().len() implies ((
        #[trigger] next.areas()[b].frame_at(v)) matches Some(q) ==> next.slot_ok(fa2, b, v, q)) by {
            if let Some(q) = next.areas()[b].frame_at(v) {
                if b == a && v == vpn {
                } else {
                    assert(self.areas()[b].frame_at(v) == Some(q));
                    assert(self.slot_ok(fa0, b, v, q));
                    assert(v != vpn);
                    assert(self.areas()[b].shape_ok());
                }
            }
        }
    }

    proof fn lemma_map_backed(
        &self,
        next: &MemorySet,
        fa0: &FrameAllocator,
        fa2: &FrameAllocator,
        a: int,
        vpn: int,
        ppn: u64,
    )
        requires
            self.map_step(next, fa0, fa2, a, vpn, ppn),
        ensures
            next.entries_backed(fa2),
    {
        reveal(MemorySet::shapes_ok);
        reveal(MemorySet::entries_backed);
        assert(self.areas()[a].shape_ok());
        assert forall|v: int|
            0 <= v < VPN_LIMIT && (#[trigger] leaf_entry(fa2.memory(), next.root(), v))
                is Some implies next.backed(v) by {
            if v == vpn {
                assert(next.areas()[a].frame_at(v) is Some);
            } else {
                assert(leaf_entry(fa0.memory(), self.root(), v) is Some);
                let b = choose|b: int|
                    0 <= b < self.areas().len() && (#[trigger] self.areas()[b].frame_at(v)) is Some;
                assert(next.areas()[b].frame_at(v) is Some);
            }
        }
    }

    proof fn lemma_map_distinct(
        &self,
        next: &MemorySet,
        fa0: &FrameAllocator,
        fa2: &FrameAllocator,
        a: int,
        vpn: int,
        ppn: u64,
    )
        requires
            self.map_step(next, fa0, fa2, a, vpn, ppn),
        ensures
            next.slots_distinct(),
    {
        reveal(MemorySet::shapes_ok);
        reveal(MemorySet::all_slots_ok);
        reveal(MemorySet::slots_distinct);
        reveal(MemorySet::data_ok);
        assert(self.areas()[a].shape_ok());
        assert forall|b: int, v: int, c: int, w: int|
            0 <= b < next.areas().len() && 0 <= c < next.areas().len() && (b != c || v != w) && (
            #[trigger] next.areas()[b].frame_at(v)) is Some && (#[trigger] next.areas()[c].frame_at(
                w,
            )) is Some implies next.areas()[b].frame_at(v) != next.areas()[c].frame_at(w) by {
            if b == a && v == vpn {
                self.lemma_old_slot_differs(fa0, a, vpn, ppn, c, w);
            } else if c == a && w == vpn {
                self.lemma_old_slot_differs(fa0, a, vpn, ppn, b, v);
            } else {
                assert(self.areas()[b].frame_at(v) == next.areas()[b].frame_at(v));
                assert(self.areas()[c].frame_at(w) == next.areas()[c].frame_at(w));
            }
        }
    }

    /// A frame that is free, or the number of a page that is not mapped,
    /// differs from every recorded frame.
    proof fn lemma_old_slot_differs(
        &self,
        fa0: &FrameAllocator,
        a: int,
        vpn: int,
        ppn: u64,
        c: int,
        w: int,
    )
        requires
            self.wf(fa0),
            fa0.wf(),
            0 <= a < self.areas().len(),
            0 <= c < self.areas().len(),
            leaf_entry(fa0.memory(), self.root(), vpn) is None,
            self.areas()[a].framed() ==> !fa0.is_allocated(ppn as int) && fa0.pool_start() <= ppn,
            !self.areas()[a].framed() ==> ppn == vpn && ppn < fa0.pool_start(),
            self.areas()[c].frame_at(w) is Some,
        ensures
            self.areas()[c].frame_at(w) != Some(ppn),
    {
        reveal(MemorySet::all_slots_ok);
        reveal(MemorySet::data_ok);
        let q = self.areas()[c].frame_at(w)->0;
        assert(self.areas()[c].frame_at(w) == Some(q));
        assert(self.slot_ok(fa0, c, w, q));
        if self.areas()[c].framed() {
            assert(self.data@.contains(q as int));
            fa0.lemma_allocated_in_range(q as int);
        }
    }

    proof fn lemma_map_data(
        &self,
        next: &MemorySet,
        fa0: &FrameAllocator,
        fa2: &FrameAllocator,
        a: int,
        vpn: int,
        ppn: u64,
    )
        requires
            self.map_step(next, fa0, fa2, a, vpn, ppn),
        ensures
            next.data_ok(fa2),
    {
        reveal(MemorySet::data_ok);
        self.page_table.lemma_wf(fa0);
        assert(self.data_ok(fa0));
        assert forall|q: int| #[trigger] next.data@.contains(q) implies fa2.is_allocated(q)
            && !next.page_table.owned().contains(q) by {
            if next.page_table.owned().contains(q) && self.page_table.owned().contains(q) {
                assert(fa0.is_allocated(q));
            }
            if self.data@.contains(q) {
                assert(fa0.is_allocated(q));
                assert(!self.page_table.owned().contains(q));
                fa0.lemma_allocated_in_range(q);
                assert(q != ppn);
                assert(!next.page_table.owned().insert(ppn as int).contains(q));
                assert(fa2.is_allocated(q) == fa0.is_allocated(q));
            } else {
                assert(q == ppn);
            }
        }
    }

    /// What the invariant gives: a sound page table; owned frames that the
    /// pool has handed out; and for every mapped page a frame of memory that
    /// is no table node, is either owned or a kernel frame, and is mapped
    /// nowhere else in this address space.
    pub proof fn lemma_wf(&self, fa: &FrameAllocator)
        requires
            self.wf(fa),
            fa.wf(),
        ensures
            structure(fa.memory(), self.root()),
            self.table_frames().contains(self.root()),
            self.table_frames().disjoint(self.data_frames()),
            forall|s: int|
                0 <= s < slot_limit() ==> ((#[trigger] table_at(fa.memory(), self.root(), s)) matches Some(
                    p,
                ) ==> self.table_frames().contains(p)),
            forall|p: int| self.frames().contains(p) ==> #[trigger] fa.is_allocated(p),
            forall|v: int|
                0 <= v < VPN_LIMIT ==> ((#[trigger] leaf_entry(fa.memory(), self.root(), v)) matches Some(
                    e,
                ) ==> {
                    &&& self.backed(v)
                    &&& e.target() < fa.memory().num_frames()
                    &&& self.data_frames().contains(e.target() as int) || e.target()
                        < fa.pool_start()
                    &&& forall|s: int|
                        0 <= s < slot_limit() ==> #[trigger] table_at(fa.memory(), self.root(), s)
                            != Some(e.target() as int)
                }),
            forall|v: int, w: int|
                0 <= v < VPN_LIMIT && 0 <= w < VPN_LIMIT && v != w && (#[trigger] leaf_entry(
                    fa.memory(),
                    self.root(),
                    v,
                )) is Some && (#[trigger] leaf_entry(fa.memory(), self.root(), w)) is Some
                    ==> leaf_entry(fa.memory(), self.root(), v)->0.target() != leaf_entry(
                    fa.memory(),
                    self.root(),
                    w,
                )->0.target(),
    {
        self.page_table.lemma_wf(fa);
        fa.lemma_pool_start();
        reveal(MemorySet::all_slots_ok);
        reveal(MemorySet::slots_distinct);
        reveal(MemorySet::data_ok);
        assert forall|p: int| self.frames().contains(p) implies #[trigger] fa.is_allocated(p) by {
            if !self.page_table.owned().contains(p) {
                assert(self.data@.contains(p));
            }
        }
        assert forall|v: int|
            0 <= v < VPN_LIMIT implies ((#[trigger] leaf_entry(fa.memory(), self.root(), v)) matches Some(
            e,
        ) ==> {
            &&& self.backed(v)
            &&& e.target() < fa.memory().num_frames()
            &&& self.data_frames().contains(e.target() as int) || e.target() < fa.pool_start()
            &&& forall|s: int|
                0 <= s < slot_limit() ==> #[trigger] table_at(fa.memory(), self.root(), s) != Some(
                    e.target() as int,
                )
        }) by {
            if let Some(e) = leaf_entry(fa.memory(), self.root(), v) {
                self.lemma_entry(fa, v);
            }
        }
        assert forall|v: int, w: int|
            0 <= v < VPN_LIMIT && 0 <= w < VPN_LIMIT && v != w && (#[trigger] leaf_entry(
                fa.memory(),
                self.root(),
                v,
            )) is Some && (#[trigger] leaf_entry(fa.memory(), self.root(), w)) is Some implies leaf_entry(
            fa.memory(),
            self.root(),
            v,
        )->0.target() != leaf_entry(fa.memory(), self.root(), w)->0.target() by {
            self.lemma_entry(fa, v);
            self.lemma_entry(fa, w);
            let a = choose|a: int|
                0 <= a < self.areas().len() && (#[trigger] self.areas()[a].frame_at(v)) is Some;
            let b = choose|b: int|
                0 <= b < self.areas().len() && (#[trigger] self.areas()[b].frame_at(w)) is Some;
            assert(self.slot_ok(fa, a, v, self.areas()[a].frame_at(v)->0));
            assert(self.slot_ok(fa, b, w, self.areas()[b].frame_at(w)->0));
        }
    }

    /// The facts that the invariant gives about one mapped page.
    proof fn lemma_entry(&self, fa: &FrameAllocator, v: int)
        requires
            self.wf(fa),
            fa.wf(),
            0 <= v < VPN_LIMIT,
            leaf_entry(fa.memory(), self.root(), v) is Some,
        ensures
            self.backed(v),
            forall|a: int|
                0 <= a < self.areas().len() && (#[trigger] self.areas()[a].frame_at(v)) is Some
                    ==> leaf_entry(fa.memory(), self.root(), v)->0.target()
                    == self.areas()[a].frame_at(v)->0,
            leaf_entry(fa.memory(), self.root(), v)->0.target() < fa.memory().num_frames(),
            self.data_frames().contains(leaf_entry(fa.memory(), self.root(), v)->0.target() as int)
                || leaf_entry(fa.memory(), self.root(), v)->0.target() < fa.pool_start(),
            forall|s: int|
                0 <= s < slot_limit() ==> #[trigger] table_at(fa.memory(), self.root(), s) != Some(
                    leaf_entry(fa.memory(), self.root(), v)->0.target() as int,
                ),
    {
        self.page_table.lemma_wf(fa);
        fa.lemma_pool_start();
        reveal(MemorySet::all_slots_ok);
        reveal(MemorySet::entries_backed);
        reveal(MemorySet::data_ok);
        let e = leaf_entry(fa.memory(), self.root(), v)->0;
        let a = choose|a: int|
            0 <= a < self.areas().len() && (#[trigger] self.areas()[a].frame_at(v)) is Some;
        let p = self.areas()[a].frame_at(v)->0;
        assert(self.slot_ok(fa, a, v, p));
        assert forall|b: int|
            0 <= b < self.areas().len() && (#[trigger] self.areas()[b].frame_at(v)) is Some implies e.target()
            == self.areas()[b].frame_at(v)->0 by {
            assert(self.slot_ok(fa, b, v, self.areas()[b].frame_at(v)->0));
        }
        assert forall|s: int| 0 <= s < slot_limit() implies #[trigger] table_at(
            fa.memory(),
            self.root(),
            s,
        ) != Some(e.target() as int) by {
            if table_at(fa.memory(), self.root(), s) == Some(e.target() as int) {
                assert(self.page_table.owned().contains(e.target() as int));
                assert(fa.is_allocated(e.target() as int));
                if self.areas()[a].framed() {
                    assert(self.data@.contains(p as int));
                } else {
                    fa.lemma_allocated_in_range(p as int);
                }
            }
        }
    }

    /// The invariant survives any change of memory and pool outside the
    /// frames that the address space owns, and its page table then maps
    /// what it mapped.
    pub proof fn lemma_unchanged_outside(
        &self,
        fa1: &FrameAllocator,
        fa2: &FrameAllocator,
        region: Set<int>,
    )
        requires
            self.wf(fa1),
            fa1.wf(),
            fa1.unchanged_outside(fa2, region),
            self.frames().disjoint(region),
        ensures
            self.wf(fa2),
            forall|s: int|
                0 <= s < slot_limit() ==> #[trigger] table_at(fa2.memory(), self.root(), s)
                    == table_at(fa1.memory(), self.root(), s),
            forall|v: int|
                0 <= v < VPN_LIMIT ==> #[trigger] leaf_entry(fa2.memory(), self.root(), v)
                    == leaf_entry(fa1.memory(), self.root(), v),
            self.nodes(fa2) == self.nodes(fa1),
    {
        assert(self.page_table.owned().disjoint(region)) by {
            assert forall|p: int| self.page_table.owned().contains(p) implies !region.contains(
                p,
            ) by {
                assert(self.frames().contains(p));
            }
        }
        self.page_table.lemma_unchanged_outside(fa1, fa2, region);
        reveal(MemorySet::shapes_ok);
        reveal(MemorySet::all_slots_ok);
        reveal(MemorySet::entries_backed);
        reveal(MemorySet::data_ok);
        assert forall|a: int, v: int|
            0 <= a < self.areas().len() implies ((#[trigger] self.areas()[a].frame_at(v)) matches Some(
            p,
        ) ==> self.slot_ok(fa2, a, v, p)) by {
            if let Some(p) = self.areas()[a].frame_at(v) {
                assert(self.slot_ok(fa1, a, v, p));
                assert(self.areas()[a].shape_ok());
            }
        }
        assert forall|p: int| #[trigger] self.data@.contains(p) implies fa2.is_allocated(p)
            && !self.page_table.owned().contains(p) by {
            assert(self.frames().contains(p));
            assert(!region.contains(p));
        }
        assert forall|v: int|
            0 <= v < VPN_LIMIT && (#[trigger] leaf_entry(fa2.memory(), self.root(), v))
                is Some implies self.backed(v) by {
            assert(leaf_entry(fa1.memory(), self.root(), v) is Some);
        }
        assert(self.nodes(fa2) =~= self.nodes(fa1));
    }

    /// What a successful mapping of page `vpn` of region `a` to frame `p`
    /// leaves behind: `next` and `fa2`, from `self` and `fa0`.
    pub open spec fn mapped_page(
        &self,
        next: &MemorySet,
        fa0: &FrameAllocator,
        fa2: &FrameAllocator,
        a: int,
        vpn: int,
        p: u64,
    ) -> bool {
        &&& next.wf(fa2)
        &&& next.root() == self.root()
        &&& next.areas() == self.areas().update(
            a,
            self.areas()[a].with_slot(vpn, Some(p)),
        )
        &&& leaf_entry(fa2.memory(), next.root(), vpn) == Some(
            PageTableEntry::of(p, self.areas()[a].perm.bits | PTE_V),
        )
        &&& forall|v: int|
            0 <= v < VPN_LIMIT && v != vpn ==> #[trigger] leaf_entry(
                fa2.memory(),
                next.root(),
                v,
            ) == leaf_entry(fa0.memory(), self.root(), v)
        &&& next.nodes(fa2) == nodes_with(self.nodes(fa0), vpn)
        &&& fa2.free_count() == fa0.free_count() - page_cost(
            self.nodes(fa0),
            vpn,
            self.areas()[a].framed(),
        )
        &&& self.areas()[a].framed() ==> !fa0.is_allocated(p as int)
            && fa2.memory().frame(p as int) == zero_frame()
            && next.data_frames() == self.data_frames().insert(p as int)
        &&& !self.areas()[a].framed() ==> p == vpn && next.data_frames()
            == self.data_frames()
        &&& self.table_frames().subset_of(next.table_frames())
        &&& forall|q: int|
            next.table_frames().contains(q) && !self.table_frames().contains(q)
                ==> !fa0.is_allocated(q) && q != p
        &&& fa0.unchanged_outside(
            fa2,
            if self.areas()[a].framed() {
                next.table_frames().insert(p as int)
            } else {
                next.table_frames()
            },
        )
    }

    /// Maps page `vpn` of region `a`: a framed page gets a zeroed frame of
    /// its own, an identical page the frame of its own number. Returns the
    /// frame. Changes nothing when the page is mapped already; runs out of
    /// frames exactly when the pool holds fewer than the page costs.
    #[verifier::rlimit(40)]
    pub fn map_page(&mut self, fa: &mut FrameAllocator, a: usize, vpn: u64) -> (r: Result<
        u64,
        MapError,
    >)
        requires
            old(fa).wf(),
            old(self).wf(old(fa)),
            a < old(self).areas().len(),
            old(self).areas()[a as int].start <= vpn < old(self).areas()[a as int].end,
            !old(self).areas()[a as int].framed() ==> vpn < old(fa).pool_start(),
        ensures
            final(fa).wf(),
            r == Err::<u64, MapError>(MapError::AlreadyMapped) <==> leaf_entry(
                old(fa).memory(),
                old(self).root(),
                vpn as int,
            ) is Some,
            r == Err::<u64, MapError>(MapError::AlreadyMapped) ==> *final(self) == *old(self)
                && *final(fa) == *old(fa),
            r == Err::<u64, MapError>(MapError::OutOfFrames) <==> leaf_entry(
                old(fa).memory(),
                old(self).root(),
                vpn as int,
            ) is None && old(fa).free_count() < page_cost(
                old(self).nodes(old(fa)),
                vpn as int,
                old(self).areas()[a as int].framed(),
            ),
            r is Ok <==> leaf_entry(old(fa).memory(), old(self).root(), vpn as int) is None && old(fa).free_count() >= page_cost(
                old(self).nodes(old(fa)),
                vpn as int,
                old(self).areas()[a as int].framed(),
            ),
            r matches Ok(p) ==> old(self).mapped_page(final(self), old(fa), final(fa), a as int, vpn as int, p),
    {
        let ghost fa0 = *fa;
        let ghost self0 = *self;
        let ghost area0 = self.areas()[a as int];
        proof {
            self.page_table.lemma_wf(fa);
            fa.lemma_pool_start();
            reveal(MemorySet::shapes_ok);
            assert(self.areas()[a as int] == self.areas@[a as int]@);
            assert(area0.shape_ok());
        }
        if self.page_table.translate(fa, vpn).is_some() {
            return Err(MapError::AlreadyMapped);
        }
        let framed = match self.areas[a].map_type {
            MapType::Framed => true,
            MapType::Identical => false,
        };
        let perm = self.areas[a].map_perm.bits;
        let start = self.areas[a].start_vpn;
        let ppn: u64 = if framed {
            match fa.allocate() {
                None => {
                    return Err(MapError::OutOfFrames);
                },
                Some(p) => p,
            }
        } else {
            vpn
        };
        let ghost fa1 = *fa;
        proof {
            if framed {
                fa1.lemma_allocated_in_range(ppn as int);
                assert(fa0.unchanged_outside(&fa1, set![ppn as int]));
                assert(self.page_table.owned().disjoint(set![ppn as int]));
                self.page_table.lemma_unchanged_outside(&fa0, &fa1, set![ppn as int]);
            }
            assert(nodes_of(fa1.memory(), self.root()) =~= nodes_of(fa0.memory(), self.root()));
        }
        match self.page_table.map(fa, vpn, ppn, perm) {
            Err(e) => {
                return Err(e);
            },
            Ok(()) => {},
        }
        let ghost fa2 = *fa;
        let idx = (vpn - start) as usize;
        self.areas[a].data_frames[idx] = Some(ppn);
        proof {
            if framed {
                self.data@ = self.data@.insert(ppn as int);
            }
            let area1 = area0.with_slot(vpn as int, Some(ppn));
            assert(self.areas@[a as int]@ == area1);
            assert(self.areas() =~= self0.areas().update(a as int, area1));
            self.page_table.lemma_wf(&fa2);
            assert(self.nodes(fa) =~= nodes_with(self0.nodes(&fa0), vpn as int));
            assert forall|q: int|
                self.table_frames().contains(q) && !self0.table_frames().contains(
                    q,
                ) implies !fa0.is_allocated(q) && q != ppn by {
                assert(!fa1.is_allocated(q));
                assert(fa2.is_allocated(q));
                fa2.lemma_allocated_in_range(q);
                if framed {
                    assert(fa1.is_allocated(ppn as int));
                    assert(fa1.is_allocated(q) == fa0.is_allocated(q));
                }
            }
            fa1.lemma_unchanged_wider(
                &fa2,
                self.table_frames(),
                self.table_frames().insert(ppn as int),
            );
            if framed {
                fa0.lemma_unchanged_trans(
                    &fa1,
                    &fa2,
                    set![ppn as int],
                    self.table_frames().insert(ppn as int),
                );
                assert(!self.table_frames().contains(ppn as int));
                assert(fa2.is_allocated(ppn as int));
            }
            assert(self0.map_step(self, &fa0, &fa2, a as int, vpn as int, ppn));
            self0.lemma_map_slots(self, &fa0, &fa2, a as int, vpn as int, ppn);
            self0.lemma_map_backed(self, &fa0, &fa2, a as int, vpn as int, ppn);
            self0.lemma_map_distinct(self, &fa0, &fa2, a as int, vpn as int, ppn);
            self0.lemma_map_data(self, &fa0, &fa2, a as int, vpn as int, ppn);
            assert(self.wf(fa));
            assert(self.areas() == self0.areas().update(a as int, area1));
            assert(fa.free_count() == fa0.free_count() - page_cost(
                self0.nodes(&fa0),
                vpn as int,
                area0.framed(),
            ));
            assert(fa0.unchanged_outside(fa, self.table_frames().insert(ppn as int)));
            if !framed {
                assert(fa0.unchanged_outside(fa, self.table_frames()));
            }
            assert(self.root() == self0.root());
            assert(leaf_entry(fa.memory(), self.root(), vpn as int) == Some(
                PageTableEntry::of(ppn, area0.perm.bits | PTE_V),
            ));
            assert forall|v: int| 0 <= v < VPN_LIMIT && v != vpn implies #[trigger] leaf_entry(
                fa.memory(),
                self.root(),
                v,
            ) == leaf_entry(fa0.memory(), self0.root(), v) by {
                assert(leaf_entry(fa1.memory(), self0.root(), v) == leaf_entry(
                    fa0.memory(),
                    self0.root(),
                    v,
                ));
            }
            assert(self.nodes(fa) == nodes_with(self0.nodes(&fa0), vpn as int));
            assert(self0.table_frames().subset_of(self.table_frames()));
            assert(framed ==> fa.memory().frame(ppn as int) == zero_frame());
            assert(framed ==> self.data_frames() == self0.data_frames().insert(ppn as int));
            assert(!framed ==> self.data_frames() == self0.data_frames());
            assert(self0.mapped_page(self, &fa0, fa, a as int, vpn as int, ppn));
        }
        Ok(ppn)
    }

    /// One step of unmapping: `next` is `self` after page `vpn` of region
    /// `a` gave up the frame `p`, the pool going from `fa0` to `fa2`.
    spec fn unmap_step(
        &self,
        next: &MemorySet,
        fa0: &FrameAllocator,
        fa2: &FrameAllocator,
        a: int,
        vpn: int,
        p: u64,
    ) -> bool {
        let area = self.areas()[a];
        &&& self.wf(fa0)
        &&& fa0.wf()
        &&& fa2.wf()
        &&& 0 <= a < self.areas().len()
        &&& 0 <= vpn < VPN_LIMIT
        &&& area.frame_at(vpn) == Some(p)
        &&& next.root() == self.root()
        &&& next.areas() == self.areas().update(a, area.with_slot(vpn, None))
        &&& leaf_entry(fa2.memory(), self.root(), vpn) is None
        &&& forall|v: int|
            0 <= v < VPN_LIMIT && v != vpn ==> #[trigger] leaf_entry(fa2.memory(), self.root(), v)
                == leaf_entry(fa0.memory(), self.root(), v)
        &&& area.framed() ==> !fa2.is_allocated(p as int) && next.data@ == self.data@.remove(
            p as int,
        )
        &&& !area.framed() ==> next.data@ == self.data@
        &&& next.page_table.wf(fa2)
        &&& next.page_table.owned() == self.page_table.owned()
        &&& fa0.unchanged_outside(fa2, self.page_table.owned().insert(p as int))
    }

    /// Two regions cannot both record a frame for one page.
    pub proof fn lemma_one_backer(&self, fa: &FrameAllocator, a: int, b: int, v: int)
        requires
            self.wf(fa),
            fa.wf(),
            0 <= a < self.areas().len(),
            0 <= b < self.areas().len(),
            self.areas()[a].frame_at(v) is Some,
            self.areas()[b].frame_at(v) is Some,
        ensures
            a == b,
    {
        reveal(MemorySet::all_slots_ok);
        reveal(MemorySet::slots_distinct);
        let p = self.areas()[a].frame_at(v)->0;
        let q = self.areas()[b].frame_at(v)->0;
        assert(self.slot_ok(fa, a, v, p));
        assert(self.slot_ok(fa, b, v, q));
        fa.lemma_pool_start();
        assert(PageTableEntry::of(p, self.areas()[a].perm.bits | PTE_V).target() == p);
        assert(PageTableEntry::of(q, self.areas()[b].perm.bits | PTE_V).target() == q);
    }

    proof fn lemma_unmap_wf(
        &self,
        next: &MemorySet,
        fa0: &FrameAllocator,
        fa2: &FrameAllocator,
        a: int,
        vpn: int,
        p: u64,
    )
        requires
            self.unmap_step(next, fa0, fa2, a, vpn, p),
        ensures
            next.wf(fa2),
    {
        reveal(MemorySet::shapes_ok);
        assert(self.areas()[a].shape_ok());
        assert forall|b: int| 0 <= b < next.areas().len() implies (#[trigger] next.areas()[b]).shape_ok() by {
            assert(self.areas()[b].shape_ok());
        }
        self.lemma_unmap_slots(next, fa0, fa2, a, vpn, p);
        self.lemma_unmap_rest(next, fa0, fa2, a, vpn, p);
    }

    proof fn lemma_unmap_slots(
        &self,
        next: &MemorySet,
        fa0: &FrameAllocator,
        fa2: &FrameAllocator,
        a: int,
        vpn: int,
        p: u64,
    )
        requires
            self.unmap_step(next, fa0, fa2, a, vpn, p),
        ensures
            next.all_slots_ok(fa2),
    {
        reveal(MemorySet::shapes_ok);
        reveal(MemorySet::all_slots_ok);
        reveal(MemorySet::slots_distinct);
        assert(self.areas()[a].shape_ok());
        assert forall|b: int, v: int| 0 <= b < next.areas().len() implies ((
        #[trigger] next.areas()[b].frame_at(v)) matches Some(q) ==> next.slot_ok(fa2, b, v, q)) by {
            if let Some(q) = next.areas()[b].frame_at(v) {
                assert(self.areas()[b].frame_at(v) == Some(q));
                assert(self.slot_ok(fa0, b, v, q));
                assert(self.areas()[b].shape_ok());
                if v == vpn {
                    self.lemma_one_backer(fa0, a, b, v);
                }
                assert(self.areas()[a].frame_at(vpn) != self.areas()[b].frame_at(v));
            }
        }
    }

    proof fn lemma_unmap_rest(
        &self,
        next: &MemorySet,
        fa0: &FrameAllocator,
        fa2: &FrameAllocator,
        a: int,
        vpn: int,
        p: u64,
    )
        requires
            self.unmap_step(next, fa0, fa2, a, vpn, p),
        ensures
            next.entries_backed(fa2),
            next.slots_distinct(),
            next.data_ok(fa2),
    {
        reveal(MemorySet::shapes_ok);
        reveal(MemorySet::entries_backed);
        reveal(MemorySet::slots_distinct);
        reveal(MemorySet::data_ok);
        assert(self.areas()[a].shape_ok());
        assert forall|v: int|
            0 <= v < VPN_LIMIT && (#[trigger] leaf_entry(fa2.memory(), next.root(), v))
                is Some implies next.backed(v) by {
            assert(leaf_entry(fa0.memory(), self.root(), v) is Some);
            let b = choose|b: int|
                0 <= b < self.areas().len() && (#[trigger] self.areas()[b].frame_at(v)) is Some;
            assert(next.areas()[b].frame_at(v) is Some);
        }
        assert forall|b: int, v: int, c: int, w: int|
            0 <= b < next.areas().len() && 0 <= c < next.areas().len() && (b != c || v != w) && (
            #[trigger] next.areas()[b].frame_at(v)) is Some && (#[trigger] next.areas()[c].frame_at(
                w,
            )) is Some implies next.areas()[b].frame_at(v) != next.areas()[c].frame_at(w) by {
            assert(self.areas()[b].frame_at(v) == next.areas()[b].frame_at(v));
            assert(self.areas()[c].frame_at(w) == next.areas()[c].frame_at(w));
        }
        assert forall|q: int| #[trigger] next.data@.contains(q) implies fa2.is_allocated(q)
            && !next.page_table.owned().contains(q) by {
            assert(self.data@.contains(q));
            if q != p {
                assert(!self.page_table.owned().insert(p as int).contains(q));
                assert(fa2.is_allocated(q) == fa0.is_allocated(q));
            } else {
                self.lemma_slot(fa0, a, vpn);
                fa0.lemma_pool_start();
                fa0.lemma_allocated_in_range(p as int);
            }
        }
    }

    /// What the invariant says of one recorded frame.
    proof fn lemma_slot(&self, fa: &FrameAllocator, a: int, v: int)
        requires
            self.wf(fa),
            fa.wf(),
            0 <= a < self.areas().len(),
            self.areas()[a].frame_at(v) is Some,
        ensures
            0 <= v < VPN_LIMIT,
            self.areas()[a].shape_ok(),
            self.slot_ok(fa, a, v, self.areas()[a].frame_at(v)->0),
            self.areas()[a].framed() ==> fa.is_allocated(self.areas()[a].frame_at(v)->0 as int)
                && !self.page_table.owned().contains(self.areas()[a].frame_at(v)->0 as int),
            !self.areas()[a].framed() ==> !fa.is_allocated(self.areas()[a].frame_at(v)->0 as int)
                && !self.page_table.owned().contains(self.areas()[a].frame_at(v)->0 as int),
    {
        reveal(MemorySet::shapes_ok);
        reveal(MemorySet::all_slots_ok);
        reveal(MemorySet::data_ok);
        let p = self.areas()[a].frame_at(v)->0;
        assert(self.areas()[a].shape_ok());
        assert(self.slot_ok(fa, a, v, p));
        self.page_table.lemma_wf(fa);
        if !self.areas()[a].framed() {
            if fa.is_allocated(p as int) {
                fa.lemma_allocated_in_range(p as int);
            }
        }
    }

    /// What unmapping page `vpn` of region `a` leaves behind.
    pub open spec fn unmapped_page(
        &self,
        next: &MemorySet,
        fa0: &FrameAllocator,
        fa2: &FrameAllocator,
        a: int,
        vpn: int,
    ) -> bool {
        let area = self.areas()[a];
        let p = area.frame_at(vpn)->0;
        let gain: int = if area.framed() { 1 } else { 0 };
        &&& next.wf(fa2)
        &&& next.root() == self.root()
        &&& next.areas() == self.areas().update(a, area.with_slot(vpn, None))
        &&& leaf_entry(fa2.memory(), next.root(), vpn) is None
        &&& forall|v: int|
            0 <= v < VPN_LIMIT && v != vpn ==> #[trigger] leaf_entry(fa2.memory(), next.root(), v)
                == leaf_entry(fa0.memory(), self.root(), v)
        &&& next.nodes(fa2) == self.nodes(fa0)
        &&& fa2.free_count() == fa0.free_count() + gain
        &&& next.table_frames() == self.table_frames()
        &&& area.framed() ==> next.data_frames() == self.data_frames().remove(p as int)
            && !fa2.is_allocated(p as int)
        &&& !area.framed() ==> next.data_frames() == self.data_frames()
        &&& fa0.unchanged_outside(
            fa2,
            if area.framed() {
                self.table_frames().insert(p as int)
            } else {
                self.table_frames()
            },
        )
    }

    /// Unmaps page `vpn` of region `a`, which records a frame for it; a
    /// framed page's frame goes back to the pool.
    #[verifier::rlimit(40)]
    fn unmap_slot(&mut self, fa: &mut FrameAllocator, a: usize, vpn: u64)
        requires
            old(fa).wf(),
            old(self).wf(old(fa)),
            a < old(self).areas().len(),
            old(self).areas()[a as int].frame_at(vpn as int) is Some,
        ensures
            final(fa).wf(),
            old(self).unmapped_page(final(self), old(fa), final(fa), a as int, vpn as int),
    {
        let ghost fa0 = *fa;
        let ghost self0 = *self;
        let ghost area0 = self.areas()[a as int];
        proof {
            self.lemma_slot(fa, a as int, vpn as int);
            assert(self.areas()[a as int] == self.areas@[a as int]@);
        }
        let start = self.areas[a].start_vpn;
        let idx = (vpn - start) as usize;
        let framed = match self.areas[a].map_type {
            MapType::Framed => true,
            MapType::Identical => false,
        };
        let p = self.areas[a].data_frames[idx].unwrap();
        let unmapped = self.page_table.unmap(fa, vpn);
        let ghost fa1 = *fa;
        if framed {
            fa.free(p);
            proof {
                assert(fa1.unchanged_outside(fa, set![p as int]));
                assert(self.page_table.owned().disjoint(set![p as int]));
                self.page_table.lemma_unchanged_outside(&fa1, fa, set![p as int]);
            }
        }
        self.areas[a].data_frames[idx] = None;
        proof {
            if framed {
                self.data@ = self.data@.remove(p as int);
            }
            let area1 = area0.with_slot(vpn as int, None);
            assert(self.areas@[a as int]@ == area1);
            assert(self.areas() =~= self0.areas().update(a as int, area1));
            fa1.lemma_unchanged_wider(
                fa,
                set![p as int],
                self.table_frames().insert(p as int),
            );
            fa0.lemma_unchanged_wider(
                &fa1,
                self.table_frames(),
                self.table_frames().insert(p as int),
            );
            if framed {
                fa0.lemma_unchanged_trans(
                    &fa1,
                    fa,
                    self.table_frames().insert(p as int),
                    self.table_frames().insert(p as int),
                );
            }
            assert(self0.unmap_step(self, &fa0, fa, a as int, vpn as int, p));
            self0.lemma_unmap_wf(self, &fa0, fa, a as int, vpn as int, p);
            assert(self.nodes(fa) =~= self0.nodes(&fa0));
            assert(self0.unmapped_page(self, &fa0, fa, a as int, vpn as int));
        }
    }

    /// Adds a region that has no page mapped yet, and returns its index.
    pub fn push_area(&mut self, fa: &FrameAllocator, area: MapArea) -> (a: usize)
        requires
            fa.wf(),
            old(self).wf(fa),
            area@.shape_ok(),
            forall|i: int| 0 <= i < area@.slots.len() ==> area@.slots[i] is None,
        ensures
            final(self).wf(fa),
            a == old(self).areas().len(),
            final(self).areas() == old(self).areas().push(area@),
            final(self).root() == old(self).root(),
            final(self).table_frames() == old(self).table_frames(),
            final(self).data_frames() == old(self).data_frames(),
    {
        let ghost self0 = *self;
        let a = self.areas.len();
        self.areas.push(area);
        proof {
            reveal(MemorySet::shapes_ok);
            reveal(MemorySet::all_slots_ok);
            reveal(MemorySet::entries_backed);
            reveal(MemorySet::slots_distinct);
            reveal(MemorySet::data_ok);
            assert(self.areas() =~= self0.areas().push(area@));
            assert forall|b: int| 0 <= b < self.areas().len() implies (#[trigger] self.areas()[b]).shape_ok() by {
                if b < a {
                    assert(self0.areas()[b].shape_ok());
                }
            }
            assert forall|b: int, v: int| 0 <= b < self.areas().len() implies ((
            #[trigger] self.areas()[b].frame_at(v)) matches Some(q) ==> self.slot_ok(fa, b, v, q)) by {
                if let Some(q) = self.areas()[b].frame_at(v) {
                    assert(b < a);
                    assert(self0.areas()[b].frame_at(v) == Some(q));
                    assert(self0.slot_ok(fa, b, v, q));
                }
            }
            assert forall|v: int|
                0 <= v < VPN_LIMIT && (#[trigger] leaf_entry(fa.memory(), self.root(), v))
                    is Some implies self.backed(v) by {
                let b = choose|b: int|
                    0 <= b < self0.areas().len() && (#[trigger] self0.areas()[b].frame_at(v))
                        is Some;
                assert(self.areas()[b].frame_at(v) is Some);
            }
            assert forall|b: int, v: int, c: int, w: int|
                0 <= b < self.areas().len() && 0 <= c < self.areas().len() && (b != c || v != w)
                    && (#[trigger] self.areas()[b].frame_at(v)) is Some && (
                #[trigger] self.areas()[c].frame_at(w)) is Some implies self.areas()[b].frame_at(v)
                != self.areas()[c].frame_at(w) by {
                assert(self0.areas()[b].frame_at(v) == self.areas()[b].frame_at(v));
                assert(self0.areas()[c].frame_at(w) == self.areas()[c].frame_at(w));
            }
        }
        a
    }

    /// Unmaps page `vpn`, returning its frame to the pool if it has one of
    /// its own. Returns `false`, and changes nothing, when the page is not
    /// mapped.
    pub fn unmap_page(&mut self, fa: &mut FrameAllocator, vpn: VirtPageNum) -> (r: bool)
        requires
            old(fa).wf(),
            old(self).wf(old(fa)),
            vpn.0 < VPN_LIMIT,
        ensures
            final(fa).wf(),
            r == leaf_entry(old(fa).memory(), old(self).root(), vpn.0 as int) is Some,
            !r ==> *final(self) == *old(self) && *final(fa) == *old(fa),
            r ==> exists|a: int|
                0 <= a < old(self).areas().len() && (#[trigger] old(self).areas()[a].frame_at(
                    vpn.0 as int,
                )) is Some && old(self).unmapped_page(
                    final(self),
                    old(fa),
                    final(fa),
                    a,
                    vpn.0 as int,
                ),
    {
        let n = self.areas.len();
        let mut a: usize = 0;
        while a < n
            invariant
                a <= n,
                n == self.areas().len(),
                *self == *old(self),
                *fa == *old(fa),
                fa.wf(),
                self.wf(fa),
                vpn.0 < VPN_LIMIT,
                forall|b: int| 0 <= b < a ==> (#[trigger] self.areas()[b].frame_at(vpn.0 as int)) is None,
            decreases n - a,
        {
            assert(self.areas()[a as int] == self.areas@[a as int]@);
            proof {
                reveal(MemorySet::shapes_ok);
                assert(self.areas()[a as int].shape_ok());
            }
            let start = self.areas[a].start_vpn;
            let end = self.areas[a].end_vpn;
            if start <= vpn.0 && vpn.0 < end && self.areas[a].data_frames[(vpn.0 - start) as usize].is_some() {
                proof {
                    self.lemma_slot(fa, a as int, vpn.0 as int);
                }
                self.unmap_slot(fa, a, vpn.0);
                return true;
            }
            a += 1;
        }
        proof {
            reveal(MemorySet::entries_backed);
            if leaf_entry(fa.memory(), self.root(), vpn.0 as int) is Some {
                assert(self.backed(vpn.0 as int));
            }
        }
        false
    }

    /// Reads the byte at address `va`; `None` when its page is not mapped.
    pub fn read_byte(&self, fa: &FrameAllocator, va: VirtAddr) -> (r: Option<u8>)
        requires
            fa.wf(),
            self.wf(fa),
            va.0 < VA_LIMIT,
        ensures
            r == self.user_byte(fa, va.0 as int),
    {
        proof {
            self.page_table.lemma_wf(fa);
        }
        match self.page_table.translate(fa, va.0 / 4096) {
            None => None,
            Some(e) => {
                proof {
                    self.lemma_entry(fa, va.0 as int / 4096);
                }
                Some(fa.read_byte(e.ppn(), va.0 % 4096))
            },
        }
    }

    /// Writes `b` at address `va`. Returns `false`, and changes nothing, when
    /// the page is not mapped. Nothing but that one byte of memory changes.
    pub fn write_byte(&self, fa: &mut FrameAllocator, va: VirtAddr, b: u8) -> (r: bool)
        requires
            old(fa).wf(),
            self.wf(old(fa)),
            va.0 < VA_LIMIT,
        ensures
            final(fa).wf(),
            r == leaf_entry(old(fa).memory(), self.root(), va.0 as int / 4096) is Some,
            !r ==> *final(fa) == *old(fa),
            r ==> {
                let p = leaf_entry(old(fa).memory(), self.root(), va.0 as int / 4096)->0.target() as int;
                &&& self.wf(final(fa))
                &&& old(fa).same_allocation(final(fa))
                &&& old(fa).memory().same_except(&final(fa).memory(), p)
                &&& final(fa).memory().frame(p) == old(fa).memory().frame(p).update(
                    va.0 as int % 4096,
                    b,
                )
                &&& !self.table_frames().contains(p)
                &&& forall|v: int|
                    0 <= v < VPN_LIMIT ==> #[trigger] leaf_entry(final(fa).memory(), self.root(), v)
                        == leaf_entry(old(fa).memory(), self.root(), v)
            },
    {
        proof {
            self.page_table.lemma_wf(fa);
        }
        match self.page_table.translate(fa, va.0 / 4096) {
            None => false,
            Some(e) => {
                let ghost fa0 = *fa;
                proof {
                    self.lemma_entry(fa, va.0 as int / 4096);
                }
                let p = e.ppn();
                fa.write_byte(p, va.0 % 4096, b);
                proof {
                    assert(!self.page_table.owned().contains(p as int)) by {
                        if self.page_table.owned().contains(p as int) {
                            self.lemma_not_table(&fa0, va.0 as int / 4096);
                        }
                    }
                    self.lemma_write_keeps(&fa0, fa, p as int);
                }
                true
            },
        }
    }

    /// The frame of a mapped page is no node of the page table.
    proof fn lemma_not_table(&self, fa: &FrameAllocator, v: int)
        requires
            self.wf(fa),
            fa.wf(),
            0 <= v < VPN_LIMIT,
            leaf_entry(fa.memory(), self.root(), v) is Some,
        ensures
            !self.page_table.owned().contains(
                leaf_entry(fa.memory(), self.root(), v)->0.target() as int,
            ),
    {
        reveal(MemorySet::entries_backed);
        let a = choose|a: int|
            0 <= a < self.areas().len() && (#[trigger] self.areas()[a].frame_at(v)) is Some;
        self.lemma_slot(fa, a, v);
        fa.lemma_pool_start();
    }

    /// A change of bytes in one frame that is no table node keeps the
    /// invariant and every entry.
    pub proof fn lemma_write_keeps(&self, fa0: &FrameAllocator, fa1: &FrameAllocator, p: int)
        requires
            self.wf(fa0),
            fa0.wf(),
            fa0.same_allocation(fa1),
            fa0.memory().same_except(&fa1.memory(), p),
            !self.table_frames().contains(p),
        ensures
            self.wf(fa1),
            forall|v: int|
                0 <= v < VPN_LIMIT ==> #[trigger] leaf_entry(fa1.memory(), self.root(), v)
                    == leaf_entry(fa0.memory(), self.root(), v),
            forall|s: int|
                0 <= s < slot_limit() ==> #[trigger] table_at(fa1.memory(), self.root(), s)
                    == table_at(fa0.memory(), self.root(), s),
    {
        reveal(MemorySet::shapes_ok);
        reveal(MemorySet::all_slots_ok);
        reveal(MemorySet::entries_backed);
        reveal(MemorySet::data_ok);
        assert(fa0.unchanged_outside(fa1, set![p]));
        assert(self.page_table.owned().disjoint(set![p]));
        self.page_table.lemma_unchanged_outside(fa0, fa1, set![p]);
        assert forall|a: int, v: int|
            0 <= a < self.areas().len() implies ((#[trigger] self.areas()[a].frame_at(v)) matches Some(
            q,
        ) ==> self.slot_ok(fa1, a, v, q)) by {
            if let Some(q) = self.areas()[a].frame_at(v) {
                assert(self.slot_ok(fa0, a, v, q));
                assert(self.areas()[a].shape_ok());
            }
        }
        assert forall|v: int|
            0 <= v < VPN_LIMIT && (#[trigger] leaf_entry(fa1.memory(), self.root(), v))
                is Some implies self.backed(v) by {
            assert(leaf_entry(fa0.memory(), self.root(), v) is Some);
        }
    }

    /// What mapping the pages `[from, to)` of region `a` leaves behind, but
    /// for the count of free frames: `next` and `fa2`, from an address space
    /// with the regions `before` and the pool `fa0`.
    pub open spec fn mapped_range_core(
        &self,
        before: Seq<AreaView>,
        next: &MemorySet,
        fa0: &FrameAllocator,
        fa2: &FrameAllocator,
        a: int,
        from: int,
        to: int,
    ) -> bool {
        let oa = before[a];
        let na = next.areas()[a];
        &&& next.wf(fa2)
        &&& next.root() == self.root()
        &&& next.areas().len() == before.len()
        &&& forall|b: int| 0 <= b < before.len() && b != a ==> #[trigger] next.areas()[b] == before[b]
        &&& na.start == oa.start && na.end == oa.end && na.map_type == oa.map_type && na.perm
            == oa.perm
        &&& forall|v: int| !(from <= v < to) ==> #[trigger] na.frame_at(v) == oa.frame_at(v)
        &&& forall|v: int|
            from <= v < to ==> ((#[trigger] na.frame_at(v)) matches Some(p) && leaf_entry(
                fa2.memory(),
                next.root(),
                v,
            ) == Some(PageTableEntry::of(p, oa.perm.bits | PTE_V)) && (oa.framed()
                ==> fa2.memory().frame(p as int) == zero_frame()))
        &&& forall|v: int|
            0 <= v < VPN_LIMIT && !(from <= v < to) ==> #[trigger] leaf_entry(
                fa2.memory(),
                next.root(),
                v,
            ) == leaf_entry(fa0.memory(), self.root(), v)
        &&& next.nodes(fa2) == nodes_with_range(self.nodes(fa0), from, to)
        &&& self.table_frames().subset_of(next.table_frames())
        &&& self.data_frames().subset_of(next.data_frames())
        &&& forall|q: int|
            #[trigger] next.frames().contains(q) && !self.frames().contains(q) ==> !fa0.is_allocated(
                q,
            )
        &&& fa0.unchanged_outside(
            fa2,
            next.table_frames().union(next.data_frames().difference(self.data_frames())),
        )
    }

    /// What mapping the pages `[from, to)` of region `a` leaves behind.
    pub open spec fn mapped_range(
        &self,
        before: Seq<AreaView>,
        next: &MemorySet,
        fa0: &FrameAllocator,
        fa2: &FrameAllocator,
        a: int,
        from: int,
        to: int,
    ) -> bool {
        &&& self.mapped_range_core(before, next, fa0, fa2, a, from, to)
        &&& fa2.free_count() == fa0.free_count() - range_cost(
            self.nodes(fa0),
            from,
            to,
            before[a].framed(),
        )
    }

    /// Mapping nothing leaves everything as it is.
    proof fn lemma_range_start(&self, fa: &FrameAllocator, a: int, from: int)
        requires
            self.wf(fa),
            0 <= a < self.areas().len(),
        ensures
            self.mapped_range_core(self.areas(), self, fa, fa, a, from, from),
    {
    }

    /// One more page mapped extends the range that is mapped.
    #[verifier::rlimit(40)]
    proof fn lemma_range_step(
        &self,
        cur: &MemorySet,
        next: &MemorySet,
        fa0: &FrameAllocator,
        fac: &FrameAllocator,
        fan: &FrameAllocator,
        a: int,
        from: int,
        at: int,
        p: u64,
    )
        requires
            self.wf(fa0),
            fa0.wf(),
            fac.wf(),
            fan.wf(),
            0 <= a < self.areas().len(),
            self.areas()[a].start <= from <= at < self.areas()[a].end,
            self.mapped_range_core(self.areas(), cur, fa0, fac, a, from, at),
            cur.mapped_page(next, fac, fan, a, at, p),
        ensures
            self.mapped_range_core(self.areas(), next, fa0, fan, a, from, at + 1),
    {
        let oa = self.areas()[a];
        let na = next.areas()[a];
        let ca = cur.areas()[a];
        let rc = cur.table_frames().union(cur.data_frames().difference(self.data_frames()));
        let rn = next.table_frames().union(next.data_frames().difference(self.data_frames()));
        let step = if oa.framed() {
            next.table_frames().insert(p as int)
        } else {
            next.table_frames()
        };
        cur.lemma_wf(fac);
        self.lemma_wf(fa0);
        next.lemma_tables_data_disjoint(fan);
        cur.lemma_tables_data_disjoint(fac);
        assert(ca.framed() == oa.framed());
        // the new frame was free from the start
        assert(oa.framed() ==> !fa0.is_allocated(p as int)) by {
            if oa.framed() {
                assert(!fac.is_allocated(p as int));
                assert(!rc.contains(p as int)) by {
                    if cur.table_frames().contains(p as int) {
                        assert(cur.frames().contains(p as int));
                    }
                    if cur.data_frames().contains(p as int) {
                        assert(cur.frames().contains(p as int));
                    }
                }
            }
        }
        assert(rc.subset_of(rn));
        assert(step.subset_of(rn)) by {
            if oa.framed() {
                assert(!self.data_frames().contains(p as int)) by {
                    if self.data_frames().contains(p as int) {
                        assert(self.frames().contains(p as int));
                    }
                }
            }
        }
        fac.lemma_unchanged_wider(fan, step, rn);
        fa0.lemma_unchanged_trans(fac, fan, rc, rn);
        assert forall|q: int|
            #[trigger] next.frames().contains(q) && !self.frames().contains(q) implies !fa0.is_allocated(
            q,
        ) by {
            if cur.frames().contains(q) {
            } else if next.table_frames().contains(q) {
                assert(!cur.table_frames().contains(q));
                assert(!fac.is_allocated(q));
                assert(!cur.data_frames().contains(q)) by {
                    if cur.data_frames().contains(q) {
                        assert(cur.frames().contains(q));
                    }
                }
                assert(!rc.contains(q));
                assert(fac.is_allocated(q) == fa0.is_allocated(q));
            } else {
                assert(next.data_frames().contains(q));
                assert(!cur.data_frames().contains(q));
                assert(oa.framed() && q == p as int);
            }
        }
        assert(ca.shape_ok()) by {
            reveal(MemorySet::shapes_ok);
        }
        assert(na == ca.with_slot(at, Some(p)));
        assert forall|v: int| !(from <= v < at + 1) implies #[trigger] na.frame_at(v) == oa.frame_at(
            v,
        ) by {
            assert(ca.frame_at(v) == oa.frame_at(v));
        }
        assert forall|v: int| from <= v < at + 1 implies ((#[trigger] na.frame_at(v)) matches Some(
            q,
        ) && leaf_entry(fan.memory(), next.root(), v) == Some(
            PageTableEntry::of(q, oa.perm.bits | PTE_V),
        ) && (oa.framed() ==> fan.memory().frame(q as int) == zero_frame())) by {
            if v < at {
                let q = ca.frame_at(v)->0;
                assert(ca.frame_at(v) == Some(q));
                assert(na.frame_at(v) == Some(q));
                assert(leaf_entry(fan.memory(), next.root(), v) == leaf_entry(
                    fac.memory(),
                    cur.root(),
                    v,
                ));
                if oa.framed() {
                    cur.lemma_slot(fac, a, v);
                    cur.lemma_slot_in_data(fac, a, v);
                    assert(!step.contains(q as int)) by {
                        if next.table_frames().contains(q as int) && !cur.table_frames().contains(
                            q as int,
                        ) {
                            assert(!fac.is_allocated(q as int));
                        }
                    }
                    fac.lemma_allocated_in_range(q as int);
                    assert(fan.memory().frame(q as int) == fac.memory().frame(q as int));
                }
            }
        }
        assert forall|v: int|
            0 <= v < VPN_LIMIT && !(from <= v < at + 1) implies #[trigger] leaf_entry(
            fan.memory(),
            next.root(),
            v,
        ) == leaf_entry(fa0.memory(), self.root(), v) by {
            assert(leaf_entry(fac.memory(), cur.root(), v) == leaf_entry(
                fa0.memory(),
                self.root(),
                v,
            ));
        }
        assert forall|b: int| 0 <= b < self.areas().len() && b != a implies #[trigger] next.areas()[b]
            == self.areas()[b] by {
            assert(cur.areas()[b] == self.areas()[b]);
        }
        assert(self.data_frames().subset_of(next.data_frames()));
    }

    /// Table nodes and data frames are different frames.
    pub proof fn lemma_tables_data_disjoint(&self, fa: &FrameAllocator)
        requires
            self.wf(fa),
        ensures
            self.table_frames().disjoint(self.data_frames()),
    {
        reveal(MemorySet::data_ok);
    }

    /// The frame recorded for a framed page is one of the data frames.
    proof fn lemma_slot_in_data(&self, fa: &FrameAllocator, a: int, v: int)
        requires
            self.wf(fa),
            0 <= a < self.areas().len(),
            self.areas()[a].frame_at(v) is Some,
            self.areas()[a].framed(),
        ensures
            self.data_frames().contains(self.areas()[a].frame_at(v)->0 as int),
    {
        reveal(MemorySet::all_slots_ok);
        assert(self.slot_ok(fa, a, v, self.areas()[a].frame_at(v)->0));
    }

    /// Maps the pages `[from, to)` of region `a`, none of which is mapped.
    /// Runs out of frames exactly when the pool holds fewer than the range
    /// costs.
    fn map_range(&mut self, fa: &mut FrameAllocator, a: usize, from: u64, to: u64) -> (r: Result<
        (),
        MapError,
    >)
        requires
            old(fa).wf(),
            old(self).wf(old(fa)),
            a < old(self).areas().len(),
            old(self).areas()[a as int].start <= from <= to <= old(self).areas()[a as int].end,
            !old(self).areas()[a as int].framed() ==> to <= old(fa).pool_start(),
            forall|v: int|
                from <= v < to ==> (#[trigger] leaf_entry(old(fa).memory(), old(self).root(), v))
                    is None,
        ensures
            final(fa).wf(),
            r is Err <==> old(fa).free_count() < range_cost(
                old(self).nodes(old(fa)),
                from as int,
                to as int,
                old(self).areas()[a as int].framed(),
            ),
            r is Err ==> r == Err::<(), MapError>(MapError::OutOfFrames),
            r is Ok ==> old(self).mapped_range(
                old(self).areas(),
                final(self),
                old(fa),
                final(fa),
                a as int,
                from as int,
                to as int,
            ),
    {
        let ghost fa0 = *fa;
        let ghost self0 = *self;
        let ghost framed = self.areas()[a as int].framed();
        let mut cur = from;
        proof {
            self.lemma_range_start(fa, a as int, from as int);
            reveal(MemorySet::shapes_ok);
            assert(self.areas()[a as int].shape_ok());
        }
        while cur < to
            invariant
                from <= cur <= to,
                to <= VPN_LIMIT,
                fa0 == *old(fa),
                self0 == *old(self),
                fa0.wf(),
                fa.wf(),
                self0.wf(&fa0),
                a < self0.areas().len(),
                framed == self0.areas()[a as int].framed(),
                self0.areas()[a as int].start <= from <= to <= self0.areas()[a as int].end,
                !framed ==> to <= fa0.pool_start(),
                forall|v: int|
                    from <= v < to ==> (#[trigger] leaf_entry(fa0.memory(), self0.root(), v)) is None,
                self0.mapped_range_core(
                    self0.areas(),
                    self,
                    &fa0,
                    fa,
                    a as int,
                    from as int,
                    cur as int,
                ),
                fa.free_count() - range_cost(self.nodes(fa), cur as int, to as int, framed)
                    == fa0.free_count() - range_cost(
                    self0.nodes(&fa0),
                    from as int,
                    to as int,
                    framed,
                ),
            decreases to - cur,
        {
            let ghost fac = *fa;
            let ghost selfc = *self;
            proof {
                assert(leaf_entry(fa.memory(), self.root(), cur as int) == leaf_entry(
                    fa0.memory(),
                    self0.root(),
                    cur as int,
                ));
                assert(self.areas()[a as int].frame_at(cur as int) == self0.areas()[a as int].frame_at(
                    cur as int,
                ));
            }
            match self.map_page(fa, a, cur) {
                Err(e) => {
                    proof {
                        assert(selfc.areas()[a as int].framed() == framed);
                        assert(e == MapError::OutOfFrames);
                        assert(range_cost(selfc.nodes(&fac), cur as int, to as int, framed)
                            == page_cost(selfc.nodes(&fac), cur as int, framed) + range_cost(
                            nodes_with(selfc.nodes(&fac), cur as int),
                            cur as int + 1,
                            to as int,
                            framed,
                        ));
                    }
                    return Err(MapError::OutOfFrames);
                },
                Ok(p) => {
                    proof {
                        assert(selfc.areas()[a as int].framed() == framed);
                        assert(range_cost(selfc.nodes(&fac), cur as int, to as int, framed)
                            == page_cost(selfc.nodes(&fac), cur as int, framed) + range_cost(
                            nodes_with(selfc.nodes(&fac), cur as int),
                            cur as int + 1,
                            to as int,
                            framed,
                        ));
                        self0.lemma_range_step(
                            &selfc,
                            self,
                            &fa0,
                            &fac,
                            fa,
                            a as int,
                            from as int,
                            cur as int,
                            p,
                        );
                    }
                },
            }
            cur += 1;
        }
        Ok(())
    }

    /// Whether none of the pages `[from, to)` is mapped.
    pub open spec fn range_free(&self, fa: &FrameAllocator, from: int, to: int) -> bool {
        forall|v: int| from <= v < to ==> (#[trigger] leaf_entry(fa.memory(), self.root(), v)) is None
    }

    /// Tests whether none of the pages `[from, to)` is mapped.
    pub fn is_range_free(&self, fa: &FrameAllocator, from: u64, to: u64) -> (r: bool)
        requires
            fa.wf(),
            self.wf(fa),
            from <= to <= VPN_LIMIT,
        ensures
            r == self.range_free(fa, from as int, to as int),
    {
        proof {
            self.page_table.lemma_wf(fa);
        }
        let mut v = from;
        while v < to
            invariant
                from <= v <= to <= VPN_LIMIT,
                fa.wf(),
                structure(fa.memory(), self.page_table.root()),
                self.range_free(fa, from as int, v as int),
            decreases to - v,
        {
            if self.page_table.translate(fa, v).is_some() {
                return false;
            }
            v += 1;
        }
        true
    }

    /// A region over the pages `[start, end)` with no page mapped yet.
    pub open spec fn blank_area(
        start: int,
        end: int,
        map_type: MapType,
        perm: MapPermission,
    ) -> AreaView {
        AreaView {
            start,
            end,
            slots: Seq::new((end - start) as nat, |i: int| None::<u64>),
            map_type,
            perm,
        }
    }

    /// Adds a framed region over the pages that `[start_va, end_va)`
    /// touches and maps each of them to a zeroed frame of its own.
    ///
    /// Fails with `AlreadyMapped`, changing nothing, exactly when one of
    /// the pages is mapped already; with `OutOfFrames` exactly when the pool
    /// holds fewer frames than the region costs.
    pub fn insert_framed_area(
        &mut self,
        fa: &mut FrameAllocator,
        start_va: VirtAddr,
        end_va: VirtAddr,
        perm: MapPermission,
    ) -> (r: Result<(), MapError>)
        requires
            old(fa).wf(),
            old(self).wf(old(fa)),
            start_va.0 <= end_va.0 <= VA_LIMIT,
        ensures
            final(fa).wf(),
            r == Err::<(), MapError>(MapError::AlreadyMapped) <==> !old(self).range_free(
                old(fa),
                start_va.floor_of(),
                end_va.ceil_of(),
            ),
            r == Err::<(), MapError>(MapError::AlreadyMapped) ==> *final(self) == *old(self)
                && *final(fa) == *old(fa),
            r == Err::<(), MapError>(MapError::OutOfFrames) <==> old(self).range_free(
                old(fa),
                start_va.floor_of(),
                end_va.ceil_of(),
            ) && old(fa).free_count() < range_cost(
                old(self).nodes(old(fa)),
                start_va.floor_of(),
                end_va.ceil_of(),
                true,
            ),
            r is Ok <==> old(self).range_free(old(fa), start_va.floor_of(), end_va.ceil_of()) && old(fa).free_count() >= range_cost(
                old(self).nodes(old(fa)),
                start_va.floor_of(),
                end_va.ceil_of(),
                true,
            ),
            r is Ok ==> old(self).mapped_range(
                old(self).areas().push(
                    Self::blank_area(start_va.floor_of(), end_va.ceil_of(), MapType::Framed, perm),
                ),
                final(self),
                old(fa),
                final(fa),
                old(self).areas().len() as int,
                start_va.floor_of(),
                end_va.ceil_of(),
            ),
    {
        let from = start_va.floor().0;
        let to = end_va.ceil().0;
        if !self.is_range_free(fa, from, to) {
            return Err(MapError::AlreadyMapped);
        }
        let ghost self0 = *self;
        let area = MapArea::new(start_va, end_va, MapType::Framed, perm);
        proof {
            assert(area@.slots =~= Self::blank_area(from as int, to as int, MapType::Framed, perm).slots);
        }
        let a = self.push_area(fa, area);
        let ghost self1 = *self;
        let r = self.map_range(fa, a, from, to);
        proof {
            if r is Ok {
                assert(self1.mapped_range(
                    self1.areas(),
                    self,
                    old(fa),
                    fa,
                    a as int,
                    from as int,
                    to as int,
                ));
                assert(self0.mapped_range_core(
                    self1.areas(),
                    self,
                    old(fa),
                    fa,
                    a as int,
                    from as int,
                    to as int,
                ));
            }
        }
        r
    }

    /// What unmapping every mapped page of `[from, to)` in region `a`
    /// leaves behind.
    pub open spec fn unmapped_range(
        &self,
        next: &MemorySet,
        fa0: &FrameAllocator,
        fa2: &FrameAllocator,
        a: int,
        from: int,
        to: int,
    ) -> bool {
        let oa = self.areas()[a];
        let na = next.areas()[a];
        let gain: int = if oa.framed() { oa.mapped_count(from, to) as int } else { 0 };
        &&& next.wf(fa2)
        &&& next.root() == self.root()
        &&& next.areas().len() == self.areas().len()
        &&& forall|b: int|
            0 <= b < self.areas().len() && b != a ==> #[trigger] next.areas()[b] == self.areas()[b]
        &&& na.start == oa.start && na.end == oa.end && na.map_type == oa.map_type && na.perm
            == oa.perm
        &&& forall|v: int| !(from <= v < to) ==> #[trigger] na.frame_at(v) == oa.frame_at(v)
        &&& forall|v: int| from <= v < to ==> (#[trigger] na.frame_at(v)) is None
        &&& forall|v: int|
            0 <= v < VPN_LIMIT ==> #[trigger] leaf_entry(fa2.memory(), next.root(), v) == (if from
                <= v < to && oa.frame_at(v) is Some {
                None
            } else {
                leaf_entry(fa0.memory(), self.root(), v)
            })
        &&& forall|v: int|
            from <= v < to && oa.framed() ==> ((#[trigger] oa.frame_at(v)) matches Some(p)
                ==> !fa2.is_allocated(p as int) && !next.data_frames().contains(p as int))
        &&& next.nodes(fa2) == self.nodes(fa0)
        &&& next.table_frames() == self.table_frames()
        &&& next.data_frames().subset_of(self.data_frames())
        &&& fa2.free_count() == fa0.free_count() + gain
        &&& fa0.unchanged_outside(
            fa2,
            self.table_frames().union(self.data_frames().difference(next.data_frames())),
        )
    }

    /// One more page handled extends the range that is unmapped.
    #[verifier::rlimit(40)]
    proof fn lemma_unrange_step(
        &self,
        cur: &MemorySet,
        next: &MemorySet,
        fa0: &FrameAllocator,
        fac: &FrameAllocator,
        fan: &FrameAllocator,
        a: int,
        from: int,
        at: int,
    )
        requires
            self.wf(fa0),
            fa0.wf(),
            fac.wf(),
            fan.wf(),
            0 <= a < self.areas().len(),
            self.areas()[a].start <= from <= at < self.areas()[a].end,
            self.unmapped_range(cur, fa0, fac, a, from, at),
            cur.areas()[a].frame_at(at) is Some,
            cur.unmapped_page(next, fac, fan, a, at),
        ensures
            self.unmapped_range(next, fa0, fan, a, from, at + 1),
    {
        let oa = self.areas()[a];
        let na = next.areas()[a];
        let ca = cur.areas()[a];
        let p = ca.frame_at(at)->0;
        let t = self.table_frames();
        let rc = t.union(self.data_frames().difference(cur.data_frames()));
        let rn = t.union(self.data_frames().difference(next.data_frames()));
        let step = if ca.framed() {
            t.insert(p as int)
        } else {
            t
        };
        assert(ca.shape_ok()) by {
            reveal(MemorySet::shapes_ok);
        }
        assert(oa.shape_ok()) by {
            reveal(MemorySet::shapes_ok);
        }
        assert(ca.frame_at(at) == oa.frame_at(at));
        assert(na == ca.with_slot(at, None));
        cur.lemma_tables_data_disjoint(fac);
        if ca.framed() {
            cur.lemma_slot_in_data(fac, a, at);
        }
        assert(rc.subset_of(rn));
        assert(step.subset_of(rn));
        fac.lemma_unchanged_wider(fan, step, rn);
        fa0.lemma_unchanged_trans(fac, fan, rc, rn);
        assert forall|v: int| !(from <= v < at + 1) implies #[trigger] na.frame_at(v)
            == oa.frame_at(v) by {
            assert(ca.frame_at(v) == oa.frame_at(v));
        }
        assert forall|v: int| from <= v < at + 1 implies (#[trigger] na.frame_at(v)) is None by {
            if v < at {
                assert(ca.frame_at(v) is None);
            }
        }
        assert forall|v: int| 0 <= v < VPN_LIMIT implies #[trigger] leaf_entry(
            fan.memory(),
            next.root(),
            v,
        ) == (if from <= v < at + 1 && oa.frame_at(v) is Some {
            None
        } else {
            leaf_entry(fa0.memory(), self.root(), v)
        }) by {
            assert(leaf_entry(fac.memory(), cur.root(), v) == (if from <= v < at && oa.frame_at(v)
                is Some {
                None
            } else {
                leaf_entry(fa0.memory(), self.root(), v)
            }));
        }
        assert forall|v: int| from <= v < at + 1 && oa.framed() implies ((#[trigger] oa.frame_at(
            v,
        )) matches Some(q) ==> !fan.is_allocated(q as int) && !next.data_frames().contains(
            q as int,
        )) by {
            if let Some(q) = oa.frame_at(v) {
                if v < at {
                    assert(!fac.is_allocated(q as int) && !cur.data_frames().contains(q as int));
                    assert(!step.contains(q as int)) by {
                        if t.contains(q as int) {
                            self.lemma_slot(fa0, a, v);
                        }
                        if q == p {
                            assert(cur.data_frames().contains(p as int));
                        }
                    }
                }
            }
        }
        assert forall|b: int| 0 <= b < self.areas().len() && b != a implies #[trigger] next.areas()[b]
            == self.areas()[b] by {
            assert(cur.areas()[b] == self.areas()[b]);
        }
        assert(oa.mapped_count(from, at + 1) == oa.mapped_count(from, at) + 1);
    }

    /// Skipping a page that is not mapped extends the range that is unmapped.
    proof fn lemma_unrange_skip(
        &self,
        cur: &MemorySet,
        fa0: &FrameAllocator,
        fac: &FrameAllocator,
        a: int,
        from: int,
        at: int,
    )
        requires
            self.wf(fa0),
            fa0.wf(),
            0 <= a < self.areas().len(),
            self.areas()[a].start <= from <= at < self.areas()[a].end,
            self.unmapped_range(cur, fa0, fac, a, from, at),
            cur.areas()[a].frame_at(at) is None,
        ensures
            self.unmapped_range(cur, fa0, fac, a, from, at + 1),
    {
        let oa = self.areas()[a];
        let ca = cur.areas()[a];
        assert(ca.frame_at(at) == oa.frame_at(at));
        assert(oa.mapped_count(from, at + 1) == oa.mapped_count(from, at));
        assert forall|v: int| from <= v < at + 1 implies (#[trigger] ca.frame_at(v)) is None by {
            if v < at {
                assert(ca.frame_at(v) is None);
            }
        }
    }

    /// Unmaps every mapped page of `[from, to)` in region `a`; frames of
    /// framed pages go back to the pool.
    fn unmap_range(&mut self, fa: &mut FrameAllocator, a: usize, from: u64, to: u64)
        requires
            old(fa).wf(),
            old(self).wf(old(fa)),
            a < old(self).areas().len(),
            old(self).areas()[a as int].start <= from <= to <= old(self).areas()[a as int].end,
        ensures
            final(fa).wf(),
            old(self).unmapped_range(final(self), old(fa), final(fa), a as int, from as int, to as int),
    {
        let ghost fa0 = *fa;
        let ghost self0 = *self;
        let mut cur = from;
        proof {
            reveal(MemorySet::shapes_ok);
            assert(self.areas()[a as int].shape_ok());
            assert(self.areas()[a as int] == self.areas@[a as int]@);
        }
        let start = self.areas[a].start_vpn;
        while cur < to
            invariant
                from <= cur <= to,
                to <= VPN_LIMIT,
                fa0 == *old(fa),
                self0 == *old(self),
                fa0.wf(),
                fa.wf(),
                self0.wf(&fa0),
                a < self0.areas().len(),
                start == self0.areas()[a as int].start,
                self0.areas()[a as int].start <= from <= to <= self0.areas()[a as int].end,
                self0.unmapped_range(self, &fa0, fa, a as int, from as int, cur as int),
            decreases to - cur,
        {
            let ghost fac = *fa;
            let ghost selfc = *self;
            proof {
                reveal(MemorySet::shapes_ok);
                assert(self.areas()[a as int].shape_ok());
                assert(self.areas()[a as int] == self.areas@[a as int]@);
            }
            if self.areas[a].data_frames[(cur - start) as usize].is_some() {
                self.unmap_slot(fa, a, cur);
                proof {
                    self0.lemma_unrange_step(
                        &selfc,
                        self,
                        &fa0,
                        &fac,
                        fa,
                        a as int,
                        from as int,
                        cur as int,
                    );
                }
            } else {
                proof {
                    self0.lemma_unrange_skip(self, &fa0, fa, a as int, from as int, cur as int);
                }
            }
            cur += 1;
        }
    }

    /// What [`MemorySet::recycle_data_pages`] leaves behind.
    pub open spec fn recycled(
        &self,
        next: &MemorySet,
        fa0: &FrameAllocator,
        fa2: &FrameAllocator,
    ) -> bool {
        &&& next.wf(fa2)
        &&& next.root() == self.root()
        &&& next.table_frames() == self.table_frames()
        &&& next.nodes(fa2) == self.nodes(fa0)
        &&& next.areas().len() == 0
        &&& next.data_frames() == Set::<int>::empty()
        &&& forall|v: int|
            0 <= v < VPN_LIMIT ==> (#[trigger] leaf_entry(fa2.memory(), next.root(), v)) is None
        &&& forall|a: int, v: int|
            0 <= a < self.areas().len() && self.areas()[a].framed() ==> ((
            #[trigger] self.areas()[a].frame_at(v)) matches Some(p) ==> !fa2.is_allocated(p as int))
        &&& fa2.free_count() >= fa0.free_count()
        &&& fa0.unchanged_outside(fa2, self.frames())
    }

    /// One region emptied, on top of those emptied before.
    #[verifier::rlimit(40)]
    proof fn lemma_recycle_step(
        &self,
        cur: &MemorySet,
        next: &MemorySet,
        fa0: &FrameAllocator,
        fac: &FrameAllocator,
        fan: &FrameAllocator,
        k: int,
    )
        requires
            self.wf(fa0),
            fa0.wf(),
            fac.wf(),
            fan.wf(),
            0 <= k < self.areas().len(),
            self.recycling(cur, fa0, fac, k),
            cur.unmapped_range(next, fac, fan, k, self.areas()[k].start, self.areas()[k].end),
        ensures
            self.recycling(next, fa0, fan, k + 1),
    {
        let t = self.table_frames();
        let rc = t.union(self.data_frames().difference(cur.data_frames()));
        let rn = t.union(self.data_frames().difference(next.data_frames()));
        let step = t.union(cur.data_frames().difference(next.data_frames()));
        assert(cur.areas()[k] == self.areas()[k]);
        assert(rc.subset_of(rn));
        assert(step.subset_of(rn));
        fac.lemma_unchanged_wider(fan, step, rn);
        fa0.lemma_unchanged_trans(fac, fan, rc, rn);
        assert forall|b: int| k + 1 <= b < self.areas().len() implies #[trigger] next.areas()[b]
            == self.areas()[b] by {
            assert(cur.areas()[b] == self.areas()[b]);
        }
        assert forall|b: int, v: int| 0 <= b < k + 1 implies (#[trigger] next.areas()[b].frame_at(v))
            is None by {
            if b < k {
                assert(cur.areas()[b].frame_at(v) is None);
                assert(next.areas()[b] == cur.areas()[b]);
            } else {
                let na = next.areas()[k];
                if na.start <= v < na.end {
                    assert(na.frame_at(v) is None);
                }
            }
        }
        assert forall|b: int, v: int| 0 <= b < k + 1 && self.areas()[b].framed() implies ((
        #[trigger] self.areas()[b].frame_at(v)) matches Some(p) ==> !fan.is_allocated(p as int)
            && !next.data_frames().contains(p as int)) by {
            if let Some(p) = self.areas()[b].frame_at(v) {
                if b < k {
                    assert(!fac.is_allocated(p as int) && !cur.data_frames().contains(p as int));
                    self.lemma_slot(fa0, b, v);
                    assert(!step.contains(p as int));
                } else {
                    assert(cur.areas()[k].frame_at(v) == Some(p));
                }
            }
        }
    }

    /// The state while regions are emptied one by one: those before `k`
    /// hold no frame, the others are untouched.
    pub open spec fn recycling(
        &self,
        cur: &MemorySet,
        fa0: &FrameAllocator,
        fac: &FrameAllocator,
        k: int,
    ) -> bool {
        &&& cur.wf(fac)
        &&& cur.root() == self.root()
        &&& cur.table_frames() == self.table_frames()
        &&& cur.nodes(fac) == self.nodes(fa0)
        &&& cur.areas().len() == self.areas().len()
        &&& cur.data_frames().subset_of(self.data_frames())
        &&& forall|b: int|
            k <= b < self.areas().len() ==> #[trigger] cur.areas()[b] == self.areas()[b]
        &&& forall|b: int, v: int| 0 <= b < k ==> (#[trigger] cur.areas()[b].frame_at(v)) is None
        &&& forall|b: int, v: int|
            0 <= b < k && self.areas()[b].framed() ==> ((#[trigger] self.areas()[b].frame_at(
                v,
            )) matches Some(p) ==> !fac.is_allocated(p as int) && !cur.data_frames().contains(
                p as int,
            ))
        &&& fac.free_count() >= fa0.free_count()
        &&& fa0.unchanged_outside(
            fac,
            self.table_frames().union(self.data_frames().difference(cur.data_frames())),
        )
    }

    /// With no frame recorded anywhere, no page is mapped.
    proof fn lemma_all_unmapped(&self, fa: &FrameAllocator)
        requires
            self.wf(fa),
            forall|b: int, v: int|
                0 <= b < self.areas().len() ==> (#[trigger] self.areas()[b].frame_at(v)) is None,
        ensures
            forall|v: int|
                0 <= v < VPN_LIMIT ==> (#[trigger] leaf_entry(fa.memory(), self.root(), v)) is None,
    {
        reveal(MemorySet::entries_backed);
        assert forall|v: int| 0 <= v < VPN_LIMIT implies (#[trigger] leaf_entry(
            fa.memory(),
            self.root(),
            v,
        )) is None by {
            if leaf_entry(fa.memory(), self.root(), v) is Some {
                assert(self.backed(v));
            }
        }
    }

    /// Unmaps every page and returns the frames of the framed ones to the
    /// pool. The page table keeps its nodes; no region is left.
    #[verifier::rlimit(40)]
    pub fn recycle_data_pages(&mut self, fa: &mut FrameAllocator)
        requires
            old(fa).wf(),
            old(self).wf(old(fa)),
        ensures
            final(fa).wf(),
            old(self).recycled(final(self), old(fa), final(fa)),
    {
        let ghost fa0 = *fa;
        let ghost self0 = *self;
        let n = self.areas.len();
        let mut k: usize = 0;
        while k < n
            invariant
                k <= n,
                n == self0.areas().len(),
                fa0 == *old(fa),
                self0 == *old(self),
                fa0.wf(),
                fa.wf(),
                self0.wf(&fa0),
                self0.recycling(self, &fa0, fa, k as int),
            decreases n - k,
        {
            let ghost fac = *fa;
            let ghost selfc = *self;
            proof {
                reveal(MemorySet::shapes_ok);
                assert(self.areas()[k as int].shape_ok());
                assert(self.areas()[k as int] == self.areas@[k as int]@);
            }
            let from = self.areas[k].start_vpn;
            let to = self.areas[k].end_vpn;
            self.unmap_range(fa, k, from, to);
            proof {
                self0.lemma_recycle_step(&selfc, self, &fa0, &fac, fa, k as int);
            }
            k += 1;
        }
        let ghost self1 = *self;
        proof {
            self.lemma_all_unmapped(fa);
        }
        self.areas.clear();
        proof {
            self.data@ = Set::empty();
            reveal(MemorySet::shapes_ok);
            reveal(MemorySet::all_slots_ok);
            reveal(MemorySet::entries_backed);
            reveal(MemorySet::slots_distinct);
            reveal(MemorySet::data_ok);
            assert(self.areas() =~= Seq::<AreaView>::empty());
            assert(self.data_frames() =~= Set::<int>::empty());
            fa0.lemma_unchanged_wider(
                fa,
                self0.table_frames().union(self0.data_frames().difference(self1.data_frames())),
                self0.frames(),
            );
            assert(self.wf(fa));
        }
    }

    /// Gives up the address space: every frame it owns goes back to the pool.
    pub fn release(self, fa: &mut FrameAllocator)
        requires
            old(fa).wf(),
            self.wf(old(fa)),
        ensures
            final(fa).wf(),
            old(fa).unchanged_outside(final(fa), self.frames()),
            final(fa).free_count() >= old(fa).free_count() + 1,
            forall|q: int| self.table_frames().contains(q) ==> !#[trigger] final(fa).is_allocated(q),
            forall|a: int, v: int|
                0 <= a < self.areas().len() && self.areas()[a].framed() ==> ((
                #[trigger] self.areas()[a].frame_at(v)) matches Some(p) ==> !final(fa).is_allocated(
                    p as int,
                )),
    {
        let ghost self0 = self;
        let ghost fa0 = *fa;
        let mut ms = self;
        ms.recycle_data_pages(fa);
        let ghost fa1 = *fa;
        let MemorySet { page_table, areas, data } = ms;
        proof {
            page_table.lemma_wf(fa);
            self0.page_table.lemma_wf(&fa0);
        }
        page_table.release(fa);
        proof {
            fa1.lemma_unchanged_wider(fa, self0.table_frames(), self0.frames());
            fa0.lemma_unchanged_trans(&fa1, fa, self0.frames(), self0.frames());
            assert forall|a: int, v: int|
                0 <= a < self0.areas().len() && self0.areas()[a].framed() implies ((
            #[trigger] self0.areas()[a].frame_at(v)) matches Some(p) ==> !fa.is_allocated(
                p as int,
            )) by {
                if let Some(p) = self0.areas()[a].frame_at(v) {
                    self0.lemma_slot(&fa0, a, v);
                    assert(!fa1.is_allocated(p as int));
                }
            }
        }
    }

    /// The same regions but for the extent of region `a`, with every page
    /// that stays mapped as before: the invariant holds on.
    proof fn lemma_resize_wf(&self, next: &MemorySet, fa: &FrameAllocator, a: int, to: int)
        requires
            self.wf(fa),
            fa.wf(),
            0 <= a < self.areas().len(),
            self.areas()[a].start <= to <= VPN_LIMIT,
            forall|v: int| to <= v ==> (#[trigger] self.areas()[a].frame_at(v)) is None,
            next.page_table == self.page_table,
            next.data == self.data,
            next.areas() == self.areas().update(a, self.areas()[a].resized(to)),
        ensures
            next.wf(fa),
            forall|b: int, v: int|
                0 <= b < self.areas().len() ==> #[trigger] next.areas()[b].frame_at(v)
                    == self.areas()[b].frame_at(v),
    {
        reveal(MemorySet::shapes_ok);
        reveal(MemorySet::all_slots_ok);
        reveal(MemorySet::entries_backed);
        reveal(MemorySet::slots_distinct);
        reveal(MemorySet::data_ok);
        let oa = self.areas()[a];
        assert(oa.shape_ok());
        assert forall|b: int, v: int| 0 <= b < self.areas().len() implies #[trigger] next.areas()[b].frame_at(
            v,
        ) == self.areas()[b].frame_at(v) by {
            if b == a {
                if oa.start <= v < to && v >= oa.end {
                } else if oa.start <= v < oa.end && v >= to {
                    assert(oa.frame_at(v) is None);
                }
            }
        }
        assert forall|b: int| 0 <= b < next.areas().len() implies (#[trigger] next.areas()[b]).shape_ok() by {
            assert(self.areas()[b].shape_ok());
        }
        assert forall|b: int, v: int| 0 <= b < next.areas().len() implies ((
        #[trigger] next.areas()[b].frame_at(v)) matches Some(q) ==> next.slot_ok(fa, b, v, q)) by {
            if let Some(q) = next.areas()[b].frame_at(v) {
                assert(self.areas()[b].frame_at(v) == Some(q));
                assert(self.slot_ok(fa, b, v, q));
            }
        }
        assert forall|v: int|
            0 <= v < VPN_LIMIT && (#[trigger] leaf_entry(fa.memory(), next.root(), v))
                is Some implies next.backed(v) by {
            let b = choose|b: int|
                0 <= b < self.areas().len() && (#[trigger] self.areas()[b].frame_at(v)) is Some;
            assert(next.areas()[b].frame_at(v) is Some);
        }
        assert forall|b: int, v: int, c: int, w: int|
            0 <= b < next.areas().len() && 0 <= c < next.areas().len() && (b != c || v != w) && (
            #[trigger] next.areas()[b].frame_at(v)) is Some && (#[trigger] next.areas()[c].frame_at(
                w,
            )) is Some implies next.areas()[b].frame_at(v) != next.areas()[c].frame_at(w) by {
            assert(self.areas()[b].frame_at(v) == next.areas()[b].frame_at(v));
            assert(self.areas()[c].frame_at(w) == next.areas()[c].frame_at(w));
        }
    }

    /// Sets the end of region `a` to `to`. Pages that are added are not
    /// mapped yet; the pages that are dropped must not be mapped.
    fn resize_area(&mut self, fa: &FrameAllocator, a: usize, to: u64)
        requires
            fa.wf(),
            old(self).wf(fa),
            a < old(self).areas().len(),
            old(self).areas()[a as int].start <= to <= VPN_LIMIT,
            forall|v: int| to <= v ==> (#[trigger] old(self).areas()[a as int].frame_at(v)) is None,
        ensures
            final(self).wf(fa),
            final(self).root() == old(self).root(),
            final(self).table_frames() == old(self).table_frames(),
            final(self).data_frames() == old(self).data_frames(),
            final(self).areas() == old(self).areas().update(
                a as int,
                old(self).areas()[a as int].resized(to as int),
            ),
            forall|b: int, v: int|
                0 <= b < old(self).areas().len() ==> #[trigger] final(self).areas()[b].frame_at(v)
                    == old(self).areas()[b].frame_at(v),
    {
        let ghost self0 = *self;
        let ghost oa = self.areas()[a as int];
        proof {
            reveal(MemorySet::shapes_ok);
            assert(oa.shape_ok());
            assert(self.areas()[a as int] == self.areas@[a as int]@);
        }
        let start = self.areas[a].start_vpn;
        let n = (to - start) as usize;
        if n <= self.areas[a].data_frames.len() {
            self.areas[a].data_frames.truncate(n);
        } else {
            let mut i = self.areas[a].data_frames.len();
            while i < n
                invariant
                    i <= n,
                    a < self.areas@.len(),
                    self.areas@.len() == self0.areas@.len(),
                    self.page_table == self0.page_table,
                    self.data == self0.data,
                    forall|b: int|
                        0 <= b < self.areas@.len() && b != a ==> #[trigger] self.areas@[b]
                            == self0.areas@[b],
                    self.areas@[a as int].start_vpn == self0.areas@[a as int].start_vpn,
                    self.areas@[a as int].end_vpn == self0.areas@[a as int].end_vpn,
                    self.areas@[a as int].map_type == self0.areas@[a as int].map_type,
                    self.areas@[a as int].map_perm == self0.areas@[a as int].map_perm,
                    self.areas@[a as int].data_frames@.len() == i,
                    oa.slots.len() <= i,
                    forall|j: int|
                        0 <= j < i ==> #[trigger] self.areas@[a as int].data_frames@[j] == (if j
                            < oa.slots.len() {
                            oa.slots[j]
                        } else {
                            None
                        }),
                decreases n - i,
            {
                self.areas[a].data_frames.push(None);
                i += 1;
            }
        }
        self.areas[a].end_vpn = to;
        proof {
            assert(self.areas@[a as int]@.slots =~= oa.resized(to as int).slots);
            assert(self.areas@[a as int]@ == oa.resized(to as int));
            assert(self.areas() =~= self0.areas().update(a as int, oa.resized(to as int)));
            self0.lemma_resize_wf(self, fa, a as int, to as int);
        }
    }

    /// The index of the first region that starts at page `vpn`.
    pub open spec fn area_starting_at(&self, vpn: int) -> Option<int> {
        if exists|a: int| 0 <= a < self.areas().len() && (#[trigger] self.areas()[a]).start == vpn {
            Some(self.first_area_from(vpn, 0))
        } else {
            None
        }
    }

    /// The index of the first region at or after index `k` that starts at
    /// page `vpn`, or the number of regions.
    pub open spec fn first_area_from(&self, vpn: int, k: int) -> int
        decreases self.areas().len() - k,
    {
        if k >= self.areas().len() {
            k
        } else if self.areas()[k].start == vpn {
            k
        } else {
            self.first_area_from(vpn, k + 1)
        }
    }

    /// Whether the first region that starts at page `bottom` is framed and
    /// ends at page `end`: so lies the heap of a task.
    pub open spec fn heap_area(&self, bottom: int, end: int) -> bool {
        match self.area_starting_at(bottom) {
            Some(a) => self.areas()[a].framed() && self.areas()[a].end == end,
            None => false,
        }
    }

    /// What [`MemorySet::first_area_from`] gives lies at or after `k`, and
    /// is the first region from there that starts at page `vpn`.
    pub proof fn lemma_first_area(&self, vpn: int, k: int)
        requires
            0 <= k <= self.areas().len(),
        ensures
            k <= self.first_area_from(vpn, k) <= self.areas().len(),
            self.first_area_from(vpn, k) < self.areas().len() ==> self.areas()[self.first_area_from(
                vpn,
                k,
            )].start == vpn,
            forall|j: int|
                k <= j < self.first_area_from(vpn, k) ==> (#[trigger] self.areas()[j]).start != vpn,
        decreases self.areas().len() - k,
    {
        if k < self.areas().len() && self.areas()[k].start != vpn {
            self.lemma_first_area(vpn, k + 1);
        }
    }

    /// The region that [`MemorySet::area_starting_at`] names is the first
    /// that starts at page `vpn`.
    pub proof fn lemma_area_starting_at(&self, vpn: int)
        ensures
            match self.area_starting_at(vpn) {
                Some(a) => 0 <= a < self.areas().len() && self.areas()[a].start == vpn && forall|
                    j: int,
                |
                    0 <= j < a ==> (#[trigger] self.areas()[j]).start != vpn,
                None => forall|j: int|
                    0 <= j < self.areas().len() ==> (#[trigger] self.areas()[j]).start != vpn,
            },
    {
        self.lemma_first_area(vpn, 0);
    }

    /// The first region that starts at page `vpn` is the one that
    /// [`MemorySet::area_starting_at`] names.
    pub proof fn lemma_is_area_starting_at(&self, vpn: int, a: int)
        requires
            0 <= a < self.areas().len(),
            self.areas()[a].start == vpn,
            forall|j: int| 0 <= j < a ==> (#[trigger] self.areas()[j]).start != vpn,
        ensures
            self.area_starting_at(vpn) == Some(a),
    {
        self.lemma_first_area(vpn, 0);
        let r = self.first_area_from(vpn, 0);
        if r < a {
            assert(self.areas()[r].start != vpn);
        }
        if r > a {
            assert(self.areas()[a].start != vpn);
        }
    }

    /// The heap lies where it lay when the regions that were there keep
    /// their extent and kind, whatever regions come after them.
    pub proof fn lemma_heap_area_kept(&self, next: &MemorySet, bottom: int, end: int)
        requires
            self.heap_area(bottom, end),
            next.areas().len() >= self.areas().len(),
            forall|b: int|
                0 <= b < self.areas().len() ==> (#[trigger] next.areas()[b]).start
                    == self.areas()[b].start && next.areas()[b].end == self.areas()[b].end
                    && next.areas()[b].map_type == self.areas()[b].map_type,
        ensures
            next.heap_area(bottom, end),
            next.area_starting_at(bottom) == self.area_starting_at(bottom),
    {
        self.lemma_area_starting_at(bottom);
        let a = self.area_starting_at(bottom)->0;
        assert forall|j: int| 0 <= j < a implies (#[trigger] next.areas()[j]).start != bottom by {
            assert(self.areas()[j].start != bottom);
        }
        assert(next.areas()[a].start == bottom);
        next.lemma_is_area_starting_at(bottom, a);
    }

    /// Finds the first region that starts at page `vpn`.
    pub fn find_area(&self, vpn: VirtPageNum) -> (r: Option<usize>)
        ensures
            r matches Some(a) ==> a < self.areas().len() && self.areas()[a as int].start == vpn.0,
            match r {
                Some(a) => self.area_starting_at(vpn.0 as int) == Some(a as int),
                None => self.area_starting_at(vpn.0 as int) is None,
            },
    {
        let n = self.areas.len();
        let mut k: usize = 0;
        while k < n
            invariant
                k <= n,
                n == self.areas().len(),
                self.first_area_from(vpn.0 as int, 0) == self.first_area_from(vpn.0 as int, k as int),
                forall|b: int| 0 <= b < k ==> (#[trigger] self.areas()[b]).start != vpn.0,
            decreases n - k,
        {
            assert(self.areas()[k as int] == self.areas@[k as int]@);
            if self.areas[k].start_vpn == vpn.0 {
                return Some(k);
            }
            k += 1;
        }
        None
    }

    /// What [`MemorySet::shrink_to`] leaves behind when it moves the end of
    /// region `a` down to page `to`.
    pub open spec fn shrunk(
        &self,
        next: &MemorySet,
        fa0: &FrameAllocator,
        fa2: &FrameAllocator,
        a: int,
        to: int,
    ) -> bool {
        let oa = self.areas()[a];
        let na = next.areas()[a];
        &&& next.wf(fa2)
        &&& next.root() == self.root()
        &&& next.areas().len() == self.areas().len()
        &&& forall|b: int|
            0 <= b < self.areas().len() && b != a ==> #[trigger] next.areas()[b] == self.areas()[b]
        &&& na.start == oa.start && na.end == to && na.map_type == oa.map_type && na.perm == oa.perm
        &&& forall|v: int|
            #[trigger] na.frame_at(v) == (if v < to {
                oa.frame_at(v)
            } else {
                None
            })
        &&& forall|v: int|
            0 <= v < VPN_LIMIT ==> #[trigger] leaf_entry(fa2.memory(), next.root(), v) == (if to
                <= v < oa.end && oa.frame_at(v) is Some {
                None
            } else {
                leaf_entry(fa0.memory(), self.root(), v)
            })
        &&& forall|v: int|
            to <= v < oa.end && oa.framed() ==> ((#[trigger] oa.frame_at(v)) matches Some(p)
                ==> !fa2.is_allocated(p as int) && !next.data_frames().contains(p as int))
        &&& next.nodes(fa2) == self.nodes(fa0)
        &&& next.table_frames() == self.table_frames()
        &&& next.data_frames().subset_of(self.data_frames())
        &&& fa2.free_count() == fa0.free_count() + (if oa.framed() {
            oa.mapped_count(to, oa.end) as int
        } else {
            0
        })
        &&& fa0.unchanged_outside(
            fa2,
            self.table_frames().union(self.data_frames().difference(next.data_frames())),
        )
    }

    /// Moves the end of the first region that starts at the page of `start`
    /// down to the first page at or after `new_end`, unmapping the pages that
    /// leave it. Returns `false`, and changes nothing, when no region starts
    /// there; a region that ends earlier already is left as it is.
    pub fn shrink_to(&mut self, fa: &mut FrameAllocator, start: VirtAddr, new_end: VirtAddr) -> (r:
        bool)
        requires
            old(fa).wf(),
            old(self).wf(old(fa)),
            start.0 <= new_end.0 <= VA_LIMIT,
        ensures
            final(fa).wf(),
            r == old(self).area_starting_at(start.floor_of()) is Some,
            match old(self).area_starting_at(start.floor_of()) {
                None => *final(self) == *old(self) && *final(fa) == *old(fa),
                Some(a) => if new_end.ceil_of() >= old(self).areas()[a].end {
                    *final(self) == *old(self) && *final(fa) == *old(fa)
                } else {
                    old(self).shrunk(final(self), old(fa), final(fa), a, new_end.ceil_of())
                },
            },
    {
        let a = match self.find_area(start.floor()) {
            None => {
                return false;
            },
            Some(a) => a,
        };
        let to = new_end.ceil().0;
        proof {
            reveal(MemorySet::shapes_ok);
            assert(self.areas()[a as int].shape_ok());
            assert(self.areas()[a as int] == self.areas@[a as int]@);
        }
        let end = self.areas[a].end_vpn;
        if to >= end {
            return true;
        }
        let ghost self0 = *self;
        self.unmap_range(fa, a, to, end);
        let ghost self1 = *self;
        self.resize_area(fa, a, to);
        proof {
            let oa = self0.areas()[a as int];
            let ma = self1.areas()[a as int];
            let na = self.areas()[a as int];
            assert(na == ma.resized(to as int));
            assert forall|v: int| #[trigger] na.frame_at(v) == (if v < to {
                oa.frame_at(v)
            } else {
                None
            }) by {
                assert(na.frame_at(v) == ma.frame_at(v));
                if to <= v < end {
                    assert(ma.frame_at(v) is None);
                } else {
                    assert(ma.frame_at(v) == oa.frame_at(v));
                }
            }
            assert forall|b: int| 0 <= b < self0.areas().len() && b != a implies #[trigger] self.areas()[b]
                == self0.areas()[b] by {
                assert(self1.areas()[b] == self0.areas()[b]);
            }
            assert(self.nodes(fa) == self0.nodes(old(fa)));
        }
        true
    }

    /// Moves the end of the first region that starts at the page of `start`
    /// up to the first page at or after `new_end`, mapping the pages that
    /// join it to zeroed frames.
    ///
    /// Returns `Ok(false)`, and changes nothing, when no region starts
    /// there, when the region is not framed, or when a page that would join
    /// is mapped already. A region that ends later already is left as it is.
    /// Runs out of frames exactly when the pool holds fewer than the new
    /// pages cost.
    pub fn append_to(&mut self, fa: &mut FrameAllocator, start: VirtAddr, new_end: VirtAddr) -> (r:
        Result<bool, MapError>)
        requires
            old(fa).wf(),
            old(self).wf(old(fa)),
            start.0 <= new_end.0 <= VA_LIMIT,
        ensures
            final(fa).wf(),
            match old(self).area_starting_at(start.floor_of()) {
                None => r == Ok::<bool, MapError>(false) && *final(self) == *old(self) && *final(fa)
                    == *old(fa),
                Some(a) => {
                    let oa = old(self).areas()[a];
                    let to = new_end.ceil_of();
                    if !oa.framed() {
                        r == Ok::<bool, MapError>(false) && *final(self) == *old(self) && *final(fa) == *old(fa)
                    } else if to <= oa.end {
                        r == Ok::<bool, MapError>(true) && *final(self) == *old(self) && *final(fa)
                            == *old(fa)
                    } else if !old(self).range_free(old(fa), oa.end, to) {
                        r == Ok::<bool, MapError>(false) && *final(self) == *old(self) && *final(fa) == *old(fa)
                    } else if old(fa).free_count() < range_cost(
                        old(self).nodes(old(fa)),
                        oa.end,
                        to,
                        true,
                    ) {
                        r == Err::<bool, MapError>(MapError::OutOfFrames)
                    } else {
                        r == Ok::<bool, MapError>(true) && old(self).mapped_range(
                            old(self).areas().update(a, oa.resized(to)),
                            final(self),
                            old(fa),
                            final(fa),
                            a,
                            oa.end,
                            to,
                        )
                    }
                },
            },
    {
        let a = match self.find_area(start.floor()) {
            None => {
                return Ok(false);
            },
            Some(a) => a,
        };
        let to = new_end.ceil().0;
        proof {
            reveal(MemorySet::shapes_ok);
            assert(self.areas()[a as int].shape_ok());
            assert(self.areas()[a as int] == self.areas@[a as int]@);
        }
        let end = self.areas[a].end_vpn;
        match self.areas[a].map_type {
            MapType::Identical => {
                return Ok(false);
            },
            MapType::Framed => {},
        }
        if to <= end {
            return Ok(true);
        }
        if !self.is_range_free(fa, end, to) {
            return Ok(false);
        }
        let ghost self0 = *self;
        self.resize_area(fa, a, to);
        let ghost self1 = *self;
        match self.map_range(fa, a, end, to) {
            Err(e) => Err(MapError::OutOfFrames),
            Ok(()) => {
                proof {
                    assert(self1.mapped_range(
                        self1.areas(),
                        self,
                        old(fa),
                        fa,
                        a as int,
                        end as int,
                        to as int,
                    ));
                    assert(self0.mapped_range_core(
                        self1.areas(),
                        self,
                        old(fa),
                        fa,
                        a as int,
                        end as int,
                        to as int,
                    ));
                }
                Ok(true)
            },
        }
    }

    /// Whether every page that `[va, va + len)` touches is mapped.
    pub open spec fn range_mapped(&self, fa: &FrameAllocator, va: int, len: int) -> bool {
        forall|v: int|
            len > 0 && va / 4096 <= v && v * 4096 < va + len ==> (#[trigger] leaf_entry(
                fa.memory(),
                self.root(),
                v,
            )) is Some
    }

    /// Tests whether every page that `[va, va + len)` touches is mapped.
    pub fn is_range_mapped(&self, fa: &FrameAllocator, va: VirtAddr, len: u64) -> (r: bool)
        requires
            fa.wf(),
            self.wf(fa),
            va.0 + len <= VA_LIMIT,
        ensures
            r == self.range_mapped(fa, va.0 as int, len as int),
    {
        proof {
            self.page_table.lemma_wf(fa);
        }
        if len == 0 {
            return true;
        }
        let mut v = va.0 / 4096;
        while v * 4096 < va.0 + len
            invariant
                va.0 / 4096 <= v <= VPN_LIMIT,
                va.0 + len <= VA_LIMIT,
                len > 0,
                fa.wf(),
                structure(fa.memory(), self.page_table.root()),
                forall|w: int|
                    va.0 as int / 4096 <= w < v ==> (#[trigger] leaf_entry(
                        fa.memory(),
                        self.root(),
                        w,
                    )) is Some,
            decreases VPN_LIMIT - v,
        {
            if self.page_table.translate(fa, v).is_none() {
                return false;
            }
            v += 1;
        }
        true
    }

    /// The frames that the kernel keeps below the pool.
    pub open spec fn kernel_frames(fa: &FrameAllocator) -> Set<int> {
        Set::new(|p: int| 0 <= p < fa.pool_start())
    }

    /// What [`MemorySet::write_bytes`] leaves behind after it wrote the
    /// bytes `data[off..off + len]` at address `va`.
    pub open spec fn wrote_bytes(
        &self,
        fa0: &FrameAllocator,
        fa2: &FrameAllocator,
        va: int,
        data: Seq<u8>,
        off: int,
        len: int,
    ) -> bool {
        &&& self.wf(fa2)
        &&& fa0.same_allocation(fa2)
        &&& forall|v: int|
            0 <= v < VPN_LIMIT ==> #[trigger] leaf_entry(fa2.memory(), self.root(), v)
                == leaf_entry(fa0.memory(), self.root(), v)
        &&& forall|s: int|
            0 <= s < slot_limit() ==> #[trigger] table_at(fa2.memory(), self.root(), s)
                == table_at(fa0.memory(), self.root(), s)
        &&& forall|i: int|
            0 <= i < len ==> #[trigger] self.user_byte(fa2, va + i) == Some(data[off + i])
        &&& forall|x: int|
            0 <= x < VA_LIMIT && !(va <= x < va + len) ==> #[trigger] self.user_byte(fa2, x)
                == self.user_byte(fa0, x)
        &&& fa0.unchanged_outside(fa2, self.data_frames().union(Self::kernel_frames(fa0)))
    }

    /// One more byte written extends what was written.
    proof fn lemma_write_step(
        &self,
        fa0: &FrameAllocator,
        fac: &FrameAllocator,
        fan: &FrameAllocator,
        va: int,
        data: Seq<u8>,
        off: int,
        i: int,
    )
        requires
            self.wf(fa0),
            fa0.wf(),
            fac.wf(),
            0 <= va,
            0 <= i,
            va + i < VA_LIMIT,
            self.wrote_bytes(fa0, fac, va, data, off, i),
            leaf_entry(fac.memory(), self.root(), (va + i) / 4096) is Some,
            self.wf(fan),
            fac.same_allocation(fan),
            fac.memory().same_except(
                &fan.memory(),
                leaf_entry(fac.memory(), self.root(), (va + i) / 4096)->0.target() as int,
            ),
            fan.memory().frame(
                leaf_entry(fac.memory(), self.root(), (va + i) / 4096)->0.target() as int,
            ) == fac.memory().frame(
                leaf_entry(fac.memory(), self.root(), (va + i) / 4096)->0.target() as int,
            ).update((va + i) % 4096, data[off + i]),
            forall|v: int|
                0 <= v < VPN_LIMIT ==> #[trigger] leaf_entry(fan.memory(), self.root(), v)
                    == leaf_entry(fac.memory(), self.root(), v),
            forall|s: int|
                0 <= s < slot_limit() ==> #[trigger] table_at(fan.memory(), self.root(), s)
                    == table_at(fac.memory(), self.root(), s),
        ensures
            self.wrote_bytes(fa0, fan, va, data, off, i + 1),
    {
        let vp = (va + i) / 4096;
        let p = leaf_entry(fac.memory(), self.root(), vp)->0.target() as int;
        self.lemma_wf(fac);
        fac.lemma_memory_wf();
        fac.memory().lemma_frame_len(p);
        let region = self.data_frames().union(Self::kernel_frames(fa0));
        assert(fac.unchanged_outside(fan, set![p]));
        assert(region.contains(p));
        fac.lemma_unchanged_wider(fan, set![p], region);
        fa0.lemma_unchanged_trans(fac, fan, region, region);
        assert forall|x: int| 0 <= x < VA_LIMIT && x != va + i implies #[trigger] self.user_byte(
            fan,
            x,
        ) == self.user_byte(fac, x) by {
            let vx = x / 4096;
            assert(leaf_entry(fan.memory(), self.root(), vx) == leaf_entry(
                fac.memory(),
                self.root(),
                vx,
            ));
            if let Some(e) = leaf_entry(fac.memory(), self.root(), vx) {
                if vx != vp {
                    assert(e.target() != p);
                    assert(fan.memory().frame(e.target() as int) == fac.memory().frame(
                        e.target() as int,
                    ));
                }
            }
        }
        assert forall|j: int| 0 <= j < i + 1 implies #[trigger] self.user_byte(fan, va + j) == Some(
            data[off + j],
        ) by {
            if j < i {
                assert(self.user_byte(fac, va + j) == Some(data[off + j]));
                assert(self.user_byte(fan, va + j) == self.user_byte(fac, va + j));
            }
        }
        assert forall|x: int|
            0 <= x < VA_LIMIT && !(va <= x < va + i + 1) implies #[trigger] self.user_byte(fan, x)
            == self.user_byte(fa0, x) by {
            assert(self.user_byte(fan, x) == self.user_byte(fac, x));
            assert(self.user_byte(fac, x) == self.user_byte(fa0, x));
        }
    }

    /// Writing nothing leaves everything as it is.
    proof fn lemma_write_start(&self, fa: &FrameAllocator, va: int, data: Seq<u8>, off: int)
        requires
            self.wf(fa),
        ensures
            self.wrote_bytes(fa, fa, va, data, off, 0),
    {
    }

    /// Writes the bytes `data[off..off + len]` at address `va`, through the
    /// page table, page by page. Returns `false`, and changes nothing, when
    /// one of the pages is not mapped.
    pub fn write_bytes(
        &self,
        fa: &mut FrameAllocator,
        va: VirtAddr,
        data: &Vec<u8>,
        off: usize,
        len: usize,
    ) -> (r: bool)
        requires
            old(fa).wf(),
            self.wf(old(fa)),
            va.0 + len <= VA_LIMIT,
            off + len <= data@.len(),
        ensures
            final(fa).wf(),
            r == self.range_mapped(old(fa), va.0 as int, len as int),
            !r ==> *final(fa) == *old(fa),
            r ==> self.wrote_bytes(old(fa), final(fa), va.0 as int, data@, off as int, len as int),
    {
        if !self.is_range_mapped(fa, va, len as u64) {
            return false;
        }
        let ghost fa0 = *fa;
        let n = data.len();
        let mut i: usize = 0;
        proof {
            self.lemma_write_start(fa, va.0 as int, data@, off as int);
        }
        while i < len
            invariant
                i <= len,
                n == data@.len(),
                fa0 == *old(fa),
                fa0.wf(),
                fa.wf(),
                self.wf(&fa0),
                va.0 + len <= VA_LIMIT,
                off + len <= data@.len(),
                self.range_mapped(&fa0, va.0 as int, len as int),
                self.wrote_bytes(&fa0, fa, va.0 as int, data@, off as int, i as int),
            decreases len - i,
        {
            let ghost fac = *fa;
            let b = data[off + i];
            let at = VirtAddr(va.0 + i as u64);
            proof {
                let vp = (va.0 + i) as int / 4096;
                assert(leaf_entry(fa0.memory(), self.root(), vp) is Some);
                assert(leaf_entry(fa.memory(), self.root(), vp) == leaf_entry(
                    fa0.memory(),
                    self.root(),
                    vp,
                ));
            }
            let ok = self.write_byte(fa, at, b);
            proof {
                self.lemma_write_keeps_tables(&fac, fa, (va.0 + i) as int / 4096);
                self.lemma_write_step(&fa0, &fac, fa, va.0 as int, data@, off as int, i as int);
            }
            i += 1;
        }
        true
    }

    /// A change of bytes in the frame of a mapped page keeps every table node.
    proof fn lemma_write_keeps_tables(&self, fa0: &FrameAllocator, fa1: &FrameAllocator, v: int)
        requires
            self.wf(fa0),
            fa0.wf(),
            0 <= v < VPN_LIMIT,
            leaf_entry(fa0.memory(), self.root(), v) is Some,
            fa0.same_allocation(fa1),
            fa0.memory().same_except(
                &fa1.memory(),
                leaf_entry(fa0.memory(), self.root(), v)->0.target() as int,
            ),
        ensures
            forall|s: int|
                0 <= s < slot_limit() ==> #[trigger] table_at(fa1.memory(), self.root(), s)
                    == table_at(fa0.memory(), self.root(), s),
    {
        self.lemma_not_table(fa0, v);
        self.lemma_write_keeps(fa0, fa1, leaf_entry(fa0.memory(), self.root(), v)->0.target() as int);
    }

    /// Reads `len` bytes at address `va`; `None` when one of the pages is
    /// not mapped.
    pub fn read_bytes(&self, fa: &FrameAllocator, va: VirtAddr, len: usize) -> (r: Option<Vec<u8>>)
        requires
            fa.wf(),
            self.wf(fa),
            va.0 + len <= VA_LIMIT,
        ensures
            r is Some <==> self.range_mapped(fa, va.0 as int, len as int),
            r matches Some(bytes) ==> bytes@.len() == len && forall|i: int|
                0 <= i < len ==> self.user_byte(fa, va.0 + i) == Some(#[trigger] bytes@[i]),
    {
        if !self.is_range_mapped(fa, va, len as u64) {
            return None;
        }
        let mut out: Vec<u8> = Vec::new();
        let mut i: usize = 0;
        while i < len
            invariant
                i <= len,
                fa.wf(),
                self.wf(fa),
                va.0 + len <= VA_LIMIT,
                self.range_mapped(fa, va.0 as int, len as int),
                out@.len() == i,
                forall|j: int| 0 <= j < i ==> self.user_byte(fa, va.0 + j) == Some(#[trigger] out@[j]),
            decreases len - i,
        {
            proof {
                let vp = (va.0 + i) as int / 4096;
                assert(leaf_entry(fa.memory(), self.root(), vp) is Some);
            }
            let b = self.read_byte(fa, VirtAddr(va.0 + i as u64));
            out.push(b.unwrap());
            i += 1;
        }
        Some(out)
    }

    /// The bytes of the NUL-terminated string at address `va`, without the
    /// NUL; `None` when the string runs into a page that is not mapped, or
    /// to the end of the address space.
    pub open spec fn user_cstr(&self, fa: &FrameAllocator, va: int) -> Option<Seq<u8>>
        decreases VA_LIMIT - va,
    {
        if va < 0 || va >= VA_LIMIT {
            None
        } else {
            match self.user_byte(fa, va) {
                None => None,
                Some(b) => if b == 0 {
                    Some(Seq::empty())
                } else {
                    match self.user_cstr(fa, va + 1) {
                        None => None,
                        Some(rest) => Some(seq![b].add(rest)),
                    }
                },
            }
        }
    }

    /// Reads the NUL-terminated string at address `va`.
    pub fn read_cstr(&self, fa: &FrameAllocator, va: VirtAddr) -> (r: Option<Vec<u8>>)
        requires
            fa.wf(),
            self.wf(fa),
        ensures
            match r {
                None => self.user_cstr(fa, va.0 as int) is None,
                Some(bytes) => self.user_cstr(fa, va.0 as int) == Some(bytes@),
            },
    {
        let mut out: Vec<u8> = Vec::new();
        let mut at = va.0;
        loop
            invariant
                va.0 <= at,
                fa.wf(),
                self.wf(fa),
                match self.user_cstr(fa, at as int) {
                    None => self.user_cstr(fa, va.0 as int) is None,
                    Some(rest) => self.user_cstr(fa, va.0 as int) == Some(out@.add(rest)),
                },
            decreases VA_LIMIT + 1 - at,
        {
            if at >= VA_LIMIT {
                return None;
            }
            match self.read_byte(fa, VirtAddr(at)) {
                None => {
                    return None;
                },
                Some(b) => {
                    if b == 0 {
                        assert(out@.add(Seq::<u8>::empty()) =~= out@);
                        return Some(out);
                    }
                    proof {
                        if let Some(rest) = self.user_cstr(fa, at as int + 1) {
                            assert(out@.push(b).add(rest) =~= out@.add(seq![b].add(rest)));
                        }
                    }
                    out.push(b);
                    at += 1;
                },
            }
        }
    }

    /// Adds a region over the pages `[start, end)`, none of which is
    /// mapped, and maps each of them. Runs out of frames exactly when the
    /// pool holds fewer than the region costs.
    pub fn add_region(
        &mut self,
        fa: &mut FrameAllocator,
        start: u64,
        end: u64,
        map_type: MapType,
        perm: MapPermission,
    ) -> (r: Result<(), MapError>)
        requires
            old(fa).wf(),
            old(self).wf(old(fa)),
            start <= end <= VPN_LIMIT,
            old(self).range_free(old(fa), start as int, end as int),
            map_type == MapType::Identical ==> end <= old(fa).pool_start(),
        ensures
            final(fa).wf(),
            r is Err <==> old(fa).free_count() < range_cost(
                old(self).nodes(old(fa)),
                start as int,
                end as int,
                map_type == MapType::Framed,
            ),
            r is Err ==> r == Err::<(), MapError>(MapError::OutOfFrames),
            r is Ok ==> old(self).mapped_range(
                old(self).areas().push(Self::blank_area(start as int, end as int, map_type, perm)),
                final(self),
                old(fa),
                final(fa),
                old(self).areas().len() as int,
                start as int,
                end as int,
            ),
    {
        let ghost self0 = *self;
        let area = MapArea::from_pages(start, end, map_type, perm);
        let a = self.push_area(fa, area);
        let ghost self1 = *self;
        let r = self.map_range(fa, a, start, end);
        proof {
            if r is Ok {
                assert(self1.mapped_range(
                    self1.areas(),
                    self,
                    old(fa),
                    fa,
                    a as int,
                    start as int,
                    end as int,
                ));
                assert(self0.mapped_range_core(
                    self1.areas(),
                    self,
                    old(fa),
                    fa,
                    a as int,
                    start as int,
                    end as int,
                ));
            }
        }
        r
    }

    /// After pages were mapped, the new framed pages hold zero bytes and
    /// every other address holds what it held.
    pub proof fn lemma_mapped_range_bytes(
        &self,
        before: Seq<AreaView>,
        next: &MemorySet,
        fa0: &FrameAllocator,
        fa2: &FrameAllocator,
        a: int,
        from: int,
        to: int,
    )
        requires
            self.wf(fa0),
            fa0.wf(),
            fa2.wf(),
            0 <= a < before.len(),
            0 <= from <= to <= VPN_LIMIT,
            self.mapped_range_core(before, next, fa0, fa2, a, from, to),
        ensures
            forall|x: int|
                0 <= x < VA_LIMIT && !(from <= x / 4096 < to) ==> #[trigger] next.user_byte(fa2, x)
                    == self.user_byte(fa0, x),
            before[a].framed() ==> forall|x: int|
                0 <= x < VA_LIMIT && from <= x / 4096 < to ==> #[trigger] next.user_byte(fa2, x)
                    == Some(0u8),
    {
        let region = next.table_frames().union(next.data_frames().difference(self.data_frames()));
        next.lemma_tables_data_disjoint(fa2);
        assert forall|x: int|
            0 <= x < VA_LIMIT && !(from <= x / 4096 < to) implies #[trigger] next.user_byte(fa2, x)
            == self.user_byte(fa0, x) by {
            let v = x / 4096;
            assert(leaf_entry(fa2.memory(), next.root(), v) == leaf_entry(
                fa0.memory(),
                self.root(),
                v,
            ));
            if let Some(e) = leaf_entry(fa0.memory(), self.root(), v) {
                self.lemma_entry(fa0, v);
                let p = e.target() as int;
                assert(!region.contains(p)) by {
                    if self.data_frames().contains(p) {
                        assert(next.data_frames().contains(p));
                    }
                    if next.table_frames().contains(p) {
                        next.lemma_table_allocated(fa2, p);
                        fa2.lemma_allocated_in_range(p);
                    }
                    if next.data_frames().contains(p) && !self.data_frames().contains(p) {
                        next.lemma_data_allocated(fa2, p);
                        fa2.lemma_allocated_in_range(p);
                    }
                }
            }
        }
        if before[a].framed() {
            assert forall|x: int|
                0 <= x < VA_LIMIT && from <= x / 4096 < to implies #[trigger] next.user_byte(fa2, x)
                == Some(0u8) by {
                let v = x / 4096;
                let na = next.areas()[a];
                assert(na.frame_at(v) is Some);
                next.lemma_entry(fa2, v);
                fa2.lemma_pool_start();
            }
        }
    }

    /// A data frame is a frame that the pool has handed out.
    proof fn lemma_data_allocated(&self, fa: &FrameAllocator, p: int)
        requires
            self.wf(fa),
            self.data_frames().contains(p),
        ensures
            fa.is_allocated(p),
    {
        reveal(MemorySet::data_ok);
    }

    /// The frame recorded for a page of an identical region is the frame of
    /// the page's own number.
    pub proof fn lemma_identical_slot(&self, fa: &FrameAllocator, a: int, v: int)
        requires
            self.wf(fa),
            0 <= a < self.areas().len(),
            self.areas()[a].frame_at(v) is Some,
            !self.areas()[a].framed(),
        ensures
            self.areas()[a].frame_at(v) == Some(v as u64),
            0 <= v < fa.pool_start(),
    {
        reveal(MemorySet::all_slots_ok);
        assert(self.slot_ok(fa, a, v, self.areas()[a].frame_at(v)->0));
    }

    /// The entry of a page for which a region records a frame points at
    /// that frame.
    pub proof fn lemma_slot_entry(&self, fa: &FrameAllocator, a: int, v: int)
        requires
            self.wf(fa),
            fa.wf(),
            0 <= a < self.areas().len(),
            self.areas()[a].frame_at(v) is Some,
        ensures
            0 <= v < VPN_LIMIT,
            leaf_entry(fa.memory(), self.root(), v) == Some(
                PageTableEntry::of(
                    self.areas()[a].frame_at(v)->0,
                    self.areas()[a].perm.bits | PTE_V,
                ),
            ),
            leaf_entry(fa.memory(), self.root(), v)->0.target() == self.areas()[a].frame_at(v)->0,
            leaf_entry(fa.memory(), self.root(), v)->0.flag_bits() == self.areas()[a].perm.bits
                | PTE_V,
            self.areas()[a].frame_at(v)->0 < fa.memory().num_frames(),
            self.areas()[a].shape_ok(),
            self.areas()[a].framed() ==> self.data_frames().contains(
                self.areas()[a].frame_at(v)->0 as int,
            ),
    {
        self.lemma_slot(fa, a, v);
        fa.lemma_pool_start();
        reveal(MemorySet::all_slots_ok);
    }

    /// Every region has a slot for each of its pages.
    pub proof fn lemma_shape(&self, fa: &FrameAllocator, a: int)
        requires
            self.wf(fa),
            0 <= a < self.areas().len(),
        ensures
            self.areas()[a].shape_ok(),
    {
        reveal(MemorySet::shapes_ok);
    }

    /// The frame that region `a` records for page `vpn`.
    pub fn slot(&self, fa: &FrameAllocator, a: usize, vpn: u64) -> (r: Option<u64>)
        requires
            self.wf(fa),
            a < self.areas().len(),
        ensures
            r == self.areas()[a as int].frame_at(vpn as int),
    {
        proof {
            self.lemma_shape(fa, a as int);
            assert(self.areas()[a as int] == self.areas@[a as int]@);
        }
        let area = &self.areas[a];
        if area.start_vpn <= vpn && vpn < area.end_vpn {
            area.data_frames[(vpn - area.start_vpn) as usize]
        } else {
            None
        }
    }

    /// The extent, kind and permissions of region `a`.
    pub fn area_info(&self, a: usize) -> (r: (u64, u64, MapType, MapPermission))
        requires
            a < self.areas().len(),
        ensures
            r.0 == self.areas()[a as int].start,
            r.1 == self.areas()[a as int].end,
            r.2 == self.areas()[a as int].map_type,
            r.3 == self.areas()[a as int].perm,
    {
        assert(self.areas()[a as int] == self.areas@[a as int]@);
        let area = &self.areas[a];
        (area.start_vpn, area.end_vpn, area.map_type, area.map_perm)
    }

    /// The page table of a sound address space is a tree of nodes in
    /// memory, rooted in a frame that the pool has handed out.
    pub proof fn lemma_structure(&self, fa: &FrameAllocator)
        requires
            self.wf(fa),
            fa.wf(),
        ensures
            structure(fa.memory(), self.root()),
            fa.is_allocated(self.root()),
            0 <= self.root() < PPN_LIMIT,
    {
        self.page_table.lemma_wf(fa);
        fa.lemma_allocated_in_range(self.root());
    }

    /// An owned frame is a frame that the pool has handed out.
    pub proof fn lemma_frame_allocated(&self, fa: &FrameAllocator, p: int)
        requires
            self.wf(fa),
            self.frames().contains(p),
        ensures
            fa.is_allocated(p),
    {
        reveal(MemorySet::data_ok);
        self.page_table.lemma_wf(fa);
    }

    /// A table node is a frame that the pool has handed out.
    proof fn lemma_table_allocated(&self, fa: &FrameAllocator, p: int)
        requires
            self.wf(fa),
            self.table_frames().contains(p),
        ensures
            fa.is_allocated(p),
    {
        self.page_table.lemma_wf(fa);
    }

    /// The invariant holds on when a region that records no frame leaves
    /// the list of regions.
    proof fn lemma_remove_wf(&self, next: &MemorySet, fa: &FrameAllocator, a: int)
        requires
            self.wf(fa),
            0 <= a < self.areas().len(),
            forall|v: int| (#[trigger] self.areas()[a].frame_at(v)) is None,
            next.page_table == self.page_table,
            next.data == self.data,
            next.areas() == self.areas().remove(a),
        ensures
            next.wf(fa),
    {
        reveal(MemorySet::shapes_ok);
        reveal(MemorySet::all_slots_ok);
        reveal(MemorySet::entries_backed);
        reveal(MemorySet::slots_distinct);
        reveal(MemorySet::data_ok);
        assert forall|b: int| 0 <= b < next.areas().len() implies (#[trigger] next.areas()[b]).shape_ok() by {
            let b0 = if b < a { b } else { b + 1 };
            assert(next.areas()[b] == self.areas()[b0]);
            assert(self.areas()[b0].shape_ok());
        }
        assert forall|b: int, v: int| 0 <= b < next.areas().len() implies ((
        #[trigger] next.areas()[b].frame_at(v)) matches Some(q) ==> next.slot_ok(fa, b, v, q)) by {
            let b0 = if b < a { b } else { b + 1 };
            assert(next.areas()[b] == self.areas()[b0]);
            if let Some(q) = next.areas()[b].frame_at(v) {
                assert(self.areas()[b0].frame_at(v) == Some(q));
                assert(self.slot_ok(fa, b0, v, q));
            }
        }
        assert forall|v: int|
            0 <= v < VPN_LIMIT && (#[trigger] leaf_entry(fa.memory(), next.root(), v))
                is Some implies next.backed(v) by {
            let b0 = choose|b: int|
                0 <= b < self.areas().len() && (#[trigger] self.areas()[b].frame_at(v)) is Some;
            assert(b0 != a);
            let b = if b0 < a { b0 } else { b0 - 1 };
            assert(next.areas()[b] == self.areas()[b0]);
            assert(next.areas()[b].frame_at(v) is Some);
        }
        assert forall|b: int, v: int, c: int, w: int|
            0 <= b < next.areas().len() && 0 <= c < next.areas().len() && (b != c || v != w) && (
            #[trigger] next.areas()[b].frame_at(v)) is Some && (#[trigger] next.areas()[c].frame_at(
                w,
            )) is Some implies next.areas()[b].frame_at(v) != next.areas()[c].frame_at(w) by {
            let b0 = if b < a { b } else { b + 1 };
            let c0 = if c < a { c } else { c + 1 };
            assert(next.areas()[b] == self.areas()[b0]);
            assert(next.areas()[c] == self.areas()[c0]);
            assert(self.areas()[b0].frame_at(v) is Some);
            assert(self.areas()[c0].frame_at(w) is Some);
        }
    }

    /// What [`MemorySet::remove_area_matching`] leaves behind when it
    /// removes region `a`: the region is gone from the list, its pages are
    /// unmapped, and the frames of its framed pages are back in the pool.
    pub open spec fn area_removed(
        &self,
        next: &MemorySet,
        fa0: &FrameAllocator,
        fa2: &FrameAllocator,
        a: int,
    ) -> bool {
        let oa = self.areas()[a];
        let gain: int = if oa.framed() { oa.mapped_count(oa.start, oa.end) as int } else { 0 };
        &&& next.wf(fa2)
        &&& next.root() == self.root()
        &&& next.areas() == self.areas().remove(a)
        &&& forall|v: int|
            0 <= v < VPN_LIMIT ==> #[trigger] leaf_entry(fa2.memory(), next.root(), v) == (
            if oa.frame_at(v) is Some {
                None
            } else {
                leaf_entry(fa0.memory(), self.root(), v)
            })
        &&& forall|v: int|
            oa.framed() ==> ((#[trigger] oa.frame_at(v)) matches Some(p) ==> !fa2.is_allocated(
                p as int,
            ))
        &&& next.nodes(fa2) == self.nodes(fa0)
        &&& next.table_frames() == self.table_frames()
        &&& next.data_frames().subset_of(self.data_frames())
        &&& fa2.free_count() == fa0.free_count() + gain
        &&& fa0.unchanged_outside(
            fa2,
            self.table_frames().union(self.data_frames().difference(next.data_frames())),
        )
    }

    /// Removes the first region that starts at page `vpn`: its pages are
    /// unmapped, the frames of its framed pages go back to the pool, and the
    /// region leaves the list. Returns `false`, and changes nothing, when no
    /// region starts there.
    pub fn remove_area_matching(&mut self, fa: &mut FrameAllocator, vpn: VirtPageNum) -> (r: bool)
        requires
            old(fa).wf(),
            old(self).wf(old(fa)),
        ensures
            final(fa).wf(),
            r == old(self).area_starting_at(vpn.0 as int) is Some,
            match old(self).area_starting_at(vpn.0 as int) {
                None => *final(self) == *old(self) && *final(fa) == *old(fa),
                Some(a) => old(self).area_removed(final(self), old(fa), final(fa), a),
            },
    {
        let a = match self.find_area(vpn) {
            None => {
                return false;
            },
            Some(a) => a,
        };
        proof {
            self.lemma_shape(fa, a as int);
        }
        let (start, end, map_type, perm) = self.area_info(a);
        let ghost self0 = *self;
        self.unmap_range(fa, a, start, end);
        let ghost mid = *self;
        let gone = self.areas.remove(a);
        proof {
            assert(self.areas() =~= mid.areas().remove(a as int));
            let oa = self0.areas()[a as int];
            let ma = mid.areas()[a as int];
            assert forall|v: int| (#[trigger] ma.frame_at(v)) is None by {
                if start <= v < end {
                    assert(ma.frame_at(v) is None);
                }
            }
            mid.lemma_remove_wf(self, fa, a as int);
            assert(self.areas() =~= self0.areas().remove(a as int)) by {
                assert forall|b: int| 0 <= b < self.areas().len() implies self.areas()[b]
                    == self0.areas().remove(a as int)[b] by {
                    let b0 = if b < a { b } else { b + 1 };
                    assert(mid.areas()[b0] == self0.areas()[b0]);
                }
            }
            assert(self.nodes(fa) == self0.nodes(old(fa)));
        }
        true
    }

    /// What a read in user mode at address `va` comes to: the byte, when
    /// the page is mapped for reading by the user.
    pub open spec fn user_load(&self, fa: &FrameAllocator, va: int) -> Result<u8, AccessError> {
        match leaf_entry(fa.memory(), self.root(), va / 4096) {
            None => Err(AccessError::NotMapped),
            Some(e) => if e.flag_bits() & PTE_U != 0 && e.flag_bits() & PTE_R != 0 {
                Ok(fa.memory().frame(e.target() as int)[va % 4096])
            } else {
                Err(AccessError::PermissionDenied)
            },
        }
    }

    /// Whether a write in user mode at address `va` is allowed, and why not.
    pub open spec fn user_store(&self, fa: &FrameAllocator, va: int) -> Result<(), AccessError> {
        match leaf_entry(fa.memory(), self.root(), va / 4096) {
            None => Err(AccessError::NotMapped),
            Some(e) => if e.flag_bits() & PTE_U != 0 && e.flag_bits() & PTE_W != 0 {
                Ok(())
            } else {
                Err(AccessError::PermissionDenied)
            },
        }
    }

    /// Reads the byte at address `va` as the user would: the page must be
    /// mapped, for the user and for reading.
    pub fn load_byte(&self, fa: &FrameAllocator, va: VirtAddr) -> (r: Result<u8, AccessError>)
        requires
            fa.wf(),
            self.wf(fa),
            va.0 < VA_LIMIT,
        ensures
            r == self.user_load(fa, va.0 as int),
    {
        match self.page_table.translate(fa, va.0 / 4096) {
            None => Err(AccessError::NotMapped),
            Some(e) => {
                if e.user() && e.readable() {
                    proof {
                        self.lemma_entry(fa, va.0 as int / 4096);
                    }
                    Ok(fa.read_byte(e.ppn(), va.0 % 4096))
                } else {
                    Err(AccessError::PermissionDenied)
                }
            },
        }
    }

    /// Writes `b` at address `va` as the user would: the page must be
    /// mapped, for the user and for writing. A write that is refused changes
    /// nothing; one that is done changes that one byte of memory.
    pub fn store_byte(&self, fa: &mut FrameAllocator, va: VirtAddr, b: u8) -> (r: Result<
        (),
        AccessError,
    >)
        requires
            old(fa).wf(),
            self.wf(old(fa)),
            va.0 < VA_LIMIT,
        ensures
            final(fa).wf(),
            r == self.user_store(old(fa), va.0 as int),
            r is Err ==> *final(fa) == *old(fa),
            r is Ok ==> {
                let p = leaf_entry(old(fa).memory(), self.root(), va.0 as int / 4096)->0.target() as int;
                &&& self.wf(final(fa))
                &&& old(fa).same_allocation(final(fa))
                &&& old(fa).memory().same_except(&final(fa).memory(), p)
                &&& final(fa).memory().frame(p) == old(fa).memory().frame(p).update(
                    va.0 as int % 4096,
                    b,
                )
                &&& forall|v: int|
                    0 <= v < VPN_LIMIT ==> #[trigger] leaf_entry(final(fa).memory(), self.root(), v)
                        == leaf_entry(old(fa).memory(), self.root(), v)
            },
    {
        match self.page_table.translate(fa, va.0 / 4096) {
            None => Err(AccessError::NotMapped),
            Some(e) => {
                if e.user() && e.writable() {
                    let done = self.write_byte(fa, va, b);
                    Ok(())
                } else {
                    Err(AccessError::PermissionDenied)
                }
            },
        }
    }

    /// An address space with an empty page table and no region; `None` when
    /// no frame is left for the root.
    pub fn new_bare(fa: &mut FrameAllocator) -> (r: Option<MemorySet>)
        requires
            old(fa).wf(),
        ensures
            final(fa).wf(),
            r is None <==> old(fa).free_count() == 0,
            r is None ==> *final(fa) == *old(fa),
            r matches Some(ms) ==> {
                &&& ms.wf(final(fa))
                &&& ms.areas().len() == 0
                &&& ms.frames() == set![ms.root()]
                &&& ms.data_frames() == Set::<int>::empty()
                &&& !old(fa).is_allocated(ms.root())
                &&& old(fa).unchanged_outside(final(fa), ms.frames())
                &&& final(fa).free_count() == old(fa).free_count() - 1
                &&& ms.nodes(final(fa)) == set![0int]
                &&& forall|v: int|
                    0 <= v < VPN_LIMIT ==> (#[trigger] leaf_entry(final(fa).memory(), ms.root(), v))
                        is None
            },
    {
        match PageTable::new(fa) {
            None => None,
            Some(page_table) => {
                let ms = MemorySet { page_table, areas: Vec::new(), data: Ghost(Set::empty()) };
                proof {
                    reveal(MemorySet::shapes_ok);
                    reveal(MemorySet::all_slots_ok);
                    reveal(MemorySet::entries_backed);
                    reveal(MemorySet::slots_distinct);
                    reveal(MemorySet::data_ok);
                    assert(ms.frames() =~= set![ms.root()]);
                    assert(ms.data_frames() =~= Set::<int>::empty());
                    assert(ms.nodes(fa) =~= set![0int]);
                    assert(ms.areas() =~= Seq::<AreaView>::empty());
                }
                Some(ms)
            },
        }
    }

    /// The value that names this address space to the hardware.
    pub fn token(&self, fa: &FrameAllocator) -> (t: u64)
        requires
            fa.wf(),
            self.wf(fa),
        ensures
            t == PageTable::token_of(self.root()),
    {
        proof {
            self.lemma_wf(fa);
            fa.lemma_allocated_in_range(self.root());
        }
        self.page_table.token()
    }

    /// Looks page `vpn` up.
    pub fn translate(&self, fa: &FrameAllocator, vpn: VirtPageNum) -> (r: Option<PageTableEntry>)
        requires
            fa.wf(),
            self.wf(fa),
            vpn.0 < VPN_LIMIT,
        ensures
            r == self.entry(fa, vpn.0 as int),
    {
        proof {
            self.lemma_wf(fa);
        }
        self.page_table.translate(fa, vpn.0)
    }

    /// Number of regions.
    pub fn area_count(&self) -> (n: usize)
        ensures
            n == self.areas().len(),
    {
        self.areas.len()
    }
}

} // verus!
