//! Building an address space from a program image.
use vstd::prelude::*;
use crate::config::{TRAP_CONTEXT_BASE, USER_BASE, USER_STACK_SIZE, VA_LIMIT, VPN_LIMIT};
use crate::mm::address::VirtAddr;
use crate::mm::frame_allocator::FrameAllocator;
use crate::mm::image::{image_ok, layout_ok, raw_image, segment_ok, segments_end, stack_bottom_vpn, stack_top_vpn, ProgramImage, Segment, PF_R, PF_W, PF_X};
use crate::mm::memory_set::{nodes_with_range, range_cost, MapPermission, MapType, MemorySet, PERM_R, PERM_U, PERM_W, PERM_X};
use crate::mm::page_table::{leaf_entry, MapError, PTE_V};

verus! {

/// One region of a planned address space: the pages `[start, end)`, how
/// they are mapped, and the segment whose bytes they get, if any.
#[derive(Clone, Copy)]
pub struct Region {
    pub start: u64,
    pub end: u64,
    pub map_type: MapType,
    pub perm: MapPermission,
    pub fill: Option<Segment>,
}

impl Region {
    /// The byte that the region holds at address `x` once it is built.
    pub open spec fn byte_at(self, file: Seq<u8>, x: int) -> u8 {
        match self.fill {
            Some(seg) => seg.byte_at(file, x),
            None => 0,
        }
    }

    /// Whether page `v` belongs to the region.
    pub open spec fn has(self, v: int) -> bool {
        self.start <= v < self.end
    }
}

/// Whether page `v` belongs to one of the first `k` regions.
pub open spec fn in_regions(regions: Seq<Region>, k: int, v: int) -> bool
    decreases k,
{
    if k <= 0 {
        false
    } else {
        regions[k - 1].has(v) || in_regions(regions, k - 1, v)
    }
}

/// Frames that building the regions from index `k` on takes from the pool
/// when the table nodes `nodes` exist.
pub open spec fn regions_cost(nodes: Set<int>, regions: Seq<Region>, k: int) -> nat
    decreases regions.len() - k,
{
    if k < 0 || k >= regions.len() {
        0
    } else {
        let r = regions[k];
        range_cost(nodes, r.start as int, r.end as int, r.map_type == MapType::Framed)
            + regions_cost(
            nodes_with_range(nodes, r.start as int, r.end as int),
            regions,
            k + 1,
        )
    }
}

/// The plan can be built: the regions come in ascending order inside the
/// address space, identical regions lie below the pool, and a segment's
/// bytes lie in the file and in its region.
pub open spec fn regions_ok(regions: Seq<Region>, file_len: int, pool_start: int) -> bool {
    forall|j: int| 0 <= j < regions.len() ==> #[trigger] region_ok(regions, file_len, pool_start, j)
}

/// Region `j` of the plan can be built after those before it.
pub open spec fn region_ok(regions: Seq<Region>, file_len: int, pool_start: int, j: int) -> bool {
    let r = regions[j];
    &&& r.start <= r.end <= VPN_LIMIT
    &&& j > 0 ==> regions[j - 1].end <= r.start
    &&& r.map_type == MapType::Identical ==> r.end <= pool_start && r.fill is None
    &&& r.fill matches Some(seg) ==> r.map_type == MapType::Framed && r.start * 4096 <= seg.vaddr
        && seg.vaddr + seg.file_size <= r.end * 4096 && seg.offset + seg.file_size <= file_len
}

/// A page of the first `k` regions lies below the end of region `k - 1`.
pub proof fn lemma_in_regions_below(regions: Seq<Region>, file_len: int, ps: int, k: int, v: int)
    requires
        regions_ok(regions, file_len, ps),
        0 <= k <= regions.len(),
        in_regions(regions, k, v),
    ensures
        k > 0,
        v < regions[k - 1].end,
    decreases k,
{
    if k > 0 && !regions[k - 1].has(v) {
        lemma_in_regions_below(regions, file_len, ps, k - 1, v);
        assert(region_ok(regions, file_len, ps, k - 1));
    }
}

/// A page of region `j` belongs to the first `k` regions, for `j < k`.
pub proof fn lemma_in_regions_has(regions: Seq<Region>, k: int, j: int, v: int)
    requires
        0 <= j < k <= regions.len(),
        regions[j].has(v),
    ensures
        in_regions(regions, k, v),
    decreases k,
{
    if j < k - 1 {
        lemma_in_regions_has(regions, k - 1, j, v);
    }
}

impl MemorySet {
    /// The state after the first `k` regions of a plan were built.
    pub open spec fn building(
        &self,
        fa0: &FrameAllocator,
        fa: &FrameAllocator,
        regions: Seq<Region>,
        file: Seq<u8>,
        k: int,
    ) -> bool {
        &&& self.wf(fa)
        &&& self.areas().len() == k
        &&& forall|j: int|
            0 <= j < k ==> {
                let a = #[trigger] self.areas()[j];
                a.start == regions[j].start && a.end == regions[j].end && a.map_type
                    == regions[j].map_type && a.perm == regions[j].perm
            }
        &&& forall|v: int|
            0 <= v < VPN_LIMIT ==> (#[trigger] leaf_entry(fa.memory(), self.root(), v) is Some
                <==> in_regions(regions, k, v))
        &&& forall|j: int, v: int|
            0 <= j < k && #[trigger] regions[j].has(v) ==> {
                let e = #[trigger] leaf_entry(fa.memory(), self.root(), v);
                e is Some && e->0.flag_bits() == regions[j].perm.bits | PTE_V && (
                regions[j].map_type == MapType::Identical ==> e->0.target() == v)
            }
        &&& forall|j: int, x: int|
            0 <= j < k && 0 <= x < VA_LIMIT && #[trigger] regions[j].has(x / 4096)
                && regions[j].map_type == MapType::Framed ==> #[trigger] self.user_byte(fa, x)
                == Some(regions[j].byte_at(file, x))
        &&& forall|q: int| #[trigger] self.frames().contains(q) ==> !fa0.is_allocated(q)
        &&& fa0.unchanged_outside(fa, self.frames().union(Self::kernel_frames(fa0)))
        &&& fa.free_count() - regions_cost(self.nodes(fa), regions, k) == fa0.free_count() - 1
            - regions_cost(set![0int], regions, 0)
    }

    /// What is known when region `k` was added to `self`, giving `mid`.
    pub open spec fn build_step(
        &self,
        mid: &MemorySet,
        fa0: &FrameAllocator,
        fac: &FrameAllocator,
        fam: &FrameAllocator,
        fan: &FrameAllocator,
        regions: Seq<Region>,
        file: Seq<u8>,
        k: int,
    ) -> bool {
        &&& fa0.wf()
        &&& fac.wf()
        &&& fam.wf()
        &&& fan.wf()
        &&& 0 <= k < regions.len()
        &&& regions_ok(regions, file.len() as int, fa0.pool_start())
        &&& self.building(fa0, fac, regions, file, k)
        &&& self.mapped_range(
            self.areas().push(
                Self::blank_area(
                    regions[k].start as int,
                    regions[k].end as int,
                    regions[k].map_type,
                    regions[k].perm,
                ),
            ),
            mid,
            fac,
            fam,
            k,
            regions[k].start as int,
            regions[k].end as int,
        )
        &&& match regions[k].fill {
            Some(seg) => mid.wrote_bytes(
                fam,
                fan,
                seg.vaddr as int,
                file,
                seg.offset as int,
                seg.file_size as int,
            ),
            None => fan == fam,
        }
    }

    proof fn lemma_step_areas(
        &self,
        mid: &MemorySet,
        fa0: &FrameAllocator,
        fac: &FrameAllocator,
        fam: &FrameAllocator,
        fan: &FrameAllocator,
        regions: Seq<Region>,
        file: Seq<u8>,
        k: int,
    )
        requires
            self.build_step(mid, fa0, fac, fam, fan, regions, file, k),
        ensures
            mid.wf(fan),
            mid.areas().len() == k + 1,
            forall|j: int|
                0 <= j < k + 1 ==> {
                    let a = #[trigger] mid.areas()[j];
                    a.start == regions[j].start && a.end == regions[j].end && a.map_type
                        == regions[j].map_type && a.perm == regions[j].perm
                },
            forall|v: int|
                0 <= v < VPN_LIMIT ==> #[trigger] leaf_entry(fan.memory(), mid.root(), v) == (
                if regions[k].has(v) {
                    leaf_entry(fam.memory(), mid.root(), v)
                } else {
                    leaf_entry(fac.memory(), self.root(), v)
                }),
            forall|v: int|
                regions[k].has(v) ==> (#[trigger] mid.areas()[k].frame_at(v)) is Some
                    && leaf_entry(fam.memory(), mid.root(), v) is Some && leaf_entry(
                    fam.memory(),
                    mid.root(),
                    v,
                )->0.flag_bits() == regions[k].perm.bits | PTE_V,
            mid.nodes(fan) == nodes_with_range(
                self.nodes(fac),
                regions[k].start as int,
                regions[k].end as int,
            ),
            fan.free_count() == fac.free_count() - range_cost(
                self.nodes(fac),
                regions[k].start as int,
                regions[k].end as int,
                regions[k].map_type == MapType::Framed,
            ),
    {
        let r = regions[k];
        let s = r.start as int;
        let e = r.end as int;
        let before = self.areas().push(Self::blank_area(s, e, r.map_type, r.perm));
        assert(region_ok(regions, file.len() as int, fa0.pool_start(), k));
        assert forall|j: int| 0 <= j < k + 1 implies {
            let a = #[trigger] mid.areas()[j];
            a.start == regions[j].start && a.end == regions[j].end && a.map_type
                == regions[j].map_type && a.perm == regions[j].perm
        } by {
            if j < k {
                assert(mid.areas()[j] == before[j]);
                assert(before[j] == self.areas()[j]);
            }
        }
        assert(mid.nodes(fan) =~= mid.nodes(fam));
        fam.lemma_pool_start();
        mid.lemma_wf(fam);
        assert forall|v: int| regions[k].has(v) implies (#[trigger] mid.areas()[k].frame_at(v))
            is Some && leaf_entry(fam.memory(), mid.root(), v) is Some && leaf_entry(
            fam.memory(),
            mid.root(),
            v,
        )->0.flag_bits() == regions[k].perm.bits | PTE_V by {
            assert(mid.areas()[k].frame_at(v) is Some);
            mid.lemma_slot_entry(fam, k, v);
        }
    }

    #[verifier::rlimit(40)]
    proof fn lemma_step_entries(
        &self,
        mid: &MemorySet,
        fa0: &FrameAllocator,
        fac: &FrameAllocator,
        fam: &FrameAllocator,
        fan: &FrameAllocator,
        regions: Seq<Region>,
        file: Seq<u8>,
        k: int,
    )
        requires
            self.build_step(mid, fa0, fac, fam, fan, regions, file, k),
        ensures
            forall|v: int|
                0 <= v < VPN_LIMIT ==> (#[trigger] leaf_entry(fan.memory(), mid.root(), v) is Some
                    <==> in_regions(regions, k + 1, v)),
            forall|j: int, v: int|
                0 <= j < k + 1 && #[trigger] regions[j].has(v) ==> {
                    let e = #[trigger] leaf_entry(fan.memory(), mid.root(), v);
                    e is Some && e->0.flag_bits() == regions[j].perm.bits | PTE_V && (
                    regions[j].map_type == MapType::Identical ==> e->0.target() == v)
                },
    {
        self.lemma_step_areas(mid, fa0, fac, fam, fan, regions, file, k);
        assert(region_ok(regions, file.len() as int, fa0.pool_start(), k));
        assert forall|v: int| 0 <= v < VPN_LIMIT implies (#[trigger] leaf_entry(
            fan.memory(),
            mid.root(),
            v,
        ) is Some <==> in_regions(regions, k + 1, v)) by {
            if regions[k].has(v) {
                assert(mid.areas()[k].frame_at(v) is Some);
            }
        }
        assert forall|j: int, v: int| 0 <= j < k + 1 && #[trigger] regions[j].has(v) implies {
            let e = #[trigger] leaf_entry(fan.memory(), mid.root(), v);
            e is Some && e->0.flag_bits() == regions[j].perm.bits | PTE_V && (
            regions[j].map_type == MapType::Identical ==> e->0.target() == v)
        } by {
            assert(region_ok(regions, file.len() as int, fa0.pool_start(), j));
            if j < k {
                lemma_in_regions_has(regions, k, j, v);
                lemma_in_regions_below(regions, file.len() as int, fa0.pool_start(), k, v);
            } else {
                assert(mid.areas()[k].frame_at(v) is Some);
                if regions[k].map_type == MapType::Identical {
                    mid.lemma_identical_slot(fam, k, v);
                    mid.lemma_slot_entry(fam, k, v);
                    fam.lemma_pool_start();
                }
            }
        }
    }

    #[verifier::rlimit(40)]
    proof fn lemma_step_bytes(
        &self,
        mid: &MemorySet,
        fa0: &FrameAllocator,
        fac: &FrameAllocator,
        fam: &FrameAllocator,
        fan: &FrameAllocator,
        regions: Seq<Region>,
        file: Seq<u8>,
        k: int,
    )
        requires
            self.build_step(mid, fa0, fac, fam, fan, regions, file, k),
        ensures
            forall|j: int, x: int|
                0 <= j < k + 1 && 0 <= x < VA_LIMIT && #[trigger] regions[j].has(x / 4096)
                    && regions[j].map_type == MapType::Framed ==> #[trigger] mid.user_byte(fan, x)
                    == Some(regions[j].byte_at(file, x)),
    {
        let r = regions[k];
        let s = r.start as int;
        let e = r.end as int;
        let before = self.areas().push(Self::blank_area(s, e, r.map_type, r.perm));
        assert(region_ok(regions, file.len() as int, fa0.pool_start(), k));
        self.lemma_mapped_range_bytes(before, mid, fac, fam, k, s, e);
        assert forall|x: int| 0 <= x < VA_LIMIT implies #[trigger] mid.user_byte(fan, x) == (
        if r.fill is Some && r.fill->0.vaddr <= x < r.fill->0.vaddr + r.fill->0.file_size {
            Some(file[r.fill->0.offset + (x - r.fill->0.vaddr)])
        } else {
            mid.user_byte(fam, x)
        }) by {
            if let Some(seg) = r.fill {
                if seg.vaddr <= x < seg.vaddr + seg.file_size {
                    let i = x - seg.vaddr;
                    assert(mid.user_byte(fan, seg.vaddr + i) == Some(file[seg.offset + i]));
                }
            }
        }
        assert forall|j: int, x: int|
            0 <= j < k + 1 && 0 <= x < VA_LIMIT && #[trigger] regions[j].has(x / 4096)
                && regions[j].map_type == MapType::Framed implies #[trigger] mid.user_byte(fan, x)
            == Some(regions[j].byte_at(file, x)) by {
            let v = x / 4096;
            if j < k {
                lemma_in_regions_has(regions, k, j, v);
                lemma_in_regions_below(regions, file.len() as int, fa0.pool_start(), k, v);
                assert(mid.user_byte(fam, x) == self.user_byte(fac, x));
                assert(self.user_byte(fac, x) == Some(regions[j].byte_at(file, x)));
            } else {
                assert(mid.user_byte(fam, x) == Some(0u8));
            }
        }
    }

    proof fn lemma_step_frames(
        &self,
        mid: &MemorySet,
        fa0: &FrameAllocator,
        fac: &FrameAllocator,
        fam: &FrameAllocator,
        fan: &FrameAllocator,
        regions: Seq<Region>,
        file: Seq<u8>,
        k: int,
    )
        requires
            self.build_step(mid, fa0, fac, fam, fan, regions, file, k),
        ensures
            forall|q: int| #[trigger] mid.frames().contains(q) ==> !fa0.is_allocated(q),
            fa0.unchanged_outside(fan, mid.frames().union(Self::kernel_frames(fa0))),
    {
        let kf = Self::kernel_frames(fa0);
        mid.lemma_wf(fam);
        assert forall|q: int| #[trigger] mid.frames().contains(q) implies !fa0.is_allocated(q) by {
            if !self.frames().contains(q) {
                assert(!fac.is_allocated(q));
                assert(fam.is_allocated(q));
                fam.lemma_allocated_in_range(q);
                assert(!self.frames().union(kf).contains(q));
            }
        }
        let rc = self.frames().union(kf);
        let rm = mid.table_frames().union(mid.data_frames().difference(self.data_frames()));
        let rn = mid.frames().union(kf);
        assert(rc.subset_of(rn));
        assert(rm.subset_of(rn));
        fac.lemma_unchanged_wider(fam, rm, rn);
        fa0.lemma_unchanged_trans(fac, fam, rc, rn);
        if regions[k].fill is Some {
            assert(Self::kernel_frames(fam) =~= kf);
            assert(mid.data_frames().union(Self::kernel_frames(fam)).subset_of(rn));
            fam.lemma_unchanged_wider(fan, mid.data_frames().union(Self::kernel_frames(fam)), rn);
            fa0.lemma_unchanged_trans(fam, fan, rn, rn);
        }
    }

    /// One more region built.
    proof fn lemma_build_step(
        &self,
        mid: &MemorySet,
        fa0: &FrameAllocator,
        fac: &FrameAllocator,
        fam: &FrameAllocator,
        fan: &FrameAllocator,
        regions: Seq<Region>,
        file: Seq<u8>,
        k: int,
    )
        requires
            self.build_step(mid, fa0, fac, fam, fan, regions, file, k),
        ensures
            mid.building(fa0, fan, regions, file, k + 1),
    {
        self.lemma_step_areas(mid, fa0, fac, fam, fan, regions, file, k);
        self.lemma_step_entries(mid, fa0, fac, fam, fan, regions, file, k);
        self.lemma_step_bytes(mid, fa0, fac, fam, fan, regions, file, k);
        self.lemma_step_frames(mid, fa0, fac, fam, fan, regions, file, k);
    }

    /// Builds an address space after a plan: a fresh page table, then the
    /// regions one by one, each mapped whole and filled from `file` where
    /// the plan says so. Runs out of frames exactly when the pool holds
    /// fewer than the root and the regions cost.
    #[verifier::rlimit(40)]
    pub fn build(fa: &mut FrameAllocator, regions: &Vec<Region>, file: &Vec<u8>) -> (r: Result<
        MemorySet,
        MapError,
    >)
        requires
            old(fa).wf(),
            regions_ok(regions@, file@.len() as int, old(fa).pool_start()),
        ensures
            final(fa).wf(),
            r is Err <==> old(fa).free_count() < 1 + regions_cost(set![0int], regions@, 0),
            r is Err ==> r == Err::<MemorySet, MapError>(MapError::OutOfFrames),
            r matches Ok(ms) ==> ms.building(
                old(fa),
                final(fa),
                regions@,
                file@,
                regions@.len() as int,
            ),
    {
        let ghost fa0 = *fa;
        let mut ms = match MemorySet::new_bare(fa) {
            None => {
                return Err(MapError::OutOfFrames);
            },
            Some(ms) => ms,
        };
        let n = regions.len();
        let flen = file.len();
        let mut k: usize = 0;
        proof {
            fa0.lemma_unchanged_wider(
                fa,
                ms.frames(),
                ms.frames().union(MemorySet::kernel_frames(&fa0)),
            );
        }
        while k < n
            invariant
                k <= n,
                n == regions@.len(),
                flen == file@.len(),
                fa0 == *old(fa),
                fa0.wf(),
                fa.wf(),
                regions_ok(regions@, file@.len() as int, fa0.pool_start()),
                ms.building(&fa0, fa, regions@, file@, k as int),
            decreases n - k,
        {
            let ghost fac = *fa;
            let ghost msc = ms;
            let r = regions[k];
            proof {
                assert(region_ok(regions@, file@.len() as int, fa0.pool_start(), k as int));
                assert forall|v: int| r.start <= v < r.end implies (#[trigger] leaf_entry(
                    fa.memory(),
                    ms.root(),
                    v,
                )) is None by {
                    if in_regions(regions@, k as int, v) {
                        lemma_in_regions_below(
                            regions@,
                            file@.len() as int,
                            fa0.pool_start(),
                            k as int,
                            v,
                        );
                    }
                }
                assert(fa.pool_start() == fa0.pool_start());
            }
            match ms.add_region(fa, r.start, r.end, r.map_type, r.perm) {
                Err(e) => {
                    return Err(MapError::OutOfFrames);
                },
                Ok(()) => {},
            }
            let ghost fam = *fa;
            match r.fill {
                None => {},
                Some(seg) => {
                    proof {
                        assert forall|v: int|
                            seg.vaddr as int / 4096 <= v && v * 4096 < seg.vaddr
                                + seg.file_size implies (#[trigger] leaf_entry(
                            fa.memory(),
                            ms.root(),
                            v,
                        )) is Some by {
                            assert(ms.areas()[k as int].frame_at(v) is Some);
                        }
                    }
                    let ok = ms.write_bytes(
                        fa,
                        VirtAddr(seg.vaddr),
                        file,
                        seg.offset as usize,
                        seg.file_size as usize,
                    );
                },
            }
            proof {
                msc.lemma_build_step(&ms, &fa0, &fac, &fam, fa, regions@, file@, k as int);
            }
            k += 1;
        }
        Ok(ms)
    }
}

impl MemorySet {
    /// The address space is what a plan built and `file` filled: a region
    /// for each region of the plan; a page mapped exactly when it belongs to
    /// one of them, with that region's permissions; and in the framed
    /// regions the bytes that the plan gives them.
    pub open spec fn loaded(&self, fa: &FrameAllocator, regions: Seq<Region>, file: Seq<u8>) -> bool {
        let k = regions.len() as int;
        &&& self.wf(fa)
        &&& self.areas().len() == k
        &&& forall|j: int|
            0 <= j < k ==> {
                let a = #[trigger] self.areas()[j];
                a.start == regions[j].start && a.end == regions[j].end && a.map_type
                    == regions[j].map_type && a.perm == regions[j].perm
            }
        &&& forall|v: int|
            0 <= v < VPN_LIMIT ==> (#[trigger] leaf_entry(fa.memory(), self.root(), v) is Some
                <==> in_regions(regions, k, v))
        &&& forall|j: int, v: int|
            0 <= j < k && #[trigger] regions[j].has(v) ==> {
                let e = #[trigger] leaf_entry(fa.memory(), self.root(), v);
                e is Some && e->0.flag_bits() == regions[j].perm.bits | PTE_V && (
                regions[j].map_type == MapType::Identical ==> e->0.target() == v)
            }
        &&& forall|j: int, x: int|
            0 <= j < k && 0 <= x < VA_LIMIT && #[trigger] regions[j].has(x / 4096)
                && regions[j].map_type == MapType::Framed ==> #[trigger] self.user_byte(fa, x)
                == Some(regions[j].byte_at(file, x))
    }

    /// An address space that was built is loaded, and stays so when memory
    /// changes outside its frames and the kernel's.
    pub proof fn lemma_loaded_kept(
        &self,
        fa0: &FrameAllocator,
        fam: &FrameAllocator,
        fa1: &FrameAllocator,
        regions: Seq<Region>,
        file: Seq<u8>,
        region: Set<int>,
    )
        requires
            fam.wf(),
            self.building(fa0, fam, regions, file, regions.len() as int),
            fam.unchanged_outside(fa1, region),
            self.frames().disjoint(region),
            forall|q: int| #[trigger] region.contains(q) ==> fam.pool_start() <= q,
        ensures
            self.loaded(fam, regions, file),
            self.loaded(fa1, regions, file),
    {
        self.lemma_unchanged_outside(fam, fa1, region);
        self.lemma_wf(fam);
        let k = regions.len() as int;
        assert forall|v: int| 0 <= v < VPN_LIMIT implies (#[trigger] leaf_entry(
            fa1.memory(),
            self.root(),
            v,
        ) is Some <==> in_regions(regions, k, v)) by {
            assert(leaf_entry(fam.memory(), self.root(), v) is Some <==> in_regions(regions, k, v));
        }
        assert forall|j: int, v: int| 0 <= j < k && #[trigger] regions[j].has(v) implies {
            let e = #[trigger] leaf_entry(fa1.memory(), self.root(), v);
            e is Some && e->0.flag_bits() == regions[j].perm.bits | PTE_V && (
            regions[j].map_type == MapType::Identical ==> e->0.target() == v)
        } by {
            let e0 = leaf_entry(fam.memory(), self.root(), v);
            assert(e0 is Some);
            self.lemma_shape(fam, j);
            let a = self.areas()[j];
            assert(a.end == regions[j].end);
        }
        assert forall|j: int, x: int|
            0 <= j < regions.len() && 0 <= x < VA_LIMIT && #[trigger] regions[j].has(x / 4096)
                && regions[j].map_type == MapType::Framed implies #[trigger] self.user_byte(fa1, x)
            == Some(regions[j].byte_at(file, x)) by {
            let v = x / 4096;
            assert(self.user_byte(fam, x) == Some(regions[j].byte_at(file, x)));
            let e = leaf_entry(fam.memory(), self.root(), v);
            assert(e is Some);
            let p = e->0.target() as int;
            assert(!region.contains(p)) by {
                if self.data_frames().contains(p) {
                    assert(self.frames().contains(p));
                }
            }
        }
    }
}

/// The permissions of a segment with the flags `flags`: user access, and
/// read, write and execute as the flags say.
pub open spec fn seg_perm(flags: u32) -> u8 {
    PERM_U | (if flags & PF_R != 0 {
        PERM_R
    } else {
        0u8
    }) | (if flags & PF_W != 0 {
        PERM_W
    } else {
        0u8
    }) | (if flags & PF_X != 0 {
        PERM_X
    } else {
        0u8
    })
}

/// The permissions of a segment with the flags `flags`.
pub fn segment_perm(flags: u32) -> (p: MapPermission)
    ensures
        p.bits == seg_perm(flags),
{
    let r: u8 = if flags & PF_R != 0 { PERM_R } else { 0u8 };
    let w: u8 = if flags & PF_W != 0 { PERM_W } else { 0u8 };
    let x: u8 = if flags & PF_X != 0 { PERM_X } else { 0u8 };
    MapPermission { bits: PERM_U | r | w | x }
}

/// Region `j` of the address space of a program with the segments
/// `segments`, under a kernel that keeps `pool_start` frames.
///
/// First comes the kernel's region, mapped identically and without user
/// access; then one framed region per segment; then the user stack, one
/// guard page above the last segment; then the heap, empty, right above the
/// stack; last the page of the trap context.
pub open spec fn region_of(segments: Seq<Segment>, pool_start: int, j: int) -> Region {
    let n = segments.len() as int;
    if j <= 0 {
        Region {
            start: 0,
            end: pool_start as u64,
            map_type: MapType::Identical,
            perm: MapPermission { bits: PERM_R | PERM_X },
            fill: None,
        }
    } else if j <= n {
        let seg = segments[j - 1];
        Region {
            start: seg.start_vpn() as u64,
            end: seg.end_vpn() as u64,
            map_type: MapType::Framed,
            perm: MapPermission { bits: seg_perm(seg.flags) },
            fill: Some(seg),
        }
    } else if j == n + 1 {
        Region {
            start: stack_bottom_vpn(segments) as u64,
            end: stack_top_vpn(segments) as u64,
            map_type: MapType::Framed,
            perm: MapPermission { bits: PERM_R | PERM_W | PERM_U },
            fill: None,
        }
    } else if j == n + 2 {
        Region {
            start: stack_top_vpn(segments) as u64,
            end: stack_top_vpn(segments) as u64,
            map_type: MapType::Framed,
            perm: MapPermission { bits: PERM_R | PERM_W | PERM_U },
            fill: None,
        }
    } else {
        Region {
            start: (TRAP_CONTEXT_BASE / 4096) as u64,
            end: (TRAP_CONTEXT_BASE / 4096 + 1) as u64,
            map_type: MapType::Framed,
            perm: MapPermission { bits: PERM_R | PERM_W },
            fill: None,
        }
    }
}

/// The regions of the address space of a program, in the order in which
/// they are built.
pub open spec fn image_layout(segments: Seq<Segment>, pool_start: int) -> Seq<Region> {
    Seq::new((segments.len() + 4) as nat, |j: int| region_of(segments, pool_start, j))
}

/// The layout of an image that can be loaded is a plan that can be built.
pub proof fn lemma_layout_ok(segments: Seq<Segment>, file_len: int, pool_start: int)
    requires
        layout_ok(segments, file_len),
        0 <= pool_start <= USER_BASE / 4096,
    ensures
        regions_ok(image_layout(segments, pool_start), file_len, pool_start),
{
    let regions = image_layout(segments, pool_start);
    let n = segments.len() as int;
    assert forall|j: int| 0 <= j < regions.len() implies #[trigger] region_ok(
        regions,
        file_len,
        pool_start,
        j,
    ) by {
        if 1 <= j <= n {
            assert(segment_ok(segments, file_len, j - 1));
            if j >= 2 {
                assert(segment_ok(segments, file_len, j - 2));
            }
        }
        if j == n + 1 && n >= 1 {
            assert(segment_ok(segments, file_len, n - 1));
        }
    }
}

/// The segments of an image that can be loaded end one after the other.
pub proof fn lemma_segments_end_mono(segments: Seq<Segment>, file_len: int, i: int)
    requires
        layout_ok(segments, file_len),
        0 <= i <= segments.len(),
    ensures
        USER_BASE as int / 4096 <= segments_end(segments, i) <= segments_end(
            segments,
            segments.len() as int,
        ),
    decreases segments.len() - i,
{
    if i < segments.len() {
        assert(segment_ok(segments, file_len, i));
        lemma_segments_end_mono(segments, file_len, i + 1);
    }
    if i > 0 {
        lemma_segments_end_low(segments, file_len, i);
    }
}

/// No segment of an image that can be loaded ends below the first user page.
pub proof fn lemma_segments_end_low(segments: Seq<Segment>, file_len: int, i: int)
    requires
        layout_ok(segments, file_len),
        0 <= i <= segments.len(),
    ensures
        USER_BASE as int / 4096 <= segments_end(segments, i),
    decreases i,
{
    if i > 0 {
        assert(segment_ok(segments, file_len, i - 1));
        lemma_segments_end_low(segments, file_len, i - 1);
    }
}

/// In the layout of a program the heap is the first region that starts
/// right above the stack: it is framed and empty, and every region before it
/// starts below it.
pub proof fn lemma_layout_heap(segments: Seq<Segment>, file_len: int, pool_start: int)
    requires
        layout_ok(segments, file_len),
        0 <= pool_start <= USER_BASE / 4096,
    ensures
        ({
            let regions = image_layout(segments, pool_start);
            let h = segments.len() as int + 2;
            let top = stack_top_vpn(segments);
            &&& regions[h].start == top
            &&& regions[h].end == top
            &&& regions[h].map_type == MapType::Framed
            &&& forall|j: int| 0 <= j < h ==> (#[trigger] regions[j]).start < top
        }),
{
    let regions = image_layout(segments, pool_start);
    let n = segments.len() as int;
    let top = stack_top_vpn(segments);
    lemma_segments_end_mono(segments, file_len, 0);
    assert forall|j: int| 0 <= j < n + 2 implies (#[trigger] regions[j]).start < top by {
        if 1 <= j <= n {
            assert(segment_ok(segments, file_len, j - 1));
            lemma_segments_end_mono(segments, file_len, j);
        }
    }
}

/// Frames that the address space of a program takes from the pool: the
/// root of its page table and what its regions cost.
pub open spec fn image_cost(segments: Seq<Segment>, pool_start: int) -> nat {
    1 + regions_cost(set![0int], image_layout(segments, pool_start), 0)
}

impl MemorySet {
    /// Builds the address space of the program in `file`. Returns it with
    /// the initial user stack pointer and the entry point.
    ///
    /// Runs out of frames exactly when the pool holds fewer than the
    /// program costs.
    pub fn from_elf(fa: &mut FrameAllocator, file: &Vec<u8>) -> (r: Result<
        (MemorySet, u64, u64),
        MapError,
    >)
        requires
            old(fa).wf(),
            image_ok(file@),
            old(fa).pool_start() <= USER_BASE / 4096,
        ensures
            final(fa).wf(),
            r is Err <==> old(fa).free_count() < image_cost(
                raw_image(file@).segments,
                old(fa).pool_start(),
            ),
            r is Err ==> r == Err::<(MemorySet, u64, u64), MapError>(MapError::OutOfFrames),
            r matches Ok((ms, sp, entry)) ==> {
                let regions = image_layout(raw_image(file@).segments, old(fa).pool_start());
                &&& ms.building(old(fa), final(fa), regions, file@, regions.len() as int)
                &&& sp == stack_top_vpn(raw_image(file@).segments) * 4096
                &&& entry == raw_image(file@).entry
            },
    {
        let img = ProgramImage::parse(file).unwrap();
        let ghost segs = raw_image(file@).segments;
        let ghost ps = fa.pool_start();
        let ps_exec = fa.first_frame();
        proof {
            fa.lemma_pool_start();
            lemma_layout_ok(segs, file@.len() as int, ps);
        }
        let n = img.segments.len();
        let mut regions: Vec<Region> = Vec::new();
        regions.push(
            Region {
                start: 0,
                end: ps_exec,
                map_type: MapType::Identical,
                perm: MapPermission { bits: PERM_R | PERM_X },
                fill: None,
            },
        );
        let mut end: u64 = USER_BASE / 4096;
        let mut k: usize = 0;
        while k < n
            invariant
                k <= n,
                n == segs.len(),
                img.segments@ == segs,
                layout_ok(segs, file@.len() as int),
                regions@.len() == k + 1,
                forall|j: int| 0 <= j < k + 1 ==> #[trigger] regions@[j] == region_of(segs, ps, j),
                end == segments_end(segs, k as int),
                end <= TRAP_CONTEXT_BASE / 4096,
            decreases n - k,
        {
            let seg = img.segments[k];
            proof {
                assert(segment_ok(segs, file@.len() as int, k as int));
            }
            let e = (seg.vaddr + seg.mem_size + 4095) / 4096;
            regions.push(
                Region {
                    start: seg.vaddr / 4096,
                    end: e,
                    map_type: MapType::Framed,
                    perm: segment_perm(seg.flags),
                    fill: Some(seg),
                },
            );
            end = e;
            k += 1;
        }
        let bottom = end + 1;
        let top = bottom + USER_STACK_SIZE / 4096;
        regions.push(
            Region {
                start: bottom,
                end: top,
                map_type: MapType::Framed,
                perm: MapPermission { bits: PERM_R | PERM_W | PERM_U },
                fill: None,
            },
        );
        regions.push(
            Region {
                start: top,
                end: top,
                map_type: MapType::Framed,
                perm: MapPermission { bits: PERM_R | PERM_W | PERM_U },
                fill: None,
            },
        );
        regions.push(
            Region {
                start: TRAP_CONTEXT_BASE / 4096,
                end: TRAP_CONTEXT_BASE / 4096 + 1,
                map_type: MapType::Framed,
                perm: MapPermission { bits: PERM_R | PERM_W },
                fill: None,
            },
        );
        proof {
            assert(regions@ =~= image_layout(segs, ps));
        }
        match MemorySet::build(fa, &regions, file) {
            Err(e) => Err(MapError::OutOfFrames),
            Ok(ms) => Ok((ms, top * 4096, img.entry)),
        }
    }
}

} // verus!
