//! Copying an address space, frame by frame.
use vstd::prelude::*;
use crate::config::VPN_LIMIT;
use crate::mm::frame_allocator::FrameAllocator;
use crate::mm::memory_set::{nodes_with, page_cost, AreaView, MapArea, MapType, MemorySet};
use crate::mm::page_table::{leaf_entry, MapError};

verus! {

/// Frames that copying takes from the pool for the mapped pages of the
/// regions `areas`, from page `cur` of region `k` on, when the table nodes
/// `nodes` exist in the copy.
pub open spec fn copy_cost(nodes: Set<int>, areas: Seq<AreaView>, k: int, cur: int) -> nat
    decreases areas.len() - k, (if 0 <= k < areas.len() {
        areas[k].end - cur
    } else {
        0
    }),
{
    if k < 0 || k >= areas.len() {
        0
    } else if cur >= areas[k].end {
        if k + 1 < areas.len() {
            copy_cost(nodes, areas, k + 1, areas[k + 1].start)
        } else {
            0
        }
    } else if areas[k].frame_at(cur) is Some {
        page_cost(nodes, cur, areas[k].framed()) + copy_cost(
            nodes_with(nodes, cur),
            areas,
            k,
            cur + 1,
        )
    } else {
        copy_cost(nodes, areas, k, cur + 1)
    }
}

/// Frames that a copy of an address space with the regions `areas` takes
/// from the pool: the root of its page table and what its pages cost.
pub open spec fn duplicate_cost(areas: Seq<AreaView>) -> nat {
    1 + copy_cost(
        set![0int],
        areas,
        0,
        if areas.len() > 0 {
            areas[0].start
        } else {
            0
        },
    )
}

impl MemorySet {
    /// Region `b` of `child` mirrors region `b` of `self` for the pages
    /// below `upto`, and has no page mapped from `upto` on: the same extent,
    /// kind and permissions; a page mapped in one is mapped in the other; and
    /// a framed page's frame in the child holds the bytes that the parent's
    /// frame held.
    pub open spec fn area_mirrored(
        &self,
        child: &MemorySet,
        fa0: &FrameAllocator,
        fa: &FrameAllocator,
        b: int,
        upto: int,
    ) -> bool {
        let pa = self.areas()[b];
        let ca = child.areas()[b];
        &&& ca.start == pa.start && ca.end == pa.end && ca.map_type == pa.map_type && ca.perm
            == pa.perm
        &&& forall|v: int| (#[trigger] ca.frame_at(v)) is Some <==> v < upto && pa.frame_at(v) is Some
        &&& forall|v: int|
            v < upto && pa.framed() ==> ((#[trigger] pa.frame_at(v)) matches Some(pp)
                ==> fa.memory().frame(ca.frame_at(v)->0 as int) == fa0.memory().frame(pp as int))
    }

    /// What holds all the while an address space is copied: both are
    /// sound, and the copy is made of frames that were free at the start.
    pub open spec fn mirror_common(
        &self,
        child: &MemorySet,
        fa0: &FrameAllocator,
        fa: &FrameAllocator,
    ) -> bool {
        &&& child.wf(fa)
        &&& self.wf(fa)
        &&& forall|q: int| #[trigger] child.frames().contains(q) ==> !fa0.is_allocated(q)
        &&& fa0.unchanged_outside(fa, child.frames())
    }

    /// The first `k` regions are copied.
    pub open spec fn mirrored(
        &self,
        child: &MemorySet,
        fa0: &FrameAllocator,
        fa: &FrameAllocator,
        k: int,
    ) -> bool {
        &&& self.mirror_common(child, fa0, fa)
        &&& child.areas().len() == k
        &&& forall|b: int| 0 <= b < k ==> #[trigger] self.area_mirrored(child, fa0, fa, b, VPN_LIMIT as int)
        &&& fa.free_count() - (if k < self.areas().len() {
            copy_cost(child.nodes(fa), self.areas(), k, self.areas()[k].start) as int
        } else {
            0
        }) == fa0.free_count() - duplicate_cost(self.areas())
    }

    /// The first `k` regions are copied, and region `k` below page `cur`.
    pub open spec fn mirroring(
        &self,
        child: &MemorySet,
        fa0: &FrameAllocator,
        fa: &FrameAllocator,
        k: int,
        cur: int,
    ) -> bool {
        &&& self.mirror_common(child, fa0, fa)
        &&& child.areas().len() == k + 1
        &&& forall|b: int| 0 <= b < k ==> #[trigger] self.area_mirrored(child, fa0, fa, b, VPN_LIMIT as int)
        &&& self.area_mirrored(child, fa0, fa, k, cur)
        &&& fa.free_count() - copy_cost(child.nodes(fa), self.areas(), k, cur) == fa0.free_count()
            - duplicate_cost(self.areas())
    }

    /// The parent stays sound while the copy takes frames that were free.
    proof fn lemma_parent_kept(
        &self,
        child: &MemorySet,
        fa0: &FrameAllocator,
        fa: &FrameAllocator,
    )
        requires
            self.wf(fa0),
            fa0.wf(),
            forall|q: int| #[trigger] child.frames().contains(q) ==> !fa0.is_allocated(q),
            fa0.unchanged_outside(fa, child.frames()),
        ensures
            self.wf(fa),
            forall|v: int|
                0 <= v < VPN_LIMIT ==> #[trigger] leaf_entry(fa.memory(), self.root(), v)
                    == leaf_entry(fa0.memory(), self.root(), v),
            forall|p: int|
                0 <= p < fa0.memory().num_frames() && fa0.is_allocated(p)
                    ==> #[trigger] fa.memory().frame(p) == fa0.memory().frame(p),
    {
        self.lemma_wf(fa0);
        assert(self.frames().disjoint(child.frames())) by {
            assert forall|q: int| self.frames().contains(q) implies !child.frames().contains(q) by {
                assert(fa0.is_allocated(q));
            }
        }
        self.lemma_unchanged_outside(fa0, fa, child.frames());
    }

    /// A region added to the copy, with no page mapped yet.
    proof fn lemma_mirror_open(
        &self,
        child: &MemorySet,
        next: &MemorySet,
        fa0: &FrameAllocator,
        fa: &FrameAllocator,
        k: int,
    )
        requires
            self.wf(fa0),
            fa0.wf(),
            0 <= k < self.areas().len(),
            self.mirrored(child, fa0, fa, k),
            next.wf(fa),
            next.areas() == child.areas().push(
                Self::blank_area(
                    self.areas()[k].start,
                    self.areas()[k].end,
                    self.areas()[k].map_type,
                    self.areas()[k].perm,
                ),
            ),
            next.root() == child.root(),
            next.table_frames() == child.table_frames(),
            next.data_frames() == child.data_frames(),
        ensures
            self.mirroring(next, fa0, fa, k, self.areas()[k].start),
    {
        self.lemma_shape(fa0, k);
        assert forall|b: int| 0 <= b < k implies #[trigger] self.area_mirrored(
            next,
            fa0,
            fa,
            b,
            VPN_LIMIT as int,
        ) by {
            assert(self.area_mirrored(child, fa0, fa, b, VPN_LIMIT as int));
            assert(next.areas()[b] == child.areas()[b]);
        }
        assert(next.nodes(fa) =~= child.nodes(fa));
    }

    /// A page that is about to be copied is not mapped in the copy yet.
    proof fn lemma_child_free(
        &self,
        child: &MemorySet,
        fa0: &FrameAllocator,
        fa: &FrameAllocator,
        k: int,
        cur: int,
    )
        requires
            self.wf(fa0),
            fa0.wf(),
            fa.wf(),
            0 <= k < self.areas().len(),
            self.areas()[k].frame_at(cur) is Some,
            self.mirroring(child, fa0, fa, k, cur),
        ensures
            leaf_entry(fa.memory(), child.root(), cur) is None,
    {
        self.lemma_slot_entry(fa0, k, cur);
        if leaf_entry(fa.memory(), child.root(), cur) is Some {
            child.lemma_wf(fa);
            assert(child.backed(cur));
            let b = choose|b: int|
                0 <= b < child.areas().len() && (#[trigger] child.areas()[b].frame_at(cur)) is Some;
            if b < k {
                assert(self.area_mirrored(child, fa0, fa, b, VPN_LIMIT as int));
                self.lemma_one_backer(fa0, b, k, cur);
            }
        }
    }

    /// A page that the parent has not mapped is passed over.
    proof fn lemma_mirror_skip(
        &self,
        child: &MemorySet,
        fa0: &FrameAllocator,
        fa: &FrameAllocator,
        k: int,
        cur: int,
    )
        requires
            0 <= k < self.areas().len(),
            self.areas()[k].start <= cur < self.areas()[k].end,
            self.areas()[k].frame_at(cur) is None,
            self.mirroring(child, fa0, fa, k, cur),
        ensures
            self.mirroring(child, fa0, fa, k, cur + 1),
    {
    }

    /// A page of the parent copied into the child.
    #[verifier::rlimit(40)]
    proof fn lemma_mirror_step(
        &self,
        cur_child: &MemorySet,
        next: &MemorySet,
        fa0: &FrameAllocator,
        fac: &FrameAllocator,
        fam: &FrameAllocator,
        fan: &FrameAllocator,
        k: int,
        cur: int,
        cp: u64,
    )
        requires
            self.wf(fa0),
            fa0.wf(),
            fac.wf(),
            fam.wf(),
            fan.wf(),
            0 <= k < self.areas().len(),
            self.areas()[k].start <= cur < self.areas()[k].end,
            self.areas()[k].frame_at(cur) is Some,
            self.mirroring(cur_child, fa0, fac, k, cur),
            cur_child.mapped_page(next, fac, fam, k, cur, cp),
            self.areas()[k].framed() ==> fam.same_allocation(fan) && fam.memory().same_except(
                &fan.memory(),
                cp as int,
            ) && fan.memory().frame(cp as int) == fam.memory().frame(
                self.areas()[k].frame_at(cur)->0 as int,
            ),
            !self.areas()[k].framed() ==> fan == fam,
        ensures
            self.mirroring(next, fa0, fan, k, cur + 1),
    {
        let pa = self.areas()[k];
        let pp = pa.frame_at(cur)->0;
        let cc = cur_child;
        self.lemma_slot_entry(fa0, k, cur);
        cc.lemma_wf(fac);
        next.lemma_wf(fam);
        next.lemma_tables_data_disjoint(fam);
        cc.lemma_shape(fac, k);
        let step = if pa.framed() {
            next.table_frames().insert(cp as int)
        } else {
            next.table_frames()
        };
        // the copy's frames were free at the start
        assert forall|q: int| #[trigger] next.frames().contains(q) implies !fa0.is_allocated(q) by {
            if !cc.frames().contains(q) {
                assert(!fac.is_allocated(q));
            }
        }
        assert(cc.frames().subset_of(next.frames()));
        assert(step.subset_of(next.frames()));
        fac.lemma_unchanged_wider(fam, step, next.frames());
        fa0.lemma_unchanged_trans(fac, fam, cc.frames(), next.frames());
        if pa.framed() {
            assert(fam.unchanged_outside(fan, set![cp as int]));
            fam.lemma_unchanged_wider(fan, set![cp as int], next.frames());
            fa0.lemma_unchanged_trans(fam, fan, next.frames(), next.frames());
            next.lemma_write_keeps(fam, fan, cp as int);
            assert(next.nodes(fan) =~= next.nodes(fam));
        }
        self.lemma_parent_kept(next, fa0, fan);
        self.lemma_parent_kept(next, fa0, fam);
        assert forall|b: int| 0 <= b < k implies #[trigger] self.area_mirrored(
            next,
            fa0,
            fan,
            b,
            VPN_LIMIT as int,
        ) by {
            assert(self.area_mirrored(cc, fa0, fac, b, VPN_LIMIT as int));
            assert(next.areas()[b] == cc.areas()[b]);
            let pb = self.areas()[b];
            let cb = next.areas()[b];
            assert forall|v: int| v < VPN_LIMIT && pb.framed() implies ((#[trigger] pb.frame_at(
                v,
            )) matches Some(q) ==> fan.memory().frame(cb.frame_at(v)->0 as int)
                == fa0.memory().frame(q as int)) by {
                if pb.frame_at(v) is Some {
                    assert(cb.frame_at(v) is Some);
                    self.lemma_keeps_copy(cc, next, fac, fam, fan, k, cur, cp, b, v);
                }
            }
        }
        let ca = next.areas()[k];
        let oa = cc.areas()[k];
        assert(ca == oa.with_slot(cur, Some(cp)));
        assert forall|v: int| (#[trigger] ca.frame_at(v)) is Some <==> v < cur + 1 && pa.frame_at(v)
            is Some by {
            if v != cur {
                assert(ca.frame_at(v) == oa.frame_at(v));
            }
        }
        assert forall|v: int| v < cur + 1 && pa.framed() implies ((#[trigger] pa.frame_at(
            v,
        )) matches Some(q) ==> fan.memory().frame(ca.frame_at(v)->0 as int) == fa0.memory().frame(
            q as int,
        )) by {
            if pa.frame_at(v) is Some {
                if v < cur {
                    assert(oa.frame_at(v) is Some);
                    assert(ca.frame_at(v) == oa.frame_at(v));
                    self.lemma_keeps_copy(cc, next, fac, fam, fan, k, cur, cp, k, v);
                } else {
                    self.lemma_frame_allocated(fa0, pp as int);
                    assert(fa0.is_allocated(pp as int));
                    assert(fam.memory().frame(pp as int) == fa0.memory().frame(pp as int));
                }
            }
        }
    }

    /// A frame that the copy held before a page was added keeps its bytes.
    proof fn lemma_keeps_copy(
        &self,
        cc: &MemorySet,
        next: &MemorySet,
        fac: &FrameAllocator,
        fam: &FrameAllocator,
        fan: &FrameAllocator,
        k: int,
        cur: int,
        cp: u64,
        b: int,
        v: int,
    )
        requires
            fac.wf(),
            fam.wf(),
            cc.wf(fac),
            0 <= k < cc.areas().len(),
            0 <= b < cc.areas().len(),
            cc.areas()[b].framed(),
            cc.areas()[b].frame_at(v) is Some,
            cc.mapped_page(next, fac, fam, k, cur, cp),
            cc.areas()[k].framed() ==> fam.memory().same_except(&fan.memory(), cp as int),
            !cc.areas()[k].framed() ==> fan == fam,
        ensures
            fan.memory().frame(cc.areas()[b].frame_at(v)->0 as int) == fac.memory().frame(
                cc.areas()[b].frame_at(v)->0 as int,
            ),
    {
        let q = cc.areas()[b].frame_at(v)->0 as int;
        cc.lemma_slot_entry(fac, b, v);
        cc.lemma_frame_allocated(fac, q);
        next.lemma_tables_data_disjoint(fam);
        assert(next.data_frames().contains(q));
        assert(!next.table_frames().contains(q));
        if cc.areas()[k].framed() {
            assert(q != cp);
            assert(!next.table_frames().insert(cp as int).contains(q));
        }
        assert(fam.memory().frame(q) == fac.memory().frame(q));
    }

    /// The last page of a region done, the region is done.
    proof fn lemma_mirror_close(
        &self,
        child: &MemorySet,
        fa0: &FrameAllocator,
        fa: &FrameAllocator,
        k: int,
    )
        requires
            self.wf(fa0),
            0 <= k < self.areas().len(),
            self.mirroring(child, fa0, fa, k, self.areas()[k].end),
        ensures
            self.mirrored(child, fa0, fa, k + 1),
    {
        self.lemma_shape(fa0, k);
        assert forall|b: int| 0 <= b < k + 1 implies #[trigger] self.area_mirrored(
            child,
            fa0,
            fa,
            b,
            VPN_LIMIT as int,
        ) by {
            if b == k {
                assert(self.area_mirrored(child, fa0, fa, k, self.areas()[k].end));
            }
        }
    }

    /// A copy of the address space `user_space`, made of frames of its
    /// own: the same regions, the same pages mapped with the same
    /// permissions, and in every framed page the bytes that `user_space` holds.
    ///
    /// Runs out of frames exactly when the pool holds fewer than the copy costs.
    #[verifier::rlimit(40)]
    pub fn from_existed_user(fa: &mut FrameAllocator, user_space: &MemorySet) -> (r: Result<
        MemorySet,
        MapError,
    >)
        requires
            old(fa).wf(),
            user_space.wf(old(fa)),
        ensures
            final(fa).wf(),
            r is Err <==> old(fa).free_count() < duplicate_cost(user_space.areas()),
            r is Err ==> r == Err::<MemorySet, MapError>(MapError::OutOfFrames),
            r matches Ok(ms) ==> user_space.mirrored(
                &ms,
                old(fa),
                final(fa),
                user_space.areas().len() as int,
            ),
    {
        let ghost fa0 = *fa;
        let mut ms = match MemorySet::new_bare(fa) {
            None => {
                return Err(MapError::OutOfFrames);
            },
            Some(ms) => ms,
        };
        let n = user_space.area_count();
        let mut k: usize = 0;
        proof {
            user_space.lemma_parent_kept(&ms, &fa0, fa);
        }
        while k < n
            invariant
                k <= n,
                n == user_space.areas().len(),
                fa0 == *old(fa),
                fa0.wf(),
                fa.wf(),
                user_space.wf(&fa0),
                user_space.mirrored(&ms, &fa0, fa, k as int),
            decreases n - k,
        {
            let (start, end, map_type, perm) = user_space.area_info(k);
            proof {
                user_space.lemma_shape(&fa0, k as int);
            }
            let ghost ms0 = ms;
            let area = MapArea::from_pages(start, end, map_type, perm);
            let a = ms.push_area(fa, area);
            proof {
                user_space.lemma_mirror_open(&ms0, &ms, &fa0, fa, k as int);
            }
            let mut cur = start;
            while cur < end
                invariant
                    start <= cur <= end,
                    k < n,
                    a == k,
                    n == user_space.areas().len(),
                    start == user_space.areas()[k as int].start,
                    end == user_space.areas()[k as int].end,
                    map_type == user_space.areas()[k as int].map_type,
                    end <= VPN_LIMIT,
                    fa0 == *old(fa),
                    fa0.wf(),
                    fa.wf(),
                    user_space.wf(&fa0),
                    user_space.mirroring(&ms, &fa0, fa, k as int, cur as int),
                decreases end - cur,
            {
                let ghost fac = *fa;
                let ghost msc = ms;
                match user_space.slot(fa, k, cur) {
                    None => {
                        proof {
                            user_space.lemma_mirror_skip(&ms, &fa0, fa, k as int, cur as int);
                        }
                    },
                    Some(pp) => {
                        proof {
                            user_space.lemma_slot_entry(fa, k as int, cur as int);
                            if !user_space.areas()[k as int].framed() {
                                user_space.lemma_identical_slot(fa, k as int, cur as int);
                            }
                            user_space.lemma_child_free(&ms, &fa0, fa, k as int, cur as int);
                        }
                        let cp = match ms.map_page(fa, a, cur) {
                            Err(e) => {
                                return Err(MapError::OutOfFrames);
                            },
                            Ok(cp) => cp,
                        };
                        let ghost fam = *fa;
                        proof {
                            user_space.lemma_parent_kept(&msc, &fa0, &fac);
                            msc.lemma_shape(&fac, k as int);
                            assert(ms.areas()[k as int] == msc.areas()[k as int].with_slot(
                                cur as int,
                                Some(cp),
                            ));
                            assert(ms.areas()[k as int].frame_at(cur as int) == Some(cp));
                            ms.lemma_slot_entry(fa, k as int, cur as int);
                        }
                        match map_type {
                            MapType::Framed => {
                                fa.copy_frame(pp, cp);
                            },
                            MapType::Identical => {},
                        }
                        proof {
                            user_space.lemma_mirror_step(
                                &msc,
                                &ms,
                                &fa0,
                                &fac,
                                &fam,
                                fa,
                                k as int,
                                cur as int,
                                cp,
                            );
                        }
                    },
                }
                cur += 1;
            }
            proof {
                user_space.lemma_mirror_close(&ms, &fa0, fa, k as int);
            }
            k += 1;
        }
        Ok(ms)
    }
}

} // verus!
