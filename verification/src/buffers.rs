//! The slab arena: a bump allocator over fixed-capacity device storage
//! buffers. The manager owns only the bookkeeping; the driver around this
//! crate creates one device buffer per slab index and performs the copies
//! and mappings that the view bookkeeping here accounts for.
//!
//! Allocations are made in whole "bricks" (the least common multiple of
//! the element size and the device's mapping alignment), so every
//! allocation's byte offset is mappable on its own. A slab's cursor only
//! returns to zero when its last live allocation is released.

use crate::misc::{ceil_div, ceil_div_spec, lcm, lcm_spec};
use vstd::multiset::Multiset;
use vstd::prelude::*;

verus! {

broadcast use vstd::multiset::group_multiset_axioms;

/// Bookkeeping for one slab: the bump cursor (in bricks), the number of
/// live allocations, and the number of mapped read views.
#[derive(Clone, Copy, PartialEq, Eq, Structural, Debug)]
pub struct SlabState {
    pub allocated_bricks: u32,
    pub allocations: u64,
    pub active_views: u32,
}

/// A live range inside a slab, in bricks: start and length.
pub type BrickRange = (nat, nat);

/// Two brick ranges do not overlap.
pub open spec fn bricks_disjoint(r1: BrickRange, r2: BrickRange) -> bool {
    r1.0 + r1.1 <= r2.0 || r2.0 + r2.1 <= r1.0
}

/// A non-owning descriptor of an allocated range: slab index, byte
/// offset, and the length in bricks, elements and bytes.
#[derive(Clone, Copy, PartialEq, Eq, Structural, Debug)]
pub struct AllocToken {
    pub buffer_index: usize,
    pub offset: u64,
    pub len: u32,
    pub len_elems: u32,
    pub len_bytes: u64,
}

impl AllocToken {
    /// The first byte of this allocation inside its slab.
    pub fn start(&self) -> (r: u64)
        ensures
            r == self.offset,
    {
        self.offset
    }

    /// One past the last byte of this allocation inside its slab.
    pub fn end(&self) -> (r: u64)
        requires
            self.offset + self.len_bytes <= u64::MAX,
        ensures
            r == self.offset + self.len_bytes,
    {
        self.offset + self.len_bytes
    }

    /// The first element index of this allocation inside its slab.
    pub fn start_elem(&self, elem_size: u32) -> (r: u32)
        requires
            elem_size > 0,
            self.offset / elem_size as u64 <= u32::MAX,
        ensures
            r == self.offset as int / elem_size as int,
    {
        (self.offset / elem_size as u64) as u32
    }

    /// The number of elements this allocation can store.
    pub fn len(&self) -> (r: u32)
        ensures
            r == self.len_elems,
    {
        self.len_elems
    }

    /// The length in bytes.
    pub fn byte_len(&self) -> (r: u64)
        ensures
            r == self.len_bytes,
    {
        self.len_bytes
    }
}

/// An element type that can live in a slab: it states its own byte size.
pub trait BufferData {
    /// The byte size of one element.
    fn element_size() -> (r: u32)
        ensures
            r > 0,
    ;
}

/// The copy-and-map a read view needs from the driver: copy
/// `copy_bytes` bytes at `src_offset` from slab `buffer_index` into the
/// shared staging buffer at the same offset, then map `map_bytes` bytes of
/// the staging buffer at `map_offset`.
#[derive(Clone, Copy, PartialEq, Eq, Structural, Debug)]
pub struct ViewCopy {
    pub buffer_index: usize,
    pub src_offset: u64,
    pub copy_bytes: u64,
    pub map_offset: u64,
    pub map_bytes: u64,
}

/// The bump allocator over a growing list of fixed-capacity slabs.
pub struct BufferManager {
    pub elem_size: u32,
    pub map_alignment: u32,
    pub brick_size: u32,
    pub elems_per_brick: u32,
    pub max_elements_per_buf: u32,
    pub max_bricks_per_buf: u32,
    pub max_bytes_per_buf: u64,
    pub buffers: Vec<SlabState>,
    /// The live allocations of each slab, as brick ranges.
    pub live: Ghost<Seq<Multiset<BrickRange>>>,
}

impl BufferManager {
    /// The derived size fields agree with the element size and alignment.
    pub open spec fn config_wf(self) -> bool {
        &&& self.elem_size > 0
        &&& self.map_alignment > 0
        &&& self.brick_size == lcm_spec(self.elem_size as nat, self.map_alignment as nat)
        &&& self.brick_size > 0
        &&& self.brick_size % self.elem_size == 0
        &&& self.brick_size % self.map_alignment == 0
        &&& self.elems_per_brick == self.brick_size / self.elem_size
        &&& self.elems_per_brick > 0
        &&& self.max_bricks_per_buf == self.max_elements_per_buf / self.elems_per_brick
        &&& self.max_bytes_per_buf == self.max_bricks_per_buf as u64 * self.brick_size as u64
    }

    /// The invariant of one slab's bookkeeping against its live ranges:
    /// counts agree, every live range lies under the cursor, distinct live
    /// ranges are disjoint, only empty ranges repeat, and an empty slab's
    /// cursor is zero.
    pub open spec fn slab_inv(s: SlabState, lv: Multiset<BrickRange>, cap: int) -> bool {
        &&& s.allocated_bricks as int <= cap
        &&& s.allocations == lv.len()
        &&& (s.allocations == 0 ==> s.allocated_bricks == 0)
        &&& forall|r: BrickRange| #[trigger] lv.count(r) > 0 ==> r.0 + r.1 <= s.allocated_bricks
        &&& forall|r1: BrickRange, r2: BrickRange|
            lv.count(r1) > 0 && lv.count(r2) > 0 && r1 != r2 ==> bricks_disjoint(r1, r2)
        &&& forall|r: BrickRange| #[trigger] lv.count(r) >= 2 ==> r.1 == 0
    }

    pub open spec fn inv(self) -> bool {
        &&& self.config_wf()
        &&& self.live@.len() == self.buffers@.len()
        &&& forall|i: int|
            0 <= i < self.buffers@.len() ==> Self::slab_inv(
                #[trigger] self.buffers@[i],
                self.live@[i],
                self.max_bricks_per_buf as int,
            )
    }

    /// The configuration fields, which no operation changes.
    pub open spec fn config(self) -> (u32, u32, u32, u32, u32, u32, u64) {
        (
            self.elem_size,
            self.map_alignment,
            self.brick_size,
            self.elems_per_brick,
            self.max_elements_per_buf,
            self.max_bricks_per_buf,
            self.max_bytes_per_buf,
        )
    }

    /// How many bricks an allocation of `size` elements takes.
    pub open spec fn bricks_for(self, size: u32) -> int {
        ceil_div_spec(size as int, self.elems_per_brick as int)
    }

    /// The brick range a token describes.
    pub open spec fn range_of(self, t: AllocToken) -> BrickRange {
        ((t.offset as int / self.brick_size as int) as nat, t.len as nat)
    }

    /// A token that is consistent with this manager's geometry.
    pub open spec fn token_wf(self, t: AllocToken) -> bool {
        &&& t.buffer_index < self.buffers@.len()
        &&& t.offset % self.brick_size as u64 == 0
        &&& t.len_bytes == t.len as u64 * self.brick_size as u64
        &&& t.len_elems == t.len * self.elems_per_brick
        &&& t.offset + t.len_bytes <= self.max_bytes_per_buf
    }

    /// A token whose range the manager still counts as allocated.
    pub open spec fn token_live(self, t: AllocToken) -> bool {
        &&& self.token_wf(t)
        &&& self.live@[t.buffer_index as int].count(self.range_of(t)) > 0
    }

    /// Set up a manager for elements of `elem_size` bytes, slabs of
    /// `max_elems_per_buf` elements, and the device's mapping alignment.
    pub fn create(elem_size: u32, map_alignment: u32, max_elems_per_buf: u32) -> (r: Self)
        requires
            elem_size > 0,
            map_alignment > 0,
            elem_size * map_alignment <= u32::MAX,
        ensures
            r.inv(),
            r.elem_size == elem_size,
            r.map_alignment == map_alignment,
            r.max_elements_per_buf == max_elems_per_buf,
            r.buffers@.len() == 0,
    {
        let brick_size = lcm(elem_size, map_alignment);
        proof {
            crate::misc::lemma_lcm_bounds(elem_size as nat, map_alignment as nat);
            vstd::arithmetic::div_mod::lemma_div_non_zero(brick_size as int, elem_size as int);
        }
        let elems_per_brick = brick_size / elem_size;
        let max_bricks_per_buf = max_elems_per_buf / elems_per_brick;
        proof {
            assert(max_bricks_per_buf as u64 * brick_size as u64 <= u64::MAX) by (nonlinear_arith)
                requires
                    max_bricks_per_buf <= u32::MAX,
                    brick_size <= u32::MAX,
            ;
        }
        let buffer_size = max_bricks_per_buf as u64 * brick_size as u64;
        BufferManager {
            elem_size,
            map_alignment,
            brick_size,
            elems_per_brick,
            max_elements_per_buf: max_elems_per_buf,
            max_bricks_per_buf,
            max_bytes_per_buf: buffer_size,
            buffers: Vec::new(),
            live: Ghost(Seq::empty()),
        }
    }

    /// The first slab, in creation order, with room for `need` more
    /// bricks; `slabs.len()` if none has.
    pub open spec fn fit_from(slabs: Seq<SlabState>, cap: int, need: int, i: int) -> int
        decreases slabs.len() - i,
    {
        if i < 0 || i >= slabs.len() {
            slabs.len() as int
        } else if cap - slabs[i].allocated_bricks >= need {
            i
        } else {
            Self::fit_from(slabs, cap, need, i + 1)
        }
    }

    /// The slab states after allocating `need` bricks, with the chosen
    /// offset (in bricks) and slab index: first fit, or a fresh slab.
    pub open spec fn alloc_spec(slabs: Seq<SlabState>, cap: int, need: int) -> (
        Seq<SlabState>,
        int,
        int,
    ) {
        let j = Self::fit_from(slabs, cap, need, 0);
        if j < slabs.len() {
            (
                slabs.update(
                    j,
                    SlabState {
                        allocated_bricks: (slabs[j].allocated_bricks + need) as u32,
                        allocations: (slabs[j].allocations + 1) as u64,
                        active_views: slabs[j].active_views,
                    },
                ),
                slabs[j].allocated_bricks as int,
                j,
            )
        } else {
            (
                slabs.push(
                    SlabState { allocated_bricks: need as u32, allocations: 1, active_views: 0 },
                ),
                0,
                j,
            )
        }
    }

    /// Whether an allocation of `size` elements can ever fit one slab.
    pub fn fits_slab(&self, size: u32) -> (r: bool)
        requires
            self.inv(),
        ensures
            r == (self.bricks_for(size) <= self.max_bricks_per_buf),
    {
        let bricks_needed = ceil_div(size, self.elems_per_brick as u64);
        bricks_needed <= self.max_bricks_per_buf
    }

    /// Allocate room for `size` elements: rejected (with the manager
    /// unchanged) exactly when the request exceeds one slab's whole
    /// capacity; an allocation is never split across slabs.
    pub fn try_allocate(&mut self, size: u32) -> (r: Option<AllocToken>)
        requires
            old(self).inv(),
            forall|i: int|
                0 <= i < old(self).buffers@.len() ==> (#[trigger] old(
                    self,
                ).buffers@[i]).allocations < u64::MAX,
        ensures
            final(self).inv(),
            r is None <==> old(self).bricks_for(size) > old(self).max_bricks_per_buf,
            r is None ==> *final(self) == *old(self),
            r matches Some(t) ==> Self::allocate_post(*old(self), *final(self), t, size),
    {
        if self.fits_slab(size) {
            Some(self.allocate(size))
        } else {
            None
        }
    }

    /// Everything `allocate` promises: the slab states step by
    /// `alloc_spec`, the token describes the chosen range exactly, the
    /// new range is live, and every previously live range stays live.
    pub open spec fn allocate_post(
        pre: BufferManager,
        post: BufferManager,
        t: AllocToken,
        size: u32,
    ) -> bool {
        let need = pre.bricks_for(size);
        let step = Self::alloc_spec(pre.buffers@, pre.max_bricks_per_buf as int, need);
        &&& post.config() == pre.config()
        &&& post.buffers@ == step.0
        &&& t.buffer_index == step.2
        &&& t.offset == step.1 * pre.brick_size
        &&& t.len == need
        &&& t.len_elems == need * pre.elems_per_brick
        &&& t.len_bytes == need * pre.brick_size
        &&& t.len_elems >= size
        &&& post.token_live(t)
        &&& post.range_of(t) == ((step.1 as nat, need as nat))
        &&& post.live@ == (if step.2 < pre.buffers@.len() {
            pre.live@.update(
                step.2,
                pre.live@[step.2].insert((step.1 as nat, need as nat)),
            )
        } else {
            pre.live@.push(Multiset::empty().insert((step.1 as nat, need as nat)))
        })
        &&& forall|t2: AllocToken| pre.token_live(t2) ==> post.token_live(t2)
    }

    /// Allocate room for `size` elements, in whole bricks, from the first
    /// slab with space (slabs are tried in creation order), creating a new
    /// slab when none has room. The request must fit one slab.
    pub fn allocate(&mut self, size: u32) -> (t: AllocToken)
        requires
            old(self).inv(),
            old(self).bricks_for(size) <= old(self).max_bricks_per_buf,
            forall|i: int|
                0 <= i < old(self).buffers@.len() ==> (#[trigger] old(
                    self,
                ).buffers@[i]).allocations < u64::MAX,
        ensures
            final(self).inv(),
            Self::allocate_post(*old(self), *final(self), t, size),
    {
        let ghost pre = *self;
        let bricks_needed = ceil_div(size, self.elems_per_brick as u64);
        let ghost cap = self.max_bricks_per_buf as int;
        proof {
            Self::lemma_cap_elems(pre);
            assert(bricks_needed as int * pre.elems_per_brick as int <= pre.max_bricks_per_buf
                as int * pre.elems_per_brick as int) by (nonlinear_arith)
                requires
                    bricks_needed <= pre.max_bricks_per_buf,
                    pre.elems_per_brick > 0,
            ;
            assert(bricks_needed as u64 * pre.brick_size as u64 <= u64::MAX) by (nonlinear_arith)
                requires
                    bricks_needed <= u32::MAX,
                    pre.brick_size <= u32::MAX,
            ;
        }

        let buf_index = self.find_fit(bricks_needed);
        let n = self.buffers.len();

        if buf_index == n {
            // No existing slab has room: open a new one.
            let new_index = self.new_buffer();
            let slab = SlabState {
                allocated_bricks: bricks_needed,
                allocations: 1,
                active_views: 0,
            };
            self.buffers.set(new_index, slab);
            proof {
                self.live@ = self.live@.update(
                    new_index as int,
                    Multiset::empty().insert((0nat, bricks_needed as nat)),
                );
            }
            let t = AllocToken {
                buffer_index: new_index,
                offset: 0,
                len: bricks_needed,
                len_elems: bricks_needed * self.elems_per_brick,
                len_bytes: bricks_needed as u64 * self.brick_size as u64,
            };
            proof {
                assert(self.buffers@ =~= pre.buffers@.push(slab));
                assert(self.live@ =~= pre.live@.push(
                    Multiset::empty().insert((0nat, bricks_needed as nat)),
                ));
                Self::lemma_alloc_fields(pre, *self, t, size, new_index as int, 0);
            }
            t
        } else {
            let slab = self.buffers[buf_index];
            let offset_bricks = slab.allocated_bricks;
            proof {
                assert(offset_bricks as u64 * pre.brick_size as u64 <= u64::MAX)
                    by (nonlinear_arith)
                    requires
                        offset_bricks <= u32::MAX,
                        pre.brick_size <= u32::MAX,
                ;
            }
            let new_slab = SlabState {
                allocated_bricks: slab.allocated_bricks + bricks_needed,
                allocations: slab.allocations + 1,
                active_views: slab.active_views,
            };
            self.buffers.set(buf_index, new_slab);
            proof {
                self.live@ = self.live@.update(
                    buf_index as int,
                    self.live@[buf_index as int].insert(
                        (offset_bricks as nat, bricks_needed as nat),
                    ),
                );
            }
            let t = AllocToken {
                buffer_index: buf_index,
                offset: offset_bricks as u64 * self.brick_size as u64,
                len: bricks_needed,
                len_elems: bricks_needed * self.elems_per_brick,
                len_bytes: bricks_needed as u64 * self.brick_size as u64,
            };
            proof {
                Self::lemma_alloc_fields(pre, *self, t, size, buf_index as int, offset_bricks as int);
            }
            t
        }
    }

    /// The slab capacity in bricks never exceeds it in elements.
    proof fn lemma_cap_elems(m: BufferManager)
        requires
            m.config_wf(),
        ensures
            m.max_bricks_per_buf as int * m.elems_per_brick as int <= m.max_elements_per_buf as int,
    {
        let epb = m.elems_per_brick as int;
        let me = m.max_elements_per_buf as int;
        vstd::arithmetic::div_mod::lemma_fundamental_div_mod(me, epb);
        assert((me / epb) * epb <= me) by (nonlinear_arith)
            requires
                me == epb * (me / epb) + me % epb,
                me % epb >= 0,
        ;
    }

    /// Find the first slab, in creation order, with room for
    /// `bricks_needed` more bricks; the slab count if none has.
    fn find_fit(&self, bricks_needed: u32) -> (r: usize)
        requires
            self.inv(),
        ensures
            r as int == Self::fit_from(
                self.buffers@,
                self.max_bricks_per_buf as int,
                bricks_needed as int,
                0,
            ),
            r <= self.buffers@.len(),
            r < self.buffers@.len() ==> self.max_bricks_per_buf
                - self.buffers@[r as int].allocated_bricks >= bricks_needed,
    {
        let ghost cap = self.max_bricks_per_buf as int;
        let n = self.buffers.len();
        let mut i: usize = 0;
        while i < n
            invariant
                i <= n,
                n == self.buffers@.len(),
                self.inv(),
                cap == self.max_bricks_per_buf as int,
                Self::fit_from(self.buffers@, cap, bricks_needed as int, 0) == Self::fit_from(
                    self.buffers@,
                    cap,
                    bricks_needed as int,
                    i as int,
                ),
            decreases n - i,
        {
            let bricks_left = self.max_bricks_per_buf - self.buffers[i].allocated_bricks;
            if bricks_left >= bricks_needed {
                proof {
                    assert(Self::fit_from(self.buffers@, cap, bricks_needed as int, i as int)
                        == i as int);
                }
                return i;
            }
            i = i + 1;
        }
        n
    }

    /// Append a fresh, empty slab and return its index. The driver
    /// creates the matching device buffer for this index.
    fn new_buffer(&mut self) -> (index: usize)
        requires
            old(self).inv(),
        ensures
            final(self).inv(),
            final(self).config() == old(self).config(),
            index == old(self).buffers@.len(),
            final(self).buffers@ == old(self).buffers@.push(
                SlabState { allocated_bricks: 0, allocations: 0, active_views: 0 },
            ),
            final(self).live@ == old(self).live@.push(Multiset::<BrickRange>::empty()),
    {
        let index = self.buffers.len();
        self.buffers.push(SlabState { allocated_bricks: 0, allocations: 0, active_views: 0 });
        proof {
            self.live@ = self.live@.push(Multiset::empty());
        }
        index
    }

    /// The arithmetic facts behind `allocate`'s postcondition.
    proof fn lemma_alloc_fields(
        pre: BufferManager,
        post: BufferManager,
        t: AllocToken,
        size: u32,
        j: int,
        offset_bricks: int,
    )
        requires
            pre.inv(),
            pre.bricks_for(size) <= pre.max_bricks_per_buf,
            forall|i: int|
                0 <= i < pre.buffers@.len() ==> (#[trigger] pre.buffers@[i]).allocations
                    < u64::MAX,
            t.len == pre.bricks_for(size),
            post.config() == pre.config(),
            j == Self::fit_from(pre.buffers@, pre.max_bricks_per_buf as int, t.len as int, 0),
            offset_bricks == if j < pre.buffers@.len() {
                pre.buffers@[j].allocated_bricks as int
            } else {
                0
            },
            t.buffer_index == j,
            t.offset == offset_bricks * pre.brick_size,
            t.len_elems == t.len * pre.elems_per_brick,
            t.len as int * pre.elems_per_brick as int >= size,
            t.len_bytes == t.len as u64 * pre.brick_size as u64,
            post.buffers@ == Self::alloc_spec(
                pre.buffers@,
                pre.max_bricks_per_buf as int,
                t.len as int,
            ).0,
            post.live@ == (if j < pre.buffers@.len() {
                pre.live@.update(
                    j,
                    pre.live@[j].insert((offset_bricks as nat, t.len as nat)),
                )
            } else {
                pre.live@.push(Multiset::empty().insert((offset_bricks as nat, t.len as nat)))
            }),
        ensures
            post.inv(),
            Self::allocate_post(pre, post, t, size),
    {
        let cap = pre.max_bricks_per_buf as int;
        let need = t.len as int;
        let brick = pre.brick_size as int;
        let epb = pre.elems_per_brick as int;
        assert(post.elem_size == pre.elem_size && post.map_alignment == pre.map_alignment
            && post.brick_size == pre.brick_size && post.elems_per_brick == pre.elems_per_brick
            && post.max_elements_per_buf == pre.max_elements_per_buf && post.max_bricks_per_buf
            == pre.max_bricks_per_buf && post.max_bytes_per_buf == pre.max_bytes_per_buf);
        // The chosen slab exists or is the appended one, and has room.
        Self::lemma_fit_from_le(pre.buffers@, cap, need, 0);
        if j < pre.buffers@.len() {
            Self::lemma_fit_from_found(pre.buffers@, cap, need, 0, j);
        }
        // Offset and length arithmetic.
        assert(t.offset as int == offset_bricks * brick);
        vstd::arithmetic::div_mod::lemma_mod_multiples_basic(offset_bricks, brick as int);
        assert(t.offset % pre.brick_size as u64 == 0) by {
            assert((offset_bricks * brick) % brick == 0);
        }
        vstd::arithmetic::div_mod::lemma_div_by_multiple(offset_bricks, brick);
        assert(t.offset as int / brick == offset_bricks);
        // The allocation stays inside the slab.
        assert(offset_bricks + need <= cap);
        assert((offset_bricks + need) * brick <= cap * brick) by (nonlinear_arith)
            requires
                offset_bricks + need <= cap,
                brick > 0,
        ;
        assert(offset_bricks * brick + need * brick == (offset_bricks + need) * brick)
            by (nonlinear_arith);
        // Liveness of the new token and preservation of the old ones.
        let r_new = (offset_bricks as nat, t.len as nat);
        assert(post.range_of(t) == r_new);
        assert(t.buffer_index < post.buffers@.len());
        assert(t.offset + t.len_bytes <= post.max_bytes_per_buf);
        assert(post.token_wf(t));
        assert(post.live@[j].count(r_new) > 0) by {
            if j < pre.buffers@.len() {
                assert(post.live@[j] == pre.live@[j].insert(r_new));
                assert(pre.live@[j].insert(r_new).count(r_new) == pre.live@[j].count(r_new) + 1);
            } else {
                assert(post.live@[j] == Multiset::<BrickRange>::empty().insert(r_new));
                assert(Multiset::<BrickRange>::empty().insert(r_new).count(r_new) == 1);
            }
        }
        assert(post.token_live(t));
        assert forall|t2: AllocToken| pre.token_live(t2) implies post.token_live(t2) by {
            let j2 = t2.buffer_index as int;
            if j2 == j {
                assert(post.live@[j2].count(pre.range_of(t2)) >= pre.live@[j2].count(
                    pre.range_of(t2),
                ));
            }
        }
        // The invariant holds for the touched slab.
        assert forall|i: int| 0 <= i < post.buffers@.len() implies Self::slab_inv(
            #[trigger] post.buffers@[i],
            post.live@[i],
            cap,
        ) by {
            if i != j {
                assert(Self::slab_inv(pre.buffers@[i], pre.live@[i], cap));
            } else {
                let lv_new = post.live@[j];
                let r_new = (offset_bricks as nat, t.len as nat);
                let s_new = post.buffers@[j];
                if j < pre.buffers@.len() {
                    let lv_old = pre.live@[j];
                    assert(Self::slab_inv(pre.buffers@[j], lv_old, cap));
                    assert(lv_new == lv_old.insert(r_new));
                    assert(lv_new.len() == lv_old.len() + 1);
                    assert forall|r: BrickRange| #[trigger] lv_new.count(r) > 0 implies r.0 + r.1
                        <= s_new.allocated_bricks by {
                        if r != r_new {
                            assert(lv_old.count(r) > 0);
                        }
                    }
                    assert forall|r1: BrickRange, r2: BrickRange|
                        lv_new.count(r1) > 0 && lv_new.count(r2) > 0 && r1 != r2
                            implies bricks_disjoint(r1, r2) by {
                        if r1 != r_new && r2 != r_new {
                            assert(lv_old.count(r1) > 0 && lv_old.count(r2) > 0);
                        } else if r1 == r_new {
                            assert(lv_old.count(r2) > 0);
                            assert(r2.0 + r2.1 <= pre.buffers@[j].allocated_bricks);
                        } else {
                            assert(lv_old.count(r1) > 0);
                            assert(r1.0 + r1.1 <= pre.buffers@[j].allocated_bricks);
                        }
                    }
                    assert forall|r: BrickRange| #[trigger] lv_new.count(r) >= 2 implies r.1
                        == 0 by {
                        if r == r_new {
                            // A second copy of the new range must already be
                            // live, and live ranges end at or before the old
                            // cursor, where the new range starts.
                            assert(lv_old.count(r) >= 1);
                            assert(r.0 + r.1 <= pre.buffers@[j].allocated_bricks);
                        } else {
                            assert(lv_old.count(r) >= 2);
                        }
                    }
                } else {
                    assert(lv_new == Multiset::<BrickRange>::empty().insert(r_new));
                    assert(lv_new.len() == 1);
                    assert forall|r: BrickRange| #[trigger] lv_new.count(r) > 0 implies r
                        == r_new by {
                        assert(Multiset::<BrickRange>::empty().count(r) == 0);
                    }
                }
            }
        }
    }

    /// `fit_from` returns the first index with room.
    proof fn lemma_fit_from_found(slabs: Seq<SlabState>, cap: int, need: int, i: int, j: int)
        requires
            0 <= i <= j,
            j == Self::fit_from(slabs, cap, need, i),
            j < slabs.len(),
        ensures
            cap - slabs[j].allocated_bricks >= need,
        decreases j - i,
    {
        if i < j {
            Self::lemma_fit_from_found(slabs, cap, need, i + 1, j);
        } else {
            if !(cap - slabs[i].allocated_bricks >= need) {
                Self::lemma_fit_from_ge(slabs, cap, need, i + 1);
            }
        }
    }

    /// `fit_from` never points past the end of the slab list.
    proof fn lemma_fit_from_le(slabs: Seq<SlabState>, cap: int, need: int, i: int)
        ensures
            Self::fit_from(slabs, cap, need, i) <= slabs.len(),
        decreases slabs.len() - i,
    {
        if 0 <= i < slabs.len() && !(cap - slabs[i].allocated_bricks >= need) {
            Self::lemma_fit_from_le(slabs, cap, need, i + 1);
        }
    }

    /// `fit_from` never returns an index before where it started looking.
    proof fn lemma_fit_from_ge(slabs: Seq<SlabState>, cap: int, need: int, i: int)
        requires
            0 <= i <= slabs.len(),
        ensures
            Self::fit_from(slabs, cap, need, i) >= i,
        decreases slabs.len() - i,
    {
        if i < slabs.len() && !(cap - slabs[i].allocated_bricks >= need) {
            Self::lemma_fit_from_ge(slabs, cap, need, i + 1);
        }
    }

    /// The slab states after releasing one allocation of slab `j`: the
    /// count drops, and the cursor returns to zero exactly when the last
    /// allocation leaves.
    pub open spec fn free_spec(slabs: Seq<SlabState>, j: int) -> Seq<SlabState> {
        let s = slabs[j];
        if s.allocations == 1 {
            slabs.update(
                j,
                SlabState { allocated_bricks: 0, allocations: 0, active_views: s.active_views },
            )
        } else {
            slabs.update(
                j,
                SlabState {
                    allocated_bricks: s.allocated_bricks,
                    allocations: (s.allocations - 1) as u64,
                    active_views: s.active_views,
                },
            )
        }
    }

    /// Release one allocation. The owning slab's live count drops by one;
    /// when it reaches zero the slab's cursor returns to zero and the
    /// whole slab becomes reusable. Space is never reclaimed while any
    /// allocation in the slab is still live.
    pub fn dealloc(&mut self, token: AllocToken)
        requires
            old(self).inv(),
            old(self).token_live(token),
        ensures
            final(self).inv(),
            final(self).config() == old(self).config(),
            final(self).buffers@ == Self::free_spec(old(self).buffers@, token.buffer_index as int),
            final(self).live@ == (if old(self).buffers@[token.buffer_index as int].allocations
                == 1 {
                old(self).live@.update(token.buffer_index as int, Multiset::<BrickRange>::empty())
            } else {
                old(self).live@.update(
                    token.buffer_index as int,
                    old(self).live@[token.buffer_index as int].remove(
                        old(self).range_of(token),
                    ),
                )
            }),
    {
        let ghost pre = *self;
        let j = token.buffer_index;
        let slab = self.buffers[j];
        proof {
            assert(pre.live@[j as int].count(pre.range_of(token)) > 0);
            assert(pre.live@[j as int].len() > 0);
        }
        let new_allocations = slab.allocations - 1;
        if new_allocations == 0 {
            self.buffers.set(
                j,
                SlabState {
                    allocated_bricks: 0,
                    allocations: 0,
                    active_views: slab.active_views,
                },
            );
            proof {
                self.live@ = self.live@.update(j as int, Multiset::empty());
            }
        } else {
            self.buffers.set(
                j,
                SlabState {
                    allocated_bricks: slab.allocated_bricks,
                    allocations: new_allocations,
                    active_views: slab.active_views,
                },
            );
            proof {
                self.live@ = self.live@.update(
                    j as int,
                    self.live@[j as int].remove(pre.range_of(token)),
                );
            }
        }
        proof {
            let cap = pre.max_bricks_per_buf as int;
            assert forall|i: int| 0 <= i < self.buffers@.len() implies Self::slab_inv(
                #[trigger] self.buffers@[i],
                self.live@[i],
                cap,
            ) by {
                if i != j as int {
                    assert(Self::slab_inv(pre.buffers@[i], pre.live@[i], cap));
                } else if new_allocations != 0 {
                    let lv_old = pre.live@[i];
                    let lv_new = self.live@[i];
                    let r0 = pre.range_of(token);
                    assert(Self::slab_inv(pre.buffers@[i], lv_old, cap));
                    assert(lv_new == lv_old.remove(r0));
                    assert(Multiset::singleton(r0).subset_of(lv_old)) by {
                        assert forall|v: BrickRange|
                            Multiset::singleton(r0).count(v) <= lv_old.count(v) by {
                            if v != r0 {
                                assert(Multiset::singleton(r0).count(v) == 0);
                            }
                        }
                    }
                    assert(lv_new.len() == lv_old.len() - 1);
                    assert(forall|r: BrickRange| #[trigger] lv_new.count(r) <= lv_old.count(r));
                }
            }
        }
    }

    /// Begin a read view over `bounds` (element indices) of an
    /// allocation: a zero-length range needs no device round trip and
    /// returns no copy; otherwise the slab's view count rises and the
    /// driver owes the returned copy-and-map.
    pub fn begin_view(&mut self, token: AllocToken, bounds_start: u32, bounds_end: u32) -> (p:
        Option<ViewCopy>)
        requires
            old(self).inv(),
            old(self).token_live(token),
            bounds_start < token.len_elems,
            bounds_start <= bounds_end,
            bounds_end <= token.len_elems,
            old(self).buffers@[token.buffer_index as int].active_views < u32::MAX,
        ensures
            final(self).inv(),
            bounds_end == bounds_start ==> p is None && *final(self) == *old(self),
            bounds_end > bounds_start ==> (p matches Some(v) && {
                let j = token.buffer_index as int;
                &&& v.buffer_index == token.buffer_index
                &&& v.src_offset == token.offset
                &&& v.copy_bytes == token.len_bytes
                &&& v.map_offset == token.offset + bounds_start as int * old(self).elem_size as int
                &&& v.map_bytes == (bounds_end - bounds_start) * old(self).elem_size as int
                &&& final(self).config() == old(self).config()
                &&& final(self).live@ == old(self).live@
                &&& final(self).buffers@ == old(self).buffers@.update(
                    j,
                    SlabState {
                        allocated_bricks: old(self).buffers@[j].allocated_bricks,
                        allocations: old(self).buffers@[j].allocations,
                        active_views: (old(self).buffers@[j].active_views + 1) as u32,
                    },
                )
            }),
    {
        let ghost pre = *self;
        if bounds_end == bounds_start {
            return None;
        }
        let j = token.buffer_index;
        let slab = self.buffers[j];
        self.buffers.set(
            j,
            SlabState {
                allocated_bricks: slab.allocated_bricks,
                allocations: slab.allocations,
                active_views: slab.active_views + 1,
            },
        );
        proof {
            Self::lemma_view_bytes(pre, token, bounds_start, bounds_end);
            assert(token.offset + bounds_start as int * pre.elem_size as int
                <= pre.max_bytes_per_buf);
            assert((bounds_end - bounds_start) as int * pre.elem_size as int <= token.len_bytes);
            let cap = pre.max_bricks_per_buf as int;
            assert forall|i: int| 0 <= i < self.buffers@.len() implies Self::slab_inv(
                #[trigger] self.buffers@[i],
                self.live@[i],
                cap,
            ) by {
                assert(Self::slab_inv(pre.buffers@[i], pre.live@[i], cap));
            }
        }
        Some(
            ViewCopy {
                buffer_index: j,
                src_offset: token.start(),
                copy_bytes: token.byte_len(),
                map_offset: token.start() + (bounds_start as u64) * (self.elem_size as u64),
                map_bytes: ((bounds_end - bounds_start) as u64) * (self.elem_size as u64),
            },
        )
    }

    /// The mapped range of a view stays inside the staged slab copy.
    proof fn lemma_view_bytes(pre: BufferManager, token: AllocToken, start: u32, end: u32)
        requires
            pre.inv(),
            pre.token_wf(token),
            start <= end,
            end <= token.len_elems,
        ensures
            end as int * pre.elem_size as int <= token.len_bytes,
            start as int * pre.elem_size as int <= end as int * pre.elem_size as int,
            token.offset + end as int * pre.elem_size as int <= pre.max_bytes_per_buf,
            (end - start) as int * pre.elem_size as int == end as int * pre.elem_size as int
                - start as int * pre.elem_size as int,
    {
        let es = pre.elem_size as int;
        let epb = pre.elems_per_brick as int;
        let brick = pre.brick_size as int;
        assert(brick == epb * es) by {
            vstd::arithmetic::div_mod::lemma_fundamental_div_mod(brick, es);
        }
        assert(token.len_elems as int * es == token.len as int * brick) by (nonlinear_arith)
            requires
                token.len_elems as int == token.len as int * epb,
                brick == epb * es,
        ;
        assert(end as int * es <= token.len_elems as int * es) by (nonlinear_arith)
            requires
                end <= token.len_elems,
                es > 0,
        ;
        assert(start as int * es <= end as int * es) by (nonlinear_arith)
            requires
                start <= end,
                es > 0,
        ;
        assert((end - start) as int * es == end as int * es - start as int * es)
            by (nonlinear_arith)
            requires
                start <= end,
        ;
    }

    /// End a read view of slab `buffer_index`: the view count drops, and
    /// the returned flag tells the driver whether it was the last view, so
    /// the staging buffer must be unmapped now.
    pub fn end_view(&mut self, buffer_index: usize) -> (unmap: bool)
        requires
            old(self).inv(),
            buffer_index < old(self).buffers@.len(),
            old(self).buffers@[buffer_index as int].active_views > 0,
        ensures
            final(self).inv(),
            final(self).config() == old(self).config(),
            final(self).live@ == old(self).live@,
            final(self).buffers@ == old(self).buffers@.update(
                buffer_index as int,
                SlabState {
                    allocated_bricks: old(self).buffers@[buffer_index as int].allocated_bricks,
                    allocations: old(self).buffers@[buffer_index as int].allocations,
                    active_views: (old(self).buffers@[buffer_index as int].active_views - 1) as u32,
                },
            ),
            unmap == (old(self).buffers@[buffer_index as int].active_views == 1),
    {
        let ghost pre = *self;
        let slab = self.buffers[buffer_index];
        let new_views = slab.active_views - 1;
        self.buffers.set(
            buffer_index,
            SlabState {
                allocated_bricks: slab.allocated_bricks,
                allocations: slab.allocations,
                active_views: new_views,
            },
        );
        proof {
            let cap = pre.max_bricks_per_buf as int;
            assert forall|i: int| 0 <= i < self.buffers@.len() implies Self::slab_inv(
                #[trigger] self.buffers@[i],
                self.live@[i],
                cap,
            ) by {
                assert(Self::slab_inv(pre.buffers@[i], pre.live@[i], cap));
            }
        }
        new_views == 0
    }
}

// ---------------------------------------------------------------------
// The reset/replay law of the bump cursor
// ---------------------------------------------------------------------
/// A slab holding nothing: the bump cursor at zero with no live
/// allocations.
pub open spec fn slab_clear(s: SlabState) -> bool {
    s.allocated_bricks == 0 && s.allocations == 0
}

/// The states, offsets (in bricks) and slab indices after allocating each
/// of `needs` in turn.
pub open spec fn alloc_seq(slabs: Seq<SlabState>, cap: int, needs: Seq<int>) -> (
    Seq<SlabState>,
    Seq<int>,
    Seq<int>,
)
    decreases needs.len(),
{
    if needs.len() == 0 {
        (slabs, Seq::empty(), Seq::empty())
    } else {
        let step = BufferManager::alloc_spec(slabs, cap, needs[0]);
        let rest = alloc_seq(step.0, cap, needs.drop_first());
        (rest.0, seq![step.1] + rest.1, seq![step.2] + rest.2)
    }
}

/// The states after releasing one allocation of each slab index in turn.
pub open spec fn free_seq(slabs: Seq<SlabState>, idxs: Seq<int>) -> Seq<SlabState>
    decreases idxs.len(),
{
    if idxs.len() == 0 {
        slabs
    } else {
        free_seq(BufferManager::free_spec(slabs, idxs[0]), idxs.drop_first())
    }
}

/// How often `j` occurs in `idxs`.
pub open spec fn idx_count(idxs: Seq<int>, j: int) -> int
    decreases idxs.len(),
{
    if idxs.len() == 0 {
        0
    } else {
        (if idxs[0] == j {
            1int
        } else {
            0int
        }) + idx_count(idxs.drop_first(), j)
    }
}

/// The second slab list extends the first with cleared, unviewed slabs.
pub open spec fn slabs_extend(a: Seq<SlabState>, b: Seq<SlabState>) -> bool {
    &&& a.len() <= b.len()
    &&& forall|i: int| 0 <= i < a.len() ==> #[trigger] b[i] == a[i]
    &&& forall|i: int|
        a.len() <= i < b.len() ==> #[trigger] b[i] == (SlabState {
            allocated_bricks: 0,
            allocations: 0,
            active_views: 0,
        })
}

/// First fit sees through trailing cleared slabs: it picks the same slab,
/// or the first trailing cleared one exactly where the shorter list would
/// open a new slab.
proof fn lemma_fit_extend(a: Seq<SlabState>, b: Seq<SlabState>, cap: int, need: int, i: int)
    requires
        slabs_extend(a, b),
        0 <= need <= cap,
        0 <= i <= a.len(),
    ensures
        BufferManager::fit_from(b, cap, need, i) == (if BufferManager::fit_from(a, cap, need, i)
            < a.len() || a.len() == b.len() {
            BufferManager::fit_from(a, cap, need, i)
        } else {
            a.len() as int
        }),
    decreases a.len() - i,
{
    if i < a.len() {
        if !(cap - a[i].allocated_bricks >= need) {
            lemma_fit_extend(a, b, cap, need, i + 1);
        }
    } else {
        if a.len() < b.len() {
            assert(b[i].allocated_bricks == 0);
        }
    }
}

/// One allocation step lands on the same slab index with the same offset
/// in both lists, and keeps the extension relation.
proof fn lemma_alloc_extend(a: Seq<SlabState>, b: Seq<SlabState>, cap: int, need: int)
    requires
        slabs_extend(a, b),
        0 <= need <= cap,
    ensures
        BufferManager::alloc_spec(b, cap, need).1 == BufferManager::alloc_spec(a, cap, need).1,
        BufferManager::alloc_spec(b, cap, need).2 == BufferManager::alloc_spec(a, cap, need).2,
        slabs_extend(BufferManager::alloc_spec(a, cap, need).0, BufferManager::alloc_spec(b, cap, need).0),
{
    let ja = BufferManager::fit_from(a, cap, need, 0);
    let jb = BufferManager::fit_from(b, cap, need, 0);
    lemma_fit_extend(a, b, cap, need, 0);
    BufferManager::lemma_fit_from_le(a, cap, need, 0);
    BufferManager::lemma_fit_from_le(b, cap, need, 0);
    BufferManager::lemma_fit_from_ge(a, cap, need, 0);
    BufferManager::lemma_fit_from_ge(b, cap, need, 0);
    let sa = BufferManager::alloc_spec(a, cap, need).0;
    let sb = BufferManager::alloc_spec(b, cap, need).0;
    if ja < a.len() {
        assert(jb == ja);
        assert(b[jb] == a[ja]);
        assert forall|i: int| 0 <= i < sa.len() implies sb[i] == sa[i] by {
            if i != ja {
                assert(sb[i] == b[i] && sa[i] == a[i] && b[i] == a[i]);
            }
        }
        assert forall|i: int| sa.len() <= i < sb.len() implies sb[i] == (SlabState {
            allocated_bricks: 0,
            allocations: 0,
            active_views: 0,
        }) by {
            assert(sb[i] == b[i]);
        }
    } else if a.len() == b.len() {
        assert(jb == ja && jb == b.len());
        assert forall|i: int| 0 <= i < sa.len() implies sb[i] == sa[i] by {
            if i < a.len() {
                assert(sb[i] == b[i] && sa[i] == a[i] && b[i] == a[i]);
            } else {
                assert(i == a.len());
            }
        }
    } else {
        // The shorter list opens a new slab; the longer one fills its
        // first cleared slab, which holds the same contents.
        assert(jb == a.len() && jb < b.len());
        assert(b[jb] == (SlabState { allocated_bricks: 0, allocations: 0, active_views: 0 }));
        assert(BufferManager::alloc_spec(b, cap, need).1 == 0);
        assert forall|i: int| 0 <= i < sa.len() implies sb[i] == sa[i] by {
            if i < a.len() {
                assert(sb[i] == b[i] && b[i] == a[i] && sa[i] == a[i]);
            } else {
                assert(i == jb);
                assert(sb[jb] == (SlabState {
                    allocated_bricks: (0 + need) as u32,
                    allocations: 1u64,
                    active_views: 0,
                }));
                assert(sa[i] == (SlabState {
                    allocated_bricks: need as u32,
                    allocations: 1,
                    active_views: 0,
                }));
            }
        }
        assert forall|i: int| sa.len() <= i < sb.len() implies sb[i] == (SlabState {
            allocated_bricks: 0,
            allocations: 0,
            active_views: 0,
        }) by {
            assert(sb[i] == b[i]);
        }
    }
}

/// Replaying the same requests from extension-related lists yields the
/// same offsets and slab indices.
proof fn lemma_alloc_seq_extend(
    a: Seq<SlabState>,
    b: Seq<SlabState>,
    cap: int,
    needs: Seq<int>,
)
    requires
        slabs_extend(a, b),
        forall|k: int| 0 <= k < needs.len() ==> 0 <= #[trigger] needs[k] <= cap,
    ensures
        alloc_seq(b, cap, needs).1 == alloc_seq(a, cap, needs).1,
        alloc_seq(b, cap, needs).2 == alloc_seq(a, cap, needs).2,
        slabs_extend(alloc_seq(a, cap, needs).0, alloc_seq(b, cap, needs).0),
    decreases needs.len(),
{
    if needs.len() > 0 {
        lemma_alloc_extend(a, b, cap, needs[0]);
        let a1 = BufferManager::alloc_spec(a, cap, needs[0]).0;
        let b1 = BufferManager::alloc_spec(b, cap, needs[0]).0;
        assert(forall|k: int|
            0 <= k < needs.drop_first().len() ==> 0 <= #[trigger] needs.drop_first()[k] <= cap);
        lemma_alloc_seq_extend(a1, b1, cap, needs.drop_first());
    }
}

/// After allocating `needs` in turn, every slab's live count is its old
/// count plus how often the allocations landed on it; cleared slabs stay
/// cleared once empty, and views are untouched.
proof fn lemma_alloc_seq_counts(slabs: Seq<SlabState>, cap: int, needs: Seq<int>)
    requires
        forall|k: int| 0 <= k < needs.len() ==> 0 <= #[trigger] needs[k] <= cap,
        forall|i: int|
            0 <= i < slabs.len() ==> ((#[trigger] slabs[i]).allocations == 0
                ==> slabs[i].allocated_bricks == 0),
        forall|i: int|
            0 <= i < slabs.len() ==> (#[trigger] slabs[i]).allocations + needs.len()
                <= u64::MAX,
        needs.len() <= u64::MAX,
    ensures
        ({
            let (s1, offs, idxs) = alloc_seq(slabs, cap, needs);
            &&& slabs.len() <= s1.len()
            &&& idxs.len() == needs.len()
            &&& offs.len() == needs.len()
            &&& forall|k: int| 0 <= k < idxs.len() ==> 0 <= #[trigger] idxs[k] < s1.len()
            &&& forall|j: int|
                0 <= j < s1.len() ==> (#[trigger] s1[j]).allocations == (if j < slabs.len() {
                    slabs[j].allocations as int
                } else {
                    0int
                }) + idx_count(idxs, j)
            &&& forall|j: int|
                0 <= j < slabs.len() ==> (#[trigger] s1[j]).active_views
                    == slabs[j].active_views
            &&& forall|j: int|
                slabs.len() <= j < s1.len() ==> (#[trigger] s1[j]).active_views == 0
            &&& forall|j: int|
                0 <= j < s1.len() ==> ((#[trigger] s1[j]).allocations == 0
                    ==> s1[j].allocated_bricks == 0)
        }),
    decreases needs.len(),
{
    if needs.len() > 0 {
        let step = BufferManager::alloc_spec(slabs, cap, needs[0]);
        let j0 = BufferManager::fit_from(slabs, cap, needs[0], 0);
        BufferManager::lemma_fit_from_le(slabs, cap, needs[0], 0);
        BufferManager::lemma_fit_from_ge(slabs, cap, needs[0], 0);
        assert(forall|k: int|
            0 <= k < needs.drop_first().len() ==> 0 <= #[trigger] needs.drop_first()[k] <= cap);
        assert forall|i: int| 0 <= i < step.0.len() implies ((#[trigger] step.0[i]).allocations
            == 0 ==> step.0[i].allocated_bricks == 0) && step.0[i].allocations + needs.drop_first().len()
            <= u64::MAX by {
            if i != j0 && i < slabs.len() {
                assert(step.0[i] == slabs[i]);
            } else if i == j0 && j0 < slabs.len() {
                assert(slabs[j0].allocations + needs.len() <= u64::MAX);
                assert(step.0[i].allocations == slabs[j0].allocations + 1);
            } else {
                assert(i == slabs.len() && j0 == slabs.len());
                assert(step.0[i].allocations == 1);
            }
        }
        lemma_alloc_seq_counts(step.0, cap, needs.drop_first());
        let (s1, offs, idxs) = alloc_seq(slabs, cap, needs);
        let rest = alloc_seq(step.0, cap, needs.drop_first());
        assert(idxs == seq![step.2] + rest.2);
        assert(offs == seq![step.1] + rest.1);
        assert(idxs.drop_first() =~= rest.2);
        assert(idxs[0] == step.2 && step.2 < step.0.len());
        assert forall|k: int| 0 <= k < idxs.len() implies 0 <= #[trigger] idxs[k] < s1.len() by {
            if k > 0 {
                assert(idxs[k] == rest.2[k - 1]);
            }
        }
        assert forall|j: int| 0 <= j < s1.len() implies (#[trigger] s1[j]).allocations == (if j
            < slabs.len() {
            slabs[j].allocations as int
        } else {
            0int
        }) + idx_count(idxs, j) by {
            assert(idx_count(idxs, j) == (if idxs[0] == j {
                1int
            } else {
                0int
            }) + idx_count(idxs.drop_first(), j));
            assert(s1[j].allocations == (if j < step.0.len() {
                step.0[j].allocations as int
            } else {
                0int
            }) + idx_count(rest.2, j));
            if j < slabs.len() && j != j0 {
                assert(step.0[j] == slabs[j]);
            }
        }
        assert forall|j: int| 0 <= j < slabs.len() implies (#[trigger] s1[j]).active_views
            == slabs[j].active_views by {
            assert(s1[j].active_views == step.0[j].active_views);
            if j != j0 {
                assert(step.0[j] == slabs[j]);
            }
        }
        assert forall|j: int| slabs.len() <= j < s1.len() implies (#[trigger] s1[j]).active_views
            == 0 by {
            if j < step.0.len() {
                assert(j == step.0.len() - 1 && step.2 == slabs.len());
                assert(s1[j].active_views == step.0[j].active_views);
            }
        }
    }
}

/// Releasing exactly as many allocations per slab as are live clears
/// every slab, leaving cursors at zero and views untouched.
proof fn lemma_free_seq_clears(slabs: Seq<SlabState>, idxs: Seq<int>)
    requires
        forall|k: int| 0 <= k < idxs.len() ==> 0 <= #[trigger] idxs[k] < slabs.len(),
        forall|j: int|
            0 <= j < slabs.len() ==> (#[trigger] slabs[j]).allocations == idx_count(idxs, j),
        forall|j: int|
            0 <= j < slabs.len() ==> ((#[trigger] slabs[j]).allocations == 0
                ==> slabs[j].allocated_bricks == 0),
    ensures
        free_seq(slabs, idxs).len() == slabs.len(),
        forall|j: int|
            0 <= j < slabs.len() ==> #[trigger] free_seq(slabs, idxs)[j] == (SlabState {
                allocated_bricks: 0,
                allocations: 0,
                active_views: slabs[j].active_views,
            }),
    decreases idxs.len(),
{
    if idxs.len() == 0 {
        assert forall|j: int| 0 <= j < slabs.len() implies #[trigger] free_seq(slabs, idxs)[j]
            == (SlabState {
            allocated_bricks: 0,
            allocations: 0,
            active_views: slabs[j].active_views,
        }) by {
            assert(slabs[j].allocations == idx_count(idxs, j));
        }
    } else {
        let j0 = idxs[0];
        let s1 = BufferManager::free_spec(slabs, j0);
        assert(idx_count(idxs, j0) >= 1) by {
            lemma_idx_count_nonneg(idxs.drop_first(), j0);
        }
        assert forall|k: int| 0 <= k < idxs.drop_first().len() implies 0 <= #[trigger] idxs
            .drop_first()[k] < s1.len() by {
            assert(idxs.drop_first()[k] == idxs[k + 1]);
        }
        assert forall|j: int| 0 <= j < s1.len() implies (#[trigger] s1[j]).allocations
            == idx_count(idxs.drop_first(), j) by {
            assert(idx_count(idxs, j) == (if j0 == j {
                1int
            } else {
                0int
            }) + idx_count(idxs.drop_first(), j));
            lemma_idx_count_nonneg(idxs.drop_first(), j);
        }
        lemma_free_seq_clears(s1, idxs.drop_first());
        assert forall|j: int| 0 <= j < slabs.len() implies #[trigger] free_seq(slabs, idxs)[j]
            == (SlabState {
            allocated_bricks: 0,
            allocations: 0,
            active_views: slabs[j].active_views,
        }) by {
            assert(free_seq(slabs, idxs) == free_seq(s1, idxs.drop_first()));
            assert(s1[j].active_views == slabs[j].active_views);
        }
    }
}

proof fn lemma_idx_count_nonneg(idxs: Seq<int>, j: int)
    ensures
        idx_count(idxs, j) >= 0,
    decreases idxs.len(),
{
    if idxs.len() > 0 {
        lemma_idx_count_nonneg(idxs.drop_first(), j);
    }
}

/// Allocating a run of requests from cleared slabs, releasing all of
/// them, and allocating the same run again reproduces the same slab
/// indices and the same offsets: the bump cursor of a slab returns to
/// zero exactly when the slab is fully empty, so a full generation
/// replays identically.
pub proof fn lemma_reset_replay(slabs: Seq<SlabState>, cap: int, needs: Seq<int>)
    requires
        forall|i: int| 0 <= i < slabs.len() ==> slab_clear(#[trigger] slabs[i]),
        forall|k: int| 0 <= k < needs.len() ==> 0 <= #[trigger] needs[k] <= cap,
        needs.len() <= u64::MAX,
    ensures
        ({
            let (s1, offs1, idxs1) = alloc_seq(slabs, cap, needs);
            let s2 = free_seq(s1, idxs1);
            let (s3, offs2, idxs2) = alloc_seq(s2, cap, needs);
            offs2 == offs1 && idxs2 == idxs1
        }),
{
    let (s1, offs1, idxs1) = alloc_seq(slabs, cap, needs);
    lemma_alloc_seq_counts(slabs, cap, needs);
    let s2 = free_seq(s1, idxs1);
    assert forall|j: int| 0 <= j < s1.len() implies (#[trigger] s1[j]).allocations == idx_count(
        idxs1,
        j,
    ) by {
        lemma_idx_count_nonneg(idxs1, j);
    }
    lemma_free_seq_clears(s1, idxs1);
    assert(slabs_extend(slabs, s2)) by {
        assert forall|i: int| 0 <= i < slabs.len() implies s2[i] == slabs[i] by {
            assert(s1[i].active_views == slabs[i].active_views);
        }
    }
    lemma_alloc_seq_extend(slabs, s2, cap, needs);
}

/// A well-formed token's element offset fits the element count of one
/// slab (and so a 32-bit word).
pub proof fn lemma_token_elem_offset(m: BufferManager, t: AllocToken)
    requires
        m.config_wf(),
        m.token_wf(t),
    ensures
        t.offset as int / m.elem_size as int <= m.max_elements_per_buf,
{
    let brick = m.brick_size as int;
    let es = m.elem_size as int;
    let epb = m.elems_per_brick as int;
    let cap = m.max_bricks_per_buf as int;
    let q = t.offset as int / brick;
    vstd::arithmetic::div_mod::lemma_fundamental_div_mod(t.offset as int, brick);
    assert(t.offset as int == q * brick) by (nonlinear_arith)
        requires
            t.offset as int == brick * q + t.offset as int % brick,
            t.offset as int % brick == 0,
    ;
    vstd::arithmetic::div_mod::lemma_fundamental_div_mod(brick, es);
    assert(brick == epb * es);
    assert(t.offset as int == (q * epb) * es) by (nonlinear_arith)
        requires
            t.offset as int == q * brick,
            brick == epb * es,
    ;
    assert(q >= 0) by {
        vstd::arithmetic::div_mod::lemma_div_pos_is_pos(t.offset as int, brick);
    }
    assert(q * epb >= 0) by (nonlinear_arith)
        requires
            q >= 0,
            epb > 0,
    ;
    vstd::arithmetic::div_mod::lemma_div_by_multiple(q * epb, es);
    assert(t.offset as int / es == q * epb);
    // q is at most the brick capacity, so q * epb is at most the element
    // capacity.
    assert(t.offset as int <= cap * brick);
    assert(q <= cap) by (nonlinear_arith)
        requires
            t.offset as int == q * brick,
            t.offset as int <= cap * brick,
            brick > 0,
    ;
    assert(q * epb <= cap * epb) by (nonlinear_arith)
        requires
            q <= cap,
            epb > 0,
    ;
    let me = m.max_elements_per_buf as int;
    vstd::arithmetic::div_mod::lemma_fundamental_div_mod(me, epb);
    assert(cap * epb <= me) by (nonlinear_arith)
        requires
            me == epb * cap + me % epb,
            me % epb >= 0,
    ;
}

/// Every allocation's byte offset is a multiple of the device's mapping
/// alignment, so any allocated range can later be mapped on its own:
/// offsets are whole bricks, and the brick size is a common multiple of
/// the element size and the alignment.
pub proof fn lemma_offset_mappable(m: BufferManager, t: AllocToken)
    requires
        m.config_wf(),
        m.token_wf(t),
    ensures
        t.offset % m.map_alignment as u64 == 0,
{
    let brick = m.brick_size as int;
    let align = m.map_alignment as int;
    let q = t.offset as int / brick;
    let k = brick / align;
    vstd::arithmetic::div_mod::lemma_fundamental_div_mod(t.offset as int, brick);
    vstd::arithmetic::div_mod::lemma_fundamental_div_mod(brick, align);
    assert(t.offset as int == (k * q) * align) by (nonlinear_arith)
        requires
            t.offset as int == brick * q + t.offset as int % brick,
            t.offset as int % brick == 0,
            brick == align * k + brick % align,
            brick % align == 0,
    ;
    vstd::arithmetic::div_mod::lemma_mod_multiples_basic(k * q, align);
}

/// Any two live allocations of one slab occupy non-overlapping byte
/// ranges (an empty allocation overlaps nothing).
pub proof fn lemma_live_allocations_disjoint(m: BufferManager, t1: AllocToken, t2: AllocToken)
    requires
        m.inv(),
        m.token_live(t1),
        m.token_live(t2),
        t1.buffer_index == t2.buffer_index,
        t1 != t2,
    ensures
        t1.offset + t1.len_bytes <= t2.offset || t2.offset + t2.len_bytes <= t1.offset
            || t1.len_bytes == 0 || t2.len_bytes == 0,
{
    let j = t1.buffer_index as int;
    let r1 = m.range_of(t1);
    let r2 = m.range_of(t2);
    let brick = m.brick_size as int;
    let lv = m.live@[j];
    assert(BufferManager::slab_inv(m.buffers@[j], lv, m.max_bricks_per_buf as int));
    vstd::arithmetic::div_mod::lemma_fundamental_div_mod(t1.offset as int, brick);
    vstd::arithmetic::div_mod::lemma_fundamental_div_mod(t2.offset as int, brick);
    assert(t1.offset as int == r1.0 as int * brick) by (nonlinear_arith)
        requires
            t1.offset as int == brick * (t1.offset as int / brick) + t1.offset as int % brick,
            t1.offset as int % brick == 0,
            r1.0 == t1.offset as int / brick,
    ;
    assert(t2.offset as int == r2.0 as int * brick) by (nonlinear_arith)
        requires
            t2.offset as int == brick * (t2.offset as int / brick) + t2.offset as int % brick,
            t2.offset as int % brick == 0,
            r2.0 == t2.offset as int / brick,
    ;
    if t1.len_bytes != 0 && t2.len_bytes != 0 {
        assert(t1.len > 0 && t2.len > 0) by (nonlinear_arith)
            requires
                t1.len_bytes == t1.len as int * brick,
                t2.len_bytes == t2.len as int * brick,
                t1.len_bytes != 0,
                t2.len_bytes != 0,
                brick > 0,
        ;
        if r1 == r2 {
            // Two distinct tokens cannot describe one live range: every
            // token field follows from the range and the geometry.
            assert(t1.offset == t2.offset && t1.len == t2.len);
            assert(t1.len_bytes == t2.len_bytes && t1.len_elems == t2.len_elems);
            assert(false);
        } else {
            assert(bricks_disjoint(r1, r2));
            if r1.0 + r1.1 <= r2.0 {
                assert((r1.0 + r1.1) as int * brick <= r2.0 as int * brick) by (nonlinear_arith)
                    requires
                        r1.0 + r1.1 <= r2.0,
                        brick > 0,
                ;
                assert(r1.0 as int * brick + r1.1 as int * brick == (r1.0 + r1.1) as int * brick)
                    by (nonlinear_arith);
            } else {
                assert((r2.0 + r2.1) as int * brick <= r1.0 as int * brick) by (nonlinear_arith)
                    requires
                        r2.0 + r2.1 <= r1.0,
                        brick > 0,
                ;
                assert(r2.0 as int * brick + r2.1 as int * brick == (r2.0 + r2.1) as int * brick)
                    by (nonlinear_arith);
            }
        }
    }
}

} // verus!
