use vstd::prelude::*;

verus! {

/// The fixed shape of every slab of one cache.
#[derive(Debug, Clone, Copy)]
pub struct SlabGeometry {
    pub object_size: usize,
    pub per_objects: usize,
    /// Bytes of one slab.
    pub slab_bytes: usize,
    /// Frames of one slab.
    pub frames: usize,
    pub frame_size: usize,
    /// Descriptor bytes at the start of each slab.
    pub desc_bytes: usize,
    pub align: usize,
    /// Bytes of one coloring step.
    pub cache_line: usize,
    /// Coloring steps that fit the slack of a slab.
    pub color: usize,
}

impl SlabGeometry {
    pub open spec fn wf(&self) -> bool {
        &&& self.object_size >= 1
        &&& 1 <= self.per_objects <= u32::MAX
        &&& self.frames >= 1
        &&& self.frame_size >= 1
        &&& self.align >= 1
        &&& self.color <= u32::MAX
        &&& self.desc_bytes + self.cache_line * self.color + self.per_objects * self.object_size
            <= self.slab_bytes
    }
}

/// Which of its cache's lists a slab is on.
#[derive(Debug, Clone, Copy, PartialEq, Eq, Structural)]
pub enum SlabState {
    Free,
    Partial,
    Full,
}

/// The list a slab with `used` of `per_objects` objects handed out belongs on.
pub open spec fn state_for(used: int, per_objects: int) -> SlabState {
    if used == 0 {
        SlabState::Free
    } else if used == per_objects {
        SlabState::Full
    } else {
        SlabState::Partial
    }
}

/// One run of frames cut into equal object slots. The free slots are the
/// indices `free_list[next_free..]`, a stack whose top is at `next_free`.
pub struct Slab {
    pub start: usize,
    pub first_object: usize,
    pub used_object: u32,
    pub next_free: u32,
    /// The coloring slot this slab was placed with.
    pub color_off: u32,
    pub state: SlabState,
    pub free_list: Vec<u32>,
}

pub proof fn lemma_grid(k: int, os: int)
    requires
        os >= 1,
        k >= 0,
    ensures
        (k * os) % os == 0,
        (k * os) / os == k,
        k * os >= 0,
{
    vstd::arithmetic::div_mod::lemma_mod_multiples_basic(k, os);
    vstd::arithmetic::div_mod::lemma_div_by_multiple(k, os);
    assert(k * os >= 0) by (nonlinear_arith)
        requires
            k >= 0,
            os >= 1,
    ;
}

impl Slab {
    /// The free slot indices, top of the stack first.
    pub open spec fn free_indices(&self) -> Seq<u32> {
        self.free_list@.subrange(self.next_free as int, self.free_list@.len() as int)
    }

    /// The slot indices handed out.
    pub open spec fn held_indices(&self) -> Seq<u32> {
        self.free_list@.subrange(0, self.next_free as int)
    }

    /// The slot index of address `a`.
    pub open spec fn slot_of(&self, geo: SlabGeometry, a: int) -> int {
        (a - self.first_object) / (geo.object_size as int)
    }

    /// Whether `a` is the address of some slot of this slab.
    pub open spec fn on_grid(&self, geo: SlabGeometry, a: int) -> bool {
        let off = a - self.first_object;
        &&& off >= 0
        &&& off % (geo.object_size as int) == 0
        &&& off / (geo.object_size as int) < geo.per_objects
    }

    /// Whether object address `a` is a slot of this slab that is handed out.
    pub open spec fn holds(&self, geo: SlabGeometry, a: int) -> bool {
        &&& self.on_grid(geo, a)
        &&& self.held_indices().contains(self.slot_of(geo, a) as u32)
    }

    /// Whether `a` lies in the slab's frames.
    pub open spec fn in_range(&self, geo: SlabGeometry, a: int) -> bool {
        self.start <= a < self.start + geo.slab_bytes
    }

    pub open spec fn wf(&self, geo: SlabGeometry) -> bool {
        &&& geo.wf()
        &&& self.free_list@.len() == geo.per_objects
        &&& self.next_free <= geo.per_objects
        &&& self.used_object == self.next_free
        &&& forall|j: int| 0 <= j < geo.per_objects ==> #[trigger] self.free_list@[j] < geo.per_objects
        &&& forall|i: int, j: int|
            0 <= i < j < geo.per_objects ==> self.free_list@[i] != self.free_list@[j]
        &&& 0 < self.start <= self.first_object
        &&& self.first_object + geo.per_objects * geo.object_size <= self.start + geo.slab_bytes
        &&& self.start + geo.slab_bytes <= usize::MAX
    }

    pub proof fn lemma_holds_in_range(&self, geo: SlabGeometry, a: int)
        requires
            self.wf(geo),
            self.on_grid(geo, a),
        ensures
            self.in_range(geo, a),
            a + geo.object_size <= self.start + geo.slab_bytes,
    {
        let os = geo.object_size as int;
        let off = a - self.first_object;
        let k = off / os;
        vstd::arithmetic::div_mod::lemma_fundamental_div_mod(off, os);
        assert(off == os * k);
        assert((k + 1) * os <= geo.per_objects * os) by (nonlinear_arith)
            requires
                k + 1 <= geo.per_objects,
                os >= 1,
        ;
        assert(os * k == k * os) by (nonlinear_arith);
        assert((k + 1) * os == k * os + os) by (nonlinear_arith);
    }

    /// Two grid addresses with the same slot are the same address.
    pub proof fn lemma_slot_injective(&self, geo: SlabGeometry, a: int, b: int)
        requires
            geo.wf(),
            self.on_grid(geo, a),
            self.on_grid(geo, b),
            self.slot_of(geo, a) == self.slot_of(geo, b),
        ensures
            a == b,
    {
        let os = geo.object_size as int;
        vstd::arithmetic::div_mod::lemma_fundamental_div_mod(a - self.first_object, os);
        vstd::arithmetic::div_mod::lemma_fundamental_div_mod(b - self.first_object, os);
    }

    /// A fresh slab over the frames at `start`, with every slot free.
    pub fn new(start: usize, first_object: usize, color_off: u32, geo: SlabGeometry) -> (r: Slab)
        requires
            geo.wf(),
            0 < start <= first_object,
            first_object + geo.per_objects * geo.object_size <= start + geo.slab_bytes,
            start + geo.slab_bytes <= usize::MAX,
        ensures
            r.wf(geo),
            r.start == start,
            r.first_object == first_object,
            r.color_off == color_off,
            r.used_object == 0,
            r.state == SlabState::Free,
            r.next_free == 0,
            r.free_list@.len() == geo.per_objects,
            forall|k: int| 0 <= k < geo.per_objects ==> #[trigger] r.free_list@[k] == k,
            forall|a: int| !r.holds(geo, a),
    {
        let n = geo.per_objects;
        let mut free_list: Vec<u32> = Vec::new();
        let mut i: usize = 0;
        while i < n
            invariant
                geo.wf(),
                n == geo.per_objects,
                0 <= i <= n,
                free_list@.len() == i,
                forall|k: int| 0 <= k < i ==> free_list@[k] == k,
            decreases n - i,
        {
            free_list.push(i as u32);
            i = i + 1;
        }
        let r = Slab {
            start,
            first_object,
            used_object: 0,
            next_free: 0,
            color_off,
            state: SlabState::Free,
            free_list,
        };
        proof {
            assert forall|a: int| !r.holds(geo, a) by {
                assert(r.held_indices().len() == 0);
            }
        }
        r
    }

    /// Hands out the slot at the top of the free stack.
    pub fn alloc_object(&mut self, geo: SlabGeometry) -> (r: usize)
        requires
            old(self).wf(geo),
            old(self).next_free < geo.per_objects,
        ensures
            final(self).wf(geo),
            final(self).start == old(self).start,
            final(self).first_object == old(self).first_object,
            final(self).color_off == old(self).color_off,
            final(self).state == old(self).state,
            final(self).used_object == old(self).used_object + 1,
            final(self).next_free == old(self).next_free + 1,
            final(self).free_list == old(self).free_list,
            final(self).free_indices() == old(self).free_indices().drop_first(),
            r == old(self).first_object + old(self).free_indices()[0] * geo.object_size,
            !old(self).holds(geo, r as int),
            final(self).holds(geo, r as int),
            forall|a: int|
                #[trigger] final(self).holds(geo, a) == (old(self).holds(geo, a) || a == r),
    {
        let ghost old_self = *self;
        let os = geo.object_size;
        let nf = self.next_free as usize;
        let idx = self.free_list[nf];
        proof {
            lemma_grid(idx as int, os as int);
            assert((idx as int + 1) * os <= geo.per_objects * os) by (nonlinear_arith)
                requires
                    idx + 1 <= geo.per_objects,
                    os >= 1,
            ;
            assert((idx as int + 1) * os == idx * os + os) by (nonlinear_arith);
        }
        let addr = self.first_object + idx as usize * os;
        self.next_free = self.next_free + 1;
        self.used_object = self.used_object + 1;
        proof {
            let hi = old_self.held_indices();
            assert(self.held_indices() =~= hi.push(idx));
            assert(self.free_indices() =~= old_self.free_indices().drop_first());
            assert(!hi.contains(idx)) by {
                if hi.contains(idx) {
                    let j = choose|j: int| 0 <= j < hi.len() && hi[j] == idx;
                    assert(self.free_list@[j] == self.free_list@[nf as int]);
                }
            }
            assert(self.on_grid(geo, addr as int));
            assert(self.slot_of(geo, addr as int) == idx);
            assert(self.held_indices()[nf as int] == idx);
            assert forall|a: int|
                #[trigger] self.holds(geo, a) == (old_self.holds(geo, a) || a == addr) by {
                if self.on_grid(geo, a) {
                    let k = self.slot_of(geo, a);
                    vstd::arithmetic::div_mod::lemma_div_pos_is_pos(a - self.first_object, os as int);
                    if k == idx {
                        self.lemma_slot_injective(geo, a, addr as int);
                    } else {
                        if self.held_indices().contains(k as u32) {
                            let j = choose|j: int|
                                0 <= j < self.held_indices().len() && self.held_indices()[j]
                                    == k as u32;
                            assert(hi[j] == k as u32);
                        }
                        if hi.contains(k as u32) {
                            let j = choose|j: int| 0 <= j < hi.len() && hi[j] == k as u32;
                            assert(self.held_indices()[j] == k as u32);
                        }
                    }
                }
            }
        }
        addr
    }

    /// The position among the handed-out indices of the slot at `addr`, if
    /// `addr` is a handed-out slot of this slab.
    pub fn find_object(&self, geo: SlabGeometry, addr: usize) -> (r: Option<usize>)
        requires
            self.wf(geo),
        ensures
            r.is_some() == self.holds(geo, addr as int),
            r matches Some(p) ==> p < self.next_free && self.free_list@[p as int]
                == self.slot_of(geo, addr as int),
    {
        if addr < self.first_object {
            return None;
        }
        let off = addr - self.first_object;
        if off % geo.object_size != 0 {
            return None;
        }
        let pos = off / geo.object_size;
        if pos >= geo.per_objects {
            return None;
        }
        let mut j: usize = 0;
        while j < self.next_free as usize
            invariant
                self.wf(geo),
                0 <= j <= self.next_free,
                pos < geo.per_objects,
                pos == self.slot_of(geo, addr as int),
                self.on_grid(geo, addr as int),
                forall|k: int| 0 <= k < j ==> self.free_list@[k] != pos as u32,
            decreases self.next_free - j,
        {
            if self.free_list[j] == pos as u32 {
                proof {
                    assert(self.held_indices()[j as int] == pos as u32);
                }
                return Some(j);
            }
            j = j + 1;
        }
        proof {
            if self.held_indices().contains(pos as u32) {
                let k = choose|k: int|
                    0 <= k < self.held_indices().len() && self.held_indices()[k] == pos as u32;
                assert(self.free_list@[k] == pos as u32);
            }
        }
        None
    }

    /// Whether `addr` is a handed-out slot of this slab.
    pub fn holds_object(&self, geo: SlabGeometry, addr: usize) -> (r: bool)
        requires
            self.wf(geo),
        ensures
            r == self.holds(geo, addr as int),
    {
        self.find_object(geo, addr).is_some()
    }

    /// Returns the handed-out slot at `addr` to the top of the free stack.
    pub fn dealloc(&mut self, geo: SlabGeometry, addr: usize)
        requires
            old(self).wf(geo),
            old(self).holds(geo, addr as int),
        ensures
            final(self).wf(geo),
            final(self).start == old(self).start,
            final(self).first_object == old(self).first_object,
            final(self).color_off == old(self).color_off,
            final(self).state == old(self).state,
            final(self).used_object == old(self).used_object - 1,
            final(self).free_indices() == seq![old(self).slot_of(geo, addr as int) as u32]
                + old(self).free_indices(),
            forall|a: int|
                #[trigger] final(self).holds(geo, a) == (old(self).holds(geo, a) && a != addr),
    {
        let ghost old_self = *self;
        let p = match self.find_object(geo, addr) {
            Some(p) => p,
            None => {
                return;
            },
        };
        let top = self.next_free as usize - 1;
        let idx = self.free_list[p];
        let moved = self.free_list[top];
        self.free_list.set(p, moved);
        self.free_list.set(top, idx);
        self.next_free = self.next_free - 1;
        self.used_object = self.used_object - 1;
        proof {
            let hi = old_self.held_indices();
            let os = geo.object_size as int;
            assert(self.free_indices() =~= seq![idx] + old_self.free_indices());
            assert(self.free_list@ =~= old_self.free_list@.update(p as int, moved).update(
                top as int,
                idx,
            ));
            assert forall|i: int, j: int|
                0 <= i < j < geo.per_objects implies self.free_list@[i] != self.free_list@[j] by {
                if p != top {
                    assert(old_self.free_list@[p as int] != old_self.free_list@[top as int]);
                }
            }
            assert forall|a: int|
                #[trigger] self.holds(geo, a) == (old_self.holds(geo, a) && a != addr) by {
                if self.on_grid(geo, a) {
                    let k = self.slot_of(geo, a);
                    vstd::arithmetic::div_mod::lemma_div_pos_is_pos(a - self.first_object, os);
                    if k == idx {
                        self.lemma_slot_injective(geo, a, addr as int);
                        if self.held_indices().contains(k as u32) {
                            let j = choose|j: int|
                                0 <= j < self.held_indices().len() && self.held_indices()[j]
                                    == k as u32;
                            assert(self.free_list@[j] == self.free_list@[top as int]);
                        }
                    } else {
                        if self.held_indices().contains(k as u32) {
                            let j = choose|j: int|
                                0 <= j < self.held_indices().len() && self.held_indices()[j]
                                    == k as u32;
                            if j == p {
                                assert(hi[top as int] == k as u32);
                            } else {
                                assert(hi[j] == k as u32);
                            }
                        }
                        if hi.contains(k as u32) {
                            let j = choose|j: int| 0 <= j < hi.len() && hi[j] == k as u32;
                            assert(j != p);
                            if j == top {
                                assert(self.held_indices()[p as int] == k as u32);
                            } else {
                                assert(self.held_indices()[j] == k as u32);
                            }
                        }
                    }
                }
            }
        }
    }

    /// Whether `addr` lies in the slab's frames.
    pub fn is_in_slab(&self, geo: SlabGeometry, addr: usize) -> (r: bool)
        requires
            self.wf(geo),
        ensures
            r == self.in_range(geo, addr as int),
    {
        self.start <= addr && addr < self.start + geo.slab_bytes
    }
}

} // verus!
