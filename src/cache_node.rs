use vstd::prelude::*;
use crate::array_cache::{ArrayCache, PER_CPU_OBJECTS};
use crate::error::SlabError;
use crate::frame::{FrameLedger, FrameSource};
use crate::slab::{Slab, SlabGeometry, SlabState, state_for};

verus! {

/// Most slabs a free list keeps before frames are handed back.
pub const FREE_LIST_MAX: usize = 16;

/// Most slabs one cache holds at a time.
pub const MAX_SLABS: usize = 0x1000_0000;

/// What is summed over the slabs of a pool.
pub enum Measure {
    /// Objects handed out.
    Used,
    /// Slabs on one list.
    Count(SlabState),
    /// Objects handed out from slabs on one list.
    UsedOn(SlabState),
}

pub open spec fn measure(sl: Slab, m: Measure) -> int {
    match m {
        Measure::Used => sl.used_object as int,
        Measure::Count(st) => if sl.state == st {
            1
        } else {
            0
        },
        Measure::UsedOn(st) => if sl.state == st {
            sl.used_object as int
        } else {
            0
        },
    }
}

pub open spec fn sum_slabs(s: Seq<Slab>, m: Measure) -> int
    decreases s.len(),
{
    if s.len() == 0 {
        0
    } else {
        sum_slabs(s.drop_last(), m) + measure(s.last(), m)
    }
}

pub proof fn lemma_sum_nonneg(s: Seq<Slab>, m: Measure)
    ensures
        sum_slabs(s, m) >= 0,
    decreases s.len(),
{
    if s.len() > 0 {
        lemma_sum_nonneg(s.drop_last(), m);
    }
}

/// The shared array moves whole batches, so it holds none, one or two.
pub proof fn lemma_batch_multiple(len: int)
    requires
        0 <= len <= PER_CPU_OBJECTS,
        len % (PER_CPU_OBJECTS / 2) as int == 0,
    ensures
        len == 0 || len == PER_CPU_OBJECTS / 2 || len == PER_CPU_OBJECTS,
{
    vstd::arithmetic::div_mod::lemma_fundamental_div_mod(len, (PER_CPU_OBJECTS / 2) as int);
}

pub proof fn lemma_sum_push(s: Seq<Slab>, x: Slab, m: Measure)
    ensures
        sum_slabs(s.push(x), m) == sum_slabs(s, m) + measure(x, m),
{
    assert(s.push(x).drop_last() =~= s);
}

pub proof fn lemma_sum_update(s: Seq<Slab>, i: int, x: Slab, m: Measure)
    requires
        0 <= i < s.len(),
    ensures
        sum_slabs(s.update(i, x), m) == sum_slabs(s, m) - measure(s[i], m) + measure(x, m),
    decreases s.len(),
{
    if i == s.len() - 1 {
        assert(s.update(i, x).drop_last() =~= s.drop_last());
    } else {
        lemma_sum_update(s.drop_last(), i, x, m);
        assert(s.update(i, x).drop_last() =~= s.drop_last().update(i, x));
    }
}

pub proof fn lemma_sum_remove(s: Seq<Slab>, i: int, m: Measure)
    requires
        0 <= i < s.len(),
    ensures
        sum_slabs(s.remove(i), m) == sum_slabs(s, m) - measure(s[i], m),
    decreases s.len(),
{
    if i == s.len() - 1 {
        assert(s.remove(i) =~= s.drop_last());
    } else {
        lemma_sum_remove(s.drop_last(), i, m);
        assert(s.remove(i).drop_last() =~= s.drop_last().remove(i));
        assert(s.remove(i).last() == s.last());
    }
}

/// A slab on list `st` exists wherever that list is counted non-empty.
pub proof fn lemma_count_positive(s: Seq<Slab>, st: SlabState)
    requires
        sum_slabs(s, Measure::Count(st)) > 0,
    ensures
        exists|i: int| 0 <= i < s.len() && #[trigger] s[i].state == st,
    decreases s.len(),
{
    if s.last().state != st {
        lemma_count_positive(s.drop_last(), st);
        let i = choose|i: int| 0 <= i < s.drop_last().len() && #[trigger] s.drop_last()[i].state == st;
        assert(s[i].state == st);
    } else {
        assert(s[s.len() - 1].state == st);
    }
}

/// Objects handed out, summed list by list.
pub proof fn lemma_used_by_list(s: Seq<Slab>, geo: SlabGeometry)
    requires
        forall|i: int|
            0 <= i < s.len() ==> #[trigger] s[i].state == state_for(
                s[i].used_object as int,
                geo.per_objects as int,
            ),
    ensures
        sum_slabs(s, Measure::Used) == sum_slabs(s, Measure::UsedOn(SlabState::Partial))
            + geo.per_objects * sum_slabs(s, Measure::Count(SlabState::Full)),
        sum_slabs(s, Measure::Count(SlabState::Free)) + sum_slabs(
            s,
            Measure::Count(SlabState::Partial),
        ) + sum_slabs(s, Measure::Count(SlabState::Full)) == s.len(),
    decreases s.len(),
{
    if s.len() > 0 {
        let t = s.drop_last();
        assert forall|i: int| 0 <= i < t.len() implies #[trigger] t[i].state == state_for(
            t[i].used_object as int,
            geo.per_objects as int,
        ) by {
            assert(t[i] == s[i]);
        }
        lemma_used_by_list(t, geo);
        let x = s.last();
        assert(x == s[s.len() - 1]);
        assert(x.state == state_for(x.used_object as int, geo.per_objects as int));
        let n = geo.per_objects as int;
        let cf = sum_slabs(t, Measure::Count(SlabState::Full));
        if x.state == SlabState::Full {
            assert(x.used_object == n);
            assert(n * (cf + 1) == n * cf + n) by (nonlinear_arith);
        }
    }
}

/// A list counted empty hands out nothing.
pub proof fn lemma_used_on_empty(s: Seq<Slab>, st: SlabState)
    requires
        sum_slabs(s, Measure::Count(st)) == 0,
    ensures
        sum_slabs(s, Measure::UsedOn(st)) == 0,
    decreases s.len(),
{
    if s.len() > 0 {
        lemma_sum_nonneg(s.drop_last(), Measure::Count(st));
        lemma_used_on_empty(s.drop_last(), st);
    }
}

/// Where the slabs have a free slot, some slab is partial or free.
pub proof fn lemma_room_means_open_slab(s: Seq<Slab>, geo: SlabGeometry)
    requires
        slabs_wf(s, geo),
        sum_slabs(s, Measure::Used) < s.len() * geo.per_objects,
    ensures
        sum_slabs(s, Measure::Count(SlabState::Partial)) > 0 || sum_slabs(s, Measure::Count(SlabState::Free)) > 0,
{
    assert forall|i: int| 0 <= i < s.len() implies #[trigger] s[i].state == state_for(
        s[i].used_object as int,
        geo.per_objects as int,
    ) by {
        assert(slab_ok(s[i], geo));
    }
    lemma_used_by_list(s, geo);
    lemma_sum_nonneg(s, Measure::Count(SlabState::Partial));
    lemma_sum_nonneg(s, Measure::Count(SlabState::Free));
    if sum_slabs(s, Measure::Count(SlabState::Partial)) == 0 && sum_slabs(s, Measure::Count(SlabState::Free)) == 0 {
        lemma_used_on_empty(s, SlabState::Partial);
        assert(geo.per_objects * sum_slabs(s, Measure::Count(SlabState::Full)) == s.len() * geo.per_objects) by (nonlinear_arith)
            requires
                sum_slabs(s, Measure::Count(SlabState::Full)) == s.len(),
        ;
    }
}

/// The frame runs of slabs `s`, in order.
pub open spec fn slab_runs(s: Seq<Slab>, geo: SlabGeometry) -> Seq<(usize, usize)>
    decreases s.len(),
{
    if s.len() == 0 {
        Seq::empty()
    } else {
        slab_runs(s.drop_last(), geo).push((s.last().start, geo.frames))
    }
}

/// The index of the first slab of `s` on list `st`, where there is one.
pub open spec fn first_index(s: Seq<Slab>, st: SlabState) -> int {
    choose|i: int| first_in(s, st, i)
}

pub proof fn lemma_first_unique(s: Seq<Slab>, st: SlabState, i: int)
    requires
        first_in(s, st, i),
    ensures
        first_index(s, st) == i,
{
    let k = first_index(s, st);
    assert(first_in(s, st, k));
    if k < i {
        assert(s[k].state != st);
    } else if k > i {
        assert(s[i].state != st);
    }
}

/// Whether `i` is the first slab of `s` on list `st`.
pub open spec fn first_in(s: Seq<Slab>, st: SlabState, i: int) -> bool {
    &&& 0 <= i < s.len()
    &&& s[i].state == st
    &&& forall|j: int| 0 <= j < i ==> #[trigger] s[j].state != st
}

/// Whether slab `i` served address `addr` when pool `old` became `new`: it
/// gained that object, it was the first partial slab, else the first free
/// one, else the new slab, and every other slab stayed as it was.
pub open spec fn served_by(old: CacheNode, new: CacheNode, geo: SlabGeometry, addr: int, i: int) -> bool {
    &&& 0 <= i < new.slabs@.len()
    &&& new.slabs@[i].holds(geo, addr)
    &&& new.slabs@[i].used_object == (if i < old.slabs@.len() {
        old.slabs@[i].used_object as int
    } else {
        0
    }) + 1
    &&& (old.count(SlabState::Partial) > 0 ==> first_in(old.slabs@, SlabState::Partial, i))
    &&& (old.count(SlabState::Partial) == 0 && old.count(SlabState::Free) > 0 ==> first_in(
        old.slabs@,
        SlabState::Free,
        i,
    ))
    &&& (i >= old.slabs@.len() ==> i == old.slabs@.len())
    &&& forall|j: int|
        0 <= j < old.slabs@.len() && j != i ==> #[trigger] new.slabs@[j] == old.slabs@[j]
}

/// Whether object address `a` is handed out by one of the slabs `s`.
pub open spec fn held_in(s: Seq<Slab>, geo: SlabGeometry, a: int) -> bool {
    exists|i: int| 0 <= i < s.len() && #[trigger] s[i].holds(geo, a)
}

pub open spec fn disjoint(x: Slab, y: Slab, geo: SlabGeometry) -> bool {
    x.start + geo.slab_bytes <= y.start || y.start + geo.slab_bytes <= x.start
}

/// Where a slab's first object lies: past the descriptor, shifted by its color.
pub open spec fn placed(sl: Slab, geo: SlabGeometry) -> bool {
    &&& sl.first_object == sl.start + geo.desc_bytes + geo.cache_line * sl.color_off
    &&& sl.color_off <= geo.color
    &&& sl.start as int % (geo.frame_size as int) == 0
}

/// A slab that is well formed, on the list its count says, and placed.
pub open spec fn slab_ok(sl: Slab, geo: SlabGeometry) -> bool {
    &&& sl.wf(geo)
    &&& sl.state == state_for(sl.used_object as int, geo.per_objects as int)
    &&& placed(sl, geo)
}

pub open spec fn slabs_wf(s: Seq<Slab>, geo: SlabGeometry) -> bool {
    &&& forall|i: int| 0 <= i < s.len() ==> slab_ok(#[trigger] s[i], geo)
    &&& forall|i: int, j: int|
        0 <= i < s.len() && 0 <= j < s.len() && i != j ==> disjoint(
            #[trigger] s[i],
            #[trigger] s[j],
            geo,
        )
}

/// Held addresses after one slab is replaced by `x` over the same frames.
pub proof fn lemma_held_update(s: Seq<Slab>, geo: SlabGeometry, i: int, x: Slab, a: int)
    requires
        slabs_wf(s, geo),
        0 <= i < s.len(),
        x.start == s[i].start,
    ensures
        held_in(s.update(i, x), geo, a) == ((held_in(s, geo, a) && !s[i].holds(geo, a))
            || x.holds(geo, a)),
{
    let t = s.update(i, x);
    if held_in(t, geo, a) {
        let j = choose|j: int| 0 <= j < t.len() && #[trigger] t[j].holds(geo, a);
        if j != i {
            assert(s[j].holds(geo, a));
            s[j].lemma_holds_in_range(geo, a);
            if s[i].holds(geo, a) {
                s[i].lemma_holds_in_range(geo, a);
                assert(disjoint(s[i], s[j], geo));
            }
        }
    }
    if held_in(s, geo, a) && !s[i].holds(geo, a) {
        let j = choose|j: int| 0 <= j < s.len() && #[trigger] s[j].holds(geo, a);
        assert(j != i);
        assert(t[j].holds(geo, a));
    }
    if x.holds(geo, a) {
        assert(t[i].holds(geo, a));
    }
}

/// Removing a slab that hands out nothing keeps the held addresses.
pub proof fn lemma_held_remove(s: Seq<Slab>, geo: SlabGeometry, i: int)
    requires
        0 <= i < s.len(),
        s[i].used_object == 0,
        s[i].wf(geo),
    ensures
        forall|a: int| #[trigger] held_in(s.remove(i), geo, a) == held_in(s, geo, a),
{
    let t = s.remove(i);
    assert forall|a: int| held_in(t, geo, a) == held_in(s, geo, a) by {
        if held_in(t, geo, a) {
            let j = choose|j: int| 0 <= j < t.len() && #[trigger] t[j].holds(geo, a);
            if j < i {
                assert(s[j].holds(geo, a));
            } else {
                assert(s[j + 1].holds(geo, a));
            }
        }
        if held_in(s, geo, a) {
            let j = choose|j: int| 0 <= j < s.len() && #[trigger] s[j].holds(geo, a);
            assert(s[i].held_indices().len() == 0);
            assert(j != i);
            if j < i {
                assert(t[j].holds(geo, a));
            } else {
                assert(t[j - 1].holds(geo, a));
            }
        }
    }
}

pub proof fn lemma_slabs_wf_remove(s: Seq<Slab>, geo: SlabGeometry, i: int)
    requires
        slabs_wf(s, geo),
        0 <= i < s.len(),
    ensures
        slabs_wf(s.remove(i), geo),
{
    let t = s.remove(i);
    assert forall|a: int, b: int|
        0 <= a < t.len() && 0 <= b < t.len() && a != b implies disjoint(
        #[trigger] t[a],
        #[trigger] t[b],
        geo,
    ) by {
        let a1 = if a < i {
            a
        } else {
            a + 1
        };
        let b1 = if b < i {
            b
        } else {
            b + 1
        };
        assert(t[a] == s[a1] && t[b] == s[b1]);
        assert(disjoint(s[a1], s[b1], geo));
    }
    assert forall|k: int| 0 <= k < t.len() implies slab_ok(#[trigger] t[k], geo) by {
        let k1 = if k < i {
            k
        } else {
            k + 1
        };
        assert(t[k] == s[k1]);
        assert(s[k1].wf(geo));
        assert(s[k1].state == state_for(s[k1].used_object as int, geo.per_objects as int));
        assert(placed(s[k1], geo));
        assert(t[k].wf(geo));
        assert(placed(t[k], geo));
    }
}

/// The slab pool of one cache, with its shared array cache. The partial, full
/// and free lists are the slabs in each state, in the order they were made.
pub struct CacheNode {
    pub shared: ArrayCache,
    pub slabs: Vec<Slab>,
    /// Slabs on the free list.
    pub free_len: u32,
}

impl CacheNode {
    pub open spec fn held(&self, geo: SlabGeometry, a: int) -> bool {
        held_in(self.slabs@, geo, a)
    }

    pub open spec fn used_sum(&self) -> int {
        sum_slabs(self.slabs@, Measure::Used)
    }

    /// Slots of the existing slabs not handed out.
    pub open spec fn free_slots(&self, geo: SlabGeometry) -> int {
        self.slabs@.len() * geo.per_objects - self.used_sum()
    }

    pub open spec fn count(&self, st: SlabState) -> int {
        sum_slabs(self.slabs@, Measure::Count(st))
    }

    /// Everything but the bound on the free list.
    pub open spec fn wf_loose(&self, geo: SlabGeometry) -> bool {
        &&& geo.wf()
        &&& self.shared.wf()
        &&& self.shared@.len() as int % (PER_CPU_OBJECTS / 2) as int == 0
        &&& slabs_wf(self.slabs@, geo)
        &&& self.free_len == self.count(SlabState::Free)
        &&& self.slabs@.len() <= MAX_SLABS
    }

    pub open spec fn wf(&self, geo: SlabGeometry) -> bool {
        &&& self.wf_loose(geo)
        &&& self.free_len <= FREE_LIST_MAX
    }

    pub fn new() -> (r: Self)
        ensures
            r.shared@ == Seq::<usize>::empty(),
            r.slabs@.len() == 0,
            r.free_len == 0,
            r.shared.wf(),
    {
        CacheNode { shared: ArrayCache::new(), slabs: Vec::new(), free_len: 0 }
    }

    /// Empties the pool without returning frames.
    pub fn init(&mut self)
        ensures
            final(self).shared@ == Seq::<usize>::empty(),
            final(self).slabs@.len() == 0,
            final(self).free_len == 0,
            final(self).shared.wf(),
    {
        self.shared.init();
        self.slabs = Vec::new();
        self.free_len = 0;
    }

    /// Index of the first slab on list `st`.
    fn first_in_state(&self, st: SlabState) -> (r: Option<usize>)
        ensures
            r matches Some(i) ==> first_in(self.slabs@, st, i as int),
            r is None ==> forall|j: int| 0 <= j < self.slabs@.len() ==> #[trigger] self.slabs@[j].state != st,
    {
        let mut i: usize = 0;
        while i < self.slabs.len()
            invariant
                0 <= i <= self.slabs@.len(),
                forall|j: int| 0 <= j < i ==> #[trigger] self.slabs@[j].state != st,
            decreases self.slabs@.len() - i,
        {
            if self.slabs[i].state == st {
                return Some(i);
            }
            i = i + 1;
        }
        None
    }

    /// Whether a slab may be placed on the frames at `addr`: not null,
    /// frame-aligned, not wrapping around, and clear of every slab of the pool.
    pub open spec fn usable(&self, geo: SlabGeometry, addr: int) -> bool {
        &&& addr != 0
        &&& addr % (geo.frame_size as int) == 0
        &&& addr + geo.slab_bytes <= usize::MAX
        &&& forall|j: int|
            0 <= j < self.slabs@.len() ==> (addr + geo.slab_bytes <= #[trigger] self.slabs@[j].start
                || self.slabs@[j].start + geo.slab_bytes <= addr)
    }

    /// Tests a frame run the frame source handed over before a slab goes on it.
    pub fn frames_usable(&self, geo: SlabGeometry, addr: usize) -> (r: bool)
        requires
            geo.wf(),
            forall|j: int| 0 <= j < self.slabs@.len() ==> #[trigger] self.slabs@[j].wf(geo),
        ensures
            r == self.usable(geo, addr as int),
    {
        if addr == 0 || addr > usize::MAX - geo.slab_bytes || addr % geo.frame_size != 0 {
            return false;
        }
        let mut i: usize = 0;
        while i < self.slabs.len()
            invariant
                0 <= i <= self.slabs@.len(),
                addr + geo.slab_bytes <= usize::MAX,
                forall|j: int| 0 <= j < self.slabs@.len() ==> #[trigger] self.slabs@[j].wf(geo),
                forall|j: int|
                    0 <= j < i ==> (addr + geo.slab_bytes <= #[trigger] self.slabs@[j].start
                        || self.slabs@[j].start + geo.slab_bytes <= addr),
            decreases self.slabs@.len() - i,
        {
            proof {
                assert(self.slabs@[i as int].wf(geo));
            }
            let s = self.slabs[i].start;
            if !(addr + geo.slab_bytes <= s || s + geo.slab_bytes <= addr) {
                return false;
            }
            i = i + 1;
        }
        true
    }

    /// Makes a new slab from fresh frames and puts it on the free list.
    fn grow<F: FrameSource>(&mut self, frames: &mut FrameLedger<F>, geo: SlabGeometry, color_next: &mut u32) -> (r:
        Result<(), SlabError>)
        requires
            old(self).wf(geo),
            old(self).free_len == 0,
            *old(color_next) <= geo.color,
        ensures
            final(self).wf(geo),
            final(self).shared == old(self).shared,
            *final(color_next) <= geo.color,
            forall|a: int| final(self).held(geo, a) == old(self).held(geo, a),
            final(self).used_sum() == old(self).used_sum(),
            r is Ok ==> {
                &&& final(self).free_len == 1
                &&& final(self).slabs@.len() == old(self).slabs@.len() + 1
                &&& final(self).slabs@.subrange(0, old(self).slabs@.len() as int) == old(self).slabs@
                &&& final(self).slabs@.last().color_off == *old(color_next)
                &&& final(self).slabs@.last().used_object == 0
                &&& old(self).usable(geo, final(self).slabs@.last().start as int)
                &&& *final(color_next) == (*old(color_next) + 1) % (geo.color + 1)
                &&& final(frames).returned() == old(frames).returned()
            },
            r is Err ==> {
                &&& r == Err::<(), SlabError>(SlabError::CantAllocFrame)
                &&& *final(self) == *old(self)
                &&& *final(color_next) == *old(color_next)
                &&& final(frames).returned() == old(frames).returned() || exists|a: usize|
                    !old(self).usable(geo, a as int) && a != 0 && final(frames).returned()
                        == old(frames).returned().push((a, geo.frames))
            },
            old(self).slabs@.len() >= MAX_SLABS ==> r is Err && final(frames).returned()
                == old(frames).returned(),
    {
        if self.slabs.len() >= MAX_SLABS {
            return Err(SlabError::CantAllocFrame);
        }
        let start = frames.alloc_frames(geo.frames);
        if start == 0 {
            return Err(SlabError::CantAllocFrame);
        }
        proof {
            assert forall|j: int| 0 <= j < self.slabs@.len() implies #[trigger] self.slabs@[j].wf(geo) by {
                assert(slab_ok(self.slabs@[j], geo));
            }
        }
        if !self.frames_usable(geo, start) {
            frames.free_frames(start, geo.frames);
            return Err(SlabError::CantAllocFrame);
        }
        let slot = *color_next;
        proof {
            assert(geo.cache_line * slot <= geo.cache_line * geo.color) by (nonlinear_arith)
                requires
                    slot <= geo.color,
            ;
            assert(geo.cache_line * slot >= 0) by (nonlinear_arith)
                requires
                    slot >= 0,
                    geo.cache_line >= 0,
            ;
        }
        let first = start + geo.desc_bytes + geo.cache_line * slot as usize;
        let slab = Slab::new(start, first, slot, geo);
        let ghost old_slabs = self.slabs@;
        self.slabs.push(slab);
        self.free_len = self.free_len + 1;
        *color_next = if (slot as usize) < geo.color {
            slot + 1
        } else {
            0
        };
        proof {
            let s = self.slabs@;
            assert(s.subrange(0, old_slabs.len() as int) =~= old_slabs);
            if (slot as int) < geo.color {
                vstd::arithmetic::div_mod::lemma_small_mod((slot + 1) as nat, (geo.color + 1) as nat);
            } else {
                vstd::arithmetic::div_mod::lemma_mod_self_0((geo.color + 1) as int);
            }
            lemma_sum_push(old_slabs, slab, Measure::Used);
            lemma_sum_push(old_slabs, slab, Measure::Count(SlabState::Free));
            assert(s[s.len() - 1] == slab);
            assert forall|a: int| self.held(geo, a) == held_in(old_slabs, geo, a) by {
                if self.held(geo, a) {
                    let j = choose|j: int| 0 <= j < s.len() && #[trigger] s[j].holds(geo, a);
                    if j < old_slabs.len() {
                        assert(old_slabs[j].holds(geo, a));
                    }
                }
                if held_in(old_slabs, geo, a) {
                    let j = choose|j: int| 0 <= j < old_slabs.len() && #[trigger] old_slabs[j].holds(geo, a);
                    assert(s[j].holds(geo, a));
                }
            }
            assert forall|i: int, j: int|
                0 <= i < s.len() && 0 <= j < s.len() && i != j implies disjoint(
                #[trigger] s[i],
                #[trigger] s[j],
                geo,
            ) by {
                if i < old_slabs.len() && j < old_slabs.len() {
                    assert(s[i] == old_slabs[i] && s[j] == old_slabs[j]);
                } else if i < old_slabs.len() {
                    assert(s[i] == old_slabs[i]);
                } else {
                    assert(s[j] == old_slabs[j]);
                }
            }
            assert forall|k: int| 0 <= k < s.len() implies slab_ok(#[trigger] s[k], geo) by {
                if k < old_slabs.len() {
                    assert(s[k] == old_slabs[k]);
                    assert(old_slabs[k].wf(geo));
                } else {
                    assert(s[k] == slab);
                    assert(slab.wf(geo));
                    assert(placed(slab, geo));
                }
            }
        }
        Ok(())
    }

    /// The slab the next object comes from: the first partial slab, else the
    /// first free one, else a new slab put on the free list.
    fn pick_slab<F: FrameSource>(&mut self, frames: &mut FrameLedger<F>, geo: SlabGeometry, color_next: &mut u32) -> (r:
        Result<usize, SlabError>)
        requires
            old(self).wf(geo),
            *old(color_next) <= geo.color,
        ensures
            final(self).wf(geo),
            final(self).shared == old(self).shared,
            *final(color_next) <= geo.color,
            forall|a: int| final(self).held(geo, a) == old(self).held(geo, a),
            final(self).used_sum() == old(self).used_sum(),
            final(frames).returned() == old(frames).returned() || r is Err,
            old(self).count(SlabState::Partial) > 0 || old(self).count(SlabState::Free) > 0 ==> {
                &&& r is Ok
                &&& *final(self) == *old(self)
                &&& *final(color_next) == *old(color_next)
            },
            final(self).slabs@.len() == old(self).slabs@.len() ==> *final(self) == *old(self)
                && *final(color_next) == *old(color_next),
            final(self).slabs@.len() != old(self).slabs@.len() ==> {
                &&& final(self).slabs@.len() == old(self).slabs@.len() + 1
                &&& final(self).slabs@.subrange(0, old(self).slabs@.len() as int) == old(self).slabs@
                &&& final(self).slabs@.last().used_object == 0
                &&& *final(color_next) == (*old(color_next) + 1) % (geo.color + 1)
            },
            match r {
                Ok(i) => {
                    &&& i < final(self).slabs@.len()
                    &&& final(self).slabs@[i as int].state != SlabState::Full
                    &&& (old(self).count(SlabState::Partial) > 0 ==> first_in(
                        old(self).slabs@,
                        SlabState::Partial,
                        i as int,
                    ))
                    &&& (old(self).count(SlabState::Partial) == 0 && old(self).count(SlabState::Free)
                        > 0 ==> first_in(old(self).slabs@, SlabState::Free, i as int))
                    &&& (i >= old(self).slabs@.len() ==> i == old(self).slabs@.len())
                    &&& (final(self).slabs@.len() != old(self).slabs@.len() ==> i == old(
                        self,
                    ).slabs@.len())
                    &&& (final(self).slabs@[i as int].state == SlabState::Free ==> final(self).free_len
                        >= 1)
                },
                Err(e) => e == SlabError::CantAllocFrame && *final(self) == *old(self),
            },
    {
        let ghost s0 = self.slabs@;
        let i = match self.first_in_state(SlabState::Partial) {
            Some(i) => {
                proof {
                    assert(first_in(s0, SlabState::Partial, i as int));
                    lemma_sum_remove(s0, i as int, Measure::Count(SlabState::Partial));
                    lemma_sum_nonneg(s0.remove(i as int), Measure::Count(SlabState::Partial));
                }
                i
            },
            None => {
                proof {
                    if self.count(SlabState::Partial) > 0 {
                        lemma_count_positive(self.slabs@, SlabState::Partial);
                    }
                }
                let j = match self.first_in_state(SlabState::Free) {
                    Some(j) => {
                        proof {
                            assert(first_in(s0, SlabState::Free, j as int));
                        }
                        j
                    },
                    None => {
                        proof {
                            if self.free_len > 0 {
                                lemma_count_positive(self.slabs@, SlabState::Free);
                            }
                            if self.count(SlabState::Partial) > 0 {
                                lemma_count_positive(self.slabs@, SlabState::Partial);
                            }
                        }
                        match self.grow(frames, geo, color_next) {
                            Ok(()) => {},
                            Err(e) => {
                                return Err(e);
                            },
                        }
                        proof {
                            lemma_count_positive(self.slabs@, SlabState::Free);
                            let k = self.slabs@.len() - 1;
                            assert(self.slabs@[k] == self.slabs@.last());
                            assert(slab_ok(self.slabs@[k], geo));
                            assert forall|m: int| 0 <= m < k implies #[trigger] self.slabs@[m].state
                                != SlabState::Free by {
                                assert(self.slabs@[m] == s0[m]);
                            }
                        }
                        match self.first_in_state(SlabState::Free) {
                            Some(j) => {
                                proof {
                                    if j < s0.len() {
                                        assert(self.slabs@[j as int] == s0[j as int]);
                                    }
                                }
                                j
                            },
                            None => {
                                proof {
                                    assert(self.slabs@[self.slabs@.len() - 1].state != SlabState::Free);
                                }
                                return Err(SlabError::CantAllocFrame);
                            },
                        }
                    },
                };
                j
            },
        };
        proof {
            if self.slabs@[i as int].state == SlabState::Free {
                lemma_sum_nonneg(self.slabs@.remove(i as int), Measure::Count(SlabState::Free));
                lemma_sum_remove(self.slabs@, i as int, Measure::Count(SlabState::Free));
            }
            if old(self).count(SlabState::Partial) > 0 {
                lemma_count_positive(old(self).slabs@, SlabState::Partial);
            }
            assert(i < self.slabs@.len());
            assert(slab_ok(self.slabs@[i as int], geo));
            assert(self.slabs@[i as int].state != SlabState::Full);
            assert(i >= s0.len() ==> i == s0.len());
            assert(old(self).count(SlabState::Partial) > 0 ==> first_in(s0, SlabState::Partial, i as int));
            assert(old(self).count(SlabState::Partial) == 0 && old(self).count(SlabState::Free) > 0 ==> first_in(s0, SlabState::Free, i as int));
        }
        Ok(i)
    }

    /// Hands out one object from the slab pool: from the first partial slab,
    /// else from the first free slab, else from a new slab.
    pub fn alloc_inner<F: FrameSource>(
        &mut self,
        frames: &mut FrameLedger<F>,
        geo: SlabGeometry,
        color_next: &mut u32,
    ) -> (r: Result<(usize, usize), SlabError>)
        requires
            old(self).wf(geo),
            *old(color_next) <= geo.color,
        ensures
            final(self).wf(geo),
            final(self).shared == old(self).shared,
            *final(color_next) <= geo.color,
            old(self).count(SlabState::Partial) > 0 || old(self).count(SlabState::Free) > 0 ==> {
                &&& r is Ok
                &&& final(self).slabs@.len() == old(self).slabs@.len()
                &&& *final(color_next) == *old(color_next)
            },
            final(self).slabs@.len() == old(self).slabs@.len() ==> *final(color_next) == *old(color_next),
            final(self).slabs@.len() != old(self).slabs@.len() ==> {
                &&& final(self).slabs@.len() == old(self).slabs@.len() + 1
                &&& *final(color_next) == (*old(color_next) + 1) % (geo.color + 1)
            },
            r matches Ok((addr, _)) ==> !old(self).held(geo, addr as int),
            r matches Ok((addr, _)) ==> forall|a: int|
                #[trigger] final(self).held(geo, a) == (old(self).held(geo, a) || a == addr),
            r is Ok ==> final(self).used_sum() == old(self).used_sum() + 1,
            r is Ok ==> final(frames).returned() == old(frames).returned(),
            r matches Ok((addr, i)) ==> served_by(*old(self), *final(self), geo, addr as int, i as int),
            r is Err ==> r == Err::<(usize, usize), SlabError>(SlabError::CantAllocFrame) && *final(self) == *old(self),
            r is Err ==> forall|a: int| #[trigger] final(self).held(geo, a) == old(self).held(geo, a),
            r is Err ==> final(self).used_sum() == old(self).used_sum(),
    {
        let ghost s0 = self.slabs@;
        let i = match self.pick_slab(frames, geo, color_next) {
            Ok(i) => i,
            Err(e) => {
                return Err(e);
            },
        };
        let ghost s1 = self.slabs@;
        let ghost p1 = *self;
        proof {
            assert(s1[i as int].wf(geo));
            if s1[i as int].state == SlabState::Full {
                assert(false);
            }
            assert(s1[i as int].next_free < geo.per_objects);
        }
        let mut slab = self.slabs.remove(i);
        let was_free = slab.state == SlabState::Free;
        let addr = slab.alloc_object(geo);
        let ghost after = slab;
        slab.state = if slab.used_object as usize == geo.per_objects {
            SlabState::Full
        } else {
            SlabState::Partial
        };
        self.slabs.insert(i, slab);
        proof {
            lemma_sum_update(s1, i as int, slab, Measure::Count(SlabState::Free));
            lemma_sum_nonneg(s1.update(i as int, slab), Measure::Count(SlabState::Free));
            assert(slab.state != SlabState::Free);
        }
        if was_free {
            self.free_len = self.free_len - 1;
        }
        proof {
            let s2 = self.slabs@;
            assert(s2 =~= s1.update(i as int, slab));
            lemma_sum_update(s1, i as int, slab, Measure::Used);
            assert forall|a: int| #[trigger] held_in(s2, geo, a) == (held_in(s1, geo, a) || a == addr) by {
                lemma_held_update(s1, geo, i as int, slab, a);
                assert(slab.holds(geo, a) == after.holds(geo, a));
                assert(after.holds(geo, a) == (s1[i as int].holds(geo, a) || a == addr));
            }
            assert(!held_in(s1, geo, addr as int)) by {
                assert(!s1[i as int].holds(geo, addr as int));
                assert(after.holds(geo, addr as int));
                after.lemma_holds_in_range(geo, addr as int);
                if held_in(s1, geo, addr as int) {
                    let j = choose|j: int| 0 <= j < s1.len() && #[trigger] s1[j].holds(geo, addr as int);
                    assert(j != i);
                    assert(slab_ok(s1[j], geo));
                    s1[j].lemma_holds_in_range(geo, addr as int);
                    assert(disjoint(s1[i as int], s1[j], geo));
                }
            }
            assert forall|k: int| 0 <= k < s2.len() implies slab_ok(#[trigger] s2[k], geo) by {
                if k != i {
                    assert(s2[k] == s1[k]);
                }
            }
            assert forall|a: int, b: int|
                0 <= a < s2.len() && 0 <= b < s2.len() && a != b implies disjoint(
                #[trigger] s2[a],
                #[trigger] s2[b],
                geo,
            ) by {
                assert(disjoint(s1[a], s1[b], geo));
            }
            assert(s2[i as int].holds(geo, addr as int));
            if s1.len() != s0.len() {
                assert(s1.subrange(0, s0.len() as int) == s0);
                assert(i as int == s0.len());
                assert(s1[i as int].used_object == 0);
            }
            assert forall|j: int| 0 <= j < s0.len() && j != i implies #[trigger] s2[j] == s0[j] by {
                if s1.len() != s0.len() {
                    assert(s1.subrange(0, s0.len() as int)[j] == s0[j]);
                }
            }
            if i < s0.len() {
                if s1.len() != s0.len() {
                    assert(s1.subrange(0, s0.len() as int)[i as int] == s0[i as int]);
                }
                assert(s1[i as int] == s0[i as int]);
            }
            assert(s2[i as int].used_object == (if i < s0.len() {
                s0[i as int].used_object as int
            } else {
                0
            }) + 1);
            let ii = i as int;
            assert(s0 == old(self).slabs@);
            assert({
                &&& 0 <= ii < s2.len()
                &&& s2[ii].holds(geo, addr as int)
                &&& s2[ii].used_object == (if ii < s0.len() {
                    s0[ii].used_object as int
                } else {
                    0
                }) + 1
                &&& (old(self).count(SlabState::Partial) > 0 ==> first_in(s0, SlabState::Partial, ii))
                &&& (old(self).count(SlabState::Partial) == 0 && old(self).count(SlabState::Free) > 0
                    ==> first_in(s0, SlabState::Free, ii))
                &&& (ii >= s0.len() ==> ii == s0.len())
                &&& forall|j: int| 0 <= j < s0.len() && j != ii ==> #[trigger] s2[j] == s0[j]
            });
            assert(frames.returned() == old(frames).returned());
            assert(self.used_sum() == old(self).used_sum() + 1);
            assert(p1.held(geo, addr as int) == old(self).held(geo, addr as int));
            assert(!old(self).held(geo, addr as int));
            assert forall|a: int| #[trigger] self.held(geo, a) == (old(self).held(geo, a) || a == addr) by {
                assert(p1.held(geo, a) == old(self).held(geo, a));
                assert(held_in(s2, geo, a) == (held_in(s1, geo, a) || a == addr));
            }
            assert(served_by(*old(self), *self, geo, addr as int, ii));
        }
        Ok((addr, i))
    }

    /// Index of the partial or full slab whose frames hold `addr`.
    pub fn is_in_cache(&self, geo: SlabGeometry, addr: usize) -> (r: Result<usize, SlabError>)
        requires
            self.wf(geo),
        ensures
            match r {
                Ok(i) => i < self.slabs@.len() && self.slabs@[i as int].in_range(geo, addr as int)
                    && self.slabs@[i as int].state != SlabState::Free,
                Err(e) => e == SlabError::NotInCache && forall|j: int|
                    0 <= j < self.slabs@.len() && #[trigger] self.slabs@[j].state
                        != SlabState::Free ==> !self.slabs@[j].in_range(geo, addr as int),
            },
            self.held(geo, addr as int) ==> (r matches Ok(i) && self.slabs@[i as int].holds(
                geo,
                addr as int,
            )),
    {
        let mut i: usize = 0;
        while i < self.slabs.len()
            invariant
                self.wf(geo),
                0 <= i <= self.slabs@.len(),
                forall|j: int|
                    0 <= j < i && #[trigger] self.slabs@[j].state == SlabState::Partial
                        ==> !self.slabs@[j].in_range(geo, addr as int),
            decreases self.slabs@.len() - i,
        {
            if self.slabs[i].state == SlabState::Partial && self.slabs[i].is_in_slab(geo, addr) {
                proof {
                    self.lemma_in_range_holder(geo, i as int, addr as int);
                }
                return Ok(i);
            }
            i = i + 1;
        }
        let mut i: usize = 0;
        while i < self.slabs.len()
            invariant
                self.wf(geo),
                0 <= i <= self.slabs@.len(),
                forall|j: int|
                    0 <= j < self.slabs@.len() && #[trigger] self.slabs@[j].state == SlabState::Partial
                        ==> !self.slabs@[j].in_range(geo, addr as int),
                forall|j: int|
                    0 <= j < i && #[trigger] self.slabs@[j].state == SlabState::Full
                        ==> !self.slabs@[j].in_range(geo, addr as int),
            decreases self.slabs@.len() - i,
        {
            if self.slabs[i].state == SlabState::Full && self.slabs[i].is_in_slab(geo, addr) {
                proof {
                    self.lemma_in_range_holder(geo, i as int, addr as int);
                }
                return Ok(i);
            }
            i = i + 1;
        }
        proof {
            if self.held(geo, addr as int) {
                let j = choose|j: int|
                    0 <= j < self.slabs@.len() && #[trigger] self.slabs@[j].holds(geo, addr as int);
                self.slabs@[j].lemma_holds_in_range(geo, addr as int);
                let sj = self.slabs@[j];
                assert(sj.wf(geo));
                assert(sj.state == state_for(sj.used_object as int, geo.per_objects as int));
                assert(sj.held_indices().contains(sj.slot_of(geo, addr as int) as u32));
                assert(sj.held_indices().len() > 0);
                assert(sj.state != SlabState::Free);
            }
        }
        Err(SlabError::NotInCache)
    }

    /// An address held by the pool is held by the slab whose frames contain it.
    proof fn lemma_in_range_holder(&self, geo: SlabGeometry, i: int, a: int)
        requires
            self.wf(geo),
            0 <= i < self.slabs@.len(),
            self.slabs@[i].in_range(geo, a),
        ensures
            self.held(geo, a) ==> self.slabs@[i].holds(geo, a),
    {
        if self.held(geo, a) {
            let j = choose|j: int|
                0 <= j < self.slabs@.len() && #[trigger] self.slabs@[j].holds(geo, a);
            self.slabs@[j].lemma_holds_in_range(geo, a);
            if j != i {
                assert(disjoint(self.slabs@[i], self.slabs@[j], geo));
            }
        }
    }

    /// Hands frames of surplus free slabs back until the free list is within
    /// its bound, oldest free slab first.
    pub fn check_and_reclaim<F: FrameSource>(&mut self, frames: &mut FrameLedger<F>, geo: SlabGeometry)
        requires
            old(self).wf_loose(geo),
            old(self).free_len <= FREE_LIST_MAX + 1,
        ensures
            final(self).wf(geo),
            final(self).shared == old(self).shared,
            forall|a: int| #[trigger] final(self).held(geo, a) == old(self).held(geo, a),
            final(self).used_sum() == old(self).used_sum(),
            old(self).free_len <= FREE_LIST_MAX ==> *final(self) == *old(self) && *final(frames)
                == *old(frames),
            old(self).free_len > FREE_LIST_MAX ==> {
                let j = first_index(old(self).slabs@, SlabState::Free);
                &&& first_in(old(self).slabs@, SlabState::Free, j)
                &&& final(self).slabs@ == old(self).slabs@.remove(j)
                &&& final(self).free_len == FREE_LIST_MAX
                &&& final(frames).returned() == old(frames).returned().push(
                    (old(self).slabs@[j].start, geo.frames),
                )
            },
    {
        if self.free_len as usize > FREE_LIST_MAX {
            proof {
                lemma_count_positive(self.slabs@, SlabState::Free);
            }
            let j = match self.first_in_state(SlabState::Free) {
                Some(j) => j,
                None => {
                    return;
                },
            };
            let ghost s1 = self.slabs@;
            let slab = self.slabs.remove(j);
            frames.free_frames(slab.start, geo.frames);
            self.free_len = self.free_len - 1;
            proof {
                lemma_first_unique(s1, SlabState::Free, j as int);
                assert(s1[j as int] == slab);
                assert(slab_ok(slab, geo));
                assert(slab.state == state_for(slab.used_object as int, geo.per_objects as int));
                lemma_sum_remove(s1, j as int, Measure::Used);
                lemma_sum_remove(s1, j as int, Measure::Count(SlabState::Free));
                lemma_held_remove(s1, geo, j as int);
                lemma_slabs_wf_remove(s1, geo, j as int);
                assert(self.slabs@ == s1.remove(j as int));
                assert forall|a: int| #[trigger] self.held(geo, a) == old(self).held(geo, a) by {
                    assert(held_in(s1.remove(j as int), geo, a) == held_in(s1, geo, a));
                }
            }
        }
    }

    /// Returns one object to the slab that holds it.
    pub fn dealloc_inner<F: FrameSource>(&mut self, frames: &mut FrameLedger<F>, geo: SlabGeometry, addr: usize) -> (r:
        Result<usize, SlabError>)
        requires
            old(self).wf(geo),
        ensures
            final(self).wf(geo),
            final(self).shared == old(self).shared,
            r is Err <==> !old(self).held(geo, addr as int),
            r is Err ==> r == Err::<usize, SlabError>(SlabError::NotInCache) && *final(self) == *old(self)
                && *final(frames) == *old(frames),
            r is Ok ==> forall|a: int|
                #[trigger] final(self).held(geo, a) == (old(self).held(geo, a) && a != addr),
            r is Ok ==> final(self).used_sum() == old(self).used_sum() - 1,
            r matches Ok(i) ==> {
                let o = old(self).slabs@[i as int];
                let n = final(self).slabs@[i as int];
                &&& i < old(self).slabs@.len()
                &&& o.holds(geo, addr as int)
                &&& (o.used_object > 1 || old(self).free_len < FREE_LIST_MAX) ==> {
                    &&& final(self).slabs@.len() == old(self).slabs@.len()
                    &&& forall|j: int|
                        0 <= j < old(self).slabs@.len() && j != i ==> #[trigger] final(self).slabs@[j]
                            == old(self).slabs@[j]
                    &&& n.used_object == o.used_object - 1
                    &&& n.start == o.start
                    &&& n.state == (if o.used_object > 1 {
                        SlabState::Partial
                    } else {
                        SlabState::Free
                    })
                    &&& *final(frames) == *old(frames)
                }
                &&& (o.used_object == 1 && old(self).free_len == FREE_LIST_MAX) ==> {
                    &&& final(self).slabs@.len() == old(self).slabs@.len() - 1
                    &&& final(frames).returned().len() == old(frames).returned().len() + 1
                }
            },
    {
        let i = match self.is_in_cache(geo, addr) {
            Ok(i) => i,
            Err(e) => {
                return Err(e);
            },
        };
        if !self.slabs[i].holds_object(geo, addr) {
            return Err(SlabError::NotInCache);
        }
        let ghost s1 = self.slabs@;
        let mut slab = self.slabs.remove(i);
        let was_full = slab.state == SlabState::Full;
        slab.dealloc(geo, addr);
        let ghost after = slab;
        let now_free = slab.used_object == 0;
        slab.state = if now_free {
            SlabState::Free
        } else {
            SlabState::Partial
        };
        self.slabs.insert(i, slab);
        if now_free {
            self.free_len = self.free_len + 1;
        }
        proof {
            let s2 = self.slabs@;
            assert(s2 =~= s1.update(i as int, slab));
            lemma_sum_update(s1, i as int, slab, Measure::Used);
            lemma_sum_update(s1, i as int, slab, Measure::Count(SlabState::Free));
            assert forall|a: int| #[trigger] held_in(s2, geo, a) == (held_in(s1, geo, a) && a != addr) by {
                lemma_held_update(s1, geo, i as int, slab, a);
                assert(slab.holds(geo, a) == after.holds(geo, a));
                assert(after.holds(geo, a) == (s1[i as int].holds(geo, a) && a != addr));
            }
            assert forall|k: int| 0 <= k < s2.len() implies slab_ok(#[trigger] s2[k], geo) by {
                if k != i {
                    assert(s2[k] == s1[k]);
                }
            }
            assert forall|a: int, b: int|
                0 <= a < s2.len() && 0 <= b < s2.len() && a != b implies disjoint(
                #[trigger] s2[a],
                #[trigger] s2[b],
                geo,
            ) by {
                assert(disjoint(s1[a], s1[b], geo));
            }
            lemma_sum_nonneg(s1, Measure::Count(SlabState::Free));
        }
        let ghost mid = *self;
        let ghost fr = *frames;
        if now_free {
            self.check_and_reclaim(frames, geo);
        }
        proof {
            assert(s1[i as int].holds(geo, addr as int));
            assert(mid.slabs@ =~= s1.update(i as int, slab));
            if mid.free_len > FREE_LIST_MAX {
                lemma_first_unique(mid.slabs@, SlabState::Free, first_index(mid.slabs@, SlabState::Free));
            }
        }
        Ok(i)
    }

    /// Fills a batch for a per-CPU cache: from the top of the shared array
    /// where it holds a batch, else object by object from the slab pool. When
    /// the pool fails part way, the objects taken so far go back.
    pub fn alloc_batch<F: FrameSource>(
        &mut self,
        frames: &mut FrameLedger<F>,
        geo: SlabGeometry,
        color_next: &mut u32,
    ) -> (r: Result<Vec<usize>, SlabError>)
        requires
            old(self).wf(geo),
            *old(color_next) <= geo.color,
        ensures
            final(self).wf(geo),
            *final(color_next) <= geo.color,
            old(self).shared@.len() >= PER_CPU_OBJECTS / 2 ==> {
                &&& r is Ok
                &&& final(self).slabs == old(self).slabs
                &&& final(self).free_len == old(self).free_len
                &&& *final(frames) == *old(frames)
            },
            old(self).shared@.len() < PER_CPU_OBJECTS / 2 && old(self).free_slots(geo)
                >= PER_CPU_OBJECTS / 2 ==> {
                &&& r is Ok
                &&& final(self).slabs@.len() == old(self).slabs@.len()
                &&& final(frames).returned() == old(frames).returned()
            },
            match r {
                Ok(out) => {
                    &&& out@.len() == PER_CPU_OBJECTS / 2
                    &&& {
                        ||| {
                            &&& old(self).shared@.len() >= PER_CPU_OBJECTS / 2
                            &&& old(self).shared@ == final(self).shared@ + out@
                            &&& forall|a: int|
                                #[trigger] final(self).held(geo, a) == old(self).held(geo, a)
                            &&& final(self).used_sum() == old(self).used_sum()
                        }
                        ||| {
                            &&& old(self).shared@.len() < PER_CPU_OBJECTS / 2
                            &&& final(self).shared == old(self).shared
                            &&& out@.no_duplicates()
                            &&& forall|a: usize|
                                #[trigger] final(self).held(geo, a as int) == (old(self).held(
                                    geo,
                                    a as int,
                                ) || out@.contains(a))
                            &&& forall|k: int|
                                0 <= k < out@.len() ==> !old(self).held(geo, #[trigger] out@[k] as int)
                            &&& final(self).used_sum() == old(self).used_sum() + out@.len()
                        }
                    }
                },
                Err(e) => {
                    &&& e == SlabError::CantAllocFrame
                    &&& final(self).shared == old(self).shared
                    &&& forall|a: usize|
                        #[trigger] final(self).held(geo, a as int) == old(self).held(geo, a as int)
                    &&& final(self).used_sum() == old(self).used_sum()
                },
            },
    {
        if self.shared.avail >= self.shared.batch_count {
            let out = self.shared.pop_back();
            proof {
                lemma_batch_multiple(old(self).shared@.len() as int);
            }
            return Ok(out);
        }
        let ghost s0 = *self;
        proof {
            assert(s0 == *old(self));
        }
        let batch = PER_CPU_OBJECTS / 2;
        let mut out: Vec<usize> = Vec::new();
        while out.len() < batch
            invariant
                self.wf(geo),
                s0 == *old(self),
                *color_next <= geo.color,
                self.shared == s0.shared,
                batch == PER_CPU_OBJECTS / 2,
                out@.len() <= batch,
                out@.no_duplicates(),
                forall|a: usize|
                    #[trigger] self.held(geo, a as int) == (s0.held(geo, a as int) || out@.contains(a)),
                forall|k: int| 0 <= k < out@.len() ==> !s0.held(geo, #[trigger] out@[k] as int),
                self.used_sum() == s0.used_sum() + out@.len(),
                s0.shared@.len() < PER_CPU_OBJECTS / 2,
                s0.free_slots(geo) >= PER_CPU_OBJECTS / 2 ==> {
                    &&& self.slabs@.len() == s0.slabs@.len()
                    &&& frames.returned() == old(frames).returned()
                },
            decreases batch - out@.len(),
        {
            proof {
                if s0.free_slots(geo) >= PER_CPU_OBJECTS / 2 {
                    lemma_room_means_open_slab(self.slabs@, geo);
                }
            }
            match self.alloc_inner(frames, geo, color_next) {
                Ok((a, _)) => {
                    proof {
                        assert(!out@.contains(a)) by {
                            if out@.contains(a) {
                                assert(self.held(geo, a as int));
                            }
                        }
                    }
                    let ghost prev = out@;
                    out.push(a);
                    proof {
                        assert(out@ == prev.push(a));
                        assert forall|k: int| 0 <= k < out@.len() implies !s0.held(
                            geo,
                            #[trigger] out@[k] as int,
                        ) by {
                            if k < prev.len() {
                                assert(out@[k] == prev[k]);
                            }
                        }
                        assert forall|x: usize| #[trigger] out@.contains(x) == (prev.contains(x) || x == a) by {
                            if out@.contains(x) {
                                let k = choose|k: int| 0 <= k < out@.len() && out@[k] == x;
                                if k < prev.len() {
                                    assert(prev[k] == x);
                                }
                            }
                            if prev.contains(x) {
                                let k = choose|k: int| 0 <= k < prev.len() && prev[k] == x;
                                assert(out@[k] == x);
                            }
                            if x == a {
                                assert(out@[prev.len() as int] == a);
                            }
                        }
                        assert(out@.no_duplicates()) by {
                            assert forall|i: int, j: int|
                                0 <= i < out@.len() && 0 <= j < out@.len() && i != j implies out@[i]
                                != out@[j] by {
                                if i < prev.len() && j < prev.len() {
                                    assert(out@[i] == prev[i] && out@[j] == prev[j]);
                                } else if i < prev.len() {
                                    assert(prev.contains(out@[i]));
                                } else if j < prev.len() {
                                    assert(prev.contains(out@[j]));
                                }
                            }
                        }
                    }
                },
                Err(e) => {
                    self.give_back(frames, geo, out, Ghost(s0));
                    proof {
                        assert(e == SlabError::CantAllocFrame);
                        assert(self.shared == s0.shared);
                        assert(self.used_sum() == s0.used_sum());
                        assert(self.wf(geo));
                        assert forall|a: usize| #[trigger] self.held(geo, a as int) == old(self).held(geo, a as int) by {
                            assert(s0.held(geo, a as int) == old(self).held(geo, a as int));
                        }
                    }
                    return Err(e);
                },
            }
        }
        Ok(out)
    }

    /// Returns a partly filled batch to the slab pool.
    fn give_back<F: FrameSource>(
        &mut self,
        frames: &mut FrameLedger<F>,
        geo: SlabGeometry,
        out: Vec<usize>,
        Ghost(s0): Ghost<CacheNode>,
    )
        requires
            old(self).wf(geo),
            out@.no_duplicates(),
            forall|a: usize|
                #[trigger] old(self).held(geo, a as int) == (s0.held(geo, a as int) || out@.contains(a)),
            forall|k: int| 0 <= k < out@.len() ==> !s0.held(geo, #[trigger] out@[k] as int),
            old(self).used_sum() == s0.used_sum() + out@.len(),
        ensures
            final(self).wf(geo),
            final(self).shared == old(self).shared,
            forall|a: usize| #[trigger] final(self).held(geo, a as int) == s0.held(geo, a as int),
            final(self).used_sum() == s0.used_sum(),
    {
        let mut out = out;
        while out.len() > 0
            invariant
                self.wf(geo),
                self.shared == old(self).shared,
                out@.no_duplicates(),
                forall|a: usize|
                    #[trigger] self.held(geo, a as int) == (s0.held(geo, a as int) || out@.contains(a)),
                forall|k: int| 0 <= k < out@.len() ==> !s0.held(geo, #[trigger] out@[k] as int),
                self.used_sum() == s0.used_sum() + out@.len(),
            decreases out@.len(),
        {
            let ghost prev = out@;
            let a = match out.pop() {
                Some(a) => a,
                None => {
                    return;
                },
            };
            proof {
                assert(prev.contains(a)) by {
                    assert(prev[prev.len() - 1] == a);
                }
                assert(out@ =~= prev.drop_last());
                assert(self.held(geo, a as int));
                assert(!out@.contains(a)) by {
                    if out@.contains(a) {
                        let k = choose|k: int| 0 <= k < out@.len() && out@[k] == a;
                        assert(prev[k] == prev[prev.len() - 1]);
                    }
                }
            }
            let _ = self.dealloc_inner(frames, geo, a);
            proof {
                assert forall|x: usize| #[trigger] out@.contains(x) implies prev.contains(x) by {
                    if out@.contains(x) {
                        let k = choose|k: int| 0 <= k < out@.len() && out@[k] == x;
                        assert(prev[k] == x);
                    }
                }
                assert forall|x: usize| #[trigger] prev.contains(x) && x != a implies out@.contains(x) by {
                    if prev.contains(x) && x != a {
                        let k = choose|k: int| 0 <= k < prev.len() && prev[k] == x;
                        assert(k != prev.len() - 1);
                        assert(out@[k] == x);
                    }
                }
                assert forall|k: int| 0 <= k < out@.len() implies !s0.held(
                    geo,
                    #[trigger] out@[k] as int,
                ) by {
                    assert(out@[k] == prev[k]);
                }
            }
        }
    }

    /// Takes a batch spilled by a per-CPU cache. A full shared array first
    /// returns its oldest batch to the slabs.
    pub fn dealloc_batch<F: FrameSource>(&mut self, frames: &mut FrameLedger<F>, geo: SlabGeometry, addrs: &[usize])
        requires
            old(self).wf(geo),
            addrs@.len() == PER_CPU_OBJECTS / 2,
            old(self).shared@.no_duplicates(),
            forall|k: int|
                0 <= k < old(self).shared@.len() ==> old(self).held(
                    geo,
                    #[trigger] old(self).shared@[k] as int,
                ),
        ensures
            final(self).wf(geo),
            old(self).shared@.len() == PER_CPU_OBJECTS ==> {
                &&& final(self).shared@ == old(self).shared@.subrange(
                    (PER_CPU_OBJECTS / 2) as int,
                    PER_CPU_OBJECTS as int,
                ) + addrs@
                &&& forall|a: usize|
                    #[trigger] final(self).held(geo, a as int) == (old(self).held(geo, a as int)
                        && !old(self).shared@.subrange(0, (PER_CPU_OBJECTS / 2) as int).contains(a))
                &&& final(self).used_sum() == old(self).used_sum() - PER_CPU_OBJECTS / 2
            },
            old(self).shared@.len() < PER_CPU_OBJECTS ==> {
                &&& final(self).shared@ == old(self).shared@ + addrs@
                &&& forall|a: int| #[trigger] final(self).held(geo, a) == old(self).held(geo, a)
                &&& final(self).used_sum() == old(self).used_sum()
            },
    {
        if self.shared.is_full() {
            let ghost s0 = *self;
            proof {
                assert(s0 == *old(self));
            }
            let tmp = self.shared.pop();
            let mut i: usize = 0;
            while i < tmp.len()
                invariant
                    self.wf_loose(geo),
                    s0 == *old(self),
                    self.free_len <= FREE_LIST_MAX,
                    tmp@ == s0.shared@.subrange(0, (PER_CPU_OBJECTS / 2) as int),
                    s0.shared@.no_duplicates(),
                    s0.shared@.len() == PER_CPU_OBJECTS,
                    self.shared@ == s0.shared@.subrange((PER_CPU_OBJECTS / 2) as int, PER_CPU_OBJECTS as int),
                    forall|k: int| 0 <= k < s0.shared@.len() ==> s0.held(geo, #[trigger] s0.shared@[k] as int),
                    0 <= i <= tmp@.len(),
                    forall|a: usize|
                        #[trigger] self.held(geo, a as int) == (s0.held(geo, a as int) && !tmp@.subrange(
                            0,
                            i as int,
                        ).contains(a)),
                    self.used_sum() == s0.used_sum() - i,
                decreases tmp@.len() - i,
            {
                let a = tmp[i];
                proof {
                    assert(s0.shared@[i as int] == a);
                    assert(s0.held(geo, a as int));
                    assert(!tmp@.subrange(0, i as int).contains(a)) by {
                        if tmp@.subrange(0, i as int).contains(a) {
                            let k = choose|k: int| 0 <= k < i && #[trigger] tmp@.subrange(0, i as int)[k] == a;
                            assert(s0.shared@[k] == s0.shared@[i as int]);
                        }
                    }
                }
                let _ = self.dealloc_inner(frames, geo, a);
                proof {
                    assert forall|x: usize| #[trigger] tmp@.subrange(0, i + 1).contains(x) == (tmp@.subrange(
                        0,
                        i as int,
                    ).contains(x) || x == a) by {
                        if tmp@.subrange(0, i + 1).contains(x) {
                            let k = choose|k: int| 0 <= k < i + 1 && #[trigger] tmp@.subrange(0, i + 1)[k] == x;
                            if k < i {
                                assert(tmp@.subrange(0, i as int)[k] == x);
                            }
                        }
                        if tmp@.subrange(0, i as int).contains(x) {
                            let k = choose|k: int| 0 <= k < i && #[trigger] tmp@.subrange(0, i as int)[k] == x;
                            assert(tmp@.subrange(0, i + 1)[k] == x);
                        }
                        if x == a {
                            assert(tmp@.subrange(0, i + 1)[i as int] == x);
                        }
                    }
                }
                i = i + 1;
            }
            proof {
                assert(tmp@.subrange(0, i as int) =~= tmp@);
                assert forall|a: usize| #[trigger] self.held(geo, a as int) == (old(self).held(geo, a as int)
                    && !old(self).shared@.subrange(0, (PER_CPU_OBJECTS / 2) as int).contains(a)) by {
                    assert(tmp@.subrange(0, i as int) == old(self).shared@.subrange(0, (PER_CPU_OBJECTS / 2) as int));
                }
            }
        }
        let ghost mid = self.shared@;
        let ghost mid_self = *self;
        self.shared.push(addrs);
        proof {
            lemma_batch_multiple(mid.len() as int);
            assert(self.shared@.len() as int % (PER_CPU_OBJECTS / 2) as int == 0);
            if old(self).shared@.len() == PER_CPU_OBJECTS {
                assert(self.shared@ == old(self).shared@.subrange(
                    (PER_CPU_OBJECTS / 2) as int,
                    PER_CPU_OBJECTS as int,
                ) + addrs@);
                assert(self.used_sum() == old(self).used_sum() - PER_CPU_OBJECTS / 2);
                assert forall|a: usize| #[trigger] self.held(geo, a as int) == (old(self).held(geo, a as int)
                    && !old(self).shared@.subrange(0, (PER_CPU_OBJECTS / 2) as int).contains(a)) by {
                    assert(self.held(geo, a as int) == mid_self.held(geo, a as int));
                }
            } else {
                assert forall|a: int| #[trigger] self.held(geo, a) == old(self).held(geo, a) by {
                    assert(self.held(geo, a) == mid_self.held(geo, a));
                }
            }
        }
    }

    /// Slabs on the three lists together.
    pub fn total_slabs(&self) -> (r: usize)
        ensures
            r == self.slabs@.len(),
    {
        self.slabs.len()
    }

    /// Objects the slabs have handed out: those of partial slabs, and all
    /// objects of full slabs.
    pub fn used_objects(&self, per_objects: usize) -> (r: u64)
        requires
            self.slabs@.len() <= MAX_SLABS,
            per_objects <= u32::MAX,
            forall|i: int| 0 <= i < self.slabs@.len() ==> #[trigger] self.slabs@[i].used_object <= per_objects,
        ensures
            r == sum_slabs(self.slabs@, Measure::UsedOn(SlabState::Partial)) + per_objects * sum_slabs(
                self.slabs@,
                Measure::Count(SlabState::Full),
            ),
    {
        let ghost s = self.slabs@;
        let mut partial_used: u64 = 0;
        let mut full: u64 = 0;
        let mut i: usize = 0;
        while i < self.slabs.len()
            invariant
                s == self.slabs@,
                s.len() <= MAX_SLABS,
                per_objects <= u32::MAX,
                forall|i: int| 0 <= i < s.len() ==> #[trigger] s[i].used_object <= per_objects,
                0 <= i <= s.len(),
                partial_used == sum_slabs(s.subrange(0, i as int), Measure::UsedOn(SlabState::Partial)),
                full == sum_slabs(s.subrange(0, i as int), Measure::Count(SlabState::Full)),
                partial_used <= i * per_objects,
                full <= i,
            decreases s.len() - i,
        {
            let ghost t = s.subrange(0, i + 1);
            proof {
                assert(t.drop_last() =~= s.subrange(0, i as int));
                assert(t.last() == s[i as int]);
                assert(i * per_objects + per_objects == (i + 1) * per_objects) by (nonlinear_arith);
                assert((i + 1) * per_objects <= MAX_SLABS * u32::MAX) by (nonlinear_arith)
                    requires
                        i + 1 <= MAX_SLABS,
                        per_objects <= u32::MAX,
                ;
            }
            match self.slabs[i].state {
                SlabState::Partial => {
                    partial_used = partial_used + self.slabs[i].used_object as u64;
                },
                SlabState::Full => {
                    full = full + 1;
                },
                SlabState::Free => {},
            }
            i = i + 1;
        }
        proof {
            assert(s.subrange(0, s.len() as int) =~= s);
            assert(per_objects * full <= MAX_SLABS * u32::MAX) by (nonlinear_arith)
                requires
                    full <= MAX_SLABS,
                    per_objects <= u32::MAX,
            ;
            assert(i * per_objects <= MAX_SLABS * u32::MAX) by (nonlinear_arith)
                requires
                    i <= MAX_SLABS,
                    per_objects <= u32::MAX,
            ;
        }
        partial_used + per_objects as u64 * full
    }

    /// Hands back the frames of every slab, in list order, and empties the
    /// pool.
    pub fn destroy<F: FrameSource>(&mut self, frames: &mut FrameLedger<F>, geo: SlabGeometry)
        requires
            geo.wf(),
        ensures
            final(self).wf(geo),
            final(self).slabs@.len() == 0,
            final(self).shared@ == Seq::<usize>::empty(),
            forall|a: int| !#[trigger] final(self).held(geo, a),
            final(self).used_sum() == 0,
            final(frames).returned() == old(frames).returned() + slab_runs(old(self).slabs@, geo),
    {
        let mut i: usize = 0;
        while i < self.slabs.len()
            invariant
                self.slabs@ == old(self).slabs@,
                0 <= i <= self.slabs@.len(),
                frames.returned() == old(frames).returned() + slab_runs(
                    self.slabs@.subrange(0, i as int),
                    geo,
                ),
            decreases self.slabs@.len() - i,
        {
            let start = self.slabs[i].start;
            frames.free_frames(start, geo.frames);
            proof {
                let t = self.slabs@.subrange(0, i + 1);
                assert(t.drop_last() =~= self.slabs@.subrange(0, i as int));
                assert(t.last() == self.slabs@[i as int]);
                assert(slab_runs(t, geo) == slab_runs(t.drop_last(), geo).push((start, geo.frames)));
                assert(old(frames).returned() + slab_runs(t, geo) =~= (old(frames).returned()
                    + slab_runs(t.drop_last(), geo)).push((start, geo.frames)));
            }
            i = i + 1;
        }
        proof {
            assert(self.slabs@.subrange(0, i as int) =~= self.slabs@);
        }
        self.init();
        proof {
            assert(self.slabs@ =~= Seq::<Slab>::empty());
            assert(self.shared@.len() == 0);
        }
    }
}

} // verus!
