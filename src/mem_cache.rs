use vstd::prelude::*;
use vstd::multiset::Multiset;
use crate::array_cache::{ArrayCache, PER_CPU_OBJECTS};
use crate::cache_node::{CacheNode, Measure, lemma_used_by_list, sum_slabs};
use crate::error::SlabError;
use crate::frame::{FrameLedger, FrameSource};
use crate::layout::{LayoutMode, MAX_SLAB_BYTES, align_up, layout_spec, mode_for, slab_layout};
use crate::slab::{SlabGeometry, SlabState};

verus! {

/// Number of CPUs, each with its own array cache in every cache.
pub const CPUS: usize = 8;

/// Frame size a cache assumes until it is told otherwise.
pub const DEFAULT_FRAME_SIZE: usize = 0x1000;

/// Cache-line size a cache assumes until it is told otherwise.
pub const DEFAULT_CACHE_LINE: usize = 16;

/// Smallest alignment of any cache, one machine word.
pub const MIN_ALIGN: u32 = 8;

/// A snapshot of one cache's shape and occupancy.
pub struct SlabInfo {
    pub cache_name: String,
    pub object_size: u32,
    pub align: u32,
    pub per_frames: u32,
    pub per_objects: u32,
    /// Objects in all slabs.
    pub total_objects: u64,
    /// Objects held by callers.
    pub used_objects: u64,
    pub limit: u32,
    pub batch_count: u32,
    /// Objects waiting in the per-CPU caches.
    pub local_objects: u32,
    /// Objects waiting in the shared array.
    pub shared_objects: u32,
}

/// The addresses held by array caches `v`, together.
pub open spec fn caches_ms(v: Seq<ArrayCache>) -> Multiset<usize>
    decreases v.len(),
{
    if v.len() == 0 {
        Multiset::empty()
    } else {
        caches_ms(v.drop_last()).add(v.last()@.to_multiset())
    }
}

/// Addresses held by array caches `v`, counted.
pub open spec fn caches_avail(v: Seq<ArrayCache>) -> int
    decreases v.len(),
{
    if v.len() == 0 {
        0
    } else {
        caches_avail(v.drop_last()) + v.last()@.len()
    }
}

pub proof fn lemma_caches_update(v: Seq<ArrayCache>, c: int, x: ArrayCache)
    requires
        0 <= c < v.len(),
    ensures
        caches_ms(v.update(c, x)).add(v[c]@.to_multiset()) =~= caches_ms(v).add(x@.to_multiset()),
        caches_avail(v.update(c, x)) + v[c]@.len() == caches_avail(v) + x@.len(),
    decreases v.len(),
{
    broadcast use vstd::multiset::group_multiset_axioms;

    let w = v.update(c, x);
    if c == v.len() - 1 {
        assert(w.drop_last() =~= v.drop_last());
        assert(w.last() == x);
        assert(v.last() == v[c]);
    } else {
        lemma_caches_update(v.drop_last(), c, x);
        assert(w.drop_last() =~= v.drop_last().update(c, x));
        assert(w.last() == v.last());
        assert(v.drop_last()[c] == v[c]);
    }
    assert(caches_ms(w) == caches_ms(w.drop_last()).add(w.last()@.to_multiset()));
    assert(caches_ms(v) == caches_ms(v.drop_last()).add(v.last()@.to_multiset()));
    assert forall|a: usize|
        #[trigger] caches_ms(w).add(v[c]@.to_multiset()).count(a) == caches_ms(v).add(
            x@.to_multiset(),
        ).count(a) by {
        if c < v.len() - 1 {
            assert(caches_ms(w.drop_last()).add(v[c]@.to_multiset()).count(a) == caches_ms(
                v.drop_last(),
            ).add(x@.to_multiset()).count(a));
        }
    }
    assert(caches_ms(w).add(v[c]@.to_multiset()) =~= caches_ms(v).add(x@.to_multiset()));
}

pub proof fn lemma_caches_len(v: Seq<ArrayCache>)
    ensures
        caches_ms(v).len() == caches_avail(v),
        caches_avail(v) >= 0,
    decreases v.len(),
{
    broadcast use vstd::multiset::group_multiset_axioms;
    broadcast use vstd::seq_lib::group_to_multiset_ensures;

    if v.len() > 0 {
        lemma_caches_len(v.drop_last());
    }
}

pub proof fn lemma_caches_contains(v: Seq<ArrayCache>, a: usize)
    ensures
        caches_ms(v).count(a) > 0 <==> exists|i: int| 0 <= i < v.len() && #[trigger] v[i]@.contains(a),
    decreases v.len(),
{
    broadcast use vstd::multiset::group_multiset_axioms;
    broadcast use vstd::seq_lib::group_to_multiset_ensures;

    if v.len() > 0 {
        let t = v.drop_last();
        lemma_caches_contains(t, a);
        if caches_ms(v).count(a) > 0 {
            if caches_ms(t).count(a) > 0 {
                let i = choose|i: int| 0 <= i < t.len() && #[trigger] t[i]@.contains(a);
                assert(v[i] == t[i]);
            } else {
                assert(v[v.len() - 1]@.contains(a));
            }
        }
        if exists|i: int| 0 <= i < v.len() && #[trigger] v[i]@.contains(a) {
            let i = choose|i: int| 0 <= i < v.len() && #[trigger] v[i]@.contains(a);
            if i < t.len() {
                assert(t[i] == v[i]);
            }
        }
    }
}

pub proof fn lemma_caches_elem(v: Seq<ArrayCache>, c: int)
    requires
        0 <= c < v.len(),
    ensures
        caches_avail(v) >= v[c]@.len(),
    decreases v.len(),
{
    lemma_caches_len(v.drop_last());
    if c < v.len() - 1 {
        lemma_caches_elem(v.drop_last(), c);
        assert(v.drop_last()[c] == v[c]);
    }
}

pub proof fn lemma_caches_zero(v: Seq<ArrayCache>)
    requires
        forall|j: int| 0 <= j < v.len() ==> (#[trigger] v[j])@ == Seq::<usize>::empty(),
    ensures
        caches_ms(v) =~= Multiset::empty(),
    decreases v.len(),
{
    broadcast use vstd::multiset::group_multiset_axioms;
    broadcast use vstd::seq_lib::group_to_multiset_ensures;

    if v.len() > 0 {
        let t = v.drop_last();
        assert forall|j: int| 0 <= j < t.len() implies (#[trigger] t[j])@ == Seq::<usize>::empty() by {
            assert(t[j] == v[j]);
        }
        lemma_caches_zero(t);
        assert(v[v.len() - 1]@ == Seq::<usize>::empty());
        assert(v.last()@.to_multiset() =~= Multiset::empty());
    }
}

pub proof fn lemma_caches_bound(v: Seq<ArrayCache>)
    requires
        forall|i: int| 0 <= i < v.len() ==> #[trigger] v[i].wf(),
    ensures
        caches_avail(v) <= v.len() * PER_CPU_OBJECTS,
    decreases v.len(),
{
    if v.len() > 0 {
        let t = v.drop_last();
        assert forall|i: int| 0 <= i < t.len() implies #[trigger] t[i].wf() by {
            assert(t[i] == v[i]);
        }
        lemma_caches_bound(t);
        assert(v[v.len() - 1].wf());
    }
}

pub open spec fn power_of_two(x: u32) -> bool {
    x != 0 && x & ((x - 1) as u32) == 0
}

/// The alignment a cache uses for a requested alignment.
pub open spec fn effective_align(align: u32) -> u32 {
    if power_of_two(align) {
        if align < MIN_ALIGN {
            MIN_ALIGN
        } else {
            align
        }
    } else {
        MIN_ALIGN
    }
}

/// Whether objects of `object_size` bytes aligned to `align` have a slab
/// layout within the sizes the search considers.
pub open spec fn sizable(object_size: u32, align: u32, frame_size: int) -> bool {
    let al = effective_align(align);
    let size = align_up(object_size as int, al as int);
    &&& size <= u32::MAX
    &&& exists|o: nat|
        crate::layout::order_in_range(frame_size, o) && #[trigger] crate::layout::accepted(
            mode_for(size, frame_size),
            crate::layout::slab_total(frame_size, o),
            size,
            al as int,
        )
}

/// Whether the search finds a layout for these objects and its slab fits the
/// address space.
pub open spec fn fits_machine(object_size: u32, align: u32, frame_size: int, cache_line: int) -> bool {
    let al = effective_align(align);
    let size = align_up(object_size as int, al as int);
    &&& sizable(object_size, align, frame_size)
    &&& forall|l: crate::layout::SlabLayout|
        #[trigger] layout_spec(l, mode_for(size, frame_size), frame_size, size, al as int, cache_line)
            ==> l.slab_bytes <= usize::MAX
}

/// One size class: per-CPU array caches in front of a slab pool.
pub struct MemCache {
    /// One array cache per CPU.
    pub array_cache: Vec<ArrayCache>,
    pub per_objects: u32,
    /// A slab spans `2^per_frames` frames.
    pub per_frames: u32,
    pub align: u32,
    pub object_size: u32,
    /// Coloring slots.
    pub color: u32,
    /// Bytes of one coloring slot, a cache line.
    pub color_off: u32,
    /// Slot the next slab is placed with.
    pub color_next: u32,
    pub mem_cache_node: CacheNode,
    pub cache_name: String,
    pub layout_mode: LayoutMode,
    pub destroyed: bool,
    pub frame_size: usize,
    pub cache_line: usize,
    /// Frames of one slab.
    pub frames: usize,
    /// Bytes of one slab.
    pub slab_bytes: usize,
    /// Descriptor bytes at the start of each slab.
    pub desc_bytes: usize,
    /// The addresses handed to callers and not yet returned.
    pub live: Ghost<Set<usize>>,
}

impl MemCache {
    pub open spec fn geo(&self) -> SlabGeometry {
        SlabGeometry {
            object_size: self.object_size as usize,
            per_objects: self.per_objects as usize,
            slab_bytes: self.slab_bytes,
            frames: self.frames,
            frame_size: self.frame_size,
            desc_bytes: self.desc_bytes,
            align: self.align as usize,
            cache_line: self.color_off as usize,
            color: self.color as usize,
        }
    }

    /// Addresses waiting in the array caches, per-CPU and shared.
    pub open spec fn cached(&self) -> Multiset<usize> {
        caches_ms(self.array_cache@).add(self.mem_cache_node.shared@.to_multiset())
    }

    /// Objects waiting in the per-CPU caches.
    pub open spec fn local_avail(&self) -> int {
        caches_avail(self.array_cache@)
    }

    pub open spec fn held(&self, a: usize) -> bool {
        self.mem_cache_node.held(self.geo(), a as int)
    }

    pub open spec fn wf(&self) -> bool {
        &&& self.geo().wf()
        &&& self.object_size as int % self.align as int == 0
        &&& self.desc_bytes as int % self.align as int == 0
        &&& self.color_off as usize == self.cache_line
        &&& self.cache_line >= 1
        &&& self.color_next <= self.color
        &&& self.array_cache@.len() == CPUS
        &&& forall|i: int| 0 <= i < CPUS ==> #[trigger] self.array_cache@[i].wf()
        &&& self.mem_cache_node.wf(self.geo())
        &&& self.live@.finite()
        &&& forall|a: usize| #[trigger] self.cached().count(a) <= 1
        &&& forall|a: usize| #[trigger] self.cached().count(a) > 0 ==> self.held(a)
        &&& forall|a: usize| #[trigger]
            self.live@.contains(a) ==> self.held(a) && self.cached().count(a) == 0
        &&& forall|a: usize| #[trigger]
            self.held(a) ==> self.live@.contains(a) || self.cached().count(a) > 0
        &&& self.mem_cache_node.used_sum() == self.live@.len() + self.cached().len()
    }

    /// The shape the sizing search gives for the configured frames.
    pub open spec fn sized(&self, object_size: u32, align: u32) -> bool {
        let al = effective_align(align);
        &&& self.align == al
        &&& self.object_size == align_up(object_size as int, al as int)
        &&& self.layout_mode == mode_for(self.object_size as int, self.frame_size as int)
        &&& exists|l: crate::layout::SlabLayout|
            {
                &&& layout_spec(
                    l,
                    self.layout_mode,
                    self.frame_size as int,
                    self.object_size as int,
                    al as int,
                    self.cache_line as int,
                )
                &&& self.per_frames == l.order
                &&& self.per_objects == l.per_objects
                &&& self.color == l.color
                &&& self.frames == l.frames
                &&& self.slab_bytes == l.slab_bytes
                &&& self.desc_bytes == l.desc_bytes
            }
    }

    /// An uninitialised cache assuming the default frame and cache-line sizes.
    pub fn new() -> (r: Self)
        ensures
            r.frame_size == DEFAULT_FRAME_SIZE,
            r.cache_line == DEFAULT_CACHE_LINE,
            !r.destroyed,
    {
        MemCache::with_frames(DEFAULT_FRAME_SIZE, DEFAULT_CACHE_LINE)
    }

    /// An uninitialised cache for frames of `frame_size` bytes and cache lines
    /// of `cache_line` bytes.
    pub fn with_frames(frame_size: usize, cache_line: usize) -> (r: Self)
        ensures
            r.frame_size == frame_size,
            r.cache_line == cache_line,
            !r.destroyed,
    {
        MemCache {
            array_cache: Vec::new(),
            per_objects: 0,
            per_frames: 0,
            align: 0,
            object_size: 0,
            color: 0,
            color_off: 0,
            color_next: 0,
            mem_cache_node: CacheNode::new(),
            cache_name: String::new(),
            layout_mode: LayoutMode::On,
            destroyed: false,
            frame_size,
            cache_line,
            frames: 0,
            slab_bytes: 0,
            desc_bytes: 0,
            live: Ghost(Set::empty()),
        }
    }

    fn geometry(&self) -> (r: SlabGeometry)
        ensures
            r == self.geo(),
    {
        SlabGeometry {
            object_size: self.object_size as usize,
            per_objects: self.per_objects as usize,
            slab_bytes: self.slab_bytes,
            frames: self.frames,
            frame_size: self.frame_size,
            desc_bytes: self.desc_bytes,
            align: self.align as usize,
            cache_line: self.color_off as usize,
            color: self.color as usize,
        }
    }

    /// Every object the cache holds out lies on its alignment, where frames
    /// and cache lines are multiples of it.
    pub proof fn lemma_held_aligned(&self, a: usize)
        requires
            self.wf(),
            self.held(a),
            self.frame_size as int % self.align as int == 0,
            self.cache_line as int % self.align as int == 0,
        ensures
            a as int % self.align as int == 0,
    {
        let geo = self.geo();
        let slabs = self.mem_cache_node.slabs@;
        let i = choose|i: int| 0 <= i < slabs.len() && #[trigger] slabs[i].holds(geo, a as int);
        let sl = slabs[i];
        assert(crate::cache_node::slab_ok(sl, geo));
        let al = self.align as int;
        let fs = self.frame_size as int;
        let os = self.object_size as int;
        let cl = self.cache_line as int;
        let desc = self.desc_bytes as int;
        let off = a - sl.first_object;
        vstd::arithmetic::div_mod::lemma_fundamental_div_mod(sl.start as int, fs);
        vstd::arithmetic::div_mod::lemma_fundamental_div_mod(fs, al);
        vstd::arithmetic::div_mod::lemma_fundamental_div_mod(desc, al);
        vstd::arithmetic::div_mod::lemma_fundamental_div_mod(cl, al);
        vstd::arithmetic::div_mod::lemma_fundamental_div_mod(off, os);
        vstd::arithmetic::div_mod::lemma_fundamental_div_mod(os, al);
        let q1 = sl.start as int / fs;
        let q2 = fs / al;
        let q3 = desc / al;
        let q4 = cl / al;
        let q5 = off / os;
        let q6 = os / al;
        let c = sl.color_off as int;
        assert(sl.start == al * (q2 * q1)) by (nonlinear_arith)
            requires
                sl.start == fs * q1,
                fs == al * q2,
        ;
        assert(cl * c == al * (q4 * c)) by (nonlinear_arith)
            requires
                cl == al * q4,
        ;
        assert(off == al * (q6 * q5)) by (nonlinear_arith)
            requires
                off == os * q5,
                os == al * q6,
        ;
        assert(a == al * (q2 * q1 + q3 + q4 * c + q6 * q5)) by (nonlinear_arith)
            requires
                a == sl.start + desc + cl * c + off,
                sl.start == al * (q2 * q1),
                desc == al * q3,
                cl * c == al * (q4 * c),
                off == al * (q6 * q5),
        ;
        vstd::arithmetic::div_mod::lemma_mod_multiples_basic(q2 * q1 + q3 + q4 * c + q6 * q5, al);
        assert((q2 * q1 + q3 + q4 * c + q6 * q5) * al == al * (q2 * q1 + q3 + q4 * c + q6 * q5))
            by (nonlinear_arith);
    }

    /// Whether an allocation needs no new frames whatever CPU asks: every
    /// per-CPU cache holds an object, or the shared array or the slabs hold
    /// a batch.
    pub open spec fn can_serve(&self) -> bool {
        ||| forall|c: int| 0 <= c < CPUS ==> #[trigger] self.array_cache@[c]@.len() > 0
        ||| self.mem_cache_node.shared@.len() >= PER_CPU_OBJECTS / 2
        ||| self.mem_cache_node.free_slots(self.geo()) >= PER_CPU_OBJECTS / 2
    }

    /// Whether frames and cache lines are multiples of the alignment, so
    /// every object lies on it.
    pub open spec fn aligned_frames(&self) -> bool {
        &&& self.frame_size as int % self.align as int == 0
        &&& self.cache_line as int % self.align as int == 0
    }

    /// No slabs, and nothing waiting in any array cache.
    pub open spec fn empty(&self) -> bool {
        &&& self.mem_cache_node.slabs@.len() == 0
        &&& self.mem_cache_node.shared@.len() == 0
        &&& self.local_avail() == 0
    }

    /// No object lies at address 0.
    pub proof fn lemma_held_nonzero(&self, a: usize)
        requires
            self.wf(),
            self.held(a),
        ensures
            a != 0,
    {
        let geo = self.geo();
        let slabs = self.mem_cache_node.slabs@;
        let i = choose|i: int| 0 <= i < slabs.len() && #[trigger] slabs[i].holds(geo, a as int);
        assert(crate::cache_node::slab_ok(slabs[i], geo));
    }

    /// Everything but the contents stays as it was.
    pub open spec fn same_config(&self, other: &MemCache) -> bool {
        &&& self.per_objects == other.per_objects
        &&& self.per_frames == other.per_frames
        &&& self.align == other.align
        &&& self.object_size == other.object_size
        &&& self.color == other.color
        &&& self.color_off == other.color_off
        &&& self.cache_name == other.cache_name
        &&& self.layout_mode == other.layout_mode
        &&& self.destroyed == other.destroyed
        &&& self.frame_size == other.frame_size
        &&& self.cache_line == other.cache_line
        &&& self.frames == other.frames
        &&& self.slab_bytes == other.slab_bytes
        &&& self.desc_bytes == other.desc_bytes
    }

    /// Whether `addr` waits in one of the array caches.
    pub fn is_cached(&self, addr: usize) -> (r: bool)
        requires
            self.wf(),
        ensures
            r == (self.cached().count(addr) > 0),
    {
        broadcast use vstd::multiset::group_multiset_axioms;
        broadcast use vstd::seq_lib::group_to_multiset_ensures;

        proof {
            lemma_caches_contains(self.array_cache@, addr);
        }
        let mut i: usize = 0;
        while i < CPUS
            invariant
                self.wf(),
                0 <= i <= CPUS,
                forall|j: int| 0 <= j < i ==> !(#[trigger] self.array_cache@[j])@.contains(addr),
            decreases CPUS - i,
        {
            if self.array_cache[i].contains(addr) {
                proof {
                    lemma_caches_contains(self.array_cache@, addr);
                    assert(self.array_cache@[i as int]@.contains(addr));
                }
                return true;
            }
            i = i + 1;
        }
        proof {
            lemma_caches_contains(self.array_cache@, addr);
        }
        self.mem_cache_node.shared.contains(addr)
    }

    /// Hands out one object from the array cache of the CPU the frame source
    /// names; see `alloc_on`.
    pub fn alloc_object<F: FrameSource>(&mut self, frames: &mut FrameLedger<F>) -> (r: Result<usize, SlabError>)
        requires
            old(self).wf(),
            !old(self).destroyed,
        ensures
            final(self).wf(),
            final(self).same_config(old(self)),
            match r {
                Ok(a) => {
                    &&& a != 0
                    &&& !old(self).live@.contains(a)
                    &&& final(self).live@ == old(self).live@.insert(a)
                    &&& (old(self).frame_size as int % old(self).align as int == 0
                        && old(self).cache_line as int % old(self).align as int == 0) ==> a as int
                        % old(self).align as int == 0
                },
                Err(e) => {
                    &&& e == SlabError::CantAllocFrame
                    &&& final(self).live@ == old(self).live@
                },
            },
            old(self).can_serve() ==> r is Ok,
            r is Ok ==> {
                ||| final(self).local_avail() == old(self).local_avail() - 1 && final(self).mem_cache_node
                    == old(self).mem_cache_node
                ||| final(self).local_avail() == old(self).local_avail() + PER_CPU_OBJECTS / 2 - 1 && {
                    ||| final(self).mem_cache_node.shared@ == old(self).mem_cache_node.shared@.subrange(
                        0,
                        old(self).mem_cache_node.shared@.len() - PER_CPU_OBJECTS / 2,
                    ) && final(self).mem_cache_node.slabs == old(self).mem_cache_node.slabs
                    ||| final(self).mem_cache_node.shared == old(self).mem_cache_node.shared
                        && final(self).mem_cache_node.used_sum() == old(self).mem_cache_node.used_sum()
                        + PER_CPU_OBJECTS / 2
                }
            },
    {
        let cpu = frames.current_cpu_id() % CPUS;
        let r = self.alloc_on(frames, cpu);
        proof {
            let o = old(self).array_cache@;
            let n = self.array_cache@;
            assert(n =~= o.update(cpu as int, n[cpu as int]));
            lemma_caches_update(o, cpu as int, n[cpu as int]);
        }
        r
    }

    /// Hands out one object from the array cache of CPU `cpu`: its most
    /// recently placed address, after a refill of one batch when it was
    /// empty, taken from the top of the shared array when that holds a
    /// batch, else from the slab pool.
    pub fn alloc_on<F: FrameSource>(&mut self, frames: &mut FrameLedger<F>, cpu: usize) -> (r: Result<usize, SlabError>)
        requires
            old(self).wf(),
            !old(self).destroyed,
            cpu < CPUS,
        ensures
            final(self).wf(),
            final(self).same_config(old(self)),
            match r {
                Ok(a) => {
                    &&& a != 0
                    &&& !old(self).live@.contains(a)
                    &&& final(self).live@ == old(self).live@.insert(a)
                    &&& (old(self).frame_size as int % old(self).align as int == 0
                        && old(self).cache_line as int % old(self).align as int == 0) ==> a as int
                        % old(self).align as int == 0
                },
                Err(e) => {
                    &&& e == SlabError::CantAllocFrame
                    &&& final(self).live@ == old(self).live@
                },
            },
            final(self).array_cache@.len() == CPUS,
            forall|c: int|
                0 <= c < CPUS && c != cpu ==> #[trigger] final(self).array_cache@[c] == old(
                    self,
                ).array_cache@[c],
            old(self).array_cache@[cpu as int]@.len() > 0 ==> {
                &&& r == Ok::<usize, SlabError>(old(self).array_cache@[cpu as int]@.last())
                &&& final(self).array_cache@[cpu as int]@ == old(self).array_cache@[cpu as int]@.drop_last()
                &&& final(self).mem_cache_node == old(self).mem_cache_node
                &&& *final(frames) == *old(frames)
            },
            old(self).array_cache@[cpu as int]@.len() == 0 && old(self).mem_cache_node.shared@.len()
                >= PER_CPU_OBJECTS / 2 ==> {
                &&& r == Ok::<usize, SlabError>(old(self).mem_cache_node.shared@.last())
                &&& final(self).array_cache@[cpu as int]@.len() == PER_CPU_OBJECTS / 2 - 1
                &&& final(self).mem_cache_node.shared@ == old(self).mem_cache_node.shared@.subrange(
                    0,
                    old(self).mem_cache_node.shared@.len() - PER_CPU_OBJECTS / 2,
                )
                &&& final(self).mem_cache_node.slabs == old(self).mem_cache_node.slabs
                &&& *final(frames) == *old(frames)
            },
            old(self).array_cache@[cpu as int]@.len() == 0 && old(self).mem_cache_node.shared@.len()
                < PER_CPU_OBJECTS / 2 ==> {
                &&& old(self).mem_cache_node.free_slots(old(self).geo()) >= PER_CPU_OBJECTS / 2 ==> r is Ok
                    && final(self).mem_cache_node.slabs@.len() == old(self).mem_cache_node.slabs@.len()
                &&& r is Ok ==> {
                    &&& final(self).array_cache@[cpu as int]@.len() == PER_CPU_OBJECTS / 2 - 1
                    &&& final(self).mem_cache_node.shared == old(self).mem_cache_node.shared
                    &&& final(self).mem_cache_node.used_sum() == old(self).mem_cache_node.used_sum()
                        + PER_CPU_OBJECTS / 2
                }
            },
    {
        broadcast use vstd::multiset::group_multiset_axioms;
        broadcast use vstd::seq_lib::group_to_multiset_ensures;

        let geo = self.geometry();
        let ghost c0 = *self;
        if self.array_cache[cpu].is_empty() {
            let batch = match self.mem_cache_node.alloc_batch(frames, geo, &mut self.color_next) {
                Ok(b) => b,
                Err(e) => {
                    proof {
                        assert(self.cached() =~= c0.cached());
                        assert forall|a: usize| #[trigger] self.held(a) == c0.held(a) by {}
                    }
                    return Err(e);
                },
            };
            let ghost c1 = *self;
            let ghost pc = self.array_cache@[cpu as int];
            proof {
                assert(self.array_cache@[cpu as int].wf());
            }
            self.array_cache[cpu].push(batch.as_slice());
            proof {
                let v0 = c1.array_cache@;
                let v1 = self.array_cache@;
                let x = v1[cpu as int];
                assert(x@ =~= batch@) by {
                    assert(pc@ =~= Seq::<usize>::empty());
                }
                assert(v1 =~= v0.update(cpu as int, x));
                lemma_caches_update(v0, cpu as int, x);
                assert(pc@.to_multiset() =~= Multiset::empty());
                assert forall|i: int| 0 <= i < CPUS implies #[trigger] self.array_cache@[i].wf() by {
                    if i != cpu {
                        assert(self.array_cache@[i] == c0.array_cache@[i]);
                    }
                }
                if c0.mem_cache_node.shared@.len() >= PER_CPU_OBJECTS / 2 {
                    // the batch came from the shared array
                    vstd::seq_lib::lemma_multiset_commutative(self.mem_cache_node.shared@, batch@);
                    assert(c0.array_cache@ == v0);
                    assert forall|a: usize| #[trigger] self.cached().count(a) == c0.cached().count(a) by {
                        assert(caches_ms(v1).add(pc@.to_multiset()).count(a) == caches_ms(v0).add(
                            x@.to_multiset(),
                        ).count(a));
                        assert(c0.mem_cache_node.shared@.to_multiset().count(a)
                            == self.mem_cache_node.shared@.to_multiset().count(a)
                            + batch@.to_multiset().count(a));
                    }
                    assert(self.cached() =~= c0.cached());
                    assert forall|a: usize| #[trigger] self.held(a) == c0.held(a) by {}
                    lemma_caches_len(v0);
                    lemma_caches_len(v1);
                } else {
                    assert(c0.array_cache@ == v0);
                    assert forall|a: usize| #[trigger] self.cached().count(a) == c0.cached().count(a)
                        + batch@.to_multiset().count(a) by {
                        assert(caches_ms(v1).add(pc@.to_multiset()).count(a) == caches_ms(v0).add(
                            x@.to_multiset(),
                        ).count(a));
                    }
                    assert(self.cached() =~= c0.cached().add(batch@.to_multiset()));
                    batch@.lemma_multiset_has_no_duplicates();
                    assert forall|a: usize| #[trigger] self.held(a) == (c0.held(a) || batch@.contains(a)) by {}
                    assert forall|a: usize| #[trigger] self.cached().count(a) <= 1 by {
                        if batch@.contains(a) {
                            let k = choose|k: int| 0 <= k < batch@.len() && batch@[k] == a;
                            assert(!c0.mem_cache_node.held(geo, batch@[k] as int));
                            assert(c0.cached().count(a) == 0);
                        }
                    }
                    assert forall|a: usize| #[trigger] self.cached().count(a) > 0 implies self.held(a) by {}
                    assert forall|a: usize| #[trigger] self.live@.contains(a) implies self.held(a)
                        && self.cached().count(a) == 0 by {
                        assert(c0.held(a));
                        if batch@.contains(a) {
                            let k = choose|k: int| 0 <= k < batch@.len() && batch@[k] == a;
                            assert(!c0.mem_cache_node.held(geo, batch@[k] as int));
                        }
                    }
                    assert forall|a: usize| #[trigger] self.held(a) implies self.live@.contains(a)
                        || self.cached().count(a) > 0 by {
                        if batch@.contains(a) {
                            assert(batch@.to_multiset().count(a) > 0);
                        }
                    }
                }
                assert(self.wf());
            }
        }
        let ghost c2 = *self;
        proof {
            assert(self.array_cache@[cpu as int].wf());
        }
        let r = self.array_cache[cpu].get();
        proof {
            let v0 = c2.array_cache@;
            let v1 = self.array_cache@;
            let x = v1[cpu as int];
            assert(v1 =~= v0.update(cpu as int, x));
            lemma_caches_update(v0, cpu as int, x);
            assert(v0[cpu as int]@.to_multiset() =~= x@.to_multiset().insert(r));
            assert(c2.cached().count(r) > 0) by {
                assert(v0[cpu as int]@.contains(r));
                lemma_caches_contains(v0, r);
            }
            assert forall|a: usize| #[trigger] c2.cached().count(a) == self.cached().insert(r).count(a) by {
                assert(caches_ms(v1).add(v0[cpu as int]@.to_multiset()).count(a) == caches_ms(v0).add(
                    x@.to_multiset(),
                ).count(a));
                assert(v0[cpu as int]@.to_multiset().count(a) == x@.to_multiset().insert(r).count(a));
            }
            assert(c2.cached() =~= self.cached().insert(r));
            assert forall|i: int| 0 <= i < CPUS implies #[trigger] self.array_cache@[i].wf() by {
                if i != cpu {
                    assert(self.array_cache@[i] == c2.array_cache@[i]);
                }
            }
            assert forall|a: usize| #[trigger] self.held(a) == c2.held(a) by {}
        }
        self.live = Ghost(self.live@.insert(r));
        proof {
            assert(!c2.live@.contains(r));
            assert forall|a: usize| #[trigger] self.live@.contains(a) implies self.held(a)
                && self.cached().count(a) == 0 by {
                if a == r {
                    assert(c2.cached().count(r) == 1);
                }
            }
            assert(self.live@.finite());
            assert forall|a: usize| #[trigger] self.cached().count(a) <= 1 by {
                assert(c2.cached().count(a) <= 1);
            }
            assert forall|a: usize| #[trigger] self.cached().count(a) > 0 implies self.held(a) by {
                assert(c2.cached().count(a) > 0);
            }
            assert forall|a: usize| #[trigger] self.held(a) implies self.live@.contains(a)
                || self.cached().count(a) > 0 by {
                assert(c2.held(a));
            }
            assert(self.mem_cache_node.used_sum() == self.live@.len() + self.cached().len());
            assert(self.mem_cache_node.wf(self.geo()));
            if self.frame_size as int % self.align as int == 0 && self.cache_line as int % self.align as int == 0 {
                self.lemma_held_aligned(r);
            }
            self.lemma_held_nonzero(r);
        }
        Ok(r)
    }

    /// Takes back an object a caller holds, into the array cache of the CPU
    /// the frame source names; see `dealloc_on`.
    pub fn dealloc<F: FrameSource>(&mut self, frames: &mut FrameLedger<F>, addr: usize) -> (r: Result<(), SlabError>)
        requires
            old(self).wf(),
            !old(self).destroyed,
        ensures
            final(self).wf(),
            final(self).same_config(old(self)),
            r is Ok <==> old(self).live@.contains(addr),
            r is Ok ==> final(self).live@ == old(self).live@.remove(addr),
            r is Err ==> r == Err::<(), SlabError>(SlabError::NotInCache) && *final(self) == *old(self)
                && *final(frames) == *old(frames),
            r is Ok ==> {
                ||| final(self).local_avail() == old(self).local_avail() + 1 && final(self).mem_cache_node
                    == old(self).mem_cache_node
                ||| final(self).local_avail() == old(self).local_avail() + 1 - PER_CPU_OBJECTS / 2
                    && old(self).local_avail() >= PER_CPU_OBJECTS
            },
    {
        let cpu = frames.current_cpu_id() % CPUS;
        let r = self.dealloc_on(frames, cpu, addr);
        proof {
            let o = old(self).array_cache@;
            let n = self.array_cache@;
            assert(n =~= o.update(cpu as int, n[cpu as int]));
            lemma_caches_update(o, cpu as int, n[cpu as int]);
            assert(o[cpu as int].wf());
            if r is Ok {
                if o[cpu as int]@.len() < PER_CPU_OBJECTS {
                    assert(n[cpu as int]@.len() == o[cpu as int]@.len() + 1);
                } else {
                    assert(n[cpu as int]@.len() == PER_CPU_OBJECTS / 2 + 1);
                    lemma_caches_elem(o, cpu as int);
                }
            }
        }
        r
    }

    /// Takes back an object a caller holds into the array cache of CPU `cpu`,
    /// on top. A full array cache first spills its oldest batch to the cache
    /// node.
    pub fn dealloc_on<F: FrameSource>(&mut self, frames: &mut FrameLedger<F>, cpu: usize, addr: usize) -> (r: Result<(), SlabError>)
        requires
            old(self).wf(),
            !old(self).destroyed,
            cpu < CPUS,
        ensures
            final(self).wf(),
            final(self).same_config(old(self)),
            r is Ok <==> old(self).live@.contains(addr),
            r is Ok ==> final(self).live@ == old(self).live@.remove(addr),
            r is Err ==> r == Err::<(), SlabError>(SlabError::NotInCache) && *final(self) == *old(self)
                && *final(frames) == *old(frames),
            final(self).array_cache@.len() == CPUS,
            forall|c: int|
                0 <= c < CPUS && c != cpu ==> #[trigger] final(self).array_cache@[c] == old(
                    self,
                ).array_cache@[c],
            r is Ok && old(self).array_cache@[cpu as int]@.len() < PER_CPU_OBJECTS ==> {
                &&& final(self).array_cache@[cpu as int]@ == old(self).array_cache@[cpu as int]@.push(addr)
                &&& final(self).mem_cache_node == old(self).mem_cache_node
            },
            r is Ok && old(self).array_cache@[cpu as int]@.len() == PER_CPU_OBJECTS ==> {
                let pc = old(self).array_cache@[cpu as int]@;
                let spill = pc.subrange(0, (PER_CPU_OBJECTS / 2) as int);
                let sh = old(self).mem_cache_node.shared@;
                &&& final(self).array_cache@[cpu as int]@ == pc.subrange(
                    (PER_CPU_OBJECTS / 2) as int,
                    PER_CPU_OBJECTS as int,
                ).push(addr)
                &&& sh.len() < PER_CPU_OBJECTS ==> final(self).mem_cache_node.shared@ == sh + spill
                &&& sh.len() == PER_CPU_OBJECTS ==> final(self).mem_cache_node.shared@ == sh.subrange(
                    (PER_CPU_OBJECTS / 2) as int,
                    PER_CPU_OBJECTS as int,
                ) + spill
            },
    {
        broadcast use vstd::multiset::group_multiset_axioms;
        broadcast use vstd::seq_lib::group_to_multiset_ensures;

        let geo = self.geometry();
        let i = match self.mem_cache_node.is_in_cache(geo, addr) {
            Ok(i) => i,
            Err(e) => {
                return Err(e);
            },
        };
        if !self.mem_cache_node.slabs[i].holds_object(geo, addr) || self.is_cached(addr) {
            return Err(SlabError::NotInCache);
        }
        let ghost c0 = *self;
        proof {
            assert(c0.held(addr));
            assert(c0.live@.contains(addr));
        }
        proof {
            assert(self.array_cache@[cpu as int].wf());
        }
        if self.array_cache[cpu].is_full() {
            let spill = self.array_cache[cpu].pop();
            let ghost c1 = *self;
            proof {
                let v0 = c0.array_cache@;
                let v1 = self.array_cache@;
                let x = v1[cpu as int];
                assert(v1 =~= v0.update(cpu as int, x));
                lemma_caches_update(v0, cpu as int, x);
                vstd::seq_lib::lemma_multiset_commutative(spill@, x@);
                assert forall|a: usize| #[trigger] caches_ms(v1).count(a) + spill@.to_multiset().count(a)
                    == caches_ms(v0).count(a) by {
                    assert(caches_ms(v1).add(v0[cpu as int]@.to_multiset()).count(a) == caches_ms(v0).add(
                        x@.to_multiset(),
                    ).count(a));
                }
                let sh = self.mem_cache_node.shared@;
                assert forall|a: usize| #[trigger] sh.to_multiset().count(a) <= 1 by {
                    assert(c0.cached().count(a) <= 1);
                }
                sh.lemma_multiset_has_no_duplicates_conv();
                assert forall|k: int| 0 <= k < sh.len() implies self.mem_cache_node.held(
                    geo,
                    #[trigger] sh[k] as int,
                ) by {
                    assert(sh.to_multiset().count(sh[k]) > 0);
                    assert(c0.cached().count(sh[k]) > 0);
                }
                assert forall|i: int| 0 <= i < CPUS implies #[trigger] self.array_cache@[i].wf() by {
                    if i != cpu {
                        assert(self.array_cache@[i] == c0.array_cache@[i]);
                    }
                }
            }
            self.mem_cache_node.dealloc_batch(frames, geo, spill.as_slice());
            proof {
                let v0 = c0.array_cache@;
                let v1 = self.array_cache@;
                let sh0 = c0.mem_cache_node.shared@;
                let sh1 = self.mem_cache_node.shared@;
                if sh0.len() == PER_CPU_OBJECTS {
                    let y = sh0.subrange(0, (PER_CPU_OBJECTS / 2) as int);
                    let rest = sh0.subrange((PER_CPU_OBJECTS / 2) as int, PER_CPU_OBJECTS as int);
                    assert(sh0 =~= y + rest);
                    vstd::seq_lib::lemma_multiset_commutative(y, rest);
                    vstd::seq_lib::lemma_multiset_commutative(rest, spill@);
                    assert forall|a: usize| #[trigger] self.cached().count(a) + y.to_multiset().count(a)
                        == c0.cached().count(a) by {
                        assert(caches_ms(v1).count(a) + spill@.to_multiset().count(a) == caches_ms(v0).count(a));
                    }
                    assert forall|a: usize| #[trigger] self.held(a) == (c0.held(a) && !y.contains(a)) by {}
                    assert(self.cached().add(y.to_multiset()) =~= c0.cached());
                    assert(y.to_multiset().len() == PER_CPU_OBJECTS / 2);
                    assert(self.cached().len() + PER_CPU_OBJECTS / 2 == c0.cached().len());
                    assert forall|a: usize| y.contains(a) implies #[trigger] c0.cached().count(a) == 1
                        && self.cached().count(a) == 0 by {
                        assert(y.to_multiset().count(a) > 0);
                    }
                    assert forall|a: usize| !y.contains(a) implies #[trigger] self.cached().count(a)
                        == c0.cached().count(a) by {
                        assert(y.to_multiset().count(a) == 0);
                    }
                } else {
                    vstd::seq_lib::lemma_multiset_commutative(sh0, spill@);
                    assert forall|a: usize| #[trigger] self.cached().count(a) == c0.cached().count(a) by {
                        assert(caches_ms(v1).count(a) + spill@.to_multiset().count(a) == caches_ms(v0).count(a));
                    }
                    assert(self.cached() =~= c0.cached());
                    assert forall|a: usize| #[trigger] self.held(a) == c0.held(a) by {}
                }
            }
        }
        let ghost c2 = *self;
        proof {
            assert(self.array_cache@[cpu as int].wf());
            assert(self.array_cache@[cpu as int]@.len() < PER_CPU_OBJECTS);
        }
        self.array_cache[cpu].put(addr);
        proof {
            let v0 = c2.array_cache@;
            let v1 = self.array_cache@;
            let x = v1[cpu as int];
            assert(v1 =~= v0.update(cpu as int, x));
            lemma_caches_update(v0, cpu as int, x);
            assert forall|a: usize| #[trigger] self.cached().count(a) == c2.cached().insert(addr).count(a) by {
                assert(caches_ms(v1).add(v0[cpu as int]@.to_multiset()).count(a) == caches_ms(v0).add(
                    x@.to_multiset(),
                ).count(a));
            }
            assert(self.cached() =~= c2.cached().insert(addr));
            assert forall|i: int| 0 <= i < CPUS implies #[trigger] self.array_cache@[i].wf() by {
                if i != cpu {
                    assert(self.array_cache@[i] == c2.array_cache@[i]);
                }
            }
            assert forall|a: usize| #[trigger] self.held(a) == c2.held(a) by {}
        }
        self.live = Ghost(self.live@.remove(addr));
        proof {
            assert(self.live@.finite());
            assert(c2.cached().count(addr) == 0);
            assert(c2.held(addr));
            assert forall|a: usize| #[trigger] self.cached().count(a) <= 1 by {
                assert(c2.cached().count(a) <= 1);
            }
            assert forall|a: usize| #[trigger] self.cached().count(a) > 0 implies self.held(a) by {
                if a != addr {
                    assert(c2.cached().count(a) > 0);
                }
            }
            assert forall|a: usize| #[trigger] self.live@.contains(a) implies self.held(a)
                && self.cached().count(a) == 0 by {
                assert(c0.live@.contains(a));
                assert(c0.held(a) && c0.cached().count(a) == 0);
            }
            assert forall|a: usize| #[trigger] self.held(a) implies self.live@.contains(a)
                || self.cached().count(a) > 0 by {
                assert(c2.held(a));
                assert(c0.held(a));
                if a != addr && !c0.live@.contains(a) {
                    assert(c0.cached().count(a) > 0);
                }
            }
            assert(self.mem_cache_node.used_sum() == self.live@.len() + self.cached().len());
            assert(self.mem_cache_node.wf(self.geo()));
        }
        Ok(())
    }

    /// Shape and occupancy of the cache.
    pub fn get_cache_info(&self) -> (r: SlabInfo)
        requires
            self.wf(),
        ensures
            r.cache_name@ == self.cache_name@,
            r.object_size == self.object_size,
            r.align == self.align,
            r.per_frames == self.per_frames,
            r.per_objects == self.per_objects,
            r.limit == PER_CPU_OBJECTS,
            r.batch_count == PER_CPU_OBJECTS / 2,
            r.local_objects == self.local_avail(),
            r.shared_objects == self.mem_cache_node.shared@.len(),
            r.total_objects == (self.mem_cache_node.count(SlabState::Partial)
                + self.mem_cache_node.count(SlabState::Full) + self.mem_cache_node.count(
                SlabState::Free,
            )) * self.per_objects,
            r.used_objects == sum_slabs(
                self.mem_cache_node.slabs@,
                Measure::UsedOn(SlabState::Partial),
            ) + self.mem_cache_node.count(SlabState::Full) * self.per_objects
                - self.mem_cache_node.shared@.len() - self.local_avail(),
            r.used_objects == self.live@.len(),
    {
        broadcast use vstd::multiset::group_multiset_axioms;
        broadcast use vstd::seq_lib::group_to_multiset_ensures;

        let geo = self.geometry();
        let ghost slabs = self.mem_cache_node.slabs@;
        proof {
            assert forall|i: int| 0 <= i < slabs.len() implies #[trigger] slabs[i].used_object
                <= self.per_objects by {
                assert(crate::cache_node::slab_ok(slabs[i], geo));
            }
            assert forall|i: int| 0 <= i < slabs.len() implies #[trigger] slabs[i].state
                == crate::slab::state_for(slabs[i].used_object as int, geo.per_objects as int) by {
                assert(crate::cache_node::slab_ok(slabs[i], geo));
            }
            lemma_used_by_list(slabs, geo);
            lemma_caches_len(self.array_cache@);
            lemma_caches_bound(self.array_cache@);
        }
        let per_objects = self.per_objects as usize;
        proof {
            assert(slabs.len() * self.per_objects <= crate::cache_node::MAX_SLABS * u32::MAX) by (nonlinear_arith)
                requires
                    slabs.len() <= crate::cache_node::MAX_SLABS,
                    self.per_objects <= u32::MAX,
            ;
        }
        let total = self.mem_cache_node.total_slabs() as u64 * self.per_objects as u64;
        let used = self.mem_cache_node.used_objects(per_objects);
        let mut local: u32 = 0;
        let mut i: usize = 0;
        while i < CPUS
            invariant
                self.wf(),
                0 <= i <= CPUS,
                local == caches_avail(self.array_cache@.subrange(0, i as int)),
                local <= i * PER_CPU_OBJECTS,
            decreases CPUS - i,
        {
            proof {
                let t = self.array_cache@.subrange(0, i + 1);
                assert(t.drop_last() =~= self.array_cache@.subrange(0, i as int));
                assert(t.last() == self.array_cache@[i as int]);
                assert(self.array_cache@[i as int].wf());
            }
            local = local + self.array_cache[i].avail;
            i = i + 1;
        }
        let shared = self.mem_cache_node.shared.avail;
        proof {
            assert(self.array_cache@.subrange(0, CPUS as int) =~= self.array_cache@);
            assert(self.cached().len() == local + shared);
            assert(self.per_objects * sum_slabs(slabs, Measure::Count(SlabState::Full)) == sum_slabs(
                slabs,
                Measure::Count(SlabState::Full),
            ) * self.per_objects) by (nonlinear_arith);
            assert(slabs.len() * self.per_objects <= crate::cache_node::MAX_SLABS * u32::MAX) by (nonlinear_arith)
                requires
                    slabs.len() <= crate::cache_node::MAX_SLABS,
                    self.per_objects <= u32::MAX,
            ;
        }
        SlabInfo {
            cache_name: self.cache_name.clone(),
            object_size: self.object_size,
            align: self.align,
            per_frames: self.per_frames,
            per_objects: self.per_objects,
            total_objects: total,
            used_objects: used - shared as u64 - local as u64,
            limit: PER_CPU_OBJECTS as u32,
            batch_count: (PER_CPU_OBJECTS / 2) as u32,
            local_objects: local,
            shared_objects: shared,
        }
    }

    /// Hands every slab's frames back and empties all array caches; the cache
    /// takes no further requests.
    pub fn destroy<F: FrameSource>(&mut self, frames: &mut FrameLedger<F>)
        requires
            old(self).wf(),
        ensures
            final(self).wf(),
            final(self).destroyed,
            final(self).live@.is_empty(),
            final(self).cache_name == old(self).cache_name,
            final(self).object_size == old(self).object_size,
            final(self).align == old(self).align,
            final(self).frame_size == old(self).frame_size,
            final(self).cache_line == old(self).cache_line,
            final(self).local_avail() == 0,
            final(self).mem_cache_node.slabs@.len() == 0,
            final(self).mem_cache_node.shared@.len() == 0,
            final(frames).returned() == old(frames).returned() + crate::cache_node::slab_runs(
                old(self).mem_cache_node.slabs@,
                old(self).geo(),
            ),
    {
        broadcast use vstd::multiset::group_multiset_axioms;
        broadcast use vstd::seq_lib::group_to_multiset_ensures;

        let geo = self.geometry();
        let mut i: usize = 0;
        while i < CPUS
            invariant
                self.array_cache@.len() == CPUS,
                self.same_config(old(self)),
                self.mem_cache_node == old(self).mem_cache_node,
                self.color_next == old(self).color_next,
                *frames == *old(frames),
                0 <= i <= CPUS,
                forall|j: int| 0 <= j < CPUS ==> #[trigger] self.array_cache@[j].wf(),
                forall|j: int| 0 <= j < i ==> (#[trigger] self.array_cache@[j])@ == Seq::<usize>::empty(),
            decreases CPUS - i,
        {
            self.array_cache[i].init();
            i = i + 1;
        }
        self.mem_cache_node.destroy(frames, geo);
        self.live = Ghost(Set::empty());
        self.destroyed = true;
        proof {
            assert(caches_ms(self.array_cache@) =~= Multiset::empty()) by {
                lemma_caches_len(self.array_cache@);
                lemma_caches_zero(self.array_cache@);
            }
            lemma_caches_len(self.array_cache@);
            assert(self.cached() =~= Multiset::empty());
            assert forall|a: usize| !#[trigger] self.held(a) by {}
        }
    }

    /// Sets the cache up for objects of `object_size` bytes: the alignment is
    /// promoted to at least a word, the size rounded up to it, and the slab
    /// layout found by the sizing search.
    pub fn init(&mut self, name: &str, object_size: u32, align: u32) -> (r: Result<(), SlabError>)
        requires
            object_size >= 1,
            1 <= old(self).frame_size <= MAX_SLAB_BYTES,
            1 <= old(self).cache_line <= u32::MAX,
        ensures
            final(self).frame_size == old(self).frame_size,
            final(self).cache_line == old(self).cache_line,
            r is Ok ==> {
                &&& final(self).wf()
                &&& final(self).sized(object_size, align)
                &&& final(self).cache_name@ == name@
                &&& final(self).live@.is_empty()
                &&& !final(self).destroyed
                &&& final(self).local_avail() == 0
                &&& final(self).mem_cache_node.shared@.len() == 0
                &&& final(self).mem_cache_node.slabs@.len() == 0
            },
            r is Err ==> r == Err::<(), SlabError>(SlabError::SizeTooLarge),
            r is Err <==> !fits_machine(object_size, align, old(self).frame_size as int, old(self).cache_line as int),
    {
        broadcast use vstd::multiset::group_multiset_axioms;
        broadcast use vstd::seq_lib::group_to_multiset_ensures;

        let al: u32 = if align != 0 && align & (align - 1) == 0 {
            if align < MIN_ALIGN {
                MIN_ALIGN
            } else {
                align
            }
        } else {
            MIN_ALIGN
        };
        proof {
            assert(al == effective_align(align));
        }
        let size = crate::layout::align_to(object_size as u64, al as u64);
        if size > u32::MAX as u64 {
            return Err(SlabError::SizeTooLarge);
        }
        let layout = match slab_layout(size, al as u64, self.frame_size as u64, self.cache_line as u64) {
            Some(l) => l,
            None => {
                return Err(SlabError::SizeTooLarge);
            },
        };
        if layout.slab_bytes > usize::MAX as u64 {
            proof {
                assert(layout_spec(layout, mode_for(size as int, self.frame_size as int), self.frame_size as int, size as int, al as int, self.cache_line as int));
            }
            return Err(SlabError::SizeTooLarge);
        }
        proof {
            let fs = self.frame_size as int;
            let md = mode_for(size as int, fs);
            assert(crate::layout::accepted(md, crate::layout::slab_total(fs, layout.order as nat), size as int, al as int));
            assert forall|l: crate::layout::SlabLayout|
                #[trigger] layout_spec(l, md, fs, size as int, al as int, self.cache_line as int)
                implies l.slab_bytes <= usize::MAX by {
                crate::layout::lemma_layout_unique(l, layout, md, fs, size as int, al as int, self.cache_line as int);
            }
            assert(fits_machine(object_size, align, fs, self.cache_line as int));
        }
        proof {
            assert(al >= MIN_ALIGN);
            if size < al {
                vstd::arithmetic::div_mod::lemma_small_mod(size as nat, al as nat);
            }
            crate::layout::lemma_layout_facts(
                layout,
                mode_for(size as int, self.frame_size as int),
                self.frame_size as int,
                size as int,
                al as int,
                self.cache_line as int,
            );
            assert(layout.per_objects <= u32::MAX) by (nonlinear_arith)
                requires
                    layout.per_objects * size <= layout.slab_bytes,
                    layout.slab_bytes <= MAX_SLAB_BYTES,
                    size >= 8,
            ;
        }
        let mut caches: Vec<ArrayCache> = Vec::new();
        let mut i: usize = 0;
        while i < CPUS
            invariant
                0 <= i <= CPUS,
                caches@.len() == i,
                forall|j: int| 0 <= j < i ==> #[trigger] caches@[j].wf() && caches@[j]@ == Seq::<usize>::empty(),
            decreases CPUS - i,
        {
            caches.push(ArrayCache::new());
            i = i + 1;
        }
        self.array_cache = caches;
        self.mem_cache_node.init();
        self.cache_name = name.to_owned();
        self.color_off = self.cache_line as u32;
        self.align = al;
        self.object_size = size as u32;
        self.layout_mode = layout.mode;
        self.per_objects = layout.per_objects as u32;
        self.per_frames = layout.order;
        self.color = layout.color as u32;
        self.color_next = 0;
        self.frames = layout.frames as usize;
        self.slab_bytes = layout.slab_bytes as usize;
        self.desc_bytes = layout.desc_bytes as usize;
        self.live = Ghost(Set::empty());
        self.destroyed = false;
        proof {
            assert forall|j: int| 0 <= j < self.array_cache@.len() implies (#[trigger] self.array_cache@[j])@
                == Seq::<usize>::empty() by {
                assert(self.array_cache@[j].wf());
            }
            assert(caches_ms(self.array_cache@) =~= Multiset::empty()) by {
                lemma_caches_zero(self.array_cache@);
            }
            assert(caches_avail(self.array_cache@) == 0) by {
                lemma_caches_len(self.array_cache@);
            }
            assert(self.cached() =~= Multiset::empty());
            assert(self.mem_cache_node.slabs@ =~= Seq::<crate::slab::Slab>::empty());
            assert forall|a: usize| !#[trigger] self.held(a) by {}
            assert(self.geo().wf());
            assert(self.object_size as int % self.align as int == 0);
            assert(self.desc_bytes as int % self.align as int == 0);
            assert(self.layout_mode == mode_for(self.object_size as int, self.frame_size as int));
            assert(layout_spec(
                layout,
                self.layout_mode,
                self.frame_size as int,
                self.object_size as int,
                al as int,
                self.cache_line as int,
            ));
            assert(self.color == layout.color);
            assert(self.frames == layout.frames);
            assert(self.desc_bytes == layout.desc_bytes);
            assert(self.slab_bytes == layout.slab_bytes);
            assert(self.sized(object_size, align));
        }
        Ok(())
    }
}

} // verus!
