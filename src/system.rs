use vstd::prelude::*;
use crate::error::SlabError;
use crate::frame::{FrameLedger, FrameSource};
use crate::layout::{MAX_SLAB_BYTES, slab_total};
use crate::mem_cache::{CPUS, MemCache, SlabInfo, MIN_ALIGN, fits_machine};

verus! {

/// Longest cache name, in bytes.
pub const CACHE_NAME_MAX: usize = 20;

/// The largest size class serves objects of `2^MAX_CLASS_LOG2` bytes.
pub const MAX_CLASS_LOG2: u32 = 23;

/// The caches that serve the slab system itself: cache descriptors, then
/// array caches. They come first in the registry and never serve requests.
pub const RESERVED_CACHES: usize = 2;

/// Bytes of the storage a cache descriptor takes in the descriptor cache.
pub const MEM_CACHE_SIZE: u32 = 256;

/// Bytes of the storage an array cache takes in the array-cache cache.
pub const ARRAY_CACHE_SIZE: u32 = 144;

/// Size classes created at start-up, `2^3` to `2^23` bytes.
pub const KMALLOC_CLASSES: usize = 21;

/// A registered cache, with the addresses of the storage the slab system
/// gave it: its descriptor, then one array cache per CPU and the shared one.
/// The two reserved caches use storage set aside at start-up and list none.
pub struct CacheEntry {
    pub cache: MemCache,
    pub storage: Vec<usize>,
}

/// The slab system: the frame source and the registry of caches.
pub struct SlabSystem<F: FrameSource> {
    pub frames: FrameLedger<F>,
    pub frame_size: usize,
    pub cache_line_size: usize,
    pub entries: Vec<CacheEntry>,
}

/// Name of the size class for `2^(i + 3)` bytes.
pub open spec fn class_name(i: int) -> Seq<char> {
    if i == 0 { "malloc-8"@ }
    else if i == 1 { "malloc-16"@ }
    else if i == 2 { "malloc-32"@ }
    else if i == 3 { "malloc-64"@ }
    else if i == 4 { "malloc-128"@ }
    else if i == 5 { "malloc-256"@ }
    else if i == 6 { "malloc-512"@ }
    else if i == 7 { "malloc-1024"@ }
    else if i == 8 { "malloc-2048"@ }
    else if i == 9 { "malloc-4096"@ }
    else if i == 10 { "malloc-8192"@ }
    else if i == 11 { "malloc_16384"@ }
    else if i == 12 { "malloc_32768"@ }
    else if i == 13 { "malloc_65536"@ }
    else if i == 14 { "malloc_131072"@ }
    else if i == 15 { "malloc_262144"@ }
    else if i == 16 { "malloc_524288"@ }
    else if i == 17 { "malloc_1048576"@ }
    else if i == 18 { "malloc_2097152"@ }
    else if i == 19 { "malloc_4194304"@ }
    else { "malloc_8388608"@ }
}

/// Name of the size class for `2^(i + 3)` bytes.
pub fn kmalloc_name(i: usize) -> (r: &'static str)
    ensures
        r@ == class_name(i as int),
{
    match i {
        0 => "malloc-8",
        1 => "malloc-16",
        2 => "malloc-32",
        3 => "malloc-64",
        4 => "malloc-128",
        5 => "malloc-256",
        6 => "malloc-512",
        7 => "malloc-1024",
        8 => "malloc-2048",
        9 => "malloc-4096",
        10 => "malloc-8192",
        11 => "malloc_16384",
        12 => "malloc_32768",
        13 => "malloc_65536",
        14 => "malloc_131072",
        15 => "malloc_262144",
        16 => "malloc_524288",
        17 => "malloc_1048576",
        18 => "malloc_2097152",
        19 => "malloc_4194304",
        _ => "malloc_8388608",
    }
}

/// The smallest `k` with `2^k >= size`.
pub open spec fn class_log2(size: int) -> nat
    decreases size,
{
    if size <= 1 {
        0
    } else {
        1 + class_log2((size + 1) / 2)
    }
}

/// A size class's objects are a power of two of at least eight bytes, which
/// a word alignment leaves as it is.
proof fn lemma_class_object_size(i: nat)
    ensures
        crate::mem_cache::effective_align(MIN_ALIGN) == MIN_ALIGN,
        crate::layout::align_up(slab_total(1, i + 3), MIN_ALIGN as int) == slab_total(1, i + 3),
    decreases i,
{
    assert(8u32 & 7u32 == 0) by (bit_vector);
    reveal_with_fuel(slab_total, 4);
    assert(slab_total(1, i + 3) == 8 * slab_total(1, i)) by {
        assert(slab_total(1, i + 3) == 2 * slab_total(1, i + 2));
        assert(slab_total(1, i + 2) == 2 * slab_total(1, i + 1));
        assert(slab_total(1, i + 1) == 2 * slab_total(1, i));
    }
    let x = slab_total(1, i + 3);
    let q = slab_total(1, i);
    assert((x + 7) / 8 == q) by {
        vstd::arithmetic::div_mod::lemma_fundamental_div_mod(x + 7, 8);
    }
}

/// The reserved cache that storage entry `k` of a cache came from.
pub open spec fn storage_home(k: int) -> int {
    if k == 0 {
        0
    } else {
        1
    }
}

/// Whether `s` ends with `t`.
pub open spec fn ends_with(s: Seq<(usize, usize)>, t: Seq<(usize, usize)>) -> bool {
    t.len() <= s.len() && s.subrange(s.len() - t.len(), s.len() as int) == t
}

proof fn lemma_class_log2_nonneg(size: int)
    ensures
        class_log2(size) >= 0,
{
}

proof fn lemma_class_bytes_pos(k: nat)
    ensures
        slab_total(1, k) >= 1,
    decreases k,
{
    if k > 0 {
        lemma_class_bytes_pos((k - 1) as nat);
    }
}

proof fn lemma_class_bytes_bound(k: nat)
    requires
        k <= MAX_CLASS_LOG2,
    ensures
        slab_total(1, k) <= 0x80_0000,
        k < MAX_CLASS_LOG2 ==> slab_total(1, k) <= 0x40_0000,
{
    crate::layout::lemma_slab_total_pow2(k);
    vstd::arithmetic::power2::lemma2_to64();
    if k < 22 {
        vstd::arithmetic::power2::lemma_pow2_strictly_increases(k, 22);
    }
}

impl<F: FrameSource> SlabSystem<F> {
    pub open spec fn cache(&self, id: int) -> MemCache {
        self.entries@[id].cache
    }

    pub open spec fn is_live(&self, id: int) -> bool {
        0 <= id < self.entries@.len() && !self.cache(id).destroyed
    }

    /// Whether a live cache carries `name`.
    pub open spec fn name_taken(&self, name: Seq<char>) -> bool {
        exists|i: int| self.is_live(i) && #[trigger] self.cache(i).cache_name@ == name
    }

    /// Whether cache `id` is the empty, live size class number `i`.
    pub open spec fn is_class(&self, id: int, i: int) -> bool {
        &&& self.is_live(id)
        &&& self.cache(id).cache_name@ == class_name(i)
        &&& self.cache(id).align == MIN_ALIGN
        &&& self.cache(id).object_size == slab_total(1, (i + 3) as nat)
        &&& self.cache(id).empty()
        &&& self.cache(id).live@.is_empty()
    }

    /// Whether the live cache `id` can serve objects of `size` bytes.
    pub open spec fn serves(&self, id: int, size: int) -> bool {
        &&& self.is_live(id)
        &&& id >= RESERVED_CACHES
        &&& self.cache(id).object_size as int % slab_total(1, class_log2(size)) == 0
    }

    /// The cache requests of `size` bytes go to: the first that serves them.
    pub open spec fn routes_to(&self, id: int, size: int) -> bool {
        &&& self.serves(id, size)
        &&& forall|j: int| 0 <= j < id ==> !#[trigger] self.serves(j, size)
    }

    pub open spec fn wf(&self) -> bool {
        &&& 1 <= self.frame_size <= MAX_SLAB_BYTES
        &&& 1 <= self.cache_line_size <= u32::MAX
        &&& self.entries@.len() >= RESERVED_CACHES
        &&& !self.cache(0).destroyed
        &&& !self.cache(1).destroyed
        &&& forall|i: int|
            0 <= i < self.entries@.len() ==> {
                &&& (#[trigger] self.cache(i)).wf()
                &&& self.cache(i).frame_size == self.frame_size
                &&& self.cache(i).cache_line == self.cache_line_size
            }
        &&& forall|i: int, j: int|
            self.is_live(i) && self.is_live(j) && i != j ==> #[trigger] self.cache(i).cache_name@
                != #[trigger] self.cache(j).cache_name@
    }

    pub open spec fn unchanged(&self, old: &SlabSystem<F>) -> bool {
        &&& self.entries@ == old.entries@
        &&& self.frames == old.frames
        &&& self.frame_size == old.frame_size
        &&& self.cache_line_size == old.cache_line_size
    }

    /// What stays put when one cache changes: every other cache, and the
    /// name and liveness of all.
    pub open spec fn others_kept(&self, old: &SlabSystem<F>, id: int) -> bool {
        &&& self.entries@.len() == old.entries@.len()
        &&& self.frame_size == old.frame_size
        &&& self.cache_line_size == old.cache_line_size
        &&& forall|i: int|
            0 <= i < self.entries@.len() && i != id ==> #[trigger] self.entries@[i]
                == old.entries@[i]
    }

    proof fn lemma_update_one(&self, old: &SlabSystem<F>, id: int)
        requires
            old.wf(),
            0 <= id < old.entries@.len(),
            self.others_kept(old, id),
            self.cache(id).wf(),
            self.cache(id).same_config(&old.cache(id)),
        ensures
            self.wf(),
            forall|i: int| #[trigger] self.is_live(i) == old.is_live(i),
            forall|i: int|
                0 <= i < self.entries@.len() ==> #[trigger] self.cache(i).cache_name
                    == old.cache(i).cache_name,
    {
        assert forall|i: int| 0 <= i < self.entries@.len() implies {
            &&& (#[trigger] self.cache(i)).wf()
            &&& self.cache(i).frame_size == self.frame_size
            &&& self.cache(i).cache_line == self.cache_line_size
        } by {
            if i != id {
                assert(self.entries@[i] == old.entries@[i]);
            }
            assert(old.cache(i).wf());
        }
        assert forall|i: int| #[trigger] self.is_live(i) == old.is_live(i) by {
            if 0 <= i < self.entries@.len() && i != id {
                assert(self.entries@[i] == old.entries@[i]);
            }
        }
        assert forall|i: int|
            0 <= i < self.entries@.len() implies #[trigger] self.cache(i).cache_name
            == old.cache(i).cache_name by {
            if i != id {
                assert(self.entries@[i] == old.entries@[i]);
            }
        }
        assert forall|i: int, j: int|
            self.is_live(i) && self.is_live(j) && i != j implies #[trigger] self.cache(i).cache_name@
            != #[trigger] self.cache(j).cache_name@ by {
            assert(old.is_live(i) && old.is_live(j));
            assert(old.cache(i).cache_name@ != old.cache(j).cache_name@);
        }
    }

    /// Hands out one object of cache `id`.
    pub fn alloc_object(&mut self, id: usize) -> (r: Result<usize, SlabError>)
        requires
            old(self).wf(),
            old(self).is_live(id as int),
        ensures
            final(self).wf(),
            final(self).others_kept(old(self), id as int),
            forall|i: int| #[trigger] final(self).is_live(i) == old(self).is_live(i),
            final(self).cache(id as int).same_config(&old(self).cache(id as int)),
            forall|i: int|
                0 <= i < final(self).entries@.len() ==> #[trigger] final(self).cache(i).cache_name
                    == old(self).cache(i).cache_name,
            old(self).cache(id as int).can_serve() ==> r is Ok,
            match r {
                Ok(a) => {
                    &&& a != 0
                    &&& !old(self).cache(id as int).live@.contains(a)
                    &&& final(self).cache(id as int).live@ == old(self).cache(id as int).live@.insert(a)
                    &&& old(self).cache(id as int).aligned_frames() ==> a as int % old(self).cache(
                        id as int,
                    ).align as int == 0
                },
                Err(e) => {
                    &&& e == SlabError::CantAllocFrame
                    &&& final(self).cache(id as int).live@ == old(self).cache(id as int).live@
                },
            },
    {
        proof {
            assert(self.cache(id as int).wf());
        }
        let r = self.entries[id].cache.alloc_object(&mut self.frames);
        proof {
            self.lemma_update_one(old(self), id as int);
        }
        r
    }

    /// Takes back an object of cache `id`.
    pub fn dealloc(&mut self, id: usize, addr: usize) -> (r: Result<(), SlabError>)
        requires
            old(self).wf(),
            old(self).is_live(id as int),
        ensures
            final(self).wf(),
            final(self).others_kept(old(self), id as int),
            forall|i: int| #[trigger] final(self).is_live(i) == old(self).is_live(i),
            final(self).cache(id as int).same_config(&old(self).cache(id as int)),
            forall|i: int|
                0 <= i < final(self).entries@.len() ==> #[trigger] final(self).cache(i).cache_name
                    == old(self).cache(i).cache_name,
            r is Ok <==> old(self).cache(id as int).live@.contains(addr),
            r is Ok ==> final(self).cache(id as int).live@ == old(self).cache(id as int).live@.remove(
                addr,
            ),
            r is Err ==> r == Err::<(), SlabError>(SlabError::NotInCache) && final(self).unchanged(
                old(self),
            ),
    {
        proof {
            assert(self.cache(id as int).wf());
        }
        let r = self.entries[id].cache.dealloc(&mut self.frames, addr);
        proof {
            self.lemma_update_one(old(self), id as int);
            if r is Err {
                assert(self.entries@ =~= old(self).entries@);
            }
        }
        r
    }

    /// Shape and occupancy of cache `id`.
    pub fn get_cache_info(&self, id: usize) -> (r: SlabInfo)
        requires
            self.wf(),
            id < self.entries@.len(),
        ensures
            ({
                let c = self.cache(id as int);
                &&& r.cache_name@ == c.cache_name@
                &&& r.object_size == c.object_size
                &&& r.align == c.align
                &&& r.per_frames == c.per_frames
                &&& r.per_objects == c.per_objects
                &&& r.limit == crate::array_cache::PER_CPU_OBJECTS
                &&& r.batch_count == crate::array_cache::PER_CPU_OBJECTS / 2
                &&& r.local_objects == c.local_avail()
                &&& r.shared_objects == c.mem_cache_node.shared@.len()
                &&& r.total_objects == c.mem_cache_node.slabs@.len() * c.per_objects
                &&& r.used_objects == c.live@.len()
            }),
    {
        proof {
            let c = self.cache(id as int);
            assert(c.wf());
            crate::laws::lemma_accounting(c);
        }
        self.entries[id].cache.get_cache_info()
    }

    /// Returns storage addresses to the reserved caches: the first to the
    /// descriptor cache, the rest to the array-cache cache.
    fn give_back_storage(&mut self, storage: &Vec<usize>)
        requires
            old(self).wf(),
        ensures
            final(self).wf(),
            final(self).entries@.len() == old(self).entries@.len(),
            final(self).frame_size == old(self).frame_size,
            final(self).cache_line_size == old(self).cache_line_size,
            forall|i: int| #[trigger] final(self).is_live(i) == old(self).is_live(i),
            forall|i: int|
                0 <= i < final(self).entries@.len() ==> #[trigger] final(self).cache(i).cache_name
                    == old(self).cache(i).cache_name,
            forall|i: int|
                RESERVED_CACHES <= i < final(self).entries@.len() ==> #[trigger] final(self).entries@[i]
                    == old(self).entries@[i],
            forall|k: int|
                0 <= k < storage@.len() ==> !final(self).cache(storage_home(k)).live@.contains(
                    #[trigger] storage@[k],
                ),
    {
        let mut k: usize = 0;
        while k < storage.len()
            invariant
                self.wf(),
                0 <= k <= storage@.len(),
                self.entries@.len() == old(self).entries@.len(),
                self.frame_size == old(self).frame_size,
                self.cache_line_size == old(self).cache_line_size,
                forall|i: int| #[trigger] self.is_live(i) == old(self).is_live(i),
                forall|i: int|
                    0 <= i < self.entries@.len() ==> #[trigger] self.cache(i).cache_name
                        == old(self).cache(i).cache_name,
                forall|i: int|
                    RESERVED_CACHES <= i < self.entries@.len() ==> #[trigger] self.entries@[i]
                        == old(self).entries@[i],
                forall|j: int|
                    0 <= j < k ==> !self.cache(storage_home(j)).live@.contains(#[trigger] storage@[j]),
            decreases storage@.len() - k,
        {
            let id: usize = if k == 0 {
                0
            } else {
                1
            };
            let ghost before = *self;
            let _ = self.dealloc(id, storage[k]);
            proof {
                assert forall|j: int| 0 <= j < k + 1 implies !self.cache(storage_home(j)).live@.contains(
                    #[trigger] storage@[j],
                ) by {
                    if storage_home(j) != id {
                        assert(self.entries@[storage_home(j)] == before.entries@[storage_home(j)]);
                    } else if j < k {
                        assert(!before.cache(id as int).live@.contains(storage@[j]));
                    }
                }
            }
            k = k + 1;
        }
    }

    /// Registers a new cache whose storage comes from the reserved caches.
    fn create(&mut self, name: &str, object_size: u32, align: u32) -> (r: Result<usize, SlabError>)
        requires
            old(self).wf(),
            object_size >= 1,
            !old(self).name_taken(name@),
        ensures
            final(self).wf(),
            final(self).frame_size == old(self).frame_size,
            final(self).cache_line_size == old(self).cache_line_size,
            forall|i: int|
                0 <= i < old(self).entries@.len() ==> #[trigger] final(self).is_live(i) == old(self).is_live(i)
                    && final(self).cache(i).cache_name == old(self).cache(i).cache_name,
            match r {
                Ok(id) => {
                    &&& id == old(self).entries@.len()
                    &&& final(self).entries@.len() == old(self).entries@.len() + 1
                    &&& final(self).is_live(id as int)
                    &&& final(self).cache(id as int).cache_name@ == name@
                    &&& final(self).cache(id as int).sized(object_size, align)
                    &&& final(self).cache(id as int).live@.is_empty()
                    &&& final(self).cache(id as int).empty()
                },
                Err(e) => {
                    &&& final(self).entries@.len() == old(self).entries@.len()
                    &&& e == SlabError::SizeTooLarge || e == SlabError::CantAllocFrame || e
                        == SlabError::ArrayCacheAllocError
                },
            },
            forall|i: int|
                RESERVED_CACHES <= i < old(self).entries@.len() ==> #[trigger] final(self).entries@[i]
                    == old(self).entries@[i],
            (r == Err::<usize, SlabError>(SlabError::SizeTooLarge)) <==> !fits_machine(
                object_size,
                align,
                old(self).frame_size as int,
                old(self).cache_line_size as int,
            ),
            r == Err::<usize, SlabError>(SlabError::SizeTooLarge) ==> *final(self) == *old(self),
    {
        let mut cache = MemCache::with_frames(self.frame_size, self.cache_line_size);
        match cache.init(name, object_size, align) {
            Ok(()) => {},
            Err(e) => {
                return Err(e);
            },
        }
        let mut storage: Vec<usize> = Vec::new();
        match self.alloc_object(0) {
            Ok(a) => {
                storage.push(a);
            },
            Err(e) => {
                return Err(e);
            },
        }
        let mut k: usize = 0;
        while k < CPUS + 1
            invariant
                self.wf(),
                0 <= k <= CPUS + 1,
                self.entries@.len() == old(self).entries@.len(),
                self.frame_size == old(self).frame_size,
                self.cache_line_size == old(self).cache_line_size,
                forall|i: int| #[trigger] self.is_live(i) == old(self).is_live(i),
                forall|i: int|
                    0 <= i < self.entries@.len() ==> #[trigger] self.cache(i).cache_name
                        == old(self).cache(i).cache_name,
                forall|i: int|
                    RESERVED_CACHES <= i < self.entries@.len() ==> #[trigger] self.entries@[i]
                        == old(self).entries@[i],
                cache.wf() && cache.empty() && cache.live@.is_empty() && !cache.destroyed,
                fits_machine(object_size, align, old(self).frame_size as int, old(self).cache_line_size as int),
            decreases CPUS + 1 - k,
        {
            match self.alloc_object(1) {
                Ok(a) => {
                    storage.push(a);
                },
                Err(_) => {
                    self.give_back_storage(&storage);
                    return Err(SlabError::ArrayCacheAllocError);
                },
            }
            proof {
                self.lemma_names_kept(old(self));
            }
            k = k + 1;
        }
        let ghost before = *self;
        self.entries.push(CacheEntry { cache, storage });
        proof {
            let n = before.entries@.len() as int;
            assert(self.entries@[n].cache == cache);
            assert forall|i: int| 0 <= i < n implies #[trigger] self.entries@[i] == before.entries@[i] by {}
            assert forall|i: int| 0 <= i < n implies #[trigger] self.is_live(i) == old(self).is_live(i)
                && self.cache(i).cache_name == old(self).cache(i).cache_name by {
                assert(self.entries@[i] == before.entries@[i]);
                assert(before.is_live(i) == old(self).is_live(i));
                assert(before.cache(i).cache_name == old(self).cache(i).cache_name);
            }
            assert(!before.name_taken(name@)) by {
                if before.name_taken(name@) {
                    let i = choose|i: int| before.is_live(i) && #[trigger] before.cache(i).cache_name@ == name@;
                    assert(old(self).is_live(i));
                }
            }
            assert forall|i: int| 0 <= i < self.entries@.len() implies {
                &&& (#[trigger] self.cache(i)).wf()
                &&& self.cache(i).frame_size == self.frame_size
                &&& self.cache(i).cache_line == self.cache_line_size
            } by {
                if i < n {
                    assert(self.cache(i) == before.cache(i));
                    assert(before.cache(i).wf());
                }
            }
            assert forall|i: int, j: int|
                self.is_live(i) && self.is_live(j) && i != j implies #[trigger] self.cache(i).cache_name@
                != #[trigger] self.cache(j).cache_name@ by {
                if i < n && j < n {
                    assert(before.is_live(i) && before.is_live(j));
                } else if i < n {
                    assert(before.is_live(i));
                    assert(self.cache(i) == before.cache(i));
                } else {
                    assert(before.is_live(j));
                    assert(self.cache(j) == before.cache(j));
                }
            }
        }
        Ok(self.entries.len() - 1)
    }

    proof fn lemma_names_kept(&self, old: &SlabSystem<F>)
        requires
            forall|i: int| #[trigger] self.is_live(i) == old.is_live(i),
            self.entries@.len() == old.entries@.len(),
            forall|i: int|
                0 <= i < self.entries@.len() ==> #[trigger] self.cache(i).cache_name == old.cache(
                    i,
                ).cache_name,
        ensures
            forall|name: Seq<char>| #[trigger] self.name_taken(name) == old.name_taken(name),
    {
        assert forall|name: Seq<char>| #[trigger] self.name_taken(name) == old.name_taken(name) by {
            if self.name_taken(name) {
                let i = choose|i: int| self.is_live(i) && #[trigger] self.cache(i).cache_name@ == name;
                assert(old.is_live(i));
                assert(old.cache(i).cache_name@ == name);
            }
            if old.name_taken(name) {
                let i = choose|i: int| old.is_live(i) && #[trigger] old.cache(i).cache_name@ == name;
                assert(self.is_live(i));
                assert(self.cache(i).cache_name@ == name);
            }
        }
    }

    /// Creates a cache for objects of `object_size` bytes aligned to `align`,
    /// under a name no live cache carries.
    pub fn create_mem_cache(&mut self, name: &str, object_size: u32, align: u32) -> (r: Result<
        usize,
        SlabError,
    >)
        requires
            old(self).wf(),
            object_size >= 1,
        ensures
            final(self).wf(),
            final(self).frame_size == old(self).frame_size,
            final(self).cache_line_size == old(self).cache_line_size,
            (r == Err::<usize, SlabError>(SlabError::NameTooLong)) <==> name.len()
                > CACHE_NAME_MAX,
            (r == Err::<usize, SlabError>(SlabError::NameDuplicate)) <==> (name.len()
                <= CACHE_NAME_MAX && old(self).name_taken(name@)),
            forall|i: int|
                0 <= i < old(self).entries@.len() ==> #[trigger] final(self).is_live(i) == old(self).is_live(i)
                    && final(self).cache(i).cache_name == old(self).cache(i).cache_name,
            match r {
                Ok(id) => {
                    &&& id == old(self).entries@.len()
                    &&& final(self).entries@.len() == old(self).entries@.len() + 1
                    &&& final(self).is_live(id as int)
                    &&& final(self).cache(id as int).cache_name@ == name@
                    &&& final(self).cache(id as int).sized(object_size, align)
                    &&& final(self).cache(id as int).live@.is_empty()
                    &&& final(self).cache(id as int).empty()
                },
                Err(e) => {
                    &&& final(self).entries@.len() == old(self).entries@.len()
                    &&& e == SlabError::NameTooLong || e == SlabError::NameDuplicate || e
                        == SlabError::SizeTooLarge || e == SlabError::CantAllocFrame || e
                        == SlabError::ArrayCacheAllocError
                },
            },
            forall|i: int|
                RESERVED_CACHES <= i < old(self).entries@.len() ==> #[trigger] final(self).entries@[i]
                    == old(self).entries@[i],
            (r == Err::<usize, SlabError>(SlabError::SizeTooLarge)) <==> (name.len() <= CACHE_NAME_MAX
                && !old(self).name_taken(name@) && !fits_machine(
                object_size,
                align,
                old(self).frame_size as int,
                old(self).cache_line_size as int,
            )),
            r == Err::<usize, SlabError>(SlabError::NameTooLong) || r == Err::<usize, SlabError>(
                SlabError::NameDuplicate,
            ) || r == Err::<usize, SlabError>(SlabError::SizeTooLarge) ==> *final(self) == *old(self),
    {
        if name.len() > CACHE_NAME_MAX {
            return Err(SlabError::NameTooLong);
        }
        let wanted = name.to_owned();
        let mut i: usize = 0;
        while i < self.entries.len()
            invariant
                self.wf(),
                *self == *old(self),
                name.len() <= CACHE_NAME_MAX,
                wanted@ == name@,
                0 <= i <= self.entries@.len(),
                forall|j: int| 0 <= j < i && #[trigger] self.is_live(j) ==> self.cache(j).cache_name@ != name@,
            decreases self.entries@.len() - i,
        {
            if !self.entries[i].cache.destroyed && self.entries[i].cache.cache_name == wanted {
                proof {
                    assert(self.is_live(i as int));
                    assert(self.name_taken(name@));
                }
                return Err(SlabError::NameDuplicate);
            }
            i = i + 1;
        }
        proof {
            assert(!self.name_taken(name@));
        }
        self.create(name, object_size, align)
    }

    /// Creates the size classes `malloc-8` to `malloc_8388608`, aligned to a
    /// word.
    pub fn init_kmalloc(&mut self) -> (r: Result<(), SlabError>)
        requires
            old(self).wf(),
        ensures
            final(self).wf(),
            final(self).frame_size == old(self).frame_size,
            final(self).cache_line_size == old(self).cache_line_size,
            final(self).entries@.len() >= old(self).entries@.len(),
            forall|i: int|
                0 <= i < old(self).entries@.len() ==> #[trigger] final(self).is_live(i) == old(self).is_live(i),
            r is Ok ==> final(self).entries@.len() == old(self).entries@.len() + KMALLOC_CLASSES,
            r is Ok ==> forall|i: int|
                0 <= i < KMALLOC_CLASSES ==> #[trigger] final(self).is_class(
                    old(self).entries@.len() + i,
                    i,
                ),
            r is Err ==> {
                ||| r == Err::<(), SlabError>(SlabError::NameDuplicate)
                ||| r == Err::<(), SlabError>(SlabError::NameTooLong)
                ||| r == Err::<(), SlabError>(SlabError::SizeTooLarge)
                ||| r == Err::<(), SlabError>(SlabError::CantAllocFrame)
                ||| r == Err::<(), SlabError>(SlabError::ArrayCacheAllocError)
            },
            r == Err::<(), SlabError>(SlabError::NameDuplicate) ==> exists|i: int|
                0 <= i < KMALLOC_CLASSES && (old(self).name_taken(#[trigger] class_name(i)) || exists|j: int|
                    0 <= j < i && class_name(j) == class_name(i)),
            r == Err::<(), SlabError>(SlabError::SizeTooLarge) ==> exists|i: int|
                0 <= i < KMALLOC_CLASSES && !fits_machine(
                    #[trigger] slab_total(1, (i + 3) as nat) as u32,
                    MIN_ALIGN,
                    old(self).frame_size as int,
                    old(self).cache_line_size as int,
                ),
    {
        let mut i: usize = 0;
        let mut size: u32 = 8;
        proof {
            reveal_with_fuel(slab_total, 4);
        }
        while i < KMALLOC_CLASSES
            invariant
                self.wf(),
                0 <= i <= KMALLOC_CLASSES,
                i < KMALLOC_CLASSES ==> size == slab_total(1, (i + 3) as nat),
                self.frame_size == old(self).frame_size,
                self.cache_line_size == old(self).cache_line_size,
                self.entries@.len() == old(self).entries@.len() + i,
                forall|j: int|
                    0 <= j < old(self).entries@.len() ==> #[trigger] self.is_live(j) == old(self).is_live(j),
                forall|j: int|
                    0 <= j < i ==> #[trigger] self.is_class(old(self).entries@.len() + j, j),
                old(self).entries@.len() >= RESERVED_CACHES,
                i == 0 ==> self.entries@ == old(self).entries@,
                forall|j: int|
                    0 <= j < old(self).entries@.len() ==> (#[trigger] self.cache(j)).cache_name@
                        == old(self).cache(j).cache_name@,
            decreases KMALLOC_CLASSES - i,
        {
            proof {
                lemma_class_bytes_bound((i + 3) as nat);
                lemma_class_bytes_pos((i + 3) as nat);
            }
            let ghost before = *self;
            proof {
                assert(before.entries@.len() == old(self).entries@.len() + i);
                assert(old(self).entries@.len() >= RESERVED_CACHES);
            }
            let made = self.create_mem_cache(kmalloc_name(i), size, MIN_ALIGN);
            proof {
                assert forall|j: int| 0 <= j < old(self).entries@.len() implies (#[trigger] self.cache(j)).cache_name@
                    == old(self).cache(j).cache_name@ by {
                    assert(j < before.entries@.len());
                    assert(before.cache(j).cache_name@ == old(self).cache(j).cache_name@);
                    assert(self.is_live(j) == before.is_live(j));
                    assert(self.cache(j).cache_name == before.cache(j).cache_name);
                }
                assert forall|j: int| 0 <= j < old(self).entries@.len() implies #[trigger] self.is_live(j)
                    == old(self).is_live(j) by {
                    assert(j < before.entries@.len());
                    assert(before.is_live(j) == old(self).is_live(j));
                    assert(self.is_live(j) == before.is_live(j));
                }
            }
            proof {
                if made is Ok {
                    lemma_class_object_size(i as nat);
                    let n = old(self).entries@.len() + i;
                    assert(self.is_class(n, i as int));
                    assert forall|j: int| 0 <= j < i + 1 implies #[trigger] self.is_class(
                        old(self).entries@.len() + j,
                        j,
                    ) by {
                        if j < i {
                            assert(before.is_class(old(self).entries@.len() + j, j));
                            assert(RESERVED_CACHES <= old(self).entries@.len() + j < before.entries@.len());
                            assert(self.entries@[old(self).entries@.len() + j] == before.entries@[old(self).entries@.len() + j]);
                        }
                    }
                }
            }
            proof {
                if made == Err::<usize, SlabError>(SlabError::NameDuplicate) {
                    assert(before.name_taken(class_name(i as int)));
                    let k = choose|k: int| before.is_live(k) && #[trigger] before.cache(k).cache_name@
                        == class_name(i as int);
                    if k < old(self).entries@.len() {
                        assert(old(self).is_live(k));
                        assert(before.cache(k).cache_name@ == old(self).cache(k).cache_name@);
                        assert(old(self).name_taken(class_name(i as int)));
                    } else {
                        let j = k - old(self).entries@.len();
                        assert(before.is_class(old(self).entries@.len() + j, j));
                    }
                }
                if made == Err::<usize, SlabError>(SlabError::SizeTooLarge) {
                    assert(!fits_machine(slab_total(1, (i + 3) as nat) as u32, MIN_ALIGN,
                        old(self).frame_size as int, old(self).cache_line_size as int));
                }
            }
            match made {
                Ok(_) => {},
                Err(e) => {
                    proof {
                        assert forall|j: int| 0 <= j < old(self).entries@.len() implies #[trigger] self.is_live(j)
                            == old(self).is_live(j) by {
                            assert(j < before.entries@.len());
                            assert(before.is_live(j) == old(self).is_live(j));
                            assert(self.is_live(j) == before.is_live(j));
                        }
                    }
                    return Err(e);
                },
            }
            if i + 1 < KMALLOC_CLASSES {
                size = size * 2;
            }
            proof {
                if i + 1 < KMALLOC_CLASSES {
                    assert(slab_total(1, (i + 4) as nat) == 2 * slab_total(1, (i + 3) as nat));
                }
            }
            i = i + 1;
        }
        Ok(())
    }

    /// Takes cache `id` out of service: its slabs' frames and its storage go
    /// back, and it leaves the registry.
    pub fn destroy(&mut self, id: usize)
        requires
            old(self).wf(),
            old(self).is_live(id as int),
            id >= RESERVED_CACHES,
        ensures
            final(self).wf(),
            !final(self).is_live(id as int),
            final(self).entries@.len() == old(self).entries@.len(),
            final(self).cache(id as int).live@.is_empty(),
            final(self).cache(id as int).empty(),
            forall|i: int| i != id ==> #[trigger] final(self).is_live(i) == old(self).is_live(i),
            forall|i: int|
                0 <= i < final(self).entries@.len() ==> #[trigger] final(self).cache(i).cache_name
                    == old(self).cache(i).cache_name,
            forall|k: int|
                0 <= k < old(self).entries@[id as int].storage@.len() ==> !final(self).cache(
                    storage_home(k),
                ).live@.contains(#[trigger] old(self).entries@[id as int].storage@[k]),
            ends_with(
                final(self).frames.returned(),
                crate::cache_node::slab_runs(
                    old(self).cache(id as int).mem_cache_node.slabs@,
                    old(self).cache(id as int).geo(),
                ),
            ),
    {
        let mut storage: Vec<usize> = Vec::new();
        let mut k: usize = 0;
        while k < self.entries[id].storage.len()
            invariant
                *self == *old(self),
                0 <= k <= self.entries@[id as int].storage@.len(),
                id < self.entries@.len(),
                storage@ == self.entries@[id as int].storage@.subrange(0, k as int),
            decreases self.entries@[id as int].storage@.len() - k,
        {
            storage.push(self.entries[id].storage[k]);
            proof {
                assert(storage@ =~= self.entries@[id as int].storage@.subrange(0, k + 1));
            }
            k = k + 1;
        }
        proof {
            assert(storage@ =~= old(self).entries@[id as int].storage@);
        }
        self.give_back_storage(&storage);
        let ghost mid = *self;
        proof {
            assert(mid.entries@[id as int] == old(self).entries@[id as int]);
            assert(mid.cache(id as int).wf());
        }
        self.entries[id].cache.destroy(&mut self.frames);
        proof {
            assert forall|i: int| 0 <= i < self.entries@.len() implies {
                &&& (#[trigger] self.cache(i)).wf()
                &&& self.cache(i).frame_size == self.frame_size
                &&& self.cache(i).cache_line == self.cache_line_size
            } by {
                if i != id {
                    assert(self.entries@[i] == mid.entries@[i]);
                }
                assert(mid.cache(i).wf());
            }
            assert forall|i: int| i != id implies #[trigger] self.is_live(i) == old(self).is_live(i) by {
                if 0 <= i < self.entries@.len() {
                    assert(self.entries@[i] == mid.entries@[i]);
                    assert(mid.is_live(i) == old(self).is_live(i));
                }
            }
            assert forall|i: int|
                0 <= i < self.entries@.len() implies #[trigger] self.cache(i).cache_name
                == old(self).cache(i).cache_name by {
                assert(mid.cache(i).cache_name == old(self).cache(i).cache_name);
                if i != id {
                    assert(self.entries@[i] == mid.entries@[i]);
                }
            }
            assert forall|i: int, j: int|
                self.is_live(i) && self.is_live(j) && i != j implies #[trigger] self.cache(i).cache_name@
                != #[trigger] self.cache(j).cache_name@ by {
                assert(old(self).is_live(i) && old(self).is_live(j));
                assert(mid.is_live(i) && mid.is_live(j));
            }
            assert(self.cache(0) == mid.cache(0));
            assert(self.cache(1) == mid.cache(1));
            assert forall|k: int|
                0 <= k < old(self).entries@[id as int].storage@.len() implies !self.cache(
                storage_home(k),
            ).live@.contains(#[trigger] old(self).entries@[id as int].storage@[k]) by {
                assert(storage@[k] == old(self).entries@[id as int].storage@[k]);
                assert(self.cache(storage_home(k)) == mid.cache(storage_home(k)));
            }
            let runs = crate::cache_node::slab_runs(mid.cache(id as int).mem_cache_node.slabs@, mid.cache(id as int).geo());
            assert(self.frames.returned().subrange(mid.frames.returned().len() as int, self.frames.returned().len() as int) =~= runs);
        }
    }

    /// The first cache, past the reserved ones, whose objects suit `size`
    /// bytes: its object size is a multiple of the smallest power of two not
    /// below `size`.
    pub fn route(&self, size: usize) -> (r: Option<usize>)
        requires
            self.wf(),
        ensures
            r matches Some(id) ==> self.routes_to(id as int, size as int),
            r is None ==> class_log2(size as int) > MAX_CLASS_LOG2 || forall|j: int|
                !#[trigger] self.serves(j, size as int),
            r is Some ==> class_log2(size as int) <= MAX_CLASS_LOG2,
    {
        let mut s: usize = size;
        let mut k: u32 = 0;
        while s > 1
            invariant
                class_log2(size as int) == k + class_log2(s as int),
                k <= MAX_CLASS_LOG2,
            decreases s,
        {
            proof {
                assert((s + 1) / 2 == s / 2 + s % 2);
            }
            s = s / 2 + s % 2;
            k = k + 1;
            if k > MAX_CLASS_LOG2 {
                proof {
                    lemma_class_log2_nonneg(s as int);
                }
                return None;
            }
        }
        proof {
            assert(class_log2(s as int) == 0);
        }
        let mut p: u64 = 1;
        let mut j: u32 = 0;
        while j < k
            invariant
                0 <= j <= k,
                k <= MAX_CLASS_LOG2,
                p == slab_total(1, j as nat),
            decreases k - j,
        {
            proof {
                lemma_class_bytes_bound(j as nat);
            }
            p = p * 2;
            j = j + 1;
        }
        proof {
            lemma_class_bytes_pos(k as nat);
        }
        let mut i: usize = RESERVED_CACHES;
        while i < self.entries.len()
            invariant
                self.wf(),
                RESERVED_CACHES <= i <= self.entries@.len(),
                p == slab_total(1, class_log2(size as int)),
                p >= 1,
                class_log2(size as int) <= MAX_CLASS_LOG2,
                forall|j: int| 0 <= j < i ==> !#[trigger] self.serves(j, size as int),
            decreases self.entries@.len() - i,
        {
            if !self.entries[i].cache.destroyed && self.entries[i].cache.object_size as u64 % p == 0 {
                return Some(i);
            }
            i = i + 1;
        }
        None
    }

    /// Hands out an object of at least `size` bytes from the first size class
    /// that suits it. The class's own alignment is what the object gets.
    pub fn alloc_from_slab(&mut self, size: usize, align: usize) -> (r: Result<usize, SlabError>)
        requires
            old(self).wf(),
        ensures
            final(self).wf(),
            forall|i: int| #[trigger] final(self).is_live(i) == old(self).is_live(i),
            (r == Err::<usize, SlabError>(SlabError::SizeTooLarge)) <==> (class_log2(size as int)
                > MAX_CLASS_LOG2 || forall|j: int| !#[trigger] old(self).serves(j, size as int)),
            forall|id: int|
                #[trigger] old(self).routes_to(id, size as int) && class_log2(size as int)
                    <= MAX_CLASS_LOG2 && old(self).cache(id).can_serve() ==> r is Ok,
            r matches Ok(a) ==> forall|id: int|
                #[trigger] old(self).routes_to(id, size as int) && old(self).cache(id).aligned_frames()
                    ==> a as int % old(self).cache(id).align as int == 0,
            match r {
                Ok(a) => exists|id: int|
                    {
                        &&& #[trigger] old(self).routes_to(id, size as int)
                        &&& !old(self).cache(id).live@.contains(a)
                        &&& final(self).cache(id).live@ == old(self).cache(id).live@.insert(a)
                        &&& final(self).others_kept(old(self), id)
                    },
                Err(e) => e == SlabError::SizeTooLarge && final(self).unchanged(old(self)) || e
                    == SlabError::CantAllocFrame && exists|id: int|
                    {
                        &&& #[trigger] old(self).routes_to(id, size as int)
                        &&& final(self).cache(id).live@ == old(self).cache(id).live@
                        &&& final(self).others_kept(old(self), id)
                    },
            },
    {
        match self.route(size) {
            None => Err(SlabError::SizeTooLarge),
            Some(id) => {
                let r = self.alloc_object(id);
                proof {
                    assert(old(self).routes_to(id as int, size as int));
                    assert forall|k: int| #[trigger] old(self).routes_to(k, size as int) implies k == id by {
                        if k < id {
                            assert(!old(self).serves(k, size as int));
                        } else if k > id {
                            assert(!old(self).serves(id as int, size as int));
                        }
                    }
                }
                r
            },
        }
    }

    /// Returns an object to whichever live cache handed it out.
    pub fn dealloc_to_slab(&mut self, addr: usize) -> (r: Result<(), SlabError>)
        requires
            old(self).wf(),
        ensures
            final(self).wf(),
            forall|i: int| #[trigger] final(self).is_live(i) == old(self).is_live(i),
            r is Ok <==> exists|j: int| #[trigger] old(self).is_live(j) && old(self).cache(j).live@.contains(addr),
            match r {
                Ok(_) => exists|id: int|
                    {
                        &&& #[trigger] old(self).is_live(id)
                        &&& old(self).cache(id).live@.contains(addr)
                        &&& forall|j: int| 0 <= j < id ==> !(#[trigger] old(self).is_live(j) && old(self).cache(j).live@.contains(addr))
                        &&& final(self).cache(id).live@ == old(self).cache(id).live@.remove(addr)
                        &&& final(self).others_kept(old(self), id)
                    },
                Err(e) => e == SlabError::NotInCache && final(self).unchanged(old(self)),
            },
    {
        let mut i: usize = 0;
        while i < self.entries.len()
            invariant
                self.wf(),
                self.unchanged(old(self)),
                0 <= i <= self.entries@.len(),
                forall|j: int| 0 <= j < i ==> !(#[trigger] self.is_live(j) && self.cache(j).live@.contains(addr)),
            decreases self.entries@.len() - i,
        {
            if !self.entries[i].cache.destroyed {
                let ghost before = *self;
                match self.dealloc(i, addr) {
                    Ok(()) => {
                        proof {
                            assert(before.entries@ == old(self).entries@);
                            assert(before.cache(i as int) == old(self).cache(i as int));
                            assert(old(self).is_live(i as int));
                            assert(old(self).cache(i as int).live@.contains(addr));
                            assert forall|j: int| 0 <= j < i implies !(#[trigger] old(self).is_live(j)
                                && old(self).cache(j).live@.contains(addr)) by {
                                assert(before.cache(j) == old(self).cache(j));
                                assert(!(before.is_live(j) && before.cache(j).live@.contains(addr)));
                            }
                            assert(self.others_kept(old(self), i as int));
                        }
                        return Ok(());
                    },
                    Err(_) => {
                        proof {
                            assert(self.entries@ == before.entries@);
                        }
                    },
                }
            }
            i = i + 1;
        }
        proof {
            assert forall|j: int| !(#[trigger] old(self).is_live(j) && old(self).cache(j).live@.contains(
                addr,
            )) by {
                if 0 <= j < self.entries@.len() {
                    assert(self.cache(j) == old(self).cache(j));
                    assert(!(self.is_live(j) && self.cache(j).live@.contains(addr)));
                }
            }
        }
        Err(SlabError::NotInCache)
    }

    /// The live caches, in the order they were registered.
    pub fn cache_ids(&self) -> (r: Vec<usize>)
        requires
            self.wf(),
        ensures
            forall|k: int| 0 <= k < r@.len() ==> self.is_live(#[trigger] r@[k] as int),
            forall|i: int| #[trigger] self.is_live(i) ==> r@.contains(i as usize),
            forall|k: int, l: int| 0 <= k < l < r@.len() ==> #[trigger] r@[k] < #[trigger] r@[l],
    {
        let mut r: Vec<usize> = Vec::new();
        let mut i: usize = 0;
        while i < self.entries.len()
            invariant
                0 <= i <= self.entries@.len(),
                forall|k: int| 0 <= k < r@.len() ==> self.is_live(#[trigger] r@[k] as int) && r@[k] < i,
                forall|j: int| 0 <= j < i && #[trigger] self.is_live(j) ==> r@.contains(j as usize),
                forall|k: int, l: int| 0 <= k < l < r@.len() ==> #[trigger] r@[k] < #[trigger] r@[l],
            decreases self.entries@.len() - i,
        {
            if !self.entries[i].cache.destroyed {
                let ghost prev = r@;
                r.push(i);
                proof {
                    assert forall|j: int| 0 <= j <= i && #[trigger] self.is_live(j) implies r@.contains(j as usize) by {
                        if j < i {
                            let k = choose|k: int| 0 <= k < prev.len() && prev[k] == j as usize;
                            assert(r@[k] == j as usize);
                        } else {
                            assert(r@[prev.len() as int] == i);
                        }
                    }
                }
            }
            i = i + 1;
        }
        r
    }
}

/// Sets up the two reserved caches: the descriptor cache, then the
/// array-cache cache, whose own descriptor comes from the first.
pub fn mem_cache_init<F: FrameSource>(frames: F, frame_size: usize, cache_line_size: usize) -> (r:
    Result<SlabSystem<F>, SlabError>)
    requires
        1 <= frame_size <= MAX_SLAB_BYTES,
        1 <= cache_line_size <= u32::MAX,
    ensures
        r matches Ok(sys) ==> {
            &&& sys.wf()
            &&& sys.frame_size == frame_size
            &&& sys.cache_line_size == cache_line_size
            &&& sys.entries@.len() == RESERVED_CACHES
            &&& sys.cache(0).cache_name@ == "kmem_cache"@
            &&& sys.cache(1).cache_name@ == "array_cache"@
            &&& sys.cache(1).empty()
        },
        r is Err ==> r == Err::<SlabSystem<F>, SlabError>(SlabError::CantAllocFrame) || r == Err::<
            SlabSystem<F>,
            SlabError,
        >(SlabError::SizeTooLarge),
        r == Err::<SlabSystem<F>, SlabError>(SlabError::SizeTooLarge) ==> !fits_machine(
            MEM_CACHE_SIZE,
            MIN_ALIGN,
            frame_size as int,
            cache_line_size as int,
        ) || !fits_machine(ARRAY_CACHE_SIZE, MIN_ALIGN, frame_size as int, cache_line_size as int),
        64 <= frame_size <= 0x20_0000 && r is Err ==> r == Err::<SlabSystem<F>, SlabError>(
            SlabError::CantAllocFrame,
        ),
{
    proof {
        if 64 <= frame_size <= 0x20_0000 {
            crate::laws::lemma_init_succeeds(MEM_CACHE_SIZE, MIN_ALIGN, frame_size as int, cache_line_size as int);
            crate::laws::lemma_init_succeeds(ARRAY_CACHE_SIZE, MIN_ALIGN, frame_size as int, cache_line_size as int);
        }
    }
    let mut frames = FrameLedger::new(frames);
    let mut boot = MemCache::with_frames(frame_size, cache_line_size);
    match boot.init("kmem_cache", MEM_CACHE_SIZE, MIN_ALIGN) {
        Ok(()) => {},
        Err(e) => {
            return Err(e);
        },
    }
    let desc = match boot.alloc_object(&mut frames) {
        Ok(a) => a,
        Err(e) => {
            return Err(e);
        },
    };
    let mut arrays = MemCache::with_frames(frame_size, cache_line_size);
    match arrays.init("array_cache", ARRAY_CACHE_SIZE, MIN_ALIGN) {
        Ok(()) => {},
        Err(e) => {
            return Err(e);
        },
    }
    let mut storage: Vec<usize> = Vec::new();
    storage.push(desc);
    let mut entries: Vec<CacheEntry> = Vec::new();
    entries.push(CacheEntry { cache: boot, storage: Vec::new() });
    entries.push(CacheEntry { cache: arrays, storage });
    let sys = SlabSystem { frames, frame_size, cache_line_size, entries };
    proof {
        reveal_strlit("kmem_cache");
        reveal_strlit("array_cache");
        assert(sys.cache(0) == boot);
        assert(sys.cache(1) == arrays);
        assert(sys.cache(0).cache_name@[0] != sys.cache(1).cache_name@[0]);
        assert forall|i: int| 0 <= i < sys.entries@.len() implies {
            &&& (#[trigger] sys.cache(i)).wf()
            &&& sys.cache(i).frame_size == sys.frame_size
            &&& sys.cache(i).cache_line == sys.cache_line_size
        } by {}
        assert forall|i: int, j: int|
            sys.is_live(i) && sys.is_live(j) && i != j implies #[trigger] sys.cache(i).cache_name@
            != #[trigger] sys.cache(j).cache_name@ by {
            if i == 1 {
                assert(sys.cache(1).cache_name@[0] != sys.cache(0).cache_name@[0]);
            }
        }
    }
    Ok(sys)
}

/// Starts the slab system over `frames`, for frames of `frame_size` bytes and
/// cache lines of `cache_line_size` bytes: the reserved caches, then the size
/// classes.
pub fn init_slab_system<F: FrameSource>(frames: F, frame_size: usize, cache_line_size: usize) -> (r:
    Result<SlabSystem<F>, SlabError>)
    requires
        1 <= frame_size <= MAX_SLAB_BYTES,
        1 <= cache_line_size <= u32::MAX,
    ensures
        r matches Ok(sys) ==> {
            &&& sys.wf()
            &&& sys.frame_size == frame_size
            &&& sys.cache_line_size == cache_line_size
            &&& sys.entries@.len() == RESERVED_CACHES + KMALLOC_CLASSES
            &&& forall|i: int| 0 <= i < KMALLOC_CLASSES ==> #[trigger] sys.is_class(RESERVED_CACHES + i, i)
        },
        r is Err ==> r != Err::<SlabSystem<F>, SlabError>(SlabError::NotInCache),
{
    let mut sys = match mem_cache_init(frames, frame_size, cache_line_size) {
        Ok(s) => s,
        Err(e) => {
            return Err(e);
        },
    };
    match sys.init_kmalloc() {
        Ok(()) => Ok(sys),
        Err(e) => Err(e),
    }
}

} // verus!
