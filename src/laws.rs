use vstd::prelude::*;
use crate::cache_node::{FREE_LIST_MAX, Measure, lemma_used_by_list, slab_ok, sum_slabs};
use crate::frame::FrameSource;
use crate::layout::{lemma_layout_facts, SlabLayout, layout_spec};
use crate::mem_cache::{MemCache, MIN_ALIGN, effective_align, fits_machine, lemma_caches_len, power_of_two, sizable};
use crate::slab::{SlabState, state_for};
use crate::system::SlabSystem;

verus! {

/// A sized cache wastes less than an eighth of each slab, and an alignment
/// below a word is raised to a word.
pub proof fn lemma_sizing(c: MemCache, object_size: u32, align: u32)
    requires
        c.sized(object_size, align),
        c.frame_size >= 1,
        c.cache_line >= 1,
        object_size >= 1,
    ensures
        (c.slab_bytes - c.per_objects * c.object_size - c.desc_bytes) * 8 < c.slab_bytes,
        c.per_objects >= 1,
        c.align >= MIN_ALIGN,
        power_of_two(align) && align < MIN_ALIGN ==> c.align == MIN_ALIGN,
        power_of_two(align) && align >= MIN_ALIGN ==> c.align == align,
{
    let al = effective_align(align);
    let l = choose|l: SlabLayout|
        {
            &&& layout_spec(
                l,
                c.layout_mode,
                c.frame_size as int,
                c.object_size as int,
                al as int,
                c.cache_line as int,
            )
            &&& c.per_frames == l.order
            &&& c.per_objects == l.per_objects
            &&& c.color == l.color
            &&& c.frames == l.frames
            &&& c.slab_bytes == l.slab_bytes
            &&& c.desc_bytes == l.desc_bytes
        };
    crate::layout::lemma_align_up_at_least(object_size as int, al as int);
    lemma_layout_facts(
        l,
        c.layout_mode,
        c.frame_size as int,
        c.object_size as int,
        al as int,
        c.cache_line as int,
    );
}

/// For every object size below eight frames and every alignment up to 64
/// bytes, the sizing search finds a layout.
pub proof fn lemma_sizing_succeeds(object_size: u32, align: u32, frame_size: int)
    requires
        1 <= object_size,
        object_size < 8 * frame_size,
        align <= 64,
        1 <= frame_size <= 0x100_0000,
    ensures
        sizable(object_size, align, frame_size),
{
    let al = effective_align(align);
    let size = crate::layout::align_up(object_size as int, al as int);
    crate::layout::lemma_align_up_bounds(object_size as int, al as int);
    crate::layout::lemma_accepted_at_order_ten(frame_size, size, al as int);
    crate::layout::lemma_slab_total_frames(frame_size, 10);
    crate::layout::lemma_slab_total_pow2(10);
    vstd::arithmetic::power2::lemma2_to64();
    assert(crate::layout::order_in_range(frame_size, 10));
    assert(crate::layout::accepted(
        crate::layout::mode_for(size, frame_size),
        crate::layout::slab_total(frame_size, 10),
        size,
        al as int,
    ));
}

/// For every object size below eight frames and every alignment up to 64
/// bytes, on frames of up to 2 MiB, setting up a cache succeeds.
pub proof fn lemma_init_succeeds(object_size: u32, align: u32, frame_size: int, cache_line: int)
    requires
        1 <= object_size,
        object_size < 8 * frame_size,
        align <= 64,
        1 <= frame_size <= 0x20_0000,
        cache_line >= 1,
    ensures
        fits_machine(object_size, align, frame_size, cache_line),
{
    lemma_sizing_succeeds(object_size, align, frame_size);
    let al = effective_align(align);
    let size = crate::layout::align_up(object_size as int, al as int);
    crate::layout::lemma_align_up_bounds(object_size as int, al as int);
    crate::layout::lemma_accepted_at_order_ten(frame_size, size, al as int);
    crate::layout::lemma_slab_total_frames(frame_size, 10);
    crate::layout::lemma_slab_total_pow2(10);
    vstd::arithmetic::power2::lemma2_to64();
    let md = crate::layout::mode_for(size, frame_size);
    assert forall|l: SlabLayout|
        #[trigger] layout_spec(l, md, frame_size, size, al as int, cache_line) implies l.slab_bytes
        <= usize::MAX by {
        if l.order > 10 {
            assert(!crate::layout::accepted(md, crate::layout::slab_total(frame_size, 10), size, al as int));
        }
        crate::layout::lemma_slab_total_monotone(frame_size, l.order as nat, 10);
    }
}

/// After start-up, a request whose smallest enclosing power of two is
/// `2^k` with `k <= 23` goes to the size class of `2^max(k, 3)` bytes.
pub proof fn lemma_start_up_routing<F: FrameSource>(sys: SlabSystem<F>, size: int)
    requires
        sys.wf(),
        forall|i: int|
            0 <= i < crate::system::KMALLOC_CLASSES ==> #[trigger] sys.is_class(
                crate::system::RESERVED_CACHES + i,
                i,
            ),
        crate::system::class_log2(size) <= crate::system::MAX_CLASS_LOG2,
    ensures
        ({
            let k = crate::system::class_log2(size);
            let i = if k <= 3 {
                0
            } else {
                k - 3
            };
            sys.routes_to(crate::system::RESERVED_CACHES + i, size)
        }),
{
    let k = crate::system::class_log2(size);
    let i: int = if k <= 3 {
        0
    } else {
        k - 3
    };
    let id = crate::system::RESERVED_CACHES + i;
    assert(sys.is_class(id, i));
    crate::layout::lemma_slab_total_pow2(k);
    crate::layout::lemma_slab_total_pow2((i + 3) as nat);
    vstd::arithmetic::power2::lemma_pow2_adds(k, (i + 3 - k) as nat);
    vstd::arithmetic::power2::lemma_pow2_pos(k);
    vstd::arithmetic::div_mod::lemma_mod_multiples_basic(
        vstd::arithmetic::power2::pow2((i + 3 - k) as nat) as int,
        vstd::arithmetic::power2::pow2(k) as int,
    );
    assert(vstd::arithmetic::power2::pow2((i + 3 - k) as nat) * vstd::arithmetic::power2::pow2(k)
        == vstd::arithmetic::power2::pow2(k) * vstd::arithmetic::power2::pow2((i + 3 - k) as nat))
        by (nonlinear_arith);
    assert(sys.serves(id, size));
    assert forall|j: int| 0 <= j < id implies !#[trigger] sys.serves(j, size) by {
        if j >= crate::system::RESERVED_CACHES {
            let jj = j - crate::system::RESERVED_CACHES;
            assert(sys.is_class(crate::system::RESERVED_CACHES + jj, jj));
            crate::layout::lemma_slab_total_pow2((jj + 3) as nat);
            vstd::arithmetic::power2::lemma_pow2_strictly_increases((jj + 3) as nat, k);
            vstd::arithmetic::power2::lemma_pow2_pos((jj + 3) as nat);
            vstd::arithmetic::div_mod::lemma_small_mod(
                vstd::arithmetic::power2::pow2((jj + 3) as nat),
                vstd::arithmetic::power2::pow2(k),
            );
        }
    }
}

/// An address handed out joins the live set, and handing it back removes it
/// again: after an allocation and the release of what it returned, the live
/// set is what it was.
pub proof fn lemma_round_trip(live: Set<usize>, a: usize)
    requires
        !live.contains(a),
    ensures
        live.insert(a).contains(a),
        live.insert(a).remove(a) == live,
{
    assert(live.insert(a).remove(a) =~= live);
}

/// Two allocations with no release between them return different addresses.
pub proof fn lemma_allocations_distinct(live: Set<usize>, a: usize, b: usize)
    requires
        !live.contains(a),
        !live.insert(a).contains(b),
    ensures
        a != b,
{
}

/// Every slab is on the list its count of handed-out objects says: free when
/// none, full when all, partial otherwise.
pub proof fn lemma_slab_lists(c: MemCache, i: int)
    requires
        c.wf(),
        0 <= i < c.mem_cache_node.slabs@.len(),
    ensures
        c.mem_cache_node.slabs@[i].state == state_for(
            c.mem_cache_node.slabs@[i].used_object as int,
            c.per_objects as int,
        ),
        c.mem_cache_node.slabs@[i].state == SlabState::Free <==> c.mem_cache_node.slabs@[i].used_object
            == 0,
        c.mem_cache_node.slabs@[i].state == SlabState::Full <==> c.mem_cache_node.slabs@[i].used_object
            == c.per_objects,
{
    assert(slab_ok(c.mem_cache_node.slabs@[i], c.geo()));
}

/// Objects held by callers are those the slabs handed out, less those
/// waiting in the shared and per-CPU array caches; the slabs of the three
/// lists together are all slabs.
pub proof fn lemma_accounting(c: MemCache)
    requires
        c.wf(),
    ensures
        c.mem_cache_node.count(SlabState::Partial) + c.mem_cache_node.count(SlabState::Full)
            + c.mem_cache_node.count(SlabState::Free) == c.mem_cache_node.slabs@.len(),
        sum_slabs(c.mem_cache_node.slabs@, Measure::UsedOn(SlabState::Partial))
            + c.mem_cache_node.count(SlabState::Full) * c.per_objects
            - c.mem_cache_node.shared@.len() - c.local_avail() == c.live@.len(),
{
    broadcast use vstd::multiset::group_multiset_axioms;
    broadcast use vstd::seq_lib::group_to_multiset_ensures;

    let s = c.mem_cache_node.slabs@;
    assert forall|i: int| 0 <= i < s.len() implies #[trigger] s[i].state == state_for(
        s[i].used_object as int,
        c.per_objects as int,
    ) by {
        assert(slab_ok(s[i], c.geo()));
    }
    lemma_used_by_list(s, c.geo());
    lemma_caches_len(c.array_cache@);
    assert(c.per_objects * c.mem_cache_node.count(SlabState::Full) == c.mem_cache_node.count(
        SlabState::Full,
    ) * c.per_objects) by (nonlinear_arith);
}

/// No cache keeps more than the bound of free slabs.
pub proof fn lemma_free_list_bound(c: MemCache)
    requires
        c.wf(),
    ensures
        c.mem_cache_node.count(SlabState::Free) <= FREE_LIST_MAX,
{
}

/// A live cache's name is taken, so creating another cache under it fails
/// with a duplicate-name error.
pub proof fn lemma_name_taken<F: FrameSource>(sys: SlabSystem<F>, id: int, name: Seq<char>)
    requires
        sys.is_live(id),
        sys.cache(id).cache_name@ == name,
    ensures
        sys.name_taken(name),
{
}

} // verus!
