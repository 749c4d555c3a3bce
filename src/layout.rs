use vstd::prelude::*;

verus! {

/// Bytes of the slab descriptor when it is embedded at the start of a slab.
pub const SLAB_DESC_SIZE: u64 = 56;

/// Bytes of one entry of a slab's free-index vector.
pub const FREE_INDEX_SIZE: u64 = 4;

/// Largest byte size of one slab that the sizing search considers.
pub const MAX_SLAB_BYTES: u64 = 0x4_0000_0000;

/// Where a cache keeps the descriptor and the free-index vector of its slabs.
#[derive(Debug, Clone, Copy, PartialEq, Eq, Structural)]
pub enum LayoutMode {
    /// Embedded at the start of the slab's own frames.
    On,
    /// Kept apart from the slab's frames.
    Off,
}

/// `x` rounded up to a multiple of `a`.
pub open spec fn align_up(x: int, a: int) -> int {
    ((x + a - 1) / a) * a
}

/// Bytes taken by an embedded descriptor for `n` objects, rounded to `align`.
pub open spec fn desc_bytes(n: int, align: int) -> int {
    align_up(n * FREE_INDEX_SIZE + SLAB_DESC_SIZE, align)
}

/// Bytes of a slab of `2^order` frames.
pub open spec fn slab_total(frame_size: int, order: nat) -> int
    decreases order,
{
    if order == 0 {
        frame_size
    } else {
        2 * slab_total(frame_size, (order - 1) as nat)
    }
}

/// The mode a cache of objects of `object_size` bytes uses.
pub open spec fn mode_for(object_size: int, frame_size: int) -> LayoutMode {
    if object_size * 8 >= frame_size {
        LayoutMode::Off
    } else {
        LayoutMode::On
    }
}

/// Whether `n` embedded objects fit a slab of `total` bytes with their descriptor.
pub open spec fn on_fits(total: int, object_size: int, align: int, n: int) -> bool {
    desc_bytes(n, align) + n * object_size <= total
}

/// The embedded-mode count search: from `n` down to the first count that fits.
pub open spec fn on_descend(total: int, object_size: int, align: int, n: int) -> int
    decreases n,
{
    if n <= 0 || on_fits(total, object_size, align, n) {
        n
    } else {
        on_descend(total, object_size, align, n - 1)
    }
}

/// Objects per slab of `total` bytes.
pub open spec fn slab_objects(mode: LayoutMode, total: int, object_size: int, align: int) -> int {
    match mode {
        LayoutMode::Off => total / object_size,
        LayoutMode::On => on_descend(
            total,
            object_size,
            align,
            (total - SLAB_DESC_SIZE) / (object_size + FREE_INDEX_SIZE),
        ),
    }
}

/// Bytes of descriptor that the slab itself carries.
pub open spec fn slab_desc(mode: LayoutMode, n: int, align: int) -> int {
    match mode {
        LayoutMode::Off => 0,
        LayoutMode::On => desc_bytes(n, align),
    }
}

/// Bytes of a slab that neither objects nor descriptor use.
pub open spec fn left_over(mode: LayoutMode, total: int, object_size: int, align: int) -> int {
    let n = slab_objects(mode, total, object_size, align);
    total - n * object_size - slab_desc(mode, n, align)
}

/// Whether a slab of `total` bytes is an acceptable layout: at least one object
/// fits, and less than an eighth of the slab is wasted.
pub open spec fn accepted(mode: LayoutMode, total: int, object_size: int, align: int) -> bool {
    let n = slab_objects(mode, total, object_size, align);
    &&& total >= SLAB_DESC_SIZE || mode == LayoutMode::Off
    &&& n >= 1
    &&& (mode == LayoutMode::On ==> on_fits(total, object_size, align, n))
    &&& left_over(mode, total, object_size, align) * 8 < total
}

/// Whether order `order` lies within the sizes the search considers.
pub open spec fn order_in_range(frame_size: int, order: nat) -> bool {
    slab_total(frame_size, order) <= MAX_SLAB_BYTES
}

/// Whether `order` is the first order whose slab is an acceptable layout.
pub open spec fn first_accepted(
    mode: LayoutMode,
    frame_size: int,
    object_size: int,
    align: int,
    order: nat,
) -> bool {
    &&& order_in_range(frame_size, order)
    &&& accepted(mode, slab_total(frame_size, order), object_size, align)
    &&& forall|o: nat|
        o < order ==> !accepted(mode, #[trigger] slab_total(frame_size, o), object_size, align)
}

/// The outcome of the sizing search for one cache.
#[derive(Debug, Clone, Copy)]
pub struct SlabLayout {
    pub mode: LayoutMode,
    /// A slab spans `2^order` frames.
    pub order: u32,
    /// Frames of one slab.
    pub frames: u64,
    /// Bytes of one slab.
    pub slab_bytes: u64,
    pub per_objects: u64,
    /// Descriptor bytes at the start of each slab.
    pub desc_bytes: u64,
    pub left_over: u64,
    /// Cache-line slots available for coloring.
    pub color: u64,
}

pub open spec fn layout_spec(
    l: SlabLayout,
    mode: LayoutMode,
    frame_size: int,
    object_size: int,
    align: int,
    cache_line: int,
) -> bool {
    let total = slab_total(frame_size, l.order as nat);
    &&& l.mode == mode
    &&& first_accepted(mode, frame_size, object_size, align, l.order as nat)
    &&& l.slab_bytes == total
    &&& l.frames == slab_total(1, l.order as nat)
    &&& l.per_objects == slab_objects(mode, total, object_size, align)
    &&& l.desc_bytes == slab_desc(mode, l.per_objects as int, align)
    &&& l.left_over == left_over(mode, total, object_size, align)
    &&& l.color == l.left_over as int / cache_line
}

pub proof fn lemma_slab_total_frames(frame_size: int, order: nat)
    requires
        frame_size >= 1,
    ensures
        slab_total(frame_size, order) == slab_total(1, order) * frame_size,
        slab_total(1, order) >= 1,
    decreases order,
{
    if order > 0 {
        lemma_slab_total_frames(frame_size, (order - 1) as nat);
        let p = slab_total(1, (order - 1) as nat);
        assert(slab_total(1, order) == 2 * p);
        assert((2 * p) * frame_size == 2 * (p * frame_size)) by (nonlinear_arith);
    }
}

pub proof fn lemma_slab_total_monotone(frame_size: int, a: nat, b: nat)
    requires
        frame_size >= 1,
        a <= b,
    ensures
        slab_total(frame_size, a) <= slab_total(frame_size, b),
    decreases b,
{
    if a < b {
        lemma_slab_total_monotone(frame_size, a, (b - 1) as nat);
        lemma_slab_total_frames(frame_size, (b - 1) as nat);
        assert(slab_total(1, (b - 1) as nat) * frame_size >= 1) by (nonlinear_arith)
            requires
                slab_total(1, (b - 1) as nat) >= 1,
                frame_size >= 1,
        ;
    }
}

pub proof fn lemma_align_up_bounds(x: int, a: int)
    requires
        x >= 0,
        a >= 1,
    ensures
        x <= align_up(x, a) <= x + a - 1,
        align_up(x, a) % a == 0,
{
    let y = x + a - 1;
    assert(y == a * (y / a) + y % a && 0 <= y % a < a) by {
        vstd::arithmetic::div_mod::lemma_fundamental_div_mod(y, a);
    }
    assert((y / a) * a == a * (y / a)) by (nonlinear_arith);
    vstd::arithmetic::div_mod::lemma_mod_multiples_basic(y / a, a);
}

/// `x` rounded up to a multiple of `a`.
pub fn align_to(x: u64, a: u64) -> (r: u64)
    requires
        a >= 1,
        x + a <= u64::MAX,
    ensures
        r == align_up(x as int, a as int),
        x <= r <= x + a - 1,
        r % a == 0,
{
    proof {
        lemma_align_up_bounds(x as int, a as int);
    }
    ((x + a - 1) / a) * a
}

/// Bytes of an embedded descriptor for `object_num` objects, rounded to `align`.
pub fn slab_descriptor_align_size(object_num: u64, align: u64) -> (r: u64)
    requires
        object_num <= MAX_SLAB_BYTES,
        1 <= align <= u32::MAX,
    ensures
        r == desc_bytes(object_num as int, align as int),
        r <= object_num * FREE_INDEX_SIZE + SLAB_DESC_SIZE + align - 1,
{
    align_to(object_num * FREE_INDEX_SIZE + SLAB_DESC_SIZE, align)
}

/// Objects per embedded-mode slab of `total` bytes, or `None` where no count fits.
fn on_slab_objects(total: u64, object_size: u64, align: u64) -> (r: Option<u64>)
    requires
        SLAB_DESC_SIZE <= total <= MAX_SLAB_BYTES,
        1 <= object_size <= u32::MAX,
        1 <= align <= u32::MAX,
    ensures
        ({
            let n = slab_objects(LayoutMode::On, total as int, object_size as int, align as int);
            match r {
                Some(k) => k == n && k <= total && on_fits(
                    total as int,
                    object_size as int,
                    align as int,
                    n,
                ),
                None => !on_fits(total as int, object_size as int, align as int, n),
            }
        }),
{
    let start: u64 = (total - SLAB_DESC_SIZE) / (object_size + FREE_INDEX_SIZE);
    let mut n: u64 = start;
    proof {
        assert(start * (object_size + FREE_INDEX_SIZE) <= total - SLAB_DESC_SIZE) by {
            vstd::arithmetic::div_mod::lemma_fundamental_div_mod(
                (total - SLAB_DESC_SIZE) as int,
                (object_size + FREE_INDEX_SIZE) as int,
            );
            assert((total - SLAB_DESC_SIZE) % (object_size + FREE_INDEX_SIZE) as int >= 0);
            assert(start * (object_size + FREE_INDEX_SIZE) == (object_size + FREE_INDEX_SIZE)
                * start) by (nonlinear_arith);
        }
        assert(start * object_size <= start * (object_size + FREE_INDEX_SIZE)) by (nonlinear_arith);
        assert(start * FREE_INDEX_SIZE <= start * (object_size + FREE_INDEX_SIZE))
            by (nonlinear_arith);
    }
    loop
        invariant
            n <= start,
            start == (total - SLAB_DESC_SIZE) / (object_size + FREE_INDEX_SIZE),
            start * object_size <= total,
            start * FREE_INDEX_SIZE <= total,
            1 <= object_size <= u32::MAX,
            1 <= align <= u32::MAX,
            SLAB_DESC_SIZE <= total <= MAX_SLAB_BYTES,
            on_descend(total as int, object_size as int, align as int, start as int)
                == on_descend(total as int, object_size as int, align as int, n as int),
        decreases n,
    {
        proof {
            assert(n * object_size <= start * object_size) by (nonlinear_arith)
                requires
                    n <= start,
            ;
            assert(n * FREE_INDEX_SIZE <= start * FREE_INDEX_SIZE) by (nonlinear_arith)
                requires
                    n <= start,
            ;
        }
        let desc = slab_descriptor_align_size(n, align);
        let fits = desc + n * object_size <= total;
        if fits {
            proof {
                assert(on_fits(total as int, object_size as int, align as int, n as int));
                assert(on_descend(total as int, object_size as int, align as int, n as int)
                    == n);
                assert(n * FREE_INDEX_SIZE <= total);
                assert(slab_objects(LayoutMode::On, total as int, object_size as int, align as int)
                    == on_descend(total as int, object_size as int, align as int, start as int));
            }
            return Some(n);
        }
        if n == 0 {
            proof {
                assert(on_descend(total as int, object_size as int, align as int, 0) == 0);
            }
            return None;
        }
        n = n - 1;
    }
}

/// The sizing search: the first order whose slab wastes less than an eighth of
/// its bytes, with the object count, descriptor bytes and coloring slots there.
pub fn slab_layout(object_size: u64, align: u64, frame_size: u64, cache_line: u64) -> (r: Option<
    SlabLayout,
>)
    requires
        1 <= object_size <= u32::MAX,
        1 <= align <= u32::MAX,
        1 <= frame_size <= MAX_SLAB_BYTES,
        cache_line >= 1,
    ensures
        ({
            let mode = mode_for(object_size as int, frame_size as int);
            match r {
                Some(l) => layout_spec(
                    l,
                    mode,
                    frame_size as int,
                    object_size as int,
                    align as int,
                    cache_line as int,
                ),
                None => forall|o: nat|
                    order_in_range(frame_size as int, o) ==> !accepted(
                        mode,
                        #[trigger] slab_total(frame_size as int, o),
                        object_size as int,
                        align as int,
                    ),
            }
        }),
{
    let mode = if object_size * 8 >= frame_size {
        LayoutMode::Off
    } else {
        LayoutMode::On
    };
    let ghost fs = frame_size as int;
    let ghost os = object_size as int;
    let ghost al = align as int;
    let mut order: u32 = 0;
    let mut total: u64 = frame_size;
    let mut frames: u64 = 1;
    loop
        invariant
            mode == mode_for(os, fs),
            fs == frame_size,
            os == object_size,
            al == align,
            1 <= object_size <= u32::MAX,
            1 <= align <= u32::MAX,
            1 <= frame_size <= MAX_SLAB_BYTES,
            cache_line >= 1,
            order <= 40,
            total == slab_total(fs, order as nat),
            frames == slab_total(1, order as nat),
            total <= MAX_SLAB_BYTES,
            forall|o: nat| o < order ==> !accepted(mode, #[trigger] slab_total(fs, o), os, al),
        decreases MAX_SLAB_BYTES - total,
    {
        proof {
            lemma_slab_total_frames(fs, order as nat);
            assert(frames <= total) by (nonlinear_arith)
                requires
                    total == frames * frame_size,
                    frame_size >= 1,
                    frames >= 1,
            ;
        }
        let candidate: Option<(u64, u64, u64)> = match mode {
            LayoutMode::Off => {
                let n = total / object_size;
                proof {
                    vstd::arithmetic::div_mod::lemma_fundamental_div_mod(total as int, os);
                    assert(n * object_size == object_size * n) by (nonlinear_arith);
                }
                Some((n, 0, total - n * object_size))
            },
            LayoutMode::On => {
                if total < SLAB_DESC_SIZE {
                    None
                } else {
                    match on_slab_objects(total, object_size, align) {
                        Some(n) => {
                            let desc = slab_descriptor_align_size(n, align);
                            Some((n, desc, total - n * object_size - desc))
                        },
                        None => None,
                    }
                }
            },
        };
        match candidate {
            Some((n, desc, left)) => {
                if n >= 1 && left * 8 < total {
                    proof {
                        assert(accepted(mode, total as int, os, al));
                    }
                    return Some(
                        SlabLayout {
                            mode,
                            order,
                            frames,
                            slab_bytes: total,
                            per_objects: n,
                            desc_bytes: desc,
                            left_over: left,
                            color: left / cache_line,
                        },
                    );
                }
                proof {
                    assert(!accepted(mode, total as int, os, al));
                }
            },
            None => {
                proof {
                    assert(!accepted(mode, total as int, os, al));
                }
            },
        }
        if total > MAX_SLAB_BYTES / 2 {
            proof {
                assert forall|o: nat| order_in_range(fs, o) implies !accepted(
                    mode,
                    #[trigger] slab_total(fs, o),
                    os,
                    al,
                ) by {
                    if o > order {
                        lemma_slab_total_monotone(fs, (order + 1) as nat, o);
                    }
                }
            }
            return None;
        }
        proof {
            assert forall|o: nat| o < order + 1 implies !accepted(
                mode,
                #[trigger] slab_total(fs, o),
                os,
                al,
            ) by {
                if o < order {
                } else {
                    assert(o == order);
                }
            }
            assert(order < 40) by {
                lemma_slab_total_order_bound(fs, order as nat);
            }
        }
        order = order + 1;
        total = total * 2;
        frames = frames * 2;
    }
}

pub proof fn lemma_slab_total_pow2(order: nat)
    ensures
        slab_total(1, order) == vstd::arithmetic::power2::pow2(order),
    decreases order,
{
    if order == 0 {
        vstd::arithmetic::power2::lemma2_to64();
    } else {
        lemma_slab_total_pow2((order - 1) as nat);
        vstd::arithmetic::power2::lemma_pow2_unfold(order);
        assert(slab_total(1, order) == 2 * slab_total(1, (order - 1) as nat));
    }
}

proof fn lemma_slab_total_order_bound(frame_size: int, order: nat)
    requires
        frame_size >= 1,
        slab_total(frame_size, order) <= MAX_SLAB_BYTES,
    ensures
        order < 40,
{
    if order >= 40 {
        lemma_slab_total_frames(frame_size, order);
        lemma_slab_total_pow2(order);
        vstd::arithmetic::power2::lemma2_to64_rest();
        vstd::arithmetic::power2::lemma_pow2_strictly_increases(35, order);
        assert(slab_total(1, order) * frame_size >= slab_total(1, order)) by (nonlinear_arith)
            requires
                frame_size >= 1,
                slab_total(1, order) >= 1,
        ;
    }
}

/// What every computed layout satisfies: objects, descriptor and slack add up
/// to the slab, the slack is under an eighth of it, and coloring fits the slack.
pub proof fn lemma_layout_facts(
    l: SlabLayout,
    mode: LayoutMode,
    frame_size: int,
    object_size: int,
    align: int,
    cache_line: int,
)
    requires
        layout_spec(l, mode, frame_size, object_size, align, cache_line),
        frame_size >= 1,
        object_size >= 1,
        align >= 1,
        cache_line >= 1,
    ensures
        l.per_objects >= 1,
        l.per_objects * object_size + l.desc_bytes + l.left_over == l.slab_bytes,
        l.left_over * 8 < l.slab_bytes,
        l.slab_bytes <= MAX_SLAB_BYTES,
        1 <= l.frames <= l.slab_bytes,
        cache_line * l.color <= l.left_over,
        l.color <= l.left_over,
        l.desc_bytes as int % align == 0,
        l.per_objects * object_size <= l.slab_bytes,
{
    let total = slab_total(frame_size, l.order as nat);
    lemma_slab_total_frames(frame_size, l.order as nat);
    assert(l.frames <= l.slab_bytes) by (nonlinear_arith)
        requires
            l.slab_bytes == l.frames * frame_size,
            frame_size >= 1,
            l.frames >= 1,
    ;
    let n = l.per_objects as int;
    if mode == LayoutMode::Off {
        vstd::arithmetic::div_mod::lemma_fundamental_div_mod(total, object_size);
        assert(n * object_size == object_size * n) by (nonlinear_arith);
        vstd::arithmetic::div_mod::lemma_mod_pos_bound(total, object_size);
        assert(l.desc_bytes as int % align == 0);
    } else {
        lemma_align_up_bounds(n * FREE_INDEX_SIZE + SLAB_DESC_SIZE, align);
    }
    vstd::arithmetic::div_mod::lemma_fundamental_div_mod(l.left_over as int, cache_line);
    vstd::arithmetic::div_mod::lemma_mod_pos_bound(l.left_over as int, cache_line);
    assert(cache_line * l.color <= l.left_over);
    assert(l.color <= cache_line * l.color) by (nonlinear_arith)
        requires
            cache_line >= 1,
            l.color >= 0,
    ;
}

/// A positive size rounded up to `a` is at least `a`.
pub proof fn lemma_align_up_at_least(x: int, a: int)
    requires
        x >= 1,
        a >= 1,
    ensures
        align_up(x, a) >= a,
{
    lemma_align_up_bounds(x, a);
    if align_up(x, a) < a {
        vstd::arithmetic::div_mod::lemma_small_mod(align_up(x, a) as nat, a as nat);
    }
}

/// The count search stops at a count that fits, or at zero; below its start
/// only where the next count does not fit; and past zero where one object fits.
pub proof fn lemma_descend(total: int, object_size: int, align: int, n: int)
    requires
        n >= 0,
    ensures
        0 <= on_descend(total, object_size, align, n) <= n,
        on_descend(total, object_size, align, n) > 0 ==> on_fits(
            total,
            object_size,
            align,
            on_descend(total, object_size, align, n),
        ),
        on_descend(total, object_size, align, n) < n ==> !on_fits(
            total,
            object_size,
            align,
            on_descend(total, object_size, align, n) + 1,
        ),
        n >= 1 && on_fits(total, object_size, align, 1) ==> on_descend(total, object_size, align, n)
            >= 1,
    decreases n,
{
    if n > 0 && !on_fits(total, object_size, align, n) {
        lemma_descend(total, object_size, align, n - 1);
    }
}

/// A slab of `2^10` frames is an acceptable layout for any object below eight
/// frames with an alignment up to 64 bytes.
pub proof fn lemma_accepted_at_order_ten(frame_size: int, size: int, align: int)
    requires
        frame_size >= 1,
        1 <= size < 8 * frame_size + 64,
        8 <= align <= 64,
    ensures
        accepted(mode_for(size, frame_size), slab_total(frame_size, 10), size, align),
{
    let total = slab_total(frame_size, 10);
    lemma_slab_total_frames(frame_size, 10);
    lemma_slab_total_pow2(10);
    vstd::arithmetic::power2::lemma2_to64();
    assert(total == 1024 * frame_size);
    let mode = mode_for(size, frame_size);
    let n = slab_objects(mode, total, size, align);
    if mode == LayoutMode::Off {
        vstd::arithmetic::div_mod::lemma_fundamental_div_mod(total, size);
        vstd::arithmetic::div_mod::lemma_mod_pos_bound(total, size);
        let q = total / size;
        assert(q >= 1) by (nonlinear_arith)
            requires
                total == size * q + total % size,
                total % size < size,
                total >= 8 * size,
        ;
        assert(n * size == size * n) by (nonlinear_arith);
    } else {
        let n0 = (total - SLAB_DESC_SIZE) / (size + FREE_INDEX_SIZE);
        vstd::arithmetic::div_mod::lemma_fundamental_div_mod(total - SLAB_DESC_SIZE, size + FREE_INDEX_SIZE);
        vstd::arithmetic::div_mod::lemma_mod_pos_bound(total - SLAB_DESC_SIZE, size + FREE_INDEX_SIZE);
        let rem = (total - SLAB_DESC_SIZE) % (size + FREE_INDEX_SIZE);
        assert(total - SLAB_DESC_SIZE >= 2 * (size + FREE_INDEX_SIZE));
        assert(n0 >= 1) by (nonlinear_arith)
            requires
                total - SLAB_DESC_SIZE == (size + FREE_INDEX_SIZE) * n0 + rem,
                rem < size + FREE_INDEX_SIZE,
                total - SLAB_DESC_SIZE >= 2 * (size + FREE_INDEX_SIZE),
                size >= 1,
        ;
        lemma_align_up_bounds(1 * FREE_INDEX_SIZE + SLAB_DESC_SIZE, align);
        assert(on_fits(total, size, align, 1));
        lemma_descend(total, size, align, n0);
        assert(n >= 1);
        assert(on_fits(total, size, align, n));
        lemma_align_up_bounds(n * FREE_INDEX_SIZE + SLAB_DESC_SIZE, align);
        if n == n0 {
            assert(n * size + n * FREE_INDEX_SIZE == (size + FREE_INDEX_SIZE) * n) by (nonlinear_arith);
            assert(left_over(mode, total, size, align) < size + FREE_INDEX_SIZE);
        } else {
            lemma_align_up_bounds((n + 1) * FREE_INDEX_SIZE + SLAB_DESC_SIZE, align);
            assert((n + 1) * size == n * size + size) by (nonlinear_arith);
            assert((n + 1) * FREE_INDEX_SIZE == n * FREE_INDEX_SIZE + FREE_INDEX_SIZE) by (nonlinear_arith);
            assert(left_over(mode, total, size, align) < size + align + FREE_INDEX_SIZE);
        }
    }
}

/// The search has one outcome: two layouts meeting its statement agree.
pub proof fn lemma_layout_unique(
    l1: SlabLayout,
    l2: SlabLayout,
    mode: LayoutMode,
    frame_size: int,
    object_size: int,
    align: int,
    cache_line: int,
)
    requires
        layout_spec(l1, mode, frame_size, object_size, align, cache_line),
        layout_spec(l2, mode, frame_size, object_size, align, cache_line),
    ensures
        l1.order == l2.order,
        l1.slab_bytes == l2.slab_bytes,
        l1.per_objects == l2.per_objects,
{
    if l1.order < l2.order {
        assert(!accepted(mode, slab_total(frame_size, l1.order as nat), object_size, align));
    } else if l2.order < l1.order {
        assert(!accepted(mode, slab_total(frame_size, l2.order as nat), object_size, align));
    }
}

} // verus!
