use vstd::prelude::*;

verus! {

/// What the slab system needs from its environment: runs of page frames, and
/// the identity of the CPU it runs on. The slab system checks every frame run
/// it receives before use and maps any CPU identity onto its per-CPU caches,
/// so nothing is assumed of an implementation.
pub trait FrameSource {
    /// Start address of `num` contiguous page-aligned frames, or 0 when there
    /// are none.
    fn alloc_frames(&mut self, num: usize) -> usize;

    /// Takes back the `num` frames at `addr`.
    fn free_frames(&mut self, addr: usize, num: usize);

    /// The current CPU, from 0 up.
    fn current_cpu_id(&self) -> usize;
}

/// A frame source together with the record of the runs the slab system has
/// handed back to it.
pub struct FrameLedger<F: FrameSource> {
    pub source: F,
    /// The runs handed back, as `(start, frames)`, oldest first.
    pub returned: Ghost<Seq<(usize, usize)>>,
}

impl<F: FrameSource> FrameLedger<F> {
    pub open spec fn returned(&self) -> Seq<(usize, usize)> {
        self.returned@
    }

    pub fn new(source: F) -> (r: Self)
        ensures
            r.returned() == Seq::<(usize, usize)>::empty(),
    {
        FrameLedger { source, returned: Ghost(Seq::empty()) }
    }

    /// Asks the source for `num` frames; 0 when it has none.
    pub fn alloc_frames(&mut self, num: usize) -> (r: usize)
        ensures
            final(self).returned() == old(self).returned(),
    {
        self.source.alloc_frames(num)
    }

    /// Hands the `num` frames at `addr` back to the source.
    pub fn free_frames(&mut self, addr: usize, num: usize)
        ensures
            final(self).returned() == old(self).returned().push((addr, num)),
    {
        self.source.free_frames(addr, num);
        self.returned = Ghost(self.returned@.push((addr, num)));
    }

    /// The current CPU, as the source names it.
    pub fn current_cpu_id(&self) -> usize {
        self.source.current_cpu_id()
    }
}

} // verus!
