use vstd::prelude::*;

verus! {

/// Capacity of an array cache.
pub const PER_CPU_OBJECTS: usize = 16;

/// A bounded stack of object addresses that sits between callers and the slab
/// pool. Single objects come and go at the top; batches leave from the top to
/// refill a tier above, and from the bottom when the stack overflows.
pub struct ArrayCache {
    pub avail: u32,
    pub limit: u32,
    pub batch_count: u32,
    pub entries: Vec<usize>,
}

impl View for ArrayCache {
    type V = Seq<usize>;

    /// The addresses held, bottom first.
    open spec fn view(&self) -> Seq<usize> {
        self.entries@.subrange(0, self.avail as int)
    }
}

impl ArrayCache {
    pub open spec fn wf(&self) -> bool {
        &&& self.entries@.len() == PER_CPU_OBJECTS
        &&& self.limit == PER_CPU_OBJECTS
        &&& self.batch_count == PER_CPU_OBJECTS / 2
        &&& self.avail <= self.limit
    }

    pub fn new() -> (r: Self)
        ensures
            r.wf(),
            r@ == Seq::<usize>::empty(),
    {
        let r = ArrayCache {
            avail: 0,
            limit: PER_CPU_OBJECTS as u32,
            batch_count: (PER_CPU_OBJECTS / 2) as u32,
            entries: vec![0usize; PER_CPU_OBJECTS],
        };
        assert(r@ =~= Seq::<usize>::empty());
        r
    }

    /// Empties the cache.
    pub fn init(&mut self)
        ensures
            final(self).wf(),
            final(self)@ == Seq::<usize>::empty(),
    {
        *self = ArrayCache::new();
    }

    /// Appends `addrs` at the top.
    pub fn push(&mut self, addrs: &[usize])
        requires
            old(self).wf(),
            old(self)@.len() + addrs@.len() <= PER_CPU_OBJECTS,
        ensures
            final(self).wf(),
            final(self)@ == old(self)@ + addrs@,
    {
        let ghost start = self@;
        let base = self.avail as usize;
        let mut i: usize = 0;
        while i < addrs.len()
            invariant
                self.entries@.len() == PER_CPU_OBJECTS,
                self.limit == PER_CPU_OBJECTS,
                self.batch_count == PER_CPU_OBJECTS / 2,
                self.avail == base,
                base + addrs@.len() <= PER_CPU_OBJECTS,
                0 <= i <= addrs@.len(),
                self.entries@.subrange(0, base as int) == start,
                self.entries@.subrange(base as int, base + i) == addrs@.subrange(0, i as int),
            decreases addrs@.len() - i,
        {
            self.entries.set(base + i, addrs[i]);
            proof {
                assert(self.entries@.subrange(0, base as int) =~= start);
                assert(self.entries@.subrange(base as int, base + i + 1) =~= addrs@.subrange(
                    0,
                    i + 1,
                ));
            }
            i = i + 1;
        }
        self.avail = (base + addrs.len()) as u32;
        proof {
            assert(self@ =~= start + addrs@) by {
                assert(addrs@.subrange(0, addrs@.len() as int) =~= addrs@);
                assert(self@ =~= self.entries@.subrange(0, base as int) + self.entries@.subrange(
                    base as int,
                    base + addrs@.len(),
                ));
            }
        }
    }

    /// Takes the top `batch_count` addresses, in stack order.
    pub fn pop_back(&mut self) -> (out: Vec<usize>)
        requires
            old(self).wf(),
            old(self)@.len() >= old(self).batch_count,
        ensures
            final(self).wf(),
            final(self).batch_count == old(self).batch_count,
            out@.len() == old(self).batch_count,
            final(self)@ + out@ == old(self)@,
            final(self)@ == old(self)@.subrange(0, old(self)@.len() - old(self).batch_count),
            out@ == old(self)@.subrange(old(self)@.len() - old(self).batch_count, old(self)@.len() as int),
    {
        let begin = (self.avail - self.batch_count) as usize;
        let mut out: Vec<usize> = Vec::new();
        let mut i: usize = 0;
        while i < self.batch_count as usize
            invariant
                self.wf(),
                begin + self.batch_count == self.avail,
                0 <= i <= self.batch_count,
                out@ == self.entries@.subrange(begin as int, begin + i),
            decreases self.batch_count - i,
        {
            out.push(self.entries[begin + i]);
            proof {
                assert(out@ =~= self.entries@.subrange(begin as int, begin + i + 1));
            }
            i = i + 1;
        }
        let ghost before = self@;
        self.avail = self.avail - self.batch_count;
        proof {
            assert(self@ =~= before.subrange(0, before.len() - self.batch_count));
            assert(out@ =~= before.subrange(before.len() - self.batch_count, before.len() as int));
            assert(self@ + out@ =~= before);
        }
        out
    }

    /// Takes the bottom `batch_count` addresses, oldest first, and moves the rest
    /// down; only a full cache spills.
    pub fn pop(&mut self) -> (out: Vec<usize>)
        requires
            old(self).wf(),
            old(self).avail == old(self).limit,
        ensures
            final(self).wf(),
            out@.len() == old(self).batch_count,
            out@ + final(self)@ == old(self)@,
            out@ == old(self)@.subrange(0, old(self).batch_count as int),
            final(self)@ == old(self)@.subrange(old(self).batch_count as int, old(self)@.len() as int),
    {
        let ghost before = self@;
        let b = self.batch_count as usize;
        let mut out: Vec<usize> = Vec::new();
        let mut i: usize = 0;
        while i < b
            invariant
                self.wf(),
                self.avail == self.limit,
                self@ == before,
                b == self.batch_count,
                0 <= i <= b,
                out@ == before.subrange(0, i as int),
            decreases b - i,
        {
            out.push(self.entries[i]);
            proof {
                assert(out@ =~= before.subrange(0, i + 1));
            }
            i = i + 1;
        }
        let n = self.avail as usize;
        let mut j: usize = b;
        while j < n
            invariant
                self.entries@.len() == PER_CPU_OBJECTS,
                self.limit == PER_CPU_OBJECTS,
                self.batch_count == PER_CPU_OBJECTS / 2,
                self.avail == self.limit,
                n == PER_CPU_OBJECTS,
                b == self.batch_count,
                before.len() == n,
                b <= j <= n,
                forall|k: int| 0 <= k < j - b ==> self.entries@[k] == before[k + b],
                forall|k: int| j <= k < n ==> self.entries@[k] == before[k],
            decreases n - j,
        {
            let v = self.entries[j];
            self.entries.set(j - b, v);
            j = j + 1;
        }
        self.avail = self.avail - self.batch_count;
        proof {
            assert(self@ =~= before.subrange(b as int, n as int));
            assert(out@ + self@ =~= before);
        }
        out
    }

    /// Takes the top address.
    pub fn get(&mut self) -> (r: usize)
        requires
            old(self).wf(),
            old(self)@.len() > 0,
        ensures
            final(self).wf(),
            r == old(self)@.last(),
            final(self)@ == old(self)@.drop_last(),
            final(self)@.push(r) == old(self)@,
    {
        let ghost before = self@;
        let t = self.entries[self.avail as usize - 1];
        self.avail = self.avail - 1;
        proof {
            assert(self@ =~= before.drop_last());
            assert(self@.push(t) =~= before);
        }
        t
    }

    /// Places `addr` at the top.
    pub fn put(&mut self, addr: usize)
        requires
            old(self).wf(),
            old(self)@.len() < PER_CPU_OBJECTS,
        ensures
            final(self).wf(),
            final(self)@ == old(self)@.push(addr),
    {
        let ghost before = self@;
        self.entries.set(self.avail as usize, addr);
        self.avail = self.avail + 1;
        proof {
            assert(self@ =~= before.push(addr));
        }
    }

    pub fn is_empty(&self) -> (r: bool)
        requires
            self.wf(),
        ensures
            r == (self@.len() == 0),
    {
        self.avail == 0
    }

    pub fn is_full(&self) -> (r: bool)
        requires
            self.wf(),
        ensures
            r == (self@.len() == PER_CPU_OBJECTS),
    {
        self.avail == self.limit
    }

    /// Whether `addr` is among the addresses held.
    pub fn contains(&self, addr: usize) -> (r: bool)
        requires
            self.wf(),
        ensures
            r == self@.contains(addr),
    {
        let mut i: usize = 0;
        while i < self.avail as usize
            invariant
                self.wf(),
                0 <= i <= self.avail,
                forall|k: int| 0 <= k < i ==> self@[k] != addr,
            decreases self.avail - i,
        {
            if self.entries[i] == addr {
                proof {
                    assert(self@[i as int] == addr);
                }
                return true;
            }
            i = i + 1;
        }
        false
    }
}

} // verus!
