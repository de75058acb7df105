//! Access masks: which fields a query reads and writes, plus its
//! presence/absence filters, kept as bit sets indexed by field id. The mask
//! is what construction-time aliasing checks are made against.

use vstd::prelude::*;

use crate::bits::{bit_set_bits, bit_set_contains, bit_set_grow, bit_set_new, bit_set_put};
use crate::world::ComponentId;

verus! {

/// The fields a query touches: everything it reads (writes included) and
/// the subset it writes.
pub struct Access {
    pub reads_and_writes: fixedbitset::FixedBitSet,
    pub writes: fixedbitset::FixedBitSet,
}

impl Access {
    /// Ids read by the query; a written id counts as read.
    pub open spec fn spec_reads(self) -> Set<int> {
        bit_set_bits(self.reads_and_writes)
    }

    /// Ids written by the query.
    pub open spec fn spec_writes(self) -> Set<int> {
        bit_set_bits(self.writes)
    }

    /// Every write is also recorded as a read.
    pub open spec fn wf(self) -> bool {
        forall|b: int| self.spec_writes().contains(b) ==> self.spec_reads().contains(b)
    }

    pub fn new() -> (r: Access)
        ensures
            r.spec_reads() == Set::<int>::empty(),
            r.spec_writes() == Set::<int>::empty(),
            r.wf(),
    {
        Access { reads_and_writes: bit_set_new(), writes: bit_set_new() }
    }

    /// Is `c` read (or written) by this mask?
    pub fn has_read(&self, c: ComponentId) -> (r: bool)
        ensures
            r == self.spec_reads().contains(c.id as int),
    {
        bit_set_contains(&self.reads_and_writes, c.id)
    }

    /// Is `c` written by this mask?
    pub fn has_write(&self, c: ComponentId) -> (r: bool)
        ensures
            r == self.spec_writes().contains(c.id as int),
    {
        bit_set_contains(&self.writes, c.id)
    }

    /// Record a read of `c`.
    pub fn add_read(&mut self, c: ComponentId)
        requires
            c.id < usize::MAX,
        ensures
            final(self).spec_reads() == old(self).spec_reads().insert(c.id as int),
            final(self).spec_writes() == old(self).spec_writes(),
            old(self).wf() ==> final(self).wf(),
    {
        bit_set_grow(&mut self.reads_and_writes, c.id + 1);
        bit_set_put(&mut self.reads_and_writes, c.id);
        proof {
            if old(self).wf() {
                assert forall|b: int| self.spec_writes().contains(b) implies self.spec_reads()
                    .contains(b) by {
                    assert(old(self).spec_writes().contains(b));
                    assert(old(self).spec_reads().contains(b));
                }
            }
        }
    }

    /// Record a write of `c` (which is also a read).
    pub fn add_write(&mut self, c: ComponentId)
        requires
            c.id < usize::MAX,
        ensures
            final(self).spec_reads() == old(self).spec_reads().insert(c.id as int),
            final(self).spec_writes() == old(self).spec_writes().insert(c.id as int),
            old(self).wf() ==> final(self).wf(),
    {
        bit_set_grow(&mut self.reads_and_writes, c.id + 1);
        bit_set_put(&mut self.reads_and_writes, c.id);
        bit_set_grow(&mut self.writes, c.id + 1);
        bit_set_put(&mut self.writes, c.id);
        proof {
            if old(self).wf() {
                assert forall|b: int| self.spec_writes().contains(b) implies self.spec_reads()
                    .contains(b) by {
                    if b != c.id {
                        assert(old(self).spec_writes().contains(b));
                        assert(old(self).spec_reads().contains(b));
                    }
                }
            }
        }
    }
}

/// A query's full merged mask: the read/write access plus the ids its
/// require-present and require-absent filters mention.
pub struct FilteredAccess {
    pub access: Access,
    pub with_filters: fixedbitset::FixedBitSet,
    pub without_filters: fixedbitset::FixedBitSet,
}

impl FilteredAccess {
    pub open spec fn spec_reads(self) -> Set<int> {
        self.access.spec_reads()
    }

    pub open spec fn spec_writes(self) -> Set<int> {
        self.access.spec_writes()
    }

    pub open spec fn spec_with(self) -> Set<int> {
        bit_set_bits(self.with_filters)
    }

    pub open spec fn spec_without(self) -> Set<int> {
        bit_set_bits(self.without_filters)
    }

    pub open spec fn wf(self) -> bool {
        self.access.wf()
    }

    pub fn new() -> (r: FilteredAccess)
        ensures
            r.spec_reads() == Set::<int>::empty(),
            r.spec_writes() == Set::<int>::empty(),
            r.spec_with() == Set::<int>::empty(),
            r.spec_without() == Set::<int>::empty(),
            r.wf(),
    {
        FilteredAccess {
            access: Access::new(),
            with_filters: bit_set_new(),
            without_filters: bit_set_new(),
        }
    }

    pub fn has_read(&self, c: ComponentId) -> (r: bool)
        ensures
            r == self.spec_reads().contains(c.id as int),
    {
        self.access.has_read(c)
    }

    pub fn has_write(&self, c: ComponentId) -> (r: bool)
        ensures
            r == self.spec_writes().contains(c.id as int),
    {
        self.access.has_write(c)
    }

    pub fn add_read(&mut self, c: ComponentId)
        requires
            c.id < usize::MAX,
        ensures
            final(self).spec_reads() == old(self).spec_reads().insert(c.id as int),
            final(self).spec_writes() == old(self).spec_writes(),
            final(self).spec_with() == old(self).spec_with(),
            final(self).spec_without() == old(self).spec_without(),
            old(self).wf() ==> final(self).wf(),
    {
        self.access.add_read(c);
    }

    pub fn add_write(&mut self, c: ComponentId)
        requires
            c.id < usize::MAX,
        ensures
            final(self).spec_reads() == old(self).spec_reads().insert(c.id as int),
            final(self).spec_writes() == old(self).spec_writes().insert(c.id as int),
            final(self).spec_with() == old(self).spec_with(),
            final(self).spec_without() == old(self).spec_without(),
            old(self).wf() ==> final(self).wf(),
    {
        self.access.add_write(c);
    }

    /// Record a require-present filter on `c`.
    pub fn add_with(&mut self, c: ComponentId)
        requires
            c.id < usize::MAX,
        ensures
            final(self).spec_reads() == old(self).spec_reads(),
            final(self).spec_writes() == old(self).spec_writes(),
            final(self).spec_with() == old(self).spec_with().insert(c.id as int),
            final(self).spec_without() == old(self).spec_without(),
            old(self).wf() ==> final(self).wf(),
    {
        bit_set_grow(&mut self.with_filters, c.id + 1);
        bit_set_put(&mut self.with_filters, c.id);
    }

    /// Record a require-absent filter on `c`.
    pub fn add_without(&mut self, c: ComponentId)
        requires
            c.id < usize::MAX,
        ensures
            final(self).spec_reads() == old(self).spec_reads(),
            final(self).spec_writes() == old(self).spec_writes(),
            final(self).spec_with() == old(self).spec_with(),
            final(self).spec_without() == old(self).spec_without().insert(c.id as int),
            old(self).wf() ==> final(self).wf(),
    {
        bit_set_grow(&mut self.without_filters, c.id + 1);
        bit_set_put(&mut self.without_filters, c.id);
    }
}

} // verus!
