//! A bounded read-through region cache sitting in front of the persistence
//! collaborator.
//!
//! The cache never holds bytes the persistence layer does not also hold: its
//! correctness statement is `agrees_with(content)`, saying every resident
//! region is a faithful copy of a slice of `content`. A hit therefore returns
//! exactly what the store would. Sizing and eviction are internal policy:
//! this cache drops the oldest regions when a new one would exceed its byte
//! capacity.

use vstd::prelude::*;
use crate::persistence::{PersistenceLayer, StoreError};

verus! {

struct CachedRegion {
    offset: usize,
    data: Vec<u8>,
}

/// A bounded cache of byte regions, indexed by their offset in the backing
/// content.
pub struct Cache {
    regions: Vec<CachedRegion>,
    capacity: usize,
    used: usize,
}

spec fn total_bytes(regions: Seq<CachedRegion>) -> int
    decreases regions.len(),
{
    if regions.len() == 0 {
        0
    } else {
        regions[0].data@.len() + total_bytes(regions.skip(1))
    }
}

proof fn lemma_total_bytes_nonneg(regions: Seq<CachedRegion>)
    ensures
        total_bytes(regions) >= 0,
    decreases regions.len(),
{
    if regions.len() > 0 {
        lemma_total_bytes_nonneg(regions.skip(1));
    }
}

proof fn lemma_total_bytes_push(regions: Seq<CachedRegion>, r: CachedRegion)
    ensures
        total_bytes(regions.push(r)) == total_bytes(regions) + r.data@.len(),
    decreases regions.len(),
{
    if regions.len() == 0 {
        assert(regions.push(r)[0] == r);
        assert(regions.push(r).skip(1) =~= Seq::<CachedRegion>::empty());
        assert(total_bytes(Seq::<CachedRegion>::empty()) == 0);
        assert(total_bytes(regions.push(r)) == r.data@.len() + total_bytes(
            regions.push(r).skip(1),
        ));
    } else {
        assert(regions.push(r)[0] == regions[0]);
        assert(regions.push(r).skip(1) =~= regions.skip(1).push(r));
        lemma_total_bytes_push(regions.skip(1), r);
    }
}

impl Cache {
    spec fn region_agrees(r: CachedRegion, content: Seq<u8>) -> bool {
        r.offset + r.data@.len() <= content.len() && r.data@ == content.subrange(
            r.offset as int,
            r.offset + r.data@.len(),
        )
    }

    spec fn region_covers(r: CachedRegion, offset: int, len: int) -> bool {
        r.offset <= offset && offset + len <= r.offset + r.data@.len()
    }

    /// Every resident region is a faithful copy of a slice of `content`.
    pub closed spec fn agrees_with(&self, content: Seq<u8>) -> bool {
        forall|i: int|
            0 <= i < self.regions@.len() ==> Self::region_agrees(
                #[trigger] self.regions@[i],
                content,
            )
    }

    /// Some single resident region holds all of `[offset, offset + len)`.
    pub closed spec fn covers(&self, offset: int, len: int) -> bool {
        exists|i: int|
            0 <= i < self.regions@.len() && Self::region_covers(
                #[trigger] self.regions@[i],
                offset,
                len,
            )
    }

    /// The byte capacity this cache was created with.
    pub closed spec fn capacity_spec(&self) -> usize {
        self.capacity
    }

    /// Internal bookkeeping: `used` tracks the resident byte total, within
    /// capacity.
    pub closed spec fn wf(&self) -> bool {
        self.used == total_bytes(self.regions@) && self.used <= self.capacity
    }

    /// An empty cache with the given byte capacity.
    pub fn new(capacity: usize) -> (c: Cache)
        ensures
            c.wf(),
            c.capacity_spec() == capacity,
            forall|content: Seq<u8>| #[trigger] c.agrees_with(content),
    {
        Cache { regions: Vec::new(), capacity, used: 0 }
    }

    /// Look up `[offset, offset + len)`: `Some` exactly when a resident
    /// region covers the range, and then the returned bytes are the cached
    /// copy, hence a faithful slice of any content the cache agrees with.
    pub fn read(&self, offset: usize, len: usize) -> (r: Option<Vec<u8>>)
        ensures
            r is Some <==> self.covers(offset as int, len as int),
            r matches Some(d) ==> d@.len() == len && forall|content: Seq<u8>|
                #[trigger] self.agrees_with(content) ==> offset + len <= content.len() && d@
                    == content.subrange(offset as int, offset + len),
    {
        let mut i: usize = 0;
        while i < self.regions.len()
            invariant
                i <= self.regions@.len(),
                forall|j: int|
                    0 <= j < i ==> !Self::region_covers(
                        #[trigger] self.regions@[j],
                        offset as int,
                        len as int,
                    ),
            decreases self.regions@.len() - i,
        {
            let r_offset = self.regions[i].offset;
            let r_len = self.regions[i].data.len();
            if r_offset <= offset && offset - r_offset <= r_len && len <= r_len - (offset
                - r_offset) {
                let rel = offset - r_offset;
                let mut out: Vec<u8> = Vec::new();
                let mut j: usize = 0;
                while j < len
                    invariant
                        j <= len,
                        i < self.regions@.len(),
                        rel + len <= r_len,
                        r_len == self.regions@[i as int].data@.len(),
                        rel == offset - self.regions@[i as int].offset,
                        out@ =~= self.regions@[i as int].data@.subrange(rel as int, rel + j),
                    decreases len - j,
                {
                    out.push(self.regions[i].data[rel + j]);
                    j += 1;
                }
                proof {
                    assert(Self::region_covers(self.regions@[i as int], offset as int, len as int));
                    assert forall|content: Seq<u8>| #[trigger] self.agrees_with(content) implies offset
                        + len <= content.len() && out@ == content.subrange(
                        offset as int,
                        offset + len,
                    ) by {
                        let reg = self.regions@[i as int];
                        assert(Self::region_agrees(reg, content));
                        assert(out@ =~= content.subrange(offset as int, offset + len));
                    }
                }
                return Some(out);
            }
            i += 1;
        }
        None
    }

    /// Drop every resident region.
    pub fn clear(&mut self)
        requires
            old(self).wf(),
        ensures
            final(self).wf(),
            final(self).capacity_spec() == old(self).capacity_spec(),
            forall|content: Seq<u8>| #[trigger] final(self).agrees_with(content),
    {
        self.regions.clear();
        self.used = 0;
    }

    /// Make the bytes `data`, which the caller read at `offset`, resident;
    /// oldest regions are evicted first when the new one would exceed
    /// capacity, and a region larger than the whole capacity is not stored.
    pub fn write(&mut self, offset: usize, data: Vec<u8>)
        requires
            old(self).wf(),
        ensures
            final(self).wf(),
            final(self).capacity_spec() == old(self).capacity_spec(),
            forall|content: Seq<u8>|
                #[trigger] old(self).agrees_with(content) && offset + data@.len()
                    <= content.len() && data@ == content.subrange(
                    offset as int,
                    offset + data@.len(),
                ) ==> final(self).agrees_with(content),
            data@.len() <= old(self).capacity_spec() ==> final(self).covers(
                offset as int,
                data@.len() as int,
            ),
    {
        let ghost dview = data@;
        let dlen = data.len();
        if dlen > self.capacity {
            return;
        }
        while self.used > self.capacity - dlen
            invariant
                self.wf(),
                dlen == dview.len(),
                dlen <= self.capacity,
                self.capacity == old(self).capacity,
                forall|content: Seq<u8>|
                    #[trigger] old(self).agrees_with(content) ==> self.agrees_with(content),
            decreases self.regions@.len(),
        {
            proof {
                if self.regions@.len() == 0 {
                    assert(total_bytes(self.regions@) == 0);
                    assert(false);
                }
                lemma_total_bytes_nonneg(self.regions@.skip(1));
            }
            let ghost prev = *self;
            let first_len = self.regions[0].data.len();
            self.regions.remove(0);
            self.used = self.used - first_len;
            proof {
                assert(self.regions@ =~= prev.regions@.skip(1));
                assert forall|content: Seq<u8>|
                    #[trigger] old(self).agrees_with(content) implies self.agrees_with(
                    content,
                ) by {
                    assert(prev.agrees_with(content));
                    assert forall|k: int|
                        0 <= k < self.regions@.len() implies Self::region_agrees(
                        #[trigger] self.regions@[k],
                        content,
                    ) by {
                        assert(self.regions@[k] == prev.regions@[k + 1]);
                        assert(Self::region_agrees(prev.regions@[k + 1], content));
                    }
                }
            }
        }
        let ghost prev = *self;
        proof {
            lemma_total_bytes_nonneg(prev.regions@);
        }
        self.used = self.used + dlen;
        self.regions.push(CachedRegion { offset, data });
        proof {
            let last = self.regions@.len() - 1;
            let reg = self.regions@[last];
            assert(self.regions@ == prev.regions@.push(reg));
            assert(reg.offset == offset && reg.data@ == dview);
            lemma_total_bytes_push(prev.regions@, reg);
            assert(Self::region_covers(reg, offset as int, dview.len() as int));
            assert forall|content: Seq<u8>|
                #[trigger] old(self).agrees_with(content) && offset + dview.len()
                    <= content.len() && dview == content.subrange(
                    offset as int,
                    offset + dview.len(),
                ) implies self.agrees_with(content) by {
                assert(prev.agrees_with(content));
                assert forall|k: int|
                    0 <= k < self.regions@.len() implies Self::region_agrees(
                    #[trigger] self.regions@[k],
                    content,
                ) by {
                    if k < last {
                        assert(self.regions@[k] == prev.regions@[k]);
                        assert(Self::region_agrees(prev.regions@[k], content));
                    } else {
                        assert(self.regions@[k] == reg);
                    }
                }
            }
        }
    }

    /// Load `[offset, offset + len)` from the store if no resident region
    /// already holds it. On failure the cache is left as it was: a miss, not
    /// a corruption.
    pub fn ensure_cached<P: PersistenceLayer>(
        &mut self,
        store: &P,
        offset: usize,
        len: usize,
    ) -> (r: Result<(), StoreError>)
        requires
            old(self).wf(),
            old(self).agrees_with(store.view()),
        ensures
            final(self).wf(),
            final(self).capacity_spec() == old(self).capacity_spec(),
            final(self).agrees_with(store.view()),
            r is Ok && len <= old(self).capacity_spec() ==> final(self).covers(
                offset as int,
                len as int,
            ),
            store.reliable() && offset + len <= store.view().len() ==> r is Ok,
            r is Ok ==> offset + len <= store.view().len(),
    {
        match self.read(offset, len) {
            Some(_) => Ok(()),
            None => {
                match store.read(offset, len) {
                    Err(e) => Err(e),
                    Ok(d) => {
                        self.write(offset, d);
                        Ok(())
                    },
                }
            },
        }
    }
}

} // verus!
