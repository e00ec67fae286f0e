//! The virtual buffer facade and its byte cursors.
//!
//! The buffer coordinates four pieces: the persistence collaborator (the
//! authoritative content), a read cache in front of it, a version clock that
//! ticks once per successful mutation, and an append-only edit log that lets
//! an outstanding cursor translate a stale position into a current one. A
//! registry of the versions cursors last reconciled to bounds how much of
//! the log may be pruned: edits at or above the lowest registered version
//! are kept.

use vstd::prelude::*;
use vstd::multiset::Multiset;
use crate::cache::Cache;
use crate::edit::{
    drop_below, edits_since, lemma_drop_below_is_suffix, lemma_drop_below_keeps, replay,
    version_sorted, Edit, EditKind,
};
use crate::persistence::{splice_delete, splice_insert, PersistenceLayer, StoreError};
use core::ops::Range;

verus! {

/// The cache the buffer creates for itself: sixteen mebibytes.
const DEFAULT_CACHE_SIZE: usize = 16 * 1024 * 1024;

/// `w` is the lowest version any registered cursor still depends on.
pub open spec fn is_watermark(reg: Multiset<u64>, w: u64) -> bool {
    reg.count(w) > 0 && forall|v: u64| #[trigger] reg.count(v) > 0 ==> w <= v
}

/// What the log looks like after the prune step that follows a mutation:
/// untouched when no cursor is registered, otherwise cut down to the suffix
/// from the watermark on.
pub open spec fn pruned_log_of(log: Seq<Edit>, reg: Multiset<u64>, new_log: Seq<Edit>) -> bool {
    &&& (reg.len() == 0 ==> new_log == log)
    &&& (forall|w: u64| #[trigger] is_watermark(reg, w) ==> new_log == drop_below(log, w as int))
}

/// Law (pruning safety): for any cursor still registered at version `v`,
/// pruning at the watermark removes no edit whose version is at or above
/// `v` — every edit the cursor may still need to replay survives.
pub proof fn lemma_pruning_safety(
    log: Seq<Edit>,
    reg: Multiset<u64>,
    w: u64,
    v: u64,
    i: int,
)
    requires
        is_watermark(reg, w),
        reg.count(v) > 0,
        0 <= i < log.len(),
        log[i].version >= v,
    ensures
        drop_below(log, w as int).contains(log[i]),
{
    assert(w <= v);
    lemma_drop_below_keeps(log, w as int, i);
}

/// Law: after a mutation records edit `e` and prunes, a cursor that was
/// registered at the pre-mutation version has exactly `e` left to replay.
/// Its resolved position therefore moves by [`crate::edit::apply_edit`]:
/// forward by the length of an insertion at or before it, back (saturating
/// at zero) for such a deletion, and not at all for an edit strictly after
/// it.
pub proof fn lemma_mutation_pending_edit(
    old_log: Seq<Edit>,
    reg: Multiset<u64>,
    new_log: Seq<Edit>,
    e: Edit,
    w: u64,
    v: u64,
)
    requires
        pruned_log_of(old_log.push(e), reg, new_log),
        is_watermark(reg, w),
        reg.count(v) > 0,
        e.version == v + 1,
        version_sorted(old_log),
        forall|i: int| 0 <= i < old_log.len() ==> (#[trigger] old_log[i]).version <= v,
    ensures
        edits_since(new_log, v) == seq![e],
{
    let pushed = old_log.push(e);
    assert(w <= v);
    assert(new_log == drop_below(pushed, w as int));
    crate::edit::lemma_drop_below_twice(pushed, w as int, v + 1);
    assert(version_sorted(pushed)) by {
        assert forall|i: int, j: int|
            0 <= i < j < pushed.len() implies (#[trigger] pushed[i]).version < (
        #[trigger] pushed[j]).version by {
            if j < pushed.len() - 1 {
                assert(pushed[i] == old_log[i] && pushed[j] == old_log[j]);
            } else {
                assert(pushed[i] == old_log[i] && pushed[j] == e);
            }
        }
    }
    lemma_drop_below_is_suffix(pushed, v + 1, old_log.len() as int);
    assert(pushed.skip(old_log.len() as int) =~= seq![e]);
}

spec fn log_contiguous(log: Seq<Edit>, version: u64) -> bool {
    forall|i: int|
        0 <= i < log.len() ==> (#[trigger] log[i]).version == version - log.len() + 1 + i
}

spec fn cursors_covered(cursors: Seq<u64>, version: u64, log_len: int) -> bool {
    forall|j: int|
        0 <= j < cursors.len() ==> (#[trigger] cursors[j]) <= version && version - cursors[j]
            <= log_len
}

proof fn lemma_contiguous_sorted(log: Seq<Edit>, version: u64)
    requires
        log_contiguous(log, version),
    ensures
        version_sorted(log),
{
}

/// First index whose edit version is at or above `bound`, by binary search
/// on the version-sorted log.
fn lower_bound(log: &Vec<Edit>, bound: u64) -> (r: usize)
    requires
        version_sorted(log@),
    ensures
        r <= log@.len(),
        forall|i: int| 0 <= i < r ==> (#[trigger] log@[i]).version < bound,
        forall|i: int| r <= i < log@.len() ==> (#[trigger] log@[i]).version >= bound,
{
    let mut lo: usize = 0;
    let mut hi: usize = log.len();
    while lo < hi
        invariant
            lo <= hi <= log@.len(),
            version_sorted(log@),
            forall|i: int| 0 <= i < lo ==> (#[trigger] log@[i]).version < bound,
            forall|i: int| hi <= i < log@.len() ==> (#[trigger] log@[i]).version >= bound,
        decreases hi - lo,
    {
        let mid = lo + (hi - lo) / 2;
        if log[mid].version < bound {
            proof {
                assert forall|i: int| 0 <= i < mid + 1 implies (#[trigger] log@[i]).version
                    < bound by {
                    if i < mid {
                        assert(log@[i].version < log@[mid as int].version);
                    }
                }
            }
            lo = mid + 1;
        } else {
            proof {
                assert forall|i: int| mid <= i < log@.len() implies (#[trigger] log@[i]).version
                    >= bound by {
                    if i > mid {
                        assert(log@[mid as int].version < log@[i].version);
                    }
                }
            }
            hi = mid;
        }
    }
    lo
}

/// The public-facing virtual buffer. It owns the persistence backend, the
/// cache, the edit log, the version clock and the cursor registry, and
/// serializes every mutation against all of them.
pub struct VirtualBuffer<P: PersistenceLayer> {
    store: P,
    cache: Cache,
    edit_log: Vec<Edit>,
    version: u64,
    cursors: Vec<u64>,
}

impl<P: PersistenceLayer> VirtualBuffer<P> {
    /// The bytes the buffer currently holds: the persistence layer is the
    /// authoritative source.
    pub closed spec fn content(&self) -> Seq<u8> {
        self.store.view()
    }

    /// The version clock's current value.
    pub closed spec fn version(&self) -> u64 {
        self.version
    }

    /// The edit log, oldest first.
    pub closed spec fn log(&self) -> Seq<Edit> {
        self.edit_log@
    }

    /// The multiset of versions live cursors last reconciled to: one entry
    /// per cursor, so two cursors sharing a version hold two entries.
    pub closed spec fn registry(&self) -> Multiset<u64> {
        self.cursors@.to_multiset()
    }

    /// Whether the persistence backend is free of I/O faults.
    pub closed spec fn store_reliable(&self) -> bool {
        self.store.reliable()
    }

    /// The buffer's invariant: the cache agrees with the store; the log
    /// holds exactly the contiguous run of versions ending at the clock,
    /// possibly truncated at the head; and every registered cursor version
    /// is recent enough that all edits after it are still in the log.
    pub closed spec fn wf(&self) -> bool {
        &&& self.cache.wf()
        &&& self.cache.agrees_with(self.store.view())
        &&& self.cache.capacity_spec() >= 1
        &&& self.version >= self.edit_log@.len()
        &&& log_contiguous(self.edit_log@, self.version)
        &&& cursors_covered(self.cursors@, self.version, self.edit_log@.len() as int)
    }

    /// A fresh buffer over the given persistence backend: version zero,
    /// empty log, empty registry, cold cache.
    pub fn new(persistence: P) -> (b: Self)
        ensures
            b.wf(),
            b.content() == persistence.view(),
            b.version() == 0,
            b.log() == Seq::<Edit>::empty(),
            b.registry() == Multiset::<u64>::empty(),
            b.store_reliable() == persistence.reliable(),
    {
        let b = VirtualBuffer {
            store: persistence,
            cache: Cache::new(DEFAULT_CACHE_SIZE),
            edit_log: Vec::new(),
            version: 0,
            cursors: Vec::new(),
        };
        proof {
            broadcast use vstd::seq_lib::group_to_multiset_ensures;

            assert(b.cursors@.to_multiset() =~= Multiset::<u64>::empty()) by {
                assert forall|v: u64| b.cursors@.to_multiset().count(v) == 0 by {
                    assert(!b.cursors@.contains(v));
                }
            }
            assert(b.edit_log@ =~= Seq::<Edit>::empty());
        }
        b
    }

    /// Read `len` bytes at `offset`: from the cache on a hit, else from the
    /// store, backfilling the cache. Never changes the observable state.
    pub fn read(&mut self, offset: usize, len: usize) -> (r: Result<Vec<u8>, StoreError>)
        requires
            old(self).wf(),
        ensures
            final(self).wf(),
            final(self).content() == old(self).content(),
            final(self).version() == old(self).version(),
            final(self).log() == old(self).log(),
            final(self).registry() == old(self).registry(),
            final(self).store_reliable() == old(self).store_reliable(),
            r matches Ok(d) ==> offset + len <= old(self).content().len() && d@ == old(self).content().subrange(offset as int, offset + len),
            offset + len > old(self).content().len() ==> r is Err,
            old(self).store_reliable() && offset + len <= old(self).content().len() ==> r is Ok,
    {
        match self.cache.read(offset, len) {
            Some(d) => {
                proof {
                    assert(self.cache.agrees_with(self.store.view()));
                }
                return Ok(d);
            },
            None => {},
        }
        let d = match self.store.read(offset, len) {
            Err(e) => {
                return Err(e);
            },
            Ok(d) => d,
        };
        if d.len() > 0 {
            let mut copy: Vec<u8> = Vec::new();
            let mut i: usize = 0;
            while i < d.len()
                invariant
                    i <= d@.len(),
                    copy@ =~= d@.take(i as int),
                decreases d@.len() - i,
            {
                copy.push(d[i]);
                i += 1;
            }
            assert(copy@ =~= d@);
            self.cache.write(offset, copy);
        }
        Ok(d)
    }

    /// Insert `data` before the byte at `offset`. A no-op on empty data;
    /// otherwise all-or-nothing: on success the store is updated, the whole
    /// cache invalidated, the clock advanced by one, an insert edit recorded
    /// at the new version and the log pruned; on failure nothing changes.
    pub fn insert(&mut self, offset: usize, data: &[u8]) -> (r: Result<(), StoreError>)
        requires
            old(self).wf(),
            old(self).version() < u64::MAX,
        ensures
            final(self).wf(),
            final(self).store_reliable() == old(self).store_reliable(),
            final(self).registry() == old(self).registry(),
            data@.len() == 0 ==> r is Ok && final(self).content() == old(self).content() && final(self).version() == old(self).version() && final(self).log() == old(self).log(),
            r is Err ==> final(self).content() == old(self).content() && final(self).version()
                == old(self).version() && final(self).log() == old(self).log(),
            r is Ok && data@.len() > 0 ==> offset <= old(self).content().len() && final(self).content() == splice_insert(old(self).content(), offset as int, data@) && final(self).version() == old(self).version() + 1 && pruned_log_of(
                old(self).log().push(
                    Edit {
                        version: (old(self).version() + 1) as u64,
                        kind: EditKind::Insert { offset, len: data@.len() as usize },
                    },
                ),
                old(self).registry(),
                final(self).log(),
            ),
            offset > old(self).content().len() && data@.len() > 0 ==> r is Err,
            old(self).store_reliable() && offset <= old(self).content().len() ==> r is Ok,
    {
        if data.len() == 0 {
            return Ok(());
        }
        match self.store.insert(offset, data) {
            Err(e) => {
                return Err(e);
            },
            Ok(()) => {},
        }
        self.cache.clear();
        let new_version = self.version + 1;
        self.version = new_version;
        let e = Edit::insert(new_version, offset, data.len());
        self.edit_log.push(e);
        proof {
            assert(self.wf());
        }
        self.prune_edit_log();
        Ok(())
    }

    /// Delete the byte range `range`. A no-op on an empty range; otherwise
    /// all-or-nothing like `insert`, recording a delete edit at the new
    /// version.
    pub fn delete(&mut self, range: Range<usize>) -> (r: Result<(), StoreError>)
        requires
            old(self).wf(),
            old(self).version() < u64::MAX,
        ensures
            final(self).wf(),
            final(self).store_reliable() == old(self).store_reliable(),
            final(self).registry() == old(self).registry(),
            range.start >= range.end ==> r is Ok && final(self).content() == old(self).content()
                && final(self).version() == old(self).version() && final(self).log() == old(self).log(),
            r is Err ==> final(self).content() == old(self).content() && final(self).version()
                == old(self).version() && final(self).log() == old(self).log(),
            r is Ok && range.start < range.end ==> range.end <= old(self).content().len() && final(self).content() == splice_delete(old(self).content(), range.start as int, range.end as int)
                && final(self).version() == old(self).version() + 1 && pruned_log_of(
                old(self).log().push(
                    Edit {
                        version: (old(self).version() + 1) as u64,
                        kind: EditKind::Delete {
                            offset: range.start,
                            len: (range.end - range.start) as usize,
                        },
                    },
                ),
                old(self).registry(),
                final(self).log(),
            ),
            range.end > old(self).content().len() && range.start < range.end ==> r is Err,
            old(self).store_reliable() && range.start < range.end && range.end <= old(self).content().len() ==> r is Ok,
    {
        if range.start >= range.end {
            return Ok(());
        }
        let start = range.start;
        let end = range.end;
        let len = end - start;
        match self.store.delete(start, end) {
            Err(e) => {
                return Err(e);
            },
            Ok(()) => {},
        }
        self.cache.clear();
        let new_version = self.version + 1;
        self.version = new_version;
        let e = Edit::delete(new_version, start, len);
        self.edit_log.push(e);
        proof {
            assert(self.wf());
        }
        self.prune_edit_log();
        Ok(())
    }

    /// The buffer's total length in bytes, straight from the store.
    pub fn len(&self) -> (r: usize)
        ensures
            r == self.content().len(),
    {
        self.store.len()
    }

    /// Whether the buffer holds no bytes.
    pub fn is_empty(&self) -> (r: bool)
        ensures
            r == (self.content().len() == 0),
    {
        self.len() == 0
    }

    /// The version clock's current value.
    pub fn current_version(&self) -> (r: u64)
        ensures
            r == self.version(),
    {
        self.version
    }

    /// How many edits the log currently retains.
    pub fn edit_log_len(&self) -> (r: usize)
        ensures
            r == self.log().len(),
    {
        self.edit_log.len()
    }

    /// Create a cursor at `position` (not bounds-checked here; bounds are
    /// enforced at traversal time), registered at the current version.
    pub fn iter_at(&mut self, position: usize) -> (it: ByteIterator)
        requires
            old(self).wf(),
        ensures
            final(self).wf(),
            final(self).content() == old(self).content(),
            final(self).version() == old(self).version(),
            final(self).log() == old(self).log(),
            final(self).store_reliable() == old(self).store_reliable(),
            final(self).registry() == old(self).registry().insert(old(self).version()),
            it.position_spec() == position,
            it.version_spec() == old(self).version(),
            it.registered_in(*final(self)),
    {
        let v = self.version;
        proof {
            broadcast use vstd::seq_lib::group_to_multiset_ensures;

        }
        self.cursors.push(v);
        ByteIterator { position, version_at_creation: v }
    }

    /// Prune the edit log: find the lowest version a registered cursor
    /// still holds and drop every edit below it. With no cursors registered
    /// the log is kept whole (history retained, e.g. for a future undo).
    fn prune_edit_log(&mut self)
        requires
            old(self).wf(),
        ensures
            final(self).wf(),
            final(self).content() == old(self).content(),
            final(self).version() == old(self).version(),
            final(self).registry() == old(self).registry(),
            final(self).store_reliable() == old(self).store_reliable(),
            pruned_log_of(old(self).log(), old(self).registry(), final(self).log()),
    {
        let m = match self.min_cursor_version() {
            None => {
                return;
            },
            Some(m) => m,
        };
        proof {
            lemma_contiguous_sorted(self.edit_log@, self.version);
        }
        let idx = lower_bound(&self.edit_log, m);
        let ghost oldlog = self.edit_log@;
        let tail = self.edit_log.split_off(idx);
        self.edit_log = tail;
        proof {
            assert(self.edit_log@ =~= oldlog.skip(idx as int));
            lemma_drop_below_is_suffix(oldlog, m as int, idx as int);
            broadcast use vstd::seq_lib::group_to_multiset_ensures;

            assert forall|j: int| 0 <= j < self.cursors@.len() implies (
            #[trigger] self.cursors@[j]) <= self.version && self.version - self.cursors@[j]
                <= self.edit_log@.len() by {
                let v = self.cursors@[j];
                assert(self.cursors@.contains(v));
                assert(self.registry().count(v) > 0);
                assert(m <= v);
                if idx > 0 {
                    assert(oldlog[idx - 1].version < m);
                    assert(oldlog[idx - 1].version == self.version - oldlog.len() + idx);
                }
            }
            assert forall|w: u64| #[trigger]
                is_watermark(old(self).registry(), w) implies self.edit_log@ == drop_below(
                oldlog,
                w as int,
            ) by {
                assert(old(self).registry().count(m) > 0);
                assert(old(self).registry().count(w) > 0);
                assert(w <= m && m <= w);
            }
        }
    }

    /// The lowest version any registered cursor holds, or `None` when the
    /// registry is empty.
    fn min_cursor_version(&self) -> (r: Option<u64>)
        ensures
            r is None ==> self.registry().len() == 0 && forall|v: u64|
                self.registry().count(v) == 0,
            r matches Some(m) ==> is_watermark(self.registry(), m),
    {
        proof {
            broadcast use vstd::seq_lib::group_to_multiset_ensures;

        }
        if self.cursors.len() == 0 {
            proof {
                assert forall|v: u64| self.registry().count(v) == 0 by {
                    assert(!self.cursors@.contains(v));
                }
            }
            return None;
        }
        let mut m = self.cursors[0];
        let mut j: usize = 1;
        while j < self.cursors.len()
            invariant
                1 <= j <= self.cursors@.len(),
                exists|k: int| 0 <= k < j && self.cursors@[k] == m,
                forall|k: int| 0 <= k < j ==> m <= #[trigger] self.cursors@[k],
            decreases self.cursors@.len() - j,
        {
            let c = self.cursors[j];
            if c < m {
                m = c;
            }
            j += 1;
        }
        proof {
            assert(self.cursors@.contains(m));
            assert forall|v: u64| #[trigger] self.registry().count(v) > 0 implies m <= v by {
                assert(self.cursors@.contains(v));
                let k = choose|k: int| 0 <= k < self.cursors@.len() && self.cursors@[k] == v;
                assert(m <= self.cursors@[k]);
            }
        }
        Some(m)
    }

    /// Index of some registry entry holding `from`.
    fn find_cursor(&self, from: u64) -> (j: usize)
        requires
            self.registry().count(from) > 0,
        ensures
            j < self.cursors@.len(),
            self.cursors@[j as int] == from,
    {
        proof {
            broadcast use vstd::seq_lib::group_to_multiset_ensures;

            assert(self.cursors@.contains(from));
        }
        let n = self.cursors.len();
        let mut j: usize = 0;
        while j < n && self.cursors[j] != from
            invariant
                j <= n == self.cursors@.len(),
                forall|k: int| 0 <= k < j ==> self.cursors@[k] != from,
                self.cursors@.contains(from),
            decreases n - j,
        {
            j += 1;
        }
        if j == n {
            proof {
                let k = choose|k: int| 0 <= k < self.cursors@.len() && self.cursors@[k] == from;
                assert(false);
            }
        }
        j
    }

    /// Move one registry entry from `from` to the current version: the
    /// cursor that held it has just reconciled.
    fn retag_cursor(&mut self, from: u64)
        requires
            old(self).wf(),
            old(self).registry().count(from) > 0,
        ensures
            final(self).wf(),
            final(self).content() == old(self).content(),
            final(self).version() == old(self).version(),
            final(self).log() == old(self).log(),
            final(self).store_reliable() == old(self).store_reliable(),
            final(self).registry() == old(self).registry().remove(from).insert(
                old(self).version(),
            ),
            final(self).registry().count(old(self).version()) > 0,
    {
        proof {
            broadcast use vstd::seq_lib::group_to_multiset_ensures;

        }
        let j = self.find_cursor(from);
        let ghost mid = self.cursors@.remove(j as int);
        self.cursors.remove(j);
        let v = self.version;
        self.cursors.push(v);
        proof {
            assert(self.cursors@ == mid.push(v));
            assert forall|k: int| 0 <= k < self.cursors@.len() implies (
            #[trigger] self.cursors@[k]) <= self.version && self.version - self.cursors@[k]
                <= self.edit_log@.len() by {
                if k < self.cursors@.len() - 1 {
                    let c = self.cursors@[k];
                    if k < j {
                        assert(c == old(self).cursors@[k]);
                    } else {
                        assert(c == old(self).cursors@[k + 1]);
                    }
                }
            }
            assert(self.registry() =~= old(self).registry().remove(from).insert(
                old(self).version(),
            ));
        }
    }

    /// Remove one registry entry holding `from`: the cursor that held it is
    /// being destroyed.
    fn unregister_cursor(&mut self, from: u64)
        requires
            old(self).wf(),
            old(self).registry().count(from) > 0,
        ensures
            final(self).wf(),
            final(self).content() == old(self).content(),
            final(self).version() == old(self).version(),
            final(self).log() == old(self).log(),
            final(self).store_reliable() == old(self).store_reliable(),
            final(self).registry() == old(self).registry().remove(from),
    {
        proof {
            broadcast use vstd::seq_lib::group_to_multiset_ensures;

        }
        let j = self.find_cursor(from);
        self.cursors.remove(j);
        proof {
            assert forall|k: int| 0 <= k < self.cursors@.len() implies (
            #[trigger] self.cursors@[k]) <= self.version && self.version - self.cursors@[k]
                <= self.edit_log@.len() by {
                if k < j {
                    assert(self.cursors@[k] == old(self).cursors@[k]);
                } else {
                    assert(self.cursors@[k] == old(self).cursors@[k + 1]);
                }
            }
        }
    }
}

/// A bidirectional byte cursor over a [`VirtualBuffer`].
///
/// It holds a raw position and the version it last reconciled to; before
/// every navigation it replays the edits recorded since that version to
/// correct the position (see [`crate::edit::replay`]). Navigation borrows
/// the buffer, so a cursor may be created on one buffer, the buffer mutated,
/// and the cursor then resumed: it observes the same logical content.
pub struct ByteIterator {
    position: usize,
    version_at_creation: u64,
}

impl ByteIterator {
    /// The cursor's raw (possibly stale) position.
    pub closed spec fn position_spec(&self) -> usize {
        self.position
    }

    /// The version this cursor last reconciled to.
    pub closed spec fn version_spec(&self) -> u64 {
        self.version_at_creation
    }

    /// The cursor holds a live entry in the buffer's registry.
    pub open spec fn registered_in<P: PersistenceLayer>(&self, buf: VirtualBuffer<P>) -> bool {
        buf.registry().count(self.version_spec()) > 0
    }

    /// Where this cursor's position lands once the edits recorded since its
    /// version are replayed against it.
    pub open spec fn resolved<P: PersistenceLayer>(&self, buf: VirtualBuffer<P>) -> int {
        replay(self.position_spec() as int, edits_since(buf.log(), self.version_spec()))
    }

    /// Replay all edits in `(version_at_creation, current]` against the
    /// position, then move this cursor's registry entry to the current
    /// version — stale entries would block pruning forever, and premature
    /// removal would let needed edits be pruned.
    fn adjust_for_edits<P: PersistenceLayer>(&mut self, buf: &mut VirtualBuffer<P>)
        requires
            old(buf).wf(),
            old(self).registered_in(*old(buf)),
        ensures
            final(buf).wf(),
            final(buf).content() == old(buf).content(),
            final(buf).version() == old(buf).version(),
            final(buf).log() == old(buf).log(),
            final(buf).store_reliable() == old(buf).store_reliable(),
            final(buf).registry() == old(buf).registry().remove(old(self).version_spec()).insert(
                old(buf).version(),
            ),
            final(self).version_spec() == old(buf).version(),
            final(self).position_spec() as int == old(self).resolved(*old(buf)),
            final(self).registered_in(*final(buf)),
    {
        let v0 = self.version_at_creation;
        let cur = buf.current_version();
        proof {
            lemma_contiguous_sorted(buf.log(), buf.version());
        }
        if v0 == cur {
            proof {
                lemma_drop_below_is_suffix(buf.log(), v0 + 1, buf.log().len() as int);
                assert(buf.log().skip(buf.log().len() as int) =~= Seq::<Edit>::empty());
                assert(replay(self.position as int, Seq::<Edit>::empty()) == self.position);
                assert(buf.registry().remove(v0).insert(v0) =~= buf.registry());
            }
            return;
        }
        proof {
            assert(buf.registry().count(v0) > 0);
            broadcast use vstd::seq_lib::group_to_multiset_ensures;

            assert(buf.cursors@.contains(v0));
            let k = choose|k: int| 0 <= k < buf.cursors@.len() && buf.cursors@[k] == v0;
        }
        assert(v0 < cur);
        let start = lower_bound(&buf.edit_log, v0 + 1);
        let ghost full = edits_since(buf.log(), v0);
        proof {
            lemma_drop_below_is_suffix(buf.log(), v0 + 1, start as int);
            assert(full == buf.log().skip(start as int));
        }
        let ghost pos0 = self.position as int;
        proof {
            assert(full.skip(0) =~= full);
        }
        let n = buf.edit_log.len();
        let mut i = start;
        while i < n
            invariant
                start <= i <= n == buf.edit_log@.len(),
                *buf == *old(buf),
                full == buf.edit_log@.skip(start as int),
                self.version_at_creation == old(self).version_spec(),
                replay(pos0, full) == replay(self.position as int, full.skip(i - start)),
            decreases n - i,
        {
            let e = buf.edit_log[i];
            let ghost rest = full.skip(i - start);
            proof {
                assert(rest[0] == e);
                assert(rest.skip(1) =~= full.skip(i + 1 - start));
            }
            match e.kind {
                EditKind::Insert { offset, len } => {
                    if offset <= self.position {
                        self.position = if self.position <= usize::MAX - len {
                            self.position + len
                        } else {
                            usize::MAX
                        };
                    }
                },
                EditKind::Delete { offset, len } => {
                    if offset <= self.position {
                        self.position = if self.position >= len {
                            self.position - len
                        } else {
                            0
                        };
                    }
                },
            }
            i += 1;
        }
        proof {
            assert(full.skip(n - start) =~= Seq::<Edit>::empty());
        }
        buf.retag_cursor(v0);
        self.version_at_creation = cur;
    }

    /// Reconcile, then read the byte at the resolved position and advance
    /// past it; `None` at (or beyond) the end of the buffer.
    pub fn next<P: PersistenceLayer>(&mut self, buf: &mut VirtualBuffer<P>) -> (r: Option<u8>)
        requires
            old(buf).wf(),
            old(self).registered_in(*old(buf)),
        ensures
            final(buf).wf(),
            final(buf).content() == old(buf).content(),
            final(buf).version() == old(buf).version(),
            final(buf).log() == old(buf).log(),
            final(buf).store_reliable() == old(buf).store_reliable(),
            final(buf).registry() == old(buf).registry().remove(old(self).version_spec()).insert(
                old(buf).version(),
            ),
            final(self).version_spec() == old(buf).version(),
            final(self).registered_in(*final(buf)),
            old(self).resolved(*old(buf)) >= old(buf).content().len() ==> r is None,
            r matches Some(b) ==> old(self).resolved(*old(buf)) < old(buf).content().len() && b
                == old(buf).content()[old(self).resolved(*old(buf))] && final(self).position_spec() as int == old(self).resolved(*old(buf)) + 1,
            r is None ==> final(self).position_spec() as int == old(self).resolved(*old(buf)),
            old(buf).store_reliable() && old(self).resolved(*old(buf)) < old(buf).content().len() ==> r is Some,
    {
        self.adjust_for_edits(buf);
        let blen = buf.store.len();
        if self.position >= blen {
            return None;
        }
        match buf.cache.ensure_cached(&buf.store, self.position, 1) {
            Err(_) => {
                return None;
            },
            Ok(()) => {},
        }
        match buf.cache.read(self.position, 1) {
            None => None,
            Some(d) => {
                let b = d[0];
                proof {
                    assert(buf.cache.agrees_with(buf.store.view()));
                    assert(d@ == buf.store.view().subrange(
                        self.position as int,
                        self.position + 1,
                    ));
                }
                self.position = self.position + 1;
                Some(b)
            },
        }
    }

    /// Reconcile, then step back one byte and read it; `None` at the start
    /// of the buffer.
    pub fn prev<P: PersistenceLayer>(&mut self, buf: &mut VirtualBuffer<P>) -> (r: Option<u8>)
        requires
            old(buf).wf(),
            old(self).registered_in(*old(buf)),
        ensures
            final(buf).wf(),
            final(buf).content() == old(buf).content(),
            final(buf).version() == old(buf).version(),
            final(buf).log() == old(buf).log(),
            final(buf).store_reliable() == old(buf).store_reliable(),
            final(buf).registry() == old(buf).registry().remove(old(self).version_spec()).insert(
                old(buf).version(),
            ),
            final(self).version_spec() == old(buf).version(),
            final(self).registered_in(*final(buf)),
            old(self).resolved(*old(buf)) == 0 ==> r is None && final(self).position_spec() == 0,
            old(self).resolved(*old(buf)) > 0 ==> final(self).position_spec() as int == old(self).resolved(*old(buf)) - 1,
            r matches Some(b) ==> old(self).resolved(*old(buf)) > 0 && old(self).resolved(
                *old(buf),
            ) - 1 < old(buf).content().len() && b == old(buf).content()[old(self).resolved(
                *old(buf),
            ) - 1],
            old(self).resolved(*old(buf)) > old(buf).content().len() ==> r is None,
            old(buf).store_reliable() && 0 < old(self).resolved(*old(buf)) <= old(buf).content().len() ==> r is Some,
    {
        self.adjust_for_edits(buf);
        if self.position == 0 {
            return None;
        }
        self.position = self.position - 1;
        match buf.cache.ensure_cached(&buf.store, self.position, 1) {
            Err(_) => {
                return None;
            },
            Ok(()) => {},
        }
        match buf.cache.read(self.position, 1) {
            None => None,
            Some(d) => {
                let b = d[0];
                proof {
                    assert(buf.cache.agrees_with(buf.store.view()));
                    assert(d@ == buf.store.view().subrange(
                        self.position as int,
                        self.position + 1,
                    ));
                }
                Some(b)
            },
        }
    }

    /// Read the byte at the cursor's recorded position without advancing and
    /// without reconciling: after a concurrent mutation this is deliberately
    /// a possibly-stale view, reading the current content at the raw
    /// position.
    pub fn peek<P: PersistenceLayer>(&self, buf: &mut VirtualBuffer<P>) -> (r: Option<u8>)
        requires
            old(buf).wf(),
        ensures
            final(buf).wf(),
            final(buf).content() == old(buf).content(),
            final(buf).version() == old(buf).version(),
            final(buf).log() == old(buf).log(),
            final(buf).registry() == old(buf).registry(),
            final(buf).store_reliable() == old(buf).store_reliable(),
            self.position_spec() >= old(buf).content().len() ==> r is None,
            r matches Some(b) ==> self.position_spec() < old(buf).content().len() && b == old(buf).content()[self.position_spec() as int],
            old(buf).store_reliable() && self.position_spec() < old(buf).content().len()
                ==> r is Some,
    {
        let blen = buf.store.len();
        if self.position >= blen {
            return None;
        }
        match buf.cache.ensure_cached(&buf.store, self.position, 1) {
            Err(_) => {
                return None;
            },
            Ok(()) => {},
        }
        match buf.cache.read(self.position, 1) {
            None => None,
            Some(d) => {
                let b = d[0];
                proof {
                    assert(buf.cache.agrees_with(buf.store.view()));
                    assert(d@ == buf.store.view().subrange(
                        self.position as int,
                        self.position + 1,
                    ));
                }
                Some(b)
            },
        }
    }

    /// Reconcile, then move the cursor to `position`.
    pub fn seek<P: PersistenceLayer>(&mut self, buf: &mut VirtualBuffer<P>, position: usize)
        requires
            old(buf).wf(),
            old(self).registered_in(*old(buf)),
        ensures
            final(buf).wf(),
            final(buf).content() == old(buf).content(),
            final(buf).version() == old(buf).version(),
            final(buf).log() == old(buf).log(),
            final(buf).store_reliable() == old(buf).store_reliable(),
            final(buf).registry() == old(buf).registry().remove(old(self).version_spec()).insert(
                old(buf).version(),
            ),
            final(self).version_spec() == old(buf).version(),
            final(self).position_spec() == position,
            final(self).registered_in(*final(buf)),
    {
        self.adjust_for_edits(buf);
        self.position = position;
    }

    /// The cursor's current raw position.
    pub fn position(&self) -> (r: usize)
        ensures
            r == self.position_spec(),
    {
        self.position
    }

    /// The buffer's total length, for bounds checking.
    pub fn buffer_len<P: PersistenceLayer>(&self, buf: &VirtualBuffer<P>) -> (r: usize)
        ensures
            r == buf.content().len(),
    {
        buf.len()
    }

    /// Destroy the cursor, removing its registry entry exactly once; if it
    /// was the oldest, this unblocks pruning.
    pub fn close<P: PersistenceLayer>(self, buf: &mut VirtualBuffer<P>)
        requires
            old(buf).wf(),
            self.registered_in(*old(buf)),
        ensures
            final(buf).wf(),
            final(buf).content() == old(buf).content(),
            final(buf).version() == old(buf).version(),
            final(buf).log() == old(buf).log(),
            final(buf).store_reliable() == old(buf).store_reliable(),
            final(buf).registry() == old(buf).registry().remove(self.version_spec()),
    {
        buf.unregister_cursor(self.version_at_creation);
    }
}

} // verus!
