//! The pluggable persistence collaborator: an abstract durable byte-range
//! store, and an in-memory backend implementing it.
//!
//! The virtual buffer owns one value of a type implementing
//! [`PersistenceLayer`] and treats it as the authoritative content. Offsets
//! and ranges outside the current content fail with an out-of-range error;
//! a backend may additionally fail with an I/O fault, in which case it must
//! leave its content unchanged (mutations are all-or-nothing).

use vstd::prelude::*;

verus! {

/// An error surfaced by a persistence backend.
#[derive(Clone, Copy, PartialEq, Eq, Structural, Debug)]
pub enum StoreError {
    /// The requested offset or range lies beyond the current content.
    OutOfRange,
    /// The backend failed to perform the operation.
    Io,
}

/// The content after inserting `data` at `offset`.
pub open spec fn splice_insert(content: Seq<u8>, offset: int, data: Seq<u8>) -> Seq<u8> {
    content.take(offset) + data + content.skip(offset)
}

/// The content after deleting the byte range `[start, end)`.
pub open spec fn splice_delete(content: Seq<u8>, start: int, end: int) -> Seq<u8> {
    content.take(start) + content.skip(end)
}

/// An abstract durable byte-range store.
///
/// `view` is the bytes currently stored. `reliable` says whether the backend
/// is free of I/O faults: a backend for which it holds must complete every
/// in-range operation, so callers of a reliable store are owed success.
/// Every backend, reliable or not, must report its content faithfully and
/// leave it untouched when an operation fails.
pub trait PersistenceLayer: Sized {
    /// The bytes currently stored.
    spec fn view(&self) -> Seq<u8>;

    /// Whether this backend is free of I/O faults.
    spec fn reliable(&self) -> bool;

    /// Read `len` bytes starting at `offset`.
    fn read(&self, offset: usize, len: usize) -> (r: Result<Vec<u8>, StoreError>)
        ensures
            r matches Ok(d) ==> offset + len <= self.view().len() && d@ == self.view().subrange(
                offset as int,
                offset + len,
            ),
            offset + len > self.view().len() ==> r is Err,
            self.reliable() && offset + len <= self.view().len() ==> r is Ok,
    ;

    /// Insert `data` before the byte at `offset`.
    fn insert(&mut self, offset: usize, data: &[u8]) -> (r: Result<(), StoreError>)
        ensures
            final(self).reliable() == old(self).reliable(),
            r is Ok ==> offset <= old(self).view().len() && final(self).view() == splice_insert(
                old(self).view(),
                offset as int,
                data@,
            ),
            r is Err ==> final(self).view() == old(self).view(),
            offset > old(self).view().len() ==> r is Err,
            old(self).reliable() && offset <= old(self).view().len() ==> r is Ok,
    ;

    /// Delete the byte range `[start, end)`.
    fn delete(&mut self, start: usize, end: usize) -> (r: Result<(), StoreError>)
        ensures
            final(self).reliable() == old(self).reliable(),
            r is Ok ==> start <= end <= old(self).view().len() && final(self).view()
                == splice_delete(old(self).view(), start as int, end as int),
            r is Err ==> final(self).view() == old(self).view(),
            end > old(self).view().len() || start > end ==> r is Err,
            old(self).reliable() && start <= end && end <= old(self).view().len() ==> r is Ok,
    ;

    /// The number of bytes currently stored.
    fn len(&self) -> (r: usize)
        ensures
            r == self.view().len(),
    ;
}

/// An in-memory persistence backend: the content is a plain byte vector.
///
/// It never suffers I/O faults, so every in-range operation succeeds.
pub struct MemStore {
    bytes: Vec<u8>,
}

impl MemStore {
    /// An empty store.
    pub fn new() -> (s: MemStore)
        ensures
            s.view() == Seq::<u8>::empty(),
            s.reliable(),
    {
        MemStore { bytes: Vec::new() }
    }

    /// A store holding the given bytes.
    pub fn from_data(data: Vec<u8>) -> (s: MemStore)
        ensures
            s.view() == data@,
            s.reliable(),
    {
        MemStore { bytes: data }
    }
}

impl PersistenceLayer for MemStore {
    closed spec fn view(&self) -> Seq<u8> {
        self.bytes@
    }

    closed spec fn reliable(&self) -> bool {
        true
    }

    fn read(&self, offset: usize, len: usize) -> (r: Result<Vec<u8>, StoreError>) {
        if offset > self.bytes.len() || len > self.bytes.len() - offset {
            return Err(StoreError::OutOfRange);
        }
        let n = self.bytes.len();
        let mut out: Vec<u8> = Vec::new();
        let mut i: usize = 0;
        while i < len
            invariant
                i <= len,
                offset + len <= n == self.bytes@.len(),
                out@ =~= self.bytes@.subrange(offset as int, offset + i),
            decreases len - i,
        {
            out.push(self.bytes[offset + i]);
            i += 1;
        }
        assert(out@ =~= self.view().subrange(offset as int, offset + len));
        Ok(out)
    }

    fn insert(&mut self, offset: usize, data: &[u8]) -> (r: Result<(), StoreError>) {
        if offset > self.bytes.len() {
            return Err(StoreError::OutOfRange);
        }
        let mut out: Vec<u8> = Vec::new();
        let mut i: usize = 0;
        while i < offset
            invariant
                i <= offset <= old(self).bytes@.len(),
                self == old(self),
                out@ =~= old(self).bytes@.take(offset as int).take(i as int),
            decreases offset - i,
        {
            out.push(self.bytes[i]);
            i += 1;
        }
        let mut j: usize = 0;
        while j < data.len()
            invariant
                j <= data@.len(),
                offset <= old(self).bytes@.len(),
                self == old(self),
                out@ =~= old(self).bytes@.take(offset as int) + data@.take(j as int),
            decreases data@.len() - j,
        {
            out.push(data[j]);
            j += 1;
        }
        let mut k: usize = offset;
        while k < self.bytes.len()
            invariant
                offset <= k <= old(self).bytes@.len(),
                self == old(self),
                out@ =~= old(self).bytes@.take(offset as int) + data@ + old(
                    self,
                ).bytes@.subrange(offset as int, k as int),
            decreases old(self).bytes@.len() - k,
        {
            out.push(self.bytes[k]);
            k += 1;
        }
        assert(out@ =~= splice_insert(old(self).bytes@, offset as int, data@));
        self.bytes = out;
        Ok(())
    }

    fn delete(&mut self, start: usize, end: usize) -> (r: Result<(), StoreError>) {
        if start > end || end > self.bytes.len() {
            return Err(StoreError::OutOfRange);
        }
        let mut out: Vec<u8> = Vec::new();
        let mut i: usize = 0;
        while i < start
            invariant
                i <= start <= end <= old(self).bytes@.len(),
                self == old(self),
                out@ =~= old(self).bytes@.take(start as int).take(i as int),
            decreases start - i,
        {
            out.push(self.bytes[i]);
            i += 1;
        }
        let mut k: usize = end;
        while k < self.bytes.len()
            invariant
                end <= k <= old(self).bytes@.len(),
                start <= end,
                self == old(self),
                out@ =~= old(self).bytes@.take(start as int) + old(self).bytes@.subrange(
                    end as int,
                    k as int,
                ),
            decreases old(self).bytes@.len() - k,
        {
            out.push(self.bytes[k]);
            k += 1;
        }
        assert(out@ =~= splice_delete(old(self).bytes@, start as int, end as int));
        self.bytes = out;
        Ok(())
    }

    fn len(&self) -> (r: usize) {
        self.bytes.len()
    }
}

} // verus!
