//! Versioned edit records and the position-replay model.
//!
//! Every successful mutation of the buffer appends one [`Edit`] to the edit
//! log. A cursor created at an older version replays the edits recorded since
//! that version to translate its stale position into a current one; the spec
//! functions here define that translation, and the lemmas state the laws the
//! cursor algorithm obeys.

use vstd::prelude::*;

verus! {

/// The kind of one recorded mutation: an insertion or a deletion of `len`
/// bytes at byte offset `offset`.
#[derive(Clone, Copy, PartialEq, Eq, Structural, Debug)]
pub enum EditKind {
    Insert { offset: usize, len: usize },
    Delete { offset: usize, len: usize },
}

/// One immutable record of a mutation, stamped with the version the version
/// clock assigned to it.
#[derive(Clone, Copy, PartialEq, Eq, Structural, Debug)]
pub struct Edit {
    pub version: u64,
    pub kind: EditKind,
}

impl Edit {
    /// Build an insertion record.
    pub fn insert(version: u64, offset: usize, len: usize) -> (e: Edit)
        ensures
            e == (Edit { version, kind: EditKind::Insert { offset, len } }),
    {
        Edit { version, kind: EditKind::Insert { offset, len } }
    }

    /// Build a deletion record.
    pub fn delete(version: u64, offset: usize, len: usize) -> (e: Edit)
        ensures
            e == (Edit { version, kind: EditKind::Delete { offset, len } }),
    {
        Edit { version, kind: EditKind::Delete { offset, len } }
    }
}

/// How one edit moves a cursor position.
///
/// An edit at an offset at or before the position shifts the position: an
/// insertion pushes it forward by the inserted length (saturating at the
/// machine limit), a deletion pulls it back by the deleted length, saturating
/// at zero. An edit strictly after the position leaves it alone. The `<=`
/// tie-break is deliberate: an edit exactly at the cursor's position counts
/// as occurring before the cursor.
pub open spec fn apply_edit(pos: int, e: Edit) -> int {
    match e.kind {
        EditKind::Insert { offset, len } => if offset <= pos {
            if pos + len <= usize::MAX {
                pos + len
            } else {
                usize::MAX as int
            }
        } else {
            pos
        },
        EditKind::Delete { offset, len } => if offset <= pos {
            if pos - len >= 0 {
                pos - len
            } else {
                0
            }
        } else {
            pos
        },
    }
}

/// Replay a sequence of edits, oldest first, against a position.
pub open spec fn replay(pos: int, edits: Seq<Edit>) -> int
    decreases edits.len(),
{
    if edits.len() == 0 {
        pos
    } else {
        replay(apply_edit(pos, edits[0]), edits.skip(1))
    }
}

/// Drop the leading run of edits whose version lies below `bound`.
///
/// On a log sorted by version this keeps exactly the edits with version at or
/// above `bound`.
pub open spec fn drop_below(log: Seq<Edit>, bound: int) -> Seq<Edit>
    decreases log.len(),
{
    if log.len() == 0 {
        log
    } else if log[0].version < bound {
        drop_below(log.skip(1), bound)
    } else {
        log
    }
}

/// The edits a cursor last reconciled at `version` still has to replay: those
/// recorded strictly after `version`.
pub open spec fn edits_since(log: Seq<Edit>, version: u64) -> Seq<Edit> {
    drop_below(log, version + 1)
}

/// A log whose versions strictly increase from head to tail.
pub open spec fn version_sorted(log: Seq<Edit>) -> bool {
    forall|i: int, j: int|
        0 <= i < j < log.len() ==> (#[trigger] log[i]).version < (#[trigger] log[j]).version
}

/// Replaying edits keeps a position within the machine range; in particular a
/// deletion can never drive it below zero.
pub proof fn lemma_replay_bounds(pos: int, edits: Seq<Edit>)
    requires
        0 <= pos <= usize::MAX,
    ensures
        0 <= replay(pos, edits) <= usize::MAX,
    decreases edits.len(),
{
    if edits.len() > 0 {
        lemma_replay_bounds(apply_edit(pos, edits[0]), edits.skip(1));
    }
}

/// Replaying up to a final edit is replaying the prefix, then applying that
/// edit to the result.
pub proof fn lemma_replay_push(pos: int, edits: Seq<Edit>, e: Edit)
    ensures
        replay(pos, edits.push(e)) == apply_edit(replay(pos, edits), e),
    decreases edits.len(),
{
    if edits.len() == 0 {
        assert(edits.push(e)[0] == e);
        assert(edits.push(e).skip(1) =~= Seq::<Edit>::empty());
        assert(replay(apply_edit(pos, e), Seq::<Edit>::empty()) == apply_edit(pos, e));
        assert(replay(pos, edits.push(e)) == replay(apply_edit(pos, e), edits.push(e).skip(1)));
    } else {
        assert(edits.push(e)[0] == edits[0]);
        assert(edits.push(e).skip(1) =~= edits.skip(1).push(e));
        lemma_replay_push(apply_edit(pos, edits[0]), edits.skip(1), e);
    }
}

/// Law: an insertion at or before a cursor's resolved position advances that
/// position by exactly the inserted length.
pub proof fn lemma_insert_before_cursor(
    pos: int,
    edits: Seq<Edit>,
    version: u64,
    offset: usize,
    len: usize,
)
    requires
        0 <= pos <= usize::MAX,
        offset <= replay(pos, edits),
        replay(pos, edits) + len <= usize::MAX,
    ensures
        replay(pos, edits.push(Edit { version, kind: EditKind::Insert { offset, len } }))
            == replay(pos, edits) + len,
{
    lemma_replay_push(pos, edits, Edit { version, kind: EditKind::Insert { offset, len } });
}

/// Law: an edit strictly after a cursor's resolved position leaves that
/// position unchanged.
pub proof fn lemma_edit_after_cursor(pos: int, edits: Seq<Edit>, e: Edit)
    requires
        0 <= pos <= usize::MAX,
        match e.kind {
            EditKind::Insert { offset, len } => offset > replay(pos, edits),
            EditKind::Delete { offset, len } => offset > replay(pos, edits),
        },
    ensures
        replay(pos, edits.push(e)) == replay(pos, edits),
{
    lemma_replay_push(pos, edits, e);
}

/// Law: a deletion that would drive a cursor's resolved position negative
/// saturates it at zero instead.
pub proof fn lemma_delete_clamps_at_zero(
    pos: int,
    edits: Seq<Edit>,
    version: u64,
    offset: usize,
    len: usize,
)
    requires
        0 <= pos <= usize::MAX,
        offset <= replay(pos, edits),
        len >= replay(pos, edits),
    ensures
        replay(pos, edits.push(Edit { version, kind: EditKind::Delete { offset, len } })) == 0,
{
    lemma_replay_push(pos, edits, Edit { version, kind: EditKind::Delete { offset, len } });
}

/// On a sorted log, dropping versions below a bound yields the suffix that
/// starts at the first entry at or above the bound.
pub proof fn lemma_drop_below_is_suffix(log: Seq<Edit>, bound: int, k: int)
    requires
        version_sorted(log),
        0 <= k <= log.len(),
        forall|i: int| 0 <= i < k ==> (#[trigger] log[i]).version < bound,
        k < log.len() ==> log[k].version >= bound,
    ensures
        drop_below(log, bound) == log.skip(k),
    decreases k,
{
    if k == 0 {
        assert(log.skip(0) =~= log);
    } else {
        assert(log[0].version < bound);
        lemma_drop_below_is_suffix(log.skip(1), bound, k - 1);
        assert(log.skip(1).skip(k - 1) =~= log.skip(k));
    }
}

/// Dropping below a lower bound first makes no difference to dropping
/// below a higher one.
pub proof fn lemma_drop_below_twice(log: Seq<Edit>, a: int, b: int)
    requires
        a <= b,
    ensures
        drop_below(drop_below(log, a), b) == drop_below(log, b),
    decreases log.len(),
{
    if log.len() > 0 && log[0].version < a {
        lemma_drop_below_twice(log.skip(1), a, b);
    }
}

/// Law (pruning safety): dropping versions below a bound removes no edit
/// whose version is at or above the bound; every such edit survives.
pub proof fn lemma_drop_below_keeps(log: Seq<Edit>, bound: int, i: int)
    requires
        0 <= i < log.len(),
        log[i].version >= bound,
    ensures
        drop_below(log, bound).contains(log[i]),
    decreases log.len(),
{
    if log.len() > 0 && log[0].version < bound {
        lemma_drop_below_keeps(log.skip(1), bound, i - 1);
    } else {
        assert(drop_below(log, bound) == log);
    }
}

/// Law (pruning liveness): on a sorted log, dropping versions below a bound
/// leaves only edits whose version is at or above the bound.
pub proof fn lemma_drop_below_complete(log: Seq<Edit>, bound: int)
    requires
        version_sorted(log),
    ensures
        forall|j: int|
            0 <= j < drop_below(log, bound).len()
                ==> (#[trigger] drop_below(log, bound)[j]).version >= bound,
    decreases log.len(),
{
    if log.len() > 0 && log[0].version < bound {
        lemma_drop_below_complete(log.skip(1), bound);
    }
}

} // verus!
