use fresh_buffer::persistence::MemStore;
use fresh_buffer::VirtualBuffer;

fn buffer_from(bytes: &[u8]) -> VirtualBuffer<MemStore> {
    VirtualBuffer::new(MemStore::from_data(bytes.to_vec()))
}

#[test]
fn test_virtual_buffer_basic() {
    let mut vbuf = buffer_from(b"hello world");

    // Test read
    assert_eq!(vbuf.read(0, 5).unwrap(), b"hello");
    assert_eq!(vbuf.len(), 11);
}

#[test]
fn test_virtual_buffer_insert() {
    let mut vbuf = buffer_from(b"hello world");

    // Test insert
    vbuf.insert(5, b" beautiful").unwrap();
    let len = vbuf.len();
    let data = vbuf.read(0, len).unwrap();
    assert_eq!(data, b"hello beautiful world");
}

#[test]
fn test_virtual_buffer_delete() {
    let mut vbuf = buffer_from(b"hello world");

    // Test delete
    vbuf.delete(5..11).unwrap();
    let len = vbuf.len();
    let data = vbuf.read(0, len).unwrap();
    assert_eq!(data, b"hello");
}

#[test]
fn test_byte_iterator() {
    let mut vbuf = buffer_from(b"hello");

    let mut iter = vbuf.iter_at(0);
    assert_eq!(iter.next(&mut vbuf), Some(b'h'));
    assert_eq!(iter.next(&mut vbuf), Some(b'e'));
    assert_eq!(iter.next(&mut vbuf), Some(b'l'));
    assert_eq!(iter.next(&mut vbuf), Some(b'l'));
    assert_eq!(iter.next(&mut vbuf), Some(b'o'));
    assert_eq!(iter.next(&mut vbuf), None);
}

#[test]
fn test_byte_iterator_bidirectional() {
    let mut vbuf = buffer_from(b"hello");

    let mut iter = vbuf.iter_at(2);
    assert_eq!(iter.next(&mut vbuf), Some(b'l'));
    assert_eq!(iter.prev(&mut vbuf), Some(b'l'));
    assert_eq!(iter.prev(&mut vbuf), Some(b'e'));
    assert_eq!(iter.prev(&mut vbuf), Some(b'h'));
    assert_eq!(iter.prev(&mut vbuf), None);
}

#[test]
fn test_iterator_edit_adjustment() {
    let mut vbuf = buffer_from(b"hello world");

    // Create iterator at position 6 (start of "world")
    let mut iter = vbuf.iter_at(6);

    // Insert before iterator position
    vbuf.insert(5, b" beautiful").unwrap();

    // Iterator should adjust its position
    assert_eq!(iter.next(&mut vbuf), Some(b'w'));
}

fn oracle_insert(oracle: &mut Vec<u8>, vbuf: &mut VirtualBuffer<MemStore>, offset: usize, data: &[u8]) {
    oracle.splice(offset..offset, data.iter().cloned());
    vbuf.insert(offset, data).unwrap();
    let len = vbuf.len();
    assert_eq!(len, oracle.len());
    assert_eq!(&vbuf.read(0, len).unwrap(), oracle);
}

fn oracle_delete(oracle: &mut Vec<u8>, vbuf: &mut VirtualBuffer<MemStore>, start: usize, end: usize) {
    oracle.drain(start..end);
    vbuf.delete(start..end).unwrap();
    let len = vbuf.len();
    assert_eq!(len, oracle.len());
    assert_eq!(&vbuf.read(0, len).unwrap(), oracle);
}

#[test]
fn round_trip_against_oracle() {
    let mut oracle: Vec<u8> = b"the quick brown fox".to_vec();
    let mut vbuf = buffer_from(&oracle.clone());

    oracle_insert(&mut oracle, &mut vbuf, 4, b"very ");
    oracle_delete(&mut oracle, &mut vbuf, 0, 4);
    oracle_insert(&mut oracle, &mut vbuf, 0, b"a ");
    oracle_delete(&mut oracle, &mut vbuf, 7, 13);
    oracle_insert(&mut oracle, &mut vbuf, 2, b"");
    oracle_delete(&mut oracle, &mut vbuf, 3, 3);
    oracle_insert(&mut oracle, &mut vbuf, 2, b"so ");
}

#[test]
fn insert_before_cursor_shifts_position() {
    let mut vbuf = buffer_from(b"hello world");
    let mut iter = vbuf.iter_at(4);
    vbuf.insert(2, b"XY").unwrap();
    // The cursor's resolved position moves from 4 to 6.
    assert_eq!(iter.next(&mut vbuf), Some(b'o'));
    assert_eq!(iter.position(), 7);
}

#[test]
fn insert_at_cursor_position_shifts_cursor() {
    // An insertion exactly at the cursor's position counts as before it.
    let mut vbuf = buffer_from(b"hello world");
    let mut iter = vbuf.iter_at(6);
    vbuf.insert(6, b"XY").unwrap();
    assert_eq!(iter.next(&mut vbuf), Some(b'w'));
    assert_eq!(iter.position(), 9);
}

#[test]
fn insert_after_cursor_is_noop_for_cursor() {
    let mut vbuf = buffer_from(b"hello world");
    let mut iter = vbuf.iter_at(2);
    vbuf.insert(7, b"XY").unwrap();
    // The cursor's resolved position stays 2.
    assert_eq!(iter.next(&mut vbuf), Some(b'l'));
    assert_eq!(iter.position(), 3);
}

#[test]
fn delete_clamps_cursor_at_zero() {
    let mut vbuf = buffer_from(b"hello world");
    let mut iter = vbuf.iter_at(3);
    // Deleting five bytes starting before the cursor would drive its
    // position to -2; it saturates at 0 instead.
    vbuf.delete(0..5).unwrap();
    assert_eq!(iter.next(&mut vbuf), Some(b' '));
    assert_eq!(iter.position(), 1);
}

#[test]
fn seek_reconciles_then_moves() {
    let mut vbuf = buffer_from(b"hello world");
    let mut iter = vbuf.iter_at(0);
    iter.seek(&mut vbuf, 6);
    assert_eq!(iter.next(&mut vbuf), Some(b'w'));
}

#[test]
fn peek_does_not_advance_and_does_not_reconcile() {
    let mut vbuf = buffer_from(b"hello");
    let iter = vbuf.iter_at(0);
    assert_eq!(iter.peek(&mut vbuf), Some(b'h'));
    assert_eq!(iter.peek(&mut vbuf), Some(b'h'));
    assert_eq!(iter.position(), 0);

    // After a mutation, peek deliberately reads the current content at the
    // stale raw position; navigation would reconcile first.
    let mut vbuf2 = buffer_from(b"hello");
    let mut iter2 = vbuf2.iter_at(0);
    vbuf2.insert(0, b"XY").unwrap();
    assert_eq!(iter2.peek(&mut vbuf2), Some(b'X'));
    assert_eq!(iter2.next(&mut vbuf2), Some(b'h'));
}

#[test]
fn empty_insert_and_empty_delete_are_noops() {
    let mut vbuf = buffer_from(b"hello");
    assert_eq!(vbuf.current_version(), 0);
    vbuf.insert(2, b"").unwrap();
    assert_eq!(vbuf.current_version(), 0);
    vbuf.delete(3..3).unwrap();
    vbuf.delete(4..2).unwrap();
    assert_eq!(vbuf.current_version(), 0);
    assert_eq!(vbuf.read(0, 5).unwrap(), b"hello");
}

#[test]
fn out_of_range_operations_fail_and_change_nothing() {
    let mut vbuf = buffer_from(b"hello");
    assert!(vbuf.read(3, 10).is_err());
    assert!(vbuf.read(6, 0).is_err());
    assert!(vbuf.insert(6, b"x").is_err());
    assert!(vbuf.delete(2..9).is_err());
    assert_eq!(vbuf.current_version(), 0);
    assert_eq!(vbuf.len(), 5);
    assert_eq!(vbuf.read(0, 5).unwrap(), b"hello");
}

#[test]
fn version_ticks_once_per_successful_mutation() {
    let mut vbuf = buffer_from(b"hello");
    vbuf.insert(0, b"a").unwrap();
    assert_eq!(vbuf.current_version(), 1);
    vbuf.delete(0..1).unwrap();
    assert_eq!(vbuf.current_version(), 2);
    assert!(vbuf.insert(99, b"x").is_err());
    assert_eq!(vbuf.current_version(), 2);
}

#[test]
fn pruning_keeps_edits_a_live_cursor_needs() {
    let mut vbuf = buffer_from(b"hello world");
    let mut iter = vbuf.iter_at(6);
    vbuf.insert(0, b"a").unwrap();
    vbuf.insert(0, b"b").unwrap();
    vbuf.insert(0, b"c").unwrap();
    // The cursor is registered at version 0, so all three edits survive.
    assert_eq!(vbuf.edit_log_len(), 3);
    // And the cursor still resolves correctly through all of them.
    assert_eq!(iter.next(&mut vbuf), Some(b'w'));
}

#[test]
fn reconciling_advances_the_watermark() {
    let mut vbuf = buffer_from(b"hello world");
    let mut iter = vbuf.iter_at(0);
    vbuf.insert(0, b"a").unwrap();
    vbuf.insert(0, b"b").unwrap();
    vbuf.insert(0, b"c").unwrap();
    assert_eq!(vbuf.edit_log_len(), 3);
    // Navigation reconciles the cursor up to version 3 ...
    iter.seek(&mut vbuf, 0);
    // ... so the next mutation's prune step drops edits below version 3.
    vbuf.insert(0, b"d").unwrap();
    assert_eq!(vbuf.edit_log_len(), 2);
}

#[test]
fn closing_the_last_cursor_unblocks_pruning() {
    let mut vbuf = buffer_from(b"hello world");
    let early = vbuf.iter_at(0);
    vbuf.insert(0, b"a").unwrap();
    vbuf.insert(0, b"b").unwrap();
    assert_eq!(vbuf.edit_log_len(), 2);
    early.close(&mut vbuf);
    // A fresh cursor holds version 2, so the next prune keeps only edits
    // from the departed cursor's era onward that the new one still covers.
    let _late = vbuf.iter_at(0);
    vbuf.insert(0, b"c").unwrap();
    assert_eq!(vbuf.edit_log_len(), 2);
}

#[test]
fn without_cursors_history_is_retained() {
    let mut vbuf = buffer_from(b"hello world");
    vbuf.insert(0, b"a").unwrap();
    vbuf.insert(0, b"b").unwrap();
    vbuf.insert(0, b"c").unwrap();
    // No cursor is registered: pruning is skipped and edits accumulate
    // (kept for a potential undo mechanism).
    assert_eq!(vbuf.edit_log_len(), 3);
}

#[test]
fn two_cursors_sharing_a_version_prune_safely() {
    let mut vbuf = buffer_from(b"hello world");
    let mut a = vbuf.iter_at(6);
    let mut b = vbuf.iter_at(6);
    vbuf.insert(5, b" beautiful").unwrap();
    // Reconciling one cursor must not free the log entries its sibling at
    // the same version still needs.
    assert_eq!(a.next(&mut vbuf), Some(b'w'));
    assert_eq!(vbuf.edit_log_len(), 1);
    assert_eq!(b.next(&mut vbuf), Some(b'w'));
}

#[test]
fn is_empty_and_buffer_len() {
    let mut vbuf = buffer_from(b"");
    assert!(vbuf.is_empty());
    vbuf.insert(0, b"hi").unwrap();
    assert!(!vbuf.is_empty());
    let iter = vbuf.iter_at(0);
    assert_eq!(iter.buffer_len(&vbuf), 2);
}

#[test]
fn iterator_walks_to_end_after_delete() {
    let mut vbuf = buffer_from(b"hello world");
    vbuf.delete(5..11).unwrap();
    let mut iter = vbuf.iter_at(0);
    let mut collected = Vec::new();
    while let Some(b) = iter.next(&mut vbuf) {
        collected.push(b);
    }
    assert_eq!(collected, b"hello");
}
