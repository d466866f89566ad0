use telemetry::history::CircularList;

#[test]
fn bounded_history_keeps_last_k() {
    // capacity 3, insert 4: the first inserted entry is gone
    let mut list: CircularList<u32> = CircularList::new(3);
    list.put(1);
    list.put(2);
    list.put(3);
    list.put(4);
    let mut all = list.get_all();
    assert_eq!(all.len(), 3);
    all.sort();
    assert_eq!(all, vec![2, 3, 4]);
}

#[test]
fn partial_fill_snapshot() {
    let mut list: CircularList<u32> = CircularList::new(3);
    list.put(7);
    list.put(8);
    let all = list.get_all();
    assert_eq!(all, vec![7, 8]);
}

#[test]
fn empty_snapshot() {
    let list: CircularList<u32> = CircularList::new(5);
    assert_eq!(list.get_all().len(), 0);
    assert!(list.get().is_none());
}

#[test]
fn len_is_capacity() {
    let list: CircularList<u32> = CircularList::new(4);
    assert_eq!(list.len(), 4);
}

#[test]
fn cursor_wraps_and_overwrites() {
    let mut list: CircularList<u32> = CircularList::new(2);
    list.put(1);
    list.put(2);
    list.put(3);
    // slot order after wrap: [3, 2]
    assert_eq!(list.get_all(), vec![3, 2]);
}

#[test]
fn get_reads_the_cursor_slot() {
    let mut list: CircularList<u32> = CircularList::new(2);
    list.put(1);
    list.put(2);
    // cursor wrapped back to slot 0, which holds the oldest entry
    assert_eq!(list.get().copied(), Some(1));
    list.next();
    assert_eq!(list.get().copied(), Some(2));
}
