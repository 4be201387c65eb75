use my_raft::log::{Entry, Log, NO_ENTRY};

fn entry(index: u64, term: u64, data: &[u8]) -> Entry {
    Entry { index, term, data: data.to_vec() }
}

#[test]
fn new_log_is_empty() {
    let log = Log::new();
    assert!(log.entries.is_empty());
    assert_eq!(log.first_index(), 1);
    assert_eq!(log.last_index(), 0);
    assert_eq!(log.committed, 0);
    assert_eq!(log.applied, 0);
}

#[test]
fn append_numbers_entries_from_one() {
    let mut log = Log::new();
    log.append(1, b"a".to_vec());
    log.append(1, b"b".to_vec());
    log.append(3, b"c".to_vec());
    assert_eq!(log.last_index(), 3);
    assert_eq!(log.entries[0], entry(1, 1, b"a"));
    assert_eq!(log.entries[2], entry(3, 3, b"c"));
}

#[test]
fn append_then_term_reads_back_the_term() {
    let mut log = Log::new();
    log.append(2, b"x".to_vec());
    log.append(5, b"y".to_vec());
    assert_eq!(log.term(log.last_index()), 5);
    assert_eq!(log.term(1), 2);
}

#[test]
fn term_outside_the_log_is_no_entry() {
    let mut log = Log::new();
    log.append(4, vec![]);
    assert_eq!(log.term(0), NO_ENTRY);
    assert_eq!(log.term(2), NO_ENTRY);
    assert_eq!(log.term(u64::MAX), NO_ENTRY);
}

#[test]
fn append_entries_empty_batch_changes_nothing() {
    let mut log = Log::new();
    log.append(1, b"a".to_vec());
    let before = log.clone_for_test();
    log.append_entries(&[]);
    assert_eq!(log, before);
}

trait CloneForTest {
    fn clone_for_test(&self) -> Log;
}

impl CloneForTest for Log {
    fn clone_for_test(&self) -> Log {
        Log { entries: self.entries.iter().map(|e| e.clone()).collect(), committed: self.committed, applied: self.applied }
    }
}

#[test]
fn append_entries_extends_the_log() {
    let mut log = Log::new();
    log.append(1, b"a".to_vec());
    log.append_entries(&[entry(2, 1, b"b"), entry(3, 2, b"c")]);
    assert_eq!(log.last_index(), 3);
    assert_eq!(log.entries[1], entry(2, 1, b"b"));
    assert_eq!(log.entries[2], entry(3, 2, b"c"));
}

#[test]
fn append_entries_replaces_a_conflicting_tail() {
    let mut log = Log::new();
    log.append(1, b"a".to_vec());
    log.append(1, b"b".to_vec());
    log.append(1, b"c".to_vec());
    log.append_entries(&[entry(2, 2, b"x")]);
    assert_eq!(log.last_index(), 2);
    assert_eq!(log.entries[0], entry(1, 1, b"a"));
    assert_eq!(log.entries[1], entry(2, 2, b"x"));
}

#[test]
fn append_entries_stops_at_a_gap() {
    let mut log = Log::new();
    log.append(1, b"a".to_vec());
    log.append_entries(&[entry(2, 1, b"b"), entry(4, 1, b"d"), entry(5, 1, b"e")]);
    assert_eq!(log.last_index(), 2);
    assert_eq!(log.entries[1], entry(2, 1, b"b"));
}

#[test]
fn append_entries_beyond_the_end_is_dropped() {
    let mut log = Log::new();
    log.append(1, b"a".to_vec());
    log.append_entries(&[entry(5, 1, b"e")]);
    assert_eq!(log.last_index(), 1);
}

#[test]
fn entries_from_returns_the_suffix() {
    let mut log = Log::new();
    log.append(1, b"a".to_vec());
    log.append(1, b"b".to_vec());
    log.append(2, b"c".to_vec());
    assert_eq!(log.entries_from(2), &[entry(2, 1, b"b"), entry(3, 2, b"c")][..]);
    assert_eq!(log.entries_from(1).len(), 3);
    assert!(log.entries_from(4).is_empty());
    assert!(log.entries_from(5).is_empty());
}

#[test]
fn apply_committed_catches_up_with_the_commit_index() {
    let mut log = Log::new();
    log.append(1, b"a".to_vec());
    log.append(1, b"b".to_vec());
    log.committed = 2;
    log.apply_committed();
    assert_eq!(log.applied, 2);
    log.apply_committed();
    assert_eq!(log.applied, 2);
}

#[test]
fn apply_committed_never_moves_applied_back() {
    let mut log = Log::new();
    log.append(1, b"a".to_vec());
    log.applied = 1;
    log.committed = 0;
    log.apply_committed();
    assert_eq!(log.applied, 1);
}

#[test]
fn entry_clone_is_equal() {
    let e = entry(7, 3, b"payload");
    assert_eq!(e.clone(), e);
}

#[test]
fn append_entries_keeps_agreeing_entries() {
    let mut log = Log::new();
    log.append_entries(&[entry(1, 1, b"a"), entry(2, 1, b"b"), entry(3, 1, b"c")]);
    log.append_entries(&[entry(1, 1, b"a")]);
    assert_eq!(log.last_index(), 3);
    assert_eq!(log.entries[2], entry(3, 1, b"c"));
}

#[test]
fn append_entries_cuts_only_from_the_first_conflict() {
    let mut log = Log::new();
    log.append_entries(&[entry(1, 1, b"a"), entry(2, 1, b"b"), entry(3, 1, b"c"), entry(4, 1, b"d")]);
    log.append_entries(&[entry(2, 1, b"b"), entry(3, 2, b"x")]);
    assert_eq!(log.last_index(), 3);
    assert_eq!(log.entries[1], entry(2, 1, b"b"));
    assert_eq!(log.entries[2], entry(3, 2, b"x"));
}

#[test]
fn applied_since_lists_the_newly_applied_entries() {
    let mut log = Log::new();
    log.append(1, b"a".to_vec());
    log.append(1, b"b".to_vec());
    log.append(2, b"c".to_vec());
    log.applied = 1;
    log.committed = 3;
    let before = log.applied;
    log.apply_committed();
    assert_eq!(log.applied_since(before), vec![entry(2, 1, b"b"), entry(3, 2, b"c")]);
    assert!(log.applied_since(3).is_empty());
    assert!(log.applied_since(7).is_empty());
}

#[test]
fn applied_since_stops_at_the_last_entry() {
    let mut log = Log::new();
    log.append(1, b"a".to_vec());
    log.applied = 4;
    assert_eq!(log.applied_since(0), vec![entry(1, 1, b"a")]);
}
