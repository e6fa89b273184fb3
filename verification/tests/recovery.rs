use kvs::{is_openable, load_segment, Command, CommandPosition, Index, KvStore, SegmentLog};

fn put(key: &str, value: &str) -> Command {
    Command::Put { key: key.to_string(), value: value.to_string() }
}

fn remove(key: &str) -> Command {
    Command::Remove { key: key.to_string() }
}

fn at(segment: u64, offset: u64, length: u64) -> CommandPosition {
    CommandPosition { segment, offset, length }
}

fn segment(id: u64, entries: Vec<(Command, u64)>) -> SegmentLog {
    let mut log = SegmentLog::new(id);
    for (command, end) in entries {
        assert!(log.push(command, end));
    }
    log
}

#[test]
fn segment_log_tracks_its_size() {
    let mut log = SegmentLog::new(3);
    assert_eq!((log.id(), log.len(), log.size()), (3, 0, 0));
    assert!(log.push(put("a", "1"), 10));
    assert!(log.push(remove("a"), 25));
    assert_eq!((log.id(), log.len(), log.size()), (3, 2, 25));
}

#[test]
fn segment_log_refuses_an_offset_that_goes_back() {
    let mut log = SegmentLog::new(1);
    assert!(log.push(put("a", "1"), 10));
    assert!(!log.push(put("b", "2"), 9));
    assert_eq!((log.len(), log.size()), (1, 10));
    assert!(log.push(put("b", "2"), 10));
    assert_eq!((log.len(), log.size()), (2, 10));
}

#[test]
fn load_segment_replays_in_order() {
    let log = segment(
        1,
        vec![(put("a", "1"), 10), (put("b", "2"), 25), (remove("a"), 40), (put("b", "3"), 50)],
    );
    let mut index = Index::new();
    let mut readers = Vec::new();
    let stale = load_segment(&log, &mut index, &mut readers);
    assert_eq!(stale, 25);
    assert_eq!(index.get("a"), None);
    assert_eq!(index.get("b"), Some(at(1, 40, 10)));
    assert_eq!(readers, vec![1]);
}

#[test]
fn load_segment_counts_what_earlier_segments_left() {
    let first = segment(1, vec![(put("a", "1"), 10), (put("b", "2"), 30)]);
    let second = segment(2, vec![(put("a", "x"), 7), (remove("b"), 19), (remove("c"), 30)]);
    let mut index = Index::new();
    let mut readers = Vec::new();
    assert_eq!(load_segment(&first, &mut index, &mut readers), 0);
    assert_eq!(load_segment(&second, &mut index, &mut readers), 30);
    assert_eq!(index.get("a"), Some(at(2, 0, 7)));
    assert_eq!(index.get("b"), None);
    assert_eq!(index.len(), 1);
    assert_eq!(readers, vec![1, 2]);
}

#[test]
fn load_segment_of_an_empty_segment() {
    let mut index = Index::new();
    let mut readers = vec![4];
    assert_eq!(load_segment(&SegmentLog::new(6), &mut index, &mut readers), 0);
    assert_eq!(index.len(), 0);
    assert_eq!(readers, vec![4, 6]);
}

#[test]
fn open_replays_every_segment_in_ascending_order() {
    let logs = vec![
        segment(1, vec![(put("a", "1"), 10), (put("b", "2"), 25)]),
        segment(4, vec![(remove("a"), 8), (put("c", "3"), 20)]),
        segment(5, vec![(put("b", "4"), 11)]),
    ];
    assert!(is_openable(&logs));
    let store = KvStore::open(&logs);
    assert_eq!(store.get("a"), None);
    assert_eq!(store.get("b"), Some(at(5, 0, 11)));
    assert_eq!(store.get("c"), Some(at(4, 8, 12)));
    assert_eq!(store.uncompacted(), 25);
    assert_eq!(store.stored(), 56);
    assert_eq!(store.segment(), 6);
    assert_eq!(store.offset(), 0);
    assert_eq!(store.readers(), &vec![1, 4, 5, 6]);
}

#[test]
fn open_then_write_goes_to_the_new_segment() {
    let logs = vec![segment(2, vec![(put("a", "1"), 10)])];
    let mut store = KvStore::open(&logs);
    assert!(store.set("a".to_string(), "2".to_string(), 9).is_none());
    assert_eq!(store.get("a"), Some(at(3, 0, 9)));
    assert_eq!(store.uncompacted(), 10);
    assert_eq!(store.stored(), 19);
}

#[test]
fn open_does_not_compact_by_itself() {
    let big = 2 * 1024 * 1024;
    let logs = vec![segment(1, vec![(put("a", "1"), big), (put("a", "2"), big + 5)])];
    let mut store = KvStore::open(&logs);
    assert_eq!(store.uncompacted(), big);
    assert_eq!(store.segment(), 2);
    let plan = store.set("b".to_string(), "3".to_string(), 6).unwrap();
    assert_eq!(plan.stale, vec![1, 2]);
    assert_eq!((plan.target, plan.active), (3, 4));
    assert_eq!(plan.copies, vec![at(1, big, 5), at(2, 0, 6)]);
    assert_eq!(store.uncompacted(), 0);
}

#[test]
fn is_openable_wants_ascending_ids() {
    assert!(is_openable(&Vec::new()));
    assert!(is_openable(&vec![SegmentLog::new(1), SegmentLog::new(2)]));
    assert!(!is_openable(&vec![SegmentLog::new(2), SegmentLog::new(1)]));
    assert!(!is_openable(&vec![SegmentLog::new(5), SegmentLog::new(5)]));
}

#[test]
fn is_openable_wants_sizes_and_ids_that_fit() {
    assert!(!is_openable(&vec![SegmentLog::new(u64::MAX)]));
    assert!(is_openable(&vec![SegmentLog::new(u64::MAX - 1)]));
    let half = segment(1, vec![(put("a", "1"), u64::MAX / 2 + 1)]);
    let other = segment(2, vec![(put("b", "2"), u64::MAX / 2 + 1)]);
    assert!(!is_openable(&vec![half, other]));
    let half = segment(1, vec![(put("a", "1"), u64::MAX / 2 + 1)]);
    let rest = segment(2, vec![(put("b", "2"), u64::MAX / 2)]);
    assert!(is_openable(&vec![half, rest]));
}
