use std::collections::BTreeMap;

use kvs::{
    has_reader, is_openable, read_value, Command, CommandPosition, CompactionPlan, KvStore,
    KvsError, SegmentLog, COMPACTION_THRESHOLD,
};
use serde_json::{Deserializer, Value};

/// The segment files of a store, held in memory.
struct Disk {
    segments: BTreeMap<u64, Vec<u8>>,
}

fn encode(command: &Command) -> Vec<u8> {
    let mut fields = serde_json::Map::new();
    let tag = match command {
        Command::Put { key, value } => {
            fields.insert("key".to_string(), Value::String(key.clone()));
            fields.insert("value".to_string(), Value::String(value.clone()));
            "Set"
        }
        Command::Remove { key } => {
            fields.insert("key".to_string(), Value::String(key.clone()));
            "Remove"
        }
    };
    let mut record = serde_json::Map::new();
    record.insert(tag.to_string(), Value::Object(fields));
    serde_json::to_vec(&Value::Object(record)).unwrap()
}

fn command_of(value: &Value) -> Command {
    let record = value.as_object().unwrap();
    let (tag, fields) = record.iter().next().unwrap();
    let key = fields["key"].as_str().unwrap().to_string();
    if tag == "Set" {
        Command::Put { key, value: fields["value"].as_str().unwrap().to_string() }
    } else {
        Command::Remove { key }
    }
}

impl Disk {
    fn new() -> Disk {
        Disk { segments: BTreeMap::new() }
    }

    fn scan(&self) -> Vec<SegmentLog> {
        let mut logs = Vec::new();
        for (id, bytes) in &self.segments {
            let mut log = SegmentLog::new(*id);
            let mut stream = Deserializer::from_slice(bytes).into_iter::<Value>();
            while let Some(item) = stream.next() {
                let command = command_of(&item.unwrap());
                assert!(log.push(command, stream.byte_offset() as u64));
            }
            logs.push(log);
        }
        logs
    }

    fn open(&mut self) -> KvStore {
        let logs = self.scan();
        assert!(is_openable(&logs));
        let store = KvStore::open(&logs);
        self.segments.insert(store.segment(), Vec::new());
        store
    }

    fn run(&mut self, plan: &CompactionPlan) {
        let mut target = Vec::new();
        for copy in &plan.copies {
            let source = &self.segments[&copy.segment];
            let from = copy.offset as usize;
            target.extend_from_slice(&source[from..from + copy.length as usize]);
        }
        self.segments.insert(plan.target, target);
        self.segments.insert(plan.active, Vec::new());
        for id in &plan.stale {
            self.segments.remove(id);
        }
    }

    fn set(&mut self, store: &mut KvStore, key: &str, value: &str) {
        let bytes = encode(&Command::Put { key: key.to_string(), value: value.to_string() });
        let active = store.segment();
        let plan = store.set(key.to_string(), value.to_string(), bytes.len() as u64);
        self.segments.get_mut(&active).unwrap().extend_from_slice(&bytes);
        if let Some(plan) = plan {
            self.run(&plan);
        }
    }

    fn remove(&mut self, store: &mut KvStore, key: &str) -> Result<(), KvsError> {
        let bytes = encode(&Command::Remove { key: key.to_string() });
        let active = store.segment();
        let plan = store.remove(key.to_string(), bytes.len() as u64)?;
        self.segments.get_mut(&active).unwrap().extend_from_slice(&bytes);
        if let Some(plan) = plan {
            self.run(&plan);
        }
        Ok(())
    }

    fn get(&self, store: &KvStore, key: &str) -> Option<String> {
        let position = store.get(key)?;
        let bytes = &self.segments[&position.segment][position.offset as usize..];
        let mut stream = Deserializer::from_slice(bytes).into_iter::<Value>();
        let decoded = stream.next().map(|item| item.map(|value| command_of(&value)));
        assert_eq!(stream.byte_offset() as u64, position.length);
        read_value(decoded).unwrap()
    }

    fn total(&self) -> u64 {
        self.segments.values().map(|bytes| bytes.len() as u64).sum()
    }
}

fn text(value: &str) -> Option<String> {
    Some(value.to_string())
}

fn at(segment: u64, offset: u64, length: u64) -> CommandPosition {
    CommandPosition { segment, offset, length }
}

#[test]
fn end_to_end_scenario() {
    let mut disk = Disk::new();
    let mut store = disk.open();
    disk.set(&mut store, "a", "1");
    disk.set(&mut store, "b", "2");
    assert_eq!(disk.get(&store, "a"), text("1"));
    disk.remove(&mut store, "a").unwrap();
    assert_eq!(disk.get(&store, "a"), None);
    assert!(matches!(disk.remove(&mut store, "a"), Err(KvsError::KeyNotFound)));
    let reopened = disk.open();
    assert_eq!(disk.get(&reopened, "b"), text("2"));
    assert_eq!(disk.get(&reopened, "a"), None);
}

#[test]
fn open_on_nothing_starts_segment_one() {
    let store = KvStore::open(&Vec::new());
    assert_eq!(store.segment(), 1);
    assert_eq!(store.offset(), 0);
    assert_eq!(store.uncompacted(), 0);
    assert_eq!(store.stored(), 0);
    assert_eq!(store.readers(), &vec![1]);
    assert_eq!(store.get("a"), None);
}

#[test]
fn set_records_the_position_of_the_command() {
    let mut store = KvStore::open(&Vec::new());
    assert!(store.set("a".to_string(), "1".to_string(), 30).is_none());
    assert!(store.set("b".to_string(), "2".to_string(), 32).is_none());
    assert_eq!(store.get("a"), Some(at(1, 0, 30)));
    assert_eq!(store.get("b"), Some(at(1, 30, 32)));
    assert_eq!(store.offset(), 62);
    assert_eq!(store.stored(), 62);
    assert_eq!(store.uncompacted(), 0);
    assert_eq!(store.segment(), 1);
}

#[test]
fn get_returns_the_most_recent_set() {
    let mut disk = Disk::new();
    let mut store = disk.open();
    disk.set(&mut store, "k", "first");
    disk.set(&mut store, "other", "x");
    disk.set(&mut store, "k", "second");
    disk.set(&mut store, "k", "third");
    assert_eq!(disk.get(&store, "k"), text("third"));
    assert_eq!(disk.get(&store, "other"), text("x"));
    disk.remove(&mut store, "k").unwrap();
    assert_eq!(disk.get(&store, "k"), None);
    disk.set(&mut store, "k", "again");
    assert_eq!(disk.get(&store, "k"), text("again"));
    assert_eq!(disk.get(&store, "never"), None);
}

#[test]
fn get_handles_keys_and_values_that_need_escaping() {
    let mut disk = Disk::new();
    let mut store = disk.open();
    disk.set(&mut store, "quote\"key", "line\nbreak \\ and \u{e9}\u{4e2d}");
    disk.set(&mut store, "", "empty key");
    disk.set(&mut store, "empty value", "");
    assert_eq!(disk.get(&store, "quote\"key"), text("line\nbreak \\ and \u{e9}\u{4e2d}"));
    assert_eq!(disk.get(&store, ""), text("empty key"));
    assert_eq!(disk.get(&store, "empty value"), text(""));
    let reopened = disk.open();
    assert_eq!(disk.get(&reopened, "quote\"key"), text("line\nbreak \\ and \u{e9}\u{4e2d}"));
}

#[test]
fn reopening_gives_the_same_answers() {
    let mut disk = Disk::new();
    let mut store = disk.open();
    for i in 0..20 {
        disk.set(&mut store, &format!("key{}", i % 7), &format!("value{}", i));
    }
    disk.remove(&mut store, "key3").unwrap();
    disk.remove(&mut store, "key5").unwrap();
    disk.set(&mut store, "key5", "back");
    let reopened = disk.open();
    for i in 0..8 {
        let key = format!("key{}", i);
        assert_eq!(disk.get(&reopened, &key), disk.get(&store, &key));
        assert_eq!(reopened.get(&key), store.get(&key));
    }
    assert_eq!(reopened.uncompacted(), store.uncompacted());
    assert_eq!(reopened.stored(), store.stored());
    assert_eq!(reopened.segment(), store.segment() + 1);
    assert_eq!(reopened.offset(), 0);
    assert_eq!(disk.get(&reopened, "key5"), text("back"));
    assert_eq!(disk.get(&reopened, "key3"), None);
}

#[test]
fn reopening_twice_on_an_unused_directory() {
    let mut disk = Disk::new();
    let first = disk.open();
    assert_eq!(first.segment(), 1);
    let second = disk.open();
    assert_eq!(second.segment(), 2);
    assert_eq!(second.readers(), &vec![1, 2]);
    assert_eq!(second.uncompacted(), 0);
}

#[test]
fn remove_of_a_missing_key_changes_nothing() {
    let mut store = KvStore::open(&Vec::new());
    store.set("a".to_string(), "1".to_string(), 30);
    let outcome = store.remove("b".to_string(), 20);
    assert!(matches!(outcome, Err(KvsError::KeyNotFound)));
    assert_eq!(store.offset(), 30);
    assert_eq!(store.stored(), 30);
    assert_eq!(store.uncompacted(), 0);
    assert_eq!(store.segment(), 1);
    assert_eq!(store.get("a"), Some(at(1, 0, 30)));
    assert!(matches!(store.remove("a".to_string(), 20), Ok(None)));
    assert!(matches!(store.remove("a".to_string(), 20), Err(KvsError::KeyNotFound)));
    assert_eq!(store.offset(), 50);
    assert_eq!(store.uncompacted(), 30);
}

#[test]
fn remove_of_a_missing_key_writes_nothing() {
    let mut disk = Disk::new();
    let mut store = disk.open();
    disk.set(&mut store, "a", "1");
    let before = disk.total();
    assert!(matches!(disk.remove(&mut store, "zz"), Err(KvsError::KeyNotFound)));
    assert_eq!(disk.total(), before);
    assert_eq!(disk.get(&store, "a"), text("1"));
}

#[test]
fn duplicate_set_reads_as_one_and_counts_stale_bytes() {
    let mut disk = Disk::new();
    let mut once = disk.open();
    disk.set(&mut once, "k", "v");
    let single = disk.get(&once, "k");
    let length = once.offset();

    let mut other = Disk::new();
    let mut twice = other.open();
    other.set(&mut twice, "k", "v");
    assert_eq!(twice.uncompacted(), 0);
    other.set(&mut twice, "k", "v");
    assert_eq!(other.get(&twice, "k"), single);
    assert_eq!(twice.uncompacted(), length);
    assert_eq!(twice.stored(), 2 * length);
    assert_eq!(twice.get("k"), Some(at(1, length, length)));
}

#[test]
fn stale_bytes_count_the_displaced_set_only() {
    let mut store = KvStore::open(&Vec::new());
    store.set("a".to_string(), "1".to_string(), 10);
    store.set("a".to_string(), "2".to_string(), 11);
    assert_eq!(store.uncompacted(), 10);
    store.remove("a".to_string(), 7).unwrap();
    assert_eq!(store.uncompacted(), 21);
    store.set("a".to_string(), "3".to_string(), 12);
    assert_eq!(store.uncompacted(), 21);
    assert_eq!(store.stored(), 40);
}

#[test]
fn apply_of_a_remove_for_a_missing_key_only_advances_the_log() {
    let mut store = KvStore::open(&Vec::new());
    let plan = store.apply(Command::Remove { key: "ghost".to_string() }, 9);
    assert!(plan.is_none());
    assert_eq!(store.offset(), 9);
    assert_eq!(store.uncompacted(), 0);
    assert_eq!(store.get("ghost"), None);
}

#[test]
fn compaction_starts_above_the_threshold_only() {
    assert_eq!(COMPACTION_THRESHOLD, 1024 * 1024);
    let mut store = KvStore::open(&Vec::new());
    assert!(store.set("k".to_string(), "a".to_string(), COMPACTION_THRESHOLD).is_none());
    assert!(store.set("k".to_string(), "b".to_string(), 1).is_none());
    assert_eq!(store.uncompacted(), COMPACTION_THRESHOLD);
    let plan = store.set("k".to_string(), "c".to_string(), 5).unwrap();
    assert_eq!(plan.target, 2);
    assert_eq!(plan.active, 3);
    assert_eq!(plan.stale, vec![1]);
    assert_eq!(plan.copies, vec![at(1, COMPACTION_THRESHOLD + 1, 5)]);
    assert_eq!(store.uncompacted(), 0);
    assert_eq!(store.offset(), 0);
    assert_eq!(store.segment(), 3);
    assert_eq!(store.stored(), 5);
    assert_eq!(store.readers(), &vec![2, 3]);
    assert_eq!(store.get("k"), Some(at(2, 0, 5)));
}

#[test]
fn compaction_set_off_by_a_remove() {
    let mut store = KvStore::open(&Vec::new());
    store.set("big".to_string(), "x".to_string(), COMPACTION_THRESHOLD + 1);
    store.set("small".to_string(), "y".to_string(), 8);
    let plan = store.remove("big".to_string(), 20).unwrap().unwrap();
    assert_eq!(plan.copies, vec![at(1, COMPACTION_THRESHOLD + 1, 8)]);
    assert_eq!(plan.stale, vec![1]);
    assert_eq!(store.get("big"), None);
    assert_eq!(store.get("small"), Some(at(2, 0, 8)));
    assert_eq!(store.stored(), 8);
}

#[test]
fn compact_plans_the_copy_of_every_live_command() {
    let mut store = KvStore::open(&Vec::new());
    store.set("a".to_string(), "1".to_string(), 10);
    store.set("b".to_string(), "2".to_string(), 12);
    store.set("a".to_string(), "3".to_string(), 14);
    store.set("c".to_string(), "4".to_string(), 16);
    let plan = store.compact();
    assert_eq!(plan.target, 2);
    assert_eq!(plan.active, 3);
    assert_eq!(plan.stale, vec![1]);
    assert_eq!(plan.copies, vec![at(1, 22, 14), at(1, 10, 12), at(1, 36, 16)]);
    assert_eq!(store.get("a"), Some(at(2, 0, 14)));
    assert_eq!(store.get("b"), Some(at(2, 14, 12)));
    assert_eq!(store.get("c"), Some(at(2, 26, 16)));
    assert_eq!(store.segment(), 3);
    assert_eq!(store.offset(), 0);
    assert_eq!(store.uncompacted(), 0);
    assert_eq!(store.stored(), 42);
    assert_eq!(store.readers(), &vec![2, 3]);
}

#[test]
fn compact_of_an_empty_store() {
    let mut store = KvStore::open(&Vec::new());
    let plan = store.compact();
    assert!(plan.copies.is_empty());
    assert_eq!((plan.target, plan.active), (2, 3));
    assert_eq!(plan.stale, vec![1]);
    assert_eq!(store.segment(), 3);
    assert_eq!(store.stored(), 0);
}

#[test]
fn compaction_does_not_change_any_answer() {
    let mut disk = Disk::new();
    let mut store = disk.open();
    for i in 0..30 {
        disk.set(&mut store, &format!("key{}", i % 10), &format!("value{}", i));
    }
    disk.remove(&mut store, "key4").unwrap();
    let before: Vec<Option<String>> =
        (0..11).map(|i| disk.get(&store, &format!("key{}", i))).collect();
    let plan = store.compact();
    disk.run(&plan);
    let after: Vec<Option<String>> =
        (0..11).map(|i| disk.get(&store, &format!("key{}", i))).collect();
    assert_eq!(before, after);
    assert!(matches!(disk.remove(&mut store, "key4"), Err(KvsError::KeyNotFound)));
    assert!(disk.remove(&mut store, "key5").is_ok());
    assert_eq!(disk.get(&store, "key5"), None);
    let reopened = disk.open();
    assert_eq!(disk.get(&reopened, "key9"), text("value29"));
    assert_eq!(disk.get(&reopened, "key5"), None);
}

#[test]
fn compaction_twice_in_a_row() {
    let mut disk = Disk::new();
    let mut store = disk.open();
    disk.set(&mut store, "a", "1");
    disk.set(&mut store, "b", "2");
    let plan = store.compact();
    disk.run(&plan);
    disk.set(&mut store, "a", "3");
    let plan = store.compact();
    assert_eq!(plan.stale, vec![2, 3]);
    assert_eq!((plan.target, plan.active), (4, 5));
    disk.run(&plan);
    assert_eq!(disk.get(&store, "a"), text("3"));
    assert_eq!(disk.get(&store, "b"), text("2"));
    assert_eq!(disk.segments.keys().cloned().collect::<Vec<u64>>(), vec![4, 5]);
}

#[test]
fn compaction_by_threshold_reclaims_stale_space() {
    let mut disk = Disk::new();
    let mut store = disk.open();
    let large = "x".repeat(300 * 1024);
    disk.set(&mut store, "small", "s");
    let mut compacted = false;
    for round in 0..5 {
        let segment = store.segment();
        disk.set(&mut store, "large", &format!("{}{}", large, round));
        if store.segment() != segment {
            compacted = true;
            assert_eq!(round, 4);
        }
    }
    assert!(compacted);
    assert_eq!(store.uncompacted(), 0);
    assert_eq!(store.offset(), 0);
    let live = store.get("small").unwrap().length + store.get("large").unwrap().length;
    assert_eq!(disk.total(), live);
    assert_eq!(store.stored(), live);
    assert_eq!(disk.segments.len(), 2);
    assert_eq!(disk.get(&store, "large"), Some(format!("{}4", large)));
    assert_eq!(disk.get(&store, "small"), text("s"));
    let reopened = disk.open();
    assert_eq!(disk.get(&reopened, "large"), Some(format!("{}4", large)));
    assert_eq!(reopened.uncompacted(), 0);
}

#[test]
fn compaction_leaves_no_segment_below_the_target() {
    let mut disk = Disk::new();
    let mut store = disk.open();
    disk.set(&mut store, "a", "1");
    let mut store = {
        drop(store);
        disk.open()
    };
    disk.set(&mut store, "b", "2");
    assert_eq!(store.readers(), &vec![1, 2]);
    let plan = store.compact();
    disk.run(&plan);
    assert_eq!(plan.stale, vec![1, 2]);
    assert!(disk.segments.keys().all(|id| *id >= plan.target));
    assert!(store.segment() > plan.target);
    for key in ["a", "b"] {
        assert_eq!(store.get(key).unwrap().segment, plan.target);
    }
}

#[test]
fn read_value_gives_the_value_of_a_put() {
    let decoded = Some(Ok(Command::Put { key: "k".to_string(), value: "v".to_string() }));
    assert_eq!(read_value(decoded).unwrap(), text("v"));
}

#[test]
fn read_value_gives_nothing_for_a_remove_or_the_end() {
    let decoded = Some(Ok(Command::Remove { key: "k".to_string() }));
    assert_eq!(read_value(decoded).unwrap(), None);
    assert_eq!(read_value(None).unwrap(), None);
}

#[test]
fn read_value_hands_on_a_decoding_error() {
    let error = serde_json::from_str::<Value>("{\"Set\":").unwrap_err();
    let message = error.to_string();
    match read_value(Some(Err(error))) {
        Err(KvsError::Serde(e)) => assert_eq!(e.to_string(), message),
        _ => panic!("a decoding error was expected"),
    }
}

#[test]
fn errors_convert_from_their_sources() {
    let io = std::io::Error::new(std::io::ErrorKind::NotFound, "gone");
    assert!(matches!(KvsError::from(io), KvsError::Io(e) if e.kind() == std::io::ErrorKind::NotFound));
    let json = serde_json::from_str::<Value>("nope").unwrap_err();
    assert!(matches!(KvsError::from(json), KvsError::Serde(_)));
}

#[test]
fn has_reader_looks_the_segment_up() {
    assert!(has_reader(&vec![1, 4, 5], 4));
    assert!(!has_reader(&vec![1, 4, 5], 3));
    assert!(!has_reader(&Vec::new(), 1));
}
