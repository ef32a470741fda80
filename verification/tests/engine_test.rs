use kvs::engines::command::KvCommand;
use kvs::engines::disk::find_length;
use kvs::engines::disk::DiskAction;
use kvs::engines::engine::check_engine;
use kvs::engines::files::data_file_epoch;
use kvs::engines::files::data_file_name;
use kvs::engines::files::engine_marker_name;
use kvs::engines::index::Index;
use kvs::engines::kvs::DEFAULT_THRESHOLD;
use kvs::engines::locator::Locator;
use kvs::engines::segment::Segment;
use kvs::engines::segment::SegmentSet;
use kvs::KvError;
use kvs::KvStore;
use kvs::KvsEngine;
use std::collections::BTreeMap;

fn fresh() -> KvStore {
    KvStore::open(Vec::new()).expect("an empty store opens")
}

fn total(segments: &[Segment]) -> usize {
    segments.iter().map(|segment| segment.data.len()).sum()
}

/// A sequence of numbers that looks random and is the same on every run.
struct Numbers(u64);

impl Numbers {
    fn next(&mut self) -> u64 {
        self.0 = self.0.wrapping_mul(6364136223846793005).wrapping_add(1442695040888963407);
        self.0 >> 33
    }

    fn text(&mut self, length: usize) -> String {
        (0..length).map(|_| char::from(b'0' + (self.next() % 10) as u8)).collect()
    }
}

#[test]
fn set_then_get() {
    let mut store = fresh();
    store.set("k".to_owned(), "v1".to_owned()).unwrap();
    assert_eq!(store.get("k".to_owned()), Ok(Some("v1".to_owned())));
    store.set("k".to_owned(), "v2".to_owned()).unwrap();
    assert_eq!(store.get("k".to_owned()), Ok(Some("v2".to_owned())));
}

#[test]
fn get_of_a_missing_key() {
    let store = fresh();
    assert_eq!(store.get("missing".to_owned()), Ok(None));
}

#[test]
fn remove_then_get() {
    let mut store = fresh();
    store.set("k".to_owned(), "v".to_owned()).unwrap();
    assert_eq!(store.remove("k".to_owned()), Ok(()));
    assert_eq!(store.get("k".to_owned()), Ok(None));
    assert_eq!(store.remove("k".to_owned()), Err(KvError::KeyNotFound));
    assert_eq!(store.remove("never".to_owned()), Err(KvError::KeyNotFound));
}

#[test]
fn writes_to_other_keys_leave_a_key_alone() {
    let mut store = fresh();
    store.set("k".to_owned(), "v".to_owned()).unwrap();
    store.set("a".to_owned(), "1".to_owned()).unwrap();
    store.set("b".to_owned(), "2".to_owned()).unwrap();
    store.remove("a".to_owned()).unwrap();
    store.compact_file();
    assert_eq!(store.get("k".to_owned()), Ok(Some("v".to_owned())));
    assert_eq!(store.get("a".to_owned()), Ok(None));
    assert_eq!(store.get("b".to_owned()), Ok(Some("2".to_owned())));
}

#[test]
fn records_are_lines_of_json() {
    let put = KvCommand::set("k".to_owned(), "v".to_owned());
    assert_eq!(put.encode(), b"{\"Put\":{\"key\":\"k\",\"value\":\"v\"}}\n".to_vec());
    assert_eq!(put.key(), "k");
    let rm = KvCommand::remove("k".to_owned());
    assert_eq!(rm.encode(), b"{\"Rm\":{\"key\":\"k\"}}\n".to_vec());
    assert_eq!(rm.key(), "k");
    let escaped = KvCommand::set("a\nb".to_owned(), "\"q\"".to_owned());
    assert_eq!(
        escaped.encode(),
        b"{\"Put\":{\"key\":\"a\\nb\",\"value\":\"\\\"q\\\"\"}}\n".to_vec()
    );
    assert_eq!(escaped.encode_checked(), Some(escaped.encode()));
}

#[test]
fn records_read_back() {
    for command in [
        KvCommand::set("k".to_owned(), "v".to_owned()),
        KvCommand::set("".to_owned(), "".to_owned()),
        KvCommand::set("line\nbreak".to_owned(), "tab\tquote\"slash\\".to_owned()),
        KvCommand::set("caf\u{e9} \u{1f980}".to_owned(), "\u{0}\u{1f}".to_owned()),
        KvCommand::remove("k".to_owned()),
    ] {
        let record = command.encode();
        assert_eq!(record.iter().filter(|byte| **byte == b'\n').count(), 1);
        assert_eq!(KvCommand::decode(record.as_slice()), Ok(command.clone()));
        assert!(command.same(&command.clone()));
    }
    assert!(!KvCommand::remove("k".to_owned()).same(&KvCommand::set("k".to_owned(), "".to_owned())));
    assert!(!KvCommand::remove("k".to_owned()).same(&KvCommand::remove("l".to_owned())));
}

#[test]
fn decode_accepts_blanks_and_escapes() {
    let record = b" { \"Put\" : { \"value\" : \"\\u0041\" , \"key\" : \"k\" } } \n";
    assert_eq!(KvCommand::decode(record), Ok(KvCommand::set("k".to_owned(), "A".to_owned())));
}

#[test]
fn decode_rejects_what_is_no_record() {
    let bad: [&[u8]; 9] = [
        b"",
        b"\n",
        b"garbage\n",
        b"{}\n",
        b"{\"Put\":{\"key\":\"k\"}}\n",
        b"{\"Rm\":{\"value\":\"v\"}}\n",
        b"{\"Get\":{\"key\":\"k\"}}\n",
        b"{\"Put\":{\"key\":\"k\",\"value\":1}}\n",
        b"{\"Put\":{\"key\":\"k\",\"value\":\"v\"},\"Rm\":{\"key\":\"k\"}}\n",
    ];
    for record in bad {
        assert!(matches!(KvCommand::decode(record), Err(KvError::FailToParseFile { .. })));
    }
}

#[test]
fn a_fresh_store_starts_at_epoch_one() {
    let store = fresh();
    assert_eq!(store.active_epoch(), 1);
    assert_eq!(store.tail_epoch(), 0);
    assert_eq!(store.reclaimable_bytes(), 0);
    assert!(!store.compaction_pending());
    assert_eq!(store.export(), vec![Segment { epoch: 1, data: Vec::new() }]);
}

#[test]
fn writes_append_records_to_the_active_segment() {
    let mut store = fresh();
    store.set("k".to_owned(), "v".to_owned()).unwrap();
    store.remove("k".to_owned()).unwrap();
    let mut expected = KvCommand::set("k".to_owned(), "v".to_owned()).encode();
    let first = expected.len() as u64;
    expected.extend(KvCommand::remove("k".to_owned()).encode());
    assert_eq!(store.export(), vec![Segment { epoch: 1, data: expected }]);
    assert_eq!(store.reclaimable_bytes(), first);
}

#[test]
fn dead_bytes_are_counted() {
    let mut store = fresh();
    let record = KvCommand::set("k".to_owned(), "v1".to_owned()).encode().len() as u64;
    store.set("k".to_owned(), "v1".to_owned()).unwrap();
    assert_eq!(store.reclaimable_bytes(), 0);
    store.set("k".to_owned(), "v2".to_owned()).unwrap();
    assert_eq!(store.reclaimable_bytes(), record);
    store.set("other".to_owned(), "v".to_owned()).unwrap();
    assert_eq!(store.reclaimable_bytes(), record);
    store.set("k".to_owned(), "v3".to_owned()).unwrap();
    assert_eq!(store.reclaimable_bytes(), 2 * record);
}

#[test]
fn close_and_reopen() {
    let mut store = fresh();
    let mut numbers = Numbers(7);
    let mut written: Vec<(String, String)> = Vec::new();
    for i in 0..100usize {
        let key_length = 1 + (numbers.next() % 100_000) as usize;
        let key = format!("{}-{}", i, numbers.text(key_length));
        let value_length = 1 + (numbers.next() % 100_000) as usize;
        let value = numbers.text(value_length);
        store.set(key.clone(), value.clone()).unwrap();
        written.push((key, value));
    }
    store.remove(written[3].0.clone()).unwrap();
    let segments = store.export();
    let before: Vec<_> = written.iter().map(|(key, _)| store.get(key.clone())).collect();
    drop(store);
    let reopened = KvStore::open(segments.clone()).expect("the segments of a store open");
    let after: Vec<_> = written.iter().map(|(key, _)| reopened.get(key.clone())).collect();
    assert_eq!(before, after);
    for (i, (key, value)) in written.iter().enumerate() {
        let expected = if i == 3 { None } else { Some(value.clone()) };
        assert_eq!(reopened.get(key.clone()), Ok(expected));
    }
    assert_eq!(reopened.export(), segments);
    assert_eq!(reopened.active_epoch(), 1);
}

#[test]
fn reopen_after_writes_goes_on_in_the_same_segment() {
    let mut store = fresh();
    store.set("a".to_owned(), "1".to_owned()).unwrap();
    let mut reopened = KvStore::open(store.export()).unwrap();
    reopened.set("b".to_owned(), "2".to_owned()).unwrap();
    reopened.set("a".to_owned(), "3".to_owned()).unwrap();
    assert_eq!(reopened.export().len(), 1);
    let again = KvStore::open(reopened.export()).unwrap();
    assert_eq!(again.get("a".to_owned()), Ok(Some("3".to_owned())));
    assert_eq!(again.get("b".to_owned()), Ok(Some("2".to_owned())));
    assert_eq!(again.reclaimable_bytes(), KvCommand::set("a".to_owned(), "1".to_owned()).encode().len() as u64);
}

#[test]
fn a_cut_segment_opens_as_a_prefix_of_the_writes() {
    let writes = [("a", "1"), ("b", "2"), ("a", "3"), ("c", "4")];
    let mut store = fresh();
    let mut ends: Vec<usize> = vec![0];
    for (key, value) in writes {
        store.set(key.to_owned(), value.to_owned()).unwrap();
        ends.push(store.export()[0].data.len());
    }
    let whole = store.export()[0].data.clone();
    for cut in 0..=whole.len() {
        let segment = Segment { epoch: 1, data: whole[..cut].to_vec() };
        let opened = KvStore::open(vec![segment]).expect("a cut segment opens");
        let kept = ends.iter().filter(|end| **end <= cut).count() - 1;
        let mut expected = fresh();
        for (key, value) in &writes[..kept] {
            expected.set((*key).to_owned(), (*value).to_owned()).unwrap();
        }
        for key in ["a", "b", "c"] {
            assert_eq!(opened.get(key.to_owned()), expected.get(key.to_owned()));
        }
        assert_eq!(opened.export(), expected.export());
        assert_eq!(opened.export()[0].data, whole[..ends[kept]].to_vec());
    }
}

#[test]
fn open_rejects_bad_segments() {
    let record = KvCommand::set("k".to_owned(), "v".to_owned()).encode();
    let falling = vec![
        Segment { epoch: 2, data: record.clone() },
        Segment { epoch: 1, data: record.clone() },
    ];
    assert!(matches!(KvStore::open(falling), Err(KvError::Other { .. })));
    let twice = vec![
        Segment { epoch: 2, data: record.clone() },
        Segment { epoch: 2, data: record.clone() },
    ];
    assert!(matches!(KvStore::open(twice), Err(KvError::Other { .. })));
    let zero = vec![Segment { epoch: 0, data: record.clone() }];
    assert!(matches!(KvStore::open(zero), Err(KvError::Other { .. })));
    let mut garbled = record.clone();
    garbled.extend_from_slice(b"{\"Put\":\n");
    garbled.extend_from_slice(&record);
    let unreadable = vec![Segment { epoch: 1, data: garbled }];
    assert!(matches!(KvStore::open(unreadable), Err(KvError::FailToParseFile { .. })));
}

#[test]
fn open_replays_segments_in_the_order_of_their_epochs() {
    let old = KvCommand::set("k".to_owned(), "old".to_owned()).encode();
    let new = KvCommand::set("k".to_owned(), "new".to_owned()).encode();
    let gone = KvCommand::remove("g".to_owned()).encode();
    let mut first = KvCommand::set("g".to_owned(), "x".to_owned()).encode();
    first.extend_from_slice(&old);
    let mut second = new.clone();
    second.extend_from_slice(&gone);
    let store = KvStore::open(vec![
        Segment { epoch: 3, data: first },
        Segment { epoch: 8, data: second },
    ])
    .unwrap();
    assert_eq!(store.get("k".to_owned()), Ok(Some("new".to_owned())));
    assert_eq!(store.get("g".to_owned()), Ok(None));
    assert_eq!(store.active_epoch(), 8);
    assert_eq!(store.tail_epoch(), 3);
}

#[test]
fn compaction_keeps_what_the_store_holds() {
    let mut store = KvStore::open_with_threshold(Vec::new(), 200).unwrap();
    let mut i = 0;
    while !store.compaction_pending() {
        store.set(format!("key{}", i % 5), format!("value{}", i)).unwrap();
        i += 1;
        assert!(i < 1000);
    }
    assert_eq!(store.active_epoch(), 3);
    assert_eq!(store.tail_epoch(), 0);
    assert_eq!(store.reclaimable_bytes(), 0);
    let held: Vec<_> = (0..5).map(|k| store.get(format!("key{}", k))).collect();
    let before = total(&store.export());
    let mut steps = 0;
    while store.compact_step() {
        steps += 1;
        let now: Vec<_> = (0..5).map(|k| store.get(format!("key{}", k))).collect();
        assert_eq!(now, held);
    }
    assert_eq!(steps, 5);
    assert!(!store.compaction_pending());
    assert_eq!(store.active_epoch(), 3);
    assert_eq!(store.tail_epoch(), 2);
    let segments = store.export();
    assert_eq!(segments.iter().map(|segment| segment.epoch).collect::<Vec<_>>(), vec![2, 3]);
    assert!(total(&segments) <= before);
    let live: usize =
        (0..5).map(|k| match store.get(format!("key{}", k)).unwrap() {
            Some(value) => KvCommand::set(format!("key{}", k), value).encode().len(),
            None => 0,
        }).sum();
    assert_eq!(total(&segments), live);
    let now: Vec<_> = (0..5).map(|k| store.get(format!("key{}", k))).collect();
    assert_eq!(now, held);
    let reopened = KvStore::open(segments).unwrap();
    let again: Vec<_> = (0..5).map(|k| reopened.get(format!("key{}", k))).collect();
    assert_eq!(again, held);
}

#[test]
fn writes_during_compaction_win() {
    let mut store = KvStore::open_with_threshold(Vec::new(), 1 << 20).unwrap();
    let value = "x".repeat(1024);
    for round in 0..2 {
        for i in 0..10_000 {
            store.set(format!("key{}", i), format!("{}{}", round, value)).unwrap();
        }
    }
    store.set("hot".to_owned(), "old".to_owned()).unwrap();
    assert!(store.compaction_pending() || store.start_compaction());
    let mut steps = 0;
    let mut sets = 0;
    while store.compaction_pending() {
        if steps % 1000 == 0 && sets < 10 {
            store.set("hot".to_owned(), "new".to_owned()).unwrap();
            sets += 1;
            assert_eq!(store.get("hot".to_owned()), Ok(Some("new".to_owned())));
        }
        store.compact_step();
        steps += 1;
    }
    assert_eq!(sets, 10);
    assert_eq!(store.get("hot".to_owned()), Ok(Some("new".to_owned())));
    for i in [0, 1, 4999, 9999] {
        assert_eq!(store.get(format!("key{}", i)), Ok(Some(format!("1{}", value))));
    }
    let live: usize = (0..10_000)
        .map(|i| KvCommand::set(format!("key{}", i), format!("1{}", value)).encode().len())
        .sum();
    let segments = store.export();
    assert!(segments.iter().all(|segment| segment.epoch >= store.tail_epoch()));
    assert!(total(&segments) <= 2 * live);
    let reopened = KvStore::open(segments).unwrap();
    assert_eq!(reopened.get("hot".to_owned()), Ok(Some("new".to_owned())));
    assert_eq!(reopened.get("key77".to_owned()), Ok(Some(format!("1{}", value))));
}

#[test]
fn a_crash_during_compaction_loses_nothing() {
    let mut store = KvStore::open_with_threshold(Vec::new(), DEFAULT_THRESHOLD).unwrap();
    for i in 0..20 {
        store.set(format!("key{}", i % 10), format!("value{}", i)).unwrap();
    }
    store.remove("key3".to_owned()).unwrap();
    assert!(store.start_compaction());
    for _ in 0..4 {
        assert!(store.compact_step());
    }
    store.set("key1".to_owned(), "late".to_owned()).unwrap();
    let held: Vec<_> = (0..10).map(|k| store.get(format!("key{}", k))).collect();
    let mut segments = store.export();
    assert_eq!(segments.len(), 3);
    let copies = segments[1].data.len();
    segments[1].data.truncate(copies - 5);
    let reopened = KvStore::open(segments).unwrap();
    let again: Vec<_> = (0..10).map(|k| reopened.get(format!("key{}", k))).collect();
    assert_eq!(again, held);
    assert_eq!(reopened.active_epoch(), 3);
    assert_eq!(reopened.tail_epoch(), 1);
}

#[test]
fn compact_from_rest_shrinks_the_log() {
    let mut store = fresh();
    for i in 0..50 {
        store.set(format!("key{}", i % 7), format!("value{}", i)).unwrap();
    }
    store.remove("key2".to_owned()).unwrap();
    let before = total(&store.export());
    let held: Vec<_> = (0..7).map(|k| store.get(format!("key{}", k))).collect();
    store.compact_file();
    assert!(!store.compaction_pending());
    assert!(total(&store.export()) <= before);
    let now: Vec<_> = (0..7).map(|k| store.get(format!("key{}", k))).collect();
    assert_eq!(now, held);
    assert_eq!(store.remove("key2".to_owned()), Err(KvError::KeyNotFound));
    assert_eq!(store.active_epoch(), 3);
    assert_eq!(store.tail_epoch(), 2);
    store.compact_file();
    assert_eq!(store.active_epoch(), 5);
    assert_eq!(store.tail_epoch(), 4);
}

#[test]
fn compact_step_at_rest_does_nothing() {
    let mut store = fresh();
    store.set("k".to_owned(), "v".to_owned()).unwrap();
    let segments = store.export();
    assert!(!store.compact_step());
    assert_eq!(store.export(), segments);
}

#[test]
fn the_index_keeps_the_later_epoch() {
    let mut index = Index::new();
    assert_eq!(index.len(), 0);
    assert_eq!(index.lookup("k"), None);
    let first = Locator::new(1, 0, 10);
    assert_eq!(index.compare_or_install("k".to_owned(), first), None);
    assert_eq!(index.lookup("k"), Some(first));
    let second = Locator::new(1, 10, 12);
    assert_eq!(index.compare_or_install("k".to_owned(), second), Some(10));
    assert_eq!(index.lookup("k"), Some(second));
    let written = Locator::new(3, 0, 20);
    assert_eq!(index.compare_or_install("k".to_owned(), written), Some(12));
    let copied = Locator::new(2, 0, 12);
    assert_eq!(index.compare_or_install("k".to_owned(), copied), Some(12));
    assert_eq!(index.lookup("k"), Some(written));
    let same_epoch = Locator::new(3, 20, 7);
    assert_eq!(index.compare_or_install("k".to_owned(), same_epoch), Some(20));
    assert_eq!(index.lookup("k"), Some(same_epoch));
    assert_eq!(index.compare_or_install("l".to_owned(), copied), None);
    assert_eq!(index.len(), 2);
    assert_eq!(index.entry(0), ("k", same_epoch));
    assert_eq!(index.entry(1), ("l", copied));
    let snapshot = index.snapshot();
    assert_eq!(snapshot.len(), 2);
    assert_eq!(snapshot[0].key, "k");
    assert_eq!(snapshot[1].locator, copied);
}

#[test]
fn segments_are_read_by_locator() {
    let mut set = SegmentSet::new();
    assert!(!set.contains(1));
    set.add(1);
    set.add(4);
    assert!(set.contains(4));
    assert_eq!(set.append(1, b"abc\n"), Some(0));
    assert_eq!(set.append(1, b"de\n"), Some(4));
    assert_eq!(set.append(4, b"xyz\n"), Some(0));
    assert_eq!(set.append(2, b"no\n"), None);
    assert_eq!(set.len_of(1), Some(7));
    assert_eq!(set.len_of(2), None);
    assert_eq!(set.read(Locator::new(1, 4, 3)), Some(&b"de\n"[..]));
    assert_eq!(set.read(Locator::new(4, 0, 4)), Some(&b"xyz\n"[..]));
    assert_eq!(set.read(Locator::new(1, 6, 2)), None);
    assert_eq!(set.read(Locator::new(1, 8, 0)), None);
    assert_eq!(set.read(Locator::new(3, 0, 1)), None);
    assert_eq!(set.read(Locator::new(1, u64::MAX, u32::MAX)), None);
    set.drop_below(4);
    assert!(!set.contains(1));
    assert_eq!(set.export(), vec![Segment { epoch: 4, data: b"xyz\n".to_vec() }]);
    assert!(SegmentSet::from_segments(vec![
        Segment { epoch: 2, data: Vec::new() },
        Segment { epoch: 1, data: Vec::new() },
    ])
    .is_none());
    let set = SegmentSet::from_segments(vec![
        Segment { epoch: 1, data: b"a\n".to_vec() },
        Segment { epoch: 2, data: Vec::new() },
    ])
    .unwrap();
    assert_eq!(set.len_of(1), Some(2));
}

#[test]
fn the_store_is_an_engine() {
    fn exercise<E: KvsEngine>(engine: &mut E) {
        assert_eq!(engine.get("k".to_owned()), Ok(None));
        assert_eq!(engine.set("k".to_owned(), "v".to_owned()), Ok(()));
        assert_eq!(engine.get("k".to_owned()), Ok(Some("v".to_owned())));
        assert_eq!(engine.remove("k".to_owned()), Ok(()));
        assert_eq!(engine.remove("k".to_owned()), Err(KvError::KeyNotFound));
    }
    let mut store = fresh();
    exercise(&mut store);
}

#[test]
fn errors_describe_themselves() {
    assert_eq!(KvError::KeyNotFound.message(), "Key not found");
    assert_eq!(
        KvError::FailToOpenFile { file_name: "kvs-data-1".to_owned(), reason: "denied".to_owned() }
            .message(),
        "Failed to open file kvs-data-1 because error [denied]."
    );
    assert_eq!(
        KvError::OtherIOException { reason: "broken pipe".to_owned() }.message(),
        "Failed because some unexpected IO exception [broken pipe]."
    );
    assert_eq!(
        KvError::FailToParseFile { reason: "eof".to_owned() }.message(),
        "Failed to parse file because error [eof]"
    );
    assert_eq!(KvError::Other { reason: "why".to_owned() }.message(), "other exception: why");
    assert_eq!(
        KvError::IllegalWorkingDirectory.message(),
        "illegal working directory: another instance is working here."
    );
    assert_eq!(
        KvError::ConcurrentError.message(),
        "when operate with lock, something bad happens."
    );
}

#[test]
fn the_directory_guard_knows_its_engine() {
    assert_eq!(check_engine(None, "kvs"), Ok(true));
    assert_eq!(check_engine(Some("kvs"), "kvs"), Ok(false));
    assert_eq!(check_engine(Some("KVS"), "kvs"), Ok(false));
    assert_eq!(check_engine(Some("sled"), "kvs"), Err(KvError::IllegalWorkingDirectory));
    assert_eq!(check_engine(Some("kvs"), "sled"), Err(KvError::IllegalWorkingDirectory));
    assert_eq!(check_engine(Some(""), "kvs"), Err(KvError::IllegalWorkingDirectory));
    assert_eq!(check_engine(Some("kvs\n"), "kvs"), Err(KvError::IllegalWorkingDirectory));
}

#[test]
fn interleaved_writers_do_not_disturb_one_another() {
    let first = [("a", Some("1")), ("b", Some("2")), ("a", None), ("a", Some("3"))];
    let second = [("x", Some("7")), ("y", Some("8")), ("x", Some("9")), ("y", None)];
    let apply = |store: &mut KvStore, write: &(&str, Option<&str>)| match write.1 {
        Some(value) => store.set(write.0.to_owned(), value.to_owned()).unwrap(),
        None => store.remove(write.0.to_owned()).unwrap(),
    };
    let mut serial = fresh();
    for write in first.iter().chain(second.iter()) {
        apply(&mut serial, write);
    }
    let mut alternating = fresh();
    for (one, other) in first.iter().zip(second.iter()) {
        apply(&mut alternating, other);
        apply(&mut alternating, one);
    }
    let mut lopsided = fresh();
    apply(&mut lopsided, &second[0]);
    for write in first.iter() {
        apply(&mut lopsided, write);
    }
    for write in second[1..].iter() {
        apply(&mut lopsided, write);
    }
    for key in ["a", "b", "x", "y"] {
        assert_eq!(alternating.get(key.to_owned()), serial.get(key.to_owned()));
        assert_eq!(lopsided.get(key.to_owned()), serial.get(key.to_owned()));
    }
    assert_eq!(serial.get("a".to_owned()), Ok(Some("3".to_owned())));
    assert_eq!(serial.get("y".to_owned()), Ok(None));
}

#[test]
fn data_files_are_named_after_their_epochs() {
    assert_eq!(data_file_name(1), b"kvs-data-1".to_vec());
    assert_eq!(data_file_name(10), b"kvs-data-10".to_vec());
    assert_eq!(data_file_name(907), b"kvs-data-907".to_vec());
    assert_eq!(data_file_name(u64::MAX), b"kvs-data-18446744073709551615".to_vec());
    assert_eq!(engine_marker_name(), b".engine".to_vec());
    for epoch in [1u64, 2, 9, 10, 11, 99, 100, 12345, 1 << 40, u64::MAX - 1, u64::MAX] {
        assert_eq!(data_file_epoch(data_file_name(epoch).as_slice()), Some(epoch));
    }
}

#[test]
fn other_files_are_no_data_files() {
    let bad: [&[u8]; 14] = [
        b"",
        b".engine",
        b"kvs-data-",
        b"kvs-data-0",
        b"kvs-data-01",
        b"kvs-data-+1",
        b"kvs-data--1",
        b"kvs-data-1 ",
        b"kvs-data-1a",
        b"kvs-data-18446744073709551616",
        b"kvs-data-99999999999999999999999",
        b"kvs-date-1",
        b"Kvs-data-1",
        b"kvs-compact-temp-file",
    ];
    for name in bad {
        assert_eq!(data_file_epoch(name), None);
    }
}

/// Files as a test keeps them: the bytes of each under its epoch.
struct Files(BTreeMap<u64, Vec<u8>>);

impl Files {
    fn lengths(&self) -> Vec<(u64, usize)> {
        self.0.iter().map(|(epoch, data)| (*epoch, data.len())).collect()
    }

    fn follow(&mut self, store: &KvStore) -> Vec<DiskAction> {
        let actions = store.sync_actions(&self.lengths());
        for action in actions.iter().cloned() {
            match action {
                DiskAction::Append { epoch, bytes } => self.0.entry(epoch).or_default().extend(bytes),
                DiskAction::Truncate { epoch, length } => {
                    self.0.get_mut(&epoch).expect("a file to cut").truncate(length)
                }
                DiskAction::Remove { epoch } => {
                    self.0.remove(&epoch).expect("a file to delete");
                }
            }
        }
        actions
    }

    fn segments(&self) -> Vec<Segment> {
        self.0.iter().map(|(epoch, data)| Segment { epoch: *epoch, data: data.clone() }).collect()
    }
}

#[test]
fn files_follow_the_store() {
    let mut files = Files(BTreeMap::new());
    let mut store = KvStore::open_with_threshold(Vec::new(), 100).unwrap();
    assert_eq!(files.follow(&store), vec![DiskAction::Append { epoch: 1, bytes: Vec::new() }]);
    assert_eq!(files.follow(&store), vec![]);
    store.set("a".to_owned(), "1".to_owned()).unwrap();
    assert_eq!(
        files.follow(&store),
        vec![DiskAction::Append {
            epoch: 1,
            bytes: KvCommand::set("a".to_owned(), "1".to_owned()).encode()
        }]
    );
    assert_eq!(files.segments(), store.export());
    assert_eq!(files.lengths(), store.segment_lengths());
    let mut i = 0;
    while !store.compaction_pending() {
        store.set(format!("key{}", i % 3), format!("value{}", i)).unwrap();
        i += 1;
        files.follow(&store);
        assert_eq!(files.segments(), store.export());
    }
    assert_eq!(store.epochs(), vec![1, 2, 3]);
    while store.compact_step() {
        store.set("late".to_owned(), "write".to_owned()).unwrap();
        files.follow(&store);
        assert_eq!(files.segments(), store.export());
    }
    assert_eq!(files.follow(&store), vec![DiskAction::Remove { epoch: 1 }]);
    assert_eq!(files.segments(), store.export());
    assert_eq!(store.epochs(), vec![2, 3]);
}

#[test]
fn files_with_unfinished_ends_are_cut_back() {
    let record = KvCommand::set("k".to_owned(), "v".to_owned()).encode();
    let mut cut = record.clone();
    cut.extend_from_slice(&record[..7]);
    let mut files = Files(BTreeMap::new());
    files.0.insert(4, cut);
    files.0.insert(6, record.clone());
    let store = KvStore::open(files.segments()).unwrap();
    assert_eq!(
        files.follow(&store),
        vec![DiskAction::Truncate { epoch: 4, length: record.len() }]
    );
    assert_eq!(files.segments(), store.export());
    assert_eq!(find_length(&files.lengths(), 6), Some(record.len()));
    assert_eq!(find_length(&files.lengths(), 5), None);
    assert_eq!(
        store.sync_actions(&vec![(9, 3), (4, 0), (9, 5)]),
        vec![
            DiskAction::Append { epoch: 4, bytes: record.clone() },
            DiskAction::Append { epoch: 6, bytes: record.clone() },
            DiskAction::Remove { epoch: 9 },
            DiskAction::Remove { epoch: 9 },
        ]
    );
}
