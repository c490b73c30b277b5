use kvs::command::Command;
use kvs::engine::KvsEngine;
use kvs::error::KvsError;
use kvs::effects::LogEffect;
use kvs::directory::DirectoryImage;
use kvs::kv::{KvStore, Limits, COMPACTION_THRESHOLD, FIRST_GENERATION, ROLLOVER_THRESHOLD};
use kvs::log::{Generation, LogPointer};

fn directory(generations: Vec<Generation>) -> DirectoryImage {
    DirectoryImage { path: String::from("/var/db"), is_directory: true, generations }
}

fn fresh() -> KvStore {
    KvStore::open(directory(Vec::new())).unwrap()
}

fn fresh_with(compaction: u64, rollover: u64) -> KvStore {
    KvStore::open_with(directory(Vec::new()), Limits { compaction, rollover }).unwrap()
}

/// Applies the effects to a copy of the data directory, as a keeper of the
/// files would.
fn mirror(disk: &mut Vec<Generation>, effects: Vec<LogEffect>) {
    for effect in effects {
        match effect {
            LogEffect::Create { gen } => disk.push(Generation { id: gen, data: Vec::new() }),
            LogEffect::Append { gen, bytes } => {
                let last = disk.last_mut().unwrap();
                assert_eq!(last.id, gen);
                last.data.extend_from_slice(&bytes);
            }
            LogEffect::Remove { gen } => {
                let at = disk.iter().position(|g| g.id == gen).unwrap();
                disk.remove(at);
            }
        }
    }
}

fn same(a: &Vec<Generation>, b: &Vec<Generation>) -> bool {
    a.len() == b.len() && a.iter().zip(b.iter()).all(|(x, y)| x.id == y.id && x.data == y.data)
}

fn s(text: &str) -> String {
    String::from(text)
}

#[test]
fn get_of_a_key_never_set_is_none() {
    let mut store = fresh();
    assert_eq!(store.get(s("missing")).unwrap(), None);
}

#[test]
fn set_then_get_returns_the_value() {
    let mut store = fresh();
    store.set(s("key1"), s("value1")).unwrap();
    store.set(s("key2"), s("value2")).unwrap();
    assert_eq!(store.get(s("key1")).unwrap(), Some(s("value1")));
    assert_eq!(store.get(s("key2")).unwrap(), Some(s("value2")));
    assert!(store.contains_key("key1"));
    assert!(!store.contains_key("key3"));
}

#[test]
fn set_accepts_empty_and_non_ascii_strings() {
    let mut store = fresh();
    store.set(s(""), s("")).unwrap();
    store.set(s("schlüssel"), s("wert \u{1F511}\n\0")).unwrap();
    assert_eq!(store.get(s("")).unwrap(), Some(s("")));
    assert_eq!(store.get(s("schlüssel")).unwrap(), Some(s("wert \u{1F511}\n\0")));
}

#[test]
fn second_set_overwrites_the_first() {
    let mut store = fresh();
    store.set(s("key"), s("one")).unwrap();
    store.set(s("key"), s("two")).unwrap();
    assert_eq!(store.get(s("key")).unwrap(), Some(s("two")));
}

#[test]
fn remove_takes_the_key_out_and_fails_the_second_time() {
    let mut store = fresh();
    store.set(s("key"), s("value")).unwrap();
    store.remove(s("key")).unwrap();
    assert_eq!(store.get(s("key")).unwrap(), None);
    assert!(matches!(store.remove(s("key")), Err(KvsError::BadRemovalError)));
}

#[test]
fn remove_of_an_absent_key_writes_nothing() {
    let mut store = fresh();
    store.take_effects();
    let before = store.image();
    assert!(matches!(store.remove(s("nobody")), Err(KvsError::BadRemovalError)));
    assert!(store.take_effects().is_empty());
    assert!(same(&before, &store.image()));
    assert_eq!(store.stale(), 0);
}

#[test]
fn a_store_without_files_starts_with_the_first_generation() {
    let mut store = fresh();
    assert_eq!(store.generation_ids(), vec![FIRST_GENERATION]);
    assert_eq!(store.active_generation(), FIRST_GENERATION);
    let effects = store.take_effects();
    assert_eq!(effects.len(), 1);
    assert!(matches!(effects[0], LogEffect::Create { gen } if gen == FIRST_GENERATION));
}

#[test]
fn the_usual_limits_are_one_and_four_mebibytes() {
    assert_eq!(COMPACTION_THRESHOLD, 1_048_576);
    assert_eq!(ROLLOVER_THRESHOLD, 4_194_304);
    assert_eq!(Limits::default(), Limits { compaction: 1_048_576, rollover: 4_194_304 });
}

#[test]
fn set_appends_one_record_to_the_active_generation() {
    let mut store = fresh();
    store.take_effects();
    store.set(s("foo"), s("bar")).unwrap();
    let record = Command::Put { key: s("foo"), value: s("bar") }.encode();
    let effects = store.take_effects();
    assert_eq!(effects.len(), 1);
    match &effects[0] {
        LogEffect::Append { gen, bytes } => {
            assert_eq!(*gen, FIRST_GENERATION);
            assert_eq!(bytes, &record);
        }
        other => panic!("unexpected effect {:?}", other),
    }
    let image = store.image();
    assert_eq!(image.len(), 1);
    assert_eq!(image[0].data, record);
    assert_eq!(
        store.locate("foo"),
        Some(LogPointer { gen: FIRST_GENERATION, pos: 0, len: record.len() as u64 })
    );
}

#[test]
fn the_index_points_behind_the_records_written_before() {
    let mut store = fresh();
    store.set(s("a"), s("1")).unwrap();
    store.set(s("b"), s("22")).unwrap();
    // A record is a tag, then each string behind the eight bytes of its length.
    assert_eq!(store.locate("a"), Some(LogPointer { gen: 1, pos: 0, len: 19 }));
    assert_eq!(store.locate("b"), Some(LogPointer { gen: 1, pos: 19, len: 20 }));
    assert_eq!(store.locate("c"), None);
}

#[test]
fn overwriting_turns_the_old_record_stale() {
    let mut store = fresh();
    store.set(s("key"), s("one")).unwrap();
    assert_eq!(store.stale(), 0);
    store.set(s("key"), s("three")).unwrap();
    // 1 + (8 + 3) + (8 + 3) bytes of the first record.
    assert_eq!(store.stale(), 23);
    store.set(s("other"), s("x")).unwrap();
    assert_eq!(store.stale(), 23);
}

#[test]
fn removing_turns_the_old_record_and_the_removal_stale() {
    let mut store = fresh();
    store.set(s("key"), s("one")).unwrap();
    store.remove(s("key")).unwrap();
    // 23 bytes of the `Put` record and 1 + (8 + 3) bytes of the `Remove` record.
    assert_eq!(store.stale(), 35);
    assert_eq!(store.locate("key"), None);
}

#[test]
fn the_active_generation_is_sealed_when_it_grows_over_the_limit() {
    let mut store = fresh_with(1 << 20, 40);
    store.take_effects();
    store.set(s("a"), s("1")).unwrap();
    store.set(s("b"), s("2")).unwrap();
    assert_eq!(store.generation_ids(), vec![1]);
    store.set(s("c"), s("3")).unwrap();
    // 57 bytes are more than 40: a second generation is opened.
    assert_eq!(store.generation_ids(), vec![1, 2]);
    assert_eq!(store.active_generation(), 2);
    let effects = store.take_effects();
    assert_eq!(effects.len(), 4);
    assert!(matches!(effects[3], LogEffect::Create { gen: 2 }));
    store.set(s("d"), s("4")).unwrap();
    assert_eq!(store.locate("d"), Some(LogPointer { gen: 2, pos: 0, len: 19 }));
    assert_eq!(store.get(s("a")).unwrap(), Some(s("1")));
    assert_eq!(store.get(s("d")).unwrap(), Some(s("4")));
}

#[test]
fn the_log_is_compacted_when_the_stale_bytes_exceed_the_limit() {
    let mut store = fresh_with(30, 1 << 20);
    store.take_effects();
    store.set(s("a"), s("1")).unwrap();
    store.set(s("b"), s("2")).unwrap();
    store.set(s("a"), s("3")).unwrap();
    assert_eq!(store.stale(), 19);
    assert_eq!(store.generation_ids(), vec![1]);
    store.take_effects();
    store.set(s("b"), s("4")).unwrap();
    // 38 stale bytes are more than 30: the live records move to generation 2.
    assert_eq!(store.stale(), 0);
    assert_eq!(store.generation_ids(), vec![2, 3]);
    assert_eq!(store.active_generation(), 3);
    assert_eq!(store.get(s("a")).unwrap(), Some(s("3")));
    assert_eq!(store.get(s("b")).unwrap(), Some(s("4")));
    let a = store.locate("a").unwrap();
    let b = store.locate("b").unwrap();
    assert_eq!((a.gen, a.len), (2, 19));
    assert_eq!((b.gen, b.len), (2, 19));
    assert_ne!(a.pos, b.pos);
    let image = store.image();
    assert_eq!(image[0].data.len(), 38);
    assert!(image[1].data.is_empty());
    let effects = store.take_effects();
    assert_eq!(effects.len(), 5);
    assert!(matches!(effects[0], LogEffect::Append { gen: 1, .. }));
    assert!(matches!(effects[1], LogEffect::Create { gen: 2 }));
    assert!(matches!(&effects[2], LogEffect::Append { gen: 2, bytes } if *bytes == image[0].data));
    assert!(matches!(effects[3], LogEffect::Create { gen: 3 }));
    assert!(matches!(effects[4], LogEffect::Remove { gen: 1 }));
}

#[test]
fn compaction_on_demand_keeps_every_value() {
    let mut store = fresh();
    for i in 0..50 {
        store.set(format!("key{}", i), format!("value{}", i)).unwrap();
    }
    for i in 0..50 {
        if i % 3 == 0 {
            store.remove(format!("key{}", i)).unwrap();
        } else if i % 3 == 1 {
            store.set(format!("key{}", i), format!("again{}", i)).unwrap();
        }
    }
    let lengths: Vec<Option<u64>> =
        (0..50).map(|i| store.locate(&format!("key{}", i)).map(|p| p.len)).collect();
    assert!(store.stale() > 0);
    store.compact();
    assert_eq!(store.stale(), 0);
    assert_eq!(store.generation_ids(), vec![2, 3]);
    for i in 0..50 {
        let expected = if i % 3 == 0 {
            None
        } else if i % 3 == 1 {
            Some(format!("again{}", i))
        } else {
            Some(format!("value{}", i))
        };
        assert_eq!(store.get(format!("key{}", i)).unwrap(), expected);
        assert_eq!(store.locate(&format!("key{}", i)).map(|p| p.len), lengths[i]);
    }
    let live: u64 = lengths.iter().flatten().sum();
    assert_eq!(store.image()[0].data.len() as u64, live);
}

#[test]
fn many_overwrites_with_the_usual_limits_compact_the_log() {
    let mut store = fresh();
    let value = "x".repeat(1000);
    for round in 0..1500 {
        store.set(format!("key{}", round % 7), format!("{}{}", value, round)).unwrap();
    }
    assert!(store.active_generation() > FIRST_GENERATION);
    assert!(store.stale() <= COMPACTION_THRESHOLD);
    for k in 0..7 {
        let last = (0..1500).rev().find(|r| r % 7 == k).unwrap();
        assert_eq!(store.get(format!("key{}", k)).unwrap(), Some(format!("{}{}", value, last)));
    }
}

#[test]
fn the_effects_lead_the_files_to_the_image_of_the_store() {
    let mut store = fresh_with(64, 100);
    let mut disk: Vec<Generation> = Vec::new();
    for round in 0..200 {
        let key = format!("k{}", round % 11);
        if round % 5 == 4 {
            let _ = store.remove(key);
        } else {
            store.set(key, format!("v{}", round)).unwrap();
        }
        if round % 3 == 0 {
            mirror(&mut disk, store.take_effects());
            assert!(same(&disk, &store.image()));
        }
    }
    mirror(&mut disk, store.take_effects());
    assert!(same(&disk, &store.image()));
}

#[test]
fn reopening_gives_the_same_index_and_the_same_values() {
    let mut store = fresh_with(64, 100);
    let mut disk: Vec<Generation> = Vec::new();
    for round in 0..300 {
        let key = format!("k{}", round % 13);
        if round % 7 == 6 {
            let _ = store.remove(key);
        } else {
            store.set(key, format!("v{}", round)).unwrap();
        }
    }
    mirror(&mut disk, store.take_effects());
    let mut again =
        KvStore::open_with(directory(disk), Limits { compaction: 64, rollover: 100 }).unwrap();
    assert!(again.take_effects().is_empty());
    assert_eq!(again.generation_ids(), store.generation_ids());
    assert_eq!(again.stale(), store.stale());
    for k in 0..13 {
        let key = format!("k{}", k);
        assert_eq!(again.locate(&key), store.locate(&key));
        assert_eq!(again.get(key.clone()).unwrap(), store.get(key).unwrap());
    }
}

#[test]
fn open_replays_sets_and_removes_in_log_order() {
    let mut first = Vec::new();
    first.extend(Command::Put { key: s("a"), value: s("1") }.encode());
    first.extend(Command::Put { key: s("b"), value: s("2") }.encode());
    let mut second = Vec::new();
    second.extend(Command::Remove { key: s("a") }.encode());
    second.extend(Command::Put { key: s("b"), value: s("3") }.encode());
    second.extend(Command::Remove { key: s("never") }.encode());
    let files = vec![Generation { id: 4, data: first }, Generation { id: 9, data: second }];
    let mut store = KvStore::open(directory(files)).unwrap();
    assert_eq!(store.generation_ids(), vec![4, 9]);
    assert_eq!(store.active_generation(), 9);
    assert_eq!(store.get(s("a")).unwrap(), None);
    assert_eq!(store.get(s("b")).unwrap(), Some(s("3")));
    assert_eq!(store.locate("b"), Some(LogPointer { gen: 9, pos: 10, len: 19 }));
    // Stale: both records of generation 4, and the removals of 10 and 14 bytes.
    assert_eq!(store.stale(), 19 + 19 + 10 + 14);
    store.set(s("c"), s("4")).unwrap();
    assert_eq!(store.locate("c"), Some(LogPointer { gen: 9, pos: 43, len: 19 }));
}

#[test]
fn open_refuses_a_path_that_is_no_directory() {
    let dir = DirectoryImage {
        path: String::from("/etc/passwd"),
        is_directory: false,
        generations: Vec::new(),
    };
    match KvStore::open(dir) {
        Err(KvsError::BadPathError(path)) => assert_eq!(path, "/etc/passwd"),
        _ => panic!("the path should be refused"),
    }
}

#[test]
fn open_replays_the_generations_in_ascending_order_whatever_order_they_come_in() {
    let old = Command::Put { key: s("k"), value: s("old") }.encode();
    let new = Command::Put { key: s("k"), value: s("new") }.encode();
    let removal = Command::Remove { key: s("k") }.encode();
    let files = vec![
        Generation { id: 7, data: new },
        Generation { id: 2, data: old },
        Generation { id: 5, data: removal },
    ];
    let mut store = KvStore::open(directory(files)).unwrap();
    assert_eq!(store.generation_ids(), vec![2, 5, 7]);
    assert_eq!(store.active_generation(), 7);
    assert_eq!(store.get(s("k")).unwrap(), Some(s("new")));
    assert_eq!(store.locate("k"), Some(LogPointer { gen: 7, pos: 0, len: 21 }));
    assert!(store.take_effects().is_empty());
}

#[test]
fn open_refuses_two_generations_with_one_identifier() {
    let twice = vec![
        Generation { id: 5, data: Vec::new() },
        Generation { id: 3, data: Vec::new() },
        Generation { id: 5, data: Vec::new() },
    ];
    match KvStore::open(directory(twice)) {
        Err(KvsError::InternalError(detail)) => {
            assert_eq!(detail, "two generations share an identifier")
        }
        _ => panic!("the generations should be refused"),
    }
}

#[test]
fn open_refuses_a_generation_that_is_no_run_of_records() {
    let mut data = Command::Put { key: s("a"), value: s("1") }.encode();
    data.push(7);
    let files = vec![Generation { id: 1, data }];
    assert!(matches!(KvStore::open(directory(files)), Err(KvsError::SerdeError(_))));
    let mut torn = Command::Put { key: s("a"), value: s("1") }.encode();
    torn.pop();
    let files = vec![Generation { id: 1, data: torn }, Generation { id: 2, data: Vec::new() }];
    assert!(matches!(KvStore::open(directory(files)), Err(KvsError::SerdeError(_))));
}

#[test]
fn the_store_serves_through_the_engine_interface() {
    fn exercise<E: KvsEngine>(engine: &mut E) {
        engine.set(s("key"), s("value")).unwrap();
        assert_eq!(engine.get(s("key")).unwrap(), Some(s("value")));
        engine.remove(s("key")).unwrap();
        assert_eq!(engine.get(s("key")).unwrap(), None);
        assert!(matches!(engine.remove(s("key")), Err(KvsError::BadRemovalError)));
    }
    let mut store = fresh();
    exercise(&mut store);
}

#[test]
fn a_store_out_of_identifiers_keeps_writing_to_its_last_generation() {
    let files = vec![Generation { id: u64::MAX - 1, data: Vec::new() }];
    let mut store =
        KvStore::open_with(directory(files), Limits { compaction: 30, rollover: 30 }).unwrap();
    store.set(s("a"), s("1")).unwrap();
    store.set(s("a"), s("2")).unwrap();
    // One identifier is left: the active generation is sealed once.
    assert_eq!(store.generation_ids(), vec![u64::MAX - 1, u64::MAX]);
    for round in 0..10 {
        store.set(s("a"), format!("{}", round)).unwrap();
    }
    // Neither two identifiers for a compaction nor one for sealing are left.
    assert_eq!(store.generation_ids(), vec![u64::MAX - 1, u64::MAX]);
    assert_eq!(store.stale(), 11 * 19);
    assert_eq!(store.get(s("a")).unwrap(), Some(s("9")));
    store.take_effects();
    store.compact();
    assert!(store.take_effects().is_empty());
    assert_eq!(store.stale(), 11 * 19);
    assert_eq!(store.get(s("a")).unwrap(), Some(s("9")));
}

type Step = (&'static str, Option<&'static str>);

/// Runs the steps of two clients in turns and gives what each step saw, in
/// an order that does not depend on the turns, and what the store holds in
/// the end.
fn interleave(
    first: &[Step],
    second: &[Step],
    turn: usize,
) -> (Vec<(&'static str, bool, Option<String>)>, Vec<Option<String>>) {
    let mut store = fresh_with(40, 50);
    let mut results = Vec::new();
    let (mut i, mut j) = (0, 0);
    while i < first.len() || j < second.len() {
        let take_first = j >= second.len() || (i < first.len() && (i + j) % turn == 0);
        let (key, value) = if take_first {
            i += 1;
            first[i - 1]
        } else {
            j += 1;
            second[j - 1]
        };
        let done = match value {
            Some(value) => store.set(s(key), s(value)).is_ok(),
            None => store.remove(s(key)).is_ok(),
        };
        results.push((key, done, store.get(s(key)).unwrap()));
    }
    let mut state = Vec::new();
    for key in ["l1", "l2", "r1", "r2"] {
        state.push(store.get(s(key)).unwrap());
    }
    results.sort();
    (results, state)
}

#[test]
fn requests_about_different_keys_do_not_touch_each_other() {
    // Two clients, each with keys of its own, in two different interleavings.
    let left: Vec<Step> =
        vec![("l1", Some("a")), ("l2", Some("b")), ("l1", None), ("l2", Some("c"))];
    let right: Vec<Step> =
        vec![("r1", Some("x")), ("r1", Some("y")), ("r2", Some("z")), ("r1", None)];
    let (results_a, state_a) = interleave(&left, &right, 2);
    let (results_b, state_b) = interleave(&right, &left, 3);
    assert_eq!(state_a, vec![None, Some(s("c")), None, Some(s("z"))]);
    assert_eq!(state_a, state_b);
    assert_eq!(results_a, results_b);
}

#[test]
fn every_byte_of_the_log_is_live_or_stale() {
    let mut store = fresh_with(200, 150);
    for round in 0..120 {
        let key = format!("k{}", round % 9);
        if round % 4 == 3 {
            let _ = store.remove(key);
        } else {
            store.set(key, format!("value{}", round)).unwrap();
        }
        let live: u64 =
            (0..9).filter_map(|k| store.locate(&format!("k{}", k))).map(|place| place.len).sum();
        let held: u64 = store.image().iter().map(|gen| gen.data.len() as u64).sum();
        assert_eq!(store.stale() + live, held);
    }
}

#[test]
fn a_compaction_that_is_cut_short_between_two_effects_loses_nothing() {
    let mut store = fresh_with(1 << 20, 60);
    let mut disk: Vec<Generation> = Vec::new();
    for round in 0..40 {
        let key = format!("k{}", round % 6);
        if round % 5 == 4 {
            let _ = store.remove(key);
        } else {
            store.set(key, format!("v{}", round)).unwrap();
        }
    }
    mirror(&mut disk, store.take_effects());
    assert!(store.generation_ids().len() > 3);
    let expected: Vec<Option<String>> =
        (0..6).map(|k| store.get(format!("k{}", k)).unwrap()).collect();

    store.compact();
    let effects = store.take_effects();
    assert_eq!(effects.len(), 3 + disk.len());
    for cut in 0..=effects.len() {
        let mut files: Vec<Generation> =
            disk.iter().map(|g| Generation { id: g.id, data: g.data.clone() }).collect();
        let done: Vec<LogEffect> = effects[..cut]
            .iter()
            .map(|effect| match effect {
                LogEffect::Create { gen } => LogEffect::Create { gen: *gen },
                LogEffect::Append { gen, bytes } => {
                    LogEffect::Append { gen: *gen, bytes: bytes.clone() }
                }
                LogEffect::Remove { gen } => LogEffect::Remove { gen: *gen },
            })
            .collect();
        mirror(&mut files, done);
        let mut again = KvStore::open(directory(files)).unwrap();
        for k in 0..6 {
            assert_eq!(again.get(format!("k{}", k)).unwrap(), expected[k], "cut {}", cut);
        }
    }
}
