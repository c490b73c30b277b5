use kvs::command::{Command, TAG_PUT, TAG_REMOVE};
use kvs::encoding::{put_text, take_text};

#[test]
fn a_string_is_written_behind_its_length() {
    let mut out = vec![9u8];
    put_text(&mut out, "héllo");
    assert_eq!(out, vec![9, 6, 0, 0, 0, 0, 0, 0, 0, b'h', 0xC3, 0xA9, b'l', b'l', b'o']);
}

#[test]
fn a_string_is_read_back_where_it_was_written() {
    let mut out = vec![1u8, 2, 3];
    put_text(&mut out, "key");
    put_text(&mut out, "");
    assert_eq!(take_text(&out, 3), Some((String::from("key"), 14)));
    assert_eq!(take_text(&out, 14), Some((String::new(), 22)));
    assert_eq!(take_text(&out, 22), None);
    assert_eq!(take_text(&out, 23), None);
    assert_eq!(take_text(&out, usize::MAX), None);
}

#[test]
fn a_string_that_is_cut_short_or_not_utf8_is_refused() {
    let mut out = Vec::new();
    put_text(&mut out, "value");
    assert_eq!(take_text(&out[..12], 0), None);
    assert_eq!(take_text(&out[..7], 0), None);
    let bad = vec![2u8, 0, 0, 0, 0, 0, 0, 0, 0xC3, 0x28];
    assert_eq!(take_text(&bad, 0), None);
    let huge = vec![0xFFu8, 0xFF, 0xFF, 0xFF, 0xFF, 0xFF, 0xFF, 0xFF, b'a'];
    assert_eq!(take_text(&huge, 0), None);
}

#[test]
fn a_put_record_is_a_tag_the_key_and_the_value() {
    let record = Command::Put { key: String::from("foo"), value: String::from("bar") }.encode();
    assert_eq!(TAG_PUT, 1);
    assert_eq!(
        record,
        vec![1, 3, 0, 0, 0, 0, 0, 0, 0, b'f', b'o', b'o', 3, 0, 0, 0, 0, 0, 0, 0, b'b', b'a', b'r']
    );
}

#[test]
fn a_remove_record_is_a_tag_and_the_key() {
    let record = Command::Remove { key: String::from("foo") }.encode();
    assert_eq!(TAG_REMOVE, 2);
    assert_eq!(record, vec![2, 3, 0, 0, 0, 0, 0, 0, 0, b'f', b'o', b'o']);
}

#[test]
fn records_are_read_back_one_behind_the_other() {
    let mut log = Command::Put { key: String::from("k"), value: String::from("v") }.encode();
    log.extend(Command::Remove { key: String::from("k") }.encode());
    match Command::decode(&log, 0) {
        Some((Command::Put { key, value }, end)) => {
            assert_eq!((key.as_str(), value.as_str(), end), ("k", "v", 19));
        }
        other => panic!("unexpected {:?}", other),
    }
    match Command::decode(&log, 19) {
        Some((Command::Remove { key }, end)) => assert_eq!((key.as_str(), end), ("k", 29)),
        other => panic!("unexpected {:?}", other),
    }
    assert!(Command::decode(&log, 29).is_none());
    assert!(Command::decode(&log, 1).is_none());
}

#[test]
fn a_record_with_an_unknown_tag_is_refused() {
    let mut record = Command::Remove { key: String::from("k") }.encode();
    record[0] = 3;
    assert!(Command::decode(&record, 0).is_none());
    record[0] = 0;
    assert!(Command::decode(&record, 0).is_none());
}
