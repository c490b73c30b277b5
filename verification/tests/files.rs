use kvs::digits::{chars_of, parse_decimal, render_decimal};
use kvs::embedded::{removal_result, stored_value, value_bytes};
use kvs::error::KvsError;
use kvs::directory::{arrange, generation_file_name, generation_of};
use kvs::log::Generation;

fn ids(gens: &Vec<Generation>) -> Vec<u64> {
    gens.iter().map(|g| g.id).collect()
}

#[test]
fn a_generation_file_is_named_by_its_identifier() {
    assert_eq!(generation_file_name(0), "0.log");
    assert_eq!(generation_file_name(1), "1.log");
    assert_eq!(generation_file_name(4096), "4096.log");
    assert_eq!(generation_file_name(u64::MAX), "18446744073709551615.log");
}

#[test]
fn the_name_of_a_generation_file_gives_its_identifier() {
    assert_eq!(generation_of("0.log"), Some(0));
    assert_eq!(generation_of("17.log"), Some(17));
    assert_eq!(generation_of("18446744073709551615.log"), Some(u64::MAX));
    for id in [0u64, 9, 10, 99, 100, 12345, 1 << 40] {
        assert_eq!(generation_of(&generation_file_name(id)), Some(id));
    }
}

#[test]
fn other_files_are_no_generations() {
    assert_eq!(generation_of(""), None);
    assert_eq!(generation_of(".log"), None);
    assert_eq!(generation_of(".engine"), None);
    assert_eq!(generation_of("17"), None);
    assert_eq!(generation_of("17.txt"), None);
    assert_eq!(generation_of("17.log.bak"), None);
    assert_eq!(generation_of("017.log"), None);
    assert_eq!(generation_of("+17.log"), None);
    assert_eq!(generation_of("-1.log"), None);
    assert_eq!(generation_of("1 .log"), None);
    assert_eq!(generation_of("x1.log"), None);
    assert_eq!(generation_of("18446744073709551616.log"), None);
    assert_eq!(generation_of("kvs.log"), None);
}

#[test]
fn numbers_are_written_without_leading_zeros() {
    assert_eq!(render_decimal(0), "0");
    assert_eq!(render_decimal(7), "7");
    assert_eq!(render_decimal(10), "10");
    assert_eq!(render_decimal(1_000_000), "1000000");
    assert_eq!(render_decimal(u64::MAX), u64::MAX.to_string());
}

#[test]
fn digits_are_read_up_to_a_limit() {
    let chars = chars_of("a0123456b");
    assert_eq!(chars.len(), 9);
    assert_eq!(parse_decimal(&chars, 1, 8, 123456), Some(123456));
    assert_eq!(parse_decimal(&chars, 1, 8, 123455), None);
    assert_eq!(parse_decimal(&chars, 2, 4, 9), None);
    assert_eq!(parse_decimal(&chars, 1, 2, 9), Some(0));
    assert_eq!(parse_decimal(&chars, 3, 3, 9), None);
    assert_eq!(parse_decimal(&chars, 0, 3, 100), None);
    assert_eq!(parse_decimal(&chars, 6, 9, 100), None);
    let big = chars_of("18446744073709551616");
    assert_eq!(parse_decimal(&big, 0, 20, u64::MAX), None);
    assert_eq!(parse_decimal(&big, 0, 19, u64::MAX), Some(1844674407370955161));
}

#[test]
fn generations_are_put_in_ascending_order() {
    let found = vec![
        Generation { id: 30, data: vec![3] },
        Generation { id: 10, data: vec![1] },
        Generation { id: 40, data: vec![4] },
        Generation { id: 20, data: vec![2] },
    ];
    let sorted = arrange(found).unwrap();
    assert_eq!(ids(&sorted), vec![10, 20, 30, 40]);
    for gen in &sorted {
        assert_eq!(gen.data, vec![(gen.id / 10) as u8]);
    }
    assert!(arrange(Vec::new()).unwrap().is_empty());
}

#[test]
fn generations_that_share_an_identifier_have_no_order() {
    let found = vec![
        Generation { id: 1, data: Vec::new() },
        Generation { id: 2, data: Vec::new() },
        Generation { id: 1, data: vec![0] },
    ];
    assert!(arrange(found).is_none());
}

#[test]
fn the_embedded_store_holds_strings_as_utf8() {
    assert_eq!(value_bytes("wért"), "wért".as_bytes().to_vec());
    assert_eq!(stored_value(None).unwrap(), None);
    assert_eq!(
        stored_value(Some("wért".as_bytes().to_vec())).unwrap(),
        Some(String::from("wért"))
    );
    assert!(matches!(stored_value(Some(vec![0xFF])), Err(KvsError::UnknownError)));
}

#[test]
fn the_embedded_store_cannot_remove_what_it_does_not_hold() {
    assert!(removal_result(Some(vec![1, 2])).is_ok());
    assert!(matches!(removal_result(None), Err(KvsError::BadRemovalError)));
}
