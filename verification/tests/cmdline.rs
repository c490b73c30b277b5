use kvs::cmdline::{parse_addr, parse_verbosity, socket_port};
use kvs::common::{
    check_engine, identify_env, select_engine, validate_env, EngineKind, ENGINE_IDENTITY_FILE,
};
use kvs::error::KvsError;
use kvs::thread::{pool_size, select_pool, PoolKind};

fn refusal(addr: &str) -> String {
    match parse_addr(addr) {
        Err(KvsError::BadAddressError(detail)) => detail,
        other => panic!("{:?} should be refused, got {:?}", addr, other),
    }
}

#[test]
fn an_address_is_a_host_a_colon_and_a_port() {
    assert_eq!(parse_addr("127.0.0.1:4000").unwrap(), (String::from("127.0.0.1"), 4000));
    assert_eq!(parse_addr("localhost:0").unwrap(), (String::from("localhost"), 0));
    assert_eq!(parse_addr("höst:65536").unwrap(), (String::from("höst"), 65536));
    assert_eq!(parse_addr(":80").unwrap(), (String::new(), 80));
}

#[test]
fn a_port_may_have_a_plus_sign_and_leading_zeros() {
    assert_eq!(parse_addr("h:+80").unwrap(), (String::from("h"), 80));
    assert_eq!(parse_addr("h:0000000000000080").unwrap(), (String::from("h"), 80));
    assert_eq!(parse_addr("h:4294967295").unwrap(), (String::from("h"), u32::MAX));
}

#[test]
fn an_address_without_exactly_one_colon_is_refused() {
    assert_eq!(refusal("localhost"), "Missing ':'");
    assert_eq!(refusal(""), "Missing ':'");
    assert_eq!(refusal("a:b:c"), "Missing ':'");
    assert_eq!(refusal("::1"), "Missing ':'");
    assert_eq!(refusal("[::1]:4000"), "Missing ':'");
}

#[test]
fn an_address_with_a_bad_port_is_refused() {
    assert_eq!(refusal("localhost:"), "Invalid port number");
    assert_eq!(refusal("localhost:+"), "Invalid port number");
    assert_eq!(refusal("localhost:-1"), "Invalid port number");
    assert_eq!(refusal("localhost:80a"), "Invalid port number");
    assert_eq!(refusal("localhost: 80"), "Invalid port number");
    assert_eq!(refusal("localhost:++80"), "Invalid port number");
    assert_eq!(refusal("localhost:4294967296"), "Invalid port number");
    assert_eq!(refusal("localhost:99999999999999999999999"), "Invalid port number");
    assert_eq!(refusal("localhost:٣"), "Invalid port number");
}

#[test]
fn the_port_is_what_the_standard_library_reads() {
    for port in ["0", "7", "+7", "007", "4000", "4294967295", "4294967296", "", "+", "-0", "1e3"] {
        let expected = port.parse::<u32>().ok();
        let got = parse_addr(&format!("host:{}", port)).ok().map(|(_, p)| p);
        assert_eq!(got, expected, "port {:?}", port);
    }
}

#[test]
fn the_verbosity_is_one_more_than_the_number_of_vs() {
    assert_eq!(parse_verbosity("").unwrap(), 1);
    assert_eq!(parse_verbosity("v").unwrap(), 2);
    assert_eq!(parse_verbosity("vvv").unwrap(), 4);
    assert_eq!(parse_verbosity("-vxvV").unwrap(), 3);
}

#[test]
fn each_error_has_its_message() {
    let text = String::from("detail");
    assert_eq!(KvsError::UnknownError.message(), "An unknown error occured");
    assert_eq!(KvsError::BadRemovalError.message(), "Key not found");
    assert_eq!(
        KvsError::EngineMismatchError.message(),
        "This engine type is incompatable with the current directory"
    );
    assert_eq!(
        KvsError::InternalError(text.clone()).message(),
        "An internal error occured: detail"
    );
    assert_eq!(
        KvsError::BadPathError(text.clone()).message(),
        "The initialization path must be a directory: detail"
    );
    assert_eq!(KvsError::BadAddressError(text.clone()).message(), "Bad address string: detail");
    assert_eq!(KvsError::IoError(text.clone()).message(), "An io error occured: detail");
    assert_eq!(
        KvsError::SerdeError(text.clone()).message(),
        "A serialization error occured: detail"
    );
    assert_eq!(KvsError::SledError(text).message(), "A sled error occured: detail");
}

#[test]
fn a_directory_without_marker_suits_every_engine() {
    assert!(validate_env(None, "kvs").unwrap());
    assert!(validate_env(None, "sled").unwrap());
    assert!(check_engine(None, "kvs").is_ok());
}

#[test]
fn a_marker_suits_the_engine_that_it_names() {
    assert!(validate_env(Some(b"kvs".to_vec()), "kvs").unwrap());
    assert!(!validate_env(Some(b"sled".to_vec()), "kvs").unwrap());
    assert!(!validate_env(Some(b"kvs\n".to_vec()), "kvs").unwrap());
    assert!(!validate_env(Some(Vec::new()), "kvs").unwrap());
    assert!(check_engine(Some(b"sled".to_vec()), "sled").is_ok());
    assert!(matches!(
        check_engine(Some(b"sled".to_vec()), "kvs"),
        Err(KvsError::EngineMismatchError)
    ));
}

#[test]
fn a_marker_that_is_not_utf8_is_an_internal_error() {
    match validate_env(Some(vec![0xFF, 0xFE]), "kvs") {
        Err(KvsError::InternalError(detail)) => assert_eq!(detail, "UTF decode error"),
        other => panic!("unexpected {:?}", other),
    }
    assert!(matches!(check_engine(Some(vec![0xC0]), "kvs"), Err(KvsError::InternalError(_))));
}

#[test]
fn the_marker_holds_the_name_of_the_engine() {
    assert_eq!(ENGINE_IDENTITY_FILE, ".engine");
    assert_eq!(identify_env("kvs"), b"kvs".to_vec());
    assert!(validate_env(Some(identify_env("sled")), "sled").unwrap());
}

#[test]
fn an_engine_is_selected_by_its_name() {
    assert_eq!(select_engine("kvs"), Some(EngineKind::Kvs));
    assert_eq!(select_engine("sled"), Some(EngineKind::Sled));
    assert_eq!(select_engine("KVS"), None);
    assert_eq!(select_engine(""), None);
}

#[test]
fn a_port_of_a_socket_fits_in_sixteen_bits() {
    assert_eq!(socket_port(0).unwrap(), 0);
    assert_eq!(socket_port(4000).unwrap(), 4000);
    assert_eq!(socket_port(65535).unwrap(), 65535);
    match socket_port(65536) {
        Err(KvsError::BadAddressError(detail)) => assert_eq!(detail, "Invalid port number"),
        other => panic!("unexpected {:?}", other),
    }
    assert!(socket_port(u32::MAX).is_err());
}

#[test]
fn a_pool_is_selected_by_its_name() {
    assert_eq!(select_pool("naive"), Some(PoolKind::Naive));
    assert_eq!(select_pool("shared"), Some(PoolKind::SharedQueue));
    assert_eq!(select_pool("rayon"), Some(PoolKind::Rayon));
    assert_eq!(select_pool("Rayon"), None);
    assert_eq!(select_pool(""), None);
}

#[test]
fn a_pool_that_keeps_its_threads_needs_at_least_one() {
    assert_eq!(pool_size(PoolKind::Naive, 0).unwrap(), 0);
    assert_eq!(pool_size(PoolKind::Naive, 8).unwrap(), 8);
    assert_eq!(pool_size(PoolKind::SharedQueue, 1).unwrap(), 1);
    assert_eq!(pool_size(PoolKind::Rayon, 4).unwrap(), 4);
    for kind in [PoolKind::SharedQueue, PoolKind::Rayon] {
        match pool_size(kind, 0) {
            Err(KvsError::InternalError(detail)) => {
                assert_eq!(detail, "a pool needs at least one thread")
            }
            other => panic!("unexpected {:?}", other),
        }
    }
}
