use kvs::client::{read_reply, report, request_payload};
use kvs::command::Command;
use kvs::engine::KvsEngine;
use kvs::error::KvsError;
use kvs::directory::DirectoryImage;
use kvs::kv::KvStore;
use kvs::net::{KvsRequest, KvsResponse};
use kvs::server::{handle_request, respond, response_to_get, response_to_remove, response_to_set};

fn t(text: &str) -> String {
    String::from(text)
}

fn store() -> KvStore {
    KvStore::open(DirectoryImage { path: t("data"), is_directory: true, generations: Vec::new() })
        .unwrap()
}

fn same_request(a: &KvsRequest, b: &KvsRequest) -> bool {
    format!("{:?}", a) == format!("{:?}", b)
}

fn same_response(a: &KvsResponse, b: &KvsResponse) -> bool {
    format!("{:?}", a) == format!("{:?}", b)
}

/// An engine whose disk has failed: every operation reports the failure.
struct Broken;

impl KvsEngine for Broken {
    fn get(&mut self, _key: String) -> Result<Option<String>, KvsError> {
        Err(KvsError::IoError(t("disk unplugged")))
    }

    fn set(&mut self, _key: String, _value: String) -> Result<(), KvsError> {
        Err(KvsError::IoError(t("disk unplugged")))
    }

    fn remove(&mut self, _key: String) -> Result<(), KvsError> {
        Err(KvsError::SledError(t("tree is gone")))
    }
}

#[test]
fn requests_have_the_documented_bytes() {
    assert_eq!(
        KvsRequest::Get { key: t("k") }.encode(),
        vec![0, 1, 0, 0, 0, 0, 0, 0, 0, b'k']
    );
    assert_eq!(
        KvsRequest::Put { key: t("k"), value: t("vw") }.encode(),
        vec![1, 1, 0, 0, 0, 0, 0, 0, 0, b'k', 2, 0, 0, 0, 0, 0, 0, 0, b'v', b'w']
    );
    assert_eq!(
        KvsRequest::Remove { key: t("") }.encode(),
        vec![2, 0, 0, 0, 0, 0, 0, 0, 0]
    );
}

#[test]
fn responses_have_the_documented_bytes() {
    assert_eq!(KvsResponse::Get { value: None }.encode(), vec![0, 0]);
    assert_eq!(
        KvsResponse::Get { value: Some(t("v")) }.encode(),
        vec![0, 1, 1, 0, 0, 0, 0, 0, 0, 0, b'v']
    );
    assert_eq!(KvsResponse::Put.encode(), vec![1]);
    assert_eq!(KvsResponse::Remove.encode(), vec![2]);
    assert_eq!(
        KvsResponse::Error { message: t("no") }.encode(),
        vec![3, 2, 0, 0, 0, 0, 0, 0, 0, b'n', b'o']
    );
}

#[test]
fn every_request_is_read_back_as_written() {
    let requests = vec![
        KvsRequest::Get { key: t("key") },
        KvsRequest::Get { key: t("") },
        KvsRequest::Put { key: t("ключ"), value: t("значение\n") },
        KvsRequest::Put { key: t(""), value: t("") },
        KvsRequest::Remove { key: t("key with spaces") },
    ];
    for request in requests {
        let decoded = KvsRequest::decode(&request.encode()).unwrap();
        assert!(same_request(&decoded, &request));
    }
}

#[test]
fn every_response_is_read_back_as_written() {
    let responses = vec![
        KvsResponse::Get { value: None },
        KvsResponse::Get { value: Some(t("")) },
        KvsResponse::Get { value: Some(t("värde")) },
        KvsResponse::Put,
        KvsResponse::Remove,
        KvsResponse::Error { message: t("Key not found") },
    ];
    for response in responses {
        let decoded = KvsResponse::decode(&response.encode()).unwrap();
        assert!(same_response(&decoded, &response));
    }
}

#[test]
fn a_payload_that_is_no_request_is_refused() {
    assert!(KvsRequest::decode(&[]).is_none());
    assert!(KvsRequest::decode(&[3, 0, 0, 0, 0, 0, 0, 0, 0]).is_none());
    assert!(KvsRequest::decode(&[0]).is_none());
    // A `Put` without value, and a `Get` with a byte too many.
    assert!(KvsRequest::decode(&[1, 1, 0, 0, 0, 0, 0, 0, 0, b'k']).is_none());
    assert!(KvsRequest::decode(&[0, 1, 0, 0, 0, 0, 0, 0, 0, b'k', 0]).is_none());
    // A key that is not UTF-8.
    assert!(KvsRequest::decode(&[2, 1, 0, 0, 0, 0, 0, 0, 0, 0xFF]).is_none());
}

#[test]
fn a_payload_that_is_no_response_is_refused() {
    assert!(KvsResponse::decode(&[]).is_none());
    assert!(KvsResponse::decode(&[0]).is_none());
    assert!(KvsResponse::decode(&[0, 2]).is_none());
    assert!(KvsResponse::decode(&[0, 0, 0]).is_none());
    assert!(KvsResponse::decode(&[1, 0]).is_none());
    assert!(KvsResponse::decode(&[2, 2]).is_none());
    assert!(KvsResponse::decode(&[3]).is_none());
    assert!(KvsResponse::decode(&[4]).is_none());
    assert!(matches!(read_reply(&[4]), Err(KvsError::SerdeError(_))));
}

#[test]
fn the_client_reads_the_reply_that_the_server_wrote() {
    let bytes = KvsResponse::Get { value: Some(t("bar")) }.encode();
    let response = read_reply(&bytes).unwrap();
    assert!(same_response(&response, &KvsResponse::Get { value: Some(t("bar")) }));
    let request = KvsRequest::Remove { key: t("foo") };
    assert_eq!(request_payload(&request), request.encode());
}

#[test]
fn a_result_of_the_engine_becomes_a_response() {
    assert!(same_response(
        &response_to_get(Ok(Some(t("v")))),
        &KvsResponse::Get { value: Some(t("v")) }
    ));
    assert!(same_response(&response_to_get(Ok(None)), &KvsResponse::Get { value: None }));
    assert!(same_response(
        &response_to_get(Err(KvsError::UnknownError)),
        &KvsResponse::Error { message: t("An unknown error occured") }
    ));
    assert!(same_response(&response_to_set(Ok(())), &KvsResponse::Put));
    assert!(same_response(
        &response_to_set(Err(KvsError::IoError(t("disk full")))),
        &KvsResponse::Error { message: t("An io error occured: disk full") }
    ));
    assert!(same_response(&response_to_remove(Ok(())), &KvsResponse::Remove));
    assert!(same_response(
        &response_to_remove(Err(KvsError::BadRemovalError)),
        &KvsResponse::Error { message: t("Key not found") }
    ));
}

#[test]
fn an_error_of_the_engine_becomes_an_error_response() {
    let mut engine = Broken;
    assert!(same_response(
        &respond(&mut engine, KvsRequest::Get { key: t("k") }),
        &KvsResponse::Error { message: t("An io error occured: disk unplugged") }
    ));
    assert!(same_response(
        &respond(&mut engine, KvsRequest::Put { key: t("k"), value: t("v") }),
        &KvsResponse::Error { message: t("An io error occured: disk unplugged") }
    ));
    assert!(same_response(
        &respond(&mut engine, KvsRequest::Remove { key: t("k") }),
        &KvsResponse::Error { message: t("A sled error occured: tree is gone") }
    ));
}

#[test]
fn a_malformed_request_gets_no_reply_and_changes_nothing() {
    let mut engine = store();
    engine.set(t("foo"), t("bar")).unwrap();
    let before = engine.image();
    assert!(handle_request(&mut engine, &[9, 9, 9]).is_none());
    assert!(handle_request(&mut engine, &[]).is_none());
    assert_eq!(engine.image().len(), before.len());
    assert_eq!(engine.image()[0].data, before[0].data);
    assert_eq!(engine.get(t("foo")).unwrap(), Some(t("bar")));
}

#[test]
fn a_client_and_a_server_go_through_set_get_and_remove() {
    let mut engine = store();
    let exchange = |engine: &mut KvStore, request: KvsRequest| {
        let reply = handle_request(engine, &request_payload(&request)).unwrap();
        read_reply(&reply).unwrap()
    };

    let response = exchange(&mut engine, KvsRequest::Put { key: t("foo"), value: t("bar") });
    assert!(same_response(&response, &KvsResponse::Put));
    let image = engine.image();
    assert_eq!(image.len(), 1);
    assert_eq!(image[0].data, Command::Put { key: t("foo"), value: t("bar") }.encode());
    let told = report(response);
    assert_eq!((told.output, told.error, told.exit_code), (None, None, 0));

    let response = exchange(&mut engine, KvsRequest::Get { key: t("foo") });
    assert!(same_response(&response, &KvsResponse::Get { value: Some(t("bar")) }));
    let told = report(response);
    assert_eq!((told.output, told.error, told.exit_code), (Some(t("bar")), None, 0));

    let response = exchange(&mut engine, KvsRequest::Remove { key: t("foo") });
    assert!(same_response(&response, &KvsResponse::Remove));
    let told = report(response);
    assert_eq!((told.output, told.error, told.exit_code), (None, None, 0));

    let response = exchange(&mut engine, KvsRequest::Get { key: t("foo") });
    assert!(same_response(&response, &KvsResponse::Get { value: None }));
    let told = report(response);
    assert_eq!((told.output, told.error, told.exit_code), (Some(t("Key not found")), None, 0));

    let response = exchange(&mut engine, KvsRequest::Remove { key: t("foo") });
    assert!(same_response(&response, &KvsResponse::Error { message: t("Key not found") }));
    let told = report(response);
    assert_eq!((told.output, told.error, told.exit_code), (None, Some(t("Key not found")), 1));
}
