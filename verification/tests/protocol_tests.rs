use kvs::client::{process_get_response, process_mutation_response};
use kvs::error::KvsError;
use kvs::kv::KvStore;
use kvs::net::{decode_request, decode_response, encode_request, encode_response, Request, Response};
use kvs::server::{handle_request, KvsServer};

fn text(v: &[char]) -> String {
    v.iter().collect()
}

/// One full exchange as the wire would carry it: the client encodes a
/// request, the server decodes it, runs it, and encodes a response,
/// which the client decodes.
fn exchange(server: &mut KvsServer<KvStore>, req: Request) -> Response {
    let msg = encode_request(&req);
    let decoded = decode_request(&msg).expect("the client sent a well-formed request");
    let resp = handle_request(&mut server.engine, decoded);
    let out = encode_response(&resp);
    decode_response(&out).expect("the server sent a well-formed response")
}

#[test]
fn request_encodings_are_exact() {
    let get = Request::Get { key: "a".to_owned() };
    assert_eq!(text(&encode_request(&get)), "G a\n");
    let put = Request::Put { key: "a".to_owned(), value: "1 2".to_owned() };
    assert_eq!(text(&encode_request(&put)), "S a 1\\s2\n");
    let rm = Request::Remove { key: "a".to_owned() };
    assert_eq!(text(&encode_request(&rm)), "R a\n");
}

#[test]
fn response_encodings_are_exact() {
    assert_eq!(text(&encode_response(&Response::Success(Some("v".to_owned())))), "V v\n");
    assert_eq!(text(&encode_response(&Response::Success(None))), "N \n");
    assert_eq!(text(&encode_response(&Response::Failure("Key not found".to_owned()))), "E Key\\snot\\sfound\n");
}

#[test]
fn decode_request_rejects_junk() {
    let junk: Vec<char> = "Q what\n".chars().collect();
    assert!(decode_request(&junk).is_none());
    let empty: Vec<char> = Vec::new();
    assert!(decode_request(&empty).is_none());
    let trailing: Vec<char> = "G a\nG b\n".chars().collect();
    assert!(decode_request(&trailing).is_none());
}

#[test]
fn decode_response_rejects_junk() {
    let junk: Vec<char> = "Z\n".chars().collect();
    assert!(decode_response(&junk).is_none());
    let padded: Vec<char> = "N x\n".chars().collect();
    assert!(decode_response(&padded).is_none());
}

#[test]
fn end_to_end_exchange() {
    let store = KvStore::open(Vec::new()).unwrap();
    let mut server = KvsServer::new(store);

    // set a=1: the server answers success
    let resp = exchange(&mut server, Request::Put { key: "a".to_owned(), value: "1".to_owned() });
    assert!(process_mutation_response(resp).is_ok());

    // get a: the server answers with the value
    let resp = exchange(&mut server, Request::Get { key: "a".to_owned() });
    assert_eq!(process_get_response(resp).unwrap(), Some("1".to_owned()));

    // remove a: success
    let resp = exchange(&mut server, Request::Remove { key: "a".to_owned() });
    assert!(process_mutation_response(resp).is_ok());

    // get a again: a success with no value; the caller prints
    // "Key not found" and exits 0
    let resp = exchange(&mut server, Request::Get { key: "a".to_owned() });
    assert_eq!(process_get_response(resp).unwrap(), None);

    // remove a again: the server relays "Key not found" as a failure,
    // which the caller treats as exit code 1
    let resp = exchange(&mut server, Request::Remove { key: "a".to_owned() });
    match process_mutation_response(resp) {
        Err(KvsError::StringError(m)) => assert_eq!(m, "Key not found"),
        other => panic!("expected a relayed failure, got {:?}", other),
    }
}

#[test]
fn mutation_response_with_value_is_a_mismatch() {
    let resp = Response::Success(Some("x".to_owned()));
    match process_mutation_response(resp) {
        Err(KvsError::UnexpectedCommandType) => {}
        other => panic!("expected UnexpectedCommandType, got {:?}", other),
    }
}

#[test]
fn error_messages() {
    assert_eq!(KvsError::KeyNotFound("k".to_owned()).message(), "Key not found");
    assert_eq!(KvsError::UnexpectedCommandType.message(), "Invalid command");
    assert_eq!(KvsError::Malformed(1, 2).message(), "Malformed command record");
    assert_eq!(KvsError::Full.message(), "Store size limit reached");
    assert_eq!(KvsError::StringError("oops".to_owned()).message(), "oops");
}
