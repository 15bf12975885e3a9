use bronzedb::engine::{Engine, Scanner};
use bronzedb::engine_impl::EngineImpl;
use bronzedb::ext::ByteReader;
use bronzedb::request::Request;
use bronzedb::server::{
    answer_done, answer_get, answer_scan, deal_engine_err, dispatch, handle_client,
    handle_request, Server, Turn,
};
use bronzedb::status::{Error, StatusCode};
use bronzedb::types::{Entry, Key, Value};

fn key(text: &str) -> Key {
    Key::from(text.as_bytes().to_vec())
}

struct FixedScanner {
    items: Vec<Result<Entry, Error>>,
}

impl Scanner for FixedScanner {
    fn iter(&mut self) -> Vec<Result<Entry, Error>> {
        std::mem::take(&mut self.items)
    }
}

struct BrokenEngine;

impl Engine for BrokenEngine {
    type Scanner = FixedScanner;

    fn set(&mut self, _key: Key, _value: Value) -> Result<(), Error> {
        Err(Error::new(StatusCode::EngineError, "cannot set"))
    }

    fn get(&self, _key: Key) -> Result<Option<Value>, Error> {
        Err(Error::new(StatusCode::EngineError, "cannot get"))
    }

    fn delete(&mut self, _key: Key) -> Result<(), Error> {
        Err(Error::new(StatusCode::EngineError, "cannot delete"))
    }

    fn scan(&self, _lower: Option<Key>, _upper: Option<Key>) -> Result<FixedScanner, Error> {
        Err(Error::new(StatusCode::EngineError, "cannot scan"))
    }
}

#[test]
fn ping_is_answered_by_ok() {
    let mut engine = EngineImpl::new();
    let mut output = Vec::new();
    dispatch(Request::Ping, &mut engine, &mut output).unwrap();
    assert_eq!(vec![0u8], output);
}

#[test]
fn no_response_is_answered_by_nothing() {
    let mut engine = EngineImpl::new();
    let mut output = Vec::new();
    dispatch(Request::NoResponse, &mut engine, &mut output).unwrap();
    assert!(output.is_empty());
}

#[test]
fn unknown_is_answered_and_fails() {
    let mut engine = EngineImpl::new();
    let mut output = Vec::new();
    let error = dispatch(Request::Unknown, &mut engine, &mut output).unwrap_err();
    assert_eq!(StatusCode::UnknownAction, error.code);
    assert_eq!(vec![2u8], output);
}

#[test]
fn set_get_delete_get() {
    let mut engine = EngineImpl::new();
    let mut output = Vec::new();
    dispatch(Request::Put(key("name"), b"Hexi".to_vec()), &mut engine, &mut output).unwrap();
    assert_eq!(vec![0u8], output);
    output.clear();
    dispatch(Request::Get(key("name")), &mut engine, &mut output).unwrap();
    assert_eq!(vec![0, 0, 4, b'H', b'e', b'x', b'i'], output);
    output.clear();
    dispatch(Request::Delete(key("name")), &mut engine, &mut output).unwrap();
    assert_eq!(vec![0u8], output);
    output.clear();
    dispatch(Request::Get(key("name")), &mut engine, &mut output).unwrap();
    assert_eq!(vec![4u8], output);
}

#[test]
fn scan_is_answered_by_a_stream() {
    let mut engine = EngineImpl::new();
    for name in ["a", "b", "c", "d"] {
        engine.set(key(name), name.as_bytes().to_vec()).unwrap();
    }
    let mut output = vec![9u8];
    let request = Request::Scan { lower_bound: Some(key("b")), upper_bound: Some(key("c")) };
    dispatch(request, &mut engine, &mut output).unwrap();
    assert_eq!(
        vec![9, 0, 0, 0, 1, b'b', 0, 1, b'b', 0, 0, 1, b'c', 0, 1, b'c', 5],
        output
    );
}

#[test]
fn engine_failure_is_answered_before_it_is_handed_on() {
    let mut engine = BrokenEngine;
    for request in [
        Request::Get(key("k")),
        Request::Put(key("k"), b"v".to_vec()),
        Request::Delete(key("k")),
        Request::Scan { lower_bound: None, upper_bound: None },
    ] {
        let mut output = Vec::new();
        let error = dispatch(request, &mut engine, &mut output).unwrap_err();
        assert_eq!(StatusCode::EngineError, error.code);
        assert_eq!(vec![3u8], output);
    }
    let mut output = Vec::new();
    dispatch(Request::Ping, &mut engine, &mut output).unwrap();
    assert_eq!(vec![0u8], output);
}

#[test]
fn deal_engine_err_writes_status_on_error_only() {
    let mut output = Vec::new();
    assert_eq!(7, deal_engine_err(&mut output, Ok(7)).unwrap());
    assert!(output.is_empty());
    let failed: Result<u8, Error> = Err(Error::new(StatusCode::IOError, "disk"));
    let error = deal_engine_err(&mut output, failed).unwrap_err();
    assert_eq!(StatusCode::IOError, error.code);
    assert_eq!("disk", error.message);
    assert_eq!(vec![3u8], output);
}

#[test]
fn answers() {
    let mut output = Vec::new();
    answer_get(Ok(Some(b"v".to_vec())), &mut output).unwrap();
    answer_get(Ok(None), &mut output).unwrap();
    answer_done(Ok(()), &mut output).unwrap();
    assert_eq!(vec![0, 0, 1, b'v', 4, 0], output);
    output.clear();
    assert!(answer_get(Err(Error::new(StatusCode::EngineError, "x")), &mut output).is_err());
    assert!(answer_done(Err(Error::new(StatusCode::EngineError, "x")), &mut output).is_err());
    assert_eq!(vec![3, 3], output);
    output.clear();
    let error = answer_get(Ok(Some(vec![0u8; 4097])), &mut output).unwrap_err();
    assert_eq!(StatusCode::IOError, error.code);
    assert!(output.is_empty());
    let scanner = FixedScanner {
        items: vec![
            Ok((key("k"), b"v".to_vec())),
            Err(Error::new(StatusCode::EngineError, "mid-scan")),
        ],
    };
    let error = answer_scan(Ok(scanner), &mut output).unwrap_err();
    assert_eq!("mid-scan", error.message);
    assert_eq!(vec![0, 0, 0, 1, b'k', 0, 1, b'v', 3], output);
    output.clear();
    let failed: Result<FixedScanner, Error> = Err(Error::new(StatusCode::EngineError, "x"));
    assert!(answer_scan(failed, &mut output).is_err());
    assert_eq!(vec![3], output);
}

#[test]
fn turns_of_a_connection() {
    let mut input = Vec::new();
    Request::Put(key("name"), b"Hexi".to_vec()).write_to(&mut input).unwrap();
    Request::NoResponse.write_to(&mut input).unwrap();
    Request::Get(key("name")).write_to(&mut input).unwrap();
    Request::Delete(key("name")).write_to(&mut input).unwrap();
    Request::Get(key("name")).write_to(&mut input).unwrap();
    Request::Ping.write_to(&mut input).unwrap();
    input.extend_from_slice(&[1, 0]);
    let mut engine = EngineImpl::new();
    let mut reader = ByteReader::new(&input);
    let mut output = Vec::new();
    for _ in 0..6 {
        assert_eq!(Turn::Handled, handle_request(&mut reader, &mut engine, &mut output).unwrap());
    }
    let consumed = reader.position();
    assert_eq!(input.len() - 2, consumed);
    assert_eq!(Turn::EndOfInput, handle_request(&mut reader, &mut engine, &mut output).unwrap());
    assert_eq!(consumed, reader.position());
    assert_eq!(vec![0, 0, 0, 4, b'H', b'e', b'x', b'i', 0, 4, 0], output);
}

#[test]
fn a_connection_is_served_to_the_end_of_its_input() {
    let mut input = Vec::new();
    Request::Put(key("name"), b"Hexi".to_vec()).write_to(&mut input).unwrap();
    Request::NoResponse.write_to(&mut input).unwrap();
    Request::Get(key("name")).write_to(&mut input).unwrap();
    Request::Delete(key("name")).write_to(&mut input).unwrap();
    Request::Get(key("name")).write_to(&mut input).unwrap();
    Request::Ping.write_to(&mut input).unwrap();
    input.extend_from_slice(&[0, 0, 4, b'n']);
    let mut engine = EngineImpl::new();
    let mut reader = ByteReader::new(&input);
    let mut output = vec![77u8];
    handle_client(&mut reader, &mut engine, &mut output).unwrap();
    assert_eq!(input.len() - 4, reader.position());
    assert_eq!(vec![77, 0, 0, 0, 4, b'H', b'e', b'x', b'i', 0, 4, 0], output);
    assert_eq!(0, engine.len());
}

#[test]
fn serving_stops_at_the_first_failure() {
    let mut input = Vec::new();
    Request::Put(key("k"), b"v".to_vec()).write_to(&mut input).unwrap();
    input.push(200);
    Request::Put(key("l"), b"w".to_vec()).write_to(&mut input).unwrap();
    let mut engine = EngineImpl::new();
    let mut reader = ByteReader::new(&input);
    let mut output = Vec::new();
    let error = handle_client(&mut reader, &mut engine, &mut output).unwrap_err();
    assert_eq!(StatusCode::UnknownAction, error.code);
    assert_eq!("unknown action", error.message);
    assert_eq!(vec![0u8, 2], output);
    assert_eq!(1, engine.len());
    assert_eq!(None, engine.get(key("l")).unwrap());
}

#[test]
fn serving_an_empty_input_does_nothing() {
    let input: Vec<u8> = Vec::new();
    let mut engine = EngineImpl::new();
    let mut reader = ByteReader::new(&input);
    let mut output = Vec::new();
    handle_client(&mut reader, &mut engine, &mut output).unwrap();
    assert!(output.is_empty());
    assert_eq!(0, reader.position());
}

#[test]
fn serving_a_broken_engine_answers_engine_error_and_stops() {
    let mut input = Vec::new();
    Request::Ping.write_to(&mut input).unwrap();
    Request::Get(key("k")).write_to(&mut input).unwrap();
    Request::Ping.write_to(&mut input).unwrap();
    let mut engine = BrokenEngine;
    let mut reader = ByteReader::new(&input);
    let mut output = Vec::new();
    let error = handle_client(&mut reader, &mut engine, &mut output).unwrap_err();
    assert_eq!(StatusCode::EngineError, error.code);
    assert_eq!("cannot get", error.message);
    assert_eq!(vec![0u8, 3], output);
}

#[test]
fn end_of_input_at_once() {
    let input: Vec<u8> = Vec::new();
    let mut engine = EngineImpl::new();
    let mut reader = ByteReader::new(&input);
    let mut output = Vec::new();
    assert_eq!(Turn::EndOfInput, handle_request(&mut reader, &mut engine, &mut output).unwrap());
    assert!(output.is_empty());
}

#[test]
fn unknown_action_byte_closes_the_connection() {
    let input = vec![99u8, 4];
    let mut engine = EngineImpl::new();
    let mut reader = ByteReader::new(&input);
    let mut output = Vec::new();
    let error = handle_request(&mut reader, &mut engine, &mut output).unwrap_err();
    assert_eq!(StatusCode::UnknownAction, error.code);
    assert_eq!(vec![2u8], output);
    assert_eq!(1, reader.position());
}

#[test]
fn request_over_limit_fails_without_answer() {
    let mut input = vec![1u8, 1, 1];
    input.extend(vec![0u8; 257]);
    let mut engine = EngineImpl::new();
    let mut reader = ByteReader::new(&input);
    let mut output = Vec::new();
    let error = handle_request(&mut reader, &mut engine, &mut output).unwrap_err();
    assert_eq!(StatusCode::IOError, error.code);
    assert!(output.is_empty());
    let mut reader = ByteReader::new(&input);
    assert!(handle_client(&mut reader, &mut engine, &mut output).is_err());
    assert!(output.is_empty());
}

#[test]
fn server_holds_its_engine() {
    let mut server = Server::new(EngineImpl::new());
    let mut input = Vec::new();
    Request::Put(key("k"), b"v".to_vec()).write_to(&mut input).unwrap();
    let mut reader = ByteReader::new(&input);
    let mut output = Vec::new();
    server.handle(&mut reader, &mut output).unwrap();
    assert_eq!(input.len(), reader.position());
    assert_eq!(vec![0u8], output);
    assert_eq!(1, server.engine().len());
    assert_eq!(Some(b"v".to_vec()), server.into_engine().get(key("k")).unwrap());
}
