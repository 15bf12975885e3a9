use bronzedb::ext::{ByteReader, MAX_KEY_LEN, MAX_VALUE_LEN};
use bronzedb::request::Action;
use bronzedb::response::{read_stream, ReaderIter, Response};
use bronzedb::status::{Error, StatusCode};
use bronzedb::types::Entry;

fn transfer_move(origin_resp: Response, size: usize, action: Action) -> Response {
    let mut buffer = Vec::new();
    assert_eq!(size, origin_resp.write_to(&mut buffer).unwrap());
    assert_eq!(size, buffer.len());
    let mut reader = ByteReader::new(&buffer);
    let new_resp = Response::read_from(&mut reader, action).unwrap();
    assert_eq!(size, reader.position());
    new_resp
}

fn transfer_err(origin_resp: Response, action: Action) -> Response {
    let mut buffer = Vec::new();
    assert!(matches!(origin_resp.write_to(&mut buffer), Err(_)));
    let mut reader = ByteReader::new(&buffer);
    Response::read_from(&mut reader, action).unwrap()
}

fn assert_status_not_ok(status: StatusCode) {
    let new_resp = transfer_move(Response::Status(status), 1usize, Action::Get);
    assert!(matches!(new_resp, Response::Status(_)));
    if let Response::Status(new_status) = new_resp {
        assert_eq!(status, new_status);
    }
}

#[test]
fn status_not_ok_io_error() {
    assert_status_not_ok(StatusCode::IOError);
}

#[test]
fn status_not_ok_unknown_action() {
    assert_status_not_ok(StatusCode::UnknownAction);
}

#[test]
fn status_not_ok_engine_error() {
    assert_status_not_ok(StatusCode::EngineError);
}

#[test]
fn status_not_ok_not_found() {
    assert_status_not_ok(StatusCode::NotFound);
}

#[test]
fn status_not_ok_unknown_status() {
    assert_status_not_ok(StatusCode::UnknownStatusCode);
    let buffer = vec![200u8];
    let mut reader = ByteReader::new(&buffer);
    let response = Response::read_from(&mut reader, Action::Scan).unwrap();
    assert!(matches!(response, Response::Status(StatusCode::UnknownStatusCode)));
}

#[test]
fn response_set_ok() {
    let new_resp = transfer_move(Response::Status(StatusCode::OK), 1usize, Action::Put);
    assert!(matches!(new_resp, Response::Status(_)));
    if let Response::Status(code) = new_resp {
        assert_eq!(StatusCode::OK, code);
    }
}

#[test]
fn response_delete_ok() {
    let new_resp = transfer_move(Response::Status(StatusCode::OK), 1usize, Action::Delete);
    assert!(matches!(new_resp, Response::Status(_)));
    if let Response::Status(code) = new_resp {
        assert_eq!(StatusCode::OK, code);
    }
}

#[test]
fn response_ping_ok() {
    let new_resp = transfer_move(Response::Status(StatusCode::OK), 1usize, Action::Ping);
    assert!(matches!(new_resp, Response::Status(StatusCode::OK)));
}

fn assert_get_ok(value: &[u8]) {
    let new_resp =
        transfer_move(Response::SingleValue(value.to_vec()), value.len() + 3, Action::Get);
    assert!(matches!(new_resp, Response::SingleValue(_)));
    if let Response::SingleValue(new_value) = new_resp {
        assert_eq!(value, new_value.as_slice());
    }
}

#[test]
fn get_ok_normal() {
    assert_get_ok(b"Hexi");
}

#[test]
fn get_ok_zero() {
    assert_get_ok(&[0; 0]);
}

#[test]
fn get_ok_max_length() {
    assert_get_ok(&[0; MAX_VALUE_LEN]);
}

#[test]
fn get_ok_overflow() {
    let mut buffer = Vec::new();
    assert!(Response::SingleValue(vec![0; MAX_VALUE_LEN + 1]).write_to(&mut buffer).is_err());
}

#[test]
fn single_value_overflow_writes_nothing() {
    let mut buffer = vec![8u8];
    let error =
        Response::SingleValue(vec![0; MAX_VALUE_LEN + 1]).write_to(&mut buffer).unwrap_err();
    assert_eq!(StatusCode::IOError, error.code);
    assert_eq!(vec![8u8], buffer);
}

#[test]
fn response_scan_ok() {
    let origin_data: Vec<Entry> = vec![
        (b"name"[..].to_vec().into(), b"Hexi"[..].into()),
        (b""[..].to_vec().into(), b""[..].into()),
        ([0; MAX_KEY_LEN][..].to_vec().into(), [0; MAX_VALUE_LEN][..].into()),
    ];

    let new_resp = transfer_move(
        Response::Scanner(origin_data.iter().map(|entry| Ok(entry.clone())).collect()),
        2 + origin_data.len() * 5
            + origin_data.iter().fold(0, |size, (key, value)| size + key.len() + value.len()),
        Action::Scan,
    );
    assert!(matches!(new_resp, Response::Scanner(_)));
    if let Response::Scanner(iter) = new_resp {
        let transferred_data =
            iter.into_iter().map(|ret| ret.unwrap()).collect::<Vec<Entry>>();
        assert_eq!(origin_data, transferred_data);
    }
}

#[test]
fn response_scan_err() {
    let origin_data: Vec<Result<Entry, Error>> = vec![
        Ok((b"name"[..].to_vec().into(), b"Hexi"[..].into())),
        Err(Error::new(StatusCode::IOError, "Some IO Error")),
        Ok((b"last_name"[..].to_vec().into(), b"Lee"[..].into())),
    ];

    let new_resp = transfer_err(Response::Scanner(origin_data.clone()), Action::Scan);
    assert!(matches!(new_resp, Response::Scanner(_)));
    if let Response::Scanner(items) = new_resp {
        let mut iter = items.into_iter();
        assert_eq!(origin_data[0].as_ref().unwrap(), &iter.next().unwrap().unwrap());
        assert!(matches!(iter.next().unwrap(), Err(_)));
        assert!(matches!(iter.next(), None));
    }
}

#[test]
fn scan_error_is_written_and_handed_back() {
    let items: Vec<Result<Entry, Error>> = vec![
        Ok((b"k".to_vec().into(), b"v".to_vec())),
        Err(Error::new(StatusCode::EngineError, "broken")),
        Ok((b"l".to_vec().into(), b"w".to_vec())),
    ];
    let mut buffer = Vec::new();
    let error = Response::Scanner(items).write_to(&mut buffer).unwrap_err();
    assert_eq!(StatusCode::EngineError, error.code);
    assert_eq!("broken", error.message);
    assert_eq!(vec![0, 0, 0, 1, b'k', 0, 1, b'v', 3], buffer);
    let mut reader = ByteReader::new(&buffer);
    let response = Response::read_from(&mut reader, Action::Scan).unwrap();
    if let Response::Scanner(read) = response {
        assert_eq!(2, read.len());
        assert_eq!(StatusCode::EngineError, read[1].as_ref().unwrap_err().code);
    } else {
        panic!("a scan is answered by a stream");
    }
    assert_eq!(buffer.len(), reader.position());
}

#[test]
fn scan_entry_over_limit_ends_the_stream() {
    let items: Vec<Result<Entry, Error>> = vec![
        Ok((b"k".to_vec().into(), b"v".to_vec())),
        Ok((vec![0u8; MAX_KEY_LEN + 1].into(), b"v".to_vec())),
    ];
    let mut buffer = Vec::new();
    let error = Response::Scanner(items).write_to(&mut buffer).unwrap_err();
    assert_eq!(StatusCode::IOError, error.code);
    assert_eq!(vec![0, 0, 0, 1, b'k', 0, 1, b'v', 1], buffer);
}

#[test]
fn empty_scan_is_ok_then_complete() {
    let mut buffer = Vec::new();
    assert_eq!(2, Response::Scanner(Vec::new()).write_to(&mut buffer).unwrap());
    assert_eq!(vec![0, 5], buffer);
    let mut reader = ByteReader::new(&buffer);
    let response = Response::read_from(&mut reader, Action::Scan).unwrap();
    assert!(matches!(response, Response::Scanner(ref items) if items.is_empty()));
}

#[test]
fn response_bytes_on_the_wire() {
    let mut buffer = Vec::new();
    assert_eq!(1, Response::Status(StatusCode::NotFound).write_to(&mut buffer).unwrap());
    assert_eq!(4, Response::SingleValue(vec![7]).write_to(&mut buffer).unwrap());
    assert_eq!(vec![4, 0, 0, 1, 7], buffer);
}

#[test]
fn ok_to_unknown_action_is_an_error() {
    let buffer = vec![0u8];
    let mut reader = ByteReader::new(&buffer);
    let error = Response::read_from(&mut reader, Action::Unknown).unwrap_err();
    assert_eq!(StatusCode::UnknownAction, error.code);
    let buffer = vec![1u8];
    let mut reader = ByteReader::new(&buffer);
    assert!(matches!(
        Response::read_from(&mut reader, Action::Unknown).unwrap(),
        Response::Status(StatusCode::IOError)
    ));
}

#[test]
fn truncated_response_is_an_error() {
    let buffer: Vec<u8> = Vec::new();
    let mut reader = ByteReader::new(&buffer);
    let error = Response::read_from(&mut reader, Action::Ping).unwrap_err();
    assert_eq!(StatusCode::IOError, error.code);
    assert!(reader.is_truncated());
    let buffer = vec![0u8, 0, 4, 1];
    let mut reader = ByteReader::new(&buffer);
    assert!(Response::read_from(&mut reader, Action::Get).is_err());
    assert!(reader.is_truncated());
}

#[test]
fn truncated_stream_ends_in_a_failure() {
    let buffer = vec![0u8, 0, 1, b'k', 0, 1, b'v', 0, 0, 1];
    let mut reader = ByteReader::new(&buffer);
    let items = read_stream(&mut reader);
    assert_eq!(2, items.len());
    assert_eq!(&(b"k".to_vec().into(), b"v".to_vec()), items[0].as_ref().unwrap());
    assert_eq!(StatusCode::IOError, items[1].as_ref().unwrap_err().code);
    assert!(reader.is_truncated());
}

#[test]
fn reader_iter_stops_for_good() {
    let buffer = vec![0u8, 0, 1, b'k', 0, 1, b'v', 5, 0, 0, 0, 0, 0];
    let mut reader = ByteReader::new(&buffer);
    let mut iter = ReaderIter::new();
    assert!(matches!(iter.next(&mut reader), Some(Ok(_))));
    assert!(matches!(iter.next(&mut reader), None));
    assert_eq!(8, reader.position());
    assert!(matches!(iter.next(&mut reader), None));
    assert_eq!(8, reader.position());
    let buffer = vec![3u8, 0, 0, 0, 0, 0];
    let mut reader = ByteReader::new(&buffer);
    let mut iter = ReaderIter::new();
    assert!(matches!(iter.next(&mut reader), Some(Err(_))));
    assert!(matches!(iter.next(&mut reader), None));
    assert_eq!(1, reader.position());
}

#[test]
fn read_entry_reports_the_end_as_complete() {
    let buffer = vec![5u8];
    let mut reader = ByteReader::new(&buffer);
    let mut iter = ReaderIter::new();
    let error = iter.read_entry(&mut reader).unwrap_err();
    assert_eq!(StatusCode::Complete, error.code);
    let buffer = vec![0u8, 0, 0, 0, 0];
    let mut reader = ByteReader::new(&buffer);
    let mut iter = ReaderIter::new();
    let entry = iter.read_entry(&mut reader).unwrap();
    assert_eq!(0, entry.0.len());
    assert!(entry.1.is_empty());
}
