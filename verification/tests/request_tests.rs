use bronzedb::ext::{ByteReader, MAX_KEY_LEN, MAX_VALUE_LEN};
use bronzedb::request::{max_key, min_key, Action, Request};
use bronzedb::status::{Error, StatusCode};
use bronzedb::types::Key;

fn transfer_move(request: Request) -> Result<(Request, usize), Error> {
    let mut buf = Vec::new();
    let bytes = request.write_to(&mut buf)?;
    assert_eq!(bytes, buf.len());
    let mut reader = ByteReader::new(&buf);
    let read = Request::read_from(&mut reader)?;
    assert_eq!(bytes, reader.position());
    Ok((read, bytes))
}

fn assert_delete(data: &[u8]) {
    let (new_request, bytes) = transfer_move(Request::Delete(data.to_vec().into())).unwrap();
    assert_eq!(data.len() + 3, bytes);
    assert!(matches!(&new_request, Request::Delete(_)));
    if let Request::Delete(ref key) = new_request {
        assert_eq!(data, key.as_slice());
    }
}

#[test]
fn delete_normal() {
    assert_delete(b"name");
}

#[test]
fn delete_zero() {
    assert_delete(&[0; 0]);
}

#[test]
fn delete_max_length() {
    assert_delete(&[0; MAX_KEY_LEN]);
}

#[test]
fn delete_overflow() {
    assert!(transfer_move(Request::Delete(vec![0; MAX_KEY_LEN + 1].into())).is_err());
}

fn assert_get(data: &[u8]) {
    let (new_request, bytes) = transfer_move(Request::Get(data.to_vec().into())).unwrap();
    assert_eq!(data.len() + 3, bytes);
    assert!(matches!(&new_request, Request::Get(_)));
    if let Request::Get(ref key) = new_request {
        assert_eq!(data, key.as_slice());
    }
}

#[test]
fn get_normal() {
    assert_get(b"name");
}

#[test]
fn get_zero() {
    assert_get(&[0; 0]);
}

#[test]
fn get_max_length() {
    assert_get(&[0; MAX_KEY_LEN]);
}

#[test]
fn get_overflow() {
    assert!(transfer_move(Request::Get(vec![0; MAX_KEY_LEN + 1].into())).is_err());
}

#[test]
fn just_ping() {
    let (new_request, bytes) = transfer_move(Request::Ping).unwrap();
    assert_eq!(1, bytes);
    assert!(matches!(new_request, Request::Ping));
}

#[test]
fn just_no_response() {
    let (new_request, bytes) = transfer_move(Request::NoResponse).unwrap();
    assert_eq!(1, bytes);
    assert!(matches!(new_request, Request::NoResponse));
}

fn assert_scan_none() {
    let (new_request, bytes) =
        transfer_move(Request::Scan { lower_bound: None, upper_bound: None }).unwrap();
    assert_eq!(1 + 4 + MAX_KEY_LEN * 2, bytes);
    assert!(matches!(&new_request, Request::Scan { lower_bound: _, upper_bound: _ }));
    if let Request::Scan { lower_bound, upper_bound } = new_request {
        assert!(matches!(lower_bound, None));
        assert!(matches!(upper_bound, None));
    }
}

fn assert_scan_both(lower: &[u8], upper: &[u8]) {
    let (new_request, bytes) = transfer_move(Request::Scan {
        lower_bound: Some(lower.to_vec().into()),
        upper_bound: Some(upper.to_vec().into()),
    })
    .unwrap();
    assert_eq!(1 + 4 + lower.len() + upper.len(), bytes);
    assert!(matches!(&new_request, Request::Scan { lower_bound: _, upper_bound: _ }));
    if let Request::Scan { lower_bound, upper_bound } = new_request {
        assert!(matches!(lower_bound, Some(_)));
        assert!(matches!(upper_bound, Some(_)));
        assert_eq!(lower, lower_bound.unwrap().as_slice());
        assert_eq!(upper, upper_bound.unwrap().as_slice());
    }
}

fn assert_scan_one(any_bound: &[u8]) {
    {
        let (new_request, bytes) = transfer_move(Request::Scan {
            lower_bound: Some(any_bound.to_vec().into()),
            upper_bound: None,
        })
        .unwrap();
        assert_eq!(1 + 4 + any_bound.len() + MAX_KEY_LEN, bytes);
        assert!(matches!(&new_request, Request::Scan { lower_bound: _, upper_bound: _ }));
        if let Request::Scan { lower_bound, upper_bound } = new_request {
            assert!(matches!(lower_bound, Some(_)));
            assert!(matches!(upper_bound, None));
            assert_eq!(any_bound, lower_bound.unwrap().as_slice());
        }
    }
    {
        let (new_request, bytes) = transfer_move(Request::Scan {
            lower_bound: None,
            upper_bound: Some(any_bound.to_vec().into()),
        })
        .unwrap();
        assert_eq!(1 + 4 + MAX_KEY_LEN + any_bound.len(), bytes);
        assert!(matches!(&new_request, Request::Scan { lower_bound: _, upper_bound: _ }));
        if let Request::Scan { lower_bound, upper_bound } = new_request {
            assert!(matches!(lower_bound, None));
            assert!(matches!(upper_bound, Some(_)));
            assert_eq!(any_bound, upper_bound.unwrap().as_slice());
        }
    }
}

#[test]
fn scan_with_two_bounds_normal() {
    assert_scan_both(b"last_name", b"name");
}

#[test]
fn scan_with_two_bounds_zero() {
    assert_scan_both(&[0; 0], &[0; 0]);
}

#[test]
fn scan_with_two_bounds_max_length() {
    assert_scan_both(&[1; MAX_KEY_LEN], &[u8::MAX - 1; MAX_KEY_LEN]);
}

#[test]
fn scan_with_two_bounds_max_range() {
    let (new_request, bytes) = transfer_move(Request::Scan {
        lower_bound: Some(vec![0; MAX_KEY_LEN].into()),
        upper_bound: Some(vec![u8::MAX; MAX_KEY_LEN].into()),
    })
    .unwrap();
    assert_eq!(1 + 4 + MAX_KEY_LEN * 2, bytes);
    assert!(matches!(new_request, Request::Scan { lower_bound: None, upper_bound: None }));
}

#[test]
fn scan_with_two_bounds_overflow() {
    assert!(transfer_move(Request::Scan {
        lower_bound: Some(vec![0; MAX_KEY_LEN + 1].into()),
        upper_bound: Some(vec![u8::MAX; MAX_KEY_LEN + 1].into()),
    })
    .is_err());
}

#[test]
fn scan_with_one_bound_normal() {
    assert_scan_one(b"last_name");
}

#[test]
fn scan_with_one_bound_zero() {
    assert_scan_one(&[0; 0]);
}

#[test]
fn scan_with_one_bound_max_length() {
    assert_scan_one(&[1; MAX_KEY_LEN]);
}

#[test]
fn scan_with_one_bound_min_lower_bound() {
    let (new_request, _) = transfer_move(Request::Scan {
        lower_bound: Some(vec![0; MAX_KEY_LEN].into()),
        upper_bound: None,
    })
    .unwrap();
    assert!(matches!(new_request, Request::Scan { lower_bound: None, upper_bound: None }));
    let (new_request, _) = transfer_move(Request::Scan {
        lower_bound: None,
        upper_bound: Some(vec![0; MAX_KEY_LEN].into()),
    })
    .unwrap();
    assert!(matches!(new_request, Request::Scan { lower_bound: None, upper_bound: Some(_) }));
}

#[test]
fn scan_with_one_bound_max_upper_bound() {
    let (new_request, _) = transfer_move(Request::Scan {
        lower_bound: Some(vec![u8::MAX; MAX_KEY_LEN].into()),
        upper_bound: None,
    })
    .unwrap();
    assert!(matches!(new_request, Request::Scan { lower_bound: Some(_), upper_bound: None }));
    let (new_request, _) = transfer_move(Request::Scan {
        lower_bound: None,
        upper_bound: Some(vec![u8::MAX; MAX_KEY_LEN].into()),
    })
    .unwrap();
    assert!(matches!(new_request, Request::Scan { lower_bound: None, upper_bound: None }));
}

#[test]
fn scan_with_one_bound_overflow() {
    assert!(transfer_move(Request::Scan {
        lower_bound: Some(vec![0; MAX_KEY_LEN + 1].into()),
        upper_bound: None,
    })
    .is_err());
    assert!(transfer_move(Request::Scan {
        lower_bound: None,
        upper_bound: Some(vec![0; MAX_KEY_LEN + 1].into()),
    })
    .is_err());
}

#[test]
fn scan_with_no_bound_normal() {
    assert_scan_none();
}

#[test]
fn sentinel_bound_reads_as_absent() {
    let (new_request, _) = transfer_move(Request::Scan {
        lower_bound: Some(min_key().into()),
        upper_bound: Some(max_key().into()),
    })
    .unwrap();
    assert!(matches!(new_request, Request::Scan { lower_bound: None, upper_bound: None }));
}

#[test]
fn sentinel_keys() {
    assert_eq!(vec![0u8; MAX_KEY_LEN], min_key());
    assert_eq!(vec![0xffu8; MAX_KEY_LEN], max_key());
}

fn assert_set(key: &[u8], value: &[u8]) {
    let (new_request, bytes) =
        transfer_move(Request::Put(key.to_vec().into(), value.to_vec())).unwrap();
    assert_eq!(5 + key.len() + value.len(), bytes);
    assert!(matches!(&new_request, Request::Put(_, _)));
    if let Request::Put(ref new_key, ref new_value) = new_request {
        assert_eq!(key, new_key.as_slice());
        assert_eq!(value, new_value.as_slice());
    }
}

#[test]
fn set_normal() {
    assert_set(b"name", b"hexi");
}

#[test]
fn set_zero() {
    assert_set(&[0; 0], &[0; 0]);
}

#[test]
fn set_max_length() {
    assert_set(&[0; MAX_KEY_LEN], &[0; MAX_VALUE_LEN]);
}

#[test]
fn set_key_overflow() {
    let request = Request::Put(vec![0; MAX_KEY_LEN + 1].into(), vec![0; MAX_VALUE_LEN]);
    assert!(transfer_move(request).is_err());
}

#[test]
fn set_value_overflow() {
    let request = Request::Put(vec![0; MAX_KEY_LEN].into(), vec![0; MAX_VALUE_LEN + 1]);
    assert!(transfer_move(request).is_err());
}

#[test]
fn overflow_is_an_error_and_writes_nothing() {
    let mut buf = vec![42u8];
    let error = Request::Put(vec![0; MAX_KEY_LEN].into(), vec![0; MAX_VALUE_LEN + 1])
        .write_to(&mut buf)
        .unwrap_err();
    assert_eq!(StatusCode::IOError, error.code);
    assert_eq!(vec![42u8], buf);
    let error = Request::Get(vec![0; MAX_KEY_LEN + 1].into()).write_to(&mut buf).unwrap_err();
    assert_eq!(StatusCode::IOError, error.code);
    assert_eq!(vec![42u8], buf);
}

#[test]
fn request_bytes_on_the_wire() {
    let mut buf = Vec::new();
    Request::Put(b"k".to_vec().into(), b"vw".to_vec()).write_to(&mut buf).unwrap();
    assert_eq!(vec![0, 0, 1, b'k', 0, 2, b'v', b'w'], buf);
    let mut buf = Vec::new();
    Request::Get(b"k".to_vec().into()).write_to(&mut buf).unwrap();
    assert_eq!(vec![1, 0, 1, b'k'], buf);
    let mut buf = Vec::new();
    Request::Delete(b"k".to_vec().into()).write_to(&mut buf).unwrap();
    assert_eq!(vec![2, 0, 1, b'k'], buf);
    let mut buf = Vec::new();
    let lower_bound = Some(Key::new(b"a".to_vec()));
    let upper_bound = Some(Key::new(b"b".to_vec()));
    Request::Scan { lower_bound, upper_bound }.write_to(&mut buf).unwrap();
    assert_eq!(vec![3, 0, 1, b'a', 0, 1, b'b'], buf);
    let mut buf = Vec::new();
    Request::Ping.write_to(&mut buf).unwrap();
    assert_eq!(vec![4], buf);
    let mut buf = Vec::new();
    Request::NoResponse.write_to(&mut buf).unwrap();
    assert_eq!(vec![5], buf);
}

#[test]
fn action_bytes() {
    assert_eq!(Action::Put, Action::from(0));
    assert_eq!(Action::Get, Action::from(1));
    assert_eq!(Action::Delete, Action::from(2));
    assert_eq!(Action::Scan, Action::from(3));
    assert_eq!(Action::Ping, Action::from(4));
    assert_eq!(Action::NoResponse, Action::from(5));
    for byte in 6..=255u8 {
        assert_eq!(Action::Unknown, Action::from(byte));
    }
    assert_eq!(255, Action::Unknown.to_u8());
    let known =
        [Action::Put, Action::Get, Action::Delete, Action::Scan, Action::Ping, Action::NoResponse];
    for action in known {
        assert_eq!(action, Action::from(action.to_u8()));
    }
}

#[test]
fn unknown_tag_reads_as_unknown() {
    let buf = vec![77u8, 1, 2, 3];
    let mut reader = ByteReader::new(&buf);
    assert!(matches!(Request::read_from(&mut reader).unwrap(), Request::Unknown));
    assert_eq!(1, reader.position());
}

#[test]
fn truncated_request_is_an_error() {
    let buf: Vec<u8> = Vec::new();
    let mut reader = ByteReader::new(&buf);
    let error = Request::read_from(&mut reader).unwrap_err();
    assert_eq!(StatusCode::IOError, error.code);
    assert!(reader.is_truncated());
    let buf = vec![0u8, 0, 1, b'k', 0, 2, b'v'];
    let mut reader = ByteReader::new(&buf);
    assert!(Request::read_from(&mut reader).is_err());
    assert!(reader.is_truncated());
}

#[test]
fn request_with_length_over_limit_is_an_error() {
    let mut buf = vec![1u8, 1, 1];
    buf.extend(vec![0u8; 257]);
    let mut reader = ByteReader::new(&buf);
    let error = Request::read_from(&mut reader).unwrap_err();
    assert_eq!(StatusCode::IOError, error.code);
    assert!(!reader.is_truncated());
}

#[test]
fn requests_are_read_one_after_the_other() {
    let mut buf = Vec::new();
    Request::Put(b"name".to_vec().into(), b"Hexi".to_vec()).write_to(&mut buf).unwrap();
    Request::Ping.write_to(&mut buf).unwrap();
    Request::Get(b"name".to_vec().into()).write_to(&mut buf).unwrap();
    let mut reader = ByteReader::new(&buf);
    assert!(matches!(Request::read_from(&mut reader).unwrap(), Request::Put(_, _)));
    assert!(matches!(Request::read_from(&mut reader).unwrap(), Request::Ping));
    assert!(matches!(Request::read_from(&mut reader).unwrap(), Request::Get(_)));
    assert_eq!(0, reader.available());
}
