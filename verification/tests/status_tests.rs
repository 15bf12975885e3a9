use bronzedb::status::{Error, StatusCode};

#[test]
fn status_bytes_decode() {
    assert_eq!(StatusCode::OK, StatusCode::from(0));
    assert_eq!(StatusCode::IOError, StatusCode::from(1));
    assert_eq!(StatusCode::UnknownAction, StatusCode::from(2));
    assert_eq!(StatusCode::EngineError, StatusCode::from(3));
    assert_eq!(StatusCode::NotFound, StatusCode::from(4));
    assert_eq!(StatusCode::Complete, StatusCode::from(5));
}

#[test]
fn unknown_status_bytes_decode_to_catch_all() {
    for byte in 6..=255u8 {
        assert_eq!(StatusCode::UnknownStatusCode, StatusCode::from(byte));
    }
}

#[test]
fn status_bytes_encode() {
    assert_eq!(0, StatusCode::OK.to_u8());
    assert_eq!(1, StatusCode::IOError.to_u8());
    assert_eq!(2, StatusCode::UnknownAction.to_u8());
    assert_eq!(3, StatusCode::EngineError.to_u8());
    assert_eq!(4, StatusCode::NotFound.to_u8());
    assert_eq!(5, StatusCode::Complete.to_u8());
    assert_eq!(255, StatusCode::UnknownStatusCode.to_u8());
}

#[test]
fn status_byte_round_trip() {
    for code in [
        StatusCode::OK,
        StatusCode::IOError,
        StatusCode::UnknownAction,
        StatusCode::EngineError,
        StatusCode::NotFound,
        StatusCode::Complete,
        StatusCode::UnknownStatusCode,
    ] {
        assert_eq!(code, StatusCode::from(code.to_u8()));
    }
}

#[test]
fn status_names() {
    assert_eq!("OK", StatusCode::OK.to_string());
    assert_eq!("IOError", StatusCode::IOError.to_string());
    assert_eq!("UnknownAction", StatusCode::UnknownAction.to_string());
    assert_eq!("EngineError", StatusCode::EngineError.to_string());
    assert_eq!("NotFound", StatusCode::NotFound.to_string());
    assert_eq!("Complete", StatusCode::Complete.to_string());
    assert_eq!("UnknownStatusCode", StatusCode::UnknownStatusCode.to_string());
}

#[test]
fn error_holds_code_and_message() {
    let error = Error::new(StatusCode::NotFound, "no such key");
    assert_eq!(StatusCode::NotFound, error.code);
    assert_eq!("no such key", error.message);
    assert_eq!("NotFound: no such key", error.to_string());
    let copy = error.clone();
    assert_eq!(error.code, copy.code);
    assert_eq!(error.message, copy.message);
}

#[test]
fn io_failure_becomes_io_error() {
    let failure = std::io::Error::new(std::io::ErrorKind::UnexpectedEof, "early end");
    let error = Error::from(failure);
    assert_eq!(StatusCode::IOError, error.code);
    assert_eq!("early end", error.message);
}

#[test]
fn poisoned_lock_becomes_engine_error() {
    let error = Error::from(std::sync::PoisonError::new(7u8));
    assert_eq!(StatusCode::EngineError, error.code);
    assert!(!error.message.is_empty());
}
