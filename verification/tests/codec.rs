use kvs::error::KvError;
use kvs::record::{decode_record, encode_record, Record};
use kvs::text::{str_eq, u64_to_dec};
use kvs::protocol::{
    decode_request, decode_response, encode_request, encode_response, ProtocolError, Request,
    Response,
};
use kvs::utils::get_serial_number;

#[test]
fn record_round_trip_put() {
    let rec = Record::Put {
        key: "albatross".to_string(),
        value: "bird".to_string(),
    };
    let enc = encode_record(&rec);
    assert_eq!(enc, "S9:albatross4:bird".to_string());
    let (back, next) = decode_record(enc.as_str(), 0).unwrap();
    assert_eq!(next, enc.len());
    match back {
        Record::Put { key, value } => {
            assert_eq!(key, "albatross".to_string());
            assert_eq!(value, "bird".to_string());
        }
        Record::Remove { .. } => panic!("decoded the wrong shape"),
    }
}

#[test]
fn record_round_trip_remove() {
    let rec = Record::Remove {
        key: "k".to_string(),
    };
    let enc = encode_record(&rec);
    assert_eq!(enc, "R1:k".to_string());
    let (back, next) = decode_record(enc.as_str(), 0).unwrap();
    assert_eq!(next, 4);
    assert!(matches!(back, Record::Remove { .. }));
}

#[test]
fn records_are_self_delimiting() {
    // two concatenated records decode one after the other
    let a = Record::Put {
        key: "k:1".to_string(),
        value: "v,2".to_string(),
    };
    let b = Record::Remove {
        key: "".to_string(),
    };
    let mut s = encode_record(&a);
    s.push_str(encode_record(&b).as_str());
    let (first, mid) = decode_record(s.as_str(), 0).unwrap();
    match first {
        Record::Put { key, value } => {
            assert_eq!(key, "k:1".to_string());
            assert_eq!(value, "v,2".to_string());
        }
        Record::Remove { .. } => panic!("decoded the wrong shape"),
    }
    let (second, end) = decode_record(s.as_str(), mid).unwrap();
    match second {
        Record::Remove { key } => assert_eq!(key, "".to_string()),
        Record::Put { .. } => panic!("decoded the wrong shape"),
    }
    assert_eq!(end, s.len());
}

#[test]
fn decode_rejects_malformed_input() {
    assert_eq!(decode_record("", 0).unwrap_err(), KvError::SerdeError);
    assert_eq!(decode_record("X1:a", 0).unwrap_err(), KvError::SerdeError);
    // length runs past the end of the input
    assert_eq!(decode_record("R9:ab", 0).unwrap_err(), KvError::SerdeError);
    // missing the colon after the length
    assert_eq!(decode_record("R2ab", 0).unwrap_err(), KvError::SerdeError);
    // a huge length never parses
    assert_eq!(
        decode_record("R99999999999999999999999:a", 0).unwrap_err(),
        KvError::SerdeError
    );
}

#[test]
fn decimal_rendering() {
    assert_eq!(u64_to_dec(0), "0".to_string());
    assert_eq!(u64_to_dec(7), "7".to_string());
    assert_eq!(u64_to_dec(1024), "1024".to_string());
    assert_eq!(u64_to_dec(u64::MAX), "18446744073709551615".to_string());
}

#[test]
fn string_equality() {
    assert!(str_eq("", ""));
    assert!(str_eq("abc", "abc"));
    assert!(!str_eq("abc", "abd"));
    assert!(!str_eq("abc", "ab"));
}

#[test]
fn serial_numbers_from_names() {
    assert_eq!(get_serial_number("42.passive").unwrap(), 42);
    assert_eq!(get_serial_number("007.passive").unwrap(), 7);
    assert_eq!(get_serial_number("9").unwrap(), 9);
    assert_eq!(
        get_serial_number("log.active").unwrap_err(),
        KvError::InvalidDatafileName
    );
    assert_eq!(
        get_serial_number(".passive").unwrap_err(),
        KvError::InvalidDatafileName
    );
    assert_eq!(
        get_serial_number("a42.passive").unwrap_err(),
        KvError::InvalidDatafileName
    );
    // value too large for a serial number
    assert_eq!(
        get_serial_number("99999999999999999999999.passive").unwrap_err(),
        KvError::InvalidDatafileName
    );
}

#[test]
fn request_round_trips() {
    let reqs = vec![
        Request::Get {
            key: "a".to_string(),
        },
        Request::Put {
            key: "a".to_string(),
            value: "1".to_string(),
        },
        Request::Rm {
            key: "gone".to_string(),
        },
    ];
    for req in reqs {
        let enc = encode_request(&req);
        let (back, next) = decode_request(enc.as_str(), 0).unwrap();
        assert_eq!(next, enc.len());
        match (req, back) {
            (Request::Get { key: a }, Request::Get { key: b }) => assert_eq!(a, b),
            (
                Request::Put { key: a, value: x },
                Request::Put { key: b, value: y },
            ) => {
                assert_eq!(a, b);
                assert_eq!(x, y);
            }
            (Request::Rm { key: a }, Request::Rm { key: b }) => assert_eq!(a, b),
            _ => panic!("decoded the wrong shape"),
        }
    }
}

#[test]
fn response_round_trips() {
    let resps = vec![
        Response::Success(Some("value".to_string())),
        Response::Success(None),
        Response::Failure("Key not found".to_string()),
    ];
    for resp in resps {
        let enc = encode_response(&resp);
        let (back, next) = decode_response(enc.as_str(), 0).unwrap();
        assert_eq!(next, enc.len());
        match (resp, back) {
            (Response::Success(a), Response::Success(b)) => assert_eq!(a, b),
            (Response::Failure(a), Response::Failure(b)) => assert_eq!(a, b),
            _ => panic!("decoded the wrong shape"),
        }
    }
    assert_eq!(
        decode_response("Q", 0).unwrap_err(),
        ProtocolError::SerdeError
    );
}
