use kvs::client::{get_outcome, rm_outcome, set_outcome};
use kvs::error::KvError;
use kvs::kv_store::KvStore;
use kvs::location::{DataFile, FileType, Location};
use kvs::log::DirEntry;
use kvs::log::Log;
use kvs::logpointer::DataFile as PointerFile;
use kvs::logpointer::LogPointer;
use kvs::protocol::{Request, Response};
use kvs::server::{current_engine, handle_request, process_engine_file, Engine, MarkerAction};
use kvs::wait_group::WaitGroup;

fn open_empty() -> KvStore {
    let entries: Vec<DirEntry> = Vec::new();
    KvStore::open(&entries).unwrap()
}

#[test]
fn dispatch_get_set_rm() {
    let mut store = open_empty();
    let resp = handle_request(
        &mut store,
        Request::Get {
            key: "a".to_string(),
        },
    );
    assert!(matches!(resp, Response::Success(None)));
    let resp = handle_request(
        &mut store,
        Request::Put {
            key: "a".to_string(),
            value: "1".to_string(),
        },
    );
    assert!(matches!(resp, Response::Success(None)));
    let resp = handle_request(
        &mut store,
        Request::Get {
            key: "a".to_string(),
        },
    );
    match resp {
        Response::Success(Some(v)) => assert_eq!(v, "1".to_string()),
        _ => panic!("wrong response"),
    }
    let resp = handle_request(
        &mut store,
        Request::Rm {
            key: "a".to_string(),
        },
    );
    assert!(matches!(resp, Response::Success(None)));
}

#[test]
fn dispatch_rm_missing_reports_sentinel() {
    // the server answers a remove of a missing key with the distinguished
    // message, and the client exits 1 printing it on stderr
    let mut store = open_empty();
    let resp = handle_request(
        &mut store,
        Request::Rm {
            key: "missing".to_string(),
        },
    );
    match &resp {
        Response::Failure(m) => assert_eq!(m, &"Key not found".to_string()),
        _ => panic!("expected a failure response"),
    }
    let outcome = rm_outcome(resp);
    assert_eq!(outcome.exit_code, 1);
    assert_eq!(outcome.stdout, None);
    assert_eq!(outcome.stderr, Some("Key not found".to_string()));
}

#[test]
fn client_get_outcomes() {
    let hit = get_outcome(Response::Success(Some("v".to_string())));
    assert_eq!(hit.exit_code, 0);
    assert_eq!(hit.stdout, Some("v".to_string()));
    assert_eq!(hit.stderr, None);
    // an absent key prints the sentinel on stdout and still exits 0
    let miss = get_outcome(Response::Success(None));
    assert_eq!(miss.exit_code, 0);
    assert_eq!(miss.stdout, Some("Key not found".to_string()));
    let err = get_outcome(Response::Failure("boom".to_string()));
    assert_eq!(err.exit_code, -1);
    assert_eq!(err.stderr, Some("boom".to_string()));
}

#[test]
fn client_set_and_rm_outcomes() {
    assert_eq!(set_outcome(Response::Success(None)).exit_code, 0);
    assert_eq!(
        set_outcome(Response::Failure("boom".to_string())).exit_code,
        -2
    );
    assert_eq!(rm_outcome(Response::Success(None)).exit_code, 0);
    assert_eq!(
        rm_outcome(Response::Failure("boom".to_string())).exit_code,
        -3
    );
}

#[test]
fn engine_marker_gate() {
    // a fresh directory gets a marker naming the chosen engine
    match process_engine_file(&None, Engine::Kvs) {
        MarkerAction::Write(c) => assert_eq!(c, "kvs".to_string()),
        _ => panic!("expected a marker write"),
    }
    // the same engine proceeds
    assert!(matches!(
        process_engine_file(&Some("kvs".to_string()), Engine::Kvs),
        MarkerAction::Proceed
    ));
    // a directory owned by the other engine is refused
    assert!(matches!(
        process_engine_file(&Some("kvs".to_string()), Engine::Sled),
        MarkerAction::Refuse
    ));
    assert!(matches!(
        process_engine_file(&Some("sled".to_string()), Engine::Kvs),
        MarkerAction::Refuse
    ));
    // an unreadable marker is refused too
    assert!(matches!(
        process_engine_file(&Some("other".to_string()), Engine::Kvs),
        MarkerAction::Refuse
    ));
}

#[test]
fn engine_names_parse() {
    assert_eq!(Engine::parse("kvs"), Some(Engine::Kvs));
    assert_eq!(Engine::parse("sled"), Some(Engine::Sled));
    assert_eq!(Engine::parse("Sled"), None);
    assert_eq!(current_engine(&Some("sled".to_string())), Some(Engine::Sled));
    assert_eq!(current_engine(&None), None);
    assert_eq!(Engine::Kvs.name(), "kvs".to_string());
    assert_eq!(Engine::Sled.name(), "sled".to_string());
}

#[test]
fn error_messages() {
    assert_eq!(KvError::KeyNotFound.message(), "Key not found".to_string());
    assert_eq!(KvError::SerdeError.message(), "Serde Error".to_string());
    assert_eq!(
        KvError::StorageFileError.message(),
        "Storage File Error".to_string()
    );
    assert_eq!(
        KvError::UnexpectedCommand.message(),
        "Unexpected command".to_string()
    );
    assert_eq!(
        KvError::InvalidDatafileName.message(),
        "Invalid name of datafile".to_string()
    );
    assert_eq!(
        KvError::EncodingError.message(),
        "Encoding error".to_string()
    );
}

#[test]
fn wait_group_counting() {
    let mut wg = WaitGroup::new();
    wg.wait(); // a fresh group is immediately done
    wg.increment_counter();
    wg.increment_counter();
    wg.done();
    wg.done();
    wg.done(); // draining an already drained group is harmless
    wg.wait();
    assert!(wg.notify_if_empty(0));
    assert!(!wg.notify_if_empty(3));
}

#[test]
fn file_classification() {
    assert_eq!(FileType::new("log.active"), FileType::ACTIVE);
    assert_eq!(FileType::new("12.passive"), FileType::PASSIVE);
    let loc = Location::new(77, "3.passive");
    assert_eq!(loc.offset, 77);
    assert_eq!(loc.file.file_type, FileType::PASSIVE);
    assert_eq!(loc.file.serial_number(), Some(3));
    let active = DataFile {
        file_type: FileType::ACTIVE,
        path: "log.active".to_string(),
    };
    assert_eq!(active.serial_number(), None);
    let bad = DataFile {
        file_type: FileType::PASSIVE,
        path: "weird.passive".to_string(),
    };
    assert_eq!(bad.serial_number(), None);
}

#[test]
fn log_pointers_from_names() {
    let p = LogPointer::new(5, "log.active").unwrap();
    assert_eq!(p.offset, 5);
    assert_eq!(p.file, PointerFile::Active);
    let p = LogPointer::new(9, "4.passive").unwrap();
    assert_eq!(p.file, PointerFile::Passive(4));
    assert_eq!(
        LogPointer::new(0, "junk").unwrap_err(),
        KvError::InvalidDatafileName
    );
}

#[test]
fn log_rotation_and_paths() {
    let entries: Vec<DirEntry> = Vec::new();
    let log = Log::open(&entries);
    assert_eq!(log.last_serial_number, 0);
    assert_eq!(log.passive_path(12), "12.passive".to_string());
    let mut log = log;
    // rotating an empty active file is a no-op and spends no serial number
    log.dump();
    assert_eq!(log.last_serial_number, 0);
    assert_eq!(log.passives.len(), 0);
    let rec = kvs::record::Record::Put {
        key: "k".to_string(),
        value: "v".to_string(),
    };
    let ptr = log.set_record(&rec);
    assert_eq!(ptr.offset, 0);
    log.dump();
    assert_eq!(log.last_serial_number, 1);
    assert_eq!(log.passives.len(), 1);
    assert_eq!(log.active, String::new());
}

#[test]
fn open_orders_passives_by_serial() {
    let one = encode(&kvs::record::Record::Put {
        key: "a".to_string(),
        value: "old".to_string(),
    });
    let two = encode(&kvs::record::Record::Put {
        key: "a".to_string(),
        value: "new".to_string(),
    });
    // handed out of order, the log still replays serial 1 before serial 2
    let entries = vec![
        DirEntry {
            name: "2.passive".to_string(),
            content: two,
        },
        DirEntry {
            name: "1.passive".to_string(),
            content: one,
        },
    ];
    let log = Log::open(&entries);
    assert_eq!(log.last_serial_number, 2);
    assert_eq!(log.passives[0].serial, 1);
    assert_eq!(log.passives[1].serial, 2);
    let store = KvStore::open(&entries).unwrap();
    assert_eq!(store.get(&"a".to_string()).unwrap(), Some("new".to_string()));
}

fn encode(r: &kvs::record::Record) -> String {
    kvs::record::encode_record(r)
}
