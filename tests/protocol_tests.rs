use kvs::config::{get_engine, BackEngines};
use kvs::protocol::{
    format_request, get_response_text, parse_request, parse_response_to_string, respond,
    scan_response_text, set_response, trim_line_end, Request,
};
use kvs::{KvStore, KvsError};

fn s(x: &str) -> String {
    x.to_owned()
}

fn lines(text: &str) -> Vec<String> {
    text.split_inclusive('\n').map(trim_line_end).collect()
}

fn serve(store: &mut KvStore, request_text: &str) -> String {
    match parse_request(&lines(request_text)) {
        Ok(Some(req)) => respond(store, req),
        Ok(None) => panic!("incomplete request"),
        Err(e) => kvs::protocol::error_text(&e),
    }
}

#[test]
fn server_scenario() {
    let mut store = KvStore::new();
    assert_eq!(serve(&mut store, "SET\r\nk\r\nv\r\n"), "Success\r\n");
    assert_eq!(serve(&mut store, "GET\r\nk\r\n"), "Success\r\n1\r\nv\r\n");
    assert_eq!(serve(&mut store, "GET\r\nmissing\r\n"), "Success\r\n-1\r\n");
    assert_eq!(serve(&mut store, "RM\r\nmissing\r\n"), "Error\r\nKey not found\r\n");
}

#[test]
fn server_get_reports_byte_length() {
    let mut store = KvStore::new();
    let value = "é".repeat(6);
    serve(&mut store, &format!("SET\r\nk\r\n{}\r\n", value));
    assert_eq!(serve(&mut store, "GET\r\nk\r\n"), format!("Success\r\n12\r\n{}\r\n", value));
}

#[test]
fn server_scan_and_unknown_command() {
    let mut store = KvStore::new();
    assert_eq!(serve(&mut store, "SCAN\r\n"), "Success\r\n\r\n");
    serve(&mut store, "SET\r\na\r\n1\r\n");
    serve(&mut store, "SET\r\nb\r\n2\r\n");
    let r = serve(&mut store, "SCAN\r\n");
    assert!(r == "Success\r\na\r\nb\r\n" || r == "Success\r\nb\r\na\r\n");
    assert_eq!(serve(&mut store, "FOO\r\n"), "Error\r\nCommand not support.\r\n");
    let big = format!("SET\r\n{}\r\nv\r\n", "k".repeat(300));
    assert_eq!(serve(&mut store, &big), "Error\r\nThe key cannot be larger than 256B.\r\n");
}

#[test]
fn parse_request_needs_all_lines() {
    assert!(matches!(parse_request(&vec![]), Ok(None)));
    assert!(matches!(parse_request(&vec![s("SET"), s("k")]), Ok(None)));
    assert!(matches!(parse_request(&vec![s("GET")]), Ok(None)));
    match parse_request(&vec![s("SET"), s("k"), s("v")]) {
        Ok(Some(Request::Put { key, value })) => {
            assert_eq!(key, "k");
            assert_eq!(value, "v");
        }
        _ => panic!("not a SET"),
    }
    assert!(matches!(parse_request(&vec![s("SCAN")]), Ok(Some(Request::Scan))));
    assert!(matches!(parse_request(&vec![s("set")]), Err(KvsError::CmdNotSupport)));
}

#[test]
fn format_requests() {
    assert_eq!(format_request(&Request::Put { key: s("k"), value: s("v") }), "SET\r\nk\r\nv\r\n");
    assert_eq!(format_request(&Request::Get { key: s("k") }), "GET\r\nk\r\n");
    assert_eq!(format_request(&Request::Rm { key: s("k") }), "RM\r\nk\r\n");
    assert_eq!(format_request(&Request::Scan), "SCAN\r\n");
}

#[test]
fn trim_line_ends() {
    assert_eq!(trim_line_end("abc\r\n"), "abc");
    assert_eq!(trim_line_end("abc\n"), "abc");
    assert_eq!(trim_line_end("abc"), "abc");
    assert_eq!(trim_line_end(""), "");
}

#[test]
fn client_reads_responses() {
    assert_eq!(parse_response_to_string(&lines("Success\r\n"), "SET"), Ok(s("")));
    assert_eq!(parse_response_to_string(&lines("Success\r\n1\r\nv\r\n"), "GET"), Ok(s("v")));
    assert_eq!(
        parse_response_to_string(&lines("Success\r\n-1\r\n"), "GET"),
        Ok(s("Key not found"))
    );
    assert_eq!(parse_response_to_string(&lines("Success\r\na\r\nb\r\n"), "SCAN"), Ok(s("a")));
    assert_eq!(
        parse_response_to_string(&lines("Success\r\n"), "SCAN"),
        Err(s("Some unknown errors have occurred."))
    );
    assert_eq!(
        parse_response_to_string(&lines("Error\r\nKey not found\r\n"), "RM"),
        Err(s("Key not found"))
    );
    assert_eq!(
        parse_response_to_string(&lines("Hello\r\n"), "RM"),
        Err(s("Some unknown errors have occurred."))
    );
    assert_eq!(
        parse_response_to_string(&vec![], "GET"),
        Err(s("Some unknown errors have occurred."))
    );
}

#[test]
fn engine_names() {
    assert!(matches!(BackEngines::from_str("kvs"), Ok(BackEngines::Kvs)));
    assert!(matches!(BackEngines::from_str("SLED"), Ok(BackEngines::Sled)));
    assert!(matches!(BackEngines::from_str("Auto"), Ok(BackEngines::Auto)));
    assert!(matches!(BackEngines::from_str("other"), Err(KvsError::ParseEngineError)));
    assert!(matches!(BackEngines::from_lowercase("SLED"), Err(KvsError::ParseEngineError)));
    assert_eq!(BackEngines::Kvs.name(), "kvs");
    assert_eq!(BackEngines::Auto.name(), "automatically select from kvs or sled");
}

#[test]
fn engine_selection() {
    assert_eq!(get_engine(BackEngines::Auto, None), Some(BackEngines::Kvs));
    assert_eq!(get_engine(BackEngines::Sled, None), Some(BackEngines::Sled));
    assert_eq!(get_engine(BackEngines::Auto, Some("sled")), Some(BackEngines::Sled));
    assert_eq!(get_engine(BackEngines::Kvs, Some("kvs")), Some(BackEngines::Kvs));
    assert_eq!(get_engine(BackEngines::Kvs, Some("sled")), None);
    assert_eq!(get_engine(BackEngines::Sled, Some("kvs")), None);
    assert_eq!(get_engine(BackEngines::Auto, Some("auto")), None);
    assert_eq!(get_engine(BackEngines::Auto, Some("junk")), None);
}

#[test]
fn error_messages() {
    assert_eq!(KvsError::KeyNotFound.message(), "Key not found");
    assert_eq!(KvsError::InvalidValueSize.message(), "The value cannot be larger than 4KB.");
    let io = KvsError::from(std::io::Error::new(std::io::ErrorKind::Other, "disk gone"));
    assert_eq!(io.message(), "disk gone");
}

#[test]
fn response_texts() {
    assert_eq!(set_response(&Ok(())), "Success\r\n");
    assert_eq!(set_response(&Err(KvsError::KeyNotFound)), "Error\r\nKey not found\r\n");
    assert_eq!(get_response_text(&Ok(Some(s("value")))), "Success\r\n5\r\nvalue\r\n");
    assert_eq!(get_response_text(&Ok(Some("x".repeat(1234)))), format!("Success\r\n1234\r\n{}\r\n", "x".repeat(1234)));
    assert_eq!(get_response_text(&Ok(None)), "Success\r\n-1\r\n");
    assert_eq!(
        get_response_text(&Err(KvsError::Corruption)),
        "Error\r\nStored data is corrupted.\r\n"
    );
    assert_eq!(scan_response_text(&vec![]), "Success\r\n\r\n");
    assert_eq!(scan_response_text(&vec![s("a"), s("b")]), "Success\r\na\r\nb\r\n");
}
