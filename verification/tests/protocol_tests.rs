//! Protocol tests: request framing, inbound frame classification, the
//! error taxonomy, the translation helper, and connection
//! configuration parsing.
use gom_bridge::codec::CdcEncoder;
use gom_bridge::config::parse_connection_config;
use gom_bridge::protocol::{
    build_request, fresh_request_id, process_frame, register_params, tr, tr_params,
    ConnectionError, PendingReplies, Reply, Request, Step,
};
use gom_bridge::value::CdcValue;

#[test]
fn register_request_frame_has_the_contractual_fields() {
    let params = register_params("abc", "x");
    let id = fresh_request_id();
    let id_chars: Vec<char> = id.chars().collect();
    assert_eq!(id_chars.len(), 36);
    for pos in [8, 13, 18, 23] {
        assert_eq!(id_chars[pos], '-');
    }
    let frame = build_request("secret", &id, Request::REGISTER, params);

    // over the wire and back, the frame still carries the contract
    let mut encoder = CdcEncoder::new();
    let bytes = encoder.encode(frame);
    let decoded = encoder.decode_value(&bytes, 0).unwrap().0;
    let pairs = match decoded {
        CdcValue::MAP(ps) => ps,
        other => panic!("Expected MAP, found {:?}", other),
    };
    assert_eq!(pairs.len(), 5);
    assert_eq!(pairs[0].0, "type");
    assert_eq!(pairs[0].1, CdcValue::STRING("request".to_string()));
    assert_eq!(pairs[1].0, "apikey");
    assert_eq!(pairs[1].1, CdcValue::STRING("secret".to_string()));
    assert_eq!(pairs[2].0, "id");
    assert_eq!(pairs[2].1, CdcValue::STRING(id));
    assert_eq!(pairs[3].0, "value");
    assert_eq!(pairs[3].1, CdcValue::INTEGER(25));
    assert_eq!(pairs[4].0, "params");
    let sent = match &pairs[4].1 {
        CdcValue::MAP(ps) => ps,
        other => panic!("Expected MAP params, found {:?}", other),
    };
    assert_eq!(sent.len(), 2);
    assert_eq!(sent[0].0, "id");
    assert_eq!(sent[0].1, CdcValue::STRING("abc".to_string()));
    assert_eq!(sent[1].0, "file");
    assert_eq!(sent[1].1, CdcValue::STRING("x".to_string()));
}

#[test]
fn wait_frame_resolves_nothing_and_reading_continues() {
    let frame = CdcValue::MAP(vec![(
        "type".to_string(),
        CdcValue::STRING("wait".to_string()),
    )]);
    assert_eq!(process_frame(frame), Some(Step::CONTINUE));
}

#[test]
fn reply_frame_resolves_with_its_value() {
    let frame = CdcValue::MAP(vec![
        ("type".to_string(), CdcValue::STRING("reply".to_string())),
        ("value".to_string(), CdcValue::INTEGER(11)),
    ]);
    match process_frame(frame) {
        Some(Step::DONE { id: None, outcome: Reply::REPLY(v) }) => {
            assert_eq!(v, CdcValue::INTEGER(11))
        }
        other => panic!("expected a reply outcome, found {:?}", other),
    }
}

#[test]
fn reply_frame_carries_its_correlation_id() {
    let frame = CdcValue::MAP(vec![
        ("type".to_string(), CdcValue::STRING("reply".to_string())),
        ("id".to_string(), CdcValue::STRING("other-caller".to_string())),
        ("value".to_string(), CdcValue::INTEGER(12)),
    ]);
    match process_frame(frame) {
        Some(Step::DONE { id: Some(j), outcome: Reply::REPLY(v) }) => {
            assert_eq!(j, "other-caller");
            assert_eq!(v, CdcValue::INTEGER(12));
        }
        other => panic!("expected a reply outcome with an id, found {:?}", other),
    }
    // an outcome frame whose id is not a string is a violation
    let bad = CdcValue::MAP(vec![
        ("type".to_string(), CdcValue::STRING("reply".to_string())),
        ("id".to_string(), CdcValue::INTEGER(9)),
        ("value".to_string(), CdcValue::INTEGER(12)),
    ]);
    assert_eq!(process_frame(bad), None);
}

#[test]
fn mismatched_outcomes_wait_in_the_pending_table() {
    let mut pending = PendingReplies::new();
    assert_eq!(pending.take("a"), None);
    pending.store("a".to_string(), Reply::REPLY(CdcValue::INTEGER(1)));
    pending.store("b".to_string(), Reply::REPLY(CdcValue::INTEGER(2)));
    pending.store("a".to_string(), Reply::REPLY(CdcValue::INTEGER(3)));
    assert_eq!(pending.take("a"), Some(Reply::REPLY(CdcValue::INTEGER(3))));
    assert_eq!(pending.take("a"), None);
    assert_eq!(pending.take("b"), Some(Reply::REPLY(CdcValue::INTEGER(2))));
    assert_eq!(pending.take("b"), None);
}

#[test]
fn call_frame_dispatches_the_registered_callable() {
    let mut encoder = CdcEncoder::new();
    // the callable has been encoded once, so its handle is resident
    let bytes = encoder.encode(CdcValue::CALLABLE(555));
    let decoded = encoder.decode_value(&bytes, 0).unwrap().0;
    assert_eq!(decoded, CdcValue::CALLABLE(555));

    let frame = CdcValue::MAP(vec![
        ("type".to_string(), CdcValue::STRING("call".to_string())),
        ("value".to_string(), CdcValue::CALLABLE(555)),
        ("args".to_string(), CdcValue::LIST(vec![CdcValue::INTEGER(1)])),
        (
            "kwargs".to_string(),
            CdcValue::MAP(vec![("k".to_string(), CdcValue::BOOL(true))]),
        ),
    ]);
    match process_frame(frame) {
        Some(Step::RESPOND { handle, args, kwargs }) => {
            assert_eq!(handle, 555);
            assert_eq!(args, vec![CdcValue::INTEGER(1)]);
            assert_eq!(kwargs.len(), 1);
            assert_eq!(kwargs[0].0, "k");
            assert_eq!(kwargs[0].1, CdcValue::BOOL(true));
            // the callable's result goes back as a bare value, no
            // outer map and no correlation id
            let result = CdcValue::INTEGER(3);
            let reply_bytes = encoder.encode(result);
            assert_eq!(reply_bytes[0], 2);
            assert_eq!(
                encoder.decode_value(&reply_bytes, 0).unwrap().0,
                CdcValue::INTEGER(3)
            );
        },
        other => panic!("expected an upcall, found {:?}", other),
    }
}

#[test]
fn error_frame_resolves_with_the_index_kind_and_its_fields() {
    let frame = CdcValue::MAP(vec![
        ("type".to_string(), CdcValue::STRING("error".to_string())),
        (
            "type".to_string(),
            CdcValue::STRING("Tom::GScript::IndexException".to_string()),
        ),
        ("description".to_string(), CdcValue::STRING("d".to_string())),
        ("code".to_string(), CdcValue::INTEGER(7)),
        ("log".to_string(), CdcValue::STRING("l".to_string())),
        ("value".to_string(), CdcValue::BLOB(vec![1, 2, 3])),
    ]);
    match process_frame(frame) {
        Some(Step::DONE { id: None, outcome: Reply::ERROR(e) }) => {
            assert_eq!(e.error_type, "Tom::GScript::IndexException");
            assert_eq!(e.description, "d");
            assert_eq!(e.code, 7);
            assert_eq!(e.log, "l");
            assert_eq!(e.value, vec![1, 2, 3]);
            assert_eq!(ConnectionError::from(e), ConnectionError::Index);
        },
        other => panic!("expected an error outcome, found {:?}", other),
    }
}

#[test]
fn error_frame_with_an_id_names_its_request() {
    let frame = CdcValue::MAP(vec![
        ("type".to_string(), CdcValue::STRING("error".to_string())),
        ("id".to_string(), CdcValue::STRING("req-1".to_string())),
        (
            "type".to_string(),
            CdcValue::STRING("Tom::GScript::BreakException".to_string()),
        ),
        ("description".to_string(), CdcValue::STRING("stop".to_string())),
        ("code".to_string(), CdcValue::INTEGER(1)),
        ("log".to_string(), CdcValue::STRING("".to_string())),
        ("value".to_string(), CdcValue::BLOB(vec![])),
    ]);
    match process_frame(frame) {
        Some(Step::DONE { id: Some(j), outcome: Reply::ERROR(e) }) => {
            assert_eq!(j, "req-1");
            assert_eq!(ConnectionError::from(e), ConnectionError::Break);
        },
        other => panic!("expected an error outcome with an id, found {:?}", other),
    }
}

#[test]
fn unknown_frame_type_is_fatal() {
    let frame = CdcValue::MAP(vec![(
        "type".to_string(),
        CdcValue::STRING("gossip".to_string()),
    )]);
    assert_eq!(process_frame(frame), None);
    assert_eq!(process_frame(CdcValue::INTEGER(1)), None);
    let missing = CdcValue::MAP(vec![("id".to_string(), CdcValue::INTEGER(1))]);
    assert_eq!(process_frame(missing), None);
}

fn error_with(tax: &str) -> gom_bridge::protocol::ReplyError {
    gom_bridge::protocol::ReplyError {
        error_type: tax.to_string(),
        description: String::new(),
        code: 0,
        log: String::new(),
        value: Vec::new(),
    }
}

#[test]
fn every_taxonomy_string_maps_to_its_kind() {
    assert_eq!(
        ConnectionError::from(error_with("Tom::GScript::BreakException")),
        ConnectionError::Break
    );
    assert_eq!(
        ConnectionError::from(error_with("Tom::GScript::AttributeException")),
        ConnectionError::Attribute
    );
    assert_eq!(
        ConnectionError::from(error_with("Tom::GScript::ImportException")),
        ConnectionError::Import
    );
    assert_eq!(
        ConnectionError::from(error_with("Tom::GScript::IndexException")),
        ConnectionError::Index
    );
    assert_eq!(
        ConnectionError::from(error_with("Tom::GScript::PythonException")),
        ConnectionError::Request
    );
    assert_eq!(ConnectionError::from(error_with("anything else")), ConnectionError::Request);
}

#[test]
fn test_tr_without_connection() {
    let result = tr("Hello World", None, None);
    assert_eq!(result, "Hello World");

    let result_with_id = tr("Test Text", Some("test_id"), None);
    assert_eq!(result_with_id, "Test Text");
}

#[test]
fn tr_takes_the_translation_from_a_reply() {
    let params = tr_params("Hello", Some("greet"));
    assert_eq!(params.len(), 2);
    assert_eq!(params[0].0, "text");
    assert_eq!(params[0].1, CdcValue::STRING("Hello".to_string()));
    assert_eq!(params[1].0, "id");
    assert_eq!(params[1].1, CdcValue::STRING("greet".to_string()));

    let reply = CdcValue::MAP(vec![(
        "translation".to_string(),
        CdcValue::STRING("Hallo".to_string()),
    )]);
    assert_eq!(tr("Hello", Some("greet"), Some(Ok(reply))), "Hallo");

    let empty_reply = CdcValue::MAP(vec![]);
    assert_eq!(tr("Hello", None, Some(Ok(empty_reply))), "Hello");
    assert_eq!(
        tr("Hello", None, Some(Err(ConnectionError::Request))),
        "Hello"
    );
}

#[test]
fn test_parse_connection_config() {
    // Test with all parameters
    let api_url = "ws://localhost:41000?apikey=656bd8a17823f8e54bd2&interpreter_id=abc123&strip_tracebacks=1";
    let config = parse_connection_config(api_url);
    assert_eq!(config.server_url, api_url);
    assert_eq!(config.api_key, "656bd8a17823f8e54bd2");
    assert_eq!(config.interpreter_id, "abc123");
    assert_eq!(config.strip_tracebacks, true);

    // Test with strip_tracebacks=0
    let api_url2 = "ws://localhost:41000?apikey=key&strip_tracebacks=0";
    let config2 = parse_connection_config(api_url2);
    assert_eq!(config2.api_key, "key");
    assert_eq!(config2.strip_tracebacks, false);

    // Test with no query parameters
    let api_url3 = "ws://localhost:41000";
    let config3 = parse_connection_config(api_url3);
    assert_eq!(config3.server_url, api_url3);
    assert_eq!(config3.api_key, "");
    assert_eq!(config3.strip_tracebacks, true);
    // interpreter_id should be generated, so not empty
    assert!(!config3.interpreter_id.is_empty());
}

#[test]
fn request_codes_are_the_wire_contract() {
    assert_eq!(Request::API.code(), 1);
    assert_eq!(Request::COMMAND.code(), 2);
    assert_eq!(Request::GET.code(), 13);
    assert_eq!(Request::LEN.code(), 19);
    assert_eq!(Request::REGISTER.code(), 25);
    assert_eq!(Request::TRANSLATE.code(), 37);
    assert_eq!(Request::TYPE_STR.code(), 49);
    assert_eq!(Request::TEST_0.code(), 1000);
    assert_eq!(Request::TEST_5.code(), 1005);
}
