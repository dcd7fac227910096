use msgcore::{
    create_message, decode_message, dispatch, encode_message, report_line, send_message,
    send_message_json, status_code, AppError, IdCounter, Message,
};

fn invalid(text: &str) -> bool {
    matches!(decode_message(text), Err(AppError::InvalidInput(_)))
}

#[test]
fn ids_start_at_one_and_increase() {
    let ids = IdCounter::new();
    let a = create_message(&ids, "alice", "hello", 10);
    let b = create_message(&ids, "bob", "", 10);
    let c = create_message(&ids, "", "x", 11);
    assert_eq!(a.id(), 1);
    assert_eq!(b.id(), 2);
    assert_eq!(c.id(), 3);
}

#[test]
fn create_message_keeps_texts_and_time() {
    let ids = IdCounter::new();
    let m = create_message(&ids, "alice", "hello", 1_700_000_000_000);
    assert_eq!(m.sender(), "alice");
    assert_eq!(m.content(), "hello");
    assert_eq!(m.timestamp(), 1_700_000_000_000);
}

#[test]
fn repeated_reads_agree() {
    let m = Message::new(5, "s", "c", 9);
    assert_eq!(m.id(), m.id());
    assert_eq!(m.sender(), m.sender());
    assert_eq!(m.content(), m.content());
    assert_eq!(m.timestamp(), m.timestamp());
    let copy = m.clone();
    assert_eq!(copy.id(), 5);
    assert_eq!(copy.sender(), "s");
}

#[test]
fn encode_exact_text() {
    let m = Message::new(7, "alice", "hello", 1_700_000_000_000);
    assert_eq!(
        encode_message(&m),
        "{\"id\":7,\"sender\":\"alice\",\"content\":\"hello\",\"timestamp\":1700000000000}"
    );
}

#[test]
fn encode_escapes_text() {
    let m = Message::new(0, "a\"b\\", "line\n\t\u{1}", 18446744073709551615);
    assert_eq!(
        encode_message(&m),
        "{\"id\":0,\"sender\":\"a\\\"b\\\\\",\"content\":\"line\\n\\t\\u0001\",\"timestamp\":18446744073709551615}"
    );
}

#[test]
fn round_trip_keeps_all_fields() {
    let cases = [
        Message::new(1, "alice", "hello", 0),
        Message::new(u64::MAX, "", "", u64::MAX),
        Message::new(42, "żółw 🐢", "quote \" backslash \\ bell \u{7} del \u{7f}", 123),
    ];
    for m in cases.iter() {
        let d = decode_message(&encode_message(m)).expect("decodes");
        assert_eq!(d.id(), m.id());
        assert_eq!(d.sender(), m.sender());
        assert_eq!(d.content(), m.content());
        assert_eq!(d.timestamp(), m.timestamp());
    }
}

#[test]
fn decode_any_order_and_whitespace() {
    let text = " {\n \"timestamp\" : 5 ,\t\"content\":\"c\\u0041\", \"sender\" :\"s\",\"id\":3 } \r\n";
    let m = decode_message(text).expect("decodes");
    assert_eq!(m.id(), 3);
    assert_eq!(m.sender(), "s");
    assert_eq!(m.content(), "cA");
    assert_eq!(m.timestamp(), 5);
}

#[test]
fn decode_escaped_key() {
    let m = decode_message("{\"\\u0069d\":1,\"sender\":\"a\",\"content\":\"b\",\"timestamp\":2}")
        .expect("decodes");
    assert_eq!(m.id(), 1);
}

#[test]
fn decode_missing_each_field() {
    assert!(invalid("{\"sender\":\"a\",\"content\":\"b\",\"timestamp\":2}"));
    assert!(invalid("{\"id\":1,\"content\":\"b\",\"timestamp\":2}"));
    assert!(invalid("{\"id\":1,\"sender\":\"a\",\"timestamp\":2}"));
    assert!(invalid("{\"id\":1,\"sender\":\"a\",\"content\":\"b\"}"));
    assert!(invalid("{}"));
}

#[test]
fn decode_rejects_unknown_and_duplicate_fields() {
    assert!(invalid("{\"id\":1,\"sender\":\"a\",\"content\":\"b\",\"timestamp\":2,\"x\":3}"));
    assert!(invalid("{\"id\":1,\"id\":1,\"sender\":\"a\",\"content\":\"b\",\"timestamp\":2}"));
}

#[test]
fn decode_rejects_wrong_kinds_and_numbers() {
    assert!(invalid("{\"id\":\"1\",\"sender\":\"a\",\"content\":\"b\",\"timestamp\":2}"));
    assert!(invalid("{\"id\":1,\"sender\":7,\"content\":\"b\",\"timestamp\":2}"));
    assert!(invalid("{\"id\":-1,\"sender\":\"a\",\"content\":\"b\",\"timestamp\":2}"));
    assert!(invalid("{\"id\":1.5,\"sender\":\"a\",\"content\":\"b\",\"timestamp\":2}"));
    assert!(invalid("{\"id\":18446744073709551616,\"sender\":\"a\",\"content\":\"b\",\"timestamp\":2}"));
    assert!(invalid("{\"id\":01,\"sender\":\"a\",\"content\":\"b\",\"timestamp\":2}"));
    assert!(invalid("{\"id\":1,\"sender\":null,\"content\":\"b\",\"timestamp\":2}"));
}

#[test]
fn decode_rejects_malformed_text() {
    assert!(invalid(""));
    assert!(invalid("not json"));
    assert!(invalid("[1,2]"));
    assert!(invalid("{\"id\":1,\"sender\":\"a\",\"content\":\"b\",\"timestamp\":2"));
    assert!(invalid("{\"id\":1,\"sender\":\"a\",\"content\":\"b\",\"timestamp\":2} x"));
    assert!(invalid("{\"id\":1,,\"sender\":\"a\",\"content\":\"b\",\"timestamp\":2}"));
    assert!(invalid("{\"id\":1,\"sender\":\"a\\q\",\"content\":\"b\",\"timestamp\":2}"));
}

#[test]
fn dispatch_maps_sink_outcome() {
    assert!(dispatch(Ok(())).is_ok());
    match dispatch(Err("queue full".to_string())) {
        Err(AppError::Internal(reason)) => assert_eq!(reason, "queue full"),
        _ => panic!("expected an internal error"),
    }
}

#[test]
fn status_codes() {
    assert_eq!(status_code(&Ok(())), 0);
    assert_eq!(status_code(&Err(AppError::InvalidInput("x".to_string()))), 1);
    assert_eq!(status_code(&Err(AppError::Internal("y".to_string()))), 1);
}

#[test]
fn error_text_and_detail() {
    let e = AppError::InvalidInput("bad".to_string());
    assert_eq!(e.to_text(), "InvalidInput: bad");
    assert_eq!(e.detail(), "bad");
    let e = AppError::Internal("down".to_string());
    assert_eq!(e.to_text(), "Internal: down");
}

#[test]
fn decode_error_is_validation_with_detail() {
    match decode_message("{") {
        Err(e) => {
            assert!(matches!(e, AppError::InvalidInput(_)));
            assert!(!e.detail().is_empty());
        }
        Ok(_) => panic!("expected a validation error"),
    }
}

#[test]
fn report_line_exact() {
    let m = Message::new(12, "alice", "hello", 99);
    assert_eq!(report_line(&m), "Send message: id=12 sender='alice' content='hello' ts=99");
}

#[test]
fn send_alice_hello_on_two_paths() {
    let ids = IdCounter::new();
    let mut seen: Vec<(u64, u64, String, String)> = Vec::new();
    let raw = create_message(&ids, "alice", "hello", 1000);
    let r1 = send_message(&raw, |m: &Message| {
        seen.push((m.id(), m.timestamp(), m.sender().to_string(), m.content().to_string()));
        Ok(())
    });
    assert_eq!(status_code(&r1), 0);
    let web = create_message(&ids, "alice", "hello", 1001);
    let r2 = send_message_json(&encode_message(&web), |m: &Message| {
        seen.push((m.id(), m.timestamp(), m.sender().to_string(), m.content().to_string()));
        Ok(())
    });
    assert!(r2.is_ok());
    assert_eq!(seen.len(), 2);
    assert_ne!(seen[0].0, seen[1].0);
    assert_eq!(seen[0].2, seen[1].2);
    assert_eq!(seen[0].3, seen[1].3);
    assert_eq!(seen[1].0, web.id());
    assert_eq!(seen[1].1, 1001);
}

#[test]
fn sink_failure_is_propagated() {
    let m = Message::new(1, "a", "b", 2);
    match send_message(&m, |_m: &Message| Err("disconnected".to_string())) {
        Err(AppError::Internal(reason)) => assert_eq!(reason, "disconnected"),
        _ => panic!("expected the sink's failure"),
    }
    let text = encode_message(&m);
    match send_message_json(&text, |_m: &Message| Err("rejected".to_string())) {
        Err(AppError::Internal(reason)) => assert_eq!(reason, "rejected"),
        _ => panic!("expected the sink's failure"),
    }
}

#[test]
fn invalid_text_never_reaches_the_sink() {
    let mut calls = 0;
    let r = send_message_json("{\"id\":1}", |_m: &Message| {
        calls += 1;
        Ok(())
    });
    assert!(matches!(r, Err(AppError::InvalidInput(_))));
    assert_eq!(calls, 0);
}

#[test]
fn ids_from_one_counter_are_distinct_and_increasing() {
    let ids = IdCounter::new();
    let mut last = 0;
    for _ in 0..1000 {
        let id = ids.take();
        assert!(id > last);
        last = id;
    }
    assert_eq!(last, 1000);
}
