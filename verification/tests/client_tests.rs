use srpc::client::{wait_completion, Call, Client, PumpStep};
use srpc::codec::{decode_frame, Body, Header};
use srpc::error::Error;
use srpc::json::decode_header_body;

fn parse_frame(frame: &Vec<u8>) -> (Header, Body) {
    let payload = decode_frame(frame).unwrap();
    decode_header_body(&payload).unwrap()
}

#[test]
fn sequence_numbers_start_at_one_and_increase() {
    let mut c = Client::new();
    let mut seen: Vec<usize> = Vec::new();
    for _ in 0..100 {
        let (q, _frame, _rx) = c.call_async("Calc", "add", "[2,3]").unwrap();
        assert!(!seen.contains(&q), "sequence number reused");
        if let Some(last) = seen.last() {
            assert!(q > *last, "sequence numbers not increasing");
        }
        seen.push(q);
    }
    assert_eq!(seen[0], 1);
    assert_eq!(seen[99], 100);
}

#[test]
fn register_then_remove_returns_the_original_call() {
    let mut c = Client::new();
    let call = Call::new("Svc".to_string(), "m".to_string(), "[1]".to_string());
    let q = c.register_call(call).unwrap();
    assert_eq!(q, 1);
    let back = c.remove_call(q).unwrap();
    assert_eq!(back.seq, 1);
    assert_eq!(back.service, "Svc");
    assert_eq!(back.method, "m");
    assert_eq!(back.body, "[1]");
    assert!(back.error.is_none());
    // The registry is back to its original state: the same number is gone.
    assert!(c.remove_call(q).is_none());
}

#[test]
fn remove_unknown_seq_returns_nothing() {
    let mut c = Client::new();
    assert!(c.remove_call(5).is_none());
}

#[test]
fn call_async_writes_the_registered_frame() {
    let mut c = Client::new();
    let (q, frame, _rx) = c.call_async("Calc", "add", "[2,3]").unwrap();
    let (h, b) = parse_frame(&frame);
    assert_eq!(h.service, "Calc");
    assert_eq!(h.method, "add");
    assert_eq!(h.seq, q);
    assert!(h.error.is_none());
    assert_eq!(b.contents, "[2,3]");
}

#[test]
fn reply_wakes_the_blocked_caller_with_the_body() {
    let mut c = Client::new();
    let (q, _frame, rx) = c.call_async("Calc", "add", "[2,3]").unwrap();
    let reply_header = Header::new("Calc".to_string(), "add".to_string(), q, None);
    let reply_body = Body::new("5".to_string());
    let step = c.handle_reply(reply_header, reply_body);
    assert!(matches!(step, PumpStep::Continue));
    assert_eq!(wait_completion(&rx).unwrap(), "5");
}

#[test]
fn reply_with_error_header_stops_the_pump() {
    let mut c = Client::new();
    let (q, _frame, rx) = c.call_async("Calc", "add", "[2,3]").unwrap();
    let reply_header = Header::new(
        "Calc".to_string(),
        "add".to_string(),
        q,
        Some(Error::NoSuchMethodError),
    );
    let step = c.handle_reply(reply_header, Body::new("null".to_string()));
    assert!(matches!(step, PumpStep::Stop(Error::NoSuchMethodError)));
    // The caller whose reply carried the error receives that error, not
    // a generic channel failure.
    assert!(matches!(wait_completion(&rx), Err(Error::NoSuchMethodError)));
}

#[test]
fn reply_for_unknown_seq_stops_the_pump() {
    let mut c = Client::new();
    let header = Header::new("Calc".to_string(), "add".to_string(), 99, None);
    let step = c.handle_reply(header, Body::new("null".to_string()));
    assert!(matches!(step, PumpStep::Stop(Error::OtherError(_))));
}

#[test]
fn termination_wakes_every_pending_caller_with_the_error() {
    let mut c = Client::new();
    let mut receivers = Vec::new();
    for _ in 0..10 {
        let (_q, _frame, rx) = c.call_async("Calc", "add", "[2,3]").unwrap();
        receivers.push(rx);
    }
    c.terminate_calls(Error::SystemIOError());
    for rx in &receivers {
        match wait_completion(rx) {
            Err(Error::SystemIOError()) => {},
            _ => panic!("caller not woken with the broadcast error"),
        }
    }
}

#[test]
fn call_after_fatal_pump_error_is_refused_not_hung() {
    let mut c = Client::new();
    let (_q, _frame, _rx) = c.call_async("Calc", "add", "[2,3]").unwrap();
    // The receive pump hits a transport error and broadcasts termination.
    c.terminate_calls(Error::SystemIOError());
    assert!(!c.is_available());
    match c.call_async("Calc", "add", "[4,5]") {
        Err(Error::ClientNotAvailableError) => {},
        _ => panic!("registration after shutdown must be refused"),
    }
    match c.register_call(Call::new("S".to_string(), "m".to_string(), "[]".to_string())) {
        Err(Error::ClientNotAvailableError) => {},
        _ => panic!("registration after shutdown must be refused"),
    }
}

#[test]
fn in_flight_calls_resolve_when_the_connection_dies() {
    // Ten calls are in flight; replies land for three of them, then the
    // connection closes.  Every caller resolves: three with results, the
    // other seven with the broadcast error.
    let mut c = Client::new();
    let mut entries = Vec::new();
    for _ in 0..10 {
        let (q, frame, rx) = c.call_async("Calc", "add", "[2,3]").unwrap();
        entries.push((q, frame, rx));
    }
    for (q, _frame, _rx) in entries.iter().take(3) {
        let h = Header::new("Calc".to_string(), "add".to_string(), *q, None);
        let step = c.handle_reply(h, Body::new("5".to_string()));
        assert!(matches!(step, PumpStep::Continue));
    }
    c.terminate_calls(Error::SystemIOError());
    for (i, (_q, _frame, rx)) in entries.iter().enumerate() {
        let outcome = wait_completion(rx);
        if i < 3 {
            assert_eq!(outcome.unwrap(), "5");
        } else {
            assert!(matches!(outcome, Err(Error::SystemIOError())));
        }
    }
}

#[test]
fn replies_demultiplex_in_any_order() {
    let mut c = Client::new();
    let mut entries = Vec::new();
    for i in 0..100 {
        let args = format!("[{},1]", i);
        let (q, _frame, rx) = c.call_async("Calc", "add", &args).unwrap();
        entries.push((q, i, rx));
    }
    // Replies arrive in reverse order; each carries its own result.
    for (q, i, _rx) in entries.iter().rev() {
        let h = Header::new("Calc".to_string(), "add".to_string(), *q, None);
        let step = c.handle_reply(h, Body::new(format!("{}", i + 1)));
        assert!(matches!(step, PumpStep::Continue));
    }
    for (_q, i, rx) in entries.iter() {
        assert_eq!(wait_completion(rx).unwrap(), format!("{}", i + 1));
    }
}
