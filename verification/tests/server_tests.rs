use srpc::client::{wait_completion, Client, PumpStep};
use srpc::codec::{decode_frame, handshake_accepted, Body, Header, Message, MAGIC_NUMBER};
use srpc::error::Error;
use srpc::json::{decode_header_body, decode_message, encode_call_frame, encode_message_frame};
use srpc::server::{build_reply, is_get_request, parse_address, Protocol, RemoteCall, Server};

struct Calc;

impl RemoteCall for Calc {
    fn call(&self, method: &str, args: String) -> Result<String, Error> {
        match method {
            "add" => match serde_json::from_str::<(i32, i32)>(&args) {
                Ok((x, y)) => Ok(serde_json::to_string(&(x + y)).unwrap()),
                Err(_) => Err(Error::ArgumentsNotMatchError(
                    "Arguments are not of type (i32,i32) for method 'add'".to_string(),
                )),
            },
            _ => Err(Error::NoSuchMethodError),
        }
    }
}

fn calc_server() -> Server<Calc> {
    let mut s = Server::new();
    s.register("Calc".to_string(), Calc);
    s
}

#[test]
fn successful_add_round_trip() {
    // A client call for Calc.add(2, 3) through the framed wire, the
    // server dispatch, and the reply pump, end to end.
    let server = calc_server();
    let mut client = Client::new();

    let (q, frame, rx) = client.call_async("Calc", "add", "[2,3]").unwrap();
    assert_eq!(q, 1);

    // Server side: unframe, dispatch, frame the reply.
    let payload = decode_frame(&frame).unwrap();
    let (h, b) = decode_header_body(&payload).unwrap();
    let (rh, rb) = server.dispatch(h, b);
    assert_eq!(rh.seq, 1);
    assert!(rh.error.is_none());
    assert_eq!(rb.contents, "5");
    let reply_frame = encode_call_frame(&rh, &rb);

    // Client side: the pump decodes the reply and wakes the caller.
    let reply_payload = decode_frame(&reply_frame).unwrap();
    let (rh2, rb2) = decode_header_body(&reply_payload).unwrap();
    let step = client.handle_reply(rh2, rb2);
    assert!(matches!(step, PumpStep::Continue));
    let result: i32 = serde_json::from_str(&wait_completion(&rx).unwrap()).unwrap();
    assert_eq!(result, 5);
}

#[test]
fn unknown_method_is_reported_on_the_reply_header() {
    let server = calc_server();
    let mut client = Client::new();
    let (q, _frame, rx) = client.call_async("Calc", "mul", "[2,3]").unwrap();
    let h = Header::new("Calc".to_string(), "mul".to_string(), q, None);
    let b = Body::new("[2,3]".to_string());
    let (rh, rb) = server.dispatch(h, b);
    assert_eq!(rh.seq, 1);
    assert!(matches!(rh.error, Some(Error::NoSuchMethodError)));
    // The caller receives that error, not a result value.
    client.handle_reply(rh, rb);
    assert!(matches!(wait_completion(&rx), Err(Error::NoSuchMethodError)));
}

#[test]
fn bad_arguments_are_reported_with_the_expected_detail() {
    let server = calc_server();
    let mut client = Client::new();
    let (q, _frame, rx) = client.call_async("Calc", "add", "[\"x\",\"y\"]").unwrap();
    let h = Header::new("Calc".to_string(), "add".to_string(), q, None);
    let b = Body::new("[\"x\",\"y\"]".to_string());
    let (rh, rb) = server.dispatch(h, b);
    match &rh.error {
        Some(Error::ArgumentsNotMatchError(d)) => {
            assert_eq!(d, "Arguments are not of type (i32,i32) for method 'add'");
        },
        _ => panic!("expected an arguments mismatch"),
    }
    client.handle_reply(rh, rb);
    match wait_completion(&rx) {
        Err(Error::ArgumentsNotMatchError(d)) => {
            assert_eq!(d, "Arguments are not of type (i32,i32) for method 'add'");
        },
        _ => panic!("caller must receive the arguments mismatch"),
    }
}

#[test]
fn unknown_service_is_answered_with_an_error() {
    let server = calc_server();
    let h = Header::new("Missing".to_string(), "add".to_string(), 4, None);
    let b = Body::new("[2,3]".to_string());
    let (rh, _rb) = server.dispatch(h, b);
    assert_eq!(rh.seq, 4);
    assert_eq!(rh.service, "Missing");
    assert!(matches!(rh.error, Some(Error::OtherError(_))));
}

#[test]
fn later_registration_shadows_earlier() {
    struct Fixed(i32);
    impl RemoteCall for Fixed {
        fn call(&self, _method: &str, _args: String) -> Result<String, Error> {
            Ok(serde_json::to_string(&self.0).unwrap())
        }
    }
    let mut s: Server<Fixed> = Server::new();
    s.register("A".to_string(), Fixed(1));
    s.register("A".to_string(), Fixed(2));
    let (rh, rb) = s.dispatch(
        Header::new("A".to_string(), "any".to_string(), 1, None),
        Body::new("[]".to_string()),
    );
    assert!(rh.error.is_none());
    assert_eq!(rb.contents, "2");
}

#[test]
fn build_reply_keeps_the_correlation_id() {
    let h = Header::new("S".to_string(), "m".to_string(), 123, None);
    let (rh, rb) = build_reply(h, Ok("42".to_string()));
    assert_eq!(rh.seq, 123);
    assert_eq!(rh.service, "S");
    assert_eq!(rh.method, "m");
    assert!(rh.error.is_none());
    assert_eq!(rb.contents, "42");

    let h2 = Header::new("S".to_string(), "m".to_string(), 124, None);
    let (rh2, _rb2) = build_reply(h2, Err(Error::SystemIOError()));
    assert_eq!(rh2.seq, 124);
    assert!(matches!(rh2.error, Some(Error::SystemIOError())));
}

#[test]
fn handshake_magic_decides_acceptance() {
    assert!(handshake_accepted(MAGIC_NUMBER));
    assert!(handshake_accepted(0x37373737));
    assert!(!handshake_accepted(0));
    assert!(!handshake_accepted(0x37373736));
}

#[test]
fn mismatched_handshake_closes_and_later_calls_fail() {
    // The client dials with a zero magic value; the server refuses the
    // connection, the pump observes the transport failure, and the next
    // call is refused instead of hanging.
    let frame = encode_message_frame(&Message::new(0));
    let payload = decode_frame(&frame).unwrap();
    let m = decode_message(&payload).unwrap();
    assert!(!handshake_accepted(m.magic_number));

    let mut client = Client::new();
    client.terminate_calls(Error::SystemIOError());
    assert!(matches!(
        client.call_async("Calc", "add", "[2,3]"),
        Err(Error::ClientNotAvailableError)
    ));
}

#[test]
fn addresses_split_into_protocol_and_host() {
    let (p, host) = parse_address("tcp@127.0.0.1:8080").unwrap();
    assert!(matches!(p, Protocol::Tcp));
    assert_eq!(host, "127.0.0.1:8080");

    let (p, host) = parse_address("http@localhost:8000").unwrap();
    assert!(matches!(p, Protocol::Http));
    assert_eq!(host, "localhost:8000");

    // An unknown protocol falls back to tcp.
    let (p, host) = parse_address("quic@h:1").unwrap();
    assert!(matches!(p, Protocol::Tcp));
    assert_eq!(host, "h:1");

    assert!(parse_address("no-protocol-here").is_none());
}

#[test]
fn get_requests_are_recognised() {
    assert!(is_get_request("GET / HTTP/1.1"));
    assert!(is_get_request("GET"));
    assert!(!is_get_request("CONNECT / HTTP/1.1"));
    assert!(!is_get_request("POST / HTTP/1.1"));
    assert!(!is_get_request(""));
    assert!(!is_get_request("GETX / HTTP/1.1"));
}
