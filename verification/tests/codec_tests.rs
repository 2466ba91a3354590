use srpc::codec::{decode_frame, encode_frame, Body, Header, Message, MAGIC_NUMBER};
use srpc::error::Error;
use srpc::json::{
    decode_header_body, decode_message, encode_call_frame, encode_header_body, encode_message,
    encode_message_frame,
};

#[test]
fn frame_prefix_names_payload_length() {
    let payload: Vec<u8> = vec![1, 2, 3, 4, 5];
    let frame = encode_frame(&payload);
    assert_eq!(frame.len(), 13);
    // The 8-byte little-endian prefix holds exactly the payload length.
    assert_eq!(&frame[0..8], &[5u8, 0, 0, 0, 0, 0, 0, 0]);
    assert_eq!(&frame[8..], &payload[..]);
}

#[test]
fn frame_round_trip_recovers_payload() {
    let payload: Vec<u8> = b"{\"contents\":[2,3]}".to_vec();
    let frame = encode_frame(&payload);
    let decoded = decode_frame(&frame).unwrap();
    assert_eq!(decoded, payload);
}

#[test]
fn frame_round_trip_empty_payload() {
    let payload: Vec<u8> = Vec::new();
    let frame = encode_frame(&payload);
    assert_eq!(frame.len(), 8);
    let decoded = decode_frame(&frame).unwrap();
    assert_eq!(decoded, payload);
}

#[test]
fn frame_with_wrong_length_prefix_is_refused() {
    let payload: Vec<u8> = vec![9, 9, 9];
    let mut frame = encode_frame(&payload);
    frame[0] = 7;
    assert!(decode_frame(&frame).is_none());
    assert!(decode_frame(&vec![1u8, 2, 3]).is_none());
}

#[test]
fn header_body_wire_form_is_exact() {
    let h = Header::new("Calc".to_string(), "add".to_string(), 1, None);
    let b = Body::new("[2,3]".to_string());
    let payload = encode_header_body(&h, &b);
    assert_eq!(
        String::from_utf8(payload).unwrap(),
        "[{\"service\":\"Calc\",\"method\":\"add\",\"seq\":1,\"error\":null},{\"contents\":[2,3]}]"
    );
}

#[test]
fn header_with_error_wire_form_is_exact() {
    let h = Header::new(
        "Calc".to_string(),
        "add".to_string(),
        7,
        Some(Error::NoSuchMethodError),
    );
    let b = Body::new("null".to_string());
    let payload = encode_header_body(&h, &b);
    assert_eq!(
        String::from_utf8(payload).unwrap(),
        "[{\"service\":\"Calc\",\"method\":\"add\",\"seq\":7,\"error\":\"NoSuchMethodError\"},{\"contents\":null}]"
    );
}

#[test]
fn header_body_round_trip() {
    let h = Header::new(
        "a \"quoted\" name\\x".to_string(),
        "do".to_string(),
        42,
        Some(Error::ArgumentsNotMatchError("bad \"args\"".to_string())),
    );
    let b = Body::new("{\"k\":[1,2,{\"n\":null}]}".to_string());
    let payload = encode_header_body(&h, &b);
    let (h2, b2) = decode_header_body(&payload).unwrap();
    assert_eq!(h2.service, h.service);
    assert_eq!(h2.method, h.method);
    assert_eq!(h2.seq, h.seq);
    match h2.error {
        Some(Error::ArgumentsNotMatchError(d)) => assert_eq!(d, "bad \"args\""),
        _ => panic!("wrong error kind after round trip"),
    }
    assert_eq!(b2.contents, b.contents);
}

#[test]
fn call_frame_round_trip_through_frame_layer() {
    let h = Header::new("Echo".to_string(), "say".to_string(), 3, None);
    let b = Body::new("\"hello\"".to_string());
    let frame = encode_call_frame(&h, &b);
    let payload = decode_frame(&frame).unwrap();
    let (h2, b2) = decode_header_body(&payload).unwrap();
    assert_eq!(h2.service, "Echo");
    assert_eq!(h2.method, "say");
    assert_eq!(h2.seq, 3);
    assert!(h2.error.is_none());
    assert_eq!(b2.contents, "\"hello\"");
}

#[test]
fn every_error_kind_survives_the_wire() {
    let kinds = vec![
        Error::NoSuchMethodError,
        Error::ClientNotAvailableError,
        Error::ArgumentsNotMatchError("detail".to_string()),
        Error::SystemIOError(),
        Error::OtherError("misc".to_string()),
    ];
    for e in kinds {
        let h = Header::new("S".to_string(), "m".to_string(), 1, Some(e.clone()));
        let b = Body::new("null".to_string());
        let payload = encode_header_body(&h, &b);
        let (h2, _) = decode_header_body(&payload).unwrap();
        let same = match (&e, &h2.error) {
            (Error::NoSuchMethodError, Some(Error::NoSuchMethodError)) => true,
            (Error::ClientNotAvailableError, Some(Error::ClientNotAvailableError)) => true,
            (Error::ArgumentsNotMatchError(a), Some(Error::ArgumentsNotMatchError(c))) => a == c,
            (Error::SystemIOError(), Some(Error::SystemIOError())) => true,
            (Error::OtherError(a), Some(Error::OtherError(c))) => a == c,
            _ => false,
        };
        assert!(same, "error kind changed on the wire");
    }
}

#[test]
fn handshake_wire_form_and_round_trip() {
    let m = Message::new(MAGIC_NUMBER);
    let payload = encode_message(&m);
    assert_eq!(
        String::from_utf8(payload.clone()).unwrap(),
        format!("{{\"magic_number\":{}}}", 0x37373737)
    );
    let m2 = decode_message(&payload).unwrap();
    assert_eq!(m2.magic_number, MAGIC_NUMBER);

    let zero = Message::new(0);
    let p0 = encode_message(&zero);
    assert_eq!(String::from_utf8(p0.clone()).unwrap(), "{\"magic_number\":0}");
    assert_eq!(decode_message(&p0).unwrap().magic_number, 0);

    let neg = Message::new(-77);
    let pn = encode_message(&neg);
    assert_eq!(String::from_utf8(pn.clone()).unwrap(), "{\"magic_number\":-77}");
    assert_eq!(decode_message(&pn).unwrap().magic_number, -77);

    let frame = encode_message_frame(&Message::new(MAGIC_NUMBER));
    let payload = decode_frame(&frame).unwrap();
    assert_eq!(decode_message(&payload).unwrap().magic_number, 0x37373737);
}

#[test]
fn wire_header_is_real_json_for_serde() {
    // The verified writer's output must parse with an independent JSON
    // implementation into the same structure.
    let h = Header::new("Calc".to_string(), "add".to_string(), 1, None);
    let b = Body::new("[2,3]".to_string());
    let payload = encode_header_body(&h, &b);
    let v: serde_json::Value = serde_json::from_slice(&payload).unwrap();
    let arr = v.as_array().unwrap();
    assert_eq!(arr.len(), 2);
    assert_eq!(arr[0].get("service").unwrap().as_str().unwrap(), "Calc");
    assert_eq!(arr[0].get("method").unwrap().as_str().unwrap(), "add");
    assert_eq!(arr[0].get("seq").unwrap().as_u64().unwrap(), 1);
    assert!(arr[0].get("error").unwrap().is_null());
    let contents = arr[1].get("contents").unwrap();
    assert_eq!(contents.as_array().unwrap().len(), 2);
    assert_eq!(contents.as_array().unwrap()[0].as_i64().unwrap(), 2);
    assert_eq!(contents.as_array().unwrap()[1].as_i64().unwrap(), 3);
}

#[test]
fn json_value_round_trip_through_body() {
    // Any JSON-encodable value carried as body contents comes back equal
    // after framing, unframing and reparsing.
    let mut map = serde_json::Map::new();
    map.insert("x".to_string(), serde_json::Value::from(5i64));
    map.insert(
        "list".to_string(),
        serde_json::Value::from(vec![1i64, 2, 3]),
    );
    map.insert("s".to_string(), serde_json::Value::from("text \"quoted\""));
    let value = serde_json::Value::Object(map);

    let h = Header::new("S".to_string(), "m".to_string(), 9, None);
    let b = Body::new(serde_json::to_string(&value).unwrap());
    let frame = encode_call_frame(&h, &b);
    let payload = decode_frame(&frame).unwrap();
    let (_, b2) = decode_header_body(&payload).unwrap();
    let value2: serde_json::Value = serde_json::from_str(&b2.contents).unwrap();
    assert_eq!(value, value2);
}

#[test]
fn control_characters_survive_the_wire_and_match_serde() {
    // Strings with quotes, backslashes and control characters round-trip
    // through the verified writer and parser, and the wire text parses
    // with an independent JSON implementation into the same string.
    let tricky = "line\nbreak\ttab\rret\u{8}bs\u{c}ff\u{1}one\u{1f}unit \"q\" \\b\\";
    let h = Header::new(tricky.to_string(), "m".to_string(), 3, None);
    let b = Body::new("null".to_string());
    let payload = encode_header_body(&h, &b);

    let (h2, _) = decode_header_body(&payload).unwrap();
    assert_eq!(h2.service, tricky);

    let v: serde_json::Value = serde_json::from_slice(&payload).unwrap();
    assert_eq!(
        v.as_array().unwrap()[0].get("service").unwrap().as_str().unwrap(),
        tricky
    );

    // The reverse direction: a frame whose strings serde_json encoded is
    // accepted by the verified parser.
    let serde_service = serde_json::to_string(&tricky).unwrap();
    let text = format!(
        "[{{\"service\":{},\"method\":\"m\",\"seq\":3,\"error\":null}},{{\"contents\":null}}]",
        serde_service
    );
    let (h3, _) = decode_header_body(&text.clone().into_bytes()).unwrap();
    assert_eq!(h3.service, tricky);
}

#[test]
fn error_detail_with_escapes_round_trips() {
    let h = Header::new(
        "S".to_string(),
        "m".to_string(),
        2,
        Some(Error::OtherError("bad\nvalue \"x\"".to_string())),
    );
    let b = Body::new("null".to_string());
    let payload = encode_header_body(&h, &b);
    let (h2, _) = decode_header_body(&payload).unwrap();
    match h2.error {
        Some(Error::OtherError(d)) => assert_eq!(d, "bad\nvalue \"x\""),
        _ => panic!("wrong error kind after round trip"),
    }
}
