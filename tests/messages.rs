use parallel_computing::messages::{
    CodecError, FromMessage, IntoMessage, Message, MessageContent, Request, Response, StreamContent,
};

fn encode_request(r: Request) -> Vec<u8> {
    r.into_message().encode().unwrap()
}

fn decode_request(bytes: &[u8]) -> Result<Request, CodecError> {
    let (m, used) = Message::<()>::decode(bytes)?;
    assert_eq!(used, 9 + m.len as usize);
    Request::from_message(m)
}

fn decode_response(bytes: &[u8]) -> Result<Response<()>, CodecError> {
    let (m, _) = Message::<()>::decode(bytes)?;
    Response::<()>::from_message(m)
}

fn encode_response(r: Response<()>) -> Vec<u8> {
    r.into_message().encode().unwrap()
}

#[test]
fn ping_is_nine_zero_bytes() {
    assert_eq!(encode_request(Request::Ping), vec![0u8; 9]);
    assert!(matches!(decode_request(&[0u8; 9]), Ok(Request::Ping)));
    assert_eq!(encode_response(Response::Pong), vec![0u8; 9]);
    assert!(matches!(decode_response(&[0u8; 9]), Ok(Response::Pong)));
}

#[test]
fn header_is_kind_then_big_endian_length() {
    let text = "x".repeat(258);
    let m: Message<()> = Message::from_string(7, text);
    assert_eq!(m.header(), vec![7, 0, 0, 0, 0, 0, 0, 1, 2]);
    let bytes = m.encode().unwrap();
    assert_eq!(bytes.len(), 9 + 258);
    assert_eq!(bytes[9], b'x');
}

#[test]
fn query_round_trip() {
    let bytes = encode_request(Request::Query("running jump".to_string()));
    assert_eq!(&bytes[..9], &[1, 0, 0, 0, 0, 0, 0, 0, 12]);
    assert_eq!(&bytes[9..], b"running jump");
    match decode_request(&bytes) {
        Ok(Request::Query(s)) => assert_eq!(s, "running jump"),
        _ => panic!("query did not come back"),
    }
}

#[test]
fn query_file_round_trip_with_non_ascii_path() {
    let bytes = encode_request(Request::QueryFile("/tmp/アニャ.txt".to_string()));
    assert_eq!(bytes[0], 2);
    match decode_request(&bytes) {
        Ok(Request::QueryFile(s)) => assert_eq!(s, "/tmp/アニャ.txt"),
        _ => panic!("file query did not come back"),
    }
}

#[test]
fn responses_round_trip() {
    match decode_response(&encode_response(Response::Error("file does not exist".to_string()))) {
        Ok(Response::Error(s)) => assert_eq!(s, "file does not exist"),
        _ => panic!("error did not come back"),
    }
    let json = "[{\"document\":\"d1\",\"rank\":1}]".to_string();
    match decode_response(&encode_response(Response::QueryResult(json.clone()))) {
        Ok(Response::QueryResult(s)) => assert_eq!(s, json),
        _ => panic!("result did not come back"),
    }
    match decode_response(&encode_response(Response::FileResult(MessageContent::String("body".to_string())))) {
        Ok(Response::FileResult(MessageContent::String(s))) => assert_eq!(s, "body"),
        _ => panic!("file did not come back"),
    }
}

#[test]
fn decoder_stops_at_declared_length() {
    let mut bytes = encode_request(Request::Query("abc".to_string()));
    let frame_len = bytes.len();
    bytes.extend_from_slice(&[0xff, 0xfe, 1, 2, 3]);
    let (m, used) = Message::<()>::decode(&bytes).unwrap();
    assert_eq!(used, frame_len);
    assert_eq!(m.kind, 1);
    assert_eq!(m.len, 3);
}

#[test]
fn truncated_frames_are_rejected() {
    let bytes = encode_request(Request::Query("abc".to_string()));
    for cut in 0..bytes.len() {
        assert!(matches!(Message::<()>::decode(&bytes[..cut]), Err(CodecError::UnexpectedEof)));
    }
}

#[test]
fn payload_must_be_utf8() {
    let bytes = [1u8, 0, 0, 0, 0, 0, 0, 0, 2, 0xc3, 0x28];
    assert!(matches!(Message::<()>::decode(&bytes), Err(CodecError::InvalidData)));
}

#[test]
fn unknown_kinds_are_rejected() {
    assert!(matches!(decode_request(&[3, 0, 0, 0, 0, 0, 0, 0, 0]), Err(CodecError::InvalidInput)));
    assert!(matches!(decode_response(&[4, 0, 0, 0, 0, 0, 0, 0, 0]), Err(CodecError::InvalidInput)));
}

#[test]
fn missing_payload_is_rejected() {
    assert!(matches!(decode_request(&[1, 0, 0, 0, 0, 0, 0, 0, 0]), Err(CodecError::InvalidInput)));
    assert!(matches!(decode_request(&encode_request(Request::Query(String::new()))), Err(CodecError::InvalidInput)));
    assert!(matches!(decode_response(&[1, 0, 0, 0, 0, 0, 0, 0, 0]), Err(CodecError::InvalidInput)));
}

#[test]
fn streamed_payload_is_not_read_back() {
    let m: Message<Vec<u8>> = Message::from_stream_content(3, StreamContent { stream: vec![1, 2, 3], len: 3 });
    assert_eq!(m.len, 3);
    assert!(m.encode().is_none());
    assert_eq!(m.header(), vec![3, 0, 0, 0, 0, 0, 0, 0, 3]);
    assert!(matches!(Response::<()>::from_message(m), Err(CodecError::Unsupported)));
    let q: Message<Vec<u8>> = Message::from_stream_content(1, StreamContent { stream: vec![1], len: 1 });
    assert!(matches!(Request::from_message(q), Err(CodecError::Unsupported)));
}

#[test]
fn empty_message_has_no_payload() {
    let m: Message<()> = Message::empty(5);
    assert_eq!(m.len, 0);
    assert!(m.content.is_none());
    assert_eq!(m.encode().unwrap(), vec![5, 0, 0, 0, 0, 0, 0, 0, 0]);
}
