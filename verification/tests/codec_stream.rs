use bytes::BytesMut;
use rtsp_core::codec::{encode_request, encode_response};
use rtsp_core::message::{Headers, MaybeInterleaved};
use rtsp_core::{Codec, Error, Method, Request, Response, Status};

fn buf_of(bytes: &[u8]) -> BytesMut {
    let mut b = BytesMut::new();
    b.extend_from_slice(bytes);
    b
}

#[test]
fn decodes_options_request() {
    let mut codec = Codec::new();
    let mut src = buf_of(b"OPTIONS rtsp://s/ RTSP/1.0\r\nCSeq: 1\r\n\r\n");
    let item = codec.decode(&mut src).unwrap().unwrap();
    match item {
        MaybeInterleaved::Message(req) => {
            assert!(matches!(req.method, Method::Options));
            assert_eq!(req.uri, b"rtsp://s/".to_vec());
            assert_eq!(req.headers.get(b"CSeq"), Some(b"1".to_vec()));
            assert_eq!(req.body, Vec::<u8>::new());
        },
        MaybeInterleaved::Interleaved { .. } => panic!("expected a message"),
    }
    assert_eq!(src.len(), 0);
}

#[test]
fn interleaved_frame_bytes_exact() {
    let mut codec = Codec::new();
    let mut dst = BytesMut::new();
    codec
        .encode(
            MaybeInterleaved::Interleaved { channel: 0, payload: vec![0, 1, 2, 3] },
            &mut dst,
        )
        .unwrap();
    assert_eq!(&dst[..], &[0x24, 0x00, 0x00, 0x04, 0x00, 0x01, 0x02, 0x03]);
    let mut src = dst;
    let item = codec.decode(&mut src).unwrap().unwrap();
    match item {
        MaybeInterleaved::Interleaved { channel, payload } => {
            assert_eq!(channel, 0);
            assert_eq!(payload, vec![0, 1, 2, 3]);
        },
        MaybeInterleaved::Message(_) => panic!("expected a frame"),
    }
}

#[test]
fn byte_at_a_time_chunking() {
    let wire = b"DESCRIBE rtsp://s/a RTSP/1.0\r\nCSeq: 2\r\nAccept: application/sdp\r\n\r\n";
    let mut codec = Codec::new();
    let mut src = BytesMut::new();
    let mut yielded = 0;
    for (i, byte) in wire.iter().enumerate() {
        src.extend_from_slice(&[*byte]);
        match codec.decode(&mut src).unwrap() {
            None => assert!(i + 1 < wire.len(), "hungry on the full input"),
            Some(MaybeInterleaved::Message(req)) => {
                assert_eq!(i + 1, wire.len(), "item before the full input");
                assert!(matches!(req.method, Method::Describe));
                yielded += 1;
            },
            Some(MaybeInterleaved::Interleaved { .. }) => panic!("expected a message"),
        }
    }
    assert_eq!(yielded, 1);
    assert!(codec.decode(&mut src).unwrap().is_none());
}

#[test]
fn stream_of_items_in_order() {
    let mut codec = Codec::new();
    let mut src = BytesMut::new();
    src.extend_from_slice(&[0x24, 7, 0x00, 0x02, 0xaa, 0xbb]);
    src.extend_from_slice(b"TEARDOWN rtsp://s/a RTSP/1.0\r\nCSeq: 9\r\n\r\n");
    src.extend_from_slice(&[0x24, 9, 0x00, 0x01, 0xcc]);
    match codec.decode(&mut src).unwrap().unwrap() {
        MaybeInterleaved::Interleaved { channel, payload } => {
            assert_eq!((channel, payload), (7, vec![0xaa, 0xbb]));
        },
        _ => panic!("expected the first frame"),
    }
    match codec.decode(&mut src).unwrap().unwrap() {
        MaybeInterleaved::Message(req) => assert!(matches!(req.method, Method::Teardown)),
        _ => panic!("expected the message"),
    }
    match codec.decode(&mut src).unwrap().unwrap() {
        MaybeInterleaved::Interleaved { channel, payload } => {
            assert_eq!((channel, payload), (9, vec![0xcc]));
        },
        _ => panic!("expected the second frame"),
    }
    assert!(codec.decode(&mut src).unwrap().is_none());
}

#[test]
fn request_round_trips_with_auto_content_length() {
    let mut headers = Headers::new();
    headers.insert(b"CSeq".to_vec(), b"3".to_vec());
    let req = Request {
        method: Method::SetParameter,
        uri: b"rtsp://s/a".to_vec(),
        headers,
        body: b"x: y".to_vec(),
    };
    let wire = encode_request(&req);
    let mut codec = Codec::new();
    let mut src = buf_of(&wire);
    match codec.decode(&mut src).unwrap().unwrap() {
        MaybeInterleaved::Message(back) => {
            assert!(matches!(back.method, Method::SetParameter));
            assert_eq!(back.uri, req.uri);
            assert_eq!(back.body, req.body);
            assert_eq!(back.headers.get(b"CSeq"), Some(b"3".to_vec()));
            assert_eq!(back.headers.get(b"Content-Length"), Some(b"4".to_vec()));
        },
        _ => panic!("expected a message"),
    }
    assert_eq!(src.len(), 0);
}

#[test]
fn response_encoding_exact() {
    let resp = Response::ok();
    let resp = {
        let mut h = Headers::new();
        h.insert(b"CSeq".to_vec(), b"1".to_vec());
        Response { status: resp.status, headers: h, body: b"v=0\r\n".to_vec() }
    };
    let wire = encode_response(&resp);
    let text = String::from_utf8(wire).unwrap();
    assert_eq!(
        text,
        "RTSP/1.0 200 OK\r\nCSeq: 1\r\nContent-Length: 5\r\n\r\nv=0\r\n"
    );
}

#[test]
fn lone_lf_accepted_on_input() {
    let mut codec = Codec::new();
    let mut src = buf_of(b"OPTIONS rtsp://s/ RTSP/1.0\nCSeq: 4\n\n");
    match codec.decode(&mut src).unwrap().unwrap() {
        MaybeInterleaved::Message(req) => {
            assert!(matches!(req.method, Method::Options));
            assert_eq!(req.headers.get(b"cseq"), Some(b"4".to_vec()));
        },
        _ => panic!("expected a message"),
    }
}

#[test]
fn header_without_colon_is_fatal() {
    let mut codec = Codec::new();
    let mut src = buf_of(b"OPTIONS rtsp://s/ RTSP/1.0\r\nnocolon\r\n\r\n");
    assert_eq!(codec.decode(&mut src).unwrap_err(), Error::HeaderMalformed);
}

#[test]
fn unknown_version_is_fatal() {
    let mut codec = Codec::new();
    let mut src = buf_of(b"OPTIONS rtsp://s/ RTSP/2.0\r\n\r\n");
    assert_eq!(codec.decode(&mut src).unwrap_err(), Error::VersionUnknown);
}

#[test]
fn malformed_start_line_is_fatal() {
    let mut codec = Codec::new();
    let mut src = buf_of(b"NONSENSE rtsp://s/ RTSP/1.0\r\n\r\n");
    assert_eq!(codec.decode(&mut src).unwrap_err(), Error::StartLineMalformed);
}

#[test]
fn content_length_must_be_numeric() {
    let mut codec = Codec::new();
    let mut src = buf_of(b"OPTIONS rtsp://s/ RTSP/1.0\r\nContent-Length: abc\r\n\r\n");
    assert_eq!(codec.decode(&mut src).unwrap_err(), Error::ContentLengthInvalid);
}

#[test]
fn body_over_ceiling_is_fatal() {
    let mut codec = Codec::with_limit(16);
    let mut src = buf_of(b"OPTIONS rtsp://s/ RTSP/1.0\r\nContent-Length: 17\r\n\r\n");
    assert_eq!(codec.decode(&mut src).unwrap_err(), Error::MessageTooLarge);
}

#[test]
fn frame_over_ceiling_is_fatal() {
    let mut codec = Codec::with_limit(16);
    let mut src = buf_of(&[0x24, 0, 0x00, 0x11]);
    assert_eq!(codec.decode(&mut src).unwrap_err(), Error::FrameTooLarge);
}

#[test]
fn oversized_outbound_payload_fails_encoding() {
    let mut codec = Codec::new();
    let mut dst = BytesMut::new();
    let r = codec.encode(
        MaybeInterleaved::Interleaved { channel: 1, payload: vec![0u8; 65536] },
        &mut dst,
    );
    assert_eq!(r.unwrap_err(), Error::PayloadTooLarge);
    assert_eq!(dst.len(), 0);
}

#[test]
fn status_codes_match_the_enumeration() {
    assert_eq!(Status::Okay.code(), 200);
    assert_eq!(Status::BadRequest.code(), 400);
    assert_eq!(Status::NotFound.code(), 404);
    assert_eq!(Status::MethodNotAllowed.code(), 405);
    assert_eq!(Status::NotAcceptable.code(), 406);
    assert_eq!(Status::SessionNotFound.code(), 454);
    assert_eq!(Status::MethodNotValidInThisState.code(), 455);
    assert_eq!(Status::AggregateOperationNotAllowed.code(), 459);
    assert_eq!(Status::InternalServerError.code(), 500);
    assert_eq!(Status::OptionNotSupported.code(), 551);
}
