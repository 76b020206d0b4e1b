use rtsp_core::engine::{reader_step, writer_step, ReaderDirective, ReaderEvent, WriterDirective,
    WriterEvent};
use rtsp_core::message::{Headers, MaybeInterleaved};
use rtsp_core::session::{SessionSetup, SessionState};
use rtsp_core::{
    handle_request, MediaController, Method, Request, Response, SessionId, SessionManager, Status,
};

fn request(method: Method, uri: &[u8], headers: &[(&[u8], &[u8])]) -> Request {
    let mut h = Headers::new();
    for (name, value) in headers {
        h.insert(name.to_vec(), value.to_vec());
    }
    Request { method, uri: uri.to_vec(), headers: h, body: Vec::new() }
}

fn fresh(text: &[u8]) -> SessionId {
    SessionId::new(text.to_vec())
}

fn media_with_a() -> MediaController {
    let mut media = MediaController::new();
    media.register_source(b"/a".to_vec(), b"v=0\r\n".to_vec());
    media
}

#[test]
fn options_lists_supported_methods() {
    let media = MediaController::new();
    let mut sessions = SessionManager::new();
    let req = request(Method::Options, b"rtsp://s/", &[(b"CSeq", b"1")]);
    let resp = handle_request(&req, &media, &mut sessions, fresh(b"abcdefgh"));
    assert_eq!(resp.status.code(), 200);
    assert_eq!(resp.headers.get(b"CSeq"), Some(b"1".to_vec()));
    assert_eq!(
        resp.headers.get(b"Public"),
        Some(b"OPTIONS, DESCRIBE, SETUP, PLAY, TEARDOWN".to_vec())
    );
}

#[test]
fn describe_not_acceptable_without_sdp() {
    let media = media_with_a();
    let mut sessions = SessionManager::new();
    let req = request(
        Method::Describe,
        b"rtsp://s/a",
        &[(b"CSeq", b"2"), (b"Accept", b"application/xml")],
    );
    let resp = handle_request(&req, &media, &mut sessions, fresh(b"abcdefgh"));
    assert_eq!(resp.status.code(), 406);
    assert_eq!(resp.headers.get(b"CSeq"), Some(b"2".to_vec()));
}

#[test]
fn describe_returns_registered_sdp() {
    let media = media_with_a();
    let mut sessions = SessionManager::new();
    let req = request(
        Method::Describe,
        b"rtsp://s/a",
        &[(b"CSeq", b"3"), (b"Accept", b"application/sdp")],
    );
    let resp = handle_request(&req, &media, &mut sessions, fresh(b"abcdefgh"));
    assert_eq!(resp.status.code(), 200);
    assert_eq!(resp.headers.get(b"Content-Type"), Some(b"application/sdp".to_vec()));
    assert_eq!(resp.body, b"v=0\r\n".to_vec());
    let wire = rtsp_core::codec::encode_response(&resp);
    let text = String::from_utf8(wire).unwrap();
    assert!(text.contains("Content-Length: 5\r\n"));
}

#[test]
fn describe_unknown_path_not_found() {
    let media = media_with_a();
    let mut sessions = SessionManager::new();
    let req = request(
        Method::Describe,
        b"rtsp://s/other",
        &[(b"CSeq", b"4"), (b"Accept", b"application/sdp")],
    );
    let resp = handle_request(&req, &media, &mut sessions, fresh(b"abcdefgh"));
    assert_eq!(resp.status.code(), 404);
}

#[test]
fn accept_list_is_comma_separated() {
    let media = media_with_a();
    let mut sessions = SessionManager::new();
    let req = request(
        Method::Describe,
        b"rtsp://s/a",
        &[(b"CSeq", b"5"), (b"Accept", b"application/xml, application/sdp")],
    );
    let resp = handle_request(&req, &media, &mut sessions, fresh(b"abcdefgh"));
    assert_eq!(resp.status.code(), 200);
}

#[test]
fn setup_with_session_header_is_aggregate() {
    let media = media_with_a();
    let mut sessions = SessionManager::new();
    let req = request(
        Method::Setup,
        b"rtsp://s/a",
        &[(b"CSeq", b"6"), (b"Session", b"abcd1234")],
    );
    let resp = handle_request(&req, &media, &mut sessions, fresh(b"abcdefgh"));
    assert_eq!(resp.status.code(), 459);
}

#[test]
fn redirect_from_client_not_valid() {
    let media = MediaController::new();
    let mut sessions = SessionManager::new();
    let req = request(Method::Redirect, b"rtsp://s/a", &[(b"CSeq", b"7")]);
    let resp = handle_request(&req, &media, &mut sessions, fresh(b"abcdefgh"));
    assert_eq!(resp.status.code(), 455);
}

#[test]
fn unsupported_methods_not_allowed() {
    let media = MediaController::new();
    for method in [
        Method::Announce,
        Method::GetParameter,
        Method::SetParameter,
        Method::Pause,
        Method::Record,
    ] {
        let mut sessions = SessionManager::new();
        let req = request(method, b"rtsp://s/a", &[(b"CSeq", b"8")]);
        let resp = handle_request(&req, &media, &mut sessions, fresh(b"abcdefgh"));
        assert_eq!(resp.status.code(), 405);
    }
}

#[test]
fn require_header_not_supported() {
    let media = MediaController::new();
    let mut sessions = SessionManager::new();
    let req = request(
        Method::Options,
        b"rtsp://s/",
        &[(b"CSeq", b"9"), (b"Require", b"implicit-play")],
    );
    let resp = handle_request(&req, &media, &mut sessions, fresh(b"abcdefgh"));
    assert_eq!(resp.status.code(), 551);
    assert_eq!(resp.headers.get(b"CSeq"), Some(b"9".to_vec()));
}

#[test]
fn missing_cseq_is_bad_request() {
    let media = MediaController::new();
    let mut sessions = SessionManager::new();
    let req = request(Method::Options, b"rtsp://s/", &[]);
    let resp = handle_request(&req, &media, &mut sessions, fresh(b"abcdefgh"));
    assert_eq!(resp.status.code(), 400);
}

#[test]
fn setup_allocates_session_and_channels() {
    let media = media_with_a();
    let mut sessions = SessionManager::new();
    let req = request(Method::Setup, b"rtsp://s/a", &[(b"CSeq", b"10")]);
    let resp = handle_request(&req, &media, &mut sessions, fresh(b"abcd1234"));
    assert_eq!(resp.status.code(), 200);
    assert_eq!(resp.headers.get(b"Session"), Some(b"abcd1234".to_vec()));
    assert_eq!(
        resp.headers.get(b"Transport"),
        Some(b"RTP/AVP/TCP;unicast;interleaved=0-1".to_vec())
    );
    assert_eq!(sessions.live_count(), 1);
    let second = request(Method::Setup, b"rtsp://s/a", &[(b"CSeq", b"11")]);
    let resp2 = handle_request(&second, &media, &mut sessions, fresh(b"efgh5678"));
    assert_eq!(resp2.status.code(), 200);
    assert_eq!(
        resp2.headers.get(b"Transport"),
        Some(b"RTP/AVP/TCP;unicast;interleaved=2-3".to_vec())
    );
}

#[test]
fn setup_unknown_path_not_found() {
    let media = media_with_a();
    let mut sessions = SessionManager::new();
    let req = request(Method::Setup, b"rtsp://s/missing", &[(b"CSeq", b"12")]);
    let resp = handle_request(&req, &media, &mut sessions, fresh(b"abcd1234"));
    assert_eq!(resp.status.code(), 404);
}

#[test]
fn setup_id_collision_is_internal_error() {
    let media = media_with_a();
    let mut sessions = SessionManager::new();
    let first = request(Method::Setup, b"rtsp://s/a", &[(b"CSeq", b"13")]);
    assert_eq!(handle_request(&first, &media, &mut sessions, fresh(b"abcd1234")).status.code(), 200);
    let again = request(Method::Setup, b"rtsp://s/a", &[(b"CSeq", b"14")]);
    let resp = handle_request(&again, &media, &mut sessions, fresh(b"abcd1234"));
    assert_eq!(resp.status.code(), 500);
}

#[test]
fn play_and_teardown_by_session() {
    let media = media_with_a();
    let mut sessions = SessionManager::new();
    let setup = request(Method::Setup, b"rtsp://s/a", &[(b"CSeq", b"15")]);
    handle_request(&setup, &media, &mut sessions, fresh(b"abcd1234"));
    let play = request(
        Method::Play,
        b"rtsp://s/a",
        &[(b"CSeq", b"16"), (b"Session", b"abcd1234")],
    );
    let resp = handle_request(&play, &media, &mut sessions, fresh(b"efgh5678"));
    assert_eq!(resp.status.code(), 200);
    assert_eq!(resp.headers.get(b"Session"), Some(b"abcd1234".to_vec()));
    assert_eq!(
        sessions.state_of(&SessionId::new(b"abcd1234".to_vec())),
        Some(SessionState::Playing)
    );
    let teardown = request(
        Method::Teardown,
        b"rtsp://s/a",
        &[(b"CSeq", b"17"), (b"Session", b"abcd1234")],
    );
    let resp = handle_request(&teardown, &media, &mut sessions, fresh(b"ijkl9012"));
    assert_eq!(resp.status.code(), 200);
    let again = handle_request(&teardown, &media, &mut sessions, fresh(b"mnop3456"));
    assert_eq!(again.status.code(), 454);
}

#[test]
fn play_unknown_session_not_found() {
    let media = MediaController::new();
    let mut sessions = SessionManager::new();
    let play = request(
        Method::Play,
        b"rtsp://s/a",
        &[(b"CSeq", b"18"), (b"Session", b"zzzz9999")],
    );
    let resp = handle_request(&play, &media, &mut sessions, fresh(b"abcd1234"));
    assert_eq!(resp.status.code(), 454);
}

#[test]
fn teardown_is_idempotent() {
    let mut sessions = SessionManager::new();
    let id = sessions
        .setup_and_start(
            SessionId::new(b"abcd1234".to_vec()),
            b"/a".to_vec(),
            SessionSetup { rtp_channel: 0, rtcp_channel: 1 },
        )
        .unwrap();
    assert_eq!(sessions.teardown(&id), Some(()));
    assert_eq!(sessions.teardown(&id), None);
    assert_eq!(sessions.teardown(&id), None);
    sessions.on_session_stopped(&id);
    assert_eq!(sessions.live_count(), 0);
    assert_eq!(sessions.teardown(&id), None);
}

#[test]
fn session_ids_never_reused() {
    let mut sessions = SessionManager::new();
    let id = sessions
        .setup_and_start(
            SessionId::new(b"abcd1234".to_vec()),
            b"/a".to_vec(),
            SessionSetup { rtp_channel: 0, rtcp_channel: 1 },
        )
        .unwrap();
    sessions.teardown(&id);
    sessions.on_session_stopped(&id);
    assert_eq!(sessions.live_count(), 0);
    let again = sessions.setup_and_start(
        SessionId::new(b"abcd1234".to_vec()),
        b"/a".to_vec(),
        SessionSetup { rtp_channel: 0, rtcp_channel: 1 },
    );
    assert!(again.is_err());
}

#[test]
fn stop_drains_every_session() {
    let mut sessions = SessionManager::new();
    for id in [&b"abcd1234"[..], &b"efgh5678"[..]] {
        sessions
            .setup_and_start(
                SessionId::new(id.to_vec()),
                b"/a".to_vec(),
                SessionSetup { rtp_channel: 0, rtcp_channel: 1 },
            )
            .unwrap();
    }
    assert_eq!(sessions.live_count(), 2);
    sessions.stop();
    assert_eq!(sessions.live_count(), 0);
}

#[test]
fn reader_routes_frames_by_channel() {
    let media = MediaController::new();
    let mut sessions = SessionManager::new();
    sessions
        .setup_and_start(
            SessionId::new(b"abcd1234".to_vec()),
            b"/a".to_vec(),
            SessionSetup { rtp_channel: 4, rtcp_channel: 5 },
        )
        .unwrap();
    let routed = reader_step(
        ReaderEvent::Decoded(MaybeInterleaved::Interleaved { channel: 4, payload: vec![1] }),
        &media,
        &mut sessions,
        SessionId::new(b"efgh5678".to_vec()),
    );
    match routed {
        ReaderDirective::RouteFrame { id, channel, payload } => {
            assert_eq!(id.as_bytes(), &b"abcd1234".to_vec());
            assert_eq!(channel, 4);
            assert_eq!(payload, vec![1]);
        },
        _ => panic!("expected the frame to be routed"),
    }
    let dropped = reader_step(
        ReaderEvent::Decoded(MaybeInterleaved::Interleaved { channel: 9, payload: vec![2] }),
        &media,
        &mut sessions,
        SessionId::new(b"ijkl9012".to_vec()),
    );
    assert!(matches!(dropped, ReaderDirective::DropFrame { channel: 9 }));
}

#[test]
fn cancellation_terminates_both_loops() {
    let media = MediaController::new();
    let mut sessions = SessionManager::new();
    let r = reader_step(
        ReaderEvent::ShutdownSignalled,
        &media,
        &mut sessions,
        SessionId::new(b"abcd1234".to_vec()),
    );
    assert!(matches!(r, ReaderDirective::ExitClean));
    assert!(matches!(writer_step(WriterEvent::Cancelled), WriterDirective::Exit));
    assert!(matches!(writer_step(WriterEvent::ChannelClosed), WriterDirective::Exit));
}

#[test]
fn writer_encodes_outbound_items() {
    let resp = Response::error(Status::NotFound);
    let expected = rtsp_core::codec::encode_response(&resp);
    match writer_step(WriterEvent::Outbound(MaybeInterleaved::Message(resp))) {
        WriterDirective::WriteOut(b) => assert_eq!(b, expected),
        WriterDirective::Exit => panic!("expected bytes"),
    }
    match writer_step(WriterEvent::Outbound(MaybeInterleaved::Interleaved {
        channel: 2,
        payload: vec![9, 8],
    })) {
        WriterDirective::WriteOut(b) => assert_eq!(b, vec![0x24, 2, 0, 2, 9, 8]),
        WriterDirective::Exit => panic!("expected bytes"),
    }
    let oversized = WriterEvent::Outbound(MaybeInterleaved::Interleaved {
        channel: 2,
        payload: vec![0u8; 65536],
    });
    assert!(matches!(writer_step(oversized), WriterDirective::Exit));
}
