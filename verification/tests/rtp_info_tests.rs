use rtsp_core::rtp_info::parse_rtp_info;
use rtsp_core::{Error, RtpInfo};

#[test]
fn parses_url_seq_and_rtptime() {
    let info = parse_rtp_info("url=rtsp://s/a;seq=42;rtptime=7").unwrap();
    assert_eq!(info.url, "rtsp://s/a");
    assert_eq!(info.seq, Some(42));
    assert_eq!(info.rtptime, Some(7));
}

#[test]
fn parses_url_alone() {
    let info = parse_rtp_info("url=rtsp://s/a").unwrap();
    assert_eq!(info.url, "rtsp://s/a");
    assert_eq!(info.seq, None);
    assert_eq!(info.rtptime, None);
}

#[test]
fn parameter_order_is_free() {
    let info = parse_rtp_info("url=u;rtptime=3;seq=2").unwrap();
    assert_eq!(info.seq, Some(2));
    assert_eq!(info.rtptime, Some(3));
}

#[test]
fn unknown_parameter_rejected() {
    match parse_rtp_info("url=rtsp://s/a;bogus=1") {
        Err(Error::RtpInfoParameterUnknown { value }) => assert_eq!(value, "bogus=1"),
        other => panic!("unexpected result: {:?}", other),
    }
}

#[test]
fn url_must_come_first() {
    match parse_rtp_info("seq=1") {
        Err(Error::RtpInfoParameterUnknown { value }) => assert_eq!(value, "seq=1"),
        other => panic!("unexpected result: {:?}", other),
    }
}

#[test]
fn invalid_number_rejected() {
    match parse_rtp_info("url=u;seq=70000") {
        Err(Error::RtpInfoParameterInvalid { value }) => assert_eq!(value, "seq=70000"),
        other => panic!("unexpected result: {:?}", other),
    }
    match parse_rtp_info("url=u;rtptime=abc") {
        Err(Error::RtpInfoParameterInvalid { value }) => assert_eq!(value, "rtptime=abc"),
        other => panic!("unexpected result: {:?}", other),
    }
}

#[test]
fn fourth_segment_rejected() {
    match parse_rtp_info("url=u;seq=1;rtptime=2;seq=3") {
        Err(Error::RtpInfoParameterUnexpected { value }) => assert_eq!(value, "seq=3"),
        other => panic!("unexpected result: {:?}", other),
    }
}

#[test]
fn repeated_parameter_rejected() {
    match parse_rtp_info("url=u;seq=1;seq=2") {
        Err(Error::RtpInfoParameterUnexpected { value }) => assert_eq!(value, "seq=2"),
        other => panic!("unexpected result: {:?}", other),
    }
}

#[test]
fn builders_fill_the_fields() {
    let info = RtpInfo::new("rtsp://s/a").with_seq(5).with_rtptime(6);
    assert_eq!(info.url, "rtsp://s/a");
    assert_eq!(info.seq, Some(5));
    assert_eq!(info.rtptime, Some(6));
    let timed = RtpInfo::new_with_timing("u", 1, 2);
    assert_eq!((timed.seq, timed.rtptime), (Some(1), Some(2)));
}

#[test]
fn display_emits_canonical_order() {
    let info = RtpInfo::new_with_timing("rtsp://s/a", 42, 7);
    assert_eq!(info.display_string(), "url=rtsp://s/a;seq=42;rtptime=7");
    let bare = RtpInfo::new("u");
    assert_eq!(bare.display_string(), "url=u");
    let with_time = RtpInfo::new("u").with_rtptime(1234567890);
    assert_eq!(with_time.display_string(), "url=u;rtptime=1234567890");
}

#[test]
fn display_then_parse_round_trips() {
    let info = RtpInfo::new_with_timing("rtsp://s/trk", 65535, 4294967295);
    let text = info.display_string();
    let back = parse_rtp_info(&text).unwrap();
    assert_eq!(back.url, info.url);
    assert_eq!(back.seq, info.seq);
    assert_eq!(back.rtptime, info.rtptime);
}
