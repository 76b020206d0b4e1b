//! The framing codec: one byte stream carries text RTSP messages
//! multiplexed with `$`-prefixed binary interleaved frames. The decoder
//! consumes a growable buffer and yields one item or reports hungry; the
//! encoder appends the symmetric outbound bytes.

use vstd::prelude::*;
use crate::buf::{buf_advance, buf_model, buf_to_vec};
use crate::error::Error;
use crate::message::{
    ascii_of, content_length_name, header_lookup, str_to_bytes, Headers, MaybeInterleaved,
    MaybeInterleavedModel, Method, Request, RequestModel, Response, ResponseModel, Status, CR,
    LF, SP, COLON, MAGIC,
};
use crate::scan::{
    all_digits, copy_range, dec_digits, dec_value, dec_vec, find_byte, is_digits,
    parse_dec_bounded, scan_byte, scan_byte_from, trim, trim_bytes_range,
};

verus! {

/// What one decoder invocation yields on a given buffer: nothing yet, a
/// terminal parse error, or one complete item with the bytes it used.
pub ghost enum DecodedModel {
    Hungry,
    Bad(Error),
    Frame { channel: u8, payload: Seq<u8>, used: int },
    Msg { req: RequestModel, used: int },
}

/// The fixed protocol version.
pub open spec fn version_bytes() -> Seq<u8> {
    ascii_of("RTSP/1.0"@)
}

/// The wire name of each method.
pub open spec fn method_bytes(m: Method) -> Seq<u8> {
    match m {
        Method::Options => ascii_of("OPTIONS"@),
        Method::Announce => ascii_of("ANNOUNCE"@),
        Method::Describe => ascii_of("DESCRIBE"@),
        Method::GetParameter => ascii_of("GET_PARAMETER"@),
        Method::SetParameter => ascii_of("SET_PARAMETER"@),
        Method::Setup => ascii_of("SETUP"@),
        Method::Play => ascii_of("PLAY"@),
        Method::Pause => ascii_of("PAUSE"@),
        Method::Record => ascii_of("RECORD"@),
        Method::Teardown => ascii_of("TEARDOWN"@),
        Method::Redirect => ascii_of("REDIRECT"@),
    }
}

/// The method a wire name denotes, if any.
pub open spec fn method_of(s: Seq<u8>) -> Option<Method> {
    if s == method_bytes(Method::Options) {
        Some(Method::Options)
    } else if s == method_bytes(Method::Announce) {
        Some(Method::Announce)
    } else if s == method_bytes(Method::Describe) {
        Some(Method::Describe)
    } else if s == method_bytes(Method::GetParameter) {
        Some(Method::GetParameter)
    } else if s == method_bytes(Method::SetParameter) {
        Some(Method::SetParameter)
    } else if s == method_bytes(Method::Setup) {
        Some(Method::Setup)
    } else if s == method_bytes(Method::Play) {
        Some(Method::Play)
    } else if s == method_bytes(Method::Pause) {
        Some(Method::Pause)
    } else if s == method_bytes(Method::Record) {
        Some(Method::Record)
    } else if s == method_bytes(Method::Teardown) {
        Some(Method::Teardown)
    } else if s == method_bytes(Method::Redirect) {
        Some(Method::Redirect)
    } else {
        None
    }
}

/// Index of the first line feed at or after `p`; `s.len()` when absent.
pub open spec fn lf_at(s: Seq<u8>, p: int) -> int {
    p + find_byte(s.skip(p), LF)
}

/// The content of the line `[p, e)`, the trailing carriage return
/// stripped: the canonical terminator is CRLF, a lone LF is accepted.
pub open spec fn line_content(s: Seq<u8>, p: int, e: int) -> Seq<u8> {
    let raw = s.subrange(p, e);
    if raw.len() > 0 && raw.last() == CR {
        raw.drop_last()
    } else {
        raw
    }
}

/// Index just past the blank line that ends the header block whose lines
/// start at `p`; `-1` while the block is still incomplete.
pub open spec fn head_end_from(s: Seq<u8>, p: int) -> int
    decreases s.len() - p,
        when 0 <= p <= s.len()
{
    let e = lf_at(s, p);
    if e >= s.len() {
        -1
    } else if line_content(s, p, e).len() == 0 {
        e + 1
    } else {
        head_end_from(s, e + 1)
    }
}

/// The header fields on the lines from `p` up to the blank line: each
/// line split at its first colon, the value trimmed. `None` on a line
/// without a colon.
pub open spec fn parse_header_lines(s: Seq<u8>, p: int) -> Option<Seq<(Seq<u8>, Seq<u8>)>>
    decreases s.len() - p,
        when 0 <= p <= s.len()
{
    let e = lf_at(s, p);
    if e >= s.len() {
        None
    } else {
        let c = line_content(s, p, e);
        if c.len() == 0 {
            Some(Seq::<(Seq<u8>, Seq<u8>)>::empty())
        } else {
            let colon = find_byte(c, COLON) as int;
            if colon >= c.len() {
                None
            } else {
                match parse_header_lines(s, e + 1) {
                    None => None,
                    Some(rest) => Some(
                        seq![(c.take(colon), trim(c.skip(colon + 1)))] + rest,
                    ),
                }
            }
        }
    }
}

/// The method and URI of a request line `METHOD SP URI SP RTSP/1.0`.
pub open spec fn parse_request_line(c: Seq<u8>) -> Result<(Method, Seq<u8>), Error> {
    let sp1 = find_byte(c, SP) as int;
    if sp1 >= c.len() {
        Err(Error::StartLineMalformed)
    } else {
        let rest = c.skip(sp1 + 1);
        let sp2 = find_byte(rest, SP) as int;
        if sp2 >= rest.len() {
            Err(Error::StartLineMalformed)
        } else if rest.skip(sp2 + 1) != version_bytes() {
            Err(Error::VersionUnknown)
        } else {
            match method_of(c.take(sp1)) {
                None => Err(Error::StartLineMalformed),
                Some(m) => {
                    if sp2 == 0 {
                        Err(Error::StartLineMalformed)
                    } else {
                        Ok((m, rest.take(sp2)))
                    }
                },
            }
        }
    }
}

/// The tail of message decoding, once the head is complete: the body
/// length from `Content-Length`, then the body itself.
pub open spec fn finish_msg(
    s: Seq<u8>,
    he: int,
    m: Method,
    uri: Seq<u8>,
    hs: Seq<(Seq<u8>, Seq<u8>)>,
    n: int,
) -> DecodedModel {
    if s.len() < he + n {
        DecodedModel::Hungry
    } else {
        DecodedModel::Msg {
            req: RequestModel { method: m, uri, headers: hs, body: s.subrange(he, he + n) },
            used: he + n,
        }
    }
}

/// What decoding a text message from the buffer yields.
pub open spec fn parse_request_msg(s: Seq<u8>, limit: int) -> DecodedModel {
    let he = head_end_from(s, 0);
    if he < 0 {
        DecodedModel::Hungry
    } else {
        let e0 = lf_at(s, 0);
        match parse_request_line(line_content(s, 0, e0)) {
            Err(e) => DecodedModel::Bad(e),
            Ok(ml) => {
                match parse_header_lines(s, e0 + 1) {
                    None => DecodedModel::Bad(Error::HeaderMalformed),
                    Some(hs) => {
                        match header_lookup(hs, content_length_name()) {
                            None => finish_msg(s, he, ml.0, ml.1, hs, 0),
                            Some(v) => {
                                if !is_digits(v) {
                                    DecodedModel::Bad(Error::ContentLengthInvalid)
                                } else if dec_value(v) > limit {
                                    DecodedModel::Bad(Error::MessageTooLarge)
                                } else {
                                    finish_msg(s, he, ml.0, ml.1, hs, dec_value(v))
                                }
                            },
                        }
                    },
                }
            },
        }
    }
}

/// What decoding an interleaved frame from the buffer yields; the first
/// byte is already known to be the magic byte.
pub open spec fn parse_frame(s: Seq<u8>, limit: int) -> DecodedModel {
    if s.len() < 4 {
        DecodedModel::Hungry
    } else {
        let ln = s[2] * 256 + s[3];
        if ln > limit {
            DecodedModel::Bad(Error::FrameTooLarge)
        } else if s.len() < 4 + ln {
            DecodedModel::Hungry
        } else {
            DecodedModel::Frame { channel: s[1], payload: s.subrange(4, 4 + ln), used: 4 + ln }
        }
    }
}

/// One decoder step on the whole unconsumed buffer: the first byte picks
/// the branch, so a stray `$` inside an in-progress message is never
/// taken for a frame, and a complete item is consumed at once.
pub open spec fn decode_model(s: Seq<u8>, limit: int) -> DecodedModel {
    if s.len() == 0 {
        DecodedModel::Hungry
    } else if s[0] == MAGIC {
        parse_frame(s, limit)
    } else {
        parse_request_msg(s, limit)
    }
}

/// The wire reason phrase of each status.
pub open spec fn reason_bytes(st: Status) -> Seq<u8> {
    match st {
        Status::Okay => ascii_of("OK"@),
        Status::BadRequest => ascii_of("Bad Request"@),
        Status::NotFound => ascii_of("Not Found"@),
        Status::MethodNotAllowed => ascii_of("Method Not Allowed"@),
        Status::NotAcceptable => ascii_of("Not Acceptable"@),
        Status::SessionNotFound => ascii_of("Session Not Found"@),
        Status::MethodNotValidInThisState => ascii_of("Method Not Valid in This State"@),
        Status::AggregateOperationNotAllowed => ascii_of("Aggregate Operation Not Allowed"@),
        Status::InternalServerError => ascii_of("Internal Server Error"@),
        Status::OptionNotSupported => ascii_of("Option Not Supported"@),
    }
}

/// The status line `RTSP/1.0 SP code SP reason CRLF`.
pub open spec fn status_line_bytes(st: Status) -> Seq<u8> {
    version_bytes() + seq![SP] + dec_digits(st.spec_code() as nat) + seq![SP] + reason_bytes(st)
        + seq![CR, LF]
}

/// The request line `METHOD SP URI SP RTSP/1.0 CRLF`.
pub open spec fn request_line_bytes(m: Method, uri: Seq<u8>) -> Seq<u8> {
    method_bytes(m) + seq![SP] + uri + seq![SP] + version_bytes() + seq![CR, LF]
}

/// One emitted header line `name: value CRLF`.
pub open spec fn header_line_bytes(e: (Seq<u8>, Seq<u8>)) -> Seq<u8> {
    e.0 + seq![COLON, SP] + e.1 + seq![CR, LF]
}

/// The emitted header block from position `i` on, in insertion order.
pub open spec fn headers_bytes_from(hs: Seq<(Seq<u8>, Seq<u8>)>, i: int) -> Seq<u8>
    decreases hs.len() - i,
        when 0 <= i <= hs.len()
{
    if i >= hs.len() {
        Seq::<u8>::empty()
    } else {
        header_line_bytes(hs[i]) + headers_bytes_from(hs, i + 1)
    }
}

/// The headers actually written: `Content-Length` is filled in when a
/// body is present and the caller has not set it.
pub open spec fn effective_headers(hs: Seq<(Seq<u8>, Seq<u8>)>, body: Seq<u8>) -> Seq<
    (Seq<u8>, Seq<u8>),
> {
    if body.len() > 0 && header_lookup(hs, content_length_name()) is None {
        hs.push((content_length_name(), dec_digits(body.len())))
    } else {
        hs
    }
}

/// A whole encoded response.
pub open spec fn response_bytes(r: ResponseModel) -> Seq<u8> {
    status_line_bytes(r.status) + headers_bytes_from(effective_headers(r.headers, r.body), 0)
        + seq![CR, LF] + r.body
}

/// A whole encoded request.
pub open spec fn request_bytes(r: RequestModel) -> Seq<u8> {
    request_line_bytes(r.method, r.uri) + headers_bytes_from(
        effective_headers(r.headers, r.body),
        0,
    ) + seq![CR, LF] + r.body
}

/// A whole encoded interleaved frame: magic, channel, big-endian length,
/// payload.
pub open spec fn frame_bytes(channel: u8, payload: Seq<u8>) -> Seq<u8> {
    seq![MAGIC, channel, (payload.len() / 256) as u8, (payload.len() % 256) as u8] + payload
}

/// The method a wire name denotes, executable form.
pub fn method_from_bytes(v: &[u8]) -> (r: Option<Method>)
    ensures
        r == method_of(v@),
{
    proof {
        reveal_strlit("OPTIONS");
        reveal_strlit("ANNOUNCE");
        reveal_strlit("DESCRIBE");
        reveal_strlit("GET_PARAMETER");
        reveal_strlit("SET_PARAMETER");
        reveal_strlit("SETUP");
        reveal_strlit("PLAY");
        reveal_strlit("PAUSE");
        reveal_strlit("RECORD");
        reveal_strlit("TEARDOWN");
        reveal_strlit("REDIRECT");
    }
    if crate::message::bytes_eq(v, str_to_bytes("OPTIONS").as_slice()) {
        Some(Method::Options)
    } else if crate::message::bytes_eq(v, str_to_bytes("ANNOUNCE").as_slice()) {
        Some(Method::Announce)
    } else if crate::message::bytes_eq(v, str_to_bytes("DESCRIBE").as_slice()) {
        Some(Method::Describe)
    } else if crate::message::bytes_eq(v, str_to_bytes("GET_PARAMETER").as_slice()) {
        Some(Method::GetParameter)
    } else if crate::message::bytes_eq(v, str_to_bytes("SET_PARAMETER").as_slice()) {
        Some(Method::SetParameter)
    } else if crate::message::bytes_eq(v, str_to_bytes("SETUP").as_slice()) {
        Some(Method::Setup)
    } else if crate::message::bytes_eq(v, str_to_bytes("PLAY").as_slice()) {
        Some(Method::Play)
    } else if crate::message::bytes_eq(v, str_to_bytes("PAUSE").as_slice()) {
        Some(Method::Pause)
    } else if crate::message::bytes_eq(v, str_to_bytes("RECORD").as_slice()) {
        Some(Method::Record)
    } else if crate::message::bytes_eq(v, str_to_bytes("TEARDOWN").as_slice()) {
        Some(Method::Teardown)
    } else if crate::message::bytes_eq(v, str_to_bytes("REDIRECT").as_slice()) {
        Some(Method::Redirect)
    } else {
        None
    }
}

/// The line `[p, e)` of `v`, its trailing carriage return stripped.
fn line_at(v: &[u8], p: usize, e: usize) -> (r: Vec<u8>)
    requires
        p <= e <= v@.len(),
    ensures
        r@ == line_content(v@, p as int, e as int),
{
    let mut r = copy_range(v, p, e);
    if r.len() > 0 && r[r.len() - 1] == CR {
        r.pop();
        proof {
            assert(r@ =~= v@.subrange(p as int, e as int).drop_last());
        }
    }
    r
}

/// The request line, executable form.
fn parse_start_line(c: &[u8]) -> (r: Result<(Method, Vec<u8>), Error>)
    ensures
        match r {
            Ok(p) => parse_request_line(c@) == Ok::<(Method, Seq<u8>), Error>((p.0, p.1@)),
            Err(e) => parse_request_line(c@) == Err::<(Method, Seq<u8>), Error>(e),
        },
{
    let n = c.len();
    proof {
        crate::scan::lemma_find_byte(c@, SP);
    }
    let sp1 = scan_byte(c, SP);
    if sp1 == n {
        return Err(Error::StartLineMalformed);
    }
    let ghost rest = c@.skip(sp1 + 1);
    let sp2a = scan_byte_from(c, sp1 + 1, SP);
    if sp2a == n {
        return Err(Error::StartLineMalformed);
    }
    let ghost sp2 = sp2a - (sp1 + 1);
    let ver = copy_range(c, sp2a + 1, n);
    proof {
        reveal_strlit("RTSP/1.0");
        assert(ver@ =~= rest.skip(sp2 + 1));
    }
    if !crate::message::bytes_eq(ver.as_slice(), str_to_bytes("RTSP/1.0").as_slice()) {
        return Err(Error::VersionUnknown);
    }
    let mname = copy_range(c, 0, sp1);
    proof {
        assert(mname@ =~= c@.take(sp1 as int));
    }
    match method_from_bytes(mname.as_slice()) {
        None => Err(Error::StartLineMalformed),
        Some(m) => {
            if sp2a == sp1 + 1 {
                Err(Error::StartLineMalformed)
            } else {
                let uri = copy_range(c, sp1 + 1, sp2a);
                proof {
                    assert(uri@ =~= rest.take(sp2));
                }
                Ok((m, uri))
            }
        },
    }
}

/// One decoder step over the unconsumed bytes: hungry, one complete item
/// with the count of bytes it used, or a terminal parse error.
pub fn decode_step(v: &[u8], limit: usize) -> (r: Result<
    Option<(MaybeInterleaved<Request>, usize)>,
    Error,
>)
    requires
        limit <= 0x0fff_ffff,
    ensures
        ({
            let m = decode_model(v@, limit as int);
            match r {
                Ok(None) => m is Hungry,
                Ok(Some(p)) => p.1 <= v@.len() && match m {
                    DecodedModel::Frame { channel, payload, used } => p.0@
                        == MaybeInterleavedModel::<RequestModel>::Interleaved { channel, payload }
                        && p.1 == used,
                    DecodedModel::Msg { req, used } => p.0@ == MaybeInterleavedModel::<
                        RequestModel,
                    >::Message(req) && p.1 == used,
                    _ => false,
                },
                Err(e) => m == DecodedModel::Bad(e),
            }
        }),
{
    let n = v.len();
    if n == 0 {
        return Ok(None);
    }
    if v[0] == MAGIC {
        if n < 4 {
            return Ok(None);
        }
        let ln: usize = (v[2] as usize) * 256 + (v[3] as usize);
        if ln > limit {
            return Err(Error::FrameTooLarge);
        }
        if n - 4 < ln {
            return Ok(None);
        }
        let payload = copy_range(v, 4, 4 + ln);
        return Ok(Some((MaybeInterleaved::Interleaved { channel: v[1], payload }, 4 + ln)));
    }
    // A text message: find the first line.
    proof {
        assert(v@.skip(0) =~= v@);
        crate::scan::lemma_find_byte(v@, LF);
    }
    let e0 = scan_byte(v, LF);
    proof {
        assert(e0 == lf_at(v@, 0));
    }
    if e0 == n {
        return Ok(None);
    }
    let start = line_at(v, 0, e0);
    if start.len() == 0 {
        // A blank start line: the head is complete and the request line
        // cannot parse.
        return Err(Error::StartLineMalformed);
    }
    let mut p: usize = e0 + 1;
    let mut hdrs = Headers::new();
    let mut bad = false;
    proof {
        assert(head_end_from(v@, 0) == head_end_from(v@, e0 + 1));
        if parse_header_lines(v@, e0 + 1) is Some {
            let rest0 = parse_header_lines(v@, e0 + 1).unwrap();
            assert(hdrs@ + rest0 =~= rest0);
        }
    }
    loop
        invariant
            n == v@.len(),
            n > 0,
            v@[0] != MAGIC,
            e0 == lf_at(v@, 0),
            0 <= e0 < n,
            e0 + 1 <= p <= n,
            limit <= 0x0fff_ffff,
            start@ == line_content(v@, 0, e0 as int),
            start@.len() > 0,
            head_end_from(v@, 0) == head_end_from(v@, p as int),
            !bad ==> parse_header_lines(v@, e0 + 1) == (match parse_header_lines(v@, p as int) {
                None => None::<Seq<(Seq<u8>, Seq<u8>)>>,
                Some(rest) => Some(hdrs@ + rest),
            }),
            bad ==> parse_header_lines(v@, e0 + 1) is None,
        decreases n - p,
    {
        let e = scan_byte_from(v, p, LF);
        if e == n {
            proof {
                assert(lf_at(v@, p as int) >= n);
                assert(head_end_from(v@, p as int) == -1);
            }
            return Ok(None);
        }
        let blank = e == p || (e == p + 1 && v[p] == CR);
        proof {
            let c = line_content(v@, p as int, e as int);
            assert(v@.subrange(p as int, e as int).len() == e - p);
            if e == p + 1 {
                assert(v@.subrange(p as int, e as int)[0] == v@[p as int]);
            }
            assert(blank == (c.len() == 0));
        }
        if blank {
            // End of the head: parse the start line, then settle errors,
            // then the body.
            let he = e + 1;
            proof {
                assert(head_end_from(v@, p as int) == he);
                if !bad {
                    let rest = parse_header_lines(v@, p as int).unwrap();
                    assert(rest =~= Seq::<(Seq<u8>, Seq<u8>)>::empty());
                    assert(hdrs@ + rest =~= hdrs@);
                }
            }
            let ml = match parse_start_line(start.as_slice()) {
                Ok(ml) => ml,
                Err(e) => {
                    return Err(e);
                },
            };
            if bad {
                return Err(Error::HeaderMalformed);
            }
            proof {
                reveal_strlit("Content-Length");
            }
            let clname = str_to_bytes("Content-Length");
            let cl: usize = match hdrs.get(clname.as_slice()) {
                None => 0,
                Some(val) => {
                    if !all_digits(val.as_slice()) {
                        return Err(Error::ContentLengthInvalid);
                    }
                    proof {
                        crate::scan::lemma_dec_value_nonneg(val@);
                    }
                    match parse_dec_bounded(val.as_slice(), limit) {
                        None => {
                            return Err(Error::MessageTooLarge);
                        },
                        Some(cl) => cl,
                    }
                },
            };
            proof {
                assert(parse_header_lines(v@, e0 + 1) == Some(hdrs@));
                assert(head_end_from(v@, 0) == he);
                let s = v@;
                let lim = limit as int;
                assert(s.len() > 0 && s[0] != MAGIC);
                assert(decode_model(s, lim) == parse_request_msg(s, lim));
                assert(head_end_from(s, 0) == he);
                assert(lf_at(s, 0) == e0);
                assert(parse_request_line(line_content(s, 0, e0 as int)) == Ok::<
                    (Method, Seq<u8>),
                    Error,
                >((ml.0, ml.1@)));
                assert(parse_request_msg(s, lim) == match header_lookup(
                    hdrs@,
                    content_length_name(),
                ) {
                    None => finish_msg(s, he as int, ml.0, ml.1@, hdrs@, 0),
                    Some(v2) => {
                        if !is_digits(v2) {
                            DecodedModel::Bad(Error::ContentLengthInvalid)
                        } else if dec_value(v2) > lim {
                            DecodedModel::Bad(Error::MessageTooLarge)
                        } else {
                            finish_msg(s, he as int, ml.0, ml.1@, hdrs@, dec_value(v2))
                        }
                    },
                });
                assert(parse_request_msg(s, lim) == finish_msg(
                    s,
                    he as int,
                    ml.0,
                    ml.1@,
                    hdrs@,
                    cl as int,
                ));
            }
            if n - he < cl {
                proof {
                    assert(v@.len() < he + cl);
                }
                return Ok(None);
            }
            let body = copy_range(v, he, he + cl);
            let used = he + cl;
            let req = Request { method: ml.0, uri: ml.1, headers: hdrs, body };
            return Ok(Some((MaybeInterleaved::Message(req), used)));
        }
        // A header line: split at the first colon.
        if !bad {
            let line = line_at(v, p, e);
            proof {
                crate::scan::lemma_find_byte(line@, COLON);
            }
            let colon = scan_byte(line.as_slice(), COLON);
            if colon == line.len() {
                bad = true;
            } else {
                let name = copy_range(line.as_slice(), 0, colon);
                let value = trim_bytes_range(line.as_slice(), colon + 1, line.len());
                proof {
                    let c = line_content(v@, p as int, e as int);
                    assert(name@ =~= c.take(colon as int));
                    assert(c.subrange(colon + 1, c.len() as int) =~= c.skip(colon + 1));
                    if parse_header_lines(v@, e + 1) is Some {
                        let rest2 = parse_header_lines(v@, e + 1).unwrap();
                        assert(hdrs@ + (seq![(c.take(colon as int), trim(c.skip(colon + 1)))]
                            + rest2) =~= hdrs@.push((name@, value@)) + rest2);
                    }
                }
                hdrs.insert(name, value);
            }
        }
        p = e + 1;
    }
}

/// The wire reason phrase, executable form.
fn reason_vec(st: &Status) -> (r: Vec<u8>)
    ensures
        r@ == reason_bytes(*st),
{
    proof {
        reveal_strlit("OK");
        reveal_strlit("Bad Request");
        reveal_strlit("Not Found");
        reveal_strlit("Method Not Allowed");
        reveal_strlit("Not Acceptable");
        reveal_strlit("Session Not Found");
        reveal_strlit("Method Not Valid in This State");
        reveal_strlit("Aggregate Operation Not Allowed");
        reveal_strlit("Internal Server Error");
        reveal_strlit("Option Not Supported");
    }
    match st {
        Status::Okay => str_to_bytes("OK"),
        Status::BadRequest => str_to_bytes("Bad Request"),
        Status::NotFound => str_to_bytes("Not Found"),
        Status::MethodNotAllowed => str_to_bytes("Method Not Allowed"),
        Status::NotAcceptable => str_to_bytes("Not Acceptable"),
        Status::SessionNotFound => str_to_bytes("Session Not Found"),
        Status::MethodNotValidInThisState => str_to_bytes("Method Not Valid in This State"),
        Status::AggregateOperationNotAllowed => str_to_bytes("Aggregate Operation Not Allowed"),
        Status::InternalServerError => str_to_bytes("Internal Server Error"),
        Status::OptionNotSupported => str_to_bytes("Option Not Supported"),
    }
}

/// The wire method name, executable form.
fn method_vec(m: &Method) -> (r: Vec<u8>)
    ensures
        r@ == method_bytes(*m),
{
    proof {
        reveal_strlit("OPTIONS");
        reveal_strlit("ANNOUNCE");
        reveal_strlit("DESCRIBE");
        reveal_strlit("GET_PARAMETER");
        reveal_strlit("SET_PARAMETER");
        reveal_strlit("SETUP");
        reveal_strlit("PLAY");
        reveal_strlit("PAUSE");
        reveal_strlit("RECORD");
        reveal_strlit("TEARDOWN");
        reveal_strlit("REDIRECT");
    }
    match m {
        Method::Options => str_to_bytes("OPTIONS"),
        Method::Announce => str_to_bytes("ANNOUNCE"),
        Method::Describe => str_to_bytes("DESCRIBE"),
        Method::GetParameter => str_to_bytes("GET_PARAMETER"),
        Method::SetParameter => str_to_bytes("SET_PARAMETER"),
        Method::Setup => str_to_bytes("SETUP"),
        Method::Play => str_to_bytes("PLAY"),
        Method::Pause => str_to_bytes("PAUSE"),
        Method::Record => str_to_bytes("RECORD"),
        Method::Teardown => str_to_bytes("TEARDOWN"),
        Method::Redirect => str_to_bytes("REDIRECT"),
    }
}

/// Writes the header block, the auto-filled `Content-Length`, the bare
/// CRLF and the body after an already-written start line.
fn encode_head_body(out: &mut Vec<u8>, headers: &Headers, body: &Vec<u8>)
    ensures
        final(out)@ == old(out)@ + headers_bytes_from(effective_headers(headers@, body@), 0)
            + seq![CR, LF] + body@,
{
    let ghost base = out@;
    let ghost hs = headers@;
    let hn = headers.len();
    let mut i: usize = 0;
    proof {
        assert(base + headers_bytes_from(hs, 0) =~= base + headers_bytes_from(hs, 0));
    }
    while i < hn
        invariant
            hn == hs.len(),
            hs == headers@,
            0 <= i <= hn,
            out@ + headers_bytes_from(hs, i as int) == base + headers_bytes_from(hs, 0),
        decreases hn - i,
    {
        let e = headers.entry_at(i);
        let ghost before = out@;
        crate::scan::append_bytes(out, e.0.as_slice());
        out.push(COLON);
        out.push(SP);
        crate::scan::append_bytes(out, e.1.as_slice());
        out.push(CR);
        out.push(LF);
        proof {
            assert(out@ =~= before + header_line_bytes(hs[i as int]));
            assert(before + (header_line_bytes(hs[i as int]) + headers_bytes_from(hs, i + 1))
                =~= (before + header_line_bytes(hs[i as int])) + headers_bytes_from(hs, i + 1));
        }
        i += 1;
    }
    proof {
        assert(out@ + headers_bytes_from(hs, hn as int) =~= out@);
    }
    let ghost eff = effective_headers(hs, body@);
    proof {
        reveal_strlit("Content-Length");
    }
    let clname = str_to_bytes("Content-Length");
    if body.len() > 0 && headers.get(clname.as_slice()).is_none() {
        let ghost before = out@;
        crate::scan::append_bytes(out, clname.as_slice());
        out.push(COLON);
        out.push(SP);
        let digits = dec_vec(body.len());
        crate::scan::append_bytes(out, digits.as_slice());
        out.push(CR);
        out.push(LF);
        proof {
            let cle = (content_length_name(), dec_digits(body@.len()));
            assert(out@ =~= before + header_line_bytes(cle));
            lemma_headers_bytes_push(hs, cle, 0);
            assert(out@ =~= base + headers_bytes_from(eff, 0));
        }
    }
    out.push(CR);
    out.push(LF);
    let ghost mid = out@;
    crate::scan::append_bytes(out, body.as_slice());
    proof {
        assert(out@ =~= base + headers_bytes_from(eff, 0) + seq![CR, LF] + body@);
    }
}

/// A whole response, encoded: status line, headers in insertion order
/// with `Content-Length` auto-filled, a bare CRLF, the body.
pub fn encode_response(resp: &Response) -> (r: Vec<u8>)
    ensures
        r@ == response_bytes(resp@),
{
    proof {
        reveal_strlit("RTSP/1.0");
    }
    let mut out = str_to_bytes("RTSP/1.0");
    out.push(SP);
    let digits = dec_vec(resp.status.code() as usize);
    crate::scan::append_bytes(&mut out, digits.as_slice());
    out.push(SP);
    let reason = reason_vec(&resp.status);
    crate::scan::append_bytes(&mut out, reason.as_slice());
    out.push(CR);
    out.push(LF);
    proof {
        assert(out@ =~= status_line_bytes(resp@.status));
    }
    encode_head_body(&mut out, &resp.headers, &resp.body);
    proof {
        assert(out@ =~= response_bytes(resp@));
    }
    out
}

/// A whole request, encoded symmetrically.
pub fn encode_request(req: &Request) -> (r: Vec<u8>)
    ensures
        r@ == request_bytes(req@),
{
    proof {
        reveal_strlit("RTSP/1.0");
    }
    let mut out = method_vec(&req.method);
    out.push(SP);
    crate::scan::append_bytes(&mut out, req.uri.as_slice());
    out.push(SP);
    let ver = str_to_bytes("RTSP/1.0");
    crate::scan::append_bytes(&mut out, ver.as_slice());
    out.push(CR);
    out.push(LF);
    proof {
        assert(out@ =~= request_line_bytes(req@.method, req@.uri));
    }
    encode_head_body(&mut out, &req.headers, &req.body);
    proof {
        assert(out@ =~= request_bytes(req@));
    }
    out
}

/// A whole interleaved frame, encoded.
pub fn encode_frame(channel: u8, payload: &Vec<u8>) -> (r: Vec<u8>)
    requires
        payload@.len() <= 65535,
    ensures
        r@ == frame_bytes(channel, payload@),
{
    let mut out: Vec<u8> = Vec::new();
    out.push(MAGIC);
    out.push(channel);
    let ln = payload.len();
    out.push((ln / 256) as u8);
    out.push((ln % 256) as u8);
    crate::scan::append_bytes(&mut out, payload.as_slice());
    proof {
        assert(out@ =~= frame_bytes(channel, payload@));
    }
    out
}

/// The default ceiling on message bodies and interleaved payloads.
pub const DEFAULT_MAX_LENGTH: usize = 1048576;

/// The framing codec for one connection. The decoder re-derives its
/// progress from the unconsumed buffer on each call: the buffer's first
/// unconsumed byte always starts an item, so the `$` discriminator is
/// never applied inside an in-progress message.
pub struct Codec {
    limit: usize,
}

impl Codec {
    /// The configured ceiling.
    pub closed spec fn spec_limit(&self) -> usize {
        self.limit
    }

    /// The ceiling fits the decimal parser's machine bound.
    pub open spec fn wf(&self) -> bool {
        self.spec_limit() <= 0x0fff_ffff
    }

    /// A codec with the default ceiling.
    pub fn new() -> (r: Codec)
        ensures
            r.wf(),
            r.spec_limit() == DEFAULT_MAX_LENGTH,
    {
        Codec { limit: DEFAULT_MAX_LENGTH }
    }

    /// A codec with a chosen ceiling on body and frame sizes.
    pub fn with_limit(limit: usize) -> (r: Codec)
        requires
            limit <= 0x0fff_ffff,
        ensures
            r.wf(),
            r.spec_limit() == limit,
    {
        Codec { limit }
    }

    /// Decodes one item from the front of `src`, consuming exactly the
    /// bytes of a complete item and nothing on hungry or error.
    pub fn decode(&mut self, src: &mut bytes::BytesMut) -> (r: Result<
        Option<MaybeInterleaved<Request>>,
        Error,
    >)
        requires
            old(self).wf(),
        ensures
            *final(self) == *old(self),
            ({
                let m = decode_model(buf_model(*old(src)), old(self).spec_limit() as int);
                match r {
                    Ok(None) => m is Hungry && buf_model(*final(src)) == buf_model(*old(src)),
                    Ok(Some(item)) => match m {
                        DecodedModel::Frame { channel, payload, used } => item@
                            == MaybeInterleavedModel::<RequestModel>::Interleaved {
                            channel,
                            payload,
                        } && buf_model(*final(src)) == buf_model(*old(src)).skip(used),
                        DecodedModel::Msg { req, used } => item@ == MaybeInterleavedModel::<
                            RequestModel,
                        >::Message(req) && buf_model(*final(src)) == buf_model(*old(src)).skip(
                            used,
                        ),
                        _ => false,
                    },
                    Err(e) => m == DecodedModel::Bad(e) && buf_model(*final(src)) == buf_model(
                        *old(src),
                    ),
                }
            }),
    {
        let bytes = buf_to_vec(src);
        match decode_step(bytes.as_slice(), self.limit) {
            Ok(None) => Ok(None),
            Ok(Some(p)) => {
                buf_advance(src, p.1);
                Ok(Some(p.0))
            },
            Err(e) => Err(e),
        }
    }

    /// Encodes one outbound item onto `dst`. A text message always
    /// encodes; an interleaved payload longer than 65535 bytes cannot be
    /// framed and fails, leaving `dst` untouched.
    pub fn encode(&mut self, item: MaybeInterleaved<Response>, dst: &mut bytes::BytesMut) -> (r:
        Result<(), Error>)
        ensures
            *final(self) == *old(self),
            match item@ {
                MaybeInterleavedModel::Message(resp) => r is Ok && buf_model(*final(dst))
                    == buf_model(*old(dst)) + response_bytes(resp),
                MaybeInterleavedModel::Interleaved { channel, payload } => {
                    if payload.len() <= 65535 {
                        r is Ok && buf_model(*final(dst)) == buf_model(*old(dst)) + frame_bytes(
                            channel,
                            payload,
                        )
                    } else {
                        r == Err::<(), Error>(Error::PayloadTooLarge) && buf_model(*final(dst))
                            == buf_model(*old(dst))
                    }
                },
            },
    {
        match item {
            MaybeInterleaved::Message(resp) => {
                let bytes = encode_response(&resp);
                crate::buf::buf_extend(dst, bytes.as_slice());
                Ok(())
            },
            MaybeInterleaved::Interleaved { channel, payload } => {
                if payload.len() > 65535 {
                    return Err(Error::PayloadTooLarge);
                }
                let bytes = encode_frame(channel, &payload);
                crate::buf::buf_extend(dst, bytes.as_slice());
                Ok(())
            },
        }
    }
}

/// Bytes that never stand inside a line's content.
pub open spec fn crlf_free(s: Seq<u8>) -> bool {
    forall|j: int| 0 <= j < s.len() ==> #[trigger] s[j] != CR && s[j] != LF
}

/// A well-formed header field: a nonempty name without colon or line
/// break, and a value without line break that carries no surrounding
/// whitespace of its own.
pub open spec fn wf_header(e: (Seq<u8>, Seq<u8>)) -> bool {
    &&& e.0.len() > 0
    &&& crlf_free(e.0)
    &&& forall|j: int| 0 <= j < e.0.len() ==> #[trigger] e.0[j] != COLON
    &&& crlf_free(e.1)
    &&& trim(e.1) == e.1
}

/// A well-formed request, as the encoder emits it: a nonempty URI free
/// of spaces and line breaks, well-formed headers, and no explicit
/// `Content-Length` (the encoder fills it in).
pub open spec fn wf_request_model(r: RequestModel) -> bool {
    &&& r.uri.len() > 0
    &&& crlf_free(r.uri)
    &&& forall|j: int| 0 <= j < r.uri.len() ==> #[trigger] r.uri[j] != SP
    &&& forall|j: int| 0 <= j < r.headers.len() ==> wf_header(#[trigger] r.headers[j])
    &&& header_lookup(r.headers, content_length_name()) is None
}

/// Looking a fresh name up in an extended block finds the new field.
pub proof fn lemma_lookup_push(hs: Seq<(Seq<u8>, Seq<u8>)>, e: (Seq<u8>, Seq<u8>), nm: Seq<u8>)
    requires
        header_lookup(hs, nm) is None,
        crate::message::name_eq(e.0, nm),
    ensures
        header_lookup(hs.push(e), nm) == Some(e.1),
    decreases hs.len(),
{
    if hs.len() == 0 {
        assert(hs.push(e)[0] == e);
        assert(hs.push(e).drop_first() =~= Seq::<(Seq<u8>, Seq<u8>)>::empty());
    } else {
        lemma_lookup_push(hs.drop_first(), e, nm);
        assert(hs.push(e)[0] == hs[0]);
        assert(hs.push(e).drop_first() =~= hs.drop_first().push(e));
    }
}

/// Each wire method name parses back to its method, holds no space or
/// line break, and does not start with the frame magic byte.
pub proof fn lemma_method_round_trip(m: Method)
    ensures
        method_of(method_bytes(m)) == Some(m),
        method_bytes(m).len() > 0,
        method_bytes(m)[0] != MAGIC,
        forall|j: int|
            0 <= j < method_bytes(m).len() ==> #[trigger] method_bytes(m)[j] != SP
                && method_bytes(m)[j] != CR && method_bytes(m)[j] != LF,
{
    reveal_strlit("OPTIONS");
    reveal_strlit("ANNOUNCE");
    reveal_strlit("DESCRIBE");
    reveal_strlit("GET_PARAMETER");
    reveal_strlit("SET_PARAMETER");
    reveal_strlit("SETUP");
    reveal_strlit("PLAY");
    reveal_strlit("PAUSE");
    reveal_strlit("RECORD");
    reveal_strlit("TEARDOWN");
    reveal_strlit("REDIRECT");
    // The lengths and first bytes distinguish every pair of names.
    assert(method_bytes(Method::Options).len() == 7 && method_bytes(Method::Options)[0] == 79);
    assert(method_bytes(Method::Announce).len() == 8 && method_bytes(Method::Announce)[0] == 65);
    assert(method_bytes(Method::Describe).len() == 8 && method_bytes(Method::Describe)[0] == 68);
    assert(method_bytes(Method::GetParameter).len() == 13 && method_bytes(Method::GetParameter)[0]
        == 71);
    assert(method_bytes(Method::SetParameter).len() == 13 && method_bytes(Method::SetParameter)[0]
        == 83);
    assert(method_bytes(Method::Setup).len() == 5 && method_bytes(Method::Setup)[0] == 83);
    assert(method_bytes(Method::Play).len() == 4 && method_bytes(Method::Play)[0] == 80);
    assert(method_bytes(Method::Pause).len() == 5 && method_bytes(Method::Pause)[0] == 80);
    assert(method_bytes(Method::Record).len() == 6 && method_bytes(Method::Record)[0] == 82);
    assert(method_bytes(Method::Teardown).len() == 8 && method_bytes(Method::Teardown)[0] == 84);
    assert(method_bytes(Method::Redirect).len() == 8 && method_bytes(Method::Redirect)[0] == 82);
}

/// The protocol version holds no space or line break.
pub proof fn lemma_version_bytes()
    ensures
        version_bytes().len() == 8,
        crlf_free(version_bytes()),
        forall|j: int| 0 <= j < version_bytes().len() ==> #[trigger] version_bytes()[j] != SP,
{
    reveal_strlit("RTSP/1.0");
}

/// An encoded header block, followed by the bare CRLF and anything at
/// all, parses back to exactly those fields, and the head ends right
/// after that CRLF.
#[verifier::rlimit(100)]
#[verifier::spinoff_prover]
pub proof fn lemma_parse_headers_encoded(
    s: Seq<u8>,
    p: int,
    hs: Seq<(Seq<u8>, Seq<u8>)>,
    i: int,
    after: Seq<u8>,
)
    requires
        0 <= p <= s.len(),
        0 <= i <= hs.len(),
        s.skip(p) == headers_bytes_from(hs, i) + seq![CR, LF] + after,
        forall|j: int| i <= j < hs.len() ==> wf_header(#[trigger] hs[j]),
    ensures
        parse_header_lines(s, p) == Some(hs.skip(i)),
        head_end_from(s, p) == p + headers_bytes_from(hs, i).len() + 2,
    decreases hs.len() - i,
{
    let tail = s.skip(p);
    if i == hs.len() {
        assert(headers_bytes_from(hs, i) =~= Seq::<u8>::empty());
        assert(tail =~= seq![CR, LF] + after);
        assert(tail[0] == CR && tail[1] == LF);
        crate::scan::lemma_find_byte_is(tail, LF, 1);
        assert(lf_at(s, p) == p + 1);
        assert(s.subrange(p, p + 1) =~= seq![CR]);
        assert(line_content(s, p, p + 1) =~= Seq::<u8>::empty());
        assert(hs.skip(i) =~= Seq::<(Seq<u8>, Seq<u8>)>::empty());
    } else {
        let nm = hs[i].0;
        let vl = hs[i].1;
        let line = header_line_bytes(hs[i]);
        assert(headers_bytes_from(hs, i) == line + headers_bytes_from(hs, i + 1));
        let q = p + nm.len() + 2 + vl.len() + 2;
        // The first LF of the tail closes this header line.
        assert forall|j: int| 0 <= j < q - p - 1 implies tail[j] != LF by {
            if j < nm.len() {
                assert(tail[j] == nm[j]);
            } else if j == nm.len() {
                assert(tail[j] == COLON);
            } else if j == nm.len() + 1 {
                assert(tail[j] == SP);
            } else if j < nm.len() + 2 + vl.len() {
                assert(tail[j] == vl[j - nm.len() - 2]);
            } else {
                assert(tail[j] == CR);
            }
        }
        assert(tail[q - p - 1] == LF);
        crate::scan::lemma_find_byte_is(tail.skip(0), LF, q - p - 1);
        assert(tail.skip(0) =~= tail);
        assert(lf_at(s, p) == q - 1);
        // Its content splits at the first colon into name and value.
        let c = line_content(s, p, q - 1);
        assert(s.subrange(p, q - 1) =~= nm + seq![COLON, SP] + vl + seq![CR]);
        assert(s.subrange(p, q - 1).last() == CR);
        assert(c =~= nm + seq![COLON, SP] + vl);
        assert(c.len() > 0);
        assert forall|j: int| 0 <= j < nm.len() implies c[j] != COLON by {
            assert(c[j] == nm[j]);
        }
        assert(c[nm.len() as int] == COLON);
        crate::scan::lemma_find_byte_is(c, COLON, nm.len() as int);
        assert(c.take(nm.len() as int) =~= nm);
        let rawv = c.skip(nm.len() as int + 1);
        assert(rawv =~= seq![SP] + vl);
        assert(crate::scan::is_ws(rawv[0]));
        if vl.len() == 0 {
            crate::scan::lemma_trim_front_is(rawv, 1);
            assert(crate::scan::trim_front(rawv) =~= Seq::<u8>::empty());
            crate::scan::lemma_trim_back_is(Seq::<u8>::empty(), 0);
            assert(crate::scan::trim(rawv) =~= vl);
        } else {
            assert(rawv[1] == vl[0]);
            assert(crate::scan::trim(vl) == vl);
            crate::scan::lemma_trim_len(vl);
            crate::scan::lemma_trim_len(crate::scan::trim_front(vl));
            assert(!crate::scan::is_ws(vl[0]));
            crate::scan::lemma_trim_front_is(vl, 0);
            assert(vl.skip(0) =~= vl);
            assert(crate::scan::trim_back(vl) == vl);
            crate::scan::lemma_trim_front_is(rawv, 1);
            assert(crate::scan::trim_front(rawv) =~= vl);
            assert(crate::scan::trim(rawv) == vl);
        }
        // The rest of the block parses by induction.
        let nxt = headers_bytes_from(hs, i + 1) + seq![CR, LF] + after;
        assert forall|j: int| 0 <= j < s.len() - q implies s.skip(q)[j] == nxt[j] by {
            assert(s.skip(q)[j] == s[q + j]);
            assert(tail[q - p + j] == s[q + j]);
            assert(tail[q - p + j] == nxt[j]);
        }
        assert(s.skip(q) =~= nxt);
        lemma_parse_headers_encoded(s, q, hs, i + 1, after);
        assert(parse_header_lines(s, p) == Some(
            seq![(nm, vl)] + hs.skip(i + 1),
        ));
        assert(seq![(nm, vl)] + hs.skip(i + 1) =~= hs.skip(i));
        assert(head_end_from(s, p) == q + headers_bytes_from(hs, i + 1).len() + 2);
    }
}

/// Law: round trip. A well-formed request, encoded and then decoded with
/// anything at all following it on the stream, yields the same request
/// back — the headers extended by the auto-filled `Content-Length` when
/// a body is present — and consumes exactly the encoding's bytes. That
/// the decode ignores what follows is what makes the framing insensitive
/// to chunking.
/// The start of an encoded request stream: the first line closes at the
/// CRLF of the request line, and parses back to the method and URI.
#[verifier::rlimit(100)]
#[verifier::spinoff_prover]
pub proof fn lemma_request_start(r: RequestModel, rest: Seq<u8>)
    requires
        wf_request_model(r),
    ensures
        ({
            let s = request_bytes(r) + rest;
            let e0 = request_line_bytes(r.method, r.uri).len() - 1;
            s.len() > 0 && s[0] != MAGIC && lf_at(s, 0) == e0 && parse_request_line(
                line_content(s, 0, e0 as int),
            ) == Ok::<(Method, Seq<u8>), Error>((r.method, r.uri))
        }),
{
    let s = request_bytes(r) + rest;
    let mb = method_bytes(r.method);
    let reqline = request_line_bytes(r.method, r.uri);
    lemma_method_round_trip(r.method);
    lemma_version_bytes();
    assert(s[0] == mb[0]);
    assert(s[0] != MAGIC);
    let e0 = reqline.len() - 1;
    assert(reqline =~= mb + seq![SP] + r.uri + seq![SP] + version_bytes() + seq![CR, LF]);
    assert forall|j: int| 0 <= j < e0 implies s[j] != LF by {
        if j < mb.len() {
            assert(s[j] == mb[j]);
        } else if j == mb.len() {
            assert(s[j] == SP);
        } else if j < mb.len() + 1 + r.uri.len() {
            assert(s[j] == r.uri[j - mb.len() - 1]);
        } else if j == mb.len() + 1 + r.uri.len() {
            assert(s[j] == SP);
        } else if j < mb.len() + 2 + r.uri.len() + 8 {
            assert(s[j] == version_bytes()[j - mb.len() - 2 - r.uri.len()]);
        } else {
            assert(s[j] == CR);
        }
    }
    assert(s[e0] == LF);
    assert(s.skip(0) =~= s);
    crate::scan::lemma_find_byte_is(s, LF, e0);
    assert(lf_at(s, 0) == e0);
    let c = line_content(s, 0, e0);
    assert(s.subrange(0, e0) =~= mb + seq![SP] + r.uri + seq![SP] + version_bytes() + seq![CR]);
    assert(c =~= mb + seq![SP] + r.uri + seq![SP] + version_bytes());
    assert forall|j: int| 0 <= j < mb.len() implies c[j] != SP by {
        assert(c[j] == mb[j]);
    }
    assert(c[mb.len() as int] == SP);
    crate::scan::lemma_find_byte_is(c, SP, mb.len() as int);
    assert(c.take(mb.len() as int) =~= mb);
    let crest = c.skip(mb.len() as int + 1);
    assert(crest =~= r.uri + seq![SP] + version_bytes());
    assert forall|j: int| 0 <= j < r.uri.len() implies crest[j] != SP by {
        assert(crest[j] == r.uri[j]);
    }
    assert(crest[r.uri.len() as int] == SP);
    crate::scan::lemma_find_byte_is(crest, SP, r.uri.len() as int);
    assert(crest.take(r.uri.len() as int) =~= r.uri);
    assert(crest.skip(r.uri.len() as int + 1) =~= version_bytes());
}

/// The headers the encoder writes, the auto-filled length included, are
/// all well formed.
pub proof fn lemma_effective_wf(r: RequestModel)
    requires
        wf_request_model(r),
    ensures
        forall|j: int|
            0 <= j < effective_headers(r.headers, r.body).len() ==> wf_header(
                #[trigger] effective_headers(r.headers, r.body)[j],
            ),
{
    let eff = effective_headers(r.headers, r.body);
    assert forall|j: int| 0 <= j < eff.len() implies wf_header(#[trigger] eff[j]) by {
        if j < r.headers.len() {
            assert(eff[j] == r.headers[j]);
        } else {
            assert(eff[j] == (content_length_name(), dec_digits(r.body.len())));
            crate::scan::lemma_dec_round_trip(r.body.len());
            let d = dec_digits(r.body.len());
            reveal_strlit("Content-Length");
            assert(crate::message::ascii_of("Content-Length"@).len() == 14);
            assert forall|k: int| 0 <= k < d.len() implies #[trigger] d[k] != CR && d[k] != LF by {
                assert(crate::scan::is_digit(d[k]));
            }
            assert(!crate::scan::is_ws(d[0]) && !crate::scan::is_ws(d[d.len() - 1])) by {
                assert(crate::scan::is_digit(d[0]));
                assert(crate::scan::is_digit(d[d.len() - 1]));
            }
            crate::scan::lemma_trim_id(d);
        }
    }
}

/// Law: round trip. A well-formed request, encoded and then decoded with
/// anything at all following it on the stream, yields the same request
/// back - the headers extended by the auto-filled `Content-Length` when
/// a body is present - and consumes exactly the encoding's bytes. That
/// the decode ignores what follows is what makes the framing insensitive
/// to chunking.
#[verifier::rlimit(100)]
#[verifier::spinoff_prover]
pub proof fn lemma_request_round_trip(r: RequestModel, limit: int, rest: Seq<u8>)
    requires
        wf_request_model(r),
        r.body.len() <= limit,
    ensures
        decode_model(request_bytes(r) + rest, limit) == (DecodedModel::Msg {
            req: RequestModel {
                method: r.method,
                uri: r.uri,
                headers: effective_headers(r.headers, r.body),
                body: r.body,
            },
            used: request_bytes(r).len() as int,
        }),
{
    let s = request_bytes(r) + rest;
    let reqline = request_line_bytes(r.method, r.uri);
    let eff = effective_headers(r.headers, r.body);
    let hb = headers_bytes_from(eff, 0);
    lemma_request_start(r, rest);
    lemma_effective_wf(r);
    let e0 = reqline.len() - 1;
    assert(s.skip(reqline.len() as int) =~= hb + seq![CR, LF] + (r.body + rest));
    lemma_parse_headers_encoded(s, reqline.len() as int, eff, 0, r.body + rest);
    assert(eff.skip(0) =~= eff);
    let he: int = reqline.len() as int + hb.len() as int + 2;
    assert(line_content(s, 0, e0).len() > 0) by {
        assert(s.subrange(0, e0).len() == e0);
    }
    assert(head_end_from(s, 0) == head_end_from(s, e0 + 1));
    if r.body.len() == 0 {
        assert(eff == r.headers);
        assert(s.subrange(he, he) =~= r.body);
        assert(he == request_bytes(r).len());
    } else {
        let cle = (content_length_name(), dec_digits(r.body.len()));
        assert(eff == r.headers.push(cle));
        assert(crate::message::name_eq(cle.0, content_length_name()));
        lemma_lookup_push(r.headers, cle, content_length_name());
        crate::scan::lemma_dec_round_trip(r.body.len());
        assert(s.subrange(he, he + r.body.len()) =~= r.body);
        assert(he + r.body.len() == request_bytes(r).len());
    }
}

/// What one decode of a response text message yields; the client-facing
/// mirror of `DecodedModel`, message case only.
pub ghost enum RespDecodedModel {
    Hungry,
    Bad(Error),
    Msg { resp: ResponseModel, used: int },
}

/// The status a three-digit code denotes, if the enumeration covers it.
pub open spec fn status_of_code(n: int) -> Option<Status> {
    if n == 200 {
        Some(Status::Okay)
    } else if n == 400 {
        Some(Status::BadRequest)
    } else if n == 404 {
        Some(Status::NotFound)
    } else if n == 405 {
        Some(Status::MethodNotAllowed)
    } else if n == 406 {
        Some(Status::NotAcceptable)
    } else if n == 454 {
        Some(Status::SessionNotFound)
    } else if n == 455 {
        Some(Status::MethodNotValidInThisState)
    } else if n == 459 {
        Some(Status::AggregateOperationNotAllowed)
    } else if n == 500 {
        Some(Status::InternalServerError)
    } else if n == 551 {
        Some(Status::OptionNotSupported)
    } else {
        None
    }
}

/// The status of a status line `RTSP/1.0 SP code SP reason`. The code
/// alone decides: the reason text is the code's fixed phrase.
pub open spec fn parse_status_line(c: Seq<u8>) -> Result<Status, Error> {
    let sp1 = find_byte(c, SP) as int;
    if sp1 >= c.len() {
        Err(Error::StartLineMalformed)
    } else if c.take(sp1) != version_bytes() {
        Err(Error::VersionUnknown)
    } else {
        let rest = c.skip(sp1 + 1);
        let sp2 = find_byte(rest, SP) as int;
        if sp2 >= rest.len() {
            Err(Error::StartLineMalformed)
        } else if !is_digits(rest.take(sp2)) {
            Err(Error::StartLineMalformed)
        } else {
            match status_of_code(dec_value(rest.take(sp2))) {
                None => Err(Error::StartLineMalformed),
                Some(st) => Ok(st),
            }
        }
    }
}

/// What decoding a response text message from the buffer yields.
pub open spec fn parse_response_msg(s: Seq<u8>, limit: int) -> RespDecodedModel {
    let he = head_end_from(s, 0);
    if he < 0 {
        RespDecodedModel::Hungry
    } else {
        let e0 = lf_at(s, 0);
        match parse_status_line(line_content(s, 0, e0)) {
            Err(e) => RespDecodedModel::Bad(e),
            Ok(st) => {
                match parse_header_lines(s, e0 + 1) {
                    None => RespDecodedModel::Bad(Error::HeaderMalformed),
                    Some(hs) => {
                        match header_lookup(hs, content_length_name()) {
                            None => {
                                if s.len() < he {
                                    RespDecodedModel::Hungry
                                } else {
                                    RespDecodedModel::Msg {
                                        resp: ResponseModel {
                                            status: st,
                                            headers: hs,
                                            body: Seq::<u8>::empty(),
                                        },
                                        used: he,
                                    }
                                }
                            },
                            Some(v) => {
                                if !is_digits(v) {
                                    RespDecodedModel::Bad(Error::ContentLengthInvalid)
                                } else if dec_value(v) > limit {
                                    RespDecodedModel::Bad(Error::MessageTooLarge)
                                } else if s.len() < he + dec_value(v) {
                                    RespDecodedModel::Hungry
                                } else {
                                    RespDecodedModel::Msg {
                                        resp: ResponseModel {
                                            status: st,
                                            headers: hs,
                                            body: s.subrange(he, he + dec_value(v)),
                                        },
                                        used: he + dec_value(v),
                                    }
                                }
                            },
                        }
                    },
                }
            },
        }
    }
}

/// A well-formed response, as the encoder emits it.
pub open spec fn wf_response_model(r: ResponseModel) -> bool {
    &&& forall|j: int| 0 <= j < r.headers.len() ==> wf_header(#[trigger] r.headers[j])
    &&& header_lookup(r.headers, content_length_name()) is None
}

/// Every reason phrase is free of line breaks, and every code maps back
/// to its status.
pub proof fn lemma_status_line_facts(st: Status)
    ensures
        crlf_free(reason_bytes(st)),
        status_of_code(st.spec_code() as int) == Some(st),
        100 <= st.spec_code() < 1000,
{
    reveal_strlit("OK");
    reveal_strlit("Bad Request");
    reveal_strlit("Not Found");
    reveal_strlit("Method Not Allowed");
    reveal_strlit("Not Acceptable");
    reveal_strlit("Session Not Found");
    reveal_strlit("Method Not Valid in This State");
    reveal_strlit("Aggregate Operation Not Allowed");
    reveal_strlit("Internal Server Error");
    reveal_strlit("Option Not Supported");
}

/// The start of an encoded response stream: the first line closes at the
/// status line's CRLF and parses back to the status.
#[verifier::rlimit(100)]
#[verifier::spinoff_prover]
pub proof fn lemma_response_start(r: ResponseModel, rest: Seq<u8>)
    requires
        wf_response_model(r),
    ensures
        ({
            let s = response_bytes(r) + rest;
            let e0 = status_line_bytes(r.status).len() - 1;
            lf_at(s, 0) == e0 && parse_status_line(line_content(s, 0, e0 as int)) == Ok::<
                Status,
                Error,
            >(r.status) && line_content(s, 0, e0 as int).len() > 0
        }),
{
    let s = response_bytes(r) + rest;
    let sl = status_line_bytes(r.status);
    let cd = dec_digits(r.status.spec_code() as nat);
    let rs = reason_bytes(r.status);
    lemma_version_bytes();
    lemma_status_line_facts(r.status);
    crate::scan::lemma_dec_round_trip(r.status.spec_code() as nat);
    let e0 = sl.len() - 1;
    assert(sl =~= version_bytes() + seq![SP] + cd + seq![SP] + rs + seq![CR, LF]);
    assert forall|j: int| 0 <= j < e0 implies s[j] != LF by {
        if j < 8 {
            assert(s[j] == version_bytes()[j]);
        } else if j == 8 {
            assert(s[j] == SP);
        } else if j < 9 + cd.len() {
            assert(s[j] == cd[j - 9]);
            assert(crate::scan::is_digit(cd[j - 9]));
        } else if j == 9 + cd.len() {
            assert(s[j] == SP);
        } else if j < 10 + cd.len() + rs.len() {
            assert(s[j] == rs[j - 10 - cd.len()]);
        } else {
            assert(s[j] == CR);
        }
    }
    assert(s[e0] == LF);
    assert(s.skip(0) =~= s);
    crate::scan::lemma_find_byte_is(s, LF, e0);
    let c = line_content(s, 0, e0);
    assert(s.subrange(0, e0) =~= version_bytes() + seq![SP] + cd + seq![SP] + rs + seq![CR]);
    assert(c =~= version_bytes() + seq![SP] + cd + seq![SP] + rs);
    assert forall|j: int| 0 <= j < 8 implies c[j] != SP by {
        assert(c[j] == version_bytes()[j]);
    }
    assert(c[8] == SP);
    crate::scan::lemma_find_byte_is(c, SP, 8);
    assert(c.take(8) =~= version_bytes());
    let crest = c.skip(9);
    assert(crest =~= cd + seq![SP] + rs);
    assert forall|j: int| 0 <= j < cd.len() implies crest[j] != SP by {
        assert(crest[j] == cd[j]);
        assert(crate::scan::is_digit(cd[j]));
    }
    assert(crest[cd.len() as int] == SP);
    crate::scan::lemma_find_byte_is(crest, SP, cd.len() as int);
    assert(crest.take(cd.len() as int) =~= cd);
}

/// Law: round trip for responses. A well-formed response, encoded and
/// then decoded with anything at all following it, yields the same
/// response back - the headers extended by the auto-filled
/// `Content-Length` when a body is present - and consumes exactly the
/// encoding's bytes.
#[verifier::rlimit(100)]
#[verifier::spinoff_prover]
pub proof fn lemma_response_round_trip(r: ResponseModel, limit: int, rest: Seq<u8>)
    requires
        wf_response_model(r),
        r.body.len() <= limit,
    ensures
        parse_response_msg(response_bytes(r) + rest, limit) == (RespDecodedModel::Msg {
            resp: ResponseModel {
                status: r.status,
                headers: effective_headers(r.headers, r.body),
                body: r.body,
            },
            used: response_bytes(r).len() as int,
        }),
{
    let s = response_bytes(r) + rest;
    let sl = status_line_bytes(r.status);
    let eff = effective_headers(r.headers, r.body);
    let hb = headers_bytes_from(eff, 0);
    lemma_response_start(r, rest);
    lemma_response_effective_wf(r);
    let e0 = sl.len() - 1;
    assert(s.skip(sl.len() as int) =~= hb + seq![CR, LF] + (r.body + rest));
    lemma_parse_headers_encoded(s, sl.len() as int, eff, 0, r.body + rest);
    assert(eff.skip(0) =~= eff);
    let he: int = sl.len() as int + hb.len() as int + 2;
    assert(head_end_from(s, 0) == head_end_from(s, e0 + 1));
    if r.body.len() == 0 {
        assert(eff == r.headers);
        assert(Seq::<u8>::empty() =~= r.body);
        assert(he == response_bytes(r).len());
    } else {
        let cle = (content_length_name(), dec_digits(r.body.len()));
        assert(eff == r.headers.push(cle));
        assert(crate::message::name_eq(cle.0, content_length_name()));
        lemma_lookup_push(r.headers, cle, content_length_name());
        crate::scan::lemma_dec_round_trip(r.body.len());
        assert(s.subrange(he, he + r.body.len()) =~= r.body);
        assert(he + r.body.len() == response_bytes(r).len());
    }
}

/// The response headers the encoder writes are all well formed.
pub proof fn lemma_response_effective_wf(r: ResponseModel)
    requires
        wf_response_model(r),
    ensures
        forall|j: int|
            0 <= j < effective_headers(r.headers, r.body).len() ==> wf_header(
                #[trigger] effective_headers(r.headers, r.body)[j],
            ),
{
    let eff = effective_headers(r.headers, r.body);
    assert forall|j: int| 0 <= j < eff.len() implies wf_header(#[trigger] eff[j]) by {
        if j < r.headers.len() {
            assert(eff[j] == r.headers[j]);
        } else {
            assert(eff[j] == (content_length_name(), dec_digits(r.body.len())));
            crate::scan::lemma_dec_round_trip(r.body.len());
            let d = dec_digits(r.body.len());
            reveal_strlit("Content-Length");
            assert(crate::message::ascii_of("Content-Length"@).len() == 14);
            assert forall|k: int| 0 <= k < d.len() implies #[trigger] d[k] != CR && d[k] != LF by {
                assert(crate::scan::is_digit(d[k]));
            }
            assert(!crate::scan::is_ws(d[0]) && !crate::scan::is_ws(d[d.len() - 1])) by {
                assert(crate::scan::is_digit(d[0]));
                assert(crate::scan::is_digit(d[d.len() - 1]));
            }
            crate::scan::lemma_trim_id(d);
        }
    }
}

/// Law: round trip for interleaved frames. A frame encoded and then
/// decoded with anything at all following it yields the same channel and
/// payload and consumes exactly the frame's bytes.
pub proof fn lemma_frame_round_trip(channel: u8, payload: Seq<u8>, limit: int, rest: Seq<u8>)
    requires
        payload.len() <= 65535,
        payload.len() <= limit,
    ensures
        decode_model(frame_bytes(channel, payload) + rest, limit) == (DecodedModel::Frame {
            channel,
            payload,
            used: 4 + payload.len() as int,
        }),
{
    let s = frame_bytes(channel, payload) + rest;
    let ln = payload.len() as int;
    assert(s[0] == MAGIC && s[1] == channel);
    assert(s[2] == (payload.len() / 256) as u8 && s[3] == (payload.len() % 256) as u8);
    assert(s[2] * 256 + s[3] == ln);
    assert(s.subrange(4, 4 + ln) =~= payload);
}

/// Law: the decoder never yields early. A strict prefix of an encoded
/// frame reports hungry, whatever the channel and payload.
pub proof fn lemma_frame_prefix_hungry(channel: u8, payload: Seq<u8>, limit: int, k: int)
    requires
        payload.len() <= 65535,
        payload.len() <= limit,
        0 <= k < frame_bytes(channel, payload).len(),
    ensures
        decode_model(frame_bytes(channel, payload).take(k), limit) is Hungry,
{
    let t = frame_bytes(channel, payload).take(k);
    if k == 0 {
    } else {
        assert(t[0] == MAGIC);
        if k >= 4 {
            assert(t[2] == (payload.len() / 256) as u8 && t[3] == (payload.len() % 256) as u8);
            assert(t[2] * 256 + t[3] == payload.len());
            assert(t.len() < 4 + payload.len());
        }
    }
}

/// The encoded header block cut short anywhere before its final CRLF
/// holds no blank line yet, so the head stays incomplete.
pub proof fn lemma_head_prefix_hungry(
    s: Seq<u8>,
    p: int,
    hs: Seq<(Seq<u8>, Seq<u8>)>,
    i: int,
    after: Seq<u8>,
    k: int,
)
    requires
        0 <= p <= s.len(),
        0 <= i <= hs.len(),
        s.skip(p) == headers_bytes_from(hs, i) + seq![CR, LF] + after,
        forall|j: int| i <= j < hs.len() ==> wf_header(#[trigger] hs[j]),
        p <= k < p + headers_bytes_from(hs, i).len() + 2,
    ensures
        head_end_from(s.take(k), p) == -1,
    decreases hs.len() - i,
{
    let t = s.take(k);
    let tail = s.skip(p);
    assert(s.len() == p + headers_bytes_from(hs, i).len() + 2 + after.len()) by {
        assert(tail.len() == s.len() - p);
    }
    assert(k <= s.len());
    assert(t.len() == k);
    assert(t.skip(p).len() == k - p);
    assert forall|j: int| 0 <= j < k - p implies #[trigger] t.skip(p)[j] == tail[j] by {
        assert(t.skip(p)[j] == t[p + j]);
        assert(t[p + j] == s[p + j]);
        assert(s[p + j] == tail[j]);
    }
    if i == hs.len() {
        // Only `CR` can still stand in the prefix: no line feed at all.
        assert(headers_bytes_from(hs, i) =~= Seq::<u8>::empty());
        assert forall|j: int| 0 <= j < t.skip(p).len() implies t.skip(p)[j] != LF by {
            assert(t.skip(p)[j] == t[p + j]);
            assert(t[p + j] == s[p + j]);
            assert(s[p + j] == tail[j]);
            assert(tail[0] == CR);
        }
        crate::scan::lemma_find_byte_is(t.skip(p), LF, t.skip(p).len() as int);
    } else {
        let nm = hs[i].0;
        let vl = hs[i].1;
        let q = p + nm.len() + 2 + vl.len() + 2;
        assert(headers_bytes_from(hs, i) == header_line_bytes(hs[i]) + headers_bytes_from(
            hs,
            i + 1,
        ));
        if k < q {
            // The cut lands inside this header line: no line feed yet.
            assert forall|j: int| 0 <= j < t.skip(p).len() implies t.skip(p)[j] != LF by {
                assert(t.skip(p)[j] == t[p + j]);
                assert(t[p + j] == s[p + j]);
                assert(s[p + j] == tail[j]);
                if j < nm.len() {
                    assert(tail[j] == nm[j]);
                } else if j == nm.len() {
                    assert(tail[j] == COLON);
                } else if j == nm.len() + 1 {
                    assert(tail[j] == SP);
                } else if j < nm.len() + 2 + vl.len() {
                    assert(tail[j] == vl[j - nm.len() - 2]);
                } else {
                    assert(j == nm.len() + 2 + vl.len());
                    assert(tail[j] == CR);
                }
            }
            crate::scan::lemma_find_byte_is(t.skip(p), LF, t.skip(p).len() as int);
        } else {
            // This full header line is present; it is not blank, and the
            // rest of the prefix stays incomplete by induction.
            assert forall|j: int| 0 <= j < q - p - 1 implies t.skip(p)[j] != LF by {
                assert(t.skip(p)[j] == t[p + j]);
                assert(t[p + j] == s[p + j]);
                assert(s[p + j] == tail[j]);
                if j < nm.len() {
                    assert(tail[j] == nm[j]);
                } else if j == nm.len() {
                    assert(tail[j] == COLON);
                } else if j == nm.len() + 1 {
                    assert(tail[j] == SP);
                } else if j < nm.len() + 2 + vl.len() {
                    assert(tail[j] == vl[j - nm.len() - 2]);
                } else {
                    assert(tail[j] == CR);
                }
            }
            assert(t.skip(p)[q - p - 1] == t[q - 1]);
            assert(t[q - 1] == s[q - 1]);
            assert(s[q - 1] == tail[q - p - 1]);
            assert(tail[q - p - 1] == LF);
            crate::scan::lemma_find_byte_is(t.skip(p), LF, q - p - 1);
            assert(lf_at(t, p) == q - 1);
            let c = line_content(t, p, q - 1);
            assert(t.subrange(p, q - 1)[0] == nm[0]);
            assert(c.len() > 0) by {
                assert(t.subrange(p, q - 1).len() == nm.len() + 2 + vl.len() + 1);
            }
            assert(s.skip(q) =~= headers_bytes_from(hs, i + 1) + seq![CR, LF] + after) by {
                let nxt = headers_bytes_from(hs, i + 1) + seq![CR, LF] + after;
                assert forall|j: int| 0 <= j < s.len() - q implies s.skip(q)[j] == nxt[j] by {
                    assert(s.skip(q)[j] == s[q + j]);
                    assert(tail[q - p + j] == s[q + j]);
                    assert(tail[q - p + j] == nxt[j]);
                }
            }
            lemma_head_prefix_hungry(s, q, hs, i + 1, after, k);
        }
    }
}

/// Law: the decoder never yields early. A strict prefix of an encoded
/// request reports hungry.
#[verifier::rlimit(100)]
#[verifier::spinoff_prover]
pub proof fn lemma_request_prefix_hungry(r: RequestModel, limit: int, k: int)
    requires
        wf_request_model(r),
        r.body.len() <= limit,
        0 <= k < request_bytes(r).len(),
    ensures
        decode_model(request_bytes(r).take(k), limit) is Hungry,
{
    let s = request_bytes(r);
    let t = s.take(k);
    let reqline = request_line_bytes(r.method, r.uri);
    let eff = effective_headers(r.headers, r.body);
    let hb = headers_bytes_from(eff, 0);
    let he: int = reqline.len() as int + hb.len() as int + 2;
    lemma_request_start(r, Seq::<u8>::empty());
    lemma_effective_wf(r);
    assert(s + Seq::<u8>::empty() =~= s);
    let e0 = reqline.len() - 1;
    assert(s.skip(0) =~= s);
    crate::scan::lemma_find_byte(s, LF);
    assert(forall|j: int| 0 <= j < e0 ==> s[j] != LF);
    if k == 0 {
    } else {
        assert(t[0] == s[0]);
        assert(t[0] != MAGIC);
        if k <= e0 {
            // Still inside the request line: no line feed yet.
            assert forall|j: int| 0 <= j < t.len() implies t[j] != LF by {
                assert(t[j] == s[j]);
                assert(s[j] != LF);
            }
            assert(t.skip(0) =~= t);
            crate::scan::lemma_find_byte_is(t, LF, t.len() as int);
        } else {
            // The request line is complete; the cut lands in the header
            // block or the body.
            assert forall|j: int| 0 <= j < e0 implies t[j] != LF by {
                assert(t[j] == s[j]);
                assert(s[j] != LF);
            }
            assert(t[e0] == s[e0] && s[e0] == LF);
            assert(t.skip(0) =~= t);
            crate::scan::lemma_find_byte_is(t, LF, e0);
            assert(lf_at(t, 0) == e0);
            assert(t.subrange(0, e0) =~= s.subrange(0, e0));
            assert(line_content(t, 0, e0) == line_content(s, 0, e0));
            assert(s.skip(reqline.len() as int) =~= hb + seq![CR, LF] + r.body);
            if k < he {
                lemma_head_prefix_hungry(s, reqline.len() as int, eff, 0, r.body, k);
                assert(line_content(t, 0, e0).len() > 0) by {
                    assert(t.subrange(0, e0).len() == e0);
                }
                assert(head_end_from(t, 0) == head_end_from(t, e0 + 1));
            } else {
                // The head is complete but the body is short.
                assert(t.skip(reqline.len() as int) =~= hb + seq![CR, LF] + r.body.take(k - he));
                lemma_parse_headers_encoded(t, reqline.len() as int, eff, 0, r.body.take(k - he));
                assert(eff.skip(0) =~= eff);
                assert(line_content(t, 0, e0).len() > 0) by {
                    assert(t.subrange(0, e0).len() == e0);
                }
                assert(head_end_from(t, 0) == head_end_from(t, e0 + 1));
                assert(r.body.len() > 0);
                let cle = (content_length_name(), dec_digits(r.body.len()));
                assert(eff == r.headers.push(cle));
                assert(crate::message::name_eq(cle.0, content_length_name()));
                lemma_lookup_push(r.headers, cle, content_length_name());
                crate::scan::lemma_dec_round_trip(r.body.len());
                assert(t.len() < he + r.body.len());
            }
        }
    }
}

/// Law: framing purity. The decoder pulled repeatedly over a stream laid
/// down by the encoder yields exactly the encoded items, in order, and
/// then reports hungry on the empty remainder.
pub open spec fn item_bytes(it: MaybeInterleavedModel<RequestModel>) -> Seq<u8> {
    match it {
        MaybeInterleavedModel::Message(r) => request_bytes(r),
        MaybeInterleavedModel::Interleaved { channel, payload } => frame_bytes(channel, payload),
    }
}

/// A whole stream of encoded items, from position `i` on.
pub open spec fn stream_bytes(items: Seq<MaybeInterleavedModel<RequestModel>>, i: int) -> Seq<u8>
    decreases items.len() - i,
        when 0 <= i <= items.len()
{
    if i >= items.len() {
        Seq::<u8>::empty()
    } else {
        item_bytes(items[i]) + stream_bytes(items, i + 1)
    }
}

/// A well-formed outbound item: an encodable frame or request.
pub open spec fn wf_item(it: MaybeInterleavedModel<RequestModel>, limit: int) -> bool {
    match it {
        MaybeInterleavedModel::Message(r) => wf_request_model(r) && r.body.len() <= limit,
        MaybeInterleavedModel::Interleaved { channel, payload } => payload.len() <= 65535
            && payload.len() <= limit,
    }
}

/// What an item reads back as: the same, but for the auto-filled length.
pub open spec fn decoded_form(it: MaybeInterleavedModel<RequestModel>) -> MaybeInterleavedModel<
    RequestModel,
> {
    match it {
        MaybeInterleavedModel::Message(r) => MaybeInterleavedModel::Message(
            RequestModel {
                method: r.method,
                uri: r.uri,
                headers: effective_headers(r.headers, r.body),
                body: r.body,
            },
        ),
        MaybeInterleavedModel::Interleaved { channel, payload } => it,
    }
}

/// What repeatedly decoding and consuming yields, until hungry or error.
pub open spec fn decode_all(s: Seq<u8>, limit: int) -> Seq<
    MaybeInterleavedModel<RequestModel>,
>
    decreases s.len(),
{
    match decode_model(s, limit) {
        DecodedModel::Msg { req, used } => {
            if 0 < used <= s.len() {
                seq![MaybeInterleavedModel::Message(req)] + decode_all(s.skip(used), limit)
            } else {
                Seq::empty()
            }
        },
        DecodedModel::Frame { channel, payload, used } => {
            if 0 < used <= s.len() {
                seq![MaybeInterleavedModel::Interleaved { channel, payload }] + decode_all(
                    s.skip(used),
                    limit,
                )
            } else {
                Seq::empty()
            }
        },
        _ => Seq::empty(),
    }
}

/// Law: framing purity. For a stream the encoder laid down as the
/// concatenation of well-formed items, repeated decoding yields exactly
/// those items, in order, each in its decoded form; the empty remainder
/// then reports hungry. Each step consumes exactly one encoding whatever
/// follows it, so the cut points never depend on how the stream arrived.
#[verifier::rlimit(100)]
#[verifier::spinoff_prover]
pub proof fn lemma_framing_purity(
    items: Seq<MaybeInterleavedModel<RequestModel>>,
    limit: int,
    i: int,
)
    requires
        0 <= i <= items.len(),
        forall|j: int| 0 <= j < items.len() ==> wf_item(#[trigger] items[j], limit),
    ensures
        decode_all(stream_bytes(items, i), limit) == items.skip(i).map_values(
            |it: MaybeInterleavedModel<RequestModel>| decoded_form(it),
        ),
    decreases items.len() - i,
{
    let s = stream_bytes(items, i);
    if i == items.len() {
        assert(s =~= Seq::<u8>::empty());
        assert(decode_model(s, limit) is Hungry);
        assert(items.skip(i) =~= Seq::<MaybeInterleavedModel<RequestModel>>::empty());
        assert(items.skip(i).map_values(
            |it: MaybeInterleavedModel<RequestModel>| decoded_form(it),
        ) =~= Seq::<MaybeInterleavedModel<RequestModel>>::empty());
    } else {
        let it = items[i];
        let rest = stream_bytes(items, i + 1);
        lemma_framing_purity(items, limit, i + 1);
        match it {
            MaybeInterleavedModel::Message(r) => {
                lemma_request_round_trip(r, limit, rest);
                assert(s.skip(request_bytes(r).len() as int) =~= rest);
                assert(request_bytes(r).len() > 0);
            },
            MaybeInterleavedModel::Interleaved { channel, payload } => {
                lemma_frame_round_trip(channel, payload, limit, rest);
                assert(s.skip(4 + payload.len() as int) =~= rest);
            },
        }
        assert(seq![decoded_form(it)] + items.skip(i + 1).map_values(
            |x: MaybeInterleavedModel<RequestModel>| decoded_form(x),
        ) =~= items.skip(i).map_values(
            |x: MaybeInterleavedModel<RequestModel>| decoded_form(x),
        ));
    }
}

/// Appending one header extends the emitted block by its line.
pub proof fn lemma_headers_bytes_push(hs: Seq<(Seq<u8>, Seq<u8>)>, e: (Seq<u8>, Seq<u8>), i: int)
    requires
        0 <= i <= hs.len(),
    ensures
        headers_bytes_from(hs.push(e), i) == headers_bytes_from(hs, i) + header_line_bytes(e),
    decreases hs.len() - i,
{
    if i == hs.len() {
        assert(hs.push(e)[i] == e);
        assert(headers_bytes_from(hs.push(e), i + 1) =~= Seq::<u8>::empty());
        assert(headers_bytes_from(hs.push(e), i) =~= header_line_bytes(e));
        assert(headers_bytes_from(hs, i) + header_line_bytes(e) =~= header_line_bytes(e));
    } else {
        lemma_headers_bytes_push(hs, e, i + 1);
        assert(hs.push(e)[i] == hs[i]);
        assert((header_line_bytes(hs[i]) + headers_bytes_from(hs, i + 1)) + header_line_bytes(e)
            =~= header_line_bytes(hs[i]) + (headers_bytes_from(hs, i + 1) + header_line_bytes(
            e,
        )));
    }
}

} // verus!
