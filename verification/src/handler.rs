//! Request dispatch: a pure function from one request, the media
//! controller's snapshot, and the session registry to the mandated
//! response. Protocol and handler errors never escape; they always become
//! status responses, and every response echoes the request's `CSeq`.

use vstd::prelude::*;
use crate::message::{
    accepts, ascii_of, cseq_name, header_lookup, public_methods, public_name, require_name,
    sdp_media_type, session_name, transport_name, content_type_name, uri_path, Method, Request,
    RequestModel, Response, ResponseModel, Status,
};
use crate::scan::{dec_digits, dec_vec};
use crate::session::{
    free_pair_from, is_present, setup_spec, teardown_spec, find_live, RegisterSessionError,
    RegistryModel, SessionId, SessionManager, SessionModel, SessionSetup, SessionState,
    wf_session_id,
};

verus! {

/// The media controller's read surface: presentation paths and the SDP
/// each answers `DESCRIBE` with. In the running server this sits behind
/// one coarse mutex; each handler call sees one snapshot.
pub struct MediaController {
    items: Vec<(Vec<u8>, Vec<u8>)>,
}

impl View for MediaController {
    type V = Seq<(Seq<u8>, Seq<u8>)>;

    closed spec fn view(&self) -> Seq<(Seq<u8>, Seq<u8>)> {
        self.items@.map_values(|e: (Vec<u8>, Vec<u8>)| (e.0@, e.1@))
    }
}

/// The SDP registered for `path`: first entry with that exact path.
pub open spec fn sdp_lookup(items: Seq<(Seq<u8>, Seq<u8>)>, path: Seq<u8>) -> Option<Seq<u8>>
    decreases items.len(),
{
    if items.len() == 0 {
        None
    } else if items[0].0 == path {
        Some(items[0].1)
    } else {
        sdp_lookup(items.drop_first(), path)
    }
}

impl MediaController {
    /// A controller with no presentations.
    pub fn new() -> (r: MediaController)
        ensures
            r@ == Seq::<(Seq<u8>, Seq<u8>)>::empty(),
    {
        let r = MediaController { items: Vec::new() };
        proof {
            assert(r@ =~= Seq::<(Seq<u8>, Seq<u8>)>::empty());
        }
        r
    }

    /// Registers a presentation path with its SDP.
    pub fn register_source(&mut self, path: Vec<u8>, sdp: Vec<u8>)
        ensures
            final(self)@ == old(self)@.push((path@, sdp@)),
    {
        let ghost oldv = self@;
        self.items.push((path, sdp));
        proof {
            assert(self@ =~= oldv.push((self.items@.last().0@, self.items@.last().1@)));
        }
    }

    /// The SDP for a presentation path, if registered: a pure read.
    pub fn query_sdp(&self, path: &[u8]) -> (r: Option<Vec<u8>>)
        ensures
            match r {
                Some(v) => sdp_lookup(self@, path@) == Some(v@),
                None => sdp_lookup(self@, path@) is None,
            },
    {
        let n = self.items.len();
        let mut i: usize = 0;
        assert(self@.skip(0) =~= self@);
        while i < n
            invariant
                n == self@.len(),
                0 <= i <= n,
                sdp_lookup(self@, path@) == sdp_lookup(self@.skip(i as int), path@),
            decreases n - i,
        {
            if crate::message::bytes_eq(self.items[i].0.as_slice(), path) {
                assert(self@.skip(i as int)[0] == self@[i as int]);
                return Some(self.items[i].1.clone());
            }
            assert(self@.skip(i as int).drop_first() =~= self@.skip(i + 1));
            i += 1;
        }
        None
    }
}

/// A plain status reply: the echoed `CSeq` and nothing else.
pub open spec fn reply_model(status: Status, cseq: Seq<u8>) -> ResponseModel {
    ResponseModel {
        status,
        headers: seq![(cseq_name(), cseq)],
        body: Seq::<u8>::empty(),
    }
}

/// The reply to a request that carries no `CSeq` at all: there is nothing
/// to echo, so a bare `400 Bad Request`.
pub open spec fn no_cseq_model() -> ResponseModel {
    ResponseModel {
        status: Status::BadRequest,
        headers: Seq::<(Seq<u8>, Seq<u8>)>::empty(),
        body: Seq::<u8>::empty(),
    }
}

/// The `OPTIONS` reply: the supported methods under `Public`.
pub open spec fn options_model(cseq: Seq<u8>) -> ResponseModel {
    ResponseModel {
        status: Status::Okay,
        headers: seq![(cseq_name(), cseq), (public_name(), public_methods())],
        body: Seq::<u8>::empty(),
    }
}

/// The successful `DESCRIBE` reply: the SDP as `application/sdp` body.
pub open spec fn describe_model(cseq: Seq<u8>, sdp: Seq<u8>) -> ResponseModel {
    ResponseModel {
        status: Status::Okay,
        headers: seq![(cseq_name(), cseq), (content_type_name(), sdp_media_type())],
        body: sdp,
    }
}

/// The `Transport` value reflecting an interleaved channel pair.
pub open spec fn transport_value(rtp: u8, rtcp: u8) -> Seq<u8> {
    ascii_of("RTP/AVP/TCP;unicast;interleaved="@) + dec_digits(rtp as nat) + seq![45u8]
        + dec_digits(rtcp as nat)
}

/// The successful `SETUP` reply: session identifier and transport.
pub open spec fn setup_ok_model(cseq: Seq<u8>, sid: Seq<u8>, rtp: u8, rtcp: u8) -> ResponseModel {
    ResponseModel {
        status: Status::Okay,
        headers: seq![
            (cseq_name(), cseq),
            (session_name(), sid),
            (transport_name(), transport_value(rtp, rtcp)),
        ],
        body: Seq::<u8>::empty(),
    }
}

/// The successful `PLAY` reply.
pub open spec fn play_ok_model(cseq: Seq<u8>, sid: Seq<u8>) -> ResponseModel {
    ResponseModel {
        status: Status::Okay,
        headers: seq![(cseq_name(), cseq), (session_name(), sid)],
        body: Seq::<u8>::empty(),
    }
}

/// What `SETUP` does: refuse aggregate modification of an existing
/// session, then find the path, then allocate the lowest free interleaved
/// channel pair, then register under the fresh identifier; a collision
/// with an ever-issued identifier is the internal error case.
pub open spec fn dispatch_setup(
    req: RequestModel,
    media: Seq<(Seq<u8>, Seq<u8>)>,
    m: RegistryModel,
    fresh: Seq<u8>,
    cseq: Seq<u8>,
) -> (ResponseModel, RegistryModel) {
    if header_lookup(req.headers, session_name()) is Some {
        (reply_model(Status::AggregateOperationNotAllowed, cseq), m)
    } else if sdp_lookup(media, uri_path(req.uri)) is None {
        (reply_model(Status::NotFound, cseq), m)
    } else {
        match free_pair_from(m.live, 0) {
            None => (reply_model(Status::InternalServerError, cseq), m),
            Some(c) => {
                let su = SessionSetup { rtp_channel: c, rtcp_channel: (c + 1) as u8 };
                let stepped = setup_spec(m, fresh, uri_path(req.uri), su);
                if stepped.1 {
                    (setup_ok_model(cseq, fresh, c, (c + 1) as u8), stepped.0)
                } else {
                    (reply_model(Status::InternalServerError, cseq), m)
                }
            },
        }
    }
}

/// What `PLAY` does: mark the named session playing, or `454`.
pub open spec fn dispatch_play(req: RequestModel, m: RegistryModel, cseq: Seq<u8>) -> (
    ResponseModel,
    RegistryModel,
) {
    match header_lookup(req.headers, session_name()) {
        None => (reply_model(Status::SessionNotFound, cseq), m),
        Some(sid) => {
            if is_present(m, sid) {
                let k = find_live(m.live, sid) as int;
                let s = m.live[k];
                let playing = SessionModel {
                    id: s.id,
                    path: s.path,
                    setup: s.setup,
                    state: SessionState::Playing,
                };
                (
                    play_ok_model(cseq, sid),
                    RegistryModel { live: m.live.update(k, playing), issued: m.issued },
                )
            } else {
                (reply_model(Status::SessionNotFound, cseq), m)
            }
        },
    }
}

/// What `TEARDOWN` does: tear the named session down, or `454`.
pub open spec fn dispatch_teardown(req: RequestModel, m: RegistryModel, cseq: Seq<u8>) -> (
    ResponseModel,
    RegistryModel,
) {
    match header_lookup(req.headers, session_name()) {
        None => (reply_model(Status::SessionNotFound, cseq), m),
        Some(sid) => {
            let stepped = teardown_spec(m, sid);
            if stepped.1 {
                (reply_model(Status::Okay, cseq), stepped.0)
            } else {
                (reply_model(Status::SessionNotFound, cseq), m)
            }
        },
    }
}

/// The whole dispatch contract: for every request the response the
/// method switch mandates, and the registry exactly as the one state
/// transition leaves it.
pub open spec fn dispatch_model(
    req: RequestModel,
    media: Seq<(Seq<u8>, Seq<u8>)>,
    m: RegistryModel,
    fresh: Seq<u8>,
) -> (ResponseModel, RegistryModel) {
    match header_lookup(req.headers, cseq_name()) {
        None => (no_cseq_model(), m),
        Some(cseq) => {
            if header_lookup(req.headers, require_name()) is Some {
                (reply_model(Status::OptionNotSupported, cseq), m)
            } else {
                match req.method {
                    Method::Options => (options_model(cseq), m),
                    Method::Describe => {
                        if accepts(req.headers, sdp_media_type()) {
                            match sdp_lookup(media, uri_path(req.uri)) {
                                Some(sdp) => (describe_model(cseq, sdp), m),
                                None => (reply_model(Status::NotFound, cseq), m),
                            }
                        } else {
                            (reply_model(Status::NotAcceptable, cseq), m)
                        }
                    },
                    Method::Setup => dispatch_setup(req, media, m, fresh, cseq),
                    Method::Play => dispatch_play(req, m, cseq),
                    Method::Teardown => dispatch_teardown(req, m, cseq),
                    Method::Redirect => (reply_model(Status::MethodNotValidInThisState, cseq), m),
                    _ => (reply_model(Status::MethodNotAllowed, cseq), m),
                }
            }
        },
    }
}

/// Law: CSeq reflection. Every response `dispatch` produces for a request
/// that carries a `CSeq` echoes that `CSeq` verbatim.
pub proof fn lemma_cseq_reflection(
    req: RequestModel,
    media: Seq<(Seq<u8>, Seq<u8>)>,
    m: RegistryModel,
    fresh: Seq<u8>,
)
    requires
        header_lookup(req.headers, cseq_name()) is Some,
    ensures
        header_lookup(dispatch_model(req, media, m, fresh).0.headers, cseq_name())
            == header_lookup(req.headers, cseq_name()),
{
    let cseq = header_lookup(req.headers, cseq_name()).unwrap();
    let hs = dispatch_model(req, media, m, fresh).0.headers;
    assert(hs.len() >= 1 && hs[0] == (cseq_name(), cseq));
    assert(header_lookup(hs, cseq_name()) == Some(cseq));
}

/// Whether every feature the request requires is supported: no feature
/// is, so only a request without `Require` passes.
pub fn is_request_require_supported(request: &Request) -> (r: bool)
    ensures
        r == (header_lookup(request@.headers, require_name()) is None),
{
    request.require().is_none()
}

/// Whether the request accepts a content type the server can produce:
/// only `application/sdp` is.
pub fn is_request_one_of_content_types_supported(request: &Request) -> (r: bool)
    ensures
        r == accepts(request@.headers, sdp_media_type()),
{
    request.accepts_sdp()
}

/// `200 OK` carrying the supported methods under `Public`.
pub fn reply_to_options_with_supported_methods(request: &Request) -> (r: Response)
    requires
        header_lookup(request@.headers, cseq_name()) is Some,
    ensures
        r@ == options_model(header_lookup(request@.headers, cseq_name()).unwrap()),
{
    proof {
        reveal_strlit("Public");
        reveal_strlit("OPTIONS, DESCRIBE, SETUP, PLAY, TEARDOWN");
    }
    let r = Response::ok().with_cseq_of(request).with_header(
        "Public",
        crate::message::str_to_bytes("OPTIONS, DESCRIBE, SETUP, PLAY, TEARDOWN"),
    );
    proof {
        let cseq = header_lookup(request@.headers, cseq_name()).unwrap();
        assert(r@.headers =~= options_model(cseq).headers);
    }
    r
}

/// `200 OK` carrying the presentation's SDP.
pub fn reply_to_describe_with_media_sdp(request: &Request, sdp_contents: Vec<u8>) -> (r: Response)
    requires
        header_lookup(request@.headers, cseq_name()) is Some,
    ensures
        r@ == describe_model(header_lookup(request@.headers, cseq_name()).unwrap(), sdp_contents@),
{
    let r = Response::ok().with_cseq_of(request).with_sdp(sdp_contents);
    proof {
        let cseq = header_lookup(request@.headers, cseq_name()).unwrap();
        assert(r@.headers =~= describe_model(cseq, r@.body).headers);
    }
    r
}

/// `551 Option Not Supported`: an unsupported `Require` feature tag.
pub fn reply_option_not_supported(request: &Request) -> (r: Response)
    requires
        header_lookup(request@.headers, cseq_name()) is Some,
    ensures
        r@ == reply_model(
            Status::OptionNotSupported,
            header_lookup(request@.headers, cseq_name()).unwrap(),
        ),
{
    reply_with_status(request, Status::OptionNotSupported)
}

/// `405 Method Not Allowed`: a method the server does not serve.
pub fn reply_method_not_supported(request: &Request) -> (r: Response)
    requires
        header_lookup(request@.headers, cseq_name()) is Some,
    ensures
        r@ == reply_model(
            Status::MethodNotAllowed,
            header_lookup(request@.headers, cseq_name()).unwrap(),
        ),
{
    reply_with_status(request, Status::MethodNotAllowed)
}

/// `455 Method Not Valid In This State`: `REDIRECT` is server-originated.
pub fn reply_method_not_valid(request: &Request) -> (r: Response)
    requires
        header_lookup(request@.headers, cseq_name()) is Some,
    ensures
        r@ == reply_model(
            Status::MethodNotValidInThisState,
            header_lookup(request@.headers, cseq_name()).unwrap(),
        ),
{
    reply_with_status(request, Status::MethodNotValidInThisState)
}

/// `406 Not Acceptable`: the client accepts no producible content type.
pub fn reply_not_acceptable(request: &Request) -> (r: Response)
    requires
        header_lookup(request@.headers, cseq_name()) is Some,
    ensures
        r@ == reply_model(
            Status::NotAcceptable,
            header_lookup(request@.headers, cseq_name()).unwrap(),
        ),
{
    reply_with_status(request, Status::NotAcceptable)
}

/// `404 Not Found`: the path names no presentation.
pub fn reply_not_found(request: &Request) -> (r: Response)
    requires
        header_lookup(request@.headers, cseq_name()) is Some,
    ensures
        r@ == reply_model(
            Status::NotFound,
            header_lookup(request@.headers, cseq_name()).unwrap(),
        ),
{
    reply_with_status(request, Status::NotFound)
}

/// `459 Aggregate Operation Not Allowed`: `SETUP` on an existing session.
pub fn reply_aggregate_operation_not_allowed(request: &Request) -> (r: Response)
    requires
        header_lookup(request@.headers, cseq_name()) is Some,
    ensures
        r@ == reply_model(
            Status::AggregateOperationNotAllowed,
            header_lookup(request@.headers, cseq_name()).unwrap(),
        ),
{
    reply_with_status(request, Status::AggregateOperationNotAllowed)
}

/// `500 Internal Server Error`: an identifier collision or exhausted
/// channels, recovered locally as a status reply.
pub fn reply_internal_server_error(request: &Request) -> (r: Response)
    requires
        header_lookup(request@.headers, cseq_name()) is Some,
    ensures
        r@ == reply_model(
            Status::InternalServerError,
            header_lookup(request@.headers, cseq_name()).unwrap(),
        ),
{
    reply_with_status(request, Status::InternalServerError)
}

/// The shared shape of the plain status replies.
fn reply_with_status(request: &Request, status: Status) -> (r: Response)
    requires
        header_lookup(request@.headers, cseq_name()) is Some,
    ensures
        r@ == reply_model(status, header_lookup(request@.headers, cseq_name()).unwrap()),
{
    let r = Response::error(status).with_cseq_of(request);
    proof {
        let cseq = header_lookup(request@.headers, cseq_name()).unwrap();
        assert(r@.headers =~= reply_model(status, cseq).headers);
    }
    r
}

/// `200 OK` for a successful `SETUP`: the issued identifier and the
/// transport line with the interleaved channel pair.
fn reply_setup_ok(request: &Request, sid: &SessionId, rtp: u8, rtcp: u8) -> (r: Response)
    requires
        header_lookup(request@.headers, cseq_name()) is Some,
    ensures
        r@ == setup_ok_model(
            header_lookup(request@.headers, cseq_name()).unwrap(),
            sid@,
            rtp,
            rtcp,
        ),
{
    proof {
        reveal_strlit("Session");
        reveal_strlit("Transport");
        reveal_strlit("RTP/AVP/TCP;unicast;interleaved=");
    }
    let mut tv = crate::message::str_to_bytes("RTP/AVP/TCP;unicast;interleaved=");
    let mut rtp_digits = dec_vec(rtp as usize);
    tv.append(&mut rtp_digits);
    tv.push(45);
    let mut rtcp_digits = dec_vec(rtcp as usize);
    tv.append(&mut rtcp_digits);
    proof {
        assert(tv@ =~= transport_value(rtp, rtcp));
    }
    let r = Response::ok().with_cseq_of(request).with_header(
        "Session",
        sid.as_bytes().clone(),
    ).with_header("Transport", tv);
    proof {
        let cseq = header_lookup(request@.headers, cseq_name()).unwrap();
        assert(r@.headers =~= setup_ok_model(cseq, sid@, rtp, rtcp).headers);
    }
    r
}

/// `200 OK` for a successful `PLAY`.
fn reply_play_ok(request: &Request, sid: &SessionId) -> (r: Response)
    requires
        header_lookup(request@.headers, cseq_name()) is Some,
    ensures
        r@ == play_ok_model(header_lookup(request@.headers, cseq_name()).unwrap(), sid@),
{
    proof {
        reveal_strlit("Session");
    }
    let r = Response::ok().with_cseq_of(request).with_header("Session", sid.as_bytes().clone());
    proof {
        let cseq = header_lookup(request@.headers, cseq_name()).unwrap();
        assert(r@.headers =~= play_ok_model(cseq, sid@).headers);
    }
    r
}

/// Serves one request: checks `CSeq` and `Require`, switches on the
/// method, and drives the registry for `SETUP`, `PLAY` and `TEARDOWN`.
/// `fresh_id` is the candidate identifier from the caller's generator,
/// used only by `SETUP`.
pub fn handle_request(
    request: &Request,
    media: &MediaController,
    sessions: &mut SessionManager,
    fresh_id: SessionId,
) -> (r: Response)
    requires
        wf_session_id(fresh_id@),
    ensures
        r@ == dispatch_model(request@, media@, old(sessions)@, fresh_id@).0,
        final(sessions)@ == dispatch_model(request@, media@, old(sessions)@, fresh_id@).1,
{
    let ghost m0 = sessions@;
    let cseq = match request.cseq() {
        Some(c) => c,
        None => {
            let r = Response::error(Status::BadRequest);
            proof {
                assert(r@.headers =~= no_cseq_model().headers);
            }
            return r;
        },
    };
    if !is_request_require_supported(request) {
        return reply_option_not_supported(request);
    }
    match request.method {
        Method::Options => reply_to_options_with_supported_methods(request),
        Method::Announce => reply_method_not_supported(request),
        Method::Describe => {
            if is_request_one_of_content_types_supported(request) {
                let path = request.path();
                match media.query_sdp(path.as_slice()) {
                    Some(media_sdp) => reply_to_describe_with_media_sdp(request, media_sdp),
                    None => reply_not_found(request),
                }
            } else {
                reply_not_acceptable(request)
            }
        },
        Method::GetParameter => reply_method_not_supported(request),
        Method::SetParameter => reply_method_not_supported(request),
        Method::Setup => {
            if request.session().is_none() {
                let path = request.path();
                if media.query_sdp(path.as_slice()).is_some() {
                    match sessions.allocate_channel_pair() {
                        Some(pair) => {
                            let setup = SessionSetup {
                                rtp_channel: pair.0,
                                rtcp_channel: pair.1,
                            };
                            match sessions.setup_and_start(fresh_id, path, setup) {
                                Ok(sid) => reply_setup_ok(request, &sid, pair.0, pair.1),
                                Err(RegisterSessionError::AlreadyRegistered) => {
                                    reply_internal_server_error(request)
                                },
                            }
                        },
                        None => reply_internal_server_error(request),
                    }
                } else {
                    reply_not_found(request)
                }
            } else {
                reply_aggregate_operation_not_allowed(request)
            }
        },
        Method::Play => {
            match request.session() {
                Some(sid_bytes) => {
                    let sid = SessionId::new(sid_bytes);
                    if sessions.play(&sid) {
                        reply_play_ok(request, &sid)
                    } else {
                        reply_with_status(request, Status::SessionNotFound)
                    }
                },
                None => reply_with_status(request, Status::SessionNotFound),
            }
        },
        Method::Pause => reply_method_not_supported(request),
        Method::Record => reply_method_not_supported(request),
        Method::Teardown => {
            match request.session() {
                Some(sid_bytes) => {
                    let sid = SessionId::new(sid_bytes);
                    match sessions.teardown(&sid) {
                        Some(_) => {
                            let r = Response::ok().with_cseq_of(request);
                            proof {
                                let c = header_lookup(request@.headers, cseq_name()).unwrap();
                                assert(r@.headers =~= reply_model(Status::Okay, c).headers);
                            }
                            r
                        },
                        None => reply_with_status(request, Status::SessionNotFound),
                    }
                },
                None => reply_with_status(request, Status::SessionNotFound),
            }
        },
        Method::Redirect => reply_method_not_valid(request),
    }
}

} // verus!
