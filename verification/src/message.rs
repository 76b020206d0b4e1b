//! RTSP/1.0 message grammar: methods, status codes, the insertion-ordered
//! header multimap, requests, responses, and the `MaybeInterleaved` carrier
//! that multiplexes text messages with binary interleaved frames.

use vstd::prelude::*;

verus! {

/// Space, horizontal tab, carriage return, line feed, colon: the bytes the
/// grammar treats specially.
pub const SP: u8 = 32;

pub const HT: u8 = 9;

pub const CR: u8 = 13;

pub const LF: u8 = 10;

pub const COLON: u8 = 58;

/// The `$` magic byte that opens an interleaved binary frame.
pub const MAGIC: u8 = 36;

/// The eleven RTSP/1.0 request methods.
#[derive(Clone, Copy, PartialEq, Eq, Structural, Debug)]
pub enum Method {
    Options,
    Announce,
    Describe,
    GetParameter,
    SetParameter,
    Setup,
    Play,
    Pause,
    Record,
    Teardown,
    Redirect,
}

/// The closed enumeration of response statuses this server emits.
#[derive(Clone, Copy, PartialEq, Eq, Structural, Debug)]
pub enum Status {
    Okay,
    BadRequest,
    NotFound,
    MethodNotAllowed,
    NotAcceptable,
    SessionNotFound,
    MethodNotValidInThisState,
    AggregateOperationNotAllowed,
    InternalServerError,
    OptionNotSupported,
}

impl Status {
    /// The three-digit status code, as a mathematical value.
    pub open spec fn spec_code(self) -> u16 {
        match self {
            Status::Okay => 200,
            Status::BadRequest => 400,
            Status::NotFound => 404,
            Status::MethodNotAllowed => 405,
            Status::NotAcceptable => 406,
            Status::SessionNotFound => 454,
            Status::MethodNotValidInThisState => 455,
            Status::AggregateOperationNotAllowed => 459,
            Status::InternalServerError => 500,
            Status::OptionNotSupported => 551,
        }
    }

    /// The three-digit status code.
    pub fn code(&self) -> (c: u16)
        ensures
            c == self.spec_code(),
    {
        match self {
            Status::Okay => 200,
            Status::BadRequest => 400,
            Status::NotFound => 404,
            Status::MethodNotAllowed => 405,
            Status::NotAcceptable => 406,
            Status::SessionNotFound => 454,
            Status::MethodNotValidInThisState => 455,
            Status::AggregateOperationNotAllowed => 459,
            Status::InternalServerError => 500,
            Status::OptionNotSupported => 551,
        }
    }
}

/// ASCII lower-casing of one byte: header names compare case-insensitively.
pub open spec fn lower(b: u8) -> u8 {
    if 65 <= b <= 90 {
        (b + 32) as u8
    } else {
        b
    }
}

/// ASCII lower-casing of a byte sequence.
pub open spec fn lower_seq(s: Seq<u8>) -> Seq<u8> {
    s.map_values(|b: u8| lower(b))
}

/// Case-insensitive equality of header names.
pub open spec fn name_eq(a: Seq<u8>, b: Seq<u8>) -> bool {
    lower_seq(a) == lower_seq(b)
}

/// ASCII lower-casing of one byte, executable form.
pub fn byte_lower(b: u8) -> (r: u8)
    ensures
        r == lower(b),
{
    if 65 <= b && b <= 90 {
        b + 32
    } else {
        b
    }
}

/// Case-insensitive comparison of two header names.
pub fn bytes_name_eq(a: &[u8], b: &[u8]) -> (r: bool)
    ensures
        r == name_eq(a@, b@),
{
    if a.len() != b.len() {
        assert(lower_seq(a@).len() != lower_seq(b@).len());
        return false;
    }
    let n = a.len();
    let mut i: usize = 0;
    while i < n
        invariant
            n == a@.len() == b@.len(),
            0 <= i <= n,
            forall|j: int| 0 <= j < i ==> lower(a@[j]) == lower(b@[j]),
        decreases n - i,
    {
        if byte_lower(a[i]) != byte_lower(b[i]) {
            assert(lower_seq(a@)[i as int] != lower_seq(b@)[i as int]);
            return false;
        }
        i += 1;
    }
    assert(lower_seq(a@) =~= lower_seq(b@));
    true
}

/// Equality of two byte vectors, stated over their views.
pub fn bytes_eq(a: &[u8], b: &[u8]) -> (r: bool)
    ensures
        r == (a@ == b@),
{
    if a.len() != b.len() {
        return false;
    }
    let n = a.len();
    let mut i: usize = 0;
    while i < n
        invariant
            n == a@.len() == b@.len(),
            0 <= i <= n,
            forall|j: int| 0 <= j < i ==> a@[j] == b@[j],
        decreases n - i,
    {
        if a[i] != b[i] {
            return false;
        }
        i += 1;
    }
    assert(a@ =~= b@);
    true
}

/// An insertion-ordered multimap of header fields. Names compare
/// ASCII-case-insensitively; values are kept verbatim.
#[derive(Clone, Debug)]
pub struct Headers {
    entries: Vec<(Vec<u8>, Vec<u8>)>,
}

impl View for Headers {
    type V = Seq<(Seq<u8>, Seq<u8>)>;

    closed spec fn view(&self) -> Seq<(Seq<u8>, Seq<u8>)> {
        self.entries@.map_values(|e: (Vec<u8>, Vec<u8>)| (e.0@, e.1@))
    }
}

/// The value of the first header whose name matches case-insensitively,
/// if any.
pub open spec fn header_lookup(hs: Seq<(Seq<u8>, Seq<u8>)>, name: Seq<u8>) -> Option<Seq<u8>>
    decreases hs.len(),
{
    if hs.len() == 0 {
        None
    } else if name_eq(hs[0].0, name) {
        Some(hs[0].1)
    } else {
        header_lookup(hs.drop_first(), name)
    }
}

impl Headers {
    /// An empty header block.
    pub fn new() -> (r: Headers)
        ensures
            r@ == Seq::<(Seq<u8>, Seq<u8>)>::empty(),
    {
        let r = Headers { entries: Vec::new() };
        assert(r@ =~= Seq::<(Seq<u8>, Seq<u8>)>::empty());
        r
    }

    /// Appends one field at the end, preserving insertion order.
    pub fn insert(&mut self, name: Vec<u8>, value: Vec<u8>)
        ensures
            final(self)@ == old(self)@.push((name@, value@)),
    {
        let ghost oldv = self@;
        self.entries.push((name, value));
        assert(self@ =~= oldv.push((self.entries@.last().0@, self.entries@.last().1@)));
    }

    /// The number of fields.
    pub fn len(&self) -> (n: usize)
        ensures
            n == self@.len(),
    {
        self.entries.len()
    }

    /// The field at one position, cloned out.
    pub fn entry_at(&self, i: usize) -> (e: (Vec<u8>, Vec<u8>))
        requires
            i < self@.len(),
        ensures
            (e.0@, e.1@) == self@[i as int],
    {
        let e = &self.entries[i];
        (e.0.clone(), e.1.clone())
    }

    /// The value of the first field whose name matches case-insensitively.
    pub fn get(&self, name: &[u8]) -> (r: Option<Vec<u8>>)
        ensures
            match r {
                Some(v) => header_lookup(self@, name@) == Some(v@),
                None => header_lookup(self@, name@) is None,
            },
    {
        let n = self.entries.len();
        let mut i: usize = 0;
        assert(self@.skip(0) =~= self@);
        while i < n
            invariant
                n == self@.len(),
                0 <= i <= n,
                header_lookup(self@, name@) == header_lookup(self@.skip(i as int), name@),
            decreases n - i,
        {
            if bytes_name_eq(self.entries[i].0.as_slice(), name) {
                assert(self@.skip(i as int)[0] == self@[i as int]);
                return Some(self.entries[i].1.clone());
            }
            assert(self@.skip(i as int).drop_first() =~= self@.skip(i + 1));
            i += 1;
        }
        assert(self@.skip(n as int) =~= Seq::<(Seq<u8>, Seq<u8>)>::empty());
        None
    }

    /// Whether some field carries this name.
    pub fn contains(&self, name: &[u8]) -> (r: bool)
        ensures
            r == (header_lookup(self@, name@) is Some),
    {
        self.get(name).is_some()
    }
}

/// A parsed RTSP request. The version is fixed at RTSP/1.0 by the grammar,
/// so no field records it.
#[derive(Clone, Debug)]
pub struct Request {
    pub method: Method,
    pub uri: Vec<u8>,
    pub headers: Headers,
    pub body: Vec<u8>,
}

/// The mathematical model of a request.
pub struct RequestModel {
    pub method: Method,
    pub uri: Seq<u8>,
    pub headers: Seq<(Seq<u8>, Seq<u8>)>,
    pub body: Seq<u8>,
}

impl View for Request {
    type V = RequestModel;

    open spec fn view(&self) -> RequestModel {
        RequestModel {
            method: self.method,
            uri: self.uri@,
            headers: self.headers@,
            body: self.body@,
        }
    }
}

/// A response under construction or ready to encode.
#[derive(Clone, Debug)]
pub struct Response {
    pub status: Status,
    pub headers: Headers,
    pub body: Vec<u8>,
}

/// The mathematical model of a response.
pub struct ResponseModel {
    pub status: Status,
    pub headers: Seq<(Seq<u8>, Seq<u8>)>,
    pub body: Seq<u8>,
}

impl View for Response {
    type V = ResponseModel;

    open spec fn view(&self) -> ResponseModel {
        ResponseModel { status: self.status, headers: self.headers@, body: self.body@ }
    }
}

/// Either a text message or a binary interleaved frame, as both directions
/// of the transport carry them.
#[derive(Debug)]
pub enum MaybeInterleaved<T> {
    Message(T),
    Interleaved { channel: u8, payload: Vec<u8> },
}

/// The mathematical model of a `MaybeInterleaved` item.
pub ghost enum MaybeInterleavedModel<V> {
    Message(V),
    Interleaved { channel: u8, payload: Seq<u8> },
}

impl<T: View> View for MaybeInterleaved<T> {
    type V = MaybeInterleavedModel<T::V>;

    open spec fn view(&self) -> MaybeInterleavedModel<T::V> {
        match self {
            MaybeInterleaved::Message(t) => MaybeInterleavedModel::Message(t@),
            MaybeInterleaved::Interleaved { channel, payload } => MaybeInterleavedModel::Interleaved {
                channel: *channel,
                payload: payload@,
            },
        }
    }
}

broadcast use vstd::string::is_ascii_spec_bytes;

/// The bytes of an ASCII character sequence, one byte per character.
pub open spec fn ascii_of(s: Seq<char>) -> Seq<u8> {
    s.map_values(|c: char| c as u8)
}

/// The bytes of an ASCII string slice.
pub fn str_to_bytes(s: &str) -> (r: Vec<u8>)
    requires
        s.is_ascii(),
    ensures
        r@ == ascii_of(s@),
{
    let v = s.as_bytes_vec();
    proof {
        assert(v@ =~= ascii_of(s@));
    }
    v
}

/// The canonical header names and fixed values the server speaks of.
pub open spec fn cseq_name() -> Seq<u8> {
    ascii_of("CSeq"@)
}

pub open spec fn session_name() -> Seq<u8> {
    ascii_of("Session"@)
}

pub open spec fn require_name() -> Seq<u8> {
    ascii_of("Require"@)
}

pub open spec fn accept_name() -> Seq<u8> {
    ascii_of("Accept"@)
}

pub open spec fn public_name() -> Seq<u8> {
    ascii_of("Public"@)
}

pub open spec fn content_type_name() -> Seq<u8> {
    ascii_of("Content-Type"@)
}

pub open spec fn content_length_name() -> Seq<u8> {
    ascii_of("Content-Length"@)
}

pub open spec fn transport_name() -> Seq<u8> {
    ascii_of("Transport"@)
}

/// The one media type `DESCRIBE` can answer with.
pub open spec fn sdp_media_type() -> Seq<u8> {
    ascii_of("application/sdp"@)
}

/// The methods `OPTIONS` advertises.
pub open spec fn public_methods() -> Seq<u8> {
    ascii_of("OPTIONS, DESCRIBE, SETUP, PLAY, TEARDOWN"@)
}

/// Membership of `needle` in a comma-separated list, each element trimmed
/// of horizontal whitespace: the normalization of list-valued headers.
pub open spec fn list_has(v: Seq<u8>, needle: Seq<u8>) -> bool
    decreases v.len(),
    via list_has_decreases
{
    let c = crate::scan::find_byte(v, COMMA_B) as int;
    if c >= v.len() {
        crate::scan::trim(v) == needle
    } else {
        crate::scan::trim(v.take(c)) == needle || list_has(v.skip(c + 1), needle)
    }
}

#[via_fn]
proof fn list_has_decreases(v: Seq<u8>, needle: Seq<u8>) {
    crate::scan::lemma_find_byte(v, COMMA_B);
}

/// The comma byte, separating list-valued header elements.
pub const COMMA_B: u8 = 44;

/// The slash byte, opening the path component of a URL.
pub const SLASH: u8 = 47;

/// Whether the comma-separated list `v` contains `needle`.
pub fn list_contains(v: &[u8], needle: &[u8]) -> (r: bool)
    ensures
        r == list_has(v@, needle@),
{
    let n = v.len();
    let mut p: usize = 0;
    assert(v@.skip(0) =~= v@);
    loop
        invariant
            0 <= p <= n,
            n == v@.len(),
            list_has(v@, needle@) == list_has(v@.skip(p as int), needle@),
        decreases n - p,
    {
        let ghost rest = v@.skip(p as int);
        let c = crate::scan::scan_byte_from(v, p, COMMA_B);
        proof {
            crate::scan::lemma_find_byte(rest, COMMA_B);
        }
        if c == n {
            let seg = crate::scan::trim_bytes_range(v, p, n);
            proof {
                assert(rest.take(rest.len() as int) =~= rest);
                assert(v@.subrange(p as int, n as int) =~= rest);
            }
            return bytes_eq(seg.as_slice(), needle);
        }
        let seg = crate::scan::trim_bytes_range(v, p, c);
        proof {
            assert(v@.subrange(p as int, c as int) =~= rest.take(c - p));
        }
        if bytes_eq(seg.as_slice(), needle) {
            return true;
        }
        proof {
            assert(rest.skip(c - p + 1) =~= v@.skip(c + 1));
        }
        p = c + 1;
    }
}

/// Whether some header named `Accept` (case-insensitively) lists this
/// media type; repeated headers and comma-separated values normalize to
/// the same semantic list.
pub open spec fn accepts(hs: Seq<(Seq<u8>, Seq<u8>)>, needle: Seq<u8>) -> bool {
    exists|j: int|
        0 <= j < hs.len() && name_eq(#[trigger] hs[j].0, accept_name()) && list_has(
            hs[j].1,
            needle,
        )
}

/// Index just past `//` in a URL, or at least `s.len() - 1` when absent.
pub open spec fn find_dslash(s: Seq<u8>) -> nat
    decreases s.len(),
{
    if s.len() < 2 {
        s.len()
    } else if s[0] == SLASH && s[1] == SLASH {
        0
    } else {
        (1 + find_dslash(s.drop_first())) as nat
    }
}

pub proof fn lemma_find_dslash_is(s: Seq<u8>, k: int)
    requires
        0 <= k,
        k + 2 <= s.len(),
        forall|j: int| 0 <= j < k ==> !((#[trigger] s[j]) == SLASH && s[j + 1] == SLASH),
        s[k] == SLASH && s[k + 1] == SLASH,
    ensures
        find_dslash(s) == k,
    decreases s.len(),
{
    if !(s[0] == SLASH && s[1] == SLASH) {
        assert forall|j: int| 0 <= j < k - 1 implies !((#[trigger] s.drop_first()[j]) == SLASH
            && s.drop_first()[j + 1] == SLASH) by {
            assert(s.drop_first()[j] == s[j + 1] && s.drop_first()[j + 1] == s[j + 2]);
            assert(!(s[j + 1] == SLASH && s[j + 2] == SLASH));
        }
        lemma_find_dslash_is(s.drop_first(), k - 1);
    }
}

pub proof fn lemma_find_dslash_none(s: Seq<u8>)
    requires
        forall|j: int| 0 <= j && j + 2 <= s.len() ==> !((#[trigger] s[j]) == SLASH && s[j + 1] == SLASH),
    ensures
        find_dslash(s) + 2 > s.len(),
    decreases s.len(),
{
    if s.len() >= 2 {
        assert forall|j: int| 0 <= j && j + 2 <= s.drop_first().len() implies !((#[trigger] s.drop_first()[j])
            == SLASH && s.drop_first()[j + 1] == SLASH) by {
            assert(s.drop_first()[j] == s[j + 1] && s.drop_first()[j + 1] == s[j + 2]);
        }
        lemma_find_dslash_none(s.drop_first());
    }
}

/// The path component of an absolute RTSP URL: the suffix from the first
/// `/` after the `//` authority marker. A URI without `//` is taken to be
/// a bare path; an authority without a path means the root path.
pub open spec fn uri_path(u: Seq<u8>) -> Seq<u8> {
    let dd = find_dslash(u) as int;
    if dd + 2 > u.len() {
        u
    } else {
        let rest = u.skip(dd + 2);
        let sl = crate::scan::find_byte(rest, SLASH) as int;
        if sl >= rest.len() {
            seq![SLASH]
        } else {
            rest.skip(sl)
        }
    }
}

impl Request {
    /// The `CSeq` header value, if the request carries one.
    pub fn cseq(&self) -> (r: Option<Vec<u8>>)
        ensures
            match r {
                Some(v) => header_lookup(self@.headers, cseq_name()) == Some(v@),
                None => header_lookup(self@.headers, cseq_name()) is None,
            },
    {
        proof {
            reveal_strlit("CSeq");
        }
        let name = str_to_bytes("CSeq");
        self.headers.get(name.as_slice())
    }

    /// The `Session` header value, if present.
    pub fn session(&self) -> (r: Option<Vec<u8>>)
        ensures
            match r {
                Some(v) => header_lookup(self@.headers, session_name()) == Some(v@),
                None => header_lookup(self@.headers, session_name()) is None,
            },
    {
        proof {
            reveal_strlit("Session");
        }
        let name = str_to_bytes("Session");
        self.headers.get(name.as_slice())
    }

    /// The `Require` header value, if present. No feature is supported,
    /// so any value at all demands `551 Option Not Supported`.
    pub fn require(&self) -> (r: Option<Vec<u8>>)
        ensures
            match r {
                Some(v) => header_lookup(self@.headers, require_name()) == Some(v@),
                None => header_lookup(self@.headers, require_name()) is None,
            },
    {
        proof {
            reveal_strlit("Require");
        }
        let name = str_to_bytes("Require");
        self.headers.get(name.as_slice())
    }

    /// Whether some `Accept` header lists `application/sdp`.
    pub fn accepts_sdp(&self) -> (r: bool)
        ensures
            r == accepts(self@.headers, sdp_media_type()),
    {
        proof {
            reveal_strlit("Accept");
            reveal_strlit("application/sdp");
        }
        let accept = str_to_bytes("Accept");
        let needle = str_to_bytes("application/sdp");
        let n = self.headers.len();
        let mut i: usize = 0;
        while i < n
            invariant
                n == self@.headers.len(),
                0 <= i <= n,
                needle@ == sdp_media_type(),
                accept@ == accept_name(),
                forall|j: int|
                    0 <= j < i ==> !(name_eq(#[trigger] self@.headers[j].0, accept_name())
                        && list_has(self@.headers[j].1, sdp_media_type())),
            decreases n - i,
        {
            let e = self.headers.entry_at(i);
            if bytes_name_eq(e.0.as_slice(), accept.as_slice()) {
                if list_contains(e.1.as_slice(), needle.as_slice()) {
                    proof {
                        assert(name_eq(self@.headers[i as int].0, accept_name()) && list_has(
                            self@.headers[i as int].1,
                            sdp_media_type(),
                        ));
                    }
                    return true;
                }
            }
            i += 1;
        }
        false
    }

    /// The path component of the request URL.
    pub fn path(&self) -> (r: Vec<u8>)
        ensures
            r@ == uri_path(self@.uri),
    {
        let u = self.uri.as_slice();
        let n = u.len();
        let mut dd: usize = 0;
        let mut found = false;
        while dd < n && dd + 1 < n && !found
            invariant
                n == u@.len(),
                0 <= dd <= n,
                !found ==> forall|j: int|
                    0 <= j < dd ==> !((#[trigger] u@[j]) == SLASH && u@[j + 1] == SLASH),
                found ==> dd + 2 <= n && u@[dd as int] == SLASH && u@[dd as int + 1] == SLASH
                    && forall|j: int| 0 <= j < dd ==> !((#[trigger] u@[j]) == SLASH && u@[j + 1] == SLASH),
            decreases n - dd + (if found { 0int } else { 1int }),
        {
            if u[dd] == SLASH && u[dd + 1] == SLASH {
                found = true;
            } else {
                dd += 1;
            }
        }
        if !found {
            proof {
                lemma_find_dslash_none(u@);
            }
            return self.uri.clone();
        }
        proof {
            lemma_find_dslash_is(u@, dd as int);
        }
        let rest_start = dd + 2;
        let sl = crate::scan::scan_byte_from(u, rest_start, SLASH);
        proof {
            crate::scan::lemma_find_byte(u@.skip(rest_start as int), SLASH);
        }
        if sl == n {
            let mut r: Vec<u8> = Vec::new();
            r.push(SLASH);
            proof {
                assert(r@ =~= seq![SLASH]);
            }
            return r;
        }
        let mut r: Vec<u8> = Vec::new();
        let mut i: usize = sl;
        while i < n
            invariant
                n == u@.len(),
                sl <= i <= n,
                r@ =~= u@.subrange(sl as int, i as int),
            decreases n - i,
        {
            r.push(u[i]);
            i += 1;
        }
        proof {
            let rest = u@.skip(rest_start as int);
            assert(rest.skip(sl - rest_start) =~= u@.subrange(sl as int, n as int));
        }
        r
    }
}

impl Response {
    /// A `200 OK` under construction: no headers, empty body.
    pub fn ok() -> (r: Response)
        ensures
            r@.status == Status::Okay,
            r@.headers == Seq::<(Seq<u8>, Seq<u8>)>::empty(),
            r@.body == Seq::<u8>::empty(),
    {
        Response { status: Status::Okay, headers: Headers::new(), body: Vec::new() }
    }

    /// An error reply under construction: no headers, empty body.
    pub fn error(status: Status) -> (r: Response)
        ensures
            r@.status == status,
            r@.headers == Seq::<(Seq<u8>, Seq<u8>)>::empty(),
            r@.body == Seq::<u8>::empty(),
    {
        Response { status, headers: Headers::new(), body: Vec::new() }
    }

    /// Appends one header field.
    pub fn with_header(self, name: &str, value: Vec<u8>) -> (r: Response)
        requires
            name.is_ascii(),
        ensures
            r@.status == self@.status,
            r@.headers == self@.headers.push((ascii_of(name@), value@)),
            r@.body == self@.body,
    {
        let mut h = self.headers;
        h.insert(str_to_bytes(name), value);
        Response { status: self.status, headers: h, body: self.body }
    }

    /// Copies the request's `CSeq` into this response: every reply echoes
    /// the sequence number of the request it answers.
    pub fn with_cseq_of(self, request: &Request) -> (r: Response)
        requires
            header_lookup(request@.headers, cseq_name()) is Some,
        ensures
            r@.status == self@.status,
            r@.headers == self@.headers.push(
                (cseq_name(), header_lookup(request@.headers, cseq_name()).unwrap()),
            ),
            r@.body == self@.body,
    {
        proof {
            reveal_strlit("CSeq");
        }
        let v = match self_cseq_of(request) {
            Some(v) => v,
            None => Vec::new(),
        };
        self.with_header("CSeq", v)
    }

    /// Attaches an SDP body with its media type; the codec fills in the
    /// `Content-Length` when the message is written out.
    pub fn with_sdp(self, sdp: Vec<u8>) -> (r: Response)
        ensures
            r@.status == self@.status,
            r@.headers == self@.headers.push((content_type_name(), sdp_media_type())),
            r@.body == sdp@,
    {
        proof {
            reveal_strlit("Content-Type");
            reveal_strlit("application/sdp");
        }
        let r = self.with_header("Content-Type", str_to_bytes("application/sdp"));
        Response { status: r.status, headers: r.headers, body: sdp }
    }
}

/// The request's `CSeq` value; a helper for `with_cseq_of`.
fn self_cseq_of(request: &Request) -> (r: Option<Vec<u8>>)
    ensures
        match r {
            Some(v) => header_lookup(request@.headers, cseq_name()) == Some(v@),
            None => header_lookup(request@.headers, cseq_name()) is None,
        },
{
    request.cseq()
}

} // verus!
