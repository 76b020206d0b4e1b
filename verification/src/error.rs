//! The error surface. Parse and encode errors are fatal to a connection;
//! `RtpInfo` errors report a malformed `RTP-Info` header value.

use vstd::prelude::*;

verus! {

#[derive(Clone, PartialEq, Debug)]
pub enum Error {
    /// The request line is not `METHOD SP URI SP VERSION`.
    StartLineMalformed,
    /// The version is not `RTSP/1.0`.
    VersionUnknown,
    /// A header line without a colon.
    HeaderMalformed,
    /// A `Content-Length` value that is not a plain decimal numeral.
    ContentLengthInvalid,
    /// A body length above the configured ceiling.
    MessageTooLarge,
    /// An interleaved frame length above the configured ceiling.
    FrameTooLarge,
    /// An outbound interleaved payload longer than 65535 bytes.
    PayloadTooLarge,
    /// An `RTP-Info` value whose first field is not `url=`.
    RtpInfoUrlMissing { value: String },
    /// An `RTP-Info` parameter with an unparsable number.
    RtpInfoParameterInvalid { value: String },
    /// An `RTP-Info` parameter with an unknown name.
    RtpInfoParameterUnknown { value: String },
    /// An `RTP-Info` segment past the permitted three.
    RtpInfoParameterUnexpected { value: String },
}

} // verus!
