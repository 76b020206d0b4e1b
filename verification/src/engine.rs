//! The connection engine's decisions. One engine instance serves one
//! accepted connection: a reader activity decodes inbound items and a
//! writer activity drains the outbound channel. The I/O loops live with
//! the transport; each loop feeds every event through the step function
//! here and obeys the directive it returns. Cancellation is a first-class
//! event: a cancellation-class event yields an exit directive, so both
//! activities terminate one step after the shutdown handle fires,
//! whether or not a read was in progress.

use vstd::prelude::*;
use crate::codec::{frame_bytes, response_bytes};
use crate::error::Error;
use crate::handler::{dispatch_model, handle_request, MediaController};
use crate::message::{MaybeInterleaved, MaybeInterleavedModel, Request, Response};
use crate::session::{wf_session_id, SessionId, SessionManager, SessionState};

verus! {

/// What the reader activity observed on the transport.
pub enum ReaderEvent {
    /// The codec yielded one complete inbound item.
    Decoded(MaybeInterleaved<Request>),
    /// The codec reported a terminal parse error.
    DecodeFailed(Error),
    /// The read unblocked with a shutdown-class error: cancellation.
    ShutdownSignalled,
    /// The read failed for any other reason.
    TransportFailed,
}

/// What the reader activity must do next.
pub enum ReaderDirective {
    /// Enqueue this response on the writer channel.
    Respond(Response),
    /// Hand this frame to the session owning the channel.
    RouteFrame { id: SessionId, channel: u8, payload: Vec<u8> },
    /// No live session owns the channel: drop the frame.
    DropFrame { channel: u8 },
    /// Clean exit: cancellation.
    ExitClean,
    /// Close the connection: decode or transport failure.
    ExitClose,
}

/// One reader step: decides what the event demands. A shutdown-class
/// event always exits cleanly, which is the reader half of the guarantee
/// that cancellation terminates the connection's activities.
pub fn reader_step(
    event: ReaderEvent,
    media: &MediaController,
    sessions: &mut SessionManager,
    fresh_id: SessionId,
) -> (r: ReaderDirective)
    requires
        wf_session_id(fresh_id@),
    ensures
        match event {
            ReaderEvent::ShutdownSignalled => r is ExitClean && final(sessions)@ == old(sessions)@,
            ReaderEvent::TransportFailed => r is ExitClose && final(sessions)@ == old(sessions)@,
            ReaderEvent::DecodeFailed(_) => r is ExitClose && final(sessions)@ == old(sessions)@,
            ReaderEvent::Decoded(item) => match item@ {
                MaybeInterleavedModel::Message(req) => r matches ReaderDirective::Respond(resp)
                    && resp@ == dispatch_model(req, media@, old(sessions)@, fresh_id@).0
                    && final(sessions)@ == dispatch_model(req, media@, old(sessions)@, fresh_id@).1,
                MaybeInterleavedModel::Interleaved { channel, payload } => final(sessions)@
                    == old(sessions)@ && match r {
                    ReaderDirective::RouteFrame { id, channel: ch, payload: pl } => ch == channel
                        && pl@ == payload && exists|j: int|
                        0 <= j < old(sessions)@.live.len() && {
                            let s = #[trigger] old(sessions)@.live[j];
                            s.id == id@ && s.state != SessionState::Stopped && (s.setup.rtp_channel
                                == channel || s.setup.rtcp_channel == channel)
                        },
                    ReaderDirective::DropFrame { channel: ch } => ch == channel && forall|j: int|
                        0 <= j < old(sessions)@.live.len() ==> {
                            let s = #[trigger] old(sessions)@.live[j];
                            s.state == SessionState::Stopped || (s.setup.rtp_channel != channel
                                && s.setup.rtcp_channel != channel)
                        },
                    _ => false,
                },
            },
        },
{
    match event {
        ReaderEvent::ShutdownSignalled => ReaderDirective::ExitClean,
        ReaderEvent::TransportFailed => ReaderDirective::ExitClose,
        ReaderEvent::DecodeFailed(_) => ReaderDirective::ExitClose,
        ReaderEvent::Decoded(item) => match item {
            MaybeInterleaved::Message(req) => {
                let resp = handle_request(&req, media, sessions, fresh_id);
                ReaderDirective::Respond(resp)
            },
            MaybeInterleaved::Interleaved { channel, payload } => {
                match sessions.find_by_channel(channel) {
                    Some(id) => ReaderDirective::RouteFrame { id, channel, payload },
                    None => ReaderDirective::DropFrame { channel },
                }
            },
        },
    }
}

/// What the writer activity observed: an outbound item from the fan-in
/// channel, the channel's end, or the cancellation signal.
pub enum WriterEvent {
    Outbound(MaybeInterleaved<Response>),
    ChannelClosed,
    Cancelled,
}

/// What the writer activity must do next.
pub enum WriterDirective {
    /// Write exactly these bytes to the socket.
    WriteOut(Vec<u8>),
    /// Stop: cancellation, a closed channel, or an unencodable item.
    Exit,
}

/// One writer step: encodes the outbound item or exits. Cancellation and
/// a closed channel always exit, which is the writer half of the
/// guarantee that cancellation terminates the connection's activities;
/// an oversized interleaved payload is an encode error, fatal to the
/// connection.
pub fn writer_step(event: WriterEvent) -> (r: WriterDirective)
    ensures
        match event {
            WriterEvent::Cancelled => r is Exit,
            WriterEvent::ChannelClosed => r is Exit,
            WriterEvent::Outbound(item) => match item@ {
                MaybeInterleavedModel::Message(resp) => r
                    matches WriterDirective::WriteOut(b) && b@ == response_bytes(resp),
                MaybeInterleavedModel::Interleaved { channel, payload } => {
                    if payload.len() <= 65535 {
                        r matches WriterDirective::WriteOut(b) && b@ == frame_bytes(
                            channel,
                            payload,
                        )
                    } else {
                        r is Exit
                    }
                },
            },
        },
{
    match event {
        WriterEvent::Cancelled => WriterDirective::Exit,
        WriterEvent::ChannelClosed => WriterDirective::Exit,
        WriterEvent::Outbound(item) => match item {
            MaybeInterleaved::Message(resp) => WriterDirective::WriteOut(
                crate::codec::encode_response(&resp),
            ),
            MaybeInterleaved::Interleaved { channel, payload } => {
                if payload.len() > 65535 {
                    WriterDirective::Exit
                } else {
                    WriterDirective::WriteOut(crate::codec::encode_frame(channel, &payload))
                }
            },
        },
    }
}

} // verus!
