//! Core protocol engine for an RTSP/1.0 server: message grammar, framing
//! codec for text messages multiplexed with interleaved binary frames,
//! request dispatch, and the session registry.

pub mod buf;
pub mod codec;
pub mod engine;
pub mod error;
pub mod message;
pub mod scan;
pub mod session;
pub mod handler;
pub mod rtp_info;

pub use codec::Codec;
pub use error::Error;
pub use handler::{handle_request, MediaController};
pub use message::{MaybeInterleaved, Method, Request, Response, Status};
pub use rtp_info::RtpInfo;
pub use session::{RegisterSessionError, SessionId, SessionManager};
