//! Core of a single-topic chat relay: the origin allowlist check, the wire
//! codec for chat records, the bounded in-memory history buffer, the fan-out
//! hub with bounded per-subscriber queues, and the per-connection session
//! step logic.

use vstd::prelude::*;

pub mod codec;
pub mod history;
pub mod hub;
pub mod message;
pub mod origin;
pub mod session;

pub use message::ChatMessage;
pub use message::InboundMessage;
pub use message::MsgView;
pub use message::clone_bytes;
pub use message::clone_message;
pub use origin::AllowedOrigins;
pub use history::HistoryBuffer;
pub use hub::Hub;
pub use codec::encode_message;
pub use codec::parse_inbound;
pub use codec::parse_inbound_spec;
pub use codec::parse_wire;
pub use session::Frame;
pub use session::FrameAction;
pub use session::SessionState;
pub use session::session_accept;
pub use session::session_on_frame;
pub use session::replay_frames;
pub use session::forward_frame;

verus! {

} // verus!
