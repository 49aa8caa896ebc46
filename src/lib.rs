//! Group sessions over a gossip overlay: invitation tickets, the inbound event
//! feed with its live-neighbor bookkeeping, and ticket derivation.

pub mod codec;
pub mod endpoint;
pub mod error;
pub mod feed;
pub mod session;
pub mod ticket;

pub use error::StreamError;
pub use feed::{NeighborSet, StreamEvent, WasmStreamEvent};
pub use session::{OutboundMessage, Stream, StreamSender, StreamingNode, TicketOpts};
pub use ticket::Ticket;
