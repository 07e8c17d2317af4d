//! Parts of a JavaScript runtime: a shared record queue, the HTTP server ops,
//! and the inspector's WebSocket echo server.

pub mod debugger;
pub mod http;
pub mod shared_queue;
