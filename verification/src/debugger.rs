//! The decisions of the inspector's WebSocket echo server.

use vstd::prelude::*;

verus! {

/// The status code and reason of a WebSocket close frame.
pub struct CloseData {
    pub status_code: u16,
    pub reason: String,
}

/// A WebSocket message as the debugger's server handles it.
pub enum WsMessage {
    Text(String),
    Binary(Vec<u8>),
    Close(Option<CloseData>),
    Ping(Vec<u8>),
    Pong(Vec<u8>),
}

/// What the echo server does with a message from a client.
pub enum EchoAction {
    /// Send this message back.
    Send(WsMessage),
    /// Send nothing and read on.
    Skip,
    /// Stop reading and send a close frame without a reason.
    Close,
}

/// The echo server's answer to one client message: a close message ends the
/// session, a ping is answered by a pong with the same payload, a pong is
/// dropped, and anything else is sent back as it came.
pub fn handle_client_message(msg: WsMessage) -> (a: EchoAction)
    ensures
        msg is Close ==> a is Close,
        msg matches WsMessage::Ping(p) ==> a matches EchoAction::Send(WsMessage::Pong(q)) && q@ == p@,
        msg is Pong ==> a is Skip,
        msg is Text || msg is Binary ==> a == EchoAction::Send(msg),
{
    match msg {
        WsMessage::Close(_) => EchoAction::Close,
        WsMessage::Ping(p) => EchoAction::Send(WsMessage::Pong(p)),
        WsMessage::Pong(_) => EchoAction::Skip,
        other => EchoAction::Send(other),
    }
}

/// The message the server sends on accepting a connection.
pub fn greeting() -> (m: WsMessage)
    ensures
        m matches WsMessage::Text(t) && t@ == "Hello World!"@,
{
    WsMessage::Text(String::from_str("Hello World!"))
}

} // verus!
