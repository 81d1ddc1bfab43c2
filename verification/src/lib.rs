//! Client-side core for a local, token-authenticated websocket event API.
//!
//! The crate models the wire envelope (a JSON 3-element array carrying an
//! opcode, a channel name and a payload), the duplex read/write loop
//! decisions, the subscription handle lifecycle, and the connection setup
//! checks. All of it is verified; the surrounding I/O lives outside.

use vstd::prelude::*;

pub mod json;
pub mod message;
pub mod engine;
pub mod connector;
pub mod client;

verus! {

/// Result alias used throughout the crate.
pub type LCResult<T> = Result<T, Error>;

/// Failure classes for connection setup, transport and messaging.
#[derive(Debug, Clone, PartialEq, Eq)]
pub enum Error {
    /// An otherwise unclassified failure.
    Unknown,
    /// The target application process is not running.
    AppNotRunning,
    /// The HTTP client could not be constructed.
    HttpClientCreation(String),
    /// The websocket layer failed; the payload carries the reason.
    Websocket(String),
    /// The connection request names no host.
    MissingHost,
    /// The connection request names no port.
    MissingPort,
    /// The outbound websocket request could not be built.
    WebsocketRequest(String),
    /// The TCP stream could not be established.
    Stream(String),
    /// The TLS handshake or configuration failed.
    Tls(String),
    /// An outbound message could not be handed to the write side.
    SendErr,
    /// The websocket handshake or protocol failed.
    Tungstenite(String),
}

} // verus!
