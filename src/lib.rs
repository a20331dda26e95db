//! An HTTP/1.1 and WebSocket protocol engine for a static file server.
//!
//! The modules hold the logic of the protocol: request parsing, response
//! framing, byte ranges, path normalisation and the WebSocket frame codec.
//! They produce and consume bytes; moving those bytes over a socket is left
//! to the caller.
pub mod frame;
pub mod header;
pub mod listing;
pub mod mime;
pub mod number;
pub mod pem;
pub mod range;
pub mod request;
pub mod server;
pub mod status;
pub mod text;
pub mod websocket;
