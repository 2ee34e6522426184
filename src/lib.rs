//! Core logic of a realtime collaboration backend: the wire framing that
//! multiplexes many documents over one connection, and the state machines of
//! the document registry, of each document and of each client connection.
pub mod client;
pub mod document;
pub mod messages;
pub mod payload;
pub mod registry;
