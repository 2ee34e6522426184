//! The messages the actors exchange, as plain values.
use bytes::Bytes;
use std::sync::Arc;
use vstd::prelude::*;

verus! {

/// Ask the Root for the Document of a doc-id, spawning it if none is live.
pub struct RequestDoc(pub Arc<str>);

/// Sync or awareness bytes from client `client_id` for a Document.
pub struct YjsData {
    pub client_id: u64,
    pub data: Bytes,
}

/// A frame, already prefixed with its doc-id, for a client to write out.
pub struct WirePayload(pub Bytes);

/// The idle timer of a Document fired.
pub struct IdleShutdown;

/// Persist the Document's state now and reply when done.
pub struct PersistNow;

/// Persist the Document of the given doc-id.
pub struct PersistDocument(pub Arc<str>);

/// An update injected by the server (hooks, admin tooling) into a Document.
pub struct ApplyServerUpdate {
    pub doc_id: Arc<str>,
    pub update: Vec<u8>,
}

} // verus!
