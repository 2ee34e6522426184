//! One client connection's bookkeeping: which Documents it is subscribed to,
//! how each inbound frame or control message is routed, and its lifecycle.
use crate::payload::{decode_doc_id, frame_id, well_formed_frame};
use crate::registry::{distinct_ids, has_id};
use vstd::prelude::*;
use vstd::string::StringSliceAdditionalSpecFns;
use vstd::utf8::{decode_utf8, encode_utf8_decode_utf8};

verus! {

/// Lifecycle of a connection.
#[derive(Clone, Copy, Debug, PartialEq, Eq, Structural)]
pub enum Phase {
    /// Frames flow both ways.
    Open,
    /// Inbound frames are ignored while outbound ones drain.
    Closing,
    /// The socket is closed.
    Closed,
}

/// A JSON control message sent as a text frame.
#[derive(Debug)]
pub enum ControlMessage {
    /// Unsubscribe from `doc`.
    Leave { doc: String },
    /// Ask `doc`'s Document to persist now.
    Save { doc: String },
}

/// Where an inbound binary frame goes.
#[derive(Debug)]
pub enum Inbound {
    /// The connection is closing: the frame is ignored.
    Ignore,
    /// The frame is malformed: dropped without reply.
    Malformed,
    /// The frame's doc-id is subscribed: forward `data[payload_start..]` to
    /// the Document `doc`.
    Forward { doc: u64, payload_start: usize },
    /// The doc-id is new: subscribe to `doc_id` first, then forward
    /// `data[payload_start..]`.
    Join { doc_id: String, payload_start: usize },
}

/// What a control message asks of a Document.
#[derive(Clone, Copy, Debug, PartialEq, Eq, Structural)]
pub enum ControlAction {
    /// Nothing: not subscribed to that doc-id, or the connection is closing.
    Ignore,
    /// Send DisconnectClient to Document `0`; the subscription is dropped.
    Disconnect(u64),
    /// Send PersistNow to Document `0`.
    Persist(u64),
}

/// The doc-id of a well-formed frame, as characters.
pub open spec fn frame_doc_id(data: Seq<u8>) -> Seq<char> {
    decode_utf8(frame_id(data))
}

/// What a connection holds, as plain values.
pub ghost struct ClientView {
    /// Pairs (doc-id, Document handle), one per subscribed doc-id.
    pub docs: Seq<(Seq<char>, u64)>,
    pub phase: Phase,
}

/// The handle subscribed under `id` in `docs`.
pub open spec fn handle_for(docs: Seq<(Seq<char>, u64)>, id: Seq<char>, h: u64) -> bool {
    docs.contains((id, h))
}

/// The state of one client connection.
pub struct ClientActor {
    docs: Vec<(String, u64)>,
    phase: Phase,
}

impl View for ClientActor {
    type V = ClientView;

    closed spec fn view(&self) -> ClientView {
        ClientView { docs: self.docs@.map_values(|e: (String, u64)| (e.0@, e.1)), phase: self.phase }
    }
}

/// The connection's invariant: one subscription at most per doc-id.
pub open spec fn client_wf(v: ClientView) -> bool {
    distinct_ids(v.docs)
}

impl ClientActor {
    /// A fresh open connection with no subscriptions.
    pub fn new() -> (r: ClientActor)
        ensures
            client_wf(r@),
            r@.docs == Seq::<(Seq<char>, u64)>::empty(),
            r@.phase == Phase::Open,
    {
        let r = ClientActor { docs: Vec::new(), phase: Phase::Open };
        assert(r@.docs =~= Seq::<(Seq<char>, u64)>::empty());
        r
    }

    /// The connection's phase.
    pub fn phase(&self) -> (r: Phase)
        ensures
            r == self@.phase,
    {
        self.phase
    }

    /// Number of subscribed doc-ids.
    pub fn doc_count(&self) -> (r: usize)
        ensures
            r == self@.docs.len(),
    {
        self.docs.len()
    }

    /// Position of `doc_id`'s subscription, if any.
    fn find(&self, doc_id: &String) -> (r: Option<usize>)
        ensures
            r.is_none() <==> !has_id(self@.docs, doc_id@),
            r matches Some(i) ==> i < self@.docs.len() && self@.docs[i as int].0 == doc_id@,
    {
        let mut i: usize = 0;
        while i < self.docs.len()
            invariant
                i <= self.docs@.len(),
                self@.docs.len() == self.docs@.len(),
                forall|k: int| 0 <= k < i ==> #[trigger] self@.docs[k].0 != doc_id@,
            decreases self.docs@.len() - i,
        {
            if self.docs[i].0 == *doc_id {
                assert(self@.docs[i as int].0 == doc_id@);
                return Some(i);
            }
            i = i + 1;
        }
        None
    }

    /// The Document subscribed under `doc_id`, if any.
    pub fn doc_for(&self, doc_id: &str) -> (r: Option<u64>)
        requires
            client_wf(self@),
        ensures
            r.is_none() <==> !has_id(self@.docs, doc_id@),
            r matches Some(h) ==> handle_for(self@.docs, doc_id@, h),
    {
        let key = doc_id.to_owned();
        match self.find(&key) {
            Some(i) => {
                assert(self@.docs[i as int] == (doc_id@, self.docs@[i as int].1));
                Some(self.docs[i].1)
            },
            None => None,
        }
    }

    /// Routes an inbound binary frame.
    pub fn route_binary(&self, data: &[u8]) -> (r: Inbound)
        requires
            client_wf(self@),
        ensures
            self@.phase != Phase::Open ==> r is Ignore,
            self@.phase == Phase::Open && !well_formed_frame(data@) ==> r is Malformed,
            self@.phase == Phase::Open && well_formed_frame(data@) ==> {
                let id = frame_doc_id(data@);
                let start = 1 + data@[0];
                if has_id(self@.docs, id) {
                    r matches Inbound::Forward { doc, payload_start }
                        && handle_for(self@.docs, id, doc) && payload_start == start
                } else {
                    r matches Inbound::Join { doc_id, payload_start }
                        && doc_id@ == id && payload_start == start
                }
            },
    {
        if self.phase != Phase::Open {
            return Inbound::Ignore;
        }
        match decode_doc_id(data) {
            None => Inbound::Malformed,
            Some((id, _)) => {
                proof {
                    encode_utf8_decode_utf8(id@);
                }
                let start: usize = 1 + data[0] as usize;
                match self.doc_for(id) {
                    Some(doc) => Inbound::Forward { doc, payload_start: start },
                    None => Inbound::Join { doc_id: id.to_owned(), payload_start: start },
                }
            },
        }
    }

    /// Records the subscription to `doc_id` once its Document `doc` accepted
    /// the client; says whether it was new.
    pub fn subscribed(&mut self, doc_id: &str, doc: u64) -> (r: bool)
        requires
            client_wf(old(self)@),
        ensures
            client_wf(final(self)@),
            r == !has_id(old(self)@.docs, doc_id@),
            r ==> final(self)@ == (ClientView { docs: old(self)@.docs.push((doc_id@, doc)), ..old(self)@ }),
            !r ==> final(self)@ == old(self)@,
    {
        let key = doc_id.to_owned();
        if self.find(&key).is_some() {
            return false;
        }
        let ghost before = self@.docs;
        self.docs.push((key, doc));
        assert(self@.docs =~= before.push((doc_id@, doc)));
        true
    }

    /// Handles a control message: `Leave` drops the subscription and asks for a
    /// DisconnectClient, `Save` asks for a PersistNow; both only for a
    /// subscribed doc-id on an open connection.
    pub fn control(&mut self, msg: &ControlMessage) -> (r: ControlAction)
        requires
            client_wf(old(self)@),
        ensures
            client_wf(final(self)@),
            old(self)@.phase != Phase::Open ==> r == ControlAction::Ignore && final(self)@ == old(self)@,
            old(self)@.phase == Phase::Open ==> match msg {
                ControlMessage::Leave { doc } => if has_id(old(self)@.docs, doc@) {
                    exists|i: int| 0 <= i < old(self)@.docs.len() && old(self)@.docs[i].0 == doc@
                        && r == ControlAction::Disconnect(old(self)@.docs[i].1)
                        && final(self)@ == (ClientView { docs: old(self)@.docs.remove(i), ..old(self)@ })
                } else {
                    r == ControlAction::Ignore && final(self)@ == old(self)@
                },
                ControlMessage::Save { doc } => final(self)@ == old(self)@ && if has_id(old(self)@.docs, doc@) {
                    r matches ControlAction::Persist(h) && handle_for(old(self)@.docs, doc@, h)
                } else {
                    r == ControlAction::Ignore
                },
            },
    {
        if self.phase != Phase::Open {
            return ControlAction::Ignore;
        }
        match msg {
            ControlMessage::Leave { doc } => {
                match self.find(doc) {
                    Some(i) => {
                        let ghost before = self@.docs;
                        let (_, h) = self.docs.remove(i);
                        assert(self@.docs =~= before.remove(i as int));
                        ControlAction::Disconnect(h)
                    },
                    None => ControlAction::Ignore,
                }
            },
            ControlMessage::Save { doc } => {
                match self.doc_for(doc.as_str()) {
                    Some(h) => ControlAction::Persist(h),
                    None => ControlAction::Ignore,
                }
            },
        }
    }

    /// The Document `doc` died: every subscription that points at it goes.
    pub fn link_died(&mut self, doc: u64)
        requires
            client_wf(old(self)@),
        ensures
            client_wf(final(self)@),
            final(self)@.phase == old(self)@.phase,
            forall|e: (Seq<char>, u64)| #[trigger] final(self)@.docs.contains(e)
                <==> old(self)@.docs.contains(e) && e.1 != doc,
    {
        let ghost old_docs = self@.docs;
        let mut kept: Vec<(String, u64)> = Vec::new();
        let mut j: usize = 0;
        while j < self.docs.len()
            invariant
                j <= self.docs@.len(),
                self@.docs == old_docs,
                distinct_ids(old_docs),
                ({
                    let kv = kept@.map_values(|e: (String, u64)| (e.0@, e.1));
                    &&& distinct_ids(kv)
                    &&& forall|x: (Seq<char>, u64)| #[trigger] kv.contains(x)
                        <==> (exists|k: int| 0 <= k < j && #[trigger] old_docs[k] == x) && x.1 != doc
                }),
            decreases self.docs@.len() - j,
        {
            let ghost kb = kept@.map_values(|e: (String, u64)| (e.0@, e.1));
            if self.docs[j].1 != doc {
                let e = (self.docs[j].0.clone(), self.docs[j].1);
                kept.push(e);
                proof {
                    let kv = kept@.map_values(|e: (String, u64)| (e.0@, e.1));
                    let x0 = old_docs[j as int];
                    assert(kv =~= kb.push(x0));
                    assert forall|x: (Seq<char>, u64)| #[trigger] kv.contains(x)
                        <==> (exists|k: int| 0 <= k < j + 1 && #[trigger] old_docs[k] == x) && x.1 != doc by {
                        if kv.contains(x) {
                            let m = choose|m: int| 0 <= m < kv.len() && kv[m] == x;
                            if m < kb.len() {
                                assert(kb[m] == x);
                                assert(kb.contains(x));
                                let k = choose|k: int| 0 <= k < j && #[trigger] old_docs[k] == x;
                                assert(old_docs[k] == x);
                            } else {
                                assert(old_docs[j as int] == x);
                            }
                        }
                        if x.1 != doc && exists|k: int| 0 <= k < j + 1 && #[trigger] old_docs[k] == x {
                            let k = choose|k: int| 0 <= k < j + 1 && #[trigger] old_docs[k] == x;
                            if k < j {
                                assert(kb.contains(x));
                                let m = choose|m: int| 0 <= m < kb.len() && kb[m] == x;
                                assert(kv[m] == x);
                            } else {
                                assert(kv[kv.len() - 1] == x);
                            }
                        }
                    }
                    assert forall|a: int, b: int|
                        0 <= a < kv.len() && 0 <= b < kv.len() && a != b implies #[trigger] kv[a].0 != #[trigger] kv[b].0 by {
                        if b == kv.len() - 1 && a < b {
                            assert(kb.contains(kv[a]));
                            let k = choose|k: int| 0 <= k < j && #[trigger] old_docs[k] == kv[a];
                            assert(old_docs[k].0 != old_docs[j as int].0);
                        }
                        if a == kv.len() - 1 && b < a {
                            assert(kb.contains(kv[b]));
                            let k = choose|k: int| 0 <= k < j && #[trigger] old_docs[k] == kv[b];
                            assert(old_docs[k].0 != old_docs[j as int].0);
                        }
                        if a < kb.len() && b < kb.len() {
                            assert(kb[a] == kv[a] && kb[b] == kv[b]);
                        }
                    }
                }
            } else {
                proof {
                    let kv = kept@.map_values(|e: (String, u64)| (e.0@, e.1));
                    assert forall|x: (Seq<char>, u64)| #[trigger] kv.contains(x)
                        <==> (exists|k: int| 0 <= k < j + 1 && #[trigger] old_docs[k] == x) && x.1 != doc by {
                        if x.1 != doc && exists|k: int| 0 <= k < j + 1 && #[trigger] old_docs[k] == x {
                            let k = choose|k: int| 0 <= k < j + 1 && #[trigger] old_docs[k] == x;
                            assert(k < j);
                        }
                        if kv.contains(x) {
                            let k = choose|k: int| 0 <= k < j && #[trigger] old_docs[k] == x;
                            assert(old_docs[k] == x);
                        }
                    }
                }
            }
            j = j + 1;
        }
        self.docs = kept;
        proof {
            assert forall|e: (Seq<char>, u64)| #[trigger] self@.docs.contains(e)
                <==> old_docs.contains(e) && e.1 != doc by {
                if old_docs.contains(e) {
                    let k = choose|k: int| 0 <= k < old_docs.len() && old_docs[k] == e;
                    assert(old_docs[k] == e);
                }
                if self@.docs.contains(e) {
                    let k = choose|k: int| 0 <= k < old_docs.len() && #[trigger] old_docs[k] == e;
                    assert(old_docs[k] == e);
                }
            }
        }
    }

    /// The peer closed the connection (or the stream ended): every
    /// subscription is dropped, the connection moves to `Closing`, and the
    /// Documents to send DisconnectClient to are returned, in subscription order.
    pub fn close(&mut self) -> (r: Vec<u64>)
        requires
            client_wf(old(self)@),
        ensures
            client_wf(final(self)@),
            final(self)@.phase == Phase::Closing,
            final(self)@.docs == Seq::<(Seq<char>, u64)>::empty(),
            r@ == old(self)@.docs.map_values(|e: (Seq<char>, u64)| e.1),
    {
        let mut out: Vec<u64> = Vec::new();
        let mut j: usize = 0;
        while j < self.docs.len()
            invariant
                j <= self.docs@.len(),
                out@ == self@.docs.subrange(0, j as int).map_values(|e: (Seq<char>, u64)| e.1),
            decreases self.docs@.len() - j,
        {
            out.push(self.docs[j].1);
            proof {
                assert(self@.docs.subrange(0, j + 1) == self@.docs.subrange(0, j as int).push(self@.docs[j as int]));
                assert(out@ =~= self@.docs.subrange(0, j + 1).map_values(|e: (Seq<char>, u64)| e.1));
            }
            j = j + 1;
        }
        assert(self@.docs.subrange(0, self@.docs.len() as int) == self@.docs);
        self.docs = Vec::new();
        self.phase = Phase::Closing;
        assert(self@.docs =~= Seq::<(Seq<char>, u64)>::empty());
        out
    }

    /// The socket is gone: the connection is closed.
    pub fn finish_close(&mut self)
        requires
            client_wf(old(self)@),
        ensures
            client_wf(final(self)@),
            final(self)@ == (ClientView { phase: Phase::Closed, ..old(self)@ }),
    {
        self.phase = Phase::Closed;
    }
}

} // verus!
