//! One Document's bookkeeping: its subscribers, which awareness entries each
//! client owns, the persistence status with its debounce timer, and the idle
//! timer that retires it. The CRDT bytes themselves are handled by the caller,
//! which reports what an apply did.
use vstd::prelude::*;

verus! {

/// Time in milliseconds, `now + d` saturating at `u64::MAX`.
pub open spec fn after(now: u64, d: u64) -> u64 {
    if now + d > u64::MAX { u64::MAX } else { (now + d) as u64 }
}

/// The timers' settings, in milliseconds.
#[derive(Clone, Copy, Debug, PartialEq, Eq, Structural)]
pub struct Timing {
    /// Quiet period after the last change before a persist fires.
    pub t_persist: u64,
    /// Time without subscribers and activity before the Document unloads.
    pub t_idle: u64,
    /// Cap on the delay between retries of a failed persist.
    pub t_persist_max: u64,
}

/// Where the Document's state stands with respect to storage.
#[derive(Clone, Copy, Debug, PartialEq, Eq, Structural)]
pub enum PersistStatus {
    /// Storage holds the current state.
    Clean,
    /// Changed since the last successful persist, first at `since`.
    Dirty { since: u64 },
    /// One persist is under way; `redirtied` tells whether the state changed since
    /// its snapshot was taken.
    Persisting { redirtied: bool },
}

/// The kind of a Yjs payload, told by its first byte.
#[derive(Clone, Copy, Debug, PartialEq, Eq, Structural)]
pub enum MessageKind {
    Sync,
    Awareness,
    Unknown,
}

/// What the idle timer asks for.
#[derive(Clone, Copy, Debug, PartialEq, Eq, Structural)]
pub enum IdleDecision {
    /// Nothing to do now.
    Stay,
    /// Unused but dirty: persist first.
    Persist,
    /// Unused and clean: run the unload hooks and stop.
    Unload,
}

/// The kind of a payload: first byte 0 is sync, 1 is awareness.
pub open spec fn kind_of(payload: Seq<u8>) -> MessageKind {
    if payload.len() == 0 {
        MessageKind::Unknown
    } else if payload[0] == 0 {
        MessageKind::Sync
    } else if payload[0] == 1 {
        MessageKind::Awareness
    } else {
        MessageKind::Unknown
    }
}

/// Classifies a Yjs payload by its leading protocol byte.
pub fn classify(payload: &[u8]) -> (r: MessageKind)
    ensures
        r == kind_of(payload@),
{
    if payload.len() == 0 {
        MessageKind::Unknown
    } else if payload[0] == 0 {
        MessageKind::Sync
    } else if payload[0] == 1 {
        MessageKind::Awareness
    } else {
        MessageKind::Unknown
    }
}

/// What a Document holds, as plain values.
pub ghost struct DocumentView {
    pub doc_id: Seq<char>,
    pub timing: Timing,
    /// Subscribed client ids, in the order they joined.
    pub subscribers: Seq<u64>,
    /// Pairs (client id, awareness id): the awareness entries each client set.
    pub awareness: Seq<(u64, u64)>,
    pub status: PersistStatus,
    /// When the debounced persist fires, if armed.
    pub persist_deadline: Option<u64>,
    /// When the idle timer fires, if armed.
    pub idle_deadline: Option<u64>,
    /// Delay before the next retry of a failed persist.
    pub retry_delay: u64,
    /// Time of the last message that counts as activity.
    pub last_activity: u64,
}

/// The idle timer's verdict at `now`.
pub open spec fn idle_decision(v: DocumentView, now: u64) -> IdleDecision {
    if v.subscribers.len() == 0 && v.idle_deadline is Some && v.idle_deadline->0 <= now {
        match v.status {
            PersistStatus::Clean => IdleDecision::Unload,
            PersistStatus::Dirty { .. } => IdleDecision::Persist,
            PersistStatus::Persisting { .. } => IdleDecision::Stay,
        }
    } else {
        IdleDecision::Stay
    }
}

/// The idle deadline after activity at `now`: armed only without subscribers.
pub open spec fn idle_after(subscribers: Seq<u64>, timing: Timing, now: u64) -> Option<u64> {
    if subscribers.len() == 0 { Some(after(now, timing.t_idle)) } else { None }
}

/// The status after the state changed at `now`.
pub open spec fn dirtied(status: PersistStatus, now: u64) -> PersistStatus {
    match status {
        PersistStatus::Clean => PersistStatus::Dirty { since: now },
        PersistStatus::Dirty { since } => PersistStatus::Dirty { since },
        PersistStatus::Persisting { .. } => PersistStatus::Persisting { redirtied: true },
    }
}

/// The bookkeeping of one Document actor.
pub struct Document {
    doc_id: String,
    timing: Timing,
    subscribers: Vec<u64>,
    awareness: Vec<(u64, u64)>,
    status: PersistStatus,
    persist_deadline: Option<u64>,
    idle_deadline: Option<u64>,
    retry_delay: u64,
    last_activity: u64,
}

impl View for Document {
    type V = DocumentView;

    closed spec fn view(&self) -> DocumentView {
        DocumentView {
            doc_id: self.doc_id@,
            timing: self.timing,
            subscribers: self.subscribers@,
            awareness: self.awareness@,
            status: self.status,
            persist_deadline: self.persist_deadline,
            idle_deadline: self.idle_deadline,
            retry_delay: self.retry_delay,
            last_activity: self.last_activity,
        }
    }
}

/// The Document's invariant.
pub open spec fn doc_wf(v: DocumentView) -> bool {
    &&& v.subscribers.no_duplicates()
    &&& forall|i: int| 0 <= i < v.awareness.len() ==> v.subscribers.contains(#[trigger] v.awareness[i].0)
    &&& (v.status is Dirty <==> v.persist_deadline is Some)
    &&& v.idle_deadline == idle_after(v.subscribers, v.timing, v.last_activity)
}

impl Document {
    /// A fresh Document: no subscribers, clean, idle timer armed.
    pub fn new(doc_id: String, timing: Timing, now: u64) -> (r: Document)
        ensures
            doc_wf(r@),
            r@.doc_id == doc_id@,
            r@.timing == timing,
            r@.subscribers == Seq::<u64>::empty(),
            r@.awareness == Seq::<(u64, u64)>::empty(),
            r@.status == PersistStatus::Clean,
            r@.persist_deadline is None,
            r@.idle_deadline == Some(after(now, timing.t_idle)),
            r@.retry_delay == timing.t_persist,
            r@.last_activity == now,
    {
        Document {
            doc_id,
            timing,
            subscribers: Vec::new(),
            awareness: Vec::new(),
            status: PersistStatus::Clean,
            persist_deadline: None,
            idle_deadline: Some(now.saturating_add(timing.t_idle)),
            retry_delay: timing.t_persist,
            last_activity: now,
        }
    }

    /// The document's id.
    pub fn doc_id(&self) -> (r: &String)
        ensures
            r@ == self@.doc_id,
    {
        &self.doc_id
    }

    /// The persistence status.
    pub fn status(&self) -> (r: PersistStatus)
        ensures
            r == self@.status,
    {
        self.status
    }

    /// When the debounced persist fires, if armed.
    pub fn persist_deadline(&self) -> (r: Option<u64>)
        ensures
            r == self@.persist_deadline,
    {
        self.persist_deadline
    }

    /// When the idle timer fires, if armed.
    pub fn idle_deadline(&self) -> (r: Option<u64>)
        ensures
            r == self@.idle_deadline,
    {
        self.idle_deadline
    }

    /// Number of subscribed clients.
    pub fn subscriber_count(&self) -> (r: usize)
        ensures
            r == self@.subscribers.len(),
    {
        self.subscribers.len()
    }

    /// The clients a broadcast goes to: every subscriber but `origin`, each once.
    pub fn recipients(&self, origin: Option<u64>) -> (r: Vec<u64>)
        requires
            doc_wf(self@),
        ensures
            r@.no_duplicates(),
            forall|c: u64| r@.contains(c) <==> self@.subscribers.contains(c) && origin != Some(c),
            origin matches Some(o) ==> !r@.contains(o),
    {
        let mut out: Vec<u64> = Vec::new();
        let mut i: usize = 0;
        while i < self.subscribers.len()
            invariant
                i <= self.subscribers@.len(),
                self.subscribers@.no_duplicates(),
                out@.no_duplicates(),
                forall|c: u64| out@.contains(c) <==> (exists|k: int| 0 <= k < i && #[trigger] self.subscribers@[k] == c) && origin != Some(c),
            decreases self.subscribers@.len() - i,
        {
            let c = self.subscribers[i];
            if origin != Some(c) {
                proof {
                    if out@.contains(c) {
                        let k = choose|k: int| 0 <= k < i && self.subscribers@[k] == c;
                        assert(self.subscribers@[k] == self.subscribers@[i as int]);
                    }
                }
                let ghost before = out@;
                out.push(c);
                proof {
                    assert forall|x: u64| out@.contains(x) <==> (exists|k: int| 0 <= k < i + 1 && #[trigger] self.subscribers@[k] == x) && origin != Some(x) by {
                        if out@.contains(x) && x != c {
                            let j = choose|j: int| 0 <= j < out@.len() && out@[j] == x;
                            assert(before[j] == x);
                            assert(before.contains(x));
                            let k = choose|k: int| 0 <= k < i && #[trigger] self.subscribers@[k] == x;
                            assert(self.subscribers@[k] == x);
                        }
                        if x == c {
                            assert(self.subscribers@[i as int] == x);
                            assert(out@[out@.len() - 1] == c);
                        }
                        if x != c && origin != Some(x) && (exists|k: int| 0 <= k < i + 1 && #[trigger] self.subscribers@[k] == x) {
                            let k = choose|k: int| 0 <= k < i + 1 && #[trigger] self.subscribers@[k] == x;
                            assert(k < i);
                            assert(before.contains(x));
                            let j = choose|j: int| 0 <= j < before.len() && before[j] == x;
                            assert(out@[j] == x);
                        }
                    }
                }
            } else {
                proof {
                    assert forall|x: u64| out@.contains(x) <==> (exists|k: int| 0 <= k < i + 1 && #[trigger] self.subscribers@[k] == x) && origin != Some(x) by {
                        if out@.contains(x) {
                            let k = choose|k: int| 0 <= k < i && #[trigger] self.subscribers@[k] == x;
                            assert(self.subscribers@[k] == x);
                        }
                        if x != c && (exists|k: int| 0 <= k < i + 1 && #[trigger] self.subscribers@[k] == x) {
                            let k = choose|k: int| 0 <= k < i + 1 && #[trigger] self.subscribers@[k] == x;
                            assert(k < i);
                        }
                    }
                }
            }
            i = i + 1;
        }
        proof {
            assert forall|c: u64| out@.contains(c) <==> self.subscribers@.contains(c) && origin != Some(c) by {
                if self.subscribers@.contains(c) {
                    let k = choose|k: int| 0 <= k < self.subscribers@.len() && self.subscribers@[k] == c;
                }
            }
        }
        out
    }

    /// Position of `client` among the subscribers, if subscribed.
    fn find_subscriber(&self, client: u64) -> (r: Option<usize>)
        ensures
            r.is_none() <==> !self@.subscribers.contains(client),
            r matches Some(i) ==> i < self@.subscribers.len() && self@.subscribers[i as int] == client,
    {
        let mut i: usize = 0;
        while i < self.subscribers.len()
            invariant
                i <= self.subscribers@.len(),
                forall|k: int| 0 <= k < i ==> self.subscribers@[k] != client,
            decreases self.subscribers@.len() - i,
        {
            if self.subscribers[i] == client {
                return Some(i);
            }
            i = i + 1;
        }
        None
    }

    /// Whether `client` is subscribed.
    pub fn is_subscribed(&self, client: u64) -> (r: bool)
        ensures
            r == self@.subscribers.contains(client),
    {
        self.find_subscriber(client).is_some()
    }

    /// A client joins: it becomes a subscriber (once) and the idle timer is
    /// cancelled.
    pub fn connect_client(&mut self, client: u64, now: u64)
        requires
            doc_wf(old(self)@),
        ensures
            doc_wf(final(self)@),
            final(self)@ == (DocumentView {
                subscribers: if old(self)@.subscribers.contains(client) {
                    old(self)@.subscribers
                } else {
                    old(self)@.subscribers.push(client)
                },
                idle_deadline: None,
                last_activity: now,
                ..old(self)@
            }),
    {
        if self.find_subscriber(client).is_none() {
            let ghost before = self.subscribers@;
            self.subscribers.push(client);
            proof {
                assert forall|i: int, j: int| 0 <= i < j < self.subscribers@.len() implies self.subscribers@[i] != self.subscribers@[j] by {
                    if j == before.len() {
                        assert(before[i] == self.subscribers@[i]);
                    }
                }
                assert forall|i: int| 0 <= i < self.awareness@.len() implies self.subscribers@.contains(#[trigger] self.awareness@[i].0) by {
                    let x = self.awareness@[i].0;
                    assert(before.contains(x));
                    let k = choose|k: int| 0 <= k < before.len() && before[k] == x;
                    assert(self.subscribers@[k] == x);
                }
            }
        }
        self.idle_deadline = None;
        self.last_activity = now;
    }

    /// A client leaves (or its connection died): it stops being a subscriber,
    /// its awareness entries are purged and their ids returned, so that the
    /// remaining subscribers can be told of the removal. The idle timer is armed
    /// when no subscriber is left.
    pub fn disconnect_client(&mut self, client: u64, now: u64) -> (r: Vec<u64>)
        requires
            doc_wf(old(self)@),
        ensures
            doc_wf(final(self)@),
            forall|c: u64| #[trigger] final(self)@.subscribers.contains(c)
                <==> old(self)@.subscribers.contains(c) && c != client,
            final(self)@.subscribers.len() == if old(self)@.subscribers.contains(client) {
                old(self)@.subscribers.len() - 1
            } else {
                old(self)@.subscribers.len() as int
            },
            forall|e: (u64, u64)| #[trigger] final(self)@.awareness.contains(e)
                <==> old(self)@.awareness.contains(e) && e.0 != client,
            forall|a: u64| #[trigger] r@.contains(a) <==> old(self)@.awareness.contains((client, a)),
            final(self)@.idle_deadline == idle_after(final(self)@.subscribers, old(self)@.timing, now),
            final(self)@ == (DocumentView {
                subscribers: final(self)@.subscribers,
                awareness: final(self)@.awareness,
                idle_deadline: final(self)@.idle_deadline,
                last_activity: now,
                ..old(self)@
            }),
    {
        let ghost old_subs = self.subscribers@;
        let ghost old_aw = self.awareness@;
        assert forall|k: int| 0 <= k < old_aw.len() implies old_subs.contains(#[trigger] old_aw[k].0) by {
            assert(self@.awareness[k] == old_aw[k]);
        }
        match self.find_subscriber(client) {
            Some(i) => {
                self.subscribers.remove(i);
                proof {
                    assert(self.subscribers@ == old_subs.remove(i as int));
                    assert forall|c: u64| #[trigger] self.subscribers@.contains(c)
                        <==> old_subs.contains(c) && c != client by {
                        if self.subscribers@.contains(c) {
                            let k = choose|k: int| 0 <= k < self.subscribers@.len() && self.subscribers@[k] == c;
                            if k < i {
                                assert(old_subs[k] == c);
                            } else {
                                assert(old_subs[k + 1] == c);
                            }
                        }
                        if old_subs.contains(c) && c != client {
                            let k = choose|k: int| 0 <= k < old_subs.len() && old_subs[k] == c;
                            if k < i {
                                assert(self.subscribers@[k] == c);
                            } else {
                                assert(k != i);
                                assert(self.subscribers@[k - 1] == c);
                            }
                        }
                    }
                }
            },
            None => {},
        }
        let mut kept: Vec<(u64, u64)> = Vec::new();
        let mut purged: Vec<u64> = Vec::new();
        let mut j: usize = 0;
        while j < self.awareness.len()
            invariant
                j <= self.awareness@.len(),
                self.awareness@ == old_aw,
                forall|e: (u64, u64)| #[trigger] kept@.contains(e)
                    <==> (exists|k: int| 0 <= k < j && #[trigger] old_aw[k] == e) && e.0 != client,
                forall|a: u64| #[trigger] purged@.contains(a)
                    <==> (exists|k: int| 0 <= k < j && #[trigger] old_aw[k] == (client, a)),
            decreases self.awareness@.len() - j,
        {
            let e = self.awareness[j];
            let ghost kb = kept@;
            let ghost pb = purged@;
            if e.0 == client {
                purged.push(e.1);
                proof {
                    assert forall|a: u64| #[trigger] purged@.contains(a)
                        <==> (exists|k: int| 0 <= k < j + 1 && #[trigger] old_aw[k] == (client, a)) by {
                        if purged@.contains(a) {
                            let m = choose|m: int| 0 <= m < purged@.len() && purged@[m] == a;
                            if m < pb.len() {
                                assert(pb[m] == a);
                                assert(pb.contains(a));
                                let k = choose|k: int| 0 <= k < j && #[trigger] old_aw[k] == (client, a);
                                assert(old_aw[k] == (client, a));
                            } else {
                                assert(old_aw[j as int] == (client, a));
                            }
                        }
                        if exists|k: int| 0 <= k < j + 1 && #[trigger] old_aw[k] == (client, a) {
                            let k = choose|k: int| 0 <= k < j + 1 && #[trigger] old_aw[k] == (client, a);
                            if k < j {
                                assert(pb.contains(a));
                                let m = choose|m: int| 0 <= m < pb.len() && pb[m] == a;
                                assert(purged@[m] == a);
                            } else {
                                assert(purged@[purged@.len() - 1] == a);
                            }
                        }
                    }
                    assert forall|x: (u64, u64)| #[trigger] kept@.contains(x)
                        <==> (exists|k: int| 0 <= k < j + 1 && #[trigger] old_aw[k] == x) && x.0 != client by {
                        if x.0 != client && exists|k: int| 0 <= k < j + 1 && #[trigger] old_aw[k] == x {
                            let k = choose|k: int| 0 <= k < j + 1 && #[trigger] old_aw[k] == x;
                            assert(k < j);
                        }
                        if kept@.contains(x) {
                            let k = choose|k: int| 0 <= k < j && #[trigger] old_aw[k] == x;
                            assert(old_aw[k] == x);
                        }
                    }
                }
            } else {
                kept.push(e);
                proof {
                    assert forall|x: (u64, u64)| #[trigger] kept@.contains(x)
                        <==> (exists|k: int| 0 <= k < j + 1 && #[trigger] old_aw[k] == x) && x.0 != client by {
                        if kept@.contains(x) {
                            let m = choose|m: int| 0 <= m < kept@.len() && kept@[m] == x;
                            if m < kb.len() {
                                assert(kb[m] == x);
                                assert(kb.contains(x));
                                let k = choose|k: int| 0 <= k < j && #[trigger] old_aw[k] == x;
                                assert(old_aw[k] == x);
                            } else {
                                assert(old_aw[j as int] == x);
                            }
                        }
                        if x.0 != client && exists|k: int| 0 <= k < j + 1 && #[trigger] old_aw[k] == x {
                            let k = choose|k: int| 0 <= k < j + 1 && #[trigger] old_aw[k] == x;
                            if k < j {
                                assert(kb.contains(x));
                                let m = choose|m: int| 0 <= m < kb.len() && kb[m] == x;
                                assert(kept@[m] == x);
                            } else {
                                assert(kept@[kept@.len() - 1] == x);
                            }
                        }
                    }
                    assert forall|a: u64| #[trigger] purged@.contains(a)
                        <==> (exists|k: int| 0 <= k < j + 1 && #[trigger] old_aw[k] == (client, a)) by {
                        if exists|k: int| 0 <= k < j + 1 && #[trigger] old_aw[k] == (client, a) {
                            let k = choose|k: int| 0 <= k < j + 1 && #[trigger] old_aw[k] == (client, a);
                            assert(k < j);
                        }
                        if purged@.contains(a) {
                            let k = choose|k: int| 0 <= k < j && #[trigger] old_aw[k] == (client, a);
                            assert(old_aw[k] == (client, a));
                        }
                    }
                }
            }
            j = j + 1;
        }
        self.awareness = kept;
        proof {
            assert forall|e: (u64, u64)| #[trigger] self.awareness@.contains(e)
                <==> old_aw.contains(e) && e.0 != client by {
                if old_aw.contains(e) {
                    let k = choose|k: int| 0 <= k < old_aw.len() && old_aw[k] == e;
                    assert(old_aw[k] == e);
                }
                if self.awareness@.contains(e) {
                    let k = choose|k: int| 0 <= k < old_aw.len() && #[trigger] old_aw[k] == e;
                    assert(old_aw[k] == e);
                }
            }
            assert forall|a: u64| #[trigger] purged@.contains(a) <==> old_aw.contains((client, a)) by {
                if old_aw.contains((client, a)) {
                    let k = choose|k: int| 0 <= k < old_aw.len() && old_aw[k] == (client, a);
                    assert(old_aw[k] == (client, a));
                }
            }
            assert forall|i: int| 0 <= i < self.awareness@.len() implies self.subscribers@.contains(#[trigger] self.awareness@[i].0) by {
                let e = self.awareness@[i];
                assert(self.awareness@.contains(e));
                let k = choose|k: int| 0 <= k < old_aw.len() && old_aw[k] == e;
                assert(old_aw.contains(e));
                assert(old_subs.contains(old_aw[k].0));
            }
        }
        self.last_activity = now;
        if self.subscribers.len() == 0 {
            self.idle_deadline = Some(now.saturating_add(self.timing.t_idle));
        } else {
            self.idle_deadline = None;
        }
        purged
    }

    /// Records that `client` set the awareness entries `ids`: each of them is
    /// owned by `client` from now on. Ignored (returns false) for a client that
    /// is not subscribed.
    pub fn awareness_update(&mut self, client: u64, ids: &Vec<u64>, now: u64) -> (r: bool)
        requires
            doc_wf(old(self)@),
        ensures
            doc_wf(final(self)@),
            r == old(self)@.subscribers.contains(client),
            !r ==> final(self)@ == old(self)@,
            r ==> forall|e: (u64, u64)| #[trigger] final(self)@.awareness.contains(e) <==> (
                (e.0 == client && ids@.contains(e.1))
                || (old(self)@.awareness.contains(e) && !ids@.contains(e.1))),
            r ==> final(self)@ == (DocumentView {
                awareness: final(self)@.awareness,
                last_activity: now,
                ..old(self)@
            }),
    {
        if self.find_subscriber(client).is_none() {
            return false;
        }
        let ghost old_aw = self.awareness@;
        assert forall|k: int| 0 <= k < old_aw.len() implies self.subscribers@.contains(#[trigger] old_aw[k].0) by {
            assert(self@.awareness[k] == old_aw[k]);
        }
        let mut next: Vec<(u64, u64)> = Vec::new();
        let mut j: usize = 0;
        while j < self.awareness.len()
            invariant
                j <= self.awareness@.len(),
                self.awareness@ == old_aw,
                forall|x: (u64, u64)| #[trigger] next@.contains(x)
                    <==> (exists|k: int| 0 <= k < j && #[trigger] old_aw[k] == x) && !ids@.contains(x.1),
            decreases self.awareness@.len() - j,
        {
            let e = self.awareness[j];
            let ghost nb = next@;
            if !contains_id(ids, e.1) {
                next.push(e);
                proof {
                    assert forall|x: (u64, u64)| #[trigger] next@.contains(x)
                        <==> (exists|k: int| 0 <= k < j + 1 && #[trigger] old_aw[k] == x) && !ids@.contains(x.1) by {
                        if next@.contains(x) {
                            let m = choose|m: int| 0 <= m < next@.len() && next@[m] == x;
                            if m < nb.len() {
                                assert(nb[m] == x);
                                assert(nb.contains(x));
                                let k = choose|k: int| 0 <= k < j && #[trigger] old_aw[k] == x;
                                assert(old_aw[k] == x);
                            } else {
                                assert(old_aw[j as int] == x);
                            }
                        }
                        if !ids@.contains(x.1) && exists|k: int| 0 <= k < j + 1 && #[trigger] old_aw[k] == x {
                            let k = choose|k: int| 0 <= k < j + 1 && #[trigger] old_aw[k] == x;
                            if k < j {
                                assert(nb.contains(x));
                                let m = choose|m: int| 0 <= m < nb.len() && nb[m] == x;
                                assert(next@[m] == x);
                            } else {
                                assert(next@[next@.len() - 1] == x);
                            }
                        }
                    }
                }
            } else {
                proof {
                    assert forall|x: (u64, u64)| #[trigger] next@.contains(x)
                        <==> (exists|k: int| 0 <= k < j + 1 && #[trigger] old_aw[k] == x) && !ids@.contains(x.1) by {
                        if !ids@.contains(x.1) && exists|k: int| 0 <= k < j + 1 && #[trigger] old_aw[k] == x {
                            let k = choose|k: int| 0 <= k < j + 1 && #[trigger] old_aw[k] == x;
                            assert(k < j);
                        }
                        if next@.contains(x) {
                            let k = choose|k: int| 0 <= k < j && #[trigger] old_aw[k] == x;
                            assert(old_aw[k] == x);
                        }
                    }
                }
            }
            j = j + 1;
        }
        let ghost kept = next@;
        let mut t: usize = 0;
        while t < ids.len()
            invariant
                t <= ids@.len(),
                forall|x: (u64, u64)| #[trigger] next@.contains(x)
                    <==> kept.contains(x) || (x.0 == client && exists|k: int| 0 <= k < t && #[trigger] ids@[k] == x.1),
            decreases ids@.len() - t,
        {
            let ghost nb = next@;
            next.push((client, ids[t]));
            proof {
                assert forall|x: (u64, u64)| #[trigger] next@.contains(x)
                    <==> kept.contains(x) || (x.0 == client && exists|k: int| 0 <= k < t + 1 && #[trigger] ids@[k] == x.1) by {
                    if next@.contains(x) {
                        let m = choose|m: int| 0 <= m < next@.len() && next@[m] == x;
                        if m < nb.len() {
                            assert(nb[m] == x);
                            assert(nb.contains(x));
                            if !kept.contains(x) {
                                let k = choose|k: int| 0 <= k < t && #[trigger] ids@[k] == x.1;
                                assert(ids@[k] == x.1);
                            }
                        } else {
                            assert(ids@[t as int] == x.1);
                        }
                    }
                    if kept.contains(x) || (x.0 == client && exists|k: int| 0 <= k < t + 1 && #[trigger] ids@[k] == x.1) {
                        if x.0 == client && ids@[t as int] == x.1 {
                            assert(next@[next@.len() - 1] == x);
                        } else {
                            if !kept.contains(x) {
                                let k = choose|k: int| 0 <= k < t + 1 && #[trigger] ids@[k] == x.1;
                                assert(k < t);
                            }
                            assert(nb.contains(x));
                            let m = choose|m: int| 0 <= m < nb.len() && nb[m] == x;
                            assert(next@[m] == x);
                        }
                    }
                }
            }
            t = t + 1;
        }
        self.awareness = next;
        proof {
            assert forall|e: (u64, u64)| #[trigger] self.awareness@.contains(e) <==> (
                (e.0 == client && ids@.contains(e.1)) || (old_aw.contains(e) && !ids@.contains(e.1))) by {
                if old_aw.contains(e) {
                    let k = choose|k: int| 0 <= k < old_aw.len() && old_aw[k] == e;
                    assert(old_aw[k] == e);
                }
                if kept.contains(e) {
                    let k = choose|k: int| 0 <= k < old_aw.len() && #[trigger] old_aw[k] == e;
                    assert(old_aw[k] == e);
                }
                if ids@.contains(e.1) {
                    let k = choose|k: int| 0 <= k < ids@.len() && ids@[k] == e.1;
                    assert(ids@[k] == e.1);
                }
            }
            assert forall|i: int| 0 <= i < self.awareness@.len() implies self.subscribers@.contains(#[trigger] self.awareness@[i].0) by {
                let e = self.awareness@[i];
                assert(self.awareness@.contains(e));
                if e.0 != client {
                    let k = choose|k: int| 0 <= k < old_aw.len() && old_aw[k] == e;
                    assert(old_aw.contains(e));
                    assert(self.subscribers@.contains(old_aw[k].0));
                }
            }
        }
        self.last_activity = now;
        true
    }

    /// A sync message (from a client, or injected by the server) was applied
    /// at `now`; `changed` tells whether the CRDT state changed. A change makes
    /// the state dirty and re-arms the persist debounce; while a persist runs it
    /// is only noted, for that persist's completion to re-arm the timer.
    pub fn sync_applied(&mut self, changed: bool, now: u64)
        requires
            doc_wf(old(self)@),
        ensures
            doc_wf(final(self)@),
            final(self)@ == (DocumentView {
                status: if changed { dirtied(old(self)@.status, now) } else { old(self)@.status },
                persist_deadline: if !changed {
                    old(self)@.persist_deadline
                } else if old(self)@.status is Persisting {
                    None
                } else {
                    Some(after(now, old(self)@.timing.t_persist))
                },
                idle_deadline: idle_after(old(self)@.subscribers, old(self)@.timing, now),
                last_activity: now,
                ..old(self)@
            }),
    {
        if changed {
            match self.status {
                PersistStatus::Clean => {
                    self.status = PersistStatus::Dirty { since: now };
                    self.persist_deadline = Some(now.saturating_add(self.timing.t_persist));
                },
                PersistStatus::Dirty { .. } => {
                    self.persist_deadline = Some(now.saturating_add(self.timing.t_persist));
                },
                PersistStatus::Persisting { .. } => {
                    self.status = PersistStatus::Persisting { redirtied: true };
                },
            }
        }
        self.last_activity = now;
        if self.subscribers.len() == 0 {
            self.idle_deadline = Some(now.saturating_add(self.timing.t_idle));
        }
    }

    /// The debounce timer is checked at `now`: when it has fired on a dirty
    /// state, a persist starts (the caller snapshots the state and runs the
    /// storage hooks) and true is returned.
    pub fn persist_due(&mut self, now: u64) -> (r: bool)
        requires
            doc_wf(old(self)@),
        ensures
            doc_wf(final(self)@),
            r == (old(self)@.status is Dirty && old(self)@.persist_deadline->0 <= now),
            r ==> final(self)@ == (DocumentView {
                status: PersistStatus::Persisting { redirtied: false },
                persist_deadline: None,
                ..old(self)@
            }),
            !r ==> final(self)@ == old(self)@,
    {
        match self.persist_deadline {
            Some(d) => {
                if d <= now {
                    self.begin_persist()
                } else {
                    false
                }
            },
            None => false,
        }
    }

    /// An explicit save request: a dirty state starts persisting at once,
    /// whatever the debounce timer says.
    pub fn persist_now(&mut self) -> (r: bool)
        requires
            doc_wf(old(self)@),
        ensures
            doc_wf(final(self)@),
            r == old(self)@.status is Dirty,
            r ==> final(self)@ == (DocumentView {
                status: PersistStatus::Persisting { redirtied: false },
                persist_deadline: None,
                ..old(self)@
            }),
            !r ==> final(self)@ == old(self)@,
    {
        self.begin_persist()
    }

    fn begin_persist(&mut self) -> (r: bool)
        requires
            doc_wf(old(self)@),
        ensures
            doc_wf(final(self)@),
            r == old(self)@.status is Dirty,
            r ==> final(self)@ == (DocumentView {
                status: PersistStatus::Persisting { redirtied: false },
                persist_deadline: None,
                ..old(self)@
            }),
            !r ==> final(self)@ == old(self)@,
    {
        match self.status {
            PersistStatus::Dirty { .. } => {
                self.status = PersistStatus::Persisting { redirtied: false };
                self.persist_deadline = None;
                true
            },
            _ => false,
        }
    }

    /// The running persist finished at `now`. On success the state is clean,
    /// unless it changed meanwhile, in which case it is dirty again with the
    /// debounce re-armed. On failure it stays dirty and a retry is armed after
    /// the current backoff, which then doubles, capped at `t_persist_max`.
    pub fn persist_finished(&mut self, success: bool, now: u64)
        requires
            doc_wf(old(self)@),
            old(self)@.status is Persisting,
        ensures
            doc_wf(final(self)@),
            final(self)@ == (DocumentView {
                status: if success && !old(self)@.status->redirtied {
                    PersistStatus::Clean
                } else {
                    PersistStatus::Dirty { since: now }
                },
                persist_deadline: if success && !old(self)@.status->redirtied {
                    None
                } else if success {
                    Some(after(now, old(self)@.timing.t_persist))
                } else {
                    Some(after(now, old(self)@.retry_delay))
                },
                retry_delay: if success {
                    old(self)@.timing.t_persist
                } else {
                    next_backoff(old(self)@.retry_delay, old(self)@.timing.t_persist_max)
                },
                ..old(self)@
            }),
    {
        let redirtied = match self.status {
            PersistStatus::Persisting { redirtied } => redirtied,
            _ => false,
        };
        if success {
            self.retry_delay = self.timing.t_persist;
            if redirtied {
                self.status = PersistStatus::Dirty { since: now };
                self.persist_deadline = Some(now.saturating_add(self.timing.t_persist));
            } else {
                self.status = PersistStatus::Clean;
                self.persist_deadline = None;
            }
        } else {
            self.status = PersistStatus::Dirty { since: now };
            self.persist_deadline = Some(now.saturating_add(self.retry_delay));
            let doubled = self.retry_delay.saturating_add(self.retry_delay);
            self.retry_delay = if doubled < self.timing.t_persist_max {
                doubled
            } else {
                self.timing.t_persist_max
            };
        }
    }

    /// The idle timer is checked at `now`.
    pub fn idle_due(&self, now: u64) -> (r: IdleDecision)
        ensures
            r == idle_decision(self@, now),
    {
        if self.subscribers.len() != 0 {
            return IdleDecision::Stay;
        }
        match self.idle_deadline {
            Some(d) => {
                if d <= now {
                    match self.status {
                        PersistStatus::Clean => IdleDecision::Unload,
                        PersistStatus::Dirty { .. } => IdleDecision::Persist,
                        PersistStatus::Persisting { .. } => IdleDecision::Stay,
                    }
                } else {
                    IdleDecision::Stay
                }
            },
            None => IdleDecision::Stay,
        }
    }

    /// An unload hook vetoed the eviction at `now`: the idle timer starts over.
    pub fn unload_vetoed(&mut self, now: u64)
        requires
            doc_wf(old(self)@),
        ensures
            doc_wf(final(self)@),
            final(self)@ == (DocumentView {
                idle_deadline: idle_after(old(self)@.subscribers, old(self)@.timing, now),
                last_activity: now,
                ..old(self)@
            }),
    {
        self.last_activity = now;
        if self.subscribers.len() == 0 {
            self.idle_deadline = Some(now.saturating_add(self.timing.t_idle));
        } else {
            self.idle_deadline = None;
        }
    }
}

/// The retry delay after one more failure: doubled, capped at `cap`.
pub open spec fn next_backoff(delay: u64, cap: u64) -> u64 {
    let doubled = after(delay, delay);
    if doubled < cap { doubled } else { cap }
}

/// A Document without subscribers whose state is clean is unloaded once
/// `t_idle` has passed since its last activity.
pub proof fn lemma_idle_eviction(v: DocumentView, now: u64)
    requires
        doc_wf(v),
        v.subscribers.len() == 0,
        v.status == PersistStatus::Clean,
        after(v.last_activity, v.timing.t_idle) <= now,
    ensures
        idle_decision(v, now) == IdleDecision::Unload,
{
}

/// Whether `a` is among `ids`.
fn contains_id(ids: &Vec<u64>, a: u64) -> (r: bool)
    ensures
        r == ids@.contains(a),
{
    let mut i: usize = 0;
    while i < ids.len()
        invariant
            i <= ids@.len(),
            forall|k: int| 0 <= k < i ==> ids@[k] != a,
        decreases ids@.len() - i,
    {
        if ids[i] == a {
            return true;
        }
        i = i + 1;
    }
    false
}

} // verus!
