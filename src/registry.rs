//! The Root's registry: at most one live Document per doc-id.
use vstd::prelude::*;

verus! {

/// Whether no two registrations share a doc-id.
pub open spec fn distinct_ids(s: Seq<(Seq<char>, u64)>) -> bool {
    forall|i: int, j: int|
        0 <= i < s.len() && 0 <= j < s.len() && i != j ==> #[trigger] s[i].0 != #[trigger] s[j].0
}

/// Whether `id` is registered in `s`.
pub open spec fn has_id(s: Seq<(Seq<char>, u64)>, id: Seq<char>) -> bool {
    exists|i: int| 0 <= i < s.len() && #[trigger] s[i].0 == id
}

/// Doc-id → Document handle. A handle names one live Document actor.
pub struct Root {
    entries: Vec<(String, u64)>,
}

impl View for Root {
    type V = Seq<(Seq<char>, u64)>;

    closed spec fn view(&self) -> Seq<(Seq<char>, u64)> {
        self.entries@.map_values(|e: (String, u64)| (e.0@, e.1))
    }
}

impl Root {
    /// The registry's invariant: one entry at most for each doc-id.
    pub open spec fn wf(&self) -> bool {
        distinct_ids(self@)
    }

    /// An empty registry.
    pub fn new() -> (r: Root)
        ensures
            r.wf(),
            r@ == Seq::<(Seq<char>, u64)>::empty(),
    {
        let r = Root { entries: Vec::new() };
        assert(r@ =~= Seq::<(Seq<char>, u64)>::empty());
        r
    }

    /// Number of registered Documents.
    pub fn len(&self) -> (r: usize)
        ensures
            r == self@.len(),
    {
        self.entries.len()
    }

    /// Position of `doc_id`'s entry, if it has one.
    fn find(&self, doc_id: &String) -> (r: Option<usize>)
        requires
            self.wf(),
        ensures
            r.is_none() <==> !has_id(self@, doc_id@),
            r matches Some(i) ==> i < self@.len() && self@[i as int].0 == doc_id@,
    {
        let mut i: usize = 0;
        while i < self.entries.len()
            invariant
                i <= self.entries@.len(),
                self@.len() == self.entries@.len(),
                forall|k: int| 0 <= k < i ==> #[trigger] self@[k].0 != doc_id@,
            decreases self.entries@.len() - i,
        {
            if self.entries[i].0 == *doc_id {
                assert(self@[i as int].0 == doc_id@);
                return Some(i);
            }
            i = i + 1;
        }
        None
    }

    /// The handle registered for `doc_id`, if any.
    pub fn lookup(&self, doc_id: &str) -> (r: Option<u64>)
        requires
            self.wf(),
        ensures
            r.is_none() <==> !has_id(self@, doc_id@),
            r matches Some(h) ==> self@.contains((doc_id@, h)),
    {
        let key = doc_id.to_owned();
        match self.find(&key) {
            Some(i) => {
                assert(self@[i as int] == (doc_id@, self.entries@[i as int].1));
                Some(self.entries[i].1)
            },
            None => None,
        }
    }

    /// Registers `handle` for `doc_id` unless a Document is registered for it
    /// already; says whether it did.
    pub fn register(&mut self, doc_id: &str, handle: u64) -> (r: bool)
        requires
            old(self).wf(),
        ensures
            final(self).wf(),
            r == !has_id(old(self)@, doc_id@),
            r ==> final(self)@ == old(self)@.push((doc_id@, handle)),
            !r ==> final(self)@ == old(self)@,
    {
        let key = doc_id.to_owned();
        if self.find(&key).is_some() {
            return false;
        }
        let ghost before = self@;
        self.entries.push((key, handle));
        assert(self@ =~= before.push((doc_id@, handle)));
        true
    }

    /// Resolves `doc_id` to its Document: the registered one, or `fresh`,
    /// which is then registered. Returns the handle and whether it is new.
    pub fn request_doc(&mut self, doc_id: &str, fresh: u64) -> (r: (u64, bool))
        requires
            old(self).wf(),
        ensures
            final(self).wf(),
            r.1 == !has_id(old(self)@, doc_id@),
            r.1 ==> r.0 == fresh && final(self)@ == old(self)@.push((doc_id@, fresh)),
            !r.1 ==> final(self)@ == old(self)@ && old(self)@.contains((doc_id@, r.0)),
    {
        match self.lookup(doc_id) {
            Some(h) => (h, false),
            None => {
                self.register(doc_id, fresh);
                (fresh, true)
            },
        }
    }

    /// A Document stopped: its entry goes, but only if the registered handle is
    /// the one that stopped (a newer Document for the id stays).
    pub fn document_stopped(&mut self, doc_id: &str, handle: u64) -> (r: bool)
        requires
            old(self).wf(),
        ensures
            final(self).wf(),
            r == old(self)@.contains((doc_id@, handle)),
            r ==> exists|i: int|
                0 <= i < old(self)@.len() && old(self)@[i] == (doc_id@, handle)
                    && final(self)@ == old(self)@.remove(i),
            !r ==> final(self)@ == old(self)@,
    {
        let key = doc_id.to_owned();
        match self.find(&key) {
            Some(i) => {
                if self.entries[i].1 == handle {
                    let ghost before = self@;
                    self.entries.remove(i);
                    assert(self@ =~= before.remove(i as int));
                    true
                } else {
                    proof {
                        if self@.contains((doc_id@, handle)) {
                            let k = choose|k: int| 0 <= k < self@.len() && self@[k] == (doc_id@, handle);
                            assert(self@[k].0 == self@[i as int].0);
                        }
                    }
                    false
                }
            },
            None => {
                proof {
                    if self@.contains((doc_id@, handle)) {
                        let k = choose|k: int| 0 <= k < self@.len() && self@[k] == (doc_id@, handle);
                        assert(self@[k].0 == doc_id@);
                    }
                }
                false
            },
        }
    }
}

} // verus!
