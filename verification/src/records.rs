use vstd::prelude::*;

verus! {

/// Record of one instrumented call: its identifier, where it was made, the
/// thread that made it, and an optional captured backtrace (`None` when
/// capture was unavailable or disabled).
pub struct Record {
    pub id: String,
    pub file: String,
    pub line: u32,
    pub thread_id: u64,
    pub backtrace: Option<String>,
}

/// Append-ordered trace of records since the last drain.
pub struct Records(pub Vec<Record>);

/// The identifiers of a trace, in append order.
pub open spec fn rec_ids(rs: Seq<Record>) -> Seq<Seq<char>> {
    Seq::new(rs.len(), |i: int| rs[i].id@)
}

impl Records {
    /// The identifiers of the trace, in append order.
    pub open spec fn ids(self) -> Seq<Seq<char>> {
        rec_ids(self.0@)
    }

    /// The empty trace.
    pub fn empty() -> (r: Records)
        ensures
            r.0@.len() == 0,
    {
        Records(Vec::new())
    }
}

/// The recording substrate: one storage cell per thread that claimed
/// thread-scoped capture, and one process-wide cell.  The substrate is
/// threaded explicitly through the calls that use it; the ambient storage,
/// locking and blocking live with the caller.
pub struct Registry {
    pub locals: Vec<(u64, Records)>,
    pub global: Option<Records>,
}

impl Registry {
    /// At most one thread-scoped cell per thread.
    pub open spec fn wf(self) -> bool {
        forall|i: int, j: int|
            0 <= i < j < self.locals@.len() ==> (#[trigger] self.locals@[i]).0 != (
            #[trigger] self.locals@[j]).0
    }

    /// Whether `thread_id` has an active thread-scoped cell.
    pub open spec fn has_local(self, thread_id: u64) -> bool {
        exists|i: int| 0 <= i < self.locals@.len() && (#[trigger] self.locals@[i]).0 == thread_id
    }

    /// The contents of the thread-scoped cell of `thread_id`.
    pub open spec fn local_at(self, thread_id: u64) -> Seq<Record> {
        let i = choose|i: int|
            0 <= i < self.locals@.len() && (#[trigger] self.locals@[i]).0 == thread_id;
        self.locals@[i].1.0@
    }

    /// Whether the process-scoped cell is claimed.
    pub open spec fn global_active(self) -> bool {
        self.global is Some
    }

    /// The contents of the process-scoped cell.
    pub open spec fn global_trace(self) -> Seq<Record> {
        (self.global->0).0@
    }

    /// The thread-scoped cells as a map from thread to trace.
    pub open spec fn locals_map(self) -> Map<u64, Seq<Record>> {
        Map::new(|t: u64| self.has_local(t), |t: u64| self.local_at(t))
    }

    /// A substrate with no active cell anywhere.
    pub fn new() -> (r: Registry)
        ensures
            r.wf(),
            r.locals_map() == Map::<u64, Seq<Record>>::empty(),
            !r.global_active(),
    {
        let r = Registry { locals: Vec::new(), global: None };
        proof {
            assert(r.locals_map() =~= Map::<u64, Seq<Record>>::empty());
        }
        r
    }

    /// A cell found at a position belongs to its thread: under `wf` the
    /// chosen cell of that thread is the one at this position.
    pub proof fn lemma_local_at_index(self, i: int)
        requires
            self.wf(),
            0 <= i < self.locals@.len(),
        ensures
            self.has_local(self.locals@[i].0),
            self.local_at(self.locals@[i].0) == self.locals@[i].1.0@,
    {
        let tid = self.locals@[i].0;
        assert(self.has_local(tid));
        let k = choose|k: int|
            0 <= k < self.locals@.len() && (#[trigger] self.locals@[k]).0 == tid;
        if k != i {
            if k < i {
                assert(self.locals@[k].0 != self.locals@[i].0);
            } else {
                assert(self.locals@[i].0 != self.locals@[k].0);
            }
        }
    }

    /// The position of the thread-scoped cell of `thread_id`, if one is
    /// active.
    fn find_local(&self, thread_id: u64) -> (r: Option<usize>)
        requires
            self.wf(),
        ensures
            match r {
                Some(i) => i < self.locals@.len() && self.locals@[i as int].0 == thread_id,
                None => !self.has_local(thread_id),
            },
    {
        let mut i: usize = 0;
        while i < self.locals.len()
            invariant
                i <= self.locals@.len(),
                forall|k: int| 0 <= k < i ==> (#[trigger] self.locals@[k]).0 != thread_id,
            decreases self.locals@.len() - i,
        {
            if self.locals[i].0 == thread_id {
                return Some(i);
            }
            i = i + 1;
        }
        None
    }

    /// Claims thread-scoped capture for `thread_id`.  Claiming it twice in
    /// the same thread is a programmer error, reported synchronously by
    /// `false`; the caller fails fast on it.
    pub fn init_local(&mut self, thread_id: u64) -> (ok: bool)
        requires
            old(self).wf(),
        ensures
            final(self).wf(),
            ok == !old(self).has_local(thread_id),
            final(self).global == old(self).global,
            ok ==> {
                &&& final(self).has_local(thread_id)
                &&& final(self).local_at(thread_id) == Seq::<Record>::empty()
                &&& forall|t: u64|
                    t != thread_id ==> #[trigger] final(self).has_local(t)
                        == old(self).has_local(t)
                &&& forall|t: u64|
                    t != thread_id && old(self).has_local(t)
                        ==> #[trigger] final(self).local_at(t) == old(self).local_at(t)
            },
            !ok ==> *final(self) == *old(self),
    {
        match self.find_local(thread_id) {
            Some(_) => false,
            None => {
                let ghost pre = *self;
                self.locals.push((thread_id, Records::empty()));
                proof {
                    let n = pre.locals@.len() as int;
                    assert(self.locals@ =~= pre.locals@.push(
                        (thread_id, self.locals@[n].1),
                    ));
                    assert forall|i: int, j: int|
                        0 <= i < j < self.locals@.len() implies (
                    #[trigger] self.locals@[i]).0 != (#[trigger] self.locals@[j]).0 by {
                        if j < n {
                        } else {
                            assert(self.locals@[j].0 == thread_id);
                            assert(pre.locals@[i] == self.locals@[i]);
                            if self.locals@[i].0 == thread_id {
                                assert(pre.has_local(thread_id));
                            }
                        }
                    }
                    self.lemma_local_at_index(n);
                    assert forall|t: u64|
                        t != thread_id implies #[trigger] self.has_local(t) == pre.has_local(
                        t,
                    ) by {
                        if pre.has_local(t) {
                            let k = choose|k: int|
                                0 <= k < pre.locals@.len() && (#[trigger] pre.locals@[k]).0 == t;
                            assert(self.locals@[k].0 == t);
                        }
                        if self.has_local(t) {
                            let k = choose|k: int|
                                0 <= k < self.locals@.len() && (#[trigger] self.locals@[k]).0
                                    == t;
                            assert(k < n);
                            assert(pre.locals@[k].0 == t);
                        }
                    }
                    assert forall|t: u64|
                        t != thread_id && pre.has_local(t) implies #[trigger] self.local_at(t)
                        == pre.local_at(t) by {
                        let k = choose|k: int|
                            0 <= k < pre.locals@.len() && (#[trigger] pre.locals@[k]).0 == t;
                        pre.lemma_local_at_index(k);
                        assert(self.locals@[k].0 == t);
                        self.lemma_local_at_index(k);
                    }
                }
                true
            },
        }
    }

    /// Releases the thread-scoped capture of `thread_id`; the cell is gone
    /// afterwards.
    pub fn drop_local(&mut self, thread_id: u64)
        requires
            old(self).wf(),
        ensures
            final(self).wf(),
            !final(self).has_local(thread_id),
            final(self).global == old(self).global,
            forall|t: u64|
                t != thread_id ==> #[trigger] final(self).has_local(t) == old(self).has_local(t),
            forall|t: u64|
                t != thread_id && old(self).has_local(t) ==> #[trigger] final(self).local_at(t)
                    == old(self).local_at(t),
    {
        let ghost pre = *self;
        match self.find_local(thread_id) {
            Some(i) => {
                self.locals.remove(i);
                proof {
                    assert(self.locals@ =~= pre.locals@.remove(i as int));
                    assert forall|a: int, b: int|
                        0 <= a < b < self.locals@.len() implies (#[trigger] self.locals@[a]).0
                        != (#[trigger] self.locals@[b]).0 by {
                        let a0: int = if a < i { a } else { a + 1 };
                        let b0: int = if b < i { b } else { b + 1 };
                        assert(self.locals@[a] == pre.locals@[a0]);
                        assert(self.locals@[b] == pre.locals@[b0]);
                    }
                    if self.has_local(thread_id) {
                        let k = choose|k: int|
                            0 <= k < self.locals@.len() && (#[trigger] self.locals@[k]).0
                                == thread_id;
                        let k0: int = if k < i { k } else { k + 1 };
                        assert(pre.locals@[k0].0 == thread_id);
                        assert(pre.locals@[i as int].0 == thread_id);
                    }
                    assert forall|t: u64|
                        t != thread_id implies #[trigger] self.has_local(t) == pre.has_local(
                        t,
                    ) by {
                        if pre.has_local(t) {
                            let k = choose|k: int|
                                0 <= k < pre.locals@.len() && (#[trigger] pre.locals@[k]).0 == t;
                            let k1: int = if k < i { k } else { k - 1 };
                            assert(self.locals@[k1].0 == t);
                        }
                        if self.has_local(t) {
                            let k = choose|k: int|
                                0 <= k < self.locals@.len() && (#[trigger] self.locals@[k]).0
                                    == t;
                            let k0: int = if k < i { k } else { k + 1 };
                            assert(pre.locals@[k0].0 == t);
                        }
                    }
                    assert forall|t: u64|
                        t != thread_id && pre.has_local(t) implies #[trigger] self.local_at(t)
                        == pre.local_at(t) by {
                        let k = choose|k: int|
                            0 <= k < pre.locals@.len() && (#[trigger] pre.locals@[k]).0 == t;
                        pre.lemma_local_at_index(k);
                        let k1: int = if k < i { k } else { k - 1 };
                        assert(self.locals@[k1] == pre.locals@[k]);
                        self.lemma_local_at_index(k1);
                    }
                }
            },
            None => {},
        }
    }

    /// Tries to claim the process-scoped cell.  It succeeds exactly when no
    /// other session holds it; a refused caller blocks and retries, which is
    /// how acquisition waits for the previous session to release.
    pub fn acquire_global(&mut self) -> (ok: bool)
        requires
            old(self).wf(),
        ensures
            final(self).wf(),
            ok == !old(self).global_active(),
            ok ==> {
                &&& final(self).global_active()
                &&& final(self).global_trace() == Seq::<Record>::empty()
                &&& final(self).locals == old(self).locals
            },
            !ok ==> *final(self) == *old(self),
    {
        match self.global {
            Some(_) => false,
            None => {
                self.global = Some(Records::empty());
                true
            },
        }
    }

    /// Releases the process-scoped cell; the next claim can then succeed.
    pub fn release_global(&mut self)
        requires
            old(self).wf(),
        ensures
            final(self).wf(),
            !final(self).global_active(),
            final(self).locals == old(self).locals,
    {
        self.global = None;
    }

    /// Drains the thread-scoped cell of `thread_id`: the trace so far comes
    /// out, the cell stays active and empty.
    pub fn take_local(&mut self, thread_id: u64) -> (r: Records)
        requires
            old(self).wf(),
            old(self).has_local(thread_id),
        ensures
            final(self).wf(),
            r.0@ == old(self).local_at(thread_id),
            final(self).has_local(thread_id),
            final(self).local_at(thread_id) == Seq::<Record>::empty(),
            final(self).global == old(self).global,
            forall|t: u64|
                t != thread_id ==> #[trigger] final(self).has_local(t) == old(self).has_local(t),
            forall|t: u64|
                t != thread_id && old(self).has_local(t)
                    ==> #[trigger] final(self).local_at(t) == old(self).local_at(t),
    {
        let ghost pre = *self;
        match self.find_local(thread_id) {
            Some(i) => {
                let mut entry = self.locals.remove(i);
                let taken = entry.1;
                entry.1 = Records::empty();
                self.locals.insert(i, entry);
                proof {
                    assert(self.locals@ =~= pre.locals@.update(
                        i as int,
                        (thread_id, self.locals@[i as int].1),
                    ));
                    assert forall|a: int, b: int|
                        0 <= a < b < self.locals@.len() implies (#[trigger] self.locals@[a]).0
                        != (#[trigger] self.locals@[b]).0 by {
                        assert(self.locals@[a].0 == pre.locals@[a].0);
                        assert(self.locals@[b].0 == pre.locals@[b].0);
                    }
                    pre.lemma_local_at_index(i as int);
                    self.lemma_local_at_index(i as int);
                    assert forall|t: u64|
                        t != thread_id implies #[trigger] self.has_local(t) == pre.has_local(
                        t,
                    ) by {
                        if pre.has_local(t) {
                            let k = choose|k: int|
                                0 <= k < pre.locals@.len() && (#[trigger] pre.locals@[k]).0 == t;
                            assert(self.locals@[k].0 == t);
                        }
                        if self.has_local(t) {
                            let k = choose|k: int|
                                0 <= k < self.locals@.len() && (#[trigger] self.locals@[k]).0
                                    == t;
                            assert(pre.locals@[k].0 == t);
                        }
                    }
                    assert forall|t: u64|
                        t != thread_id && pre.has_local(t) implies #[trigger] self.local_at(t)
                        == pre.local_at(t) by {
                        let k = choose|k: int|
                            0 <= k < pre.locals@.len() && (#[trigger] pre.locals@[k]).0 == t;
                        pre.lemma_local_at_index(k);
                        assert(self.locals@[k] == pre.locals@[k]);
                        self.lemma_local_at_index(k);
                    }
                }
                taken
            },
            None => {
                // unreachable under the precondition
                proof {
                    assert(false);
                }
                Records::empty()
            },
        }
    }

    /// Drains the process-scoped cell: the trace so far comes out, the cell
    /// stays claimed and empty.
    pub fn take_global(&mut self) -> (r: Records)
        requires
            old(self).wf(),
            old(self).global_active(),
        ensures
            final(self).wf(),
            r.0@ == old(self).global_trace(),
            final(self).global_active(),
            final(self).global_trace() == Seq::<Record>::empty(),
            final(self).locals == old(self).locals,
    {
        let taken = self.global.take();
        self.global = Some(Records::empty());
        match taken {
            Some(r) => r,
            None => {
                proof {
                    assert(false);
                }
                Records::empty()
            },
        }
    }

    /// Routes one record: to the caller's thread-scoped cell if one is
    /// active, else to the process-scoped cell if claimed, else nowhere.
    /// `used` says whether any cell took it; an unused record means no
    /// session was active anywhere, which the caller surfaces loudly.
    pub fn push(&mut self, rec: Record) -> (used: bool)
        requires
            old(self).wf(),
        ensures
            final(self).wf(),
            used == (old(self).has_local(rec.thread_id) || old(self).global_active()),
            old(self).has_local(rec.thread_id) ==> {
                &&& final(self).has_local(rec.thread_id)
                &&& final(self).local_at(rec.thread_id) == old(self).local_at(
                    rec.thread_id,
                ).push(rec)
                &&& final(self).global == old(self).global
                &&& forall|t: u64|
                    t != rec.thread_id ==> #[trigger] final(self).has_local(t)
                        == old(self).has_local(t)
                &&& forall|t: u64|
                    t != rec.thread_id && old(self).has_local(t)
                        ==> #[trigger] final(self).local_at(t) == old(self).local_at(t)
            },
            !old(self).has_local(rec.thread_id) && old(self).global_active() ==> {
                &&& final(self).global_active()
                &&& final(self).global_trace() == old(self).global_trace().push(rec)
                &&& final(self).locals == old(self).locals
            },
            !used ==> *final(self) == *old(self),
    {
        let ghost pre = *self;
        let thread_id = rec.thread_id;
        match self.find_local(thread_id) {
            Some(i) => {
                let mut entry = self.locals.remove(i);
                entry.1.0.push(rec);
                self.locals.insert(i, entry);
                proof {
                    assert(self.locals@ =~= pre.locals@.update(
                        i as int,
                        (thread_id, self.locals@[i as int].1),
                    ));
                    assert forall|a: int, b: int|
                        0 <= a < b < self.locals@.len() implies (#[trigger] self.locals@[a]).0
                        != (#[trigger] self.locals@[b]).0 by {
                        assert(self.locals@[a].0 == pre.locals@[a].0);
                        assert(self.locals@[b].0 == pre.locals@[b].0);
                    }
                    pre.lemma_local_at_index(i as int);
                    self.lemma_local_at_index(i as int);
                    assert forall|t: u64|
                        t != thread_id implies #[trigger] self.has_local(t) == pre.has_local(
                        t,
                    ) by {
                        if pre.has_local(t) {
                            let k = choose|k: int|
                                0 <= k < pre.locals@.len() && (#[trigger] pre.locals@[k]).0 == t;
                            assert(self.locals@[k].0 == t);
                        }
                        if self.has_local(t) {
                            let k = choose|k: int|
                                0 <= k < self.locals@.len() && (#[trigger] self.locals@[k]).0
                                    == t;
                            assert(pre.locals@[k].0 == t);
                        }
                    }
                    assert forall|t: u64|
                        t != thread_id && pre.has_local(t) implies #[trigger] self.local_at(t)
                        == pre.local_at(t) by {
                        let k = choose|k: int|
                            0 <= k < pre.locals@.len() && (#[trigger] pre.locals@[k]).0 == t;
                        pre.lemma_local_at_index(k);
                        assert(self.locals@[k] == pre.locals@[k]);
                        self.lemma_local_at_index(k);
                    }
                }
                true
            },
            None => {
                match &mut self.global {
                    Some(g) => {
                        g.0.push(rec);
                        true
                    },
                    None => false,
                }
            },
        }
    }
}

impl Records {
    /// The instrumentation append: builds the record of one call and routes
    /// it to the capture cell active for its thread, the process-wide cell
    /// as the fallback.  `used` is `false` when no session is active
    /// anywhere; the call site fails loudly on it rather than dropping the
    /// record in silence.
    pub fn push(
        reg: &mut Registry,
        id: String,
        file: String,
        line: u32,
        thread_id: u64,
        backtrace: Option<String>,
    ) -> (used: bool)
        requires
            old(reg).wf(),
        ensures
            final(reg).wf(),
            used == (old(reg).has_local(thread_id) || old(reg).global_active()),
            ({
                let rec = Record { id, file, line, thread_id, backtrace };
                &&& old(reg).has_local(thread_id) ==> {
                    &&& final(reg).has_local(thread_id)
                    &&& final(reg).local_at(thread_id) == old(reg).local_at(thread_id).push(rec)
                    &&& final(reg).global == old(reg).global
                    &&& forall|t: u64|
                        t != thread_id ==> #[trigger] final(reg).has_local(t)
                            == old(reg).has_local(t)
                    &&& forall|t: u64|
                        t != thread_id && old(reg).has_local(t)
                            ==> #[trigger] final(reg).local_at(t) == old(reg).local_at(t)
                }
                &&& !old(reg).has_local(thread_id) && old(reg).global_active() ==> {
                    &&& final(reg).global_active()
                    &&& final(reg).global_trace() == old(reg).global_trace().push(rec)
                    &&& final(reg).locals == old(reg).locals
                }
                &&& !used ==> *final(reg) == *old(reg)
            }),
    {
        let rec = Record { id, file, line, thread_id, backtrace };
        reg.push(rec)
    }
}

/// The token of a claimed thread-scoped capture cell.  Claiming is
/// fail-fast: a second claim for the same thread is refused, never queued.
pub struct Local {
    pub thread_id: u64,
}

impl Local {
    /// Claims thread-scoped capture for `thread_id`; `None` reports the
    /// programmer error of claiming it twice in one thread, on which the
    /// caller fails fast.
    pub fn init(reg: &mut Registry, thread_id: u64) -> (r: Option<Local>)
        requires
            old(reg).wf(),
        ensures
            final(reg).wf(),
            r is Some <==> !old(reg).has_local(thread_id),
            final(reg).global == old(reg).global,
            r matches Some(l) ==> {
                &&& l.thread_id == thread_id
                &&& final(reg).has_local(thread_id)
                &&& final(reg).local_at(thread_id) == Seq::<Record>::empty()
                &&& forall|t: u64|
                    t != thread_id ==> #[trigger] final(reg).has_local(t)
                        == old(reg).has_local(t)
                &&& forall|t: u64|
                    t != thread_id && old(reg).has_local(t)
                        ==> #[trigger] final(reg).local_at(t) == old(reg).local_at(t)
            },
            r is None ==> *final(reg) == *old(reg),
    {
        if reg.init_local(thread_id) {
            Some(Local { thread_id })
        } else {
            None
        }
    }

    /// Drains this thread's cell: each verification sees only what was
    /// recorded since the previous drain.
    pub fn take_actual(&self, reg: &mut Registry) -> (r: Records)
        requires
            old(reg).wf(),
            old(reg).has_local(self.thread_id),
        ensures
            final(reg).wf(),
            r.0@ == old(reg).local_at(self.thread_id),
            final(reg).has_local(self.thread_id),
            final(reg).local_at(self.thread_id) == Seq::<Record>::empty(),
            final(reg).global == old(reg).global,
            forall|t: u64|
                t != self.thread_id ==> #[trigger] final(reg).has_local(t) == old(
                    reg,
                ).has_local(t),
            forall|t: u64|
                t != self.thread_id && old(reg).has_local(t)
                    ==> #[trigger] final(reg).local_at(t) == old(reg).local_at(t),
    {
        reg.take_local(self.thread_id)
    }

    /// Releases the cell on the session's way out.
    pub fn release(self, reg: &mut Registry)
        requires
            old(reg).wf(),
        ensures
            final(reg).wf(),
            !final(reg).has_local(self.thread_id),
            final(reg).global == old(reg).global,
            forall|t: u64|
                t != self.thread_id ==> #[trigger] final(reg).has_local(t) == old(
                    reg,
                ).has_local(t),
            forall|t: u64|
                t != self.thread_id && old(reg).has_local(t)
                    ==> #[trigger] final(reg).local_at(t) == old(reg).local_at(t),
    {
        reg.drop_local(self.thread_id)
    }
}

/// The token of the claimed process-wide capture cell: at most one exists
/// at a time, so overlapping process-scoped sessions are serialized.
pub struct Global {}

impl Global {
    /// Tries to claim process-wide capture.  It succeeds exactly when no
    /// other session holds the cell; a refused caller waits for the
    /// holder's release and tries again.
    pub fn init(reg: &mut Registry) -> (r: Option<Global>)
        requires
            old(reg).wf(),
        ensures
            final(reg).wf(),
            r is Some <==> !old(reg).global_active(),
            r is Some ==> {
                &&& final(reg).global_active()
                &&& final(reg).global_trace() == Seq::<Record>::empty()
                &&& final(reg).locals == old(reg).locals
            },
            r is None ==> *final(reg) == *old(reg),
    {
        if reg.acquire_global() {
            Some(Global {  })
        } else {
            None
        }
    }

    /// Drains the process-wide cell: each verification sees only what was
    /// recorded since the previous drain.
    pub fn take_actual(&self, reg: &mut Registry) -> (r: Records)
        requires
            old(reg).wf(),
            old(reg).global_active(),
        ensures
            final(reg).wf(),
            r.0@ == old(reg).global_trace(),
            final(reg).global_active(),
            final(reg).global_trace() == Seq::<Record>::empty(),
            final(reg).locals == old(reg).locals,
    {
        reg.take_global()
    }

    /// Releases the cell on the session's way out, letting the next
    /// claimant in.
    pub fn release(self, reg: &mut Registry)
        requires
            old(reg).wf(),
        ensures
            final(reg).wf(),
            !final(reg).global_active(),
            final(reg).locals == old(reg).locals,
    {
        reg.release_global()
    }
}

/// Record of one instrumented call as the call site hands it over: the
/// formatted identifier and the source location.
pub struct CallRecord {
    pub id: String,
    pub file: String,
    pub line: u32,
}

impl CallRecord {
    /// The instrumentation entry point: attaches the calling thread and an
    /// optional backtrace, then routes the record to the active capture
    /// cell.  `used` is `false` when no session is active anywhere.
    pub fn record(
        self,
        reg: &mut Registry,
        thread_id: u64,
        backtrace: Option<String>,
    ) -> (used: bool)
        requires
            old(reg).wf(),
        ensures
            final(reg).wf(),
            used == (old(reg).has_local(thread_id) || old(reg).global_active()),
            ({
                let rec = Record {
                    id: self.id,
                    file: self.file,
                    line: self.line,
                    thread_id,
                    backtrace,
                };
                &&& old(reg).has_local(thread_id) ==> {
                    &&& final(reg).has_local(thread_id)
                    &&& final(reg).local_at(thread_id) == old(reg).local_at(thread_id).push(rec)
                    &&& final(reg).global == old(reg).global
                    &&& forall|t: u64|
                        t != thread_id ==> #[trigger] final(reg).has_local(t)
                            == old(reg).has_local(t)
                    &&& forall|t: u64|
                        t != thread_id && old(reg).has_local(t)
                            ==> #[trigger] final(reg).local_at(t) == old(reg).local_at(t)
                }
                &&& !old(reg).has_local(thread_id) && old(reg).global_active() ==> {
                    &&& final(reg).global_active()
                    &&& final(reg).global_trace() == old(reg).global_trace().push(rec)
                    &&& final(reg).locals == old(reg).locals
                }
                &&& !used ==> *final(reg) == *old(reg)
            }),
    {
        let rec = Record {
            id: self.id,
            file: self.file,
            line: self.line,
            thread_id,
            backtrace,
        };
        reg.push(rec)
    }
}

} // verus!
