pub mod laws;
pub mod pattern;
pub mod records;
pub mod report;
pub mod strutil;

use vstd::prelude::*;

use crate::pattern::accepts;
use crate::pattern::model;
use crate::pattern::run_from;
use crate::pattern::Call;
use crate::records::rec_ids;
use crate::records::Global;
use crate::records::Local;
use crate::records::Record;
use crate::records::Registry;
use crate::report::CallMismatchError;
use crate::strutil::same_elements;
use crate::strutil::strictly_sorted;

verus! {

/// The capture scope a session owns: one thread's calls, or the whole
/// process's.
pub enum CaptureScope {
    ThreadScoped(Local),
    ProcessScoped(Global),
}

/// A verification session: it claims a capture scope on construction, and
/// each `verify` call drains that scope's trace and matches it against a
/// pattern.  The substrate is handed in explicitly; the caller releases
/// the scope on every exit path.
pub struct CallRecorder {
    pub scope: CaptureScope,
    pub thread_id: u64,
}

impl CallRecorder {
    /// Whether this session's capture cell is active in the substrate.
    pub open spec fn scope_active(self, reg: Registry) -> bool {
        match self.scope {
            CaptureScope::ThreadScoped(l) => reg.has_local(l.thread_id),
            CaptureScope::ProcessScoped(_) => reg.global_active(),
        }
    }

    /// The trace this session's capture cell currently holds.
    pub open spec fn scope_trace(self, reg: Registry) -> Seq<Record> {
        match self.scope {
            CaptureScope::ThreadScoped(l) => reg.local_at(l.thread_id),
            CaptureScope::ProcessScoped(_) => reg.global_trace(),
        }
    }

    /// Starts recording the calls of every thread.  It succeeds exactly
    /// when no other process-scoped session is active — at most one exists
    /// at any time; a refused caller blocks until the holder releases, then
    /// tries again.
    pub fn new(reg: &mut Registry, thread_id: u64) -> (r: Option<CallRecorder>)
        requires
            old(reg).wf(),
        ensures
            final(reg).wf(),
            r is Some <==> !old(reg).global_active(),
            r matches Some(c) ==> {
                &&& c.scope is ProcessScoped
                &&& c.thread_id == thread_id
                &&& c.scope_active(*final(reg))
                &&& c.scope_trace(*final(reg)) == Seq::<Record>::empty()
                &&& final(reg).locals == old(reg).locals
            },
            r is None ==> *final(reg) == *old(reg),
    {
        match Global::init(reg) {
            Some(g) => Some(CallRecorder { scope: CaptureScope::ProcessScoped(g), thread_id }),
            None => None,
        }
    }

    /// Starts recording the calls of the current thread alone.  A second
    /// thread-scoped session in the same thread is a programmer error,
    /// refused on the spot; the caller fails fast on `None`.
    pub fn new_local(reg: &mut Registry, thread_id: u64) -> (r: Option<CallRecorder>)
        requires
            old(reg).wf(),
        ensures
            final(reg).wf(),
            r is Some <==> !old(reg).has_local(thread_id),
            final(reg).global == old(reg).global,
            r matches Some(c) ==> {
                &&& c.scope matches CaptureScope::ThreadScoped(l) && l.thread_id == thread_id
                &&& c.thread_id == thread_id
                &&& c.scope_active(*final(reg))
                &&& c.scope_trace(*final(reg)) == Seq::<Record>::empty()
                &&& forall|t: u64|
                    t != thread_id ==> #[trigger] final(reg).has_local(t)
                        == old(reg).has_local(t)
                &&& forall|t: u64|
                    t != thread_id && old(reg).has_local(t)
                        ==> #[trigger] final(reg).local_at(t) == old(reg).local_at(t)
            },
            r is None ==> *final(reg) == *old(reg),
    {
        match Local::init(reg, thread_id) {
            Some(l) => Some(CallRecorder { scope: CaptureScope::ThreadScoped(l), thread_id }),
            None => None,
        }
    }

    /// Drains this session's trace and matches it against the pattern,
    /// with the default mismatch message.
    pub fn verify(&mut self, reg: &mut Registry, expect: Call) -> (r: Result<
        (),
        CallMismatchError,
    >)
        requires
            old(reg).wf(),
            old(self).scope_active(*old(reg)),
        ensures
            *final(self) == *old(self),
            final(reg).wf(),
            final(self).scope_active(*final(reg)),
            final(self).scope_trace(*final(reg)) == Seq::<Record>::empty(),
            ({
                let t = rec_ids(old(self).scope_trace(*old(reg)));
                &&& (r is Ok <==> accepts(model(expect), t))
                &&& r matches Err(e) ==> {
                    &&& run_from(model(expect), t, 0) matches Err(m) && e.mismatch_index == m.0
                        && same_elements(e.expect.deep_view(), m.1)
                    &&& strictly_sorted(e.expect.deep_view())
                    &&& e.actual.0@ == old(self).scope_trace(*old(reg))
                    &&& e.mismatch_index <= e.actual.0@.len()
                    &&& e.msg@ == "mismatch call"@
                    &&& e.thread_id == old(self).thread_id
                }
            }),
    {
        self.verify_with_msg(reg, expect, "mismatch call")
    }

    /// Drains this session's trace and matches it against the pattern.
    /// `Ok` exactly when the pattern accepts the drained trace; on a
    /// mismatch the report carries the given message.  The drain leaves the
    /// scope active and empty, so the next verification sees only calls
    /// recorded after this one.
    pub fn verify_with_msg(&mut self, reg: &mut Registry, expect: Call, msg: &str) -> (r: Result<
        (),
        CallMismatchError,
    >)
        requires
            old(reg).wf(),
            old(self).scope_active(*old(reg)),
        ensures
            *final(self) == *old(self),
            final(reg).wf(),
            final(self).scope_active(*final(reg)),
            final(self).scope_trace(*final(reg)) == Seq::<Record>::empty(),
            ({
                let t = rec_ids(old(self).scope_trace(*old(reg)));
                &&& (r is Ok <==> accepts(model(expect), t))
                &&& r matches Err(e) ==> {
                    &&& run_from(model(expect), t, 0) matches Err(m) && e.mismatch_index == m.0
                        && same_elements(e.expect.deep_view(), m.1)
                    &&& strictly_sorted(e.expect.deep_view())
                    &&& e.actual.0@ == old(self).scope_trace(*old(reg))
                    &&& e.mismatch_index <= e.actual.0@.len()
                    &&& e.msg@ == msg@
                    &&& e.thread_id == old(self).thread_id
                }
            }),
    {
        let actual = match &self.scope {
            CaptureScope::ThreadScoped(l) => l.take_actual(reg),
            CaptureScope::ProcessScoped(g) => g.take_actual(reg),
        };
        expect.verify(actual, msg, self.thread_id)
    }

    /// Gives the capture scope back: a thread-scoped cell is cleared, the
    /// process-wide cell is freed for the next waiting session.  The caller
    /// runs this on every exit path.
    pub fn release(self, reg: &mut Registry)
        requires
            old(reg).wf(),
        ensures
            final(reg).wf(),
            !self.scope_active(*final(reg)),
            self.scope matches CaptureScope::ThreadScoped(l) ==> {
                &&& final(reg).global == old(reg).global
                &&& forall|t: u64|
                    t != l.thread_id ==> #[trigger] final(reg).has_local(t)
                        == old(reg).has_local(t)
                &&& forall|t: u64|
                    t != l.thread_id && old(reg).has_local(t)
                        ==> #[trigger] final(reg).local_at(t) == old(reg).local_at(t)
            },
            self.scope is ProcessScoped ==> final(reg).locals == old(reg).locals,
    {
        match self.scope {
            CaptureScope::ThreadScoped(l) => l.release(reg),
            CaptureScope::ProcessScoped(g) => g.release(reg),
        }
    }
}

} // verus!
