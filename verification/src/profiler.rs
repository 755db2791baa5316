use crate::budget::{
    lemma_budget_call, lemma_budget_close_top, lemma_budget_empty, lemma_budget_later,
    within_budget,
};
use crate::entry::{FunctionKey, ProfileEntry, ProfilingResult, Table};
use crate::frame::{elapsed, since, CallFrame};
use crate::model::{
    call_frames, call_table, closed_all, consistent, horizon, kept, lemma_call,
    lemma_clock_advances,
    lemma_close_top, lemma_kept, lemma_resume_top, pops, return_frames, return_table,
    unwound_frames, unwound_table, Unwind,
};
use crate::name::FunctionName;
use vstd::prelude::*;

verus! {

/// Why a session could not be started.
#[derive(Clone, Copy, Debug, PartialEq, Eq, Structural)]
pub enum SessionError {
    /// A session is already running on this profiler.
    AlreadyActive,
}

/// The profiling engine: the stack of open invocations and the result in
/// progress. At most one session runs on it at a time.
#[derive(Clone, Debug, PartialEq, Eq)]
pub struct Profiler {
    result: Option<ProfilingResult>,
    stack: Vec<CallFrame>,
    clock: u64,
    started: u64,
}

/// Whether every entry of a finished table is closed, with its self time
/// within its total time and its total time within `limit`.
pub open spec fn all_closed(t: Table, limit: u64) -> bool {
    forall|k: usize| #[trigger]
        t.contains_key(k) ==> {
            &&& t[k].recursion_depth == 0
            &&& t[k].calls >= 1
            &&& t[k].total_self_time <= t[k].total_time
            &&& t[k].total_time <= limit
        }
}

impl Profiler {
    /// Whether a session is running.
    pub closed spec fn active(&self) -> bool {
        self.result.is_some()
    }

    /// The open invocations, outermost first.
    pub closed spec fn frames(&self) -> Seq<CallFrame> {
        self.stack@
    }

    /// The entries gathered so far in the running session.
    pub closed spec fn table(&self) -> Table {
        self.result.unwrap().table()
    }

    /// The time of the latest event.
    pub closed spec fn now(&self) -> u64 {
        self.clock
    }

    /// When the running session began.
    pub closed spec fn began(&self) -> u64 {
        self.started
    }

    /// The session time of the result in progress.
    pub closed spec fn pending_total(&self) -> Option<u64> {
        self.result.unwrap().total_time
    }

    /// The engine's invariant: without a session the stack is empty; in a
    /// session, stack and table are consistent, the self times handed out
    /// are within the time gone by since the session began, and the session
    /// time is not yet set.
    pub open spec fn wf(&self) -> bool {
        if self.active() {
            &&& consistent(self.frames(), self.table(), self.now())
            &&& within_budget(self.table(), self.began(), horizon(self.frames(), self.now()))
            &&& self.pending_total().is_none()
        } else {
            self.frames().len() == 0
        }
    }

    /// Whether the frame on top of the stack, if any, is running.
    pub open spec fn running(&self) -> bool {
        self.frames().len() > 0 ==> !self.frames().last().suspended
    }

    /// Whether the name of `key` is still to be resolved: only while the
    /// function has not been seen in this session.
    pub open spec fn wants_name(&self, key: FunctionKey) -> bool {
        !self.table().contains_key(key.0)
    }

    /// Whether one more call of `key` can be counted.
    pub open spec fn can_count(&self, key: FunctionKey) -> bool {
        self.table().contains_key(key.0) ==> self.table()[key.0].calls < usize::MAX
    }

    /// An engine with no session.
    pub fn new() -> (p: Self)
        ensures
            !p.active(),
            p.wf(),
            p.frames().len() == 0,
    {
        Profiler { result: None, stack: Vec::new(), clock: 0, started: 0 }
    }

    /// Whether a session is running.
    pub fn is_active(&self) -> (b: bool)
        ensures
            b == self.active(),
    {
        self.result.is_some()
    }

    /// How many invocations are open.
    pub fn depth(&self) -> (n: usize)
        ensures
            n == self.frames().len(),
    {
        self.stack.len()
    }

    /// The frame on top of the stack, if any.
    pub fn top(&self) -> (f: Option<CallFrame>)
        ensures
            match f {
                Some(top) => self.frames().len() > 0 && top == self.frames().last(),
                None => self.frames().len() == 0,
            },
    {
        let n = self.stack.len();
        if n == 0 {
            None
        } else {
            Some(self.stack[n - 1])
        }
    }

    /// The time of the latest event.
    pub fn clock(&self) -> (t: u64)
        ensures
            t == self.now(),
    {
        self.clock
    }

    /// The entry of `key` in the running session, if that function was seen.
    pub fn entry(&self, key: FunctionKey) -> (e: Option<&ProfileEntry>)
        requires
            self.active(),
        ensures
            match e {
                Some(found) => self.table().contains_key(key.0) && *found == self.table()[key.0],
                None => !self.table().contains_key(key.0),
            },
    {
        match &self.result {
            Some(r) => r.get(key),
            None => None,
        }
    }

    /// Whether a call of `key` should come with a resolved name: only the
    /// first call of a function in a session does. A function whose name
    /// could not be resolved then keeps none, and is not asked about again.
    pub fn needs_name(&self, key: FunctionKey) -> (b: bool)
        requires
            self.active(),
        ensures
            b == self.wants_name(key),
    {
        self.entry(key).is_none()
    }

    /// Starts a session at `now` with an empty stack and an empty result,
    /// unless one is running: then nothing changes.
    pub fn begin_session(&mut self, now: u64) -> (r: Result<(), SessionError>)
        requires
            old(self).wf(),
        ensures
            final(self).wf(),
            final(self).active(),
            match r {
                Ok(_) => {
                    &&& !old(self).active()
                    &&& final(self).frames() == Seq::<CallFrame>::empty()
                    &&& final(self).table() == Map::<usize, ProfileEntry>::empty()
                    &&& final(self).now() == now
                    &&& final(self).began() == now
                },
                Err(e) => {
                    &&& old(self).active()
                    &&& e == SessionError::AlreadyActive
                    &&& *final(self) == *old(self)
                },
            },
    {
        if self.result.is_some() {
            return Err(SessionError::AlreadyActive);
        }
        proof {
            lemma_budget_empty(now, now);
        }
        self.stack = Vec::new();
        self.result = Some(ProfilingResult::new());
        self.clock = now;
        self.started = now;
        Ok(())
    }

    /// Gives up the running session, if any, without a result.
    pub fn abort_session(&mut self)
        ensures
            !final(self).active(),
            final(self).wf(),
            final(self).frames() == Seq::<CallFrame>::empty(),
    {
        self.stack = Vec::new();
        self.result = None;
    }

    fn top_pops(&self, which: Unwind) -> (b: bool)
        ensures
            b == (self.frames().len() > 0 && pops(self.frames().last(), which)),
    {
        let n = self.stack.len();
        if n == 0 {
            return false;
        }
        let top = self.stack[n - 1];
        match which {
            Unwind::Deeper(level) => top.level > level,
            Unwind::At(level) => top.level == level,
            Unwind::All => true,
        }
    }

    /// Takes frames off the top for as long as `which` takes the top one;
    /// each is resumed and closed at `now`.
    fn unwind(&mut self, which: Unwind, now: u64)
        requires
            old(self).active(),
            old(self).wf(),
            now >= old(self).now(),
        ensures
            final(self).active(),
            final(self).wf(),
            final(self).now() == now,
            final(self).began() == old(self).began(),
            final(self).frames() == unwound_frames(old(self).frames(), which),
            final(self).table() == unwound_table(
                old(self).table(),
                old(self).frames(),
                which,
                now,
            ),
    {
        let ghost st0 = self.stack@;
        let ghost t0 = self.table();
        proof {
            lemma_clock_advances(st0, t0, self.clock, now);
            lemma_budget_later(
                t0,
                self.started,
                horizon(st0, self.clock),
                horizon(st0, now),
            );
            lemma_kept(st0, which);
            assert(st0.take(st0.len() as int) =~= st0);
            assert(st0.skip(st0.len() as int) =~= Seq::<CallFrame>::empty());
        }
        self.clock = now;
        while self.top_pops(which)
            invariant
                self.active(),
                self.wf(),
                self.clock == now,
                self.started == old(self).started,
                self.stack@.len() <= st0.len(),
                self.stack@ == st0.take(self.stack@.len() as int),
                kept(self.stack@, which) == kept(st0, which),
                self.table() == closed_all(t0, st0.skip(self.stack@.len() as int), now),
            decreases self.stack@.len(),
        {
            let ghost st = self.stack@;
            let ghost t = self.table();
            proof {
                lemma_close_top(st, t, now, now);
                lemma_budget_close_top(st, t, now, now, self.started);
            }
            let mut f = self.stack.pop().unwrap();
            f.resume(now);
            let mut r = self.result.take().unwrap();
            f.close(&mut r, now);
            self.result = Some(r);
            proof {
                let n = self.stack@.len() as int;
                assert(self.stack@ =~= st.drop_last());
                assert(self.stack@ =~= st0.take(n));
                assert(st0.skip(n).first() == st.last());
                assert(st0.skip(n).drop_first() =~= st0.skip(n + 1));
            }
        }
        proof {
            lemma_kept(self.stack@, which);
        }
    }

    /// Makes sure that no frame entered deeper than `level` is left on the
    /// stack: such frames were left without a return event, and are closed
    /// at `now`, the most recent first. Where the stack is empty or its top
    /// frame is not deeper than `level`, stack and table stay as they are;
    /// without a session nothing changes at all.
    pub fn set_stack_to(&mut self, level: usize, now: u64)
        requires
            old(self).wf(),
            old(self).active() ==> now >= old(self).now(),
        ensures
            final(self).active() == old(self).active(),
            final(self).wf(),
            !old(self).active() ==> *final(self) == *old(self),
            old(self).active() ==> {
                &&& final(self).now() == now
                &&& final(self).began() == old(self).began()
                &&& final(self).frames() == unwound_frames(
                    old(self).frames(),
                    Unwind::Deeper(level),
                )
                &&& final(self).table() == unwound_table(
                    old(self).table(),
                    old(self).frames(),
                    Unwind::Deeper(level),
                    now,
                )
            },
            old(self).active() && (old(self).frames().len() == 0 || old(
                self,
            ).frames().last().level <= level) ==> final(self).frames() == old(self).frames()
                && final(self).table() == old(self).table(),
            final(self).frames().len() > 0 ==> final(self).frames().last().level <= level,
            forall|i: int|
                final(self).frames().len() <= i < old(self).frames().len() ==> (
                #[trigger] old(self).frames()[i]).level > level,
    {
        if self.result.is_none() {
            return ;
        }
        proof {
            let st = old(self).frames();
            lemma_kept(st, Unwind::Deeper(level));
            if st.len() == 0 || st.last().level <= level {
                assert(st.take(st.len() as int) =~= st);
                assert(st.skip(st.len() as int) =~= Seq::<CallFrame>::empty());
            }
        }
        self.unwind(Unwind::Deeper(level), now);
    }

    /// Handles the entry into `key` at depth `level` at `now`: the caller's
    /// self time up to `now` is recorded and its clock stopped, the call is
    /// counted, and a new frame is pushed. `name` becomes the function's
    /// name where this is its first call in the session; on a later call it
    /// is not looked at.
    pub fn call_event(
        &mut self,
        key: FunctionKey,
        level: usize,
        now: u64,
        name: Option<FunctionName>,
    )
        requires
            old(self).active(),
            old(self).wf(),
            old(self).running(),
            old(self).can_count(key),
            now >= old(self).now(),
        ensures
            final(self).active(),
            final(self).wf(),
            final(self).running(),
            final(self).now() == now,
            final(self).began() == old(self).began(),
            final(self).frames() == call_frames(
                old(self).frames(),
                (CallFrame { entry: now, inner_start: now, level, key, suspended: false }),
            ),
            final(self).table() == call_table(
                old(self).table(),
                old(self).frames(),
                key.0,
                name,
                now,
            ),
    {
        let ghost st = self.stack@;
        let ghost t = self.table();
        let frame = CallFrame::new(level, key, now);
        proof {
            lemma_call(st, t, self.clock, now, frame, name);
            lemma_budget_call(st, t, self.clock, now, frame, name, self.started);
        }
        let mut r = self.result.take().unwrap();
        let n = self.stack.len();
        if n > 0 {
            let mut top = self.stack[n - 1];
            top.suspend(&mut r, now);
            self.stack.set(n - 1, top);
        }
        r.enter(key, name);
        self.stack.push(frame);
        self.result = Some(r);
        self.clock = now;
        proof {
            assert(self.stack@ =~= call_frames(st, frame));
        }
    }

    /// Handles the entry into `key` as `call_event` does, and asks
    /// `resolver` for the name only on the function's first call in the
    /// session: whatever it answers then, it is not asked again for that
    /// function.
    pub fn call_event_with<F: FnOnce() -> Option<FunctionName>>(
        &mut self,
        key: FunctionKey,
        level: usize,
        now: u64,
        resolver: F,
    )
        requires
            old(self).active(),
            old(self).wf(),
            old(self).running(),
            old(self).can_count(key),
            now >= old(self).now(),
            old(self).wants_name(key) ==> resolver.requires(()),
        ensures
            final(self).active(),
            final(self).wf(),
            final(self).running(),
            final(self).now() == now,
            final(self).began() == old(self).began(),
            final(self).frames() == call_frames(
                old(self).frames(),
                (CallFrame { entry: now, inner_start: now, level, key, suspended: false }),
            ),
            !old(self).wants_name(key) ==> final(self).table() == call_table(
                old(self).table(),
                old(self).frames(),
                key.0,
                None,
                now,
            ),
            old(self).wants_name(key) ==> exists|name: Option<FunctionName>|
                #[trigger] resolver.ensures((), name) && final(self).table() == call_table(
                    old(self).table(),
                    old(self).frames(),
                    key.0,
                    name,
                    now,
                ),
    {
        let name = if self.needs_name(key) {
            resolver()
        } else {
            None
        };
        self.call_event(key, level, now, name);
    }

    /// Handles a return at depth `level` at `now`: frames entered deeper
    /// are closed first, then those entered at `level`, each the most
    /// recent first; the frame then on top runs again.
    pub fn return_event(&mut self, level: usize, now: u64)
        requires
            old(self).active(),
            old(self).wf(),
            now >= old(self).now(),
        ensures
            final(self).active(),
            final(self).wf(),
            final(self).running(),
            final(self).now() == now,
            final(self).began() == old(self).began(),
            final(self).frames() == return_frames(old(self).frames(), level, now),
            final(self).table() == return_table(old(self).table(), old(self).frames(), level, now),
    {
        self.set_stack_to(level, now);
        self.unwind(Unwind::At(level), now);
        proof {
            lemma_resume_top(self.stack@, self.table(), now);
        }
        let n = self.stack.len();
        if n > 0 {
            let mut top = self.stack[n - 1];
            top.resume(now);
            self.stack.set(n - 1, top);
        }
        proof {
            assert(self.stack@ =~= return_frames(old(self).frames(), level, now));
        }
    }

    /// Ends the session at `now`: every frame still open is closed, the
    /// most recent first, and the result is handed over with the time the
    /// session took.
    pub fn end_session(&mut self, now: u64) -> (r: ProfilingResult)
        requires
            old(self).active(),
            old(self).wf(),
            now >= old(self).now(),
        ensures
            !final(self).active(),
            final(self).wf(),
            final(self).now() == now,
            final(self).frames() == Seq::<CallFrame>::empty(),
            r.table() == closed_all(old(self).table(), old(self).frames(), now),
            r.total_time == Some(elapsed(old(self).began(), now) as u64),
            all_closed(r.table(), now),
            within_budget(r.table(), old(self).began(), now),
    {
        proof {
            lemma_kept(self.stack@, Unwind::All);
            assert(self.stack@.skip(0) =~= self.stack@);
        }
        self.unwind(Unwind::All, now);
        let mut r = self.result.take().unwrap();
        r.total_time = Some(since(self.started, now));
        r
    }
}

} // verus!
