use crate::budget::within_budget;
use crate::clock::Stopwatch;
use crate::entry::{FunctionKey, ProfileEntry, ProfilingResult};
use crate::frame::{elapsed, CallFrame};
use crate::model::{call_frames, call_table, closed_all, return_frames, return_table};
use crate::name::FunctionName;
use crate::profiler::{all_closed, Profiler, SessionError};
use vstd::prelude::*;

verus! {

/// An engine together with the clock that times its events: each event
/// is handled at the clock's reading at that moment.
pub struct Recorder {
    engine: Profiler,
    watch: Stopwatch,
}

impl Recorder {
    /// The engine in its present state.
    pub closed spec fn engine(&self) -> Profiler {
        self.engine
    }

    /// The engine is well formed, and in a session its clock is not ahead of
    /// the stopwatch.
    pub closed spec fn wf(&self) -> bool {
        &&& self.engine.wf()
        &&& self.engine.active() ==> self.engine.now() <= self.watch.reading()
    }

    /// A recorder with no session, its clock started now.
    pub fn new() -> (r: Self)
        ensures
            r.wf(),
            !r.engine().active(),
    {
        Recorder { engine: Profiler::new(), watch: Stopwatch::start() }
    }

    /// The engine, to look at.
    pub fn profiler(&self) -> (p: &Profiler)
        ensures
            *p == self.engine(),
    {
        &self.engine
    }

    /// Starts a session at the clock's reading, unless one is running: then
    /// nothing changes.
    pub fn begin(&mut self) -> (r: Result<(), SessionError>)
        requires
            old(self).wf(),
        ensures
            final(self).wf(),
            final(self).engine().active(),
            match r {
                Ok(_) => {
                    &&& !old(self).engine().active()
                    &&& final(self).engine().frames() == Seq::<CallFrame>::empty()
                    &&& final(self).engine().table() == Map::<usize, ProfileEntry>::empty()
                    &&& final(self).engine().began() == final(self).engine().now()
                },
                Err(e) => {
                    &&& old(self).engine().active()
                    &&& e == SessionError::AlreadyActive
                    &&& *final(self) == *old(self)
                },
            },
    {
        if self.engine.is_active() {
            return Err(SessionError::AlreadyActive);
        }
        let now = self.watch.read();
        self.engine.begin_session(now)
    }

    /// Handles the entry into `key` at depth `level` at the clock's
    /// reading; `resolver` is asked for the name only on the function's first
    /// call in the session.
    pub fn on_call<F: FnOnce() -> Option<FunctionName>>(
        &mut self,
        key: FunctionKey,
        level: usize,
        resolver: F,
    )
        requires
            old(self).wf(),
            old(self).engine().active(),
            old(self).engine().running(),
            old(self).engine().can_count(key),
            old(self).engine().wants_name(key) ==> resolver.requires(()),
        ensures
            final(self).wf(),
            final(self).engine().active(),
            final(self).engine().running(),
            final(self).engine().now() >= old(self).engine().now(),
            final(self).engine().began() == old(self).engine().began(),
            final(self).engine().frames() == call_frames(
                old(self).engine().frames(),
                (CallFrame {
                    entry: final(self).engine().now(),
                    inner_start: final(self).engine().now(),
                    level,
                    key,
                    suspended: false,
                }),
            ),
            !old(self).engine().wants_name(key) ==> final(self).engine().table() == call_table(
                old(self).engine().table(),
                old(self).engine().frames(),
                key.0,
                None,
                final(self).engine().now(),
            ),
            old(self).engine().wants_name(key) ==> exists|name: Option<FunctionName>|
                #[trigger] resolver.ensures((), name) && final(self).engine().table()
                    == call_table(
                    old(self).engine().table(),
                    old(self).engine().frames(),
                    key.0,
                    name,
                    final(self).engine().now(),
                ),
    {
        let now = self.watch.read();
        self.engine.call_event_with(key, level, now, resolver);
    }

    /// Handles a return at depth `level` at the clock's reading.
    pub fn on_return(&mut self, level: usize)
        requires
            old(self).wf(),
            old(self).engine().active(),
        ensures
            final(self).wf(),
            final(self).engine().active(),
            final(self).engine().running(),
            final(self).engine().now() >= old(self).engine().now(),
            final(self).engine().began() == old(self).engine().began(),
            final(self).engine().frames() == return_frames(
                old(self).engine().frames(),
                level,
                final(self).engine().now(),
            ),
            final(self).engine().table() == return_table(
                old(self).engine().table(),
                old(self).engine().frames(),
                level,
                final(self).engine().now(),
            ),
    {
        let now = self.watch.read();
        self.engine.return_event(level, now);
    }

    /// Ends the session at the clock's reading and hands over the result:
    /// every frame still open is closed, and the session time is set.
    pub fn finish(&mut self) -> (r: ProfilingResult)
        requires
            old(self).wf(),
            old(self).engine().active(),
        ensures
            final(self).wf(),
            !final(self).engine().active(),
            final(self).engine().frames() == Seq::<CallFrame>::empty(),
            final(self).engine().now() >= old(self).engine().now(),
            r.table() == closed_all(
                old(self).engine().table(),
                old(self).engine().frames(),
                final(self).engine().now(),
            ),
            r.total_time == Some(
                elapsed(old(self).engine().began(), final(self).engine().now()) as u64,
            ),
            all_closed(r.table(), final(self).engine().now()),
            within_budget(
                r.table(),
                old(self).engine().began(),
                final(self).engine().now(),
            ),
    {
        let now = self.watch.read();
        self.engine.end_session(now)
    }

    /// Closes the session once the profiled function is done: where it
    /// succeeded the session is ended and the result handed over; where it
    /// failed the session is given up and there is no result. Either way no
    /// session is running afterwards.
    pub fn conclude(&mut self, succeeded: bool) -> (r: Option<ProfilingResult>)
        requires
            old(self).wf(),
            old(self).engine().active(),
        ensures
            final(self).wf(),
            !final(self).engine().active(),
            final(self).engine().frames() == Seq::<CallFrame>::empty(),
            r.is_some() == succeeded,
            match r {
                Some(result) => {
                    &&& final(self).engine().now() >= old(self).engine().now()
                    &&& result.table() == closed_all(
                        old(self).engine().table(),
                        old(self).engine().frames(),
                        final(self).engine().now(),
                    )
                    &&& result.total_time == Some(
                        elapsed(old(self).engine().began(), final(self).engine().now()) as u64,
                    )
                    &&& all_closed(result.table(), final(self).engine().now())
                    &&& within_budget(
                        result.table(),
                        old(self).engine().began(),
                        final(self).engine().now(),
                    )
                },
                None => true,
            },
    {
        if succeeded {
            Some(self.finish())
        } else {
            self.abort();
            None
        }
    }

    /// Gives up the running session, if any, without a result.
    pub fn abort(&mut self)
        ensures
            final(self).wf(),
            !final(self).engine().active(),
            final(self).engine().frames() == Seq::<CallFrame>::empty(),
    {
        self.engine.abort_session();
    }
}

} // verus!
