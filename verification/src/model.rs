use crate::entry::{entered, ProfileEntry, Table};
use crate::frame::{can_close, can_flush, closed, flushed, resumed, CallFrame};
use crate::name::FunctionName;
use vstd::prelude::*;

verus! {

/// Which frames an unwinding takes off the top of the stack.
#[derive(Clone, Copy, Debug, PartialEq, Eq, Structural)]
pub enum Unwind {
    /// Those entered deeper than the given depth.
    Deeper(usize),
    /// Those entered at the given depth.
    At(usize),
    /// All of them.
    All,
}

/// Whether an unwinding of kind `which` takes `f` off when it is on top.
pub open spec fn pops(f: CallFrame, which: Unwind) -> bool {
    match which {
        Unwind::Deeper(level) => f.level > level,
        Unwind::At(level) => f.level == level,
        Unwind::All => true,
    }
}

/// How many frames an unwinding leaves: frames go from the top for as long
/// as the top one is taken.
pub open spec fn kept(st: Seq<CallFrame>, which: Unwind) -> nat
    decreases st.len(),
{
    if st.len() == 0 {
        0
    } else if pops(st.last(), which) {
        kept(st.drop_last(), which)
    } else {
        st.len()
    }
}

/// The table after all of `frames` returned at `now`, the last of them
/// first: each is resumed and then closed.
pub open spec fn closed_all(t: Table, frames: Seq<CallFrame>, now: u64) -> Table
    decreases frames.len(),
{
    if frames.len() == 0 {
        t
    } else {
        closed(closed_all(t, frames.drop_first(), now), resumed(frames.first(), now), now)
    }
}

/// The stack with its top frame, if any, marked suspended.
pub open spec fn top_suspended(st: Seq<CallFrame>) -> Seq<CallFrame> {
    if st.len() > 0 {
        st.update(st.len() - 1, CallFrame { suspended: true, ..st.last() })
    } else {
        st
    }
}

/// The stack with its top frame, if any, resumed at `now`.
pub open spec fn top_resumed(st: Seq<CallFrame>, now: u64) -> Seq<CallFrame> {
    if st.len() > 0 {
        st.update(st.len() - 1, resumed(st.last(), now))
    } else {
        st
    }
}

/// The stack after a call event.
pub open spec fn call_frames(st: Seq<CallFrame>, f: CallFrame) -> Seq<CallFrame> {
    top_suspended(st).push(f)
}

/// The table after a call event: the caller's self time is flushed, then
/// the callee is entered.
pub open spec fn call_table(
    t: Table,
    st: Seq<CallFrame>,
    key: usize,
    name: Option<FunctionName>,
    now: u64,
) -> Table {
    let paused = if st.len() > 0 {
        flushed(t, st.last(), now)
    } else {
        t
    };
    entered(paused, key, name)
}

/// The frames left by an unwinding.
pub open spec fn unwound_frames(st: Seq<CallFrame>, which: Unwind) -> Seq<CallFrame> {
    st.take(kept(st, which) as int)
}

/// The table after an unwinding at `now`.
pub open spec fn unwound_table(t: Table, st: Seq<CallFrame>, which: Unwind, now: u64) -> Table {
    closed_all(t, st.skip(kept(st, which) as int), now)
}

/// The stack after a return event at `level`: first the frames entered
/// deeper go, then those entered at `level`, and what is then on top runs again.
pub open spec fn return_frames(st: Seq<CallFrame>, level: usize, now: u64) -> Seq<CallFrame> {
    let reconciled = unwound_frames(st, Unwind::Deeper(level));
    top_resumed(unwound_frames(reconciled, Unwind::At(level)), now)
}

/// The table after a return event at `level`.
pub open spec fn return_table(t: Table, st: Seq<CallFrame>, level: usize, now: u64) -> Table {
    let reconciled = unwound_frames(st, Unwind::Deeper(level));
    unwound_table(
        unwound_table(t, st, Unwind::Deeper(level), now),
        reconciled,
        Unwind::At(level),
        now,
    )
}

/// How many frames of the stack belong to `key`.
pub open spec fn open_count(st: Seq<CallFrame>, key: usize) -> nat
    decreases st.len(),
{
    if st.len() == 0 {
        0
    } else {
        open_count(st.drop_last(), key) + if st.last().key.0 == key {
            1nat
        } else {
            0nat
        }
    }
}

/// When the outermost open invocation of `key` was entered (zero where
/// none is open).
pub open spec fn outer_entry(st: Seq<CallFrame>, key: usize) -> u64
    decreases st.len(),
{
    if st.len() == 0 {
        0
    } else if open_count(st.drop_last(), key) > 0 {
        outer_entry(st.drop_last(), key)
    } else if st.last().key.0 == key {
        st.last().entry
    } else {
        0
    }
}

/// The time up to which self time has been handed out: the start of the
/// running frame's current stretch, or the clock where no frame runs.
pub open spec fn horizon(st: Seq<CallFrame>, clock: u64) -> u64 {
    if st.len() > 0 && !st.last().suspended {
        st.last().inner_start
    } else {
        clock
    }
}

/// What holds of one entry, given how many of its invocations are open,
/// when the outermost of them was entered, and the horizon.
pub open spec fn entry_ok(e: ProfileEntry, open: nat, outer: u64, limit: u64) -> bool {
    &&& e.recursion_depth == open
    &&& e.calls >= 1
    &&& e.calls >= e.recursion_depth
    &&& e.total_time <= limit
    &&& open == 0 ==> e.total_self_time <= e.total_time
    &&& open > 0 ==> e.total_time <= outer && outer <= limit && e.total_self_time + outer
        <= e.total_time + limit
}

/// What holds of stack and table between any two steps: every frame has
/// its entry, only the top frame may run, and every entry agrees with the stack.
pub open spec fn consistent(st: Seq<CallFrame>, t: Table, clock: u64) -> bool {
    &&& forall|i: int| 0 <= i < st.len() ==> t.contains_key((#[trigger] st[i]).key.0)
    &&& forall|i: int| 0 <= i < st.len() - 1 ==> (#[trigger] st[i]).suspended
    &&& horizon(st, clock) <= clock
    &&& forall|k: usize| #[trigger]
        t.contains_key(k) ==> entry_ok(
            t[k],
            open_count(st, k),
            outer_entry(st, k),
            horizon(st, clock),
        )
}

/// What holds of stack and table between two events: they are consistent
/// and the top frame runs.
pub open spec fn settled(st: Seq<CallFrame>, t: Table, clock: u64) -> bool {
    &&& consistent(st, t, clock)
    &&& st.len() > 0 ==> !st.last().suspended
}

/// A frame of `key` anywhere on the stack is counted.
pub proof fn lemma_counted(st: Seq<CallFrame>, i: int)
    requires
        0 <= i < st.len(),
    ensures
        open_count(st, st[i].key.0) >= 1,
    decreases st.len(),
{
    if i < st.len() - 1 {
        lemma_counted(st.drop_last(), i);
    }
}

/// Closing the top frame at a time not before the clock can be done, and
/// leaves stack and table consistent at that time.
pub proof fn lemma_close_top(st: Seq<CallFrame>, t: Table, clock: u64, now: u64)
    requires
        consistent(st, t, clock),
        st.len() > 0,
        now >= clock,
    ensures
        can_close(t, resumed(st.last(), now), now),
        consistent(st.drop_last(), closed(t, resumed(st.last(), now), now), now),
{
    let f = resumed(st.last(), now);
    let rest = st.drop_last();
    let t2 = closed(t, f, now);
    let kf = f.key.0;
    assert(t.contains_key(st[st.len() - 1].key.0));
    lemma_counted(st, st.len() - 1);
    assert(can_close(t, f, now));
    assert(horizon(rest, now) == now) by {
        if rest.len() > 0 {
            assert(rest.last() == st[st.len() - 2]);
        }
    }
    assert forall|i: int| 0 <= i < rest.len() implies t2.contains_key((#[trigger] rest[i]).key.0) by {
        assert(rest[i] == st[i]);
    }
    assert forall|i: int| 0 <= i < rest.len() - 1 implies (#[trigger] rest[i]).suspended by {
        assert(rest[i] == st[i]);
    }
    assert forall|k: usize| #[trigger] t2.contains_key(k) implies entry_ok(
        t2[k],
        open_count(rest, k),
        outer_entry(rest, k),
        horizon(rest, now),
    ) by {
        assert(t.contains_key(k));
        assert(entry_ok(t[k], open_count(st, k), outer_entry(st, k), horizon(st, clock)));
    }
}

/// A call event at a time not before the clock can be done, and leaves
/// stack and table settled at that time.
pub proof fn lemma_call(
    st: Seq<CallFrame>,
    t: Table,
    clock: u64,
    now: u64,
    f: CallFrame,
    name: Option<FunctionName>,
)
    requires
        settled(st, t, clock),
        now >= clock,
        f.entry == now,
        f.inner_start == now,
        !f.suspended,
        t.contains_key(f.key.0) ==> t[f.key.0].calls < usize::MAX,
    ensures
        st.len() > 0 ==> can_flush(t, st.last(), now),
        settled(call_frames(st, f), call_table(t, st, f.key.0, name, now), now),
{
    let st1 = top_suspended(st);
    let st2 = call_frames(st, f);
    let t1 = if st.len() > 0 {
        flushed(t, st.last(), now)
    } else {
        t
    };
    let t2 = call_table(t, st, f.key.0, name, now);
    if st.len() > 0 {
        assert(t.contains_key(st[st.len() - 1].key.0));
        lemma_counted(st, st.len() - 1);
        assert(st1.drop_last() =~= st.drop_last());
    }
    assert(st1 =~= st || st.len() > 0);
    assert(st2.drop_last() =~= st1);
    assert forall|k: usize| open_count(st1, k) == open_count(st, k) && outer_entry(st1, k)
        == outer_entry(st, k) by {
        if st.len() == 0 {
            assert(st1 =~= st);
        }
    }
    assert forall|i: int| 0 <= i < st2.len() implies t2.contains_key((#[trigger] st2[i]).key.0) by {
        if i < st.len() {
            assert(st2[i].key == st[i].key);
            assert(t.contains_key(st[i].key.0));
        }
    }
    assert forall|i: int| 0 <= i < st2.len() - 1 implies (#[trigger] st2[i]).suspended by {
        if i < st.len() - 1 {
            assert(st2[i] == st[i]);
        }
    }
    assert(horizon(st2, now) == now);
    assert forall|k: usize| #[trigger] t2.contains_key(k) implies entry_ok(
        t2[k],
        open_count(st2, k),
        outer_entry(st2, k),
        horizon(st2, now),
    ) by {
        if t.contains_key(k) {
            assert(entry_ok(t[k], open_count(st, k), outer_entry(st, k), horizon(st, clock)));
            assert(t1.contains_key(k));
        } else {
            assert(k == f.key.0);
            lemma_uncounted(st, t, k);
        }
    }
}

/// A key without an entry has no frame on a stack whose frames all have entries.
pub proof fn lemma_uncounted(st: Seq<CallFrame>, t: Table, key: usize)
    requires
        forall|i: int| 0 <= i < st.len() ==> t.contains_key((#[trigger] st[i]).key.0),
        !t.contains_key(key),
    ensures
        open_count(st, key) == 0,
    decreases st.len(),
{
    if st.len() > 0 {
        assert(t.contains_key(st[st.len() - 1].key.0));
        assert forall|i: int| 0 <= i < st.drop_last().len() implies t.contains_key(
            (#[trigger] st.drop_last()[i]).key.0,
        ) by {
            assert(st.drop_last()[i] == st[i]);
        }
        lemma_uncounted(st.drop_last(), t, key);
    }
}

/// Resuming the top frame at the clock's time leaves a consistent stack
/// settled.
pub proof fn lemma_resume_top(st: Seq<CallFrame>, t: Table, now: u64)
    requires
        consistent(st, t, now),
    ensures
        settled(top_resumed(st, now), t, now),
{
    let st1 = top_resumed(st, now);
    if st.len() > 0 {
        assert(st1.drop_last() =~= st.drop_last());
        assert forall|i: int| 0 <= i < st1.len() implies t.contains_key((#[trigger] st1[i]).key.0) by {
            assert(st1[i].key == st[i].key);
            assert(t.contains_key(st[i].key.0));
        }
        assert forall|i: int| 0 <= i < st1.len() - 1 implies (#[trigger] st1[i]).suspended by {
            assert(st1[i] == st[i]);
        }
        assert forall|k: usize| #[trigger] t.contains_key(k) implies entry_ok(
            t[k],
            open_count(st1, k),
            outer_entry(st1, k),
            horizon(st1, now),
        ) by {
            assert(entry_ok(t[k], open_count(st, k), outer_entry(st, k), horizon(st, now)));
        }
    }
}

/// A consistent stack stays consistent as the clock goes on.
pub proof fn lemma_clock_advances(st: Seq<CallFrame>, t: Table, clock: u64, now: u64)
    requires
        consistent(st, t, clock),
        now >= clock,
    ensures
        consistent(st, t, now),
{
    assert forall|k: usize| #[trigger] t.contains_key(k) implies entry_ok(
        t[k],
        open_count(st, k),
        outer_entry(st, k),
        horizon(st, now),
    ) by {
        assert(entry_ok(t[k], open_count(st, k), outer_entry(st, k), horizon(st, clock)));
    }
}

/// What an unwinding keeps is a prefix of the stack; every frame above it
/// is one that the unwinding takes, and the frame on top of it is not.
pub proof fn lemma_kept(st: Seq<CallFrame>, which: Unwind)
    ensures
        kept(st, which) <= st.len(),
        forall|i: int| kept(st, which) <= i < st.len() ==> pops(#[trigger] st[i], which),
        kept(st, which) > 0 ==> !pops(st[kept(st, which) - 1], which),
    decreases st.len(),
{
    if st.len() > 0 && pops(st.last(), which) {
        let rest = st.drop_last();
        lemma_kept(rest, which);
        assert forall|i: int| kept(st, which) <= i < st.len() implies pops(
            #[trigger] st[i],
            which,
        ) by {
            if i < rest.len() {
                assert(rest[i] == st[i]);
            }
        }
        if kept(st, which) > 0 {
            assert(rest[kept(st, which) - 1] == st[kept(st, which) - 1]);
        }
    }
}

} // verus!

