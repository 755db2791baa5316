use crate::budget::{self_sum, within_budget};
use crate::entry::{entered, Table};
use crate::frame::{can_close, closed, elapsed, flushed, resumed, CallFrame};
use crate::model::{
    call_frames, call_table, closed_all, consistent, kept, lemma_close_top, lemma_counted,
    lemma_kept, open_count, outer_entry, return_frames, return_table, top_resumed,
    unwound_frames, Unwind,
};
use crate::name::FunctionName;
use vstd::prelude::*;

verus! {

/// Once no invocation of a function is open, its self time is within its
/// total time, and its entry says that none is open.
pub proof fn law_self_time_within_total(st: Seq<CallFrame>, t: Table, clock: u64, key: usize)
    requires
        consistent(st, t, clock),
        t.contains_key(key),
        open_count(st, key) == 0,
    ensures
        t[key].recursion_depth == 0,
        t[key].total_self_time <= t[key].total_time,
        t[key].total_time <= clock,
{
}

/// While invocations of a function are open, its entry counts exactly
/// them, and the self time gathered since the outermost of them was
/// entered is within the time that has gone by since.
pub proof fn law_open_entry_agrees_with_stack(
    st: Seq<CallFrame>,
    t: Table,
    clock: u64,
    key: usize,
)
    requires
        consistent(st, t, clock),
        t.contains_key(key),
        open_count(st, key) > 0,
    ensures
        t[key].recursion_depth == open_count(st, key),
        t[key].total_time <= outer_entry(st, key) <= clock,
        t[key].total_self_time - t[key].total_time <= clock - outer_entry(st, key),
{
}

/// Self time is handed to one function at a time: stopping a frame's
/// clock adds the time since its current stretch began to the entry of its
/// own function, and leaves every other entry as it was.
pub proof fn law_self_time_goes_to_one_entry(t: Table, f: CallFrame, now: u64, key: usize)
    requires
        t.contains_key(f.key.0),
        t.contains_key(key),
        t[f.key.0].total_self_time + elapsed(f.inner_start, now) <= u64::MAX,
    ensures
        key != f.key.0 ==> flushed(t, f, now)[key] == t[key] && closed(t, f, now)[key] == t[key],
        flushed(t, f, now)[f.key.0].total_self_time == t[f.key.0].total_self_time + elapsed(
            f.inner_start,
            now,
        ),
        closed(t, f, now)[f.key.0].total_self_time == t[f.key.0].total_self_time + elapsed(
            f.inner_start,
            now,
        ),
        flushed(t, f, now)[f.key.0].total_time == t[f.key.0].total_time,
{
}

/// No time is counted twice: in a table that is within its budget, the
/// self times of any distinct functions add up to no more than the time
/// from the start of the session to the limit.
pub proof fn law_self_time_never_counted_twice(
    t: Table,
    began: u64,
    limit: u64,
    keys: Seq<usize>,
)
    requires
        within_budget(t, began, limit),
        keys.no_duplicates(),
    ensures
        began <= limit,
        self_sum(t, keys) <= limit - began,
{
    assert(began + self_sum(t, Seq::<usize>::empty()) <= limit);
}

/// A frame that was suspended gains no self time when it is resumed and
/// closed in the same moment.
pub proof fn law_suspended_frame_accrues_nothing(t: Table, f: CallFrame, now: u64)
    requires
        t.contains_key(f.key.0),
        f.suspended,
    ensures
        closed(t, resumed(f, now), now)[f.key.0].total_self_time == t[f.key.0].total_self_time,
{
}

/// Total time is counted once for a chain of recursive invocations:
/// closing the top frame adds to the total time of its function only
/// where it is the last open invocation, and then what is added is the time
/// since the outermost invocation was entered.
pub proof fn law_total_time_counted_once(st: Seq<CallFrame>, t: Table, clock: u64, now: u64)
    requires
        consistent(st, t, clock),
        st.len() > 0,
        now >= clock,
    ensures
        ({
            let f = resumed(st.last(), now);
            let key = f.key.0;
            let after = closed(t, f, now);
            &&& can_close(t, f, now)
            &&& after[key].calls == t[key].calls
            &&& after[key].recursion_depth == open_count(st.drop_last(), key)
            &&& open_count(st, key) > 1 ==> after[key].total_time == t[key].total_time
            &&& open_count(st, key) == 1 ==> f.entry == outer_entry(st, key) && after[key].total_time
                == t[key].total_time + (now - outer_entry(st, key))
        }),
{
    lemma_close_top(st, t, clock, now);
    lemma_counted(st, st.len() - 1);
    assert(t.contains_key(st[st.len() - 1].key.0));
}

/// Closing frames neither adds nor removes an entry, and changes no
/// call count and no name.
pub proof fn law_returns_keep_calls_and_names(t: Table, frames: Seq<CallFrame>, now: u64)
    requires
        forall|i: int| 0 <= i < frames.len() ==> t.contains_key((#[trigger] frames[i]).key.0),
    ensures
        closed_all(t, frames, now).dom() == t.dom(),
        forall|k: usize| #[trigger]
            t.contains_key(k) ==> closed_all(t, frames, now)[k].calls == t[k].calls
                && closed_all(t, frames, now)[k].name == t[k].name,
    decreases frames.len(),
{
    if frames.len() > 0 {
        let rest = frames.drop_first();
        assert forall|i: int| 0 <= i < rest.len() implies t.contains_key(
            (#[trigger] rest[i]).key.0,
        ) by {
            assert(rest[i] == frames[i + 1]);
        }
        law_returns_keep_calls_and_names(t, rest, now);
        let before = closed_all(t, rest, now);
        let f = resumed(frames.first(), now);
        assert(t.contains_key(frames[0].key.0));
        assert(before.dom().contains(f.key.0));
        assert(closed(before, f, now).dom() =~= before.dom());
    }
}

/// A name is resolved at most once: the first call of a function takes
/// the name that comes with it, resolved or not, and every later call
/// leaves the entry's name as it is, whatever comes with the call. Each
/// call is counted once.
pub proof fn law_name_set_once(t: Table, key: usize, name: Option<FunctionName>)
    ensures
        entered(t, key, name).contains_key(key),
        t.contains_key(key) ==> entered(t, key, name)[key].name == t[key].name,
        !t.contains_key(key) ==> entered(t, key, name)[key].name == name,
        t.contains_key(key) && t[key].calls < usize::MAX ==> entered(t, key, name)[key].calls
            == t[key].calls + 1,
        !t.contains_key(key) ==> entered(t, key, name)[key].calls == 1,
        forall|k: usize| k != key && t.contains_key(k) ==> entered(t, key, name)[k] == t[k],
{
}

/// Once a function has been seen, no later event changes its name,
/// resolved or not: neither a call of that or of another function,
/// whatever name comes with the call, nor a return at any depth. So after
/// its first call a function is never again one whose name is wanted.
pub proof fn law_name_stays(
    st: Seq<CallFrame>,
    t: Table,
    key: usize,
    called: usize,
    name: Option<FunctionName>,
    level: usize,
    now: u64,
)
    requires
        forall|i: int| 0 <= i < st.len() ==> t.contains_key((#[trigger] st[i]).key.0),
        t.contains_key(key),
    ensures
        call_table(t, st, called, name, now).contains_key(key),
        call_table(t, st, called, name, now)[key].name == t[key].name,
        return_table(t, st, level, now).contains_key(key),
        return_table(t, st, level, now)[key].name == t[key].name,
{
    if st.len() > 0 {
        assert(t.contains_key(st[st.len() - 1].key.0));
    }
    let n1 = kept(st, Unwind::Deeper(level)) as int;
    lemma_kept(st, Unwind::Deeper(level));
    let mid = st.take(n1);
    let n2 = kept(mid, Unwind::At(level)) as int;
    lemma_kept(mid, Unwind::At(level));
    let orphans = st.skip(n1);
    let level_frames = mid.skip(n2);
    assert forall|i: int| 0 <= i < orphans.len() implies t.contains_key(
        (#[trigger] orphans[i]).key.0,
    ) by {
        assert(orphans[i] == st[i + n1]);
    }
    law_returns_keep_calls_and_names(t, orphans, now);
    let t1 = closed_all(t, orphans, now);
    assert forall|i: int| 0 <= i < level_frames.len() implies t1.contains_key(
        (#[trigger] level_frames[i]).key.0,
    ) by {
        assert(level_frames[i] == st[i + n2]);
        assert(t.contains_key(st[i + n2].key.0));
        assert(t1.dom().contains(st[i + n2].key.0));
    }
    law_returns_keep_calls_and_names(t1, level_frames, now);
    assert(t1.dom().contains(key));
    assert(closed_all(t1, level_frames, now).dom().contains(key));
}

/// A return at depth `level` first closes every frame entered deeper,
/// the most recent first, and only then the frames entered at `level`; the
/// frames it closes are the top of the stack, and what is left below them
/// runs again.
pub proof fn law_orphans_closed_first(st: Seq<CallFrame>, t: Table, level: usize, now: u64)
    ensures
        ({
            let n1 = kept(st, Unwind::Deeper(level)) as int;
            let n2 = kept(st.take(n1), Unwind::At(level)) as int;
            &&& 0 <= n2 <= n1 <= st.len()
            &&& forall|i: int| n1 <= i < st.len() ==> (#[trigger] st[i]).level > level
            &&& forall|i: int| n2 <= i < n1 ==> (#[trigger] st[i]).level == level
            &&& n2 > 0 ==> st[n2 - 1].level != level
            &&& n2 > 0 && n2 == n1 ==> st[n2 - 1].level < level
            &&& return_frames(st, level, now) == top_resumed(st.take(n2), now)
            &&& return_table(t, st, level, now) == closed_all(
                closed_all(t, st.skip(n1), now),
                st.subrange(n2, n1),
                now,
            )
        }),
{
    let n1 = kept(st, Unwind::Deeper(level)) as int;
    lemma_kept(st, Unwind::Deeper(level));
    let mid = st.take(n1);
    let n2 = kept(mid, Unwind::At(level)) as int;
    lemma_kept(mid, Unwind::At(level));
    assert forall|i: int| n2 <= i < n1 implies (#[trigger] st[i]).level == level by {
        assert(mid[i] == st[i]);
    }
    assert(mid.take(n2) =~= st.take(n2));
    assert(mid.skip(n2) =~= st.subrange(n2, n1));
    if n2 > 0 {
        assert(mid[n2 - 1] == st[n2 - 1]);
    }
}

/// Whether no frame was entered deeper than a frame above it on the stack.
pub open spec fn levels_ordered(st: Seq<CallFrame>) -> bool {
    forall|i: int, j: int| 0 <= i <= j < st.len() ==> st[i].level <= st[j].level
}

/// The levels on the stack stay in order: a call that is not shallower
/// than the frame on top keeps them so, and so does a return at any depth;
/// after a return at depth `level` every frame left was entered above that depth.
pub proof fn law_levels_stay_ordered(st: Seq<CallFrame>, f: CallFrame, level: usize, now: u64)
    requires
        levels_ordered(st),
    ensures
        st.len() == 0 || st.last().level <= f.level ==> levels_ordered(call_frames(st, f)),
        levels_ordered(return_frames(st, level, now)),
        forall|i: int|
            0 <= i < return_frames(st, level, now).len() ==> (#[trigger] return_frames(
                st,
                level,
                now,
            )[i]).level < level,
{
    if st.len() == 0 || st.last().level <= f.level {
        let after = call_frames(st, f);
        assert forall|i: int, j: int| 0 <= i <= j < after.len() implies after[i].level
            <= after[j].level by {
            if j < st.len() {
                assert(after[i].level == st[i].level && after[j].level == st[j].level);
            } else if i < st.len() {
                assert(after[i].level == st[i].level);
                assert(st[i].level <= st[st.len() - 1].level);
            }
        }
    }
    law_orphans_closed_first(st, Map::empty(), level, now);
    let n1 = kept(st, Unwind::Deeper(level)) as int;
    let n2 = kept(st.take(n1), Unwind::At(level)) as int;
    let left = return_frames(st, level, now);
    assert forall|i: int| 0 <= i < left.len() implies (#[trigger] left[i]).level < level by {
        assert(left[i].level == st[i].level);
        assert(st[i].level <= st[n2 - 1].level);
        if n2 < n1 {
            assert(st[n2 - 1].level <= st[n2].level);
        }
    }
    assert forall|i: int, j: int| 0 <= i <= j < left.len() implies left[i].level
        <= left[j].level by {
        assert(left[i].level == st[i].level && left[j].level == st[j].level);
    }
}

/// Whether exactly one self-time clock runs: every frame below the top
/// is suspended and the top frame, if there is one, is not.
pub open spec fn one_clock_runs(st: Seq<CallFrame>) -> bool {
    &&& forall|i: int| 0 <= i < st.len() - 1 ==> (#[trigger] st[i]).suspended
    &&& st.len() > 0 ==> !st.last().suspended
}

/// Exactly one self-time clock runs after every event, so that no instant
/// is credited to two functions: a call stops the caller's clock and starts
/// the callee's, and a return leaves running only the frame that it
/// uncovers. For a return the top frame need not have been running before.
pub proof fn law_one_clock_runs(st: Seq<CallFrame>, f: CallFrame, level: usize, now: u64)
    requires
        forall|i: int| 0 <= i < st.len() - 1 ==> (#[trigger] st[i]).suspended,
        !f.suspended,
    ensures
        one_clock_runs(call_frames(st, f)),
        one_clock_runs(return_frames(st, level, now)),
{
    let after = call_frames(st, f);
    assert forall|i: int| 0 <= i < after.len() - 1 implies (#[trigger] after[i]).suspended by {
        if i < st.len() - 1 {
            assert(after[i] == st[i]);
        }
    }
    law_orphans_closed_first(st, Map::empty(), level, now);
    let left = return_frames(st, level, now);
    assert forall|i: int| 0 <= i < left.len() - 1 implies (#[trigger] left[i]).suspended by {
        assert(left[i] == st[i]);
    }
}

/// With the levels in order, a return at depth `level` takes off exactly
/// the frames entered at that depth or deeper, and an unwinding to `level`
/// exactly those entered deeper: what is left are the frames below them,
/// in their old order.
pub proof fn law_return_leaves_the_shallower(st: Seq<CallFrame>, level: usize, now: u64)
    requires
        levels_ordered(st),
    ensures
        ({
            let n = return_frames(st, level, now).len() as int;
            let m = unwound_frames(st, Unwind::Deeper(level)).len() as int;
            &&& 0 <= n <= m <= st.len()
            &&& return_frames(st, level, now) == top_resumed(st.take(n), now)
            &&& forall|i: int| 0 <= i < n ==> (#[trigger] st[i]).level < level
            &&& forall|i: int| n <= i < st.len() ==> (#[trigger] st[i]).level >= level
            &&& unwound_frames(st, Unwind::Deeper(level)) == st.take(m)
            &&& forall|i: int| 0 <= i < m ==> (#[trigger] st[i]).level <= level
            &&& forall|i: int| m <= i < st.len() ==> (#[trigger] st[i]).level > level
        }),
{
    law_orphans_closed_first(st, Map::empty(), level, now);
    let probe = CallFrame {
        entry: now,
        inner_start: now,
        level,
        key: crate::entry::FunctionKey(0),
        suspended: false,
    };
    law_levels_stay_ordered(st, probe, level, now);
    let n1 = kept(st, Unwind::Deeper(level)) as int;
    let n2 = kept(st.take(n1), Unwind::At(level)) as int;
    let left = return_frames(st, level, now);
    assert(left.len() == n2);
    assert forall|i: int| 0 <= i < n2 implies (#[trigger] st[i]).level < level by {
        assert(left[i].level == st[i].level);
    }
    assert forall|i: int| 0 <= i < n1 implies (#[trigger] st[i]).level <= level by {
        lemma_kept(st, Unwind::Deeper(level));
        assert(st[i].level <= st[n1 - 1].level);
    }
}

} // verus!
