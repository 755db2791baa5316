use crate::entry::Table;
use crate::frame::{can_close, closed, resumed, CallFrame};
use crate::model::{
    closed_all, consistent, kept, lemma_clock_advances, lemma_close_top, lemma_counted,
    lemma_kept, open_count, outer_entry, unwound_frames, unwound_table, Unwind,
};
use vstd::prelude::*;

verus! {

/// Closing the frames above the lowest `n`, the most recent first, at a
/// time not before the clock leaves stack and table consistent at that time.
pub proof fn lemma_unwound(st: Seq<CallFrame>, t: Table, clock: u64, now: u64, n: int)
    requires
        consistent(st, t, clock),
        now >= clock,
        0 <= n <= st.len(),
    ensures
        consistent(st.take(n), closed_all(t, st.skip(n), now), now),
    decreases st.len() - n,
{
    if n == st.len() {
        assert(st.take(n) =~= st);
        assert(st.skip(n) =~= Seq::<CallFrame>::empty());
        lemma_clock_advances(st, t, clock, now);
    } else {
        lemma_unwound(st, t, clock, now, n + 1);
        let above = st.take(n + 1);
        let before = closed_all(t, st.skip(n + 1), now);
        lemma_close_top(above, before, now, now);
        assert(above.drop_last() =~= st.take(n));
        assert(above.last() == st[n]);
        assert(st.skip(n).first() == st[n]);
        assert(st.skip(n).drop_first() =~= st.skip(n + 1));
    }
}

/// The frames of a function on the stack are those among the lowest `n`
/// and those above them.
pub proof fn lemma_count_splits(st: Seq<CallFrame>, n: int, key: usize)
    requires
        0 <= n <= st.len(),
    ensures
        open_count(st, key) == open_count(st.take(n), key) + open_count(st.skip(n), key),
    decreases st.len() - n,
{
    if n == st.len() {
        assert(st.take(n) =~= st);
        assert(st.skip(n) =~= Seq::<CallFrame>::empty());
    } else {
        let rest = st.drop_last();
        lemma_count_splits(rest, n, key);
        assert(rest.take(n) =~= st.take(n));
        assert(st.skip(n).drop_last() =~= rest.skip(n));
        assert(st.skip(n).last() == st.last());
    }
}

/// An unwinding leaves stack and table consistent, and lowers the count
/// of open invocations of each function by the number of its frames that
/// were taken off.
pub proof fn law_unwinding_lowers_depth(
    st: Seq<CallFrame>,
    t: Table,
    clock: u64,
    now: u64,
    which: Unwind,
    key: usize,
)
    requires
        consistent(st, t, clock),
        now >= clock,
        t.contains_key(key),
    ensures
        consistent(unwound_frames(st, which), unwound_table(t, st, which, now), now),
        unwound_table(t, st, which, now).contains_key(key),
        unwound_table(t, st, which, now)[key].recursion_depth == t[key].recursion_depth
            - open_count(st.skip(kept(st, which) as int), key),
        unwound_table(t, st, which, now)[key].recursion_depth == open_count(
            unwound_frames(st, which),
            key,
        ),
        unwound_table(t, st, which, now)[key].calls == t[key].calls,
{
    let n = kept(st, which) as int;
    lemma_kept(st, which);
    lemma_unwound(st, t, clock, now, n);
    lemma_count_splits(st, n, key);
    lemma_kept_entries(st, t, clock, now, n, key);
}

/// Closing the frames above the lowest `n` removes no entry and changes
/// no call count.
pub proof fn lemma_kept_entries(
    st: Seq<CallFrame>,
    t: Table,
    clock: u64,
    now: u64,
    n: int,
    key: usize,
)
    requires
        consistent(st, t, clock),
        now >= clock,
        0 <= n <= st.len(),
        t.contains_key(key),
    ensures
        closed_all(t, st.skip(n), now).contains_key(key),
        closed_all(t, st.skip(n), now)[key].calls == t[key].calls,
        closed_all(t, st.skip(n), now)[key].name == t[key].name,
    decreases st.len() - n,
{
    if n == st.len() {
        assert(st.skip(n) =~= Seq::<CallFrame>::empty());
    } else {
        lemma_kept_entries(st, t, clock, now, n + 1, key);
        assert(st.skip(n).first() == st[n]);
        assert(st.skip(n).drop_first() =~= st.skip(n + 1));
    }
}

/// Total time is finalized once however many frames go at once: where
/// an unwinding closes every open invocation of a function, the function's
/// total time grows by the time from the entry of the outermost of them to
/// the moment of the unwinding, and none of them is left open; as long as
/// one is left open, the total time is what it was.
pub proof fn law_unwinding_finalizes_once(
    st: Seq<CallFrame>,
    t: Table,
    clock: u64,
    now: u64,
    n: int,
    key: usize,
)
    requires
        consistent(st, t, clock),
        now >= clock,
        0 <= n <= st.len(),
        t.contains_key(key),
        open_count(st, key) > 0,
    ensures
        closed_all(t, st.skip(n), now).contains_key(key),
        outer_entry(st, key) <= now,
        open_count(st.take(n), key) > 0 ==> closed_all(t, st.skip(n), now)[key].total_time
            == t[key].total_time && outer_entry(st.take(n), key) == outer_entry(st, key),
        open_count(st.take(n), key) == 0 ==> closed_all(t, st.skip(n), now)[key].total_time
            == t[key].total_time + (now - outer_entry(st, key)) && closed_all(
            t,
            st.skip(n),
            now,
        )[key].recursion_depth == 0,
    decreases st.len() - n,
{
    lemma_kept_entries(st, t, clock, now, n, key);
    if n == st.len() {
        assert(st.take(n) =~= st);
        assert(st.skip(n) =~= Seq::<CallFrame>::empty());
    } else {
        law_unwinding_finalizes_once(st, t, clock, now, n + 1, key);
        lemma_unwound(st, t, clock, now, n + 1);
        lemma_kept_entries(st, t, clock, now, n + 1, key);
        let above = st.take(n + 1);
        let before = closed_all(t, st.skip(n + 1), now);
        let f = resumed(st[n], now);
        lemma_close_top(above, before, now, now);
        assert(above.drop_last() =~= st.take(n));
        assert(above.last() == st[n]);
        assert(st.skip(n).first() == st[n]);
        assert(st.skip(n).drop_first() =~= st.skip(n + 1));
        assert(can_close(before, f, now));
        assert(closed_all(t, st.skip(n), now) == closed(before, f, now));
        if st[n].key.0 == key {
            lemma_counted(above, n);
        }
    }
}

/// Ending a session closes every frame still open, the most recent
/// first: the stack is then empty, every function that was open has none
/// of its invocations left open, and its total time has grown by the time
/// from the entry of its outermost open invocation to the end; a function
/// that was not open keeps its total time.
pub proof fn law_session_end_closes_all(
    st: Seq<CallFrame>,
    t: Table,
    clock: u64,
    now: u64,
    key: usize,
)
    requires
        consistent(st, t, clock),
        now >= clock,
        t.contains_key(key),
    ensures
        unwound_frames(st, Unwind::All) == Seq::<CallFrame>::empty(),
        unwound_table(t, st, Unwind::All, now) == closed_all(t, st, now),
        closed_all(t, st, now).contains_key(key),
        closed_all(t, st, now)[key].recursion_depth == 0,
        closed_all(t, st, now)[key].calls == t[key].calls,
        open_count(st, key) > 0 ==> outer_entry(st, key) <= now && closed_all(
            t,
            st,
            now,
        )[key].total_time == t[key].total_time + (now - outer_entry(st, key)),
        open_count(st, key) == 0 ==> closed_all(t, st, now)[key].total_time == t[key].total_time,
{
    lemma_kept(st, Unwind::All);
    assert(kept(st, Unwind::All) == 0) by {
        if kept(st, Unwind::All) > 0 {
            assert(!crate::model::pops(st[kept(st, Unwind::All) - 1], Unwind::All));
        }
    }
    assert(st.skip(0) =~= st);
    assert(st.take(0) =~= Seq::<CallFrame>::empty());
    law_unwinding_lowers_depth(st, t, clock, now, Unwind::All, key);
    if open_count(st, key) > 0 {
        law_unwinding_finalizes_once(st, t, clock, now, 0, key);
    } else {
        lemma_untouched(st, t, clock, now, 0, key);
    }
}

/// Closing frames leaves the total time of a function alone that has
/// none of its invocations open.
pub proof fn lemma_untouched(
    st: Seq<CallFrame>,
    t: Table,
    clock: u64,
    now: u64,
    n: int,
    key: usize,
)
    requires
        consistent(st, t, clock),
        now >= clock,
        0 <= n <= st.len(),
        t.contains_key(key),
        open_count(st, key) == 0,
    ensures
        closed_all(t, st.skip(n), now).contains_key(key),
        closed_all(t, st.skip(n), now)[key].total_time == t[key].total_time,
    decreases st.len() - n,
{
    lemma_kept_entries(st, t, clock, now, n, key);
    if n == st.len() {
        assert(st.skip(n) =~= Seq::<CallFrame>::empty());
    } else {
        lemma_untouched(st, t, clock, now, n + 1, key);
        lemma_kept_entries(st, t, clock, now, n + 1, key);
        assert(st.skip(n).first() == st[n]);
        assert(st.skip(n).drop_first() =~= st.skip(n + 1));
        lemma_counted(st, n);
    }
}

} // verus!
