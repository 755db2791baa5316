use crate::entry::{entered, Table};
use crate::frame::{can_close, can_flush, closed, elapsed, flushed, resumed, CallFrame};
use crate::model::{
    call_frames, call_table, consistent, horizon, lemma_call, lemma_close_top, settled,
};
use crate::name::FunctionName;
use vstd::prelude::*;

verus! {

/// The self time that the table holds for `key`: none where it has no entry.
pub open spec fn self_of(t: Table, key: usize) -> nat {
    if t.contains_key(key) {
        t[key].total_self_time as nat
    } else {
        0
    }
}

/// The self times of the functions `keys`, added up.
pub open spec fn self_sum(t: Table, keys: Seq<usize>) -> nat
    decreases keys.len(),
{
    if keys.len() == 0 {
        0
    } else {
        self_sum(t, keys.drop_last()) + self_of(t, keys.last())
    }
}

/// Whether the self times of any distinct functions, added up, are
/// within the time from `began` to `limit`: no stretch of time is counted
/// for two functions.
pub open spec fn within_budget(t: Table, began: u64, limit: u64) -> bool {
    forall|keys: Seq<usize>| keys.no_duplicates() ==> began + #[trigger] self_sum(t, keys) <= limit
}

/// Tables that hold the same self time for each of `keys` give the same sum.
pub proof fn lemma_sum_same(a: Table, b: Table, keys: Seq<usize>)
    requires
        forall|i: int| 0 <= i < keys.len() ==> self_of(a, #[trigger] keys[i]) == self_of(b, keys[i]),
    ensures
        self_sum(a, keys) == self_sum(b, keys),
    decreases keys.len(),
{
    if keys.len() > 0 {
        let rest = keys.drop_last();
        assert forall|i: int| 0 <= i < rest.len() implies self_of(a, #[trigger] rest[i]) == self_of(
            b,
            rest[i],
        ) by {
            assert(rest[i] == keys[i]);
        }
        lemma_sum_same(a, b, rest);
        assert(self_of(a, keys[keys.len() - 1]) == self_of(b, keys[keys.len() - 1]));
    }
}

/// Where one function gains `gain` of self time and no other changes, the
/// sum over distinct functions grows by `gain` at most.
pub proof fn lemma_sum_gains(a: Table, b: Table, keys: Seq<usize>, key: usize, gain: nat)
    requires
        keys.no_duplicates(),
        forall|k: usize| k != key ==> self_of(a, k) == self_of(b, k),
        self_of(b, key) == self_of(a, key) + gain,
    ensures
        self_sum(b, keys) <= self_sum(a, keys) + gain,
    decreases keys.len(),
{
    if keys.len() > 0 {
        let rest = keys.drop_last();
        assert(rest.no_duplicates()) by {
            assert forall|i: int, j: int| 0 <= i < rest.len() && 0 <= j < rest.len() && i
                != j implies rest[i] != rest[j] by {
                assert(keys[i] != keys[j]);
            }
        }
        if keys.last() == key {
            assert forall|i: int| 0 <= i < rest.len() implies self_of(a, #[trigger] rest[i])
                == self_of(b, rest[i]) by {
                assert(keys[i] != keys[keys.len() - 1]);
            }
            lemma_sum_same(a, b, rest);
        } else {
            lemma_sum_gains(a, b, rest, key, gain);
        }
    }
}

/// The budget holds on when one function gains self time and the limit
/// moves on by as much at least.
pub proof fn lemma_budget_gains(
    a: Table,
    b: Table,
    began: u64,
    limit: u64,
    later: u64,
    key: usize,
    gain: nat,
)
    requires
        within_budget(a, began, limit),
        forall|k: usize| k != key ==> self_of(a, k) == self_of(b, k),
        self_of(b, key) == self_of(a, key) + gain,
        limit + gain <= later,
    ensures
        within_budget(b, began, later),
{
    assert forall|keys: Seq<usize>| keys.no_duplicates() implies began + #[trigger] self_sum(
        b,
        keys,
    ) <= later by {
        lemma_sum_gains(a, b, keys, key, gain);
        assert(began + self_sum(a, keys) <= limit);
    }
}

/// An empty table is within any budget.
pub proof fn lemma_budget_empty(began: u64, limit: u64)
    requires
        began <= limit,
    ensures
        within_budget(Map::<usize, crate::entry::ProfileEntry>::empty(), began, limit),
{
    let t = Map::<usize, crate::entry::ProfileEntry>::empty();
    assert forall|keys: Seq<usize>| keys.no_duplicates() implies began + #[trigger] self_sum(
        t,
        keys,
    ) <= limit by {
        lemma_sum_none(keys);
    }
}

/// An empty table holds no self time.
pub proof fn lemma_sum_none(keys: Seq<usize>)
    ensures
        self_sum(Map::<usize, crate::entry::ProfileEntry>::empty(), keys) == 0,
    decreases keys.len(),
{
    if keys.len() > 0 {
        lemma_sum_none(keys.drop_last());
    }
}

/// Closing the top frame keeps the table within the budget up to the
/// time of closing.
pub proof fn lemma_budget_close_top(
    st: Seq<CallFrame>,
    t: Table,
    clock: u64,
    now: u64,
    began: u64,
)
    requires
        consistent(st, t, clock),
        st.len() > 0,
        now >= clock,
        within_budget(t, began, horizon(st, clock)),
    ensures
        within_budget(closed(t, resumed(st.last(), now), now), began, now),
        horizon(st.drop_last(), now) == now,
{
    let f = resumed(st.last(), now);
    lemma_close_top(st, t, clock, now);
    assert(can_close(t, f, now));
    let rest = st.drop_last();
    if rest.len() > 0 {
        assert(rest.last() == st[st.len() - 2]);
    }
    lemma_budget_gains(
        t,
        closed(t, f, now),
        began,
        horizon(st, clock),
        now,
        f.key.0,
        elapsed(f.inner_start, now),
    );
}

/// A call keeps the table within the budget up to the time of the call.
pub proof fn lemma_budget_call(
    st: Seq<CallFrame>,
    t: Table,
    clock: u64,
    now: u64,
    f: CallFrame,
    name: Option<FunctionName>,
    began: u64,
)
    requires
        settled(st, t, clock),
        now >= clock,
        f.entry == now,
        f.inner_start == now,
        !f.suspended,
        t.contains_key(f.key.0) ==> t[f.key.0].calls < usize::MAX,
        within_budget(t, began, horizon(st, clock)),
    ensures
        within_budget(call_table(t, st, f.key.0, name, now), began, now),
        horizon(call_frames(st, f), now) == now,
{
    lemma_call(st, t, clock, now, f, name);
    let paused = if st.len() > 0 {
        flushed(t, st.last(), now)
    } else {
        t
    };
    if st.len() > 0 {
        assert(can_flush(t, st.last(), now));
        lemma_budget_gains(
            t,
            paused,
            began,
            horizon(st, clock),
            now,
            st.last().key.0,
            elapsed(st.last().inner_start, now),
        );
    } else {
        lemma_budget_gains(t, paused, began, horizon(st, clock), now, f.key.0, 0);
    }
    lemma_budget_gains(paused, entered(paused, f.key.0, name), began, now, now, f.key.0, 0);
}

/// The budget holds on as the limit moves on.
pub proof fn lemma_budget_later(t: Table, began: u64, limit: u64, later: u64)
    requires
        within_budget(t, began, limit),
        limit <= later,
    ensures
        within_budget(t, began, later),
{
    lemma_budget_gains(t, t, began, limit, later, 0, 0);
}

} // verus!
