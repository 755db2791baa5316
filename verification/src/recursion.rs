use crate::entry::{FunctionKey, Table};
use crate::frame::{closed, resumed, CallFrame};
use crate::model::{
    call_frames, call_table, closed_all, kept, lemma_call, lemma_close_top, lemma_resume_top,
    open_count, return_frames, return_table, settled, top_resumed, top_suspended, Unwind,
};
use crate::name::FunctionName;
use vstd::prelude::*;

verus! {

/// The frame that a call of `key` at depth `level` at `now` pushes.
pub open spec fn frame_of(key: usize, level: usize, now: u64) -> CallFrame {
    CallFrame { entry: now, inner_start: now, level, key: FunctionKey(key), suspended: false }
}

/// Stack and table after `key` was called once at each of `times`, each
/// call one level deeper than the one before, the first at depth `base`.
pub open spec fn descended(
    st: Seq<CallFrame>,
    t: Table,
    key: usize,
    name: Option<FunctionName>,
    base: usize,
    times: Seq<u64>,
) -> (Seq<CallFrame>, Table)
    decreases times.len(),
{
    if times.len() == 0 {
        (st, t)
    } else {
        let before = descended(st, t, key, name, base, times.drop_last());
        let level = (base + times.len() - 1) as usize;
        (
            call_frames(before.0, frame_of(key, level, times.last())),
            call_table(before.1, before.0, key, name, times.last()),
        )
    }
}

/// Stack and table after one return at each of `times`, the first from
/// the deepest level and each next one from the level above, the last from
/// depth `base`.
pub open spec fn ascended(st: Seq<CallFrame>, t: Table, base: usize, times: Seq<u64>) -> (
    Seq<CallFrame>,
    Table,
)
    decreases times.len(),
{
    if times.len() == 0 {
        (st, t)
    } else {
        let level = (base + times.len() - 1) as usize;
        ascended(
            return_frames(st, level, times.first()),
            return_table(t, st, level, times.first()),
            base,
            times.drop_first(),
        )
    }
}

/// Whether the times do not decrease.
pub open spec fn in_order(times: Seq<u64>) -> bool {
    forall|i: int, j: int| 0 <= i <= j < times.len() ==> times[i] <= times[j]
}

/// Whether the top `n` frames of the stack are a chain of invocations of
/// `key`, one level apart from depth `base` up, and every frame below them
/// was entered above depth `base`.
pub open spec fn chain_on_top(st: Seq<CallFrame>, key: usize, base: usize, n: nat) -> bool {
    &&& st.len() >= n
    &&& open_count(st, key) == n
    &&& forall|j: int|
        st.len() - n <= j < st.len() ==> (#[trigger] st[j]).key.0 == key && st[j].level == base + (
        j - (st.len() - n))
    &&& forall|j: int| 0 <= j < st.len() - n ==> (#[trigger] st[j]).level < base
}

/// Frames with the same keys are counted alike.
pub proof fn lemma_same_keys(a: Seq<CallFrame>, b: Seq<CallFrame>, key: usize)
    requires
        a.len() == b.len(),
        forall|i: int| 0 <= i < a.len() ==> (#[trigger] a[i]).key == b[i].key,
    ensures
        open_count(a, key) == open_count(b, key),
    decreases a.len(),
{
    if a.len() > 0 {
        assert(a[a.len() - 1].key == b[a.len() - 1].key);
        assert forall|i: int| 0 <= i < a.drop_last().len() implies (#[trigger] a.drop_last()[i]).key
            == b.drop_last()[i].key by {
            assert(a[i].key == b[i].key);
        }
        lemma_same_keys(a.drop_last(), b.drop_last(), key);
    }
}

/// After `n` nested calls of a function that was not open, the stack
/// holds a chain of `n` invocations of it, its entry counts `n` calls more,
/// and its total time is what it was.
pub proof fn lemma_descended(
    st: Seq<CallFrame>,
    t: Table,
    clock: u64,
    key: usize,
    name: Option<FunctionName>,
    base: usize,
    times: Seq<u64>,
)
    requires
        settled(st, t, clock),
        chain_on_top(st, key, base, 0),
        in_order(times),
        times.len() > 0 ==> times[0] >= clock,
        base + times.len() <= usize::MAX,
        t.contains_key(key) ==> t[key].calls + times.len() <= usize::MAX,
    ensures
        ({
            let down = descended(st, t, key, name, base, times);
            let latest = if times.len() > 0 {
                times.last()
            } else {
                clock
            };
            &&& settled(down.0, down.1, latest)
            &&& chain_on_top(down.0, key, base, times.len())
            &&& down.0.len() == st.len() + times.len()
            &&& times.len() > 0 ==> down.0[st.len() as int].entry == times[0]
            &&& times.len() > 0 ==> down.1.contains_key(key)
            &&& times.len() > 0 ==> down.1.dom() == t.dom().insert(key)
            &&& times.len() > 0 ==> down.1[key].name == (if t.contains_key(key) {
                t[key].name
            } else {
                name
            })
            &&& times.len() > 0 || t.contains_key(key) ==> down.1[key].calls == (if t.contains_key(
                key,
            ) {
                t[key].calls
            } else {
                0
            }) + times.len() && down.1[key].total_time == (if t.contains_key(key) {
                t[key].total_time
            } else {
                0
            })
        }),
    decreases times.len(),
{
    if times.len() > 0 {
        let earlier = times.drop_last();
        assert(in_order(earlier)) by {
            assert forall|i: int, j: int| 0 <= i <= j < earlier.len() implies earlier[i]
                <= earlier[j] by {
                assert(times[i] <= times[j]);
            }
        }
        if earlier.len() > 0 {
            assert(earlier[0] == times[0]);
            assert(times[earlier.len() - 1] <= times[times.len() - 1]);
        }
        lemma_descended(st, t, clock, key, name, base, earlier);
        let before = descended(st, t, key, name, base, earlier);
        let latest = if earlier.len() > 0 {
            earlier.last()
        } else {
            clock
        };
        let now = times.last();
        assert(now >= latest) by {
            assert(times[0] <= times[times.len() - 1]);
        }
        let level = (base + times.len() - 1) as usize;
        lemma_descend_step(before.0, before.1, latest, now, key, name, base, earlier.len(), level);
        let after = call_frames(before.0, frame_of(key, level, now));
        assert(before.1.dom().insert(key).insert(key) =~= before.1.dom().insert(key));
        if earlier.len() > 0 {
            assert(after[st.len() as int].entry == before.0[st.len() as int].entry);
        }
    }
}

/// One more call on top of a chain of `n` invocations makes it a chain of
/// `n + 1`: the frames below keep their keys, levels and entry times, the
/// entry counts one call more and keeps its total time, and a name is taken
/// only where the function had no entry.
pub proof fn lemma_descend_step(
    st: Seq<CallFrame>,
    t: Table,
    clock: u64,
    now: u64,
    key: usize,
    name: Option<FunctionName>,
    base: usize,
    n: nat,
    level: usize,
)
    requires
        settled(st, t, clock),
        chain_on_top(st, key, base, n),
        now >= clock,
        level == base + n,
        t.contains_key(key) ==> t[key].calls < usize::MAX,
    ensures
        ({
            let after = call_frames(st, frame_of(key, level, now));
            let table = call_table(t, st, key, name, now);
            &&& settled(after, table, now)
            &&& chain_on_top(after, key, base, n + 1)
            &&& after.len() == st.len() + 1
            &&& after.last().entry == now
            &&& forall|j: int| 0 <= j < st.len() ==> (#[trigger] after[j]).entry == st[j].entry
            &&& table.dom() == t.dom().insert(key)
            &&& table[key].calls == (if t.contains_key(key) {
                t[key].calls
            } else {
                0
            }) + 1
            &&& table[key].total_time == (if t.contains_key(key) {
                t[key].total_time
            } else {
                0
            })
            &&& table[key].name == (if t.contains_key(key) {
                t[key].name
            } else {
                name
            })
        }),
{
    let f = frame_of(key, level, now);
    lemma_call(st, t, clock, now, f, name);
    let table = call_table(t, st, key, name, now);
    if st.len() > 0 {
        assert(t.contains_key(st[st.len() - 1].key.0));
    }
    assert(table.dom() =~= t.dom().insert(key));
    let paused = top_suspended(st);
    let after = call_frames(st, f);
    lemma_same_keys(paused, st, key);
    assert(after.drop_last() =~= paused);
    assert forall|j: int| after.len() - (n + 1) <= j < after.len() implies (#[trigger] after[j]).key.0
        == key && after[j].level == base + (j - (after.len() - (n + 1))) by {
        if j < st.len() {
            assert(after[j].key == st[j].key && after[j].level == st[j].level);
        }
    }
    assert forall|j: int| 0 <= j < after.len() - (n + 1) implies (#[trigger] after[j]).level
        < base by {
        assert(after[j].level == st[j].level);
    }
    assert forall|j: int| 0 <= j < st.len() implies (#[trigger] after[j]).entry == st[j].entry by {
        assert(after[j].entry == paused[j].entry);
    }
}

/// A return from the top of a chain closes exactly the top frame.
pub proof fn lemma_return_from_chain(
    st: Seq<CallFrame>,
    t: Table,
    key: usize,
    base: usize,
    n: nat,
    now: u64,
)
    requires
        chain_on_top(st, key, base, n),
        n >= 1,
        base + n <= usize::MAX,
    ensures
        return_frames(st, (base + n - 1) as usize, now) == top_resumed(st.drop_last(), now),
        return_table(t, st, (base + n - 1) as usize, now) == closed(
            t,
            resumed(st.last(), now),
            now,
        ),
        chain_on_top(top_resumed(st.drop_last(), now), key, base, (n - 1) as nat),
{
    let level = (base + n - 1) as usize;
    let rest = st.drop_last();
    assert(st[st.len() - 1].level == level);
    assert(kept(st, Unwind::Deeper(level)) == st.len());
    assert(st.take(st.len() as int) =~= st);
    assert(st.skip(st.len() as int) =~= Seq::<CallFrame>::empty());
    if rest.len() > 0 {
        assert(rest.last() == st[st.len() - 2]);
        assert(rest.last().level != level);
    }
    assert(kept(rest, Unwind::At(level)) == rest.len());
    assert(kept(st, Unwind::At(level)) == rest.len());
    assert(st.take(rest.len() as int) =~= rest);
    assert(st.skip(rest.len() as int) =~= seq![st.last()]);
    assert(seq![st.last()].drop_first() =~= Seq::<CallFrame>::empty());
    assert(closed_all(t, seq![st.last()], now) == closed(
        closed_all(t, Seq::<CallFrame>::empty(), now),
        resumed(st.last(), now),
        now,
    ));
    let next = top_resumed(rest, now);
    lemma_same_keys(next, rest, key);
    assert forall|j: int| next.len() - (n - 1) <= j < next.len() implies (#[trigger] next[j]).key.0
        == key && next[j].level == base + (j - (next.len() - (n - 1))) by {
        assert(next[j].key == st[j].key && next[j].level == st[j].level);
    }
    assert forall|j: int| 0 <= j < next.len() - (n - 1) implies (#[trigger] next[j]).level
        < base by {
        assert(next[j].level == st[j].level);
    }
}

/// After as many returns as the chain on top is long, the function is
/// closed, its call count is what it was, and its total time has grown by
/// the time from the entry of the outermost invocation to the last return.
pub proof fn lemma_ascended(
    st: Seq<CallFrame>,
    t: Table,
    clock: u64,
    key: usize,
    base: usize,
    times: Seq<u64>,
)
    requires
        settled(st, t, clock),
        chain_on_top(st, key, base, times.len()),
        times.len() >= 1,
        base + times.len() <= usize::MAX,
        in_order(times),
        times[0] >= clock,
        st[st.len() - times.len()].entry <= clock,
    ensures
        ({
            let up = ascended(st, t, base, times);
            &&& settled(up.0, up.1, times.last())
            &&& up.0 == top_resumed(st.take(st.len() - times.len()), times.last())
            &&& up.1.dom() == t.dom()
            &&& up.1.contains_key(key)
            &&& up.1[key].calls == t[key].calls
            &&& up.1[key].name == t[key].name
            &&& up.1[key].recursion_depth == 0
            &&& up.1[key].total_time == t[key].total_time + (times.last() - st[st.len()
                - times.len()].entry)
        }),
    decreases times.len(),
{
    let n = times.len();
    let now = times.first();
    let level = (base + n - 1) as usize;
    lemma_return_from_chain(st, t, key, base, n, now);
    lemma_close_top(st, t, clock, now);
    let rest = st.drop_last();
    let t1 = closed(t, resumed(st.last(), now), now);
    lemma_resume_top(rest, t1, now);
    let next = top_resumed(rest, now);
    assert(t.contains_key(st[st.len() - 1].key.0));
    assert(t1.dom() =~= t.dom());
    if n == 1 {
        let later = times.drop_first();
        assert(later.len() == 0);
        assert(ascended(next, t1, base, later) == (next, t1));
        assert(rest =~= st.take(st.len() - 1));
        assert(times.last() == now);
    } else {
        let later = times.drop_first();
        assert(in_order(later)) by {
            assert forall|i: int, j: int| 0 <= i <= j < later.len() implies later[i]
                <= later[j] by {
                assert(times[i + 1] <= times[j + 1]);
            }
        }
        assert(later[0] >= now) by {
            assert(times[0] <= times[1]);
        }
        assert(later.last() == times.last());
        assert(next[next.len() - later.len()].entry == st[st.len() - n].entry);
        lemma_ascended(next, t1, now, key, base, later);
        assert(next.take(next.len() - later.len()) =~= st.take(st.len() - n));
    }
}

/// Recursion is counted once: when a function that is not open calls
/// itself down to a depth of `entries.len()` and then returns all the way
/// out, its entry counts that many calls more, none of its invocations is
/// left open, and its total time grows by one interval, from the first call
/// to the last return.
pub proof fn law_recursion_counted_once(
    st: Seq<CallFrame>,
    t: Table,
    clock: u64,
    key: usize,
    name: Option<FunctionName>,
    base: usize,
    entries: Seq<u64>,
    exits: Seq<u64>,
)
    requires
        settled(st, t, clock),
        open_count(st, key) == 0,
        forall|j: int| 0 <= j < st.len() ==> (#[trigger] st[j]).level < base,
        entries.len() == exits.len(),
        entries.len() >= 1,
        base + entries.len() <= usize::MAX,
        t.contains_key(key) ==> t[key].calls + entries.len() <= usize::MAX,
        in_order(entries),
        in_order(exits),
        clock <= entries[0],
        entries.last() <= exits[0],
    ensures
        ({
            let down = descended(st, t, key, name, base, entries);
            let up = ascended(down.0, down.1, base, exits);
            let before_calls = if t.contains_key(key) {
                t[key].calls
            } else {
                0
            };
            let before_total = if t.contains_key(key) {
                t[key].total_time
            } else {
                0
            };
            &&& up.0.len() == st.len()
            &&& up.1.contains_key(key)
            &&& up.1[key].calls == before_calls + entries.len()
            &&& up.1[key].recursion_depth == 0
            &&& up.1[key].total_time == before_total + (exits.last() - entries[0])
            &&& up.1[key].total_self_time <= up.1[key].total_time
        }),
{
    lemma_descended(st, t, clock, key, name, base, entries);
    let down = descended(st, t, key, name, base, entries);
    assert(entries[0] <= entries[entries.len() - 1]);
    lemma_ascended(down.0, down.1, entries.last(), key, base, exits);
    let up = ascended(down.0, down.1, base, exits);
    assert(open_count(up.0, key) == 0) by {
        let below = down.0.take(st.len() as int);
        lemma_same_keys(up.0, below, key);
        lemma_chain_base(down.0, key, base, entries.len());
    }
}

/// Below a chain of `n` invocations on top, no invocation of the function is open.
pub proof fn lemma_chain_base(st: Seq<CallFrame>, key: usize, base: usize, n: nat)
    requires
        chain_on_top(st, key, base, n),
    ensures
        open_count(st.take(st.len() - n), key) == 0,
    decreases n,
{
    if n == 0 {
        assert(st.take(st.len() as int) =~= st);
    } else {
        let rest = st.drop_last();
        assert(st[st.len() - 1].key.0 == key);
        assert forall|j: int| rest.len() - (n - 1) <= j < rest.len() implies (#[trigger] rest[j]).key.0
            == key && rest[j].level == base + (j - (rest.len() - (n - 1))) by {
            assert(rest[j] == st[j]);
        }
        assert forall|j: int| 0 <= j < rest.len() - (n - 1) implies (#[trigger] rest[j]).level
            < base by {
            assert(rest[j] == st[j]);
        }
        lemma_chain_base(rest, key, base, (n - 1) as nat);
        assert(rest.take(rest.len() - (n - 1)) =~= st.take(st.len() - n));
    }
}

/// Recursion from the start of a session: when the first function called
/// in a fresh session calls itself down to a depth of `entries.len()`, the
/// stack holds that many frames and the table holds that one function, with
/// as many calls counted and as many invocations open; when it has then
/// returned all the way out, the stack is empty, the calls are still
/// counted, no invocation is open, and the total time is the one interval
/// from the first call to the last return.
pub proof fn law_recursion_from_fresh(
    began: u64,
    key: usize,
    name: Option<FunctionName>,
    entries: Seq<u64>,
    exits: Seq<u64>,
)
    requires
        entries.len() == exits.len(),
        1 <= entries.len() < usize::MAX,
        in_order(entries),
        in_order(exits),
        began <= entries[0],
        entries.last() <= exits[0],
    ensures
        ({
            let empty = Map::<usize, crate::entry::ProfileEntry>::empty();
            let down = descended(Seq::<CallFrame>::empty(), empty, key, name, 1, entries);
            let up = ascended(down.0, down.1, 1, exits);
            &&& down.0.len() == entries.len()
            &&& down.1.dom() == set![key]
            &&& down.1[key].calls == entries.len()
            &&& down.1[key].recursion_depth == entries.len()
            &&& down.1[key].total_time == 0
            &&& down.1[key].name == name
            &&& up.0 == Seq::<CallFrame>::empty()
            &&& up.1.dom() == set![key]
            &&& up.1[key].calls == entries.len()
            &&& up.1[key].recursion_depth == 0
            &&& up.1[key].total_time == exits.last() - entries[0]
            &&& up.1[key].name == name
        }),
{
    let empty = Map::<usize, crate::entry::ProfileEntry>::empty();
    let none = Seq::<CallFrame>::empty();
    assert(settled(none, empty, began));
    lemma_descended(none, empty, began, key, name, 1, entries);
    let down = descended(none, empty, key, name, 1, entries);
    assert(empty.dom().insert(key) =~= set![key]);
    assert(entries[0] <= entries[entries.len() - 1]);
    lemma_ascended(down.0, down.1, entries.last(), key, 1, exits);
    let up = ascended(down.0, down.1, 1, exits);
    assert(down.0.take(0) =~= none);
}

} // verus!
