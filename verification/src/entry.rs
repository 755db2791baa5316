use crate::name::FunctionName;
use std::collections::HashMap;
use vstd::std_specs::iter::IteratorSpec;
use vstd::prelude::*;

verus! {

/// The identity of a function value: an opaque token that is compared and
/// hashed, and never looked into.
#[derive(Clone, Copy, Debug, PartialEq, Eq, Hash, Structural)]
pub struct FunctionKey(pub usize);

/// What has been gathered about one function. Times are in nanoseconds.
#[derive(Clone, Debug, PartialEq, Eq)]
pub struct ProfileEntry {
    /// How often the function was entered.
    pub calls: usize,
    /// Time between entering and leaving, counted once per outermost invocation.
    pub total_time: u64,
    /// Time spent in the function's own code, callees excluded.
    pub total_self_time: u64,
    /// The display name, resolved at most once.
    pub name: Option<FunctionName>,
    /// How many invocations of the function are open right now.
    pub recursion_depth: usize,
}

impl ProfileEntry {
    /// The entry of a function that has just been entered for the first time.
    pub fn new(name: Option<FunctionName>) -> (e: Self)
        ensures
            e == (ProfileEntry {
                calls: 1,
                total_time: 0,
                total_self_time: 0,
                name,
                recursion_depth: 1,
            }),
    {
        ProfileEntry { calls: 1, total_time: 0, total_self_time: 0, name, recursion_depth: 1 }
    }
}

/// The table of entries, keyed by the token inside a `FunctionKey`.
pub type Table = Map<usize, ProfileEntry>;

/// The entry of `key` after one more call: where there was none, a new
/// entry with `name`; else one call and one open invocation more, and the
/// name left as it is, set or not.
pub open spec fn entered(t: Table, key: usize, name: Option<FunctionName>) -> Table {
    if t.contains_key(key) {
        let e = t[key];
        t.insert(
            key,
            ProfileEntry {
                calls: (e.calls + 1) as usize,
                recursion_depth: (e.recursion_depth + 1) as usize,
                ..e
            },
        )
    } else {
        t.insert(
            key,
            ProfileEntry {
                calls: 1,
                total_time: 0,
                total_self_time: 0,
                name,
                recursion_depth: 1,
            },
        )
    }
}

/// The outcome of a session: one entry per function seen, and the time the
/// whole session took, which is set when the session ends.
#[derive(Clone, Debug, PartialEq, Eq)]
pub struct ProfilingResult {
    pub data: HashMap<usize, ProfileEntry>,
    pub total_time: Option<u64>,
}

impl ProfilingResult {
    /// The entries as a mathematical map.
    pub open spec fn table(&self) -> Table {
        self.data@
    }

    /// An empty result, with the session time yet unknown.
    pub fn new() -> (r: Self)
        ensures
            r.table() == Map::<usize, ProfileEntry>::empty(),
            r.total_time.is_none(),
    {
        ProfilingResult { data: HashMap::new(), total_time: None }
    }

    /// Counts one more call of `key`. The first call makes the entry and
    /// gives it `name`; a later call leaves the name as it is.
    pub fn enter(&mut self, key: FunctionKey, name: Option<FunctionName>)
        requires
            old(self).table().contains_key(key.0) ==> old(self).table()[key.0].calls < usize::MAX
                && old(self).table()[key.0].recursion_depth < usize::MAX,
        ensures
            final(self).table() == entered(old(self).table(), key.0, name),
            final(self).total_time == old(self).total_time,
    {
        broadcast use vstd::std_specs::hash::group_hash_axioms;

        let k = key.0;
        let found = self.data.remove(&k);
        match found {
            Some(mut e) => {
                e.calls = e.calls + 1;
                e.recursion_depth = e.recursion_depth + 1;
                self.data.insert(k, e);
            },
            None => {
                self.data.insert(k, ProfileEntry::new(name));
            },
        }
        assert(final(self).table() =~= entered(old(self).table(), key.0, name));
    }

    /// The functions seen, each once, in no particular order.
    pub fn keys(&self) -> (out: Vec<FunctionKey>)
        ensures
            out@.len() == self.table().dom().len(),
            forall|i: int, j: int| 0 <= i < j < out@.len() ==> out@[i] != out@[j],
            forall|i: int| 0 <= i < out@.len() ==> self.table().contains_key((#[trigger] out@[i]).0),
            forall|k: usize|
                self.table().contains_key(k) ==> exists|i: int|
                    0 <= i < out@.len() && (#[trigger] out@[i]).0 == k,
    {
        broadcast use vstd::std_specs::hash::group_hash_axioms;

        let mut out: Vec<FunctionKey> = Vec::new();
        let ghost all = vstd::std_specs::hash::spec_keys_iter(&self.data).remaining().unref();
        for k in iter: self.data.keys()
            invariant
                out@.len() == iter.index(),
                iter.seq().unref() == all,
                all.to_set() == self.data@.dom(),
                forall|j: int| 0 <= j < out@.len() ==> (#[trigger] out@[j]).0 == all[j],
                forall|j: int| 0 <= j < out@.len() ==> self.data@.contains_key((#[trigger] out@[j]).0),
        {
            proof {
                assert(all[iter.index()] == *k);
                assert(all.contains(*k));
                assert(all.to_set().contains(*k));
            }
            out.push(FunctionKey(*k));
        }
        proof {
            assert forall|k: usize| self.table().contains_key(k) implies exists|i: int|
                0 <= i < out@.len() && (#[trigger] out@[i]).0 == k by {
                assert(all.to_set().contains(k));
                assert(all.contains(k));
                let i = choose|i: int| 0 <= i < all.len() && all[i] == k;
                assert(out@[i].0 == k);
            }
        }
        out
    }

    /// The entry of `key`, if that function was seen.
    pub fn get(&self, key: FunctionKey) -> (e: Option<&ProfileEntry>)
        ensures
            match e {
                Some(found) => self.table().contains_key(key.0) && *found == self.table()[key.0],
                None => !self.table().contains_key(key.0),
            },
    {
        broadcast use vstd::std_specs::hash::group_hash_axioms;

        self.data.get(&key.0)
    }
}

} // verus!
