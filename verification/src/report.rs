use crate::entry::{FunctionKey, ProfileEntry, ProfilingResult};
use crate::name::{label, label_of};
use vstd::prelude::*;

verus! {

/// One line of the report: what was gathered about one function, with
/// its name rendered. Times are in nanoseconds.
#[derive(Clone, Debug, PartialEq, Eq)]
pub struct ReportRow {
    /// The function that the line is about.
    pub key: FunctionKey,
    /// The rendered name; empty where it was never resolved.
    pub name: String,
    /// How often the function was entered.
    pub calls: usize,
    /// Its total time.
    pub total_time: u64,
    /// Its self time.
    pub total_self_time: u64,
}

/// Whether the line shows what the entry holds.
pub open spec fn shows(row: ReportRow, e: ProfileEntry) -> bool {
    &&& row.name@ == label_of(e.name)
    &&& row.calls == e.calls
    &&& row.total_time == e.total_time
    &&& row.total_self_time == e.total_self_time
}

impl ProfilingResult {
    /// The report: one line for each function seen, in no particular order.
    pub fn rows(&self) -> (rows: Vec<ReportRow>)
        ensures
            rows@.len() == self.table().dom().len(),
            forall|i: int, j: int| 0 <= i < j < rows@.len() ==> rows@[i].key != rows@[j].key,
            forall|i: int|
                0 <= i < rows@.len() ==> self.table().contains_key((#[trigger] rows@[i]).key.0)
                    && shows(rows@[i], self.table()[rows@[i].key.0]),
            forall|k: usize|
                self.table().contains_key(k) ==> exists|i: int|
                    0 <= i < rows@.len() && (#[trigger] rows@[i]).key.0 == k,
    {
        broadcast use vstd::std_specs::hash::group_hash_axioms;

        let keys = self.keys();
        let mut rows: Vec<ReportRow> = Vec::new();
        let mut i: usize = 0;
        while i < keys.len()
            invariant
                i <= keys@.len(),
                rows@.len() == i,
                forall|j: int| 0 <= j < keys@.len() ==> self.table().contains_key(
                    (#[trigger] keys@[j]).0,
                ),
                forall|j: int|
                    0 <= j < i ==> (#[trigger] rows@[j]).key == keys@[j] && shows(
                        rows@[j],
                        self.table()[keys@[j].0],
                    ),
            decreases keys@.len() - i,
        {
            let key = keys[i];
            assert(self.table().contains_key(keys@[i as int].0));
            if let Some(e) = self.data.get(&key.0) {
                rows.push(
                    ReportRow {
                        key,
                        name: label(&e.name),
                        calls: e.calls,
                        total_time: e.total_time,
                        total_self_time: e.total_self_time,
                    },
                );
            }
            i = i + 1;
        }
        proof {
            assert forall|k: usize| self.table().contains_key(k) implies exists|i: int|
                0 <= i < rows@.len() && (#[trigger] rows@[i]).key.0 == k by {
                let j = choose|j: int| 0 <= j < keys@.len() && (#[trigger] keys@[j]).0 == k;
                assert(rows@[j].key.0 == k);
            }
        }
        rows
    }
}

} // verus!
