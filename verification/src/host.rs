use lua::State;
use vstd::prelude::*;

verus! {

/// The interpreter's state, as the `lua` crate holds it.
#[verifier::external_type_specification]
#[verifier::external_body]
pub struct ExState(lua::State);

/// Calls `State::get_stack` and tells whether the interpreter has an
/// activation record at `level`. What it answers depends on what the
/// interpreter is running, so nothing is claimed of the answer.
#[verifier::external_body]
fn has_level(state: &mut State, level: i32) -> (found: bool) {
    state.get_stack(level).is_some()
}

/// The interpreter's code for the hook event "a function is called".
pub const HOOK_CALL: i32 = 0;

/// The interpreter's code for the hook event "a function returns".
pub const HOOK_RETURN: i32 = 1;

/// The interpreter's code for the hook event "a function is called in
/// place of its caller".
pub const HOOK_TAIL_CALL: i32 = 4;

/// What a hook event means to the profiler.
#[derive(Clone, Copy, Debug, PartialEq, Eq, Structural)]
pub enum EventKind {
    /// A function was entered, by a call or a tail call.
    Call,
    /// A function returned.
    Return,
}

/// What the hook event with the code `code` means: a call and a tail call
/// are calls, a return is a return, and any other event is none of the
/// profiler's.
pub open spec fn kind_of(code: i32) -> Option<EventKind> {
    if code == HOOK_CALL || code == HOOK_TAIL_CALL {
        Some(EventKind::Call)
    } else if code == HOOK_RETURN {
        Some(EventKind::Return)
    } else {
        None
    }
}

/// Computes `kind_of`.
pub fn event_kind(code: i32) -> (k: Option<EventKind>)
    ensures
        k == kind_of(code),
        code == 0 || code == 4 ==> k == Some(EventKind::Call),
        code == 1 ==> k == Some(EventKind::Return),
        code != 0 && code != 1 && code != 4 ==> k.is_none(),
{
    if code == HOOK_CALL || code == HOOK_TAIL_CALL {
        Some(EventKind::Call)
    } else if code == HOOK_RETURN {
        Some(EventKind::Return)
    } else {
        None
    }
}

/// What follows from one answer of the interpreter about a level.
#[derive(Clone, Copy, Debug, PartialEq, Eq, Structural)]
pub enum Probe {
    /// The level exists: the given next level is to be asked about.
    Next(i32),
    /// The depth is known.
    Depth(usize),
}

/// What follows when the interpreter was asked about `level` and answered
/// `found`: a level that exists sends the search one level up, as long as
/// there is one; the first level that does not exist lies one above the depth.
pub open spec fn probe_outcome(level: i32, found: bool) -> Probe {
    if found && level < i32::MAX - 1 {
        Probe::Next((level + 1) as i32)
    } else {
        Probe::Depth((level - 1) as usize)
    }
}

/// Computes `probe_outcome`.
pub fn after_probe(level: i32, found: bool) -> (next: Probe)
    requires
        level >= 1,
    ensures
        next == probe_outcome(level, found),
{
    if found && level < i32::MAX - 1 {
        Probe::Next(level + 1)
    } else {
        Probe::Depth(depth_below(level))
    }
}

/// The depth of the function that a hook was called for: one less than
/// the first level, from 2 upwards, at which the interpreter has no
/// activation record.
pub fn get_stack_level(state: &mut State) -> (depth: usize)
    ensures
        1 <= depth < i32::MAX,
{
    let mut level: i32 = 2;
    loop
        invariant
            2 <= level < i32::MAX,
        decreases i32::MAX - level,
    {
        let found = has_level(state, level);
        match after_probe(level, found) {
            Probe::Next(next) => {
                level = next;
            },
            Probe::Depth(depth) => {
                return depth;
            },
        }
    }
}

/// The depth that lies one below `level`.
pub fn depth_below(level: i32) -> (depth: usize)
    requires
        level >= 1,
    ensures
        depth == level - 1,
{
    (level - 1) as usize
}

} // verus!
