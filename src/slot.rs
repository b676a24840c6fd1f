//! One memoised answer of a planner, and the order in which answers compete.
use vstd::prelude::*;

use crate::model::Action;

verus! {

/// The best attainable amount (progress or quality) from a state, the number
/// of steps of the plan that attains it, and its first action.
#[derive(Clone, Copy, Debug, PartialEq, Eq, Structural)]
pub struct Slot {
    pub value: u32,
    pub step: u32,
    pub action: Option<Action>,
}

/// The answer of a state where nothing can be done.
pub open spec fn empty_slot() -> Slot {
    Slot { value: 0, step: 0, action: None }
}

pub fn empty() -> (r: Slot)
    ensures
        r == empty_slot(),
{
    Slot { value: 0, step: 0, action: None }
}

/// `c` beats `b`: strictly more, or as much in strictly fewer steps.
pub open spec fn better(c: Slot, b: Slot) -> bool {
    c.value > b.value || (c.value == b.value && c.step < b.step)
}

pub open spec fn pick(best: Slot, c: Slot) -> Slot {
    if better(c, best) {
        c
    } else {
        best
    }
}

pub fn choose_better(best: Slot, c: Slot) -> (r: Slot)
    ensures
        r == pick(best, c),
{
    if c.value > best.value || (c.value == best.value && c.step < best.step) {
        c
    } else {
        best
    }
}

pub open spec fn cap(x: int, limit: int) -> int {
    if x < limit {
        x
    } else {
        limit
    }
}

/// One step of the search over smaller budgets: an answer replaces the
/// current one when, capped at the headroom, it reaches the floor (the
/// queried state's own capped answer) and is strictly shorter.
pub open spec fn shorter(acc: Slot, c: Slot, headroom: int, floor: int) -> Slot {
    let v = cap(c.value as int, headroom);
    if v >= floor && c.step < acc.step {
        Slot { value: v as u32, step: c.step, action: c.action }
    } else {
        acc
    }
}

pub fn choose_shorter(acc: Slot, c: Slot, headroom: u32, floor: u32) -> (r: Slot)
    ensures
        r == shorter(acc, c, headroom as int, floor as int),
{
    let v = if c.value < headroom {
        c.value
    } else {
        headroom
    };
    if v >= floor && c.step < acc.step {
        Slot { value: v, step: c.step, action: c.action }
    } else {
        acc
    }
}

} // verus!
