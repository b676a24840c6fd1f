//! The quality-only search: for when finishing the craft is already taken
//! care of. It plans touch actions that cannot fail, without consulting the
//! progress table, and memoises each reduced state on first use.
use vstd::prelude::*;

use crate::model::{action_name, excluded, is_excluded, Action, CraftState, Plan};
use crate::oracle::{
    allowed_of, calc_durability, cast, cast_of, castable, durability_cost, is_allowed,
    is_castable, success_of, success_rate,
};
use crate::progress::plan_ok;
use crate::progress::earlier;
use crate::quality::{
    lemma_quality_dims_positive, quality_dims, quality_key, quality_key_of, quality_state,
    quality_state_at,
};
use crate::slot::{cap, choose_better, empty, empty_slot, pick, Slot};
use crate::table::{
    decode, in_dims, index_of, lemma_decode_offset, lemma_offset_bounds, offset, positive, size,
    size_of,
};

verus! {

/// The touch actions of this search, with the durability each one costs.
pub open spec fn touch_skills() -> Seq<(Action, u16)> {
    seq![
        (Action::BasicTouch, 10u16),
        (Action::StandardTouch, 10u16),
        (Action::AdvancedTouch, 10u16),
        (Action::PrudentTouch, 5u16),
        (Action::PreparatoryTouch, 20u16),
        (Action::TrainedFinesse, 0u16),
        (Action::GreatStrides, 0u16),
        (Action::ByregotsBlessing, 10u16),
        (Action::Observe, 0u16),
        (Action::FocusedTouch, 10u16),
        (Action::Manipulation, 0u16),
        (Action::Innovation, 0u16),
        (Action::WasteNot, 0u16),
        (Action::WasteNotII, 0u16),
        (Action::MastersMend, 0u16),
    ]
}

fn touch_skill(k: usize) -> (r: (Action, u16))
    requires
        k < 15,
    ensures
        r == touch_skills()[k as int],
{
    match k {
        0 => (Action::BasicTouch, 10),
        1 => (Action::StandardTouch, 10),
        2 => (Action::AdvancedTouch, 10),
        3 => (Action::PrudentTouch, 5),
        4 => (Action::PreparatoryTouch, 20),
        5 => (Action::TrainedFinesse, 0),
        6 => (Action::GreatStrides, 0),
        7 => (Action::ByregotsBlessing, 10),
        8 => (Action::Observe, 0),
        9 => (Action::FocusedTouch, 10),
        10 => (Action::Manipulation, 0),
        11 => (Action::Innovation, 0),
        12 => (Action::WasteNot, 0),
        13 => (Action::WasteNotII, 0),
        _ => (Action::MastersMend, 0),
    }
}

/// The action is one this search may play in `s`: kept by the plan, allowed,
/// affordable in durability, and certain to succeed.
pub open spec fn sure_touch(p: Plan, s: CraftState, a: Action, cost: u16) -> bool {
    &&& !excluded(p, a, s)
    &&& castable(s)
    &&& allowed_of(s, action_name(a))
    &&& s.durability >= durability_cost(s, cost)
    &&& success_of(s, action_name(a)) >= 100
}

/// The best answer at `key` among the first `k` touch actions: each sure one
/// whose next state comes earlier gains its quality, plus the answer there if
/// that answer has an action (quality capped at the target).
pub open spec fn touch_fold(p: Plan, key: Seq<usize>, k: nat) -> Slot
    decreases offset(key, quality_dims(p)), k,
{
    if k == 0 || k > 15 || key.len() != 9 {
        empty_slot()
    } else {
        let best = touch_fold(p, key, (k - 1) as nat);
        let (a, cost) = touch_skills()[k - 1];
        let s = quality_state(p, key);
        if !sure_touch(p, s, a, cost) {
            best
        } else {
            let nx = cast_of(s, action_name(a));
            let top = p.base.recipe.quality as int;
            if nx.craft_points >= 0 && earlier(key, quality_key(nx), quality_dims(p)) {
                let n = touch_fold(p, quality_key(nx), 15);
                if n.action is Some {
                    pick(
                        best,
                        Slot {
                            value: cap(nx.quality + n.value, top) as u32,
                            step: (n.step + 1) as u32,
                            action: Some(a),
                        },
                    )
                } else {
                    pick(best, Slot { value: cap(nx.quality as int, top) as u32, step: 1, action: Some(a) })
                }
            } else {
                best
            }
        }
    }
}

pub open spec fn touch_slot(p: Plan, key: Seq<usize>) -> Slot {
    touch_fold(p, key, 15)
}

/// The key of craft points, durability and buffs.
pub open spec fn touch_key(craft_points: i32, durability: u16, buffs: ffxiv_crafting::Buffs) -> Seq<
    usize,
> {
    seq![
        craft_points as usize,
        (durability / 5) as usize,
        buffs.manipulation as usize,
        buffs.wast_not as usize,
        buffs.inner_quiet as usize,
        buffs.innovation as usize,
        buffs.great_strides as usize,
        buffs.touch_combo_stage as usize,
        buffs.observed as usize,
    ]
}

/// The quality-only search with its memo.
pub struct Solver {
    pub plan: Plan,
    pub dims: Vec<usize>,
    pub touch_caches: Vec<Option<Slot>>,
}

impl Solver {
    pub open spec fn ready(&self) -> bool {
        &&& plan_ok(self.plan)
        &&& self.dims@ == quality_dims(self.plan)
        &&& size(self.dims@) <= u32::MAX
        &&& self.touch_caches@.len() == size(self.dims@)
        &&& forall|j: int|
            0 <= j < self.touch_caches@.len() ==> (#[trigger] self.touch_caches@[j] matches Some(
                x,
            ) ==> x == touch_slot(self.plan, decode(j, self.dims@)) && x.step <= j + 1)
    }

    pub fn new(init_status: CraftState, mn: bool, wn: usize, obz: bool) -> (r: Self)
        requires
            0 <= init_status.attributes.craft_points,
            wn <= 8,
            size(quality_dims(Plan { base: init_status, mn, wn, obz })) <= u32::MAX,
        ensures
            r.ready(),
            r.plan == (Plan { base: init_status, mn, wn, obz }),
    {
        let plan = Plan { base: init_status, mn, wn, obz };
        let dims = crate::quality::quality_dims_of(&plan);
        proof {
            lemma_quality_dims_positive(plan);
            crate::table::lemma_size_positive(dims@);
        }
        let n = match size_of(dims.as_slice()) {
            Some(n) => n,
            None => 0,
        };
        let mut memo: Vec<Option<Slot>> = Vec::new();
        let mut i: usize = 0;
        while i < n
            invariant
                n == size(dims@),
                0 <= i <= n,
                memo@.len() == i,
                forall|j: int| 0 <= j < i ==> #[trigger] memo@[j] == None::<Slot>,
            decreases n - i,
        {
            memo.push(None);
            i = i + 1;
        }
        Solver { plan, dims, touch_caches: memo }
    }

    fn inner(&mut self, key: &Vec<usize>, i: usize) -> (r: Slot)
        requires
            old(self).ready(),
            in_dims(key@, old(self).dims@),
            i == offset(key@, old(self).dims@),
        ensures
            final(self).ready(),
            final(self).plan == old(self).plan,
            final(self).dims@ == old(self).dims@,
            r == touch_slot(old(self).plan, key@),
            r.step <= i + 1,
        decreases i,
    {
        let ghost dims = self.dims@;
        let ghost p = self.plan;
        proof {
            lemma_quality_dims_positive(p);
            lemma_offset_bounds(key@, dims);
            lemma_decode_offset(key@, dims);
        }
        if let Some(x) = self.touch_caches[i] {
            return x;
        }
        let mut best = empty();
        let s = quality_state_at(&self.plan, key);
        let top = self.plan.base.recipe.quality as u64;
        let mut k: usize = 0;
        while k < 15
            invariant
                self.ready(),
                self.plan == p,
                self.dims@ == dims,
                positive(dims),
                in_dims(key@, dims),
                i == offset(key@, dims),
                i < size(dims),
                s == quality_state(p, key@),
                top == p.base.recipe.quality,
                0 <= k <= 15,
                best == touch_fold(p, key@, k as nat),
                best.step <= i + 1,
            decreases 15 - k,
        {
            let (a, cost) = touch_skill(k);
            if !is_excluded(&self.plan, a, &s) && is_castable(&s) && is_allowed(&s, a.name())
                && s.durability >= calc_durability(&s, cost) && success_rate(&s, a.name()) >= 100 {
                let nx = cast(&s, a.name());
                if nx.craft_points >= 0 {
                    let nk = quality_key_of(&nx);
                    match index_of(nk.as_slice(), self.dims.as_slice()) {
                        Some(j) => {
                            proof {
                                lemma_offset_bounds(nk@, dims);
                            }
                            if j < i {
                                let n = self.inner(&nk, j);
                                let total = if n.action.is_some() {
                                    nx.quality as u64 + n.value as u64
                                } else {
                                    nx.quality as u64
                                };
                                let v = if total < top {
                                    total as u32
                                } else {
                                    top as u32
                                };
                                let steps = if n.action.is_some() {
                                    n.step + 1
                                } else {
                                    1
                                };
                                best = choose_better(best, Slot { value: v, step: steps, action: Some(a) });
                            }
                        },
                        None => {},
                    }
                }
            }
            k = k + 1;
        }
        self.touch_caches.set(i, Some(best));
        best
    }

    /// The best sure touch plan from the given counters (the other buffs count
    /// as zero): none when they fall outside the table.
    pub fn next_touch(&mut self, craft_points: i32, durability: u16, buffs: ffxiv_crafting::Buffs) -> (r: Slot)
        requires
            old(self).ready(),
        ensures
            final(self).ready(),
            final(self).plan == old(self).plan,
            r == (if craft_points >= 0 && in_dims(
                touch_key(craft_points, durability, buffs),
                quality_dims(old(self).plan),
            ) {
                touch_slot(old(self).plan, touch_key(craft_points, durability, buffs))
            } else {
                empty_slot()
            }),
    {
        proof {
            lemma_quality_dims_positive(self.plan);
        }
        if craft_points < 0 {
            return empty();
        }
        let mut key: Vec<usize> = Vec::new();
        key.push(craft_points as usize);
        key.push(durability as usize / 5);
        key.push(buffs.manipulation as usize);
        key.push(buffs.wast_not as usize);
        key.push(buffs.inner_quiet as usize);
        key.push(buffs.innovation as usize);
        key.push(buffs.great_strides as usize);
        key.push(buffs.touch_combo_stage as usize);
        key.push(buffs.observed as usize);
        assert(key@ =~= touch_key(craft_points, durability, buffs));
        match index_of(key.as_slice(), self.dims.as_slice()) {
            Some(i) => {
                proof {
                    lemma_offset_bounds(key@, self.dims@);
                }
                self.inner(&key, i)
            },
            None => empty(),
        }
    }
}

} // verus!
