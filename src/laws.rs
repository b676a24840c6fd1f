//! Properties that hold of the planners for every plan and state.
use vstd::prelude::*;

use crate::model::{action_name, excluded, finished, Action, CraftState, Plan};
use crate::oracle::{allowed_of, cast_of, castable};
use crate::progress::{
    reached, reached_below, ProgressSolver,     progress_fold, progress_state, synth_skills,     earlier, progress_dims, progress_key, progress_read, progress_run,
};
use crate::quality::{
    credits_of, quality_answer, goes_on, quality_dims, quality_fold, quality_key, quality_read, quality_run, quality_state,
    still_finishes, touch_skills,
};
use crate::slot::{better, cap, Slot};
use crate::table::{lemma_offset_bounds, offset};

verus! {

/// The state after casting `acts` in order from `s`.
pub open spec fn replay(s: CraftState, acts: Seq<Action>) -> CraftState
    decreases acts.len(),
{
    if acts.len() == 0 {
        s
    } else {
        replay(cast_of(s, action_name(acts[0])), acts.drop_first())
    }
}

/// Each action of `acts` is cast on a state with craft points and durability
/// in range (see `castable`), where the simulation allows it.
pub open spec fn legal_run(s: CraftState, acts: Seq<Action>) -> bool
    decreases acts.len(),
{
    acts.len() == 0 || (castable(s) && allowed_of(s, action_name(acts[0])) && legal_run(
        cast_of(s, action_name(acts[0])),
        acts.drop_first(),
    ))
}

/// No action of `acts` but the last leaves the craft over: a run stops at
/// the action that completes it.
pub open spec fn stops_at_completion(s: CraftState, acts: Seq<Action>) -> bool
    decreases acts.len(),
{
    acts.len() <= 1 || (!finished(cast_of(s, action_name(acts[0]))) && stops_at_completion(
        cast_of(s, action_name(acts[0])),
        acts.drop_first(),
    ))
}

/// Once the craft is over, neither planner offers an action, and their
/// `read_all` returns nothing.
pub proof fn lemma_absorption(p: Plan, credit: int, fp: Seq<u16>, s: CraftState)
    requires
        s.progress >= s.recipe.difficulty,
    ensures
        progress_read(p, s) is None,
        quality_read(p, credit, s) is None,
        quality_answer(p, fp, s) is None,
        progress_run(p, s).len() == 0,
        quality_run(p, fp, s).len() == 0,
{
}

/// A progress `read_all` is legal step by step, and takes at most one more
/// step than the offset of its starting state in the progress table.
pub proof fn lemma_progress_run_bounded(p: Plan, s: CraftState)
    ensures
        legal_run(s, progress_run(p, s)),
        stops_at_completion(s, progress_run(p, s)),
        progress_run(p, s).len() > 0 ==> progress_run(p, s).len() <= offset(
            progress_key(s),
            progress_dims(p),
        ) + 1,
    decreases offset(progress_key(s), progress_dims(p)),
{
    let r = progress_run(p, s);
    if let Some(a) = progress_read(p, s) {
        if castable(s) && allowed_of(s, action_name(a)) {
            let nx = cast_of(s, action_name(a));
            lemma_offset_bounds(progress_key(s), progress_dims(p));
            if !finished(nx) && nx.craft_points >= 0 && earlier(
                progress_key(s),
                progress_key(nx),
                progress_dims(p),
            ) {
                lemma_progress_run_bounded(p, nx);
                assert(r.drop_first() =~= progress_run(p, nx));
            } else {
                assert(r.drop_first() =~= seq![]);
            }
            assert(r[0] == a);
            assert(legal_run(nx, r.drop_first()));
        }
    }
}

/// A quality `read_all`, with any credits, is legal step by step, and takes at
/// most one more step than the offset of its starting state in the quality
/// table.
#[verifier::rlimit(60)]
pub proof fn lemma_quality_run_bounded(p: Plan, fp: Seq<u16>, s: CraftState)
    ensures
        legal_run(s, quality_run(p, fp, s)),
        stops_at_completion(s, quality_run(p, fp, s)),
        quality_run(p, fp, s).len() > 1 ==> quality_run(p, fp, s).len() <= offset(
            quality_key(s),
            quality_dims(p),
        ) + 1,
    decreases offset(quality_key(s), quality_dims(p)),
{
    let r = quality_run(p, fp, s);
    if let Some(a) = quality_answer(p, fp, s) {
        if castable(s) && allowed_of(s, action_name(a)) {
            let nx = cast_of(s, action_name(a));
            if goes_on(p, s, nx) {
                lemma_offset_bounds(quality_key(s), quality_dims(p));
                lemma_quality_run_bounded(p, fp, nx);
                assert(r.drop_first() =~= quality_run(p, fp, nx));
            } else {
                assert(r.drop_first() =~= seq![]);
            }
            assert(r[0] == a);
            assert(legal_run(nx, r.drop_first()));
        }
    }
}

/// What the `k`-th touch action offers at `key`, when the quality recurrence
/// admits it.
pub open spec fn quality_candidate(p: Plan, credit: int, key: Seq<usize>, k: int) -> Option<Slot> {
    let a = touch_skills()[k];
    let s = quality_state(p, key);
    if excluded(p, a, s) || !castable(s) || !allowed_of(s, action_name(a)) {
        None
    } else {
        let nx = cast_of(s, action_name(a));
        if still_finishes(p, nx, credit) && earlier(key, quality_key(nx), quality_dims(p)) {
            let n = quality_fold(p, credit, quality_key(nx), 15);
            Some(
                Slot {
                    value: cap(nx.quality + n.value, p.base.recipe.quality as int) as u32,
                    step: (n.step + 1) as u32,
                    action: Some(a),
                },
            )
        } else {
            None
        }
    }
}

/// The quality answer is never beaten by an admitted action: none attains
/// more quality, and none attains as much in fewer steps.
pub proof fn lemma_quality_tie_break(p: Plan, credit: int, key: Seq<usize>, k: nat)
    requires
        key.len() == 9,
        key[1] != 0,
        k <= 15,
    ensures
        forall|j: int|
            0 <= j < k ==> (#[trigger] quality_candidate(p, credit, key, j) matches Some(c)
                ==> !better(c, quality_fold(p, credit, key, k))),
    decreases k,
{
    if k > 0 {
        lemma_quality_tie_break(p, credit, key, (k - 1) as nat);
        let prev = quality_fold(p, credit, key, (k - 1) as nat);
        let cur = quality_fold(p, credit, key, k);
        assert(quality_candidate(p, credit, key, k - 1) matches Some(c) ==> cur == (if better(
            c,
            prev,
        ) {
            c
        } else {
            prev
        }));
        assert(quality_candidate(p, credit, key, k - 1) is None ==> cur == prev);
        assert forall|j: int|
            0 <= j < k implies (#[trigger] quality_candidate(p, credit, key, j) matches Some(c)
                ==> !better(c, cur)) by {
            if j < k - 1 {
                assert(quality_candidate(p, credit, key, j) matches Some(c) ==> !better(c, prev));
            }
        }
    }
}

/// What the `k`-th synthesis action offers at `key`, when the progress
/// recurrence admits it.
pub open spec fn progress_candidate(p: Plan, key: Seq<usize>, k: int) -> Option<Slot> {
    let a = synth_skills()[k];
    let s = progress_state(p, key);
    let diff = p.base.recipe.difficulty as int;
    if excluded(p, a, s) || !castable(s) || !allowed_of(s, action_name(a)) {
        None
    } else {
        let nx = cast_of(s, action_name(a));
        if nx.durability == 0 {
            Some(Slot { value: cap(nx.progress as int, diff) as u32, step: 1, action: Some(a) })
        } else if nx.craft_points >= 0 && earlier(key, progress_key(nx), progress_dims(p)) {
            let n = progress_fold(p, progress_key(nx), 11);
            Some(
                Slot {
                    value: cap(nx.progress + n.value, diff) as u32,
                    step: (n.step + 1) as u32,
                    action: Some(a),
                },
            )
        } else {
            None
        }
    }
}

/// The progress answer is never beaten by an admitted action: none makes
/// more progress, and none makes as much in fewer steps.
pub proof fn lemma_progress_tie_break(p: Plan, key: Seq<usize>, k: nat)
    requires
        key.len() == 7,
        key[1] != 0,
        k <= 11,
    ensures
        forall|j: int|
            0 <= j < k ==> (#[trigger] progress_candidate(p, key, j) matches Some(c) ==> !better(
                c,
                progress_fold(p, key, k),
            )),
    decreases k,
{
    if k > 0 {
        lemma_progress_tie_break(p, key, (k - 1) as nat);
        let prev = progress_fold(p, key, (k - 1) as nat);
        let cur = progress_fold(p, key, k);
        assert(progress_candidate(p, key, k - 1) matches Some(c) ==> cur == (if better(c, prev) {
            c
        } else {
            prev
        }));
        assert(progress_candidate(p, key, k - 1) is None ==> cur == prev);
        assert forall|j: int|
            0 <= j < k implies (#[trigger] progress_candidate(p, key, j) matches Some(c)
                ==> !better(c, cur)) by {
            if j < k - 1 {
                assert(progress_candidate(p, key, j) matches Some(c) ==> !better(c, prev));
            }
        }
    }
}

/// Two ready progress planners of one plan hold the same progress values.
pub proof fn lemma_same_progress_values(a: ProgressSolver, b: ProgressSolver, v: nat)
    requires
        a.ready(),
        b.ready(),
        a.plan == b.plan,
    ensures
        reached_below(a, v) == reached_below(b, v),
    decreases v,
{
    assert(a.table@ =~= b.table@);
    if v > 0 {
        lemma_same_progress_values(a, b, (v - 1) as nat);
        assert(reached(a, v - 1) == reached(b, v - 1));
    }
}

/// The lazy and the eager quality planner of one plan, with as many credits,
/// answer alike on every state: the same `read`, and the same `read_all`.
pub proof fn lemma_strategies_agree(
    lazy: crate::quality::QualitySolver,
    eager: crate::ordinary::OrdinarySolver,
    s: CraftState,
)
    requires
        lazy.ready(),
        eager.ready(),
        lazy.plan() == eager.plan(),
        lazy.pg == eager.pg,
    ensures
        lazy.final_progress@ == eager.final_progress@,
        quality_answer(lazy.plan(), lazy.final_progress@, s) == quality_answer(
            eager.plan(),
            eager.final_progress@,
            s,
        ),
        quality_run(lazy.plan(), lazy.final_progress@, s) == quality_run(
            eager.plan(),
            eager.final_progress@,
            s,
        ),
{
    let diff = lazy.plan().base.recipe.difficulty as int;
    lemma_same_progress_values(lazy.progress_solver, eager.driver, (diff + 1) as nat);
    assert(credits_of(lazy.progress_solver, lazy.pg as nat) =~= credits_of(
        eager.driver,
        eager.pg as nat,
    ));
}

} // verus!
