//! The simulation, reached through the `ffxiv_crafting` crate.
//!
//! What one action does to a state takes the crate's formulas to state, and
//! depends on the state and the action alone: its result is named here, and
//! the planners are verified against that name.
use vstd::prelude::*;

use crate::model::{is_action_name, CraftState};

verus! {

/// The state after the named action succeeds on `s` under the normal condition.
pub uninterp spec fn cast_of(s: CraftState, name: Seq<char>) -> CraftState;

/// Whether the simulation allows the named action on `s`.
pub uninterp spec fn allowed_of(s: CraftState, name: Seq<char>) -> bool;

#[verifier::external_type_specification]
#[verifier::external_body]
pub struct ExCastActionError(ffxiv_crafting::CastActionError);

/// The states on which the simulation's arithmetic stays in range: with these
/// bounds no addition of progress, quality, durability, craft points or steps
/// can overflow, no subtraction of progress can go below zero (final appraisal
/// holds a completed craft one point short of the difficulty), and every
/// inner-quiet stack count is one the crate negates safely.
pub open spec fn castable(s: CraftState) -> bool {
    &&& s.progress <= s.recipe.difficulty
    &&& (s.recipe.difficulty >= 1 || s.buffs.final_appraisal == 0)
    &&& s.recipe.difficulty <= 40000
    &&& s.attributes.craftsmanship <= 10000
    &&& s.attributes.control <= 10000
    &&& s.quality <= 1_000_000_000
    &&& s.recipe.quality <= 1_000_000_000
    &&& s.recipe.job_level <= 245
    &&& s.durability <= 60000
    &&& 0 <= s.craft_points <= 1_000_000
    &&& 0 <= s.step < 1_000_000
    &&& s.buffs.inner_quiet <= 10
    &&& s.buffs.careful_observation_used < 255
    &&& s.buffs.heart_and_soul_used < 255
}

/// The states on which the simulation's legality check stays in range: its
/// only arithmetic that can overflow adds 10 to the recipe's job level.
pub open spec fn checkable(s: CraftState) -> bool {
    s.recipe.job_level <= 245
}

pub fn is_checkable(s: &CraftState) -> (r: bool)
    ensures
        r == checkable(*s),
{
    s.recipe.job_level <= 245
}

pub fn is_castable(s: &CraftState) -> (r: bool)
    ensures
        r == castable(*s),
{
    s.progress <= s.recipe.difficulty && (s.recipe.difficulty >= 1 || s.buffs.final_appraisal
        == 0) && s.recipe.difficulty <= 40000
        && s.attributes.craftsmanship <= 10000 && s.attributes.control <= 10000
        && s.quality <= 1_000_000_000 && s.recipe.quality <= 1_000_000_000
        && s.recipe.job_level <= 245 && s.durability <= 60000 && 0 <= s.craft_points
        && s.craft_points <= 1_000_000 && 0 <= s.step && s.step < 1_000_000 && s.buffs.inner_quiet <= 10
        && s.buffs.careful_observation_used < 255 && s.buffs.heart_and_soul_used < 255
}

/// Relies on `Status::is_action_allowed` of ffxiv_crafting, on the status that
/// `Status::new` builds from the same attributes and recipe (normal condition)
/// with the state's counters written in; the action comes from its name through
/// `Actions::try_from`, which knows every name of `action_name`.
#[verifier::external_body]
pub fn check_action(s: &CraftState, name: &str) -> (r: Result<(), ffxiv_crafting::CastActionError>)
    requires
        checkable(*s),
        is_action_name(name@),
    ensures
        r is Ok == allowed_of(*s, name@),
{
    let rlv = ffxiv_crafting::data::recipe_level_table(s.recipe.rlv);
    let mut st = ffxiv_crafting::Status::new(s.attributes, s.recipe, rlv);
    st.buffs = s.buffs;
    st.durability = s.durability;
    st.craft_points = s.craft_points;
    st.progress = s.progress;
    st.quality = s.quality;
    st.step = s.step;
    st.is_action_allowed(ffxiv_crafting::Actions::try_from(name).unwrap())
}

/// Whether the simulation allows the named action on `s`.
pub fn is_allowed(s: &CraftState, name: &str) -> (r: bool)
    requires
        checkable(*s),
        is_action_name(name@),
    ensures
        r == allowed_of(*s, name@),
{
    match check_action(s, name) {
        Ok(_) => true,
        Err(_) => false,
    }
}

/// Relies on `Status::cast_action` of ffxiv_crafting, on the status built as
/// for `check_action`; the counters it changes are read back, and it writes
/// neither the attributes nor the recipe.
#[verifier::external_body]
pub fn cast(s: &CraftState, name: &str) -> (r: CraftState)
    requires
        castable(*s),
        is_action_name(name@),
    ensures
        r == cast_of(*s, name@),
        r.attributes == s.attributes,
        r.recipe == s.recipe,
{
    let rlv = ffxiv_crafting::data::recipe_level_table(s.recipe.rlv);
    let mut st = ffxiv_crafting::Status::new(s.attributes, s.recipe, rlv);
    st.buffs = s.buffs;
    st.durability = s.durability;
    st.craft_points = s.craft_points;
    st.progress = s.progress;
    st.quality = s.quality;
    st.step = s.step;
    st.cast_action(ffxiv_crafting::Actions::try_from(name).unwrap());
    let (buffs, durability, craft_points) = (st.buffs, st.durability, st.craft_points);
    CraftState { buffs, durability, craft_points, progress: st.progress, quality: st.quality, step: st.step, ..*s }
}

/// The durability that an action of nominal cost `d` takes from `s` under the
/// normal condition: half of it, rounded in favour of the crafter, under
/// waste-not.
pub open spec fn durability_cost(s: CraftState, d: u16) -> u16 {
    if s.buffs.wast_not > 0 {
        (d - d / 2) as u16
    } else {
        d
    }
}

/// Relies on `Status::calc_durability` of ffxiv_crafting, on the status built
/// as for `check_action`: under the normal condition only waste-not halves the
/// cost.
#[verifier::external_body]
pub fn calc_durability(s: &CraftState, d: u16) -> (r: u16)
    requires
        castable(*s),
    ensures
        r == durability_cost(*s, d),
{
    let rlv = ffxiv_crafting::data::recipe_level_table(s.recipe.rlv);
    let mut st = ffxiv_crafting::Status::new(s.attributes, s.recipe, rlv);
    st.buffs = s.buffs;
    st.durability = s.durability;
    st.craft_points = s.craft_points;
    st.progress = s.progress;
    st.quality = s.quality;
    st.step = s.step;
    st.calc_durability(d)
}

/// The chance in percent that the named action succeeds on `s` under the
/// normal condition.
pub open spec fn success_of(s: CraftState, name: Seq<char>) -> u8 {
    if name == "hasty_touch"@ {
        60
    } else if name == "rapid_synthesis"@ {
        50
    } else if name == "focused_synthesis"@ || name == "focused_touch"@ {
        if s.buffs.observed > 0 {
            100
        } else {
            50
        }
    } else {
        100
    }
}

/// Relies on `Status::success_rate` of ffxiv_crafting, on the status built as
/// for `is_allowed`; under the normal condition there is no bonus.
#[verifier::external_body]
pub fn success_rate(s: &CraftState, name: &str) -> (r: u8)
    requires
        castable(*s),
        is_action_name(name@),
    ensures
        r == success_of(*s, name@),
{
    let rlv = ffxiv_crafting::data::recipe_level_table(s.recipe.rlv);
    let mut st = ffxiv_crafting::Status::new(s.attributes, s.recipe, rlv);
    st.buffs = s.buffs;
    st.durability = s.durability;
    st.craft_points = s.craft_points;
    st.progress = s.progress;
    st.quality = s.quality;
    st.step = s.step;
    st.success_rate(ffxiv_crafting::Actions::try_from(name).unwrap())
}

/// Why `simulate` skipped an action.
pub enum Refusal {
    /// The simulation does not allow it, for the reason it gives.
    Simulation(ffxiv_crafting::CastActionError),
    /// The simulation allows it, but the state is outside the range on which
    /// casting is safe to run (see `castable`), or outside the range of the
    /// legality check itself (see `checkable`).
    OutOfRange,
}

/// A skipped action: its position and the reason.
pub struct CastErrorPos {
    pub pos: usize,
    pub err: Refusal,
}

pub struct SimulateResult {
    pub status: CraftState,
    pub errors: Vec<CastErrorPos>,
}

/// The state after casting, in order, those of `acts` that the simulation
/// allows, and the skipped positions, each with whether the simulation itself
/// refused it (`true`) or the state was out of range (`false`): out of range
/// of the legality check, or allowed but out of range for casting.
pub open spec fn simulated(s: CraftState, acts: Seq<crate::model::Action>) -> (CraftState, Seq<(usize, bool)>)
    decreases acts.len(),
{
    if acts.len() == 0 {
        (s, seq![])
    } else {
        let (t, refused) = simulated(s, acts.drop_last());
        let a = crate::model::action_name(acts.last());
        if !checkable(t) {
            (t, refused.push(((acts.len() - 1) as usize, false)))
        } else if !allowed_of(t, a) {
            (t, refused.push(((acts.len() - 1) as usize, true)))
        } else if castable(t) {
            (cast_of(t, a), refused)
        } else {
            (t, refused.push(((acts.len() - 1) as usize, false)))
        }
    }
}

pub open spec fn error_view(e: CastErrorPos) -> (usize, bool) {
    (e.pos, e.err is Simulation)
}

/// Plays `actions` from `status`, skipping each one that the simulation
/// refuses (recording its position and the simulation's reason) or that the
/// state is out of range for.
pub fn simulate(status: CraftState, actions: &Vec<crate::model::Action>) -> (r: SimulateResult)
    ensures
        r.status == simulated(status, actions@).0,
        r.errors@.map_values(|e: CastErrorPos| error_view(e)) == simulated(status, actions@).1,
{
    let mut cur = status;
    let mut errors: Vec<CastErrorPos> = Vec::new();
    let mut i: usize = 0;
    while i < actions.len()
        invariant
            0 <= i <= actions@.len(),
            cur == simulated(status, actions@.subrange(0, i as int)).0,
            errors@.map_values(|e: CastErrorPos| error_view(e)) == simulated(
                status,
                actions@.subrange(0, i as int),
            ).1,
        decreases actions@.len() - i,
    {
        let a = actions[i];
        assert(actions@.subrange(0, i as int + 1).drop_last() =~= actions@.subrange(0, i as int));
        let ghost before = errors@;
        if !is_checkable(&cur) {
            errors.push(CastErrorPos { pos: i, err: Refusal::OutOfRange });
        } else {
            match check_action(&cur, a.name()) {
                Ok(_) => {
                    if is_castable(&cur) {
                        cur = cast(&cur, a.name());
                    } else {
                        errors.push(CastErrorPos { pos: i, err: Refusal::OutOfRange });
                    }
                },
                Err(e) => {
                    errors.push(CastErrorPos { pos: i, err: Refusal::Simulation(e) });
                },
            }
        }
        assert(errors@.map_values(|e: CastErrorPos| error_view(e)) =~= simulated(
            status,
            actions@.subrange(0, i as int + 1),
        ).1);
        i = i + 1;
    }
    assert(actions@.subrange(0, i as int) =~= actions@);
    SimulateResult { status: cur, errors }
}

} // verus!
