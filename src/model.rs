//! The craft state that the planners work on, and the actions they choose.
use vstd::prelude::*;

verus! {

#[verifier::external_type_specification]
pub struct ExAttributes(ffxiv_crafting::Attributes);

#[verifier::external_type_specification]
pub struct ExRecipe(ffxiv_crafting::Recipe);

#[verifier::external_type_specification]
pub struct ExBuffs(ffxiv_crafting::Buffs);

/// Durability is spent in multiples of this quantum.
pub const DURABILITY_QUANTUM: u16 = 5;

/// One craft in progress, under the normal condition.
#[derive(Clone, Copy)]
pub struct CraftState {
    pub attributes: ffxiv_crafting::Attributes,
    pub recipe: ffxiv_crafting::Recipe,
    pub buffs: ffxiv_crafting::Buffs,
    pub durability: u16,
    pub craft_points: i32,
    pub progress: u16,
    pub quality: u32,
    pub step: i32,
}

/// The buffs of a fresh craft: every counter at zero.
pub open spec fn no_buffs() -> ffxiv_crafting::Buffs {
    ffxiv_crafting::Buffs {
        muscle_memory: 0,
        great_strides: 0,
        veneration: 0,
        innovation: 0,
        inner_quiet: 0,
        final_appraisal: 0,
        manipulation: 0,
        wast_not: 0,
        heart_and_soul: 0,
        careful_observation_used: 0,
        heart_and_soul_used: 0,
        touch_combo_stage: 0,
        observed: 0,
    }
}

pub fn empty_buffs() -> (r: ffxiv_crafting::Buffs)
    ensures
        r == no_buffs(),
{
    ffxiv_crafting::Buffs {
        muscle_memory: 0,
        great_strides: 0,
        veneration: 0,
        innovation: 0,
        inner_quiet: 0,
        final_appraisal: 0,
        manipulation: 0,
        wast_not: 0,
        heart_and_soul: 0,
        careful_observation_used: 0,
        heart_and_soul_used: 0,
        touch_combo_stage: 0,
        observed: 0,
    }
}

/// A craft is over once progress reaches the difficulty or durability runs out.
pub open spec fn finished(s: CraftState) -> bool {
    s.progress >= s.recipe.difficulty || s.durability == 0
}

impl CraftState {
    /// The state before the first action: full durability and craft points.
    pub fn new(attributes: ffxiv_crafting::Attributes, recipe: ffxiv_crafting::Recipe) -> (r: CraftState)
        ensures
            r.attributes == attributes,
            r.recipe == recipe,
            r.buffs == no_buffs(),
            r.durability == recipe.durability,
            r.craft_points == attributes.craft_points,
            r.progress == 0,
            r.quality == 0,
            r.step == 0,
    {
        CraftState {
            attributes,
            recipe,
            buffs: empty_buffs(),
            durability: recipe.durability,
            craft_points: attributes.craft_points,
            progress: 0,
            quality: 0,
            step: 0,
        }
    }

    pub fn is_finished(&self) -> (r: bool)
        ensures
            r == finished(*self),
    {
        self.progress >= self.recipe.difficulty || self.durability == 0
    }
}

/// The actions of the simulation (the failure outcomes of risky actions are
/// not among them: the planners assume success).
#[derive(Clone, Copy, Debug, PartialEq, Eq, Structural)]
pub enum Action {
    BasicSynthesis,
    BasicTouch,
    MastersMend,
    HastyTouch,
    RapidSynthesis,
    Observe,
    TricksOfTheTrade,
    WasteNot,
    Veneration,
    StandardTouch,
    GreatStrides,
    Innovation,
    FinalAppraisal,
    WasteNotII,
    ByregotsBlessing,
    PreciseTouch,
    MuscleMemory,
    CarefulSynthesis,
    Manipulation,
    PrudentTouch,
    FocusedSynthesis,
    FocusedTouch,
    Reflect,
    PreparatoryTouch,
    Groundwork,
    DelicateSynthesis,
    IntensiveSynthesis,
    TrainedEye,
    AdvancedTouch,
    PrudentSynthesis,
    TrainedFinesse,
    CarefulObservation,
    HeartAndSoul,
}

/// The name under which the simulation knows each action.
pub open spec fn action_name(a: Action) -> Seq<char> {
    match a {
        Action::BasicSynthesis => "basic_synthesis"@,
        Action::BasicTouch => "basic_touch"@,
        Action::MastersMend => "masters_mend"@,
        Action::HastyTouch => "hasty_touch"@,
        Action::RapidSynthesis => "rapid_synthesis"@,
        Action::Observe => "observe"@,
        Action::TricksOfTheTrade => "tricks_of_the_trade"@,
        Action::WasteNot => "waste_not"@,
        Action::Veneration => "veneration"@,
        Action::StandardTouch => "standard_touch"@,
        Action::GreatStrides => "great_strides"@,
        Action::Innovation => "innovation"@,
        Action::FinalAppraisal => "final_appraisal"@,
        Action::WasteNotII => "waste_not_ii"@,
        Action::ByregotsBlessing => "byregot_s_blessing"@,
        Action::PreciseTouch => "precise_touch"@,
        Action::MuscleMemory => "muscle_memory"@,
        Action::CarefulSynthesis => "careful_synthesis"@,
        Action::Manipulation => "manipulation"@,
        Action::PrudentTouch => "prudent_touch"@,
        Action::FocusedSynthesis => "focused_synthesis"@,
        Action::FocusedTouch => "focused_touch"@,
        Action::Reflect => "reflect"@,
        Action::PreparatoryTouch => "preparatory_touch"@,
        Action::Groundwork => "groundwork"@,
        Action::DelicateSynthesis => "delicate_synthesis"@,
        Action::IntensiveSynthesis => "intensive_synthesis"@,
        Action::TrainedEye => "trained_eye"@,
        Action::AdvancedTouch => "advanced_touch"@,
        Action::PrudentSynthesis => "prudent_synthesis"@,
        Action::TrainedFinesse => "trained_finesse"@,
        Action::CarefulObservation => "careful_observation"@,
        Action::HeartAndSoul => "heart_and_soul"@,
    }
}

pub open spec fn is_action_name(n: Seq<char>) -> bool {
    exists|a: Action| #[trigger] action_name(a) == n
}

impl Action {
    pub fn name(&self) -> (r: &'static str)
        ensures
            r@ == action_name(*self),
            is_action_name(r@),
    {
        let r = match self {
            Action::BasicSynthesis => "basic_synthesis",
            Action::BasicTouch => "basic_touch",
            Action::MastersMend => "masters_mend",
            Action::HastyTouch => "hasty_touch",
            Action::RapidSynthesis => "rapid_synthesis",
            Action::Observe => "observe",
            Action::TricksOfTheTrade => "tricks_of_the_trade",
            Action::WasteNot => "waste_not",
            Action::Veneration => "veneration",
            Action::StandardTouch => "standard_touch",
            Action::GreatStrides => "great_strides",
            Action::Innovation => "innovation",
            Action::FinalAppraisal => "final_appraisal",
            Action::WasteNotII => "waste_not_ii",
            Action::ByregotsBlessing => "byregot_s_blessing",
            Action::PreciseTouch => "precise_touch",
            Action::MuscleMemory => "muscle_memory",
            Action::CarefulSynthesis => "careful_synthesis",
            Action::Manipulation => "manipulation",
            Action::PrudentTouch => "prudent_touch",
            Action::FocusedSynthesis => "focused_synthesis",
            Action::FocusedTouch => "focused_touch",
            Action::Reflect => "reflect",
            Action::PreparatoryTouch => "preparatory_touch",
            Action::Groundwork => "groundwork",
            Action::DelicateSynthesis => "delicate_synthesis",
            Action::IntensiveSynthesis => "intensive_synthesis",
            Action::TrainedEye => "trained_eye",
            Action::AdvancedTouch => "advanced_touch",
            Action::PrudentSynthesis => "prudent_synthesis",
            Action::TrainedFinesse => "trained_finesse",
            Action::CarefulObservation => "careful_observation",
            Action::HeartAndSoul => "heart_and_soul",
        };
        proof {
            assert(action_name(*self) == r@);
        }
        r
    }
}

/// The fixed inputs of a planner: the craft it plans for, and which of the
/// buff actions it may use (manipulation, a waste-not tier of 0, 4 or 8 steps,
/// observe).
#[derive(Clone, Copy)]
pub struct Plan {
    pub base: CraftState,
    pub mn: bool,
    pub wn: usize,
    pub obz: bool,
}

/// The actions that a plan leaves out in state `s`.
pub open spec fn excluded(p: Plan, a: Action, s: CraftState) -> bool {
    ||| (a == Action::Manipulation && !p.mn)
    ||| (a == Action::WasteNotII && p.wn < 8)
    ||| (a == Action::WasteNot && p.wn < 4)
    ||| (a == Action::Observe && !p.obz)
    ||| (a == Action::FocusedSynthesis && s.buffs.observed == 0)
    ||| (a == Action::FocusedTouch && s.buffs.observed == 0)
}

pub fn is_excluded(p: &Plan, a: Action, s: &CraftState) -> (r: bool)
    ensures
        r == excluded(*p, a, *s),
{
    match a {
        Action::Manipulation => !p.mn,
        Action::WasteNotII => p.wn < 8,
        Action::WasteNot => p.wn < 4,
        Action::Observe => !p.obz,
        Action::FocusedSynthesis | Action::FocusedTouch => s.buffs.observed == 0,
        _ => false,
    }
}

} // verus!
