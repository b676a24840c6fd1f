use craft_solver::model::{Action, CraftState};
use craft_solver::oracle::{calc_durability, cast, is_allowed, simulate, success_rate, Refusal};
use craft_solver::registry::{decide, Command, Entry, RegistryError};
use ffxiv_crafting::{Attributes, Recipe};

fn init() -> CraftState {
    let r = Recipe {
        rlv: 545,
        job_level: 87,
        difficulty: 3200,
        quality: 6900,
        durability: 80,
        conditions_flag: 15,
    };
    let a = Attributes {
        level: 90,
        craftsmanship: 4214,
        control: 3528,
        craft_points: 691,
    };
    CraftState::new(a, r)
}

#[test]
fn basic_synthesis_makes_progress_and_spends_durability() {
    let s = init();
    let t = cast(&s, Action::BasicSynthesis.name());
    assert!(t.progress > 0);
    assert_eq!(t.durability, 70);
    assert_eq!(t.craft_points, 691);
    assert_eq!(t.step, 1);
}

#[test]
fn basic_touch_adds_quality_and_inner_quiet() {
    let s = init();
    let t = cast(&s, Action::BasicTouch.name());
    assert!(t.quality > 0);
    assert_eq!(t.buffs.inner_quiet, 1);
    assert_eq!(t.craft_points, 691 - 18);
}

#[test]
fn legality_follows_the_simulation() {
    let s = init();
    assert!(is_allowed(&s, Action::BasicSynthesis.name()));
    assert!(!is_allowed(&s, Action::ByregotsBlessing.name()));
    let mut poor = s;
    poor.craft_points = 0;
    assert!(!is_allowed(&poor, Action::BasicTouch.name()));
}

#[test]
fn waste_not_halves_durability_cost() {
    let s = init();
    assert_eq!(calc_durability(&s, 10), 10);
    let t = cast(&s, Action::WasteNot.name());
    assert_eq!(calc_durability(&t, 10), 5);
    assert_eq!(calc_durability(&t, 5), 3);
}

#[test]
fn risky_actions_are_not_sure() {
    let s = init();
    assert_eq!(success_rate(&s, Action::HastyTouch.name()), 60);
    assert_eq!(success_rate(&s, Action::FocusedTouch.name()), 50);
    assert_eq!(success_rate(&s, Action::BasicTouch.name()), 100);
    let t = cast(&s, Action::Observe.name());
    assert_eq!(success_rate(&t, Action::FocusedTouch.name()), 100);
}

#[test]
fn every_action_name_is_known_to_the_simulation() {
    let all = [
        Action::BasicSynthesis, Action::BasicTouch, Action::MastersMend, Action::HastyTouch,
        Action::RapidSynthesis, Action::Observe, Action::TricksOfTheTrade, Action::WasteNot,
        Action::Veneration, Action::StandardTouch, Action::GreatStrides, Action::Innovation,
        Action::FinalAppraisal, Action::WasteNotII, Action::ByregotsBlessing, Action::PreciseTouch,
        Action::MuscleMemory, Action::CarefulSynthesis, Action::Manipulation, Action::PrudentTouch,
        Action::FocusedSynthesis, Action::FocusedTouch, Action::Reflect, Action::PreparatoryTouch,
        Action::Groundwork, Action::DelicateSynthesis, Action::IntensiveSynthesis,
        Action::TrainedEye, Action::AdvancedTouch, Action::PrudentSynthesis,
        Action::TrainedFinesse, Action::CarefulObservation, Action::HeartAndSoul,
    ];
    for a in all {
        assert!(ffxiv_crafting::Actions::try_from(a.name()).is_ok());
    }
}

#[test]
fn fresh_state_is_not_finished() {
    let s = init();
    assert!(!s.is_finished());
    assert_eq!(s.durability, 80);
    assert_eq!(s.craft_points, 691);
}

#[test]
fn simulate_skips_refused_actions() {
    let s = init();
    let actions = vec![Action::ByregotsBlessing, Action::BasicTouch, Action::BasicSynthesis];
    let result = simulate(s, &actions);
    assert_eq!(result.errors.len(), 1);
    assert_eq!(result.errors[0].pos, 0);
    match &result.errors[0].err {
        Refusal::Simulation(e) => assert_eq!(e.to_string(), "require at least 1 stack of inner quiet"),
        Refusal::OutOfRange => panic!("the state is in range"),
    }
    let end = result.status;
    assert!(end.quality > 0);
    assert!(end.progress > 0);
    assert_eq!(end.step, 2);
}

#[test]
fn simulate_reports_states_out_of_range() {
    let mut s = init();
    s.craft_points = 2_000_000;
    let result = simulate(s, &vec![Action::BasicSynthesis]);
    assert_eq!(result.errors.len(), 1);
    assert!(matches!(result.errors[0].err, Refusal::OutOfRange));
    assert_eq!(result.status.progress, 0);
}

#[test]
fn simulate_asks_the_simulation_beyond_the_cast_range() {
    let mut s = init();
    s.attributes.craftsmanship = 20_000;
    let result = simulate(s, &vec![Action::ByregotsBlessing, Action::BasicSynthesis]);
    assert_eq!(result.errors.len(), 2);
    assert!(matches!(result.errors[0].err, Refusal::Simulation(_)));
    assert!(matches!(result.errors[1].err, Refusal::OutOfRange));
}

#[test]
fn final_appraisal_on_zero_difficulty_is_out_of_range() {
    let mut s = init();
    s.recipe.difficulty = 0;
    s.buffs.final_appraisal = 3;
    assert!(!craft_solver::oracle::is_castable(&s));
    s.buffs.final_appraisal = 0;
    assert!(craft_solver::oracle::is_castable(&s));
}

#[test]
fn registry_allows_one_build_per_key() {
    assert_eq!(decide(Entry::Absent, Command::Create), (Ok(()), Entry::Building));
    assert_eq!(decide(Entry::Building, Command::Create), (Err(RegistryError::StillBuilding), Entry::Building));
    assert_eq!(decide(Entry::Ready, Command::Create), (Err(RegistryError::AlreadyExists), Entry::Ready));
    assert_eq!(decide(Entry::Building, Command::Read), (Err(RegistryError::NotPrepared), Entry::Building));
    assert_eq!(decide(Entry::Absent, Command::Read), (Err(RegistryError::NotExists), Entry::Absent));
    assert_eq!(decide(Entry::Building, Command::Finish), (Ok(()), Entry::Ready));
    assert_eq!(decide(Entry::Absent, Command::Finish), (Err(RegistryError::NotExists), Entry::Absent));
    assert_eq!(decide(Entry::Ready, Command::Read), (Ok(()), Entry::Ready));
    assert_eq!(decide(Entry::Building, Command::Destroy), (Err(RegistryError::StillBuilding), Entry::Building));
    assert_eq!(decide(Entry::Ready, Command::Destroy), (Ok(()), Entry::Absent));
    assert_eq!(decide(Entry::Absent, Command::Destroy), (Err(RegistryError::NotExists), Entry::Absent));
    assert_eq!(RegistryError::StillBuilding.message(), "solver is creating");
}
