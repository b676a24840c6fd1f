use craft_solver::memory_search::Solver;
use craft_solver::model::{empty_buffs, Action, CraftState};
use craft_solver::oracle::cast;
use craft_solver::ordinary::OrdinarySolver;
use craft_solver::progress::ProgressSolver;
use craft_solver::quality::QualitySolver;
use craft_solver::slot::{choose_better, Slot};
use ffxiv_crafting::{Attributes, Recipe};

fn attributes(craft_points: i32) -> Attributes {
    Attributes {
        level: 90,
        craftsmanship: 4214,
        control: 3528,
        craft_points,
    }
}

fn recipe(durability: u16) -> Recipe {
    Recipe {
        rlv: 545,
        job_level: 87,
        difficulty: 3200,
        quality: 6900,
        durability,
        conditions_flag: 15,
    }
}

fn init() -> CraftState {
    CraftState::new(attributes(691), recipe(80))
}

fn replay(s: &CraftState, actions: &[Action]) -> CraftState {
    let mut cur = *s;
    for a in actions {
        cur = cast(&cur, a.name());
    }
    cur
}

// Manipulation, waste-not 8 and observe would multiply the tables to many
// gigabytes, far beyond what a test can fill in its time; this plans the same
// craft without those buff actions and with a single credit column.
#[test]
fn test2() {
    let mut init_status = init();
    init_status = cast(&init_status, Action::Reflect.name());
    let mut solver = QualitySolver::new(init_status, false, 0, false, 0);
    solver.init();
    let actions = solver.read_all(&init_status);
    println!("{actions:?}");
    assert!(!actions.is_empty());
    let end = replay(&init_status, &actions);
    assert!(end.progress >= 3200);
    assert!(end.quality > 0);
}

fn small() -> CraftState {
    let mut r = recipe(40);
    r.difficulty = 800;
    r.quality = 2000;
    CraftState::new(attributes(50), r)
}

#[test]
fn lazy_and_eager_agree() {
    let s = small();
    let mut lazy = QualitySolver::new(s, false, 0, false, 1);
    lazy.init();
    let mut driver = ProgressSolver::new(s, false, 0, false);
    driver.init();
    let mut eager = OrdinarySolver::new(driver, 1);
    eager.init();
    let mut states = vec![s, cast(&s, Action::Reflect.name())];
    let mut t = s;
    t.craft_points = 30;
    states.push(t);
    t.durability = 20;
    states.push(t);
    let synthesised = cast(&s, Action::BasicSynthesis.name());
    states.push(synthesised);
    states.push(cast(&synthesised, Action::BasicTouch.name()));
    let mut late = s;
    late.progress = 700;
    states.push(late);
    for st in states {
        assert_eq!(lazy.read(&st), eager.read(&st));
        assert_eq!(lazy.read_all(&st), eager.read_all(&st));
    }
}

#[test]
fn eager_credits_end_with_zero() {
    let s = small();
    let mut driver = ProgressSolver::new(s, false, 0, false);
    driver.init();
    let eager = OrdinarySolver::new(driver, 1);
    let least = eager.driver.possible_progresses()[0];
    assert!(least > 0);
    assert_eq!(eager.final_progress, vec![800 - least, 0]);
    assert_eq!(eager.pg, 1);
    assert_eq!(eager.progress_index(0), 1);
    assert_eq!(eager.progress_index(800 - least - 1), 1);
    assert_eq!(eager.progress_index(800 - least), 0);
}

#[test]
fn equal_quality_prefers_fewer_steps() {
    let long = Slot { value: 500, step: 4, action: Some(Action::BasicTouch) };
    let short = Slot { value: 500, step: 2, action: Some(Action::PreparatoryTouch) };
    assert_eq!(choose_better(long, short), short);
    assert_eq!(choose_better(short, long), short);
    let more = Slot { value: 501, step: 9, action: Some(Action::StandardTouch) };
    assert_eq!(choose_better(short, more), more);
}

#[test]
fn small_craft_quality_plan_finishes() {
    let s = small();
    let mut lazy = QualitySolver::new(s, false, 0, false, 1);
    lazy.init();
    let actions = lazy.read_all(&s);
    let end = replay(&s, &actions);
    assert!(end.progress >= 800);
    assert!(end.quality > 0);
}

#[test]
fn quality_only_search_plans_sure_touches() {
    let s = small();
    let mut search = Solver::new(s, false, 0, false);
    let slot = search.next_touch(s.craft_points, s.durability, s.buffs);
    assert!(slot.value > 0);
    assert!(slot.step >= 1);
    assert!(slot.action.is_some());
    let again = search.next_touch(s.craft_points, s.durability, empty_buffs());
    assert_eq!(slot, again);
}

#[test]
fn quality_only_search_without_budget_has_nothing() {
    let s = small();
    let mut search = Solver::new(s, false, 0, false);
    let none = search.next_touch(0, 0, s.buffs);
    assert_eq!(none.action, None);
    assert_eq!(none.value, 0);
    let outside = search.next_touch(-1, 40, s.buffs);
    assert_eq!(outside.action, None);
}
