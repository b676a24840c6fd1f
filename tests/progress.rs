use craft_solver::model::{Action, CraftState};
use craft_solver::oracle::cast;
use craft_solver::progress::ProgressSolver;
use ffxiv_crafting::{Attributes, Recipe};

fn init() -> CraftState {
    let r = Recipe {
        rlv: 545,
        job_level: 87,
        difficulty: 3200,
        quality: 6900,
        durability: 80,
        conditions_flag: 15,
    };
    let a = Attributes {
        level: 90,
        craftsmanship: 4214,
        control: 3528,
        craft_points: 691,
    };
    CraftState::new(a, r)
}

fn replay(s: &CraftState, actions: &[Action]) -> Vec<CraftState> {
    let mut states = vec![*s];
    let mut cur = *s;
    for a in actions {
        cur = cast(&cur, a.name());
        states.push(cur);
    }
    states
}

fn ready_solver(s: CraftState, mn: bool, wn: usize, obz: bool) -> ProgressSolver {
    let mut solver = ProgressSolver::new(s, mn, wn, obz);
    solver.init();
    solver
}

// Manipulation, waste-not 8 and observe would make the table tens of
// millions of entries, too many to fill in a test's time; this plans the same
// craft without those buff actions.
#[test]
fn test() {
    let init_status = init();
    let solver = ready_solver(init_status, false, 0, false);
    let actions = solver.read_all(&init_status);
    println!("{actions:?}");
    let states = replay(&init_status, &actions);
    assert!(states.last().unwrap().progress >= 3200);
}

#[test]
fn progress_plan_finishes_the_scenario() {
    let s = init();
    let solver = ready_solver(s, false, 4, false);
    let actions = solver.read_all(&s);
    assert!(!actions.is_empty());
    let states = replay(&s, &actions);
    let end = states.last().unwrap();
    assert!(end.progress >= 3200);
    assert!(end.is_finished());
}

#[test]
fn progress_plan_is_bounded_and_stays_in_budget() {
    let s = init();
    let solver = ready_solver(s, false, 0, false);
    let actions = solver.read_all(&s);
    let bound = s.craft_points as usize + s.durability as usize / 5;
    assert!(actions.len() <= bound);
    for st in replay(&s, &actions) {
        assert!(st.craft_points >= 0);
        assert!(st.durability <= 80);
    }
}

#[test]
fn finished_craft_reads_nothing() {
    let s = init();
    let solver = ready_solver(s, false, 0, false);
    let actions = solver.read_all(&s);
    let states = replay(&s, &actions);
    let end = states.last().unwrap();
    assert!(end.progress >= 3200);
    assert_eq!(solver.read(end), None);
    assert!(solver.read_all(end).is_empty());
}

#[test]
fn exhausted_durability_reads_nothing() {
    let mut s = init();
    s.durability = 0;
    let solver = ready_solver(init(), false, 0, false);
    assert_eq!(solver.read(&s), None);
}

#[test]
fn state_outside_the_table_reads_nothing() {
    let mut s = init();
    s.craft_points = 5000;
    let solver = ready_solver(init(), false, 0, false);
    assert_eq!(solver.read(&s), None);
}

#[test]
fn more_budget_never_makes_less_progress() {
    let s = init();
    let solver = ready_solver(s, false, 0, false);
    // dims: craft points, durability quanta, then five buff dimensions.
    let inner: usize = solver.dims[2..].iter().product();
    let du = solver.dims[1];
    for cp in 1..solver.dims[0] {
        for b in 0..du {
            for rest in 0..inner {
                let here = (cp * du + b) * inner + rest;
                let less_cp = ((cp - 1) * du + b) * inner + rest;
                assert!(solver.table[here].value >= solver.table[less_cp].value);
                if b > 0 {
                    let less_du = (cp * du + b - 1) * inner + rest;
                    assert!(solver.table[here].value >= solver.table[less_du].value);
                }
            }
        }
    }
}

#[test]
fn possible_progresses_are_sorted_and_reach_the_difficulty() {
    let s = init();
    let solver = ready_solver(s, false, 0, false);
    let pp = solver.possible_progresses();
    // Entries without durability left (value 0) are not counted, and a basic
    // synthesis is always possible with durability left.
    assert!(pp[0] > 0);
    assert_eq!(*pp.last().unwrap(), 3200);
    for w in pp.windows(2) {
        assert!(w[0] < w[1]);
    }
}
