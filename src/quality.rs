//! The quality planner: for every reduced state, the most quality that can
//! still be added while finishing the craft stays guaranteed by the progress
//! table, in the fewest steps. Its table is filled lazily, on first use.
use vstd::prelude::*;

use crate::model::{action_name, excluded, finished, is_excluded, no_buffs, Action, CraftState, Plan};
use crate::oracle::{allowed_of, cast, cast_of, castable, is_allowed, is_castable};
use crate::progress::{
    earlier, key_of, lemma_progress_dims_positive, plan_ok, reached_below, progress_covers, progress_dims, progress_key,
    progress_read, progress_slot, ProgressSolver,
};
use crate::slot::{cap, choose_better, choose_shorter, empty, empty_slot, pick, shorter, Slot};
use crate::table::{
    decode, in_dims, index_of, lemma_decode_offset, lemma_offset_bounds, lemma_offset_push,
    lemma_size_positive, offset, positive, size, size_of,
};

verus! {

/// The actions that add quality, in the order in which they are tried.
pub open spec fn touch_skills() -> Seq<Action> {
    seq![
        Action::BasicTouch,
        Action::MastersMend,
        Action::WasteNot,
        Action::StandardTouch,
        Action::GreatStrides,
        Action::Innovation,
        Action::WasteNotII,
        Action::ByregotsBlessing,
        Action::PrudentTouch,
        Action::PreparatoryTouch,
        Action::AdvancedTouch,
        Action::TrainedFinesse,
        Action::Manipulation,
        Action::Observe,
        Action::FocusedTouch,
    ]
}

pub fn touch_skill(k: usize) -> (r: Action)
    requires
        k < 15,
    ensures
        r == touch_skills()[k as int],
{
    match k {
        0 => Action::BasicTouch,
        1 => Action::MastersMend,
        2 => Action::WasteNot,
        3 => Action::StandardTouch,
        4 => Action::GreatStrides,
        5 => Action::Innovation,
        6 => Action::WasteNotII,
        7 => Action::ByregotsBlessing,
        8 => Action::PrudentTouch,
        9 => Action::PreparatoryTouch,
        10 => Action::AdvancedTouch,
        11 => Action::TrainedFinesse,
        12 => Action::Manipulation,
        13 => Action::Observe,
        _ => Action::FocusedTouch,
    }
}

/// The table's dimensions: craft points, durability in quanta, manipulation,
/// waste-not, inner quiet, innovation, great strides, touch combo, observed.
pub open spec fn quality_dims(p: Plan) -> Seq<usize> {
    seq![
        (p.base.attributes.craft_points + 1) as usize,
        (p.base.recipe.durability / 5 + 1) as usize,
        if p.mn { 9usize } else { 1usize },
        (p.wn + 1) as usize,
        11usize,
        5usize,
        4usize,
        3usize,
        if p.obz { 2usize } else { 1usize },
    ]
}

/// A state reduced to the dimensions of the quality table.
pub open spec fn quality_key(s: CraftState) -> Seq<usize> {
    seq![
        s.craft_points as usize,
        (s.durability / 5) as usize,
        s.buffs.manipulation as usize,
        s.buffs.wast_not as usize,
        s.buffs.inner_quiet as usize,
        s.buffs.innovation as usize,
        s.buffs.great_strides as usize,
        s.buffs.touch_combo_stage as usize,
        s.buffs.observed as usize,
    ]
}

/// The state that a key of the quality table stands for.
pub open spec fn quality_state(p: Plan, key: Seq<usize>) -> CraftState {
    CraftState {
        attributes: p.base.attributes,
        recipe: p.base.recipe,
        buffs: ffxiv_crafting::Buffs {
            manipulation: key[2] as u8,
            wast_not: key[3] as u8,
            inner_quiet: key[4] as u8,
            innovation: key[5] as u8,
            great_strides: key[6] as u8,
            touch_combo_stage: key[7] as u8,
            observed: key[8] as u8,
            ..no_buffs()
        },
        durability: (key[1] * 5) as u16,
        craft_points: key[0] as i32,
        progress: 0,
        quality: 0,
        step: p.base.step,
    }
}

/// Finishing stays guaranteed after reaching `nx`: the progress table's answer
/// there, plus `credit` progress already counted, reaches the difficulty.
pub open spec fn still_finishes(p: Plan, nx: CraftState, credit: int) -> bool {
    &&& nx.craft_points >= 0
    &&& progress_covers(p, nx)
    &&& progress_slot(p, progress_key(nx)).value + credit >= p.base.recipe.difficulty
}

/// The best answer at `key` among the first `k` touch actions: each one that
/// the plan keeps, the simulation allows and after which finishing stays
/// guaranteed gains its quality plus the answer of the state it leads to
/// (quality capped at the target), and the answers compete by `better`.
pub open spec fn quality_fold(p: Plan, credit: int, key: Seq<usize>, k: nat) -> Slot
    decreases offset(key, quality_dims(p)), k,
{
    if k == 0 || k > 15 || key.len() != 9 || key[1] == 0 {
        empty_slot()
    } else {
        let best = quality_fold(p, credit, key, (k - 1) as nat);
        let a = touch_skills()[k - 1];
        let s = quality_state(p, key);
        if excluded(p, a, s) || !castable(s) || !allowed_of(s, action_name(a)) {
            best
        } else {
            let nx = cast_of(s, action_name(a));
            if still_finishes(p, nx, credit) && earlier(key, quality_key(nx), quality_dims(p)) {
                let n = quality_fold(p, credit, quality_key(nx), 15);
                pick(
                    best,
                    Slot {
                        value: cap(nx.quality + n.value, p.base.recipe.quality as int) as u32,
                        step: (n.step + 1) as u32,
                        action: Some(a),
                    },
                )
            } else {
                best
            }
        }
    }
}

/// The answer of the quality table at `key`, with `credit` progress counted.
pub open spec fn quality_slot(p: Plan, credit: int, key: Seq<usize>) -> Slot {
    quality_fold(p, credit, key, 15)
}

pub open spec fn quality_covers(p: Plan, s: CraftState) -> bool {
    s.craft_points >= 0 && in_dims(quality_key(s), quality_dims(p))
}

pub open spec fn quality_budget_key(s: CraftState, cp: int, b: int) -> Seq<usize> {
    quality_key(s).update(0, cp as usize).update(1, b as usize)
}

/// The quality still missing to the target (none once it is reached).
pub open spec fn quality_headroom(s: CraftState) -> int {
    if s.quality < s.recipe.quality {
        s.recipe.quality - s.quality
    } else {
        0
    }
}

/// The state's own answer, capped at the headroom: what a smaller budget
/// must reach to be chosen instead.
pub open spec fn quality_floor(p: Plan, credit: int, s: CraftState) -> int {
    cap(quality_slot(p, credit, quality_key(s)).value as int, quality_headroom(s))
}

pub open spec fn quality_scan_row(
    p: Plan,
    credit: int,
    s: CraftState,
    acc: Slot,
    cp: int,
    b: nat,
) -> Slot
    decreases b,
{
    if b == 0 {
        acc
    } else {
        shorter(
            quality_scan_row(p, credit, s, acc, cp, (b - 1) as nat),
            quality_slot(p, credit, quality_budget_key(s, cp, b - 1)),
            quality_headroom(s),
            quality_floor(p, credit, s),
        )
    }
}

pub open spec fn quality_scan(p: Plan, credit: int, s: CraftState, acc: Slot, c: nat) -> Slot
    decreases c,
{
    if c == 0 {
        acc
    } else {
        quality_scan_row(
            p,
            credit,
            s,
            quality_scan(p, credit, s, acc, (c - 1) as nat),
            c - 1,
            (s.durability / 5 + 1) as nat,
        )
    }
}

/// What a query settles on: the state's own answer capped at the headroom,
/// replaced by any answer of a smaller budget that adds as much quality
/// (capped) in strictly fewer steps.
pub open spec fn quality_choice(p: Plan, credit: int, s: CraftState) -> Slot {
    let own = quality_slot(p, credit, quality_key(s));
    quality_scan(
        p,
        credit,
        s,
        Slot {
            value: cap(own.value as int, quality_headroom(s)) as u32,
            step: own.step,
            action: own.action,
        },
        (s.craft_points + 1) as nat,
    )
}

/// The action a quality query returns: the quality table's choice, or, when
/// it has none, the progress planner's.
pub open spec fn quality_read(p: Plan, credit: int, s: CraftState) -> Option<Action> {
    if finished(s) {
        None
    } else {
        let own = if quality_covers(p, s) {
            quality_choice(p, credit, s).action
        } else {
            None
        };
        if own is Some {
            own
        } else {
            progress_read(p, s)
        }
    }
}

/// The actions that a quality `read_all` returns (see `progress_run`).
pub open spec fn quality_run(p: Plan, fp: Seq<u16>, s: CraftState) -> Seq<Action>
    decreases offset(quality_key(s), quality_dims(p)),
{
    match quality_answer(p, fp, s) {
        None => seq![],
        Some(a) => {
            if !castable(s) || !allowed_of(s, action_name(a)) {
                seq![]
            } else {
                let nx = cast_of(s, action_name(a));
                if goes_on(p, s, nx) {
                    seq![a] + quality_run(p, fp, nx)
                } else {
                    seq![a]
                }
            }
        },
    }
}

pub proof fn lemma_quality_dims_positive(p: Plan)
    requires
        plan_ok(p),
    ensures
        positive(quality_dims(p)),
{
    let d = quality_dims(p);
    assert forall|i: int| 0 <= i < d.len() implies #[trigger] d[i] >= 1 by {}
}

pub fn quality_key_of(s: &CraftState) -> (r: Vec<usize>)
    requires
        s.craft_points >= 0,
    ensures
        r@ == quality_key(*s),
{
    let mut k: Vec<usize> = Vec::new();
    k.push(s.craft_points as usize);
    k.push(s.durability as usize / 5);
    k.push(s.buffs.manipulation as usize);
    k.push(s.buffs.wast_not as usize);
    k.push(s.buffs.inner_quiet as usize);
    k.push(s.buffs.innovation as usize);
    k.push(s.buffs.great_strides as usize);
    k.push(s.buffs.touch_combo_stage as usize);
    k.push(s.buffs.observed as usize);
    assert(k@ =~= quality_key(*s));
    k
}

pub fn quality_state_at(p: &Plan, key: &Vec<usize>) -> (r: CraftState)
    requires
        plan_ok(*p),
        in_dims(key@, quality_dims(*p)),
    ensures
        r == quality_state(*p, key@),
{
    let base = p.base;
    assert(key@[0] < quality_dims(*p)[0] && key@[1] < quality_dims(*p)[1]);
    let du = key[1];
    let top = base.recipe.durability as usize;
    assert(du * 5 <= top) by (nonlinear_arith)
        requires
            du < top / 5 + 1,
    ;
    let buffs = ffxiv_crafting::Buffs {
        manipulation: key[2] as u8,
        wast_not: key[3] as u8,
        inner_quiet: key[4] as u8,
        innovation: key[5] as u8,
        great_strides: key[6] as u8,
        touch_combo_stage: key[7] as u8,
        observed: key[8] as u8,
        ..crate::model::empty_buffs()
    };
    CraftState {
        attributes: base.attributes,
        recipe: base.recipe,
        buffs,
        durability: (du * 5) as u16,
        craft_points: key[0] as i32,
        progress: 0,
        quality: 0,
        step: base.step,
    }
}

/// Whether finishing stays guaranteed after reaching `nx`, computed from a
/// ready progress planner.
pub fn finishes(ps: &ProgressSolver, nx: &CraftState, credit: u32) -> (r: bool)
    requires
        ps.ready(),
    ensures
        r == still_finishes(ps.plan, *nx, credit as int),
{
    proof {
        lemma_progress_dims_positive(ps.plan);
    }
    if nx.craft_points < 0 {
        return false;
    }
    let k = key_of(nx);
    match index_of(k.as_slice(), ps.dims.as_slice()) {
        Some(j) => {
            proof {
                lemma_offset_bounds(k@, ps.dims@);
                lemma_decode_offset(k@, ps.dims@);
            }
            ps.table[j].value as u64 + credit as u64 >= ps.plan.base.recipe.difficulty as u64
        },
        None => false,
    }
}

/// The quality table's dimensions, computed.
pub fn quality_dims_of(p: &Plan) -> (r: Vec<usize>)
    requires
        plan_ok(*p),
    ensures
        r@ == quality_dims(*p),
        size(r@) <= u32::MAX ==> size(r@) == size(quality_dims(*p)),
{
    let mut dims: Vec<usize> = Vec::new();
    dims.push(p.base.attributes.craft_points as usize + 1);
    dims.push(p.base.recipe.durability as usize / 5 + 1);
    dims.push(if p.mn { 9 } else { 1 });
    dims.push(p.wn + 1);
    dims.push(11);
    dims.push(5);
    dims.push(4);
    dims.push(3);
    dims.push(if p.obz { 2 } else { 1 });
    assert(dims@ =~= quality_dims(*p));
    dims
}

/// A quality `read_all` goes on from `cur` to `nx`: the craft is not over and
/// `nx` comes earlier in the quality table.
pub open spec fn goes_on(p: Plan, cur: CraftState, nx: CraftState) -> bool {
    !finished(nx) && nx.craft_points >= 0 && cur.craft_points >= 0 && in_dims(
        quality_key(cur),
        quality_dims(p),
    ) && earlier(quality_key(cur), quality_key(nx), quality_dims(p))
}

pub fn descends(p: &Plan, cur: &CraftState, nx: &CraftState) -> (r: bool)
    requires
        plan_ok(*p),
        size(quality_dims(*p)) <= u32::MAX,
    ensures
        r == goes_on(*p, *cur, *nx),
{
    let ghost qd = quality_dims(*p);
    proof {
        lemma_quality_dims_positive(*p);
    }
    if nx.is_finished() || nx.craft_points < 0 || cur.craft_points < 0 {
        return false;
    }
    let kc = quality_key_of(cur);
    let kn = quality_key_of(nx);
    let qdims = quality_dims_of(p);
    let ic = index_of(kc.as_slice(), qdims.as_slice());
    let inx = index_of(kn.as_slice(), qdims.as_slice());
    proof {
        if in_dims(kc@, qd) {
            lemma_offset_bounds(kc@, qd);
        }
        if in_dims(kn@, qd) {
            lemma_offset_bounds(kn@, qd);
        }
    }
    match (ic, inx) {
        (Some(ic), Some(inx)) => inx < ic,
        _ => false,
    }
}

/// The credits of a progress table: for each of the first `pg` values it
/// holds (in increasing order), the progress still missing after it; then 0.
pub open spec fn credits_of(ps: ProgressSolver, pg: nat) -> Seq<u16> {
    let diff = ps.plan.base.recipe.difficulty as int;
    let pp = reached_below(ps, (diff + 1) as nat);
    let m = if pp.len() < pg {
        pp.len()
    } else {
        pg
    };
    Seq::new(m, |t: int| (diff - pp[t]) as u16).push(0u16)
}

pub proof fn lemma_reached_below_bound(ps: ProgressSolver, v: nat)
    ensures
        forall|u: int|
            0 <= u < reached_below(ps, v).len() ==> #[trigger] reached_below(ps, v)[u] < v,
    decreases v,
{
    if v > 0 {
        lemma_reached_below_bound(ps, (v - 1) as nat);
        let r = reached_below(ps, v);
        let q = reached_below(ps, (v - 1) as nat);
        assert forall|u: int| 0 <= u < r.len() implies #[trigger] r[u] < v by {
            if u < q.len() {
                assert(r[u] == q[u]);
            }
        }
    }
}

/// The first credit that `progress` covers (the first one when none does).
pub open spec fn credit_index(fp: Seq<u16>, progress: int, t: nat) -> nat
    decreases fp.len() - t,
{
    if t >= fp.len() {
        0
    } else if progress >= fp[t as int] {
        t
    } else {
        credit_index(fp, progress, t + 1)
    }
}

/// The credits of a ready progress planner, computed.
pub fn credits(driver: &ProgressSolver, pg: usize) -> (r: Vec<u16>)
    requires
        driver.ready(),
    ensures
        r@ == credits_of(*driver, pg as nat),
        1 <= r@.len() <= pg as int + 1,
{
    let pp = driver.possible_progresses();
    let diff = driver.plan.base.recipe.difficulty;
    let m = if pp.len() < pg {
        pp.len()
    } else {
        pg
    };
    proof {
        lemma_reached_below_bound(*driver, diff as nat + 1);
    }
    let mut fp: Vec<u16> = Vec::new();
    let mut t: usize = 0;
    while t < m
        invariant
            forall|u: int| 0 <= u < pp@.len() ==> #[trigger] pp@[u] <= diff,
            m <= pp@.len(),
            m <= pg,
            diff == driver.plan.base.recipe.difficulty,
            0 <= t <= m,
            fp@.len() == t,
            forall|u: int| 0 <= u < t ==> #[trigger] fp@[u] == (diff - pp@[u]) as u16,
        decreases m - t,
    {
        fp.push(diff - pp[t]);
        t = t + 1;
    }
    fp.push(0);
    assert(fp@ =~= credits_of(*driver, pg as nat));
    fp
}

/// The column that a state with `progress` reads.
pub fn credit_column(fp: &Vec<u16>, progress: u16) -> (r: usize)
    requires
        fp@.len() >= 1,
    ensures
        r == credit_index(fp@, progress as int, 0),
        r < fp@.len(),
{
    let mut t: usize = 0;
    while t < fp.len()
        invariant
            fp@.len() >= 1,
            0 <= t <= fp@.len(),
            credit_index(fp@, progress as int, 0) == credit_index(fp@, progress as int, t as nat),
        decreases fp@.len() - t,
    {
        if progress >= fp[t] {
            return t;
        }
        t = t + 1;
    }
    0
}

/// The action a query returns for `s` with the credits `fp`: the credit is
/// the first one that `s`'s progress covers.
pub open spec fn quality_answer(p: Plan, fp: Seq<u16>, s: CraftState) -> Option<Action> {
    quality_read(p, fp[credit_index(fp, s.progress as int, 0) as int] as int, s)
}

/// The lazily filled quality planner. Like the eager one, it keeps one column
/// per progress credit, and a query reads the column of the state's progress.
pub struct QualitySolver {
    pub progress_solver: ProgressSolver,
    pub pg: usize,
    pub final_progress: Vec<u16>,
    pub dims: Vec<usize>,
    pub memo: Vec<Option<Slot>>,
}

impl QualitySolver {
    pub open spec fn plan(&self) -> Plan {
        self.progress_solver.plan
    }

    /// Built: the plan is sound and the table, with a column per credit, fits.
    pub open spec fn wf(&self) -> bool {
        &&& self.progress_solver.wf()
        &&& self.pg < usize::MAX
        &&& size(quality_dims(self.plan())) * (self.pg + 1) <= u32::MAX
    }

    /// The answer of the entry at position `j`: the key of its first nine
    /// digits, with the credit that its last digit picks.
    pub open spec fn entry(&self, j: int) -> Slot {
        let key = decode(j, self.dims@);
        quality_slot(
            self.plan(),
            self.final_progress@[key.last() as int] as int,
            key.drop_last(),
        )
    }

    /// Filled: the progress table is ready, the credits are those of the
    /// progress table, and every memoised entry holds its answer.
    pub open spec fn ready(&self) -> bool {
        &&& self.wf()
        &&& self.progress_solver.ready()
        &&& self.final_progress@ == credits_of(self.progress_solver, self.pg as nat)
        &&& self.final_progress@.len() >= 1
        &&& self.dims@.len() == 10
        &&& self.dims@.drop_last() == quality_dims(self.plan())
        &&& self.dims@[9] == self.final_progress@.len()
        &&& size(self.dims@) <= u32::MAX
        &&& self.memo@.len() == size(self.dims@)
        &&& forall|j: int|
            0 <= j < self.memo@.len() ==> (#[trigger] self.memo@[j] matches Some(x) ==> x
                == self.entry(j) && x.step <= j + 1)
    }

    /// The column that a query for a state with `progress` reads.
    pub open spec fn column(&self, progress: int) -> nat {
        credit_index(self.final_progress@, progress, 0)
    }

    /// A planner for the craft of `init_status`, with at most `pg` credits
    /// besides zero; nothing is filled yet.
    pub fn new(init_status: CraftState, mn: bool, wn: usize, obz: bool, pg: usize) -> (r: Self)
        requires
            0 <= init_status.attributes.craft_points,
            wn <= 8,
            pg < usize::MAX,
            size(progress_dims(Plan { base: init_status, mn, wn, obz })) <= u32::MAX,
            size(quality_dims(Plan { base: init_status, mn, wn, obz })) * (pg + 1) <= u32::MAX,
        ensures
            r.wf(),
            r.plan() == (Plan { base: init_status, mn, wn, obz }),
            r.pg == pg,
            r.progress_solver.table@.len() == 0,
            r.final_progress@.len() == 0,
            r.memo@.len() == 0,
    {
        let progress_solver = ProgressSolver::new(init_status, mn, wn, obz);
        QualitySolver {
            progress_solver,
            pg,
            final_progress: Vec::new(),
            dims: Vec::new(),
            memo: Vec::new(),
        }
    }

    proof fn lemma_dims(&self)
        requires
            self.ready(),
        ensures
            positive(self.dims@),
            positive(quality_dims(self.plan())),
            self.dims@ == quality_dims(self.plan()).push(self.dims@[9]),
            size(quality_dims(self.plan())) <= u32::MAX,
    {
        let qd = quality_dims(self.plan());
        lemma_quality_dims_positive(self.plan());
        lemma_size_positive(qd);
        assert(self.dims@ =~= qd.push(self.dims@[9]));
        assert forall|u: int| 0 <= u < self.dims@.len() implies #[trigger] self.dims@[u] >= 1 by {
            if u < 9 {
                assert(self.dims@[u] == qd[u]);
            }
        }
        lemma_offset_push(seq![0usize, 0, 0, 0, 0, 0, 0, 0, 0], qd, 0, self.dims@[9]);
        let a = size(qd);
        let n = self.dims@[9] as int;
        assert(a <= a * n) by (nonlinear_arith)
            requires
                a >= 1,
                n >= 1,
        ;
    }

    /// Fills the progress table, computes the credits and clears the memo.
    pub fn init(&mut self)
        requires
            old(self).wf(),
        ensures
            final(self).ready(),
            final(self).plan() == old(self).plan(),
            final(self).pg == old(self).pg,
            forall|j: int| 0 <= j < final(self).memo@.len() ==> #[trigger] final(self).memo@[j] is None,
    {
        self.progress_solver.init();
        let ghost p = self.plan();
        proof {
            lemma_quality_dims_positive(p);
            lemma_size_positive(quality_dims(p));
        }
        let fp = credits(&self.progress_solver, self.pg);
        let mut dims = quality_dims_of(&self.progress_solver.plan);
        let ghost q = dims@;
        dims.push(fp.len());
        assert(dims@.drop_last() =~= q);
        proof {
            let a = size(q);
            let b = fp@.len() as int;
            let c = self.pg as int + 1;
            assert(a * b <= a * c) by (nonlinear_arith)
                requires
                    a >= 1,
                    b <= c,
            ;
            lemma_offset_push(seq![0usize, 0, 0, 0, 0, 0, 0, 0, 0], q, 0, fp@.len() as usize);
            assert(dims@ =~= q.push(fp@.len() as usize));
            assert(positive(dims@)) by {
                assert forall|u: int| 0 <= u < dims@.len() implies #[trigger] dims@[u] >= 1 by {
                    if u < 9 {
                        assert(dims@[u] == q[u]);
                    }
                }
            }
            lemma_size_positive(dims@);
        }
        let n = match size_of(dims.as_slice()) {
            Some(n) => n,
            None => 0,
        };
        let mut memo: Vec<Option<Slot>> = Vec::new();
        let mut i: usize = 0;
        while i < n
            invariant
                n == size(dims@),
                0 <= i <= n,
                memo@.len() == i,
                forall|j: int| 0 <= j < i ==> #[trigger] memo@[j] is None,
            decreases n - i,
        {
            memo.push(None);
            i = i + 1;
        }
        self.final_progress = fp;
        self.dims = dims;
        self.memo = memo;
    }

    /// The answer at the entry whose key is `ekey` (position `i`), computed on
    /// first use.
    fn inner_read(&mut self, ekey: &Vec<usize>, i: usize) -> (r: Slot)
        requires
            old(self).ready(),
            in_dims(ekey@, old(self).dims@),
            i == offset(ekey@, old(self).dims@),
        ensures
            final(self).ready(),
            final(self).plan() == old(self).plan(),
            final(self).pg == old(self).pg,
            final(self).dims@ == old(self).dims@,
            final(self).final_progress@ == old(self).final_progress@,
            r == old(self).entry(i as int),
            r.step <= i + 1,
        decreases i,
    {
        let ghost dims = self.dims@;
        let ghost p = self.plan();
        let ghost qd = quality_dims(p);
        let ghost fpv = self.final_progress@;
        let n_cols = self.final_progress.len();
        proof {
            self.lemma_dims();
            lemma_offset_bounds(ekey@, dims);
            lemma_decode_offset(ekey@, dims);
        }
        if let Some(x) = self.memo[i] {
            return x;
        }
        let mut key: Vec<usize> = Vec::new();
        let mut u: usize = 0;
        while u < 9
            invariant
                ekey@.len() == 10,
                0 <= u <= 9,
                key@.len() == u,
                forall|w: int| 0 <= w < u ==> #[trigger] key@[w] == ekey@[w],
            decreases 9 - u,
        {
            key.push(ekey[u]);
            u = u + 1;
        }
        let t = ekey[9];
        let ghost k9 = key@;
        proof {
            assert(k9 =~= ekey@.drop_last());
            assert(ekey@ =~= k9.push(t));
            assert(in_dims(k9, qd)) by {
                assert forall|w: int| 0 <= w < 9 implies #[trigger] k9[w] < qd[w] by {
                    assert(ekey@[w] < dims[w]);
                }
            }
            assert(t < n_cols) by {
                assert(ekey@[9] < dims[9]);
            }
            lemma_offset_push(k9, qd, t, n_cols);
            lemma_offset_bounds(k9, qd);
        }
        let credit = self.final_progress[t];
        let ghost ck = fpv[t as int] as int;
        assert(self.entry(i as int) == quality_slot(p, ck, k9));
        let mut best = empty();
        if key[1] != 0 {
            let s = quality_state_at(&self.progress_solver.plan, &key);
            let quality_cap = self.progress_solver.plan.base.recipe.quality as u64;
            let mut k: usize = 0;
            while k < 15
                invariant
                    self.ready(),
                    p == self.plan(),
                    dims == self.dims@,
                    fpv == self.final_progress@,
                    qd == quality_dims(p),
                    dims == qd.push(n_cols),
                    n_cols == fpv.len(),
                    positive(dims),
                    positive(qd),
                    in_dims(k9, qd),
                    t < n_cols,
                    i == offset(k9, qd) * n_cols + t,
                    i < size(dims),
                    k9[1] != 0,
                    credit == ck,
                    ck == fpv[t as int] as int,
                    s == quality_state(p, k9),
                    quality_cap == p.base.recipe.quality,
                    0 <= k <= 15,
                    best == quality_fold(p, ck, k9, k as nat),
                    best.step <= i + 1,
                    self.pg == old(self).pg,
                decreases 15 - k,
            {
                let a = touch_skill(k);
                if !is_excluded(&self.progress_solver.plan, a, &s) && is_castable(&s) && is_allowed(
                    &s,
                    a.name(),
                ) {
                    let nx = cast(&s, a.name());
                    if finishes(&self.progress_solver, &nx, credit as u32) {
                        let mut nk = quality_key_of(&nx);
                        let ghost n9 = nk@;
                        nk.push(t);
                        match index_of(nk.as_slice(), self.dims.as_slice()) {
                            Some(j) => {
                                proof {
                                    lemma_offset_push(n9, qd, t, n_cols);
                                    assert(in_dims(n9, qd)) by {
                                        assert forall|w: int| 0 <= w < 9 implies #[trigger] n9[w]
                                            < qd[w] by {
                                            assert(nk@[w] == n9[w]);
                                            assert(nk@[w] < dims[w]);
                                        }
                                    }
                                    lemma_offset_bounds(n9, qd);
                                    lemma_offset_bounds(nk@, dims);
                                    let a1 = offset(n9, qd);
                                    let b1 = offset(k9, qd);
                                    let c1 = n_cols as int;
                                    assert((a1 * c1 + t < b1 * c1 + t) == (a1 < b1))
                                        by (nonlinear_arith)
                                        requires
                                            c1 >= 1,
                                    ;
                                }
                                if j < i {
                                    proof {
                                        lemma_decode_offset(nk@, dims);
                                        assert(nk@ =~= n9.push(t));
                                        assert(nk@.drop_last() =~= n9);
                                        assert(decode(j as int, dims) == nk@);
                                        assert(nk@.last() == t);
                                    }
                                    let n = self.inner_read(&nk, j);
                                    let total = nx.quality as u64 + n.value as u64;
                                    let v = if total < quality_cap {
                                        total as u32
                                    } else {
                                        quality_cap as u32
                                    };
                                    best = choose_better(
                                        best,
                                        Slot { value: v, step: n.step + 1, action: Some(a) },
                                    );
                                }
                            },
                            None => {
                                proof {
                                    assert(nk@ =~= n9.push(t));
                                    if in_dims(n9, qd) {
                                        assert(in_dims(nk@, dims)) by {
                                            assert forall|w: int| 0 <= w < 10 implies #[trigger] nk@[w]
                                                < dims[w] by {
                                                if w < 9 {
                                                    assert(nk@[w] == n9[w]);
                                                }
                                            }
                                        }
                                    }
                                }
                            },
                        }
                    }
                }
                k = k + 1;
            }
        }
        self.memo.set(i, Some(best));
        best
    }

    /// The answer at `key` in column `t`.
    fn lookup(&mut self, key: &Vec<usize>, t: usize) -> (r: Slot)
        requires
            old(self).ready(),
            in_dims(key@, quality_dims(old(self).plan())),
            t < old(self).final_progress@.len(),
        ensures
            final(self).ready(),
            final(self).plan() == old(self).plan(),
            final(self).pg == old(self).pg,
            final(self).dims@ == old(self).dims@,
            final(self).final_progress@ == old(self).final_progress@,
            r == quality_slot(old(self).plan(), old(self).final_progress@[t as int] as int, key@),
    {
        let ghost qd = quality_dims(self.plan());
        proof {
            self.lemma_dims();
        }
        let mut ek = key.clone();
        assert(ek@ == key@);
        ek.push(t);
        assert(ek@.drop_last() =~= key@);
        assert(in_dims(ek@, self.dims@)) by {
            assert forall|w: int| 0 <= w < ek@.len() implies #[trigger] ek@[w] < self.dims@[w] by {
                if w < 9 {
                    assert(ek@[w] == key@[w]);
                    assert(self.dims@[w] == qd[w]);
                }
            }
        }
        match index_of(ek.as_slice(), self.dims.as_slice()) {
            Some(j) => {
                proof {
                    lemma_offset_bounds(ek@, self.dims@);
                    lemma_decode_offset(ek@, self.dims@);
                }
                self.inner_read(&ek, j)
            },
            None => {
                proof {
                    assert(false);
                }
                empty()
            },
        }
    }

    /// The search of a query in column `t`, for a state the table holds.
    fn search(&mut self, s: &CraftState, key: &Vec<usize>, t: usize) -> (r: Slot)
        requires
            old(self).ready(),
            key@ == quality_key(*s),
            s.craft_points >= 0,
            in_dims(key@, quality_dims(old(self).plan())),
            t < old(self).final_progress@.len(),
        ensures
            final(self).ready(),
            final(self).plan() == old(self).plan(),
            final(self).pg == old(self).pg,
            final(self).dims@ == old(self).dims@,
            final(self).final_progress@ == old(self).final_progress@,
            r == quality_choice(old(self).plan(), old(self).final_progress@[t as int] as int, *s),
    {
        let ghost p = self.plan();
        let ghost qd = quality_dims(p);
        let ghost fpv = self.final_progress@;
        let ghost dims = self.dims@;
        let ghost pg = self.pg;
        let ghost credit = fpv[t as int] as int;
        let own = self.lookup(key, t);
        let room: u32 = if s.quality < s.recipe.quality {
            s.recipe.quality - s.quality
        } else {
            0
        };
        let ghost start = Slot {
            value: cap(own.value as int, quality_headroom(*s)) as u32,
            step: own.step,
            action: own.action,
        };
        let mut best = Slot {
            value: if own.value < room {
                own.value
            } else {
                room
            },
            step: own.step,
            action: own.action,
        };
        let floor = best.value;
        let top_c = s.craft_points as usize;
        let top_b = s.durability as usize / 5;
        let mut c: usize = 0;
        while c <= top_c
            invariant
                self.ready(),
                p == self.plan(),
                pg == self.pg,
                dims == self.dims@,
                fpv == self.final_progress@,
                qd == quality_dims(p),
                credit == fpv[t as int] as int,
                t < fpv.len(),
                key@ == quality_key(*s),
                in_dims(key@, qd),
                top_c == s.craft_points,
                top_b == s.durability / 5,
                room == quality_headroom(*s),
                floor == quality_floor(p, credit, *s),
                0 <= c <= top_c + 1,
                best == quality_scan(p, credit, *s, start, c as nat),
            decreases top_c + 1 - c,
        {
            let ghost row_start = best;
            let mut b: usize = 0;
            while b <= top_b
                invariant
                    self.ready(),
                    p == self.plan(),
                    pg == self.pg,
                    dims == self.dims@,
                    fpv == self.final_progress@,
                    qd == quality_dims(p),
                    credit == fpv[t as int] as int,
                    t < fpv.len(),
                    key@ == quality_key(*s),
                    in_dims(key@, qd),
                    top_c == s.craft_points,
                    top_b == s.durability / 5,
                    room == quality_headroom(*s),
                    floor == quality_floor(p, credit, *s),
                    0 <= c <= top_c,
                    0 <= b <= top_b + 1,
                    best == quality_scan_row(p, credit, *s, row_start, c as int, b as nat),
                decreases top_b + 1 - b,
            {
                let mut k2 = key.clone();
                assert(k2@ == key@);
                k2.set(0, c);
                k2.set(1, b);
                assert(k2@ =~= quality_budget_key(*s, c as int, b as int));
                assert(in_dims(k2@, qd)) by {
                    assert forall|i: int| 0 <= i < k2@.len() implies #[trigger] k2@[i] < qd[i] by {
                        assert(key@[i] < qd[i]);
                    }
                }
                let sub = self.lookup(&k2, t);
                best = choose_shorter(best, sub, room, floor);
                b = b + 1;
            }
            c = c + 1;
        }
        best
    }

    /// The query of column `t`: the table's choice for `s` with that column's
    /// credit, or the progress planner's where the table has none.
    pub fn read_column(&mut self, s: &CraftState, t: usize) -> (r: Option<Action>)
        requires
            old(self).ready(),
            t < old(self).final_progress@.len(),
        ensures
            final(self).ready(),
            final(self).plan() == old(self).plan(),
            final(self).pg == old(self).pg,
            final(self).final_progress@ == old(self).final_progress@,
            r == quality_read(old(self).plan(), old(self).final_progress@[t as int] as int, *s),
    {
        proof {
            self.lemma_dims();
        }
        if s.is_finished() {
            return None;
        }
        let mut own: Option<Action> = None;
        if s.craft_points >= 0 {
            let key = quality_key_of(s);
            let mut ok = true;
            let mut w: usize = 0;
            while w < 9
                invariant
                    self.ready(),
                    key@.len() == 9,
                    self.dims@ == quality_dims(self.plan()).push(self.dims@[9]),
                    0 <= w <= 9,
                    ok == (forall|u: int| 0 <= u < w ==> #[trigger] key@[u] < quality_dims(self.plan())[u]),
                decreases 9 - w,
            {
                assert(self.dims@[w as int] == quality_dims(self.plan())[w as int]);
                ok = ok && key[w] < self.dims[w];
                w = w + 1;
            }
            if ok {
                let c = self.search(s, &key, t);
                own = c.action;
            }
        }
        if own.is_some() {
            own
        } else {
            self.progress_solver.read(s)
        }
    }

    /// The best next action for `s`, in the column of its progress: none once
    /// the craft is over; the first action of the shortest plan, over every
    /// budget of at most `s`'s craft points and durability, that adds as much
    /// quality as the state's own answer (both capped at the quality still
    /// missing); and where the table has no such action, the progress
    /// planner's.
    pub fn read(&mut self, s: &CraftState) -> (r: Option<Action>)
        requires
            old(self).ready(),
        ensures
            final(self).ready(),
            final(self).plan() == old(self).plan(),
            final(self).pg == old(self).pg,
            final(self).final_progress@ == old(self).final_progress@,
            r == quality_answer(old(self).plan(), old(self).final_progress@, *s),
    {
        let t = credit_column(&self.final_progress, s.progress);
        self.read_column(s, t)
    }

    /// Reads, checks and casts until the read gives nothing, the simulation
    /// refuses the action, the craft is over, or the next state would not come
    /// earlier in the quality table.
    pub fn read_all(&mut self, s: &CraftState) -> (r: Vec<Action>)
        requires
            old(self).ready(),
        ensures
            final(self).ready(),
            final(self).plan() == old(self).plan(),
            final(self).pg == old(self).pg,
            final(self).final_progress@ == old(self).final_progress@,
            r@ == quality_run(old(self).plan(), old(self).final_progress@, *s),
    {
        let ghost p = self.plan();
        let ghost qd = quality_dims(p);
        let ghost fp = self.final_progress@;
        let ghost pg = self.pg;
        proof {
            self.lemma_dims();
        }
        let mut cur = *s;
        let mut out: Vec<Action> = Vec::new();
        loop
            invariant_except_break
                out@ + quality_run(p, fp, cur) == quality_run(p, fp, *s),
            invariant
                self.ready(),
                self.plan() == p,
                self.pg == pg,
                fp == self.final_progress@,
                qd == quality_dims(p),
                positive(qd),
                size(qd) <= u32::MAX,
            ensures
                out@ == quality_run(p, fp, *s),
            decreases offset(quality_key(cur), qd),
        {
            let ghost before = out@;
            let a = match self.read(&cur) {
                Some(a) => a,
                None => {
                    assert(out@ =~= before + quality_run(p, fp, cur));
                    break;
                },
            };
            if !is_castable(&cur) || !is_allowed(&cur, a.name()) {
                assert(out@ =~= before + quality_run(p, fp, cur));
                break;
            }
            let nx = cast(&cur, a.name());
            out.push(a);
            if descends(&self.progress_solver.plan, &cur, &nx) {
                assert(out@ + quality_run(p, fp, nx) =~= before + quality_run(p, fp, cur));
                cur = nx;
            } else {
                assert(out@ =~= before + quality_run(p, fp, cur));
                break;
            }
        }
        out
    }
}

} // verus!
