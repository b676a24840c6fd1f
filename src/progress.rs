//! The progress planner: for every reduced state, the most progress that the
//! remaining durability and craft points can still make, in the fewest steps.
use vstd::prelude::*;

use crate::model::{
    action_name, excluded, finished, is_excluded, no_buffs, Action, CraftState, Plan,
};
use crate::oracle::{allowed_of, cast, cast_of, castable, is_allowed, is_castable};
use crate::slot::{
    better, cap, choose_better, choose_shorter, empty, empty_slot, pick, shorter, Slot,
};
use crate::table::{
    decode, in_dims, index_of, key_at, lemma_decode_offset,
    lemma_offset_bounds, lemma_offset_decode, offset, positive, size, size_of,
};

verus! {

/// The actions that advance progress, in the order in which they are tried.
pub open spec fn synth_skills() -> Seq<Action> {
    seq![
        Action::BasicSynthesis,
        Action::WasteNot,
        Action::Veneration,
        Action::WasteNotII,
        Action::CarefulSynthesis,
        Action::Groundwork,
        Action::DelicateSynthesis,
        Action::IntensiveSynthesis,
        Action::PrudentSynthesis,
        Action::Observe,
        Action::FocusedSynthesis,
    ]
}

fn synth_skill(k: usize) -> (r: Action)
    requires
        k < 11,
    ensures
        r == synth_skills()[k as int],
{
    match k {
        0 => Action::BasicSynthesis,
        1 => Action::WasteNot,
        2 => Action::Veneration,
        3 => Action::WasteNotII,
        4 => Action::CarefulSynthesis,
        5 => Action::Groundwork,
        6 => Action::DelicateSynthesis,
        7 => Action::IntensiveSynthesis,
        8 => Action::PrudentSynthesis,
        9 => Action::Observe,
        _ => Action::FocusedSynthesis,
    }
}

/// The table's dimensions: craft points, durability in quanta, manipulation,
/// waste-not, veneration, muscle memory, observed.
pub open spec fn progress_dims(p: Plan) -> Seq<usize> {
    seq![
        (p.base.attributes.craft_points + 1) as usize,
        (p.base.recipe.durability / 5 + 1) as usize,
        if p.mn { 9usize } else { 1usize },
        (p.wn + 1) as usize,
        5usize,
        6usize,
        if p.obz { 2usize } else { 1usize },
    ]
}

/// A state reduced to the dimensions of the progress table.
pub open spec fn progress_key(s: CraftState) -> Seq<usize> {
    seq![
        s.craft_points as usize,
        (s.durability / 5) as usize,
        s.buffs.manipulation as usize,
        s.buffs.wast_not as usize,
        s.buffs.veneration as usize,
        s.buffs.muscle_memory as usize,
        s.buffs.observed as usize,
    ]
}

/// The state that a key of the progress table stands for.
pub open spec fn progress_state(p: Plan, key: Seq<usize>) -> CraftState {
    CraftState {
        attributes: p.base.attributes,
        recipe: p.base.recipe,
        buffs: ffxiv_crafting::Buffs {
            manipulation: key[2] as u8,
            wast_not: key[3] as u8,
            veneration: key[4] as u8,
            muscle_memory: key[5] as u8,
            observed: key[6] as u8,
            ..no_buffs()
        },
        durability: (key[1] * 5) as u16,
        craft_points: key[0] as i32,
        progress: 0,
        quality: 0,
        step: p.base.step,
    }
}

/// A plan may use what it finds in a table entry only where that entry's state
/// comes strictly earlier in the table, so that the recurrence is well founded.
pub open spec fn earlier(key: Seq<usize>, next: Seq<usize>, dims: Seq<usize>) -> bool {
    in_dims(next, dims) && 0 <= offset(next, dims) < offset(key, dims)
}

/// The best answer at `key` among the first `k` synthesis actions: each one
/// that the plan keeps and the simulation allows gains its progress plus the
/// answer of the state it leads to (progress capped at the difficulty), and
/// the answers compete by `better`.
pub open spec fn progress_fold(p: Plan, key: Seq<usize>, k: nat) -> Slot
    decreases offset(key, progress_dims(p)), k,
{
    if k == 0 || k > 11 || key.len() != 7 || key[1] == 0 {
        empty_slot()
    } else {
        let best = progress_fold(p, key, (k - 1) as nat);
        let a = synth_skills()[k - 1];
        let s = progress_state(p, key);
        let diff = p.base.recipe.difficulty as int;
        if excluded(p, a, s) || !castable(s) || !allowed_of(s, action_name(a)) {
            best
        } else {
            let nx = cast_of(s, action_name(a));
            if nx.durability == 0 {
                pick(best, Slot { value: cap(nx.progress as int, diff) as u32, step: 1, action: Some(a) })
            } else if nx.craft_points >= 0 && earlier(key, progress_key(nx), progress_dims(p)) {
                let n = progress_fold(p, progress_key(nx), 11);
                pick(
                    best,
                    Slot {
                        value: cap(nx.progress + n.value, diff) as u32,
                        step: (n.step + 1) as u32,
                        action: Some(a),
                    },
                )
            } else {
                best
            }
        }
    }
}

/// The answer of the progress table at `key`.
pub open spec fn progress_slot(p: Plan, key: Seq<usize>) -> Slot {
    progress_fold(p, key, 11)
}

/// The states that a table of plan `p` holds an answer for.
pub open spec fn progress_covers(p: Plan, s: CraftState) -> bool {
    s.craft_points >= 0 && in_dims(progress_key(s), progress_dims(p))
}

/// The key of `s` with other craft points and durability quanta.
pub open spec fn budget_key(s: CraftState, cp: int, b: int) -> Seq<usize> {
    progress_key(s).update(0, cp as usize).update(1, b as usize)
}

pub open spec fn headroom(s: CraftState) -> int {
    s.recipe.difficulty - s.progress
}

/// The state's own answer, capped at the headroom: what a smaller budget
/// must reach to be chosen instead.
pub open spec fn progress_floor(p: Plan, s: CraftState) -> int {
    cap(progress_slot(p, progress_key(s)).value as int, headroom(s))
}

/// The search of one row of smaller budgets: craft points `cp`, durability
/// quanta below `b`.
pub open spec fn progress_scan_row(p: Plan, s: CraftState, acc: Slot, cp: int, b: nat) -> Slot
    decreases b,
{
    if b == 0 {
        acc
    } else {
        shorter(
            progress_scan_row(p, s, acc, cp, (b - 1) as nat),
            progress_slot(p, budget_key(s, cp, b - 1)),
            headroom(s),
            progress_floor(p, s),
        )
    }
}

/// The search of the rows of craft points below `c`.
pub open spec fn progress_scan(p: Plan, s: CraftState, acc: Slot, c: nat) -> Slot
    decreases c,
{
    if c == 0 {
        acc
    } else {
        progress_scan_row(
            p,
            s,
            progress_scan(p, s, acc, (c - 1) as nat),
            c - 1,
            (s.durability / 5 + 1) as nat,
        )
    }
}

/// What a query settles on: the state's own answer capped at the headroom,
/// then replaced by any answer of a smaller budget that reaches as much
/// (capped) in strictly fewer steps.
pub open spec fn progress_choice(p: Plan, s: CraftState) -> Slot {
    let own = progress_slot(p, progress_key(s));
    progress_scan(
        p,
        s,
        Slot { value: cap(own.value as int, headroom(s)) as u32, step: own.step, action: own.action },
        (s.craft_points + 1) as nat,
    )
}

/// The action that a query returns.
pub open spec fn progress_read(p: Plan, s: CraftState) -> Option<Action> {
    if finished(s) || !progress_covers(p, s) {
        None
    } else {
        progress_choice(p, s).action
    }
}

/// The actions that `read_all` returns: read, check, cast, until the read
/// gives nothing, the action is refused, the craft is over, or the next state
/// would not come earlier in the table.
pub open spec fn progress_run(p: Plan, s: CraftState) -> Seq<Action>
    decreases offset(progress_key(s), progress_dims(p)),
{
    match progress_read(p, s) {
        None => seq![],
        Some(a) => {
            if !castable(s) || !allowed_of(s, action_name(a)) {
                seq![]
            } else {
                let nx = cast_of(s, action_name(a));
                if !finished(nx) && nx.craft_points >= 0 && earlier(
                    progress_key(s),
                    progress_key(nx),
                    progress_dims(p),
                ) {
                    seq![a] + progress_run(p, nx)
                } else {
                    seq![a]
                }
            }
        },
    }
}

pub open spec fn plan_ok(p: Plan) -> bool {
    &&& 0 <= p.base.attributes.craft_points
    &&& p.wn <= 8
}

pub proof fn lemma_progress_dims_positive(p: Plan)
    requires
        plan_ok(p),
    ensures
        positive(progress_dims(p)),
{
    let d = progress_dims(p);
    assert forall|i: int| 0 <= i < d.len() implies #[trigger] d[i] >= 1 by {}
}

/// Some entry of the table with durability left (at least one quantum)
/// holds the progress value `v`.
pub open spec fn reached(ps: ProgressSolver, v: int) -> bool {
    exists|j: int|
        0 <= j < ps.table@.len() && decode(j, ps.dims@)[1] >= 1 && ps.table@[j].value == v
}

/// The progress values below `v` that some entry with durability left holds,
/// in increasing order.
pub open spec fn reached_below(ps: ProgressSolver, v: nat) -> Seq<u16>
    decreases v,
{
    if v == 0 {
        seq![]
    } else {
        reached_below(ps, (v - 1) as nat) + if reached(ps, v - 1) {
            seq![(v - 1) as u16]
        } else {
            seq![]
        }
    }
}

/// The key of a state with non-negative craft points.
pub fn key_of(s: &CraftState) -> (r: Vec<usize>)
    requires
        s.craft_points >= 0,
    ensures
        r@ == progress_key(*s),
{
    let mut k: Vec<usize> = Vec::new();
    k.push(s.craft_points as usize);
    k.push(s.durability as usize / 5);
    k.push(s.buffs.manipulation as usize);
    k.push(s.buffs.wast_not as usize);
    k.push(s.buffs.veneration as usize);
    k.push(s.buffs.muscle_memory as usize);
    k.push(s.buffs.observed as usize);
    assert(k@ =~= progress_key(*s));
    k
}

/// A progress planner: its plan, its table's dimensions, and the table.
pub struct ProgressSolver {
    pub plan: Plan,
    pub dims: Vec<usize>,
    pub table: Vec<Slot>,
}

impl ProgressSolver {
    pub open spec fn wf(&self) -> bool {
        &&& plan_ok(self.plan)
        &&& self.dims@ == progress_dims(self.plan)
        &&& size(self.dims@) <= u32::MAX
    }

    /// After `init`: every entry holds the answer of its key.
    pub open spec fn ready(&self) -> bool {
        &&& self.wf()
        &&& self.table@.len() == size(self.dims@)
        &&& forall|j: int|
            0 <= j < self.table@.len() ==> #[trigger] self.table@[j] == progress_slot(
                self.plan,
                decode(j, self.dims@),
            )
    }

    pub fn new(init_status: CraftState, mn: bool, wn: usize, obz: bool) -> (r: Self)
        requires
            0 <= init_status.attributes.craft_points,
            wn <= 8,
            size(
                progress_dims(Plan { base: init_status, mn, wn, obz }),
            ) <= u32::MAX,
        ensures
            r.wf(),
            r.plan == (Plan { base: init_status, mn, wn, obz }),
            r.table@.len() == 0,
    {
        let plan = Plan { base: init_status, mn, wn, obz };
        let mut dims: Vec<usize> = Vec::new();
        dims.push(init_status.attributes.craft_points as usize + 1);
        dims.push(init_status.recipe.durability as usize / 5 + 1);
        dims.push(if mn { 9 } else { 1 });
        dims.push(wn + 1);
        dims.push(5);
        dims.push(6);
        dims.push(if obz { 2 } else { 1 });
        assert(dims@ =~= progress_dims(plan));
        ProgressSolver { plan, dims, table: Vec::new() }
    }

    fn state_at(&self, key: &Vec<usize>) -> (r: CraftState)
        requires
            self.wf(),
            in_dims(key@, self.dims@),
        ensures
            r == progress_state(self.plan, key@),
    {
        let base = self.plan.base;
        assert(key@[0] < self.dims@[0] && key@[1] < self.dims@[1]);
        let du = key[1];
        let top = base.recipe.durability as usize;
        assert(du * 5 <= top) by (nonlinear_arith)
            requires
                du < top / 5 + 1,
        ;
        let buffs = ffxiv_crafting::Buffs {
            manipulation: key[2] as u8,
            wast_not: key[3] as u8,
            veneration: key[4] as u8,
            muscle_memory: key[5] as u8,
            observed: key[6] as u8,
            ..crate::model::empty_buffs()
        };
        CraftState {
            attributes: base.attributes,
            recipe: base.recipe,
            buffs,
            durability: (du * 5) as u16,
            craft_points: key[0] as i32,
            progress: 0,
            quality: 0,
            step: base.step,
        }
    }

    /// The answer at `key`, given the answers of every earlier key.
    fn fill(&self, table: &Vec<Slot>, i: usize, key: &Vec<usize>) -> (r: Slot)
        requires
            self.wf(),
            i < size(self.dims@),
            key@ == decode(i as int, self.dims@),
            in_dims(key@, self.dims@),
            table@.len() == i,
            forall|j: int|
                0 <= j < i ==> #[trigger] table@[j] == progress_slot(
                    self.plan,
                    decode(j, self.dims@),
                ) && table@[j].step <= j + 1,
        ensures
            r == progress_slot(self.plan, key@),
            r.step <= i + 1,
    {
        let ghost dims = self.dims@;
        proof {
            lemma_progress_dims_positive(self.plan);
            lemma_offset_decode(i as int, dims);
        }
        if key[1] == 0 {
            return empty();
        }
        let s = self.state_at(key);
        let diff = self.plan.base.recipe.difficulty as u32;
        let mut best = empty();
        let mut k: usize = 0;
        while k < 11
            invariant
                self.wf(),
                positive(dims),
                dims == self.dims@,
                i < size(dims),
                offset(key@, dims) == i,
                key@.len() == 7,
                key@[1] != 0,
                s == progress_state(self.plan, key@),
                diff == self.plan.base.recipe.difficulty,
                table@.len() == i,
                forall|j: int|
                    0 <= j < i ==> #[trigger] table@[j] == progress_slot(
                        self.plan,
                        decode(j, dims),
                    ) && table@[j].step <= j + 1,
                0 <= k <= 11,
                best == progress_fold(self.plan, key@, k as nat),
                best.step <= i + 1,
            decreases 11 - k,
        {
            let a = synth_skill(k);
            if !is_excluded(&self.plan, a, &s) && is_castable(&s) && is_allowed(&s, a.name()) {
                let nx = cast(&s, a.name());
                if nx.durability == 0 {
                    let v = if (nx.progress as u32) < diff { nx.progress as u32 } else { diff };
                    best = choose_better(best, Slot { value: v, step: 1, action: Some(a) });
                } else if nx.craft_points >= 0 {
                    let mut nk: Vec<usize> = Vec::new();
                    nk.push(nx.craft_points as usize);
                    nk.push(nx.durability as usize / 5);
                    nk.push(nx.buffs.manipulation as usize);
                    nk.push(nx.buffs.wast_not as usize);
                    nk.push(nx.buffs.veneration as usize);
                    nk.push(nx.buffs.muscle_memory as usize);
                    nk.push(nx.buffs.observed as usize);
                    assert(nk@ =~= progress_key(nx));
                    match index_of(nk.as_slice(), self.dims.as_slice()) {
                        Some(j) => {
                            proof {
                                lemma_offset_bounds(nk@, dims);
                            }
                            if j < i {
                                proof {
                                    lemma_decode_offset(nk@, dims);
                                }
                                let n = table[j];
                                let total = nx.progress as u64 + n.value as u64;
                                let v = if total < diff as u64 { total as u32 } else { diff };
                                best = choose_better(best, Slot { value: v, step: n.step + 1, action: Some(a) });
                            }
                        },
                        None => {},
                    }
                }
            }
            k = k + 1;
        }
        best
    }

    /// Fills the whole table, in the order of its offsets.
    pub fn init(&mut self)
        requires
            old(self).wf(),
        ensures
            final(self).ready(),
            final(self).plan == old(self).plan,
    {
        proof {
            lemma_progress_dims_positive(self.plan);
            crate::table::lemma_size_positive(self.dims@);
        }
        let n = match size_of(self.dims.as_slice()) {
            Some(n) => n,
            None => {
                return;
            },
        };
        let mut table: Vec<Slot> = Vec::new();
        let mut i: usize = 0;
        while i < n
            invariant
                self.wf(),
                positive(self.dims@),
                n == size(self.dims@),
                0 <= i <= n,
                table@.len() == i,
                forall|j: int|
                    0 <= j < i ==> #[trigger] table@[j] == progress_slot(
                        self.plan,
                        decode(j, self.dims@),
                    ) && table@[j].step <= j + 1,
            decreases n - i,
        {
            let key = key_at(i, self.dims.as_slice());
            let slot = self.fill(&table, i, &key);
            table.push(slot);
            i = i + 1;
        }
        self.table = table;
    }

    /// The best next synthesis action for `s`: none once the craft is over or
    /// when the table does not hold `s`; otherwise the first action of the
    /// shortest plan, over every budget of at most `s`'s craft points and
    /// durability, that makes as much progress as the state's own answer
    /// (both capped at the progress still missing).
    pub fn read(&self, s: &CraftState) -> (r: Option<Action>)
        requires
            self.ready(),
        ensures
            r == progress_read(self.plan, *s),
    {
        let ghost dims = self.dims@;
        proof {
            lemma_progress_dims_positive(self.plan);
        }
        if s.is_finished() || s.craft_points < 0 {
            return None;
        }
        let key = key_of(s);
        let j = match index_of(key.as_slice(), self.dims.as_slice()) {
            Some(j) => j,
            None => {
                return None;
            },
        };
        proof {
            lemma_offset_bounds(key@, dims);
            lemma_decode_offset(key@, dims);
        }
        let own = self.table[j];
        let room = (s.recipe.difficulty - s.progress) as u32;
        let ghost start = Slot {
            value: cap(own.value as int, headroom(*s)) as u32,
            step: own.step,
            action: own.action,
        };
        let mut best = Slot {
            value: if own.value < room {
                own.value
            } else {
                room
            },
            step: own.step,
            action: own.action,
        };
        let floor = best.value;
        let top_c = s.craft_points as usize;
        let top_b = s.durability as usize / 5;
        let mut c: usize = 0;
        while c <= top_c
            invariant
                self.ready(),
                dims == self.dims@,
                positive(dims),
                key@ == progress_key(*s),
                in_dims(key@, dims),
                top_c == s.craft_points,
                top_b == s.durability / 5,
                room == headroom(*s),
                floor == progress_floor(self.plan, *s),
                0 <= c <= top_c + 1,
                best == progress_scan(self.plan, *s, start, c as nat),
            decreases top_c + 1 - c,
        {
            let ghost row_start = best;
            let mut b: usize = 0;
            while b <= top_b
                invariant
                    self.ready(),
                    dims == self.dims@,
                    positive(dims),
                    key@ == progress_key(*s),
                    in_dims(key@, dims),
                    top_c == s.craft_points,
                    top_b == s.durability / 5,
                    room == headroom(*s),
                    floor == progress_floor(self.plan, *s),
                    0 <= c <= top_c,
                    0 <= b <= top_b + 1,
                    best == progress_scan_row(self.plan, *s, row_start, c as int, b as nat),
                decreases top_b + 1 - b,
            {
                let mut k2: Vec<usize> = Vec::new();
                k2.push(c);
                k2.push(b);
                k2.push(key[2]);
                k2.push(key[3]);
                k2.push(key[4]);
                k2.push(key[5]);
                k2.push(key[6]);
                assert(k2@ =~= budget_key(*s, c as int, b as int));
                assert(in_dims(k2@, dims)) by {
                    assert forall|i: int| 0 <= i < k2@.len() implies #[trigger] k2@[i] < dims[i] by {
                        assert(key@[i] < dims[i]);
                    }
                }
                match index_of(k2.as_slice(), self.dims.as_slice()) {
                    Some(j2) => {
                        proof {
                            lemma_offset_bounds(k2@, dims);
                            lemma_decode_offset(k2@, dims);
                        }
                        best = choose_shorter(best, self.table[j2], room, floor);
                    },
                    None => {},
                }
                b = b + 1;
            }
            c = c + 1;
        }
        best.action
    }

    /// Reads, checks and casts until the read gives nothing, the simulation
    /// refuses the action, the craft is over, or the next state would not come
    /// earlier in the table.
    pub fn read_all(&self, s: &CraftState) -> (r: Vec<Action>)
        requires
            self.ready(),
        ensures
            r@ == progress_run(self.plan, *s),
    {
        let ghost dims = self.dims@;
        proof {
            lemma_progress_dims_positive(self.plan);
        }
        let mut cur = *s;
        let mut out: Vec<Action> = Vec::new();
        loop
            invariant_except_break
                out@ + progress_run(self.plan, cur) == progress_run(self.plan, *s),
            invariant
                self.ready(),
                dims == self.dims@,
                positive(dims),
            ensures
                out@ == progress_run(self.plan, *s),
            decreases offset(progress_key(cur), dims),
        {
            let ghost before = out@;
            let a = match self.read(&cur) {
                Some(a) => a,
                None => {
                    assert(out@ =~= before + progress_run(self.plan, cur));
                    break;
                },
            };
            if !is_castable(&cur) || !is_allowed(&cur, a.name()) {
                assert(out@ =~= before + progress_run(self.plan, cur));
                break;
            }
            let nx = cast(&cur, a.name());
            out.push(a);
            if nx.is_finished() || nx.craft_points < 0 {
                assert(out@ =~= before + progress_run(self.plan, cur));
                break;
            }
            let kc = key_of(&cur);
            let kn = key_of(&nx);
            let ic = index_of(kc.as_slice(), self.dims.as_slice());
            let inx = index_of(kn.as_slice(), self.dims.as_slice());
            if let (Some(ic), Some(inx)) = (ic, inx) {
                if inx < ic {
                    proof {
                        lemma_offset_bounds(kc@, dims);
                        lemma_offset_bounds(kn@, dims);
                        assert(out@ + progress_run(self.plan, nx) =~= before + progress_run(
                            self.plan,
                            cur,
                        ));
                    }
                    cur = nx;
                    continue;
                }
            }
            proof {
                if in_dims(kc@, dims) {
                    lemma_offset_bounds(kc@, dims);
                }
                if in_dims(kn@, dims) {
                    lemma_offset_bounds(kn@, dims);
                }
            }
            assert(out@ =~= before + progress_run(self.plan, cur));
            break;
        }
        out
    }

    /// The progress values that occur in the table, in increasing order.
    pub fn possible_progresses(&self) -> (r: Vec<u16>)
        requires
            self.ready(),
        ensures
            r@ == reached_below(*self, self.plan.base.recipe.difficulty as nat + 1),
    {
        let diff = self.plan.base.recipe.difficulty as usize;
        let mut seen: Vec<bool> = Vec::new();
        let mut v: usize = 0;
        while v <= diff
            invariant
                diff == self.plan.base.recipe.difficulty,
                0 <= v <= diff + 1,
                seen@.len() == v,
                forall|u: int| 0 <= u < v ==> !#[trigger] seen@[u],
            decreases diff + 1 - v,
        {
            seen.push(false);
            v = v + 1;
        }
        proof {
            lemma_progress_dims_positive(self.plan);
        }
        let mut i: usize = 0;
        while i < self.table.len()
            invariant
                self.ready(),
                positive(self.dims@),
                diff == self.plan.base.recipe.difficulty,
                seen@.len() == diff + 1,
                0 <= i <= self.table@.len(),
                forall|u: int|
                    0 <= u <= diff ==> (#[trigger] seen@[u] <==> exists|j: int|
                        0 <= j < i && decode(j, self.dims@)[1] >= 1 && self.table@[j].value == u),
            decreases self.table@.len() - i,
        {
            let key = key_at(i, self.dims.as_slice());
            let val = self.table[i].value as usize;
            let counted = key[1] >= 1;
            if counted && val <= diff {
                seen.set(val, true);
            }
            assert forall|u: int| 0 <= u <= diff implies (#[trigger] seen@[u] <==> exists|j: int|
                0 <= j < i + 1 && decode(j, self.dims@)[1] >= 1 && self.table@[j].value == u) by {
                if counted && u == self.table@[i as int].value {
                    assert(decode(i as int, self.dims@)[1] >= 1 && self.table@[i as int].value == u);
                } else {
                    if exists|j: int|
                        0 <= j < i + 1 && decode(j, self.dims@)[1] >= 1 && self.table@[j].value
                            == u {
                        let j = choose|j: int|
                            0 <= j < i + 1 && decode(j, self.dims@)[1] >= 1 && self.table@[j].value
                                == u;
                        assert(j != i);
                    }
                }
            }
            i = i + 1;
        }
        let mut out: Vec<u16> = Vec::new();
        let mut v: usize = 0;
        while v <= diff
            invariant
                diff == self.plan.base.recipe.difficulty,
                seen@.len() == diff + 1,
                0 <= v <= diff + 1,
                forall|u: int|
                    0 <= u <= diff ==> (#[trigger] seen@[u] <==> reached(*self, u)),
                out@ == reached_below(*self, v as nat),
            decreases diff + 1 - v,
        {
            if seen[v] {
                out.push(v as u16);
            }
            v = v + 1;
        }
        out
    }
}

} // verus!
