//! The eager quality planner: the recurrence of the quality table, filled
//! bottom-up in offset order, once per progress credit. A credit is progress
//! already made; the credits are the progress still missing after each value
//! that the progress table holds, the first few of them, then zero.
use vstd::prelude::*;

use crate::model::{is_excluded, Action, CraftState, Plan};
use crate::progress::plan_ok;
use crate::progress::earlier;
use crate::oracle::{cast, is_allowed, is_castable};
use crate::progress::ProgressSolver;
use crate::quality::{
    credit_column, credit_index, credits, credits_of, quality_answer, descends, finishes, quality_dims_of, lemma_quality_dims_positive, quality_budget_key, quality_choice, quality_floor,
    quality_dims, quality_fold, quality_headroom, quality_key, quality_key_of,
    quality_read, quality_run, quality_scan, quality_scan_row, quality_slot, quality_state,
    quality_state_at, touch_skill, };
use crate::slot::{cap, choose_better, choose_shorter, empty, Slot};
use crate::table::{
    decode, in_dims, index_of, key_at, lemma_decode_offset, lemma_offset_bounds,
    lemma_offset_decode, lemma_offset_push, lemma_size_positive, offset, positive, size, size_of,
};

verus! {

/// The eager quality planner.
pub struct OrdinarySolver {
    pub driver: ProgressSolver,
    pub pg: usize,
    pub final_progress: Vec<u16>,
    pub dims: Vec<usize>,
    pub results: Vec<Slot>,
}

impl OrdinarySolver {
    pub open spec fn plan(&self) -> Plan {
        self.driver.plan
    }

    pub open spec fn wf(&self) -> bool {
        &&& self.driver.ready()
        &&& plan_ok(self.plan())
        &&& self.final_progress@ == credits_of(self.driver, self.pg as nat)
        &&& self.final_progress@.len() >= 1
        &&& self.dims@.len() == 10
        &&& self.dims@.drop_last() == quality_dims(self.plan())
        &&& self.dims@[9] == self.final_progress@.len()
        &&& size(self.dims@) <= u32::MAX
    }

    /// The answer of the entry at position `j`: the key of its first nine
    /// digits, with the credit that its last digit picks.
    pub open spec fn entry(&self, j: int) -> Slot {
        let key = decode(j, self.dims@);
        quality_slot(
            self.plan(),
            self.final_progress@[key.last() as int] as int,
            key.drop_last(),
        )
    }

    pub open spec fn ready(&self) -> bool {
        &&& self.wf()
        &&& self.results@.len() == size(self.dims@)
        &&& forall|j: int|
            0 <= j < self.results@.len() ==> #[trigger] self.results@[j] == self.entry(j)
                && self.results@[j].step <= j + 1
    }

    /// The column that a query for a state with `progress` reads.
    pub open spec fn column(&self, progress: int) -> nat {
        credit_index(self.final_progress@, progress, 0)
    }

    pub fn new(driver: ProgressSolver, pg: usize) -> (r: Self)
        requires
            driver.ready(),
            pg < usize::MAX,
            size(quality_dims(driver.plan)) * (pg + 1) <= u32::MAX,
        ensures
            r.wf(),
            r.plan() == driver.plan,
            r.pg == pg,
            r.final_progress@ == credits_of(driver, pg as nat),
            r.results@.len() == 0,
    {
        let ghost p = driver.plan;
        proof {
            lemma_quality_dims_positive(p);
            lemma_size_positive(quality_dims(p));
        }
        let fp = credits(&driver, pg);
        let mut dims = quality_dims_of(&driver.plan);
        let ghost q = dims@;
        dims.push(fp.len());
        assert(dims@.drop_last() =~= q);
        proof {
            let a = size(q);
            let b = fp@.len() as int;
            let c = pg as int + 1;
            assert(a * b <= a * c) by (nonlinear_arith)
                requires
                    a >= 1,
                    b <= c,
            ;
            lemma_offset_push(seq![0usize, 0, 0, 0, 0, 0, 0, 0, 0], q, 0, fp@.len() as usize);
        }
        OrdinarySolver { driver, pg, final_progress: fp, dims, results: Vec::new() }
    }

    /// The answer at the entry whose key is `ekey` (position `i`), given the
    /// answers of every earlier entry.
    fn fill(&self, table: &Vec<Slot>, i: usize, ekey: &Vec<usize>) -> (r: Slot)
        requires
            self.wf(),
            i < size(self.dims@),
            ekey@ == decode(i as int, self.dims@),
            in_dims(ekey@, self.dims@),
            table@.len() == i,
            forall|j: int|
                0 <= j < i ==> #[trigger] table@[j] == self.entry(j) && table@[j].step <= j + 1,
        ensures
            r == self.entry(i as int),
            r.step <= i + 1,
    {
        let ghost dims = self.dims@;
        let ghost p = self.plan();
        let ghost qd = quality_dims(p);
        let n_cols = self.final_progress.len();
        proof {
            self.lemma_dims();
            lemma_offset_decode(i as int, dims);
        }
        let mut key: Vec<usize> = Vec::new();
        let mut u: usize = 0;
        while u < 9
            invariant
                ekey@.len() == 10,
                0 <= u <= 9,
                key@.len() == u,
                forall|w: int| 0 <= w < u ==> #[trigger] key@[w] == ekey@[w],
            decreases 9 - u,
        {
            key.push(ekey[u]);
            u = u + 1;
        }
        let t = ekey[9];
        let ghost k9 = key@;
        proof {
            assert(k9 =~= ekey@.drop_last());
            assert(ekey@ =~= k9.push(t));
            assert(dims =~= qd.push(n_cols));
            assert(in_dims(k9, qd)) by {
                assert forall|w: int| 0 <= w < 9 implies #[trigger] k9[w] < qd[w] by {
                    assert(ekey@[w] < dims[w]);
                }
            }
            assert(t < n_cols) by {
                assert(ekey@[9] < dims[9]);
            }
            lemma_offset_push(k9, qd, t, n_cols);
            lemma_offset_bounds(k9, qd);
        }
        let credit = self.final_progress[t];
        let ghost ck = self.final_progress@[t as int] as int;
        assert(self.entry(i as int) == quality_slot(p, ck, k9));
        let mut best = empty();
        if key[1] == 0 {
            return best;
        }
        let s = quality_state_at(&self.driver.plan, &key);
        let quality_cap = self.driver.plan.base.recipe.quality as u64;
        let mut k: usize = 0;
        while k < 15
            invariant
                self.wf(),
                p == self.plan(),
                dims == self.dims@,
                qd == quality_dims(p),
                dims == qd.push(n_cols),
                n_cols == self.final_progress@.len(),
                positive(dims),
                positive(qd),
                in_dims(k9, qd),
                t < n_cols,
                i == offset(k9, qd) * n_cols + t,
                i < size(dims),
                k9[1] != 0,
                credit == ck,
                ck == self.final_progress@[t as int] as int,
                s == quality_state(p, k9),
                quality_cap == p.base.recipe.quality,
                table@.len() == i,
                forall|j: int|
                    0 <= j < i ==> #[trigger] table@[j] == self.entry(j) && table@[j].step <= j
                        + 1,
                0 <= k <= 15,
                best == quality_fold(p, ck, k9, k as nat),
                best.step <= i + 1,
            decreases 15 - k,
        {
            let a = touch_skill(k);
            if !is_excluded(&self.driver.plan, a, &s) && is_castable(&s) && is_allowed(&s, a.name()) {
                let nx = cast(&s, a.name());
                if finishes(&self.driver, &nx, credit as u32) {
                    let mut nk = quality_key_of(&nx);
                    let ghost n9 = nk@;
                    nk.push(t);
                    match index_of(nk.as_slice(), self.dims.as_slice()) {
                        Some(j) => {
                            proof {
                                lemma_offset_push(n9, qd, t, n_cols);
                                assert(in_dims(n9, qd)) by {
                                    assert forall|w: int| 0 <= w < 9 implies #[trigger] n9[w] < qd[w] by {
                                        assert(nk@[w] == n9[w]);
                                        assert(nk@[w] < dims[w]);
                                    }
                                }
                                lemma_offset_bounds(n9, qd);
                                lemma_offset_bounds(nk@, dims);
                                let a1 = offset(n9, qd);
                                let b1 = offset(k9, qd);
                                let c1 = n_cols as int;
                                assert((a1 * c1 + t < b1 * c1 + t) == (a1 < b1)) by (nonlinear_arith)
                                    requires
                                        c1 >= 1,
                                ;
                            }
                            if j < i {
                                proof {
                                    lemma_decode_offset(nk@, dims);
                                    assert(nk@ =~= n9.push(t));
                                    assert(nk@.drop_last() =~= n9);
                                }
                                let n = table[j];
                                assert(table@[j as int] == self.entry(j as int));
                                assert(decode(j as int, dims) == nk@);
                                assert(nk@.last() == t);
                                assert(decode(j as int, dims).drop_last() == n9);
                                assert(self.final_progress@[decode(j as int, dims).last() as int] as int == ck);
                                assert(self.entry(j as int) == quality_slot(p, ck, n9));
                                assert(crate::progress::earlier(k9, quality_key(nx), qd));
                                let total = nx.quality as u64 + n.value as u64;
                                let v = if total < quality_cap {
                                    total as u32
                                } else {
                                    quality_cap as u32
                                };
                                best = choose_better(best, Slot { value: v, step: n.step + 1, action: Some(a) });
                            }
                        },
                        None => {
                            proof {
                                assert(nk@ =~= n9.push(t));
                                if in_dims(n9, qd) {
                                    assert(in_dims(nk@, dims)) by {
                                        assert forall|w: int| 0 <= w < 10 implies #[trigger] nk@[w] < dims[w] by {
                                            if w < 9 {
                                                assert(nk@[w] == n9[w]);
                                            }
                                        }
                                    }
                                }
                            }
                        },
                    }
                }
            }
            k = k + 1;
        }
        best
    }

    proof fn lemma_dims(&self)
        requires
            self.wf(),
        ensures
            positive(self.dims@),
            positive(quality_dims(self.plan())),
            self.dims@ == quality_dims(self.plan()).push(self.dims@[9]),
            self.dims@[9] == self.final_progress@.len(),
            size(quality_dims(self.plan())) <= u32::MAX,
    {
        let qd = quality_dims(self.plan());
        lemma_quality_dims_positive(self.plan());
        lemma_size_positive(qd);
        assert(self.dims@ =~= qd.push(self.dims@[9]));
        lemma_offset_push(seq![0usize, 0, 0, 0, 0, 0, 0, 0, 0], qd, 0, self.dims@[9]);
        let a = size(qd);
        let n = self.dims@[9] as int;
        assert(a <= a * n) by (nonlinear_arith)
            requires
                a >= 1,
                n >= 1,
        ;
        assert forall|u: int| 0 <= u < self.dims@.len() implies #[trigger] self.dims@[u] >= 1 by {
            if u < 9 {
                assert(self.dims@[u] == qd[u]);
            }
        }
    }

    /// Fills every entry, in the order of their offsets.
    pub fn init(&mut self)
        requires
            old(self).wf(),
        ensures
            final(self).ready(),
            final(self).plan() == old(self).plan(),
            final(self).pg == old(self).pg,
            final(self).final_progress@ == old(self).final_progress@,
    {
        proof {
            self.lemma_dims();
            lemma_size_positive(self.dims@);
        }
        let n = match size_of(self.dims.as_slice()) {
            Some(n) => n,
            None => {
                return;
            },
        };
        let mut table: Vec<Slot> = Vec::new();
        let mut i: usize = 0;
        while i < n
            invariant
                self.wf(),
                positive(self.dims@),
                n == size(self.dims@),
                0 <= i <= n,
                table@.len() == i,
                forall|j: int|
                    0 <= j < i ==> #[trigger] table@[j] == self.entry(j) && table@[j].step <= j
                        + 1,
            decreases n - i,
        {
            let ekey = key_at(i, self.dims.as_slice());
            let slot = self.fill(&table, i, &ekey);
            table.push(slot);
            i = i + 1;
        }
        self.results = table;
    }

    /// The answer at `key` in column `t`.
    fn lookup(&self, key: &Vec<usize>, t: usize) -> (r: Slot)
        requires
            self.ready(),
            in_dims(key@, quality_dims(self.plan())),
            t < self.final_progress@.len(),
        ensures
            r == quality_slot(self.plan(), self.final_progress@[t as int] as int, key@),
    {
        let ghost qd = quality_dims(self.plan());
        proof {
            self.lemma_dims();
        }
        let mut ek = key.clone();
        assert(ek@ == key@);
        ek.push(t);
        assert(ek@.drop_last() =~= key@);
        assert(in_dims(ek@, self.dims@)) by {
            assert forall|w: int| 0 <= w < ek@.len() implies #[trigger] ek@[w] < self.dims@[w] by {
                if w < 9 {
                    assert(ek@[w] == key@[w]);
                    assert(self.dims@[w] == qd[w]);
                }
            }
        }
        match index_of(ek.as_slice(), self.dims.as_slice()) {
            Some(j) => {
                proof {
                    lemma_offset_bounds(ek@, self.dims@);
                    lemma_decode_offset(ek@, self.dims@);
                }
                self.results[j]
            },
            None => {
                proof {
                    assert(false);
                }
                empty()
            },
        }
    }

    /// The search of a query in column `t`, for a state the table holds.
    fn search(&self, s: &CraftState, key: &Vec<usize>, t: usize) -> (r: Slot)
        requires
            self.ready(),
            key@ == quality_key(*s),
            s.craft_points >= 0,
            in_dims(key@, quality_dims(self.plan())),
            t < self.final_progress@.len(),
        ensures
            r == quality_choice(self.plan(), self.final_progress@[t as int] as int, *s),
    {
        let ghost p = self.plan();
        let ghost qd = quality_dims(p);
        let ghost credit = self.final_progress@[t as int] as int;
        let own = self.lookup(key, t);
        let room: u32 = if s.quality < s.recipe.quality {
            s.recipe.quality - s.quality
        } else {
            0
        };
        let ghost start = Slot {
            value: cap(own.value as int, quality_headroom(*s)) as u32,
            step: own.step,
            action: own.action,
        };
        let mut best = Slot {
            value: if own.value < room {
                own.value
            } else {
                room
            },
            step: own.step,
            action: own.action,
        };
        let floor = best.value;
        let top_c = s.craft_points as usize;
        let top_b = s.durability as usize / 5;
        let mut c: usize = 0;
        while c <= top_c
            invariant
                self.ready(),
                p == self.plan(),
                qd == quality_dims(p),
                credit == self.final_progress@[t as int] as int,
                t < self.final_progress@.len(),
                key@ == quality_key(*s),
                in_dims(key@, qd),
                top_c == s.craft_points,
                top_b == s.durability / 5,
                room == quality_headroom(*s),
                floor == quality_floor(p, credit, *s),
                0 <= c <= top_c + 1,
                best == quality_scan(p, credit, *s, start, c as nat),
            decreases top_c + 1 - c,
        {
            let ghost row_start = best;
            let mut b: usize = 0;
            while b <= top_b
                invariant
                    self.ready(),
                    p == self.plan(),
                    qd == quality_dims(p),
                    credit == self.final_progress@[t as int] as int,
                    t < self.final_progress@.len(),
                    key@ == quality_key(*s),
                    in_dims(key@, qd),
                    top_c == s.craft_points,
                    top_b == s.durability / 5,
                    room == quality_headroom(*s),
                    floor == quality_floor(p, credit, *s),
                    0 <= c <= top_c,
                    0 <= b <= top_b + 1,
                    best == quality_scan_row(p, credit, *s, row_start, c as int, b as nat),
                decreases top_b + 1 - b,
            {
                let mut k2 = key.clone();
                assert(k2@ == key@);
                k2.set(0, c);
                k2.set(1, b);
                assert(k2@ =~= quality_budget_key(*s, c as int, b as int));
                assert(in_dims(k2@, qd)) by {
                    assert forall|i: int| 0 <= i < k2@.len() implies #[trigger] k2@[i] < qd[i] by {
                        assert(key@[i] < qd[i]);
                    }
                }
                let sub = self.lookup(&k2, t);
                best = choose_shorter(best, sub, room, floor);
                b = b + 1;
            }
            c = c + 1;
        }
        best
    }

    /// The query of column `t`: as for the lazy planner, with the credit of
    /// that column.
    pub fn read_column(&self, s: &CraftState, t: usize) -> (r: Option<Action>)
        requires
            self.ready(),
            t < self.final_progress@.len(),
        ensures
            r == quality_read(self.plan(), self.final_progress@[t as int] as int, *s),
    {
        proof {
            self.lemma_dims();
        }
        if s.is_finished() {
            return None;
        }
        let mut own: Option<Action> = None;
        if s.craft_points >= 0 {
            let key = quality_key_of(s);
            let mut ok = key.len() == 9;
            let mut w: usize = 0;
            while w < 9
                invariant
                    self.wf(),
                    key@.len() == 9,
                    self.dims@ == quality_dims(self.plan()).push(self.dims@[9]),
                    0 <= w <= 9,
                    ok == (forall|u: int| 0 <= u < w ==> #[trigger] key@[u] < quality_dims(self.plan())[u]),
                decreases 9 - w,
            {
                assert(self.dims@[w as int] == quality_dims(self.plan())[w as int]);
                ok = ok && key[w] < self.dims[w];
                w = w + 1;
            }
            if ok {
                let c = self.search(s, &key, t);
                own = c.action;
            }
        }
        if own.is_some() {
            own
        } else {
            self.driver.read(s)
        }
    }

    /// The column that a state with `progress` reads.
    pub fn progress_index(&self, progress: u16) -> (r: usize)
        requires
            self.wf(),
        ensures
            r == self.column(progress as int),
            r < self.final_progress@.len(),
    {
        credit_column(&self.final_progress, progress)
    }

    /// The query for `s`, in the column that its progress picks.
    pub fn read(&self, s: &CraftState) -> (r: Option<Action>)
        requires
            self.ready(),
        ensures
            r == quality_answer(self.plan(), self.final_progress@, *s),
    {
        let t = self.progress_index(s.progress);
        self.read_column(s, t)
    }

    /// Reads (each state in the column that its progress picks), checks and
    /// casts, as the lazy planner's `read_all` does.
    pub fn read_all(&self, s: &CraftState) -> (r: Vec<Action>)
        requires
            self.ready(),
        ensures
            r@ == quality_run(self.plan(), self.final_progress@, *s),
    {
        let ghost p = self.plan();
        let ghost qd = quality_dims(p);
        let ghost fp = self.final_progress@;
        proof {
            self.lemma_dims();
        }
        let mut cur = *s;
        let mut out: Vec<Action> = Vec::new();
        loop
            invariant_except_break
                out@ + quality_run(p, fp, cur) == quality_run(p, fp, *s),
            invariant
                self.ready(),
                p == self.plan(),
                fp == self.final_progress@,
                qd == quality_dims(p),
                positive(qd),
                size(qd) <= u32::MAX,
            ensures
                out@ == quality_run(p, fp, *s),
            decreases offset(quality_key(cur), qd),
        {
            let ghost before = out@;
            let a = match self.read(&cur) {
                Some(a) => a,
                None => {
                    assert(out@ =~= before + quality_run(p, fp, cur));
                    break;
                },
            };
            if !is_castable(&cur) || !is_allowed(&cur, a.name()) {
                assert(out@ =~= before + quality_run(p, fp, cur));
                break;
            }
            let nx = cast(&cur, a.name());
            out.push(a);
            if descends(&self.driver.plan, &cur, &nx) {
                assert(out@ + quality_run(p, fp, nx) =~= before + quality_run(p, fp, cur));
                cur = nx;
            } else {
                assert(out@ =~= before + quality_run(p, fp, cur));
                break;
            }
        }
        out
    }
}

} // verus!
