//! Aggregation of fuzzing results: a bidirectional index from instance seed
//! to findings and from solver to findings, and the draw of fresh instance
//! seeds.

use vstd::prelude::*;

use crate::rng::chacha_range;
use crate::rng::Rng;
use crate::Problem;

verus! {

/// The seeds recorded in the per-instance index.
pub open spec fn inst_keys(s: Seq<(u64, Vec<(String, Problem)>)>) -> Seq<u64> {
    s.map_values(|e: (u64, Vec<(String, Problem)>)| e.0)
}

/// The number of findings recorded in the per-instance index.
pub open spec fn prob_total(s: Seq<(u64, Vec<(String, Problem)>)>) -> int
    decreases s.len(),
{
    if s.len() == 0 {
        0
    } else {
        prob_total(s.drop_last()) + s.last().1@.len()
    }
}

/// The number of findings recorded in the per-solver index.
pub open spec fn solver_total(s: Seq<(String, Vec<(u64, Problem)>)>) -> int
    decreases s.len(),
{
    if s.len() == 0 {
        0
    } else {
        solver_total(s.drop_last()) + s.last().1@.len()
    }
}

/// The number of findings recorded against the solver named `name`.
pub open spec fn solver_count(s: Seq<(String, Vec<(u64, Problem)>)>, name: Seq<char>) -> int
    decreases s.len(),
{
    if s.len() == 0 {
        0
    } else {
        solver_count(s.drop_last(), name) + if s.last().0@ == name {
            s.last().1@.len() as int
        } else {
            0
        }
    }
}

/// The number of findings recorded against the instance seed `seed`.
pub open spec fn inst_count(s: Seq<(u64, Vec<(String, Problem)>)>, seed: u64) -> int
    decreases s.len(),
{
    if s.len() == 0 {
        0
    } else {
        inst_count(s.drop_last(), seed) + if s.last().0 == seed {
            s.last().1@.len() as int
        } else {
            0
        }
    }
}

proof fn lemma_prob_total_nonneg(s: Seq<(u64, Vec<(String, Problem)>)>)
    ensures
        prob_total(s) >= 0,
    decreases s.len(),
{
    if s.len() > 0 {
        lemma_prob_total_nonneg(s.drop_last());
    }
}

/// The finding `e` of instance `seed` appears in the per-solver index under
/// its solver's name.
pub open spec fn finding_recorded(
    s: Seq<(String, Vec<(u64, Problem)>)>,
    seed: u64,
    e: (String, Problem),
) -> bool {
    exists|k: int| 0 <= k < s.len() && s[k].0@ == e.0@ && s[k].1@.contains((seed, e.1))
}

/// Aggregated findings of a fuzz run, kept in two synchronized indices:
/// seed to findings and solver to findings. Both are append-only.
pub struct FuzzResult {
    pub by_inst: Vec<(u64, Vec<(String, Problem)>)>,
    pub by_solver: Vec<(String, Vec<(u64, Problem)>)>,
}

impl FuzzResult {
    /// Both indices have distinct keys and the recorded finding counts stay
    /// small enough to count.
    pub open spec fn wf(&self) -> bool {
        &&& forall|i: int, j: int|
            0 <= i < j < self.by_inst@.len() ==> self.by_inst@[i].0 != self.by_inst@[j].0
        &&& forall|i: int, j: int|
            0 <= i < j < self.by_solver@.len() ==> self.by_solver@[i].0@ != self.by_solver@[j].0@
        &&& prob_total(self.by_inst@) <= 0xffff_ffff
        &&& solver_total(self.by_solver@) == prob_total(self.by_inst@)
        &&& self.by_inst@.len() <= 0xffff_ffff
    }

    pub fn new() -> (r: FuzzResult)
        ensures
            r.wf(),
            r.by_inst@.len() == 0,
            r.by_solver@.len() == 0,
    {
        FuzzResult { by_inst: Vec::new(), by_solver: Vec::new() }
    }

    /// Whether findings for this instance seed were already recorded.
    pub fn contains_instance(&self, seed: u64) -> (r: bool)
        ensures
            r == inst_keys(self.by_inst@).contains(seed),
    {
        let mut k: usize = 0;
        while k < self.by_inst.len()
            invariant
                k <= self.by_inst@.len(),
                forall|i: int| 0 <= i < k ==> self.by_inst@[i].0 != seed,
            decreases self.by_inst@.len() - k,
        {
            if self.by_inst[k].0 == seed {
                assert(inst_keys(self.by_inst@)[k as int] == seed);
                return true;
            }
            k += 1;
        }
        proof {
            assert forall|i: int| 0 <= i < inst_keys(self.by_inst@).len() implies inst_keys(
                self.by_inst@,
            )[i] != seed by {
                assert(inst_keys(self.by_inst@)[i] == self.by_inst@[i].0);
            }
        }
        false
    }

    /// Records the findings of one instance: each finding is appended to its
    /// solver's list, and the whole list to the instance's entry.
    pub fn instance_results(&mut self, inst_seed: u64, problems: Vec<(String, Problem)>)
        requires
            old(self).wf(),
            !inst_keys(old(self).by_inst@).contains(inst_seed),
            prob_total(old(self).by_inst@) + problems@.len() <= 0xffff_ffff,
            solver_total(old(self).by_solver@) + problems@.len() <= 0xffff_ffff,
            old(self).by_inst@.len() + 1 <= 0xffff_ffff,
        ensures
            final(self).wf(),
            final(self).by_inst@ == old(self).by_inst@.push((inst_seed, problems)),
            solver_total(final(self).by_solver@) == solver_total(old(self).by_solver@)
                + problems@.len(),
            forall|m: int| #![auto]
                0 <= m < problems@.len() ==> finding_recorded(
                    final(self).by_solver@,
                    inst_seed,
                    problems@[m],
                ),
    {
        let ghost probv = problems@;
        let mut m: usize = 0;
        while m < problems.len()
            invariant
                problems@ == probv,
                m <= probv.len(),
                forall|i: int, j: int|
                    0 <= i < j < self.by_solver@.len() ==> self.by_solver@[i].0@
                        != self.by_solver@[j].0@,
                solver_total(self.by_solver@) == solver_total(old(self).by_solver@) + m,
                solver_total(old(self).by_solver@) + probv.len() <= 0xffff_ffff,
                forall|m2: int| #![auto]
                    0 <= m2 < m ==> finding_recorded(self.by_solver@, inst_seed, probv[m2]),
                self.by_inst@ == old(self).by_inst@,
            decreases probv.len() - m,
        {
            let ghost solv0 = self.by_solver@;
            let slv = &problems[m].0;
            let prob = problems[m].1;
            let mut k: usize = 0;
            let mut placed = false;
            while k < self.by_solver.len() && !placed
                invariant
                    k <= self.by_solver@.len(),
                    m < probv.len(),
                    problems@ == probv,
                    self.by_inst@ == old(self).by_inst@,
                    slv == &probv[m as int].0,
                    prob == probv[m as int].1,
                    forall|i: int, j: int|
                        0 <= i < j < self.by_solver@.len() ==> self.by_solver@[i].0@
                            != self.by_solver@[j].0@,
                    !placed ==> self.by_solver@ == solv0,
                    !placed ==> forall|i: int|
                        0 <= i < k ==> self.by_solver@[i].0@ != probv[m as int].0@,
                    placed ==> solver_total(self.by_solver@) == solver_total(solv0) + 1
                        && self.by_solver@.len() == solv0.len(),
                    placed ==> forall|i: int|
                        0 <= i < self.by_solver@.len() ==> self.by_solver@[i].0
                            == solv0[i].0,
                    placed ==> finding_recorded(self.by_solver@, inst_seed, probv[m as int]),
                    forall|m2: int| #![auto]
                        0 <= m2 < m ==> finding_recorded(self.by_solver@, inst_seed, probv[m2]),
                decreases self.by_solver@.len() - k, (if placed {
                    0int
                } else {
                    1int
                }),
            {
                if self.by_solver[k].0 == *slv {
                    let ghost before = self.by_solver@;
                    let entry = &mut self.by_solver[k];
                    entry.1.push((inst_seed, prob));
                    placed = true;
                    proof {
                        lemma_solver_total_update(solv0, self.by_solver@, k as int);
                        let newlist = self.by_solver@[k as int].1@;
                        assert(newlist == before[k as int].1@.push((inst_seed, prob)));
                        assert(newlist.contains((inst_seed, prob))) by {
                            assert(newlist[newlist.len() - 1] == (inst_seed, prob));
                        }
                        assert(finding_recorded(self.by_solver@, inst_seed, probv[m as int])) by {
                            assert(self.by_solver@[k as int].0@ == probv[m as int].0@);
                        }
                        assert forall|m2: int| #![auto] 0 <= m2 < m implies finding_recorded(
                            self.by_solver@,
                            inst_seed,
                            probv[m2],
                        ) by {
                            let k2 = choose|k2: int|
                                0 <= k2 < before.len() && before[k2].0@ == probv[m2].0@
                                    && before[k2].1@.contains((inst_seed, probv[m2].1));
                            if k2 == k {
                                let idx = choose|idx: int|
                                    0 <= idx < before[k2].1@.len() && before[k2].1@[idx] == (
                                    inst_seed,
                                    probv[m2].1,
                                );
                                assert(newlist[idx] == (inst_seed, probv[m2].1));
                            } else {
                                assert(self.by_solver@[k2] == before[k2]);
                            }
                        }
                    }
                } else {
                    k += 1;
                }
            }
            if !placed {
                let mut lst: Vec<(u64, Problem)> = Vec::new();
                lst.push((inst_seed, prob));
                let name = slv.clone();
                self.by_solver.push((name, lst));
                proof {
                    assert(self.by_solver@.drop_last() =~= solv0);
                    assert(solver_total(self.by_solver@) == solver_total(solv0) + 1) by {
                        assert(self.by_solver@.last().1@.len() == 1);
                    }
                    assert(self.by_solver@.last().1@.contains((inst_seed, prob))) by {
                        assert(self.by_solver@.last().1@[0] == (inst_seed, prob));
                    }
                    assert(finding_recorded(self.by_solver@, inst_seed, probv[m as int])) by {
                        assert(self.by_solver@.last().0@ == probv[m as int].0@);
                        assert(self.by_solver@[self.by_solver@.len() - 1] == self.by_solver@.last());
                    }
                    assert forall|m2: int| #![auto] 0 <= m2 < m implies finding_recorded(
                        self.by_solver@,
                        inst_seed,
                        probv[m2],
                    ) by {
                        let k2 = choose|k2: int|
                            0 <= k2 < solv0.len() && solv0[k2].0@ == probv[m2].0@
                                && solv0[k2].1@.contains((inst_seed, probv[m2].1));
                        assert(self.by_solver@[k2] == solv0[k2]);
                    }
                    assert forall|i: int, j: int|
                        0 <= i < j < self.by_solver@.len() implies self.by_solver@[i].0@
                        != self.by_solver@[j].0@ by {
                        if j < solv0.len() {
                            assert(self.by_solver@[i] == solv0[i]);
                            assert(self.by_solver@[j] == solv0[j]);
                        } else {
                            assert(self.by_solver@[i] == solv0[i]);
                        }
                    }
                }
            }
            m += 1;
        }
        proof {
            lemma_prob_total_push(self.by_inst@, (inst_seed, problems));
        }
        self.by_inst.push((inst_seed, problems));
        proof {
            assert forall|i: int, j: int|
                0 <= i < j < self.by_inst@.len() implies self.by_inst@[i].0 != self.by_inst@[j].0
                by {
                if j < self.by_inst@.len() - 1 {
                    assert(self.by_inst@[i] == old(self).by_inst@[i]);
                    assert(self.by_inst@[j] == old(self).by_inst@[j]);
                } else {
                    assert(self.by_inst@[i] == old(self).by_inst@[i]);
                    assert(inst_keys(old(self).by_inst@)[i] == old(self).by_inst@[i].0);
                }
            }
        }
    }

    /// The total number of findings over all instances.
    pub fn n_problems(&self) -> (r: usize)
        requires
            self.wf(),
        ensures
            r == prob_total(self.by_inst@),
    {
        let mut cnt: usize = 0;
        let mut k: usize = 0;
        while k < self.by_inst.len()
            invariant
                self.wf(),
                k <= self.by_inst@.len(),
                cnt == prob_total(self.by_inst@.take(k as int)),
                cnt <= 0xffff_ffff,
            decreases self.by_inst@.len() - k,
        {
            proof {
                assert(self.by_inst@.take(k + 1).drop_last() =~= self.by_inst@.take(k as int));
                assert(self.by_inst@.take(k + 1).last() == self.by_inst@[k as int]);
                lemma_prob_total_prefix(self.by_inst@, k + 1);
                lemma_prob_total_nonneg(self.by_inst@.take(k as int));
            }
            cnt = cnt + self.by_inst[k].1.len();
            k += 1;
        }
        proof {
            assert(self.by_inst@.take(k as int) =~= self.by_inst@);
        }
        cnt
    }

    /// The number of findings recorded against one solver.
    pub fn n_solver_problems(&self, solver: &String) -> (r: usize)
        requires
            self.wf(),
        ensures
            r == solver_count(self.by_solver@, solver@),
    {
        let mut k: usize = 0;
        while k < self.by_solver.len()
            invariant
                self.wf(),
                k <= self.by_solver@.len(),
                solver_count(self.by_solver@.take(k as int), solver@) == 0,
            decreases self.by_solver@.len() - k,
        {
            proof {
                assert(self.by_solver@.take(k + 1).drop_last() =~= self.by_solver@.take(k as int));
                assert(self.by_solver@.take(k + 1).last() == self.by_solver@[k as int]);
            }
            if self.by_solver[k].0 == *solver {
                proof {
                    lemma_solver_count_unique(self.by_solver@, solver@, k as int);
                }
                return self.by_solver[k].1.len();
            }
            k += 1;
        }
        proof {
            assert(self.by_solver@.take(k as int) =~= self.by_solver@);
        }
        0
    }

    /// The number of findings recorded against one instance seed.
    pub fn n_instance_problems(&self, inst_seed: u64) -> (r: usize)
        requires
            self.wf(),
        ensures
            r == inst_count(self.by_inst@, inst_seed),
    {
        let mut k: usize = 0;
        while k < self.by_inst.len()
            invariant
                self.wf(),
                k <= self.by_inst@.len(),
                inst_count(self.by_inst@.take(k as int), inst_seed) == 0,
            decreases self.by_inst@.len() - k,
        {
            proof {
                assert(self.by_inst@.take(k + 1).drop_last() =~= self.by_inst@.take(k as int));
                assert(self.by_inst@.take(k + 1).last() == self.by_inst@[k as int]);
            }
            if self.by_inst[k].0 == inst_seed {
                proof {
                    lemma_inst_count_unique(self.by_inst@, inst_seed, k as int);
                }
                return self.by_inst[k].1.len();
            }
            k += 1;
        }
        proof {
            assert(self.by_inst@.take(k as int) =~= self.by_inst@);
        }
        0
    }

    /// The per-instance index.
    pub fn instance_problems(&self) -> (r: &Vec<(u64, Vec<(String, Problem)>)>)
        ensures
            r == &self.by_inst,
    {
        &self.by_inst
    }

    /// The per-solver index.
    pub fn solver_problems(&self) -> (r: &Vec<(String, Vec<(u64, Problem)>)>)
        ensures
            r == &self.by_solver,
    {
        &self.by_solver
    }
}

proof fn lemma_prob_total_push(s: Seq<(u64, Vec<(String, Problem)>)>, e: (u64, Vec<(String, Problem)>))
    ensures
        prob_total(s.push(e)) == prob_total(s) + e.1@.len(),
{
    assert(s.push(e).drop_last() =~= s);
    assert(s.push(e).last() == e);
}

proof fn lemma_prob_total_prefix(s: Seq<(u64, Vec<(String, Problem)>)>, k: int)
    requires
        0 <= k <= s.len(),
    ensures
        prob_total(s.take(k)) <= prob_total(s),
    decreases s.len() - k,
{
    if k < s.len() {
        assert(s.take(k + 1).drop_last() =~= s.take(k));
        assert(s.take(k + 1).last() == s[k]);
        lemma_prob_total_prefix(s, k + 1);
    } else {
        assert(s.take(k) =~= s);
    }
}

/// The per-solver total depends only on the entry list lengths.
proof fn lemma_solver_total_congruent(
    a: Seq<(String, Vec<(u64, Problem)>)>,
    b: Seq<(String, Vec<(u64, Problem)>)>,
)
    requires
        a.len() == b.len(),
        forall|i: int| 0 <= i < a.len() ==> a[i].1@.len() == b[i].1@.len(),
    ensures
        solver_total(a) == solver_total(b),
    decreases a.len(),
{
    if a.len() > 0 {
        lemma_solver_total_congruent(a.drop_last(), b.drop_last());
    }
}

/// Appending one finding to one solver's list grows the total by one.
proof fn lemma_solver_total_update(
    s: Seq<(String, Vec<(u64, Problem)>)>,
    s2: Seq<(String, Vec<(u64, Problem)>)>,
    k: int,
)
    requires
        s.len() == s2.len(),
        0 <= k < s.len(),
        s2[k].1@.len() == s[k].1@.len() + 1,
        forall|i: int| 0 <= i < s.len() && i != k ==> s2[i].1@.len() == s[i].1@.len(),
    ensures
        solver_total(s2) == solver_total(s) + 1,
    decreases s.len(),
{
    if k == s.len() - 1 {
        lemma_solver_total_congruent(s.drop_last(), s2.drop_last());
    } else {
        lemma_solver_total_update(s.drop_last(), s2.drop_last(), k);
    }
}

/// With distinct solver names, the count for a name is the length of its
/// single entry.
proof fn lemma_solver_count_unique(s: Seq<(String, Vec<(u64, Problem)>)>, name: Seq<char>, k: int)
    requires
        0 <= k < s.len(),
        s[k].0@ == name,
        forall|i: int, j: int| 0 <= i < j < s.len() ==> s[i].0@ != s[j].0@,
        solver_count(s.take(k), name) == 0,
    ensures
        solver_count(s, name) == s[k].1@.len(),
    decreases s.len(),
{
    lemma_solver_count_tail(s, name, k);
}

proof fn lemma_solver_count_tail(s: Seq<(String, Vec<(u64, Problem)>)>, name: Seq<char>, k: int)
    requires
        0 <= k < s.len(),
        s[k].0@ == name,
        forall|i: int, j: int| 0 <= i < j < s.len() ==> s[i].0@ != s[j].0@,
        solver_count(s.take(k), name) == 0,
    ensures
        solver_count(s, name) == s[k].1@.len(),
    decreases s.len() - k,
{
    lemma_solver_count_from(s, name, k + 1);
    lemma_solver_count_split(s, name, k + 1);
    assert(s.take(k + 1).drop_last() =~= s.take(k));
    assert(s.take(k + 1).last() == s[k]);
}

/// The count over a prefix plus the matches past it give the whole count.
proof fn lemma_solver_count_split(s: Seq<(String, Vec<(u64, Problem)>)>, name: Seq<char>, k: int)
    requires
        0 <= k <= s.len(),
    ensures
        solver_count(s, name) == solver_count(s.take(k), name) + solver_matches_from(s, name, k),
    decreases s.len() - k,
{
    if k < s.len() {
        lemma_solver_count_split(s, name, k + 1);
        assert(s.take(k + 1).drop_last() =~= s.take(k));
        assert(s.take(k + 1).last() == s[k]);
    } else {
        assert(s.take(k) =~= s);
    }
}

/// The matching entries at or past index `k`.
spec fn solver_matches_from(s: Seq<(String, Vec<(u64, Problem)>)>, name: Seq<char>, k: int) -> int
    decreases s.len() - k,
{
    if k < 0 || k >= s.len() {
        0
    } else {
        (if s[k].0@ == name {
            s[k].1@.len() as int
        } else {
            0
        }) + solver_matches_from(s, name, k + 1)
    }
}

/// With distinct names, nothing past a matching entry matches again.
proof fn lemma_solver_count_from(s: Seq<(String, Vec<(u64, Problem)>)>, name: Seq<char>, k: int)
    requires
        0 <= k <= s.len(),
        exists|t: int| 0 <= t < k && s[t].0@ == name,
        forall|i: int, j: int| 0 <= i < j < s.len() ==> s[i].0@ != s[j].0@,
    ensures
        solver_matches_from(s, name, k) == 0,
    decreases s.len() - k,
{
    if k < s.len() {
        let t = choose|t: int| 0 <= t < k && s[t].0@ == name;
        assert(s[t].0@ != s[k].0@);
        lemma_solver_count_from(s, name, k + 1);
    }
}

spec fn inst_matches_from(s: Seq<(u64, Vec<(String, Problem)>)>, seed: u64, k: int) -> int
    decreases s.len() - k,
{
    if k < 0 || k >= s.len() {
        0
    } else {
        (if s[k].0 == seed {
            s[k].1@.len() as int
        } else {
            0
        }) + inst_matches_from(s, seed, k + 1)
    }
}

proof fn lemma_inst_count_split(s: Seq<(u64, Vec<(String, Problem)>)>, seed: u64, k: int)
    requires
        0 <= k <= s.len(),
    ensures
        inst_count(s, seed) == inst_count(s.take(k), seed) + inst_matches_from(s, seed, k),
    decreases s.len() - k,
{
    if k < s.len() {
        lemma_inst_count_split(s, seed, k + 1);
        assert(s.take(k + 1).drop_last() =~= s.take(k));
        assert(s.take(k + 1).last() == s[k]);
    } else {
        assert(s.take(k) =~= s);
    }
}

proof fn lemma_inst_matches_from(s: Seq<(u64, Vec<(String, Problem)>)>, seed: u64, k: int)
    requires
        0 <= k <= s.len(),
        exists|t: int| 0 <= t < k && s[t].0 == seed,
        forall|i: int, j: int| 0 <= i < j < s.len() ==> s[i].0 != s[j].0,
    ensures
        inst_matches_from(s, seed, k) == 0,
    decreases s.len() - k,
{
    if k < s.len() {
        let t = choose|t: int| 0 <= t < k && s[t].0 == seed;
        assert(s[t].0 != s[k].0);
        lemma_inst_matches_from(s, seed, k + 1);
    }
}

proof fn lemma_inst_count_unique(s: Seq<(u64, Vec<(String, Problem)>)>, seed: u64, k: int)
    requires
        0 <= k < s.len(),
        s[k].0 == seed,
        forall|i: int, j: int| 0 <= i < j < s.len() ==> s[i].0 != s[j].0,
        inst_count(s.take(k), seed) == 0,
    ensures
        inst_count(s, seed) == s[k].1@.len(),
{
    lemma_inst_matches_from(s, seed, k + 1);
    lemma_inst_count_split(s, seed, k + 1);
    assert(s.take(k + 1).drop_last() =~= s.take(k));
    assert(s.take(k + 1).last() == s[k]);
}

/// Draws an instance seed that has no recorded findings yet: random draws
/// first, then the smallest unused value — one always exists, the index
/// holding fewer seeds than there are values. On a seeded source whose
/// first modelled draw is still unused, the result is exactly that draw.
pub fn draw_instance_seed(rng: &mut Rng, results: &FuzzResult) -> (r: u64)
    requires
        results.wf(),
    ensures
        !inst_keys(results.by_inst@).contains(r),
        final(rng).model().determined == old(rng).model().determined,
        final(rng).model().seed == old(rng).model().seed,
        old(rng).model().determined ==> ({
            let d = chacha_range(
                old(rng).model().seed,
                old(rng).model().history,
                0,
                0xffff_ffff_ffff_ffff,
            );
            !inst_keys(results.by_inst@).contains(d) ==> (r == d && final(rng).model().history
                == old(rng).model().history.push((0u64, 0xffff_ffff_ffff_ffffu64)))
        }),
{
    let mut tries: u32 = 0;
    while tries < 16
        invariant
            results.wf(),
            rng.model().determined == old(rng).model().determined,
            rng.model().seed == old(rng).model().seed,
            tries == 0 ==> rng.model().history == old(rng).model().history,
            tries > 0 && old(rng).model().determined ==> inst_keys(results.by_inst@).contains(
                chacha_range(
                    old(rng).model().seed,
                    old(rng).model().history,
                    0,
                    0xffff_ffff_ffff_ffff,
                ),
            ),
        decreases 16 - tries,
    {
        tries += 1;
        let cand = rng.gen_range_u64(0, 0xffff_ffff_ffff_ffff);
        if !results.contains_instance(cand) {
            return cand;
        }
    }
    let n = results.by_inst.len();
    let mut v: u64 = 0;
    while v < n as u64 + 1
        invariant
            results.wf(),
            n == results.by_inst@.len(),
            v <= n as u64 + 1,
            forall|v2: u64| v2 < v ==> inst_keys(results.by_inst@).contains(v2),
            rng.model().determined == old(rng).model().determined,
            rng.model().seed == old(rng).model().seed,
            old(rng).model().determined ==> inst_keys(results.by_inst@).contains(
                chacha_range(
                    old(rng).model().seed,
                    old(rng).model().history,
                    0,
                    0xffff_ffff_ffff_ffff,
                ),
            ),
        decreases n as u64 + 1 - v,
    {
        if !results.contains_instance(v) {
            return v;
        }
        v += 1;
    }
    proof {
        lemma_unused_seed(inst_keys(results.by_inst@));
    }
    0
}

/// A sequence of seeds leaves some value of `0..=len` unused.
proof fn lemma_unused_seed(keys: Seq<u64>)
    requires
        keys.len() + 1 <= u64::MAX,
    ensures
        exists|v: u64| v <= keys.len() && !keys.contains(v),
{
    let ints = keys.map_values(|x: u64| x as int);
    ints.lemma_cardinality_of_set();
    let full = vstd::set_lib::set_int_range(0, keys.len() as int + 1);
    vstd::set_lib::lemma_int_range(0, keys.len() as int + 1);
    if !(exists|v: u64| v <= keys.len() && !keys.contains(v)) {
        assert forall|x: int| full.contains(x) implies ints.to_set().contains(x) by {
            assert(keys.contains(x as u64));
            let t = choose|t: int| 0 <= t < keys.len() && keys[t] == x as u64;
            assert(ints[t] == x);
        }
        vstd::set_lib::lemma_len_subset(full, ints.to_set());
        assert(false);
    }
}

} // verus!
