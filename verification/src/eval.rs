//! The differential Pareto-front oracle: a per-solver self-check of each
//! returned front against the instance, and an N-way cross-check of the
//! surviving fronts against each other.

use vstd::prelude::*;

use crate::inst::{falsified_weight, Instance};
use crate::Problem;

verus! {

/// One point of a Pareto front: a cost vector and the witness assignments
/// that are claimed to reach it.
#[derive(Debug)]
pub struct NonDomPoint {
    pub costs: Vec<i64>,
    pub sols: Vec<Vec<bool>>,
}

/// A front as a solver returned it: a list of claimed non-dominated points.
#[derive(Debug)]
pub struct ParetoFront {
    pub points: Vec<NonDomPoint>,
}

/// What one solver produced on one instance.
#[derive(Debug)]
pub enum SolverOutcome {
    /// The solver finished and returned a front.
    Front(ParetoFront),
    /// The solver aborted abnormally.
    Panicked,
}

/// How two cost vectors stand to each other (all objectives minimized).
#[derive(Debug, Clone, Copy, PartialEq, Eq, Structural)]
pub enum Relation {
    Incomparable,
    FirstDominates,
    SecondDominates,
    Equal,
}

/// `a` dominates `b`: componentwise no worse, and not equal.
pub open spec fn dominates(a: Seq<i64>, b: Seq<i64>) -> bool {
    &&& a.len() == b.len()
    &&& forall|i: int| 0 <= i < a.len() ==> a[i] <= b[i]
    &&& a != b
}

/// The relation of two cost vectors of equal length.
pub open spec fn relation_spec(a: Seq<i64>, b: Seq<i64>) -> Relation {
    if a == b {
        Relation::Equal
    } else if dominates(a, b) {
        Relation::FirstDominates
    } else if dominates(b, a) {
        Relation::SecondDominates
    } else {
        Relation::Incomparable
    }
}

/// Some entry of the first `k` is strictly below its counterpart.
spec fn ex_below(a: Seq<i64>, b: Seq<i64>, k: int) -> bool {
    exists|i: int| 0 <= i < k && a[i] < b[i]
}

/// Classifies two cost vectors of one dimension.
pub fn check_relation(c1: &Vec<i64>, c2: &Vec<i64>) -> (r: Relation)
    requires
        c1@.len() == c2@.len(),
    ensures
        r == relation_spec(c1@, c2@),
{
    let ghost a = c1@;
    let ghost b = c2@;
    let n = c1.len();
    let mut dom = Relation::Equal;
    let mut k: usize = 0;
    while k < n
        invariant
            k <= n,
            n == a.len() && n == b.len(),
            c1@ == a && c2@ == b,
            dom matches Relation::Equal ==> !ex_below(a, b, k as int) && !ex_below(b, a, k as int),
            dom matches Relation::FirstDominates ==> ex_below(a, b, k as int) && !ex_below(
                b,
                a,
                k as int,
            ),
            dom matches Relation::SecondDominates ==> ex_below(b, a, k as int) && !ex_below(
                a,
                b,
                k as int,
            ),
            !(dom matches Relation::Incomparable),
        decreases n - k,
    {
        if c1[k] < c2[k] {
            assert(ex_below(a, b, k + 1));
            if matches!(dom, Relation::SecondDominates) {
                assert(relation_spec(a, b) == Relation::Incomparable) by {
                    assert(a != b);
                }
                return Relation::Incomparable;
            }
            dom = Relation::FirstDominates;
            assert(!ex_below(b, a, k + 1));
        } else if c2[k] < c1[k] {
            assert(ex_below(b, a, k + 1));
            if matches!(dom, Relation::FirstDominates) {
                assert(relation_spec(a, b) == Relation::Incomparable) by {
                    assert(a != b);
                }
                return Relation::Incomparable;
            }
            dom = Relation::SecondDominates;
            assert(!ex_below(a, b, k + 1));
        } else {
            assert(!ex_below(a, b, k + 1) || ex_below(a, b, k as int));
            assert(!ex_below(b, a, k + 1) || ex_below(b, a, k as int));
        }
        k += 1;
    }
    proof {
        if !ex_below(a, b, n as int) && !ex_below(b, a, n as int) {
            assert(a =~= b);
        } else if ex_below(a, b, n as int) && !ex_below(b, a, n as int) {
            assert(forall|i: int| 0 <= i < n ==> a[i] <= b[i]);
            assert(a != b) by {
                let i = choose|i: int| 0 <= i < n && a[i] < b[i];
                assert(a[i] != b[i]);
            }
            assert(dominates(a, b));
        } else if ex_below(b, a, n as int) && !ex_below(a, b, n as int) {
            assert(forall|i: int| 0 <= i < n ==> b[i] <= a[i]);
            assert(b != a) by {
                let i = choose|i: int| 0 <= i < n && b[i] < a[i];
                assert(a[i] != b[i]);
            }
            assert(dominates(b, a));
            assert(!dominates(a, b));
        }
    }
    dom
}

/// The first failure among the witnesses of point `i`, scanning from witness
/// `j`: an unsatisfied hard clause, or a recomputed cost that differs from
/// the reported one.
pub open spec fn sols_check(inst: Instance, p: NonDomPoint, i: int, j: int) -> Option<Problem>
    decreases p.sols@.len() - j,
{
    if j < 0 || j >= p.sols@.len() {
        None::<Problem>
    } else if !inst.hard_sat(p.sols@[j]@) {
        Some(Problem::UnsatSol(i as usize, j as usize))
    } else if exists|o: int|
        0 <= o < inst.objs@.len() && p.costs@[o] != falsified_weight(p.sols@[j]@, inst.objs@[o]@) {
        Some(Problem::CostMismatch(i as usize, j as usize))
    } else {
        sols_check(inst, p, i, j + 1)
    }
}

/// The first failure of the solution phase of the self-check, scanning points
/// from index `i`: a wrong cost-vector length, or a failing witness.
pub open spec fn points_check(inst: Instance, pts: Seq<NonDomPoint>, i: int) -> Option<Problem>
    decreases pts.len() - i,
{
    if i < 0 || i >= pts.len() {
        None::<Problem>
    } else if pts[i].costs@.len() != inst.objs@.len() {
        Some(Problem::WrongDimension(i as usize))
    } else if sols_check(inst, pts[i], i, 0) is Some {
        sols_check(inst, pts[i], i, 0)
    } else {
        points_check(inst, pts, i + 1)
    }
}

/// What one ordered pair of points contributes to the non-dominance phase.
pub open spec fn pair_problem(pts: Seq<NonDomPoint>, i1: int, i2: int) -> Option<Problem> {
    match relation_spec(pts[i1].costs@, pts[i2].costs@) {
        Relation::Incomparable => None::<Problem>,
        Relation::FirstDominates => Some(Problem::SelfDominated(i2 as usize)),
        Relation::SecondDominates => Some(Problem::SelfDominated(i1 as usize)),
        Relation::Equal => Some(Problem::Repeated(i1 as usize, i2 as usize)),
    }
}

/// The first failure of the non-dominance phase, scanning ordered pairs
/// `(i1, i2)` with `i1 < i2` in lexicographic order from the given pair.
pub open spec fn pairs_check(pts: Seq<NonDomPoint>, i1: int, i2: int) -> Option<Problem>
    decreases pts.len() - i1, pts.len() - i2,
{
    if i1 < 0 || i2 <= i1 || i1 >= pts.len() {
        None::<Problem>
    } else if i2 >= pts.len() {
        pairs_check(pts, i1 + 1, i1 + 2)
    } else if pair_problem(pts, i1, i2) is Some {
        pair_problem(pts, i1, i2)
    } else {
        pairs_check(pts, i1, i2 + 1)
    }
}

/// The self-check of one front: the first failure in scan order, or `None`
/// for a front that passes.
pub open spec fn check_pf_spec(inst: Instance, pf: ParetoFront) -> Option<Problem> {
    if points_check(inst, pf.points@, 0) is Some {
        points_check(inst, pf.points@, 0)
    } else {
        pairs_check(pf.points@, 0, 1)
    }
}

/// Checks one front against the instance: every point must have a cost
/// vector of the instance's dimension, every witness must satisfy the hard
/// clauses and reach exactly the reported cost, and no two points may be
/// equal or dominate one another. Reports the first failure in scan order.
pub fn check_pf(pf: &ParetoFront, inst: &Instance) -> (r: Result<(), Problem>)
    requires
        inst.wf(),
    ensures
        r matches Err(p) ==> check_pf_spec(*inst, *pf) == Some(p),
        r is Ok ==> check_pf_spec(*inst, *pf) is None,
{
    let ghost pts = pf.points@;
    let nobjs = inst.n_objectives();
    let mut i: usize = 0;
    while i < pf.points.len()
        invariant
            inst.wf(),
            i <= pts.len(),
            pf.points@ == pts,
            nobjs == inst.objs@.len(),
            points_check(*inst, pts, 0) == points_check(*inst, pts, i as int),
        decreases pts.len() - i,
    {
        let p = &pf.points[i];
        if p.costs.len() != nobjs {
            assert(points_check(*inst, pts, i as int) == Some(
                Problem::WrongDimension(i as usize),
            ));
            return Err(Problem::WrongDimension(i));
        }
        let mut j: usize = 0;
        while j < p.sols.len()
            invariant
                inst.wf(),
                j <= p.sols@.len(),
                i < pts.len(),
                pf.points@ == pts,
                p == &pts[i as int],
                nobjs == inst.objs@.len(),
                p.costs@.len() == nobjs,
                points_check(*inst, pts, 0) == points_check(*inst, pts, i as int),
                sols_check(*inst, pts[i as int], i as int, 0) == sols_check(
                    *inst,
                    pts[i as int],
                    i as int,
                    j as int,
                ),
            decreases p.sols@.len() - j,
        {
            let sol = &p.sols[j];
            match inst.cost(sol) {
                None => {
                    assert(sols_check(*inst, pts[i as int], i as int, j as int) == Some(
                        Problem::UnsatSol(i as usize, j as usize),
                    ));
                    return Err(Problem::UnsatSol(i, j));
                },
                Some(c) => {
                    let mut o: usize = 0;
                    let mut mismatch = false;
                    while o < nobjs
                        invariant
                            o <= nobjs,
                            nobjs == inst.objs@.len(),
                            i < pts.len(),
                            pf.points@ == pts,
                            p == &pts[i as int],
                            j < p.sols@.len(),
                            p.costs@.len() == nobjs,
                            c@.len() == nobjs,
                            forall|q: int|
                                0 <= q < nobjs ==> c@[q] == falsified_weight(
                                    p.sols@[j as int]@,
                                    inst.objs@[q]@,
                                ),
                            !mismatch ==> forall|q: int|
                                0 <= q < o ==> p.costs@[q] == falsified_weight(
                                    p.sols@[j as int]@,
                                    inst.objs@[q]@,
                                ),
                            mismatch ==> exists|q: int|
                                0 <= q < nobjs && p.costs@[q] != falsified_weight(
                                    p.sols@[j as int]@,
                                    inst.objs@[q]@,
                                ),
                        decreases nobjs - o,
                    {
                        if p.costs[o] != c[o] {
                            mismatch = true;
                        }
                        o += 1;
                    }
                    if mismatch {
                        assert(sols_check(*inst, pts[i as int], i as int, j as int) == Some(
                            Problem::CostMismatch(i as usize, j as usize),
                        ));
                        return Err(Problem::CostMismatch(i, j));
                    }
                    assert(sols_check(*inst, pts[i as int], i as int, j as int) == sols_check(
                        *inst,
                        pts[i as int],
                        i as int,
                        j + 1,
                    ));
                },
            }
            j += 1;
        }
        assert(sols_check(*inst, pts[i as int], i as int, j as int) is None);
        assert(points_check(*inst, pts, i as int) == points_check(*inst, pts, i + 1));
        i += 1;
    }
    assert(points_check(*inst, pts, 0) is None);
    // Non-dominance phase: scan ordered pairs.
    let n = pf.points.len();
    let mut i1: usize = 0;
    while i1 < n
        invariant
            n == pts.len(),
            pf.points@ == pts,
            i1 <= n,
            points_check(*inst, pts, 0) is None,
            pairs_check(pts, 0, 1) == pairs_check(pts, i1 as int, i1 + 1),
        decreases n - i1,
    {
        let mut i2: usize = i1 + 1;
        while i2 < n
            invariant
                n == pts.len(),
                pf.points@ == pts,
                i1 < n,
                i1 < i2,
                points_check(*inst, pts, 0) is None,
                pairs_check(pts, 0, 1) == pairs_check(pts, i1 as int, i2 as int),
            decreases n - i2,
        {
            proof {
                if pts[i1 as int].costs@.len() != pts[i2 as int].costs@.len() {
                    lemma_points_check_dims(*inst, pts, 0, i1 as int);
                    lemma_points_check_dims(*inst, pts, 0, i2 as int);
                }
            }
            match check_relation(&pf.points[i1].costs, &pf.points[i2].costs) {
                Relation::Incomparable => {
                    assert(pairs_check(pts, i1 as int, i2 as int) == pairs_check(
                        pts,
                        i1 as int,
                        i2 + 1,
                    ));
                },
                Relation::FirstDominates => {
                    assert(pairs_check(pts, i1 as int, i2 as int) == Some(
                        Problem::SelfDominated(i2 as usize),
                    ));
                    return Err(Problem::SelfDominated(i2));
                },
                Relation::SecondDominates => {
                    assert(pairs_check(pts, i1 as int, i2 as int) == Some(
                        Problem::SelfDominated(i1 as usize),
                    ));
                    return Err(Problem::SelfDominated(i1));
                },
                Relation::Equal => {
                    assert(pairs_check(pts, i1 as int, i2 as int) == Some(
                        Problem::Repeated(i1 as usize, i2 as usize),
                    ));
                    return Err(Problem::Repeated(i1, i2));
                },
            }
            i2 += 1;
        }
        assert(pairs_check(pts, i1 as int, i2 as int) == pairs_check(pts, i1 + 1, i1 + 2));
        i1 += 1;
    }
    assert(pairs_check(pts, i1 as int, i1 + 1) is None);
    Ok(())
}

/// A front whose points all have cost vectors of dimension `nobjs`, no two
/// of which are equal or dominate one another — what the self-check accepts.
pub open spec fn front_ok(pf: ParetoFront, nobjs: nat) -> bool {
    &&& forall|i: int| 0 <= i < pf.points@.len() ==> pf.points@[i].costs@.len() == nobjs
    &&& forall|i: int, j: int|
        0 <= i < j < pf.points@.len() ==> relation_spec(
            pf.points@[i].costs@,
            pf.points@[j].costs@,
        ) == Relation::Incomparable
}

/// The length of the longest front in the list.
pub open spec fn fronts_max_len(pfs: Seq<(String, ParetoFront)>) -> nat
    decreases pfs.len(),
{
    if pfs.len() == 0 {
        0
    } else {
        let rest = fronts_max_len(pfs.drop_last());
        let l = pfs.last().1.points@.len();
        if l > rest {
            l
        } else {
            rest
        }
    }
}

pub proof fn lemma_fronts_max_len(pfs: Seq<(String, ParetoFront)>)
    ensures
        forall|k: int| 0 <= k < pfs.len() ==> pfs[k].1.points@.len() <= fronts_max_len(pfs),
        pfs.len() > 0 ==> exists|k: int|
            0 <= k < pfs.len() && pfs[k].1.points@.len() == fronts_max_len(pfs),
    decreases pfs.len(),
{
    if pfs.len() > 0 {
        lemma_fronts_max_len(pfs.drop_last());
        assert(forall|k: int| 0 <= k < pfs.len() - 1 ==> pfs[k] == pfs.drop_last()[k]);
        if pfs.last().1.points@.len() > fronts_max_len(pfs.drop_last()) {
            assert(pfs[pfs.len() - 1].1.points@.len() == fronts_max_len(pfs));
        } else {
            if pfs.len() > 1 {
                let k0 = choose|k: int|
                    0 <= k < pfs.len() - 1 && pfs.drop_last()[k].1.points@.len()
                        == fronts_max_len(pfs.drop_last());
                assert(pfs[k0].1.points@.len() == fronts_max_len(pfs));
            }
        }
    }
}

/// `v` is the cost vector of some point of some front in the list.
pub open spec fn row_from_fronts(v: Seq<i64>, pfs: Seq<(String, ParetoFront)>) -> bool {
    exists|k: int, j: int|
        0 <= k < pfs.len() && 0 <= j < pfs[k].1.points@.len() && pfs[k].1.points@[j].costs@ == v
}

/// A justified cross-check report: a `Short` names a front strictly shorter
/// than the longest one; an `OtherDominated(i)` names a front whose point `i`
/// is strictly dominated by a cost vector some front in the list holds.
pub open spec fn cross_entry_ok(e: (String, Problem), pfs: Seq<(String, ParetoFront)>) -> bool {
    match e.1 {
        Problem::Short => exists|k: int|
            0 <= k < pfs.len() && pfs[k].0 == e.0 && pfs[k].1.points@.len() < fronts_max_len(pfs),
        Problem::OtherDominated(i) => exists|k2: int|
            0 <= k2 < pfs.len() && pfs[k2].0 == e.0 && i < pfs[k2].1.points@.len() && exists|
                v: Seq<i64>,
            |
                row_from_fronts(v, pfs) && dominates(v, pfs[k2].1.points@[i as int].costs@),
        _ => false,
    }
}

/// Some entry of `probs` reports `Short` against the solver named `sid`.
pub open spec fn short_reported(probs: Seq<(String, Problem)>, sid: String) -> bool {
    exists|m: int| 0 <= m < probs.len() && probs[m].0 == sid && probs[m].1 is Short
}

/// The names in a keyed list are pairwise distinct.
pub open spec fn distinct_names<B>(s: Seq<(String, B)>) -> bool {
    forall|a: int, b: int| 0 <= a < b < s.len() ==> s[a].0@ != s[b].0@
}

/// The name appears as a key of the list.
pub open spec fn name_among<B>(name: Seq<char>, s: Seq<(String, B)>) -> bool {
    exists|k: int| 0 <= k < s.len() && (#[trigger] s[k]).0@ == name
}

/// A bad outcome: the solver panicked, or its front fails the self-check.
pub open spec fn outcome_bad(inst: Instance, oc: SolverOutcome) -> bool {
    match oc {
        SolverOutcome::Panicked => true,
        SolverOutcome::Front(pf) => check_pf_spec(inst, pf) is Some,
    }
}

/// An element-for-element copy of a cost vector.
fn copy_costs(v: &Vec<i64>) -> (r: Vec<i64>)
    ensures
        r@ == v@,
{
    let mut r: Vec<i64> = Vec::new();
    let mut i: usize = 0;
    while i < v.len()
        invariant
            i <= v@.len(),
            r@ == v@.take(i as int),
        decreases v@.len() - i,
    {
        r.push(v[i]);
        proof {
            assert(v@.take(i + 1) =~= v@.take(i as int).push(v@[i as int]));
        }
        i += 1;
    }
    proof {
        assert(v@.take(i as int) =~= v@);
    }
    r
}

/// Element-for-element equality of two cost vectors.
fn rows_eq(a: &Vec<i64>, b: &Vec<i64>) -> (r: bool)
    ensures
        r == (a@ == b@),
{
    if a.len() != b.len() {
        return false;
    }
    let mut i: usize = 0;
    while i < a.len()
        invariant
            i <= a@.len(),
            a@.len() == b@.len(),
            forall|j: int| 0 <= j < i ==> a@[j] == b@[j],
        decreases a@.len() - i,
    {
        if a[i] != b[i] {
            assert(a@ != b@);
            return false;
        }
        i += 1;
    }
    proof {
        assert(a@ =~= b@);
    }
    true
}

/// Folds front `k` into the joint non-dominated row set: a point that
/// dominates a row overwrites it; a point equal to a row is dropped; a point
/// neither equal to nor comparable with any row is appended. A point that a
/// row strictly dominates ends the scan, returning that point's index.
fn joint_absorb(
    pfs: &Vec<(String, ParetoFront)>,
    k: usize,
    rows: &mut Vec<Vec<i64>>,
    nobjs: usize,
) -> (r: Option<usize>)
    requires
        k < pfs@.len(),
        front_ok(pfs@[k as int].1, nobjs as nat),
        forall|q: int| 0 <= q < old(rows)@.len() ==> old(rows)@[q]@.len() == nobjs,
        forall|q: int| 0 <= q < old(rows)@.len() ==> row_from_fronts(old(rows)@[q]@, pfs@),
    ensures
        forall|q: int| 0 <= q < final(rows)@.len() ==> final(rows)@[q]@.len() == nobjs,
        forall|q: int| 0 <= q < final(rows)@.len() ==> row_from_fronts(final(rows)@[q]@, pfs@),
        rows_covered(old(rows)@, final(rows)@),
        r is None ==> front_covered(pfs@[k as int].1, final(rows)@),
        r matches Some(i) ==> i < pfs@[k as int].1.points@.len() && exists|v: Seq<i64>|
            row_from_fronts(v, pfs@) && dominates(v, pfs@[k as int].1.points@[i as int].costs@),
{
    let pf = &pfs[k].1;
    let mut i: usize = 0;
    while i < pf.points.len()
        invariant
            k < pfs@.len(),
            pf == &pfs@[k as int].1,
            front_ok(pfs@[k as int].1, nobjs as nat),
            i <= pf.points@.len(),
            forall|q: int| 0 <= q < rows@.len() ==> rows@[q]@.len() == nobjs,
            forall|q: int| 0 <= q < rows@.len() ==> row_from_fronts(rows@[q]@, pfs@),
            rows_covered(old(rows)@, rows@),
            forall|i2: int|
                0 <= i2 < i ==> row_covers((#[trigger] pf.points@[i2]).costs@, rows@),
        decreases pf.points@.len() - i,
    {
        let p = &pf.points[i];
        assert(p.costs@.len() == nobjs);
        let mut q: usize = 0;
        let mut append = true;
        let mut skip = false;
        while q < rows.len() && !skip
            invariant
                k < pfs@.len(),
                pf == &pfs@[k as int].1,
                i < pf.points@.len(),
                p == &pf.points@[i as int],
                p.costs@.len() == nobjs,
                q <= rows@.len(),
                forall|t: int| 0 <= t < rows@.len() ==> rows@[t]@.len() == nobjs,
                forall|t: int| 0 <= t < rows@.len() ==> row_from_fronts(rows@[t]@, pfs@),
                rows_covered(old(rows)@, rows@),
                forall|i2: int|
                    0 <= i2 < i ==> row_covers((#[trigger] pf.points@[i2]).costs@, rows@),
                !append ==> row_covers(p.costs@, rows@),
                skip ==> row_covers(p.costs@, rows@),
            decreases rows@.len() - q,
        {
            match check_relation(&p.costs, &rows[q]) {
                Relation::Incomparable => {
                    q += 1;
                },
                Relation::FirstDominates => {
                    let ghost before = rows@;
                    let newv = copy_costs(&p.costs);
                    proof {
                        assert(row_from_fronts(newv@, pfs@)) by {
                            assert(pfs@[k as int].1.points@[i as int].costs@ == newv@);
                        }
                    }
                    let rref = &mut rows[q];
                    *rref = newv;
                    append = false;
                    proof {
                        assert(dominates(rows@[q as int]@, before[q as int]@));
                        assert(rows_covered(before, rows@)) by {
                            assert forall|t: int| 0 <= t < before.len() implies row_covers(
                                (#[trigger] before[t])@,
                                rows@,
                            ) by {
                                if t != q {
                                    assert(rows@[t] == before[t]);
                                }
                            }
                        }
                        lemma_rows_covered_trans(old(rows)@, before, rows@);
                        assert forall|i2: int| 0 <= i2 < i implies row_covers(
                            (#[trigger] pf.points@[i2]).costs@,
                            rows@,
                        ) by {
                            lemma_covers_step(pf.points@[i2].costs@, before, rows@);
                        }
                        assert(row_covers(p.costs@, rows@)) by {
                            assert(rows@[q as int]@ == p.costs@);
                        }
                    }
                    q += 1;
                },
                Relation::SecondDominates => {
                    assert(dominates(rows@[q as int]@, p.costs@));
                    assert(row_from_fronts(rows@[q as int]@, pfs@));
                    return Some(i);
                },
                Relation::Equal => {
                    proof {
                        assert(row_covers(p.costs@, rows@)) by {
                            assert(rows@[q as int]@ == p.costs@);
                        }
                    }
                    skip = true;
                    q = rows.len();
                },
            }
        }
        if !skip && append {
            let ghost before = rows@;
            let newv = copy_costs(&p.costs);
            proof {
                assert(row_from_fronts(newv@, pfs@)) by {
                    assert(pfs@[k as int].1.points@[i as int].costs@ == newv@);
                }
            }
            rows.push(newv);
            proof {
                assert(rows_covered(before, rows@)) by {
                    assert(forall|t: int| 0 <= t < before.len() ==> rows@[t] == before[t]);
                }
                lemma_rows_covered_trans(old(rows)@, before, rows@);
                assert forall|i2: int| 0 <= i2 < i implies row_covers(
                    (#[trigger] pf.points@[i2]).costs@,
                    rows@,
                ) by {
                    lemma_covers_step(pf.points@[i2].costs@, before, rows@);
                }
                assert(row_covers(p.costs@, rows@)) by {
                    assert(rows@[rows@.len() - 1]@ == p.costs@);
                }
            }
        }
        i += 1;
    }
    None
}

/// Some row's value equals `v` or strictly dominates it.
pub open spec fn row_covers(v: Seq<i64>, rows: Seq<Vec<i64>>) -> bool {
    exists|q: int| 0 <= q < rows.len() && ((#[trigger] rows[q])@ == v || dominates(rows[q]@, v))
}

/// Every row value of `a` is equalled or strictly dominated by a row of `b`.
pub open spec fn rows_covered(a: Seq<Vec<i64>>, b: Seq<Vec<i64>>) -> bool {
    forall|q: int| 0 <= q < a.len() ==> row_covers((#[trigger] a[q])@, b)
}

/// Every point of the front is equalled or strictly dominated by a row.
pub open spec fn front_covered(pf: ParetoFront, rows: Seq<Vec<i64>>) -> bool {
    forall|i: int|
        0 <= i < pf.points@.len() ==> row_covers((#[trigger] pf.points@[i]).costs@, rows)
}

/// No row strictly dominates any point of the front.
pub open spec fn front_undominated(pf: ParetoFront, rows: Seq<Vec<i64>>) -> bool {
    forall|i: int, q: int| #![auto]
        0 <= i < pf.points@.len() && 0 <= q < rows.len() ==> !dominates(
            rows[q]@,
            pf.points@[i].costs@,
        )
}

/// No cross-check report of the list is `OtherDominated`.
pub open spec fn no_other_dominated(probs: Seq<(String, Problem)>) -> bool {
    forall|m: int| 0 <= m < probs.len() ==> !((#[trigger] probs[m]).1 is OtherDominated)
}

/// Strict dominance is transitive.
proof fn lemma_dominates_trans(a: Seq<i64>, b: Seq<i64>, c: Seq<i64>)
    requires
        dominates(a, b),
        dominates(b, c),
    ensures
        dominates(a, c),
{
    if a == c {
        assert(forall|t: int| 0 <= t < b.len() ==> b[t] <= c[t] && a[t] <= b[t]);
        assert(b =~= c);
    }
}

/// A value covered by one row set stays covered by a row set that covers it.
proof fn lemma_covers_step(v: Seq<i64>, rows1: Seq<Vec<i64>>, rows2: Seq<Vec<i64>>)
    requires
        row_covers(v, rows1),
        rows_covered(rows1, rows2),
    ensures
        row_covers(v, rows2),
{
    let q1 = choose|q1: int| 0 <= q1 < rows1.len() && (rows1[q1]@ == v || dominates(rows1[q1]@, v));
    assert(row_covers(rows1[q1]@, rows2));
    let q2 = choose|q2: int|
        0 <= q2 < rows2.len() && (rows2[q2]@ == rows1[q1]@ || dominates(rows2[q2]@, rows1[q1]@));
    if rows2[q2]@ != v && !(rows2[q2]@ == rows1[q1]@ && rows1[q1]@ == v) {
        if dominates(rows2[q2]@, rows1[q1]@) && dominates(rows1[q1]@, v) {
            lemma_dominates_trans(rows2[q2]@, rows1[q1]@, v);
        }
    }
}

proof fn lemma_rows_covered_trans(a: Seq<Vec<i64>>, b: Seq<Vec<i64>>, c: Seq<Vec<i64>>)
    requires
        rows_covered(a, b),
        rows_covered(b, c),
    ensures
        rows_covered(a, c),
{
    assert forall|q: int| 0 <= q < a.len() implies row_covers((#[trigger] a[q])@, c) by {
        lemma_covers_step(a[q]@, b, c);
    }
}

/// A relation other than `SecondDominates` rules out the second vector
/// dominating the first.
proof fn lemma_relation_not_second(a: Seq<i64>, b: Seq<i64>)
    requires
        relation_spec(a, b) != Relation::SecondDominates,
    ensures
        !dominates(b, a),
{
    if a == b {
        assert(!dominates(b, a));
    } else if dominates(a, b) && dominates(b, a) {
        assert(forall|t: int| 0 <= t < a.len() ==> a[t] <= b[t] && b[t] <= a[t]);
        assert(a =~= b);
    }
}

/// Within a well-formed front no point dominates another.
proof fn lemma_front_ok_no_dom(pf: ParetoFront, nobjs: nat, j: int, i: int)
    requires
        front_ok(pf, nobjs),
        0 <= j < pf.points@.len(),
        0 <= i < pf.points@.len(),
    ensures
        !dominates(pf.points@[j].costs@, pf.points@[i].costs@),
{
    let a = pf.points@[j].costs@;
    let b = pf.points@[i].costs@;
    if j == i {
        assert(!dominates(a, b));
    } else if j < i {
        assert(relation_spec(a, b) == Relation::Incomparable);
    } else {
        assert(relation_spec(b, a) == Relation::Incomparable);
        if dominates(a, b) {
            assert(relation_spec(b, a) == Relation::SecondDominates || b == a);
            assert(false);
        }
    }
}

/// The value `v` occurs among the rows.
spec fn value_among(v: Seq<i64>, rows: Seq<Vec<i64>>) -> bool {
    exists|q0: int| 0 <= q0 < rows.len() && rows[q0]@ == v
}

/// Removes duplicate rows, keeping the first occurrence of each value;
/// every remaining row value was already present.
fn dedup_rows(rows: &mut Vec<Vec<i64>>)
    ensures
        forall|q: int| #![auto] 0 <= q < final(rows)@.len() ==> value_among(
            final(rows)@[q]@,
            old(rows)@,
        ),
        rows_covered(old(rows)@, final(rows)@),
{
    let ghost orig = rows@;
    let mut out: Vec<Vec<i64>> = Vec::new();
    let mut q: usize = 0;
    while q < rows.len()
        invariant
            rows@ == orig,
            q <= orig.len(),
            forall|t: int| #![auto] 0 <= t < out@.len() ==> value_among(out@[t]@, orig),
            forall|q0: int| #![trigger orig[q0]]
                0 <= q0 < q ==> exists|t: int| 0 <= t < out@.len() && (#[trigger] out@[t])@
                    == orig[q0]@,
        decreases orig.len() - q,
    {
        let mut seen = false;
        let mut t: usize = 0;
        while t < out.len()
            invariant
                q < orig.len(),
                rows@ == orig,
                t <= out@.len(),
                forall|u: int| #![auto] 0 <= u < out@.len() ==> value_among(out@[u]@, orig),
                seen ==> exists|u: int| 0 <= u < out@.len() && (#[trigger] out@[u])@ == orig[q as int]@,
            decreases out@.len() - t,
        {
            if rows_eq(&out[t], &rows[q]) {
                seen = true;
                proof {
                    assert(out@[t as int]@ == orig[q as int]@);
                }
            }
            t += 1;
        }
        if !seen {
            let newv = copy_costs(&rows[q]);
            proof {
                assert(value_among(newv@, orig)) by {
                    assert(orig[q as int]@ == newv@);
                }
            }
            let ghost out0 = out@;
            out.push(newv);
            proof {
                assert(forall|u: int| 0 <= u < out0.len() ==> out@[u] == out0[u]);
                assert(out@[out@.len() - 1]@ == orig[q as int]@);
            }
        }
        q += 1;
    }
    *rows = out;
    proof {
        assert forall|q0: int| 0 <= q0 < orig.len() implies row_covers(
            (#[trigger] orig[q0])@,
            rows@,
        ) by {
            let t = choose|t: int| 0 <= t < rows@.len() && rows@[t]@ == orig[q0]@;
            assert(rows@[t]@ == orig[q0]@);
        }
    }
}

/// Checks front `k` against the final joint row set: a point some row
/// strictly dominates ends the scan, returning that point's index.
fn cross_check_front(
    pfs: &Vec<(String, ParetoFront)>,
    k: usize,
    rows: &Vec<Vec<i64>>,
    nobjs: usize,
) -> (r: Option<usize>)
    requires
        k < pfs@.len(),
        front_ok(pfs@[k as int].1, nobjs as nat),
        forall|q: int| 0 <= q < rows@.len() ==> rows@[q]@.len() == nobjs,
        forall|q: int| 0 <= q < rows@.len() ==> row_from_fronts(rows@[q]@, pfs@),
    ensures
        r matches Some(i) ==> i < pfs@[k as int].1.points@.len() && exists|v: Seq<i64>|
            row_from_fronts(v, pfs@) && dominates(v, pfs@[k as int].1.points@[i as int].costs@),
        r is None ==> front_undominated(pfs@[k as int].1, rows@),
{
    let pf = &pfs[k].1;
    let mut i: usize = 0;
    while i < pf.points.len()
        invariant
            k < pfs@.len(),
            pf == &pfs@[k as int].1,
            front_ok(pfs@[k as int].1, nobjs as nat),
            i <= pf.points@.len(),
            forall|q: int| 0 <= q < rows@.len() ==> rows@[q]@.len() == nobjs,
            forall|q: int| 0 <= q < rows@.len() ==> row_from_fronts(rows@[q]@, pfs@),
            forall|i2: int, q: int| #![auto]
                0 <= i2 < i && 0 <= q < rows@.len() ==> !dominates(
                    rows@[q]@,
                    pf.points@[i2].costs@,
                ),
        decreases pf.points@.len() - i,
    {
        let p = &pf.points[i];
        assert(p.costs@.len() == nobjs);
        let mut q: usize = 0;
        while q < rows.len()
            invariant
                k < pfs@.len(),
                pf == &pfs@[k as int].1,
                i < pf.points@.len(),
                p == &pf.points@[i as int],
                p.costs@.len() == nobjs,
                q <= rows@.len(),
                forall|t: int| 0 <= t < rows@.len() ==> rows@[t]@.len() == nobjs,
                forall|t: int| 0 <= t < rows@.len() ==> row_from_fronts(rows@[t]@, pfs@),
                forall|t: int| 0 <= t < q ==> !dominates((#[trigger] rows@[t])@, p.costs@),
            decreases rows@.len() - q,
        {
            match check_relation(&p.costs, &rows[q]) {
                Relation::SecondDominates => {
                    assert(dominates(rows@[q as int]@, p.costs@));
                    assert(row_from_fronts(rows@[q as int]@, pfs@));
                    return Some(i);
                },
                // A row a point of this front strictly dominates cannot
                // arise for fronts that passed the earlier phases, and
                // contributes nothing here; neither do equal or
                // incomparable rows.
                _ => {
                    proof {
                        lemma_relation_not_second(p.costs@, rows@[q as int]@);
                    }
                },
            }
            q += 1;
        }
        i += 1;
    }
    None
}

/// The length filter: finds the longest front length, reports every
/// shorter front `Short`, and returns the reports, the indices of the
/// fronts of maximal length in increasing order, and that length. The
/// ghost result lists the front index behind each report.
fn length_filter(pfs: &Vec<(String, ParetoFront)>) -> (r: (
    Vec<(String, Problem)>,
    Vec<usize>,
    usize,
    Ghost<Seq<int>>,
))
    ensures
        r.2 == fronts_max_len(pfs@),
        forall|m: int| 0 <= m < r.0@.len() ==> cross_entry_ok(r.0@[m], pfs@),
        forall|m: int| 0 <= m < r.0@.len() ==> (#[trigger] r.0@[m]).1 is Short,
        forall|t: int| #![auto]
            0 <= t < pfs@.len() && pfs@[t].1.points@.len() < r.2 ==> short_reported(
                r.0@,
                pfs@[t].0,
            ),
        forall|s: int|
            0 <= s < r.1@.len() ==> r.1@[s] < pfs@.len() && pfs@[r.1@[s] as int].1.points@.len()
                == r.2,
        forall|t: int| #![trigger pfs@[t]]
            0 <= t < pfs@.len() && pfs@[t].1.points@.len() == r.2 ==> exists|s2: int|
                0 <= s2 < r.1@.len() && r.1@[s2] == t,
        r.1@.len() <= pfs@.len(),
        pfs@.len() <= 1 ==> r.0@.len() == 0,
        rep_assoc(r.0@, r.3@, pfs@),
        rep_clear_from(r.3@, r.1@, 0),
        strictly_increasing(r.1@),
{
    let ghost pfsv = pfs@;
    let n = pfs.len();
    let mut probs: Vec<(String, Problem)> = Vec::new();
    // The front index behind each report; kept pairwise distinct, so no
    // front — and with distinct names no solver — is reported twice.
    let ghost mut rep: Seq<int> = Seq::empty();
    // The longest front length.
    let mut maxv: usize = 0;
    let mut k: usize = 0;
    while k < n
        invariant
            n == pfsv.len(),
            pfs@ == pfsv,
            k <= n,
            forall|t: int| 0 <= t < k ==> pfsv[t].1.points@.len() <= maxv,
            k > 0 ==> exists|t: int| 0 <= t < k && pfsv[t].1.points@.len() == maxv,
            k == 0 ==> maxv == 0,
        decreases n - k,
    {
        if pfs[k].1.points.len() > maxv {
            maxv = pfs[k].1.points.len();
        } else {
            if k == 0 {
                assert(pfsv[0].1.points@.len() == maxv);
            }
        }
        k += 1;
    }
    proof {
        lemma_fronts_max_len(pfsv);
        if n > 0 {
            let t0 = choose|t: int| 0 <= t < n && pfsv[t].1.points@.len() == maxv;
            assert(pfsv[t0].1.points@.len() <= fronts_max_len(pfsv));
            let t1 = choose|t: int|
                0 <= t < pfsv.len() && pfsv[t].1.points@.len() == fronts_max_len(pfsv);
            assert(pfsv[t1].1.points@.len() <= maxv);
        }
        assert(maxv == fronts_max_len(pfsv));
    }
    // Every short front is reported and dropped.
    let mut surv: Vec<usize> = Vec::new();
    let mut k: usize = 0;
    while k < n
        invariant
            n == pfsv.len(),
            pfs@ == pfsv,
            k <= n,
            maxv == fronts_max_len(pfsv),
            forall|t: int| 0 <= t < n ==> pfsv[t].1.points@.len() <= maxv,
            n > 0 ==> exists|t: int| 0 <= t < n && pfsv[t].1.points@.len() == maxv,
            forall|m: int| 0 <= m < probs@.len() ==> cross_entry_ok(probs@[m], pfsv),
            forall|t: int| #![auto]
                0 <= t < k && pfsv[t].1.points@.len() < maxv ==> short_reported(probs@, pfsv[t].0),
            forall|s: int|
                0 <= s < surv@.len() ==> surv@[s] < n && pfsv[surv@[s] as int].1.points@.len()
                    == maxv,
            surv@.len() <= k,
            n <= 1 ==> probs@.len() == 0,
            forall|m: int| 0 <= m < probs@.len() ==> (#[trigger] probs@[m]).1 is Short,
            forall|t: int| #![trigger pfsv[t]]
                0 <= t < k && pfsv[t].1.points@.len() == maxv ==> exists|s2: int|
                    0 <= s2 < surv@.len() && surv@[s2] == t,
            rep.len() == probs@.len(),
            forall|m: int|
                0 <= m < rep.len() ==> 0 <= #[trigger] rep[m] < n && probs@[m].0@
                    == pfsv[rep[m]].0@ && pfsv[rep[m]].1.points@.len() < maxv && rep[m] < k,
            forall|m1: int, m2: int| 0 <= m1 < m2 < rep.len() ==> rep[m1] != rep[m2],
            forall|t1: int, t2: int| 0 <= t1 < t2 < surv@.len() ==> surv@[t1] < surv@[t2],
            forall|t: int| 0 <= t < surv@.len() ==> #[trigger] surv@[t] < k,
        decreases n - k,
    {
        if pfs[k].1.points.len() == maxv {
            let ghost surv0 = surv@;
            surv.push(k);
            proof {
                assert(forall|s2: int| 0 <= s2 < surv0.len() ==> surv@[s2] == surv0[s2]);
                assert(surv@[surv@.len() - 1] == k as usize);
                assert forall|t: int| #![trigger pfsv[t]]
                    0 <= t < k + 1 && pfsv[t].1.points@.len() == maxv implies exists|s2: int|
                    0 <= s2 < surv@.len() && surv@[s2] == t by {
                    if t < k {
                        let s2 = choose|s2: int| 0 <= s2 < surv0.len() && surv0[s2] == t;
                        assert(surv@[s2] == t);
                    } else {
                        assert(surv@[surv@.len() - 1] == t);
                    }
                }
            }
        } else {
            let ghost probs0 = probs@;
            let ghost rep0 = rep;
            let sid = pfs[k].0.clone();
            probs.push((sid, Problem::Short));
            proof {
                rep = rep.push(k as int);
                assert(forall|m: int| 0 <= m < rep0.len() ==> rep[m] == rep0[m]);
                assert(rep[rep.len() - 1] == k as int);
                assert(pfsv[k as int].1.points@.len() < maxv);
                assert(probs@[probs@.len() - 1].0 == pfsv[k as int].0);
                assert(cross_entry_ok(probs@[probs@.len() - 1], pfsv));
                assert forall|m: int| 0 <= m < probs@.len() implies cross_entry_ok(
                    probs@[m],
                    pfsv,
                ) by {
                    if m < probs0.len() {
                        assert(probs@[m] == probs0[m]);
                    }
                }
                assert forall|t: int|
                    0 <= t < k + 1 && pfsv[t].1.points@.len() < maxv implies short_reported(
                    probs@,
                    pfsv[t].0,
                ) by {
                    if t < k {
                        let m = choose|m: int|
                            0 <= m < probs0.len() && probs0[m].0 == pfsv[t].0 && probs0[m].1
                                is Short;
                        assert(probs@[m] == probs0[m]);
                    } else {
                        assert(probs@[probs@.len() - 1].0 == pfsv[t].0);
                    }
                }
                if n == 1 {
                    let t = choose|t: int| 0 <= t < n && pfsv[t].1.points@.len() == maxv;
                    assert(t == k);
                    assert(false);
                }
            }
        }
        k += 1;
    }
    proof {
        assert(rep_assoc(probs@, rep, pfsv)) by {
            reveal(rep_assoc);
        }
        assert(rep_clear_from(rep, surv@, 0)) by {
            reveal(rep_clear_from);
            assert forall|t: int, m: int|
                0 <= t < surv@.len() && 0 <= m < rep.len() implies surv@[t] != rep[m] by {
                assert(pfsv[surv@[t] as int].1.points@.len() == maxv);
                assert(pfsv[rep[m]].1.points@.len() < maxv);
            }
        }
        assert(strictly_increasing(surv@)) by {
            reveal(strictly_increasing);
        }
    }
    let ghost survv = surv@;
    let res = (probs, surv, maxv, Ghost(rep));
    proof {
        assert(res.1@ == survv);
        assert forall|t: int| #![trigger pfs@[t]]
            0 <= t < pfs@.len() && pfs@[t].1.points@.len() == res.2 implies exists|s2: int|
            0 <= s2 < res.1@.len() && res.1@[s2] == t by {
            assert(pfsv[t].1.points@.len() == maxv);
            let s2 = choose|s2: int| 0 <= s2 < survv.len() && survv[s2] == t;
            assert(res.1@[s2] == survv[s2]);
            assert(0 <= s2 < res.1@.len() && res.1@[s2] == t);
        }
    }
    res
}

/// The oracle's cross-check over the fronts that passed the self-check:
/// every front shorter than the longest is reported `Short`; the rest are
/// folded into a joint non-dominated set, and any front holding a point
/// that the joint set strictly dominates is reported `OtherDominated`.
#[verifier::rlimit(100)]
pub fn compare_pfs(pfs: Vec<(String, ParetoFront)>, nobjs: usize) -> (probs: Vec<
    (String, Problem),
>)
    requires
        forall|k: int| 0 <= k < pfs@.len() ==> front_ok(pfs@[k].1, nobjs as nat),
    ensures
        forall|m: int| 0 <= m < probs@.len() ==> cross_entry_ok(probs@[m], pfs@),
        forall|m: int| 0 <= m < probs@.len() ==> name_among((#[trigger] probs@[m]).0@, pfs@),
        distinct_names(pfs@) ==> forall|m1: int, m2: int|
            0 <= m1 < m2 < probs@.len() ==> probs@[m1].0@ != probs@[m2].0@,
        forall|k: int| #![auto]
            0 <= k < pfs@.len() && pfs@[k].1.points@.len() < fronts_max_len(pfs@)
                ==> short_reported(probs@, pfs@[k].0),
        pfs@.len() <= 1 ==> probs@.len() == 0,
        no_other_dominated(probs@) ==> forall|k: int, k2: int, j: int, i: int| #![auto]
            0 <= k < pfs@.len() && 0 <= k2 < pfs@.len() && pfs@[k].1.points@.len()
                == fronts_max_len(pfs@) && pfs@[k2].1.points@.len() == fronts_max_len(pfs@) && 0
                <= j < pfs@[k].1.points@.len() && 0 <= i < pfs@[k2].1.points@.len() ==> !dominates(
                pfs@[k].1.points@[j].costs@,
                pfs@[k2].1.points@[i].costs@,
            ),
{
    let ghost pfsv = pfs@;
    let n = pfs.len();
    let (mut probs, surv, maxv, rep_g) = length_filter(&pfs);
    let ghost mut rep: Seq<int> = rep_g@;
    proof {
        lemma_fronts_max_len(pfsv);
    }
    if surv.len() <= 1 {
        proof {
            lemma_rep_names(pfsv, probs@, rep);
            if no_other_dominated(probs@) {
                assert forall|kk: int, kk2: int, j: int, i: int| #![auto]
                    0 <= kk < pfsv.len() && 0 <= kk2 < pfsv.len() && pfsv[kk].1.points@.len()
                        == maxv && pfsv[kk2].1.points@.len() == maxv && 0 <= j < pfsv[kk].1.points@.len()
                        && 0 <= i < pfsv[kk2].1.points@.len() implies !dominates(
                    pfsv[kk].1.points@[j].costs@,
                    pfsv[kk2].1.points@[i].costs@,
                ) by {
                    let sa = choose|s2: int| 0 <= s2 < surv@.len() && surv@[s2] == kk;
                    let sb = choose|s2: int| 0 <= s2 < surv@.len() && surv@[s2] == kk2;
                    assert(sa == 0 && sb == 0);
                    assert(kk == kk2);
                    lemma_front_ok_no_dom(pfsv[kk].1, nobjs as nat, j, i);
                }
            }
        }
        return probs;
    }
    assert(n >= 2);
    if pfs[surv[0]].1.points.len() == 0 {
        proof {
            assert(pfsv[surv@[0] as int].1.points@.len() == maxv);
            assert(maxv == 0);
            lemma_rep_names(pfsv, probs@, rep);
        }
        return probs;
    }
    // Seed the joint non-dominated set with the first surviving front.
    let mut rows: Vec<Vec<i64>> = Vec::new();
    let k0 = surv[0];
    let pf0 = &pfs[k0].1;
    let mut i: usize = 0;
    while i < pf0.points.len()
        invariant
            k0 < pfsv.len(),
            pf0 == &pfsv[k0 as int].1,
            pfs@ == pfsv,
            i <= pf0.points@.len(),
            forall|t: int| 0 <= t < pfsv.len() ==> front_ok(pfsv[t].1, nobjs as nat),
            forall|q: int| 0 <= q < rows@.len() ==> rows@[q]@.len() == nobjs,
            forall|q: int| 0 <= q < rows@.len() ==> row_from_fronts(rows@[q]@, pfsv),
        decreases pf0.points@.len() - i,
    {
        let newv = copy_costs(&pf0.points[i].costs);
        proof {
            assert(row_from_fronts(newv@, pfsv)) by {
                assert(pfsv[k0 as int].1.points@[i as int].costs@ == newv@);
            }
        }
        rows.push(newv);
        i += 1;
    }
    // Fold every surviving front in; fronts with a dominated point are
    // reported and take no further part.
    let mut surv2: Vec<usize> = Vec::new();
    let mut s: usize = 0;
    proof {
        assert(rep_clear_from(rep, surv2@, 0) && strictly_increasing(surv2@) && within_prefix(
            surv2@,
            surv@,
            0,
        )) by {
            reveal(rep_clear_from);
            reveal(strictly_increasing);
            reveal(within_prefix);
        }
    }
    while s < surv.len()
        invariant
            n == pfsv.len(),
            n >= 2,
            pfs@ == pfsv,
            s <= surv@.len(),
            maxv == fronts_max_len(pfsv),
            forall|t: int| 0 <= t < pfsv.len() ==> front_ok(pfsv[t].1, nobjs as nat),
            forall|t: int| 0 <= t < surv@.len() ==> surv@[t] < n,
            forall|m: int| 0 <= m < probs@.len() ==> cross_entry_ok(probs@[m], pfsv),
            forall|t: int| #![auto]
                0 <= t < pfsv.len() && pfsv[t].1.points@.len() < maxv ==> short_reported(
                    probs@,
                    pfsv[t].0,
                ),
            forall|q: int| 0 <= q < rows@.len() ==> rows@[q]@.len() == nobjs,
            forall|q: int| 0 <= q < rows@.len() ==> row_from_fronts(rows@[q]@, pfsv),
            forall|t: int|
                0 <= t < surv2@.len() ==> surv2@[t] < n && pfsv[surv2@[t] as int].1.points@.len()
                    == maxv,
            surv@.len() >= 2,
            forall|t: int|
                0 <= t < surv@.len() ==> surv@[t] < n && pfsv[surv@[t] as int].1.points@.len()
                    == maxv,
            forall|t: int| #![trigger pfsv[t]]
                0 <= t < pfsv.len() && pfsv[t].1.points@.len() == maxv ==> exists|s2: int|
                    0 <= s2 < surv@.len() && surv@[s2] == t,
            no_other_dominated(probs@) ==> surv2@ == surv@.take(s as int),
            no_other_dominated(probs@) ==> forall|t: int| #![auto]
                0 <= t < s ==> front_covered(pfsv[surv@[t] as int].1, rows@),
            rep_assoc(probs@, rep, pfsv),
            rep_clear_from(rep, surv@, s as int),
            rep_clear_from(rep, surv2@, 0),
            strictly_increasing(surv@),
            strictly_increasing(surv2@),
            within_prefix(surv2@, surv@, s as int),
        decreases surv@.len() - s,
    {
        let k = surv[s];
        let ghost rowsb = rows@;
        match joint_absorb(&pfs, k, &mut rows, nobjs) {
            Some(idx) => {
                let ghost probs0 = probs@;
                let ghost rep0 = rep;
                let sid = pfs[k].0.clone();
                probs.push((sid, Problem::OtherDominated(idx)));
                proof {
                    rep = rep.push(k as int);
                    assert(!no_other_dominated(probs@)) by {
                        assert(probs@[probs@.len() - 1].1 is OtherDominated);
                    }
                    assert(probs@[probs@.len() - 1].0 == pfsv[k as int].0);
                    assert(rep_assoc(probs@, rep, pfsv)) by {
                        reveal(rep_assoc);
                        reveal(rep_clear_from);
                        assert(forall|m: int| 0 <= m < rep0.len() ==> rep[m] == rep0[m]);
                        assert(forall|m: int| 0 <= m < probs0.len() ==> probs@[m] == probs0[m]);
                        assert(rep[rep.len() - 1] == k as int);
                        assert forall|m1: int, m2: int| 0 <= m1 < m2 < rep.len() implies rep[m1]
                            != rep[m2] by {
                            if m2 == rep.len() - 1 {
                                assert(surv@[s as int] != rep0[m1]);
                            }
                        }
                    }
                    assert(rep_clear_from(rep, surv@, s + 1)) by {
                        reveal(rep_clear_from);
                        reveal(strictly_increasing);
                        assert forall|t: int, m: int|
                            s + 1 <= t < surv@.len() && 0 <= m < rep.len() implies surv@[t]
                            != rep[m] by {
                            if m == rep.len() - 1 {
                                assert(surv@[s as int] < surv@[t]);
                            } else {
                                assert(rep[m] == rep0[m]);
                                assert(surv@[t] != rep0[m]);
                            }
                        }
                    }
                    assert(rep_clear_from(rep, surv2@, 0)) by {
                        reveal(rep_clear_from);
                        reveal(within_prefix);
                        reveal(strictly_increasing);
                        assert forall|t2: int, m: int|
                            0 <= t2 < surv2@.len() && 0 <= m < rep.len() implies surv2@[t2]
                            != rep[m] by {
                            if m == rep.len() - 1 {
                                let t = choose|t: int| 0 <= t < s && surv@[t] == surv2@[t2];
                                assert(surv@[t] < surv@[s as int]);
                            } else {
                                assert(rep[m] == rep0[m]);
                                assert(surv2@[t2] != rep0[m]);
                            }
                        }
                    }
                    assert(within_prefix(surv2@, surv@, s + 1)) by {
                        reveal(within_prefix);
                        assert forall|t2: int| 0 <= t2 < surv2@.len() implies exists|t: int|
                            0 <= t < s + 1 && surv@[t] == #[trigger] surv2@[t2] by {
                            let t = choose|t: int| 0 <= t < s && surv@[t] == surv2@[t2];
                            assert(0 <= t < s + 1 && surv@[t] == surv2@[t2]);
                        }
                    }
                    assert(cross_entry_ok(probs@[probs@.len() - 1], pfsv));
                    assert forall|m: int| 0 <= m < probs@.len() implies cross_entry_ok(
                        probs@[m],
                        pfsv,
                    ) by {
                        if m < probs0.len() {
                            assert(probs@[m] == probs0[m]);
                        }
                    }
                    assert forall|t: int|
                        0 <= t < pfsv.len() && pfsv[t].1.points@.len() < maxv
                            implies short_reported(probs@, pfsv[t].0) by {
                        let m = choose|m: int|
                            0 <= m < probs0.len() && probs0[m].0 == pfsv[t].0 && probs0[m].1
                                is Short;
                        assert(probs@[m] == probs0[m]);
                    }
                }
            },
            None => {
                let ghost surv20 = surv2@;
                surv2.push(k);
                proof {
                    assert(forall|t2: int| 0 <= t2 < surv20.len() ==> surv2@[t2] == surv20[t2]);
                    assert(surv2@[surv2@.len() - 1] == k);
                    assert(rep_clear_from(rep, surv2@, 0)) by {
                        reveal(rep_clear_from);
                        assert forall|t2: int, m: int|
                            0 <= t2 < surv2@.len() && 0 <= m < rep.len() implies surv2@[t2]
                            != rep[m] by {
                            if t2 == surv2@.len() - 1 {
                                assert(surv@[s as int] != rep[m]);
                            } else {
                                assert(surv2@[t2] == surv20[t2]);
                                assert(surv20[t2] != rep[m]);
                            }
                        }
                    }
                    assert(strictly_increasing(surv2@)) by {
                        reveal(strictly_increasing);
                        reveal(within_prefix);
                        assert forall|t1: int, t2: int|
                            0 <= t1 < t2 < surv2@.len() implies surv2@[t1] < surv2@[t2] by {
                            if t2 == surv2@.len() - 1 {
                                let t = choose|t: int| 0 <= t < s && surv@[t] == surv20[t1];
                                assert(surv@[t] < surv@[s as int]);
                            } else {
                                assert(surv2@[t1] == surv20[t1] && surv2@[t2] == surv20[t2]);
                            }
                        }
                    }
                    assert(within_prefix(surv2@, surv@, s + 1)) by {
                        reveal(within_prefix);
                        assert forall|t2: int| 0 <= t2 < surv2@.len() implies exists|t: int|
                            0 <= t < s + 1 && surv@[t] == #[trigger] surv2@[t2] by {
                            if t2 == surv2@.len() - 1 {
                                assert(surv@[s as int] == surv2@[t2]);
                            } else {
                                let t = choose|t: int| 0 <= t < s && surv@[t] == surv20[t2];
                                assert(0 <= t < s + 1 && surv@[t] == surv2@[t2]);
                            }
                        }
                    }
                    assert(rep_clear_from(rep, surv@, s + 1)) by {
                        reveal(rep_clear_from);
                    }
                    if no_other_dominated(probs@) {
                        assert(surv2@ =~= surv@.take(s + 1));
                        assert forall|t: int| #![auto] 0 <= t < s + 1 implies front_covered(
                            pfsv[surv@[t] as int].1,
                            rows@,
                        ) by {
                            if t < s {
                                assert(front_covered(pfsv[surv@[t] as int].1, rowsb));
                                assert forall|i2: int|
                                    0 <= i2 < pfsv[surv@[t] as int].1.points@.len()
                                        implies row_covers(
                                    (#[trigger] pfsv[surv@[t] as int].1.points@[i2]).costs@,
                                    rows@,
                                ) by {
                                    lemma_covers_step(
                                        pfsv[surv@[t] as int].1.points@[i2].costs@,
                                        rowsb,
                                        rows@,
                                    );
                                }
                            } else {
                                assert(surv@[t] == k as usize);
                            }
                        }
                    }
                }
            },
        }
        s += 1;
    }
    if surv2.len() <= 1 {
        proof {
            lemma_rep_names(pfsv, probs@, rep);
            if no_other_dominated(probs@) {
                assert(surv2@ == surv@.take(surv@.len() as int));
                assert(surv@.take(surv@.len() as int) =~= surv@);
                assert(false);
            }
        }
        return probs;
    }
    let ghost rows_before = rows@;
    dedup_rows(&mut rows);
    proof {
        assert forall|q: int| 0 <= q < rows@.len() implies rows@[q]@.len() == nobjs
            && row_from_fronts(rows@[q]@, pfsv) by {
            let q0 = choose|q0: int| 0 <= q0 < rows_before.len() && rows_before[q0]@ == rows@[q]@;
            assert(rows_before[q0]@.len() == nobjs);
        }
        if no_other_dominated(probs@) {
            assert(surv2@ == surv@.take(surv@.len() as int));
            assert(surv@.take(surv@.len() as int) =~= surv@);
            assert forall|t: int| #![auto] 0 <= t < surv2@.len() implies front_covered(
                pfsv[surv2@[t] as int].1,
                rows@,
            ) by {
                assert(front_covered(pfsv[surv@[t] as int].1, rows_before));
                assert forall|i2: int|
                    0 <= i2 < pfsv[surv2@[t] as int].1.points@.len() implies row_covers(
                    (#[trigger] pfsv[surv2@[t] as int].1.points@[i2]).costs@,
                    rows@,
                ) by {
                    lemma_covers_step(
                        pfsv[surv2@[t] as int].1.points@[i2].costs@,
                        rows_before,
                        rows@,
                    );
                }
            }
        }
    }
    // Final cross-check of the remaining fronts against the joint set.
    let mut s: usize = 0;
    while s < surv2.len()
        invariant
            n == pfsv.len(),
            n >= 2,
            pfs@ == pfsv,
            s <= surv2@.len(),
            maxv == fronts_max_len(pfsv),
            forall|t: int| 0 <= t < pfsv.len() ==> front_ok(pfsv[t].1, nobjs as nat),
            forall|t: int|
                0 <= t < surv2@.len() ==> surv2@[t] < n && pfsv[surv2@[t] as int].1.points@.len()
                    == maxv,
            forall|m: int| 0 <= m < probs@.len() ==> cross_entry_ok(probs@[m], pfsv),
            forall|t: int| #![auto]
                0 <= t < pfsv.len() && pfsv[t].1.points@.len() < maxv ==> short_reported(
                    probs@,
                    pfsv[t].0,
                ),
            forall|q: int| 0 <= q < rows@.len() ==> rows@[q]@.len() == nobjs,
            forall|q: int| 0 <= q < rows@.len() ==> row_from_fronts(rows@[q]@, pfsv),
            forall|t: int| #![trigger pfsv[t]]
                0 <= t < pfsv.len() && pfsv[t].1.points@.len() == maxv ==> exists|s2: int|
                    0 <= s2 < surv@.len() && surv@[s2] == t,
            no_other_dominated(probs@) ==> surv2@ == surv@,
            no_other_dominated(probs@) ==> forall|t: int| #![auto]
                0 <= t < surv2@.len() ==> front_covered(pfsv[surv2@[t] as int].1, rows@),
            no_other_dominated(probs@) ==> forall|t: int| #![auto]
                0 <= t < s ==> front_undominated(pfsv[surv2@[t] as int].1, rows@),
            rep_assoc(probs@, rep, pfsv),
            strictly_increasing(surv2@),
            rep_clear_from(rep, surv2@, s as int),
        decreases surv2@.len() - s,
    {
        let k = surv2[s];
        match cross_check_front(&pfs, k, &rows, nobjs) {
            Some(idx) => {
                let ghost probs0 = probs@;
                let ghost rep0 = rep;
                let sid = pfs[k].0.clone();
                probs.push((sid, Problem::OtherDominated(idx)));
                proof {
                    rep = rep.push(k as int);
                    assert(!no_other_dominated(probs@)) by {
                        assert(probs@[probs@.len() - 1].1 is OtherDominated);
                    }
                    assert(probs@[probs@.len() - 1].0 == pfsv[k as int].0);
                    assert(rep_assoc(probs@, rep, pfsv)) by {
                        reveal(rep_assoc);
                        reveal(rep_clear_from);
                        assert(forall|m: int| 0 <= m < rep0.len() ==> rep[m] == rep0[m]);
                        assert(forall|m: int| 0 <= m < probs0.len() ==> probs@[m] == probs0[m]);
                        assert(rep[rep.len() - 1] == k as int);
                        assert forall|m1: int, m2: int| 0 <= m1 < m2 < rep.len() implies rep[m1]
                            != rep[m2] by {
                            if m2 == rep.len() - 1 {
                                assert(surv2@[s as int] != rep0[m1]);
                            }
                        }
                    }
                    assert(rep_clear_from(rep, surv2@, s + 1)) by {
                        reveal(rep_clear_from);
                        reveal(strictly_increasing);
                        assert forall|t: int, m: int|
                            s + 1 <= t < surv2@.len() && 0 <= m < rep.len() implies surv2@[t]
                            != rep[m] by {
                            if m == rep.len() - 1 {
                                assert(surv2@[s as int] < surv2@[t]);
                            } else {
                                assert(rep[m] == rep0[m]);
                                assert(surv2@[t] != rep0[m]);
                            }
                        }
                    }
                    assert(cross_entry_ok(probs@[probs@.len() - 1], pfsv));
                    assert forall|m: int| 0 <= m < probs@.len() implies cross_entry_ok(
                        probs@[m],
                        pfsv,
                    ) by {
                        if m < probs0.len() {
                            assert(probs@[m] == probs0[m]);
                        }
                    }
                    assert forall|t: int|
                        0 <= t < pfsv.len() && pfsv[t].1.points@.len() < maxv
                            implies short_reported(probs@, pfsv[t].0) by {
                        let m = choose|m: int|
                            0 <= m < probs0.len() && probs0[m].0 == pfsv[t].0 && probs0[m].1
                                is Short;
                        assert(probs@[m] == probs0[m]);
                    }
                }
            },
            None => {
                proof {
                    assert(rep_clear_from(rep, surv2@, s + 1)) by {
                        reveal(rep_clear_from);
                    }
                    if no_other_dominated(probs@) {
                        assert forall|t: int| #![auto] 0 <= t < s + 1 implies front_undominated(
                            pfsv[surv2@[t] as int].1,
                            rows@,
                        ) by {
                            if t == s {
                                assert(surv2@[t] == k as usize);
                            }
                        }
                    }
                }
            },
        }
        s += 1;
    }
    proof {
        lemma_rep_names(pfsv, probs@, rep);
        if no_other_dominated(probs@) {
            assert forall|kk: int, kk2: int, j: int, i: int| #![auto]
                0 <= kk < pfsv.len() && 0 <= kk2 < pfsv.len() && pfsv[kk].1.points@.len() == maxv
                    && pfsv[kk2].1.points@.len() == maxv && 0 <= j < pfsv[kk].1.points@.len() && 0
                    <= i < pfsv[kk2].1.points@.len() implies !dominates(
                pfsv[kk].1.points@[j].costs@,
                pfsv[kk2].1.points@[i].costs@,
            ) by {
                let sa = choose|s2: int| 0 <= s2 < surv@.len() && surv@[s2] == kk;
                let sb = choose|s2: int| 0 <= s2 < surv@.len() && surv@[s2] == kk2;
                assert(surv2@ == surv@);
                assert(front_covered(pfsv[surv2@[sa] as int].1, rows@));
                assert(front_undominated(pfsv[surv2@[sb] as int].1, rows@));
                let pj = pfsv[kk].1.points@[j].costs@;
                let pi = pfsv[kk2].1.points@[i].costs@;
                if dominates(pj, pi) {
                    assert(row_covers((pfsv[kk].1.points@[j]).costs@, rows@));
                    let q = choose|q: int|
                        0 <= q < rows@.len() && ((#[trigger] rows@[q])@ == pj || dominates(
                            rows@[q]@,
                            pj,
                        ));
                    if rows@[q]@ != pj {
                        lemma_dominates_trans(rows@[q]@, pj, pi);
                    }
                    assert(dominates(rows@[q]@, pi));
                    assert(false);
                }
            }
        }
    }
    probs
}


/// The bookkeeping behind the one-report-per-front argument: `rep` lists
/// the front index behind each report, the indices are pairwise distinct,
/// and each report carries its front's name.
#[verifier::opaque]
spec fn rep_assoc(
    probs: Seq<(String, Problem)>,
    rep: Seq<int>,
    pfsv: Seq<(String, ParetoFront)>,
) -> bool {
    &&& rep.len() == probs.len()
    &&& forall|m: int|
        0 <= m < rep.len() ==> 0 <= #[trigger] rep[m] < pfsv.len() && probs[m].0@
            == pfsv[rep[m]].0@
    &&& forall|m1: int, m2: int| 0 <= m1 < m2 < rep.len() ==> rep[m1] != rep[m2]
}

/// No front index at or past position `s` of `surv` was reported yet.
#[verifier::opaque]
spec fn rep_clear_from(rep: Seq<int>, surv: Seq<usize>, s: int) -> bool {
    forall|t: int, m: int|
        #![trigger surv[t], rep[m]]
        s <= t < surv.len() && 0 <= m < rep.len() ==> surv[t] != rep[m]
}

/// The indices are in strictly increasing order.
#[verifier::opaque]
spec fn strictly_increasing(s: Seq<usize>) -> bool {
    forall|t1: int, t2: int| 0 <= t1 < t2 < s.len() ==> s[t1] < s[t2]
}

/// Every element of `surv2` stands among the first `s` elements of `surv`.
#[verifier::opaque]
spec fn within_prefix(surv2: Seq<usize>, surv: Seq<usize>, s: int) -> bool {
    forall|t2: int|
        0 <= t2 < surv2.len() ==> exists|t: int| 0 <= t < s && surv[t] == #[trigger] surv2[t2]
}

/// Reports whose front indices are pairwise distinct name each front at
/// most once — and, with distinct front names, each name at most once.
proof fn lemma_rep_names(
    pfsv: Seq<(String, ParetoFront)>,
    probs: Seq<(String, Problem)>,
    rep: Seq<int>,
)
    requires
        rep_assoc(probs, rep, pfsv),
    ensures
        forall|m: int| 0 <= m < probs.len() ==> name_among((#[trigger] probs[m]).0@, pfsv),
        distinct_names(pfsv) ==> forall|m1: int, m2: int|
            0 <= m1 < m2 < probs.len() ==> probs[m1].0@ != probs[m2].0@,
{
    reveal(rep_assoc);
    assert forall|m: int| 0 <= m < probs.len() implies name_among(
        (#[trigger] probs[m]).0@,
        pfsv,
    ) by {
        assert(0 <= rep[m] < pfsv.len() && pfsv[rep[m]].0@ == probs[m].0@);
    }
    if distinct_names(pfsv) {
        assert forall|m1: int, m2: int| 0 <= m1 < m2 < probs.len() implies probs[m1].0@
            != probs[m2].0@ by {
            assert(rep[m1] != rep[m2]);
            if rep[m1] < rep[m2] {
                assert(pfsv[rep[m1]].0@ != pfsv[rep[m2]].0@);
            } else {
                assert(pfsv[rep[m2]].0@ != pfsv[rep[m1]].0@);
            }
        }
    }
}

/// Every ordered pair at or after `(i1, i2)` in the scan that a clean
/// non-dominance phase covers is incomparable.
proof fn lemma_pairs_check_all(pts: Seq<NonDomPoint>, i1: int, i2: int, a: int, b: int)
    requires
        0 <= i1 < i2,
        pairs_check(pts, i1, i2) is None,
        i1 <= a < b < pts.len(),
        a > i1 || b >= i2,
    ensures
        relation_spec(pts[a].costs@, pts[b].costs@) == Relation::Incomparable,
    decreases pts.len() - i1, pts.len() - i2,
{
    if i2 >= pts.len() {
        lemma_pairs_check_all(pts, i1 + 1, i1 + 2, a, b);
    } else if a == i1 && b == i2 {
        assert(pair_problem(pts, i1, i2) is None);
    } else {
        lemma_pairs_check_all(pts, i1, i2 + 1, a, b);
    }
}

/// A front that the self-check accepts is well formed: right dimensions,
/// pairwise incomparable points.
pub proof fn lemma_check_pf_front_ok(inst: Instance, pf: ParetoFront)
    requires
        check_pf_spec(inst, pf) is None,
    ensures
        front_ok(pf, inst.objs@.len()),
{
    let pts = pf.points@;
    assert forall|i: int| 0 <= i < pts.len() implies pts[i].costs@.len() == inst.objs@.len() by {
        lemma_points_check_dims(inst, pts, 0, i);
    }
    assert forall|i: int, j: int| 0 <= i < j < pts.len() implies relation_spec(
        pts[i].costs@,
        pts[j].costs@,
    ) == Relation::Incomparable by {
        lemma_pairs_check_all(pts, 0, 1, i, j);
    }
}

/// The fronts that pass the self-check, in input order, with their solvers.
pub open spec fn survivors(inst: Instance, outcomes: Seq<(String, SolverOutcome)>) -> Seq<
    (String, ParetoFront),
>
    decreases outcomes.len(),
{
    if outcomes.len() == 0 {
        Seq::empty()
    } else {
        let rest = survivors(inst, outcomes.drop_last());
        match outcomes.last().1 {
            SolverOutcome::Front(pf) => if check_pf_spec(inst, pf) is None {
                rest.push((outcomes.last().0, pf))
            } else {
                rest
            },
            SolverOutcome::Panicked => rest,
        }
    }
}

/// Every surviving front is well formed.
proof fn lemma_survivors_front_ok(inst: Instance, outcomes: Seq<(String, SolverOutcome)>)
    ensures
        forall|t: int| #![auto]
            0 <= t < survivors(inst, outcomes).len() ==> front_ok(
                survivors(inst, outcomes)[t].1,
                inst.objs@.len(),
            ),
    decreases outcomes.len(),
{
    if outcomes.len() > 0 {
        lemma_survivors_front_ok(inst, outcomes.drop_last());
        let rest = survivors(inst, outcomes.drop_last());
        let cur = survivors(inst, outcomes);
        match outcomes.last().1 {
            SolverOutcome::Front(pf) => {
                if check_pf_spec(inst, pf) is None {
                    lemma_check_pf_front_ok(inst, pf);
                    assert(cur == rest.push((outcomes.last().0, pf)));
                    assert forall|t: int| #![auto] 0 <= t < cur.len() implies front_ok(
                        cur[t].1,
                        inst.objs@.len(),
                    ) by {
                        if t < rest.len() {
                            assert(cur[t] == rest[t]);
                        }
                    }
                } else {
                    assert(cur == rest);
                }
            },
            SolverOutcome::Panicked => {
                assert(cur == rest);
            },
        }
    }
}

/// Every surviving front carries the name of a good outcome, and with
/// distinct solver names the surviving names are pairwise distinct too.
proof fn lemma_survivors_names(inst: Instance, outcomes: Seq<(String, SolverOutcome)>)
    ensures
        forall|t: int|
            0 <= t < survivors(inst, outcomes).len() ==> exists|k: int|
                0 <= k < outcomes.len() && outcomes[k].0 == (#[trigger] survivors(
                    inst,
                    outcomes,
                )[t]).0 && !outcome_bad(inst, outcomes[k].1),
        distinct_names(outcomes) ==> distinct_names(survivors(inst, outcomes)),
    decreases outcomes.len(),
{
    if outcomes.len() > 0 {
        lemma_survivors_names(inst, outcomes.drop_last());
        let rest = survivors(inst, outcomes.drop_last());
        let cur = survivors(inst, outcomes);
        assert(forall|k: int| 0 <= k < outcomes.len() - 1 ==> outcomes.drop_last()[k] == outcomes[k]);
        match outcomes.last().1 {
            SolverOutcome::Front(pf) => {
                if check_pf_spec(inst, pf) is None {
                    assert(cur == rest.push((outcomes.last().0, pf)));
                    assert forall|t: int| 0 <= t < cur.len() implies exists|k: int|
                        0 <= k < outcomes.len() && outcomes[k].0 == (#[trigger] cur[t]).0
                            && !outcome_bad(inst, outcomes[k].1) by {
                        if t < rest.len() {
                            assert(cur[t] == rest[t]);
                            let k = choose|k: int|
                                0 <= k < outcomes.drop_last().len() && outcomes.drop_last()[k].0
                                    == rest[t].0 && !outcome_bad(
                                    inst,
                                    outcomes.drop_last()[k].1,
                                );
                            assert(outcomes[k].0 == cur[t].0 && !outcome_bad(
                                inst,
                                outcomes[k].1,
                            ));
                        } else {
                            assert(cur[t].0 == outcomes[outcomes.len() - 1].0);
                            assert(!outcome_bad(inst, outcomes[outcomes.len() - 1].1));
                        }
                    }
                    if distinct_names(outcomes) {
                        assert(distinct_names(outcomes.drop_last()));
                        assert forall|a: int, b: int|
                            0 <= a < b < cur.len() implies cur[a].0@ != cur[b].0@ by {
                            if b < rest.len() {
                                assert(cur[a] == rest[a] && cur[b] == rest[b]);
                            } else {
                                assert(cur[a] == rest[a]);
                                let k = choose|k: int|
                                    0 <= k < outcomes.drop_last().len()
                                        && outcomes.drop_last()[k].0 == rest[a].0 && !outcome_bad(
                                        inst,
                                        outcomes.drop_last()[k].1,
                                    );
                                assert(outcomes[k].0@ != outcomes[outcomes.len() - 1].0@);
                            }
                        }
                    }
                } else {
                    assert(cur == rest);
                    assert forall|t: int| 0 <= t < cur.len() implies exists|k: int|
                        0 <= k < outcomes.len() && outcomes[k].0 == (#[trigger] cur[t]).0
                            && !outcome_bad(inst, outcomes[k].1) by {
                        let k = choose|k: int|
                            0 <= k < outcomes.drop_last().len() && outcomes.drop_last()[k].0
                                == rest[t].0 && !outcome_bad(inst, outcomes.drop_last()[k].1);
                        assert(outcomes[k].0 == cur[t].0 && !outcome_bad(inst, outcomes[k].1));
                    }
                }
            },
            SolverOutcome::Panicked => {
                assert(cur == rest);
                assert forall|t: int| 0 <= t < cur.len() implies exists|k: int|
                    0 <= k < outcomes.len() && outcomes[k].0 == (#[trigger] cur[t]).0
                        && !outcome_bad(inst, outcomes[k].1) by {
                    let k = choose|k: int|
                        0 <= k < outcomes.drop_last().len() && outcomes.drop_last()[k].0
                            == rest[t].0 && !outcome_bad(inst, outcomes.drop_last()[k].1);
                    assert(outcomes[k].0 == cur[t].0 && !outcome_bad(inst, outcomes[k].1));
                }
            },
        }
        if distinct_names(outcomes) {
            assert(distinct_names(outcomes.drop_last()));
        }
    }
}

/// A justified per-solver report: the solver panicked and the entry says so,
/// or the self-check of the solver's front fails with exactly this problem.
pub open spec fn self_entry_ok(
    e: (String, Problem),
    inst: Instance,
    outcomes: Seq<(String, SolverOutcome)>,
) -> bool {
    exists|k: int|
        0 <= k < outcomes.len() && outcomes[k].0 == e.0 && match outcomes[k].1 {
            SolverOutcome::Panicked => e.1 == Problem::Panic,
            SolverOutcome::Front(pf) => check_pf_spec(inst, pf) == Some(e.1),
        }
}

proof fn lemma_contains_after_push<A>(s: Seq<A>, e: A, x: A)
    requires
        s.contains(x),
    ensures
        s.push(e).contains(x),
{
    let i = choose|i: int| 0 <= i < s.len() && s[i] == x;
    assert(s.push(e)[i] == x);
}

proof fn lemma_contains_after_add<A>(s: Seq<A>, t: Seq<A>, x: A)
    requires
        s.contains(x),
    ensures
        (s + t).contains(x),
{
    let i = choose|i: int| 0 <= i < s.len() && s[i] == x;
    assert((s + t)[i] == x);
}

/// The oracle: takes what every solver produced on the instance, self-checks
/// each returned front, reports `Panic` for solvers that aborted, and
/// cross-checks the fronts that pass against each other. Every solver whose
/// outcome is bad is reported; every report is justified; a single solver
/// whose front passes the self-check yields no report.
pub fn compare(inst: &Instance, outcomes: Vec<(String, SolverOutcome)>) -> (probs: Vec<
    (String, Problem),
>)
    requires
        inst.wf(),
    ensures
        forall|k: int| #![auto]
            0 <= k < outcomes@.len() && outcomes@[k].1 is Panicked ==> probs@.contains(
                (outcomes@[k].0, Problem::Panic),
            ),
        forall|k: int, p: Problem| #![auto]
            0 <= k < outcomes@.len() && (outcomes@[k].1 matches SolverOutcome::Front(pf)
                && check_pf_spec(*inst, pf) == Some(p)) ==> probs@.contains((outcomes@[k].0, p)),
        forall|m: int|
            0 <= m < probs@.len() ==> self_entry_ok(probs@[m], *inst, outcomes@)
                || cross_entry_ok(probs@[m], survivors(*inst, outcomes@)),
        (outcomes@.len() == 1 && match outcomes@[0].1 {
            SolverOutcome::Front(pf) => check_pf_spec(*inst, pf) is None,
            SolverOutcome::Panicked => false,
        }) ==> probs@.len() == 0,
        distinct_names(outcomes@) ==> forall|m1: int, m2: int|
            0 <= m1 < m2 < probs@.len() ==> probs@[m1].0@ != probs@[m2].0@,
        forall|k: int| #![auto]
            0 <= k < survivors(*inst, outcomes@).len() && survivors(*inst, outcomes@)[k].1.points@.len()
                < fronts_max_len(survivors(*inst, outcomes@)) ==> short_reported(
                probs@,
                survivors(*inst, outcomes@)[k].0,
            ),
        no_other_dominated(probs@) ==> forall|k: int, k2: int, j: int, i: int| #![auto]
            0 <= k < survivors(*inst, outcomes@).len() && 0 <= k2 < survivors(
                *inst,
                outcomes@,
            ).len() && survivors(*inst, outcomes@)[k].1.points@.len() == fronts_max_len(
                survivors(*inst, outcomes@),
            ) && survivors(*inst, outcomes@)[k2].1.points@.len() == fronts_max_len(
                survivors(*inst, outcomes@),
            ) && 0 <= j < survivors(*inst, outcomes@)[k].1.points@.len() && 0 <= i < survivors(
                *inst,
                outcomes@,
            )[k2].1.points@.len() ==> !dominates(
                survivors(*inst, outcomes@)[k].1.points@[j].costs@,
                survivors(*inst, outcomes@)[k2].1.points@[i].costs@,
            ),
{
    let ghost outv = outcomes@;
    let nobjs = inst.n_objectives();
    let mut probs: Vec<(String, Problem)> = Vec::new();
    let mut fronts: Vec<(String, ParetoFront)> = Vec::new();
    let mut rest = outcomes;
    let ghost mut processed: Seq<(String, SolverOutcome)> = Seq::empty();
    // The outcome index behind each self-check report; kept pairwise
    // distinct, so no solver is reported twice by the self-check phase.
    let ghost mut repk: Seq<int> = Seq::empty();
    while rest.len() > 0
        invariant
            inst.wf(),
            nobjs == inst.objs@.len(),
            outv == processed + rest@,
            fronts@ == survivors(*inst, processed),
            forall|m: int|
                0 <= m < probs@.len() ==> self_entry_ok(probs@[m], *inst, processed),
            repk.len() == probs@.len(),
            forall|m: int|
                0 <= m < repk.len() ==> 0 <= #[trigger] repk[m] < processed.len()
                    && probs@[m].0@ == processed[repk[m]].0@ && outcome_bad(
                    *inst,
                    processed[repk[m]].1,
                ),
            forall|m1: int, m2: int| 0 <= m1 < m2 < repk.len() ==> repk[m1] != repk[m2],
            forall|k: int| #![auto]
                0 <= k < processed.len() && processed[k].1 is Panicked ==> probs@.contains(
                    (processed[k].0, Problem::Panic),
                ),
            forall|k: int, p: Problem| #![auto]
                0 <= k < processed.len() && (processed[k].1 matches SolverOutcome::Front(pf)
                    && check_pf_spec(*inst, pf) == Some(p)) ==> probs@.contains(
                    (processed[k].0, p),
                ),
        decreases rest@.len(),
    {
        let ghost probs0 = probs@;
        let ghost processed0 = processed;
        let ghost repk0 = repk;
        let (sid, outc) = rest.remove(0);
        proof {
            processed = processed.push((sid, outc));
            assert(processed.drop_last() =~= processed0);
            assert(outv =~= processed + rest@);
        }
        match outc {
            SolverOutcome::Panicked => {
                probs.push((sid, Problem::Panic));
                proof {
                    repk = repk.push(processed.len() - 1);
                    assert(survivors(*inst, processed) =~= fronts@);
                    assert(self_entry_ok(probs@[probs@.len() - 1], *inst, processed)) by {
                        assert(processed[processed.len() - 1] == (
                            probs@[probs@.len() - 1].0,
                            SolverOutcome::Panicked,
                        ));
                    }
                    assert(probs@[probs@.len() - 1].0@ == processed[processed.len() - 1].0@);
                    assert(outcome_bad(*inst, processed[processed.len() - 1].1));
                }
            },
            SolverOutcome::Front(pf) => {
                match check_pf(&pf, inst) {
                    Err(prob) => {
                        probs.push((sid, prob));
                        proof {
                            repk = repk.push(processed.len() - 1);
                            assert(survivors(*inst, processed) =~= fronts@);
                            assert(self_entry_ok(probs@[probs@.len() - 1], *inst, processed)) by {
                                assert(processed[processed.len() - 1].1 == SolverOutcome::Front(
                                    pf,
                                ));
                            }
                            assert(probs@[probs@.len() - 1].0@ == processed[processed.len()
                                - 1].0@);
                            assert(outcome_bad(*inst, processed[processed.len() - 1].1));
                        }
                    },
                    Ok(_) => {
                        let sid2 = sid.clone();
                        fronts.push((sid2, pf));
                        proof {
                            assert(fronts@ =~= survivors(*inst, processed));
                        }
                    },
                }
            },
        }
        proof {
            assert forall|m: int|
                0 <= m < repk.len() implies 0 <= #[trigger] repk[m] < processed.len()
                && probs@[m].0@ == processed[repk[m]].0@ && outcome_bad(
                *inst,
                processed[repk[m]].1,
            ) by {
                if m < repk0.len() {
                    assert(repk[m] == repk0[m]);
                    assert(probs@[m] == probs0[m]);
                    assert(processed[repk0[m]] == processed0[repk0[m]]);
                }
            }
            assert forall|m1: int, m2: int| 0 <= m1 < m2 < repk.len() implies repk[m1]
                != repk[m2] by {
                if m2 < repk0.len() {
                    assert(repk[m1] == repk0[m1] && repk[m2] == repk0[m2]);
                } else if m1 < repk0.len() {
                    assert(repk[m1] == repk0[m1] && repk0[m1] < processed0.len());
                    assert(repk[m2] == processed.len() - 1);
                }
            }
            assert forall|m: int| 0 <= m < probs@.len() implies self_entry_ok(
                probs@[m],
                *inst,
                processed,
            ) by {
                if m < probs0.len() {
                    assert(probs@[m] == probs0[m]);
                    let k = choose|k: int|
                        0 <= k < processed0.len() && processed0[k].0 == probs0[m].0
                            && match processed0[k].1 {
                            SolverOutcome::Panicked => probs0[m].1 == Problem::Panic,
                            SolverOutcome::Front(pf) => check_pf_spec(*inst, pf) == Some(
                                probs0[m].1,
                            ),
                        };
                    assert(processed[k] == processed0[k]);
                }
            }
            assert forall|k: int, p: Problem|
                0 <= k < processed.len() && (processed[k].1 matches SolverOutcome::Front(pf)
                    && check_pf_spec(*inst, pf) == Some(p)) implies probs@.contains(
                (processed[k].0, p),
            ) by {
                if k < processed0.len() {
                    assert(processed[k] == processed0[k]);
                    if probs0 != probs@ {
                        lemma_contains_after_push(
                            probs0,
                            probs@[probs@.len() - 1],
                            (processed0[k].0, p),
                        );
                        assert(probs@ =~= probs0.push(probs@[probs@.len() - 1]));
                    }
                }
            }
            assert forall|k: int|
                0 <= k < processed.len() && processed[k].1 is Panicked implies probs@.contains(
                (processed[k].0, Problem::Panic),
            ) by {
                if k < processed0.len() {
                    assert(processed[k] == processed0[k]);
                    if probs0 != probs@ {
                        lemma_contains_after_push(
                            probs0,
                            probs@[probs@.len() - 1],
                            (processed0[k].0, Problem::Panic),
                        );
                        assert(probs@ =~= probs0.push(probs@[probs@.len() - 1]));
                    }
                } else {
                    assert(probs@[probs@.len() - 1] == (processed[k].0, Problem::Panic));
                }
            }
        }
    }
    proof {
        assert(processed =~= outv);
        lemma_survivors_front_ok(*inst, outv);
    }
    let ghost selfprobs = probs@;
    let ghost frontsv = fronts@;
    let mut cross = compare_pfs(fronts, nobjs);
    let ghost crossv = cross@;
    probs.append(&mut cross);
    proof {
        assert forall|m: int| 0 <= m < probs@.len() implies self_entry_ok(probs@[m], *inst, outv)
            || cross_entry_ok(probs@[m], survivors(*inst, outv)) by {
            if m < selfprobs.len() {
                assert(probs@[m] == selfprobs[m]);
            } else {
                assert(probs@[m] == crossv[m - selfprobs.len()]);
            }
        }
        assert forall|k: int| #![auto]
            0 <= k < outv.len() && outv[k].1 is Panicked implies probs@.contains(
            (outv[k].0, Problem::Panic),
        ) by {
            lemma_contains_after_add(selfprobs, crossv, (outv[k].0, Problem::Panic));
        }
        if no_other_dominated(probs@) {
            assert(no_other_dominated(crossv)) by {
                assert forall|m: int| 0 <= m < crossv.len() implies !((#[trigger] crossv[m]).1
                    is OtherDominated) by {
                    assert(probs@[selfprobs.len() + m] == crossv[m]);
                }
            }
        }
        assert forall|k: int| #![auto]
            0 <= k < survivors(*inst, outv).len() && survivors(*inst, outv)[k].1.points@.len()
                < fronts_max_len(survivors(*inst, outv)) implies short_reported(
            probs@,
            survivors(*inst, outv)[k].0,
        ) by {
            assert(short_reported(crossv, survivors(*inst, outv)[k].0));
            let m = choose|m: int|
                0 <= m < crossv.len() && crossv[m].0 == survivors(*inst, outv)[k].0 && crossv[m].1
                    is Short;
            assert(probs@[selfprobs.len() + m] == crossv[m]);
        }
        assert forall|k: int, p: Problem| #![auto]
            0 <= k < outv.len() && (outv[k].1 matches SolverOutcome::Front(pf) && check_pf_spec(
                *inst,
                pf,
            ) == Some(p)) implies probs@.contains((outv[k].0, p)) by {
            lemma_contains_after_add(selfprobs, crossv, (outv[k].0, p));
        }
        if distinct_names(outv) {
            lemma_survivors_names(*inst, outv);
            assert(frontsv == survivors(*inst, outv));
            assert(distinct_names(frontsv));
            assert forall|m1: int, m2: int| 0 <= m1 < m2 < probs@.len() implies probs@[m1].0@
                != probs@[m2].0@ by {
                if m2 < selfprobs.len() {
                    assert(probs@[m1] == selfprobs[m1] && probs@[m2] == selfprobs[m2]);
                    assert(repk[m1] != repk[m2]);
                    assert(processed[repk[m1]] == outv[repk[m1]]);
                    assert(processed[repk[m2]] == outv[repk[m2]]);
                    if repk[m1] < repk[m2] {
                        assert(outv[repk[m1]].0@ != outv[repk[m2]].0@);
                    } else {
                        assert(outv[repk[m2]].0@ != outv[repk[m1]].0@);
                    }
                } else if m1 >= selfprobs.len() {
                    assert(probs@[m1] == crossv[m1 - selfprobs.len()]);
                    assert(probs@[m2] == crossv[m2 - selfprobs.len()]);
                } else {
                    assert(probs@[m1] == selfprobs[m1]);
                    assert(probs@[m2] == crossv[m2 - selfprobs.len()]);
                    let kb = repk[m1];
                    assert(processed[kb] == outv[kb]);
                    assert(outcome_bad(*inst, outv[kb].1));
                    assert(name_among(crossv[m2 - selfprobs.len()].0@, frontsv));
                    let k = choose|k: int|
                        0 <= k < frontsv.len() && (#[trigger] frontsv[k]).0@ == crossv[m2
                            - selfprobs.len()].0@;
                    assert(frontsv[k] == survivors(*inst, outv)[k]);
                    let kg = choose|kg: int|
                        0 <= kg < outv.len() && outv[kg].0 == survivors(*inst, outv)[k].0
                            && !outcome_bad(*inst, outv[kg].1);
                    assert(kb != kg);
                    if kb < kg {
                        assert(outv[kb].0@ != outv[kg].0@);
                    } else {
                        assert(outv[kg].0@ != outv[kb].0@);
                    }
                }
            }
        }
        if outv.len() == 1 {
            match outv[0].1 {
                SolverOutcome::Front(pf) => {
                    if check_pf_spec(*inst, pf) is None {
                        assert(outv.drop_last() =~= Seq::<(String, SolverOutcome)>::empty());
                        assert(survivors(*inst, outv.drop_last()) =~= Seq::empty());
                        assert(outv.last() == outv[0]);
                        assert(survivors(*inst, outv) =~= Seq::empty().push((outv[0].0, pf)));
                        assert(frontsv.len() == 1);
                        if selfprobs.len() > 0 {
                            assert(self_entry_ok(selfprobs[0], *inst, outv));
                            assert(false);
                        }
                        assert(probs@.len() == 0);
                    }
                },
                SolverOutcome::Panicked => {},
            }
        }
    }
    probs
}

/// The cost vectors of a front, in order.
pub open spec fn cost_seq(pf: ParetoFront) -> Seq<Seq<i64>> {
    pf.points@.map_values(|p: NonDomPoint| p.costs@)
}

/// The set of cost vectors a front returns.
pub open spec fn cost_set(pf: ParetoFront) -> Set<Seq<i64>> {
    cost_seq(pf).to_set()
}

/// A well-formed front never repeats a cost vector, so it returns as many
/// distinct cost vectors as it has points.
pub proof fn lemma_front_ok_card(pf: ParetoFront, nobjs: nat)
    requires
        front_ok(pf, nobjs),
    ensures
        cost_seq(pf).no_duplicates(),
        cost_set(pf).len() == pf.points@.len(),
        cost_set(pf).finite(),
{
    assert forall|i: int, j: int|
        0 <= i < cost_seq(pf).len() && 0 <= j < cost_seq(pf).len() && i != j implies cost_seq(
        pf,
    )[i] != cost_seq(pf)[j] by {
        if i < j {
            assert(relation_spec(pf.points@[i].costs@, pf.points@[j].costs@)
                == Relation::Incomparable);
        } else {
            assert(relation_spec(pf.points@[j].costs@, pf.points@[i].costs@)
                == Relation::Incomparable);
        }
    }
    cost_seq(pf).unique_seq_to_set();
}

/// If every supplied solver returns the same set of cost vectors, each front
/// passing the self-check, then no cross-check report can be justified: a
/// report list that meets `compare_pfs`'s contract is empty.
pub proof fn lemma_equal_fronts_no_reports(
    probs: Seq<(String, Problem)>,
    pfs: Seq<(String, ParetoFront)>,
    nobjs: nat,
)
    requires
        forall|k: int| 0 <= k < pfs.len() ==> front_ok(pfs[k].1, nobjs),
        forall|k1: int, k2: int|
            0 <= k1 < pfs.len() && 0 <= k2 < pfs.len() ==> cost_set(pfs[k1].1) == cost_set(
                pfs[k2].1,
            ),
        forall|m: int| 0 <= m < probs.len() ==> cross_entry_ok(probs[m], pfs),
    ensures
        probs.len() == 0,
{
    lemma_fronts_max_len(pfs);
    // All fronts have the same length, so none is short.
    assert forall|k1: int, k2: int|
        0 <= k1 < pfs.len() && 0 <= k2 < pfs.len() implies pfs[k1].1.points@.len()
        == pfs[k2].1.points@.len() by {
        lemma_front_ok_card(pfs[k1].1, nobjs);
        lemma_front_ok_card(pfs[k2].1, nobjs);
    }
    if probs.len() > 0 {
        assert(cross_entry_ok(probs[0], pfs));
        match probs[0].1 {
            Problem::Short => {
                let k = choose|k: int|
                    0 <= k < pfs.len() && pfs[k].0 == probs[0].0 && pfs[k].1.points@.len()
                        < fronts_max_len(pfs);
                let t = choose|t: int|
                    0 <= t < pfs.len() && pfs[t].1.points@.len() == fronts_max_len(pfs);
                assert(pfs[k].1.points@.len() == pfs[t].1.points@.len());
                assert(false);
            },
            Problem::OtherDominated(i) => {
                let k2 = choose|k2: int|
                    0 <= k2 < pfs.len() && pfs[k2].0 == probs[0].0 && i
                        < pfs[k2].1.points@.len() && exists|v: Seq<i64>|
                        row_from_fronts(v, pfs) && dominates(v, pfs[k2].1.points@[i as int].costs@);
                let v = choose|v: Seq<i64>|
                    row_from_fronts(v, pfs) && dominates(v, pfs[k2].1.points@[i as int].costs@);
                let (k, j) = choose|k: int, j: int|
                    0 <= k < pfs.len() && 0 <= j < pfs[k].1.points@.len()
                        && pfs[k].1.points@[j].costs@ == v;
                // The dominating vector is also one of the reported front's
                // own cost vectors, contradicting its internal validity.
                assert(cost_set(pfs[k].1).contains(v)) by {
                    assert(cost_seq(pfs[k].1)[j] == v);
                }
                assert(cost_set(pfs[k2].1).contains(v));
                assert(cost_seq(pfs[k2].1).contains(v));
                let j2 = choose|j2: int|
                    0 <= j2 < cost_seq(pfs[k2].1).len() && cost_seq(pfs[k2].1)[j2] == v;
                assert(pfs[k2].1.points@[j2].costs@ == v);
                assert(v != pfs[k2].1.points@[i as int].costs@);
                if j2 < i {
                    assert(relation_spec(v, pfs[k2].1.points@[i as int].costs@)
                        == Relation::Incomparable);
                } else {
                    assert(i < j2);
                    assert(relation_spec(pfs[k2].1.points@[i as int].costs@, v)
                        == Relation::Incomparable);
                    assert(!dominates(v, pfs[k2].1.points@[i as int].costs@));
                }
                assert(false);
            },
            _ => {
                assert(false);
            },
        }
    }
}

/// A solver whose set of cost vectors is a strict subset of another solver's
/// returns a shorter front, and any report list that meets `compare_pfs`'s
/// contract reports it `Short`.
pub proof fn lemma_strict_subset_short(
    probs: Seq<(String, Problem)>,
    pfs: Seq<(String, ParetoFront)>,
    nobjs: nat,
    ka: int,
    kb: int,
)
    requires
        forall|k: int| 0 <= k < pfs.len() ==> front_ok(pfs[k].1, nobjs),
        0 <= ka < pfs.len(),
        0 <= kb < pfs.len(),
        cost_set(pfs[ka].1).subset_of(cost_set(pfs[kb].1)),
        cost_set(pfs[ka].1) != cost_set(pfs[kb].1),
        forall|k: int| #![auto]
            0 <= k < pfs.len() && pfs[k].1.points@.len() < fronts_max_len(pfs) ==> short_reported(
                probs,
                pfs[k].0,
            ),
    ensures
        short_reported(probs, pfs[ka].0),
{
    lemma_front_ok_card(pfs[ka].1, nobjs);
    lemma_front_ok_card(pfs[kb].1, nobjs);
    let sa = cost_set(pfs[ka].1);
    let sb = cost_set(pfs[kb].1);
    let x = choose|x: Seq<i64>| sb.contains(x) != sa.contains(x);
    assert(sb.contains(x) && !sa.contains(x)) by {
        if !(sb.contains(x) != sa.contains(x)) {
            assert(sa =~= sb);
        }
    }
    sa.lemma_subset_not_in_lt(sb, x);
    lemma_fronts_max_len(pfs);
    assert(pfs[ka].1.points@.len() < fronts_max_len(pfs));
}

/// A solver with a front of maximal length, none of whose points is
/// strictly dominated by any supplied cost vector, is named by no justified
/// cross-check report: omitting a point that the joint set dominates away is
/// no error. With `compare_pfs`'s contract this front goes unreported, even
/// when another solver holds points it omits.
pub proof fn lemma_undominated_unreported(
    probs: Seq<(String, Problem)>,
    pfs: Seq<(String, ParetoFront)>,
    ka: int,
)
    requires
        0 <= ka < pfs.len(),
        distinct_names(pfs),
        pfs[ka].1.points@.len() == fronts_max_len(pfs),
        forall|i: int, v: Seq<i64>|
            #![trigger row_from_fronts(v, pfs), pfs[ka].1.points@[i]]
            0 <= i < pfs[ka].1.points@.len() && row_from_fronts(v, pfs) ==> !dominates(
                v,
                pfs[ka].1.points@[i].costs@,
            ),
        forall|m: int| 0 <= m < probs.len() ==> cross_entry_ok(probs[m], pfs),
    ensures
        forall|m: int| 0 <= m < probs.len() ==> (#[trigger] probs[m]).0@ != pfs[ka].0@,
{
    assert forall|m: int| 0 <= m < probs.len() implies (#[trigger] probs[m]).0@
        != pfs[ka].0@ by {
        if probs[m].0@ == pfs[ka].0@ {
            assert(cross_entry_ok(probs[m], pfs));
            match probs[m].1 {
                Problem::Short => {
                    let k = choose|k: int|
                        0 <= k < pfs.len() && pfs[k].0 == probs[m].0 && pfs[k].1.points@.len()
                            < fronts_max_len(pfs);
                    if k < ka {
                        assert(pfs[k].0@ != pfs[ka].0@);
                    } else if ka < k {
                        assert(pfs[ka].0@ != pfs[k].0@);
                    }
                    assert(k == ka);
                    assert(false);
                },
                Problem::OtherDominated(i) => {
                    let k2 = choose|k2: int|
                        0 <= k2 < pfs.len() && pfs[k2].0 == probs[m].0 && i
                            < pfs[k2].1.points@.len() && exists|v: Seq<i64>|
                            row_from_fronts(v, pfs) && dominates(
                                v,
                                pfs[k2].1.points@[i as int].costs@,
                            );
                    if k2 < ka {
                        assert(pfs[k2].0@ != pfs[ka].0@);
                    } else if ka < k2 {
                        assert(pfs[ka].0@ != pfs[k2].0@);
                    }
                    assert(k2 == ka);
                    let v = choose|v: Seq<i64>|
                        row_from_fronts(v, pfs) && dominates(
                            v,
                            pfs[ka].1.points@[i as int].costs@,
                        );
                    assert(!dominates(v, pfs[ka].1.points@[i as int].costs@));
                    assert(false);
                },
                _ => {
                    assert(false);
                },
            }
        }
    }
}

/// A witness-slot of a front passes against the instance: the witness
/// satisfies the hard clauses and reaches exactly the reported cost.
pub open spec fn sol_passes(inst: Instance, p: NonDomPoint, j: int) -> bool {
    &&& inst.hard_sat(p.sols@[j]@)
    &&& forall|o: int|
        0 <= o < inst.objs@.len() ==> p.costs@[o] == falsified_weight(p.sols@[j]@, inst.objs@[o]@)
}

proof fn lemma_sols_check_step(inst: Instance, p: NonDomPoint, i: int, j0: int, j: int)
    requires
        0 <= j0 <= j <= p.sols@.len(),
        forall|j2: int| j0 <= j2 < j ==> sol_passes(inst, p, j2),
    ensures
        sols_check(inst, p, i, j0) == sols_check(inst, p, i, j),
    decreases j - j0,
{
    if j0 < j {
        assert(sol_passes(inst, p, j0));
        assert(!exists|o: int|
            0 <= o < inst.objs@.len() && p.costs@[o] != falsified_weight(
                p.sols@[j0]@,
                inst.objs@[o]@,
            ));
        lemma_sols_check_step(inst, p, i, j0 + 1, j);
    }
}

proof fn lemma_points_check_step(inst: Instance, pts: Seq<NonDomPoint>, i0: int, i: int)
    requires
        0 <= i0 <= i <= pts.len(),
        forall|t: int| i0 <= t < i ==> pts[t].costs@.len() == inst.objs@.len(),
        forall|t: int, j: int|
            i0 <= t < i && 0 <= j < pts[t].sols@.len() ==> sol_passes(inst, pts[t], j),
    ensures
        points_check(inst, pts, i0) == points_check(inst, pts, i),
    decreases i - i0,
{
    if i0 < i {
        lemma_sols_check_step(inst, pts[i0], i0, 0, pts[i0].sols@.len() as int);
        lemma_points_check_step(inst, pts, i0 + 1, i);
    }
}

/// A front whose first failing witness-slot, in scan order, holds a witness
/// that falsifies a hard clause is rejected by the self-check with exactly
/// `UnsatSol` at that slot — before it could reach any cross-check.
pub proof fn lemma_unsat_witness_reported(inst: Instance, pf: ParetoFront, i: int, j: int)
    requires
        0 <= i < pf.points@.len(),
        0 <= j < pf.points@[i].sols@.len(),
        forall|t: int|
            0 <= t <= i ==> pf.points@[t].costs@.len() == inst.objs@.len(),
        forall|t: int, j2: int|
            0 <= t < i && 0 <= j2 < pf.points@[t].sols@.len() ==> sol_passes(
                inst,
                pf.points@[t],
                j2,
            ),
        forall|j2: int| 0 <= j2 < j ==> sol_passes(inst, pf.points@[i], j2),
        !inst.hard_sat(pf.points@[i].sols@[j]@),
    ensures
        check_pf_spec(inst, pf) == Some(Problem::UnsatSol(i as usize, j as usize)),
{
    let pts = pf.points@;
    lemma_points_check_step(inst, pts, 0, i);
    lemma_sols_check_step(inst, pts[i], i, 0, j);
    assert(sols_check(inst, pts[i], i, j) == Some(Problem::UnsatSol(i as usize, j as usize)));
    assert(points_check(inst, pts, i) == Some(Problem::UnsatSol(i as usize, j as usize)));
}

proof fn lemma_pairs_check_step(pts: Seq<NonDomPoint>, a0: int, b0: int, a: int, b: int)
    requires
        0 <= a0 < b0,
        a0 <= a < b,
        a < pts.len(),
        b <= pts.len(),
        a > a0 || b >= b0,
        forall|a2: int, b2: int|
            a0 <= a2 < b2 < pts.len() && (a2 > a0 || b2 >= b0) && (a2 < a || (a2 == a && b2 < b))
                ==> relation_spec(pts[a2].costs@, pts[b2].costs@) == Relation::Incomparable,
    ensures
        pairs_check(pts, a0, b0) == pairs_check(pts, a, b),
    decreases pts.len() - a0, pts.len() - b0,
{
    if a0 == a && b0 == b {
    } else if b0 >= pts.len() {
        lemma_pairs_check_step(pts, a0 + 1, a0 + 2, a, b);
    } else {
        assert(relation_spec(pts[a0].costs@, pts[b0].costs@) == Relation::Incomparable);
        lemma_pairs_check_step(pts, a0, b0 + 1, a, b);
    }
}

/// A front whose solution phase is clean and whose first non-incomparable
/// pair, in scan order, is a pair of equal cost vectors is rejected by the
/// self-check with exactly `Repeated` at that pair.
pub proof fn lemma_repeated_reported(inst: Instance, pf: ParetoFront, i1: int, i2: int)
    requires
        points_check(inst, pf.points@, 0) is None,
        0 <= i1 < i2 < pf.points@.len(),
        pf.points@[i1].costs@ == pf.points@[i2].costs@,
        forall|a: int, b: int|
            0 <= a < b < pf.points@.len() && (a < i1 || (a == i1 && b < i2)) ==> relation_spec(
                pf.points@[a].costs@,
                pf.points@[b].costs@,
            ) == Relation::Incomparable,
    ensures
        check_pf_spec(inst, pf) == Some(Problem::Repeated(i1 as usize, i2 as usize)),
{
    let pts = pf.points@;
    lemma_pairs_check_step(pts, 0, 1, i1, i2);
    assert(relation_spec(pts[i1].costs@, pts[i2].costs@) == Relation::Equal);
    assert(pairs_check(pts, i1, i2) == Some(Problem::Repeated(i1 as usize, i2 as usize)));
}

proof fn lemma_max_len_same_entries(
    pfs1: Seq<(String, ParetoFront)>,
    pfs2: Seq<(String, ParetoFront)>,
)
    requires
        forall|e: (String, ParetoFront)| pfs1.contains(e) ==> pfs2.contains(e),
        pfs1.len() > 0,
    ensures
        fronts_max_len(pfs1) <= fronts_max_len(pfs2),
{
    lemma_fronts_max_len(pfs1);
    lemma_fronts_max_len(pfs2);
    let t = choose|t: int| 0 <= t < pfs1.len() && pfs1[t].1.points@.len() == fronts_max_len(pfs1);
    assert(pfs1.contains(pfs1[t]));
    assert(pfs2.contains(pfs1[t]));
    let t2 = choose|t2: int| 0 <= t2 < pfs2.len() && pfs2[t2] == pfs1[t];
    assert(pfs2[t2].1.points@.len() <= fronts_max_len(pfs2));
}

/// Classification is stable under permutation of the solver mapping: with
/// the same solver-front pairs in any order, the same solvers are reported
/// `Short`, and every justified cross-check report stays justified.
pub proof fn lemma_permutation_stability(
    probs1: Seq<(String, Problem)>,
    probs2: Seq<(String, Problem)>,
    pfs1: Seq<(String, ParetoFront)>,
    pfs2: Seq<(String, ParetoFront)>,
    sid: String,
)
    requires
        forall|e: (String, ParetoFront)| pfs1.contains(e) <==> pfs2.contains(e),
        forall|m: int| 0 <= m < probs1.len() ==> cross_entry_ok(probs1[m], pfs1),
        forall|k: int| #![auto]
            0 <= k < pfs2.len() && pfs2[k].1.points@.len() < fronts_max_len(pfs2)
                ==> short_reported(probs2, pfs2[k].0),
        short_reported(probs1, sid),
    ensures
        short_reported(probs2, sid),
{
    let m = choose|m: int| 0 <= m < probs1.len() && probs1[m].0 == sid && probs1[m].1 is Short;
    assert(cross_entry_ok(probs1[m], pfs1));
    let k = choose|k: int|
        0 <= k < pfs1.len() && pfs1[k].0 == probs1[m].0 && pfs1[k].1.points@.len()
            < fronts_max_len(pfs1);
    assert(pfs1.contains(pfs1[k]));
    assert(pfs2.contains(pfs1[k]));
    let k2 = choose|k2: int| 0 <= k2 < pfs2.len() && pfs2[k2] == pfs1[k];
    lemma_max_len_same_entries(pfs1, pfs2);
    assert(pfs2[k2].1.points@.len() < fronts_max_len(pfs2));
}

/// Once the solution phase accepts a scan from `i`, every point at or past
/// `i` reports a cost vector of the instance's dimension.
proof fn lemma_points_check_dims(inst: Instance, pts: Seq<NonDomPoint>, i: int, k: int)
    requires
        0 <= i <= k < pts.len(),
        points_check(inst, pts, i) is None,
    ensures
        pts[k].costs@.len() == inst.objs@.len(),
    decreases k - i,
{
    if i < k {
        lemma_points_check_dims(inst, pts, i + 1, k);
    }
}

} // verus!
