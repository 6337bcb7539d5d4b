//! The instance model: literals, clauses, and multi-objective MaxSAT
//! instances, with cost evaluation of an assignment.
//!
//! An assignment is a `Vec<bool>` indexed by variable; a variable outside the
//! vector is unassigned and satisfies no literal. The cost of an assignment
//! under one objective is the sum of the weights of that objective's soft
//! clauses the assignment falsifies; an assignment that falsifies a hard
//! clause has no cost.

use vstd::prelude::*;

verus! {

/// A literal: a variable paired with a polarity (`neg` for the negated form).
#[derive(Debug, Clone, Copy, PartialEq, Eq, Structural)]
pub struct Lit {
    pub var: u32,
    pub neg: bool,
}

impl Lit {
    pub fn new(var: u32, neg: bool) -> (r: Lit)
        ensures
            r == (Lit { var, neg }),
    {
        Lit { var, neg }
    }

    /// The same variable with the opposite polarity.
    pub fn negate(self) -> (r: Lit)
        ensures
            r == (Lit { var: self.var, neg: !self.neg }),
    {
        Lit { var: self.var, neg: !self.neg }
    }
}

/// An ordered sequence of literals.
#[derive(Debug)]
pub struct Clause {
    pub lits: Vec<Lit>,
}

/// Whether the assignment `a` satisfies the literal `l`.
pub open spec fn lit_sat(a: Seq<bool>, l: Lit) -> bool {
    l.var < a.len() && a[l.var as int] != l.neg
}

/// Whether the assignment `a` satisfies some literal of the clause `cl`.
pub open spec fn clause_sat(a: Seq<bool>, cl: Seq<Lit>) -> bool {
    exists|k: int| 0 <= k < cl.len() && lit_sat(a, cl[k])
}

/// No two literals of the clause share a variable.
pub open spec fn no_dup_vars(cl: Seq<Lit>) -> bool {
    forall|i: int, j: int| 0 <= i < j < cl.len() ==> cl[i].var != cl[j].var
}

impl Clause {
    pub fn new() -> (r: Clause)
        ensures
            r.lits@ =~= Seq::<Lit>::empty(),
    {
        Clause { lits: Vec::new() }
    }

    pub fn add(&mut self, l: Lit)
        ensures
            final(self).lits@ == old(self).lits@.push(l),
    {
        self.lits.push(l);
    }

    pub fn len(&self) -> (r: usize)
        ensures
            r == self.lits@.len(),
    {
        self.lits.len()
    }

    /// Whether the assignment satisfies the clause.
    pub fn sat(&self, a: &Vec<bool>) -> (r: bool)
        ensures
            r == clause_sat(a@, self.lits@),
    {
        let mut k: usize = 0;
        while k < self.lits.len()
            invariant
                k <= self.lits@.len(),
                forall|i: int| 0 <= i < k ==> !lit_sat(a@, self.lits@[i]),
            decreases self.lits@.len() - k,
        {
            let l = self.lits[k];
            if (l.var as usize) < a.len() && a[l.var as usize] != l.neg {
                assert(lit_sat(a@, self.lits@[k as int]));
                return true;
            }
            k += 1;
        }
        false
    }
}

/// The total weight of a list of soft clauses.
pub open spec fn obj_weight_sum(obj: Seq<(u64, Clause)>) -> int
    decreases obj.len(),
{
    if obj.len() == 0 {
        0
    } else {
        obj_weight_sum(obj.drop_last()) + obj.last().0
    }
}

/// The weight of the soft clauses in `obj` that the assignment `a` falsifies.
pub open spec fn falsified_weight(a: Seq<bool>, obj: Seq<(u64, Clause)>) -> int
    decreases obj.len(),
{
    if obj.len() == 0 {
        0
    } else {
        falsified_weight(a, obj.drop_last()) + if clause_sat(a, obj.last().1.lits@) {
            0
        } else {
            obj.last().0 as int
        }
    }
}

pub proof fn lemma_falsified_bounds(a: Seq<bool>, obj: Seq<(u64, Clause)>)
    ensures
        0 <= falsified_weight(a, obj) <= obj_weight_sum(obj),
    decreases obj.len(),
{
    if obj.len() > 0 {
        lemma_falsified_bounds(a, obj.drop_last());
    }
}

pub proof fn lemma_weight_sum_take(obj: Seq<(u64, Clause)>, j: int)
    requires
        0 <= j <= obj.len(),
    ensures
        obj_weight_sum(obj.take(j)) <= obj_weight_sum(obj),
    decreases obj.len() - j,
{
    if j < obj.len() {
        assert(obj.take(j + 1).drop_last() =~= obj.take(j));
        assert(obj.take(j + 1).last() == obj[j]);
        lemma_weight_sum_take(obj, j + 1);
        assert(obj_weight_sum(obj.take(j)) <= obj_weight_sum(obj.take(j + 1)));
    } else {
        assert(obj.take(j) =~= obj);
    }
}

/// A multi-objective instance: hard clauses plus one soft-clause list per
/// objective. `sums` caches the total soft weight of each objective.
#[derive(Debug)]
pub struct Instance {
    pub hard: Vec<Clause>,
    pub objs: Vec<Vec<(u64, Clause)>>,
    pub sums: Vec<u64>,
}

impl Instance {
    /// Structural invariant: the cached sums match the objectives, and every
    /// objective's total soft weight stays below the cost ceiling, so cost
    /// vectors fit in `i64`.
    pub open spec fn wf(&self) -> bool {
        &&& self.sums@.len() == self.objs@.len()
        &&& forall|o: int|
            0 <= o < self.objs@.len() ==> self.sums@[o] == obj_weight_sum(self.objs@[o]@)
        &&& forall|o: int| 0 <= o < self.objs@.len() ==> obj_weight_sum(self.objs@[o]@) <= i64::MAX
    }

    /// Whether the assignment satisfies every hard clause.
    pub open spec fn hard_sat(&self, a: Seq<bool>) -> bool {
        forall|k: int| 0 <= k < self.hard@.len() ==> clause_sat(a, self.hard@[k].lits@)
    }

    /// An instance with `n_objs` objectives and no clauses yet.
    pub fn new(n_objs: usize) -> (r: Instance)
        ensures
            r.wf(),
            r.hard@.len() == 0,
            r.objs@.len() == n_objs,
            forall|o: int| 0 <= o < n_objs ==> r.objs@[o]@.len() == 0,
    {
        let mut objs: Vec<Vec<(u64, Clause)>> = Vec::new();
        let mut sums: Vec<u64> = Vec::new();
        let mut i: usize = 0;
        while i < n_objs
            invariant
                i <= n_objs,
                objs@.len() == i,
                sums@.len() == i,
                forall|o: int| 0 <= o < i ==> objs@[o]@.len() == 0,
                forall|o: int| 0 <= o < i ==> sums@[o] == 0u64,
            decreases n_objs - i,
        {
            objs.push(Vec::new());
            sums.push(0);
            i += 1;
        }
        Instance { hard: Vec::new(), objs, sums }
    }

    pub fn n_objectives(&self) -> (r: usize)
        ensures
            r == self.objs@.len(),
    {
        self.objs.len()
    }

    pub fn add_hard(&mut self, cl: Clause)
        ensures
            final(self).hard@ == old(self).hard@.push(cl),
            final(self).objs@ == old(self).objs@,
            final(self).sums@ == old(self).sums@,
            old(self).wf() ==> final(self).wf(),
    {
        self.hard.push(cl);
    }

    /// Adds a soft clause with weight `w` to objective `o` if the objective's
    /// total weight stays within the cost ceiling; reports whether it did.
    pub fn try_add_soft(&mut self, o: usize, w: u64, cl: Clause) -> (r: bool)
        requires
            old(self).wf(),
            o < old(self).objs@.len(),
        ensures
            final(self).wf(),
            r == (obj_weight_sum(old(self).objs@[o as int]@) + w <= i64::MAX),
            r ==> final(self).objs@[o as int]@ == old(self).objs@[o as int]@.push((w, cl)),
            r ==> forall|i: int|
                0 <= i < old(self).objs@.len() && i != o ==> final(self).objs@[i] == old(
                    self,
                ).objs@[i],
            !r ==> final(self).objs@ == old(self).objs@,
            final(self).hard@ == old(self).hard@,
            final(self).objs@.len() == old(self).objs@.len(),
    {
        let ceiling: u64 = 0x7fff_ffff_ffff_ffff;
        assert(ceiling == i64::MAX);
        assert(self.sums@[o as int] == obj_weight_sum(self.objs@[o as int]@));
        if w <= ceiling && self.sums[o] <= ceiling - w {
            let ghost old_obj = self.objs@[o as int]@;
            let obj = &mut self.objs[o];
            obj.push((w, cl));
            proof {
                assert(self.objs@[o as int]@.drop_last() =~= old_obj);
            }
            self.sums[o] = self.sums[o] + w;
            true
        } else {
            false
        }
    }

    /// The per-objective cost of an assignment, or `None` when it falsifies a
    /// hard clause.
    pub fn cost(&self, a: &Vec<bool>) -> (r: Option<Vec<i64>>)
        requires
            self.wf(),
        ensures
            r is None <==> !self.hard_sat(a@),
            r matches Some(c) ==> c@.len() == self.objs@.len() && forall|o: int|
                0 <= o < self.objs@.len() ==> c@[o] == falsified_weight(a@, self.objs@[o]@),
    {
        let mut k: usize = 0;
        while k < self.hard.len()
            invariant
                k <= self.hard@.len(),
                forall|i: int| 0 <= i < k ==> clause_sat(a@, self.hard@[i].lits@),
            decreases self.hard@.len() - k,
        {
            if !self.hard[k].sat(a) {
                return None;
            }
            k += 1;
        }
        let mut costs: Vec<i64> = Vec::new();
        let mut o: usize = 0;
        while o < self.objs.len()
            invariant
                self.wf(),
                o <= self.objs@.len(),
                costs@.len() == o,
                forall|i: int| 0 <= i < o ==> costs@[i] == falsified_weight(a@, self.objs@[i]@),
            decreases self.objs@.len() - o,
        {
            let obj = &self.objs[o];
            let ghost objseq = obj@;
            let mut acc: u64 = 0;
            let mut j: usize = 0;
            while j < obj.len()
                invariant
                    j <= objseq.len(),
                    obj@ == objseq,
                    acc == falsified_weight(a@, objseq.take(j as int)),
                    obj_weight_sum(objseq) <= i64::MAX,
                decreases objseq.len() - j,
            {
                proof {
                    assert(objseq.take(j + 1).drop_last() =~= objseq.take(j as int));
                    assert(objseq.take(j + 1).last() == objseq[j as int]);
                    lemma_falsified_bounds(a@, objseq.take(j + 1));
                    lemma_weight_sum_take(objseq, j + 1);
                }
                if !obj[j].1.sat(a) {
                    acc = acc + obj[j].0;
                }
                j += 1;
            }
            proof {
                assert(objseq.take(j as int) =~= objseq);
                lemma_falsified_bounds(a@, objseq);
            }
            costs.push(acc as i64);
            o += 1;
        }
        Some(costs)
    }
}

} // verus!
