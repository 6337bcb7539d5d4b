//! Tests of the Pareto-front oracle: the per-front self-check, the length
//! filter, the joint non-dominance cross-check, and panic isolation.

use fazzer::eval::{check_relation, compare, NonDomPoint, ParetoFront, Relation, SolverOutcome};
use fazzer::inst::{Clause, Instance, Lit};
use fazzer::Problem;

fn point(costs: Vec<i64>) -> NonDomPoint {
    NonDomPoint { costs, sols: vec![] }
}

fn front(costs: Vec<Vec<i64>>) -> ParetoFront {
    ParetoFront { points: costs.into_iter().map(point).collect() }
}

fn outcome(costs: Vec<Vec<i64>>) -> SolverOutcome {
    SolverOutcome::Front(front(costs))
}

/// An instance with the given number of objectives and no clauses: every
/// assignment has cost zero everywhere.
fn empty_instance(n_objs: usize) -> Instance {
    Instance::new(n_objs)
}

#[test]
fn relation_classification() {
    assert_eq!(check_relation(&vec![1, 2], &vec![1, 2]), Relation::Equal);
    assert_eq!(check_relation(&vec![1, 2], &vec![2, 2]), Relation::FirstDominates);
    assert_eq!(check_relation(&vec![3, 2], &vec![2, 2]), Relation::SecondDominates);
    assert_eq!(check_relation(&vec![1, 3], &vec![3, 1]), Relation::Incomparable);
    assert_eq!(check_relation(&vec![], &vec![]), Relation::Equal);
}

/// A single solver whose front passes the self-check: no problems.
#[test]
fn single_valid_solver_clean() {
    let inst = empty_instance(2);
    let probs = compare(
        &inst,
        vec![("only".to_string(), outcome(vec![vec![0, 0]]))],
    );
    assert!(probs.is_empty());
}

/// Zero solvers: no problems.
#[test]
fn no_solvers_clean() {
    let inst = empty_instance(0);
    let probs = compare(&inst, vec![]);
    assert!(probs.is_empty());
}

/// A solver returning the empty front next to another empty front: clean.
#[test]
fn empty_fronts_clean() {
    let inst = empty_instance(2);
    let probs = compare(
        &inst,
        vec![
            ("a".to_string(), outcome(vec![])),
            ("b".to_string(), outcome(vec![])),
        ],
    );
    assert!(probs.is_empty());
}

/// A point with a cost vector of the wrong length is reported, and the
/// valid solver stays unflagged.
#[test]
fn wrong_dimension_detected() {
    let inst = empty_instance(2);
    let probs = compare(
        &inst,
        vec![
            ("reference".to_string(), outcome(vec![vec![1, 3], vec![3, 1]])),
            ("buggy".to_string(), outcome(vec![vec![1]])),
        ],
    );
    assert_eq!(probs.len(), 1);
    assert_eq!(probs[0].0, "buggy");
    assert!(matches!(probs[0].1, Problem::WrongDimension(0)));
}

/// A dominated point is charged to the solver that returned it.
#[test]
fn other_dominated_detected() {
    let inst = empty_instance(2);
    let probs = compare(
        &inst,
        vec![
            ("reference".to_string(), outcome(vec![vec![1, 3], vec![3, 1]])),
            ("buggy".to_string(), outcome(vec![vec![2, 3], vec![3, 1]])),
        ],
    );
    assert_eq!(probs.len(), 1);
    assert_eq!(probs[0].0, "buggy");
    assert!(matches!(probs[0].1, Problem::OtherDominated(0)));
}

/// Classification is stable under permutation of the solver mapping.
#[test]
fn classification_permutation_stable() {
    let inst = empty_instance(2);
    let probs = compare(
        &inst,
        vec![
            ("buggy".to_string(), outcome(vec![vec![2, 3], vec![3, 1]])),
            ("reference".to_string(), outcome(vec![vec![1, 3], vec![3, 1]])),
        ],
    );
    assert_eq!(probs.len(), 1);
    assert_eq!(probs[0].0, "buggy");
    assert!(matches!(probs[0].1, Problem::OtherDominated(0)));
}

/// A shorter front is reported `Short` and takes no part in the cross-check.
#[test]
fn short_detected() {
    let inst = empty_instance(2);
    let probs = compare(
        &inst,
        vec![
            ("reference".to_string(), outcome(vec![vec![1, 3], vec![3, 1]])),
            ("buggy".to_string(), outcome(vec![vec![1, 3]])),
        ],
    );
    assert_eq!(probs.len(), 1);
    assert_eq!(probs[0].0, "buggy");
    assert!(matches!(probs[0].1, Problem::Short));
}

/// Solvers that return the same set of cost vectors, in any order, raise no
/// problems.
#[test]
fn equal_fronts_clean() {
    let inst = empty_instance(2);
    let probs = compare(
        &inst,
        vec![
            ("a".to_string(), outcome(vec![vec![1, 3], vec![3, 1]])),
            ("b".to_string(), outcome(vec![vec![3, 1], vec![1, 3]])),
            ("c".to_string(), outcome(vec![vec![1, 3], vec![3, 1]])),
        ],
    );
    assert!(probs.is_empty());
}

/// A panicking solver is reported `Panic`; the others are still checked
/// among themselves.
#[test]
fn panic_isolated() {
    let inst = empty_instance(2);
    let probs = compare(
        &inst,
        vec![
            ("dead".to_string(), SolverOutcome::Panicked),
            ("a".to_string(), outcome(vec![vec![1, 3], vec![3, 1]])),
            ("b".to_string(), outcome(vec![vec![1, 3], vec![3, 1]])),
        ],
    );
    assert_eq!(probs.len(), 1);
    assert_eq!(probs[0].0, "dead");
    assert!(matches!(probs[0].1, Problem::Panic));
}

/// Two equal cost vectors within one front are reported `Repeated`.
#[test]
fn repeated_detected() {
    let inst = empty_instance(2);
    let probs = compare(
        &inst,
        vec![("dup".to_string(), outcome(vec![vec![1, 2], vec![1, 2]]))],
    );
    assert_eq!(probs.len(), 1);
    assert_eq!(probs[0].0, "dup");
    assert!(matches!(probs[0].1, Problem::Repeated(0, 1)));
}

/// A point that dominates another of the same front is reported.
#[test]
fn self_dominated_detected() {
    let inst = empty_instance(2);
    let probs = compare(
        &inst,
        vec![("bad".to_string(), outcome(vec![vec![1, 2], vec![1, 3]]))],
    );
    assert_eq!(probs.len(), 1);
    assert!(matches!(probs[0].1, Problem::SelfDominated(1)));
}

/// A witness that falsifies a hard clause is reported `UnsatSol` before any
/// cross-check.
#[test]
fn unsat_witness_detected() {
    let mut inst = Instance::new(1);
    inst.add_hard(Clause { lits: vec![Lit { var: 0, neg: false }] });
    let pf = ParetoFront {
        points: vec![NonDomPoint { costs: vec![0], sols: vec![vec![false]] }],
    };
    let probs = compare(
        &inst,
        vec![
            ("bad".to_string(), SolverOutcome::Front(pf)),
            ("good".to_string(), outcome(vec![vec![0]])),
        ],
    );
    assert_eq!(probs.len(), 1);
    assert_eq!(probs[0].0, "bad");
    assert!(matches!(probs[0].1, Problem::UnsatSol(0, 0)));
}

/// A witness whose recomputed cost differs from the reported one is
/// reported `CostMismatch`.
#[test]
fn cost_mismatch_detected() {
    let mut inst = Instance::new(1);
    // One soft clause of weight three on the sole objective: x0 must hold.
    let added = inst.try_add_soft(0, 3, Clause { lits: vec![Lit { var: 0, neg: false }] });
    assert!(added);
    let pf = ParetoFront {
        // The witness falsifies the soft clause, so its cost is three, not
        // five.
        points: vec![NonDomPoint { costs: vec![5], sols: vec![vec![false]] }],
    };
    let probs = compare(&inst, vec![("bad".to_string(), SolverOutcome::Front(pf))]);
    assert_eq!(probs.len(), 1);
    assert!(matches!(probs[0].1, Problem::CostMismatch(0, 0)));
}

/// Cost evaluation: the weights of falsified soft clauses add up per
/// objective, and a falsified hard clause voids the assignment.
#[test]
fn cost_evaluation_exact() {
    let mut inst = Instance::new(2);
    inst.add_hard(Clause { lits: vec![Lit { var: 0, neg: false }, Lit { var: 1, neg: false }] });
    assert!(inst.try_add_soft(0, 2, Clause { lits: vec![Lit { var: 0, neg: true }] }));
    assert!(inst.try_add_soft(0, 3, Clause { lits: vec![Lit { var: 1, neg: true }] }));
    assert!(inst.try_add_soft(1, 7, Clause { lits: vec![Lit { var: 1, neg: false }] }));
    // x0 true, x1 true: hard satisfied; both objective-0 softs falsified.
    assert_eq!(inst.cost(&vec![true, true]), Some(vec![5, 0]));
    // x0 true, x1 false: one objective-0 soft and the objective-1 soft
    // falsified.
    assert_eq!(inst.cost(&vec![true, false]), Some(vec![2, 7]));
    // Both false: the hard clause is falsified.
    assert_eq!(inst.cost(&vec![false, false]), None);
}

/// The soft-weight ceiling: an addition that would push an objective past
/// 2^63 - 1 is refused and leaves the instance unchanged.
#[test]
fn soft_weight_ceiling() {
    let mut inst = Instance::new(1);
    assert!(inst.try_add_soft(0, i64::MAX as u64, Clause { lits: vec![] }));
    assert!(!inst.try_add_soft(0, 1, Clause { lits: vec![] }));
    assert_eq!(inst.objs[0].len(), 1);
}

/// Fronts of equal length whose sets differ need not raise a problem when no
/// point of one dominates a point of the other.
#[test]
fn equal_length_incomparable_sets_clean() {
    let inst = empty_instance(2);
    let probs = compare(
        &inst,
        vec![
            ("a".to_string(), outcome(vec![vec![1, 3], vec![3, 1]])),
            ("b".to_string(), outcome(vec![vec![1, 3], vec![2, 2]])),
        ],
    );
    assert!(probs.is_empty());
}

/// A front of full length that omits a dominated point another solver holds
/// stays unflagged; the solver holding the dominated point is the one
/// reported.
#[test]
fn omitting_dominated_point_clean() {
    let inst = empty_instance(2);
    let probs = compare(
        &inst,
        vec![
            ("omits".to_string(), outcome(vec![vec![1, 3], vec![3, 1]])),
            ("holds".to_string(), outcome(vec![vec![1, 3], vec![4, 1]])),
        ],
    );
    assert_eq!(probs.len(), 1);
    assert_eq!(probs[0].0, "holds");
    assert!(matches!(probs[0].1, Problem::OtherDominated(1)));
}

/// Every solver is reported at most once, whatever mix of problems the
/// outcomes hold, and each report names a supplied solver.
#[test]
fn one_report_per_solver() {
    let inst = empty_instance(2);
    let names = ["dead", "good", "short", "dominated"];
    let probs = compare(
        &inst,
        vec![
            ("dead".to_string(), SolverOutcome::Panicked),
            ("good".to_string(), outcome(vec![vec![1, 3], vec![3, 1]])),
            ("short".to_string(), outcome(vec![vec![2, 3]])),
            ("dominated".to_string(), outcome(vec![vec![2, 3], vec![3, 1]])),
        ],
    );
    for i in 0..probs.len() {
        assert!(names.contains(&probs[i].0.as_str()));
        for j in i + 1..probs.len() {
            assert_ne!(probs[i].0, probs[j].0);
        }
    }
    assert_eq!(probs.len(), 3);
    assert!(probs.iter().any(|p| p.0 == "dead" && matches!(p.1, Problem::Panic)));
    assert!(probs.iter().any(|p| p.0 == "short" && matches!(p.1, Problem::Short)));
    assert!(probs
        .iter()
        .any(|p| p.0 == "dominated" && matches!(p.1, Problem::OtherDominated(0))));
    assert!(!probs.iter().any(|p| p.0 == "good"));
}

/// A single solver returning the empty front on an instance without
/// objectives: no problems.
#[test]
fn trivial_solver_empty_front_clean() {
    let inst = empty_instance(0);
    let probs = compare(&inst, vec![("trivial".to_string(), outcome(vec![]))]);
    assert!(probs.is_empty());
}
