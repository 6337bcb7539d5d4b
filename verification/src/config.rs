//! Configuration of the fuzzer: execution, instance generation, solvers, and
//! the reserved minimization passes.
//!
//! Probabilities are rationals (`num / den`), so that the weighted coin of
//! the random source can be sampled exactly.

use vstd::prelude::*;

verus! {

/// A probability `num / den`.
#[derive(Debug, Clone, Copy, PartialEq, Eq, Structural)]
pub struct Prob {
    pub num: u32,
    pub den: u32,
}

impl Prob {
    pub open spec fn wf(&self) -> bool {
        1 <= self.den && self.num <= self.den
    }
}

/// A range to draw random values from.
#[derive(Debug, Clone, Copy, PartialEq, Eq, Structural)]
pub struct U8Range {
    pub min: u8,
    pub max: u8,
}

/// A range to draw random values from.
#[derive(Debug, Clone, Copy, PartialEq, Eq, Structural)]
pub struct U64Range {
    pub min: u64,
    pub max: u64,
}

/// A range with a random max value.
#[derive(Debug, Clone, Copy, PartialEq, Eq, Structural)]
pub struct U8RandomMaxRange {
    pub min: u8,
    pub max: U8Range,
}

/// A count that is zero with a certain probability and drawn from a range
/// otherwise.
#[derive(Debug, Clone, Copy, PartialEq, Eq, Structural)]
pub struct U8ProbRange {
    pub zero_prob: Prob,
    pub min: u8,
    pub max: u8,
}

/// A random value range with a divisor associated with it.
#[derive(Debug, Clone, Copy, PartialEq, Eq, Structural)]
pub struct U8DivRange {
    pub min: u8,
    pub max: u8,
    pub div: u8,
}

/// Configuration of the structured instance generator.
#[derive(Debug)]
pub struct InstConfig {
    pub seed: Option<u64>,
    pub objectives: U8Range,
    pub layers: U8Range,
    pub layer_width: U8RandomMaxRange,
    pub layer_clauses: U8DivRange,
    pub equalities: U8ProbRange,
    pub ands: U8ProbRange,
    pub xors3: U8ProbRange,
    pub xors4: U8ProbRange,
    pub max_weight: Vec<U64Range>,
}

impl InstConfig {
    /// A well-formed configuration: every range is non-empty, layers are wide
    /// enough to fill a shortest clause, the divisor is positive, and at
    /// least one weight variant with an upper bound of at least two exists.
    pub open spec fn wf(&self) -> bool {
        &&& self.objectives.min <= self.objectives.max
        &&& 1 <= self.layers.min <= self.layers.max
        &&& 2 <= self.layer_width.min <= self.layer_width.max.min <= self.layer_width.max.max
        &&& self.layer_clauses.min <= self.layer_clauses.max
        &&& 1 <= self.layer_clauses.div
        &&& self.equalities.min <= self.equalities.max && self.equalities.zero_prob.wf()
        &&& self.ands.min <= self.ands.max && self.ands.zero_prob.wf()
        &&& self.xors3.min <= self.xors3.max && self.xors3.zero_prob.wf()
        &&& self.xors4.min <= self.xors4.max && self.xors4.zero_prob.wf()
        &&& 1 <= self.max_weight@.len()
        &&& forall|v: int| #![trigger self.max_weight@[v]]
            0 <= v < self.max_weight@.len() ==> 2 <= self.max_weight@[v].min
                <= self.max_weight@[v].max
    }

    /// Checks well-formedness at run time, for configurations read from a
    /// file.
    pub fn check_wf(&self) -> (r: bool)
        ensures
            r == self.wf(),
    {
        let scalar = self.objectives.min <= self.objectives.max && 1 <= self.layers.min
            && self.layers.min <= self.layers.max && 2 <= self.layer_width.min
            && self.layer_width.min <= self.layer_width.max.min
            && self.layer_width.max.min <= self.layer_width.max.max
            && self.layer_clauses.min <= self.layer_clauses.max && 1 <= self.layer_clauses.div
            && self.equalities.min <= self.equalities.max && 1 <= self.equalities.zero_prob.den
            && self.equalities.zero_prob.num <= self.equalities.zero_prob.den
            && self.ands.min <= self.ands.max && 1 <= self.ands.zero_prob.den
            && self.ands.zero_prob.num <= self.ands.zero_prob.den && self.xors3.min
            <= self.xors3.max && 1 <= self.xors3.zero_prob.den && self.xors3.zero_prob.num
            <= self.xors3.zero_prob.den && self.xors4.min <= self.xors4.max
            && 1 <= self.xors4.zero_prob.den && self.xors4.zero_prob.num
            <= self.xors4.zero_prob.den && 1 <= self.max_weight.len();
        if !scalar {
            return false;
        }
        let mut v: usize = 0;
        while v < self.max_weight.len()
            invariant
                v <= self.max_weight@.len(),
                forall|t: int| #![trigger self.max_weight@[t]]
                    0 <= t < v ==> 2 <= self.max_weight@[t].min <= self.max_weight@[t].max,
            decreases self.max_weight@.len() - v,
        {
            if !(2 <= self.max_weight[v].min && self.max_weight[v].min <= self.max_weight[v].max) {
                return false;
            }
            v += 1;
        }
        true
    }

    pub fn objs(&self) -> (r: (u8, u8))
        ensures
            r == (self.objectives.min, self.objectives.max),
    {
        (self.objectives.min, self.objectives.max)
    }

    pub fn layers(&self) -> (r: (u8, u8))
        ensures
            r == (self.layers.min, self.layers.max),
    {
        (self.layers.min, self.layers.max)
    }

    pub fn max_layer_width(&self) -> (r: (u8, u8))
        ensures
            r == (self.layer_width.max.min, self.layer_width.max.max),
    {
        (self.layer_width.max.min, self.layer_width.max.max)
    }

    pub fn min_layer_width(&self) -> (r: u8)
        ensures
            r == self.layer_width.min,
    {
        self.layer_width.min
    }

    pub fn layer_clauses(&self) -> (r: (u8, u8))
        ensures
            r == (self.layer_clauses.min, self.layer_clauses.max),
    {
        (self.layer_clauses.min, self.layer_clauses.max)
    }

    pub fn layer_clauses_div(&self) -> (r: u8)
        ensures
            r == self.layer_clauses.div,
    {
        self.layer_clauses.div
    }

    pub fn eqs_range(&self) -> (r: (u8, u8))
        ensures
            r == (self.equalities.min, self.equalities.max),
    {
        (self.equalities.min, self.equalities.max)
    }

    pub fn eqs_nonzero_prob(&self) -> (r: Prob)
        requires
            self.equalities.zero_prob.wf(),
        ensures
            r.den == self.equalities.zero_prob.den,
            r.num == self.equalities.zero_prob.den - self.equalities.zero_prob.num,
    {
        Prob {
            num: self.equalities.zero_prob.den - self.equalities.zero_prob.num,
            den: self.equalities.zero_prob.den,
        }
    }

    pub fn ands_range(&self) -> (r: (u8, u8))
        ensures
            r == (self.ands.min, self.ands.max),
    {
        (self.ands.min, self.ands.max)
    }

    pub fn ands_nonzero_prob(&self) -> (r: Prob)
        requires
            self.ands.zero_prob.wf(),
        ensures
            r.den == self.ands.zero_prob.den,
            r.num == self.ands.zero_prob.den - self.ands.zero_prob.num,
    {
        Prob { num: self.ands.zero_prob.den - self.ands.zero_prob.num, den: self.ands.zero_prob.den }
    }

    pub fn xors3_range(&self) -> (r: (u8, u8))
        ensures
            r == (self.xors3.min, self.xors3.max),
    {
        (self.xors3.min, self.xors3.max)
    }

    pub fn xors3_nonzero_prob(&self) -> (r: Prob)
        requires
            self.xors3.zero_prob.wf(),
        ensures
            r.den == self.xors3.zero_prob.den,
            r.num == self.xors3.zero_prob.den - self.xors3.zero_prob.num,
    {
        Prob {
            num: self.xors3.zero_prob.den - self.xors3.zero_prob.num,
            den: self.xors3.zero_prob.den,
        }
    }

    pub fn xors4_range(&self) -> (r: (u8, u8))
        ensures
            r == (self.xors4.min, self.xors4.max),
    {
        (self.xors4.min, self.xors4.max)
    }

    pub fn xors4_nonzero_prob(&self) -> (r: Prob)
        requires
            self.xors4.zero_prob.wf(),
        ensures
            r.den == self.xors4.zero_prob.den,
            r.num == self.xors4.zero_prob.den - self.xors4.zero_prob.num,
    {
        Prob {
            num: self.xors4.zero_prob.den - self.xors4.zero_prob.num,
            den: self.xors4.zero_prob.den,
        }
    }

    pub fn max_weight_variants(&self) -> (r: usize)
        ensures
            r == self.max_weight@.len(),
    {
        self.max_weight.len()
    }

    pub fn max_weight(&self, variant: usize) -> (r: (u64, u64))
        requires
            variant < self.max_weight@.len(),
        ensures
            r == (self.max_weight@[variant as int].min, self.max_weight@[variant as int].max),
    {
        (self.max_weight[variant].min, self.max_weight[variant].max)
    }

    pub fn set_max_objs(&mut self, max_objs: u8)
        ensures
            *final(self) == (InstConfig {
                objectives: U8Range { max: max_objs, ..old(self).objectives },
                ..*old(self)
            }),
    {
        self.objectives.max = max_objs;
    }

    pub fn set_min_objs(&mut self, min_objs: u8)
        ensures
            *final(self) == (InstConfig {
                objectives: U8Range { min: min_objs, ..old(self).objectives },
                ..*old(self)
            }),
    {
        self.objectives.min = min_objs;
    }

    pub fn set_max_layers(&mut self, max_layers: u8)
        ensures
            *final(self) == (InstConfig {
                layers: U8Range { max: max_layers, ..old(self).layers },
                ..*old(self)
            }),
    {
        self.layers.max = max_layers;
    }

    pub fn set_min_layers(&mut self, min_layers: u8)
        ensures
            *final(self) == (InstConfig {
                layers: U8Range { min: min_layers, ..old(self).layers },
                ..*old(self)
            }),
    {
        self.layers.min = min_layers;
    }
}

/// Execution options: how many worker threads the oracle may use.
#[derive(Debug, Clone, Copy, PartialEq, Eq, Structural)]
pub struct ExecConfig {
    pub n_workers: u8,
}

/// The solver back-ends the oracle can drive.
#[derive(Debug, Clone, Copy, PartialEq, Eq, Structural)]
pub enum ScuttleConfig {
    /// Default p-minimal algorithm.
    PMinimal,
    /// Core-boosted p-minimal algorithm.
    CoreBoostedPMinimal,
    /// BiOptSat(-SU) with GTE.
    BiOptSatGte,
    /// BiOptSat(-SU) with DPW.
    BiOptSatDpw,
    /// Lower-bounding algorithm.
    LowerBounding,
}

/// A tagged solver choice.
#[derive(Debug, Clone, Copy, PartialEq, Eq, Structural)]
pub enum SolverConfig {
    Scuttle(ScuttleConfig),
}

/// Switches of the reserved instance-minimization passes.
#[derive(Debug, Clone, Copy, PartialEq, Eq, Structural)]
pub struct MinimizeConfig {
    pub max_rounds: u8,
    pub min_clauses: Option<bool>,
    pub min_literals: Option<bool>,
    pub min_variables: Option<bool>,
    pub soft_to_hard: Option<bool>,
    pub remove_objectives: Option<bool>,
    pub weight_to_one: Option<bool>,
    pub weight_binary_search: Option<bool>,
    pub shuffle_clauses: Option<bool>,
    pub shuffle_literals: Option<bool>,
    pub rename_variable: Option<bool>,
}

/// A configuration document: each section is optional until a command needs
/// it.
#[derive(Debug)]
pub struct Config {
    pub execution: Option<ExecConfig>,
    pub instances: Option<InstConfig>,
    pub solvers: Option<Vec<(String, SolverConfig)>>,
    pub minimization: Option<MinimizeConfig>,
}

/// Everything the fuzz driver needs.
#[derive(Debug)]
pub struct FuzzConfig {
    pub execution: ExecConfig,
    pub instances: InstConfig,
    pub solvers: Vec<(String, SolverConfig)>,
    pub minimization: Option<MinimizeConfig>,
}

impl FuzzConfig {
    /// Demands the `execution`, `instances` and `solvers` sections.
    pub fn try_from(value: Config) -> (r: Result<FuzzConfig, &'static str>)
        ensures
            value.execution is None ==> (r matches Err(e) && e@ == "missing execution block in config"@),
            value.execution is Some && value.instances is None ==> (r matches Err(e) && e@
                == "missing instances block in config"@),
            value.execution is Some && value.instances is Some && value.solvers is None ==> (r
                matches Err(e) && e@ == "missing solvers block in config"@),
            value.execution is Some && value.instances is Some && value.solvers is Some ==> (r
                matches Ok(f) && f.execution == value.execution.unwrap() && f.instances
                == value.instances.unwrap() && f.solvers == value.solvers.unwrap()
                && f.minimization == value.minimization),
    {
        if value.execution.is_none() {
            return Err("missing execution block in config");
        }
        if value.instances.is_none() {
            return Err("missing instances block in config");
        }
        if value.solvers.is_none() {
            return Err("missing solvers block in config");
        }
        let Config { execution, instances, solvers, minimization } = value;
        Ok(FuzzConfig {
            execution: execution.unwrap(),
            instances: instances.unwrap(),
            solvers: solvers.unwrap(),
            minimization,
        })
    }
}

/// Everything the evaluate command needs.
#[derive(Debug)]
pub struct EvalConfig {
    pub execution: ExecConfig,
    pub solvers: Vec<(String, SolverConfig)>,
}

impl EvalConfig {
    /// Demands the `solvers` and `execution` sections.
    pub fn try_from(value: Config) -> (r: Result<EvalConfig, &'static str>)
        ensures
            value.solvers is None ==> (r matches Err(e) && e@ == "missing solvers block in config"@),
            value.solvers is Some && value.execution is None ==> (r matches Err(e) && e@
                == "missing execution block in config"@),
            value.solvers is Some && value.execution is Some ==> (r matches Ok(f) && f.execution
                == value.execution.unwrap() && f.solvers == value.solvers.unwrap()),
    {
        if value.solvers.is_none() {
            return Err("missing solvers block in config");
        }
        if value.execution.is_none() {
            return Err("missing execution block in config");
        }
        let Config { execution, solvers, .. } = value;
        Ok(EvalConfig { execution: execution.unwrap(), solvers: solvers.unwrap() })
    }
}

impl InstConfig {
    /// Demands the `instances` section.
    pub fn try_from(value: Config) -> (r: Result<InstConfig, &'static str>)
        ensures
            value.instances is None ==> (r matches Err(e) && e@ == "missing instances block"@),
            value.instances is Some ==> (r matches Ok(c) && c == value.instances.unwrap()),
    {
        match value.instances {
            None => Err("missing instances block"),
            Some(c) => Ok(c),
        }
    }
}

impl MinimizeConfig {
    /// Demands the `minimization` section.
    pub fn try_from(value: Config) -> (r: Result<MinimizeConfig, &'static str>)
        ensures
            value.minimization is None ==> (r matches Err(e) && e@ == "missing minimization block"@),
            value.minimization is Some ==> (r matches Ok(c) && c == value.minimization.unwrap()),
    {
        match value.minimization {
            None => Err("missing minimization block"),
            Some(c) => Ok(c),
        }
    }
}

} // verus!
