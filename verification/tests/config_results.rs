//! Tests of configuration handling, file-format inference, the random
//! source, and the fuzzing-result aggregation.

use fazzer::cli::{infer_format, FileFormat};
use fazzer::config::{
    Config, EvalConfig, ExecConfig, FuzzConfig, InstConfig, MinimizeConfig, Prob, ScuttleConfig,
    SolverConfig, U64Range, U8DivRange, U8ProbRange, U8RandomMaxRange, U8Range,
};
use fazzer::fuzz::{draw_instance_seed, FuzzResult};
use fazzer::rng::Rng;
use fazzer::Problem;

fn inst_config() -> InstConfig {
    InstConfig {
        seed: Some(1),
        objectives: U8Range { min: 0, max: 2 },
        layers: U8Range { min: 2, max: 5 },
        layer_width: U8RandomMaxRange { min: 5, max: U8Range { min: 5, max: 10 } },
        layer_clauses: U8DivRange { min: 100, max: 250, div: 100 },
        equalities: U8ProbRange { zero_prob: Prob { num: 2, den: 3 }, min: 0, max: 31 },
        ands: U8ProbRange { zero_prob: Prob { num: 1, den: 2 }, min: 0, max: 31 },
        xors3: U8ProbRange { zero_prob: Prob { num: 3, den: 4 }, min: 0, max: 16 },
        xors4: U8ProbRange { zero_prob: Prob { num: 4, den: 5 }, min: 0, max: 12 },
        max_weight: vec![U64Range { min: 2, max: 33 }],
    }
}

fn full_config() -> Config {
    Config {
        execution: Some(ExecConfig { n_workers: 2 }),
        instances: Some(inst_config()),
        solvers: Some(vec![(
            "pmin".to_string(),
            SolverConfig::Scuttle(ScuttleConfig::PMinimal),
        )]),
        minimization: None,
    }
}

#[test]
fn fuzz_config_requires_sections() {
    let mut c = full_config();
    c.execution = None;
    assert_eq!(FuzzConfig::try_from(c).err(), Some("missing execution block in config"));
    let mut c = full_config();
    c.instances = None;
    assert_eq!(FuzzConfig::try_from(c).err(), Some("missing instances block in config"));
    let mut c = full_config();
    c.solvers = None;
    assert_eq!(FuzzConfig::try_from(c).err(), Some("missing solvers block in config"));
    let f = FuzzConfig::try_from(full_config()).unwrap();
    assert_eq!(f.execution.n_workers, 2);
    assert_eq!(f.solvers.len(), 1);
}

#[test]
fn eval_config_requires_sections() {
    let mut c = full_config();
    c.solvers = None;
    assert_eq!(EvalConfig::try_from(c).err(), Some("missing solvers block in config"));
    let mut c = full_config();
    c.execution = None;
    assert_eq!(EvalConfig::try_from(c).err(), Some("missing execution block in config"));
    assert!(EvalConfig::try_from(full_config()).is_ok());
}

#[test]
fn inst_and_min_config_sections() {
    let mut c = full_config();
    c.instances = None;
    assert_eq!(InstConfig::try_from(c).err(), Some("missing instances block"));
    assert!(InstConfig::try_from(full_config()).is_ok());
    assert_eq!(
        MinimizeConfig::try_from(full_config()).err(),
        Some("missing minimization block")
    );
}

#[test]
fn config_well_formedness() {
    assert!(inst_config().check_wf());
    let mut c = inst_config();
    c.layer_width.min = 1;
    assert!(!c.check_wf());
    let mut c = inst_config();
    c.max_weight = vec![];
    assert!(!c.check_wf());
    let mut c = inst_config();
    c.max_weight = vec![U64Range { min: 1, max: 5 }];
    assert!(!c.check_wf());
}

#[test]
fn config_accessors() {
    let mut c = inst_config();
    assert_eq!(c.objs(), (0, 2));
    assert_eq!(c.layers(), (2, 5));
    assert_eq!(c.max_layer_width(), (5, 10));
    assert_eq!(c.min_layer_width(), 5);
    assert_eq!(c.layer_clauses(), (100, 250));
    assert_eq!(c.layer_clauses_div(), 100);
    assert_eq!(c.eqs_range(), (0, 31));
    assert_eq!(c.eqs_nonzero_prob(), Prob { num: 1, den: 3 });
    assert_eq!(c.ands_range(), (0, 31));
    assert_eq!(c.ands_nonzero_prob(), Prob { num: 1, den: 2 });
    assert_eq!(c.xors3_range(), (0, 16));
    assert_eq!(c.xors3_nonzero_prob(), Prob { num: 1, den: 4 });
    assert_eq!(c.xors4_range(), (0, 12));
    assert_eq!(c.xors4_nonzero_prob(), Prob { num: 1, den: 5 });
    assert_eq!(c.max_weight_variants(), 1);
    assert_eq!(c.max_weight(0), (2, 33));
    c.set_min_objs(1);
    c.set_max_objs(3);
    c.set_min_layers(4);
    c.set_max_layers(6);
    assert_eq!(c.objs(), (1, 3));
    assert_eq!(c.layers(), (4, 6));
}

#[test]
fn format_inference() {
    let ext = |s: &str| -> Vec<char> { s.chars().collect() };
    assert_eq!(infer_format(&ext("mcnf"), None), Ok(FileFormat::Dimacs));
    assert_eq!(infer_format(&ext("bicnf"), None), Ok(FileFormat::Dimacs));
    assert_eq!(infer_format(&ext("wcnf"), None), Ok(FileFormat::Dimacs));
    assert_eq!(infer_format(&ext("cnf"), None), Ok(FileFormat::Dimacs));
    assert_eq!(infer_format(&ext("dimacs"), None), Ok(FileFormat::Dimacs));
    assert_eq!(infer_format(&ext("opb"), None), Ok(FileFormat::Opb));
    assert_eq!(infer_format(&ext("gz"), Some(&ext("opb"))), Ok(FileFormat::Opb));
    assert_eq!(infer_format(&ext("bz2"), Some(&ext("cnf"))), Ok(FileFormat::Dimacs));
    assert_eq!(infer_format(&ext("xz"), Some(&ext("mcnf"))), Ok(FileFormat::Dimacs));
    assert_eq!(infer_format(&ext("gz"), None), Err("no file extension"));
    assert_eq!(infer_format(&ext("txt"), None), Err("unknown file extension"));
    assert_eq!(infer_format(&ext("gz"), Some(&ext("txt"))), Err("unknown file extension"));
}

#[test]
fn rng_seeded_deterministic() {
    let mut a = Rng::from_seed(99);
    let mut b = Rng::from_seed(99);
    for _ in 0..32 {
        assert_eq!(a.gen_range_u64(0, 1000), b.gen_range_u64(0, 1000));
    }
}

#[test]
fn rng_draws_in_range() {
    let mut r = Rng::from_seed(5);
    for _ in 0..100 {
        let v = r.gen_range_u64(10, 20);
        assert!((10..=20).contains(&v));
        let w = r.gen_range_u8(3, 3);
        assert_eq!(w, 3);
    }
}

#[test]
fn rng_bool_extremes() {
    let mut r = Rng::from_seed(5);
    for _ in 0..50 {
        assert!(!r.gen_bool(0, 7));
        assert!(r.gen_bool(7, 7));
    }
}

#[test]
fn fuzz_result_aggregation() {
    let mut res = FuzzResult::new();
    assert_eq!(res.n_problems(), 0);
    assert!(!res.contains_instance(11));
    res.instance_results(
        11,
        vec![
            ("a".to_string(), Problem::Short),
            ("b".to_string(), Problem::Panic),
        ],
    );
    res.instance_results(22, vec![("a".to_string(), Problem::OtherDominated(1))]);
    assert!(res.contains_instance(11));
    assert!(res.contains_instance(22));
    assert!(!res.contains_instance(33));
    assert_eq!(res.n_problems(), 3);
    assert_eq!(res.n_solver_problems(&"a".to_string()), 2);
    assert_eq!(res.n_solver_problems(&"b".to_string()), 1);
    assert_eq!(res.n_solver_problems(&"c".to_string()), 0);
    assert_eq!(res.n_instance_problems(11), 2);
    assert_eq!(res.n_instance_problems(22), 1);
    assert_eq!(res.n_instance_problems(33), 0);
    assert_eq!(res.instance_problems().len(), 2);
    assert_eq!(res.solver_problems().len(), 2);
}

#[test]
fn fresh_seed_drawn() {
    let mut rng = Rng::from_seed(1);
    let mut res = FuzzResult::new();
    for _ in 0..5 {
        let seed = draw_instance_seed(&mut rng, &res);
        assert!(!res.contains_instance(seed));
        res.instance_results(seed, vec![("s".to_string(), Problem::Short)]);
    }
    assert_eq!(res.instance_problems().len(), 5);
}
