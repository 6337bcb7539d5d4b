//! Tests of the structured instance generator: determinism, the declared
//! clause count, bounded soft weights, and the stream layout.

use fazzer::config::{InstConfig, Prob, U64Range, U8DivRange, U8ProbRange, U8RandomMaxRange, U8Range};
use fazzer::generate::{generate_all, u64_string, GenLine};

/// The generator configuration the smoke tests run with: tiny layers, the
/// stock gadget odds and counts, and the stock weight variants.
fn tiny_config(seed: Option<u64>) -> InstConfig {
    InstConfig {
        seed,
        objectives: U8Range { min: 0, max: 2 },
        layers: U8Range { min: 2, max: 5 },
        layer_width: U8RandomMaxRange { min: 5, max: U8Range { min: 5, max: 10 } },
        layer_clauses: U8DivRange { min: 100, max: 250, div: 100 },
        equalities: U8ProbRange { zero_prob: Prob { num: 2, den: 3 }, min: 0, max: 31 },
        ands: U8ProbRange { zero_prob: Prob { num: 1, den: 2 }, min: 0, max: 31 },
        xors3: U8ProbRange { zero_prob: Prob { num: 3, den: 4 }, min: 0, max: 16 },
        xors4: U8ProbRange { zero_prob: Prob { num: 4, den: 5 }, min: 0, max: 12 },
        max_weight: vec![
            U64Range { min: 2, max: 2 },
            U64Range { min: 3, max: 33 },
            U64Range { min: 34, max: 257 },
            U64Range { min: 258, max: 65536 },
            U64Range { min: 65537, max: 4294967297 },
            U64Range { min: 4294967297, max: 9223372036854775807 },
        ],
    }
}

fn gen(seed: u64) {
    let config = tiny_config(Some(seed));
    assert!(config.check_wf());
    let lines = generate_all(&config);
    assert!(lines.len() >= 10);
}

#[test]
fn gen42() {
    gen(42)
}

#[test]
fn gen100() {
    gen(100)
}

#[test]
fn gen2() {
    gen(2)
}

fn lines_equal(a: &GenLine, b: &GenLine) -> bool {
    match (a, b) {
        (GenLine::Comment(x), GenLine::Comment(y)) => x == y,
        (GenLine::Hard(x), GenLine::Hard(y)) => x.lits == y.lits,
        (GenLine::Soft(x, wx, ox), GenLine::Soft(y, wy, oy)) => {
            x.lits == y.lits && wx == wy && ox == oy
        },
        _ => false,
    }
}

/// Same configuration and seed, twice: the streams are identical.
#[test]
fn deterministic_stream() {
    for seed in [1u64, 7, 42, 1234567] {
        let a = generate_all(&tiny_config(Some(seed)));
        let b = generate_all(&tiny_config(Some(seed)));
        assert_eq!(a.len(), b.len());
        for (x, y) in a.iter().zip(b.iter()) {
            assert!(lines_equal(x, y));
        }
    }
}

/// Different seeds give different streams (for these seeds).
#[test]
fn seeds_differ() {
    let a = generate_all(&tiny_config(Some(1)));
    let b = generate_all(&tiny_config(Some(2)));
    let same = a.len() == b.len()
        && a.iter().zip(b.iter()).all(|(x, y)| lines_equal(x, y));
    assert!(!same);
}

fn parse_leading_number(s: &str) -> u64 {
    let digits: String = s.chars().take_while(|c| c.is_ascii_digit()).collect();
    digits.parse().unwrap()
}

/// The clause count named in the header equals the number of emitted
/// hard and soft clause lines.
#[test]
fn header_clause_count_matches() {
    for seed in 1u64..=5 {
        let lines = generate_all(&tiny_config(Some(seed)));
        let declared = match &lines[4] {
            GenLine::Comment(c) => {
                assert!(c.ends_with(" clauses"));
                parse_leading_number(c)
            },
            _ => panic!("line five must be a comment"),
        };
        let emitted = lines
            .iter()
            .filter(|l| !matches!(l, GenLine::Comment(_)))
            .count() as u64;
        assert_eq!(declared, emitted);
    }
}

/// For each objective the emitted soft weights sum to at most 2^63 - 1, and
/// every soft weight is at least one with an objective index below the
/// declared objective count.
#[test]
fn soft_weights_bounded() {
    for seed in 1u64..=5 {
        let lines = generate_all(&tiny_config(Some(seed)));
        let objs = match &lines[2] {
            GenLine::Comment(c) => {
                assert!(c.ends_with(" objectives"));
                parse_leading_number(c) as usize
            },
            _ => panic!("line three must be a comment"),
        };
        let mut sums = vec![0u128; objs];
        for l in lines.iter() {
            if let GenLine::Soft(_, w, o) = l {
                assert!(*w >= 1);
                assert!(*o < objs);
                sums[*o] += *w as u128;
            }
        }
        for s in sums {
            assert!(s <= i64::MAX as u128);
        }
    }
}

/// The stream layout: ten header comments, one comment per layer, then only
/// clause lines.
#[test]
fn stream_layout() {
    let lines = generate_all(&tiny_config(Some(9)));
    for l in lines.iter().take(10) {
        assert!(matches!(l, GenLine::Comment(_)));
    }
    let mut seen_clause = false;
    for l in lines.iter().skip(10) {
        match l {
            GenLine::Comment(c) => {
                assert!(!seen_clause, "no comment may follow a clause line");
                assert!(c.starts_with("c layer["));
            },
            _ => {
                seen_clause = true;
            },
        }
    }
}

/// No clause of the layer, equality and AND families repeats a variable;
/// the XOR families may, so only clause lines of up to two literals and the
/// long layer clauses are checked here via the whole stream being free of
/// duplicate variables in two-literal clauses.
#[test]
fn binary_clauses_no_duplicate_vars() {
    let lines = generate_all(&tiny_config(Some(3)));
    for l in lines.iter() {
        let cl = match l {
            GenLine::Hard(c) => c,
            GenLine::Soft(c, _, _) => c,
            GenLine::Comment(_) => continue,
        };
        if cl.lits.len() == 2 {
            assert_ne!(cl.lits[0].var, cl.lits[1].var);
        }
    }
}

/// Blocking literals — the fresh variables above the layer ranges that soft
/// gadgets introduce — appear negated only in their soft unit clause; every
/// other clause of the gadget carries the blocker positively, so paying the
/// soft cost voids the whole gadget.
#[test]
fn blockers_positive_outside_unit_clauses() {
    let mut saw_blocker = false;
    for seed in 1u64..=8 {
        let lines = generate_all(&tiny_config(Some(seed)));
        let clauses: Vec<_> = lines
            .iter()
            .filter_map(|l| match l {
                GenLine::Hard(c) => Some(c),
                GenLine::Soft(c, _, _) => Some(c),
                GenLine::Comment(_) => None,
            })
            .collect();
        let mut blockers: Vec<u32> = Vec::new();
        for l in lines.iter() {
            if let GenLine::Soft(c, _, _) = l {
                if c.lits.len() == 1 && c.lits[0].neg {
                    blockers.push(c.lits[0].var);
                }
            }
        }
        for b in blockers {
            saw_blocker = true;
            let mut positive = 0usize;
            for cl in clauses.iter() {
                for lit in cl.lits.iter() {
                    if lit.var == b {
                        if lit.neg {
                            assert_eq!(cl.lits.len(), 1, "negated blocker outside a unit clause");
                        } else {
                            positive += 1;
                        }
                    }
                }
            }
            assert!(positive >= 1, "a blocker must guard at least one clause");
        }
    }
    assert!(saw_blocker);
}

/// Decimal rendering of numbers.
#[test]
fn decimal_rendering() {
    assert_eq!(u64_string(0), "0");
    assert_eq!(u64_string(7), "7");
    assert_eq!(u64_string(10), "10");
    assert_eq!(u64_string(12345), "12345");
    assert_eq!(u64_string(u64::MAX), "18446744073709551615");
}

/// Without objectives and with every gadget gated off, the generator emits
/// only hard clauses.
#[test]
fn no_objectives_only_hard_clauses() {
    let mut config = tiny_config(Some(4));
    config.objectives = U8Range { min: 0, max: 0 };
    config.layers = U8Range { min: 2, max: 2 };
    let off = Prob { num: 1, den: 1 };
    config.equalities.zero_prob = off;
    config.ands.zero_prob = off;
    config.xors3.zero_prob = off;
    config.xors4.zero_prob = off;
    assert!(config.check_wf());
    let lines = generate_all(&config);
    assert!(lines.iter().all(|l| !matches!(l, GenLine::Soft(_, _, _))));
    assert!(lines.iter().any(|l| matches!(l, GenLine::Hard(_))));
}

/// Layer clauses — the clause lines before any gadget batch — hold between
/// three and twenty literals, never repeat a variable, and stay below their
/// layer's variable bound.
#[test]
fn layer_clauses_shaped() {
    for seed in [2u64, 5, 11] {
        let lines = generate_all(&tiny_config(Some(seed)));
        let mut layer_budget: u64 = 0;
        for l in lines.iter() {
            if let GenLine::Comment(c) = l {
                if let Some(rest) = c.strip_prefix("c layer[") {
                    let n: u64 = rest
                        .rsplit_once("n_cl=")
                        .map(|(_, v)| v.trim().parse().unwrap())
                        .unwrap();
                    layer_budget += n;
                }
            }
        }
        let mut seen: u64 = 0;
        for l in lines.iter() {
            let cl = match l {
                GenLine::Hard(c) => c,
                GenLine::Soft(c, _, _) => c,
                GenLine::Comment(_) => continue,
            };
            if seen >= layer_budget {
                break;
            }
            seen += 1;
            assert!((3..=20).contains(&cl.lits.len()));
            for a in 0..cl.lits.len() {
                for b in a + 1..cl.lits.len() {
                    assert_ne!(cl.lits[a].var, cl.lits[b].var);
                }
            }
        }
        assert_eq!(seen, layer_budget);
    }
}

/// The soft-clause budgets printed in the header equal the number of
/// emitted soft lines per objective.
#[test]
fn header_soft_budgets_match() {
    for seed in 1u64..=5 {
        let lines = generate_all(&tiny_config(Some(seed)));
        let budgets: Vec<u64> = match &lines[5] {
            GenLine::Comment(c) => {
                let inner = c
                    .strip_prefix('[')
                    .and_then(|r| r.split_once(']'))
                    .map(|(l, _)| l)
                    .unwrap();
                if inner.is_empty() {
                    vec![]
                } else {
                    inner.split(", ").map(|v| v.parse().unwrap()).collect()
                }
            },
            _ => panic!("line six must be a comment"),
        };
        let mut counts = vec![0u64; budgets.len()];
        for l in lines.iter() {
            if let GenLine::Soft(_, _, o) = l {
                counts[*o] += 1;
            }
        }
        assert_eq!(counts, budgets);
    }
}
