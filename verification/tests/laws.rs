use dpll::model::satisfied_by;
use dpll::sat_instance::{SatInstance, SearchHeuristic};

fn heuristics() -> Vec<SearchHeuristic> {
    vec![
        SearchHeuristic::DLIS,
        SearchHeuristic::DLCS,
        SearchHeuristic::RandDLIS,
        SearchHeuristic::RandDLCS,
        SearchHeuristic::Hybrid,
    ]
}

fn load(clauses: &[Vec<i32>], heuristic: SearchHeuristic) -> SatInstance {
    let mut inst = SatInstance::new(0, clauses.len() as u32);
    inst.set_heuristic(heuristic);
    for c in clauses {
        for l in c {
            inst.add_var(*l);
        }
        inst.add_clause(c.clone());
    }
    inst
}

fn holds(clauses: &[Vec<i32>], bits: u32) -> bool {
    clauses.iter().all(|c| {
        c.iter().any(|l| {
            let value = (bits >> (l.unsigned_abs() - 1)) & 1 == 1;
            value == (*l > 0)
        })
    })
}

fn brute_force(clauses: &[Vec<i32>], vars: u32) -> bool {
    (0..(1u32 << vars)).any(|bits| holds(clauses, bits))
}

struct Lcg(u64);

impl Lcg {
    fn next(&mut self, bound: u64) -> u64 {
        self.0 = self.0.wrapping_mul(6364136223846793005).wrapping_add(1442695040888963407);
        (self.0 >> 33) % bound
    }
}

fn random_formula(rng: &mut Lcg, vars: u32, clauses: usize, width: usize) -> Vec<Vec<i32>> {
    let mut f = Vec::new();
    for _ in 0..clauses {
        let len = 1 + rng.next(width as u64) as usize;
        let mut c = Vec::new();
        for _ in 0..len {
            let v = 1 + rng.next(vars as u64) as i32;
            let l = if rng.next(2) == 0 { v } else { -v };
            c.push(l);
        }
        f.push(c);
    }
    f
}

fn without_tautologies(clauses: &[Vec<i32>]) -> Vec<Vec<i32>> {
    clauses.iter().filter(|c| !c.iter().any(|l| c.contains(&-l))).cloned().collect()
}

#[test]
fn verdict_is_satisfiability_on_many_small_formulas() {
    let mut rng = Lcg(7);
    for round in 0..300 {
        let vars = 1 + (round % 5) as u32;
        let f = random_formula(&mut rng, vars, 1 + round % 9, 3);
        let expected = brute_force(&f, vars);
        for h in heuristics() {
            let mut inst = load(&f, h);
            let sat = inst.solve();
            assert_eq!(sat, expected, "formula {:?} under {:?}", f, h);
            if sat {
                assert!(inst.check());
                assert!(satisfied_by(&without_tautologies(&f), &inst.model()));
            }
        }
    }
}

#[test]
fn verdict_is_satisfiability_on_wider_formulas() {
    let mut rng = Lcg(99);
    for round in 0..60 {
        let vars = 8;
        let f = random_formula(&mut rng, vars, 20 + round % 20, 3);
        let expected = brute_force(&f, vars);
        for h in heuristics() {
            let mut inst = load(&f, h);
            assert_eq!(inst.solve(), expected, "formula {:?} under {:?}", f, h);
        }
    }
}

#[test]
fn a_model_that_is_found_passes_the_check() {
    let f = vec![vec![1, -2, 3], vec![-1, 2], vec![2, 3], vec![-3, 4], vec![-4, -1, 5]];
    for h in heuristics() {
        let mut inst = load(&f, h);
        assert!(inst.solve());
        assert!(inst.check());
        for c in f.iter() {
            assert!(c.iter().any(|l| inst.value(*l)));
        }
    }
}

#[test]
fn tautologies_do_not_influence_the_result() {
    let sat = vec![vec![1, 2], vec![-1, 2]];
    let unsat = vec![vec![1, 2], vec![-1, 2], vec![1, -2], vec![-1, -2]];
    for h in heuristics() {
        for f in [&sat, &unsat] {
            let mut plain = load(f, h);
            let mut padded = load(f, h);
            padded.add_clause(vec![3, -3]);
            padded.add_clause(vec![1, -2, 2]);
            assert_eq!(padded.table_len(), plain.table_len());
            assert_eq!(padded.input_clauses(), plain.input_clauses());
            assert_eq!(padded.solve(), plain.solve());
        }
        let mut only = load(&[vec![5, -5]], h);
        assert!(only.solve());
        assert!(only.model().is_empty());
        assert!(only.check());
    }
}

#[test]
fn repeated_literals_do_not_influence_the_result() {
    let plain_sat = vec![vec![1, -2], vec![2, 3], vec![-3, -1]];
    let doubled_sat = vec![vec![1, 1, -2], vec![2, 3, 2, 3], vec![-3, -1, -3]];
    let plain_unsat = vec![vec![1, 2], vec![-1], vec![-2]];
    let doubled_unsat = vec![vec![1, 2, 2, 1], vec![-1, -1], vec![-2, -2, -2]];
    for h in heuristics() {
        let mut a = load(&plain_sat, h);
        let mut b = load(&doubled_sat, h);
        assert!(a.solve());
        assert!(b.solve());
        assert!(b.check());
        assert!(satisfied_by(&plain_sat, &b.model()));
        let mut c = load(&plain_unsat, h);
        let mut d = load(&doubled_unsat, h);
        assert!(!c.solve());
        assert!(!d.solve());
    }
}

#[test]
fn a_variable_without_clauses_changes_nothing() {
    let sat = vec![vec![1, 2], vec![-1, 2]];
    let unsat = vec![vec![1], vec![-1]];
    for h in heuristics() {
        let mut with = load(&sat, h);
        with.add_var(9);
        with.add_var(-7);
        assert!(with.solve());
        assert_eq!(with.assignments.get(&9), None);
        assert_eq!(with.assignments.get(&7), None);
        let mut known = with.known_variables();
        known.sort();
        assert_eq!(known, vec![1, 2, 7, 9]);
        let mut without = load(&unsat, h);
        without.add_var(4);
        assert!(!without.solve());
    }
}

#[test]
fn an_assignment_that_is_handed_out_satisfies_the_clauses_when_read_back() {
    let f = vec![vec![1, 2, 3], vec![-1, -2], vec![-2, -3], vec![2, 4], vec![-4, 3, 1]];
    for h in heuristics() {
        let mut inst = load(&f, h);
        assert!(inst.solve());
        let pairs = inst.model();
        assert!(satisfied_by(&f, &pairs));
        let mut flipped = pairs.clone();
        for p in flipped.iter_mut() {
            p.1 = !p.1;
        }
        assert_eq!(satisfied_by(&f, &flipped), holds_pairs(&f, &flipped));
    }
}

fn holds_pairs(clauses: &[Vec<i32>], pairs: &[(i32, bool)]) -> bool {
    clauses.iter().all(|c| {
        c.iter().any(|l| pairs.iter().any(|p| p.0 == l.abs() && p.1 == (*l > 0)))
    })
}

#[test]
fn reading_pairs_back_counts_the_later_pair() {
    let f = vec![vec![1]];
    assert!(satisfied_by(&f, &vec![(1, false), (1, true)]));
    assert!(!satisfied_by(&f, &vec![(1, true), (1, false)]));
    assert!(!satisfied_by(&f, &vec![]));
    assert!(satisfied_by(&vec![], &vec![]));
    assert!(!satisfied_by(&vec![vec![]], &vec![(1, true)]));
    assert!(!satisfied_by(&vec![vec![0]], &vec![(0, false), (0, true)]));
}

#[test]
fn all_heuristics_agree_on_the_verdict() {
    let mut rng = Lcg(2024);
    for round in 0..80 {
        let f = random_formula(&mut rng, 6, 6 + round % 14, 3);
        let mut verdicts = Vec::new();
        for h in heuristics() {
            let mut inst = load(&f, h);
            verdicts.push(inst.solve());
        }
        assert!(verdicts.iter().all(|v| *v == verdicts[0]), "formula {:?}", f);
    }
}

fn sorted_model(inst: &SatInstance) -> Vec<(i32, bool)> {
    let mut m = inst.model();
    m.sort();
    m
}

fn listing(inst: &SatInstance, vars: i32) -> Vec<usize> {
    let mut counts = Vec::new();
    for v in 1..=vars {
        counts.push(inst.occurrences(v));
        counts.push(inst.occurrences(-v));
    }
    counts
}

#[test]
fn a_second_elimination_of_pure_literals_is_without_effect() {
    let formulas = vec![
        vec![vec![1, 2], vec![1, -2], vec![3, -4], vec![-3, 4], vec![4, 5]],
        vec![vec![1, 2], vec![-1, -2]],
        vec![vec![1, 2, 3], vec![-1, 2], vec![-2, 3]],
        vec![vec![1], vec![-1, 2], vec![-2, 3, 4], vec![-4, -3, 5], vec![3, 4, -5]],
    ];
    for f in formulas.iter() {
        let mut inst = load(f, SearchHeuristic::DLIS);
        assert!(!inst.unit_propagate());
        inst.ple();
        assert!(inst.pure_literals().is_empty());
        let model = sorted_model(&inst);
        let counts = listing(&inst, 5);
        let satisfied = inst.all_satisfied();
        let mut table = Vec::new();
        for c in 0..inst.table_len() {
            table.push(inst.clause_literals(c).clone());
        }
        inst.ple();
        assert_eq!(sorted_model(&inst), model);
        assert_eq!(listing(&inst, 5), counts);
        assert_eq!(inst.all_satisfied(), satisfied);
        assert_eq!(inst.queue_len(), 0);
        for c in 0..inst.table_len() {
            assert_eq!(inst.clause_literals(c), &table[c]);
        }
        assert!(inst.pure_literals().is_empty());
    }
}

#[test]
fn elimination_of_pure_literals_binds_them_without_queueing() {
    let mut inst = load(&[vec![1, 2], vec![1, -2], vec![-3, 2]], SearchHeuristic::DLIS);
    let mut pure = inst.pure_literals();
    pure.sort();
    assert_eq!(pure, vec![-3, 1]);
    inst.ple();
    assert_eq!(inst.queue_len(), 0);
    assert_eq!(inst.assignments.get(&1), Some(&true));
    assert_eq!(inst.assignments.get(&3), Some(&false));
    assert!(inst.all_satisfied());
    assert!(inst.pure_literals().is_empty());
}
