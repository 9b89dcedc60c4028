use dpll::dimacs_parser::DimacsParser;
use dpll::sat_instance::{SatInstance, SearchHeuristic, Verdict};

fn heuristics() -> Vec<SearchHeuristic> {
    vec![
        SearchHeuristic::DLIS,
        SearchHeuristic::DLCS,
        SearchHeuristic::RandDLIS,
        SearchHeuristic::RandDLCS,
        SearchHeuristic::Hybrid,
    ]
}

fn parse(text: &str, heuristic: SearchHeuristic) -> SatInstance {
    let mut inst = match DimacsParser::parse(text.as_bytes()) {
        Ok(inst) => inst,
        Err(e) => panic!("no DIMACS CNF: {:?}", e),
    };
    inst.set_heuristic(heuristic);
    inst
}

#[test]
fn empty_formula_is_sat_with_the_empty_assignment() {
    for h in heuristics() {
        let mut inst = SatInstance::new(0, 0);
        inst.set_heuristic(h);
        assert!(inst.solve());
        assert!(inst.assignments.is_empty());
        assert!(inst.model().is_empty());
        assert!(inst.check());
        assert_eq!(inst.current_verdict(), Verdict::Sat);
    }
}

#[test]
fn empty_formula_as_text_is_sat() {
    for h in heuristics() {
        let mut inst = parse("p cnf 0 0\n", h);
        assert!(inst.solve());
        assert!(inst.assignments.is_empty());
    }
}

#[test]
fn formula_with_the_empty_clause_is_unsat() {
    for h in heuristics() {
        let mut inst = SatInstance::new(2, 2);
        inst.set_heuristic(h);
        inst.add_clause(vec![1, 2]);
        inst.add_clause(vec![]);
        assert_eq!(inst.current_verdict(), Verdict::Unsat);
        assert!(!inst.solve());
    }
}

#[test]
fn empty_clause_as_text_is_unsat() {
    for h in heuristics() {
        let mut inst = parse("p cnf 1 2\n1 0\n0\n", h);
        assert!(!inst.solve());
    }
}

#[test]
fn single_unit_clause_is_sat_with_the_literal_true() {
    for h in heuristics() {
        let mut inst = SatInstance::new(1, 1);
        inst.set_heuristic(h);
        inst.add_var(1);
        inst.add_clause(vec![1]);
        assert!(inst.solve());
        assert_eq!(inst.assignments.get(&1), Some(&true));
        assert!(inst.check());
    }
}

#[test]
fn single_negative_unit_clause_is_sat_with_the_variable_false() {
    for h in heuristics() {
        let mut inst = SatInstance::new(3, 1);
        inst.set_heuristic(h);
        inst.add_clause(vec![-3]);
        assert!(inst.solve());
        assert_eq!(inst.assignments.get(&3), Some(&false));
        assert_eq!(inst.model(), vec![(3, false)]);
    }
}

#[test]
fn opposite_units_are_unsat() {
    for h in heuristics() {
        let mut inst = SatInstance::new(1, 2);
        inst.set_heuristic(h);
        inst.add_clause(vec![1]);
        inst.add_clause(vec![-1]);
        assert!(!inst.solve());
        assert_eq!(inst.current_verdict(), Verdict::Unsat);
    }
}

#[test]
fn scenario_one_unit() {
    for h in heuristics() {
        let mut inst = parse("p cnf 1 1 \n 1 0", h);
        assert!(inst.solve());
        assert_eq!(inst.assignments.get(&1), Some(&true));
        assert!(inst.check());
    }
}

#[test]
fn scenario_two_clauses_force_different_values() {
    for h in heuristics() {
        let mut inst = parse("p cnf 2 2 \n 1 2 0 \n -1 -2 0", h);
        assert!(inst.solve());
        assert!(inst.check());
        let a = inst.assignments.get(&1).copied();
        let b = inst.assignments.get(&2).copied();
        assert!(a.is_some());
        assert!(b.is_some());
        assert_ne!(a, b);
    }
}

#[test]
fn scenario_opposite_units_unsat() {
    for h in heuristics() {
        let mut inst = parse("p cnf 1 2 \n 1 0 \n -1 0", h);
        assert!(!inst.solve());
    }
}

#[test]
fn scenario_implication_cycle_is_sat() {
    for h in heuristics() {
        let mut inst = parse("p cnf 3 3 \n 1 -2 0 \n 2 -3 0 \n 3 -1 0", h);
        assert!(inst.solve());
        assert!(inst.check());
        let a = inst.assignments.get(&1).copied();
        let b = inst.assignments.get(&2).copied();
        let c = inst.assignments.get(&3).copied();
        assert!(a.is_some() && b.is_some() && c.is_some());
        assert_eq!(a, b);
        assert_eq!(b, c);
    }
}

#[test]
fn scenario_all_sign_patterns_over_three_variables_unsat() {
    let text = "p cnf 3 8\n1 2 3 0\n1 2 -3 0\n1 -2 3 0\n1 -2 -3 0\n-1 2 3 0\n-1 2 -3 0\n-1 -2 3 0\n-1 -2 -3 0\n";
    for h in heuristics() {
        let mut inst = parse(text, h);
        assert!(!inst.solve());
    }
}

#[test]
fn scenario_chain_with_negative_unit() {
    // 1 true, 2 false, 3 true, 4 false satisfies all four clauses
    for h in heuristics() {
        let mut inst = parse("p cnf 4 4 \n 1 2 0 \n -1 3 0 \n -2 -3 4 0 \n -4 0", h);
        assert!(inst.solve());
        assert!(inst.check());
        assert_eq!(inst.assignments.get(&4), Some(&false));
        assert!(inst.value(1) || inst.value(2));
        assert!(inst.value(-1) || inst.value(3));
        assert!(inst.value(-2) || inst.value(-3));
    }
}

#[test]
fn scenario_chain_closed_by_a_further_unit_is_unsat() {
    for h in heuristics() {
        let mut inst =
            parse("p cnf 4 5 \n 1 2 0 \n -1 3 0 \n -2 -3 4 0 \n -4 0 \n 2 0", h);
        assert!(inst.solve());
        let mut closed =
            parse("p cnf 4 6 \n 1 2 0 \n -1 3 0 \n -2 -3 4 0 \n -4 0 \n 2 0 \n 3 0", h);
        assert!(!closed.solve());
    }
}

#[test]
fn a_second_solve_answers_from_the_verdict() {
    let mut sat = parse("p cnf 2 2\n1 2 0\n-1 2 0\n", SearchHeuristic::DLIS);
    assert!(sat.solve());
    let first = sat.model();
    assert!(sat.solve());
    assert_eq!(sat.model(), first);
    let mut unsat = parse("p cnf 1 2\n1 0\n-1 0\n", SearchHeuristic::DLIS);
    assert!(!unsat.solve());
    assert!(!unsat.solve());
}

#[test]
fn pigeons_do_not_fit() {
    // three pigeons, two holes: variable 2 * p + h + 1 puts pigeon p in hole h
    let mut clauses: Vec<Vec<i32>> = Vec::new();
    for p in 0..3 {
        clauses.push(vec![2 * p + 1, 2 * p + 2]);
    }
    for h in 0..2 {
        for p in 0..3 {
            for q in (p + 1)..3 {
                clauses.push(vec![-(2 * p + h + 1), -(2 * q + h + 1)]);
            }
        }
    }
    for h in heuristics() {
        let mut inst = SatInstance::new(6, clauses.len() as u32);
        inst.set_heuristic(h);
        for c in clauses.iter() {
            for l in c.iter() {
                inst.add_var(*l);
            }
            inst.add_clause(c.clone());
        }
        assert!(!inst.solve());
    }
}

fn pigeons(pigeons: i32, holes: i32) -> Vec<Vec<i32>> {
    let var = |p: i32, h: i32| p * holes + h + 1;
    let mut clauses: Vec<Vec<i32>> = Vec::new();
    for p in 0..pigeons {
        clauses.push((0..holes).map(|h| var(p, h)).collect());
    }
    for h in 0..holes {
        for p in 0..pigeons {
            for q in (p + 1)..pigeons {
                clauses.push(vec![-var(p, h), -var(q, h)]);
            }
        }
    }
    clauses
}

fn text_of(vars: i32, clauses: &[Vec<i32>]) -> String {
    let mut text = format!("c generated\np cnf {} {}\n", vars, clauses.len());
    for c in clauses {
        for l in c {
            text.push_str(&format!("{} ", l));
        }
        text.push_str("0\n");
    }
    text
}

#[test]
fn five_pigeons_do_not_fit_into_four_holes() {
    let clauses = pigeons(5, 4);
    for h in heuristics() {
        let mut inst = parse(&text_of(20, &clauses), h);
        assert!(!inst.solve());
    }
}

#[test]
fn four_pigeons_fit_into_four_holes() {
    let clauses = pigeons(4, 4);
    for h in heuristics() {
        let mut inst = parse(&text_of(16, &clauses), h);
        assert!(inst.solve());
        assert!(inst.check());
        for p in 0..4 {
            let holes: Vec<i32> = (0..4).filter(|hole| inst.value(p * 4 + hole + 1)).collect();
            assert!(!holes.is_empty());
        }
    }
}

#[test]
fn a_chain_of_implications_is_followed_to_its_end() {
    let n = 300;
    let mut clauses: Vec<Vec<i32>> = vec![vec![1]];
    for v in 1..n {
        clauses.push(vec![-v, v + 1]);
    }
    let mut inst = parse(&text_of(n, &clauses), SearchHeuristic::DLIS);
    assert!(inst.solve());
    for v in 1..=n {
        assert_eq!(inst.assignments.get(&v), Some(&true));
    }
    clauses.push(vec![-n]);
    let mut closed = parse(&text_of(n, &clauses), SearchHeuristic::DLIS);
    assert!(!closed.solve());
}
