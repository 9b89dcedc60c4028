use dpll::dimacs_parser::DimacsParser;
use dpll::dimacs_parser::ParseError;
use dpll::model::satisfied_by;
use dpll::portfolio::{
    assume_all, cube_literals, cube_point, decide, held_literals, worker_heuristic, Collector,
    Decision, Outcome, Report,
};
use dpll::sat_instance::{valid_literal, valid_literals, SatInstance, SearchHeuristic};

#[test]
fn workers_take_the_heuristics_in_their_order() {
    assert_eq!(worker_heuristic(0), SearchHeuristic::DLIS);
    assert_eq!(worker_heuristic(1), SearchHeuristic::DLCS);
    assert_eq!(worker_heuristic(2), SearchHeuristic::RandDLIS);
    assert_eq!(worker_heuristic(3), SearchHeuristic::RandDLCS);
    assert_eq!(worker_heuristic(4), SearchHeuristic::Hybrid);
    assert_eq!(worker_heuristic(5), SearchHeuristic::RandDLIS);
    assert_eq!(worker_heuristic(7), SearchHeuristic::RandDLIS);
}

#[test]
fn held_literals_leave_the_empty_entries_out() {
    assert_eq!(held_literals(&[(4, 3), (-2, 2), (7, 1)]), vec![4, -2, 7]);
    assert_eq!(held_literals(&[(4, 3), (0, 0), (0, 0)]), vec![4]);
    assert_eq!(held_literals(&[(0, 0), (0, 0), (0, 0)]), Vec::<i32>::new());
}

#[test]
fn the_cube_has_every_sign_pattern_once() {
    let lits = vec![4, -2, 7];
    assert_eq!(cube_point(&lits, 0), vec![-4, 2, -7]);
    assert_eq!(cube_point(&lits, 1), vec![4, 2, -7]);
    assert_eq!(cube_point(&lits, 2), vec![-4, -2, -7]);
    assert_eq!(cube_point(&lits, 3), vec![4, -2, -7]);
    assert_eq!(cube_point(&lits, 4), vec![-4, 2, 7]);
    assert_eq!(cube_point(&lits, 7), vec![4, -2, 7]);
    assert_eq!(cube_point(&lits, 8), vec![-4, 2, -7]);
    let mut all: Vec<Vec<i32>> = (0..8).map(|p| cube_point(&lits, p)).collect();
    all.sort();
    all.dedup();
    assert_eq!(all.len(), 8);
    assert_eq!(cube_point(&vec![], 5), Vec::<i32>::new());
}

#[test]
fn assumed_literals_become_unit_clauses() {
    let mut inst = SatInstance::new(3, 1);
    inst.add_clause(vec![1, 2, 3]);
    assume_all(&mut inst, &vec![-1, 2]);
    assert_eq!(inst.input_clauses(), &vec![vec![1, 2, 3], vec![-1], vec![2]]);
    assert_eq!(inst.queue_len(), 2);
    assert!(inst.solve());
    assert_eq!(inst.assignments.get(&1), Some(&false));
    assert_eq!(inst.assignments.get(&2), Some(&true));
}

fn cube_verdicts(text: &str) -> Vec<bool> {
    let mut driver = match DimacsParser::parse(text.as_bytes()) {
        Ok(inst) => inst,
        Err(e) => panic!("{:?}", e),
    };
    let lits = cube_literals(&driver);
    let mut verdicts = Vec::new();
    for point in 0..8 {
        let given = cube_point(&lits, point);
        verdicts.push(matches!(
            decide(text.as_bytes(), SearchHeuristic::RandDLIS, &given),
            Decision::Sat(_)
        ));
    }
    verdicts.push(driver.solve());
    verdicts
}

#[test]
fn a_formula_is_satisfiable_where_a_point_of_the_cube_is() {
    let sat = "p cnf 4 4\n1 2 0\n-1 3 0\n-2 -3 4 0\n-4 0\n";
    let v = cube_verdicts(sat);
    assert!(v[8]);
    assert!(v[..8].iter().any(|b| *b));
    assert!(!v[..8].iter().all(|b| *b));
    let unsat = "p cnf 3 8\n1 2 3 0\n1 2 -3 0\n1 -2 3 0\n1 -2 -3 0\n-1 2 3 0\n-1 2 -3 0\n-1 -2 3 0\n-1 -2 -3 0\n";
    let w = cube_verdicts(unsat);
    assert!(!w[8]);
    assert!(w[..8].iter().all(|b| !*b));
}

#[test]
fn the_first_satisfying_worker_settles_the_outcome() {
    let mut c = Collector::new(3, false);
    assert_eq!(c.report(Report::Unsat), Outcome::Pending);
    assert_eq!(c.report(Report::Sat), Outcome::Sat);
    assert_eq!(c.report(Report::Unsat), Outcome::Sat);
    assert_eq!(c.report(Report::Lost), Outcome::Sat);
}

#[test]
fn unsat_needs_every_worker_where_each_decides_a_part() {
    let mut c = Collector::new(3, false);
    assert_eq!(c.report(Report::Unsat), Outcome::Pending);
    assert_eq!(c.report(Report::Unsat), Outcome::Pending);
    assert_eq!(c.report(Report::Unsat), Outcome::Unsat);
    assert_eq!(c.report(Report::Sat), Outcome::Unsat);
}

#[test]
fn the_first_unsat_settles_where_all_decide_one_formula() {
    let mut c = Collector::new(5, true);
    assert_eq!(c.report(Report::Lost), Outcome::Pending);
    assert_eq!(c.report(Report::Unsat), Outcome::Unsat);
    assert_eq!(c.report(Report::Sat), Outcome::Unsat);
}

#[test]
fn a_lost_worker_counts_as_unsat_unless_all_are_lost() {
    let mut c = Collector::new(3, false);
    assert_eq!(c.report(Report::Lost), Outcome::Pending);
    assert_eq!(c.report(Report::Unsat), Outcome::Pending);
    assert_eq!(c.report(Report::Lost), Outcome::Unsat);
    let mut d = Collector::new(2, true);
    assert_eq!(d.report(Report::Lost), Outcome::Pending);
    assert_eq!(d.report(Report::Lost), Outcome::Aborted);
    assert_eq!(d.report(Report::Sat), Outcome::Aborted);
    let mut e = Collector::new(1, false);
    assert_eq!(e.report(Report::Unsat), Outcome::Unsat);
    let mut none = Collector::new(0, false);
    assert_eq!(none.report(Report::Sat), Outcome::Aborted);
}

#[test]
fn literals_are_told_from_other_numbers() {
    assert!(valid_literal(1));
    assert!(valid_literal(-1));
    assert!(valid_literal(i32::MAX));
    assert!(valid_literal(-i32::MAX));
    assert!(!valid_literal(0));
    assert!(!valid_literal(i32::MIN));
    assert!(valid_literals(&vec![1, -2, 3]));
    assert!(valid_literals(&vec![]));
    assert!(!valid_literals(&vec![1, 0, 3]));
    assert!(!valid_literals(&vec![i32::MIN]));
}

#[test]
fn the_cube_is_made_over_the_busiest_variables() {
    let text = b"p cnf 6 6\n1 2 0\n1 -2 0\n-2 3 0\n-2 4 0\n1 5 0\n4 6 0\n";
    let driver = match DimacsParser::parse(text) {
        Ok(inst) => inst,
        Err(e) => panic!("{:?}", e),
    };
    assert_eq!(cube_literals(&driver), vec![-2, 1, 4]);
    let empty = SatInstance::new(0, 0);
    assert_eq!(cube_literals(&empty), Vec::<i32>::new());
    let mut one = SatInstance::new(2, 1);
    one.add_clause(vec![1, 2]);
    let mut lits = cube_literals(&one);
    lits.sort();
    assert_eq!(lits, vec![1, 2]);
    let mut refuted = SatInstance::new(1, 2);
    refuted.add_clause(vec![1, 2]);
    refuted.add_clause(vec![]);
    assert_eq!(cube_literals(&refuted), Vec::<i32>::new());
}

#[test]
fn a_worker_decides_the_text_with_its_givens() {
    let text = b"p cnf 3 3\n1 2 0\n-1 3 0\n-2 -3 0\n";
    let clauses = vec![vec![1, 2], vec![-1, 3], vec![-2, -3]];
    for w in 0..6 {
        match decide(text, worker_heuristic(w), &vec![]) {
            Decision::Sat(pairs) => assert!(satisfied_by(&clauses, &pairs)),
            _ => panic!("satisfiable"),
        }
        match decide(text, worker_heuristic(w), &vec![2]) {
            Decision::Sat(pairs) => {
                assert!(satisfied_by(&clauses, &pairs));
                assert!(pairs.contains(&(2, true)));
                assert!(pairs.contains(&(3, false)));
                assert!(pairs.contains(&(1, false)));
            }
            _ => panic!("satisfiable with 2"),
        }
        assert!(matches!(decide(text, worker_heuristic(w), &vec![1, 2]), Decision::Unsat));
        assert!(matches!(decide(text, worker_heuristic(w), &vec![3, -3]), Decision::Unsat));
    }
    assert!(matches!(
        decide(b"p cnf 1 1\n1\n", SearchHeuristic::DLIS, &vec![]),
        Decision::Rejected(ParseError::MissingTerminator)
    ));
}
