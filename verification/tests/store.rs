use dpll::sat_instance::{
    complement, copy_lits, is_tautology, variable, Clause, SatInstance, SearchHeuristic, Verdict,
};
use dpll::propagate::strip;
use dpll::search::copy_clauses;

#[test]
fn a_clause_knows_its_size() {
    let c = Clause::new(vec![3, -1, 2]);
    assert_eq!(c.lits, vec![3, -1, 2]);
    assert_eq!(c.size, 3);
    let e = Clause::new(vec![]);
    assert_eq!(e.size, 0);
    assert_eq!(c.clone(), c);
}

#[test]
fn a_new_instance_is_empty() {
    let inst = SatInstance::new(7, 11);
    assert_eq!(inst.num_vars(), 7);
    assert_eq!(inst.num_clauses(), 11);
    assert_eq!(inst.current_heuristic(), SearchHeuristic::DLIS);
    assert_eq!(inst.current_verdict(), Verdict::Open);
    assert_eq!(inst.table_len(), 0);
    assert_eq!(inst.queue_len(), 0);
    assert!(inst.all_satisfied());
    assert!(inst.assignments.is_empty());
    assert!(inst.known_variables().is_empty());
    assert!(inst.input_clauses().is_empty());
}

#[test]
fn variables_and_complements() {
    assert_eq!(variable(5), 5);
    assert_eq!(variable(-5), 5);
    assert_eq!(variable(i32::MAX), i32::MAX);
    assert_eq!(variable(-i32::MAX), i32::MAX);
    assert_eq!(complement(5), -5);
    assert_eq!(complement(-5), 5);
    assert_eq!(complement(i32::MAX), -i32::MAX);
}

#[test]
fn tautologies_are_told_apart() {
    assert!(is_tautology(&vec![1, -1]));
    assert!(is_tautology(&vec![2, 3, -4, -2]));
    assert!(!is_tautology(&vec![1, 2, 3]));
    assert!(!is_tautology(&vec![1, 1]));
    assert!(!is_tautology(&vec![]));
    assert!(!is_tautology(&vec![7]));
}

#[test]
fn copies_hold_the_same_literals() {
    assert_eq!(copy_lits(&vec![4, -2, 9]), vec![4, -2, 9]);
    assert_eq!(copy_lits(&vec![]), Vec::<i32>::new());
    let table = vec![Clause::new(vec![1, 2]), Clause::new(vec![-3])];
    assert_eq!(copy_clauses(&table), table);
}

#[test]
fn stripping_takes_every_occurrence_out() {
    assert_eq!(strip(&vec![1, -2, 3, -2], -2), vec![1, 3]);
    assert_eq!(strip(&vec![1, 2, 3], 4), vec![1, 2, 3]);
    assert_eq!(strip(&vec![5, 5], 5), Vec::<i32>::new());
    assert_eq!(strip(&vec![], 1), Vec::<i32>::new());
}

#[test]
fn add_var_records_the_variable_once() {
    let mut inst = SatInstance::new(2, 0);
    inst.add_var(-2);
    inst.add_var(2);
    inst.add_var(1);
    let mut known = inst.known_variables();
    known.sort();
    assert_eq!(known, vec![1, 2]);
    assert_eq!(inst.table_len(), 0);
    assert!(inst.assignments.is_empty());
}

#[test]
fn a_unit_clause_is_queued_and_not_stored() {
    let mut inst = SatInstance::new(2, 1);
    inst.add_clause(vec![-2]);
    assert_eq!(inst.table_len(), 0);
    assert_eq!(inst.queue_len(), 1);
    assert_eq!(inst.assignments.get(&2), Some(&false));
    assert_eq!(inst.input_clauses(), &vec![vec![-2]]);
    assert!(inst.all_satisfied());
    assert!(inst.value(-2));
    assert!(!inst.value(2));
}

#[test]
fn a_tautology_is_dropped() {
    let mut inst = SatInstance::new(2, 1);
    inst.add_clause(vec![1, 2, -1]);
    assert_eq!(inst.table_len(), 0);
    assert_eq!(inst.queue_len(), 0);
    assert!(inst.input_clauses().is_empty());
    assert!(inst.known_variables().is_empty());
    assert_eq!(inst.occurrences(1), 0);
    assert_eq!(inst.current_verdict(), Verdict::Open);
}

#[test]
fn a_clause_is_stored_and_listed_under_its_literals() {
    let mut inst = SatInstance::new(3, 2);
    inst.add_clause(vec![1, -2]);
    inst.add_clause(vec![1, 3, 3]);
    assert_eq!(inst.table_len(), 2);
    assert_eq!(inst.clause_literals(0), &vec![1, -2]);
    assert_eq!(inst.clause_literals(1), &vec![1, 3, 3]);
    assert_eq!(inst.occurrences(1), 2);
    assert_eq!(inst.occurrences(-2), 1);
    assert_eq!(inst.occurrences(3), 1);
    assert_eq!(inst.occurrences(2), 0);
    assert_eq!(inst.occurrences(-1), 0);
    assert!(!inst.all_satisfied());
    assert_eq!(inst.queue_len(), 0);
    let mut known = inst.known_variables();
    known.sort();
    assert_eq!(known, vec![1, 2, 3]);
    assert_eq!(inst.input_clauses(), &vec![vec![1, -2], vec![1, 3, 3]]);
}

#[test]
fn assign_binds_once() {
    let mut inst = SatInstance::new(2, 0);
    inst.assign(2);
    assert_eq!(inst.queue_len(), 1);
    assert_eq!(inst.assignments.get(&2), Some(&true));
    inst.assign(2);
    assert_eq!(inst.queue_len(), 1);
    assert_eq!(inst.assignments.len(), 1);
    assert_eq!(inst.current_verdict(), Verdict::Open);
    assert_eq!(inst.input_clauses(), &vec![vec![2], vec![2]]);
}

#[test]
fn assign_against_a_binding_makes_the_formula_unsatisfiable() {
    let mut inst = SatInstance::new(2, 0);
    inst.assign(2);
    inst.assign(-2);
    assert_eq!(inst.current_verdict(), Verdict::Unsat);
    assert_eq!(inst.assignments.get(&2), Some(&true));
    assert_eq!(inst.queue_len(), 2);
    inst.add_clause(vec![1, 3]);
    assert_eq!(inst.table_len(), 1);
    assert_eq!(inst.clause_literals(0), &vec![1, 3]);
    assert_eq!(inst.clause_size(0), 2);
    assert_eq!(inst.occurrences(1), 1);
    assert_eq!(inst.occurrences(3), 1);
    assert!(!inst.all_satisfied());
    inst.assign(-1);
    assert_eq!(inst.assignments.get(&1), Some(&false));
    assert_eq!(inst.queue_len(), 3);
    inst.add_clause(vec![-2]);
    assert_eq!(inst.queue_len(), 4);
    inst.add_clause(vec![2]);
    assert_eq!(inst.queue_len(), 4);
    assert_eq!(inst.current_verdict(), Verdict::Unsat);
    assert!(!inst.solve());
}

#[test]
fn a_clause_without_literals_is_stored_and_refutes() {
    let mut inst = SatInstance::new(2, 2);
    inst.add_clause(vec![]);
    assert_eq!(inst.current_verdict(), Verdict::Unsat);
    assert_eq!(inst.table_len(), 1);
    assert_eq!(inst.clause_literals(0), &Vec::<i32>::new());
    assert_eq!(inst.clause_size(0), 0);
    assert!(!inst.all_satisfied());
    inst.add_clause(vec![1, 2, 2]);
    assert_eq!(inst.table_len(), 2);
    assert_eq!(inst.clause_size(1), 3);
    assert_eq!(inst.occurrences(2), 1);
    assert!(!inst.solve());
}

#[test]
fn value_of_literals() {
    let mut inst = SatInstance::new(3, 0);
    inst.assign(1);
    inst.assign(-3);
    assert!(inst.value(1));
    assert!(!inst.value(-1));
    assert!(inst.value(-3));
    assert!(!inst.value(3));
    assert!(!inst.value(2));
    assert!(!inst.value(-2));
    assert!(!inst.value(0));
    assert!(!inst.value(i32::MIN));
}

#[test]
fn check_evaluates_the_clauses_as_given() {
    let mut inst = SatInstance::new(3, 2);
    inst.add_clause(vec![1, 2]);
    inst.add_clause(vec![-2, 3]);
    assert!(!inst.check());
    inst.assign(1);
    assert!(!inst.check());
    inst.assign(3);
    assert!(inst.check());
}

#[test]
fn set_heuristic_changes_the_heuristic_alone() {
    let mut inst = SatInstance::new(2, 1);
    inst.add_clause(vec![1, 2]);
    inst.set_heuristic(SearchHeuristic::Hybrid);
    assert_eq!(inst.current_heuristic(), SearchHeuristic::Hybrid);
    assert_eq!(inst.table_len(), 1);
    assert_eq!(inst.occurrences(1), 1);
    assert_eq!(inst.current_verdict(), Verdict::Open);
}

#[test]
fn propagation_retires_and_shortens() {
    let mut inst = SatInstance::new(4, 4);
    inst.add_clause(vec![1, 2]);
    inst.add_clause(vec![-1, 2, 3]);
    inst.add_clause(vec![-1, -2, 4]);
    inst.add_clause(vec![1]);
    assert!(!inst.unit_propagate());
    assert_eq!(inst.queue_len(), 0);
    assert_eq!(inst.occurrences(1), 0);
    assert_eq!(inst.occurrences(-1), 0);
    assert_eq!(inst.clause_literals(0), &vec![1, 2]);
    assert_eq!(inst.clause_literals(1), &vec![2, 3]);
    assert_eq!(inst.clause_literals(2), &vec![-2, 4]);
    assert_eq!(inst.occurrences(2), 1);
    assert_eq!(inst.occurrences(-2), 1);
    assert_eq!(inst.occurrences(3), 1);
    assert_eq!(inst.occurrences(4), 1);
    assert!(!inst.all_satisfied());
    assert_eq!(inst.assignments.len(), 1);
}

#[test]
fn propagation_follows_forced_literals() {
    let mut inst = SatInstance::new(3, 3);
    inst.add_clause(vec![-1, 2]);
    inst.add_clause(vec![-2, 3]);
    inst.add_clause(vec![1]);
    assert!(!inst.unit_propagate());
    assert_eq!(inst.assignments.get(&1), Some(&true));
    assert_eq!(inst.assignments.get(&2), Some(&true));
    assert_eq!(inst.assignments.get(&3), Some(&true));
    assert!(inst.all_satisfied());
    assert!(inst.check());
}

#[test]
fn propagation_with_an_empty_queue_changes_nothing() {
    let mut inst = SatInstance::new(3, 2);
    inst.add_clause(vec![1, 2]);
    inst.add_clause(vec![-1, 3]);
    assert_eq!(inst.queue_len(), 0);
    assert!(!inst.unit_propagate());
    assert_eq!(inst.queue_len(), 0);
    assert_eq!(inst.table_len(), 2);
    assert_eq!(inst.clause_literals(0), &vec![1, 2]);
    assert_eq!(inst.clause_literals(1), &vec![-1, 3]);
    assert_eq!(inst.clause_size(0), 2);
    assert_eq!(inst.clause_size(1), 2);
    assert_eq!(inst.occurrences(1), 1);
    assert_eq!(inst.occurrences(-1), 1);
    assert_eq!(inst.assignments.len(), 0);
    assert!(!inst.all_satisfied());
    assert!(inst.current_verdict() == Verdict::Open);
}

#[test]
fn propagation_keeps_the_recorded_sizes() {
    let mut inst = SatInstance::new(4, 3);
    inst.add_clause(vec![-1, 2, 3]);
    inst.add_clause(vec![-1, -2, 3, 4]);
    inst.add_clause(vec![1]);
    assert!(!inst.unit_propagate());
    assert_eq!(inst.clause_literals(0), &vec![2, 3]);
    assert_eq!(inst.clause_size(0), 2);
    assert_eq!(inst.clause_literals(1), &vec![-2, 3, 4]);
    assert_eq!(inst.clause_size(1), 3);
}

#[test]
fn propagation_reports_a_conflict() {
    let mut inst = SatInstance::new(2, 3);
    inst.add_clause(vec![-1, 2]);
    inst.add_clause(vec![-1, -2]);
    inst.add_clause(vec![1]);
    assert!(inst.unit_propagate());
    let mut emptied = SatInstance::new(1, 2);
    emptied.add_clause(vec![-1, -1]);
    emptied.add_clause(vec![1]);
    assert!(emptied.unit_propagate());
}

#[test]
fn the_queue_is_worked_off_last_in_first_out() {
    // 2 is taken first and forces 3; taking 1 first would force -3
    let mut inst = SatInstance::new(3, 4);
    inst.add_clause(vec![-2, 3]);
    inst.add_clause(vec![-1, -3]);
    inst.add_clause(vec![1]);
    inst.add_clause(vec![2]);
    assert!(inst.unit_propagate());
    assert_eq!(inst.assignments.get(&3), Some(&true));
}

#[test]
fn a_repeated_literal_is_not_taken_for_a_unit() {
    let mut inst = SatInstance::new(3, 4);
    inst.add_clause(vec![-1, 3, 3]);
    inst.add_clause(vec![-2, -3, -3]);
    inst.add_clause(vec![1]);
    inst.add_clause(vec![2]);
    assert!(!inst.unit_propagate());
    assert_eq!(inst.clause_literals(0), &vec![3, 3]);
    assert_eq!(inst.clause_literals(1), &vec![-3, -3]);
    assert!(!inst.solve());
}

#[test]
fn a_restore_point_brings_the_store_back() {
    let mut inst = SatInstance::new(3, 3);
    inst.add_clause(vec![1, 2]);
    inst.add_clause(vec![-1, 3]);
    inst.add_clause(vec![-2, -3]);
    let frame = inst.snapshot();
    assert_eq!(inst.occurrences(1), 1);
    assert_eq!(inst.table_len(), 3);
    assert!(inst.assignments.is_empty());
    inst.assign(1);
    assert!(!inst.unit_propagate());
    assert_eq!(inst.occurrences(1), 0);
    assert_eq!(inst.clause_literals(1), &vec![-1, 3]);
    assert_eq!(inst.assignments.get(&3), Some(&true));
    assert_eq!(inst.assignments.get(&2), Some(&false));
    assert!(inst.all_satisfied());
    inst.restore(frame);
    assert!(inst.assignments.is_empty());
    assert_eq!(inst.queue_len(), 0);
    assert_eq!(inst.occurrences(1), 1);
    assert_eq!(inst.occurrences(-1), 1);
    assert_eq!(inst.occurrences(-3), 1);
    assert_eq!(inst.clause_literals(0), &vec![1, 2]);
    assert_eq!(inst.clause_literals(2), &vec![-2, -3]);
    assert!(!inst.all_satisfied());
}

#[test]
fn a_restore_point_keeps_shortened_clauses_apart() {
    let mut inst = SatInstance::new(4, 2);
    inst.add_clause(vec![-1, 2, 3]);
    inst.add_clause(vec![2, 3, 4]);
    let frame = inst.snapshot();
    inst.assign(1);
    assert!(!inst.unit_propagate());
    assert_eq!(inst.clause_literals(0), &vec![2, 3]);
    inst.restore(frame);
    assert_eq!(inst.clause_literals(0), &vec![-1, 2, 3]);
    assert_eq!(inst.occurrences(-1), 1);
}

#[test]
fn search_decides_from_the_store() {
    let mut inst = SatInstance::new(2, 2);
    inst.add_clause(vec![1, 2]);
    inst.add_clause(vec![-1, -2]);
    assert!(inst.search());
    assert!(inst.all_satisfied());
    assert_eq!(inst.queue_len(), 0);
    assert!(inst.check());
}
