use dpll::heuristic::{best, filled_count, place, top_three};
use dpll::sat_instance::{SatInstance, SearchHeuristic};

fn load(clauses: &[Vec<i32>], heuristic: SearchHeuristic) -> SatInstance {
    let mut inst = SatInstance::new(0, clauses.len() as u32);
    inst.set_heuristic(heuristic);
    for c in clauses {
        inst.add_clause(c.clone());
    }
    inst
}

#[test]
fn best_takes_the_first_of_the_largest() {
    assert_eq!(best(&vec![(4, 1), (7, 3), (-2, 3), (5, 2)]), 7);
    assert_eq!(best(&vec![(4, 1)]), 4);
    assert_eq!(best(&vec![(4, 0), (5, 0)]), 0);
    assert_eq!(best(&vec![]), 0);
    assert_eq!(best(&vec![(1, 2), (2, 2), (3, 5), (4, 5)]), 3);
}

#[test]
fn place_puts_a_candidate_before_the_first_smaller_entry() {
    let empty = [(0, 0), (0, 0), (0, 0)];
    assert_eq!(place(empty, (5, 2)), [(5, 2), (0, 0), (0, 0)]);
    assert_eq!(place(empty, (5, 0)), empty);
    let top = [(1, 9), (2, 5), (3, 2)];
    assert_eq!(place(top, (4, 10)), [(4, 10), (1, 9), (2, 5)]);
    assert_eq!(place(top, (4, 9)), [(1, 9), (4, 9), (2, 5)]);
    assert_eq!(place(top, (4, 5)), [(1, 9), (2, 5), (4, 5)]);
    assert_eq!(place(top, (4, 2)), top);
    assert_eq!(place(top, (4, 3)), [(1, 9), (2, 5), (4, 3)]);
}

#[test]
fn top_three_keeps_earlier_candidates_among_equals() {
    assert_eq!(top_three(&vec![]), [(0, 0), (0, 0), (0, 0)]);
    assert_eq!(top_three(&vec![(1, 2)]), [(1, 2), (0, 0), (0, 0)]);
    assert_eq!(
        top_three(&vec![(1, 2), (2, 2), (3, 2), (4, 2)]),
        [(1, 2), (2, 2), (3, 2)]
    );
    assert_eq!(
        top_three(&vec![(1, 1), (2, 4), (3, 0), (4, 3), (5, 4), (6, 9)]),
        [(6, 9), (2, 4), (5, 4)]
    );
    assert_eq!(top_three(&vec![(1, 0), (2, 0)]), [(0, 0), (0, 0), (0, 0)]);
}

#[test]
fn filled_count_counts_the_entries_with_a_literal() {
    assert_eq!(filled_count(&[(0, 0), (0, 0), (0, 0)]), 0);
    assert_eq!(filled_count(&[(3, 1), (0, 0), (0, 0)]), 1);
    assert_eq!(filled_count(&[(3, 2), (-4, 1), (0, 0)]), 2);
    assert_eq!(filled_count(&[(3, 2), (-4, 1), (9, 1)]), 3);
}

#[test]
fn occurrences_count_the_listed_clauses() {
    let inst = load(&[vec![1, 2], vec![1, -2], vec![1, 3], vec![-2, -3]], SearchHeuristic::DLIS);
    assert_eq!(inst.occurrences(1), 3);
    assert_eq!(inst.occurrences(-2), 2);
    assert_eq!(inst.occurrences(2), 1);
    assert_eq!(inst.occurrences(-1), 0);
    assert_eq!(inst.occurrences(9), 0);
}

#[test]
fn candidates_carry_their_counts() {
    let inst = load(&[vec![1, 2], vec![1, -2], vec![-1, -2], vec![-2, 3]], SearchHeuristic::DLIS);
    assert_eq!(
        inst.literal_counts(&vec![1, -2, 3, 5]),
        vec![(1, 2), (-2, 3), (3, 1), (5, 0)]
    );
    assert_eq!(inst.variable_counts(&vec![1, 2, 3, 5]), vec![(1, 3), (-2, 4), (3, 1), (5, 0)]);
}

#[test]
fn the_positive_literal_is_preferred_on_a_tie() {
    let inst = load(&[vec![1, 2], vec![-1, 3]], SearchHeuristic::DLCS);
    assert_eq!(inst.variable_counts(&vec![1]), vec![(1, 2)]);
    let leaning = load(&[vec![-1, 2], vec![-1, 3], vec![1, 4]], SearchHeuristic::DLCS);
    assert_eq!(leaning.variable_counts(&vec![1]), vec![(-1, 3)]);
}

#[test]
fn dlis_returns_the_literal_with_the_most_clauses() {
    let inst = load(&[vec![1, 2], vec![1, -2], vec![1, 3], vec![-2, -3]], SearchHeuristic::DLIS);
    assert_eq!(inst.dlis(), 1);
    assert_eq!(inst.get_branch_lit(), 1);
    let none = SatInstance::new(0, 0);
    assert_eq!(none.dlis(), 0);
}

#[test]
fn dlcs_returns_the_preferred_literal_of_the_busiest_variable() {
    let mut inst = load(
        &[vec![1, 2], vec![1, -2], vec![-2, 3], vec![-2, 4], vec![5, 6]],
        SearchHeuristic::DLCS,
    );
    for v in 1..=6 {
        inst.add_var(v);
    }
    assert_eq!(inst.dlcs(), -2);
    assert_eq!(inst.get_branch_lit(), -2);
    let none = SatInstance::new(0, 0);
    assert_eq!(none.dlcs(), 0);
}

#[test]
fn randomized_dlis_draws_among_the_three_best_literals() {
    let inst = load(
        &[
            vec![1, 2],
            vec![1, -2],
            vec![1, 3],
            vec![1, 6],
            vec![-2, -3],
            vec![-2, 4],
            vec![3, 5],
        ],
        SearchHeuristic::RandDLIS,
    );
    for _ in 0..50 {
        let (top, at) = inst.randomized_dlis();
        assert_eq!(top[0], (1, 4));
        assert_eq!(top[1], (-2, 3));
        assert_eq!(top[2], (3, 2));
        assert!(at < 3);
        let lit = inst.get_branch_lit();
        assert!(lit == 1 || lit == -2 || lit == 3);
    }
}

#[test]
fn randomized_dlis_draws_only_entries_that_hold_a_literal() {
    let inst = load(&[vec![1, 1]], SearchHeuristic::RandDLIS);
    for _ in 0..20 {
        let (top, at) = inst.randomized_dlis();
        assert_eq!(top, [(1, 1), (0, 0), (0, 0)]);
        assert_eq!(at, 0);
        assert_eq!(inst.get_branch_lit(), 1);
    }
}

#[test]
fn randomized_dlcs_draws_among_the_three_busiest_variables() {
    let inst = load(
        &[vec![1, 2], vec![1, -2], vec![-2, 3], vec![-2, 4], vec![-3, 1]],
        SearchHeuristic::RandDLCS,
    );
    for _ in 0..50 {
        let (top, at) = inst.randomized_dlcs();
        assert_eq!(top[0], (-2, 4));
        assert_eq!(top[1], (1, 3));
        assert_eq!(top[2], (3, 2));
        assert!(at < 3);
        let lit = inst.get_branch_lit();
        assert!(lit == -2 || lit == 1 || lit == 3);
    }
}

#[test]
fn hybrid_returns_what_dlis_or_dlcs_returns() {
    let clauses = vec![
        vec![1, 2],
        vec![1, -2],
        vec![1, 3],
        vec![1, 4],
        vec![2, 5],
        vec![2, 6],
        vec![-2, 5],
        vec![-2, 6],
    ];
    assert_eq!(load(&clauses, SearchHeuristic::DLIS).get_branch_lit(), 1);
    assert_eq!(load(&clauses, SearchHeuristic::DLCS).get_branch_lit(), 2);
    let inst = load(&clauses, SearchHeuristic::Hybrid);
    let mut seen_dlis = false;
    let mut seen_dlcs = false;
    for _ in 0..200 {
        let lit = inst.get_branch_lit();
        assert!(lit == 1 || lit == 2);
        if lit == 1 {
            seen_dlis = true;
        } else {
            seen_dlcs = true;
        }
    }
    assert!(seen_dlis && seen_dlcs);
}

#[test]
fn every_heuristic_returns_a_literal_with_a_clause() {
    let clauses = vec![vec![1, -2, 3], vec![-1, 2], vec![2, 3, 4], vec![-3, -4]];
    for h in [
        SearchHeuristic::DLIS,
        SearchHeuristic::DLCS,
        SearchHeuristic::RandDLIS,
        SearchHeuristic::RandDLCS,
        SearchHeuristic::Hybrid,
    ] {
        let inst = load(&clauses, h);
        for _ in 0..20 {
            let lit = inst.get_branch_lit();
            assert_ne!(lit, 0);
            assert!(inst.occurrences(lit) > 0);
        }
    }
}
