use dpll::sat_instance::SatInstance;
use dpll::text::{append_decimal, append_joined, append_signed, digit, solution_text};

#[test]
fn digits_have_their_text() {
    let all: Vec<&str> = (0..10).map(digit).collect();
    assert_eq!(all, vec!["0", "1", "2", "3", "4", "5", "6", "7", "8", "9"]);
}

#[test]
fn numbers_are_written_in_decimal() {
    for n in [0u64, 7, 10, 42, 100, 909, 4294967295, u64::MAX] {
        let mut s = String::from("n=");
        append_decimal(&mut s, n);
        assert_eq!(s, format!("n={}", n));
    }
}

#[test]
fn integers_are_written_with_their_sign() {
    for i in [0, 1, -1, 15, -15, i32::MAX, -i32::MAX, i32::MIN] {
        let mut s = String::new();
        append_signed(&mut s, i);
        assert_eq!(s, format!("{}", i));
    }
}

#[test]
fn lists_are_separated_by_comma_and_blank() {
    let mut s = String::from("[");
    append_joined(&mut s, &vec![1, -2, 30]);
    s.push(']');
    assert_eq!(s, format!("{:?}", vec![1, -2, 30]));
    let mut one = String::new();
    append_joined(&mut one, &vec![-4]);
    assert_eq!(one, "-4");
    let mut none = String::from("x");
    append_joined(&mut none, &vec![]);
    assert_eq!(none, "x");
}

#[test]
fn a_solution_lists_variables_with_their_values() {
    assert_eq!(solution_text(&vec![(1, true), (12, false), (3, true)]), "1 true 12 false 3 true");
    assert_eq!(solution_text(&vec![(5, false)]), "5 false");
    assert_eq!(solution_text(&vec![]), "");
}

#[test]
fn an_instance_is_described_with_its_clauses() {
    let mut inst = SatInstance::new(3, 2);
    inst.add_clause(vec![1, -2]);
    inst.add_clause(vec![2, 3, -1]);
    assert_eq!(
        inst.describe_with(&vec![1, 2, 3]),
        "Number of variables: 3\nNumber of clauses: 2\nVariables: {1, 2, 3}\nClause 1: [1, -2]\nClause 2: [2, 3, -1]"
    );
    let text = inst.to_string();
    assert!(text.starts_with("Number of variables: 3\nNumber of clauses: 2\nVariables: {"));
    assert!(text.ends_with("}\nClause 1: [1, -2]\nClause 2: [2, 3, -1]"));
    let known: std::collections::HashSet<i32> = inst.known_variables().into_iter().collect();
    let middle = &text["Number of variables: 3\nNumber of clauses: 2\nVariables: ".len()
        ..text.len() - "\nClause 1: [1, -2]\nClause 2: [2, 3, -1]".len()];
    let mut listed: Vec<i32> = middle[1..middle.len() - 1]
        .split(", ")
        .map(|t| t.parse::<i32>().unwrap())
        .collect();
    listed.sort();
    let mut expected: Vec<i32> = known.into_iter().collect();
    expected.sort();
    assert_eq!(listed, expected);
}

#[test]
fn an_instance_without_clauses_says_so() {
    let inst = SatInstance::new(0, 0);
    assert_eq!(
        inst.to_string(),
        "Number of variables: 0\nNumber of clauses: 0\nVariables: {}\nNo clauses!"
    );
    let mut units = SatInstance::new(12, 1);
    units.add_var(-7);
    units.add_clause(vec![-7]);
    assert_eq!(
        units.to_string(),
        "Number of variables: 12\nNumber of clauses: 1\nVariables: {7}\nNo clauses!"
    );
}

#[test]
fn the_assignment_is_written_as_a_solution() {
    let mut inst = SatInstance::new(2, 2);
    inst.add_clause(vec![1]);
    assert!(inst.solve());
    assert_eq!(inst.get_assignment_string(), "1 true");
    let mut two = SatInstance::new(2, 2);
    two.add_clause(vec![-1]);
    two.add_clause(vec![2]);
    assert!(two.solve());
    let text = two.get_assignment_string();
    assert!(text == "1 false 2 true" || text == "2 true 1 false");
    assert_eq!(text, solution_text(&two.model()));
    let mut none = SatInstance::new(0, 0);
    assert!(none.solve());
    assert_eq!(none.get_assignment_string(), "");
}
