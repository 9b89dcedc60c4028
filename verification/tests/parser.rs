use dpll::dimacs_parser::{
    comment, is_word, magnitude, parse_clause, parse_count, parse_header, parse_literal,
    separates, split, DimacsParser, ParseError,
};
use dpll::sat_instance::{SearchHeuristic, Verdict};

fn bytes(s: &str) -> Vec<u8> {
    s.as_bytes().to_vec()
}

fn tokens(line: &str) -> Vec<Vec<u8>> {
    split(line.as_bytes(), false)
}

#[test]
fn white_space_and_line_feeds_separate() {
    for b in [b' ', b'\t', b'\n', 11u8, 12u8, b'\r'] {
        assert!(separates(false, b));
    }
    for b in [b'a', b'0', b'-', 0u8, 8u8, 14u8, 31u8, 33u8, 160u8] {
        assert!(!separates(false, b));
    }
    assert!(separates(true, b'\n'));
    assert!(!separates(true, b' '));
    assert!(!separates(true, b'\r'));
}

#[test]
fn split_cuts_into_the_pieces_between_separators() {
    assert_eq!(split(b"  1 -2\t3  ", false), vec![bytes("1"), bytes("-2"), bytes("3")]);
    assert_eq!(split(b"", false), Vec::<Vec<u8>>::new());
    assert_eq!(split(b" \t ", false), Vec::<Vec<u8>>::new());
    assert_eq!(split(b"abc", false), vec![bytes("abc")]);
    assert_eq!(split(b"a\n\nb c\n", true), vec![bytes("a"), bytes("b c")]);
    assert_eq!(split(b"a\r\nb", true), vec![bytes("a\r"), bytes("b")]);
    assert_eq!(split(b"1 0\r", false), vec![bytes("1"), bytes("0")]);
}

#[test]
fn magnitude_reads_digits_up_to_the_limit() {
    assert_eq!(magnitude(&bytes("123"), 0, 1000), Some(123));
    assert_eq!(magnitude(&bytes("-123"), 1, 1000), Some(123));
    assert_eq!(magnitude(&bytes("1000"), 0, 1000), Some(1000));
    assert_eq!(magnitude(&bytes("1001"), 0, 1000), None);
    assert_eq!(magnitude(&bytes("007"), 0, 1000), Some(7));
    assert_eq!(magnitude(&bytes(""), 0, 1000), None);
    assert_eq!(magnitude(&bytes("-"), 1, 1000), None);
    assert_eq!(magnitude(&bytes("12a"), 0, 1000), None);
    assert_eq!(magnitude(&bytes("99999999999999999999999999"), 0, 0xFFFF_FFFF), None);
}

#[test]
fn counts_are_numbers_without_a_minus_sign() {
    assert_eq!(parse_count(&bytes("0")), Some(0));
    assert_eq!(parse_count(&bytes("42")), Some(42));
    assert_eq!(parse_count(&bytes("+42")), Some(42));
    assert_eq!(parse_count(&bytes("4294967295")), Some(4294967295));
    assert_eq!(parse_count(&bytes("4294967296")), None);
    assert_eq!(parse_count(&bytes("-1")), None);
    assert_eq!(parse_count(&bytes("-0")), None);
    assert_eq!(parse_count(&bytes("")), None);
    assert_eq!(parse_count(&bytes("+")), None);
    assert_eq!(parse_count(&bytes("1x")), None);
    assert_eq!(parse_count(&bytes("1.5")), None);
}

#[test]
fn literals_are_numbers_other_than_zero() {
    assert_eq!(parse_literal(&bytes("1")), Some(1));
    assert_eq!(parse_literal(&bytes("-1")), Some(-1));
    assert_eq!(parse_literal(&bytes("+17")), Some(17));
    assert_eq!(parse_literal(&bytes("-0017")), Some(-17));
    assert_eq!(parse_literal(&bytes("2147483647")), Some(2147483647));
    assert_eq!(parse_literal(&bytes("-2147483647")), Some(-2147483647));
    assert_eq!(parse_literal(&bytes("2147483648")), None);
    assert_eq!(parse_literal(&bytes("-2147483648")), None);
    assert_eq!(parse_literal(&bytes("0")), None);
    assert_eq!(parse_literal(&bytes("-0")), None);
    assert_eq!(parse_literal(&bytes("")), None);
    assert_eq!(parse_literal(&bytes("-")), None);
    assert_eq!(parse_literal(&bytes("--1")), None);
    assert_eq!(parse_literal(&bytes("x")), None);
}

#[test]
fn words_are_compared_byte_by_byte() {
    assert!(is_word(&bytes("cnf"), b"cnf"));
    assert!(!is_word(&bytes("cnf"), b"cn"));
    assert!(!is_word(&bytes("cn"), b"cnf"));
    assert!(!is_word(&bytes("cnF"), b"cnf"));
    assert!(is_word(&bytes(""), b""));
}

#[test]
fn comments_start_with_c() {
    assert!(comment(&tokens("c a comment")));
    assert!(comment(&tokens("   c")));
    assert!(comment(&tokens("comment without a blank")));
    assert!(comment(&tokens("")));
    assert!(comment(&tokens("   \t ")));
    assert!(!comment(&tokens("p cnf 1 1")));
    assert!(!comment(&tokens("1 c 0")));
    assert!(!comment(&tokens("C upper case")));
}

#[test]
fn the_problem_line_has_four_tokens() {
    assert_eq!(parse_header(&tokens("p cnf 3 4")), Ok((3, 4)));
    assert_eq!(parse_header(&tokens("  p   cnf  0 0 ")), Ok((0, 0)));
    assert_eq!(parse_header(&tokens("q cnf 3 4")), Err(ParseError::NoProblemLine));
    assert_eq!(parse_header(&tokens("1 2 0")), Err(ParseError::NoProblemLine));
    assert_eq!(parse_header(&tokens("p")), Err(ParseError::NotCnf));
    assert_eq!(parse_header(&tokens("p dnf 3 4")), Err(ParseError::NotCnf));
    assert_eq!(parse_header(&tokens("p cnf 3")), Err(ParseError::BadCounts));
    assert_eq!(parse_header(&tokens("p cnf")), Err(ParseError::BadCounts));
    assert_eq!(parse_header(&tokens("p cnf 3 4 5")), Err(ParseError::BadCounts));
    assert_eq!(parse_header(&tokens("p cnf -3 4")), Err(ParseError::BadCounts));
    assert_eq!(parse_header(&tokens("p cnf 3 x")), Err(ParseError::BadCounts));
}

#[test]
fn a_clause_line_ends_in_zero() {
    assert_eq!(parse_clause(&tokens("1 -2 3 0")), Ok(vec![1, -2, 3]));
    assert_eq!(parse_clause(&tokens("0")), Ok(vec![]));
    assert_eq!(parse_clause(&tokens("7 0")), Ok(vec![7]));
    assert_eq!(parse_clause(&tokens("1 -2 3")), Err(ParseError::MissingTerminator));
    assert_eq!(parse_clause(&tokens("1 2 00")), Err(ParseError::MissingTerminator));
    assert_eq!(parse_clause(&tokens("1 2 +0")), Err(ParseError::MissingTerminator));
    assert_eq!(parse_clause(&tokens("1 0 2 0")), Err(ParseError::BadLiteral));
    assert_eq!(parse_clause(&tokens("1 x 0")), Err(ParseError::BadLiteral));
    assert_eq!(parse_clause(&tokens("-2147483648 0")), Err(ParseError::BadLiteral));
    assert_eq!(parse_clause(&tokens("x y")), Err(ParseError::MissingTerminator));
}

#[test]
fn a_text_is_read_into_a_problem() {
    let text = b"c example\n\nc more\np cnf 3 2\n1 -2 0\nc between\n\n2 3 -1 0\n";
    let cnf = match DimacsParser::parse_cnf(text) {
        Ok(cnf) => cnf,
        Err(e) => panic!("{:?}", e),
    };
    assert_eq!(cnf.num_vars, 3);
    assert_eq!(cnf.num_clauses, 2);
    assert_eq!(cnf.clauses, vec![vec![1, -2], vec![2, 3, -1]]);
}

#[test]
fn carriage_returns_are_white_space() {
    let text = b"p cnf 2 2\r\n1 2 0\r\n-1 0\r\n";
    let cnf = match DimacsParser::parse_cnf(text) {
        Ok(cnf) => cnf,
        Err(e) => panic!("{:?}", e),
    };
    assert_eq!(cnf.clauses, vec![vec![1, 2], vec![-1]]);
}

fn error_of(text: &str) -> Option<ParseError> {
    match DimacsParser::parse_cnf(text.as_bytes()) {
        Ok(_) => None,
        Err(e) => Some(e),
    }
}

#[test]
fn each_error_has_a_text_that_gives_it() {
    assert_eq!(error_of(""), Some(ParseError::NoProblemLine));
    assert_eq!(error_of("c only comments\n\n"), Some(ParseError::NoProblemLine));
    assert_eq!(error_of("1 2 0\np cnf 2 1\n"), Some(ParseError::NoProblemLine));
    assert_eq!(error_of("p\n"), Some(ParseError::NotCnf));
    assert_eq!(error_of("p sat 2 1\n1 2 0\n"), Some(ParseError::NotCnf));
    assert_eq!(error_of("p cnf 2\n1 2 0\n"), Some(ParseError::BadCounts));
    assert_eq!(error_of("p cnf two 1\n"), Some(ParseError::BadCounts));
    assert_eq!(error_of("p cnf 2 1\n1 2\n"), Some(ParseError::MissingTerminator));
    assert_eq!(error_of("p cnf 2 2\n1 2 0\n-1\n-2 0\n"), Some(ParseError::MissingTerminator));
    assert_eq!(error_of("p cnf 2 1\n1 two 0\n"), Some(ParseError::BadLiteral));
    assert_eq!(error_of("p cnf 2 1\n1 0 2 0\n"), Some(ParseError::BadLiteral));
    assert_eq!(error_of("p cnf 2 2\n1 x 0\n2\n"), Some(ParseError::BadLiteral));
    assert_eq!(error_of("p cnf 2 2\n1 2\n2 x 0\n"), Some(ParseError::MissingTerminator));
    assert_eq!(error_of("p cnf 2 1\np cnf 2 1\n"), Some(ParseError::MissingTerminator));
    assert_eq!(error_of("p cnf 2 1\n1 2 0\n"), None);
}

#[test]
fn a_text_is_loaded_into_an_instance() {
    let text = b"c example\np cnf 4 5\n1 -2 0\n3 0\n2 -2 4 0\n-1 2 4 0\n0\n";
    let mut inst = match DimacsParser::parse(text) {
        Ok(inst) => inst,
        Err(e) => panic!("{:?}", e),
    };
    assert_eq!(inst.num_vars(), 4);
    assert_eq!(inst.num_clauses(), 5);
    assert_eq!(inst.current_heuristic(), SearchHeuristic::DLIS);
    assert_eq!(inst.input_clauses(), &vec![vec![1, -2], vec![3], vec![-1, 2, 4], vec![]]);
    assert_eq!(inst.table_len(), 3);
    assert_eq!(inst.clause_literals(0), &vec![1, -2]);
    assert_eq!(inst.clause_literals(1), &vec![-1, 2, 4]);
    assert_eq!(inst.clause_literals(2), &Vec::<i32>::new());
    assert_eq!(inst.queue_len(), 1);
    assert_eq!(inst.assignments.get(&3), Some(&true));
    assert_eq!(inst.current_verdict(), Verdict::Unsat);
    let mut known = inst.known_variables();
    known.sort();
    assert_eq!(known, vec![1, 2, 3, 4]);
    assert!(!inst.solve());
}

#[test]
fn referenced_variables_widen_the_declared_ones() {
    let mut inst = match DimacsParser::parse(b"p cnf 1 1\n5 -9 0\n") {
        Ok(inst) => inst,
        Err(e) => panic!("{:?}", e),
    };
    assert_eq!(inst.num_vars(), 1);
    let mut known = inst.known_variables();
    known.sort();
    assert_eq!(known, vec![5, 9]);
    assert!(inst.solve());
    assert!(inst.check());
}

#[test]
fn a_wrong_text_gives_no_instance() {
    assert!(matches!(DimacsParser::parse(b"p cnf 1 1\n1\n"), Err(ParseError::MissingTerminator)));
    assert!(matches!(DimacsParser::parse(b""), Err(ParseError::NoProblemLine)));
}

#[test]
fn each_error_says_what_is_wrong() {
    assert_eq!(
        ParseError::NoProblemLine.message(),
        "Error: DIMACS file does not have problem line"
    );
    assert_eq!(ParseError::NotCnf.message(), "Error: DIMACS file format is not cnf");
    assert_eq!(
        ParseError::BadCounts.message(),
        "Error: DIMACS problem line does not end in two counts"
    );
    assert_eq!(
        ParseError::MissingTerminator.message(),
        "Error: clause line does not end with 0"
    );
    assert_eq!(
        ParseError::BadLiteral.message(),
        "Error: clause line holds a token that is no literal"
    );
}

#[test]
fn comments_and_blank_lines_change_nothing() {
    let text = b"c demo\n\np cnf 2 2\n1 2 0\nc mid\n-1 -2 0\n";
    let inst = match DimacsParser::parse(text) {
        Ok(inst) => inst,
        Err(e) => panic!("{:?}", e),
    };
    assert_eq!(inst.table_len(), 2);
    assert_eq!(inst.clause_literals(0), &vec![1, 2]);
    assert_eq!(inst.clause_literals(1), &vec![-1, -2]);
    assert_eq!(inst.clause_size(0), 2);
    assert_eq!(inst.clause_size(1), 2);
    assert!(!inst.all_satisfied());
    assert_eq!(inst.occurrences(1), 1);
    assert_eq!(inst.occurrences(-2), 1);
    let mut known = inst.known_variables();
    known.sort();
    assert_eq!(known, vec![1, 2]);
    assert_eq!(inst.queue_len(), 0);
    assert!(inst.assignments.is_empty());
    assert_eq!(inst.current_verdict(), Verdict::Open);
}
