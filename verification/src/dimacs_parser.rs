//! DIMACS CNF text.
//!
//! The text is cut into lines at line feeds, and each line into tokens at
//! white space. A line without tokens, or whose first token starts with `c`,
//! is a comment. The first line that is no comment is the problem line,
//! `p cnf <variables> <clauses>`. Every later line that is no comment is a
//! clause: literals, then the token `0`.
use crate::cnf::{tautology, valid_clause, valid_lit, var_of};
use crate::sat_instance::{loaded, with_vars, SatInstance, SearchHeuristic, Verdict};
use vstd::prelude::*;
use vstd::string::StringExecFns;

verus! {

/// White space: the blank, and the control characters from tab to carriage return.
pub open spec fn is_space(b: u8) -> bool {
    b == 32 || (9 <= b && b <= 13)
}

/// What separates lines (a line feed) or tokens (white space).
pub open spec fn is_sep(lines: bool, b: u8) -> bool {
    if lines {
        b == 10
    } else {
        is_space(b)
    }
}

/// The pieces of `s` between separators, in their order, empty pieces left out.
pub open spec fn runs(s: Seq<u8>, lines: bool) -> Seq<Seq<u8>>
    decreases s.len(),
{
    if s.len() == 0 {
        Seq::empty()
    } else {
        let before = runs(s.drop_last(), lines);
        let b = s.last();
        if is_sep(lines, b) {
            before
        } else if s.len() >= 2 && !is_sep(lines, s[s.len() - 2]) {
            before.drop_last().push(before.last().push(b))
        } else {
            before.push(seq![b])
        }
    }
}

/// Each of the lines, cut into its tokens.
pub open spec fn line_tokens(lines: Seq<Seq<u8>>) -> Seq<Seq<Seq<u8>>> {
    Seq::new(lines.len(), |i: int| runs(lines[i], false))
}

/// Each line of the text, cut into its tokens.
pub open spec fn token_lines(text: Seq<u8>) -> Seq<Seq<Seq<u8>>> {
    line_tokens(runs(text, true))
}

/// A decimal digit.
pub open spec fn is_digit(b: u8) -> bool {
    48 <= b && b <= 57
}

/// Every byte is a decimal digit.
pub open spec fn all_digits(s: Seq<u8>) -> bool {
    forall|i: int| 0 <= i < s.len() ==> is_digit(#[trigger] s[i])
}

/// The number that the digits write.
pub open spec fn digits_value(s: Seq<u8>) -> nat
    decreases s.len(),
{
    if s.len() == 0 {
        0
    } else {
        digits_value(s.drop_last()) * 10 + (s.last() - 48) as nat
    }
}

/// The token starts with a sign.
pub open spec fn signed(tok: Seq<u8>) -> bool {
    tok.len() > 0 && (tok[0] == 43 || tok[0] == 45)
}

/// The digits of the token: what follows its sign, if it has one.
pub open spec fn digits_of(tok: Seq<u8>) -> Seq<u8> {
    if signed(tok) {
        tok.skip(1)
    } else {
        tok
    }
}

/// The integer that the token writes: an optional sign, then one decimal
/// digit or more.
pub open spec fn number(tok: Seq<u8>) -> Option<int> {
    if digits_of(tok).len() == 0 || !all_digits(digits_of(tok)) {
        None
    } else if tok[0] == 45 {
        Some(-(digits_value(digits_of(tok)) as int))
    } else {
        Some(digits_value(digits_of(tok)) as int)
    }
}

/// The count that the token writes: a number without a minus sign that
/// fits in 32 bits.
pub open spec fn count_of(tok: Seq<u8>) -> Option<u32> {
    match number(tok) {
        Some(n) => if tok[0] != 45 && n <= u32::MAX {
            Some(n as u32)
        } else {
            None
        },
        None => None,
    }
}

/// The literal that the token writes: a number that is not zero and whose
/// complement fits as well.
pub open spec fn literal_of(tok: Seq<u8>) -> Option<i32> {
    match number(tok) {
        Some(n) => if n != 0 && -i32::MAX <= n && n <= i32::MAX {
            Some(n as i32)
        } else {
            None
        },
        None => None,
    }
}

/// Why a text is no DIMACS CNF.
#[derive(Debug, Copy, Clone, PartialEq, Eq, Structural)]
pub enum ParseError {
    /// No line but comments, or the first other line does not start with `p`.
    NoProblemLine,
    /// The second token of the problem line is not `cnf`.
    NotCnf,
    /// The problem line does not end in two counts.
    BadCounts,
    /// A clause line does not end in the token `0`.
    MissingTerminator,
    /// A token of a clause is no literal.
    BadLiteral,
}

impl ParseError {
    /// What the error says, in words.
    pub open spec fn text(self) -> Seq<char> {
        match self {
            ParseError::NoProblemLine => "Error: DIMACS file does not have problem line"@,
            ParseError::NotCnf => "Error: DIMACS file format is not cnf"@,
            ParseError::BadCounts => "Error: DIMACS problem line does not end in two counts"@,
            ParseError::MissingTerminator => "Error: clause line does not end with 0"@,
            ParseError::BadLiteral => "Error: clause line holds a token that is no literal"@,
        }
    }

    /// What the error says, in words.
    pub fn message(&self) -> (s: String)
        ensures
            s@ == self.text(),
    {
        match self {
            ParseError::NoProblemLine => String::from_str(
                "Error: DIMACS file does not have problem line",
            ),
            ParseError::NotCnf => String::from_str("Error: DIMACS file format is not cnf"),
            ParseError::BadCounts => String::from_str(
                "Error: DIMACS problem line does not end in two counts",
            ),
            ParseError::MissingTerminator => String::from_str(
                "Error: clause line does not end with 0",
            ),
            ParseError::BadLiteral => String::from_str(
                "Error: clause line holds a token that is no literal",
            ),
        }
    }
}

/// The line is a comment: it has no token, or its first token starts with `c`.
pub open spec fn is_comment(tokens: Seq<Seq<u8>>) -> bool {
    tokens.len() == 0 || (tokens[0].len() > 0 && tokens[0][0] == 99)
}

/// The token `p`.
pub open spec fn word_p() -> Seq<u8> {
    seq![112u8]
}

/// The token `cnf`.
pub open spec fn word_cnf() -> Seq<u8> {
    seq![99u8, 110u8, 102u8]
}

/// The token `0`.
pub open spec fn word_zero() -> Seq<u8> {
    seq![48u8]
}

/// The two counts of a problem line, or what is wrong with the line.
pub open spec fn header_of(tokens: Seq<Seq<u8>>) -> Result<(u32, u32), ParseError> {
    if tokens.len() < 1 || tokens[0] != word_p() {
        Err(ParseError::NoProblemLine)
    } else if tokens.len() < 2 || tokens[1] != word_cnf() {
        Err(ParseError::NotCnf)
    } else if tokens.len() != 4 || count_of(tokens[2]) is None || count_of(tokens[3]) is None {
        Err(ParseError::BadCounts)
    } else {
        Ok((count_of(tokens[2])->0, count_of(tokens[3])->0))
    }
}

/// The literals that the tokens write, if each of them writes one.
pub open spec fn literals_of(tokens: Seq<Seq<u8>>) -> Option<Seq<i32>>
    decreases tokens.len(),
{
    if tokens.len() == 0 {
        Some(Seq::empty())
    } else {
        match literals_of(tokens.drop_last()) {
            Some(ls) => match literal_of(tokens.last()) {
                Some(l) => Some(ls.push(l)),
                None => None,
            },
            None => None,
        }
    }
}

/// The clause that a line writes, or what is wrong with the line.
pub open spec fn clause_of(tokens: Seq<Seq<u8>>) -> Result<Seq<i32>, ParseError> {
    if tokens.len() == 0 || tokens.last() != word_zero() {
        Err(ParseError::MissingTerminator)
    } else {
        match literals_of(tokens.drop_last()) {
            Some(c) => Ok(c),
            None => Err(ParseError::BadLiteral),
        }
    }
}

/// The clauses that the lines write, comments left out, or what is wrong
/// with the first line that is wrong.
pub open spec fn clauses_of(lines: Seq<Seq<Seq<u8>>>) -> Result<Seq<Seq<i32>>, ParseError>
    decreases lines.len(),
{
    if lines.len() == 0 {
        Ok(Seq::empty())
    } else {
        match clauses_of(lines.drop_last()) {
            Err(e) => Err(e),
            Ok(cs) => if is_comment(lines.last()) {
                Ok(cs)
            } else {
                match clause_of(lines.last()) {
                    Ok(c) => Ok(cs.push(c)),
                    Err(e) => Err(e),
                }
            },
        }
    }
}

/// Line `h` is the first that is no comment, or `h` is the number of lines
/// and all are comments.
pub open spec fn first_content(lines: Seq<Seq<Seq<u8>>>, h: int) -> bool {
    &&& 0 <= h <= lines.len()
    &&& forall|i: int| 0 <= i < h ==> is_comment(#[trigger] lines[i])
    &&& h < lines.len() ==> !is_comment(lines[h])
}

/// What a problem is made of: the two counts of the problem line, and the clauses.
pub struct Problem {
    pub num_vars: u32,
    pub num_clauses: u32,
    pub clauses: Seq<Seq<i32>>,
}

/// The text, read with line `h` as its problem line.
pub open spec fn parsed_from(lines: Seq<Seq<Seq<u8>>>, h: int) -> Result<Problem, ParseError> {
    if h >= lines.len() {
        Err(ParseError::NoProblemLine)
    } else {
        match header_of(lines[h]) {
            Err(e) => Err(e),
            Ok(counts) => match clauses_of(lines.skip(h + 1)) {
                Err(e) => Err(e),
                Ok(cs) => Ok(Problem { num_vars: counts.0, num_clauses: counts.1, clauses: cs }),
            },
        }
    }
}

/// What the text says: a problem, or why it is no DIMACS CNF.
pub open spec fn parsed(text: Seq<u8>) -> Result<Problem, ParseError> {
    parsed_from(
        token_lines(text),
        choose|h: int| first_content(token_lines(text), h),
    )
}

/// Only one line is the first that is no comment.
pub proof fn lemma_first_content_unique(lines: Seq<Seq<Seq<u8>>>, h: int, k: int)
    requires
        first_content(lines, h),
        first_content(lines, k),
    ensures
        h == k,
{
    if h < k {
        assert(is_comment(lines[h]));
    }
    if k < h {
        assert(is_comment(lines[k]));
    }
}

/// The clauses that an instance keeps when they are added in their order:
/// all but the tautologies.
pub open spec fn kept(cs: Seq<Seq<i32>>) -> Seq<Seq<i32>>
    decreases cs.len(),
{
    if cs.len() == 0 {
        Seq::empty()
    } else if tautology(cs.last()) {
        kept(cs.drop_last())
    } else {
        kept(cs.drop_last()).push(cs.last())
    }
}

/// A total assignment satisfies the clauses exactly when it satisfies those
/// of them that an instance keeps.
pub proof fn lemma_kept_same_models(m: Map<i32, bool>, cs: Seq<Seq<i32>>)
    requires
        crate::cnf::total(m),
        crate::cnf::valid_formula(cs),
    ensures
        crate::cnf::satisfies(m, kept(cs)) <==> crate::cnf::satisfies(m, cs),
    decreases cs.len(),
{
    if cs.len() > 0 {
        let rest = cs.drop_last();
        let c = cs.last();
        assert(cs =~= rest.push(c));
        assert(valid_clause(c));
        assert forall|j: int| 0 <= j < rest.len() implies valid_clause(#[trigger] rest[j]) by {
            assert(rest[j] == cs[j]);
        }
        lemma_kept_same_models(m, rest);
        crate::cnf::lemma_satisfies_push(m, rest, c);
        if tautology(c) {
            crate::cnf::lemma_tautology_irrelevant(rest, c);
        } else {
            crate::cnf::lemma_satisfies_push(m, kept(rest), c);
        }
    }
}

/// Leaving the tautologies out does not change whether the clauses are
/// satisfiable: an instance that was loaded with the clauses decides them.
pub proof fn lemma_kept_equisatisfiable(cs: Seq<Seq<i32>>)
    requires
        crate::cnf::valid_formula(cs),
    ensures
        crate::cnf::satisfiable(kept(cs)) <==> crate::cnf::satisfiable(cs),
{
    crate::cnf::lemma_satisfiable_by_total(cs);
    crate::cnf::lemma_satisfiable_by_total(kept(cs));
    if crate::cnf::satisfiable(cs) {
        let m = choose|m: Map<i32, bool>| crate::cnf::total(m) && crate::cnf::satisfies(m, cs);
        lemma_kept_same_models(m, cs);
    }
    if crate::cnf::satisfiable(kept(cs)) {
        let m = choose|m: Map<i32, bool>|
            crate::cnf::total(m) && crate::cnf::satisfies(m, kept(cs));
        lemma_kept_same_models(m, cs);
    }
}

/// Variable `v` is the variable of one of the first `n` literals of `c`.
pub open spec fn var_among(c: Seq<i32>, n: int, v: i32) -> bool {
    exists|k: int| 0 <= k < n && k < c.len() && var_of(#[trigger] c[k]) == v
}

/// Variable `v` is the variable of a literal of one of the first `n` clauses.
pub open spec fn var_within(cs: Seq<Seq<i32>>, n: int, v: i32) -> bool {
    exists|a: int| 0 <= a < n && a < cs.len() && #[trigger] var_among(cs[a], cs[a].len() as int, v)
}

/// The views of the pieces.
pub open spec fn views(v: Seq<Vec<u8>>) -> Seq<Seq<u8>> {
    Seq::new(v.len(), |i: int| v[i]@)
}

/// The views of the clauses.
pub open spec fn clause_views(v: Seq<Vec<i32>>) -> Seq<Seq<i32>> {
    Seq::new(v.len(), |i: int| v[i]@)
}

/// Adding digits never makes the number smaller.
pub proof fn lemma_digits_grow(s: Seq<u8>, k: int)
    requires
        0 <= k <= s.len(),
    ensures
        digits_value(s.take(k)) <= digits_value(s),
    decreases s.len() - k,
{
    if k < s.len() {
        lemma_digits_grow(s, k + 1);
        assert(s.take(k + 1).drop_last() =~= s.take(k));
    } else {
        assert(s.take(k) =~= s);
    }
}

/// A problem read from a text, as it is handed on.
pub struct Cnf {
    pub num_vars: u32,
    pub num_clauses: u32,
    pub clauses: Vec<Vec<i32>>,
}

impl Cnf {
    /// The problem that this value holds.
    pub open spec fn problem(&self) -> Problem {
        Problem {
            num_vars: self.num_vars,
            num_clauses: self.num_clauses,
            clauses: clause_views(self.clauses@),
        }
    }
}

/// Whether the byte separates lines, or tokens.
pub fn separates(lines: bool, b: u8) -> (r: bool)
    ensures
        r == is_sep(lines, b),
{
    if lines {
        b == 10
    } else {
        b == 32 || (9 <= b && b <= 13)
    }
}

/// Cuts the bytes at separators and leaves the empty pieces out.
pub fn split(s: &[u8], lines: bool) -> (out: Vec<Vec<u8>>)
    ensures
        views(out@) == runs(s@, lines),
        forall|i: int| 0 <= i < out@.len() ==> (#[trigger] out@[i])@.len() > 0,
{
    let mut out: Vec<Vec<u8>> = Vec::new();
    let mut cur: Vec<u8> = Vec::new();
    let mut i: usize = 0;
    proof {
        assert(s@.take(0) =~= Seq::<u8>::empty());
        assert(views(out@) =~= runs(s@.take(0), lines));
    }
    while i < s.len()
        invariant
            i <= s@.len(),
            cur@.len() > 0 <==> (i > 0 && !is_sep(lines, s@[i - 1])),
            cur@.len() == 0 ==> views(out@) == runs(s@.take(i as int), lines),
            cur@.len() > 0 ==> views(out@).push(cur@) == runs(s@.take(i as int), lines),
            forall|h: int| 0 <= h < out@.len() ==> (#[trigger] out@[h])@.len() > 0,
        decreases s@.len() - i,
    {
        let b = s[i];
        let ghost t0 = s@.take(i as int);
        let ghost t1 = s@.take(i + 1);
        let ghost d0 = views(out@);
        let ghost c0 = cur@;
        proof {
            assert(t1.drop_last() =~= t0);
            assert(t1.last() == b);
            if i > 0 {
                assert(t1[t1.len() - 2] == s@[i - 1]);
            }
        }
        if separates(lines, b) {
            proof {
                assert(runs(t1, lines) == runs(t0, lines));
            }
            if cur.len() > 0 {
                out.push(cur);
                cur = Vec::new();
                proof {
                    assert(views(out@) =~= d0.push(c0));
                }
            }
        } else {
            cur.push(b);
            proof {
                if c0.len() > 0 {
                    let r = d0.push(c0);
                    assert(r == runs(t0, lines));
                    assert(r.drop_last() =~= d0);
                    assert(r.last() == c0);
                    assert(runs(t1, lines) == r.drop_last().push(r.last().push(b)));
                    assert(cur@ == c0.push(b));
                } else {
                    assert(d0 == runs(t0, lines));
                    assert(runs(t1, lines) == d0.push(seq![b]));
                    assert(cur@ =~= seq![b]);
                }
            }
        }
        i += 1;
    }
    proof {
        assert(s@.take(s@.len() as int) =~= s@);
    }
    if cur.len() > 0 {
        let ghost d0 = views(out@);
        let ghost c0 = cur@;
        out.push(cur);
        proof {
            assert(views(out@) =~= d0.push(c0));
        }
    }
    out
}

/// The number that the digits of `tok` from `start` on write, where there
/// is a digit, all are digits, and the number is at most `limit`.
pub fn magnitude(tok: &Vec<u8>, start: usize, limit: u64) -> (r: Option<u64>)
    requires
        start <= tok@.len(),
        limit <= 0xFFFF_FFFF,
    ensures
        r == (if tok@.skip(start as int).len() > 0 && all_digits(tok@.skip(start as int))
            && digits_value(tok@.skip(start as int)) <= limit {
            Some(digits_value(tok@.skip(start as int)) as u64)
        } else {
            None
        }),
{
    let ghost d = tok@.skip(start as int);
    if start == tok.len() {
        return None;
    }
    let mut acc: u64 = 0;
    let mut i: usize = start;
    proof {
        assert(d.take(0) =~= Seq::<u8>::empty());
    }
    while i < tok.len()
        invariant
            start <= i <= tok@.len(),
            d == tok@.skip(start as int),
            limit <= 0xFFFF_FFFF,
            all_digits(d.take(i - start)),
            acc == digits_value(d.take(i - start)),
            acc <= limit,
        decreases tok@.len() - i,
    {
        let b = tok[i];
        proof {
            assert(d[i - start] == b);
            assert(d.take(i - start + 1).drop_last() =~= d.take(i - start));
            assert(d.take(i - start + 1).last() == b);
        }
        if b < 48 || b > 57 {
            assert(!is_digit(d[i - start]));
            return None;
        }
        let next = acc * 10 + (b - 48) as u64;
        if next > limit {
            proof {
                lemma_digits_grow(d, i - start + 1);
            }
            return None;
        }
        proof {
            assert forall|h: int| 0 <= h < d.take(i - start + 1).len() implies is_digit(
                #[trigger] d.take(i - start + 1)[h],
            ) by {
                if h < i - start {
                    assert(d.take(i - start)[h] == d[h]);
                }
            }
        }
        acc = next;
        i += 1;
    }
    proof {
        assert(d.take(d.len() as int) =~= d);
    }
    Some(acc)
}

/// The count that the token writes.
pub fn parse_count(tok: &Vec<u8>) -> (r: Option<u32>)
    ensures
        r == count_of(tok@),
{
    if tok.len() == 0 {
        return None;
    }
    let first = tok[0];
    if first == 45 {
        return None;
    }
    let start: usize = if first == 43 {
        1
    } else {
        0
    };
    proof {
        assert(tok@.skip(0) =~= tok@);
        assert(digits_of(tok@) == tok@.skip(start as int));
    }
    match magnitude(tok, start, 0xFFFF_FFFF) {
        Some(m) => Some(m as u32),
        None => None,
    }
}

/// The literal that the token writes.
pub fn parse_literal(tok: &Vec<u8>) -> (r: Option<i32>)
    ensures
        r == literal_of(tok@),
        r is Some ==> valid_lit(r->0),
{
    if tok.len() == 0 {
        return None;
    }
    let first = tok[0];
    let start: usize = if first == 43 || first == 45 {
        1
    } else {
        0
    };
    proof {
        assert(tok@.skip(0) =~= tok@);
        assert(digits_of(tok@) == tok@.skip(start as int));
    }
    match magnitude(tok, start, 0x7FFF_FFFF) {
        Some(m) => {
            if m == 0 {
                None
            } else if first == 45 {
                Some(0 - (m as i32))
            } else {
                Some(m as i32)
            }
        },
        None => None,
    }
}

/// Whether the token is the given word.
pub fn is_word(tok: &Vec<u8>, word: &[u8]) -> (r: bool)
    ensures
        r == (tok@ == word@),
{
    if tok.len() != word.len() {
        return false;
    }
    let mut i: usize = 0;
    while i < tok.len()
        invariant
            i <= tok@.len(),
            tok@.len() == word@.len(),
            forall|h: int| 0 <= h < i ==> tok@[h] == word@[h],
        decreases tok@.len() - i,
    {
        if tok[i] != word[i] {
            return false;
        }
        i += 1;
    }
    assert(tok@ =~= word@);
    true
}

/// Whether the line is a comment.
pub fn comment(tokens: &Vec<Vec<u8>>) -> (r: bool)
    ensures
        r == is_comment(views(tokens@)),
{
    if tokens.len() == 0 {
        return true;
    }
    assert(views(tokens@)[0] == tokens@[0]@);
    tokens[0].len() > 0 && tokens[0][0] == 99
}

/// The two counts of a problem line.
pub fn parse_header(tokens: &Vec<Vec<u8>>) -> (r: Result<(u32, u32), ParseError>)
    ensures
        r == header_of(views(tokens@)),
{
    let ghost t = views(tokens@);
    let p: [u8; 1] = [112];
    let cnf: [u8; 3] = [99, 110, 102];
    proof {
        assert(p@ =~= word_p());
        assert(cnf@ =~= word_cnf());
        assert forall|i: int| 0 <= i < tokens@.len() implies t[i] == tokens@[i]@ by {}
    }
    if tokens.len() < 1 || !is_word(&tokens[0], vstd::array::array_as_slice(&p)) {
        return Err(ParseError::NoProblemLine);
    }
    if tokens.len() < 2 || !is_word(&tokens[1], vstd::array::array_as_slice(&cnf)) {
        return Err(ParseError::NotCnf);
    }
    if tokens.len() != 4 {
        return Err(ParseError::BadCounts);
    }
    match parse_count(&tokens[2]) {
        Some(nv) => match parse_count(&tokens[3]) {
            Some(nc) => Ok((nv, nc)),
            None => Err(ParseError::BadCounts),
        },
        None => Err(ParseError::BadCounts),
    }
}

/// The clause that a line writes.
pub fn parse_clause(tokens: &Vec<Vec<u8>>) -> (r: Result<Vec<i32>, ParseError>)
    ensures
        match r {
            Ok(c) => clause_of(views(tokens@)) == Ok::<Seq<i32>, ParseError>(c@) && valid_clause(c@),
            Err(e) => clause_of(views(tokens@)) == Err::<Seq<i32>, ParseError>(e),
        },
{
    let ghost t = views(tokens@);
    let zero: [u8; 1] = [48];
    proof {
        assert(zero@ =~= word_zero());
        assert forall|i: int| 0 <= i < tokens@.len() implies t[i] == tokens@[i]@ by {}
    }
    if tokens.len() == 0 || !is_word(&tokens[tokens.len() - 1], vstd::array::array_as_slice(&zero)) {
        return Err(ParseError::MissingTerminator);
    }
    let n = tokens.len() - 1;
    let ghost body = t.drop_last();
    proof {
        assert(t.last() == tokens@[n as int]@);
        assert(t.last() == word_zero());
    }
    let mut clause: Vec<i32> = Vec::new();
    let mut i: usize = 0;
    proof {
        assert(body.take(0) =~= Seq::<Seq<u8>>::empty());
    }
    while i < n
        invariant
            i <= n,
            n == tokens@.len() - 1,
            t == views(tokens@),
            t.len() > 0,
            t.last() == word_zero(),
            body == t.drop_last(),
            literals_of(body.take(i as int)) == Some(clause@),
            valid_clause(clause@),
        decreases n - i,
    {
        proof {
            assert(body.take(i + 1).drop_last() =~= body.take(i as int));
            assert(body.take(i + 1).last() == tokens@[i as int]@);
        }
        match parse_literal(&tokens[i]) {
            Some(l) => {
                let ghost c0 = clause@;
                clause.push(l);
                proof {
                    assert(literals_of(body.take(i + 1)) == Some(c0.push(l)));
                }
            },
            None => {
                proof {
                    assert(literal_of(body.take(i + 1).last()) is None);
                    assert(literals_of(body.take(i + 1)) is None);
                    lemma_literals_fail(body, i + 1);
                    assert(literals_of(body) is None);
                    assert(clause_of(t) == Err::<Seq<i32>, ParseError>(ParseError::BadLiteral));
                }
                return Err(ParseError::BadLiteral);
            },
        }
        i += 1;
    }
    proof {
        assert(body.take(n as int) =~= body);
    }
    Ok(clause)
}

/// Where the first tokens do not all write literals, neither do all of them.
pub proof fn lemma_literals_fail(tokens: Seq<Seq<u8>>, k: int)
    requires
        0 <= k <= tokens.len(),
        literals_of(tokens.take(k)) is None,
    ensures
        literals_of(tokens) is None,
    decreases tokens.len() - k,
{
    if k < tokens.len() {
        assert(tokens.take(k + 1).drop_last() =~= tokens.take(k));
        lemma_literals_fail(tokens, k + 1);
    } else {
        assert(tokens.take(k) =~= tokens);
    }
}

/// Where the first lines are wrong, the same is wrong with all of them.
pub proof fn lemma_clauses_fail(lines: Seq<Seq<Seq<u8>>>, k: int)
    requires
        0 <= k <= lines.len(),
        clauses_of(lines.take(k)) is Err,
    ensures
        clauses_of(lines) == clauses_of(lines.take(k)),
    decreases lines.len() - k,
{
    if k < lines.len() {
        assert(lines.take(k + 1).drop_last() =~= lines.take(k));
        lemma_clauses_fail(lines, k + 1);
    } else {
        assert(lines.take(k) =~= lines);
    }
}

pub struct DimacsParser {}

impl DimacsParser {
    /// Finds the problem line among the lines and reads its two counts.
    pub fn find_header(lines: &Vec<Vec<u8>>) -> (r: Result<(usize, u32, u32), ParseError>)
        ensures
            match r {
                Ok(found) => found.0 < lines@.len() && first_content(
                    line_tokens(views(lines@)),
                    found.0 as int,
                ) && header_of(line_tokens(views(lines@))[found.0 as int]) == Ok::<
                    (u32, u32),
                    ParseError,
                >((found.1, found.2)),
                Err(e) => exists|h: int|
                    first_content(line_tokens(views(lines@)), h) && #[trigger] parsed_from(
                        line_tokens(views(lines@)),
                        h,
                    ) == Err::<Problem, ParseError>(e),
            },
    {
        let ghost tl = line_tokens(views(lines@));
        let mut h: usize = 0;
        while h < lines.len()
            invariant
                h <= lines@.len(),
                tl == line_tokens(views(lines@)),
                forall|i: int| 0 <= i < h ==> is_comment(#[trigger] tl[i]),
            decreases lines@.len() - h,
        {
            let tokens = split(vec_as_slice(&lines[h]), false);
            proof {
                assert(views(lines@)[h as int] == lines@[h as int]@);
                assert(tl[h as int] == runs(lines@[h as int]@, false));
                assert(views(tokens@) == tl[h as int]);
            }
            if !comment(&tokens) {
                proof {
                    assert(first_content(tl, h as int));
                }
                match parse_header(&tokens) {
                    Ok(c) => {
                        return Ok((h, c.0, c.1));
                    },
                    Err(e) => {
                        proof {
                            assert(parsed_from(tl, h as int) == Err::<Problem, ParseError>(e));
                        }
                        return Err(e);
                    },
                }
            }
            h += 1;
        }
        proof {
            assert(first_content(tl, h as int));
            assert(parsed_from(tl, h as int) == Err::<Problem, ParseError>(
                ParseError::NoProblemLine,
            ));
        }
        Err(ParseError::NoProblemLine)
    }

    /// Reads the clauses that the lines from `from` on write.
    pub fn read_clauses(lines: &Vec<Vec<u8>>, from: usize) -> (r: Result<
        Vec<Vec<i32>>,
        ParseError,
    >)
        requires
            from <= lines@.len(),
        ensures
            match r {
                Ok(cs) => clauses_of(line_tokens(views(lines@)).skip(from as int)) == Ok::<
                    Seq<Seq<i32>>,
                    ParseError,
                >(clause_views(cs@)) && crate::cnf::valid_formula(clause_views(cs@)),
                Err(e) => clauses_of(line_tokens(views(lines@)).skip(from as int)) == Err::<
                    Seq<Seq<i32>>,
                    ParseError,
                >(e),
            },
    {
        let ghost tl = line_tokens(views(lines@));
        let ghost rest = tl.skip(from as int);
        let mut clauses: Vec<Vec<i32>> = Vec::new();
        let mut i: usize = from;
        proof {
            assert(rest.take(0) =~= Seq::<Seq<Seq<u8>>>::empty());
            assert(clause_views(clauses@) =~= Seq::<Seq<i32>>::empty());
        }
        while i < lines.len()
            invariant
                from <= i <= lines@.len(),
                tl == line_tokens(views(lines@)),
                rest == tl.skip(from as int),
                clauses_of(rest.take(i - from)) == Ok::<Seq<Seq<i32>>, ParseError>(
                    clause_views(clauses@),
                ),
                crate::cnf::valid_formula(clause_views(clauses@)),
            decreases lines@.len() - i,
        {
            let tokens = split(vec_as_slice(&lines[i]), false);
            let ghost before = clause_views(clauses@);
            proof {
                assert(views(lines@)[i as int] == lines@[i as int]@);
                assert(tl[i as int] == runs(lines@[i as int]@, false));
                assert(views(tokens@) == tl[i as int]);
                assert(rest.take(i - from + 1).drop_last() =~= rest.take(i - from));
                assert(rest.take(i - from + 1).last() == tl[i as int]);
                assert(clauses_of(rest.take(i - from + 1)) == (if is_comment(tl[i as int]) {
                    Ok::<Seq<Seq<i32>>, ParseError>(before)
                } else {
                    match clause_of(tl[i as int]) {
                        Ok(c) => Ok::<Seq<Seq<i32>>, ParseError>(before.push(c)),
                        Err(e) => Err::<Seq<Seq<i32>>, ParseError>(e),
                    }
                }));
            }
            if !comment(&tokens) {
                match parse_clause(&tokens) {
                    Ok(c) => {
                        let ghost cv = c@;
                        clauses.push(c);
                        proof {
                            assert(clause_views(clauses@) =~= before.push(cv));
                            crate::sat_instance::lemma_valid_push(before, cv);
                        }
                    },
                    Err(e) => {
                        proof {
                            lemma_clauses_fail(rest, i - from + 1);
                        }
                        return Err(e);
                    },
                }
            }
            i += 1;
        }
        proof {
            assert(rest.take(rest.len() as int) =~= rest);
        }
        Ok(clauses)
    }

    /// Reads a problem from DIMACS CNF text.
    pub fn parse_cnf(text: &[u8]) -> (r: Result<Cnf, ParseError>)
        ensures
            match r {
                Ok(cnf) => parsed(text@) == Ok::<Problem, ParseError>(cnf.problem())
                    && crate::cnf::valid_formula(cnf.problem().clauses),
                Err(e) => parsed(text@) == Err::<Problem, ParseError>(e),
            },
    {
        let lines = split(text, true);
        assert(line_tokens(views(lines@)) == token_lines(text@));
        match Self::find_header(&lines) {
            Err(e) => {
                proof {
                    let h = choose|h: int|
                        first_content(line_tokens(views(lines@)), h) && #[trigger] parsed_from(
                            line_tokens(views(lines@)),
                            h,
                        ) == Err::<Problem, ParseError>(e);
                    Self::lemma_parsed(text@, h);
                }
                Err(e)
            },
            Ok(found) => {
                proof {
                    Self::lemma_parsed(text@, found.0 as int);
                }
                let total = lines.len();
                match Self::read_clauses(&lines, found.0 + 1) {
                    Err(e) => Err(e),
                    Ok(clauses) => Ok(
                        Cnf { num_vars: found.1, num_clauses: found.2, clauses: clauses },
                    ),
                }
            },
        }
    }

    /// With `h` the first line that is no comment, the text says what it
    /// says when read from that line.
    pub proof fn lemma_parsed(text: Seq<u8>, h: int)
        requires
            first_content(token_lines(text), h),
        ensures
            parsed(text) == parsed_from(token_lines(text), h),
    {
        let k = choose|k: int| first_content(token_lines(text), k);
        lemma_first_content_unique(token_lines(text), h, k);
    }

    /// Makes the instance of a problem: the counts of the problem line are
    /// recorded, the variable of every literal becomes known, and the
    /// clauses are added in their order.
    pub fn load(cnf: &Cnf) -> (inst: SatInstance)
        requires
            crate::cnf::valid_formula(cnf.problem().clauses),
        ensures
            inst.wf(),
            inst.pristine(),
            inst.heuristic() == SearchHeuristic::DLIS,
            inst.declared_vars() == cnf.num_vars,
            inst.declared_clauses() == cnf.num_clauses,
            inst.formula() == kept(cnf.problem().clauses),
            inst.store() == loaded(cnf.problem().clauses),
            forall|v: i32|
                inst.variables().contains(v) <==> var_within(
                    cnf.problem().clauses,
                    cnf.problem().clauses.len() as int,
                    v,
                ),
    {
        let mut inst = SatInstance::new(cnf.num_vars, cnf.num_clauses);
        let ghost cs = cnf.problem().clauses;
        let mut j: usize = 0;
        proof {
            assert(cs.take(0) =~= Seq::<Seq<i32>>::empty());
        }
        while j < cnf.clauses.len()
            invariant
                j <= cnf.clauses@.len(),
                cs == cnf.problem().clauses,
                cs.len() == cnf.clauses@.len(),
                crate::cnf::valid_formula(cs),
                inst.wf(),
                inst.pristine(),
                inst.heuristic() == SearchHeuristic::DLIS,
                inst.declared_vars() == cnf.num_vars,
                inst.declared_clauses() == cnf.num_clauses,
                inst.formula() == kept(cs.take(j as int)),
                inst.store() == loaded(cs.take(j as int)),
                forall|v: i32| #[trigger]
                    inst.variables().contains(v) <==> var_within(cs, j as int, v),
            decreases cnf.clauses@.len() - j,
        {
            let clause = &cnf.clauses[j];
            let ghost c = cs[j as int];
            assert(c == clause@);
            assert(valid_clause(c));
            let ghost vars0 = inst.variables();
            let ghost store0 = inst.store();
            let mut i: usize = 0;
            proof {
                assert(c.take(0) =~= Seq::<i32>::empty());
            }
            while i < clause.len()
                invariant
                    i <= clause@.len(),
                    c == clause@,
                    valid_clause(c),
                    inst.store() == with_vars(store0, c.take(i as int)),
                    inst.wf(),
                    inst.pristine(),
                    inst.heuristic() == SearchHeuristic::DLIS,
                    inst.declared_vars() == cnf.num_vars,
                    inst.declared_clauses() == cnf.num_clauses,
                    inst.formula() == kept(cs.take(j as int)),
                    forall|v: i32| #[trigger]
                        inst.variables().contains(v) <==> (vars0.contains(v) || var_among(
                            c,
                            i as int,
                            v,
                        )),
                decreases clause@.len() - i,
            {
                let ghost before = inst.variables();
                inst.add_var(clause[i]);
                proof {
                    assert(clause@[i as int] == c[i as int]);
                    assert(c.take(i + 1).drop_last() =~= c.take(i as int));
                    assert(c.take(i + 1).last() == c[i as int]);
                    assert(inst.variables() == before.insert(var_of(c[i as int])));
                    assert forall|v: i32| #[trigger]
                        inst.variables().contains(v) <==> (vars0.contains(v) || var_among(
                            c,
                            i + 1,
                            v,
                        )) by {
                        assert(before.contains(v) <==> (vars0.contains(v) || var_among(
                            c,
                            i as int,
                            v,
                        )));
                        if var_among(c, i as int, v) {
                            let k = choose|k: int|
                                0 <= k < i && k < c.len() && var_of(#[trigger] c[k]) == v;
                            assert(0 <= k < i + 1 && k < c.len() && var_of(c[k]) == v);
                            assert(var_among(c, i + 1, v));
                        }
                        if v == var_of(c[i as int]) {
                            assert(0 <= i < i + 1 && i < c.len() && var_of(c[i as int]) == v);
                            assert(var_among(c, i + 1, v));
                        }
                        if var_among(c, i + 1, v) {
                            let k = choose|k: int|
                                0 <= k < i + 1 && k < c.len() && var_of(#[trigger] c[k]) == v;
                            if k < i {
                                assert(var_among(c, i as int, v));
                            } else {
                                assert(k == i);
                            }
                        }
                    }
                }
                i += 1;
            }
            let ghost vars1 = inst.variables();
            let copy = crate::sat_instance::copy_lits(clause);
            assert(c.take(c.len() as int) =~= c);
            inst.add_clause(copy);
            proof {
                assert(cs.take(j + 1).drop_last() =~= cs.take(j as int));
                assert(cs.take(j + 1).last() == c);
                assert(inst.store() == loaded(cs.take(j + 1)));
                assert(copy@ == c);
                assert forall|v: i32| #[trigger]
                    inst.variables().contains(v) == vars1.contains(v) by {
                    if crate::sat_instance::stored(c) {
                        if inst.variables().contains(v) && !vars1.contains(v) {
                            let k = choose|k: int|
                                0 <= k < copy@.len() && v == var_of(#[trigger] copy@[k]);
                            assert(0 <= k < c.len() && k < c.len() && var_of(c[k]) == v);
                            assert(var_among(c, c.len() as int, v));
                        }
                    }
                }
                assert forall|v: i32| #[trigger]
                    inst.variables().contains(v) <==> var_within(cs, j + 1, v) by {
                    assert(vars0.contains(v) <==> var_within(cs, j as int, v));
                    assert(vars1.contains(v) <==> (vars0.contains(v) || var_among(
                        c,
                        c.len() as int,
                        v,
                    )));
                    if vars0.contains(v) {
                        let a = choose|a: int|
                            0 <= a < j && a < cs.len() && #[trigger] var_among(
                                cs[a],
                                cs[a].len() as int,
                                v,
                            );
                        assert(0 <= a < j + 1 && var_among(cs[a], cs[a].len() as int, v));
                    }
                    if var_among(c, c.len() as int, v) {
                        assert(var_among(cs[j as int], cs[j as int].len() as int, v));
                    }
                    if var_within(cs, j + 1, v) {
                        let a = choose|a: int|
                            0 <= a < j + 1 && a < cs.len() && #[trigger] var_among(
                                cs[a],
                                cs[a].len() as int,
                                v,
                            );
                        if a < j {
                            assert(var_within(cs, j as int, v));
                        }
                    }
                }
            }
            j += 1;
        }
        proof {
            assert(cs.take(cs.len() as int) =~= cs);
        }
        inst
    }

    /// Reads DIMACS CNF text into an instance: the problem that the text
    /// says, loaded.
    pub fn parse(text: &[u8]) -> (r: Result<SatInstance, ParseError>)
        ensures
            match r {
                Ok(inst) => {
                    &&& parsed(text@) is Ok
                    &&& inst.wf()
                    &&& inst.pristine()
                    &&& inst.heuristic() == SearchHeuristic::DLIS
                    &&& inst.declared_vars() == parsed(text@)->Ok_0.num_vars
                    &&& inst.declared_clauses() == parsed(text@)->Ok_0.num_clauses
                    &&& inst.formula() == kept(parsed(text@)->Ok_0.clauses)
                    &&& inst.store() == loaded(parsed(text@)->Ok_0.clauses)
                    &&& forall|v: i32|
                        inst.variables().contains(v) <==> var_within(
                            parsed(text@)->Ok_0.clauses,
                            parsed(text@)->Ok_0.clauses.len() as int,
                            v,
                        )
                },
                Err(e) => parsed(text@) == Err::<Problem, ParseError>(e),
            },
    {
        match Self::parse_cnf(text) {
            Ok(cnf) => Ok(Self::load(&cnf)),
            Err(e) => Err(e),
        }
    }
}

/// The bytes of a vector, as a slice.
pub fn vec_as_slice(v: &Vec<u8>) -> (s: &[u8])
    ensures
        s@ == v@,
{
    v.as_slice()
}

} // verus!
