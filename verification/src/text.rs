//! The instance and its assignment as text.
use crate::fx::set_items;
use crate::model::represents;
use crate::sat_instance::SatInstance;
use vstd::prelude::*;
use vstd::string::StringExecFns;

verus! {

/// The text of a decimal digit.
pub open spec fn digit_text(d: nat) -> Seq<char> {
    if d == 0 {
        "0"@
    } else if d == 1 {
        "1"@
    } else if d == 2 {
        "2"@
    } else if d == 3 {
        "3"@
    } else if d == 4 {
        "4"@
    } else if d == 5 {
        "5"@
    } else if d == 6 {
        "6"@
    } else if d == 7 {
        "7"@
    } else if d == 8 {
        "8"@
    } else {
        "9"@
    }
}

/// The decimal text of a number, without leading zeros.
pub open spec fn decimal(n: nat) -> Seq<char>
    decreases n,
{
    if n < 10 {
        digit_text(n)
    } else {
        decimal(n / 10) + digit_text(n % 10)
    }
}

/// The decimal text of an integer, with a minus sign where it is negative.
pub open spec fn signed_decimal(i: int) -> Seq<char> {
    if i < 0 {
        "-"@ + decimal((-i) as nat)
    } else {
        decimal(i as nat)
    }
}

/// The integers as text, separated by a comma and a blank.
pub open spec fn joined(items: Seq<i32>) -> Seq<char>
    decreases items.len(),
{
    if items.len() == 0 {
        Seq::empty()
    } else if items.len() == 1 {
        signed_decimal(items[0] as int)
    } else {
        joined(items.drop_last()) + ", "@ + signed_decimal(items.last() as int)
    }
}

/// One line for each clause of the table, with its number and its literals,
/// each line after a line break.
pub open spec fn clause_lines(table: Seq<Seq<i32>>) -> Seq<char>
    decreases table.len(),
{
    if table.len() == 0 {
        Seq::empty()
    } else {
        clause_lines(table.drop_last()) + "\nClause "@ + decimal(table.len()) + ": ["@ + joined(
            table.last(),
        ) + "]"@
    }
}

/// The description of an instance: the declared counts, the known variables
/// in the given order, and the clause table.
pub open spec fn description(nv: u32, nc: u32, vars: Seq<i32>, table: Seq<Seq<i32>>) -> Seq<char> {
    "Number of variables: "@ + decimal(nv as nat) + "\nNumber of clauses: "@ + decimal(nc as nat)
        + "\nVariables: {"@ + joined(vars) + "}"@ + (if table.len() == 0 {
        "\nNo clauses!"@
    } else {
        clause_lines(table)
    })
}

/// The text of a truth value.
pub open spec fn truth_text(value: bool) -> Seq<char> {
    if value {
        "true"@
    } else {
        "false"@
    }
}

/// The pairs as text: each variable with its value, all separated by blanks.
pub open spec fn solution(pairs: Seq<(i32, bool)>) -> Seq<char>
    decreases pairs.len(),
{
    if pairs.len() == 0 {
        Seq::empty()
    } else if pairs.len() == 1 {
        signed_decimal(pairs[0].0 as int) + " "@ + truth_text(pairs[0].1)
    } else {
        solution(pairs.drop_last()) + " "@ + signed_decimal(pairs.last().0 as int) + " "@
            + truth_text(pairs.last().1)
    }
}

/// The text of a decimal digit.
pub fn digit(d: u64) -> (t: &'static str)
    requires
        d < 10,
    ensures
        t@ == digit_text(d as nat),
{
    if d == 0 {
        "0"
    } else if d == 1 {
        "1"
    } else if d == 2 {
        "2"
    } else if d == 3 {
        "3"
    } else if d == 4 {
        "4"
    } else if d == 5 {
        "5"
    } else if d == 6 {
        "6"
    } else if d == 7 {
        "7"
    } else if d == 8 {
        "8"
    } else {
        "9"
    }
}

/// Appends the decimal text of a number.
pub fn append_decimal(s: &mut String, n: u64)
    ensures
        final(s)@ == old(s)@ + decimal(n as nat),
    decreases n,
{
    if n >= 10 {
        append_decimal(s, n / 10);
    }
    s.append(digit(n % 10));
    assert(final(s)@ =~= old(s)@ + decimal(n as nat));
}

/// Appends the decimal text of an integer.
pub fn append_signed(s: &mut String, i: i32)
    ensures
        final(s)@ == old(s)@ + signed_decimal(i as int),
{
    if i < 0 {
        s.append("-");
        append_decimal(s, (0 - (i as i64)) as u64);
    } else {
        append_decimal(s, i as u64);
    }
    assert(final(s)@ =~= old(s)@ + signed_decimal(i as int));
}

/// Appends the integers, separated by a comma and a blank.
pub fn append_joined(s: &mut String, items: &Vec<i32>)
    ensures
        final(s)@ == old(s)@ + joined(items@),
{
    let mut i: usize = 0;
    assert(items@.take(0) =~= Seq::<i32>::empty());
    assert(s@ =~= old(s)@ + joined(items@.take(0)));
    while i < items.len()
        invariant
            i <= items@.len(),
            s@ == old(s)@ + joined(items@.take(i as int)),
        decreases items@.len() - i,
    {
        let ghost before = s@;
        proof {
            assert(items@.take(i + 1).drop_last() =~= items@.take(i as int));
            assert(items@.take(i + 1).last() == items@[i as int]);
            assert(items@.take(i + 1)[0] == items@[0]);
        }
        if i > 0 {
            s.append(", ");
        }
        append_signed(s, items[i]);
        assert(s@ =~= old(s)@ + joined(items@.take(i + 1)));
        i += 1;
    }
    assert(items@.take(items@.len() as int) =~= items@);
}

/// The pairs as text: each variable with its value, all separated by blanks.
pub fn solution_text(pairs: &Vec<(i32, bool)>) -> (s: String)
    ensures
        s@ == solution(pairs@),
{
    let mut s = String::new();
    let mut i: usize = 0;
    assert(pairs@.take(0) =~= Seq::<(i32, bool)>::empty());
    while i < pairs.len()
        invariant
            i <= pairs@.len(),
            s@ == solution(pairs@.take(i as int)),
        decreases pairs@.len() - i,
    {
        proof {
            assert(pairs@.take(i + 1).drop_last() =~= pairs@.take(i as int));
            assert(pairs@.take(i + 1).last() == pairs@[i as int]);
            assert(pairs@.take(i + 1)[0] == pairs@[0]);
        }
        if i > 0 {
            s.append(" ");
        }
        append_signed(&mut s, pairs[i].0);
        s.append(" ");
        if pairs[i].1 {
            s.append("true");
        } else {
            s.append("false");
        }
        assert(s@ =~= solution(pairs@.take(i + 1)));
        i += 1;
    }
    assert(pairs@.take(pairs@.len() as int) =~= pairs@);
    s
}

impl SatInstance {
    /// The description of the instance, with the known variables in the
    /// given order.
    pub fn describe_with(&self, vars: &Vec<i32>) -> (s: String)
        ensures
            s@ == description(self.declared_vars(), self.declared_clauses(), vars@, self.table()),
    {
        let mut s = String::new();
        s.append("Number of variables: ");
        append_decimal(&mut s, self.num_vars as u64);
        s.append("\nNumber of clauses: ");
        append_decimal(&mut s, self.num_clauses as u64);
        s.append("\nVariables: {");
        append_joined(&mut s, vars);
        s.append("}");
        let ghost head = s@;
        assert(head =~= "Number of variables: "@ + decimal(self.num_vars as nat)
            + "\nNumber of clauses: "@ + decimal(self.num_clauses as nat) + "\nVariables: {"@
            + joined(vars@) + "}"@);
        if self.clauses.len() == 0 {
            s.append("\nNo clauses!");
        } else {
            let mut i: usize = 0;
            assert(self.table().take(0) =~= Seq::<Seq<i32>>::empty());
            assert(s@ =~= head + clause_lines(self.table().take(0)));
            while i < self.clauses.len()
                invariant
                    i <= self.clauses@.len(),
                    s@ == head + clause_lines(self.table().take(i as int)),
                decreases self.clauses@.len() - i,
            {
                proof {
                    assert(self.table().take(i + 1).drop_last() =~= self.table().take(i as int));
                    assert(self.table().take(i + 1).last() == self.clauses@[i as int].lits@);
                }
                s.append("\nClause ");
                append_decimal(&mut s, (i + 1) as u64);
                s.append(": [");
                append_joined(&mut s, &self.clauses[i].lits);
                s.append("]");
                assert(s@ =~= head + clause_lines(self.table().take(i + 1)));
                i += 1;
            }
            assert(self.table().take(self.clauses@.len() as int) =~= self.table());
        }
        s
    }

    /// The description of the instance: the declared counts, the known
    /// variables in the order in which their set walks them, and the clause
    /// table.
    pub fn to_string(&self) -> (s: String)
        ensures
            exists|vars: Seq<i32>|
                vars.no_duplicates() && vars.to_set() == self.variables() && s@ == #[trigger] description(
                    self.declared_vars(),
                    self.declared_clauses(),
                    vars,
                    self.table(),
                ),
    {
        let vars = set_items(&self.vars);
        let s = self.describe_with(&vars);
        assert(s@ == description(
            self.declared_vars(),
            self.declared_clauses(),
            vars@,
            self.table(),
        ));
        s
    }

    /// The assignment as text: each bound variable with its value, in the
    /// order in which the assignment walks them.
    pub fn get_assignment_string(&self) -> (s: String)
        ensures
            exists|pairs: Seq<(i32, bool)>|
                represents(pairs, self.assignment()) && s@ == #[trigger] solution(pairs),
    {
        let pairs = self.model();
        let s = solution_text(&pairs);
        assert(represents(pairs@, self.assignment()) && s@ == solution(pairs@));
        s
    }
}

} // verus!
