//! Propositional logic in conjunctive normal form: literals, clauses,
//! assignments, and what it means for an assignment to satisfy a formula.
//!
//! A literal is a non-zero `i32`: `v` says that variable `v` is true, `-v`
//! that it is false. An assignment is a map from variables to truth values; it
//! may be partial. A clause is satisfied by an assignment when one of its
//! literals is bound to the matching polarity, so a satisfying partial
//! assignment stays satisfying however the unbound variables are set.
use vstd::prelude::*;

verus! {

/// A literal that can be stored: non-zero, and with a representable complement.
pub open spec fn valid_lit(l: i32) -> bool {
    l != 0 && l != i32::MIN
}

/// The complement of a literal.
pub open spec fn neg(l: i32) -> i32 {
    (0 - l) as i32
}

/// The variable a literal speaks of.
pub open spec fn var_of(l: i32) -> i32 {
    if l < 0 {
        (0 - l) as i32
    } else {
        l
    }
}

/// The literal that binds variable `v` to `value`.
pub open spec fn lit_for(v: i32, value: bool) -> i32 {
    if value {
        v
    } else {
        (0 - v) as i32
    }
}

/// Every literal of the clause is valid.
pub open spec fn valid_clause(c: Seq<i32>) -> bool {
    forall|i: int| 0 <= i < c.len() ==> valid_lit(#[trigger] c[i])
}

/// Every clause of the formula is made of valid literals.
pub open spec fn valid_formula(f: Seq<Seq<i32>>) -> bool {
    forall|j: int| 0 <= j < f.len() ==> valid_clause(#[trigger] f[j])
}

/// The clause holds a literal together with its complement.
pub open spec fn tautology(c: Seq<i32>) -> bool {
    exists|i: int, j: int|
        0 <= i < c.len() && 0 <= j < c.len() && #[trigger] c[i] == neg(#[trigger] c[j])
}

/// The assignment binds the literal's variable to the literal's polarity.
pub open spec fn lit_true(m: Map<i32, bool>, l: i32) -> bool {
    valid_lit(l) && m.contains_key(var_of(l)) && m[var_of(l)] == (l > 0)
}

/// Some literal of the clause is true under the assignment.
pub open spec fn clause_true(m: Map<i32, bool>, c: Seq<i32>) -> bool {
    exists|i: int| 0 <= i < c.len() && lit_true(m, #[trigger] c[i])
}

/// Every clause of the formula is true under the assignment.
pub open spec fn satisfies(m: Map<i32, bool>, f: Seq<Seq<i32>>) -> bool {
    forall|j: int| 0 <= j < f.len() ==> clause_true(m, #[trigger] f[j])
}

/// Some assignment satisfies the formula.
pub open spec fn satisfiable(f: Seq<Seq<i32>>) -> bool {
    exists|m: Map<i32, bool>| satisfies(m, f)
}

/// The assignment binds every variable.
pub open spec fn total(m: Map<i32, bool>) -> bool {
    forall|v: i32| m.contains_key(v)
}

/// `big` binds every variable that `small` binds, to the same value.
pub open spec fn extends(big: Map<i32, bool>, small: Map<i32, bool>) -> bool {
    forall|v: i32| #[trigger] small.contains_key(v) ==> big.contains_key(v) && big[v] == small[v]
}

/// The total assignment that agrees with `m` and sets every other variable to false.
pub open spec fn completion(m: Map<i32, bool>) -> Map<i32, bool> {
    Map::total(|v: i32| m.contains_key(v) && m[v])
}

/// The variable occurs in the formula, in either polarity.
pub open spec fn occurs(f: Seq<Seq<i32>>, v: i32) -> bool {
    exists|j: int, i: int|
        0 <= j < f.len() && 0 <= i < f[j].len() && var_of(#[trigger] f[j][i]) == v
}

/// The two clauses hold the same literals, whatever their order and multiplicity.
pub open spec fn same_literals(c: Seq<i32>, d: Seq<i32>) -> bool {
    &&& forall|i: int| 0 <= i < c.len() ==> d.contains(#[trigger] c[i])
    &&& forall|i: int| 0 <= i < d.len() ==> c.contains(#[trigger] d[i])
}

/// A valid literal and its complement speak of the same variable with
/// opposite polarities, and the variable is positive.
pub proof fn lemma_neg(l: i32)
    requires
        valid_lit(l),
    ensures
        valid_lit(neg(l)),
        neg(neg(l)) == l,
        neg(l) != l,
        var_of(neg(l)) == var_of(l),
        var_of(l) > 0,
        valid_lit(var_of(l)),
        (neg(l) > 0) == !(l > 0),
        l == var_of(l) || l == neg(var_of(l)),
{
}

/// An extension of an extension is an extension.
pub proof fn lemma_extends_trans(a: Map<i32, bool>, b: Map<i32, bool>, c: Map<i32, bool>)
    requires
        extends(b, a),
        extends(c, b),
    ensures
        extends(c, a),
{
    assert forall|v: i32| #[trigger] a.contains_key(v) implies c.contains_key(v) && c[v] == a[v] by {
        assert(b.contains_key(v));
    }
}

/// A true literal stays true in every extension of the assignment.
pub proof fn lemma_lit_true_extends(small: Map<i32, bool>, big: Map<i32, bool>, l: i32)
    requires
        extends(big, small),
        lit_true(small, l),
    ensures
        lit_true(big, l),
{
}

/// A true clause stays true in every extension of the assignment.
pub proof fn lemma_clause_true_extends(small: Map<i32, bool>, big: Map<i32, bool>, c: Seq<i32>)
    requires
        extends(big, small),
        clause_true(small, c),
    ensures
        clause_true(big, c),
{
    let i = choose|i: int| 0 <= i < c.len() && lit_true(small, #[trigger] c[i]);
    lemma_lit_true_extends(small, big, c[i]);
}

/// An extension of a satisfying assignment is satisfying.
pub proof fn lemma_satisfies_extends(small: Map<i32, bool>, big: Map<i32, bool>, f: Seq<Seq<i32>>)
    requires
        extends(big, small),
        satisfies(small, f),
    ensures
        satisfies(big, f),
{
    assert forall|j: int| 0 <= j < f.len() implies clause_true(big, #[trigger] f[j]) by {
        lemma_clause_true_extends(small, big, f[j]);
    }
}

/// The completion of an assignment is total and extends it.
pub proof fn lemma_completion(m: Map<i32, bool>)
    ensures
        total(completion(m)),
        extends(completion(m), m),
{
}

/// A formula is satisfiable exactly when a total assignment satisfies it.
pub proof fn lemma_satisfiable_by_total(f: Seq<Seq<i32>>)
    ensures
        satisfiable(f) <==> exists|m: Map<i32, bool>| total(m) && satisfies(m, f),
{
    if satisfiable(f) {
        let m = choose|m: Map<i32, bool>| satisfies(m, f);
        lemma_completion(m);
        lemma_satisfies_extends(m, completion(m), f);
        assert(total(completion(m)) && satisfies(completion(m), f));
    }
}

/// Under a total assignment every valid literal is true or its complement is.
pub proof fn lemma_total_decides(m: Map<i32, bool>, l: i32)
    requires
        total(m),
        valid_lit(l),
    ensures
        lit_true(m, l) != lit_true(m, neg(l)),
{
    lemma_neg(l);
    assert(m.contains_key(var_of(l)));
}

/// No assignment makes a literal and its complement true together.
pub proof fn lemma_not_both(m: Map<i32, bool>, l: i32)
    ensures
        !(lit_true(m, l) && lit_true(m, neg(l))),
{
    if valid_lit(l) {
        lemma_neg(l);
    }
}

/// A clause without literals is true under no assignment, so a formula that
/// holds one is unsatisfiable.
pub proof fn lemma_empty_clause_unsat(f: Seq<Seq<i32>>, j: int)
    requires
        0 <= j < f.len(),
        f[j].len() == 0,
    ensures
        !satisfiable(f),
{
    assert forall|m: Map<i32, bool>| !satisfies(m, f) by {
        assert(!clause_true(m, f[j]));
    }
}

/// A formula without clauses is satisfied by every assignment, the empty one included.
pub proof fn lemma_empty_formula_sat(m: Map<i32, bool>)
    ensures
        satisfies(m, Seq::<Seq<i32>>::empty()),
        satisfiable(Seq::<Seq<i32>>::empty()),
{
    assert(satisfies(m, Seq::<Seq<i32>>::empty()));
}

/// A formula reaches no further than its clauses: adding a clause keeps every
/// satisfying assignment of the longer formula satisfying for the shorter one.
pub proof fn lemma_satisfies_push(m: Map<i32, bool>, f: Seq<Seq<i32>>, c: Seq<i32>)
    ensures
        satisfies(m, f.push(c)) <==> satisfies(m, f) && clause_true(m, c),
{
    let g = f.push(c);
    if satisfies(m, g) {
        assert forall|j: int| 0 <= j < f.len() implies clause_true(m, #[trigger] f[j]) by {
            assert(g[j] == f[j]);
        }
        assert(g[f.len() as int] == c);
    }
    if satisfies(m, f) && clause_true(m, c) {
        assert forall|j: int| 0 <= j < g.len() implies clause_true(m, #[trigger] g[j]) by {
            if j < f.len() {
                assert(g[j] == f[j]);
            }
        }
    }
}

/// A tautological clause of valid literals is true under every total
/// assignment, so adding it to a formula does not change whether the formula is
/// satisfiable.
pub proof fn lemma_tautology_irrelevant(f: Seq<Seq<i32>>, c: Seq<i32>)
    requires
        valid_clause(c),
        tautology(c),
    ensures
        forall|m: Map<i32, bool>| total(m) ==> clause_true(m, c),
        satisfiable(f.push(c)) <==> satisfiable(f),
{
    let (i, j) = choose|i: int, j: int|
        0 <= i < c.len() && 0 <= j < c.len() && #[trigger] c[i] == neg(#[trigger] c[j]);
    assert forall|m: Map<i32, bool>| total(m) implies clause_true(m, c) by {
        lemma_total_decides(m, c[j]);
    }
    if satisfiable(f.push(c)) {
        let m = choose|m: Map<i32, bool>| satisfies(m, f.push(c));
        lemma_satisfies_push(m, f, c);
    }
    if satisfiable(f) {
        lemma_satisfiable_by_total(f);
        let m = choose|m: Map<i32, bool>| total(m) && satisfies(m, f);
        lemma_satisfies_push(m, f, c);
    }
}

/// Two clauses with the same literals are true under the same assignments.
pub proof fn lemma_same_literals_same_truth(m: Map<i32, bool>, c: Seq<i32>, d: Seq<i32>)
    requires
        same_literals(c, d),
    ensures
        clause_true(m, c) == clause_true(m, d),
{
    if clause_true(m, c) {
        let i = choose|i: int| 0 <= i < c.len() && lit_true(m, #[trigger] c[i]);
        assert(d.contains(c[i]));
        let k = choose|k: int| 0 <= k < d.len() && d[k] == c[i];
        assert(lit_true(m, d[k]));
    }
    if clause_true(m, d) {
        let i = choose|i: int| 0 <= i < d.len() && lit_true(m, #[trigger] d[i]);
        assert(c.contains(d[i]));
        let k = choose|k: int| 0 <= k < c.len() && c[k] == d[i];
        assert(lit_true(m, c[k]));
    }
}

/// Repeating literals inside a clause, or reordering them, does not change
/// which assignments satisfy the formula, nor whether one exists.
pub proof fn lemma_duplicates_irrelevant(f: Seq<Seq<i32>>, j: int, d: Seq<i32>)
    requires
        0 <= j < f.len(),
        same_literals(f[j], d),
    ensures
        forall|m: Map<i32, bool>| satisfies(m, f.update(j, d)) == satisfies(m, f),
        satisfiable(f.update(j, d)) == satisfiable(f),
{
    let g = f.update(j, d);
    assert forall|m: Map<i32, bool>| satisfies(m, g) == satisfies(m, f) by {
        lemma_same_literals_same_truth(m, f[j], d);
        if satisfies(m, g) {
            assert forall|k: int| 0 <= k < f.len() implies clause_true(m, #[trigger] f[k]) by {
                assert(clause_true(m, g[k]));
            }
        }
        if satisfies(m, f) {
            assert forall|k: int| 0 <= k < g.len() implies clause_true(m, #[trigger] g[k]) by {
                assert(clause_true(m, f[k]));
            }
        }
    }
    if satisfiable(g) {
        let m = choose|m: Map<i32, bool>| satisfies(m, g);
        assert(satisfies(m, f));
    }
    if satisfiable(f) {
        let m = choose|m: Map<i32, bool>| satisfies(m, f);
        assert(satisfies(m, g));
    }
}

/// A variable that occurs in no clause is free: a satisfying assignment stays
/// satisfying when that variable is unbound, or bound to either value.
pub proof fn lemma_unused_variable(m: Map<i32, bool>, f: Seq<Seq<i32>>, v: i32, value: bool)
    requires
        !occurs(f, v),
        satisfies(m, f),
    ensures
        satisfies(m.remove(v), f),
        satisfies(m.insert(v, value), f),
{
    assert forall|j: int| 0 <= j < f.len() implies clause_true(m.remove(v), #[trigger] f[j])
        && clause_true(m.insert(v, value), f[j]) by {
        let i = choose|i: int| 0 <= i < f[j].len() && lit_true(m, #[trigger] f[j][i]);
        assert(var_of(f[j][i]) != v);
        assert(lit_true(m.remove(v), f[j][i]));
        assert(lit_true(m.insert(v, value), f[j][i]));
    }
}

} // verus!
