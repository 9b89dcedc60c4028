//! Assignments as lists of pairs, and the check of a list against clauses.
//!
//! A solver hands its assignment out as pairs of a variable and its value.
//! `satisfied_by` knows nothing of the solver: it reads the pairs into an
//! assignment of its own and evaluates the clauses under it.
use crate::cnf::{lit_true, satisfies, clause_true};
use crate::fx::{map_get, map_insert, map_keys};
use crate::sat_instance::{variable, SatInstance};
use fxhash::FxHashMap;
use vstd::prelude::*;

verus! {

/// The pairs list the assignment: each pair is a binding of it, each of its
/// variables has a pair, and no variable has two.
pub open spec fn represents(pairs: Seq<(i32, bool)>, m: Map<i32, bool>) -> bool {
    &&& forall|i: int|
        0 <= i < pairs.len() ==> m.contains_key((#[trigger] pairs[i]).0) && m[pairs[i].0]
            == pairs[i].1
    &&& forall|v: i32| #[trigger]
        m.contains_key(v) ==> exists|i: int| 0 <= i < pairs.len() && (#[trigger] pairs[i]).0 == v
    &&& forall|i: int, j: int|
        0 <= i < j < pairs.len() ==> (#[trigger] pairs[i]).0 != (#[trigger] pairs[j]).0
}

/// The assignment that the pairs make when they are read in their order; of
/// two pairs for one variable the later one counts.
pub open spec fn map_from(pairs: Seq<(i32, bool)>) -> Map<i32, bool>
    decreases pairs.len(),
{
    if pairs.len() == 0 {
        Map::empty()
    } else {
        map_from(pairs.drop_last()).insert(pairs.last().0, pairs.last().1)
    }
}

/// The clauses, each as the sequence of its literals.
pub open spec fn clauses_of(clauses: Seq<Vec<i32>>) -> Seq<Seq<i32>> {
    Seq::new(clauses.len(), |j: int| clauses[j]@)
}

/// Reading pairs binds exactly the variables that have a pair.
pub proof fn lemma_map_from_keys(pairs: Seq<(i32, bool)>, v: i32)
    ensures
        map_from(pairs).contains_key(v) <==> exists|i: int|
            0 <= i < pairs.len() && (#[trigger] pairs[i]).0 == v,
    decreases pairs.len(),
{
    if pairs.len() > 0 {
        let rest = pairs.drop_last();
        lemma_map_from_keys(rest, v);
        if map_from(pairs).contains_key(v) {
            if v == pairs.last().0 {
                assert(pairs[pairs.len() - 1].0 == v);
            } else {
                let i = choose|i: int| 0 <= i < rest.len() && (#[trigger] rest[i]).0 == v;
                assert(pairs[i].0 == v);
            }
        }
        if exists|i: int| 0 <= i < pairs.len() && (#[trigger] pairs[i]).0 == v {
            let i = choose|i: int| 0 <= i < pairs.len() && (#[trigger] pairs[i]).0 == v;
            if i < rest.len() {
                assert(rest[i].0 == v);
            }
        }
    }
}

/// Where no variable has two pairs, reading the pairs binds each variable to
/// the value of its pair.
pub proof fn lemma_map_from_values(pairs: Seq<(i32, bool)>, i: int)
    requires
        0 <= i < pairs.len(),
        forall|a: int, b: int|
            0 <= a < b < pairs.len() ==> (#[trigger] pairs[a]).0 != (#[trigger] pairs[b]).0,
    ensures
        map_from(pairs).contains_key(pairs[i].0),
        map_from(pairs)[pairs[i].0] == pairs[i].1,
    decreases pairs.len(),
{
    let rest = pairs.drop_last();
    if i < pairs.len() - 1 {
        assert forall|a: int, b: int| 0 <= a < b < rest.len() implies (#[trigger] rest[a]).0 != (
        #[trigger] rest[b]).0 by {
            assert(rest[a] == pairs[a]);
            assert(rest[b] == pairs[b]);
        }
        lemma_map_from_values(rest, i);
        assert(rest[i] == pairs[i]);
        assert(pairs[i].0 != pairs[pairs.len() - 1].0);
    }
}

/// Pairs that list an assignment read back as that assignment.
pub proof fn lemma_read_back(pairs: Seq<(i32, bool)>, m: Map<i32, bool>)
    requires
        represents(pairs, m),
    ensures
        map_from(pairs) == m,
{
    assert forall|v: i32| map_from(pairs).contains_key(v) == m.contains_key(v) by {
        lemma_map_from_keys(pairs, v);
        if map_from(pairs).contains_key(v) {
            let i = choose|i: int| 0 <= i < pairs.len() && (#[trigger] pairs[i]).0 == v;
            assert(m.contains_key(pairs[i].0));
        }
    }
    assert forall|v: i32| map_from(pairs).contains_key(v) implies map_from(pairs)[v] == m[v] by {
        lemma_map_from_keys(pairs, v);
        let i = choose|i: int| 0 <= i < pairs.len() && (#[trigger] pairs[i]).0 == v;
        lemma_map_from_values(pairs, i);
        assert(m[pairs[i].0] == pairs[i].1);
    }
    assert(map_from(pairs) =~= m);
}

/// The round trip: pairs that list an assignment which satisfies a formula,
/// read into a fresh assignment, satisfy the formula.
pub proof fn lemma_round_trip(pairs: Seq<(i32, bool)>, m: Map<i32, bool>, f: Seq<Seq<i32>>)
    requires
        represents(pairs, m),
        satisfies(m, f),
    ensures
        satisfies(map_from(pairs), f),
{
    lemma_read_back(pairs, m);
}

/// Whether the literal is true under the assignment.
pub fn lit_value(m: &FxHashMap<i32, bool>, lit: i32) -> (b: bool)
    ensures
        b == lit_true(m@, lit),
{
    if lit == 0 || lit == i32::MIN {
        return false;
    }
    let v = variable(lit);
    match map_get(m, &v) {
        Some(value) => *value == (lit > 0),
        None => false,
    }
}

/// Whether some literal of the clause is true under the assignment.
pub fn clause_value(m: &FxHashMap<i32, bool>, clause: &Vec<i32>) -> (b: bool)
    ensures
        b == clause_true(m@, clause@),
{
    let mut i: usize = 0;
    while i < clause.len()
        invariant
            i <= clause@.len(),
            forall|h: int| 0 <= h < i ==> !lit_true(m@, #[trigger] clause@[h]),
        decreases clause@.len() - i,
    {
        if lit_value(m, clause[i]) {
            return true;
        }
        i += 1;
    }
    false
}

/// Whether every clause is true under the assignment.
pub fn formula_value(m: &FxHashMap<i32, bool>, clauses: &Vec<Vec<i32>>) -> (b: bool)
    ensures
        b == satisfies(m@, clauses_of(clauses@)),
{
    let mut j: usize = 0;
    while j < clauses.len()
        invariant
            j <= clauses@.len(),
            forall|h: int| 0 <= h < j ==> clause_true(m@, #[trigger] clauses_of(clauses@)[h]),
        decreases clauses@.len() - j,
    {
        assert(clauses_of(clauses@)[j as int] == clauses@[j as int]@);
        if !clause_value(m, &clauses[j]) {
            return false;
        }
        j += 1;
    }
    true
}

/// Reads the pairs into a fresh assignment and says whether it satisfies
/// every clause.
pub fn satisfied_by(clauses: &Vec<Vec<i32>>, pairs: &Vec<(i32, bool)>) -> (ok: bool)
    ensures
        ok == satisfies(map_from(pairs@), clauses_of(clauses@)),
{
    let mut m: FxHashMap<i32, bool> = FxHashMap::default();
    let mut i: usize = 0;
    assert(pairs@.take(0) =~= Seq::<(i32, bool)>::empty());
    while i < pairs.len()
        invariant
            i <= pairs@.len(),
            m@ == map_from(pairs@.take(i as int)),
        decreases pairs@.len() - i,
    {
        let pair = pairs[i];
        proof {
            assert(pairs@.take(i + 1).drop_last() =~= pairs@.take(i as int));
            assert(pairs@.take(i + 1).last() == pair);
        }
        map_insert(&mut m, pair.0, pair.1);
        i += 1;
    }
    assert(pairs@.take(pairs@.len() as int) =~= pairs@);
    formula_value(&m, clauses)
}

impl SatInstance {
    /// The assignment as pairs of a variable and its value, each bound
    /// variable once, in the order in which the assignment walks them.
    pub fn model(&self) -> (pairs: Vec<(i32, bool)>)
        ensures
            represents(pairs@, self.assignment()),
    {
        let keys = map_keys(&self.assignments);
        let mut pairs: Vec<(i32, bool)> = Vec::new();
        let mut i: usize = 0;
        while i < keys.len()
            invariant
                i <= keys@.len(),
                keys@.no_duplicates(),
                keys@.to_set() == self.assignments@.dom(),
                pairs@.len() == i,
                forall|h: int|
                    0 <= h < i ==> (#[trigger] pairs@[h]).0 == keys@[h] && pairs@[h].1
                        == self.assignments@[keys@[h]],
            decreases keys@.len() - i,
        {
            let v = keys[i];
            assert(keys@.to_set().contains(v));
            match map_get(&self.assignments, &v) {
                Some(value) => {
                    pairs.push((v, *value));
                },
                None => {},
            }
            i += 1;
        }
        proof {
            assert forall|h: int| 0 <= h < pairs@.len() implies self.assignments@.contains_key(
                (#[trigger] pairs@[h]).0,
            ) && self.assignments@[pairs@[h].0] == pairs@[h].1 by {
                assert(keys@.to_set().contains(keys@[h]));
            }
            assert forall|v: i32| #[trigger] self.assignments@.contains_key(v) implies exists|
                h: int,
            |
                0 <= h < pairs@.len() && (#[trigger] pairs@[h]).0 == v by {
                assert(keys@.to_set().contains(v));
                let h = choose|h: int| 0 <= h < keys@.len() && keys@[h] == v;
                assert(pairs@[h].0 == v);
            }
        }
        pairs
    }
}

} // verus!
