//! The branching recursion with its restore points, and the verdict.
use crate::cnf::{
    clause_true, extends, lemma_neg, lit_true, neg, satisfiable, satisfies, tautology,
    valid_clause, valid_lit, var_of,
};
use crate::fx::set_clone;
use crate::propagate::{free_count, lemma_free_count_le, lemma_free_count_lt, lemma_same_var};
use crate::sat_instance::{
    all_covered, complement, copy_lits, covered, enqueued, index_ok, keys_ok, listed, lits_of,
    models, stands_for, structure_ok, Clause, SatInstance, Verdict,
};
use fxhash::{FxHashMap, FxHashSet};
use vstd::prelude::*;

verus! {

/// Deciding a literal of an unassigned variable in a settled store keeps
/// the invariant, and leaves strictly less to decide.
pub(crate) proof fn lemma_decided(a: &SatInstance, b: &SatInstance, x: i32, key: i32)
    requires
        a.inv(),
        a.unit_clauses@.len() == 0,
        valid_lit(x),
        a.lit2clause@.contains_key(key),
        var_of(key) == var_of(x),
        enqueued(a, b, x),
    ensures
        !a.assignments@.contains_key(var_of(x)),
        b.inv(),
        extends(b.assignments@, a.assignments@),
        free_count(b.lit2clause@, b.assignments@) < free_count(a.lit2clause@, a.assignments@),
        forall|m: Map<i32, bool>| #[trigger]
            models(b.active@, b.clauses@, b.unit_clauses@, m) ==> models(
                a.active@,
                a.clauses@,
                a.unit_clauses@,
                m,
            ) && lit_true(m, x),
        forall|m: Map<i32, bool>| #[trigger]
            models(a.active@, a.clauses@, a.unit_clauses@, m) && lit_true(m, x) ==> models(
                b.active@,
                b.clauses@,
                b.unit_clauses@,
                m,
            ),
{
    let m0 = a.assignments@;
    let m1 = b.assignments@;
    let q1 = b.unit_clauses@;
    lemma_neg(x);
    assert(b.formula() =~= a.formula());
    assert forall|k: i32| #[trigger] a.lit2clause@.contains_key(k) implies !m0.contains_key(
        var_of(k),
    ) by {
        if m0.contains_key(var_of(k)) {
            assert(a.unit_clauses@.contains(k) || a.unit_clauses@.contains(neg(k)));
        }
    }
    assert(!m0.contains_key(var_of(x)));
    assert(q1 =~= seq![x]);
    assert(q1[0] == x);
    assert(q1.contains(x));
    lemma_free_count_lt(a.lit2clause@, m0, b.lit2clause@, m1, key);
    assert(keys_ok(b.lit2clause@, b.vars@, m1, q1)) by {
        assert forall|l: i32| #[trigger] b.lit2clause@.contains_key(l) implies {
            &&& valid_lit(l)
            &&& b.vars@.contains(var_of(l))
            &&& m1.contains_key(var_of(l)) ==> q1.contains(l) || q1.contains(neg(l))
        } by {
            assert(a.lit2clause@.contains_key(l));
            if m1.contains_key(var_of(l)) {
                lemma_same_var(l, x);
                lemma_neg(l);
            }
        }
    }
    assert(all_covered(m1, b.formula@, b.origin@, b.active@, b.clauses@)) by {
        assert forall|j: int| 0 <= j < b.formula@.len() implies #[trigger] covered(
            m1,
            b.formula@,
            b.origin@,
            b.active@,
            b.clauses@,
            j,
        ) by {
            assert(covered(m0, a.formula@, a.origin@, a.active@, a.clauses@, j));
            if clause_true(m0, a.formula@[j]@) {
                crate::cnf::lemma_clause_true_extends(m0, m1, a.formula@[j]@);
            }
        }
    }
    assert forall|m: Map<i32, bool>| #[trigger]
        models(b.active@, b.clauses@, b.unit_clauses@, m) implies models(
        a.active@,
        a.clauses@,
        a.unit_clauses@,
        m,
    ) && lit_true(m, x) by {
        assert(lit_true(m, q1[0]));
    }
}

/// A store whose collections were copied, with the same contents, is in the
/// invariant where the store it was copied from is, and has the same models.
pub(crate) proof fn lemma_copy_inv(a: &SatInstance, b: &SatInstance)
    requires
        a.inv(),
        b.same_setting(a),
        b.assignments@ == a.assignments@,
        b.lit2clause@ == a.lit2clause@,
        b.active@ == a.active@,
        b.unit_clauses@ == a.unit_clauses@,
        b.clauses@.len() == a.clauses@.len(),
        forall|c: int|
            0 <= c < a.clauses@.len() ==> #[trigger] lits_of(b.clauses@, c) == lits_of(
                a.clauses@,
                c,
            ),
        forall|c: int|
            0 <= c < a.clauses@.len() ==> (#[trigger] b.clauses@[c]).size == lits_of(
                a.clauses@,
                c,
            ).len(),
    ensures
        b.inv(),
        b.table() == a.table(),
        forall|m: Map<i32, bool>| #[trigger] b.state_model(m) == a.state_model(m),
{
    let m0 = a.assignments@;
    assert(b.formula() =~= a.formula());
    assert(b.table() =~= a.table()) by {
        assert forall|c: int| 0 <= c < a.clauses@.len() implies b.table()[c] == a.table()[c] by {
            assert(lits_of(b.clauses@, c) == lits_of(a.clauses@, c));
        }
    }
    assert(structure_ok(b.active@, b.lit2clause@, b.clauses@, b.vars@)) by {
        assert forall|c: usize| #[trigger] b.active@.contains(c) implies c < b.clauses@.len()
            && lits_of(b.clauses@, c as int).len() >= 2 by {
            assert(lits_of(b.clauses@, c as int) == lits_of(a.clauses@, c as int));
        }
        assert forall|c: int| 0 <= c < b.clauses@.len() implies valid_clause(
            #[trigger] lits_of(b.clauses@, c),
        ) && !tautology(lits_of(b.clauses@, c)) && b.clauses@[c].size == lits_of(
            b.clauses@,
            c,
        ).len() by {
            assert(valid_clause(lits_of(a.clauses@, c)));
            assert(lits_of(b.clauses@, c) == lits_of(a.clauses@, c));
        }
    }
    assert(index_ok(b.lit2clause@, b.active@, b.clauses@)) by {
        assert forall|l: i32, c: usize| #[trigger] listed(b.lit2clause@, l, c) implies b.active@.contains(
            c,
        ) && c < b.clauses@.len() && lits_of(b.clauses@, c as int).contains(l) by {
            assert(listed(a.lit2clause@, l, c));
            assert(lits_of(b.clauses@, c as int) == lits_of(a.clauses@, c as int));
        }
        assert forall|c: usize, i: int|
            b.active@.contains(c) && 0 <= i < lits_of(b.clauses@, c as int).len() implies listed(
            b.lit2clause@,
            #[trigger] lits_of(b.clauses@, c as int)[i],
            c,
        ) by {
            assert(lits_of(b.clauses@, c as int) == lits_of(a.clauses@, c as int));
            assert(listed(a.lit2clause@, lits_of(a.clauses@, c as int)[i], c));
        }
    }
    assert(all_covered(m0, b.formula@, b.origin@, b.active@, b.clauses@)) by {
        assert forall|j: int| 0 <= j < b.formula@.len() implies #[trigger] covered(
            m0,
            b.formula@,
            b.origin@,
            b.active@,
            b.clauses@,
            j,
        ) by {
            assert(covered(m0, a.formula@, a.origin@, a.active@, a.clauses@, j));
            if !clause_true(m0, a.formula@[j]@) {
                let c = a.origin@[j];
                assert(stands_for(a.active@, a.clauses@, c, a.formula@[j]@));
                assert(lits_of(b.clauses@, c as int) == lits_of(a.clauses@, c as int));
                assert(stands_for(b.active@, b.clauses@, c, b.formula@[j]@));
            }
        }
    }
    assert forall|m: Map<i32, bool>| #[trigger] b.state_model(m) == a.state_model(m) by {
        if a.state_model(m) {
            assert forall|c: usize| #[trigger] b.active@.contains(c) implies clause_true(
                m,
                lits_of(b.clauses@, c as int),
            ) by {
                assert(lits_of(b.clauses@, c as int) == lits_of(a.clauses@, c as int));
            }
        }
        if b.state_model(m) {
            assert forall|c: usize| #[trigger] a.active@.contains(c) implies clause_true(
                m,
                lits_of(a.clauses@, c as int),
            ) by {
                assert(lits_of(b.clauses@, c as int) == lits_of(a.clauses@, c as int));
            }
        }
    }
}

/// In a settled store without active clauses the assignment satisfies the formula.
pub(crate) proof fn lemma_settled_satisfies(s: &SatInstance)
    requires
        s.inv(),
        s.active@.is_empty(),
    ensures
        satisfies(s.assignments@, s.formula()),
{
    assert forall|j: int| 0 <= j < s.formula().len() implies clause_true(
        s.assignments@,
        #[trigger] s.formula()[j],
    ) by {
        assert(covered(s.assignments@, s.formula@, s.origin@, s.active@, s.clauses@, j));
    }
}

/// Where neither deciding `x` nor deciding its complement leaves a model, the
/// store has none.
pub(crate) proof fn lemma_both_branches_fail(a: &SatInstance, x: i32)
    requires
        valid_lit(x),
        forall|m: Map<i32, bool>| !(#[trigger] a.state_model(m) && lit_true(m, x)),
        forall|m: Map<i32, bool>| !(#[trigger] a.state_model(m) && lit_true(m, neg(x))),
    ensures
        forall|m: Map<i32, bool>| !#[trigger] a.state_model(m),
{
    assert forall|m: Map<i32, bool>| !#[trigger] a.state_model(m) by {
        if a.state_model(m) {
            crate::cnf::lemma_total_decides(m, x);
        }
    }
}

/// A restore point: the assignment, the index, the active set and the clause
/// table as they were when it was taken.
pub struct Frame {
    pub(crate) assignments: FxHashMap<i32, bool>,
    pub(crate) lit2clause: FxHashMap<i32, FxHashSet<usize>>,
    pub(crate) active: FxHashSet<usize>,
    pub(crate) clauses: Vec<Clause>,
}

impl Frame {
    /// The assignment that the frame holds.
    pub open(crate) spec fn assignment(&self) -> Map<i32, bool> {
        self.assignments@
    }

    /// The keys of the index that the frame holds.
    pub open(crate) spec fn keys(&self) -> Set<i32> {
        self.lit2clause@.dom()
    }

    /// The index that the frame holds.
    pub open(crate) spec fn index(&self) -> Map<i32, Set<usize>> {
        Map::new(|l: i32| self.lit2clause@.contains_key(l), |l: i32| self.lit2clause@[l]@)
    }

    /// The active set that the frame holds.
    pub open(crate) spec fn active_set(&self) -> Set<usize> {
        self.active@
    }

    /// The clause table that the frame holds.
    pub open(crate) spec fn table(&self) -> Seq<Seq<i32>> {
        Seq::new(self.clauses@.len(), |c: int| self.clauses@[c].lits@)
    }

    /// The frame holds the very collections of `s`.
    pub open(crate) spec fn taken_from(&self, s: &SatInstance) -> bool {
        &&& self.assignments == s.assignments
        &&& self.lit2clause == s.lit2clause
        &&& self.active == s.active
        &&& self.clauses == s.clauses
    }
}

/// A copy of the clause table.
pub fn copy_clauses(clauses: &Vec<Clause>) -> (r: Vec<Clause>)
    ensures
        r@.len() == clauses@.len(),
        forall|c: int|
            0 <= c < clauses@.len() ==> (#[trigger] lits_of(r@, c)) == lits_of(clauses@, c)
                && r@[c].size == lits_of(clauses@, c).len(),
{
    let mut r: Vec<Clause> = Vec::new();
    let mut i: usize = 0;
    while i < clauses.len()
        invariant
            i <= clauses@.len(),
            r@.len() == i,
            forall|c: int|
                0 <= c < i ==> #[trigger] lits_of(r@, c) == lits_of(clauses@, c) && r@[c].size
                    == lits_of(clauses@, c).len(),
        decreases clauses@.len() - i,
    {
        let lits = copy_lits(&clauses[i].lits);
        let ghost before = r@;
        r.push(Clause::new(lits));
        proof {
            assert forall|c: int| 0 <= c < i + 1 implies #[trigger] lits_of(r@, c) == lits_of(
                clauses@,
                c,
            ) && r@[c].size == lits_of(clauses@, c).len() by {
                if c < i {
                    assert(lits_of(before, c) == lits_of(clauses@, c));
                    assert(r@[c] == before[c]);
                }
            }
        }
        i += 1;
    }
    r
}

impl SatInstance {
    /// How many keys of the index have an unassigned variable: the measure
    /// by which the search ends.
    pub open(crate) spec fn undecided(&self) -> nat {
        free_count(self.lit2clause@, self.assignments@)
    }

    /// Takes a restore point before a decision. The frame holds the
    /// assignment, the index, the active set and the clause table as they are;
    /// the store goes on with copies of them. The queue is not part of the
    /// frame.
    pub fn snapshot(&mut self) -> (frame: Frame)
        ensures
            frame.taken_from(old(self)),
            frame.assignment() == old(self).assignment(),
            frame.index() == old(self).index(),
            frame.active_set() == old(self).active_set(),
            frame.table() == old(self).table(),
            final(self).same_setting(old(self)),
            final(self).formula() == old(self).formula(),
            final(self).variables() == old(self).variables(),
            final(self).heuristic() == old(self).heuristic(),
            final(self).verdict() == old(self).verdict(),
            final(self).assignment() == old(self).assignment(),
            final(self).index() == old(self).index(),
            final(self).keys() == old(self).keys(),
            final(self).active_set() == old(self).active_set(),
            final(self).table() == old(self).table(),
            final(self).queue() == old(self).queue(),
            final(self).undecided() == old(self).undecided(),
            old(self).inv() ==> final(self).inv(),
            old(self).inv() ==> forall|m: Map<i32, bool>| #[trigger]
                final(self).state_model(m) == old(self).state_model(m),
    {
        let mut frame = Frame {
            assignments: self.assignments.clone(),
            lit2clause: self.lit2clause.clone(),
            active: set_clone(&self.active),
            clauses: copy_clauses(&self.clauses),
        };
        std::mem::swap(&mut self.assignments, &mut frame.assignments);
        std::mem::swap(&mut self.lit2clause, &mut frame.lit2clause);
        std::mem::swap(&mut self.active, &mut frame.active);
        std::mem::swap(&mut self.clauses, &mut frame.clauses);
        proof {
            assert forall|c: int| 0 <= c < self.clauses@.len() implies self.table()[c] == old(
                self,
            ).table()[c] by {
                assert(lits_of(self.clauses@, c) == lits_of(old(self).clauses@, c));
            }
            assert(self.table() =~= old(self).table());
            assert(frame.table() =~= old(self).table());
            assert(frame.index() =~= old(self).index());
            assert(self.index() =~= old(self).index());
            if old(self).inv() {
                assert forall|c: int| 0 <= c < old(self).clauses@.len() implies (
                #[trigger] self.clauses@[c]).size == lits_of(old(self).clauses@, c).len() by {
                    assert(lits_of(self.clauses@, c) == lits_of(old(self).clauses@, c));
                }
                lemma_copy_inv(old(self), self);
            }
        }
        frame
    }

    /// Goes back to a restore point: the assignment, the index, the active
    /// set and the clause table are those of the frame, and the queue is
    /// empty.
    pub fn restore(&mut self, frame: Frame)
        ensures
            frame.taken_from(final(self)),
            final(self).same_setting(old(self)),
            final(self).formula() == old(self).formula(),
            final(self).variables() == old(self).variables(),
            final(self).heuristic() == old(self).heuristic(),
            final(self).verdict() == old(self).verdict(),
            final(self).assignment() == frame.assignment(),
            final(self).index() == frame.index(),
            final(self).keys() == frame.keys(),
            final(self).active_set() == frame.active_set(),
            final(self).table() == frame.table(),
            final(self).queue() == Seq::<i32>::empty(),
    {
        self.assignments = frame.assignments;
        self.lit2clause = frame.lit2clause;
        self.active = frame.active;
        self.clauses = frame.clauses;
        self.unit_clauses.clear();
    }

    /// The branching recursion.
    ///
    /// Propagates the forced literals, eliminates the pure ones, and is
    /// done with success if no clause is active. Otherwise it takes a literal
    /// from the heuristic and a restore point, decides the literal, and
    /// searches on; if that fails it goes back to the restore point, decides
    /// the complement, and searches on.
    ///
    /// With success the store is settled, no clause is active, the assignment
    /// extends the one before and satisfies the formula. Without, the store
    /// before had no model.
    pub fn search(&mut self) -> (sat: bool)
        requires
            old(self).inv(),
        ensures
            final(self).same_setting(old(self)),
            final(self).formula() == old(self).formula(),
            final(self).variables() == old(self).variables(),
            final(self).heuristic() == old(self).heuristic(),
            final(self).verdict() == old(self).verdict(),
            sat ==> {
                &&& final(self).inv()
                &&& old(self).wf() ==> final(self).wf()
                &&& final(self).active_set().is_empty()
                &&& final(self).queue().len() == 0
                &&& extends(final(self).assignment(), old(self).assignment())
                &&& satisfies(final(self).assignment(), final(self).formula())
            },
            !sat ==> forall|m: Map<i32, bool>| !#[trigger] old(self).state_model(m),
        decreases old(self).undecided(),
    {
        if self.unit_propagate() {
            return false;
        }
        let ghost w1 = *self;
        self.ple();
        let ghost w2 = *self;
        proof {
            crate::cnf::lemma_extends_trans(
                old(self).assignments@,
                w1.assignments@,
                w2.assignments@,
            );
            lemma_free_count_le(
                old(self).lit2clause@,
                old(self).assignments@,
                w1.lit2clause@,
                w1.assignments@,
            );
            lemma_free_count_le(w1.lit2clause@, w1.assignments@, w2.lit2clause@, w2.assignments@);
        }
        if self.active.is_empty() {
            proof {
                lemma_settled_satisfies(self);
            }
            return true;
        }
        let lit = self.get_branch_lit();
        let frame = self.snapshot();
        let ghost w3 = *self;
        self.enqueue(lit);
        let ghost w4 = *self;
        proof {
            lemma_decided(&w3, &w4, lit, lit);
        }
        if self.search() {
            proof {
                crate::cnf::lemma_extends_trans(w3.assignments@, w4.assignments@, self.assignments@);
                crate::cnf::lemma_extends_trans(
                    old(self).assignments@,
                    w3.assignments@,
                    self.assignments@,
                );
            }
            return true;
        }
        self.restore(frame);
        let ghost w5 = *self;
        let opposite = complement(lit);
        proof {
            lemma_neg(lit);
            assert(w5.formula() =~= w2.formula());
        }
        self.enqueue(opposite);
        let ghost w6 = *self;
        proof {
            lemma_decided(&w5, &w6, opposite, lit);
        }
        let sat = self.search();
        proof {
            if sat {
                crate::cnf::lemma_extends_trans(w5.assignments@, w6.assignments@, self.assignments@);
                crate::cnf::lemma_extends_trans(
                    old(self).assignments@,
                    w5.assignments@,
                    self.assignments@,
                );
            } else {
                assert forall|m: Map<i32, bool>| !(#[trigger] w2.state_model(m) && lit_true(
                    m,
                    lit,
                )) by {
                    if w2.state_model(m) && lit_true(m, lit) {
                        assert(w3.state_model(m));
                        assert(w4.state_model(m));
                    }
                }
                assert forall|m: Map<i32, bool>| !(#[trigger] w2.state_model(m) && lit_true(
                    m,
                    neg(lit),
                )) by {
                    if w2.state_model(m) && lit_true(m, neg(lit)) {
                        assert(w5.state_model(m));
                        assert(w6.state_model(m));
                    }
                }
                lemma_both_branches_fail(&w2, lit);
                assert forall|m: Map<i32, bool>| !#[trigger] old(self).state_model(m) by {
                    if old(self).state_model(m) {
                        assert(w1.state_model(m));
                        assert(w2.state_model(m));
                    }
                }
            }
        }
        sat
    }

    /// Two instances that were decided agree on the verdict where they hold
    /// the same formula, whatever heuristic each of them used and whatever
    /// assignment each of them found.
    pub proof fn lemma_verdicts_agree(&self, other: &SatInstance)
        requires
            self.wf(),
            other.wf(),
            self.formula() == other.formula(),
            self.verdict() != Verdict::Open,
            other.verdict() != Verdict::Open,
        ensures
            self.verdict() == other.verdict(),
    {
        if self.verdict == Verdict::Sat {
            assert(satisfiable(self.formula()));
        }
        if other.verdict == Verdict::Sat {
            assert(satisfiable(other.formula()));
        }
    }

    /// Decides the formula.
    ///
    /// Returns true exactly when some assignment satisfies the formula, and
    /// then the assignment of the instance is one. The verdict is kept: a
    /// second call answers from it.
    pub fn solve(&mut self) -> (sat: bool)
        requires
            old(self).wf(),
        ensures
            final(self).wf(),
            sat == satisfiable(old(self).formula()),
            sat ==> satisfies(final(self).assignment(), final(self).formula()),
            sat ==> forall|v: i32| #[trigger]
                final(self).assignment().contains_key(v) ==> crate::cnf::occurs(
                    final(self).formula(),
                    v,
                ),
            final(self).verdict() == (if sat {
                Verdict::Sat
            } else {
                Verdict::Unsat
            }),
            final(self).formula() == old(self).formula(),
            final(self).variables() == old(self).variables(),
            final(self).heuristic() == old(self).heuristic(),
            old(self).verdict() == Verdict::Sat ==> final(self).assignment() == old(
                self,
            ).assignment(),
            old(self).verdict() == Verdict::Open ==> extends(
                final(self).assignment(),
                old(self).assignment(),
            ) || !sat,
    {
        match self.verdict {
            Verdict::Sat => {
                proof {
                    assert(satisfiable(self.formula()));
                    self.lemma_bound_occurs();
                }
                true
            },
            Verdict::Unsat => false,
            Verdict::Open => {
                let sat = self.search();
                if sat {
                    self.verdict = Verdict::Sat;
                    proof {
                        assert(satisfiable(self.formula()));
                        self.lemma_bound_occurs();
                    }
                } else {
                    self.verdict = Verdict::Unsat;
                    proof {
                        assert forall|m: Map<i32, bool>| !satisfies(m, old(self).formula()) by {
                            if satisfies(m, old(self).formula()) {
                                let t = crate::cnf::completion(m);
                                crate::cnf::lemma_completion(m);
                                crate::cnf::lemma_satisfies_extends(m, t, old(self).formula());
                                assert(old(self).state_model(t));
                            }
                        }
                    }
                }
                sat
            },
        }
    }

    /// Whether every clause of the formula has a literal that is true under
    /// the current assignment.
    pub fn check(&self) -> (ok: bool)
        ensures
            ok == satisfies(self.assignment(), self.formula()),
    {
        assert(crate::model::clauses_of(self.formula@) =~= self.formula());
        crate::model::formula_value(&self.assignments, &self.formula)
    }
}

} // verus!
