//! The instance store: the clauses of a formula, the occurrence index over
//! them, the partial assignment and the queue of forced literals.
use crate::cnf::{
    clause_true, lit_for, lit_true, neg, satisfiable, satisfies, tautology, total, valid_clause,
    valid_formula, valid_lit, var_of,
};
use crate::fx::{map_contains_key, map_get_mut, map_insert, set_insert, set_items};
use fxhash::{FxHashMap, FxHashSet};
use vstd::prelude::*;

verus! {

/// A clause of the clause table: its literals, and how many there are.
#[derive(Debug, PartialEq, Eq, Hash, Clone)]
pub struct Clause {
    pub lits: Vec<i32>,
    pub size: usize,
}

impl Clause {
    /// The clause of the given literals.
    pub fn new(lits: Vec<i32>) -> (c: Self)
        ensures
            c.lits == lits,
            c.size == lits@.len(),
    {
        return Clause { size: lits.len(), lits: lits };
    }
}

/// The strategy that picks the literal to branch on.
#[derive(Debug, Copy, Clone, PartialEq, Eq, Structural)]
pub enum SearchHeuristic {
    DLIS,
    DLCS,
    RandDLIS,
    RandDLCS,
    Hybrid,
}

/// What is known of the formula: nothing yet, that the current assignment
/// satisfies it, or that no assignment does.
#[derive(Debug, Copy, Clone, PartialEq, Eq, Structural)]
pub enum Verdict {
    Open,
    Sat,
    Unsat,
}

/// A formula in conjunctive normal form with the state of its search: the
/// clause table, the active set, the occurrence index, the partial assignment
/// and the queue of forced literals.
///
/// Clauses are added while the instance is pristine. `solve` decides the
/// formula and keeps the verdict.
pub struct SatInstance {
    pub(crate) search_heuristic: SearchHeuristic,
    pub(crate) num_vars: u32,
    pub(crate) num_clauses: u32,
    pub(crate) vars: FxHashSet<i32>,
    pub(crate) clauses: Vec<Clause>,
    pub(crate) active: FxHashSet<usize>,
    pub(crate) unit_clauses: Vec<i32>,
    pub(crate) lit2clause: FxHashMap<i32, FxHashSet<usize>>,
    pub assignments: FxHashMap<i32, bool>,
    /// Every clause that was added and kept, as it was given.
    pub(crate) formula: Vec<Vec<i32>>,
    /// For each clause of `formula`, the id under which the clause table holds it.
    pub(crate) origin: Ghost<Seq<usize>>,
    pub(crate) verdict: Verdict,
}

/// The number of clauses listed under `l`; zero where `l` is no key.
pub open spec fn occ_of(ix: Map<i32, FxHashSet<usize>>, l: i32) -> nat {
    if ix.contains_key(l) {
        ix[l]@.len()
    } else {
        0
    }
}

/// The current literals of the clause with id `c`.
pub open spec fn lits_of(cl: Seq<Clause>, c: int) -> Seq<i32> {
    cl[c].lits@
}

/// The index lists clause `c` under literal `l`.
pub open spec fn listed(ix: Map<i32, FxHashSet<usize>>, l: i32, c: usize) -> bool {
    ix.contains_key(l) && ix[l]@.contains(c)
}

/// The sets are finite, active ids are ids of the table, an active clause has
/// two literals or more, the stored clauses are made of valid literals, none
/// of them with its complement, each records its length as its size, and the
/// known variables are positive.
pub open spec fn structure_ok(
    active: Set<usize>,
    ix: Map<i32, FxHashSet<usize>>,
    cl: Seq<Clause>,
    vars: Set<i32>,
) -> bool {
    &&& active.finite()
    &&& ix.dom().finite()
    &&& forall|l: i32| #[trigger] ix.contains_key(l) ==> ix[l]@.finite()
    &&& forall|c: usize| #[trigger]
        active.contains(c) ==> c < cl.len() && lits_of(cl, c as int).len() >= 2
    &&& forall|c: int|
        0 <= c < cl.len() ==> valid_clause(#[trigger] lits_of(cl, c)) && !tautology(lits_of(cl, c))
            && cl[c].size == lits_of(cl, c).len()
    &&& forall|v: i32| #[trigger] vars.contains(v) ==> v > 0
}

/// The index lists a clause under a literal exactly when the clause is active
/// and holds the literal.
pub open spec fn index_ok(
    ix: Map<i32, FxHashSet<usize>>,
    active: Set<usize>,
    cl: Seq<Clause>,
) -> bool {
    &&& forall|l: i32, c: usize| #[trigger]
        listed(ix, l, c) ==> active.contains(c) && c < cl.len() && lits_of(cl, c as int).contains(
            l,
        )
    &&& forall|c: usize, i: int|
        active.contains(c) && 0 <= i < lits_of(cl, c as int).len() ==> listed(
            ix,
            #[trigger] lits_of(cl, c as int)[i],
            c,
        )
}

/// Every key of the index is a valid literal of a known variable, and its
/// variable is unassigned unless the literal or its complement is queued.
pub open spec fn keys_ok(
    ix: Map<i32, FxHashSet<usize>>,
    vars: Set<i32>,
    m: Map<i32, bool>,
    q: Seq<i32>,
) -> bool {
    forall|l: i32| #[trigger]
        ix.contains_key(l) ==> {
            &&& valid_lit(l)
            &&& vars.contains(var_of(l))
            &&& m.contains_key(var_of(l)) ==> q.contains(l) || q.contains(neg(l))
        }
}

/// The variable `v` is the variable of some literal of some clause.
pub open spec fn occurs_in(f: Seq<Vec<i32>>, v: i32) -> bool {
    exists|j: int, i: int|
        0 <= j < f.len() && 0 <= i < f[j]@.len() && var_of(#[trigger] f[j]@[i]) == v
}

/// Every key of the index speaks of a variable that occurs in the formula.
pub open spec fn keys_occur(ix: Map<i32, FxHashSet<usize>>, f: Seq<Vec<i32>>) -> bool {
    forall|l: i32| #[trigger] ix.contains_key(l) ==> occurs_in(f, var_of(l))
}

/// Every bound variable occurs in the formula.
pub open spec fn bound_ok(m: Map<i32, bool>, f: Seq<Vec<i32>>) -> bool {
    forall|v: i32| #[trigger] m.contains_key(v) ==> occurs_in(f, v)
}

/// Every queued literal is true under the assignment.
pub open spec fn queue_ok(m: Map<i32, bool>, q: Seq<i32>) -> bool {
    forall|k: int| 0 <= k < q.len() ==> lit_true(m, #[trigger] q[k])
}

/// Clause `c` of the table is active and made of literals of `given`.
pub open spec fn stands_for(
    active: Set<usize>,
    cl: Seq<Clause>,
    c: usize,
    given: Seq<i32>,
) -> bool {
    &&& active.contains(c)
    &&& c < cl.len()
    &&& forall|i: int|
        0 <= i < lits_of(cl, c as int).len() ==> given.contains(#[trigger] lits_of(cl, c as int)[i])
}

/// Clause `j` of the formula is true under the assignment, or the table still
/// holds an active clause for it.
pub open spec fn covered(
    m: Map<i32, bool>,
    f: Seq<Vec<i32>>,
    origin: Seq<usize>,
    active: Set<usize>,
    cl: Seq<Clause>,
    j: int,
) -> bool {
    clause_true(m, f[j]@) || stands_for(active, cl, origin[j], f[j]@)
}

/// Every clause of the formula is covered.
pub open spec fn all_covered(
    m: Map<i32, bool>,
    f: Seq<Vec<i32>>,
    origin: Seq<usize>,
    active: Set<usize>,
    cl: Seq<Clause>,
) -> bool {
    &&& origin.len() == f.len()
    &&& forall|j: int| 0 <= j < f.len() ==> #[trigger] covered(m, f, origin, active, cl, j)
}

/// `m` is a total assignment under which every active clause and every queued
/// literal is true.
pub open spec fn models(
    active: Set<usize>,
    cl: Seq<Clause>,
    q: Seq<i32>,
    m: Map<i32, bool>,
) -> bool {
    &&& total(m)
    &&& forall|c: usize| #[trigger] active.contains(c) ==> clause_true(m, lits_of(cl, c as int))
    &&& forall|k: int| 0 <= k < q.len() ==> lit_true(m, #[trigger] q[k])
}

/// Each bound variable is positive, and the literal that binds it is queued.
pub open spec fn bound_queued(m: Map<i32, bool>, q: Seq<i32>) -> bool {
    forall|v: i32| #[trigger] m.contains_key(v) ==> v > 0 && q.contains(lit_for(v, m[v]))
}

/// What an instance holds: the formula, the clause table with the sizes it
/// records, the active set, the occurrence index, the assignment, the queue,
/// the known variables and the verdict.
#[verifier::ext_equal]
pub struct Store {
    pub formula: Seq<Seq<i32>>,
    pub table: Seq<Seq<i32>>,
    pub sizes: Seq<usize>,
    pub active: Set<usize>,
    pub index: Map<i32, Set<usize>>,
    pub assignment: Map<i32, bool>,
    pub queue: Seq<i32>,
    pub variables: Set<i32>,
    pub verdict: Verdict,
}

/// What a new instance holds.
pub open spec fn fresh() -> Store {
    Store {
        formula: Seq::empty(),
        table: Seq::empty(),
        sizes: Seq::empty(),
        active: Set::empty(),
        index: Map::empty(),
        assignment: Map::empty(),
        queue: Seq::empty(),
        variables: Set::empty(),
        verdict: Verdict::Open,
    }
}

/// The store with the variable of `lit` known.
pub open spec fn with_var(s: Store, lit: i32) -> Store {
    Store { variables: s.variables.insert(var_of(lit)), ..s }
}

/// The store with `lit` taken as given. The formula gains the unit clause.
/// A literal of an unbound variable is bound and queued. A literal that is
/// true changes nothing else. A literal that is false is queued, and the
/// verdict is that the formula is unsatisfiable.
pub open spec fn with_literal(s: Store, lit: i32) -> Store {
    Store {
        formula: s.formula.push(seq![lit]),
        assignment: if s.assignment.contains_key(var_of(lit)) {
            s.assignment
        } else {
            s.assignment.insert(var_of(lit), lit > 0)
        },
        queue: if lit_true(s.assignment, lit) {
            s.queue
        } else {
            s.queue.push(lit)
        },
        verdict: if lit_true(s.assignment, neg(lit)) {
            Verdict::Unsat
        } else {
            s.verdict
        },
        ..s
    }
}

/// The variables of the literals.
pub open spec fn vars_of(lits: Seq<i32>) -> Set<i32> {
    Set::new(|v: i32| exists|i: int| 0 <= i < lits.len() && v == var_of(#[trigger] lits[i]))
}

/// The index with clause `cid` listed under each of the literals.
pub open spec fn index_with(ix: Map<i32, Set<usize>>, lits: Seq<i32>, cid: usize) -> Map<
    i32,
    Set<usize>,
> {
    Map::new(
        |l: i32| ix.contains_key(l) || lits.contains(l),
        |l: i32|
            if lits.contains(l) {
                (if ix.contains_key(l) {
                    ix[l]
                } else {
                    Set::empty()
                }).insert(cid)
            } else {
                ix[l]
            },
    )
}

/// The store with a clause added. A clause of one literal is taken as that
/// literal is. A clause that holds a literal and its complement is dropped.
/// Any other clause joins the formula, gets the next id of the table, is
/// listed under each of its literals and becomes active, and its variables
/// become known; without literals it makes the formula unsatisfiable.
pub open spec fn with_clause(s: Store, lits: Seq<i32>) -> Store {
    if lits.len() == 1 {
        with_literal(s, lits[0])
    } else if tautology(lits) {
        s
    } else {
        Store {
            formula: s.formula.push(lits),
            table: s.table.push(lits),
            sizes: s.sizes.push(lits.len() as usize),
            active: s.active.insert(s.table.len() as usize),
            index: index_with(s.index, lits, s.table.len() as usize),
            variables: s.variables + vars_of(lits),
            verdict: if lits.len() == 0 {
                Verdict::Unsat
            } else {
                s.verdict
            },
            ..s
        }
    }
}

/// The store with the variable of each of the literals known.
pub open spec fn with_vars(s: Store, lits: Seq<i32>) -> Store
    decreases lits.len(),
{
    if lits.len() == 0 {
        s
    } else {
        with_var(with_vars(s, lits.drop_last()), lits.last())
    }
}

/// The store that holds the clauses: a new one, to which for each clause in
/// its turn the variables of its literals and then the clause were added.
pub open spec fn loaded(cs: Seq<Seq<i32>>) -> Store
    decreases cs.len(),
{
    if cs.len() == 0 {
        fresh()
    } else {
        with_clause(with_vars(loaded(cs.drop_last()), cs.last()), cs.last())
    }
}

impl SatInstance {
    /// The formula that this instance decides: the clauses added so far, in
    /// the order they came, without the tautologies.
    pub open(crate) spec fn formula(&self) -> Seq<Seq<i32>> {
        Seq::new(self.formula@.len(), |j: int| self.formula@[j]@)
    }

    /// The clause table: the current literals of each stored clause, by id.
    pub open(crate) spec fn table(&self) -> Seq<Seq<i32>> {
        Seq::new(self.clauses@.len(), |c: int| self.clauses@[c].lits@)
    }

    /// The occurrence index: for each literal that is a key, the ids of the clauses listed
    /// under it.
    pub open(crate) spec fn index(&self) -> Map<i32, Set<usize>> {
        Map::new(|l: i32| self.lit2clause@.contains_key(l), |l: i32| self.lit2clause@[l]@)
    }

    /// The keys of the occurrence index.
    pub open(crate) spec fn keys(&self) -> Set<i32> {
        self.lit2clause@.dom()
    }

    /// The ids of the clauses that the assignment does not satisfy yet.
    pub open(crate) spec fn active_set(&self) -> Set<usize> {
        self.active@
    }

    /// The partial assignment, from variable to truth value.
    pub open(crate) spec fn assignment(&self) -> Map<i32, bool> {
        self.assignments@
    }

    /// The literals that are forced and not yet propagated; the last one is next.
    pub open(crate) spec fn queue(&self) -> Seq<i32> {
        self.unit_clauses@
    }

    /// The known variables.
    pub open(crate) spec fn variables(&self) -> Set<i32> {
        self.vars@
    }

    /// The heuristic in use.
    pub open(crate) spec fn heuristic(&self) -> SearchHeuristic {
        self.search_heuristic
    }

    /// What is known of the formula.
    pub open(crate) spec fn verdict(&self) -> Verdict {
        self.verdict
    }

    /// The number of variables that the problem line declared.
    pub open(crate) spec fn declared_vars(&self) -> u32 {
        self.num_vars
    }

    /// The number of clauses that the problem line declared.
    pub open(crate) spec fn declared_clauses(&self) -> u32 {
        self.num_clauses
    }

    /// The number of active clauses listed under `l`; zero where `l` is no key.
    pub open(crate) spec fn occ(&self, l: i32) -> nat {
        occ_of(self.lit2clause@, l)
    }

    /// The invariant of the store while a search is under way.
    pub open(crate) spec fn inv(&self) -> bool {
        &&& valid_formula(self.formula())
        &&& structure_ok(self.active@, self.lit2clause@, self.clauses@, self.vars@)
        &&& index_ok(self.lit2clause@, self.active@, self.clauses@)
        &&& keys_ok(self.lit2clause@, self.vars@, self.assignments@, self.unit_clauses@)
        &&& keys_occur(self.lit2clause@, self.formula@)
        &&& bound_ok(self.assignments@, self.formula@)
        &&& queue_ok(self.assignments@, self.unit_clauses@)
        &&& all_covered(
            self.assignments@,
            self.formula@,
            self.origin@,
            self.active@,
            self.clauses@,
        )
    }

    /// Every bound variable occurs in the formula.
    pub open(crate) spec fn bound_in_formula(&self) -> bool {
        bound_ok(self.assignments@, self.formula@)
    }

    /// `m` is a total assignment under which every active clause and every
    /// queued literal is true.
    pub open(crate) spec fn state_model(&self, m: Map<i32, bool>) -> bool {
        models(self.active@, self.clauses@, self.unit_clauses@, m)
    }

    /// Every total assignment that satisfies the formula is a model of the
    /// current state: the store has lost no solution.
    pub open(crate) spec fn complete(&self) -> bool {
        forall|m: Map<i32, bool>|
            total(m) && #[trigger] satisfies(m, self.formula()) ==> self.state_model(m)
    }

    /// The instance is well formed: its formula is made of valid literals and
    /// its state matches its verdict.
    pub open(crate) spec fn wf(&self) -> bool {
        &&& valid_formula(self.formula())
        &&& match self.verdict {
            Verdict::Open => self.inv() && self.complete(),
            Verdict::Sat => satisfies(self.assignments@, self.formula()) && bound_ok(
                self.assignments@,
                self.formula@,
            ),
            Verdict::Unsat => !satisfiable(self.formula()),
        }
    }

    /// The store is settled: it is in its invariant and nothing waits in
    /// the queue.
    pub open(crate) spec fn settled(&self) -> bool {
        self.inv() && self.unit_clauses@.len() == 0
    }

    /// A well-formed instance with an open verdict is in the invariant of the store.
    pub proof fn lemma_open_inv(&self)
        requires
            self.wf(),
            self.verdict() == Verdict::Open,
        ensures
            self.inv(),
            self.complete(),
    {
    }

    /// In the invariant of the store every clause of the table records its
    /// length as its size.
    pub proof fn lemma_sizes(&self)
        requires
            self.inv(),
        ensures
            self.sizes().len() == self.table().len(),
            forall|c: int|
                0 <= c < self.table().len() ==> #[trigger] self.sizes()[c] == self.table()[c].len(),
    {
        assert forall|c: int| 0 <= c < self.table().len() implies #[trigger] self.sizes()[c]
            == self.table()[c].len() by {
            assert(self.clauses@[c].size == lits_of(self.clauses@, c).len());
        }
    }

    /// In a settled store no key of the index speaks of an assigned variable,
    /// and every active clause has two literals or more, none of them of an
    /// assigned variable, none of them with its complement.
    pub proof fn lemma_settled(&self)
        requires
            self.settled(),
        ensures
            forall|l: i32| #[trigger]
                self.keys().contains(l) ==> valid_lit(l) && !self.assignment().contains_key(
                    var_of(l),
                ),
            forall|c: usize| #[trigger]
                self.active_set().contains(c) ==> c < self.table().len() && self.table()[c as int].len()
                    >= 2 && !tautology(self.table()[c as int]),
            forall|c: usize, i: int|
                self.active_set().contains(c) && 0 <= i < self.table()[c as int].len()
                    ==> self.keys().contains(#[trigger] self.table()[c as int][i])
                    && !self.assignment().contains_key(var_of(self.table()[c as int][i])),
    {
        assert forall|l: i32| #[trigger] self.keys().contains(l) implies valid_lit(l)
            && !self.assignment().contains_key(var_of(l)) by {
            if self.assignments@.contains_key(var_of(l)) {
                assert(self.unit_clauses@.contains(l) || self.unit_clauses@.contains(neg(l)));
            }
        }
        assert forall|c: usize| #[trigger] self.active_set().contains(c) implies c
            < self.table().len() && self.table()[c as int].len() >= 2 && !tautology(
            self.table()[c as int],
        ) by {
            assert(lits_of(self.clauses@, c as int) == self.table()[c as int]);
        }
        assert forall|c: usize, i: int|
            self.active_set().contains(c) && 0 <= i < self.table()[c as int].len()
                implies self.keys().contains(#[trigger] self.table()[c as int][i])
            && !self.assignment().contains_key(var_of(self.table()[c as int][i])) by {
            assert(lits_of(self.clauses@, c as int) == self.table()[c as int]);
            assert(listed(self.lit2clause@, lits_of(self.clauses@, c as int)[i], c));
        }
    }

    /// Where every bound variable occurs in the recorded clauses, it occurs
    /// in the formula.
    pub proof fn lemma_bound_occurs(&self)
        requires
            self.bound_in_formula(),
        ensures
            forall|v: i32| #[trigger]
                self.assignment().contains_key(v) ==> crate::cnf::occurs(self.formula(), v),
    {
        assert forall|v: i32| #[trigger]
            self.assignment().contains_key(v) implies crate::cnf::occurs(self.formula(), v) by {
            assert(occurs_in(self.formula@, v));
            let (j, i) = choose|j: int, i: int|
                0 <= j < self.formula@.len() && 0 <= i < self.formula@[j]@.len() && var_of(
                    #[trigger] self.formula@[j]@[i],
                ) == v;
            assert(0 <= j < self.formula().len() && 0 <= i < self.formula()[j].len() && var_of(
                self.formula()[j][i],
            ) == v);
        }
    }

    /// Nothing but loading has happened yet: no model was found, and each
    /// bound variable is bound by a literal that waits in the queue.
    pub open(crate) spec fn pristine(&self) -> bool {
        &&& self.verdict != Verdict::Sat
        &&& bound_queued(self.assignments@, self.unit_clauses@)
    }

    /// The sizes that the clauses of the table record, by id.
    pub open(crate) spec fn sizes(&self) -> Seq<usize> {
        Seq::new(self.clauses@.len(), |c: int| self.clauses@[c].size)
    }

    /// What the instance holds.
    pub open(crate) spec fn store(&self) -> Store {
        Store {
            formula: self.formula(),
            table: self.table(),
            sizes: self.sizes(),
            active: self.active_set(),
            index: self.index(),
            assignment: self.assignment(),
            queue: self.queue(),
            variables: self.variables(),
            verdict: self.verdict(),
        }
    }

    /// The two instances agree on everything that a search leaves alone.
    pub open(crate) spec fn same_setting(&self, other: &SatInstance) -> bool {
        &&& self.search_heuristic == other.search_heuristic
        &&& self.num_vars == other.num_vars
        &&& self.num_clauses == other.num_clauses
        &&& self.vars@ == other.vars@
        &&& self.formula@ == other.formula@
        &&& self.origin@ == other.origin@
        &&& self.verdict == other.verdict
    }

    /// The two instances hold the same clause table.
    pub open(crate) spec fn same_table(&self, other: &SatInstance) -> bool {
        self.clauses@ == other.clauses@
    }

    /// The two instances agree on everything that a search leaves alone, the
    /// known variables aside.
    pub open(crate) spec fn same_setting_but_vars(&self, other: &SatInstance) -> bool {
        &&& self.search_heuristic == other.search_heuristic
        &&& self.num_vars == other.num_vars
        &&& self.num_clauses == other.num_clauses
        &&& self.formula@ == other.formula@
        &&& self.origin@ == other.origin@
        &&& self.verdict == other.verdict
    }

    /// An instance without clauses, with the counts that a problem line
    /// declares. The heuristic is DLIS.
    pub fn new(num_vars: u32, num_clauses: u32) -> (s: Self)
        ensures
            s.wf(),
            s.pristine(),
            s.verdict() == Verdict::Open,
            s.heuristic() == SearchHeuristic::DLIS,
            s.declared_vars() == num_vars,
            s.declared_clauses() == num_clauses,
            s.formula() == Seq::<Seq<i32>>::empty(),
            s.table() == Seq::<Seq<i32>>::empty(),
            s.index() == Map::<i32, Set<usize>>::empty(),
            s.active_set() == Set::<usize>::empty(),
            s.assignment() == Map::<i32, bool>::empty(),
            s.queue() == Seq::<i32>::empty(),
            s.variables() == Set::<i32>::empty(),
            s.store() == fresh(),
    {
        let s = SatInstance {
            search_heuristic: SearchHeuristic::DLIS,
            num_vars: num_vars,
            num_clauses: num_clauses,
            vars: FxHashSet::default(),
            clauses: Vec::new(),
            active: FxHashSet::default(),
            unit_clauses: Vec::new(),
            lit2clause: FxHashMap::default(),
            assignments: FxHashMap::default(),
            formula: Vec::new(),
            origin: Ghost(Seq::empty()),
            verdict: Verdict::Open,
        };
        assert(s.formula() =~= Seq::<Seq<i32>>::empty());
        assert(s.table() =~= Seq::<Seq<i32>>::empty());
        assert(s.index() =~= Map::<i32, Set<usize>>::empty());
        assert(s.sizes() =~= Seq::<usize>::empty());
        assert(s.store() =~= fresh());
        s
    }

    /// Records the variable of `lit` as known. Nothing else changes.
    pub fn add_var(&mut self, lit: i32)
        requires
            old(self).wf(),
            valid_lit(lit),
        ensures
            final(self).wf(),
            old(self).pristine() ==> final(self).pristine(),
            final(self).variables() == old(self).variables().insert(var_of(lit)),
            final(self).formula() == old(self).formula(),
            final(self).table() == old(self).table(),
            final(self).index() == old(self).index(),
            final(self).active_set() == old(self).active_set(),
            final(self).assignment() == old(self).assignment(),
            final(self).queue() == old(self).queue(),
            final(self).verdict() == old(self).verdict(),
            final(self).heuristic() == old(self).heuristic(),
            final(self).declared_vars() == old(self).declared_vars(),
            final(self).declared_clauses() == old(self).declared_clauses(),
            final(self).store() == with_var(old(self).store(), lit),
    {
        let v = variable(lit);
        set_insert(&mut self.vars, v);
        assert(self.store() =~= with_var(old(self).store(), lit));
    }

    /// Chooses the strategy that later branching decisions use.
    pub fn set_heuristic(&mut self, heuristic: SearchHeuristic)
        ensures
            final(self).heuristic() == heuristic,
            old(self).wf() ==> final(self).wf(),
            old(self).pristine() ==> final(self).pristine(),
            old(self).inv() ==> final(self).inv(),
            final(self).variables() == old(self).variables(),
            final(self).formula() == old(self).formula(),
            final(self).table() == old(self).table(),
            final(self).index() == old(self).index(),
            final(self).active_set() == old(self).active_set(),
            final(self).assignment() == old(self).assignment(),
            final(self).queue() == old(self).queue(),
            final(self).verdict() == old(self).verdict(),
            final(self).declared_vars() == old(self).declared_vars(),
            final(self).declared_clauses() == old(self).declared_clauses(),
    {
        self.search_heuristic = heuristic;
    }

    /// The number of variables that the problem line declared.
    pub fn num_vars(&self) -> (n: u32)
        ensures
            n == self.declared_vars(),
    {
        self.num_vars
    }

    /// The number of clauses that the problem line declared.
    pub fn num_clauses(&self) -> (n: u32)
        ensures
            n == self.declared_clauses(),
    {
        self.num_clauses
    }

    /// The heuristic in use.
    pub fn current_heuristic(&self) -> (h: SearchHeuristic)
        ensures
            h == self.heuristic(),
    {
        self.search_heuristic
    }

    /// What is known of the formula.
    pub fn current_verdict(&self) -> (v: Verdict)
        ensures
            v == self.verdict(),
    {
        self.verdict
    }

    /// The clauses of the formula, as they were given.
    pub fn input_clauses(&self) -> (f: &Vec<Vec<i32>>)
        ensures
            Seq::new(f@.len(), |j: int| f@[j]@) == self.formula(),
    {
        &self.formula
    }

    /// The number of clauses in the clause table.
    pub fn table_len(&self) -> (n: usize)
        ensures
            n == self.table().len(),
    {
        self.clauses.len()
    }

    /// The current literals of the clause with id `cid`.
    pub fn clause_literals(&self, cid: usize) -> (lits: &Vec<i32>)
        requires
            cid < self.table().len(),
        ensures
            lits@ == self.table()[cid as int],
    {
        &self.clauses[cid].lits
    }

    /// The size that the clause with id `cid` records.
    pub fn clause_size(&self, cid: usize) -> (n: usize)
        requires
            cid < self.table().len(),
        ensures
            n == self.sizes()[cid as int],
    {
        self.clauses[cid].size
    }

    /// The number of literals that wait in the queue.
    pub fn queue_len(&self) -> (n: usize)
        ensures
            n == self.queue().len(),
    {
        self.unit_clauses.len()
    }

    /// Whether no clause is active.
    pub fn all_satisfied(&self) -> (b: bool)
        ensures
            b == self.active_set().is_empty(),
    {
        self.active.is_empty()
    }

    /// The known variables, each once, in the order in which their set walks them.
    pub fn known_variables(&self) -> (vars: Vec<i32>)
        ensures
            vars@.no_duplicates(),
            vars@.to_set() == self.variables(),
    {
        set_items(&self.vars)
    }

    /// Whether `lit` is true under the current assignment. A literal of an
    /// unassigned variable is not.
    pub fn value(&self, lit: i32) -> (b: bool)
        ensures
            b == lit_true(self.assignment(), lit),
    {
        crate::model::lit_value(&self.assignments, lit)
    }

    /// Takes `lit` as given: the formula gains the unit clause `lit`.
    ///
    /// If the variable of `lit` is unbound, it is bound to the polarity of
    /// `lit` and `lit` is queued for propagation. If `lit` is already true,
    /// nothing else changes. If `lit` is already false, it is queued all the
    /// same, the binding stays, the formula has become unsatisfiable, and the
    /// verdict says so. The store is updated whatever the verdict is.
    pub fn assign(&mut self, lit: i32)
        requires
            old(self).wf(),
            old(self).pristine(),
            valid_lit(lit),
        ensures
            final(self).wf(),
            final(self).pristine(),
            final(self).store() == with_literal(old(self).store(), lit),
            final(self).formula() == old(self).formula().push(seq![lit]),
            final(self).variables() == old(self).variables(),
            final(self).heuristic() == old(self).heuristic(),
            final(self).declared_vars() == old(self).declared_vars(),
            final(self).declared_clauses() == old(self).declared_clauses(),
            final(self).queue().contains(lit),
    {
        let mut unit: Vec<i32> = Vec::new();
        unit.push(lit);
        assert(unit@ =~= seq![lit]);
        self.formula.push(unit);
        proof {
            self.origin = Ghost(self.origin@.push(0usize));
            assert(self.formula() =~= old(self).formula().push(seq![lit]));
            crate::cnf::lemma_neg(lit);
        }
        let opposite = complement(lit);
        if self.value(opposite) {
            self.unit_clauses.push(lit);
            self.verdict = Verdict::Unsat;
            proof {
                if old(self).verdict == Verdict::Open {
                    lemma_opposed_unit(old(self), lit);
                } else {
                    lemma_more_clauses_unsat(old(self).formula(), seq![lit]);
                }
                lemma_valid_push(old(self).formula(), seq![lit]);
            }
        } else {
            self.enqueue(lit);
            proof {
                if old(self).verdict == Verdict::Open {
                    lemma_unit_taken(old(self), self, lit);
                } else {
                    lemma_more_clauses_unsat(old(self).formula(), seq![lit]);
                    lemma_valid_push(old(self).formula(), seq![lit]);
                }
            }
        }
        proof {
            lemma_queued(
                old(self).assignments@,
                old(self).unit_clauses@,
                self.assignments@,
                self.unit_clauses@,
                lit,
            );
            assert(self.store() =~= with_literal(old(self).store(), lit));
        }
    }

    /// Adds a clause to the formula.
    ///
    /// A clause of one literal is taken as `assign` takes that literal. A
    /// clause that holds a literal and its complement is dropped: nothing
    /// changes. Any other clause joins the formula, gets the next id of the
    /// clause table, is listed in the index under each of its literals, and
    /// becomes active; its variables become known. A clause without literals
    /// makes the formula unsatisfiable. The store is updated whatever the
    /// verdict is.
    pub fn add_clause(&mut self, lits: Vec<i32>)
        requires
            old(self).wf(),
            old(self).pristine(),
            valid_clause(lits@),
        ensures
            final(self).wf(),
            final(self).pristine(),
            final(self).store() == with_clause(old(self).store(), lits@),
            final(self).heuristic() == old(self).heuristic(),
            final(self).declared_vars() == old(self).declared_vars(),
            final(self).declared_clauses() == old(self).declared_clauses(),
            final(self).formula() == (if tautology(lits@) {
                old(self).formula()
            } else {
                old(self).formula().push(lits@)
            }),
    {
        if lits.len() == 1 {
            proof {
                assert(lits@ =~= seq![lits@[0]]);
                lemma_unit_no_tautology(lits@);
            }
            self.assign(lits[0]);
            return ;
        }
        if is_tautology(&lits) {
            return ;
        }
        let ghost given = lits@;
        let ghost f0 = self.formula();
        let cid = self.clauses.len();
        let n = lits.len();
        let mut i: usize = 0;
        while i < n
            invariant
                n == lits@.len(),
                i <= n,
                valid_clause(lits@),
                cid == old(self).clauses@.len(),
                self.same_setting_but_vars(old(self)),
                self.clauses == old(self).clauses,
                self.active == old(self).active,
                self.assignments == old(self).assignments,
                self.unit_clauses == old(self).unit_clauses,
                old(self).wf(),
                old(self).lit2clause@.dom().finite() ==> self.lit2clause@.dom().finite(),
                (forall|k: i32| #[trigger]
                    old(self).lit2clause@.contains_key(k) ==> old(self).lit2clause@[k]@.finite())
                    ==> (forall|k: i32| #[trigger]
                    self.lit2clause@.contains_key(k) ==> self.lit2clause@[k]@.finite()),
                forall|k: i32|
                    self.lit2clause@.contains_key(k) == (old(self).lit2clause@.contains_key(k)
                        || lits@.take(i as int).contains(k)),
                forall|k: i32, c: usize|
                    listed(self.lit2clause@, k, c) == (listed(old(self).lit2clause@, k, c) || (c
                        == cid && lits@.take(i as int).contains(k))),
                forall|v: i32|
                    self.vars@.contains(v) == (old(self).vars@.contains(v) || exists|a: int|
                        0 <= a < i && v == var_of(#[trigger] lits@[a])),
            decreases n - i,
        {
            let l = lits[i];
            self.list_under(l, cid);
            let v = variable(l);
            set_insert(&mut self.vars, v);
            proof {
                let t0 = lits@.take(i as int);
                let t1 = lits@.take(i + 1);
                assert(t1 =~= t0.push(l));
                assert forall|k: i32| t1.contains(k) == (t0.contains(k) || k == l) by {
                    if t0.contains(k) {
                        let a = choose|a: int| 0 <= a < t0.len() && t0[a] == k;
                        assert(t1[a] == k);
                    }
                    if k == l {
                        assert(t1[i as int] == k);
                    }
                }
                assert forall|w: i32|
                    self.vars@.contains(w) == (old(self).vars@.contains(w) || exists|a: int|
                        0 <= a < i + 1 && w == var_of(#[trigger] lits@[a])) by {
                    if w == v {
                        assert(w == var_of(lits@[i as int]));
                    }
                }
            }
            i += 1;
        }
        set_insert(&mut self.active, cid);
        let copy = copy_lits(&lits);
        self.clauses.push(Clause::new(copy));
        self.formula.push(lits);
        if n == 0 {
            self.verdict = Verdict::Unsat;
        }
        proof {
            self.origin = Ghost(self.origin@.push(cid));
            assert(lits@.take(n as int) =~= lits@);
            assert(self.formula() =~= f0.push(given));
            assert(self.table() =~= old(self).table().push(given));
            assert(self.sizes() =~= old(self).sizes().push(given.len() as usize));
            lemma_valid_push(f0, given);
            if n == 0 {
                crate::cnf::lemma_empty_clause_unsat(self.formula(), f0.len() as int);
            } else if old(self).verdict == Verdict::Open {
                lemma_clause_stored(old(self), self, given, cid);
            } else {
                lemma_more_clauses_unsat(f0, given);
            }
            lemma_index_after_store(old(self), self, given, cid);
            assert(self.index() =~= index_with(old(self).index(), given, cid));
            assert(self.variables() =~= old(self).variables() + vars_of(given));
            assert(self.store() =~= with_clause(old(self).store(), given));
        }
    }

    /// Lists clause `cid` under literal `l`, making `l` a key if it is none.
    pub(crate) fn list_under(&mut self, l: i32, cid: usize)
        ensures
            final(self).same_setting(old(self)),
            final(self).clauses == old(self).clauses,
            final(self).active == old(self).active,
            final(self).assignments == old(self).assignments,
            final(self).unit_clauses == old(self).unit_clauses,
            old(self).lit2clause@.dom().finite() ==> final(self).lit2clause@.dom().finite(),
            (forall|k: i32| #[trigger]
                old(self).lit2clause@.contains_key(k) ==> old(self).lit2clause@[k]@.finite())
                ==> (forall|k: i32| #[trigger]
                final(self).lit2clause@.contains_key(k) ==> final(self).lit2clause@[k]@.finite()),
            forall|k: i32|
                final(self).lit2clause@.contains_key(k) == (old(self).lit2clause@.contains_key(k)
                    || k == l),
            forall|k: i32, c: usize|
                listed(final(self).lit2clause@, k, c) == (listed(old(self).lit2clause@, k, c) || (k
                    == l && c == cid)),
            forall|k: i32|
                k != l && final(self).lit2clause@.contains_key(k) ==> final(self).lit2clause@[k]
                    == old(self).lit2clause@[k],
            final(self).lit2clause@[l]@ == (if old(self).lit2clause@.contains_key(l) {
                old(self).lit2clause@[l]@
            } else {
                Set::empty()
            }).insert(cid),
    {
        if !map_contains_key(&self.lit2clause, &l) {
            map_insert(&mut self.lit2clause, l, FxHashSet::default());
        }
        match map_get_mut(&mut self.lit2clause, &l) {
            Some(set) => {
                set_insert(set, cid);
            },
            None => {},
        }
    }

    /// Binds the variable of `lit` to the polarity of `lit` and queues `lit`,
    /// if the variable is unbound; does nothing if `lit` is already true.
    pub(crate) fn enqueue(&mut self, lit: i32)
        requires
            valid_lit(lit),
            !lit_true(old(self).assignments@, neg(lit)),
        ensures
            enqueued(old(self), final(self), lit),
    {
        proof {
            crate::cnf::lemma_neg(lit);
        }
        let v = variable(lit);
        if !map_contains_key(&self.assignments, &v) {
            self.unit_clauses.push(lit);
            map_insert(&mut self.assignments, v, lit > 0);
        }
    }
}

/// What `enqueue` does: `s1` is `s0` with `lit` true, bound and queued
/// unless it was true already.
pub(crate) open spec fn enqueued(s0: &SatInstance, s1: &SatInstance, lit: i32) -> bool {
    &&& s1.same_setting(s0)
    &&& s1.clauses == s0.clauses
    &&& s1.active == s0.active
    &&& s1.lit2clause == s0.lit2clause
    &&& lit_true(s1.assignments@, lit)
    &&& lit_true(s0.assignments@, lit) ==> s1.assignments@ == s0.assignments@ && s1.unit_clauses@
        == s0.unit_clauses@
    &&& !lit_true(s0.assignments@, lit) ==> s1.assignments@ == s0.assignments@.insert(
        var_of(lit),
        lit > 0,
    ) && s1.unit_clauses@ == s0.unit_clauses@.push(lit) && !s0.assignments@.contains_key(
        var_of(lit),
    )
}

/// Whether `add_clause` gives the clause an id of the clause table: it has
/// not just one literal, and none of its literals with its complement.
pub open spec fn stored(lits: Seq<i32>) -> bool {
    lits.len() != 1 && !tautology(lits)
}

/// A clause of one valid literal holds no literal with its complement.
pub proof fn lemma_unit_no_tautology(c: Seq<i32>)
    requires
        c.len() == 1,
        valid_clause(c),
    ensures
        !tautology(c),
{
    crate::cnf::lemma_neg(c[0]);
}

/// A formula of valid literals stays one when a clause of valid literals is added.
pub proof fn lemma_valid_push(f: Seq<Seq<i32>>, c: Seq<i32>)
    requires
        valid_formula(f),
        valid_clause(c),
    ensures
        valid_formula(f.push(c)),
{
    assert forall|j: int| 0 <= j < f.push(c).len() implies valid_clause(#[trigger] f.push(c)[j]) by {
        if j < f.len() {
            assert(f.push(c)[j] == f[j]);
        }
    }
}

/// A copy of the literals.
pub fn copy_lits(lits: &Vec<i32>) -> (r: Vec<i32>)
    ensures
        r@ == lits@,
{
    let mut r: Vec<i32> = Vec::new();
    let mut i: usize = 0;
    while i < lits.len()
        invariant
            i <= lits@.len(),
            r@ == lits@.take(i as int),
        decreases lits@.len() - i,
    {
        r.push(lits[i]);
        assert(lits@.take(i + 1) =~= lits@.take(i as int).push(lits@[i as int]));
        i += 1;
    }
    assert(lits@.take(lits@.len() as int) =~= lits@);
    r
}

/// What `add_clause` says of the index once a clause is stored.
proof fn lemma_index_after_store(
    old_s: &SatInstance,
    s: &SatInstance,
    lits: Seq<i32>,
    cid: usize,
)
    requires
        cid == old_s.clauses@.len(),
        forall|k: i32|
            s.lit2clause@.contains_key(k) == (old_s.lit2clause@.contains_key(k) || lits.contains(
                k,
            )),
        forall|k: i32, c: usize|
            listed(s.lit2clause@, k, c) == (listed(old_s.lit2clause@, k, c) || (c == cid
                && lits.contains(k))),
    ensures
        forall|l: i32| #[trigger]
            s.index().contains_key(l) == (old_s.index().contains_key(l) || lits.contains(l)),
        forall|l: i32| #[trigger]
            s.index().contains_key(l) ==> s.index()[l] == (if lits.contains(l) {
                (if old_s.index().contains_key(l) {
                    old_s.index()[l]
                } else {
                    Set::empty()
                }).insert(cid)
            } else {
                old_s.index()[l]
            }),
{
    assert forall|l: i32| #[trigger]
        s.index().contains_key(l) == (old_s.index().contains_key(l) || lits.contains(l)) by {
        assert(s.index().contains_key(l) == s.lit2clause@.contains_key(l));
        assert(old_s.index().contains_key(l) == old_s.lit2clause@.contains_key(l));
    }
    assert forall|l: i32| #[trigger] s.index().contains_key(l) implies s.index()[l] == (if lits.contains(
        l,
    ) {
        (if old_s.index().contains_key(l) {
            old_s.index()[l]
        } else {
            Set::empty()
        }).insert(cid)
    } else {
        old_s.index()[l]
    }) by {
        let base = if old_s.index().contains_key(l) {
            old_s.index()[l]
        } else {
            Set::<usize>::empty()
        };
        let target = if lits.contains(l) {
            base.insert(cid)
        } else {
            old_s.index()[l]
        };
        assert forall|c: usize| s.index()[l].contains(c) == target.contains(c) by {
            assert(listed(s.lit2clause@, l, c) == s.index()[l].contains(c));
            assert(listed(old_s.lit2clause@, l, c) == (old_s.index().contains_key(l)
                && old_s.index()[l].contains(c)));
        }
        assert(s.index()[l] =~= target);
    }
}

/// Storing a clause of two or more valid literals, none with its complement,
/// keeps a pristine store well formed and pristine.
proof fn lemma_clause_stored(old_s: &SatInstance, s: &SatInstance, lits: Seq<i32>, cid: usize)
    requires
        cid == old_s.clauses@.len(),
        old_s.wf(),
        old_s.pristine(),
        old_s.verdict == Verdict::Open,
        valid_clause(lits),
        !tautology(lits),
        lits.len() >= 2,
        s.verdict == Verdict::Open,
        s.assignments == old_s.assignments,
        s.unit_clauses == old_s.unit_clauses,
        s.clauses@.len() == old_s.clauses@.len() + 1,
        forall|c: int| 0 <= c < old_s.clauses@.len() ==> s.clauses@[c] == old_s.clauses@[c],
        s.clauses@[cid as int].lits@ == lits,
        s.clauses@[cid as int].size == lits.len(),
        s.active@ == old_s.active@.insert(cid),
        s.formula@.len() == old_s.formula@.len() + 1,
        forall|j: int| 0 <= j < old_s.formula@.len() ==> s.formula@[j] == old_s.formula@[j],
        s.formula@[old_s.formula@.len() as int]@ == lits,
        s.origin@ == old_s.origin@.push(cid),
        s.lit2clause@.dom().finite(),
        forall|k: i32| #[trigger] s.lit2clause@.contains_key(k) ==> s.lit2clause@[k]@.finite(),
        forall|k: i32|
            s.lit2clause@.contains_key(k) == (old_s.lit2clause@.contains_key(k) || lits.contains(
                k,
            )),
        forall|k: i32, c: usize|
            listed(s.lit2clause@, k, c) == (listed(old_s.lit2clause@, k, c) || (c == cid
                && lits.contains(k))),
        forall|v: i32|
            s.vars@.contains(v) == (old_s.vars@.contains(v) || exists|a: int|
                0 <= a < lits.len() && v == var_of(#[trigger] lits[a])),
    ensures
        s.wf(),
        s.pristine(),
{
    let n = old_s.formula@.len() as int;
    let m = s.assignments@;
    let q = s.unit_clauses@;
    assert(s.formula() =~= old_s.formula().push(lits));
    lemma_valid_push(old_s.formula(), lits);
    assert forall|c: int| 0 <= c < old_s.clauses@.len() implies lits_of(s.clauses@, c) == lits_of(
        old_s.clauses@,
        c,
    ) by {}
    assert(lits_of(s.clauses@, cid as int) == lits);
    assert(structure_ok(s.active@, s.lit2clause@, s.clauses@, s.vars@)) by {
        assert forall|c: usize| #[trigger] s.active@.contains(c) implies c < s.clauses@.len()
            && lits_of(s.clauses@, c as int).len() >= 2 by {
            if c != cid {
                assert(old_s.active@.contains(c));
            }
        }
        assert forall|c: int| 0 <= c < s.clauses@.len() implies valid_clause(
            #[trigger] lits_of(s.clauses@, c),
        ) && !tautology(lits_of(s.clauses@, c)) && s.clauses@[c].size == lits_of(
            s.clauses@,
            c,
        ).len() by {
            if c < cid {
                assert(valid_clause(lits_of(old_s.clauses@, c)));
                assert(s.clauses@[c] == old_s.clauses@[c]);
            }
        }
        assert forall|v: i32| #[trigger] s.vars@.contains(v) implies v > 0 by {
            if !old_s.vars@.contains(v) {
                let a = choose|a: int| 0 <= a < lits.len() && v == var_of(#[trigger] lits[a]);
                crate::cnf::lemma_neg(lits[a]);
            }
        }
    }
    assert(index_ok(s.lit2clause@, s.active@, s.clauses@)) by {
        assert forall|l: i32, c: usize| #[trigger] listed(s.lit2clause@, l, c) implies s.active@.contains(
            c,
        ) && c < s.clauses@.len() && lits_of(s.clauses@, c as int).contains(l) by {
            if listed(old_s.lit2clause@, l, c) {
                assert(lits_of(old_s.clauses@, c as int).contains(l));
            }
        }
        assert forall|c: usize, i: int|
            s.active@.contains(c) && 0 <= i < lits_of(s.clauses@, c as int).len() implies listed(
            s.lit2clause@,
            #[trigger] lits_of(s.clauses@, c as int)[i],
            c,
        ) by {
            if c != cid {
                assert(old_s.active@.contains(c));
                assert(listed(old_s.lit2clause@, lits_of(old_s.clauses@, c as int)[i], c));
            } else {
                assert(lits.contains(lits[i]));
            }
        }
    }
    assert(keys_ok(s.lit2clause@, s.vars@, m, q)) by {
        assert forall|l: i32| #[trigger] s.lit2clause@.contains_key(l) implies {
            &&& valid_lit(l)
            &&& s.vars@.contains(var_of(l))
            &&& m.contains_key(var_of(l)) ==> q.contains(l) || q.contains(neg(l))
        } by {
            if !old_s.lit2clause@.contains_key(l) {
                assert(lits.contains(l));
                let a = choose|a: int| 0 <= a < lits.len() && lits[a] == l;
                assert(valid_lit(lits[a]));
                crate::cnf::lemma_neg(l);
                if m.contains_key(var_of(l)) {
                    let v = var_of(l);
                    assert(q.contains(lit_for(v, m[v])));
                }
            }
        }
    }
    assert(all_covered(m, s.formula@, s.origin@, s.active@, s.clauses@)) by {
        assert forall|j: int| 0 <= j < s.formula@.len() implies #[trigger] covered(
            m,
            s.formula@,
            s.origin@,
            s.active@,
            s.clauses@,
            j,
        ) by {
            if j < n {
                assert(covered(m, old_s.formula@, old_s.origin@, old_s.active@, old_s.clauses@, j));
                if !clause_true(m, old_s.formula@[j]@) {
                    let c = old_s.origin@[j];
                    assert(stands_for(old_s.active@, old_s.clauses@, c, old_s.formula@[j]@));
                    assert(lits_of(s.clauses@, c as int) == lits_of(old_s.clauses@, c as int));
                    assert(stands_for(s.active@, s.clauses@, c, s.formula@[j]@));
                }
            } else {
                assert forall|i: int| 0 <= i < lits.len() implies lits.contains(#[trigger] lits[i]) by {}
                assert(stands_for(s.active@, s.clauses@, cid, s.formula@[j]@));
            }
        }
    }
    assert(keys_occur(s.lit2clause@, s.formula@)) by {
        assert forall|l: i32| #[trigger] s.lit2clause@.contains_key(l) implies occurs_in(
            s.formula@,
            var_of(l),
        ) by {
            if old_s.lit2clause@.contains_key(l) {
                lemma_occurs_grows(old_s.formula@, s.formula@, var_of(l));
            } else {
                assert(lits.contains(l));
                let a = choose|a: int| 0 <= a < lits.len() && lits[a] == l;
                assert(var_of(s.formula@[n]@[a]) == var_of(l));
            }
        }
    }
    assert(bound_ok(m, s.formula@)) by {
        assert forall|v: i32| #[trigger] m.contains_key(v) implies occurs_in(s.formula@, v) by {
            lemma_occurs_grows(old_s.formula@, s.formula@, v);
        }
    }
    assert(s.complete()) by {
        assert forall|t: Map<i32, bool>| total(t) && #[trigger] satisfies(
            t,
            s.formula(),
        ) implies s.state_model(t) by {
            crate::cnf::lemma_satisfies_push(t, old_s.formula(), lits);
            assert(old_s.state_model(t));
            assert forall|c: usize| #[trigger] s.active@.contains(c) implies clause_true(
                t,
                lits_of(s.clauses@, c as int),
            ) by {
                if c != cid {
                    assert(old_s.active@.contains(c));
                    assert(lits_of(s.clauses@, c as int) == lits_of(old_s.clauses@, c as int));
                }
            }
        }
    }
}

/// A variable that occurs in a formula occurs in every longer formula.
pub proof fn lemma_occurs_grows(f0: Seq<Vec<i32>>, f1: Seq<Vec<i32>>, v: i32)
    requires
        f0.len() <= f1.len(),
        forall|j: int| 0 <= j < f0.len() ==> f1[j] == f0[j],
        occurs_in(f0, v),
    ensures
        occurs_in(f1, v),
{
    let (j, i) = choose|j: int, i: int|
        0 <= j < f0.len() && 0 <= i < f0[j]@.len() && var_of(#[trigger] f0[j]@[i]) == v;
    assert(f1[j] == f0[j]);
    assert(0 <= j < f1.len() && 0 <= i < f1[j]@.len() && var_of(f1[j]@[i]) == v);
}

/// Taking a literal keeps each bound variable bound by a queued literal, and
/// leaves the literal in the queue.
proof fn lemma_queued(m0: Map<i32, bool>, q0: Seq<i32>, m1: Map<i32, bool>, q1: Seq<i32>, lit: i32)
    requires
        bound_queued(m0, q0),
        valid_lit(lit),
        m1 == (if m0.contains_key(var_of(lit)) {
            m0
        } else {
            m0.insert(var_of(lit), lit > 0)
        }),
        q1 == (if lit_true(m0, lit) {
            q0
        } else {
            q0.push(lit)
        }),
    ensures
        bound_queued(m1, q1),
        q1.contains(lit),
{
    crate::cnf::lemma_neg(lit);
    assert forall|x: i32| q0.contains(x) implies q1.contains(x) by {
        let k = choose|k: int| 0 <= k < q0.len() && q0[k] == x;
        assert(q1[k] == x);
    }
    if lit_true(m0, lit) {
        assert(q0.contains(lit_for(var_of(lit), m0[var_of(lit)])));
        assert(lit_for(var_of(lit), m0[var_of(lit)]) == lit);
    } else {
        assert(q1[q0.len() as int] == lit);
    }
    assert forall|v: i32| #[trigger] m1.contains_key(v) implies v > 0 && q1.contains(
        lit_for(v, m1[v]),
    ) by {
        if m0.contains_key(v) {
            assert(q0.contains(lit_for(v, m0[v])));
        } else {
            assert(lit_for(v, m1[v]) == lit);
        }
    }
}

/// An unsatisfiable formula stays unsatisfiable when a clause is added.
pub proof fn lemma_more_clauses_unsat(f: Seq<Seq<i32>>, c: Seq<i32>)
    requires
        !satisfiable(f),
    ensures
        !satisfiable(f.push(c)),
{
    assert forall|m: Map<i32, bool>| !satisfies(m, f.push(c)) by {
        crate::cnf::lemma_satisfies_push(m, f, c);
    }
}

/// A unit clause whose literal is already false under a pristine store makes
/// the formula unsatisfiable.
proof fn lemma_opposed_unit(s: &SatInstance, lit: i32)
    requires
        s.wf(),
        s.pristine(),
        s.verdict == Verdict::Open,
        valid_lit(lit),
        lit_true(s.assignments@, neg(lit)),
    ensures
        !satisfiable(s.formula().push(seq![lit])),
{
    let f = s.formula();
    let g = f.push(seq![lit]);
    crate::cnf::lemma_neg(lit);
    assert forall|m: Map<i32, bool>| !satisfies(m, g) by {
        if satisfies(m, g) {
            let t = crate::cnf::completion(m);
            crate::cnf::lemma_completion(m);
            crate::cnf::lemma_satisfies_extends(m, t, g);
            crate::cnf::lemma_satisfies_push(t, f, seq![lit]);
            assert(s.state_model(t));
            let v = var_of(lit);
            assert(s.assignments@.contains_key(v));
            let queued = lit_for(v, s.assignments@[v]);
            assert(queued == neg(lit));
            assert(s.unit_clauses@.contains(queued));
            let k = choose|k: int| 0 <= k < s.unit_clauses@.len() && s.unit_clauses@[k] == queued;
            assert(lit_true(t, s.unit_clauses@[k]));
            let i = choose|i: int| 0 <= i < seq![lit].len() && lit_true(t, #[trigger] seq![lit][i]);
            assert(seq![lit][i] == lit);
            crate::cnf::lemma_not_both(t, lit);
        }
    }
}

/// Taking a unit clause whose literal is not false keeps a pristine store
/// well formed and pristine.
proof fn lemma_unit_taken(old_s: &SatInstance, s: &SatInstance, lit: i32)
    requires
        old_s.wf(),
        old_s.pristine(),
        old_s.verdict == Verdict::Open,
        valid_lit(lit),
        !lit_true(old_s.assignments@, neg(lit)),
        s.verdict == Verdict::Open,
        s.search_heuristic == old_s.search_heuristic,
        s.vars@ == old_s.vars@,
        s.clauses == old_s.clauses,
        s.active == old_s.active,
        s.lit2clause == old_s.lit2clause,
        s.formula@.len() == old_s.formula@.len() + 1,
        forall|j: int| 0 <= j < old_s.formula@.len() ==> s.formula@[j] == old_s.formula@[j],
        s.formula@[old_s.formula@.len() as int]@ == seq![lit],
        s.origin@ == old_s.origin@.push(0usize),
        lit_true(s.assignments@, lit),
        lit_true(old_s.assignments@, lit) ==> s.assignments@ == old_s.assignments@
            && s.unit_clauses@ == old_s.unit_clauses@,
        !lit_true(old_s.assignments@, lit) ==> s.assignments@ == old_s.assignments@.insert(
            var_of(lit),
            lit > 0,
        ) && s.unit_clauses@ == old_s.unit_clauses@.push(lit) && !old_s.assignments@.contains_key(
            var_of(lit),
        ),
    ensures
        s.wf(),
        s.pristine(),
{
    crate::cnf::lemma_neg(lit);
    let n = old_s.formula@.len() as int;
    assert(s.formula() =~= old_s.formula().push(seq![lit]));
    let m0 = old_s.assignments@;
    let m1 = s.assignments@;
    let q0 = old_s.unit_clauses@;
    let q1 = s.unit_clauses@;
    assert(crate::cnf::extends(m1, m0));
    assert forall|x: i32| q0.contains(x) implies q1.contains(x) by {
        let k = choose|k: int| 0 <= k < q0.len() && q0[k] == x;
        assert(q1[k] == x);
    }
    if !lit_true(m0, lit) {
        assert(q1[q0.len() as int] == lit);
        assert(q1.contains(lit));
    }
    assert(valid_formula(s.formula())) by {
        assert forall|j: int| 0 <= j < s.formula().len() implies valid_clause(
            #[trigger] s.formula()[j],
        ) by {
            if j < n {
                assert(s.formula()[j] == old_s.formula()[j]);
            }
        }
    }
    assert(keys_ok(s.lit2clause@, s.vars@, m1, q1)) by {
        assert forall|l: i32| #[trigger] s.lit2clause@.contains_key(l) && m1.contains_key(
            var_of(l),
        ) implies q1.contains(l) || q1.contains(neg(l)) by {
            crate::cnf::lemma_neg(l);
            if m0.contains_key(var_of(l)) {
                assert(q0.contains(l) || q0.contains(neg(l)));
            } else {
                assert(var_of(l) == var_of(lit));
                assert(l == lit || neg(l) == lit);
            }
        }
    }
    assert(queue_ok(m1, q1)) by {
        assert forall|k: int| 0 <= k < q1.len() implies lit_true(m1, #[trigger] q1[k]) by {
            if k < q0.len() {
                assert(q1[k] == q0[k]);
                crate::cnf::lemma_lit_true_extends(m0, m1, q0[k]);
            }
        }
    }
    assert(all_covered(m1, s.formula@, s.origin@, s.active@, s.clauses@)) by {
        assert forall|j: int| 0 <= j < s.formula@.len() implies #[trigger] covered(
            m1,
            s.formula@,
            s.origin@,
            s.active@,
            s.clauses@,
            j,
        ) by {
            if j < n {
                assert(covered(m0, old_s.formula@, old_s.origin@, old_s.active@, old_s.clauses@, j));
                if clause_true(m0, old_s.formula@[j]@) {
                    crate::cnf::lemma_clause_true_extends(m0, m1, old_s.formula@[j]@);
                }
            } else {
                assert(s.formula@[j]@[0] == lit);
            }
        }
    }
    assert(keys_occur(s.lit2clause@, s.formula@)) by {
        assert forall|l: i32| #[trigger] s.lit2clause@.contains_key(l) implies occurs_in(
            s.formula@,
            var_of(l),
        ) by {
            lemma_occurs_grows(old_s.formula@, s.formula@, var_of(l));
        }
    }
    assert(bound_ok(m1, s.formula@)) by {
        assert forall|v: i32| #[trigger] m1.contains_key(v) implies occurs_in(s.formula@, v) by {
            if m0.contains_key(v) {
                lemma_occurs_grows(old_s.formula@, s.formula@, v);
            } else {
                assert(v == var_of(lit));
                assert(var_of(s.formula@[n]@[0]) == v);
            }
        }
    }
    assert(s.complete()) by {
        assert forall|m: Map<i32, bool>| total(m) && #[trigger] satisfies(
            m,
            s.formula(),
        ) implies s.state_model(m) by {
            crate::cnf::lemma_satisfies_push(m, old_s.formula(), seq![lit]);
            assert(old_s.state_model(m));
            let i = choose|i: int| 0 <= i < seq![lit].len() && lit_true(m, #[trigger] seq![lit][i]);
            assert(seq![lit][i] == lit);
            assert forall|k: int| 0 <= k < q1.len() implies lit_true(m, #[trigger] q1[k]) by {
                if k < q0.len() {
                    assert(q1[k] == q0[k]);
                }
            }
        }
    }
    assert(s.pristine()) by {
        assert forall|v: i32| #[trigger] m1.contains_key(v) implies v > 0 && q1.contains(
            lit_for(v, m1[v]),
        ) by {
            if m0.contains_key(v) {
                assert(q0.contains(lit_for(v, m0[v])));
            } else {
                assert(lit_for(v, m1[v]) == lit);
            }
        }
    }
}

/// Whether the literal is valid: not zero, and with a complement.
pub fn valid_literal(lit: i32) -> (b: bool)
    ensures
        b == valid_lit(lit),
{
    lit != 0 && lit != i32::MIN
}

/// Whether every literal is valid.
pub fn valid_literals(lits: &Vec<i32>) -> (b: bool)
    ensures
        b == valid_clause(lits@),
{
    let mut i: usize = 0;
    while i < lits.len()
        invariant
            i <= lits@.len(),
            forall|h: int| 0 <= h < i ==> valid_lit(#[trigger] lits@[h]),
        decreases lits@.len() - i,
    {
        if !valid_literal(lits[i]) {
            return false;
        }
        i += 1;
    }
    true
}

/// The variable of a literal: its absolute value.
pub fn variable(lit: i32) -> (v: i32)
    requires
        valid_lit(lit),
    ensures
        v == var_of(lit),
        v > 0,
{
    if lit < 0 {
        0 - lit
    } else {
        lit
    }
}

/// The complement of a literal.
pub fn complement(lit: i32) -> (l: i32)
    requires
        valid_lit(lit),
    ensures
        l == neg(lit),
        valid_lit(l),
{
    0 - lit
}

/// Whether the clause holds some literal together with its complement.
pub fn is_tautology(lits: &Vec<i32>) -> (b: bool)
    requires
        valid_clause(lits@),
    ensures
        b == tautology(lits@),
{
    let n = lits.len();
    let mut i: usize = 0;
    while i < n
        invariant
            n == lits@.len(),
            i <= n,
            valid_clause(lits@),
            forall|a: int, b: int|
                0 <= a < i && 0 <= b < n ==> #[trigger] lits@[a] != neg(#[trigger] lits@[b]),
        decreases n - i,
    {
        let l = lits[i];
        let mut j: usize = 0;
        while j < n
            invariant
                n == lits@.len(),
                i < n,
                j <= n,
                l == lits@[i as int],
                valid_clause(lits@),
                forall|b: int| 0 <= b < j ==> l != neg(#[trigger] lits@[b]),
            decreases n - j,
        {
            if l == complement(lits[j]) {
                return true;
            }
            j += 1;
        }
        i += 1;
    }
    false
}

} // verus!
