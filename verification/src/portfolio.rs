//! The decisions of the portfolio driver: which worker runs which
//! configuration, and which verdict is reported.
//!
//! The driver runs several workers on one formula. In the heuristic portfolio
//! each worker has its own heuristic. In the assignment portfolio the workers
//! share a heuristic, and each takes one point of a truth-value cube over a
//! few literals as given. The workers share nothing; the driver hands each
//! result to a collector, which says when the verdict is settled.
use crate::cnf::{
    lemma_neg, lemma_satisfiable_by_total, lemma_satisfies_push, lemma_total_decides, lit_true,
    neg, satisfiable, satisfies, total, valid_clause, valid_lit,
};
use crate::dimacs_parser::{kept, parsed, DimacsParser, ParseError, Problem};
use crate::heuristic::filled;
use crate::model::map_from;
use crate::sat_instance::{complement, SatInstance, SearchHeuristic, Verdict};
use vstd::prelude::*;

verus! {

/// The heuristic of a worker of the heuristic portfolio: the five
/// heuristics in their order, and randomized DLIS for every further worker.
pub open spec fn heuristic_of(worker: usize) -> SearchHeuristic {
    if worker == 0 {
        SearchHeuristic::DLIS
    } else if worker == 1 {
        SearchHeuristic::DLCS
    } else if worker == 2 {
        SearchHeuristic::RandDLIS
    } else if worker == 3 {
        SearchHeuristic::RandDLCS
    } else if worker == 4 {
        SearchHeuristic::Hybrid
    } else {
        SearchHeuristic::RandDLIS
    }
}

/// The heuristic of a worker of the heuristic portfolio.
pub fn worker_heuristic(worker: usize) -> (h: SearchHeuristic)
    ensures
        h == heuristic_of(worker),
{
    if worker == 0 {
        SearchHeuristic::DLIS
    } else if worker == 1 {
        SearchHeuristic::DLCS
    } else if worker == 2 {
        SearchHeuristic::RandDLIS
    } else if worker == 3 {
        SearchHeuristic::RandDLCS
    } else if worker == 4 {
        SearchHeuristic::Hybrid
    } else {
        SearchHeuristic::RandDLIS
    }
}

/// The literal as it is, or its complement.
pub open spec fn signed_as(l: i32, keep: bool) -> i32 {
    if keep {
        l
    } else {
        neg(l)
    }
}

/// The point `point` of the cube over the literals: the first literal is kept
/// where the point is odd and complemented where it is even; the others go by
/// the half of the point in the same way.
pub open spec fn cube(lits: Seq<i32>, point: nat) -> Seq<i32>
    decreases lits.len(),
{
    if lits.len() == 0 {
        Seq::empty()
    } else {
        seq![signed_as(lits[0], point % 2 == 1)] + cube(lits.skip(1), point / 2)
    }
}

/// Two to the power `n`: the number of points of a cube over `n` literals.
pub open spec fn points(n: nat) -> nat
    decreases n,
{
    if n == 0 {
        1
    } else {
        2 * points((n - 1) as nat)
    }
}

/// The formula with each of the literals added as a unit clause.
pub open spec fn with_units(f: Seq<Seq<i32>>, lits: Seq<i32>) -> Seq<Seq<i32>>
    decreases lits.len(),
{
    if lits.len() == 0 {
        f
    } else {
        with_units(f, lits.drop_last()).push(seq![lits.last()])
    }
}

/// Every literal is true under the assignment.
pub open spec fn all_true(m: Map<i32, bool>, lits: Seq<i32>) -> bool {
    forall|i: int| 0 <= i < lits.len() ==> lit_true(m, #[trigger] lits[i])
}

/// The point of the cube that a total assignment lies in.
pub open spec fn point_of(m: Map<i32, bool>, lits: Seq<i32>) -> nat
    decreases lits.len(),
{
    if lits.len() == 0 {
        0
    } else {
        (if lit_true(m, lits[0]) {
            1nat
        } else {
            0nat
        }) + 2 * point_of(m, lits.skip(1))
    }
}

/// A cube point has as many literals as the cube; each is the literal at
/// its place or the complement of it.
pub proof fn lemma_cube(lits: Seq<i32>, point: nat)
    ensures
        cube(lits, point).len() == lits.len(),
        forall|i: int|
            0 <= i < lits.len() ==> #[trigger] cube(lits, point)[i] == lits[i] || cube(
                lits,
                point,
            )[i] == neg(lits[i]),
    decreases lits.len(),
{
    if lits.len() > 0 {
        let rest = lits.skip(1);
        lemma_cube(rest, point / 2);
        assert forall|i: int| 0 <= i < lits.len() implies #[trigger] cube(lits, point)[i]
            == lits[i] || cube(lits, point)[i] == neg(lits[i]) by {
            if i > 0 {
                assert(cube(lits, point)[i] == cube(rest, point / 2)[i - 1]);
                assert(rest[i - 1] == lits[i]);
            }
        }
    }
}

/// An assignment satisfies a formula with unit clauses added exactly when it
/// satisfies the formula and makes the literals true.
pub proof fn lemma_with_units(m: Map<i32, bool>, f: Seq<Seq<i32>>, lits: Seq<i32>)
    ensures
        satisfies(m, with_units(f, lits)) <==> satisfies(m, f) && all_true(m, lits),
    decreases lits.len(),
{
    if lits.len() > 0 {
        let rest = lits.drop_last();
        let l = lits.last();
        lemma_with_units(m, f, rest);
        lemma_satisfies_push(m, with_units(f, rest), seq![l]);
        if crate::cnf::clause_true(m, seq![l]) {
            let i = choose|i: int| 0 <= i < seq![l].len() && lit_true(m, #[trigger] seq![l][i]);
            assert(seq![l][i] == l);
        }
        if lit_true(m, l) {
            assert(seq![l][0] == l);
            assert(crate::cnf::clause_true(m, seq![l]));
        }
        if all_true(m, lits) {
            assert(lit_true(m, lits[lits.len() - 1]));
            assert forall|i: int| 0 <= i < rest.len() implies lit_true(m, #[trigger] rest[i]) by {
                assert(rest[i] == lits[i]);
            }
        }
        if all_true(m, rest) && lit_true(m, l) {
            assert forall|i: int| 0 <= i < lits.len() implies lit_true(m, #[trigger] lits[i]) by {
                if i < rest.len() {
                    assert(rest[i] == lits[i]);
                }
            }
        }
    }
}

/// A total assignment lies in one point of the cube, and makes the literals
/// of that point true.
pub proof fn lemma_point_of(m: Map<i32, bool>, lits: Seq<i32>)
    requires
        total(m),
        valid_clause(lits),
    ensures
        point_of(m, lits) < points(lits.len()),
        all_true(m, cube(lits, point_of(m, lits))),
    decreases lits.len(),
{
    if lits.len() > 0 {
        let rest = lits.skip(1);
        assert forall|i: int| 0 <= i < rest.len() implies valid_lit(#[trigger] rest[i]) by {
            assert(rest[i] == lits[i + 1]);
        }
        lemma_point_of(m, rest);
        let p = point_of(m, lits);
        let first = signed_as(lits[0], p % 2 == 1);
        lemma_total_decides(m, lits[0]);
        assert(lit_true(m, first));
        assert(p / 2 == point_of(m, rest));
        let c = cube(lits, p);
        lemma_cube(rest, p / 2);
        assert forall|i: int| 0 <= i < c.len() implies lit_true(m, #[trigger] c[i]) by {
            if i > 0 {
                assert(c[i] == cube(rest, p / 2)[i - 1]);
            }
        }
    }
}

/// The cube covers the formula: the formula is satisfiable exactly when it
/// is satisfiable together with the literals of some point of the cube. So
/// the formula is unsatisfiable exactly when every point is.
pub proof fn lemma_cube_covers(f: Seq<Seq<i32>>, lits: Seq<i32>)
    requires
        valid_clause(lits),
    ensures
        satisfiable(f) <==> exists|point: nat|
            point < points(lits.len()) && #[trigger] satisfiable(with_units(f, cube(lits, point))),
{
    if satisfiable(f) {
        lemma_satisfiable_by_total(f);
        let m = choose|m: Map<i32, bool>| total(m) && satisfies(m, f);
        lemma_point_of(m, lits);
        let point = point_of(m, lits);
        lemma_with_units(m, f, cube(lits, point));
        assert(satisfies(m, with_units(f, cube(lits, point))));
        assert(point < points(lits.len()) && satisfiable(with_units(f, cube(lits, point))));
    }
    if exists|point: nat|
        point < points(lits.len()) && #[trigger] satisfiable(with_units(f, cube(lits, point))) {
        let point = choose|point: nat|
            point < points(lits.len()) && #[trigger] satisfiable(with_units(f, cube(lits, point)));
        let m = choose|m: Map<i32, bool>| satisfies(m, with_units(f, cube(lits, point)));
        lemma_with_units(m, f, cube(lits, point));
    }
}

/// The literals of the entries that hold one, in their order.
pub open spec fn held(top: Seq<(i32, usize)>) -> Seq<i32>
    decreases top.len(),
{
    if top.len() == 0 {
        Seq::empty()
    } else if top.last().0 != 0 {
        held(top.drop_last()).push(top.last().0)
    } else {
        held(top.drop_last())
    }
}

/// The literals of the entries that hold one: what the cube of the
/// assignment portfolio is made over.
pub fn held_literals(top: &[(i32, usize); 3]) -> (lits: Vec<i32>)
    ensures
        lits@ == held(top@),
{
    let mut lits: Vec<i32> = Vec::new();
    let mut i: usize = 0;
    assert(top@.take(0) =~= Seq::<(i32, usize)>::empty());
    while i < 3
        invariant
            i <= 3,
            top@.len() == 3,
            lits@ == held(top@.take(i as int)),
        decreases 3 - i,
    {
        proof {
            assert(top@.take(i + 1).drop_last() =~= top@.take(i as int));
            assert(top@.take(i + 1).last() == top@[i as int]);
        }
        if top[i].0 != 0 {
            lits.push(top[i].0);
        }
        i += 1;
    }
    assert(top@.take(3) =~= top@);
    lits
}

/// The literals of one point of the cube.
pub fn cube_point(lits: &Vec<i32>, point: usize) -> (r: Vec<i32>)
    requires
        valid_clause(lits@),
    ensures
        r@ == cube(lits@, point as nat),
        valid_clause(r@),
{
    let mut r: Vec<i32> = Vec::new();
    let mut p: usize = point;
    let mut i: usize = 0;
    proof {
        assert(lits@.skip(0) =~= lits@);
        assert(r@ + cube(lits@.skip(0), p as nat) =~= cube(lits@, point as nat));
    }
    while i < lits.len()
        invariant
            i <= lits@.len(),
            valid_clause(lits@),
            valid_clause(r@),
            r@ + cube(lits@.skip(i as int), p as nat) == cube(lits@, point as nat),
        decreases lits@.len() - i,
    {
        let l = lits[i];
        let ghost rest = lits@.skip(i as int);
        let ghost before = r@;
        proof {
            assert(rest[0] == l);
            assert(rest.skip(1) =~= lits@.skip(i + 1));
            lemma_neg(l);
        }
        let chosen = if p % 2 == 1 {
            l
        } else {
            complement(l)
        };
        r.push(chosen);
        proof {
            assert(r@ + cube(lits@.skip(i + 1), (p / 2) as nat) =~= before + cube(rest, p as nat));
            assert forall|h: int| 0 <= h < r@.len() implies valid_lit(#[trigger] r@[h]) by {
                if h < before.len() {
                    assert(before[h] == r@[h]);
                }
            }
        }
        p = p / 2;
        i += 1;
    }
    proof {
        assert(lits@.skip(lits@.len() as int) =~= Seq::<i32>::empty());
        assert(r@ + Seq::<i32>::empty() =~= r@);
    }
    r
}

/// Takes each of the literals as given, in their order: the formula of the
/// instance gains them as unit clauses.
pub fn assume_all(inst: &mut SatInstance, lits: &Vec<i32>)
    requires
        old(inst).wf(),
        old(inst).pristine(),
        valid_clause(lits@),
    ensures
        final(inst).wf(),
        final(inst).pristine(),
        final(inst).formula() == with_units(old(inst).formula(), lits@),
        final(inst).heuristic() == old(inst).heuristic(),
        final(inst).variables() == old(inst).variables(),
{
    let mut i: usize = 0;
    assert(lits@.take(0) =~= Seq::<i32>::empty());
    while i < lits.len()
        invariant
            i <= lits@.len(),
            valid_clause(lits@),
            inst.wf(),
            inst.pristine(),
            inst.formula() == with_units(old(inst).formula(), lits@.take(i as int)),
            inst.heuristic() == old(inst).heuristic(),
            inst.variables() == old(inst).variables(),
        decreases lits@.len() - i,
    {
        proof {
            assert(lits@.take(i + 1).drop_last() =~= lits@.take(i as int));
            assert(lits@.take(i + 1).last() == lits@[i as int]);
        }
        inst.assign(lits[i]);
        i += 1;
    }
    assert(lits@.take(lits@.len() as int) =~= lits@);
}

/// The literals over which the assignment portfolio makes its cube: the
/// preferred literals of the three known variables with the most clauses
/// listed under them, fewer where fewer variables have a clause, none where
/// no clause is active or the verdict is settled.
pub fn cube_literals(inst: &SatInstance) -> (lits: Vec<i32>)
    requires
        inst.wf(),
    ensures
        valid_clause(lits@),
        lits@.len() <= 3,
        inst.verdict() != Verdict::Open || inst.active_set().is_empty() ==> lits@.len() == 0,
        inst.verdict() == Verdict::Open && !inst.active_set().is_empty() ==> exists|
            top: Seq<(i32, usize)>,
        |
            inst.dlcs_top(top) && filled(top) > 0 && lits@ == #[trigger] held(top),
{
    match inst.current_verdict() {
        Verdict::Open => {
            if inst.all_satisfied() {
                return Vec::new();
            }
            proof {
                inst.lemma_open_inv();
            }
            let (top, _) = inst.randomized_dlcs();
            let lits = held_literals(&top);
            proof {
                assert(top@.len() == 3);
                lemma_held(top@);
                assert forall|i: int| 0 <= i < lits@.len() implies valid_lit(#[trigger] lits@[i]) by {
                    let h = choose|h: int| 0 <= h < 3 && top@[h].0 != 0 && top@[h].0 == lits@[i];
                    inst.lemma_top_entry(top@, h);
                }
            }
            lits
        },
        _ => Vec::new(),
    }
}

/// The literals that are held are the literals of the entries that hold
/// one, and there are no more of them than entries.
pub proof fn lemma_held(top: Seq<(i32, usize)>)
    ensures
        held(top).len() <= top.len(),
        forall|i: int|
            0 <= i < held(top).len() ==> exists|h: int|
                0 <= h < top.len() && (#[trigger] top[h]).0 != 0 && top[h].0 == #[trigger] held(
                    top,
                )[i],
    decreases top.len(),
{
    if top.len() > 0 {
        let rest = top.drop_last();
        lemma_held(rest);
        assert forall|i: int| 0 <= i < held(top).len() implies exists|h: int|
            0 <= h < top.len() && (#[trigger] top[h]).0 != 0 && top[h].0 == #[trigger] held(
                top,
            )[i] by {
            if i < held(rest).len() {
                let h = choose|h: int|
                    0 <= h < rest.len() && (#[trigger] rest[h]).0 != 0 && rest[h].0 == held(
                        rest,
                    )[i];
                assert(top[h] == rest[h]);
            } else {
                assert(top[top.len() - 1].0 == held(top)[i]);
            }
        }
    }
}

/// What a text says about its formula under a heuristic and given literals:
/// no DIMACS CNF, unsatisfiable, or satisfiable with an assignment.
pub enum Decision {
    /// The text is no DIMACS CNF.
    Rejected(ParseError),
    /// No assignment satisfies the clauses together with the given literals.
    Unsat,
    /// The pairs list an assignment that satisfies them.
    Sat(Vec<(i32, bool)>),
}

/// The formula that a worker decides: the clauses that the text says, the
/// tautologies left out, with the given literals as unit clauses.
pub open spec fn task_formula(text: Seq<u8>, given: Seq<i32>) -> Seq<Seq<i32>> {
    with_units(kept(parsed(text)->Ok_0.clauses), given)
}

/// Without given literals a worker decides the clauses that the text says,
/// tautologies included.
pub proof fn lemma_task_without_givens(text: Seq<u8>)
    requires
        parsed(text) is Ok,
        crate::cnf::valid_formula(parsed(text)->Ok_0.clauses),
    ensures
        satisfiable(task_formula(text, Seq::<i32>::empty())) <==> satisfiable(
            parsed(text)->Ok_0.clauses,
        ),
{
    crate::dimacs_parser::lemma_kept_equisatisfiable(parsed(text)->Ok_0.clauses);
}

/// What one worker does: reads the text, takes the heuristic and the given
/// literals, and decides.
pub fn decide(text: &[u8], heuristic: SearchHeuristic, given: &Vec<i32>) -> (d: Decision)
    requires
        valid_clause(given@),
    ensures
        match d {
            Decision::Rejected(e) => parsed(text@) == Err::<Problem, ParseError>(e),
            Decision::Unsat => parsed(text@) is Ok && !satisfiable(task_formula(text@, given@)),
            Decision::Sat(pairs) => parsed(text@) is Ok && satisfies(
                map_from(pairs@),
                task_formula(text@, given@),
            ),
        },
{
    match DimacsParser::parse(text) {
        Err(e) => Decision::Rejected(e),
        Ok(inst) => {
            let mut inst = inst;
            inst.set_heuristic(heuristic);
            assume_all(&mut inst, given);
            if inst.solve() {
                let pairs = inst.model();
                proof {
                    crate::model::lemma_round_trip(pairs@, inst.assignment(), inst.formula());
                }
                Decision::Sat(pairs)
            } else {
                Decision::Unsat
            }
        },
    }
}

/// What the driver reports.
#[derive(Debug, Copy, Clone, PartialEq, Eq, Structural)]
pub enum Outcome {
    /// Nothing yet: more results are awaited.
    Pending,
    /// A worker found a satisfying assignment.
    Sat,
    /// The workers found the formula unsatisfiable.
    Unsat,
    /// Every worker was lost without a result.
    Aborted,
}

/// What a worker hands to the driver.
#[derive(Debug, Copy, Clone, PartialEq, Eq, Structural)]
pub enum Report {
    /// The worker found a satisfying assignment.
    Sat,
    /// The worker found no satisfying assignment.
    Unsat,
    /// The worker ended without a result.
    Lost,
}

/// Collects the results of the workers, in the order they arrive.
pub struct Collector {
    workers: usize,
    unsat: usize,
    lost: usize,
    first_unsat_decides: bool,
    outcome: Outcome,
}

impl Collector {
    /// The number of workers.
    pub closed spec fn workers(&self) -> usize {
        self.workers
    }

    /// How many workers found no satisfying assignment so far.
    pub closed spec fn unsat(&self) -> usize {
        self.unsat
    }

    /// How many workers were lost so far.
    pub closed spec fn lost(&self) -> usize {
        self.lost
    }

    /// Whether the first worker that finds no satisfying assignment settles
    /// the verdict. That is in order where all workers decide one formula; it
    /// is not where each decides a part of it.
    pub closed spec fn first_unsat_decides(&self) -> bool {
        self.first_unsat_decides
    }

    /// What is reported so far.
    pub closed spec fn outcome(&self) -> Outcome {
        self.outcome
    }

    /// The counts are in step with the outcome.
    pub closed spec fn wf(&self) -> bool {
        &&& self.unsat + self.lost <= self.workers
        &&& self.outcome == Outcome::Pending ==> self.unsat + self.lost < self.workers
    }

    /// The outcome after a report, from the outcome and the counts before it.
    pub open spec fn next(
        outcome: Outcome,
        workers: usize,
        unsat: usize,
        lost: usize,
        first_unsat_decides: bool,
        report: Report,
    ) -> Outcome {
        if outcome != Outcome::Pending {
            outcome
        } else {
            match report {
                Report::Sat => Outcome::Sat,
                Report::Unsat => if first_unsat_decides || unsat + lost + 1 >= workers {
                    Outcome::Unsat
                } else {
                    Outcome::Pending
                },
                Report::Lost => if unsat + lost + 1 < workers {
                    Outcome::Pending
                } else if unsat == 0 {
                    Outcome::Aborted
                } else {
                    Outcome::Unsat
                },
            }
        }
    }

    /// A collector for the given number of workers. Without workers there
    /// is nothing to wait for, and nothing was found: the run is aborted.
    pub fn new(workers: usize, first_unsat_decides: bool) -> (c: Self)
        ensures
            c.wf(),
            c.workers() == workers,
            c.unsat() == 0,
            c.lost() == 0,
            c.first_unsat_decides() == first_unsat_decides,
            c.outcome() == (if workers == 0 {
                Outcome::Aborted
            } else {
                Outcome::Pending
            }),
    {
        Collector {
            workers: workers,
            unsat: 0,
            lost: 0,
            first_unsat_decides: first_unsat_decides,
            outcome: if workers == 0 {
                Outcome::Aborted
            } else {
                Outcome::Pending
            },
        }
    }

    /// Takes the report of one worker and says what is reported now. Once the
    /// outcome is settled, further reports change nothing. The first worker
    /// with a satisfying assignment settles it. A worker without one counts;
    /// it settles the outcome where the first such worker decides, or where
    /// it is the last worker. A lost worker counts like a worker without a
    /// satisfying assignment, but where every worker was lost the run is
    /// aborted.
    pub fn report(&mut self, report: Report) -> (o: Outcome)
        requires
            old(self).wf(),
        ensures
            final(self).wf(),
            o == final(self).outcome(),
            o == Self::next(
                old(self).outcome(),
                old(self).workers(),
                old(self).unsat(),
                old(self).lost(),
                old(self).first_unsat_decides(),
                report,
            ),
            final(self).workers() == old(self).workers(),
            final(self).first_unsat_decides() == old(self).first_unsat_decides(),
            final(self).unsat() == old(self).unsat() + (if old(self).outcome() == Outcome::Pending
                && report == Report::Unsat {
                1int
            } else {
                0int
            }),
            final(self).lost() == old(self).lost() + (if old(self).outcome() == Outcome::Pending
                && report == Report::Lost {
                1int
            } else {
                0int
            }),
    {
        match self.outcome {
            Outcome::Pending => {
                match report {
                    Report::Sat => {
                        self.outcome = Outcome::Sat;
                    },
                    Report::Unsat => {
                        self.unsat = self.unsat + 1;
                        if self.first_unsat_decides || self.unsat + self.lost >= self.workers {
                            self.outcome = Outcome::Unsat;
                        }
                    },
                    Report::Lost => {
                        self.lost = self.lost + 1;
                        if self.unsat + self.lost >= self.workers {
                            if self.unsat == 0 {
                                self.outcome = Outcome::Aborted;
                            } else {
                                self.outcome = Outcome::Unsat;
                            }
                        }
                    },
                }
            },
            _ => {},
        }
        self.outcome
    }
}

} // verus!
