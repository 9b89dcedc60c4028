//! The branching heuristics: which literal to decide next.
//!
//! Every heuristic reads the occurrence index alone. A candidate is a literal
//! with a count. DLIS takes each key of the index with the number of clauses
//! listed under it. DLCS takes each known variable with the number of clauses
//! listed under either of its literals, and prefers the polarity with more of
//! them, the positive one on a tie. The plain heuristics return the first
//! candidate with the largest count; the randomized ones keep the three best
//! candidates and draw one of them.
//!
//! The order in which the keys of the index and the known variables are
//! walked is not specified, so the functions that walk them promise their
//! result for some order; the functions that take the order as an argument
//! say exactly what they return.
use crate::chance::random_index;
use crate::cnf::{lemma_neg, neg, tautology, valid_lit, var_of};
use crate::fx::{map_get, map_keys, set_items, set_len};
use crate::sat_instance::{listed, lits_of, SatInstance, SearchHeuristic};
use vstd::prelude::*;

verus! {

/// The number of clauses listed under `l`; zero where `l` is no key.
pub open spec fn count_in(ix: Map<i32, Set<usize>>, l: i32) -> nat {
    if ix.contains_key(l) {
        ix[l].len()
    } else {
        0
    }
}

/// The number of clauses listed under the variable `v`, in either polarity.
pub open spec fn pair_count(ix: Map<i32, Set<usize>>, v: i32) -> nat {
    count_in(ix, v) + count_in(ix, neg(v))
}

/// The literal of `v` under which more clauses are listed; the positive one on a tie.
pub open spec fn preferred(ix: Map<i32, Set<usize>>, v: i32) -> i32 {
    if count_in(ix, v) >= count_in(ix, neg(v)) {
        v
    } else {
        neg(v)
    }
}

/// The candidates of DLIS: each of the keys with its count.
pub open spec fn literal_candidates(ix: Map<i32, Set<usize>>, keys: Seq<i32>) -> Seq<(i32, nat)> {
    Seq::new(keys.len(), |i: int| (keys[i], count_in(ix, keys[i])))
}

/// The candidates of DLCS: for each of the variables, its preferred literal
/// with the count of the variable.
pub open spec fn variable_candidates(ix: Map<i32, Set<usize>>, vars: Seq<i32>) -> Seq<(i32, nat)> {
    Seq::new(vars.len(), |i: int| (preferred(ix, vars[i]), pair_count(ix, vars[i])))
}

/// The candidates as they are computed, with their counts as numbers.
pub open spec fn as_counts(c: Seq<(i32, usize)>) -> Seq<(i32, nat)> {
    Seq::new(c.len(), |i: int| (c[i].0, c[i].1 as nat))
}

/// The candidate at `at` has a positive count, no candidate has a larger
/// one, and every candidate before it has a smaller one.
pub open spec fn first_best(cands: Seq<(i32, nat)>, at: int) -> bool {
    &&& 0 <= at < cands.len()
    &&& cands[at].1 > 0
    &&& forall|j: int| 0 <= j < cands.len() ==> (#[trigger] cands[j]).1 <= cands[at].1
    &&& forall|j: int| 0 <= j < at ==> (#[trigger] cands[j]).1 < cands[at].1
}

/// `r` is the literal of the first candidate with the largest count, or zero
/// where no candidate has a positive count.
pub open spec fn best_of(cands: Seq<(i32, nat)>, r: i32) -> bool {
    ||| r == 0 && forall|j: int| 0 <= j < cands.len() ==> (#[trigger] cands[j]).1 == 0
    ||| exists|at: int| first_best(cands, at) && r == cands[at].0
}

/// The three best so far, with one more candidate taken in: it goes before
/// the first entry with a smaller count, and the last entry drops out; a
/// candidate that beats none of the three changes nothing.
pub open spec fn top3_insert(t: Seq<(i32, nat)>, e: (i32, nat)) -> Seq<(i32, nat)> {
    if e.1 > t[0].1 {
        seq![e, t[0], t[1]]
    } else if e.1 > t[1].1 {
        seq![t[0], e, t[1]]
    } else if e.1 > t[2].1 {
        seq![t[0], t[1], e]
    } else {
        t
    }
}

/// The three best candidates, best first, earlier ones first among equals;
/// entries that no candidate fills are `(0, 0)`.
pub open spec fn top3(cands: Seq<(i32, nat)>) -> Seq<(i32, nat)>
    decreases cands.len(),
{
    if cands.len() == 0 {
        seq![(0i32, 0nat), (0i32, 0nat), (0i32, 0nat)]
    } else {
        top3_insert(top3(cands.drop_last()), cands.last())
    }
}

/// How many of the three entries hold a literal.
pub open spec fn filled(t: Seq<(i32, usize)>) -> nat {
    (if t[0].0 != 0 {
        1nat
    } else {
        0nat
    }) + (if t[1].0 != 0 {
        1nat
    } else {
        0nat
    }) + (if t[2].0 != 0 {
        1nat
    } else {
        0nat
    })
}

/// The three best candidates are ordered by count; each entry with a positive
/// count is one of the candidates, each other entry is `(0, 0)`; and the
/// first entry has the largest count of all.
pub proof fn lemma_top3(cands: Seq<(i32, nat)>)
    ensures
        top3(cands).len() == 3,
        top3(cands)[0].1 >= top3(cands)[1].1 >= top3(cands)[2].1,
        forall|i: int|
            0 <= i < 3 ==> ((#[trigger] top3(cands)[i]).1 > 0 ==> cands.contains(top3(cands)[i])),
        forall|i: int|
            0 <= i < 3 ==> ((#[trigger] top3(cands)[i]).1 == 0 ==> top3(cands)[i] == (0i32, 0nat)),
        forall|j: int| 0 <= j < cands.len() ==> (#[trigger] cands[j]).1 <= top3(cands)[0].1,
    decreases cands.len(),
{
    if cands.len() > 0 {
        let rest = cands.drop_last();
        let e = cands.last();
        lemma_top3(rest);
        let t0 = top3(rest);
        let t = top3(cands);
        assert(t == top3_insert(t0, e));
        assert forall|i: int| 0 <= i < 3 && (#[trigger] t[i]).1 > 0 implies cands.contains(
            t[i],
        ) by {
            if t[i].1 > 0 {
                if t[i] == e {
                    assert(cands[cands.len() - 1] == e);
                } else {
                    let h = choose|h: int| 0 <= h < 3 && t0[h] == t[i];
                    assert(rest.contains(t0[h]));
                    let j = choose|j: int| 0 <= j < rest.len() && rest[j] == t0[h];
                    assert(cands[j] == t[i]);
                }
            }
        }
        assert forall|j: int| 0 <= j < cands.len() implies (#[trigger] cands[j]).1 <= t[0].1 by {
            if j < rest.len() {
                assert(rest[j] == cands[j]);
            }
        }
    }
}

/// Where the candidates with a positive count hold a literal, the entries
/// of the three best that hold a literal come first, and each is a candidate
/// with a positive count.
pub proof fn lemma_top3_filled(cands: Seq<(i32, nat)>, t: Seq<(i32, usize)>, i: int)
    requires
        as_counts(t) == top3(cands),
        forall|j: int| 0 <= j < cands.len() && (#[trigger] cands[j]).1 > 0 ==> cands[j].0 != 0,
        0 <= i < filled(t),
    ensures
        t.len() == 3,
        i < 3,
        t[i].1 > 0,
        t[i].0 != 0,
        cands.contains((t[i].0, t[i].1 as nat)),
{
    lemma_top3(cands);
    let c = as_counts(t);
    assert(c.len() == 3);
    assert(t.len() == 3);
    assert forall|h: int| 0 <= h < 3 implies ((#[trigger] t[h]).0 != 0 <==> t[h].1 > 0) by {
        assert(c[h] == (t[h].0, t[h].1 as nat));
        assert(c[h] == top3(cands)[h]);
        if t[h].1 > 0 {
            assert(cands.contains(c[h]));
            let j = choose|j: int| 0 <= j < cands.len() && cands[j] == c[h];
            assert(cands[j].0 != 0);
        }
    }
    assert(c[0] == (t[0].0, t[0].1 as nat));
    assert(c[1] == (t[1].0, t[1].1 as nat));
    assert(c[2] == (t[2].0, t[2].1 as nat));
    assert(c[i] == (t[i].0, t[i].1 as nat));
    assert(c[i] == top3(cands)[i]);
}

/// A finite set of ids below `n` has at most `n` elements.
pub proof fn lemma_bounded_set_len(s: Set<usize>, n: nat)
    requires
        s.finite(),
        forall|c: usize| s.contains(c) ==> c < n,
    ensures
        s.len() <= n,
    decreases n,
{
    if n == 0 {
        assert(s =~= Set::<usize>::empty());
    } else {
        if n - 1 <= usize::MAX {
            let last = (n - 1) as usize;
            lemma_bounded_set_len(s.remove(last), (n - 1) as nat);
        } else {
            lemma_bounded_set_len(s, (n - 1) as nat);
        }
    }
}

impl SatInstance {
    /// The clauses listed under a variable in either polarity are active
    /// clauses, and none is listed under both, so their number is at most
    /// the length of the clause table.
    pub(crate) proof fn lemma_pair_bounded(&self, v: i32)
        requires
            self.inv(),
            valid_lit(v),
        ensures
            pair_count(self.index(), v) <= self.clauses@.len(),
    {
        let ix = self.lit2clause@;
        let x = if ix.contains_key(v) {
            ix[v]@
        } else {
            Set::<usize>::empty()
        };
        let y = if ix.contains_key(neg(v)) {
            ix[neg(v)]@
        } else {
            Set::<usize>::empty()
        };
        lemma_neg(v);
        assert(count_in(self.index(), v) == x.len());
        assert(count_in(self.index(), neg(v)) == y.len());
        assert(x.disjoint(y)) by {
            assert forall|c: usize| !(x.contains(c) && y.contains(c)) by {
                if x.contains(c) && y.contains(c) {
                    assert(listed(ix, v, c));
                    assert(listed(ix, neg(v), c));
                    let lits = lits_of(self.clauses@, c as int);
                    let i = choose|i: int| 0 <= i < lits.len() && lits[i] == v;
                    let j = choose|j: int| 0 <= j < lits.len() && lits[j] == neg(v);
                    assert(lits[i] == neg(lits[j]));
                    assert(tautology(lits));
                }
            }
        }
        vstd::set_lib::lemma_set_disjoint_lens(x, y);
        assert((x + y).subset_of(self.active@)) by {
            assert forall|c: usize| (x + y).contains(c) implies self.active@.contains(c) by {
                if x.contains(c) {
                    assert(listed(ix, v, c));
                } else {
                    assert(listed(ix, neg(v), c));
                }
            }
        }
        vstd::set_lib::lemma_len_subset(x + y, self.active@);
        lemma_bounded_set_len(self.active@, self.clauses@.len());
    }

    /// Where a clause is active, some key of the index has a clause listed
    /// under it, and the variable of that key is known.
    pub(crate) proof fn lemma_some_key_counts(&self) -> (l: i32)
        requires
            self.inv(),
            !self.active_set().is_empty(),
        ensures
            self.keys().contains(l),
            count_in(self.index(), l) > 0,
            valid_lit(l),
            self.variables().contains(var_of(l)),
    {
        let c = choose|c: usize| self.active@.contains(c);
        let lits = lits_of(self.clauses@, c as int);
        assert(lits.len() > 0);
        let l = lits[0];
        assert(listed(self.lit2clause@, l, c));
        assert(self.lit2clause@[l]@.finite());
        if self.lit2clause@[l]@.len() == 0 {
            assert(self.lit2clause@[l]@ =~= Set::<usize>::empty());
        }
        l
    }

    /// `lit` is what DLIS returns for some order of the keys.
    pub open(crate) spec fn dlis_choice(&self, lit: i32) -> bool {
        exists|keys: Seq<i32>|
            keys.no_duplicates() && keys.to_set() == self.keys() && #[trigger] best_of(
                literal_candidates(self.index(), keys),
                lit,
            )
    }

    /// `lit` is what DLCS returns for some order of the known variables.
    pub open(crate) spec fn dlcs_choice(&self, lit: i32) -> bool {
        exists|vars: Seq<i32>|
            vars.no_duplicates() && vars.to_set() == self.variables() && #[trigger] best_of(
                variable_candidates(self.index(), vars),
                lit,
            )
    }

    /// `top` holds the three best candidates of DLIS for some order of the keys.
    pub open(crate) spec fn dlis_top(&self, top: Seq<(i32, usize)>) -> bool {
        exists|keys: Seq<i32>|
            keys.no_duplicates() && keys.to_set() == self.keys() && as_counts(top)
                == #[trigger] top3(literal_candidates(self.index(), keys))
    }

    /// `top` holds the three best candidates of DLCS for some order of the
    /// known variables.
    pub open(crate) spec fn dlcs_top(&self, top: Seq<(i32, usize)>) -> bool {
        exists|vars: Seq<i32>|
            vars.no_duplicates() && vars.to_set() == self.variables() && as_counts(top)
                == #[trigger] top3(variable_candidates(self.index(), vars))
    }

    /// `lit` is a literal that the heuristic `h` may return.
    pub open(crate) spec fn choice(&self, h: SearchHeuristic, lit: i32) -> bool {
        match h {
            SearchHeuristic::DLIS => self.dlis_choice(lit),
            SearchHeuristic::DLCS => self.dlcs_choice(lit),
            SearchHeuristic::RandDLIS => exists|top: Seq<(i32, usize)>, i: int|
                #![trigger top[i]]
                self.dlis_top(top) && 0 <= i < filled(top) && lit == top[i].0,
            SearchHeuristic::RandDLCS => exists|top: Seq<(i32, usize)>, i: int|
                #![trigger top[i]]
                self.dlcs_top(top) && 0 <= i < filled(top) && lit == top[i].0,
            SearchHeuristic::Hybrid => self.dlis_choice(lit) || self.dlcs_choice(lit),
        }
    }

    /// While a clause is active, what DLIS returns is a key with a clause
    /// listed under it.
    pub proof fn lemma_dlis_choice(&self, lit: i32)
        requires
            self.inv(),
            !self.active_set().is_empty(),
            self.dlis_choice(lit),
        ensures
            self.keys().contains(lit),
            count_in(self.index(), lit) > 0,
    {
        let keys = choose|keys: Seq<i32>|
            keys.no_duplicates() && keys.to_set() == self.keys() && #[trigger] best_of(
                literal_candidates(self.index(), keys),
                lit,
            );
        let cands = literal_candidates(self.index(), keys);
        let l = self.lemma_some_key_counts();
        assert(keys.to_set().contains(l));
        let j = choose|j: int| 0 <= j < keys.len() && keys[j] == l;
        assert(cands[j].1 > 0);
        let at = choose|at: int| first_best(cands, at) && lit == cands[at].0;
        assert(cands[at] == (keys[at], count_in(self.index(), keys[at])));
    }

    /// While a clause is active, what DLCS returns is a key with a clause
    /// listed under it.
    pub proof fn lemma_dlcs_choice(&self, lit: i32)
        requires
            self.inv(),
            !self.active_set().is_empty(),
            self.dlcs_choice(lit),
        ensures
            self.keys().contains(lit),
            count_in(self.index(), lit) > 0,
    {
        let vars = choose|vars: Seq<i32>|
            vars.no_duplicates() && vars.to_set() == self.variables() && #[trigger] best_of(
                variable_candidates(self.index(), vars),
                lit,
            );
        let cands = variable_candidates(self.index(), vars);
        let l = self.lemma_some_key_counts();
        lemma_neg(l);
        assert(vars.to_set().contains(var_of(l)));
        let j = choose|j: int| 0 <= j < vars.len() && vars[j] == var_of(l);
        assert(cands[j].1 > 0);
        let at = choose|at: int| first_best(cands, at) && lit == cands[at].0;
        assert(cands[at] == (preferred(self.index(), vars[at]), pair_count(self.index(), vars[at])));
    }

    /// An entry that holds a literal among the three best candidates of DLIS
    /// is a key with a clause listed under it.
    pub proof fn lemma_dlis_top(&self, top: Seq<(i32, usize)>, i: int)
        requires
            self.inv(),
            self.dlis_top(top),
            0 <= i < filled(top),
        ensures
            self.keys().contains(top[i].0),
            count_in(self.index(), top[i].0) > 0,
    {
        let keys = choose|keys: Seq<i32>|
            keys.no_duplicates() && keys.to_set() == self.keys() && as_counts(top)
                == #[trigger] top3(literal_candidates(self.index(), keys));
        let cands = literal_candidates(self.index(), keys);
        assert forall|j: int| 0 <= j < cands.len() && (#[trigger] cands[j]).1 > 0 implies cands[j].0
            != 0 by {
            assert(keys.to_set().contains(keys[j]));
        }
        lemma_top3_filled(cands, top, i);
        let e = (top[i].0, top[i].1 as nat);
        let j = choose|j: int| 0 <= j < cands.len() && cands[j] == e;
        assert(cands[j] == (keys[j], count_in(self.index(), keys[j])));
    }

    /// An entry that holds a literal among the three best candidates of DLCS
    /// is a key with a clause listed under it.
    pub proof fn lemma_dlcs_top(&self, top: Seq<(i32, usize)>, i: int)
        requires
            self.inv(),
            self.dlcs_top(top),
            0 <= i < filled(top),
        ensures
            self.keys().contains(top[i].0),
            count_in(self.index(), top[i].0) > 0,
    {
        let vars = choose|vars: Seq<i32>|
            vars.no_duplicates() && vars.to_set() == self.variables() && as_counts(top)
                == #[trigger] top3(variable_candidates(self.index(), vars));
        let cands = variable_candidates(self.index(), vars);
        assert forall|j: int| 0 <= j < cands.len() && (#[trigger] cands[j]).1 > 0 implies cands[j].0
            != 0 by {
            assert(vars.to_set().contains(vars[j]));
            lemma_neg(vars[j]);
        }
        lemma_top3_filled(cands, top, i);
        let e = (top[i].0, top[i].1 as nat);
        let j = choose|j: int| 0 <= j < cands.len() && cands[j] == e;
        assert(cands[j] == (preferred(self.index(), vars[j]), pair_count(self.index(), vars[j])));
    }

    /// An entry that holds a literal among the three best candidates of DLCS
    /// holds a valid literal.
    pub proof fn lemma_top_entry(&self, top: Seq<(i32, usize)>, h: int)
        requires
            self.inv(),
            self.dlcs_top(top),
            0 <= h < 3,
            top.len() == 3,
            top[h].0 != 0,
        ensures
            valid_lit(top[h].0),
    {
        let vars = choose|vars: Seq<i32>|
            vars.no_duplicates() && vars.to_set() == self.variables() && as_counts(top)
                == #[trigger] top3(variable_candidates(self.index(), vars));
        let cands = variable_candidates(self.index(), vars);
        lemma_top3(cands);
        let c = as_counts(top);
        assert(c[h] == (top[h].0, top[h].1 as nat));
        assert(c[h] == top3(cands)[h]);
        if top[h].1 > 0 {
            assert(cands.contains(c[h]));
            let j = choose|j: int| 0 <= j < cands.len() && cands[j] == c[h];
            assert(vars.to_set().contains(vars[j]));
            lemma_neg(vars[j]);
        }
    }

    /// The number of clauses listed under `l`.
    pub fn occurrences(&self, l: i32) -> (n: usize)
        requires
            self.inv(),
        ensures
            n == count_in(self.index(), l),
            n == self.occ(l),
    {
        match map_get(&self.lit2clause, &l) {
            Some(set) => set_len(set),
            None => 0,
        }
    }

    /// The candidates of DLIS over the given keys: each with its count.
    pub fn literal_counts(&self, keys: &Vec<i32>) -> (cands: Vec<(i32, usize)>)
        requires
            self.inv(),
        ensures
            as_counts(cands@) == literal_candidates(self.index(), keys@),
    {
        let mut cands: Vec<(i32, usize)> = Vec::new();
        let mut i: usize = 0;
        while i < keys.len()
            invariant
                i <= keys@.len(),
                self.inv(),
                cands@.len() == i,
                forall|j: int|
                    0 <= j < i ==> (#[trigger] cands@[j]).0 == keys@[j] && cands@[j].1 == count_in(
                        self.index(),
                        keys@[j],
                    ),
            decreases keys@.len() - i,
        {
            let l = keys[i];
            let n = self.occurrences(l);
            cands.push((l, n));
            i += 1;
        }
        assert(as_counts(cands@) =~= literal_candidates(self.index(), keys@));
        cands
    }

    /// The candidates of DLCS over the given variables: for each its
    /// preferred literal, with the count of the variable.
    pub fn variable_counts(&self, vars: &Vec<i32>) -> (cands: Vec<(i32, usize)>)
        requires
            self.inv(),
            forall|i: int| 0 <= i < vars@.len() ==> (#[trigger] vars@[i]) > 0,
        ensures
            as_counts(cands@) == variable_candidates(self.index(), vars@),
    {
        let mut cands: Vec<(i32, usize)> = Vec::new();
        let mut i: usize = 0;
        while i < vars.len()
            invariant
                i <= vars@.len(),
                self.inv(),
                forall|i: int| 0 <= i < vars@.len() ==> (#[trigger] vars@[i]) > 0,
                cands@.len() == i,
                forall|j: int|
                    0 <= j < i ==> (#[trigger] cands@[j]).0 == preferred(self.index(), vars@[j])
                        && cands@[j].1 == pair_count(self.index(), vars@[j]),
            decreases vars@.len() - i,
        {
            let v = vars[i];
            assert(vars@[i as int] > 0);
            let pos = self.occurrences(v);
            let ng = self.occurrences(0 - v);
            let table_len = self.clauses.len();
            proof {
                self.lemma_pair_bounded(v);
                assert(pos + ng <= table_len);
            }
            let lit = if pos >= ng {
                v
            } else {
                0 - v
            };
            cands.push((lit, pos + ng));
            i += 1;
        }
        assert(as_counts(cands@) =~= variable_candidates(self.index(), vars@));
        cands
    }

    /// DLIS: the key of the index with the most clauses listed under it.
    /// Among keys with as many, the one that the index walks first wins.
    /// Zero where no key has a clause.
    pub fn dlis(&self) -> (lit: i32)
        requires
            self.inv(),
        ensures
            self.dlis_choice(lit),
    {
        let keys = map_keys(&self.lit2clause);
        let cands = self.literal_counts(&keys);
        let lit = best(&cands);
        assert(best_of(literal_candidates(self.index(), keys@), lit));
        lit
    }

    /// DLCS: the preferred literal of the known variable with the most
    /// clauses listed under its two literals together. Among variables with
    /// as many, the one that the set of variables walks first wins. Zero where
    /// no variable has a clause.
    pub fn dlcs(&self) -> (lit: i32)
        requires
            self.inv(),
        ensures
            self.dlcs_choice(lit),
    {
        let vars = set_items(&self.vars);
        proof {
            assert forall|i: int| 0 <= i < vars@.len() implies (#[trigger] vars@[i]) > 0 by {
                assert(vars@.to_set().contains(vars@[i]));
            }
        }
        let cands = self.variable_counts(&vars);
        let lit = best(&cands);
        assert(best_of(variable_candidates(self.index(), vars@), lit));
        lit
    }

    /// The three keys of the index with the most clauses listed under them,
    /// each with its count, and the place of one of them, drawn at random
    /// among the entries that hold a literal.
    pub fn randomized_dlis(&self) -> (r: ([(i32, usize); 3], usize))
        requires
            self.inv(),
            !self.active_set().is_empty(),
        ensures
            r.1 < filled(r.0@),
            self.dlis_top(r.0@),
    {
        let keys = map_keys(&self.lit2clause);
        let cands = self.literal_counts(&keys);
        let top = top_three(&cands);
        let n = filled_count(&top);
        proof {
            let l = self.lemma_some_key_counts();
            assert(keys@.to_set().contains(l));
            let j = choose|j: int| 0 <= j < keys@.len() && keys@[j] == l;
            self.lemma_literal_top(keys@, top@, j);
            assert(as_counts(top@) == top3(literal_candidates(self.index(), keys@)));
        }
        (top, random_index(n))
    }

    /// The preferred literals of the three known variables with the most
    /// clauses listed under their two literals together, each with that count,
    /// and the place of one of them, drawn at random among the entries that
    /// hold a literal.
    pub fn randomized_dlcs(&self) -> (r: ([(i32, usize); 3], usize))
        requires
            self.inv(),
            !self.active_set().is_empty(),
        ensures
            r.1 < filled(r.0@),
            self.dlcs_top(r.0@),
    {
        let vars = set_items(&self.vars);
        proof {
            assert forall|i: int| 0 <= i < vars@.len() implies (#[trigger] vars@[i]) > 0 by {
                assert(vars@.to_set().contains(vars@[i]));
            }
        }
        let cands = self.variable_counts(&vars);
        let top = top_three(&cands);
        let n = filled_count(&top);
        proof {
            let l = self.lemma_some_key_counts();
            lemma_neg(l);
            assert(vars@.to_set().contains(var_of(l)));
            let j = choose|j: int| 0 <= j < vars@.len() && vars@[j] == var_of(l);
            self.lemma_variable_top(vars@, top@, j);
            assert(as_counts(top@) == top3(variable_candidates(self.index(), vars@)));
        }
        (top, random_index(n))
    }

    /// The literal to branch on, by the heuristic of this instance.
    ///
    /// While a clause is active the literal is a key of the index with a
    /// clause listed under it, so it is not zero and its variable is
    /// unassigned in a settled store. Hybrid draws between DLIS and DLCS, with
    /// even odds, at each call.
    pub fn get_branch_lit(&self) -> (lit: i32)
        requires
            self.inv(),
            !self.active_set().is_empty(),
        ensures
            self.choice(self.heuristic(), lit),
            self.keys().contains(lit),
            count_in(self.index(), lit) > 0,
            lit != 0,
    {
        let lit = match self.search_heuristic {
            SearchHeuristic::DLCS => {
                let lit = self.dlcs();
                proof {
                    self.lemma_dlcs_choice(lit);
                }
                lit
            },
            SearchHeuristic::DLIS => {
                let lit = self.dlis();
                proof {
                    self.lemma_dlis_choice(lit);
                }
                lit
            },
            SearchHeuristic::RandDLCS => {
                let (top_lits, selected_index) = self.randomized_dlcs();
                proof {
                    self.lemma_dlcs_top(top_lits@, selected_index as int);
                    assert(self.dlcs_top(top_lits@) && 0 <= selected_index < filled(top_lits@));
                }
                top_lits[selected_index].0
            },
            SearchHeuristic::RandDLIS => {
                let (top_lits, selected_index) = self.randomized_dlis();
                proof {
                    self.lemma_dlis_top(top_lits@, selected_index as int);
                    assert(self.dlis_top(top_lits@) && 0 <= selected_index < filled(top_lits@));
                }
                top_lits[selected_index].0
            },
            SearchHeuristic::Hybrid => {
                if rand::random_ratio(1, 2) {
                    let lit = self.dlcs();
                    proof {
                        self.lemma_dlcs_choice(lit);
                    }
                    lit
                } else {
                    let lit = self.dlis();
                    proof {
                        self.lemma_dlis_choice(lit);
                    }
                    lit
                }
            },
        };
        proof {
            assert(self.lit2clause@.contains_key(lit));
        }
        lit
    }

    /// Where some key has a clause listed under it, the first of the three
    /// best literal candidates holds a literal.
    pub(crate) proof fn lemma_literal_top(&self, keys: Seq<i32>, top: Seq<(i32, usize)>, j: int)
        requires
            self.inv(),
            as_counts(top) == top3(literal_candidates(self.index(), keys)),
            0 <= j < keys.len(),
            count_in(self.index(), keys[j]) > 0,
            forall|i: int| 0 <= i < keys.len() ==> self.keys().contains(#[trigger] keys[i]),
        ensures
            filled(top) > 0,
    {
        let cands = literal_candidates(self.index(), keys);
        lemma_top3(cands);
        assert(cands[j].1 > 0);
        let c = as_counts(top);
        assert(c[0] == (top[0].0, top[0].1 as nat));
        assert(c[0] == top3(cands)[0]);
        assert(cands.contains(c[0]));
        let h = choose|h: int| 0 <= h < cands.len() && cands[h] == c[0];
        assert(self.keys().contains(keys[h]));
    }

    /// Where some known variable has a clause listed under it, the first of
    /// the three best variable candidates holds a literal.
    pub(crate) proof fn lemma_variable_top(&self, vars: Seq<i32>, top: Seq<(i32, usize)>, j: int)
        requires
            self.inv(),
            as_counts(top) == top3(variable_candidates(self.index(), vars)),
            0 <= j < vars.len(),
            pair_count(self.index(), vars[j]) > 0,
            forall|i: int| 0 <= i < vars.len() ==> (#[trigger] vars[i]) > 0,
        ensures
            filled(top) > 0,
    {
        let cands = variable_candidates(self.index(), vars);
        lemma_top3(cands);
        assert(cands[j].1 > 0);
        let c = as_counts(top);
        assert(c[0] == (top[0].0, top[0].1 as nat));
        assert(c[0] == top3(cands)[0]);
        assert(cands.contains(c[0]));
        let h = choose|h: int| 0 <= h < cands.len() && cands[h] == c[0];
        lemma_neg(vars[h]);
    }
}

/// The literal of the first candidate with the largest count; zero where no
/// candidate has a positive count.
pub fn best(cands: &Vec<(i32, usize)>) -> (lit: i32)
    ensures
        best_of(as_counts(cands@), lit),
{
    let mut max_count: usize = 0;
    let mut max_lit: i32 = 0;
    let ghost at: int = -1;
    let ghost c = as_counts(cands@);
    let mut i: usize = 0;
    while i < cands.len()
        invariant
            i <= cands@.len(),
            c == as_counts(cands@),
            -1 <= at < i,
            at == -1 ==> max_count == 0 && max_lit == 0,
            at >= 0 ==> max_count > 0 && c[at] == (max_lit, max_count as nat),
            forall|j: int| 0 <= j < i ==> (#[trigger] c[j]).1 <= max_count,
            forall|j: int| 0 <= j < at ==> (#[trigger] c[j]).1 < max_count,
        decreases cands@.len() - i,
    {
        let e = cands[i];
        assert(c[i as int] == (e.0, e.1 as nat));
        if e.1 > max_count {
            max_count = e.1;
            max_lit = e.0;
            proof {
                at = i as int;
            }
        }
        i += 1;
    }
    proof {
        if at >= 0 {
            assert(first_best(c, at));
        }
    }
    max_lit
}

/// The three entries with one more candidate taken in.
pub fn place(top: [(i32, usize); 3], e: (i32, usize)) -> (r: [(i32, usize); 3])
    ensures
        as_counts(r@) == top3_insert(as_counts(top@), (e.0, e.1 as nat)),
{
    let r = if e.1 > top[0].1 {
        [e, top[0], top[1]]
    } else if e.1 > top[1].1 {
        [top[0], e, top[1]]
    } else if e.1 > top[2].1 {
        [top[0], top[1], e]
    } else {
        top
    };
    assert(as_counts(r@) =~= top3_insert(as_counts(top@), (e.0, e.1 as nat)));
    r
}

/// The three best candidates, best first, earlier ones first among equals.
pub fn top_three(cands: &Vec<(i32, usize)>) -> (top: [(i32, usize); 3])
    ensures
        as_counts(top@) == top3(as_counts(cands@)),
{
    let mut top: [(i32, usize); 3] = [(0, 0), (0, 0), (0, 0)];
    let ghost c = as_counts(cands@);
    let mut i: usize = 0;
    assert(c.take(0) =~= Seq::<(i32, nat)>::empty());
    assert(as_counts(top@) =~= top3(c.take(0)));
    while i < cands.len()
        invariant
            i <= cands@.len(),
            c == as_counts(cands@),
            as_counts(top@) == top3(c.take(i as int)),
        decreases cands@.len() - i,
    {
        let e = cands[i];
        proof {
            assert(c[i as int] == (e.0, e.1 as nat));
            assert(c.take(i + 1).drop_last() =~= c.take(i as int));
            assert(c.take(i + 1).last() == c[i as int]);
        }
        top = place(top, e);
        i += 1;
    }
    assert(c.take(cands@.len() as int) =~= c);
    top
}

/// How many of the three entries hold a literal.
pub fn filled_count(top: &[(i32, usize); 3]) -> (n: usize)
    ensures
        n == filled(top@),
{
    let mut n: usize = 0;
    if top[0].0 != 0 {
        n += 1;
    }
    if top[1].0 != 0 {
        n += 1;
    }
    if top[2].0 != 0 {
        n += 1;
    }
    n
}

} // verus!
