//! Pure-literal elimination.
//!
//! A literal is pure when it is a key of the index and its complement is
//! none. A pure literal is bound and retired without being queued: the
//! clauses that it satisfies are gone, and no clause holds its complement.
use crate::cnf::{clause_true, extends, lemma_neg, lit_for, neg, valid_lit, var_of};
use crate::fx::{map_contains_key, map_insert, map_keys};
use crate::propagate::{
    lemma_keys_ok_again, lemma_models_shrink, lemma_reduced_frame, lemma_reduced_refl,
    lemma_reduced_trans, lemma_wf_kept, reduced,
};
use crate::sat_instance::{
    all_covered, complement, covered, index_ok, variable, SatInstance,
};
use vstd::prelude::*;

verus! {

/// Binding a pure literal of a settled store leaves the store ready for the
/// literal to be worked off.
pub(crate) proof fn lemma_pure_bound(a: &SatInstance, b: &SatInstance, l: i32)
    requires
        a.inv(),
        a.unit_clauses@.len() == 0,
        a.lit2clause@.contains_key(l),
        b.same_setting(a),
        b.clauses == a.clauses,
        b.active == a.active,
        b.unit_clauses == a.unit_clauses,
        b.lit2clause == a.lit2clause,
        b.assignments@ == a.assignments@.insert(var_of(l), l > 0),
    ensures
        !a.assignments@.contains_key(var_of(l)),
        extends(b.assignments@, a.assignments@),
        b.mid(l, l),
        index_ok(b.lit2clause@, b.active@, b.clauses@),
{
    let m0 = a.assignments@;
    let m1 = b.assignments@;
    lemma_neg(l);
    assert(b.formula() =~= a.formula());
    assert forall|k: i32| #[trigger] a.lit2clause@.contains_key(k) implies !m0.contains_key(
        var_of(k),
    ) by {
        if m0.contains_key(var_of(k)) {
            assert(a.unit_clauses@.contains(k) || a.unit_clauses@.contains(neg(k)));
        }
    }
    assert(all_covered(m1, b.formula@, b.origin@, b.active@, b.clauses@)) by {
        assert forall|j: int| 0 <= j < b.formula@.len() implies #[trigger] covered(
            m1,
            b.formula@,
            b.origin@,
            b.active@,
            b.clauses@,
            j,
        ) by {
            assert(covered(m0, a.formula@, a.origin@, a.active@, a.clauses@, j));
            if clause_true(m0, a.formula@[j]@) {
                crate::cnf::lemma_clause_true_extends(m0, m1, a.formula@[j]@);
            }
        }
    }
}

/// Binding one more pure literal keeps every newly bound variable bound by a
/// literal that was pure at the start.
pub(crate) proof fn lemma_pure_tracked(s0: &SatInstance, a: &SatInstance, b: &SatInstance, l: i32)
    requires
        s0.inv(),
        s0.unit_clauses@.len() == 0,
        a.newly_bound_were_pure(s0),
        valid_lit(l),
        a.lit2clause@.contains_key(l),
        !a.lit2clause@.contains_key(neg(l)),
        forall|k: i32| a.lit2clause@.contains_key(k) ==> s0.lit2clause@.contains_key(k),
        a.gone_keys_bound(s0),
        !a.assignments@.contains_key(var_of(l)),
        b.assignments@ == a.assignments@.insert(var_of(l), l > 0),
        forall|k: i32|
            b.lit2clause@.contains_key(k) == (a.lit2clause@.contains_key(k) && k != l),
    ensures
        b.newly_bound_were_pure(s0),
        b.gone_keys_bound(s0),
{
    lemma_neg(l);
    assert forall|k: i32| #[trigger]
        s0.lit2clause@.contains_key(k) && !b.lit2clause@.contains_key(
            k,
        ) implies b.assignments@.contains_key(var_of(k)) by {
        if a.lit2clause@.contains_key(k) {
            assert(k == l);
        } else {
            assert(a.assignments@.contains_key(var_of(k)));
        }
    }
    assert forall|v: i32| #[trigger]
        b.assignments@.contains_key(v) && !s0.assignments@.contains_key(
            v,
        ) implies s0.lit2clause@.contains_key(crate::cnf::lit_for(v, b.assignments@[v]))
        && !s0.lit2clause@.contains_key(neg(crate::cnf::lit_for(v, b.assignments@[v]))) by {
        if v == var_of(l) {
            assert(crate::cnf::lit_for(v, b.assignments@[v]) == l);
            if s0.lit2clause@.contains_key(neg(l)) {
                assert(!a.lit2clause@.contains_key(neg(l)));
                assert(a.assignments@.contains_key(var_of(neg(l))));
            }
        } else {
            assert(a.assignments@.contains_key(v));
        }
    }
}

impl SatInstance {
    /// The pure literals: the keys of the index whose complement is no key,
    /// each once.
    pub fn pure_literals(&self) -> (pure: Vec<i32>)
        requires
            self.inv(),
        ensures
            pure@.no_duplicates(),
            forall|l: i32|
                pure@.contains(l) <==> self.keys().contains(l) && !self.keys().contains(neg(l)),
    {
        let keys = map_keys(&self.lit2clause);
        let mut pure: Vec<i32> = Vec::new();
        let mut i: usize = 0;
        while i < keys.len()
            invariant
                i <= keys@.len(),
                keys@.no_duplicates(),
                keys@.to_set() == self.lit2clause@.dom(),
                self.inv(),
                pure@.no_duplicates(),
                forall|l: i32| #[trigger]
                    pure@.contains(l) <==> keys@.take(i as int).contains(l)
                        && !self.lit2clause@.contains_key(neg(l)),
            decreases keys@.len() - i,
        {
            let l = keys[i];
            let ghost before = pure@;
            let ghost t0 = keys@.take(i as int);
            let ghost t1 = keys@.take(i + 1);
            proof {
                assert(keys@.to_set().contains(l));
                assert(t1 =~= t0.push(l));
                assert forall|k: i32| t1.contains(k) == (t0.contains(k) || k == l) by {
                    if t0.contains(k) {
                        let a = choose|a: int| 0 <= a < t0.len() && t0[a] == k;
                        assert(t1[a] == k);
                    }
                    if k == l {
                        assert(t1[i as int] == k);
                    }
                }
                if t0.contains(l) {
                    let a = choose|a: int| 0 <= a < t0.len() && t0[a] == l;
                    assert(keys@[a] == keys@[i as int]);
                    assert(false);
                }
                assert(!before.contains(l));
            }
            let nl = complement(l);
            if !map_contains_key(&self.lit2clause, &nl) {
                pure.push(l);
                proof {
                    assert forall|k: i32| pure@.contains(k) == (before.contains(k) || k == l) by {
                        if before.contains(k) {
                            let a = choose|a: int| 0 <= a < before.len() && before[a] == k;
                            assert(pure@[a] == k);
                        }
                        if k == l {
                            assert(pure@[before.len() as int] == k);
                        }
                        if pure@.contains(k) {
                            let a = choose|a: int| 0 <= a < pure@.len() && pure@[a] == k;
                            if a < before.len() {
                                assert(before[a] == k);
                            }
                        }
                    }
                    assert forall|a: int, b: int|
                        0 <= a < pure@.len() && 0 <= b < pure@.len() && a != b implies pure@[a]
                        != pure@[b] by {
                        if a < before.len() {
                            assert(before.contains(before[a]));
                        }
                        if b < before.len() {
                            assert(before.contains(before[b]));
                        }
                    }
                }
            }
            proof {
                assert forall|k: i32| #[trigger]
                    pure@.contains(k) <==> t1.contains(k) && !self.lit2clause@.contains_key(
                        neg(k),
                    ) by {
                    assert(before.contains(k) <==> t0.contains(k)
                        && !self.lit2clause@.contains_key(neg(k)));
                }
            }
            i += 1;
        }
        proof {
            assert(keys@.take(keys@.len() as int) =~= keys@);
            assert forall|l: i32|
                pure@.contains(l) <==> self.keys().contains(l) && !self.keys().contains(
                    neg(l),
                ) by {
                assert(keys@.to_set().contains(l) == keys@.contains(l));
            }
        }
        pure
    }

    /// Binds the pure literal `l` and retires it: the variable of `l` takes
    /// the polarity of `l`, the clauses listed under `l` leave the active set
    /// and the index, and the key `l` is dropped. The literal is not queued.
    pub(crate) fn eliminate(&mut self, l: i32)
        requires
            old(self).inv(),
            old(self).unit_clauses@.len() == 0,
            old(self).lit2clause@.contains_key(l),
            !old(self).lit2clause@.contains_key(neg(l)),
        ensures
            final(self).inv(),
            final(self).same_setting(old(self)),
            final(self).clauses == old(self).clauses,
            final(self).unit_clauses == old(self).unit_clauses,
            !old(self).assignments@.contains_key(var_of(l)),
            final(self).assignments@ == old(self).assignments@.insert(var_of(l), l > 0),
            reduced(old(self), final(self)),
            forall|k: i32|
                final(self).lit2clause@.contains_key(k) == (old(self).lit2clause@.contains_key(k)
                    && k != l),
            forall|c: usize| final(self).active@.contains(c) ==> old(self).active@.contains(c),
    {
        let v = variable(l);
        map_insert(&mut self.assignments, v, l > 0);
        let ghost bound = *self;
        proof {
            lemma_pure_bound(old(self), self, l);
            lemma_reduced_frame(old(self), self);
        }
        self.retire(l);
        proof {
            lemma_reduced_trans(old(self), &bound, self);
            lemma_keys_ok_again(
                self.lit2clause@,
                self.vars@,
                self.assignments@,
                self.unit_clauses@,
                l,
            );
        }
    }

    /// Pure-literal elimination, to its fixed point.
    ///
    /// As long as some key of the index has a complement that is no key, the
    /// pure literals of one pass over the keys are bound and retired. At the
    /// end no pure literal is left. Where none was there at the start, nothing
    /// changes, so a second call after a first is without effect. The
    /// assignment has only grown, no key was added, no clause was changed, and
    /// every model of the store before is a model of the store after.
    pub fn ple(&mut self)
        requires
            old(self).inv(),
            old(self).queue().len() == 0,
        ensures
            final(self).inv(),
            old(self).wf() ==> final(self).wf(),
            final(self).same_setting(old(self)),
            final(self).same_table(old(self)),
            final(self).formula() == old(self).formula(),
            final(self).variables() == old(self).variables(),
            final(self).heuristic() == old(self).heuristic(),
            final(self).verdict() == old(self).verdict(),
            final(self).table() == old(self).table(),
            final(self).queue() == old(self).queue(),
            extends(final(self).assignment(), old(self).assignment()),
            final(self).reduced_from(old(self)),
            final(self).keys().subset_of(old(self).keys()),
            final(self).active_set().subset_of(old(self).active_set()),
            forall|v: i32| #[trigger]
                final(self).assignment().contains_key(v) && !old(self).assignment().contains_key(
                    v,
                ) ==> old(self).keys().contains(
                    crate::cnf::lit_for(v, final(self).assignment()[v]),
                ) && !old(self).keys().contains(
                    neg(crate::cnf::lit_for(v, final(self).assignment()[v])),
                ),
            forall|l: i32| #[trigger]
                final(self).keys().contains(l) ==> final(self).keys().contains(neg(l)),
            (forall|l: i32| #[trigger]
                old(self).keys().contains(l) ==> old(self).keys().contains(neg(l))) ==> *final(self)
                == *old(self),
            forall|m: Map<i32, bool>| #[trigger]
                old(self).state_model(m) ==> final(self).state_model(m),
    {
        proof {
            lemma_reduced_refl(self);
        }
        loop
            invariant
                self.inv(),
                self.unit_clauses@.len() == 0,
                self.same_setting(old(self)),
                self.clauses == old(self).clauses,
                self.unit_clauses == old(self).unit_clauses,
                extends(self.assignments@, old(self).assignments@),
                reduced(old(self), self),
                old(self).inv(),
                old(self).unit_clauses@.len() == 0,
                self.newly_bound_were_pure(old(self)),
                self.gone_keys_bound(old(self)),
                forall|l: i32|
                    self.lit2clause@.contains_key(l) ==> old(self).lit2clause@.contains_key(l),
                forall|c: usize| self.active@.contains(c) ==> old(self).active@.contains(c),
                (forall|l: i32| #[trigger]
                    old(self).keys().contains(l) ==> old(self).keys().contains(neg(l))) ==> *self
                    == *old(self),
            decreases self.lit2clause@.dom().len(),
        {
            let pure = self.pure_literals();
            if pure.len() == 0 {
                proof {
                    assert forall|l: i32| #[trigger]
                        self.lit2clause@.contains_key(l) implies self.lit2clause@.contains_key(
                        neg(l),
                    ) by {
                        if !self.lit2clause@.contains_key(neg(l)) {
                            assert(pure@.contains(l));
                        }
                    }
                    lemma_models_shrink(old(self), self);
                    if old(self).wf() {
                        lemma_wf_kept(old(self), self);
                    }
                }
                return ;
            }
            let ghost start = *self;
            proof {
                assert(pure@.contains(pure@[0]));
                assert forall|i: int| 0 <= i < pure@.len() implies self.lit2clause@.contains_key(
                    #[trigger] pure@[i],
                ) && !self.lit2clause@.contains_key(neg(pure@[i])) by {
                    assert(pure@.contains(pure@[i]));
                }
            }
            let mut k: usize = 0;
            while k < pure.len()
                invariant
                    k <= pure@.len(),
                    pure@.len() > 0,
                    pure@.no_duplicates(),
                    start.lit2clause@.dom().finite(),
                    start.lit2clause@.contains_key(pure@[0]),
                    self.inv(),
                    self.unit_clauses@.len() == 0,
                    self.same_setting(old(self)),
                    self.clauses == old(self).clauses,
                    self.unit_clauses == old(self).unit_clauses,
                    extends(self.assignments@, old(self).assignments@),
                    reduced(old(self), self),
                    old(self).inv(),
                    old(self).unit_clauses@.len() == 0,
                    self.newly_bound_were_pure(old(self)),
                    self.gone_keys_bound(old(self)),
                self.gone_keys_bound(old(self)),
                    forall|l: i32|
                        self.lit2clause@.contains_key(l) ==> old(self).lit2clause@.contains_key(l),
                    forall|l: i32|
                        self.lit2clause@.contains_key(l) ==> start.lit2clause@.contains_key(l),
                    forall|c: usize| self.active@.contains(c) ==> old(self).active@.contains(c),
                    k > 0 ==> !self.lit2clause@.contains_key(pure@[0]),
                    forall|i: int|
                        k <= i < pure@.len() ==> self.lit2clause@.contains_key(#[trigger] pure@[i])
                            && !self.lit2clause@.contains_key(neg(pure@[i])),
                decreases pure@.len() - k,
            {
                let l = pure[k];
                let ghost a = *self;
                self.eliminate(l);
                proof {
                    crate::cnf::lemma_extends_trans(
                        old(self).assignments@,
                        a.assignments@,
                        self.assignments@,
                    );
                    lemma_reduced_trans(old(self), &a, self);
                    lemma_pure_tracked(old(self), &a, self, l);
                }
                k += 1;
            }
            proof {
                let d0 = start.lit2clause@.dom();
                let d1 = self.lit2clause@.dom();
                assert(d1.subset_of(d0.remove(pure@[0])));
                vstd::set_lib::lemma_len_subset(d1, d0.remove(pure@[0]));
            }
        }
    }

    /// Every variable that is bound now and was not bound in `before` is bound
    /// by a literal that was a key of the index of `before`, while the
    /// complement of that literal was none.
    pub open(crate) spec fn newly_bound_were_pure(&self, before: &SatInstance) -> bool {
        forall|v: i32| #[trigger]
            self.assignments@.contains_key(v) && !before.assignments@.contains_key(v)
                ==> before.lit2clause@.contains_key(
                crate::cnf::lit_for(v, self.assignments@[v]),
            ) && !before.lit2clause@.contains_key(
                neg(crate::cnf::lit_for(v, self.assignments@[v])),
            )
    }

    /// Every key of the index of `before` that is no key now speaks of a
    /// variable that is bound now.
    pub open(crate) spec fn gone_keys_bound(&self, before: &SatInstance) -> bool {
        forall|k: i32| #[trigger]
            before.lit2clause@.contains_key(k) && !self.lit2clause@.contains_key(k)
                ==> self.assignments@.contains_key(var_of(k))
    }
}

} // verus!
