//! Unit propagation: working off the queue of forced literals.
//!
//! A literal that is taken off the queue is true. The clauses that hold it
//! are retired: they leave the active set and the index. The clauses that
//! hold its complement are shortened: they lose it, which may empty a clause
//! (a conflict) or leave one literal (which is forced in turn).
use crate::cnf::{
    clause_true, extends, lemma_neg, lit_true, neg, tautology, valid_clause, valid_formula,
    valid_lit, var_of,
};
use crate::fx::{map_get, map_get_mut, map_remove, set_items, set_remove};
use crate::sat_instance::{
    all_covered, bound_ok, complement, covered, enqueued, index_ok, keys_occur, keys_ok, listed,
    lits_of, models, queue_ok, stands_for, structure_ok, Clause, SatInstance,
};
use fxhash::FxHashSet;
use vstd::pervasive::VecAdditionalExecFns;
use vstd::prelude::*;

verus! {

/// The test that keeps every literal but `x`.
pub open spec fn other_than(x: i32) -> spec_fn(i32) -> bool {
    |l: i32| l != x
}

/// The clause `c` with every occurrence of the literal `x` taken out.
pub open spec fn without(c: Seq<i32>, x: i32) -> Seq<i32> {
    c.filter(other_than(x))
}

/// A literal is in `without(c, x)` exactly when it is in `c` and is not `x`.
pub proof fn lemma_without(c: Seq<i32>, x: i32)
    ensures
        forall|l: i32| #[trigger] without(c, x).contains(l) <==> (c.contains(l) && l != x),
        without(c, x).len() <= c.len(),
{
    let pred = other_than(x);
    c.lemma_filter_len(pred);
    assert forall|l: i32| #[trigger] without(c, x).contains(l) <==> (c.contains(l) && l != x) by {
        if without(c, x).contains(l) {
            c.lemma_filter_contains_rev(pred, l);
            let i = choose|i: int| 0 <= i < without(c, x).len() && without(c, x)[i] == l;
            c.lemma_filter_pred(pred, i);
        }
        if c.contains(l) && l != x {
            let i = choose|i: int| 0 <= i < c.len() && c[i] == l;
            c.lemma_filter_contains(pred, i);
        }
    }
}

/// The literals of `lits` that are not `x`, in their order.
pub fn strip(lits: &Vec<i32>, x: i32) -> (r: Vec<i32>)
    ensures
        r@ == without(lits@, x),
{
    let mut r: Vec<i32> = Vec::new();
    let mut i: usize = 0;
    let ghost pred = other_than(x);
    proof {
        reveal(Seq::filter);
        assert(lits@.take(0) =~= Seq::<i32>::empty());
        assert(Seq::<i32>::empty().filter(pred) =~= Seq::<i32>::empty());
    }
    while i < lits.len()
        invariant
            i <= lits@.len(),
            pred == other_than(x),
            r@ == lits@.take(i as int).filter(pred),
        decreases lits@.len() - i,
    {
        let l = lits[i];
        proof {
            assert(lits@.take(i + 1) =~= lits@.take(i as int).push(l));
            lits@.take(i as int).lemma_filter_push(l, pred);
        }
        if l != x {
            r.push(l);
        }
        i += 1;
    }
    assert(lits@.take(lits@.len() as int) =~= lits@);
    r
}

/// The keys of the index whose variable is unassigned.
pub open spec fn free_keys(ix: Map<i32, FxHashSet<usize>>, m: Map<i32, bool>) -> Set<i32> {
    ix.dom().filter(|l: i32| !m.contains_key(var_of(l)))
}

/// How many keys of the index have an unassigned variable: what is left to decide.
pub open spec fn free_count(ix: Map<i32, FxHashSet<usize>>, m: Map<i32, bool>) -> nat {
    free_keys(ix, m).len()
}

/// Fewer keys and more assigned variables leave no more to decide.
pub proof fn lemma_free_count_le(
    ix0: Map<i32, FxHashSet<usize>>,
    m0: Map<i32, bool>,
    ix1: Map<i32, FxHashSet<usize>>,
    m1: Map<i32, bool>,
)
    requires
        ix0.dom().finite(),
        forall|l: i32| ix1.contains_key(l) ==> ix0.contains_key(l),
        forall|v: i32| m0.contains_key(v) ==> m1.contains_key(v),
    ensures
        free_count(ix1, m1) <= free_count(ix0, m0),
{
    ix0.dom().lemma_len_filter(|l: i32| !m0.contains_key(var_of(l)));
    assert(free_keys(ix1, m1).subset_of(free_keys(ix0, m0)));
    vstd::set_lib::lemma_len_subset(free_keys(ix1, m1), free_keys(ix0, m0));
}

/// If moreover a key with an unassigned variable is gone, or its variable is
/// assigned now, strictly less is left to decide.
pub proof fn lemma_free_count_lt(
    ix0: Map<i32, FxHashSet<usize>>,
    m0: Map<i32, bool>,
    ix1: Map<i32, FxHashSet<usize>>,
    m1: Map<i32, bool>,
    l: i32,
)
    requires
        ix0.dom().finite(),
        forall|k: i32| ix1.contains_key(k) ==> ix0.contains_key(k),
        forall|v: i32| m0.contains_key(v) ==> m1.contains_key(v),
        ix0.contains_key(l),
        !m0.contains_key(var_of(l)),
        m1.contains_key(var_of(l)) || !ix1.contains_key(l),
    ensures
        free_count(ix1, m1) < free_count(ix0, m0),
{
    ix0.dom().lemma_len_filter(|k: i32| !m0.contains_key(var_of(k)));
    let f0 = free_keys(ix0, m0);
    let f1 = free_keys(ix1, m1);
    assert(f0.contains(l));
    assert(f1.subset_of(f0.remove(l)));
    vstd::set_lib::lemma_len_subset(f1, f0.remove(l));
}

/// As `index_ok`, but what is listed under the literal `stale` need neither
/// be active nor hold `stale`.
pub open spec fn index_ok_but(
    ix: Map<i32, FxHashSet<usize>>,
    active: Set<usize>,
    cl: Seq<Clause>,
    stale: i32,
) -> bool {
    &&& forall|l: i32, c: usize| #[trigger]
        listed(ix, l, c) ==> c < cl.len() && (l != stale ==> active.contains(c) && lits_of(
            cl,
            c as int,
        ).contains(l))
    &&& forall|c: usize, i: int|
        active.contains(c) && 0 <= i < lits_of(cl, c as int).len() ==> listed(
            ix,
            #[trigger] lits_of(cl, c as int)[i],
            c,
        )
}

/// As `keys_ok`, but a key of the variable `v` may be assigned without being queued.
pub open spec fn keys_ok_but(
    ix: Map<i32, FxHashSet<usize>>,
    vars: Set<i32>,
    m: Map<i32, bool>,
    q: Seq<i32>,
    v: i32,
) -> bool {
    forall|l: i32| #[trigger]
        ix.contains_key(l) ==> {
            &&& valid_lit(l)
            &&& vars.contains(var_of(l))
            &&& var_of(l) != v && m.contains_key(var_of(l)) ==> q.contains(l) || q.contains(neg(l))
        }
}

/// Two valid literals of one variable are equal or complements.
pub proof fn lemma_same_var(a: i32, b: i32)
    requires
        valid_lit(a),
        valid_lit(b),
        var_of(a) == var_of(b),
    ensures
        a == b || a == neg(b),
{
}

/// What `detach` does: `s1` is `s0` with clause `cid` taken out of the active
/// set and out of the index entry of each of its literals other than `skip`.
pub(crate) open spec fn detached(
    s0: &SatInstance,
    s1: &SatInstance,
    cid: usize,
    skip: i32,
) -> bool {
    &&& s1.same_setting(s0)
    &&& s1.clauses == s0.clauses
    &&& s1.assignments == s0.assignments
    &&& s1.unit_clauses == s0.unit_clauses
    &&& s1.active@ == s0.active@.remove(cid)
    &&& s1.lit2clause@.dom() == s0.lit2clause@.dom()
    &&& forall|k: i32| #[trigger]
        s1.lit2clause@.contains_key(k) ==> s1.lit2clause@[k]@.finite()
    &&& forall|k: i32, c: usize|
        listed(s1.lit2clause@, k, c) == (listed(s0.lit2clause@, k, c) && !(c == cid && k != skip
            && lits_of(s0.clauses@, cid as int).contains(k)))
}

/// `index_ok` is `index_ok_but` with nothing stale.
pub proof fn lemma_index_ok_but(
    ix: Map<i32, FxHashSet<usize>>,
    active: Set<usize>,
    cl: Seq<Clause>,
    stale: i32,
)
    requires
        index_ok(ix, active, cl),
    ensures
        index_ok_but(ix, active, cl, stale),
{
}

/// Once no key speaks of the variable that was set apart, `keys_ok` holds again.
pub proof fn lemma_keys_ok_again(
    ix: Map<i32, FxHashSet<usize>>,
    vars: Set<i32>,
    m: Map<i32, bool>,
    q: Seq<i32>,
    p: i32,
)
    requires
        valid_lit(p),
        keys_ok_but(ix, vars, m, q, var_of(p)),
        !ix.contains_key(p),
        !ix.contains_key(neg(p)),
    ensures
        keys_ok(ix, vars, m, q),
{
    assert forall|l: i32| #[trigger] ix.contains_key(l) implies {
        &&& valid_lit(l)
        &&& vars.contains(var_of(l))
        &&& m.contains_key(var_of(l)) ==> q.contains(l) || q.contains(neg(l))
    } by {
        if var_of(l) == var_of(p) {
            lemma_same_var(l, p);
        }
    }
}

/// Detaching an active clause that holds a true literal keeps the invariant.
pub(crate) proof fn lemma_detach_true(
    s0: &SatInstance,
    s1: &SatInstance,
    cid: usize,
    p: i32,
    stale: i32,
    x: i32,
)
    requires
        s0.mid(p, stale),
        cid < s0.clauses@.len(),
        s0.active@.contains(cid),
        lits_of(s0.clauses@, cid as int).contains(x),
        lit_true(s0.assignments@, x),
        detached(s0, s1, cid, stale),
    ensures
        s1.mid(p, stale),
{
    let m = s0.assignments@;
    assert(s1.formula() =~= s0.formula());
    assert(index_ok_but(s1.lit2clause@, s1.active@, s1.clauses@, stale)) by {
        assert forall|l: i32, c: usize| #[trigger] listed(s1.lit2clause@, l, c) implies c
            < s1.clauses@.len() && (l != stale ==> s1.active@.contains(c) && lits_of(
            s1.clauses@,
            c as int,
        ).contains(l)) by {
            assert(listed(s0.lit2clause@, l, c));
        }
        assert forall|c: usize, i: int|
            s1.active@.contains(c) && 0 <= i < lits_of(s1.clauses@, c as int).len() implies listed(
            s1.lit2clause@,
            #[trigger] lits_of(s1.clauses@, c as int)[i],
            c,
        ) by {
            assert(listed(s0.lit2clause@, lits_of(s0.clauses@, c as int)[i], c));
        }
    }
    assert(all_covered(m, s1.formula@, s1.origin@, s1.active@, s1.clauses@)) by {
        assert forall|j: int| 0 <= j < s1.formula@.len() implies #[trigger] covered(
            m,
            s1.formula@,
            s1.origin@,
            s1.active@,
            s1.clauses@,
            j,
        ) by {
            assert(covered(m, s0.formula@, s0.origin@, s0.active@, s0.clauses@, j));
            if !clause_true(m, s0.formula@[j]@) {
                let c = s0.origin@[j];
                assert(stands_for(s0.active@, s0.clauses@, c, s0.formula@[j]@));
                if c == cid {
                    let i = choose|i: int|
                        0 <= i < lits_of(s0.clauses@, cid as int).len() && lits_of(
                            s0.clauses@,
                            cid as int,
                        )[i] == x;
                    assert(s0.formula@[j]@.contains(lits_of(s0.clauses@, cid as int)[i]));
                    let a = choose|a: int|
                        0 <= a < s0.formula@[j]@.len() && s0.formula@[j]@[a] == x;
                    assert(lit_true(m, s0.formula@[j]@[a]));
                    assert(false);
                }
            }
        }
    }
}

/// Dropping a key under which no active clause is left restores the index
/// invariant in full.
pub(crate) proof fn lemma_key_dropped(s0: &SatInstance, s1: &SatInstance, p: i32, l: i32)
    requires
        s0.mid(p, l),
        forall|c: usize| #[trigger]
            s0.active@.contains(c) ==> !lits_of(s0.clauses@, c as int).contains(l),
        s1.same_setting(s0),
        s1.clauses == s0.clauses,
        s1.assignments == s0.assignments,
        s1.unit_clauses == s0.unit_clauses,
        s1.active == s0.active,
        s1.lit2clause@ == s0.lit2clause@.remove(l),
    ensures
        s1.mid(p, l),
        index_ok(s1.lit2clause@, s1.active@, s1.clauses@),
{
    assert(s1.formula() =~= s0.formula());
    assert forall|k: i32, c: usize|
        listed(s1.lit2clause@, k, c) == (listed(s0.lit2clause@, k, c) && k != l) by {}
    assert forall|c: usize, i: int|
        s1.active@.contains(c) && 0 <= i < lits_of(s1.clauses@, c as int).len() implies listed(
        s1.lit2clause@,
        #[trigger] lits_of(s1.clauses@, c as int)[i],
        c,
    ) by {
        let x = lits_of(s0.clauses@, c as int)[i];
        assert(listed(s0.lit2clause@, x, c));
        assert(lits_of(s0.clauses@, c as int).contains(x));
    }
    assert forall|k: i32, c: usize| #[trigger] listed(s1.lit2clause@, k, c) implies s1.active@.contains(
        c,
    ) && c < s1.clauses@.len() && lits_of(s1.clauses@, c as int).contains(k) by {
        assert(listed(s0.lit2clause@, k, c));
    }
}

/// The store `s` is the store `s0` simplified under a larger assignment:
/// the table has the same ids, a clause holds no literal that it did not hold,
/// no clause became active, every clause that left the active set is true
/// under the assignment of `s`, and every literal that an active clause lost
/// is false under it.
pub(crate) open spec fn reduced(s0: &SatInstance, s: &SatInstance) -> bool {
    &&& s.clauses@.len() == s0.clauses@.len()
    &&& extends(s.assignments@, s0.assignments@)
    &&& forall|c: usize| #[trigger] s.active@.contains(c) ==> s0.active@.contains(c)
    &&& forall|c: int, i: int|
        0 <= c < s.clauses@.len() && 0 <= i < lits_of(s.clauses@, c).len() ==> lits_of(
            s0.clauses@,
            c,
        ).contains(#[trigger] lits_of(s.clauses@, c)[i])
    &&& forall|c: usize| #[trigger]
        s0.active@.contains(c) && c < s0.clauses@.len() && !s.active@.contains(c) ==> clause_true(
            s.assignments@,
            lits_of(s0.clauses@, c as int),
        )
    &&& forall|c: usize, i: int|
        s.active@.contains(c) && c < s0.clauses@.len() && 0 <= i < lits_of(
            s0.clauses@,
            c as int,
        ).len() && !lits_of(s.clauses@, c as int).contains(lits_of(s0.clauses@, c as int)[i])
            ==> lit_true(s.assignments@, neg(#[trigger] lits_of(s0.clauses@, c as int)[i]))
}

/// A store is itself, simplified by nothing.
pub(crate) proof fn lemma_reduced_refl(a: &SatInstance)
    ensures
        reduced(a, a),
{
    assert forall|c: int, i: int|
        0 <= c < a.clauses@.len() && 0 <= i < lits_of(a.clauses@, c).len() implies lits_of(
        a.clauses@,
        c,
    ).contains(#[trigger] lits_of(a.clauses@, c)[i]) by {}
    assert forall|c: usize, i: int|
        a.active@.contains(c) && c < a.clauses@.len() && 0 <= i < lits_of(
            a.clauses@,
            c as int,
        ).len() && !lits_of(a.clauses@, c as int).contains(
            lits_of(a.clauses@, c as int)[i],
        ) implies lit_true(a.assignments@, neg(#[trigger] lits_of(a.clauses@, c as int)[i])) by {}
}

/// Simplifying a simplified store simplifies the store.
pub(crate) proof fn lemma_reduced_trans(s0: &SatInstance, a: &SatInstance, b: &SatInstance)
    requires
        reduced(s0, a),
        reduced(a, b),
    ensures
        reduced(s0, b),
{
    let m = b.assignments@;
    crate::cnf::lemma_extends_trans(s0.assignments@, a.assignments@, m);
    assert forall|c: int, i: int|
        0 <= c < b.clauses@.len() && 0 <= i < lits_of(b.clauses@, c).len() implies lits_of(
        s0.clauses@,
        c,
    ).contains(#[trigger] lits_of(b.clauses@, c)[i]) by {
        let l = lits_of(b.clauses@, c)[i];
        assert(lits_of(a.clauses@, c).contains(l));
        let h = choose|h: int| 0 <= h < lits_of(a.clauses@, c).len() && lits_of(a.clauses@, c)[h] == l;
        assert(lits_of(s0.clauses@, c).contains(lits_of(a.clauses@, c)[h]));
    }
    assert forall|c: usize| #[trigger]
        s0.active@.contains(c) && c < s0.clauses@.len() && !b.active@.contains(c) implies clause_true(
        m,
        lits_of(s0.clauses@, c as int),
    ) by {
        let l0 = lits_of(s0.clauses@, c as int);
        if !a.active@.contains(c) {
            crate::cnf::lemma_clause_true_extends(a.assignments@, m, l0);
        } else {
            let la = lits_of(a.clauses@, c as int);
            assert(clause_true(m, la));
            let h = choose|h: int| 0 <= h < la.len() && lit_true(m, #[trigger] la[h]);
            assert(l0.contains(la[h]));
            let g = choose|g: int| 0 <= g < l0.len() && l0[g] == la[h];
            assert(lit_true(m, l0[g]));
        }
    }
    assert forall|c: usize, i: int|
        b.active@.contains(c) && c < s0.clauses@.len() && 0 <= i < lits_of(
            s0.clauses@,
            c as int,
        ).len() && !lits_of(b.clauses@, c as int).contains(
            lits_of(s0.clauses@, c as int)[i],
        ) implies lit_true(m, neg(#[trigger] lits_of(s0.clauses@, c as int)[i])) by {
        let l = lits_of(s0.clauses@, c as int)[i];
        let la = lits_of(a.clauses@, c as int);
        assert(a.active@.contains(c));
        if la.contains(l) {
            let h = choose|h: int| 0 <= h < la.len() && la[h] == l;
            assert(lit_true(m, neg(la[h])));
        } else {
            assert(lit_true(a.assignments@, neg(l)));
            crate::cnf::lemma_lit_true_extends(a.assignments@, m, neg(l));
        }
    }
}

/// A store with the same clauses and active set, under a larger assignment,
/// is the store simplified.
pub(crate) proof fn lemma_reduced_frame(a: &SatInstance, b: &SatInstance)
    requires
        b.clauses@ == a.clauses@,
        b.active@ == a.active@,
        extends(b.assignments@, a.assignments@),
    ensures
        reduced(a, b),
{
    assert forall|c: int, i: int|
        0 <= c < b.clauses@.len() && 0 <= i < lits_of(b.clauses@, c).len() implies lits_of(
        a.clauses@,
        c,
    ).contains(#[trigger] lits_of(b.clauses@, c)[i]) by {}
    assert forall|c: usize, i: int|
        b.active@.contains(c) && c < a.clauses@.len() && 0 <= i < lits_of(
            a.clauses@,
            c as int,
        ).len() && !lits_of(b.clauses@, c as int).contains(
            lits_of(a.clauses@, c as int)[i],
        ) implies lit_true(b.assignments@, neg(#[trigger] lits_of(a.clauses@, c as int)[i])) by {}
}

/// Detaching an active clause that holds a true literal simplifies the store.
pub(crate) proof fn lemma_reduced_detach(
    a: &SatInstance,
    b: &SatInstance,
    cid: usize,
    skip: i32,
    x: i32,
)
    requires
        detached(a, b, cid, skip),
        cid < a.clauses@.len(),
        lits_of(a.clauses@, cid as int).contains(x),
        lit_true(a.assignments@, x),
    ensures
        reduced(a, b),
{
    assert forall|c: int, i: int|
        0 <= c < b.clauses@.len() && 0 <= i < lits_of(b.clauses@, c).len() implies lits_of(
        a.clauses@,
        c,
    ).contains(#[trigger] lits_of(b.clauses@, c)[i]) by {}
    assert forall|c: usize, i: int|
        b.active@.contains(c) && c < a.clauses@.len() && 0 <= i < lits_of(
            a.clauses@,
            c as int,
        ).len() && !lits_of(b.clauses@, c as int).contains(
            lits_of(a.clauses@, c as int)[i],
        ) implies lit_true(b.assignments@, neg(#[trigger] lits_of(a.clauses@, c as int)[i])) by {}
    assert forall|c: usize| #[trigger]
        a.active@.contains(c) && c < a.clauses@.len() && !b.active@.contains(c) implies clause_true(
        b.assignments@,
        lits_of(a.clauses@, c as int),
    ) by {
        assert(c == cid);
        let la = lits_of(a.clauses@, cid as int);
        let h = choose|h: int| 0 <= h < la.len() && la[h] == x;
        assert(lit_true(b.assignments@, la[h]));
    }
}

/// Queueing a literal simplifies the store.
pub(crate) proof fn lemma_reduced_enqueue(a: &SatInstance, b: &SatInstance, q: i32)
    requires
        enqueued(a, b, q),
    ensures
        reduced(a, b),
{
    assert(extends(b.assignments@, a.assignments@));
    lemma_reduced_frame(a, b);
}

/// The test that keeps the literals outside `r`.
pub open spec fn not_in(r: Set<i32>) -> spec_fn(i32) -> bool {
    |l: i32| !r.contains(l)
}

/// The test that keeps the literals whose complement is not true under `m`.
pub open spec fn unfalsified(m: Map<i32, bool>) -> spec_fn(i32) -> bool {
    |l: i32| !lit_true(m, neg(l))
}

/// `b` is `a` with every occurrence of some literals taken out.
pub open spec fn thinned(a: Seq<i32>, b: Seq<i32>) -> bool {
    exists|r: Set<i32>| b == #[trigger] a.filter(not_in(r))
}

/// Two tests that agree on the elements of a sequence keep the same of them.
pub proof fn lemma_filter_ext(s: Seq<i32>, p: spec_fn(i32) -> bool, q: spec_fn(i32) -> bool)
    requires
        forall|i: int| 0 <= i < s.len() ==> p(#[trigger] s[i]) == q(s[i]),
    ensures
        s.filter(p) == s.filter(q),
    decreases s.len(),
{
    reveal(Seq::filter);
    if s.len() > 0 {
        let rest = s.drop_last();
        assert forall|i: int| 0 <= i < rest.len() implies p(#[trigger] rest[i]) == q(rest[i]) by {
            assert(rest[i] == s[i]);
        }
        lemma_filter_ext(rest, p, q);
        assert(p(s[s.len() - 1]) == q(s[s.len() - 1]));
    }
}

/// Keeping by one test and then by another keeps by both.
pub proof fn lemma_filter_filter(
    s: Seq<i32>,
    p: spec_fn(i32) -> bool,
    q: spec_fn(i32) -> bool,
    both: spec_fn(i32) -> bool,
)
    requires
        forall|x: i32| #[trigger] both(x) == (p(x) && q(x)),
    ensures
        s.filter(p).filter(q) == s.filter(both),
    decreases s.len(),
{
    reveal(Seq::filter);
    if s.len() > 0 {
        let rest = s.drop_last();
        let last = s.last();
        lemma_filter_filter(rest, p, q, both);
        assert(s =~= rest.push(last));
        rest.lemma_filter_push(last, p);
        rest.lemma_filter_push(last, both);
        rest.filter(p).lemma_filter_push(last, q);
        assert(both(last) == (p(last) && q(last)));
    } else {
        assert(s.filter(p) =~= s);
    }
}

/// A test that every element passes keeps the sequence.
pub proof fn lemma_filter_all(s: Seq<i32>, p: spec_fn(i32) -> bool)
    requires
        forall|i: int| 0 <= i < s.len() ==> p(#[trigger] s[i]),
    ensures
        s.filter(p) == s,
    decreases s.len(),
{
    reveal(Seq::filter);
    if s.len() > 0 {
        let rest = s.drop_last();
        assert forall|i: int| 0 <= i < rest.len() implies p(#[trigger] rest[i]) by {
            assert(rest[i] == s[i]);
        }
        lemma_filter_all(rest, p);
        assert(p(s[s.len() - 1]));
        assert(rest.push(s.last()) =~= s);
    }
}

/// A sequence is itself with nothing taken out.
pub proof fn lemma_thinned_refl(a: Seq<i32>)
    ensures
        thinned(a, a),
{
    lemma_filter_all(a, not_in(Set::<i32>::empty()));
    assert(a == a.filter(not_in(Set::<i32>::empty())));
}

/// Taking literals out twice is taking literals out.
pub proof fn lemma_thinned_trans(a: Seq<i32>, b: Seq<i32>, c: Seq<i32>)
    requires
        thinned(a, b),
        thinned(b, c),
    ensures
        thinned(a, c),
{
    let r1 = choose|r: Set<i32>| b == #[trigger] a.filter(not_in(r));
    let r2 = choose|r: Set<i32>| c == #[trigger] b.filter(not_in(r));
    lemma_filter_filter(a, not_in(r1), not_in(r2), not_in(r1 + r2));
    assert(c == a.filter(not_in(r1 + r2)));
}

/// Taking one literal out is taking literals out.
pub proof fn lemma_thinned_without(a: Seq<i32>, x: i32)
    ensures
        thinned(a, without(a, x)),
{
    lemma_filter_ext(a, other_than(x), not_in(set![x]));
    assert(without(a, x) == a.filter(not_in(set![x])));
}

/// Every clause of the table of `s` is the clause of `s0` with the same id,
/// with every occurrence of some literals taken out.
pub(crate) open spec fn thinned_table(s0: &SatInstance, s: &SatInstance) -> bool {
    &&& s.clauses@.len() == s0.clauses@.len()
    &&& forall|c: int|
        0 <= c < s.clauses@.len() ==> thinned(
            lits_of(s0.clauses@, c),
            #[trigger] lits_of(s.clauses@, c),
        )
}

/// A table is itself with nothing taken out.
pub(crate) proof fn lemma_thinned_table_same(a: &SatInstance, b: &SatInstance)
    requires
        b.clauses@ == a.clauses@,
    ensures
        thinned_table(a, b),
{
    assert forall|c: int| 0 <= c < b.clauses@.len() implies thinned(
        lits_of(a.clauses@, c),
        #[trigger] lits_of(b.clauses@, c),
    ) by {
        lemma_thinned_refl(lits_of(a.clauses@, c));
    }
}

/// Thinning a thinned table thins the table.
pub(crate) proof fn lemma_thinned_table_trans(s0: &SatInstance, a: &SatInstance, b: &SatInstance)
    requires
        thinned_table(s0, a),
        thinned_table(a, b),
    ensures
        thinned_table(s0, b),
{
    assert forall|c: int| 0 <= c < b.clauses@.len() implies thinned(
        lits_of(s0.clauses@, c),
        #[trigger] lits_of(b.clauses@, c),
    ) by {
        assert(thinned(lits_of(s0.clauses@, c), lits_of(a.clauses@, c)));
        lemma_thinned_trans(lits_of(s0.clauses@, c), lits_of(a.clauses@, c), lits_of(b.clauses@, c));
    }
}

/// Every model of the store with the queue `q` makes the literal `l` true.
pub open spec fn entailed(active: Set<usize>, cl: Seq<Clause>, q: Seq<i32>, l: i32) -> bool {
    forall|m: Map<i32, bool>| #[trigger] models(active, cl, q, m) ==> lit_true(m, l)
}

/// Every variable that `m1` binds and `m0` does not is bound to the value
/// that every model of the store with the queue `q` gives it.
pub open spec fn forced(
    active: Set<usize>,
    cl: Seq<Clause>,
    q: Seq<i32>,
    m0: Map<i32, bool>,
    m1: Map<i32, bool>,
) -> bool {
    forall|v: i32| #[trigger]
        m1.contains_key(v) && !m0.contains_key(v) ==> entailed(
            active,
            cl,
            q,
            crate::cnf::lit_for(v, m1[v]),
        )
}

/// The test that keeps the literals whose complement is not in `prior`.
pub open spec fn unrefuted(prior: Seq<i32>) -> spec_fn(i32) -> bool {
    |l: i32| !prior.contains(neg(l))
}

/// The test that passes what passes both tests.
pub open spec fn both_of(p: spec_fn(i32) -> bool, q: spec_fn(i32) -> bool) -> spec_fn(i32) -> bool {
    |l: i32| p(l) && q(l)
}

/// Literal `i` of the chain `d` is queued, or it is all that is left of an
/// active clause when the literals are taken out whose complements come
/// before it in the chain.
pub open spec fn chain_step(
    active: Set<usize>,
    table: Seq<Seq<i32>>,
    q: Seq<i32>,
    d: Seq<i32>,
    i: int,
) -> bool {
    q.contains(d[i]) || exists|c: usize|
        active.contains(c) && c < table.len() && #[trigger] table[c as int].filter(
            unrefuted(d.take(i)),
        ) == seq![d[i]]
}

/// `d` is a chain of forced literals: each of them is queued or follows
/// from a clause and the literals before it.
pub open spec fn chain(active: Set<usize>, table: Seq<Seq<i32>>, q: Seq<i32>, d: Seq<i32>) -> bool {
    forall|i: int| 0 <= i < d.len() ==> #[trigger] chain_step(active, table, q, d, i)
}

/// The chain shows a conflict: it holds a literal and its complement, or
/// nothing is left of an active clause when the literals are taken out whose
/// complements are in the chain.
pub open spec fn refuted_by(active: Set<usize>, table: Seq<Seq<i32>>, d: Seq<i32>) -> bool {
    ||| exists|i: int, j: int|
        0 <= i < d.len() && 0 <= j < d.len() && #[trigger] d[i] == neg(#[trigger] d[j])
    ||| exists|c: usize|
        active.contains(c) && c < table.len() && (#[trigger] table[c as int].filter(
            unrefuted(d),
        )).len() == 0
}

/// Unit propagation owes a conflict: some chain of forced literals shows one.
pub open spec fn conflict_owed(active: Set<usize>, table: Seq<Seq<i32>>, q: Seq<i32>) -> bool {
    exists|d: Seq<i32>| #[trigger] chain(active, table, q, d) && refuted_by(active, table, d)
}

/// In a settled store that is a store simplified, every active clause is
/// its old clause without the literals that are false, and a clause is active
/// exactly when it was and is not true.
pub(crate) proof fn lemma_propagated(s0: &SatInstance, s: &SatInstance)
    requires
        s0.inv(),
        s.settled(),
        reduced(s0, s),
        thinned_table(s0, s),
    ensures
        s.table().len() == s0.table().len(),
        forall|c: usize| #[trigger]
            s.active_set().contains(c) ==> c < s0.table().len() && s.table()[c as int]
                == s0.table()[c as int].filter(unfalsified(s.assignment())),
        forall|c: usize| #[trigger]
            s.active_set().contains(c) <==> s0.active_set().contains(c) && !clause_true(
                s.assignment(),
                s0.table()[c as int],
            ),
{
    let m = s.assignments@;
    assert forall|c: usize| s.active@.contains(c) implies !clause_true(
        m,
        lits_of(s0.clauses@, c as int),
    ) && lits_of(s.clauses@, c as int) == lits_of(s0.clauses@, c as int).filter(unfalsified(m)) by {
        let l0 = lits_of(s0.clauses@, c as int);
        let l1 = lits_of(s.clauses@, c as int);
        assert(s0.active@.contains(c));
        assert(thinned(l0, l1));
        let r = choose|r: Set<i32>| l1 == #[trigger] l0.filter(not_in(r));
        assert(valid_clause(l0));
        assert forall|i: int| 0 <= i < l0.len() implies not_in(r)(#[trigger] l0[i]) == unfalsified(
            m,
        )(l0[i]) && !lit_true(m, l0[i]) by {
            let l = l0[i];
            lemma_neg(l);
            if l1.contains(l) {
                let h = choose|h: int| 0 <= h < l1.len() && l1[h] == l;
                assert(listed(s.lit2clause@, l1[h], c));
                assert(s.lit2clause@.contains_key(l));
                if m.contains_key(var_of(l)) {
                    assert(s.unit_clauses@.contains(l) || s.unit_clauses@.contains(neg(l)));
                }
                l0.lemma_filter_pred(not_in(r), h);
            } else {
                assert(lit_true(m, neg(l0[i])));
                crate::cnf::lemma_not_both(m, l);
                if not_in(r)(l) {
                    l0.lemma_filter_contains(not_in(r), i);
                }
            }
        }
        lemma_filter_ext(l0, not_in(r), unfalsified(m));
        if clause_true(m, l0) {
            let i = choose|i: int| 0 <= i < l0.len() && lit_true(m, #[trigger] l0[i]);
            assert(!lit_true(m, l0[i]));
        }
    }
    assert forall|c: usize| #[trigger]
        s.active_set().contains(c) implies c < s0.table().len() && s.table()[c as int]
        == s0.table()[c as int].filter(unfalsified(s.assignment())) by {
        assert(s0.active@.contains(c));
        assert(lits_of(s.clauses@, c as int) == s.table()[c as int]);
        assert(lits_of(s0.clauses@, c as int) == s0.table()[c as int]);
    }
    assert forall|c: usize| #[trigger]
        s.active_set().contains(c) <==> s0.active_set().contains(c) && !clause_true(
            s.assignment(),
            s0.table()[c as int],
        ) by {
        if s0.active@.contains(c) {
            assert(lits_of(s0.clauses@, c as int) == s0.table()[c as int]);
        }
    }
}

/// In a store that was propagated without a conflict, every literal of a
/// chain of forced literals of the store before is true.
pub(crate) proof fn lemma_chain_true(s0: &SatInstance, s: &SatInstance, d: Seq<i32>, n: int)
    requires
        s0.inv(),
        s.settled(),
        reduced(s0, s),
        thinned_table(s0, s),
        chain(s0.active_set(), s0.table(), s0.queue(), d),
        0 <= n <= d.len(),
    ensures
        forall|i: int| 0 <= i < n ==> lit_true(s.assignment(), #[trigger] d[i]),
    decreases n,
{
    if n > 0 {
        lemma_chain_true(s0, s, d, n - 1);
        lemma_propagated(s0, s);
        let m = s.assignments@;
        let i = n - 1;
        let q = d[i];
        let prior = d.take(i);
        assert forall|x: i32| prior.contains(x) implies lit_true(m, x) by {
            let h = choose|h: int| 0 <= h < prior.len() && prior[h] == x;
            assert(d[h] == x);
        }
        assert(chain_step(s0.active_set(), s0.table(), s0.queue(), d, i));
        if s0.unit_clauses@.contains(q) {
            let h = choose|h: int| 0 <= h < s0.unit_clauses@.len() && s0.unit_clauses@[h] == q;
            assert(lit_true(s0.assignments@, s0.unit_clauses@[h]));
            crate::cnf::lemma_lit_true_extends(s0.assignments@, m, q);
        } else {
            let c = choose|c: usize|
                s0.active_set().contains(c) && c < s0.table().len() && #[trigger] s0.table()[c as int].filter(
                    unrefuted(prior),
                ) == seq![q];
            lemma_left(s0, s, c, prior);
            let f = s0.table()[c as int].filter(unrefuted(prior));
            assert(f.len() == 1);
            let l = choose|l: i32| f.contains(l) && lit_true(m, l);
            let h = choose|h: int| 0 <= h < f.len() && f[h] == l;
            assert(f[0] == q);
        }
    }
}

/// In a store that was propagated without a conflict, take an active clause
/// of the store before, and take out the literals whose complements are
/// among some true literals: two literals or more are left, or a true one.
pub(crate) proof fn lemma_left(s0: &SatInstance, s: &SatInstance, c: usize, prior: Seq<i32>)
    requires
        s0.inv(),
        s.settled(),
        reduced(s0, s),
        thinned_table(s0, s),
        s0.active@.contains(c),
        forall|x: i32| prior.contains(x) ==> lit_true(s.assignments@, x),
    ensures
        s0.table()[c as int].filter(unrefuted(prior)).len() >= 2 || exists|l: i32|
            #[trigger] s0.table()[c as int].filter(unrefuted(prior)).contains(l) && lit_true(
                s.assignments@,
                l,
            ),
{
    lemma_propagated(s0, s);
    let m = s.assignments@;
    let t0 = s0.table()[c as int];
    let f = t0.filter(unrefuted(prior));
    assert(c < s0.clauses@.len());
    if s.active@.contains(c) {
        let t1 = s.table()[c as int];
        assert(s.active_set().contains(c));
        assert(t1 == t0.filter(unfalsified(s.assignment())));
        lemma_filter_filter(
            t0,
            unrefuted(prior),
            unfalsified(m),
            both_of(unrefuted(prior), unfalsified(m)),
        );
        assert forall|i: int| 0 <= i < t0.len() implies both_of(unrefuted(prior), unfalsified(m))(
            #[trigger] t0[i],
        ) == unfalsified(m)(t0[i]) by {
            if prior.contains(neg(t0[i])) {
                assert(lit_true(m, neg(t0[i])));
            }
        }
        lemma_filter_ext(t0, both_of(unrefuted(prior), unfalsified(m)), unfalsified(m));
        assert(t1 == f.filter(unfalsified(m)));
        assert(lits_of(s.clauses@, c as int) == t1);
        assert(t1.len() >= 2);
        f.lemma_filter_len(unfalsified(m));
    } else {
        assert(clause_true(m, t0));
        let i = choose|i: int| 0 <= i < t0.len() && lit_true(m, #[trigger] t0[i]);
        crate::cnf::lemma_not_both(m, t0[i]);
        if prior.contains(neg(t0[i])) {
            assert(lit_true(m, neg(t0[i])));
        }
        t0.lemma_filter_contains(unrefuted(prior), i);
        assert(f.contains(t0[i]) && lit_true(m, t0[i]));
    }
}

/// A store that was propagated without a conflict owed none.
pub(crate) proof fn lemma_none_owed(s0: &SatInstance, s: &SatInstance)
    requires
        s0.inv(),
        s.settled(),
        reduced(s0, s),
        thinned_table(s0, s),
    ensures
        !conflict_owed(s0.active_set(), s0.table(), s0.queue()),
{
    let m = s.assignments@;
    assert forall|d: Seq<i32>| #[trigger]
        chain(s0.active_set(), s0.table(), s0.queue(), d) implies !refuted_by(
        s0.active_set(),
        s0.table(),
        d,
    ) by {
        lemma_chain_true(s0, s, d, d.len() as int);
        assert forall|x: i32| d.contains(x) implies lit_true(m, x) by {
            let h = choose|h: int| 0 <= h < d.len() && d[h] == x;
            assert(lit_true(m, d[h]));
        }
        if exists|i: int, j: int|
            0 <= i < d.len() && 0 <= j < d.len() && #[trigger] d[i] == neg(#[trigger] d[j]) {
            let (i, j) = choose|i: int, j: int|
                0 <= i < d.len() && 0 <= j < d.len() && #[trigger] d[i] == neg(#[trigger] d[j]);
            crate::cnf::lemma_not_both(m, d[j]);
        }
        if exists|c: usize|
            s0.active_set().contains(c) && c < s0.table().len() && (#[trigger] s0.table()[c as int].filter(
                unrefuted(d),
            )).len() == 0 {
            let c = choose|c: usize|
                s0.active_set().contains(c) && c < s0.table().len() && (#[trigger] s0.table()[c as int].filter(
                    unrefuted(d),
                )).len() == 0;
            lemma_left(s0, s, c, d);
            let f = s0.table()[c as int].filter(unrefuted(d));
            let l = choose|l: i32| f.contains(l) && lit_true(m, l);
            let h = choose|h: int| 0 <= h < f.len() && f[h] == l;
        }
    }
}

/// What one round of the propagation forces is forced by the store that
/// the propagation started with.
pub(crate) proof fn lemma_forced_step(
    s0: &SatInstance,
    a: &SatInstance,
    c: &SatInstance,
    d: &SatInstance,
    p: i32,
)
    requires
        forced(s0.active@, s0.clauses@, s0.unit_clauses@, s0.assignments@, a.assignments@),
        forall|m: Map<i32, bool>| #[trigger] s0.state_model(m) ==> a.state_model(m),
        a.unit_clauses@.len() > 0,
        p == a.unit_clauses@.last(),
        c.unit_clauses@ == a.unit_clauses@.drop_last(),
        c.clauses@ == a.clauses@,
        c.assignments@ == a.assignments@,
        forall|x: usize| c.active@.contains(x) ==> a.active@.contains(x),
        extends(d.assignments@, c.assignments@),
        forced(c.active@, c.clauses@, c.unit_clauses@.push(p), c.assignments@, d.assignments@),
    ensures
        forced(s0.active@, s0.clauses@, s0.unit_clauses@, s0.assignments@, d.assignments@),
{
    assert(c.unit_clauses@.push(p) =~= a.unit_clauses@);
    assert forall|v: i32| #[trigger]
        d.assignments@.contains_key(v) && !s0.assignments@.contains_key(v) implies entailed(
        s0.active@,
        s0.clauses@,
        s0.unit_clauses@,
        crate::cnf::lit_for(v, d.assignments@[v]),
    ) by {
        let l = crate::cnf::lit_for(v, d.assignments@[v]);
        if a.assignments@.contains_key(v) {
            assert(c.assignments@.contains_key(v));
            assert(d.assignments@[v] == a.assignments@[v]);
        } else {
            assert(entailed(c.active@, c.clauses@, c.unit_clauses@.push(p), l));
            assert forall|m: Map<i32, bool>| #[trigger]
                models(s0.active@, s0.clauses@, s0.unit_clauses@, m) implies lit_true(m, l) by {
                assert(s0.state_model(m));
                assert(a.state_model(m));
                assert(models(c.active@, c.clauses@, a.unit_clauses@, m));
            }
        }
    }
}

/// The models of a store that extend its assignment are the models of the
/// store it was propagated from that extend the assignment of that store.
pub(crate) proof fn lemma_same_models(s0: &SatInstance, s: &SatInstance)
    requires
        s0.inv(),
        s.inv(),
        s.same_setting(s0),
        reduced(s0, s),
        forced(s0.active@, s0.clauses@, s0.unit_clauses@, s0.assignments@, s.assignments@),
        forall|m: Map<i32, bool>| #[trigger] s0.state_model(m) ==> s.state_model(m),
    ensures
        forall|m: Map<i32, bool>| #[trigger]
            s.state_model(m) && extends(m, s.assignment()) <==> s0.state_model(m) && extends(
                m,
                s0.assignment(),
            ),
        forall|v: i32| #[trigger]
            s.assignment().contains_key(v) && !s0.assignment().contains_key(v) ==> forall|
                m: Map<i32, bool>,
            | #[trigger]
                s0.state_model(m) ==> lit_true(m, crate::cnf::lit_for(v, s.assignment()[v])),
{
    let m0 = s0.assignments@;
    let m1 = s.assignments@;
    assert forall|v: i32| #[trigger]
        m1.contains_key(v) && !m0.contains_key(v) implies forall|m: Map<i32, bool>| #[trigger]
        s0.state_model(m) ==> lit_true(m, crate::cnf::lit_for(v, m1[v])) by {
        assert(entailed(s0.active@, s0.clauses@, s0.unit_clauses@, crate::cnf::lit_for(v, m1[v])));
    }
    assert forall|m: Map<i32, bool>| #[trigger]
        s.state_model(m) && extends(m, m1) <==> s0.state_model(m) && extends(m, m0) by {
        if s0.state_model(m) && extends(m, m0) {
            assert(s.state_model(m));
            assert forall|v: i32| #[trigger] m1.contains_key(v) implies m.contains_key(v) && m[v]
                == m1[v] by {
                if m0.contains_key(v) {
                    assert(m1[v] == m0[v]);
                } else {
                    let l = crate::cnf::lit_for(v, m1[v]);
                    assert(entailed(s0.active@, s0.clauses@, s0.unit_clauses@, l));
                    assert(lit_true(m, l));
                    assert(crate::sat_instance::occurs_in(s.formula@, v));
                    let (j, i) = choose|j: int, i: int|
                        0 <= j < s.formula@.len() && 0 <= i < s.formula@[j]@.len() && var_of(
                            #[trigger] s.formula@[j]@[i],
                        ) == v;
                    assert(valid_clause(s.formula()[j]));
                    assert(valid_lit(s.formula()[j][i]));
                    lemma_neg(s.formula@[j]@[i]);
                }
            }
        }
        if s.state_model(m) && extends(m, m1) {
            crate::cnf::lemma_extends_trans(m0, m1, m);
            assert forall|c: usize| #[trigger] s0.active@.contains(c) implies clause_true(
                m,
                lits_of(s0.clauses@, c as int),
            ) by {
                let l0 = lits_of(s0.clauses@, c as int);
                if s.active@.contains(c) {
                    let l1 = lits_of(s.clauses@, c as int);
                    assert(clause_true(m, l1));
                    let h = choose|h: int| 0 <= h < l1.len() && lit_true(m, #[trigger] l1[h]);
                    assert(l0.contains(l1[h]));
                    let g = choose|g: int| 0 <= g < l0.len() && l0[g] == l1[h];
                    assert(lit_true(m, l0[g]));
                } else {
                    assert(clause_true(m1, l0));
                    crate::cnf::lemma_clause_true_extends(m1, m, l0);
                }
            }
            assert forall|k: int| 0 <= k < s0.unit_clauses@.len() implies lit_true(
                m,
                #[trigger] s0.unit_clauses@[k],
            ) by {
                crate::cnf::lemma_lit_true_extends(m0, m, s0.unit_clauses@[k]);
            }
        }
    }
}

/// A test that no element passes keeps nothing.
pub proof fn lemma_filter_none(s: Seq<i32>, p: spec_fn(i32) -> bool)
    requires
        forall|i: int| 0 <= i < s.len() ==> !p(#[trigger] s[i]),
    ensures
        s.filter(p).len() == 0,
    decreases s.len(),
{
    reveal(Seq::filter);
    if s.len() > 0 {
        let rest = s.drop_last();
        assert forall|i: int| 0 <= i < rest.len() implies !p(#[trigger] rest[i]) by {
            assert(rest[i] == s[i]);
        }
        lemma_filter_none(rest, p);
        assert(!p(s[s.len() - 1]));
    }
}

/// The chain `d` follows the propagation from the store `root` to the store
/// `s`: it is a chain of forced literals of `root`, its literals are true in
/// `s`, every literal that is queued in `s` is in it, and so is the complement
/// of every literal that a clause has lost since `root`.
pub(crate) open spec fn trail(root: &SatInstance, s: &SatInstance, d: Seq<i32>) -> bool {
    &&& chain(root.active_set(), root.table(), root.queue(), d)
    &&& forall|i: int| 0 <= i < d.len() ==> lit_true(s.assignments@, #[trigger] d[i])
    &&& forall|k: int| 0 <= k < s.unit_clauses@.len() ==> d.contains(#[trigger] s.unit_clauses@[k])
    &&& thinned_table(root, s)
    &&& forall|c: usize| #[trigger] s.active@.contains(c) ==> root.active@.contains(c)
    &&& forall|c: int, i: int|
        0 <= c < root.clauses@.len() && 0 <= i < lits_of(root.clauses@, c).len() && !lits_of(
            s.clauses@,
            c,
        ).contains(lits_of(root.clauses@, c)[i]) ==> d.contains(
            neg(#[trigger] lits_of(root.clauses@, c)[i]),
        )
}

/// The queue of a store is a chain that follows its propagation so far.
pub(crate) proof fn lemma_trail_start(s: &SatInstance)
    requires
        s.inv(),
    ensures
        trail(s, s, s.unit_clauses@),
{
    let d = s.unit_clauses@;
    assert forall|i: int| 0 <= i < d.len() implies #[trigger] chain_step(
        s.active_set(),
        s.table(),
        s.queue(),
        d,
        i,
    ) by {
        assert(s.queue().contains(d[i]));
    }
    lemma_thinned_table_same(s, s);
    assert forall|k: int| 0 <= k < s.unit_clauses@.len() implies d.contains(
        #[trigger] s.unit_clauses@[k],
    ) by {}
    assert forall|c: int, i: int|
        0 <= c < s.clauses@.len() && 0 <= i < lits_of(s.clauses@, c).len() && !lits_of(
            s.clauses@,
            c,
        ).contains(lits_of(s.clauses@, c)[i]) implies d.contains(
        neg(#[trigger] lits_of(s.clauses@, c)[i]),
    ) by {}
}

/// A chain goes on following where the clauses stay, the assignment grows,
/// no clause becomes active and what is queued is in the chain.
pub(crate) proof fn lemma_trail_keep(root: &SatInstance, a: &SatInstance, b: &SatInstance, d: Seq<i32>)
    requires
        trail(root, a, d),
        b.clauses@ == a.clauses@,
        extends(b.assignments@, a.assignments@),
        forall|k: int| 0 <= k < b.unit_clauses@.len() ==> d.contains(#[trigger] b.unit_clauses@[k]),
        forall|c: usize| b.active@.contains(c) ==> a.active@.contains(c),
    ensures
        trail(root, b, d),
{
    lemma_thinned_table_same(a, b);
    lemma_thinned_table_trans(root, a, b);
    assert forall|i: int| 0 <= i < d.len() implies lit_true(b.assignments@, #[trigger] d[i]) by {
        crate::cnf::lemma_lit_true_extends(a.assignments@, b.assignments@, d[i]);
    }
}

/// A chain goes on following where a clause loses the complement of a
/// literal of the chain.
pub(crate) proof fn lemma_trail_strip(
    root: &SatInstance,
    a: &SatInstance,
    b: &SatInstance,
    d: Seq<i32>,
    cid: usize,
    p: i32,
)
    requires
        trail(root, a, d),
        valid_lit(p),
        d.contains(p),
        cid < a.clauses@.len(),
        b.clauses@.len() == a.clauses@.len(),
        forall|c: int|
            0 <= c < a.clauses@.len() && c != cid ==> #[trigger] b.clauses@[c] == a.clauses@[c],
        lits_of(b.clauses@, cid as int) == without(lits_of(a.clauses@, cid as int), neg(p)),
        b.assignments@ == a.assignments@,
        b.unit_clauses@ == a.unit_clauses@,
        b.active@ == a.active@,
    ensures
        trail(root, b, d),
{
    let np = neg(p);
    let la = lits_of(a.clauses@, cid as int);
    lemma_neg(p);
    lemma_without(la, np);
    assert(thinned_table(a, b)) by {
        assert forall|c: int| 0 <= c < b.clauses@.len() implies thinned(
            lits_of(a.clauses@, c),
            #[trigger] lits_of(b.clauses@, c),
        ) by {
            if c == cid {
                lemma_thinned_without(la, np);
            } else {
                assert(b.clauses@[c] == a.clauses@[c]);
                lemma_thinned_refl(lits_of(a.clauses@, c));
            }
        }
    }
    lemma_thinned_table_trans(root, a, b);
    assert forall|c: int, i: int|
        0 <= c < root.clauses@.len() && 0 <= i < lits_of(root.clauses@, c).len() && !lits_of(
            b.clauses@,
            c,
        ).contains(lits_of(root.clauses@, c)[i]) implies d.contains(
        neg(#[trigger] lits_of(root.clauses@, c)[i]),
    ) by {
        let x = lits_of(root.clauses@, c)[i];
        if c == cid {
            if la.contains(x) {
                assert(x == np);
            }
        } else {
            assert(b.clauses@[c] == a.clauses@[c]);
        }
    }
}

/// Where the complement of every literal of an active clause is in a chain
/// that follows the propagation, the chain shows a conflict of the store that
/// the propagation started with.
pub(crate) proof fn lemma_trail_blocked(root: &SatInstance, a: &SatInstance, d: Seq<i32>, cid: usize)
    requires
        trail(root, a, d),
        a.active@.contains(cid),
        cid < a.clauses@.len(),
        forall|x: i32| lits_of(a.clauses@, cid as int).contains(x) ==> d.contains(neg(x)),
    ensures
        conflict_owed(root.active_set(), root.table(), root.queue()),
{
    let t0 = root.table()[cid as int];
    assert(t0 == lits_of(root.clauses@, cid as int));
    assert forall|i: int| 0 <= i < t0.len() implies !unrefuted(d)(#[trigger] t0[i]) by {
        if !lits_of(a.clauses@, cid as int).contains(t0[i]) {
            assert(d.contains(neg(lits_of(root.clauses@, cid as int)[i])));
        }
    }
    lemma_filter_none(t0, unrefuted(d));
    assert(root.active_set().contains(cid) && cid < root.table().len() && root.table()[cid as int].filter(
        unrefuted(d),
    ).len() == 0);
    assert(refuted_by(root.active_set(), root.table(), d));
    assert(chain(root.active_set(), root.table(), root.queue(), d));
}

/// The chain that follows when a clause has left one literal and that literal
/// was taken: the chain with the literal at its end, if the literal was bound
/// by this.
pub(crate) proof fn lemma_trail_unit(
    root: &SatInstance,
    a: &SatInstance,
    c: &SatInstance,
    d: Seq<i32>,
    cid: usize,
    q: i32,
    p: i32,
) -> (e: Seq<i32>)
    requires
        trail(root, a, d),
        valid_lit(p),
        valid_lit(q),
        d.contains(p),
        a.active@.contains(cid),
        cid < a.clauses@.len(),
        without(lits_of(a.clauses@, cid as int), neg(p)) =~= seq![q],
        !lit_true(a.assignments@, neg(q)),
        c.clauses@ == a.clauses@,
        forall|x: usize| c.active@.contains(x) ==> a.active@.contains(x),
        lit_true(a.assignments@, q) ==> c.assignments@ == a.assignments@ && c.unit_clauses@
            == a.unit_clauses@,
        !lit_true(a.assignments@, q) ==> c.assignments@ == a.assignments@.insert(var_of(q), q > 0)
            && c.unit_clauses@ == a.unit_clauses@.push(q) && !a.assignments@.contains_key(var_of(q)),
    ensures
        trail(root, c, e),
        e.contains(p),
{
    let np = neg(p);
    lemma_neg(p);
    lemma_neg(q);
    if lit_true(a.assignments@, q) {
        lemma_trail_keep(root, a, c, d);
        d
    } else {
        let e = d.push(q);
        let n = d.len() as int;
        let t0 = root.table()[cid as int];
        let la = lits_of(a.clauses@, cid as int);
        let w = without(la, np);
        assert(t0 == lits_of(root.clauses@, cid as int));
        assert(thinned(t0, la));
        let r = choose|r: Set<i32>| la == #[trigger] t0.filter(not_in(r));
        lemma_filter_filter(t0, not_in(r), other_than(np), both_of(not_in(r), other_than(np)));
        lemma_without(la, np);
        assert(w[0] == q);
        assert forall|i: int| 0 <= i < t0.len() implies both_of(not_in(r), other_than(np))(
            #[trigger] t0[i],
        ) == unrefuted(d)(t0[i]) by {
            let x = t0[i];
            if r.contains(x) {
                if la.contains(x) {
                    let h = choose|h: int| 0 <= h < la.len() && la[h] == x;
                    t0.lemma_filter_pred(not_in(r), h);
                }
                assert(d.contains(neg(lits_of(root.clauses@, cid as int)[i])));
            } else if x == np {
            } else {
                t0.lemma_filter_contains(not_in(r), i);
                assert(la.contains(x));
                assert(w.contains(x));
                let h = choose|h: int| 0 <= h < w.len() && w[h] == x;
                assert(x == q);
                if d.contains(neg(q)) {
                    let g = choose|g: int| 0 <= g < d.len() && d[g] == neg(q);
                    assert(lit_true(a.assignments@, d[g]));
                }
            }
        }
        lemma_filter_ext(t0, both_of(not_in(r), other_than(np)), unrefuted(d));
        assert(t0.filter(unrefuted(d)) == seq![q]);
        assert(e.take(n) =~= d);
        assert(e[n] == q);
        assert(root.active@.contains(cid));
        assert forall|i: int| 0 <= i < e.len() implies #[trigger] chain_step(
            root.active_set(),
            root.table(),
            root.queue(),
            e,
            i,
        ) by {
            if i < n {
                assert(chain_step(root.active_set(), root.table(), root.queue(), d, i));
                assert(e.take(i) =~= d.take(i));
                assert(e[i] == d[i]);
            } else {
                assert(root.active_set().contains(cid) && cid < root.table().len()
                    && root.table()[cid as int].filter(unrefuted(e.take(i))) == seq![e[i]]);
            }
        }
        assert forall|x: i32| d.contains(x) implies e.contains(x) by {
            let g = choose|g: int| 0 <= g < d.len() && d[g] == x;
            assert(e[g] == x);
        }
        assert(extends(c.assignments@, a.assignments@));
        assert forall|i: int| 0 <= i < e.len() implies lit_true(c.assignments@, #[trigger] e[i]) by {
            if i < n {
                assert(e[i] == d[i]);
                crate::cnf::lemma_lit_true_extends(a.assignments@, c.assignments@, d[i]);
            }
        }
        assert forall|k: int| 0 <= k < c.unit_clauses@.len() implies e.contains(
            #[trigger] c.unit_clauses@[k],
        ) by {
            if k < a.unit_clauses@.len() {
                assert(c.unit_clauses@[k] == a.unit_clauses@[k]);
                assert(d.contains(a.unit_clauses@[k]));
            } else {
                assert(e[n] == c.unit_clauses@[k]);
            }
        }
        lemma_thinned_table_same(a, c);
        lemma_thinned_table_trans(root, a, c);
        assert forall|x: int, i: int|
            0 <= x < root.clauses@.len() && 0 <= i < lits_of(root.clauses@, x).len() && !lits_of(
                c.clauses@,
                x,
            ).contains(lits_of(root.clauses@, x)[i]) implies e.contains(
            neg(#[trigger] lits_of(root.clauses@, x)[i]),
        ) by {
            assert(d.contains(neg(lits_of(root.clauses@, x)[i])));
        }
        e
    }
}

/// Clause `c` is active and still holds the literal `x`.
pub(crate) open spec fn pending(s: &SatInstance, x: i32, c: usize) -> bool {
    s.active@.contains(c) && c < s.clauses@.len() && lits_of(s.clauses@, c as int).contains(x)
}

/// The state of the store while the clauses listed under the complement of the
/// true literal `p` are shortened: `ids` are those clauses, the first `k` of
/// them are done. `s0` is the store before the first of them.
pub(crate) open spec fn shortening(
    s0: &SatInstance,
    s: &SatInstance,
    p: i32,
    ids: Seq<usize>,
    k: int,
) -> bool {
    &&& 0 <= k <= ids.len()
    &&& ids.no_duplicates()
    &&& s.mid(p, neg(p))
    &&& s.same_setting(s0)
    &&& s0.lit2clause@.dom().finite()
    &&& !s.lit2clause@.contains_key(p)
    &&& s.lit2clause@.dom() == s0.lit2clause@.dom()
    &&& extends(s.assignments@, s0.assignments@)
    &&& reduced(s0, s)
    &&& thinned_table(s0, s)
    &&& forced(
        s0.active@,
        s0.clauses@,
        s0.unit_clauses@.push(p),
        s0.assignments@,
        s.assignments@,
    )
    &&& forall|c: usize| listed(s.lit2clause@, neg(p), c) ==> ids.contains(c)
    &&& forall|i: int| k <= i < ids.len() ==> pending(s, neg(p), #[trigger] ids[i])
    &&& forall|i: int| 0 <= i < k ==> !pending(s, neg(p), #[trigger] ids[i])
    &&& forall|m: Map<i32, bool>| #[trigger]
        models(s0.active@, s0.clauses@, s0.unit_clauses@, m) && lit_true(m, p) ==> models(
            s.active@,
            s.clauses@,
            s.unit_clauses@,
            m,
        )
    &&& free_count(s.lit2clause@, s.assignments@) <= free_count(s0.lit2clause@, s0.assignments@)
    &&& s.unit_clauses@.len() == s0.unit_clauses@.len() || free_count(
        s.lit2clause@,
        s.assignments@,
    ) < free_count(s0.lit2clause@, s0.assignments@)
}

/// The shortening starts with nothing done.
pub(crate) proof fn lemma_shorten_start(s0: &SatInstance, p: i32, ids: Seq<usize>)
    requires
        s0.mid(p, neg(p)),
        index_ok(s0.lit2clause@, s0.active@, s0.clauses@),
        !s0.lit2clause@.contains_key(p),
        ids.no_duplicates(),
        forall|c: usize| listed(s0.lit2clause@, neg(p), c) == ids.contains(c),
    ensures
        shortening(s0, s0, p, ids, 0),
{
    lemma_reduced_refl(s0);
    lemma_thinned_table_same(s0, s0);
    assert forall|i: int| 0 <= i < ids.len() implies pending(s0, neg(p), #[trigger] ids[i]) by {
        assert(ids.contains(ids[i]));
        assert(listed(s0.lit2clause@, neg(p), ids[i]));
    }
}

/// What is known of the one literal that is left of a clause.
pub(crate) proof fn lemma_unit_literal(
    s0: &SatInstance,
    a: &SatInstance,
    p: i32,
    ids: Seq<usize>,
    k: int,
    q: i32,
)
    requires
        shortening(s0, a, p, ids, k),
        k < ids.len(),
        without(lits_of(a.clauses@, ids[k] as int), neg(p)).len() == 1,
        without(lits_of(a.clauses@, ids[k] as int), neg(p))[0] == q,
    ensures
        valid_lit(q),
        q != neg(p),
        var_of(q) != var_of(p),
        lits_of(a.clauses@, ids[k] as int).contains(q),
        a.lit2clause@.contains_key(q),
        forall|l: i32| #[trigger]
            lits_of(a.clauses@, ids[k] as int).contains(l) ==> l == q || l == neg(p),
{
    let cid = ids[k];
    let np = neg(p);
    let lits = lits_of(a.clauses@, cid as int);
    let w = without(lits, np);
    lemma_without(lits, np);
    lemma_neg(p);
    assert(pending(a, np, ids[k]));
    assert(w.contains(w[0]));
    assert(lits.contains(q));
    let i = choose|i: int| 0 <= i < lits.len() && lits[i] == q;
    assert(valid_clause(lits));
    assert(valid_lit(lits[i]));
    assert(listed(a.lit2clause@, lits[i], cid));
    assert forall|l: i32| #[trigger] lits.contains(l) implies l == q || l == np by {
        if l != np {
            assert(w.contains(l));
            let j = choose|j: int| 0 <= j < w.len() && w[j] == l;
            assert(j == 0);
        }
    }
    if var_of(q) == var_of(p) {
        lemma_same_var(q, p);
    }
}

/// Queueing a literal that is a key and is not false keeps the invariant, and
/// leaves less to decide if the queue grew.
pub(crate) proof fn lemma_enqueue_mid(a: &SatInstance, b: &SatInstance, p: i32, stale: i32, q: i32)
    requires
        a.mid(p, stale),
        valid_lit(q),
        a.lit2clause@.contains_key(q),
        var_of(q) != var_of(p),
        !lit_true(a.assignments@, neg(q)),
        enqueued(a, b, q),
    ensures
        b.mid(p, stale),
        extends(b.assignments@, a.assignments@),
        lit_true(b.assignments@, q),
        b.unit_clauses@.contains(q) || b.unit_clauses@.contains(neg(q)),
        forall|x: i32| a.unit_clauses@.contains(x) ==> b.unit_clauses@.contains(x),
        forall|i: int|
            0 <= i < b.unit_clauses@.len() ==> #[trigger] b.unit_clauses@[i] == q
                || a.unit_clauses@.contains(b.unit_clauses@[i]),
        free_count(b.lit2clause@, b.assignments@) <= free_count(a.lit2clause@, a.assignments@),
        b.unit_clauses@.len() == a.unit_clauses@.len() || free_count(
            b.lit2clause@,
            b.assignments@,
        ) < free_count(a.lit2clause@, a.assignments@),
{
    let m0 = a.assignments@;
    let m1 = b.assignments@;
    let q0 = a.unit_clauses@;
    let q1 = b.unit_clauses@;
    lemma_neg(q);
    lemma_neg(p);
    assert(b.formula() =~= a.formula());
    assert forall|x: i32| q0.contains(x) implies q1.contains(x) by {
        let i = choose|i: int| 0 <= i < q0.len() && q0[i] == x;
        assert(q1[i] == x);
    }
    assert forall|i: int| 0 <= i < q1.len() implies #[trigger] q1[i] == q || q0.contains(
        q1[i],
    ) by {
        if i < q0.len() {
            assert(q0[i] == q1[i]);
        }
    }
    if lit_true(m0, q) {
        assert(m0.contains_key(var_of(q)));
        assert(q0.contains(q) || q0.contains(neg(q)));
        lemma_free_count_le(a.lit2clause@, m0, b.lit2clause@, m1);
    } else {
        assert(q1[q0.len() as int] == q);
        lemma_free_count_lt(a.lit2clause@, m0, b.lit2clause@, m1, q);
    }
    assert(keys_ok_but(b.lit2clause@, b.vars@, m1, q1, var_of(p))) by {
        assert forall|l: i32| #[trigger] b.lit2clause@.contains_key(l) implies {
            &&& valid_lit(l)
            &&& b.vars@.contains(var_of(l))
            &&& var_of(l) != var_of(p) && m1.contains_key(var_of(l)) ==> q1.contains(l)
                || q1.contains(neg(l))
        } by {
            assert(a.lit2clause@.contains_key(l));
            if var_of(l) != var_of(p) && m1.contains_key(var_of(l)) {
                if m0.contains_key(var_of(l)) {
                    assert(q0.contains(l) || q0.contains(neg(l)));
                } else {
                    lemma_same_var(l, q);
                    lemma_neg(l);
                }
            }
        }
    }
    assert(queue_ok(m1, q1)) by {
        assert forall|i: int| 0 <= i < q1.len() implies lit_true(m1, #[trigger] q1[i]) by {
            if i < q0.len() {
                assert(q1[i] == q0[i]);
                crate::cnf::lemma_lit_true_extends(m0, m1, q0[i]);
            }
        }
    }
    assert(all_covered(m1, b.formula@, b.origin@, b.active@, b.clauses@)) by {
        assert forall|j: int| 0 <= j < b.formula@.len() implies #[trigger] covered(
            m1,
            b.formula@,
            b.origin@,
            b.active@,
            b.clauses@,
            j,
        ) by {
            assert(covered(m0, a.formula@, a.origin@, a.active@, a.clauses@, j));
            if clause_true(m0, a.formula@[j]@) {
                crate::cnf::lemma_clause_true_extends(m0, m1, a.formula@[j]@);
            }
        }
    }
    crate::cnf::lemma_lit_true_extends(m0, m1, p);
}

/// A clause of which nothing is left cannot hold: no model makes `p` true.
pub(crate) proof fn lemma_shorten_conflict_empty(
    s0: &SatInstance,
    a: &SatInstance,
    p: i32,
    ids: Seq<usize>,
    k: int,
)
    requires
        shortening(s0, a, p, ids, k),
        k < ids.len(),
        without(lits_of(a.clauses@, ids[k] as int), neg(p)).len() == 0,
    ensures
        forall|m: Map<i32, bool>|
            !(#[trigger] models(s0.active@, s0.clauses@, s0.unit_clauses@, m) && lit_true(m, p)),
{
    let cid = ids[k];
    let np = neg(p);
    let lits = lits_of(a.clauses@, cid as int);
    lemma_without(lits, np);
    assert(pending(a, np, ids[k]));
    assert forall|m: Map<i32, bool>|
        !(#[trigger] models(s0.active@, s0.clauses@, s0.unit_clauses@, m) && lit_true(m, p)) by {
        if models(s0.active@, s0.clauses@, s0.unit_clauses@, m) && lit_true(m, p) {
            assert(models(a.active@, a.clauses@, a.unit_clauses@, m));
            assert(clause_true(m, lits));
            let i = choose|i: int| 0 <= i < lits.len() && lit_true(m, #[trigger] lits[i]);
            assert(lits.contains(lits[i]));
            if lits[i] != np {
                assert(without(lits, np).contains(lits[i]));
            }
            crate::cnf::lemma_not_both(m, p);
        }
    }
}

/// A clause of which one literal is left, and that literal false: no model
/// makes `p` true.
pub(crate) proof fn lemma_shorten_conflict_unit(
    s0: &SatInstance,
    a: &SatInstance,
    p: i32,
    ids: Seq<usize>,
    k: int,
    q: i32,
)
    requires
        shortening(s0, a, p, ids, k),
        k < ids.len(),
        without(lits_of(a.clauses@, ids[k] as int), neg(p)).len() == 1,
        without(lits_of(a.clauses@, ids[k] as int), neg(p))[0] == q,
        lit_true(a.assignments@, neg(q)),
    ensures
        forall|m: Map<i32, bool>|
            !(#[trigger] models(s0.active@, s0.clauses@, s0.unit_clauses@, m) && lit_true(m, p)),
{
    let cid = ids[k];
    let np = neg(p);
    let lits = lits_of(a.clauses@, cid as int);
    lemma_unit_literal(s0, a, p, ids, k, q);
    lemma_neg(q);
    assert(pending(a, np, ids[k]));
    let qq = a.unit_clauses@;
    assert(a.assignments@.contains_key(var_of(q)));
    assert(qq.contains(q) || qq.contains(neg(q)));
    if qq.contains(q) {
        let i = choose|i: int| 0 <= i < qq.len() && qq[i] == q;
        assert(lit_true(a.assignments@, qq[i]));
        crate::cnf::lemma_not_both(a.assignments@, q);
    }
    let i = choose|i: int| 0 <= i < qq.len() && qq[i] == neg(q);
    assert forall|m: Map<i32, bool>|
        !(#[trigger] models(s0.active@, s0.clauses@, s0.unit_clauses@, m) && lit_true(m, p)) by {
        if models(s0.active@, s0.clauses@, s0.unit_clauses@, m) && lit_true(m, p) {
            assert(models(a.active@, a.clauses@, a.unit_clauses@, m));
            assert(lit_true(m, qq[i]));
            assert(clause_true(m, lits));
            let j = choose|j: int| 0 <= j < lits.len() && lit_true(m, #[trigger] lits[j]);
            assert(lits.contains(lits[j]));
            crate::cnf::lemma_not_both(m, p);
            crate::cnf::lemma_not_both(m, q);
        }
    }
}

/// A clause of which one literal is left forces that literal: it is queued,
/// and the clause is detached.
pub(crate) proof fn lemma_shorten_unit(
    s0: &SatInstance,
    a: &SatInstance,
    b: &SatInstance,
    c: &SatInstance,
    p: i32,
    ids: Seq<usize>,
    k: int,
    q: i32,
)
    requires
        shortening(s0, a, p, ids, k),
        k < ids.len(),
        without(lits_of(a.clauses@, ids[k] as int), neg(p)).len() == 1,
        without(lits_of(a.clauses@, ids[k] as int), neg(p))[0] == q,
        !lit_true(a.assignments@, neg(q)),
        enqueued(a, b, q),
        detached(b, c, ids[k], neg(p)),
    ensures
        shortening(s0, c, p, ids, k + 1),
{
    let cid = ids[k];
    let np = neg(p);
    let lits = lits_of(a.clauses@, cid as int);
    lemma_unit_literal(s0, a, p, ids, k, q);
    lemma_neg(q);
    lemma_neg(p);
    assert(pending(a, np, ids[k]));
    lemma_enqueue_mid(a, b, p, np, q);
    lemma_detach_true(b, c, cid, p, np, q);
    lemma_reduced_enqueue(a, b, q);
    lemma_reduced_detach(b, c, cid, np, q);
    lemma_reduced_trans(s0, a, b);
    lemma_reduced_trans(s0, b, c);
    assert(c.lit2clause@.dom() =~= s0.lit2clause@.dom());
    assert forall|i: int| k + 1 <= i < ids.len() implies pending(c, np, #[trigger] ids[i]) by {
        assert(pending(a, np, ids[i]));
        assert(ids[i] != ids[k]);
    }
    assert forall|i: int| 0 <= i < k + 1 implies !pending(c, np, #[trigger] ids[i]) by {
        if i < k {
            assert(!pending(a, np, ids[i]));
        }
    }
    assert forall|m: Map<i32, bool>| #[trigger]
        models(s0.active@, s0.clauses@, s0.unit_clauses@, m) && lit_true(m, p) implies models(
        c.active@,
        c.clauses@,
        c.unit_clauses@,
        m,
    ) by {
        assert(models(a.active@, a.clauses@, a.unit_clauses@, m));
        assert(clause_true(m, lits));
        let j = choose|j: int| 0 <= j < lits.len() && lit_true(m, #[trigger] lits[j]);
        assert(lits.contains(lits[j]));
        crate::cnf::lemma_not_both(m, p);
        assert(lit_true(m, q));
        assert forall|i: int| 0 <= i < c.unit_clauses@.len() implies lit_true(
            m,
            #[trigger] c.unit_clauses@[i],
        ) by {
            if c.unit_clauses@[i] != q {
                let x = c.unit_clauses@[i];
                assert(b.unit_clauses@[i] == q || a.unit_clauses@.contains(b.unit_clauses@[i]));
                let h = choose|h: int| 0 <= h < a.unit_clauses@.len() && a.unit_clauses@[h] == x;
                assert(lit_true(m, a.unit_clauses@[h]));
            }
        }
    }
    crate::cnf::lemma_extends_trans(s0.assignments@, a.assignments@, c.assignments@);
    lemma_thinned_table_same(a, c);
    lemma_thinned_table_trans(s0, a, c);
    let q0 = s0.unit_clauses@.push(p);
    assert forall|m: Map<i32, bool>| #[trigger]
        models(s0.active@, s0.clauses@, q0, m) implies models(
        s0.active@,
        s0.clauses@,
        s0.unit_clauses@,
        m,
    ) && lit_true(m, p) by {
        assert(q0[s0.unit_clauses@.len() as int] == p);
        assert(lit_true(m, q0[s0.unit_clauses@.len() as int]));
        assert forall|i: int| 0 <= i < s0.unit_clauses@.len() implies lit_true(
            m,
            #[trigger] s0.unit_clauses@[i],
        ) by {
            assert(q0[i] == s0.unit_clauses@[i]);
        }
    }
    assert forall|v: i32| #[trigger]
        c.assignments@.contains_key(v) && !s0.assignments@.contains_key(v) implies entailed(
        s0.active@,
        s0.clauses@,
        q0,
        crate::cnf::lit_for(v, c.assignments@[v]),
    ) by {
        if a.assignments@.contains_key(v) {
            assert(c.assignments@[v] == a.assignments@[v]);
        } else {
            assert(v == var_of(q));
            assert(crate::cnf::lit_for(v, c.assignments@[v]) == q);
            assert forall|m: Map<i32, bool>| #[trigger]
                models(s0.active@, s0.clauses@, q0, m) implies lit_true(m, q) by {
                assert(models(s0.active@, s0.clauses@, s0.unit_clauses@, m) && lit_true(m, p));
                assert(models(c.active@, c.clauses@, c.unit_clauses@, m));
                assert(c.unit_clauses@.contains(q) || c.unit_clauses@.contains(neg(q)));
                assert(b.unit_clauses@ == a.unit_clauses@.push(q));
                assert(c.unit_clauses@[a.unit_clauses@.len() as int] == q);
            }
        }
    }
}

/// A literal and its complement stay apart when literals are taken out.
pub(crate) proof fn lemma_without_no_tautology(c: Seq<i32>, x: i32)
    requires
        !tautology(c),
    ensures
        !tautology(without(c, x)),
{
    let w = without(c, x);
    lemma_without(c, x);
    if tautology(w) {
        let (i, j) = choose|i: int, j: int|
            0 <= i < w.len() && 0 <= j < w.len() && #[trigger] w[i] == neg(#[trigger] w[j]);
        assert(w.contains(w[i]));
        assert(w.contains(w[j]));
        let a = choose|a: int| 0 <= a < c.len() && c[a] == w[i];
        let b = choose|b: int| 0 <= b < c.len() && c[b] == w[j];
        assert(c[a] == neg(c[b]));
    }
}

/// A clause of which two literals or more are left is replaced by what is left.
pub(crate) proof fn lemma_shorten_strip(
    s0: &SatInstance,
    a: &SatInstance,
    b: &SatInstance,
    p: i32,
    ids: Seq<usize>,
    k: int,
)
    requires
        shortening(s0, a, p, ids, k),
        k < ids.len(),
        b.same_setting(a),
        b.active == a.active,
        b.assignments == a.assignments,
        b.unit_clauses == a.unit_clauses,
        b.lit2clause == a.lit2clause,
        b.clauses@.len() == a.clauses@.len(),
        forall|c: int|
            0 <= c < a.clauses@.len() && c != ids[k] ==> #[trigger] b.clauses@[c] == a.clauses@[c],
        lits_of(b.clauses@, ids[k] as int) == without(lits_of(a.clauses@, ids[k] as int), neg(p)),
        b.clauses@[ids[k] as int].size == lits_of(b.clauses@, ids[k] as int).len(),
        without(lits_of(a.clauses@, ids[k] as int), neg(p)).len() >= 2,
    ensures
        shortening(s0, b, p, ids, k + 1),
{
    let cid = ids[k];
    let np = neg(p);
    let lits = lits_of(a.clauses@, cid as int);
    let w = without(lits, np);
    let m = a.assignments@;
    lemma_without(lits, np);
    lemma_without_no_tautology(lits, np);
    lemma_neg(p);
    assert(pending(a, np, ids[k]));
    assert(b.formula() =~= a.formula());
    assert forall|c: int| 0 <= c < a.clauses@.len() && c != cid implies lits_of(b.clauses@, c)
        == lits_of(a.clauses@, c) by {
        assert(b.clauses@[c] == a.clauses@[c]);
    }
    assert(structure_ok(b.active@, b.lit2clause@, b.clauses@, b.vars@)) by {
        assert forall|c: usize| #[trigger] b.active@.contains(c) implies c < b.clauses@.len()
            && lits_of(b.clauses@, c as int).len() >= 2 by {
            assert(a.active@.contains(c));
        }
        assert forall|c: int| 0 <= c < b.clauses@.len() implies valid_clause(
            #[trigger] lits_of(b.clauses@, c),
        ) && !tautology(lits_of(b.clauses@, c)) && b.clauses@[c].size == lits_of(
            b.clauses@,
            c,
        ).len() by {
            assert(valid_clause(lits_of(a.clauses@, c)));
            if c != cid {
                assert(b.clauses@[c] == a.clauses@[c]);
            }
            if c == cid {
                assert forall|i: int| 0 <= i < w.len() implies valid_lit(#[trigger] w[i]) by {
                    assert(w.contains(w[i]));
                    let h = choose|h: int| 0 <= h < lits.len() && lits[h] == w[i];
                    assert(valid_lit(lits[h]));
                }
            }
        }
    }
    assert(index_ok_but(b.lit2clause@, b.active@, b.clauses@, np)) by {
        assert forall|l: i32, c: usize| #[trigger] listed(b.lit2clause@, l, c) implies c
            < b.clauses@.len() && (l != np ==> b.active@.contains(c) && lits_of(
            b.clauses@,
            c as int,
        ).contains(l)) by {
            assert(listed(a.lit2clause@, l, c));
            if c != cid {
                assert(lits_of(b.clauses@, c as int) == lits_of(a.clauses@, c as int));
            }
        }
        assert forall|c: usize, i: int|
            b.active@.contains(c) && 0 <= i < lits_of(b.clauses@, c as int).len() implies listed(
            b.lit2clause@,
            #[trigger] lits_of(b.clauses@, c as int)[i],
            c,
        ) by {
            if c != cid {
                assert(lits_of(b.clauses@, c as int) == lits_of(a.clauses@, c as int));
                assert(listed(a.lit2clause@, lits_of(a.clauses@, c as int)[i], c));
            } else {
                assert(w.contains(w[i]));
                let h = choose|h: int| 0 <= h < lits.len() && lits[h] == w[i];
                assert(listed(a.lit2clause@, lits_of(a.clauses@, c as int)[h], c));
            }
        }
    }
    assert(all_covered(m, b.formula@, b.origin@, b.active@, b.clauses@)) by {
        assert forall|j: int| 0 <= j < b.formula@.len() implies #[trigger] covered(
            m,
            b.formula@,
            b.origin@,
            b.active@,
            b.clauses@,
            j,
        ) by {
            assert(covered(m, a.formula@, a.origin@, a.active@, a.clauses@, j));
            if !clause_true(m, a.formula@[j]@) {
                let c = a.origin@[j];
                assert(stands_for(a.active@, a.clauses@, c, a.formula@[j]@));
                if c != cid {
                    assert(lits_of(b.clauses@, c as int) == lits_of(a.clauses@, c as int));
                } else {
                    assert forall|i: int| 0 <= i < w.len() implies a.formula@[j]@.contains(
                        #[trigger] w[i],
                    ) by {
                        assert(w.contains(w[i]));
                        let h = choose|h: int| 0 <= h < lits.len() && lits[h] == w[i];
                        assert(a.formula@[j]@.contains(lits_of(a.clauses@, c as int)[h]));
                    }
                }
                assert(stands_for(b.active@, b.clauses@, c, b.formula@[j]@));
            }
        }
    }
    assert forall|i: int| k + 1 <= i < ids.len() implies pending(b, np, #[trigger] ids[i]) by {
        assert(pending(a, np, ids[i]));
        assert(ids[i] != ids[k]);
        assert(lits_of(b.clauses@, ids[i] as int) == lits_of(a.clauses@, ids[i] as int));
    }
    assert forall|i: int| 0 <= i < k + 1 implies !pending(b, np, #[trigger] ids[i]) by {
        if i < k {
            assert(!pending(a, np, ids[i]));
            assert(ids[i] != ids[k]);
            if ids[i] < a.clauses@.len() {
                assert(lits_of(b.clauses@, ids[i] as int) == lits_of(a.clauses@, ids[i] as int));
            }
        }
    }
    assert forall|t: Map<i32, bool>| #[trigger]
        models(s0.active@, s0.clauses@, s0.unit_clauses@, t) && lit_true(t, p) implies models(
        b.active@,
        b.clauses@,
        b.unit_clauses@,
        t,
    ) by {
        assert(models(a.active@, a.clauses@, a.unit_clauses@, t));
        assert forall|c: usize| #[trigger] b.active@.contains(c) implies clause_true(
            t,
            lits_of(b.clauses@, c as int),
        ) by {
            assert(clause_true(t, lits_of(a.clauses@, c as int)));
            if c != cid {
                assert(lits_of(b.clauses@, c as int) == lits_of(a.clauses@, c as int));
            } else {
                let j = choose|j: int| 0 <= j < lits.len() && lit_true(t, #[trigger] lits[j]);
                assert(lits.contains(lits[j]));
                crate::cnf::lemma_not_both(t, p);
                assert(w.contains(lits[j]));
                let h = choose|h: int| 0 <= h < w.len() && w[h] == lits[j];
                assert(lit_true(t, w[h]));
            }
        }
    }
    assert(reduced(a, b)) by {
        assert forall|c: int, i: int|
            0 <= c < b.clauses@.len() && 0 <= i < lits_of(b.clauses@, c).len() implies lits_of(
            a.clauses@,
            c,
        ).contains(#[trigger] lits_of(b.clauses@, c)[i]) by {
            if c == cid {
                assert(w.contains(w[i]));
            } else {
                assert(lits_of(b.clauses@, c) == lits_of(a.clauses@, c));
            }
        }
        assert forall|c: usize, i: int|
            b.active@.contains(c) && c < a.clauses@.len() && 0 <= i < lits_of(
                a.clauses@,
                c as int,
            ).len() && !lits_of(b.clauses@, c as int).contains(
                lits_of(a.clauses@, c as int)[i],
            ) implies lit_true(m, neg(#[trigger] lits_of(a.clauses@, c as int)[i])) by {
            let l = lits_of(a.clauses@, c as int)[i];
            if c == cid {
                assert(lits.contains(l));
                assert(l == np);
            } else {
                assert(lits_of(b.clauses@, c as int) == lits_of(a.clauses@, c as int));
                assert(lits_of(a.clauses@, c as int).contains(l));
            }
        }
    }
    lemma_reduced_trans(s0, a, b);
    assert(thinned_table(a, b)) by {
        assert forall|c: int| 0 <= c < b.clauses@.len() implies thinned(
            lits_of(a.clauses@, c),
            #[trigger] lits_of(b.clauses@, c),
        ) by {
            if c == cid {
                lemma_thinned_without(lits, np);
            } else {
                assert(lits_of(b.clauses@, c) == lits_of(a.clauses@, c));
                lemma_thinned_refl(lits_of(a.clauses@, c));
            }
        }
    }
    lemma_thinned_table_trans(s0, a, b);
}

/// When every clause listed under the complement of `p` is done, the key is
/// dropped, and the store is back in its invariant.
pub(crate) proof fn lemma_shorten_done(
    s0: &SatInstance,
    a: &SatInstance,
    b: &SatInstance,
    p: i32,
    ids: Seq<usize>,
)
    requires
        shortening(s0, a, p, ids, ids.len() as int),
        b.same_setting(a),
        b.clauses == a.clauses,
        b.assignments == a.assignments,
        b.unit_clauses == a.unit_clauses,
        b.active == a.active,
        b.lit2clause@ == a.lit2clause@.remove(neg(p)),
    ensures
        b.inv(),
        b.same_setting(s0),
        extends(b.assignments@, s0.assignments@),
        reduced(s0, b),
        thinned_table(s0, b),
        forced(
            s0.active@,
            s0.clauses@,
            s0.unit_clauses@.push(p),
            s0.assignments@,
            b.assignments@,
        ),
        forall|l: i32| b.lit2clause@.contains_key(l) ==> s0.lit2clause@.contains_key(l),
        forall|m: Map<i32, bool>| #[trigger]
            models(s0.active@, s0.clauses@, s0.unit_clauses@, m) && lit_true(m, p) ==> models(
                b.active@,
                b.clauses@,
                b.unit_clauses@,
                m,
            ),
        free_count(b.lit2clause@, b.assignments@) <= free_count(s0.lit2clause@, s0.assignments@),
        b.unit_clauses@.len() == s0.unit_clauses@.len() || free_count(
            b.lit2clause@,
            b.assignments@,
        ) < free_count(s0.lit2clause@, s0.assignments@),
{
    let np = neg(p);
    lemma_neg(p);
    assert forall|c: usize| #[trigger] a.active@.contains(c) implies !lits_of(
        a.clauses@,
        c as int,
    ).contains(np) by {
        if lits_of(a.clauses@, c as int).contains(np) {
            let i = choose|i: int|
                0 <= i < lits_of(a.clauses@, c as int).len() && lits_of(a.clauses@, c as int)[i]
                    == np;
            assert(listed(a.lit2clause@, lits_of(a.clauses@, c as int)[i], c));
            assert(ids.contains(c));
            let h = choose|h: int| 0 <= h < ids.len() && ids[h] == c;
            assert(!pending(a, np, ids[h]));
        }
    }
    lemma_key_dropped(a, b, p, np);
    lemma_reduced_frame(a, b);
    lemma_reduced_trans(s0, a, b);
    lemma_thinned_table_same(a, b);
    lemma_thinned_table_trans(s0, a, b);
    lemma_keys_ok_again(b.lit2clause@, b.vars@, b.assignments@, b.unit_clauses@, p);
    lemma_free_count_le(a.lit2clause@, a.assignments@, b.lit2clause@, b.assignments@);
}

/// Taking the next literal off the queue: it is true, and the store is
/// ready for it to be worked off.
pub(crate) proof fn lemma_popped(a: &SatInstance, b: &SatInstance, p: i32)
    requires
        a.inv(),
        a.unit_clauses@.len() > 0,
        p == a.unit_clauses@.last(),
        b.unit_clauses@ == a.unit_clauses@.drop_last(),
        b.same_setting(a),
        b.clauses == a.clauses,
        b.active == a.active,
        b.assignments == a.assignments,
        b.lit2clause == a.lit2clause,
    ensures
        b.mid(p, p),
        index_ok(b.lit2clause@, b.active@, b.clauses@),
        forall|m: Map<i32, bool>| #[trigger]
            models(a.active@, a.clauses@, a.unit_clauses@, m) ==> lit_true(m, p) && models(
                b.active@,
                b.clauses@,
                b.unit_clauses@,
                m,
            ),
{
    let q0 = a.unit_clauses@;
    let q1 = b.unit_clauses@;
    let n = q1.len() as int;
    assert(q0[n] == p);
    assert(lit_true(a.assignments@, q0[n]));
    lemma_neg(p);
    assert(b.formula() =~= a.formula());
    assert forall|i: int| 0 <= i < q1.len() implies q1[i] == q0[i] by {}
    assert(queue_ok(b.assignments@, q1)) by {
        assert forall|i: int| 0 <= i < q1.len() implies lit_true(
            b.assignments@,
            #[trigger] q1[i],
        ) by {
            assert(q1[i] == q0[i]);
        }
    }
    assert(keys_ok_but(b.lit2clause@, b.vars@, b.assignments@, q1, var_of(p))) by {
        assert forall|l: i32| #[trigger] b.lit2clause@.contains_key(l) implies {
            &&& valid_lit(l)
            &&& b.vars@.contains(var_of(l))
            &&& var_of(l) != var_of(p) && b.assignments@.contains_key(var_of(l)) ==> q1.contains(l)
                || q1.contains(neg(l))
        } by {
            if var_of(l) != var_of(p) && b.assignments@.contains_key(var_of(l)) {
                lemma_neg(l);
                assert(q0.contains(l) || q0.contains(neg(l)));
                if q0.contains(l) {
                    let i = choose|i: int| 0 <= i < q0.len() && q0[i] == l;
                    assert(q1[i] == l);
                } else {
                    let i = choose|i: int| 0 <= i < q0.len() && q0[i] == neg(l);
                    assert(q1[i] == neg(l));
                }
            }
        }
    }
    assert forall|m: Map<i32, bool>| #[trigger]
        models(a.active@, a.clauses@, a.unit_clauses@, m) implies lit_true(m, p) && models(
        b.active@,
        b.clauses@,
        b.unit_clauses@,
        m,
    ) by {
        assert(lit_true(m, q0[n]));
        assert forall|i: int| 0 <= i < q1.len() implies lit_true(m, #[trigger] q1[i]) by {
            assert(q1[i] == q0[i]);
        }
    }
}

/// A store that is in its invariant, has lost no model and has only grown
/// its assignment is well formed where the store before was.
pub(crate) proof fn lemma_wf_kept(a: &SatInstance, b: &SatInstance)
    requires
        a.wf(),
        b.inv(),
        b.same_setting(a),
        extends(b.assignments@, a.assignments@),
        forall|m: Map<i32, bool>| #[trigger] a.state_model(m) ==> b.state_model(m),
    ensures
        b.wf(),
{
    assert(b.formula() =~= a.formula());
    match a.verdict {
        crate::sat_instance::Verdict::Open => {
            assert forall|m: Map<i32, bool>|
                crate::cnf::total(m) && #[trigger] crate::cnf::satisfies(
                    m,
                    b.formula(),
                ) implies b.state_model(m) by {
                assert(a.state_model(m));
            }
        },
        crate::sat_instance::Verdict::Sat => {
            crate::cnf::lemma_satisfies_extends(a.assignments@, b.assignments@, a.formula());
        },
        crate::sat_instance::Verdict::Unsat => {},
    }
}

/// Fewer active clauses over the same table and queue leave every model a model.
pub(crate) proof fn lemma_models_shrink(a: &SatInstance, b: &SatInstance)
    requires
        b.clauses@ == a.clauses@,
        b.unit_clauses@ == a.unit_clauses@,
        forall|c: usize| b.active@.contains(c) ==> a.active@.contains(c),
    ensures
        forall|m: Map<i32, bool>| #[trigger]
            models(a.active@, a.clauses@, a.unit_clauses@, m) ==> models(
                b.active@,
                b.clauses@,
                b.unit_clauses@,
                m,
            ),
{
}

impl SatInstance {
    /// The invariant of the store while the true literal `p` is being
    /// worked off: as `inv`, but the keys of the variable of `p` are still
    /// there, and the listing under `stale` may be out of date.
    pub open(crate) spec fn mid(&self, p: i32, stale: i32) -> bool {
        &&& valid_formula(self.formula())
        &&& valid_lit(p)
        &&& lit_true(self.assignments@, p)
        &&& structure_ok(self.active@, self.lit2clause@, self.clauses@, self.vars@)
        &&& index_ok_but(self.lit2clause@, self.active@, self.clauses@, stale)
        &&& keys_ok_but(
            self.lit2clause@,
            self.vars@,
            self.assignments@,
            self.unit_clauses@,
            var_of(p),
        )
        &&& keys_occur(self.lit2clause@, self.formula@)
        &&& bound_ok(self.assignments@, self.formula@)
        &&& queue_ok(self.assignments@, self.unit_clauses@)
        &&& all_covered(
            self.assignments@,
            self.formula@,
            self.origin@,
            self.active@,
            self.clauses@,
        )
    }

    /// Takes clause `cid` out of the active set, and out of the index entry
    /// of each of its literals other than `skip`.
    pub(crate) fn detach(&mut self, cid: usize, skip: i32)
        requires
            cid < old(self).clauses@.len(),
            old(self).lit2clause@.dom().finite(),
            forall|k: i32| #[trigger]
                old(self).lit2clause@.contains_key(k) ==> old(self).lit2clause@[k]@.finite(),
        ensures
            detached(old(self), final(self), cid, skip),
    {
        let n = self.clauses[cid].lits.len();
        let mut i: usize = 0;
        let ghost lits = lits_of(self.clauses@, cid as int);
        while i < n
            invariant
                i <= n,
                cid < self.clauses@.len(),
                lits == lits_of(self.clauses@, cid as int),
                n == lits.len(),
                self.same_setting(old(self)),
                self.clauses == old(self).clauses,
                self.active == old(self).active,
                self.assignments == old(self).assignments,
                self.unit_clauses == old(self).unit_clauses,
                self.lit2clause@.dom() == old(self).lit2clause@.dom(),
                forall|k: i32| #[trigger]
                    self.lit2clause@.contains_key(k) ==> self.lit2clause@[k]@.finite(),
                forall|k: i32, c: usize|
                    listed(self.lit2clause@, k, c) == (listed(old(self).lit2clause@, k, c) && !(c
                        == cid && k != skip && lits.take(i as int).contains(k))),
            decreases n - i,
        {
            let l = self.clauses[cid].lits[i];
            let ghost before = self.lit2clause@;
            if l != skip {
                match map_get_mut(&mut self.lit2clause, &l) {
                    Some(set) => {
                        set_remove(set, &cid);
                    },
                    None => {},
                }
            }
            proof {
                let t0 = lits.take(i as int);
                let t1 = lits.take(i + 1);
                assert(t1 =~= t0.push(l));
                assert forall|k: i32| t1.contains(k) == (t0.contains(k) || k == l) by {
                    if t0.contains(k) {
                        let a = choose|a: int| 0 <= a < t0.len() && t0[a] == k;
                        assert(t1[a] == k);
                    }
                    if k == l {
                        assert(t1[i as int] == k);
                    }
                }
                assert(self.lit2clause@.dom() =~= before.dom());
                assert forall|k: i32, c: usize|
                    listed(self.lit2clause@, k, c) == (listed(old(self).lit2clause@, k, c) && !(c
                        == cid && k != skip && t1.contains(k))) by {
                    assert(listed(before, k, c) == (listed(old(self).lit2clause@, k, c) && !(c
                        == cid && k != skip && t0.contains(k))));
                }
            }
            i += 1;
        }
        assert(lits.take(n as int) =~= lits);
        set_remove(&mut self.active, &cid);
    }

    /// Works off the true literal `l`: every clause listed under `l` leaves
    /// the active set and the index entries of its other literals; then the
    /// key `l` is dropped from the index.
    pub(crate) fn retire(&mut self, l: i32)
        requires
            old(self).mid(l, l),
            index_ok(old(self).lit2clause@, old(self).active@, old(self).clauses@),
        ensures
            final(self).same_setting(old(self)),
            final(self).clauses == old(self).clauses,
            final(self).assignments == old(self).assignments,
            final(self).unit_clauses == old(self).unit_clauses,
            final(self).mid(l, l),
            reduced(old(self), final(self)),
            index_ok(final(self).lit2clause@, final(self).active@, final(self).clauses@),
            forall|k: i32|
                final(self).lit2clause@.contains_key(k) == (old(self).lit2clause@.contains_key(k)
                    && k != l),
            forall|c: usize| final(self).active@.contains(c) ==> old(self).active@.contains(c),
    {
        let ids: Vec<usize> = match map_get(&self.lit2clause, &l) {
            Some(set) => set_items(set),
            None => Vec::new(),
        };
        let mut k: usize = 0;
        proof {
            lemma_reduced_refl(self);
            assert forall|c: usize| listed(self.lit2clause@, l, c) implies ids@.contains(c) by {
                assert(ids@.to_set().contains(c));
            }
            assert forall|i: int| 0 <= i < ids@.len() implies self.active@.contains(ids@[i])
                && ids@[i] < self.clauses@.len() && lits_of(self.clauses@, ids@[i] as int).contains(
                l,
            ) by {
                assert(ids@.to_set().contains(ids@[i]));
                assert(listed(self.lit2clause@, l, ids@[i]));
            }
        }
        while k < ids.len()
            invariant
                k <= ids@.len(),
                ids@.no_duplicates(),
                self.mid(l, l),
                reduced(old(self), self),
                self.same_setting(old(self)),
                self.clauses == old(self).clauses,
                self.assignments == old(self).assignments,
                self.unit_clauses == old(self).unit_clauses,
                self.lit2clause@.dom() == old(self).lit2clause@.dom(),
                forall|c: usize| self.active@.contains(c) ==> old(self).active@.contains(c),
                forall|c: usize| listed(self.lit2clause@, l, c) ==> ids@.contains(c),
                forall|i: int|
                    k <= i < ids@.len() ==> self.active@.contains(#[trigger] ids@[i]) && ids@[i]
                        < self.clauses@.len() && lits_of(self.clauses@, ids@[i] as int).contains(l),
                forall|i: int| 0 <= i < k ==> !self.active@.contains(#[trigger] ids@[i]),
            decreases ids@.len() - k,
        {
            let cid = ids[k];
            let ghost before = *self;
            self.detach(cid, l);
            proof {
                lemma_detach_true(&before, self, cid, l, l, l);
                lemma_reduced_detach(&before, self, cid, l, l);
                lemma_reduced_trans(old(self), &before, self);
            }
            k += 1;
        }
        let ghost before = *self;
        map_remove(&mut self.lit2clause, &l);
        proof {
            assert forall|c: usize| #[trigger] before.active@.contains(c) implies !lits_of(
                before.clauses@,
                c as int,
            ).contains(l) by {
                if lits_of(before.clauses@, c as int).contains(l) {
                    let i = choose|i: int|
                        0 <= i < lits_of(before.clauses@, c as int).len() && lits_of(
                            before.clauses@,
                            c as int,
                        )[i] == l;
                    assert(listed(before.lit2clause@, lits_of(before.clauses@, c as int)[i], c));
                    assert(ids@.contains(c));
                    let a = choose|a: int| 0 <= a < ids@.len() && ids@[a] == c;
                    assert(!before.active@.contains(ids@[a]));
                }
            }
            lemma_key_dropped(&before, self, l, l);
            lemma_reduced_frame(&before, self);
            lemma_reduced_trans(old(self), &before, self);
        }
    }

    /// Works off the complement of the true literal `p`: every clause listed
    /// under it loses it. A clause of which nothing is left, or one literal
    /// that is false, is a conflict. A clause of which one literal is left
    /// forces that literal: it is queued, and the clause leaves the active
    /// set. Then the key is dropped from the index.
    pub(crate) fn shorten(&mut self, p: i32, Ghost(root): Ghost<SatInstance>) -> (conflict: bool)
        requires
            old(self).mid(p, neg(p)),
            index_ok(old(self).lit2clause@, old(self).active@, old(self).clauses@),
            !old(self).lit2clause@.contains_key(p),
            exists|d: Seq<i32>| #[trigger] trail(&root, old(self), d) && d.contains(p),
        ensures
            final(self).same_setting(old(self)),
            conflict ==> conflict_owed(root.active_set(), root.table(), root.queue()),
            !conflict ==> {
                &&& final(self).inv()
                &&& exists|d: Seq<i32>| #[trigger] trail(&root, final(self), d)
                &&& extends(final(self).assignments@, old(self).assignments@)
                &&& reduced(old(self), final(self))
                &&& thinned_table(old(self), final(self))
                &&& forced(
                    old(self).active@,
                    old(self).clauses@,
                    old(self).unit_clauses@.push(p),
                    old(self).assignments@,
                    final(self).assignments@,
                )
                &&& forall|l: i32|
                    final(self).lit2clause@.contains_key(l) ==> old(self).lit2clause@.contains_key(
                        l,
                    )
                &&& forall|m: Map<i32, bool>| #[trigger]
                    models(old(self).active@, old(self).clauses@, old(self).unit_clauses@, m)
                        && lit_true(m, p) ==> models(
                        final(self).active@,
                        final(self).clauses@,
                        final(self).unit_clauses@,
                        m,
                    )
                &&& free_count(final(self).lit2clause@, final(self).assignments@) <= free_count(
                    old(self).lit2clause@,
                    old(self).assignments@,
                )
                &&& final(self).unit_clauses@.len() == old(self).unit_clauses@.len() || free_count(
                    final(self).lit2clause@,
                    final(self).assignments@,
                ) < free_count(old(self).lit2clause@, old(self).assignments@)
            },
            conflict ==> forall|m: Map<i32, bool>|
                !(#[trigger] models(
                    old(self).active@,
                    old(self).clauses@,
                    old(self).unit_clauses@,
                    m,
                ) && lit_true(m, p)),
    {
        let np = complement(p);
        let ids: Vec<usize> = match map_get(&self.lit2clause, &np) {
            Some(set) => set_items(set),
            None => Vec::new(),
        };
        proof {
            assert forall|c: usize| listed(self.lit2clause@, np, c) == ids@.contains(c) by {
                assert(ids@.to_set().contains(c) == ids@.contains(c));
            }
            lemma_shorten_start(self, p, ids@);
        }
        let ghost mut d = choose|d: Seq<i32>| #[trigger] trail(&root, old(self), d) && d.contains(p);
        let mut k: usize = 0;
        while k < ids.len()
            invariant
                np == neg(p),
                shortening(old(self), self, p, ids@, k as int),
                trail(&root, self, d),
                d.contains(p),
            decreases ids@.len() - k,
        {
            let cid = ids[k];
            assert(pending(self, np, ids@[k as int]));
            let new_lits = strip(&self.clauses[cid].lits, np);
            if new_lits.len() == 0 {
                proof {
                    lemma_shorten_conflict_empty(old(self), self, p, ids@, k as int);
                    lemma_without(lits_of(self.clauses@, cid as int), np);
                    lemma_neg(p);
                    assert forall|x: i32| lits_of(self.clauses@, cid as int).contains(
                        x,
                    ) implies d.contains(neg(x)) by {
                        if x != np {
                            assert(new_lits@.contains(x));
                        }
                    }
                    lemma_trail_blocked(&root, self, d, cid);
                }
                return true;
            } else if new_lits.len() == 1 {
                let q = new_lits[0];
                proof {
                    lemma_unit_literal(old(self), self, p, ids@, k as int, q);
                }
                let nq = complement(q);
                if self.value(nq) {
                    proof {
                        lemma_shorten_conflict_unit(old(self), self, p, ids@, k as int, q);
                        lemma_neg(p);
                        lemma_neg(q);
                        assert forall|x: i32| lits_of(self.clauses@, cid as int).contains(
                            x,
                        ) implies d.contains(neg(x)) by {
                            if x == q {
                                assert(self.lit2clause@.contains_key(q));
                                assert(self.assignments@.contains_key(var_of(q)));
                                assert(self.unit_clauses@.contains(q) || self.unit_clauses@.contains(
                                    nq,
                                ));
                                if self.unit_clauses@.contains(q) {
                                    let g = choose|g: int|
                                        0 <= g < self.unit_clauses@.len() && self.unit_clauses@[g]
                                            == q;
                                    assert(lit_true(self.assignments@, self.unit_clauses@[g]));
                                    crate::cnf::lemma_not_both(self.assignments@, q);
                                }
                                let g = choose|g: int|
                                    0 <= g < self.unit_clauses@.len() && self.unit_clauses@[g]
                                        == nq;
                                assert(d.contains(self.unit_clauses@[g]));
                            }
                        }
                        lemma_trail_blocked(&root, self, d, cid);
                    }
                    return true;
                }
                let ghost a = *self;
                self.enqueue(q);
                let ghost b = *self;
                self.detach(cid, np);
                proof {
                    lemma_shorten_unit(old(self), &a, &b, self, p, ids@, k as int, q);
                    d = lemma_trail_unit(&root, &a, self, d, cid, q, p);
                }
            } else {
                let ghost a = *self;
                self.clauses.set(cid, Clause::new(new_lits));
                proof {
                    lemma_shorten_strip(old(self), &a, self, p, ids@, k as int);
                    lemma_trail_strip(&root, &a, self, d, cid, p);
                }
            }
            k += 1;
        }
        let ghost a = *self;
        map_remove(&mut self.lit2clause, &np);
        proof {
            lemma_shorten_done(old(self), &a, self, p, ids@);
            lemma_trail_keep(&root, &a, self, d);
        }
        false
    }

    /// Unit propagation: works off the queue of forced literals, last in
    /// first out, until it is empty or a conflict shows.
    ///
    /// For each literal taken off the queue, the clauses that hold it are
    /// retired, and the clauses that hold its complement are shortened, which
    /// may force further literals. With an empty queue nothing happens.
    ///
    /// A conflict is reported exactly where a chain of forced literals shows
    /// one, and then the store has no model. Without a conflict the store is
    /// settled. Every variable that was bound is bound to the value that every
    /// model of the store before gives it. A clause is active exactly when it
    /// was and is not true under the assignment, and then it is its old clause
    /// without the literals that are false; every clause of the table is its
    /// old clause with every occurrence of some literals taken out, and records
    /// its length as its size. The models of the store that extend its
    /// assignment are the same before and after.
    pub fn unit_propagate(&mut self) -> (conflict: bool)
        requires
            old(self).inv(),
        ensures
            final(self).same_setting(old(self)),
            final(self).formula() == old(self).formula(),
            final(self).variables() == old(self).variables(),
            final(self).heuristic() == old(self).heuristic(),
            final(self).verdict() == old(self).verdict(),
            old(self).queue().len() == 0 ==> !conflict && *final(self) == *old(self),
            conflict == conflict_owed(
                old(self).active_set(),
                old(self).table(),
                old(self).queue(),
            ),
            !conflict ==> {
                &&& final(self).inv()
                &&& old(self).wf() ==> final(self).wf()
                &&& final(self).queue().len() == 0
                &&& extends(final(self).assignment(), old(self).assignment())
                &&& final(self).reduced_from(old(self))
                &&& final(self).keys().subset_of(old(self).keys())
                &&& final(self).table().len() == old(self).table().len()
                &&& forall|c: int|
                    0 <= c < old(self).table().len() ==> thinned(
                        old(self).table()[c],
                        #[trigger] final(self).table()[c],
                    ) && final(self).sizes()[c] == final(self).table()[c].len()
                &&& forall|v: i32| #[trigger]
                    final(self).assignment().contains_key(v) && !old(self).assignment().contains_key(
                        v,
                    ) ==> forall|m: Map<i32, bool>| #[trigger]
                        old(self).state_model(m) ==> lit_true(
                            m,
                            crate::cnf::lit_for(v, final(self).assignment()[v]),
                        )
                &&& forall|c: usize| #[trigger]
                    final(self).active_set().contains(c) <==> old(self).active_set().contains(c)
                        && !clause_true(final(self).assignment(), old(self).table()[c as int])
                &&& forall|c: usize| #[trigger]
                    final(self).active_set().contains(c) ==> c < old(self).table().len()
                        && final(self).table()[c as int] == old(self).table()[c as int].filter(
                        unfalsified(final(self).assignment()),
                    )
                &&& forall|m: Map<i32, bool>| #[trigger]
                    old(self).state_model(m) ==> final(self).state_model(m)
                &&& forall|m: Map<i32, bool>| #[trigger]
                    final(self).state_model(m) && extends(m, final(self).assignment())
                        <==> old(self).state_model(m) && extends(m, old(self).assignment())
            },
            conflict ==> forall|m: Map<i32, bool>| !#[trigger] old(self).state_model(m),
    {
        proof {
            lemma_reduced_refl(self);
            lemma_thinned_table_same(self, self);
            lemma_trail_start(self);
        }
        while self.unit_clauses.len() > 0
            invariant
                old(self).inv(),
                self.inv(),
                self.same_setting(old(self)),
                extends(self.assignments@, old(self).assignments@),
                reduced(old(self), self),
                thinned_table(old(self), self),
                forced(
                    old(self).active@,
                    old(self).clauses@,
                    old(self).unit_clauses@,
                    old(self).assignments@,
                    self.assignments@,
                ),
                old(self).unit_clauses@.len() == 0 ==> *self == *old(self),
                exists|d: Seq<i32>| #[trigger] trail(old(self), self, d),
                forall|l: i32|
                    self.lit2clause@.contains_key(l) ==> old(self).lit2clause@.contains_key(l),
                forall|m: Map<i32, bool>| #[trigger]
                    old(self).state_model(m) ==> self.state_model(m),
            decreases free_count(self.lit2clause@, self.assignments@), self.unit_clauses@.len(),
        {
            let ghost a = *self;
            let p = self.unit_clauses.pop().unwrap();
            let ghost b = *self;
            proof {
                lemma_popped(&a, &b, p);
            }
            self.retire(p);
            let ghost c = *self;
            proof {
                lemma_index_ok_but(self.lit2clause@, self.active@, self.clauses@, neg(p));
                lemma_models_shrink(&b, &c);
                lemma_free_count_le(a.lit2clause@, a.assignments@, c.lit2clause@, c.assignments@);
            }
            proof {
                let d = choose|d: Seq<i32>| #[trigger] trail(old(self), &a, d);
                assert(d.contains(a.unit_clauses@[a.unit_clauses@.len() - 1]));
                lemma_trail_keep(old(self), &a, &b, d);
                lemma_trail_keep(old(self), &b, &c, d);
                assert(trail(old(self), &c, d) && d.contains(p));
            }
            if self.shorten(p, Ghost(*old(self))) {
                proof {
                    assert forall|m: Map<i32, bool>| !#[trigger] old(self).state_model(m) by {
                        if old(self).state_model(m) {
                            assert(a.state_model(m));
                            assert(models(b.active@, b.clauses@, b.unit_clauses@, m));
                            assert(models(c.active@, c.clauses@, c.unit_clauses@, m));
                        }
                    }
                }
                return true;
            }
            proof {
                crate::cnf::lemma_extends_trans(
                    old(self).assignments@,
                    a.assignments@,
                    self.assignments@,
                );
                lemma_reduced_frame(&a, &b);
                lemma_reduced_trans(old(self), &a, &b);
                lemma_reduced_trans(old(self), &b, &c);
                lemma_reduced_trans(old(self), &c, self);
                lemma_thinned_table_same(&a, &c);
                lemma_thinned_table_trans(&a, &c, self);
                lemma_thinned_table_trans(old(self), &a, self);
                lemma_forced_step(old(self), &a, &c, self, p);
                assert forall|m: Map<i32, bool>| #[trigger]
                    old(self).state_model(m) implies self.state_model(m) by {
                    assert(a.state_model(m));
                    assert(models(b.active@, b.clauses@, b.unit_clauses@, m));
                    assert(models(c.active@, c.clauses@, c.unit_clauses@, m));
                }
            }
        }
        proof {
            if old(self).wf() {
                lemma_wf_kept(old(self), self);
            }
            lemma_propagated(old(self), self);
            lemma_none_owed(old(self), self);
            lemma_same_models(old(self), self);
            self.lemma_sizes();
            assert forall|c: int| 0 <= c < old(self).table().len() implies thinned(
                old(self).table()[c],
                #[trigger] self.table()[c],
            ) by {
                assert(thinned(lits_of(old(self).clauses@, c), lits_of(self.clauses@, c)));
            }
        }
        false
    }

    /// This store is the store `before`, simplified under a larger
    /// assignment: the table has the same ids, a clause holds no literal that
    /// it did not hold, no clause became active, every clause that left the
    /// active set is true under the assignment of this store, and every
    /// literal that an active clause lost is false under it.
    pub open(crate) spec fn reduced_from(&self, before: &SatInstance) -> bool {
        reduced(before, self)
    }
}

} // verus!
