//! Requirements on axis lengths: relations of a polynomial to zero, and disjunctions of them.

use vstd::prelude::*;
use std::collections::HashMap;
use crate::axis::{
    Axis, SubstError, subst_env, sum_of, coef_fn, eval_fn, mono, no_var_terms,
    lemma_eval_no_var_terms,
};

verus! {

/// `expr` must be equal to zero (for `ineq = false`) or greater than zero (for
/// `ineq = true`) for the relation to be satisfied; `inv` inverts it, turning "equals"
/// into "not equal" and "greater than" into "less or equal".
pub struct Relation {
    pub expr: Axis,
    pub ineq: bool,
    pub inv: bool,
}

/// A disjunction of relations.
pub enum Condition {
    Or(Vec<Relation>),
}

/// Whether a relation with this kind holds of the value `v` of its expression.
pub open spec fn rel_holds(v: int, ineq: bool, inv: bool) -> bool {
    (if ineq { v > 0 } else { v == 0 }) != inv
}

impl Relation {
    pub open spec fn wf(self) -> bool {
        self.expr.wf()
    }

    /// The relation holds when each variable `i` takes the value `env(i)`.
    pub open spec fn holds(self, env: spec_fn(nat) -> int) -> bool {
        rel_holds(self.expr.eval(env), self.ineq, self.inv)
    }

    /// `r` compares `lhs` and `rhs` as the expression `a - b` of the given kind.
    pub open spec fn built(r: Relation, a: Axis, b: Axis, ineq: bool, inv: bool) -> bool {
        &&& a.combined(b, true, r.expr)
        &&& r.ineq == ineq
        &&& r.inv == inv
    }

    /// lhs = rhs
    pub fn eq(lhs: Axis, rhs: Axis) -> (r: Self)
        requires
            rhs.combine_req(lhs, true),
        ensures
            Relation::built(r, rhs, lhs, false, false),
            r.wf(),
            forall|env: spec_fn(nat) -> int| #[trigger] r.holds(env) <==> lhs.eval(env) == rhs.eval(env),
    {
        Relation { expr: rhs - lhs, ineq: false, inv: false }
    }

    /// lhs ≠ rhs
    pub fn ne(lhs: Axis, rhs: Axis) -> (r: Self)
        requires
            rhs.combine_req(lhs, true),
        ensures
            Relation::built(r, rhs, lhs, false, true),
            r.wf(),
            forall|env: spec_fn(nat) -> int| #[trigger] r.holds(env) <==> lhs.eval(env) != rhs.eval(env),
    {
        Relation { expr: rhs - lhs, ineq: false, inv: true }
    }

    /// lhs < rhs
    pub fn lt(lhs: Axis, rhs: Axis) -> (r: Self)
        requires
            rhs.combine_req(lhs, true),
        ensures
            Relation::built(r, rhs, lhs, true, false),
            r.wf(),
            forall|env: spec_fn(nat) -> int| #[trigger] r.holds(env) <==> lhs.eval(env) < rhs.eval(env),
    {
        Relation { expr: rhs - lhs, ineq: true, inv: false }
    }

    /// lhs > rhs
    pub fn gt(lhs: Axis, rhs: Axis) -> (r: Self)
        requires
            lhs.combine_req(rhs, true),
        ensures
            Relation::built(r, lhs, rhs, true, false),
            r.wf(),
            forall|env: spec_fn(nat) -> int| #[trigger] r.holds(env) <==> lhs.eval(env) > rhs.eval(env),
    {
        Relation { expr: lhs - rhs, ineq: true, inv: false }
    }

    /// lhs ≤ rhs
    pub fn le(lhs: Axis, rhs: Axis) -> (r: Self)
        requires
            lhs.combine_req(rhs, true),
        ensures
            Relation::built(r, lhs, rhs, true, true),
            r.wf(),
            forall|env: spec_fn(nat) -> int| #[trigger] r.holds(env) <==> lhs.eval(env) <= rhs.eval(env),
    {
        Relation { expr: lhs - rhs, ineq: true, inv: true }
    }

    /// lhs ≥ rhs
    pub fn ge(lhs: Axis, rhs: Axis) -> (r: Self)
        requires
            rhs.combine_req(lhs, true),
        ensures
            Relation::built(r, rhs, lhs, true, true),
            r.wf(),
            forall|env: spec_fn(nat) -> int| #[trigger] r.holds(env) <==> lhs.eval(env) >= rhs.eval(env),
    {
        Relation { expr: rhs - lhs, ineq: true, inv: true }
    }

    /// Returns `None` if the relation involves any variables; otherwise whether it holds,
    /// which is then the same for every value of the variables.
    pub fn trivial(&self) -> (r: Option<bool>)
        requires
            self.wf(),
        ensures
            r is None <==> self.expr.spec_only_const() is None,
            r is Some ==> r->Some_0 == rel_holds(self.expr.spec_only_const()->Some_0, self.ineq, self.inv),
            r is Some ==> forall|env: spec_fn(nat) -> int| #[trigger] self.holds(env) == r->Some_0,
    {
        match self.expr.only_const() {
            Some(val) => {
                proof {
                    lemma_only_const_eval(self.expr);
                }
                let b = if self.ineq { val > 0 } else { val == 0 };
                Some(b != self.inv)
            },
            None => None,
        }
    }

    /// A copy of the relation.
    pub fn copy(&self) -> (r: Relation)
        ensures
            r.expr.poly() == self.expr.poly(),
            (r.expr is Const) == (self.expr is Const),
            r.expr.wf() == self.expr.wf(),
            r.expr.keys() == self.expr.keys(),
            r.ineq == self.ineq,
            r.inv == self.inv,
    {
        Relation { expr: self.expr.clone(), ineq: self.ineq, inv: self.inv }
    }
}

/// A polynomial whose terms naming variables all have coefficient zero takes its
/// constant value everywhere.
pub proof fn lemma_only_const_eval(a: Axis)
    requires
        a.wf(),
        a.spec_only_const() is Some,
    ensures
        forall|env: spec_fn(nat) -> int| #[trigger] a.eval(env) == a.spec_only_const()->Some_0,
{
    reveal_with_fuel(sum_of, 2);
    assert forall|env: spec_fn(nat) -> int| #[trigger] a.eval(env) == a.spec_only_const()->Some_0 by {
        match a {
            Axis::Const(c) => {
                let m = mono(Seq::<usize>::empty(), env);
                assert(m == 1);
                assert(a.eval(env) == c * m);
                assert(c * m == c) by (nonlinear_arith) requires m == 1;
            },
            Axis::Var(_) => {
                assert(no_var_terms(a.poly()));
                lemma_eval_no_var_terms(a.poly(), env);
            },
        }
    }
}

impl Condition {
    pub open spec fn rels(self) -> Seq<Relation> {
        match self {
            Condition::Or(rs) => rs@,
        }
    }

    pub open spec fn wf(self) -> bool {
        forall|i: int| 0 <= i < self.rels().len() ==> #[trigger] self.rels()[i].wf()
    }

    /// Some relation of the disjunction holds.
    pub open spec fn holds(self, env: spec_fn(nat) -> int) -> bool {
        exists|i: int| 0 <= i < self.rels().len() && #[trigger] self.rels()[i].holds(env)
    }

    /// The largest number of variables used by any relation.
    pub open spec fn spec_to_nvars(self) -> nat {
        max_rel_nvars(self.rels())
    }

    /// Returns `Some(true)` if some relation holds by comparing constants, `Some(false)`
    /// if every relation fails by comparing constants (so the empty disjunction is
    /// false), and `None` otherwise.
    pub fn trivial(&self) -> (r: Option<bool>)
        requires
            self.wf(),
        ensures
            r == Some(true) <==> exists|i: int| 0 <= i < self.rels().len()
                && #[trigger] self.rels()[i].expr.spec_only_const() is Some
                && rel_holds(self.rels()[i].expr.spec_only_const()->Some_0, self.rels()[i].ineq, self.rels()[i].inv),
            r == Some(false) <==> forall|i: int| 0 <= i < self.rels().len() ==>
                #[trigger] self.rels()[i].expr.spec_only_const() is Some
                && !rel_holds(self.rels()[i].expr.spec_only_const()->Some_0, self.rels()[i].ineq, self.rels()[i].inv),
            r is Some ==> forall|env: spec_fn(nat) -> int| #[trigger] self.holds(env) == r->Some_0,
    {
        match self {
            Condition::Or(rels) => {
                let mut out: Option<bool> = Some(false);
                let mut i: usize = 0;
                while i < rels.len()
                    invariant
                        i <= rels@.len(),
                        rels@ == self.rels(),
                        self.wf(),
                        forall|j: int| 0 <= j < i ==> !(#[trigger] rels@[j].expr.spec_only_const() is Some
                            && rel_holds(rels@[j].expr.spec_only_const()->Some_0, rels@[j].ineq, rels@[j].inv)),
                        out == Some(false) <==> forall|j: int| 0 <= j < i ==>
                            #[trigger] rels@[j].expr.spec_only_const() is Some,
                        out is None || out == Some(false),
                    decreases rels@.len() - i,
                {
                    proof {
                        assert(rels@[i as int].wf());
                    }
                    match rels[i].trivial() {
                        Some(true) => {
                            proof {
                                let j = i as int;
                                assert(self.rels()[j].expr.spec_only_const() is Some);
                                lemma_only_const_eval(self.rels()[j].expr);
                                assert forall|env: spec_fn(nat) -> int| #[trigger] self.holds(env) == true by {
                                    assert(self.rels()[j].holds(env));
                                }
                            }
                            return Some(true);
                        },
                        None => {
                            out = None;
                        },
                        Some(false) => {},
                    }
                    i += 1;
                }
                proof {
                    if out == Some(false) {
                        assert forall|env: spec_fn(nat) -> int| #[trigger] self.holds(env) == false by {
                            assert forall|j: int| 0 <= j < self.rels().len() implies !(#[trigger] self.rels()[j].holds(env)) by {
                                assert(rels@[j].expr.spec_only_const() is Some);
                                assert(rels@[j].wf());
                                lemma_only_const_eval(rels@[j].expr);
                            }
                        }
                    }
                    if out is None {
                        let j = choose|j: int| 0 <= j < i && !(#[trigger] rels@[j].expr.spec_only_const() is Some);
                        assert(!(self.rels()[j].expr.spec_only_const() is Some));
                    }
                }
                out
            },
        }
    }

    /// The number of variable ids this condition's axes use.
    pub fn to_nvars(&self) -> (r: usize)
        ensures
            r == self.spec_to_nvars(),
    {
        match self {
            Condition::Or(rels) => {
                let mut m: usize = 0;
                let mut i: usize = 0;
                while i < rels.len()
                    invariant
                        i <= rels@.len(),
                        rels@ == self.rels(),
                        m == max_rel_nvars(rels@.take(i as int)),
                    decreases rels@.len() - i,
                {
                    proof {
                        assert(rels@.take(i + 1).drop_last() =~= rels@.take(i as int));
                    }
                    let n = rels[i].expr.to_nvars();
                    if n > m {
                        m = n;
                    }
                    i += 1;
                }
                proof {
                    assert(rels@.take(rels@.len() as int) =~= rels@);
                }
                m
            },
        }
    }

    /// Substitute into every relation; fails if some relation lacks a replacement for a
    /// variable it uses.
    pub fn substitute(&self, substs: &HashMap<usize, Axis>) -> (r: Result<Condition, SubstError>)
        requires
            forall|i: int| 0 <= i < self.rels().len() ==> (#[trigger] self.rels()[i]).expr.subst_req(substs@),
        ensures
            r is Err <==> exists|i: int| 0 <= i < self.rels().len() && (#[trigger] self.rels()[i]).expr.missing_var(substs@),
            r is Ok ==> {
                let c = r->Ok_0;
                &&& c.rels().len() == self.rels().len()
                &&& c.wf()
                &&& forall|i: int| 0 <= i < c.rels().len() ==> {
                    &&& (#[trigger] c.rels()[i]).ineq == self.rels()[i].ineq
                    &&& c.rels()[i].inv == self.rels()[i].inv
                }
                &&& forall|env: spec_fn(nat) -> int, i: int| 0 <= i < c.rels().len() ==>
                    (#[trigger] c.rels()[i].holds(env)) == self.rels()[i].holds(subst_env(substs@, env))
                &&& forall|env: spec_fn(nat) -> int| #[trigger] c.holds(env) == self.holds(subst_env(substs@, env))
            },
    {
        match self {
            Condition::Or(rels) => {
                let mut out: Vec<Relation> = Vec::new();
                let mut i: usize = 0;
                while i < rels.len()
                    invariant
                        i <= rels@.len(),
                        rels@ == self.rels(),
                        forall|q: int| 0 <= q < self.rels().len() ==> (#[trigger] self.rels()[q]).expr.subst_req(substs@),
                        out@.len() == i,
                        forall|q: int| 0 <= q < i ==> !(#[trigger] rels@[q]).expr.missing_var(substs@),
                        forall|q: int| 0 <= q < i ==> {
                            &&& (#[trigger] out@[q]).wf()
                            &&& out@[q].ineq == rels@[q].ineq
                            &&& out@[q].inv == rels@[q].inv
                            &&& forall|env: spec_fn(nat) -> int| #[trigger] out@[q].expr.eval(env)
                                == rels@[q].expr.eval(subst_env(substs@, env))
                        },
                    decreases rels@.len() - i,
                {
                    let rel = &rels[i];
                    proof {
                        assert(self.rels()[i as int].expr.subst_req(substs@));
                    }
                    match rel.expr.substitute(substs) {
                        Ok(expr) => {
                            out.push(Relation { expr, ineq: rel.ineq, inv: rel.inv });
                        },
                        Err(e) => {
                            return Err(e);
                        },
                    }
                    i += 1;
                }
                let c = Condition::Or(out);
                proof {
                    assert forall|env: spec_fn(nat) -> int, q: int| 0 <= q < c.rels().len() implies
                        (#[trigger] c.rels()[q].holds(env)) == self.rels()[q].holds(subst_env(substs@, env)) by {
                        assert(out@[q].expr.eval(env) == rels@[q].expr.eval(subst_env(substs@, env)));
                    }
                    assert forall|env: spec_fn(nat) -> int| #[trigger] c.holds(env) == self.holds(subst_env(substs@, env)) by {
                        if c.holds(env) {
                            let q = choose|q: int| 0 <= q < c.rels().len() && #[trigger] c.rels()[q].holds(env);
                            assert(self.rels()[q].holds(subst_env(substs@, env)));
                        }
                        if self.holds(subst_env(substs@, env)) {
                            let q = choose|q: int| 0 <= q < self.rels().len() && #[trigger] self.rels()[q].holds(subst_env(substs@, env));
                            assert(c.rels()[q].holds(env));
                        }
                    }
                }
                Ok(c)
            },
        }
    }
}

/// The largest number of variables used by the expressions.
pub open spec fn max_rel_nvars(rs: Seq<Relation>) -> nat
    decreases rs.len(),
{
    if rs.len() == 0 {
        0
    } else {
        let m = max_rel_nvars(rs.drop_last());
        if rs.last().expr.spec_to_nvars() > m { rs.last().expr.spec_to_nvars() } else { m }
    }
}

impl From<Relation> for Condition {
    fn from(value: Relation) -> (r: Condition)
        ensures
            r.rels() == seq![value],
    {
        let mut v: Vec<Relation> = Vec::new();
        v.push(value);
        proof {
            assert(v@ =~= seq![value]);
        }
        Condition::Or(v)
    }
}

impl vstd::std_specs::convert::FromSpecImpl<Relation> for Condition {
    open spec fn obeys_from_spec() -> bool {
        false
    }

    open spec fn from_spec(v: Relation) -> Condition {
        choose|c: Condition| c.rels() == seq![v]
    }
}

/// A relation built from two constant lengths `x` and `y` (its expression being `x - y`)
/// has a constant expression, `x - y`, so `trivial` decides it: `Relation::eq(a, b)`
/// gives `Some(a == b)`, `ne` gives `Some(a != b)`, `lt` gives `Some(a < b)`, and so
/// on for `gt`, `le` and `ge`.
pub proof fn lemma_constant_relation(r: Relation, x: isize, y: isize, ineq: bool, inv: bool)
    requires
        Relation::built(r, Axis::Const(x), Axis::Const(y), ineq, inv),
    ensures
        r.expr.spec_only_const() == Some(x - y),
        rel_holds(r.expr.spec_only_const()->0, r.ineq, r.inv) == ((if ineq { x > y } else { x == y }) != inv),
{
    reveal_with_fuel(sum_of, 2);
    let e = Seq::<usize>::empty();
    assert(Axis::Const(x).coef(e) == x);
    assert(Axis::Const(y).coef(e) == y);
    assert(r.expr.coef(e) == x - y);
}

} // verus!
