use vstd::prelude::*;
use vstd::arithmetic::power::pow;
use crate::poly::{
    get0, key_add, keys_fit, exps_fit, exps_bounded, row_prods, prod_list, represents,
    lemma_represents_step, lemma_represents_empty, lemma_key_add_trimmed, lemma_key_add_empty,
    lemma_key_add_get, lemma_row_prods_take, lemma_prod_list_take, lemma_prod_eval,
    lemma_prod_abs, lemma_abs_nonneg, lemma_abs_take, lemma_represents_refl,
    lemma_prod_list_keys, lemma_prod_list_bounded, max_exp, lemma_max_exp,
    lemma_exps_fit_from_bounds, lemma_exps_bounded_weaken, lemma_entry_le_l1, mono_n,
    lemma_pow_base_mono, lemma_mono_n_grows, lemma_mono_n_all_zero, lemma_sum_take_nonneg,
    lemma_sum_nonneg, lemma_mono_is_mono_n,
};
use std::collections::HashMap;
use vstd::arithmetic::power::{lemma_pow_increases, lemma_pow_positive, lemma_pow0};

verus! {

/// One term of a polynomial: a coefficient times a product of powers of variables.
/// `exps[i]` is the exponent of variable `i`; variables past the end have exponent 0.
pub struct Term {
    pub exps: Vec<usize>,
    pub coef: isize,
}

/// A single axis of a symbolic shape, represented as a multivariate integer-coefficient
/// polynomial of the relevant unknowns. A term with exponents `[1, 2]` and coefficient 3
/// stands for `3x₀x₁²`.
pub enum Axis {
    Const(isize),
    Var(Vec<Term>),
}

/// A term as mathematical values: exponents and coefficient.
pub type Mono = (Seq<usize>, int);

pub open spec fn term_view(t: Term) -> Mono {
    (t.exps@, t.coef as int)
}

pub open spec fn term_seq(ts: Seq<Term>) -> Seq<Mono> {
    ts.map_values(|t: Term| term_view(t))
}

/// Exponent lists are stored without trailing zeros.
pub open spec fn trimmed(k: Seq<usize>) -> bool {
    k.len() == 0 || k.last() != 0
}

/// An exponent list with its trailing zeros removed.
pub open spec fn trim(k: Seq<usize>) -> Seq<usize>
    decreases k.len(),
{
    if k.len() > 0 && k.last() == 0 {
        trim(k.drop_last())
    } else {
        k
    }
}

/// The sum of `f` over the terms.
pub open spec fn sum_of(ts: Seq<Mono>, f: spec_fn(Mono) -> int) -> int
    decreases ts.len(),
{
    if ts.len() == 0 {
        0
    } else {
        sum_of(ts.drop_last(), f) + f(ts.last())
    }
}

/// Picks out the coefficient of the exponents `e`.
pub open spec fn coef_fn(e: Seq<usize>) -> spec_fn(Mono) -> int {
    |t: Mono| if t.0 == e { t.1 } else { 0 }
}

/// The value of a product of powers, each variable `i` taking the value `env(i)`.
pub open spec fn mono(k: Seq<usize>, env: spec_fn(nat) -> int) -> int
    decreases k.len(),
{
    if k.len() == 0 {
        1
    } else {
        mono(k.drop_last(), env) * pow(env((k.len() - 1) as nat), k.last() as nat)
    }
}

/// The value of a term under the assignment `env`.
pub open spec fn eval_fn(env: spec_fn(nat) -> int) -> spec_fn(Mono) -> int {
    |t: Mono| t.1 * mono(t.0, env)
}

pub open spec fn abs(x: int) -> int {
    if x < 0 { -x } else { x }
}

/// Absolute value of a term's coefficient.
pub open spec fn abs_fn() -> spec_fn(Mono) -> int {
    |t: Mono| abs(t.1)
}

pub open spec fn distinct_keys(ts: Seq<Mono>) -> bool {
    forall|i: int, j: int| 0 <= i < ts.len() && 0 <= j < ts.len() && i != j ==> ts[i].0 != ts[j].0
}

pub open spec fn all_trimmed(ts: Seq<Mono>) -> bool {
    forall|i: int| 0 <= i < ts.len() ==> trimmed(#[trigger] ts[i].0)
}

/// The exponent lists that occur.
pub open spec fn keys_of(ts: Seq<Mono>) -> Set<Seq<usize>> {
    Set::new(|k: Seq<usize>| exists|i: int| 0 <= i < ts.len() && ts[i].0 == k)
}

/// The exponent list of the variable `n` on its own.
pub open spec fn var_key(n: nat) -> Seq<usize> {
    Seq::new(n, |i: int| 0usize).push(1usize)
}

pub open spec fn in_isize(x: int) -> bool {
    isize::MIN <= x <= isize::MAX
}

impl Axis {
    /// The terms of the polynomial; a constant is a single term without variables.
    pub open spec fn poly(self) -> Seq<Mono> {
        match self {
            Axis::Const(c) => seq![(Seq::<usize>::empty(), c as int)],
            Axis::Var(ts) => term_seq(ts@),
        }
    }

    /// The exponent lists stored (none for a constant).
    pub open spec fn keys(self) -> Set<Seq<usize>> {
        match self {
            Axis::Const(_) => Set::empty(),
            Axis::Var(ts) => keys_of(term_seq(ts@)),
        }
    }

    /// Stored terms have distinct, trimmed exponent lists.
    pub open spec fn wf(self) -> bool {
        match self {
            Axis::Const(_) => true,
            Axis::Var(ts) => distinct_keys(term_seq(ts@)) && all_trimmed(term_seq(ts@)),
        }
    }

    /// The coefficient of the (trimmed) exponent list `e`.
    pub open spec fn coef(self, e: Seq<usize>) -> int {
        sum_of(self.poly(), coef_fn(e))
    }

    /// The value of the polynomial when each variable `i` takes the value `env(i)`.
    pub open spec fn eval(self, env: spec_fn(nat) -> int) -> int {
        sum_of(self.poly(), eval_fn(env))
    }

    /// The sum of the absolute values of the coefficients.
    pub open spec fn l1(self) -> int {
        sum_of(self.poly(), abs_fn())
    }

    /// The constant value of the polynomial, if all its other coefficients are zero.
    pub open spec fn spec_only_const(self) -> Option<int> {
        match self {
            Axis::Const(c) => Some(c as int),
            Axis::Var(_) => if no_var_terms(self.poly()) {
                Some(self.coef(Seq::empty()))
            } else {
                None
            },
        }
    }

    /// The number of variables named by the stored exponent lists.
    pub open spec fn spec_to_nvars(self) -> nat {
        match self {
            Axis::Const(_) => 0,
            Axis::Var(ts) => max_key_len(term_seq(ts@)),
        }
    }
}

/// Every term naming a variable has coefficient zero.
pub open spec fn no_var_terms(ts: Seq<Mono>) -> bool {
    forall|i: int| 0 <= i < ts.len() && ts[i].0.len() > 0 ==> #[trigger] ts[i].1 == 0
}

/// The exponent list names exactly one variable, to the first power.
pub open spec fn is_var_key(k: Seq<usize>) -> bool {
    k.len() > 0 && k == var_key((k.len() - 1) as nat)
}

/// The term at `i` is the only one with a nonzero coefficient, and it is a single
/// variable with coefficient 1.
pub open spec fn single_var_at(ts: Seq<Mono>, i: int) -> bool {
    &&& 0 <= i < ts.len()
    &&& ts[i].1 == 1
    &&& is_var_key(ts[i].0)
    &&& forall|j: int| 0 <= j < ts.len() && j != i ==> #[trigger] ts[j].1 == 0
}

/// The length of the longest exponent list, or 0 for none.
pub open spec fn max_key_len(ts: Seq<Mono>) -> nat
    decreases ts.len(),
{
    if ts.len() == 0 {
        0
    } else {
        let m = max_key_len(ts.drop_last());
        if ts.last().0.len() > m { ts.last().0.len() } else { m }
    }
}

// ---- lemmas on sums over terms ----

pub proof fn lemma_sum_of_update(ts: Seq<Mono>, i: int, x: Mono, f: spec_fn(Mono) -> int)
    requires
        0 <= i < ts.len(),
    ensures
        sum_of(ts.update(i, x), f) == sum_of(ts, f) - f(ts[i]) + f(x),
    decreases ts.len(),
{
    if i == ts.len() - 1 {
        assert(ts.update(i, x).drop_last() =~= ts.drop_last());
    } else {
        assert(ts.update(i, x).drop_last() =~= ts.drop_last().update(i, x));
        lemma_sum_of_update(ts.drop_last(), i, x, f);
    }
}

pub proof fn lemma_sum_of_concat(a: Seq<Mono>, b: Seq<Mono>, f: spec_fn(Mono) -> int)
    ensures
        sum_of(a + b, f) == sum_of(a, f) + sum_of(b, f),
    decreases b.len(),
{
    if b.len() == 0 {
        assert(a + b =~= a);
    } else {
        assert((a + b).drop_last() =~= a + b.drop_last());
        lemma_sum_of_concat(a, b.drop_last(), f);
    }
}

pub proof fn lemma_sum_of_push(a: Seq<Mono>, x: Mono, f: spec_fn(Mono) -> int)
    ensures
        sum_of(a.push(x), f) == sum_of(a, f) + f(x),
{
    assert(a.push(x).drop_last() =~= a);
}

/// With distinct keys, the coefficient of a key is that of its one entry, or 0.
pub proof fn lemma_coef_distinct(ts: Seq<Mono>, e: Seq<usize>)
    requires
        distinct_keys(ts),
    ensures
        forall|i: int| 0 <= i < ts.len() && ts[i].0 == e ==> sum_of(ts, coef_fn(e)) == ts[i].1,
        (forall|i: int| 0 <= i < ts.len() ==> ts[i].0 != e) ==> sum_of(ts, coef_fn(e)) == 0,
    decreases ts.len(),
{
    if ts.len() > 0 {
        let p = ts.drop_last();
        assert(distinct_keys(p));
        lemma_coef_distinct(p, e);
        assert forall|i: int| 0 <= i < ts.len() && ts[i].0 == e implies sum_of(ts, coef_fn(e)) == ts[i].1 by {
            if i < ts.len() - 1 {
                assert(ts.last().0 != e);
                assert(p[i] == ts[i]);
            } else {
                assert forall|j: int| 0 <= j < p.len() implies p[j].0 != e by {
                    assert(p[j] == ts[j]);
                }
            }
        }
        if forall|i: int| 0 <= i < ts.len() ==> ts[i].0 != e {
            assert forall|j: int| 0 <= j < p.len() implies p[j].0 != e by {
                assert(p[j] == ts[j]);
            }
            assert(ts[ts.len() - 1].0 != e);
        }
    }
}

/// The sum of absolute values bounds each coefficient.
pub proof fn lemma_coef_bounded_by_l1(ts: Seq<Mono>, e: Seq<usize>)
    ensures
        abs(sum_of(ts, coef_fn(e))) <= sum_of(ts, abs_fn()),
        0 <= sum_of(ts, abs_fn()),
    decreases ts.len(),
{
    if ts.len() > 0 {
        lemma_coef_bounded_by_l1(ts.drop_last(), e);
    }
}

pub proof fn lemma_trim_trimmed(k: Seq<usize>)
    ensures
        trimmed(trim(k)),
        trimmed(k) ==> trim(k) == k,
    decreases k.len(),
{
    if k.len() > 0 && k.last() == 0 {
        lemma_trim_trimmed(k.drop_last());
    }
}

// ---- executable helpers over exponent lists ----

/// The length of `exps` without its trailing zeros.
fn trimmed_len(exps: &[usize]) -> (n: usize)
    ensures
        n <= exps@.len(),
        exps@.subrange(0, n as int) == trim(exps@),
        trimmed(exps@.subrange(0, n as int)),
{
    let mut n = exps.len();
    proof {
        assert(exps@.subrange(0, n as int) =~= exps@);
    }
    while n > 0 && exps[n - 1] == 0
        invariant
            n <= exps@.len(),
            trim(exps@) == trim(exps@.subrange(0, n as int)),
        decreases n,
    {
        proof {
            assert(exps@.subrange(0, n as int).drop_last() =~= exps@.subrange(0, n - 1));
        }
        n -= 1;
    }
    proof {
        lemma_trim_trimmed(exps@.subrange(0, n as int));
    }
    n
}

/// Whether `a` equals the first `n` entries of `b`.
fn key_eq_prefix(a: &Vec<usize>, b: &[usize], n: usize) -> (r: bool)
    requires
        n <= b@.len(),
    ensures
        r == (a@ == b@.subrange(0, n as int)),
{
    if a.len() != n {
        return false;
    }
    let mut i: usize = 0;
    while i < n
        invariant
            i <= n,
            n <= b@.len(),
            a@.len() == n,
            forall|j: int| 0 <= j < i ==> a@[j] == b@[j],
        decreases n - i,
    {
        if a[i] != b[i] {
            proof {
                assert(a@[i as int] != b@.subrange(0, n as int)[i as int]);
            }
            return false;
        }
        i += 1;
    }
    proof {
        assert(a@ =~= b@.subrange(0, n as int));
    }
    true
}

/// The position of the term whose exponents are the first `n` entries of `exps`.
fn find_key(ts: &Vec<Term>, exps: &[usize], n: usize) -> (r: Option<usize>)
    requires
        n <= exps@.len(),
    ensures
        match r {
            Some(i) => i < ts@.len() && ts@[i as int].exps@ == exps@.subrange(0, n as int),
            None => forall|i: int| 0 <= i < ts@.len() ==> ts@[i].exps@ != exps@.subrange(0, n as int),
        },
{
    let mut i: usize = 0;
    while i < ts.len()
        invariant
            i <= ts@.len(),
            n <= exps@.len(),
            forall|j: int| 0 <= j < i ==> ts@[j].exps@ != exps@.subrange(0, n as int),
        decreases ts@.len() - i,
    {
        if key_eq_prefix(&ts[i].exps, exps, n) {
            return Some(i);
        }
        i += 1;
    }
    None
}

/// A copy of the first `n` entries.
fn prefix_vec(exps: &[usize], n: usize) -> (r: Vec<usize>)
    requires
        n <= exps@.len(),
    ensures
        r@ == exps@.subrange(0, n as int),
{
    let mut r: Vec<usize> = Vec::new();
    let mut i: usize = 0;
    while i < n
        invariant
            i <= n,
            n <= exps@.len(),
            r@ == exps@.subrange(0, i as int),
        decreases n - i,
    {
        r.push(exps[i]);
        proof {
            assert(r@ =~= exps@.subrange(0, i + 1));
        }
        i += 1;
    }
    r
}

impl Axis {
    /// Given a variable counter, make a new variable with the next unoccupied index and
    /// increment the counter.
    pub fn newvar(nvars: &mut usize) -> (r: Axis)
        requires
            *old(nvars) < usize::MAX,
        ensures
            *final(nvars) == *old(nvars) + 1,
            r.wf(),
            r is Var,
            r.poly() == seq![(var_key(*old(nvars) as nat), 1int)],
    {
        let mut exps: Vec<usize> = Vec::new();
        let mut i: usize = 0;
        while i < *nvars
            invariant
                i <= *nvars,
                exps@ == Seq::new(i as nat, |j: int| 0usize),
            decreases *nvars - i,
        {
            exps.push(0);
            proof {
                assert(exps@ =~= Seq::new((i + 1) as nat, |j: int| 0usize));
            }
            i += 1;
        }
        exps.push(1);
        let mut ts: Vec<Term> = Vec::new();
        ts.push(Term { exps, coef: 1 });
        *nvars = *nvars + 1;
        let r = Axis::Var(ts);
        proof {
            assert(r.poly() =~= seq![(var_key(*old(nvars) as nat), 1int)]);
        }
        r
    }

    /// Get the coefficient of the term corresponding to the given set of exponents.
    pub fn term(&self, exps: &[usize]) -> (r: isize)
        requires
            self.wf(),
        ensures
            r == self.coef(trim(exps@)),
    {
        let n = trimmed_len(exps);
        match self {
            Axis::Const(v) => {
                proof {
                    reveal_with_fuel(sum_of, 2);
                }
                if n == 0 {
                    proof {
                        assert(trim(exps@) =~= Seq::<usize>::empty());
                    }
                    *v
                } else {
                    0
                }
            },
            Axis::Var(ts) => {
                proof {
                    lemma_coef_distinct(term_seq(ts@), trim(exps@));
                }
                match find_key(ts, exps, n) {
                    Some(i) => {
                        proof {
                            assert(term_seq(ts@)[i as int].0 == trim(exps@));
                        }
                        ts[i].coef
                    },
                    None => {
                        proof {
                            assert forall|i: int| 0 <= i < term_seq(ts@).len() implies term_seq(ts@)[i].0 != trim(exps@) by {
                                assert(ts@[i].exps@ != exps@.subrange(0, n as int));
                            }
                        }
                        0
                    },
                }
            },
        }
    }

    /// Get the value of the constant term.
    pub fn constant(&self) -> (r: isize)
        requires
            self.wf(),
        ensures
            r == self.coef(Seq::empty()),
    {
        let empty: [usize; 0] = [];
        let r = self.term(&empty);
        proof {
            assert(empty@ =~= Seq::<usize>::empty());
        }
        r
    }

    /// If the entire value is a constant, return that constant.
    pub fn only_const(&self) -> (r: Option<isize>)
        requires
            self.wf(),
        ensures
            r is Some ==> self.spec_only_const() == Some(r->0 as int),
            r is None ==> self.spec_only_const() is None,
    {
        match self {
            Axis::Const(v) => Some(*v),
            Axis::Var(ts) => {
                let ghost p = term_seq(ts@);
                let mut out: isize = 0;
                let mut i: usize = 0;
                while i < ts.len()
                    invariant
                        i <= ts@.len(),
                        p == term_seq(ts@),
                        p == self.poly(),
                        self is Var,
                        distinct_keys(p),
                        forall|j: int| 0 <= j < i && p[j].0.len() > 0 ==> #[trigger] p[j].1 == 0,
                        (exists|j: int| 0 <= j < i && p[j].0.len() == 0) ==> out == sum_of(p, coef_fn(Seq::empty())),
                        (forall|j: int| 0 <= j < i ==> p[j].0.len() > 0) ==> out == 0,
                    decreases ts@.len() - i,
                {
                    let t = &ts[i];
                    proof {
                        assert(p[i as int] == term_view(ts@[i as int]));
                    }
                    if t.exps.len() == 0 {
                        proof {
                            lemma_coef_distinct(p, Seq::empty());
                            assert(p[i as int].0 =~= Seq::<usize>::empty());
                        }
                        out = t.coef;
                    } else if t.coef != 0 {
                        proof {
                            assert(p[i as int].0.len() > 0 && p[i as int].1 != 0);
                        }
                        return None;
                    }
                    i += 1;
                }
                proof {
                    if forall|j: int| 0 <= j < p.len() ==> p[j].0.len() > 0 {
                        lemma_coef_distinct(p, Seq::empty());
                        assert forall|j: int| 0 <= j < p.len() implies p[j].0 != Seq::<usize>::empty() by {
                            assert(p[j].0.len() > 0);
                        }
                    }
                }
                Some(out)
            },
        }
    }

    /// If the entire value consists of only a single variable with coefficient 1, return
    /// the index of that variable.
    pub fn single_var(&self) -> (r: Option<usize>)
        requires
            self.wf(),
        ensures
            r is Some ==> self is Var && (exists|i: int| single_var_at(self.poly(), i)
                && self.poly()[i].0 == var_key(r->0 as nat)),
            r is None ==> self is Const || (forall|i: int| !single_var_at(self.poly(), i)),
    {
        match self {
            Axis::Const(_) => None,
            Axis::Var(ts) => {
                let ghost p = term_seq(ts@);
                let mut idx: Option<usize> = None;
                let mut i: usize = 0;
                while i < ts.len()
                    invariant
                        i <= ts@.len(),
                        p == term_seq(ts@),
                        p == self.poly(),
                        self is Var,
                        all_trimmed(p),
                        match idx {
                            Some(q) => q < i && p[q as int].1 == 1 && is_var_key(p[q as int].0)
                                && forall|j: int| 0 <= j < i && j != q ==> #[trigger] p[j].1 == 0,
                            None => forall|j: int| 0 <= j < i ==> #[trigger] p[j].1 == 0,
                        },
                    decreases ts@.len() - i,
                {
                    let t = &ts[i];
                    proof {
                        assert(p[i as int] == term_view(ts@[i as int]));
                    }
                    if t.coef != 0 {
                        if t.coef != 1 {
                            proof {
                                assert forall|q: int| !single_var_at(p, q) by {
                                    if single_var_at(p, q) && q != i {
                                        assert(p[i as int].1 == 0);
                                    }
                                }
                            }
                            return None;
                        }
                        proof {
                            assert(trimmed(p[i as int].0));
                        }
                        let unit = is_unit_exps(&t.exps);
                        if unit && idx.is_none() {
                            idx = Some(i);
                        } else {
                            proof {
                                assert forall|q: int| !single_var_at(p, q) by {
                                    if single_var_at(p, q) {
                                        if q == i {
                                            assert(is_var_key(p[i as int].0));
                                            match idx {
                                                Some(q2) => { assert(p[q2 as int].1 == 1); }
                                                None => {}
                                            }
                                        } else {
                                            assert(p[i as int].1 == 0);
                                        }
                                    }
                                }
                            }
                            return None;
                        }
                    }
                    i += 1;
                }
                match idx {
                    Some(q) => {
                        let n = ts[q].exps.len() - 1;
                        proof {
                            assert(p[q as int] == term_view(ts@[q as int]));
                            assert(single_var_at(p, q as int));
                            assert(self.poly()[q as int].0 == var_key(n as nat));
                        }
                        Some(n)
                    },
                    None => {
                        proof {
                            assert forall|q: int| !single_var_at(p, q) by {
                                if 0 <= q < p.len() {
                                    assert(p[q].1 == 0);
                                }
                            }
                        }
                        None
                    },
                }
            },
        }
    }

    /// Heuristic for deciding which of two equal expressions to proceed with.
    pub fn complexity(&self) -> (r: usize)
        ensures
            r == (if self is Const { 0usize } else { 1usize }),
    {
        match self {
            Axis::Const(_) => 0,
            Axis::Var(_) => 1,
        }
    }

    /// The number of variable ids this `Axis` uses.
    pub fn to_nvars(&self) -> (r: usize)
        ensures
            r == self.spec_to_nvars(),
    {
        match self {
            Axis::Const(_) => 0,
            Axis::Var(ts) => {
                let mut m: usize = 0;
                let mut i: usize = 0;
                while i < ts.len()
                    invariant
                        i <= ts@.len(),
                        m == max_key_len(term_seq(ts@).take(i as int)),
                    decreases ts@.len() - i,
                {
                    proof {
                        assert(term_seq(ts@).take(i + 1).drop_last() =~= term_seq(ts@).take(i as int));
                    }
                    if ts[i].exps.len() > m {
                        m = ts[i].exps.len();
                    }
                    i += 1;
                }
                proof {
                    assert(term_seq(ts@).take(ts@.len() as int) =~= term_seq(ts@));
                }
                m
            },
        }
    }
}

/// `c`, or its negation.
pub open spec fn signed_coef(c: isize, negate: bool) -> int {
    if negate { -(c as int) } else { c as int }
}

/// `new` is `old` with `d` added to the coefficient of `k`: as coefficients, as values,
/// and as stored exponent lists.
pub open spec fn added_at(old: Seq<Mono>, new: Seq<Mono>, k: Seq<usize>, d: int) -> bool {
    &&& forall|e: Seq<usize>| #[trigger] sum_of(new, coef_fn(e)) == sum_of(old, coef_fn(e)) + (if e == k { d } else { 0 })
    &&& forall|env: spec_fn(nat) -> int| #[trigger] sum_of(new, eval_fn(env)) == sum_of(old, eval_fn(env)) + d * mono(k, env)
    &&& sum_of(new, abs_fn()) <= sum_of(old, abs_fn()) + abs(d)
    &&& keys_of(new) == keys_of(old).insert(k)
}

/// Adds `c` (or, with `negate`, subtracts it) to the coefficient of the exponents
/// `exps[..n]`, creating the term if there is none.
fn add_to_key(ts: &mut Vec<Term>, exps: &[usize], n: usize, c: isize, negate: bool)
    requires
        n <= exps@.len(),
        trimmed(exps@.subrange(0, n as int)),
        distinct_keys(term_seq(old(ts)@)),
        all_trimmed(term_seq(old(ts)@)),
        in_isize(sum_of(term_seq(old(ts)@), coef_fn(exps@.subrange(0, n as int))) + signed_coef(c, negate)),
    ensures
        distinct_keys(term_seq(final(ts)@)),
        all_trimmed(term_seq(final(ts)@)),
        added_at(term_seq(old(ts)@), term_seq(final(ts)@), exps@.subrange(0, n as int), signed_coef(c, negate)),
{
    let ghost k = exps@.subrange(0, n as int);
    let ghost d = signed_coef(c, negate);
    let ghost p = term_seq(ts@);
    proof {
        lemma_coef_distinct(p, k);
    }
    match find_key(ts, exps, n) {
        Some(i) => {
            let old_c = ts[i].coef;
            proof {
                assert(p[i as int] == term_view(ts@[i as int]));
            }
            let new_c = if negate { old_c - c } else { old_c + c };
            ts[i].coef = new_c;
            proof {
                let q = term_seq(ts@);
                assert(q =~= p.update(i as int, (k, new_c as int)));
                assert forall|e: Seq<usize>| #[trigger] sum_of(q, coef_fn(e)) == sum_of(p, coef_fn(e)) + (if e == k { d } else { 0 }) by {
                    lemma_sum_of_update(p, i as int, (k, new_c as int), coef_fn(e));
                }
                assert forall|env: spec_fn(nat) -> int| #[trigger] sum_of(q, eval_fn(env)) == sum_of(p, eval_fn(env)) + d * mono(k, env) by {
                    lemma_sum_of_update(p, i as int, (k, new_c as int), eval_fn(env));
                    assert(new_c * mono(k, env) == old_c * mono(k, env) + d * mono(k, env)) by (nonlinear_arith)
                        requires new_c == old_c + d;
                }
                lemma_sum_of_update(p, i as int, (k, new_c as int), abs_fn());
                assert(keys_of(q) =~= keys_of(p).insert(k)) by {
                    assert forall|x: Seq<usize>| keys_of(p).insert(k).contains(x) implies keys_of(q).contains(x) by {
                        if x != k {
                            let j = choose|j: int| 0 <= j < p.len() && p[j].0 == x;
                            assert(q[j].0 == x);
                        } else {
                            assert(q[i as int].0 == x);
                        }
                    }
                    assert forall|x: Seq<usize>| keys_of(q).contains(x) implies keys_of(p).insert(k).contains(x) by {
                        let j = choose|j: int| 0 <= j < q.len() && q[j].0 == x;
                        assert(p[j].0 == x);
                    }
                }
                assert forall|a: int, b: int| 0 <= a < q.len() && 0 <= b < q.len() && a != b implies q[a].0 != q[b].0 by {
                    assert(p[a].0 != p[b].0);
                }
                assert forall|a: int| 0 <= a < q.len() implies trimmed(#[trigger] q[a].0) by {
                    assert(trimmed(p[a].0));
                }
            }
        },
        None => {
            let key = prefix_vec(exps, n);
            let new_c = if negate { 0 - c } else { c };
            ts.push(Term { exps: key, coef: new_c });
            proof {
                let q = term_seq(ts@);
                assert(q =~= p.push((k, new_c as int)));
                assert forall|e: Seq<usize>| #[trigger] sum_of(q, coef_fn(e)) == sum_of(p, coef_fn(e)) + (if e == k { d } else { 0 }) by {
                    lemma_sum_of_push(p, (k, new_c as int), coef_fn(e));
                }
                assert forall|env: spec_fn(nat) -> int| #[trigger] sum_of(q, eval_fn(env)) == sum_of(p, eval_fn(env)) + d * mono(k, env) by {
                    lemma_sum_of_push(p, (k, new_c as int), eval_fn(env));
                }
                lemma_sum_of_push(p, (k, new_c as int), abs_fn());
                assert(keys_of(q) =~= keys_of(p).insert(k)) by {
                    assert forall|x: Seq<usize>| keys_of(p).insert(k).contains(x) implies keys_of(q).contains(x) by {
                        if x != k {
                            let j = choose|j: int| 0 <= j < p.len() && p[j].0 == x;
                            assert(q[j].0 == x);
                        } else {
                            assert(q[p.len() as int].0 == x);
                        }
                    }
                    assert forall|x: Seq<usize>| keys_of(q).contains(x) implies keys_of(p).insert(k).contains(x) by {
                        let j = choose|j: int| 0 <= j < q.len() && q[j].0 == x;
                        if j < p.len() {
                            assert(p[j].0 == x);
                        }
                    }
                }
                assert forall|a: int, b: int| 0 <= a < q.len() && 0 <= b < q.len() && a != b implies q[a].0 != q[b].0 by {
                    if a < p.len() && b < p.len() {
                        assert(p[a].0 != p[b].0);
                    } else if a < p.len() {
                        assert(p[a].0 != k);
                    } else if b < p.len() {
                        assert(p[b].0 != k);
                    }
                }
                assert forall|a: int| 0 <= a < q.len() implies trimmed(#[trigger] q[a].0) by {
                    if a < p.len() {
                        assert(trimmed(p[a].0));
                    }
                }
            }
        },
    }
}

/// `x`, or its negation.
pub open spec fn sgn(x: int, negate: bool) -> int {
    if negate { -x } else { x }
}

/// When every term naming a variable has coefficient zero, the value is the constant term.
pub proof fn lemma_eval_no_var_terms(ts: Seq<Mono>, env: spec_fn(nat) -> int)
    requires
        no_var_terms(ts),
    ensures
        sum_of(ts, eval_fn(env)) == sum_of(ts, coef_fn(Seq::empty())),
    decreases ts.len(),
{
    if ts.len() > 0 {
        let p = ts.drop_last();
        assert forall|i: int| 0 <= i < p.len() && p[i].0.len() > 0 implies #[trigger] p[i].1 == 0 by {
            assert(ts[i] == p[i]);
        }
        lemma_eval_no_var_terms(p, env);
        let t = ts.last();
        if t.0.len() == 0 {
            assert(t.0 =~= Seq::<usize>::empty());
        } else {
            assert(ts[ts.len() - 1].1 == 0);
        }
    }
}

/// In a list with distinct keys, the coefficient of the key at `j` among the entries
/// before `j` is zero.
pub proof fn lemma_coef_prefix_zero(ts: Seq<Mono>, j: int)
    requires
        distinct_keys(ts),
        0 <= j < ts.len(),
    ensures
        sum_of(ts.take(j), coef_fn(ts[j].0)) == 0,
        sum_of(ts, coef_fn(ts[j].0)) == ts[j].1,
{
    let p = ts.take(j);
    assert(distinct_keys(p));
    lemma_coef_distinct(p, ts[j].0);
    lemma_coef_distinct(ts, ts[j].0);
    assert forall|i: int| 0 <= i < p.len() implies p[i].0 != ts[j].0 by {
        assert(p[i] == ts[i]);
    }
}

pub proof fn lemma_keys_push(ts: Seq<Mono>, x: Mono)
    ensures
        keys_of(ts.push(x)) == keys_of(ts).insert(x.0),
{
    let q = ts.push(x);
    assert forall|k: Seq<usize>| keys_of(q).contains(k) implies keys_of(ts).insert(x.0).contains(k) by {
        let i = choose|i: int| 0 <= i < q.len() && q[i].0 == k;
        if i < ts.len() {
            assert(ts[i].0 == k);
        }
    }
    assert forall|k: Seq<usize>| keys_of(ts).insert(x.0).contains(k) implies keys_of(q).contains(k) by {
        if k == x.0 {
            assert(q[ts.len() as int].0 == k);
        } else {
            let i = choose|i: int| 0 <= i < ts.len() && ts[i].0 == k;
            assert(q[i].0 == k);
        }
    }
    assert(keys_of(q) =~= keys_of(ts).insert(x.0));
}

pub open spec fn take0(ts: Seq<Mono>) -> Seq<Mono> {
    ts.take(0)
}

pub proof fn lemma_take_full(ts: Seq<Mono>)
    ensures
        ts.take(ts.len() as int) == ts,
{
    assert(ts.take(ts.len() as int) =~= ts);
}

pub proof fn lemma_take_push(ts: Seq<Mono>, j: int)
    requires
        0 <= j < ts.len(),
    ensures
        ts.take(j + 1) == ts.take(j).push(ts[j]),
{
    assert(ts.take(j + 1) =~= ts.take(j).push(ts[j]));
}

impl Axis {
    /// The exponent lists stored once a constant is turned into a general polynomial:
    /// a nonzero constant keeps its term.
    pub open spec fn var_keys(self) -> Set<Seq<usize>> {
        match self {
            Axis::Const(c) => if c != 0 { set![Seq::<usize>::empty()] } else { Set::empty() },
            Axis::Var(_) => self.keys(),
        }
    }

    /// Coefficients of `self ± rhs` stay within `isize`.
    pub open spec fn combine_ok(self, rhs: Axis, negate: bool) -> bool {
        forall|e: Seq<usize>| in_isize(#[trigger] self.coef(e) + sgn(rhs.coef(e), negate))
    }

    /// `r` is `self + rhs` (or `self - rhs` with `negate`): its coefficients and values are
    /// the sums (differences); it is a constant when both operands are, or when the
    /// right operand names variables and every term naming a variable cancels; and
    /// otherwise it stores the exponent lists of both operands.
    pub open spec fn combined(self, rhs: Axis, negate: bool, r: Axis) -> bool {
        &&& r.wf()
        &&& forall|e: Seq<usize>| #[trigger] r.coef(e) == self.coef(e) + sgn(rhs.coef(e), negate)
        &&& forall|env: spec_fn(nat) -> int| #[trigger] r.eval(env) == self.eval(env) + sgn(rhs.eval(env), negate)
        &&& r.l1() <= self.l1() + rhs.l1()
        &&& rhs is Const ==> (r is Const <==> self is Const)
        &&& rhs is Const && r is Var ==> r.keys() == self.keys().insert(Seq::empty())
        &&& rhs is Var ==> (r is Const <==> forall|e: Seq<usize>| e.len() > 0
                ==> #[trigger] self.coef(e) + sgn(rhs.coef(e), negate) == 0)
        &&& rhs is Var && r is Var ==> r.keys() == self.var_keys().union(rhs.keys())
    }

    /// Arguments that `+` and `-` accept: well formed, with coefficients that stay in range.
    pub open spec fn combine_req(self, rhs: Axis, negate: bool) -> bool {
        self.wf() && rhs.wf() && self.combine_ok(rhs, negate)
    }

    /// `self + rhs`, or `self - rhs` with `negate`. A polynomial sum whose terms naming
    /// variables all cancel becomes a constant.
    fn combine(self, rhs: &Axis, negate: bool) -> (r: Axis)
        requires
            self.wf(),
            rhs.wf(),
            self.combine_ok(*rhs, negate),
        ensures
            self.combined(*rhs, negate, r),
    {
        match rhs {
            Axis::Const(v) => {
                match self {
                    Axis::Const(s) => {
                        proof {
                            reveal_with_fuel(sum_of, 2);
                            assert(in_isize(self.coef(Seq::empty()) + sgn(rhs.coef(Seq::empty()), negate)));
                        }
                        let r = Axis::Const(if negate { s - *v } else { s + *v });
                        proof {
                            reveal_with_fuel(sum_of, 2);
                            assert forall|env: spec_fn(nat) -> int| #[trigger] r.eval(env) == self.eval(env) + sgn(rhs.eval(env), negate) by {
                                let m = mono(Seq::<usize>::empty(), env);
                                assert(m == 1);
                                assert(r.eval(env) == sum_of(r.poly(), eval_fn(env)));
                                assert(r.eval(env) == (if negate { s - *v } else { s + *v }) * m);
                                assert(self.eval(env) == s * m);
                                assert(rhs.eval(env) == *v * m);
                            }
                        }
                        r
                    },
                    Axis::Var(ts0) => {
                        let mut ts = ts0;
                        let empty: [usize; 0] = [];
                        proof {
                            reveal_with_fuel(sum_of, 2);
                            assert(empty@.subrange(0, 0) =~= Seq::<usize>::empty());
                            assert(in_isize(self.coef(Seq::empty()) + sgn(rhs.coef(Seq::empty()), negate)));
                        }
                        add_to_key(&mut ts, &empty, 0, *v, negate);
                        let r = Axis::Var(ts);
                        proof {
                            reveal_with_fuel(sum_of, 2);
                            assert forall|env: spec_fn(nat) -> int| #[trigger] r.eval(env) == self.eval(env) + sgn(rhs.eval(env), negate) by {
                                assert(mono(Seq::<usize>::empty(), env) == 1);
                            }
                        }
                        r
                    },
                }
            },
            Axis::Var(rts) => {
                let ghost rp = term_seq(rts@);
                let mut ts: Vec<Term> = match self {
                    Axis::Const(s) => {
                        let mut ts: Vec<Term> = Vec::new();
                        if s != 0 {
                            ts.push(Term { exps: Vec::new(), coef: s });
                        }
                        ts
                    },
                    Axis::Var(ts) => ts,
                };
                let ghost base = term_seq(ts@);
                proof {
                    reveal_with_fuel(sum_of, 2);
                    if self is Const {
                        assert(keys_of(base) =~= self.var_keys()) by {
                            if base.len() > 0 {
                                assert(base[0].0 =~= Seq::<usize>::empty());
                            }
                        }
                        assert forall|env: spec_fn(nat) -> int| #[trigger] sum_of(base, eval_fn(env)) == self.eval(env) by {
                            assert(mono(Seq::<usize>::empty(), env) == 1);
                        }
                        assert forall|e: Seq<usize>| #[trigger] sum_of(base, coef_fn(e)) == self.coef(e) by {}
                        if base.len() > 0 {
                            assert(base[0].0 =~= Seq::<usize>::empty());
                        }
                    }
                    assert(take0(rp) == Seq::<Mono>::empty());
                }
                let mut j: usize = 0;
                while j < rts.len()
                    invariant
                        j <= rts@.len(),
                        rp == term_seq(rts@),
                        rp == rhs.poly(),
                        rhs is Var,
                        rhs.wf(),
                        self.wf(),
                        self.combine_ok(*rhs, negate),
                        distinct_keys(term_seq(ts@)),
                        all_trimmed(term_seq(ts@)),
                        forall|e: Seq<usize>| #[trigger] sum_of(base, coef_fn(e)) == self.coef(e),
                        forall|env: spec_fn(nat) -> int| #[trigger] sum_of(base, eval_fn(env)) == self.eval(env),
                        sum_of(base, abs_fn()) == self.l1(),
                        keys_of(base) == self.var_keys(),
                        forall|e: Seq<usize>| #[trigger] sum_of(term_seq(ts@), coef_fn(e))
                            == sum_of(base, coef_fn(e)) + sgn(sum_of(rp.take(j as int), coef_fn(e)), negate),
                        forall|env: spec_fn(nat) -> int| #[trigger] sum_of(term_seq(ts@), eval_fn(env))
                            == sum_of(base, eval_fn(env)) + sgn(sum_of(rp.take(j as int), eval_fn(env)), negate),
                        sum_of(term_seq(ts@), abs_fn()) <= sum_of(base, abs_fn()) + sum_of(rp.take(j as int), abs_fn()),
                        keys_of(term_seq(ts@)) == keys_of(base).union(keys_of(rp.take(j as int))),
                    decreases rts@.len() - j,
                {
                    let ghost before = term_seq(ts@);
                    let t = &rts[j];
                    let n = t.exps.len();
                    proof {
                        assert(rp[j as int] == term_view(rts@[j as int]));
                        assert(t.exps@.subrange(0, n as int) =~= t.exps@);
                        assert(trimmed(rp[j as int].0));
                        lemma_coef_prefix_zero(rp, j as int);
                        lemma_coef_distinct(rp, rp[j as int].0);
                        assert(in_isize(self.coef(rp[j as int].0) + sgn(rhs.coef(rp[j as int].0), negate)));
                    }
                    add_to_key(&mut ts, &t.exps, n, t.coef, negate);
                    proof {
                        lemma_take_push(rp, j as int);
                        let k = rp[j as int].0;
                        let d = signed_coef(t.coef, negate);
                        assert forall|e: Seq<usize>| #[trigger] sum_of(term_seq(ts@), coef_fn(e))
                            == sum_of(base, coef_fn(e)) + sgn(sum_of(rp.take(j + 1), coef_fn(e)), negate) by {
                            lemma_sum_of_push(rp.take(j as int), rp[j as int], coef_fn(e));
                        }
                        assert forall|env: spec_fn(nat) -> int| #[trigger] sum_of(term_seq(ts@), eval_fn(env))
                            == sum_of(base, eval_fn(env)) + sgn(sum_of(rp.take(j + 1), eval_fn(env)), negate) by {
                            lemma_sum_of_push(rp.take(j as int), rp[j as int], eval_fn(env));
                            let m = mono(k, env);
                            assert(signed_coef(t.coef, negate) * m == sgn(t.coef * m, negate)) by (nonlinear_arith);
                        }
                        lemma_sum_of_push(rp.take(j as int), rp[j as int], abs_fn());
                        lemma_keys_push(rp.take(j as int), rp[j as int]);
                        assert(keys_of(term_seq(ts@)) =~= keys_of(base).union(keys_of(rp.take(j + 1))));
                    }
                    j += 1;
                }
                proof {
                    lemma_take_full(rp);
                }
                let ghost acc = term_seq(ts@);
                // Collapse to a constant when no term naming a variable is left.
                let mut i: usize = 0;
                let mut all_zero = true;
                while i < ts.len()
                    invariant
                        i <= ts@.len(),
                        acc == term_seq(ts@),
                        all_zero == (forall|q: int| 0 <= q < i && acc[q].0.len() > 0 ==> #[trigger] acc[q].1 == 0),
                    decreases ts@.len() - i,
                {
                    proof {
                        assert(acc[i as int] == term_view(ts@[i as int]));
                    }
                    if ts[i].exps.len() > 0 && ts[i].coef != 0 {
                        all_zero = false;
                        proof {
                            assert(acc[i as int].0.len() > 0 && acc[i as int].1 != 0);
                        }
                    }
                    proof {
                        if all_zero {
                            assert forall|q: int| 0 <= q < i + 1 && acc[q].0.len() > 0 implies #[trigger] acc[q].1 == 0 by {
                                if q == i {
                                    assert(acc[i as int] == term_view(ts@[i as int]));
                                }
                            }
                        }
                    }
                    i += 1;
                }
                let r = if all_zero {
                    let v = Axis::Var(ts);
                    let c = v.constant();
                    proof {
                        lemma_coef_bounded_by_l1(acc, Seq::empty());
                    }
                    Axis::Const(c)
                } else {
                    Axis::Var(ts)
                };
                proof {
                    reveal_with_fuel(sum_of, 2);
                    assert forall|e: Seq<usize>| #[trigger] r.coef(e) == self.coef(e) + sgn(rhs.coef(e), negate) by {
                        if all_zero && e.len() > 0 {
                            lemma_coef_distinct(acc, e);
                            assert forall|q: int| 0 <= q < acc.len() && acc[q].0 == e implies acc[q].1 == 0 by {
                                assert(acc[q].0.len() > 0);
                            }
                        }
                        if all_zero && e.len() == 0 {
                            assert(e =~= Seq::<usize>::empty());
                        }
                    }
                    assert forall|env: spec_fn(nat) -> int| #[trigger] r.eval(env) == self.eval(env) + sgn(rhs.eval(env), negate) by {
                        assert(sum_of(acc, eval_fn(env)) == sum_of(base, eval_fn(env)) + sgn(sum_of(rp, eval_fn(env)), negate));
                        if all_zero {
                            lemma_eval_no_var_terms(acc, env);
                            let m = mono(Seq::<usize>::empty(), env);
                            assert(m == 1);
                            let c = sum_of(acc, coef_fn(Seq::empty()));
                            assert(r.poly() == seq![(Seq::<usize>::empty(), c)]);
                            assert(r.eval(env) == c * m);
                            assert(c * m == c) by (nonlinear_arith) requires m == 1;
                        } else {
                            assert(r.poly() == acc);
                        }
                    }
                    if all_zero {
                        lemma_coef_bounded_by_l1(acc, Seq::empty());
                    }
                    assert((r is Const) <==> forall|e: Seq<usize>| e.len() > 0
                        ==> #[trigger] self.coef(e) + sgn(rhs.coef(e), negate) == 0) by {
                        if !all_zero {
                            let q = choose|q: int| 0 <= q < acc.len() && acc[q].0.len() > 0 && acc[q].1 != 0;
                            lemma_coef_distinct(acc, acc[q].0);
                            assert(self.coef(acc[q].0) + sgn(rhs.coef(acc[q].0), negate) != 0);
                        } else {
                            assert forall|e: Seq<usize>| e.len() > 0 implies #[trigger] self.coef(e) + sgn(rhs.coef(e), negate) == 0 by {
                                lemma_coef_distinct(acc, e);
                                assert forall|q: int| 0 <= q < acc.len() && acc[q].0 == e implies acc[q].1 == 0 by {
                                    assert(acc[q].0.len() > 0);
                                }
                            }
                        }
                    }
                }
                r
            },
        }
    }
}

/// The exponents of a product of two monomials.
fn key_add_exec(a: &Vec<usize>, b: &Vec<usize>) -> (r: Vec<usize>)
    requires
        keys_fit(a@, b@),
    ensures
        r@ == key_add(a@, b@),
{
    let n = if a.len() >= b.len() { a.len() } else { b.len() };
    let mut r: Vec<usize> = Vec::new();
    let mut p: usize = 0;
    while p < n
        invariant
            p <= n,
            n == key_add(a@, b@).len(),
            keys_fit(a@, b@),
            r@ == key_add(a@, b@).take(p as int),
        decreases n - p,
    {
        let x = if p < a.len() { a[p] } else { 0 };
        let y = if p < b.len() { b[p] } else { 0 };
        proof {
            assert(get0(a@, p as int) + get0(b@, p as int) <= usize::MAX);
            assert(x == get0(a@, p as int) && y == get0(b@, p as int));
        }
        r.push(x + y);
        proof {
            assert(r@ =~= key_add(a@, b@).take(p + 1));
        }
        p += 1;
    }
    proof {
        assert(r@ =~= key_add(a@, b@));
    }
    r
}

impl Axis {
    /// Arguments that `*` accepts: well formed, exponents that can be added, and
    /// coefficients that stay in range (for two general polynomials, whatever the order
    /// in which the products are summed).
    pub open spec fn can_mul(self, rhs: Axis) -> bool {
        &&& self.wf()
        &&& rhs.wf()
        &&& exps_fit(self.poly(), rhs.poly())
        &&& match (self, rhs) {
            (Axis::Const(l), Axis::Const(r)) => in_isize(l * r),
            (Axis::Const(c), Axis::Var(_)) => forall|j: int| 0 <= j < rhs.poly().len()
                ==> in_isize(c * #[trigger] rhs.poly()[j].1),
            (Axis::Var(_), Axis::Const(c)) => forall|i: int| 0 <= i < self.poly().len()
                ==> in_isize(#[trigger] self.poly()[i].1 * c),
            (Axis::Var(_), Axis::Var(_)) => self.l1() * rhs.l1() <= isize::MAX,
        }
    }

    /// `r` is `self * rhs`: its coefficients are those of the product, its values the
    /// products of values; it is a constant only when both factors are, and otherwise
    /// stores the exponent lists of the pairwise products.
    pub open spec fn multiplied(self, rhs: Axis, r: Axis) -> bool {
        &&& r.wf()
        &&& forall|e: Seq<usize>| #[trigger] r.coef(e) == sum_of(prod_list(self.poly(), rhs.poly()), coef_fn(e))
        &&& forall|env: spec_fn(nat) -> int| #[trigger] r.eval(env) == self.eval(env) * rhs.eval(env)
        &&& r.l1() <= self.l1() * rhs.l1()
        &&& (r is Const) == (self is Const && rhs is Const)
        &&& r is Var ==> r.keys() == keys_of(prod_list(self.poly(), rhs.poly()))
        &&& forall|ma: int, mb: int| exps_bounded(self.poly(), ma) && exps_bounded(rhs.poly(), mb)
                ==> #[trigger] exps_bounded(r.poly(), ma + mb)
    }

    /// The product of two polynomials.
    fn times(&self, rhs: &Axis) -> (r: Axis)
        requires
            self.can_mul(*rhs),
        ensures
            self.multiplied(*rhs, r),
    {
        let ghost ap = self.poly();
        let ghost bp = rhs.poly();
        let ghost pl = prod_list(ap, bp);
        let r = match (self, rhs) {
            (Axis::Const(l), Axis::Const(c)) => {
                proof {
                    reveal_with_fuel(sum_of, 2);
                    reveal_with_fuel(prod_list, 2);
                    lemma_key_add_empty(Seq::empty());
                    assert(pl =~= seq![(Seq::<usize>::empty(), *l as int * *c as int)]);
                    lemma_represents_refl(pl);
                }
                Axis::Const(*l * *c)
            },
            (Axis::Const(c), Axis::Var(bs)) => {
                let mut out: Vec<Term> = Vec::new();
                let mut j: usize = 0;
                let ghost t0 = ap[0];
                proof {
                    reveal_with_fuel(prod_list, 2);
                    assert(ap.drop_last() =~= Seq::<Mono>::empty());
                    assert(pl =~= Seq::<Mono>::empty() + row_prods(t0, bp));
                    assert(Seq::<Mono>::empty() + row_prods(t0, bp) =~= row_prods(t0, bp));
                }
                while j < bs.len()
                    invariant
                        j <= bs@.len(),
                        bp == term_seq(bs@),
                        t0 == (Seq::<usize>::empty(), *c as int),
                        forall|q: int| 0 <= q < bp.len() ==> in_isize(*c * #[trigger] bp[q].1),
                        term_seq(out@) == row_prods(t0, bp).take(j as int),
                    decreases bs@.len() - j,
                {
                    let t = &bs[j];
                    proof {
                        assert(bp[j as int] == term_view(bs@[j as int]));
                        assert(in_isize(*c * bp[j as int].1));
                    }
                    let n = t.exps.len();
                    let exps = prefix_vec(t.exps.as_slice(), n);
                    let ghost before = out@;
                    out.push(Term { exps, coef: *c * t.coef });
                    proof {
                        assert(t.exps@.subrange(0, n as int) =~= t.exps@);
                        lemma_key_add_empty(t.exps@);
                        assert(term_seq(before).len() == before.len());
                        assert(term_seq(out@) =~= row_prods(t0, bp).take(j + 1)) by {
                            assert forall|q: int| 0 <= q < j + 1 implies term_seq(out@)[q] == row_prods(t0, bp).take(j + 1)[q] by {
                                if q < j {
                                    assert(term_seq(out@)[q] == term_view(before[q]));
                                    assert(term_seq(before)[q] == row_prods(t0, bp).take(j as int)[q]);
                                }
                            }
                        }
                    }
                    j += 1;
                }
                proof {
                    assert(row_prods(t0, bp).take(bs@.len() as int) =~= row_prods(t0, bp));
                    lemma_prod_abs(ap, bp);
                    lemma_prod_eval(ap, bp, |x: nat| 0int);
                    assert forall|q: int| 0 <= q < bp.len() implies row_prods(t0, bp)[q].0 == #[trigger] bp[q].0 by {
                        lemma_key_add_empty(bp[q].0);
                    }
                    assert forall|q1: int, q2: int| 0 <= q1 < pl.len() && 0 <= q2 < pl.len() && q1 != q2 implies pl[q1].0 != pl[q2].0 by {
                        assert(row_prods(t0, bp)[q1].0 == bp[q1].0);
                        assert(row_prods(t0, bp)[q2].0 == bp[q2].0);
                    }
                    assert forall|q: int| 0 <= q < pl.len() implies trimmed(#[trigger] pl[q].0) by {
                        assert(row_prods(t0, bp)[q].0 == bp[q].0);
                    }
                    lemma_represents_refl(pl);
                }
                Axis::Var(out)
            },
            (Axis::Var(as_), Axis::Const(c)) => {
                let mut out: Vec<Term> = Vec::new();
                let mut i: usize = 0;
                let ghost cp = bp;
                while i < as_.len()
                    invariant
                        i <= as_@.len(),
                        ap == term_seq(as_@),
                        cp == seq![(Seq::<usize>::empty(), *c as int)],
                        forall|q: int| 0 <= q < ap.len() ==> in_isize(#[trigger] ap[q].1 * *c),
                        term_seq(out@) == prod_list(ap.take(i as int), cp),
                        forall|q: int| 0 <= q < i ==> #[trigger] term_seq(out@)[q].0 == ap[q].0,
                        out@.len() == i,
                    decreases as_@.len() - i,
                {
                    let t = &as_[i];
                    proof {
                        assert(ap[i as int] == term_view(as_@[i as int]));
                        assert(in_isize(ap[i as int].1 * *c));
                    }
                    let n = t.exps.len();
                    let exps = prefix_vec(t.exps.as_slice(), n);
                    let ghost before = out@;
                    out.push(Term { exps, coef: t.coef * *c });
                    proof {
                        assert(t.exps@.subrange(0, n as int) =~= t.exps@);
                        lemma_key_add_empty(t.exps@);
                        lemma_prod_list_take(ap, cp, i as int);
                        assert(row_prods(ap[i as int], cp) =~= seq![(t.exps@, t.coef * *c)]);
                        assert(term_seq(before).len() == before.len());
                        assert(term_seq(out@).len() == out@.len());
                        assert forall|q: int| 0 <= q < i implies out@[q] == before[q] by {}
                        assert(term_seq(out@) =~= prod_list(ap.take(i + 1), cp)) by {
                            assert forall|q: int| 0 <= q < i + 1 implies term_seq(out@)[q] == prod_list(ap.take(i + 1), cp)[q] by {
                                if q < i {
                                    assert(term_seq(out@)[q] == term_view(before[q]));
                                }
                            }
                        }
                        assert forall|q: int| 0 <= q < i + 1 implies #[trigger] term_seq(out@)[q].0 == ap[q].0 by {
                            if q < i {
                                assert(term_seq(out@)[q] == term_view(before[q]));
                                assert(term_seq(before)[q].0 == ap[q].0);
                            }
                        }
                    }
                    i += 1;
                }
                proof {
                    assert(ap.take(as_@.len() as int) =~= ap);
                    assert forall|q1: int, q2: int| 0 <= q1 < pl.len() && 0 <= q2 < pl.len() && q1 != q2 implies pl[q1].0 != pl[q2].0 by {
                        assert(term_seq(out@)[q1].0 == ap[q1].0);
                        assert(term_seq(out@)[q2].0 == ap[q2].0);
                    }
                    assert forall|q: int| 0 <= q < pl.len() implies trimmed(#[trigger] pl[q].0) by {
                        assert(term_seq(out@)[q].0 == ap[q].0);
                    }
                    lemma_represents_refl(pl);
                }
                Axis::Var(out)
            },
            (Axis::Var(as_), Axis::Var(bs)) => {
                let mut acc: Vec<Term> = Vec::new();
                proof {
                    lemma_represents_empty();
                    assert(ap.take(0) =~= Seq::<Mono>::empty());
                    assert(term_seq(acc@) =~= Seq::<Mono>::empty());
                    lemma_prod_abs(ap, bp);
                    lemma_abs_nonneg(bp);
                }
                let mut i: usize = 0;
                while i < as_.len()
                    invariant
                        i <= as_@.len(),
                        ap == term_seq(as_@),
                        bp == term_seq(bs@),
                        all_trimmed(ap),
                        all_trimmed(bp),
                        exps_fit(ap, bp),
                        sum_of(ap, abs_fn()) * sum_of(bp, abs_fn()) <= isize::MAX,
                        sum_of(bp, abs_fn()) >= 0,
                        represents(term_seq(acc@), prod_list(ap.take(i as int), bp)),
                    decreases as_@.len() - i,
                {
                    let a = &as_[i];
                    proof {
                        assert(ap[i as int] == term_view(as_@[i as int]));
                        assert(row_prods(ap[i as int], bp.take(0)) =~= Seq::<Mono>::empty());
                        assert(prod_list(ap.take(i as int), bp) + row_prods(ap[i as int], bp.take(0)) =~= prod_list(ap.take(i as int), bp));
                    }
                    let mut j: usize = 0;
                    while j < bs.len()
                        invariant
                            i < as_@.len(),
                            j <= bs@.len(),
                            ap == term_seq(as_@),
                            bp == term_seq(bs@),
                            a == as_@[i as int],
                            all_trimmed(ap),
                            all_trimmed(bp),
                            exps_fit(ap, bp),
                            sum_of(ap, abs_fn()) * sum_of(bp, abs_fn()) <= isize::MAX,
                            sum_of(bp, abs_fn()) >= 0,
                            represents(term_seq(acc@), prod_list(ap.take(i as int), bp) + row_prods(ap[i as int], bp.take(j as int))),
                        decreases bs@.len() - j,
                    {
                        let b = &bs[j];
                        let ghost l = prod_list(ap.take(i as int), bp) + row_prods(ap[i as int], bp.take(j as int));
                        proof {
                            assert(bp[j as int] == term_view(bs@[j as int]));
                            assert(keys_fit(ap[i as int].0, bp[j as int].0));
                        }
                        let key = key_add_exec(&a.exps, &b.exps);
                        let ghost x = (key@, a.coef as int * b.coef as int);
                        proof {
                            // The new entry's coefficient and the running sums stay within the bound.
                            let la = sum_of(ap, abs_fn());
                            let lb = sum_of(bp, abs_fn());
                            lemma_abs_take(ap, i as int);
                            lemma_abs_take(ap, i + 1);
                            lemma_abs_take(bp, j + 1);
                            assert(ap.take(i + 1).drop_last() =~= ap.take(i as int));
                            lemma_prod_abs(ap.take(i as int), bp);
                            lemma_row_prods_take(ap[i as int], bp, j as int);
                            assert(l.push(x) =~= prod_list(ap.take(i as int), bp) + row_prods(ap[i as int], bp.take(j + 1)));
                            lemma_sum_of_concat(prod_list(ap.take(i as int), bp), row_prods(ap[i as int], bp.take(j + 1)), abs_fn());
                            crate::poly::lemma_row_abs(ap[i as int], bp.take(j + 1));
                            let lai = sum_of(ap.take(i as int), abs_fn());
                            let ta = abs(ap[i as int].1);
                            let lbj = sum_of(bp.take(j + 1), abs_fn());
                            assert(sum_of(ap.take(i + 1), abs_fn()) == lai + ta);
                            lemma_abs_nonneg(ap.take(i as int));
                            lemma_abs_nonneg(bp.take(j + 1));
                            assert(lai * lb + ta * lbj <= la * lb) by (nonlinear_arith)
                                requires lai + ta <= la, lbj <= lb, ta >= 0, lai >= 0, lbj >= 0;
                            lemma_coef_bounded_by_l1(l.push(x), key@);
                            lemma_sum_of_push(l, x, coef_fn(key@));
                            // The product of the two coefficients fits.
                            lemma_coef_bounded_by_l1(seq![x], key@);
                            lemma_sum_of_push(l, x, abs_fn());
                            lemma_abs_nonneg(l);
                            assert(abs(x.1) <= isize::MAX);
                            assert(trimmed(ap[i as int].0) && trimmed(bp[j as int].0));
                            lemma_key_add_trimmed(ap[i as int].0, bp[j as int].0);
                            assert(key@.subrange(0, key@.len() as int) =~= key@);
                        }
                        let c = a.coef * b.coef;
                        let ghost before = term_seq(acc@);
                        add_to_key(&mut acc, key.as_slice(), key.len(), c, false);
                        proof {
                            lemma_represents_step(before, term_seq(acc@), l, x);
                            lemma_row_prods_take(ap[i as int], bp, j as int);
                            assert(l.push(x) =~= prod_list(ap.take(i as int), bp) + row_prods(ap[i as int], bp.take(j + 1)));
                        }
                        j += 1;
                    }
                    proof {
                        assert(bp.take(bs@.len() as int) =~= bp);
                        lemma_prod_list_take(ap, bp, i as int);
                    }
                    i += 1;
                }
                proof {
                    assert(ap.take(as_@.len() as int) =~= ap);
                }
                Axis::Var(acc)
            },
        };
        proof {
            lemma_mul_facts(*self, *rhs, r);
        }
        r
    }
}

/// What the product's terms establish about it.
proof fn lemma_mul_facts(a: Axis, b: Axis, r: Axis)
    requires
        a.wf(),
        b.wf(),
        exps_fit(a.poly(), b.poly()),
        represents(r.poly(), prod_list(a.poly(), b.poly())),
        (r is Const) == (a is Const && b is Const),
    ensures
        a.multiplied(b, r),
{
    let pl = prod_list(a.poly(), b.poly());
    assert forall|env: spec_fn(nat) -> int| #[trigger] r.eval(env) == a.eval(env) * b.eval(env) by {
        lemma_prod_eval(a.poly(), b.poly(), env);
    }
    lemma_prod_abs(a.poly(), b.poly());
    assert forall|ma: int, mb: int| exps_bounded(a.poly(), ma) && exps_bounded(b.poly(), mb)
        implies #[trigger] exps_bounded(r.poly(), ma + mb) by {
        lemma_prod_list_bounded(a.poly(), b.poly(), ma, mb);
        let rp = r.poly();
        assert forall|i: int, p: int| 0 <= i < rp.len() implies #[trigger] get0(rp[i].0, p) <= ma + mb by {
            assert(keys_of(rp).contains(rp[i].0));
            assert(keys_of(pl).contains(rp[i].0));
            let q = choose|q: int| 0 <= q < pl.len() && pl[q].0 == rp[i].0;
            assert(get0(pl[q].0, p) <= ma + mb);
        }
    }
}

/// With small enough coefficient sums and addable exponents, two polynomials can be multiplied.
pub proof fn lemma_mul_req_from_l1(a: Axis, b: Axis)
    requires
        a.wf(),
        b.wf(),
        exps_fit(a.poly(), b.poly()),
        a.l1() * b.l1() <= isize::MAX,
    ensures
        a.can_mul(b),
{
    reveal_with_fuel(sum_of, 2);
    lemma_abs_nonneg(a.poly());
    lemma_abs_nonneg(b.poly());
    match (a, b) {
        (Axis::Const(l), Axis::Const(r)) => {
            assert(abs(l * r) == abs(l as int) * abs(r as int)) by (nonlinear_arith);
        },
        (Axis::Const(c), Axis::Var(_)) => {
            assert forall|j: int| 0 <= j < b.poly().len() implies in_isize(c * #[trigger] b.poly()[j].1) by {
                lemma_entry_le_l1(b.poly(), j);
                let x = b.poly()[j].1;
                assert(abs(c * x) == abs(c as int) * abs(x)) by (nonlinear_arith);
                assert(abs(c as int) * abs(x) <= abs(c as int) * b.l1()) by (nonlinear_arith)
                    requires abs(x) <= b.l1(), abs(c as int) >= 0;
            }
        },
        (Axis::Var(_), Axis::Const(c)) => {
            assert forall|i: int| 0 <= i < a.poly().len() implies in_isize(#[trigger] a.poly()[i].1 * c) by {
                lemma_entry_le_l1(a.poly(), i);
                let x = a.poly()[i].1;
                assert(abs(x * c) == abs(x) * abs(c as int)) by (nonlinear_arith);
                assert(abs(x) * abs(c as int) <= a.l1() * abs(c as int)) by (nonlinear_arith)
                    requires abs(x) <= a.l1(), abs(c as int) >= 0;
            }
        },
        (Axis::Var(_), Axis::Var(_)) => {},
    }
}

impl Axis {
    /// Arguments that `pow` accepts: powers of the coefficient sum and of the exponents
    /// stay in range.
    pub open spec fn pow_req(self, n: nat) -> bool {
        &&& self.wf()
        &&& pow(self.l1(), n) <= isize::MAX
        &&& n * max_exp(self.poly()) <= usize::MAX
    }

    /// `self` raised to the power `n`, by repeated multiplication starting from 1.
    pub fn pow(&self, n: usize) -> (r: Axis)
        requires
            self.pow_req(n as nat),
        ensures
            r.wf(),
            forall|env: spec_fn(nat) -> int| #[trigger] r.eval(env) == pow(self.eval(env), n as nat),
            r.l1() <= pow(self.l1(), n as nat),
            exps_bounded(r.poly(), n * max_exp(self.poly())),
            (r is Const) == (n == 0 || self is Const),
    {
        let ghost m = max_exp(self.poly()) as int;
        let ghost l = self.l1();
        let mut acc = Axis::Const(1);
        proof {
            reveal_with_fuel(sum_of, 2);
            lemma_max_exp(self.poly());
            lemma_abs_nonneg(self.poly());
            reveal(pow);
            assert forall|env: spec_fn(nat) -> int| #[trigger] acc.eval(env) == pow(self.eval(env), 0) by {
                assert(mono(Seq::<usize>::empty(), env) == 1);
            }
            assert(acc.l1() == 1);
            assert(exps_bounded(acc.poly(), 0)) by {
                assert forall|i: int, p: int| 0 <= i < acc.poly().len() implies #[trigger] get0(acc.poly()[i].0, p) <= 0 by {}
            }
        }
        let mut k: usize = 0;
        while k < n
            invariant
                k <= n,
                self.pow_req(n as nat),
                m == max_exp(self.poly()) as int,
                l == self.l1(),
                l >= 0,
                exps_bounded(self.poly(), m),
                acc.wf(),
                forall|env: spec_fn(nat) -> int| #[trigger] acc.eval(env) == pow(self.eval(env), k as nat),
                acc.l1() <= pow(l, k as nat),
                exps_bounded(acc.poly(), k * m),
                (acc is Const) == (k == 0 || self is Const),
            decreases n - k,
        {
            proof {
                lemma_abs_nonneg(acc.poly());
                assert(k * m + m <= n * m) by (nonlinear_arith)
                    requires k < n, m >= 0;
                lemma_exps_fit_from_bounds(acc.poly(), self.poly(), k * m, m);
                // The coefficient sums multiply within range.
                reveal(pow);
                assert(pow(l, (k + 1) as nat) == l * pow(l, k as nat));
                let pk = pow(l, k as nat);
                let a1 = acc.l1();
                assert(a1 * l <= pk * l) by (nonlinear_arith)
                    requires a1 <= pk, l >= 0;
                assert(pk * l == l * pk) by (nonlinear_arith);
                if l > 0 {
                    lemma_pow_increases(l as nat, (k + 1) as nat, n as nat);
                } else {
                    assert(l * pk == 0) by (nonlinear_arith) requires l == 0;
                }
                assert(a1 * l <= isize::MAX);
                lemma_mul_req_from_l1(acc, *self);
            }
            let next = acc.times(self);
            proof {
                reveal(pow);
                assert forall|env: spec_fn(nat) -> int| #[trigger] next.eval(env) == pow(self.eval(env), (k + 1) as nat) by {
                    assert(next.eval(env) == acc.eval(env) * self.eval(env));
                    assert(pow(self.eval(env), (k + 1) as nat) == self.eval(env) * pow(self.eval(env), k as nat));
                }
                assert(next.l1() <= pow(l, (k + 1) as nat));
                assert((k + 1) * m == k * m + m) by (nonlinear_arith);
                assert(exps_bounded(next.poly(), k * m + m));
            }
            acc = next;
            k += 1;
        }
        acc
    }
}

/// The product of the values of the lengths.
pub open spec fn eval_product(s: Seq<Axis>, env: spec_fn(nat) -> int) -> int
    decreases s.len(),
{
    if s.len() == 0 { 1 } else { eval_product(s.drop_last(), env) * s.last().eval(env) }
}

/// The product of the coefficient sums of the lengths.
pub open spec fn l1_product(s: Seq<Axis>) -> int
    decreases s.len(),
{
    if s.len() == 0 { 1 } else { l1_product(s.drop_last()) * s.last().l1() }
}

/// The sum of the largest exponents of the lengths.
pub open spec fn exp_total(s: Seq<Axis>) -> int
    decreases s.len(),
{
    if s.len() == 0 { 0 } else { exp_total(s.drop_last()) + max_exp(s.last().poly()) }
}

/// Lengths whose product can be formed in order: well formed, with the coefficient sums
/// of every partial product and the exponents within range.
pub open spec fn product_req(s: Seq<Axis>) -> bool {
    &&& forall|i: int| 0 <= i < s.len() ==> (#[trigger] s[i]).wf()
    &&& forall|k: int| 0 <= k <= s.len() ==> #[trigger] l1_product(s.take(k)) <= isize::MAX
    &&& exp_total(s) <= usize::MAX
}

proof fn lemma_exp_total_prefix(s: Seq<Axis>, k: int)
    requires
        0 <= k <= s.len(),
    ensures
        0 <= exp_total(s.take(k)) <= exp_total(s),
    decreases s.len(),
{
    if k < s.len() {
        assert(s.drop_last().take(k) =~= s.take(k));
        lemma_exp_total_prefix(s.drop_last(), k);
    } else {
        assert(s.take(k) =~= s);
    }
    if s.len() > 0 {
        lemma_exp_total_prefix(s.drop_last(), s.len() - 1);
        assert(s.drop_last().take(s.len() - 1) =~= s.drop_last());
    }
}

/// One more factor of a product formed in order: the product so far, `acc`, times `x`
/// stays within range and keeps the value, coefficient-sum and exponent bounds.
proof fn lemma_product_step(s: Seq<Axis>, k: int, acc: Axis)
    requires
        product_req(s),
        0 <= k < s.len(),
        acc.wf(),
        acc.l1() <= l1_product(s.take(k)),
        exps_bounded(acc.poly(), exp_total(s.take(k))),
    ensures
        acc.can_mul(s[k]),
        forall|r: Axis| #[trigger] acc.multiplied(s[k], r) ==> r.l1() <= l1_product(s.take(k + 1))
            && exps_bounded(r.poly(), exp_total(s.take(k + 1))),
{
    let x = s[k];
    assert(s.take(k + 1).drop_last() =~= s.take(k));
    assert(s.take(k + 1).last() == x);
    assert(x.wf());
    lemma_abs_nonneg(acc.poly());
    lemma_abs_nonneg(x.poly());
    lemma_max_exp(x.poly());
    lemma_exp_total_prefix(s, k);
    lemma_exp_total_prefix(s, k + 1);
    lemma_exps_fit_from_bounds(acc.poly(), x.poly(), exp_total(s.take(k)), max_exp(x.poly()) as int);
    let pk = l1_product(s.take(k));
    let a1 = acc.l1();
    let l = x.l1();
    assert(a1 * l <= pk * l) by (nonlinear_arith)
        requires a1 <= pk, l >= 0;
    assert(l1_product(s.take(k + 1)) == pk * l);
    assert(l1_product(s.take(k + 1)) <= isize::MAX);
    lemma_mul_req_from_l1(acc, x);
}

impl Axis {
    /// The product of the lengths, multiplied in order starting from 1.
    pub fn product_of(axes: &[Axis]) -> (r: Axis)
        requires
            product_req(axes@),
        ensures
            r.wf(),
            forall|env: spec_fn(nat) -> int| #[trigger] r.eval(env) == eval_product(axes@, env),
            (r is Const) == (forall|i: int| 0 <= i < axes@.len() ==> (#[trigger] axes@[i]) is Const),
    {
        let ghost s = axes@;
        let mut acc = Axis::Const(1);
        proof {
            reveal_with_fuel(sum_of, 2);
            assert(s.take(0) =~= Seq::<Axis>::empty());
            assert forall|env: spec_fn(nat) -> int| #[trigger] acc.eval(env) == eval_product(s.take(0), env) by {
                assert(mono(Seq::<usize>::empty(), env) == 1);
            }
            assert(acc.l1() == 1);
            assert(exps_bounded(acc.poly(), 0)) by {
                assert forall|i: int, p: int| 0 <= i < acc.poly().len() implies #[trigger] get0(acc.poly()[i].0, p) <= 0 by {}
            }
        }
        let mut k: usize = 0;
        while k < axes.len()
            invariant
                s == axes@,
                k <= s.len(),
                product_req(s),
                acc.wf(),
                forall|env: spec_fn(nat) -> int| #[trigger] acc.eval(env) == eval_product(s.take(k as int), env),
                acc.l1() <= l1_product(s.take(k as int)),
                exps_bounded(acc.poly(), exp_total(s.take(k as int))),
                (acc is Const) == (forall|i: int| 0 <= i < k ==> (#[trigger] s[i]) is Const),
            decreases s.len() - k,
        {
            proof {
                lemma_product_step(s, k as int, acc);
            }
            let next = acc.times(&axes[k]);
            proof {
                assert(s.take(k + 1).drop_last() =~= s.take(k as int));
                assert forall|env: spec_fn(nat) -> int| #[trigger] next.eval(env) == eval_product(s.take(k + 1), env) by {
                    assert(next.eval(env) == acc.eval(env) * s[k as int].eval(env));
                }
            }
            acc = next;
            k += 1;
        }
        proof {
            assert(s.take(s.len() as int) =~= s);
        }
        acc
    }

    /// The product of the lengths: the first one multiplied by each of the others in
    /// order, or 1 for none.
    pub fn product(axes: Vec<Axis>) -> (r: Axis)
        requires
            product_req(axes@),
        ensures
            r.wf(),
            forall|env: spec_fn(nat) -> int| #[trigger] r.eval(env) == eval_product(axes@, env),
            (r is Const) == (forall|i: int| 0 <= i < axes@.len() ==> (#[trigger] axes@[i]) is Const),
            axes@.len() == 1 ==> r == axes@[0],
    {
        let ghost s = axes@;
        if axes.len() == 0 {
            proof {
                reveal_with_fuel(sum_of, 2);
                assert forall|env: spec_fn(nat) -> int| #[trigger] Axis::Const(1).eval(env) == eval_product(s, env) by {
                    assert(mono(Seq::<usize>::empty(), env) == 1);
                }
            }
            return Axis::Const(1);
        }
        let mut rest = axes;
        let mut acc = rest.remove(0);
        proof {
            reveal_with_fuel(sum_of, 2);
            assert(s.take(1).drop_last() =~= Seq::<Axis>::empty());
            assert(s.take(1).last() == acc);
            assert(acc.wf());
            lemma_abs_nonneg(acc.poly());
            lemma_max_exp(acc.poly());
            assert(l1_product(Seq::<Axis>::empty()) == 1);
            assert(exp_total(Seq::<Axis>::empty()) == 0);
            assert(eval_product(s.take(1).drop_last(), |i: nat| 0int) == 1);
            assert(l1_product(s.take(1)) == 1 * acc.l1());
            assert(1 * acc.l1() == acc.l1()) by (nonlinear_arith);
            assert(exp_total(s.take(1)) == 0 + max_exp(acc.poly()));
            assert forall|env: spec_fn(nat) -> int| #[trigger] acc.eval(env) == eval_product(s.take(1), env) by {
                assert(eval_product(Seq::<Axis>::empty(), env) == 1);
                assert(eval_product(s.take(1), env) == 1 * acc.eval(env));
                assert(1 * acc.eval(env) == acc.eval(env)) by (nonlinear_arith);
            }
        }
        let mut k: usize = 1;
        while rest.len() > 0
            invariant
                1 <= k <= s.len(),
                s.len() <= usize::MAX,
                rest@ == s.subrange(k as int, s.len() as int),
                product_req(s),
                acc.wf(),
                forall|env: spec_fn(nat) -> int| #[trigger] acc.eval(env) == eval_product(s.take(k as int), env),
                acc.l1() <= l1_product(s.take(k as int)),
                exps_bounded(acc.poly(), exp_total(s.take(k as int))),
                (acc is Const) == (forall|i: int| 0 <= i < k ==> (#[trigger] s[i]) is Const),
                k == 1 ==> acc == s[0],
            decreases rest@.len(),
        {
            let x = rest.remove(0);
            proof {
                assert(x == s[k as int]);
                assert(rest@ =~= s.subrange(k + 1, s.len() as int));
                lemma_product_step(s, k as int, acc);
            }
            let next = acc.times(&x);
            proof {
                assert(s.take(k + 1).drop_last() =~= s.take(k as int));
                assert forall|env: spec_fn(nat) -> int| #[trigger] next.eval(env) == eval_product(s.take(k + 1), env) by {
                    assert(next.eval(env) == acc.eval(env) * s[k as int].eval(env));
                }
            }
            acc = next;
            k += 1;
        }
        proof {
            assert(s.take(s.len() as int) =~= s);
        }
        acc
    }
}

/// Why a substitution was refused.
#[derive(Clone, Copy, Debug, PartialEq, Eq, Structural)]
pub enum SubstError {
    /// Some variable that the polynomial uses has no replacement.
    NotEnoughVariables,
}

/// The value of variable `i` after substitution: the value of its replacement.
pub open spec fn subst_env(substs: Map<usize, Axis>, env: spec_fn(nat) -> int) -> spec_fn(nat) -> int {
    |i: nat| if i <= usize::MAX && substs.contains_key(i as usize) { substs[i as usize].eval(env) } else { 0 }
}

/// For each variable, the coefficient sum of its replacement, at least 1.
pub open spec fn l1max_env(substs: Map<usize, Axis>) -> spec_fn(nat) -> int {
    |i: nat| if i <= usize::MAX && substs.contains_key(i as usize) && substs[i as usize].l1() > 1 {
        substs[i as usize].l1()
    } else {
        1
    }
}

/// A bound on the coefficient sums met while substituting into one term.
pub open spec fn subst_cost_fn(substs: Map<usize, Axis>) -> spec_fn(Mono) -> int {
    |t: Mono| (if abs(t.1) > 1 { abs(t.1) } else { 1 }) * mono(t.0, l1max_env(substs))
}

/// The largest exponent in the replacement of variable `i`.
pub open spec fn subst_max_exp(substs: Map<usize, Axis>, i: int) -> int {
    if 0 <= i <= usize::MAX && substs.contains_key(i as usize) { max_exp(substs[i as usize].poly()) as int } else { 0 }
}

/// A bound on the exponents met while substituting the first `n` variables of `k`.
pub open spec fn exp_cost_n(k: Seq<usize>, n: nat, substs: Map<usize, Axis>) -> int
    decreases n,
{
    if n == 0 { 0 } else { exp_cost_n(k, (n - 1) as nat, substs) + get0(k, n - 1) * subst_max_exp(substs, n - 1) }
}

pub open spec fn substs_wf(substs: Map<usize, Axis>) -> bool {
    forall|i: usize| substs.contains_key(i) ==> #[trigger] substs[i].wf()
}

pub(crate) proof fn lemma_exp_cost_grows(k: Seq<usize>, p: nat, n: nat, substs: Map<usize, Axis>)
    requires
        p <= n,
    ensures
        0 <= exp_cost_n(k, p, substs) <= exp_cost_n(k, n, substs),
    decreases n,
{
    if n > 0 {
        let e = get0(k, n - 1);
        let m = subst_max_exp(substs, n - 1);
        assert(e >= 0) by {
            if 0 <= n - 1 < k.len() {}
        }
        assert(e * m >= 0) by (nonlinear_arith) requires e >= 0, m >= 0;
        if p < n {
            lemma_exp_cost_grows(k, p, (n - 1) as nat, substs);
        } else {
            lemma_exp_cost_grows(k, 0, (n - 1) as nat, substs);
        }
    }
}

pub(crate) proof fn lemma_l1max_env_ge1(substs: Map<usize, Axis>)
    ensures
        forall|i: nat| #[trigger] l1max_env(substs)(i) >= 1,
{
}

pub(crate) proof fn lemma_subst_cost_nonneg(substs: Map<usize, Axis>)
    ensures
        forall|t: Mono| #[trigger] subst_cost_fn(substs)(t) >= 0,
{
    assert forall|t: Mono| #[trigger] subst_cost_fn(substs)(t) >= 0 by {
        lemma_l1max_env_ge1(substs);
        lemma_mono_n_grows(t.0, 0, t.0.len(), l1max_env(substs));
        lemma_mono_is_mono_n(t.0, l1max_env(substs));
        let a = if abs(t.1) > 1 { abs(t.1) } else { 1 };
        let m = mono(t.0, l1max_env(substs));
        assert(a * m >= 0) by (nonlinear_arith) requires a >= 1, m >= 1;
    }
}

/// The product of the replacements of the variables of one term, each raised to its exponent.
fn term_product(exps: &Vec<usize>, substs: &HashMap<usize, Axis>) -> (r: Axis)
    requires
        forall|q: usize| q < exps@.len() ==> #[trigger] substs@.contains_key(q),
        substs_wf(substs@),
        mono(exps@, l1max_env(substs@)) <= isize::MAX,
        exp_cost_n(exps@, exps@.len(), substs@) <= usize::MAX,
    ensures
        r.wf(),
        forall|env: spec_fn(nat) -> int| #[trigger] r.eval(env) == mono(exps@, subst_env(substs@, env)),
        r.l1() <= mono(exps@, l1max_env(substs@)),
        exps_bounded(r.poly(), exp_cost_n(exps@, exps@.len(), substs@)),
{
    broadcast use vstd::std_specs::hash::group_hash_axioms;
    let ghost k = exps@;
    let ghost lenv = l1max_env(substs@);
    let mut acc: Option<Axis> = None;
    let mut p: usize = 0;
    proof {
        lemma_l1max_env_ge1(substs@);
        lemma_mono_is_mono_n(k, lenv);
        lemma_mono_n_grows(k, 0, k.len(), lenv);
        lemma_exp_cost_grows(k, 0, k.len(), substs@);
    }
    while p < exps.len()
        invariant
            p <= exps@.len(),
            k == exps@,
            lenv == l1max_env(substs@),
            forall|i: nat| #[trigger] lenv(i) >= 1,
            forall|q: usize| q < exps@.len() ==> #[trigger] substs@.contains_key(q),
            substs_wf(substs@),
            mono_n(k, k.len(), lenv) <= isize::MAX,
            exp_cost_n(k, k.len(), substs@) <= usize::MAX,
            acc is None ==> forall|q: int| 0 <= q < p ==> get0(k, q) == 0,
            acc is Some ==> {
                let a = acc->Some_0;
                &&& a.wf()
                &&& forall|env: spec_fn(nat) -> int| #[trigger] a.eval(env) == mono_n(k, p as nat, subst_env(substs@, env))
                &&& a.l1() <= mono_n(k, p as nat, lenv)
                &&& exps_bounded(a.poly(), exp_cost_n(k, p as nat, substs@))
            },
        decreases exps@.len() - p,
    {
        let e = exps[p];
        if e != 0 {
            let s = match substs.get(&p) {
                Some(s) => s,
                None => {
                    proof {
                        assert(substs@.contains_key(p));
                    }
                    return Axis::Const(1);
                },
            };
            proof {
                assert(substs@.contains_key(p) && substs@[p] == *s);
                assert(s.wf());
                let lp = s.l1();
                lemma_abs_nonneg(s.poly());
                let bp = lenv(p as nat);
                assert(bp >= lp);
                lemma_pow_base_mono(lp, bp, e as nat);
                lemma_mono_n_grows(k, p as nat, (p + 1) as nat, lenv);
                lemma_mono_n_grows(k, (p + 1) as nat, k.len(), lenv);
                lemma_mono_n_grows(k, 0, p as nat, lenv);
                assert(get0(k, p as int) == e);
                let mp = mono_n(k, p as nat, lenv);
                let q = pow(bp, e as nat);
                assert(q <= mp * q) by (nonlinear_arith) requires mp >= 1, q >= 0;
                lemma_exp_cost_grows(k, (p + 1) as nat, k.len(), substs@);
                lemma_exp_cost_grows(k, 0, p as nat, substs@);
                assert(subst_max_exp(substs@, p as int) == max_exp(s.poly()));
            }
            let f = s.pow(e);
            acc = match acc {
                None => {
                    proof {
                        lemma_mono_n_all_zero(k, p as nat, lenv);
                        assert forall|env: spec_fn(nat) -> int| #[trigger] f.eval(env) == mono_n(k, (p + 1) as nat, subst_env(substs@, env)) by {
                            lemma_mono_n_all_zero(k, p as nat, subst_env(substs@, env));
                            assert(subst_env(substs@, env)(p as nat) == s.eval(env));
                        }
                        lemma_mono_n_all_zero(k, p as nat, lenv);
                        assert(mono_n(k, p as nat, lenv) == 1);
                        assert(get0(k, p as int) == e as int);
                        assert(mono_n(k, (p + 1) as nat, lenv) == mono_n(k, p as nat, lenv) * pow(lenv(p as nat), e as nat));
                        let m0 = mono_n(k, p as nat, lenv);
                        let pw = pow(lenv(p as nat), e as nat);
                        assert(m0 * pw == pw) by (nonlinear_arith) requires m0 == 1;
                        assert(mono_n(k, (p + 1) as nat, lenv) == pow(lenv(p as nat), e as nat));
                        assert(exp_cost_n(k, (p + 1) as nat, substs@) == exp_cost_n(k, p as nat, substs@) + e * max_exp(s.poly()));
                        assert(exp_cost_n(k, p as nat, substs@) >= 0) by {
                            lemma_exp_cost_grows(k, 0, p as nat, substs@);
                        }
                        assert(exps_bounded(f.poly(), exp_cost_n(k, (p + 1) as nat, substs@))) by {
                            lemma_exps_bounded_weaken(f.poly(), e * max_exp(s.poly()), exp_cost_n(k, (p + 1) as nat, substs@));
                        }
                    }
                    Some(f)
                },
                Some(a) => {
                    proof {
                        let lp = s.l1();
                        let bp = lenv(p as nat);
                        let mp = mono_n(k, p as nat, lenv);
                        let q = pow(bp, e as nat);
                        lemma_abs_nonneg(a.poly());
                        lemma_abs_nonneg(f.poly());
                        let la = a.l1();
                        let lf = f.l1();
                        assert(la * lf <= mp * q) by (nonlinear_arith)
                            requires 0 <= la <= mp, 0 <= lf <= q;
                        let ca = exp_cost_n(k, p as nat, substs@);
                        lemma_exp_cost_grows(k, 0, p as nat, substs@);
                        lemma_exps_fit_from_bounds(a.poly(), f.poly(), ca, e * max_exp(s.poly()));
                        lemma_mul_req_from_l1(a, f);
                    }
                    let next = a.times(&f);
                    proof {
                        assert forall|env: spec_fn(nat) -> int| #[trigger] next.eval(env) == mono_n(k, (p + 1) as nat, subst_env(substs@, env)) by {
                            assert(subst_env(substs@, env)(p as nat) == s.eval(env));
                            assert(next.eval(env) == a.eval(env) * f.eval(env));
                        }
                        lemma_abs_nonneg(f.poly());
                        let lf = f.l1();
                        let la = a.l1();
                        let mp = mono_n(k, p as nat, lenv);
                        let q = pow(lenv(p as nat), e as nat);
                        assert(la * lf <= mp * q) by (nonlinear_arith)
                            requires 0 <= la <= mp, 0 <= lf <= q;
                        assert(mono_n(k, (p + 1) as nat, lenv) == mp * q);
                        assert(exp_cost_n(k, (p + 1) as nat, substs@) == exp_cost_n(k, p as nat, substs@) + e * max_exp(s.poly()));
                    }
                    Some(next)
                },
            };
        } else {
            proof {
                lemma_pow0(lenv(p as nat));
                assert(get0(k, p as int) == 0);
                if acc is None {
                    assert forall|q: int| 0 <= q < p + 1 implies get0(k, q) == 0 by {}
                }
                if acc is Some {
                    let a = acc->Some_0;
                    assert forall|env: spec_fn(nat) -> int| #[trigger] a.eval(env) == mono_n(k, (p + 1) as nat, subst_env(substs@, env)) by {
                        lemma_pow0(subst_env(substs@, env)(p as nat));
                    }
                    let m0 = mono_n(k, p as nat, lenv);
                    assert(pow(lenv(p as nat), get0(k, p as int) as nat) == 1);
                    assert(mono_n(k, (p + 1) as nat, lenv) == m0 * pow(lenv(p as nat), get0(k, p as int) as nat));
                    assert(m0 * 1 == m0) by (nonlinear_arith);
                    assert(mono_n(k, (p + 1) as nat, lenv) == mono_n(k, p as nat, lenv));
                    let g0 = get0(k, p as int);
                    let sm = subst_max_exp(substs@, p as int);
                    assert(g0 * sm == 0) by (nonlinear_arith) requires g0 == 0;
                    assert(exp_cost_n(k, (p + 1) as nat, substs@) == exp_cost_n(k, p as nat, substs@));
                }
            }
        }
        p += 1;
    }
    let r = match acc {
        Some(a) => a,
        None => Axis::Const(1),
    };
    proof {
        reveal_with_fuel(sum_of, 2);
        lemma_mono_is_mono_n(k, lenv);
        assert forall|env: spec_fn(nat) -> int| #[trigger] r.eval(env) == mono(exps@, subst_env(substs@, env)) by {
            lemma_mono_is_mono_n(k, subst_env(substs@, env));
            if acc is None {
                lemma_mono_n_all_zero(k, k.len(), subst_env(substs@, env));
                assert(mono(Seq::<usize>::empty(), env) == 1);
            }
        }
        if acc is None {
            lemma_mono_n_all_zero(k, k.len(), lenv);
            assert(exps_bounded(r.poly(), exp_cost_n(k, k.len(), substs@))) by {
                lemma_exp_cost_grows(k, 0, k.len(), substs@);
                assert forall|i: int, q: int| 0 <= i < r.poly().len() implies #[trigger] get0(r.poly()[i].0, q) <= exp_cost_n(k, k.len(), substs@) by {}
            }
        }
    }
    r
}

pub proof fn lemma_max_key_len(ts: Seq<Mono>)
    ensures
        forall|j: int| 0 <= j < ts.len() ==> #[trigger] ts[j].0.len() <= max_key_len(ts),
    decreases ts.len(),
{
    if ts.len() > 0 {
        let d = ts.drop_last();
        lemma_max_key_len(d);
        assert forall|j: int| 0 <= j < ts.len() implies #[trigger] ts[j].0.len() <= max_key_len(ts) by {
            if j < d.len() {
                assert(d[j] == ts[j]);
            }
        }
    }
}

impl Axis {
    /// Arguments that `substitute` accepts: replacements are well formed, and the
    /// coefficient sums and exponents met along the way stay in range.
    pub open spec fn subst_req(self, substs: Map<usize, Axis>) -> bool {
        &&& self.wf()
        &&& substs_wf(substs)
        &&& sum_of(self.poly(), subst_cost_fn(substs)) <= isize::MAX
        &&& forall|j: int| 0 <= j < self.poly().len()
            ==> exp_cost_n(#[trigger] self.poly()[j].0, self.poly()[j].0.len(), substs) <= usize::MAX
    }

    /// Some variable that the stored terms use has no replacement.
    pub open spec fn missing_var(self, substs: Map<usize, Axis>) -> bool {
        exists|i: usize| i < self.spec_to_nvars() && !substs.contains_key(i)
    }

    /// Given pairs of variable indices and Axis instances, return the result of substituting
    /// each Axis as the given variable. Requires a substitution to be provided for every
    /// variable, erroring if insufficient substitutions are provided.
    pub fn substitute(&self, substs: &HashMap<usize, Axis>) -> (r: Result<Axis, SubstError>)
        requires
            self.subst_req(substs@),
        ensures
            r is Err <==> self.missing_var(substs@),
            r is Ok ==> r->Ok_0.wf(),
            r is Ok ==> forall|env: spec_fn(nat) -> int| #[trigger] r->Ok_0.eval(env)
                == self.eval(subst_env(substs@, env)),
            r is Ok && self is Const ==> r->Ok_0.poly() == self.poly() && r->Ok_0 is Const,
    {
        broadcast use vstd::std_specs::hash::group_hash_axioms;
        let n = self.to_nvars();
        let mut i: usize = 0;
        while i < n
            invariant
                i <= n,
                n == self.spec_to_nvars(),
                forall|q: usize| q < i ==> #[trigger] substs@.contains_key(q),
            decreases n - i,
        {
            if !substs.contains_key(&i) {
                return Err(SubstError::NotEnoughVariables);
            }
            i += 1;
        }
        match self {
            Axis::Const(_) => {
                let r = self.clone();
                proof {
                    reveal_with_fuel(sum_of, 2);
                }
                Ok(r)
            },
            Axis::Var(ts) => {
                let ghost pp = term_seq(ts@);
                let ghost total = sum_of(pp, subst_cost_fn(substs@));
                proof {
                    lemma_max_key_len(pp);
                    lemma_subst_cost_nonneg(substs@);
                    lemma_l1max_env_ge1(substs@);
                }
                let mut acc: Option<Axis> = None;
                let mut j: usize = 0;
                while j < ts.len()
                    invariant
                        j <= ts@.len(),
                        pp == term_seq(ts@),
                        pp == self.poly(),
                        self.subst_req(substs@),
                        total == sum_of(pp, subst_cost_fn(substs@)),
                        forall|q: usize| q < self.spec_to_nvars() ==> #[trigger] substs@.contains_key(q),
                        self.spec_to_nvars() == max_key_len(pp),
                        forall|q: int| 0 <= q < pp.len() ==> #[trigger] pp[q].0.len() <= max_key_len(pp),
                        forall|t: Mono| #[trigger] subst_cost_fn(substs@)(t) >= 0,
                        forall|x: nat| #[trigger] l1max_env(substs@)(x) >= 1,
                        acc is None <==> j == 0,
                        acc is Some ==> {
                            let a = acc->Some_0;
                            &&& a.wf()
                            &&& forall|env: spec_fn(nat) -> int| #[trigger] a.eval(env)
                                == sum_of(pp.take(j as int), eval_fn(subst_env(substs@, env)))
                            &&& a.l1() <= sum_of(pp.take(j as int), subst_cost_fn(substs@))
                        },
                    decreases ts@.len() - j,
                {
                    let t = &ts[j];
                    let ghost tv = pp[j as int];
                    let ghost lenv = l1max_env(substs@);
                    proof {
                        assert(tv == term_view(ts@[j as int]));
                        assert(t.exps@.len() <= max_key_len(pp));
                        assert forall|q: usize| q < t.exps@.len() implies #[trigger] substs@.contains_key(q) by {}
                        lemma_mono_n_grows(tv.0, 0, tv.0.len(), lenv);
                        lemma_mono_is_mono_n(tv.0, lenv);
                        let m = mono(tv.0, lenv);
                        let c1 = if abs(tv.1) > 1 { abs(tv.1) } else { 1 };
                        assert(m <= c1 * m) by (nonlinear_arith) requires c1 >= 1, m >= 1;
                        lemma_sum_take_nonneg(pp, j + 1, subst_cost_fn(substs@));
                        lemma_sum_take_nonneg(pp, j as int, subst_cost_fn(substs@));
                        assert(pp.take(j + 1) == pp.take(j as int).push(tv)) by {
                            assert(pp.take(j + 1) =~= pp.take(j as int).push(tv));
                        }
                        lemma_sum_of_push(pp.take(j as int), tv, subst_cost_fn(substs@));
                        assert(exp_cost_n(pp[j as int].0, pp[j as int].0.len(), substs@) <= usize::MAX);
                    }
                    let tp = term_product(&t.exps, substs);
                    let cx = Axis::Const(t.coef);
                    proof {
                        reveal_with_fuel(sum_of, 2);
                        lemma_abs_nonneg(tp.poly());
                        let m = mono(tv.0, lenv);
                        let c1 = if abs(tv.1) > 1 { abs(tv.1) } else { 1 };
                        let lt = tp.l1();
                        assert(abs(tv.1) * lt <= c1 * m) by (nonlinear_arith)
                            requires 0 <= lt <= m, abs(tv.1) <= c1, 0 <= abs(tv.1);
                        assert(cx.l1() == abs(tv.1));
                        assert(exps_bounded(cx.poly(), 0)) by {
                            assert forall|a: int, b: int| 0 <= a < cx.poly().len() implies #[trigger] get0(cx.poly()[a].0, b) <= 0 by {}
                        }
                        lemma_exp_cost_grows(tv.0, 0, tv.0.len(), substs@);
                        lemma_exps_fit_from_bounds(cx.poly(), tp.poly(), 0, exp_cost_n(tv.0, tv.0.len(), substs@));
                        lemma_mul_req_from_l1(cx, tp);
                    }
                    let x = cx.times(&tp);
                    proof {
                        reveal_with_fuel(sum_of, 2);
                        assert forall|env: spec_fn(nat) -> int| #[trigger] x.eval(env) == eval_fn(subst_env(substs@, env))(tv) by {
                            assert(x.eval(env) == cx.eval(env) * tp.eval(env));
                            assert(mono(Seq::<usize>::empty(), env) == 1);
                            assert(cx.eval(env) == tv.1 * 1);
                        }
                    }
                    let next = match acc {
                        None => {
                            proof {
                                assert(pp.take(1) =~= seq![tv]);
                                assert forall|env: spec_fn(nat) -> int| #[trigger] x.eval(env)
                                    == sum_of(pp.take(1), eval_fn(subst_env(substs@, env))) by {
                                    reveal_with_fuel(sum_of, 2);
                                }
                                reveal_with_fuel(sum_of, 2);
                            }
                            x
                        },
                        Some(a) => {
                            proof {
                                lemma_abs_nonneg(a.poly());
                                lemma_abs_nonneg(x.poly());
                                assert forall|e: Seq<usize>| in_isize(#[trigger] a.coef(e) + sgn(x.coef(e), false)) by {
                                    lemma_coef_bounded_by_l1(a.poly(), e);
                                    lemma_coef_bounded_by_l1(x.poly(), e);
                                }
                            }
                            let s2 = a.combine(&x, false);
                            proof {
                                assert forall|env: spec_fn(nat) -> int| #[trigger] s2.eval(env)
                                    == sum_of(pp.take(j + 1), eval_fn(subst_env(substs@, env))) by {
                                    lemma_sum_of_push(pp.take(j as int), tv, eval_fn(subst_env(substs@, env)));
                                    assert(s2.eval(env) == a.eval(env) + x.eval(env));
                                }
                            }
                            s2
                        },
                    };
                    acc = Some(next);
                    j += 1;
                }
                proof {
                    assert(pp.take(ts@.len() as int) =~= pp);
                }
                let r = match acc {
                    Some(a) => a,
                    None => Axis::Const(0),
                };
                proof {
                    reveal_with_fuel(sum_of, 2);
                    if ts@.len() == 0 {
                        assert forall|env: spec_fn(nat) -> int| #[trigger] r.eval(env) == self.eval(subst_env(substs@, env)) by {
                            assert(mono(Seq::<usize>::empty(), env) == 1);
                        }
                    }
                    assert(!self.missing_var(substs@));
                }
                Ok(r)
            },
        }
    }
}

impl Axis {
    /// Get a mutable reference to the coefficient of the term corresponding to the given
    /// set of exponents. A constant becomes a general polynomial (keeping a nonzero value
    /// as its constant term) when the exponents name a variable; a missing term is
    /// created with coefficient 0.
    pub fn term_mut(&mut self, exps: &[usize]) -> (r: &mut isize)
        requires
            old(self).wf(),
        ensures
            *r == old(self).coef(trim(exps@)),
            final(self).wf(),
            forall|e: Seq<usize>| #[trigger] final(self).coef(e)
                == if e == trim(exps@) { *final(r) as int } else { old(self).coef(e) },
            ((*final(self)) is Const) == ((*old(self)) is Const && trim(exps@).len() == 0),
            (*final(self)) is Var ==> final(self).keys() == old(self).var_keys().insert(trim(exps@)),
    {
        let n = trimmed_len(exps);
        proof {
            lemma_trim_trimmed(exps@);
        }
        if n > 0 {
            if let Axis::Const(v) = *self {
                let mut ts: Vec<Term> = Vec::new();
                if v != 0 {
                    ts.push(Term { exps: Vec::new(), coef: v });
                }
                *self = Axis::Var(ts);
            }
        }
        let ghost k = trim(exps@);
        let ghost mid = *self;
        proof {
            reveal_with_fuel(sum_of, 2);
            assert(mid.wf());
            assert forall|e: Seq<usize>| #[trigger] mid.coef(e) == old(self).coef(e) by {
                if (*old(self)) is Const && n > 0 {
                    assert(mid.poly() == term_seq(mid->Var_0@));
                }
            }
            if (*old(self)) is Const && n > 0 {
                assert(mid.keys() =~= old(self).var_keys()) by {
                    if mid.poly().len() > 0 {
                        assert(mid.poly()[0].0 =~= Seq::<usize>::empty());
                    }
                }
            }
        }
        match self {
            Axis::Const(v) => {
                proof {
                    assert(k =~= Seq::<usize>::empty());
                }
                v
            },
            Axis::Var(ts) => {
                let ghost p0 = term_seq(ts@);
                proof {
                    lemma_coef_distinct(p0, k);
                }
                let i = match find_key(ts, exps, n) {
                    Some(i) => {
                        proof {
                            assert(p0[i as int] == term_view(ts@[i as int]));
                        }
                        i
                    },
                    None => {
                        let key = prefix_vec(exps, n);
                        ts.push(Term { exps: key, coef: 0 });
                        proof {
                            let q = term_seq(ts@);
                            assert(q =~= p0.push((k, 0int)));
                            assert forall|e: Seq<usize>| #[trigger] sum_of(q, coef_fn(e)) == sum_of(p0, coef_fn(e)) by {
                                lemma_sum_of_push(p0, (k, 0int), coef_fn(e));
                            }
                            lemma_keys_push(p0, (k, 0int));
                            assert forall|a: int, b: int| 0 <= a < q.len() && 0 <= b < q.len() && a != b implies q[a].0 != q[b].0 by {
                                if a < p0.len() && b < p0.len() {
                                    assert(p0[a].0 != p0[b].0);
                                } else if a < p0.len() {
                                    assert(p0[a].0 != k);
                                } else if b < p0.len() {
                                    assert(p0[b].0 != k);
                                }
                            }
                            assert forall|a: int| 0 <= a < q.len() implies trimmed(#[trigger] q[a].0) by {
                                if a < p0.len() {
                                    assert(trimmed(p0[a].0));
                                }
                            }
                        }
                        ts.len() - 1
                    },
                };
                let ghost before = term_seq(ts@);
                proof {
                    assert(before[i as int] == term_view(ts@[i as int]));
                    assert(before[i as int].0 == k);
                    lemma_coef_distinct(before, k);
                    assert forall|t2: Term| t2.exps@ == k implies
                        ({
                            let u = #[trigger] term_seq(ts@.update(i as int, t2));
                            &&& distinct_keys(u)
                            &&& all_trimmed(u)
                            &&& keys_of(u) == keys_of(before)
                            &&& forall|e: Seq<usize>| #[trigger] sum_of(u, coef_fn(e))
                                == if e == k { t2.coef as int } else { sum_of(before, coef_fn(e)) }
                        }) by {
                        let u = term_seq(ts@.update(i as int, t2));
                        assert(u =~= before.update(i as int, (k, t2.coef as int)));
                        assert forall|e: Seq<usize>| #[trigger] sum_of(u, coef_fn(e))
                            == if e == k { t2.coef as int } else { sum_of(before, coef_fn(e)) } by {
                            lemma_sum_of_update(before, i as int, (k, t2.coef as int), coef_fn(e));
                        }
                        assert forall|a: int, b: int| 0 <= a < u.len() && 0 <= b < u.len() && a != b implies u[a].0 != u[b].0 by {
                            assert(before[a].0 != before[b].0);
                        }
                        assert forall|a: int| 0 <= a < u.len() implies trimmed(#[trigger] u[a].0) by {
                            assert(trimmed(before[a].0));
                        }
                        assert(keys_of(u) =~= keys_of(before)) by {
                            assert forall|y: Seq<usize>| keys_of(u).contains(y) implies keys_of(before).contains(y) by {
                                let j = choose|j: int| 0 <= j < u.len() && u[j].0 == y;
                                assert(before[j].0 == y);
                            }
                            assert forall|y: Seq<usize>| keys_of(before).contains(y) implies keys_of(u).contains(y) by {
                                let j = choose|j: int| 0 <= j < before.len() && before[j].0 == y;
                                assert(u[j].0 == y);
                            }
                        }
                    }
                }
                let t = &mut ts[i];
                &mut t.coef
            },
        }
    }
}

/// Whether the exponents name exactly one variable to the first power (given no trailing zeros).
fn is_unit_exps(exps: &Vec<usize>) -> (r: bool)
    requires
        trimmed(exps@),
    ensures
        r == is_var_key(exps@),
{
    let n = exps.len();
    if n == 0 {
        return false;
    }
    if exps[n - 1] != 1 {
        proof {
            assert(var_key((n - 1) as nat)[n - 1] == 1);
        }
        return false;
    }
    let mut i: usize = 0;
    while i < n - 1
        invariant
            i <= n - 1,
            n == exps@.len(),
            forall|j: int| 0 <= j < i ==> exps@[j] == 0,
        decreases n - 1 - i,
    {
        if exps[i] != 0 {
            proof {
                assert(var_key((n - 1) as nat)[i as int] == 0);
            }
            return false;
        }
        i += 1;
    }
    proof {
        assert(exps@ =~= var_key((n - 1) as nat));
    }
    true
}

impl std::ops::Add for Axis {
    type Output = Axis;

    fn add(self, rhs: Axis) -> (r: Axis)
        ensures
            self.combined(rhs, false, r),
    {
        self.combine(&rhs, false)
    }
}

impl vstd::std_specs::ops::AddSpecImpl for Axis {
    open spec fn obeys_add_spec() -> bool {
        false
    }

    open spec fn add_req(self, rhs: Axis) -> bool {
        self.combine_req(rhs, false)
    }

    open spec fn add_spec(self, rhs: Axis) -> Axis {
        self
    }
}

impl<'a> std::ops::Add<&'a Axis> for Axis {
    type Output = Axis;

    fn add(self, rhs: &'a Axis) -> (r: Axis)
        ensures
            self.combined(*rhs, false, r),
    {
        self.combine(rhs, false)
    }
}

impl<'a> vstd::std_specs::ops::AddSpecImpl<&'a Axis> for Axis {
    open spec fn obeys_add_spec() -> bool {
        false
    }

    open spec fn add_req(self, rhs: &'a Axis) -> bool {
        self.combine_req(*rhs, false)
    }

    open spec fn add_spec(self, rhs: &'a Axis) -> Axis {
        self
    }
}

impl std::ops::Sub for Axis {
    type Output = Axis;

    fn sub(self, rhs: Axis) -> (r: Axis)
        ensures
            self.combined(rhs, true, r),
    {
        self.combine(&rhs, true)
    }
}

impl vstd::std_specs::ops::SubSpecImpl for Axis {
    open spec fn obeys_sub_spec() -> bool {
        false
    }

    open spec fn sub_req(self, rhs: Axis) -> bool {
        self.combine_req(rhs, true)
    }

    open spec fn sub_spec(self, rhs: Axis) -> Axis {
        self
    }
}

impl<'a> std::ops::Sub<&'a Axis> for Axis {
    type Output = Axis;

    fn sub(self, rhs: &'a Axis) -> (r: Axis)
        ensures
            self.combined(*rhs, true, r),
    {
        self.combine(rhs, true)
    }
}

impl<'a> vstd::std_specs::ops::SubSpecImpl<&'a Axis> for Axis {
    open spec fn obeys_sub_spec() -> bool {
        false
    }

    open spec fn sub_req(self, rhs: &'a Axis) -> bool {
        self.combine_req(*rhs, true)
    }

    open spec fn sub_spec(self, rhs: &'a Axis) -> Axis {
        self
    }
}


impl Clone for Term {
    fn clone(&self) -> (r: Term)
        ensures
            term_view(r) == term_view(*self),
    {
        let n = self.exps.len();
        let exps = prefix_vec(self.exps.as_slice(), n);
        proof {
            assert(self.exps@.subrange(0, n as int) =~= self.exps@);
        }
        Term { exps, coef: self.coef }
    }
}

impl Clone for Axis {
    fn clone(&self) -> (r: Axis)
        ensures
            r.poly() == self.poly(),
            (r is Const) == (self is Const),
            r.wf() == self.wf(),
            r.keys() == self.keys(),
    {
        match self {
            Axis::Const(v) => Axis::Const(*v),
            Axis::Var(ts) => {
                let mut out: Vec<Term> = Vec::new();
                let mut i: usize = 0;
                while i < ts.len()
                    invariant
                        i <= ts@.len(),
                        term_seq(out@) == term_seq(ts@).take(i as int),
                    decreases ts@.len() - i,
                {
                    let t = ts[i].clone();
                    let ghost before = out@;
                    out.push(t);
                    proof {
                        assert(term_view(t) == term_view(ts@[i as int]));
                        assert(out@ == before.push(t));
                        assert(term_seq(before).len() == before.len());
                        assert(term_seq(out@).len() == out@.len());
                        assert(term_seq(out@).len() == i + 1);
                        assert forall|q: int| 0 <= q < i + 1 implies term_seq(out@)[q] == term_seq(ts@).take(i + 1)[q] by {
                            if q < i {
                                assert(term_seq(out@)[q] == term_view(before[q]));
                                assert(term_seq(before)[q] == term_seq(ts@).take(i as int)[q]);
                            }
                        }
                        assert(term_seq(out@) =~= term_seq(ts@).take(i + 1));
                    }
                    i += 1;
                }
                proof {
                    assert(term_seq(ts@).take(ts@.len() as int) =~= term_seq(ts@));
                }
                Axis::Var(out)
            },
        }
    }
}

impl From<isize> for Axis {
    fn from(value: isize) -> (r: Axis) {
        Axis::Const(value)
    }
}

impl vstd::std_specs::convert::FromSpecImpl<isize> for Axis {
    open spec fn obeys_from_spec() -> bool {
        true
    }

    open spec fn from_spec(v: isize) -> Axis {
        Axis::Const(v)
    }
}

impl From<usize> for Axis {
    /// A length as a constant axis (lengths above `isize::MAX` wrap, as with `as`).
    fn from(value: usize) -> (r: Axis) {
        Axis::Const(value as isize)
    }
}

impl vstd::std_specs::convert::FromSpecImpl<usize> for Axis {
    open spec fn obeys_from_spec() -> bool {
        true
    }

    open spec fn from_spec(v: usize) -> Axis {
        Axis::Const(v as isize)
    }
}

impl From<i32> for Axis {
    fn from(value: i32) -> (r: Axis) {
        Axis::Const(value as isize)
    }
}

impl vstd::std_specs::convert::FromSpecImpl<i32> for Axis {
    open spec fn obeys_from_spec() -> bool {
        true
    }

    open spec fn from_spec(v: i32) -> Axis {
        Axis::Const(v as isize)
    }
}

impl std::ops::Mul for Axis {
    type Output = Axis;

    fn mul(self, rhs: Axis) -> (r: Axis)
        ensures
            self.multiplied(rhs, r),
    {
        self.times(&rhs)
    }
}

impl vstd::std_specs::ops::MulSpecImpl for Axis {
    open spec fn obeys_mul_spec() -> bool {
        false
    }

    open spec fn mul_req(self, rhs: Axis) -> bool {
        self.can_mul(rhs)
    }

    open spec fn mul_spec(self, rhs: Axis) -> Axis {
        self
    }
}

impl<'a> std::ops::Mul<&'a Axis> for Axis {
    type Output = Axis;

    fn mul(self, rhs: &'a Axis) -> (r: Axis)
        ensures
            self.multiplied(*rhs, r),
    {
        self.times(rhs)
    }
}

impl<'a> vstd::std_specs::ops::MulSpecImpl<&'a Axis> for Axis {
    open spec fn obeys_mul_spec() -> bool {
        false
    }

    open spec fn mul_req(self, rhs: &'a Axis) -> bool {
        self.can_mul(*rhs)
    }

    open spec fn mul_spec(self, rhs: &'a Axis) -> Axis {
        self
    }
}

/// Addition of lengths is commutative: `a + b` and `b + a` have the same coefficients
/// and the same value everywhere.
pub proof fn lemma_add_commutative(a: Axis, b: Axis, ab: Axis, ba: Axis)
    requires
        a.combined(b, false, ab),
        b.combined(a, false, ba),
    ensures
        forall|e: Seq<usize>| #[trigger] ab.coef(e) == ba.coef(e),
        forall|env: spec_fn(nat) -> int| #[trigger] ab.eval(env) == ba.eval(env),
{
    assert forall|e: Seq<usize>| #[trigger] ab.coef(e) == ba.coef(e) by {
        assert(ab.coef(e) == a.coef(e) + b.coef(e));
        assert(ba.coef(e) == b.coef(e) + a.coef(e));
    }
    assert forall|env: spec_fn(nat) -> int| #[trigger] ab.eval(env) == ba.eval(env) by {
        assert(ab.eval(env) == a.eval(env) + b.eval(env));
        assert(ba.eval(env) == b.eval(env) + a.eval(env));
    }
}

/// Adding back what was subtracted restores the length: `(a - b) + b` has the
/// coefficients and values of `a`.
pub proof fn lemma_sub_add_inverse(a: Axis, b: Axis, d: Axis, r: Axis)
    requires
        a.combined(b, true, d),
        d.combined(b, false, r),
    ensures
        forall|e: Seq<usize>| #[trigger] r.coef(e) == a.coef(e),
        forall|env: spec_fn(nat) -> int| #[trigger] r.eval(env) == a.eval(env),
{
    assert forall|e: Seq<usize>| #[trigger] r.coef(e) == a.coef(e) by {
        assert(r.coef(e) == d.coef(e) + b.coef(e));
        assert(d.coef(e) == a.coef(e) - b.coef(e));
    }
    assert forall|env: spec_fn(nat) -> int| #[trigger] r.eval(env) == a.eval(env) by {
        assert(r.eval(env) == d.eval(env) + b.eval(env));
        assert(d.eval(env) == a.eval(env) - b.eval(env));
    }
}

/// Multiplication of lengths is commutative in value: `a * b` and `b * a` agree
/// everywhere.
pub proof fn lemma_mul_commutative(a: Axis, b: Axis, ab: Axis, ba: Axis)
    requires
        a.multiplied(b, ab),
        b.multiplied(a, ba),
    ensures
        forall|env: spec_fn(nat) -> int| #[trigger] ab.eval(env) == ba.eval(env),
{
    assert forall|env: spec_fn(nat) -> int| #[trigger] ab.eval(env) == ba.eval(env) by {
        let (x, y) = (a.eval(env), b.eval(env));
        assert(ab.eval(env) == x * y);
        assert(ba.eval(env) == y * x);
        assert(x * y == y * x) by (nonlinear_arith);
    }
}

/// Multiplication distributes over addition in value: `a * (b + c)` agrees with
/// `a * b + a * c` everywhere.
pub proof fn lemma_mul_distributes(a: Axis, b: Axis, c: Axis, bc: Axis, abc: Axis, ab: Axis, ac: Axis, sum: Axis)
    requires
        b.combined(c, false, bc),
        a.multiplied(bc, abc),
        a.multiplied(b, ab),
        a.multiplied(c, ac),
        ab.combined(ac, false, sum),
    ensures
        forall|env: spec_fn(nat) -> int| #[trigger] abc.eval(env) == sum.eval(env),
{
    assert forall|env: spec_fn(nat) -> int| #[trigger] abc.eval(env) == sum.eval(env) by {
        let (x, y, z) = (a.eval(env), b.eval(env), c.eval(env));
        assert(bc.eval(env) == y + z);
        assert(abc.eval(env) == x * (y + z));
        assert(sum.eval(env) == x * y + x * z);
        assert(x * (y + z) == x * y + x * z) by (nonlinear_arith);
    }
}

} // verus!
