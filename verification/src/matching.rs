//! Matching the arguments of a call against the arguments a function was analyzed on,
//! and specializing what the analysis found to the call.

use vstd::prelude::*;
use std::collections::HashMap;
use vstd::arithmetic::power::{pow, lemma_pow_increases, lemma_pow_positive, lemma_pow1, lemma1_pow};
use crate::axis::{
    Axis, Mono, term_seq, term_view, sum_of, abs_fn, l1max_env, subst_cost_fn, exp_cost_n, subst_max_exp, substs_wf,
    mono, abs, lemma_take_push, lemma_sum_of_push, lemma_l1max_env_ge1, lemma_subst_cost_nonneg,
    lemma_exp_cost_grows, single_var_at, var_key, subst_env,
};
use crate::poly::{get0, key_max, max_exp, mono_n, lemma_mono_is_mono_n, lemma_mono_n_grows, lemma_sum_take_nonneg};
use crate::comp_type::CompType;
use crate::info::{KnownValue, ShapeInfo, ValInfo, NodeInfo, axes_nvars, axes_wf, axes_subst_req};
use crate::relation::{Condition, max_rel_nvars};
use crate::graph::DataGraph;

verus! {

/// The sum of the absolute values of the coefficients.
fn l1_of(a: &Axis) -> (r: u128)
    ensures
        r == a.l1(),
{
    match a {
        Axis::Const(c) => {
            proof {
                reveal_with_fuel(sum_of, 2);
            }
            if *c < 0 { (-(*c as i128)) as u128 } else { *c as u128 }
        },
        Axis::Var(ts) => {
            let ghost pp = term_seq(ts@);
            let mut acc: u128 = 0;
            let mut i: usize = 0;
            while i < ts.len()
                invariant
                    i <= ts@.len(),
                    pp == term_seq(ts@),
                    acc == sum_of(pp.take(i as int), abs_fn()),
                    acc <= i * 0x8000_0000_0000_0000,
                decreases ts@.len() - i,
            {
                let c = ts[i].coef;
                let x: u128 = if c < 0 { (-(c as i128)) as u128 } else { c as u128 };
                proof {
                    lemma_take_push(pp, i as int);
                    lemma_sum_of_push(pp.take(i as int), pp[i as int], abs_fn());
                    assert(pp[i as int] == term_view(ts@[i as int]));
                }
                acc = acc + x;
                i += 1;
            }
            proof {
                assert(pp.take(pp.len() as int) =~= pp);
            }
            acc
        },
    }
}

/// The coefficient sum of the replacement of variable `v`, at least 1.
fn l1max_at(substs: &HashMap<usize, Axis>, v: usize) -> (r: u128)
    ensures
        r == l1max_env(substs@)(v as nat),
{
    broadcast use vstd::std_specs::hash::group_hash_axioms;
    match substs.get(&v) {
        Some(a) => {
            let l = l1_of(a);
            if l > 1 { l } else { 1 }
        },
        None => 1,
    }
}

/// `b` to the power `e`, where it is at most `cap`.
fn pow_capped(b: u128, e: usize, cap: u128) -> (r: Option<u128>)
    requires
        1 <= b,
        1 <= cap <= 0x8000_0000_0000_0000,
    ensures
        r is Some <==> pow(b as int, e as nat) <= cap,
        r is Some ==> r->0 == pow(b as int, e as nat),
{
    proof {
        reveal(pow);
        lemma_pow_positive(b as int, e as nat);
    }
    if e == 0 {
        return Some(1);
    }
    if b > cap {
        proof {
            lemma_pow1(b as int);
            lemma_pow_increases(b as nat, 1, e as nat);
        }
        return None;
    }
    if b == 1 {
        proof {
            lemma1_pow(e as nat);
        }
        return Some(1);
    }
    let mut p: u128 = 1;
    let mut j: usize = 0;
    while j < e
        invariant
            j <= e,
            2 <= b <= cap,
            cap <= 0x8000_0000_0000_0000,
            p == pow(b as int, j as nat),
            1 <= p <= cap,
        decreases e - j,
    {
        assert(p * b <= 0x8000_0000_0000_0000 * 0x8000_0000_0000_0000) by (nonlinear_arith)
            requires p <= 0x8000_0000_0000_0000, b <= 0x8000_0000_0000_0000, 1 <= p, 1 <= b;
        let q = p * b;
        proof {
            reveal(pow);
            assert(pow(b as int, (j + 1) as nat) == b * pow(b as int, j as nat));
            assert(q == b * p) by (nonlinear_arith) requires q == p * b;
        }
        if q > cap {
            proof {
                lemma_pow_increases(b as nat, (j + 1) as nat, e as nat);
            }
            return None;
        }
        assert(q >= 1) by (nonlinear_arith) requires q == p * b, p >= 1, b >= 1;
        p = q;
        j += 1;
    }
    Some(p)
}

/// The cost bound of the term with exponents `exps` and coefficient `coef` (see
/// `subst_cost_fn`), where it is at most `cap`.
fn term_cost(exps: &Vec<usize>, coef: isize, substs: &HashMap<usize, Axis>, cap: u128) -> (r: Option<u128>)
    requires
        1 <= cap <= 0x8000_0000_0000_0000,
    ensures
        r is Some <==> subst_cost_fn(substs@)((exps@, coef as int)) <= cap,
        r is Some ==> r->0 == subst_cost_fn(substs@)((exps@, coef as int)),
{
    let ghost env = l1max_env(substs@);
    proof {
        lemma_l1max_env_ge1(substs@);
        lemma_mono_is_mono_n(exps@, env);
        lemma_mono_n_grows(exps@, 0, exps@.len(), env);
    }
    let ghost a: int = if abs(coef as int) > 1 { abs(coef as int) } else { 1 };
    let mut m: u128 = 1;
    let mut v: usize = 0;
    while v < exps.len()
        invariant
            v <= exps@.len(),
            1 <= cap <= 0x8000_0000_0000_0000,
            env == l1max_env(substs@),
            forall|i: nat| #[trigger] env(i) >= 1,
            m == mono_n(exps@, v as nat, env),
            1 <= m <= cap,
            mono(exps@, env) == mono_n(exps@, exps@.len(), env),
            a == (if abs(coef as int) > 1 { abs(coef as int) } else { 1 }),
            a >= 1,
        decreases exps@.len() - v,
    {
        let b = l1max_at(substs, v);
        proof {
            lemma_mono_n_grows(exps@, (v + 1) as nat, exps@.len(), env);
            assert(get0(exps@, v as int) == exps@[v as int]);
        }
        let p = match pow_capped(b, exps[v], cap) {
            Some(p) => p,
            None => {
                proof {
                    let q = pow(b as int, exps@[v as int] as nat);
                    assert(m * q >= q) by (nonlinear_arith) requires m >= 1, q >= 0;
                    assert(mono_n(exps@, (v + 1) as nat, env) == m * q);
                    let mm = mono(exps@, env);
                    assert(a * mm >= mm) by (nonlinear_arith) requires a >= 1, mm >= 0;
                }
                return None;
            },
        };
        assert(m * p <= 0x8000_0000_0000_0000 * 0x8000_0000_0000_0000) by (nonlinear_arith)
            requires m <= 0x8000_0000_0000_0000, p <= 0x8000_0000_0000_0000, 1 <= m, 0 <= p;
        let m2 = m * p;
        proof {
            assert(mono_n(exps@, (v + 1) as nat, env) == m * p);
        }
        if m2 > cap {
            proof {
                let mm = mono(exps@, env);
                assert(a * mm >= mm) by (nonlinear_arith) requires a >= 1, mm >= 0;
            }
            return None;
        }
        m = m2;
        v += 1;
    }
    let c: u128 = if coef < 0 { (-(coef as i128)) as u128 } else { coef as u128 };
    let a_exec: u128 = if c > 1 { c } else { 1 };
    proof {
        assert(a_exec == a);
    }
    assert(a_exec * m <= 0x8000_0000_0000_0000 * 0x8000_0000_0000_0000 * 2) by (nonlinear_arith)
        requires a_exec <= 0x8000_0000_0000_0000, m <= 0x8000_0000_0000_0000, 1 <= a_exec, 1 <= m;
    let t = a_exec * m;
    if t > cap {
        None
    } else {
        Some(t)
    }
}

/// The largest entry of an exponent list.
fn key_max_of(k: &Vec<usize>) -> (r: usize)
    ensures
        r == key_max(k@),
{
    let mut m: usize = 0;
    let mut i: usize = 0;
    while i < k.len()
        invariant
            i <= k@.len(),
            m == key_max(k@.take(i as int)),
        decreases k@.len() - i,
    {
        proof {
            assert(k@.take(i + 1).drop_last() =~= k@.take(i as int));
        }
        if k[i] > m {
            m = k[i];
        }
        i += 1;
    }
    proof {
        assert(k@.take(k@.len() as int) =~= k@);
    }
    m
}

/// The largest exponent of a length's terms.
fn max_exp_of(a: &Axis) -> (r: usize)
    ensures
        r == max_exp(a.poly()),
{
    match a {
        Axis::Const(_) => {
            proof {
                reveal_with_fuel(max_exp, 2);
                reveal_with_fuel(key_max, 1);
            }
            0
        },
        Axis::Var(ts) => {
            let ghost pp = term_seq(ts@);
            let mut m: usize = 0;
            let mut i: usize = 0;
            while i < ts.len()
                invariant
                    i <= ts@.len(),
                    pp == term_seq(ts@),
                    m == max_exp(pp.take(i as int)),
                decreases ts@.len() - i,
            {
                proof {
                    assert(pp.take(i + 1).drop_last() =~= pp.take(i as int));
                    assert(pp[i as int] == term_view(ts@[i as int]));
                }
                let km = key_max_of(&ts[i].exps);
                if km > m {
                    m = km;
                }
                i += 1;
            }
            proof {
                assert(pp.take(pp.len() as int) =~= pp);
            }
            m
        },
    }
}

/// The largest exponent of the replacement of variable `v`, 0 without one.
fn max_exp_at(substs: &HashMap<usize, Axis>, v: usize) -> (r: usize)
    ensures
        r == subst_max_exp(substs@, v as int),
{
    broadcast use vstd::std_specs::hash::group_hash_axioms;
    match substs.get(&v) {
        Some(a) => max_exp_of(a),
        None => 0,
    }
}

/// The exponent bound of substituting into the term with exponents `exps` fits in
/// `usize`.
fn exp_cost_fits(exps: &Vec<usize>, substs: &HashMap<usize, Axis>) -> (r: bool)
    ensures
        r == (exp_cost_n(exps@, exps@.len(), substs@) <= usize::MAX),
{
    let mut acc: u128 = 0;
    let mut v: usize = 0;
    while v < exps.len()
        invariant
            v <= exps@.len(),
            acc == exp_cost_n(exps@, v as nat, substs@),
            acc <= usize::MAX,
        decreases exps@.len() - v,
    {
        let e = exps[v];
        let mx = max_exp_at(substs, v);
        proof {
            assert(get0(exps@, v as int) == e);
        }
        assert(e * mx <= usize::MAX * usize::MAX) by (nonlinear_arith)
            requires e <= usize::MAX, mx <= usize::MAX;
        assert(usize::MAX * usize::MAX + usize::MAX <= u128::MAX);
        let acc2 = acc + (e as u128) * (mx as u128);
        if acc2 > usize::MAX as u128 {
            proof {
                lemma_exp_cost_grows(exps@, (v + 1) as nat, exps@.len(), substs@);
            }
            return false;
        }
        acc = acc2;
        v += 1;
    }
    true
}

/// Substituting `substs` into `a` is within the bounds that substitution needs (see
/// `Axis::subst_req`).
pub fn subst_fits(a: &Axis, substs: &HashMap<usize, Axis>) -> (r: bool)
    requires
        a.wf(),
        substs_wf(substs@),
    ensures
        r == a.subst_req(substs@),
{
    let cap = isize::MAX as u128;
    let ghost pp = a.poly();
    let ghost f = subst_cost_fn(substs@);
    proof {
        lemma_subst_cost_nonneg(substs@);
    }
    match a {
        Axis::Const(c) => {
            let v: Vec<usize> = Vec::new();
            proof {
                reveal_with_fuel(sum_of, 2);
                assert(pp == seq![(v@, *c as int)]);
                reveal_with_fuel(exp_cost_n, 1);
            }
            match term_cost(&v, *c, substs, cap) {
                Some(_) => true,
                None => false,
            }
        },
        Axis::Var(ts) => {
            let mut total: u128 = 0;
            let mut j: usize = 0;
            while j < ts.len()
                invariant
                    j <= ts@.len(),
                    pp == term_seq(ts@),
                    pp == a.poly(),
                    a.wf(),
                    substs_wf(substs@),
                    f == subst_cost_fn(substs@),
                    cap == isize::MAX,
                    forall|t: (Seq<usize>, int)| #[trigger] f(t) >= 0,
                    total == sum_of(pp.take(j as int), f),
                    total <= cap,
                    forall|q: int| 0 <= q < j ==> exp_cost_n(#[trigger] pp[q].0, pp[q].0.len(), substs@) <= usize::MAX,
                decreases ts@.len() - j,
            {
                proof {
                    lemma_take_push(pp, j as int);
                    lemma_sum_of_push(pp.take(j as int), pp[j as int], f);
                    assert(pp[j as int] == term_view(ts@[j as int]));
                }
                let t = &ts[j];
                proof {
                    lemma_sum_take_nonneg(pp, j + 1, f);
                    lemma_sum_take_nonneg(pp, j as int, f);
                    assert(f(pp[j as int]) == subst_cost_fn(substs@)((t.exps@, t.coef as int)));
                }
                let c = match term_cost(&t.exps, t.coef, substs, cap) {
                    Some(c) => c,
                    None => {
                        return false;
                    },
                };
                if total + c > cap {
                    return false;
                }
                total = total + c;
                if !exp_cost_fits(&t.exps, substs) {
                    proof {
                        assert(pp[j as int].0 == t.exps@);
                        assert(exp_cost_n(pp[j as int].0, pp[j as int].0.len(), substs@) > usize::MAX);
                    }
                    return false;
                }
                j += 1;
            }
            proof {
                assert(pp.take(pp.len() as int) =~= pp);
            }
            true
        },
    }
}


/// The variable that a length is on its own (with coefficient 1), if it is one.
pub open spec fn spec_single_var(a: Axis) -> Option<usize> {
    if a is Var && exists|i: int| single_var_at(a.poly(), i) {
        Some(choose|v: usize| exists|i: int| #[trigger] single_var_at(a.poly(), i) && a.poly()[i].0 == #[trigger] var_key(v as nat))
    } else {
        None
    }
}

/// The variable that a length is on its own, if it is one.
fn single_var_of(a: &Axis) -> (r: Option<usize>)
    requires
        a.wf(),
    ensures
        r == spec_single_var(*a),
{
    let r = a.single_var();
    proof {
        match r {
            Some(v) => {
                let i = choose|i: int| single_var_at(a.poly(), i) && a.poly()[i].0 == var_key(v as nat);
                let w = choose|w: usize| exists|i2: int| #[trigger] single_var_at(a.poly(), i2) && a.poly()[i2].0 == #[trigger] var_key(w as nat);
                let i2 = choose|i2: int| single_var_at(a.poly(), i2) && a.poly()[i2].0 == var_key(w as nat);
                if i != i2 {
                    assert(a.poly()[i2].1 == 0);
                }
                assert(var_key(v as nat).len() == v + 1);
                assert(var_key(w as nat).len() == w + 1);
            },
            None => {},
        }
    }
    r
}

/// The replacements that matching the known length `n` against the function's length
/// `fa` asks for (a variable and the polynomial for it), or none if they do not match:
/// a constant must equal the length; a variable on its own takes it.
pub open spec fn known_axis_match(n: usize, fa: Axis) -> Option<Seq<(usize, Seq<Mono>)>> {
    match fa.spec_only_const() {
        Some(c) => if n == c as usize { Some(Seq::empty()) } else { None },
        None => match spec_single_var(fa) {
            Some(v) => Some(seq![(v, Axis::Const(n as isize).poly())]),
            None => None,
        },
    }
}

/// The replacements that matching the length `a` against the function's length `fa`
/// asks for, or none if they do not match: a constant must be the same constant; a
/// variable on its own takes the length.
pub open spec fn sym_axis_match(a: Axis, fa: Axis) -> Option<Seq<(usize, Seq<Mono>)>> {
    match fa.spec_only_const() {
        Some(c) => match a.spec_only_const() {
            Some(x) => if x == c { Some(Seq::empty()) } else { None },
            None => None,
        },
        None => match spec_single_var(fa) {
            Some(v) => Some(seq![(v, a.poly())]),
            None => None,
        },
    }
}

/// The replacements of the first `k` known lengths against the function's lengths.
pub open spec fn known_axes_match(ns: Seq<usize>, fs: Seq<Axis>, k: int) -> Option<Seq<(usize, Seq<Mono>)>>
    decreases k,
{
    if k <= 0 {
        Some(Seq::empty())
    } else {
        match known_axes_match(ns, fs, k - 1) {
            None => None,
            Some(s) => match known_axis_match(ns[k - 1], fs[k - 1]) {
                None => None,
                Some(t) => Some(s + t),
            },
        }
    }
}

/// The replacements of the first `k` lengths against the function's lengths.
pub open spec fn sym_axes_match(as_: Seq<Axis>, fs: Seq<Axis>, k: int) -> Option<Seq<(usize, Seq<Mono>)>>
    decreases k,
{
    if k <= 0 {
        Some(Seq::empty())
    } else {
        match sym_axes_match(as_, fs, k - 1) {
            None => None,
            Some(s) => match sym_axis_match(as_[k - 1], fs[k - 1]) {
                None => None,
                Some(t) => Some(s + t),
            },
        }
    }
}

/// The replacements as polynomials.
pub open spec fn repl_view(rs: Seq<(usize, Axis)>) -> Seq<(usize, Seq<Mono>)> {
    rs.map_values(|r: (usize, Axis)| (r.0, r.1.poly()))
}

/// Every replacement is well formed.
pub open spec fn repls_wf(rs: Seq<(usize, Axis)>) -> bool {
    forall|i: int| 0 <= i < rs.len() ==> (#[trigger] rs[i]).1.wf()
}

proof fn lemma_repl_view_push(rs: Seq<(usize, Axis)>, x: (usize, Axis))
    ensures
        repl_view(rs.push(x)) == repl_view(rs) + seq![(x.0, x.1.poly())],
{
    assert(repl_view(rs.push(x)) =~= repl_view(rs) + seq![(x.0, x.1.poly())]);
}

/// Match the known lengths against the function's lengths, adding the replacements
/// asked for to `out`; `false` where they do not match.
fn match_known_axes(ns: &Vec<usize>, fs: &Vec<Axis>, out: &mut Vec<(usize, Axis)>) -> (r: bool)
    requires
        ns@.len() == fs@.len(),
        forall|i: int| 0 <= i < fs@.len() ==> (#[trigger] fs@[i]).wf(),
        repls_wf(old(out)@),
    ensures
        r == known_axes_match(ns@, fs@, ns@.len() as int) is Some,
        r ==> repl_view(final(out)@) == repl_view(old(out)@) + known_axes_match(ns@, fs@, ns@.len() as int)->0,
        repls_wf(final(out)@),
{
    let ghost start = out@;
    let mut i: usize = 0;
    while i < ns.len()
        invariant
            i <= ns@.len(),
            ns@.len() == fs@.len(),
            forall|q: int| 0 <= q < fs@.len() ==> (#[trigger] fs@[q]).wf(),
            known_axes_match(ns@, fs@, i as int) is Some,
            repl_view(out@) == repl_view(start) + known_axes_match(ns@, fs@, i as int)->0,
            repls_wf(out@),
        decreases ns@.len() - i,
    {
        let n = ns[i];
        let fa = &fs[i];
        proof {
            assert(fs@[i as int].wf());
        }
        match fa.only_const() {
            Some(c) => {
                if n != c as usize {
                    proof {
                        lemma_match_none_stays_known(ns@, fs@, i + 1, ns@.len() as int);
                    }
                    return false;
                }
            },
            None => {
                match single_var_of(fa) {
                    Some(v) => {
                        let ghost before = out@;
                        let ax = Axis::Const(n as isize);
                        out.push((v, ax));
                        proof {
                            lemma_repl_view_push(before, (v, ax));
                        }
                    },
                    None => {
                        proof {
                            lemma_match_none_stays_known(ns@, fs@, i + 1, ns@.len() as int);
                        }
                        return false;
                    },
                }
            },
        }
        proof {
            assert(repl_view(out@) =~= repl_view(start) + known_axes_match(ns@, fs@, i + 1)->0);
        }
        i += 1;
    }
    true
}

proof fn lemma_match_none_stays_known(ns: Seq<usize>, fs: Seq<Axis>, k: int, n: int)
    requires
        0 <= k <= n,
        known_axes_match(ns, fs, k) is None,
    ensures
        known_axes_match(ns, fs, n) is None,
    decreases n - k,
{
    if k < n {
        lemma_match_none_stays_known(ns, fs, k + 1, n);
    }
}

proof fn lemma_match_none_stays_sym(as_: Seq<Axis>, fs: Seq<Axis>, k: int, n: int)
    requires
        0 <= k <= n,
        sym_axes_match(as_, fs, k) is None,
    ensures
        sym_axes_match(as_, fs, n) is None,
    decreases n - k,
{
    if k < n {
        lemma_match_none_stays_sym(as_, fs, k + 1, n);
    }
}

/// Match the lengths against the function's lengths, adding the replacements asked for
/// to `out`; `false` where they do not match.
fn match_sym_axes(as_: &Vec<Axis>, fs: &Vec<Axis>, out: &mut Vec<(usize, Axis)>) -> (r: bool)
    requires
        as_@.len() == fs@.len(),
        forall|i: int| 0 <= i < fs@.len() ==> (#[trigger] fs@[i]).wf(),
        forall|i: int| 0 <= i < as_@.len() ==> (#[trigger] as_@[i]).wf(),
        repls_wf(old(out)@),
    ensures
        r == sym_axes_match(as_@, fs@, as_@.len() as int) is Some,
        r ==> repl_view(final(out)@) == repl_view(old(out)@) + sym_axes_match(as_@, fs@, as_@.len() as int)->0,
        repls_wf(final(out)@),
{
    let ghost start = out@;
    let mut i: usize = 0;
    while i < as_.len()
        invariant
            i <= as_@.len(),
            as_@.len() == fs@.len(),
            forall|q: int| 0 <= q < fs@.len() ==> (#[trigger] fs@[q]).wf(),
            forall|q: int| 0 <= q < as_@.len() ==> (#[trigger] as_@[q]).wf(),
            sym_axes_match(as_@, fs@, i as int) is Some,
            repl_view(out@) == repl_view(start) + sym_axes_match(as_@, fs@, i as int)->0,
            repls_wf(out@),
        decreases as_@.len() - i,
    {
        let a = &as_[i];
        let fa = &fs[i];
        proof {
            assert(fs@[i as int].wf());
            assert(as_@[i as int].wf());
        }
        match fa.only_const() {
            Some(c) => {
                match a.only_const() {
                    Some(x) => {
                        if x != c {
                            proof {
                                lemma_match_none_stays_sym(as_@, fs@, i + 1, as_@.len() as int);
                            }
                            return false;
                        }
                    },
                    None => {
                        proof {
                            lemma_match_none_stays_sym(as_@, fs@, i + 1, as_@.len() as int);
                        }
                        return false;
                    },
                }
            },
            None => {
                match single_var_of(fa) {
                    Some(v) => {
                        let ghost before = out@;
                        let ax = a.clone();
                        out.push((v, ax));
                        proof {
                            lemma_repl_view_push(before, (v, ax));
                        }
                    },
                    None => {
                        proof {
                            lemma_match_none_stays_sym(as_@, fs@, i + 1, as_@.len() as int);
                        }
                        return false;
                    },
                }
            },
        }
        proof {
            assert(repl_view(out@) =~= repl_view(start) + sym_axes_match(as_@, fs@, i + 1)->0);
        }
        i += 1;
    }
    true
}

/// The replacements that matching an argument against the function's argument asks
/// for, or none if they do not match: the type ids and machine types must agree; two
/// known values must be equal (`same`); a known value's lengths, or a ranked shape's,
/// are matched one by one against a ranked shape of the same rank.
pub open spec fn arg_match<V>(a: ValInfo<V>, fa: ValInfo<V>, same: bool) -> Option<Seq<(usize, Seq<Mono>)>> {
    if a.typ != fa.typ || CompType::spec_from_info(a.typ, a.range) != CompType::spec_from_info(fa.typ, fa.range) {
        None
    } else {
        match (a.shape, fa.shape) {
            (ShapeInfo::Known(_), ShapeInfo::Known(_)) => if same { Some(Seq::empty()) } else { None },
            (ShapeInfo::Known(k), ShapeInfo::Ranked(fs)) => if k.shape@.len() != fs@.len() {
                None
            } else {
                known_axes_match(k.shape@, fs@, fs@.len() as int)
            },
            (ShapeInfo::Ranked(s), ShapeInfo::Ranked(fs)) => if s@.len() != fs@.len() {
                None
            } else {
                sym_axes_match(s@, fs@, s@.len() as int)
            },
            _ => None,
        }
    }
}

/// The replacements that matching the first `k` arguments asks for, or none if some
/// argument does not match; `sames[i]` tells whether the known values of pair `i` are
/// equal.
pub open spec fn args_match<V>(args: Seq<ValInfo<V>>, fargs: Seq<ValInfo<V>>, sames: Seq<bool>, k: int)
    -> Option<Seq<(usize, Seq<Mono>)>>
    decreases k,
{
    if k <= 0 {
        Some(Seq::empty())
    } else {
        match args_match(args, fargs, sames, k - 1) {
            None => None,
            Some(s) => match arg_match(args[k - 1], fargs[k - 1], sames[k - 1]) {
                None => None,
                Some(t) => Some(s + t),
            },
        }
    }
}

/// Pair `i` gets to the comparison of two known values: the pairs before it match, the
/// type ids and machine types agree, and both values are known.
pub open spec fn compared<V>(args: Seq<ValInfo<V>>, fargs: Seq<ValInfo<V>>, sames: Seq<bool>, i: int) -> bool {
    &&& args_match(args, fargs, sames, i) is Some
    &&& args[i].typ == fargs[i].typ
    &&& CompType::spec_from_info(args[i].typ, args[i].range) == CompType::spec_from_info(fargs[i].typ, fargs[i].range)
    &&& args[i].shape is Known
    &&& fargs[i].shape is Known
}

/// What matching needs of a pair of arguments: machine types exist for equal type ids,
/// symbolic lengths are well formed, and not both shapes are of unknown rank.
pub open spec fn pair_ok<V>(a: ValInfo<V>, fa: ValInfo<V>) -> bool {
    &&& a.typ == fa.typ ==> a.typ <= 1
    &&& a.shape.wf()
    &&& fa.shape.wf()
    &&& !(a.shape is Unranked && fa.shape is Unranked)
}

proof fn lemma_args_none_stays<V>(args: Seq<ValInfo<V>>, fargs: Seq<ValInfo<V>>, sames: Seq<bool>, k: int, n: int)
    requires
        0 <= k <= n,
        args_match(args, fargs, sames, k) is None,
    ensures
        args_match(args, fargs, sames, n) is None,
    decreases n - k,
{
    if k < n {
        lemma_args_none_stays(args, fargs, sames, k + 1, n);
    }
}

proof fn lemma_args_match_ext<V>(args: Seq<ValInfo<V>>, fargs: Seq<ValInfo<V>>, a: Seq<bool>, b: Seq<bool>, k: int)
    requires
        0 <= k,
        forall|i: int| 0 <= i < k ==> a[i] == b[i],
    ensures
        args_match(args, fargs, a, k) == args_match(args, fargs, b, k),
    decreases k,
{
    if k > 0 {
        lemma_args_match_ext(args, fargs, a, b, k - 1);
    }
}

proof fn lemma_args_match_types<V>(args: Seq<ValInfo<V>>, fargs: Seq<ValInfo<V>>, sames: Seq<bool>, k: int)
    requires
        0 <= k,
        args_match(args, fargs, sames, k) is Some,
    ensures
        forall|i: int| 0 <= i < k ==> {
            &&& (#[trigger] args[i]).typ == fargs[i].typ
            &&& CompType::spec_from_info(args[i].typ, args[i].range) == CompType::spec_from_info(fargs[i].typ, fargs[i].range)
        },
    decreases k,
{
    if k > 0 {
        lemma_args_match_types(args, fargs, sames, k - 1);
    }
}

/// The number of argument pairs matched: as far as both lists go.
pub open spec fn pair_count<V>(args: Seq<ValInfo<V>>, fargs: Seq<ValInfo<V>>) -> int {
    if args.len() <= fargs.len() { args.len() as int } else { fargs.len() as int }
}

/// `res` is the outcome of matching the arguments with the comparisons `sames`, each
/// pair that got to a comparison of known values having its result from `same`.
pub open spec fn matched_with<V, F: Fn(&KnownValue<V>, &KnownValue<V>) -> bool>(args: Seq<ValInfo<V>>,
    fargs: Seq<ValInfo<V>>, same: F, sames: Seq<bool>, res: Option<Seq<(usize, Seq<Mono>)>>) -> bool
{
    let n = pair_count(args, fargs);
    &&& sames.len() == n
    &&& forall|i: int| 0 <= i < n && #[trigger] compared(args, fargs, sames, i)
        ==> call_ensures(same, (&args[i].shape->Known_0, &fargs[i].shape->Known_0), sames[i])
    &&& args_match(args, fargs, sames, n) == res
}

/// The replacements, as polynomials, if any.
pub open spec fn repls_opt(r: Option<Vec<(usize, Axis)>>) -> Option<Seq<(usize, Seq<Mono>)>> {
    match r {
        Some(rs) => Some(repl_view(rs@)),
        None => None,
    }
}

/// Match the arguments of a call against the arguments the function was analyzed on,
/// pair by pair as far as both go; the replacements asked for, or `None` at the first
/// pair that does not match. `same` tells whether two known values are equal.
fn match_args<V, F: Fn(&KnownValue<V>, &KnownValue<V>) -> bool>(args: &Vec<ValInfo<V>>, fargs: &Vec<ValInfo<V>>, same: &F)
    -> (r: Option<Vec<(usize, Axis)>>)
    requires
        forall|a: &KnownValue<V>, b: &KnownValue<V>| call_requires(*same, (a, b)),
        forall|i: int| 0 <= i < args@.len() && i < fargs@.len() ==> #[trigger] pair_ok(args@[i], fargs@[i]),
    ensures
        exists|sames: Seq<bool>| #[trigger] matched_with(args@, fargs@, *same, sames, repls_opt(r)),
        r is Some ==> repls_wf(r->0@),
{
    let n = if args.len() <= fargs.len() { args.len() } else { fargs.len() };
    let mut out: Vec<(usize, Axis)> = Vec::new();
    let ghost mut sames: Seq<bool> = Seq::empty();
    let mut i: usize = 0;
    while i < n
        invariant
            i <= n,
            n == (if args@.len() <= fargs@.len() { args@.len() as int } else { fargs@.len() as int }),
            forall|a: &KnownValue<V>, b: &KnownValue<V>| call_requires(*same, (a, b)),
            forall|q: int| 0 <= q < args@.len() && q < fargs@.len() ==> #[trigger] pair_ok(args@[q], fargs@[q]),
            sames.len() == i,
            forall|q: int| 0 <= q < i && #[trigger] compared(args@, fargs@, sames, q)
                ==> call_ensures(*same, (&args@[q].shape->Known_0, &fargs@[q].shape->Known_0), sames[q]),
            args_match(args@, fargs@, sames, i as int) == Some(repl_view(out@)),
            repls_wf(out@),
        decreases n - i,
    {
        let a = &args[i];
        let fa = &fargs[i];
        proof {
            assert(pair_ok(args@[i as int], fargs@[i as int]));
        }
        let ghost before = out@;
        let ghost s0 = sames;
        let mut eq = false;
        let ok = if a.typ != fa.typ {
            false
        } else if CompType::from_info(a) != CompType::from_info(fa) {
            false
        } else {
            match (&a.shape, &fa.shape) {
                (ShapeInfo::Known(k), ShapeInfo::Known(fk)) => {
                    eq = same(k, fk);
                    eq
                },
                (ShapeInfo::Known(k), ShapeInfo::Ranked(fs)) => {
                    if k.shape.len() != fs.len() {
                        false
                    } else {
                        match_known_axes(&k.shape, fs, &mut out)
                    }
                },
                (ShapeInfo::Ranked(s), ShapeInfo::Ranked(fs)) => {
                    if s.len() != fs.len() {
                        false
                    } else {
                        match_sym_axes(s, fs, &mut out)
                    }
                },
                _ => false,
            }
        };
        proof {
            sames = s0.push(eq);
            lemma_args_match_ext(args@, fargs@, s0, sames, i as int);
            assert forall|q: int| 0 <= q < i + 1 && #[trigger] compared(args@, fargs@, sames, q)
                implies call_ensures(*same, (&args@[q].shape->Known_0, &fargs@[q].shape->Known_0), sames[q]) by {
                if q < i {
                    lemma_args_match_ext(args@, fargs@, s0, sames, q);
                    assert(compared(args@, fargs@, s0, q));
                }
            }
        }
        if !ok {
            proof {
                assert(args_match(args@, fargs@, sames, i + 1) is None);
                let padded = sames + Seq::new((n - (i + 1)) as nat, |x: int| false);
                lemma_args_match_ext(args@, fargs@, sames, padded, i + 1);
                lemma_args_none_stays(args@, fargs@, padded, i + 1, n as int);
                assert forall|q: int| 0 <= q < n && #[trigger] compared(args@, fargs@, padded, q)
                    implies call_ensures(*same, (&args@[q].shape->Known_0, &fargs@[q].shape->Known_0), padded[q]) by {
                    if q <= i {
                        lemma_args_match_ext(args@, fargs@, sames, padded, q);
                        assert(compared(args@, fargs@, sames, q));
                        assert(padded[q] == sames[q]);
                    } else {
                        lemma_args_none_stays(args@, fargs@, padded, i + 1, q);
                    }
                }
                assert(matched_with(args@, fargs@, *same, padded, None));
            }
            return None;
        }
        proof {
            assert(repl_view(out@) =~= repl_view(before) + arg_match(args@[i as int], fargs@[i as int], eq)->0);
        }
        i += 1;
    }
    proof {
        assert(matched_with(args@, fargs@, *same, sames, Some(repl_view(out@))));
    }
    Some(out)
}

/// The replacements in force once all are made in order, a later one for a variable
/// taking the place of an earlier one.
pub open spec fn repl_map(rs: Seq<(usize, Seq<Mono>)>) -> Map<usize, Seq<Mono>>
    decreases rs.len(),
{
    if rs.len() == 0 {
        Map::empty()
    } else {
        repl_map(rs.drop_last()).insert(rs.last().0, rs.last().1)
    }
}

/// The replacements once each variable below `n` without one gets a fresh variable,
/// numbered from `nv` in order; with the next number left free.
pub open spec fn with_fresh(m: Map<usize, Seq<Mono>>, nv: nat, n: nat) -> (Map<usize, Seq<Mono>>, nat)
    decreases n,
{
    if n == 0 {
        (m, nv)
    } else {
        let (m1, nv1) = with_fresh(m, nv, (n - 1) as nat);
        if m1.contains_key((n - 1) as usize) {
            (m1, nv1)
        } else {
            (m1.insert((n - 1) as usize, seq![(var_key(nv1), 1int)]), nv1 + 1)
        }
    }
}

/// `sm` holds the replacements `e`, as well-formed lengths with those polynomials.
pub open spec fn substs_as(sm: Map<usize, Axis>, e: Map<usize, Seq<Mono>>) -> bool {
    &&& sm.dom() == e.dom()
    &&& forall|k: usize| #[trigger] sm.contains_key(k) ==> sm[k].poly() == e[k] && sm[k].wf()
}

proof fn lemma_with_fresh_bounds(m: Map<usize, Seq<Mono>>, nv: nat, n: nat)
    ensures
        nv <= with_fresh(m, nv, n).1 <= nv + n,
        forall|k: usize| k < n ==> #[trigger] with_fresh(m, nv, n).0.contains_key(k),
        forall|k: usize| #[trigger] m.contains_key(k) ==> with_fresh(m, nv, n).0.contains_key(k),
    decreases n,
{
    if n > 0 {
        lemma_with_fresh_bounds(m, nv, (n - 1) as nat);
    }
}

/// The replacements as a map from variables to lengths.
fn build_substs(rs: &Vec<(usize, Axis)>) -> (r: HashMap<usize, Axis>)
    requires
        repls_wf(rs@),
    ensures
        substs_as(r@, repl_map(repl_view(rs@))),
{
    broadcast use vstd::std_specs::hash::group_hash_axioms;
    let ghost rv = repl_view(rs@);
    let mut m: HashMap<usize, Axis> = HashMap::new();
    let mut i: usize = 0;
    proof {
        assert(rv.take(0) =~= Seq::<(usize, Seq<Mono>)>::empty());
        assert(m@.dom() =~= repl_map(rv.take(0)).dom());
    }
    while i < rs.len()
        invariant
            i <= rs@.len(),
            repls_wf(rs@),
            rv == repl_view(rs@),
            substs_as(m@, repl_map(rv.take(i as int))),
        decreases rs@.len() - i,
    {
        let (v, a) = (rs[i].0, rs[i].1.clone());
        proof {
            assert(rs@[i as int].1.wf());
            assert(rv.take(i + 1).drop_last() =~= rv.take(i as int));
            assert(rv.take(i + 1).last() == (v, rs@[i as int].1.poly()));
        }
        m.insert(v, a);
        proof {
            assert(m@.dom() =~= repl_map(rv.take(i + 1)).dom());
        }
        i += 1;
    }
    proof {
        assert(rv.take(rs@.len() as int) =~= rv);
    }
    m
}

/// Give each variable below `n` without a replacement a fresh variable, numbered from
/// `nvars` on.
fn add_fresh(m: &mut HashMap<usize, Axis>, n: usize, nvars: &mut usize, Ghost(e): Ghost<Map<usize, Seq<Mono>>>)
    requires
        substs_as(old(m)@, e),
        *old(nvars) + n <= usize::MAX,
    ensures
        substs_as(final(m)@, with_fresh(e, *old(nvars) as nat, n as nat).0),
        *final(nvars) == with_fresh(e, *old(nvars) as nat, n as nat).1,
{
    broadcast use vstd::std_specs::hash::group_hash_axioms;
    let ghost nv0 = *nvars as nat;
    let mut i: usize = 0;
    while i < n
        invariant
            i <= n,
            nv0 + n <= usize::MAX,
            substs_as(m@, with_fresh(e, nv0, i as nat).0),
            *nvars == with_fresh(e, nv0, i as nat).1,
        decreases n - i,
    {
        proof {
            lemma_with_fresh_bounds(e, nv0, i as nat);
        }
        if !m.contains_key(&i) {
            let ghost before = *nvars;
            let a = Axis::newvar(nvars);
            m.insert(i, a);
            proof {
                assert(m@.dom() =~= with_fresh(e, nv0, (i + 1) as nat).0.dom());
            }
        }
        i += 1;
    }
}

/// The largest number of variables the first `k` requirements use.
pub open spec fn reqs_nvars(reqs: Seq<Condition>, k: int) -> nat
    decreases k,
{
    if k <= 0 {
        0
    } else {
        let m = reqs_nvars(reqs, k - 1);
        if reqs[k - 1].spec_to_nvars() > m { reqs[k - 1].spec_to_nvars() } else { m }
    }
}

/// The largest number of variables the shapes of the first `k` values use.
pub open spec fn vals_nvars<V>(outs: Seq<ValInfo<V>>, k: int) -> nat
    decreases k,
{
    if k <= 0 {
        0
    } else {
        let m = vals_nvars(outs, k - 1);
        if outs[k - 1].shape.spec_to_nvars() > m { outs[k - 1].shape.spec_to_nvars() } else { m }
    }
}

/// What the analysis found of a function on some arguments: requirements on the axis
/// lengths, the arguments, and the outputs.
pub struct FuncInfos<V> {
    pub reqs: Vec<Condition>,
    pub args: Vec<ValInfo<V>>,
    pub outs: Vec<ValInfo<V>>,
}

/// The number of variables that must have replacements before what was found of a
/// function can be specialized: the most that a requirement or an output uses.
pub open spec fn min_nvars<V>(fi: FuncInfos<V>) -> nat {
    let a = reqs_nvars(fi.reqs@, fi.reqs@.len() as int);
    let b = vals_nvars(fi.outs@, fi.outs@.len() as int);
    if a >= b { a } else { b }
}

fn count_nvars<V>(fi: &FuncInfos<V>) -> (r: usize)
    ensures
        r == min_nvars(*fi),
{
    let mut a: usize = 0;
    let mut i: usize = 0;
    while i < fi.reqs.len()
        invariant
            i <= fi.reqs@.len(),
            a == reqs_nvars(fi.reqs@, i as int),
        decreases fi.reqs@.len() - i,
    {
        let k = fi.reqs[i].to_nvars();
        if k > a {
            a = k;
        }
        i += 1;
    }
    let b = arg_nvars(&fi.outs);
    if a >= b { a } else { b }
}

/// The number of variables the shapes of the values use: when a function is analyzed
/// on these arguments, the first free variable number.
pub fn arg_nvars<V>(arg_infos: &Vec<ValInfo<V>>) -> (r: usize)
    ensures
        r == vals_nvars(arg_infos@, arg_infos@.len() as int),
{
    let mut b: usize = 0;
    let mut j: usize = 0;
    while j < arg_infos.len()
        invariant
            j <= arg_infos@.len(),
            b == vals_nvars(arg_infos@, j as int),
        decreases arg_infos@.len() - j,
    {
        let k = arg_infos[j].shape.to_nvars();
        if k > b {
            b = k;
        }
        j += 1;
    }
    b
}

/// Every relation of the requirement can be substituted into.
fn cond_fits(c: &Condition, sm: &HashMap<usize, Axis>) -> (r: bool)
    requires
        c.wf(),
        substs_wf(sm@),
    ensures
        r == forall|i: int| 0 <= i < c.rels().len() ==> (#[trigger] c.rels()[i]).expr.subst_req(sm@),
{
    match c {
        Condition::Or(rels) => {
            let mut i: usize = 0;
            while i < rels.len()
                invariant
                    i <= rels@.len(),
                    rels@ == c.rels(),
                    c.wf(),
                    substs_wf(sm@),
                    forall|q: int| 0 <= q < i ==> (#[trigger] c.rels()[q]).expr.subst_req(sm@),
                decreases rels@.len() - i,
            {
                proof {
                    assert(c.rels()[i as int].wf());
                }
                if !subst_fits(&rels[i].expr, sm) {
                    return false;
                }
                i += 1;
            }
            true
        },
    }
}

/// Every length can be substituted into.
fn axes_fit(a: &Vec<Axis>, sm: &HashMap<usize, Axis>) -> (r: bool)
    requires
        axes_wf(a@),
        substs_wf(sm@),
    ensures
        r == axes_subst_req(a@, sm@),
{
    let mut i: usize = 0;
    while i < a.len()
        invariant
            i <= a@.len(),
            axes_wf(a@),
            substs_wf(sm@),
            forall|q: int| 0 <= q < i ==> (#[trigger] a@[q]).subst_req(sm@),
        decreases a@.len() - i,
    {
        proof {
            assert(a@[i as int].wf());
        }
        if !subst_fits(&a[i], sm) {
            return false;
        }
        i += 1;
    }
    true
}

/// Every length of the shape can be substituted into.
fn shape_fits<V: Clone>(s: &ShapeInfo<V>, sm: &HashMap<usize, Axis>) -> (r: bool)
    requires
        s.wf(),
        substs_wf(sm@),
    ensures
        r == s.subst_req(sm@),
{
    match s {
        ShapeInfo::Known(_) => true,
        ShapeInfo::Ranked(a) => axes_fit(a, sm),
        ShapeInfo::Unranked { prefix, suffix } => axes_fit(prefix, sm) && axes_fit(suffix, sm),
    }
}

proof fn lemma_rel_nvars(rs: Seq<crate::relation::Relation>, i: int)
    requires
        0 <= i < rs.len(),
    ensures
        rs[i].expr.spec_to_nvars() <= max_rel_nvars(rs),
    decreases rs.len(),
{
    if i < rs.len() - 1 {
        lemma_rel_nvars(rs.drop_last(), i);
    }
}

proof fn lemma_axes_nvars(a: Seq<Axis>, i: int)
    requires
        0 <= i < a.len(),
    ensures
        a[i].spec_to_nvars() <= axes_nvars(a),
    decreases a.len(),
{
    if i < a.len() - 1 {
        lemma_axes_nvars(a.drop_last(), i);
    }
}

proof fn lemma_reqs_nvars(reqs: Seq<Condition>, k: int, j: int)
    requires
        0 <= j < k <= reqs.len(),
    ensures
        reqs[j].spec_to_nvars() <= reqs_nvars(reqs, k),
    decreases k,
{
    if j < k - 1 {
        lemma_reqs_nvars(reqs, k - 1, j);
    }
}

proof fn lemma_vals_nvars<V>(outs: Seq<ValInfo<V>>, k: int, j: int)
    requires
        0 <= j < k <= outs.len(),
    ensures
        outs[j].shape.spec_to_nvars() <= vals_nvars(outs, k),
    decreases k,
{
    if j < k - 1 {
        lemma_vals_nvars(outs, k - 1, j);
    }
}

/// Why what was found of a function could not be specialized to a call.
#[derive(Clone, Copy, Debug, PartialEq, Eq, Structural)]
pub enum MatchError {
    /// A requirement of the function can never hold for these arguments.
    Unsatisfied,
    /// Substituting the replacements would take coefficients or exponents out of range.
    TooLarge,
}

/// Every relation of every requirement can be substituted into.
pub open spec fn reqs_fit(reqs: Seq<Condition>, sm: Map<usize, Axis>) -> bool {
    forall|j: int, i: int| 0 <= j < reqs.len() && 0 <= i < reqs[j].rels().len()
        ==> (#[trigger] reqs[j].rels()[i]).expr.subst_req(sm)
}

/// Every output's shape can be substituted into.
pub open spec fn outs_fit<V: Clone>(outs: Seq<ValInfo<V>>, sm: Map<usize, Axis>) -> bool {
    forall|j: int| 0 <= j < outs.len() ==> (#[trigger] outs[j]).shape.subst_req(sm)
}

/// The requirement holds for no values of the variables once `sm` is substituted.
pub open spec fn never_holds(c: Condition, sm: Map<usize, Axis>) -> bool {
    forall|env: spec_fn(nat) -> int| !(#[trigger] c.holds(subst_env(sm, env)))
}

/// `res` is what specializing the requirements and outputs to the replacements `sm`
/// gives: too large where a requirement cannot be substituted into; unsatisfied only
/// where some requirement can never hold; otherwise the outputs with the replacements
/// substituted into their shapes, or too large where that cannot be done.
pub open spec fn specialized<V: Clone>(reqs: Seq<Condition>, outs: Seq<ValInfo<V>>, sm: Map<usize, Axis>,
    res: Result<NodeInfo<V>, MatchError>) -> bool
{
    &&& !reqs_fit(reqs, sm) ==> res == Err::<NodeInfo<V>, MatchError>(MatchError::TooLarge)
    &&& match res {
        Err(MatchError::TooLarge) => !reqs_fit(reqs, sm) || !outs_fit(outs, sm),
        Err(MatchError::Unsatisfied) => reqs_fit(reqs, sm) && exists|j: int| 0 <= j < reqs.len()
            && #[trigger] never_holds(reqs[j], sm),
        Ok(info) => {
            &&& reqs_fit(reqs, sm)
            &&& outs_fit(outs, sm)
            &&& info.vals@.len() == outs.len()
            &&& info.subfunc_idxs@.len() == 0
            &&& forall|j: int| 0 <= j < outs.len() ==> {
                &&& (#[trigger] info.vals@[j]).typ == outs[j].typ
                &&& info.vals@[j].range == outs[j].range
                &&& outs[j].shape.substituted(info.vals@[j].shape, sm)
            }
        },
    }
}

/// Specialize what was found of a function to the replacements `sm`.
fn specialize<V: Clone>(fi: &FuncInfos<V>, sm: &HashMap<usize, Axis>) -> (r: Result<NodeInfo<V>, MatchError>)
    requires
        forall|j: int| 0 <= j < fi.reqs@.len() ==> (#[trigger] fi.reqs@[j]).wf(),
        forall|j: int| 0 <= j < fi.outs@.len() ==> (#[trigger] fi.outs@[j]).shape.wf(),
        substs_wf(sm@),
        forall|k: usize| k < min_nvars(*fi) ==> #[trigger] sm@.contains_key(k),
    ensures
        specialized(fi.reqs@, fi.outs@, sm@, r),
{
    let ghost reqs = fi.reqs@;
    let ghost outs = fi.outs@;
    let mut subbed: Vec<Condition> = Vec::new();
    let mut j: usize = 0;
    while j < fi.reqs.len()
        invariant
            j <= reqs.len(),
            reqs == fi.reqs@,
            forall|q: int| 0 <= q < reqs.len() ==> (#[trigger] reqs[q]).wf(),
            substs_wf(sm@),
            forall|k: usize| k < min_nvars(*fi) ==> #[trigger] sm@.contains_key(k),
            subbed@.len() == j,
            forall|q: int, i: int| 0 <= q < j && 0 <= i < reqs[q].rels().len()
                ==> (#[trigger] reqs[q].rels()[i]).expr.subst_req(sm@),
            forall|q: int| 0 <= q < j ==> (#[trigger] subbed@[q]).wf()
                && forall|env: spec_fn(nat) -> int| #[trigger] subbed@[q].holds(env) == reqs[q].holds(subst_env(sm@, env)),
        decreases reqs.len() - j,
    {
        let c = &fi.reqs[j];
        proof {
            assert(reqs[j as int].wf());
        }
        if !cond_fits(c, sm) {
            return Err(MatchError::TooLarge);
        }
        proof {
            lemma_reqs_nvars(reqs, reqs.len() as int, j as int);
            assert forall|i: int| 0 <= i < c.rels().len() implies !(#[trigger] c.rels()[i]).expr.missing_var(sm@) by {
                lemma_rel_nvars(c.rels(), i);
            }
        }
        match c.substitute(sm) {
            Ok(c2) => {
                subbed.push(c2);
            },
            Err(_) => {
                return Err(MatchError::TooLarge);
            },
        }
        j += 1;
    }
    let mut q: usize = 0;
    while q < subbed.len()
        invariant
            q <= subbed@.len(),
            subbed@.len() == reqs.len(),
            reqs_fit(reqs, sm@),
            reqs == fi.reqs@,
            forall|t: int| 0 <= t < subbed@.len() ==> (#[trigger] subbed@[t]).wf()
                && forall|env: spec_fn(nat) -> int| #[trigger] subbed@[t].holds(env) == reqs[t].holds(subst_env(sm@, env)),
        decreases subbed@.len() - q,
    {
        proof {
            assert(subbed@[q as int].wf());
        }
        if subbed[q].trivial() == Some(false) {
            proof {
                assert forall|env: spec_fn(nat) -> int| !(#[trigger] reqs[q as int].holds(subst_env(sm@, env))) by {
                    assert(!subbed@[q as int].holds(env));
                }
                assert(never_holds(reqs[q as int], sm@));
            }
            return Err(MatchError::Unsatisfied);
        }
        q += 1;
    }
    let mut vals: Vec<ValInfo<V>> = Vec::new();
    let mut k: usize = 0;
    while k < fi.outs.len()
        invariant
            k <= outs.len(),
            outs == fi.outs@,
            forall|t: int| 0 <= t < outs.len() ==> (#[trigger] outs[t]).shape.wf(),
            substs_wf(sm@),
            forall|key: usize| key < min_nvars(*fi) ==> #[trigger] sm@.contains_key(key),
            reqs_fit(reqs, sm@),
            vals@.len() == k,
            forall|t: int| 0 <= t < k ==> (#[trigger] outs[t]).shape.subst_req(sm@),
            forall|t: int| 0 <= t < k ==> {
                &&& (#[trigger] vals@[t]).typ == outs[t].typ
                &&& vals@[t].range == outs[t].range
                &&& outs[t].shape.substituted(vals@[t].shape, sm@)
            },
        decreases outs.len() - k,
    {
        let o = &fi.outs[k];
        proof {
            assert(outs[k as int].shape.wf());
        }
        if !shape_fits(&o.shape, sm) {
            return Err(MatchError::TooLarge);
        }
        proof {
            lemma_vals_nvars(outs, outs.len() as int, k as int);
            match outs[k as int].shape {
                ShapeInfo::Known(_) => {},
                ShapeInfo::Ranked(a) => {
                    assert forall|i: int| 0 <= i < a@.len() implies !(#[trigger] a@[i]).missing_var(sm@) by {
                        lemma_axes_nvars(a@, i);
                    }
                },
                ShapeInfo::Unranked { prefix, suffix } => {
                    assert forall|i: int| 0 <= i < prefix@.len() implies !(#[trigger] prefix@[i]).missing_var(sm@) by {
                        lemma_axes_nvars(prefix@, i);
                    }
                    assert forall|i: int| 0 <= i < suffix@.len() implies !(#[trigger] suffix@[i]).missing_var(sm@) by {
                        lemma_axes_nvars(suffix@, i);
                    }
                },
            }
        }
        match o.shape.substitute(sm) {
            Ok(shape) => {
                vals.push(ValInfo { typ: o.typ, shape, range: o.range });
            },
            Err(_) => {
                return Err(MatchError::TooLarge);
            },
        }
        k += 1;
    }
    Ok(NodeInfo { vals, subfunc_idxs: Vec::new() })
}

/// Some map of the replacements `e` to lengths specializes the requirements and
/// outputs to `res`.
pub open spec fn specialized_as<V: Clone>(reqs: Seq<Condition>, outs: Seq<ValInfo<V>>, e: Map<usize, Seq<Mono>>,
    res: Result<NodeInfo<V>, MatchError>) -> bool
{
    exists|sm: Map<usize, Axis>| #[trigger] substs_as(sm, e) && specialized(reqs, outs, sm, res)
}

/// `r` is what matching the arguments `args` against what was found of a function
/// gives, the variable counter going from `nv0` to `nv1`: for some outcome of the
/// comparisons of known values, either a pair of arguments does not match (`None`,
/// counter unchanged), or the replacements asked for, with a fresh variable for each
/// variable below `min_nvars` left without one, specialize the function to `r`.
pub open spec fn match_result<V: Clone, F: Fn(&KnownValue<V>, &KnownValue<V>) -> bool>(args: Seq<ValInfo<V>>,
    fi: FuncInfos<V>, same: F, nv0: nat, nv1: nat, r: Option<Result<NodeInfo<V>, MatchError>>) -> bool
{
    exists|sames: Seq<bool>, rs: Option<Seq<(usize, Seq<Mono>)>>|
        #[trigger] matched_with(args, fi.args@, same, sames, rs) && match rs {
            None => r is None && nv1 == nv0,
            Some(s) => {
                let e = with_fresh(repl_map(s), nv0, min_nvars(fi));
                &&& nv1 == e.1
                &&& r is Some
                &&& specialized_as(fi.reqs@, fi.outs@, e.0, r->0)
            },
        }
}

/// What matching needs of the arguments and of what was found of the function: each
/// pair of arguments as `pair_ok` says, well-formed requirements and output shapes.
pub open spec fn match_ok<V>(args: Seq<ValInfo<V>>, fi: FuncInfos<V>) -> bool {
    &&& forall|i: int| 0 <= i < args.len() && i < fi.args@.len() ==> #[trigger] pair_ok(args[i], fi.args@[i])
    &&& forall|j: int| 0 <= j < fi.reqs@.len() ==> (#[trigger] fi.reqs@[j]).wf()
    &&& forall|j: int| 0 <= j < fi.outs@.len() ==> (#[trigger] fi.outs@[j]).shape.wf()
}

/// Attempt to match the arguments of a call to what was found of a function.
/// `None` if the arguments do not match; `Some(Err(..))` if they match but the
/// requirements cannot be met; otherwise the outputs, specialized to the call.
/// Variables of the function that the arguments do not fix get fresh variables from
/// `nvars`. `same` tells whether two known values are equal.
pub fn try_match_func<V: Clone, F: Fn(&KnownValue<V>, &KnownValue<V>) -> bool>(arg_infos: &Vec<ValInfo<V>>,
    func_infos: &FuncInfos<V>, nvars: &mut usize, same: &F) -> (r: Option<Result<NodeInfo<V>, MatchError>>)
    requires
        forall|a: &KnownValue<V>, b: &KnownValue<V>| call_requires(*same, (a, b)),
        match_ok(arg_infos@, *func_infos),
        *old(nvars) + min_nvars(*func_infos) <= usize::MAX,
    ensures
        match_result(arg_infos@, *func_infos, *same, *old(nvars) as nat, *final(nvars) as nat, r),
{
    let ghost nv0 = *nvars as nat;
    let matched = match_args(arg_infos, &func_infos.args, same);
    let ghost sames = choose|sames: Seq<bool>| #[trigger] matched_with(arg_infos@, func_infos.args@, *same, sames,
        repls_opt(matched));
    match matched {
        None => {
            proof {
                assert(matched_with(arg_infos@, func_infos.args@, *same, sames, None));
            }
            None
        },
        Some(rs) => {
            let ghost e = repl_map(repl_view(rs@));
            let mut sm = build_substs(&rs);
            let n = count_nvars(func_infos);
            add_fresh(&mut sm, n, nvars, Ghost(e));
            proof {
                let f = with_fresh(e, nv0, n as nat);
                lemma_with_fresh_bounds(e, nv0, n as nat);
                assert(substs_wf(sm@));
                assert forall|k: usize| k < min_nvars(*func_infos) implies #[trigger] sm@.contains_key(k) by {
                    assert(f.0.contains_key(k));
                }
            }
            let res = specialize(func_infos, &sm);
            proof {
                assert(substs_as(sm@, with_fresh(e, nv0, n as nat).0));
                assert(specialized_as(func_infos.reqs@, func_infos.outs@, with_fresh(e, nv0, n as nat).0, res));
                assert(matched_with(arg_infos@, func_infos.args@, *same, sames, Some(repl_view(rs@))));
            }
            Some(res)
        },
    }
}

/// A function analyzed on some arguments: the function's id, its graph, what was
/// found, and where its code starts, if known.
pub struct AnalyzedFunc<V> {
    pub id: usize,
    pub graph: DataGraph,
    pub infos: FuncInfos<V>,
    pub span: Option<usize>,
}

impl<V> AnalyzedFunc<V> {
    pub fn new(id: usize, graph: DataGraph, infos: FuncInfos<V>, span: Option<usize>) -> (r: Self)
        ensures
            r == (AnalyzedFunc { id, graph, infos, span }),
    {
        AnalyzedFunc { id, graph, infos, span }
    }
}

/// The functions analyzed so far, each on the arguments it was analyzed on.
pub struct FuncLib<V> {
    pub funcs: Vec<AnalyzedFunc<V>>,
}

/// Matching the arguments against what was found of a function can fail at some pair
/// of arguments.
pub open spec fn no_match<V, F: Fn(&KnownValue<V>, &KnownValue<V>) -> bool>(args: Seq<ValInfo<V>>,
    fi: FuncInfos<V>, same: F) -> bool
{
    exists|sames: Seq<bool>| #[trigger] matched_with(args, fi.args@, same, sames, None)
}

impl<V: Clone> FuncLib<V> {
    pub fn new() -> (r: Self)
        ensures
            r.funcs@.len() == 0,
    {
        FuncLib { funcs: Vec::new() }
    }

    /// What a lookup needs: matching is possible against each function with the id,
    /// and the variable counter has room for its fresh variables.
    pub open spec fn find_ok(self, id: usize, args: Seq<ValInfo<V>>, nv: nat) -> bool {
        forall|i: int| 0 <= i < self.funcs@.len() && #[trigger] self.funcs@[i].id == id ==> {
            &&& match_ok(args, self.funcs@[i].infos)
            &&& nv + min_nvars(self.funcs@[i].infos) <= usize::MAX
        }
    }

    /// Find the first function with the id whose analysis the arguments match, in the
    /// order the functions were added, and what matching it gives; `None` if the
    /// arguments match none of them.
    pub fn find<F: Fn(&KnownValue<V>, &KnownValue<V>) -> bool>(&self, id: usize, arg_infos: &Vec<ValInfo<V>>,
        nvars: &mut usize, same: &F) -> (r: Option<(usize, Result<NodeInfo<V>, MatchError>)>)
        requires
            forall|a: &KnownValue<V>, b: &KnownValue<V>| call_requires(*same, (a, b)),
            self.find_ok(id, arg_infos@, *old(nvars) as nat),
        ensures
            match r {
                None => {
                    &&& *final(nvars) == *old(nvars)
                    &&& forall|i: int| 0 <= i < self.funcs@.len() && #[trigger] self.funcs@[i].id == id
                        ==> no_match(arg_infos@, self.funcs@[i].infos, *same)
                },
                Some((k, res)) => {
                    &&& k < self.funcs@.len()
                    &&& self.funcs@[k as int].id == id
                    &&& forall|i: int| 0 <= i < k && #[trigger] self.funcs@[i].id == id
                        ==> no_match(arg_infos@, self.funcs@[i].infos, *same)
                    &&& match_result(arg_infos@, self.funcs@[k as int].infos, *same, *old(nvars) as nat,
                        *final(nvars) as nat, Some(res))
                },
            },
    {
        let ghost nv0 = *nvars;
        let mut i: usize = 0;
        while i < self.funcs.len()
            invariant
                i <= self.funcs@.len(),
                *nvars == nv0,
                nv0 == *old(nvars),
                forall|a: &KnownValue<V>, b: &KnownValue<V>| call_requires(*same, (a, b)),
                self.find_ok(id, arg_infos@, nv0 as nat),
                forall|q: int| 0 <= q < i && #[trigger] self.funcs@[q].id == id
                    ==> no_match(arg_infos@, self.funcs@[q].infos, *same),
            decreases self.funcs@.len() - i,
        {
            let f = &self.funcs[i];
            if f.id == id {
                proof {
                    assert(self.funcs@[i as int].id == id);
                }
                let m = try_match_func(arg_infos, &f.infos, nvars, same);
                match m {
                    Some(res) => {
                        return Some((i, res));
                    },
                    None => {
                        proof {
                            let fi = self.funcs@[i as int].infos;
                            let (sames, rs) = choose|sames: Seq<bool>, rs: Option<Seq<(usize, Seq<Mono>)>>|
                                #[trigger] matched_with(arg_infos@, fi.args@, *same, sames, rs) && match rs {
                                    None => m is None && *nvars == nv0,
                                    Some(s) => {
                                        let e = with_fresh(repl_map(s), nv0 as nat, min_nvars(fi));
                                        &&& *nvars == e.1
                                        &&& m is Some
                                        &&& specialized_as(fi.reqs@, fi.outs@, e.0, m->0)
                                    },
                                };
                            assert(rs is None);
                            assert(no_match(arg_infos@, fi, *same));
                        }
                    },
                }
            }
            i += 1;
        }
        None
    }
}

/// A call matches a function analyzed before only where each argument agrees with the
/// function's argument in its type id and in the machine type it is compiled to: a
/// function specialized for `u8` lists is not reused for `u32` ones. This holds of
/// every match that `try_match_func` reports (`Some`, whether `Ok` or `Err`).
pub proof fn lemma_match_keeps_machine_types<V: Clone, F: Fn(&KnownValue<V>, &KnownValue<V>) -> bool>(
    args: Seq<ValInfo<V>>, fi: FuncInfos<V>, same: F, nv0: nat, nv1: nat, r: Option<Result<NodeInfo<V>, MatchError>>)
    requires
        match_result(args, fi, same, nv0, nv1, r),
        r is Some,
    ensures
        forall|i: int| 0 <= i < args.len() && i < fi.args@.len() ==> {
            &&& (#[trigger] args[i]).typ == fi.args@[i].typ
            &&& CompType::spec_from_info(args[i].typ, args[i].range)
                == CompType::spec_from_info(fi.args@[i].typ, fi.args@[i].range)
        },
{
    let (sames, rs) = choose|sames: Seq<bool>, rs: Option<Seq<(usize, Seq<Mono>)>>|
        #[trigger] matched_with(args, fi.args@, same, sames, rs) && match rs {
            None => r is None && nv1 == nv0,
            Some(s) => {
                let e = with_fresh(repl_map(s), nv0, min_nvars(fi));
                &&& nv1 == e.1
                &&& r is Some
                &&& specialized_as(fi.reqs@, fi.outs@, e.0, r->0)
            },
        };
    lemma_args_match_types(args, fi.args@, sames, pair_count(args, fi.args@));
}

} // verus!
