//! Products of polynomials given as lists of terms, and their values.

use vstd::prelude::*;
use vstd::arithmetic::power::{pow, lemma_pow_adds, lemma_pow0, lemma_pow_positive};
use crate::axis::{
    Mono, sum_of, coef_fn, eval_fn, abs_fn, abs, mono, distinct_keys, all_trimmed, keys_of,
    trimmed, added_at, lemma_sum_of_push, lemma_sum_of_concat, lemma_keys_push,
};

verus! {

/// Entry `p` of an exponent list, with exponent 0 past its end.
pub open spec fn get0(k: Seq<usize>, p: int) -> int {
    if 0 <= p < k.len() { k[p] as int } else { 0 }
}

pub open spec fn max_nat(a: nat, b: nat) -> nat {
    if a >= b { a } else { b }
}

/// The exponents of a product of two monomials: entrywise sums.
pub open spec fn key_add(a: Seq<usize>, b: Seq<usize>) -> Seq<usize> {
    Seq::new(max_nat(a.len(), b.len()), |p: int| (get0(a, p) + get0(b, p)) as usize)
}

/// The entrywise sums of two exponent lists fit in `usize`.
pub open spec fn keys_fit(a: Seq<usize>, b: Seq<usize>) -> bool {
    forall|p: int| #[trigger] get0(a, p) + get0(b, p) <= usize::MAX
}

/// Every pair of exponent lists, one from each list of terms, can be summed.
pub open spec fn exps_fit(a: Seq<Mono>, b: Seq<Mono>) -> bool {
    forall|i: int, j: int| 0 <= i < a.len() && 0 <= j < b.len() ==> keys_fit(#[trigger] a[i].0, #[trigger] b[j].0)
}

/// No exponent exceeds `m`.
pub open spec fn exps_bounded(ts: Seq<Mono>, m: int) -> bool {
    forall|i: int, p: int| 0 <= i < ts.len() ==> #[trigger] get0(ts[i].0, p) <= m
}

/// The terms of the product of one term with each of a list.
pub open spec fn row_prods(t: Mono, bs: Seq<Mono>) -> Seq<Mono> {
    bs.map_values(|u: Mono| (key_add(t.0, u.0), t.1 * u.1))
}

/// The terms of the product of two polynomials, every pair once, unmerged.
pub open spec fn prod_list(a: Seq<Mono>, b: Seq<Mono>) -> Seq<Mono>
    decreases a.len(),
{
    if a.len() == 0 {
        Seq::empty()
    } else {
        prod_list(a.drop_last(), b) + row_prods(a.last(), b)
    }
}

/// `acc` stores, with distinct trimmed keys, the same polynomial as the list `l`.
pub open spec fn represents(acc: Seq<Mono>, l: Seq<Mono>) -> bool {
    &&& distinct_keys(acc)
    &&& all_trimmed(acc)
    &&& forall|e: Seq<usize>| #[trigger] sum_of(acc, coef_fn(e)) == sum_of(l, coef_fn(e))
    &&& forall|env: spec_fn(nat) -> int| #[trigger] sum_of(acc, eval_fn(env)) == sum_of(l, eval_fn(env))
    &&& sum_of(acc, abs_fn()) <= sum_of(l, abs_fn())
    &&& keys_of(acc) == keys_of(l)
}

/// The product of the powers of the first `n` variables.
pub open spec fn mono_n(k: Seq<usize>, n: nat, env: spec_fn(nat) -> int) -> int
    decreases n,
{
    if n == 0 {
        1
    } else {
        mono_n(k, (n - 1) as nat, env) * pow(env((n - 1) as nat), get0(k, n - 1) as nat)
    }
}

pub proof fn lemma_represents_step(acc: Seq<Mono>, acc2: Seq<Mono>, l: Seq<Mono>, x: Mono)
    requires
        represents(acc, l),
        distinct_keys(acc2),
        all_trimmed(acc2),
        added_at(acc, acc2, x.0, x.1),
    ensures
        represents(acc2, l.push(x)),
{
    assert forall|e: Seq<usize>| #[trigger] sum_of(acc2, coef_fn(e)) == sum_of(l.push(x), coef_fn(e)) by {
        lemma_sum_of_push(l, x, coef_fn(e));
        assert(sum_of(acc2, coef_fn(e)) == sum_of(acc, coef_fn(e)) + (if e == x.0 { x.1 } else { 0 }));
    }
    assert forall|env: spec_fn(nat) -> int| #[trigger] sum_of(acc2, eval_fn(env)) == sum_of(l.push(x), eval_fn(env)) by {
        lemma_sum_of_push(l, x, eval_fn(env));
        assert(sum_of(acc2, eval_fn(env)) == sum_of(acc, eval_fn(env)) + x.1 * mono(x.0, env));
    }
    lemma_sum_of_push(l, x, abs_fn());
    lemma_keys_push(l, x);
}

pub proof fn lemma_represents_empty()
    ensures
        represents(Seq::<Mono>::empty(), Seq::<Mono>::empty()),
{
    assert(keys_of(Seq::<Mono>::empty()) =~= Set::empty());
}

pub proof fn lemma_mono_n_ext(a: Seq<usize>, b: Seq<usize>, n: nat, env: spec_fn(nat) -> int)
    requires
        forall|p: int| 0 <= p < n ==> get0(a, p) == get0(b, p),
    ensures
        mono_n(a, n, env) == mono_n(b, n, env),
    decreases n,
{
    if n > 0 {
        lemma_mono_n_ext(a, b, (n - 1) as nat, env);
        assert(get0(a, n - 1) == get0(b, n - 1));
    }
}

pub proof fn lemma_mono_is_mono_n(k: Seq<usize>, env: spec_fn(nat) -> int)
    ensures
        mono(k, env) == mono_n(k, k.len(), env),
    decreases k.len(),
{
    if k.len() > 0 {
        let d = k.drop_last();
        lemma_mono_is_mono_n(d, env);
        lemma_mono_n_ext(d, k, d.len(), env);
        assert(get0(k, k.len() - 1) == k.last());
    }
}

pub proof fn lemma_mono_n_beyond(k: Seq<usize>, n: nat, env: spec_fn(nat) -> int)
    requires
        n >= k.len(),
    ensures
        mono_n(k, n, env) == mono(k, env),
    decreases n,
{
    if n > k.len() {
        lemma_mono_n_beyond(k, (n - 1) as nat, env);
        lemma_pow0(env((n - 1) as nat));
        assert(get0(k, n - 1) == 0);
    } else {
        lemma_mono_is_mono_n(k, env);
    }
}

pub proof fn lemma_mono_n_sum(a: Seq<usize>, b: Seq<usize>, c: Seq<usize>, n: nat, env: spec_fn(nat) -> int)
    requires
        forall|p: int| 0 <= p < n ==> get0(c, p) == get0(a, p) + get0(b, p),
    ensures
        mono_n(c, n, env) == mono_n(a, n, env) * mono_n(b, n, env),
    decreases n,
{
    if n > 0 {
        let m = (n - 1) as nat;
        lemma_mono_n_sum(a, b, c, m, env);
        let x = env(m);
        let ea = get0(a, m as int);
        let eb = get0(b, m as int);
        assert(get0(c, m as int) == ea + eb);
        assert(ea >= 0 && eb >= 0) by {
            if 0 <= m < a.len() {} 
            if 0 <= m < b.len() {}
        }
        lemma_pow_adds(x, ea as nat, eb as nat);
        let pa = mono_n(a, m, env);
        let pb = mono_n(b, m, env);
        let qa = pow(x, ea as nat);
        let qb = pow(x, eb as nat);
        assert((pa * pb) * (qa * qb) == (pa * qa) * (pb * qb)) by (nonlinear_arith);
    }
}

pub proof fn lemma_key_add_get(a: Seq<usize>, b: Seq<usize>)
    requires
        keys_fit(a, b),
    ensures
        forall|p: int| #[trigger] get0(key_add(a, b), p) == get0(a, p) + get0(b, p),
        key_add(a, b).len() == max_nat(a.len(), b.len()),
{
    assert forall|p: int| #[trigger] get0(key_add(a, b), p) == get0(a, p) + get0(b, p) by {
        assert(get0(a, p) + get0(b, p) <= usize::MAX);
        if 0 <= p < a.len() {}
        if 0 <= p < b.len() {}
    }
}

/// The value of a product of monomials is the product of their values.
pub proof fn lemma_mono_key_add(a: Seq<usize>, b: Seq<usize>, env: spec_fn(nat) -> int)
    requires
        keys_fit(a, b),
    ensures
        mono(key_add(a, b), env) == mono(a, env) * mono(b, env),
{
    let c = key_add(a, b);
    lemma_key_add_get(a, b);
    let n = c.len();
    lemma_mono_n_sum(a, b, c, n, env);
    lemma_mono_n_beyond(a, n, env);
    lemma_mono_n_beyond(b, n, env);
    lemma_mono_n_beyond(c, n, env);
}

pub proof fn lemma_key_add_trimmed(a: Seq<usize>, b: Seq<usize>)
    requires
        keys_fit(a, b),
        trimmed(a),
        trimmed(b),
    ensures
        trimmed(key_add(a, b)),
{
    lemma_key_add_get(a, b);
    let c = key_add(a, b);
    if c.len() > 0 {
        let p = c.len() - 1;
        assert(get0(c, p) == c.last());
        if a.len() >= b.len() {
            assert(get0(a, p) == a.last());
        } else {
            assert(get0(b, p) == b.last());
        }
    }
}

pub proof fn lemma_key_add_empty(k: Seq<usize>)
    ensures
        key_add(Seq::empty(), k) == k,
        key_add(k, Seq::empty()) == k,
{
    assert(key_add(Seq::empty(), k) =~= k);
    assert(key_add(k, Seq::empty()) =~= k);
}

pub proof fn lemma_row_prods_take(t: Mono, bs: Seq<Mono>, j: int)
    requires
        0 <= j < bs.len(),
    ensures
        row_prods(t, bs.take(j + 1)) == row_prods(t, bs.take(j)).push((key_add(t.0, bs[j].0), t.1 * bs[j].1)),
{
    assert(row_prods(t, bs.take(j + 1)) =~= row_prods(t, bs.take(j)).push((key_add(t.0, bs[j].0), t.1 * bs[j].1)));
}

pub proof fn lemma_prod_list_take(a: Seq<Mono>, b: Seq<Mono>, i: int)
    requires
        0 <= i < a.len(),
    ensures
        prod_list(a.take(i + 1), b) == prod_list(a.take(i), b) + row_prods(a[i], b),
{
    assert(a.take(i + 1).drop_last() =~= a.take(i));
}

pub proof fn lemma_row_eval(t: Mono, bs: Seq<Mono>, env: spec_fn(nat) -> int)
    requires
        forall|j: int| 0 <= j < bs.len() ==> keys_fit(t.0, #[trigger] bs[j].0),
    ensures
        sum_of(row_prods(t, bs), eval_fn(env)) == t.1 * mono(t.0, env) * sum_of(bs, eval_fn(env)),
    decreases bs.len(),
{
    if bs.len() > 0 {
        let d = bs.drop_last();
        assert(row_prods(t, bs).drop_last() =~= row_prods(t, d));
        lemma_row_eval(t, d, env);
        let u = bs.last();
        assert(keys_fit(t.0, bs[bs.len() - 1].0));
        lemma_mono_key_add(t.0, u.0, env);
        let mt = mono(t.0, env);
        let mu = mono(u.0, env);
        let sd = sum_of(d, eval_fn(env));
        assert((t.1 * u.1) * (mt * mu) + t.1 * mt * sd == t.1 * mt * (sd + u.1 * mu)) by (nonlinear_arith);
    }
}

/// The value of the product list is the product of the values.
pub proof fn lemma_prod_eval(a: Seq<Mono>, b: Seq<Mono>, env: spec_fn(nat) -> int)
    requires
        exps_fit(a, b),
    ensures
        sum_of(prod_list(a, b), eval_fn(env)) == sum_of(a, eval_fn(env)) * sum_of(b, eval_fn(env)),
    decreases a.len(),
{
    if a.len() > 0 {
        let d = a.drop_last();
        assert(exps_fit(d, b)) by {
            assert forall|i: int, j: int| 0 <= i < d.len() && 0 <= j < b.len() implies keys_fit(#[trigger] d[i].0, #[trigger] b[j].0) by {
                assert(d[i] == a[i]);
            }
        }
        lemma_prod_eval(d, b, env);
        let t = a.last();
        assert forall|j: int| 0 <= j < b.len() implies keys_fit(t.0, #[trigger] b[j].0) by {
            assert(keys_fit(a[a.len() - 1].0, b[j].0));
        }
        lemma_row_eval(t, b, env);
        lemma_sum_of_concat(prod_list(d, b), row_prods(t, b), eval_fn(env));
        let sd = sum_of(d, eval_fn(env));
        let sb = sum_of(b, eval_fn(env));
        let mt = mono(t.0, env);
        assert(sd * sb + t.1 * mt * sb == (sd + t.1 * mt) * sb) by (nonlinear_arith);
    }
}

pub proof fn lemma_row_abs(t: Mono, bs: Seq<Mono>)
    ensures
        sum_of(row_prods(t, bs), abs_fn()) == abs(t.1) * sum_of(bs, abs_fn()),
    decreases bs.len(),
{
    if bs.len() > 0 {
        let d = bs.drop_last();
        assert(row_prods(t, bs).drop_last() =~= row_prods(t, d));
        lemma_row_abs(t, d);
        let u = bs.last();
        let sd = sum_of(d, abs_fn());
        assert(abs(t.1 * u.1) == abs(t.1) * abs(u.1)) by (nonlinear_arith);
        assert(abs(t.1) * sd + abs(t.1) * abs(u.1) == abs(t.1) * (sd + abs(u.1))) by (nonlinear_arith);
    }
}

pub proof fn lemma_prod_abs(a: Seq<Mono>, b: Seq<Mono>)
    ensures
        sum_of(prod_list(a, b), abs_fn()) == sum_of(a, abs_fn()) * sum_of(b, abs_fn()),
    decreases a.len(),
{
    if a.len() > 0 {
        let d = a.drop_last();
        lemma_prod_abs(d, b);
        let t = a.last();
        lemma_row_abs(t, b);
        lemma_sum_of_concat(prod_list(d, b), row_prods(t, b), abs_fn());
        let sd = sum_of(d, abs_fn());
        let sb = sum_of(b, abs_fn());
        assert(sd * sb + abs(t.1) * sb == (sd + abs(t.1)) * sb) by (nonlinear_arith);
    }
}

pub proof fn lemma_abs_nonneg(s: Seq<Mono>)
    ensures
        sum_of(s, abs_fn()) >= 0,
    decreases s.len(),
{
    if s.len() > 0 {
        lemma_abs_nonneg(s.drop_last());
    }
}

pub proof fn lemma_abs_take(s: Seq<Mono>, i: int)
    requires
        0 <= i <= s.len(),
    ensures
        sum_of(s.take(i), abs_fn()) <= sum_of(s, abs_fn()),
    decreases s.len() - i,
{
    if i < s.len() {
        lemma_abs_take(s, i + 1);
        assert(s.take(i + 1).drop_last() =~= s.take(i));
    } else {
        assert(s.take(i) =~= s);
    }
}

pub proof fn lemma_represents_refl(s: Seq<Mono>)
    requires
        distinct_keys(s),
        all_trimmed(s),
    ensures
        represents(s, s),
{
}

/// `k` is the sum of the exponents of a term of `a` and a term of `b`.
pub open spec fn key_from(a: Seq<Mono>, b: Seq<Mono>, k: Seq<usize>) -> bool {
    exists|x: int, y: int| 0 <= x < a.len() && 0 <= y < b.len() && k == key_add(#[trigger] a[x].0, #[trigger] b[y].0)
}

/// Every term of the product list has as exponents the sum of exponents of a term from
/// each factor.
pub proof fn lemma_prod_list_keys(a: Seq<Mono>, b: Seq<Mono>)
    ensures
        forall|q: int| 0 <= q < prod_list(a, b).len() ==> key_from(a, b, #[trigger] prod_list(a, b)[q].0),
    decreases a.len(),
{
    if a.len() > 0 {
        let d = a.drop_last();
        lemma_prod_list_keys(d, b);
        let pd = prod_list(d, b);
        let rw = row_prods(a.last(), b);
        assert forall|q: int| 0 <= q < prod_list(a, b).len() implies key_from(a, b, #[trigger] prod_list(a, b)[q].0) by {
            if q < pd.len() {
                assert(key_from(d, b, pd[q].0));
                let (x, y) = choose|x: int, y: int| 0 <= x < d.len() && 0 <= y < b.len() && pd[q].0 == key_add(#[trigger] d[x].0, #[trigger] b[y].0);
                assert(prod_list(a, b)[q] == pd[q]);
                assert(d[x] == a[x]);
                assert(prod_list(a, b)[q].0 == key_add(a[x].0, b[y].0));
            } else {
                let y = q - pd.len();
                assert(prod_list(a, b)[q] == rw[y]);
                assert(rw[y] == (key_add(a.last().0, b[y].0), a.last().1 * b[y].1));
                assert(a.last() == a[a.len() - 1]);
                assert(prod_list(a, b)[q].0 == key_add(a[a.len() - 1].0, b[y].0));
            }
        }
    }
}

/// The exponents of a product are bounded by the sums of the factors' bounds.
pub proof fn lemma_prod_list_bounded(a: Seq<Mono>, b: Seq<Mono>, ma: int, mb: int)
    requires
        exps_fit(a, b),
        exps_bounded(a, ma),
        exps_bounded(b, mb),
    ensures
        exps_bounded(prod_list(a, b), ma + mb),
{
    lemma_prod_list_keys(a, b);
    let pl = prod_list(a, b);
    assert forall|q: int, p: int| 0 <= q < pl.len() implies #[trigger] get0(pl[q].0, p) <= ma + mb by {
        assert(key_from(a, b, pl[q].0));
        let (x, y) = choose|x: int, y: int| 0 <= x < a.len() && 0 <= y < b.len() && pl[q].0 == key_add(#[trigger] a[x].0, #[trigger] b[y].0);
        assert(keys_fit(a[x].0, b[y].0));
        lemma_key_add_get(a[x].0, b[y].0);
        assert(get0(a[x].0, p) <= ma);
        assert(get0(b[y].0, p) <= mb);
    }
}

/// The largest exponent in an exponent list.
pub open spec fn key_max(k: Seq<usize>) -> nat
    decreases k.len(),
{
    if k.len() == 0 { 0 } else { max_nat(key_max(k.drop_last()), k.last() as nat) }
}

/// The largest exponent in any term.
pub open spec fn max_exp(ts: Seq<Mono>) -> nat
    decreases ts.len(),
{
    if ts.len() == 0 { 0 } else { max_nat(max_exp(ts.drop_last()), key_max(ts.last().0)) }
}

pub proof fn lemma_key_max(k: Seq<usize>)
    ensures
        forall|p: int| #[trigger] get0(k, p) <= key_max(k),
    decreases k.len(),
{
    if k.len() > 0 {
        let d = k.drop_last();
        lemma_key_max(d);
        assert forall|p: int| #[trigger] get0(k, p) <= key_max(k) by {
            if 0 <= p < d.len() {
                assert(get0(d, p) == get0(k, p));
            }
        }
    }
}

pub proof fn lemma_max_exp(ts: Seq<Mono>)
    ensures
        exps_bounded(ts, max_exp(ts) as int),
    decreases ts.len(),
{
    if ts.len() > 0 {
        let d = ts.drop_last();
        lemma_max_exp(d);
        lemma_key_max(ts.last().0);
        assert forall|i: int, p: int| 0 <= i < ts.len() implies #[trigger] get0(ts[i].0, p) <= max_exp(ts) as int by {
            if i < d.len() {
                assert(d[i] == ts[i]);
                assert(get0(d[i].0, p) <= max_exp(d));
            }
        }
    }
}

pub proof fn lemma_exps_fit_from_bounds(a: Seq<Mono>, b: Seq<Mono>, ma: int, mb: int)
    requires
        exps_bounded(a, ma),
        exps_bounded(b, mb),
        ma + mb <= usize::MAX,
    ensures
        exps_fit(a, b),
{
    assert forall|i: int, j: int| 0 <= i < a.len() && 0 <= j < b.len() implies keys_fit(#[trigger] a[i].0, #[trigger] b[j].0) by {
        assert forall|p: int| #[trigger] get0(a[i].0, p) + get0(b[j].0, p) <= usize::MAX by {
            assert(get0(a[i].0, p) <= ma);
            assert(get0(b[j].0, p) <= mb);
        }
    }
}

pub proof fn lemma_exps_bounded_weaken(ts: Seq<Mono>, m: int, m2: int)
    requires
        exps_bounded(ts, m),
        m <= m2,
    ensures
        exps_bounded(ts, m2),
{
    assert forall|i: int, p: int| 0 <= i < ts.len() implies #[trigger] get0(ts[i].0, p) <= m2 by {
        assert(get0(ts[i].0, p) <= m);
    }
}

/// An entry's absolute coefficient is at most the sum of all.
pub proof fn lemma_entry_le_l1(ts: Seq<Mono>, j: int)
    requires
        0 <= j < ts.len(),
    ensures
        abs(ts[j].1) <= sum_of(ts, abs_fn()),
    decreases ts.len(),
{
    lemma_abs_nonneg(ts.drop_last());
    if j < ts.len() - 1 {
        lemma_entry_le_l1(ts.drop_last(), j);
    }
}

pub proof fn lemma_pow_base_mono(a: int, b: int, e: nat)
    requires
        0 <= a <= b,
    ensures
        0 <= pow(a, e) <= pow(b, e),
    decreases e,
{
    reveal(pow);
    if e > 0 {
        lemma_pow_base_mono(a, b, (e - 1) as nat);
        let pa = pow(a, (e - 1) as nat);
        let pb = pow(b, (e - 1) as nat);
        assert(a * pa <= b * pb) by (nonlinear_arith)
            requires 0 <= a <= b, 0 <= pa <= pb;
        assert(0 <= a * pa) by (nonlinear_arith) requires 0 <= a, 0 <= pa;
    }
}

/// With every variable at least 1, partial products of powers are at least 1 and grow.
pub proof fn lemma_mono_n_grows(k: Seq<usize>, p: nat, n: nat, env: spec_fn(nat) -> int)
    requires
        forall|i: nat| #[trigger] env(i) >= 1,
        p <= n,
    ensures
        1 <= mono_n(k, p, env) <= mono_n(k, n, env),
    decreases n,
{
    if n > p {
        lemma_mono_n_grows(k, p, (n - 1) as nat, env);
        let x = env((n - 1) as nat);
        let e = get0(k, n - 1);
        assert(e >= 0) by {
            if 0 <= n - 1 < k.len() {}
        }
        lemma_pow_positive(x, e as nat);
        let prev = mono_n(k, (n - 1) as nat, env);
        let q = pow(x, e as nat);
        assert(prev <= prev * q) by (nonlinear_arith) requires prev >= 1, q >= 1;
    } else if n == 0 {
    } else {
        lemma_mono_n_grows(k, 0, (n - 1) as nat, env);
        let x = env((n - 1) as nat);
        let e = get0(k, n - 1);
        assert(e >= 0) by {
            if 0 <= n - 1 < k.len() {}
        }
        lemma_pow_positive(x, e as nat);
        let prev = mono_n(k, (n - 1) as nat, env);
        let q = pow(x, e as nat);
        assert(1 <= prev * q) by (nonlinear_arith) requires prev >= 1, q >= 1;
    }
}

pub proof fn lemma_mono_n_all_zero(k: Seq<usize>, n: nat, env: spec_fn(nat) -> int)
    requires
        forall|q: int| 0 <= q < n ==> get0(k, q) == 0,
    ensures
        mono_n(k, n, env) == 1,
    decreases n,
{
    if n > 0 {
        lemma_mono_n_all_zero(k, (n - 1) as nat, env);
        lemma_pow0(env((n - 1) as nat));
    }
}

/// Sums of a nonnegative function over a prefix are at most the whole sum.
pub proof fn lemma_sum_take_nonneg(s: Seq<Mono>, i: int, f: spec_fn(Mono) -> int)
    requires
        0 <= i <= s.len(),
        forall|t: Mono| #[trigger] f(t) >= 0,
    ensures
        0 <= sum_of(s.take(i), f) <= sum_of(s, f),
    decreases s.len() - i,
{
    if i < s.len() {
        lemma_sum_take_nonneg(s, i + 1, f);
        assert(s.take(i + 1).drop_last() =~= s.take(i));
        assert(f(s.take(i + 1).last()) >= 0);
        lemma_sum_nonneg(s.take(i), f);
    } else {
        assert(s.take(i) =~= s);
        lemma_sum_nonneg(s, f);
    }
}

pub proof fn lemma_sum_nonneg(s: Seq<Mono>, f: spec_fn(Mono) -> int)
    requires
        forall|t: Mono| #[trigger] f(t) >= 0,
    ensures
        sum_of(s, f) >= 0,
    decreases s.len(),
{
    if s.len() > 0 {
        lemma_sum_nonneg(s.drop_last(), f);
        assert(f(s.last()) >= 0);
    }
}

} // verus!
