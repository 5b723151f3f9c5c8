//! Axis lengths as text: `3x₀x₁²-x₂+4`, each variable `x` with its number as a
//! subscript and its exponent, where above 1, as a superscript.

use vstd::prelude::*;
use crate::axis::{Axis, Term, Mono, term_seq, term_view};
use crate::codegen::{digits, int_text, push_digits, push_int};

verus! {

/// The decimal digits of `n` as numbers, most significant first.
pub open spec fn dec_digits(n: nat) -> Seq<nat>
    decreases n,
{
    if n < 10 { seq![n] } else { dec_digits(n / 10).push(n % 10) }
}

/// `n` written with the digit characters of `table`.
pub open spec fn script_text(n: nat, table: Seq<char>) -> Seq<char> {
    dec_digits(n).map_values(|d: nat| table[d as int])
}

/// The subscript digits `₀` to `₉`.
pub open spec fn subscripts() -> Seq<char> {
    seq!['\u{2080}', '\u{2081}', '\u{2082}', '\u{2083}', '\u{2084}', '\u{2085}', '\u{2086}', '\u{2087}', '\u{2088}', '\u{2089}']
}

/// The superscript digits `⁰` to `⁹`.
pub open spec fn superscripts() -> Seq<char> {
    seq!['\u{2070}', '\u{00b9}', '\u{00b2}', '\u{00b3}', '\u{2074}', '\u{2075}', '\u{2076}', '\u{2077}', '\u{2078}', '\u{2079}']
}

/// The variables of the first `k` exponents: `x`, the variable's number as a
/// subscript, and the exponent as a superscript where it is above 1; exponent 0 shows
/// nothing.
pub open spec fn vars_text(exps: Seq<usize>, k: int) -> Seq<char>
    decreases k,
{
    if k <= 0 {
        Seq::empty()
    } else {
        let e = exps[k - 1];
        vars_text(exps, k - 1) + if e == 0 {
            Seq::empty()
        } else {
            seq!['x'] + script_text((k - 1) as nat, subscripts())
                + if e == 1 { Seq::empty() } else { script_text(e as nat, superscripts()) }
        }
    }
}

/// One term: nothing for a zero coefficient; else `-` for a negative coefficient, `+`
/// before a positive one that follows another term, the size of the coefficient where
/// it is not 1, and the variables.
pub open spec fn term_text(t: Mono, begun: bool) -> Seq<char> {
    if t.1 == 0 {
        Seq::empty()
    } else {
        let sign = if t.1 < 0 { seq!['-'] } else if begun { seq!['+'] } else { Seq::empty() };
        let size: nat = (if t.1 < 0 { -t.1 } else { t.1 }) as nat;
        sign + (if size != 1 { digits(size) } else { Seq::empty() }) + vars_text(t.0, t.0.len() as int)
    }
}

/// Some of the first `k` terms has a nonzero coefficient.
pub open spec fn any_nonzero(ts: Seq<Mono>, k: int) -> bool
    decreases k,
{
    if k <= 0 { false } else { any_nonzero(ts, k - 1) || ts[k - 1].1 != 0 }
}

/// The first `k` terms, in the order they are stored.
pub open spec fn terms_text(ts: Seq<Mono>, k: int) -> Seq<char>
    decreases k,
{
    if k <= 0 { Seq::empty() } else { terms_text(ts, k - 1) + term_text(ts[k - 1], any_nonzero(ts, k - 1)) }
}

/// The text of an axis length: a constant in decimal, a polynomial term by term.
pub open spec fn axis_text(a: Axis) -> Seq<char> {
    match a {
        Axis::Const(c) => int_text(c as int),
        Axis::Var(ts) => terms_text(term_seq(ts@), ts@.len() as int),
    }
}

/// `uiua::SUBSCRIPT_DIGITS`: the subscript form of each decimal digit, `₀` to `₉` in
/// order (as uiua's lexer defines the table).
#[verifier::external_body]
fn subscript_digit(d: usize) -> (c: char)
    requires
        d < 10,
    ensures
        c == subscripts()[d as int],
{
    uiua::SUBSCRIPT_DIGITS[d]
}

fn superscript_digit(d: usize) -> (c: char)
    requires
        d < 10,
    ensures
        c == superscripts()[d as int],
{
    match d {
        0 => '\u{2070}',
        1 => '\u{00b9}',
        2 => '\u{00b2}',
        3 => '\u{00b3}',
        4 => '\u{2074}',
        5 => '\u{2075}',
        6 => '\u{2076}',
        7 => '\u{2077}',
        8 => '\u{2078}',
        _ => '\u{2079}',
    }
}

fn push_script(out: &mut Vec<char>, n: usize, sub: bool)
    ensures
        final(out)@ == old(out)@ + script_text(n as nat, if sub { subscripts() } else { superscripts() }),
    decreases n,
{
    let ghost table = if sub { subscripts() } else { superscripts() };
    if n >= 10 {
        push_script(out, n / 10, sub);
    }
    let c = if sub { subscript_digit(n % 10) } else { superscript_digit(n % 10) };
    out.push(c);
    proof {
        let ds = dec_digits(n as nat);
        if n >= 10 {
            assert(ds == dec_digits((n / 10) as nat).push((n % 10) as nat));
            assert(ds.map_values(|d: nat| table[d as int])
                =~= dec_digits((n / 10) as nat).map_values(|d: nat| table[d as int]).push(table[(n % 10) as int]));
        } else {
            assert(ds.map_values(|d: nat| table[d as int]) =~= seq![table[n as int]]);
        }
    }
}

fn push_vars(out: &mut Vec<char>, exps: &Vec<usize>)
    ensures
        final(out)@ == old(out)@ + vars_text(exps@, exps@.len() as int),
{
    let mut k: usize = 0;
    let ghost start = out@;
    while k < exps.len()
        invariant
            k <= exps@.len(),
            out@ == start + vars_text(exps@, k as int),
        decreases exps@.len() - k,
    {
        let e = exps[k];
        let ghost before = out@;
        if e != 0 {
            out.push('x');
            push_script(out, k, true);
            if e != 1 {
                push_script(out, e, false);
            }
        }
        proof {
            assert(out@ =~= start + vars_text(exps@, k + 1));
        }
        k += 1;
    }
}

fn push_term(out: &mut Vec<char>, t: &Term, begun: bool)
    ensures
        final(out)@ == old(out)@ + term_text(term_view(*t), begun),
{
    if t.coef == 0 {
        proof {
            assert(out@ =~= old(out)@ + term_text(term_view(*t), begun));
        }
        return;
    }
    let ghost start = out@;
    if t.coef < 0 {
        out.push('-');
    } else if begun {
        out.push('+');
    }
    let ghost signed = out@;
    let size: u64 = if t.coef < 0 { ((-(t.coef + 1)) as u64) + 1 } else { t.coef as u64 };
    if size != 1 {
        push_digits(out, size);
    }
    let ghost sized = out@;
    push_vars(out, &t.exps);
    proof {
        let sign = if t.coef < 0 { seq!['-'] } else if begun { seq!['+'] } else { Seq::<char>::empty() };
        assert(signed =~= start + sign);
        assert(out@ =~= start + term_text(term_view(*t), begun));
    }
}

impl Axis {
    /// The length as text, as `axis_text` writes it.
    pub fn to_text(&self) -> (r: Vec<char>)
        ensures
            r@ == axis_text(*self),
    {
        let mut out: Vec<char> = Vec::new();
        match self {
            Axis::Const(c) => {
                push_int(&mut out, *c);
                proof {
                    assert(out@ =~= int_text(*c as int));
                }
            },
            Axis::Var(ts) => {
                let ghost ms = term_seq(ts@);
                let mut begun = false;
                let mut i: usize = 0;
                while i < ts.len()
                    invariant
                        i <= ts@.len(),
                        ms == term_seq(ts@),
                        out@ == terms_text(ms, i as int),
                        begun == any_nonzero(ms, i as int),
                    decreases ts@.len() - i,
                {
                    push_term(&mut out, &ts[i], begun);
                    if ts[i].coef != 0 {
                        begun = true;
                    }
                    proof {
                        assert(ms[i as int] == term_view(ts@[i as int]));
                    }
                    i += 1;
                }
            },
        }
        out
    }

    /// The length as a `String` (see `to_text`).
    pub fn to_string(&self) -> (r: String)
        ensures
            r@ == axis_text(*self),
    {
        let chars = self.to_text();
        let mut s = String::new();
        let mut i: usize = 0;
        while i < chars.len()
            invariant
                i <= chars@.len(),
                s@ == chars@.take(i as int),
            decreases chars@.len() - i,
        {
            push_char(&mut s, chars[i]);
            proof {
                assert(chars@.take(i + 1) =~= chars@.take(i as int).push(chars@[i as int]));
            }
            i += 1;
        }
        proof {
            assert(chars@.take(chars@.len() as int) =~= chars@);
        }
        s
    }
}

/// `String::push`: appends the character at the end.
#[verifier::external_body]
fn push_char(s: &mut String, c: char)
    ensures
        final(s)@ == old(s)@.push(c),
{
    s.push(c);
}

} // verus!
