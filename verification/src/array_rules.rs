//! How the monadic array primitives transform the inferred shape of their argument.

use vstd::prelude::*;
use crate::axis::{Axis, var_key, eval_product, product_req};
use crate::info::{KnownValue, ShapeInfo, ValInfo, NodeInfo, const_axis};
use crate::range::RangeInfo;
use crate::relation::{Relation, Condition, rel_holds};
use crate::rules::{
    AnalyzeError, MonadicOp, evaluated, eval_ready, map_known, one_arg, sym,
};

verus! {

/// A fresh variable: the single variable numbered `n`.
pub open spec fn fresh_var(a: Axis, n: usize) -> bool {
    a.wf() && a is Var && a.poly() == seq![(var_key(n as nat), 1int)]
}

/// One value with type id `typ`, shape `shape` and range `range`.
pub open spec fn one_val<V>(r: NodeInfo<V>, typ: u8, shape: ShapeInfo<V>, range: RangeInfo) -> bool {
    &&& r.vals@.len() == 1
    &&& r.subfunc_idxs@.len() == 0
    &&& r.vals@[0] == (ValInfo { typ, shape, range })
}

/// One value with type id `typ` and range `range`, whose shape satisfies `p`.
pub open spec fn one_val_shaped<V>(r: NodeInfo<V>, typ: u8, range: RangeInfo, p: spec_fn(ShapeInfo<V>) -> bool) -> bool {
    &&& r.vals@.len() == 1
    &&& r.subfunc_idxs@.len() == 0
    &&& r.vals@[0].typ == typ
    &&& r.vals@[0].range == range
    &&& p(r.vals@[0].shape)
}

/// `make` built `k` as a natural number (a scalar for `scalar`) or a list of them.
pub open spec fn made<V, M: FnOnce(Vec<usize>, bool) -> KnownValue<V>>(make: M, nums: Seq<usize>, scalar: bool, k: KnownValue<V>) -> bool {
    exists|v: Vec<usize>| v@ == nums && #[trigger] call_ensures(make, (v, scalar), k)
}

/// `make` may be called on any numbers.
pub open spec fn make_ready<V, M: FnOnce(Vec<usize>, bool) -> KnownValue<V>>(make: M) -> bool {
    forall|v: Vec<usize>, scalar: bool| #[trigger] call_requires(make, (v, scalar))
}

/// The largest of the numbers (0 for none).
pub open spec fn max_of(s: Seq<usize>) -> usize
    decreases s.len(),
{
    if s.len() == 0 { 0 } else { let m = max_of(s.drop_last()); if s.last() > m { s.last() } else { m } }
}

/// The argument's symbolic lengths are well formed.
pub open spec fn last_wf<V>(dep_infos: Seq<ValInfo<V>>) -> bool {
    dep_infos.len() > 0 ==> dep_infos.last().shape.wf()
}

/// The first length, when it is a known constant.
pub open spec fn first_const(a: Seq<Axis>) -> Option<int> {
    if a.len() > 0 { a[0].spec_only_const() } else { None }
}

/// The range of a value made of the natural numbers: the largest one.
fn naturals_range(nums: &Vec<usize>) -> (r: RangeInfo)
    ensures
        r == RangeInfo::spec_new(max_of(nums@) as u64, false, false),
{
    let mut m: usize = 0;
    let mut i: usize = 0;
    while i < nums.len()
        invariant
            i <= nums@.len(),
            m == max_of(nums@.take(i as int)),
        decreases nums@.len() - i,
    {
        proof {
            assert(nums@.take(i + 1).drop_last() =~= nums@.take(i as int));
        }
        if nums[i] > m {
            m = nums[i];
        }
        i += 1;
    }
    proof {
        assert(nums@.take(nums@.len() as int) =~= nums@);
    }
    RangeInfo::uint(m as u64)
}

/// A known value made of natural numbers, with its range.
fn known_naturals<V, M: FnOnce(Vec<usize>, bool) -> KnownValue<V>>(nums: Vec<usize>, scalar: bool, make: M) -> (r: (ShapeInfo<V>, RangeInfo))
    requires
        make_ready(make),
    ensures
        r.0 is Known && made(make, nums@, scalar, r.0->Known_0),
        r.1 == RangeInfo::spec_new(max_of(nums@) as u64, false, false),
{
    let range = naturals_range(&nums);
    let ghost n = nums@;
    let k = make(nums, scalar);
    (ShapeInfo::Known(k), range)
}

/// The length of the leading axis: known when the argument is known or its first
/// length is a known constant (a negative one is refused), and otherwise a scalar
/// index of unknown value. A scalar has length 1.
pub fn len<V, M: FnOnce(Vec<usize>, bool) -> KnownValue<V>>(
    dep_infos: Vec<ValInfo<V>>,
    make: M,
) -> (r: Result<NodeInfo<V>, AnalyzeError>)
    requires
        make_ready(make),
        last_wf(dep_infos@),
    ensures
        dep_infos@.len() == 0 ==> r == Err::<NodeInfo<V>, AnalyzeError>(AnalyzeError::IncorrectArgCount),
        dep_infos@.len() > 0 ==> {
            let d = dep_infos@.last();
            match d.shape {
                ShapeInfo::Known(k) => {
                    let n: usize = if k.shape@.len() == 0 { 1 } else { k.shape@[0] };
                    r is Ok && one_val_shaped(r->Ok_0, 0, RangeInfo::spec_new(n as u64, false, false),
                        |s: ShapeInfo<V>| s is Known && made(make, seq![n], true, s->Known_0))
                },
                _ => {
                    let c = first_const(sym(d.shape).1);
                    &&& c is Some && c->0 < 0 ==> r == Err::<NodeInfo<V>, AnalyzeError>(AnalyzeError::NegativeLength(c->0 as isize))
                    &&& c is Some && c->0 >= 0 ==> r is Ok && one_val_shaped(r->Ok_0, 0,
                        RangeInfo::spec_new(c->0 as u64, false, false),
                        |s: ShapeInfo<V>| s is Known && made(make, seq![c->0 as usize], true, s->Known_0))
                    &&& c is None ==> r is Ok && one_val_shaped(r->Ok_0, 0,
                        RangeInfo::spec_new(usize::MAX as u64, false, false),
                        |s: ShapeInfo<V>| s matches ShapeInfo::Ranked(a) && a@.len() == 0)
                },
            }
        },
{
    let d = one_arg(dep_infos)?;
    let (shape, range) = match d.shape {
        ShapeInfo::Known(k) => {
            let n: usize = if k.shape.len() == 0 { 1 } else { k.shape[0] };
            let mut nums: Vec<usize> = Vec::new();
            nums.push(n);
            proof {
                assert(nums@ =~= seq![n]);
                reveal_with_fuel(max_of, 2);
            }
            known_naturals(nums, true, make)
        },
        ShapeInfo::Ranked(prefix) | ShapeInfo::Unranked { prefix, .. } => {
            let c = if prefix.len() > 0 {
                prefix[0].only_const()
            } else {
                None
            };
            match c {
                Some(x) => {
                    if x < 0 {
                        return Err(AnalyzeError::NegativeLength(x));
                    }
                    let mut nums: Vec<usize> = Vec::new();
                    nums.push(x as usize);
                    proof {
                        assert(nums@ =~= seq![x as usize]);
                        reveal_with_fuel(max_of, 2);
                    }
                    known_naturals(nums, true, make)
                },
                None => (ShapeInfo::Ranked(Vec::new()), RangeInfo::index()),
            }
        },
    };
    Ok(NodeInfo::one_val(ValInfo::new(0, shape, range)))
}

/// Every length is a known non-negative constant.
pub open spec fn all_nat_consts(a: Seq<Axis>) -> bool {
    forall|i: int| 0 <= i < a.len() ==> (#[trigger] a[i]).spec_only_const() is Some && a[i].spec_only_const()->0 >= 0
}

/// The constant values of the lengths.
pub open spec fn nat_consts(a: Seq<Axis>) -> Seq<usize> {
    a.map_values(|x: Axis| x.spec_only_const()->0 as usize)
}

/// Room for `n` more variables.
pub open spec fn vars_room(nvars: usize, n: int) -> bool {
    nvars + n < usize::MAX
}

/// The constant values of the lengths, if all are known non-negative constants.
fn known_lengths(a: &Vec<Axis>) -> (r: Option<Vec<usize>>)
    requires
        forall|i: int| 0 <= i < a@.len() ==> (#[trigger] a@[i]).wf(),
    ensures
        r is Some <==> all_nat_consts(a@),
        r is Some ==> r->0@ == nat_consts(a@),
{
    let mut out: Vec<usize> = Vec::new();
    let mut i: usize = 0;
    while i < a.len()
        invariant
            i <= a@.len(),
            forall|j: int| 0 <= j < a@.len() ==> (#[trigger] a@[j]).wf(),
            all_nat_consts(a@.take(i as int)),
            out@ == nat_consts(a@.take(i as int)),
        decreases a@.len() - i,
    {
        proof {
            assert(a@[i as int].wf());
        }
        match a[i].only_const() {
            Some(v) => {
                if v < 0 {
                    proof {
                        assert(!all_nat_consts(a@)) by {
                            assert(a@[i as int].spec_only_const()->0 < 0);
                        }
                    }
                    return None;
                }
                out.push(v as usize);
                proof {
                    assert(out@ =~= nat_consts(a@.take(i + 1)));
                    assert forall|j: int| 0 <= j < i + 1 implies (#[trigger] a@.take(i + 1)[j]).spec_only_const() is Some
                        && a@.take(i + 1)[j].spec_only_const()->0 >= 0 by {
                        if j < i {
                            assert(a@.take(i + 1)[j] == a@.take(i as int)[j]);
                        }
                    }
                }
            },
            None => {
                proof {
                    assert(!all_nat_consts(a@)) by {
                        assert(a@[i as int].spec_only_const() is None);
                    }
                }
                return None;
            },
        }
        i += 1;
    }
    proof {
        assert(a@.take(a@.len() as int) =~= a@);
    }
    Some(out)
}

/// The shape as a list of natural numbers: known when the argument is known or all its
/// lengths are known non-negative constants; otherwise a list of indices whose length
/// is the rank, or of unknown length for an unknown rank.
pub fn shape<V, M: FnOnce(Vec<usize>, bool) -> KnownValue<V>>(
    dep_infos: Vec<ValInfo<V>>,
    make: M,
    nvars: &mut usize,
) -> (r: Result<NodeInfo<V>, AnalyzeError>)
    requires
        make_ready(make),
        last_wf(dep_infos@),
        vars_room(*old(nvars), 1),
    ensures
        dep_infos@.len() == 0 ==> r == Err::<NodeInfo<V>, AnalyzeError>(AnalyzeError::IncorrectArgCount),
        dep_infos@.len() > 0 ==> r is Ok && {
            let d = dep_infos@.last();
            let o = r->Ok_0;
            match d.shape {
                ShapeInfo::Known(k) => one_val_shaped(o, 0, RangeInfo::spec_new(max_of(k.shape@) as u64, false, false),
                    |s: ShapeInfo<V>| s is Known && made(make, k.shape@, false, s->Known_0)),
                ShapeInfo::Ranked(a) => if all_nat_consts(a@) {
                    one_val_shaped(o, 0, RangeInfo::spec_new(max_of(nat_consts(a@)) as u64, false, false),
                        |s: ShapeInfo<V>| s is Known && made(make, nat_consts(a@), false, s->Known_0))
                } else {
                    one_val_shaped(o, 0, RangeInfo::spec_new(usize::MAX as u64, false, false),
                        |s: ShapeInfo<V>| s is Ranked && s->Ranked_0@ == seq![const_axis(a@.len() as usize)])
                },
                ShapeInfo::Unranked { .. } => one_val_shaped(o, 0, RangeInfo::spec_new(usize::MAX as u64, false, false),
                    |s: ShapeInfo<V>| s is Ranked && s->Ranked_0@.len() == 1 && fresh_var(s->Ranked_0@[0], *old(nvars))),
            }
        },
        dep_infos@.len() > 0 && dep_infos@.last().shape is Unranked ==> *final(nvars) == *old(nvars) + 1,
        !(dep_infos@.len() > 0 && dep_infos@.last().shape is Unranked) ==> *final(nvars) == *old(nvars),
{
    let d = one_arg(dep_infos)?;
    let (shape, range) = match d.shape {
        ShapeInfo::Known(k) => known_naturals(k.shape, false, make),
        ShapeInfo::Ranked(a) => match known_lengths(&a) {
            Some(nums) => known_naturals(nums, false, make),
            None => {
                let mut b: Vec<Axis> = Vec::new();
                b.push(Axis::from(a.len()));
                proof {
                    assert(b@ =~= seq![const_axis(a@.len() as usize)]);
                }
                (ShapeInfo::Ranked(b), RangeInfo::index())
            },
        },
        ShapeInfo::Unranked { .. } => {
            let mut b: Vec<Axis> = Vec::new();
            b.push(Axis::newvar(nvars));
            (ShapeInfo::Ranked(b), RangeInfo::index())
        },
    };
    Ok(NodeInfo::one_val(ValInfo::new(0, shape, range)))
}

/// The argument's known value can be evaluated.
pub open spec fn arg_ready<V, F: FnOnce(KnownValue<V>) -> Result<KnownValue<V>, AnalyzeError>>(
    dep_infos: Seq<ValInfo<V>>,
    eval: F,
) -> bool {
    dep_infos.len() > 0 ==> eval_ready(eval, dep_infos.last().shape)
}

/// One value with type id `typ` and range `range`, whose shape satisfies `p` for a
/// symbolic argument, and is what `eval` gives for a known one.
pub open spec fn reshaped<V, F: FnOnce(KnownValue<V>) -> Result<KnownValue<V>, AnalyzeError>>(
    d: ValInfo<V>,
    eval: F,
    typ: u8,
    range: RangeInfo,
    p: spec_fn(ShapeInfo<V>) -> bool,
    r: Result<NodeInfo<V>, AnalyzeError>,
) -> bool {
    match d.shape {
        ShapeInfo::Known(k) => match r {
            Ok(o) => one_val_shaped(o, typ, range, |s: ShapeInfo<V>| evaluated(eval, d.shape, Ok::<ShapeInfo<V>, AnalyzeError>(s))),
            Err(e) => evaluated(eval, d.shape, Err::<ShapeInfo<V>, AnalyzeError>(e)),
        },
        _ => r is Ok && one_val_shaped(r->Ok_0, typ, range, p),
    }
}

/// The leading axis of length 1 added in front.
pub fn fix<V, F: FnOnce(KnownValue<V>) -> Result<KnownValue<V>, AnalyzeError>>(
    dep_infos: Vec<ValInfo<V>>,
    eval: F,
) -> (r: Result<NodeInfo<V>, AnalyzeError>)
    requires
        arg_ready(dep_infos@, eval),
    ensures
        dep_infos@.len() == 0 ==> r == Err::<NodeInfo<V>, AnalyzeError>(AnalyzeError::IncorrectArgCount),
        dep_infos@.len() > 0 ==> {
            let d = dep_infos@.last();
            reshaped(d, eval, d.typ, d.range, |s: ShapeInfo<V>| match d.shape {
                ShapeInfo::Ranked(a) => s is Ranked && s->Ranked_0@ == seq![Axis::Const(1)] + a@,
                ShapeInfo::Unranked { prefix, suffix } => s is Unranked
                    && s->prefix@ == seq![Axis::Const(1)] + prefix@ && s->suffix@ == suffix@,
                _ => false,
            }, r)
        },
{
    let d = one_arg(dep_infos)?;
    let shape = match d.shape {
        ShapeInfo::Known(k) => map_known(ShapeInfo::Known(k), eval)?,
        ShapeInfo::Ranked(a) => {
            let mut b = a;
            b.insert(0, Axis::from(1i32));
            proof {
                assert(b@ =~= seq![Axis::Const(1)] + a@);
            }
            ShapeInfo::Ranked(b)
        },
        ShapeInfo::Unranked { prefix, suffix } => {
            let mut p = prefix;
            p.insert(0, Axis::from(1i32));
            proof {
                assert(p@ =~= seq![Axis::Const(1)] + prefix@);
            }
            ShapeInfo::Unranked { prefix: p, suffix }
        },
    };
    Ok(NodeInfo::one_val(ValInfo::new(d.typ, shape, d.range)))
}

/// The binary digits of natural numbers: one more trailing axis of unknown length.
pub fn bits<V, F: FnOnce(KnownValue<V>) -> Result<KnownValue<V>, AnalyzeError>>(
    dep_infos: Vec<ValInfo<V>>,
    eval: F,
    nvars: &mut usize,
) -> (r: Result<NodeInfo<V>, AnalyzeError>)
    requires
        arg_ready(dep_infos@, eval),
        vars_room(*old(nvars), 1),
    ensures
        dep_infos@.len() == 0 ==> r == Err::<NodeInfo<V>, AnalyzeError>(AnalyzeError::IncorrectArgCount),
        dep_infos@.len() > 0 && dep_infos@.last().typ != 0 ==> r == Err::<NodeInfo<V>, AnalyzeError>(
            AnalyzeError::NaturalsRequired(MonadicOp::Bits, dep_infos@.last().typ)),
        dep_infos@.len() > 0 && dep_infos@.last().typ == 0 ==> {
            let d = dep_infos@.last();
            reshaped(d, eval, 0, RangeInfo::spec_new(1, d.range.signed, false), |s: ShapeInfo<V>| match d.shape {
                ShapeInfo::Ranked(a) => s is Ranked && s->Ranked_0@.len() == a@.len() + 1
                    && s->Ranked_0@.drop_last() == a@ && fresh_var(s->Ranked_0@.last(), *old(nvars)),
                ShapeInfo::Unranked { prefix, suffix } => s is Unranked && s->prefix@ == prefix@
                    && s->suffix@.len() == suffix@.len() + 1 && s->suffix@.drop_last() == suffix@
                    && fresh_var(s->suffix@.last(), *old(nvars)),
                _ => false,
            }, r)
        },
        *final(nvars) == *old(nvars) || *final(nvars) == *old(nvars) + 1,
{
    let d = one_arg(dep_infos)?;
    if d.typ != 0 {
        return Err(AnalyzeError::NaturalsRequired(MonadicOp::Bits, d.typ));
    }
    let shape = match d.shape {
        ShapeInfo::Known(k) => map_known(ShapeInfo::Known(k), eval)?,
        ShapeInfo::Ranked(a) => {
            let mut b = a;
            b.push(Axis::newvar(nvars));
            proof {
                assert(b@.drop_last() =~= a@);
            }
            ShapeInfo::Ranked(b)
        },
        ShapeInfo::Unranked { prefix, suffix } => {
            let mut s2 = suffix;
            s2.push(Axis::newvar(nvars));
            proof {
                assert(s2@.drop_last() =~= suffix@);
            }
            ShapeInfo::Unranked { prefix, suffix: s2 }
        },
    };
    let range = RangeInfo::bool().signed(d.range.signed);
    Ok(NodeInfo::one_val(ValInfo::new(0, shape, range)))
}

/// Transposition: the leading axis moves to the back. For an unknown rank the leading
/// length (a new variable if it is unknown) becomes the last known trailing one.
pub fn transpose<V, F: FnOnce(KnownValue<V>) -> Result<KnownValue<V>, AnalyzeError>>(
    dep_infos: Vec<ValInfo<V>>,
    eval: F,
    nvars: &mut usize,
) -> (r: Result<NodeInfo<V>, AnalyzeError>)
    requires
        arg_ready(dep_infos@, eval),
        vars_room(*old(nvars), 1),
    ensures
        dep_infos@.len() == 0 ==> r == Err::<NodeInfo<V>, AnalyzeError>(AnalyzeError::IncorrectArgCount),
        dep_infos@.len() > 0 ==> {
            let d = dep_infos@.last();
            reshaped(d, eval, d.typ, d.range, |s: ShapeInfo<V>| match d.shape {
                ShapeInfo::Ranked(a) => s is Ranked && s->Ranked_0@ == (if a@.len() == 0 { a@ } else {
                    a@.subrange(1, a@.len() as int).push(a@[0])
                }),
                ShapeInfo::Unranked { prefix, suffix } => s is Unranked && s->suffix@.len() == suffix@.len() + 1
                    && s->suffix@.drop_last() == suffix@ && (if prefix@.len() == 0 {
                        s->prefix@ == prefix@ && fresh_var(s->suffix@.last(), *old(nvars))
                    } else {
                        s->prefix@ == prefix@.subrange(1, prefix@.len() as int) && s->suffix@.last() == prefix@[0]
                    }),
                _ => false,
            }, r)
        },
        *final(nvars) == *old(nvars) || *final(nvars) == *old(nvars) + 1,
{
    let d = one_arg(dep_infos)?;
    let shape = match d.shape {
        ShapeInfo::Known(k) => map_known(ShapeInfo::Known(k), eval)?,
        ShapeInfo::Ranked(a) => {
            let mut b = a;
            if b.len() > 0 {
                let first = b.remove(0);
                b.push(first);
                proof {
                    assert(b@ =~= a@.subrange(1, a@.len() as int).push(a@[0]));
                }
            }
            ShapeInfo::Ranked(b)
        },
        ShapeInfo::Unranked { prefix, suffix } => {
            let mut p = prefix;
            let mut s2 = suffix;
            if p.len() == 0 {
                s2.push(Axis::newvar(nvars));
            } else {
                let first = p.remove(0);
                s2.push(first);
                proof {
                    assert(p@ =~= prefix@.subrange(1, prefix@.len() as int));
                }
            }
            proof {
                assert(s2@.drop_last() =~= suffix@);
            }
            ShapeInfo::Unranked { prefix: p, suffix: s2 }
        },
    };
    Ok(NodeInfo::one_val(ValInfo::new(d.typ, shape, d.range)))
}

/// A primitive that evaluates a known value and otherwise keeps the information.
fn keep_info<V, F: FnOnce(KnownValue<V>) -> Result<KnownValue<V>, AnalyzeError>>(
    dep_infos: Vec<ValInfo<V>>,
    eval: F,
) -> (r: Result<NodeInfo<V>, AnalyzeError>)
    requires
        arg_ready(dep_infos@, eval),
    ensures
        dep_infos@.len() == 0 ==> r == Err::<NodeInfo<V>, AnalyzeError>(AnalyzeError::IncorrectArgCount),
        dep_infos@.len() > 0 ==> {
            let d = dep_infos@.last();
            reshaped(d, eval, d.typ, d.range, |s: ShapeInfo<V>| s == d.shape, r)
        },
{
    let d = one_arg(dep_infos)?;
    let shape = map_known(d.shape, eval)?;
    Ok(NodeInfo::one_val(ValInfo::new(d.typ, shape, d.range)))
}

/// Reversal: a known value is reversed; otherwise the information stays.
pub fn reverse<V, F: FnOnce(KnownValue<V>) -> Result<KnownValue<V>, AnalyzeError>>(
    dep_infos: Vec<ValInfo<V>>,
    eval: F,
) -> (r: Result<NodeInfo<V>, AnalyzeError>)
    requires
        arg_ready(dep_infos@, eval),
    ensures
        dep_infos@.len() == 0 ==> r == Err::<NodeInfo<V>, AnalyzeError>(AnalyzeError::IncorrectArgCount),
        dep_infos@.len() > 0 ==> {
            let d = dep_infos@.last();
            reshaped(d, eval, d.typ, d.range, |s: ShapeInfo<V>| s == d.shape, r)
        },
{
    keep_info(dep_infos, eval)
}

/// Sorting up: a known value is sorted; otherwise the information stays.
pub fn sort<V, F: FnOnce(KnownValue<V>) -> Result<KnownValue<V>, AnalyzeError>>(
    dep_infos: Vec<ValInfo<V>>,
    eval: F,
) -> (r: Result<NodeInfo<V>, AnalyzeError>)
    requires
        arg_ready(dep_infos@, eval),
    ensures
        dep_infos@.len() == 0 ==> r == Err::<NodeInfo<V>, AnalyzeError>(AnalyzeError::IncorrectArgCount),
        dep_infos@.len() > 0 ==> {
            let d = dep_infos@.last();
            reshaped(d, eval, d.typ, d.range, |s: ShapeInfo<V>| s == d.shape, r)
        },
{
    keep_info(dep_infos, eval)
}

/// Sorting down: a known value is sorted; otherwise the information stays.
pub fn sort_down<V, F: FnOnce(KnownValue<V>) -> Result<KnownValue<V>, AnalyzeError>>(
    dep_infos: Vec<ValInfo<V>>,
    eval: F,
) -> (r: Result<NodeInfo<V>, AnalyzeError>)
    requires
        arg_ready(dep_infos@, eval),
    ensures
        dep_infos@.len() == 0 ==> r == Err::<NodeInfo<V>, AnalyzeError>(AnalyzeError::IncorrectArgCount),
        dep_infos@.len() > 0 ==> {
            let d = dep_infos@.last();
            reshaped(d, eval, d.typ, d.range, |s: ShapeInfo<V>| s == d.shape, r)
        },
{
    keep_info(dep_infos, eval)
}

/// Removing duplicate rows: the leading length becomes unknown (a new variable).
pub fn deduplicate<V, F: FnOnce(KnownValue<V>) -> Result<KnownValue<V>, AnalyzeError>>(
    dep_infos: Vec<ValInfo<V>>,
    eval: F,
    nvars: &mut usize,
) -> (r: Result<NodeInfo<V>, AnalyzeError>)
    requires
        arg_ready(dep_infos@, eval),
        vars_room(*old(nvars), 1),
    ensures
        dep_infos@.len() == 0 ==> r == Err::<NodeInfo<V>, AnalyzeError>(AnalyzeError::IncorrectArgCount),
        dep_infos@.len() > 0 ==> {
            let d = dep_infos@.last();
            reshaped(d, eval, d.typ, d.range, |s: ShapeInfo<V>| match d.shape {
                ShapeInfo::Ranked(a) => s is Ranked && s->Ranked_0@.len() == a@.len()
                    && (a@.len() == 0 || (s->Ranked_0@.subrange(1, a@.len() as int) == a@.subrange(1, a@.len() as int)
                        && fresh_var(s->Ranked_0@[0], *old(nvars)))),
                ShapeInfo::Unranked { prefix, suffix } => s is Unranked && s->suffix@ == suffix@
                    && s->prefix@.len() == prefix@.len()
                    && (prefix@.len() == 0 || (s->prefix@.subrange(1, prefix@.len() as int) == prefix@.subrange(1, prefix@.len() as int)
                        && fresh_var(s->prefix@[0], *old(nvars)))),
                _ => false,
            }, r)
        },
        *final(nvars) == *old(nvars) || *final(nvars) == *old(nvars) + 1,
{
    let d = one_arg(dep_infos)?;
    let shape = match d.shape {
        ShapeInfo::Known(k) => map_known(ShapeInfo::Known(k), eval)?,
        ShapeInfo::Ranked(a) => {
            let mut b = a;
            if b.len() > 0 {
                b.set(0, Axis::newvar(nvars));
                proof {
                    assert(b@.subrange(1, a@.len() as int) =~= a@.subrange(1, a@.len() as int));
                }
            }
            ShapeInfo::Ranked(b)
        },
        ShapeInfo::Unranked { prefix, suffix } => {
            let mut p = prefix;
            if p.len() > 0 {
                p.set(0, Axis::newvar(nvars));
                proof {
                    assert(p@.subrange(1, prefix@.len() as int) =~= prefix@.subrange(1, prefix@.len() as int));
                }
            }
            ShapeInfo::Unranked { prefix: p, suffix }
        },
    };
    Ok(NodeInfo::one_val(ValInfo::new(d.typ, shape, d.range)))
}

/// Boxing: a known value is boxed (keeping its type id and range); anything else
/// becomes a scalar box.
pub fn box_array<V, F: FnOnce(KnownValue<V>) -> Result<KnownValue<V>, AnalyzeError>>(
    dep_infos: Vec<ValInfo<V>>,
    eval: F,
) -> (r: Result<NodeInfo<V>, AnalyzeError>)
    requires
        arg_ready(dep_infos@, eval),
    ensures
        dep_infos@.len() == 0 ==> r == Err::<NodeInfo<V>, AnalyzeError>(AnalyzeError::IncorrectArgCount),
        dep_infos@.len() > 0 ==> {
            let d = dep_infos@.last();
            if d.shape is Known {
                reshaped(d, eval, d.typ, d.range, |s: ShapeInfo<V>| true, r)
            } else {
                r is Ok && one_val_shaped(r->Ok_0, 2, RangeInfo::spec_new(0, false, false),
                    |s: ShapeInfo<V>| s is Ranked && s->Ranked_0@.len() == 0)
            }
        },
{
    let d = one_arg(dep_infos)?;
    match d.shape {
        ShapeInfo::Known(k) => {
            let shape = map_known(ShapeInfo::Known(k), eval)?;
            Ok(NodeInfo::one_val(ValInfo::new(d.typ, shape, d.range)))
        },
        _ => Ok(NodeInfo::one_val(ValInfo::new(2, ShapeInfo::Ranked(Vec::new()), RangeInfo::zero()))),
    }
}

/// A random number: a fractional scalar between 0 and 1, whatever the arguments.
pub fn rand<V>(dep_infos: Vec<ValInfo<V>>) -> (r: Result<NodeInfo<V>, AnalyzeError>)
    ensures
        r is Ok && one_val_shaped(r->Ok_0, 0, RangeInfo::spec_new(1, false, true),
            |s: ShapeInfo<V>| s is Ranked && s->Ranked_0@.len() == 0),
{
    Ok(NodeInfo::one_val(ValInfo::new(0, ShapeInfo::Ranked(Vec::new()), RangeInfo::new(1, false, true))))
}

/// Every coefficient of a well-formed length is within `isize`.
pub proof fn lemma_coef_in_isize(a: Axis, e: Seq<usize>)
    requires
        a.wf(),
    ensures
        crate::axis::in_isize(a.coef(e)),
{
    let p = a.poly();
    match a {
        Axis::Const(c) => {
            reveal_with_fuel(crate::axis::sum_of, 2);
        },
        Axis::Var(ts) => {
            crate::axis::lemma_coef_distinct(p, e);
            if exists|i: int| 0 <= i < p.len() && p[i].0 == e {
                let i = choose|i: int| 0 <= i < p.len() && p[i].0 == e;
                assert(p[i] == crate::axis::term_view(ts@[i]));
            }
        },
    }
}

/// `c` requires the length `a` to be positive.
pub open spec fn positive_condition(c: Condition, a: Axis) -> bool {
    &&& c.rels().len() == 1
    &&& c.wf()
    &&& forall|env: spec_fn(nat) -> int| #[trigger] c.holds(env) <==> a.eval(env) > 0
}

/// Require the length `len` to be positive: fails if it is a constant that is not,
/// records a requirement if it depends on the variables.
fn require_positive(len: Axis, reqs: &mut Vec<Condition>) -> (r: Result<(), AnalyzeError>)
    requires
        len.wf(),
    ensures
        len.spec_only_const() is Some && len.spec_only_const()->0 <= 0
            ==> r == Err::<(), AnalyzeError>(AnalyzeError::EmptyArray) && final(reqs)@ == old(reqs)@,
        len.spec_only_const() is Some && len.spec_only_const()->0 > 0 ==> r is Ok && final(reqs)@ == old(reqs)@,
        len.spec_only_const() is None ==> r is Ok && final(reqs)@.len() == old(reqs)@.len() + 1
            && final(reqs)@.drop_last() == old(reqs)@ && positive_condition(final(reqs)@.last(), len),
{
    let zero = Axis::from(0i32);
    proof {
        assert forall|e: Seq<usize>| crate::axis::in_isize(#[trigger] len.coef(e) + crate::axis::sgn(zero.coef(e), true)) by {
            lemma_coef_in_isize(len, e);
            reveal_with_fuel(crate::axis::sum_of, 2);
        }
    }
    let ghost l = len;
    let req = Relation::gt(len, zero);
    proof {
        crate::rules::lemma_only_const_coefs(l);
        crate::rules::lemma_only_const_coefs(req.expr);
        reveal_with_fuel(crate::axis::sum_of, 2);
        assert(forall|e: Seq<usize>| #[trigger] req.expr.coef(e) == l.coef(e) - zero.coef(e));
        assert forall|e: Seq<usize>| #[trigger] req.expr.coef(e) == l.coef(e) by {
            assert(req.expr.coef(e) == l.coef(e) - zero.coef(e));
        }
        if l.spec_only_const() is Some {
            assert(forall|e: Seq<usize>| e.len() > 0 ==> #[trigger] req.expr.coef(e) == 0);
        }
        if req.expr.spec_only_const() is Some {
            assert forall|e: Seq<usize>| e.len() > 0 implies #[trigger] l.coef(e) == 0 by {
                assert(req.expr.coef(e) == l.coef(e));
                assert(req.expr.coef(e) == 0);
            }
        }
    }
    match req.trivial() {
        Some(valid) => {
            if !valid {
                return Err(AnalyzeError::EmptyArray);
            }
            Ok(())
        },
        None => {
            let c = Condition::from(req);
            proof {
                assert(c.rels()[0] == req);
                assert forall|env: spec_fn(nat) -> int| #[trigger] c.holds(env) <==> l.eval(env) > 0 by {
                    if req.holds(env) {
                        assert(c.rels()[0].holds(env));
                    }
                }
            }
            reqs.push(c);
            proof {
                assert(final(reqs)@.drop_last() =~= old(reqs)@);
            }
            Ok(())
        },
    }
}

/// The leading length is removed from a ranked shape; the first row needs it to be
/// positive (refused when it is a constant that is not, required otherwise). A scalar
/// stays as it is.
fn first_row<V, F: FnOnce(KnownValue<V>) -> Result<KnownValue<V>, AnalyzeError>>(
    dep_infos: Vec<ValInfo<V>>,
    eval: F,
    reqs: &mut Vec<Condition>,
) -> (r: Result<NodeInfo<V>, AnalyzeError>)
    requires
        arg_ready(dep_infos@, eval),
        last_wf(dep_infos@),
        dep_infos@.len() > 0 ==> !(dep_infos@.last().shape is Unranked),
    ensures
        first_row_spec(dep_infos@, eval, old(reqs)@, final(reqs)@, r),
{
    let d = one_arg(dep_infos)?;
    let shape = match d.shape {
        ShapeInfo::Ranked(a) => {
            let mut b = a;
            if b.len() > 0 {
                proof {
                    assert(b@[0].wf());
                }
                let len = b.remove(0);
                require_positive(len, reqs)?;
            }
            ShapeInfo::Ranked(b)
        },
        other => map_known(other, eval)?,
    };
    Ok(NodeInfo::one_val(ValInfo::new(d.typ, shape, d.range)))
}

/// What `first` and `last` give.
pub open spec fn first_row_spec<V, F: FnOnce(KnownValue<V>) -> Result<KnownValue<V>, AnalyzeError>>(
    dep_infos: Seq<ValInfo<V>>,
    eval: F,
    old_reqs: Seq<Condition>,
    new_reqs: Seq<Condition>,
    r: Result<NodeInfo<V>, AnalyzeError>,
) -> bool {
    &&& dep_infos.len() == 0 ==> r == Err::<NodeInfo<V>, AnalyzeError>(AnalyzeError::IncorrectArgCount) && new_reqs == old_reqs
    &&& dep_infos.len() > 0 ==> {
        let d = dep_infos.last();
        match d.shape {
            ShapeInfo::Ranked(a) => if a@.len() == 0 {
                r is Ok && one_val(r->Ok_0, d.typ, d.shape, d.range) && new_reqs == old_reqs
            } else {
                let c = a@[0].spec_only_const();
                &&& c is Some && c->0 <= 0 ==> r == Err::<NodeInfo<V>, AnalyzeError>(AnalyzeError::EmptyArray)
                    && new_reqs == old_reqs
                &&& c is Some && c->0 > 0 ==> new_reqs == old_reqs
                &&& !(c is Some && c->0 <= 0) ==> r is Ok && one_val_shaped(r->Ok_0, d.typ, d.range,
                    |s: ShapeInfo<V>| s is Ranked && s->Ranked_0@ == a@.subrange(1, a@.len() as int))
                &&& c is None ==> new_reqs.len() == old_reqs.len() + 1 && new_reqs.drop_last() == old_reqs
                    && positive_condition(new_reqs.last(), a@[0])
            },
            _ => new_reqs == old_reqs && reshaped(d, eval, d.typ, d.range, |s: ShapeInfo<V>| true, r),
        }
    }
}

/// The first row.
pub fn first<V, F: FnOnce(KnownValue<V>) -> Result<KnownValue<V>, AnalyzeError>>(
    dep_infos: Vec<ValInfo<V>>,
    eval: F,
    reqs: &mut Vec<Condition>,
) -> (r: Result<NodeInfo<V>, AnalyzeError>)
    requires
        arg_ready(dep_infos@, eval),
        last_wf(dep_infos@),
        dep_infos@.len() > 0 ==> !(dep_infos@.last().shape is Unranked),
    ensures
        first_row_spec(dep_infos@, eval, old(reqs)@, final(reqs)@, r),
{
    first_row(dep_infos, eval, reqs)
}

/// The last row.
pub fn last<V, F: FnOnce(KnownValue<V>) -> Result<KnownValue<V>, AnalyzeError>>(
    dep_infos: Vec<ValInfo<V>>,
    eval: F,
    reqs: &mut Vec<Condition>,
) -> (r: Result<NodeInfo<V>, AnalyzeError>)
    requires
        arg_ready(dep_infos@, eval),
        last_wf(dep_infos@),
        dep_infos@.len() > 0 ==> !(dep_infos@.last().shape is Unranked),
    ensures
        first_row_spec(dep_infos@, eval, old(reqs)@, final(reqs)@, r),
{
    first_row(dep_infos, eval, reqs)
}

/// Copies have the same constant value, if any.
pub proof fn lemma_copy_only_const(a: Axis, b: Axis)
    requires
        crate::info::copy_of(a, b),
    ensures
        a.spec_only_const() == b.spec_only_const(),
{
    if a is Const {
        assert(a.poly()[0] == b.poly()[0]);
    }
}

/// An optional constant as an optional `i128`.
pub open spec fn opt_i128(o: Option<int>) -> Option<i128> {
    match o {
        Some(x) => Some(x as i128),
        None => None,
    }
}

/// The range of the indices that grade a value of this shape: below its length when
/// that is known, only zero for a scalar, any index otherwise.
pub open spec fn grade_range<V>(s: ShapeInfo<V>) -> RangeInfo {
    let (ranked, a, _) = sym(s);
    if a.len() == 0 {
        if ranked { RangeInfo::spec_new(0, false, false) } else { RangeInfo::spec_new(usize::MAX as u64, false, false) }
    } else {
        RangeInfo::spec_try_index(opt_i128(a[0].spec_only_const()))
    }
}

/// A grading's range can be formed: no length is known to be zero, whether symbolic
/// or in the value `eval` gives for a known argument.
pub open spec fn grade_ready<V, F: FnOnce(KnownValue<V>) -> Result<KnownValue<V>, AnalyzeError>>(
    dep_infos: Seq<ValInfo<V>>,
    eval: F,
) -> bool {
    dep_infos.len() > 0 ==> match dep_infos.last().shape {
        ShapeInfo::Known(k) => forall|k2: KnownValue<V>| #[trigger] call_ensures(eval, (k,), Ok::<KnownValue<V>, AnalyzeError>(k2))
            && k2.shape@.len() > 0 ==> k2.shape@[0] != 0,
        s => first_const(sym(s).1) != Some(0int),
    }
}

/// The wrapping conversion of a length to `isize`, as `as` does it.
pub open spec fn usize_as_isize(n: usize) -> isize {
    n as isize
}

proof fn lemma_nonzero_as_isize(n: usize)
    requires
        n != 0,
    ensures
        usize_as_isize(n) != 0,
{
    assert(n as isize != 0) by (bit_vector)
        requires n != 0usize;
}

/// Grading (rise or fall): a known value is graded; the result keeps the shape, and
/// its range is that of the indices below the (new) leading length.
fn grade<V, F: FnOnce(KnownValue<V>) -> Result<KnownValue<V>, AnalyzeError>>(
    dep_infos: Vec<ValInfo<V>>,
    eval: F,
) -> (r: Result<NodeInfo<V>, AnalyzeError>)
    requires
        arg_ready(dep_infos@, eval),
        last_wf(dep_infos@),
        grade_ready(dep_infos@, eval),
    ensures
        dep_infos@.len() == 0 ==> r == Err::<NodeInfo<V>, AnalyzeError>(AnalyzeError::IncorrectArgCount),
        dep_infos@.len() > 0 ==> {
            let d = dep_infos@.last();
            match r {
                Ok(o) => o.vals@.len() == 1 && o.subfunc_idxs@.len() == 0 && o.vals@[0].typ == d.typ
                    && evaluated(eval, d.shape, Ok::<ShapeInfo<V>, AnalyzeError>(o.vals@[0].shape))
                    && o.vals@[0].range == grade_range(o.vals@[0].shape),
                Err(e) => evaluated(eval, d.shape, Err::<ShapeInfo<V>, AnalyzeError>(e)),
            }
        },
{
    let d = one_arg(dep_infos)?;
    let ghost ds = d.shape;
    let shape = map_known(d.shape, eval)?;
    let range = match shape.len() {
        Some(Some(len)) => {
            proof {
                if shape is Known {
                    assert(call_ensures(eval, (ds->Known_0,), Ok::<KnownValue<V>, AnalyzeError>(shape->Known_0)));
                    assert(shape->Known_0.shape@[0] != 0);
                    lemma_nonzero_as_isize(shape->Known_0.shape@[0]);
                    assert(len == const_axis(shape->Known_0.shape@[0]));
                    assert(sym(shape).1[0] == len);
                } else {
                    assert(shape == ds);
                    lemma_copy_only_const(len, sym(shape).1[0]);
                }
            }
            match len.only_const() {
                Some(v) => RangeInfo::try_index(Some(v as i128)),
                None => RangeInfo::try_index(None),
            }
        },
        Some(None) => RangeInfo::zero(),
        None => RangeInfo::index(),
    };
    Ok(NodeInfo::one_val(ValInfo::new(d.typ, shape, range)))
}

/// The indices that sort the rows up.
pub fn rise<V, F: FnOnce(KnownValue<V>) -> Result<KnownValue<V>, AnalyzeError>>(
    dep_infos: Vec<ValInfo<V>>,
    eval: F,
) -> (r: Result<NodeInfo<V>, AnalyzeError>)
    requires
        arg_ready(dep_infos@, eval),
        last_wf(dep_infos@),
        grade_ready(dep_infos@, eval),
    ensures
        dep_infos@.len() == 0 ==> r == Err::<NodeInfo<V>, AnalyzeError>(AnalyzeError::IncorrectArgCount),
        dep_infos@.len() > 0 ==> {
            let d = dep_infos@.last();
            match r {
                Ok(o) => o.vals@.len() == 1 && o.subfunc_idxs@.len() == 0 && o.vals@[0].typ == d.typ
                    && evaluated(eval, d.shape, Ok::<ShapeInfo<V>, AnalyzeError>(o.vals@[0].shape))
                    && o.vals@[0].range == grade_range(o.vals@[0].shape),
                Err(e) => evaluated(eval, d.shape, Err::<ShapeInfo<V>, AnalyzeError>(e)),
            }
        },
{
    grade(dep_infos, eval)
}

/// The indices that sort the rows down.
pub fn fall<V, F: FnOnce(KnownValue<V>) -> Result<KnownValue<V>, AnalyzeError>>(
    dep_infos: Vec<ValInfo<V>>,
    eval: F,
) -> (r: Result<NodeInfo<V>, AnalyzeError>)
    requires
        arg_ready(dep_infos@, eval),
        last_wf(dep_infos@),
        grade_ready(dep_infos@, eval),
    ensures
        dep_infos@.len() == 0 ==> r == Err::<NodeInfo<V>, AnalyzeError>(AnalyzeError::IncorrectArgCount),
        dep_infos@.len() > 0 ==> {
            let d = dep_infos@.last();
            match r {
                Ok(o) => o.vals@.len() == 1 && o.subfunc_idxs@.len() == 0 && o.vals@[0].typ == d.typ
                    && evaluated(eval, d.shape, Ok::<ShapeInfo<V>, AnalyzeError>(o.vals@[0].shape))
                    && o.vals@[0].range == grade_range(o.vals@[0].shape),
                Err(e) => evaluated(eval, d.shape, Err::<ShapeInfo<V>, AnalyzeError>(e)),
            }
        },
{
    grade(dep_infos, eval)
}

/// Deshaping into a list: its length is the product of the lengths (a new variable for
/// an unknown rank).
pub fn deshape<V, F: FnOnce(KnownValue<V>) -> Result<KnownValue<V>, AnalyzeError>>(
    dep_infos: Vec<ValInfo<V>>,
    eval: F,
    nvars: &mut usize,
) -> (r: Result<NodeInfo<V>, AnalyzeError>)
    requires
        arg_ready(dep_infos@, eval),
        vars_room(*old(nvars), 1),
        dep_infos@.len() > 0 && dep_infos@.last().shape is Ranked ==> product_req(dep_infos@.last().shape->Ranked_0@),
    ensures
        dep_infos@.len() == 0 ==> r == Err::<NodeInfo<V>, AnalyzeError>(AnalyzeError::IncorrectArgCount),
        dep_infos@.len() > 0 ==> {
            let d = dep_infos@.last();
            reshaped(d, eval, d.typ, d.range, |s: ShapeInfo<V>| match d.shape {
                ShapeInfo::Ranked(a) => s is Ranked && s->Ranked_0@.len() == 1 && s->Ranked_0@[0].wf()
                    && (forall|env: spec_fn(nat) -> int| #[trigger] s->Ranked_0@[0].eval(env) == eval_product(a@, env))
                    && (s->Ranked_0@[0] is Const) == (forall|i: int| 0 <= i < a@.len() ==> (#[trigger] a@[i]) is Const),
                ShapeInfo::Unranked { .. } => s is Ranked && s->Ranked_0@.len() == 1
                    && fresh_var(s->Ranked_0@[0], *old(nvars)),
                _ => false,
            }, r)
        },
        *final(nvars) == *old(nvars) || *final(nvars) == *old(nvars) + 1,
{
    let d = one_arg(dep_infos)?;
    let shape = match d.shape {
        ShapeInfo::Known(k) => map_known(ShapeInfo::Known(k), eval)?,
        ShapeInfo::Ranked(a) => {
            let len = Axis::product_of(a.as_slice());
            let mut b: Vec<Axis> = Vec::new();
            b.push(len);
            ShapeInfo::Ranked(b)
        },
        ShapeInfo::Unranked { .. } => {
            let mut b: Vec<Axis> = Vec::new();
            b.push(Axis::newvar(nvars));
            ShapeInfo::Ranked(b)
        },
    };
    Ok(NodeInfo::one_val(ValInfo::new(d.typ, shape, d.range)))
}

/// The number of places to rotate by: the absolute value.
pub open spec fn rot_amount(n: i32) -> int {
    if n < 0 { -n } else { n as int }
}

/// The lengths rotated left by `n` places (right for negative `n`).
pub open spec fn rotated(a: Seq<Axis>, n: i32) -> Seq<Axis> {
    let k = rot_amount(n);
    if n > 0 {
        a.subrange(k, a.len() as int) + a.subrange(0, k)
    } else if n < 0 {
        a.subrange(a.len() - k, a.len() as int) + a.subrange(0, a.len() - k)
    } else {
        a
    }
}

/// Rotate the lengths left by `n` places (right for negative `n`).
fn rotate_axes(a: Vec<Axis>, n: i32) -> (r: Vec<Axis>)
    requires
        rot_amount(n) <= a@.len(),
    ensures
        r@ == rotated(a@, n),
{
    let k: usize = if n < 0 { (-(n as i64)) as usize } else { n as usize };
    let mut b = a;
    let mut j: usize = 0;
    if n > 0 {
        while j < k
            invariant
                k == rot_amount(n),
                k <= a@.len(),
                j <= k,
                b@ == a@.subrange(j as int, a@.len() as int) + a@.subrange(0, j as int),
            decreases k - j,
        {
            let x = b.remove(0);
            b.push(x);
            proof {
                assert(b@ =~= a@.subrange(j + 1, a@.len() as int) + a@.subrange(0, j + 1));
            }
            j += 1;
        }
    } else if n < 0 {
        while j < k
            invariant
                k == rot_amount(n),
                k <= a@.len(),
                j <= k,
                b@ == a@.subrange(a@.len() - j, a@.len() as int) + a@.subrange(0, a@.len() - j),
            decreases k - j,
        {
            let x = b.pop().unwrap();
            b.insert(0, x);
            proof {
                assert(b@ =~= a@.subrange(a@.len() - (j + 1), a@.len() as int) + a@.subrange(0, a@.len() - (j + 1)));
            }
            j += 1;
        }
    }
    proof {
        if n == 0 {
            assert(b@ =~= a@);
        }
    }
    b
}

/// Transposition by `n` axes: the lengths (constants for a known value) rotated left by
/// `n` places, right for negative `n`.
pub fn transpose_n<V>(n: i32, dep_infos: Vec<ValInfo<V>>) -> (r: Result<NodeInfo<V>, AnalyzeError>)
    requires
        dep_infos@.len() > 0 ==> sym(dep_infos@.last().shape).0 && rot_amount(n) <= sym(dep_infos@.last().shape).1.len(),
    ensures
        dep_infos@.len() == 0 ==> r == Err::<NodeInfo<V>, AnalyzeError>(AnalyzeError::IncorrectArgCount),
        dep_infos@.len() > 0 ==> {
            let d = dep_infos@.last();
            r is Ok && one_val_shaped(r->Ok_0, d.typ, d.range,
                |s: ShapeInfo<V>| s is Ranked && s->Ranked_0@ == rotated(sym(d.shape).1, n))
        },
{
    let d = one_arg(dep_infos)?;
    let a = match d.shape {
        ShapeInfo::Known(k) => crate::rules::demote_shape(&k.shape),
        ShapeInfo::Ranked(a) => a,
        ShapeInfo::Unranked { prefix, .. } => prefix,
    };
    let b = rotate_axes(a, n);
    Ok(NodeInfo::one_val(ValInfo::new(d.typ, ShapeInfo::Ranked(b), d.range)))
}

/// `r` is `a` with its first `n + 1` lengths merged into their product.
pub open spec fn merged(a: Seq<Axis>, n: int, r: Seq<Axis>) -> bool {
    &&& r.len() == a.len() - n
    &&& r.subrange(1, r.len() as int) == a.subrange(n + 1, a.len() as int)
    &&& r[0].wf()
    &&& forall|env: spec_fn(nat) -> int| #[trigger] r[0].eval(env) == eval_product(a.subrange(0, n + 1), env)
    &&& n == 0 ==> r[0] == a[0]
}

/// The first `n + 1` lengths can be multiplied.
pub open spec fn merge_req(a: Seq<Axis>, n: int) -> bool {
    0 <= n < a.len() && product_req(a.subrange(0, n + 1))
}

/// Merge the first `n + 1` lengths into their product.
fn merge_front(a: Vec<Axis>, n: usize) -> (r: Vec<Axis>)
    requires
        merge_req(a@, n as int),
    ensures
        merged(a@, n as int, r@),
{
    let mut head = a;
    let len = head.len();
    assert(n < len);
    let rest = head.split_off(n + 1);
    let ghost h = head@;
    let p = Axis::product(head);
    let mut out = rest;
    out.insert(0, p);
    proof {
        assert(h =~= a@.subrange(0, n + 1));
        assert(out@.subrange(1, out@.len() as int) =~= a@.subrange(n + 1, a@.len() as int));
        if n == 0 {
            assert(h.len() == 1);
        }
    }
    out
}

/// `k` lengths of 1.
pub open spec fn ones(k: int) -> Seq<Axis> {
    Seq::new(k as nat, |i: int| Axis::Const(1))
}

/// What deshaping to rank `sub` (by `-sub` ranks for negative `sub`) does to ranked
/// lengths `a`: `None` where the rank is too small.
pub open spec fn deshape_sub_ranked(a: Seq<Axis>, sub: i32, r: Option<Seq<Axis>>) -> bool {
    let k = rot_amount(sub);
    let rank = a.len() as int;
    if sub >= 0 {
        if k <= rank {
            r is Some && merged(a, rank - k, r->0)
        } else {
            r == Some(ones(k - rank) + a)
        }
    } else {
        if k >= rank { r is None } else { r is Some && merged(a, k, r->0) }
    }
}

/// The merges that deshaping to rank `sub` can carry out.
pub open spec fn deshape_sub_req<V>(s: ShapeInfo<V>, sub: i32) -> bool {
    let k = rot_amount(sub);
    match s {
        ShapeInfo::Known(_) => false,
        ShapeInfo::Ranked(a) => {
            let rank = a@.len() as int;
            &&& sub != 0
            &&& sub > 0 && k <= rank ==> merge_req(a@, rank - k)
            &&& sub < 0 && k < rank ==> merge_req(a@, k)
        },
        ShapeInfo::Unranked { prefix, suffix } => {
            &&& sub < 0 && k < prefix@.len() ==> merge_req(prefix@, k)
            &&& sub > 0 && k < suffix@.len() ==> merge_req(suffix@, suffix@.len() - k)
        },
    }
}

/// Deshaping to rank `sub`, or by `-sub` ranks for negative `sub`: leading lengths are
/// merged into their product, or lengths of 1 added in front when the rank is smaller
/// than `sub`. For an unknown rank, the known leading lengths are merged as far as they
/// go for a negative `sub`, and for a positive one the trailing lengths are merged into
/// `sub` of them (the leading ones are lost).
pub fn deshape_sub<V>(sub: i32, dep_infos: Vec<ValInfo<V>>) -> (r: Result<NodeInfo<V>, AnalyzeError>)
    requires
        dep_infos@.len() > 0 ==> deshape_sub_req(dep_infos@.last().shape, sub),
    ensures
        dep_infos@.len() == 0 ==> r == Err::<NodeInfo<V>, AnalyzeError>(AnalyzeError::IncorrectArgCount),
        dep_infos@.len() > 0 ==> {
            let d = dep_infos@.last();
            let k = rot_amount(sub);
            match d.shape {
                ShapeInfo::Ranked(a) => if sub < 0 && k >= a@.len() {
                    r == Err::<NodeInfo<V>, AnalyzeError>(AnalyzeError::RankTooSmall(a@.len() as usize, k as usize))
                } else {
                    r is Ok && one_val_shaped(r->Ok_0, d.typ, d.range,
                        |s: ShapeInfo<V>| s is Ranked && deshape_sub_ranked(a@, sub, Some(s->Ranked_0@)))
                },
                ShapeInfo::Unranked { prefix, suffix } => r is Ok && one_val_shaped(r->Ok_0, d.typ, d.range,
                    |s: ShapeInfo<V>| s is Unranked && (if sub < 0 && k < prefix@.len() {
                        merged(prefix@, k, s->prefix@) && s->suffix@ == suffix@
                    } else if sub > 0 {
                        s->prefix@.len() == 0 && (if k < suffix@.len() {
                            merged(suffix@, suffix@.len() - k, s->suffix@)
                        } else {
                            s->suffix@ == suffix@
                        })
                    } else {
                        s->prefix@ == prefix@ && s->suffix@ == suffix@
                    })),
                _ => false,
            }
        },
{
    let d = one_arg(dep_infos)?;
    let k: usize = if sub < 0 { (-(sub as i64)) as usize } else { sub as usize };
    let shape = match d.shape {
        ShapeInfo::Ranked(a) => {
            let rank = a.len();
            if sub >= 0 {
                if k <= rank {
                    ShapeInfo::Ranked(merge_front(a, rank - k))
                } else {
                    let mut b: Vec<Axis> = Vec::new();
                    let mut j: usize = 0;
                    while j < k - rank
                        invariant
                            j <= k - rank,
                            b@ == ones(j as int),
                        decreases k - rank - j,
                    {
                        b.push(Axis::from(1i32));
                        proof {
                            assert(b@ =~= ones(j + 1));
                        }
                        j += 1;
                    }
                    let mut rest = a;
                    b.append(&mut rest);
                    ShapeInfo::Ranked(b)
                }
            } else {
                if k >= rank {
                    return Err(AnalyzeError::RankTooSmall(rank, k));
                }
                ShapeInfo::Ranked(merge_front(a, k))
            }
        },
        ShapeInfo::Unranked { prefix, suffix } => {
            if sub < 0 && k < prefix.len() {
                ShapeInfo::Unranked { prefix: merge_front(prefix, k), suffix }
            } else if sub > 0 {
                let s2 = if k < suffix.len() {
                    let n = suffix.len() - k;
                    merge_front(suffix, n)
                } else {
                    suffix
                };
                ShapeInfo::Unranked { prefix: Vec::new(), suffix: s2 }
            } else {
                ShapeInfo::Unranked { prefix, suffix }
            }
        },
        ShapeInfo::Known(_) => {
            proof {
                assert(false);
            }
            return Err(AnalyzeError::Evaluation);
        },
    };
    Ok(NodeInfo::one_val(ValInfo::new(d.typ, shape, d.range)))
}

/// `eval` may be called on the argument's known value, giving a new value and its range.
pub open spec fn value_ready<V, E: FnOnce(KnownValue<V>) -> Result<(KnownValue<V>, RangeInfo), AnalyzeError>>(
    dep_infos: Seq<ValInfo<V>>,
    eval: E,
) -> bool {
    dep_infos.len() > 0 && dep_infos.last().shape is Known ==> call_requires(eval, (dep_infos.last().shape->Known_0,))
}

/// For a known argument, `r` holds the one value that `eval` computes, with the range it
/// gives and type id 0, or the error it gives.
pub open spec fn valued<V, E: FnOnce(KnownValue<V>) -> Result<(KnownValue<V>, RangeInfo), AnalyzeError>>(
    k: KnownValue<V>,
    eval: E,
    r: Result<NodeInfo<V>, AnalyzeError>,
) -> bool {
    match r {
        Ok(o) => o.vals@.len() == 1 && o.subfunc_idxs@.len() == 0 && o.vals@[0].typ == 0
            && o.vals@[0].shape is Known
            && call_ensures(eval, (k,), Ok::<(KnownValue<V>, RangeInfo), AnalyzeError>((o.vals@[0].shape->Known_0, o.vals@[0].range))),
        Err(e) => call_ensures(eval, (k,), Err::<(KnownValue<V>, RangeInfo), AnalyzeError>(e)),
    }
}

/// Evaluate a known value to a new known value of type id 0.
fn known_value<V, E: FnOnce(KnownValue<V>) -> Result<(KnownValue<V>, RangeInfo), AnalyzeError>>(
    k: KnownValue<V>,
    eval: E,
) -> (r: Result<NodeInfo<V>, AnalyzeError>)
    requires
        call_requires(eval, (k,)),
    ensures
        valued(k, eval, r),
{
    let (k2, range) = eval(k)?;
    Ok(NodeInfo::one_val(ValInfo::new(0, ShapeInfo::Known(k2), range)))
}

/// The indices of the nonzero elements (repeated by count): a list of unknown length
/// for a list argument, and a table of indices with one column per axis otherwise.
pub fn where_indices<V, E: FnOnce(KnownValue<V>) -> Result<(KnownValue<V>, RangeInfo), AnalyzeError>>(
    dep_infos: Vec<ValInfo<V>>,
    eval: E,
    nvars: &mut usize,
) -> (r: Result<NodeInfo<V>, AnalyzeError>)
    requires
        value_ready(dep_infos@, eval),
        vars_room(*old(nvars), 2),
    ensures
        dep_infos@.len() == 0 ==> r == Err::<NodeInfo<V>, AnalyzeError>(AnalyzeError::IncorrectArgCount),
        dep_infos@.len() > 0 && dep_infos@.last().typ != 0 ==> r == Err::<NodeInfo<V>, AnalyzeError>(
            AnalyzeError::NaturalsRequired(MonadicOp::Where, dep_infos@.last().typ)),
        dep_infos@.len() > 0 && dep_infos@.last().typ == 0 ==> {
            let d = dep_infos@.last();
            let idx = RangeInfo::spec_new(usize::MAX as u64, false, false);
            match d.shape {
                ShapeInfo::Known(k) => valued(k, eval, r),
                ShapeInfo::Ranked(a) => r is Ok && one_val_shaped(r->Ok_0, 0, idx, |s: ShapeInfo<V>| s is Ranked
                    && fresh_var(s->Ranked_0@[0], *old(nvars)) && (if a@.len() <= 1 {
                        s->Ranked_0@.len() == 1
                    } else {
                        s->Ranked_0@.len() == 2 && s->Ranked_0@[1] == const_axis(a@.len() as usize)
                    })),
                ShapeInfo::Unranked { .. } => r is Ok && one_val_shaped(r->Ok_0, 0, idx, |s: ShapeInfo<V>| s is Ranked
                    && s->Ranked_0@.len() == 2 && fresh_var(s->Ranked_0@[0], *old(nvars))
                    && fresh_var(s->Ranked_0@[1], (*old(nvars) + 1) as usize)),
            }
        },
{
    let d = one_arg(dep_infos)?;
    if d.typ != 0 {
        return Err(AnalyzeError::NaturalsRequired(MonadicOp::Where, d.typ));
    }
    let shape = match d.shape {
        ShapeInfo::Known(k) => {
            return known_value(k, eval);
        },
        ShapeInfo::Ranked(a) => {
            let mut b: Vec<Axis> = Vec::new();
            b.push(Axis::newvar(nvars));
            if a.len() > 1 {
                b.push(Axis::from(a.len()));
            }
            ShapeInfo::Ranked(b)
        },
        ShapeInfo::Unranked { .. } => {
            let mut b: Vec<Axis> = Vec::new();
            b.push(Axis::newvar(nvars));
            b.push(Axis::newvar(nvars));
            ShapeInfo::Ranked(b)
        },
    };
    Ok(NodeInfo::one_val(ValInfo::new(0, shape, RangeInfo::index())))
}

/// What `classify` gives for a symbolic argument: one index per row, below the number
/// of rows; a scalar is known to classify as 0.
pub open spec fn classify_sym<V, M: FnOnce(Vec<usize>, bool) -> KnownValue<V>>(
    s0: ShapeInfo<V>,
    make: M,
    nvars: usize,
    r: Result<NodeInfo<V>, AnalyzeError>,
) -> bool {
    let idx = RangeInfo::spec_new(usize::MAX as u64, false, false);
    match s0 {
        ShapeInfo::Ranked(a) => r is Ok && if a@.len() == 0 {
            one_val_shaped(r->Ok_0, 0, RangeInfo::spec_new(0, false, false),
                |s: ShapeInfo<V>| s is Known && made(make, seq![0usize], true, s->Known_0))
        } else {
            one_val_shaped(r->Ok_0, 0, RangeInfo::spec_try_index(opt_i128(a@[0].spec_only_const())),
                |s: ShapeInfo<V>| s is Ranked && s->Ranked_0@ == seq![a@[0]])
        },
        ShapeInfo::Unranked { prefix, suffix } => r is Ok && one_val_shaped(r->Ok_0, 0, idx, |s: ShapeInfo<V>|
            if prefix@.len() == 0 && suffix@.len() == 0 {
                s is Unranked && s->prefix@.len() == 0 && s->suffix@.len() == 0
            } else if prefix@.len() > 0 {
                s is Ranked && s->Ranked_0@ == seq![prefix@[0]]
            } else {
                s is Ranked && s->Ranked_0@.len() == 1 && fresh_var(s->Ranked_0@[0], nvars)
            }),
        _ => false,
    }
}

/// Classify a symbolic shape.
fn classify_symbolic<V, M: FnOnce(Vec<usize>, bool) -> KnownValue<V>>(
    s0: ShapeInfo<V>,
    make: M,
    nvars: &mut usize,
) -> (r: Result<NodeInfo<V>, AnalyzeError>)
    requires
        !(s0 is Known),
        s0.wf(),
        make_ready(make),
        vars_room(*old(nvars), 1),
        first_const(sym(s0).1) != Some(0int) || !sym(s0).0,
    ensures
        classify_sym(s0, make, *old(nvars), r),
        *final(nvars) == *old(nvars) || *final(nvars) == *old(nvars) + 1,
{
    let (shape, range) = match s0 {
        ShapeInfo::Ranked(a) => {
            if a.len() == 0 {
                let mut nums: Vec<usize> = Vec::new();
                nums.push(0);
                proof {
                    assert(nums@ =~= seq![0usize]);
                    reveal_with_fuel(max_of, 2);
                }
                known_naturals(nums, true, make)
            } else {
                let mut b = a;
                proof {
                    assert(b@[0].wf());
                }
                let len = b.remove(0);
                let range = match len.only_const() {
                    Some(v) => RangeInfo::try_index(Some(v as i128)),
                    None => RangeInfo::try_index(None),
                };
                let mut c: Vec<Axis> = Vec::new();
                c.push(len);
                proof {
                    assert(c@ =~= seq![a@[0]]);
                }
                (ShapeInfo::Ranked(c), range)
            }
        },
        ShapeInfo::Unranked { prefix, suffix } => {
            if prefix.len() == 0 && suffix.len() == 0 {
                (ShapeInfo::Unranked { prefix, suffix }, RangeInfo::index())
            } else if prefix.len() > 0 {
                let mut p = prefix;
                let len = p.remove(0);
                let mut c: Vec<Axis> = Vec::new();
                c.push(len);
                proof {
                    assert(c@ =~= seq![prefix@[0]]);
                }
                (ShapeInfo::Ranked(c), RangeInfo::index())
            } else {
                let mut c: Vec<Axis> = Vec::new();
                c.push(Axis::newvar(nvars));
                (ShapeInfo::Ranked(c), RangeInfo::index())
            }
        },
        ShapeInfo::Known(_) => {
            proof {
                assert(false);
            }
            (ShapeInfo::Ranked(Vec::new()), RangeInfo::index())
        },
    };
    Ok(NodeInfo::one_val(ValInfo::new(0, shape, range)))
}

/// The arguments of `classify` and `occurrences`: a ranked shape's leading length is
/// not known to be zero.
pub open spec fn classify_ready<V>(dep_infos: Seq<ValInfo<V>>) -> bool {
    dep_infos.len() > 0 && !(dep_infos.last().shape is Known) ==> {
        let s = dep_infos.last().shape;
        s.wf() && (first_const(sym(s).1) != Some(0int) || !sym(s).0)
    }
}

/// For each row, the index of the first equal row among the distinct ones.
pub fn classify<V, E, M>(
    dep_infos: Vec<ValInfo<V>>,
    eval: E,
    make: M,
    nvars: &mut usize,
) -> (r: Result<NodeInfo<V>, AnalyzeError>) where
    E: FnOnce(KnownValue<V>) -> Result<(KnownValue<V>, RangeInfo), AnalyzeError>,
    M: FnOnce(Vec<usize>, bool) -> KnownValue<V>,

    requires
        value_ready(dep_infos@, eval),
        make_ready(make),
        classify_ready(dep_infos@),
        vars_room(*old(nvars), 1),
    ensures
        dep_infos@.len() == 0 ==> r == Err::<NodeInfo<V>, AnalyzeError>(AnalyzeError::IncorrectArgCount),
        dep_infos@.len() > 0 ==> {
            let d = dep_infos@.last();
            match d.shape {
                ShapeInfo::Known(k) => valued(k, eval, r),
                s => classify_sym(s, make, *old(nvars), r),
            }
        },
{
    let d = one_arg(dep_infos)?;
    match d.shape {
        ShapeInfo::Known(k) => known_value(k, eval),
        s => classify_symbolic(s, make, nvars),
    }
}

/// For each row, how many equal rows came before it: for a symbolic argument, what
/// `classify` gives.
pub fn occurrences<V, E, M>(
    dep_infos: Vec<ValInfo<V>>,
    eval: E,
    make: M,
    nvars: &mut usize,
) -> (r: Result<NodeInfo<V>, AnalyzeError>) where
    E: FnOnce(KnownValue<V>) -> Result<(KnownValue<V>, RangeInfo), AnalyzeError>,
    M: FnOnce(Vec<usize>, bool) -> KnownValue<V>,

    requires
        value_ready(dep_infos@, eval),
        make_ready(make),
        classify_ready(dep_infos@),
        vars_room(*old(nvars), 1),
    ensures
        dep_infos@.len() == 0 ==> r == Err::<NodeInfo<V>, AnalyzeError>(AnalyzeError::IncorrectArgCount),
        dep_infos@.len() > 0 ==> {
            let d = dep_infos@.last();
            match d.shape {
                ShapeInfo::Known(k) => valued(k, eval, r),
                s => classify_sym(s, make, *old(nvars), r),
            }
        },
{
    let d = one_arg(dep_infos)?;
    match d.shape {
        ShapeInfo::Known(k) => known_value(k, eval),
        s => classify_symbolic(s, make, nvars),
    }
}

/// `c` requires the lengths `a` and `b` to be equal.
pub open spec fn equal_condition(c: Condition, a: Axis, b: Axis) -> bool {
    &&& c.rels().len() == 1
    &&& c.wf()
    &&& forall|env: spec_fn(nat) -> int| #[trigger] c.holds(env) <==> a.eval(env) == b.eval(env)
}

/// Require the lengths `a` and `b` to be equal: fails if they differ by a constant,
/// records a requirement if that depends on the variables.
fn require_equal(a: Axis, b: Axis, reqs: &mut Vec<Condition>) -> (r: Result<(), AnalyzeError>)
    requires
        b.combine_req(a, true),
    ensures
        crate::rules::differ_by_const(a, b) ==> r is Err && final(reqs)@ == old(reqs)@,
        r is Err ==> crate::rules::differ_by_const(a, b) && r == Err::<(), AnalyzeError>(AnalyzeError::RangeArgument(None)),
        !crate::rules::differ_by_const(a, b) && (forall|e: Seq<usize>| e.len() > 0 ==> #[trigger] a.coef(e) == b.coef(e))
            ==> final(reqs)@ == old(reqs)@,
        !(forall|e: Seq<usize>| e.len() > 0 ==> #[trigger] a.coef(e) == b.coef(e)) ==> r is Ok
            && final(reqs)@.len() == old(reqs)@.len() + 1 && final(reqs)@.drop_last() == old(reqs)@
            && equal_condition(final(reqs)@.last(), a, b),
{
    let ghost (ga, gb) = (a, b);
    let req = Relation::eq(a, b);
    let ghost d = req.expr;
    proof {
        crate::rules::lemma_only_const_coefs(d);
        assert(forall|e: Seq<usize>| #[trigger] d.coef(e) == gb.coef(e) - ga.coef(e));
        assert((forall|e: Seq<usize>| e.len() > 0 ==> #[trigger] ga.coef(e) == gb.coef(e))
            <==> (forall|e: Seq<usize>| e.len() > 0 ==> #[trigger] d.coef(e) == 0)) by {
            if forall|e: Seq<usize>| e.len() > 0 ==> #[trigger] ga.coef(e) == gb.coef(e) {
                assert forall|e: Seq<usize>| e.len() > 0 implies #[trigger] d.coef(e) == 0 by {
                    assert(ga.coef(e) == gb.coef(e));
                }
            }
            if forall|e: Seq<usize>| e.len() > 0 ==> #[trigger] d.coef(e) == 0 {
                assert forall|e: Seq<usize>| e.len() > 0 implies #[trigger] ga.coef(e) == gb.coef(e) by {
                    assert(d.coef(e) == 0);
                }
            }
        }
    }
    match req.trivial() {
        Some(valid) => {
            if !valid {
                return Err(AnalyzeError::RangeArgument(None));
            }
            Ok(())
        },
        None => {
            let c = Condition::from(req);
            proof {
                assert(c.rels()[0] == req);
                assert forall|env: spec_fn(nat) -> int| #[trigger] c.holds(env) <==> ga.eval(env) == gb.eval(env) by {
                    if req.holds(env) {
                        assert(c.rels()[0].holds(env));
                    }
                }
            }
            reqs.push(c);
            proof {
                assert(final(reqs)@.drop_last() =~= old(reqs)@);
            }
            Ok(())
        },
    }
}

/// The number of variables that `range` creates for a ranked argument.
pub open spec fn range_vars(a: Seq<Axis>) -> int {
    if a.len() == 0 {
        1
    } else if a.len() == 1 && a[0].spec_only_const() is Some && a[0].spec_only_const()->0 > 0 {
        a[0].spec_only_const()->0
    } else {
        0
    }
}

/// What `range` needs of its argument: known values go to `known_range`; symbolic
/// lengths are well formed, with room for the variables made.
pub open spec fn range_ready<V, R: FnOnce(KnownValue<V>) -> Result<(ShapeInfo<V>, RangeInfo), AnalyzeError>>(
    dep_infos: Seq<ValInfo<V>>,
    known_range: R,
    nvars: usize,
) -> bool {
    dep_infos.len() > 0 ==> match dep_infos.last().shape {
        ShapeInfo::Known(k) => call_requires(known_range, (k,)),
        ShapeInfo::Ranked(a) => (a@.len() > 0 ==> a@[0].wf()) && vars_room(nvars, range_vars(a@)),
        ShapeInfo::Unranked { prefix, suffix } => prefix@.len() == 1 && suffix@.len() == 1
            ==> suffix@[0].combine_req(prefix@[0], true),
    }
}

/// The number of fresh variables `range` makes: those of a ranked argument of type
/// id 0, none otherwise.
pub open spec fn range_new_vars<V>(d: Seq<ValInfo<V>>) -> int {
    if d.len() > 0 && d.last().typ == 0 && d.last().shape is Ranked {
        range_vars(d.last().shape->Ranked_0@)
    } else {
        0
    }
}

/// `range` records a requirement: its argument, of type id 0, has one leading and one
/// trailing length whose terms with variables differ, so whether they are equal
/// depends on the variables.
pub open spec fn range_adds_req<V>(d: Seq<ValInfo<V>>) -> bool {
    &&& d.len() > 0
    &&& d.last().typ == 0
    &&& match d.last().shape {
        ShapeInfo::Unranked { prefix, suffix } => prefix@.len() == 1 && suffix@.len() == 1
            && !(forall|e: Seq<usize>| e.len() > 0 ==> #[trigger] prefix@[0].coef(e) == suffix@[0].coef(e)),
        _ => false,
    }
}

/// The shape of a ranked `range` argument's result.
pub open spec fn range_ranked<V>(a: Seq<Axis>, nvars: usize, s: ShapeInfo<V>) -> bool {
    if a.len() == 0 {
        s is Ranked && s->Ranked_0@.len() == 1 && fresh_var(s->Ranked_0@[0], nvars)
    } else if a[0].spec_only_const() is Some {
        let n = if a[0].spec_only_const()->0 > 0 { a[0].spec_only_const()->0 } else { 0 };
        s is Ranked && s->Ranked_0@.len() == n + 1 && s->Ranked_0@[n] == a[0]
            && forall|i: int| 0 <= i < n ==> fresh_var(#[trigger] s->Ranked_0@[i], (nvars + i) as usize)
    } else {
        s is Unranked && s->prefix@.len() == 0 && s->suffix@ == seq![a[0]]
    }
}

/// The range of naturals below a number (a list of them below each number, with one
/// more axis): for a scalar, a list of unknown length; for a list of known length `n`,
/// `n` unknown lengths followed by `n`; for a list of unknown length, an unknown rank
/// ending in that length. A known argument goes to `known_range`.
pub fn range<V, R: FnOnce(KnownValue<V>) -> Result<(ShapeInfo<V>, RangeInfo), AnalyzeError>>(
    dep_infos: Vec<ValInfo<V>>,
    known_range: R,
    nvars: &mut usize,
    reqs: &mut Vec<Condition>,
) -> (r: Result<NodeInfo<V>, AnalyzeError>)
    requires
        range_ready(dep_infos@, known_range, *old(nvars)),
    ensures
        dep_infos@.len() == 0 ==> r == Err::<NodeInfo<V>, AnalyzeError>(AnalyzeError::IncorrectArgCount),
        dep_infos@.len() > 0 && dep_infos@.last().typ != 0 ==> r == Err::<NodeInfo<V>, AnalyzeError>(
            AnalyzeError::NaturalsRequired(MonadicOp::Range, dep_infos@.last().typ)),
        dep_infos@.len() > 0 && dep_infos@.last().typ == 0 ==> {
            let d = dep_infos@.last();
            let nat_range = RangeInfo::spec_new(u64::MAX, d.range.signed, false);
            match d.shape {
                ShapeInfo::Known(k) => match r {
                    Ok(o) => o.vals@.len() == 1 && o.subfunc_idxs@.len() == 0 && o.vals@[0].typ == 0
                        && call_ensures(known_range, (k,), Ok::<(ShapeInfo<V>, RangeInfo), AnalyzeError>((o.vals@[0].shape, o.vals@[0].range))),
                    Err(e) => call_ensures(known_range, (k,), Err::<(ShapeInfo<V>, RangeInfo), AnalyzeError>(e)),
                },
                ShapeInfo::Ranked(a) => if a@.len() >= 2 {
                    r == Err::<NodeInfo<V>, AnalyzeError>(AnalyzeError::RangeArgument(Some(a@.len() as usize)))
                } else {
                    r is Ok && one_val_shaped(r->Ok_0, 0, nat_range, |s: ShapeInfo<V>| range_ranked(a@, *old(nvars), s))
                },
                ShapeInfo::Unranked { prefix, suffix } => {
                    let (p, q) = (prefix@.len(), suffix@.len());
                    if p == 1 && q == 0 || p == 0 && q == 1 {
                        r is Ok && one_val_shaped(r->Ok_0, 0, nat_range, |s: ShapeInfo<V>| s is Unranked
                            && s->prefix@.len() == 0 && s->suffix@ == seq![if p == 1 { prefix@[0] } else { suffix@[0] }])
                    } else if p == 1 && q == 1 {
                        &&& crate::rules::differ_by_const(prefix@[0], suffix@[0])
                            ==> r == Err::<NodeInfo<V>, AnalyzeError>(AnalyzeError::RangeArgument(None))
                        &&& !crate::rules::differ_by_const(prefix@[0], suffix@[0]) ==> r is Ok
                            && one_val_shaped(r->Ok_0, 0, nat_range, |s: ShapeInfo<V>| s is Unranked
                                && s->prefix@.len() == 0 && s->suffix@ == seq![prefix@[0]])
                    } else {
                        r == Err::<NodeInfo<V>, AnalyzeError>(AnalyzeError::RangeArgument(None))
                    }
                },
            }
        },
        *final(nvars) == *old(nvars) + range_new_vars(dep_infos@),
        range_adds_req(dep_infos@) ==> {
            let d = dep_infos@.last();
            &&& final(reqs)@.len() == old(reqs)@.len() + 1
            &&& final(reqs)@.drop_last() == old(reqs)@
            &&& equal_condition(final(reqs)@.last(), d.shape->prefix@[0], d.shape->suffix@[0])
        },
        !range_adds_req(dep_infos@) ==> final(reqs)@ == old(reqs)@,
{
    let d = one_arg(dep_infos)?;
    if d.typ != 0 {
        return Err(AnalyzeError::NaturalsRequired(MonadicOp::Range, d.typ));
    }
    let nat_range = RangeInfo::natural().signed(d.range.signed);
    let shape = match d.shape {
        ShapeInfo::Known(k) => {
            let (shape, range) = known_range(k)?;
            return Ok(NodeInfo::one_val(ValInfo::new(0, shape, range)));
        },
        ShapeInfo::Ranked(a) => {
            if a.len() == 0 {
                let mut b: Vec<Axis> = Vec::new();
                b.push(Axis::newvar(nvars));
                ShapeInfo::Ranked(b)
            } else if a.len() == 1 {
                let ghost a_orig = a@;
                let mut a = a;
                let ghost a0 = a@[0];
                let len = a.remove(0);
                match len.only_const() {
                    Some(real_len) => {
                        let ghost n0 = *nvars;
                        proof {
                            assert(a_orig[0] == len);
                            if real_len > 0 {
                                assert(range_vars(a_orig) == real_len);
                            }
                        }
                        let mut b: Vec<Axis> = Vec::new();
                        let mut i: isize = 0;
                        while i < real_len
                            invariant
                                0 <= i,
                                i <= real_len || real_len <= 0,
                                real_len <= 0 ==> i == 0,
                                real_len > 0 ==> n0 + real_len < usize::MAX,
                                b@.len() == i,
                                *nvars == n0 + i,
                                forall|j: int| 0 <= j < i ==> fresh_var(#[trigger] b@[j], (n0 + j) as usize),
                            decreases real_len - i,
                        {
                            b.push(Axis::newvar(nvars));
                            i += 1;
                        }
                        let ghost bl = b@.len();
                        b.push(len);
                        proof {
                            assert(b@[bl as int] == a0);
                            assert(range_ranked(a_orig, n0, ShapeInfo::<V>::Ranked(b)));
                        }
                        ShapeInfo::Ranked(b)
                    },
                    None => {
                        let mut s: Vec<Axis> = Vec::new();
                        s.push(len);
                        proof {
                            assert(s@ =~= seq![a0]);
                        }
                        ShapeInfo::Unranked { prefix: Vec::new(), suffix: s }
                    },
                }
            } else {
                return Err(AnalyzeError::RangeArgument(Some(a.len())));
            }
        },
        ShapeInfo::Unranked { prefix, suffix } => {
            let mut p = prefix;
            let mut q = suffix;
            let len = if p.len() == 1 && q.len() == 0 {
                p.remove(0)
            } else if p.len() == 0 && q.len() == 1 {
                q.remove(0)
            } else if p.len() == 1 && q.len() == 1 {
                let len1 = p.remove(0);
                let len2 = q.remove(0);
                let ghost g1 = len1;
                let ghost g2 = len2;
                let l1c = len1.clone();
                proof {
                    assert(forall|e: Seq<usize>| #[trigger] l1c.coef(e) == g1.coef(e));
                    assert(crate::rules::differ_by_const(l1c, g2) <==> crate::rules::differ_by_const(g1, g2)) by {
                        if forall|e: Seq<usize>| e.len() > 0 ==> #[trigger] l1c.coef(e) == g2.coef(e) {
                            assert forall|e: Seq<usize>| e.len() > 0 implies #[trigger] g1.coef(e) == g2.coef(e) by {
                                assert(l1c.coef(e) == g1.coef(e));
                                assert(l1c.coef(e) == g2.coef(e));
                            }
                        }
                        if forall|e: Seq<usize>| e.len() > 0 ==> #[trigger] g1.coef(e) == g2.coef(e) {
                            assert forall|e: Seq<usize>| e.len() > 0 implies #[trigger] l1c.coef(e) == g2.coef(e) by {
                                assert(l1c.coef(e) == g1.coef(e));
                                assert(g1.coef(e) == g2.coef(e));
                            }
                        }
                        assert(l1c.coef(Seq::empty()) == g1.coef(Seq::empty()));
                    }
                    assert forall|e: Seq<usize>| crate::axis::in_isize(#[trigger] g2.coef(e) + crate::axis::sgn(l1c.coef(e), true)) by {
                        assert(l1c.coef(e) == g1.coef(e));
                    }
                }
                proof {
                    assert((forall|e: Seq<usize>| e.len() > 0 ==> #[trigger] l1c.coef(e) == g2.coef(e))
                        <==> (forall|e: Seq<usize>| e.len() > 0 ==> #[trigger] g1.coef(e) == g2.coef(e))) by {
                        if forall|e: Seq<usize>| e.len() > 0 ==> #[trigger] l1c.coef(e) == g2.coef(e) {
                            assert forall|e: Seq<usize>| e.len() > 0 implies #[trigger] g1.coef(e) == g2.coef(e) by {
                                assert(l1c.coef(e) == g1.coef(e));
                            }
                        }
                        if forall|e: Seq<usize>| e.len() > 0 ==> #[trigger] g1.coef(e) == g2.coef(e) {
                            assert forall|e: Seq<usize>| e.len() > 0 implies #[trigger] l1c.coef(e) == g2.coef(e) by {
                                assert(l1c.coef(e) == g1.coef(e));
                            }
                        }
                    }
                }
                require_equal(l1c, len2, reqs)?;
                proof {
                    if reqs@.len() == old(reqs)@.len() + 1 {
                        assert forall|env: spec_fn(nat) -> int| #[trigger] reqs@.last().holds(env)
                            <==> g1.eval(env) == g2.eval(env) by {
                            assert(l1c.eval(env) == g1.eval(env));
                        }
                    }
                }
                len1
            } else {
                return Err(AnalyzeError::RangeArgument(None));
            };
            let ghost gl = len;
            let mut s: Vec<Axis> = Vec::new();
            s.push(len);
            proof {
                assert(s@ =~= seq![gl]);
            }
            ShapeInfo::Unranked { prefix: Vec::new(), suffix: s }
        },
    };
    Ok(NodeInfo::one_val(ValInfo::new(0, shape, nat_range)))
}

/// The largest of the numbers, if there are any.
pub open spec fn seq_max(s: Seq<usize>) -> Option<usize>
    decreases s.len(),
{
    if s.len() == 0 {
        None
    } else {
        match seq_max(s.drop_last()) {
            None => Some(s.last()),
            Some(m) => Some(if m >= s.last() { m } else { s.last() }),
        }
    }
}

/// What `range` gives for a known array too large to evaluate ahead of time, from its
/// elements as lengths: an axis of each element's length, then, for an array of rank
/// above 0, one of the number of elements; the values are indices below the largest
/// element.
pub fn range_of_elements<V>(elems: &Vec<usize>, rank: usize) -> (r: (ShapeInfo<V>, RangeInfo))
    requires
        seq_max(elems@) != Some(0usize),
    ensures
        r.0 is Ranked,
        r.0->Ranked_0@ == crate::rules::const_axes(elems@)
            + (if rank > 0 { seq![const_axis(elems@.len() as usize)] } else { Seq::empty() }),
        r.1 == RangeInfo::spec_try_index(match seq_max(elems@) {
            Some(m) => Some(m as i128),
            None => None,
        }),
{
    let mut shape: Vec<Axis> = Vec::new();
    let mut max: Option<usize> = None;
    let mut i: usize = 0;
    while i < elems.len()
        invariant
            i <= elems@.len(),
            shape@ == crate::rules::const_axes(elems@.take(i as int)),
            max == seq_max(elems@.take(i as int)),
        decreases elems@.len() - i,
    {
        let x = elems[i];
        proof {
            assert(elems@.take(i + 1).drop_last() =~= elems@.take(i as int));
        }
        shape.push(Axis::from(x));
        max = match max {
            None => Some(x),
            Some(m) => Some(if m >= x { m } else { x }),
        };
        proof {
            assert(shape@ =~= crate::rules::const_axes(elems@.take(i + 1)));
        }
        i += 1;
    }
    proof {
        assert(elems@.take(elems@.len() as int) =~= elems@);
    }
    let ghost base = shape@;
    if rank > 0 {
        shape.push(Axis::from(elems.len()));
    }
    proof {
        assert(shape@ =~= base + (if rank > 0 { seq![const_axis(elems@.len() as usize)] } else { Seq::empty() }));
    }
    let extent: Option<i128> = match max {
        Some(m) => Some(m as i128),
        None => None,
    };
    (ShapeInfo::Ranked(shape), RangeInfo::try_index(extent))
}

/// The number of rows that a modifier iterating over rows sees in a value: its leading
/// length, 1 for a known scalar, `None` when whether it is a scalar is unknown.
pub open spec fn row_count<V>(s: ShapeInfo<V>) -> Option<Axis> {
    let (ranked, a, _) = sym(s);
    if a.len() > 0 { Some(a[0]) } else if ranked { Some(Axis::Const(1)) } else { None }
}

/// The counts up to the first unknown one.
pub open spec fn leading_somes(lens: Seq<Option<Axis>>) -> Seq<Axis>
    decreases lens.len(),
{
    if lens.len() == 0 {
        Seq::empty()
    } else {
        let prev = leading_somes(lens.drop_last());
        if prev.len() == lens.len() - 1 && lens.last() is Some { prev.push(lens.last()->0) } else { prev }
    }
}

proof fn lemma_leading_somes(lens: Seq<Option<Axis>>)
    ensures
        leading_somes(lens).len() <= lens.len(),
        forall|j: int| 0 <= j < leading_somes(lens).len() ==> (#[trigger] lens[j]) is Some
            && leading_somes(lens)[j] == lens[j]->0,
        leading_somes(lens).len() < lens.len() ==> lens[leading_somes(lens).len() as int] is None,
    decreases lens.len(),
{
    if lens.len() > 0 {
        let d = lens.drop_last();
        lemma_leading_somes(d);
        assert forall|j: int| 0 <= j < leading_somes(lens).len() implies (#[trigger] lens[j]) is Some
            && leading_somes(lens)[j] == lens[j]->0 by {
            if j < leading_somes(d).len() {
                assert(lens[j] == d[j]);
            }
        }
        if leading_somes(d).len() < d.len() {
            assert(lens[leading_somes(d).len() as int] == d[leading_somes(d).len() as int]);
        }
    }
}

/// The row counts of the values (clones of their leading lengths).
pub fn row_counts<V>(dep_infos: &Vec<ValInfo<V>>) -> (r: Vec<Option<Axis>>)
    ensures
        r@.len() == dep_infos@.len(),
        forall|i: int| 0 <= i < r@.len() ==> ((#[trigger] r@[i]) is Some <==> row_count(dep_infos@[i].shape) is Some),
        forall|i: int| 0 <= i < r@.len() && (#[trigger] r@[i]) is Some
            ==> crate::info::copy_of(r@[i]->0, row_count(dep_infos@[i].shape)->0),
{
    let mut out: Vec<Option<Axis>> = Vec::new();
    let mut i: usize = 0;
    while i < dep_infos.len()
        invariant
            i <= dep_infos@.len(),
            out@.len() == i,
            forall|j: int| 0 <= j < i ==> ((#[trigger] out@[j]) is Some <==> row_count(dep_infos@[j].shape) is Some),
            forall|j: int| 0 <= j < i && (#[trigger] out@[j]) is Some
                ==> crate::info::copy_of(out@[j]->0, row_count(dep_infos@[j].shape)->0),
        decreases dep_infos@.len() - i,
    {
        let c = match dep_infos[i].shape.len() {
            Some(Some(a)) => Some(a),
            Some(None) => Some(Axis::from(1i32)),
            None => None,
        };
        out.push(c);
        i += 1;
    }
    out
}

/// The common number of rows of the arguments of a modifier iterating over rows: their
/// row counts (`None` for an unknown scalar status) matched in order, with requirements
/// going to `reqs`; or a new variable when some count is unknown (the matches before it
/// are still made, but a failure among them is then not reported).
pub fn rows_len(lens: Vec<Option<Axis>>, nvars: &mut usize, reqs: &mut Vec<Condition>) -> (r: Result<Axis, AnalyzeError>)
    requires
        crate::rules::column_req(leading_somes(lens@)),
        vars_room(*old(nvars), 1),
    ensures
        leading_somes(lens@).len() == lens@.len() ==> *final(nvars) == *old(nvars)
            && match crate::rules::fold_match(leading_somes(lens@)) {
                Some(a) => r == Ok::<Axis, AnalyzeError>(a),
                None => r == Err::<Axis, AnalyzeError>(AnalyzeError::AxisMismatch),
            },
        leading_somes(lens@).len() < lens@.len() ==> r is Ok && fresh_var(r->Ok_0, *old(nvars))
            && *final(nvars) == *old(nvars) + 1,
        final(reqs)@.len() >= old(reqs)@.len(),
        final(reqs)@.take(old(reqs)@.len() as int) == old(reqs)@,
{
    let ghost all = lens@;
    let ghost somes = leading_somes(all);
    let ghost old_reqs = reqs@;
    proof {
        lemma_leading_somes(all);
    }
    let mut acc: Result<Axis, AnalyzeError> = Ok(Axis::from(1i32));
    let n = lens.len();
    assert(all.len() == n);
    let mut rest = lens;
    let mut i: usize = 0;
    while rest.len() > 0
        invariant
            all == lens@,
            all.len() <= usize::MAX,
            somes == leading_somes(all),
            crate::rules::column_req(somes),
            somes.len() <= all.len(),
            forall|j: int| 0 <= j < somes.len() ==> (#[trigger] all[j]) is Some && somes[j] == all[j]->0,
            somes.len() < all.len() ==> all[somes.len() as int] is None,
            i <= somes.len(),
            i + rest@.len() == all.len(),
            rest@ == all.subrange(i as int, all.len() as int),
            acc == (match crate::rules::fold_match(somes.take(i as int)) {
                Some(a) => Ok::<Axis, AnalyzeError>(a),
                None => Err::<Axis, AnalyzeError>(AnalyzeError::AxisMismatch),
            }),
            *nvars == *old(nvars),
            vars_room(*old(nvars), 1),
            old_reqs == old(reqs)@,
            reqs@.len() >= old_reqs.len(),
            reqs@.take(old_reqs.len() as int) == old_reqs,
        decreases rest@.len(),
    {
        let item = rest.remove(0);
        proof {
            assert(item == all[i as int]);
            assert(rest@ =~= all.subrange(i + 1, all.len() as int));
        }
        let next = match item {
            Some(a) => a,
            None => {
                proof {
                    assert(i == somes.len());
                }
                return Ok(Axis::newvar(nvars));
            },
        };
        proof {
            assert(i < somes.len());
            assert(next == somes[i as int]);
            assert(somes.take(i + 1).drop_last() =~= somes.take(i as int));
            assert(somes.take(i + 1).last() == next);
        }
        acc = match acc {
            Ok(a) => {
                proof {
                    let col = somes.take(i as int);
                    crate::rules::lemma_fold_match_member(col);
                    crate::rules::lemma_one_const();
                    assert(next.wf());
                    assert(a.wf()) by {
                        if a != Axis::Const(1) {
                            let j = choose|j: int| 0 <= j < col.len() && a == col[j];
                            assert(col[j] == somes[j]);
                        }
                    }
                    if !crate::rules::is_one(a) && !crate::rules::is_one(next) {
                        let j = choose|j: int| 0 <= j < col.len() && a == col[j];
                        assert(col[j] == somes[j]);
                        assert(next.combine_ok(a, true)) by {
                            assert(somes[i as int].combine_ok(somes[j], true));
                        }
                    }
                }
                let m = crate::rules::match_axes(a, next, reqs);
                proof {
                    assert(reqs@.take(old_reqs.len() as int) =~= old_reqs);
                }
                m
            },
            Err(e) => Err(e),
        };
        i += 1;
    }
    proof {
        assert(somes.take(somes.len() as int) =~= somes);
    }
    acc
}

/// `b` is a copy of the lengths `a`.
pub open spec fn axes_copy(b: Seq<Axis>, a: Seq<Axis>) -> bool {
    b.len() == a.len() && forall|i: int| 0 <= i < a.len() ==> crate::info::copy_of(#[trigger] b[i], a[i])
}

/// Copies of the lengths.
pub(crate) fn clone_axes(a: &Vec<Axis>) -> (r: Vec<Axis>)
    ensures
        axes_copy(r@, a@),
{
    let mut out: Vec<Axis> = Vec::new();
    let mut i: usize = 0;
    while i < a.len()
        invariant
            i <= a@.len(),
            out@.len() == i,
            forall|j: int| 0 <= j < i ==> crate::info::copy_of(#[trigger] out@[j], a@[j]),
        decreases a@.len() - i,
    {
        out.push(a[i].clone());
        i += 1;
    }
    out
}

/// The information on one row of a value: a known value with one row gives its first
/// row (through `first`), one with several rows the constant lengths of a row; symbolic
/// shapes lose their leading length (and an unknown rank also its first trailing one).
pub fn row_info<V, F: FnOnce(KnownValue<V>) -> Result<KnownValue<V>, AnalyzeError>>(
    info: ValInfo<V>,
    first: F,
) -> (r: Result<ValInfo<V>, AnalyzeError>)
    requires
        info.shape is Known ==> call_requires(first, (info.shape->Known_0,)),
    ensures
        match info.shape {
            ShapeInfo::Known(k) => if k.shape@.len() == 0 || k.shape@[0] == 1 {
                match r {
                    Ok(v) => v.typ == info.typ && v.range == info.range && v.shape is Known
                        && call_ensures(first, (k,), Ok::<KnownValue<V>, AnalyzeError>(v.shape->Known_0)),
                    Err(e) => call_ensures(first, (k,), Err::<KnownValue<V>, AnalyzeError>(e)),
                }
            } else {
                r is Ok && r->Ok_0.typ == info.typ && r->Ok_0.range == info.range && r->Ok_0.shape is Ranked
                    && r->Ok_0.shape->Ranked_0@ == crate::rules::const_axes(k.shape@.subrange(1, k.shape@.len() as int))
            },
            ShapeInfo::Ranked(a) => r is Ok && r->Ok_0.typ == info.typ && r->Ok_0.range == info.range
                && r->Ok_0.shape is Ranked
                && r->Ok_0.shape->Ranked_0@ == (if a@.len() > 0 { a@.subrange(1, a@.len() as int) } else { a@ }),
            ShapeInfo::Unranked { prefix, suffix } => r is Ok && r->Ok_0.typ == info.typ
                && r->Ok_0.range == info.range && r->Ok_0.shape is Unranked
                && r->Ok_0.shape->prefix@ == (if prefix@.len() > 0 { prefix@.subrange(1, prefix@.len() as int) } else { prefix@ })
                && r->Ok_0.shape->suffix@ == (if suffix@.len() > 0 { suffix@.subrange(1, suffix@.len() as int) } else { suffix@ }),
        },
{
    let shape = match info.shape {
        ShapeInfo::Known(k) => {
            if k.shape.len() == 0 || k.shape[0] == 1 {
                let k2 = first(k)?;
                ShapeInfo::Known(k2)
            } else {
                let full = crate::rules::demote_shape(&k.shape);
                let mut a = full;
                a.remove(0);
                proof {
                    assert(a@ =~= crate::rules::const_axes(k.shape@.subrange(1, k.shape@.len() as int)));
                }
                ShapeInfo::Ranked(a)
            }
        },
        ShapeInfo::Ranked(a) => {
            let mut b = a;
            if b.len() > 0 {
                b.remove(0);
                proof {
                    assert(b@ =~= a@.subrange(1, a@.len() as int));
                }
            }
            ShapeInfo::Ranked(b)
        },
        ShapeInfo::Unranked { prefix, suffix } => {
            let mut p = prefix;
            let mut q = suffix;
            if p.len() > 0 {
                p.remove(0);
                proof {
                    assert(p@ =~= prefix@.subrange(1, prefix@.len() as int));
                }
            }
            if q.len() > 0 {
                q.remove(0);
                proof {
                    assert(q@ =~= suffix@.subrange(1, suffix@.len() as int));
                }
            }
            ShapeInfo::Unranked { prefix: p, suffix: q }
        },
    };
    Ok(ValInfo::new(info.typ, shape, info.range))
}

/// The information on a modifier's output from that on one row of it: the number of
/// rows `len` goes in front (a known row becomes ranked with constant lengths).
pub fn rows_output<V>(info: ValInfo<V>, len: &Axis) -> (r: ValInfo<V>)
    ensures
        r.typ == info.typ,
        r.range == info.range,
        sym(r.shape).0 == sym(info.shape).0,
        !(r.shape is Known),
        sym(r.shape).1.len() == sym(info.shape).1.len() + 1,
        crate::info::copy_of(sym(r.shape).1[0], *len),
        sym(r.shape).1.subrange(1, sym(r.shape).1.len() as int) == sym(info.shape).1,
        sym(r.shape).2 == sym(info.shape).2,
{
    let shape = match info.shape {
        ShapeInfo::Known(k) => {
            let mut a = crate::rules::demote_shape(&k.shape);
            a.insert(0, len.clone());
            proof {
                assert(a@.subrange(1, a@.len() as int) =~= crate::rules::const_axes(k.shape@));
            }
            ShapeInfo::Ranked(a)
        },
        ShapeInfo::Ranked(a) => {
            let mut b = a;
            b.insert(0, len.clone());
            proof {
                assert(b@.subrange(1, b@.len() as int) =~= a@);
            }
            ShapeInfo::Ranked(b)
        },
        ShapeInfo::Unranked { prefix, suffix } => {
            let mut p = prefix;
            p.insert(0, len.clone());
            proof {
                assert(p@.subrange(1, p@.len() as int) =~= prefix@);
            }
            ShapeInfo::Unranked { prefix: p, suffix }
        },
    };
    ValInfo::new(info.typ, shape, info.range)
}

/// The leading lengths that a table can know, from its arguments' row counts (`None`
/// for an unknown scalar status) with known scalars left out: those before the first
/// unknown one. Also whether any is unknown, in which case the table's rank is unknown.
pub fn table_axes(counts: Vec<Option<Axis>>) -> (r: (Vec<Axis>, bool))
    ensures
        r.0@ == leading_somes(counts@),
        r.1 == (leading_somes(counts@).len() < counts@.len()),
{
    let ghost all = counts@;
    proof {
        lemma_leading_somes(all);
    }
    let mut out: Vec<Axis> = Vec::new();
    let n = counts.len();
    let mut rest = counts;
    while rest.len() > 0
        invariant
            all == counts@,
            n == all.len(),
            leading_somes(all).len() <= all.len(),
            forall|j: int| 0 <= j < leading_somes(all).len() ==> (#[trigger] all[j]) is Some
                && leading_somes(all)[j] == all[j]->0,
            leading_somes(all).len() < all.len() ==> all[leading_somes(all).len() as int] is None,
            out@.len() <= leading_somes(all).len(),
            out@ == leading_somes(all).take(out@.len() as int),
            rest@ == all.subrange(out@.len() as int, all.len() as int),
        decreases rest@.len(),
    {
        let ghost i: int = out@.len() as int;
        let item = rest.remove(0);
        proof {
            assert(item == all[i as int]);
            assert(rest@ =~= all.subrange(i + 1, all.len() as int));
        }
        match item {
            Some(a) => {
                out.push(a);
                proof {
                    assert(i < leading_somes(all).len());
                    assert(out@ =~= leading_somes(all).take(i + 1));
                }
            },
            None => {
                proof {
                    assert(i == leading_somes(all).len());
                    assert(out@ =~= leading_somes(all));
                }
                return (out, true);
            },
        }
    }
    proof {
        assert(out@ =~= leading_somes(all));
    }
    (out, false)
}

/// The row counts that decide a table's leading lengths: those of the arguments that
/// are not known scalars.
pub open spec fn table_counts<V>(infos: Seq<ValInfo<V>>) -> Seq<Option<Axis>>
    decreases infos.len(),
{
    if infos.len() == 0 {
        Seq::empty()
    } else {
        let prev = table_counts(infos.drop_last());
        let s = infos.last().shape;
        if sym(s).0 && sym(s).1.len() == 0 { prev } else { prev.push(row_count(s)) }
    }
}

/// The row counts of the arguments that are not known scalars (clones of the lengths).
pub fn table_counts_of<V>(dep_infos: &Vec<ValInfo<V>>) -> (r: Vec<Option<Axis>>)
    ensures
        r@.len() == table_counts(dep_infos@).len(),
        forall|i: int| 0 <= i < r@.len() ==> ((#[trigger] r@[i]) is Some <==> table_counts(dep_infos@)[i] is Some),
        forall|i: int| 0 <= i < r@.len() && (#[trigger] r@[i]) is Some
            ==> crate::info::copy_of(r@[i]->0, table_counts(dep_infos@)[i]->0),
{
    let mut out: Vec<Option<Axis>> = Vec::new();
    let mut i: usize = 0;
    while i < dep_infos.len()
        invariant
            i <= dep_infos@.len(),
            out@.len() == table_counts(dep_infos@.take(i as int)).len(),
            forall|j: int| 0 <= j < out@.len() ==> ((#[trigger] out@[j]) is Some <==> table_counts(dep_infos@.take(i as int))[j] is Some),
            forall|j: int| 0 <= j < out@.len() && (#[trigger] out@[j]) is Some
                ==> crate::info::copy_of(out@[j]->0, table_counts(dep_infos@.take(i as int))[j]->0),
        decreases dep_infos@.len() - i,
    {
        proof {
            assert(dep_infos@.take(i + 1).drop_last() =~= dep_infos@.take(i as int));
            assert(dep_infos@.take(i + 1).last() == dep_infos@[i as int]);
        }
        match dep_infos[i].shape.len() {
            Some(None) => {},
            Some(Some(a)) => {
                out.push(Some(a));
            },
            None => {
                out.push(None);
            },
        }
        i += 1;
    }
    proof {
        assert(dep_infos@.take(dep_infos@.len() as int) =~= dep_infos@);
    }
    out
}

/// The information on a table's output from that on one of its cells: the leading
/// lengths go in front; when they are incomplete the rank becomes unknown, with the
/// cell's lengths (its trailing ones, for a cell of unknown rank) as trailing lengths.
pub fn table_output<V>(info: ValInfo<V>, leading: &Vec<Axis>, incomplete: bool) -> (r: ValInfo<V>)
    ensures
        r.typ == info.typ,
        r.range == info.range,
        !(r.shape is Known),
        incomplete ==> !sym(r.shape).0 && axes_copy(sym(r.shape).1, leading@)
            && sym(r.shape).2 == (if sym(info.shape).0 { sym(info.shape).1 } else { sym(info.shape).2 }),
        !incomplete ==> sym(r.shape).0 == sym(info.shape).0
            && sym(r.shape).1.len() == leading@.len() + sym(info.shape).1.len()
            && axes_copy(sym(r.shape).1.take(leading@.len() as int), leading@)
            && sym(r.shape).1.skip(leading@.len() as int) == sym(info.shape).1
            && sym(r.shape).2 == sym(info.shape).2,
{
    let lead = clone_axes(leading);
    let ghost l = lead@;
    let shape = match info.shape {
        ShapeInfo::Known(k) => {
            let a = crate::rules::demote_shape(&k.shape);
            if incomplete {
                ShapeInfo::Unranked { prefix: lead, suffix: a }
            } else {
                let mut b = lead;
                let mut a2 = a;
                b.append(&mut a2);
                proof {
                    assert(b@.take(l.len() as int) =~= l);
                    assert(b@.skip(l.len() as int) =~= crate::rules::const_axes(k.shape@));
                }
                ShapeInfo::Ranked(b)
            }
        },
        ShapeInfo::Ranked(a) => {
            if incomplete {
                ShapeInfo::Unranked { prefix: lead, suffix: a }
            } else {
                let mut b = lead;
                let mut a2 = a;
                b.append(&mut a2);
                proof {
                    assert(b@.take(l.len() as int) =~= l);
                    assert(b@.skip(l.len() as int) =~= a@);
                }
                ShapeInfo::Ranked(b)
            }
        },
        ShapeInfo::Unranked { prefix, suffix } => {
            if incomplete {
                ShapeInfo::Unranked { prefix: lead, suffix }
            } else {
                let mut b = lead;
                let mut p2 = prefix;
                b.append(&mut p2);
                proof {
                    assert(b@.take(l.len() as int) =~= l);
                    assert(b@.skip(l.len() as int) =~= prefix@);
                }
                ShapeInfo::Unranked { prefix: b, suffix }
            }
        },
    };
    ValInfo::new(info.typ, shape, info.range)
}

/// The information on one row of a reduction's single argument; a reduction over more
/// than one argument is refused.
pub fn reduce_row<V, F: FnOnce(KnownValue<V>) -> Result<KnownValue<V>, AnalyzeError>>(
    dep_infos: Vec<ValInfo<V>>,
    first: F,
) -> (r: Result<ValInfo<V>, AnalyzeError>)
    requires
        dep_infos@.len() == 1 && dep_infos@[0].shape is Known ==> call_requires(first, (dep_infos@[0].shape->Known_0,)),
    ensures
        dep_infos@.len() != 1 ==> r == Err::<ValInfo<V>, AnalyzeError>(AnalyzeError::HigherAdicityReduce),
        dep_infos@.len() == 1 ==> {
            let info = dep_infos@[0];
            match info.shape {
                ShapeInfo::Known(k) => if k.shape@.len() == 0 || k.shape@[0] == 1 {
                    match r {
                        Ok(v) => v.typ == info.typ && v.range == info.range && v.shape is Known
                            && call_ensures(first, (k,), Ok::<KnownValue<V>, AnalyzeError>(v.shape->Known_0)),
                        Err(e) => call_ensures(first, (k,), Err::<KnownValue<V>, AnalyzeError>(e)),
                    }
                } else {
                    r is Ok && r->Ok_0.typ == info.typ && r->Ok_0.range == info.range && r->Ok_0.shape is Ranked
                        && r->Ok_0.shape->Ranked_0@ == crate::rules::const_axes(k.shape@.subrange(1, k.shape@.len() as int))
                },
                ShapeInfo::Ranked(a) => r is Ok && r->Ok_0.typ == info.typ && r->Ok_0.range == info.range
                    && r->Ok_0.shape is Ranked
                    && r->Ok_0.shape->Ranked_0@ == (if a@.len() > 0 { a@.subrange(1, a@.len() as int) } else { a@ }),
                ShapeInfo::Unranked { prefix, suffix } => r is Ok && r->Ok_0.typ == info.typ
                    && r->Ok_0.range == info.range && r->Ok_0.shape is Unranked
                    && r->Ok_0.shape->prefix@ == (if prefix@.len() > 0 { prefix@.subrange(1, prefix@.len() as int) } else { prefix@ })
                    && r->Ok_0.shape->suffix@ == (if suffix@.len() > 0 { suffix@.subrange(1, suffix@.len() as int) } else { suffix@ }),
            }
        },
{
    if dep_infos.len() != 1 {
        return Err(AnalyzeError::HigherAdicityReduce);
    }
    let info = one_arg(dep_infos)?;
    row_info(info, first)
}

/// Checks on a reduction function, analyzed on two rows: it has one output, of the
/// rows' type and rank (both known), and it is pervasive.
pub fn reduce_check<V>(row: &ValInfo<V>, n_outs: usize, out: &ValInfo<V>, pervasive: bool) -> (r: Result<(), AnalyzeError>)
    requires
        !(row.shape is Known),
        !(out.shape is Known),
    ensures
        n_outs != 1 ==> r == Err::<(), AnalyzeError>(AnalyzeError::ReduceOutputs(n_outs)),
        n_outs == 1 && row.typ != out.typ ==> r == Err::<(), AnalyzeError>(AnalyzeError::ReduceTypes(row.typ, out.typ)),
        n_outs == 1 && row.typ == out.typ ==> match (row.shape, out.shape) {
            (ShapeInfo::Ranked(a), ShapeInfo::Ranked(b)) => if a@.len() != b@.len() {
                r == Err::<(), AnalyzeError>(AnalyzeError::ReduceRanks(a@.len() as usize, b@.len() as usize))
            } else if pervasive {
                r is Ok
            } else {
                r == Err::<(), AnalyzeError>(AnalyzeError::ReduceNotPervasive)
            },
            _ => r == Err::<(), AnalyzeError>(AnalyzeError::ReduceUnknownRank),
        },
{
    if n_outs != 1 {
        return Err(AnalyzeError::ReduceOutputs(n_outs));
    }
    if row.typ != out.typ {
        return Err(AnalyzeError::ReduceTypes(row.typ, out.typ));
    }
    match (&row.shape, &out.shape) {
        (ShapeInfo::Ranked(a), ShapeInfo::Ranked(b)) => {
            if a.len() != b.len() {
                return Err(AnalyzeError::ReduceRanks(a.len(), b.len()));
            }
        },
        _ => {
            return Err(AnalyzeError::ReduceUnknownRank);
        },
    }
    if pervasive {
        Ok(())
    } else {
        Err(AnalyzeError::ReduceNotPervasive)
    }
}

/// Checks on a loop's signatures: the condition leaves one value more than it takes
/// (the flag to go on), and the body leaves as many as it takes.
pub fn loop_sigs_check(cond_args: usize, cond_outs: usize, body_args: usize, body_outs: usize)
    -> (r: Result<(), AnalyzeError>)
    ensures
        r is Ok <==> cond_outs == cond_args + 1 && body_outs == body_args,
        r is Err ==> r == Err::<(), AnalyzeError>(AnalyzeError::LoopSignature),
{
    if cond_outs == 0 || cond_outs - 1 != cond_args || body_outs != body_args {
        Err(AnalyzeError::LoopSignature)
    } else {
        Ok(())
    }
}

/// The number of axes of the first `k` arguments, those of unknown rank counting none.
pub open spec fn rank_sum<V>(deps: Seq<ValInfo<V>>, k: int) -> nat
    decreases k,
{
    if k <= 0 {
        0
    } else {
        rank_sum(deps, k - 1) + match deps[k - 1].shape.spec_rank() {
            Some(n) => n,
            None => 0,
        }
    }
}

/// The index of the first argument of unknown rank, or the number of arguments.
pub open spec fn first_unranked<V>(deps: Seq<ValInfo<V>>, k: int) -> int
    decreases k,
{
    if k <= 0 {
        0
    } else if first_unranked(deps, k - 1) < k - 1 {
        first_unranked(deps, k - 1)
    } else if deps[k - 1].shape is Unranked {
        k - 1
    } else {
        k
    }
}

/// `g` is the argument `d` made generic: same type id and range, a ranked shape of the
/// same rank whose lengths are the fresh variables numbered from `start`.
pub open spec fn generic_of<V>(d: ValInfo<V>, g: ValInfo<V>, start: nat) -> bool {
    &&& g.typ == d.typ
    &&& g.range == d.range
    &&& g.shape is Ranked
    &&& Some(g.shape->Ranked_0@.len()) == d.shape.spec_rank()
    &&& forall|j: int| 0 <= j < g.shape->Ranked_0@.len()
        ==> fresh_var(#[trigger] g.shape->Ranked_0@[j], (start + j) as usize)
}

proof fn lemma_rank_sum_grows<V>(deps: Seq<ValInfo<V>>, k: int, n: int)
    requires
        0 <= k <= n,
    ensures
        rank_sum(deps, k) <= rank_sum(deps, n),
    decreases n - k,
{
    if k < n {
        lemma_rank_sum_grows(deps, k, n - 1);
    }
}

proof fn lemma_first_unranked<V>(deps: Seq<ValInfo<V>>, k: int)
    requires
        0 <= k <= deps.len(),
    ensures
        0 <= first_unranked(deps, k) <= k,
        first_unranked(deps, k) < k ==> deps[first_unranked(deps, k)].shape is Unranked,
        forall|i: int| 0 <= i < first_unranked(deps, k) ==> !(#[trigger] deps[i].shape is Unranked),
        first_unranked(deps, k) == k <==> forall|i: int| 0 <= i < k ==> !(#[trigger] deps[i].shape is Unranked),
    decreases k,
{
    if k > 0 {
        lemma_first_unranked(deps, k - 1);
    }
}

/// The arguments of a loop made generic: each gets a ranked shape of its rank, with a
/// fresh variable for each length, numbered on from `nvars` in order; refused at the
/// first argument of unknown rank, the variables made before it being used up.
pub fn generic_inputs<V>(dep_infos: &Vec<ValInfo<V>>, nvars: &mut usize) -> (r: Result<Vec<ValInfo<V>>, AnalyzeError>)
    requires
        *old(nvars) + rank_sum(dep_infos@, dep_infos@.len() as int) <= usize::MAX,
    ensures
        ({
            let k = first_unranked(dep_infos@, dep_infos@.len() as int);
            &&& *final(nvars) == *old(nvars) + rank_sum(dep_infos@, k)
            &&& k < dep_infos@.len() ==> r == Err::<Vec<ValInfo<V>>, AnalyzeError>(AnalyzeError::LoopUnknownRank)
            &&& k == dep_infos@.len() ==> r is Ok
        }),
        r is Ok ==> r->Ok_0@.len() == dep_infos@.len() && forall|i: int| 0 <= i < dep_infos@.len()
            ==> #[trigger] generic_of(dep_infos@[i], r->Ok_0@[i], (*old(nvars) + rank_sum(dep_infos@, i)) as nat),
{
    let ghost nv0 = *nvars as nat;
    let ghost deps = dep_infos@;
    let mut out: Vec<ValInfo<V>> = Vec::new();
    let mut i: usize = 0;
    proof {
        lemma_first_unranked(deps, deps.len() as int);
    }
    while i < dep_infos.len()
        invariant
            i <= deps.len(),
            deps == dep_infos@,
            nv0 + rank_sum(deps, deps.len() as int) <= usize::MAX,
            *nvars == nv0 + rank_sum(deps, i as int),
            nv0 == *old(nvars),
            forall|q: int| 0 <= q < i ==> !(#[trigger] deps[q].shape is Unranked),
            out@.len() == i,
            forall|q: int| 0 <= q < i ==> #[trigger] generic_of(deps[q], out@[q], nv0 + rank_sum(deps, q)),
        decreases deps.len() - i,
    {
        let d = &dep_infos[i];
        let rank = match d.shape.rank() {
            Some(n) => n,
            None => {
                proof {
                    lemma_first_unranked(deps, deps.len() as int);
                    let k = first_unranked(deps, deps.len() as int);
                    assert(k == i) by {
                        if k < i {
                            assert(!(deps[k].shape is Unranked));
                        }
                        if k > i {
                            assert(!(deps[i as int].shape is Unranked));
                        }
                    }
                }
                return Err(AnalyzeError::LoopUnknownRank);
            },
        };
        proof {
            lemma_rank_sum_grows(deps, i + 1, deps.len() as int);
            assert(rank_sum(deps, i + 1) == rank_sum(deps, i as int) + rank);
        }
        let ghost start = *nvars as nat;
        let mut shape: Vec<Axis> = Vec::new();
        let mut j: usize = 0;
        while j < rank
            invariant
                j <= rank,
                start + rank <= usize::MAX,
                *nvars == start + j,
                shape@.len() == j,
                forall|t: int| 0 <= t < j ==> fresh_var(#[trigger] shape@[t], (start + t) as usize),
            decreases rank - j,
        {
            let a = Axis::newvar(nvars);
            shape.push(a);
            j += 1;
        }
        out.push(ValInfo { typ: d.typ, shape: ShapeInfo::Ranked(shape), range: d.range });
        proof {
            assert(generic_of(deps[i as int], out@[i as int], nv0 + rank_sum(deps, i as int)));
        }
        i += 1;
    }
    proof {
        lemma_first_unranked(deps, deps.len() as int);
    }
    Ok(out)
}

/// A loop condition must give a boolean scalar: type id 0, the range of a boolean or
/// of zero alone, and rank 0.
pub fn loop_cond_check<V>(cond: &ValInfo<V>) -> (r: Result<(), AnalyzeError>)
    ensures
        r is Ok <==> cond.typ == 0 && (cond.range == RangeInfo::spec_new(1, false, false) || cond.range == RangeInfo::spec_new(0, false, false))
            && cond.shape.spec_rank() == Some(0nat),
        r is Err ==> r == Err::<(), AnalyzeError>(AnalyzeError::LoopCondition),
{
    let b = RangeInfo::bool();
    let z = RangeInfo::zero();
    if cond.typ != 0 || (cond.range != b && cond.range != z) || cond.shape.rank() != Some(0) {
        Err(AnalyzeError::LoopCondition)
    } else {
        Ok(())
    }
}

/// The inputs of a loop body: what the condition leaves after its flag, then the
/// generic arguments the condition does not take.
pub fn loop_body_inputs<V>(cond_outs: Vec<ValInfo<V>>, generic: Vec<ValInfo<V>>, cond_args: usize) -> (r: Vec<ValInfo<V>>)
    requires
        cond_args <= generic@.len(),
    ensures
        r@ == (if cond_outs@.len() == 0 { Seq::empty() } else { cond_outs@.skip(1) }) + generic@.skip(cond_args as int),
{
    let mut out: Vec<ValInfo<V>> = Vec::new();
    let mut cond_outs = cond_outs;
    let mut generic = generic;
    let ghost c0 = cond_outs@;
    let ghost g0 = generic@;
    let mut rest = generic.split_off(cond_args);
    if cond_outs.len() > 0 {
        let mut tail = cond_outs.split_off(1);
        out.append(&mut tail);
    }
    out.append(&mut rest);
    proof {
        assert(out@ =~= (if c0.len() == 0 { Seq::empty() } else { c0.skip(1) }) + g0.skip(cond_args as int));
    }
    out
}

} // verus!
