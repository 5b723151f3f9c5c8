//! How each primitive transforms the statically inferred information of its
//! arguments: types, ranges and (symbolic) shapes.

use vstd::prelude::*;
use crate::axis::{Axis, sum_of, coef_fn};
use crate::relation::{Relation, Condition, rel_holds};
use crate::info::{KnownValue, ShapeInfo, ValInfo, NodeInfo, const_axis};
use crate::range::RangeInfo;

verus! {

/// Why an analysis step failed.
#[derive(Clone, Copy, Debug, PartialEq, Eq, Structural)]
pub enum AnalyzeError {
    /// A primitive got the wrong number of arguments.
    IncorrectArgCount,
    /// A monadic primitive does not apply to values of this type id.
    CannotApply(MonadicOp, u8),
    /// A dyadic primitive does not combine values of these type ids.
    CannotCombine(DyadicOp, u8, u8),
    /// Two axis lengths that must agree are known to differ.
    AxisMismatch,
    /// A length known to be negative.
    NegativeLength(isize),
    /// `range` got an argument that is not a single integer or a list of integers;
    /// the rank, where it is known.
    RangeArgument(Option<usize>),
    /// `first` or `last` of an array known to be empty.
    EmptyArray,
    /// The rank is too small to be reduced by this many axes.
    RankTooSmall(usize, usize),
    /// A primitive that needs natural numbers got values of this type id.
    NaturalsRequired(MonadicOp, u8),
    /// Some axis length uses a variable without a replacement.
    NotEnoughVariables,
    /// A reduction over more than one argument.
    HigherAdicityReduce,
    /// A reduction function with this many outputs instead of one.
    ReduceOutputs(usize),
    /// A reduction function whose output type id differs from its input's.
    ReduceTypes(u8, u8),
    /// A reduction function whose output rank differs from its input's.
    ReduceRanks(usize, usize),
    /// A reduction function whose ranks are unknown.
    ReduceUnknownRank,
    /// Reduction with a function that is not pervasive.
    ReduceNotPervasive,
    /// Pervasion over no shapes at all.
    NoShapes,
    /// The operation failed on a value known ahead of time.
    Evaluation,
    /// A loop whose condition does not leave one value more than it takes, or whose
    /// body does not leave as many as it takes.
    LoopSignature,
    /// A loop over an argument of unknown rank.
    LoopUnknownRank,
    /// A loop condition that is not a boolean scalar.
    LoopCondition,
}

/// The monadic primitives that check the type of their argument.
#[derive(Clone, Copy, Debug, PartialEq, Eq, Structural)]
pub enum MonadicOp {
    Not,
    Reciprocal,
    Sqrt,
    Exp,
    Sin,
    Floor,
    Ceil,
    Round,
    Range,
    Bits,
    Where,
}

/// The dyadic arithmetic primitives.
#[derive(Clone, Copy, Debug, PartialEq, Eq, Structural)]
pub enum DyadicOp {
    Add,
    Sub,
    Mul,
    Div,
}

/// The length is the constant 1.
pub open spec fn is_one(a: Axis) -> bool {
    a.spec_only_const() == Some(1int)
}

/// Two lengths whose terms naming variables agree and whose constant terms differ:
/// lengths that differ by a nonzero constant whatever the variables.
pub open spec fn differ_by_const(lhs: Axis, rhs: Axis) -> bool {
    &&& forall|e: Seq<usize>| e.len() > 0 ==> #[trigger] lhs.coef(e) == rhs.coef(e)
    &&& lhs.coef(Seq::empty()) != rhs.coef(Seq::empty())
}

/// What `match_axes` picks: the other length next to a length of 1, and otherwise the
/// simpler of the two (the left one on a tie).
pub open spec fn spec_match_axes(lhs: Axis, rhs: Axis) -> Axis {
    if is_one(lhs) {
        rhs
    } else if is_one(rhs) {
        lhs
    } else if (if lhs is Const { 0int } else { 1int }) <= (if rhs is Const { 0int } else { 1int }) {
        lhs
    } else {
        rhs
    }
}

/// Matching fails: neither length is 1 and they differ by a nonzero constant.
pub open spec fn match_fails(lhs: Axis, rhs: Axis) -> bool {
    !is_one(lhs) && !is_one(rhs) && differ_by_const(lhs, rhs)
}

/// Matching records a requirement: neither length is 1 and whether they are equal
/// depends on the variables.
pub open spec fn match_needs_req(lhs: Axis, rhs: Axis) -> bool {
    !is_one(lhs) && !is_one(rhs) && !(forall|e: Seq<usize>| e.len() > 0 ==> #[trigger] lhs.coef(e) == rhs.coef(e))
}

/// `c` is the requirement that `lhs` and `rhs` be equal.
pub open spec fn eq_condition(c: Condition, lhs: Axis, rhs: Axis) -> bool {
    &&& c.rels().len() == 1
    &&& c.wf()
    &&& forall|env: spec_fn(nat) -> int| #[trigger] c.holds(env) <==> lhs.eval(env) == rhs.eval(env)
}

/// For a well-formed length, the constant value exists exactly when every coefficient
/// of a term naming a variable is zero, and it is the constant term.
pub proof fn lemma_only_const_coefs(a: Axis)
    requires
        a.wf(),
    ensures
        a.spec_only_const() is Some <==> forall|e: Seq<usize>| e.len() > 0 ==> #[trigger] a.coef(e) == 0,
        a.spec_only_const() is Some ==> a.spec_only_const()->0 == a.coef(Seq::empty()),
{
    let p = a.poly();
    match a {
        Axis::Const(c) => {
            reveal_with_fuel(sum_of, 2);
            assert forall|e: Seq<usize>| e.len() > 0 implies #[trigger] a.coef(e) == 0 by {
                assert(p[0].0 != e);
            }
        },
        Axis::Var(_) => {
            if a.spec_only_const() is Some {
                assert forall|e: Seq<usize>| e.len() > 0 implies #[trigger] a.coef(e) == 0 by {
                    crate::axis::lemma_coef_distinct(p, e);
                    assert forall|i: int| 0 <= i < p.len() && p[i].0 == e implies p[i].1 == 0 by {
                        assert(p[i].0.len() > 0);
                    }
                    if exists|i: int| 0 <= i < p.len() && p[i].0 == e {
                        let i = choose|i: int| 0 <= i < p.len() && p[i].0 == e;
                        assert(sum_of(p, coef_fn(e)) == p[i].1);
                    }
                }
            }
            if forall|e: Seq<usize>| e.len() > 0 ==> #[trigger] a.coef(e) == 0 {
                assert forall|i: int| 0 <= i < p.len() && p[i].0.len() > 0 implies #[trigger] p[i].1 == 0 by {
                    crate::axis::lemma_coef_distinct(p, p[i].0);
                    assert(a.coef(p[i].0) == 0);
                }
            }
        },
    }
}

/// Attempt to match two axis lengths together: a length of 1 yields to the other one;
/// otherwise the lengths must be equal, which fails if they are known to differ and is
/// recorded in `reqs` if that depends on the variables.
pub fn match_axes(lhs: Axis, rhs: Axis, reqs: &mut Vec<Condition>) -> (r: Result<Axis, AnalyzeError>)
    requires
        lhs.wf(),
        rhs.wf(),
        !is_one(lhs) && !is_one(rhs) ==> rhs.combine_ok(lhs, true),
    ensures
        r is Err <==> match_fails(lhs, rhs),
        r is Err ==> r == Err::<Axis, AnalyzeError>(AnalyzeError::AxisMismatch) && final(reqs)@ == old(reqs)@,
        r is Ok ==> r->Ok_0 == spec_match_axes(lhs, rhs),
        r is Ok && !match_needs_req(lhs, rhs) ==> final(reqs)@ == old(reqs)@,
        r is Ok && match_needs_req(lhs, rhs) ==> final(reqs)@.len() == old(reqs)@.len() + 1
            && final(reqs)@.take(old(reqs)@.len() as int) == old(reqs)@
            && eq_condition(final(reqs)@.last(), lhs, rhs),
        // Whenever the matched lengths are not 1, they agree with the result under the
        // recorded requirement (or identically, when none was needed).
        r is Ok ==> forall|env: spec_fn(nat) -> int| !is_one(lhs) && !is_one(rhs) && !match_needs_req(lhs, rhs)
            ==> #[trigger] lhs.eval(env) == rhs.eval(env),
{
    proof {
        lemma_only_const_coefs(lhs);
        lemma_only_const_coefs(rhs);
    }
    let l1 = lhs.only_const();
    if l1 == Some(1isize) {
        return Ok(rhs);
    }
    let r1 = rhs.only_const();
    if r1 == Some(1isize) {
        return Ok(lhs);
    }
    let lc = lhs.clone();
    let rc = rhs.clone();
    proof {
        assert forall|e: Seq<usize>| crate::axis::in_isize(#[trigger] rc.coef(e) + crate::axis::sgn(lc.coef(e), true)) by {
            assert(rc.coef(e) == rhs.coef(e));
            assert(lc.coef(e) == lhs.coef(e));
            assert(crate::axis::in_isize(rhs.coef(e) + crate::axis::sgn(lhs.coef(e), true)));
        }
        assert(forall|env: spec_fn(nat) -> int| #[trigger] lc.eval(env) == lhs.eval(env));
        assert(forall|env: spec_fn(nat) -> int| #[trigger] rc.eval(env) == rhs.eval(env));
    }
    let req = Relation::eq(lc, rc);
    let ghost d = req.expr;
    proof {
        lemma_only_const_coefs(d);
        assert(forall|e: Seq<usize>| #[trigger] d.coef(e) == rhs.coef(e) - lhs.coef(e));
        assert((forall|e: Seq<usize>| e.len() > 0 ==> #[trigger] lhs.coef(e) == rhs.coef(e))
            <==> (forall|e: Seq<usize>| e.len() > 0 ==> #[trigger] d.coef(e) == 0)) by {
            if forall|e: Seq<usize>| e.len() > 0 ==> #[trigger] lhs.coef(e) == rhs.coef(e) {
                assert forall|e: Seq<usize>| e.len() > 0 implies #[trigger] d.coef(e) == 0 by {
                    assert(lhs.coef(e) == rhs.coef(e));
                }
            }
            if forall|e: Seq<usize>| e.len() > 0 ==> #[trigger] d.coef(e) == 0 {
                assert forall|e: Seq<usize>| e.len() > 0 implies #[trigger] lhs.coef(e) == rhs.coef(e) by {
                    assert(d.coef(e) == 0);
                }
            }
        }
    }
    match req.trivial() {
        Some(valid) => {
            if !valid {
                return Err(AnalyzeError::AxisMismatch);
            }
            proof {
                assert forall|env: spec_fn(nat) -> int| !is_one(lhs) && !is_one(rhs) && !match_needs_req(lhs, rhs)
                    implies #[trigger] lhs.eval(env) == rhs.eval(env) by {
                    assert(req.holds(env));
                }
            }
        },
        None => {
            let c = Condition::from(req);
            proof {
                assert(c.rels()[0] == req);
                assert forall|env: spec_fn(nat) -> int| #[trigger] c.holds(env) <==> lhs.eval(env) == rhs.eval(env) by {
                    if req.holds(env) {
                        assert(c.rels()[0].holds(env));
                    }
                }
            }
            reqs.push(c);
            proof {
                assert(final(reqs)@.take(old(reqs)@.len() as int) =~= old(reqs)@);
            }
        },
    }
    if lhs.complexity() <= rhs.complexity() {
        Ok(lhs)
    } else {
        Ok(rhs)
    }
}

/// The axes at position `k` of those shapes that have one, in order.
pub open spec fn column(shapes: Seq<Seq<Axis>>, k: int) -> Seq<Axis>
    decreases shapes.len(),
{
    if shapes.len() == 0 {
        Seq::empty()
    } else {
        let c = column(shapes.drop_last(), k);
        if k < shapes.last().len() { c.push(shapes.last()[k]) } else { c }
    }
}

/// Matching the lengths one after the other, starting from 1: the common length, or
/// `None` if some match fails.
pub open spec fn fold_match(col: Seq<Axis>) -> Option<Axis>
    decreases col.len(),
{
    if col.len() == 0 {
        Some(Axis::Const(1))
    } else {
        match fold_match(col.drop_last()) {
            Some(acc) => if match_fails(acc, col.last()) { None } else { Some(spec_match_axes(acc, col.last())) },
            None => None,
        }
    }
}

/// The lengths can be matched in any order: they are well formed, and any two of them
/// that are not 1 have a difference within range.
pub open spec fn column_req(col: Seq<Axis>) -> bool {
    &&& forall|i: int| 0 <= i < col.len() ==> (#[trigger] col[i]).wf()
    &&& forall|i: int, j: int| 0 <= i < col.len() && 0 <= j < col.len() && !is_one(col[i]) && !is_one(col[j])
        ==> (#[trigger] col[j]).combine_ok(#[trigger] col[i], true)
}

/// The largest length of the shapes (0 for none).
pub open spec fn max_len(shapes: Seq<Seq<Axis>>) -> nat
    decreases shapes.len(),
{
    if shapes.len() == 0 {
        0
    } else {
        let m = max_len(shapes.drop_last());
        if shapes.last().len() > m { shapes.last().len() } else { m }
    }
}

/// Every column of the shapes can be matched.
pub open spec fn pervade_req(shapes: Seq<Seq<Axis>>) -> bool {
    forall|k: int| 0 <= k ==> #[trigger] column_req(column(shapes, k))
}

/// The result of matching stays one of the lengths matched, or the starting 1.
pub proof fn lemma_fold_match_member(col: Seq<Axis>)
    ensures
        fold_match(col) matches Some(acc) ==> acc == Axis::Const(1)
            || exists|i: int| 0 <= i < col.len() && acc == col[i],
    decreases col.len(),
{
    if col.len() > 0 {
        lemma_fold_match_member(col.drop_last());
        if let Some(acc0) = fold_match(col.drop_last()) {
            if !match_fails(acc0, col.last()) {
                if acc0 != Axis::Const(1) {
                    let i = choose|i: int| 0 <= i < col.drop_last().len() && acc0 == col.drop_last()[i];
                    assert(col[i] == acc0);
                }
                assert(col[col.len() - 1] == col.last());
            }
        }
    }
}

pub proof fn lemma_one_const()
    ensures
        is_one(Axis::Const(1)),
        Axis::Const(1).wf(),
{
}

/// The shapes as sequences of lengths.
pub open spec fn shape_seqs(shapes: Seq<Vec<Axis>>) -> Seq<Seq<Axis>> {
    shapes.map_values(|v: Vec<Axis>| v@)
}

/// The column of a leading part of the shapes is a prefix of the whole column.
proof fn lemma_column_prefix(s: Seq<Seq<Axis>>, j: int, k: int)
    requires
        0 <= j <= s.len(),
    ensures
        column(s.take(j), k).len() <= column(s, k).len(),
        column(s.take(j), k) == column(s, k).take(column(s.take(j), k).len() as int),
    decreases s.len(),
{
    if j == s.len() {
        assert(s.take(j) =~= s);
        assert(column(s, k).take(column(s, k).len() as int) =~= column(s, k));
    } else {
        let d = s.drop_last();
        assert(s.take(j) =~= d.take(j));
        lemma_column_prefix(d, j, k);
        let c = column(s.take(j), k);
        assert(column(s, k).take(c.len() as int) =~= column(d, k).take(c.len() as int));
    }
}

/// Once matching fails, it fails for every longer column.
proof fn lemma_fold_match_none(c: Seq<Axis>, n: int)
    requires
        0 <= n <= c.len(),
        fold_match(c.take(n)) is None,
    ensures
        fold_match(c) is None,
    decreases c.len() - n,
{
    if n < c.len() {
        assert(c.take(n + 1).drop_last() =~= c.take(n));
        lemma_fold_match_none(c, n + 1);
    } else {
        assert(c.take(n) =~= c);
    }
}

/// Align the shapes at their leading axes and match the lengths at each position; the
/// result has the largest rank. Fails for no shapes, or when some position has lengths
/// known to differ; requirements for lengths that must be equal go to `reqs`.
pub fn pervade_shapes(shapes: Vec<Vec<Axis>>, reqs: &mut Vec<Condition>) -> (r: Result<Vec<Axis>, AnalyzeError>)
    requires
        pervade_req(shape_seqs(shapes@)),
    ensures
        shapes@.len() == 0 ==> r == Err::<Vec<Axis>, AnalyzeError>(AnalyzeError::NoShapes),
        r is Err && shapes@.len() > 0 ==> r == Err::<Vec<Axis>, AnalyzeError>(AnalyzeError::AxisMismatch),
        r is Ok <==> shapes@.len() > 0 && forall|k: int| 0 <= k < max_len(shape_seqs(shapes@))
            ==> #[trigger] fold_match(column(shape_seqs(shapes@), k)) is Some,
        r is Ok ==> r->Ok_0@.len() == max_len(shape_seqs(shapes@)) && forall|k: int| 0 <= k < r->Ok_0@.len()
            ==> fold_match(column(shape_seqs(shapes@), k)) == Some(#[trigger] r->Ok_0@[k]),
        final(reqs)@.len() >= old(reqs)@.len(),
        final(reqs)@.take(old(reqs)@.len() as int) == old(reqs)@,
{
    let ghost sv = shape_seqs(shapes@);
    if shapes.len() == 0 {
        return Err(AnalyzeError::NoShapes);
    }
    // The largest rank, and each shape reversed so that its leading axis can be popped.
    let mut rank: usize = 0;
    let mut revs: Vec<Vec<Axis>> = Vec::new();
    let mut rest = shapes;
    while rest.len() > 0
        invariant
            revs@.len() + rest@.len() == sv.len(),
            shape_seqs(rest@) == sv.subrange(revs@.len() as int, sv.len() as int),
            forall|i: int| 0 <= i < revs@.len() ==> (#[trigger] revs@[i])@ == sv[i].reverse(),
            rank == max_len(sv.take(revs@.len() as int)),
        decreases rest@.len(),
    {
        let ghost n = revs@.len() as int;
        let ghost old_rest = rest@;
        proof {
            assert(shape_seqs(old_rest)[0] == sv.subrange(n, sv.len() as int)[0]);
        }
        let mut sh = rest.remove(0);
        proof {
            assert(sh@ == old_rest[0]@);
            assert(sh@ == sv[n]);
            assert(rest@ =~= old_rest.subrange(1, old_rest.len() as int));
            assert forall|j: int| 0 <= j < rest@.len() implies #[trigger] shape_seqs(rest@)[j] == sv[n + 1 + j] by {
                assert(rest@[j] == old_rest[j + 1]);
                assert(shape_seqs(old_rest)[j + 1] == sv.subrange(n, sv.len() as int)[j + 1]);
            }
            assert(shape_seqs(rest@) =~= sv.subrange(n + 1, sv.len() as int));
            assert(sv.take(n + 1).drop_last() =~= sv.take(n));
        }
        if sh.len() > rank {
            rank = sh.len();
        }
        let mut rv: Vec<Axis> = Vec::new();
        let ghost full = sh@;
        while sh.len() > 0
            invariant
                rv@.len() + sh@.len() == full.len(),
                sh@ == full.take(sh@.len() as int),
                rv@ == full.reverse().take(rv@.len() as int),
            decreases sh@.len(),
        {
            let a = sh.pop().unwrap();
            rv.push(a);
            proof {
                assert(sh@ =~= full.take(sh@.len() as int));
                assert(rv@ =~= full.reverse().take(rv@.len() as int));
            }
        }
        proof {
            assert(rv@ =~= full.reverse());
        }
        revs.push(rv);
    }
    proof {
        assert(sv.take(sv.len() as int) =~= sv);
    }
    let ghost nshapes = sv.len();
    let ghost old_reqs = reqs@;
    let mut out: Vec<Axis> = Vec::new();
    let mut k: usize = 0;
    while k < rank
        invariant
            sv == shape_seqs(shapes@),
            nshapes == sv.len(),
            nshapes > 0,
            revs@.len() == nshapes,
            k <= rank,
            rank == max_len(sv),
            pervade_req(sv),
            forall|i: int| 0 <= i < nshapes ==> (#[trigger] revs@[i])@
                == sv[i].subrange(if k <= sv[i].len() { k as int } else { sv[i].len() as int }, sv[i].len() as int).reverse(),
            out@.len() == k,
            forall|q: int| 0 <= q < k ==> fold_match(column(sv, q)) == Some(#[trigger] out@[q]),
            old_reqs == old(reqs)@,
            reqs@.len() >= old_reqs.len(),
            reqs@.take(old_reqs.len() as int) == old_reqs,
        decreases rank - k,
    {
        let mut acc = Axis::Const(1);
        let mut i: usize = 0;
        while i < revs.len()
            invariant
                sv == shape_seqs(shapes@),
                nshapes == sv.len(),
                nshapes > 0,
                rank == max_len(sv),
                revs@.len() == nshapes,
                i <= nshapes,
                k < rank,
                pervade_req(sv),
                forall|j: int| 0 <= j < i ==> (#[trigger] revs@[j])@
                    == sv[j].subrange(if k + 1 <= sv[j].len() { k + 1 } else { sv[j].len() as int }, sv[j].len() as int).reverse(),
                forall|j: int| i <= j < nshapes ==> (#[trigger] revs@[j])@
                    == sv[j].subrange(if k <= sv[j].len() { k as int } else { sv[j].len() as int }, sv[j].len() as int).reverse(),
                fold_match(column(sv.take(i as int), k as int)) == Some(acc),
                old_reqs == old(reqs)@,
                reqs@.len() >= old_reqs.len(),
                reqs@.take(old_reqs.len() as int) == old_reqs,
            decreases nshapes - i,
        {
            let ghost before = revs@[i as int]@;
            let ghost col = column(sv.take(i as int), k as int);
            let ghost full_col = column(sv, k as int);
            proof {
                assert(sv.take(i + 1).drop_last() =~= sv.take(i as int));
                assert(sv.take(i + 1).last() == sv[i as int]);
                lemma_column_prefix(sv, i as int, k as int);
                lemma_column_prefix(sv, i + 1, k as int);
                lemma_fold_match_member(col);
                lemma_one_const();
                assert(column_req(full_col));
            }
            let popped = revs[i].pop();
            proof {
                let n = sv[i as int].len();
                if k < n {
                    assert(before.len() > 0);
                    assert(before.last() == sv[i as int][k as int]);
                    assert(revs@[i as int]@ =~= sv[i as int].subrange(k + 1, n as int).reverse());
                } else {
                    assert(before.len() == 0);
                    assert(revs@[i as int]@ =~= sv[i as int].subrange(n as int, n as int).reverse());
                }
            }
            match popped {
                Some(a) => {
                    proof {
                        let c1 = column(sv.take(i + 1), k as int);
                        assert(c1 == col.push(a));
                        assert(c1.len() <= full_col.len());
                        assert(full_col[col.len() as int] == a) by {
                            assert(c1 == full_col.take(c1.len() as int));
                            assert(c1[col.len() as int] == a);
                        }
                        assert(a.wf());
                        assert(acc.wf()) by {
                            if acc != Axis::Const(1) {
                                let j = choose|j: int| 0 <= j < col.len() && acc == col[j];
                                assert(col[j] == full_col[j]);
                            }
                        }
                        if !is_one(acc) && !is_one(a) {
                            let j = choose|j: int| 0 <= j < col.len() && acc == col[j];
                            assert(col[j] == full_col[j]);
                            assert(a.combine_ok(acc, true)) by {
                                assert(full_col[col.len() as int].combine_ok(full_col[j], true));
                            }
                        }
                    }
                    let ghost old_acc = acc;
                    match match_axes(acc, a, reqs) {
                        Ok(m) => {
                            acc = m;
                            proof {
                                let c1 = column(sv.take(i + 1), k as int);
                                assert(c1 == col.push(a));
                                assert(c1.drop_last() =~= col);
                                assert(c1.last() == a);
                                assert(reqs@.take(old_reqs.len() as int) =~= old_reqs);
                                assert(fold_match(column(sv.take(i + 1), k as int)) == Some(acc));
                            }
                        },
                        Err(e) => {
                            proof {
                                let c1 = column(sv.take(i + 1), k as int);
                                assert(c1 == col.push(a));
                                assert(c1.drop_last() =~= col);
                                assert(c1.last() == a);
                                assert(fold_match(c1) is None);
                                lemma_column_prefix(sv, i + 1, k as int);
                                lemma_fold_match_none(full_col, c1.len() as int);
                                assert(fold_match(column(sv, k as int)) is None);
                            }
                            return Err(e);
                        },
                    }
                },
                None => {
                    proof {
                        assert(column(sv.take(i + 1), k as int) == col);
                    }
                },
            }
            i += 1;
        }
        proof {
            assert(sv.take(nshapes as int) =~= sv);
        }
        out.push(acc);
        k += 1;
    }
    proof {
        assert forall|q: int| 0 <= q < max_len(sv) implies #[trigger] fold_match(column(sv, q)) is Some by {
            assert(fold_match(column(sv, q)) == Some(out@[q]));
        }
    }
    Ok(out)
}

/// `after` is `before` once known values are evaluated with `eval`: a known value is
/// replaced by what `eval` gives for it, a symbolic shape stays.
pub open spec fn evaluated<V, F: FnOnce(KnownValue<V>) -> Result<KnownValue<V>, AnalyzeError>>(
    eval: F,
    before: ShapeInfo<V>,
    after: Result<ShapeInfo<V>, AnalyzeError>,
) -> bool {
    match before {
        ShapeInfo::Known(k) => match after {
            Ok(ShapeInfo::Known(k2)) => call_ensures(eval, (k,), Ok::<KnownValue<V>, AnalyzeError>(k2)),
            Ok(_) => false,
            Err(e) => call_ensures(eval, (k,), Err::<KnownValue<V>, AnalyzeError>(e)),
        },
        _ => after == Ok::<ShapeInfo<V>, AnalyzeError>(before),
    }
}

/// `eval` may be called on the shape's known value, if it has one.
pub open spec fn eval_ready<V, F: FnOnce(KnownValue<V>) -> Result<KnownValue<V>, AnalyzeError>>(
    eval: F,
    shape: ShapeInfo<V>,
) -> bool {
    shape matches ShapeInfo::Known(k) ==> call_requires(eval, (k,))
}

/// Evaluate a known value with `eval`; symbolic shapes stay.
pub(crate) fn map_known<V, F: FnOnce(KnownValue<V>) -> Result<KnownValue<V>, AnalyzeError>>(
    shape: ShapeInfo<V>,
    eval: F,
) -> (r: Result<ShapeInfo<V>, AnalyzeError>)
    requires
        eval_ready(eval, shape),
    ensures
        evaluated(eval, shape, r),
{
    match shape {
        ShapeInfo::Known(k) => match eval(k) {
            Ok(k2) => Ok(ShapeInfo::Known(k2)),
            Err(e) => Err(e),
        },
        other => Ok(other),
    }
}

/// The argument of a monadic primitive: the last one given.
pub(crate) fn one_arg<V>(dep_infos: Vec<ValInfo<V>>) -> (r: Result<ValInfo<V>, AnalyzeError>)
    ensures
        dep_infos@.len() == 0 ==> r == Err::<ValInfo<V>, AnalyzeError>(AnalyzeError::IncorrectArgCount),
        dep_infos@.len() > 0 ==> r == Ok::<ValInfo<V>, AnalyzeError>(dep_infos@.last()),
{
    let mut d = dep_infos;
    match d.pop() {
        Some(v) => Ok(v),
        None => Err(AnalyzeError::IncorrectArgCount),
    }
}

/// The two arguments of a dyadic primitive, which takes exactly two.
pub(crate) fn two_args<V>(dep_infos: Vec<ValInfo<V>>) -> (r: Result<(ValInfo<V>, ValInfo<V>), AnalyzeError>)
    ensures
        dep_infos@.len() != 2 ==> r == Err::<(ValInfo<V>, ValInfo<V>), AnalyzeError>(AnalyzeError::IncorrectArgCount),
        dep_infos@.len() == 2 ==> r == Ok::<(ValInfo<V>, ValInfo<V>), AnalyzeError>((dep_infos@[0], dep_infos@[1])),
{
    if dep_infos.len() != 2 {
        return Err(AnalyzeError::IncorrectArgCount);
    }
    let mut d = dep_infos;
    let ghost all = d@;
    let rhs = d.pop().unwrap();
    let lhs = d.pop().unwrap();
    Ok((lhs, rhs))
}

/// The single value of a monadic pervasive primitive: the argument's type id and range
/// transformed, its shape evaluated.
pub open spec fn monadic_out<V, F: FnOnce(KnownValue<V>) -> Result<KnownValue<V>, AnalyzeError>>(
    dep_infos: Seq<ValInfo<V>>,
    eval: F,
    typ: u8,
    range: RangeInfo,
    r: Result<NodeInfo<V>, AnalyzeError>,
) -> bool {
    let d = dep_infos.last();
    match r {
        Ok(n) => n.vals@.len() == 1 && n.subfunc_idxs@.len() == 0 && n.vals@[0].typ == typ
            && n.vals@[0].range == range
            && evaluated(eval, d.shape, Ok::<ShapeInfo<V>, AnalyzeError>(n.vals@[0].shape)),
        Err(e) => evaluated(eval, d.shape, Err::<ShapeInfo<V>, AnalyzeError>(e)),
    }
}

/// The argument's known value can be evaluated.
pub open spec fn last_ready<V, F: FnOnce(KnownValue<V>) -> Result<KnownValue<V>, AnalyzeError>>(
    dep_infos: Seq<ValInfo<V>>,
    eval: F,
) -> bool {
    dep_infos.len() > 0 ==> eval_ready(eval, dep_infos.last().shape)
}

/// One value with the argument's type id and range, the shape evaluated.
pub(crate) fn monadic_node<V, F: FnOnce(KnownValue<V>) -> Result<KnownValue<V>, AnalyzeError>>(
    d: ValInfo<V>,
    eval: F,
    typ: u8,
    range: RangeInfo,
) -> (r: Result<NodeInfo<V>, AnalyzeError>)
    requires
        eval_ready(eval, d.shape),
    ensures
        monadic_out(seq![d], eval, typ, range, r),
{
    let shape = map_known(d.shape, eval)?;
    let r = NodeInfo::one_val(ValInfo::new(typ, shape, range));
    proof {
        assert(seq![d].last() == d);
    }
    Ok(r)
}

/// Logical not: characters are refused; a range beyond 0 and 1 becomes signed.
pub fn not<V, F: FnOnce(KnownValue<V>) -> Result<KnownValue<V>, AnalyzeError>>(
    dep_infos: Vec<ValInfo<V>>,
    eval: F,
) -> (r: Result<NodeInfo<V>, AnalyzeError>)
    requires
        last_ready(dep_infos@, eval),
    ensures
        dep_infos@.len() == 0 ==> r == Err::<NodeInfo<V>, AnalyzeError>(AnalyzeError::IncorrectArgCount),
        dep_infos@.len() > 0 && dep_infos@.last().typ == 1 ==> r == Err::<NodeInfo<V>, AnalyzeError>(AnalyzeError::CannotApply(MonadicOp::Not, 1)),
        dep_infos@.len() > 0 && dep_infos@.last().typ != 1 ==> {
                let d = dep_infos@.last();
                monadic_out(dep_infos@, eval, d.typ, RangeInfo { signed: d.range.signed || d.range.extent > 1, ..d.range }, r)
            },
{
    let d = one_arg(dep_infos)?;
    if d.typ == 1 {
        return Err(AnalyzeError::CannotApply(MonadicOp::Not, 1));
    }
    let typ: u8 = d.typ;
    let mut range = d.range;
    range.signed = range.signed || range.extent > 1;
    monadic_node(d, eval, typ, range)
}

/// The sign of each number (of each character's code for characters): a number from -1 to 1.
pub fn sign<V, F: FnOnce(KnownValue<V>) -> Result<KnownValue<V>, AnalyzeError>>(
    dep_infos: Vec<ValInfo<V>>,
    eval: F,
) -> (r: Result<NodeInfo<V>, AnalyzeError>)
    requires
        last_ready(dep_infos@, eval),
    ensures
        dep_infos@.len() == 0 ==> r == Err::<NodeInfo<V>, AnalyzeError>(AnalyzeError::IncorrectArgCount),
        dep_infos@.len() > 0 ==> {
                let d = dep_infos@.last();
                monadic_out(dep_infos@, eval, if d.typ == 1 { 0u8 } else { d.typ }, RangeInfo { extent: 1, float: false, ..d.range }, r)
            },
{
    let d = one_arg(dep_infos)?;
    let typ: u8 = if d.typ == 1 { 0 } else { d.typ };
    let mut range = d.range;
    range.extent = 1;
    range.float = false;
    monadic_node(d, eval, typ, range)
}

/// Negation: the range becomes signed.
pub fn neg<V, F: FnOnce(KnownValue<V>) -> Result<KnownValue<V>, AnalyzeError>>(
    dep_infos: Vec<ValInfo<V>>,
    eval: F,
) -> (r: Result<NodeInfo<V>, AnalyzeError>)
    requires
        last_ready(dep_infos@, eval),
    ensures
        dep_infos@.len() == 0 ==> r == Err::<NodeInfo<V>, AnalyzeError>(AnalyzeError::IncorrectArgCount),
        dep_infos@.len() > 0 ==> {
                let d = dep_infos@.last();
                monadic_out(dep_infos@, eval, d.typ, RangeInfo { signed: true, ..d.range }, r)
            },
{
    let d = one_arg(dep_infos)?;
    let typ: u8 = d.typ;
    let mut range = d.range;
    range.signed = true;
    monadic_node(d, eval, typ, range)
}

/// The reciprocal: characters are refused; the range becomes fractional.
pub fn reciprocal<V, F: FnOnce(KnownValue<V>) -> Result<KnownValue<V>, AnalyzeError>>(
    dep_infos: Vec<ValInfo<V>>,
    eval: F,
) -> (r: Result<NodeInfo<V>, AnalyzeError>)
    requires
        last_ready(dep_infos@, eval),
    ensures
        dep_infos@.len() == 0 ==> r == Err::<NodeInfo<V>, AnalyzeError>(AnalyzeError::IncorrectArgCount),
        dep_infos@.len() > 0 && dep_infos@.last().typ == 1 ==> r == Err::<NodeInfo<V>, AnalyzeError>(AnalyzeError::CannotApply(MonadicOp::Reciprocal, 1)),
        dep_infos@.len() > 0 && dep_infos@.last().typ != 1 ==> {
                let d = dep_infos@.last();
                monadic_out(dep_infos@, eval, d.typ, RangeInfo { float: true, ..d.range }, r)
            },
{
    let d = one_arg(dep_infos)?;
    if d.typ == 1 {
        return Err(AnalyzeError::CannotApply(MonadicOp::Reciprocal, 1));
    }
    let typ: u8 = d.typ;
    let mut range = d.range;
    range.float = true;
    monadic_node(d, eval, typ, range)
}

/// The absolute value: type and range stay.
pub fn abs<V, F: FnOnce(KnownValue<V>) -> Result<KnownValue<V>, AnalyzeError>>(
    dep_infos: Vec<ValInfo<V>>,
    eval: F,
) -> (r: Result<NodeInfo<V>, AnalyzeError>)
    requires
        last_ready(dep_infos@, eval),
    ensures
        dep_infos@.len() == 0 ==> r == Err::<NodeInfo<V>, AnalyzeError>(AnalyzeError::IncorrectArgCount),
        dep_infos@.len() > 0 ==> {
                let d = dep_infos@.last();
                monadic_out(dep_infos@, eval, d.typ, d.range, r)
            },
{
    let d = one_arg(dep_infos)?;
    let typ: u8 = d.typ;
    let range = d.range;
    monadic_node(d, eval, typ, range)
}

/// The square root: characters are refused; the range becomes fractional.
pub fn sqrt<V, F: FnOnce(KnownValue<V>) -> Result<KnownValue<V>, AnalyzeError>>(
    dep_infos: Vec<ValInfo<V>>,
    eval: F,
) -> (r: Result<NodeInfo<V>, AnalyzeError>)
    requires
        last_ready(dep_infos@, eval),
    ensures
        dep_infos@.len() == 0 ==> r == Err::<NodeInfo<V>, AnalyzeError>(AnalyzeError::IncorrectArgCount),
        dep_infos@.len() > 0 && dep_infos@.last().typ == 1 ==> r == Err::<NodeInfo<V>, AnalyzeError>(AnalyzeError::CannotApply(MonadicOp::Sqrt, 1)),
        dep_infos@.len() > 0 && dep_infos@.last().typ != 1 ==> {
                let d = dep_infos@.last();
                monadic_out(dep_infos@, eval, d.typ, RangeInfo { float: true, ..d.range }, r)
            },
{
    let d = one_arg(dep_infos)?;
    if d.typ == 1 {
        return Err(AnalyzeError::CannotApply(MonadicOp::Sqrt, 1));
    }
    let typ: u8 = d.typ;
    let mut range = d.range;
    range.float = true;
    monadic_node(d, eval, typ, range)
}

/// The exponential: characters are refused; the range becomes fractional.
pub fn exp<V, F: FnOnce(KnownValue<V>) -> Result<KnownValue<V>, AnalyzeError>>(
    dep_infos: Vec<ValInfo<V>>,
    eval: F,
) -> (r: Result<NodeInfo<V>, AnalyzeError>)
    requires
        last_ready(dep_infos@, eval),
    ensures
        dep_infos@.len() == 0 ==> r == Err::<NodeInfo<V>, AnalyzeError>(AnalyzeError::IncorrectArgCount),
        dep_infos@.len() > 0 && dep_infos@.last().typ == 1 ==> r == Err::<NodeInfo<V>, AnalyzeError>(AnalyzeError::CannotApply(MonadicOp::Exp, 1)),
        dep_infos@.len() > 0 && dep_infos@.last().typ != 1 ==> {
                let d = dep_infos@.last();
                monadic_out(dep_infos@, eval, d.typ, RangeInfo { float: true, ..d.range }, r)
            },
{
    let d = one_arg(dep_infos)?;
    if d.typ == 1 {
        return Err(AnalyzeError::CannotApply(MonadicOp::Exp, 1));
    }
    let typ: u8 = d.typ;
    let mut range = d.range;
    range.float = true;
    monadic_node(d, eval, typ, range)
}

/// The sine: characters are refused; the range becomes fractional.
pub fn sin<V, F: FnOnce(KnownValue<V>) -> Result<KnownValue<V>, AnalyzeError>>(
    dep_infos: Vec<ValInfo<V>>,
    eval: F,
) -> (r: Result<NodeInfo<V>, AnalyzeError>)
    requires
        last_ready(dep_infos@, eval),
    ensures
        dep_infos@.len() == 0 ==> r == Err::<NodeInfo<V>, AnalyzeError>(AnalyzeError::IncorrectArgCount),
        dep_infos@.len() > 0 && dep_infos@.last().typ == 1 ==> r == Err::<NodeInfo<V>, AnalyzeError>(AnalyzeError::CannotApply(MonadicOp::Sin, 1)),
        dep_infos@.len() > 0 && dep_infos@.last().typ != 1 ==> {
                let d = dep_infos@.last();
                monadic_out(dep_infos@, eval, d.typ, RangeInfo { float: true, ..d.range }, r)
            },
{
    let d = one_arg(dep_infos)?;
    if d.typ == 1 {
        return Err(AnalyzeError::CannotApply(MonadicOp::Sin, 1));
    }
    let typ: u8 = d.typ;
    let mut range = d.range;
    range.float = true;
    monadic_node(d, eval, typ, range)
}

/// Rounding down: characters are refused; the range becomes integral.
pub fn floor<V, F: FnOnce(KnownValue<V>) -> Result<KnownValue<V>, AnalyzeError>>(
    dep_infos: Vec<ValInfo<V>>,
    eval: F,
) -> (r: Result<NodeInfo<V>, AnalyzeError>)
    requires
        last_ready(dep_infos@, eval),
    ensures
        dep_infos@.len() == 0 ==> r == Err::<NodeInfo<V>, AnalyzeError>(AnalyzeError::IncorrectArgCount),
        dep_infos@.len() > 0 && dep_infos@.last().typ == 1 ==> r == Err::<NodeInfo<V>, AnalyzeError>(AnalyzeError::CannotApply(MonadicOp::Floor, 1)),
        dep_infos@.len() > 0 && dep_infos@.last().typ != 1 ==> {
                let d = dep_infos@.last();
                monadic_out(dep_infos@, eval, d.typ, RangeInfo { float: false, ..d.range }, r)
            },
{
    let d = one_arg(dep_infos)?;
    if d.typ == 1 {
        return Err(AnalyzeError::CannotApply(MonadicOp::Floor, 1));
    }
    let typ: u8 = d.typ;
    let mut range = d.range;
    range.float = false;
    monadic_node(d, eval, typ, range)
}

/// Rounding up: characters are refused; the range becomes integral.
pub fn ceil<V, F: FnOnce(KnownValue<V>) -> Result<KnownValue<V>, AnalyzeError>>(
    dep_infos: Vec<ValInfo<V>>,
    eval: F,
) -> (r: Result<NodeInfo<V>, AnalyzeError>)
    requires
        last_ready(dep_infos@, eval),
    ensures
        dep_infos@.len() == 0 ==> r == Err::<NodeInfo<V>, AnalyzeError>(AnalyzeError::IncorrectArgCount),
        dep_infos@.len() > 0 && dep_infos@.last().typ == 1 ==> r == Err::<NodeInfo<V>, AnalyzeError>(AnalyzeError::CannotApply(MonadicOp::Ceil, 1)),
        dep_infos@.len() > 0 && dep_infos@.last().typ != 1 ==> {
                let d = dep_infos@.last();
                monadic_out(dep_infos@, eval, d.typ, RangeInfo { float: false, ..d.range }, r)
            },
{
    let d = one_arg(dep_infos)?;
    if d.typ == 1 {
        return Err(AnalyzeError::CannotApply(MonadicOp::Ceil, 1));
    }
    let typ: u8 = d.typ;
    let mut range = d.range;
    range.float = false;
    monadic_node(d, eval, typ, range)
}

/// Rounding: characters are refused; the range becomes integral.
pub fn round<V, F: FnOnce(KnownValue<V>) -> Result<KnownValue<V>, AnalyzeError>>(
    dep_infos: Vec<ValInfo<V>>,
    eval: F,
) -> (r: Result<NodeInfo<V>, AnalyzeError>)
    requires
        last_ready(dep_infos@, eval),
    ensures
        dep_infos@.len() == 0 ==> r == Err::<NodeInfo<V>, AnalyzeError>(AnalyzeError::IncorrectArgCount),
        dep_infos@.len() > 0 && dep_infos@.last().typ == 1 ==> r == Err::<NodeInfo<V>, AnalyzeError>(AnalyzeError::CannotApply(MonadicOp::Round, 1)),
        dep_infos@.len() > 0 && dep_infos@.last().typ != 1 ==> {
                let d = dep_infos@.last();
                monadic_out(dep_infos@, eval, d.typ, RangeInfo { float: false, ..d.range }, r)
            },
{
    let d = one_arg(dep_infos)?;
    if d.typ == 1 {
        return Err(AnalyzeError::CannotApply(MonadicOp::Round, 1));
    }
    let typ: u8 = d.typ;
    let mut range = d.range;
    range.float = false;
    monadic_node(d, eval, typ, range)
}

/// The symbolic lengths of a known shape.
pub open spec fn const_axes(shape: Seq<usize>) -> Seq<Axis> {
    shape.map_values(|n: usize| const_axis(n))
}

/// A shape seen symbolically: whether its rank is known, and its axis lengths (for an
/// unknown rank, the known leading and trailing ones). A known value counts with the
/// constant lengths of its shape.
pub open spec fn sym<V>(s: ShapeInfo<V>) -> (bool, Seq<Axis>, Seq<Axis>) {
    match s {
        ShapeInfo::Known(k) => (true, const_axes(k.shape@), Seq::empty()),
        ShapeInfo::Ranked(a) => (true, a@, Seq::empty()),
        ShapeInfo::Unranked { prefix, suffix } => (false, prefix@, suffix@),
    }
}

/// Pervading the shapes: the matched length at each position, or `None` if there are
/// no shapes or some position fails.
pub open spec fn pervaded(shapes: Seq<Seq<Axis>>) -> Option<Seq<Axis>> {
    if shapes.len() > 0 && forall|k: int| 0 <= k < max_len(shapes) ==> #[trigger] fold_match(column(shapes, k)) is Some {
        Some(Seq::new(max_len(shapes), |k: int| fold_match(column(shapes, k))->0))
    } else {
        None
    }
}

/// The known shape as symbolic constant lengths.
pub(crate) fn demote_shape(shape: &Vec<usize>) -> (r: Vec<Axis>)
    ensures
        r@ == const_axes(shape@),
{
    let mut out: Vec<Axis> = Vec::new();
    let mut i: usize = 0;
    while i < shape.len()
        invariant
            i <= shape@.len(),
            out@ == const_axes(shape@).take(i as int),
        decreases shape@.len() - i,
    {
        out.push(Axis::from(shape[i]));
        proof {
            assert(out@ =~= const_axes(shape@).take(i + 1));
        }
        i += 1;
    }
    proof {
        assert(const_axes(shape@).take(shape@.len() as int) =~= const_axes(shape@));
    }
    out
}

/// When exactly one side is known, it becomes ranked with constant lengths.
pub fn demote_known<V>(lhs: ShapeInfo<V>, rhs: ShapeInfo<V>) -> (r: (ShapeInfo<V>, ShapeInfo<V>))
    ensures
        sym(r.0) == sym(lhs),
        sym(r.1) == sym(rhs),
        (r.0 is Known && r.1 is Known) == (lhs is Known && rhs is Known),
        lhs is Known && rhs is Known ==> r == (lhs, rhs),
        !(lhs is Known && rhs is Known) ==> !(r.0 is Known) && !(r.1 is Known),
        !(lhs is Known) ==> r.0 == lhs,
        !(rhs is Known) ==> r.1 == rhs,
{
    match (lhs, rhs) {
        (ShapeInfo::Known(k), ShapeInfo::Known(k2)) => (ShapeInfo::Known(k), ShapeInfo::Known(k2)),
        (ShapeInfo::Known(k), other) => (ShapeInfo::Ranked(demote_shape(&k.shape)), other),
        (other, ShapeInfo::Known(k)) => (other, ShapeInfo::Ranked(demote_shape(&k.shape))),
        (a, b) => (a, b),
    }
}

/// What `pervade_shapes` gives, in terms of `pervaded`.
proof fn lemma_pervaded(shapes: Seq<Seq<Axis>>, r: Seq<Axis>)
    requires
        shapes.len() > 0,
        r.len() == max_len(shapes),
        forall|k: int| 0 <= k < r.len() ==> fold_match(column(shapes, k)) == Some(#[trigger] r[k]),
    ensures
        pervaded(shapes) == Some(r),
{
    assert forall|k: int| 0 <= k < max_len(shapes) implies #[trigger] fold_match(column(shapes, k)) is Some by {
        assert(fold_match(column(shapes, k)) == Some(r[k]));
    }
    assert(pervaded(shapes)->0 =~= r);
}

/// The two shapes that a dyadic pervasive primitive matches, as symbolic lengths:
/// for two ranked shapes both, and otherwise the ranked one and the known leading
/// lengths of the other.
pub open spec fn pervade_pair(l: (bool, Seq<Axis>, Seq<Axis>), r: (bool, Seq<Axis>, Seq<Axis>)) -> Seq<Seq<Axis>> {
    if l.0 && r.0 {
        seq![l.1, r.1]
    } else if l.0 {
        seq![l.1, r.1]
    } else {
        seq![r.1, l.1]
    }
}

/// The shapes can be combined: not both of unknown rank; two known values can be
/// given to `eval`; otherwise the lengths can be matched.
pub open spec fn dyadic_ready<V, G: FnOnce(KnownValue<V>, KnownValue<V>) -> Result<KnownValue<V>, AnalyzeError>>(
    lhs: ShapeInfo<V>,
    rhs: ShapeInfo<V>,
    eval: G,
) -> bool {
    &&& sym(lhs).0 || sym(rhs).0
    &&& lhs is Known && rhs is Known ==> call_requires(eval, (lhs->Known_0, rhs->Known_0))
    &&& !(lhs is Known && rhs is Known) ==> pervade_req(pervade_pair(sym(lhs), sym(rhs)))
}

/// `r` is the shape of a dyadic pervasive primitive's result: two known values are
/// combined with `eval`; otherwise the shapes are pervaded (failing when lengths
/// differ), and a ranked shape longer than the known leading lengths of an unranked
/// one drops the trailing lengths.
pub open spec fn dyadic_shaped<V, G: FnOnce(KnownValue<V>, KnownValue<V>) -> Result<KnownValue<V>, AnalyzeError>>(
    lhs: ShapeInfo<V>,
    rhs: ShapeInfo<V>,
    eval: G,
    r: Result<ShapeInfo<V>, AnalyzeError>,
) -> bool {
    &&& lhs is Known && rhs is Known ==> match r {
        Ok(ShapeInfo::Known(k)) => call_ensures(eval, (lhs->Known_0, rhs->Known_0), Ok::<KnownValue<V>, AnalyzeError>(k)),
        Ok(_) => false,
        Err(e) => call_ensures(eval, (lhs->Known_0, rhs->Known_0), Err::<KnownValue<V>, AnalyzeError>(e)),
    }
    &&& !(lhs is Known && rhs is Known) ==> {
        let (ls, rs) = (sym(lhs), sym(rhs));
        let p = pervaded(pervade_pair(ls, rs));
        &&& (r is Ok <==> p is Some)
        &&& r is Err ==> r == Err::<ShapeInfo<V>, AnalyzeError>(AnalyzeError::AxisMismatch)
        &&& r is Ok && ls.0 && rs.0 ==> r->Ok_0 is Ranked && sym(r->Ok_0) == (true, p->0, Seq::<Axis>::empty())
        &&& r is Ok && !(ls.0 && rs.0) ==> sym(r->Ok_0) == (false, p->0, if ls.0 {
                if ls.1.len() > rs.1.len() { Seq::<Axis>::empty() } else { rs.2 }
            } else {
                if rs.1.len() > ls.1.len() { Seq::<Axis>::empty() } else { ls.2 }
            })
    }
}

/// The shape of a dyadic pervasive primitive's result.
pub fn dyadic_pervasive<V, G: FnOnce(KnownValue<V>, KnownValue<V>) -> Result<KnownValue<V>, AnalyzeError>>(
    lhs: ShapeInfo<V>,
    rhs: ShapeInfo<V>,
    eval: G,
    reqs: &mut Vec<Condition>,
) -> (r: Result<ShapeInfo<V>, AnalyzeError>)
    requires
        dyadic_ready(lhs, rhs, eval),
    ensures
        dyadic_shaped(lhs, rhs, eval, r),
        final(reqs)@.len() >= old(reqs)@.len(),
        final(reqs)@.take(old(reqs)@.len() as int) == old(reqs)@,
{
    let (l, r) = demote_known(lhs, rhs);
    match (l, r) {
        (ShapeInfo::Known(lk), ShapeInfo::Known(rk)) => match eval(lk, rk) {
            Ok(k) => Ok(ShapeInfo::Known(k)),
            Err(e) => Err(e),
        },
        (ShapeInfo::Ranked(la), ShapeInfo::Ranked(ra)) => {
            let mut shapes: Vec<Vec<Axis>> = Vec::new();
            shapes.push(la);
            shapes.push(ra);
            proof {
                assert(shape_seqs(shapes@) =~= pervade_pair(sym(lhs), sym(rhs)));
            }
            let res = pervade_shapes(shapes, reqs);
            match res {
                Ok(a) => {
                    proof {
                        lemma_pervaded(shape_seqs(shapes@), a@);
                    }
                    Ok(ShapeInfo::Ranked(a))
                },
                Err(e) => Err(e),
            }
        },
        (ShapeInfo::Ranked(sh), ShapeInfo::Unranked { prefix, suffix }) => {
            let mut suffix = suffix;
            if sh.len() > prefix.len() {
                suffix = Vec::new();
            }
            let mut shapes: Vec<Vec<Axis>> = Vec::new();
            shapes.push(sh);
            shapes.push(prefix);
            proof {
                assert(shape_seqs(shapes@) =~= pervade_pair(sym(lhs), sym(rhs)));
            }
            match pervade_shapes(shapes, reqs) {
                Ok(a) => {
                    proof {
                        lemma_pervaded(shape_seqs(shapes@), a@);
                    }
                    Ok(ShapeInfo::Unranked { prefix: a, suffix })
                },
                Err(e) => Err(e),
            }
        },
        (ShapeInfo::Unranked { prefix, suffix }, ShapeInfo::Ranked(sh)) => {
            let mut suffix = suffix;
            if sh.len() > prefix.len() {
                suffix = Vec::new();
            }
            let mut shapes: Vec<Vec<Axis>> = Vec::new();
            shapes.push(sh);
            shapes.push(prefix);
            proof {
                assert(shape_seqs(shapes@) =~= pervade_pair(sym(lhs), sym(rhs)));
            }
            match pervade_shapes(shapes, reqs) {
                Ok(a) => {
                    proof {
                        lemma_pervaded(shape_seqs(shapes@), a@);
                    }
                    Ok(ShapeInfo::Unranked { prefix: a, suffix })
                },
                Err(e) => Err(e),
            }
        },
        _ => {
            proof {
                assert(false);
            }
            Err(AnalyzeError::AxisMismatch)
        },
    }
}

/// The type id of a comparison's result: boxes compared give numbers, complex numbers
/// ordered give complex numbers, and otherwise a box on either side gives boxes.
pub open spec fn spec_compare_typ(l: u8, r: u8, ineq: bool) -> u8 {
    if l == 2 && r == 2 {
        0
    } else if ineq && ((l == 0 && r == 3) || (l == 3 && r == 0) || (l == 3 && r == 3)) {
        3
    } else if l == 2 || r == 2 {
        2
    } else {
        0
    }
}

/// The type id of an arithmetic result, or `None` where the types cannot be combined.
pub open spec fn spec_arith_typ(op: DyadicOp, l: u8, r: u8) -> Option<u8> {
    if op == DyadicOp::Sub {
        if (l == 0 && r == 0) || (l == 1 && r == 1) { Some(0u8) }
        else if l == 0 && r == 1 { Some(1u8) }
        else if l == 2 || r == 2 { Some(2u8) }
        else if (l == 0 && r == 3) || (l == 3 && r == 0) || (l == 3 && r == 3) { Some(3u8) }
        else { None }
    } else {
        if l == 0 && r == 0 { Some(0u8) }
        else if (l == 0 && r == 1) || (l == 1 && r == 0) { Some(1u8) }
        else if l == 2 || r == 2 { Some(2u8) }
        else if (l == 0 && r == 3) || (l == 3 && r == 0) || (l == 3 && r == 3) { Some(3u8) }
        else { None }
    }
}

/// The range of an arithmetic result: sums and products of the two ranges, the
/// right-hand side minus (or divided by) the left-hand side.
pub open spec fn spec_arith_range(op: DyadicOp, l: RangeInfo, r: RangeInfo) -> RangeInfo {
    match op {
        DyadicOp::Add => l.spec_add(r),
        DyadicOp::Sub => r.spec_sub(l),
        DyadicOp::Mul => l.spec_mul(r),
        DyadicOp::Div => r.spec_div(l),
    }
}

/// The two arguments can be combined pervasively.
pub open spec fn dyadic_args_ready<V, G: FnOnce(KnownValue<V>, KnownValue<V>) -> Result<KnownValue<V>, AnalyzeError>>(
    dep_infos: Seq<ValInfo<V>>,
    eval: G,
) -> bool {
    dep_infos.len() == 2 ==> dyadic_ready(dep_infos[0].shape, dep_infos[1].shape, eval)
}

/// One value of type id `typ` and range `range`, shaped by `dyadic_shaped`.
pub open spec fn dyadic_out<V, G: FnOnce(KnownValue<V>, KnownValue<V>) -> Result<KnownValue<V>, AnalyzeError>>(
    dep_infos: Seq<ValInfo<V>>,
    eval: G,
    typ: u8,
    range: RangeInfo,
    r: Result<NodeInfo<V>, AnalyzeError>,
) -> bool {
    match r {
        Ok(n) => n.vals@.len() == 1 && n.subfunc_idxs@.len() == 0 && n.vals@[0].typ == typ
            && n.vals@[0].range == range
            && dyadic_shaped(dep_infos[0].shape, dep_infos[1].shape, eval, Ok::<ShapeInfo<V>, AnalyzeError>(n.vals@[0].shape)),
        Err(e) => dyadic_shaped(dep_infos[0].shape, dep_infos[1].shape, eval, Err::<ShapeInfo<V>, AnalyzeError>(e)),
    }
}

/// The type id of a comparison's result is that of numbers (0) unless boxes or complex
/// numbers are involved: it is that of boxes (2) exactly when one side is a box and the
/// other is not, that of complex numbers (3) only for an ordering comparison of numbers
/// and complex numbers with at least one complex side, and numbers otherwise. In
/// particular two character arrays compare to numbers.
pub proof fn lemma_compare_typ(l: u8, r: u8, ineq: bool)
    ensures
        spec_compare_typ(l, r, ineq) == 0 || spec_compare_typ(l, r, ineq) == 2 || spec_compare_typ(l, r, ineq) == 3,
        spec_compare_typ(l, r, ineq) == 2 <==> (l == 2) != (r == 2),
        spec_compare_typ(l, r, ineq) == 3 <==> ineq && (l == 0 || l == 3) && (r == 0 || r == 3) && (l == 3 || r == 3),
        l != 2 && r != 2 && l != 3 && r != 3 ==> spec_compare_typ(l, r, ineq) == 0,
        !ineq && !(l == 2 && r != 2) && !(r == 2 && l != 2) ==> spec_compare_typ(l, r, ineq) == 0,
{
}

/// A pervasive comparison: its result is boolean, shaped like the pervaded arguments.
fn compare<V, G: FnOnce(KnownValue<V>, KnownValue<V>) -> Result<KnownValue<V>, AnalyzeError>>(
    dep_infos: Vec<ValInfo<V>>,
    eval: G,
    ineq: bool,
    reqs: &mut Vec<Condition>,
) -> (r: Result<NodeInfo<V>, AnalyzeError>)
    requires
        dyadic_args_ready(dep_infos@, eval),
    ensures
        dep_infos@.len() != 2 ==> r == Err::<NodeInfo<V>, AnalyzeError>(AnalyzeError::IncorrectArgCount),
        dep_infos@.len() == 2 ==> dyadic_out(dep_infos@, eval,
            spec_compare_typ(dep_infos@[0].typ, dep_infos@[1].typ, ineq), RangeInfo::spec_new(1, false, false), r),
        final(reqs)@.len() >= old(reqs)@.len(),
        final(reqs)@.take(old(reqs)@.len() as int) == old(reqs)@,
{
    let (lhs, rhs) = two_args(dep_infos)?;
    let (l, rr) = (lhs.typ, rhs.typ);
    let typ: u8 = if l == 2 && rr == 2 {
        0
    } else if ineq && ((l == 0 && rr == 3) || (l == 3 && rr == 0) || (l == 3 && rr == 3)) {
        3
    } else if l == 2 || rr == 2 {
        2
    } else {
        0
    };
    let shape = dyadic_pervasive(lhs.shape, rhs.shape, eval, reqs)?;
    Ok(NodeInfo::one_val(ValInfo::new(typ, shape, RangeInfo::bool())))
}

/// A pervasive arithmetic primitive: the types must combine; the range follows the
/// operation, and the shape is that of the pervaded arguments.
fn arith<V, G: FnOnce(KnownValue<V>, KnownValue<V>) -> Result<KnownValue<V>, AnalyzeError>>(
    op: DyadicOp,
    dep_infos: Vec<ValInfo<V>>,
    eval: G,
    reqs: &mut Vec<Condition>,
) -> (r: Result<NodeInfo<V>, AnalyzeError>)
    requires
        dyadic_args_ready(dep_infos@, eval),
        dep_infos@.len() == 2 ==> dep_infos@[0].typ < 4 && dep_infos@[1].typ < 4,
    ensures
        dep_infos@.len() != 2 ==> r == Err::<NodeInfo<V>, AnalyzeError>(AnalyzeError::IncorrectArgCount),
        dep_infos@.len() == 2 && spec_arith_typ(op, dep_infos@[0].typ, dep_infos@[1].typ) is None
            ==> r == Err::<NodeInfo<V>, AnalyzeError>(AnalyzeError::CannotCombine(op, dep_infos@[0].typ, dep_infos@[1].typ)),
        dep_infos@.len() == 2 && spec_arith_typ(op, dep_infos@[0].typ, dep_infos@[1].typ) is Some
            ==> dyadic_out(dep_infos@, eval, spec_arith_typ(op, dep_infos@[0].typ, dep_infos@[1].typ)->0,
                spec_arith_range(op, dep_infos@[0].range, dep_infos@[1].range), r),
        final(reqs)@.len() >= old(reqs)@.len(),
        final(reqs)@.take(old(reqs)@.len() as int) == old(reqs)@,
{
    let (lhs, rhs) = two_args(dep_infos)?;
    let (l, rr) = (lhs.typ, rhs.typ);
    let is_sub = match op {
        DyadicOp::Sub => true,
        _ => false,
    };
    let typ: u8 = if is_sub {
        if (l == 0 && rr == 0) || (l == 1 && rr == 1) { 0 }
        else if l == 0 && rr == 1 { 1 }
        else if l == 2 || rr == 2 { 2 }
        else if (l == 0 && rr == 3) || (l == 3 && rr == 0) || (l == 3 && rr == 3) { 3 }
        else { return Err(AnalyzeError::CannotCombine(op, l, rr)); }
    } else {
        if l == 0 && rr == 0 { 0 }
        else if (l == 0 && rr == 1) || (l == 1 && rr == 0) { 1 }
        else if l == 2 || rr == 2 { 2 }
        else if (l == 0 && rr == 3) || (l == 3 && rr == 0) || (l == 3 && rr == 3) { 3 }
        else { return Err(AnalyzeError::CannotCombine(op, l, rr)); }
    };
    let (lr, rrange) = (lhs.range, rhs.range);
    let shape = dyadic_pervasive(lhs.shape, rhs.shape, eval, reqs)?;
    let range = match op {
        DyadicOp::Add => lr + rrange,
        DyadicOp::Sub => rrange - lr,
        DyadicOp::Mul => lr * rrange,
        DyadicOp::Div => rrange / lr,
    };
    Ok(NodeInfo::one_val(ValInfo::new(typ, shape, range)))
}

/// Equality, elementwise: a boolean result shaped like the pervaded arguments.
pub fn eq<V, G: FnOnce(KnownValue<V>, KnownValue<V>) -> Result<KnownValue<V>, AnalyzeError>>(
    dep_infos: Vec<ValInfo<V>>,
    eval: G,
    reqs: &mut Vec<Condition>,
) -> (r: Result<NodeInfo<V>, AnalyzeError>)
    requires
        dyadic_args_ready(dep_infos@, eval),
    ensures
        dep_infos@.len() != 2 ==> r == Err::<NodeInfo<V>, AnalyzeError>(AnalyzeError::IncorrectArgCount),
        dep_infos@.len() == 2 ==> dyadic_out(dep_infos@, eval,
            spec_compare_typ(dep_infos@[0].typ, dep_infos@[1].typ, false), RangeInfo::spec_new(1, false, false), r),
        final(reqs)@.len() >= old(reqs)@.len(),
        final(reqs)@.take(old(reqs)@.len() as int) == old(reqs)@,
{
    compare(dep_infos, eval, false, reqs)
}

/// Inequality, elementwise: a boolean result shaped like the pervaded arguments.
pub fn ne<V, G: FnOnce(KnownValue<V>, KnownValue<V>) -> Result<KnownValue<V>, AnalyzeError>>(
    dep_infos: Vec<ValInfo<V>>,
    eval: G,
    reqs: &mut Vec<Condition>,
) -> (r: Result<NodeInfo<V>, AnalyzeError>)
    requires
        dyadic_args_ready(dep_infos@, eval),
    ensures
        dep_infos@.len() != 2 ==> r == Err::<NodeInfo<V>, AnalyzeError>(AnalyzeError::IncorrectArgCount),
        dep_infos@.len() == 2 ==> dyadic_out(dep_infos@, eval,
            spec_compare_typ(dep_infos@[0].typ, dep_infos@[1].typ, false), RangeInfo::spec_new(1, false, false), r),
        final(reqs)@.len() >= old(reqs)@.len(),
        final(reqs)@.take(old(reqs)@.len() as int) == old(reqs)@,
{
    compare(dep_infos, eval, false, reqs)
}

/// Less than, elementwise: a boolean result shaped like the pervaded arguments.
pub fn lt<V, G: FnOnce(KnownValue<V>, KnownValue<V>) -> Result<KnownValue<V>, AnalyzeError>>(
    dep_infos: Vec<ValInfo<V>>,
    eval: G,
    reqs: &mut Vec<Condition>,
) -> (r: Result<NodeInfo<V>, AnalyzeError>)
    requires
        dyadic_args_ready(dep_infos@, eval),
    ensures
        dep_infos@.len() != 2 ==> r == Err::<NodeInfo<V>, AnalyzeError>(AnalyzeError::IncorrectArgCount),
        dep_infos@.len() == 2 ==> dyadic_out(dep_infos@, eval,
            spec_compare_typ(dep_infos@[0].typ, dep_infos@[1].typ, true), RangeInfo::spec_new(1, false, false), r),
        final(reqs)@.len() >= old(reqs)@.len(),
        final(reqs)@.take(old(reqs)@.len() as int) == old(reqs)@,
{
    compare(dep_infos, eval, true, reqs)
}

/// Less or equal, elementwise: a boolean result shaped like the pervaded arguments.
pub fn le<V, G: FnOnce(KnownValue<V>, KnownValue<V>) -> Result<KnownValue<V>, AnalyzeError>>(
    dep_infos: Vec<ValInfo<V>>,
    eval: G,
    reqs: &mut Vec<Condition>,
) -> (r: Result<NodeInfo<V>, AnalyzeError>)
    requires
        dyadic_args_ready(dep_infos@, eval),
    ensures
        dep_infos@.len() != 2 ==> r == Err::<NodeInfo<V>, AnalyzeError>(AnalyzeError::IncorrectArgCount),
        dep_infos@.len() == 2 ==> dyadic_out(dep_infos@, eval,
            spec_compare_typ(dep_infos@[0].typ, dep_infos@[1].typ, true), RangeInfo::spec_new(1, false, false), r),
        final(reqs)@.len() >= old(reqs)@.len(),
        final(reqs)@.take(old(reqs)@.len() as int) == old(reqs)@,
{
    compare(dep_infos, eval, true, reqs)
}

/// Greater than, elementwise: a boolean result shaped like the pervaded arguments.
pub fn gt<V, G: FnOnce(KnownValue<V>, KnownValue<V>) -> Result<KnownValue<V>, AnalyzeError>>(
    dep_infos: Vec<ValInfo<V>>,
    eval: G,
    reqs: &mut Vec<Condition>,
) -> (r: Result<NodeInfo<V>, AnalyzeError>)
    requires
        dyadic_args_ready(dep_infos@, eval),
    ensures
        dep_infos@.len() != 2 ==> r == Err::<NodeInfo<V>, AnalyzeError>(AnalyzeError::IncorrectArgCount),
        dep_infos@.len() == 2 ==> dyadic_out(dep_infos@, eval,
            spec_compare_typ(dep_infos@[0].typ, dep_infos@[1].typ, true), RangeInfo::spec_new(1, false, false), r),
        final(reqs)@.len() >= old(reqs)@.len(),
        final(reqs)@.take(old(reqs)@.len() as int) == old(reqs)@,
{
    compare(dep_infos, eval, true, reqs)
}

/// Greater or equal, elementwise: a boolean result shaped like the pervaded arguments.
pub fn ge<V, G: FnOnce(KnownValue<V>, KnownValue<V>) -> Result<KnownValue<V>, AnalyzeError>>(
    dep_infos: Vec<ValInfo<V>>,
    eval: G,
    reqs: &mut Vec<Condition>,
) -> (r: Result<NodeInfo<V>, AnalyzeError>)
    requires
        dyadic_args_ready(dep_infos@, eval),
    ensures
        dep_infos@.len() != 2 ==> r == Err::<NodeInfo<V>, AnalyzeError>(AnalyzeError::IncorrectArgCount),
        dep_infos@.len() == 2 ==> dyadic_out(dep_infos@, eval,
            spec_compare_typ(dep_infos@[0].typ, dep_infos@[1].typ, true), RangeInfo::spec_new(1, false, false), r),
        final(reqs)@.len() >= old(reqs)@.len(),
        final(reqs)@.take(old(reqs)@.len() as int) == old(reqs)@,
{
    compare(dep_infos, eval, true, reqs)
}

/// Addition, elementwise.
pub fn add<V, G: FnOnce(KnownValue<V>, KnownValue<V>) -> Result<KnownValue<V>, AnalyzeError>>(
    dep_infos: Vec<ValInfo<V>>,
    eval: G,
    reqs: &mut Vec<Condition>,
) -> (r: Result<NodeInfo<V>, AnalyzeError>)
    requires
        dyadic_args_ready(dep_infos@, eval),
        dep_infos@.len() == 2 ==> dep_infos@[0].typ < 4 && dep_infos@[1].typ < 4,
    ensures
        dep_infos@.len() != 2 ==> r == Err::<NodeInfo<V>, AnalyzeError>(AnalyzeError::IncorrectArgCount),
        dep_infos@.len() == 2 && spec_arith_typ(DyadicOp::Add, dep_infos@[0].typ, dep_infos@[1].typ) is None
            ==> r == Err::<NodeInfo<V>, AnalyzeError>(AnalyzeError::CannotCombine(DyadicOp::Add, dep_infos@[0].typ, dep_infos@[1].typ)),
        dep_infos@.len() == 2 && spec_arith_typ(DyadicOp::Add, dep_infos@[0].typ, dep_infos@[1].typ) is Some
            ==> dyadic_out(dep_infos@, eval, spec_arith_typ(DyadicOp::Add, dep_infos@[0].typ, dep_infos@[1].typ)->0,
                spec_arith_range(DyadicOp::Add, dep_infos@[0].range, dep_infos@[1].range), r),
        final(reqs)@.len() >= old(reqs)@.len(),
        final(reqs)@.take(old(reqs)@.len() as int) == old(reqs)@,
{
    arith(DyadicOp::Add, dep_infos, eval, reqs)
}

/// Subtraction (the right-hand argument minus the left-hand one), elementwise.
pub fn sub<V, G: FnOnce(KnownValue<V>, KnownValue<V>) -> Result<KnownValue<V>, AnalyzeError>>(
    dep_infos: Vec<ValInfo<V>>,
    eval: G,
    reqs: &mut Vec<Condition>,
) -> (r: Result<NodeInfo<V>, AnalyzeError>)
    requires
        dyadic_args_ready(dep_infos@, eval),
        dep_infos@.len() == 2 ==> dep_infos@[0].typ < 4 && dep_infos@[1].typ < 4,
    ensures
        dep_infos@.len() != 2 ==> r == Err::<NodeInfo<V>, AnalyzeError>(AnalyzeError::IncorrectArgCount),
        dep_infos@.len() == 2 && spec_arith_typ(DyadicOp::Sub, dep_infos@[0].typ, dep_infos@[1].typ) is None
            ==> r == Err::<NodeInfo<V>, AnalyzeError>(AnalyzeError::CannotCombine(DyadicOp::Sub, dep_infos@[0].typ, dep_infos@[1].typ)),
        dep_infos@.len() == 2 && spec_arith_typ(DyadicOp::Sub, dep_infos@[0].typ, dep_infos@[1].typ) is Some
            ==> dyadic_out(dep_infos@, eval, spec_arith_typ(DyadicOp::Sub, dep_infos@[0].typ, dep_infos@[1].typ)->0,
                spec_arith_range(DyadicOp::Sub, dep_infos@[0].range, dep_infos@[1].range), r),
        final(reqs)@.len() >= old(reqs)@.len(),
        final(reqs)@.take(old(reqs)@.len() as int) == old(reqs)@,
{
    arith(DyadicOp::Sub, dep_infos, eval, reqs)
}

/// Multiplication, elementwise.
pub fn mul<V, G: FnOnce(KnownValue<V>, KnownValue<V>) -> Result<KnownValue<V>, AnalyzeError>>(
    dep_infos: Vec<ValInfo<V>>,
    eval: G,
    reqs: &mut Vec<Condition>,
) -> (r: Result<NodeInfo<V>, AnalyzeError>)
    requires
        dyadic_args_ready(dep_infos@, eval),
        dep_infos@.len() == 2 ==> dep_infos@[0].typ < 4 && dep_infos@[1].typ < 4,
    ensures
        dep_infos@.len() != 2 ==> r == Err::<NodeInfo<V>, AnalyzeError>(AnalyzeError::IncorrectArgCount),
        dep_infos@.len() == 2 && spec_arith_typ(DyadicOp::Mul, dep_infos@[0].typ, dep_infos@[1].typ) is None
            ==> r == Err::<NodeInfo<V>, AnalyzeError>(AnalyzeError::CannotCombine(DyadicOp::Mul, dep_infos@[0].typ, dep_infos@[1].typ)),
        dep_infos@.len() == 2 && spec_arith_typ(DyadicOp::Mul, dep_infos@[0].typ, dep_infos@[1].typ) is Some
            ==> dyadic_out(dep_infos@, eval, spec_arith_typ(DyadicOp::Mul, dep_infos@[0].typ, dep_infos@[1].typ)->0,
                spec_arith_range(DyadicOp::Mul, dep_infos@[0].range, dep_infos@[1].range), r),
        final(reqs)@.len() >= old(reqs)@.len(),
        final(reqs)@.take(old(reqs)@.len() as int) == old(reqs)@,
{
    arith(DyadicOp::Mul, dep_infos, eval, reqs)
}

/// Division (the right-hand argument by the left-hand one), elementwise.
pub fn div<V, G: FnOnce(KnownValue<V>, KnownValue<V>) -> Result<KnownValue<V>, AnalyzeError>>(
    dep_infos: Vec<ValInfo<V>>,
    eval: G,
    reqs: &mut Vec<Condition>,
) -> (r: Result<NodeInfo<V>, AnalyzeError>)
    requires
        dyadic_args_ready(dep_infos@, eval),
        dep_infos@.len() == 2 ==> dep_infos@[0].typ < 4 && dep_infos@[1].typ < 4,
    ensures
        dep_infos@.len() != 2 ==> r == Err::<NodeInfo<V>, AnalyzeError>(AnalyzeError::IncorrectArgCount),
        dep_infos@.len() == 2 && spec_arith_typ(DyadicOp::Div, dep_infos@[0].typ, dep_infos@[1].typ) is None
            ==> r == Err::<NodeInfo<V>, AnalyzeError>(AnalyzeError::CannotCombine(DyadicOp::Div, dep_infos@[0].typ, dep_infos@[1].typ)),
        dep_infos@.len() == 2 && spec_arith_typ(DyadicOp::Div, dep_infos@[0].typ, dep_infos@[1].typ) is Some
            ==> dyadic_out(dep_infos@, eval, spec_arith_typ(DyadicOp::Div, dep_infos@[0].typ, dep_infos@[1].typ)->0,
                spec_arith_range(DyadicOp::Div, dep_infos@[0].range, dep_infos@[1].range), r),
        final(reqs)@.len() >= old(reqs)@.len(),
        final(reqs)@.take(old(reqs)@.len() as int) == old(reqs)@,
{
    arith(DyadicOp::Div, dep_infos, eval, reqs)
}

} // verus!
