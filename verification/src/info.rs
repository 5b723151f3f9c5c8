//! Statically inferred information about the values flowing through a program.
//!
//! A value whose contents are known ahead of time is carried as `V`, together with
//! its shape; the library never looks inside `V`.

use vstd::prelude::*;
use std::collections::HashMap;
use crate::axis::{Axis, SubstError, subst_env};
use crate::range::RangeInfo;

verus! {

/// A value known ahead of time, with its shape.
pub struct KnownValue<V> {
    pub value: V,
    pub shape: Vec<usize>,
}

/// Statically inferred shape information.
pub enum ShapeInfo<V> {
    /// The exact value is known ahead of time.
    Known(KnownValue<V>),
    /// The rank is known ahead of time; one symbolic length per axis.
    Ranked(Vec<Axis>),
    /// The rank is not known; some leading and some trailing axis lengths are.
    Unranked { prefix: Vec<Axis>, suffix: Vec<Axis> },
}

/// Statically inferred information about one value: its type id (0 number,
/// 1 character, 2 box, 3 complex), its shape and the range of its elements.
pub struct ValInfo<V> {
    pub typ: u8,
    pub shape: ShapeInfo<V>,
    pub range: RangeInfo,
}

/// Statically inferred information about one node of a program: one entry per
/// value it outputs, and the indices of the sub-functions analyzed for it.
pub struct NodeInfo<V> {
    pub vals: Vec<ValInfo<V>>,
    pub subfunc_idxs: Vec<usize>,
}

/// Every axis of the symbolic shape is well formed.
pub open spec fn axes_wf(s: Seq<Axis>) -> bool {
    forall|i: int| 0 <= i < s.len() ==> #[trigger] s[i].wf()
}

/// `a` is a copy of `b`: the same polynomial, stored the same way.
pub open spec fn copy_of(a: Axis, b: Axis) -> bool {
    &&& a.poly() == b.poly()
    &&& (a is Const) == (b is Const)
    &&& a.wf() == b.wf()
    &&& a.keys() == b.keys()
}

/// The constant axis length of a concrete length (as `usize as isize` converts it).
pub open spec fn const_axis(n: usize) -> Axis {
    Axis::Const(n as isize)
}

/// The largest number of variables used by any axis.
pub open spec fn axes_nvars(s: Seq<Axis>) -> nat
    decreases s.len(),
{
    if s.len() == 0 {
        0
    } else {
        let m = axes_nvars(s.drop_last());
        if s.last().spec_to_nvars() > m { s.last().spec_to_nvars() } else { m }
    }
}

impl<V> ShapeInfo<V> {
    pub open spec fn wf(self) -> bool {
        match self {
            ShapeInfo::Known(_) => true,
            ShapeInfo::Ranked(s) => axes_wf(s@),
            ShapeInfo::Unranked { prefix, suffix } => axes_wf(prefix@) && axes_wf(suffix@),
        }
    }

    pub open spec fn spec_rank(self) -> Option<nat> {
        match self {
            ShapeInfo::Known(k) => Some(k.shape@.len()),
            ShapeInfo::Ranked(s) => Some(s@.len()),
            ShapeInfo::Unranked { .. } => None,
        }
    }

    pub open spec fn spec_to_nvars(self) -> nat {
        match self {
            ShapeInfo::Known(_) => 0,
            ShapeInfo::Ranked(s) => axes_nvars(s@),
            ShapeInfo::Unranked { prefix, suffix } => {
                let (p, q) = (axes_nvars(prefix@), axes_nvars(suffix@));
                if p >= q { p } else { q }
            },
        }
    }

    /// The shape of a scalar.
    pub fn scalar() -> (r: Self)
        ensures
            r matches ShapeInfo::Ranked(s) && s@.len() == 0,
    {
        ShapeInfo::Ranked(Vec::new())
    }

    /// Returns the rank if it is known.
    pub fn rank(&self) -> (r: Option<usize>)
        ensures
            r is Some <==> self.spec_rank() is Some,
            r is Some ==> r->0 == self.spec_rank()->0,
    {
        match self {
            ShapeInfo::Known(k) => Some(k.shape.len()),
            ShapeInfo::Ranked(s) => Some(s.len()),
            ShapeInfo::Unranked { .. } => None,
        }
    }

    /// Returns `Some(Some(length))` if the rank is at least 1, `Some(None)` if the value
    /// is known to be a scalar, and `None` if whether it is a scalar is unknown.
    pub fn len(&self) -> (r: Option<Option<Axis>>)
        ensures
            match self {
                ShapeInfo::Known(k) => r == Some(if k.shape@.len() == 0 { None::<Axis> } else {
                    Some(const_axis(k.shape@[0]))
                }),
                ShapeInfo::Ranked(s) => r is Some && (s@.len() == 0 ==> r->0 is None)
                    && (s@.len() > 0 ==> r->0 is Some && copy_of(r->0->0, s@[0])),
                ShapeInfo::Unranked { prefix, .. } => (prefix@.len() == 0 ==> r is None)
                    && (prefix@.len() > 0 ==> r is Some && r->0 is Some && copy_of(r->0->0, prefix@[0])),
            },
    {
        match self {
            ShapeInfo::Known(k) => {
                if k.shape.len() == 0 {
                    Some(None)
                } else {
                    Some(Some(Axis::from(k.shape[0])))
                }
            },
            ShapeInfo::Ranked(s) => {
                if s.len() == 0 {
                    Some(None)
                } else {
                    Some(Some(s[0].clone()))
                }
            },
            ShapeInfo::Unranked { prefix, .. } => {
                if prefix.len() == 0 {
                    None
                } else {
                    Some(Some(prefix[0].clone()))
                }
            },
        }
    }

    /// The number of variable ids the symbolic lengths use.
    pub fn to_nvars(&self) -> (r: usize)
        ensures
            r == self.spec_to_nvars(),
    {
        match self {
            ShapeInfo::Known(_) => 0,
            ShapeInfo::Ranked(s) => axes_to_nvars(s.as_slice()),
            ShapeInfo::Unranked { prefix, suffix } => {
                let p = axes_to_nvars(prefix.as_slice());
                let q = axes_to_nvars(suffix.as_slice());
                if p >= q { p } else { q }
            },
        }
    }
}

/// The largest number of variables used by the axes.
fn axes_to_nvars(a: &[Axis]) -> (r: usize)
    ensures
        r == axes_nvars(a@),
{
    let mut m: usize = 0;
    let mut i: usize = 0;
    while i < a.len()
        invariant
            i <= a@.len(),
            m == axes_nvars(a@.take(i as int)),
        decreases a@.len() - i,
    {
        proof {
            assert(a@.take(i + 1).drop_last() =~= a@.take(i as int));
        }
        let n = a[i].to_nvars();
        if n > m {
            m = n;
        }
        i += 1;
    }
    proof {
        assert(a@.take(a@.len() as int) =~= a@);
    }
    m
}

/// Every axis can be substituted into.
pub open spec fn axes_subst_req(s: Seq<Axis>, substs: Map<usize, Axis>) -> bool {
    forall|i: int| 0 <= i < s.len() ==> (#[trigger] s[i]).subst_req(substs)
}

/// Some axis uses a variable without a replacement.
pub open spec fn axes_missing_var(s: Seq<Axis>, substs: Map<usize, Axis>) -> bool {
    exists|i: int| 0 <= i < s.len() && (#[trigger] s[i]).missing_var(substs)
}

/// `new` is `old` with the replacements substituted into each axis.
pub open spec fn axes_substituted(old: Seq<Axis>, new: Seq<Axis>, substs: Map<usize, Axis>) -> bool {
    &&& new.len() == old.len()
    &&& axes_wf(new)
    &&& forall|env: spec_fn(nat) -> int, i: int| 0 <= i < new.len()
        ==> #[trigger] new[i].eval(env) == old[i].eval(subst_env(substs, env))
}

/// Substitute into every axis, failing at the first one without the replacements it needs.
fn subst_axes(axes: &Vec<Axis>, substs: &HashMap<usize, Axis>) -> (r: Result<Vec<Axis>, SubstError>)
    requires
        axes_subst_req(axes@, substs@),
    ensures
        r is Err <==> axes_missing_var(axes@, substs@),
        r is Ok ==> axes_substituted(axes@, r->Ok_0@, substs@),
{
    let mut out: Vec<Axis> = Vec::new();
    let mut i: usize = 0;
    while i < axes.len()
        invariant
            i <= axes@.len(),
            axes_subst_req(axes@, substs@),
            out@.len() == i,
            axes_wf(out@),
            forall|q: int| 0 <= q < i ==> !(#[trigger] axes@[q]).missing_var(substs@),
            forall|env: spec_fn(nat) -> int, q: int| 0 <= q < i
                ==> #[trigger] out@[q].eval(env) == axes@[q].eval(subst_env(substs@, env)),
        decreases axes@.len() - i,
    {
        proof {
            assert(axes@[i as int].subst_req(substs@));
        }
        match axes[i].substitute(substs) {
            Ok(a) => {
                out.push(a);
            },
            Err(e) => {
                return Err(e);
            },
        }
        i += 1;
    }
    Ok(out)
}

impl<V: Clone> ShapeInfo<V> {
    /// Every symbolic length can be substituted into.
    pub open spec fn subst_req(self, substs: Map<usize, Axis>) -> bool {
        match self {
            ShapeInfo::Known(_) => true,
            ShapeInfo::Ranked(s) => axes_subst_req(s@, substs),
            ShapeInfo::Unranked { prefix, suffix } => axes_subst_req(prefix@, substs)
                && axes_subst_req(suffix@, substs),
        }
    }

    /// Some symbolic length uses a variable without a replacement.
    pub open spec fn missing_var(self, substs: Map<usize, Axis>) -> bool {
        match self {
            ShapeInfo::Known(_) => false,
            ShapeInfo::Ranked(s) => axes_missing_var(s@, substs),
            ShapeInfo::Unranked { prefix, suffix } => axes_missing_var(prefix@, substs)
                || axes_missing_var(suffix@, substs),
        }
    }

    /// `r` is `self` with the replacements substituted into every symbolic length.
    pub open spec fn substituted(self, r: Self, substs: Map<usize, Axis>) -> bool {
        match (self, r) {
            (ShapeInfo::Known(k), ShapeInfo::Known(k2)) => k2.shape@ == k.shape@
                && cloned(k.value, k2.value),
            (ShapeInfo::Ranked(s), ShapeInfo::Ranked(s2)) => axes_substituted(s@, s2@, substs),
            (ShapeInfo::Unranked { prefix, suffix }, ShapeInfo::Unranked { prefix: p2, suffix: s2 }) =>
                axes_substituted(prefix@, p2@, substs) && axes_substituted(suffix@, s2@, substs),
            _ => false,
        }
    }

    /// Substitute the replacements into every symbolic length; fails if some length
    /// uses a variable without a replacement.
    pub fn substitute(&self, substs: &HashMap<usize, Axis>) -> (r: Result<Self, SubstError>)
        requires
            self.subst_req(substs@),
        ensures
            r is Err <==> self.missing_var(substs@),
            r is Ok ==> self.substituted(r->Ok_0, substs@),
    {
        match self {
            ShapeInfo::Known(k) => Ok(ShapeInfo::Known(KnownValue { value: k.value.clone(), shape: k.shape.clone() })),
            ShapeInfo::Ranked(s) => match subst_axes(s, substs) {
                Ok(s2) => Ok(ShapeInfo::Ranked(s2)),
                Err(e) => Err(e),
            },
            ShapeInfo::Unranked { prefix, suffix } => {
                let p2 = match subst_axes(prefix, substs) {
                    Ok(p2) => p2,
                    Err(e) => { return Err(e); },
                };
                match subst_axes(suffix, substs) {
                    Ok(s2) => Ok(ShapeInfo::Unranked { prefix: p2, suffix: s2 }),
                    Err(e) => Err(e),
                }
            },
        }
    }
}

impl<V> ValInfo<V> {
    pub fn new(typ: u8, shape: ShapeInfo<V>, range: RangeInfo) -> (r: Self)
        ensures
            r == (ValInfo { typ, shape, range }),
    {
        ValInfo { typ, shape, range }
    }
}

impl<V> NodeInfo<V> {
    pub fn one_val(val_info: ValInfo<V>) -> (r: Self)
        ensures
            r.vals@ == seq![val_info],
            r.subfunc_idxs@.len() == 0,
    {
        let mut vals: Vec<ValInfo<V>> = Vec::new();
        vals.push(val_info);
        proof {
            assert(vals@ =~= seq![val_info]);
        }
        NodeInfo { vals, subfunc_idxs: Vec::new() }
    }

    pub fn many_vals(val_infos: Vec<ValInfo<V>>) -> (r: Self)
        ensures
            r.vals@ == val_infos@,
            r.subfunc_idxs@.len() == 0,
    {
        NodeInfo { vals: val_infos, subfunc_idxs: Vec::new() }
    }

    /// All the values, or the first error among them.
    pub fn try_many_vals<E>(val_infos: Vec<Result<ValInfo<V>, E>>) -> (r: Result<Self, E>)
        ensures
            r is Ok <==> forall|i: int| 0 <= i < val_infos@.len() ==> (#[trigger] val_infos@[i]) is Ok,
            r is Ok ==> r->Ok_0.subfunc_idxs@.len() == 0 && r->Ok_0.vals@.len() == val_infos@.len()
                && forall|i: int| 0 <= i < val_infos@.len() ==> r->Ok_0.vals@[i] == (#[trigger] val_infos@[i])->Ok_0,
            r is Err ==> exists|i: int| 0 <= i < val_infos@.len() && val_infos@[i] == Err::<ValInfo<V>, E>(r->Err_0)
                && forall|j: int| 0 <= j < i ==> (#[trigger] val_infos@[j]) is Ok,
    {
        let mut vals: Vec<ValInfo<V>> = Vec::new();
        let mut rest = val_infos;
        let ghost all = rest@;
        while rest.len() > 0
            invariant
                all == val_infos@,
                vals@.len() + rest@.len() == all.len(),
                rest@ == all.subrange(vals@.len() as int, all.len() as int),
                forall|i: int| 0 <= i < vals@.len() ==> all[i] is Ok && vals@[i] == (#[trigger] all[i])->Ok_0,
            decreases rest@.len(),
        {
            let ghost k: int = vals@.len() as int;
            let item = rest.remove(0);
            proof {
                assert(item == all[k]);
                assert(rest@ =~= all.subrange(k + 1int, all.len() as int));
            }
            match item {
                Ok(v) => {
                    vals.push(v);
                },
                Err(e) => {
                    proof {
                        assert(all[k] == Err::<ValInfo<V>, E>(e));
                        assert(forall|j: int| 0 <= j < k ==> (#[trigger] all[j]) is Ok);
                    }
                    return Err(e);
                },
            }
        }
        Ok(NodeInfo { vals, subfunc_idxs: Vec::new() })
    }

    pub fn no_vals() -> (r: Self)
        ensures
            r.vals@.len() == 0,
            r.subfunc_idxs@.len() == 0,
    {
        NodeInfo { vals: Vec::new(), subfunc_idxs: Vec::new() }
    }

    /// Record that sub-function `i` was analyzed for this node.
    pub fn func(self, i: usize) -> (r: Self)
        ensures
            r.vals@ == self.vals@,
            r.subfunc_idxs@ == self.subfunc_idxs@.push(i),
    {
        let mut n = self;
        n.subfunc_idxs.push(i);
        n
    }
}

} // verus!
