//! Preparing an analyzed data graph for compilation: each node gets the machine types
//! of its values, arithmetic arguments are cast to a common type, and a few
//! operations are rewritten into forms the code generator handles.

use vstd::prelude::*;
use crate::array_rules::{axes_copy, clone_axes};
use crate::comp_type::{fold_supertype, Cast, CompType, Impl};
use crate::graph::{Data, DataGraph, Edge};
use crate::info::{KnownValue, NodeInfo, ShapeInfo, ValInfo};

verus! {

/// What preparation needs to know of an operation of the program.
#[derive(Clone, Copy, Debug, PartialEq, Eq, Structural)]
pub enum PrimKind {
    Add,
    Sub,
    Mul,
    Div,
    Not,
    Neg,
    Reciprocal,
    Sqrt,
    Exp,
    Sin,
    Eq,
    Ne,
    Lt,
    Le,
    Gt,
    Ge,
    Reduce,
    Other,
}

/// The operation of a node of a prepared graph: a node of the data graph, a primitive
/// introduced by a rewrite, or a custom operation; each of the latter two carries the
/// program operation whose source position it takes.
#[derive(Clone, Copy, Debug, PartialEq, Eq, Structural)]
pub enum Op {
    Data(Data),
    Prim(PrimKind, usize),
    Impl(Impl, usize),
}

impl Op {
    /// The source position of the operation, from the position of each program
    /// operation: that of its program operation for a node of the data graph or a custom
    /// operation; none for an argument or for a primitive introduced by a rewrite.
    pub fn _span(&self, spans: &Vec<Option<usize>>) -> (r: Option<usize>)
        ensures
            r == match *self {
                Op::Data(Data::Node(id)) | Op::Impl(_, id) => if id < spans@.len() { spans@[id as int] } else { None },
                _ => None,
            },
    {
        match self {
            Op::Data(Data::Node(id)) | Op::Impl(_, id) => if *id < spans.len() { spans[*id] } else { None },
            _ => None,
        }
    }
}

/// A node of a prepared graph: its operation, what is known of its values, and their
/// machine types.
pub struct CompNode<V> {
    pub op: Op,
    pub info: NodeInfo<V>,
    pub types: Vec<CompType>,
}

/// A prepared graph: nodes (those not `alive` were removed by a rewrite), edges from a
/// node to the nodes whose outputs it takes, and the values left on the stack.
pub struct PreCompileGraph<V> {
    pub nodes: Vec<CompNode<V>>,
    pub alive: Vec<bool>,
    pub edges: Vec<Edge>,
    pub stack: Vec<(usize, usize)>,
}

/// `b` is a copy of the shape `a`.
pub open spec fn shape_copied<V: Clone>(a: ShapeInfo<V>, b: ShapeInfo<V>) -> bool {
    match (a, b) {
        (ShapeInfo::Known(k), ShapeInfo::Known(k2)) => k2.shape@ == k.shape@ && cloned(k.value, k2.value),
        (ShapeInfo::Ranked(s), ShapeInfo::Ranked(s2)) => axes_copy(s2@, s@),
        (ShapeInfo::Unranked { prefix, suffix }, ShapeInfo::Unranked { prefix: p2, suffix: s2 }) =>
            axes_copy(p2@, prefix@) && axes_copy(s2@, suffix@),
        _ => false,
    }
}

/// `b` is a copy of the value info `a`.
pub open spec fn val_copied<V: Clone>(a: ValInfo<V>, b: ValInfo<V>) -> bool {
    b.typ == a.typ && b.range == a.range && shape_copied(a.shape, b.shape)
}

/// `b` is a copy of the node info `a`.
pub open spec fn info_copied<V: Clone>(a: NodeInfo<V>, b: NodeInfo<V>) -> bool {
    &&& b.vals@.len() == a.vals@.len()
    &&& forall|i: int| 0 <= i < a.vals@.len() ==> val_copied(#[trigger] a.vals@[i], b.vals@[i])
    &&& b.subfunc_idxs@ == a.subfunc_idxs@
}

fn copy_usizes(v: &Vec<usize>) -> (r: Vec<usize>)
    ensures
        r@ == v@,
{
    let mut out: Vec<usize> = Vec::new();
    let mut i: usize = 0;
    while i < v.len()
        invariant
            i <= v@.len(),
            out@ == v@.take(i as int),
        decreases v@.len() - i,
    {
        out.push(v[i]);
        proof {
            assert(out@ =~= v@.take(i + 1));
        }
        i += 1;
    }
    proof {
        assert(v@.take(v@.len() as int) =~= v@);
    }
    out
}

pub fn copy_shape<V: Clone>(s: &ShapeInfo<V>) -> (r: ShapeInfo<V>)
    ensures
        shape_copied(*s, r),
{
    match s {
        ShapeInfo::Known(k) => ShapeInfo::Known(KnownValue { value: k.value.clone(), shape: copy_usizes(&k.shape) }),
        ShapeInfo::Ranked(a) => ShapeInfo::Ranked(clone_axes(a)),
        ShapeInfo::Unranked { prefix, suffix } => ShapeInfo::Unranked { prefix: clone_axes(prefix), suffix: clone_axes(suffix) },
    }
}

pub fn copy_val<V: Clone>(v: &ValInfo<V>) -> (r: ValInfo<V>)
    ensures
        val_copied(*v, r),
{
    ValInfo { typ: v.typ, shape: copy_shape(&v.shape), range: v.range }
}

pub fn copy_info<V: Clone>(n: &NodeInfo<V>) -> (r: NodeInfo<V>)
    ensures
        info_copied(*n, r),
{
    let mut vals: Vec<ValInfo<V>> = Vec::new();
    let mut i: usize = 0;
    while i < n.vals.len()
        invariant
            i <= n.vals@.len(),
            vals@.len() == i,
            forall|j: int| 0 <= j < i ==> val_copied(#[trigger] n.vals@[j], vals@[j]),
        decreases n.vals@.len() - i,
    {
        vals.push(copy_val(&n.vals[i]));
        i += 1;
    }
    NodeInfo { vals, subfunc_idxs: copy_usizes(&n.subfunc_idxs) }
}

fn copy_types(t: &Vec<CompType>) -> (r: Vec<CompType>)
    ensures
        r@ == t@,
{
    let mut out: Vec<CompType> = Vec::new();
    let mut i: usize = 0;
    while i < t.len()
        invariant
            i <= t@.len(),
            out@ == t@.take(i as int),
        decreases t@.len() - i,
    {
        out.push(t[i]);
        proof {
            assert(out@ =~= t@.take(i + 1));
        }
        i += 1;
    }
    proof {
        assert(t@.take(t@.len() as int) =~= t@);
    }
    out
}


/// The ops of the nodes.
pub open spec fn ops_of<V>(nodes: Seq<CompNode<V>>) -> Seq<Op> {
    nodes.map_values(|c: CompNode<V>| c.op)
}

impl<V> PreCompileGraph<V> {
    /// Every edge and stack entry names a node.
    pub open spec fn wf(self) -> bool {
        &&& self.alive@.len() == self.nodes@.len()
        &&& forall|i: int| 0 <= i < self.edges@.len() ==> (#[trigger] self.edges@[i]).from < self.nodes@.len()
            && self.edges@[i].to < self.nodes@.len()
        &&& forall|i: int| 0 <= i < self.stack@.len() ==> (#[trigger] self.stack@[i]).0 < self.nodes@.len()
    }
}

/// The kind of the program operation of a node, for a node of the data graph.
pub open spec fn node_kind(op: Op, kinds: Seq<PrimKind>) -> Option<PrimKind> {
    if op is Data && op->Data_0 is Node && op->Data_0->Node_0 < kinds.len() {
        Some(kinds[op->Data_0->Node_0 as int])
    } else {
        None
    }
}

/// Node `i` is a live `≠`.
pub open spec fn ne_at(ops: Seq<Op>, alive: Seq<bool>, kinds: Seq<PrimKind>, i: int) -> bool {
    0 <= i < ops.len() && alive[i] && node_kind(ops[i], kinds) == Some(PrimKind::Ne)
}

/// Node `i` is a live `<` or `≤`.
pub open spec fn lt_le_at(ops: Seq<Op>, alive: Seq<bool>, kinds: Seq<PrimKind>, i: int) -> bool {
    0 <= i < ops.len() && alive[i]
        && (node_kind(ops[i], kinds) == Some(PrimKind::Lt) || node_kind(ops[i], kinds) == Some(PrimKind::Le))
}

/// The number of live `≠` nodes before node `i`.
pub open spec fn ne_count(ops: Seq<Op>, alive: Seq<bool>, kinds: Seq<PrimKind>, i: int) -> nat
    decreases i,
{
    if i <= 0 { 0 } else { ne_count(ops, alive, kinds, i - 1) + if ne_at(ops, alive, kinds, i - 1) { 1nat } else { 0nat } }
}

/// Where the `=` node that replaces the `≠` node `i` goes; its `not` follows it.
pub open spec fn eq_slot(ops: Seq<Op>, alive: Seq<bool>, kinds: Seq<PrimKind>, i: int) -> int {
    ops.len() + 2 * (ne_count(ops, alive, kinds, i) as int)
}

/// The op of a node after comparisons are standardized: `<` becomes `>` and `≤`
/// becomes `≥` (with their inputs swapped).
pub open spec fn flipped_op(ops: Seq<Op>, alive: Seq<bool>, kinds: Seq<PrimKind>, i: int) -> Op {
    if lt_le_at(ops, alive, kinds, i) {
        let id = ops[i]->Data_0->Node_0;
        if node_kind(ops[i], kinds) == Some(PrimKind::Lt) { Op::Prim(PrimKind::Gt, id) } else { Op::Prim(PrimKind::Ge, id) }
    } else {
        ops[i]
    }
}

/// A reference to an output, once comparisons are standardized: the output of a `≠`
/// is that of its `not`.
pub open spec fn redirected(ops: Seq<Op>, alive: Seq<bool>, kinds: Seq<PrimKind>, e: (usize, usize)) -> (usize, usize) {
    if ne_at(ops, alive, kinds, e.0 as int) { ((eq_slot(ops, alive, kinds, e.0 as int) + 1) as usize, 0usize) } else { e }
}

/// An edge, once comparisons are standardized: the inputs of a `≠` go to its `=`, the
/// inputs of `<` and `≤` are swapped, and what took a `≠` takes its `not`.
pub open spec fn redirected_edge(ops: Seq<Op>, alive: Seq<bool>, kinds: Seq<PrimKind>, e: Edge) -> Edge {
    let (to, out_i) = redirected(ops, alive, kinds, (e.to, e.out_i));
    Edge {
        from: if ne_at(ops, alive, kinds, e.from as int) { eq_slot(ops, alive, kinds, e.from as int) as usize } else { e.from },
        to,
        out_i,
        in_i: if lt_le_at(ops, alive, kinds, e.from as int) { (1 - e.in_i) as usize } else { e.in_i },
    }
}

/// The edges from each new `not` to its `=`, for the `≠` nodes before node `i`.
pub open spec fn ne_links(ops: Seq<Op>, alive: Seq<bool>, kinds: Seq<PrimKind>, i: int) -> Seq<Edge>
    decreases i,
{
    if i <= 0 {
        Seq::empty()
    } else {
        let prev = ne_links(ops, alive, kinds, i - 1);
        if ne_at(ops, alive, kinds, i - 1) {
            let e = eq_slot(ops, alive, kinds, i - 1);
            prev.push(Edge { from: (e + 1) as usize, to: e as usize, out_i: 0, in_i: 0 })
        } else {
            prev
        }
    }
}

/// `b` is `a` with a known value negated by `negate`.
pub open spec fn negated_val<V: Clone, F: Fn(V) -> V>(a: ValInfo<V>, b: ValInfo<V>, negate: F) -> bool {
    &&& b.typ == a.typ
    &&& b.range == a.range
    &&& match (a.shape, b.shape) {
        (ShapeInfo::Known(k), ShapeInfo::Known(k2)) => k2.shape@ == k.shape@
            && exists|c: V| cloned(k.value, c) && #[trigger] call_ensures(negate, (c,), k2.value),
        _ => shape_copied(a.shape, b.shape),
    }
}

fn negate_val<V: Clone, F: Fn(V) -> V>(v: &ValInfo<V>, negate: &F) -> (r: ValInfo<V>)
    requires
        forall|x: V| call_requires(*negate, (x,)),
    ensures
        negated_val(*v, r, *negate),
{
    match &v.shape {
        ShapeInfo::Known(k) => {
            let c = k.value.clone();
            let w = negate(c);
            let r = ValInfo { typ: v.typ, shape: ShapeInfo::Known(KnownValue { value: w, shape: copy_usizes(&k.shape) }), range: v.range };
            proof {
                assert(cloned(k.value, c));
                assert(call_ensures(*negate, (c,), w));
                assert(exists|c2: V| cloned(k.value, c2) && #[trigger] call_ensures(*negate, (c2,), w));
                assert(r.shape->Known_0.value == w);
            }
            r
        },
        _ => copy_val(v),
    }
}

/// `r` is `g` with its comparisons standardized: `a < b` becomes `b > a`, `a ≤ b`
/// becomes `b ≥ a`, and `a ≠ b` becomes `not (a = b)` (the `≠` node removed and an `=`
/// and a `not` node added after the nodes, the `=` with a known value negated by
/// `negate`); what took the output of a `≠` takes that of its `not`.
pub open spec fn standardized<V: Clone, F: Fn(V) -> V>(g: PreCompileGraph<V>, r: PreCompileGraph<V>,
    kinds: Seq<PrimKind>, negate: F) -> bool
{
    let ops = ops_of(g.nodes@);
    let n = g.nodes@.len() as int;
    let m = ne_count(ops, g.alive@, kinds, n);
    &&& r.nodes@.len() == n + 2 * m
    &&& r.alive@ == Seq::new(n as nat, |i: int| g.alive@[i] && !ne_at(ops, g.alive@, kinds, i))
        + Seq::new(2 * m, |i: int| true)
    &&& forall|i: int| 0 <= i < n ==> (#[trigger] r.nodes@[i]).op == flipped_op(ops, g.alive@, kinds, i)
        && r.nodes@[i].info == g.nodes@[i].info && r.nodes@[i].types == g.nodes@[i].types
    &&& forall|i: int| n <= i < r.nodes@.len() ==> (#[trigger] r.nodes@[i]).op is Prim
    &&& forall|i: int| 0 <= i < n && #[trigger] ne_at(ops, g.alive@, kinds, i) ==> {
        let e = eq_slot(ops, g.alive@, kinds, i);
        let id = ops[i]->Data_0->Node_0;
        &&& r.nodes@[e].op == Op::Prim(PrimKind::Eq, id)
        &&& r.nodes@[e].info.vals@.len() == 1
        &&& negated_val(g.nodes@[i].info.vals@[0], r.nodes@[e].info.vals@[0], negate)
        &&& r.nodes@[e].info.subfunc_idxs@.len() == 0
        &&& r.nodes@[e].types@ == g.nodes@[i].types@
        &&& r.nodes@[e + 1].op == Op::Prim(PrimKind::Not, id)
        &&& info_copied(g.nodes@[i].info, r.nodes@[e + 1].info)
        &&& r.nodes@[e + 1].types@ == g.nodes@[i].types@
    }
    &&& r.edges@ == g.edges@.map_values(|e: Edge| redirected_edge(ops, g.alive@, kinds, e)) + ne_links(ops, g.alive@, kinds, n)
    &&& r.stack@ == g.stack@.map_values(|e: (usize, usize)| redirected(ops, g.alive@, kinds, e))
}

/// Rewrite comparisons into the forms the code generator has (see `standardized`).
pub fn standardize_comparisons<V: Clone, F: Fn(V) -> V>(g: PreCompileGraph<V>, kinds: &Vec<PrimKind>, negate: &F) -> (r: PreCompileGraph<V>)
    requires
        g.wf(),
        forall|x: V| call_requires(*negate, (x,)),
        g.nodes@.len() + 2 * ne_count(ops_of(g.nodes@), g.alive@, kinds@, g.nodes@.len() as int) <= usize::MAX,
        forall|i: int| 0 <= i < g.nodes@.len() && ne_at(ops_of(g.nodes@), g.alive@, kinds@, i)
            ==> (#[trigger] g.nodes@[i]).info.vals@.len() >= 1,
        forall|j: int| 0 <= j < g.edges@.len() && lt_le_at(ops_of(g.nodes@), g.alive@, kinds@, (#[trigger] g.edges@[j]).from as int)
            ==> g.edges@[j].in_i <= 1,
    ensures
        r.wf(),
        standardized(g, r, kinds@, *negate),
{
    let ghost ops = ops_of(g.nodes@);
    let ghost alive0 = g.alive@;
    let n = g.nodes.len();
    // Where each `≠` node's `=` goes, and which nodes have their inputs swapped.
    let mut slot: Vec<Option<usize>> = Vec::new();
    let mut flip: Vec<bool> = Vec::new();
    let mut count: usize = 0;
    let mut i: usize = 0;
    while i < n
        invariant
            i <= n,
            n == g.nodes@.len(),
            ops == ops_of(g.nodes@),
            alive0 == g.alive@,
            g.wf(),
            n + 2 * ne_count(ops, alive0, kinds@, n as int) <= usize::MAX,
            count == ne_count(ops, alive0, kinds@, i as int),
            slot@.len() == i,
            flip@.len() == i,
            forall|j: int| 0 <= j < i ==> (#[trigger] slot@[j]) == (if ne_at(ops, alive0, kinds@, j) {
                Some(eq_slot(ops, alive0, kinds@, j) as usize)
            } else {
                None::<usize>
            }),
            forall|j: int| 0 <= j < i ==> (#[trigger] flip@[j]) == lt_le_at(ops, alive0, kinds@, j),
        decreases n - i,
    {
        proof {
            lemma_ne_count_mono(ops, alive0, kinds@, i as int, n as int);
            assert(ops[i as int] == g.nodes@[i as int].op);
        }
        let k = match g.nodes[i].op {
            Op::Data(Data::Node(id)) => if id < kinds.len() { Some(kinds[id]) } else { None },
            _ => None,
        };
        let live = g.alive[i];
        if live && k == Some(PrimKind::Ne) {
            slot.push(Some(n + 2 * count));
            count = count + 1;
        } else {
            slot.push(None);
        }
        flip.push(live && (k == Some(PrimKind::Lt) || k == Some(PrimKind::Le)));
        i += 1;
    }
    let PreCompileGraph { nodes, alive, edges, stack } = g;
    // The nodes, with `<` and `≤` renamed; the `=` and `not` of each `≠` after them.
    let mut rest = nodes;
    let mut out: Vec<CompNode<V>> = Vec::new();
    let mut extra: Vec<CompNode<V>> = Vec::new();
    let ghost all = rest@;
    let mut j: usize = 0;
    while j < n
        invariant
            j <= n,
            n == all.len(),
            ops == ops_of(all),
            all == g.nodes@,
            alive0 == g.alive@,
            forall|x: V| call_requires(*negate, (x,)),
            forall|q: int| 0 <= q < all.len() && ne_at(ops, alive0, kinds@, q) ==> (#[trigger] all[q]).info.vals@.len() >= 1,
            slot@.len() == n,
            flip@.len() == n,
            forall|q: int| 0 <= q < n ==> (#[trigger] slot@[q]) == (if ne_at(ops, alive0, kinds@, q) {
                Some(eq_slot(ops, alive0, kinds@, q) as usize)
            } else {
                None::<usize>
            }),
            forall|q: int| 0 <= q < n ==> (#[trigger] flip@[q]) == lt_le_at(ops, alive0, kinds@, q),
            rest@ == all.subrange(j as int, n as int),
            out@.len() == j,
            forall|q: int| 0 <= q < j ==> (#[trigger] out@[q]).op == flipped_op(ops, alive0, kinds@, q)
                && out@[q].info == all[q].info && out@[q].types == all[q].types,
            extra@.len() == 2 * ne_count(ops, alive0, kinds@, j as int),
            forall|q: int| 0 <= q < extra@.len() ==> (#[trigger] extra@[q]).op is Prim,
            forall|q: int| 0 <= q < j && #[trigger] ne_at(ops, alive0, kinds@, q) ==> {
                let e: int = 2 * (ne_count(ops, alive0, kinds@, q) as int);
                let id = ops[q]->Data_0->Node_0;
                &&& extra@[e].op == Op::Prim(PrimKind::Eq, id)
                &&& extra@[e].info.vals@.len() == 1
                &&& negated_val(all[q].info.vals@[0], extra@[e].info.vals@[0], *negate)
                &&& extra@[e].info.subfunc_idxs@.len() == 0
                &&& extra@[e].types@ == all[q].types@
                &&& extra@[e + 1].op == Op::Prim(PrimKind::Not, id)
                &&& info_copied(all[q].info, extra@[e + 1].info)
                &&& extra@[e + 1].types@ == all[q].types@
            },
        decreases n - j,
    {
        let mut node = rest.remove(0);
        proof {
            assert(node == all[j as int]);
            assert(rest@ =~= all.subrange(j + 1, n as int));
            assert(ops[j as int] == node.op);
        }
        if flip[j] {
            let id: usize = match node.op {
                Op::Data(Data::Node(id)) => id,
                _ => 0,
            };
            let is_lt = id < kinds.len() && kinds[id] == PrimKind::Lt;
            node.op = if is_lt { Op::Prim(PrimKind::Gt, id) } else { Op::Prim(PrimKind::Ge, id) };
        }
        match slot[j] {
            Some(_) => {
                let id: usize = match node.op {
                    Op::Data(Data::Node(id)) => id,
                    _ => 0,
                };
                let eq_val = negate_val(&node.info.vals[0], negate);
                let mut vals: Vec<ValInfo<V>> = Vec::new();
                vals.push(eq_val);
                let eq_node = CompNode { op: Op::Prim(PrimKind::Eq, id), info: NodeInfo { vals, subfunc_idxs: Vec::new() },
                    types: copy_types(&node.types) };
                let not_node = CompNode { op: Op::Prim(PrimKind::Not, id), info: copy_info(&node.info), types: copy_types(&node.types) };
                let ghost before = extra@;
                extra.push(eq_node);
                extra.push(not_node);
                proof {
                    assert(extra@[before.len() as int] == eq_node);
                    assert(extra@[(before.len() + 1) as int] == not_node);
                    assert(ne_at(ops, alive0, kinds@, j as int));
                    assert forall|q: int| 0 <= q < j && #[trigger] ne_at(ops, alive0, kinds@, q)
                        implies 2 * (ne_count(ops, alive0, kinds@, q) as int) + 1 < before.len() by {
                        lemma_ne_count_mono(ops, alive0, kinds@, q, j as int);
                    }
                }
            },
            None => {},
        }
        out.push(node);
        proof {
            lemma_ne_count_step(ops, alive0, kinds@, j as int);
        }
        j += 1;
    }
    let ghost base = out@;
    let ghost ex = extra@;
    out.append(&mut extra);
    proof {
        assert forall|i: int| 0 <= i < n && #[trigger] ne_at(ops, alive0, kinds@, i) implies
            out@[eq_slot(ops, alive0, kinds@, i)] == ex[2 * (ne_count(ops, alive0, kinds@, i) as int)]
            && out@[eq_slot(ops, alive0, kinds@, i) + 1] == ex[2 * (ne_count(ops, alive0, kinds@, i) as int) + 1] by {
            lemma_ne_count_mono(ops, alive0, kinds@, i, n as int);
        }
    }
    // The new nodes are alive; a removed `≠` is not.
    let mut new_alive: Vec<bool> = Vec::new();
    let mut q: usize = 0;
    while q < n
        invariant
            q <= n,
            n == g.nodes@.len(),
            alive@ == alive0,
            alive0.len() == n,
            slot@.len() == n,
            forall|t: int| 0 <= t < n ==> (#[trigger] slot@[t]) is Some == ne_at(ops, alive0, kinds@, t),
            new_alive@ == Seq::new(q as nat, |t: int| alive0[t] && !ne_at(ops, alive0, kinds@, t)),
        decreases n - q,
    {
        new_alive.push(alive[q] && slot[q].is_none());
        proof {
            assert(new_alive@ =~= Seq::new((q + 1) as nat, |t: int| alive0[t] && !ne_at(ops, alive0, kinds@, t)));
        }
        q += 1;
    }
    let ghost na = new_alive@;
    let exn = out.len() - n;
    let mut t: usize = 0;
    while t < exn
        invariant
            t <= exn,
            new_alive@ == na + Seq::new(t as nat, |x: int| true),
        decreases exn - t,
    {
        new_alive.push(true);
        proof {
            assert(new_alive@ =~= na + Seq::new((t + 1) as nat, |x: int| true));
        }
        t += 1;
    }
    let new_edges = map_edges(&edges, &slot, &flip, n, Ghost(ops), Ghost(alive0), kinds);
    let new_stack = map_stack(&stack, &slot, n, Ghost(ops), Ghost(alive0), Ghost(flip@), kinds);
    PreCompileGraph { nodes: out, alive: new_alive, edges: new_edges, stack: new_stack }
}


proof fn lemma_ne_count_mono(ops: Seq<Op>, alive: Seq<bool>, kinds: Seq<PrimKind>, i: int, j: int)
    requires
        0 <= i <= j,
    ensures
        ne_count(ops, alive, kinds, i) <= ne_count(ops, alive, kinds, j),
        i < j && ne_at(ops, alive, kinds, i) ==> ne_count(ops, alive, kinds, i) + 1 <= ne_count(ops, alive, kinds, j),
    decreases j - i,
{
    if i < j {
        lemma_ne_count_mono(ops, alive, kinds, i, j - 1);
        if i == j - 1 {
        } else {
            lemma_ne_count_mono(ops, alive, kinds, i, j - 1);
        }
    }
}

proof fn lemma_ne_count_step(ops: Seq<Op>, alive: Seq<bool>, kinds: Seq<PrimKind>, j: int)
    requires
        0 <= j,
    ensures
        ne_count(ops, alive, kinds, j + 1) == ne_count(ops, alive, kinds, j) + if ne_at(ops, alive, kinds, j) { 1nat } else { 0nat },
{
}

/// What the tables of `≠` slots and swapped nodes say.
pub open spec fn slots_ok(slot: Seq<Option<usize>>, flip: Seq<bool>, n: nat, ops: Seq<Op>, alive: Seq<bool>,
    kinds: Seq<PrimKind>) -> bool
{
    &&& slot.len() == n && flip.len() == n && ops.len() == n && alive.len() == n
    &&& forall|q: int| 0 <= q < n ==> (#[trigger] slot[q]) == (if ne_at(ops, alive, kinds, q) {
        Some(eq_slot(ops, alive, kinds, q) as usize)
    } else {
        None::<usize>
    })
    &&& forall|q: int| 0 <= q < n ==> (#[trigger] flip[q]) == lt_le_at(ops, alive, kinds, q)
    &&& n + 2 * ne_count(ops, alive, kinds, n as int) <= usize::MAX
}

fn map_entry(e: (usize, usize), slot: &Vec<Option<usize>>, n: usize, Ghost(ops): Ghost<Seq<Op>>,
    Ghost(alive): Ghost<Seq<bool>>, Ghost(flip): Ghost<Seq<bool>>, kinds: &Vec<PrimKind>) -> (r: (usize, usize))
    requires
        slots_ok(slot@, flip, n as nat, ops, alive, kinds@),
        e.0 < n,
    ensures
        r == redirected(ops, alive, kinds@, e),
{
    match slot[e.0] {
        Some(k) => {
            proof {
                lemma_ne_count_mono(ops, alive, kinds@, e.0 as int, n as int);
            }
            (k + 1, 0)
        },
        None => e,
    }
}

fn map_edges(edges: &Vec<Edge>, slot: &Vec<Option<usize>>, flip: &Vec<bool>, n: usize, Ghost(ops): Ghost<Seq<Op>>,
    Ghost(alive): Ghost<Seq<bool>>, kinds: &Vec<PrimKind>) -> (r: Vec<Edge>)
    requires
        slots_ok(slot@, flip@, n as nat, ops, alive, kinds@),
        forall|j: int| 0 <= j < edges@.len() ==> (#[trigger] edges@[j]).from < n && edges@[j].to < n,
        forall|j: int| 0 <= j < edges@.len() && lt_le_at(ops, alive, kinds@, (#[trigger] edges@[j]).from as int)
            ==> edges@[j].in_i <= 1,
    ensures
        r@ == edges@.map_values(|e: Edge| redirected_edge(ops, alive, kinds@, e)) + ne_links(ops, alive, kinds@, n as int),
        forall|j: int| 0 <= j < r@.len() ==> (#[trigger] r@[j]).from < n + 2 * ne_count(ops, alive, kinds@, n as int)
            && r@[j].to < n + 2 * ne_count(ops, alive, kinds@, n as int),
{
    let ghost m = ne_count(ops, alive, kinds@, n as int);
    let mut out: Vec<Edge> = Vec::new();
    let mut j: usize = 0;
    while j < edges.len()
        invariant
            j <= edges@.len(),
            slots_ok(slot@, flip@, n as nat, ops, alive, kinds@),
            m == ne_count(ops, alive, kinds@, n as int),
            forall|q: int| 0 <= q < edges@.len() ==> (#[trigger] edges@[q]).from < n && edges@[q].to < n,
            forall|q: int| 0 <= q < edges@.len() && lt_le_at(ops, alive, kinds@, (#[trigger] edges@[q]).from as int)
                ==> edges@[q].in_i <= 1,
            out@ == edges@.take(j as int).map_values(|e: Edge| redirected_edge(ops, alive, kinds@, e)),
            forall|q: int| 0 <= q < out@.len() ==> (#[trigger] out@[q]).from < n + 2 * m && out@[q].to < n + 2 * m,
        decreases edges@.len() - j,
    {
        let e = edges[j];
        let (to, out_i) = map_entry((e.to, e.out_i), slot, n, Ghost(ops), Ghost(alive), Ghost(flip@), kinds);
        let from = match slot[e.from] {
            Some(k) => k,
            None => e.from,
        };
        let in_i = if flip[e.from] { 1 - e.in_i } else { e.in_i };
        proof {
            lemma_ne_count_mono(ops, alive, kinds@, e.from as int, n as int);
            lemma_ne_count_mono(ops, alive, kinds@, e.to as int, n as int);
        }
        out.push(Edge { from, to, out_i, in_i });
        proof {
            assert(out@ =~= edges@.take(j + 1).map_values(|e: Edge| redirected_edge(ops, alive, kinds@, e)));
        }
        j += 1;
    }
    proof {
        assert(edges@.take(edges@.len() as int) =~= edges@);
    }
    let ghost mapped = out@;
    let mut i: usize = 0;
    while i < n
        invariant
            i <= n,
            slots_ok(slot@, flip@, n as nat, ops, alive, kinds@),
            m == ne_count(ops, alive, kinds@, n as int),
            out@ == mapped + ne_links(ops, alive, kinds@, i as int),
            forall|q: int| 0 <= q < out@.len() ==> (#[trigger] out@[q]).from < n + 2 * m && out@[q].to < n + 2 * m,
        decreases n - i,
    {
        match slot[i] {
            Some(k) => {
                proof {
                    lemma_ne_count_mono(ops, alive, kinds@, i as int, n as int);
                }
                out.push(Edge { from: k + 1, to: k, out_i: 0, in_i: 0 });
            },
            None => {},
        }
        proof {
            assert(out@ =~= mapped + ne_links(ops, alive, kinds@, i + 1));
        }
        i += 1;
    }
    out
}

fn map_stack(stack: &Vec<(usize, usize)>, slot: &Vec<Option<usize>>, n: usize, Ghost(ops): Ghost<Seq<Op>>,
    Ghost(alive): Ghost<Seq<bool>>, Ghost(flip): Ghost<Seq<bool>>, kinds: &Vec<PrimKind>) -> (r: Vec<(usize, usize)>)
    requires
        slots_ok(slot@, flip, n as nat, ops, alive, kinds@),
        forall|j: int| 0 <= j < stack@.len() ==> (#[trigger] stack@[j]).0 < n,
    ensures
        r@ == stack@.map_values(|e: (usize, usize)| redirected(ops, alive, kinds@, e)),
        forall|j: int| 0 <= j < r@.len() ==> (#[trigger] r@[j]).0 < n + 2 * ne_count(ops, alive, kinds@, n as int),
{
    let mut out: Vec<(usize, usize)> = Vec::new();
    let mut j: usize = 0;
    while j < stack.len()
        invariant
            j <= stack@.len(),
            slots_ok(slot@, flip, n as nat, ops, alive, kinds@),
            forall|q: int| 0 <= q < stack@.len() ==> (#[trigger] stack@[q]).0 < n,
            out@ == stack@.take(j as int).map_values(|e: (usize, usize)| redirected(ops, alive, kinds@, e)),
            forall|q: int| 0 <= q < out@.len() ==> (#[trigger] out@[q]).0 < n + 2 * ne_count(ops, alive, kinds@, n as int),
        decreases stack@.len() - j,
    {
        let e = map_entry(stack[j], slot, n, Ghost(ops), Ghost(alive), Ghost(flip), kinds);
        proof {
            lemma_ne_count_mono(ops, alive, kinds@, stack@[j as int].0 as int, n as int);
        }
        out.push(e);
        proof {
            assert(out@ =~= stack@.take(j + 1).map_values(|e: (usize, usize)| redirected(ops, alive, kinds@, e)));
        }
        j += 1;
    }
    proof {
        assert(stack@.take(stack@.len() as int) =~= stack@);
    }
    out
}


/// The inputs of node `out` of a graph, from the first `k` edges, in their order.
pub open spec fn out_deps(nodes: Seq<Data>, edges: Seq<Edge>, out: usize, k: int) -> Seq<Data>
    decreases k,
{
    if k <= 0 {
        Seq::empty()
    } else {
        let prev = out_deps(nodes, edges, out, k - 1);
        if edges[k - 1].from == out { prev.push(nodes[edges[k - 1].to as int]) } else { prev }
    }
}

/// Every kept operation of the graph is pure.
pub open spec fn sub_pure(g: DataGraph, live: Seq<bool>, pure: Seq<bool>) -> bool {
    forall|i: int| 0 <= i < g.nodes@.len() && i < live.len() && live[i] && (#[trigger] g.nodes@[i]) is Node
        ==> g.nodes@[i]->Node_0 < pure.len() && pure[g.nodes@[i]->Node_0 as int]
}

/// The custom operation that a reduction with this function is: a sum where the
/// function is pure, has one output, and adds its two arguments; a product where it
/// multiplies them. With the program operation of the addition or multiplication.
pub open spec fn spec_sum_product(g: DataGraph, live: Seq<bool>, pure: Seq<bool>, kinds: Seq<PrimKind>) -> Option<(Impl, usize)> {
    if sub_pure(g, live, pure) && g.stack@.len() == 1 {
        let out = g.stack@[0].0;
        let deps = out_deps(g.nodes@, g.edges@, out, g.edges@.len() as int);
        let d = g.nodes@[out as int];
        if deps.len() == 2 && deps.contains(Data::Arg(0)) && deps.contains(Data::Arg(1)) && d is Node
            && d->Node_0 < kinds.len() {
            let id = d->Node_0;
            if kinds[id as int] == PrimKind::Add {
                Some((Impl::Sum, id))
            } else if kinds[id as int] == PrimKind::Mul {
                Some((Impl::Product, id))
            } else {
                None
            }
        } else {
            None
        }
    } else {
        None
    }
}

fn sum_product_of(g: &DataGraph, live: &Vec<bool>, pure: &Vec<bool>, kinds: &Vec<PrimKind>) -> (r: Option<(Impl, usize)>)
    requires
        g.wf(),
    ensures
        r == spec_sum_product(*g, live@, pure@, kinds@),
{
    let mut k: usize = 0;
    while k < g.nodes.len()
        invariant
            k <= g.nodes@.len(),
            forall|i: int| 0 <= i < k && i < live@.len() && live@[i] && (#[trigger] g.nodes@[i]) is Node
                ==> g.nodes@[i]->Node_0 < pure@.len() && pure@[g.nodes@[i]->Node_0 as int],
        decreases g.nodes@.len() - k,
    {
        if k < live.len() && live[k] {
            match g.nodes[k] {
                Data::Node(id) => {
                    if !(id < pure.len() && pure[id]) {
                        return None;
                    }
                },
                Data::Arg(_) => {},
            }
        }
        k += 1;
    }
    if g.stack.len() != 1 {
        return None;
    }
    let out = g.stack[0].0;
    proof {
        assert(g.stack@[0].0 < g.nodes@.len());
    }
    let mut deps: Vec<Data> = Vec::new();
    let mut j: usize = 0;
    while j < g.edges.len()
        invariant
            j <= g.edges@.len(),
            g.wf(),
            deps@ == out_deps(g.nodes@, g.edges@, out, j as int),
        decreases g.edges@.len() - j,
    {
        let e = g.edges[j];
        if e.from == out {
            deps.push(g.nodes[e.to]);
        }
        j += 1;
    }
    if deps.len() != 2 {
        return None;
    }
    let has0 = deps[0] == Data::Arg(0) || deps[1] == Data::Arg(0);
    let has1 = deps[0] == Data::Arg(1) || deps[1] == Data::Arg(1);
    proof {
        assert(deps@.contains(Data::Arg(0)) == has0) by {
            if deps@.contains(Data::Arg(0)) {
                let w = choose|w: int| 0 <= w < deps@.len() && deps@[w] == Data::Arg(0);
                assert(w == 0 || w == 1);
            }
        }
        assert(deps@.contains(Data::Arg(1)) == has1) by {
            if deps@.contains(Data::Arg(1)) {
                let w = choose|w: int| 0 <= w < deps@.len() && deps@[w] == Data::Arg(1);
                assert(w == 0 || w == 1);
            }
        }
    }
    if !(has0 && has1) {
        return None;
    }
    match g.nodes[out] {
        Data::Node(id) => {
            if id < kinds.len() && kinds[id] == PrimKind::Add {
                Some((Impl::Sum, id))
            } else if id < kinds.len() && kinds[id] == PrimKind::Mul {
                Some((Impl::Product, id))
            } else {
                None
            }
        },
        Data::Arg(_) => None,
    }
}

/// The rewritten op of a reduction node: the custom sum or product where its function
/// is one; `None` for other nodes.
pub open spec fn reduce_rewrite<V>(c: CompNode<V>, live: bool, kinds: Seq<PrimKind>, pure: Seq<bool>,
    subfuncs: Seq<(DataGraph, Vec<bool>)>) -> Option<(Impl, usize)>
{
    if live && node_kind(c.op, kinds) == Some(PrimKind::Reduce) {
        let sf = c.info.subfunc_idxs@[0];
        spec_sum_product(subfuncs[sf as int].0, subfuncs[sf as int].1@, pure, kinds)
    } else {
        None
    }
}

/// `r` is `g` with each reduction whose function adds or multiplies its two arguments
/// made the custom sum or product operation; everything else is kept.
pub open spec fn reduced<V>(g: PreCompileGraph<V>, r: PreCompileGraph<V>, kinds: Seq<PrimKind>, pure: Seq<bool>,
    subfuncs: Seq<(DataGraph, Vec<bool>)>) -> bool
{
    &&& r.alive@ == g.alive@
    &&& r.edges@ == g.edges@
    &&& r.stack@ == g.stack@
    &&& r.nodes@.len() == g.nodes@.len()
    &&& forall|i: int| 0 <= i < g.nodes@.len() ==> {
        let c = #[trigger] g.nodes@[i];
        &&& r.nodes@[i].info == c.info
        &&& r.nodes@[i].types == c.types
        &&& r.nodes@[i].op == match reduce_rewrite(c, g.alive@[i], kinds, pure, subfuncs) {
            Some((im, id)) => Op::Impl(im, id),
            None => c.op,
        }
    }
}

/// Rewrite reductions into the custom sum and product operations (see `reduced`).
pub fn reduce_sum_and_product<V>(g: PreCompileGraph<V>, kinds: &Vec<PrimKind>, pure: &Vec<bool>,
    subfuncs: &Vec<(DataGraph, Vec<bool>)>) -> (r: PreCompileGraph<V>)
    requires
        g.wf(),
        forall|i: int| 0 <= i < g.nodes@.len() && g.alive@[i]
            && node_kind((#[trigger] g.nodes@[i]).op, kinds@) == Some(PrimKind::Reduce)
            ==> g.nodes@[i].info.subfunc_idxs@.len() >= 1 && g.nodes@[i].info.subfunc_idxs@[0] < subfuncs@.len(),
        forall|k: int| 0 <= k < subfuncs@.len() ==> (#[trigger] subfuncs@[k]).0.wf(),
    ensures
        r.wf(),
        reduced(g, r, kinds@, pure@, subfuncs@),
{
    let PreCompileGraph { nodes, alive, edges, stack } = g;
    let ghost all = nodes@;
    let n = nodes.len();
    let mut rest = nodes;
    let mut out: Vec<CompNode<V>> = Vec::new();
    let mut i: usize = 0;
    while i < n
        invariant
            i <= n,
            n == all.len(),
            alive@ == g.alive@,
            all == g.nodes@,
            alive@.len() == n,
            forall|q: int| 0 <= q < all.len() && alive@[q]
                && node_kind((#[trigger] all[q]).op, kinds@) == Some(PrimKind::Reduce)
                ==> all[q].info.subfunc_idxs@.len() >= 1 && all[q].info.subfunc_idxs@[0] < subfuncs@.len(),
            forall|k: int| 0 <= k < subfuncs@.len() ==> (#[trigger] subfuncs@[k]).0.wf(),
            rest@ == all.subrange(i as int, n as int),
            out@.len() == i,
            forall|q: int| 0 <= q < i ==> {
                let c = #[trigger] all[q];
                &&& out@[q].info == c.info
                &&& out@[q].types == c.types
                &&& out@[q].op == match reduce_rewrite(c, alive@[q], kinds@, pure@, subfuncs@) {
                    Some((im, id)) => Op::Impl(im, id),
                    None => c.op,
                }
            },
        decreases n - i,
    {
        let mut node = rest.remove(0);
        proof {
            assert(node == all[i as int]);
            assert(rest@ =~= all.subrange(i + 1, n as int));
        }
        let is_reduce = match node.op {
            Op::Data(Data::Node(id)) => id < kinds.len() && kinds[id] == PrimKind::Reduce,
            _ => false,
        };
        if alive[i] && is_reduce {
            let sf = node.info.subfunc_idxs[0];
            let (sg, live) = (&subfuncs[sf].0, &subfuncs[sf].1);
            match sum_product_of(sg, live, pure, kinds) {
                Some((im, id)) => {
                    node.op = Op::Impl(im, id);
                },
                None => {},
            }
        }
        out.push(node);
        i += 1;
    }
    PreCompileGraph { nodes: out, alive, edges, stack }
}



impl<V> PreCompileGraph<V> {
    /// An empty prepared graph.
    pub fn new() -> (r: Self)
        ensures
            r.wf(),
            r.nodes@.len() == 0,
            r.alive@.len() == 0,
            r.edges@.len() == 0,
            r.stack@.len() == 0,
    {
        PreCompileGraph { nodes: Vec::new(), alive: Vec::new(), edges: Vec::new(), stack: Vec::new() }
    }
}

/// Operations whose arguments are converted to the type of their output.
pub open spec fn is_arith(k: PrimKind) -> bool {
    ||| k == PrimKind::Add
    ||| k == PrimKind::Sub
    ||| k == PrimKind::Mul
    ||| k == PrimKind::Div
    ||| k == PrimKind::Not
    ||| k == PrimKind::Neg
    ||| k == PrimKind::Reciprocal
    ||| k == PrimKind::Sqrt
    ||| k == PrimKind::Exp
    ||| k == PrimKind::Sin
}

/// Comparisons, whose arguments are converted to their common supertype.
pub open spec fn is_comparison(k: PrimKind) -> bool {
    ||| k == PrimKind::Eq
    ||| k == PrimKind::Ne
    ||| k == PrimKind::Lt
    ||| k == PrimKind::Le
    ||| k == PrimKind::Gt
    ||| k == PrimKind::Ge
}

fn is_arith_kind(k: PrimKind) -> (r: bool)
    ensures
        r == is_arith(k),
{
    match k {
        PrimKind::Add | PrimKind::Sub | PrimKind::Mul | PrimKind::Div | PrimKind::Not | PrimKind::Neg
        | PrimKind::Reciprocal | PrimKind::Sqrt | PrimKind::Exp | PrimKind::Sin => true,
        _ => false,
    }
}

fn is_comparison_kind(k: PrimKind) -> (r: bool)
    ensures
        r == is_comparison(k),
{
    match k {
        PrimKind::Eq | PrimKind::Ne | PrimKind::Lt | PrimKind::Le | PrimKind::Gt | PrimKind::Ge => true,
        _ => false,
    }
}

/// The machine type chosen for a value.
pub open spec fn val_type<V>(v: ValInfo<V>) -> CompType {
    CompType::spec_from_info(v.typ, v.range)
}

/// The machine type of output `out_i` of node `to`.
pub open spec fn out_type<V>(infos: Seq<NodeInfo<V>>, to: usize, out_i: usize) -> CompType {
    val_type(infos[to as int].vals@[out_i as int])
}

/// The types of the inputs of node `i`, from the first `k` edges, in their order.
pub open spec fn in_types<V>(infos: Seq<NodeInfo<V>>, edges: Seq<Edge>, i: usize, k: int) -> Seq<CompType>
    decreases k,
{
    if k <= 0 {
        Seq::empty()
    } else {
        let prev = in_types(infos, edges, i, k - 1);
        let e = edges[k - 1];
        if e.from == i { prev.push(out_type(infos, e.to, e.out_i)) } else { prev }
    }
}

/// The kind of the program operation of node `i` of a data graph.
pub open spec fn data_kind(nodes: Seq<Data>, kinds: Seq<PrimKind>, i: int) -> Option<PrimKind> {
    node_kind(Op::Data(nodes[i]), kinds)
}

/// The type that the arguments of node `i` are converted to: for a kept comparison, the
/// common supertype of its inputs' types; for other kept arithmetic, the type of its
/// first output; none for other nodes.
pub open spec fn target_type<V>(g: DataGraph, live: Seq<bool>, infos: Seq<NodeInfo<V>>, kinds: Seq<PrimKind>, i: int)
    -> Option<CompType>
{
    if live[i] {
        match data_kind(g.nodes@, kinds, i) {
            Some(k) => if is_comparison(k) {
                fold_supertype(in_types(infos, g.edges@, i as usize, g.edges@.len() as int))
            } else if is_arith(k) {
                Some(val_type(infos[i].vals@[0]))
            } else {
                None
            },
            None => None,
        }
    } else {
        None
    }
}

/// The conversion put on edge `j`: where its node converts its arguments to a type that
/// the input does not have, and the conversion changes the representation.
pub open spec fn edge_cast<V>(g: DataGraph, live: Seq<bool>, infos: Seq<NodeInfo<V>>, kinds: Seq<PrimKind>, j: int)
    -> Option<Cast>
{
    let e = g.edges@[j];
    match target_type(g, live, infos, kinds, e.from as int) {
        Some(t) => {
            let d = out_type(infos, e.to, e.out_i);
            if d != t { Cast::spec_from_types(d, t) } else { None }
        },
        None => None,
    }
}

/// The number of conversions on the first `k` edges.
pub open spec fn cast_count<V>(g: DataGraph, live: Seq<bool>, infos: Seq<NodeInfo<V>>, kinds: Seq<PrimKind>, k: int) -> nat
    decreases k,
{
    if k <= 0 {
        0
    } else {
        cast_count(g, live, infos, kinds, k - 1) + if edge_cast(g, live, infos, kinds, k - 1) is Some { 1nat } else { 0nat }
    }
}

/// Edge `j`, taking the output of its conversion node where it has one. The conversion
/// nodes come after the nodes of the graph, in the order of their edges.
pub open spec fn cast_edge_in<V>(g: DataGraph, live: Seq<bool>, infos: Seq<NodeInfo<V>>, kinds: Seq<PrimKind>, j: int) -> Edge {
    let e = g.edges@[j];
    if edge_cast(g, live, infos, kinds, j) is Some {
        Edge { from: e.from, to: (g.nodes@.len() + cast_count(g, live, infos, kinds, j)) as usize, out_i: 0, in_i: e.in_i }
    } else {
        e
    }
}

/// The edges from each conversion node to the output it converts, for the first `k` edges.
pub open spec fn cast_links<V>(g: DataGraph, live: Seq<bool>, infos: Seq<NodeInfo<V>>, kinds: Seq<PrimKind>, k: int) -> Seq<Edge>
    decreases k,
{
    if k <= 0 {
        Seq::empty()
    } else {
        let prev = cast_links(g, live, infos, kinds, k - 1);
        let e = g.edges@[k - 1];
        if edge_cast(g, live, infos, kinds, k - 1) is Some {
            prev.push(Edge { from: (g.nodes@.len() + cast_count(g, live, infos, kinds, k - 1)) as usize, to: e.to, out_i: e.out_i, in_i: 0 })
        } else {
            prev
        }
    }
}

/// Every value of the node is a number or a character.
pub open spec fn vals_typed<V>(info: NodeInfo<V>) -> bool {
    forall|k: int| 0 <= k < info.vals@.len() ==> (#[trigger] info.vals@[k]).typ <= 1
}

/// Where edge `j`'s node converts its arguments, the conversion from the input's type is
/// defined.
pub open spec fn cast_defined_at<V>(g: DataGraph, live: Seq<bool>, infos: Seq<NodeInfo<V>>, kinds: Seq<PrimKind>, j: int) -> bool {
    let e = g.edges@[j];
    match target_type(g, live, infos, kinds, e.from as int) {
        Some(t) => out_type(infos, e.to, e.out_i) != t ==> Cast::defined(out_type(infos, e.to, e.out_i), t),
        None => true,
    }
}

/// What preparing a data graph needs: one analysis entry per node, kept nodes with
/// values of number or character type, kept nodes taking existing outputs of kept nodes,
/// arithmetic with an output, comparisons whose inputs have a common supertype, and the
/// conversions needed defined.
pub open spec fn can_prepare<V>(g: DataGraph, live: Seq<bool>, infos: Seq<NodeInfo<V>>, kinds: Seq<PrimKind>) -> bool {
    let n = g.nodes@.len();
    &&& g.wf()
    &&& live.len() == n
    &&& infos.len() == n
    &&& n + g.edges@.len() <= usize::MAX
    &&& forall|i: int| 0 <= i < n && #[trigger] live[i] ==> vals_typed(infos[i])
    &&& forall|j: int| 0 <= j < g.edges@.len() && live[(#[trigger] g.edges@[j]).from as int]
        ==> live[g.edges@[j].to as int] && g.edges@[j].out_i < infos[g.edges@[j].to as int].vals@.len()
    &&& forall|i: int| 0 <= i < n && live[i] && #[trigger] data_kind(g.nodes@, kinds, i) is Some
        && is_arith(data_kind(g.nodes@, kinds, i)->0) ==> infos[i].vals@.len() >= 1
    &&& forall|i: int| 0 <= i < n && live[i] && #[trigger] data_kind(g.nodes@, kinds, i) is Some
        && is_comparison(data_kind(g.nodes@, kinds, i)->0)
        ==> fold_supertype(in_types(infos, g.edges@, i as usize, g.edges@.len() as int)) is Some
    &&& forall|j: int| 0 <= j < g.edges@.len() ==> #[trigger] cast_defined_at(g, live, infos, kinds, j)
}

/// `p` is the data graph `g` prepared: node `i` of `g` is node `i` of `p`, with its
/// analysis and, where kept, the machine types of its values; each conversion follows,
/// taking the input of its edge, which then takes the conversion's output.
pub open spec fn prepared<V: Clone>(g: DataGraph, live: Seq<bool>, infos: Seq<NodeInfo<V>>, kinds: Seq<PrimKind>,
    p: PreCompileGraph<V>) -> bool
{
    let n = g.nodes@.len() as int;
    let ne = g.edges@.len() as int;
    let c = cast_count(g, live, infos, kinds, ne);
    &&& p.nodes@.len() == n + c
    &&& p.alive@ == live + Seq::new(c, |i: int| true)
    &&& forall|i: int| 0 <= i < n ==> (#[trigger] p.nodes@[i]).op == Op::Data(g.nodes@[i])
        && info_copied(infos[i], p.nodes@[i].info)
        && p.nodes@[i].types@ == (if live[i] { infos[i].vals@.map_values(|v: ValInfo<V>| val_type(v)) } else { Seq::empty() })
    &&& forall|i: int| n <= i < p.nodes@.len() ==> (#[trigger] p.nodes@[i]).op is Impl
    &&& forall|j: int| 0 <= j < ne && (#[trigger] edge_cast(g, live, infos, kinds, j)) is Some ==> {
        let s = n + cast_count(g, live, infos, kinds, j);
        let e = g.edges@[j];
        &&& p.nodes@[s].op == Op::Impl(Impl::Cast(edge_cast(g, live, infos, kinds, j)->0), g.nodes@[e.from as int]->Node_0)
        &&& p.nodes@[s].info.vals@.len() == 1
        &&& val_copied(infos[e.to as int].vals@[e.out_i as int], p.nodes@[s].info.vals@[0])
        &&& p.nodes@[s].info.subfunc_idxs@.len() == 0
        &&& p.nodes@[s].types@ == seq![target_type(g, live, infos, kinds, e.from as int)->0]
    }
    &&& p.edges@ == Seq::new(ne as nat, |j: int| cast_edge_in(g, live, infos, kinds, j)) + cast_links(g, live, infos, kinds, ne)
    &&& p.stack@ == g.stack@
}


fn kind_at(g: &DataGraph, kinds: &Vec<PrimKind>, i: usize) -> (r: Option<PrimKind>)
    requires
        i < g.nodes@.len(),
    ensures
        r == data_kind(g.nodes@, kinds@, i as int),
{
    match g.nodes[i] {
        Data::Node(id) => if id < kinds.len() { Some(kinds[id]) } else { None },
        Data::Arg(_) => None,
    }
}

/// The common supertype of the types once one more is added.
proof fn lemma_fold_supertype_push(s: Seq<CompType>, d: CompType)
    ensures
        fold_supertype(s.push(d)) == if s.len() == 0 { Some(d) } else {
            match fold_supertype(s) {
                Some(a) => a.spec_supertype(d),
                None => None,
            }
        },
{
    assert(s.push(d).drop_last() =~= s);
    assert(s.push(d).last() == d);
}

/// The type each node's arguments are converted to.
fn arg_targets<V>(g: &DataGraph, live: &Vec<bool>, infos: &Vec<NodeInfo<V>>, kinds: &Vec<PrimKind>)
    -> (r: Vec<Option<CompType>>)
    requires
        can_prepare(*g, live@, infos@, kinds@),
    ensures
        r@.len() == g.nodes@.len(),
        forall|i: int| 0 <= i < g.nodes@.len() ==> #[trigger] r@[i] == target_type(*g, live@, infos@, kinds@, i),
{
    let n = g.nodes.len();
    // The supertype of the inputs seen so far of each kept comparison, and whether it
    // has had any.
    let mut acc: Vec<Option<CompType>> = Vec::new();
    let mut seen: Vec<bool> = Vec::new();
    let mut i: usize = 0;
    while i < n
        invariant
            i <= n,
            n == g.nodes@.len(),
            acc@.len() == i,
            seen@.len() == i,
            forall|q: int| 0 <= q < i ==> #[trigger] acc@[q] == None::<CompType>,
            forall|q: int| 0 <= q < i ==> !(#[trigger] seen@[q]),
        decreases n - i,
    {
        acc.push(None);
        seen.push(false);
        i += 1;
    }
    let mut j: usize = 0;
    while j < g.edges.len()
        invariant
            j <= g.edges@.len(),
            n == g.nodes@.len(),
            can_prepare(*g, live@, infos@, kinds@),
            acc@.len() == n,
            seen@.len() == n,
            forall|q: int| 0 <= q < n && live@[q] && data_kind(g.nodes@, kinds@, q) is Some
                && is_comparison(data_kind(g.nodes@, kinds@, q)->0) ==>
                #[trigger] acc@[q] == fold_supertype(in_types(infos@, g.edges@, q as usize, j as int)),
            forall|q: int| 0 <= q < n && live@[q] && data_kind(g.nodes@, kinds@, q) is Some
                && is_comparison(data_kind(g.nodes@, kinds@, q)->0) ==>
                #[trigger] seen@[q] == (in_types(infos@, g.edges@, q as usize, j as int).len() > 0),
        decreases g.edges@.len() - j,
    {
        let e = g.edges[j];
        proof {
            assert(e.from < n);
        }
        let k = kind_at(g, kinds, e.from);
        let compares = match k {
            Some(k) => is_comparison_kind(k),
            None => false,
        };
        if live[e.from] && compares {
            proof {
                assert(live@[e.from as int]);
                assert(vals_typed(infos@[e.to as int]));
                assert(infos@[e.to as int].vals@[e.out_i as int].typ <= 1);
            }
            let d = CompType::from_info(&infos[e.to].vals[e.out_i]);
            let nv = if !seen[e.from] {
                Some(d)
            } else {
                match acc[e.from] {
                    Some(a) => a.supertype(&d),
                    None => None,
                }
            };
            let ghost before = acc@;
            let ghost seen_before = seen@;
            acc.set(e.from, nv);
            seen.set(e.from, true);
            proof {
                assert forall|q: int| 0 <= q < n && live@[q] && data_kind(g.nodes@, kinds@, q) is Some
                    && is_comparison(data_kind(g.nodes@, kinds@, q)->0) implies
                    #[trigger] acc@[q] == fold_supertype(in_types(infos@, g.edges@, q as usize, j + 1))
                    && seen@[q] == (in_types(infos@, g.edges@, q as usize, j + 1).len() > 0) by {
                    let s = in_types(infos@, g.edges@, q as usize, j as int);
                    assert(before[q] == fold_supertype(s));
                    if q == e.from {
                        lemma_fold_supertype_push(s, d);
                        assert(in_types(infos@, g.edges@, q as usize, j + 1) == s.push(d));
                    } else {
                        assert(in_types(infos@, g.edges@, q as usize, j + 1) == s);
                    }
                }
            }
        } else {
            proof {
                assert forall|q: int| 0 <= q < n && live@[q] && data_kind(g.nodes@, kinds@, q) is Some
                    && is_comparison(data_kind(g.nodes@, kinds@, q)->0) implies
                    #[trigger] acc@[q] == fold_supertype(in_types(infos@, g.edges@, q as usize, j + 1))
                    && seen@[q] == (in_types(infos@, g.edges@, q as usize, j + 1).len() > 0) by {
                    assert(q != e.from);
                    assert(in_types(infos@, g.edges@, q as usize, j + 1) == in_types(infos@, g.edges@, q as usize, j as int));
                    assert(acc@[q] == fold_supertype(in_types(infos@, g.edges@, q as usize, j + 1)));
                    assert(seen@[q] == (in_types(infos@, g.edges@, q as usize, j + 1).len() > 0));
                }
            }
        }
        j += 1;
    }
    let mut out: Vec<Option<CompType>> = Vec::new();
    let mut i: usize = 0;
    while i < n
        invariant
            i <= n,
            n == g.nodes@.len(),
            can_prepare(*g, live@, infos@, kinds@),
            acc@.len() == n,
            forall|q: int| 0 <= q < n && live@[q] && data_kind(g.nodes@, kinds@, q) is Some
                && is_comparison(data_kind(g.nodes@, kinds@, q)->0) ==>
                #[trigger] acc@[q] == fold_supertype(in_types(infos@, g.edges@, q as usize, g.edges@.len() as int)),
            out@.len() == i,
            forall|q: int| 0 <= q < i ==> #[trigger] out@[q] == target_type(*g, live@, infos@, kinds@, q),
        decreases n - i,
    {
        let t = if live[i] {
            match kind_at(g, kinds, i) {
                Some(k) => {
                    if is_comparison_kind(k) {
                        acc[i]
                    } else if is_arith_kind(k) {
                        proof {
                            assert(data_kind(g.nodes@, kinds@, i as int) is Some);
                            assert(vals_typed(infos@[i as int]));
                            assert(infos@[i as int].vals@[0].typ <= 1);
                        }
                        Some(CompType::from_info(&infos[i].vals[0]))
                    } else {
                        None
                    }
                },
                None => None,
            }
        } else {
            None
        };
        out.push(t);
        i += 1;
    }
    out
}

/// The machine types of a node's values.
fn types_of<V>(info: &NodeInfo<V>) -> (r: Vec<CompType>)
    requires
        vals_typed(*info),
    ensures
        r@ == info.vals@.map_values(|v: ValInfo<V>| val_type(v)),
{
    let mut out: Vec<CompType> = Vec::new();
    let mut i: usize = 0;
    while i < info.vals.len()
        invariant
            i <= info.vals@.len(),
            vals_typed(*info),
            out@ == info.vals@.take(i as int).map_values(|v: ValInfo<V>| val_type(v)),
        decreases info.vals@.len() - i,
    {
        proof {
            assert(info.vals@[i as int].typ <= 1);
        }
        out.push(CompType::from_info(&info.vals[i]));
        proof {
            assert(out@ =~= info.vals@.take(i + 1).map_values(|v: ValInfo<V>| val_type(v)));
        }
        i += 1;
    }
    proof {
        assert(info.vals@.take(info.vals@.len() as int) =~= info.vals@);
    }
    out
}

proof fn lemma_cast_count_mono<V>(g: DataGraph, live: Seq<bool>, infos: Seq<NodeInfo<V>>, kinds: Seq<PrimKind>, i: int, j: int)
    requires
        0 <= i <= j,
    ensures
        cast_count(g, live, infos, kinds, i) <= cast_count(g, live, infos, kinds, j),
        cast_count(g, live, infos, kinds, j) <= cast_count(g, live, infos, kinds, i) + (j - i),
        i < j && edge_cast(g, live, infos, kinds, i) is Some
            ==> cast_count(g, live, infos, kinds, i) + 1 <= cast_count(g, live, infos, kinds, j),
    decreases j - i,
{
    if i < j {
        lemma_cast_count_mono(g, live, infos, kinds, i, j - 1);
    }
}


/// The conversion node put on edge `q` where it needs one, found at position
/// `cast_count(q)` of `casts`.
pub open spec fn casts_placed<V: Clone>(g: DataGraph, live: Seq<bool>, infos: Seq<NodeInfo<V>>, kinds: Seq<PrimKind>,
    casts: Seq<CompNode<V>>, j: int) -> bool
{
    forall|q: int| 0 <= q < j && (#[trigger] edge_cast(g, live, infos, kinds, q)) is Some ==> {
        let s = cast_count(g, live, infos, kinds, q) as int;
        let e = g.edges@[q];
        &&& casts[s].op == Op::Impl(Impl::Cast(edge_cast(g, live, infos, kinds, q)->0), g.nodes@[e.from as int]->Node_0)
        &&& casts[s].info.vals@.len() == 1
        &&& val_copied(infos[e.to as int].vals@[e.out_i as int], casts[s].info.vals@[0])
        &&& casts[s].info.subfunc_idxs@.len() == 0
        &&& casts[s].types@ == seq![target_type(g, live, infos, kinds, e.from as int)->0]
    }
}

/// The conversion that edge `j` needs, with the type it converts to.
fn edge_conversion<V>(g: &DataGraph, live: &Vec<bool>, infos: &Vec<NodeInfo<V>>, kinds: &Vec<PrimKind>,
    targets: &Vec<Option<CompType>>, j: usize) -> (r: Option<(Cast, CompType)>)
    requires
        can_prepare(*g, live@, infos@, kinds@),
        j < g.edges@.len(),
        targets@.len() == g.nodes@.len(),
        forall|i: int| 0 <= i < g.nodes@.len() ==> #[trigger] targets@[i] == target_type(*g, live@, infos@, kinds@, i),
    ensures
        r is Some == edge_cast(*g, live@, infos@, kinds@, j as int) is Some,
        r is Some ==> (r->0).0 == edge_cast(*g, live@, infos@, kinds@, j as int)->0
            && (r->0).1 == target_type(*g, live@, infos@, kinds@, g.edges@[j as int].from as int)->0,
{
    let e = g.edges[j];
    proof {
        assert(e.from < g.nodes@.len());
        assert(cast_defined_at(*g, live@, infos@, kinds@, j as int));
    }
    match targets[e.from] {
        Some(t) => {
            proof {
                assert(live@[e.from as int]);
                assert(vals_typed(infos@[e.to as int]));
                assert(infos@[e.to as int].vals@[e.out_i as int].typ <= 1);
            }
            let d = CompType::from_info(&infos[e.to].vals[e.out_i]);
            if d != t {
                match Cast::from_types(&d, &t) {
                    Some(c) => Some((c, t)),
                    None => None,
                }
            } else {
                None
            }
        },
        None => None,
    }
}

proof fn lemma_casts_placed_skip<V: Clone>(g: DataGraph, live: Seq<bool>, infos: Seq<NodeInfo<V>>, kinds: Seq<PrimKind>,
    casts: Seq<CompNode<V>>, j: int)
    requires
        casts_placed(g, live, infos, kinds, casts, j),
        edge_cast(g, live, infos, kinds, j) is None,
    ensures
        casts_placed(g, live, infos, kinds, casts, j + 1),
{
}

proof fn lemma_casts_placed_push<V: Clone>(g: DataGraph, live: Seq<bool>, infos: Seq<NodeInfo<V>>, kinds: Seq<PrimKind>,
    casts: Seq<CompNode<V>>, j: int, c: CompNode<V>)
    requires
        0 <= j,
        casts_placed(g, live, infos, kinds, casts, j),
        casts.len() == cast_count(g, live, infos, kinds, j),
        edge_cast(g, live, infos, kinds, j) is Some,
        ({
            let e = g.edges@[j];
            &&& c.op == Op::Impl(Impl::Cast(edge_cast(g, live, infos, kinds, j)->0), g.nodes@[e.from as int]->Node_0)
            &&& c.info.vals@.len() == 1
            &&& val_copied(infos[e.to as int].vals@[e.out_i as int], c.info.vals@[0])
            &&& c.info.subfunc_idxs@.len() == 0
            &&& c.types@ == seq![target_type(g, live, infos, kinds, e.from as int)->0]
        }),
    ensures
        casts_placed(g, live, infos, kinds, casts.push(c), j + 1),
{
    assert forall|q: int| 0 <= q < j && (#[trigger] edge_cast(g, live, infos, kinds, q)) is Some
        implies cast_count(g, live, infos, kinds, q) < casts.len() by {
        lemma_cast_count_mono(g, live, infos, kinds, q, j);
    }
}

/// The edges with the conversion nodes put on them: the edges, the edges from the
/// conversion nodes, and the conversion nodes.
fn place_casts<V: Clone>(g: &DataGraph, live: &Vec<bool>, infos: &Vec<NodeInfo<V>>, kinds: &Vec<PrimKind>)
    -> (r: (Vec<Edge>, Vec<Edge>, Vec<CompNode<V>>))
    requires
        can_prepare(*g, live@, infos@, kinds@),
    ensures
        r.0@ == Seq::new(g.edges@.len(), |q: int| cast_edge_in(*g, live@, infos@, kinds@, q)),
        r.1@ == cast_links(*g, live@, infos@, kinds@, g.edges@.len() as int),
        r.2@.len() == cast_count(*g, live@, infos@, kinds@, g.edges@.len() as int),
        r.2@.len() <= g.edges@.len(),
        forall|q: int| 0 <= q < r.2@.len() ==> (#[trigger] r.2@[q]).op is Impl,
        casts_placed(*g, live@, infos@, kinds@, r.2@, g.edges@.len() as int),
{
    let ghost gl = live@;
    let ghost gi = infos@;
    let ghost gk = kinds@;
    let n = g.nodes.len();
    let targets = arg_targets(g, live, infos, kinds);
    let mut edges: Vec<Edge> = Vec::new();
    let mut links: Vec<Edge> = Vec::new();
    let mut casts: Vec<CompNode<V>> = Vec::new();
    let mut j: usize = 0;
    while j < g.edges.len()
        invariant
            j <= g.edges@.len(),
            n == g.nodes@.len(),
            gl == live@,
            gi == infos@,
            gk == kinds@,
            can_prepare(*g, gl, gi, gk),
            targets@.len() == n,
            forall|i: int| 0 <= i < n ==> #[trigger] targets@[i] == target_type(*g, gl, gi, gk, i),
            casts@.len() == cast_count(*g, gl, gi, gk, j as int),
            cast_count(*g, gl, gi, gk, j as int) <= j,
            edges@ == Seq::new(j as nat, |q: int| cast_edge_in(*g, gl, gi, gk, q)),
            links@ == cast_links(*g, gl, gi, gk, j as int),
            forall|q: int| 0 <= q < casts@.len() ==> (#[trigger] casts@[q]).op is Impl,
            casts_placed(*g, gl, gi, gk, casts@, j as int),
        decreases g.edges@.len() - j,
    {
        let e = g.edges[j];
        let conv = edge_conversion(g, live, infos, kinds, &targets, j);
        proof {
            lemma_cast_count_mono(*g, gl, gi, gk, j as int, j + 1);
        }
        let ghost before = casts@;
        match conv {
            Some((c, t)) => {
                let slot = n + casts.len();
                let id: usize = match g.nodes[e.from] {
                    Data::Node(id) => id,
                    Data::Arg(_) => 0,
                };
                let mut vals: Vec<ValInfo<V>> = Vec::new();
                vals.push(copy_val(&infos[e.to].vals[e.out_i]));
                let mut types: Vec<CompType> = Vec::new();
                types.push(t);
                let node = CompNode { op: Op::Impl(Impl::Cast(c), id), info: NodeInfo { vals, subfunc_idxs: Vec::new() }, types };
                proof {
                    assert(types@ =~= seq![t]);
                    lemma_casts_placed_push(*g, gl, gi, gk, before, j as int, node);
                }
                casts.push(node);
                edges.push(Edge { from: e.from, to: slot, out_i: 0, in_i: e.in_i });
                links.push(Edge { from: slot, to: e.to, out_i: e.out_i, in_i: 0 });
            },
            None => {
                proof {
                    lemma_casts_placed_skip(*g, gl, gi, gk, before, j as int);
                }
                edges.push(e);
            },
        }
        proof {
            assert(edges@ =~= Seq::new((j + 1) as nat, |q: int| cast_edge_in(*g, gl, gi, gk, q)));
        }
        j += 1;
    }
    (edges, links, casts)
}

/// The nodes of the data graph as prepared nodes.
fn data_nodes<V: Clone>(g: &DataGraph, live: &Vec<bool>, infos: &Vec<NodeInfo<V>>, kinds: &Vec<PrimKind>)
    -> (r: Vec<CompNode<V>>)
    requires
        can_prepare(*g, live@, infos@, kinds@),
    ensures
        r@.len() == g.nodes@.len(),
        forall|q: int| 0 <= q < g.nodes@.len() ==> (#[trigger] r@[q]).op == Op::Data(g.nodes@[q])
            && info_copied(infos@[q], r@[q].info)
            && r@[q].types@ == (if live@[q] { infos@[q].vals@.map_values(|v: ValInfo<V>| val_type(v)) } else { Seq::empty() }),
{
    let n = g.nodes.len();
    let mut nodes: Vec<CompNode<V>> = Vec::new();
    let mut i: usize = 0;
    while i < n
        invariant
            i <= n,
            n == g.nodes@.len(),
            can_prepare(*g, live@, infos@, kinds@),
            nodes@.len() == i,
            forall|q: int| 0 <= q < i ==> (#[trigger] nodes@[q]).op == Op::Data(g.nodes@[q])
                && info_copied(infos@[q], nodes@[q].info)
                && nodes@[q].types@ == (if live@[q] { infos@[q].vals@.map_values(|v: ValInfo<V>| val_type(v)) } else { Seq::empty() }),
        decreases n - i,
    {
        let types = if live[i] {
            proof {
                assert(vals_typed(infos@[i as int]));
            }
            types_of(&infos[i])
        } else {
            Vec::new()
        };
        nodes.push(CompNode { op: Op::Data(g.nodes[i]), info: copy_info(&infos[i]), types });
        i += 1;
    }
    nodes
}

/// The kept nodes, then `extra` more, all kept.
fn alive_mask(live: &Vec<bool>, extra: usize) -> (r: Vec<bool>)
    ensures
        r@ == live@ + Seq::new(extra as nat, |x: int| true),
{
    let mut alive: Vec<bool> = Vec::new();
    let mut i: usize = 0;
    while i < live.len()
        invariant
            i <= live@.len(),
            alive@ == live@.take(i as int),
        decreases live@.len() - i,
    {
        alive.push(live[i]);
        proof {
            assert(alive@ =~= live@.take(i + 1));
        }
        i += 1;
    }
    proof {
        assert(live@.take(live@.len() as int) =~= live@);
    }
    let ghost la = alive@;
    let mut k: usize = 0;
    while k < extra
        invariant
            k <= extra,
            alive@ == la + Seq::new(k as nat, |x: int| true),
        decreases extra - k,
    {
        alive.push(true);
        proof {
            assert(alive@ =~= la + Seq::new((k + 1) as nat, |x: int| true));
        }
        k += 1;
    }
    alive
}

fn copy_entries(v: &Vec<(usize, usize)>) -> (r: Vec<(usize, usize)>)
    ensures
        r@ == v@,
{
    let mut out: Vec<(usize, usize)> = Vec::new();
    let mut q: usize = 0;
    while q < v.len()
        invariant
            q <= v@.len(),
            out@ == v@.take(q as int),
        decreases v@.len() - q,
    {
        out.push(v[q]);
        proof {
            assert(out@ =~= v@.take(q + 1));
        }
        q += 1;
    }
    proof {
        assert(v@.take(v@.len() as int) =~= v@);
    }
    out
}

/// The edges from the conversion nodes go from after the nodes to a node.
proof fn lemma_cast_links_bounds<V>(g: DataGraph, live: Seq<bool>, infos: Seq<NodeInfo<V>>, kinds: Seq<PrimKind>, k: int)
    requires
        g.wf(),
        0 <= k <= g.edges@.len(),
        g.nodes@.len() + g.edges@.len() <= usize::MAX,
    ensures
        cast_links(g, live, infos, kinds, k).len() == cast_count(g, live, infos, kinds, k),
        forall|q: int| 0 <= q < cast_links(g, live, infos, kinds, k).len() ==> {
            let l = #[trigger] cast_links(g, live, infos, kinds, k)[q];
            &&& g.nodes@.len() <= l.from < g.nodes@.len() + cast_count(g, live, infos, kinds, k)
            &&& l.to < g.nodes@.len()
        },
    decreases k,
{
    if k > 0 {
        lemma_cast_links_bounds(g, live, infos, kinds, k - 1);
        lemma_cast_count_mono(g, live, infos, kinds, 0, k - 1);
        assert(g.edges@[k - 1].to < g.edges@[k - 1].from);
    }
}

/// Prepare a data graph for compilation (see `prepared`). `live` marks the nodes kept,
/// `infos` holds the analysis of each node, and `kinds` the kind of each program
/// operation.
pub fn prepare_nodes<V: Clone>(g: &DataGraph, live: &Vec<bool>, infos: &Vec<NodeInfo<V>>, kinds: &Vec<PrimKind>)
    -> (r: PreCompileGraph<V>)
    requires
        can_prepare(*g, live@, infos@, kinds@),
    ensures
        r.wf(),
        prepared(*g, live@, infos@, kinds@, r),
{
    let ghost ne = g.edges@.len() as int;
    let (mut edges, mut links, mut casts) = place_casts(g, live, infos, kinds);
    let mut nodes = data_nodes(g, live, infos, kinds);
    let n = nodes.len();
    let cn = casts.len();
    let ghost c = casts@;
    let ghost d = nodes@;
    nodes.append(&mut casts);
    let ghost mapped = edges@;
    edges.append(&mut links);
    let alive = alive_mask(live, cn);
    let stack = copy_entries(&g.stack);
    proof {
        lemma_cast_links_bounds(*g, live@, infos@, kinds@, ne);
        assert forall|q: int| 0 <= q < ne && (#[trigger] edge_cast(*g, live@, infos@, kinds@, q)) is Some
            implies cast_count(*g, live@, infos@, kinds@, q) < c.len() by {
            lemma_cast_count_mono(*g, live@, infos@, kinds@, q, ne);
        }
        assert forall|q: int| 0 <= q < ne implies (#[trigger] mapped[q]).from < n + cn && mapped[q].to < n + cn by {
            let e = g.edges@[q];
            assert(e.to < e.from && e.from < n);
            if edge_cast(*g, live@, infos@, kinds@, q) is Some {
                lemma_cast_count_mono(*g, live@, infos@, kinds@, q, ne);
            }
        }
        assert forall|q: int| 0 <= q < edges@.len() implies (#[trigger] edges@[q]).from < n + cn && edges@[q].to < n + cn by {
            if q < ne {
                assert(edges@[q] == mapped[q]);
            } else {
                assert(edges@[q] == cast_links(*g, live@, infos@, kinds@, ne)[q - ne]);
            }
        }
        assert forall|q: int| 0 <= q < ne && (#[trigger] edge_cast(*g, live@, infos@, kinds@, q)) is Some
            implies nodes@[n + cast_count(*g, live@, infos@, kinds@, q)] == c[cast_count(*g, live@, infos@, kinds@, q) as int] by {
        }
    }
    PreCompileGraph { nodes, alive, edges, stack }
}

proof fn lemma_ne_count_le(ops: Seq<Op>, alive: Seq<bool>, kinds: Seq<PrimKind>, i: int)
    requires
        0 <= i,
    ensures
        ne_count(ops, alive, kinds, i) <= i,
    decreases i,
{
    if i > 0 {
        lemma_ne_count_le(ops, alive, kinds, i - 1);
    }
}

/// Prepare a data graph for compilation: the nodes get machine types and conversions
/// (see `prepared`), then comparisons are standardized (see `standardized`) and sums and
/// products made custom operations (see `reduced`). `pure` marks the program operations
/// without effects, `subfuncs` holds the graph of each analyzed function with its kept
/// nodes, and `negate` negates a known value.
pub fn prepare_graph<V: Clone, F: Fn(V) -> V>(g: &DataGraph, live: &Vec<bool>, infos: &Vec<NodeInfo<V>>,
    kinds: &Vec<PrimKind>, pure: &Vec<bool>, subfuncs: &Vec<(DataGraph, Vec<bool>)>, negate: &F) -> (r: PreCompileGraph<V>)
    requires
        can_prepare(*g, live@, infos@, kinds@),
        3 * (g.nodes@.len() + g.edges@.len()) <= usize::MAX,
        forall|x: V| call_requires(*negate, (x,)),
        forall|i: int| 0 <= i < g.nodes@.len() && live@[i] && #[trigger] data_kind(g.nodes@, kinds@, i) == Some(PrimKind::Ne)
            ==> infos@[i].vals@.len() >= 1,
        forall|j: int| 0 <= j < g.edges@.len() && live@[(#[trigger] g.edges@[j]).from as int]
            && (data_kind(g.nodes@, kinds@, g.edges@[j].from as int) == Some(PrimKind::Lt)
                || data_kind(g.nodes@, kinds@, g.edges@[j].from as int) == Some(PrimKind::Le))
            ==> g.edges@[j].in_i <= 1,
        forall|i: int| 0 <= i < g.nodes@.len() && live@[i] && #[trigger] data_kind(g.nodes@, kinds@, i) == Some(PrimKind::Reduce)
            ==> infos@[i].subfunc_idxs@.len() >= 1 && infos@[i].subfunc_idxs@[0] < subfuncs@.len(),
        forall|k: int| 0 <= k < subfuncs@.len() ==> (#[trigger] subfuncs@[k]).0.wf(),
    ensures
        r.wf(),
        exists|p: PreCompileGraph<V>, q: PreCompileGraph<V>| prepared(*g, live@, infos@, kinds@, p)
            && #[trigger] standardized(p, q, kinds@, *negate) && reduced(q, r, kinds@, pure@, subfuncs@),
{
    let ghost n = g.nodes@.len() as int;
    let ghost ne = g.edges@.len() as int;
    let p = prepare_nodes(g, live, infos, kinds);
    let ghost gp = p;
    let ghost ops = ops_of(gp.nodes@);
    proof {
        let c = cast_count(*g, live@, infos@, kinds@, ne);
        lemma_cast_count_mono(*g, live@, infos@, kinds@, 0, ne);
        lemma_ne_count_le(ops, gp.alive@, kinds@, gp.nodes@.len() as int);
        lemma_cast_links_bounds(*g, live@, infos@, kinds@, ne);
        assert forall|i: int| 0 <= i < gp.nodes@.len() implies
            (#[trigger] ops[i]) == gp.nodes@[i].op && gp.alive@[i] == (i < n ==> live@[i])
            && (i < n ==> node_kind(ops[i], kinds@) == data_kind(g.nodes@, kinds@, i))
            && (i >= n ==> node_kind(ops[i], kinds@) is None) by {
            if i >= n {
                assert(gp.nodes@[i].op is Impl);
            }
        }
        assert forall|i: int| 0 <= i < gp.nodes@.len() && ne_at(ops, gp.alive@, kinds@, i)
            implies (#[trigger] gp.nodes@[i]).info.vals@.len() >= 1 by {
            assert(ops[i] == gp.nodes@[i].op);
            assert(i < n);
            assert(info_copied(infos@[i], gp.nodes@[i].info));
        }
        assert forall|j: int| 0 <= j < gp.edges@.len() && lt_le_at(ops, gp.alive@, kinds@, (#[trigger] gp.edges@[j]).from as int)
            implies gp.edges@[j].in_i <= 1 by {
            let f = gp.edges@[j].from as int;
            assert(ops[f] == gp.nodes@[f].op);
            if j < ne {
                assert(gp.edges@[j] == cast_edge_in(*g, live@, infos@, kinds@, j));
                assert(gp.edges@[j].from == g.edges@[j].from);
                assert(f < n);
            } else {
                assert(gp.edges@[j] == cast_links(*g, live@, infos@, kinds@, ne)[j - ne]);
                assert(f >= n);
            }
        }
    }
    let q = standardize_comparisons(p, kinds, negate);
    let ghost gq = q;
    proof {
        assert forall|i: int| 0 <= i < gq.nodes@.len() && gq.alive@[i]
            && node_kind((#[trigger] gq.nodes@[i]).op, kinds@) == Some(PrimKind::Reduce)
            implies gq.nodes@[i].info.subfunc_idxs@.len() >= 1 && gq.nodes@[i].info.subfunc_idxs@[0] < subfuncs@.len() by {
            assert(i < gp.nodes@.len());
            assert(ops[i] == gp.nodes@[i].op);
            assert(gq.alive@[i] == (gp.alive@[i] && !ne_at(ops, gp.alive@, kinds@, i)));
            assert(!lt_le_at(ops, gp.alive@, kinds@, i));
            assert(i < n);
            assert(info_copied(infos@[i], gp.nodes@[i].info));
        }
    }
    let r = reduce_sum_and_product(q, kinds, pure, subfuncs);
    proof {
        assert(prepared(*g, live@, infos@, kinds@, gp) && standardized(gp, gq, kinds@, *negate)
            && reduced(gq, r, kinds@, pure@, subfuncs@));
    }
    r
}

/// Once comparisons are standardized, no kept node is a `<`, `≤` or `≠`.
pub proof fn lemma_standardized_forms<V: Clone, F: Fn(V) -> V>(g: PreCompileGraph<V>, r: PreCompileGraph<V>,
    kinds: Seq<PrimKind>, negate: F)
    requires
        g.wf(),
        standardized(g, r, kinds, negate),
    ensures
        forall|i: int| 0 <= i < r.nodes@.len() && r.alive@[i] ==> {
            let k = node_kind((#[trigger] r.nodes@[i]).op, kinds);
            k != Some(PrimKind::Lt) && k != Some(PrimKind::Le) && k != Some(PrimKind::Ne)
        },
{
    let ops = ops_of(g.nodes@);
    let n = g.nodes@.len() as int;
    assert forall|i: int| 0 <= i < r.nodes@.len() && r.alive@[i] implies {
        let k = node_kind((#[trigger] r.nodes@[i]).op, kinds);
        k != Some(PrimKind::Lt) && k != Some(PrimKind::Le) && k != Some(PrimKind::Ne)
    } by {
        if i < n {
            assert(ops[i] == g.nodes@[i].op);
            assert(r.alive@[i] == (g.alive@[i] && !ne_at(ops, g.alive@, kinds, i)));
        } else {
            assert(r.nodes@[i].op is Prim);
        }
    }
}

/// After preparation, each input of a kept arithmetic node or comparison has the type
/// that the node converts its arguments to, or one with the same representation (no
/// conversion between them).
pub proof fn lemma_inputs_converted<V: Clone>(g: DataGraph, live: Seq<bool>, infos: Seq<NodeInfo<V>>, kinds: Seq<PrimKind>,
    p: PreCompileGraph<V>)
    requires
        can_prepare(g, live, infos, kinds),
        prepared(g, live, infos, kinds, p),
    ensures
        forall|j: int| 0 <= j < g.edges@.len() && (#[trigger] target_type(g, live, infos, kinds, g.edges@[j].from as int)) is Some
            ==> {
            let t = target_type(g, live, infos, kinds, g.edges@[j].from as int)->0;
            let e = p.edges@[j];
            let u = p.nodes@[e.to as int].types@[e.out_i as int];
            &&& e.from == g.edges@[j].from
            &&& e.in_i == g.edges@[j].in_i
            &&& (u == t || (Cast::defined(u, t) && Cast::spec_from_types(u, t) is None))
        },
{
    let n = g.nodes@.len() as int;
    let ne = g.edges@.len() as int;
    assert forall|j: int| 0 <= j < ne && (#[trigger] target_type(g, live, infos, kinds, g.edges@[j].from as int)) is Some
        implies {
        let t = target_type(g, live, infos, kinds, g.edges@[j].from as int)->0;
        let e = p.edges@[j];
        let u = p.nodes@[e.to as int].types@[e.out_i as int];
        &&& e.from == g.edges@[j].from
        &&& e.in_i == g.edges@[j].in_i
        &&& (u == t || (Cast::defined(u, t) && Cast::spec_from_types(u, t) is None))
    } by {
        let d = g.edges@[j];
        assert(p.edges@[j] == cast_edge_in(g, live, infos, kinds, j));
        assert(cast_defined_at(g, live, infos, kinds, j));
        assert(live[d.from as int]);
        if edge_cast(g, live, infos, kinds, j) is Some {
            lemma_cast_count_mono(g, live, infos, kinds, 0, ne);
            lemma_cast_count_mono(g, live, infos, kinds, j, ne);
            assert(p.edges@[j].to == n + cast_count(g, live, infos, kinds, j));
        } else {
            assert(p.edges@[j] == d);
            assert(d.to < d.from && d.from < n);
            assert(p.nodes@[d.to as int].types@ == infos[d.to as int].vals@.map_values(|v: ValInfo<V>| val_type(v)));
        }
    }
}

} // verus!
