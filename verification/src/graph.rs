//! The tacit flow of data through a program, as a graph built by simulating its stack.

use vstd::prelude::*;

verus! {

/// A function's signature: how many values it takes from the stack and gives back.
#[derive(Clone, Copy, Debug, PartialEq, Eq, Structural)]
pub struct Sig {
    pub args: usize,
    pub outputs: usize,
}

/// Which end of the arguments a sided modifier repeats.
#[derive(Clone, Copy, Debug, PartialEq, Eq, Structural)]
pub enum SubSide {
    Left,
    Right,
}

/// The modifiers that take exactly one function.
#[derive(Clone, Copy, Debug, PartialEq, Eq, Structural)]
pub enum Modifier {
    On,
    Off,
    With,
    Dip,
    Below,
    Both,
}

/// A program node with the signature that was inferred for it (`None` if none could be).
pub struct SigNode {
    pub sig: Option<Sig>,
    pub node: Node,
}

/// What building a data graph needs to know of a program node: the stack manipulations,
/// the modifiers that route values to their functions, and any other operation, known
/// by the index of its node in the program.
pub enum Node {
    /// A custom inverse, with its normal form if there is one.
    CustomInverse(Option<Box<SigNode>>),
    PushUnder(usize),
    CopyToUnder(usize),
    PopUnder(usize),
    Identity,
    Pop,
    Flip,
    /// A modifier that takes one function.
    Mod(Modifier, Vec<SigNode>),
    /// Dip below `n` values.
    DipN(usize, Vec<SigNode>),
    Fork(Vec<SigNode>),
    Bracket(Vec<SigNode>),
    /// `both` with a count (2 if absent) and optionally a side with a number of
    /// repeated values (1 if absent).
    BothImpl { num: Option<u8>, side: Option<(SubSide, Option<u8>)>, funcs: Vec<SigNode> },
    Run(Vec<SigNode>),
    /// Any other operation: a node of the graph.
    Op(usize),
}

/// A node of the data graph: a program operation, or an argument of the function.
#[derive(Clone, Copy, Debug, PartialEq, Eq, Structural)]
pub enum Data {
    Node(usize),
    Arg(usize),
}

/// An edge from a node to the node whose output `out_i` it takes as input `in_i`.
#[derive(Clone, Copy, Debug, PartialEq, Eq, Structural)]
pub struct Edge {
    pub from: usize,
    pub to: usize,
    pub out_i: usize,
    pub in_i: usize,
}

/// Why a data graph could not be built.
#[derive(Clone, Copy, Debug, PartialEq, Eq, Structural)]
pub enum GraphError {
    /// A node's signature could not be inferred.
    NoSignature,
    /// A custom inverse without a normal form.
    NoInverse,
    /// A modifier got this many functions instead of one.
    FuncCount(Modifier, usize),
    /// The stack held fewer values than an operation needed.
    TooFewArguments,
}

/// The data graph of a function: its nodes and edges, the values on the stack and on the
/// under-stack (each a node and which of its outputs), and the number of arguments.
pub struct DataGraph {
    pub nodes: Vec<Data>,
    pub edges: Vec<Edge>,
    pub stack: Vec<(usize, usize)>,
    pub under_stack: Vec<(usize, usize)>,
    pub arg_count: usize,
}

/// What processing a node does to the sizes of the stacks: fails with an error, would
/// go wrong (an operation past the end of a stack), or gives the new sizes of the stack
/// and the under-stack and the number of nodes added.
pub enum Effect {
    Fails(GraphError),
    Wrong,
    Sizes(nat, nat, nat),
}

/// The effect of a node that works on a stack of `sl` values and an under-stack of `ul`:
/// argument nodes are first added below the stack until it holds the node's arguments.
pub open spec fn effect(sl: nat, ul: nat, n: SigNode) -> Effect
    decreases n, 1nat,
{
    match n.sig {
        None => Effect::Fails(GraphError::NoSignature),
        Some(sig) => {
            let added = if sig.args > sl { (sig.args - sl) as nat } else { 0nat };
            then_add(body_effect(sl + added, ul, sig, n), added)
        },
    }
}

/// The effect of a node once its arguments are on the stack.
pub open spec fn body_effect(s: nat, ul: nat, sig: Sig, n: SigNode) -> Effect
    decreases n, 0nat,
{
    match n.node {
        Node::CustomInverse(normal) => match normal {
            Some(f) => effect(s, ul, *f),
            None => Effect::Fails(GraphError::NoInverse),
        },
        Node::PushUnder(k) => if k <= s { Effect::Sizes((s - k) as nat, ul + k as nat, 0) } else { Effect::Wrong },
        Node::CopyToUnder(k) => if k <= s { Effect::Sizes(s, ul + k as nat, 0) } else { Effect::Wrong },
        Node::PopUnder(k) => if k <= ul { Effect::Sizes(s + k as nat, (ul - k) as nat, 0) } else { Effect::Wrong },
        Node::Identity => Effect::Sizes(s, ul, 0),
        Node::Pop => Effect::Sizes(if s > 0 { (s - 1) as nat } else { 0 }, ul, 0),
        Node::Flip => if s >= 2 { Effect::Sizes(s, ul, 0) } else { Effect::Wrong },
        Node::Mod(m, funcs) => mod_effect(s, ul, sig, m, funcs@),
        Node::DipN(k, funcs) => dipn_effect(s, ul, k, funcs@),
        Node::Fork(funcs) => effect_fork((s - sig.args) as nat, ul, funcs@, sig.args as nat),
        Node::Bracket(funcs) => effect_bracket((s - sig.args) as nat, ul, funcs@, sig.args as nat),
        Node::BothImpl { num, side, funcs } => both_impl_effect(s, ul, num, side, funcs@),
        Node::Run(nodes) => effect_run(s, ul, nodes@),
        Node::Op(_) => Effect::Sizes((s - sig.args + sig.outputs) as nat, ul, 1),
    }
}

/// The error of a modifier that takes one function but was given another number of
/// functions, if `n` is such a node.
pub open spec fn func_count_error(n: Node) -> Option<GraphError> {
    match n {
        Node::Mod(m, funcs) => if funcs@.len() != 1 { Some(GraphError::FuncCount(m, funcs@.len() as usize)) } else { None },
        Node::DipN(_, funcs) => if funcs@.len() != 1 {
            Some(GraphError::FuncCount(Modifier::Dip, funcs@.len() as usize))
        } else {
            None
        },
        Node::BothImpl { funcs, .. } => if funcs@.len() != 1 {
            Some(GraphError::FuncCount(Modifier::Both, funcs@.len() as usize))
        } else {
            None
        },
        _ => None,
    }
}

/// The effect of a modifier that takes one function.
pub open spec fn mod_effect(s: nat, ul: nat, sig: Sig, m: Modifier, funcs: Seq<SigNode>) -> Effect
    decreases funcs, 0nat,
{
    if funcs.len() != 1 {
        Effect::Fails(GraphError::FuncCount(m, funcs.len() as usize))
    } else {
        let f = funcs[0];
        match f.sig {
            None => Effect::Fails(GraphError::NoSignature),
            Some(fs) => match m {
                Modifier::On => if s == 0 { Effect::Fails(GraphError::TooFewArguments) } else { then_push(effect(s, ul, f), 1) },
                Modifier::Off => if s == 0 { Effect::Fails(GraphError::TooFewArguments) } else if fs.args > s { Effect::Wrong } else {
                    effect(s + 1, ul, f)
                },
                Modifier::With => if fs.args > s { Effect::Fails(GraphError::TooFewArguments) } else if fs.args == 0 { Effect::Wrong } else {
                    then_push(effect(s, ul, f), 1)
                },
                Modifier::Dip => if s == 0 { Effect::Fails(GraphError::TooFewArguments) } else { then_push(effect((s - 1) as nat, ul, f), 1) },
                Modifier::Below => effect(s + sig.args as nat, ul, f),
                Modifier::Both => if fs.args > s { Effect::Wrong } else {
                    both_twice(effect((s - fs.args) as nat, ul, f), fs.args as nat, f)
                },
            },
        }
    }
}

/// The effect of dipping below `k` values.
pub open spec fn dipn_effect(s: nat, ul: nat, k: usize, funcs: Seq<SigNode>) -> Effect
    decreases funcs, 0nat,
{
    if funcs.len() != 1 {
        Effect::Fails(GraphError::FuncCount(Modifier::Dip, funcs.len() as usize))
    } else if k > s {
        Effect::Wrong
    } else {
        then_push(effect((s - k) as nat, ul, funcs[0]), k as nat)
    }
}

/// The effect of `both` with a count and a side: the repeated values are taken out
/// (from the top, or from below the arguments on the right), then the function is
/// applied `count` times, each time to its arguments and the repeated values.
pub open spec fn both_impl_effect(s: nat, ul: nat, num: Option<u8>, side: Option<(SubSide, Option<u8>)>, funcs: Seq<SigNode>) -> Effect
    decreases funcs, 0nat,
{
    if funcs.len() != 1 {
        Effect::Fails(GraphError::FuncCount(Modifier::Both, funcs.len() as usize))
    } else {
        let f = funcs[0];
        match f.sig {
            None => Effect::Fails(GraphError::NoSignature),
            Some(fs) => {
                let args: nat = if fs.args >= 1 { fs.args as nat } else { 1 };
                let count: nat = match num { Some(c) => c as nat, None => 2 };
                let (right, rep): (bool, nat) = match side {
                    Some((sd, k)) => (sd == SubSide::Right, match k { Some(x) => x as nat, None => 1 }),
                    None => (false, 0),
                };
                if rep > args {
                    Effect::Wrong
                } else if right && (args - rep) * args + rep > s {
                    Effect::Wrong
                } else if !right && rep > s {
                    Effect::Wrong
                } else if (args - rep) * count > s - rep {
                    Effect::Wrong
                } else {
                    effect_times((s - rep - (args - rep) * count) as nat, ul, f, count, args)
                }
            },
        }
    }
}

/// The effect, with `k` more nodes counted as added.
pub open spec fn then_add(e: Effect, k: nat) -> Effect {
    match e {
        Effect::Sizes(s, u, a) => Effect::Sizes(s, u, a + k),
        other => other,
    }
}

/// The effect, with `k` values pushed back on the stack afterwards.
pub open spec fn then_push(e: Effect, k: nat) -> Effect {
    match e {
        Effect::Sizes(s, u, a) => Effect::Sizes(s + k, u, a),
        other => other,
    }
}

/// `both`: after the first application, the saved `k` values go back and the function
/// is applied again.
pub open spec fn both_twice(e: Effect, k: nat, f: SigNode) -> Effect
    decreases f, 2nat,
{
    match e {
        Effect::Sizes(s, u, a) => then_add(effect(s + k, u, f), a),
        other => other,
    }
}

/// The nodes one after the other.
pub open spec fn effect_run(sl: nat, ul: nat, ns: Seq<SigNode>) -> Effect
    decreases ns, 0nat,
{
    if ns.len() == 0 {
        Effect::Sizes(sl, ul, 0)
    } else {
        match effect_run(sl, ul, ns.drop_last()) {
            Effect::Sizes(s, u, a) => then_add(effect(s, u, ns.last()), a),
            other => other,
        }
    }
}

/// `fork`: from the last function to the first, each gets its arguments from the
/// `reused` values.
pub open spec fn effect_fork(sl: nat, ul: nat, funcs: Seq<SigNode>, reused: nat) -> Effect
    decreases funcs, 0nat,
{
    if funcs.len() == 0 {
        Effect::Sizes(sl, ul, 0)
    } else {
        let f = funcs.last();
        match f.sig {
            None => Effect::Wrong,
            Some(fs) => if fs.args > reused {
                Effect::Wrong
            } else {
                match effect(sl + fs.args as nat, ul, f) {
                    Effect::Sizes(s, u, a) => then_add(effect_fork(s, u, funcs.drop_last(), reused), a),
                    other => other,
                }
            },
        }
    }
}

/// `bracket`: from the last function to the first, each takes its arguments from the
/// `remaining` values in turn.
pub open spec fn effect_bracket(sl: nat, ul: nat, funcs: Seq<SigNode>, remaining: nat) -> Effect
    decreases funcs, 0nat,
{
    if funcs.len() == 0 {
        Effect::Sizes(sl, ul, 0)
    } else {
        let f = funcs.last();
        match f.sig {
            None => Effect::Wrong,
            Some(fs) => if fs.args > remaining {
                Effect::Wrong
            } else {
                match effect(sl + fs.args as nat, ul, f) {
                    Effect::Sizes(s, u, a) => then_add(effect_bracket(s, u, funcs.drop_last(), (remaining - fs.args) as nat), a),
                    other => other,
                }
            },
        }
    }
}

/// The function applied `count` times, each time after `args` values are pushed.
pub open spec fn effect_times(sl: nat, ul: nat, f: SigNode, count: nat, args: nat) -> Effect
    decreases f, count + 2,
{
    if count == 0 {
        Effect::Sizes(sl, ul, 0)
    } else {
        match effect(sl + args, ul, f) {
            Effect::Sizes(s, u, a) => then_add(effect_times(s, u, f, (count - 1) as nat, args), a),
            other => other,
        }
    }
}

/// A data graph as mathematical values: nodes, edges, stack, under-stack and the
/// number of arguments.
pub struct GraphV {
    pub nodes: Seq<Data>,
    pub edges: Seq<Edge>,
    pub stack: Seq<(usize, usize)>,
    pub under: Seq<(usize, usize)>,
    pub args: usize,
}

impl View for DataGraph {
    type V = GraphV;

    open spec fn view(&self) -> GraphV {
        GraphV {
            nodes: self.nodes@,
            edges: self.edges@,
            stack: self.stack@,
            under: self.under_stack@,
            args: self.arg_count,
        }
    }
}

/// The graph with nothing in it.
pub open spec fn empty_graph() -> GraphV {
    GraphV { nodes: Seq::empty(), edges: Seq::empty(), stack: Seq::empty(), under: Seq::empty(), args: 0 }
}

/// The roots of a graph: the nodes of operations that `mutating` marks, in order, then
/// the nodes of the values on the stack.
pub open spec fn graph_roots(g: GraphV, mutating: Seq<bool>) -> Seq<usize> {
    mutating_nodes(g.nodes, mutating, g.nodes.len() as int) + g.stack.map_values(|e: (usize, usize)| e.0)
}

/// The graph with another stack.
pub open spec fn with_stack(g: GraphV, s: Seq<(usize, usize)>) -> GraphV {
    GraphV { stack: s, ..g }
}

/// Argument nodes added below the stack until it holds `min` values, the deepest one
/// added last and numbered last.
pub open spec fn spec_extend(g: GraphV, min: nat) -> GraphV {
    if min > g.stack.len() {
        let k = (min - g.stack.len()) as nat;
        let n0 = g.nodes.len();
        GraphV {
            nodes: g.nodes + Seq::new(k, |j: int| Data::Arg((g.args + j) as usize)),
            stack: Seq::new(k, |j: int| ((n0 + k - 1 - j) as usize, 0usize)) + g.stack,
            args: (g.args + k) as usize,
            ..g
        }
    } else {
        g
    }
}

/// A new node for operation `id`: one edge to each of the top `sig.args` values (the
/// top one as input 0), which it replaces on the stack by its outputs (output 0 on top).
pub open spec fn spec_add_op(g: GraphV, id: usize, sig: Sig) -> GraphV {
    let new = g.nodes.len();
    let s = g.stack.len();
    let a = sig.args as int;
    let args = g.stack.skip(s - a);
    GraphV {
        nodes: g.nodes.push(Data::Node(id)),
        edges: g.edges + Seq::new(sig.args as nat, |j: int| Edge {
            from: new as usize,
            to: args[a - 1 - j].0,
            out_i: args[a - 1 - j].1,
            in_i: j as usize,
        }),
        stack: g.stack.take(s - a) + Seq::new(sig.outputs as nat, |j: int| (new as usize, (sig.outputs - 1 - j) as usize)),
        ..g
    }
}

/// The graph after simulating `n` on the stacks, where the simulation succeeds (its
/// effect gives sizes): argument nodes are first added below the stack for the node's
/// arguments.
pub open spec fn sim(g: GraphV, n: SigNode) -> GraphV
    decreases n, 1nat,
{
    match n.sig {
        None => g,
        Some(sig) => sim_body(spec_extend(g, sig.args as nat), sig, n),
    }
}

/// The graph after the body of `n`, its arguments being on the stack.
pub open spec fn sim_body(g: GraphV, sig: Sig, n: SigNode) -> GraphV
    decreases n, 0nat,
{
    let s = g.stack.len();
    match n.node {
        Node::CustomInverse(normal) => match normal {
            Some(f) => sim(g, *f),
            None => g,
        },
        Node::PushUnder(k) => GraphV { stack: g.stack.take(s - k), under: g.under + g.stack.skip(s - k).reverse(), ..g },
        Node::CopyToUnder(k) => GraphV { under: g.under + g.stack.skip(s - k).reverse(), ..g },
        Node::PopUnder(k) => GraphV {
            stack: g.stack + g.under.skip(g.under.len() - k).reverse(),
            under: g.under.take(g.under.len() - k),
            ..g
        },
        Node::Identity => g,
        Node::Pop => with_stack(g, if s > 0 { g.stack.drop_last() } else { g.stack }),
        Node::Flip => with_stack(g, g.stack.take(s - 2).push(g.stack[s - 1]).push(g.stack[s - 2])),
        Node::Mod(m, funcs) => sim_mod(g, sig, m, funcs@),
        Node::DipN(k, funcs) => sim_dipn(g, k, funcs@),
        Node::Fork(funcs) => sim_fork(with_stack(g, g.stack.take(s - sig.args)), funcs@, g.stack.skip(s - sig.args)),
        Node::Bracket(funcs) => sim_bracket(with_stack(g, g.stack.take(s - sig.args)), funcs@,
            g.stack.skip(s - sig.args).reverse()),
        Node::BothImpl { num, side, funcs } => sim_both_impl(g, num, side, funcs@),
        Node::Run(nodes) => sim_run(g, nodes@),
        Node::Op(id) => spec_add_op(g, id, sig),
    }
}

/// A modifier with its one function `f`: `on` and `with` push back the top value (or
/// the value below the function's arguments) afterwards, `off` inserts the top value
/// below the function's arguments first, `dip` sets the top value aside, `below` pushes
/// copies of the node's arguments, and `both` applies the function to the values below
/// its arguments, then to its arguments.
pub open spec fn sim_mod(g: GraphV, sig: Sig, m: Modifier, funcs: Seq<SigNode>) -> GraphV
    decreases funcs, 0nat,
{
    if funcs.len() != 1 || funcs[0].sig is None {
        g
    } else {
        let f = funcs[0];
        let fa = f.sig->0.args as int;
        let s = g.stack.len();
        match m {
            Modifier::On => {
                let g1 = sim(g, f);
                with_stack(g1, g1.stack.push(g.stack.last()))
            },
            Modifier::Off => sim(with_stack(g, g.stack.insert(s - fa, g.stack.last())), f),
            Modifier::With => {
                let g1 = sim(g, f);
                with_stack(g1, g1.stack.push(g.stack[s - fa]))
            },
            Modifier::Dip => {
                let g1 = sim(with_stack(g, g.stack.drop_last()), f);
                with_stack(g1, g1.stack.push(g.stack.last()))
            },
            Modifier::Below => sim(with_stack(g, g.stack + g.stack.skip(s - sig.args)), f),
            Modifier::Both => {
                let g1 = sim(with_stack(g, g.stack.take(s - fa)), f);
                sim(with_stack(g1, g1.stack + g.stack.skip(s - fa)), f)
            },
        }
    }
}

/// `dip` below `k` values.
pub open spec fn sim_dipn(g: GraphV, k: usize, funcs: Seq<SigNode>) -> GraphV
    decreases funcs, 0nat,
{
    if funcs.len() != 1 {
        g
    } else {
        let s = g.stack.len();
        let g1 = sim(with_stack(g, g.stack.take(s - k)), funcs[0]);
        with_stack(g1, g1.stack + g.stack.skip(s - k))
    }
}

/// `fork`: from the last function to the first, each on copies of the top values of
/// `reused` that it takes.
pub open spec fn sim_fork(g: GraphV, funcs: Seq<SigNode>, reused: Seq<(usize, usize)>) -> GraphV
    decreases funcs, 0nat,
{
    if funcs.len() == 0 {
        g
    } else {
        let f = funcs.last();
        let fa = sig_args(f.sig) as int;
        let g1 = sim(with_stack(g, g.stack + reused.skip(reused.len() - fa)), f);
        sim_fork(g1, funcs.drop_last(), reused)
    }
}

/// `bracket`: from the last function to the first, each on the next values of `args`
/// (top first) that it takes.
pub open spec fn sim_bracket(g: GraphV, funcs: Seq<SigNode>, args: Seq<(usize, usize)>) -> GraphV
    decreases funcs, 0nat,
{
    if funcs.len() == 0 {
        g
    } else {
        let f = funcs.last();
        let fa = sig_args(f.sig) as int;
        let g1 = sim(with_stack(g, g.stack + args.skip(args.len() - fa).reverse()), f);
        sim_bracket(g1, funcs.drop_last(), args.take(args.len() - fa))
    }
}

/// `both` with a count and a side (see `both_impl_effect`).
pub open spec fn sim_both_impl(g: GraphV, num: Option<u8>, side: Option<(SubSide, Option<u8>)>, funcs: Seq<SigNode>) -> GraphV
    decreases funcs, 0nat,
{
    if funcs.len() != 1 || funcs[0].sig is None {
        g
    } else {
        let f = funcs[0];
        let fs = f.sig->0;
        let args: int = if fs.args >= 1 { fs.args as int } else { 1 };
        let count: nat = match num { Some(c) => c as nat, None => 2 };
        let (right, rep): (bool, int) = match side {
            Some((sd, k)) => (sd == SubSide::Right, match k { Some(x) => x as int, None => 1 }),
            None => (false, 0),
        };
        let s = g.stack.len() as int;
        let (rest, tr) = if right {
            let end_i = s - (args - rep) * args;
            (g.stack.take(end_i - rep) + g.stack.skip(end_i), g.stack.subrange(end_i - rep, end_i))
        } else {
            (g.stack.take(s - rep), g.stack.skip(s - rep))
        };
        let n = (args - rep) * count;
        let saved = rest.skip(rest.len() - n).reverse();
        sim_times(with_stack(g, rest.take(rest.len() - n)), f, count, args as nat, rep as nat, right, tr, saved)
    }
}

/// `f` applied `count` times, each time after the next `args - rep` saved values (top
/// first) and the repeated values (below them on the right side, above on the left).
pub open spec fn sim_times(g: GraphV, f: SigNode, count: nat, args: nat, rep: nat, right: bool,
    tr: Seq<(usize, usize)>, saved: Seq<(usize, usize)>) -> GraphV
    decreases f, count + 2,
{
    if count == 0 {
        g
    } else {
        let k = args - rep;
        let st1 = if right { g.stack + tr } else { g.stack };
        let st2 = st1 + saved.skip(saved.len() - k).reverse();
        let st3 = if !right { st2 + tr } else { st2 };
        let g1 = sim(with_stack(g, st3), f);
        sim_times(g1, f, (count - 1) as nat, args, rep, right, tr, saved.take(saved.len() - k))
    }
}

/// The nodes one after the other.
pub open spec fn sim_run(g: GraphV, ns: Seq<SigNode>) -> GraphV
    decreases ns, 0nat,
{
    if ns.len() == 0 {
        g
    } else {
        sim(sim_run(g, ns.drop_last()), ns.last())
    }
}

/// The edges from each node come in the order of the inputs they feed.
pub open spec fn inputs_in_order(edges: Seq<Edge>) -> bool {
    forall|i: int, j: int| 0 <= i < j < edges.len() && (#[trigger] edges[i]).from == (#[trigger] edges[j]).from
        ==> edges[i].in_i < edges[j].in_i
}

impl DataGraph {
    /// Nodes and edges are consistent: the number of arguments at most that of nodes,
    /// every stack entry names a node, every edge goes from a node to an earlier one
    /// (so the graph has no cycle), and the edges from a node come in input order.
    pub open spec fn wf(self) -> bool {
        &&& self.arg_count <= self.nodes@.len()
        &&& forall|i: int| 0 <= i < self.stack@.len() ==> (#[trigger] self.stack@[i]).0 < self.nodes@.len()
        &&& forall|i: int| 0 <= i < self.under_stack@.len() ==> (#[trigger] self.under_stack@[i]).0 < self.nodes@.len()
        &&& forall|i: int| 0 <= i < self.edges@.len() ==> (#[trigger] self.edges@[i]).to < self.edges@[i].from
            && self.edges@[i].from < self.nodes@.len()
        &&& inputs_in_order(self.edges@)
    }

    /// The same contents.
    pub open spec fn same(self, other: DataGraph) -> bool {
        &&& self.nodes@ == other.nodes@
        &&& self.edges@ == other.edges@
        &&& self.stack@ == other.stack@
        &&& self.under_stack@ == other.under_stack@
        &&& self.arg_count == other.arg_count
    }

    /// `self` extends `before`: the nodes and edges of `before` are kept, in place.
    pub open spec fn extends(self, before: DataGraph) -> bool {
        &&& self.nodes@.len() >= before.nodes@.len()
        &&& self.nodes@.take(before.nodes@.len() as int) == before.nodes@
        &&& self.edges@.len() >= before.edges@.len()
        &&& self.edges@.take(before.edges@.len() as int) == before.edges@
        &&& self.arg_count >= before.arg_count
    }

    /// An empty graph.
    pub fn new() -> (r: Self)
        ensures
            r.wf(),
            r.nodes@.len() == 0,
            r.edges@.len() == 0,
            r.stack@.len() == 0,
            r.under_stack@.len() == 0,
            r.arg_count == 0,
            r@ == empty_graph(),
    {
        DataGraph { nodes: Vec::new(), edges: Vec::new(), stack: Vec::new(), under_stack: Vec::new(), arg_count: 0 }
    }

    /// Add argument nodes below the stack as needed for it to hold at least `min_args`
    /// values; the arguments are numbered in order, the new ones deepest.
    pub fn extend_args(&mut self, min_args: usize)
        requires
            old(self).wf(),
            old(self).nodes@.len() + (if min_args > old(self).stack@.len() { min_args - old(self).stack@.len() } else { 0 }) <= usize::MAX,
        ensures
            final(self).wf(),
            final(self).extends(*old(self)),
            final(self).edges@ == old(self).edges@,
            final(self).under_stack@ == old(self).under_stack@,
            min_args <= old(self).stack@.len() ==> final(self).same(*old(self)),
            final(self)@ == spec_extend(old(self)@, min_args as nat),
            min_args > old(self).stack@.len() ==> {
                let k = min_args - old(self).stack@.len();
                &&& final(self).stack@.len() == min_args
                &&& final(self).stack@.skip(k) == old(self).stack@
                &&& final(self).nodes@.len() == old(self).nodes@.len() + k
                &&& final(self).arg_count == old(self).arg_count + k
                &&& forall|j: int| 0 <= j < k ==> #[trigger] final(self).nodes@[old(self).nodes@.len() + j]
                    == Data::Arg((old(self).arg_count + j) as usize)
            },
    {
        let n = if min_args > self.stack.len() { min_args - self.stack.len() } else { 0 };
        let ghost s0 = self.stack@;
        let ghost n0 = self.nodes@.len();
        let ghost a0 = self.arg_count;
        let mut j: usize = 0;
        while j < n
            invariant
                j <= n,
                n0 + n <= usize::MAX,
                self.wf(),
                self.nodes@.len() == n0 + j,
                self.nodes@.take(n0 as int) == old(self).nodes@,
                self.edges@ == old(self).edges@,
                self.under_stack@ == old(self).under_stack@,
                self.arg_count == a0 + j,
                a0 == old(self).arg_count,
                n0 == old(self).nodes@.len(),
                s0 == old(self).stack@,
                self.stack@.len() == s0.len() + j,
                self.stack@.skip(j as int) == s0,
                forall|q: int| 0 <= q < j ==> #[trigger] self.nodes@[n0 + q] == Data::Arg((a0 + q) as usize),
                self.nodes@ == old(self).nodes@ + Seq::new(j as nat, |q: int| Data::Arg((a0 + q) as usize)),
                self.stack@ == Seq::new(j as nat, |q: int| ((n0 + j - 1 - q) as usize, 0usize)) + s0,
            decreases n - j,
        {
            let idx = self.nodes.len();
            self.nodes.push(Data::Arg(self.arg_count));
            self.stack.insert(0, (idx, 0));
            self.arg_count = self.arg_count + 1;
            proof {
                assert(self.nodes@.take(n0 as int) =~= old(self).nodes@);
                assert(self.stack@.skip(j + 1) =~= s0);
                assert(self.nodes@ =~= old(self).nodes@ + Seq::new((j + 1) as nat, |q: int| Data::Arg((a0 + q) as usize)));
                assert(self.stack@ =~= Seq::new((j + 1) as nat, |q: int| ((n0 + (j + 1) - 1 - q) as usize, 0usize)) + s0);
            }
            j += 1;
        }
        proof {
            if n == 0 {
                assert(self.nodes@ =~= old(self).nodes@);
                assert(self.stack@ =~= old(self).stack@);
            }
            assert(self.edges@.take(old(self).edges@.len() as int) =~= old(self).edges@);
        }
    }

    /// The top value of the stack.
    fn stack_top(&self) -> (r: Result<(usize, usize), GraphError>)
        ensures
            self.stack@.len() == 0 ==> r == Err::<(usize, usize), GraphError>(GraphError::TooFewArguments),
            self.stack@.len() > 0 ==> r == Ok::<(usize, usize), GraphError>(self.stack@.last()),
    {
        if self.stack.len() == 0 {
            Err(GraphError::TooFewArguments)
        } else {
            Ok(self.stack[self.stack.len() - 1])
        }
    }

    /// The `n`th value from the top of the stack (the top is the first).
    fn stack_n(&self, n: usize) -> (r: Result<(usize, usize), GraphError>)
        requires
            n > 0,
        ensures
            n > self.stack@.len() ==> r == Err::<(usize, usize), GraphError>(GraphError::TooFewArguments),
            0 < n <= self.stack@.len() ==> r == Ok::<(usize, usize), GraphError>(self.stack@[self.stack@.len() - n]),
    {
        if n > self.stack.len() {
            Err(GraphError::TooFewArguments)
        } else {
            Ok(self.stack[self.stack.len() - n])
        }
    }

    /// Remove and return the top value of the stack.
    fn stack_pop(&mut self) -> (r: Result<(usize, usize), GraphError>)
        ensures
            old(self).stack@.len() == 0 ==> r == Err::<(usize, usize), GraphError>(GraphError::TooFewArguments)
                && final(self).same(*old(self)),
            old(self).stack@.len() > 0 ==> r == Ok::<(usize, usize), GraphError>(old(self).stack@.last())
                && final(self).stack@ == old(self).stack@.drop_last()
                && final(self).nodes@ == old(self).nodes@ && final(self).edges@ == old(self).edges@
                && final(self).under_stack@ == old(self).under_stack@ && final(self).arg_count == old(self).arg_count,
    {
        match self.stack.pop() {
            Some(v) => Ok(v),
            None => Err(GraphError::TooFewArguments),
        }
    }
}

/// Split off the top `n` values of `stack`, in push order.
fn drain_args(stack: &mut Vec<(usize, usize)>, n: usize) -> (r: Vec<(usize, usize)>)
    requires
        n <= old(stack)@.len(),
    ensures
        final(stack)@ == old(stack)@.take(old(stack)@.len() - n),
        r@ == old(stack)@.skip(old(stack)@.len() - n),
{
    let len = stack.len();
    let r = stack.split_off(len - n);
    proof {
        assert(r@ =~= old(stack)@.skip(old(stack)@.len() - n));
        assert(stack@ =~= old(stack)@.take(old(stack)@.len() - n));
    }
    r
}

/// Push the values in reverse order.
fn push_reversed(stack: &mut Vec<(usize, usize)>, vals: &Vec<(usize, usize)>)
    ensures
        final(stack)@ == old(stack)@ + vals@.reverse(),
{
    let mut j: usize = vals.len();
    while j > 0
        invariant
            j <= vals@.len(),
            stack@ == old(stack)@ + vals@.reverse().take(vals@.len() - j),
        decreases j,
    {
        stack.push(vals[j - 1]);
        j -= 1;
        proof {
            assert(stack@ =~= old(stack)@ + vals@.reverse().take(vals@.len() - j));
        }
    }
    proof {
        assert(vals@.reverse().take(vals@.len() as int) =~= vals@.reverse());
    }
}

/// Push the values in order.
fn push_all(stack: &mut Vec<(usize, usize)>, vals: &Vec<(usize, usize)>, from: usize)
    requires
        from <= vals@.len(),
    ensures
        final(stack)@ == old(stack)@ + vals@.skip(from as int),
{
    let mut j: usize = from;
    while j < vals.len()
        invariant
            from <= j <= vals@.len(),
            stack@ == old(stack)@ + vals@.subrange(from as int, j as int),
        decreases vals@.len() - j,
    {
        stack.push(vals[j]);
        j += 1;
        proof {
            assert(stack@ =~= old(stack)@ + vals@.subrange(from as int, j as int));
        }
    }
    proof {
        assert(vals@.subrange(from as int, vals@.len() as int) =~= vals@.skip(from as int));
    }
}

/// The number of arguments of a signature, 0 where none was inferred.
pub open spec fn sig_args(sig: Option<Sig>) -> nat {
    match sig {
        Some(s) => s.args as nat,
        None => 0,
    }
}

/// A bound on the number of nodes that processing a node adds to a graph.
pub open spec fn node_bound(n: SigNode) -> nat
    decreases n, 0nat,
{
    sig_args(n.sig) + match n.node {
        Node::CustomInverse(normal) => match normal {
            Some(f) => node_bound(*f),
            None => 0,
        },
        Node::Mod(_, funcs) => if funcs@.len() == 1 { 2 * node_bound(funcs@[0]) } else { 0 },
        Node::DipN(_, funcs) => if funcs@.len() == 1 { node_bound(funcs@[0]) } else { 0 },
        Node::Fork(funcs) => bound_sum(funcs@),
        Node::Bracket(funcs) => bound_sum(funcs@),
        Node::Run(nodes) => bound_sum(nodes@),
        Node::BothImpl { num, funcs, .. } => if funcs@.len() == 1 {
            (match num { Some(c) => c as nat, None => 2 }) * node_bound(funcs@[0])
        } else {
            0
        },
        Node::Op(_) => 1,
        _ => 0,
    }
}

/// The sum of the bounds of the nodes.
pub open spec fn bound_sum(ns: Seq<SigNode>) -> nat
    decreases ns, 0nat,
{
    if ns.len() == 0 { 0 } else { bound_sum(ns.drop_last()) + node_bound(ns.last()) }
}

/// `after` is `before` once `node` was processed with result `r`: the graph stays
/// consistent, keeps what it had, grows within the node's bound, and the stacks have the
/// sizes the node's effect gives (or the processing failed, as the effect says).
pub open spec fn processed(before: DataGraph, after: DataGraph, node: SigNode, r: Result<(), GraphError>) -> bool {
    &&& after.wf()
    &&& after.extends(before)
    &&& after.nodes@.len() <= before.nodes@.len() + node_bound(node)
    &&& match effect(before.stack@.len(), before.under_stack@.len(), node) {
        Effect::Fails(e) => r == Err::<(), GraphError>(e),
        Effect::Sizes(s, u, a) => r is Ok && after.stack@.len() == s && after.under_stack@.len() == u
            && after.nodes@.len() == before.nodes@.len() + a,
        Effect::Wrong => true,
    }
}

/// What processing `node` needs: a consistent graph, a node whose effect does not go
/// wrong on these stacks, and room for the nodes it may add.
pub open spec fn can_process(g: DataGraph, node: SigNode) -> bool {
    &&& g.wf()
    &&& !(effect(g.stack@.len(), g.under_stack@.len(), node) is Wrong)
    &&& g.nodes@.len() + node_bound(node) <= usize::MAX
}

proof fn lemma_extends_trans(a: DataGraph, b: DataGraph, c: DataGraph)
    requires
        b.extends(a),
        c.extends(b),
    ensures
        c.extends(a),
{
    assert(c.nodes@.take(a.nodes@.len() as int) =~= b.nodes@.take(a.nodes@.len() as int));
    assert(c.edges@.take(a.edges@.len() as int) =~= b.edges@.take(a.edges@.len() as int));
}

proof fn lemma_extends_refl(a: DataGraph)
    ensures
        a.extends(a),
{
    assert(a.nodes@.take(a.nodes@.len() as int) =~= a.nodes@);
    assert(a.edges@.take(a.edges@.len() as int) =~= a.edges@);
}

/// The effect of the nodes run one after the other, after a leading part of them.
proof fn lemma_run_prefix(sl: nat, ul: nat, ns: Seq<SigNode>, k: int)
    requires
        0 <= k <= ns.len(),
        !(effect_run(sl, ul, ns.take(k)) is Sizes),
    ensures
        effect_run(sl, ul, ns) == effect_run(sl, ul, ns.take(k)),
    decreases ns.len() - k,
{
    if k < ns.len() {
        assert(ns.take(k + 1).drop_last() =~= ns.take(k));
        lemma_run_prefix(sl, ul, ns, k + 1);
    } else {
        assert(ns.take(k) =~= ns);
    }
}

proof fn lemma_bound_sum_prefix(ns: Seq<SigNode>, k: int)
    requires
        0 <= k <= ns.len(),
    ensures
        bound_sum(ns.take(k)) <= bound_sum(ns),
    decreases ns.len() - k,
{
    if k < ns.len() {
        assert(ns.take(k + 1).drop_last() =~= ns.take(k));
        lemma_bound_sum_prefix(ns, k + 1);
    } else {
        assert(ns.take(k) =~= ns);
    }
}

/// Every entry names one of the first `n` nodes.
pub open spec fn entries_valid(v: Seq<(usize, usize)>, n: nat) -> bool {
    forall|i: int| 0 <= i < v.len() ==> (#[trigger] v[i]).0 < n
}

/// `after` is `before` once the body of `node` was processed: like `processed`, with the
/// node's arguments already on the stack.
pub open spec fn body_processed(before: DataGraph, after: DataGraph, node: SigNode, sig: Sig, r: Result<(), GraphError>) -> bool {
    &&& after.wf()
    &&& after.extends(before)
    &&& after.nodes@.len() <= before.nodes@.len() + node_bound(node) - sig.args
    &&& match body_effect(before.stack@.len(), before.under_stack@.len(), sig, node) {
        Effect::Fails(e) => r == Err::<(), GraphError>(e),
        Effect::Sizes(s, u, a) => r is Ok && after.stack@.len() == s && after.under_stack@.len() == u
            && after.nodes@.len() == before.nodes@.len() + a,
        Effect::Wrong => true,
    }
}

/// `after` is `before` once an effect `e` was carried out, that may add up to `bound`
/// nodes.
pub open spec fn carried_out(before: DataGraph, after: DataGraph, e: Effect, bound: nat, r: Result<(), GraphError>) -> bool {
    &&& after.wf()
    &&& after.extends(before)
    &&& after.nodes@.len() <= before.nodes@.len() + bound
    &&& match e {
        Effect::Fails(e) => r == Err::<(), GraphError>(e),
        Effect::Sizes(s, u, a) => r is Ok && after.stack@.len() == s && after.under_stack@.len() == u
            && after.nodes@.len() == before.nodes@.len() + a,
        Effect::Wrong => true,
    }
}

proof fn lemma_then_add_add(e: Effect, a: nat, b: nat)
    ensures
        then_add(then_add(e, a), b) == then_add(e, a + b),
        then_add(e, 0) == e,
{
}

impl DataGraph {
    /// Add a node to the graph that takes its inputs from the top `sig.args` values
    /// (the top one as the first input) and pushes its `sig.outputs` outputs.
    fn add_op(&mut self, id: usize, sig: Sig)
        requires
            old(self).wf(),
            sig.args <= old(self).stack@.len(),
            old(self).nodes@.len() < usize::MAX,
        ensures
            final(self).wf(),
            final(self).extends(*old(self)),
            final(self).nodes@.len() == old(self).nodes@.len() + 1,
            final(self).nodes@.last() == Data::Node(id),
            final(self).stack@.len() == old(self).stack@.len() - sig.args + sig.outputs,
            final(self).under_stack@ == old(self).under_stack@,
            final(self).arg_count == old(self).arg_count,
            final(self)@ == spec_add_op(old(self)@, id, sig),
    {
        let new = self.nodes.len();
        self.nodes.push(Data::Node(id));
        let args = drain_args(&mut self.stack, sig.args);
        let ghost e0 = self.edges@;
        let ghost spec_args = old(self).stack@.skip(old(self).stack@.len() - sig.args);
        let ghost a = sig.args as int;
        let mut j: usize = 0;
        while j < args.len()
            invariant
                j <= args@.len(),
                new == old(self).nodes@.len(),
                self.nodes@.len() == new + 1,
                self.nodes@.last() == Data::Node(id),
                self.nodes@.take(new as int) == old(self).nodes@,
                self.arg_count == old(self).arg_count,
                self.arg_count <= self.nodes@.len(),
                self.under_stack@ == old(self).under_stack@,
                forall|i: int| 0 <= i < self.stack@.len() ==> (#[trigger] self.stack@[i]).0 < new,
                forall|i: int| 0 <= i < args@.len() ==> (#[trigger] args@[i]).0 < new,
                forall|i: int| 0 <= i < self.under_stack@.len() ==> (#[trigger] self.under_stack@[i]).0 < new,
                self.edges@.len() == e0.len() + j,
                self.edges@.take(e0.len() as int) == e0,
                e0.take(old(self).edges@.len() as int) == old(self).edges@,
                e0.len() == old(self).edges@.len(),
                forall|i: int| 0 <= i < self.edges@.len() ==> (#[trigger] self.edges@[i]).to < self.edges@[i].from
                    && self.edges@[i].from < self.nodes@.len(),
                self.stack@.len() == old(self).stack@.len() - sig.args,
                args@.len() == sig.args,
                args@ == spec_args,
                a == sig.args,
                e0 == old(self).edges@,
                self.stack@ == old(self).stack@.take(old(self).stack@.len() - sig.args),
                self.nodes@ == old(self).nodes@.push(Data::Node(id)),
                self.edges@ == e0 + Seq::new(j as nat, |q: int| Edge {
                    from: new as usize,
                    to: spec_args[a - 1 - q].0,
                    out_i: spec_args[a - 1 - q].1,
                    in_i: q as usize,
                }),
            decreases args@.len() - j,
        {
            let (arg, out_i) = args[args.len() - 1 - j];
            self.edges.push(Edge { from: new, to: arg, out_i, in_i: j });
            proof {
                assert(self.edges@.take(e0.len() as int) =~= e0);
                assert(self.edges@ =~= e0 + Seq::new((j + 1) as nat, |q: int| Edge {
                    from: new as usize,
                    to: spec_args[a - 1 - q].0,
                    out_i: spec_args[a - 1 - q].1,
                    in_i: q as usize,
                }));
            }
            j += 1;
        }
        let ghost e1 = self.edges@;
        proof {
            assert(e1.take(old(self).edges@.len() as int) =~= old(self).edges@) by {
                assert(e1.take(e0.len() as int) == e0);
            }
        }
        let mut o: usize = sig.outputs;
        while o > 0
            invariant
                o <= sig.outputs,
                self.edges@ == e1,
                e1.len() >= old(self).edges@.len(),
                e1.take(old(self).edges@.len() as int) == old(self).edges@,
                forall|i: int| 0 <= i < self.edges@.len() ==> (#[trigger] self.edges@[i]).to < self.edges@[i].from
                    && self.edges@[i].from < self.nodes@.len(),
                self.nodes@.take(new as int) == old(self).nodes@,
                self.arg_count == old(self).arg_count,
                self.arg_count <= self.nodes@.len(),
                self.under_stack@ == old(self).under_stack@,
                forall|i: int| 0 <= i < self.under_stack@.len() ==> (#[trigger] self.under_stack@[i]).0 < new,
                self.nodes@.last() == Data::Node(id),
                self.nodes@.len() == new + 1,
                new == old(self).nodes@.len(),
                self.stack@.len() == old(self).stack@.len() - sig.args + (sig.outputs - o),
                forall|i: int| 0 <= i < self.stack@.len() ==> (#[trigger] self.stack@[i]).0 < self.nodes@.len(),
                self.stack@ == old(self).stack@.take(old(self).stack@.len() - sig.args)
                    + Seq::new((sig.outputs - o) as nat, |q: int| (new as usize, (sig.outputs - 1 - q) as usize)),
                self.nodes@ == old(self).nodes@.push(Data::Node(id)),
            decreases o,
        {
            o -= 1;
            self.stack.push((new, o));
            proof {
                assert(self.stack@ =~= old(self).stack@.take(old(self).stack@.len() - sig.args)
                    + Seq::new((sig.outputs - o) as nat, |q: int| (new as usize, (sig.outputs - 1 - q) as usize)));
            }
        }
        proof {
            assert(self@.edges == spec_add_op(old(self)@, id, sig).edges);
            assert(self@.stack =~= spec_add_op(old(self)@, id, sig).stack);
        }
    }

    /// Build the graph further by simulating `node` on the stacks: stack manipulations
    /// and modifiers route the values, and every other operation becomes a node taking
    /// its inputs from the stack.
    pub fn process_node(&mut self, node: &SigNode) -> (r: Result<(), GraphError>)
        requires
            can_process(*old(self), *node),
        ensures
            processed(*old(self), *final(self), *node, r),
            r is Ok ==> final(self)@ == sim(old(self)@, *node),
            node.sig is Some && func_count_error(node.node) is Some ==> {
                &&& r == Err::<(), GraphError>(func_count_error(node.node)->0)
                &&& final(self)@ == spec_extend(old(self)@, node.sig->0.args as nat)
            },
        decreases *node, 1nat,
    {
        let sig = match node.sig {
            Some(s) => s,
            None => {
                proof {
                    lemma_extends_refl(*self);
                }
                return Err(GraphError::NoSignature);
            },
        };
        self.extend_args(sig.args);
        let ghost g1 = *self;
        let res = self.process_body(node, sig);
        proof {
            lemma_extends_trans(*old(self), g1, *self);
        }
        res
    }

    /// Process the body of `node`, its arguments being on the stack.
    fn process_body(&mut self, node: &SigNode, sig: Sig) -> (r: Result<(), GraphError>)
        requires
            old(self).wf(),
            node.sig == Some(sig),
            old(self).stack@.len() >= sig.args,
            !(body_effect(old(self).stack@.len(), old(self).under_stack@.len(), sig, *node) is Wrong),
            old(self).nodes@.len() + node_bound(*node) - sig.args <= usize::MAX,
        ensures
            body_processed(*old(self), *final(self), *node, sig, r),
            r is Ok ==> final(self)@ == sim_body(old(self)@, sig, *node),
            func_count_error(node.node) is Some ==> r == Err::<(), GraphError>(func_count_error(node.node)->0)
                && *final(self) == *old(self),
        decreases *node, 0nat,
    {
        proof {
            lemma_extends_refl(*self);
        }
        match &node.node {
            Node::CustomInverse(normal) => self.process_inverse(normal),
            Node::PushUnder(k) => {
                self.push_under(*k);
                Ok(())
            },
            Node::CopyToUnder(k) => {
                self.copy_to_under(*k);
                Ok(())
            },
            Node::PopUnder(k) => {
                self.pop_under(*k);
                Ok(())
            },
            Node::Identity => Ok(()),
            Node::Pop => {
                self.stack.pop();
                proof {
                    lemma_extends_refl(*self);
                }
                Ok(())
            },
            Node::Flip => {
                self.flip();
                Ok(())
            },
            Node::Mod(m, funcs) => self.process_mod(*m, funcs, sig),
            Node::DipN(k, funcs) => self.process_dipn(*k, funcs),
            Node::Fork(funcs) => self.process_fork(funcs, sig),
            Node::Bracket(funcs) => self.process_bracket(funcs, sig),
            Node::BothImpl { num, side, funcs } => self.process_both_impl(*num, *side, funcs),
            Node::Run(nodes) => self.process_run(nodes),
            Node::Op(id) => {
                self.add_op(*id, sig);
                Ok(())
            },
        }
    }

    /// Process a custom inverse by its normal form.
    fn process_inverse(&mut self, normal: &Option<Box<SigNode>>) -> (r: Result<(), GraphError>)
        requires
            old(self).wf(),
            normal is Some ==> can_process(*old(self), *normal->0),
        ensures
            normal is None ==> r == Err::<(), GraphError>(GraphError::NoInverse) && final(self).same(*old(self)),
            normal is Some ==> processed(*old(self), *final(self), *normal->0, r),
            normal is Some && r is Ok ==> final(self)@ == sim(old(self)@, *normal->0),
            final(self).wf(),
            final(self).extends(*old(self)),
        decreases *normal, 0nat,
    {
        proof {
            lemma_extends_refl(*self);
        }
        match normal {
            Some(f) => self.process_node(&**f),
            None => Err(GraphError::NoInverse),
        }
    }

    /// Move the top `k` values to the under-stack (the top one deepest there).
    fn push_under(&mut self, k: usize)
        requires
            old(self).wf(),
            k <= old(self).stack@.len(),
        ensures
            final(self).wf(),
            final(self).extends(*old(self)),
            final(self).nodes@ == old(self).nodes@,
            final(self).stack@.len() == old(self).stack@.len() - k,
            final(self).under_stack@.len() == old(self).under_stack@.len() + k,
            final(self)@ == (GraphV {
                stack: old(self).stack@.take(old(self).stack@.len() - k),
                under: old(self).under_stack@ + old(self).stack@.skip(old(self).stack@.len() - k).reverse(),
                ..old(self)@
            }),
    {
        let top = drain_args(&mut self.stack, k);
        push_reversed(&mut self.under_stack, &top);
        proof {
            lemma_extends_refl(*self);
        }
    }

    /// Copy the top `k` values to the under-stack.
    fn copy_to_under(&mut self, k: usize)
        requires
            old(self).wf(),
            k <= old(self).stack@.len(),
        ensures
            final(self).wf(),
            final(self).extends(*old(self)),
            final(self).nodes@ == old(self).nodes@,
            final(self).stack@ == old(self).stack@,
            final(self).under_stack@.len() == old(self).under_stack@.len() + k,
            final(self)@ == (GraphV {
                under: old(self).under_stack@ + old(self).stack@.skip(old(self).stack@.len() - k).reverse(),
                ..old(self)@
            }),
    {
        let len = self.stack.len();
        let mut j: usize = len;
        while j > len - k
            invariant
                self.under_stack@ == old(self).under_stack@ + old(self).stack@.subrange(j as int, len as int).reverse(),
                len == self.stack@.len(),
                k <= len,
                len - k <= j <= len,
                self.stack@ == old(self).stack@,
                self.nodes@ == old(self).nodes@,
                self.edges@ == old(self).edges@,
                self.arg_count == old(self).arg_count,
                self.under_stack@.len() == old(self).under_stack@.len() + (len - j),
                entries_valid(self.under_stack@, self.nodes@.len() as nat),
                old(self).wf(),
            decreases j,
        {
            let v = self.stack[j - 1];
            self.under_stack.push(v);
            j -= 1;
            proof {
                assert(self.under_stack@ =~= old(self).under_stack@ + old(self).stack@.subrange(j as int, len as int).reverse());
            }
        }
        proof {
            lemma_extends_refl(*self);
            assert(old(self).stack@.subrange(j as int, len as int) =~= old(self).stack@.skip(old(self).stack@.len() - k));
        }
    }

    /// Move the top `k` values of the under-stack back to the stack.
    fn pop_under(&mut self, k: usize)
        requires
            old(self).wf(),
            k <= old(self).under_stack@.len(),
        ensures
            final(self).wf(),
            final(self).extends(*old(self)),
            final(self).nodes@ == old(self).nodes@,
            final(self).stack@.len() == old(self).stack@.len() + k,
            final(self).under_stack@.len() == old(self).under_stack@.len() - k,
            final(self)@ == (GraphV {
                stack: old(self).stack@ + old(self).under_stack@.skip(old(self).under_stack@.len() - k).reverse(),
                under: old(self).under_stack@.take(old(self).under_stack@.len() - k),
                ..old(self)@
            }),
    {
        let top = drain_args(&mut self.under_stack, k);
        push_reversed(&mut self.stack, &top);
        proof {
            lemma_extends_refl(*self);
        }
    }

    /// Swap the top two values.
    fn flip(&mut self)
        requires
            old(self).wf(),
            old(self).stack@.len() >= 2,
        ensures
            final(self).wf(),
            final(self).extends(*old(self)),
            final(self).nodes@ == old(self).nodes@,
            final(self).stack@.len() == old(self).stack@.len(),
            final(self).under_stack@ == old(self).under_stack@,
            final(self)@ == with_stack(old(self)@, old(self).stack@.take(old(self).stack@.len() - 2)
                .push(old(self).stack@[old(self).stack@.len() - 1]).push(old(self).stack@[old(self).stack@.len() - 2])),
    {
        let len = self.stack.len();
        let a = self.stack[len - 2];
        let b = self.stack[len - 1];
        self.stack.set(len - 2, b);
        self.stack.set(len - 1, a);
        proof {
            lemma_extends_refl(*self);
            assert(self.stack@ =~= old(self).stack@.take(old(self).stack@.len() - 2)
                .push(old(self).stack@[old(self).stack@.len() - 1]).push(old(self).stack@[old(self).stack@.len() - 2]));
        }
    }

    /// Process a modifier that takes one function.
    fn process_mod(&mut self, m: Modifier, funcs: &Vec<SigNode>, sig: Sig) -> (r: Result<(), GraphError>)
        requires
            old(self).wf(),
            old(self).stack@.len() >= sig.args,
            !(mod_effect(old(self).stack@.len(), old(self).under_stack@.len(), sig, m, funcs@) is Wrong),
            old(self).nodes@.len() + (if funcs@.len() == 1 { 2 * node_bound(funcs@[0]) } else { 0 }) <= usize::MAX,
        ensures
            carried_out(*old(self), *final(self), mod_effect(old(self).stack@.len(), old(self).under_stack@.len(), sig, m, funcs@),
                if funcs@.len() == 1 { 2 * node_bound(funcs@[0]) } else { 0 }, r),
            r is Ok ==> final(self)@ == sim_mod(old(self)@, sig, m, funcs@),
            funcs@.len() != 1 ==> r == Err::<(), GraphError>(GraphError::FuncCount(m, funcs@.len() as usize))
                && *final(self) == *old(self),
        decreases *funcs, 1nat,
    {
        proof {
            lemma_extends_refl(*self);
        }
        if funcs.len() != 1 {
            return Err(GraphError::FuncCount(m, funcs.len()));
        }
        match funcs[0].sig {
            Some(_) => {},
            None => {
                return Err(GraphError::NoSignature);
            },
        }
        match m {
            Modifier::On | Modifier::With | Modifier::Dip => self.mod_keep(m, funcs, sig),
            Modifier::Off | Modifier::Below => self.mod_add(m, funcs, sig),
            Modifier::Both => self.mod_both(m, funcs, sig),
        }
    }

    /// `on`, `with` and `dip`: a value is pushed back after the function.
    fn mod_keep(&mut self, m: Modifier, funcs: &Vec<SigNode>, sig: Sig) -> (r: Result<(), GraphError>)
        requires
            old(self).wf(),
            old(self).stack@.len() >= sig.args,
            !(mod_effect(old(self).stack@.len(), old(self).under_stack@.len(), sig, m, funcs@) is Wrong),
            old(self).nodes@.len() + (if funcs@.len() == 1 { 2 * node_bound(funcs@[0]) } else { 0 }) <= usize::MAX,
            funcs@.len() == 1,
            funcs@[0].sig is Some,
            m == Modifier::On || m == Modifier::With || m == Modifier::Dip,
        ensures
            carried_out(*old(self), *final(self), mod_effect(old(self).stack@.len(), old(self).under_stack@.len(), sig, m, funcs@),
                if funcs@.len() == 1 { 2 * node_bound(funcs@[0]) } else { 0 }, r),
            r is Ok ==> final(self)@ == sim_mod(old(self)@, sig, m, funcs@),
        decreases *funcs, 0nat,
    {
        proof {
            lemma_extends_refl(*self);
        }
        let f = &funcs[0];
        let fs = match f.sig {
            Some(fs) => fs,
            None => {
                return Err(GraphError::NoSignature);
            },
        };
        match m {
            Modifier::On => {
                let preserved = self.stack_top()?;
                let ghost g = *self;
                proof {
                    lemma_extends_refl(*self);
                }
                self.process_node(f)?;
                self.stack.push(preserved);
                proof {
                    lemma_extends_trans(*old(self), g, *self);
                }
                Ok(())
            },
            Modifier::With => {
                if fs.args > self.stack.len() {
                    return Err(GraphError::TooFewArguments);
                }
                let preserved = self.stack_n(fs.args)?;
                let ghost g = *self;
                proof {
                    lemma_extends_refl(*self);
                }
                self.process_node(f)?;
                self.stack.push(preserved);
                proof {
                    lemma_extends_trans(*old(self), g, *self);
                }
                Ok(())
            },
            _ => {
                let skipped = self.stack_pop()?;
                let ghost g = *self;
                proof {
                    lemma_extends_refl(*self);
                    assert(self@ == with_stack(old(self)@, old(self).stack@.drop_last()));
                }
                self.process_node(f)?;
                self.stack.push(skipped);
                proof {
                    lemma_extends_trans(*old(self), g, *self);
                }
                Ok(())
            },
        }
    }

    /// `off` and `below`: values are added to the stack before the function.
    fn mod_add(&mut self, m: Modifier, funcs: &Vec<SigNode>, sig: Sig) -> (r: Result<(), GraphError>)
        requires
            old(self).wf(),
            old(self).stack@.len() >= sig.args,
            !(mod_effect(old(self).stack@.len(), old(self).under_stack@.len(), sig, m, funcs@) is Wrong),
            old(self).nodes@.len() + (if funcs@.len() == 1 { 2 * node_bound(funcs@[0]) } else { 0 }) <= usize::MAX,
            funcs@.len() == 1,
            funcs@[0].sig is Some,
            m == Modifier::Off || m == Modifier::Below,
        ensures
            carried_out(*old(self), *final(self), mod_effect(old(self).stack@.len(), old(self).under_stack@.len(), sig, m, funcs@),
                if funcs@.len() == 1 { 2 * node_bound(funcs@[0]) } else { 0 }, r),
            r is Ok ==> final(self)@ == sim_mod(old(self)@, sig, m, funcs@),
        decreases *funcs, 0nat,
    {
        proof {
            lemma_extends_refl(*self);
        }
        let f = &funcs[0];
        let fs = match f.sig {
            Some(fs) => fs,
            None => {
                return Err(GraphError::NoSignature);
            },
        };
        match m {
            Modifier::Off => {
                let preserved = self.stack_top()?;
                let at = self.stack.len() - fs.args;
                self.stack.insert(at, preserved);
                let ghost g = *self;
                proof {
                    lemma_extends_refl(*self);
                    assert(self@ == with_stack(old(self)@, old(self).stack@.insert(old(self).stack@.len() - fs.args,
                        old(self).stack@.last())));
                }
                let res = self.process_node(f);
                proof {
                    lemma_extends_trans(*old(self), g, *self);
                }
                res
            },
            _ => {
                self.copy_top(sig.args);
                let ghost g = *self;
                let res = self.process_node(f);
                proof {
                    lemma_extends_trans(*old(self), g, *self);
                }
                res
            },
        }
    }

    /// `both`: the function on the values below its arguments, then on its arguments.
    fn mod_both(&mut self, m: Modifier, funcs: &Vec<SigNode>, sig: Sig) -> (r: Result<(), GraphError>)
        requires
            old(self).wf(),
            old(self).stack@.len() >= sig.args,
            !(mod_effect(old(self).stack@.len(), old(self).under_stack@.len(), sig, m, funcs@) is Wrong),
            old(self).nodes@.len() + (if funcs@.len() == 1 { 2 * node_bound(funcs@[0]) } else { 0 }) <= usize::MAX,
            funcs@.len() == 1,
            funcs@[0].sig is Some,
            m == Modifier::Both,
        ensures
            carried_out(*old(self), *final(self), mod_effect(old(self).stack@.len(), old(self).under_stack@.len(), sig, m, funcs@),
                if funcs@.len() == 1 { 2 * node_bound(funcs@[0]) } else { 0 }, r),
            r is Ok ==> final(self)@ == sim_mod(old(self)@, sig, m, funcs@),
        decreases *funcs, 0nat,
    {
        proof {
            lemma_extends_refl(*self);
        }
        let f = &funcs[0];
        let fs = match f.sig {
            Some(fs) => fs,
            None => {
                return Err(GraphError::NoSignature);
            },
        };
        let saved = drain_args(&mut self.stack, fs.args);
        let ghost g = *self;
        proof {
            lemma_extends_refl(*self);
            assert(self@ == with_stack(old(self)@, old(self).stack@.take(old(self).stack@.len() - fs.args)));
        }
        self.process_node(f)?;
        let ghost g1 = self@;
        push_all(&mut self.stack, &saved, 0);
        let ghost g2 = *self;
        proof {
            lemma_extends_trans(*old(self), g, *self);
            assert(saved@.skip(0) =~= saved@);
            assert(self@ == with_stack(g1, g1.stack + old(self).stack@.skip(old(self).stack@.len() - fs.args)));
        }
        let res = self.process_node(f);
        proof {
            lemma_extends_trans(*old(self), g2, *self);
        }
        res
    }

    /// Push copies of the top `k` values.
    fn copy_top(&mut self, k: usize)
        requires
            old(self).wf(),
            k <= old(self).stack@.len(),
        ensures
            final(self).wf(),
            final(self).extends(*old(self)),
            final(self).nodes@ == old(self).nodes@,
            final(self).stack@.len() == old(self).stack@.len() + k,
            final(self).under_stack@ == old(self).under_stack@,
            final(self)@ == with_stack(old(self)@, old(self).stack@ + old(self).stack@.skip(old(self).stack@.len() - k)),
    {
        let len = self.stack.len();
        let start = len - k;
        let mut j: usize = start;
        while j < len
            invariant
                start <= j <= len,
                len == old(self).stack@.len(),
                start == len - k,
                self.stack@.len() == len + (j - start),
                self.stack@ == old(self).stack@ + old(self).stack@.subrange(start as int, j as int),
                self.nodes@ == old(self).nodes@,
                self.edges@ == old(self).edges@,
                self.under_stack@ == old(self).under_stack@,
                self.arg_count == old(self).arg_count,
                entries_valid(self.stack@, self.nodes@.len() as nat),
                old(self).wf(),
            decreases len - j,
        {
            let v = self.stack[j];
            proof {
                assert(v == old(self).stack@[j as int]);
            }
            self.stack.push(v);
            j += 1;
            proof {
                assert(self.stack@ =~= old(self).stack@ + old(self).stack@.subrange(start as int, j as int));
            }
        }
        proof {
            assert(old(self).stack@.subrange(start as int, len as int) =~= old(self).stack@.skip(old(self).stack@.len() - k));
        }
        proof {
            lemma_extends_refl(*self);
        }
    }

    /// Process a function with the top `k` values set aside, then put them back.
    fn process_dipn(&mut self, k: usize, funcs: &Vec<SigNode>) -> (r: Result<(), GraphError>)
        requires
            old(self).wf(),
            !(dipn_effect(old(self).stack@.len(), old(self).under_stack@.len(), k, funcs@) is Wrong),
            old(self).nodes@.len() + (if funcs@.len() == 1 { node_bound(funcs@[0]) } else { 0 }) <= usize::MAX,
        ensures
            carried_out(*old(self), *final(self), dipn_effect(old(self).stack@.len(), old(self).under_stack@.len(), k, funcs@),
                if funcs@.len() == 1 { node_bound(funcs@[0]) } else { 0 }, r),
            r is Ok ==> final(self)@ == sim_dipn(old(self)@, k, funcs@),
            funcs@.len() != 1 ==> r == Err::<(), GraphError>(GraphError::FuncCount(Modifier::Dip, funcs@.len() as usize))
                && *final(self) == *old(self),
        decreases *funcs, 0nat,
    {
        proof {
            lemma_extends_refl(*self);
        }
        if funcs.len() != 1 {
            return Err(GraphError::FuncCount(Modifier::Dip, funcs.len()));
        }
        let preserved = drain_args(&mut self.stack, k);
        let ghost g = *self;
        proof {
            lemma_extends_refl(*self);
            assert(self@ == with_stack(old(self)@, old(self).stack@.take(old(self).stack@.len() - k)));
        }
        self.process_node(&funcs[0])?;
        let ghost g1 = self@;
        push_all(&mut self.stack, &preserved, 0);
        proof {
            lemma_extends_trans(*old(self), g, *self);
            assert(preserved@.skip(0) =~= preserved@);
            assert(self@ == with_stack(g1, g1.stack + old(self).stack@.skip(old(self).stack@.len() - k)));
        }
        Ok(())
    }

    /// Process the functions of a fork, from the last to the first, each on copies of
    /// the top values it takes from the node's arguments.
    fn process_fork(&mut self, funcs: &Vec<SigNode>, sig: Sig) -> (r: Result<(), GraphError>)
        requires
            old(self).wf(),
            old(self).stack@.len() >= sig.args,
            !(effect_fork((old(self).stack@.len() - sig.args) as nat, old(self).under_stack@.len(), funcs@, sig.args as nat) is Wrong),
            old(self).nodes@.len() + bound_sum(funcs@) <= usize::MAX,
        ensures
            carried_out(*old(self), *final(self),
                effect_fork((old(self).stack@.len() - sig.args) as nat, old(self).under_stack@.len(), funcs@, sig.args as nat),
                bound_sum(funcs@), r),
            r is Ok ==> final(self)@ == sim_fork(with_stack(old(self)@, old(self).stack@.take(old(self).stack@.len() - sig.args)),
                funcs@, old(self).stack@.skip(old(self).stack@.len() - sig.args)),
        decreases *funcs, 0nat,
    {
        let reused = drain_args(&mut self.stack, sig.args);
        let ghost target = sim_fork(self@, funcs@, reused@);
        let ghost total = effect_fork((old(self).stack@.len() - sig.args) as nat, old(self).under_stack@.len(), funcs@, sig.args as nat);
        let ghost n0 = old(self).nodes@.len();
        proof {
            lemma_extends_refl(*self);
            assert(funcs@.take(funcs@.len() as int) =~= funcs@);
            lemma_then_add_add(total, 0, 0);
        }
        let mut j: usize = funcs.len();
        while j > 0
            invariant
                j <= funcs@.len(),
                self.wf(),
                self.extends(*old(self)),
                n0 == old(self).nodes@.len(),
                reused@.len() == sig.args,
                entries_valid(reused@, self.nodes@.len() as nat),
                total == effect_fork((old(self).stack@.len() - sig.args) as nat, old(self).under_stack@.len(), funcs@, sig.args as nat),
                !(total is Wrong),
                n0 + bound_sum(funcs@) <= usize::MAX,
                total == then_add(effect_fork(self.stack@.len() as nat, self.under_stack@.len() as nat, funcs@.take(j as int), sig.args as nat),
                    (self.nodes@.len() - n0) as nat),
                self.nodes@.len() - n0 + bound_sum(funcs@.take(j as int)) <= bound_sum(funcs@),
                target == sim_fork(self@, funcs@.take(j as int), reused@),
            decreases j,
        {
            let f = &funcs[j - 1];
            let ghost pre = funcs@.take(j as int);
            proof {
                assert(pre.last() == *f);
                assert(pre.drop_last() =~= funcs@.take(j - 1));
            }
            let fs = match f.sig {
                Some(fs) => fs,
                None => {
                    return Err(GraphError::NoSignature);
                },
            };
            if fs.args > reused.len() {
                return Err(GraphError::TooFewArguments);
            }
            push_all(&mut self.stack, &reused, reused.len() - fs.args);
            let ghost g = *self;
            proof {
                lemma_extends_refl(*self);
            }
            let res = self.process_node(f);
            proof {
                lemma_extends_trans(*old(self), g, *self);
            }
            match res {
                Ok(()) => {
                    proof {
                        let e = effect(g.stack@.len() as nat, g.under_stack@.len() as nat, *f);
                        lemma_then_add_add(effect_fork(self.stack@.len() as nat, self.under_stack@.len() as nat,
                            funcs@.take(j - 1), sig.args as nat), (self.nodes@.len() - g.nodes@.len()) as nat,
                            (g.nodes@.len() - n0) as nat);
                    }
                },
                Err(e) => {
                    return Err(e);
                },
            }
            j -= 1;
        }
        proof {
            assert(funcs@.take(0) =~= Seq::<SigNode>::empty());
        }
        Ok(())
    }

    /// Process the functions of a bracket, from the last to the first, each on the next
    /// of the node's arguments from the top.
    fn process_bracket(&mut self, funcs: &Vec<SigNode>, sig: Sig) -> (r: Result<(), GraphError>)
        requires
            old(self).wf(),
            old(self).stack@.len() >= sig.args,
            !(effect_bracket((old(self).stack@.len() - sig.args) as nat, old(self).under_stack@.len(), funcs@, sig.args as nat) is Wrong),
            old(self).nodes@.len() + bound_sum(funcs@) <= usize::MAX,
        ensures
            carried_out(*old(self), *final(self),
                effect_bracket((old(self).stack@.len() - sig.args) as nat, old(self).under_stack@.len(), funcs@, sig.args as nat),
                bound_sum(funcs@), r),
            r is Ok ==> final(self)@ == sim_bracket(with_stack(old(self)@, old(self).stack@.take(old(self).stack@.len() - sig.args)),
                funcs@, old(self).stack@.skip(old(self).stack@.len() - sig.args).reverse()),
        decreases *funcs, 0nat,
    {
        let top = drain_args(&mut self.stack, sig.args);
        let mut args: Vec<(usize, usize)> = Vec::new();
        push_reversed(&mut args, &top);
        proof {
            assert(args@ =~= top@.reverse());
        }
        let ghost target = sim_bracket(self@, funcs@, args@);
        let ghost total = effect_bracket((old(self).stack@.len() - sig.args) as nat, old(self).under_stack@.len(), funcs@, sig.args as nat);
        let ghost n0 = old(self).nodes@.len();
        proof {
            lemma_extends_refl(*self);
            assert(funcs@.take(funcs@.len() as int) =~= funcs@);
            lemma_then_add_add(total, 0, 0);
        }
        let mut j: usize = funcs.len();
        while j > 0
            invariant
                j <= funcs@.len(),
                self.wf(),
                self.extends(*old(self)),
                n0 == old(self).nodes@.len(),
                entries_valid(args@, self.nodes@.len() as nat),
                total == effect_bracket((old(self).stack@.len() - sig.args) as nat, old(self).under_stack@.len(), funcs@, sig.args as nat),
                !(total is Wrong),
                n0 + bound_sum(funcs@) <= usize::MAX,
                total == then_add(effect_bracket(self.stack@.len() as nat, self.under_stack@.len() as nat, funcs@.take(j as int),
                    args@.len() as nat), (self.nodes@.len() - n0) as nat),
                self.nodes@.len() - n0 + bound_sum(funcs@.take(j as int)) <= bound_sum(funcs@),
                target == sim_bracket(self@, funcs@.take(j as int), args@),
            decreases j,
        {
            let f = &funcs[j - 1];
            let ghost pre = funcs@.take(j as int);
            proof {
                assert(pre.last() == *f);
                assert(pre.drop_last() =~= funcs@.take(j - 1));
            }
            let fs = match f.sig {
                Some(fs) => fs,
                None => {
                    return Err(GraphError::NoSignature);
                },
            };
            if fs.args > args.len() {
                return Err(GraphError::TooFewArguments);
            }
            let part = drain_args(&mut args, fs.args);
            push_reversed(&mut self.stack, &part);
            let ghost g = *self;
            proof {
                lemma_extends_refl(*self);
            }
            let res = self.process_node(f);
            proof {
                lemma_extends_trans(*old(self), g, *self);
            }
            match res {
                Ok(()) => {
                    proof {
                        lemma_then_add_add(effect_bracket(self.stack@.len() as nat, self.under_stack@.len() as nat,
                            funcs@.take(j - 1), args@.len() as nat), (self.nodes@.len() - g.nodes@.len()) as nat,
                            (g.nodes@.len() - n0) as nat);
                    }
                },
                Err(e) => {
                    return Err(e);
                },
            }
            j -= 1;
        }
        proof {
            assert(funcs@.take(0) =~= Seq::<SigNode>::empty());
        }
        Ok(())
    }

    /// Process `both` with a count and a side: the repeated values are taken out (from
    /// the top on the left, from below the arguments on the right), then the function is
    /// applied `count` times to its next arguments and the repeated values.
    fn process_both_impl(&mut self, num: Option<u8>, side: Option<(SubSide, Option<u8>)>, funcs: &Vec<SigNode>) -> (r: Result<(), GraphError>)
        requires
            old(self).wf(),
            !(both_impl_effect(old(self).stack@.len(), old(self).under_stack@.len(), num, side, funcs@) is Wrong),
            old(self).nodes@.len() + (if funcs@.len() == 1 {
                (match num { Some(c) => c as nat, None => 2 }) * node_bound(funcs@[0])
            } else { 0 }) <= usize::MAX,
        ensures
            carried_out(*old(self), *final(self), both_impl_effect(old(self).stack@.len(), old(self).under_stack@.len(), num, side, funcs@),
                if funcs@.len() == 1 { (match num { Some(c) => c as nat, None => 2 }) * node_bound(funcs@[0]) } else { 0 }, r),
            r is Ok ==> final(self)@ == sim_both_impl(old(self)@, num, side, funcs@),
            funcs@.len() != 1 ==> r == Err::<(), GraphError>(GraphError::FuncCount(Modifier::Both, funcs@.len() as usize))
                && *final(self) == *old(self),
        decreases *funcs, 0nat,
    {
        proof {
            lemma_extends_refl(*self);
        }
        if funcs.len() != 1 {
            return Err(GraphError::FuncCount(Modifier::Both, funcs.len()));
        }
        let f = &funcs[0];
        let fs = match f.sig {
            Some(fs) => fs,
            None => {
                return Err(GraphError::NoSignature);
            },
        };
        let args: usize = if fs.args >= 1 { fs.args } else { 1 };
        let count: usize = match num {
            Some(c) => c as usize,
            None => 2,
        };
        let (right, rep): (bool, usize) = match side {
            Some((sd, n)) => (sd == SubSide::Right, match n {
                Some(x) => x as usize,
                None => 1,
            }),
            None => (false, 0),
        };
        let ghost nb = node_bound(*f);
        let ghost n0 = old(self).nodes@.len();
        let len0 = self.stack.len();
        proof {
            let sl = old(self).stack@.len();
            let ul = old(self).under_stack@.len();
            assert(sl == len0);
            assert(funcs@[0] == *f);
            let sargs: nat = if fs.args >= 1 { fs.args as nat } else { 1 };
            let scount: nat = match num { Some(c) => c as nat, None => 2 };
            let (sright, srep): (bool, nat) = match side {
                Some((sd, n)) => (sd == SubSide::Right, match n { Some(x) => x as nat, None => 1 }),
                None => (false, 0),
            };
            assert(sargs == args && scount == count && sright == right && srep == rep);
            assert(!(both_impl_effect(sl, ul, num, side, funcs@) is Wrong));
            assert(rep <= args);
            assert(right ==> (args - rep) * args + rep <= sl);
            assert(!right ==> rep <= sl);
            assert((args - rep) * count <= sl - rep);
        }
        let to_repeat = self.take_repeated(right, rep, args);
        let saved_top = drain_args(&mut self.stack, (args - rep) * count);
        let mut saved: Vec<(usize, usize)> = Vec::new();
        push_reversed(&mut saved, &saved_top);
        let ghost g = *self;
        proof {
            lemma_extends_refl(*self);
            assert(both_impl_effect(old(self).stack@.len(), old(self).under_stack@.len(), num, side, funcs@)
                == effect_times(self.stack@.len() as nat, self.under_stack@.len() as nat, *f, count as nat, args as nat));
        }
        let res = self.apply_times(f, count, args, rep, right, &to_repeat, saved);
        proof {
            lemma_extends_trans(*old(self), g, *self);
        }
        res
    }

    /// Take out the `rep` repeated values: the top ones, or on the right those just below
    /// `args - rep` rows of `args` values.
    fn take_repeated(&mut self, right: bool, rep: usize, args: usize) -> (r: Vec<(usize, usize)>)
        requires
            old(self).wf(),
            rep <= args,
            right ==> (args - rep) * args + rep <= old(self).stack@.len(),
            !right ==> rep <= old(self).stack@.len(),
        ensures
            final(self).wf(),
            final(self).extends(*old(self)),
            final(self).nodes@ == old(self).nodes@,
            final(self).under_stack@ == old(self).under_stack@,
            final(self).stack@.len() == old(self).stack@.len() - rep,
            r@.len() == rep,
            entries_valid(r@, final(self).nodes@.len() as nat),
            final(self)@ == with_stack(old(self)@, final(self).stack@),
            right ==> {
                let end_i = old(self).stack@.len() - (args - rep) * args;
                &&& r@ == old(self).stack@.subrange(end_i - rep, end_i)
                &&& final(self).stack@ == old(self).stack@.take(end_i - rep) + old(self).stack@.skip(end_i)
            },
            !right ==> r@ == old(self).stack@.skip(old(self).stack@.len() - rep)
                && final(self).stack@ == old(self).stack@.take(old(self).stack@.len() - rep),
    {
        let len = self.stack.len();
        let r = if right {
            let end_i = len - (args - rep) * args;
            let mut tail = self.stack.split_off(end_i - rep);
            let rest = tail.split_off(rep);
            push_all(&mut self.stack, &rest, 0);
            proof {
                assert forall|i: int| 0 <= i < tail@.len() implies (#[trigger] tail@[i]).0 < self.nodes@.len() by {
                    assert(tail@[i] == old(self).stack@[(end_i - rep) + i]);
                }
            }
            tail
        } else {
            let t = drain_args(&mut self.stack, rep);
            proof {
                assert forall|i: int| 0 <= i < t@.len() implies (#[trigger] t@[i]).0 < self.nodes@.len() by {
                    assert(t@[i] == old(self).stack@[(len - rep) + i]);
                }
            }
            t
        };
        proof {
            lemma_extends_refl(*self);
        }
        r
    }

    /// Apply `f` `count` times, each time to the repeated values and the next `args - rep`
    /// saved values (the repeated ones on top, or below for the right side).
    fn apply_times(&mut self, f: &SigNode, count: usize, args: usize, rep: usize, right: bool,
        to_repeat: &Vec<(usize, usize)>, saved: Vec<(usize, usize)>) -> (r: Result<(), GraphError>)
        requires
            old(self).wf(),
            rep <= args,
            to_repeat@.len() == rep,
            saved@.len() == (args - rep) * count,
            entries_valid(to_repeat@, old(self).nodes@.len() as nat),
            entries_valid(saved@, old(self).nodes@.len() as nat),
            !(effect_times(old(self).stack@.len() as nat, old(self).under_stack@.len() as nat, *f, count as nat, args as nat) is Wrong),
            old(self).nodes@.len() + count * node_bound(*f) <= usize::MAX,
        ensures
            carried_out(*old(self), *final(self),
                effect_times(old(self).stack@.len() as nat, old(self).under_stack@.len() as nat, *f, count as nat, args as nat),
                (count as nat) * node_bound(*f), r),
            r is Ok ==> final(self)@ == sim_times(old(self)@, *f, count as nat, args as nat, rep as nat, right, to_repeat@, saved@),
        decreases *f, 2nat,
    {
        let ghost nb = node_bound(*f);
        let ghost n0 = old(self).nodes@.len();
        let ghost total = effect_times(old(self).stack@.len() as nat, old(self).under_stack@.len() as nat, *f, count as nat, args as nat);
        let ghost target = sim_times(old(self)@, *f, count as nat, args as nat, rep as nat, right, to_repeat@, saved@);
        let mut saved = saved;
        proof {
            lemma_extends_refl(*self);
            lemma_then_add_add(total, 0, 0);
            assert((count - 0) * nb == count * nb);
        }
        let mut k: usize = 0;
        while k < count
            invariant
                k <= count,
                self.wf(),
                self.extends(*old(self)),
                n0 == old(self).nodes@.len(),
                nb == node_bound(*f),
                rep <= args,
                to_repeat@.len() == rep,
                saved@.len() == (args - rep) * (count - k),
                entries_valid(to_repeat@, self.nodes@.len() as nat),
                entries_valid(saved@, self.nodes@.len() as nat),
                total == effect_times(old(self).stack@.len() as nat, old(self).under_stack@.len() as nat, *f, count as nat, args as nat),
                !(total is Wrong),
                n0 + count * nb <= usize::MAX,
                total == then_add(effect_times(self.stack@.len() as nat, self.under_stack@.len() as nat, *f, (count - k) as nat,
                    args as nat), (self.nodes@.len() - n0) as nat),
                self.nodes@.len() - n0 + (count - k) * nb <= count * nb,
                target == sim_times(self@, *f, (count - k) as nat, args as nat, rep as nat, right, to_repeat@, saved@),
            decreases count - k,
        {
            let ghost pre = self@;
            let ghost pre_saved = saved@;
            if right {
                push_all(&mut self.stack, to_repeat, 0);
            }
            proof {
                assert((args - rep) * (count - k) == (args - rep) * (count - k - 1) + (args - rep)) by (nonlinear_arith);
                assert((args - rep) * (count - k - 1) >= 0) by (nonlinear_arith)
                    requires args >= rep, count - k - 1 >= 0;
                assert(to_repeat@.skip(0) =~= to_repeat@);
            }
            let part = drain_args(&mut saved, args - rep);
            push_reversed(&mut self.stack, &part);
            if !right {
                push_all(&mut self.stack, to_repeat, 0);
            }
            let ghost g = *self;
            proof {
                let kk = args - rep;
                let st1 = if right { pre.stack + to_repeat@ } else { pre.stack };
                let st2 = st1 + pre_saved.skip(pre_saved.len() - kk).reverse();
                let st3 = if !right { st2 + to_repeat@ } else { st2 };
                assert(self@ == with_stack(pre, st3));
                assert(saved@ == pre_saved.take(pre_saved.len() - kk));
            }
            proof {
                lemma_extends_refl(*self);
                assert((count - k) * nb == (count - k - 1) * nb + nb) by (nonlinear_arith);
                assert((count - k - 1) * nb >= 0) by (nonlinear_arith)
                    requires count - k - 1 >= 0, nb >= 0;
            }
            let res = self.process_node(f);
            proof {
                lemma_extends_trans(*old(self), g, *self);
            }
            match res {
                Ok(()) => {
                    proof {
                        lemma_then_add_add(effect_times(self.stack@.len() as nat, self.under_stack@.len() as nat, *f,
                            (count - k - 1) as nat, args as nat), (self.nodes@.len() - g.nodes@.len()) as nat,
                            (g.nodes@.len() - n0) as nat);
                    }
                },
                Err(e) => {
                    return Err(e);
                },
            }
            k += 1;
        }
        Ok(())
    }

    /// Process the nodes one after the other.
    fn process_run(&mut self, nodes: &Vec<SigNode>) -> (r: Result<(), GraphError>)
        requires
            old(self).wf(),
            !(effect_run(old(self).stack@.len(), old(self).under_stack@.len(), nodes@) is Wrong),
            old(self).nodes@.len() + bound_sum(nodes@) <= usize::MAX,
        ensures
            carried_out(*old(self), *final(self), effect_run(old(self).stack@.len(), old(self).under_stack@.len(), nodes@),
                bound_sum(nodes@), r),
            r is Ok ==> final(self)@ == sim_run(old(self)@, nodes@),
        decreases *nodes, 0nat,
    {
        let ghost (s0, u0, n0) = (self.stack@.len(), self.under_stack@.len(), self.nodes@.len());
        proof {
            lemma_extends_refl(*self);
            assert(nodes@.take(0) =~= Seq::<SigNode>::empty());
        }
        let mut i: usize = 0;
        while i < nodes.len()
            invariant
                i <= nodes@.len(),
                self.wf(),
                self.extends(*old(self)),
                (s0, u0, n0) == (old(self).stack@.len(), old(self).under_stack@.len(), old(self).nodes@.len()),
                !(effect_run(s0, u0, nodes@) is Wrong),
                n0 + bound_sum(nodes@) <= usize::MAX,
                effect_run(s0, u0, nodes@.take(i as int))
                    == Effect::Sizes(self.stack@.len(), self.under_stack@.len(), (self.nodes@.len() - n0) as nat),
                self.nodes@.len() <= n0 + bound_sum(nodes@.take(i as int)),
                self@ == sim_run(old(self)@, nodes@.take(i as int)),
            decreases nodes@.len() - i,
        {
            let ghost g = *self;
            proof {
                assert(nodes@.take(i + 1).drop_last() =~= nodes@.take(i as int));
                assert(nodes@.take(i + 1).last() == nodes@[i as int]);
                lemma_bound_sum_prefix(nodes@, i + 1);
                let e1 = effect_run(s0, u0, nodes@.take(i + 1));
                if e1 is Wrong {
                    lemma_run_prefix(s0, u0, nodes@, i + 1);
                }
            }
            let res = self.process_node(&nodes[i]);
            proof {
                lemma_extends_trans(*old(self), g, *self);
            }
            match res {
                Ok(()) => {},
                Err(e) => {
                    proof {
                        lemma_run_prefix(s0, u0, nodes@, i + 1);
                    }
                    return Err(e);
                },
            }
            i += 1;
        }
        proof {
            assert(nodes@.take(nodes@.len() as int) =~= nodes@);
        }
        Ok(())
    }
}

/// The node is an operation that `mutating` marks.
pub open spec fn marks_mutating(d: Data, mutating: Seq<bool>) -> bool {
    match d {
        Data::Node(id) => id < mutating.len() && mutating[id as int],
        Data::Arg(_) => false,
    }
}

/// The indices below `i` of the operations that `mutating` marks, in order.
pub open spec fn mutating_nodes(nodes: Seq<Data>, mutating: Seq<bool>, i: int) -> Seq<usize>
    decreases i,
{
    if i <= 0 {
        Seq::empty()
    } else {
        let prev = mutating_nodes(nodes, mutating, i - 1);
        if marks_mutating(nodes[i - 1], mutating) { prev.push((i - 1) as usize) } else { prev }
    }
}

/// An edge is kept when the node it leaves from is marked live.
pub open spec fn from_live(live: Seq<bool>) -> spec_fn(Edge) -> bool {
    |e: Edge| live[e.from as int]
}

/// Node `i` can be reached from one of the roots by following edges (from a node to
/// the nodes whose outputs it takes).
pub open spec fn reached(n: nat, edges: Seq<Edge>, roots: Seq<usize>, i: nat) -> bool
    decreases n - i,
{
    ||| roots.contains(i as usize) && i < n
    ||| exists|k: int| 0 <= k < edges.len() && (#[trigger] edges[k]).to == i && i < edges[k].from < n
        && reached(n, edges, roots, edges[k].from as nat)
}

proof fn lemma_reached_unfold(n: nat, edges: Seq<Edge>, roots: Seq<usize>, i: nat)
    requires
        i < n,
    ensures
        reached(n, edges, roots, i) <==> (roots.contains(i as usize) && i < n || exists|k: int| 0 <= k < edges.len()
            && (#[trigger] edges[k]).to == i && i < edges[k].from < n && reached(n, edges, roots, edges[k].from as nat)),
{
    reveal_with_fuel(reached, 2);
}

impl DataGraph {
    /// The roots of the graph: the nodes of operations that mutate state (those whose
    /// program node `mutating` marks), in order, then the nodes of the values on the stack.
    pub fn roots(&self, mutating: &Vec<bool>) -> (r: Vec<usize>)
        ensures
            r@ == self.roots_spec(mutating@),
    {
        let mut out: Vec<usize> = Vec::new();
        let mut i: usize = 0;
        while i < self.nodes.len()
            invariant
                i <= self.nodes@.len(),
                out@ == mutating_nodes(self.nodes@, mutating@, i as int),
            decreases self.nodes@.len() - i,
        {
            let push = match self.nodes[i] {
                Data::Node(id) => id < mutating.len() && mutating[id],
                Data::Arg(_) => false,
            };
            proof {
                assert(push == marks_mutating(self.nodes@[i as int], mutating@));
            }
            if push {
                out.push(i);
            }
            i += 1;
        }
        let ghost before = out@;
        let mut j: usize = 0;
        while j < self.stack.len()
            invariant
                j <= self.stack@.len(),
                before == mutating_nodes(self.nodes@, mutating@, self.nodes@.len() as int),
                out@ == before + self.stack@.take(j as int).map_values(|e: (usize, usize)| e.0),
            decreases self.stack@.len() - j,
        {
            let v = self.stack[j].0;
            out.push(v);
            proof {
                assert(self.stack@.take(j + 1).map_values(|e: (usize, usize)| e.0)
                    =~= self.stack@.take(j as int).map_values(|e: (usize, usize)| e.0).push(v));
            }
            j += 1;
        }
        proof {
            assert(self.stack@.take(self.stack@.len() as int) =~= self.stack@);
        }
        out
    }

    /// Which nodes are reachable from the roots: the nodes that pruning keeps, all others
    /// being dead code. Edges go from later nodes to earlier ones, so one sweep from the
    /// last node down decides each node after every node that can reach it.
    pub fn live_nodes(&self, roots: &Vec<usize>) -> (r: Vec<bool>)
        requires
            self.wf(),
        ensures
            r@.len() == self.nodes@.len(),
            forall|i: int| 0 <= i < r@.len() ==> #[trigger] r@[i] == reached(self.nodes@.len(), self.edges@, roots@, i as nat),
    {
        let n = self.nodes.len();
        let ghost nn = n as nat;
        let ghost es = self.edges@;
        let mut live: Vec<bool> = Vec::new();
        let mut i: usize = 0;
        while i < n
            invariant
                i <= n,
                n == self.nodes@.len(),
                live@.len() == i,
                forall|q: int| 0 <= q < i ==> #[trigger] live@[q] == roots@.contains(q as usize),
            decreases n - i,
        {
            live.push(false);
            let mut k: usize = 0;
            while k < roots.len()
                invariant
                    k <= roots@.len(),
                    live@.len() == i + 1,
                    forall|q: int| 0 <= q < i ==> #[trigger] live@[q] == roots@.contains(q as usize),
                    live@[i as int] == roots@.take(k as int).contains(i as usize),
                decreases roots@.len() - k,
            {
                if roots[k] == i {
                    live.set(i, true);
                }
                proof {
                    assert(roots@.take(k + 1).drop_last() =~= roots@.take(k as int));
                    if roots@.take(k + 1).contains(i as usize) && !roots@.take(k as int).contains(i as usize) {
                        assert(roots@[k as int] == i);
                    }
                    if roots@[k as int] == i {
                        assert(roots@.take(k + 1)[k as int] == i);
                    }
                }
                k += 1;
            }
            proof {
                assert(roots@.take(roots@.len() as int) =~= roots@);
            }
            i += 1;
        }
        // Sweep from the last node down: a node is reached if it is a root or some reached
        // later node takes its output.
        let mut j: usize = n;
        while j > 0
            invariant
                j <= n,
                n == self.nodes@.len(),
                nn == n,
                es == self.edges@,
                self.wf(),
                live@.len() == n,
                forall|q: int| j <= q < n ==> #[trigger] live@[q] == reached(nn, es, roots@, q as nat),
                forall|q: int| 0 <= q < j ==> (#[trigger] live@[q] == (roots@.contains(q as usize)
                    || exists|k: int| 0 <= k < es.len() && es[k].to == q && j <= es[k].from < nn
                        && reached(nn, es, roots@, es[k].from as nat))),
            decreases j,
        {
            let p = j - 1;
            proof {
                // The node just below the swept part is now decided.
                assert(live@[p as int] == reached(nn, es, roots@, p as nat)) by {
                    let body = roots@.contains(p as usize) && p < nn || exists|k: int| 0 <= k < es.len() && es[k].to == p
                        && p < es[k].from < nn && #[trigger] reached(nn, es, roots@, es[k].from as nat);
                    lemma_reached_unfold(nn, es, roots@, p as nat);
                    assert(reached(nn, es, roots@, p as nat) == body);
                    let inv = roots@.contains(p as usize) || exists|k: int| 0 <= k < es.len() && es[k].to == p
                        && j <= es[k].from < nn && reached(nn, es, roots@, es[k].from as nat);
                    assert(live@[p as int] == inv);
                    if inv && !roots@.contains(p as usize) {
                        let k = choose|k: int| 0 <= k < es.len() && es[k].to == p && j <= es[k].from < nn
                            && reached(nn, es, roots@, es[k].from as nat);
                        assert(body);
                    }
                    if body && !roots@.contains(p as usize) {
                        let k = choose|k: int| 0 <= k < es.len() && es[k].to == p && p < es[k].from < nn
                            && #[trigger] reached(nn, es, roots@, es[k].from as nat);
                        assert(inv);
                    }
                }
            }
            if live[p] {
                let mut k: usize = 0;
                while k < self.edges.len()
                    invariant
                        k <= es.len(),
                        es == self.edges@,
                        p == j - 1,
                        j <= n,
                        n == self.nodes@.len(),
                        nn == n,
                        self.wf(),
                        live@.len() == n,
                        live@[p as int],
                        reached(nn, es, roots@, p as nat),
                        forall|q: int| p <= q < n ==> #[trigger] live@[q] == reached(nn, es, roots@, q as nat),
                        forall|q: int| 0 <= q < p ==> (#[trigger] live@[q] == (roots@.contains(q as usize)
                            || (exists|e: int| 0 <= e < es.len() && es[e].to == q && j <= es[e].from < nn
                                && reached(nn, es, roots@, es[e].from as nat))
                            || (exists|e: int| 0 <= e < k && es[e].to == q && es[e].from == p))),
                    decreases es.len() - k,
                {
                    let e = self.edges[k];
                    if e.from == p {
                        proof {
                            assert(es[k as int].to < es[k as int].from);
                        }
                        live.set(e.to, true);
                    }
                    k += 1;
                }
                proof {
                    assert forall|q: int| 0 <= q < p implies (#[trigger] live@[q] == (roots@.contains(q as usize)
                        || exists|e: int| 0 <= e < es.len() && es[e].to == q && p <= es[e].from < nn
                            && reached(nn, es, roots@, es[e].from as nat))) by {
                        if exists|e: int| 0 <= e < es.len() && es[e].to == q && p <= es[e].from < nn
                            && reached(nn, es, roots@, es[e].from as nat) {
                            let e = choose|e: int| 0 <= e < es.len() && es[e].to == q && p <= es[e].from < nn
                                && reached(nn, es, roots@, es[e].from as nat);
                            if es[e].from == p {
                                assert(exists|e2: int| 0 <= e2 < es.len() && es[e2].to == q && es[e2].from == p);
                            }
                        }
                        if exists|e: int| 0 <= e < es.len() && es[e].to == q && es[e].from == p {
                            let e = choose|e: int| 0 <= e < es.len() && es[e].to == q && es[e].from == p;
                            assert(reached(nn, es, roots@, es[e].from as nat));
                        }
                    }
                }
            } else {
                proof {
                    assert forall|q: int| 0 <= q < p implies (#[trigger] live@[q] == (roots@.contains(q as usize)
                        || exists|e: int| 0 <= e < es.len() && es[e].to == q && p <= es[e].from < nn
                            && reached(nn, es, roots@, es[e].from as nat))) by {
                        if exists|e: int| 0 <= e < es.len() && es[e].to == q && p <= es[e].from < nn
                            && reached(nn, es, roots@, es[e].from as nat) {
                            let e = choose|e: int| 0 <= e < es.len() && es[e].to == q && p <= es[e].from < nn
                                && reached(nn, es, roots@, es[e].from as nat);
                            if es[e].from == p {
                                assert(!reached(nn, es, roots@, p as nat));
                            }
                        }
                    }
                }
            }
            j -= 1;
        }
        live
    }
}

impl DataGraph {
    /// Remove the dead code: every node that no root reaches loses its edges. Nodes keep
    /// their indices; the result tells which of them remain.
    pub fn prune(&mut self, mutating: &Vec<bool>) -> (r: Vec<bool>)
        requires
            old(self).wf(),
        ensures
            final(self).wf(),
            final(self).nodes@ == old(self).nodes@,
            final(self).stack@ == old(self).stack@,
            final(self).under_stack@ == old(self).under_stack@,
            final(self).arg_count == old(self).arg_count,
            r@.len() == old(self).nodes@.len(),
            forall|i: int| 0 <= i < r@.len() ==> #[trigger] r@[i]
                == reached(old(self).nodes@.len(), old(self).edges@, old(self).roots_spec(mutating@), i as nat),
            final(self).edges@ == old(self).edges@.filter(from_live(r@)),
    {
        let roots = self.roots(mutating);
        let live = self.live_nodes(&roots);
        let ghost keep = from_live(live@);
        let mut kept: Vec<Edge> = Vec::new();
        let mut k: usize = 0;
        while k < self.edges.len()
            invariant
                k <= self.edges@.len(),
                self.wf(),
                live@.len() == self.nodes@.len(),
                keep == from_live(live@),
                kept@ == self.edges@.take(k as int).filter(keep),
                inputs_in_order(kept@),
                forall|q: int| 0 <= q < kept@.len() ==> exists|m: int| 0 <= m < k && #[trigger] kept@[q] == self.edges@[m],
            decreases self.edges@.len() - k,
        {
            let e = self.edges[k];
            proof {
                assert forall|q: int| 0 <= q < kept@.len() && (#[trigger] kept@[q]).from == e.from implies kept@[q].in_i < e.in_i by {
                    let m = choose|m: int| 0 <= m < k && #[trigger] kept@[q] == self.edges@[m];
                    assert(self.edges@[m].from == self.edges@[k as int].from);
                }
            }
            proof {
                assert(self.edges@.take(k + 1).drop_last() =~= self.edges@.take(k as int));
                assert(self.edges@.take(k + 1).last() == e);
            }
            let ghost before = kept@;
            if live[e.from] {
                kept.push(e);
                proof {
                    assert forall|q: int| 0 <= q < kept@.len() implies exists|m: int| 0 <= m < k + 1 && #[trigger] kept@[q] == self.edges@[m] by {
                        if q == kept@.len() - 1 {
                            assert(kept@[q] == self.edges@[k as int]);
                        } else {
                            assert(kept@[q] == before[q]);
                        }
                    }
                }
            }
            proof {
                reveal(Seq::filter);
                assert(keep(e) == live@[e.from as int]);
                let t = self.edges@.take(k + 1);
                assert(t.filter(keep) == (if keep(t.last()) { t.drop_last().filter(keep).push(t.last()) } else {
                    t.drop_last().filter(keep)
                }));
                assert(kept@ =~= t.filter(keep));
            }
            k += 1;
        }
        proof {
            assert(self.edges@.take(self.edges@.len() as int) =~= self.edges@);
            assert forall|i: int| 0 <= i < kept@.len() implies (#[trigger] kept@[i]).to < kept@[i].from
                && kept@[i].from < self.nodes@.len() by {
                assert(kept@.contains(kept@[i]));
                self.edges@.lemma_filter_contains_rev(keep, kept@[i]);
            }
        }
        self.edges = kept;
        live
    }

    /// The data graph of a function: its node simulated on empty stacks, then pruned of
    /// what neither the final stack nor an operation that `mutating` marks depends on.
    /// Gives the graph and which of its nodes are kept.
    pub fn from_node(node: &SigNode, mutating: &Vec<bool>) -> (r: Result<(DataGraph, Vec<bool>), GraphError>)
        requires
            !(effect(0, 0, *node) is Wrong),
            node_bound(*node) <= usize::MAX,
        ensures
            effect(0, 0, *node) is Fails ==> r == Err::<(DataGraph, Vec<bool>), GraphError>(effect(0, 0, *node)->Fails_0),
            effect(0, 0, *node) matches Effect::Sizes(s, u, a) ==> r is Ok && {
                let (g, live) = r->Ok_0;
                &&& g.wf()
                &&& g.stack@.len() == s && g.under_stack@.len() == u && g.nodes@.len() == a
                &&& live@.len() == g.nodes@.len()
            },
            r is Ok ==> {
                let (g, live) = r->Ok_0;
                let full = sim(empty_graph(), *node);
                &&& g.nodes@ == full.nodes
                &&& g.stack@ == full.stack
                &&& g.under_stack@ == full.under
                &&& g.arg_count == full.args
                &&& g.edges@ == full.edges.filter(from_live(live@))
                &&& forall|i: int| 0 <= i < live@.len() ==> #[trigger] live@[i]
                    == reached(full.nodes.len(), full.edges, graph_roots(full, mutating@), i as nat)
            },
            r matches Ok((g, live)) ==> g.wf() && live@.len() == g.nodes@.len()
                && (forall|i: int| 0 <= i < g.edges@.len() ==> live@[(#[trigger] g.edges@[i]).from as int])
                && (forall|j: int| 0 <= j < g.stack@.len() ==> live@[(#[trigger] g.stack@[j]).0 as int]),
    {
        let mut g = DataGraph::new();
        match g.process_node(node) {
            Ok(()) => {},
            Err(e) => {
                return Err(e);
            },
        }
        let ghost before = g;
        let live = g.prune(mutating);
        proof {
            assert forall|i: int| 0 <= i < g.edges@.len() implies live@[(#[trigger] g.edges@[i]).from as int] by {
                assert(g.edges@.contains(g.edges@[i]));
                before.edges@.lemma_filter_contains_rev(from_live(live@), g.edges@[i]);
                reveal(Seq::filter);
                assert(from_live(live@)(g.edges@[i]));
            }
            let roots = before.roots_spec(mutating@);
            let m = mutating_nodes(before.nodes@, mutating@, before.nodes@.len() as int);
            assert forall|j: int| 0 <= j < g.stack@.len() implies live@[(#[trigger] g.stack@[j]).0 as int] by {
                let k = g.stack@[j].0;
                assert(roots[m.len() + j] == k);
                assert(roots.contains(k));
                assert(reached(before.nodes@.len(), before.edges@, roots, k as nat));
            }
        }
        Ok((g, live))
    }

    /// The roots in order: the marked operations, then the stack's nodes.
    pub open spec fn roots_spec(self, mutating: Seq<bool>) -> Seq<usize> {
        mutating_nodes(self.nodes@, mutating, self.nodes@.len() as int) + self.stack@.map_values(|e: (usize, usize)| e.0)
    }
}

} // verus!
