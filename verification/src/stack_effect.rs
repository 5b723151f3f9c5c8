//! Computing ahead of building a data graph what processing a node does to the sizes
//! of the stacks, so that a caller can tell whether the graph can be built.

use vstd::prelude::*;
use crate::graph::{
    SigNode, Node, Sig, Modifier, SubSide, Effect, effect, body_effect, mod_effect, dipn_effect, both_impl_effect,
    effect_run, effect_fork, effect_bracket, effect_times, then_add, then_push, both_twice, node_bound, bound_sum,
    sig_args,
};

verus! {

/// An effect as computed with machine integers: as the effect says, or `Large` where
/// some size would not fit in a `usize`.
pub enum EffectCheck {
    Fails,
    Wrong,
    Sizes(usize, usize, usize),
    Large,
}

/// The computed effect agrees with the effect, unless it was too large to compute.
pub open spec fn agrees(c: EffectCheck, e: Effect) -> bool {
    match c {
        EffectCheck::Fails => e is Fails,
        EffectCheck::Wrong => e is Wrong,
        EffectCheck::Sizes(s, u, a) => e == Effect::Sizes(s as nat, u as nat, a as nat),
        EffectCheck::Large => true,
    }
}

fn add_nodes(c: EffectCheck, k: usize) -> (r: EffectCheck)
    ensures
        forall|e: Effect| agrees(c, e) ==> agrees(r, #[trigger] then_add(e, k as nat)),
{
    match c {
        EffectCheck::Sizes(s, u, a) => if a <= usize::MAX - k { EffectCheck::Sizes(s, u, a + k) } else { EffectCheck::Large },
        other => other,
    }
}

fn push_vals(c: EffectCheck, k: usize) -> (r: EffectCheck)
    ensures
        forall|e: Effect| agrees(c, e) ==> agrees(r, #[trigger] then_push(e, k as nat)),
{
    match c {
        EffectCheck::Sizes(s, u, a) => if s <= usize::MAX - k { EffectCheck::Sizes(s + k, u, a) } else { EffectCheck::Large },
        other => other,
    }
}

/// The effect of `n` on a stack of `sl` values and an under-stack of `ul`.
pub fn node_effect(sl: usize, ul: usize, n: &SigNode) -> (r: EffectCheck)
    ensures
        agrees(r, effect(sl as nat, ul as nat, *n)),
    decreases *n, 1nat, 0nat,
{
    match n.sig {
        None => EffectCheck::Fails,
        Some(sig) => {
            let added: usize = if sig.args > sl { sig.args - sl } else { 0 };
            let b = body_eff(sl + added, ul, sig, n);
            add_nodes(b, added)
        },
    }
}

fn body_eff(s: usize, ul: usize, sig: Sig, n: &SigNode) -> (r: EffectCheck)
    requires
        s >= sig.args,
    ensures
        agrees(r, body_effect(s as nat, ul as nat, sig, *n)),
    decreases *n, 0nat, 0nat,
{
    match &n.node {
        Node::CustomInverse(normal) => match normal {
            Some(f) => node_effect(s, ul, f),
            None => EffectCheck::Fails,
        },
        Node::PushUnder(k) => if *k <= s {
            if ul <= usize::MAX - *k { EffectCheck::Sizes(s - *k, ul + *k, 0) } else { EffectCheck::Large }
        } else {
            EffectCheck::Wrong
        },
        Node::CopyToUnder(k) => if *k <= s {
            if ul <= usize::MAX - *k { EffectCheck::Sizes(s, ul + *k, 0) } else { EffectCheck::Large }
        } else {
            EffectCheck::Wrong
        },
        Node::PopUnder(k) => if *k <= ul {
            if s <= usize::MAX - *k { EffectCheck::Sizes(s + *k, ul - *k, 0) } else { EffectCheck::Large }
        } else {
            EffectCheck::Wrong
        },
        Node::Identity => EffectCheck::Sizes(s, ul, 0),
        Node::Pop => EffectCheck::Sizes(if s > 0 { s - 1 } else { 0 }, ul, 0),
        Node::Flip => if s >= 2 { EffectCheck::Sizes(s, ul, 0) } else { EffectCheck::Wrong },
        Node::Mod(m, funcs) => mod_eff(s, ul, sig, *m, funcs),
        Node::DipN(k, funcs) => dipn_eff(s, ul, *k, funcs),
        Node::Fork(funcs) => {
            proof {
                assert(funcs@.take(funcs@.len() as int) =~= funcs@);
            }
            fork_eff(s - sig.args, ul, funcs, funcs.len(), sig.args)
        },
        Node::Bracket(funcs) => {
            proof {
                assert(funcs@.take(funcs@.len() as int) =~= funcs@);
            }
            bracket_eff(s - sig.args, ul, funcs, funcs.len(), sig.args)
        },
        Node::BothImpl { num, side, funcs } => both_impl_eff(s, ul, *num, *side, funcs),
        Node::Run(nodes) => {
            proof {
                assert(nodes@.take(nodes@.len() as int) =~= nodes@);
            }
            run_eff(s, ul, nodes, nodes.len())
        },
        Node::Op(_) => if s - sig.args <= usize::MAX - sig.outputs {
            EffectCheck::Sizes(s - sig.args + sig.outputs, ul, 1)
        } else {
            EffectCheck::Large
        },
    }
}

fn mod_eff(s: usize, ul: usize, sig: Sig, m: Modifier, funcs: &Vec<SigNode>) -> (r: EffectCheck)
    ensures
        agrees(r, mod_effect(s as nat, ul as nat, sig, m, funcs@)),
    decreases *funcs, 0nat, 0nat,
{
    if funcs.len() != 1 {
        return EffectCheck::Fails;
    }
    let f = &funcs[0];
    let fs = match f.sig {
        None => {
            return EffectCheck::Fails;
        },
        Some(fs) => fs,
    };
    match m {
        Modifier::On => if s == 0 { EffectCheck::Fails } else { push_vals(node_effect(s, ul, f), 1) },
        Modifier::Off => if s == 0 {
            EffectCheck::Fails
        } else if fs.args > s {
            EffectCheck::Wrong
        } else if s < usize::MAX {
            node_effect(s + 1, ul, f)
        } else {
            EffectCheck::Large
        },
        Modifier::With => if fs.args > s {
            EffectCheck::Fails
        } else if fs.args == 0 {
            EffectCheck::Wrong
        } else {
            push_vals(node_effect(s, ul, f), 1)
        },
        Modifier::Dip => if s == 0 { EffectCheck::Fails } else { push_vals(node_effect(s - 1, ul, f), 1) },
        Modifier::Below => if s <= usize::MAX - sig.args { node_effect(s + sig.args, ul, f) } else { EffectCheck::Large },
        Modifier::Both => if fs.args > s {
            EffectCheck::Wrong
        } else {
            let first = node_effect(s - fs.args, ul, f);
            proof {
                let e = effect((s - fs.args) as nat, ul as nat, *f);
                assert(agrees(first, e));
            }
            match first {
                EffectCheck::Sizes(s1, u1, a1) => if s1 <= usize::MAX - fs.args {
                    let second = node_effect(s1 + fs.args, u1, f);
                    add_nodes(second, a1)
                } else {
                    EffectCheck::Large
                },
                other => other,
            }
        },
    }
}

fn dipn_eff(s: usize, ul: usize, k: usize, funcs: &Vec<SigNode>) -> (r: EffectCheck)
    ensures
        agrees(r, dipn_effect(s as nat, ul as nat, k, funcs@)),
    decreases *funcs, 0nat, 0nat,
{
    if funcs.len() != 1 {
        EffectCheck::Fails
    } else if k > s {
        EffectCheck::Wrong
    } else {
        push_vals(node_effect(s - k, ul, &funcs[0]), k)
    }
}

fn both_impl_eff(s: usize, ul: usize, num: Option<u8>, side: Option<(SubSide, Option<u8>)>, funcs: &Vec<SigNode>)
    -> (r: EffectCheck)
    ensures
        agrees(r, both_impl_effect(s as nat, ul as nat, num, side, funcs@)),
    decreases *funcs, 0nat, 0nat,
{
    if funcs.len() != 1 {
        return EffectCheck::Fails;
    }
    let f = &funcs[0];
    let fs = match f.sig {
        None => {
            return EffectCheck::Fails;
        },
        Some(fs) => fs,
    };
    let args: usize = if fs.args >= 1 { fs.args } else { 1 };
    let count: usize = match num { Some(c) => c as usize, None => 2 };
    let (right, rep): (bool, usize) = match side {
        Some((sd, k)) => (sd == SubSide::Right, match k { Some(x) => x as usize, None => 1 }),
        None => (false, 0),
    };
    if rep > args {
        return EffectCheck::Wrong;
    }
    let left_over = (args - rep) as u128;
    proof {
        let m: int = 0xffff_ffff_ffff_ffff;
        assert(left_over <= m && args <= m && count <= m);
        assert(left_over * (args as u128) <= m * m) by (nonlinear_arith)
            requires left_over <= m, args as int <= m, left_over >= 0, args >= 0;
        assert(left_over * (count as u128) <= m * m) by (nonlinear_arith)
            requires left_over <= m, count as int <= m, left_over >= 0, count >= 0;
    }
    if right && left_over * (args as u128) + (rep as u128) > s as u128 {
        return EffectCheck::Wrong;
    }
    if !right && rep > s {
        return EffectCheck::Wrong;
    }
    if left_over * (count as u128) > (s - rep) as u128 {
        return EffectCheck::Wrong;
    }
    let start: usize = ((s - rep) as u128 - left_over * (count as u128)) as usize;
    times_eff(start, ul, f, count, args)
}

fn times_eff(sl: usize, ul: usize, f: &SigNode, count: usize, args: usize) -> (r: EffectCheck)
    ensures
        agrees(r, effect_times(sl as nat, ul as nat, *f, count as nat, args as nat)),
    decreases *f, count + 2, 0nat,
{
    if count == 0 {
        return EffectCheck::Sizes(sl, ul, 0);
    }
    if sl > usize::MAX - args {
        return EffectCheck::Large;
    }
    let first = node_effect(sl + args, ul, f);
    match first {
        EffectCheck::Sizes(s, u, a) => add_nodes(times_eff(s, u, f, count - 1, args), a),
        other => other,
    }
}

fn run_eff(sl: usize, ul: usize, nodes: &Vec<SigNode>, j: usize) -> (r: EffectCheck)
    requires
        j <= nodes@.len(),
    ensures
        agrees(r, effect_run(sl as nat, ul as nat, nodes@.take(j as int))),
    decreases *nodes, 0nat, j,
{
    if j == 0 {
        proof {
            assert(nodes@.take(0) =~= Seq::<SigNode>::empty());
        }
        return EffectCheck::Sizes(sl, ul, 0);
    }
    let ghost pre = nodes@.take(j as int);
    proof {
        assert(pre.drop_last() =~= nodes@.take(j - 1));
        assert(pre.last() == nodes@[j - 1]);
    }
    let before = run_eff(sl, ul, nodes, j - 1);
    match before {
        EffectCheck::Sizes(s, u, a) => add_nodes(node_effect(s, u, &nodes[j - 1]), a),
        other => other,
    }
}

fn fork_eff(sl: usize, ul: usize, funcs: &Vec<SigNode>, j: usize, reused: usize) -> (r: EffectCheck)
    requires
        j <= funcs@.len(),
    ensures
        agrees(r, effect_fork(sl as nat, ul as nat, funcs@.take(j as int), reused as nat)),
    decreases *funcs, 0nat, j,
{
    if j == 0 {
        proof {
            assert(funcs@.take(0) =~= Seq::<SigNode>::empty());
        }
        return EffectCheck::Sizes(sl, ul, 0);
    }
    let ghost pre = funcs@.take(j as int);
    proof {
        assert(pre.drop_last() =~= funcs@.take(j - 1));
        assert(pre.last() == funcs@[j - 1]);
    }
    let f = &funcs[j - 1];
    let fs = match f.sig {
        None => {
            return EffectCheck::Wrong;
        },
        Some(fs) => fs,
    };
    if fs.args > reused {
        return EffectCheck::Wrong;
    }
    if sl > usize::MAX - fs.args {
        return EffectCheck::Large;
    }
    match node_effect(sl + fs.args, ul, f) {
        EffectCheck::Sizes(s, u, a) => add_nodes(fork_eff(s, u, funcs, j - 1, reused), a),
        other => other,
    }
}

fn bracket_eff(sl: usize, ul: usize, funcs: &Vec<SigNode>, j: usize, remaining: usize) -> (r: EffectCheck)
    requires
        j <= funcs@.len(),
    ensures
        agrees(r, effect_bracket(sl as nat, ul as nat, funcs@.take(j as int), remaining as nat)),
    decreases *funcs, 0nat, j,
{
    if j == 0 {
        proof {
            assert(funcs@.take(0) =~= Seq::<SigNode>::empty());
        }
        return EffectCheck::Sizes(sl, ul, 0);
    }
    let ghost pre = funcs@.take(j as int);
    proof {
        assert(pre.drop_last() =~= funcs@.take(j - 1));
        assert(pre.last() == funcs@[j - 1]);
    }
    let f = &funcs[j - 1];
    let fs = match f.sig {
        None => {
            return EffectCheck::Wrong;
        },
        Some(fs) => fs,
    };
    if fs.args > remaining {
        return EffectCheck::Wrong;
    }
    if sl > usize::MAX - fs.args {
        return EffectCheck::Large;
    }
    match node_effect(sl + fs.args, ul, f) {
        EffectCheck::Sizes(s, u, a) => add_nodes(bracket_eff(s, u, funcs, j - 1, remaining - fs.args), a),
        other => other,
    }
}

/// The bound on the nodes that processing `n` adds, or `None` if it exceeds `usize`.
pub fn bound_of(n: &SigNode) -> (r: Option<usize>)
    ensures
        r is Some ==> r->0 == node_bound(*n),
        r is None ==> node_bound(*n) > usize::MAX,
    decreases *n, 1nat, 0nat,
{
    let a: usize = match n.sig { Some(s) => s.args, None => 0 };
    let rest: Option<usize> = match &n.node {
        Node::CustomInverse(normal) => match normal {
            Some(f) => bound_of(f),
            None => Some(0),
        },
        Node::Mod(_, funcs) => if funcs.len() == 1 {
            proof {
                assert(node_bound(*n) == sig_args(n.sig) + 2 * node_bound(funcs@[0]));
            }
            match bound_of(&funcs[0]) {
                Some(b) => if b <= usize::MAX / 2 { Some(2 * b) } else { None },
                None => None,
            }
        } else {
            Some(0)
        },
        Node::DipN(_, funcs) => if funcs.len() == 1 {
            proof {
                assert(node_bound(*n) == sig_args(n.sig) + node_bound(funcs@[0]));
            }
            bound_of(&funcs[0])
        } else {
            Some(0)
        },
        Node::Fork(funcs) => {
            proof {
                assert(funcs@.take(funcs@.len() as int) =~= funcs@);
            }
            bound_sum_of(funcs, funcs.len())
        },
        Node::Bracket(funcs) => {
            proof {
                assert(funcs@.take(funcs@.len() as int) =~= funcs@);
            }
            bound_sum_of(funcs, funcs.len())
        },
        Node::Run(nodes) => {
            proof {
                assert(nodes@.take(nodes@.len() as int) =~= nodes@);
            }
            bound_sum_of(nodes, nodes.len())
        },
        Node::BothImpl { num, funcs, .. } => if funcs.len() == 1 {
            let c: usize = match num { Some(c) => *c as usize, None => 2 };
            proof {
                assert(node_bound(*n) == sig_args(n.sig) + c * node_bound(funcs@[0]));
            }
            if c == 0 {
                proof {
                    let nb = node_bound(funcs@[0]);
                    assert(c * nb == 0) by (nonlinear_arith)
                        requires c == 0;
                }
                Some(0)
            } else {
                match bound_of(&funcs[0]) {
                    Some(b) => if b <= usize::MAX / c {
                        proof {
                            assert(c * b <= usize::MAX) by (nonlinear_arith)
                                requires b <= usize::MAX / c, c > 0;
                            assert(b == node_bound(funcs@[0]));
                        }
                        Some(c * b)
                    } else {
                        proof {
                            assert(c * b > usize::MAX) by (nonlinear_arith)
                                requires b > usize::MAX / c, c > 0;
                        }
                        None
                    },
                    None => {
                        proof {
                            let nb = node_bound(funcs@[0]);
                            assert(c * nb >= nb) by (nonlinear_arith)
                                requires c >= 1, nb >= 0;
                        }
                        None
                    },
                }
            }
        } else {
            Some(0)
        },
        Node::Op(_) => Some(1),
        _ => Some(0),
    };
    proof {
        assert(a as nat == sig_args(n.sig));
        assert(rest is Some ==> sig_args(n.sig) + rest->0 == node_bound(*n));
        assert(rest is None ==> node_bound(*n) > usize::MAX);
    }
    match rest {
        Some(b) => if a <= usize::MAX - b { Some(a + b) } else { None },
        None => None,
    }
}

fn bound_sum_of(ns: &Vec<SigNode>, j: usize) -> (r: Option<usize>)
    requires
        j <= ns@.len(),
    ensures
        r is Some ==> r->0 == bound_sum(ns@.take(j as int)),
        r is None ==> bound_sum(ns@.take(j as int)) > usize::MAX,
    decreases *ns, 0nat, j,
{
    if j == 0 {
        proof {
            assert(ns@.take(0) =~= Seq::<SigNode>::empty());
        }
        return Some(0);
    }
    let ghost pre = ns@.take(j as int);
    proof {
        assert(pre.drop_last() =~= ns@.take(j - 1));
        assert(pre.last() == ns@[j - 1]);
    }
    match (bound_sum_of(ns, j - 1), bound_of(&ns[j - 1])) {
        (Some(a), Some(b)) => if a <= usize::MAX - b { Some(a + b) } else { None },
        _ => None,
    }
}

/// The graph of `n` can be built on empty stacks: its effect there does not go wrong
/// and the nodes it may add can be counted in a `usize`. `false` also where a size of
/// the stacks along the way does not fit in a `usize`.
pub fn can_build(n: &SigNode) -> (r: bool)
    ensures
        r ==> !(effect(0, 0, *n) is Wrong) && node_bound(*n) <= usize::MAX,
        node_bound(*n) > usize::MAX ==> !r,
        effect(0, 0, *n) is Wrong ==> !r,
{
    let e = node_effect(0, 0, n);
    match e {
        EffectCheck::Fails | EffectCheck::Sizes(_, _, _) => bound_of(n).is_some(),
        _ => false,
    }
}

/// The graph of `n` can be built on empty stacks, without failing: what a function of
/// `rows` or `table` needs. `false` also where a size does not fit in a `usize`.
pub fn builds(n: &SigNode) -> (r: bool)
    ensures
        r ==> effect(0, 0, *n) is Sizes && node_bound(*n) <= usize::MAX,
        !(effect(0, 0, *n) is Sizes) ==> !r,
        node_bound(*n) > usize::MAX ==> !r,
{
    let e = node_effect(0, 0, n);
    match e {
        EffectCheck::Sizes(_, _, _) => bound_of(n).is_some(),
        _ => false,
    }
}

} // verus!
