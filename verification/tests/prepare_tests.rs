use uiua_analysis::comp_type::{Cast, CompType, Impl};
use uiua_analysis::graph::{Data, DataGraph, Edge};
use uiua_analysis::info::{KnownValue, NodeInfo, ShapeInfo, ValInfo};
use uiua_analysis::prepare::{
    prepare_graph, prepare_nodes, reduce_sum_and_product, standardize_comparisons, CompNode, Op, PreCompileGraph,
    PrimKind,
};
use uiua_analysis::range::RangeInfo;

fn scalar(range: RangeInfo) -> NodeInfo<i64> {
    NodeInfo { vals: vec![ValInfo::new(0, ShapeInfo::scalar(), range)], subfunc_idxs: vec![] }
}

/// A function of two arguments that applies program operation 0 to them.
fn binary_graph() -> DataGraph {
    DataGraph {
        nodes: vec![Data::Arg(0), Data::Arg(1), Data::Node(0)],
        edges: vec![
            Edge { from: 2, to: 0, out_i: 0, in_i: 0 },
            Edge { from: 2, to: 1, out_i: 0, in_i: 1 },
        ],
        stack: vec![(2, 0)],
        under_stack: vec![],
        arg_count: 2,
    }
}

fn ops(g: &PreCompileGraph<i64>) -> Vec<Op> {
    g.nodes.iter().map(|n| n.op).collect()
}

fn no_negate(x: i64) -> i64 {
    x
}

#[test]
fn inputs_of_another_type_get_a_conversion() {
    let g = binary_graph();
    let infos = vec![
        scalar(RangeInfo::uint(200)),
        scalar(RangeInfo::new(1000, true, false)),
        scalar(RangeInfo::new(1000, true, false)),
    ];
    let live = vec![true, true, true];
    let p = prepare_nodes(&g, &live, &infos, &vec![PrimKind::Add]);
    assert_eq!(ops(&p), vec![
        Op::Data(Data::Arg(0)),
        Op::Data(Data::Arg(1)),
        Op::Data(Data::Node(0)),
        Op::Impl(Impl::Cast(Cast::UUp), 0),
    ]);
    assert_eq!(p.nodes[0].types, vec![CompType::Int(false, 0)]);
    assert_eq!(p.nodes[1].types, vec![CompType::Int(true, 1)]);
    assert_eq!(p.nodes[2].types, vec![CompType::Int(true, 1)]);
    assert_eq!(p.nodes[3].types, vec![CompType::Int(true, 1)]);
    assert_eq!(p.nodes[3].info.vals.len(), 1);
    assert_eq!(p.nodes[3].info.vals[0].range, RangeInfo::uint(200));
    assert_eq!(p.edges, vec![
        Edge { from: 2, to: 3, out_i: 0, in_i: 0 },
        Edge { from: 2, to: 1, out_i: 0, in_i: 1 },
        Edge { from: 3, to: 0, out_i: 0, in_i: 0 },
    ]);
    assert_eq!(p.alive, vec![true, true, true, true]);
    assert_eq!(p.stack, vec![(2, 0)]);
}

#[test]
fn nodes_not_kept_get_no_types_and_no_conversions() {
    let g = binary_graph();
    let infos = vec![
        scalar(RangeInfo::uint(200)),
        scalar(RangeInfo::new(1000, true, false)),
        scalar(RangeInfo::new(1000, true, false)),
    ];
    let live = vec![true, true, false];
    let p = prepare_nodes(&g, &live, &infos, &vec![PrimKind::Add]);
    assert_eq!(p.nodes.len(), 3);
    assert!(p.nodes[2].types.is_empty());
    assert_eq!(p.edges, g.edges);
    assert_eq!(p.alive, live);
}

#[test]
fn comparisons_convert_to_the_common_supertype_and_face_greater() {
    let g = binary_graph();
    let infos = vec![
        scalar(RangeInfo::uint(200)),
        scalar(RangeInfo::new(3, false, true)),
        scalar(RangeInfo::bool()),
    ];
    let live = vec![true, true, true];
    let r = prepare_graph(&g, &live, &infos, &vec![PrimKind::Lt], &vec![], &vec![], &no_negate);
    assert_eq!(ops(&r), vec![
        Op::Data(Data::Arg(0)),
        Op::Data(Data::Arg(1)),
        Op::Prim(PrimKind::Gt, 0),
        Op::Impl(Impl::Cast(Cast::UtoF), 0),
    ]);
    assert_eq!(r.nodes[3].types, vec![CompType::Float(true)]);
    assert_eq!(r.nodes[2].types, vec![CompType::Bool]);
    assert_eq!(r.edges, vec![
        Edge { from: 2, to: 3, out_i: 0, in_i: 1 },
        Edge { from: 2, to: 1, out_i: 0, in_i: 0 },
        Edge { from: 3, to: 0, out_i: 0, in_i: 0 },
    ]);
    assert_eq!(r.stack, vec![(2, 0)]);
}

#[test]
fn not_equal_becomes_not_of_equal() {
    let g = binary_graph();
    let known = NodeInfo {
        vals: vec![ValInfo::new(0, ShapeInfo::Known(KnownValue { value: 5, shape: vec![] }), RangeInfo::bool())],
        subfunc_idxs: vec![],
    };
    let infos = vec![scalar(RangeInfo::uint(9)), scalar(RangeInfo::uint(9)), known];
    let live = vec![true, true, true];
    let negate = |x: i64| 1 - x;
    let r = prepare_graph(&g, &live, &infos, &vec![PrimKind::Ne], &vec![], &vec![], &negate);
    assert_eq!(ops(&r), vec![
        Op::Data(Data::Arg(0)),
        Op::Data(Data::Arg(1)),
        Op::Data(Data::Node(0)),
        Op::Prim(PrimKind::Eq, 0),
        Op::Prim(PrimKind::Not, 0),
    ]);
    assert_eq!(r.alive, vec![true, true, false, true, true]);
    match &r.nodes[3].info.vals[0].shape {
        ShapeInfo::Known(k) => assert_eq!(k.value, -4),
        _ => panic!("the equality keeps a known value"),
    }
    match &r.nodes[4].info.vals[0].shape {
        ShapeInfo::Known(k) => assert_eq!(k.value, 5),
        _ => panic!("the negation keeps the known value"),
    }
    assert_eq!(r.nodes[3].types, vec![CompType::Bool]);
    assert_eq!(r.nodes[4].types, vec![CompType::Bool]);
    assert_eq!(r.edges, vec![
        Edge { from: 3, to: 0, out_i: 0, in_i: 0 },
        Edge { from: 3, to: 1, out_i: 0, in_i: 1 },
        Edge { from: 4, to: 3, out_i: 0, in_i: 0 },
    ]);
    assert_eq!(r.stack, vec![(4, 0)]);
}

/// A reduction (program operation 0) of argument 0 with the function `subfuncs[0]`.
fn reduce_graph() -> (DataGraph, Vec<NodeInfo<i64>>) {
    let g = DataGraph {
        nodes: vec![Data::Arg(0), Data::Node(0)],
        edges: vec![Edge { from: 1, to: 0, out_i: 0, in_i: 0 }],
        stack: vec![(1, 0)],
        under_stack: vec![],
        arg_count: 1,
    };
    let mut reduced = scalar(RangeInfo::uint(1000));
    reduced.subfunc_idxs = vec![0];
    (g, vec![scalar(RangeInfo::uint(10)), reduced])
}

#[test]
fn reducing_with_addition_is_a_sum() {
    let (g, infos) = reduce_graph();
    let mut sub = binary_graph();
    sub.nodes[2] = Data::Node(1);
    let subfuncs = vec![(sub, vec![true, true, true])];
    let kinds = vec![PrimKind::Reduce, PrimKind::Add];
    let r = prepare_graph(&g, &vec![true, true], &infos, &kinds, &vec![false, true], &subfuncs, &no_negate);
    assert_eq!(ops(&r), vec![Op::Data(Data::Arg(0)), Op::Impl(Impl::Sum, 1)]);
    let kinds = vec![PrimKind::Reduce, PrimKind::Mul];
    let r = prepare_graph(&g, &vec![true, true], &infos, &kinds, &vec![false, true], &subfuncs, &no_negate);
    assert_eq!(ops(&r), vec![Op::Data(Data::Arg(0)), Op::Impl(Impl::Product, 1)]);
}

#[test]
fn reducing_with_other_functions_is_kept() {
    let (g, infos) = reduce_graph();
    let mut sub = binary_graph();
    sub.nodes[2] = Data::Node(1);
    let subfuncs = vec![(sub, vec![true, true, true])];
    // Not pure.
    let kinds = vec![PrimKind::Reduce, PrimKind::Add];
    let r = prepare_graph(&g, &vec![true, true], &infos, &kinds, &vec![false, false], &subfuncs, &no_negate);
    assert_eq!(ops(&r), vec![Op::Data(Data::Arg(0)), Op::Data(Data::Node(0))]);
    // Not an addition or multiplication.
    let kinds = vec![PrimKind::Reduce, PrimKind::Sub];
    let r = prepare_graph(&g, &vec![true, true], &infos, &kinds, &vec![false, true], &subfuncs, &no_negate);
    assert_eq!(ops(&r), vec![Op::Data(Data::Arg(0)), Op::Data(Data::Node(0))]);
    // Taking one argument twice.
    let mut sub = binary_graph();
    sub.nodes[2] = Data::Node(1);
    sub.edges[1].to = 0;
    let subfuncs = vec![(sub, vec![true, true, true])];
    let kinds = vec![PrimKind::Reduce, PrimKind::Add];
    let r = prepare_graph(&g, &vec![true, true], &infos, &kinds, &vec![false, true], &subfuncs, &no_negate);
    assert_eq!(ops(&r), vec![Op::Data(Data::Arg(0)), Op::Data(Data::Node(0))]);
}

fn node(op: Op) -> CompNode<i64> {
    CompNode { op, info: scalar(RangeInfo::bool()), types: vec![CompType::Bool] }
}

#[test]
fn less_or_equal_becomes_greater_or_equal_with_inputs_swapped() {
    let g = PreCompileGraph {
        nodes: vec![node(Op::Data(Data::Arg(0))), node(Op::Data(Data::Arg(1))), node(Op::Data(Data::Node(0)))],
        alive: vec![true, true, true],
        edges: vec![
            Edge { from: 2, to: 0, out_i: 0, in_i: 0 },
            Edge { from: 2, to: 1, out_i: 0, in_i: 1 },
        ],
        stack: vec![(2, 0)],
    };
    let r = standardize_comparisons(g, &vec![PrimKind::Le], &no_negate);
    assert_eq!(ops(&r)[2], Op::Prim(PrimKind::Ge, 0));
    assert_eq!(r.edges, vec![
        Edge { from: 2, to: 0, out_i: 0, in_i: 1 },
        Edge { from: 2, to: 1, out_i: 0, in_i: 0 },
    ]);
}

#[test]
fn removed_comparisons_are_left_alone() {
    let g = PreCompileGraph {
        nodes: vec![node(Op::Data(Data::Arg(0))), node(Op::Data(Data::Node(0)))],
        alive: vec![true, false],
        edges: vec![Edge { from: 1, to: 0, out_i: 0, in_i: 0 }],
        stack: vec![],
    };
    let r = standardize_comparisons(g, &vec![PrimKind::Ne], &no_negate);
    assert_eq!(r.nodes.len(), 2);
    assert_eq!(ops(&r)[1], Op::Data(Data::Node(0)));
    assert_eq!(r.edges, vec![Edge { from: 1, to: 0, out_i: 0, in_i: 0 }]);
}

#[test]
fn reduction_rewrite_keeps_the_rest() {
    let mut reduce = node(Op::Data(Data::Node(0)));
    reduce.info.subfunc_idxs = vec![0];
    let g = PreCompileGraph {
        nodes: vec![node(Op::Data(Data::Arg(0))), reduce],
        alive: vec![true, true],
        edges: vec![Edge { from: 1, to: 0, out_i: 0, in_i: 0 }],
        stack: vec![(1, 0)],
    };
    let mut sub = binary_graph();
    sub.nodes[2] = Data::Node(1);
    let subfuncs = vec![(sub, vec![true, true, true])];
    let r = reduce_sum_and_product(g, &vec![PrimKind::Reduce, PrimKind::Mul], &vec![true, true], &subfuncs);
    assert_eq!(ops(&r), vec![Op::Data(Data::Arg(0)), Op::Impl(Impl::Product, 1)]);
    assert_eq!(r.edges, vec![Edge { from: 1, to: 0, out_i: 0, in_i: 0 }]);
    assert_eq!(r.stack, vec![(1, 0)]);
    assert_eq!(r.nodes[1].types, vec![CompType::Bool]);
}

#[test]
fn spans_of_operations() {
    let spans = vec![Some(4), None];
    assert_eq!(Op::Data(Data::Node(0))._span(&spans), Some(4));
    assert_eq!(Op::Data(Data::Node(1))._span(&spans), None);
    assert_eq!(Op::Impl(Impl::Sum, 0)._span(&spans), Some(4));
    assert_eq!(Op::Prim(PrimKind::Eq, 0)._span(&spans), None);
    assert_eq!(Op::Data(Data::Arg(0))._span(&spans), None);
}

#[test]
fn new_prepared_graph_is_empty() {
    let g: PreCompileGraph<i64> = PreCompileGraph::new();
    assert!(g.nodes.is_empty() && g.alive.is_empty() && g.edges.is_empty() && g.stack.is_empty());
}
