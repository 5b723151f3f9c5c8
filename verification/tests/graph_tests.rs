use uiua_analysis::graph::{Data, DataGraph, Edge, GraphError, Modifier, Node, Sig, SigNode, SubSide};

fn op(id: usize, args: usize, outputs: usize) -> SigNode {
    SigNode { sig: Some(Sig { args, outputs }), node: Node::Op(id) }
}

fn with_sig(args: usize, outputs: usize, node: Node) -> SigNode {
    SigNode { sig: Some(Sig { args, outputs }), node }
}

fn run(nodes: Vec<SigNode>, args: usize, outputs: usize) -> SigNode {
    with_sig(args, outputs, Node::Run(nodes))
}

#[test]
fn op_takes_top_of_stack_as_first_input() {
    let mut g = DataGraph::new();
    g.process_node(&run(vec![op(0, 0, 1), op(1, 0, 1), op(2, 2, 1)], 0, 1)).unwrap();
    assert_eq!(g.nodes, vec![Data::Node(0), Data::Node(1), Data::Node(2)]);
    assert_eq!(g.edges, vec![
        Edge { from: 2, to: 1, out_i: 0, in_i: 0 },
        Edge { from: 2, to: 0, out_i: 0, in_i: 1 },
    ]);
    assert_eq!(g.stack, vec![(2, 0)]);
    assert_eq!(g.arg_count, 0);
}

#[test]
fn missing_arguments_become_argument_nodes() {
    let mut g = DataGraph::new();
    g.process_node(&op(7, 2, 2)).unwrap();
    assert_eq!(g.nodes, vec![Data::Arg(0), Data::Arg(1), Data::Node(7)]);
    assert_eq!(g.arg_count, 2);
    assert_eq!(g.edges, vec![
        Edge { from: 2, to: 0, out_i: 0, in_i: 0 },
        Edge { from: 2, to: 1, out_i: 0, in_i: 1 },
    ]);
    assert_eq!(g.stack, vec![(2, 1), (2, 0)]);
}

#[test]
fn stack_manipulation_adds_no_nodes() {
    let mut g = DataGraph::new();
    let prog = run(vec![
        op(0, 0, 1),
        op(1, 0, 1),
        with_sig(2, 2, Node::Flip),
        with_sig(1, 0, Node::Pop),
        with_sig(0, 0, Node::Identity),
    ], 0, 1);
    g.process_node(&prog).unwrap();
    assert_eq!(g.nodes.len(), 2);
    assert_eq!(g.stack, vec![(1, 0)]);
}

#[test]
fn under_stack_round_trip() {
    let mut g = DataGraph::new();
    let prog = run(vec![
        op(0, 0, 1),
        op(1, 0, 1),
        with_sig(1, 0, Node::PushUnder(1)),
        with_sig(0, 1, Node::PopUnder(1)),
        with_sig(1, 1, Node::CopyToUnder(1)),
    ], 0, 2);
    g.process_node(&prog).unwrap();
    assert_eq!(g.stack, vec![(0, 0), (1, 0)]);
    assert_eq!(g.under_stack, vec![(1, 0)]);
}

#[test]
fn dip_and_on_keep_values() {
    let mut g = DataGraph::new();
    let prog = run(vec![
        op(0, 0, 1),
        op(1, 0, 1),
        with_sig(1, 1, Node::Mod(Modifier::Dip, vec![op(2, 1, 1)])),
    ], 0, 2);
    g.process_node(&prog).unwrap();
    assert_eq!(g.stack, vec![(2, 0), (1, 0)]);
    let mut h = DataGraph::new();
    let prog = run(vec![op(0, 0, 1), with_sig(1, 2, Node::Mod(Modifier::On, vec![op(1, 1, 1)]))], 0, 2);
    h.process_node(&prog).unwrap();
    assert_eq!(h.stack, vec![(1, 0), (0, 0)]);
}

#[test]
fn fork_and_both() {
    let mut g = DataGraph::new();
    let prog = with_sig(1, 2, Node::Fork(vec![op(1, 1, 1), op(2, 1, 1)]));
    g.process_node(&prog).unwrap();
    assert_eq!(g.nodes, vec![Data::Arg(0), Data::Node(2), Data::Node(1)]);
    assert_eq!(g.stack, vec![(1, 0), (2, 0)]);
    let mut h = DataGraph::new();
    let prog = with_sig(2, 2, Node::Mod(Modifier::Both, vec![op(3, 1, 1)]));
    h.process_node(&prog).unwrap();
    assert_eq!(h.nodes.len(), 4);
    assert_eq!(h.stack.len(), 2);
    let mut k = DataGraph::new();
    let prog = with_sig(3, 3, Node::BothImpl { num: Some(3), side: None, funcs: vec![op(4, 1, 1)] });
    k.process_node(&prog).unwrap();
    assert_eq!(k.nodes.len(), 6);
    assert_eq!(k.stack.len(), 3);
    let mut m = DataGraph::new();
    let prog = with_sig(3, 2, Node::BothImpl { num: None, side: Some((SubSide::Left, None)), funcs: vec![op(5, 2, 1)] });
    m.process_node(&prog).unwrap();
    assert_eq!(m.stack.len(), 2);
}

#[test]
fn graph_errors() {
    let mut g = DataGraph::new();
    let no_sig = SigNode { sig: None, node: Node::Op(0) };
    assert_eq!(g.process_node(&no_sig), Err(GraphError::NoSignature));
    let mut g = DataGraph::new();
    assert_eq!(g.process_node(&with_sig(0, 0, Node::CustomInverse(None))), Err(GraphError::NoInverse));
    let mut g = DataGraph::new();
    let two = with_sig(1, 1, Node::Mod(Modifier::Dip, vec![op(0, 0, 1), op(1, 0, 1)]));
    assert_eq!(g.process_node(&two), Err(GraphError::FuncCount(Modifier::Dip, 2)));
    assert_eq!(g.nodes, vec![Data::Arg(0)]);
    assert!(g.edges.is_empty());
    assert_eq!(g.stack, vec![(0, 0)]);
    let mut g = DataGraph::new();
    let on_empty = with_sig(0, 1, Node::Mod(Modifier::On, vec![op(0, 0, 1)]));
    assert_eq!(g.process_node(&on_empty), Err(GraphError::TooFewArguments));
}

#[test]
fn custom_inverse_uses_normal_form() {
    let mut g = DataGraph::new();
    let inv = with_sig(0, 1, Node::CustomInverse(Some(Box::new(op(3, 0, 1)))));
    g.process_node(&inv).unwrap();
    assert_eq!(g.nodes, vec![Data::Node(3)]);
}

#[test]
fn pruning_keeps_what_the_stack_and_mutation_need() {
    let prog = run(vec![op(0, 0, 1), op(1, 0, 1), with_sig(1, 0, Node::Pop), op(2, 1, 1)], 0, 1);
    let (g, live) = DataGraph::from_node(&prog, &vec![false, false, false]).unwrap();
    assert_eq!(live, vec![true, false, true]);
    assert_eq!(g.edges, vec![Edge { from: 2, to: 0, out_i: 0, in_i: 0 }]);
    let (_, live) = DataGraph::from_node(&prog, &vec![false, true, false]).unwrap();
    assert_eq!(live, vec![true, true, true]);
    let mut g = DataGraph::new();
    g.process_node(&prog).unwrap();
    assert_eq!(g.roots(&vec![false, true, false]), vec![1, 2]);
    assert_eq!(g.live_nodes(&vec![2]), vec![true, false, true]);
    let dropped = run(vec![op(0, 0, 1), op(1, 1, 1), with_sig(1, 0, Node::Pop)], 0, 0);
    let (g, live) = DataGraph::from_node(&dropped, &vec![]).unwrap();
    assert_eq!(live, vec![false, false]);
    assert!(g.edges.is_empty());
    assert_eq!(DataGraph::from_node(&SigNode { sig: None, node: Node::Identity }, &vec![]).err(), Some(GraphError::NoSignature));
}

fn two_values() -> SigNode {
    run(vec![op(10, 0, 1), op(11, 0, 1)], 0, 2)
}

#[test]
fn off_with_below_orders() {
    let mut g = DataGraph::new();
    g.process_node(&run(vec![two_values(), with_sig(1, 2, Node::Mod(Modifier::Off, vec![op(1, 1, 1)]))], 0, 3)).unwrap();
    assert_eq!(g.stack, vec![(0, 0), (1, 0), (2, 0)]);
    assert_eq!(g.edges, vec![Edge { from: 2, to: 1, out_i: 0, in_i: 0 }]);
    let mut g = DataGraph::new();
    g.process_node(&run(vec![two_values(), with_sig(1, 2, Node::Mod(Modifier::With, vec![op(1, 1, 1)]))], 0, 3)).unwrap();
    assert_eq!(g.stack, vec![(0, 0), (2, 0), (1, 0)]);
    let mut g = DataGraph::new();
    g.process_node(&run(vec![two_values(), with_sig(1, 2, Node::Mod(Modifier::Below, vec![op(1, 1, 1)]))], 0, 3)).unwrap();
    assert_eq!(g.stack, vec![(0, 0), (1, 0), (2, 0)]);
}

#[test]
fn dipn_and_bracket_orders() {
    let mut g = DataGraph::new();
    let three = run(vec![op(10, 0, 1), op(11, 0, 1), op(12, 0, 1)], 0, 3);
    g.process_node(&run(vec![three, with_sig(3, 3, Node::DipN(2, vec![op(1, 1, 1)]))], 0, 3)).unwrap();
    assert_eq!(g.stack, vec![(3, 0), (1, 0), (2, 0)]);
    assert_eq!(g.edges, vec![Edge { from: 3, to: 0, out_i: 0, in_i: 0 }]);
    let mut h = DataGraph::new();
    h.process_node(&run(vec![two_values(), with_sig(2, 2, Node::Bracket(vec![op(1, 1, 1), op(2, 1, 1)]))], 0, 2)).unwrap();
    assert_eq!(h.nodes, vec![Data::Node(10), Data::Node(11), Data::Node(2), Data::Node(1)]);
    assert_eq!(h.edges, vec![
        Edge { from: 2, to: 0, out_i: 0, in_i: 0 },
        Edge { from: 3, to: 1, out_i: 0, in_i: 0 },
    ]);
    assert_eq!(h.stack, vec![(2, 0), (3, 0)]);
}
