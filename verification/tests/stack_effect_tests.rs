use uiua_analysis::graph::{Modifier, Node, Sig, SigNode};
use uiua_analysis::shape_infer::{infer_ready, value_ok, CallKind, Info, ShapedValue};
use uiua_analysis::comp_type::ValueKind;
use uiua_analysis::stack_effect::{bound_of, builds, can_build, node_effect, EffectCheck};

fn op(id: usize, args: usize, outputs: usize) -> SigNode {
    SigNode { sig: Some(Sig { args, outputs }), node: Node::Op(id) }
}

fn with_sig(args: usize, outputs: usize, node: Node) -> SigNode {
    SigNode { sig: Some(Sig { args, outputs }), node }
}

#[test]
fn effect_of_a_run() {
    let prog = with_sig(2, 1, Node::Run(vec![op(0, 2, 1), op(1, 1, 1)]));
    assert!(matches!(node_effect(0, 0, &prog), EffectCheck::Sizes(1, 0, 4)));
    assert_eq!(bound_of(&prog), Some(7));
    assert!(can_build(&prog));
    assert!(builds(&prog));
}

#[test]
fn effect_wrong_and_failing() {
    // `flip` on a stack of one value goes wrong.
    let flip = with_sig(1, 1, Node::Flip);
    assert!(matches!(node_effect(0, 0, &flip), EffectCheck::Wrong));
    assert!(!can_build(&flip));
    // A modifier with two functions fails.
    let two = with_sig(1, 1, Node::Mod(Modifier::Dip, vec![op(0, 0, 1), op(1, 0, 1)]));
    assert!(matches!(node_effect(0, 0, &two), EffectCheck::Fails));
    assert!(can_build(&two));
    assert!(!builds(&two));
    let no_sig = SigNode { sig: None, node: Node::Op(0) };
    assert!(matches!(node_effect(0, 0, &no_sig), EffectCheck::Fails));
}

#[test]
fn bound_overflow() {
    let big = with_sig(usize::MAX, 0, Node::Op(0));
    assert_eq!(bound_of(&big), None);
    assert!(!can_build(&big));
}

#[test]
fn value_consistency() {
    let ok = ShapedValue { kind: ValueKind::Num, shape: vec![2, 3], nums: Some(vec![0; 6]) };
    assert!(value_ok(&ok));
    let short = ShapedValue { kind: ValueKind::Num, shape: vec![2, 3], nums: Some(vec![0; 5]) };
    assert!(!value_ok(&short));
    let empty = ShapedValue { kind: ValueKind::Byte, shape: vec![usize::MAX, 0], nums: Some(vec![]) };
    assert!(value_ok(&empty));
    let huge = ShapedValue { kind: ValueKind::Num, shape: vec![usize::MAX, 2], nums: Some(vec![]) };
    assert!(!value_ok(&huge));
    let chars = ShapedValue { kind: ValueKind::Char, shape: vec![4], nums: None };
    assert!(value_ok(&chars));
}

#[test]
fn ready_for_inference() {
    let prog = with_sig(1, 1, Node::Op(0));
    let kinds = vec![CallKind::Pervasive];
    assert!(infer_ready(&prog, &kinds, &vec![Info::unknown()]));
    let mut bad = Info::unknown();
    bad.value = Some(ShapedValue { kind: ValueKind::Num, shape: vec![2], nums: Some(vec![1]) });
    assert!(!infer_ready(&prog, &kinds, &vec![bad]));
    let failing_rows = vec![CallKind::Rows(with_sig(1, 1, Node::CustomInverse(None)))];
    assert!(!infer_ready(&prog, &failing_rows, &vec![]));
    assert!(!infer_ready(&with_sig(1, 1, Node::Flip), &kinds, &vec![]));
}
