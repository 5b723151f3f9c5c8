use uiua_analysis::comp_type::ValueKind;
use uiua_analysis::graph::{GraphError, Node, Sig, SigNode};
use uiua_analysis::shape_infer::{
    infer_shapes, pervasive_info, reshape_info, rows_len, step_info, table_lead, transpose_n_info, CallKind, Info,
    InfoError, ShapedValue,
};

fn op(id: usize, args: usize, outputs: usize) -> SigNode {
    SigNode { sig: Some(Sig { args, outputs }), node: Node::Op(id) }
}

fn shaped(rank: usize, prefix: &[usize]) -> Info {
    let mut i = Info::unknown();
    i.rank = Some(rank);
    i.shape_prefix = prefix.to_vec();
    i
}

fn num(shape: &[usize], nums: &[usize]) -> ShapedValue {
    ShapedValue { kind: ValueKind::Num, shape: shape.to_vec(), nums: Some(nums.to_vec()) }
}

fn known(v: ShapedValue) -> Info {
    let mut i = Info::unknown();
    i.value = Some(v);
    i.finish()
}

#[test]
fn finish_completes_the_shape() {
    let mut i = shaped(3, &[2]);
    i.shape_suffix = vec![7, 8, 9];
    let f = i.finish();
    assert_eq!(f.shape_prefix, vec![2, 8, 9]);
    assert_eq!(f.shape_suffix, vec![2, 8, 9]);
    assert_eq!(f.scalar, Some(false));
    let v = known(num(&[2, 2], &[1, 2, 3, 4]));
    assert_eq!(v.rank, Some(2));
    assert_eq!(v.typ, Some(0));
    assert_eq!(v.shape_prefix, vec![2, 2]);
    let mut s = Info::unknown();
    s.scalar = Some(true);
    assert_eq!(s.finish().rank, Some(0));
    let partial = shaped(3, &[4]).finish();
    assert_eq!(partial.shape_prefix, vec![4]);
    assert_eq!(partial.scalar, Some(false));
}

#[test]
fn pervasive_ranks_and_shapes() {
    let r = pervasive_info(&vec![shaped(2, &[2, 3]), shaped(1, &[2])]).unwrap();
    assert_eq!(r.rank, Some(2));
    assert_eq!(r.shape_prefix, vec![2, 3]);
    let unknown_rank = pervasive_info(&vec![shaped(2, &[2, 3]), Info::unknown()]).unwrap();
    assert_eq!(unknown_rank.rank, None);
    assert!(matches!(pervasive_info(&vec![shaped(1, &[2]), shaped(1, &[3])]), Err(InfoError::ShapeMismatch)));
}

#[test]
fn step_range_len_transpose() {
    let (r, m) = step_info(&CallKind::Range, vec![known(num(&[], &[5]))]).unwrap();
    assert!(m.is_empty());
    assert_eq!(r.rank, Some(1));
    assert_eq!(r.shape_prefix, vec![5]);
    assert_eq!(r.typ, Some(0));
    let (r, _) = step_info(&CallKind::Range, vec![known(num(&[2], &[3, 4]))]).unwrap();
    assert_eq!(r.rank, Some(3));
    assert_eq!(r.shape_prefix, vec![3, 4, 2]);
    let (l, _) = step_info(&CallKind::Len, vec![shaped(2, &[4, 2]).finish()]).unwrap();
    assert_eq!(l.rank, Some(0));
    assert_eq!(l.scalar, Some(true));
    assert_eq!(l.value.unwrap().nums, Some(vec![4]));
    let (t, _) = step_info(&CallKind::Transpose, vec![shaped(3, &[2, 3, 4]).finish()]).unwrap();
    assert_eq!(t.shape_prefix, vec![3, 4, 2]);
    let t2 = transpose_n_info(-1, &shaped(3, &[2, 3, 4]).finish());
    assert_eq!(t2.shape_prefix, vec![4, 2, 3, 4]);
    assert_eq!(t2.shape_suffix, vec![2, 3]);
}

#[test]
fn step_multi_and_errors() {
    let (i, m) = step_info(&CallKind::UnKeep, vec![shaped(1, &[6]).finish()]).unwrap();
    assert_eq!(i.rank, None);
    assert_eq!(m.len(), 2);
    assert_eq!(m[1].shape_prefix, vec![6]);
    assert!(matches!(step_info(&CallKind::DeshapeSub(-2), vec![shaped(1, &[3]).finish()]), Err(InfoError::RankUnderflow)));
    let (d, _) = step_info(&CallKind::DeshapeSub(-1), vec![shaped(3, &[1, 2, 3]).finish()]).unwrap();
    assert_eq!(d.rank, Some(2));
    let (p, _) = step_info(&CallKind::Primes, vec![shaped(1, &[4]).finish()]).unwrap();
    assert_eq!(p.rank, Some(2));
    let (mo, _) = step_info(&CallKind::MemberOf, vec![shaped(1, &[3]).finish(), shaped(2, &[2, 3]).finish()]).unwrap();
    assert_eq!(mo.rank, Some(2));
    let (k, _) = step_info(&CallKind::Keep, vec![shaped(1, &[3]).finish(), shaped(2, &[3, 5]).finish()]).unwrap();
    assert_eq!(k.rank, Some(2));
    let (red, _) = step_info(&CallKind::Reduce, vec![shaped(2, &[3, 5]).finish()]).unwrap();
    assert_eq!(red.rank, Some(1));
    assert_eq!(red.shape_prefix, vec![5]);
}

#[test]
fn reshape_cases() {
    let left = known(num(&[], &[3]));
    let r = reshape_info(&left, &shaped(1, &[4])).unwrap();
    assert_eq!(r.shape_prefix, vec![3, 4]);
    assert_eq!(r.rank, Some(2));
    let list = known(num(&[2], &[5, 6]));
    let r = reshape_info(&list, &shaped(1, &[30])).unwrap();
    assert_eq!(r.shape_prefix, vec![5, 6]);
    assert_eq!(r.rank, Some(2));
    let chars = known(ShapedValue { kind: ValueKind::Char, shape: vec![], nums: None });
    assert!(matches!(reshape_info(&chars, &shaped(1, &[4])), Err(InfoError::ReshapeNeedsNumbers)));
    let table = known(num(&[2, 2], &[1, 2, 3, 4]));
    assert!(matches!(reshape_info(&table, &shaped(1, &[4])), Err(InfoError::ReshapeRankTooHigh)));
}

#[test]
fn row_counts_and_table_lead() {
    assert_eq!(rows_len(&vec![shaped(1, &[3]), shaped(1, &[1]), shaped(0, &[])]), Ok(Some(3)));
    assert_eq!(rows_len(&vec![shaped(1, &[3]), shaped(1, &[2])]), Err(InfoError::RowCountMismatch));
    assert_eq!(rows_len(&vec![shaped(1, &[3]), Info::unknown()]), Ok(None));
    let (lead, inc) = table_lead(&vec![shaped(1, &[2]), shaped(0, &[]), Info::unknown(), shaped(1, &[9])]);
    assert_eq!(lead, vec![2, 1]);
    assert!(inc);
}

#[test]
fn infer_a_program() {
    let kinds = vec![CallKind::Pervasive, CallKind::Len];
    let prog = SigNode { sig: Some(Sig { args: 2, outputs: 1 }), node: Node::Run(vec![op(0, 2, 1), op(1, 1, 1)]) };
    let args = vec![shaped(1, &[5]), shaped(0, &[])];
    let (g, res) = infer_shapes(&prog, &kinds, &vec![false, false], &args).unwrap();
    assert_eq!(res.len(), g.nodes.len());
    assert_eq!(res.len(), 4);
    let sum = res[2].as_ref().unwrap().as_ref().unwrap();
    assert_eq!(sum.0.rank, Some(1));
    assert_eq!(sum.0.shape_prefix, vec![5]);
    let len = res[3].as_ref().unwrap().as_ref().unwrap();
    assert_eq!(len.0.value.as_ref().unwrap().nums, Some(vec![5]));
    assert_eq!(len.0.rank, Some(0));
}

#[test]
fn infer_reports_mismatches_and_prunes() {
    let kinds = vec![CallKind::Pervasive, CallKind::Len];
    let prog = SigNode { sig: Some(Sig { args: 2, outputs: 1 }), node: Node::Run(vec![op(0, 2, 1), op(1, 1, 1)]) };
    let args = vec![shaped(1, &[5]), shaped(1, &[4])];
    let (_, res) = infer_shapes(&prog, &kinds, &vec![false, false], &args).unwrap();
    assert!(matches!(res[2], Some(Err(InfoError::ShapeMismatch))));
    assert!(matches!(res[3], Some(Err(InfoError::ShapeMismatch))));
    let dropped = SigNode {
        sig: Some(Sig { args: 1, outputs: 0 }),
        node: Node::Run(vec![op(1, 1, 1), SigNode { sig: Some(Sig { args: 1, outputs: 0 }), node: Node::Pop }]),
    };
    let (_, res) = infer_shapes(&dropped, &kinds, &vec![false, false], &args).unwrap();
    assert!(res.iter().all(|r| r.is_none()));
    let (_, res) = infer_shapes(&dropped, &kinds, &vec![false, true], &args).unwrap();
    assert!(res.iter().all(|r| r.is_some()));
    let bad = SigNode { sig: None, node: Node::Op(0) };
    assert!(matches!(infer_shapes(&bad, &kinds, &vec![], &args), Err(GraphError::NoSignature)));
}

#[test]
fn infer_rows_and_unknown_operations() {
    let kinds = vec![CallKind::Rows(op(1, 1, 1)), CallKind::Transpose];
    let prog = op(0, 1, 1);
    let args = vec![shaped(3, &[3, 4, 5])];
    let (_, res) = infer_shapes(&prog, &kinds, &vec![false, false], &args).unwrap();
    let rows = res[1].as_ref().unwrap().as_ref().unwrap();
    assert_eq!(rows.0.rank, Some(3));
    assert_eq!(rows.0.shape_prefix[0], 3);
    let unknown = vec![CallKind::Other];
    let (_, res) = infer_shapes(&op(5, 0, 1), &unknown, &vec![], &vec![]).unwrap();
    assert!(matches!(res[0], Some(Err(InfoError::UnknownOperation))));
    let none_deep = vec![CallKind::Rows(op(0, 1, 1))];
    let (_, res) = infer_shapes(&op(0, 1, 1), &none_deep, &vec![false], &args).unwrap();
    assert!(matches!(res[1], Some(Err(InfoError::TooDeep))));
}

#[test]
fn rows_of_a_function_with_two_outputs() {
    let dup_op = SigNode { sig: Some(Sig { args: 1, outputs: 2 }), node: Node::Op(1) };
    let kinds = vec![CallKind::Rows(dup_op), CallKind::Dup];
    let prog = SigNode { sig: Some(Sig { args: 1, outputs: 2 }), node: Node::Op(0) };
    let args = vec![shaped(2, &[3, 4])];
    let (g, res) = infer_shapes(&prog, &kinds, &vec![false, false], &args).unwrap();
    assert_eq!(g.nodes.len(), 2);
    let (_, outs) = res[1].as_ref().unwrap().as_ref().unwrap();
    assert_eq!(outs.len(), 2);
    for o in outs {
        assert_eq!(o.rank, Some(2));
        assert_eq!(o.shape_prefix[0], 3);
    }
}

#[test]
fn table_of_two_lists() {
    let kinds = vec![CallKind::Table(op(1, 2, 1)), CallKind::Other];
    let prog = op(0, 2, 1);
    let args = vec![shaped(1, &[3]), shaped(1, &[4])];
    let (_, res) = infer_shapes(&prog, &kinds, &vec![false, false], &args).unwrap();
    let table = res[2].as_ref().unwrap().as_ref().unwrap();
    assert_eq!(table.0.shape_prefix[..2], [3, 4]);
    let too_deep = vec![CallKind::Table(op(0, 2, 1))];
    let (_, res) = infer_shapes(&prog, &too_deep, &vec![false], &args).unwrap();
    assert!(matches!(res[2], Some(Err(InfoError::TooDeep))));
}
