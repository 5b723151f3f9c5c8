//! Shape inference with concrete axis lengths: for each node of a program, what is
//! known of its type, rank and shape (a known prefix and suffix of the axis lengths),
//! and of its value where that is known ahead of time.

use vstd::prelude::*;
use crate::comp_type::ValueKind;
use crate::concrete::{pervade_shape, pervadable, pervade_len, len_or_one, max_len2};
use crate::array_ref::{seq_product, lemma_product_front};
use crate::graph::{SigNode, DataGraph, Data, Edge, GraphV, reached, effect, Effect, node_bound, can_process, sim, empty_graph, graph_roots};

verus! {

/// A value known ahead of time, as far as shape inference reads it: its kind, its
/// shape, and for a numeric array its elements as whole numbers.
pub struct ShapedValue {
    pub kind: ValueKind,
    pub shape: Vec<usize>,
    pub nums: Option<Vec<usize>>,
}

/// What is known of one value. `shape_prefix` holds leading axis lengths and
/// `shape_suffix` trailing ones; where the rank is known and they cover it, both
/// are the full shape.
pub struct Info {
    pub typ: Option<usize>,
    pub rank: Option<usize>,
    pub scalar: Option<bool>,
    pub shape_prefix: Vec<usize>,
    pub shape_suffix: Vec<usize>,
    pub value: Option<ShapedValue>,
}

/// What is known of one node: of its value, or of each of its values where it has
/// several (the first being the one left on top of the stack).
pub struct CallInfo {
    pub info: Info,
    pub multi: Vec<Info>,
}

/// Why shape inference failed at a node.
#[derive(Clone, Copy, Debug, PartialEq, Eq, Structural)]
pub enum InfoError {
    /// Pervasive arguments with incompatible shapes.
    ShapeMismatch,
    /// `reshape` got a shape that is not numbers.
    ReshapeNeedsNumbers,
    /// `reshape` got a shape of rank above 1.
    ReshapeRankTooHigh,
    /// Arguments of `rows` with different numbers of rows.
    RowCountMismatch,
    /// Deshaping by more axes than the argument has.
    RankUnderflow,
    /// A rank or length past the largest `usize`.
    RankOverflow,
    /// A value taken from an output that the node was not found to have.
    MissingOutput,
    /// Functions of `rows` or `table` nested deeper than the program has operations.
    TooDeep,
    /// An operation with fewer inputs than it reads.
    MissingArgument,
    /// An operation that the table of kinds does not describe.
    UnknownOperation,
}

/// What shape inference needs to know of an operation of the program.
pub enum CallKind {
    /// Pushes a value known ahead of time.
    Push(ShapedValue),
    /// A pervasive primitive.
    Pervasive,
    Range,
    Len,
    Transpose,
    TransposeN(i32),
    Deshape,
    DeshapeSub(i32),
    Reshape,
    Keep,
    MultiKeep,
    Drop,
    MemberOf,
    Primes,
    /// Two outputs, each like the argument.
    UnKeep,
    /// Two copies of the argument.
    Dup,
    /// Maps a function over the rows of its arguments.
    Rows(SigNode),
    /// Maps a function over every combination of rows of its arguments.
    Table(SigNode),
    Reduce,
    /// Any other operation: nothing is inferred.
    Other,
}

/// A known value as mathematical values.
pub struct ValueV {
    pub kind: ValueKind,
    pub shape: Seq<usize>,
    pub nums: Option<Seq<usize>>,
}

/// What is known of one value, as mathematical values.
pub struct InfoV {
    pub typ: Option<usize>,
    pub rank: Option<usize>,
    pub scalar: Option<bool>,
    pub prefix: Seq<usize>,
    pub suffix: Seq<usize>,
    pub value: Option<ValueV>,
}

impl View for ShapedValue {
    type V = ValueV;

    open spec fn view(&self) -> ValueV {
        ValueV {
            kind: self.kind,
            shape: self.shape@,
            nums: match self.nums {
                Some(n) => Some(n@),
                None => None,
            },
        }
    }
}

impl View for Info {
    type V = InfoV;

    open spec fn view(&self) -> InfoV {
        InfoV {
            typ: self.typ,
            rank: self.rank,
            scalar: self.scalar,
            prefix: self.shape_prefix@,
            suffix: self.shape_suffix@,
            value: match self.value {
                Some(v) => Some(v@),
                None => None,
            },
        }
    }
}

/// Nothing known.
pub open spec fn empty_info() -> InfoV {
    InfoV { typ: None, rank: None, scalar: None, prefix: Seq::empty(), suffix: Seq::empty(), value: None }
}

/// The views of a list of infos.
pub open spec fn infos_view(s: Seq<Info>) -> Seq<InfoV> {
    s.map_values(|i: Info| i@)
}

/// The type id of a value of this kind.
pub open spec fn kind_typ(k: ValueKind) -> usize {
    match k {
        ValueKind::Byte | ValueKind::Num => 0,
        ValueKind::Char => 1,
        ValueKind::Box => 2,
        ValueKind::Complex => 3,
    }
}

/// The full shape of rank `r` from a known prefix and suffix that together cover it:
/// the prefix (at most `r` lengths), completed by the last lengths of the suffix.
pub open spec fn full_shape(p: Seq<usize>, s: Seq<usize>, r: nat) -> Seq<usize> {
    let p2 = if p.len() > r { p.take(r as int) } else { p };
    let s2 = if s.len() > r { s.skip(s.len() - r) } else { s };
    p2 + s2.skip(s2.len() + p2.len() - r)
}

/// The last step of inference at a node: a known value fixes the rank, shape and type;
/// a known rank fixes whether it is a scalar and, where the prefix and suffix cover
/// it, the full shape; a known scalar has rank 0.
pub open spec fn spec_finish(i: InfoV) -> InfoV {
    let i1 = match i.value {
        Some(v) => InfoV { rank: Some(v.shape.len() as usize), prefix: v.shape, typ: Some(kind_typ(v.kind)), ..i },
        None => i,
    };
    match i1.rank {
        Some(r) => {
            let i2 = InfoV { scalar: Some(r == 0), ..i1 };
            if i1.prefix.len() + i1.suffix.len() >= r {
                let full = full_shape(i1.prefix, i1.suffix, r as nat);
                InfoV { prefix: full, suffix: full, ..i2 }
            } else {
                i2
            }
        },
        None => if i1.scalar == Some(true) { InfoV { rank: Some(0), ..i1 } } else { i1 },
    }
}

fn copy_usizes(v: &Vec<usize>) -> (r: Vec<usize>)
    ensures
        r@ == v@,
{
    let mut out: Vec<usize> = Vec::new();
    let mut i: usize = 0;
    while i < v.len()
        invariant
            i <= v@.len(),
            out@ == v@.take(i as int),
        decreases v@.len() - i,
    {
        out.push(v[i]);
        proof {
            assert(out@ =~= v@.take(i + 1));
        }
        i += 1;
    }
    proof {
        assert(v@.take(v@.len() as int) =~= v@);
    }
    out
}

/// The lengths at positions `lo` up to (not including) `hi`.
fn slice_usizes(v: &Vec<usize>, lo: usize, hi: usize) -> (r: Vec<usize>)
    requires
        lo <= hi <= v@.len(),
    ensures
        r@ == v@.subrange(lo as int, hi as int),
{
    let mut out: Vec<usize> = Vec::new();
    let mut i: usize = lo;
    while i < hi
        invariant
            lo <= i <= hi,
            hi <= v@.len(),
            out@ == v@.subrange(lo as int, i as int),
        decreases hi - i,
    {
        out.push(v[i]);
        proof {
            assert(out@ =~= v@.subrange(lo as int, i + 1));
        }
        i += 1;
    }
    out
}

impl ShapedValue {
    pub fn copy(&self) -> (r: ShapedValue)
        ensures
            r@ == self@,
    {
        ShapedValue {
            kind: self.kind,
            shape: copy_usizes(&self.shape),
            nums: match &self.nums {
                Some(n) => Some(copy_usizes(n)),
                None => None,
            },
        }
    }
}

impl Info {
    /// Nothing known.
    pub fn unknown() -> (r: Info)
        ensures
            r@ == empty_info(),
    {
        Info { typ: None, rank: None, scalar: None, shape_prefix: Vec::new(), shape_suffix: Vec::new(), value: None }
    }

    pub fn copy(&self) -> (r: Info)
        ensures
            r@ == self@,
    {
        Info {
            typ: self.typ,
            rank: self.rank,
            scalar: self.scalar,
            shape_prefix: copy_usizes(&self.shape_prefix),
            shape_suffix: copy_usizes(&self.shape_suffix),
            value: match &self.value {
                Some(v) => Some(v.copy()),
                None => None,
            },
        }
    }

    /// The last step of inference at a node (see `spec_finish`).
    pub fn finish(self) -> (r: Info)
        ensures
            r@ == spec_finish(self@),
    {
        let mut i = self;
        match &i.value {
            Some(v) => {
                let shape = copy_usizes(&v.shape);
                let typ: usize = match v.kind {
                    ValueKind::Byte | ValueKind::Num => 0,
                    ValueKind::Char => 1,
                    ValueKind::Box => 2,
                    ValueKind::Complex => 3,
                };
                i.rank = Some(shape.len());
                i.shape_prefix = shape;
                i.typ = Some(typ);
            },
            None => {},
        }
        let ghost i1 = i@;
        match i.rank {
            Some(r) => {
                i.scalar = Some(r == 0);
                let pl = i.shape_prefix.len();
                let sl = i.shape_suffix.len();
                if pl as u128 + sl as u128 >= r as u128 {
                    let p2 = if pl > r { slice_usizes(&i.shape_prefix, 0, r) } else { copy_usizes(&i.shape_prefix) };
                    let s2 = if sl > r { slice_usizes(&i.shape_suffix, sl - r, sl) } else { copy_usizes(&i.shape_suffix) };
                    proof {
                        assert(p2@ == (if i1.prefix.len() > r { i1.prefix.take(r as int) } else { i1.prefix }));
                        assert(s2@ == (if i1.suffix.len() > r { i1.suffix.skip(i1.suffix.len() - r) } else { i1.suffix }));
                    }
                    let start = s2.len() - (r - p2.len());
                    let tail = slice_usizes(&s2, start, s2.len());
                    let mut full = p2;
                    let mut k: usize = 0;
                    let ghost p2v = full@;
                    while k < tail.len()
                        invariant
                            k <= tail@.len(),
                            full@ == p2v + tail@.take(k as int),
                        decreases tail@.len() - k,
                    {
                        full.push(tail[k]);
                        proof {
                            assert(full@ =~= p2v + tail@.take(k + 1));
                        }
                        k += 1;
                    }
                    proof {
                        assert(tail@.take(tail@.len() as int) =~= tail@);
                        assert(tail@ =~= s2@.skip(start as int));
                        assert(full@ == full_shape(i1.prefix, i1.suffix, r as nat));
                    }
                    i.shape_suffix = copy_usizes(&full);
                    i.shape_prefix = full;
                }
            },
            None => {
                if i.scalar == Some(true) {
                    i.rank = Some(0);
                }
            },
        }
        i
    }
}


/// The values are consistent: a numeric value lists its elements, as many as its
/// shape holds.
pub open spec fn value_wf(v: ValueV) -> bool {
    (v.kind == ValueKind::Num || v.kind == ValueKind::Byte) ==> v.nums is Some
        && v.nums->0.len() == seq_product(v.shape)
}

pub open spec fn info_wf(i: InfoV) -> bool {
    i.value is Some ==> value_wf(i.value->0)
}

/// The largest rank, if every rank is known (0 for no arguments).
pub open spec fn fold_rank(ds: Seq<InfoV>) -> Option<usize>
    decreases ds.len(),
{
    if ds.len() == 0 {
        Some(0)
    } else {
        match (fold_rank(ds.drop_last()), ds.last().rank) {
            (Some(a), Some(b)) => Some(if a >= b { a } else { b }),
            _ => None,
        }
    }
}

/// The shape two shapes pervade to, if they are compatible.
pub open spec fn spec_pervade(a: Seq<usize>, b: Seq<usize>) -> Option<Seq<usize>> {
    if pervadable(a, b) {
        Some(Seq::new(max_len2(a, b), |k: int| pervade_len(len_or_one(a, k), len_or_one(b, k))->0))
    } else {
        None
    }
}

/// The known prefixes pervaded in order, starting from a scalar.
pub open spec fn fold_pervade(ds: Seq<InfoV>) -> Option<Seq<usize>>
    decreases ds.len(),
{
    if ds.len() == 0 {
        Some(Seq::empty())
    } else {
        match fold_pervade(ds.drop_last()) {
            Some(s) => spec_pervade(s, ds.last().prefix),
            None => None,
        }
    }
}

/// A pervasive primitive: the largest rank and the pervaded prefixes.
pub open spec fn spec_pervasive(ds: Seq<InfoV>) -> Result<InfoV, InfoError> {
    match fold_pervade(ds) {
        Some(p) => Ok(InfoV { rank: fold_rank(ds), prefix: p, ..empty_info() }),
        None => Err(InfoError::ShapeMismatch),
    }
}

fn pervade_vec(a: &Vec<usize>, b: &Vec<usize>) -> (r: Option<Vec<usize>>)
    ensures
        match r {
            Some(v) => spec_pervade(a@, b@) == Some(v@),
            None => spec_pervade(a@, b@) is None,
        },
{
    match pervade_shape(a.as_slice(), b.as_slice()) {
        Some(v) => {
            proof {
                assert(v@ =~= Seq::new(max_len2(a@, b@), |k: int| pervade_len(len_or_one(a@, k), len_or_one(b@, k))->0)) by {
                    assert forall|k: int| 0 <= k < v@.len() implies v@[k] == pervade_len(len_or_one(a@, k), len_or_one(b@, k))->0 by {
                        assert(Some(v@[k]) == pervade_len(len_or_one(a@, k), len_or_one(b@, k)));
                    }
                }
            }
            Some(v)
        },
        None => None,
    }
}

/// A pervasive primitive (see `spec_pervasive`).
pub fn pervasive_info(deps: &Vec<Info>) -> (r: Result<Info, InfoError>)
    ensures
        match r {
            Ok(i) => spec_pervasive(infos_view(deps@)) == Ok::<InfoV, InfoError>(i@),
            Err(e) => spec_pervasive(infos_view(deps@)) == Err::<InfoV, InfoError>(e),
        },
{
    let ghost ds = infos_view(deps@);
    let mut rank: Option<usize> = Some(0);
    let mut shape: Vec<usize> = Vec::new();
    let mut k: usize = 0;
    while k < deps.len()
        invariant
            k <= deps@.len(),
            ds == infos_view(deps@),
            rank == fold_rank(ds.take(k as int)),
            fold_pervade(ds.take(k as int)) == Some(shape@),
        decreases deps@.len() - k,
    {
        proof {
            assert(ds.take(k + 1).drop_last() =~= ds.take(k as int));
            assert(ds.take(k + 1).last() == deps@[k as int]@);
        }
        rank = match (rank, deps[k].rank) {
            (Some(a), Some(b)) => Some(if a >= b { a } else { b }),
            _ => None,
        };
        match pervade_vec(&shape, &deps[k].shape_prefix) {
            Some(v) => {
                shape = v;
            },
            None => {
                proof {
                    lemma_fold_pervade_none(ds, k as int + 1);
                }
                return Err(InfoError::ShapeMismatch);
            },
        }
        k += 1;
    }
    proof {
        assert(ds.take(deps@.len() as int) =~= ds);
    }
    let mut out = Info::unknown();
    out.rank = rank;
    out.shape_prefix = shape;
    Ok(out)
}

/// Once the pervaded shape is missing for some leading arguments, it is missing.
proof fn lemma_fold_pervade_none(ds: Seq<InfoV>, k: int)
    requires
        0 <= k <= ds.len(),
        fold_pervade(ds.take(k)) is None,
    ensures
        fold_pervade(ds) is None,
    decreases ds.len() - k,
{
    if k < ds.len() {
        assert(ds.take(k + 1).drop_last() =~= ds.take(k));
        lemma_fold_pervade_none(ds, k + 1);
    } else {
        assert(ds.take(k) =~= ds);
    }
}

/// `range`: numbers; a known scalar `n` gives the list of length `n`, a known list of
/// lengths the array of their indices (the lengths, then the number of them); a
/// scalar of unknown value gives a list.
pub open spec fn spec_range(d: InfoV) -> InfoV {
    let base = InfoV { typ: Some(0), ..empty_info() };
    match d.value {
        Some(v) => if v.kind == ValueKind::Num {
            let nums = v.nums->0;
            if v.shape.len() == 0 {
                InfoV { rank: Some(1), prefix: seq![nums[0]], ..base }
            } else {
                InfoV { rank: Some((nums.len() + 1) as usize), prefix: nums.push(nums.len() as usize), ..base }
            }
        } else if d.scalar == Some(true) {
            InfoV { rank: Some(1), ..base }
        } else {
            base
        },
        None => if d.scalar == Some(true) { InfoV { rank: Some(1), ..base } } else { base },
    }
}

pub fn range_info(d: &Info) -> (r: Info)
    requires
        info_wf(d@),
        d.value is Some && d.value->0.nums is Some ==> d.value->0.nums->0@.len() < usize::MAX,
    ensures
        r@ == spec_range(d@),
{
    let mut out = Info::unknown();
    out.typ = Some(0);
    let mut known = false;
    match &d.value {
        Some(v) => {
            if v.kind == ValueKind::Num {
                match &v.nums {
                    Some(nums) => {
                        known = true;
                        if v.shape.len() == 0 {
                            let mut p: Vec<usize> = Vec::new();
                            p.push(nums[0]);
                            proof {
                                assert(p@ =~= seq![nums@[0]]);
                            }
                            out.rank = Some(1);
                            out.shape_prefix = p;
                        } else {
                            let mut p = copy_usizes(nums);
                            let n = p.len();
                            p.push(n);
                            out.rank = Some(n + 1);
                            out.shape_prefix = p;
                        }
                    },
                    None => {},
                }
            }
        },
        None => {},
    }
    if !known && d.scalar == Some(true) {
        out.rank = Some(1);
    }
    out
}

/// `length`: a number, known where the first axis length is.
pub open spec fn spec_len(d: InfoV) -> InfoV {
    let base = InfoV { typ: Some(0), ..empty_info() };
    if d.prefix.len() > 0 {
        InfoV { value: Some(ValueV { kind: ValueKind::Num, shape: Seq::empty(), nums: Some(seq![d.prefix[0]]) }), ..base }
    } else {
        base
    }
}

pub fn len_info(d: &Info) -> (r: Info)
    ensures
        r@ == spec_len(d@),
{
    let mut out = Info::unknown();
    out.typ = Some(0);
    if d.shape_prefix.len() > 0 {
        let mut nums: Vec<usize> = Vec::new();
        nums.push(d.shape_prefix[0]);
        proof {
            assert(nums@ =~= seq![d.shape_prefix@[0]]);
        }
        out.value = Some(ShapedValue { kind: ValueKind::Num, shape: Vec::new(), nums: Some(nums) });
        proof {
            assert(out@.value->0.shape =~= Seq::<usize>::empty());
        }
    }
    out
}

/// `transpose`: the first axis moves to the end.
pub open spec fn spec_transpose(d: InfoV) -> InfoV {
    let base = InfoV { typ: d.typ, rank: d.rank, ..empty_info() };
    if d.prefix.len() > 0 {
        InfoV { prefix: d.prefix.skip(1), suffix: d.suffix.push(d.prefix[0]), ..base }
    } else {
        base
    }
}

pub fn transpose_info(d: &Info) -> (r: Info)
    ensures
        r@ == spec_transpose(d@),
{
    let mut out = Info::unknown();
    out.typ = d.typ;
    out.rank = d.rank;
    let n = d.shape_prefix.len();
    if n > 0 {
        out.shape_prefix = slice_usizes(&d.shape_prefix, 1, n);
        let mut suf = copy_usizes(&d.shape_suffix);
        suf.push(d.shape_prefix[0]);
        out.shape_suffix = suf;
        proof {
            assert(out.shape_prefix@ =~= d.shape_prefix@.skip(1));
        }
    }
    out
}

/// The magnitude of `n`.
pub open spec fn abs_i32(n: i32) -> nat {
    if n < 0 { (-n) as nat } else { n as nat }
}

/// Transposing by `n`: for positive `n`, the first `n` known leading lengths move to
/// the end of the suffix; for negative `n`, the last `|n|` known trailing lengths move
/// to the front of the prefix; nothing is known of the shape otherwise.
pub open spec fn spec_transpose_n(n: i32, d: InfoV) -> InfoV {
    let m = abs_i32(n);
    let base = InfoV { typ: d.typ, rank: d.rank, ..empty_info() };
    if n > 0 && d.prefix.len() >= m {
        InfoV { prefix: d.prefix.skip(m as int), suffix: d.suffix + d.prefix.take(m as int), ..base }
    } else if n < 0 && d.suffix.len() >= m {
        let split = d.suffix.len() - m;
        InfoV { suffix: d.suffix.take(split), prefix: d.suffix.skip(split) + d.prefix, ..base }
    } else {
        base
    }
}

fn concat_usizes(a: Vec<usize>, b: &Vec<usize>) -> (r: Vec<usize>)
    ensures
        r@ == a@ + b@,
{
    let mut out = a;
    let ghost a0 = out@;
    let mut k: usize = 0;
    while k < b.len()
        invariant
            k <= b@.len(),
            out@ == a0 + b@.take(k as int),
        decreases b@.len() - k,
    {
        out.push(b[k]);
        proof {
            assert(out@ =~= a0 + b@.take(k + 1));
        }
        k += 1;
    }
    proof {
        assert(b@.take(b@.len() as int) =~= b@);
    }
    out
}

pub fn transpose_n_info(n: i32, d: &Info) -> (r: Info)
    ensures
        r@ == spec_transpose_n(n, d@),
{
    let mut out = Info::unknown();
    out.typ = d.typ;
    out.rank = d.rank;
    let m: usize = if n < 0 {
        if n == i32::MIN { 0x8000_0000usize } else { (-n) as usize }
    } else {
        n as usize
    };
    let pl = d.shape_prefix.len();
    let sl = d.shape_suffix.len();
    if n > 0 && pl >= m {
        out.shape_prefix = slice_usizes(&d.shape_prefix, m, pl);
        let head = slice_usizes(&d.shape_prefix, 0, m);
        out.shape_suffix = concat_usizes(copy_usizes(&d.shape_suffix), &head);
        proof {
            assert(out.shape_prefix@ =~= d.shape_prefix@.skip(m as int));
            assert(head@ =~= d.shape_prefix@.take(m as int));
        }
    } else if n < 0 && sl >= m {
        let split = sl - m;
        out.shape_suffix = slice_usizes(&d.shape_suffix, 0, split);
        let tail = slice_usizes(&d.shape_suffix, split, sl);
        out.shape_prefix = concat_usizes(tail, &d.shape_prefix);
        proof {
            assert(out.shape_suffix@ =~= d.shape_suffix@.take(split as int));
            assert(d.shape_suffix@.subrange(split as int, sl as int) =~= d.shape_suffix@.skip(split as int));
        }
    }
    out
}

/// `deshape`: a list.
pub open spec fn spec_deshape() -> InfoV {
    InfoV { rank: Some(1), ..empty_info() }
}

/// Deshaping to rank `sub` (from the end for negative `sub`).
pub open spec fn spec_deshape_sub(sub: i32, d: InfoV) -> InfoV {
    if sub >= 0 {
        InfoV { rank: Some(sub as usize), ..empty_info() }
    } else {
        InfoV { rank: match d.rank { Some(r) => Some((r + sub) as usize), None => None }, ..empty_info() }
    }
}

pub fn deshape_sub_info(sub: i32, d: &Info) -> (r: Info)
    requires
        sub < 0 && d.rank is Some ==> d.rank->0 + sub >= 0,
    ensures
        r@ == spec_deshape_sub(sub, d@),
{
    let mut out = Info::unknown();
    if sub >= 0 {
        out.rank = Some(sub as usize);
    } else {
        out.rank = match d.rank {
            Some(r) => {
                let k: usize = if sub == i32::MIN { 0x8000_0000usize } else { (-sub) as usize };
                Some(r - k)
            },
            None => None,
        };
    }
    out
}

/// The number a scalar known value holds, if it is a byte or a number.
pub open spec fn scalar_num(v: ValueV) -> Option<usize> {
    if (v.kind == ValueKind::Num || v.kind == ValueKind::Byte) && v.shape.len() == 0 {
        Some(v.nums->0[0])
    } else {
        None
    }
}

/// `reshape` with the shape `left` and the array `right`: the array's type; a known
/// scalar shape `n` adds a leading axis of length `n`; a known list of numbers gives
/// the whole shape.
pub open spec fn spec_reshape(left: InfoV, right: InfoV) -> Result<InfoV, InfoError> {
    let base = InfoV { typ: right.typ, ..empty_info() };
    if left.scalar == Some(true) && left.value is Some {
        match scalar_num(left.value->0) {
            Some(n) => Ok(InfoV {
                prefix: seq![n] + right.prefix,
                rank: match right.rank { Some(r) => Some((r + 1) as usize), None => None },
                ..base
            }),
            None => Err(InfoError::ReshapeNeedsNumbers),
        }
    } else if left.scalar == Some(false) && left.value is Some {
        let v = left.value->0;
        if v.kind != ValueKind::Num {
            Err(InfoError::ReshapeNeedsNumbers)
        } else if v.shape.len() > 1 {
            Err(InfoError::ReshapeRankTooHigh)
        } else {
            Ok(InfoV { rank: Some(v.nums->0.len() as usize), prefix: v.nums->0, ..base })
        }
    } else {
        Ok(base)
    }
}

pub fn reshape_info(left: &Info, right: &Info) -> (r: Result<Info, InfoError>)
    requires
        info_wf(left@),
        right.rank is Some ==> right.rank->0 < usize::MAX,
    ensures
        match r {
            Ok(i) => spec_reshape(left@, right@) == Ok::<InfoV, InfoError>(i@),
            Err(e) => spec_reshape(left@, right@) == Err::<InfoV, InfoError>(e),
        },
{
    let mut out = Info::unknown();
    out.typ = right.typ;
    match &left.value {
        Some(v) => {
            if left.scalar == Some(true) {
                if (v.kind == ValueKind::Num || v.kind == ValueKind::Byte) && v.shape.len() == 0 {
                    let n = match &v.nums {
                        Some(nums) => nums[0],
                        None => 0,
                    };
                    let mut p: Vec<usize> = Vec::new();
                    p.push(n);
                    out.shape_prefix = concat_usizes(p, &right.shape_prefix);
                    out.rank = match right.rank {
                        Some(r) => Some(r + 1),
                        None => None,
                    };
                    proof {
                        assert(seq![n] + right.shape_prefix@ =~= out.shape_prefix@);
                    }
                    Ok(out)
                } else {
                    Err(InfoError::ReshapeNeedsNumbers)
                }
            } else if left.scalar == Some(false) {
                if v.kind != ValueKind::Num {
                    Err(InfoError::ReshapeNeedsNumbers)
                } else if v.shape.len() > 1 {
                    Err(InfoError::ReshapeRankTooHigh)
                } else {
                    let nums = match &v.nums {
                        Some(nums) => copy_usizes(nums),
                        None => Vec::new(),
                    };
                    out.rank = Some(nums.len());
                    out.shape_prefix = nums;
                    Ok(out)
                }
            } else {
                Ok(out)
            }
        },
        None => Ok(out),
    }
}

/// `member of`, for the arguments `left` and `right`: where both ranks are known, the
/// rank is the distance between the right rank plus one and the left rank (at least 1).
pub open spec fn spec_member_of(left: InfoV, right: InfoV) -> InfoV {
    InfoV {
        rank: match (left.rank, right.rank) {
            (Some(lr), Some(rr)) => {
                let a: int = rr + 1;
                let b: int = if lr >= 1 { lr as int } else { 1 };
                Some((if a >= b { a - b } else { b - a }) as usize)
            },
            _ => None,
        },
        ..empty_info()
    }
}

/// `member of` tests the left argument against the rows of the right argument that
/// have its rank, a scalar counting as a list of one: with both ranks known, a left
/// argument of rank at most 1 gives the right rank; one of rank `lr` up to one more
/// than the right rank `rr` gives `rr + 1 - lr`, and a higher one `lr - rr - 1`. So a
/// scalar left argument gives the same rank as a left argument of rank 1, and an
/// unknown rank on either side gives an unknown rank.
pub proof fn lemma_member_of_rank(left: InfoV, right: InfoV, left1: InfoV)
    requires
        left.rank == Some(0usize),
        left1.rank == Some(1usize),
    ensures
        spec_member_of(left, right).rank == spec_member_of(left1, right).rank,
        forall|l: InfoV, r: InfoV| l.rank is Some && r.rank is Some && r.rank->0 < usize::MAX ==> {
            let (lr, rr) = (l.rank->0 as int, r.rank->0 as int);
            let m = #[trigger] spec_member_of(l, r).rank;
            &&& m is Some
            &&& lr <= 1 ==> m->0 == rr
            &&& 1 <= lr <= rr + 1 ==> m->0 + lr == rr + 1
            &&& lr > rr + 1 ==> m->0 == lr - rr - 1
        },
        forall|l: InfoV, r: InfoV| l.rank is None || r.rank is None ==> (#[trigger] spec_member_of(l, r)).rank is None,
{
}

pub fn member_of_info(left: &Info, right: &Info) -> (r: Info)
    requires
        right.rank is Some ==> right.rank->0 < usize::MAX,
    ensures
        r@ == spec_member_of(left@, right@),
{
    let mut out = Info::unknown();
    out.rank = match (left.rank, right.rank) {
        (Some(lr), Some(rr)) => {
            let a = rr + 1;
            let b = if lr >= 1 { lr } else { 1 };
            Some(if a >= b { a - b } else { b - a })
        },
        _ => None,
    };
    out
}

/// A primitive that keeps the rank of an argument.
pub open spec fn spec_rank_of(d: InfoV) -> InfoV {
    InfoV { rank: d.rank, ..empty_info() }
}

pub fn rank_of_info(d: &Info) -> (r: Info)
    ensures
        r@ == spec_rank_of(d@),
{
    let mut out = Info::unknown();
    out.rank = d.rank;
    out
}

/// The prime factors: one axis more, with the argument's trailing lengths.
pub open spec fn spec_primes(d: InfoV) -> InfoV {
    InfoV {
        rank: match d.rank { Some(r) => Some((r + 1) as usize), None => None },
        suffix: d.suffix,
        ..empty_info()
    }
}

pub fn primes_info(d: &Info) -> (r: Info)
    requires
        d.rank is Some ==> d.rank->0 < usize::MAX,
    ensures
        r@ == spec_primes(d@),
{
    let mut out = Info::unknown();
    out.rank = match d.rank {
        Some(r) => Some(r + 1),
        None => None,
    };
    out.shape_suffix = copy_usizes(&d.shape_suffix);
    out
}

/// `reduce`: the type of the argument, one axis less, its first known length dropped.
pub open spec fn spec_reduce(d: InfoV) -> InfoV {
    InfoV {
        typ: d.typ,
        rank: match d.rank { Some(r) => Some(if r >= 1 { (r - 1) as usize } else { 0 }), None => None },
        prefix: if d.prefix.len() >= 1 { d.prefix.skip(1) } else { d.prefix },
        ..empty_info()
    }
}

pub fn reduce_info(d: &Info) -> (r: Info)
    ensures
        r@ == spec_reduce(d@),
{
    let mut out = Info::unknown();
    out.typ = d.typ;
    out.rank = match d.rank {
        Some(r) => Some(if r >= 1 { r - 1 } else { 0 }),
        None => None,
    };
    let n = d.shape_prefix.len();
    let lo: usize = if n >= 1 { 1 } else { 0 };
    out.shape_prefix = slice_usizes(&d.shape_prefix, lo, n);
    proof {
        if n >= 1 {
            assert(out.shape_prefix@ =~= d.shape_prefix@.skip(1));
        } else {
            assert(out.shape_prefix@ =~= d.shape_prefix@);
        }
    }
    out
}


/// The argument of a function mapped over rows, from what is known of the whole
/// array: one axis less, a scalar where the rank was at most 1, the first known
/// length dropped, and the value kept (without its first axis) where it has a single
/// row or is a scalar.
pub open spec fn spec_row_arg(d: InfoV) -> InfoV {
    let first_is_one = d.prefix.len() == 0 || d.prefix[0] == 1;
    InfoV {
        typ: d.typ,
        rank: match d.rank { Some(r) => Some(if r >= 1 { (r - 1) as usize } else { 0 }), None => None },
        scalar: match d.rank { Some(r) => Some(r <= 1), None => None },
        prefix: if d.prefix.len() >= 1 { d.prefix.skip(1) } else { d.prefix },
        suffix: Seq::empty(),
        value: if first_is_one {
            match d.value {
                Some(v) => Some(if v.shape.len() > 0 { ValueV { shape: v.shape.skip(1), ..v } } else { v }),
                None => None,
            }
        } else {
            None
        },
    }
}

/// Inference at the node is complete: a known value's shape is the known prefix; a
/// known rank tells whether it is a scalar, and a known scalar has rank 0; where a
/// known positive rank is covered by the prefix and suffix, both are the full shape.
pub open spec fn finished(i: InfoV) -> bool {
    &&& i.value is Some ==> i.prefix == i.value->0.shape
    &&& i.rank is Some ==> i.scalar == Some(i.rank->0 == 0)
    &&& i.scalar == Some(true) ==> i.rank == Some(0usize)
    &&& i.rank is Some && i.rank->0 > 0 && i.prefix.len() + i.suffix.len() >= i.rank->0
        ==> i.prefix.len() == i.rank->0 && i.suffix == i.prefix
}

/// A prefix and suffix that cover rank `r` give a full shape of `r` lengths.
proof fn lemma_full_shape_len(p: Seq<usize>, s: Seq<usize>, r: nat)
    requires
        p.len() + s.len() >= r,
    ensures
        full_shape(p, s, r).len() == r,
{
}

proof fn lemma_finish_finished(i: InfoV)
    requires
        i.value is Some ==> i.value->0.shape.len() <= usize::MAX,
    ensures
        finished(spec_finish(i)),
        spec_finish(i).value == i.value,
{
    if let Some(v) = i.value {
        let r = v.shape.len();
        let i1 = InfoV { rank: Some(r as usize), prefix: v.shape, typ: Some(kind_typ(v.kind)), ..i };
        assert(i1.prefix.len() + i1.suffix.len() >= r);
        let s2 = if i1.suffix.len() > r { i1.suffix.skip(i1.suffix.len() - r) } else { i1.suffix };
        assert(s2.skip(s2.len() as int) =~= Seq::<usize>::empty());
        assert(full_shape(v.shape, i.suffix, r) =~= v.shape);
    }
    let i1 = match i.value {
        Some(v) => InfoV { rank: Some(v.shape.len() as usize), prefix: v.shape, typ: Some(kind_typ(v.kind)), ..i },
        None => i,
    };
    if let Some(r) = i1.rank {
        if i1.prefix.len() + i1.suffix.len() >= r {
            lemma_full_shape_len(i1.prefix, i1.suffix, r as nat);
        }
    }
}

pub fn row_arg(d: &Info) -> (r: Info)
    requires
        info_wf(d@),
        finished(d@),
    ensures
        r@ == spec_row_arg(d@),
        info_wf(r@),
{
    let first_is_one = d.shape_prefix.len() == 0 || d.shape_prefix[0] == 1;
    let n = d.shape_prefix.len();
    let lo: usize = if n >= 1 { 1 } else { 0 };
    let mut out = Info::unknown();
    out.typ = d.typ;
    out.rank = match d.rank {
        Some(r) => Some(if r >= 1 { r - 1 } else { 0 }),
        None => None,
    };
    out.scalar = match d.rank {
        Some(r) => Some(r <= 1),
        None => None,
    };
    out.shape_prefix = slice_usizes(&d.shape_prefix, lo, n);
    proof {
        if n >= 1 {
            assert(out.shape_prefix@ =~= d.shape_prefix@.skip(1));
        } else {
            assert(out.shape_prefix@ =~= d.shape_prefix@);
        }
    }
    if first_is_one {
        match &d.value {
            Some(v) => {
                let mut w = v.copy();
                let k = w.shape.len();
                if k > 0 {
                    w.shape = slice_usizes(&v.shape, 1, k);
                    proof {
                        assert(w.shape@ =~= v.shape@.skip(1));
                        lemma_product_front(v.shape@);
                        assert(v.shape@[0] == 1);
                        assert(v.shape@.subrange(1, k as int) =~= v.shape@.skip(1));
                    }
                }
                out.value = Some(w);
            },
            None => {},
        }
    }
    out
}

/// One step of counting the rows of the arguments of `rows`: a known first length
/// sets the count where it is 1 and must otherwise be 1 or the count; an argument of
/// unknown first length that may not be a scalar leaves the count unknown.
pub open spec fn rows_len_step(acc: Result<Option<usize>, InfoError>, d: InfoV) -> Result<Option<usize>, InfoError> {
    match acc {
        Err(e) => Err(e),
        Ok(nl) => if d.prefix.len() > 0 && nl is Some {
            let len = d.prefix[0];
            let n = nl->0;
            if n == 1 {
                Ok(Some(len))
            } else if len != 1 && n != len {
                Err(InfoError::RowCountMismatch)
            } else {
                Ok(nl)
            }
        } else if d.rank != Some(0usize) {
            Ok(None)
        } else {
            Ok(nl)
        },
    }
}

/// The number of rows of the arguments of `rows`, starting from 1.
pub open spec fn spec_rows_len(ds: Seq<InfoV>) -> Result<Option<usize>, InfoError>
    decreases ds.len(),
{
    if ds.len() == 0 { Ok(Some(1)) } else { rows_len_step(spec_rows_len(ds.drop_last()), ds.last()) }
}

pub fn rows_len(deps: &Vec<Info>) -> (r: Result<Option<usize>, InfoError>)
    ensures
        r == spec_rows_len(infos_view(deps@)),
{
    let ghost ds = infos_view(deps@);
    let mut nl: Option<usize> = Some(1);
    let mut k: usize = 0;
    while k < deps.len()
        invariant
            k <= deps@.len(),
            ds == infos_view(deps@),
            spec_rows_len(ds.take(k as int)) == Ok::<Option<usize>, InfoError>(nl),
        decreases deps@.len() - k,
    {
        proof {
            assert(ds.take(k + 1).drop_last() =~= ds.take(k as int));
            assert(ds.take(k + 1).last() == deps@[k as int]@);
        }
        let d = &deps[k];
        if d.shape_prefix.len() > 0 && nl.is_some() {
            let len = d.shape_prefix[0];
            let n = match nl { Some(n) => n, None => 1 };
            if n == 1 {
                nl = Some(len);
            } else if len != 1 && n != len {
                proof {
                    lemma_rows_len_err(ds, k as int + 1);
                }
                return Err(InfoError::RowCountMismatch);
            }
        } else if d.rank != Some(0usize) {
            nl = None;
        }
        k += 1;
    }
    proof {
        assert(ds.take(deps@.len() as int) =~= ds);
    }
    Ok(nl)
}

proof fn lemma_rows_len_err(ds: Seq<InfoV>, k: int)
    requires
        0 <= k <= ds.len(),
        spec_rows_len(ds.take(k)) == Err::<Option<usize>, InfoError>(InfoError::RowCountMismatch),
    ensures
        spec_rows_len(ds) == Err::<Option<usize>, InfoError>(InfoError::RowCountMismatch),
    decreases ds.len() - k,
{
    if k < ds.len() {
        assert(ds.take(k + 1).drop_last() =~= ds.take(k));
        lemma_rows_len_err(ds, k + 1);
    } else {
        assert(ds.take(k) =~= ds);
    }
}

/// An output of the function mapped by `rows`, as an output of `rows`: one axis more,
/// led by the row count where it is known.
pub open spec fn spec_rows_out(i: InfoV, len: Option<usize>) -> InfoV {
    InfoV {
        rank: match i.rank { Some(r) => Some((r + 1) as usize), None => None },
        prefix: match len { Some(n) => seq![n] + i.prefix, None => i.prefix },
        ..i
    }
}

pub fn rows_out(i: Info, len: Option<usize>) -> (r: Info)
    requires
        i.rank is Some ==> i.rank->0 < usize::MAX,
    ensures
        r@ == spec_rows_out(i@, len),
{
    let mut o = i;
    o.rank = match o.rank {
        Some(r) => Some(r + 1),
        None => None,
    };
    match len {
        Some(n) => {
            let mut p: Vec<usize> = Vec::new();
            p.push(n);
            let ghost old_p = o.shape_prefix@;
            o.shape_prefix = concat_usizes(p, &o.shape_prefix);
            proof {
                assert(o.shape_prefix@ =~= seq![n] + old_p);
            }
        },
        None => {},
    }
    o
}

/// The leading lengths of the result of `table`: each argument's first length (1 for a
/// scalar), up to the first argument whose first length is unknown; and whether one
/// such argument cut the list short.
pub open spec fn spec_table_lead(ds: Seq<InfoV>) -> (Seq<usize>, bool)
    decreases ds.len(),
{
    if ds.len() == 0 {
        (Seq::empty(), false)
    } else {
        let (p, inc) = spec_table_lead(ds.drop_last());
        let d = ds.last();
        if inc {
            (p, inc)
        } else if d.prefix.len() > 0 {
            (p.push(d.prefix[0]), false)
        } else if d.rank == Some(0usize) {
            (p.push(1), false)
        } else {
            (p, true)
        }
    }
}

pub fn table_lead(deps: &Vec<Info>) -> (r: (Vec<usize>, bool))
    ensures
        (r.0@, r.1) == spec_table_lead(infos_view(deps@)),
{
    let ghost ds = infos_view(deps@);
    let mut p: Vec<usize> = Vec::new();
    let mut inc = false;
    let mut k: usize = 0;
    while k < deps.len()
        invariant
            k <= deps@.len(),
            ds == infos_view(deps@),
            spec_table_lead(ds.take(k as int)) == (p@, inc),
        decreases deps@.len() - k,
    {
        proof {
            assert(ds.take(k + 1).drop_last() =~= ds.take(k as int));
            assert(ds.take(k + 1).last() == deps@[k as int]@);
        }
        if !inc {
            if deps[k].shape_prefix.len() > 0 {
                p.push(deps[k].shape_prefix[0]);
            } else if deps[k].rank == Some(0usize) {
                p.push(1);
            } else {
                inc = true;
            }
        }
        k += 1;
    }
    proof {
        assert(ds.take(deps@.len() as int) =~= ds);
    }
    (p, inc)
}

/// An output of the function mapped by `table`, as an output of `table`: one axis more
/// per argument, led by the known leading lengths (and by nothing else known where
/// those are incomplete).
pub open spec fn spec_table_out(i: InfoV, lead: Seq<usize>, incomplete: bool, nargs: nat) -> InfoV {
    InfoV {
        rank: match i.rank { Some(r) => Some((r + nargs) as usize), None => None },
        prefix: if incomplete { lead } else { lead + i.prefix },
        ..i
    }
}

pub fn table_out(i: Info, lead: &Vec<usize>, incomplete: bool, nargs: usize) -> (r: Info)
    requires
        i.rank is Some ==> i.rank->0 + nargs <= usize::MAX,
    ensures
        r@ == spec_table_out(i@, lead@, incomplete, nargs as nat),
{
    let mut o = i;
    o.rank = match o.rank {
        Some(r) => Some(r + nargs),
        None => None,
    };
    let after = copy_usizes(&o.shape_prefix);
    if incomplete {
        o.shape_prefix = copy_usizes(lead);
    } else {
        o.shape_prefix = concat_usizes(copy_usizes(lead), &after);
    }
    o
}


/// The number of arguments that inference reads at an operation of this kind.
pub open spec fn kind_arity(k: CallKind) -> nat {
    match k {
        CallKind::Range | CallKind::Len | CallKind::Transpose | CallKind::TransposeN(_) | CallKind::Reduce
            | CallKind::DeshapeSub(_) | CallKind::Primes | CallKind::UnKeep | CallKind::Dup => 1,
        CallKind::Reshape | CallKind::Keep | CallKind::MultiKeep | CallKind::Drop | CallKind::MemberOf => 2,
        _ => 0,
    }
}

/// What inference gives at a node before its last step: the value's info and, for a
/// node with several outputs, one info per output. `None` for `rows` and `table`,
/// which depend on their function.
pub open spec fn spec_step_raw(k: CallKind, ds: Seq<InfoV>) -> Option<Result<(InfoV, Seq<InfoV>), InfoError>> {
    match k {
        CallKind::Push(v) => Some(Ok((InfoV { value: Some(v@), ..empty_info() }, Seq::empty()))),
        CallKind::Pervasive => Some(match spec_pervasive(ds) {
            Ok(i) => Ok((i, Seq::empty())),
            Err(e) => Err(e),
        }),
        CallKind::Range => Some(Ok((spec_range(ds.last()), Seq::empty()))),
        CallKind::Len => Some(Ok((spec_len(ds.last()), Seq::empty()))),
        CallKind::Transpose => Some(Ok((spec_transpose(ds.last()), Seq::empty()))),
        CallKind::TransposeN(n) => Some(Ok((spec_transpose_n(n, ds.last()), Seq::empty()))),
        CallKind::Deshape => Some(Ok((spec_deshape(), Seq::empty()))),
        CallKind::DeshapeSub(sub) => Some(Ok((spec_deshape_sub(sub, ds[0]), Seq::empty()))),
        CallKind::Reshape => Some(match spec_reshape(ds[ds.len() - 2], ds.last()) {
            Ok(i) => Ok((i, Seq::empty())),
            Err(e) => Err(e),
        }),
        CallKind::Keep | CallKind::MultiKeep | CallKind::Drop => Some(Ok((spec_rank_of(ds[1]), Seq::empty()))),
        CallKind::MemberOf => Some(Ok((spec_member_of(ds[ds.len() - 2], ds.last()), Seq::empty()))),
        CallKind::Primes => Some(Ok((spec_primes(ds[0]), Seq::empty()))),
        CallKind::UnKeep | CallKind::Dup => Some(Ok((empty_info(), seq![ds[0], ds[0]]))),
        CallKind::Reduce => Some(Ok((spec_reduce(ds.last()), Seq::empty()))),
        CallKind::Other => Some(Ok((empty_info(), Seq::empty()))),
        CallKind::Rows(_) | CallKind::Table(_) => None,
    }
}

/// What inference gives at a node: the raw result with its last step applied.
pub open spec fn spec_step(k: CallKind, ds: Seq<InfoV>) -> Option<Result<(InfoV, Seq<InfoV>), InfoError>> {
    match spec_step_raw(k, ds) {
        Some(Ok((i, m))) => Some(Ok((spec_finish(i), m))),
        other => other,
    }
}

/// The inputs on which the step would exceed a machine limit or go below rank 0.
pub open spec fn step_blocked(k: CallKind, ds: Seq<InfoV>) -> Option<InfoError> {
    match k {
        CallKind::Range => if ds.last().value is Some && ds.last().value->0.nums is Some
            && ds.last().value->0.nums->0.len() >= usize::MAX { Some(InfoError::RankOverflow) } else { None },
        CallKind::DeshapeSub(sub) => if sub < 0 && ds[0].rank is Some && ds[0].rank->0 + sub < 0 {
            Some(InfoError::RankUnderflow)
        } else {
            None
        },
        CallKind::Reshape | CallKind::MemberOf => if ds.last().rank == Some(usize::MAX) { Some(InfoError::RankOverflow) } else { None },
        CallKind::Primes => if ds[0].rank == Some(usize::MAX) { Some(InfoError::RankOverflow) } else { None },
        _ => None,
    }
}

/// Every known value is consistent and agrees with the known prefix.
pub open spec fn info_ok(i: InfoV) -> bool {
    &&& info_wf(i)
    &&& finished(i)
}

pub open spec fn all_ok(s: Seq<InfoV>) -> bool {
    forall|j: int| 0 <= j < s.len() ==> #[trigger] info_wf(s[j])
}

/// The step at a node of a kind other than `rows` and `table`: `spec_step`, unless the
/// step would exceed a machine limit or go below rank 0 (`step_blocked`), where that
/// error is given instead.
pub fn step_info(k: &CallKind, deps: Vec<Info>) -> (r: Result<(Info, Vec<Info>), InfoError>)
    requires
        !(*k is Rows || *k is Table),
        deps@.len() >= kind_arity(*k),
        forall|j: int| 0 <= j < deps@.len() ==> info_ok((#[trigger] deps@[j])@),
        *k is Push ==> value_wf(k->Push_0@),
    ensures
        step_blocked(*k, infos_view(deps@)) is Some ==> r == Err::<(Info, Vec<Info>), InfoError>(step_blocked(*k, infos_view(deps@))->0),
        step_blocked(*k, infos_view(deps@)) is None ==> match r {
            Ok((i, m)) => spec_step(*k, infos_view(deps@)) == Some(Ok::<(InfoV, Seq<InfoV>), InfoError>((i@, infos_view(m@)))),
            Err(e) => spec_step(*k, infos_view(deps@)) == Some(Err::<(InfoV, Seq<InfoV>), InfoError>(e)),
        },
        r matches Ok((i, m)) ==> info_ok(i@) && all_ok(infos_view(m@)),
{
    let ghost ds = infos_view(deps@);
    let n = deps.len();
    proof {
        assert forall|j: int| 0 <= j < ds.len() implies #[trigger] info_ok(ds[j]) by {
            assert(ds[j] == deps@[j]@);
        }
        if n >= 1 {
            assert(ds.last() == deps@[n - 1]@);
            assert(ds[0] == deps@[0]@);
        }
        if n >= 2 {
            assert(ds[n - 2] == deps@[n - 2]@);
            assert(ds[1] == deps@[1]@);
        }
    }
    let raw: Result<(Info, Vec<Info>), InfoError> = match k {
        CallKind::Push(v) => {
            let mut i = Info::unknown();
            i.value = Some(v.copy());
            Ok((i, Vec::new()))
        },
        CallKind::Pervasive => match pervasive_info(&deps) {
            Ok(i) => Ok((i, Vec::new())),
            Err(e) => Err(e),
        },
        CallKind::Range => {
            let d = &deps[n - 1];
            let big = match &d.value {
                Some(v) => match &v.nums {
                    Some(nums) => nums.len() == usize::MAX,
                    None => false,
                },
                None => false,
            };
            if big {
                return Err(InfoError::RankOverflow);
            }
            Ok((range_info(d), Vec::new()))
        },
        CallKind::Len => Ok((len_info(&deps[n - 1]), Vec::new())),
        CallKind::Transpose => Ok((transpose_info(&deps[n - 1]), Vec::new())),
        CallKind::TransposeN(t) => Ok((transpose_n_info(*t, &deps[n - 1]), Vec::new())),
        CallKind::Deshape => {
            let mut i = Info::unknown();
            i.rank = Some(1);
            Ok((i, Vec::new()))
        },
        CallKind::DeshapeSub(sub) => {
            let d = &deps[0];
            if *sub < 0 {
                match d.rank {
                    Some(r) => {
                        let kk: usize = if *sub == i32::MIN { 0x8000_0000usize } else { (-*sub) as usize };
                        if r < kk {
                            return Err(InfoError::RankUnderflow);
                        }
                    },
                    None => {},
                }
            }
            Ok((deshape_sub_info(*sub, d), Vec::new()))
        },
        CallKind::Reshape => {
            if deps[n - 1].rank == Some(usize::MAX) {
                return Err(InfoError::RankOverflow);
            }
            match reshape_info(&deps[n - 2], &deps[n - 1]) {
                Ok(i) => Ok((i, Vec::new())),
                Err(e) => Err(e),
            }
        },
        CallKind::Keep | CallKind::MultiKeep | CallKind::Drop => Ok((rank_of_info(&deps[1]), Vec::new())),
        CallKind::MemberOf => {
            if deps[n - 1].rank == Some(usize::MAX) {
                return Err(InfoError::RankOverflow);
            }
            Ok((member_of_info(&deps[n - 2], &deps[n - 1]), Vec::new()))
        },
        CallKind::Primes => {
            if deps[0].rank == Some(usize::MAX) {
                return Err(InfoError::RankOverflow);
            }
            Ok((primes_info(&deps[0]), Vec::new()))
        },
        CallKind::UnKeep | CallKind::Dup => {
            let mut m: Vec<Info> = Vec::new();
            m.push(deps[0].copy());
            m.push(deps[0].copy());
            proof {
                assert(infos_view(m@) =~= seq![ds[0], ds[0]]);
            }
            Ok((Info::unknown(), m))
        },
        CallKind::Reduce => Ok((reduce_info(&deps[n - 1]), Vec::new())),
        CallKind::Other => Ok((Info::unknown(), Vec::new())),
        CallKind::Rows(_) | CallKind::Table(_) => Ok((Info::unknown(), Vec::new())),
    };
    match raw {
        Ok((i, m)) => {
            proof {
                if i.value is Some {
                    let v = i.value->0;
                    assert(v.shape@.len() == v.shape.len());
                }
                lemma_finish_finished(i@);
                assert(m@.len() == 0 ==> infos_view(m@) =~= Seq::<InfoV>::empty());
            }
            let f = i.finish();
            Ok((f, m))
        },
        Err(e) => Err(e),
    }
}


/// The result at a node, as mathematical values.
pub type ResV = Result<(InfoV, Seq<InfoV>), InfoError>;

/// The result at a node: its info and one per output where it has several, or why
/// inference failed there.
pub type NodeRes = Result<(Info, Vec<Info>), InfoError>;

pub open spec fn res_view(r: NodeRes) -> ResV {
    match r {
        Ok((i, m)) => Ok((i@, infos_view(m@))),
        Err(e) => Err(e),
    }
}

pub open spec fn results_view(s: Seq<Option<NodeRes>>) -> Seq<Option<ResV>> {
    s.map_values(|o: Option<NodeRes>| match o {
        Some(r) => Some(res_view(r)),
        None => None,
    })
}

/// A result whose infos are consistent, the node's own info finished.
pub open spec fn res_ok(r: ResV) -> bool {
    r matches Ok((i, m)) ==> info_ok(i) && all_ok(m)
}

/// The value that an input takes from output `out_i` of a node: the node's info for a
/// node of one output, the output's info (its last step applied) for a node of several.
pub open spec fn spec_select(r: ResV, out_i: usize) -> Result<InfoV, InfoError> {
    match r {
        Err(e) => Err(e),
        Ok((i, m)) => if m.len() == 0 {
            if out_i == 0 { Ok(i) } else { Err(InfoError::MissingOutput) }
        } else if out_i < m.len() {
            Ok(spec_finish(m[out_i as int]))
        } else {
            Err(InfoError::MissingOutput)
        },
    }
}

fn select_dep(r: &NodeRes, out_i: usize) -> (s: Result<Info, InfoError>)
    requires
        res_ok(res_view(*r)),
    ensures
        match s {
            Ok(i) => spec_select(res_view(*r), out_i) == Ok::<InfoV, InfoError>(i@) && info_ok(i@),
            Err(e) => spec_select(res_view(*r), out_i) == Err::<InfoV, InfoError>(e),
        },
{
    match r {
        Err(e) => Err(*e),
        Ok((i, m)) => {
            if m.len() == 0 {
                if out_i == 0 { Ok(i.copy()) } else { Err(InfoError::MissingOutput) }
            } else if out_i < m.len() {
                let c = m[out_i].copy();
                proof {
                    assert(infos_view(m@)[out_i as int] == m@[out_i as int]@);
                    assert(info_wf(c@));
                    if c.value is Some {
                        let v = c.value->0;
                        assert(v.shape@.len() == v.shape.len());
                    }
                    lemma_finish_finished(c@);
                }
                Ok(c.finish())
            } else {
                Err(InfoError::MissingOutput)
            }
        },
    }
}

/// The values of the inputs of node `idx`, from the first `k` edges, in their order
/// (which a well-formed graph keeps as the order of the inputs); or the first failure
/// among them.
pub open spec fn spec_gather(edges: Seq<Edge>, rv: Seq<Option<ResV>>, idx: int, k: int) -> Result<Seq<InfoV>, InfoError>
    decreases k,
{
    if k <= 0 {
        Ok(Seq::empty())
    } else {
        let prev = spec_gather(edges, rv, idx, k - 1);
        let e = edges[k - 1];
        if e.from != idx {
            prev
        } else {
            match prev {
                Err(err) => Err(err),
                Ok(s) => match spec_select(rv[e.to as int]->0, e.out_i) {
                    Ok(x) => Ok(s.push(x)),
                    Err(err) => Err(err),
                },
            }
        }
    }
}

/// Gather the inputs of node `idx` from the results of the nodes before it.
fn gather(g: &DataGraph, results: &Vec<Option<NodeRes>>, idx: usize) -> (r: Result<Vec<Info>, InfoError>)
    requires
        g.wf(),
        idx == results@.len(),
        forall|j: int| 0 <= j < g.edges@.len() && (#[trigger] g.edges@[j]).from == idx
            ==> results@[g.edges@[j].to as int] is Some,
        forall|j: int| 0 <= j < results@.len() && (#[trigger] results@[j]) is Some
            ==> res_ok(res_view(results@[j]->0)),
    ensures
        match r {
            Ok(v) => spec_gather(g.edges@, results_view(results@), idx as int, g.edges@.len() as int)
                == Ok::<Seq<InfoV>, InfoError>(infos_view(v@)) && all_ok(infos_view(v@))
                && forall|j: int| 0 <= j < v@.len() ==> info_ok((#[trigger] v@[j])@),
            Err(e) => spec_gather(g.edges@, results_view(results@), idx as int, g.edges@.len() as int)
                == Err::<Seq<InfoV>, InfoError>(e),
        },
{
    let ghost rv = results_view(results@);
    let mut out: Vec<Info> = Vec::new();
    proof {
        assert(infos_view(out@) =~= Seq::<InfoV>::empty());
    }
    let mut k: usize = 0;
    while k < g.edges.len()
        invariant
            k <= g.edges@.len(),
            g.wf(),
            idx == results@.len(),
            rv == results_view(results@),
            forall|j: int| 0 <= j < g.edges@.len() && (#[trigger] g.edges@[j]).from == idx
                ==> results@[g.edges@[j].to as int] is Some,
            forall|j: int| 0 <= j < results@.len() && (#[trigger] results@[j]) is Some
                ==> res_ok(res_view(results@[j]->0)),
            spec_gather(g.edges@, rv, idx as int, k as int) == Ok::<Seq<InfoV>, InfoError>(infos_view(out@)),
            forall|j: int| 0 <= j < out@.len() ==> info_ok((#[trigger] out@[j])@),
        decreases g.edges@.len() - k,
    {
        let e = g.edges[k];
        if e.from == idx {
            proof {
                assert(g.edges@[k as int] == e);
                assert(e.to < e.from);
                assert(results@[e.to as int] is Some);
                assert(rv[e.to as int] == Some(res_view(results@[e.to as int]->0)));
            }
            let r = match &results[e.to] {
                Some(r) => r,
                None => {
                    return Err(InfoError::MissingOutput);
                },
            };
            match select_dep(r, e.out_i) {
                Ok(x) => {
                    let ghost before = out@;
                    out.push(x);
                    proof {
                        assert(infos_view(out@) =~= infos_view(before).push(x@));
                    }
                },
                Err(err) => {
                    proof {
                        lemma_gather_err(g.edges@, rv, idx as int, k as int + 1);
                    }
                    return Err(err);
                },
            }
        }
        k += 1;
    }
    proof {
        assert forall|j: int| 0 <= j < infos_view(out@).len() implies #[trigger] info_wf(infos_view(out@)[j]) by {
            assert(infos_view(out@)[j] == out@[j]@);
        }
    }
    Ok(out)
}

proof fn lemma_gather_err(edges: Seq<Edge>, rv: Seq<Option<ResV>>, idx: int, k: int)
    requires
        0 <= k <= edges.len(),
        spec_gather(edges, rv, idx, k) is Err,
    ensures
        spec_gather(edges, rv, idx, edges.len() as int) == spec_gather(edges, rv, idx, k),
    decreases edges.len() - k,
{
    if k < edges.len() {
        lemma_gather_err(edges, rv, idx, k + 1);
    }
}

/// The info of argument `a`: the one given, or nothing known past the given ones.
pub open spec fn arg_info(args: Seq<InfoV>, a: usize) -> InfoV {
    if a < args.len() { args[a as int] } else { empty_info() }
}

/// A kind table that inference can use: known values are consistent, and the
/// functions of `rows` and `table` can be simulated on empty stacks.
pub open spec fn kinds_ok(kinds: Seq<CallKind>) -> bool {
    forall|id: int| 0 <= id < kinds.len() ==> #[trigger] kind_ok(kinds[id])
}

pub open spec fn kind_ok(k: CallKind) -> bool {
    match k {
        CallKind::Push(v) => value_wf(v@),
        CallKind::Rows(f) | CallKind::Table(f) => effect(0, 0, f) is Sizes && node_bound(f) <= usize::MAX,
        _ => true,
    }
}

/// The graph of a function, as processing it on empty stacks builds it.
pub open spec fn func_graph(f: SigNode) -> GraphV {
    sim(empty_graph(), f)
}

/// A function's output given the leading axes of `rows` or `table` over the arguments
/// `ds`.
pub open spec fn nested_out(k: CallKind, ds: Seq<InfoV>, x: InfoV) -> InfoV {
    if k is Rows {
        spec_rows_out(x, spec_rows_len(ds)->Ok_0)
    } else {
        spec_table_out(x, spec_table_lead(ds).0, spec_table_lead(ds).1, ds.len())
    }
}

/// The output's rank would pass `usize::MAX` once the leading axes are added.
pub open spec fn nested_overflows(k: CallKind, ds: Seq<InfoV>, x: InfoV) -> bool {
    match x.rank {
        Some(r) => if k is Rows { r == usize::MAX } else { r > usize::MAX - ds.len() },
        None => false,
    }
}

/// The value at stack entry `e` of a filled function graph.
pub open spec fn stack_value(sub: Seq<Option<ResV>>, e: (usize, usize)) -> Result<InfoV, InfoError> {
    match sub[e.0 as int] {
        Some(r) => spec_select(r, e.1),
        None => Err(InfoError::MissingOutput),
    }
}

/// The outputs `outs[..j]`, from the last down, each given its leading axes; the first
/// failure met is the result.
pub open spec fn nested_scan(k: CallKind, ds: Seq<InfoV>, outs: Seq<Result<InfoV, InfoError>>, j: int)
    -> Result<Seq<InfoV>, InfoError>
    decreases j,
{
    if j <= 0 {
        Ok(Seq::empty())
    } else {
        match outs[j - 1] {
            Err(e) => Err(e),
            Ok(x) => if nested_overflows(k, ds, x) {
                Err(InfoError::RankOverflow)
            } else {
                match nested_scan(k, ds, outs, j - 1) {
                    Ok(m) => Ok(seq![nested_out(k, ds, x)] + m),
                    Err(e) => Err(e),
                }
            },
        }
    }
}

/// What `rows` or `table` gives from the values on its function's stack: one output
/// given its leading axes; several as the outputs of a node of several outputs, the
/// last first.
pub open spec fn nested_result(k: CallKind, ds: Seq<InfoV>, outs: Seq<Result<InfoV, InfoError>>) -> ResV {
    if outs.len() == 1 {
        match outs[0] {
            Err(e) => Err(e),
            Ok(x) => if nested_overflows(k, ds, x) {
                Err(InfoError::RankOverflow)
            } else {
                Ok((spec_finish(nested_out(k, ds, x)), Seq::empty()))
            },
        }
    } else {
        match nested_scan(k, ds, outs, outs.len() as int) {
            Ok(m) => Ok((empty_info(), m)),
            Err(e) => Err(e),
        }
    }
}

/// One row of each argument.
pub open spec fn row_args_of(ds: Seq<InfoV>) -> Seq<InfoV> {
    ds.map_values(|x: InfoV| spec_row_arg(x))
}

/// The values at the stack entries of a filled function graph.
pub open spec fn stack_vals(stack: Seq<(usize, usize)>, sub: Seq<Option<ResV>>) -> Seq<Result<InfoV, InfoError>> {
    stack.map_values(|e: (usize, usize)| stack_value(sub, e))
}

/// The result at an operation node `idx` of kind id `id`, given the results `rv` of the
/// nodes before it: unknown operations and missing inputs fail; `rows` and `table`
/// fail when nested too deep or, for `rows`, when the row counts disagree, and
/// otherwise fill their function's graph from one row of each argument one level
/// deeper and give the values on its stack their leading axes; every other kind takes
/// its step, unless that would exceed a machine limit.
pub open spec fn node_res(edges: Seq<Edge>, kinds: Seq<CallKind>, mutating: Seq<bool>, rv: Seq<Option<ResV>>, idx: int,
    id: usize, depth: usize) -> ResV
    decreases depth, 0nat, 0nat,
{
    if id >= kinds.len() {
        Err(InfoError::UnknownOperation)
    } else {
        let k = kinds[id as int];
        match spec_gather(edges, rv, idx, edges.len() as int) {
            Err(e) => Err(e),
            Ok(ds) => if ds.len() < kind_arity(k) {
                Err(InfoError::MissingArgument)
            } else if k is Rows || k is Table {
                if depth == 0 {
                    Err(InfoError::TooDeep)
                } else if k is Rows && spec_rows_len(ds) is Err {
                    Err(spec_rows_len(ds)->Err_0)
                } else {
                    let f = if k is Rows { k->Rows_0 } else { k->Table_0 };
                    let sub = spec_fill(func_graph(f), kinds, mutating, row_args_of(ds), (depth - 1) as usize);
                    nested_result(k, ds, stack_vals(func_graph(f).stack, sub))
                }
            } else if step_blocked(k, ds) is Some {
                Err(step_blocked(k, ds)->0)
            } else {
                spec_step(k, ds)->0
            },
        }
    }
}

/// The result at node `i` of `g`, given the results `rv` of the nodes before it: none
/// where the roots do not depend on the node; an argument's info, or the operation's
/// result.
pub open spec fn result_at(g: GraphV, kinds: Seq<CallKind>, mutating: Seq<bool>, args: Seq<InfoV>, depth: usize,
    rv: Seq<Option<ResV>>, i: int) -> Option<ResV>
    decreases depth, 1nat, 0nat,
{
    if !reached(g.nodes.len(), g.edges, graph_roots(g, mutating), i as nat) {
        None
    } else {
        match g.nodes[i] {
            Data::Arg(a) => Some(Ok((spec_finish(arg_info(args, a)), Seq::empty()))),
            Data::Node(id) => Some(node_res(g.edges, kinds, mutating, rv, i, id, depth)),
        }
    }
}

/// The results at the first `n` nodes of `g`, each from those before it.
pub open spec fn fill_prefix(g: GraphV, kinds: Seq<CallKind>, mutating: Seq<bool>, args: Seq<InfoV>, depth: usize, n: nat)
    -> Seq<Option<ResV>>
    decreases depth, 2nat, n,
{
    if n == 0 {
        Seq::empty()
    } else {
        let rv = fill_prefix(g, kinds, mutating, args, depth, (n - 1) as nat);
        rv.push(result_at(g, kinds, mutating, args, depth, rv, n - 1))
    }
}

/// What inference gives at every node of `g` from what is known of the arguments
/// `args`, with functions nested at most `depth` deep.
pub open spec fn spec_fill(g: GraphV, kinds: Seq<CallKind>, mutating: Seq<bool>, args: Seq<InfoV>, depth: usize)
    -> Seq<Option<ResV>>
    decreases depth, 3nat, 0nat,
{
    fill_prefix(g, kinds, mutating, args, depth, g.nodes.len())
}

/// Infer what is known at the nodes of a graph that the roots (the operations that
/// `mutating` marks, and the values on the stack) depend on, from what is known of the
/// arguments; the other nodes get `None`. Nodes are inferred after their inputs; the
/// functions of `rows` and `table` are inferred as graphs of their own, nested at most
/// `depth` deep.
pub fn fill_infos(g: &DataGraph, kinds: &Vec<CallKind>, mutating: &Vec<bool>, args: &Vec<Info>, depth: usize)
    -> (r: Vec<Option<NodeRes>>)
    requires
        g.wf(),
        kinds_ok(kinds@),
        forall|j: int| 0 <= j < args@.len() ==> info_wf((#[trigger] args@[j])@),
    ensures
        results_view(r@) == spec_fill(g@, kinds@, mutating@, infos_view(args@), depth),
        r@.len() == g.nodes@.len(),
        forall|i: int| 0 <= i < r@.len() ==> (results_view(r@)[i] is Some
            <==> reached(g.nodes@.len(), g.edges@, g.roots_spec(mutating@), i as nat)),
        forall|i: int| 0 <= i < r@.len() && (#[trigger] r@[i]) is Some ==> res_ok(res_view(r@[i]->0)),
    decreases depth, 2nat,
{
    let roots = g.roots(mutating);
    let live = g.live_nodes(&roots);
    let ghost n = g.nodes@.len();
    let ghost av = infos_view(args@);
    let mut out: Vec<Option<NodeRes>> = Vec::new();
    let mut i: usize = 0;
    while i < g.nodes.len()
        invariant
            i <= g.nodes@.len(),
            n == g.nodes@.len(),
            g.wf(),
            kinds_ok(kinds@),
            forall|j: int| 0 <= j < args@.len() ==> info_wf((#[trigger] args@[j])@),
            av == infos_view(args@),
            live@.len() == n,
            roots@ == g.roots_spec(mutating@),
            roots@ == graph_roots(g@, mutating@),
            forall|j: int| 0 <= j < live@.len() ==> #[trigger] live@[j] == reached(n, g.edges@, roots@, j as nat),
            out@.len() == i,
            results_view(out@) == fill_prefix(g@, kinds@, mutating@, av, depth, i as nat),
            forall|j: int| 0 <= j < out@.len() && (#[trigger] out@[j]) is Some ==> res_ok(res_view(out@[j]->0)),
        decreases g.nodes@.len() - i,
    {
        let ghost before = out@;
        proof {
            lemma_fill_prefix(g@, kinds@, mutating@, av, depth, i as nat);
        }
        if !live[i] {
            out.push(None);
        } else {
            proof {
                assert forall|j: int| 0 <= j < g.edges@.len() && (#[trigger] g.edges@[j]).from == i
                    implies out@[g.edges@[j].to as int] is Some by {
                    let e = g.edges@[j];
                    assert(e.to < e.from);
                    lemma_reached_dep(n, g.edges@, roots@, i as nat, j);
                    assert(results_view(out@)[e.to as int] == (match out@[e.to as int] {
                        Some(r) => Some(res_view(r)),
                        None => None,
                    }));
                }
            }
            let res = node_result(g, &out, i, kinds, mutating, args, depth);
            out.push(Some(res));
        }
        proof {
            assert(results_view(out@) =~= results_view(before).push(result_at(g@, kinds@, mutating@, av, depth,
                results_view(before), i as int)));
        }
        i += 1;
    }
    proof {
        lemma_fill_prefix(g@, kinds@, mutating@, av, depth, n);
    }
    out
}

/// The results of the first `n` nodes: each is the result at its node from those before
/// it, and is there exactly where the roots depend on the node.
proof fn lemma_fill_prefix(g: GraphV, kinds: Seq<CallKind>, mutating: Seq<bool>, args: Seq<InfoV>, depth: usize, n: nat)
    ensures
        fill_prefix(g, kinds, mutating, args, depth, n).len() == n,
        forall|j: int| 0 <= j < n ==> fill_prefix(g, kinds, mutating, args, depth, n)[j]
            == #[trigger] result_at(g, kinds, mutating, args, depth, fill_prefix(g, kinds, mutating, args, depth, j as nat), j),
        forall|j: int| 0 <= j < n ==> (#[trigger] fill_prefix(g, kinds, mutating, args, depth, n)[j] is Some
            <==> reached(g.nodes.len(), g.edges, graph_roots(g, mutating), j as nat)),
    decreases n,
{
    if n > 0 {
        lemma_fill_prefix(g, kinds, mutating, args, depth, (n - 1) as nat);
    }
    assert forall|j: int| 0 <= j < n implies (#[trigger] fill_prefix(g, kinds, mutating, args, depth, n)[j] is Some
        <==> reached(g.nodes.len(), g.edges, graph_roots(g, mutating), j as nat)) by {
        let rv = fill_prefix(g, kinds, mutating, args, depth, j as nat);
        assert(fill_prefix(g, kinds, mutating, args, depth, n)[j] == result_at(g, kinds, mutating, args, depth, rv, j));
    }
}

/// The inputs of a reached node are reached.
proof fn lemma_reached_dep(n: nat, edges: Seq<Edge>, roots: Seq<usize>, i: nat, j: int)
    requires
        0 <= j < edges.len(),
        edges[j].from == i,
        edges[j].to < edges[j].from < n,
        reached(n, edges, roots, i),
    ensures
        reached(n, edges, roots, edges[j].to as nat),
{
    let t = edges[j].to as nat;
    assert(exists|k: int| 0 <= k < edges.len() && (#[trigger] edges[k]).to == t && t < edges[k].from < n
        && reached(n, edges, roots, edges[k].from as nat));
    reveal_with_fuel(reached, 2);
}

fn kind_arity_of(k: &CallKind) -> (r: usize)
    ensures
        r == kind_arity(*k),
{
    match k {
        CallKind::Range | CallKind::Len | CallKind::Transpose | CallKind::TransposeN(_) | CallKind::Reduce
            | CallKind::DeshapeSub(_) | CallKind::Primes | CallKind::UnKeep | CallKind::Dup => 1,
        CallKind::Reshape | CallKind::Keep | CallKind::MultiKeep | CallKind::Drop | CallKind::MemberOf => 2,
        _ => 0,
    }
}

/// The result at node `i`, from the results of the nodes before it.
fn node_result(g: &DataGraph, results: &Vec<Option<NodeRes>>, i: usize, kinds: &Vec<CallKind>, mutating: &Vec<bool>,
    args: &Vec<Info>, depth: usize) -> (r: NodeRes)
    requires
        g.wf(),
        i == results@.len(),
        i < g.nodes@.len(),
        kinds_ok(kinds@),
        forall|j: int| 0 <= j < args@.len() ==> info_wf((#[trigger] args@[j])@),
        forall|j: int| 0 <= j < g.edges@.len() && (#[trigger] g.edges@[j]).from == i
            ==> results@[g.edges@[j].to as int] is Some,
        forall|j: int| 0 <= j < results@.len() && (#[trigger] results@[j]) is Some
            ==> res_ok(res_view(results@[j]->0)),
    ensures
        res_ok(res_view(r)),
        g.nodes@[i as int] is Arg ==> res_view(r)
            == Ok::<(InfoV, Seq<InfoV>), InfoError>((spec_finish(arg_info(infos_view(args@), g.nodes@[i as int]->Arg_0)), Seq::empty())),
        g.nodes@[i as int] is Node ==> res_view(r) == node_res(g.edges@, kinds@, mutating@, results_view(results@), i as int,
            g.nodes@[i as int]->Node_0, depth),
    decreases depth, 1nat,
{
    match g.nodes[i] {
        Data::Arg(a) => {
            let base = if a < args.len() { args[a].copy() } else { Info::unknown() };
            proof {
                if a < args@.len() {
                    assert(infos_view(args@)[a as int] == args@[a as int]@);
                }
                if base.value is Some {
                    let v = base.value->0;
                    assert(v.shape@.len() == v.shape.len());
                }
                lemma_finish_finished(base@);
            }
            let f = base.finish();
            let m: Vec<Info> = Vec::new();
            proof {
                assert(infos_view(m@) =~= Seq::<InfoV>::empty());
            }
            Ok((f, m))
        },
        Data::Node(id) => {
            if id >= kinds.len() {
                return Err(InfoError::UnknownOperation);
            }
            let deps = match gather(g, results, i) {
                Ok(d) => d,
                Err(e) => {
                    return Err(e);
                },
            };
            let k = &kinds[id];
            proof {
                assert(kind_ok(kinds@[id as int]));
                assert(infos_view(deps@).len() == deps@.len());
            }
            if deps.len() < kind_arity_of(k) {
                return Err(InfoError::MissingArgument);
            }
            match k {
                CallKind::Rows(f) => rows_result(f, deps, kinds, mutating, depth),
                CallKind::Table(f) => table_result(f, deps, kinds, mutating, depth),
                _ => step_info(k, deps),
            }
        },
    }
}

/// The arguments of a function mapped over rows.
fn row_args(deps: &Vec<Info>) -> (r: Vec<Info>)
    requires
        forall|j: int| 0 <= j < deps@.len() ==> info_ok((#[trigger] deps@[j])@),
    ensures
        r@.len() == deps@.len(),
        forall|j: int| 0 <= j < r@.len() ==> (#[trigger] r@[j])@ == spec_row_arg(deps@[j]@) && info_wf(r@[j]@),
{
    let mut out: Vec<Info> = Vec::new();
    let mut k: usize = 0;
    while k < deps.len()
        invariant
            k <= deps@.len(),
            forall|j: int| 0 <= j < deps@.len() ==> info_ok((#[trigger] deps@[j])@),
            out@.len() == k,
            forall|j: int| 0 <= j < k ==> (#[trigger] out@[j])@ == spec_row_arg(deps@[j]@) && info_wf(out@[j]@),
        decreases deps@.len() - k,
    {
        out.push(row_arg(&deps[k]));
        k += 1;
    }
    out
}

/// The values left on the stack of a filled graph.
fn stack_values(g: &DataGraph, res: &Vec<Option<NodeRes>>, mutating: &Vec<bool>) -> (r: Vec<Result<Info, InfoError>>)
    requires
        g.wf(),
        res@.len() == g.nodes@.len(),
        forall|i: int| 0 <= i < res@.len() ==> (results_view(res@)[i] is Some
            <==> reached(g.nodes@.len(), g.edges@, g.roots_spec(mutating@), i as nat)),
        forall|i: int| 0 <= i < res@.len() && (#[trigger] res@[i]) is Some ==> res_ok(res_view(res@[i]->0)),
    ensures
        r@.len() == g.stack@.len(),
        forall|j: int| 0 <= j < r@.len() ==> (#[trigger] r@[j]) is Ok ==> info_ok(r@[j]->Ok_0@),
        forall|j: int| 0 <= j < r@.len() ==> info_res_view(#[trigger] r@[j]) == stack_value(results_view(res@), g.stack@[j]),
{
    let ghost roots = g.roots_spec(mutating@);
    let ghost m = crate::graph::mutating_nodes(g.nodes@, mutating@, g.nodes@.len() as int);
    let mut out: Vec<Result<Info, InfoError>> = Vec::new();
    let mut k: usize = 0;
    while k < g.stack.len()
        invariant
            k <= g.stack@.len(),
            g.wf(),
            res@.len() == g.nodes@.len(),
            roots == g.roots_spec(mutating@),
            m == crate::graph::mutating_nodes(g.nodes@, mutating@, g.nodes@.len() as int),
            forall|i: int| 0 <= i < res@.len() ==> (results_view(res@)[i] is Some
                <==> reached(g.nodes@.len(), g.edges@, roots, i as nat)),
            forall|i: int| 0 <= i < res@.len() && (#[trigger] res@[i]) is Some ==> res_ok(res_view(res@[i]->0)),
            out@.len() == k,
            forall|j: int| 0 <= j < out@.len() ==> (#[trigger] out@[j]) is Ok ==> info_ok(out@[j]->Ok_0@),
            forall|j: int| 0 <= j < out@.len() ==> info_res_view(#[trigger] out@[j]) == stack_value(results_view(res@), g.stack@[j]),
        decreases g.stack@.len() - k,
    {
        let (node, out_i) = g.stack[k];
        proof {
            assert(g.stack@[k as int].0 < g.nodes@.len());
            assert(roots[m.len() + k] == node);
            assert(roots.contains(node));
            assert(reached(g.nodes@.len(), g.edges@, roots, node as nat));
            assert(results_view(res@)[node as int] is Some);
        }
        let v = match &res[node] {
            Some(r) => select_dep(r, out_i),
            None => Err(InfoError::MissingOutput),
        };
        out.push(v);
        k += 1;
    }
    out
}

/// What is known of a value on a stack, or why it is not there.
pub open spec fn info_res_view(r: Result<Info, InfoError>) -> Result<InfoV, InfoError> {
    match r {
        Ok(x) => Ok(x@),
        Err(e) => Err(e),
    }
}

/// The leading axes that `rows` (with row count `len`) or `table` (with leading lengths
/// `lead`) gives an output of its function; `None` where its rank would pass
/// `usize::MAX`.
fn give_axes(rows: bool, Ghost(k): Ghost<CallKind>, Ghost(ds): Ghost<Seq<InfoV>>, x: &Info, len: Option<usize>,
    lead: &Vec<usize>, incomplete: bool, nargs: usize) -> (r: Option<Info>)
    requires
        rows == k is Rows,
        k is Rows || k is Table,
        k is Rows ==> spec_rows_len(ds) == Ok::<Option<usize>, InfoError>(len),
        k is Table ==> (lead@, incomplete) == spec_table_lead(ds) && nargs == ds.len(),
    ensures
        r is None <==> nested_overflows(k, ds, x@),
        r is Some ==> r->0@ == nested_out(k, ds, x@),
{
    if rows {
        if x.rank == Some(usize::MAX) {
            None
        } else {
            Some(rows_out(x.copy(), len))
        }
    } else {
        match x.rank {
            Some(rk) => if rk > usize::MAX - nargs {
                return None;
            },
            None => {},
        }
        Some(table_out(x.copy(), lead, incomplete, nargs))
    }
}

/// What `rows` or `table` gives from the values on its function's stack (see
/// `nested_result`).
fn nested_finish(rows: bool, Ghost(k): Ghost<CallKind>, Ghost(ds): Ghost<Seq<InfoV>>, outs: &Vec<Result<Info, InfoError>>,
    len: Option<usize>, lead: &Vec<usize>, incomplete: bool, nargs: usize) -> (r: NodeRes)
    requires
        rows == k is Rows,
        k is Rows || k is Table,
        k is Rows ==> spec_rows_len(ds) == Ok::<Option<usize>, InfoError>(len),
        k is Table ==> (lead@, incomplete) == spec_table_lead(ds) && nargs == ds.len(),
        forall|q: int| 0 <= q < outs@.len() ==> (#[trigger] outs@[q]) is Ok ==> info_ok(outs@[q]->Ok_0@),
    ensures
        res_ok(res_view(r)),
        res_view(r) == nested_result(k, ds, outs@.map_values(|o: Result<Info, InfoError>| info_res_view(o))),
{
    let ghost ov = outs@.map_values(|o: Result<Info, InfoError>| info_res_view(o));
    let n = outs.len();
    if n == 1 {
        proof {
            assert(ov[0] == info_res_view(outs@[0]));
        }
        match &outs[0] {
            Ok(x) => {
                match give_axes(rows, Ghost(k), Ghost(ds), x, len, lead, incomplete, nargs) {
                    Some(o) => {
                        proof {
                            if o.value is Some {
                                let v = o.value->0;
                                assert(v.shape@.len() == v.shape.len());
                            }
                            lemma_finish_finished(o@);
                        }
                        let m: Vec<Info> = Vec::new();
                        proof {
                            assert(infos_view(m@) =~= Seq::<InfoV>::empty());
                        }
                        Ok((o.finish(), m))
                    },
                    None => Err(InfoError::RankOverflow),
                }
            },
            Err(e) => Err(*e),
        }
    } else {
        let mut multi: Vec<Info> = Vec::new();
        let mut j: usize = n;
        while j > 0
            invariant
                j <= n,
                n == outs@.len(),
                rows == k is Rows,
                k is Rows || k is Table,
                k is Rows ==> spec_rows_len(ds) == Ok::<Option<usize>, InfoError>(len),
                k is Table ==> (lead@, incomplete) == spec_table_lead(ds) && nargs == ds.len(),
                ov == outs@.map_values(|o: Result<Info, InfoError>| info_res_view(o)),
                forall|q: int| 0 <= q < outs@.len() ==> (#[trigger] outs@[q]) is Ok ==> info_ok(outs@[q]->Ok_0@),
                forall|q: int| 0 <= q < multi@.len() ==> info_wf((#[trigger] multi@[q])@),
                nested_scan(k, ds, ov, n as int) == match nested_scan(k, ds, ov, j as int) {
                    Ok(m) => Ok(infos_view(multi@) + m),
                    Err(e) => Err::<Seq<InfoV>, InfoError>(e),
                },
            decreases j,
        {
            proof {
                assert(ov[j - 1] == info_res_view(outs@[j - 1]));
            }
            match &outs[j - 1] {
                Ok(x) => {
                    match give_axes(rows, Ghost(k), Ghost(ds), x, len, lead, incomplete, nargs) {
                        Some(o) => {
                            let ghost before = multi@;
                            multi.push(o);
                            proof {
                                assert(infos_view(multi@) =~= infos_view(before).push(o@));
                                let rest = nested_scan(k, ds, ov, j - 1);
                                if rest is Ok {
                                    assert(infos_view(before) + (seq![o@] + rest->Ok_0) =~= infos_view(multi@) + rest->Ok_0);
                                }
                            }
                        },
                        None => {
                            return Err(InfoError::RankOverflow);
                        },
                    }
                },
                Err(e) => {
                    return Err(*e);
                },
            }
            j -= 1;
        }
        proof {
            assert(infos_view(multi@) + Seq::<InfoV>::empty() =~= infos_view(multi@));
            assert forall|q: int| 0 <= q < infos_view(multi@).len() implies #[trigger] info_wf(infos_view(multi@)[q]) by {
                assert(infos_view(multi@)[q] == multi@[q]@);
            }
        }
        Ok((Info::unknown(), multi))
    }
}

/// The graph of a function of `rows` or `table`, filled from one row of each argument,
/// one level deeper.
fn fill_nested(f: &SigNode, deps: &Vec<Info>, kinds: &Vec<CallKind>, mutating: &Vec<bool>, depth: usize)
    -> (r: (DataGraph, Vec<Option<NodeRes>>))
    requires
        depth > 0,
        kinds_ok(kinds@),
        effect(0, 0, *f) is Sizes,
        node_bound(*f) <= usize::MAX,
        forall|j: int| 0 <= j < deps@.len() ==> info_ok((#[trigger] deps@[j])@),
    ensures
        r.0.wf(),
        r.0@ == func_graph(*f),
        r.1@.len() == r.0.nodes@.len(),
        results_view(r.1@) == spec_fill(func_graph(*f), kinds@, mutating@, row_args_of(infos_view(deps@)), (depth - 1) as usize),
        forall|i: int| 0 <= i < r.1@.len() ==> (results_view(r.1@)[i] is Some
            <==> reached(r.0.nodes@.len(), r.0.edges@, r.0.roots_spec(mutating@), i as nat)),
        forall|i: int| 0 <= i < r.1@.len() && (#[trigger] r.1@[i]) is Some ==> res_ok(res_view(r.1@[i]->0)),
    decreases depth - 1, 3nat,
{
    let sub_args = row_args(deps);
    let mut sg = DataGraph::new();
    let ok = sg.process_node(f);
    proof {
        assert(ok is Ok);
        assert(infos_view(sub_args@) =~= row_args_of(infos_view(deps@)));
    }
    let res = fill_infos(&sg, kinds, mutating, &sub_args, depth - 1);
    (sg, res)
}

/// `rows`: the row count, the function inferred on one row of each argument, and each
/// of its outputs given a leading axis of the row count.
fn rows_result(f: &SigNode, deps: Vec<Info>, kinds: &Vec<CallKind>, mutating: &Vec<bool>, depth: usize) -> (r: NodeRes)
    requires
        kinds_ok(kinds@),
        effect(0, 0, *f) is Sizes,
        node_bound(*f) <= usize::MAX,
        forall|j: int| 0 <= j < deps@.len() ==> info_ok((#[trigger] deps@[j])@),
    ensures
        res_ok(res_view(r)),
        depth == 0 ==> r == Err::<(Info, Vec<Info>), InfoError>(InfoError::TooDeep),
        depth > 0 && spec_rows_len(infos_view(deps@)) is Err
            ==> r == Err::<(Info, Vec<Info>), InfoError>(spec_rows_len(infos_view(deps@))->Err_0),
        depth > 0 && spec_rows_len(infos_view(deps@)) is Ok ==> res_view(r) == nested_result(CallKind::Rows(*f),
            infos_view(deps@), stack_vals(func_graph(*f).stack, spec_fill(func_graph(*f), kinds@, mutating@,
            row_args_of(infos_view(deps@)), (depth - 1) as usize))),
    decreases depth, 0nat,
{
    if depth == 0 {
        return Err(InfoError::TooDeep);
    }
    let len = match rows_len(&deps) {
        Ok(l) => l,
        Err(e) => {
            return Err(e);
        },
    };
    let ghost ds = infos_view(deps@);
    let (sg, res) = fill_nested(f, &deps, kinds, mutating, depth);
    let outs = stack_values(&sg, &res, mutating);
    let lead: Vec<usize> = Vec::new();
    let r = nested_finish(true, Ghost(CallKind::Rows(*f)), Ghost(ds), &outs, len, &lead, false, 0);
    proof {
        let sub = results_view(res@);
        assert(outs@.map_values(|o: Result<Info, InfoError>| info_res_view(o)) =~= stack_vals(func_graph(*f).stack, sub));
    }
    r
}

/// `table`: the known leading lengths, the function inferred on one row of each
/// argument, and each of its outputs given one leading axis per argument.
fn table_result(f: &SigNode, deps: Vec<Info>, kinds: &Vec<CallKind>, mutating: &Vec<bool>, depth: usize) -> (r: NodeRes)
    requires
        kinds_ok(kinds@),
        effect(0, 0, *f) is Sizes,
        node_bound(*f) <= usize::MAX,
        forall|j: int| 0 <= j < deps@.len() ==> info_ok((#[trigger] deps@[j])@),
    ensures
        res_ok(res_view(r)),
        depth == 0 ==> r == Err::<(Info, Vec<Info>), InfoError>(InfoError::TooDeep),
        depth > 0 ==> res_view(r) == nested_result(CallKind::Table(*f), infos_view(deps@),
            stack_vals(func_graph(*f).stack, spec_fill(func_graph(*f), kinds@, mutating@, row_args_of(infos_view(deps@)),
            (depth - 1) as usize))),
    decreases depth, 0nat,
{
    if depth == 0 {
        return Err(InfoError::TooDeep);
    }
    let ghost ds = infos_view(deps@);
    let (lead, incomplete) = table_lead(&deps);
    let nargs = deps.len();
    let (sg, res) = fill_nested(f, &deps, kinds, mutating, depth);
    let outs = stack_values(&sg, &res, mutating);
    let r = nested_finish(false, Ghost(CallKind::Table(*f)), Ghost(ds), &outs, None, &lead, incomplete, nargs);
    proof {
        let sub = results_view(res@);
        assert(outs@.map_values(|o: Result<Info, InfoError>| info_res_view(o)) =~= stack_vals(func_graph(*f).stack, sub));
    }
    r
}


/// Shape inference for a function: its data graph (pruned as `DataGraph::from_node`
/// prunes it) and what is known at each of its nodes that the roots depend on, from
/// what is known of its arguments. Functions of `rows` and `table` are inferred nested
/// at most as deep as there are kinds of operations.
pub fn infer_shapes(node: &SigNode, kinds: &Vec<CallKind>, mutating: &Vec<bool>, args: &Vec<Info>)
    -> (r: Result<(DataGraph, Vec<Option<NodeRes>>), crate::graph::GraphError>)
    requires
        !(effect(0, 0, *node) is Wrong),
        node_bound(*node) <= usize::MAX,
        kinds_ok(kinds@),
        forall|j: int| 0 <= j < args@.len() ==> info_wf((#[trigger] args@[j])@),
    ensures
        effect(0, 0, *node) is Fails ==> r == Err::<(DataGraph, Vec<Option<NodeRes>>), crate::graph::GraphError>(
            effect(0, 0, *node)->Fails_0),
        effect(0, 0, *node) is Sizes ==> r is Ok,
        r is Ok ==> {
            let (g, res) = r->Ok_0;
            &&& g.wf()
            &&& res@.len() == g.nodes@.len()
            &&& results_view(res@) == spec_fill(g@, kinds@, mutating@, infos_view(args@), kinds@.len() as usize)
            &&& forall|i: int| 0 <= i < res@.len() && (#[trigger] res@[i]) is Some ==> res_ok(res_view(res@[i]->0))
        },
{
    match DataGraph::from_node(node, mutating) {
        Ok((g, _live)) => {
            let res = fill_infos(&g, kinds, mutating, args, kinds.len());
            Ok((g, res))
        },
        Err(e) => Err(e),
    }
}

/// The number of elements of the shape, or `None` if it exceeds `usize`.
fn elem_total(shape: &Vec<usize>) -> (r: Option<usize>)
    ensures
        r is Some ==> r->0 == seq_product(shape@),
        r is None ==> seq_product(shape@) > usize::MAX,
{
    let mut p: usize = 1;
    let mut big = false;
    let mut zero = false;
    let mut i: usize = 0;
    while i < shape.len()
        invariant
            i <= shape@.len(),
            zero ==> seq_product(shape@.take(i as int)) == 0,
            !zero && big ==> seq_product(shape@.take(i as int)) > usize::MAX,
            !zero && !big ==> seq_product(shape@.take(i as int)) == p,
        decreases shape@.len() - i,
    {
        let x = shape[i];
        let ghost prev = seq_product(shape@.take(i as int));
        proof {
            assert(shape@.take(i + 1).drop_last() =~= shape@.take(i as int));
            assert(seq_product(shape@.take(i + 1)) == prev * x);
        }
        if x == 0 {
            zero = true;
        } else if !zero && !big {
            if p <= usize::MAX / x {
                proof {
                    assert(p * x <= usize::MAX) by (nonlinear_arith)
                        requires p <= usize::MAX / x, x > 0;
                }
                p = p * x;
            } else {
                proof {
                    assert(p * x > usize::MAX) by (nonlinear_arith)
                        requires p > usize::MAX / x, x > 0;
                }
                big = true;
            }
        } else if !zero {
            proof {
                assert(prev * x >= prev) by (nonlinear_arith)
                    requires x >= 1, prev >= 0;
            }
        }
        i += 1;
    }
    proof {
        assert(shape@.take(shape@.len() as int) =~= shape@);
    }
    if zero {
        Some(0)
    } else if big {
        None
    } else {
        Some(p)
    }
}

/// Whether the known value is consistent (`value_wf`).
pub fn value_ok(v: &ShapedValue) -> (r: bool)
    ensures
        r == value_wf(v@),
{
    match v.kind {
        ValueKind::Num | ValueKind::Byte => match &v.nums {
            Some(nums) => match elem_total(&v.shape) {
                Some(n) => nums.len() == n,
                None => {
                    let len = nums.len();
                    proof {
                        assert(len as int == nums@.len());
                    }
                    false
                },
            },
            None => false,
        },
        _ => true,
    }
}

/// Whether `infer_shapes` can be called on these inputs: the graph of `node` can be
/// built (see `can_build`), the functions of `rows` and `table` build without failing
/// (see `builds`), and the known values are consistent. `false` also where a size of
/// the stacks along the way does not fit in a `usize`.
pub fn infer_ready(node: &SigNode, kinds: &Vec<CallKind>, args: &Vec<Info>) -> (r: bool)
    ensures
        r ==> {
            &&& !(effect(0, 0, *node) is Wrong)
            &&& node_bound(*node) <= usize::MAX
            &&& kinds_ok(kinds@)
            &&& forall|j: int| 0 <= j < args@.len() ==> info_wf((#[trigger] args@[j])@)
        },
        effect(0, 0, *node) is Wrong ==> !r,
        node_bound(*node) > usize::MAX ==> !r,
        !(forall|j: int| 0 <= j < args@.len() ==> info_wf((#[trigger] args@[j])@)) ==> !r,
        !(forall|id: int| 0 <= id < kinds@.len() ==> (#[trigger] kinds@[id] is Push ==> kind_ok(kinds@[id]))) ==> !r,
{
    if !crate::stack_effect::can_build(node) {
        return false;
    }
    let mut i: usize = 0;
    while i < kinds.len()
        invariant
            i <= kinds@.len(),
            forall|id: int| 0 <= id < i ==> #[trigger] kind_ok(kinds@[id]),
        decreases kinds@.len() - i,
    {
        let ok = match &kinds[i] {
            CallKind::Push(v) => value_ok(v),
            CallKind::Rows(f) | CallKind::Table(f) => crate::stack_effect::builds(f),
            _ => true,
        };
        if !ok {
            return false;
        }
        i += 1;
    }
    let mut j: usize = 0;
    while j < args.len()
        invariant
            j <= args@.len(),
            forall|q: int| 0 <= q < j ==> info_wf((#[trigger] args@[q])@),
        decreases args@.len() - j,
    {
        let ok = match &args[j].value {
            Some(v) => value_ok(v),
            None => true,
        };
        if !ok {
            return false;
        }
        j += 1;
    }
    true
}

} // verus!
