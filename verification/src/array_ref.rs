//! A strided view of an array's elements, and mixed-radix conversion of flat indices.

use vstd::prelude::*;

verus! {

/// An array of some rank: its shape, the stride of each axis in `data`, and its data.
pub struct ArrayRef<'a, T> {
    pub rank: usize,
    pub shape: &'a [usize],
    pub strides: &'a [usize],
    pub data: &'a [T],
}

/// The product of the numbers (1 for none).
pub open spec fn seq_product(s: Seq<usize>) -> int
    decreases s.len(),
{
    if s.len() == 0 { 1 } else { seq_product(s.drop_last()) * s.last() }
}

/// The digits of `index` in the mixed radix `bases`, most significant first; the
/// first digit is taken modulo its base like the others.
pub open spec fn spec_base_conv(index: nat, bases: Seq<usize>) -> Seq<usize>
    decreases bases.len(),
{
    if bases.len() == 0 {
        Seq::empty()
    } else {
        spec_base_conv(index / (bases.last() as nat), bases.drop_last()).push((index % (bases.last() as nat)) as usize)
    }
}

/// The number that the digits stand for in the mixed radix `bases`.
pub open spec fn digits_value(digits: Seq<usize>, bases: Seq<usize>) -> int
    decreases digits.len(),
{
    if digits.len() == 0 || bases.len() == 0 {
        0
    } else {
        digits_value(digits.drop_last(), bases.drop_last()) * bases.last() + digits.last()
    }
}

/// The offset in the data of the element at `index`: each index times the stride of its
/// axis, over the axes that both have.
pub open spec fn flat_offset(index: Seq<usize>, strides: Seq<usize>) -> int
    decreases index.len(),
{
    if index.len() == 0 || strides.len() == 0 {
        0
    } else if index.len() <= strides.len() {
        flat_offset(index.drop_last(), strides.subrange(0, index.len() - 1)) + index.last() * strides[index.len() - 1]
    } else {
        flat_offset(index.subrange(0, strides.len() as int), strides)
    }
}

pub open spec fn all_positive(s: Seq<usize>) -> bool {
    forall|i: int| 0 <= i < s.len() ==> #[trigger] s[i] > 0
}

/// Every partial product of the numbers fits in a `usize`.
pub open spec fn products_fit(s: Seq<usize>) -> bool {
    forall|k: int| 0 <= k <= s.len() ==> #[trigger] seq_product(s.take(k)) <= usize::MAX
}

/// Every partial sum of the offset fits in a `usize`.
pub open spec fn offsets_fit(index: Seq<usize>, strides: Seq<usize>) -> bool {
    forall|k: int| 0 <= k <= index.len() ==> #[trigger] flat_offset(index.take(k), strides) <= usize::MAX
}

proof fn lemma_product_positive(s: Seq<usize>)
    requires
        all_positive(s),
    ensures
        seq_product(s) >= 1,
    decreases s.len(),
{
    if s.len() > 0 {
        assert(all_positive(s.drop_last()));
        lemma_product_positive(s.drop_last());
        assert(s.last() > 0);
        assert(seq_product(s.drop_last()) * s.last() >= 1) by (nonlinear_arith)
            requires seq_product(s.drop_last()) >= 1, s.last() >= 1;
    }
}

proof fn lemma_offset_nonneg(index: Seq<usize>, strides: Seq<usize>)
    ensures
        flat_offset(index, strides) >= 0,
    decreases index.len(),
{
    if index.len() == 0 || strides.len() == 0 {
    } else if index.len() <= strides.len() {
        lemma_offset_nonneg(index.drop_last(), strides.subrange(0, index.len() - 1));
        assert(index.last() * strides[index.len() - 1] >= 0) by (nonlinear_arith);
    } else {
        lemma_offset_nonneg(index.subrange(0, strides.len() as int), strides);
    }
}

/// Converting a flat index to digits and reading them back gives the index modulo the
/// number of elements: for an index within the array, the index itself.
pub proof fn lemma_base_conv_value(index: nat, bases: Seq<usize>)
    requires
        all_positive(bases),
    ensures
        spec_base_conv(index, bases).len() == bases.len(),
        digits_value(spec_base_conv(index, bases), bases) == (index as int) % seq_product(bases),
        index < seq_product(bases) ==> digits_value(spec_base_conv(index, bases), bases) == index,
    decreases bases.len(),
{
    if bases.len() == 0 {
        assert(seq_product(bases) == 1);
    } else {
        let l = bases.last() as nat;
        let rest = bases.drop_last();
        assert(all_positive(rest));
        assert(l > 0);
        lemma_base_conv_value(index / l, rest);
        lemma_product_positive(rest);
        let d = spec_base_conv(index, bases);
        assert(d.drop_last() == spec_base_conv(index / l, rest));
        assert(d.last() == index % l);
        let p = seq_product(rest);
        let ii = index as int;
        let li = l as int;
        vstd::arithmetic::div_mod::lemma_breakdown(ii, li, p);
        assert(digits_value(d, bases) == ((ii / li) % p) * li + ii % li);
        assert(((ii / li) % p) * li == li * ((ii / li) % p)) by (nonlinear_arith);
        assert(seq_product(bases) == p * l);
        assert(p * li == li * p) by (nonlinear_arith);
        if index < seq_product(bases) {
            vstd::arithmetic::div_mod::lemma_small_mod(index, seq_product(bases) as nat);
        }
    }
}

/// Every digit is below its base.
pub proof fn lemma_base_conv_digits(index: nat, bases: Seq<usize>)
    requires
        all_positive(bases),
    ensures
        spec_base_conv(index, bases).len() == bases.len(),
        forall|i: int| 0 <= i < bases.len() ==> #[trigger] spec_base_conv(index, bases)[i] < bases[i],
    decreases bases.len(),
{
    if bases.len() > 0 {
        let l = bases.last() as nat;
        assert(all_positive(bases.drop_last()));
        assert(l > 0);
        lemma_base_conv_digits(index / l, bases.drop_last());
        let d = spec_base_conv(index, bases);
        assert forall|i: int| 0 <= i < bases.len() implies #[trigger] d[i] < bases[i] by {
            if i < bases.len() - 1 {
                assert(d[i] == spec_base_conv(index / l, bases.drop_last())[i]);
            }
        }
    }
}

/// The digits of `index` in the mixed radix `bases`, most significant first.
pub fn base_conv(index: usize, bases: &[usize]) -> (r: Vec<usize>)
    requires
        all_positive(bases@),
    ensures
        r@ == spec_base_conv(index as nat, bases@),
{
    let mut digits: Vec<usize> = Vec::new();
    let mut rem: usize = index;
    let mut k: usize = bases.len();
    proof {
        assert(bases@.take(bases@.len() as int) =~= bases@);
        let e = spec_base_conv(index as nat, bases@);
        assert(e + digits@.reverse() =~= e);
    }
    while k > 0
        invariant
            k <= bases@.len(),
            all_positive(bases@),
            spec_base_conv(index as nat, bases@) == spec_base_conv(rem as nat, bases@.take(k as int))
                + digits@.reverse(),
        decreases k,
    {
        let base = bases[k - 1];
        proof {
            assert(bases@[k - 1] > 0);
            let t = bases@.take(k as int);
            assert(t.drop_last() =~= bases@.take(k - 1));
            assert(t.last() == base);
            assert(spec_base_conv(rem as nat, t) == spec_base_conv((rem / base) as nat, bases@.take(k - 1)).push(rem % base));
            assert(digits@.push(rem % base).reverse() =~= seq![rem % base] + digits@.reverse());
        }
        digits.push(rem % base);
        rem = rem / base;
        k -= 1;
    }
    proof {
        assert(bases@.take(0) =~= Seq::<usize>::empty());
        assert(spec_base_conv(index as nat, bases@) =~= digits@.reverse());
    }
    let mut out: Vec<usize> = Vec::new();
    let mut j: usize = digits.len();
    while j > 0
        invariant
            j <= digits@.len(),
            out@ =~= digits@.reverse().take(digits@.len() - j),
        decreases j,
    {
        out.push(digits[j - 1]);
        j -= 1;
        proof {
            assert(out@ =~= digits@.reverse().take(digits@.len() - j));
        }
    }
    proof {
        assert(digits@.reverse().take(digits@.len() as int) =~= digits@.reverse());
    }
    out
}

impl<'a, T> ArrayRef<'a, T> {
    /// The number of elements: the product of the axis lengths.
    pub fn elem_count(&self) -> (r: usize)
        requires
            products_fit(self.shape@),
        ensures
            r == seq_product(self.shape@),
    {
        let mut p: usize = 1;
        let mut i: usize = 0;
        while i < self.shape.len()
            invariant
                i <= self.shape@.len(),
                products_fit(self.shape@),
                p == seq_product(self.shape@.take(i as int)),
            decreases self.shape@.len() - i,
        {
            proof {
                assert(self.shape@.take(i + 1).drop_last() =~= self.shape@.take(i as int));
                assert(seq_product(self.shape@.take(i + 1)) <= usize::MAX);
            }
            p = p * self.shape[i];
            i += 1;
        }
        proof {
            assert(self.shape@.take(self.shape@.len() as int) =~= self.shape@);
        }
        p
    }

    /// The element at the multi-dimensional `index`.
    pub fn at(&self, index: &[usize]) -> (r: &T)
        requires
            offsets_fit(index@, self.strides@),
            flat_offset(index@, self.strides@) < self.data@.len(),
        ensures
            *r == self.data@[flat_offset(index@, self.strides@)],
    {
        let n = if index.len() <= self.strides.len() { index.len() } else { self.strides.len() };
        let mut flat: usize = 0;
        let mut i: usize = 0;
        proof {
            lemma_offset_trunc(index@, self.strides@);
        }
        while i < n
            invariant
                n <= index@.len(),
                n <= self.strides@.len(),
                n == index@.len() || n == self.strides@.len(),
                i <= n,
                offsets_fit(index@, self.strides@),
                flat == flat_offset(index@.take(i as int), self.strides@),
                flat_offset(index@, self.strides@) == flat_offset(index@.take(n as int), self.strides@),
            decreases n - i,
        {
            proof {
                let t = index@.take(i + 1);
                assert(t.drop_last() =~= index@.take(i as int));
                assert(t.len() <= self.strides@.len());
                lemma_offset_prefix_strides(t.drop_last(), self.strides@, i as int);
                assert(flat_offset(t, self.strides@) == flat_offset(t.drop_last(), self.strides@.subrange(0, i as int))
                    + t.last() * self.strides@[i as int]);
                assert(flat_offset(index@.take(i + 1), self.strides@) <= usize::MAX);
                lemma_offset_nonneg(index@.take(i as int), self.strides@);
                assert(index@[i as int] * self.strides@[i as int] >= 0) by (nonlinear_arith);
            }
            flat = flat + index[i] * self.strides[i];
            i += 1;
        }
        proof {
            assert(index@.take(n as int) =~= index@.take(i as int));
        }
        &self.data[flat]
    }

    /// The element at the flat (row-major) position `index`.
    pub fn index(&self, index: usize) -> (r: &T)
        requires
            all_positive(self.shape@),
            offsets_fit(spec_base_conv(index as nat, self.shape@), self.strides@),
            flat_offset(spec_base_conv(index as nat, self.shape@), self.strides@) < self.data@.len(),
        ensures
            *r == self.data@[flat_offset(spec_base_conv(index as nat, self.shape@), self.strides@)],
    {
        let digits = base_conv(index, self.shape);
        self.at(digits.as_slice())
    }
}

/// An offset does not depend on the strides past the last index.
proof fn lemma_offset_prefix_strides(index: Seq<usize>, strides: Seq<usize>, n: int)
    requires
        index.len() <= n <= strides.len(),
    ensures
        flat_offset(index, strides.subrange(0, n)) == flat_offset(index, strides),
    decreases index.len(),
{
    if index.len() > 0 {
        let m = index.len() - 1;
        assert(strides.subrange(0, n).subrange(0, m) =~= strides.subrange(0, m));
        lemma_offset_prefix_strides(index.drop_last(), strides.subrange(0, m), m);
        assert(strides.subrange(0, m).subrange(0, m) =~= strides.subrange(0, m));
    }
}

/// An index with more entries than there are strides has the offset of its first
/// entries, one per stride.
proof fn lemma_offset_trunc(index: Seq<usize>, strides: Seq<usize>)
    ensures
        index.len() > strides.len() ==> flat_offset(index, strides) == flat_offset(index.take(strides.len() as int), strides),
        index.len() <= strides.len() ==> index.take(index.len() as int) =~= index,
{
}

/// The product of the numbers at positions `lo` up to (not including) `hi`.
pub open spec fn range_product(s: Seq<usize>, lo: int, hi: int) -> int {
    seq_product(s.subrange(lo, hi))
}

/// Every product of the trailing lengths but the last fits in a `usize`.
pub open spec fn breaks_fit(shape: Seq<usize>) -> bool {
    forall|k: int| 0 <= k < shape.len() ==> #[trigger] range_product(shape, shape.len() - 1 - k, shape.len() - 1) <= usize::MAX
}

/// The numbers of elements after which a row ends at each depth when an array of this
/// shape is printed flat: 1 (each element), then the product of the last axis but one,
/// of the last two but one, and so on; one entry per axis (one for a scalar).
pub fn row_breaks(shape: &[usize]) -> (r: Vec<usize>)
    requires
        breaks_fit(shape@),
    ensures
        shape@.len() == 0 ==> r@ == seq![1usize],
        shape@.len() > 0 ==> r@.len() == shape@.len() && forall|k: int| 0 <= k < r@.len()
            ==> #[trigger] r@[k] == range_product(shape@, shape@.len() - 1 - k, shape@.len() - 1),
{
    let mut out: Vec<usize> = Vec::new();
    out.push(1);
    let n = shape.len();
    if n == 0 {
        proof {
            assert(out@ =~= seq![1usize]);
        }
        return out;
    }
    proof {
        assert(shape@.subrange(n - 1, n - 1) =~= Seq::<usize>::empty());
    }
    let mut acc: usize = 1;
    let mut k: usize = 1;
    while k < n
        invariant
            1 <= k <= n,
            n == shape@.len(),
            breaks_fit(shape@),
            out@.len() == k,
            acc == out@[k - 1],
            forall|j: int| 0 <= j < k ==> #[trigger] out@[j] == range_product(shape@, n - 1 - j, n - 1),
        decreases n - k,
    {
        let x = shape[n - 1 - k];
        proof {
            let lo = n - 1 - k;
            let sub = shape@.subrange(lo, n - 1);
            assert(sub.drop_last() =~= shape@.subrange(lo, n - 2));
            assert(range_product(shape@, lo, n - 1) <= usize::MAX);
            // The product over `lo..n-1` is that over `lo+1..n-1` times the number at `lo`.
            lemma_product_front(sub);
            assert(sub.subrange(1, sub.len() as int) =~= shape@.subrange(lo + 1, n - 1));
            assert(seq_product(sub) == sub[0] * seq_product(shape@.subrange(lo + 1, n - 1)));
            assert(acc * x == x * acc) by (nonlinear_arith);
        }
        acc = acc * x;
        out.push(acc);
        k += 1;
    }
    out
}

/// A product is its first factor times the product of the rest.
pub(crate) proof fn lemma_product_front(s: Seq<usize>)
    requires
        s.len() > 0,
    ensures
        seq_product(s) == s[0] * seq_product(s.subrange(1, s.len() as int)),
    decreases s.len(),
{
    if s.len() == 1 {
        assert(s.drop_last() =~= Seq::<usize>::empty());
        assert(s.subrange(1, 1) =~= Seq::<usize>::empty());
        assert(seq_product(Seq::<usize>::empty()) == 1);
        assert(s.last() == s[0]);
        assert(seq_product(s) == seq_product(s.drop_last()) * s.last());
        assert(seq_product(s) == 1 * s[0]);
        assert(1 * s[0] == s[0] * 1) by (nonlinear_arith);
    } else {
        let d = s.drop_last();
        lemma_product_front(d);
        assert(d.subrange(1, d.len() as int) =~= s.subrange(1, s.len() as int).drop_last());
        assert(s.subrange(1, s.len() as int).last() == s.last());
        let p = seq_product(d.subrange(1, d.len() as int));
        assert(seq_product(s) == (s[0] * p) * s.last());
        assert((s[0] * p) * s.last() == s[0] * (p * s.last())) by (nonlinear_arith);
    }
}

/// Contiguous row-major strides of a shape: the stride of each axis is the product of
/// the lengths after it.
pub open spec fn row_major(shape: Seq<usize>, strides: Seq<usize>) -> bool {
    &&& strides.len() == shape.len()
    &&& forall|k: int| 0 <= k < shape.len() ==> #[trigger] strides[k] == range_product(shape, k + 1, shape.len() as int)
}

proof fn lemma_offset_scaled(d: Seq<usize>, shape: Seq<usize>, strides: Seq<usize>, c: int)
    requires
        d.len() == shape.len(),
        strides.len() == shape.len(),
        forall|k: int| 0 <= k < shape.len() ==> #[trigger] strides[k] == c * range_product(shape, k + 1, shape.len() as int),
    ensures
        flat_offset(d, strides) == c * digits_value(d, shape),
    decreases d.len(),
{
    let n = d.len() as int;
    if n == 0 {
        assert(c * 0 == 0) by (nonlinear_arith);
    } else {
        let l = shape.last() as int;
        let sh = shape.drop_last();
        let st = strides.subrange(0, n - 1);
        assert forall|k: int| 0 <= k < sh.len() implies #[trigger] st[k] == (c * l) * range_product(sh, k + 1, sh.len() as int) by {
            let full = shape.subrange(k + 1, n);
            assert(full.drop_last() =~= sh.subrange(k + 1, n - 1));
            assert(full.last() == shape.last());
            let p = range_product(sh, k + 1, n - 1);
            assert(range_product(shape, k + 1, n) == p * l);
            assert(st[k] == strides[k]);
            assert(c * (p * l) == (c * l) * p) by (nonlinear_arith);
        }
        lemma_offset_scaled(d.drop_last(), sh, st, c * l);
        assert(shape.subrange(n, n) =~= Seq::<usize>::empty());
        assert(strides[n - 1] == c * 1);
        let dv = digits_value(d.drop_last(), sh);
        assert(digits_value(d, shape) == dv * l + d.last());
        assert(flat_offset(d, strides) == (c * l) * dv + d.last() * c);
        assert((c * l) * dv + d.last() * c == c * (dv * l + d.last())) by (nonlinear_arith);
    }
}

/// With contiguous row-major strides, the element at flat position `i` is the `i`-th
/// of the data: `index` converts `i` to digits and `at` folds them back to `i`.
pub proof fn lemma_row_major_index(i: nat, shape: Seq<usize>, strides: Seq<usize>)
    requires
        all_positive(shape),
        row_major(shape, strides),
        i < seq_product(shape),
    ensures
        flat_offset(spec_base_conv(i, shape), strides) == i,
{
    lemma_base_conv_value(i, shape);
    let d = spec_base_conv(i, shape);
    assert forall|k: int| 0 <= k < shape.len() implies #[trigger] strides[k] == 1 * range_product(shape, k + 1, shape.len() as int) by {
    }
    lemma_offset_scaled(d, shape, strides, 1);
}

} // verus!
