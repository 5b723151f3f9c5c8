use vstd::prelude::*;

verus! {

/// The largest magnitude, sign and integrality that the values of an array may have.
#[derive(Clone, Copy, Debug, PartialEq, Eq, Structural)]
pub struct RangeInfo {
    pub extent: u64,
    pub signed: bool,
    pub float: bool,
}

/// `a + b`, clamped to `u64::MAX`.
pub open spec fn sat_add_u64(a: u64, b: u64) -> u64 {
    if a + b > u64::MAX { u64::MAX } else { (a + b) as u64 }
}

/// `a * b`, clamped to `u64::MAX`.
pub open spec fn sat_mul_u64(a: u64, b: u64) -> u64 {
    if a * b > u64::MAX { u64::MAX } else { (a * b) as u64 }
}

pub open spec fn max_u64(a: u64, b: u64) -> u64 {
    if a >= b { a } else { b }
}

/// The largest of the numbers, or 0 for none.
pub open spec fn seq_max(s: Seq<u64>) -> u64
    decreases s.len(),
{
    if s.len() == 0 { 0 } else { max_u64(seq_max(s.drop_last()), s.last()) }
}

/// What the analysis needs to know of one element of a numeric array.
#[derive(Clone, Copy, Debug, PartialEq, Eq, Structural)]
pub struct NumSummary {
    /// The element has no fractional part.
    pub is_int: bool,
    /// The element is below zero.
    pub negative: bool,
    /// The element's absolute value rounded up, as an unsigned integer.
    pub magnitude: u64,
}

pub open spec fn summary_magnitudes(s: Seq<NumSummary>) -> Seq<u64> {
    s.map_values(|e: NumSummary| e.magnitude)
}

pub open spec fn bytes_as_u64(s: Seq<u8>) -> Seq<u64> {
    s.map_values(|b: u8| b as u64)
}

pub open spec fn chars_as_u64(s: Seq<char>) -> Seq<u64> {
    s.map_values(|c: char| (c as u32) as u64)
}

/// A saturating exponent of two: `2^53`, the largest integer up to which every integer
/// is exactly representable as a double.
pub open spec fn two_pow_53() -> u64 {
    0x20_0000_0000_0000u64
}

impl RangeInfo {
    pub open spec fn spec_new(extent: u64, signed: bool, float: bool) -> RangeInfo {
        RangeInfo { extent, signed, float }
    }

    /// Result of `try_index`: one less than a positive extent, or the index range otherwise.
    pub open spec fn spec_try_index(extent: Option<i128>) -> RangeInfo {
        match extent {
            Some(x) if 0 < x <= u64::MAX => RangeInfo::spec_new((x - 1) as u64, false, false),
            _ => RangeInfo::spec_new(usize::MAX as u64, false, false),
        }
    }

    pub open spec fn spec_max(self, rhs: RangeInfo) -> RangeInfo {
        RangeInfo {
            extent: max_u64(self.extent, rhs.extent),
            signed: self.signed || rhs.signed,
            float: self.float || rhs.float,
        }
    }

    pub open spec fn spec_add(self, rhs: RangeInfo) -> RangeInfo {
        RangeInfo {
            extent: sat_add_u64(self.extent, rhs.extent),
            signed: self.signed || rhs.signed,
            float: self.float || rhs.float,
        }
    }

    pub open spec fn spec_sub(self, rhs: RangeInfo) -> RangeInfo {
        RangeInfo {
            extent: sat_add_u64(self.extent, rhs.extent),
            signed: true,
            float: self.float || rhs.float,
        }
    }

    pub open spec fn spec_mul(self, rhs: RangeInfo) -> RangeInfo {
        RangeInfo {
            extent: max_u64(max_u64(self.extent, rhs.extent), sat_mul_u64(self.extent, rhs.extent)),
            signed: self.signed || rhs.signed,
            float: self.float || rhs.float,
        }
    }

    pub open spec fn spec_div(self, rhs: RangeInfo) -> RangeInfo {
        RangeInfo { extent: two_pow_53(), signed: self.signed || rhs.signed, float: true }
    }

    pub fn new(extent: u64, signed: bool, float: bool) -> (r: Self)
        ensures
            r == Self::spec_new(extent, signed, float),
    {
        Self { extent, signed, float }
    }

    /// An unsigned integer range up to `extent`.
    pub fn uint(extent: u64) -> (r: Self)
        ensures
            r == Self::spec_new(extent, false, false),
    {
        Self::new(extent, false, false)
    }

    /// The range of a boolean: 0 or 1.
    pub fn bool() -> (r: Self)
        ensures
            r == Self::spec_new(1, false, false),
    {
        Self::uint(1)
    }

    /// The range of an index into memory.
    pub fn index() -> (r: Self)
        ensures
            r == Self::spec_new(usize::MAX as u64, false, false),
    {
        Self::uint(usize::MAX as u64)
    }

    /// The range of an index below `extent`, if that bound is known and representable;
    /// the range of any index otherwise. A known bound of zero is refused, as there is
    /// no index below it.
    pub fn try_index(extent: Option<i128>) -> (r: Self)
        requires
            extent != Some(0i128),
        ensures
            r == Self::spec_try_index(extent),
    {
        let bound: Option<u64> = match extent {
            Some(x) => if 0 <= x && x <= u64::MAX as i128 { Some(x as u64) } else { None },
            None => None,
        };
        match bound {
            Some(x) => Self::uint(x - 1),
            None => Self::uint(usize::MAX as u64),
        }
    }

    /// The range of any natural number.
    pub fn natural() -> (r: Self)
        ensures
            r == Self::spec_new(u64::MAX, false, false),
    {
        Self::uint(u64::MAX)
    }

    /// The range containing only zero.
    pub fn zero() -> (r: Self)
        ensures
            r == Self::spec_new(0, false, false),
    {
        Self::uint(0)
    }

    /// Widen the extent to cover `num`.
    pub fn expand(&mut self, num: u64)
        ensures
            final(self).extent == max_u64(old(self).extent, num),
            final(self).signed == old(self).signed,
            final(self).float == old(self).float,
    {
        if num > self.extent {
            self.extent = num;
        }
    }

    pub fn signed(self, signed: bool) -> (r: Self)
        ensures
            r == (RangeInfo { signed, ..self }),
    {
        let mut s = self;
        s.signed = signed;
        s
    }

    pub fn float(self, float: bool) -> (r: Self)
        ensures
            r == (RangeInfo { float, ..self }),
    {
        let mut s = self;
        s.float = float;
        s
    }

    /// The smallest range covering both.
    pub fn max(self, rhs: Self) -> (r: Self)
        ensures
            r == self.spec_max(rhs),
    {
        let mut s = self;
        s.expand(rhs.extent);
        s.signed = s.signed || rhs.signed;
        s.float = s.float || rhs.float;
        s
    }

    /// The range of the elements of a byte array.
    pub fn from_bytes(elems: &[u8]) -> (r: Self)
        ensures
            r == Self::spec_new(seq_max(bytes_as_u64(elems@)), false, false),
    {
        let mut range = Self::new(0, false, false);
        let mut i: usize = 0;
        while i < elems.len()
            invariant
                i <= elems.len(),
                range == Self::spec_new(seq_max(bytes_as_u64(elems@.take(i as int))), false, false),
            decreases elems.len() - i,
        {
            proof {
                assert(bytes_as_u64(elems@.take(i + 1)).drop_last() =~= bytes_as_u64(elems@.take(i as int)));
            }
            range.expand(elems[i] as u64);
            i += 1;
        }
        proof {
            assert(elems@.take(elems.len() as int) =~= elems@);
        }
        range
    }

    /// The range of the elements of a character array, by code point.
    pub fn from_chars(elems: &[char]) -> (r: Self)
        ensures
            r == Self::spec_new(seq_max(chars_as_u64(elems@)), false, false),
    {
        let mut range = Self::new(0, false, false);
        let mut i: usize = 0;
        while i < elems.len()
            invariant
                i <= elems.len(),
                range == Self::spec_new(seq_max(chars_as_u64(elems@.take(i as int))), false, false),
            decreases elems.len() - i,
        {
            proof {
                assert(chars_as_u64(elems@.take(i + 1)).drop_last() =~= chars_as_u64(elems@.take(i as int)));
            }
            let code: u32 = elems[i] as u32;
            range.expand(code as u64);
            i += 1;
        }
        proof {
            assert(elems@.take(elems.len() as int) =~= elems@);
        }
        range
    }

    /// The range of the elements of a numeric array, given a summary of each element.
    pub fn from_nums(elems: &[NumSummary]) -> (r: Self)
        ensures
            r.extent == seq_max(summary_magnitudes(elems@)),
            r.signed == (exists|i: int| 0 <= i < elems@.len() && #[trigger] elems@[i].negative),
            r.float == (exists|i: int| 0 <= i < elems@.len() && !(#[trigger] elems@[i]).is_int),
    {
        let mut range = Self::new(0, false, false);
        let mut i: usize = 0;
        while i < elems.len()
            invariant
                i <= elems.len(),
                range.extent == seq_max(summary_magnitudes(elems@.take(i as int))),
                range.signed == (exists|j: int| 0 <= j < i && #[trigger] elems@[j].negative),
                range.float == (exists|j: int| 0 <= j < i && !(#[trigger] elems@[j]).is_int),
            decreases elems.len() - i,
        {
            proof {
                assert(summary_magnitudes(elems@.take(i + 1)).drop_last() =~= summary_magnitudes(elems@.take(i as int)));
            }
            let e = elems[i];
            range.float = range.float || !e.is_int;
            range.signed = range.signed || e.negative;
            range.expand(e.magnitude);
            i += 1;
        }
        proof {
            assert(elems@.take(elems.len() as int) =~= elems@);
        }
        range
    }
}

impl std::ops::Add for RangeInfo {
    type Output = RangeInfo;

    /// The range of a sum of an element of each.
    fn add(self, rhs: RangeInfo) -> (r: RangeInfo) {
        let mut range = self.max(rhs);
        range.expand(self.extent.saturating_add(rhs.extent));
        range
    }
}

impl vstd::std_specs::ops::AddSpecImpl for RangeInfo {
    open spec fn obeys_add_spec() -> bool {
        true
    }

    open spec fn add_req(self, rhs: RangeInfo) -> bool {
        true
    }

    open spec fn add_spec(self, rhs: RangeInfo) -> RangeInfo {
        self.spec_add(rhs)
    }
}

impl std::ops::Sub for RangeInfo {
    type Output = RangeInfo;

    /// The range of a difference of an element of each: always possibly negative.
    fn sub(self, rhs: RangeInfo) -> (r: RangeInfo) {
        let mut range = self.max(rhs);
        range.expand(self.extent.saturating_add(rhs.extent));
        range.signed(true)
    }
}

impl vstd::std_specs::ops::SubSpecImpl for RangeInfo {
    open spec fn obeys_sub_spec() -> bool {
        true
    }

    open spec fn sub_req(self, rhs: RangeInfo) -> bool {
        true
    }

    open spec fn sub_spec(self, rhs: RangeInfo) -> RangeInfo {
        self.spec_sub(rhs)
    }
}

impl std::ops::Mul for RangeInfo {
    type Output = RangeInfo;

    /// The range of a product of an element of each.
    fn mul(self, rhs: RangeInfo) -> (r: RangeInfo) {
        let mut range = self.max(rhs);
        let product = match self.extent.checked_mul(rhs.extent) {
            Some(p) => p,
            None => u64::MAX,
        };
        range.expand(product);
        range
    }
}

impl vstd::std_specs::ops::MulSpecImpl for RangeInfo {
    open spec fn obeys_mul_spec() -> bool {
        true
    }

    open spec fn mul_req(self, rhs: RangeInfo) -> bool {
        true
    }

    open spec fn mul_spec(self, rhs: RangeInfo) -> RangeInfo {
        self.spec_mul(rhs)
    }
}

impl std::ops::Div for RangeInfo {
    type Output = RangeInfo;

    /// The range of a quotient: a float of any magnitude a double holds exactly,
    /// signed if the divisor may be.
    fn div(self, rhs: RangeInfo) -> (r: RangeInfo) {
        let mut s = self;
        s.extent = 0x20_0000_0000_0000u64;
        s.signed = s.signed || rhs.signed;
        s.float = true;
        s
    }
}

impl vstd::std_specs::ops::DivSpecImpl for RangeInfo {
    open spec fn obeys_div_spec() -> bool {
        true
    }

    open spec fn div_req(self, rhs: RangeInfo) -> bool {
        true
    }

    open spec fn div_spec(self, rhs: RangeInfo) -> RangeInfo {
        self.spec_div(rhs)
    }
}

/// Combining ranges widens them: the range of a sum, a difference or a product
/// covers the ranges of both operands, and any sign or fraction either may have.
pub proof fn lemma_arith_covers_operands(a: RangeInfo, b: RangeInfo)
    ensures
        a.spec_add(b).extent >= a.extent && a.spec_add(b).extent >= b.extent,
        a.spec_sub(b).extent >= a.extent && a.spec_sub(b).extent >= b.extent,
        a.spec_mul(b).extent >= a.extent && a.spec_mul(b).extent >= b.extent,
        (a.signed || b.signed) ==> a.spec_add(b).signed && a.spec_mul(b).signed,
        a.spec_sub(b).signed,
        (a.float || b.float) ==> a.spec_add(b).float && a.spec_sub(b).float && a.spec_mul(b).float,
        a.spec_div(b).float,
{
}

/// Taking the smaller-or-larger of ranges is commutative and idempotent.
pub proof fn lemma_max_commutative_idempotent(a: RangeInfo, b: RangeInfo)
    ensures
        a.spec_max(b) == b.spec_max(a),
        a.spec_max(a) == a,
        a.spec_add(b) == b.spec_add(a),
        a.spec_mul(b) == b.spec_mul(a),
{
}

} // verus!
