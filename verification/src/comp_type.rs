//! Machine types for compiled values, and the casts between them.

use vstd::prelude::*;
use vstd::arithmetic::power2::pow2;
use crate::range::RangeInfo;
use crate::info::{ShapeInfo, ValInfo};

verus! {

/// The machine type of the elements of a compiled array.
#[derive(Clone, Copy, Debug, PartialEq, Eq, Structural)]
pub enum CompType {
    /// Signed?, and 0-3 for 8, 16, 32 or 64 bits.
    Int(bool, u8),
    /// Double precision?
    Float(bool),
    Bool,
    Char,
}

/// Custom operations of a compiled program.
#[derive(Clone, Copy, Debug, PartialEq, Eq, Structural)]
pub enum Impl {
    Noop,
    Cast(Cast),
    /// Shows the values left on the stack at the end of a program.
    EndShow,
    Sum,
    Product,
}

/// Conversions between machine types.
#[derive(Clone, Copy, Debug, PartialEq, Eq, Structural)]
pub enum Cast {
    UUp,
    SUp,
    UDown,
    SDown,
    UtoF,
    StoF,
}

/// The kinds of array values, which decide the type id of a value.
#[derive(Clone, Copy, Debug, PartialEq, Eq, Structural)]
pub enum ValueKind {
    Byte,
    Num,
    Char,
    Box,
    Complex,
}

/// `floor(log2(n))` for `n >= 1`, and 0 below.
pub open spec fn log2_floor(n: nat) -> nat
    decreases n,
{
    if n <= 1 { 0 } else { 1 + log2_floor(n / 2) }
}

/// The index (0-3 for 8, 16, 32, 64 bits) of the integer type chosen for values up to
/// `extent`: from the number of bits that the extent needs, plus one for a sign.
pub open spec fn spec_int_type_idx(extent: u64, signed: bool) -> u8 {
    let bits = log2_floor(if extent >= 2 { extent as nat } else { 2 }) + (if signed { 1nat } else { 0nat });
    let l = log2_floor(bits);
    let d = if l >= 2 { (l - 2) as nat } else { 0nat };
    (if d <= 3 { d } else { 3 }) as u8
}

impl CompType {
    /// Integer types have a size index below 4.
    pub open spec fn wf(self) -> bool {
        match self {
            CompType::Int(_, i) => i < 4,
            _ => true,
        }
    }

    pub open spec fn spec_bit_width(self) -> u8 {
        match self {
            CompType::Int(_, i) => if i == 0 { 8u8 } else if i == 1 { 16u8 } else if i == 2 { 32u8 } else { 64u8 },
            CompType::Float(d) => if d { 64u8 } else { 32u8 },
            CompType::Bool => 1u8,
            CompType::Char => 32u8,
        }
    }

    /// The smallest type that both types convert to, if any.
    pub open spec fn spec_supertype(self, rhs: CompType) -> Option<CompType> {
        match (self, rhs) {
            (CompType::Int(s1, i1), CompType::Int(s2, i2)) => Some(CompType::Int(s1 || s2, if i1 >= i2 { i1 } else { i2 })),
            (CompType::Int(_, _), CompType::Float(d)) => Some(CompType::Float(d)),
            (CompType::Float(d), CompType::Int(_, _)) => Some(CompType::Float(d)),
            (CompType::Int(s, i), CompType::Bool) => Some(CompType::Int(s, i)),
            (CompType::Bool, CompType::Int(s, i)) => Some(CompType::Int(s, i)),
            (CompType::Float(d1), CompType::Float(d2)) => Some(CompType::Float(d1 || d2)),
            (CompType::Float(d), CompType::Bool) => Some(CompType::Float(d)),
            (CompType::Bool, CompType::Float(d)) => Some(CompType::Float(d)),
            (CompType::Bool, CompType::Bool) => Some(CompType::Bool),
            (CompType::Char, CompType::Char) => Some(CompType::Char),
            _ => None,
        }
    }

    /// The type chosen for values of type id `typ` in the range `range`: characters
    /// for type 1; for numbers, doubles if any may be fractional, booleans if the range
    /// is that of booleans or only zero, and otherwise the smallest integer type for it.
    pub open spec fn spec_from_info(typ: u8, range: RangeInfo) -> CompType {
        if typ == 1 {
            CompType::Char
        } else if range.float {
            CompType::Float(true)
        } else if range == RangeInfo::spec_new(1, false, false) || range.extent == 0 {
            CompType::Bool
        } else {
            CompType::Int(range.signed, spec_int_type_idx(range.extent, range.signed))
        }
    }

    /// The type id and range of the values that a scalar of this type can hold.
    pub open spec fn spec_scalar_info(self) -> (u8, RangeInfo) {
        match self {
            CompType::Int(s, i) => (0u8, RangeInfo::spec_new(
                if s { (pow2((8 * pow2(i as nat) - 1) as nat) - 1) as u64 } else { (pow2(8 * pow2(i as nat)) - 1) as u64 },
                s,
                false,
            )),
            CompType::Float(_) => (0u8, RangeInfo::spec_new(u64::MAX, true, true)),
            CompType::Bool => (0u8, RangeInfo::spec_new(1, false, false)),
            CompType::Char => (1u8, RangeInfo::spec_new(u32::MAX as u64, false, false)),
        }
    }

    /// The type for values described by `val_info`.
    pub fn from_info<V>(val_info: &ValInfo<V>) -> (r: CompType)
        requires
            val_info.typ == 0 || val_info.typ == 1,
        ensures
            r == Self::spec_from_info(val_info.typ, val_info.range),
            r.wf(),
    {
        if val_info.typ == 1 {
            CompType::Char
        } else if val_info.range.float {
            CompType::Float(true)
        } else if val_info.range == RangeInfo::bool() || val_info.range.extent == 0 {
            CompType::Bool
        } else {
            CompType::Int(
                val_info.range.signed,
                int_type_idx(val_info.range.extent, val_info.range.signed),
            )
        }
    }

    /// Information on a scalar of this type: its type id, its shape, and the range of
    /// values the type holds.
    pub fn to_scalar_info<V>(&self) -> (r: ValInfo<V>)
        requires
            self.wf(),
        ensures
            (r.typ, r.range) == self.spec_scalar_info(),
            r.shape matches ShapeInfo::Ranked(s) && s@.len() == 0,
    {
        proof {
            vstd::arithmetic::power2::lemma2_to64();
        }
        let (typ, range): (u8, RangeInfo) = match self {
            CompType::Int(s, i) => {
                let extent: u64 = if *s {
                    if *i == 0 { 127 } else if *i == 1 { 32767 } else if *i == 2 { 2147483647 } else { 9223372036854775807 }
                } else {
                    if *i == 0 { 255 } else if *i == 1 { 65535 } else if *i == 2 { 4294967295 } else { 18446744073709551615 }
                };
                proof {
                    lemma_pow2_table();
                }
                (0, RangeInfo::new(extent, *s, false))
            },
            CompType::Float(_) => (0, RangeInfo::new(u64::MAX, true, true)),
            CompType::Bool => (0, RangeInfo::new(1, false, false)),
            CompType::Char => (1, RangeInfo::new(4294967295, false, false)),
        };
        ValInfo::new(typ, ShapeInfo::scalar(), range)
    }

    /// The width in bits of one element.
    pub fn bit_width(&self) -> (r: u8)
        requires
            self.wf(),
        ensures
            r == self.spec_bit_width(),
    {
        match self {
            CompType::Int(_, i) => {
                if *i == 0 { 8 } else if *i == 1 { 16 } else if *i == 2 { 32 } else { 64 }
            },
            CompType::Float(d) => if *d { 64 } else { 32 },
            CompType::Bool => 1,
            CompType::Char => 32,
        }
    }

    /// The smallest type that both types convert to, or `None` if there is none.
    pub fn supertype(&self, rhs: &Self) -> (r: Option<CompType>)
        ensures
            r == self.spec_supertype(*rhs),
    {
        match (self, rhs) {
            (CompType::Int(s1, i1), CompType::Int(s2, i2)) => Some(CompType::Int(*s1 || *s2, if *i1 >= *i2 { *i1 } else { *i2 })),
            (CompType::Int(_, _), CompType::Float(d)) => Some(CompType::Float(*d)),
            (CompType::Float(d), CompType::Int(_, _)) => Some(CompType::Float(*d)),
            (CompType::Int(s, i), CompType::Bool) => Some(CompType::Int(*s, *i)),
            (CompType::Bool, CompType::Int(s, i)) => Some(CompType::Int(*s, *i)),
            (CompType::Float(d1), CompType::Float(d2)) => Some(CompType::Float(*d1 || *d2)),
            (CompType::Float(d), CompType::Bool) => Some(CompType::Float(*d)),
            (CompType::Bool, CompType::Float(d)) => Some(CompType::Float(*d)),
            (CompType::Bool, CompType::Bool) => Some(CompType::Bool),
            (CompType::Char, CompType::Char) => Some(CompType::Char),
            _ => None,
        }
    }
}

/// The values of `pow2` that the integer types use.
proof fn lemma_pow2_table()
    ensures
        pow2(0) == 1, pow2(1) == 2, pow2(2) == 4, pow2(3) == 8,
        pow2(7) == 0x80, pow2(8) == 0x100, pow2(15) == 0x8000, pow2(16) == 0x10000,
        pow2(31) == 0x8000_0000, pow2(32) == 0x1_0000_0000,
        pow2(63) == 0x8000_0000_0000_0000, pow2(64) == 0x1_0000_0000_0000_0000,
{
    vstd::arithmetic::power2::lemma2_to64();
    vstd::arithmetic::power2::lemma2_to64_rest();
}

/// `floor(log2(n))` of a positive number.
fn ilog2(n: u64) -> (r: u32)
    requires
        n >= 1,
    ensures
        r == log2_floor(n as nat),
        r <= 63,
{
    let mut x = n;
    let mut r: u32 = 0;
    proof {
        vstd::arithmetic::power2::lemma2_to64();
        assert(n as nat * pow2(0) == n) by (nonlinear_arith)
            requires pow2(0) == 1;
    }
    while x > 1
        invariant
            1 <= x <= n,
            r + log2_floor(x as nat) == log2_floor(n as nat),
            r <= 63,
            x as nat * pow2(r as nat) <= n,
        decreases x,
    {
        proof {
            vstd::arithmetic::power2::lemma_pow2_adds(r as nat, 1);
            vstd::arithmetic::power2::lemma2_to64();
            vstd::arithmetic::power2::lemma2_to64_rest();
            if r >= 63 {
                if r > 63 {
                    vstd::arithmetic::power2::lemma_pow2_strictly_increases(63, r as nat);
                }
                assert(x as nat * pow2(r as nat) >= 2 * pow2(63)) by (nonlinear_arith)
                    requires x >= 2, pow2(r as nat) >= pow2(63);
            }
            assert((x / 2) as nat * pow2((r + 1) as nat) <= x as nat * pow2(r as nat)) by (nonlinear_arith)
                requires pow2((r + 1) as nat) == pow2(r as nat) * 2, pow2(r as nat) >= 0;
        }
        x = x / 2;
        r = r + 1;
    }
    r
}

/// The index (0-3) of the smallest integer type for values up to `extent`.
pub fn int_type_idx(extent: u64, signed: bool) -> (r: u8)
    ensures
        r == spec_int_type_idx(extent, signed),
        r < 4,
{
    let x: u64 = if extent >= 2 { extent } else { 2 };
    let s: u32 = if signed { 1 } else { 0 };
    let bits = ilog2(x) + s;
    let l = ilog2(bits as u64);
    let d: u32 = if l >= 2 { l - 2 } else { 0 };
    if d <= 3 { d as u8 } else { 3 }
}

impl Cast {
    /// The pairs of types between which a conversion is defined (perhaps as no
    /// conversion at all).
    pub open spec fn defined(from: CompType, to: CompType) -> bool {
        match (from, to) {
            (CompType::Int(_, _), CompType::Int(_, _)) => true,
            (CompType::Bool, CompType::Int(_, _)) => true,
            (CompType::Int(_, _), CompType::Bool) => true,
            (CompType::Int(_, _), CompType::Float(_)) => true,
            (CompType::Bool, CompType::Float(_)) => true,
            (CompType::Char, CompType::Int(_, r)) => r <= 3,
            (CompType::Int(_, l), CompType::Char) => l <= 3,
            (CompType::Float(d1), CompType::Float(d2)) => d1 == d2,
            _ => false,
        }
    }

    /// The conversion from `from` to `to`, `None` where the representation stays.
    pub open spec fn spec_from_types(from: CompType, to: CompType) -> Option<Cast> {
        match (from, to) {
            (CompType::Int(false, l), CompType::Int(_, r)) => if r > l { Some(Cast::UUp) } else if r < l { Some(Cast::UDown) } else { None },
            (CompType::Bool, CompType::Int(_, _)) => Some(Cast::UUp),
            (CompType::Int(_, _), CompType::Bool) => Some(Cast::UDown),
            (CompType::Int(true, l), CompType::Int(_, r)) => if r > l { Some(Cast::SUp) } else if r < l { Some(Cast::SDown) } else { None },
            (CompType::Int(false, _), CompType::Float(_)) => Some(Cast::UtoF),
            (CompType::Bool, CompType::Float(_)) => Some(Cast::UtoF),
            (CompType::Int(true, _), CompType::Float(_)) => Some(Cast::StoF),
            (CompType::Char, CompType::Int(_, r)) => if r == 3 { Some(Cast::UUp) } else if r < 2 { Some(Cast::UDown) } else { None },
            (CompType::Int(_, l), CompType::Char) => if l < 2 { Some(Cast::UUp) } else if l == 3 { Some(Cast::UDown) } else { None },
            _ => None,
        }
    }

    /// The conversion from `from` to `to`, `None` where the representation stays.
    pub fn from_types(from: &CompType, to: &CompType) -> (r: Option<Self>)
        requires
            Self::defined(*from, *to),
        ensures
            r == Self::spec_from_types(*from, *to),
    {
        match (from, to) {
            (CompType::Int(false, l), CompType::Int(_, r)) if *r > *l => Some(Cast::UUp),
            (CompType::Int(false, l), CompType::Int(_, r)) if *r < *l => Some(Cast::UDown),
            (CompType::Bool, CompType::Int(_, _)) => Some(Cast::UUp),
            (CompType::Int(_, _), CompType::Bool) => Some(Cast::UDown),
            (CompType::Int(true, l), CompType::Int(_, r)) if *r > *l => Some(Cast::SUp),
            (CompType::Int(true, l), CompType::Int(_, r)) if *r < *l => Some(Cast::SDown),
            (CompType::Int(_, _), CompType::Int(_, _)) => None,
            (CompType::Int(false, _), CompType::Float(_)) | (CompType::Bool, CompType::Float(_)) => Some(Cast::UtoF),
            (CompType::Int(true, _), CompType::Float(_)) => Some(Cast::StoF),
            (CompType::Char, CompType::Int(_, r)) => {
                if *r == 3 { Some(Cast::UUp) } else if *r < 2 { Some(Cast::UDown) } else { None }
            },
            (CompType::Int(_, l), CompType::Char) => {
                if *l < 2 { Some(Cast::UUp) } else if *l == 3 { Some(Cast::UDown) } else { None }
            },
            _ => None,
        }
    }
}

impl Cast {
    /// The name of the instruction that performs the conversion.
    pub open spec fn spec_op_name(self) -> &'static str {
        match self {
            Cast::UUp => "arith.extui",
            Cast::SUp => "arith.extsi",
            Cast::UDown => "arith.trunci",
            Cast::SDown => "arith.trunci",
            Cast::UtoF => "arith.uitofp",
            Cast::StoF => "arith.sitofp",
        }
    }
}

impl From<Cast> for &'static str {
    fn from(cast: Cast) -> (r: &'static str) {
        match cast {
            Cast::UUp => "arith.extui",
            Cast::SUp => "arith.extsi",
            Cast::UDown => "arith.trunci",
            Cast::SDown => "arith.trunci",
            Cast::UtoF => "arith.uitofp",
            Cast::StoF => "arith.sitofp",
        }
    }
}

impl vstd::std_specs::convert::FromSpecImpl<Cast> for &'static str {
    open spec fn obeys_from_spec() -> bool {
        true
    }

    open spec fn from_spec(v: Cast) -> &'static str {
        v.spec_op_name()
    }
}

impl CompType {
    /// The type's name: `u8` to `i64`, `f32` or `f64`, `bool` or `char`.
    pub fn name(&self) -> (r: &'static str)
        requires
            self.wf(),
        ensures
            r@ == self.spec_name()@,
    {
        match self {
            CompType::Int(false, 0) => "u8",
            CompType::Int(false, 1) => "u16",
            CompType::Int(false, 2) => "u32",
            CompType::Int(false, _) => "u64",
            CompType::Int(true, 0) => "i8",
            CompType::Int(true, 1) => "i16",
            CompType::Int(true, 2) => "i32",
            CompType::Int(true, _) => "i64",
            CompType::Float(false) => "f32",
            CompType::Float(true) => "f64",
            CompType::Bool => "bool",
            CompType::Char => "char",
        }
    }

    pub open spec fn spec_name(self) -> &'static str {
        match self {
            CompType::Int(false, 0) => "u8",
            CompType::Int(false, 1) => "u16",
            CompType::Int(false, 2) => "u32",
            CompType::Int(false, _) => "u64",
            CompType::Int(true, 0) => "i8",
            CompType::Int(true, 1) => "i16",
            CompType::Int(true, 2) => "i32",
            CompType::Int(true, _) => "i64",
            CompType::Float(false) => "f32",
            CompType::Float(true) => "f64",
            CompType::Bool => "bool",
            CompType::Char => "char",
        }
    }
}

/// `2^log2(n) <= n < 2^(log2(n) + 1)` for positive `n`.
proof fn lemma_log2_bounds(n: nat)
    requires
        n >= 1,
    ensures
        pow2(log2_floor(n)) <= n < pow2(log2_floor(n) + 1),
    decreases n,
{
    vstd::arithmetic::power2::lemma2_to64();
    if n > 1 {
        lemma_log2_bounds(n / 2);
        vstd::arithmetic::power2::lemma_pow2_unfold(log2_floor(n / 2) + 1);
        vstd::arithmetic::power2::lemma_pow2_unfold(log2_floor(n / 2) + 2);
    }
}

proof fn lemma_pow2_le(a: nat, b: nat)
    requires
        a <= b,
    ensures
        pow2(a) <= pow2(b),
{
    if a < b {
        vstd::arithmetic::power2::lemma_pow2_strictly_increases(a, b);
    }
}

/// The integer type that `from_info` picks for a non-negative or signed range holds
/// every value of the range: the extent is at most the largest value of the type
/// (for a signed range, as long as the extent fits in a signed 64-bit integer).
pub proof fn lemma_int_type_holds_extent(range: RangeInfo)
    requires
        !range.float,
        range.signed ==> range.extent < 0x8000_0000_0000_0000u64,
    ensures
        CompType::spec_from_info(0, range) matches CompType::Int(s, i)
            ==> range.extent <= CompType::Int(s, i).spec_scalar_info().1.extent,
{
    let t = CompType::spec_from_info(0, range);
    if let CompType::Int(s, i) = t {
        let extent = range.extent;
        let x: nat = if extent >= 2 { extent as nat } else { 2 };
        let a = log2_floor(x);
        let sb: nat = if s { 1 } else { 0 };
        let b = a + sb;
        let l = log2_floor(b);
        lemma_log2_bounds(x);
        lemma_log2_bounds(b);
        lemma_pow2_table();
        assert(i == spec_int_type_idx(extent, s));
        assert(s == range.signed);
        let bits: nat = 8 * pow2(i as nat);
        // The type's width exceeds the number of bits the extent needs, sign included.
        if l <= 2 {
            assert(i == 0);
            assert(b < 8) by {
                lemma_pow2_le(l + 1, 3);
            }
            lemma_pow2_le(a + 1, (8 - sb) as nat);
        } else if l <= 5 {
            assert(i as nat == l - 2);
            assert(bits == pow2(l + 1)) by {
                vstd::arithmetic::power2::lemma_pow2_adds(3, (l - 2) as nat);
                assert(pow2(3) == 8);
                assert(l + 1 == 3 + (l - 2));
                assert(i == 0 || i == 1 || i == 2 || i == 3);
            }
            lemma_pow2_le(a + 1, (bits - sb) as nat);
        } else {
            assert(i == 3);
            assert(bits == 64);
        }
        assert(extent < pow2((bits - sb) as nat));
    }
}

proof fn lemma_log2_is(n: nat, k: nat)
    requires
        pow2(k) <= n < pow2(k + 1),
    ensures
        log2_floor(n) == k,
{
    vstd::arithmetic::power2::lemma_pow2_pos(k);
    lemma_log2_bounds(n);
    let m = log2_floor(n);
    if m < k {
        lemma_pow2_le(m + 1, k);
    } else if m > k {
        lemma_pow2_le(k + 1, m);
    }
}

/// One bit less than the width of an integer type (7, 15, 31 or 63 bits) gives the
/// type's size index `floor(log2(b)) - 2`.
proof fn lemma_idx_of_bits(b: nat, i: u8)
    requires
        i < 4,
        b + 1 == 8 * pow2(i as nat),
    ensures
        log2_floor(b) == i + 2,
{
    lemma_pow2_table();
    let k: nat = (i + 2) as nat;
    assert(pow2(k) <= b < pow2(k + 1)) by {
        if i == 0 {
            assert(pow2(2) == 4 && pow2(3) == 8 && pow2(4) == 16) by { vstd::arithmetic::power2::lemma2_to64(); }
        } else if i == 1 {
            assert(pow2(3) == 8 && pow2(4) == 16 && pow2(5) == 32) by { vstd::arithmetic::power2::lemma2_to64(); }
        } else if i == 2 {
            assert(pow2(4) == 16 && pow2(5) == 32 && pow2(6) == 64) by { vstd::arithmetic::power2::lemma2_to64(); }
        } else {
            assert(pow2(5) == 32 && pow2(6) == 64 && pow2(7) == 128) by { vstd::arithmetic::power2::lemma2_to64(); }
        }
    }
    lemma_log2_is(b, k);
}

/// The information on a scalar of a type gives the type back: `from_info` of
/// `to_scalar_info` is the type itself, for every type but single-precision floats
/// (all fractional values are given doubles).
pub proof fn lemma_scalar_info_round_trip(t: CompType)
    requires
        t.wf(),
        t != CompType::Float(false),
    ensures
        CompType::spec_from_info(t.spec_scalar_info().0, t.spec_scalar_info().1) == t,
{
    if let CompType::Int(s, i) = t {
        lemma_pow2_table();
        let w: nat = 8 * pow2(i as nat);
        assert(w == 8 || w == 16 || w == 32 || w == 64) by {
            if i == 0 {} else if i == 1 {} else if i == 2 {} else {}
        }
        let top: nat = if s { (w - 1) as nat } else { w };
        vstd::arithmetic::power2::lemma_pow2_pos(top);
        let extent = t.spec_scalar_info().1.extent;
        assert(extent as nat == pow2(top) - 1) by {
            assert(pow2(top) - 1 <= u64::MAX) by {
                lemma_pow2_le(top, 64);
            }
        }
        assert(extent >= 2) by {
            lemma_pow2_le(7, top);
        }
        vstd::arithmetic::power2::lemma_pow2_unfold(top);
        vstd::arithmetic::power2::lemma_pow2_pos((top - 1) as nat);
        lemma_log2_is(extent as nat, (top - 1) as nat);
        let bits: nat = log2_floor(extent as nat) + (if s { 1nat } else { 0nat });
        assert(bits + 1 == w);
        lemma_idx_of_bits(bits, i);
        assert(t.spec_scalar_info().1 != RangeInfo::spec_new(1, false, false));
    }
}

/// Converting to a float reads the bits as unsigned for unsigned integers and booleans
/// (`UtoF`, so true becomes 1.0) and as signed only for signed integers (`StoF`); each
/// of the two conversions is used for nothing else.
pub proof fn lemma_float_casts(from: CompType, to: CompType)
    ensures
        to is Float && (from is Bool || (from is Int && !from->Int_0))
            ==> Cast::spec_from_types(from, to) == Some(Cast::UtoF),
        to is Float && from is Int && from->Int_0 ==> Cast::spec_from_types(from, to) == Some(Cast::StoF),
        Cast::spec_from_types(from, to) == Some(Cast::StoF) ==> to is Float && from is Int && from->Int_0,
        Cast::spec_from_types(from, to) == Some(Cast::UtoF)
            ==> to is Float && (from is Bool || (from is Int && !from->Int_0)),
{
}

/// Between integer types, a wider target widens (zero-extending an unsigned source,
/// sign-extending a signed one), a narrower target truncates, and the same size needs
/// no conversion; a boolean widens as unsigned, and any integer becomes a boolean by
/// truncation.
pub proof fn lemma_int_casts(from: CompType, to: CompType)
    ensures
        from is Int && to is Int && to->Int_1 > from->Int_1 ==> Cast::spec_from_types(from, to)
            == Some(if from->Int_0 { Cast::SUp } else { Cast::UUp }),
        from is Int && to is Int && to->Int_1 < from->Int_1 ==> Cast::spec_from_types(from, to)
            == Some(if from->Int_0 { Cast::SDown } else { Cast::UDown }),
        from is Int && to is Int && to->Int_1 == from->Int_1 ==> Cast::spec_from_types(from, to) is None,
        from is Bool && to is Int ==> Cast::spec_from_types(from, to) == Some(Cast::UUp),
        from is Int && to is Bool ==> Cast::spec_from_types(from, to) == Some(Cast::UDown),
        Cast::spec_from_types(from, to) == Some(Cast::SUp) || Cast::spec_from_types(from, to) == Some(Cast::SDown)
            ==> from is Int && from->Int_0 && to is Int,
{
}

/// The common supertype does not depend on the order of the two types.
pub proof fn lemma_supertype_commutative(a: CompType, b: CompType)
    ensures
        a.spec_supertype(b) == b.spec_supertype(a),
{
}

/// A type's supertype with itself is itself.
pub proof fn lemma_supertype_idempotent(a: CompType)
    ensures
        a.spec_supertype(a) == Some(a),
{
}

/// No conversion is needed from a type to itself.
pub proof fn lemma_cast_to_same_type(t: CompType)
    requires
        Cast::defined(t, t),
    ensures
        Cast::spec_from_types(t, t) is None,
{
}

/// The common supertype of the types, taken pairwise from the first on; `None` for no
/// types, or where two have none.
pub open spec fn fold_supertype(ts: Seq<CompType>) -> Option<CompType>
    decreases ts.len(),
{
    if ts.len() == 0 {
        None
    } else if ts.len() == 1 {
        Some(ts[0])
    } else {
        match fold_supertype(ts.drop_last()) {
            Some(t) => t.spec_supertype(ts.last()),
            None => None,
        }
    }
}

/// The name of the type with id `id`.
pub fn typ_name(id: u8) -> (r: &'static str)
    requires
        id < 4,
    ensures
        id == 0 ==> r@ == "number"@,
        id == 1 ==> r@ == "character"@,
        id == 2 ==> r@ == "box"@,
        id == 3 ==> r@ == "complex"@,
{
    if id == 0 {
        "number"
    } else if id == 1 {
        "character"
    } else if id == 2 {
        "box"
    } else {
        "complex"
    }
}

/// The type id of a value of the given kind: 0 for numbers (bytes included),
/// 1 for characters, 2 for boxes, 3 for complex numbers.
pub fn typ(kind: ValueKind) -> (r: u8)
    ensures
        r == match kind {
            ValueKind::Byte | ValueKind::Num => 0u8,
            ValueKind::Char => 1u8,
            ValueKind::Box => 2u8,
            ValueKind::Complex => 3u8,
        },
{
    match kind {
        ValueKind::Byte | ValueKind::Num => 0,
        ValueKind::Char => 1,
        ValueKind::Box => 2,
        ValueKind::Complex => 3,
    }
}

} // verus!
