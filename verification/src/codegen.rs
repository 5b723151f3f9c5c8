//! What code generation decides from the analysis alone: the symbol name of a function
//! specialized to its arguments, and the static dimensions of a tensor.

use vstd::prelude::*;
use crate::axis::Axis;
use crate::comp_type::CompType;
use crate::info::{axes_wf, ShapeInfo, ValInfo};

verus! {

/// Why a function could not be given a symbol name.
#[derive(Clone, Copy, Debug, PartialEq, Eq, Structural)]
pub enum MangleError {
    /// Only named functions get a symbol name.
    Unnamed,
}

/// The dimension of a tensor axis whose length is not known ahead of time.
pub const DYN_AX: u64 = 0x8000_0000_0000_0000;

/// The character of a decimal digit.
pub open spec fn digit_char(d: nat) -> char {
    (48 + d) as char
}

/// The decimal digits of `n`, most significant first.
pub open spec fn digits(n: nat) -> Seq<char>
    decreases n,
{
    if n < 10 { seq![digit_char(n)] } else { digits(n / 10).push(digit_char(n % 10)) }
}

/// An integer in decimal, with a minus sign when negative.
pub open spec fn int_text(n: int) -> Seq<char> {
    if n < 0 { seq!['-'] + digits((-n) as nat) } else { digits(n as nat) }
}

/// The texts, with `sep` between each two.
pub open spec fn joined(parts: Seq<Seq<char>>, sep: char) -> Seq<char>
    decreases parts.len(),
{
    if parts.len() == 0 {
        Seq::empty()
    } else if parts.len() == 1 {
        parts[0]
    } else {
        joined(parts.drop_last(), sep).push(sep) + parts.last()
    }
}

/// How a shape shows in a symbol name: the lengths joined by `x`, `X` for a length not
/// known ahead of time, and `U` for an unknown rank.
pub open spec fn shape_text<V>(s: ShapeInfo<V>) -> Seq<char> {
    match s {
        ShapeInfo::Known(k) => joined(k.shape@.map_values(|n: usize| digits(n as nat)), 'x'),
        ShapeInfo::Ranked(a) => joined(a@.map_values(|ax: Axis| match ax.spec_only_const() {
            Some(c) => int_text(c),
            None => seq!['X'],
        }), 'x'),
        ShapeInfo::Unranked { .. } => seq!['U'],
    }
}

/// The name of a machine type: `u8` to `i64`, `f32` or `f64`, `bool` or `char`.
pub open spec fn type_text(t: CompType) -> Seq<char> {
    match t {
        CompType::Int(s, i) => seq![if s { 'i' } else { 'u' }] + if i == 0 {
            seq!['8']
        } else if i == 1 {
            seq!['1', '6']
        } else if i == 2 {
            seq!['3', '2']
        } else {
            seq!['6', '4']
        },
        CompType::Float(d) => if d { seq!['f', '6', '4'] } else { seq!['f', '3', '2'] },
        CompType::Bool => seq!['b', 'o', 'o', 'l'],
        CompType::Char => seq!['c', 'h', 'a', 'r'],
    }
}

/// The type part of a symbol name is the machine type's name (`u8` to `i64`, `f32`,
/// `f64`, `bool`, `char`); for integers and floats, a sign letter followed by the
/// number of bits of the type in decimal, so each integer size gets its own name.
pub proof fn lemma_type_text_is_name(t: CompType)
    requires
        t.wf(),
    ensures
        type_text(t) == t.spec_name()@,
        t is Int ==> type_text(t) == seq![if t->Int_0 { 'i' } else { 'u' }] + digits(t.spec_bit_width() as nat),
        t is Float ==> type_text(t) == seq!['f'] + digits(t.spec_bit_width() as nat),
{
    reveal_strlit("u8");
    reveal_strlit("u16");
    reveal_strlit("u32");
    reveal_strlit("u64");
    reveal_strlit("i8");
    reveal_strlit("i16");
    reveal_strlit("i32");
    reveal_strlit("i64");
    reveal_strlit("f32");
    reveal_strlit("f64");
    reveal_strlit("bool");
    reveal_strlit("char");
    reveal_with_fuel(digits, 3);
    assert(digits(8) == seq!['8']);
    assert(digits(16) =~= seq!['1', '6']);
    assert(digits(32) =~= seq!['3', '2']);
    assert(digits(64) =~= seq!['6', '4']);
    match t {
        CompType::Int(s, i) => {
            if i == 0 {
            } else if i == 1 {
            } else if i == 2 {
            } else {
            }
            assert(type_text(t) =~= t.spec_name()@);
        },
        CompType::Float(d) => {
            assert(type_text(t) =~= t.spec_name()@);
        },
        _ => {
            assert(type_text(t) =~= t.spec_name()@);
        },
    }
}

/// How an argument shows in a symbol name: its shape, `t`, and its machine type.
pub open spec fn arg_text<V>(v: ValInfo<V>) -> Seq<char> {
    shape_text(v.shape) + seq!['t'] + type_text(CompType::spec_from_info(v.typ, v.range))
}

/// The symbol name of function `base` specialized to arguments `args`: `main` stays;
/// otherwise `_`, the name, `__`, and the arguments joined by `_`.
pub open spec fn mangled<V>(base: Seq<char>, args: Seq<ValInfo<V>>) -> Seq<char> {
    if base == seq!['m', 'a', 'i', 'n'] {
        base
    } else {
        seq!['_'] + base + seq!['_', '_'] + joined(args.map_values(|v: ValInfo<V>| arg_text(v)), '_')
    }
}

/// The argument can go into a symbol name: a number or a character, with well formed
/// lengths.
pub open spec fn nameable<V>(v: ValInfo<V>) -> bool {
    &&& v.typ <= 1
    &&& v.shape matches ShapeInfo::Ranked(a) ==> axes_wf(a@)
}

fn digit(d: u64) -> (c: char)
    requires
        d < 10,
    ensures
        c == digit_char(d as nat),
{
    match d {
        0 => '0',
        1 => '1',
        2 => '2',
        3 => '3',
        4 => '4',
        5 => '5',
        6 => '6',
        7 => '7',
        8 => '8',
        _ => '9',
    }
}

pub(crate) fn push_digits(out: &mut Vec<char>, n: u64)
    ensures
        final(out)@ == old(out)@ + digits(n as nat),
    decreases n,
{
    if n >= 10 {
        push_digits(out, n / 10);
    }
    out.push(digit(n % 10));
    proof {
        if n >= 10 {
            assert(digits(n as nat) == digits((n / 10) as nat).push(digit_char((n % 10) as nat)));
        }
    }
}

pub(crate) fn push_int(out: &mut Vec<char>, n: isize)
    ensures
        final(out)@ == old(out)@ + int_text(n as int),
{
    if n < 0 {
        out.push('-');
        let m: u64 = ((-(n + 1)) as u64) + 1;
        assert(m == -n);
        push_digits(out, m);
        assert(out@ =~= old(out)@ + (seq!['-'] + digits((-n) as nat)));
    } else {
        push_digits(out, n as u64);
    }
}

fn push_type(out: &mut Vec<char>, t: CompType)
    requires
        t.wf(),
    ensures
        final(out)@ == old(out)@ + type_text(t),
{
    let ghost before = out@;
    match t {
        CompType::Int(s, i) => {
            out.push(if s { 'i' } else { 'u' });
            if i == 0 {
                out.push('8');
            } else if i == 1 {
                out.push('1');
                out.push('6');
            } else if i == 2 {
                out.push('3');
                out.push('2');
            } else {
                out.push('6');
                out.push('4');
            }
        },
        CompType::Float(d) => {
            out.push('f');
            if d {
                out.push('6');
                out.push('4');
            } else {
                out.push('3');
                out.push('2');
            }
        },
        CompType::Bool => {
            out.push('b');
            out.push('o');
            out.push('o');
            out.push('l');
        },
        CompType::Char => {
            out.push('c');
            out.push('h');
            out.push('a');
            out.push('r');
        },
    }
    assert(out@ =~= before + type_text(t));
}

proof fn lemma_joined_push(parts: Seq<Seq<char>>, p: Seq<char>, sep: char)
    ensures
        joined(parts.push(p), sep) == if parts.len() == 0 { p } else { joined(parts, sep).push(sep) + p },
{
    assert(parts.push(p).drop_last() =~= parts);
    if parts.len() == 0 {
        assert(parts.push(p)[0] == p);
    }
}

fn push_shape<V>(out: &mut Vec<char>, s: &ShapeInfo<V>)
    requires
        s matches ShapeInfo::Ranked(a) ==> axes_wf(a@),
    ensures
        final(out)@ == old(out)@ + shape_text(*s),
{
    let ghost before = out@;
    match s {
        ShapeInfo::Known(k) => {
            let ghost parts = k.shape@.map_values(|n: usize| digits(n as nat));
            let mut i: usize = 0;
            while i < k.shape.len()
                invariant
                    i <= k.shape@.len(),
                    parts == k.shape@.map_values(|n: usize| digits(n as nat)),
                    out@ == before + joined(parts.take(i as int), 'x'),
                decreases k.shape@.len() - i,
            {
                proof {
                    assert(parts.take(i + 1) =~= parts.take(i as int).push(parts[i as int]));
                    lemma_joined_push(parts.take(i as int), parts[i as int], 'x');
                }
                if i > 0 {
                    out.push('x');
                }
                push_digits(out, k.shape[i] as u64);
                proof {
                    assert(out@ =~= before + joined(parts.take(i + 1), 'x'));
                }
                i += 1;
            }
            proof {
                assert(parts.take(k.shape@.len() as int) =~= parts);
            }
        },
        ShapeInfo::Ranked(a) => {
            let ghost parts = a@.map_values(|ax: Axis| match ax.spec_only_const() {
                Some(c) => int_text(c),
                None => seq!['X'],
            });
            let mut i: usize = 0;
            while i < a.len()
                invariant
                    i <= a@.len(),
                    axes_wf(a@),
                    parts == a@.map_values(|ax: Axis| match ax.spec_only_const() {
                        Some(c) => int_text(c),
                        None => seq!['X'],
                    }),
                    out@ == before + joined(parts.take(i as int), 'x'),
                decreases a@.len() - i,
            {
                proof {
                    assert(parts.take(i + 1) =~= parts.take(i as int).push(parts[i as int]));
                    lemma_joined_push(parts.take(i as int), parts[i as int], 'x');
                    assert(a@[i as int].wf());
                }
                if i > 0 {
                    out.push('x');
                }
                match a[i].only_const() {
                    Some(c) => push_int(out, c),
                    None => out.push('X'),
                }
                proof {
                    assert(out@ =~= before + joined(parts.take(i + 1), 'x'));
                }
                i += 1;
            }
            proof {
                assert(parts.take(a@.len() as int) =~= parts);
            }
        },
        ShapeInfo::Unranked { .. } => {
            out.push('U');
        },
    }
}

/// The symbol name of function `name` specialized to the arguments `args`: an error for
/// a function without a name; `main` for the function named so; otherwise `_`, the
/// name, `__`, and each argument's shape, `t` and machine type, joined by `_`.
pub fn name_mangle<V>(name: &Option<Vec<char>>, args: &Vec<ValInfo<V>>) -> (r: Result<Vec<char>, MangleError>)
    requires
        forall|i: int| 0 <= i < args@.len() ==> nameable(#[trigger] args@[i]),
    ensures
        name is None ==> r == Err::<Vec<char>, MangleError>(MangleError::Unnamed),
        name is Some ==> r is Ok && r->Ok_0@ == mangled(name->0@, args@),
{
    let base = match name {
        Some(b) => b,
        None => {
            return Err(MangleError::Unnamed);
        },
    };
    if base.len() == 4 && base[0] == 'm' && base[1] == 'a' && base[2] == 'i' && base[3] == 'n' {
        let mut out: Vec<char> = Vec::new();
        out.push('m');
        out.push('a');
        out.push('i');
        out.push('n');
        proof {
            assert(base@ =~= seq!['m', 'a', 'i', 'n']);
            assert(out@ =~= base@);
        }
        return Ok(out);
    }
    proof {
        if base@ == seq!['m', 'a', 'i', 'n'] {
            assert(base@[0] == 'm' && base@[1] == 'a' && base@[2] == 'i' && base@[3] == 'n');
        }
    }
    let mut out: Vec<char> = Vec::new();
    out.push('_');
    let mut i: usize = 0;
    while i < base.len()
        invariant
            i <= base@.len(),
            out@ == seq!['_'] + base@.take(i as int),
        decreases base@.len() - i,
    {
        out.push(base[i]);
        proof {
            assert(out@ =~= seq!['_'] + base@.take(i + 1));
        }
        i += 1;
    }
    out.push('_');
    out.push('_');
    let ghost head = seq!['_'] + base@ + seq!['_', '_'];
    proof {
        assert(base@.take(base@.len() as int) =~= base@);
        assert(out@ =~= head);
    }
    let ghost parts = args@.map_values(|v: ValInfo<V>| arg_text(v));
    let mut j: usize = 0;
    while j < args.len()
        invariant
            j <= args@.len(),
            forall|q: int| 0 <= q < args@.len() ==> nameable(#[trigger] args@[q]),
            parts == args@.map_values(|v: ValInfo<V>| arg_text(v)),
            out@ == head + joined(parts.take(j as int), '_'),
        decreases args@.len() - j,
    {
        proof {
            assert(parts.take(j + 1) =~= parts.take(j as int).push(parts[j as int]));
            lemma_joined_push(parts.take(j as int), parts[j as int], '_');
            assert(nameable(args@[j as int]));
        }
        let ghost at_start = out@;
        if j > 0 {
            out.push('_');
        }
        let ghost before_arg = out@;
        push_shape(&mut out, &args[j].shape);
        out.push('t');
        let t = CompType::from_info(&args[j]);
        push_type(&mut out, t);
        proof {
            assert(out@ =~= before_arg + arg_text(args@[j as int]));
            assert(out@ =~= head + joined(parts.take(j + 1), '_'));
        }
        j += 1;
    }
    proof {
        assert(parts.take(args@.len() as int) =~= parts);
    }
    Ok(out)
}

/// The static dimensions of a tensor of the given shape: the known lengths, and
/// `DYN_AX` for a length not known ahead of time.
pub fn dims_from_shape_info<V>(info: &ShapeInfo<V>) -> (r: Vec<u64>)
    requires
        !(info is Unranked),
        info matches ShapeInfo::Ranked(a) ==> axes_wf(a@),
    ensures
        info matches ShapeInfo::Known(k) ==> r@ == k.shape@.map_values(|n: usize| n as u64),
        info matches ShapeInfo::Ranked(a) ==> r@ == a@.map_values(|ax: Axis| match ax.spec_only_const() {
            Some(c) => c as u64,
            None => DYN_AX,
        }),
{
    let mut out: Vec<u64> = Vec::new();
    match info {
        ShapeInfo::Known(k) => {
            let mut i: usize = 0;
            while i < k.shape.len()
                invariant
                    i <= k.shape@.len(),
                    out@ == k.shape@.take(i as int).map_values(|n: usize| n as u64),
                decreases k.shape@.len() - i,
            {
                out.push(k.shape[i] as u64);
                proof {
                    assert(out@ =~= k.shape@.take(i + 1).map_values(|n: usize| n as u64));
                }
                i += 1;
            }
            proof {
                assert(k.shape@.take(k.shape@.len() as int) =~= k.shape@);
            }
        },
        ShapeInfo::Ranked(a) => {
            let mut i: usize = 0;
            while i < a.len()
                invariant
                    i <= a@.len(),
                    axes_wf(a@),
                    out@ == a@.take(i as int).map_values(|ax: Axis| match ax.spec_only_const() {
                        Some(c) => c as u64,
                        None => DYN_AX,
                    }),
                decreases a@.len() - i,
            {
                proof {
                    assert(a@[i as int].wf());
                }
                let d: u64 = match a[i].only_const() {
                    Some(c) => c as u64,
                    None => DYN_AX,
                };
                out.push(d);
                proof {
                    assert(out@ =~= a@.take(i + 1).map_values(|ax: Axis| match ax.spec_only_const() {
                        Some(c) => c as u64,
                        None => DYN_AX,
                    }));
                }
                i += 1;
            }
            proof {
                assert(a@.take(a@.len() as int) =~= a@);
            }
        },
        ShapeInfo::Unranked { .. } => {},
    }
    out
}

} // verus!
