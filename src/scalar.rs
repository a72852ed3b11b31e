use vstd::prelude::*;
use crate::emitter::lower_seq;
use crate::object::{Decimal, Val};

verus! {

pub open spec fn is_digit(c: char) -> bool {
    '0' <= c <= '9'
}

pub open spec fn digit_value(c: char) -> int {
    c as int - '0' as int
}

/// The number that a run of decimal digits writes.
pub open spec fn digits_value(ds: Seq<char>) -> int
    decreases ds.len(),
{
    if ds.len() == 0 {
        0
    } else {
        digits_value(ds.drop_last()) * 10 + digit_value(ds.last())
    }
}

/// Length of the run of digits that starts at `i`.
pub open spec fn digit_run(a: Seq<char>, i: int) -> int
    decreases a.len() - i,
{
    if 0 <= i < a.len() && is_digit(a[i]) {
        1 + digit_run(a, i + 1)
    } else {
        0
    }
}

/// A magnitude or duration suffix: the value is multiplied by
/// `mult × 10^exp`; a duration gives seconds.
pub struct Suffix {
    pub mult: int,
    pub exp: int,
    pub time: bool,
}

/// The suffixes, written in lower case: `k` and `g` scale by powers of
/// 1000, `kb`, `mb`, `gb` by powers of 1024; `ms`, `s`, `m` and `min`, `h`,
/// `d`, `w`, `y` are durations.
#[verifier::opaque]
pub open spec fn suffix_of(s: Seq<char>) -> Option<Suffix> {
    if s.len() == 0 {
        Some(Suffix { mult: 1, exp: 0, time: false })
    } else if s.len() == 1 {
        let c = s[0];
        if c == 'k' {
            Some(Suffix { mult: 1, exp: 3, time: false })
        } else if c == 'm' {
            Some(Suffix { mult: 60, exp: 0, time: true })
        } else if c == 'g' {
            Some(Suffix { mult: 1, exp: 9, time: false })
        } else if c == 's' {
            Some(Suffix { mult: 1, exp: 0, time: true })
        } else if c == 'h' {
            Some(Suffix { mult: 3600, exp: 0, time: true })
        } else if c == 'd' {
            Some(Suffix { mult: 86400, exp: 0, time: true })
        } else if c == 'w' {
            Some(Suffix { mult: 604800, exp: 0, time: true })
        } else if c == 'y' {
            Some(Suffix { mult: 31536000, exp: 0, time: true })
        } else {
            None
        }
    } else if s.len() == 2 && s[1] == 'b' {
        if s[0] == 'k' {
            Some(Suffix { mult: 1024, exp: 0, time: false })
        } else if s[0] == 'm' {
            Some(Suffix { mult: 1048576, exp: 0, time: false })
        } else if s[0] == 'g' {
            Some(Suffix { mult: 1073741824, exp: 0, time: false })
        } else {
            None
        }
    } else if s.len() == 2 && s[0] == 'm' && s[1] == 's' {
        Some(Suffix { mult: 1, exp: -3, time: true })
    } else if s.len() == 3 && s[0] == 'm' && s[1] == 'i' && s[2] == 'n' {
        Some(Suffix { mult: 60, exp: 0, time: true })
    } else {
        None
    }
}

pub open spec fn pow10(k: nat) -> int
    decreases k,
{
    if k == 0 { 1 } else { 10 * pow10((k - 1) as nat) }
}

pub open spec fn fits_i64(x: int) -> bool {
    i64::MIN <= x <= i64::MAX
}

pub open spec fn fits_i32(x: int) -> bool {
    i32::MIN <= x <= i32::MAX
}

/// How a bare word reads as a number.
pub enum Numeric {
    NotNumber,
    OutOfRange,
    Number(Val),
}

/// The value of a number whose parts have been found: digits `a[i0..i1]`,
/// fraction digits `a[i1+1..i2]` when `has_frac`, exponent digits `a[j..i3]`
/// when `has_exp`, and the suffix `sf`.
#[verifier::opaque]
pub open spec fn number_value(
    a: Seq<char>,
    neg: bool,
    i0: int,
    i1: int,
    has_frac: bool,
    i2: int,
    has_exp: bool,
    eneg: bool,
    j: int,
    i3: int,
    sf: Suffix,
) -> Numeric {
    let n2 = if has_frac { i2 - i1 - 1 } else { 0 };
    let m = digits_value(a.subrange(i0, i1) + if has_frac { a.subrange(i1 + 1, i2) } else { Seq::empty() });
    let sm = if neg { -m } else { m };
    let e = (if has_exp {
        (if eneg { -1int } else { 1int }) * digits_value(a.subrange(j, i3))
    } else {
        0
    }) - n2;
    if !has_frac && !has_exp && !sf.time {
        let v = sm * sf.mult * pow10(sf.exp as nat);
        if fits_i64(v) {
            Numeric::Number(Val::Int(v as i64))
        } else {
            Numeric::OutOfRange
        }
    } else {
        let mm = sm * sf.mult;
        let ee = e + sf.exp;
        if fits_i64(mm) && fits_i32(ee) {
            Numeric::Number(Val::Float(Decimal { mantissa: mm as i64, exponent: ee as i32 }))
        } else {
            Numeric::OutOfRange
        }
    }
}

/// A bare word as a number: an optional `-`, digits, an optional fraction
/// (a `.` and any digits), an optional exponent `e[+-]digits` and an optional suffix. It
/// is an integer when it has neither fraction, exponent nor duration suffix,
/// else a decimal. With `no_time` a duration is no number.
pub open spec fn numeric(a: Seq<char>, no_time: bool) -> Numeric {
    let neg = a.len() > 0 && a[0] == '-';
    let i0: int = if neg { 1 } else { 0 };
    let n1 = digit_run(a, i0);
    let i1 = i0 + n1;
    let has_frac = i1 < a.len() && a[i1] == '.';
    let i2 = if has_frac { i1 + 1 + digit_run(a, i1 + 1) } else { i1 };
    let eneg = i2 + 1 < a.len() && a[i2 + 1] == '-';
    let esigned = i2 + 1 < a.len() && (a[i2 + 1] == '-' || a[i2 + 1] == '+');
    let j = if esigned { i2 + 2 } else if i2 < a.len() { i2 + 1 } else { i2 };
    let has_exp = i2 < a.len() && (a[i2] == 'e' || a[i2] == 'E') && digit_run(a, j) > 0;
    let i3 = if has_exp { j + digit_run(a, j) } else { i2 };
    if n1 == 0 {
        Numeric::NotNumber
    } else {
        match suffix_of(lower_seq(a.subrange(i3, a.len() as int))) {
            None => Numeric::NotNumber,
            Some(sf) => {
                if sf.time && no_time {
                    Numeric::NotNumber
                } else {
                    number_value(a, neg, i0, i1, has_frac, i2, has_exp, eneg, j, i3, sf)
                }
            },
        }
    }
}

/// The truth value that a bare word writes, if any: `true`, `yes`, `on`,
/// `false`, `no`, `off`, in any case.
pub open spec fn boolean_word(a: Seq<char>) -> Option<bool> {
    let l = lower_seq(a);
    if l == seq!['t', 'r', 'u', 'e'] || l == seq!['y', 'e', 's'] || l == seq!['o', 'n'] {
        Some(true)
    } else if l == seq!['f', 'a', 'l', 's', 'e'] || l == seq!['n', 'o'] || l == seq!['o', 'f', 'f'] {
        Some(false)
    } else {
        None
    }
}

pub open spec fn is_null_word(a: Seq<char>) -> bool {
    lower_seq(a) == seq!['n', 'u', 'l', 'l']
}

/// Digits read after an accumulated prefix `init`.
pub open spec fn digits_from(init: int, ds: Seq<char>) -> int
    decreases ds.len(),
{
    if ds.len() == 0 {
        init
    } else {
        digits_from(init, ds.drop_last()) * 10 + digit_value(ds.last())
    }
}

proof fn lemma_digits_from_concat(init: int, x: Seq<char>, y: Seq<char>)
    ensures
        digits_from(digits_from(init, x), y) == digits_from(init, x + y),
    decreases y.len(),
{
    if y.len() > 0 {
        lemma_digits_from_concat(init, x, y.drop_last());
        assert((x + y).drop_last() =~= x + y.drop_last());
        assert((x + y).last() == y.last());
    }
}

proof fn lemma_digits_value(ds: Seq<char>)
    ensures
        digits_value(ds) == digits_from(0, ds),
    decreases ds.len(),
{
    if ds.len() > 0 {
        lemma_digits_value(ds.drop_last());
    }
}

proof fn lemma_digits_grow(init: int, ds: Seq<char>)
    requires
        init >= 0,
        forall|i: int| 0 <= i < ds.len() ==> is_digit(#[trigger] ds[i]),
    ensures
        digits_from(init, ds) >= init,
    decreases ds.len(),
{
    if ds.len() > 0 {
        assert forall|i: int| 0 <= i < ds.drop_last().len() implies is_digit(#[trigger] ds.drop_last()[i]) by {
            assert(ds.drop_last()[i] == ds[i]);
        }
        lemma_digits_grow(init, ds.drop_last());
        assert(is_digit(ds[ds.len() - 1]));
    }
}

/// Beyond any value that the reader keeps exactly.
pub const DIGITS_CAP: i128 = 0x400000000000000000000;

/// Reads the digits `a[lo..hi]` after the accumulated value `init`; `None`
/// when the value passes `DIGITS_CAP`.
fn read_digits(a: &Vec<char>, lo: usize, hi: usize, init: i128) -> (r: Option<i128>)
    requires
        lo <= hi <= a.len(),
        0 <= init <= DIGITS_CAP,
        forall|i: int| lo <= i < hi ==> is_digit(#[trigger] a@[i]),
    ensures
        match r {
            Some(v) => v == digits_from(init as int, a@.subrange(lo as int, hi as int)) && 0 <= v <= DIGITS_CAP,
            None => digits_from(init as int, a@.subrange(lo as int, hi as int)) > DIGITS_CAP,
        },
{
    let mut v: i128 = init;
    let mut i: usize = lo;
    while i < hi
        invariant
            lo <= i <= hi <= a.len(),
            0 <= v <= DIGITS_CAP,
            forall|k: int| lo <= k < hi ==> is_digit(#[trigger] a@[k]),
            v == digits_from(init as int, a@.subrange(lo as int, i as int)),
        decreases hi - i,
    {
        let d = (a[i] as u32 - '0' as u32) as i128;
        proof {
            assert(a@.subrange(lo as int, i + 1).drop_last() =~= a@.subrange(lo as int, i as int));
            assert(is_digit(a@[i as int]));
        }
        let nv = v * 10 + d;
        i += 1;
        if nv > DIGITS_CAP {
            proof {
                let rest = a@.subrange(i as int, hi as int);
                assert forall|k: int| 0 <= k < rest.len() implies is_digit(#[trigger] rest[k]) by {
                    assert(rest[k] == a@[i + k]);
                }
                lemma_digits_grow(nv as int, rest);
                lemma_digits_from_concat(init as int, a@.subrange(lo as int, i as int), rest);
                assert(a@.subrange(lo as int, i as int) + rest =~= a@.subrange(lo as int, hi as int));
            }
            return None;
        }
        v = nv;
    }
    Some(v)
}

/// End of the run of digits that starts at `i`.
fn digit_run_end(a: &Vec<char>, i: usize) -> (r: usize)
    requires
        i <= a.len(),
    ensures
        i <= r <= a.len(),
        r - i == digit_run(a@, i as int),
        forall|k: int| i <= k < r ==> is_digit(#[trigger] a@[k]),
{
    let mut j: usize = i;
    while j < a.len() && '0' <= a[j] && a[j] <= '9'
        invariant
            i <= j <= a.len(),
            digit_run(a@, i as int) == (j - i) + digit_run(a@, j as int),
            forall|k: int| i <= k < j ==> is_digit(#[trigger] a@[k]),
        decreases a.len() - j,
    {
        j += 1;
    }
    j
}

fn lower_copy(a: &Vec<char>, lo: usize) -> (r: Vec<char>)
    requires
        lo <= a.len(),
    ensures
        r@ == lower_seq(a@.subrange(lo as int, a.len() as int)),
{
    let mut r: Vec<char> = Vec::new();
    let mut i: usize = lo;
    while i < a.len()
        invariant
            lo <= i <= a.len(),
            r@ =~= lower_seq(a@.subrange(lo as int, i as int)),
        decreases a.len() - i,
    {
        let c = a[i];
        let l = if 'A' <= c && c <= 'Z' { ((c as u32 + 32) as u8) as char } else { c };
        r.push(l);
        i += 1;
        proof {
            assert(r@ =~= lower_seq(a@.subrange(lo as int, i as int)));
        }
    }
    r
}

fn suffix_exec(s: &Vec<char>) -> (r: Option<(i128, i32, bool)>)
    ensures
        match r {
            Some((m, e, t)) => suffix_of(s@) == Some(Suffix { mult: m as int, exp: e as int, time: t })
                && 1 <= m && m <= 1073741824 && -3 <= e && e <= 9 && (!t ==> 0 <= e),
            None => suffix_of(s@) is None,
        },
{
    proof {
        reveal(suffix_of);
    }
    if s.len() == 0 {
        Some((1, 0, false))
    } else if s.len() == 1 {
        let c = s[0];
        if c == 'k' {
            Some((1, 3, false))
        } else if c == 'm' {
            Some((60, 0, true))
        } else if c == 'g' {
            Some((1, 9, false))
        } else if c == 's' {
            Some((1, 0, true))
        } else if c == 'h' {
            Some((3600, 0, true))
        } else if c == 'd' {
            Some((86400, 0, true))
        } else if c == 'w' {
            Some((604800, 0, true))
        } else if c == 'y' {
            Some((31536000, 0, true))
        } else {
            None
        }
    } else if s.len() == 2 && s[1] == 'b' {
        if s[0] == 'k' {
            Some((1024, 0, false))
        } else if s[0] == 'm' {
            Some((1048576, 0, false))
        } else if s[0] == 'g' {
            Some((1073741824, 0, false))
        } else {
            None
        }
    } else if s.len() == 2 && s[0] == 'm' && s[1] == 's' {
        Some((1, -3, true))
    } else if s.len() == 3 && s[0] == 'm' && s[1] == 'i' && s[2] == 'n' {
        Some((60, 0, true))
    } else {
        None
    }
}

/// How a bare word reads as a number, in executable form.
pub enum NumberRead {
    NotNumber,
    OutOfRange,
    Int(i64),
    Float(Decimal),
}

pub open spec fn number_read_view(r: NumberRead) -> Numeric {
    match r {
        NumberRead::NotNumber => Numeric::NotNumber,
        NumberRead::OutOfRange => Numeric::OutOfRange,
        NumberRead::Int(i) => Numeric::Number(Val::Int(i)),
        NumberRead::Float(d) => Numeric::Number(Val::Float(d)),
    }
}

fn pow10_exec(e: i32) -> (r: i128)
    requires
        0 <= e <= 9,
    ensures
        r == pow10(e as nat),
        1 <= r <= 1000000000,
{
    proof {
        reveal_with_fuel(pow10, 10);
    }
    if e == 0 { 1 }
    else if e == 1 { 10 }
    else if e == 2 { 100 }
    else if e == 3 { 1000 }
    else if e == 4 { 10000 }
    else if e == 5 { 100000 }
    else if e == 6 { 1000000 }
    else if e == 7 { 10000000 }
    else if e == 8 { 100000000 }
    else { 1000000000 }
}

/// Reads a bare word as a number.
pub fn read_number(a: &Vec<char>, no_time: bool) -> (r: NumberRead)
    ensures
        number_read_view(r) == numeric(a@, no_time),
{
    let neg = a.len() > 0 && a[0] == '-';
    let i0: usize = if neg { 1 } else { 0 };
    let i1 = digit_run_end(a, i0);
    if i1 == i0 {
        return NumberRead::NotNumber;
    }
    let mut has_frac = false;
    let mut i2 = i1;
    if i1 < a.len() && a[i1] == '.' {
        has_frac = true;
        i2 = digit_run_end(a, i1 + 1);
    }
    let eneg = i2 < a.len() && i2 + 1 < a.len() && a[i2 + 1] == '-';
    let esigned = i2 < a.len() && i2 + 1 < a.len() && (a[i2 + 1] == '-' || a[i2 + 1] == '+');
    let mut has_exp = false;
    let mut i3 = i2;
    let j: usize = if esigned { i2 + 2 } else if i2 < a.len() { i2 + 1 } else { i2 };
    if i2 < a.len() && (a[i2] == 'e' || a[i2] == 'E') {
        let e3 = digit_run_end(a, j);
        if e3 > j {
            has_exp = true;
            i3 = e3;
        }
    }
    let suf = lower_copy(a, i3);
    let (mult, sexp, time) = match suffix_exec(&suf) {
        None => {
            return NumberRead::NotNumber;
        },
        Some(x) => x,
    };
    if time && no_time {
        return NumberRead::NotNumber;
    }
    read_value(a, neg, i0, i1, has_frac, i2, has_exp, eneg, j, i3, mult, sexp, time)
}

fn read_value(
    a: &Vec<char>,
    neg: bool,
    i0: usize,
    i1: usize,
    has_frac: bool,
    i2: usize,
    has_exp: bool,
    eneg: bool,
    j: usize,
    i3: usize,
    mult: i128,
    sexp: i32,
    time: bool,
) -> (r: NumberRead)
    requires
        i0 <= i1 <= i2 <= a.len(),
        i3 <= a.len(),
        forall|k: int| i0 <= k < i1 ==> is_digit(#[trigger] a@[k]),
        has_frac ==> i1 + 1 <= i2 && forall|k: int| i1 + 1 <= k < i2 ==> is_digit(#[trigger] a@[k]),
        !has_frac ==> i2 == i1,
        has_exp ==> j <= i3 && forall|k: int| j <= k < i3 ==> is_digit(#[trigger] a@[k]),
        1 <= mult <= 1073741824,
        -3 <= sexp <= 9,
        !time ==> 0 <= sexp,
    ensures
        number_read_view(r) == number_value(
            a@,
            neg,
            i0 as int,
            i1 as int,
            has_frac,
            i2 as int,
            has_exp,
            eneg,
            j as int,
            i3 as int,
            Suffix { mult: mult as int, exp: sexp as int, time },
        ),
{
    proof {
        reveal(number_value);
    }
    let ghost x = a@.subrange(i0 as int, i1 as int);
    let ghost y = if has_frac { a@.subrange(i1 + 1, i2 as int) } else { Seq::<char>::empty() };
    let ghost m_spec = digits_value(x + y);
    proof {
        lemma_digits_value(x + y);
        lemma_digits_from_concat(0, x, y);
        assert forall|k: int| 0 <= k < y.len() implies is_digit(#[trigger] y[k]) by {
            assert(y[k] == a@[i1 + 1 + k]);
        }
        lemma_digits_value(x);
    }
    let m1 = read_digits(a, i0, i1, 0);
    let m: Option<i128> = match m1 {
        None => {
            proof {
                lemma_digits_grow(digits_from(0, x), y);
            }
            None
        },
        Some(v) => {
            if has_frac {
                read_digits(a, i1 + 1, i2, v)
            } else {
                proof {
                    assert(x + y =~= x);
                }
                Some(v)
            }
        },
    };
    assert(m is Some ==> m->0 == m_spec && 0 <= m_spec <= DIGITS_CAP);
    assert(m is None ==> m_spec > DIGITS_CAP);
    let mv = match m {
        None => {
            proof {
                if !has_frac && !has_exp && !time {
                    let p = pow10(sexp as nat);
                    assert(p >= 1) by {
                        reveal_with_fuel(pow10, 10);
                    }
                    let sm = if neg { -m_spec } else { m_spec };
                    assert(sm * mult * p >= m_spec || sm * mult * p <= -m_spec) by (nonlinear_arith)
                        requires m_spec > 0, mult >= 1, p >= 1, sm == m_spec || sm == -m_spec;
                } else {
                    let sm = if neg { -m_spec } else { m_spec };
                    assert(sm * mult >= m_spec || sm * mult <= -m_spec) by (nonlinear_arith)
                        requires m_spec > 0, mult >= 1, sm == m_spec || sm == -m_spec;
                }
            }
            return NumberRead::OutOfRange;
        },
        Some(v) => v,
    };
    proof {
        assert(mv * mult <= DIGITS_CAP * 1073741824) by (nonlinear_arith)
            requires 0 <= mv <= DIGITS_CAP, 1 <= mult <= 1073741824;
        assert(mv * mult >= 0) by (nonlinear_arith)
            requires 0 <= mv, 1 <= mult;
    }
    let w: i128 = mv * mult;
    let sw: i128 = if neg { -w } else { w };
    if !has_frac && !has_exp && !time {
        let p = pow10_exec(sexp);
        if w > 0x8000000000000000 {
            proof {
                let sm = if neg { -m_spec } else { m_spec };
                assert(sm * mult * p >= w || sm * mult * p <= -w) by (nonlinear_arith)
                    requires w == m_spec * mult, p >= 1, w >= 0, sm == m_spec || sm == -m_spec;
            }
            return NumberRead::OutOfRange;
        }
        proof {
            assert(w * p <= 0x8000000000000000 * 1000000000) by (nonlinear_arith)
                requires 0 <= w <= 0x8000000000000000, 1 <= p <= 1000000000;
            assert(-(0x8000000000000000 * 1000000000) <= sw * p <= 0x8000000000000000 * 1000000000) by (nonlinear_arith)
                requires 0 <= w <= 0x8000000000000000, 1 <= p <= 1000000000, sw == w || sw == -w;
            assert((if neg { -m_spec } else { m_spec }) * mult * p == sw * p) by (nonlinear_arith)
                requires w == m_spec * mult, sw == (if neg { -(w as int) } else { w as int });
        }
        let v: i128 = sw * p;
        if v < i64::MIN as i128 || v > i64::MAX as i128 {
            return NumberRead::OutOfRange;
        }
        return NumberRead::Int(v as i64);
    }
    proof {
        assert((if neg { -m_spec } else { m_spec }) * mult == sw) by (nonlinear_arith)
            requires w == m_spec * mult, sw == (if neg { -(w as int) } else { w as int });
    }
    let n2: i128 = if has_frac { (i2 - i1 - 1) as i128 } else { 0 };
    let ev: i128 = if has_exp {
        proof {
            lemma_digits_value(a@.subrange(j as int, i3 as int));
        }
        match read_digits(a, j, i3, 0) {
            None => {
                proof {
                    let xv = digits_value(a@.subrange(j as int, i3 as int));
                    if eneg {
                        assert(-1int * xv == -xv);
                    } else {
                        assert(1int * xv == xv);
                    }
                    assert(n2 <= usize::MAX);
                }
                return NumberRead::OutOfRange;
            },
            Some(v) => {
                proof {
                    let xv = digits_value(a@.subrange(j as int, i3 as int));
                    if eneg {
                        assert(-1int * xv == -xv);
                    } else {
                        assert(1int * xv == xv);
                    }
                }
                if eneg { -v } else { v }
            },
        }
    } else {
        0
    };
    let ee: i128 = ev - n2 + sexp as i128;
    if sw < i64::MIN as i128 || sw > i64::MAX as i128 || ee < i32::MIN as i128 || ee > i32::MAX as i128 {
        return NumberRead::OutOfRange;
    }
    NumberRead::Float(Decimal { mantissa: sw as i64, exponent: ee as i32 })
}

} // verus!
