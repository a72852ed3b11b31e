use vstd::prelude::*;
use crate::emitter::{
    abs_nat, config_doc, config_elems, config_entries, config_entry_prefix, config_entry_suffix, config_value,
    decimal_text, digit_char, escape_char, escaped, hex_char, indent, int_text, is_container, is_plain_key,
    is_word_char, json_scalar, key_chars, key_text, lower_char, lower_seq, nat_text, zeros,
};
use crate::object::{Decimal, Node, Val};
use crate::parser::{
    atom_end, atom_stop, atom_val, doc_spec, elements_ok, elements_spec, entries_spec, hex4, hex_spec, insert_spec,
    key_char, key_end, key_spec, keys_ok, members_ok, quoted_spec, skip_spec, space_char, trim_end, value_spec, Opts,
    MAX_DEPTH, fits_depth, doc_fits, lemma_fits_lower,
};
use crate::vars::expand_from;
use crate::scalar::{digit_run, digit_value, digits_value, is_digit, number_value, numeric, pow10, suffix_of, Numeric, Suffix};

verus! {

proof fn lemma_digit_char(k: nat)
    requires
        k < 10,
    ensures
        is_digit(digit_char(k)),
        digit_value(digit_char(k)) == k,
{
}

/// The decimal digits of `n` are digits, and they write `n`.
pub proof fn lemma_nat_text(n: nat)
    ensures
        nat_text(n).len() >= 1,
        forall|i: int| 0 <= i < nat_text(n).len() ==> is_digit(#[trigger] nat_text(n)[i]),
        digits_value(nat_text(n)) == n,
    decreases n,
{
    lemma_digit_char(n % 10);
    if n >= 10 {
        lemma_nat_text(n / 10);
        let t = nat_text(n);
        assert(t.drop_last() =~= nat_text(n / 10));
        assert(t.last() == digit_char(n % 10));
        assert((n / 10) * 10 + n % 10 == n) by (nonlinear_arith);
        assert forall|i: int| 0 <= i < t.len() implies is_digit(#[trigger] t[i]) by {
            if i < t.len() - 1 {
                assert(t[i] == nat_text(n / 10)[i]);
            }
        }
        assert(digits_value(t) == digits_value(t.drop_last()) * 10 + digit_value(t.last()));
    } else {
        lemma_digit_char(n);
        let t = nat_text(n);
        assert(t.drop_last() =~= Seq::<char>::empty());
        assert(digits_value(t) == digits_value(t.drop_last()) * 10 + digit_value(t.last()));
    }
}

proof fn lemma_digit_run_to_end(a: Seq<char>, i: int)
    requires
        0 <= i <= a.len(),
        forall|k: int| i <= k < a.len() ==> is_digit(#[trigger] a[k]),
    ensures
        digit_run(a, i) == a.len() - i,
    decreases a.len() - i,
{
    if i < a.len() {
        lemma_digit_run_to_end(a, i + 1);
    }
}

/// Reading back the text that the emitters write for an integer gives the
/// same integer, as a number and as a bare value.
pub proof fn lemma_int_text_reads_back(i: i64, no_time: bool, vars: Seq<(Seq<char>, Seq<char>)>)
    ensures
        numeric(int_text(i as int), no_time) == Numeric::Number(Val::Int(i)),
        atom_val(int_text(i as int), no_time, vars) == Some(Val::Int(i)),
{
    let a = int_text(i as int);
    let mag: nat = if i < 0 { (-i) as nat } else { i as nat };
    let t = nat_text(mag);
    lemma_nat_text(mag);
    let i0: int = if i < 0 { 1 } else { 0 };
    assert(a.subrange(i0, a.len() as int) =~= t);
    assert forall|k: int| i0 <= k < a.len() implies is_digit(#[trigger] a[k]) by {
        assert(a[k] == t[k - i0]);
    }
    assert(a.len() > 0 && (a[0] == '-') == (i < 0));
    lemma_digit_run_to_end(a, i0);
    assert(lower_seq(a.subrange(a.len() as int, a.len() as int)) =~= Seq::<char>::empty());
    reveal(suffix_of);
    reveal(number_value);
    assert(suffix_of(Seq::<char>::empty()) == Some(Suffix { mult: 1, exp: 0, time: false }));
    assert(pow10(0) == 1);
    assert(a.subrange(i0, a.len() as int) + Seq::<char>::empty() =~= t);
    let len = a.len() as int;
    let sf = Suffix { mult: 1, exp: 0, time: false };
    assert(digit_run(a, i0) == len - i0);
    assert(len - i0 >= 1);
    assert(numeric(a, no_time) == number_value(a, i < 0, i0, len, false, len, false, false, len, len, sf));
    assert(digits_value(a.subrange(i0, len) + Seq::<char>::empty()) == mag);
    assert((if i < 0 { -(mag as int) } else { mag as int }) == i);
    let sm: int = if i < 0 { -(mag as int) } else { mag as int };
    assert(pow10(sf.exp as nat) == 1);
    assert(sm * sf.mult * pow10(sf.exp as nat) == i);
    assert(number_value(a, i < 0, i0, len, false, len, false, false, len, len, sf) == Numeric::Number(Val::Int(i)));
    let l = lower_seq(a);
    assert(l[0] == lower_char(a[0]));
    assert(is_digit(a[0]) || a[0] == '-');
}

proof fn lemma_zeros_value(k: nat)
    ensures
        digits_value(zeros(k)) == 0,
        forall|i: int| 0 <= i < k ==> is_digit(#[trigger] zeros(k)[i]),
    decreases k,
{
    if k > 0 {
        lemma_zeros_value((k - 1) as nat);
        assert(zeros(k).drop_last() =~= zeros((k - 1) as nat));
    }
}

proof fn lemma_leading_zeros(z: Seq<char>, t: Seq<char>)
    requires
        digits_value(z) == 0,
    ensures
        digits_value(z + t) == digits_value(t),
    decreases t.len(),
{
    if t.len() == 0 {
        assert(z + t =~= z);
    } else {
        lemma_leading_zeros(z, t.drop_last());
        assert((z + t).drop_last() =~= z + t.drop_last());
        assert((z + t).last() == t.last());
    }
}

/// Reading back the text that the emitters write for a decimal gives the
/// same mantissa and exponent.
pub proof fn lemma_decimal_text_reads_back(d: Decimal, no_time: bool)
    ensures
        numeric(decimal_text(d), no_time) == Numeric::Number(Val::Float(d)),
{
    let mag = abs_nat(d.mantissa as int);
    lemma_nat_text(mag);
    if d.exponent >= 0 {
        lemma_decimal_with_exponent(d, no_time);
    } else if nat_text(mag).len() <= (-d.exponent) as nat {
        lemma_decimal_below_one(d, no_time);
    } else {
        lemma_decimal_with_point(d, no_time);
    }
}

proof fn lemma_number_value_float(a: Seq<char>, neg: bool, i0: int, i1: int, has_frac: bool, i2: int, has_exp: bool, j: int, i3: int, d: Decimal, mag: nat, x: int)
    requires
        d.mantissa == (if neg { -(mag as int) } else { mag as int }),
        digits_value(a.subrange(i0, i1) + if has_frac { a.subrange(i1 + 1, i2) } else { Seq::empty() }) == mag,
        has_frac || has_exp,
        (if has_exp { digits_value(a.subrange(j, i3)) } else { 0 }) - (if has_frac { i2 - i1 - 1 } else { 0 }) == d.exponent,
        x == 0,
    ensures
        number_value(a, neg, i0, i1, has_frac, i2, has_exp, false, j, i3, Suffix { mult: 1, exp: x, time: false })
            == Numeric::Number(Val::Float(d)),
{
    reveal(number_value);
    let m = mag as int;
    assert((if neg { -m } else { m }) * 1 == d.mantissa);
    assert(1int * digits_value(a.subrange(j, i3)) == digits_value(a.subrange(j, i3)));
}

proof fn lemma_bare_suffix(a: Seq<char>)
    ensures
        suffix_of(lower_seq(a.subrange(a.len() as int, a.len() as int))) == Some(Suffix { mult: 1, exp: 0, time: false }),
{
    reveal(suffix_of);
    assert(lower_seq(a.subrange(a.len() as int, a.len() as int)) =~= Seq::<char>::empty());
}

proof fn lemma_decimal_with_exponent(d: Decimal, no_time: bool)
    requires
        d.exponent >= 0,
    ensures
        numeric(decimal_text(d), no_time) == Numeric::Number(Val::Float(d)),
{
    let a = decimal_text(d);
    let mag = abs_nat(d.mantissa as int);
    let t = nat_text(mag);
    lemma_nat_text(mag);
    let neg = d.mantissa < 0;
    let i0: int = if neg { 1 } else { 0 };
    let sign = if neg { seq!['-'] } else { Seq::<char>::empty() };
    let len = a.len() as int;
    let et = nat_text(d.exponent as nat);
    lemma_nat_text(d.exponent as nat);
    assert(a =~= sign + t + seq!['e'] + et);
    let i1 = i0 + t.len();
    assert forall|k: int| i0 <= k < i1 implies is_digit(#[trigger] a[k]) by {
        assert(a[k] == t[k - i0]);
    }
    lemma_digit_run_prefix(a, i0, i1);
    let j = i1 + 1;
    assert forall|k: int| j <= k < len implies is_digit(#[trigger] a[k]) by {
        assert(a[k] == et[k - j]);
    }
    lemma_digit_run_to_end(a, j);
    assert(a.subrange(i0, i1) + Seq::<char>::empty() =~= t);
    assert(a.subrange(j, len) =~= et);
    lemma_bare_suffix(a);
    lemma_number_value_float(a, neg, i0, i1, false, i1, true, j, len, d, mag, 0);
}

proof fn lemma_decimal_below_one(d: Decimal, no_time: bool)
    requires
        d.exponent < 0,
        nat_text(abs_nat(d.mantissa as int)).len() <= (-d.exponent) as nat,
    ensures
        numeric(decimal_text(d), no_time) == Numeric::Number(Val::Float(d)),
{
    let a = decimal_text(d);
    let mag = abs_nat(d.mantissa as int);
    let t = nat_text(mag);
    lemma_nat_text(mag);
    let k = (-d.exponent) as nat;
    let neg = d.mantissa < 0;
    let i0: int = if neg { 1 } else { 0 };
    let sign = if neg { seq!['-'] } else { Seq::<char>::empty() };
    let len = a.len() as int;
    let zn = (k - t.len()) as nat;
    let z = zeros(zn);
    lemma_zeros_value(zn);
    assert(a =~= sign + seq!['0', '.'] + z + t);
    let i1 = i0 + 1;
    lemma_digit_run_prefix(a, i0, i1);
    assert forall|q: int| i1 + 1 <= q < len implies is_digit(#[trigger] a[q]) by {
        if q < i1 + 1 + z.len() {
            assert(a[q] == z[q - i1 - 1]);
        } else {
            assert(a[q] == t[q - i1 - 1 - z.len()]);
        }
    }
    lemma_digit_run_to_end(a, i1 + 1);
    let zz = zeros(zn + 1);
    lemma_zeros_value(zn + 1);
    assert(a.subrange(i0, i1) + a.subrange(i1 + 1, len) =~= zz + t);
    lemma_leading_zeros(zz, t);
    lemma_bare_suffix(a);
    lemma_number_value_float(a, neg, i0, i1, true, len, false, len, len, d, mag, 0);
}

proof fn lemma_decimal_with_point(d: Decimal, no_time: bool)
    requires
        d.exponent < 0,
        nat_text(abs_nat(d.mantissa as int)).len() > (-d.exponent) as nat,
    ensures
        numeric(decimal_text(d), no_time) == Numeric::Number(Val::Float(d)),
{
    let a = decimal_text(d);
    let mag = abs_nat(d.mantissa as int);
    let t = nat_text(mag);
    lemma_nat_text(mag);
    let k = (-d.exponent) as nat;
    let neg = d.mantissa < 0;
    let i0: int = if neg { 1 } else { 0 };
    let sign = if neg { seq!['-'] } else { Seq::<char>::empty() };
    let len = a.len() as int;
    let cut = t.len() - k;
    let hi = t.subrange(0, cut);
    let lo = t.subrange(cut, t.len() as int);
    assert(a =~= sign + hi + seq!['.'] + lo);
    let i1 = i0 + cut;
    assert forall|q: int| i0 <= q < i1 implies is_digit(#[trigger] a[q]) by {
        assert(a[q] == t[q - i0]);
    }
    lemma_digit_run_prefix(a, i0, i1);
    assert forall|q: int| i1 + 1 <= q < len implies is_digit(#[trigger] a[q]) by {
        assert(a[q] == t[q - i0 - 1]);
    }
    lemma_digit_run_to_end(a, i1 + 1);
    assert(a.subrange(i0, i1) + a.subrange(i1 + 1, len) =~= t);
    lemma_bare_suffix(a);
    lemma_number_value_float(a, neg, i0, i1, true, len, false, len, len, d, mag, 0);
}

proof fn lemma_digit_run_prefix(a: Seq<char>, i: int, e: int)
    requires
        0 <= i <= e < a.len(),
        forall|k: int| i <= k < e ==> is_digit(#[trigger] a[k]),
        !is_digit(a[e]),
    ensures
        digit_run(a, i) == e - i,
    decreases e - i,
{
    if i < e {
        lemma_digit_run_prefix(a, i + 1, e);
    }
}

/// Text `t` stands in `s` at `p`.
pub open spec fn at(s: Seq<char>, p: int, t: Seq<char>) -> bool {
    0 <= p && p + t.len() <= s.len() && s.subrange(p, p + t.len()) == t
}

proof fn lemma_at_index(s: Seq<char>, p: int, t: Seq<char>, k: int)
    requires
        at(s, p, t),
        0 <= k < t.len(),
    ensures
        s[p + k] == t[k],
{
    assert(s.subrange(p, p + t.len())[k] == s[p + k]);
}

proof fn lemma_at_split(s: Seq<char>, p: int, a: Seq<char>, b: Seq<char>)
    requires
        at(s, p, a + b),
    ensures
        at(s, p, a),
        at(s, p + a.len(), b),
{
    let w = s.subrange(p, p + (a + b).len());
    assert(w == a + b);
    assert(s.subrange(p, p + a.len()) =~= w.subrange(0, a.len() as int));
    assert(w.subrange(0, a.len() as int) =~= a);
    assert(s.subrange(p + a.len(), p + a.len() + b.len()) =~= w.subrange(a.len() as int, w.len() as int));
    assert(w.subrange(a.len() as int, w.len() as int) =~= b);
}

proof fn lemma_escaped_concat(a: Seq<char>, b: Seq<char>)
    ensures
        escaped(a + b) == escaped(a) + escaped(b),
    decreases b.len(),
{
    if b.len() == 0 {
        assert(a + b =~= a);
        assert(escaped(a) + escaped(b) =~= escaped(a));
    } else {
        lemma_escaped_concat(a, b.drop_last());
        assert((a + b).drop_last() =~= a + b.drop_last());
        assert((a + b).last() == b.last());
        assert(escaped(a) + escaped(b) =~= escaped(a) + escaped(b.drop_last()) + escape_char(b.last()));
    }
}

proof fn lemma_hex_char(k: nat)
    requires
        k < 16,
    ensures
        hex_spec(hex_char(k)) == Some(k as u32),
{
}

/// One escaped character decodes back to itself.
proof fn lemma_escape_char_decodes(s: Seq<char>, p: int, c: char, acc: Seq<char>)
    requires
        at(s, p, escape_char(c)),
    ensures
        quoted_spec(s, p, '"', acc) == quoted_spec(s, p + escape_char(c).len(), '"', acc.push(c)),
{
    let e = escape_char(c);
    lemma_at_index(s, p, e, 0);
    if e.len() >= 2 {
        lemma_at_index(s, p, e, 1);
    }
    if c == '"' || c == '\\' || c == '\n' || c == '\r' || c == '\t' {
    } else if (c as u32) < 0x20 {
        lemma_at_index(s, p, e, 2);
        lemma_at_index(s, p, e, 3);
        lemma_at_index(s, p, e, 4);
        lemma_at_index(s, p, e, 5);
        let hi = (c as u32 / 16) as nat;
        let lo = (c as u32 % 16) as nat;
        lemma_hex_char(hi);
        lemma_hex_char(lo);
        lemma_hex_char(0);
        assert(hex_char(0) == '0');
        assert(hex4(s, p + 2) == Some((((0u32 * 16 + 0) * 16 + hi as u32) * 16 + lo as u32) as u32));
        assert(((0u32 * 16 + 0) * 16 + hi as u32) * 16 + lo as u32 == c as u32);
    } else {
    }
}

/// A string written between double quotes reads back as itself.
pub proof fn lemma_quoted_reads_back(s: Seq<char>, p: int, t: Seq<char>, acc: Seq<char>)
    requires
        at(s, p, escaped(t) + seq!['"']),
    ensures
        quoted_spec(s, p, '"', acc) == Some((acc + t, p + escaped(t).len() + 1)),
    decreases t.len(),
{
    if t.len() == 0 {
        lemma_at_index(s, p, escaped(t) + seq!['"'], 0);
        assert(acc + t =~= acc);
    } else {
        let c = t[0];
        let rest = t.drop_first();
        assert(t =~= seq![c] + rest);
        lemma_escaped_concat(seq![c], rest);
        assert(seq![c].drop_last() =~= Seq::<char>::empty());
        assert(escaped(Seq::<char>::empty()) == Seq::<char>::empty());
        assert(escaped(seq![c]) == escaped(seq![c].drop_last()) + escape_char(seq![c].last()));
        assert(escaped(seq![c]) =~= escape_char(c));
        let ec = escape_char(c);
        assert(escaped(t) + seq!['"'] =~= ec + (escaped(rest) + seq!['"']));
        lemma_at_split(s, p, ec, escaped(rest) + seq!['"']);
        lemma_escape_char_decodes(s, p, c, acc);
        lemma_quoted_reads_back(s, p + ec.len(), rest, acc.push(c));
        assert(acc.push(c) + rest =~= acc + t);
    }
}

/// With no variables registered, expansion keeps the text as it is.
pub proof fn lemma_expand_nothing(a: Seq<char>, i: int)
    requires
        0 <= i <= a.len(),
    ensures
        expand_from(a, Seq::empty(), i) == a.subrange(i, a.len() as int),
    decreases a.len() - i,
{
    let vars = Seq::<(Seq<char>, Seq<char>)>::empty();
    if i < a.len() {
        if a[i] == '$' && i + 1 < a.len() && a[i + 1] == '{' && i < crate::vars::brace_pos(a, i + 2) < a.len() {
            let close = crate::vars::brace_pos(a, i + 2);
            lemma_expand_nothing(a, close + 1);
            assert(a.subrange(i, close + 1) + a.subrange(close + 1, a.len() as int) =~= a.subrange(i, a.len() as int));
        } else if a[i] == '$' && 0 < crate::vars::name_run(a, i + 1) && i + 1 + crate::vars::name_run(a, i + 1) <= a.len() {
            let end = i + 1 + crate::vars::name_run(a, i + 1);
            lemma_expand_nothing(a, end);
            assert(a.subrange(i, end) + a.subrange(end, a.len() as int) =~= a.subrange(i, a.len() as int));
        } else {
            lemma_expand_nothing(a, i + 1);
            assert(seq![a[i]] + a.subrange(i + 1, a.len() as int) =~= a.subrange(i, a.len() as int));
        }
    } else {
        assert(a.subrange(i, a.len() as int) =~= Seq::<char>::empty());
    }
}

pub open spec fn numeric_char(c: char) -> bool {
    is_digit(c) || c == '-' || c == '.' || c == 'e'
}

pub open spec fn numeric_text(a: Seq<char>) -> bool {
    &&& a.len() > 0
    &&& forall|k: int| 0 <= k < a.len() ==> numeric_char(#[trigger] a[k])
    &&& is_digit(a[0]) || a[0] == '-'
    &&& is_digit(a.last())
}

proof fn lemma_int_text_chars(i: int)
    ensures
        numeric_text(int_text(i)),
{
    let mag: nat = if i < 0 { (-i) as nat } else { i as nat };
    let t = nat_text(mag);
    lemma_nat_text(mag);
    let a = int_text(i);
    if i < 0 {
        assert forall|k: int| 0 <= k < a.len() implies numeric_char(#[trigger] a[k]) by {
            if k > 0 {
                assert(a[k] == t[k - 1]);
            }
        }
        assert(a.last() == t.last());
    } else {
        assert(a == t);
    }
}

proof fn lemma_decimal_text_chars(d: Decimal)
    ensures
        numeric_text(decimal_text(d)),
{
    let a = decimal_text(d);
    let mag = abs_nat(d.mantissa as int);
    let t = nat_text(mag);
    lemma_nat_text(mag);
    let neg = d.mantissa < 0;
    let sign = if neg { seq!['-'] } else { Seq::<char>::empty() };
    if d.exponent >= 0 {
        let et = nat_text(d.exponent as nat);
        lemma_nat_text(d.exponent as nat);
        let parts = sign + t + seq!['e'] + et;
        assert(a =~= parts);
        assert forall|k: int| 0 <= k < a.len() implies numeric_char(#[trigger] a[k]) by {
            if k < sign.len() {
            } else if k < sign.len() + t.len() {
                assert(a[k] == t[k - sign.len()]);
            } else if k == sign.len() + t.len() {
            } else {
                assert(a[k] == et[k - sign.len() - t.len() - 1]);
            }
        }
        assert(a.last() == et.last());
        if !neg {
            assert(a[0] == t[0]);
        }
    } else {
        let k = (-d.exponent) as nat;
        if t.len() <= k {
            let zn = (k - t.len()) as nat;
            let z = zeros(zn);
            lemma_zeros_value(zn);
            assert(a =~= sign + seq!['0', '.'] + z + t);
            assert forall|q: int| 0 <= q < a.len() implies numeric_char(#[trigger] a[q]) by {
                if q < sign.len() + 2 {
                } else if q < sign.len() + 2 + z.len() {
                    assert(a[q] == z[q - sign.len() - 2]);
                } else {
                    assert(a[q] == t[q - sign.len() - 2 - z.len()]);
                }
            }
            assert(a.last() == t.last());
        } else {
            let cut = t.len() - k;
            let hi = t.subrange(0, cut);
            let lo = t.subrange(cut, t.len() as int);
            assert(a =~= sign + hi + seq!['.'] + lo);
            assert forall|q: int| 0 <= q < a.len() implies numeric_char(#[trigger] a[q]) by {
                if q < sign.len() {
                } else if q < sign.len() + hi.len() {
                    assert(a[q] == t[q - sign.len()]);
                } else if q == sign.len() + hi.len() {
                } else {
                    assert(a[q] == t[q - sign.len() - 1]);
                }
            }
            assert(a.last() == t.last());
            if !neg {
                assert(a[0] == t[0]);
            }
        }
    }
}

proof fn lemma_atom_end_run(s: Seq<char>, p: int, e: int)
    requires
        0 <= p <= e <= s.len(),
        forall|k: int| p <= k < e ==> !atom_stop(#[trigger] s[k]) && s[k] != '$',
        e == s.len() || atom_stop(s[e]),
    ensures
        atom_end(s, p) == e,
    decreases e - p,
{
    if p < e {
        lemma_atom_end_run(s, p + 1, e);
    }
}

proof fn lemma_not_word(a: Seq<char>)
    requires
        a.len() > 0,
        is_digit(a[0]) || a[0] == '-',
    ensures
        crate::scalar::boolean_word(a) is None,
        !crate::scalar::is_null_word(a),
{
    let l = lower_seq(a);
    assert(l[0] == lower_char(a[0]));
    assert(l[0] == a[0]);
}

/// A scalar written by the emitters reads back as the same value, when a
/// `;` or `,` follows it and no variable is registered.
pub proof fn lemma_scalar_reads_back(s: Seq<char>, p: int, v: Val, d: int, o: Opts)
    requires
        !(v is Array),
        !(v is Object),
        at(s, p, json_scalar(v)),
        p + json_scalar(v).len() < s.len(),
        s[p + json_scalar(v).len()] == ';' || s[p + json_scalar(v).len()] == ',',
        0 <= d <= MAX_DEPTH,
        o.vars == Seq::<(Seq<char>, Seq<char>)>::empty(),
    ensures
        value_spec(s, p, d, o) == Ok::<(Node, int), crate::error::UclErrorType>((Node { key: None, val: v }, p + json_scalar(v).len())),
{
    let a = json_scalar(v);
    let e = p + a.len();
    lemma_at_index(s, p, a, 0);
    match v {
        Val::Str(t) => {
            assert(a =~= seq!['"'] + (escaped(t) + seq!['"']));
            lemma_at_split(s, p, seq!['"'], escaped(t) + seq!['"']);
            lemma_quoted_reads_back(s, p + 1, t, Seq::empty());
            assert(Seq::<char>::empty() + t =~= t);
            lemma_expand_nothing(t, 0);
            assert(t.subrange(0, t.len() as int) =~= t);
        },
        _ => {
            let chars_ok = forall|k: int| 0 <= k < a.len() ==> !atom_stop(#[trigger] a[k]) && a[k] != '$' && a[k] != ' '
                && a[k] != '\t';
            match v {
                Val::Int(i) => {
                    lemma_int_text_chars(i as int);
                    lemma_int_text_reads_back(i, o.no_time, o.vars);
                    lemma_not_word(a);
                },
                Val::Float(dd) => {
                    lemma_decimal_text_chars(dd);
                    lemma_decimal_text_reads_back(dd, o.no_time);
                    lemma_not_word(a);
                },
                _ => {},
            }
            assert(chars_ok);
            assert forall|k: int| p <= k < e implies !atom_stop(#[trigger] s[k]) && s[k] != '$' by {
                lemma_at_index(s, p, a, k - p);
            }
            lemma_atom_end_run(s, p, e);
            lemma_at_index(s, p, a, a.len() - 1);
            assert(trim_end(s, p, e) == e);
            assert(s.subrange(p, e) == a);
            if v is Boolean || v is Null {
                assert(lower_seq(a) =~= a);
            }
        },
    }
}

/// Blanks and line breaks fill `s[x..y]`.
pub open spec fn blank(s: Seq<char>, x: int, y: int) -> bool {
    0 <= x <= y <= s.len() && forall|k: int| x <= k < y ==> (#[trigger] s[k] == ' ' || s[k] == '\n')
}

/// A character at which skipping stops.
pub open spec fn stops_skip(c: char) -> bool {
    !(space_char(c) || c == '#' || c == '/')
}

proof fn lemma_skip_blank(s: Seq<char>, x: int, y: int)
    requires
        blank(s, x, y),
        y == s.len() || stops_skip(s[y]),
    ensures
        skip_spec(s, x) == Some(y),
    decreases y - x,
{
    if x < y {
        lemma_skip_blank(s, x + 1, y);
    }
}

proof fn lemma_blank_indent(s: Seq<char>, y: int, d: nat, rest: Seq<char>)
    requires
        at(s, y, indent(d, false) + rest),
    ensures
        blank(s, y, y + 4 * d),
        at(s, y + 4 * d, rest),
{
    lemma_at_split(s, y, indent(d, false), rest);
    assert forall|k: int| y <= k < y + 4 * d implies (#[trigger] s[k] == ' ' || s[k] == '\n') by {
        lemma_at_index(s, y, indent(d, false), k - y);
    }
}

pub open spec fn entry_text(n: Node, d: nat) -> Seq<char> {
    config_entry_prefix(n, d) + config_value(n, d) + config_entry_suffix(n)
}

pub open spec fn entries_tail(items: Seq<Node>, j: int, d: nat) -> Seq<char>
    decreases items.len() - j,
{
    if 0 <= j < items.len() {
        entry_text(items[j], d) + entries_tail(items, j + 1, d)
    } else {
        Seq::empty()
    }
}

pub open spec fn elem_text(n: Node, d: nat) -> Seq<char> {
    indent(d, false) + config_value(n, d) + seq![',', '\n']
}

pub open spec fn elems_tail(items: Seq<Node>, j: int, d: nat) -> Seq<char>
    decreases items.len() - j,
{
    if 0 <= j < items.len() {
        elem_text(items[j], d) + elems_tail(items, j + 1, d)
    } else {
        Seq::empty()
    }
}

proof fn lemma_entries_split(items: Seq<Node>, j: int, d: nat)
    requires
        0 <= j <= items.len(),
    ensures
        config_entries(items.take(j), d) + entries_tail(items, j, d) == config_entries(items, d),
    decreases items.len() - j,
{
    if j == items.len() {
        assert(items.take(j) =~= items);
        assert(config_entries(items, d) + Seq::<char>::empty() =~= config_entries(items, d));
    } else {
        lemma_entries_split(items, j + 1, d);
        let t = items.take(j + 1);
        assert(t.drop_last() =~= items.take(j));
        assert(t.last() == items[j]);
        assert(config_entries(t, d) == config_entries(items.take(j), d) + entry_text(items[j], d));
        assert(config_entries(items.take(j), d) + entries_tail(items, j, d) =~= config_entries(t, d) + entries_tail(items, j + 1, d));
    }
}

proof fn lemma_elems_split(items: Seq<Node>, j: int, d: nat)
    requires
        0 <= j <= items.len(),
    ensures
        config_elems(items.take(j), d) + elems_tail(items, j, d) == config_elems(items, d),
    decreases items.len() - j,
{
    if j == items.len() {
        assert(items.take(j) =~= items);
        assert(config_elems(items, d) + Seq::<char>::empty() =~= config_elems(items, d));
    } else {
        lemma_elems_split(items, j + 1, d);
        let t = items.take(j + 1);
        assert(t.drop_last() =~= items.take(j));
        assert(t.last() == items[j]);
        assert(config_elems(t, d) == config_elems(items.take(j), d) + elem_text(items[j], d));
        assert(config_elems(items.take(j), d) + elems_tail(items, j, d) =~= config_elems(t, d) + elems_tail(items, j + 1, d));
    }
}

/// The first character of a value in the configuration syntax: a bracket, a
/// brace, a quote, a digit, a minus or a letter.
proof fn lemma_value_start(n: Node, d: nat)
    ensures
        config_value(n, d).len() > 0,
        stops_skip(config_value(n, d)[0]),
        !(config_value(n, d)[0] == ';' || config_value(n, d)[0] == ',' || config_value(n, d)[0] == '}'
            || config_value(n, d)[0] == ']'),
        (config_value(n, d)[0] == '{') == (n.val is Object),
        (config_value(n, d)[0] == '[') == (n.val is Array),
        !(config_value(n, d)[0] == '=' || config_value(n, d)[0] == ':'),
{
    match n.val {
        Val::Int(i) => lemma_int_text_chars(i as int),
        Val::Float(f) => lemma_decimal_text_chars(f),
        _ => {},
    }
}

/// A key written by the emitter reads back as itself; a blank follows it.
proof fn lemma_key_reads_back(s: Seq<char>, q: int, k: Seq<char>)
    requires
        at(s, q, key_text(k)),
        q + key_text(k).len() < s.len(),
        s[q + key_text(k).len()] == ' ',
    ensures
        key_spec(s, q) == Some((k, q + key_text(k).len())),
        key_text(k).len() > 0,
        stops_skip(s[q]),
        !(s[q] == '}' || s[q] == ';' || s[q] == ',' || s[q] == '.' || s[q] == '{' || s[q] == '['),
{
    let kt = key_text(k);
    if is_plain_key(k) {
        lemma_at_index(s, q, kt, 0);
        assert(is_word_char(k[0]));
        assert forall|i: int| q <= i < q + k.len() implies key_char(#[trigger] s[i]) by {
            lemma_at_index(s, q, kt, i - q);
            assert(is_word_char(k[i - q]));
        }
        lemma_key_end_run(s, q, q + k.len());
    } else {
        assert(kt =~= seq!['"'] + escaped(k) + seq!['"']);
        assert(at(s, q, seq!['"'] + (escaped(k) + seq!['"']))) by {
            assert(seq!['"'] + (escaped(k) + seq!['"']) =~= kt);
        }
        lemma_at_split(s, q, seq!['"'], escaped(k) + seq!['"']);
        lemma_at_index(s, q, kt, 0);
        lemma_quoted_reads_back(s, q + 1, k, Seq::empty());
        assert(Seq::<char>::empty() + k =~= k);
    }
}

proof fn lemma_key_end_run(s: Seq<char>, q: int, e: int)
    requires
        0 <= q <= e < s.len(),
        forall|i: int| q <= i < e ==> key_char(#[trigger] s[i]),
        !key_char(s[e]),
    ensures
        key_end(s, q) == e,
    decreases e - q,
{
    if q < e {
        lemma_key_end_run(s, q + 1, e);
    }
}

/// Options under which text reads back as written: keys kept as they are,
/// repeated keys accepted, no variables.
pub open spec fn plain(o: Opts) -> bool {
    !o.lower && !o.no_implicit && o.vars == Seq::<(Seq<char>, Seq<char>)>::empty()
}

pub open spec fn closing(d: int, braced: bool, close: char) -> Seq<char> {
    if braced { indent((d - 1) as nat, false) + seq![close] } else { Seq::empty() }
}

proof fn lemma_blank_join(s: Seq<char>, x: int, y: int, z: int)
    requires
        blank(s, x, y),
        blank(s, y, z),
    ensures
        blank(s, x, z),
{
    assert forall|k: int| x <= k < z implies (#[trigger] s[k] == ' ' || s[k] == '\n') by {
        if k < y {
        } else {
        }
    }
}

proof fn lemma_value_reads_back(s: Seq<char>, p: int, n: Node, d: int, o: Opts)
    requires
        plain(o),
        0 <= d <= MAX_DEPTH,
        at(s, p, config_value(n, d as nat)),
        keys_ok(n, false),
        fits_depth(n, d),
        !is_container(n) ==> p + config_value(n, d as nat).len() < s.len() && (s[p + config_value(n, d as nat).len()] == ';'
            || s[p + config_value(n, d as nat).len()] == ','),
    ensures
        val_at(s, p, d, o) == Ok::<(Node, int), crate::error::UclErrorType>((Node { key: None, val: n.val }, p + config_value(n, d as nat).len())),
    decreases n, 0int,
{
    reveal(val_at);
    reveal(ent);
    let cv = config_value(n, d as nat);
    match n.val {
        Val::Object(items) => {
            let body = config_entries(items, (d + 1) as nat);
            let cl = closing(d + 1, true, '}');
            assert(cl =~= indent(d as nat, false) + seq!['}']);
            assert(cv =~= seq!['{'] + (seq!['\n'] + (body + cl)));
            lemma_at_split(s, p, seq!['{'], seq!['\n'] + (body + cl));
            lemma_at_split(s, p + 1, seq!['\n'], body + cl);
            lemma_at_index(s, p, cv, 0);
            lemma_at_index(s, p + 1, seq!['\n'] + (body + cl), 0);
            lemma_entries_split(items, 0, (d + 1) as nat);
            assert(items.take(0) =~= Seq::<Node>::empty());
            assert(entries_tail(items, 0, (d + 1) as nat) == body);
            assert forall|i: int| 0 <= i < items.len() implies fits_depth(#[trigger] items[i], d + 1) by {}
            lemma_entries_reads_back(s, p + 1, p + 2, items, 0, d + 1, true, o);
        },
        Val::Array(items) => {
            let body = config_elems(items, (d + 1) as nat);
            let cl = closing(d + 1, true, ']');
            assert(cl =~= indent(d as nat, false) + seq![']']);
            assert(cv =~= seq!['['] + (seq!['\n'] + (body + cl)));
            lemma_at_split(s, p, seq!['['], seq!['\n'] + (body + cl));
            lemma_at_split(s, p + 1, seq!['\n'], body + cl);
            lemma_at_index(s, p, cv, 0);
            lemma_at_index(s, p + 1, seq!['\n'] + (body + cl), 0);
            lemma_elems_split(items, 0, (d + 1) as nat);
            assert(items.take(0) =~= Seq::<Node>::empty());
            assert(elems_tail(items, 0, (d + 1) as nat) == body);
            lemma_elems_reads_back(s, p + 1, p + 2, items, 0, d + 1, o);
        },
        _ => {
            lemma_scalar_reads_back(s, p, n.val, d, o);
        },
    }
}

/// `entries_spec`, kept folded in the proofs below.
#[verifier::opaque]
pub open spec fn ent(s: Seq<char>, x: int, d: int, braced: bool, o: Opts, acc: Seq<Node>) -> Result<(Seq<Node>, int), crate::error::UclErrorType> {
    entries_spec(s, x, d, braced, o, acc)
}

/// `value_spec`, kept folded in the proofs below.
#[verifier::opaque]
pub open spec fn val_at(s: Seq<char>, p: int, d: int, o: Opts) -> Result<(Node, int), crate::error::UclErrorType> {
    value_spec(s, p, d, o)
}

proof fn lemma_entries_step(
    s: Seq<char>,
    x: int,
    d: int,
    braced: bool,
    o: Opts,
    acc: Seq<Node>,
    q: int,
    k: Seq<char>,
    ak: int,
    v0: int,
    v1: int,
    v: Node,
    next: int,
    acc2: Seq<Node>,
)
    requires
        0 <= d <= MAX_DEPTH,
        0 <= x <= s.len(),
        skip_spec(s, x) == Some(q),
        x <= q < s.len(),
        !(braced && s[q] == '}'),
        !(s[q] == ';' || s[q] == ','),
        s[q] != '.',
        key_spec(s, q) == Some((k, ak)),
        !o.lower,
        skip_spec(s, ak) == Some(v0),
        (if 0 <= v0 < s.len() && (s[v0] == '=' || s[v0] == ':') { skip_spec(s, v0 + 1) } else { Some(v0) }) == Some(v1),
        0 <= v1 < s.len(),
        !(s[v1] == ';' || s[v1] == ',' || s[v1] == '}' || s[v1] == ']'),
        val_at(s, v1, d, o) == Ok::<(Node, int), crate::error::UclErrorType>((v, next)),
        insert_spec(acc, k, v.val, o.no_implicit) == Some(acc2),
        x < next <= s.len(),
    ensures
        ent(s, x, d, braced, o, acc) == ent(s, next, d, braced, o, acc2),
{
    reveal(ent);
    reveal(val_at);
}

proof fn lemma_entries_sep(s: Seq<char>, x: int, d: int, braced: bool, o: Opts, acc: Seq<Node>)
    requires
        0 <= d <= MAX_DEPTH,
        0 <= x < s.len(),
        skip_spec(s, x) == Some(x),
        s[x] == ';' || s[x] == ',',
    ensures
        ent(s, x, d, braced, o, acc) == ent(s, x + 1, d, braced, o, acc),
{
    reveal(ent);
}

proof fn lemma_entries_end(s: Seq<char>, x: int, z: int, d: int, braced: bool, o: Opts, acc: Seq<Node>)
    requires
        0 <= d <= MAX_DEPTH,
        0 <= x <= z <= s.len(),
        skip_spec(s, x) == Some(z),
        braced ==> z < s.len() && s[z] == '}',
        !braced ==> z == s.len(),
    ensures
        ent(s, x, d, braced, o, acc) == Ok::<(Seq<Node>, int), crate::error::UclErrorType>((
            acc,
            if braced { z + 1 } else { z },
        )),
{
    reveal(ent);
}

proof fn lemma_elems_step(s: Seq<char>, x: int, d: int, o: Opts, acc: Seq<Node>, q: int, v: Node, next: int)
    requires
        0 <= d <= MAX_DEPTH,
        0 <= x <= s.len(),
        skip_spec(s, x) == Some(q),
        x <= q < s.len(),
        !(s[q] == ']' || s[q] == ';' || s[q] == ','),
        val_at(s, q, d, o) == Ok::<(Node, int), crate::error::UclErrorType>((v, next)),
        x < next <= s.len(),
    ensures
        elements_spec(s, x, d, o, acc) == elements_spec(s, next, d, o, acc.push(v)),
{
    reveal(val_at);
}

proof fn lemma_elems_sep(s: Seq<char>, x: int, d: int, o: Opts, acc: Seq<Node>)
    requires
        0 <= d <= MAX_DEPTH,
        0 <= x < s.len(),
        skip_spec(s, x) == Some(x),
        s[x] == ',',
    ensures
        elements_spec(s, x, d, o, acc) == elements_spec(s, x + 1, d, o, acc),
{
}

proof fn lemma_elems_end(s: Seq<char>, x: int, z: int, d: int, o: Opts, acc: Seq<Node>)
    requires
        0 <= d <= MAX_DEPTH,
        0 <= x <= z < s.len(),
        skip_spec(s, x) == Some(z),
        s[z] == ']',
    ensures
        elements_spec(s, x, d, o, acc) == Ok::<(Seq<Node>, int), crate::error::UclErrorType>((acc, z + 1)),
{
}

#[verifier::rlimit(100)]
proof fn lemma_entries_reads_back(s: Seq<char>, x: int, y: int, items: Seq<Node>, j: int, d: int, braced: bool, o: Opts)
    requires
        plain(o),
        0 <= j <= items.len(),
        0 <= d <= MAX_DEPTH,
        braced ==> d >= 1,
        members_ok(items, false),
        forall|i: int| 0 <= i < items.len() ==> fits_depth(#[trigger] items[i], d),
        blank(s, x, y),
        at(s, y, entries_tail(items, j, d as nat) + closing(d, braced, '}')),
        !braced ==> y + entries_tail(items, j, d as nat).len() == s.len(),
    ensures
        ent(s, x, d, braced, o, items.take(j)) == Ok::<(Seq<Node>, int), crate::error::UclErrorType>((
            items,
            y + entries_tail(items, j, d as nat).len() + closing(d, braced, '}').len(),
        )),
    decreases items, items.len() - j,
{
    let cl = closing(d, braced, '}');
    if j == items.len() {
        assert(items.take(j) =~= items);
        assert(entries_tail(items, j, d as nat) =~= Seq::<char>::empty());
        assert(Seq::<char>::empty() + cl =~= cl);
        if braced {
            lemma_blank_indent(s, y, (d - 1) as nat, seq!['}']);
            let z = y + 4 * (d - 1);
            lemma_at_index(s, z, seq!['}'], 0);
            lemma_blank_join(s, x, y, z);
            lemma_skip_blank(s, x, z);
            lemma_entries_end(s, x, z, d, braced, o, items.take(j));
        } else {
            lemma_skip_blank(s, x, y);
            lemma_entries_end(s, x, y, d, braced, o, items.take(j));
        }
    } else {
        let n = items[j];
        let k = key_chars(n);
        assert(n.key == Some(k));
        let cont = is_container(n);
        let ind = indent(d as nat, false);
        let kt = key_text(k);
        let sep = if cont { seq![' '] } else { seq![' ', '=', ' '] };
        let cv = config_value(n, d as nat);
        let suf = config_entry_suffix(n);
        let rest = entries_tail(items, j + 1, d as nat) + cl;
        assert(entries_tail(items, j, d as nat) + cl =~= ind + (kt + (sep + (cv + (suf + rest)))));
        lemma_blank_indent(s, y, d as nat, kt + (sep + (cv + (suf + rest))));
        let q = y + 4 * d;
        lemma_blank_join(s, x, y, q);
        lemma_at_split(s, q, kt, sep + (cv + (suf + rest)));
        let ak = q + kt.len();
        lemma_at_split(s, ak, sep, cv + (suf + rest));
        lemma_at_index(s, ak, sep, 0);
        lemma_key_reads_back(s, q, k);
        lemma_skip_blank(s, x, q);
        let v1 = ak + sep.len();
        lemma_at_split(s, v1, cv, suf + rest);
        lemma_value_start(n, d as nat);
        lemma_at_index(s, v1, cv, 0);
        let v0 = ak + 1;
        if cont {
            lemma_skip_blank(s, ak, ak + 1);
        } else {
            lemma_at_index(s, ak, sep, 1);
            lemma_at_index(s, ak, sep, 2);
            lemma_skip_blank(s, ak, ak + 1);
            lemma_skip_blank(s, ak + 2, ak + 3);
        }
        let next = v1 + cv.len();
        lemma_at_split(s, next, suf, rest);
        lemma_at_index(s, next, suf, 0);
        assert(keys_ok(n, false));
        lemma_value_reads_back(s, v1, n, d, o);
        assert(items.take(j).push(n) =~= items.take(j + 1));
        assert(Node { key: Some(k), val: n.val } == n);
        lemma_entries_step(
            s, x, d, braced, o, items.take(j), q, k, ak, v0, v1, Node { key: None, val: n.val }, next,
            items.take(j + 1),
        );
        if cont {
            lemma_at_index(s, next, suf, 0);
            lemma_entries_reads_back(s, next, next + 1, items, j + 1, d, braced, o);
        } else {
            lemma_at_index(s, next, suf, 1);
            lemma_skip_blank(s, next, next);
            lemma_entries_sep(s, next, d, braced, o, items.take(j + 1));
            lemma_entries_reads_back(s, next + 1, next + 2, items, j + 1, d, braced, o);
        }
    }
}

proof fn lemma_elems_reads_back(s: Seq<char>, x: int, y: int, items: Seq<Node>, j: int, d: int, o: Opts)
    requires
        plain(o),
        0 <= j <= items.len(),
        1 <= d <= MAX_DEPTH,
        elements_ok(items, false),
        forall|i: int| 0 <= i < items.len() ==> fits_depth(#[trigger] items[i], d),
        blank(s, x, y),
        at(s, y, elems_tail(items, j, d as nat) + closing(d, true, ']')),
    ensures
        elements_spec(s, x, d, o, items.take(j)) == Ok::<(Seq<Node>, int), crate::error::UclErrorType>((
            items,
            y + elems_tail(items, j, d as nat).len() + closing(d, true, ']').len(),
        )),
    decreases items, items.len() - j,
{
    let cl = closing(d, true, ']');
    if j == items.len() {
        assert(items.take(j) =~= items);
        assert(elems_tail(items, j, d as nat) =~= Seq::<char>::empty());
        assert(Seq::<char>::empty() + cl =~= cl);
        lemma_blank_indent(s, y, (d - 1) as nat, seq![']']);
        let z = y + 4 * (d - 1);
        lemma_at_index(s, z, seq![']'], 0);
        lemma_blank_join(s, x, y, z);
        lemma_skip_blank(s, x, z);
        lemma_elems_end(s, x, z, d, o, items.take(j));
    } else {
        let n = items[j];
        let ind = indent(d as nat, false);
        let cv = config_value(n, d as nat);
        let suf = seq![',', '\n'];
        let rest = elems_tail(items, j + 1, d as nat) + cl;
        assert(elems_tail(items, j, d as nat) + cl =~= ind + (cv + (suf + rest)));
        lemma_blank_indent(s, y, d as nat, cv + (suf + rest));
        let q = y + 4 * d;
        lemma_blank_join(s, x, y, q);
        lemma_at_split(s, q, cv, suf + rest);
        lemma_value_start(n, d as nat);
        lemma_at_index(s, q, cv, 0);
        lemma_skip_blank(s, x, q);
        let next = q + cv.len();
        lemma_at_split(s, next, suf, rest);
        lemma_at_index(s, next, suf, 0);
        lemma_at_index(s, next, suf, 1);
        assert(keys_ok(n, false));
        lemma_value_reads_back(s, q, n, d, o);
        assert(n.key is None);
        assert(Node { key: None, val: n.val } == n);
        assert(items.take(j).push(n) =~= items.take(j + 1));
        lemma_elems_step(s, x, d, o, items.take(j), q, n, next);
        lemma_skip_blank(s, next, next);
        lemma_elems_sep(s, next, d, o, items.take(j + 1));
        lemma_elems_reads_back(s, next + 1, next + 2, items, j + 1, d, o);
    }
}

proof fn lemma_doc_members(s: Seq<char>, o: Opts, items: Seq<Node>, end: int)
    requires
        skip_spec(s, 0) == Some(0int),
        s.len() == 0 || !(s[0] == '{' || s[0] == '['),
        ent(s, 0, 0, false, o, Seq::empty()) == Ok::<(Seq<Node>, int), crate::error::UclErrorType>((items, end)),
    ensures
        doc_spec(s, o) == Ok::<Node, crate::error::UclErrorType>(Node { key: None, val: Val::Object(items) }),
{
    reveal(ent);
}

proof fn lemma_doc_container(s: Seq<char>, o: Opts, root: Node)
    requires
        skip_spec(s, 0) == Some(0int),
        s.len() > 0 && (s[0] == '{' || s[0] == '['),
        val_at(s, 0, 0, o) == Ok::<(Node, int), crate::error::UclErrorType>((root, s.len() as int)),
        skip_spec(s, s.len() as int) == Some(s.len() as int),
        root.val is Object || root.val is Array,
    ensures
        doc_spec(s, o) == Ok::<Node, crate::error::UclErrorType>(root),
{
    reveal(val_at);
}

proof fn lemma_first_key(items: Seq<Node>, s: Seq<char>)
    requires
        items.len() > 0,
        members_ok(items, false),
        s == entries_tail(items, 0, 0),
    ensures
        stops_skip(s[0]),
        !(s[0] == '{' || s[0] == '['),
{
    let n0 = items[0];
    let k = key_chars(n0);
    assert(n0.key == Some(k));
    let kt = key_text(k);
    let sep = if is_container(n0) { seq![' '] } else { seq![' ', '=', ' '] };
    let rest = config_value(n0, 0) + config_entry_suffix(n0) + entries_tail(items, 1, 0);
    assert(indent(0, false) =~= Seq::<char>::empty());
    assert(s =~= kt + (sep + rest));
    assert(s.subrange(0, s.len() as int) =~= s);
    lemma_at_split(s, 0, kt, sep + rest);
    lemma_at_index(s, kt.len() as int, sep + rest, 0);
    lemma_key_reads_back(s, 0, k);
}

proof fn lemma_round_trip_object(n: Node, o: Opts)
    requires
        plain(o),
        n.key is None,
        n.val is Object,
        keys_ok(n, false),
        doc_fits(n),
    ensures
        doc_spec(config_doc(n), o) == Ok::<Node, crate::error::UclErrorType>(n),
{
    let s = config_doc(n);
    let items = n.val->Object_0;
    assert(s.subrange(0, s.len() as int) =~= s);
    lemma_entries_split(items, 0, 0);
    assert(items.take(0) =~= Seq::<Node>::empty());
    assert(entries_tail(items, 0, 0) == s);
    assert(s + closing(0, false, '}') =~= s);
    lemma_entries_reads_back(s, 0, 0, items, 0, 0, false, o);
    if items.len() > 0 {
        lemma_first_key(items, s);
    }
    lemma_skip_blank(s, 0, 0);
    lemma_doc_members(s, o, items, s.len() as int);
}

proof fn lemma_round_trip_array(n: Node, o: Opts)
    requires
        plain(o),
        n.key is None,
        n.val is Array,
        keys_ok(n, false),
        doc_fits(n),
    ensures
        doc_spec(config_doc(n), o) == Ok::<Node, crate::error::UclErrorType>(n),
{
    let s = config_doc(n);
    assert(s == config_value(n, 0));
    assert(s.subrange(0, s.len() as int) =~= s);
    lemma_value_reads_back(s, 0, n, 0, o);
    lemma_value_start(n, 0);
    lemma_skip_blank(s, 0, 0);
    lemma_skip_blank(s, s.len() as int, s.len() as int);
    lemma_doc_container(s, o, n);
}

/// Keys in lower case are keys all the same: what holds of a tree read with
/// keys folded holds of it read without.
pub proof fn lemma_keys_ok_unfolded(n: Node, lower: bool)
    requires
        keys_ok(n, lower),
    ensures
        keys_ok(n, false),
    decreases n,
{
    match n.val {
        Val::Object(items) => {
            assert forall|i: int| 0 <= i < items.len() implies keys_ok(#[trigger] items[i], false) by {
                lemma_keys_ok_unfolded(items[i], lower);
            }
        },
        Val::Array(items) => {
            assert forall|i: int| 0 <= i < items.len() implies keys_ok(#[trigger] items[i], false) by {
                lemma_keys_ok_unfolded(items[i], lower);
            }
        },
        _ => {},
    }
}

/// Reading back the configuration text of a tree gives the same tree. The
/// requirements are what `Parser::parse` and `Parser::finish` ensure of every
/// tree they return (members keyed, elements without keys, nesting within
/// the limit), so for any parsed tree, parsing `config_doc(n)` with keys kept
/// as they are and no variables yields `n` again: the same keys, in the same
/// order, the same types and the same scalar values.
pub proof fn lemma_config_round_trip(n: Node, lower: bool, o: Opts)
    requires
        plain(o),
        n.key is None,
        n.val is Object || n.val is Array,
        keys_ok(n, lower),
        doc_fits(n),
    ensures
        doc_spec(config_doc(n), o) == Ok::<Node, crate::error::UclErrorType>(n),
{
    lemma_keys_ok_unfolded(n, lower);
    if n.val is Object {
        lemma_round_trip_object(n, o);
    } else {
        lemma_round_trip_array(n, o);
    }
}

} // verus!
