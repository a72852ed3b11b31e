use vstd::prelude::*;
use crate::object::{lemma_view, nodes, Decimal, Node, Object, Val, Value};
use crate::text::string_from_chars;
use crate::group::{group_view, grouped};
use crate::msgpack::{float_count, msgpack, msgpack_of};
use vstd::utf8::encode_utf8;

verus! {

// ---------------------------------------------------------------------------
// Text of scalars
// ---------------------------------------------------------------------------

pub open spec fn digit_char(k: nat) -> char {
    if k == 0 { '0' }
    else if k == 1 { '1' }
    else if k == 2 { '2' }
    else if k == 3 { '3' }
    else if k == 4 { '4' }
    else if k == 5 { '5' }
    else if k == 6 { '6' }
    else if k == 7 { '7' }
    else if k == 8 { '8' }
    else { '9' }
}

/// Decimal digits of a natural number, most significant first.
pub open spec fn nat_text(n: nat) -> Seq<char>
    decreases n,
{
    if n < 10 {
        seq![digit_char(n)]
    } else {
        nat_text(n / 10) + seq![digit_char(n % 10)]
    }
}

/// Decimal text of an integer, with a leading `-` when negative.
pub open spec fn int_text(i: int) -> Seq<char> {
    if i < 0 {
        seq!['-'] + nat_text((-i) as nat)
    } else {
        nat_text(i as nat)
    }
}

pub open spec fn zeros(k: nat) -> Seq<char> {
    Seq::new(k, |i: int| '0')
}

pub open spec fn abs_nat(i: int) -> nat {
    if i < 0 { (-i) as nat } else { i as nat }
}

/// Text of a decimal `m × 10^e`: with a decimal point and `-e` fraction
/// digits when `e < 0`, else the digits of `m`, `e` and the exponent.
pub open spec fn decimal_text(d: Decimal) -> Seq<char> {
    let sign = if d.mantissa < 0 { seq!['-'] } else { Seq::<char>::empty() };
    let s = nat_text(abs_nat(d.mantissa as int));
    if d.exponent >= 0 {
        sign + s + seq!['e'] + nat_text(d.exponent as nat)
    } else {
        let k = (-d.exponent) as nat;
        if s.len() <= k {
            sign + seq!['0', '.'] + zeros((k - s.len()) as nat) + s
        } else {
            sign + s.subrange(0, s.len() - k) + seq!['.'] + s.subrange(s.len() - k, s.len() as int)
        }
    }
}

pub open spec fn hex_char(k: nat) -> char {
    if k < 10 {
        digit_char(k)
    } else if k == 10 { 'a' }
    else if k == 11 { 'b' }
    else if k == 12 { 'c' }
    else if k == 13 { 'd' }
    else if k == 14 { 'e' }
    else { 'f' }
}

/// The escaped form of one character inside a double-quoted string.
pub open spec fn escape_char(c: char) -> Seq<char> {
    if c == '"' {
        seq!['\\', '"']
    } else if c == '\\' {
        seq!['\\', '\\']
    } else if c == '\n' {
        seq!['\\', 'n']
    } else if c == '\r' {
        seq!['\\', 'r']
    } else if c == '\t' {
        seq!['\\', 't']
    } else if (c as u32) < 0x20 {
        seq!['\\', 'u', '0', '0', hex_char((c as u32 / 16) as nat), hex_char((c as u32 % 16) as nat)]
    } else {
        seq![c]
    }
}

pub open spec fn escaped(s: Seq<char>) -> Seq<char>
    decreases s.len(),
{
    if s.len() == 0 {
        Seq::empty()
    } else {
        escaped(s.drop_last()) + escape_char(s.last())
    }
}

/// A string between double quotes, with quotes, backslashes and control
/// characters escaped.
pub open spec fn quoted(s: Seq<char>) -> Seq<char> {
    seq!['"'] + escaped(s) + seq!['"']
}

pub open spec fn key_chars(n: Node) -> Seq<char> {
    match n.key {
        Some(k) => k,
        None => Seq::empty(),
    }
}

pub open spec fn bool_text(b: bool) -> Seq<char> {
    if b { seq!['t', 'r', 'u', 'e'] } else { seq!['f', 'a', 'l', 's', 'e'] }
}

pub open spec fn null_text() -> Seq<char> {
    seq!['n', 'u', 'l', 'l']
}

/// Text of a scalar in the JSON style (strings always quoted).
pub open spec fn json_scalar(v: Val) -> Seq<char> {
    match v {
        Val::Null => null_text(),
        Val::Boolean(b) => bool_text(b),
        Val::Int(i) => int_text(i as int),
        Val::Float(d) => decimal_text(d),
        Val::Str(s) => quoted(s),
        _ => Seq::empty(),
    }
}

// ---------------------------------------------------------------------------
// JSON
// ---------------------------------------------------------------------------

pub open spec fn spaces(k: nat) -> Seq<char> {
    Seq::new(k, |i: int| ' ')
}

/// Indentation of depth `d`: four spaces a level, or, in the collapsed
/// layout, one space for any depth above zero.
pub open spec fn indent(d: nat, collapsed: bool) -> Seq<char> {
    if collapsed {
        if d > 0 { seq![' '] } else { Seq::empty() }
    } else {
        spaces(4 * d)
    }
}

/// Pretty JSON of a node at depth `d`: one member per line, indented.
pub open spec fn json_text(n: Node, d: nat, collapsed: bool) -> Seq<char>
    decreases n,
{
    match n.val {
        Val::Array(items) => {
            if items.len() == 0 {
                seq!['[', ']']
            } else {
                seq!['['] + json_members(items, d, collapsed, false) + seq!['\n'] + indent(d, collapsed) + seq![']']
            }
        },
        Val::Object(items) => {
            if items.len() == 0 {
                seq!['{', '}']
            } else {
                seq!['{'] + json_members(items, d, collapsed, true) + seq!['\n'] + indent(d, collapsed) + seq!['}']
            }
        },
        _ => json_scalar(n.val),
    }
}

/// What stands before a member of a container at depth `d`: the separator,
/// the indentation and, for an object's member, its quoted key.
pub open spec fn json_member_prefix(n: Node, d: nat, collapsed: bool, keyed: bool, first: bool) -> Seq<char> {
    (if first { seq!['\n'] } else { seq![',', '\n'] })
        + indent(d + 1, collapsed)
        + (if keyed { quoted(key_chars(n)) + seq![':', ' '] } else { Seq::empty() })
}

/// The members of a container at depth `d`, each on its own line; `keyed`
/// for an object's members.
pub open spec fn json_members(items: Seq<Node>, d: nat, collapsed: bool, keyed: bool) -> Seq<char>
    decreases items,
{
    if items.len() == 0 {
        Seq::empty()
    } else {
        json_members(items.drop_last(), d, collapsed, keyed)
            + json_member_prefix(items.last(), d, collapsed, keyed, items.len() == 1)
            + json_text(items.last(), d + 1, collapsed)
    }
}

/// Compact JSON of a node: no whitespace at all.
pub open spec fn compact_text(n: Node) -> Seq<char>
    decreases n,
{
    match n.val {
        Val::Array(items) => seq!['['] + compact_members(items, false) + seq![']'],
        Val::Object(items) => seq!['{'] + compact_members(items, true) + seq!['}'],
        _ => json_scalar(n.val),
    }
}

pub open spec fn compact_members(items: Seq<Node>, keyed: bool) -> Seq<char>
    decreases items,
{
    if items.len() == 0 {
        Seq::empty()
    } else {
        compact_members(items.drop_last(), keyed)
            + compact_member_prefix(items.last(), keyed, items.len() == 1)
            + compact_text(items.last())
    }
}

pub open spec fn compact_member_prefix(n: Node, keyed: bool, first: bool) -> Seq<char> {
    (if first { Seq::empty() } else { seq![','] })
        + (if keyed { quoted(key_chars(n)) + seq![':'] } else { Seq::empty() })
}

// ---------------------------------------------------------------------------
// Configuration syntax
// ---------------------------------------------------------------------------

pub open spec fn is_word_char(c: char) -> bool {
    ('a' <= c <= 'z') || ('A' <= c <= 'Z') || ('0' <= c <= '9') || c == '_' || c == '-'
}

/// A key that can be written without quotes.
pub open spec fn is_plain_key(k: Seq<char>) -> bool {
    k.len() > 0 && forall|i: int| 0 <= i < k.len() ==> is_word_char(#[trigger] k[i])
}

pub open spec fn key_text(k: Seq<char>) -> Seq<char> {
    if is_plain_key(k) { k } else { quoted(k) }
}

pub open spec fn is_container(n: Node) -> bool {
    n.val is Array || n.val is Object
}

/// A value in the configuration syntax at depth `d`: braces for an object,
/// brackets for an array, one entry or element per line.
pub open spec fn config_value(n: Node, d: nat) -> Seq<char>
    decreases n,
{
    match n.val {
        Val::Object(items) => seq!['{', '\n'] + config_entries(items, d + 1) + indent(d, false) + seq!['}'],
        Val::Array(items) => seq!['[', '\n'] + config_elems(items, d + 1) + indent(d, false) + seq![']'],
        _ => json_scalar(n.val),
    }
}

pub open spec fn config_entry_prefix(n: Node, d: nat) -> Seq<char> {
    indent(d, false) + key_text(key_chars(n)) + if is_container(n) { seq![' '] } else { seq![' ', '=', ' '] }
}

pub open spec fn config_entry_suffix(n: Node) -> Seq<char> {
    if is_container(n) { seq!['\n'] } else { seq![';', '\n'] }
}

/// An object's entries at depth `d`: `key = value;`, or `key {...}` and
/// `key [...]` for containers.
pub open spec fn config_entries(items: Seq<Node>, d: nat) -> Seq<char>
    decreases items,
{
    if items.len() == 0 {
        Seq::empty()
    } else {
        config_entries(items.drop_last(), d) + config_entry_prefix(items.last(), d)
            + config_value(items.last(), d) + config_entry_suffix(items.last())
    }
}

/// An array's elements at depth `d`, each followed by a comma.
pub open spec fn config_elems(items: Seq<Node>, d: nat) -> Seq<char>
    decreases items,
{
    if items.len() == 0 {
        Seq::empty()
    } else {
        config_elems(items.drop_last(), d) + indent(d, false) + config_value(items.last(), d)
            + seq![',', '\n']
    }
}

/// A document in the configuration syntax: the root object's entries
/// without braces.
pub open spec fn config_doc(n: Node) -> Seq<char> {
    match n.val {
        Val::Object(items) => config_entries(items, 0),
        _ => config_value(n, 0),
    }
}

// ---------------------------------------------------------------------------
// YAML
// ---------------------------------------------------------------------------

pub open spec fn lower_char(c: char) -> char {
    if 'A' <= c <= 'Z' { ((c as u32 + 32) as u8) as char } else { c }
}

pub open spec fn lower_seq(s: Seq<char>) -> Seq<char> {
    Seq::new(s.len(), |i: int| lower_char(s[i]))
}

/// Words that YAML would read as a boolean or null if left unquoted.
pub open spec fn is_yaml_reserved(s: Seq<char>) -> bool {
    let l = lower_seq(s);
    l == seq!['y'] || l == seq!['n'] || l == seq!['y', 'e', 's'] || l == seq!['n', 'o']
        || l == seq!['o', 'n'] || l == seq!['o', 'f', 'f'] || l == seq!['t', 'r', 'u', 'e']
        || l == seq!['f', 'a', 'l', 's', 'e'] || l == seq!['n', 'u', 'l', 'l']
}

/// A string that YAML reads back as the same string without quotes.
pub open spec fn is_yaml_plain(s: Seq<char>) -> bool {
    &&& is_plain_key(s)
    &&& (('a' <= s[0] <= 'z') || ('A' <= s[0] <= 'Z'))
    &&& !is_yaml_reserved(s)
}

pub open spec fn yaml_str(s: Seq<char>) -> Seq<char> {
    if is_yaml_plain(s) { s } else { quoted(s) }
}

/// A value written on the line of its key or dash.
pub open spec fn yaml_inline(n: Node) -> Seq<char> {
    match n.val {
        Val::Str(s) => yaml_str(s),
        Val::Array(_) => seq!['[', ']'],
        Val::Object(_) => seq!['{', '}'],
        _ => json_scalar(n.val),
    }
}

/// What follows a key's colon or an element's dash at depth `d`: a nested
/// block on the next lines, or the value and a line break.
pub open spec fn yaml_after(n: Node, d: nat) -> Seq<char>
    decreases n,
{
    match n.val {
        Val::Object(items) => {
            if items.len() > 0 {
                seq!['\n'] + yaml_entries(items, d + 1)
            } else {
                seq![' '] + yaml_inline(n) + seq!['\n']
            }
        },
        Val::Array(items) => {
            if items.len() > 0 {
                seq!['\n'] + yaml_elems(items, d + 1)
            } else {
                seq![' '] + yaml_inline(n) + seq!['\n']
            }
        },
        _ => seq![' '] + yaml_inline(n) + seq!['\n'],
    }
}

/// A block mapping at depth `d`: `key: value` lines.
pub open spec fn yaml_entries(items: Seq<Node>, d: nat) -> Seq<char>
    decreases items,
{
    if items.len() == 0 {
        Seq::empty()
    } else {
        yaml_entries(items.drop_last(), d) + indent(d, false) + yaml_str(key_chars(items.last()))
            + seq![':'] + yaml_after(items.last(), d)
    }
}

/// A block sequence at depth `d`: `- value` lines.
pub open spec fn yaml_elems(items: Seq<Node>, d: nat) -> Seq<char>
    decreases items,
{
    if items.len() == 0 {
        Seq::empty()
    } else {
        yaml_elems(items.drop_last(), d) + indent(d, false) + seq!['-'] + yaml_after(items.last(), d)
    }
}

/// A YAML document in block style.
pub open spec fn yaml_doc(n: Node) -> Seq<char> {
    match n.val {
        Val::Object(items) => if items.len() > 0 { yaml_entries(items, 0) } else { seq!['{', '}', '\n'] },
        Val::Array(items) => if items.len() > 0 { yaml_elems(items, 0) } else { seq!['[', ']', '\n'] },
        _ => yaml_inline(n) + seq!['\n'],
    }
}

// ---------------------------------------------------------------------------
// Executable writers
// ---------------------------------------------------------------------------

fn push_slice(out: &mut Vec<char>, s: &[char])
    ensures
        final(out)@ == old(out)@ + s@,
{
    let mut i: usize = 0;
    while i < s.len()
        invariant
            i <= s@.len(),
            out@ == old(out)@ + s@.take(i as int),
        decreases s@.len() - i,
    {
        out.push(s[i]);
        i += 1;
        proof {
            assert(s@.take(i as int) =~= s@.take(i - 1) + seq![s@[i - 1]]);
        }
    }
    proof {
        assert(s@.take(i as int) =~= s@);
    }
}

fn push_vec(out: &mut Vec<char>, s: &Vec<char>)
    ensures
        final(out)@ == old(out)@ + s@,
{
    push_slice(out, s.as_slice());
}

fn digit(k: u64) -> (c: char)
    requires
        k < 10,
    ensures
        c == digit_char(k as nat),
{
    if k == 0 { '0' }
    else if k == 1 { '1' }
    else if k == 2 { '2' }
    else if k == 3 { '3' }
    else if k == 4 { '4' }
    else if k == 5 { '5' }
    else if k == 6 { '6' }
    else if k == 7 { '7' }
    else if k == 8 { '8' }
    else { '9' }
}

fn hex(k: u32) -> (c: char)
    requires
        k < 16,
    ensures
        c == hex_char(k as nat),
{
    if k < 10 { digit(k as u64) }
    else if k == 10 { 'a' }
    else if k == 11 { 'b' }
    else if k == 12 { 'c' }
    else if k == 13 { 'd' }
    else if k == 14 { 'e' }
    else { 'f' }
}

fn push_nat(out: &mut Vec<char>, n: u64)
    ensures
        final(out)@ == old(out)@ + nat_text(n as nat),
    decreases n,
{
    if n >= 10 {
        push_nat(out, n / 10);
    }
    out.push(digit(n % 10));
}

/// The decimal digits of `n`.
pub fn digits_of(n: u64) -> (r: Vec<char>)
    ensures
        r@ == nat_text(n as nat),
{
    let mut r: Vec<char> = Vec::new();
    push_nat(&mut r, n);
    proof {
        assert(r@ =~= nat_text(n as nat));
    }
    r
}

fn push_int(out: &mut Vec<char>, i: i64)
    ensures
        final(out)@ == old(out)@ + int_text(i as int),
{
    if i < 0 {
        out.push('-');
        let a: u64 = (0i128 - i as i128) as u64;
        push_nat(out, a);
        proof {
            assert(final(out)@ =~= old(out)@ + int_text(i as int));
        }
    } else {
        push_nat(out, i as u64);
    }
}

fn push_decimal(out: &mut Vec<char>, d: Decimal)
    ensures
        final(out)@ == old(out)@ + decimal_text(d),
{
    let ghost start = out@;
    let a: u64 = if d.mantissa < 0 { (0i128 - d.mantissa as i128) as u64 } else { d.mantissa as u64 };
    let s = digits_of(a);
    if d.mantissa < 0 {
        out.push('-');
    }
    let ghost sign = if d.mantissa < 0 { seq!['-'] } else { Seq::<char>::empty() };
    assert(out@ == start + sign);
    if d.exponent >= 0 {
        push_vec(out, &s);
        out.push('e');
        push_nat(out, d.exponent as u64);
        proof {
            assert(out@ =~= start + decimal_text(d));
        }
    } else {
        let k: u64 = (0i64 - d.exponent as i64) as u64;
        if (s.len() as u64) <= k {
            out.push('0');
            out.push('.');
            let mut z: u64 = 0;
            let pad: u64 = k - s.len() as u64;
            while z < pad
                invariant
                    z <= pad,
                    out@ == start + sign + seq!['0', '.'] + zeros(z as nat),
                decreases pad - z,
            {
                out.push('0');
                z += 1;
                proof {
                    assert(zeros(z as nat) =~= zeros((z - 1) as nat) + seq!['0']);
                }
            }
            push_vec(out, &s);
            proof {
                assert(out@ =~= start + decimal_text(d));
            }
        } else {
            let cut: usize = s.len() - k as usize;
            let mut i: usize = 0;
            while i < cut
                invariant
                    i <= cut <= s.len(),
                    out@ == start + sign + s@.subrange(0, i as int),
                decreases cut - i,
            {
                out.push(s[i]);
                i += 1;
                proof {
                    assert(s@.subrange(0, i as int) =~= s@.subrange(0, i - 1) + seq![s@[i - 1]]);
                }
            }
            out.push('.');
            let ghost mid = out@;
            while i < s.len()
                invariant
                    cut <= i <= s.len(),
                    out@ == mid + s@.subrange(cut as int, i as int),
                decreases s.len() - i,
            {
                out.push(s[i]);
                i += 1;
                proof {
                    assert(s@.subrange(cut as int, i as int) =~= s@.subrange(cut as int, i - 1) + seq![s@[i - 1]]);
                }
            }
            proof {
                assert(out@ =~= start + decimal_text(d));
            }
        }
    }
}

fn push_escaped_char(out: &mut Vec<char>, c: char)
    ensures
        final(out)@ == old(out)@ + escape_char(c),
{
    if c == '"' {
        push_slice(out, &['\\', '"']);
    } else if c == '\\' {
        push_slice(out, &['\\', '\\']);
    } else if c == '\n' {
        push_slice(out, &['\\', 'n']);
    } else if c == '\r' {
        push_slice(out, &['\\', 'r']);
    } else if c == '\t' {
        push_slice(out, &['\\', 't']);
    } else if (c as u32) < 0x20 {
        push_slice(out, &['\\', 'u', '0', '0']);
        out.push(hex(c as u32 / 16));
        out.push(hex(c as u32 % 16));
    } else {
        out.push(c);
    }
    proof {
        assert(final(out)@ =~= old(out)@ + escape_char(c));
    }
}

fn push_quoted(out: &mut Vec<char>, s: &Vec<char>)
    ensures
        final(out)@ == old(out)@ + quoted(s@),
{
    let ghost start = out@;
    out.push('"');
    let mut i: usize = 0;
    while i < s.len()
        invariant
            i <= s.len(),
            out@ == start + seq!['"'] + escaped(s@.take(i as int)),
        decreases s.len() - i,
    {
        push_escaped_char(out, s[i]);
        i += 1;
        proof {
            assert(s@.take(i as int).drop_last() =~= s@.take(i - 1));
        }
    }
    out.push('"');
    proof {
        assert(s@.take(i as int) =~= s@);
        assert(out@ =~= start + quoted(s@));
    }
}

fn push_key_quoted(out: &mut Vec<char>, o: &Object)
    ensures
        final(out)@ == old(out)@ + quoted(key_chars(o@)),
{
    proof {
        lemma_view(*o);
    }
    match &o.key {
        Some(k) => push_quoted(out, k),
        None => {
            let e: Vec<char> = Vec::new();
            push_quoted(out, &e);
            proof {
                assert(e@ =~= Seq::<char>::empty());
            }
        },
    }
}

fn push_json_scalar(out: &mut Vec<char>, o: &Object)
    requires
        !(o@.val is Array),
        !(o@.val is Object),
    ensures
        final(out)@ == old(out)@ + json_scalar(o@.val),
{
    proof {
        lemma_view(*o);
    }
    match &o.value {
        Value::Null => push_slice(out, &['n', 'u', 'l', 'l']),
        Value::Boolean(b) => {
            if *b {
                push_slice(out, &['t', 'r', 'u', 'e']);
            } else {
                push_slice(out, &['f', 'a', 'l', 's', 'e']);
            }
        },
        Value::Int(i) => push_int(out, *i),
        Value::Float(d) => push_decimal(out, *d),
        Value::Str(s) => push_quoted(out, s),
        _ => {},
    }
}

fn next_indent(ind: &Vec<char>, Ghost(d): Ghost<nat>, collapsed: bool) -> (r: Vec<char>)
    requires
        ind@ == indent(d, collapsed),
    ensures
        r@ == indent(d + 1, collapsed),
{
    if collapsed {
        let mut r: Vec<char> = Vec::new();
        r.push(' ');
        proof {
            assert(r@ =~= indent(d + 1, collapsed));
        }
        r
    } else {
        let mut r = crate::text::copy_chars(ind);
        push_slice(&mut r, &[' ', ' ', ' ', ' ']);
        proof {
            assert(r@ =~= indent(d + 1, collapsed));
        }
        r
    }
}

proof fn lemma_json_members_step(items: Seq<Node>, i: int, d: nat, collapsed: bool, keyed: bool)
    requires
        0 <= i < items.len(),
    ensures
        json_members(items.take(i + 1), d, collapsed, keyed) == json_members(items.take(i), d, collapsed, keyed)
            + json_member_prefix(items[i], d, collapsed, keyed, i == 0)
            + json_text(items[i], d + 1, collapsed),
{
    let t = items.take(i + 1);
    assert(t.drop_last() =~= items.take(i));
    assert(t.last() == items[i]);
}

fn write_json_member_prefix(
    o: &Object,
    out: &mut Vec<char>,
    child: &Vec<char>,
    Ghost(d): Ghost<nat>,
    collapsed: bool,
    keyed: bool,
    first: bool,
)
    requires
        child@ == indent(d + 1, collapsed),
    ensures
        final(out)@ == old(out)@ + json_member_prefix(o@, d, collapsed, keyed, first),
{
    let ghost start = out@;
    if first {
        out.push('\n');
    } else {
        out.push(',');
        out.push('\n');
    }
    push_vec(out, child);
    if keyed {
        push_key_quoted(out, o);
        out.push(':');
        out.push(' ');
    }
    proof {
        assert(out@ =~= start + json_member_prefix(o@, d, collapsed, keyed, first));
    }
}

fn write_json(o: &Object, out: &mut Vec<char>, ind: &Vec<char>, Ghost(d): Ghost<nat>, collapsed: bool)
    requires
        ind@ == indent(d, collapsed),
    ensures
        final(out)@ == old(out)@ + json_text(o@, d, collapsed),
    decreases o,
{
    proof {
        lemma_view(*o);
    }
    let ghost start = out@;
    match &o.value {
        Value::Array(v) => {
            assert(o@.val == Val::Array(nodes(*v)));
            assert(nodes(*v).len() == v.len());
            if v.len() == 0 {
                push_slice(out, &['[', ']']);
            } else {
                out.push('[');
                let child = next_indent(ind, Ghost(d), collapsed);
                write_json_members(v, out, &child, Ghost(d), collapsed, false);
                out.push('\n');
                push_vec(out, ind);
                out.push(']');
            }
            proof {
                assert(out@ =~= start + json_text(o@, d, collapsed));
            }
        },
        Value::Object(v) => {
            assert(o@.val == Val::Object(nodes(*v)));
            assert(nodes(*v).len() == v.len());
            if v.len() == 0 {
                push_slice(out, &['{', '}']);
            } else {
                out.push('{');
                let child = next_indent(ind, Ghost(d), collapsed);
                write_json_members(v, out, &child, Ghost(d), collapsed, true);
                out.push('\n');
                push_vec(out, ind);
                out.push('}');
            }
            proof {
                assert(out@ =~= start + json_text(o@, d, collapsed));
            }
        },
        _ => {
            push_json_scalar(out, o);
        },
    }
}

fn write_json_members(
    v: &Vec<Object>,
    out: &mut Vec<char>,
    child: &Vec<char>,
    Ghost(d): Ghost<nat>,
    collapsed: bool,
    keyed: bool,
)
    requires
        child@ == indent(d + 1, collapsed),
    ensures
        final(out)@ == old(out)@ + json_members(nodes(*v), d, collapsed, keyed),
    decreases v,
{
    let ghost items = nodes(*v);
    let ghost open = out@;
    let mut i: usize = 0;
    proof {
            assert(items.take(0).len() == 0);
    }
    while i < v.len()
        invariant
            i <= v.len(),
            items == nodes(*v),
            child@ == indent(d + 1, collapsed),
            out@ == open + json_members(items.take(i as int), d, collapsed, keyed),
        decreases v.len() - i,
    {
        let ghost before = out@;
        let ghost n = items[i as int];
        proof {
            lemma_json_members_step(items, i as int, d, collapsed, keyed);
            assert(n == v[i as int]@);
        }
        write_json_member_prefix(&v[i], out, child, Ghost(d), collapsed, keyed, i == 0);
        let ghost mid = out@;
        write_json(&v[i], out, child, Ghost(d + 1), collapsed);
        proof {
            let a = json_members(items.take(i as int), d, collapsed, keyed);
            let b = json_member_prefix(n, d, collapsed, keyed, i == 0);
            let c = json_text(n, d + 1, collapsed);
            assert(out@ == open + a + b + c);
            assert(open + a + b + c =~= open + (a + b + c));
        }
        i += 1;
    }
    proof {
        assert(items.take(i as int) =~= items);
    }
}

fn write_compact(o: &Object, out: &mut Vec<char>)
    ensures
        final(out)@ == old(out)@ + compact_text(o@),
    decreases o,
{
    proof {
        lemma_view(*o);
    }
    let ghost start = out@;
    match &o.value {
        Value::Array(v) => {
            out.push('[');
            write_compact_members(v, out, false);
            out.push(']');
            proof {
                assert(out@ =~= start + compact_text(o@));
            }
        },
        Value::Object(v) => {
            out.push('{');
            write_compact_members(v, out, true);
            out.push('}');
            proof {
                assert(out@ =~= start + compact_text(o@));
            }
        },
        _ => {
            push_json_scalar(out, o);
        },
    }
}

fn write_compact_members(v: &Vec<Object>, out: &mut Vec<char>, keyed: bool)
    ensures
        final(out)@ == old(out)@ + compact_members(nodes(*v), keyed),
    decreases v,
{
    let ghost items = nodes(*v);
    let ghost open = out@;
    let mut i: usize = 0;
    proof {
        assert(items.take(0).len() == 0);
    }
    while i < v.len()
        invariant
            i <= v.len(),
            items == nodes(*v),
            out@ == open + compact_members(items.take(i as int), keyed),
        decreases v.len() - i,
    {
        let ghost n = items[i as int];
        proof {
            let t = items.take(i + 1);
            assert(t.drop_last() =~= items.take(i as int));
            assert(t.last() == n);
            assert(n == v[i as int]@);
        }
        let ghost before = out@;
        if i > 0 {
            out.push(',');
        }
        if keyed {
            push_key_quoted(out, &v[i]);
            out.push(':');
        }
        proof {
            assert(out@ =~= before + compact_member_prefix(n, keyed, i == 0));
        }
        let ghost mid = out@;
        write_compact(&v[i], out);
        proof {
            let a = compact_members(items.take(i as int), keyed);
            let b = compact_member_prefix(n, keyed, i == 0);
            let c = compact_text(n);
            assert(out@ == open + a + b + c);
            assert(open + a + b + c =~= open + (a + b + c));
        }
        i += 1;
    }
    proof {
        assert(items.take(i as int) =~= items);
    }
}

fn is_word(c: char) -> (r: bool)
    ensures
        r == is_word_char(c),
{
    ('a' <= c && c <= 'z') || ('A' <= c && c <= 'Z') || ('0' <= c && c <= '9') || c == '_' || c == '-'
}

fn plain_key(k: &Vec<char>) -> (r: bool)
    ensures
        r == is_plain_key(k@),
{
    if k.len() == 0 {
        return false;
    }
    let mut i: usize = 0;
    while i < k.len()
        invariant
            i <= k.len(),
            forall|j: int| 0 <= j < i ==> is_word_char(#[trigger] k@[j]),
        decreases k.len() - i,
    {
        if !is_word(k[i]) {
            return false;
        }
        i += 1;
    }
    true
}

fn push_key_text(out: &mut Vec<char>, o: &Object)
    ensures
        final(out)@ == old(out)@ + key_text(key_chars(o@)),
{
    proof {
        lemma_view(*o);
    }
    let e: Vec<char> = Vec::new();
    let k = match &o.key {
        Some(k) => k,
        None => &e,
    };
    proof {
        assert(k@ =~= key_chars(o@));
    }
    if plain_key(k) {
        push_vec(out, k);
    } else {
        push_quoted(out, k);
    }
}

fn write_config_value(o: &Object, out: &mut Vec<char>, ind: &Vec<char>, Ghost(d): Ghost<nat>)
    requires
        ind@ == indent(d, false),
    ensures
        final(out)@ == old(out)@ + config_value(o@, d),
    decreases o,
{
    proof {
        lemma_view(*o);
    }
    let ghost start = out@;
    match &o.value {
        Value::Object(v) => {
            push_slice(out, &['{', '\n']);
            let child = next_indent(ind, Ghost(d), false);
            write_config_entries(v, out, &child, Ghost(d + 1));
            push_vec(out, ind);
            out.push('}');
            proof {
                assert(out@ =~= start + config_value(o@, d));
            }
        },
        Value::Array(v) => {
            push_slice(out, &['[', '\n']);
            let child = next_indent(ind, Ghost(d), false);
            write_config_elems(v, out, &child, Ghost(d + 1));
            push_vec(out, ind);
            out.push(']');
            proof {
                assert(out@ =~= start + config_value(o@, d));
            }
        },
        _ => {
            push_json_scalar(out, o);
        },
    }
}

fn container(o: &Object) -> (r: bool)
    ensures
        r == is_container(o@),
{
    proof {
        lemma_view(*o);
    }
    match &o.value {
        Value::Array(_) | Value::Object(_) => true,
        _ => false,
    }
}

fn write_config_entries(v: &Vec<Object>, out: &mut Vec<char>, ind: &Vec<char>, Ghost(d): Ghost<nat>)
    requires
        ind@ == indent(d, false),
    ensures
        final(out)@ == old(out)@ + config_entries(nodes(*v), d),
    decreases v,
{
    let ghost items = nodes(*v);
    let ghost open = out@;
    let mut i: usize = 0;
    proof {
        assert(items.take(0).len() == 0);
    }
    while i < v.len()
        invariant
            i <= v.len(),
            items == nodes(*v),
            ind@ == indent(d, false),
            out@ == open + config_entries(items.take(i as int), d),
        decreases v.len() - i,
    {
        let ghost n = items[i as int];
        proof {
            let t = items.take(i + 1);
            assert(t.drop_last() =~= items.take(i as int));
            assert(t.last() == n);
            assert(n == v[i as int]@);
        }
        let ghost before = out@;
        push_vec(out, ind);
        push_key_text(out, &v[i]);
        let c = container(&v[i]);
        if c {
            out.push(' ');
        } else {
            push_slice(out, &[' ', '=', ' ']);
        }
        proof {
            assert(out@ =~= before + config_entry_prefix(n, d));
        }
        let ghost mid = out@;
        write_config_value(&v[i], out, ind, Ghost(d));
        let ghost mid2 = out@;
        if c {
            out.push('\n');
        } else {
            push_slice(out, &[';', '\n']);
        }
        proof {
            let a = config_entries(items.take(i as int), d);
            let b = config_entry_prefix(n, d);
            let x = config_value(n, d);
            let y = config_entry_suffix(n);
            assert(out@ =~= mid2 + y);
            assert(out@ == open + a + b + x + y);
            assert(open + a + b + x + y =~= open + (a + b + x + y));
        }
        i += 1;
    }
    proof {
        assert(items.take(i as int) =~= items);
    }
}

fn write_config_elems(v: &Vec<Object>, out: &mut Vec<char>, ind: &Vec<char>, Ghost(d): Ghost<nat>)
    requires
        ind@ == indent(d, false),
    ensures
        final(out)@ == old(out)@ + config_elems(nodes(*v), d),
    decreases v,
{
    let ghost items = nodes(*v);
    let ghost open = out@;
    let mut i: usize = 0;
    proof {
        assert(items.take(0).len() == 0);
    }
    while i < v.len()
        invariant
            i <= v.len(),
            items == nodes(*v),
            ind@ == indent(d, false),
            out@ == open + config_elems(items.take(i as int), d),
        decreases v.len() - i,
    {
        let ghost n = items[i as int];
        proof {
            let t = items.take(i + 1);
            assert(t.drop_last() =~= items.take(i as int));
            assert(t.last() == n);
            assert(n == v[i as int]@);
        }
        push_vec(out, ind);
        let ghost mid = out@;
        write_config_value(&v[i], out, ind, Ghost(d));
        let ghost mid2 = out@;
        push_slice(out, &[',', '\n']);
        proof {
            let a = config_elems(items.take(i as int), d);
            let x = config_value(n, d);
            assert(out@ == open + a + indent(d, false) + x + seq![',', '\n']);
        }
        i += 1;
    }
    proof {
        assert(items.take(i as int) =~= items);
    }
}

fn lower(c: char) -> (r: char)
    ensures
        r == lower_char(c),
{
    if 'A' <= c && c <= 'Z' {
        ((c as u32 + 32) as u8) as char
    } else {
        c
    }
}

fn lower_eq(s: &Vec<char>, w: &[char]) -> (r: bool)
    ensures
        r == (lower_seq(s@) == w@),
{
    if s.len() != w.len() {
        proof {
            assert(lower_seq(s@).len() != w@.len());
        }
        return false;
    }
    let mut i: usize = 0;
    while i < s.len()
        invariant
            i <= s.len(),
            s.len() == w@.len(),
            forall|j: int| 0 <= j < i ==> lower_char(s@[j]) == w@[j],
        decreases s.len() - i,
    {
        if lower(s[i]) != w[i] {
            proof {
                assert(lower_seq(s@)[i as int] != w@[i as int]);
            }
            return false;
        }
        i += 1;
    }
    proof {
        assert(lower_seq(s@) =~= w@);
    }
    true
}

fn yaml_reserved(s: &Vec<char>) -> (r: bool)
    ensures
        r == is_yaml_reserved(s@),
{
    let w0: &[char] = &['y'];
    proof {
        assert(w0@ =~= seq!['y']);
    }
    let w1: &[char] = &['n'];
    proof {
        assert(w1@ =~= seq!['n']);
    }
    let w2: &[char] = &['y', 'e', 's'];
    proof {
        assert(w2@ =~= seq!['y', 'e', 's']);
    }
    let w3: &[char] = &['n', 'o'];
    proof {
        assert(w3@ =~= seq!['n', 'o']);
    }
    let w4: &[char] = &['o', 'n'];
    proof {
        assert(w4@ =~= seq!['o', 'n']);
    }
    let w5: &[char] = &['o', 'f', 'f'];
    proof {
        assert(w5@ =~= seq!['o', 'f', 'f']);
    }
    let w6: &[char] = &['t', 'r', 'u', 'e'];
    proof {
        assert(w6@ =~= seq!['t', 'r', 'u', 'e']);
    }
    let w7: &[char] = &['f', 'a', 'l', 's', 'e'];
    proof {
        assert(w7@ =~= seq!['f', 'a', 'l', 's', 'e']);
    }
    let w8: &[char] = &['n', 'u', 'l', 'l'];
    proof {
        assert(w8@ =~= seq!['n', 'u', 'l', 'l']);
    }
    lower_eq(s, w0) || lower_eq(s, w1) || lower_eq(s, w2) || lower_eq(s, w3) || lower_eq(s, w4) || lower_eq(s, w5) || lower_eq(s, w6) || lower_eq(s, w7) || lower_eq(s, w8)
}

fn push_yaml_str(out: &mut Vec<char>, s: &Vec<char>)
    ensures
        final(out)@ == old(out)@ + yaml_str(s@),
{
    let plain = plain_key(s) && (('a' <= s[0] && s[0] <= 'z') || ('A' <= s[0] && s[0] <= 'Z'))
        && !yaml_reserved(s);
    if plain {
        push_vec(out, s);
    } else {
        push_quoted(out, s);
    }
}

fn push_yaml_inline(out: &mut Vec<char>, o: &Object)
    ensures
        final(out)@ == old(out)@ + yaml_inline(o@),
{
    proof {
        lemma_view(*o);
    }
    match &o.value {
        Value::Str(s) => push_yaml_str(out, s),
        Value::Array(_) => push_slice(out, &['[', ']']),
        Value::Object(_) => push_slice(out, &['{', '}']),
        _ => push_json_scalar(out, o),
    }
}

fn write_yaml_after(o: &Object, out: &mut Vec<char>, ind: &Vec<char>, Ghost(d): Ghost<nat>)
    requires
        ind@ == indent(d, false),
    ensures
        final(out)@ == old(out)@ + yaml_after(o@, d),
    decreases o,
{
    proof {
        lemma_view(*o);
    }
    let ghost start = out@;
    match &o.value {
        Value::Object(v) => {
            if v.len() > 0 {
                out.push('\n');
                let child = next_indent(ind, Ghost(d), false);
                write_yaml_entries(v, out, &child, Ghost(d + 1));
                proof {
                    assert(out@ =~= start + yaml_after(o@, d));
                }
                return;
            }
        },
        Value::Array(v) => {
            if v.len() > 0 {
                out.push('\n');
                let child = next_indent(ind, Ghost(d), false);
                write_yaml_elems(v, out, &child, Ghost(d + 1));
                proof {
                    assert(out@ =~= start + yaml_after(o@, d));
                }
                return;
            }
        },
        _ => {},
    }
    out.push(' ');
    push_yaml_inline(out, o);
    out.push('\n');
    proof {
        assert(out@ =~= start + yaml_after(o@, d));
    }
}

fn write_yaml_entries(v: &Vec<Object>, out: &mut Vec<char>, ind: &Vec<char>, Ghost(d): Ghost<nat>)
    requires
        ind@ == indent(d, false),
    ensures
        final(out)@ == old(out)@ + yaml_entries(nodes(*v), d),
    decreases v,
{
    let ghost items = nodes(*v);
    let ghost open = out@;
    let mut i: usize = 0;
    proof {
        assert(items.take(0).len() == 0);
    }
    while i < v.len()
        invariant
            i <= v.len(),
            items == nodes(*v),
            ind@ == indent(d, false),
            out@ == open + yaml_entries(items.take(i as int), d),
        decreases v.len() - i,
    {
        let ghost n = items[i as int];
        proof {
            let t = items.take(i + 1);
            assert(t.drop_last() =~= items.take(i as int));
            assert(t.last() == n);
            assert(n == v[i as int]@);
            lemma_view(v[i as int]);
        }
        let ghost before = out@;
        push_vec(out, ind);
        let e: Vec<char> = Vec::new();
        let k = match &v[i].key {
            Some(k) => k,
            None => &e,
        };
        proof {
            assert(k@ =~= key_chars(n));
        }
        push_yaml_str(out, k);
        out.push(':');
        let ghost mid = out@;
        write_yaml_after(&v[i], out, ind, Ghost(d));
        proof {
            let a = yaml_entries(items.take(i as int), d);
            let b = indent(d, false) + yaml_str(key_chars(n)) + seq![':'];
            let x = yaml_after(n, d);
            assert(mid =~= before + b);
            assert(out@ == open + a + b + x);
            assert(open + a + b + x =~= open + (a + indent(d, false) + yaml_str(key_chars(n)) + seq![':'] + x));
        }
        i += 1;
    }
    proof {
        assert(items.take(i as int) =~= items);
    }
}

fn write_yaml_elems(v: &Vec<Object>, out: &mut Vec<char>, ind: &Vec<char>, Ghost(d): Ghost<nat>)
    requires
        ind@ == indent(d, false),
    ensures
        final(out)@ == old(out)@ + yaml_elems(nodes(*v), d),
    decreases v,
{
    let ghost items = nodes(*v);
    let ghost open = out@;
    let mut i: usize = 0;
    proof {
        assert(items.take(0).len() == 0);
    }
    while i < v.len()
        invariant
            i <= v.len(),
            items == nodes(*v),
            ind@ == indent(d, false),
            out@ == open + yaml_elems(items.take(i as int), d),
        decreases v.len() - i,
    {
        let ghost n = items[i as int];
        proof {
            let t = items.take(i + 1);
            assert(t.drop_last() =~= items.take(i as int));
            assert(t.last() == n);
            assert(n == v[i as int]@);
        }
        push_vec(out, ind);
        out.push('-');
        let ghost mid = out@;
        write_yaml_after(&v[i], out, ind, Ghost(d));
        proof {
            let a = yaml_elems(items.take(i as int), d);
            let x = yaml_after(n, d);
            assert(out@ == open + a + indent(d, false) + seq!['-'] + x);
        }
        i += 1;
    }
    proof {
        assert(items.take(i as int) =~= items);
    }
}

/// The output formats.
#[derive(Clone, Copy, Debug, PartialEq, Eq, Structural)]
pub enum Emitter {
    JSON,
    JSONCompact,
    Config,
    YAML,
    MsgPack,
}

/// The text that a text format gives for a tree. JSON and YAML write each
/// implicit array as one key with an array of its values (`group_view`);
/// the configuration syntax writes the repeated members themselves.
pub open spec fn emitted_text(e: Emitter, n: Node) -> Seq<char> {
    match e {
        Emitter::JSON => json_text(group_view(n), 0, false),
        Emitter::JSONCompact => compact_text(group_view(n)),
        Emitter::Config => config_doc(n),
        Emitter::YAML => yaml_doc(group_view(n)),
        Emitter::MsgPack => Seq::empty(),
    }
}

fn emit_chars(e: Emitter, obj: &Object) -> (r: Vec<char>)
    ensures
        r@ == emitted_text(e, obj@),
{
    if matches!(e, Emitter::Config) || matches!(e, Emitter::MsgPack) {
        emit_tree_chars(e, obj)
    } else {
        let g = grouped(obj);
        emit_tree_chars(e, &g)
    }
}

fn emit_tree_chars(e: Emitter, obj: &Object) -> (r: Vec<char>)
    ensures
        e == Emitter::JSON ==> r@ == json_text(obj@, 0, false),
        e == Emitter::JSONCompact ==> r@ == compact_text(obj@),
        e == Emitter::Config ==> r@ == config_doc(obj@),
        e == Emitter::YAML ==> r@ == yaml_doc(obj@),
        e == Emitter::MsgPack ==> r@ == Seq::<char>::empty(),
{
    let mut out: Vec<char> = Vec::new();
    let top: Vec<char> = Vec::new();
    proof {
        lemma_view(*obj);
        assert(top@ =~= indent(0, false));
    }
    match e {
        Emitter::JSON => write_json(obj, &mut out, &top, Ghost(0), false),
        Emitter::JSONCompact => write_compact(obj, &mut out),
        Emitter::Config => {
            match &obj.value {
                Value::Object(v) => write_config_entries(v, &mut out, &top, Ghost(0)),
                _ => write_config_value(obj, &mut out, &top, Ghost(0)),
            }
        },
        Emitter::YAML => {
            match &obj.value {
                Value::Object(v) => {
                    if v.len() > 0 {
                        write_yaml_entries(v, &mut out, &top, Ghost(0));
                    } else {
                        push_slice(&mut out, &['{', '}', '\n']);
                    }
                },
                Value::Array(v) => {
                    if v.len() > 0 {
                        write_yaml_elems(v, &mut out, &top, Ghost(0));
                    } else {
                        push_slice(&mut out, &['[', ']', '\n']);
                    }
                },
                _ => {
                    push_yaml_inline(&mut out, obj);
                    out.push('\n');
                },
            }
        },
        Emitter::MsgPack => {},
    }
    proof {
        if e == Emitter::MsgPack {
            assert(out@ =~= Seq::<char>::empty());
        }
    }
    out
}

fn text_bytes(t: &Vec<char>) -> (r: Vec<u8>)
    ensures
        r@ == encode_utf8(t@),
{
    let st = string_from_chars(t);
    let b = st.as_str().as_bytes();
    let mut out: Vec<u8> = Vec::new();
    let mut i: usize = 0;
    while i < b.len()
        invariant
            i <= b@.len(),
            out@ == b@.take(i as int),
        decreases b@.len() - i,
    {
        out.push(b[i]);
        i += 1;
        proof {
            assert(b@.take(i as int) =~= b@.take(i - 1).push(b@[i - 1]));
        }
    }
    proof {
        assert(b@.take(i as int) =~= b@);
    }
    out
}

impl Emitter {
    /// The tree in this format, as bytes: the UTF-8 of the text for the text
    /// formats, the MessagePack encoding for `MsgPack`. `bits` holds the IEEE
    /// 754 bits of the tree's decimals in pre-order (as `decimals` lists
    /// them); only MessagePack reads it. `None` only for MessagePack, when
    /// `bits` does not match the decimals or a length has no encoding.
    pub fn emit(&self, obj: &Object, bits: &Vec<u64>) -> (r: Option<Vec<u8>>)
        ensures
            *self != Emitter::MsgPack ==> r is Some && r->0@ == encode_utf8(emitted_text(*self, obj@)),
            *self == Emitter::MsgPack && float_count(group_view(obj@)) != bits@.len() ==> r is None,
            *self == Emitter::MsgPack && float_count(group_view(obj@)) == bits@.len() ==> match r {
                Some(b) => msgpack_of(group_view(obj@), bits@, 0) == Some(b@),
                None => msgpack_of(group_view(obj@), bits@, 0) is None,
            },
    {
        match self {
            Emitter::MsgPack => msgpack(obj, bits),
            _ => Some(text_bytes(&emit_chars(*self, obj))),
        }
    }
}

impl Object {
    /// JSON of the tree with each level of indentation written as one space;
    /// implicit arrays are written as arrays, as `Emitter::JSON` does.
    pub fn dump(&self) -> (r: String)
        ensures
            r@ == json_text(group_view(self@), 0, true),
    {
        let g = grouped(self);
        let mut out: Vec<char> = Vec::new();
        let top: Vec<char> = Vec::new();
        proof {
            assert(top@ =~= indent(0, true));
        }
        write_json(&g, &mut out, &top, Ghost(0), true);
        proof {
            assert(out@ =~= json_text(g@, 0, true));
        }
        string_from_chars(&out)
    }

    /// The tree in the given text format; the binary format's bytes come
    /// from `Emitter::emit`.
    pub fn dump_into(&self, e: Emitter) -> (r: String)
        requires
            e != Emitter::MsgPack,
        ensures
            r@ == emitted_text(e, self@),
    {
        string_from_chars(&emit_chars(e, self))
    }
}

} // verus!
