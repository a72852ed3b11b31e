use vstd::prelude::*;
use crate::emitter::lower_seq;
use crate::error::{UclError, UclErrorType};
use crate::object::{lemma_view, nodes, Node, Object, Val, Value};
use crate::scalar::{boolean_word, is_null_word, numeric, read_number, Numeric, NumberRead};
use crate::schema::{find_pos, key_pos};
use crate::text::{chars_of, copy_chars, push_all, string_from_chars};
use crate::vars::{expand, expand_vars, vars_view, Var};

verus! {

/// Option bits of a parser.
pub struct Flags {}

impl Flags {
    /// Default configuration.
    pub const DEFAULT: i32 = 0x0;
    /// Convert all keys to lower case.
    pub const LOWERCASE: i32 = 0x1;
    /// Zero-copy parsing; the tree owns its strings, so it reads as default.
    pub const ZEROCOPY: i32 = 0x2;
    /// Keep durations as strings.
    pub const NO_TIME: i32 = 0x4;
    /// Reject a repeated key instead of keeping it as an implicit array.
    pub const NO_IMPLICIT_ARRAYS: i32 = 0x8;
}

/// Deepest nesting of containers that the parser accepts.
pub const MAX_DEPTH: usize = 128;

/// How a bare word reads as a value: a truth value, null, a number, or else
/// a string with its variables expanded; `None` for a number out of range.
pub open spec fn atom_val(a: Seq<char>, no_time: bool, vars: Seq<(Seq<char>, Seq<char>)>) -> Option<Val> {
    if boolean_word(a) is Some {
        Some(Val::Boolean(boolean_word(a)->0))
    } else if is_null_word(a) {
        Some(Val::Null)
    } else {
        match numeric(a, no_time) {
            Numeric::Number(v) => Some(v),
            Numeric::OutOfRange => None,
            Numeric::NotNumber => Some(Val::Str(expand(a, vars))),
        }
    }
}

/// Keys of a tree as the parser makes them: each member of an object has a
/// key, elements of arrays have none, and with `lower` every key is in lower
/// case. Members that repeat a key stay in order: together they form the
/// key's implicit array, and lookup finds the first.
pub open spec fn keys_ok(n: Node, lower: bool) -> bool
    decreases n,
{
    match n.val {
        Val::Object(items) => members_ok(items, lower),
        Val::Array(items) => elements_ok(items, lower),
        _ => true,
    }
}

pub open spec fn members_ok(items: Seq<Node>, lower: bool) -> bool
    decreases items,
{
    &&& forall|i: int| 0 <= i < items.len() ==> (#[trigger] items[i]).key is Some
    &&& forall|i: int| 0 <= i < items.len() && lower ==> lower_seq((#[trigger] items[i]).key->0) == items[i].key->0
    &&& forall|i: int| 0 <= i < items.len() ==> keys_ok(#[trigger] items[i], lower)
}

pub open spec fn elements_ok(items: Seq<Node>, lower: bool) -> bool
    decreases items,
{
    &&& forall|i: int| 0 <= i < items.len() ==> (#[trigger] items[i]).key is None
    &&& forall|i: int| 0 <= i < items.len() ==> keys_ok(#[trigger] items[i], lower)
}

/// The depth of every container of a node, counted from `d`, stays below the
/// parser's limit.
pub open spec fn fits_depth(n: Node, d: int) -> bool
    decreases n,
{
    match n.val {
        Val::Object(items) => d < MAX_DEPTH && forall|i: int| 0 <= i < items.len() ==> fits_depth(#[trigger] items[i], d + 1),
        Val::Array(items) => d < MAX_DEPTH && forall|i: int| 0 <= i < items.len() ==> fits_depth(#[trigger] items[i], d + 1),
        _ => true,
    }
}

pub proof fn lemma_fits_lower(n: Node, d: int)
    requires
        fits_depth(n, d + 1),
    ensures
        fits_depth(n, d),
    decreases n,
{
    match n.val {
        Val::Object(items) => {
            assert forall|i: int| 0 <= i < items.len() implies fits_depth(#[trigger] items[i], d + 1) by {
                lemma_fits_lower(items[i], d + 1);
            }
        },
        Val::Array(items) => {
            assert forall|i: int| 0 <= i < items.len() implies fits_depth(#[trigger] items[i], d + 1) by {
                lemma_fits_lower(items[i], d + 1);
            }
        },
        _ => {},
    }
}

/// Nesting that the parser accepts for a document: an object's members at
/// depth 0, or the root container itself at depth 0.
pub open spec fn doc_fits(n: Node) -> bool {
    match n.val {
        Val::Object(items) => forall|i: int| 0 <= i < items.len() ==> fits_depth(#[trigger] items[i], 0),
        _ => fits_depth(n, 0),
    }
}

pub open spec fn parse_error(e: UclError) -> bool {
    e.code == UclErrorType::Syntax || e.code == UclErrorType::Nested || e.code == UclErrorType::Macro
}

/// A parser: option bits, the registered variables and the text fed so far.
/// It is consumed by `parse` or `finish`.
pub struct Parser {
    pub flags: i32,
    pub vars: Vec<Var>,
    pub pending: Vec<char>,
}

fn lower_exec(c: char) -> (r: char)
    ensures
        r == crate::emitter::lower_char(c),
{
    if 'A' <= c && c <= 'Z' {
        ((c as u32 + 32) as u8) as char
    } else {
        c
    }
}

fn lower_all(a: &Vec<char>) -> (r: Vec<char>)
    ensures
        r@ == lower_seq(a@),
{
    let mut r: Vec<char> = Vec::new();
    let mut i: usize = 0;
    while i < a.len()
        invariant
            i <= a.len(),
            r@ =~= lower_seq(a@.take(i as int)),
        decreases a.len() - i,
    {
        r.push(lower_exec(a[i]));
        i += 1;
        proof {
            assert(r@ =~= lower_seq(a@.take(i as int)));
        }
    }
    proof {
        assert(a@.take(i as int) =~= a@);
    }
    r
}

proof fn lemma_lower_idem(a: Seq<char>)
    ensures
        lower_seq(lower_seq(a)) == lower_seq(a),
{
    assert(lower_seq(lower_seq(a)) =~= lower_seq(a));
}

fn word_is(l: &Vec<char>, w: &[char]) -> (r: bool)
    ensures
        r == (l@ == w@),
{
    crate::text::chars_eq_slice(l, w)
}

/// Reads a bare word as a value.
pub fn read_atom(a: &Vec<char>, no_time: bool, vars: &Vec<Var>) -> (r: Option<Value>)
    ensures
        match r {
            Some(v) => atom_val(a@, no_time, vars_view(vars@)) == Some(v.val()),
            None => atom_val(a@, no_time, vars_view(vars@)) is None,
        },
        r is Some ==> !(r->0 is Array) && !(r->0 is Object),
{
    let l = lower_all(a);
    let w_true: &[char] = &['t', 'r', 'u', 'e'];
    let w_yes: &[char] = &['y', 'e', 's'];
    let w_on: &[char] = &['o', 'n'];
    let w_false: &[char] = &['f', 'a', 'l', 's', 'e'];
    let w_no: &[char] = &['n', 'o'];
    let w_off: &[char] = &['o', 'f', 'f'];
    let w_null: &[char] = &['n', 'u', 'l', 'l'];
    proof {
        assert(w_true@ =~= seq!['t', 'r', 'u', 'e']);
        assert(w_yes@ =~= seq!['y', 'e', 's']);
        assert(w_on@ =~= seq!['o', 'n']);
        assert(w_false@ =~= seq!['f', 'a', 'l', 's', 'e']);
        assert(w_no@ =~= seq!['n', 'o']);
        assert(w_off@ =~= seq!['o', 'f', 'f']);
        assert(w_null@ =~= seq!['n', 'u', 'l', 'l']);
    }
    if word_is(&l, w_true) || word_is(&l, w_yes) || word_is(&l, w_on) {
        return Some(Value::Boolean(true));
    }
    if word_is(&l, w_false) || word_is(&l, w_no) || word_is(&l, w_off) {
        return Some(Value::Boolean(false));
    }
    if word_is(&l, w_null) {
        return Some(Value::Null);
    }
    match read_number(a, no_time) {
        NumberRead::Int(i) => Some(Value::Int(i)),
        NumberRead::Float(d) => Some(Value::Float(d)),
        NumberRead::OutOfRange => None,
        NumberRead::NotNumber => {
            let e = expand_vars(a, vars);
            Some(Value::Str(e))
        },
    }
}

pub open spec fn space_char(c: char) -> bool {
    c == ' ' || c == '\t' || c == '\r' || c == '\n'
}

/// Whether `c` may stand in a key written without quotes.
pub open spec fn key_char(c: char) -> bool {
    ('a' <= c <= 'z') || ('A' <= c <= 'Z') || ('0' <= c <= '9') || c == '_' || c == '-' || c == '.' || c == '/'
        || c == '@'
}

/// Whether `c` ends a bare value.
pub open spec fn atom_stop(c: char) -> bool {
    c == ';' || c == ',' || c == ']' || c == '}' || c == '\n' || c == '\r' || c == '#'
}

fn is_space(c: char) -> (r: bool)
    ensures
        r == space_char(c),
{
    c == ' ' || c == '\t' || c == '\r' || c == '\n'
}

fn is_key_char(c: char) -> (r: bool)
    ensures
        r == key_char(c),
{
    ('a' <= c && c <= 'z') || ('A' <= c && c <= 'Z') || ('0' <= c && c <= '9') || c == '_' || c == '-'
        || c == '.' || c == '/' || c == '@'
}

fn ends_atom(c: char) -> (r: bool)
    ensures
        r == atom_stop(c),
{
    c == ';' || c == ',' || c == ']' || c == '}' || c == '\n' || c == '\r' || c == '#'
}

/// End of a `#` comment that runs from `p`: the next line break or the end.
pub open spec fn line_end(s: Seq<char>, p: int) -> int
    decreases s.len() - p,
{
    if 0 <= p < s.len() && s[p] != '\n' {
        line_end(s, p + 1)
    } else {
        p
    }
}

/// Where the `*/` that closes a block comment running from `p` stands.
pub open spec fn block_close(s: Seq<char>, p: int) -> int
    decreases s.len() - p,
{
    if 0 <= p && s.len() - p > 1 && !(s[p] == '*' && s[p + 1] == '/') {
        block_close(s, p + 1)
    } else {
        p
    }
}

/// Where the text goes on after blanks and comments (`#` to the end of the
/// line, `/* */`) from `p`; `None` for a comment that is never closed.
pub open spec fn skip_spec(s: Seq<char>, p: int) -> Option<int>
    decreases s.len() - p,
{
    if p < 0 || p >= s.len() {
        Some(p)
    } else if space_char(s[p]) {
        skip_spec(s, p + 1)
    } else if s[p] == '#' {
        let q = line_end(s, p + 1);
        if p < q <= s.len() { skip_spec(s, q) } else { None }
    } else if s[p] == '/' && s.len() - p > 1 && s[p + 1] == '*' {
        let q = block_close(s, p + 2);
        if s.len() - q <= 1 || q < p { None } else { skip_spec(s, q + 2) }
    } else {
        Some(p)
    }
}

/// An error of the given kind, its description naming the line of `pos`.
fn error_at(s: &Vec<char>, pos: usize, code: UclErrorType, msg: &str) -> (e: UclError)
    ensures
        e.code == code,
{
    let mut line: u64 = 1;
    let mut i: usize = 0;
    while i < pos && i < s.len()
        invariant
            i <= s.len(),
        decreases s.len() - i,
    {
        if s[i] == '\n' && line < u64::MAX {
            line = line + 1;
        }
        i += 1;
    }
    let mut d: Vec<char> = Vec::new();
    push_all(&mut d, &chars_of("line "));
    push_all(&mut d, &crate::emitter::digits_of(line));
    push_all(&mut d, &chars_of(": "));
    push_all(&mut d, &chars_of(msg));
    UclError { code, desc: string_from_chars(&d) }
}

/// Skips blanks and comments (`#` to the end of the line, `/* */`);
/// `None` for a comment that is never closed.
fn skip_ws(s: &Vec<char>, pos: usize) -> (r: Option<usize>)
    requires
        pos <= s.len(),
    ensures
        match r {
            Some(p) => pos <= p <= s.len() && skip_spec(s@, pos as int) == Some(p as int),
            None => skip_spec(s@, pos as int) is None,
        },
        pos == s.len() ==> r == Some(pos),
{
    let mut p: usize = pos;
    loop
        invariant
            pos <= p <= s.len(),
            skip_spec(s@, pos as int) == skip_spec(s@, p as int),
        decreases s.len() - p,
    {
        if p >= s.len() {
            return Some(p);
        }
        let c = s[p];
        if is_space(c) {
            p += 1;
        } else if c == '#' {
            let ghost start = p as int;
            p += 1;
            let ghost q0 = p;
            while p < s.len() && s[p] != '\n'
                invariant
                    pos <= q0 <= p <= s.len(),
                    line_end(s@, q0 as int) == line_end(s@, p as int),
                decreases s.len() - p,
            {
                p += 1;
            }
            assert(line_end(s@, p as int) == p);
        } else if c == '/' && s.len() - p > 1 && s[p + 1] == '*' {
            p += 2;
            let ghost q0 = p;
            while s.len() - p > 1 && !(s[p] == '*' && s[p + 1] == '/')
                invariant
                    pos <= q0 <= p <= s.len(),
                    block_close(s@, q0 as int) == block_close(s@, p as int),
                decreases s.len() - p,
            {
                p += 1;
            }
            assert(block_close(s@, p as int) == p);
            if s.len() - p <= 1 {
                return None;
            }
            p += 2;
        } else {
            return Some(p);
        }
    }
}

pub open spec fn hex_spec(c: char) -> Option<u32> {
    if '0' <= c <= '9' {
        Some((c as u32 - '0' as u32) as u32)
    } else if 'a' <= c <= 'f' {
        Some((c as u32 - 'a' as u32 + 10) as u32)
    } else if 'A' <= c <= 'F' {
        Some((c as u32 - 'A' as u32 + 10) as u32)
    } else {
        None
    }
}

/// The number that the four hex digits at `i` write.
pub open spec fn hex4(s: Seq<char>, i: int) -> Option<u32> {
    match (hex_spec(s[i]), hex_spec(s[i + 1]), hex_spec(s[i + 2]), hex_spec(s[i + 3])) {
        (Some(a), Some(b), Some(c), Some(d)) => Some((((a * 16 + b) * 16 + c) * 16 + d) as u32),
        _ => None,
    }
}

/// Whether `v` is the scalar value of a character.
pub open spec fn scalar_ok(v: u32) -> bool {
    v <= 0x10FFFF && !(0xD800 <= v <= 0xDFFF)
}

pub open spec fn char_code(c: char) -> u32 {
    c as u32
}

/// The character whose scalar value is `v`.
pub open spec fn char_with(v: u32) -> char {
    choose|c: char| #[trigger] char_code(c) == v
}

/// A quoted string whose opening quote `q` stands before `p`: the text read
/// so far is `acc`; the result is the text with escapes decoded and the
/// position after the closing quote, or `None` when the string is never
/// closed or holds a bad `\u` escape.
pub open spec fn quoted_spec(s: Seq<char>, p: int, q: char, acc: Seq<char>) -> Option<(Seq<char>, int)>
    decreases s.len() - p,
{
    if p < 0 || p >= s.len() {
        None
    } else if s[p] == q {
        Some((acc, p + 1))
    } else if s[p] == '\\' {
        if s.len() - p <= 1 {
            None
        } else {
            let e = s[p + 1];
            if e == 'n' {
                quoted_spec(s, p + 2, q, acc.push('\n'))
            } else if e == 't' {
                quoted_spec(s, p + 2, q, acc.push('\t'))
            } else if e == 'r' {
                quoted_spec(s, p + 2, q, acc.push('\r'))
            } else if e == 'b' {
                quoted_spec(s, p + 2, q, acc.push('\u{8}'))
            } else if e == 'f' {
                quoted_spec(s, p + 2, q, acc.push('\u{c}'))
            } else if e == 'u' {
                if s.len() - (p + 2) < 4 {
                    None
                } else {
                    match hex4(s, p + 2) {
                        Some(v) => if v < 128 {
                            quoted_spec(s, p + 6, q, acc.push((v as u8) as char))
                        } else if scalar_ok(v) {
                            quoted_spec(s, p + 6, q, acc.push(char_with(v)))
                        } else {
                            None
                        },
                        None => None,
                    }
                }
            } else {
                quoted_spec(s, p + 2, q, acc.push(e))
            }
        }
    } else {
        quoted_spec(s, p + 1, q, acc.push(s[p]))
    }
}

fn hex_value(c: char) -> (r: Option<u32>)
    ensures
        r == hex_spec(c),
        r is Some ==> r->0 < 16,
{
    if '0' <= c && c <= '9' {
        Some(c as u32 - '0' as u32)
    } else if 'a' <= c && c <= 'f' {
        Some(c as u32 - 'a' as u32 + 10)
    } else if 'A' <= c && c <= 'F' {
        Some(c as u32 - 'A' as u32 + 10)
    } else {
        None
    }
}

/// Relies on `char::from_u32`: the character with the given scalar value,
/// `None` for a surrogate or a value beyond the last one.
#[verifier::external_body]
fn char_from_u32(v: u32) -> (r: Option<char>)
    ensures
        r is Some <==> scalar_ok(v),
        r is Some ==> r->0 == char_with(v),
{
    char::from_u32(v)
}

/// Reads a quoted string that starts at `pos`; backslash escapes are
/// decoded.
fn parse_quoted(s: &Vec<char>, pos: usize) -> (r: Result<(Vec<char>, usize), UclError>)
    requires
        pos < s.len(),
    ensures
        match r {
            Ok((t, p)) => pos < p <= s.len() && quoted_spec(s@, pos + 1, s@[pos as int], Seq::empty()) == Some((t@, p as int)),
            Err(e) => e.code == UclErrorType::Syntax && quoted_spec(s@, pos + 1, s@[pos as int], Seq::empty()) is None,
        },
{
    let q = s[pos];
    let mut out: Vec<char> = Vec::new();
    let mut p: usize = pos + 1;
    proof {
        assert(out@ =~= Seq::<char>::empty());
    }
    loop
        invariant
            pos < p <= s.len(),
            q == s@[pos as int],
            quoted_spec(s@, pos + 1, q, Seq::empty()) == quoted_spec(s@, p as int, q, out@),
        decreases s.len() - p,
    {
        if p >= s.len() {
            return Err(error_at(s, pos, UclErrorType::Syntax, "unterminated string"));
        }
        let c = s[p];
        if c == q {
            return Ok((out, p + 1));
        }
        if c == '\\' {
            if s.len() - p <= 1 {
                return Err(error_at(s, pos, UclErrorType::Syntax, "unterminated string"));
            }
            let e = s[p + 1];
            if e == 'u' {
                if s.len() - (p + 2) < 4 {
                    return Err(error_at(s, p, UclErrorType::Syntax, "bad unicode escape"));
                }
                let h0 = hex_value(s[p + 2]);
                let h1 = hex_value(s[p + 3]);
                let h2 = hex_value(s[p + 4]);
                let h3 = hex_value(s[p + 5]);
                let v: u32 = match (h0, h1, h2, h3) {
                    (Some(a), Some(b), Some(c), Some(d)) => ((a * 16 + b) * 16 + c) * 16 + d,
                    _ => {
                        return Err(error_at(s, p, UclErrorType::Syntax, "bad unicode escape"));
                    },
                };
                if v < 128 {
                    out.push((v as u8) as char);
                } else {
                    match char_from_u32(v) {
                        Some(ch) => {
                            out.push(ch);
                        },
                        None => {
                            return Err(error_at(s, p, UclErrorType::Syntax, "bad unicode escape"));
                        },
                    }
                }
                p += 6;
            } else {
                let d = if e == 'n' {
                    '\n'
                } else if e == 't' {
                    '\t'
                } else if e == 'r' {
                    '\r'
                } else if e == 'b' {
                    '\u{8}'
                } else if e == 'f' {
                    '\u{c}'
                } else {
                    e
                };
                out.push(d);
                p += 2;
            }
        } else {
            out.push(c);
            p += 1;
        }
    }
}

/// The options that decide how text reads.
pub struct Opts {
    pub lower: bool,
    pub no_time: bool,
    pub no_implicit: bool,
    pub vars: Seq<(Seq<char>, Seq<char>)>,
}

pub open spec fn opts_of(p: Parser) -> Opts {
    Opts {
        lower: p.flags & 1 != 0,
        no_time: p.flags & 4 != 0,
        no_implicit: p.flags & 8 != 0,
        vars: vars_view(p.vars@),
    }
}

/// Adds the member `k = v` after the members `acc` of an object. A key seen
/// before joins that key's implicit array (the new member follows the
/// earlier ones), or, with `no_implicit`, fails.
pub open spec fn insert_spec(acc: Seq<Node>, k: Seq<char>, v: Val, no_implicit: bool) -> Option<Seq<Node>> {
    let i = key_pos(acc, k);
    if no_implicit && 0 <= i < acc.len() {
        None
    } else {
        Some(acc.push(Node { key: Some(k), val: v }))
    }
}

/// End of a bare value that starts at `e`: the first character that ends
/// a value, where a `${...}` counts as one piece.
pub open spec fn atom_end(s: Seq<char>, e: int) -> int
    decreases s.len() - e,
{
    if e < 0 || e >= s.len() || atom_stop(s[e]) {
        e
    } else if s[e] == '$' && s.len() - e > 1 && s[e + 1] == '{' {
        let b = crate::vars::brace_pos(s, e + 2);
        if e < b < s.len() { atom_end(s, b + 1) } else { atom_end(s, e + 1) }
    } else {
        atom_end(s, e + 1)
    }
}

/// `e` moved back over the blanks and tabs that end `s[pos..e]`.
pub open spec fn trim_end(s: Seq<char>, pos: int, e: int) -> int
    decreases e,
{
    if 0 <= pos < e <= s.len() && (s[e - 1] == ' ' || s[e - 1] == '\t') {
        trim_end(s, pos, e - 1)
    } else {
        e
    }
}

/// End of a key written without quotes that starts at `e`.
pub open spec fn key_end(s: Seq<char>, e: int) -> int
    decreases s.len() - e,
{
    if 0 <= e < s.len() && key_char(s[e]) {
        key_end(s, e + 1)
    } else {
        e
    }
}

/// The value that starts at `p`, and where the text goes on after it: an
/// object in braces, an array in brackets, a quoted string (variables
/// expanded between double quotes), or a bare word read by `atom_val`.
pub open spec fn value_spec(s: Seq<char>, p: int, d: int, o: Opts) -> Result<(Node, int), UclErrorType>
    decreases (MAX_DEPTH - d) * 2, 0int,
{
    if d < 0 || d > MAX_DEPTH || p < 0 || p >= s.len() {
        Err(UclErrorType::Internal)
    } else {
        let c = s[p];
        if c == '{' || c == '[' {
            if d >= MAX_DEPTH {
                Err(UclErrorType::Nested)
            } else if c == '{' {
                match entries_spec(s, p + 1, d + 1, true, o, Seq::empty()) {
                    Ok((items, q)) => Ok((Node { key: None, val: Val::Object(items) }, q)),
                    Err(e) => Err(e),
                }
            } else {
                match elements_spec(s, p + 1, d + 1, o, Seq::empty()) {
                    Ok((items, q)) => Ok((Node { key: None, val: Val::Array(items) }, q)),
                    Err(e) => Err(e),
                }
            }
        } else if c == '"' || c == '\'' {
            match quoted_spec(s, p + 1, c, Seq::empty()) {
                None => Err(UclErrorType::Syntax),
                Some((t, q)) => Ok((Node { key: None, val: Val::Str(if c == '"' { expand(t, o.vars) } else { t }) }, q)),
            }
        } else {
            let e = atom_end(s, p);
            let t = trim_end(s, p, e);
            if t == p {
                Err(UclErrorType::Syntax)
            } else {
                match atom_val(s.subrange(p, t), o.no_time, o.vars) {
                    Some(v) => Ok((Node { key: None, val: v }, e)),
                    None => Err(UclErrorType::Syntax),
                }
            }
        }
    }
}

/// The key that starts at `q`: quoted, or a run of key characters.
pub open spec fn key_spec(s: Seq<char>, q: int) -> Option<(Seq<char>, int)> {
    if s[q] == '"' || s[q] == '\'' {
        quoted_spec(s, q + 1, s[q], Seq::empty())
    } else {
        let ke = key_end(s, q);
        if ke == q { None } else { Some((s.subrange(q, ke), ke)) }
    }
}

/// The members of an object from `p`, after the members `acc` read so far:
/// `key = value` pairs, the
/// `=` or `:` optional, separated by `;`, `,` or nothing, up to the closing
/// brace when `braced`, else to the end of the text.
pub open spec fn entries_spec(
    s: Seq<char>,
    p: int,
    d: int,
    braced: bool,
    o: Opts,
    acc: Seq<Node>,
) -> Result<(Seq<Node>, int), UclErrorType>
    decreases (MAX_DEPTH - d) * 2 + 1, s.len() - p,
{
    if d < 0 || d > MAX_DEPTH || p < 0 || p > s.len() {
        Err(UclErrorType::Internal)
    } else {
        match skip_spec(s, p) {
            None => Err(UclErrorType::Syntax),
            Some(q) => {
                if q < p || q > s.len() {
                    Err(UclErrorType::Internal)
                } else if q == s.len() {
                    if braced { Err(UclErrorType::Syntax) } else { Ok((acc, q)) }
                } else if braced && s[q] == '}' {
                    Ok((acc, q + 1))
                } else if s[q] == ';' || s[q] == ',' {
                    entries_spec(s, q + 1, d, braced, o, acc)
                } else if s[q] == '.' {
                    Err(UclErrorType::Macro)
                } else {
                    match key_spec(s, q) {
                        None => Err(UclErrorType::Syntax),
                        Some((raw, ak)) => {
                            let key = if o.lower { lower_seq(raw) } else { raw };
                            match skip_spec(s, ak) {
                                None => Err(UclErrorType::Syntax),
                                Some(v0) => {
                                    let v1o = if 0 <= v0 < s.len() && (s[v0] == '=' || s[v0] == ':') {
                                        skip_spec(s, v0 + 1)
                                    } else {
                                        Some(v0)
                                    };
                                    match v1o {
                                        None => Err(UclErrorType::Syntax),
                                        Some(v1) => {
                                            if v1 < 0 || v1 >= s.len() || s[v1] == ';' || s[v1] == ',' || s[v1] == '}'
                                                || s[v1] == ']' {
                                                Err(UclErrorType::Syntax)
                                            } else {
                                                match value_spec(s, v1, d, o) {
                                                    Err(e) => Err(e),
                                                    Ok((v, next)) => match insert_spec(acc, key, v.val, o.no_implicit) {
                                                        None => Err(UclErrorType::Syntax),
                                                        Some(acc2) => {
                                                            if p < next <= s.len() {
                                                                entries_spec(s, next, d, braced, o, acc2)
                                                            } else {
                                                                Err(UclErrorType::Internal)
                                                            }
                                                        },
                                                    },
                                                }
                                            }
                                        },
                                    }
                                },
                            }
                        },
                    }
                }
            },
        }
    }
}

/// The elements of an array from `p` up to the closing bracket, after the
/// elements `acc` read so far, separated by `,`, `;` or nothing.
pub open spec fn elements_spec(s: Seq<char>, p: int, d: int, o: Opts, acc: Seq<Node>) -> Result<(Seq<Node>, int), UclErrorType>
    decreases (MAX_DEPTH - d) * 2 + 1, s.len() - p,
{
    if d < 0 || d > MAX_DEPTH || p < 0 || p > s.len() {
        Err(UclErrorType::Internal)
    } else {
        match skip_spec(s, p) {
            None => Err(UclErrorType::Syntax),
            Some(q) => {
                if q < p || q > s.len() {
                    Err(UclErrorType::Internal)
                } else if q == s.len() {
                    Err(UclErrorType::Syntax)
                } else if s[q] == ']' {
                    Ok((acc, q + 1))
                } else if s[q] == ';' || s[q] == ',' {
                    elements_spec(s, q + 1, d, o, acc)
                } else {
                    match value_spec(s, q, d, o) {
                        Err(e) => Err(e),
                        Ok((v, next)) => {
                            if p < next <= s.len() {
                                elements_spec(s, next, d, o, acc.push(v))
                            } else {
                                Err(UclErrorType::Internal)
                            }
                        },
                    }
                }
            },
        }
    }
}

/// A document: an object or an array in brackets, alone, or else the members
/// of an object without braces.
pub open spec fn doc_spec(s: Seq<char>, o: Opts) -> Result<Node, UclErrorType> {
    match skip_spec(s, 0) {
        None => Err(UclErrorType::Syntax),
        Some(q0) => {
            if 0 <= q0 < s.len() && (s[q0] == '{' || s[q0] == '[') {
                match value_spec(s, q0, 0, o) {
                    Err(e) => Err(e),
                    Ok((root, q1)) => match skip_spec(s, q1) {
                        None => Err(UclErrorType::Syntax),
                        Some(q2) => {
                            if q2 < s.len() {
                                Err(UclErrorType::Syntax)
                            } else if root.val is Object || root.val is Array {
                                Ok(root)
                            } else {
                                Err(UclErrorType::Syntax)
                            }
                        },
                    },
                }
            } else {
                match entries_spec(s, q0, 0, false, o, Seq::empty()) {
                    Err(e) => Err(e),
                    Ok((items, _)) => Ok(Node { key: None, val: Val::Object(items) }),
                }
            }
        },
    }
}

pub proof fn lemma_key_pos_from(items: Seq<Node>, k: Seq<char>, j: int)
    requires
        0 <= j,
    ensures
        key_pos_from_result(items, k, j),
    decreases items.len() - j,
{
    if j < items.len() && items[j].key != Some(k) {
        lemma_key_pos_from(items, k, j + 1);
    }
}

pub open spec fn key_pos_from_result(items: Seq<Node>, k: Seq<char>, j: int) -> bool {
    let r = crate::schema::key_pos_from(items, k, j);
    &&& r == -1 ==> forall|i: int| j <= i < items.len() ==> (#[trigger] items[i]).key != Some(k)
    &&& r != -1 ==> j <= r < items.len() && items[r].key == Some(k)
}

pub open spec fn lowercase_of(flags: i32) -> bool {
    flags & 1 != 0
}

impl Parser {
    /// Create new parser instance with default options
    pub fn new() -> (r: Parser)
        ensures
            r.flags == Flags::DEFAULT,
            r.vars@.len() == 0,
            r.pending@.len() == 0,
    {
        Parser { flags: Flags::DEFAULT, vars: Vec::new(), pending: Vec::new() }
    }

    /// Create new parser with given option flags
    pub fn with_flags(flags: i32) -> (r: Parser)
        ensures
            r.flags == flags,
            r.vars@.len() == 0,
            r.pending@.len() == 0,
    {
        Parser { flags, vars: Vec::new(), pending: Vec::new() }
    }

    /// Feeds a piece of the document; `parse` and `finish` read the pieces
    /// in the order they came.
    pub fn add_chunk(&mut self, text: &str)
        ensures
            final(self).flags == old(self).flags,
            final(self).vars == old(self).vars,
            final(self).pending@ == old(self).pending@ + text@,
    {
        push_all(&mut self.pending, &chars_of(text));
    }

    /// Parses the pieces fed so far. Returns root object on success.
    pub fn finish(self) -> (r: Result<Object, UclError>)
        ensures
            match r {
                Ok(o) => o@.key is None && (o@.val is Object || o@.val is Array)
                    && keys_ok(o@, lowercase_of(self.flags)) && doc_fits(o@) && doc_spec(self.pending@, opts_of(self)) == Ok::<Node, UclErrorType>(o@),
                Err(e) => parse_error(e) && doc_spec(self.pending@, opts_of(self)) == Err::<Node, UclErrorType>(e.code),
            },
    {
        let empty = "";
        proof {
            reveal_strlit("");
            assert(self.pending@ + empty@ =~= self.pending@);
        }
        self.parse(empty)
    }

    /// Register new variable; it hides any earlier one of the same name.
    pub fn register_var(&mut self, name: String, value: String)
        ensures
            final(self).flags == old(self).flags,
            final(self).pending == old(self).pending,
            vars_view(final(self).vars@) == seq![(name@, value@)] + vars_view(old(self).vars@),
            lookup_var_of(*final(self), name@) == Some(value@),
    {
        let v = Var { name: chars_of(name.as_str()), value: chars_of(value.as_str()) };
        self.vars.insert(0, v);
        proof {
            assert(vars_view(self.vars@) =~= seq![(name@, value@)] + vars_view(old(self).vars@));
        }
    }

    fn lowercase(&self) -> (r: bool)
        ensures
            r == lowercase_of(self.flags),
    {
        self.flags & 1 != 0
    }

    fn insert_entry(
        &self,
        s: &Vec<char>,
        at: usize,
        entries: &mut Vec<Object>,
        k: Vec<char>,
        v: Object,
    ) -> (r: Result<(), UclError>)
        requires
            members_ok(nodes(*old(entries)), lowercase_of(self.flags)),
            keys_ok(v@, lowercase_of(self.flags)),
            lowercase_of(self.flags) ==> lower_seq(k@) == k@,
        ensures
            r is Ok ==> members_ok(nodes(*final(entries)), lowercase_of(self.flags)),
            r is Err ==> parse_error(r->Err_0) && r->Err_0.code == UclErrorType::Syntax,
            match r {
                Ok(_) => insert_spec(nodes(*old(entries)), k@, v@.val, opts_of(*self).no_implicit)
                    == Some(nodes(*final(entries))),
                Err(_) => insert_spec(nodes(*old(entries)), k@, v@.val, opts_of(*self).no_implicit) is None,
            },
    {
        let ghost lower = lowercase_of(self.flags);
        let ghost items = nodes(*entries);
        proof {
            lemma_view(v);
        }
        assert(Flags::NO_IMPLICIT_ARRAYS == 8);
        if self.flags & Flags::NO_IMPLICIT_ARRAYS != 0 {
            if find_pos(entries, k.as_slice()).is_some() {
                return Err(error_at(s, at, UclErrorType::Syntax, "duplicate key"));
            }
        }
        let Object { key: _, value, cursor: _ } = v;
        let node = Object { key: Some(k), value, cursor: 0 };
        proof {
            lemma_view(node);
        }
        entries.push(node);
        proof {
            let ni = nodes(*entries);
            assert(ni =~= items.push(node@));
            assert(node@ == Node { key: Some(k@), val: v@.val });
            assert forall|i: int| 0 <= i < ni.len() implies keys_ok(#[trigger] ni[i], lower) by {
                if i < ni.len() - 1 {
                    assert(ni[i] == items[i]);
                }
            }
            assert forall|i: int| 0 <= i < ni.len() && lower implies lower_seq((#[trigger] ni[i]).key->0) == ni[i].key->0 by {
                if i < ni.len() - 1 {
                    assert(ni[i] == items[i]);
                }
            }
        }
        Ok(())
    }
}

impl Parser {
    /// Reads one value that starts at `pos`.
    fn parse_value(&self, s: &Vec<char>, pos: usize, depth: usize) -> (r: Result<(Object, usize), UclError>)
        requires
            pos < s.len(),
            depth <= MAX_DEPTH,
        ensures
            match r {
                Ok((o, p)) => pos < p <= s.len() && o@.key is None && keys_ok(o@, lowercase_of(self.flags))
                    && fits_depth(o@, depth as int)
                    && value_spec(s@, pos as int, depth as int, opts_of(*self)) == Ok::<(Node, int), UclErrorType>((o@, p as int)),
                Err(e) => parse_error(e) && value_spec(s@, pos as int, depth as int, opts_of(*self)) == Err::<(Node, int), UclErrorType>(e.code),
            },
        decreases (MAX_DEPTH - depth) * 2,
    {
        let c = s[pos];
        if c == '{' || c == '[' {
            if depth >= MAX_DEPTH {
                return Err(error_at(s, pos, UclErrorType::Nested, "nesting too deep"));
            }
            if c == '{' {
                let (items, p) = match self.parse_entries(s, pos + 1, depth + 1, true) {
                    Ok(x) => x,
                    Err(e) => {
                        return Err(e);
                    },
                };
                let o = Object { key: None, value: Value::Object(items), cursor: 0 };
                proof {
                    lemma_view(o);
                }
                return Ok((o, p));
            } else {
                let (items, p) = match self.parse_elements(s, pos + 1, depth + 1) {
                    Ok(x) => x,
                    Err(e) => {
                        return Err(e);
                    },
                };
                let o = Object { key: None, value: Value::Array(items), cursor: 0 };
                proof {
                    lemma_view(o);
                }
                return Ok((o, p));
            }
        }
        if c == '"' || c == '\'' {
            let (text, p) = match parse_quoted(s, pos) {
                Ok(x) => x,
                Err(e) => {
                    return Err(e);
                },
            };
            let t = if c == '"' { expand_vars(&text, &self.vars) } else { text };
            let o = Object { key: None, value: Value::Str(t), cursor: 0 };
            proof {
                lemma_view(o);
            }
            return Ok((o, p));
        }
        let mut e: usize = pos;
        while e < s.len() && !ends_atom(s[e])
            invariant
                pos <= e <= s.len(),
                atom_end(s@, pos as int) == atom_end(s@, e as int),
            decreases s.len() - e,
        {
            if s[e] == '$' && s.len() - e > 1 && s[e + 1] == '{' {
                let mut b: usize = e + 2;
                while b < s.len() && s[b] != '}'
                    invariant
                        e + 2 <= b <= s.len(),
                        crate::vars::brace_pos(s@, e + 2) == crate::vars::brace_pos(s@, b as int),
                    decreases s.len() - b,
                {
                    b += 1;
                }
                if b < s.len() {
                    e = b + 1;
                } else {
                    e += 1;
                }
            } else {
                e += 1;
            }
        }
        let mut t: usize = e;
        while t > pos && (s[t - 1] == ' ' || s[t - 1] == '\t')
            invariant
                pos <= t <= e <= s.len(),
                trim_end(s@, pos as int, e as int) == trim_end(s@, pos as int, t as int),
            decreases t,
        {
            t -= 1;
        }
        if t == pos {
            return Err(error_at(s, pos, UclErrorType::Syntax, "missing value"));
        }
        let mut a: Vec<char> = Vec::new();
        let mut k: usize = pos;
        while k < t
            invariant
                pos <= k <= t <= s.len(),
                a@ == s@.subrange(pos as int, k as int),
            decreases t - k,
        {
            a.push(s[k]);
            k += 1;
            proof {
                assert(a@ =~= s@.subrange(pos as int, k as int));
            }
        }
        let no_time = self.flags & Flags::NO_TIME != 0;
        proof {
            assert(Flags::NO_TIME == 4);
        }
        match read_atom(&a, no_time, &self.vars) {
            Some(v) => {
                let o = Object { key: None, value: v, cursor: 0 };
                proof {
                    lemma_view(o);
                }
                Ok((o, e))
            },
            None => Err(error_at(s, pos, UclErrorType::Syntax, "number out of range")),
        }
    }

    /// Reads the members of an object from `pos`: up to the closing brace
    /// when `braced`, else to the end of the text.
    fn parse_entries(&self, s: &Vec<char>, pos: usize, depth: usize, braced: bool) -> (r: Result<(Vec<Object>, usize), UclError>)
        requires
            pos <= s.len(),
            depth <= MAX_DEPTH,
        ensures
            match r {
                Ok((v, p)) => pos <= p <= s.len() && members_ok(nodes(v), lowercase_of(self.flags))
                    && (forall|i: int| 0 <= i < nodes(v).len() ==> fits_depth(#[trigger] nodes(v)[i], depth as int))
                    && entries_spec(s@, pos as int, depth as int, braced, opts_of(*self), Seq::empty())
                    == Ok::<(Seq<Node>, int), UclErrorType>((nodes(v), p as int)),
                Err(e) => parse_error(e)
                    && entries_spec(s@, pos as int, depth as int, braced, opts_of(*self), Seq::empty())
                    == Err::<(Seq<Node>, int), UclErrorType>(e.code),
            },
            !braced && pos == s.len() ==> r is Ok && r->Ok_0.0.len() == 0,
        decreases (MAX_DEPTH - depth) * 2 + 1,
    {
        let lower = self.lowercase();
        let mut entries: Vec<Object> = Vec::new();
        let mut p: usize = pos;
        let ghost o = opts_of(*self);
        proof {
            assert(nodes(entries) =~= Seq::<Node>::empty());
        }
        loop
            invariant
                pos <= p <= s.len(),
                depth <= MAX_DEPTH,
                lower == lowercase_of(self.flags),
                o == opts_of(*self),
                lower == o.lower,
                members_ok(nodes(entries), lower),
                forall|i: int| 0 <= i < nodes(entries).len() ==> fits_depth(#[trigger] nodes(entries)[i], depth as int),
                !braced && pos == s.len() ==> p == pos && entries.len() == 0,
                entries_spec(s@, pos as int, depth as int, braced, o, Seq::empty())
                    == entries_spec(s@, p as int, depth as int, braced, o, nodes(entries)),
            decreases s.len() - p,
        {
            let q = match skip_ws(s, p) {
                Some(q) => q,
                None => {
                    return Err(error_at(s, p, UclErrorType::Syntax, "unterminated comment"));
                },
            };
            if q >= s.len() {
                if braced {
                    return Err(error_at(s, pos, UclErrorType::Syntax, "unterminated object"));
                }
                return Ok((entries, q));
            }
            let c = s[q];
            if braced && c == '}' {
                return Ok((entries, q + 1));
            }
            if c == ';' || c == ',' {
                p = q + 1;
                continue;
            }
            if c == '.' {
                return Err(error_at(s, q, UclErrorType::Macro, "macros are not supported"));
            }
            let (raw, after_key) = if c == '"' || c == '\'' {
                match parse_quoted(s, q) {
                    Ok(x) => x,
                    Err(e) => {
                        return Err(e);
                    },
                }
            } else {
                let mut e: usize = q;
                let mut k: Vec<char> = Vec::new();
                while e < s.len() && is_key_char(s[e])
                    invariant
                        q <= e <= s.len(),
                        key_end(s@, q as int) == key_end(s@, e as int),
                        k@ == s@.subrange(q as int, e as int),
                    decreases s.len() - e,
                {
                    k.push(s[e]);
                    e += 1;
                    proof {
                        assert(k@ =~= s@.subrange(q as int, e as int));
                    }
                }
                if e == q {
                    return Err(error_at(s, q, UclErrorType::Syntax, "unexpected character"));
                }
                (k, e)
            };
            assert(key_spec(s@, q as int) == Some((raw@, after_key as int)));
            let key = if lower { lower_all(&raw) } else { raw };
            proof {
                if lower {
                    lemma_lower_idem(raw@);
                }
            }
            let mut v_at = match skip_ws(s, after_key) {
                Some(x) => x,
                None => {
                    return Err(error_at(s, after_key, UclErrorType::Syntax, "unterminated comment"));
                },
            };
            if v_at < s.len() && (s[v_at] == '=' || s[v_at] == ':') {
                v_at = match skip_ws(s, v_at + 1) {
                    Some(x) => x,
                    None => {
                        return Err(error_at(s, v_at, UclErrorType::Syntax, "unterminated comment"));
                    },
                };
            }
            if v_at >= s.len() || s[v_at] == ';' || s[v_at] == ',' || s[v_at] == '}' || s[v_at] == ']' {
                return Err(error_at(s, v_at, UclErrorType::Syntax, "missing value"));
            }
            let (v, next) = match self.parse_value(s, v_at, depth) {
                Ok(x) => x,
                Err(e) => {
                    return Err(e);
                },
            };
            let ghost before = nodes(entries);
            let ghost vn = v@;
            match self.insert_entry(s, q, &mut entries, key, v) {
                Ok(()) => {
                    proof {
                        let ni = nodes(entries);
                        assert forall|i: int| 0 <= i < ni.len() implies fits_depth(#[trigger] ni[i], depth as int) by {
                            if i < before.len() {
                                assert(ni[i] == before[i]);
                            } else {
                                assert(ni[i].val == vn.val);
                            }
                        }
                    }
                },
                Err(e) => {
                    return Err(e);
                },
            }
            p = next;
        }
    }

    /// Reads the elements of an array from `pos` up to the closing bracket.
    fn parse_elements(&self, s: &Vec<char>, pos: usize, depth: usize) -> (r: Result<(Vec<Object>, usize), UclError>)
        requires
            pos <= s.len(),
            depth <= MAX_DEPTH,
        ensures
            match r {
                Ok((v, p)) => pos <= p <= s.len() && elements_ok(nodes(v), lowercase_of(self.flags))
                    && (forall|i: int| 0 <= i < nodes(v).len() ==> fits_depth(#[trigger] nodes(v)[i], depth as int))
                    && elements_spec(s@, pos as int, depth as int, opts_of(*self), Seq::empty()) == Ok::<(Seq<Node>, int), UclErrorType>((nodes(v), p as int)),
                Err(e) => parse_error(e)
                    && elements_spec(s@, pos as int, depth as int, opts_of(*self), Seq::empty()) == Err::<(Seq<Node>, int), UclErrorType>(e.code),
            },
        decreases (MAX_DEPTH - depth) * 2 + 1,
    {
        let ghost lower = lowercase_of(self.flags);
        let ghost o = opts_of(*self);
        let mut items: Vec<Object> = Vec::new();
        let mut p: usize = pos;
        proof {
            assert(nodes(items) =~= Seq::<Node>::empty());
        }
        loop
            invariant
                pos <= p <= s.len(),
                depth <= MAX_DEPTH,
                lower == lowercase_of(self.flags),
                o == opts_of(*self),
                elements_ok(nodes(items), lower),
                forall|i: int| 0 <= i < nodes(items).len() ==> fits_depth(#[trigger] nodes(items)[i], depth as int),
                elements_spec(s@, pos as int, depth as int, o, Seq::empty())
                    == elements_spec(s@, p as int, depth as int, o, nodes(items)),
            decreases s.len() - p,
        {
            let q = match skip_ws(s, p) {
                Some(q) => q,
                None => {
                    return Err(error_at(s, p, UclErrorType::Syntax, "unterminated comment"));
                },
            };
            if q >= s.len() {
                return Err(error_at(s, pos, UclErrorType::Syntax, "unterminated array"));
            }
            let c = s[q];
            if c == ']' {
                return Ok((items, q + 1));
            }
            if c == ';' || c == ',' {
                p = q + 1;
                continue;
            }
            let (v, next) = match self.parse_value(s, q, depth) {
                Ok(x) => x,
                Err(e) => {
                    return Err(e);
                },
            };
            let ghost before = nodes(items);
            proof {
                lemma_view(v);
            }
            items.push(v);
            proof {
                let ni = nodes(items);
                assert(ni =~= before.push(v@));
                assert forall|i: int| 0 <= i < ni.len() implies (#[trigger] ni[i]).key is None && keys_ok(ni[i], lower)
                    && fits_depth(ni[i], depth as int) by {
                    if i < ni.len() - 1 {
                        assert(ni[i] == before[i]);
                    }
                }
            }
            p = next;
        }
    }

    /// Parse given string, after the pieces fed so far. Returns root object on
    /// success.
    ///
    /// It moves out `Parser`.
    pub fn parse(self, text: &str) -> (r: Result<Object, UclError>)
        ensures
            match r {
                Ok(o) => o@.key is None && (o@.val is Object || o@.val is Array)
                    && keys_ok(o@, lowercase_of(self.flags)) && doc_fits(o@)
                    && doc_spec(self.pending@ + text@, opts_of(self)) == Ok::<Node, UclErrorType>(o@),
                Err(e) => parse_error(e) && doc_spec(self.pending@ + text@, opts_of(self)) == Err::<Node, UclErrorType>(e.code),
            },
            self.pending@.len() + text@.len() == 0 ==> r is Ok && r->Ok_0@ == (Node { key: None, val: Val::Object(Seq::empty()) }),
    {
        let mut s = crate::text::copy_chars(&self.pending);
        push_all(&mut s, &chars_of(text));
        let q0 = match skip_ws(&s, 0) {
            Some(p) => p,
            None => {
                return Err(error_at(&s, 0, UclErrorType::Syntax, "unterminated comment"));
            },
        };
        if q0 < s.len() && (s[q0] == '{' || s[q0] == '[') {
            let (root, q1) = match self.parse_value(&s, q0, 0) {
                Ok(x) => x,
                Err(e) => {
                    return Err(e);
                },
            };
            let q2 = match skip_ws(&s, q1) {
                Some(p) => p,
                None => {
                    return Err(error_at(&s, q1, UclErrorType::Syntax, "unterminated comment"));
                },
            };
            if q2 < s.len() {
                return Err(error_at(&s, q2, UclErrorType::Syntax, "unexpected text after the document"));
            }
            proof {
                lemma_view(root);
                if root@.val is Object {
                    let items = root@.val->Object_0;
                    assert forall|i: int| 0 <= i < items.len() implies fits_depth(#[trigger] items[i], 0) by {
                        lemma_fits_lower(items[i], 0);
                    }
                }
            }
            if !(matches!(root.value, Value::Object(_)) || matches!(root.value, Value::Array(_))) {
                return Err(error_at(&s, q0, UclErrorType::Syntax, "unexpected document"));
            }
            return Ok(root);
        }
        let (entries, _) = match self.parse_entries(&s, q0, 0, false) {
            Ok(x) => x,
            Err(e) => {
                return Err(e);
            },
        };
        let root = Object { key: None, value: Value::Object(entries), cursor: 0 };
        proof {
            lemma_view(root);
            if self.pending@.len() + text@.len() == 0 {
                assert(nodes(entries) =~= Seq::<Node>::empty());
            }
        }
        Ok(root)
    }
}

pub open spec fn lookup_var_of(p: Parser, name: Seq<char>) -> Option<Seq<char>> {
    crate::vars::lookup_var(vars_view(p.vars@), name)
}

} // verus!
