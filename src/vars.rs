use vstd::prelude::*;

verus! {

/// A registered variable: `$name` or `${name}` in a value stands for `value`.
pub struct Var {
    pub name: Vec<char>,
    pub value: Vec<char>,
}

pub open spec fn vars_view(v: Seq<Var>) -> Seq<(Seq<char>, Seq<char>)> {
    Seq::new(v.len(), |i: int| (v[i].name@, v[i].value@))
}

/// The value of the first variable named `name`.
pub open spec fn lookup_var(vars: Seq<(Seq<char>, Seq<char>)>, name: Seq<char>) -> Option<Seq<char>>
    decreases vars.len(),
{
    if vars.len() == 0 {
        None
    } else if vars[0].0 == name {
        Some(vars[0].1)
    } else {
        lookup_var(vars.drop_first(), name)
    }
}

pub open spec fn is_name_char(c: char) -> bool {
    ('a' <= c <= 'z') || ('A' <= c <= 'Z') || ('0' <= c <= '9') || c == '_'
}

/// Length of the run of name characters that starts at `i`.
pub open spec fn name_run(a: Seq<char>, i: int) -> int
    decreases a.len() - i,
{
    if 0 <= i < a.len() && is_name_char(a[i]) {
        1 + name_run(a, i + 1)
    } else {
        0
    }
}

/// Position of the first `}` at or after `i`, or -1.
pub open spec fn brace_pos(a: Seq<char>, i: int) -> int
    decreases a.len() - i,
{
    if i < 0 || i >= a.len() {
        -1
    } else if a[i] == '}' {
        i
    } else {
        brace_pos(a, i + 1)
    }
}

/// The text `a[i..]` with each `${name}` and each `$name` (a maximal run of
/// letters, digits and `_`) of a registered variable replaced by its value;
/// any other `$` stays as it is.
pub open spec fn expand_from(a: Seq<char>, vars: Seq<(Seq<char>, Seq<char>)>, i: int) -> Seq<char>
    decreases a.len() - i,
{
    if i < 0 || i >= a.len() {
        Seq::empty()
    } else if a[i] == '$' && i + 1 < a.len() && a[i + 1] == '{' && i < brace_pos(a, i + 2) < a.len() {
        let close = brace_pos(a, i + 2);
        match lookup_var(vars, a.subrange(i + 2, close)) {
            Some(v) => v + expand_from(a, vars, close + 1),
            None => a.subrange(i, close + 1) + expand_from(a, vars, close + 1),
        }
    } else if a[i] == '$' && 0 < name_run(a, i + 1) && i + 1 + name_run(a, i + 1) <= a.len() {
        let end = i + 1 + name_run(a, i + 1);
        match lookup_var(vars, a.subrange(i + 1, end)) {
            Some(v) => v + expand_from(a, vars, end),
            None => a.subrange(i, end) + expand_from(a, vars, end),
        }
    } else {
        seq![a[i]] + expand_from(a, vars, i + 1)
    }
}

pub open spec fn expand(a: Seq<char>, vars: Seq<(Seq<char>, Seq<char>)>) -> Seq<char> {
    expand_from(a, vars, 0)
}

proof fn lemma_brace_pos(a: Seq<char>, i: int)
    requires
        0 <= i,
    ensures
        brace_pos(a, i) == -1 || (i <= brace_pos(a, i) < a.len() && a[brace_pos(a, i)] == '}'),
    decreases a.len() - i,
{
    if i < a.len() && a[i] != '}' {
        lemma_brace_pos(a, i + 1);
    }
}

proof fn lemma_name_run(a: Seq<char>, i: int)
    requires
        0 <= i,
    ensures
        0 <= name_run(a, i),
        i + name_run(a, i) <= a.len() || name_run(a, i) == 0,
    decreases a.len() - i,
{
    if 0 <= i < a.len() && is_name_char(a[i]) {
        lemma_name_run(a, i + 1);
    }
}

fn find_var<'a>(vars: &'a Vec<Var>, a: &Vec<char>, lo: usize, hi: usize) -> (r: Option<&'a Vec<char>>)
    requires
        lo <= hi <= a.len(),
    ensures
        match r {
            Some(v) => lookup_var(vars_view(vars@), a@.subrange(lo as int, hi as int)) == Some(v@),
            None => lookup_var(vars_view(vars@), a@.subrange(lo as int, hi as int)) is None,
        },
{
    let ghost vv = vars_view(vars@);
    let ghost name = a@.subrange(lo as int, hi as int);
    let mut j: usize = 0;
    assert(vv.subrange(0, vv.len() as int) =~= vv);
    while j < vars.len()
        invariant
            j <= vars.len(),
            vv == vars_view(vars@),
            name == a@.subrange(lo as int, hi as int),
            lo <= hi <= a.len(),
            lookup_var(vv, name) == lookup_var(vv.subrange(j as int, vv.len() as int), name),
        decreases vars.len() - j,
    {
        let ghost rest = vv.subrange(j as int, vv.len() as int);
        assert(rest[0] == vv[j as int]);
        assert(rest.drop_first() =~= vv.subrange(j + 1, vv.len() as int));
        if crate::text::chars_eq_range(&vars[j].name, a, lo, hi) {
            return Some(&vars[j].value);
        }
        j += 1;
    }
    None
}

fn push_range(out: &mut Vec<char>, a: &Vec<char>, lo: usize, hi: usize)
    requires
        lo <= hi <= a.len(),
    ensures
        final(out)@ == old(out)@ + a@.subrange(lo as int, hi as int),
{
    let mut i: usize = lo;
    while i < hi
        invariant
            lo <= i <= hi <= a.len(),
            out@ == old(out)@ + a@.subrange(lo as int, i as int),
        decreases hi - i,
    {
        out.push(a[i]);
        i += 1;
        proof {
            assert(a@.subrange(lo as int, i as int) =~= a@.subrange(lo as int, i - 1) + seq![a@[i - 1]]);
        }
    }
}

/// The text with registered variables replaced by their values.
pub fn expand_vars(a: &Vec<char>, vars: &Vec<Var>) -> (r: Vec<char>)
    ensures
        r@ == expand(a@, vars_view(vars@)),
{
    let ghost vv = vars_view(vars@);
    let mut out: Vec<char> = Vec::new();
    let mut i: usize = 0;
    while i < a.len()
        invariant
            i <= a.len(),
            vv == vars_view(vars@),
            expand(a@, vv) == out@ + expand_from(a@, vv, i as int),
        decreases a.len() - i,
    {
        let ghost before = out@;
        let ghost i0 = i as int;
        let c = a[i];
        if c == '$' && i + 1 < a.len() && a[i + 1] == '{' {
            let mut k: usize = i + 2;
            while k < a.len() && a[k] != '}'
                invariant
                    i + 2 <= k <= a.len(),
                    brace_pos(a@, (i + 2) as int) == brace_pos(a@, k as int),
                decreases a.len() - k,
            {
                k += 1;
            }
            proof {
                lemma_brace_pos(a@, k as int);
            }
            if k < a.len() {
                match find_var(vars, a, i + 2, k) {
                    Some(v) => crate::text::push_all(&mut out, v),
                    None => push_range(&mut out, a, i, k + 1),
                }
                i = k + 1;
                proof {
                    assert(out@ + expand_from(a@, vv, i as int) =~= before + expand_from(a@, vv, i0));
                }
                continue;
            }
        }
        if c == '$' {
            let mut e: usize = i + 1;
            while e < a.len() && (('a' <= a[e] && a[e] <= 'z') || ('A' <= a[e] && a[e] <= 'Z') || ('0' <= a[e] && a[e] <= '9') || a[e] == '_')
                invariant
                    i + 1 <= e <= a.len(),
                    name_run(a@, i0 + 1) == (e - (i0 + 1)) + name_run(a@, e as int),
                decreases a.len() - e,
            {
                e += 1;
            }
            proof {
                lemma_name_run(a@, e as int);
            }
            if e > i + 1 {
                match find_var(vars, a, i + 1, e) {
                    Some(v) => crate::text::push_all(&mut out, v),
                    None => push_range(&mut out, a, i, e),
                }
                i = e;
                proof {
                    assert(out@ + expand_from(a@, vv, i as int) =~= before + expand_from(a@, vv, i0));
                }
                continue;
            }
        }
        out.push(c);
        i += 1;
        proof {
            assert(out@ + expand_from(a@, vv, i as int) =~= before + expand_from(a@, vv, i0));
        }
    }
    proof {
        assert(out@ + expand_from(a@, vv, i as int) =~= out@);
    }
    out
}

} // verus!
