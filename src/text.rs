use vstd::prelude::*;

verus! {

/// The characters of a string, in order.
pub fn chars_of(s: &str) -> (r: Vec<char>)
    ensures
        r@ == s@,
{
    let mut r: Vec<char> = Vec::new();
    for c in it: s.chars()
        invariant
            r@ == it.seq().take(it.index() as int),
    {
        r.push(c);
    }
    r
}

} // verus!

verus! {

/// An independent copy of a character sequence.
pub fn copy_chars(v: &Vec<char>) -> (r: Vec<char>)
    ensures
        r@ == v@,
{
    let mut r: Vec<char> = Vec::new();
    let mut i: usize = 0;
    while i < v.len()
        invariant
            i <= v.len(),
            r@ == v@.take(i as int),
        decreases v.len() - i,
    {
        r.push(v[i]);
        i += 1;
        proof {
            assert(v@.take(i as int) =~= v@.take(i - 1) + seq![v@[i - 1]]);
        }
    }
    proof {
        assert(v@.take(i as int) =~= v@);
    }
    r
}

/// Relies on `String::push`: the character is appended at the end.
#[verifier::external_body]
fn push_char(s: &mut String, c: char)
    ensures
        final(s)@ == old(s)@.push(c),
{
    s.push(c)
}

/// A string that holds the characters in order.
pub fn string_from_chars(v: &Vec<char>) -> (r: String)
    ensures
        r@ == v@,
{
    let mut r = String::new();
    let mut i: usize = 0;
    while i < v.len()
        invariant
            i <= v.len(),
            r@ == v@.take(i as int),
        decreases v.len() - i,
    {
        push_char(&mut r, v[i]);
        i += 1;
        proof {
            assert(v@.take(i as int) =~= v@.take(i - 1).push(v@[i - 1]));
        }
    }
    proof {
        assert(v@.take(i as int) =~= v@);
    }
    r
}

/// Whether `a` equals the characters `p[lo..hi]`.
pub fn chars_eq_range(a: &Vec<char>, p: &Vec<char>, lo: usize, hi: usize) -> (r: bool)
    requires
        lo <= hi <= p.len(),
    ensures
        r == (a@ == p@.subrange(lo as int, hi as int)),
{
    if a.len() != hi - lo {
        proof {
            assert(p@.subrange(lo as int, hi as int).len() == hi - lo);
        }
        return false;
    }
    let mut i: usize = 0;
    while i < a.len()
        invariant
            a.len() == hi - lo,
            lo <= hi <= p.len(),
            i <= a.len(),
            forall|j: int| 0 <= j < i ==> a@[j] == p@[lo + j],
        decreases a.len() - i,
    {
        if a[i] != p[lo + i] {
            proof {
                assert(a@[i as int] != p@.subrange(lo as int, hi as int)[i as int]);
            }
            return false;
        }
        i += 1;
    }
    proof {
        assert(a@ =~= p@.subrange(lo as int, hi as int));
    }
    true
}

} // verus!

verus! {

/// Whether `a` holds exactly the characters of `w`.
pub fn chars_eq_slice(a: &Vec<char>, w: &[char]) -> (r: bool)
    ensures
        r == (a@ == w@),
{
    if a.len() != w.len() {
        return false;
    }
    let mut i: usize = 0;
    while i < a.len()
        invariant
            i <= a.len(),
            a.len() == w@.len(),
            forall|j: int| 0 <= j < i ==> a@[j] == w@[j],
        decreases a.len() - i,
    {
        if a[i] != w[i] {
            return false;
        }
        i += 1;
    }
    proof {
        assert(a@ =~= w@);
    }
    true
}

} // verus!

verus! {

/// Appends the characters of `v`.
pub fn push_all(out: &mut Vec<char>, v: &Vec<char>)
    ensures
        final(out)@ == old(out)@ + v@,
{
    let mut i: usize = 0;
    while i < v.len()
        invariant
            i <= v.len(),
            out@ == old(out)@ + v@.take(i as int),
        decreases v.len() - i,
    {
        out.push(v[i]);
        i += 1;
        proof {
            assert(v@.take(i as int) =~= v@.take(i - 1) + seq![v@[i - 1]]);
        }
    }
    proof {
        assert(v@.take(i as int) =~= v@);
    }
}

} // verus!
