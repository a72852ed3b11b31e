use vstd::prelude::*;
use vstd::utf8::encode_utf8;
use crate::object::{lemma_view, nodes, Node, Object, Val, Value};
use crate::text::string_from_chars;
use crate::group::{group_view, grouped};

verus! {

/// The low `k` bytes of `x`, most significant first.
pub open spec fn be_bytes(x: nat, k: nat) -> Seq<u8>
    decreases k,
{
    if k == 0 {
        Seq::empty()
    } else {
        be_bytes(x / 256, (k - 1) as nat) + seq![(x % 256) as u8]
    }
}

pub const LIMIT: u64 = 0x100000000;

/// Header of a string of `n` bytes; `None` when `n` has no encoding.
pub open spec fn str_header(n: nat) -> Option<Seq<u8>> {
    if n < 32 {
        Some(seq![(0xa0 + n) as u8])
    } else if n < 256 {
        Some(seq![0xd9u8, n as u8])
    } else if n < 65536 {
        Some(seq![0xdau8] + be_bytes(n, 2))
    } else if n < LIMIT {
        Some(seq![0xdbu8] + be_bytes(n, 4))
    } else {
        None
    }
}

/// Header of an array (`map` false) or a map of `n` entries.
pub open spec fn container_header(n: nat, map: bool) -> Option<Seq<u8>> {
    if n < 16 {
        Some(seq![((if map { 0x80nat } else { 0x90nat }) + n) as u8])
    } else if n < 65536 {
        Some(seq![if map { 0xdeu8 } else { 0xdcu8 }] + be_bytes(n, 2))
    } else if n < LIMIT {
        Some(seq![if map { 0xdfu8 } else { 0xddu8 }] + be_bytes(n, 4))
    } else {
        None
    }
}

pub open spec fn int_bytes(i: int) -> Seq<u8> {
    if 0 <= i < 128 {
        seq![i as u8]
    } else if -32 <= i < 0 {
        seq![(i + 256) as u8]
    } else {
        seq![0xd3u8] + be_bytes((if i < 0 { i + 0x10000000000000000 } else { i }) as nat, 8)
    }
}

pub open spec fn str_bytes(s: Seq<char>) -> Option<Seq<u8>> {
    match str_header(encode_utf8(s).len()) {
        Some(h) => Some(h + encode_utf8(s)),
        None => None,
    }
}

/// The decimals of a tree, in pre-order.
pub open spec fn decimals_of(n: Node) -> Seq<crate::object::Decimal>
    decreases n,
{
    match n.val {
        Val::Float(d) => seq![d],
        Val::Array(items) => decimals_items(items),
        Val::Object(items) => decimals_items(items),
        _ => Seq::empty(),
    }
}

pub open spec fn decimals_items(items: Seq<Node>) -> Seq<crate::object::Decimal>
    decreases items,
{
    if items.len() == 0 {
        Seq::empty()
    } else {
        decimals_items(items.drop_last()) + decimals_of(items.last())
    }
}

/// Number of decimal nodes in a tree.
pub open spec fn float_count(n: Node) -> nat {
    decimals_of(n).len()
}

pub open spec fn float_count_items(items: Seq<Node>) -> nat {
    decimals_items(items).len()
}

pub open spec fn opt_cat(a: Option<Seq<u8>>, b: Option<Seq<u8>>) -> Option<Seq<u8>> {
    match (a, b) {
        (Some(x), Some(y)) => Some(x + y),
        _ => None,
    }
}

/// MessagePack of a node: integers in the shortest of fixint and int 64,
/// decimals as float 64 whose bits are `bits[start]`, `bits[start + 1]`, ...
/// in pre-order; `None` when a length has no encoding.
pub open spec fn msgpack_of(n: Node, bits: Seq<u64>, start: int) -> Option<Seq<u8>>
    decreases n,
{
    match n.val {
        Val::Null => Some(seq![0xc0u8]),
        Val::Boolean(b) => Some(seq![if b { 0xc3u8 } else { 0xc2u8 }]),
        Val::Int(i) => Some(int_bytes(i as int)),
        Val::Float(_) => Some(seq![0xcbu8] + be_bytes(bits[start] as nat, 8)),
        Val::Str(s) => str_bytes(s),
        Val::Array(items) => opt_cat(container_header(items.len(), false), msgpack_items(items, bits, start, false)),
        Val::Object(items) => opt_cat(container_header(items.len(), true), msgpack_items(items, bits, start, true)),
    }
}

pub open spec fn key_of(n: Node) -> Seq<char> {
    match n.key {
        Some(k) => k,
        None => Seq::empty(),
    }
}

pub open spec fn msgpack_items(items: Seq<Node>, bits: Seq<u64>, start: int, keyed: bool) -> Option<Seq<u8>>
    decreases items,
{
    if items.len() == 0 {
        Some(Seq::empty())
    } else {
        let last = items.last();
        let before = msgpack_items(items.drop_last(), bits, start, keyed);
        let at = start + float_count_items(items.drop_last());
        opt_cat(
            before,
            if keyed { opt_cat(str_bytes(key_of(last)), msgpack_of(last, bits, at)) } else { msgpack_of(last, bits, at) },
        )
    }
}

fn push_be(out: &mut Vec<u8>, x: u64, k: u64)
    requires
        k <= 8,
    ensures
        final(out)@ == old(out)@ + be_bytes(x as nat, k as nat),
    decreases k,
{
    if k > 0 {
        push_be(out, x / 256, k - 1);
        out.push((x % 256) as u8);
    }
}

fn push_str_header(out: &mut Vec<u8>, n: usize) -> (ok: bool)
    ensures
        ok == (str_header(n as nat) is Some),
        ok ==> final(out)@ == old(out)@ + str_header(n as nat)->0,
{
    if n < 32 {
        out.push((0xa0 + n) as u8);
    } else if n < 256 {
        out.push(0xd9);
        out.push(n as u8);
    } else if n < 65536 {
        out.push(0xda);
        push_be(out, n as u64, 2);
    } else if (n as u64) < LIMIT {
        out.push(0xdb);
        push_be(out, n as u64, 4);
    } else {
        return false;
    }
    proof {
        assert(final(out)@ =~= old(out)@ + str_header(n as nat)->0);
    }
    true
}

fn push_container_header(out: &mut Vec<u8>, n: usize, map: bool) -> (ok: bool)
    ensures
        ok == (container_header(n as nat, map) is Some),
        ok ==> final(out)@ == old(out)@ + container_header(n as nat, map)->0,
{
    if n < 16 {
        out.push(((if map { 0x80 } else { 0x90 }) + n) as u8);
    } else if n < 65536 {
        out.push(if map { 0xde } else { 0xdc });
        push_be(out, n as u64, 2);
    } else if (n as u64) < LIMIT {
        out.push(if map { 0xdf } else { 0xdd });
        push_be(out, n as u64, 4);
    } else {
        return false;
    }
    proof {
        assert(final(out)@ =~= old(out)@ + container_header(n as nat, map)->0);
    }
    true
}

fn push_int(out: &mut Vec<u8>, i: i64)
    ensures
        final(out)@ == old(out)@ + int_bytes(i as int),
{
    if 0 <= i && i < 128 {
        out.push(i as u8);
    } else if -32 <= i && i < 0 {
        out.push((i + 256) as u8);
    } else {
        out.push(0xd3);
        let u: u64 = if i < 0 { (i as i128 + 0x10000000000000000i128) as u64 } else { i as u64 };
        push_be(out, u, 8);
    }
    proof {
        assert(final(out)@ =~= old(out)@ + int_bytes(i as int));
    }
}

fn push_str(out: &mut Vec<u8>, s: &Vec<char>) -> (ok: bool)
    ensures
        ok == (str_bytes(s@) is Some),
        ok ==> final(out)@ == old(out)@ + str_bytes(s@)->0,
{
    let st = string_from_chars(s);
    let b = st.as_str().as_bytes();
    if !push_str_header(out, b.len()) {
        return false;
    }
    let ghost mid = out@;
    let mut i: usize = 0;
    while i < b.len()
        invariant
            i <= b@.len(),
            out@ == mid + b@.take(i as int),
        decreases b@.len() - i,
    {
        out.push(b[i]);
        i += 1;
        proof {
            assert(b@.take(i as int) =~= b@.take(i - 1) + seq![b@[i - 1]]);
        }
    }
    proof {
        assert(b@.take(i as int) =~= b@);
    }
    true
}

fn write_msgpack(o: &Object, out: &mut Vec<u8>, bits: &Vec<u64>, start: usize) -> (ok: bool)
    requires
        start + float_count(o@) <= bits.len(),
    ensures
        ok == (msgpack_of(o@, bits@, start as int) is Some),
        ok ==> final(out)@ == old(out)@ + msgpack_of(o@, bits@, start as int)->0,
    decreases o,
{
    proof {
        lemma_view(*o);
    }
    let ghost start_out = out@;
    match &o.value {
        Value::Null => {
            out.push(0xc0);
        },
        Value::Boolean(b) => {
            out.push(if *b { 0xc3 } else { 0xc2 });
        },
        Value::Int(i) => {
            push_int(out, *i);
        },
        Value::Float(_) => {
            out.push(0xcb);
            push_be(out, bits[start], 8);
        },
        Value::Str(s) => {
            return push_str(out, s);
        },
        Value::Array(v) => {
            if !push_container_header(out, v.len(), false) {
                return false;
            }
            let ghost mid = out@;
            let ok = write_msgpack_items(v, out, bits, start, false);
            proof {
                if ok {
                    assert(out@ =~= start_out + msgpack_of(o@, bits@, start as int)->0);
                }
            }
            return ok;
        },
        Value::Object(v) => {
            if !push_container_header(out, v.len(), true) {
                return false;
            }
            let ok = write_msgpack_items(v, out, bits, start, true);
            proof {
                if ok {
                    assert(out@ =~= start_out + msgpack_of(o@, bits@, start as int)->0);
                }
            }
            return ok;
        },
    }
    proof {
        assert(out@ =~= start_out + msgpack_of(o@, bits@, start as int)->0);
    }
    true
}

fn write_msgpack_items(v: &Vec<Object>, out: &mut Vec<u8>, bits: &Vec<u64>, start: usize, keyed: bool) -> (ok: bool)
    requires
        start + float_count_items(nodes(*v)) <= bits.len(),
    ensures
        ok == (msgpack_items(nodes(*v), bits@, start as int, keyed) is Some),
        ok ==> final(out)@ == old(out)@ + msgpack_items(nodes(*v), bits@, start as int, keyed)->0,
    decreases v,
{
    let ghost items = nodes(*v);
    let ghost open = out@;
    let mut i: usize = 0;
    let mut k: usize = start;
    proof {
        assert(items.take(0).len() == 0);
        lemma_count_prefix(items, 0);
    }
    while i < v.len()
        invariant
            i <= v.len(),
            items == nodes(*v),
            start + float_count_items(items) <= bits.len(),
            k == start + float_count_items(items.take(i as int)),
            msgpack_items(items.take(i as int), bits@, start as int, keyed) is Some,
            out@ == open + msgpack_items(items.take(i as int), bits@, start as int, keyed)->0,
        decreases v.len() - i,
    {
        let ghost n = items[i as int];
        let ghost prev = msgpack_items(items.take(i as int), bits@, start as int, keyed)->0;
        proof {
            let t = items.take(i + 1);
            assert(t.drop_last() =~= items.take(i as int));
            assert(t.last() == n);
            assert(n == v[i as int]@);
            lemma_count_prefix(items, i + 1);
            lemma_count_prefix(items, i as int);
        }
        let ghost before = out@;
        if keyed {
            let e: Vec<char> = Vec::new();
            proof {
                lemma_view(v[i as int]);
            }
            let key = match &v[i].key {
                Some(kk) => kk,
                None => &e,
            };
            proof {
                assert(key@ =~= key_of(n));
            }
            if !push_str(out, key) {
                proof {
                    lemma_items_none(items, bits@, start as int, keyed, i + 1);
                    assert(items.take(items.len() as int) =~= items);
                }
                return false;
            }
        }
        let ghost mid = out@;
        if !write_msgpack(&v[i], out, bits, k) {
            proof {
                lemma_items_none(items, bits@, start as int, keyed, i + 1);
                assert(items.take(items.len() as int) =~= items);
            }
            return false;
        }
        proof {
            assert(out@ =~= open + msgpack_items(items.take(i + 1), bits@, start as int, keyed)->0);
        }
        let f = match float_count_of(&v[i]) {
            Some(f) => f,
            None => {
                proof {
                    assert(false);
                }
                0
            },
        };
        k = k + f;
        i += 1;
    }
    proof {
        assert(items.take(i as int) =~= items);
    }
    true
}

proof fn lemma_count_prefix(items: Seq<Node>, i: int)
    requires
        0 <= i <= items.len(),
    ensures
        float_count_items(items.take(i)) <= float_count_items(items),
    decreases items.len() - i,
{
    if i < items.len() {
        lemma_count_prefix(items, i + 1);
        let t = items.take(i + 1);
        assert(t.drop_last() =~= items.take(i));
    } else {
        assert(items.take(i) =~= items);
    }
}

proof fn lemma_items_none(items: Seq<Node>, bits: Seq<u64>, start: int, keyed: bool, j: int)
    requires
        0 < j <= items.len(),
        msgpack_items(items.take(j), bits, start, keyed) is None,
    ensures
        msgpack_items(items.take(items.len() as int), bits, start, keyed) is None,
    decreases items.len() - j,
{
    if j < items.len() {
        let t = items.take(j + 1);
        assert(t.drop_last() =~= items.take(j));
        lemma_items_none(items, bits, start, keyed, j + 1);
    }
}

fn float_count_of(o: &Object) -> (r: Option<usize>)
    ensures
        match r {
            Some(c) => c == float_count(o@),
            None => float_count(o@) > usize::MAX,
        },
    decreases o,
{
    proof {
        lemma_view(*o);
    }
    match &o.value {
        Value::Float(_) => Some(1),
        Value::Array(v) | Value::Object(v) => float_count_all(v),
        _ => Some(0),
    }
}

fn float_count_all(v: &Vec<Object>) -> (r: Option<usize>)
    ensures
        match r {
            Some(c) => c == float_count_items(nodes(*v)),
            None => float_count_items(nodes(*v)) > usize::MAX,
        },
    decreases v,
{
    let ghost items = nodes(*v);
    let mut i: usize = 0;
    let mut c: usize = 0;
    proof {
        assert(items.take(0).len() == 0);
    }
    while i < v.len()
        invariant
            i <= v.len(),
            items == nodes(*v),
            c == float_count_items(items.take(i as int)),
        decreases v.len() - i,
    {
        proof {
            let t = items.take(i + 1);
            assert(t.drop_last() =~= items.take(i as int));
            assert(t.last() == v[i as int]@);
            lemma_count_prefix(items, i + 1);
        }
        let f = match float_count_of(&v[i]) {
            Some(f) => f,
            None => {
                return None;
            },
        };
        if f > usize::MAX - c {
            return None;
        }
        c = c + f;
        i += 1;
    }
    proof {
        assert(items.take(i as int) =~= items);
    }
    Some(c)
}

/// MessagePack of a tree, with each implicit array written as one key and an
/// array of its values (`group_view`). `bits` holds the IEEE 754 bits of the
/// decimals in the order `decimals` lists them; `None` when their number
/// differs, or when a length has no encoding.
pub fn msgpack(obj: &Object, bits: &Vec<u64>) -> (r: Option<Vec<u8>>)
    ensures
        float_count(group_view(obj@)) != bits@.len() ==> r is None,
        float_count(group_view(obj@)) == bits@.len() ==> match r {
            Some(b) => msgpack_of(group_view(obj@), bits@, 0) == Some(b@),
            None => msgpack_of(group_view(obj@), bits@, 0) is None,
        },
{
    let g = grouped(obj);
    msgpack_tree(&g, bits)
}

fn msgpack_tree(obj: &Object, bits: &Vec<u64>) -> (r: Option<Vec<u8>>)
    ensures
        float_count(obj@) != bits@.len() ==> r is None,
        float_count(obj@) == bits@.len() ==> match r {
            Some(b) => msgpack_of(obj@, bits@, 0) == Some(b@),
            None => msgpack_of(obj@, bits@, 0) is None,
        },
{
    let n = bits.len();
    match float_count_of(obj) {
        Some(c) => {
            if c != bits.len() {
                return None;
            }
        },
        None => {
            return None;
        },
    }
    let mut out: Vec<u8> = Vec::new();
    if write_msgpack(obj, &mut out, bits, 0) {
        proof {
            assert(out@ =~= msgpack_of(obj@, bits@, 0)->0);
        }
        Some(out)
    } else {
        None
    }
}

/// The decimals of a tree, in the order in which `msgpack` takes their bits:
/// pre-order of the tree with its implicit arrays made explicit.
pub fn decimals(obj: &Object) -> (r: Vec<crate::object::Decimal>)
    ensures
        r@ == decimals_of(group_view(obj@)),
{
    let g = grouped(obj);
    let mut out: Vec<crate::object::Decimal> = Vec::new();
    collect_decimals(&g, &mut out);
    proof {
        assert(out@ =~= decimals_of(g@));
    }
    out
}

fn collect_decimals(o: &Object, out: &mut Vec<crate::object::Decimal>)
    ensures
        final(out)@ == old(out)@ + decimals_of(o@),
    decreases o,
{
    proof {
        lemma_view(*o);
    }
    let ghost start = out@;
    match &o.value {
        Value::Float(d) => {
            out.push(*d);
        },
        Value::Array(v) | Value::Object(v) => {
            collect_decimals_all(v, out);
        },
        _ => {},
    }
    proof {
        assert(out@ =~= start + decimals_of(o@));
    }
}

fn collect_decimals_all(v: &Vec<Object>, out: &mut Vec<crate::object::Decimal>)
    ensures
        final(out)@ == old(out)@ + decimals_items(nodes(*v)),
    decreases v,
{
    let ghost items = nodes(*v);
    let ghost open = out@;
    let mut i: usize = 0;
    proof {
        assert(items.take(0).len() == 0);
        assert(open + decimals_items(items.take(0)) =~= open);
    }
    while i < v.len()
        invariant
            i <= v.len(),
            items == nodes(*v),
            out@ == open + decimals_items(items.take(i as int)),
        decreases v.len() - i,
    {
        proof {
            let t = items.take(i + 1);
            assert(t.drop_last() =~= items.take(i as int));
            assert(t.last() == v[i as int]@);
        }
        collect_decimals(&v[i], out);
        i += 1;
        proof {
            assert(out@ =~= open + decimals_items(items.take(i as int)));
        }
    }
    proof {
        assert(items.take(i as int) =~= items);
    }
}

} // verus!
