use vstd::prelude::*;
use crate::text::{chars_eq_range, chars_of, copy_chars, string_from_chars};

verus! {

/// An exact decimal number: `mantissa × 10^exponent`.
#[derive(Clone, Copy, Debug, PartialEq, Eq, Structural)]
pub struct Decimal {
    pub mantissa: i64,
    pub exponent: i32,
}

/// The runtime type of a node.
#[derive(Clone, Copy, Debug, PartialEq, Eq, Structural)]
pub enum Type {
    Null,
    Boolean,
    Int,
    Float,
    String,
    Array,
    Object,
}

/// Mathematical model of a node's value.
pub enum Val {
    Null,
    Boolean(bool),
    Int(i64),
    Float(Decimal),
    Str(Seq<char>),
    Array(Seq<Node>),
    Object(Seq<Node>),
}

/// Mathematical model of a node: the key it is bound to in its parent object
/// (if any) and its value.
pub struct Node {
    pub key: Option<Seq<char>>,
    pub val: Val,
}

/// A node's value in the document tree.
pub enum Value {
    Null,
    Boolean(bool),
    Int(i64),
    Float(Decimal),
    Str(Vec<char>),
    Array(Vec<Object>),
    Object(Vec<Object>),
}

/// A node of a document tree, with a cursor for walking an array's elements.
pub struct Object {
    pub key: Option<Vec<char>>,
    pub value: Value,
    pub cursor: usize,
}

pub open spec fn key_view(k: Option<Vec<char>>) -> Option<Seq<char>> {
    match k {
        Some(v) => Some(v@),
        None => None,
    }
}

pub open spec fn null_node() -> Node {
    Node { key: None, val: Val::Null }
}

impl Value {
    pub open spec fn val(self) -> Val
        decreases self,
    {
        match self {
            Value::Null => Val::Null,
            Value::Boolean(b) => Val::Boolean(b),
            Value::Int(i) => Val::Int(i),
            Value::Float(d) => Val::Float(d),
            Value::Str(s) => Val::Str(s@),
            Value::Array(v) => Val::Array(
                Seq::new(v.len() as nat, |i: int| if 0 <= i < v.len() { v[i]@ } else { null_node() }),
            ),
            Value::Object(v) => Val::Object(
                Seq::new(v.len() as nat, |i: int| if 0 <= i < v.len() { v[i]@ } else { null_node() }),
            ),
        }
    }
}

impl View for Object {
    type V = Node;

    open spec fn view(&self) -> Node
        decreases self,
    {
        Node { key: key_view(self.key), val: self.value.val() }
    }
}

/// The runtime type of a value.
pub open spec fn type_of(v: Val) -> Type {
    match v {
        Val::Null => Type::Null,
        Val::Boolean(_) => Type::Boolean,
        Val::Int(_) => Type::Int,
        Val::Float(_) => Type::Float,
        Val::Str(_) => Type::String,
        Val::Array(_) => Type::Array,
        Val::Object(_) => Type::Object,
    }
}

pub open spec fn int_of(n: Node) -> Option<i64> {
    match n.val {
        Val::Int(i) => Some(i),
        _ => None,
    }
}

pub open spec fn float_of(n: Node) -> Option<Decimal> {
    match n.val {
        Val::Float(d) => Some(d),
        _ => None,
    }
}

pub open spec fn bool_of(n: Node) -> Option<bool> {
    match n.val {
        Val::Boolean(b) => Some(b),
        _ => None,
    }
}

pub open spec fn str_of(n: Node) -> Option<Seq<char>> {
    match n.val {
        Val::Str(s) => Some(s),
        _ => None,
    }
}

/// The elements of an array node; empty for any other node.
pub open spec fn elements_of(n: Node) -> Seq<Node> {
    match n.val {
        Val::Array(items) => items,
        _ => Seq::empty(),
    }
}

/// The first of `items` bound to `k`.
pub open spec fn find_key(items: Seq<Node>, k: Seq<char>) -> Option<Node>
    decreases items.len(),
{
    if items.len() == 0 {
        None
    } else if items[0].key == Some(k) {
        Some(items[0])
    } else {
        find_key(items.drop_first(), k)
    }
}

/// Lookup of `k` in an object node; `None` for any other node.
pub open spec fn fetch_spec(n: Node, k: Seq<char>) -> Option<Node> {
    match n.val {
        Val::Object(items) => find_key(items, k),
        _ => None,
    }
}

/// The members of `items` bound to `k`, in order.
pub open spec fn members_keyed(items: Seq<Node>, k: Seq<char>) -> Seq<Node>
    decreases items.len(),
{
    if items.len() == 0 {
        Seq::empty()
    } else {
        let r = members_keyed(items.drop_last(), k);
        if items.last().key == Some(k) { r.push(items.last()) } else { r }
    }
}

/// Every member of an object node bound to `k` (the key's implicit array);
/// empty for any other node.
pub open spec fn fetch_all_spec(n: Node, k: Seq<char>) -> Seq<Node> {
    match n.val {
        Val::Object(items) => members_keyed(items, k),
        _ => Seq::empty(),
    }
}

/// Position of the first `.` in `p`.
pub open spec fn first_dot(p: Seq<char>) -> Option<nat>
    decreases p.len(),
{
    if p.len() == 0 {
        None
    } else if p[0] == '.' {
        Some(0)
    } else {
        match first_dot(p.drop_first()) {
            Some(i) => Some(i + 1),
            None => None,
        }
    }
}

/// Lookup along a dot-separated path: one `fetch_spec` per segment.
pub open spec fn fetch_path_spec(n: Node, p: Seq<char>) -> Option<Node>
    decreases p.len(),
{
    match first_dot(p) {
        None => fetch_spec(n, p),
        Some(i) => {
            if i < p.len() {
                match fetch_spec(n, p.subrange(0, i as int)) {
                    Some(c) => fetch_path_spec(c, p.subrange(i as int + 1, p.len() as int)),
                    None => None,
                }
            } else {
                None
            }
        },
    }
}

/// The `i`-th element of an array node.
pub open spec fn item_at(n: Node, i: int) -> Option<Node> {
    if 0 <= i < elements_of(n).len() {
        Some(elements_of(n)[i])
    } else {
        None
    }
}

/// Models of a sequence of nodes.
pub open spec fn nodes(v: Vec<Object>) -> Seq<Node> {
    Seq::new(v.len() as nat, |i: int| v[i]@)
}

pub proof fn lemma_view(o: Object)
    ensures
        o@ == (Node { key: key_view(o.key), val: o.value.val() }),
        o.value is Array ==> o@.val == Val::Array(nodes(o.value->Array_0)),
        o.value is Object ==> o@.val == Val::Object(nodes(o.value->Object_0)),
{
    match o.value {
        Value::Array(v) => {
            assert(o.value.val()->Array_0 =~= nodes(v));
        },
        Value::Object(v) => {
            assert(o.value.val()->Object_0 =~= nodes(v));
        },
        _ => {},
    }
}

pub open spec fn opt_view(r: Option<Object>) -> Option<Node> {
    match r {
        Some(o) => Some(o@),
        None => None,
    }
}

pub open spec fn opt_ref_view(r: Option<&Object>) -> Option<Node> {
    match r {
        Some(o) => Some(o@),
        None => None,
    }
}

proof fn lemma_first_dot(q: Seq<char>, i: int)
    requires
        0 <= i <= q.len(),
        forall|j: int| 0 <= j < i ==> q[j] != '.',
        i == q.len() || q[i] == '.',
    ensures
        first_dot(q) == if i < q.len() { Some(i as nat) } else { None::<nat> },
    decreases i,
{
    if q.len() > 0 && i > 0 {
        lemma_first_dot(q.drop_first(), i - 1);
    }
}

impl Object {
    /// A copy of this node and everything below it, with a fresh cursor.
    pub fn copy(&self) -> (r: Object)
        ensures
            r@ == self@,
            r.cursor == 0,
        decreases self,
    {
        let key = match &self.key {
            Some(k) => Some(copy_chars(k)),
            None => None,
        };
        let value = match &self.value {
            Value::Null => Value::Null,
            Value::Boolean(b) => Value::Boolean(*b),
            Value::Int(i) => Value::Int(*i),
            Value::Float(d) => Value::Float(*d),
            Value::Str(s) => Value::Str(copy_chars(s)),
            Value::Array(v) => {
                let out = Self::copy_all(v);
                let r = Object { key: None, value: Value::Array(out), cursor: 0 };
                proof {
                    lemma_view(*self);
                    lemma_view(r);
                    assert(nodes(out) =~= nodes(*v));
                }
                r.value
            },
            Value::Object(v) => {
                let out = Self::copy_all(v);
                let r = Object { key: None, value: Value::Object(out), cursor: 0 };
                proof {
                    lemma_view(*self);
                    lemma_view(r);
                    assert(nodes(out) =~= nodes(*v));
                }
                r.value
            },
        };
        Object { key, value, cursor: 0 }
    }

    fn copy_all(v: &Vec<Object>) -> (out: Vec<Object>)
        ensures
            out.len() == v.len(),
            forall|j: int| 0 <= j < v.len() ==> out[j]@ == v[j]@,
        decreases v,
    {
        let mut out: Vec<Object> = Vec::new();
        let mut i: usize = 0;
        while i < v.len()
            invariant
                i <= v.len(),
                out.len() == i,
                forall|j: int| 0 <= j < i ==> out[j]@ == v[j]@,
            decreases v.len() - i,
        {
            out.push(v[i].copy());
            i += 1;
        }
        out
    }

    /// Return type of object.
    pub fn get_type(&self) -> (r: Type)
        ensures
            r == type_of(self@.val),
    {
        proof {
            lemma_view(*self);
        }
        match &self.value {
            Value::Null => Type::Null,
            Value::Boolean(_) => Type::Boolean,
            Value::Int(_) => Type::Int,
            Value::Float(_) => Type::Float,
            Value::Str(_) => Type::String,
            Value::Array(_) => Type::Array,
            Value::Object(_) => Type::Object,
        }
    }

    /// The integer held by an `Int` node.
    pub fn as_int(&self) -> (r: Option<i64>)
        ensures
            r == int_of(self@),
    {
        proof {
            lemma_view(*self);
        }
        match &self.value {
            Value::Int(i) => Some(*i),
            _ => None,
        }
    }

    /// The number held by a `Float` node.
    pub fn as_float(&self) -> (r: Option<Decimal>)
        ensures
            r == float_of(self@),
    {
        proof {
            lemma_view(*self);
        }
        match &self.value {
            Value::Float(d) => Some(*d),
            _ => None,
        }
    }

    /// The truth value held by a `Boolean` node.
    pub fn as_bool(&self) -> (r: Option<bool>)
        ensures
            r == bool_of(self@),
    {
        proof {
            lemma_view(*self);
        }
        match &self.value {
            Value::Boolean(b) => Some(*b),
            _ => None,
        }
    }

    /// The text held by a `String` node.
    pub fn as_string(&self) -> (r: Option<String>)
        ensures
            r is Some <==> str_of(self@) is Some,
            r is Some ==> r->0@ == str_of(self@)->0,
    {
        proof {
            lemma_view(*self);
        }
        match &self.value {
            Value::Str(s) => Some(string_from_chars(s)),
            _ => None,
        }
    }

    /// Return key assigned to object.
    pub fn key(&self) -> (r: Option<String>)
        ensures
            r is Some <==> self@.key is Some,
            r is Some ==> r->0@ == self@.key->0,
    {
        proof {
            lemma_view(*self);
        }
        match &self.key {
            Some(k) => Some(string_from_chars(k)),
            None => None,
        }
    }

    /// Number of elements of an array node; 0 for any other node.
    pub fn size(&self) -> (r: usize)
        ensures
            r == elements_of(self@).len(),
    {
        proof {
            lemma_view(*self);
        }
        match &self.value {
            Value::Array(v) => v.len(),
            _ => 0,
        }
    }

    /// The `i`-th element of an array node.
    pub fn at(&self, i: usize) -> (r: Option<Object>)
        ensures
            opt_view(r) == item_at(self@, i as int),
    {
        proof {
            lemma_view(*self);
        }
        match &self.value {
            Value::Array(v) => {
                if i < v.len() {
                    Some(v[i].copy())
                } else {
                    None
                }
            },
            _ => None,
        }
    }

    /// The elements of an array node, in order; empty for any other node.
    pub fn elements(&self) -> (r: Vec<Object>)
        ensures
            r.len() == elements_of(self@).len(),
            forall|j: int| 0 <= j < r.len() ==> r[j]@ == elements_of(self@)[j],
    {
        proof {
            lemma_view(*self);
        }
        match &self.value {
            Value::Array(v) => Self::copy_all(v),
            _ => Vec::new(),
        }
    }

    /// The next element of an array node under the cursor, which then moves on.
    pub fn next(&mut self) -> (r: Option<Object>)
        ensures
            final(self)@ == old(self)@,
            opt_view(r) == item_at(old(self)@, old(self).cursor as int),
            final(self).cursor == if r is Some { old(self).cursor + 1 } else { old(self).cursor as int },
            forall|k: nat|
                #![trigger pass_from(old(self)@, old(self).cursor as nat, k + 1)]
                pass_from(old(self)@, old(self).cursor as nat, k + 1) == seq![opt_view(r)] + pass_from(
                    final(self)@,
                    final(self).cursor as nat,
                    k,
                ),
    {
        proof {
            lemma_view(*self);
        }
        let r = match &self.value {
            Value::Array(v) => {
                if self.cursor < v.len() {
                    Some(v[self.cursor].copy())
                } else {
                    None
                }
            },
            _ => None,
        };
        if r.is_some() {
            self.cursor = self.cursor + 1;
        }
        proof {
            assert forall|k: nat| #![trigger pass_from(old(self)@, old(self).cursor as nat, k + 1)]
                pass_from(old(self)@, old(self).cursor as nat, k + 1) == seq![opt_view(r)] + pass_from(
                    self@,
                    self.cursor as nat,
                    k,
                ) by {
                assert((k + 1) as nat - 1 == k);
            }
        }
        r
    }

    /// Moves the cursor back to the first element.
    pub fn iter_reset(&mut self)
        ensures
            final(self)@ == old(self)@,
            final(self).cursor == 0,
            forall|k: nat| #[trigger] pass_from(final(self)@, final(self).cursor as nat, k) == pass_from(old(self)@, 0, k),
    {
        self.cursor = 0;
    }

    /// The child of an object node bound to the key `p[lo..hi]`.
    fn child_by_key(&self, p: &Vec<char>, lo: usize, hi: usize) -> (r: Option<&Object>)
        requires
            lo <= hi <= p.len(),
        ensures
            opt_ref_view(r) == fetch_spec(self@, p@.subrange(lo as int, hi as int)),
    {
        proof {
            lemma_view(*self);
        }
        match &self.value {
            Value::Object(v) => {
                let ghost k = p@.subrange(lo as int, hi as int);
                let ghost nodes = nodes(*v);
                let mut j: usize = 0;
                assert(nodes.subrange(0, nodes.len() as int) =~= nodes);
                while j < v.len()
                    invariant
                        j <= v.len(),
                        lo <= hi <= p.len(),
                        nodes.len() == v.len(),
                        k == p@.subrange(lo as int, hi as int),
                        self@.val == Val::Object(nodes),
                        forall|i: int| 0 <= i < v.len() ==> nodes[i] == v[i]@,
                        find_key(nodes, k) == find_key(nodes.subrange(j as int, nodes.len() as int), k),
                    decreases v.len() - j,
                {
                    let ghost rest = nodes.subrange(j as int, nodes.len() as int);
                    assert(rest[0] == nodes[j as int]);
                    proof {
                        lemma_view(v[j as int]);
                    }
                    assert(rest.drop_first() =~= nodes.subrange(j + 1, nodes.len() as int));
                    let hit = match &v[j].key {
                        Some(kv) => {
                            let h = chars_eq_range(kv, p, lo, hi);
                            assert(key_view(v[j as int].key) == Some(kv@));
                            h
                        },
                        None => false,
                    };
                    if hit {
                        return Some(&v[j]);
                    }
                    j += 1;
                }
                None
            },
            _ => None,
        }
    }

    /// Fetch object under key: the first member bound to it.
    pub fn fetch(&self, key: &str) -> (r: Option<Object>)
        ensures
            opt_view(r) == fetch_spec(self@, key@),
    {
        let k = chars_of(key);
        proof {
            assert(k@.subrange(0, k@.len() as int) =~= k@);
        }
        match self.child_by_key(&k, 0, k.len()) {
            Some(c) => Some(c.copy()),
            None => None,
        }
    }

    /// Every object bound to the key, in order: the first is what `fetch`
    /// finds, the others are the later values of a repeated key.
    pub fn fetch_all(&self, key: &str) -> (r: Vec<Object>)
        ensures
            r.len() == fetch_all_spec(self@, key@).len(),
            forall|j: int| 0 <= j < r.len() ==> r[j]@ == fetch_all_spec(self@, key@)[j],
    {
        proof {
            lemma_view(*self);
        }
        let k = chars_of(key);
        let mut out: Vec<Object> = Vec::new();
        match &self.value {
            Value::Object(v) => {
                let ghost items = nodes(*v);
                let mut i: usize = 0;
                proof {
                    assert(items.take(0).len() == 0);
                }
                while i < v.len()
                    invariant
                        i <= v.len(),
                        items == nodes(*v),
                        k@ == key@,
                        out.len() == members_keyed(items.take(i as int), key@).len(),
                        forall|j: int| 0 <= j < out.len() ==> out[j]@ == members_keyed(items.take(i as int), key@)[j],
                    decreases v.len() - i,
                {
                    proof {
                        let t = items.take(i + 1);
                        assert(t.drop_last() =~= items.take(i as int));
                        assert(t.last() == v[i as int]@);
                        lemma_view(v[i as int]);
                        assert(k@.subrange(0, k@.len() as int) =~= k@);
                    }
                    let hit = match &v[i].key {
                        Some(kv) => chars_eq_range(kv, &k, 0, k.len()),
                        None => false,
                    };
                    if hit {
                        out.push(v[i].copy());
                    }
                    i += 1;
                }
                proof {
                    assert(items.take(i as int) =~= items);
                }
            },
            _ => {},
        }
        out
    }

    /// Fetch object at the end of path delimited by `.` (dot)
    pub fn fetch_path(&self, path: &str) -> (r: Option<Object>)
        ensures
            opt_view(r) == fetch_path_spec(self@, path@),
    {
        let p = chars_of(path);
        let mut cur: &Object = self;
        let mut start: usize = 0;
        assert(p@.subrange(0, p@.len() as int) =~= p@);
        loop
            invariant
                start <= p.len(),
                p@ == path@,
                fetch_path_spec(self@, p@) == fetch_path_spec(cur@, p@.subrange(start as int, p.len() as int)),
            decreases p.len() - start,
        {
            let mut d: usize = start;
            while d < p.len() && p[d] != '.'
                invariant
                    start <= d <= p.len(),
                    forall|j: int| start <= j < d ==> p@[j] != '.',
                decreases p.len() - d,
            {
                d += 1;
            }
            let ghost q = p@.subrange(start as int, p.len() as int);
            proof {
                lemma_first_dot(q, d - start);
                assert(q.subrange(0, d - start) =~= p@.subrange(start as int, d as int));
                if d < p.len() {
                    assert(q.subrange(d - start + 1, q.len() as int) =~= p@.subrange(d + 1, p.len() as int));
                } else {
                    assert(q =~= p@.subrange(start as int, d as int));
                }
            }
            match cur.child_by_key(&p, start, d) {
                None => {
                    return None;
                },
                Some(c) => {
                    if d == p.len() {
                        return Some(c.copy());
                    }
                    cur = c;
                    start = d + 1;
                },
            }
        }
    }
}

/// Where the first `.` of a path stands, and that none stands before it.
pub proof fn lemma_first_dot_props(q: Seq<char>)
    ensures
        match first_dot(q) {
            Some(i) => i < q.len() && q[i as int] == '.' && forall|j: int| 0 <= j < i ==> q[j] != '.',
            None => forall|j: int| 0 <= j < q.len() ==> q[j] != '.',
        },
    decreases q.len(),
{
    if q.len() > 0 && q[0] != '.' {
        lemma_first_dot_props(q.drop_first());
        match first_dot(q.drop_first()) {
            Some(i) => {
                assert forall|j: int| 0 <= j < i + 1 implies q[j] != '.' by {
                    if j > 0 {
                        assert(q[j] == q.drop_first()[j - 1]);
                    }
                }
            },
            None => {
                assert forall|j: int| 0 <= j < q.len() implies q[j] != '.' by {
                    if j > 0 {
                        assert(q[j] == q.drop_first()[j - 1]);
                    }
                }
            },
        }
    }
}

/// A path joined from two paths by a dot is looked up by looking up the first
/// and then, from the node reached, the second.
pub proof fn lemma_fetch_path_concat(n: Node, first: Seq<char>, second: Seq<char>)
    ensures
        fetch_path_spec(n, first + seq!['.'] + second) == match fetch_path_spec(n, first) {
            Some(c) => fetch_path_spec(c, second),
            None => None,
        },
    decreases first.len(),
{
    let p = first + seq!['.'] + second;
    lemma_first_dot_props(first);
    match first_dot(first) {
        Some(i) => {
            lemma_first_dot(p, i as int);
            assert(p.subrange(0, i as int) =~= first.subrange(0, i as int));
            let r1 = first.subrange(i as int + 1, first.len() as int);
            assert(p.subrange(i as int + 1, p.len() as int) =~= r1 + seq!['.'] + second);
            match fetch_spec(n, first.subrange(0, i as int)) {
                Some(c) => {
                    lemma_fetch_path_concat(c, r1, second);
                },
                None => {},
            }
        },
        None => {
            lemma_first_dot(p, first.len() as int);
            assert(p.subrange(0, first.len() as int) =~= first);
            assert(p.subrange(first.len() as int + 1, p.len() as int) =~= second);
        },
    }
}

/// Path segments joined by dots.
pub open spec fn join_path(segs: Seq<Seq<char>>) -> Seq<char>
    decreases segs.len(),
{
    if segs.len() <= 1 {
        if segs.len() == 1 {
            segs[0]
        } else {
            Seq::empty()
        }
    } else {
        join_path(segs.drop_last()) + seq!['.'] + segs.last()
    }
}

/// One `fetch_spec` per segment, in order, from `n`.
pub open spec fn fetch_chain(n: Node, segs: Seq<Seq<char>>) -> Option<Node>
    decreases segs.len(),
{
    if segs.len() == 0 {
        Some(n)
    } else {
        match fetch_chain(n, segs.drop_last()) {
            Some(c) => fetch_spec(c, segs.last()),
            None => None,
        }
    }
}

/// Looking up a dotted path equals one lookup per segment, for any number
/// of segments that hold no dot.
pub proof fn lemma_fetch_path_is_fetch_chain(n: Node, segs: Seq<Seq<char>>)
    requires
        segs.len() >= 1,
        forall|i: int, j: int| 0 <= i < segs.len() && 0 <= j < segs[i].len() ==> segs[i][j] != '.',
    ensures
        fetch_path_spec(n, join_path(segs)) == fetch_chain(n, segs),
    decreases segs.len(),
{
    let last = segs.last();
    lemma_first_dot_props(last);
    if first_dot(last) is Some {
        let i = first_dot(last)->0;
        assert(last == segs[segs.len() - 1]);
        assert(segs[segs.len() - 1][i as int] != '.');
    }
    assert(first_dot(last) is None);
    if segs.len() == 1 {
        assert(segs.drop_last().len() == 0);
        assert(fetch_chain(n, segs.drop_last()) == Some(n));
        assert(join_path(segs) == last);
    } else {
        let init = segs.drop_last();
        assert forall|i: int, j: int| 0 <= i < init.len() && 0 <= j < init[i].len() implies init[i][j] != '.' by {
            assert(init[i] == segs[i]);
        }
        lemma_fetch_path_is_fetch_chain(n, init);
        lemma_fetch_path_concat(n, join_path(init), last);
        assert(join_path(segs) == join_path(init) + seq!['.'] + last);
        match fetch_chain(n, init) {
            Some(c) => {
                assert(fetch_path_spec(c, last) == fetch_spec(c, last));
            },
            None => {},
        }
    }
}

/// At most one of the typed readings of a node gives a value.
pub proof fn lemma_typed_readings_exclusive(n: Node)
    ensures
        (int_of(n) is Some) as int + (float_of(n) is Some) as int + (bool_of(n) is Some) as int
            + (str_of(n) is Some) as int <= 1,
{
}

/// What `k` successive calls of `next` return, from the cursor `cursor`.
pub open spec fn pass_from(n: Node, cursor: nat, k: nat) -> Seq<Option<Node>>
    decreases k,
{
    if k == 0 {
        Seq::empty()
    } else {
        let r = item_at(n, cursor as int);
        seq![r] + pass_from(n, if r is Some { cursor + 1 } else { cursor }, (k - 1) as nat)
    }
}

proof fn lemma_pass_suffix(n: Node, c: nat, m: nat)
    requires
        c <= elements_of(n).len(),
    ensures
        pass_from(n, c, (elements_of(n).len() - c + m) as nat) =~= elements_of(n).subrange(
            c as int,
            elements_of(n).len() as int,
        ).map_values(|x: Node| Some(x)) + Seq::new(m, |i: int| None::<Node>),
    decreases elements_of(n).len() - c + m,
{
    let len = elements_of(n).len();
    if c < len {
        lemma_pass_suffix(n, c + 1, m);
    } else if m > 0 {
        lemma_pass_suffix(n, c, (m - 1) as nat);
    }
}

/// From a reset cursor, `size` calls of `next` on an array yield its elements
/// in order, and every call after them yields `None`; the pass depends on the
/// node alone, so a reset reproduces it. (`next` states that each call yields
/// the head of `pass_from` and leaves its tail; `iter_reset` that the pass
/// starts again from cursor 0.)
pub proof fn lemma_iteration(n: Node, extra: nat)
    ensures
        pass_from(n, 0, elements_of(n).len() + extra) =~= elements_of(n).map_values(|x: Node| Some(x))
            + Seq::new(extra, |i: int| None::<Node>),
{
    lemma_pass_suffix(n, 0, extra);
    assert(elements_of(n).subrange(0, elements_of(n).len() as int) =~= elements_of(n));
}

} // verus!
