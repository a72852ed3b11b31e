use vstd::prelude::*;
use crate::error::{UclSchemaError, UclSchemaErrorType};
use crate::object::{lemma_view, nodes, Node, Object, Val, Value};

verus! {

type Code = UclSchemaErrorType;

/// Position of the first of `items[j..]` bound to `k`, or -1.
pub open spec fn key_pos_from(items: Seq<Node>, k: Seq<char>, j: int) -> int
    decreases items.len() - j,
{
    if j < 0 || j >= items.len() {
        -1
    } else if items[j].key == Some(k) {
        j
    } else {
        key_pos_from(items, k, j + 1)
    }
}

pub open spec fn key_pos(items: Seq<Node>, k: Seq<char>) -> int {
    key_pos_from(items, k, 0)
}

pub open spec fn has_key(items: Seq<Node>, k: Seq<char>) -> bool {
    0 <= key_pos(items, k) < items.len()
}

pub open spec fn kw_type() -> Seq<char> { seq!['t', 'y', 'p', 'e'] }
pub open spec fn kw_properties() -> Seq<char> { seq!['p', 'r', 'o', 'p', 'e', 'r', 't', 'i', 'e', 's'] }
pub open spec fn kw_required() -> Seq<char> { seq!['r', 'e', 'q', 'u', 'i', 'r', 'e', 'd'] }
pub open spec fn kw_dependencies() -> Seq<char> {
    seq!['d', 'e', 'p', 'e', 'n', 'd', 'e', 'n', 'c', 'i', 'e', 's']
}
pub open spec fn kw_max_length() -> Seq<char> { seq!['m', 'a', 'x', 'L', 'e', 'n', 'g', 't', 'h'] }
pub open spec fn kw_min_length() -> Seq<char> { seq!['m', 'i', 'n', 'L', 'e', 'n', 'g', 't', 'h'] }
pub open spec fn kw_maximum() -> Seq<char> { seq!['m', 'a', 'x', 'i', 'm', 'u', 'm'] }
pub open spec fn kw_minimum() -> Seq<char> { seq!['m', 'i', 'n', 'i', 'm', 'u', 'm'] }
pub open spec fn kw_max_items() -> Seq<char> { seq!['m', 'a', 'x', 'I', 't', 'e', 'm', 's'] }
pub open spec fn kw_min_items() -> Seq<char> { seq!['m', 'i', 'n', 'I', 't', 'e', 'm', 's'] }

/// Whether `data` has the type that `name` stands for; `None` when `name` is
/// no type keyword.
pub open spec fn type_ok(name: Seq<char>, data: Node) -> Option<bool> {
    if name == seq!['o', 'b', 'j', 'e', 'c', 't'] {
        Some(data.val is Object)
    } else if name == seq!['a', 'r', 'r', 'a', 'y'] {
        Some(data.val is Array)
    } else if name == seq!['s', 't', 'r', 'i', 'n', 'g'] {
        Some(data.val is Str)
    } else if name == seq!['n', 'u', 'm', 'b', 'e', 'r'] {
        Some(data.val is Int || data.val is Float)
    } else if name == seq!['i', 'n', 't', 'e', 'g', 'e', 'r'] {
        Some(data.val is Int)
    } else if name == seq!['b', 'o', 'o', 'l', 'e', 'a', 'n'] {
        Some(data.val is Boolean)
    } else if name == seq!['n', 'u', 'l', 'l'] {
        Some(data.val is Null)
    } else {
        None
    }
}

/// The outcome of a schema's `type` entry `t` on `data`.
pub open spec fn type_result(t: Node, data: Node) -> Code {
    match t.val {
        Val::Str(name) => match type_ok(name, data) {
            None => Code::InvalidSchema,
            Some(true) => Code::NoError,
            Some(false) => Code::TypeMismatch,
        },
        _ => Code::InvalidSchema,
    }
}

/// The entry of `s` bound to `k`, if any.
pub open spec fn entry(s: Seq<Node>, k: Seq<char>) -> Option<Node> {
    let i = key_pos(s, k);
    if 0 <= i < s.len() {
        Some(s[i])
    } else {
        None
    }
}

/// The outcome of a bound `b` on a quantity `x`: an integer bound that `x`
/// exceeds (`is_max`) or falls short of is a violated constraint.
pub open spec fn bound_result(b: Option<Node>, x: int, is_max: bool) -> Code {
    match b {
        None => Code::NoError,
        Some(n) => match n.val {
            Val::Int(lim) => if (if is_max { x > lim } else { x < lim }) {
                Code::Constraint
            } else {
                Code::NoError
            },
            _ => Code::InvalidSchema,
        },
    }
}

pub open spec fn either(a: Code, b: Code) -> Code {
    if a != Code::NoError { a } else { b }
}

/// Each of `names` must be a string naming a key of `d`; the first that is
/// absent gives `missing`.
pub open spec fn names_check(d: Seq<Node>, names: Seq<Node>, missing: Code) -> Code
    decreases names.len(),
{
    if names.len() == 0 {
        Code::NoError
    } else {
        either(
            names_check(d, names.drop_last(), missing),
            match names.last().val {
                Val::Str(k) => if has_key(d, k) { Code::NoError } else { missing },
                _ => Code::InvalidSchema,
            },
        )
    }
}

/// Each entry of a `dependencies` object: when its key is present in `d`,
/// every name it lists must be present too.
pub open spec fn deps_check(d: Seq<Node>, deps: Seq<Node>) -> Code
    decreases deps.len(),
{
    if deps.len() == 0 {
        Code::NoError
    } else {
        let dep = deps.last();
        either(
            deps_check(d, deps.drop_last()),
            match dep.val {
                Val::Array(names) => {
                    if dep.key is Some && has_key(d, dep.key->0) {
                        names_check(d, names, Code::MissingDependency)
                    } else {
                        Code::NoError
                    }
                },
                _ => Code::InvalidSchema,
            },
        )
    }
}

/// Each entry of a `properties` object, in order, checks the data's value
/// under the same key, where there is one.
pub open spec fn props_check(d: Seq<Node>, props: Seq<Node>) -> Code
    decreases props,
{
    if props.len() == 0 {
        Code::NoError
    } else {
        let p = props.last();
        let i = match p.key {
            Some(k) => key_pos(d, k),
            None => -1,
        };
        either(
            props_check(d, props.drop_last()),
            if 0 <= i < d.len() { schema_check(d[i], p) } else { Code::NoError },
        )
    }
}

/// The checks of an object schema's keywords on object data.
pub open spec fn object_check(d: Seq<Node>, s: Seq<Node>) -> Code
    decreases s,
{
    let pi = key_pos(s, kw_properties());
    let props = if 0 <= pi < s.len() {
        match s[pi].val {
            Val::Object(props) => props_check(d, props),
            _ => Code::InvalidSchema,
        }
    } else {
        Code::NoError
    };
    let req = match entry(s, kw_required()) {
        Some(r) => match r.val {
            Val::Array(names) => names_check(d, names, Code::MissingProperty),
            _ => Code::InvalidSchema,
        },
        None => Code::NoError,
    };
    let deps = match entry(s, kw_dependencies()) {
        Some(r) => match r.val {
            Val::Object(deps) => deps_check(d, deps),
            _ => Code::InvalidSchema,
        },
        None => Code::NoError,
    };
    either(props, either(req, deps))
}

/// The outcome of validating `data` against `schema`: the first failure under
/// a walk that checks `type`, then the nested properties in schema order,
/// then `required`, `dependencies` and the per-type bounds.
pub open spec fn schema_check(data: Node, schema: Node) -> Code
    decreases schema,
{
    match schema.val {
        Val::Object(s) => {
            let t = match entry(s, kw_type()) {
                Some(t) => type_result(t, data),
                None => Code::NoError,
            };
            either(
                t,
                match data.val {
                    Val::Object(d) => object_check(d, s),
                    Val::Str(st) => either(
                        bound_result(entry(s, kw_max_length()), st.len() as int, true),
                        bound_result(entry(s, kw_min_length()), st.len() as int, false),
                    ),
                    Val::Int(x) => either(
                        bound_result(entry(s, kw_maximum()), x as int, true),
                        bound_result(entry(s, kw_minimum()), x as int, false),
                    ),
                    Val::Array(items) => either(
                        bound_result(entry(s, kw_max_items()), items.len() as int, true),
                        bound_result(entry(s, kw_min_items()), items.len() as int, false),
                    ),
                    _ => Code::NoError,
                },
            )
        },
        _ => Code::InvalidSchema,
    }
}

/// Position of the first of `v` bound to `k`.
pub fn find_pos(v: &Vec<Object>, k: &[char]) -> (r: Option<usize>)
    ensures
        match r {
            Some(j) => j < v.len() && key_pos(nodes(*v), k@) == j,
            None => key_pos(nodes(*v), k@) == -1,
        },
{
    let ghost items = nodes(*v);
    let mut j: usize = 0;
    while j < v.len()
        invariant
            j <= v.len(),
            items == nodes(*v),
            key_pos(items, k@) == key_pos_from(items, k@, j as int),
        decreases v.len() - j,
    {
        proof {
            lemma_view(v[j as int]);
        }
        let hit = match &v[j].key {
            Some(kv) => crate::text::chars_eq_slice(kv, k),
            None => false,
        };
        if hit {
            return Some(j);
        }
        j += 1;
    }
    None
}

fn entry_of<'a>(v: &'a Vec<Object>, k: &[char]) -> (r: Option<&'a Object>)
    ensures
        match r {
            Some(o) => entry(nodes(*v), k@) == Some(o@),
            None => entry(nodes(*v), k@) is None,
        },
{
    match find_pos(v, k) {
        Some(j) => Some(&v[j]),
        None => None,
    }
}

fn type_matches(name: &Vec<char>, d: &Object) -> (r: Option<bool>)
    ensures
        r == type_ok(name@, d@),
{
    proof {
        lemma_view(*d);
    }
    let w_object: &[char] = &['o', 'b', 'j', 'e', 'c', 't'];
    let w_array: &[char] = &['a', 'r', 'r', 'a', 'y'];
    let w_string: &[char] = &['s', 't', 'r', 'i', 'n', 'g'];
    let w_number: &[char] = &['n', 'u', 'm', 'b', 'e', 'r'];
    let w_integer: &[char] = &['i', 'n', 't', 'e', 'g', 'e', 'r'];
    let w_boolean: &[char] = &['b', 'o', 'o', 'l', 'e', 'a', 'n'];
    let w_null: &[char] = &['n', 'u', 'l', 'l'];
    proof {
        assert(w_object@ =~= seq!['o', 'b', 'j', 'e', 'c', 't']);
        assert(w_array@ =~= seq!['a', 'r', 'r', 'a', 'y']);
        assert(w_string@ =~= seq!['s', 't', 'r', 'i', 'n', 'g']);
        assert(w_number@ =~= seq!['n', 'u', 'm', 'b', 'e', 'r']);
        assert(w_integer@ =~= seq!['i', 'n', 't', 'e', 'g', 'e', 'r']);
        assert(w_boolean@ =~= seq!['b', 'o', 'o', 'l', 'e', 'a', 'n']);
        assert(w_null@ =~= seq!['n', 'u', 'l', 'l']);
    }
    let t = d.get_type();
    if crate::text::chars_eq_slice(name, w_object) {
        Some(matches!(t, crate::object::Type::Object))
    } else if crate::text::chars_eq_slice(name, w_array) {
        Some(matches!(t, crate::object::Type::Array))
    } else if crate::text::chars_eq_slice(name, w_string) {
        Some(matches!(t, crate::object::Type::String))
    } else if crate::text::chars_eq_slice(name, w_number) {
        Some(matches!(t, crate::object::Type::Int) || matches!(t, crate::object::Type::Float))
    } else if crate::text::chars_eq_slice(name, w_integer) {
        Some(matches!(t, crate::object::Type::Int))
    } else if crate::text::chars_eq_slice(name, w_boolean) {
        Some(matches!(t, crate::object::Type::Boolean))
    } else if crate::text::chars_eq_slice(name, w_null) {
        Some(matches!(t, crate::object::Type::Null))
    } else {
        None
    }
}

fn bound(b: Option<&Object>, x: usize, is_max: bool) -> (r: Code)
    ensures
        r == bound_result(
            match b {
                Some(o) => Some(o@),
                None => None,
            },
            x as int,
            is_max,
        ),
{
    match b {
        None => Code::NoError,
        Some(o) => {
            proof {
                lemma_view(*o);
            }
            match &o.value {
                Value::Int(lim) => {
                    let over = if is_max {
                        (x as i128) > (*lim as i128)
                    } else {
                        (x as i128) < (*lim as i128)
                    };
                    if over {
                        Code::Constraint
                    } else {
                        Code::NoError
                    }
                },
                _ => Code::InvalidSchema,
            }
        },
    }
}

fn bound_int(b: Option<&Object>, x: i64, is_max: bool) -> (r: Code)
    ensures
        r == bound_result(
            match b {
                Some(o) => Some(o@),
                None => None,
            },
            x as int,
            is_max,
        ),
{
    match b {
        None => Code::NoError,
        Some(o) => {
            proof {
                lemma_view(*o);
            }
            match &o.value {
                Value::Int(lim) => {
                    let over = if is_max {
                        x > *lim
                    } else {
                        x < *lim
                    };
                    if over {
                        Code::Constraint
                    } else {
                        Code::NoError
                    }
                },
                _ => Code::InvalidSchema,
            }
        },
    }
}

proof fn lemma_names_sticks(d: Seq<Node>, names: Seq<Node>, missing: Code, j: int, k: int)
    requires
        0 <= j <= k <= names.len(),
        names_check(d, names.take(j), missing) != Code::NoError,
    ensures
        names_check(d, names.take(k), missing) == names_check(d, names.take(j), missing),
    decreases k - j,
{
    if k > j {
        lemma_names_sticks(d, names, missing, j, k - 1);
        assert(names.take(k).drop_last() =~= names.take(k - 1));
    }
}

proof fn lemma_deps_sticks(d: Seq<Node>, deps: Seq<Node>, j: int, k: int)
    requires
        0 <= j <= k <= deps.len(),
        deps_check(d, deps.take(j)) != Code::NoError,
    ensures
        deps_check(d, deps.take(k)) == deps_check(d, deps.take(j)),
    decreases k - j,
{
    if k > j {
        lemma_deps_sticks(d, deps, j, k - 1);
        assert(deps.take(k).drop_last() =~= deps.take(k - 1));
    }
}

proof fn lemma_props_sticks(d: Seq<Node>, props: Seq<Node>, j: int, k: int)
    requires
        0 <= j <= k <= props.len(),
        props_check(d, props.take(j)) != Code::NoError,
    ensures
        props_check(d, props.take(k)) == props_check(d, props.take(j)),
    decreases k - j,
{
    if k > j {
        lemma_props_sticks(d, props, j, k - 1);
        assert(props.take(k).drop_last() =~= props.take(k - 1));
    }
}

fn names_check_exec(d: &Vec<Object>, names: &Vec<Object>, missing: Code) -> (r: Code)
    ensures
        r == names_check(nodes(*d), nodes(*names), missing),
{
    let ghost dn = nodes(*d);
    let ghost nn = nodes(*names);
    let mut i: usize = 0;
    proof {
        assert(nn.take(0).len() == 0);
    }
    while i < names.len()
        invariant
            i <= names.len(),
            dn == nodes(*d),
            nn == nodes(*names),
            names_check(dn, nn.take(i as int), missing) == Code::NoError,
        decreases names.len() - i,
    {
        proof {
            let t = nn.take(i + 1);
            assert(t.drop_last() =~= nn.take(i as int));
            lemma_view(names[i as int]);
        }
        let r = match &names[i].value {
            Value::Str(k) => {
                match find_pos(d, k.as_slice()) {
                    Some(_) => Code::NoError,
                    None => missing,
                }
            },
            _ => Code::InvalidSchema,
        };
        if r != Code::NoError {
            proof {
                lemma_names_sticks(dn, nn, missing, i + 1, nn.len() as int);
                assert(nn.take(nn.len() as int) =~= nn);
            }
            return r;
        }
        i += 1;
    }
    proof {
        assert(nn.take(i as int) =~= nn);
    }
    Code::NoError
}

fn deps_check_exec(d: &Vec<Object>, deps: &Vec<Object>) -> (r: Code)
    ensures
        r == deps_check(nodes(*d), nodes(*deps)),
{
    let ghost dn = nodes(*d);
    let ghost pn = nodes(*deps);
    let mut i: usize = 0;
    proof {
        assert(pn.take(0).len() == 0);
    }
    while i < deps.len()
        invariant
            i <= deps.len(),
            dn == nodes(*d),
            pn == nodes(*deps),
            deps_check(dn, pn.take(i as int)) == Code::NoError,
        decreases deps.len() - i,
    {
        proof {
            let t = pn.take(i + 1);
            assert(t.drop_last() =~= pn.take(i as int));
            lemma_view(deps[i as int]);
        }
        let dep = &deps[i];
        let r = match &dep.value {
            Value::Array(names) => {
                let present = match &dep.key {
                    Some(k) => find_pos(d, k.as_slice()).is_some(),
                    None => false,
                };
                if present {
                    names_check_exec(d, names, Code::MissingDependency)
                } else {
                    Code::NoError
                }
            },
            _ => Code::InvalidSchema,
        };
        if r != Code::NoError {
            proof {
                lemma_deps_sticks(dn, pn, i + 1, pn.len() as int);
                assert(pn.take(pn.len() as int) =~= pn);
            }
            return r;
        }
        i += 1;
    }
    proof {
        assert(pn.take(i as int) =~= pn);
    }
    Code::NoError
}

fn props_check_exec(d: &Vec<Object>, props: &Vec<Object>) -> (r: Code)
    ensures
        r == props_check(nodes(*d), nodes(*props)),
    decreases props,
{
    let ghost dn = nodes(*d);
    let ghost pn = nodes(*props);
    let mut i: usize = 0;
    proof {
        assert(pn.take(0).len() == 0);
    }
    while i < props.len()
        invariant
            i <= props.len(),
            dn == nodes(*d),
            pn == nodes(*props),
            props_check(dn, pn.take(i as int)) == Code::NoError,
        decreases props.len() - i,
    {
        proof {
            let t = pn.take(i + 1);
            assert(t.drop_last() =~= pn.take(i as int));
            lemma_view(props[i as int]);
        }
        let p = &props[i];
        let pos = match &p.key {
            Some(k) => find_pos(d, k.as_slice()),
            None => None,
        };
        let r = match pos {
            Some(j) => {
                proof {
                    vstd::std_specs::vec::axiom_vec_index_decreases(*props, i as int);
                }
                check(&d[j], p)
            },
            None => Code::NoError,
        };
        if r != Code::NoError {
            proof {
                lemma_props_sticks(dn, pn, i + 1, pn.len() as int);
                assert(pn.take(pn.len() as int) =~= pn);
            }
            return r;
        }
        i += 1;
    }
    proof {
        assert(pn.take(i as int) =~= pn);
    }
    Code::NoError
}

fn object_check_exec(d: &Vec<Object>, s: &Vec<Object>) -> (r: Code)
    ensures
        r == object_check(nodes(*d), nodes(*s)),
    decreases s,
{
    let w_properties: &[char] = &['p', 'r', 'o', 'p', 'e', 'r', 't', 'i', 'e', 's'];
    let w_required: &[char] = &['r', 'e', 'q', 'u', 'i', 'r', 'e', 'd'];
    let w_dependencies: &[char] = &['d', 'e', 'p', 'e', 'n', 'd', 'e', 'n', 'c', 'i', 'e', 's'];
    proof {
        assert(w_properties@ =~= kw_properties());
        assert(w_required@ =~= kw_required());
        assert(w_dependencies@ =~= kw_dependencies());
    }
    let props = match find_pos(s, w_properties) {
        Some(pi) => {
            proof {
                lemma_view(s[pi as int]);
            }
            match &s[pi].value {
                Value::Object(pv) => {
                    proof {
                        vstd::std_specs::vec::axiom_vec_index_decreases(*s, pi as int);
                    }
                    props_check_exec(d, pv)
                },
                _ => Code::InvalidSchema,
            }
        },
        None => Code::NoError,
    };
    if props != Code::NoError {
        return props;
    }
    let req = match entry_of(s, w_required) {
        Some(r) => {
            proof {
                lemma_view(*r);
            }
            match &r.value {
                Value::Array(names) => names_check_exec(d, names, Code::MissingProperty),
                _ => Code::InvalidSchema,
            }
        },
        None => Code::NoError,
    };
    if req != Code::NoError {
        return req;
    }
    match entry_of(s, w_dependencies) {
        Some(r) => {
            proof {
                lemma_view(*r);
            }
            match &r.value {
                Value::Object(deps) => deps_check_exec(d, deps),
                _ => Code::InvalidSchema,
            }
        },
        None => Code::NoError,
    }
}

fn check(data: &Object, schema: &Object) -> (r: Code)
    ensures
        r == schema_check(data@, schema@),
    decreases schema,
{
    proof {
        lemma_view(*data);
        lemma_view(*schema);
    }
    let s = match &schema.value {
        Value::Object(s) => s,
        _ => {
            return Code::InvalidSchema;
        },
    };
    let w_type: &[char] = &['t', 'y', 'p', 'e'];
    let w_max_length: &[char] = &['m', 'a', 'x', 'L', 'e', 'n', 'g', 't', 'h'];
    let w_min_length: &[char] = &['m', 'i', 'n', 'L', 'e', 'n', 'g', 't', 'h'];
    let w_maximum: &[char] = &['m', 'a', 'x', 'i', 'm', 'u', 'm'];
    let w_minimum: &[char] = &['m', 'i', 'n', 'i', 'm', 'u', 'm'];
    let w_max_items: &[char] = &['m', 'a', 'x', 'I', 't', 'e', 'm', 's'];
    let w_min_items: &[char] = &['m', 'i', 'n', 'I', 't', 'e', 'm', 's'];
    proof {
        assert(w_type@ =~= kw_type());
        assert(w_max_length@ =~= kw_max_length());
        assert(w_min_length@ =~= kw_min_length());
        assert(w_maximum@ =~= kw_maximum());
        assert(w_minimum@ =~= kw_minimum());
        assert(w_max_items@ =~= kw_max_items());
        assert(w_min_items@ =~= kw_min_items());
    }
    match entry_of(s, w_type) {
        Some(t) => {
            proof {
                lemma_view(*t);
            }
            let tr = match &t.value {
                Value::Str(name) => match type_matches(name, data) {
                    None => Code::InvalidSchema,
                    Some(true) => Code::NoError,
                    Some(false) => Code::TypeMismatch,
                },
                _ => Code::InvalidSchema,
            };
            if tr != Code::NoError {
                return tr;
            }
        },
        None => {},
    }
    match &data.value {
        Value::Object(d) => object_check_exec(d, s),
        Value::Str(st) => {
            let a = bound(entry_of(s, w_max_length), st.len(), true);
            if a != Code::NoError {
                return a;
            }
            bound(entry_of(s, w_min_length), st.len(), false)
        },
        Value::Int(x) => {
            let a = bound_int(entry_of(s, w_maximum), *x, true);
            if a != Code::NoError {
                return a;
            }
            bound_int(entry_of(s, w_minimum), *x, false)
        },
        Value::Array(items) => {
            let a = bound(entry_of(s, w_max_items), items.len(), true);
            if a != Code::NoError {
                return a;
            }
            bound(entry_of(s, w_min_items), items.len(), false)
        },
        _ => Code::NoError,
    }
}

impl Object {
    /// Validates this tree against a schema tree: `Ok` when the walk finds no
    /// failure, else the first failure found.
    pub fn validate_with_schema(&self, schema: &Object) -> (r: Result<(), UclSchemaError>)
        ensures
            r is Ok <==> schema_check(self@, schema@) == Code::NoError,
            r is Err ==> r->Err_0.code == schema_check(self@, schema@),
    {
        let c = check(self, schema);
        match c {
            Code::NoError => Ok(()),
            Code::TypeMismatch => Err(UclSchemaError { code: c, desc: "type mismatch".to_owned() }),
            Code::InvalidSchema => Err(UclSchemaError { code: c, desc: "invalid schema".to_owned() }),
            Code::MissingProperty => Err(UclSchemaError { code: c, desc: "missing required property".to_owned() }),
            Code::Constraint => Err(UclSchemaError { code: c, desc: "constraint violated".to_owned() }),
            Code::MissingDependency => Err(UclSchemaError { code: c, desc: "missing dependency".to_owned() }),
            Code::Other => Err(UclSchemaError { code: c, desc: "validation failed".to_owned() }),
        }
    }
}

} // verus!
