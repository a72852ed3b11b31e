use vstd::prelude::*;
use crate::object::{lemma_view, members_keyed, nodes, Node, Object, Val, Value};
use crate::schema::{find_pos, key_pos};
use crate::text::{chars_eq_range, copy_chars};

verus! {

/// A tree with each implicit array made explicit, at every level: in an
/// object, a key bound to several members stands once, at its first
/// member, with an array of all the values bound to it, in order; its later
/// members go. The JSON, YAML and MessagePack formats write this tree.
pub open spec fn group_view(n: Node) -> Node
    decreases n,
{
    match n.val {
        Val::Object(items) => Node { key: n.key, val: Val::Object(regroup(map_view(items))) },
        Val::Array(items) => Node { key: n.key, val: Val::Array(map_view(items)) },
        _ => n,
    }
}

/// `group_view` of each node, in order.
pub open spec fn map_view(items: Seq<Node>) -> Seq<Node>
    decreases items,
{
    if items.len() == 0 {
        Seq::empty()
    } else {
        map_view(items.drop_last()).push(group_view(items.last()))
    }
}

/// The values of `s` as array elements (without keys).
pub open spec fn unkeyed(s: Seq<Node>) -> Seq<Node> {
    Seq::new(s.len(), |j: int| Node { key: None, val: s[j].val })
}

/// Whether `all[i]` is the first member bound to its key.
pub open spec fn first_of_key(all: Seq<Node>, i: int) -> bool {
    all[i].key is None || key_pos(all, all[i].key->0) == i
}

/// What stands for the members bound to the key of `all[i]`: the member
/// itself when it is the only one, else the key with an array of the values.
pub open spec fn group_entry(all: Seq<Node>, i: int) -> Node {
    let m = all[i];
    match m.key {
        None => m,
        Some(k) => {
            let same = members_keyed(all, k);
            if same.len() == 1 {
                m
            } else {
                Node { key: m.key, val: Val::Array(unkeyed(same)) }
            }
        },
    }
}

/// The grouped members among the first `i` of `all`.
pub open spec fn regroup_upto(all: Seq<Node>, i: int) -> Seq<Node>
    decreases i,
{
    if i <= 0 || i > all.len() {
        Seq::empty()
    } else {
        let r = regroup_upto(all, i - 1);
        if first_of_key(all, i - 1) {
            r.push(group_entry(all, i - 1))
        } else {
            r
        }
    }
}

pub open spec fn regroup(all: Seq<Node>) -> Seq<Node> {
    regroup_upto(all, all.len() as int)
}

proof fn lemma_regroup_order(all: Seq<Node>, i: int)
    requires
        0 <= i <= all.len(),
    ensures
        forall|a: int|
            0 <= a < regroup_upto(all, i).len() && (#[trigger] regroup_upto(all, i)[a]).key is Some ==> 0 <= key_pos(
                all,
                regroup_upto(all, i)[a].key->0,
            ) < i,
        forall|a: int, b: int|
            0 <= a < b < regroup_upto(all, i).len() && (#[trigger] regroup_upto(all, i)[a]).key is Some
                && (#[trigger] regroup_upto(all, i)[b]).key is Some ==> key_pos(all, regroup_upto(all, i)[a].key->0)
                < key_pos(all, regroup_upto(all, i)[b].key->0),
    decreases i,
{
    if i > 0 {
        lemma_regroup_order(all, i - 1);
        let r = regroup_upto(all, i - 1);
        let ri = regroup_upto(all, i);
        if first_of_key(all, i - 1) {
            assert(ri == r.push(group_entry(all, i - 1)));
            assert(group_entry(all, i - 1).key == all[i - 1].key);
            assert forall|a: int| 0 <= a < ri.len() && (#[trigger] ri[a]).key is Some implies 0 <= key_pos(all, ri[a].key->0) < i by {
                if a < r.len() {
                    assert(ri[a] == r[a]);
                }
            }
            assert forall|a: int, b: int|
                0 <= a < b < ri.len() && (#[trigger] ri[a]).key is Some && (#[trigger] ri[b]).key is Some implies key_pos(
                    all,
                    ri[a].key->0,
                ) < key_pos(all, ri[b].key->0) by {
                assert(ri[a] == r[a]);
                if b < r.len() {
                    assert(ri[b] == r[b]);
                }
            }
        }
    }
}

/// In the grouped members of an object, no key stands twice.
pub proof fn lemma_regroup_keys_once(all: Seq<Node>)
    ensures
        forall|a: int, b: int|
            0 <= a < b < regroup(all).len() && (#[trigger] regroup(all)[a]).key is Some
                && (#[trigger] regroup(all)[b]).key is Some ==> regroup(all)[a].key != regroup(all)[b].key,
{
    lemma_regroup_order(all, all.len() as int);
}

/// The tree with every implicit array made explicit.
pub fn grouped(o: &Object) -> (r: Object)
    ensures
        r@ == group_view(o@),
    decreases o,
{
    proof {
        lemma_view(*o);
    }
    let key = match &o.key {
        Some(k) => Some(copy_chars(k)),
        None => None,
    };
    match &o.value {
        Value::Array(v) => {
            let m = grouped_all(v);
            let r = Object { key, value: Value::Array(m), cursor: 0 };
            proof {
                lemma_view(r);
                assert(nodes(m) =~= map_view(nodes(*v)));
            }
            r
        },
        Value::Object(v) => {
            let m = grouped_all(v);
            let g = regroup_exec(&m);
            let r = Object { key, value: Value::Object(g), cursor: 0 };
            proof {
                lemma_view(r);
                assert(nodes(m) =~= map_view(nodes(*v)));
                assert(nodes(g) =~= regroup(map_view(nodes(*v))));
            }
            r
        },
        _ => o.copy(),
    }
}

fn grouped_all(v: &Vec<Object>) -> (r: Vec<Object>)
    ensures
        nodes(r) =~= map_view(nodes(*v)),
    decreases v,
{
    let ghost items = nodes(*v);
    let mut out: Vec<Object> = Vec::new();
    let mut i: usize = 0;
    proof {
        assert(items.take(0).len() == 0);
        assert(nodes(out) =~= map_view(items.take(0)));
    }
    while i < v.len()
        invariant
            i <= v.len(),
            items == nodes(*v),
            nodes(out) =~= map_view(items.take(i as int)),
        decreases v.len() - i,
    {
        proof {
            let t = items.take(i + 1);
            assert(t.drop_last() =~= items.take(i as int));
            assert(t.last() == v[i as int]@);
        }
        let ghost before = nodes(out);
        let g = grouped(&v[i]);
        out.push(g);
        i += 1;
        proof {
            assert(nodes(out) =~= before.push(g@));
        }
    }
    proof {
        assert(items.take(i as int) =~= items);
    }
    out
}

/// The values of the members of `v` bound to `k`, without keys.
fn keyed_values(v: &Vec<Object>, k: &Vec<char>) -> (r: Vec<Object>)
    ensures
        nodes(r) =~= unkeyed(members_keyed(nodes(*v), k@)),
{
    let ghost items = nodes(*v);
    let mut out: Vec<Object> = Vec::new();
    let mut i: usize = 0;
    proof {
        assert(items.take(0).len() == 0);
        assert(nodes(out) =~= unkeyed(members_keyed(items.take(0), k@)));
    }
    while i < v.len()
        invariant
            i <= v.len(),
            items == nodes(*v),
            nodes(out) =~= unkeyed(members_keyed(items.take(i as int), k@)),
        decreases v.len() - i,
    {
        proof {
            let t = items.take(i + 1);
            assert(t.drop_last() =~= items.take(i as int));
            assert(t.last() == v[i as int]@);
            lemma_view(v[i as int]);
            assert(k@.subrange(0, k@.len() as int) =~= k@);
        }
        let hit = match &v[i].key {
            Some(kv) => chars_eq_range(kv, k, 0, k.len()),
            None => false,
        };
        let ghost before = nodes(out);
        if hit {
            let c = v[i].copy();
            let e = Object { key: None, value: c.value, cursor: 0 };
            proof {
                lemma_view(c);
                lemma_view(e);
            }
            out.push(e);
            proof {
                assert(nodes(out) =~= before.push(e@));
            }
        }
        i += 1;
    }
    proof {
        assert(items.take(i as int) =~= items);
    }
    out
}

fn regroup_exec(m: &Vec<Object>) -> (r: Vec<Object>)
    ensures
        nodes(r) =~= regroup(nodes(*m)),
{
    let ghost all = nodes(*m);
    let mut out: Vec<Object> = Vec::new();
    let mut i: usize = 0;
    proof {
        assert(nodes(out) =~= regroup_upto(all, 0));
    }
    while i < m.len()
        invariant
            i <= m.len(),
            all == nodes(*m),
            nodes(out) =~= regroup_upto(all, i as int),
        decreases m.len() - i,
    {
        proof {
            lemma_view(m[i as int]);
        }
        let ghost before = nodes(out);
        match &m[i].key {
            None => {
                let c = m[i].copy();
                out.push(c);
                proof {
                    assert(nodes(out) =~= before.push(c@));
                }
            },
            Some(k) => {
                let first = match find_pos(m, k.as_slice()) {
                    Some(j) => j == i,
                    None => false,
                };
                if first {
                    let same = keyed_values(m, k);
                    if same.len() == 1 {
                        let c = m[i].copy();
                        out.push(c);
                        proof {
                            assert(nodes(out) =~= before.push(c@));
                        }
                    } else {
                        let e = Object { key: Some(copy_chars(k)), value: Value::Array(same), cursor: 0 };
                        proof {
                            lemma_view(e);
                            assert(e@ == group_entry(all, i as int));
                        }
                        out.push(e);
                        proof {
                            assert(nodes(out) =~= before.push(e@));
                        }
                    }
                }
            },
        }
        i += 1;
    }
    out
}

} // verus!
