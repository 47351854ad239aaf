//! Nets that differ only in their keys.
//!
//! Which keys the arenas hand out is not for the net to choose. Two nets
//! are alike under a renaming if renaming the keys of the one gives the
//! other; every operation takes like nets to like nets, and like nets
//! read back the same types.

use vstd::prelude::*;

use crate::net::laws::{
    lemma_drop_all, lemma_edges_of, lemma_free_roots, lemma_free_roots_len, lemma_index_of,
    lemma_linked, lemma_node_ends, lemma_refs_of, lemma_with_edge, lemma_with_free_numbered,
};
use crate::net::model::{drop_all, ends_of, NetView, Place, RefView};
use crate::net::types::{PartialType, PartialTypeKey};
use crate::net::Node;

verus! {

/// New names for the keys of a net: for its type handles, its edges and
/// its edge-refs.
pub struct Renaming {
    pub types: Map<u64, u64>,
    pub edges: Map<u64, u64>,
    pub refs: Map<u64, u64>,
}

/// The map renames the keys `from` to exactly the keys `to`, each to
/// another.
pub open spec fn renames(m: Map<u64, u64>, from: Set<u64>, to: Set<u64>) -> bool {
    &&& forall|x: u64| from.contains(x) ==> to.contains(#[trigger] m[x])
    &&& forall|y: u64| to.contains(y) ==> exists|x: u64| from.contains(x) && #[trigger] m[x] == y
    &&& forall|x: u64, y: u64|
        #![trigger m[x], m[y]]
        from.contains(x) && from.contains(y) && m[x] == m[y] ==> x == y
}

/// The keys `s`, renamed.
pub open spec fn renamed(s: Seq<u64>, m: Map<u64, u64>) -> Seq<u64> {
    Seq::new(s.len(), |i: int| m[s[i]])
}

/// Which of the six kinds a node is of.
pub open spec fn kind_of(node: Node) -> int {
    match node {
        Node::Lam(_) => 0,
        Node::App(_) => 1,
        Node::AffAnn => 2,
        Node::AffChk => 3,
        Node::NAffAnn => 4,
        Node::NAffChk => 5,
    }
}

/// The node `m` is the node `n` with its endpoints renamed.
pub open spec fn node_like(n: Node, m: Node, refs: Map<u64, u64>) -> bool {
    kind_of(n) == kind_of(m) && m.ends() == renamed(n.ends(), refs)
}

/// The nodes `ms` are the nodes `ns` with their endpoints renamed.
pub open spec fn nodes_like(ns: Seq<Node>, ms: Seq<Node>, refs: Map<u64, u64>) -> bool {
    ns.len() == ms.len() && forall|i: int|
        0 <= i < ns.len() ==> node_like(#[trigger] ns[i], ms[i], refs)
}

/// The type `u` is the type `t` with its handles renamed. The numbers of
/// type variables do not count.
pub open spec fn type_like(t: PartialType, u: PartialType, types: Map<u64, u64>) -> bool {
    match t {
        PartialType::Arrow { a, b } => u == (PartialType::Arrow {
            a: PartialTypeKey { id: types[a.id] },
            b: PartialTypeKey { id: types[b.id] },
        }),
        PartialType::Cloneable { a } => u == (PartialType::Cloneable {
            a: PartialTypeKey { id: types[a.id] },
        }),
        PartialType::Uncloneable { a } => u == (PartialType::Uncloneable {
            a: PartialTypeKey { id: types[a.id] },
        }),
        PartialType::Unsafe { a } => u == (PartialType::Unsafe {
            a: PartialTypeKey { id: types[a.id] },
        }),
        PartialType::Indirect(k) => u == PartialType::Indirect(PartialTypeKey { id: types[k.id] }),
        PartialType::Free(_) => u is Free,
    }
}

impl NetView {
    /// The net `other` is this net with its keys renamed by `names`.
    pub open spec fn alike(self, other: NetView, names: Renaming) -> bool {
        &&& renames(names.types, self.types.dom(), other.types.dom())
        &&& renames(names.edges, self.edges.dom(), other.edges.dom())
        &&& renames(names.refs, self.refs.dom(), other.refs.dom())
        &&& forall|k: u64|
            #![trigger self.types[k]]
            self.types.dom().contains(k) ==> type_like(
                self.types[k],
                other.types[names.types[k]],
                names.types,
            )
        &&& forall|e: u64|
            #![trigger self.edges[e]]
            self.edges.dom().contains(e) ==> {
                &&& other.edges[names.edges[e]].type_key == names.types[self.edges[e].type_key]
                &&& other.edges[names.edges[e]].refs == renamed(self.edges[e].refs, names.refs)
                &&& nodes_like(self.edges[e].nodes, other.edges[names.edges[e]].nodes, names.refs)
            }
        &&& forall|r: u64|
            #![trigger self.refs[r]]
            self.refs.dom().contains(r) ==> other.refs[names.refs[r]] == (RefView {
                edge: names.edges[self.refs[r].edge],
                i: self.refs[r].i,
            })
        &&& self.redexes.len() == other.redexes.len()
        &&& forall|i: int|
            #![trigger self.redexes[i]]
            0 <= i < self.redexes.len() ==> other.redexes[i].type_key
                == names.types[self.redexes[i].type_key] && nodes_like(
                self.redexes[i].nodes,
                other.redexes[i].nodes,
                names.refs,
            )
        &&& self.next_label == other.next_label
        &&& other.order == renamed(self.order, names.types)
    }
}

/// Like nets have equations left together.
pub proof fn lemma_alike_equated(a: NetView, b: NetView, names: Renaming)
    requires
        a.alike(b, names),
    ensures
        a.is_equated() == b.is_equated(),
{
    if !a.is_equated() {
        let e = choose|e: u64| a.edges.dom().contains(e);
        assert(b.edges.dom().contains(names.edges[e]));
    }
    if !b.is_equated() {
        let y = choose|y: u64| b.edges.dom().contains(y);
        let x = choose|x: u64| a.edges.dom().contains(x) && #[trigger] names.edges[x] == y;
        assert(a.edges.dom().contains(x));
    }
}

/// In like nets forwarding leads from like handles to like handles.
pub proof fn lemma_root_of_like(a: NetView, b: NetView, names: Renaming, k: u64)
    requires
        a.types_wf(),
        b.types_wf(),
        a.alike(b, names),
        a.types.dom().contains(k),
    ensures
        a.types.dom().contains(a.root_of(k)),
        b.root_of(names.types[k]) == names.types[a.root_of(k)],
    decreases a.clock - a.birth[k],
{
    let j = names.types[k];
    assert(b.types.dom().contains(j));
    assert(type_like(a.types[k], b.types[j], names.types));
    match a.types[k] {
        PartialType::Indirect(x) => {
            assert(a.types[k].points_to(x.id));
            lemma_root_of_like(a, b, names, x.id);
        },
        _ => {},
    }
}

/// In like nets like walks reach like type variables, in the same order.
pub proof fn lemma_free_roots_like(a: NetView, b: NetView, names: Renaming, order: Seq<u64>)
    requires
        a.types_wf(),
        b.types_wf(),
        a.alike(b, names),
        forall|i: int| 0 <= i < order.len() ==> a.types.dom().contains(#[trigger] order[i]),
    ensures
        b.free_roots(renamed(order, names.types)) == renamed(a.free_roots(order), names.types),
    decreases order.len(),
{
    let order2 = renamed(order, names.types);
    if order.len() == 0 {
        assert(b.free_roots(order2) =~= renamed(a.free_roots(order), names.types));
    } else {
        let init = order.drop_last();
        let rest = a.free_roots(init);
        let r = a.root_of(order.last());
        assert(order2.drop_last() =~= renamed(init, names.types));
        assert(order2.last() == names.types[order.last()]);
        lemma_free_roots_like(a, b, names, init);
        lemma_free_roots(a, init);
        assert(a.types.dom().contains(order[order.len() - 1]));
        lemma_root_of_like(a, b, names, order.last());
        let rest2 = renamed(rest, names.types);
        let r2 = names.types[r];
        assert(b.types.dom().contains(r2));
        assert(type_like(a.types[r], b.types[r2], names.types));
        assert(a.types[r] is Free <==> b.types[r2] is Free);
        if rest.contains(r) {
            let i = choose|i: int| 0 <= i < rest.len() && rest[i] == r;
            assert(rest2[i] == r2);
        }
        if rest2.contains(r2) {
            let i = choose|i: int| 0 <= i < rest2.len() && rest2[i] == r2;
            assert(rest.contains(rest[i]));
            assert(names.types[rest[i]] == names.types[r]);
            assert(rest[i] == r);
        }
        assert(renamed(rest.push(r), names.types) =~= rest2.push(r2));
    }
}

/// Like nets whose type variables were numbered as they are walked read
/// back the same types, with the same numbers.
pub proof fn lemma_alike_same_types(a: NetView, b: NetView, names: Renaming, k: u64)
    requires
        a.wf(),
        b.wf(),
        a.alike(b, names),
        a.order.len() <= usize::MAX,
        a.types.dom().contains(k),
    ensures
        b.with_free_numbered(b.order).closed_type(names.types[k]) == a.with_free_numbered(
            a.order,
        ).closed_type(k),
    decreases a.clock - a.birth[k],
{
    let a2 = a.with_free_numbered(a.order);
    let b2 = b.with_free_numbered(b.order);
    lemma_with_free_numbered(a, a.order);
    lemma_with_free_numbered(b, b.order);
    let j = names.types[k];
    assert(b.types.dom().contains(j));
    assert(a2.types.dom().contains(k));
    assert(b2.types.dom().contains(j));
    assert(type_like(a.types[k], b.types[j], names.types));
    match a.types[k] {
        PartialType::Arrow { a: x, b: y } => {
            assert(a.types[k].points_to(x.id));
            assert(a.types[k].points_to(y.id));
            lemma_alike_same_types(a, b, names, x.id);
            lemma_alike_same_types(a, b, names, y.id);
        },
        PartialType::Cloneable { a: x } => {
            assert(a.types[k].points_to(x.id));
            lemma_alike_same_types(a, b, names, x.id);
        },
        PartialType::Uncloneable { a: x } => {
            assert(a.types[k].points_to(x.id));
            lemma_alike_same_types(a, b, names, x.id);
        },
        PartialType::Unsafe { a: x } => {
            assert(a.types[k].points_to(x.id));
            lemma_alike_same_types(a, b, names, x.id);
        },
        PartialType::Indirect(x) => {
            assert(a.types[k].points_to(x.id));
            lemma_alike_same_types(a, b, names, x.id);
        },
        PartialType::Free(_) => {
            let roots = a.free_roots(a.order);
            let roots2 = b.free_roots(b.order);
            lemma_free_roots(a, a.order);
            lemma_free_roots_len(a, a.order);
            lemma_free_roots_like(a, b, names, a.order);
            assert(roots2 == renamed(roots, names.types));
            assert(a.order.contains(k));
            let at = choose|at: int| 0 <= at < a.order.len() && a.order[at] == k;
            assert(a.types[a.order[at]] is Free);
            assert(roots.contains(a.order[at]));
            let i = roots.index_of(k);
            assert(0 <= i < roots.len() && roots[i] == k);
            assert(roots2[i] == j);
            let i2 = roots2.index_of(j);
            assert(0 <= i2 < roots2.len() && roots2[i2] == j);
            assert(roots.contains(roots[i2]));
            assert(names.types[roots[i2]] == names.types[k]);
            assert(roots[i2] == k);
            assert(i2 == i);
        },
    }
}

impl Renaming {
    /// The names agree with `old` on the type handles of `net`, and on the
    /// edge-refs that `net` and `next` both have.
    pub open spec fn extends(self, old: Renaming, net: NetView, next: NetView) -> bool {
        &&& forall|k: u64|
            #![trigger self.types[k]]
            net.types.dom().contains(k) ==> self.types[k] == old.types[k]
        &&& forall|r: u64|
            #![trigger self.refs[r]]
            net.refs.dom().contains(r) && next.refs.dom().contains(r) ==> self.refs[r]
                == old.refs[r]
    }
}

/// Renamed nodes stay renamed under names that agree on their endpoints.
pub proof fn lemma_nodes_like_agree(
    ns: Seq<Node>,
    ms: Seq<Node>,
    old: Map<u64, u64>,
    new: Map<u64, u64>,
)
    requires
        nodes_like(ns, ms, old),
        forall|x: u64| ends_of(ns).contains(x) ==> #[trigger] new[x] == old[x],
    ensures
        nodes_like(ns, ms, new),
{
    assert forall|i: int| 0 <= i < ns.len() implies node_like(#[trigger] ns[i], ms[i], new) by {
        assert(node_like(ns[i], ms[i], old));
        assert forall|j: int| 0 <= j < ns[i].ends().len() implies new[ns[i].ends()[j]]
            == old[ns[i].ends()[j]] by {
            lemma_node_ends(ns, i, j);
        }
        assert(renamed(ns[i].ends(), new) =~= renamed(ns[i].ends(), old));
    }
}

/// Like nets stay alike under names that agree on all their keys but for
/// the edge-refs and edges that are not theirs.
pub proof fn lemma_alike_agree(a: NetView, b: NetView, old: Renaming, new: Renaming)
    requires
        a.wf(),
        a.alike(b, old),
        forall|k: u64| a.types.dom().contains(k) ==> #[trigger] new.types[k] == old.types[k],
        forall|e: u64| a.edges.dom().contains(e) ==> #[trigger] new.edges[e] == old.edges[e],
        forall|r: u64| a.refs.dom().contains(r) ==> #[trigger] new.refs[r] == old.refs[r],
    ensures
        a.alike(b, new),
{
    assert(renamed(a.order, new.types) =~= renamed(a.order, old.types));
    assert forall|y: u64| b.types.dom().contains(y) implies exists|x: u64|
        a.types.dom().contains(x) && #[trigger] new.types[x] == y by {
        let x = choose|x: u64| a.types.dom().contains(x) && #[trigger] old.types[x] == y;
        assert(new.types[x] == y);
    }
    assert forall|y: u64| b.edges.dom().contains(y) implies exists|x: u64|
        a.edges.dom().contains(x) && #[trigger] new.edges[x] == y by {
        let x = choose|x: u64| a.edges.dom().contains(x) && #[trigger] old.edges[x] == y;
        assert(new.edges[x] == y);
    }
    assert forall|y: u64| b.refs.dom().contains(y) implies exists|x: u64|
        a.refs.dom().contains(x) && #[trigger] new.refs[x] == y by {
        let x = choose|x: u64| a.refs.dom().contains(x) && #[trigger] old.refs[x] == y;
        assert(new.refs[x] == y);
    }
    assert forall|x: u64, y: u64|
        #![trigger new.types[x], new.types[y]]
        a.types.dom().contains(x) && a.types.dom().contains(y) && new.types[x]
            == new.types[y] implies x == y by {
        assert(old.types[x] == old.types[y]);
    }
    assert forall|x: u64, y: u64|
        #![trigger new.edges[x], new.edges[y]]
        a.edges.dom().contains(x) && a.edges.dom().contains(y) && new.edges[x]
            == new.edges[y] implies x == y by {
        assert(old.edges[x] == old.edges[y]);
    }
    assert forall|x: u64, y: u64|
        #![trigger new.refs[x], new.refs[y]]
        a.refs.dom().contains(x) && a.refs.dom().contains(y) && new.refs[x]
            == new.refs[y] implies x == y by {
        assert(old.refs[x] == old.refs[y]);
    }
    assert forall|k: u64|
        #![trigger a.types[k]]
        a.types.dom().contains(k) implies type_like(a.types[k], b.types[new.types[k]], new.types) by {
        assert(type_like(a.types[k], b.types[old.types[k]], old.types));
        match a.types[k] {
            PartialType::Arrow { a: x, b: y } => {
                assert(a.types[k].points_to(x.id));
                assert(a.types[k].points_to(y.id));
            },
            PartialType::Cloneable { a: x } => {
                assert(a.types[k].points_to(x.id));
            },
            PartialType::Uncloneable { a: x } => {
                assert(a.types[k].points_to(x.id));
            },
            PartialType::Unsafe { a: x } => {
                assert(a.types[k].points_to(x.id));
            },
            PartialType::Indirect(x) => {
                assert(a.types[k].points_to(x.id));
            },
            PartialType::Free(_) => {},
        }
    }
    assert forall|e: u64|
        #![trigger a.edges[e]]
        a.edges.dom().contains(e) implies {
        &&& b.edges[new.edges[e]].type_key == new.types[a.edges[e].type_key]
        &&& b.edges[new.edges[e]].refs == renamed(a.edges[e].refs, new.refs)
        &&& nodes_like(a.edges[e].nodes, b.edges[new.edges[e]].nodes, new.refs)
    } by {
        let p = Place::Edge(e);
        assert(a.has(p));
        assert(a.types.dom().contains(a.type_at(p)));
        assert forall|j: int| 0 <= j < a.edges[e].refs.len() implies new.refs[a.edges[e].refs[j]]
            == old.refs[a.edges[e].refs[j]] by {
            assert(a.refs.dom().contains(a.edges[e].refs[j]));
        }
        assert(renamed(a.edges[e].refs, new.refs) =~= renamed(a.edges[e].refs, old.refs));
        assert forall|x: u64| ends_of(a.edges[e].nodes).contains(x) implies #[trigger] new.refs[x]
            == old.refs[x] by {
            assert(a.ends_at(p).contains(x));
        }
        lemma_nodes_like_agree(a.edges[e].nodes, b.edges[old.edges[e]].nodes, old.refs, new.refs);
    }
    assert forall|r: u64|
        #![trigger a.refs[r]]
        a.refs.dom().contains(r) implies b.refs[new.refs[r]] == (RefView {
        edge: new.edges[a.refs[r].edge],
        i: a.refs[r].i,
    }) by {
        assert(a.edges.dom().contains(a.refs[r].edge));
    }
    assert forall|i: int|
        #![trigger a.redexes[i]]
        0 <= i < a.redexes.len() implies b.redexes[i].type_key == new.types[a.redexes[i].type_key]
        && nodes_like(a.redexes[i].nodes, b.redexes[i].nodes, new.refs) by {
        let p = Place::Redex(i);
        assert(a.has(p));
        assert(a.types.dom().contains(a.type_at(p)));
        assert forall|x: u64| ends_of(a.redexes[i].nodes).contains(x) implies #[trigger] new.refs[x]
            == old.refs[x] by {
            assert(a.ends_at(p).contains(x));
        }
        lemma_nodes_like_agree(a.redexes[i].nodes, b.redexes[i].nodes, old.refs, new.refs);
    }
}

/// One more key, renamed to a new one.
pub proof fn lemma_renames_insert(m: Map<u64, u64>, from: Set<u64>, to: Set<u64>, x: u64, y: u64)
    requires
        renames(m, from, to),
        !from.contains(x),
        !to.contains(y),
    ensures
        renames(m.insert(x, y), from.insert(x), to.insert(y)),
{
    let n = m.insert(x, y);
    assert forall|v: u64| to.insert(y).contains(v) implies exists|u: u64|
        from.insert(x).contains(u) && #[trigger] n[u] == v by {
        if v == y {
            assert(n[x] == v);
        } else {
            let u = choose|u: u64| from.contains(u) && #[trigger] m[u] == v;
            assert(n[u] == v);
        }
    }
    assert forall|u: u64, v: u64|
        #![trigger n[u], n[v]]
        from.insert(x).contains(u) && from.insert(x).contains(v) && n[u] == n[v] implies u
        == v by {
        if u != x && v != x {
            assert(m[u] == m[v]);
        } else if u != x {
            assert(to.contains(m[u]));
        } else if v != x {
            assert(to.contains(m[v]));
        }
    }
}

/// The names with the keys `rs` renamed to `ts`, key by key.
pub open spec fn names_with(m: Map<u64, u64>, rs: Seq<u64>, ts: Seq<u64>) -> Map<u64, u64>
    decreases rs.len(),
{
    if rs.len() == 0 {
        m
    } else {
        names_with(m, rs.drop_last(), ts.drop_last()).insert(rs.last(), ts.last())
    }
}

/// New keys, renamed to new keys one by one.
pub proof fn lemma_names_with(
    m: Map<u64, u64>,
    from: Set<u64>,
    to: Set<u64>,
    rs: Seq<u64>,
    ts: Seq<u64>,
)
    requires
        renames(m, from, to),
        rs.len() == ts.len(),
        rs.no_duplicates(),
        ts.no_duplicates(),
        forall|i: int| 0 <= i < rs.len() ==> !from.contains(#[trigger] rs[i]),
        forall|i: int| 0 <= i < ts.len() ==> !to.contains(#[trigger] ts[i]),
    ensures
        renames(
            names_with(m, rs, ts),
            Set::new(|x: u64| from.contains(x) || rs.contains(x)),
            Set::new(|y: u64| to.contains(y) || ts.contains(y)),
        ),
        forall|i: int| 0 <= i < rs.len() ==> names_with(m, rs, ts)[#[trigger] rs[i]] == ts[i],
        forall|x: u64| !rs.contains(x) ==> #[trigger] names_with(m, rs, ts)[x] == m[x],
    decreases rs.len(),
{
    let from2 = Set::new(|x: u64| from.contains(x) || rs.contains(x));
    let to2 = Set::new(|y: u64| to.contains(y) || ts.contains(y));
    if rs.len() == 0 {
        assert(from2 =~= from);
        assert(to2 =~= to);
    } else {
        let r0 = rs.drop_last();
        let t0 = ts.drop_last();
        let x = rs.last();
        let y = ts.last();
        lemma_names_with(m, from, to, r0, t0);
        let from1 = Set::new(|v: u64| from.contains(v) || r0.contains(v));
        let to1 = Set::new(|v: u64| to.contains(v) || t0.contains(v));
        assert(!r0.contains(x)) by {
            if r0.contains(x) {
                let k = choose|k: int| 0 <= k < r0.len() && r0[k] == x;
                assert(rs[k] == rs[rs.len() - 1]);
            }
        }
        assert(!t0.contains(y)) by {
            if t0.contains(y) {
                let k = choose|k: int| 0 <= k < t0.len() && t0[k] == y;
                assert(ts[k] == ts[ts.len() - 1]);
            }
        }
        assert(!from1.contains(x)) by {
            assert(rs[rs.len() - 1] == x);
        }
        assert(!to1.contains(y)) by {
            assert(ts[ts.len() - 1] == y);
        }
        lemma_renames_insert(names_with(m, r0, t0), from1, to1, x, y);
        assert forall|v: u64| rs.contains(v) <==> r0.contains(v) || v == x by {
            if rs.contains(v) {
                let k = choose|k: int| 0 <= k < rs.len() && rs[k] == v;
                if k < r0.len() {
                    assert(r0[k] == v);
                }
            }
            if r0.contains(v) {
                let k = choose|k: int| 0 <= k < r0.len() && r0[k] == v;
                assert(rs[k] == v);
            }
            if v == x {
                assert(rs[rs.len() - 1] == v);
            }
        }
        assert forall|v: u64| ts.contains(v) <==> t0.contains(v) || v == y by {
            if ts.contains(v) {
                let k = choose|k: int| 0 <= k < ts.len() && ts[k] == v;
                if k < t0.len() {
                    assert(t0[k] == v);
                }
            }
            if t0.contains(v) {
                let k = choose|k: int| 0 <= k < t0.len() && t0[k] == v;
                assert(ts[k] == v);
            }
            if v == y {
                assert(ts[ts.len() - 1] == v);
            }
        }
        assert(from2 =~= from1.insert(x));
        assert(to2 =~= to1.insert(y));
        assert forall|i: int| 0 <= i < rs.len() implies names_with(m, rs, ts)[#[trigger] rs[i]]
            == ts[i] by {
            if i < r0.len() {
                assert(r0[i] == rs[i]);
                assert(r0.contains(rs[i]));
                assert(names_with(m, r0, t0)[r0[i]] == t0[i]);
            }
        }
    }
}

/// The names of a net with a new edge: the new type handle, the new edge
/// and the new edge-refs are renamed to those of the other net.
pub open spec fn names_with_edge(
    names: Renaming,
    t: u64,
    e: u64,
    rs: Seq<u64>,
    t2: u64,
    e2: u64,
    rs2: Seq<u64>,
) -> Renaming {
    Renaming {
        types: names.types.insert(t, t2),
        edges: names.edges.insert(e, e2),
        refs: names_with(names.refs, rs, rs2),
    }
}

/// Like nets with like new edges are alike.
pub proof fn lemma_like_with_edge(
    a: NetView,
    b: NetView,
    names: Renaming,
    t: u64,
    e: u64,
    rs: Seq<u64>,
    nodes: Seq<Node>,
    t2: u64,
    e2: u64,
    rs2: Seq<u64>,
    nodes2: Seq<Node>,
)
    requires
        a.wf(),
        a.alike(b, names),
        a.fresh(t, e, rs),
        b.fresh(t2, e2, rs2),
        rs.len() == rs2.len(),
        nodes_like(nodes, nodes2, names.refs),
        forall|x: u64| ends_of(nodes).contains(x) ==> a.refs.dom().contains(x),
    ensures
        a.with_edge(t, e, rs, nodes).alike(
            b.with_edge(t2, e2, rs2, nodes2),
            names_with_edge(names, t, e, rs, t2, e2, rs2),
        ),
        names_with_edge(names, t, e, rs, t2, e2, rs2).extends(
            names,
            a,
            a.with_edge(t, e, rs, nodes),
        ),
        forall|i: int|
            0 <= i < rs.len() ==> names_with_edge(names, t, e, rs, t2, e2, rs2).refs[#[trigger] rs[i]]
                == rs2[i],
{
    let next = names_with_edge(names, t, e, rs, t2, e2, rs2);
    let a2 = a.with_edge(t, e, rs, nodes);
    let b2 = b.with_edge(t2, e2, rs2, nodes2);
    lemma_names_with(names.refs, a.refs.dom(), b.refs.dom(), rs, rs2);
    lemma_renames_insert(names.types, a.types.dom(), b.types.dom(), t, t2);
    lemma_renames_insert(names.edges, a.edges.dom(), b.edges.dom(), e, e2);
    assert forall|r: u64| a.refs.dom().contains(r) implies #[trigger] next.refs[r]
        == names.refs[r] by {
        if rs.contains(r) {
            let k = choose|k: int| 0 <= k < rs.len() && rs[k] == r;
        }
    }
    lemma_alike_agree(a, b, names, next);
    assert(b2.order =~= renamed(a2.order, next.types)) by {
        assert forall|i: int| 0 <= i < a.order.len() implies next.types[a.order[i]]
            == names.types[a.order[i]] by {
            assert(a.types.dom().contains(a.order[i]));
        }
    }
    assert(a2.types.dom() =~= a.types.dom().insert(t));
    assert(b2.types.dom() =~= b.types.dom().insert(t2));
    assert(a2.edges.dom() =~= a.edges.dom().insert(e));
    assert(b2.edges.dom() =~= b.edges.dom().insert(e2));
    assert(a2.refs.dom() =~= Set::new(|x: u64| a.refs.dom().contains(x) || rs.contains(x)));
    assert(b2.refs.dom() =~= Set::new(|x: u64| b.refs.dom().contains(x) || rs2.contains(x)));
    assert forall|i: int| 0 <= i < rs2.len() implies rs2.index_of(#[trigger] rs2[i]) == i by {
        crate::net::laws::lemma_index_of(rs2, i);
    }
    assert forall|i: int| 0 <= i < rs.len() implies rs.index_of(#[trigger] rs[i]) == i by {
        crate::net::laws::lemma_index_of(rs, i);
    }
    assert forall|k: u64|
        #![trigger a2.types[k]]
        a2.types.dom().contains(k) implies type_like(
        a2.types[k],
        b2.types[next.types[k]],
        next.types,
    ) by {
        if k != t {
            assert(type_like(a.types[k], b.types[next.types[k]], next.types));
            assert(b.types.dom().contains(names.types[k]));
        }
    }
    assert forall|x: u64|
        #![trigger a2.edges[x]]
        a2.edges.dom().contains(x) implies {
        &&& b2.edges[next.edges[x]].type_key == next.types[a2.edges[x].type_key]
        &&& b2.edges[next.edges[x]].refs == renamed(a2.edges[x].refs, next.refs)
        &&& nodes_like(a2.edges[x].nodes, b2.edges[next.edges[x]].nodes, next.refs)
    } by {
        if x == e {
            assert(rs2 =~= renamed(rs, next.refs));
            assert forall|y: u64| ends_of(nodes).contains(y) implies #[trigger] next.refs[y]
                == names.refs[y] by {}
            lemma_nodes_like_agree(nodes, nodes2, names.refs, next.refs);
        } else {
            assert(b.edges.dom().contains(names.edges[x]));
            assert(a.edges[x] == a2.edges[x]);
            assert(a.has(Place::Edge(x)));
        }
    }
    assert forall|r: u64|
        #![trigger a2.refs[r]]
        a2.refs.dom().contains(r) implies b2.refs[next.refs[r]] == (RefView {
        edge: next.edges[a2.refs[r].edge],
        i: a2.refs[r].i,
    }) by {
        if rs.contains(r) {
            let k = choose|k: int| 0 <= k < rs.len() && rs[k] == r;
            assert(next.refs[rs[k]] == rs2[k]);
            assert(rs2.contains(rs2[k]));
        } else {
            assert(a.refs.dom().contains(r));
            assert(a2.refs[r] == a.refs[r]);
            assert(b.refs.dom().contains(names.refs[r]));
            assert(a.edges.dom().contains(a.refs[r].edge));
            if rs2.contains(names.refs[r]) {
                let k = choose|k: int| 0 <= k < rs2.len() && rs2[k] == names.refs[r];
            }
        }
    }
    assert forall|i: int|
        #![trigger a2.redexes[i]]
        0 <= i < a2.redexes.len() implies b2.redexes[i].type_key
        == next.types[a2.redexes[i].type_key] && nodes_like(
        a2.redexes[i].nodes,
        b2.redexes[i].nodes,
        next.refs,
    ) by {
        assert(a.redexes[i] == a2.redexes[i]);
    }
}

/// Like nets with like new edge-refs on like edges are alike.
pub proof fn lemma_like_with_ref_added(
    a: NetView,
    b: NetView,
    names: Renaming,
    v: u64,
    r: u64,
    r2: u64,
)
    requires
        a.wf(),
        a.alike(b, names),
        a.refs.dom().contains(v),
        !a.refs.dom().contains(r),
        !b.refs.dom().contains(r2),
    ensures
        a.with_ref_added(v, r).alike(
            b.with_ref_added(names.refs[v], r2),
            Renaming { refs: names.refs.insert(r, r2), ..names },
        ),
        (Renaming { refs: names.refs.insert(r, r2), ..names }).extends(
            names,
            a,
            a.with_ref_added(v, r),
        ),
{
    let next = Renaming { refs: names.refs.insert(r, r2), ..names };
    let a2 = a.with_ref_added(v, r);
    let b2 = b.with_ref_added(names.refs[v], r2);
    let e = a.refs[v].edge;
    lemma_renames_insert(names.refs, a.refs.dom(), b.refs.dom(), r, r2);
    lemma_alike_agree(a, b, names, next);
    assert(a2.refs.dom() =~= a.refs.dom().insert(r));
    assert(b2.refs.dom() =~= b.refs.dom().insert(r2));
    assert(a2.edges.dom() =~= a.edges.dom());
    assert(b2.edges.dom() =~= b.edges.dom());
    assert(a.edges.dom().contains(e));
    assert(b.edges.dom().contains(names.edges[e]));
    assert(b.refs[names.refs[v]].edge == names.edges[e]);
    assert forall|x: u64|
        #![trigger a2.edges[x]]
        a2.edges.dom().contains(x) implies {
        &&& b2.edges[next.edges[x]].type_key == next.types[a2.edges[x].type_key]
        &&& b2.edges[next.edges[x]].refs == renamed(a2.edges[x].refs, next.refs)
        &&& nodes_like(a2.edges[x].nodes, b2.edges[next.edges[x]].nodes, next.refs)
    } by {
        assert(a.edges.dom().contains(x));
        assert(b.edges[next.edges[x]].refs == renamed(a.edges[x].refs, next.refs));
        if x == e {
            assert(b2.edges[next.edges[x]].refs =~= renamed(a2.edges[x].refs, next.refs));
        } else {
            assert(next.edges[x] != next.edges[e]);
        }
    }
    assert forall|x: u64|
        #![trigger a2.refs[x]]
        a2.refs.dom().contains(x) implies b2.refs[next.refs[x]] == (RefView {
        edge: next.edges[a2.refs[x].edge],
        i: a2.refs[x].i,
    }) by {
        if x != r {
            assert(a.refs.dom().contains(x));
            assert(b.refs.dom().contains(names.refs[x]));
        } else {
            assert(b.edges[names.edges[e]].refs == renamed(a.edges[e].refs, names.refs));
        }
    }
    assert forall|i: int|
        #![trigger a2.redexes[i]]
        0 <= i < a2.redexes.len() implies b2.redexes[i].type_key
        == next.types[a2.redexes[i].type_key] && nodes_like(
        a2.redexes[i].nodes,
        b2.redexes[i].nodes,
        next.refs,
    ) by {
        assert(a.redexes[i] == a2.redexes[i]);
    }
}

/// Like nets with like types written to like handles are alike.
pub proof fn lemma_like_with_type_set(
    a: NetView,
    b: NetView,
    names: Renaming,
    h: u64,
    v: PartialType,
    v2: PartialType,
)
    requires
        a.alike(b, names),
        a.types.dom().contains(h),
        type_like(v, v2, names.types),
    ensures
        a.with_type_set(h, v).alike(b.with_type_set(names.types[h], v2), names),
{
    let a2 = a.with_type_set(h, v);
    let b2 = b.with_type_set(names.types[h], v2);
    assert(a2.types.dom() =~= a.types.dom());
    assert(b2.types.dom() =~= b.types.dom());
    assert forall|k: u64|
        #![trigger a2.types[k]]
        a2.types.dom().contains(k) implies type_like(
        a2.types[k],
        b2.types[names.types[k]],
        names.types,
    ) by {
        if k != h {
            assert(type_like(a.types[k], b.types[names.types[k]], names.types));
            assert(names.types[k] != names.types[h]);
        }
    }
    assert forall|e: u64|
        #![trigger a2.edges[e]]
        a2.edges.dom().contains(e) implies {
        &&& b2.edges[names.edges[e]].type_key == names.types[a2.edges[e].type_key]
        &&& b2.edges[names.edges[e]].refs == renamed(a2.edges[e].refs, names.refs)
        &&& nodes_like(a2.edges[e].nodes, b2.edges[names.edges[e]].nodes, names.refs)
    } by {
        assert(a.edges[e] == a2.edges[e]);
    }
    assert forall|r: u64|
        #![trigger a2.refs[r]]
        a2.refs.dom().contains(r) implies b2.refs[names.refs[r]] == (RefView {
        edge: names.edges[a2.refs[r].edge],
        i: a2.refs[r].i,
    }) by {
        assert(a.refs[r] == a2.refs[r]);
    }
    assert forall|i: int|
        #![trigger a2.redexes[i]]
        0 <= i < a2.redexes.len() implies b2.redexes[i].type_key
        == names.types[a2.redexes[i].type_key] && nodes_like(
        a2.redexes[i].nodes,
        b2.redexes[i].nodes,
        names.refs,
    ) by {
        assert(a.redexes[i] == a2.redexes[i]);
    }
}

/// Like nets without their last redexes are alike, and the redexes were
/// alike.
pub proof fn lemma_like_popped(a: NetView, b: NetView, names: Renaming)
    requires
        a.alike(b, names),
        a.redexes.len() > 0,
    ensures
        a.popped().alike(b.popped(), names),
        b.redexes.len() > 0,
        b.redexes.last().type_key == names.types[a.redexes.last().type_key],
        nodes_like(a.redexes.last().nodes, b.redexes.last().nodes, names.refs),
{
    let a2 = a.popped();
    let b2 = b.popped();
    assert(a.redexes[a.redexes.len() - 1] == a.redexes.last());
    assert forall|k: u64|
        #![trigger a2.types[k]]
        a2.types.dom().contains(k) implies type_like(
        a2.types[k],
        b2.types[names.types[k]],
        names.types,
    ) by {
        assert(type_like(a.types[k], b.types[names.types[k]], names.types));
    }
    assert forall|e: u64|
        #![trigger a2.edges[e]]
        a2.edges.dom().contains(e) implies {
        &&& b2.edges[names.edges[e]].type_key == names.types[a2.edges[e].type_key]
        &&& b2.edges[names.edges[e]].refs == renamed(a2.edges[e].refs, names.refs)
        &&& nodes_like(a2.edges[e].nodes, b2.edges[names.edges[e]].nodes, names.refs)
    } by {
        assert(a.edges[e] == a2.edges[e]);
    }
    assert forall|r: u64|
        #![trigger a2.refs[r]]
        a2.refs.dom().contains(r) implies b2.refs[names.refs[r]] == (RefView {
        edge: names.edges[a2.refs[r].edge],
        i: a2.refs[r].i,
    }) by {
        assert(a.refs[r] == a2.refs[r]);
    }
    assert forall|i: int|
        #![trigger a2.redexes[i]]
        0 <= i < a2.redexes.len() implies b2.redexes[i].type_key
        == names.types[a2.redexes[i].type_key] && nodes_like(
        a2.redexes[i].nodes,
        b2.redexes[i].nodes,
        names.refs,
    ) by {
        assert(a.redexes[i] == a2.redexes[i]);
        assert(b.redexes[i] == b2.redexes[i]);
    }
}

/// Like nets with the same other fan label are alike.
pub proof fn lemma_like_labelled(a: NetView, b: NetView, names: Renaming, label: usize)
    requires
        a.alike(b, names),
    ensures
        (NetView { next_label: label, ..a }).alike(NetView { next_label: label, ..b }, names),
{
    let a2 = NetView { next_label: label, ..a };
    let b2 = NetView { next_label: label, ..b };
    assert forall|k: u64|
        #![trigger a2.types[k]]
        a2.types.dom().contains(k) implies type_like(
        a2.types[k],
        b2.types[names.types[k]],
        names.types,
    ) by {
        assert(type_like(a.types[k], b.types[names.types[k]], names.types));
    }
    assert forall|e: u64|
        #![trigger a2.edges[e]]
        a2.edges.dom().contains(e) implies {
        &&& b2.edges[names.edges[e]].type_key == names.types[a2.edges[e].type_key]
        &&& b2.edges[names.edges[e]].refs == renamed(a2.edges[e].refs, names.refs)
        &&& nodes_like(a2.edges[e].nodes, b2.edges[names.edges[e]].nodes, names.refs)
    } by {
        assert(a.edges[e] == a2.edges[e]);
    }
    assert forall|r: u64|
        #![trigger a2.refs[r]]
        a2.refs.dom().contains(r) implies b2.refs[names.refs[r]] == (RefView {
        edge: names.edges[a2.refs[r].edge],
        i: a2.refs[r].i,
    }) by {
        assert(a.refs[r] == a2.refs[r]);
    }
    assert forall|i: int|
        #![trigger a2.redexes[i]]
        0 <= i < a2.redexes.len() implies b2.redexes[i].type_key
        == names.types[a2.redexes[i].type_key] && nodes_like(
        a2.redexes[i].nodes,
        b2.redexes[i].nodes,
        names.refs,
    ) by {
        assert(a.redexes[i] == a2.redexes[i]);
    }
}

/// Like lists of nodes, one after the other, are alike.
pub proof fn lemma_nodes_like_concat(
    n1: Seq<Node>,
    m1: Seq<Node>,
    n2: Seq<Node>,
    m2: Seq<Node>,
    refs: Map<u64, u64>,
)
    requires
        nodes_like(n1, m1, refs),
        nodes_like(n2, m2, refs),
    ensures
        nodes_like(n1 + n2, m1 + m2, refs),
{
    assert forall|i: int| 0 <= i < (n1 + n2).len() implies node_like(
        #[trigger] (n1 + n2)[i],
        (m1 + m2)[i],
        refs,
    ) by {
        if i < n1.len() {
            assert(node_like(n1[i], m1[i], refs));
        } else {
            assert(node_like(n2[i - n1.len()], m2[i - n1.len()], refs));
        }
    }
}

/// Like nets after like variables were linked to like nodes are alike.
pub proof fn lemma_like_with_node_linked(
    a: NetView,
    b: NetView,
    names: Renaming,
    v: u64,
    node: Node,
    node2: Node,
)
    requires
        a.wf(),
        a.alike(b, names),
        a.refs.dom().contains(v),
        node_like(node, node2, names.refs),
    ensures
        a.with_node_linked(v, node).alike(b.with_node_linked(names.refs[v], node2), names),
{
    let a2 = a.with_node_linked(v, node);
    let v2 = names.refs[v];
    let b2 = b.with_node_linked(v2, node2);
    let at = a.refs[v];
    let e = at.edge;
    let e2 = names.edges[e];
    let edge = a.edges[e];
    let edge2 = b.edges[e2];
    assert(a.edges.dom().contains(e));
    assert(b.refs[v2] == (RefView { edge: e2, i: at.i }));
    assert(edge2.refs == renamed(edge.refs, names.refs));
    assert(nodes_like(edge.nodes, edge2.nodes, names.refs));
    assert(nodes_like(seq![node], seq![node2], names.refs));
    lemma_nodes_like_concat(edge.nodes, edge2.nodes, seq![node], seq![node2], names.refs);
    assert(edge.nodes + seq![node] =~= edge.nodes.push(node));
    assert(edge2.nodes + seq![node2] =~= edge2.nodes.push(node2));
    assert(edge2.refs.remove(at.i) =~= renamed(edge.refs.remove(at.i), names.refs));
    assert(b.refs.dom().contains(v2));
    assert(a2.refs.dom() =~= a.refs.dom().remove(v));
    assert(b2.refs.dom() =~= b.refs.dom().remove(v2));
    assert(renames(names.refs, a2.refs.dom(), b2.refs.dom())) by {
        assert forall|y: u64| b2.refs.dom().contains(y) implies exists|x: u64|
            a2.refs.dom().contains(x) && #[trigger] names.refs[x] == y by {
            let x = choose|x: u64| a.refs.dom().contains(x) && #[trigger] names.refs[x] == y;
            assert(a2.refs.dom().contains(x));
        }
    }
    assert(renames(names.edges, a2.edges.dom(), b2.edges.dom())) by {
        assert(b.edges.dom().contains(e2));
        if edge.refs.remove(at.i).len() == 0 {
            assert(a2.edges.dom() =~= a.edges.dom().remove(e));
            assert(b2.edges.dom() =~= b.edges.dom().remove(e2));
            assert forall|y: u64| b2.edges.dom().contains(y) implies exists|x: u64|
                a2.edges.dom().contains(x) && #[trigger] names.edges[x] == y by {
                let x = choose|x: u64| a.edges.dom().contains(x) && #[trigger] names.edges[x] == y;
                assert(a2.edges.dom().contains(x));
            }
        } else {
            assert(a2.edges.dom() =~= a.edges.dom());
            assert(b2.edges.dom() =~= b.edges.dom());
        }
    }
    assert forall|k: u64|
        #![trigger a2.types[k]]
        a2.types.dom().contains(k) implies type_like(
        a2.types[k],
        b2.types[names.types[k]],
        names.types,
    ) by {
        assert(type_like(a.types[k], b.types[names.types[k]], names.types));
    }
    assert forall|x: u64|
        #![trigger a2.edges[x]]
        a2.edges.dom().contains(x) implies {
        &&& b2.edges[names.edges[x]].type_key == names.types[a2.edges[x].type_key]
        &&& b2.edges[names.edges[x]].refs == renamed(a2.edges[x].refs, names.refs)
        &&& nodes_like(a2.edges[x].nodes, b2.edges[names.edges[x]].nodes, names.refs)
    } by {
        assert(a.edges.dom().contains(x));
        if x != e {
            assert(names.edges[x] != e2);
            assert(a.edges[x] == a2.edges[x]);
        }
    }
    assert forall|r: u64|
        #![trigger a2.refs[r]]
        a2.refs.dom().contains(r) implies b2.refs[names.refs[r]] == (RefView {
        edge: names.edges[a2.refs[r].edge],
        i: a2.refs[r].i,
    }) by {
        assert(a.refs.dom().contains(r));
        assert(names.refs[r] != v2);
        assert(b.refs[names.refs[r]] == (RefView {
            edge: names.edges[a.refs[r].edge],
            i: a.refs[r].i,
        }));
        assert(a.edges.dom().contains(a.refs[r].edge));
        if a.refs[r].edge != e {
            assert(names.edges[a.refs[r].edge] != e2);
        }
    }
    assert forall|i: int|
        #![trigger a2.redexes[i]]
        0 <= i < a2.redexes.len() implies b2.redexes[i].type_key
        == names.types[a2.redexes[i].type_key] && nodes_like(
        a2.redexes[i].nodes,
        b2.redexes[i].nodes,
        names.refs,
    ) by {
        if i < a.redexes.len() {
            assert(a.redexes[i] == a2.redexes[i]);
            assert(b.redexes[i] == b2.redexes[i]);
        }
    }
}

/// Renaming a list of keys and taking members out is taking the members
/// out and renaming.
pub proof fn lemma_like_drop_all(s: Seq<u64>, gone: Seq<u64>, m: Map<u64, u64>, keys: Set<u64>)
    requires
        forall|i: int| 0 <= i < s.len() ==> keys.contains(#[trigger] s[i]),
        forall|i: int| 0 <= i < gone.len() ==> keys.contains(#[trigger] gone[i]),
        forall|x: u64, y: u64|
            #![trigger m[x], m[y]]
            keys.contains(x) && keys.contains(y) && m[x] == m[y] ==> x == y,
    ensures
        drop_all(renamed(s, m), renamed(gone, m)) == renamed(drop_all(s, gone), m),
    decreases s.len(),
{
    if s.len() == 0 {
        assert(drop_all(renamed(s, m), renamed(gone, m)) =~= renamed(drop_all(s, gone), m));
    } else {
        let init = s.drop_last();
        let last = s.last();
        assert(keys.contains(s[s.len() - 1]));
        lemma_like_drop_all(init, gone, m, keys);
        assert(renamed(s, m).drop_last() =~= renamed(init, m));
        assert(renamed(s, m).last() == m[last]);
        assert(renamed(gone, m).contains(m[last]) <==> gone.contains(last)) by {
            if renamed(gone, m).contains(m[last]) {
                let k = choose|k: int| 0 <= k < gone.len() && renamed(gone, m)[k] == m[last];
                assert(m[gone[k]] == m[last]);
                assert(keys.contains(gone[k]));
            }
            if gone.contains(last) {
                let k = choose|k: int| 0 <= k < gone.len() && gone[k] == last;
                assert(renamed(gone, m)[k] == m[last]);
            }
        }
        let rest = drop_all(init, gone);
        if !gone.contains(last) {
            assert(renamed(rest, m).push(m[last]) =~= renamed(rest.push(last), m));
        }
    }
}

/// The edges of like variables are like edges.
pub proof fn lemma_like_edges_of(a: NetView, b: NetView, names: Renaming, vars: Seq<u64>)
    requires
        a.wf(),
        a.alike(b, names),
        forall|i: int| 0 <= i < vars.len() ==> a.refs.dom().contains(#[trigger] vars[i]),
    ensures
        b.edges_of(renamed(vars, names.refs)) == renamed(a.edges_of(vars), names.edges),
    decreases vars.len(),
{
    let vars2 = renamed(vars, names.refs);
    if vars.len() == 0 {
        assert(b.edges_of(vars2) =~= renamed(a.edges_of(vars), names.edges));
    } else {
        let init = vars.drop_last();
        let v = vars.last();
        assert(a.refs.dom().contains(vars[vars.len() - 1]));
        lemma_like_edges_of(a, b, names, init);
        lemma_edges_of(a, init);
        assert(vars2.drop_last() =~= renamed(init, names.refs));
        assert(vars2.last() == names.refs[v]);
        let rest = a.edges_of(init);
        let rest2 = renamed(rest, names.edges);
        let e = a.refs[v].edge;
        assert(a.edges.dom().contains(e));
        assert(b.refs[names.refs[v]].edge == names.edges[e]);
        assert(rest2.contains(names.edges[e]) <==> rest.contains(e)) by {
            if rest2.contains(names.edges[e]) {
                let k = choose|k: int| 0 <= k < rest.len() && rest2[k] == names.edges[e];
                assert(names.edges[rest[k]] == names.edges[e]);
                assert(a.edges.dom().contains(rest[k]));
            }
            if rest.contains(e) {
                let k = choose|k: int| 0 <= k < rest.len() && rest[k] == e;
                assert(rest2[k] == names.edges[e]);
            }
        }
        if !rest.contains(e) {
            assert(rest2.push(names.edges[e]) =~= renamed(rest.push(e), names.edges));
        }
    }
}

/// The nodes and the edge-refs of like edges are alike.
pub proof fn lemma_like_gathered(a: NetView, b: NetView, names: Renaming, es: Seq<u64>)
    requires
        a.alike(b, names),
        forall|j: int| 0 <= j < es.len() ==> a.edges.dom().contains(#[trigger] es[j]),
    ensures
        nodes_like(a.nodes_of(es), b.nodes_of(renamed(es, names.edges)), names.refs),
        b.refs_of(renamed(es, names.edges)) == renamed(a.refs_of(es), names.refs),
    decreases es.len(),
{
    let es2 = renamed(es, names.edges);
    if es.len() == 0 {
        assert(b.refs_of(es2) =~= renamed(a.refs_of(es), names.refs));
    } else {
        let init = es.drop_last();
        let e = es.last();
        assert(a.edges.dom().contains(es[es.len() - 1]));
        assert forall|j: int| 0 <= j < init.len() implies a.edges.dom().contains(
            #[trigger] init[j],
        ) by {
            assert(init[j] == es[j]);
        }
        lemma_like_gathered(a, b, names, init);
        assert(es2.drop_last() =~= renamed(init, names.edges));
        assert(es2.last() == names.edges[e]);
        let edge = a.edges[e];
        let edge2 = b.edges[names.edges[e]];
        assert(edge2.refs == renamed(edge.refs, names.refs));
        lemma_nodes_like_concat(
            a.nodes_of(init),
            b.nodes_of(renamed(init, names.edges)),
            edge.nodes,
            edge2.nodes,
            names.refs,
        );
        assert(b.refs_of(es2) =~= renamed(a.refs_of(es), names.refs));
    }
}

/// The names of a net after a link: the fresh type handle and, if there
/// is one, the new edge are renamed to those of the other net.
pub open spec fn names_linked(
    names: Renaming,
    a: NetView,
    vars: Seq<u64>,
    h: u64,
    e: u64,
    h2: u64,
    e2: u64,
) -> Renaming {
    Renaming {
        types: names.types.insert(h, h2),
        edges: if a.kept_refs(vars).len() > 0 {
            names.edges.insert(e, e2)
        } else {
            names.edges
        },
        refs: names.refs,
    }
}

/// Like nets after like links are alike.
pub proof fn lemma_like_linked(
    a: NetView,
    b: NetView,
    names: Renaming,
    nodes: Seq<Node>,
    vars: Seq<u64>,
    h: u64,
    e: u64,
    nodes2: Seq<Node>,
    h2: u64,
    e2: u64,
)
    requires
        a.wf(),
        a.alike(b, names),
        forall|i: int| 0 <= i < vars.len() ==> a.refs.dom().contains(#[trigger] vars[i]),
        forall|x: u64| ends_of(nodes).contains(x) ==> a.refs.dom().contains(x),
        nodes_like(nodes, nodes2, names.refs),
        !a.types.dom().contains(h),
        !b.types.dom().contains(h2),
        a.kept_refs(vars).len() > 0 ==> a.unused_edge(vars, e),
        b.kept_refs(renamed(vars, names.refs)).len() > 0 ==> b.unused_edge(
            renamed(vars, names.refs),
            e2,
        ),
    ensures
        a.linked(nodes, vars, h, e).alike(
            b.linked(nodes2, renamed(vars, names.refs), h2, e2),
            names_linked(names, a, vars, h, e, h2, e2),
        ),
        names_linked(names, a, vars, h, e, h2, e2).extends(names, a, a.linked(nodes, vars, h, e)),
{
    let vars2 = renamed(vars, names.refs);
    let next = names_linked(names, a, vars, h, e, h2, e2);
    let a2 = a.linked(nodes, vars, h, e);
    let b2 = b.linked(nodes2, vars2, h2, e2);
    let es = a.edges_of(vars);
    let es2 = b.edges_of(vars2);
    let got = a.refs_of(es);
    let got2 = b.refs_of(es2);
    let kept = drop_all(got, vars);
    let kept2 = drop_all(got2, vars2);
    let all = nodes + a.nodes_of(es);
    let all2 = nodes2 + b.nodes_of(es2);
    lemma_edges_of(a, vars);
    lemma_like_edges_of(a, b, names, vars);
    assert(es2 == renamed(es, names.edges));
    lemma_like_gathered(a, b, names, es);
    lemma_refs_of(a, es);
    lemma_drop_all(got, vars);
    assert forall|i: int| 0 <= i < got.len() implies a.refs.dom().contains(#[trigger] got[i]) by {
        assert(got.contains(got[i]));
    }
    lemma_like_drop_all(got, vars, names.refs, a.refs.dom());
    assert(kept2 == renamed(kept, names.refs));
    lemma_nodes_like_concat(nodes, nodes2, a.nodes_of(es), b.nodes_of(es2), names.refs);
    assert(nodes_like(all, all2, names.refs));
    let typed = Renaming { types: names.types.insert(h, h2), ..names };
    lemma_alike_agree(a, b, names, typed);
    lemma_renames_insert(names.types, a.types.dom(), b.types.dom(), h, h2);
    assert(a2.types.dom() =~= a.types.dom().insert(h));
    assert(b2.types.dom() =~= b.types.dom().insert(h2));
    assert(b2.order =~= renamed(a2.order, next.types)) by {
        assert forall|i: int| 0 <= i < a.order.len() implies next.types[a.order[i]]
            == names.types[a.order[i]] by {
            assert(a.types.dom().contains(a.order[i]));
        }
    }

    // Which edges stay, in the one net and in the other.
    assert forall|x: u64| a.edges.dom().contains(x) implies (es2.contains(names.edges[x])
        <==> es.contains(x)) by {
        if es2.contains(names.edges[x]) {
            let j = choose|j: int| 0 <= j < es.len() && es2[j] == names.edges[x];
            assert(names.edges[es[j]] == names.edges[x]);
            assert(a.edges.dom().contains(es[j]));
        }
        if es.contains(x) {
            let j = choose|j: int| 0 <= j < es.len() && es[j] == x;
            assert(es2[j] == names.edges[x]);
        }
    }
    assert forall|k: u64| a.types.dom().contains(k) implies (b.handle_among(
        es2,
        names.types[k],
    ) <==> a.handle_among(es, k)) by {
        if a.handle_among(es, k) {
            let j = choose|j: int| 0 <= j < es.len() && a.edges[#[trigger] es[j]].type_key == k;
            assert(a.edges.dom().contains(es[j]));
            assert(b.edges[es2[j]].type_key == names.types[k]);
        }
        if b.handle_among(es2, names.types[k]) {
            let j = choose|j: int|
                0 <= j < es2.len() && b.edges[#[trigger] es2[j]].type_key == names.types[k];
            assert(a.edges.dom().contains(es[j]));
            assert(es2[j] == names.edges[es[j]]);
            let t = a.edges[es[j]].type_key;
            assert(a.has(Place::Edge(es[j])));
            assert(a.types.dom().contains(t));
            assert(names.types[t] == names.types[k]);
            assert(a.edges[es[j]].type_key == k);
        }
    }
    assert forall|x: u64| a.refs.dom().contains(x) implies (vars2.contains(names.refs[x])
        <==> vars.contains(x)) by {
        if vars2.contains(names.refs[x]) {
            let j = choose|j: int| 0 <= j < vars.len() && vars2[j] == names.refs[x];
            assert(names.refs[vars[j]] == names.refs[x]);
        }
        if vars.contains(x) {
            let j = choose|j: int| 0 <= j < vars.len() && vars[j] == x;
            assert(vars2[j] == names.refs[x]);
        }
    }
    assert(kept2.no_duplicates()) by {
        assert forall|i: int, j: int|
            0 <= i < kept2.len() && 0 <= j < kept2.len() && i != j implies kept2[i]
            != kept2[j] by {
            assert(kept.contains(kept[i]) && kept.contains(kept[j]));
            assert(got.contains(kept[i]) && got.contains(kept[j]));
            if kept2[i] == kept2[j] {
                assert(names.refs[kept[i]] == names.refs[kept[j]]);
            }
        }
    }

    assert(renames(next.edges, a2.edges.dom(), b2.edges.dom())) by {
        assert forall|x: u64| a2.edges.dom().contains(x) implies b2.edges.dom().contains(
            #[trigger] next.edges[x],
        ) by {
            if !(kept.len() > 0 && x == e) {
                assert(a.edges.dom().contains(x) && !es.contains(x));
                assert(b.edges.dom().contains(names.edges[x]));
            }
        }
        assert forall|y: u64| b2.edges.dom().contains(y) implies exists|x: u64|
            a2.edges.dom().contains(x) && #[trigger] next.edges[x] == y by {
            if kept.len() > 0 && y == e2 {
                assert(next.edges[e] == y);
            } else {
                assert(b.edges.dom().contains(y) && !es2.contains(y));
                let x = choose|x: u64| a.edges.dom().contains(x) && #[trigger] names.edges[x] == y;
                assert(!es.contains(x));
                assert(next.edges[x] == y);
            }
        }
        assert forall|x: u64, y: u64|
            #![trigger next.edges[x], next.edges[y]]
            a2.edges.dom().contains(x) && a2.edges.dom().contains(y) && next.edges[x]
                == next.edges[y] implies x == y by {
            let new_x = kept.len() > 0 && x == e;
            let new_y = kept.len() > 0 && y == e;
            if !new_x && !new_y {
                assert(names.edges[x] == names.edges[y]);
            } else if !new_x {
                assert(b.edges.dom().contains(names.edges[x]) && !es2.contains(names.edges[x]));
            } else if !new_y {
                assert(b.edges.dom().contains(names.edges[y]) && !es2.contains(names.edges[y]));
            }
        }
    }
    assert(renames(next.refs, a2.refs.dom(), b2.refs.dom())) by {
        assert forall|y: u64| b2.refs.dom().contains(y) implies exists|x: u64|
            a2.refs.dom().contains(x) && #[trigger] next.refs[x] == y by {
            let x = choose|x: u64| a.refs.dom().contains(x) && #[trigger] names.refs[x] == y;
            assert(a2.refs.dom().contains(x));
        }
    }
    assert forall|k: u64|
        #![trigger a2.types[k]]
        a2.types.dom().contains(k) implies type_like(
        a2.types[k],
        b2.types[next.types[k]],
        next.types,
    ) by {
        if k != h {
            assert(b.types.dom().contains(names.types[k]));
            assert(type_like(a.types[k], b.types[typed.types[k]], typed.types));
        }
    }
    assert forall|x: u64|
        #![trigger a2.edges[x]]
        a2.edges.dom().contains(x) implies {
        &&& b2.edges[next.edges[x]].type_key == next.types[a2.edges[x].type_key]
        &&& b2.edges[next.edges[x]].refs == renamed(a2.edges[x].refs, next.refs)
        &&& nodes_like(a2.edges[x].nodes, b2.edges[next.edges[x]].nodes, next.refs)
    } by {
        if !(kept.len() > 0 && x == e) {
            assert(a.edges.dom().contains(x) && !es.contains(x));
            assert(b.edges.dom().contains(names.edges[x]) && !es2.contains(names.edges[x]));
            assert(a2.edges[x] == a.edges[x]);
            assert(b2.edges[names.edges[x]] == b.edges[names.edges[x]]);
            assert(a.has(Place::Edge(x)));
            assert(a.types.dom().contains(a.edges[x].type_key));
        }
    }
    assert forall|r: u64|
        #![trigger a2.refs[r]]
        a2.refs.dom().contains(r) implies b2.refs[next.refs[r]] == (RefView {
        edge: next.edges[a2.refs[r].edge],
        i: a2.refs[r].i,
    }) by {
        assert(a.refs.dom().contains(r) && !vars.contains(r));
        let at = a.refs[r];
        assert(a.edges.dom().contains(at.edge));
        assert(b.refs[names.refs[r]] == (RefView { edge: names.edges[at.edge], i: at.i }));
        if es.contains(at.edge) {
            assert(got.contains(r));
            assert(kept.contains(r));
            let j = kept.index_of(r);
            assert(0 <= j < kept.len() && kept[j] == r);
            assert(kept2[j] == names.refs[r]);
            lemma_index_of(kept2, j);
        }
    }
    assert forall|i: int|
        #![trigger a2.redexes[i]]
        0 <= i < a2.redexes.len() implies b2.redexes[i].type_key
        == next.types[a2.redexes[i].type_key] && nodes_like(
        a2.redexes[i].nodes,
        b2.redexes[i].nodes,
        next.refs,
    ) by {
        if i < a.redexes.len() {
            assert(a.redexes[i] == a2.redexes[i]);
            assert(b.redexes[i] == b2.redexes[i]);
            assert(a.has(Place::Redex(i)));
            assert(a.types.dom().contains(a.redexes[i].type_key));
        }
    }
}

impl Renaming {
    /// The names agree with `old` on the type handles of `net` and on the
    /// variables that the caller of an operation on `net` keeps: those in
    /// its hands but for `used`.
    pub open spec fn carries(self, old: Renaming, net: NetView, used: Seq<u64>) -> bool {
        &&& forall|k: u64|
            #![trigger self.types[k]]
            net.types.dom().contains(k) ==> self.types[k] == old.types[k]
        &&& forall|r: u64|
            #![trigger self.refs[r]]
            net.is_free(r) && !used.contains(r) ==> self.refs[r] == old.refs[r]
    }
}

/// Names that are carried through two operations in a row.
pub proof fn lemma_carries_chain(
    n0: Renaming,
    n1: Renaming,
    n2: Renaming,
    a: NetView,
    b: NetView,
    u1: Seq<u64>,
    u2: Seq<u64>,
    u: Seq<u64>,
)
    requires
        n1.carries(n0, a, u1),
        n2.carries(n1, b, u2),
        a.keeps(b, u1),
        forall|x: u64| a.is_free(x) && !u.contains(x) ==> !u1.contains(x) && !u2.contains(x),
    ensures
        n2.carries(n0, a, u),
{
    assert forall|k: u64|
        #![trigger n2.types[k]]
        a.types.dom().contains(k) implies n2.types[k] == n0.types[k] by {
        assert(b.types.dom().contains(k));
        assert(n1.types[k] == n0.types[k]);
    }
    assert forall|r: u64|
        #![trigger n2.refs[r]]
        a.is_free(r) && !u.contains(r) implies n2.refs[r] == n0.refs[r] by {
        assert(b.is_free(r));
        assert(n1.refs[r] == n0.refs[r]);
    }
}

/// Like nets with like new edges, whatever their new keys, are alike
/// under names that rename the new edge-refs of the one to those of the
/// other.
pub proof fn lemma_like_makes_edge(
    a: NetView,
    b: NetView,
    names: Renaming,
    rs: Seq<u64>,
    nodes: Seq<Node>,
    a2: NetView,
    rs2: Seq<u64>,
    nodes2: Seq<Node>,
    b2: NetView,
) -> (next: Renaming)
    requires
        a.wf(),
        a.alike(b, names),
        a.can_take(nodes),
        rs.len() >= 1,
        rs.len() == rs2.len(),
        nodes_like(nodes, nodes2, names.refs),
        a.makes_edge(rs, nodes, a2),
        b.makes_edge(rs2, nodes2, b2),
    ensures
        a2.wf(),
        a.keeps(a2, ends_of(nodes)),
        a2.alike(b2, next),
        next.carries(names, a, ends_of(nodes)),
        forall|i: int| 0 <= i < rs.len() ==> next.refs[#[trigger] rs[i]] == rs2[i],
        forall|i: int| 0 <= i < rs.len() ==> a2.is_free(#[trigger] rs[i]) && !a.refs.dom().contains(
            rs[i],
        ),
        rs.no_duplicates(),
{
    let (t, e) = choose|t: u64, e: u64|
        #![trigger a.with_edge(t, e, rs, nodes)]
        a.fresh(t, e, rs) && a2 == a.with_edge(t, e, rs, nodes);
    let (t2, e2) = choose|t2: u64, e2: u64|
        #![trigger b.with_edge(t2, e2, rs2, nodes2)]
        b.fresh(t2, e2, rs2) && b2 == b.with_edge(t2, e2, rs2, nodes2);
    lemma_with_edge(a, t, e, rs, nodes);
    assert forall|x: u64| ends_of(nodes).contains(x) implies a.refs.dom().contains(x) by {
        assert(a.is_free(x));
    }
    lemma_like_with_edge(a, b, names, t, e, rs, nodes, t2, e2, rs2, nodes2);
    let next = names_with_edge(names, t, e, rs, t2, e2, rs2);
    assert forall|r: u64|
        #![trigger next.refs[r]]
        a.is_free(r) && !ends_of(nodes).contains(r) implies next.refs[r] == names.refs[r] by {
        assert(a2.is_free(r));
    }
    next
}

/// Like nets after like links, whatever their new keys, are alike under
/// names that rename the fresh type of the one to that of the other.
pub proof fn lemma_like_links(
    a: NetView,
    b: NetView,
    names: Renaming,
    nodes: Seq<Node>,
    vars: Seq<u64>,
    h: u64,
    a2: NetView,
    nodes2: Seq<Node>,
    h2: u64,
    b2: NetView,
) -> (next: Renaming)
    requires
        a.wf(),
        a.alike(b, names),
        a.can_link(nodes, vars),
        nodes_like(nodes, nodes2, names.refs),
        a.links(nodes, vars, h, a2),
        b.links(nodes2, renamed(vars, names.refs), h2, b2),
    ensures
        a2.wf(),
        a.keeps(a2, ends_of(nodes) + vars),
        a2.alike(b2, next),
        next.carries(names, a, ends_of(nodes) + vars),
        next.types[h] == h2,
        a2.types.dom().contains(h),
        !a.types.dom().contains(h),
{
    let vars2 = renamed(vars, names.refs);
    let e = choose|e: u64|
        #![trigger a.linked(nodes, vars, h, e)]
        (a.kept_refs(vars).len() > 0 ==> a.unused_edge(vars, e)) && a2 == a.linked(
            nodes,
            vars,
            h,
            e,
        );
    let e2 = choose|e2: u64|
        #![trigger b.linked(nodes2, vars2, h2, e2)]
        (b.kept_refs(vars2).len() > 0 ==> b.unused_edge(vars2, e2)) && b2 == b.linked(
            nodes2,
            vars2,
            h2,
            e2,
        );
    lemma_linked(a, nodes, vars, h, e);
    assert forall|i: int| 0 <= i < vars.len() implies a.refs.dom().contains(#[trigger] vars[i]) by {
        assert(a.is_free(vars[i]));
    }
    assert forall|x: u64| ends_of(nodes).contains(x) implies a.refs.dom().contains(x) by {
        assert(a.is_free(x));
    }
    lemma_like_linked(a, b, names, nodes, vars, h, e, nodes2, h2, e2);
    let next = names_linked(names, a, vars, h, e, h2, e2);
    assert forall|r: u64|
        #![trigger next.refs[r]]
        a.is_free(r) && !(ends_of(nodes) + vars).contains(r) implies next.refs[r]
        == names.refs[r] by {}
    next
}

} // verus!
