//! The invariant of the net holds through every operation of its model.

use vstd::prelude::*;

use crate::net::arrows::{lemma_arrows_kept, lemma_carries, lemma_has_cons_concat};
use crate::net::model::{drop_all, ends_of, has_cons, NetView, Place, RefView};
use crate::net::types::{PartialType, PartialTypeKey};
use crate::net::Node;

verus! {

/// The endpoints of two lists of nodes, one after the other.
pub proof fn lemma_ends_of_concat(a: Seq<Node>, b: Seq<Node>)
    ensures
        ends_of(a + b) == ends_of(a) + ends_of(b),
    decreases b.len(),
{
    if b.len() == 0 {
        assert(a + b =~= a);
        assert(ends_of(a) + ends_of(b) =~= ends_of(a));
    } else {
        lemma_ends_of_concat(a, b.drop_last());
        assert((a + b).drop_last() =~= a + b.drop_last());
        assert((a + b).last() == b.last());
        assert(ends_of(a) + ends_of(b.drop_last()) + b.last().ends() =~= ends_of(a) + (ends_of(
            b.drop_last(),
        ) + b.last().ends()));
    }
}

/// The endpoints of a single node.
pub proof fn lemma_ends_of_one(n: Node)
    ensures
        ends_of(seq![n]) == n.ends(),
{
    assert(seq![n].drop_last() =~= Seq::<Node>::empty());
    assert(ends_of(seq![n].drop_last()) =~= Seq::<u64>::empty());
    assert(Seq::<u64>::empty() + n.ends() =~= n.ends());
}

/// The endpoints of a node of a list are among the endpoints of the list.
pub proof fn lemma_node_ends(nodes: Seq<Node>, i: int, j: int)
    requires
        0 <= i < nodes.len(),
        0 <= j < nodes[i].ends().len(),
    ensures
        ends_of(nodes).contains(nodes[i].ends()[j]),
    decreases nodes.len(),
{
    let init = nodes.drop_last();
    let x = nodes[i].ends()[j];
    if i < init.len() {
        lemma_node_ends(init, i, j);
        let k = choose|k: int| 0 <= k < ends_of(init).len() && ends_of(init)[k] == x;
        assert(ends_of(nodes)[k] == x);
    } else {
        assert(ends_of(nodes)[ends_of(init).len() + j] == x);
    }
}

/// The invariant does not look at the fan label.
pub proof fn lemma_wf_ignores_label(pre: NetView, label: usize)
    requires
        pre.wf(),
    ensures
        (NetView { next_label: label, ..pre }).wf(),
        pre.keeps(NetView { next_label: label, ..pre }, Seq::empty()),
{
    let post = NetView { next_label: label, ..pre };
    assert forall|p: Place| post.has(p) == pre.has(p) && post.ends_at(p) == pre.ends_at(p)
        && post.type_at(p) == pre.type_at(p) by {}
    assert(post.handles_wf()) by {
        assert forall|p: Place| #[trigger] post.has(p) implies post.types.dom().contains(
            post.type_at(p),
        ) && post.types[post.type_at(p)] is Free by {
            assert(pre.has(p));
        }
    }
    assert(post.ends_wf()) by {
        assert forall|p: Place| #[trigger] post.has(p) implies post.ends_at(p).no_duplicates() by {
            assert(pre.has(p));
        }
    }
    assert forall|k: u64| pre.loose(k) implies #[trigger] post.loose(k) && post.types[k]
        == pre.types[k] by {
        assert forall|p: Place| #[trigger] post.has(p) implies post.type_at(p) != k by {
            assert(pre.has(p));
        }
    }
    assert forall|x: u64| pre.is_free(x) implies #[trigger] post.is_free(x) by {
        if post.held(x) {
            let p = choose|p: Place| post.has(p) && #[trigger] post.ends_at(p).contains(x);
            assert(pre.has(p) && pre.ends_at(p).contains(x));
        }
    }
    assert forall|p: Place|
        #![trigger pre.has(p)]
        pre.has(p) && has_cons(pre.nodes_at(p)) implies exists|q: Place|
        #![trigger post.has(q)]
        post.has(q) && has_cons(post.nodes_at(q)) && (post.type_at(q) == pre.type_at(p)
            || post.types[pre.type_at(p)] == PartialType::Indirect(
            PartialTypeKey { id: post.type_at(q) },
        )) && post.types.dom().contains(pre.type_at(p)) by {
        assert(post.has(p));
    }
    lemma_carries(pre, post);
}

/// A walk that finds a new handle last finds every handle once.
pub proof fn lemma_order_push(order: Seq<u64>, dom: Set<u64>, t: u64)
    requires
        order.no_duplicates(),
        forall|i: int| 0 <= i < order.len() ==> dom.contains(#[trigger] order[i]),
        !dom.contains(t),
    ensures
        order.push(t).no_duplicates(),
        order.push(t).contains(t),
        forall|k: u64| order.contains(k) ==> #[trigger] order.push(t).contains(k),
        forall|i: int|
            0 <= i < order.push(t).len() ==> (#[trigger] order.push(t)[i]) == t || dom.contains(
                order.push(t)[i],
            ),
{
    let next = order.push(t);
    assert(next[order.len() as int] == t);
    assert forall|k: u64| order.contains(k) implies #[trigger] next.contains(k) by {
        let i = choose|i: int| 0 <= i < order.len() && order[i] == k;
        assert(next[i] == k);
    }
    assert forall|i: int, j: int| 0 <= i < next.len() && 0 <= j < next.len() && i != j implies next[i]
        != next[j] by {
        if i < order.len() {
            assert(dom.contains(order[i]));
        }
        if j < order.len() {
            assert(dom.contains(order[j]));
        }
    }
    assert forall|i: int| 0 <= i < next.len() implies (#[trigger] next[i]) == t || dom.contains(
        next[i],
    ) by {
        if i < order.len() {
            assert(dom.contains(order[i]));
        }
    }
}

/// A new type handle keeps the net well formed and changes nothing else.
pub proof fn lemma_with_type(pre: NetView, t: u64)
    requires
        pre.wf(),
        !pre.types.dom().contains(t),
    ensures
        pre.with_type(t).wf(),
        pre.keeps(pre.with_type(t), Seq::empty()),
{
    let post = pre.with_type(t);
    lemma_order_push(pre.order, pre.types.dom(), t);
    assert forall|p: Place| post.has(p) == pre.has(p) && post.ends_at(p) == pre.ends_at(p)
        && post.type_at(p) == pre.type_at(p) by {}
    assert(post.handles_wf()) by {
        assert forall|p: Place| #[trigger] post.has(p) implies post.types.dom().contains(
            post.type_at(p),
        ) && post.types[post.type_at(p)] is Free by {
            assert(pre.has(p));
        }
    }
    assert(post.ends_wf()) by {
        assert forall|p: Place| #[trigger] post.has(p) implies post.ends_at(p).no_duplicates() by {
            assert(pre.has(p));
        }
    }
    assert forall|k: u64| pre.loose(k) implies #[trigger] post.loose(k) && post.types[k]
        == pre.types[k] by {
        assert forall|p: Place| #[trigger] post.has(p) implies post.type_at(p) != k by {
            assert(pre.has(p));
        }
    }
    assert forall|x: u64| pre.is_free(x) implies #[trigger] post.is_free(x) by {
        if post.held(x) {
            let p = choose|p: Place| post.has(p) && #[trigger] post.ends_at(p).contains(x);
            assert(pre.has(p) && pre.ends_at(p).contains(x));
        }
    }
    assert forall|p: Place|
        #![trigger pre.has(p)]
        pre.has(p) && has_cons(pre.nodes_at(p)) implies exists|q: Place|
        #![trigger post.has(q)]
        post.has(q) && has_cons(post.nodes_at(q)) && (post.type_at(q) == pre.type_at(p)
            || post.types[pre.type_at(p)] == PartialType::Indirect(
            PartialTypeKey { id: post.type_at(q) },
        )) && post.types.dom().contains(pre.type_at(p)) by {
        assert(post.has(p));
    }
    lemma_carries(pre, post);
}

/// A new edge with new edge-refs keeps the net well formed. The caller
/// gets the new edge-refs as variables and keeps those it had, but for the
/// endpoints of the nodes that went into the edge.
pub proof fn lemma_with_edge(pre: NetView, t: u64, e: u64, rs: Seq<u64>, nodes: Seq<Node>)
    requires
        pre.wf(),
        pre.fresh(t, e, rs),
        pre.can_take(nodes),
        rs.len() >= 1,
    ensures
        pre.with_edge(t, e, rs, nodes).wf(),
        pre.keeps(pre.with_edge(t, e, rs, nodes), ends_of(nodes)),
        forall|j: int| 0 <= j < rs.len() ==> pre.with_edge(t, e, rs, nodes).is_free(#[trigger] rs[j]),
{
    let post = pre.with_edge(t, e, rs, nodes);
    let pe = Place::Edge(e);
    assert(!pre.has(pe));
    assert forall|p: Place| p != pe implies (post.has(p) == pre.has(p) && post.ends_at(p)
        == pre.ends_at(p) && post.type_at(p) == pre.type_at(p)) by {}
    assert(post.has(pe) && post.ends_at(pe) == ends_of(nodes) && post.type_at(pe) == t);
    assert forall|j: int| 0 <= j < rs.len() implies rs.index_of(#[trigger] rs[j]) == j by {
        let k = rs.index_of(rs[j]);
        assert(rs.contains(rs[j]));
        assert(0 <= k < rs.len() && rs[k] == rs[j]);
    }
    assert forall|r: u64| rs.contains(r) implies 0 <= rs.index_of(r) < rs.len() && rs[rs.index_of(
        r,
    )] == r by {}
    lemma_order_push(pre.order, pre.types.dom(), t);
    assert(post.types_wf());
    assert(post.handles_wf()) by {
        assert forall|p: Place| #[trigger] post.has(p) implies post.types.dom().contains(
            post.type_at(p),
        ) && post.types[post.type_at(p)] is Free by {
            if p != pe {
                assert(pre.has(p));
            }
        }
        assert forall|p: Place, q: Place|
            #![trigger post.has(p), post.has(q)]
            post.has(p) && post.has(q) && post.type_at(p) == post.type_at(q) implies p == q by {
            if p != pe {
                assert(pre.has(p));
            }
            if q != pe {
                assert(pre.has(q));
            }
        }
    }
    assert(post.refs_wf()) by {
        assert forall|r: u64| #[trigger] post.refs.dom().contains(r) implies post.edges.dom().contains(
            post.refs[r].edge,
        ) && 0 <= post.refs[r].i < post.edges[post.refs[r].edge].refs.len()
            && post.edges[post.refs[r].edge].refs[post.refs[r].i] == r by {
            if !rs.contains(r) {
                assert(pre.refs.dom().contains(r));
            }
        }
        assert forall|e2: u64, j: int|
            post.edges.dom().contains(e2) && 0 <= j < post.edges[e2].refs.len()
                implies post.refs.dom().contains(#[trigger] post.edges[e2].refs[j])
            && post.refs[post.edges[e2].refs[j]] == (RefView { edge: e2, i: j }) by {
            if e2 != e {
                let r = pre.edges[e2].refs[j];
                assert(pre.refs.dom().contains(r));
                assert(!rs.contains(r));
            } else {
                assert(rs.contains(rs[j]));
            }
        }
    }
    assert(post.shapes_wf());
    assert(post.ends_wf()) by {
        assert forall|p: Place| #[trigger] post.has(p) implies post.ends_at(p).no_duplicates() by {
            if p != pe {
                assert(pre.has(p));
            }
        }
        assert forall|p: Place, x: u64|
            post.has(p) && #[trigger] post.ends_at(p).contains(x) implies post.refs.dom().contains(
            x,
        ) by {
            if p != pe {
                assert(pre.has(p));
            } else {
                assert(pre.is_free(x));
            }
        }
        assert forall|p: Place, q: Place, x: u64|
            post.has(p) && post.has(q) && #[trigger] post.ends_at(p).contains(x)
                && #[trigger] post.ends_at(q).contains(x) implies p == q by {
            if p != pe && q != pe {
                assert(pre.has(p) && pre.has(q));
            } else if p != pe {
                assert(pre.is_free(x));
                assert(pre.has(p) && pre.ends_at(p).contains(x));
            } else if q != pe {
                assert(pre.is_free(x));
                assert(pre.has(q) && pre.ends_at(q).contains(x));
            }
        }
    }
    assert forall|k: u64| pre.loose(k) implies #[trigger] post.loose(k) && post.types[k]
        == pre.types[k] by {
        assert forall|p: Place| #[trigger] post.has(p) implies post.type_at(p) != k by {
            if p != pe {
                assert(pre.has(p));
            }
        }
    }
    assert forall|x: u64| pre.is_free(x) && !ends_of(nodes).contains(x) implies #[trigger] post.is_free(
        x,
    ) by {
        if post.held(x) {
            let p = choose|p: Place| post.has(p) && #[trigger] post.ends_at(p).contains(x);
            assert(p != pe);
            assert(pre.has(p) && pre.ends_at(p).contains(x));
        }
    }
    assert forall|j: int| 0 <= j < rs.len() implies post.is_free(#[trigger] rs[j]) by {
        let x = rs[j];
        assert(rs.contains(x));
        if post.held(x) {
            let p = choose|p: Place| post.has(p) && #[trigger] post.ends_at(p).contains(x);
            if p == pe {
                assert(pre.is_free(x));
            } else {
                assert(pre.has(p) && pre.ends_at(p).contains(x));
            }
        }
    }
    assert forall|p: Place|
        #![trigger pre.has(p)]
        pre.has(p) && has_cons(pre.nodes_at(p)) implies exists|q: Place|
        #![trigger post.has(q)]
        post.has(q) && has_cons(post.nodes_at(q)) && (post.type_at(q) == pre.type_at(p)
            || post.types[pre.type_at(p)] == PartialType::Indirect(
            PartialTypeKey { id: post.type_at(q) },
        )) && post.types.dom().contains(pre.type_at(p)) by {
        assert(p != pe);
        assert(post.has(p));
    }
    lemma_carries(pre, post);
}

/// One more edge-ref on the edge of `v` keeps the net well formed. The
/// new edge-ref is a variable in the caller's hands.
pub proof fn lemma_with_ref_added(pre: NetView, v: u64, r: u64)
    requires
        pre.wf(),
        pre.refs.dom().contains(v),
        !pre.refs.dom().contains(r),
    ensures
        pre.with_ref_added(v, r).wf(),
        pre.keeps(pre.with_ref_added(v, r), Seq::empty()),
        pre.with_ref_added(v, r).is_free(r),
{
    let post = pre.with_ref_added(v, r);
    let e = pre.refs[v].edge;
    assert forall|p: Place| post.has(p) == pre.has(p) && post.ends_at(p) == pre.ends_at(p)
        && post.type_at(p) == pre.type_at(p) by {}
    assert(post.types_wf());
    assert(post.handles_wf()) by {
        assert forall|p: Place| #[trigger] post.has(p) implies post.types.dom().contains(
            post.type_at(p),
        ) && post.types[post.type_at(p)] is Free by {
            assert(pre.has(p));
        }
    }
    assert(post.refs_wf()) by {
        assert forall|x: u64| #[trigger] post.refs.dom().contains(x) implies post.edges.dom().contains(
            post.refs[x].edge,
        ) && 0 <= post.refs[x].i < post.edges[post.refs[x].edge].refs.len()
            && post.edges[post.refs[x].edge].refs[post.refs[x].i] == x by {
            if x != r {
                assert(pre.refs.dom().contains(x));
            }
        }
        assert forall|e2: u64, j: int|
            post.edges.dom().contains(e2) && 0 <= j < post.edges[e2].refs.len()
                implies post.refs.dom().contains(#[trigger] post.edges[e2].refs[j])
            && post.refs[post.edges[e2].refs[j]] == (RefView { edge: e2, i: j }) by {
            if e2 != e || j < pre.edges[e].refs.len() {
                let x = pre.edges[e2].refs[j];
                assert(pre.refs.dom().contains(x));
            }
        }
    }
    assert(post.shapes_wf());
    assert(post.ends_wf()) by {
        assert forall|p: Place| #[trigger] post.has(p) implies post.ends_at(p).no_duplicates() by {
            assert(pre.has(p));
        }
    }
    assert forall|k: u64| pre.loose(k) implies #[trigger] post.loose(k) && post.types[k]
        == pre.types[k] by {
        assert forall|p: Place| #[trigger] post.has(p) implies post.type_at(p) != k by {
            assert(pre.has(p));
        }
    }
    assert forall|x: u64| pre.is_free(x) implies #[trigger] post.is_free(x) by {
        if post.held(x) {
            let p = choose|p: Place| post.has(p) && #[trigger] post.ends_at(p).contains(x);
            assert(pre.has(p) && pre.ends_at(p).contains(x));
        }
    }
    if post.held(r) {
        let p = choose|p: Place| post.has(p) && #[trigger] post.ends_at(p).contains(r);
        assert(pre.has(p) && pre.ends_at(p).contains(r));
    }
    assert forall|p: Place|
        #![trigger pre.has(p)]
        pre.has(p) && has_cons(pre.nodes_at(p)) implies exists|q: Place|
        #![trigger post.has(q)]
        post.has(q) && has_cons(post.nodes_at(q)) && (post.type_at(q) == pre.type_at(p)
            || post.types[pre.type_at(p)] == PartialType::Indirect(
            PartialTypeKey { id: post.type_at(q) },
        )) && post.types.dom().contains(pre.type_at(p)) by {
        assert(post.has(p));
    }
    lemma_carries(pre, post);
}

/// Linking a variable to a node keeps the net well formed. The variable
/// and the endpoints of the node leave the caller's hands.
pub proof fn lemma_with_node_linked(pre: NetView, v: u64, node: Node)
    requires
        pre.wf(),
        pre.is_free(v),
        pre.can_take(seq![node]),
        !node.ends().contains(v),
    ensures
        pre.with_node_linked(v, node).wf(),
        pre.keeps(pre.with_node_linked(v, node), node.ends().push(v)),
{
    let post = pre.with_node_linked(v, node);
    let at = pre.refs[v];
    let e = at.edge;
    let edge = pre.edges[e];
    let left = edge.refs.remove(at.i);
    let nodes = edge.nodes.push(node);
    let pe = Place::Edge(e);
    let pr = Place::Redex(pre.redexes.len() as int);
    let now = if left.len() == 0 { pr } else { pe };
    lemma_ends_of_one(node);
    lemma_ends_of_concat(edge.nodes, seq![node]);
    assert(edge.nodes + seq![node] =~= nodes);
    assert(pre.has(pe));
    assert(ends_of(nodes) == pre.ends_at(pe) + node.ends());
    assert(post.has(now) && post.nodes_at(now) == nodes && post.type_at(now) == edge.type_key);
    assert forall|p: Place| p != pe && p != pr implies (post.has(p) == pre.has(p) && (pre.has(p)
        ==> post.ends_at(p) == pre.ends_at(p) && post.type_at(p) == pre.type_at(p))) by {
        match p {
            Place::Edge(e2) => {
                assert(e2 != e);
            },
            Place::Redex(i) => {
                if 0 <= i < pre.redexes.len() {
                    assert(post.redexes[i] == pre.redexes[i]);
                }
            },
        }
    }
    assert(!pre.has(pr));
    assert forall|p: Place| #[trigger] post.has(p) implies (p == now || (p != pe && p != pr
        && pre.has(p))) by {}
    assert forall|x: u64| post.ends_at(now).contains(x) implies (pre.ends_at(pe).contains(x)
        || node.ends().contains(x)) by {
        let k = choose|k: int| 0 <= k < ends_of(nodes).len() && ends_of(nodes)[k] == x;
        if k < pre.ends_at(pe).len() {
            assert(pre.ends_at(pe)[k] == x);
        } else {
            assert(node.ends()[k - pre.ends_at(pe).len()] == x);
        }
    }
    assert(post.types_wf());
    assert(post.handles_wf()) by {
        assert forall|p: Place| #[trigger] post.has(p) implies post.types.dom().contains(
            post.type_at(p),
        ) && post.types[post.type_at(p)] is Free by {
            if p != now {
                assert(pre.has(p));
            }
        }
        assert forall|p: Place, q: Place|
            #![trigger post.has(p), post.has(q)]
            post.has(p) && post.has(q) && post.type_at(p) == post.type_at(q) implies p == q by {
            let was = if p == now { pe } else { p };
            let was_q = if q == now { pe } else { q };
            assert(pre.has(was) && pre.has(was_q));
            assert(pre.type_at(was) == pre.type_at(was_q));
        }
    }
    assert(post.refs_wf()) by {
        assert forall|x: u64| #[trigger] post.refs.dom().contains(x) implies post.edges.dom().contains(
            post.refs[x].edge,
        ) && 0 <= post.refs[x].i < post.edges[post.refs[x].edge].refs.len()
            && post.edges[post.refs[x].edge].refs[post.refs[x].i] == x by {
            assert(pre.refs.dom().contains(x));
            if pre.refs[x].edge == e {
                assert(pre.refs[x].i != at.i);
            }
        }
        assert forall|e2: u64, j: int|
            post.edges.dom().contains(e2) && 0 <= j < post.edges[e2].refs.len()
                implies post.refs.dom().contains(#[trigger] post.edges[e2].refs[j])
            && post.refs[post.edges[e2].refs[j]] == (RefView { edge: e2, i: j }) by {
            if e2 == e {
                let j0 = if j < at.i { j } else { j + 1 };
                let x = pre.edges[e].refs[j0];
                assert(pre.refs.dom().contains(x));
                assert(left[j] == x);
            } else {
                let x = pre.edges[e2].refs[j];
                assert(pre.refs.dom().contains(x));
            }
        }
    }
    assert(post.shapes_wf()) by {
        assert forall|i: int| 0 <= i < post.redexes.len() implies (#[trigger] post.redexes[i]).nodes.len()
            >= 1 by {
            if i < pre.redexes.len() {
                assert(post.redexes[i] == pre.redexes[i]);
            }
        }
    }
    assert(post.ends_wf()) by {
        assert forall|p: Place| #[trigger] post.has(p) implies post.ends_at(p).no_duplicates() by {
            if p == now {
                assert forall|i: int, j: int|
                    0 <= i < pre.ends_at(pe).len() && 0 <= j < node.ends().len()
                        implies pre.ends_at(pe)[i] != node.ends()[j] by {
                    let x = node.ends()[j];
                    assert(node.ends().contains(x));
                    assert(pre.is_free(x));
                    if pre.ends_at(pe)[i] == x {
                        assert(pre.ends_at(pe).contains(x));
                    }
                }
                vstd::seq_lib::lemma_no_dup_in_concat(pre.ends_at(pe), node.ends());
            } else {
                assert(pre.has(p));
            }
        }
        assert forall|p: Place, x: u64|
            post.has(p) && #[trigger] post.ends_at(p).contains(x) implies post.refs.dom().contains(
            x,
        ) by {
            if p == now {
                if pre.ends_at(pe).contains(x) {
                    assert(pre.refs.dom().contains(x));
                    assert(pre.held(x));
                } else {
                    assert(post.ends_at(now).contains(x));
                    assert(node.ends().contains(x));
                    assert(ends_of(seq![node]).contains(x));
                    assert(pre.is_free(x));
                }
            } else {
                assert(pre.has(p) && pre.ends_at(p).contains(x));
                assert(pre.held(x));
            }
        }
        assert forall|p: Place, q: Place, x: u64|
            post.has(p) && post.has(q) && #[trigger] post.ends_at(p).contains(x)
                && #[trigger] post.ends_at(q).contains(x) implies p == q by {
            let was = if p == now { pe } else { p };
            let was_q = if q == now { pe } else { q };
            if node.ends().contains(x) {
                assert(pre.is_free(x));
                if p != now {
                    assert(pre.has(p) && pre.ends_at(p).contains(x));
                }
                if q != now {
                    assert(pre.has(q) && pre.ends_at(q).contains(x));
                }
            } else {
                assert(pre.has(was) && pre.ends_at(was).contains(x));
                assert(pre.has(was_q) && pre.ends_at(was_q).contains(x));
            }
        }
    }
    assert forall|k: u64| pre.loose(k) implies #[trigger] post.loose(k) && post.types[k]
        == pre.types[k] by {
        assert forall|p: Place| #[trigger] post.has(p) implies post.type_at(p) != k by {
            let was = if p == now { pe } else { p };
            assert(pre.has(was));
        }
    }
    assert forall|x: u64| pre.is_free(x) && !node.ends().push(v).contains(x) implies #[trigger] post.is_free(
        x,
    ) by {
        assert(node.ends().push(v).last() == v);
        assert(x != v);
        if post.held(x) {
            let p = choose|p: Place| post.has(p) && #[trigger] post.ends_at(p).contains(x);
            let was = if p == now { pe } else { p };
            if node.ends().contains(x) {
                let k = choose|k: int| 0 <= k < node.ends().len() && node.ends()[k] == x;
                assert(node.ends().push(v)[k] == x);
            }
            assert(pre.has(was) && pre.ends_at(was).contains(x));
        }
    }
    assert forall|p: Place|
        #![trigger pre.has(p)]
        pre.has(p) && has_cons(pre.nodes_at(p)) implies exists|q: Place|
        #![trigger post.has(q)]
        post.has(q) && has_cons(post.nodes_at(q)) && (post.type_at(q) == pre.type_at(p)
            || post.types[pre.type_at(p)] == PartialType::Indirect(
            PartialTypeKey { id: post.type_at(q) },
        )) && post.types.dom().contains(pre.type_at(p)) by {
        if p == pe {
            lemma_has_cons_concat(edge.nodes, seq![node]);
            assert(post.has(now));
        } else {
            assert(p != pr);
            assert(post.has(p));
        }
    }
    lemma_carries(pre, post);
}

/// What `drop_all` keeps: the members of `s` that are not in `gone`, each
/// as often as before.
pub proof fn lemma_drop_all(s: Seq<u64>, gone: Seq<u64>)
    ensures
        forall|x: u64| #[trigger]
            drop_all(s, gone).contains(x) <==> s.contains(x) && !gone.contains(x),
        s.no_duplicates() ==> drop_all(s, gone).no_duplicates(),
    decreases s.len(),
{
    if s.len() > 0 {
        let init = s.drop_last();
        let last = s.last();
        lemma_drop_all(init, gone);
        let rest = drop_all(init, gone);
        assert forall|x: u64| #[trigger]
            drop_all(s, gone).contains(x) <==> s.contains(x) && !gone.contains(x) by {
            if drop_all(s, gone).contains(x) {
                if !gone.contains(last) {
                    let k = choose|k: int| 0 <= k < rest.push(last).len() && rest.push(last)[k] == x;
                    if k < rest.len() {
                        assert(rest[k] == x);
                        assert(rest.contains(x));
                    }
                }
                if rest.contains(x) {
                    let k = choose|k: int| 0 <= k < init.len() && init[k] == x;
                    assert(s[k] == x);
                } else {
                    assert(x == last);
                    assert(s[s.len() - 1] == x);
                }
            }
            if s.contains(x) && !gone.contains(x) {
                let k = choose|k: int| 0 <= k < s.len() && s[k] == x;
                if k < init.len() {
                    assert(init[k] == x);
                    assert(init.contains(x));
                    assert(drop_all(init, gone).contains(x));
                    let m = choose|m: int| 0 <= m < rest.len() && rest[m] == x;
                    if !gone.contains(last) {
                        assert(rest.push(last)[m] == x);
                    }
                } else {
                    assert(x == last);
                    assert(rest.push(last)[rest.len() as int] == x);
                }
            }
        }
        if s.no_duplicates() {
            assert(init.no_duplicates());
            if !gone.contains(last) {
                assert forall|a: int, b: int|
                    0 <= a < rest.push(last).len() && 0 <= b < rest.push(last).len() && a
                        != b implies rest.push(last)[a] != rest.push(last)[b] by {
                    if a < rest.len() && b < rest.len() {
                    } else {
                        let c = if a < rest.len() { a } else { b };
                        assert(rest.contains(rest[c]));
                        assert(init.contains(rest[c]));
                        let k = choose|k: int| 0 <= k < init.len() && init[k] == rest[c];
                        assert(s[k] == rest[c]);
                    }
                }
            }
        }
    }
}

/// In a sequence without duplicates each member sits at its own index.
pub proof fn lemma_index_of(s: Seq<u64>, j: int)
    requires
        s.no_duplicates(),
        0 <= j < s.len(),
    ensures
        s.index_of(s[j]) == j,
{
    assert(s.contains(s[j]));
    let k = s.index_of(s[j]);
    assert(0 <= k < s.len() && s[k] == s[j]);
}

/// The edge-refs of a live edge: each once, and exactly those that point
/// to the edge.
pub proof fn lemma_edge_refs(v: NetView, e: u64)
    requires
        v.refs_wf(),
        v.edges.dom().contains(e),
    ensures
        v.edges[e].refs.no_duplicates(),
        forall|r: u64| #[trigger]
            v.edges[e].refs.contains(r) <==> v.refs.dom().contains(r) && v.refs[r].edge == e,
{
    let rs = v.edges[e].refs;
    assert forall|a: int, b: int| 0 <= a < rs.len() && 0 <= b < rs.len() && a != b implies rs[a]
        != rs[b] by {
        assert(v.refs[rs[a]] == (RefView { edge: e, i: a }));
        assert(v.refs[rs[b]] == (RefView { edge: e, i: b }));
    }
    assert forall|r: u64| #[trigger]
        rs.contains(r) <==> v.refs.dom().contains(r) && v.refs[r].edge == e by {
        if rs.contains(r) {
            let k = choose|k: int| 0 <= k < rs.len() && rs[k] == r;
            assert(v.refs[rs[k]] == (RefView { edge: e, i: k }));
        }
        if v.refs.dom().contains(r) && v.refs[r].edge == e {
            assert(rs[v.refs[r].i] == r);
        }
    }
}

/// The edges of some live edge-refs: live, each once, and every edge-ref
/// has its edge among them.
pub proof fn lemma_edges_of(v: NetView, vars: Seq<u64>)
    requires
        v.refs_wf(),
        forall|i: int| 0 <= i < vars.len() ==> v.refs.dom().contains(#[trigger] vars[i]),
    ensures
        v.edges_of(vars).no_duplicates(),
        forall|j: int|
            0 <= j < v.edges_of(vars).len() ==> v.edges.dom().contains(#[trigger] v.edges_of(vars)[j]),
        forall|i: int| 0 <= i < vars.len() ==> v.edges_of(vars).contains(v.refs[#[trigger] vars[i]].edge),
    decreases vars.len(),
{
    if vars.len() > 0 {
        let init = vars.drop_last();
        lemma_edges_of(v, init);
        let rest = v.edges_of(init);
        let e = v.refs[vars.last()].edge;
        let es = v.edges_of(vars);
        assert(v.refs.dom().contains(vars[vars.len() - 1]));
        assert forall|i: int| 0 <= i < vars.len() implies es.contains(v.refs[#[trigger] vars[i]].edge) by {
            if i < init.len() {
                assert(init[i] == vars[i]);
                let x = v.refs[vars[i]].edge;
                assert(rest.contains(x));
                let k = choose|k: int| 0 <= k < rest.len() && rest[k] == x;
                assert(es[k] == x);
            } else {
                if rest.contains(e) {
                } else {
                    assert(es[rest.len() as int] == e);
                }
            }
        }
    }
}

/// The edge-refs of some distinct live edges: each once, and exactly the
/// live edge-refs that point to one of the edges.
pub proof fn lemma_refs_of(v: NetView, es: Seq<u64>)
    requires
        v.refs_wf(),
        es.no_duplicates(),
        forall|j: int| 0 <= j < es.len() ==> v.edges.dom().contains(#[trigger] es[j]),
    ensures
        v.refs_of(es).no_duplicates(),
        forall|r: u64| #[trigger]
            v.refs_of(es).contains(r) <==> v.refs.dom().contains(r) && es.contains(v.refs[r].edge),
    decreases es.len(),
{
    if es.len() > 0 {
        let init = es.drop_last();
        let e = es.last();
        lemma_refs_of(v, init);
        assert(v.edges.dom().contains(es[es.len() - 1]));
        lemma_edge_refs(v, e);
        let a = v.refs_of(init);
        let b = v.edges[e].refs;
        assert(!init.contains(e)) by {
            if init.contains(e) {
                let k = choose|k: int| 0 <= k < init.len() && init[k] == e;
                assert(es[k] == es[es.len() - 1]);
            }
        }
        assert forall|i: int, j: int| 0 <= i < a.len() && 0 <= j < b.len() implies a[i] != b[j] by {
            assert(a.contains(a[i]));
            assert(b.contains(b[j]));
        }
        vstd::seq_lib::lemma_no_dup_in_concat(a, b);
        assert forall|r: u64| #[trigger]
            v.refs_of(es).contains(r) <==> v.refs.dom().contains(r) && es.contains(
                v.refs[r].edge,
            ) by {
            if (a + b).contains(r) {
                let k = choose|k: int| 0 <= k < (a + b).len() && (a + b)[k] == r;
                if k < a.len() {
                    assert(a[k] == r);
                    assert(a.contains(r));
                    let m = choose|m: int| 0 <= m < init.len() && init[m] == v.refs[r].edge;
                    assert(es[m] == v.refs[r].edge);
                } else {
                    assert(b[k - a.len()] == r);
                    assert(b.contains(r));
                    assert(es[es.len() - 1] == e);
                }
            }
            if v.refs.dom().contains(r) && es.contains(v.refs[r].edge) {
                let m = choose|m: int| 0 <= m < es.len() && es[m] == v.refs[r].edge;
                if m < init.len() {
                    assert(init[m] == v.refs[r].edge);
                    assert(init.contains(v.refs[r].edge));
                    assert(a.contains(r));
                    let k = choose|k: int| 0 <= k < a.len() && a[k] == r;
                    assert((a + b)[k] == r);
                } else {
                    assert(b.contains(r));
                    let k = choose|k: int| 0 <= k < b.len() && b[k] == r;
                    assert((a + b)[a.len() + k] == r);
                }
            }
        }
    }
}

/// The endpoints of the nodes of some distinct live edges: each once, and
/// exactly the endpoints that one of the edges holds.
pub proof fn lemma_nodes_of(v: NetView, es: Seq<u64>)
    requires
        v.ends_wf(),
        es.no_duplicates(),
        forall|j: int| 0 <= j < es.len() ==> v.edges.dom().contains(#[trigger] es[j]),
    ensures
        ends_of(v.nodes_of(es)).no_duplicates(),
        forall|x: u64| #[trigger]
            ends_of(v.nodes_of(es)).contains(x) <==> exists|j: int|
                0 <= j < es.len() && v.ends_at(Place::Edge(#[trigger] es[j])).contains(x),
    decreases es.len(),
{
    if es.len() == 0 {
        assert(ends_of(v.nodes_of(es)) =~= Seq::<u64>::empty());
    } else {
        let init = es.drop_last();
        let e = es.last();
        lemma_nodes_of(v, init);
        lemma_ends_of_concat(v.nodes_of(init), v.edges[e].nodes);
        let a = ends_of(v.nodes_of(init));
        let b = ends_of(v.edges[e].nodes);
        assert(es[es.len() - 1] == e);
        assert(v.has(Place::Edge(e)));
        assert(b == v.ends_at(Place::Edge(e)));
        assert forall|i: int, j: int| 0 <= i < a.len() && 0 <= j < b.len() implies a[i] != b[j] by {
            assert(a.contains(a[i]));
            assert(b.contains(b[j]));
            if a[i] == b[j] {
                let k = choose|k: int|
                    0 <= k < init.len() && v.ends_at(Place::Edge(#[trigger] init[k])).contains(a[i]);
                assert(es[k] == init[k]);
                assert(v.has(Place::Edge(init[k])));
                assert(Place::Edge(init[k]) == Place::Edge(e));
            }
        }
        vstd::seq_lib::lemma_no_dup_in_concat(a, b);
        assert forall|x: u64| #[trigger]
            ends_of(v.nodes_of(es)).contains(x) <==> exists|j: int|
                0 <= j < es.len() && v.ends_at(Place::Edge(#[trigger] es[j])).contains(x) by {
            if (a + b).contains(x) {
                let k = choose|k: int| 0 <= k < (a + b).len() && (a + b)[k] == x;
                if k < a.len() {
                    assert(a[k] == x);
                    assert(a.contains(x));
                    let m = choose|m: int|
                        0 <= m < init.len() && v.ends_at(Place::Edge(#[trigger] init[m])).contains(x);
                    assert(es[m] == init[m]);
                } else {
                    assert(b[k - a.len()] == x);
                    assert(b.contains(x));
                }
            }
            if exists|j: int|
                0 <= j < es.len() && v.ends_at(Place::Edge(#[trigger] es[j])).contains(x) {
                let m = choose|m: int|
                    0 <= m < es.len() && v.ends_at(Place::Edge(#[trigger] es[m])).contains(x);
                if m < init.len() {
                    assert(init[m] == es[m]);
                    assert(a.contains(x));
                    let k = choose|k: int| 0 <= k < a.len() && a[k] == x;
                    assert((a + b)[k] == x);
                } else {
                    let k = choose|k: int| 0 <= k < b.len() && b[k] == x;
                    assert((a + b)[a.len() + k] == x);
                }
            }
        }
    }
}

/// The nodes gathered from some edges hold a lambda or an application if
/// those of one of the edges do.
pub proof fn lemma_nodes_of_has_cons(v: NetView, es: Seq<u64>, j: int)
    requires
        0 <= j < es.len(),
        has_cons(v.edges[es[j]].nodes),
    ensures
        has_cons(v.nodes_of(es)),
    decreases es.len(),
{
    let init = es.drop_last();
    lemma_has_cons_concat(v.nodes_of(init), v.edges[es.last()].nodes);
    if j < init.len() {
        assert(init[j] == es[j]);
        lemma_nodes_of_has_cons(v, init, j);
    }
}

/// The place `p` of the net is not one of the edges `es`.
pub open spec fn stays(v: NetView, es: Seq<u64>, p: Place) -> bool {
    v.has(p) && match p {
        Place::Edge(x) => !es.contains(x),
        Place::Redex(_) => true,
    }
}

/// Linking keeps the net well formed. The linked variables and the
/// endpoints of the linked nodes leave the caller's hands.
pub proof fn lemma_linked(pre: NetView, nodes: Seq<Node>, vars: Seq<u64>, h: u64, e: u64)
    requires
        pre.wf(),
        pre.can_link(nodes, vars),
        !pre.types.dom().contains(h),
        pre.kept_refs(vars).len() > 0 ==> pre.unused_edge(vars, e),
    ensures
        pre.linked(nodes, vars, h, e).wf(),
        pre.keeps(pre.linked(nodes, vars, h, e), ends_of(nodes) + vars),
{
    let post = pre.linked(nodes, vars, h, e);
    let es = pre.edges_of(vars);
    let all_nodes = nodes + pre.nodes_of(es);
    let gathered = pre.refs_of(es);
    let kept = drop_all(gathered, vars);
    let merged_ends = ends_of(pre.nodes_of(es));
    assert forall|i: int| 0 <= i < vars.len() implies pre.refs.dom().contains(#[trigger] vars[i]) by {
        assert(pre.is_free(vars[i]));
    }
    lemma_edges_of(pre, vars);
    lemma_refs_of(pre, es);
    lemma_nodes_of(pre, es);
    lemma_drop_all(gathered, vars);
    lemma_ends_of_concat(nodes, pre.nodes_of(es));
    let pe = Place::Edge(e);
    let pr = Place::Redex(pre.redexes.len() as int);
    let has_new = kept.len() > 0 || all_nodes.len() > 0;
    let pnew = if kept.len() > 0 { pe } else { pr };

    // The variables sit in merged edges, so no edge that stays has one.
    assert forall|x: u64| vars.contains(x) implies pre.refs.dom().contains(x) && es.contains(
        pre.refs[x].edge,
    ) && !pre.held(x) by {
        let i = choose|i: int| 0 <= i < vars.len() && vars[i] == x;
        assert(pre.is_free(vars[i]));
        assert(es.contains(pre.refs[vars[i]].edge));
    }
    assert forall|x: u64| merged_ends.contains(x) implies pre.held(x) && pre.refs.dom().contains(x)
        && !vars.contains(x) && !ends_of(nodes).contains(x) by {
        let j = choose|j: int|
            0 <= j < es.len() && pre.ends_at(Place::Edge(#[trigger] es[j])).contains(x);
        assert(pre.has(Place::Edge(es[j])));
        if ends_of(nodes).contains(x) {
            assert(pre.is_free(x));
        }
    }
    assert forall|x: u64| ends_of(nodes).contains(x) implies pre.is_free(x) && !vars.contains(x) by {
        assert(pre.is_free(x));
        if vars.contains(x) {
            let i = choose|i: int| 0 <= i < vars.len() && vars[i] == x;
            assert(!ends_of(nodes).contains(vars[i]));
        }
    }
    let new_ends = ends_of(nodes) + merged_ends;
    assert(ends_of(all_nodes) == new_ends);
    assert(new_ends.no_duplicates()) by {
        assert forall|i: int, j: int|
            0 <= i < ends_of(nodes).len() && 0 <= j < merged_ends.len() implies ends_of(nodes)[i]
            != merged_ends[j] by {
            assert(ends_of(nodes).contains(ends_of(nodes)[i]));
            assert(merged_ends.contains(merged_ends[j]));
        }
        vstd::seq_lib::lemma_no_dup_in_concat(ends_of(nodes), merged_ends);
    }
    assert forall|x: u64| new_ends.contains(x) implies (ends_of(nodes).contains(x)
        || merged_ends.contains(x)) by {
        let k = choose|k: int| 0 <= k < new_ends.len() && new_ends[k] == x;
        if k < ends_of(nodes).len() {
            assert(ends_of(nodes)[k] == x);
        } else {
            assert(merged_ends[k - ends_of(nodes).len()] == x);
        }
    }

    // The places of the new net: the new equation, and those that stay.
    assert forall|p: Place| #[trigger] post.has(p) implies (has_new && p == pnew) || (p != pnew
        && stays(pre, es, p)) by {
        match p {
            Place::Edge(x) => {},
            Place::Redex(i) => {},
        }
    }
    assert forall|p: Place| stays(pre, es, p) implies p != pnew && post.has(p) && post.nodes_at(p)
        == pre.nodes_at(p) && post.type_at(p) == pre.type_at(p) && post.ends_at(p) == pre.ends_at(
        p,
    ) by {
        match p {
            Place::Edge(x) => {
                if kept.len() > 0 {
                    assert(x != e);
                }
            },
            Place::Redex(i) => {
                assert(post.redexes[i] == pre.redexes[i]);
            },
        }
    }
    if has_new {
        assert(post.has(pnew) && post.nodes_at(pnew) == all_nodes && post.type_at(pnew) == h);
        assert(post.ends_at(pnew) == new_ends);
    }
    assert forall|p: Place| stays(pre, es, p) implies !pre.handle_among(es, pre.type_at(p)) by {
        if pre.handle_among(es, pre.type_at(p)) {
            let j = choose|j: int|
                0 <= j < es.len() && pre.edges[#[trigger] es[j]].type_key == pre.type_at(p);
            let q = Place::Edge(es[j]);
            assert(pre.has(q) && pre.has(p));
            assert(es.contains(es[j]));
            assert(p == q);
        }
    }

    lemma_order_push(pre.order, pre.types.dom(), h);
    assert(post.types_wf()) by {
        assert forall|k: u64| #[trigger]
            post.types.dom().contains(k) implies post.birth.dom().contains(k) && post.birth[k]
            < post.clock && post.order.contains(k) by {
            if k != h {
                assert(pre.types.dom().contains(k));
            }
        }
        assert forall|k: u64, c: u64|
            post.types.dom().contains(k) && #[trigger] post.types[k].points_to(c)
                implies post.types.dom().contains(c) && post.birth[k] < post.birth[c] by {
            if k != h {
                assert(pre.types.dom().contains(k));
                if pre.handle_among(es, k) {
                    assert(c == h);
                } else {
                    assert(pre.types[k].points_to(c));
                }
            }
        }
    }
    assert(post.handles_wf()) by {
        assert forall|p: Place| #[trigger] post.has(p) implies post.types.dom().contains(
            post.type_at(p),
        ) && post.types[post.type_at(p)] is Free by {
            if p != pnew {
                assert(stays(pre, es, p));
                assert(pre.has(p));
            }
        }
        assert forall|p: Place, q: Place|
            #![trigger post.has(p), post.has(q)]
            post.has(p) && post.has(q) && post.type_at(p) == post.type_at(q) implies p == q by {
            if p != pnew {
                assert(stays(pre, es, p));
                assert(pre.has(p));
            }
            if q != pnew {
                assert(stays(pre, es, q));
                assert(pre.has(q));
            }
        }
    }
    assert(post.refs_wf()) by {
        assert forall|r: u64| #[trigger] post.refs.dom().contains(r) implies post.edges.dom().contains(
            post.refs[r].edge,
        ) && 0 <= post.refs[r].i < post.edges[post.refs[r].edge].refs.len()
            && post.edges[post.refs[r].edge].refs[post.refs[r].i] == r by {
            assert(pre.refs.dom().contains(r));
            if es.contains(pre.refs[r].edge) {
                assert(gathered.contains(r));
                assert(kept.contains(r));
                let k = kept.index_of(r);
                assert(0 <= k < kept.len() && kept[k] == r);
            } else {
                assert(stays(pre, es, Place::Edge(pre.refs[r].edge)));
            }
        }
        assert forall|x: u64, j: int|
            post.edges.dom().contains(x) && 0 <= j < post.edges[x].refs.len()
                implies post.refs.dom().contains(#[trigger] post.edges[x].refs[j])
            && post.refs[post.edges[x].refs[j]] == (RefView { edge: x, i: j }) by {
            if kept.len() > 0 && x == e {
                let r = kept[j];
                assert(kept.contains(r));
                assert(gathered.contains(r));
                lemma_index_of(kept, j);
            } else {
                assert(stays(pre, es, Place::Edge(x)));
                let r = pre.edges[x].refs[j];
                assert(pre.refs.dom().contains(r));
                assert(pre.refs[r].edge == x);
                assert(!vars.contains(r));
            }
        }
    }
    assert(post.shapes_wf()) by {
        let rest = Map::new(
            |x: u64| pre.edges.dom().contains(x) && !es.contains(x),
            |x: u64| pre.edges[x],
        );
        vstd::set_lib::lemma_len_subset(rest.dom(), pre.edges.dom());
        assert(post.edges.dom().finite());
        assert forall|x: u64| #[trigger] post.edges.dom().contains(x) implies post.edges[x].refs.len()
            >= 1 by {
            if !(kept.len() > 0 && x == e) {
                assert(stays(pre, es, Place::Edge(x)));
            }
        }
        assert forall|i: int| 0 <= i < post.redexes.len() implies (#[trigger] post.redexes[i]).nodes.len()
            >= 1 by {
            if i < pre.redexes.len() {
                assert(post.redexes[i] == pre.redexes[i]);
            }
        }
    }
    assert(post.ends_wf()) by {
        assert forall|p: Place| #[trigger] post.has(p) implies post.ends_at(p).no_duplicates() by {
            if p != pnew {
                assert(stays(pre, es, p));
                assert(pre.has(p));
            }
        }
        assert forall|p: Place, x: u64|
            post.has(p) && #[trigger] post.ends_at(p).contains(x) implies post.refs.dom().contains(
            x,
        ) by {
            if p != pnew {
                assert(stays(pre, es, p));
                assert(pre.has(p) && pre.ends_at(p).contains(x));
                assert(pre.held(x));
            } else {
                assert(new_ends.contains(x));
            }
        }
        assert forall|p: Place, q: Place, x: u64|
            post.has(p) && post.has(q) && #[trigger] post.ends_at(p).contains(x)
                && #[trigger] post.ends_at(q).contains(x) implies p == q by {
            if p != pnew {
                assert(stays(pre, es, p));
                assert(pre.has(p) && pre.ends_at(p).contains(x));
            }
            if q != pnew {
                assert(stays(pre, es, q));
                assert(pre.has(q) && pre.ends_at(q).contains(x));
            }
            if p != q {
                let o = if p == pnew { q } else { p };
                assert(new_ends.contains(x));
                assert(pre.held(x));
                assert(merged_ends.contains(x));
                let j = choose|j: int|
                    0 <= j < es.len() && pre.ends_at(Place::Edge(#[trigger] es[j])).contains(x);
                assert(pre.has(Place::Edge(es[j])));
                assert(es.contains(es[j]));
                assert(o == Place::Edge(es[j]));
            }
        }
    }
    assert forall|k: u64| pre.loose(k) implies #[trigger] post.loose(k) && post.types[k]
        == pre.types[k] by {
        assert forall|p: Place| #[trigger] post.has(p) implies post.type_at(p) != k by {
            if p != pnew {
                assert(stays(pre, es, p));
                assert(pre.has(p));
            }
        }
        if pre.handle_among(es, k) {
            let j = choose|j: int| 0 <= j < es.len() && pre.edges[#[trigger] es[j]].type_key == k;
            assert(pre.has(Place::Edge(es[j])));
        }
    }
    assert forall|x: u64| pre.is_free(x) && !(ends_of(nodes) + vars).contains(x) implies #[trigger] post.is_free(
        x,
    ) by {
        let used = ends_of(nodes) + vars;
        if vars.contains(x) {
            let i = choose|i: int| 0 <= i < vars.len() && vars[i] == x;
            assert(used[ends_of(nodes).len() + i] == x);
        }
        if ends_of(nodes).contains(x) {
            let i = choose|i: int| 0 <= i < ends_of(nodes).len() && ends_of(nodes)[i] == x;
            assert(used[i] == x);
        }
        if post.held(x) {
            let p = choose|p: Place| post.has(p) && #[trigger] post.ends_at(p).contains(x);
            if p != pnew {
                assert(stays(pre, es, p));
                assert(pre.has(p) && pre.ends_at(p).contains(x));
            } else {
                assert(new_ends.contains(x));
            }
        }
    }
    assert forall|p: Place|
        #![trigger pre.has(p)]
        pre.has(p) && has_cons(pre.nodes_at(p)) implies exists|q: Place|
        #![trigger post.has(q)]
        post.has(q) && has_cons(post.nodes_at(q)) && (post.type_at(q) == pre.type_at(p)
            || post.types[pre.type_at(p)] == PartialType::Indirect(
            PartialTypeKey { id: post.type_at(q) },
        )) && post.types.dom().contains(pre.type_at(p)) by {
        if stays(pre, es, p) {
            assert(post.has(p));
        } else {
            let x = p->Edge_0;
            let j = choose|j: int| 0 <= j < es.len() && es[j] == x;
            lemma_nodes_of_has_cons(pre, es, j);
            lemma_has_cons_concat(nodes, pre.nodes_of(es));
            assert(has_cons(all_nodes));
            let c = choose|c: int| 0 <= c < all_nodes.len() && (#[trigger] all_nodes[c]).is_cons();
            assert(has_new);
            assert(post.has(pnew));
            assert(pre.handle_among(es, pre.type_at(p))) by {
                assert(pre.edges[es[j]].type_key == pre.type_at(p));
            }
        }
    }
    lemma_carries(pre, post);
    assert forall|k: u64|
        #![trigger post.types[k]]
        pre.types.dom().contains(k) && !(pre.types[k] is Free) implies post.types[k]
        == pre.types[k] by {
        if pre.handle_among(es, k) {
            let j = choose|j: int| 0 <= j < es.len() && pre.edges[#[trigger] es[j]].type_key == k;
            assert(pre.has(Place::Edge(es[j])));
        }
    }
}

/// A handle is among those of some edges if it is that of the last one or
/// among those of the others.
pub proof fn lemma_handle_among(v: NetView, es: Seq<u64>, k: u64)
    requires
        es.len() > 0,
    ensures
        v.handle_among(es, k) <==> (v.handle_among(es.drop_last(), k) || v.edges[es.last()].type_key
            == k),
{
    let init = es.drop_last();
    if v.handle_among(es, k) {
        let j = choose|j: int| 0 <= j < es.len() && v.edges[#[trigger] es[j]].type_key == k;
        if j < init.len() {
            assert(v.edges[init[j]].type_key == k);
        }
    }
    if v.handle_among(init, k) {
        let j = choose|j: int| 0 <= j < init.len() && v.edges[#[trigger] init[j]].type_key == k;
        assert(v.edges[es[j]].type_key == k);
    }
    if v.edges[es.last()].type_key == k {
        assert(v.edges[es[es.len() - 1]].type_key == k);
    }
}

/// Numbering the type variables keeps the net well formed, and leaves
/// every variable where it was.
pub proof fn lemma_with_free_numbered(pre: NetView, order: Seq<u64>)
    requires
        pre.wf(),
    ensures
        pre.with_free_numbered(order).wf(),
        pre.with_free_numbered(order).numbered(),
        pre.settled_in(pre.with_free_numbered(order)),
        pre.grows_to(pre.with_free_numbered(order)),
        forall|x: u64| pre.is_free(x) ==> #[trigger] pre.with_free_numbered(order).is_free(x),
{
    let post = pre.with_free_numbered(order);
    assert forall|p: Place| post.has(p) == pre.has(p) && post.ends_at(p) == pre.ends_at(p)
        && post.type_at(p) == pre.type_at(p) by {}
    assert(post.types_wf()) by {
        assert forall|k: u64, c: u64|
            post.types.dom().contains(k) && #[trigger] post.types[k].points_to(c)
                implies post.types.dom().contains(c) && post.birth[k] < post.birth[c] by {
            assert(pre.types[k].points_to(c));
        }
    }
    assert(post.handles_wf()) by {
        assert forall|p: Place| #[trigger] post.has(p) implies post.types.dom().contains(
            post.type_at(p),
        ) && post.types[post.type_at(p)] is Free by {
            assert(pre.has(p));
        }
    }
    assert(post.refs_wf());
    assert(post.shapes_wf());
    assert(post.ends_wf()) by {
        assert forall|p: Place| #[trigger] post.has(p) implies post.ends_at(p).no_duplicates() by {
            assert(pre.has(p));
        }
    }
    assert forall|x: u64| pre.is_free(x) implies #[trigger] post.is_free(x) by {
        if post.held(x) {
            let p = choose|p: Place| post.has(p) && #[trigger] post.ends_at(p).contains(x);
            assert(pre.has(p) && pre.ends_at(p).contains(x));
        }
    }
}

/// Taking the last redex out keeps the net well formed. The nodes of the
/// redex can be handed back to the net, and its type handle belongs to
/// nothing any more.
pub proof fn lemma_popped(pre: NetView)
    requires
        pre.wf(),
        pre.redexes.len() > 0,
    ensures
        pre.popped().wf(),
        pre.popped().can_take(pre.redexes.last().nodes),
        pre.popped().loose(pre.redexes.last().type_key),
        pre.popped().types[pre.redexes.last().type_key] is Free,
        pre.grows_to(pre.popped()),
        pre.settled_in(pre.popped()),
        forall|x: u64| pre.is_free(x) ==> #[trigger] pre.popped().is_free(x),
        forall|k: u64| pre.loose(k) ==> #[trigger] pre.popped().loose(k),
{
    let post = pre.popped();
    let last = Place::Redex(pre.redexes.len() - 1);
    assert(pre.has(last));
    assert forall|p: Place| #[trigger] post.has(p) implies pre.has(p) && p != last && post.ends_at(
        p,
    ) == pre.ends_at(p) && post.type_at(p) == pre.type_at(p) by {
        match p {
            Place::Edge(e) => {},
            Place::Redex(i) => {
                assert(post.redexes[i] == pre.redexes[i]);
            },
        }
    }
    assert(post.types_wf());
    assert(post.handles_wf());
    assert(post.refs_wf());
    assert(post.shapes_wf()) by {
        assert forall|i: int| 0 <= i < post.redexes.len() implies (#[trigger] post.redexes[i]).nodes.len()
            >= 1 by {
            assert(post.redexes[i] == pre.redexes[i]);
        }
    }
    assert(post.ends_wf());
    assert forall|x: u64| #[trigger] ends_of(pre.redexes.last().nodes).contains(x) implies post.is_free(
        x,
    ) by {
        assert(pre.ends_at(last).contains(x));
        if post.held(x) {
            let p = choose|p: Place| post.has(p) && #[trigger] post.ends_at(p).contains(x);
            assert(pre.has(p) && pre.ends_at(p).contains(x));
        }
    }
    assert(pre.ends_at(last).no_duplicates());
    assert forall|x: u64| pre.is_free(x) implies #[trigger] post.is_free(x) by {
        if post.held(x) {
            let p = choose|p: Place| post.has(p) && #[trigger] post.ends_at(p).contains(x);
            assert(pre.has(p) && pre.ends_at(p).contains(x));
        }
    }
    assert forall|k: u64| pre.loose(k) implies #[trigger] post.loose(k) && post.types[k]
        == pre.types[k] by {
        assert forall|p: Place| #[trigger] post.has(p) implies post.type_at(p) != k by {
            assert(pre.has(p));
        }
    }
    assert(post.loose(pre.redexes.last().type_key)) by {
        assert forall|p: Place| #[trigger] post.has(p) implies post.type_at(p)
            != pre.redexes.last().type_key by {
            assert(pre.has(p) && pre.has(last));
        }
    }
}

/// Writing a type to a handle that belongs to nothing keeps the net well
/// formed, if the type points only to handles made after the handle.
pub proof fn lemma_with_type_set(pre: NetView, k: u64, v: PartialType)
    requires
        pre.wf(),
        pre.loose(k),
        forall|c: u64| #[trigger]
            v.points_to(c) ==> pre.types.dom().contains(c) && pre.birth[k] < pre.birth[c],
    ensures
        pre.with_type_set(k, v).wf(),
        pre.grows_to(pre.with_type_set(k, v)),
        forall|x: u64| pre.is_free(x) ==> #[trigger] pre.with_type_set(k, v).is_free(x),
        forall|j: u64|
            j != k && pre.loose(j) ==> #[trigger] pre.with_type_set(k, v).loose(j)
                && pre.with_type_set(k, v).types[j] == pre.types[j],
{
    let post = pre.with_type_set(k, v);
    assert forall|p: Place| post.has(p) == pre.has(p) && post.ends_at(p) == pre.ends_at(p)
        && post.type_at(p) == pre.type_at(p) by {}
    assert(post.types_wf()) by {
        assert forall|j: u64, c: u64|
            post.types.dom().contains(j) && #[trigger] post.types[j].points_to(c)
                implies post.types.dom().contains(c) && post.birth[j] < post.birth[c] by {
            if j != k {
                assert(pre.types[j].points_to(c));
            }
        }
    }
    assert(post.handles_wf()) by {
        assert forall|p: Place| #[trigger] post.has(p) implies post.types.dom().contains(
            post.type_at(p),
        ) && post.types[post.type_at(p)] is Free by {
            assert(pre.has(p));
        }
    }
    assert(post.refs_wf());
    assert(post.shapes_wf());
    assert(post.ends_wf()) by {
        assert forall|p: Place| #[trigger] post.has(p) implies post.ends_at(p).no_duplicates() by {
            assert(pre.has(p));
        }
    }
    assert forall|x: u64| pre.is_free(x) implies #[trigger] post.is_free(x) by {
        if post.held(x) {
            let p = choose|p: Place| post.has(p) && #[trigger] post.ends_at(p).contains(x);
            assert(pre.has(p) && pre.ends_at(p).contains(x));
        }
    }
    assert forall|j: u64| j != k && pre.loose(j) implies #[trigger] post.loose(j) && post.types[j]
        == pre.types[j] by {
        assert forall|p: Place| #[trigger] post.has(p) implies post.type_at(p) != j by {
            assert(pre.has(p));
        }
    }
}

/// What two operations in a row leave alone.
pub proof fn lemma_keeps_chain(
    a: NetView,
    b: NetView,
    c: NetView,
    u1: Seq<u64>,
    u2: Seq<u64>,
    u: Seq<u64>,
)
    requires
        b.types_wf(),
        c.types_wf(),
        a.keeps(b, u1),
        b.keeps(c, u2),
        forall|x: u64| a.is_free(x) && !u.contains(x) ==> !u1.contains(x) && !u2.contains(x),
    ensures
        a.keeps(c, u),
{
    lemma_arrows_kept(b, c);
    assert forall|p: Place|
        #![trigger a.has(p)]
        a.has(p) && has_cons(a.nodes_at(p)) implies c.arrow_bound(a.type_at(p)) by {
        assert(b.arrow_bound(a.type_at(p)));
    }
    assert forall|k: u64|
        #![trigger c.types[k]]
        a.types.dom().contains(k) && !(a.types[k] is Free) implies c.types[k] == a.types[k] by {
        assert(b.types[k] == a.types[k]);
        assert(b.types.dom().contains(k));
    }
    assert forall|x: u64| a.is_free(x) && !u.contains(x) implies #[trigger] c.is_free(x) by {
        assert(b.is_free(x));
    }
    assert forall|k: u64| a.types.dom().contains(k) implies #[trigger] c.types.dom().contains(k) by {
        assert(b.types.dom().contains(k));
    }
    assert forall|k: u64| a.loose(k) implies #[trigger] c.loose(k) && c.types[k] == a.types[k] by {
        assert(b.loose(k));
        assert(b.types[k] == a.types[k]);
        assert(c.loose(k));
        assert(c.types[k] == b.types[k]);
    }
    assert forall|k: u64| #[trigger] c.types.dom().contains(k) implies if a.types.dom().contains(k) {
        c.birth[k] == a.birth[k]
    } else {
        c.birth[k] >= a.clock
    } by {
        if a.types.dom().contains(k) {
            assert(b.types.dom().contains(k));
        }
        if b.types.dom().contains(k) {
        }
    }
}

/// Growth of the type store goes on from step to step.
pub proof fn lemma_grows_chain(a: NetView, b: NetView, c: NetView)
    requires
        a.grows_to(b),
        b.grows_to(c),
    ensures
        a.grows_to(c),
{
    assert forall|k: u64| a.types.dom().contains(k) implies #[trigger] c.types.dom().contains(k) by {
        assert(b.types.dom().contains(k));
    }
    assert forall|k: u64| #[trigger] c.types.dom().contains(k) implies if a.types.dom().contains(k) {
        c.birth[k] == a.birth[k]
    } else {
        c.birth[k] >= a.clock
    } by {
        if a.types.dom().contains(k) {
            assert(b.types.dom().contains(k));
        }
        if b.types.dom().contains(k) {
        }
    }
}

/// Forwarding ends at a handle of the store that forwards no further.
pub proof fn lemma_root_of(v: NetView, k: u64)
    requires
        v.types_wf(),
        v.types.dom().contains(k),
    ensures
        v.types.dom().contains(v.root_of(k)),
        !(v.types[v.root_of(k)] is Indirect),
        !(v.types[k] is Indirect) ==> v.root_of(k) == k,
    decreases v.clock - v.birth[k],
{
    match v.types[k] {
        PartialType::Indirect(t) => {
            assert(v.types[k].points_to(t.id));
            lemma_root_of(v, t.id);
        },
        _ => {},
    }
}

/// Two stores that forward alike have the same roots.
pub proof fn lemma_root_of_same(a: NetView, b: NetView, k: u64)
    requires
        a.types_wf(),
        b.types_wf(),
        a.types.dom() == b.types.dom(),
        a.birth == b.birth,
        a.clock == b.clock,
        forall|j: u64|
            a.types.dom().contains(j) ==> (a.types[j] is Indirect || b.types[j] is Indirect
                ==> #[trigger] a.types[j] == b.types[j]),
        a.types.dom().contains(k),
    ensures
        a.root_of(k) == b.root_of(k),
    decreases a.clock - a.birth[k],
{
    match a.types[k] {
        PartialType::Indirect(t) => {
            assert(a.types[k].points_to(t.id));
            lemma_root_of_same(a, b, t.id);
        },
        _ => {
            assert(!(b.types[k] is Indirect));
        },
    }
}

/// The type variables that some handles reach: distinct variables of the
/// store, among them every variable that is one of the handles.
pub proof fn lemma_free_roots(v: NetView, order: Seq<u64>)
    requires
        v.types_wf(),
        forall|i: int| 0 <= i < order.len() ==> v.types.dom().contains(#[trigger] order[i]),
    ensures
        v.free_roots(order).no_duplicates(),
        forall|r: u64| #[trigger]
            v.free_roots(order).contains(r) ==> v.types.dom().contains(r) && v.types[r] is Free,
        forall|i: int|
            0 <= i < order.len() && v.types[#[trigger] order[i]] is Free ==> v.free_roots(
                order,
            ).contains(order[i]),
    decreases order.len(),
{
    if order.len() > 0 {
        let init = order.drop_last();
        let last = order.last();
        lemma_free_roots(v, init);
        assert(v.types.dom().contains(order[order.len() - 1]));
        lemma_root_of(v, last);
        let rest = v.free_roots(init);
        let r = v.root_of(last);
        let all = v.free_roots(order);
        assert forall|x: u64| rest.contains(x) implies all.contains(x) by {
            let k = choose|k: int| 0 <= k < rest.len() && rest[k] == x;
            assert(all[k] == x);
        }
        assert forall|x: u64| #[trigger] all.contains(x) implies v.types.dom().contains(x)
            && v.types[x] is Free by {
            let k = choose|k: int| 0 <= k < all.len() && all[k] == x;
            if k < rest.len() {
                assert(rest[k] == x);
                assert(rest.contains(x));
            }
        }
        assert forall|i: int| 0 <= i < order.len() && v.types[#[trigger] order[i]] is Free implies all.contains(
            order[i],
        ) by {
            if i < init.len() {
                assert(init[i] == order[i]);
                assert(rest.contains(init[i]));
            } else {
                assert(r == last);
                if !rest.contains(r) {
                    assert(all[rest.len() as int] == r);
                }
            }
        }
    }
}

/// Numbering gives different variables different numbers.
pub proof fn lemma_numbers_are_distinct(pre: NetView, order: Seq<u64>, j: u64, k: u64)
    requires
        pre.wf(),
        forall|i: int| 0 <= i < order.len() ==> pre.types.dom().contains(#[trigger] order[i]),
        forall|x: u64| pre.types.dom().contains(x) ==> order.contains(x),
        pre.types.dom().contains(j),
        pre.types.dom().contains(k),
        pre.types[j] is Free,
        pre.types[k] is Free,
        j != k,
        order.len() <= usize::MAX,
    ensures
        pre.with_free_numbered(order).types[j] != pre.with_free_numbered(order).types[k],
        pre.free_roots(order).index_of(j) < pre.free_roots(order).len() <= order.len(),
{
    let roots = pre.free_roots(order);
    lemma_free_roots(pre, order);
    lemma_free_roots_len(pre, order);
    assert(order.contains(j) && order.contains(k));
    let a = choose|a: int| 0 <= a < order.len() && order[a] == j;
    let b = choose|b: int| 0 <= b < order.len() && order[b] == k;
    assert(pre.types[order[a]] is Free && pre.types[order[b]] is Free);
    assert(roots.contains(j) && roots.contains(k));
    let x = roots.index_of(j);
    let y = roots.index_of(k);
    assert(0 <= x < roots.len() && roots[x] == j);
    assert(0 <= y < roots.len() && roots[y] == k);
    assert(x != y);
    assert(x as usize != y as usize);
}

/// No more type variables are reached than there are handles.
pub proof fn lemma_free_roots_len(v: NetView, order: Seq<u64>)
    ensures
        v.free_roots(order).len() <= order.len(),
    decreases order.len(),
{
    if order.len() > 0 {
        lemma_free_roots_len(v, order.drop_last());
    }
}

} // verus!
