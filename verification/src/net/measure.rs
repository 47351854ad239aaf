//! Why reduction ends: every step lowers the weight of the net.
//!
//! A lambda or an application weighs 3 while marks may still reach it and
//! 1 once it waits in a redex without marks; a mark weighs 1.

use vstd::prelude::*;

use crate::net::laws::lemma_edges_of;
use crate::net::model::{drop_all, EdgeView, NetView, RedexView};
use crate::net::types::PartialType;
use crate::net::Node;

verus! {

/// The sum of the values of a finite map.
pub open spec fn total(m: Map<u64, nat>) -> nat
    decreases m.dom().len(),
    when m.dom().finite()
    via total_ends
{
    if m.dom().is_empty() {
        0
    } else {
        let k = m.dom().choose();
        m[k] + total(m.remove(k))
    }
}

#[via_fn]
proof fn total_ends(m: Map<u64, nat>) {
    if !m.dom().is_empty() {
        let k = m.dom().choose();
        assert(m.dom().contains(k)) by {
            if !m.dom().contains(k) {
                assert(m.dom() =~= Set::<u64>::empty());
            }
        }
        assert(m.remove(k).dom() =~= m.dom().remove(k));
    }
}

/// The sum of a map is the value at any key and the sum of the rest.
pub proof fn lemma_total_remove(m: Map<u64, nat>, k: u64)
    requires
        m.dom().finite(),
        m.dom().contains(k),
    ensures
        total(m) == m[k] + total(m.remove(k)),
    decreases m.dom().len(),
{
    let c = m.dom().choose();
    assert(!m.dom().is_empty()) by {
        if m.dom().is_empty() {
            assert(m.dom() =~= Set::<u64>::empty());
        }
    }
    assert(m.dom().contains(c));
    if c != k {
        assert(m.remove(c).dom() =~= m.dom().remove(c));
        assert(m.remove(k).dom() =~= m.dom().remove(k));
        lemma_total_remove(m.remove(c), k);
        lemma_total_remove(m.remove(k), c);
        assert(m.remove(c).remove(k) =~= m.remove(k).remove(c));
    }
}

/// The sum of a map with one more key.
pub proof fn lemma_total_insert(m: Map<u64, nat>, k: u64, v: nat)
    requires
        m.dom().finite(),
        !m.dom().contains(k),
    ensures
        total(m.insert(k, v)) == total(m) + v,
{
    let n = m.insert(k, v);
    assert(n.dom() =~= m.dom().insert(k));
    lemma_total_remove(n, k);
    assert(n.remove(k) =~= m);
}

/// What a node weighs in an edge.
pub open spec fn node_weight(node: Node) -> nat {
    if node.is_cons() {
        3
    } else {
        1
    }
}

/// What a list of nodes weighs in an edge.
pub open spec fn edge_weight(nodes: Seq<Node>) -> nat
    decreases nodes.len(),
{
    if nodes.len() == 0 {
        0
    } else {
        edge_weight(nodes.drop_last()) + node_weight(nodes.last())
    }
}

/// Every node of the list is a lambda or an application.
pub open spec fn all_cons(nodes: Seq<Node>) -> bool {
    forall|j: int| 0 <= j < nodes.len() ==> (#[trigger] nodes[j]).is_cons()
}

/// What a list of nodes weighs in a redex: without marks every node
/// weighs 1.
pub open spec fn redex_weight(nodes: Seq<Node>) -> nat {
    if all_cons(nodes) {
        nodes.len()
    } else {
        edge_weight(nodes)
    }
}

/// What the redexes weigh together.
pub open spec fn redexes_weight(redexes: Seq<RedexView>) -> nat
    decreases redexes.len(),
{
    if redexes.len() == 0 {
        0
    } else {
        redexes_weight(redexes.drop_last()) + redex_weight(redexes.last().nodes)
    }
}

/// The weights of the edges.
pub open spec fn edge_weights(edges: Map<u64, EdgeView>) -> Map<u64, nat> {
    Map::new(|e: u64| edges.dom().contains(e), |e: u64| edge_weight(edges[e].nodes))
}

impl NetView {
    /// The weight of the net: that of its edges and of its redexes.
    pub open spec fn weight(self) -> nat {
        total(edge_weights(self.edges)) + redexes_weight(self.redexes)
    }
}

/// Weights in an edge add up.
pub proof fn lemma_edge_weight_concat(a: Seq<Node>, b: Seq<Node>)
    ensures
        edge_weight(a + b) == edge_weight(a) + edge_weight(b),
    decreases b.len(),
{
    if b.len() == 0 {
        assert(a + b =~= a);
    } else {
        lemma_edge_weight_concat(a, b.drop_last());
        assert((a + b).drop_last() =~= a + b.drop_last());
        assert((a + b).last() == b.last());
    }
}

/// A list weighs at least as many as it has nodes, and a list with a mark
/// weighs more than three times its lambdas and applications.
pub proof fn lemma_edge_weight_bounds(nodes: Seq<Node>)
    ensures
        nodes.len() <= edge_weight(nodes) <= 3 * nodes.len(),
        redex_weight(nodes) <= edge_weight(nodes),
        nodes.len() > 0 ==> redex_weight(nodes) > 0,
    decreases nodes.len(),
{
    if nodes.len() > 0 {
        lemma_edge_weight_bounds(nodes.drop_last());
    }
}

/// A new edge adds the weight of its nodes.
pub proof fn lemma_weight_makes_edge(pre: NetView, rs: Seq<u64>, nodes: Seq<Node>, post: NetView)
    requires
        pre.edges.dom().finite(),
        pre.makes_edge(rs, nodes, post),
    ensures
        post.weight() == pre.weight() + edge_weight(nodes),
{
    let (t, e) = choose|t: u64, e: u64|
        #![trigger pre.with_edge(t, e, rs, nodes)]
        pre.fresh(t, e, rs) && post == pre.with_edge(t, e, rs, nodes);
    assert(edge_weights(post.edges) =~= edge_weights(pre.edges).insert(e, edge_weight(nodes)));
    assert(edge_weights(pre.edges).dom() =~= pre.edges.dom());
    lemma_total_insert(edge_weights(pre.edges), e, edge_weight(nodes));
}

/// Taking the last redex out takes its weight out.
pub proof fn lemma_weight_popped(pre: NetView)
    requires
        pre.redexes.len() > 0,
    ensures
        pre.popped().weight() + redex_weight(pre.redexes.last().nodes) == pre.weight(),
{
}

/// Writing a type changes no weight.
pub proof fn lemma_weight_set(pre: NetView, h: u64, v: PartialType)
    ensures
        pre.with_type_set(h, v).weight() == pre.weight(),
{
}

/// The edges without those of the list `es`.
pub open spec fn edges_without(edges: Map<u64, EdgeView>, es: Seq<u64>) -> Map<u64, EdgeView> {
    Map::new(|x: u64| edges.dom().contains(x) && !es.contains(x), |x: u64| edges[x])
}

/// The edges without some of them weigh what all weigh, less the nodes of
/// those.
pub proof fn lemma_weight_without(v: NetView, es: Seq<u64>)
    requires
        v.edges.dom().finite(),
        es.no_duplicates(),
        forall|j: int| 0 <= j < es.len() ==> v.edges.dom().contains(#[trigger] es[j]),
    ensures
        edges_without(v.edges, es).dom().finite(),
        total(edge_weights(edges_without(v.edges, es))) + edge_weight(v.nodes_of(es)) == total(
            edge_weights(v.edges),
        ),
    decreases es.len(),
{
    let all = edge_weights(v.edges);
    vstd::set_lib::lemma_len_subset(edges_without(v.edges, es).dom(), v.edges.dom());
    if es.len() == 0 {
        assert(edge_weights(edges_without(v.edges, es)) =~= all);
    } else {
        let init = es.drop_last();
        let last = es.last();
        assert(es[es.len() - 1] == last);
        assert forall|j: int| 0 <= j < init.len() implies v.edges.dom().contains(
            #[trigger] init[j],
        ) by {
            assert(init[j] == es[j]);
        }
        lemma_weight_without(v, init);
        let before = edge_weights(edges_without(v.edges, init));
        assert(!init.contains(last)) by {
            if init.contains(last) {
                let k = choose|k: int| 0 <= k < init.len() && init[k] == last;
                assert(es[k] == es[es.len() - 1]);
            }
        }
        assert(before.dom().contains(last));
        assert(before.dom() =~= edges_without(v.edges, init).dom());
        lemma_total_remove(before, last);
        assert forall|x: u64| es.contains(x) <==> init.contains(x) || x == last by {
            if es.contains(x) {
                let k = choose|k: int| 0 <= k < es.len() && es[k] == x;
                if k < init.len() {
                    assert(init[k] == x);
                }
            }
            if init.contains(x) {
                let k = choose|k: int| 0 <= k < init.len() && init[k] == x;
                assert(es[k] == x);
            }
        }
        assert(before.remove(last) =~= edge_weights(edges_without(v.edges, es)));
        lemma_edge_weight_concat(v.nodes_of(init), v.edges[last].nodes);
    }
}

/// Linking adds at most the weight of the linked nodes.
pub proof fn lemma_weight_links(
    pre: NetView,
    nodes: Seq<Node>,
    vars: Seq<u64>,
    h: u64,
    post: NetView,
)
    requires
        pre.wf(),
        forall|i: int| 0 <= i < vars.len() ==> pre.refs.dom().contains(#[trigger] vars[i]),
        pre.links(nodes, vars, h, post),
    ensures
        post.weight() <= pre.weight() + edge_weight(nodes),
{
    let e = choose|e: u64|
        #![trigger pre.linked(nodes, vars, h, e)]
        (pre.kept_refs(vars).len() > 0 ==> pre.unused_edge(vars, e)) && post == pre.linked(
            nodes,
            vars,
            h,
            e,
        );
    let es = pre.edges_of(vars);
    let all_nodes = nodes + pre.nodes_of(es);
    let kept = drop_all(pre.refs_of(es), vars);
    lemma_edges_of(pre, vars);
    lemma_weight_without(pre, es);
    lemma_edge_weight_concat(nodes, pre.nodes_of(es));
    lemma_edge_weight_bounds(all_nodes);
    let rest = edges_without(pre.edges, es);
    assert(edge_weights(rest).dom() =~= rest.dom());
    if kept.len() > 0 {
        assert(!rest.dom().contains(e));
        assert(post.edges =~= rest.insert(
            e,
            EdgeView { type_key: h, refs: kept, nodes: all_nodes },
        ));
        assert(edge_weights(post.edges) =~= edge_weights(rest).insert(e, edge_weight(all_nodes)));
        lemma_total_insert(edge_weights(rest), e, edge_weight(all_nodes));
        assert(post.redexes == pre.redexes);
    } else {
        assert(post.edges =~= rest);
        if all_nodes.len() > 0 {
            assert(post.redexes.drop_last() =~= pre.redexes);
            assert(post.redexes.last().nodes == all_nodes);
        } else {
            assert(post.redexes == pre.redexes);
        }
    }
}

/// Linking nodes without variables adds the weight that they have in a
/// redex.
pub proof fn lemma_weight_links_nodes(pre: NetView, nodes: Seq<Node>, h: u64, post: NetView)
    requires
        pre.links(nodes, Seq::empty(), h, post),
    ensures
        post.weight() == pre.weight() + redex_weight(nodes),
{
    let none = Seq::<u64>::empty();
    let e = choose|e: u64|
        #![trigger pre.linked(nodes, none, h, e)]
        (pre.kept_refs(none).len() > 0 ==> pre.unused_edge(none, e)) && post == pre.linked(
            nodes,
            none,
            h,
            e,
        );
    assert(pre.edges_of(none) =~= Seq::<u64>::empty());
    assert(pre.nodes_of(Seq::<u64>::empty()) =~= Seq::<Node>::empty());
    assert(pre.refs_of(Seq::<u64>::empty()) =~= Seq::<u64>::empty());
    assert(drop_all(Seq::<u64>::empty(), none) =~= Seq::<u64>::empty());
    assert(nodes + Seq::<Node>::empty() =~= nodes);
    assert(post.edges =~= pre.edges);
    if nodes.len() > 0 {
        assert(post.redexes.drop_last() =~= pre.redexes);
        assert(post.redexes.last().nodes == nodes);
    } else {
        assert(post.redexes == pre.redexes);
    }
}

/// A new edge-ref on an edge changes no weight.
pub proof fn lemma_weight_ref_added(pre: NetView, v: u64, r: u64)
    requires
        pre.wf(),
        pre.refs.dom().contains(v),
    ensures
        pre.with_ref_added(v, r).weight() == pre.weight(),
{
    let post = pre.with_ref_added(v, r);
    assert(pre.edges.dom().contains(pre.refs[v].edge));
    assert(edge_weights(post.edges) =~= edge_weights(pre.edges));
}

/// A node that is linked to a variable adds at most its weight.
pub proof fn lemma_weight_node_linked(pre: NetView, v: u64, node: Node)
    requires
        pre.wf(),
        pre.refs.dom().contains(v),
    ensures
        pre.with_node_linked(v, node).weight() <= pre.weight() + node_weight(node),
{
    let post = pre.with_node_linked(v, node);
    let e = pre.refs[v].edge;
    let edge = pre.edges[e];
    let nodes = edge.nodes.push(node);
    let before = edge_weights(pre.edges);
    assert(pre.edges.dom().contains(e));
    assert(before.dom() =~= pre.edges.dom());
    lemma_total_remove(before, e);
    assert(edge_weight(nodes) == edge_weight(edge.nodes) + node_weight(node)) by {
        assert(nodes.drop_last() =~= edge.nodes);
    }
    lemma_edge_weight_bounds(nodes);
    if edge.refs.remove(pre.refs[v].i).len() == 0 {
        assert(edge_weights(post.edges) =~= before.remove(e));
        assert(post.redexes.drop_last() =~= pre.redexes);
    } else {
        let after = edge_weights(post.edges);
        assert(after.dom() =~= pre.edges.dom());
        lemma_total_remove(after, e);
        assert(after.remove(e) =~= before.remove(e));
    }
}

} // verus!
