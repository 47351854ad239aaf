//! Making types, edges and variables.

use vstd::prelude::*;

use crate::net::arena::{edge_slots, ref_slots};
use crate::net::arena::{EdgeArena, RefArena, TypeArena};
use crate::net::arena::{edge_span, ref_span, SLOT_LIMIT};
use crate::net::laws::{
    lemma_ends_of_one, lemma_wf_ignores_label, lemma_with_edge, lemma_with_node_linked,
    lemma_with_ref_added, lemma_with_type,
};
use crate::net::arrows::lemma_bound_at;
use crate::net::model::{has_cons, Place, RefView};
use crate::net::model::{ends_of, NetView};
use crate::net::types::{PartialType, PartialTypeKey};
use crate::net::{Edge, EdgeRef, Net, Node, Var};

verus! {

impl Net {
    /// An empty net.
    pub fn new() -> (net: Net)
        ensures
            net.wf(),
            net@ == NetView::empty(),
            net.room() == SLOT_LIMIT,
    {
        let net = Net {
            refs: RefArena::new(),
            edges: EdgeArena::new(),
            redexes: Vec::new(),
            types: TypeArena::new(),
            next_label: 0,
            used: 0,
            birth: Ghost(Map::empty()),
            clock: Ghost(0),
        };
        assert(net@.types =~= NetView::empty().types);
        assert(net@.edges =~= NetView::empty().edges);
        assert(net@.refs =~= NetView::empty().refs);
        assert(net@.redexes =~= NetView::empty().redexes);
        assert(net@ =~= NetView::empty());
        assert(edge_slots(net.edges).dom() =~= Set::<u64>::empty());
        net
    }

    /// A redex is waiting.
    pub fn is_reducible(&self) -> (b: bool)
        ensures
            b == self@.is_reducible(),
    {
        self.redexes.len() > 0
    }

    /// No edge is left.
    pub fn is_equated(&self) -> (b: bool)
        requires
            self.wf(),
        ensures
            b == self@.is_equated(),
    {
        let n = self.edges.len();
        proof {
            let dom = edge_slots(self.edges).dom();
            if n == 0 {
                assert forall|e: u64| !self@.edges.dom().contains(e) by {
                    if dom.contains(e) {
                        vstd::set_lib::lemma_set_empty_equivalency_len(dom);
                    }
                }
            } else {
                vstd::set_lib::lemma_set_empty_equivalency_len(dom);
                let e = choose|e: u64| dom.contains(e);
                assert(self@.edges.dom().contains(e));
            }
        }
        n == 0
    }

    /// States what a walk over a well-formed net finds: the type handle of
    /// every redex is in the type store, and every edge has an edge-ref.
    pub fn assert_valid(&self)
        requires
            self.wf(),
        ensures
            forall|i: int|
                0 <= i < self@.redexes.len() ==> self@.types.dom().contains(
                    (#[trigger] self@.redexes[i]).type_key,
                ),
            forall|e: u64| #[trigger]
                self@.edges.dom().contains(e) ==> self@.edges[e].refs.len() > 0,
    {
        proof {
            assert forall|i: int| 0 <= i < self@.redexes.len() implies self@.types.dom().contains(
                (#[trigger] self@.redexes[i]).type_key,
            ) by {
                assert(self@.has(Place::Redex(i)));
            }
        }
    }

    /// Hands out the next fan label.
    pub fn new_label(&mut self) -> (label: usize)
        requires
            old(self).wf(),
            old(self)@.next_label < usize::MAX,
        ensures
            final(self).wf(),
            label == old(self)@.next_label,
            final(self)@ == (NetView { next_label: (label + 1) as usize, ..old(self)@ }),
            old(self)@.keeps(final(self)@, Seq::empty()),
            final(self).room() == old(self).room(),
    {
        let res = self.next_label;
        self.next_label += 1;
        proof {
            lemma_wf_ignores_label(old(self)@, (res + 1) as usize);
        }
        assert(self@ =~= (NetView { next_label: (res + 1) as usize, ..old(self)@ }));
        res
    }

    /// Makes a fresh type variable.
    pub fn new_type(&mut self) -> (t: PartialTypeKey)
        requires
            old(self).wf(),
            old(self).room() >= 1,
        ensures
            final(self).wf(),
            !old(self)@.types.dom().contains(t.id),
            final(self)@ == old(self)@.with_type(t.id),
            old(self)@.keeps(final(self)@, Seq::empty()),
            final(self).room() == old(self).room() - 1,
    {
        let id = self.types.insert(PartialType::Free(None));
        self.used += 1;
        proof {
            lemma_with_type(old(self)@, id);
        }
        self.birth = Ghost(self.birth@.insert(id, self.clock@));
        self.clock = Ghost(self.clock@ + 1);
        assert(self@ =~= old(self)@.with_type(id));
        PartialTypeKey { id }
    }

    /// The type handle of the edge that the variable is attached to.
    pub fn type_key(&self, var: &Var) -> (t: PartialTypeKey)
        requires
            self.wf(),
            self@.refs.dom().contains(var.key()),
        ensures
            t.id == self@.handle_of(var.key()),
            self@.types.dom().contains(t.id),
    {
        let edge_ref = self.refs.get(var.edge_ref);
        assert(self@.edges.dom().contains(edge_ref.edge));
        assert(self@.has(crate::net::model::Place::Edge(edge_ref.edge)));
        PartialTypeKey { id: self.edges.get(edge_ref.edge).type_key }
    }

    /// Makes an edge of a fresh type that holds `nodes` and one new
    /// edge-ref, or two if `wide`. Returns the new edge-refs; without
    /// `wide` the second repeats the first.
    fn make_edge(&mut self, nodes: Vec<Node>, wide: bool) -> (rs: (u64, u64))
        requires
            old(self).wf(),
            old(self)@.can_take(nodes@),
            old(self).room() >= (if wide { 2int } else { 1int }),
        ensures
            final(self).wf(),
            !wide ==> rs.1 == rs.0,
            old(self)@.makes_edge(edge_refs(rs, wide), nodes@, final(self)@),
            !old(self)@.refs.dom().contains(rs.0),
            !old(self)@.refs.dom().contains(rs.1),
            rs.0 != rs.1 || !wide,
            has_cons(nodes@) ==> final(self)@.arrow_bound(final(self)@.handle_of(rs.0)),
            old(self)@.keeps(final(self)@, ends_of(nodes@)),
            final(self)@.is_free(rs.0),
            final(self)@.is_free(rs.1),
            final(self).room() == old(self).room() - (if wide { 2int } else { 1int }),
    {
        let ghost pre = self@;
        let ghost nodes_view = nodes@;
        let t = self.types.insert(PartialType::Free(None));
        self.used += if wide {
            2
        } else {
            1
        };
        self.birth = Ghost(self.birth@.insert(t, self.clock@));
        self.clock = Ghost(self.clock@ + 1);
        let r1 = self.refs.insert(EdgeRef { i: 0, edge: 0 });
        let mut refs: Vec<u64> = Vec::new();
        refs.push(r1);
        let mut r2 = r1;
        if wide {
            r2 = self.refs.insert(EdgeRef { i: 1, edge: 0 });
            refs.push(r2);
        }
        let ghost rs = refs@;
        let e = self.edges.insert(Edge { type_key: t, refs, nodes });
        let slot = self.refs.get_mut(r1);
        slot.edge = e;
        if wide {
            let slot = self.refs.get_mut(r2);
            slot.edge = e;
        }
        proof {
            assert(rs =~= edge_refs((r1, r2), wide));
            assert(rs.contains(rs[0]));
            assert(rs.index_of(r1) == 0);
            if wide {
                assert(rs.contains(rs[1]));
                assert(rs.index_of(r2) == 1);
            }
            lemma_with_edge(pre, t, e, rs, nodes_view);
            let post = pre.with_edge(t, e, rs, nodes_view);
            assert(self@.refs =~= post.refs);
            assert(self@.edges =~= post.edges);
            assert(self@.types =~= post.types);
            assert(self@.birth =~= post.birth);
            assert(self@.redexes =~= post.redexes);
            assert(self@ =~= post);
            assert(post.is_free(rs[0]));
            if wide {
                assert(post.is_free(rs[1]));
            }
            if has_cons(nodes_view) {
                assert(post.has(Place::Edge(e)));
                lemma_bound_at(post, Place::Edge(e));
                assert(post.handle_of(r1) == t);
            }
        }
        (r1, r2)
    }

    /// Creates an edge with a fresh type and one new edge-ref, and returns
    /// it as a variable.
    pub fn new_var(&mut self) -> (v: Var)
        requires
            old(self).wf(),
            old(self).room() >= 1,
        ensures
            final(self).wf(),
            old(self)@.makes_edge(seq![v.key()], Seq::empty(), final(self)@),
            !old(self)@.refs.dom().contains(v.key()),
            final(self)@.is_free(v.key()),
            old(self)@.keeps(final(self)@, Seq::empty()),
            final(self).room() == old(self).room() - 1,
    {
        let nodes: Vec<Node> = Vec::new();
        assert(ends_of(nodes@) =~= Seq::<u64>::empty());
        let rs = self.make_edge(nodes, false);
        assert(edge_refs(rs, false) =~= seq![rs.0]);
        Var { edge_ref: rs.0 }
    }

    /// Creates an edge with a fresh type and two new edge-refs, and returns
    /// them as variables.
    pub fn wire(&mut self) -> (vs: (Var, Var))
        requires
            old(self).wf(),
            old(self).room() >= 2,
        ensures
            final(self).wf(),
            old(self)@.makes_edge(seq![vs.0.key(), vs.1.key()], Seq::empty(), final(self)@),
            !old(self)@.refs.dom().contains(vs.0.key()),
            !old(self)@.refs.dom().contains(vs.1.key()),
            final(self)@.is_free(vs.0.key()),
            final(self)@.is_free(vs.1.key()),
            vs.0.key() != vs.1.key(),
            old(self)@.keeps(final(self)@, Seq::empty()),
            final(self).room() == old(self).room() - 2,
    {
        let nodes: Vec<Node> = Vec::new();
        assert(ends_of(nodes@) =~= Seq::<u64>::empty());
        let rs = self.make_edge(nodes, true);
        assert(edge_refs(rs, true) =~= seq![rs.0, rs.1]);
        assert(seq![rs.0, rs.1][0] == rs.0 && seq![rs.0, rs.1][1] == rs.1);
        (Var { edge_ref: rs.0 }, Var { edge_ref: rs.1 })
    }

    /// Creates an edge that holds `node` and one new edge-ref, which names
    /// the position of the node. The endpoints of the node leave the
    /// caller's hands.
    pub fn wrap(&mut self, node: Node) -> (v: Var)
        requires
            old(self).wf(),
            old(self)@.can_take(seq![node]),
            old(self).room() >= 1,
        ensures
            final(self).wf(),
            old(self)@.makes_edge(seq![v.key()], seq![node], final(self)@),
            !old(self)@.refs.dom().contains(v.key()),
            node.is_cons() ==> final(self)@.arrow_bound(final(self)@.handle_of(v.key())),
            final(self)@.is_free(v.key()),
            old(self)@.keeps(final(self)@, node.ends()),
            final(self).room() == old(self).room() - 1,
    {
        let mut nodes: Vec<Node> = Vec::new();
        nodes.push(node);
        proof {
            assert(nodes@ =~= seq![node]);
            lemma_ends_of_one(node);
            if node.is_cons() {
                assert(nodes@[0].is_cons());
            }
        }
        let rs = self.make_edge(nodes, false);
        assert(edge_refs(rs, false) =~= seq![rs.0]);
        Var { edge_ref: rs.0 }
    }

    /// Adds a new edge-ref to the edge of `var` and returns it as a
    /// variable.
    pub fn add_var(&mut self, var: &Var) -> (v: Var)
        requires
            old(self).wf(),
            old(self)@.refs.dom().contains(var.key()),
            old(self).room() >= 1,
        ensures
            final(self).wf(),
            !old(self)@.refs.dom().contains(v.key()),
            final(self)@ == old(self)@.with_ref_added(var.key(), v.key()),
            final(self)@.is_free(v.key()),
            old(self)@.keeps(final(self)@, Seq::empty()),
            final(self).room() == old(self).room() - 1,
    {
        let ghost pre = self@;
        let edge_ref = self.refs.get(var.edge_ref);
        let edge_key = edge_ref.edge;
        let new_ref = self.refs.insert(EdgeRef { i: 0, edge: edge_key });
        self.used += 1;
        let edge = self.edges.get_mut(edge_key);
        edge.refs.push(new_ref);
        let i = edge.refs.len() - 1;
        let slot = self.refs.get_mut(new_ref);
        slot.i = i;
        proof {
            lemma_with_ref_added(pre, var.edge_ref, new_ref);
            let post = pre.with_ref_added(var.edge_ref, new_ref);
            assert(self@.refs =~= post.refs);
            assert(self@.edges =~= post.edges);
            assert(self@ =~= post);
        }
        Var { edge_ref: new_ref }
    }

    /// Takes `var` off its edge and attaches `node` there. An edge left
    /// without edge-refs becomes a redex.
    pub fn link_var_node(&mut self, var: Var, node: Node)
        requires
            old(self).wf(),
            old(self)@.is_free(var.key()),
            old(self)@.can_take(seq![node]),
            !node.ends().contains(var.key()),
        ensures
            final(self).wf(),
            final(self)@ == old(self)@.with_node_linked(var.key(), node),
            old(self)@.keeps(final(self)@, node.ends().push(var.key())),
            final(self).room() == old(self).room(),
    {
        let ghost pre = self@;
        let key = var.edge_ref;
        let at = self.refs.remove(key);
        let e = at.edge;
        let ghost left = pre.edges[e].refs.remove(at.i as int);
        let slot = self.edges.get_mut(e);
        slot.refs.remove(at.i);
        slot.nodes.push(node);
        let n = slot.refs.len();
        let ghost edges_now = edge_slots(self.edges);
        assert(edges_now[e]@.refs == left);
        let mut j = at.i;
        while j < n
            invariant
                pre.wf(),
                pre.refs.dom().contains(key),
                pre.refs[key] == at@,
                e == at.edge,
                at.i as int <= j <= n,
                n == left.len(),
                left == pre.edges[e].refs.remove(at.i as int),
                edge_slots(self.edges) == edges_now,
                edges_now.dom().contains(e),
                edges_now[e]@.refs == left,
                forall|r: u64| #[trigger]
                    ref_slots(self.refs).dom().contains(r) <==> pre.refs.dom().contains(r) && r
                        != key,
                forall|r: u64| #[trigger]
                    ref_slots(self.refs).dom().contains(r) ==> ref_slots(self.refs)[r]@ == (if pre.refs[r].edge
                        == e && at.i < pre.refs[r].i <= j {
                        RefView { edge: e, i: pre.refs[r].i - 1 }
                    } else {
                        pre.refs[r]
                    }),
                ref_span(self.refs) == ref_span(old(self).refs),
                self.types == old(self).types,
                self.redexes == old(self).redexes,
                self.next_label == old(self).next_label,
                self.birth == old(self).birth,
                self.clock == old(self).clock,
                edge_span(self.edges) == edge_span(old(self).edges),
                self.used == old(self).used,
            decreases n - j,
        {
            let r = self.edges.get(e).refs[j];
            proof {
                assert(r == pre.edges[e].refs[j + 1]);
                assert(pre.refs.dom().contains(r));
                assert(pre.refs[r] == (RefView { edge: e, i: j + 1 }));
            }
            let ghost before = ref_slots(self.refs);
            let slot = self.refs.get_mut(r);
            slot.i = j;
            proof {
                assert forall|x: u64| #[trigger]
                    ref_slots(self.refs).dom().contains(x) implies ref_slots(self.refs)[x]@ == (if pre.refs[x].edge
                    == e && at.i < pre.refs[x].i <= j + 1 {
                    RefView { edge: e, i: pre.refs[x].i - 1 }
                } else {
                    pre.refs[x]
                }) by {
                    assert(before.dom().contains(x));
                    assert(pre.refs.dom().contains(x));
                    if x != r {
                        assert(ref_slots(self.refs)[x] == before[x]);
                        if pre.refs[x].edge == e && pre.refs[x].i == j + 1 {
                            assert(pre.edges[e].refs[j + 1] == x);
                        }
                    }
                }
            }
            j += 1;
        }
        if n == 0 {
            let edge = self.edges.remove(e);
            self.redexes.push((PartialTypeKey { id: edge.type_key }, edge.nodes));
        }
        proof {
            lemma_with_node_linked(pre, key, node);
            let post = pre.with_node_linked(key, node);
            assert(self@.refs =~= post.refs);
            assert(self@.edges =~= post.edges);
            assert(self@.redexes =~= post.redexes);
            assert(self@ =~= post);
        }
    }
}

/// The edge-refs that `make_edge` returns, as the refs of the new edge.
pub open spec fn edge_refs(rs: (u64, u64), wide: bool) -> Seq<u64> {
    if wide {
        seq![rs.0, rs.1]
    } else {
        seq![rs.0]
    }
}

impl Default for Net {
    fn default() -> (net: Net)
        ensures
            net.wf(),
            net@ == NetView::empty(),
            net.room() == SLOT_LIMIT,
    {
        Net::new()
    }
}

} // verus!
