//! The net as a mathematical value, and what it means for it to be well
//! formed.

use vstd::prelude::*;

use crate::net::types::{PartialType, PartialTypeKey, Type};
use crate::net::Node;

verus! {

/// Where an edge-ref sits: in which edge, and at which index of its refs.
pub struct RefView {
    pub edge: u64,
    pub i: int,
}

/// An edge: its type handle, its attachment points and its nodes.
#[verifier::ext_equal]
pub struct EdgeView {
    pub type_key: u64,
    pub refs: Seq<u64>,
    pub nodes: Seq<Node>,
}

/// An equation without attachment points left, waiting to be reduced.
#[verifier::ext_equal]
pub struct RedexView {
    pub type_key: u64,
    pub nodes: Seq<Node>,
}

/// A place that holds nodes: a live edge, or a redex by its index.
pub enum Place {
    Edge(u64),
    Redex(int),
}

/// The state of a net.
#[verifier::ext_equal]
pub struct NetView {
    /// The type store.
    pub types: Map<u64, PartialType>,
    /// When each type handle was made: a handle only ever points to
    /// handles made after it.
    pub birth: Map<u64, nat>,
    /// The number of type handles made so far.
    pub clock: nat,
    /// The type handles in the order in which they were made, which is
    /// the order in which the type store is walked.
    pub order: Seq<u64>,
    /// The live edges.
    pub edges: Map<u64, EdgeView>,
    /// The live edge-refs.
    pub refs: Map<u64, RefView>,
    /// The redexes; the last one is reduced first.
    pub redexes: Seq<RedexView>,
    /// The next fan label.
    pub next_label: usize,
}

/// The endpoints of a list of nodes, in order.
pub open spec fn ends_of(nodes: Seq<Node>) -> Seq<u64>
    decreases nodes.len(),
{
    if nodes.len() == 0 {
        Seq::empty()
    } else {
        ends_of(nodes.drop_last()) + nodes.last().ends()
    }
}

/// What is left of `s` without the members of `gone`, in order.
pub open spec fn drop_all(s: Seq<u64>, gone: Seq<u64>) -> Seq<u64>
    decreases s.len(),
{
    if s.len() == 0 {
        Seq::empty()
    } else {
        let rest = drop_all(s.drop_last(), gone);
        if gone.contains(s.last()) {
            rest
        } else {
            rest.push(s.last())
        }
    }
}

/// A lambda or an application is among the nodes.
pub open spec fn has_cons(nodes: Seq<Node>) -> bool {
    exists|j: int| 0 <= j < nodes.len() && (#[trigger] nodes[j]).is_cons()
}

impl NetView {
    /// The net without anything in it.
    pub open spec fn empty() -> NetView {
        NetView {
            types: Map::empty(),
            birth: Map::empty(),
            clock: 0,
            order: Seq::empty(),
            edges: Map::empty(),
            refs: Map::empty(),
            redexes: Seq::empty(),
            next_label: 0,
        }
    }

    pub open spec fn has(self, p: Place) -> bool {
        match p {
            Place::Edge(e) => self.edges.dom().contains(e),
            Place::Redex(i) => 0 <= i < self.redexes.len(),
        }
    }

    pub open spec fn nodes_at(self, p: Place) -> Seq<Node> {
        match p {
            Place::Edge(e) => self.edges[e].nodes,
            Place::Redex(i) => self.redexes[i].nodes,
        }
    }

    pub open spec fn type_at(self, p: Place) -> u64 {
        match p {
            Place::Edge(e) => self.edges[e].type_key,
            Place::Redex(i) => self.redexes[i].type_key,
        }
    }

    pub open spec fn ends_at(self, p: Place) -> Seq<u64> {
        ends_of(self.nodes_at(p))
    }

    /// The type handle of the edge that the edge-ref `x` sits in.
    pub open spec fn handle_of(self, x: u64) -> u64 {
        self.edges[self.refs[x].edge].type_key
    }

    /// The edge-ref `x` is an endpoint of a node of the net.
    pub open spec fn held(self, x: u64) -> bool {
        exists|p: Place| self.has(p) && #[trigger] self.ends_at(p).contains(x)
    }

    /// The edge-ref `x` is live and no node of the net owns it: it is a
    /// variable in the hands of whoever builds the net.
    pub open spec fn is_free(self, x: u64) -> bool {
        self.refs.dom().contains(x) && !self.held(x)
    }

    /// Every handle has a birth, and points only to handles made after it:
    /// following handles always ends. The handles are walked each once.
    pub open spec fn types_wf(self) -> bool {
        &&& forall|k: u64| #[trigger]
            self.types.dom().contains(k) ==> self.birth.dom().contains(k) && self.birth[k]
                < self.clock && self.order.contains(k)
        &&& self.order.no_duplicates()
        &&& forall|i: int|
            0 <= i < self.order.len() ==> self.types.dom().contains(#[trigger] self.order[i])
        &&& forall|k: u64, c: u64|
            self.types.dom().contains(k) && #[trigger] self.types[k].points_to(c)
                ==> self.types.dom().contains(c) && self.birth[k] < self.birth[c]
    }

    /// Every edge and every redex has a type handle of its own, and that
    /// handle is still free.
    pub open spec fn handles_wf(self) -> bool {
        &&& forall|p: Place| #[trigger]
            self.has(p) ==> self.types.dom().contains(self.type_at(p)) && self.types[self.type_at(
                p,
            )] is Free
        &&& forall|p: Place, q: Place|
            #![trigger self.has(p), self.has(q)]
            self.has(p) && self.has(q) && self.type_at(p) == self.type_at(q) ==> p == q
    }

    /// Every edge-ref knows its edge and its index there, and every edge
    /// holds only edge-refs that point back to it.
    pub open spec fn refs_wf(self) -> bool {
        &&& forall|r: u64| #[trigger]
            self.refs.dom().contains(r) ==> self.edges.dom().contains(self.refs[r].edge) && 0
                <= self.refs[r].i < self.edges[self.refs[r].edge].refs.len()
                && self.edges[self.refs[r].edge].refs[self.refs[r].i] == r
        &&& forall|e: u64, j: int|
            self.edges.dom().contains(e) && 0 <= j < self.edges[e].refs.len()
                ==> self.refs.dom().contains(#[trigger] self.edges[e].refs[j])
                && self.refs[self.edges[e].refs[j]] == (RefView { edge: e, i: j })
    }

    /// There are finitely many edges; a live edge has an attachment point,
    /// and a redex has a node.
    pub open spec fn shapes_wf(self) -> bool {
        &&& self.edges.dom().finite()
        &&& forall|e: u64| #[trigger]
            self.edges.dom().contains(e) ==> self.edges[e].refs.len() >= 1
        &&& forall|i: int|
            0 <= i < self.redexes.len() ==> (#[trigger] self.redexes[i]).nodes.len() >= 1
    }

    /// Every endpoint of every node is a live edge-ref, and no edge-ref is
    /// an endpoint twice.
    pub open spec fn ends_wf(self) -> bool {
        &&& forall|p: Place| #[trigger] self.has(p) ==> self.ends_at(p).no_duplicates()
        &&& forall|p: Place, x: u64|
            self.has(p) && #[trigger] self.ends_at(p).contains(x) ==> self.refs.dom().contains(x)
        &&& forall|p: Place, q: Place, x: u64|
            self.has(p) && self.has(q) && #[trigger] self.ends_at(p).contains(x)
                && #[trigger] self.ends_at(q).contains(x) ==> p == q
    }

    /// The invariant of a net.
    pub open spec fn wf(self) -> bool {
        &&& self.types_wf()
        &&& self.handles_wf()
        &&& self.refs_wf()
        &&& self.shapes_wf()
        &&& self.ends_wf()
    }

    /// No redex is waiting.
    pub open spec fn is_reducible(self) -> bool {
        self.redexes.len() > 0
    }

    /// No edge is left: every equation was resolved.
    pub open spec fn is_equated(self) -> bool {
        forall|e: u64| !self.edges.dom().contains(e)
    }

    /// The handle `k` is in the store and is the type of no edge and of no
    /// redex: no operation of the net will write to it.
    pub open spec fn loose(self, k: u64) -> bool {
        self.types.dom().contains(k) && forall|p: Place| #[trigger] self.has(p) ==> self.type_at(p) != k
    }

    /// What an operation that uses up the variables `used` leaves alone:
    /// the other variables in the caller's hands stay there, no type handle
    /// goes away, and a handle that belongs to no edge and no redex stays
    /// so and keeps its type.
    pub open spec fn keeps(self, post: NetView, used: Seq<u64>) -> bool {
        &&& forall|x: u64|
            #![trigger post.is_free(x)]
            self.is_free(x) && !used.contains(x) ==> post.is_free(x)
        &&& forall|k: u64|
            #![trigger post.types.dom().contains(k)]
            self.types.dom().contains(k) ==> post.types.dom().contains(k)
        &&& forall|k: u64|
            #![trigger post.loose(k)]
            self.loose(k) ==> post.loose(k) && post.types[k] == self.types[k]
        &&& self.grows_to(post)
        &&& self.settled_in(post)
        &&& self.carries(post)
    }

    /// Every type that is not a variable any more is in `post` what it is
    /// here.
    pub open spec fn settled_in(self, post: NetView) -> bool {
        forall|k: u64|
            #![trigger post.types[k]]
            self.types.dom().contains(k) && !(self.types[k] is Free) ==> post.types[k]
                == self.types[k]
    }

    /// The handle at which the type of `k` shows its shape: the end of the
    /// chain of forwardings and marks that starts at `k`.
    pub open spec fn head_of(self, k: u64) -> u64
        decreases self.clock - self.birth[k],
        when self.types_wf() && self.types.dom().contains(k)
        via Self::head_of_ends
    {
        match self.types[k] {
            PartialType::Indirect(t) => self.head_of(t.id),
            PartialType::Cloneable { a } => self.head_of(a.id),
            PartialType::Uncloneable { a } => self.head_of(a.id),
            PartialType::Unsafe { a } => self.head_of(a.id),
            _ => k,
        }
    }

    #[via_fn]
    proof fn head_of_ends(self, k: u64) {
        match self.types[k] {
            PartialType::Indirect(t) => {
                assert(self.types[k].points_to(t.id));
            },
            PartialType::Cloneable { a } => {
                assert(self.types[k].points_to(a.id));
            },
            PartialType::Uncloneable { a } => {
                assert(self.types[k].points_to(a.id));
            },
            PartialType::Unsafe { a } => {
                assert(self.types[k].points_to(a.id));
            },
            _ => {},
        }
    }

    /// The type of `k` is an arrow under its marks, or will be one: the
    /// chain from `k` ends at an arrow, or at the type of an edge or of a
    /// redex that holds a lambda or an application.
    pub open spec fn arrow_bound(self, k: u64) -> bool {
        &&& self.types.dom().contains(k)
        &&& self.types[self.head_of(k)] is Arrow || exists|p: Place|
            #![trigger self.has(p)]
            self.has(p) && self.type_at(p) == self.head_of(k) && has_cons(self.nodes_at(p))
    }

    /// The type of every edge and redex that holds a lambda or an
    /// application is, or will be, an arrow in `post` too.
    pub open spec fn carries(self, post: NetView) -> bool {
        forall|p: Place|
            #![trigger self.has(p)]
            self.has(p) && has_cons(self.nodes_at(p)) ==> post.arrow_bound(self.type_at(p))
    }

    /// Every handle whose type is or will be an arrow here is so in `post`.
    pub open spec fn arrows_kept(self, post: NetView) -> bool {
        forall|k: u64| #![trigger post.arrow_bound(k)] self.arrow_bound(k) ==> post.arrow_bound(k)
    }

    /// The handles of `self` are handles of `post` with the births they
    /// had, and every other handle of `post` was made later.
    pub open spec fn grows_to(self, post: NetView) -> bool {
        &&& self.clock <= post.clock
        &&& forall|k: u64|
            #![trigger post.types.dom().contains(k)]
            self.types.dom().contains(k) ==> post.types.dom().contains(k)
        &&& forall|k: u64| #[trigger]
            post.types.dom().contains(k) ==> if self.types.dom().contains(k) {
                post.birth[k] == self.birth[k]
            } else {
                post.birth[k] >= self.clock
            }
    }

    /// The net with one more type handle `t`, a fresh type variable.
    pub open spec fn with_type(self, t: u64) -> NetView {
        NetView {
            types: self.types.insert(t, PartialType::Free(None)),
            birth: self.birth.insert(t, self.clock),
            clock: self.clock + 1,
            order: self.order.push(t),
            ..self
        }
    }

    /// The net with the type at handle `t` replaced.
    pub open spec fn with_type_set(self, t: u64, v: PartialType) -> NetView {
        NetView { types: self.types.insert(t, v), ..self }
    }

    /// The net with a new edge `e` of type `t`, holding `nodes` and the new
    /// edge-refs `rs`.
    pub open spec fn with_edge(self, t: u64, e: u64, rs: Seq<u64>, nodes: Seq<Node>) -> NetView {
        let typed = self.with_type(t);
        NetView {
            edges: typed.edges.insert(e, EdgeView { type_key: t, refs: rs, nodes }),
            refs: Map::new(
                |r: u64| typed.refs.dom().contains(r) || rs.contains(r),
                |r: u64|
                    if rs.contains(r) {
                        RefView { edge: e, i: rs.index_of(r) }
                    } else {
                        typed.refs[r]
                    },
            ),
            ..typed
        }
    }

    /// `post` is the net with one new edge of a fresh type that holds
    /// `nodes` and the new edge-refs `rs`.
    pub open spec fn makes_edge(self, rs: Seq<u64>, nodes: Seq<Node>, post: NetView) -> bool {
        exists|t: u64, e: u64|
            #![trigger self.with_edge(t, e, rs, nodes)]
            self.fresh(t, e, rs) && post == self.with_edge(t, e, rs, nodes)
    }

    /// `t`, `e` and the keys `rs` are new to the net, and `rs` are distinct.
    pub open spec fn fresh(self, t: u64, e: u64, rs: Seq<u64>) -> bool {
        &&& !self.types.dom().contains(t)
        &&& !self.edges.dom().contains(e)
        &&& rs.no_duplicates()
        &&& forall|j: int| 0 <= j < rs.len() ==> !self.refs.dom().contains(#[trigger] rs[j])
    }

    /// The nodes can be handed to the net: their endpoints are distinct
    /// variables in the caller's hands.
    pub open spec fn can_take(self, nodes: Seq<Node>) -> bool {
        &&& ends_of(nodes).no_duplicates()
        &&& forall|x: u64| #[trigger] ends_of(nodes).contains(x) ==> self.is_free(x)
    }

    /// The net after `link_var_node`: the edge-ref `v` leaves its edge,
    /// the edge-refs behind it move up by one, and `node` joins the nodes
    /// of the edge. An edge left without edge-refs becomes the last redex.
    pub open spec fn with_node_linked(self, v: u64, node: Node) -> NetView {
        let at = self.refs[v];
        let edge = self.edges[at.edge];
        let left = edge.refs.remove(at.i);
        let nodes = edge.nodes.push(node);
        let refs = Map::new(
            |r: u64| self.refs.dom().contains(r) && r != v,
            |r: u64|
                if self.refs[r].edge == at.edge && self.refs[r].i > at.i {
                    RefView { edge: at.edge, i: self.refs[r].i - 1 }
                } else {
                    self.refs[r]
                },
        );
        if left.len() == 0 {
            NetView {
                edges: self.edges.remove(at.edge),
                refs,
                redexes: self.redexes.push(RedexView { type_key: edge.type_key, nodes }),
                ..self
            }
        } else {
            NetView {
                edges: self.edges.insert(
                    at.edge,
                    EdgeView { type_key: edge.type_key, refs: left, nodes },
                ),
                refs,
                ..self
            }
        }
    }

    /// The edges that the edge-refs `vars` sit in, each once, in the order
    /// in which `vars` first reaches them.
    pub open spec fn edges_of(self, vars: Seq<u64>) -> Seq<u64>
        decreases vars.len(),
    {
        if vars.len() == 0 {
            Seq::empty()
        } else {
            let rest = self.edges_of(vars.drop_last());
            let e = self.refs[vars.last()].edge;
            if rest.contains(e) {
                rest
            } else {
                rest.push(e)
            }
        }
    }

    /// The nodes of the edges `es`, edge after edge.
    pub open spec fn nodes_of(self, es: Seq<u64>) -> Seq<Node>
        decreases es.len(),
    {
        if es.len() == 0 {
            Seq::empty()
        } else {
            self.nodes_of(es.drop_last()) + self.edges[es.last()].nodes
        }
    }

    /// The edge-refs of the edges `es`, edge after edge.
    pub open spec fn refs_of(self, es: Seq<u64>) -> Seq<u64>
        decreases es.len(),
    {
        if es.len() == 0 {
            Seq::empty()
        } else {
            self.refs_of(es.drop_last()) + self.edges[es.last()].refs
        }
    }

    /// `k` is the type handle of one of the edges `es`.
    pub open spec fn handle_among(self, es: Seq<u64>, k: u64) -> bool {
        exists|j: int| 0 <= j < es.len() && self.edges[#[trigger] es[j]].type_key == k
    }

    /// The variables `vars` and the nodes `nodes` can be linked: the
    /// variables and the endpoints of the nodes are distinct variables in
    /// the caller's hands.
    pub open spec fn can_link(self, nodes: Seq<Node>, vars: Seq<u64>) -> bool {
        &&& vars.no_duplicates()
        &&& forall|i: int| 0 <= i < vars.len() ==> self.is_free(#[trigger] vars[i])
        &&& self.can_take(nodes)
        &&& forall|i: int| 0 <= i < vars.len() ==> !ends_of(nodes).contains(#[trigger] vars[i])
    }

    /// The net after `link`: the edges of `vars` are merged into one
    /// equation of the fresh type `h`. It holds `nodes`, then the nodes of
    /// the merged edges, and the edge-refs of the merged edges but `vars`.
    /// The types of the merged edges forward to `h`. With an edge-ref left
    /// the equation is the new edge `e`; without one, and with a node, it
    /// is the last redex.
    pub open spec fn linked(self, nodes: Seq<Node>, vars: Seq<u64>, h: u64, e: u64) -> NetView {
        let es = self.edges_of(vars);
        let all_nodes = nodes + self.nodes_of(es);
        let kept = drop_all(self.refs_of(es), vars);
        let rest = Map::new(
            |x: u64| self.edges.dom().contains(x) && !es.contains(x),
            |x: u64| self.edges[x],
        );
        NetView {
            types: Map::new(
                |k: u64| k == h || self.types.dom().contains(k),
                |k: u64|
                    if k == h {
                        PartialType::Free(None)
                    } else if self.handle_among(es, k) {
                        PartialType::Indirect(PartialTypeKey { id: h })
                    } else {
                        self.types[k]
                    },
            ),
            birth: self.birth.insert(h, self.clock),
            clock: self.clock + 1,
            order: self.order.push(h),
            edges: if kept.len() > 0 {
                rest.insert(e, EdgeView { type_key: h, refs: kept, nodes: all_nodes })
            } else {
                rest
            },
            refs: Map::new(
                |r: u64| self.refs.dom().contains(r) && !vars.contains(r),
                |r: u64|
                    if es.contains(self.refs[r].edge) {
                        RefView { edge: e, i: kept.index_of(r) }
                    } else {
                        self.refs[r]
                    },
            ),
            redexes: if kept.len() == 0 && all_nodes.len() > 0 {
                self.redexes.push(RedexView { type_key: h, nodes: all_nodes })
            } else {
                self.redexes
            },
            next_label: self.next_label,
        }
    }

    /// The key `e` can name the edge that `link` makes: no edge that stays
    /// has it.
    pub open spec fn unused_edge(self, vars: Seq<u64>, e: u64) -> bool {
        !self.edges.dom().contains(e) || self.edges_of(vars).contains(e)
    }

    /// The edge-refs that stay when `vars` are linked.
    pub open spec fn kept_refs(self, vars: Seq<u64>) -> Seq<u64> {
        drop_all(self.refs_of(self.edges_of(vars)), vars)
    }

    /// `post` is the net after `link` with the fresh type `h`.
    pub open spec fn links(self, nodes: Seq<Node>, vars: Seq<u64>, h: u64, post: NetView) -> bool {
        &&& !self.types.dom().contains(h)
        &&& exists|e: u64|
            #![trigger self.linked(nodes, vars, h, e)]
            (self.kept_refs(vars).len() > 0 ==> self.unused_edge(vars, e)) && post == self.linked(
                nodes,
                vars,
                h,
                e,
            )
    }

    /// The net without its last redex.
    pub open spec fn popped(self) -> NetView {
        NetView { redexes: self.redexes.drop_last(), ..self }
    }

    /// Every type variable has its number.
    pub open spec fn numbered(self) -> bool {
        forall|k: u64| #[trigger]
            self.types.dom().contains(k) ==> (self.types[k] matches PartialType::Free(slot)
                ==> slot is Some)
    }

    /// The closed type that the handle `k` stands for, in a net whose type
    /// variables are numbered.
    pub open spec fn closed_type(self, k: u64) -> Type
        decreases self.clock - self.birth[k],
        when self.types_wf() && self.types.dom().contains(k)
        via Self::closed_type_ends
    {
        match self.types[k] {
            PartialType::Arrow { a, b } => Type::Arrow {
                a: Box::new(self.closed_type(a.id)),
                b: Box::new(self.closed_type(b.id)),
            },
            PartialType::Cloneable { a } => Type::Cloneable { a: Box::new(self.closed_type(a.id)) },
            PartialType::Uncloneable { a } => Type::Uncloneable {
                a: Box::new(self.closed_type(a.id)),
            },
            PartialType::Unsafe { a } => Type::Unsafe { a: Box::new(self.closed_type(a.id)) },
            PartialType::Indirect(t) => self.closed_type(t.id),
            PartialType::Free(slot) => Type::Var(slot.unwrap()),
        }
    }

    #[via_fn]
    proof fn closed_type_ends(self, k: u64) {
        match self.types[k] {
            PartialType::Arrow { a, b } => {
                assert(self.types[k].points_to(a.id));
                assert(self.types[k].points_to(b.id));
            },
            PartialType::Cloneable { a } => {
                assert(self.types[k].points_to(a.id));
            },
            PartialType::Uncloneable { a } => {
                assert(self.types[k].points_to(a.id));
            },
            PartialType::Unsafe { a } => {
                assert(self.types[k].points_to(a.id));
            },
            PartialType::Indirect(t) => {
                assert(self.types[k].points_to(t.id));
            },
            PartialType::Free(slot) => {},
        }
    }

    /// The handle at the end of the forwarding chain that starts at `k`.
    pub open spec fn root_of(self, k: u64) -> u64
        decreases self.clock - self.birth[k],
        when self.types_wf() && self.types.dom().contains(k)
        via Self::root_of_ends
    {
        match self.types[k] {
            PartialType::Indirect(t) => self.root_of(t.id),
            _ => k,
        }
    }

    #[via_fn]
    proof fn root_of_ends(self, k: u64) {
        match self.types[k] {
            PartialType::Indirect(t) => {
                assert(self.types[k].points_to(t.id));
            },
            _ => {},
        }
    }

    /// The type variables that the handles `order` forward to, each once,
    /// in the order in which `order` first reaches them.
    pub open spec fn free_roots(self, order: Seq<u64>) -> Seq<u64>
        decreases order.len(),
    {
        if order.len() == 0 {
            Seq::empty()
        } else {
            let rest = self.free_roots(order.drop_last());
            let r = self.root_of(order.last());
            if self.types[r] is Free && !rest.contains(r) {
                rest.push(r)
            } else {
                rest
            }
        }
    }

    /// The net with its type variables numbered 0, 1, 2, ... in the order
    /// in which the handles `order` first reach them through forwarding.
    pub open spec fn with_free_numbered(self, order: Seq<u64>) -> NetView {
        NetView {
            types: Map::new(
                |k: u64| self.types.dom().contains(k),
                |k: u64|
                    if self.types[k] is Free {
                        PartialType::Free(Some(self.free_roots(order).index_of(k) as usize))
                    } else {
                        self.types[k]
                    },
            ),
            ..self
        }
    }

    /// The net after `add_var`: the edge of `v` has the new edge-ref `r` at
    /// the end of its refs.
    pub open spec fn with_ref_added(self, v: u64, r: u64) -> NetView {
        let e = self.refs[v].edge;
        let edge = self.edges[e];
        NetView {
            edges: self.edges.insert(e, EdgeView { refs: edge.refs.push(r), ..edge }),
            refs: self.refs.insert(r, RefView { edge: e, i: edge.refs.len() as int }),
            ..self
        }
    }
}

} // verus!
