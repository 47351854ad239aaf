//! Why the type of a lambda is an arrow: a handle whose type will be an
//! arrow stays so through every operation.

use vstd::prelude::*;

use crate::net::model::{has_cons, NetView, Place, RedexView};
use crate::net::types::{PartialType, PartialTypeKey};
use crate::net::Node;

verus! {

/// A list that holds a lambda or an application holds it still with nodes
/// before or behind it.
pub proof fn lemma_has_cons_concat(a: Seq<Node>, b: Seq<Node>)
    ensures
        has_cons(a) ==> has_cons(a + b),
        has_cons(b) ==> has_cons(a + b),
{
    if has_cons(a) {
        let j = choose|j: int| 0 <= j < a.len() && (#[trigger] a[j]).is_cons();
        assert((a + b)[j].is_cons());
    }
    if has_cons(b) {
        let j = choose|j: int| 0 <= j < b.len() && (#[trigger] b[j]).is_cons();
        assert((a + b)[a.len() + j].is_cons());
    }
}

/// The chain of a handle ends at a handle of the store whose type is an
/// arrow or a variable, and goes through what the handle points to.
pub proof fn lemma_head_of(v: NetView, k: u64)
    requires
        v.types_wf(),
        v.types.dom().contains(k),
    ensures
        v.types.dom().contains(v.head_of(k)),
        v.types[v.head_of(k)] is Arrow || v.types[v.head_of(k)] is Free,
        v.head_of(v.head_of(k)) == v.head_of(k),
    decreases v.clock - v.birth[k],
{
    match v.types[k] {
        PartialType::Indirect(t) => {
            assert(v.types[k].points_to(t.id));
            lemma_head_of(v, t.id);
        },
        PartialType::Cloneable { a } => {
            assert(v.types[k].points_to(a.id));
            lemma_head_of(v, a.id);
        },
        PartialType::Uncloneable { a } => {
            assert(v.types[k].points_to(a.id));
            lemma_head_of(v, a.id);
        },
        PartialType::Unsafe { a } => {
            assert(v.types[k].points_to(a.id));
            lemma_head_of(v, a.id);
        },
        _ => {},
    }
}

/// Where the types that are no variables stay as they are, the chain of a
/// handle goes on from where it ended.
pub proof fn lemma_head_kept(a: NetView, b: NetView, k: u64)
    requires
        a.types_wf(),
        b.types_wf(),
        a.grows_to(b),
        a.settled_in(b),
        a.types.dom().contains(k),
    ensures
        b.head_of(k) == b.head_of(a.head_of(k)),
    decreases a.clock - a.birth[k],
{
    assert(b.types.dom().contains(k));
    match a.types[k] {
        PartialType::Indirect(t) => {
            assert(a.types[k].points_to(t.id));
            assert(b.types[k] == a.types[k]);
            lemma_head_kept(a, b, t.id);
        },
        PartialType::Cloneable { a: t } => {
            assert(a.types[k].points_to(t.id));
            assert(b.types[k] == a.types[k]);
            lemma_head_kept(a, b, t.id);
        },
        PartialType::Uncloneable { a: t } => {
            assert(a.types[k].points_to(t.id));
            assert(b.types[k] == a.types[k]);
            lemma_head_kept(a, b, t.id);
        },
        PartialType::Unsafe { a: t } => {
            assert(a.types[k].points_to(t.id));
            assert(b.types[k] == a.types[k]);
            lemma_head_kept(a, b, t.id);
        },
        _ => {},
    }
}

/// An operation that leaves the settled types alone and carries the types
/// of the edges and redexes with lambdas and applications keeps every
/// handle on its way to an arrow.
pub proof fn lemma_arrows_kept(a: NetView, b: NetView)
    requires
        a.types_wf(),
        b.types_wf(),
        a.grows_to(b),
        a.settled_in(b),
        a.carries(b),
    ensures
        a.arrows_kept(b),
{
    assert forall|k: u64| #![trigger b.arrow_bound(k)] a.arrow_bound(k) implies b.arrow_bound(k) by {
        let x = a.head_of(k);
        lemma_head_of(a, k);
        lemma_head_kept(a, b, k);
        assert(b.types.dom().contains(k));
        assert(b.types.dom().contains(x));
        if a.types[x] is Arrow {
            assert(b.types[x] == a.types[x]);
            assert(b.head_of(x) == x);
        } else {
            let p = choose|p: Place|
                #![trigger a.has(p)]
                a.has(p) && a.type_at(p) == x && has_cons(a.nodes_at(p));
            assert(b.arrow_bound(a.type_at(p)));
        }
    }
}

/// Two operations in a row that each keep the handles on their way keep
/// them.
pub proof fn lemma_arrows_kept_chain(a: NetView, b: NetView, c: NetView)
    requires
        a.arrows_kept(b),
        b.arrows_kept(c),
    ensures
        a.arrows_kept(c),
{
    assert forall|k: u64| #![trigger c.arrow_bound(k)] a.arrow_bound(k) implies c.arrow_bound(k) by {
        assert(b.arrow_bound(k));
    }
}

/// The type of an edge or a redex that holds a lambda or an application
/// will be an arrow.
pub proof fn lemma_bound_at(v: NetView, p: Place)
    requires
        v.wf(),
        v.has(p),
        has_cons(v.nodes_at(p)),
    ensures
        v.arrow_bound(v.type_at(p)),
{
    let x = v.type_at(p);
    assert(v.types.dom().contains(x) && v.types[x] is Free);
    assert(v.head_of(x) == x);
}

/// A handle that forwards to one whose type will be an arrow has a type
/// that will be an arrow.
pub proof fn lemma_bound_through(v: NetView, k: u64, t: u64)
    requires
        v.types_wf(),
        v.types.dom().contains(k),
        v.types[k] == PartialType::Indirect(PartialTypeKey { id: t }) || v.types[k]
            == (PartialType::Cloneable { a: PartialTypeKey { id: t } }) || v.types[k]
            == (PartialType::Uncloneable { a: PartialTypeKey { id: t } }) || v.types[k]
            == (PartialType::Unsafe { a: PartialTypeKey { id: t } }),
        v.arrow_bound(t),
    ensures
        v.arrow_bound(k),
{
    assert(v.types[k].points_to(t));
    assert(v.head_of(k) == v.head_of(t));
}

/// A handle whose chain ends at an arrow stands for an arrow under marks.
pub proof fn lemma_arrow_type(v: NetView, k: u64)
    requires
        v.types_wf(),
        v.types.dom().contains(k),
        v.types[v.head_of(k)] is Arrow,
    ensures
        v.closed_type(k).arg_of() is Some,
    decreases v.clock - v.birth[k],
{
    match v.types[k] {
        PartialType::Indirect(t) => {
            assert(v.types[k].points_to(t.id));
            lemma_arrow_type(v, t.id);
        },
        PartialType::Cloneable { a } => {
            assert(v.types[k].points_to(a.id));
            lemma_arrow_type(v, a.id);
        },
        PartialType::Uncloneable { a } => {
            assert(v.types[k].points_to(a.id));
            lemma_arrow_type(v, a.id);
        },
        PartialType::Unsafe { a } => {
            assert(v.types[k].points_to(a.id));
            lemma_arrow_type(v, a.id);
        },
        PartialType::Arrow { a, b } => {
            assert(v.types[k].points_to(a.id));
            assert(v.types[k].points_to(b.id));
        },
        PartialType::Free(_) => {},
    }
}

/// What carries the types of the edges and redexes with lambdas and
/// applications: every such place has a place in `post` that holds a
/// lambda or an application and has its type, which is free still, or a
/// free type that the type of the place now forwards to.
pub proof fn lemma_carries(pre: NetView, post: NetView)
    requires
        pre.wf(),
        post.wf(),
        forall|p: Place|
            #![trigger pre.has(p)]
            pre.has(p) && has_cons(pre.nodes_at(p)) ==> exists|q: Place|
                #![trigger post.has(q)]
                post.has(q) && has_cons(post.nodes_at(q)) && (post.type_at(q) == pre.type_at(p)
                    || post.types[pre.type_at(p)] == PartialType::Indirect(
                    PartialTypeKey { id: post.type_at(q) },
                )) && post.types.dom().contains(pre.type_at(p)),
    ensures
        pre.carries(post),
{
    assert forall|p: Place|
        #![trigger pre.has(p)]
        pre.has(p) && has_cons(pre.nodes_at(p)) implies post.arrow_bound(pre.type_at(p)) by {
        let q = choose|q: Place|
            #![trigger post.has(q)]
            post.has(q) && has_cons(post.nodes_at(q)) && (post.type_at(q) == pre.type_at(p)
                || post.types[pre.type_at(p)] == PartialType::Indirect(
                PartialTypeKey { id: post.type_at(q) },
            )) && post.types.dom().contains(pre.type_at(p));
        lemma_bound_at(post, q);
        if post.type_at(q) != pre.type_at(p) {
            lemma_bound_through(post, pre.type_at(p), post.type_at(q));
        }
    }
}

impl NetView {
    /// Every chain that ends at the handle `h` here ends there in `post`.
    pub open spec fn heads_at(self, post: NetView, h: u64) -> bool {
        forall|k: u64|
            #![trigger post.head_of(k)]
            self.types.dom().contains(k) && self.head_of(k) == h ==> post.head_of(k) == h
    }

    /// What resolving a redex of type `h` and nodes `nodes` keeps: every
    /// handle on its way to an arrow is so in `post`, and if the redex
    /// held a lambda or an application, so is every handle whose chain
    /// ended at `h`.
    pub open spec fn resolves(self, h: u64, nodes: Seq<Node>, post: NetView) -> bool {
        &&& self.arrows_kept(post)
        &&& has_cons(nodes) ==> forall|k: u64|
            #![trigger post.arrow_bound(k)]
            self.types.dom().contains(k) && self.head_of(k) == h ==> post.arrow_bound(k)
    }
}

/// Where the settled types stay and `h` stays a variable, every chain that
/// ended at `h` ends there still.
pub proof fn lemma_heads_at(a: NetView, b: NetView, h: u64)
    requires
        a.types_wf(),
        b.types_wf(),
        a.grows_to(b),
        a.settled_in(b),
        b.types.dom().contains(h),
        b.types[h] is Free,
    ensures
        a.heads_at(b, h),
{
    assert forall|k: u64|
        #![trigger b.head_of(k)]
        a.types.dom().contains(k) && a.head_of(k) == h implies b.head_of(k) == h by {
        lemma_head_kept(a, b, k);
    }
}

/// Chains that end at `h` through two operations in a row.
pub proof fn lemma_heads_at_chain(a: NetView, b: NetView, c: NetView, h: u64)
    requires
        a.grows_to(b),
        a.heads_at(b, h),
        b.heads_at(c, h),
    ensures
        a.heads_at(c, h),
{
    assert forall|k: u64|
        #![trigger c.head_of(k)]
        a.types.dom().contains(k) && a.head_of(k) == h implies c.head_of(k) == h by {
        assert(b.head_of(k) == h);
        assert(b.types.dom().contains(k));
    }
}

/// Writing a type to a variable that belongs to nothing keeps every handle
/// on its way to an arrow, and sends the chains that ended at the variable
/// on to where that of the variable now ends.
pub proof fn lemma_set_arrows(pre: NetView, h: u64, v: PartialType)
    requires
        pre.wf(),
        pre.with_type_set(h, v).wf(),
        pre.loose(h),
        pre.types[h] is Free,
    ensures
        pre.arrows_kept(pre.with_type_set(h, v)),
        forall|k: u64|
            pre.types.dom().contains(k) && pre.head_of(k) == h ==> #[trigger] pre.with_type_set(
                h,
                v,
            ).head_of(k) == pre.with_type_set(h, v).head_of(h),
{
    let post = pre.with_type_set(h, v);
    assert(pre.settled_in(post));
    assert(pre.grows_to(post)) by {
        assert(post.types.dom() =~= pre.types.dom());
    }
    assert forall|k: u64| #![trigger post.arrow_bound(k)] pre.arrow_bound(k) implies post.arrow_bound(
        k,
    ) by {
        let x = pre.head_of(k);
        lemma_head_of(pre, k);
        lemma_head_kept(pre, post, k);
        if pre.types[x] is Arrow {
            assert(x != h);
            assert(post.types[x] == pre.types[x]);
            assert(post.head_of(x) == x);
        } else {
            let p = choose|p: Place|
                #![trigger pre.has(p)]
                pre.has(p) && pre.type_at(p) == x && has_cons(pre.nodes_at(p));
            assert(x != h);
            assert(post.types[x] == pre.types[x]);
            assert(post.head_of(x) == x);
            assert(post.has(p) && post.type_at(p) == x && post.nodes_at(p) == pre.nodes_at(p));
        }
    }
    assert forall|k: u64| pre.types.dom().contains(k) && pre.head_of(k) == h implies #[trigger] post.head_of(
        k,
    ) == post.head_of(h) by {
        lemma_head_kept(pre, post, k);
    }
}

/// The end of a reduction step: with the type of the redex written, every
/// handle that was on its way to an arrow, through the redex or not, is
/// so still.
pub proof fn lemma_resolved(s0: NetView, s: NetView, h: u64, nodes: Seq<Node>, v: PartialType)
    requires
        s0.wf(),
        s.wf(),
        s.with_type_set(h, v).wf(),
        s0.grows_to(s),
        s0.arrows_kept(s),
        s0.heads_at(s, h),
        s.loose(h),
        s.types[h] is Free,
        has_cons(nodes) ==> v is Arrow || ((v matches PartialType::Cloneable { a } && s.arrow_bound(
            a.id,
        )) || (v matches PartialType::Uncloneable { a } && s.arrow_bound(a.id)) || (
        v matches PartialType::Unsafe { a } && s.arrow_bound(a.id))),
    ensures
        s0.resolves(h, nodes, s.with_type_set(h, v)),
{
    let post = s.with_type_set(h, v);
    lemma_set_arrows(s, h, v);
    lemma_arrows_kept_chain(s0, s, post);
    if has_cons(nodes) {
        assert(post.arrow_bound(h)) by {
            match v {
                PartialType::Arrow { a, b } => {
                    assert(post.head_of(h) == h);
                },
                PartialType::Cloneable { a } => {
                    assert(post.arrow_bound(a.id));
                    lemma_bound_through(post, h, a.id);
                },
                PartialType::Uncloneable { a } => {
                    assert(post.arrow_bound(a.id));
                    lemma_bound_through(post, h, a.id);
                },
                PartialType::Unsafe { a } => {
                    assert(post.arrow_bound(a.id));
                    lemma_bound_through(post, h, a.id);
                },
                _ => {},
            }
        }
        assert forall|k: u64|
            #![trigger post.arrow_bound(k)]
            s0.types.dom().contains(k) && s0.head_of(k) == h implies post.arrow_bound(k) by {
            assert(s.head_of(k) == h);
            assert(s.types.dom().contains(k));
            assert(post.head_of(k) == post.head_of(h));
        }
    }
}

/// The redex that linking nodes without variables makes.
pub proof fn lemma_links_nodes(pre: NetView, nodes: Seq<Node>, h: u64, post: NetView)
    requires
        pre.links(nodes, Seq::empty(), h, post),
        nodes.len() > 0,
    ensures
        post.redexes == pre.redexes.push(RedexView { type_key: h, nodes }),
{
    let none = Seq::<u64>::empty();
    let e = choose|e: u64|
        #![trigger pre.linked(nodes, none, h, e)]
        (pre.kept_refs(none).len() > 0 ==> pre.unused_edge(none, e)) && post == pre.linked(
            nodes,
            none,
            h,
            e,
        );
    assert(pre.edges_of(none) =~= Seq::<u64>::empty());
    assert(pre.nodes_of(Seq::<u64>::empty()) =~= Seq::<Node>::empty());
    assert(pre.refs_of(Seq::<u64>::empty()) =~= Seq::<u64>::empty());
    assert(crate::net::model::drop_all(Seq::<u64>::empty(), none) =~= Seq::<u64>::empty());
    assert(nodes + Seq::<Node>::empty() =~= nodes);
}

} // verus!
