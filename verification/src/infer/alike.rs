//! Inference does not depend on the keys that the arenas hand out: two
//! runs on one term give nets that differ in the names of their keys
//! only, and so the same types with the same numbers.

use vstd::prelude::*;

use crate::infer::{
    all_safe, fan_marks, infers, lemma_typed_in_grows, solo_ref, type_at_root, Built,
};
use crate::lambda::Expr;
use crate::net::iso::{
    lemma_alike_equated, lemma_alike_same_types, lemma_carries_chain, lemma_like_labelled,
    lemma_like_links, lemma_like_makes_edge, lemma_like_with_node_linked,
    lemma_like_with_ref_added, node_like, nodes_like, renamed, Renaming,
};
use crate::net::laws::{
    lemma_ends_of_one, lemma_keeps_chain, lemma_wf_ignores_label, lemma_with_node_linked,
    lemma_with_ref_added,
};
use crate::net::measure::{
    edge_weight, edge_weights, lemma_weight_links, lemma_weight_makes_edge, lemma_weight_node_linked,
    lemma_weight_ref_added,
};
use crate::net::model::{ends_of, NetView, Place};
use crate::net::reduce::{duo, lemma_reduces_in_next, no_nodes, no_vars, solo};
use crate::net::steps::{lemma_in_duo, lemma_keeps_same, lemma_like_reduces_in};
use crate::net::types::PartialTypeKey;
use crate::net::Node;

verus! {

/// The handle `k2` is the handle `k1`, renamed.
pub open spec fn key_like(
    k1: Option<PartialTypeKey>,
    k2: Option<PartialTypeKey>,
    types: Map<u64, u64>,
) -> bool {
    match k1 {
        Some(x) => k2 matches Some(y) && y.id == types[x.id],
        None => k2 is None,
    }
}

impl Expr {
    /// The term `other` is this term with its type handles renamed.
    pub open spec fn like(self, other: Expr, types: Map<u64, u64>) -> bool
        decreases self,
    {
        match self {
            Expr::Lam(body, k) => other matches Expr::Lam(body2, k2) && body.like(*body2, types)
                && key_like(k, k2, types),
            Expr::App(f, v, k) => other matches Expr::App(f2, v2, k2) && f.like(*f2, types)
                && v.like(*v2, types) && key_like(k, k2, types),
            Expr::Var(i, k) => other matches Expr::Var(i2, k2) && i == i2 && key_like(
                k,
                k2,
                types,
            ),
        }
    }
}

/// Terms that are alike stay so under names that agree on their handles.
pub proof fn lemma_term_like_agree(
    t1: Expr,
    t2: Expr,
    old: Map<u64, u64>,
    new: Map<u64, u64>,
    dom: Set<u64>,
)
    requires
        t1.like(t2, old),
        t1.typed_in(dom),
        forall|k: u64| dom.contains(k) ==> #[trigger] new[k] == old[k],
    ensures
        t1.like(t2, new),
    decreases t1,
{
    match t1 {
        Expr::Lam(body, _) => {
            match t2 {
                Expr::Lam(body2, _) => {
                    lemma_term_like_agree(*body, *body2, old, new, dom);
                },
                _ => {},
            }
        },
        Expr::App(f, v, _) => {
            match t2 {
                Expr::App(f2, v2, _) => {
                    lemma_term_like_agree(*f, *f2, old, new, dom);
                    lemma_term_like_agree(*v, *v2, old, new, dom);
                },
                _ => {},
            }
        },
        Expr::Var(_, _) => {},
    }
}

/// In like nets the edges of like edge-refs have like type handles.
pub proof fn lemma_like_handle(a: NetView, b: NetView, names: Renaming, r: u64)
    requires
        a.wf(),
        a.alike(b, names),
        a.refs.dom().contains(r),
    ensures
        b.handle_of(names.refs[r]) == names.types[a.handle_of(r)],
        a.types.dom().contains(a.handle_of(r)),
{
    let e = a.refs[r].edge;
    assert(a.edges.dom().contains(e));
    assert(a.has(Place::Edge(e)));
    assert(a.type_at(Place::Edge(e)) == a.handle_of(r));
    assert(b.refs[names.refs[r]].edge == names.edges[e]);
    assert(b.edges[names.edges[e]].type_key == names.types[a.edges[e].type_key]);
}

/// Like nets in which like parameters were made ready are alike.
pub proof fn lemma_like_fans(
    a: NetView,
    b: NetView,
    names: Renaming,
    occurrences: nat,
    v: u64,
    out: u64,
    a2: NetView,
    out2: u64,
    b2: NetView,
) -> (next: Renaming)
    requires
        a.wf(),
        a.alike(b, names),
        a.is_free(v),
        a.fans(occurrences, v, out, a2),
        b.fans(occurrences, names.refs[v], out2, b2),
    ensures
        a2.wf(),
        a.keeps(a2, solo_ref(v)),
        a2.alike(b2, next),
        next.carries(names, a, solo_ref(v)),
        a2.is_free(out),
        next.refs[out] == out2,
        forall|x: u64| a.is_free(x) && x != v ==> x != out,
        forall|x: u64| a.is_free(x) && x != v ==> a2.is_free(x),
        a2.weight() <= a.weight() + 1,
{
    assert(solo_ref(v)[0] == v);
    assert forall|x: u64| x != v implies !solo_ref(v).contains(x) by {}
    if occurrences < 2 {
        lemma_keeps_same(a, solo_ref(v));
        names
    } else {
        let (s1, a1, h) = choose|s1: NetView, a1: u64, h: u64|
            #![trigger
                a.labelled().makes_edge(duo(a1, out), no_nodes(), s1),
                s1.links(fan_marks(), duo(v, a1), h, a2)
            ]
            a.labelled().makes_edge(duo(a1, out), no_nodes(), s1) && s1.links(
                fan_marks(),
                duo(v, a1),
                h,
                a2,
            );
        let v2 = names.refs[v];
        let (t1, c1, h2) = choose|t1: NetView, c1: u64, h2: u64|
            #![trigger
                b.labelled().makes_edge(duo(c1, out2), no_nodes(), t1),
                t1.links(fan_marks(), duo(v2, c1), h2, b2)
            ]
            b.labelled().makes_edge(duo(c1, out2), no_nodes(), t1) && t1.links(
                fan_marks(),
                duo(v2, c1),
                h2,
                b2,
            );
        let label = (a.next_label + 1) as usize;
        lemma_wf_ignores_label(a, label);
        lemma_like_labelled(a, b, names, label);
        let a0 = a.labelled();
        let b0 = b.labelled();
        assert(a0 == NetView { next_label: label, ..a });
        assert(b0 == NetView { next_label: label, ..b });
        assert(ends_of(no_nodes()) =~= Seq::<u64>::empty());
        assert(ends_of(fan_marks()) =~= Seq::<u64>::empty()) by {
            assert(fan_marks().drop_last() =~= Seq::<Node>::empty());
        }
        assert(a0.is_free(v));
        let n1 = lemma_like_makes_edge(
            a0,
            b0,
            names,
            duo(a1, out),
            no_nodes(),
            s1,
            duo(c1, out2),
            no_nodes(),
            t1,
        );
        assert(duo(a1, out)[0] == a1 && duo(a1, out)[1] == out);
        assert(duo(c1, out2)[0] == c1 && duo(c1, out2)[1] == out2);
        assert(s1.is_free(a1) && s1.is_free(out) && a1 != out);
        assert(a0.refs.dom().contains(v));
        assert(s1.is_free(v));
        assert(n1.refs[v] == v2);
        assert(n1.refs[a1] == c1);
        assert(s1.can_link(fan_marks(), duo(v, a1))) by {
            assert(duo(v, a1)[0] == v && duo(v, a1)[1] == a1);
        }
        assert(nodes_like(fan_marks(), fan_marks(), n1.refs)) by {
            assert forall|i: int| 0 <= i < fan_marks().len() implies node_like(
                #[trigger] fan_marks()[i],
                fan_marks()[i],
                n1.refs,
            ) by {
                assert(fan_marks()[i].ends() =~= renamed(fan_marks()[i].ends(), n1.refs));
            }
        }
        assert(renamed(duo(v, a1), n1.refs) =~= duo(v2, c1));
        assert(s1.weight() <= a.weight() + 1 && a2.weight() <= s1.weight() + 1 && a2.weight()
            <= a.weight() + 1) by {
            lemma_weight_makes_edge(a0, duo(a1, out), no_nodes(), s1);
            lemma_weight_links(s1, fan_marks(), duo(v, a1), h, a2);
            assert(edge_weight(no_nodes()) == 0);
            assert(edge_weight(fan_marks()) == 1) by {
                assert(fan_marks().drop_last() =~= Seq::<Node>::empty());
            }
            assert(a0.weight() == a.weight());
        }
        let n2 = lemma_like_links(
            s1,
            t1,
            n1,
            fan_marks(),
            duo(v, a1),
            h,
            a2,
            fan_marks(),
            h2,
            b2,
        );
        let used = ends_of(fan_marks()) + duo(v, a1);
        assert(used =~= duo(v, a1));
        assert forall|x: u64| a.is_free(x) && !solo_ref(v).contains(x) implies !Seq::<
            u64,
        >::empty().contains(x) && !used.contains(x) by {
            lemma_in_duo(v, a1, x);
            assert(x != v);
        }
        assert(a.keeps(a0, Seq::<u64>::empty()));
        lemma_keeps_chain(a, a0, s1, Seq::<u64>::empty(), Seq::<u64>::empty(), Seq::<u64>::empty());
        lemma_keeps_chain(a, s1, a2, Seq::<u64>::empty(), used, solo_ref(v));
        assert(n1.carries(names, a, Seq::<u64>::empty())) by {
            assert forall|r: u64| a.is_free(r) implies a0.is_free(r) by {}
        }
        lemma_carries_chain(names, n1, n2, a, s1, Seq::<u64>::empty(), used, solo_ref(v));
        assert(a2.is_free(out)) by {
            lemma_in_duo(v, a1, out);
            assert(!a0.refs.dom().contains(out));
        }
        assert(n2.refs[out] == out2) by {
            lemma_in_duo(v, a1, out);
        }
        assert forall|x: u64| a.is_free(x) && x != v implies x != out && a2.is_free(x) by {
            assert(a0.refs.dom().contains(x));
        }
        n2
    }
}

/// Like nets in which like applications were put on top of like
/// functions and arguments are alike.
pub proof fn lemma_like_app_glue(
    a: NetView,
    b: NetView,
    names: Renaming,
    fun: u64,
    arg: u64,
    root: u64,
    a2: NetView,
    root2: u64,
    b2: NetView,
) -> (next: Renaming)
    requires
        a.wf(),
        a.alike(b, names),
        a.is_free(fun),
        a.is_free(arg),
        fun != arg,
        a.app_glue(fun, arg, root, a2),
        b.app_glue(names.refs[fun], names.refs[arg], root2, b2),
    ensures
        a2.wf(),
        a.keeps(a2, duo(fun, arg)),
        a2.alike(b2, next),
        next.carries(names, a, duo(fun, arg)),
        a2.is_free(root),
        !a.refs.dom().contains(root),
        next.refs[root] == root2,
        a2.weight() <= a.weight() + 3,
{
    let (s1, w1, node) = choose|s1: NetView, w1: u64, node: Node|
        #![trigger a.makes_edge(duo(w1, root), no_nodes(), s1), s1.with_node_linked(fun, node)]
        a.makes_edge(duo(w1, root), no_nodes(), s1) && node is App && node.ends() == duo(arg, w1)
            && a2 == s1.with_node_linked(fun, node);
    let fun2 = names.refs[fun];
    let arg2 = names.refs[arg];
    let (t1, x1, node2) = choose|t1: NetView, x1: u64, node2: Node|
        #![trigger b.makes_edge(duo(x1, root2), no_nodes(), t1), t1.with_node_linked(fun2, node2)]
        b.makes_edge(duo(x1, root2), no_nodes(), t1) && node2 is App && node2.ends() == duo(
            arg2,
            x1,
        ) && b2 == t1.with_node_linked(fun2, node2);
    assert(ends_of(no_nodes()) =~= Seq::<u64>::empty());
    let n1 = lemma_like_makes_edge(
        a,
        b,
        names,
        duo(w1, root),
        no_nodes(),
        s1,
        duo(x1, root2),
        no_nodes(),
        t1,
    );
    assert(duo(w1, root)[0] == w1 && duo(w1, root)[1] == root);
    assert(duo(x1, root2)[0] == x1 && duo(x1, root2)[1] == root2);
    assert(s1.is_free(w1) && s1.is_free(root) && w1 != root);
    assert(a.refs.dom().contains(fun) && a.refs.dom().contains(arg));
    assert(s1.is_free(fun) && s1.is_free(arg));
    assert(n1.refs[fun] == fun2 && n1.refs[arg] == arg2);
    lemma_ends_of_one(node);
    assert(duo(arg, w1)[0] == arg && duo(arg, w1)[1] == w1);
    assert(s1.can_take(solo(node))) by {
        assert forall|z: u64| #[trigger] ends_of(solo(node)).contains(z) implies s1.is_free(z) by {
            lemma_in_duo(arg, w1, z);
        }
    }
    assert(!node.ends().contains(fun)) by {
        lemma_in_duo(arg, w1, fun);
    }
    assert(solo(node) =~= seq![node]);
    lemma_with_node_linked(s1, fun, node);
    assert(a2.weight() <= a.weight() + 3) by {
        lemma_weight_makes_edge(a, duo(w1, root), no_nodes(), s1);
        lemma_weight_node_linked(s1, fun, node);
        assert(edge_weight(no_nodes()) == 0);
    }
    assert(node_like(node, node2, n1.refs)) by {
        assert(renamed(duo(arg, w1), n1.refs) =~= duo(arg2, x1));
    }
    lemma_like_with_node_linked(s1, t1, n1, fun, node, node2);
    let used = node.ends().push(fun);
    assert forall|x: u64| a.is_free(x) && !duo(fun, arg).contains(x) implies !Seq::<
        u64,
    >::empty().contains(x) && !used.contains(x) by {
        lemma_in_duo(fun, arg, x);
        if used.contains(x) {
            let i = choose|i: int| 0 <= i < used.len() && used[i] == x;
            assert(a.refs.dom().contains(x));
        }
    }
    lemma_keeps_chain(a, s1, a2, Seq::<u64>::empty(), used, duo(fun, arg));
    assert(n1.carries(names, a, duo(fun, arg)));
    assert(a2.is_free(root)) by {
        if used.contains(root) {
            let i = choose|i: int| 0 <= i < used.len() && used[i] == root;
        }
    }
    n1
}

/// Like nets in which like lambdas were put on top of like bodies are
/// alike.
pub proof fn lemma_like_lam_glue(
    a: NetView,
    b: NetView,
    names: Renaming,
    occurrences: nat,
    v: u64,
    body: u64,
    root: u64,
    a2: NetView,
    root2: u64,
    b2: NetView,
) -> (next: Renaming)
    requires
        a.wf(),
        a.alike(b, names),
        a.is_free(v),
        a.is_free(body),
        v != body,
        a.lam_glue(occurrences, v, body, root, a2),
        b.lam_glue(occurrences, names.refs[v], names.refs[body], root2, b2),
    ensures
        a2.wf(),
        a.keeps(a2, duo(v, body)),
        a2.alike(b2, next),
        next.carries(names, a, duo(v, body)),
        a2.is_free(root),
        forall|x: u64| a.is_free(x) && x != v && x != body ==> x != root,
        next.refs[root] == root2,
        a2.weight() <= a.weight() + 4,
{
    let (s1, out, node) = choose|s1: NetView, out: u64, node: Node|
        #![trigger a.fans(occurrences, v, out, s1), s1.makes_edge(solo_ref(root), solo(node), a2)]
        a.fans(occurrences, v, out, s1) && node is Lam && node.ends() == duo(out, body)
            && s1.makes_edge(solo_ref(root), solo(node), a2);
    let v2 = names.refs[v];
    let body2 = names.refs[body];
    let (t1, out2, node2) = choose|t1: NetView, out2: u64, node2: Node|
        #![trigger b.fans(occurrences, v2, out2, t1), t1.makes_edge(solo_ref(root2), solo(node2), b2)]
        b.fans(occurrences, v2, out2, t1) && node2 is Lam && node2.ends() == duo(out2, body2)
            && t1.makes_edge(solo_ref(root2), solo(node2), b2);
    let n1 = lemma_like_fans(a, b, names, occurrences, v, out, s1, out2, t1);
    assert(!solo_ref(v).contains(body));
    assert(s1.is_free(body));
    assert(n1.refs[body] == body2);
    assert(out != body);
    lemma_ends_of_one(node);
    assert(duo(out, body)[0] == out && duo(out, body)[1] == body);
    assert(s1.can_take(solo(node))) by {
        assert forall|z: u64| #[trigger] ends_of(solo(node)).contains(z) implies s1.is_free(z) by {
            lemma_in_duo(out, body, z);
        }
    }
    assert(nodes_like(solo(node), solo(node2), n1.refs)) by {
        assert(renamed(duo(out, body), n1.refs) =~= duo(out2, body2));
    }
    let n2 = lemma_like_makes_edge(
        s1,
        t1,
        n1,
        solo_ref(root),
        solo(node),
        a2,
        solo_ref(root2),
        solo(node2),
        b2,
    );
    assert(solo_ref(root)[0] == root && solo_ref(root2)[0] == root2);
    assert(a2.weight() <= a.weight() + 4) by {
        lemma_weight_makes_edge(s1, solo_ref(root), solo(node), a2);
        assert(solo(node).drop_last() =~= no_nodes());
        assert(edge_weight(no_nodes()) == 0);
        assert(node.is_cons());
        assert(edge_weight(solo(node)) == 3);
    }
    assert forall|x: u64| a.is_free(x) && !duo(v, body).contains(x) implies !solo_ref(v).contains(x)
        && !ends_of(solo(node)).contains(x) by {
        lemma_in_duo(v, body, x);
        lemma_in_duo(out, body, x);
        assert(x != v && x != body);
    }
    lemma_keeps_chain(a, s1, a2, solo_ref(v), ends_of(solo(node)), duo(v, body));
    lemma_carries_chain(names, n1, n2, a, s1, solo_ref(v), ends_of(solo(node)), duo(v, body));
    assert forall|x: u64| a.is_free(x) && x != v && x != body implies x != root by {
        assert(s1.is_free(x));
    }
    n2
}

/// What two buildings of one term into like nets give: nets that are
/// alike, like roots, and like terms; and what the first one keeps of the
/// net `a` that it started from.
pub open spec fn built_alike(
    a: NetView,
    names: Renaming,
    o1: Built,
    o2: Built,
    next: Renaming,
) -> bool {
    &&& o1.net.wf()
    &&& a.keeps(o1.net, no_vars())
    &&& o1.net.alike(o2.net, next)
    &&& next.carries(names, a, no_vars())
    &&& o1.net.is_free(o1.root)
    &&& !a.is_free(o1.root)
    &&& next.refs[o1.root] == o2.root
    &&& o1.term.like(o2.term, next.types)
    &&& o1.term.typed_in(o1.net.types.dom())
}

/// A variable built into like nets.
proof fn lemma_like_builds_var(
    a: NetView,
    b: NetView,
    names: Renaming,
    term: Expr,
    env: Seq<u64>,
    o1: Built,
    o2: Built,
) -> (next: Renaming)
    requires
        a.wf(),
        a.alike(b, names),
        forall|i: int| 0 <= i < env.len() ==> a.is_free(#[trigger] env[i]),
        term is Var,
        term.closed_under(env.len()),
        a.builds(term, env, o1),
        b.builds(term, renamed(env, names.refs), o2),
    ensures
        built_alike(a, names, o1, o2, next),
        o1.net.weight() == a.weight(),
{
    let i = term->Var_0 as int;
    let v = env[i];
    let r = o1.root;
    let r2 = o2.root;
    assert(a.is_free(v));
    assert(renamed(env, names.refs)[i] == names.refs[v]);
    let next = Renaming { refs: names.refs.insert(r, r2), ..names };
    lemma_with_ref_added(a, v, r);
    lemma_weight_ref_added(a, v, r);
    lemma_like_with_ref_added(a, b, names, v, r, r2);
    lemma_like_handle(o1.net, o2.net, next, r);
    assert(a.keeps(o1.net, no_vars()));
    next
}

/// One term built into like nets gives like nets, like roots and like
/// terms.
#[verifier::rlimit(30)]
pub proof fn lemma_like_builds(
    a: NetView,
    b: NetView,
    names: Renaming,
    term: Expr,
    env: Seq<u64>,
    o1: Built,
    o2: Built,
) -> (next: Renaming)
    requires
        a.wf(),
        a.alike(b, names),
        env.no_duplicates(),
        forall|i: int| 0 <= i < env.len() ==> a.is_free(#[trigger] env[i]),
        term.closed_under(env.len()),
        a.builds(term, env, o1),
        b.builds(term, renamed(env, names.refs), o2),
    ensures
        built_alike(a, names, o1, o2, next),
        o1.net.weight() <= a.weight() + 4 * term.size(),
    decreases term,
{
    let env2 = renamed(env, names.refs);
    let none = Seq::<u64>::empty();
    assert(no_vars() =~= none);
    match term {
        Expr::Var(_, _) => lemma_like_builds_var(a, b, names, term, env, o1, o2),
        Expr::App(f, v, _) => {
            let (b1, b2) = choose|b1: Built, b2: Built|
                #![trigger b2.net.app_glue(b1.root, b2.root, o1.root, o1.net)]
                a.builds(*f, env, b1) && b1.net.builds(*v, env, b2) && b2.net.app_glue(
                    b1.root,
                    b2.root,
                    o1.root,
                    o1.net,
                ) && o1.term == Expr::App(
                    Box::new(b1.term),
                    Box::new(b2.term),
                    type_at_root(o1.net, o1.root),
                );
            let (c1, c2) = choose|c1: Built, c2: Built|
                #![trigger c2.net.app_glue(c1.root, c2.root, o2.root, o2.net)]
                b.builds(*f, env2, c1) && c1.net.builds(*v, env2, c2) && c2.net.app_glue(
                    c1.root,
                    c2.root,
                    o2.root,
                    o2.net,
                ) && o2.term == Expr::App(
                    Box::new(c1.term),
                    Box::new(c2.term),
                    type_at_root(o2.net, o2.root),
                );
            let n1 = lemma_like_builds(a, b, names, *f, env, b1, c1);
            assert forall|i: int| 0 <= i < env.len() implies b1.net.is_free(#[trigger] env[i])
                && n1.refs[env[i]] == names.refs[env[i]] by {
                assert(a.is_free(env[i]));
                assert(!no_vars().contains(env[i]));
            }
            assert(renamed(env, n1.refs) =~= env2);
            let n2 = lemma_like_builds(b1.net, c1.net, n1, *v, env, b2, c2);
            assert(!no_vars().contains(b1.root));
            assert(b2.net.is_free(b1.root));
            assert(n2.refs[b1.root] == c1.root);
            let n3 = lemma_like_app_glue(
                b2.net,
                c2.net,
                n2,
                b1.root,
                b2.root,
                o1.root,
                o1.net,
                o2.root,
                o2.net,
            );
            // What is kept of the net at the start.
            assert forall|x: u64| a.is_free(x) implies b1.net.is_free(x) && b2.net.is_free(x) && x
                != b1.root && x != b2.root && !duo(b1.root, b2.root).contains(x) by {
                assert(!no_vars().contains(x));
                assert(b1.net.is_free(x));
                assert(b2.net.is_free(x));
                lemma_in_duo(b1.root, b2.root, x);
            }
            lemma_keeps_chain(a, b1.net, b2.net, none, none, none);
            lemma_keeps_chain(a, b2.net, o1.net, none, duo(b1.root, b2.root), none);
            lemma_carries_chain(names, n1, n2, a, b1.net, none, none, none);
            lemma_carries_chain(names, n2, n3, a, b2.net, none, duo(b1.root, b2.root), none);
            assert(!a.is_free(o1.root)) by {
                if a.is_free(o1.root) {
                    assert(b2.net.is_free(o1.root));
                }
            }
            // The terms.
            lemma_like_handle(o1.net, o2.net, n3, o1.root);
            lemma_typed_in_grows(b1.term, b1.net.types.dom(), b2.net.types.dom());
            lemma_typed_in_grows(b1.term, b2.net.types.dom(), o1.net.types.dom());
            lemma_typed_in_grows(b2.term, b2.net.types.dom(), o1.net.types.dom());
            assert forall|k: u64| b1.net.types.dom().contains(k) implies #[trigger] n3.types[k]
                == n1.types[k] by {
                assert(b2.net.types.dom().contains(k));
                assert(n2.types[k] == n1.types[k]);
            }
            lemma_term_like_agree(b1.term, c1.term, n1.types, n3.types, b1.net.types.dom());
            lemma_term_like_agree(b2.term, c2.term, n2.types, n3.types, b2.net.types.dom());
            n3
        },
        Expr::Lam(body, _) => {
            let (p, s1, b1) = choose|p: u64, s1: NetView, b1: Built|
                #![trigger
                    a.makes_edge(solo_ref(p), no_nodes(), s1),
                    b1.net.lam_glue(body.occurrences(0), p, b1.root, o1.root, o1.net)
                ]
                a.makes_edge(solo_ref(p), no_nodes(), s1) && s1.builds(*body, seq![p] + env, b1)
                    && b1.net.lam_glue(body.occurrences(0), p, b1.root, o1.root, o1.net) && o1.term
                    == Expr::Lam(Box::new(b1.term), type_at_root(o1.net, o1.root));
            let (q, t1, c1) = choose|q: u64, t1: NetView, c1: Built|
                #![trigger
                    b.makes_edge(solo_ref(q), no_nodes(), t1),
                    c1.net.lam_glue(body.occurrences(0), q, c1.root, o2.root, o2.net)
                ]
                b.makes_edge(solo_ref(q), no_nodes(), t1) && t1.builds(*body, seq![q] + env2, c1)
                    && c1.net.lam_glue(body.occurrences(0), q, c1.root, o2.root, o2.net) && o2.term
                    == Expr::Lam(Box::new(c1.term), type_at_root(o2.net, o2.root));
            assert(ends_of(no_nodes()) =~= none);
            assert(s1.weight() == a.weight()) by {
                lemma_weight_makes_edge(a, solo_ref(p), no_nodes(), s1);
                assert(edge_weight(no_nodes()) == 0);
            }
            let n1 = lemma_like_makes_edge(
                a,
                b,
                names,
                solo_ref(p),
                no_nodes(),
                s1,
                solo_ref(q),
                no_nodes(),
                t1,
            );
            assert(solo_ref(p)[0] == p && solo_ref(q)[0] == q);
            let inner = seq![p] + env;
            assert forall|i: int| 0 <= i < env.len() implies s1.is_free(#[trigger] env[i])
                && n1.refs[env[i]] == names.refs[env[i]] && env[i] != p by {
                assert(a.is_free(env[i]));
                assert(!none.contains(env[i]));
            }
            assert(inner.no_duplicates()) by {
                assert forall|i: int, j: int|
                    0 <= i < inner.len() && 0 <= j < inner.len() && i != j implies inner[i]
                    != inner[j] by {
                    if i > 0 {
                        assert(inner[i] == env[i - 1]);
                    }
                    if j > 0 {
                        assert(inner[j] == env[j - 1]);
                    }
                }
            }
            assert forall|i: int| 0 <= i < inner.len() implies s1.is_free(#[trigger] inner[i]) by {
                if i > 0 {
                    assert(inner[i] == env[i - 1]);
                }
            }
            assert(renamed(inner, n1.refs) =~= seq![q] + env2) by {
                assert forall|i: int| 0 <= i < inner.len() implies renamed(inner, n1.refs)[i] == (
                seq![q] + env2)[i] by {
                    if i > 0 {
                        assert(inner[i] == env[i - 1]);
                    }
                }
            }
            let n2 = lemma_like_builds(s1, t1, n1, *body, inner, b1, c1);
            assert(s1.is_free(p));
            assert(!no_vars().contains(p));
            assert(b1.net.is_free(p));
            assert(n2.refs[p] == q);
            assert(p != b1.root);
            let n3 = lemma_like_lam_glue(
                b1.net,
                c1.net,
                n2,
                body.occurrences(0),
                p,
                b1.root,
                o1.root,
                o1.net,
                o2.root,
                o2.net,
            );
            // What is kept of the net at the start.
            assert forall|x: u64| a.is_free(x) implies s1.is_free(x) && b1.net.is_free(x) && x
                != p && x != b1.root && !duo(p, b1.root).contains(x) by {
                assert(!none.contains(x));
                assert(s1.is_free(x));
                assert(!no_vars().contains(x));
                assert(b1.net.is_free(x));
                assert(a.refs.dom().contains(x));
                lemma_in_duo(p, b1.root, x);
            }
            lemma_keeps_chain(a, s1, b1.net, none, none, none);
            lemma_keeps_chain(a, b1.net, o1.net, none, duo(p, b1.root), none);
            lemma_carries_chain(names, n1, n2, a, s1, none, none, none);
            lemma_carries_chain(names, n2, n3, a, b1.net, none, duo(p, b1.root), none);
            // The terms.
            lemma_like_handle(o1.net, o2.net, n3, o1.root);
            lemma_typed_in_grows(b1.term, b1.net.types.dom(), o1.net.types.dom());
            lemma_term_like_agree(b1.term, c1.term, n2.types, n3.types, b1.net.types.dom());
            n3
        },
    }
}

/// A closed term built into an empty net gives a net that weighs at most
/// four times the nodes of the term.
pub proof fn lemma_built_weight(term: Expr, b: Built)
    requires
        term.closed_under(0),
        NetView::empty().builds(term, Seq::empty(), b),
    ensures
        b.net.wf(),
        b.net.weight() <= 4 * term.size(),
{
    let none = Seq::<u64>::empty();
    let start = NetView::empty();
    let n0 = Renaming { types: Map::empty(), edges: Map::empty(), refs: Map::empty() };
    assert(start.wf()) by {
        assert(start.edges.dom() =~= Set::<u64>::empty());
    }
    assert(renamed(start.order, n0.types) =~= start.order);
    assert(start.alike(start, n0));
    assert(renamed(none, n0.refs) =~= none);
    assert(start.weight() == 0) by {
        assert(edge_weights(start.edges).dom() =~= Set::<u64>::empty());
    }
    let n1 = lemma_like_builds(start, start, n0, term, none, b, b);
}

/// The handle `k2` stands in the net `net2` for the type that the handle
/// `k1` stands for in the net `net`.
pub open spec fn same_type_at(
    k1: Option<PartialTypeKey>,
    net: NetView,
    k2: Option<PartialTypeKey>,
    net2: NetView,
) -> bool {
    k1 matches Some(x) && k2 matches Some(y) && net2.closed_type(y.id) == net.closed_type(x.id)
}

impl Expr {
    /// The term `other` is this term, and each of its nodes has in the net
    /// `net2` the type that the same node of this term has in the net
    /// `net`.
    pub open spec fn same_types(self, net: NetView, other: Expr, net2: NetView) -> bool
        decreases self,
    {
        &&& same_type_at(self.key(), net, other.key(), net2)
        &&& match self {
            Expr::Lam(body, _) => other matches Expr::Lam(body2, _) && body.same_types(
                net,
                *body2,
                net2,
            ),
            Expr::App(f, v, _) => other matches Expr::App(f2, v2, _) && f.same_types(
                net,
                *f2,
                net2,
            ) && v.same_types(net, *v2, net2),
            Expr::Var(i, _) => other matches Expr::Var(i2, _) && i == i2,
        }
    }
}

/// Like terms in like nets have the same types once the type variables
/// are numbered.
pub proof fn lemma_like_terms(t1: Expr, t2: Expr, a: NetView, b: NetView, names: Renaming)
    requires
        a.wf(),
        b.wf(),
        a.alike(b, names),
        a.order.len() <= usize::MAX,
        t1.like(t2, names.types),
        t1.typed_in(a.types.dom()),
    ensures
        t1.same_types(a.with_free_numbered(a.order), t2, b.with_free_numbered(b.order)),
    decreases t1,
{
    lemma_alike_same_types(a, b, names, t1.key().unwrap().id);
    match t1 {
        Expr::Lam(body, _) => {
            match t2 {
                Expr::Lam(body2, _) => {
                    lemma_like_terms(*body, *body2, a, b, names);
                },
                _ => {},
            }
        },
        Expr::App(f, v, _) => {
            match t2 {
                Expr::App(f2, v2, _) => {
                    lemma_like_terms(*f, *f2, a, b, names);
                    lemma_like_terms(*v, *v2, a, b, names);
                },
                _ => {},
            }
        },
        Expr::Var(_, _) => {},
    }
}

/// Terms with the same types are safe to duplicate together.
pub proof fn lemma_same_types_safe(t1: Expr, n1: NetView, t2: Expr, n2: NetView)
    requires
        t1.same_types(n1, t2, n2),
    ensures
        all_safe(t1, n1) == all_safe(t2, n2),
    decreases t1,
{
    match t1 {
        Expr::Lam(body, _) => {
            match t2 {
                Expr::Lam(body2, _) => {
                    lemma_same_types_safe(*body, n1, *body2, n2);
                },
                _ => {},
            }
        },
        Expr::App(f, v, _) => {
            match t2 {
                Expr::App(f2, v2, _) => {
                    lemma_same_types_safe(*f, n1, *f2, n2);
                    lemma_same_types_safe(*v, n1, *v2, n2);
                },
                _ => {},
            }
        },
        Expr::Var(_, _) => {},
    }
}

/// A net that was reduced to its end is what further steps lead to.
pub proof fn lemma_reduces_in_longer(a: NetView, n: nat, end: NetView, m: nat)
    requires
        a.reduces_in(n, end),
        !end.is_reducible(),
        n <= m,
    ensures
        a.reduces_in(m, end),
    decreases m - n,
{
    if n < m {
        assert(end.reduces_to(end));
        lemma_reduces_in_next(a, n, end, end);
        lemma_reduces_in_longer(a, n + 1, end, m);
    }
}

/// Two runs of building a closed term, linking its root and reducing for
/// the same number of steps give like nets and like terms.
pub proof fn lemma_like_runs(
    term: Expr,
    steps: nat,
    b: Built,
    h: u64,
    linked: NetView,
    end: NetView,
    c: Built,
    h2: u64,
    linked2: NetView,
    end2: NetView,
) -> (names: Renaming)
    requires
        term.closed_under(0),
        NetView::empty().builds(term, Seq::empty(), b),
        b.net.links(no_nodes(), solo_ref(b.root), h, linked),
        linked.reduces_in(steps, end),
        NetView::empty().builds(term, Seq::empty(), c),
        c.net.links(no_nodes(), solo_ref(c.root), h2, linked2),
        linked2.reduces_in(steps, end2),
    ensures
        end.wf(),
        end.alike(end2, names),
        b.term.like(c.term, names.types),
        b.term.typed_in(end.types.dom()),
{
    let none = Seq::<u64>::empty();
    let start = NetView::empty();
    let n0 = Renaming { types: Map::empty(), edges: Map::empty(), refs: Map::empty() };
    assert(start.wf()) by {
        assert(start.edges.dom() =~= Set::<u64>::empty());
    }
    assert(renamed(start.order, n0.types) =~= start.order);
    assert(start.alike(start, n0));
    assert(renamed(none, n0.refs) =~= none);
    let n1 = lemma_like_builds(start, start, n0, term, none, b, c);
    assert(ends_of(no_nodes()) =~= none);
    assert(solo_ref(b.root)[0] == b.root);
    assert(b.net.can_link(no_nodes(), solo_ref(b.root)));
    assert(renamed(solo_ref(b.root), n1.refs) =~= solo_ref(c.root));
    let n2 = lemma_like_links(
        b.net,
        c.net,
        n1,
        no_nodes(),
        solo_ref(b.root),
        h,
        linked,
        no_nodes(),
        h2,
        linked2,
    );
    let n3 = lemma_like_reduces_in(linked, linked2, n2, steps, end, end2);
    assert forall|k: u64| b.net.types.dom().contains(k) implies #[trigger] n3.types[k]
        == n1.types[k] && end.types.dom().contains(k) by {
        assert(linked.types.dom().contains(k));
        assert(n2.types[k] == n1.types[k]);
    }
    lemma_term_like_agree(b.term, c.term, n1.types, n3.types, b.net.types.dom());
    lemma_typed_in_grows(b.term, b.net.types.dom(), end.types.dom());
    n3
}

/// Two inferences on one closed term that both came to their end give
/// like nets and like terms: the result names the keys of the second for
/// those of the first, and the two nets before their type variables were
/// numbered.
pub proof fn lemma_like_inferences(
    term: Expr,
    t1: Expr,
    n1: NetView,
    t2: Expr,
    n2: NetView,
) -> (r: (Renaming, NetView, NetView))
    requires
        term.closed_under(0),
        infers(term, t1, n1, true),
        infers(term, t2, n2, true),
        !n1.is_reducible(),
        !n2.is_reducible(),
    ensures
        r.1.wf(),
        r.2.wf(),
        r.1.alike(r.2, r.0),
        n1 == r.1.with_free_numbered(r.1.order),
        n2 == r.2.with_free_numbered(r.2.order),
        t1.like(t2, r.0.types),
        t1.typed_in(r.1.types.dom()),
{
    let (b, linked, h, steps, end) = choose|
        b: Built,
        linked: NetView,
        h: u64,
        steps: nat,
        end: NetView,
    |
        #![trigger
            b.net.links(no_nodes(), solo_ref(b.root), h, linked),
            linked.reduces_in(steps, end)
        ]
        NetView::empty().builds(term, Seq::empty(), b) && b.net.links(
            no_nodes(),
            solo_ref(b.root),
            h,
            linked,
        ) && linked.reduces_in(steps, end) && t1 == b.term && n1 == end.with_free_numbered(
            end.order,
        );
    let (c, linked2, h2, steps2, end2) = choose|
        c: Built,
        linked2: NetView,
        h2: u64,
        steps2: nat,
        end2: NetView,
    |
        #![trigger
            c.net.links(no_nodes(), solo_ref(c.root), h2, linked2),
            linked2.reduces_in(steps2, end2)
        ]
        NetView::empty().builds(term, Seq::empty(), c) && c.net.links(
            no_nodes(),
            solo_ref(c.root),
            h2,
            linked2,
        ) && linked2.reduces_in(steps2, end2) && t2 == c.term && n2 == end2.with_free_numbered(
            end2.order,
        );
    let m = if steps < steps2 {
        steps2
    } else {
        steps
    };
    lemma_reduces_in_longer(linked, steps, end, m);
    lemma_reduces_in_longer(linked2, steps2, end2, m);
    let names = lemma_like_runs(term, m, b, h, linked, end, c, h2, linked2, end2);
    let own = lemma_like_runs(term, m, c, h2, linked2, end2, c, h2, linked2, end2);
    (names, end, end2)
}

/// Inference is determined: two inferences on one closed term that both
/// came to their end give every node of the term the same type, with the
/// same numbers for the type variables, whatever keys the arenas handed
/// out. Both leave equations or none, and both find the term safe to
/// duplicate or not.
pub proof fn lemma_inference_is_determined(term: Expr, t1: Expr, n1: NetView, t2: Expr, n2: NetView)
    requires
        term.closed_under(0),
        infers(term, t1, n1, true),
        infers(term, t2, n2, true),
        !n1.is_reducible(),
        !n2.is_reducible(),
        n1.order.len() <= usize::MAX,
    ensures
        t1.same_types(n1, t2, n2),
        n1.is_equated() == n2.is_equated(),
        all_safe(t1, n1) == all_safe(t2, n2),
{
    let (names, end, end2) = lemma_like_inferences(term, t1, n1, t2, n2);
    lemma_like_terms(t1, t2, end, end2, names);
    lemma_same_types_safe(t1, n1, t2, n2);
    lemma_alike_equated(end, end2, names);
    assert(n1.edges == end.edges && n2.edges == end2.edges);
}

} // verus!
