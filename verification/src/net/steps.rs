//! Reduction does not depend on the keys: like nets reduce to like nets.

use vstd::prelude::*;

use crate::net::arrows::lemma_bound_at;
use crate::net::iso::{
    kind_of, lemma_carries_chain, lemma_like_links, lemma_like_makes_edge, lemma_like_popped,
    lemma_like_with_type_set, lemma_nodes_like_agree, lemma_nodes_like_concat, node_like,
    nodes_like, renamed, type_like, Renaming,
};
use crate::net::laws::{
    lemma_ends_of_concat, lemma_ends_of_one, lemma_grows_chain, lemma_keeps_chain, lemma_popped,
    lemma_with_type_set,
};
use crate::net::model::{ends_of, has_cons, NetView, Place};
use crate::net::reduce::{
    cons_only, duo, first_mark, firsts, has_aff, has_ann, has_chk, has_naff, is_marked,
    lemma_cons_only, lemma_firsts_seconds, lemma_in_concat, no_nodes, no_vars, second_mark,
    seconds, solo,
};
use crate::net::types::{PartialType, PartialTypeKey};
use crate::net::Node;

verus! {

/// A member of two keys in a row is one of the two.
pub proof fn lemma_in_duo(a: u64, b: u64, x: u64)
    ensures
        duo(a, b).contains(x) <==> x == a || x == b,
{
    if duo(a, b).contains(x) {
        let k = choose|k: int| 0 <= k < 2 && duo(a, b)[k] == x;
    }
    assert(duo(a, b)[0] == a && duo(a, b)[1] == b);
}

/// Like nets after the same marks were put on like positions are alike.
/// The positions leave the caller's hands, and the other sides of the new
/// wires come into them.
pub proof fn lemma_like_marks(
    a: NetView,
    b: NetView,
    names: Renaming,
    x: u64,
    y: u64,
    na: Node,
    nb: Node,
    x2: u64,
    y2: u64,
    a2: NetView,
    x3: u64,
    y3: u64,
    b2: NetView,
) -> (next: Renaming)
    requires
        a.wf(),
        a.alike(b, names),
        a.is_free(x),
        a.is_free(y),
        x != y,
        !na.is_cons(),
        !nb.is_cons(),
        a.marks(x, y, na, nb, x2, y2, a2),
        b.marks(names.refs[x], names.refs[y], na, nb, x3, y3, b2),
    ensures
        a2.wf(),
        a.keeps(a2, duo(x, y)),
        a2.is_free(x2),
        a2.is_free(y2),
        x2 != y2,
        forall|z: u64| a.is_free(z) && z != x && z != y ==> z != x2 && z != y2,
        a2.alike(b2, next),
        next.carries(names, a, duo(x, y)),
        next.refs[x2] == x3,
        next.refs[y2] == y3,
{
    let (s1, s2, s3, a1, b1, h1, h2) = choose|
        s1: NetView,
        s2: NetView,
        s3: NetView,
        a1: u64,
        b1: u64,
        h1: u64,
        h2: u64,
    |
        #![trigger
            a.makes_edge(duo(a1, x2), no_nodes(), s1),
            s1.links(solo(na), duo(a1, x), h1, s2),
            s2.makes_edge(duo(b1, y2), no_nodes(), s3),
            s3.links(solo(nb), duo(b1, y), h2, a2)
        ]
        a.makes_edge(duo(a1, x2), no_nodes(), s1) && s1.links(solo(na), duo(a1, x), h1, s2)
            && s2.makes_edge(duo(b1, y2), no_nodes(), s3) && s3.links(
            solo(nb),
            duo(b1, y),
            h2,
            a2,
        );
    let x0 = names.refs[x];
    let y0 = names.refs[y];
    let (t1, t2, t3, c1, d1, k1, k2) = choose|
        t1: NetView,
        t2: NetView,
        t3: NetView,
        c1: u64,
        d1: u64,
        k1: u64,
        k2: u64,
    |
        #![trigger
            b.makes_edge(duo(c1, x3), no_nodes(), t1),
            t1.links(solo(na), duo(c1, x0), k1, t2),
            t2.makes_edge(duo(d1, y3), no_nodes(), t3),
            t3.links(solo(nb), duo(d1, y0), k2, b2)
        ]
        b.makes_edge(duo(c1, x3), no_nodes(), t1) && t1.links(solo(na), duo(c1, x0), k1, t2)
            && t2.makes_edge(duo(d1, y3), no_nodes(), t3) && t3.links(
            solo(nb),
            duo(d1, y0),
            k2,
            b2,
        );
    let none = Seq::<u64>::empty();
    assert(ends_of(no_nodes()) =~= none);
    lemma_ends_of_one(na);
    lemma_ends_of_one(nb);
    assert(ends_of(solo(na)) =~= none);
    assert(ends_of(solo(nb)) =~= none);
    assert(nodes_like(no_nodes(), no_nodes(), names.refs));

    // The first wire.
    let n1 = lemma_like_makes_edge(
        a,
        b,
        names,
        duo(a1, x2),
        no_nodes(),
        s1,
        duo(c1, x3),
        no_nodes(),
        t1,
    );
    assert(duo(a1, x2)[0] == a1 && duo(a1, x2)[1] == x2);
    assert(duo(c1, x3)[0] == c1 && duo(c1, x3)[1] == x3);
    assert(n1.refs[a1] == c1 && n1.refs[x2] == x3);
    assert(s1.is_free(a1) && s1.is_free(x2) && a1 != x2);
    assert(!a.refs.dom().contains(a1) && !a.refs.dom().contains(x2));
    assert(s1.is_free(x) && s1.is_free(y));
    assert(n1.refs[x] == x0 && n1.refs[y] == y0);

    // The first mark.
    let u1 = ends_of(solo(na)) + duo(a1, x);
    assert(u1 =~= duo(a1, x));
    lemma_in_duo(a1, x, x2);
    lemma_in_duo(a1, x, y);
    assert(duo(a1, x)[0] == a1 && duo(a1, x)[1] == x);
    assert(renamed(duo(a1, x), n1.refs) =~= duo(c1, x0));
    assert(nodes_like(solo(na), solo(na), n1.refs)) by {
        assert(renamed(na.ends(), n1.refs) =~= na.ends());
    }
    let n2 = lemma_like_links(s1, t1, n1, solo(na), duo(a1, x), h1, s2, solo(na), k1, t2);
    assert(s2.is_free(x2) && s2.is_free(y));
    assert(n2.refs[x2] == x3 && n2.refs[y] == y0);

    // The second wire.
    assert(nodes_like(no_nodes(), no_nodes(), n2.refs));
    let n3 = lemma_like_makes_edge(
        s2,
        t2,
        n2,
        duo(b1, y2),
        no_nodes(),
        s3,
        duo(d1, y3),
        no_nodes(),
        t3,
    );
    assert(duo(b1, y2)[0] == b1 && duo(b1, y2)[1] == y2);
    assert(duo(d1, y3)[0] == d1 && duo(d1, y3)[1] == y3);
    assert(n3.refs[b1] == d1 && n3.refs[y2] == y3);
    assert(s3.is_free(b1) && s3.is_free(y2) && b1 != y2);
    assert(!s2.refs.dom().contains(b1) && !s2.refs.dom().contains(y2));
    assert(s3.is_free(x2) && s3.is_free(y));
    assert(n3.refs[x2] == x3 && n3.refs[y] == y0);

    // The second mark.
    let u2 = ends_of(solo(nb)) + duo(b1, y);
    assert(u2 =~= duo(b1, y));
    lemma_in_duo(b1, y, x2);
    lemma_in_duo(b1, y, y2);
    assert(duo(b1, y)[0] == b1 && duo(b1, y)[1] == y);
    assert(renamed(duo(b1, y), n3.refs) =~= duo(d1, y0));
    assert(nodes_like(solo(nb), solo(nb), n3.refs)) by {
        assert(renamed(nb.ends(), n3.refs) =~= nb.ends());
    }
    let n4 = lemma_like_links(s3, t3, n3, solo(nb), duo(b1, y), h2, a2, solo(nb), k2, b2);
    assert(a2.is_free(x2) && a2.is_free(y2));
    assert(n4.refs[x2] == x3 && n4.refs[y2] == y3);

    // What the caller keeps.
    let only_x = seq![x];
    assert forall|z: u64| only_x.contains(z) <==> z == x by {
        if only_x.contains(z) {
            let k = choose|k: int| 0 <= k < 1 && only_x[k] == z;
        }
        assert(only_x[0] == x);
    }
    assert forall|z: u64| a.is_free(z) && !only_x.contains(z) implies !none.contains(z)
        && !u1.contains(z) by {
        lemma_in_duo(a1, x, z);
    }
    lemma_keeps_chain(a, s1, s2, none, u1, only_x);
    lemma_carries_chain(names, n1, n2, a, s1, none, u1, only_x);
    assert forall|z: u64| a.is_free(z) && !only_x.contains(z) implies !only_x.contains(z)
        && !none.contains(z) by {}
    lemma_keeps_chain(a, s2, s3, only_x, none, only_x);
    lemma_carries_chain(names, n2, n3, a, s2, only_x, none, only_x);
    assert forall|z: u64| a.is_free(z) && !duo(x, y).contains(z) implies !only_x.contains(z)
        && !u2.contains(z) by {
        lemma_in_duo(x, y, z);
        lemma_in_duo(b1, y, z);
        assert(s2.is_free(z));
    }
    lemma_keeps_chain(a, s3, a2, only_x, u2, duo(x, y));
    lemma_carries_chain(names, n3, n4, a, s3, only_x, u2, duo(x, y));
    assert forall|z: u64| a.is_free(z) && z != x && z != y implies z != x2 && z != y2 by {
        assert(s2.is_free(z));
    }
    n4
}

/// A net keeps everything when nothing is done to it.
pub proof fn lemma_keeps_same(a: NetView, used: Seq<u64>)
    requires
        a.wf(),
    ensures
        a.keeps(a, used),
{
    assert forall|p: Place|
        #![trigger a.has(p)]
        a.has(p) && has_cons(a.nodes_at(p)) implies a.arrow_bound(a.type_at(p)) by {
        lemma_bound_at(a, p);
    }
}

/// Like nets after a decoration passed like nodes are alike, and so is
/// what is left of the nodes.
pub proof fn lemma_like_decorates_one(
    a: NetView,
    b: NetView,
    names: Renaming,
    node: Node,
    node2: Node,
    affine: bool,
    ann: bool,
    chk: bool,
    a2: NetView,
    out: Seq<Node>,
    b2: NetView,
    out2: Seq<Node>,
) -> (next: Renaming)
    requires
        a.wf(),
        a.alike(b, names),
        a.can_take(solo(node)),
        node_like(node, node2, names.refs),
        a.decorates_one(node, affine, ann, chk, a2, out),
        b.decorates_one(node2, affine, ann, chk, b2, out2),
    ensures
        a2.wf(),
        a.keeps(a2, node.ends()),
        a2.can_take(out),
        a2.alike(b2, next),
        next.carries(names, a, node.ends()),
        nodes_like(out, out2, next.refs),
        forall|z: u64| a.is_free(z) && !node.ends().contains(z) ==> !ends_of(out).contains(z),
{
    lemma_ends_of_one(node);
    assert(node.is_cons() == node2.is_cons());
    assert(is_marked(node, ann, chk) == is_marked(node2, ann, chk));
    if !node.is_cons() {
        lemma_keeps_same(a, node.ends());
        assert(out =~= Seq::<Node>::empty());
        assert(out2 =~= Seq::<Node>::empty());
        assert(ends_of(out) =~= Seq::<u64>::empty());
        names
    } else if !is_marked(node, ann, chk) {
        lemma_keeps_same(a, node.ends());
        assert(out == solo(node) && out2 == solo(node2));
        assert(ends_of(out) == node.ends());
        names
    } else {
        let x = node.ends()[0];
        let y = node.ends()[1];
        assert(node.ends() =~= duo(x, y));
        assert(node2.ends() =~= duo(names.refs[x], names.refs[y]));
        assert(ends_of(solo(node)).contains(x) && ends_of(solo(node)).contains(y));
        assert(first_mark(node, affine) == first_mark(node2, affine));
        assert(second_mark(node, affine) == second_mark(node2, affine));
        let made = out[0];
        let made2 = out2[0];
        let next = lemma_like_marks(
            a,
            b,
            names,
            x,
            y,
            first_mark(node, affine),
            second_mark(node, affine),
            made.ends()[0],
            made.ends()[1],
            a2,
            made2.ends()[0],
            made2.ends()[1],
            b2,
        );
        assert(out =~= solo(made));
        assert(out2 =~= solo(made2));
        lemma_ends_of_one(made);
        assert(made.ends() =~= duo(made.ends()[0], made.ends()[1]));
        assert(made2.ends() =~= duo(made2.ends()[0], made2.ends()[1]));
        assert(kind_of(made) == kind_of(made2));
        assert(renamed(made.ends(), next.refs) =~= made2.ends());
        assert forall|z: u64| #[trigger] ends_of(out).contains(z) implies a2.is_free(z) by {
            lemma_in_duo(made.ends()[0], made.ends()[1], z);
        }
        assert forall|z: u64| a.is_free(z) && !node.ends().contains(z) implies !ends_of(
            out,
        ).contains(z) by {
            lemma_in_duo(x, y, z);
            lemma_in_duo(made.ends()[0], made.ends()[1], z);
        }
        next
    }
}

/// Like nets after a decoration passed like lists of nodes are alike, and
/// so are the nodes that are left.
#[verifier::rlimit(40)]
pub proof fn lemma_like_decorates(
    a: NetView,
    b: NetView,
    names: Renaming,
    nodes: Seq<Node>,
    nodes2: Seq<Node>,
    affine: bool,
    ann: bool,
    chk: bool,
    a2: NetView,
    out: Seq<Node>,
    b2: NetView,
    out2: Seq<Node>,
) -> (next: Renaming)
    requires
        a.wf(),
        a.alike(b, names),
        a.can_take(nodes),
        nodes_like(nodes, nodes2, names.refs),
        a.decorates(nodes, affine, ann, chk, a2, out),
        b.decorates(nodes2, affine, ann, chk, b2, out2),
    ensures
        a2.wf(),
        a.keeps(a2, ends_of(nodes)),
        a2.can_take(out),
        a2.alike(b2, next),
        next.carries(names, a, ends_of(nodes)),
        nodes_like(out, out2, next.refs),
        forall|z: u64| a.is_free(z) && !ends_of(nodes).contains(z) ==> !ends_of(out).contains(z),
        has_cons(nodes) ==> has_cons(out),
    decreases nodes.len(),
{
    if nodes.len() == 0 {
        lemma_keeps_same(a, ends_of(nodes));
        assert(out =~= Seq::<Node>::empty());
        assert(out2 =~= Seq::<Node>::empty());
        assert(ends_of(out) =~= Seq::<u64>::empty());
        names
    } else {
        let init = nodes.drop_last();
        let last = nodes.last();
        let init2 = nodes2.drop_last();
        let last2 = nodes2.last();
        let (mid, tail) = choose|mid: NetView, tail: Seq<Node>|
            #![trigger mid.decorates_one(last, affine, ann, chk, a2, tail)]
            tail.len() <= out.len() && out.skip(out.len() - tail.len()) == tail && a.decorates(
                init,
                affine,
                ann,
                chk,
                mid,
                out.take(out.len() - tail.len()),
            ) && mid.decorates_one(last, affine, ann, chk, a2, tail);
        let (mid2, tail2) = choose|mid2: NetView, tail2: Seq<Node>|
            #![trigger mid2.decorates_one(last2, affine, ann, chk, b2, tail2)]
            tail2.len() <= out2.len() && out2.skip(out2.len() - tail2.len()) == tail2
                && b.decorates(
                init2,
                affine,
                ann,
                chk,
                mid2,
                out2.take(out2.len() - tail2.len()),
            ) && mid2.decorates_one(last2, affine, ann, chk, b2, tail2);
        let head = out.take(out.len() - tail.len());
        let head2 = out2.take(out2.len() - tail2.len());
        assert(out =~= head + tail);
        assert(out2 =~= head2 + tail2);
        lemma_ends_of_one(last);
        lemma_ends_of_concat(init, solo(last));
        assert(init + solo(last) =~= nodes);
        let e0 = ends_of(init);
        let e1 = last.ends();
        assert(ends_of(nodes) == e0 + e1);
        assert(nodes_like(init, init2, names.refs)) by {
            assert forall|i: int| 0 <= i < init.len() implies node_like(
                #[trigger] init[i],
                init2[i],
                names.refs,
            ) by {
                assert(node_like(nodes[i], nodes2[i], names.refs));
            }
        }
        assert(node_like(nodes[nodes.len() - 1], nodes2[nodes.len() - 1], names.refs));
        assert(a.can_take(init)) by {
            assert forall|i: int, j: int| 0 <= i < e0.len() && 0 <= j < e0.len() && i != j implies e0[i]
                != e0[j] by {
                assert((e0 + e1)[i] == e0[i] && (e0 + e1)[j] == e0[j]);
            }
            assert forall|z: u64| #[trigger] e0.contains(z) implies a.is_free(z) by {
                lemma_in_concat(e0, e1, z);
            }
        }
        let n1 = lemma_like_decorates(
            a,
            b,
            names,
            init,
            init2,
            affine,
            ann,
            chk,
            mid,
            head,
            mid2,
            head2,
        );
        // The last node is still in the caller's hands.
        assert forall|z: u64| e1.contains(z) implies a.is_free(z) && !e0.contains(z)
            && mid.is_free(z) && n1.refs[z] == names.refs[z] by {
            lemma_in_concat(e0, e1, z);
            if e0.contains(z) {
                let i = choose|i: int| 0 <= i < e0.len() && e0[i] == z;
                let j = choose|j: int| 0 <= j < e1.len() && e1[j] == z;
                assert((e0 + e1)[i] == z && (e0 + e1)[e0.len() + j] == z);
            }
        }
        assert(mid.can_take(solo(last))) by {
            assert forall|i: int, j: int| 0 <= i < e1.len() && 0 <= j < e1.len() && i != j implies e1[i]
                != e1[j] by {
                assert((e0 + e1)[e0.len() + i] == e1[i] && (e0 + e1)[e0.len() + j] == e1[j]);
            }
        }
        assert(node_like(last, last2, n1.refs)) by {
            assert forall|j: int| 0 <= j < e1.len() implies n1.refs[e1[j]] == names.refs[e1[j]] by {
                assert(e1.contains(e1[j]));
            }
            assert(renamed(e1, n1.refs) =~= renamed(e1, names.refs));
        }
        let n2 = lemma_like_decorates_one(
            mid,
            mid2,
            n1,
            last,
            last2,
            affine,
            ann,
            chk,
            a2,
            tail,
            b2,
            tail2,
        );
        // What is left of the nodes.
        lemma_ends_of_concat(head, tail);
        let h0 = ends_of(head);
        let t0 = ends_of(tail);
        assert forall|z: u64| h0.contains(z) implies mid.is_free(z) && !e1.contains(z)
            && a2.is_free(z) && !t0.contains(z) && n2.refs[z] == n1.refs[z] by {
            assert(mid.is_free(z));
            if e1.contains(z) {
                assert(a.is_free(z) && !e0.contains(z));
                lemma_in_concat(e0, e1, z);
            }
        }
        assert(a2.can_take(out)) by {
            assert forall|i: int, j: int| 0 <= i < h0.len() && 0 <= j < t0.len() implies h0[i]
                != t0[j] by {
                assert(h0.contains(h0[i]));
                assert(t0.contains(t0[j]));
            }
            vstd::seq_lib::lemma_no_dup_in_concat(h0, t0);
            assert forall|z: u64| #[trigger] ends_of(out).contains(z) implies a2.is_free(z) by {
                lemma_in_concat(h0, t0, z);
            }
        }
        lemma_nodes_like_agree(head, head2, n1.refs, n2.refs);
        lemma_nodes_like_concat(head, head2, tail, tail2, n2.refs);
        assert forall|z: u64| a.is_free(z) && !ends_of(nodes).contains(z) implies !e0.contains(z)
            && !e1.contains(z) by {
            lemma_in_concat(e0, e1, z);
        }
        lemma_keeps_chain(a, mid, a2, e0, e1, ends_of(nodes));
        lemma_carries_chain(names, n1, n2, a, mid, e0, e1, ends_of(nodes));
        assert forall|z: u64| a.is_free(z) && !ends_of(nodes).contains(z) implies !ends_of(
            out,
        ).contains(z) by {
            lemma_in_concat(h0, t0, z);
            assert(mid.is_free(z));
        }
        if has_cons(nodes) {
            let j = choose|j: int| 0 <= j < nodes.len() && (#[trigger] nodes[j]).is_cons();
            if j < init.len() {
                assert(init[j].is_cons());
                let c = choose|c: int| 0 <= c < head.len() && (#[trigger] head[c]).is_cons();
                assert(out[c].is_cons());
            } else {
                assert(tail.len() == 1 && tail[0].is_cons());
                assert(out[head.len() as int].is_cons());
            }
        }
        n2
    }
}

/// Like lists of nodes hold marks of the same kinds.
pub proof fn lemma_like_kinds(ns: Seq<Node>, ms: Seq<Node>, refs: Map<u64, u64>)
    requires
        nodes_like(ns, ms, refs),
    ensures
        has_aff(ns) == has_aff(ms),
        has_naff(ns) == has_naff(ms),
        has_ann(ns) == has_ann(ms),
        has_chk(ns) == has_chk(ms),
        has_cons(ns) == has_cons(ms),
{
    assert forall|j: int| 0 <= j < ns.len() implies kind_of(#[trigger] ns[j]) == kind_of(ms[j]) by {
        assert(node_like(ns[j], ms[j], refs));
    }
    assert forall|j: int| 0 <= j < ns.len() implies kind_of(ns[j]) == kind_of(#[trigger] ms[j]) by {
        assert(node_like(ns[j], ms[j], refs));
    }
    if has_aff(ns) {
        let j = choose|j: int| 0 <= j < ns.len() && (#[trigger] ns[j]).is_aff();
        assert(ms[j].is_aff());
    }
    if has_aff(ms) {
        let j = choose|j: int| 0 <= j < ms.len() && (#[trigger] ms[j]).is_aff();
        assert(ns[j].is_aff());
    }
    if has_naff(ns) {
        let j = choose|j: int| 0 <= j < ns.len() && (#[trigger] ns[j]).is_naff();
        assert(ms[j].is_naff());
    }
    if has_naff(ms) {
        let j = choose|j: int| 0 <= j < ms.len() && (#[trigger] ms[j]).is_naff();
        assert(ns[j].is_naff());
    }
    if has_ann(ns) {
        let j = choose|j: int| 0 <= j < ns.len() && (#[trigger] ns[j]).is_ann();
        assert(ms[j].is_ann());
    }
    if has_ann(ms) {
        let j = choose|j: int| 0 <= j < ms.len() && (#[trigger] ms[j]).is_ann();
        assert(ns[j].is_ann());
    }
    if has_chk(ns) {
        let j = choose|j: int| 0 <= j < ns.len() && (#[trigger] ns[j]).is_chk();
        assert(ms[j].is_chk());
    }
    if has_chk(ms) {
        let j = choose|j: int| 0 <= j < ms.len() && (#[trigger] ms[j]).is_chk();
        assert(ns[j].is_chk());
    }
    if has_cons(ns) {
        let j = choose|j: int| 0 <= j < ns.len() && (#[trigger] ns[j]).is_cons();
        assert(ms[j].is_cons());
    }
    if has_cons(ms) {
        let j = choose|j: int| 0 <= j < ms.len() && (#[trigger] ms[j]).is_cons();
        assert(ns[j].is_cons());
    }
}

/// The lambdas and applications of like lists are alike.
pub proof fn lemma_like_cons_only(ns: Seq<Node>, ms: Seq<Node>, refs: Map<u64, u64>)
    requires
        nodes_like(ns, ms, refs),
    ensures
        nodes_like(cons_only(ns), cons_only(ms), refs),
    decreases ns.len(),
{
    if ns.len() > 0 {
        let n0 = ns.drop_last();
        let m0 = ms.drop_last();
        assert(nodes_like(n0, m0, refs)) by {
            assert forall|i: int| 0 <= i < n0.len() implies node_like(
                #[trigger] n0[i],
                m0[i],
                refs,
            ) by {
                assert(node_like(ns[i], ms[i], refs));
            }
        }
        lemma_like_cons_only(n0, m0, refs);
        assert(node_like(ns[ns.len() - 1], ms[ns.len() - 1], refs));
    }
}

/// The first and the second endpoints of like lambdas and applications
/// are the renamed ones.
pub proof fn lemma_like_firsts(ns: Seq<Node>, ms: Seq<Node>, refs: Map<u64, u64>)
    requires
        nodes_like(ns, ms, refs),
        forall|j: int| 0 <= j < ns.len() ==> (#[trigger] ns[j]).is_cons(),
    ensures
        firsts(ms) == renamed(firsts(ns), refs),
        seconds(ms) == renamed(seconds(ns), refs),
        forall|j: int| 0 <= j < ms.len() ==> (#[trigger] ms[j]).is_cons(),
{
    assert forall|j: int| 0 <= j < ns.len() implies (#[trigger] ms[j]).is_cons() && ms[j].ends()[0]
        == refs[ns[j].ends()[0]] && ms[j].ends()[1] == refs[ns[j].ends()[1]] by {
        assert(node_like(ns[j], ms[j], refs));
        assert(ns[j].is_cons());
    }
    assert(firsts(ms) =~= renamed(firsts(ns), refs));
    assert(seconds(ms) =~= renamed(seconds(ns), refs));
}

/// A list without marks holds lambdas and applications only.
pub proof fn lemma_no_marks(ns: Seq<Node>)
    requires
        !has_aff(ns),
        !has_naff(ns),
    ensures
        forall|j: int| 0 <= j < ns.len() ==> (#[trigger] ns[j]).is_cons(),
{
    assert forall|j: int| 0 <= j < ns.len() implies (#[trigger] ns[j]).is_cons() by {
        if !ns[j].is_cons() {
            assert(ns[j].is_aff() || ns[j].is_naff());
        }
    }
}

/// The type of a resolved redex can be set: the handle of the redex is
/// older than the handles made since the redex was taken out, and still
/// belongs to nobody.
pub proof fn lemma_like_resolved(
    s0: NetView,
    a: NetView,
    b: NetView,
    names: Renaming,
    h: u64,
    v: PartialType,
    v2: PartialType,
)
    requires
        s0.wf(),
        a.wf(),
        s0.loose(h),
        s0.types[h] is Free,
        s0.grows_to(a),
        a.loose(h),
        a.alike(b, names),
        type_like(v, v2, names.types),
        forall|c: u64| #[trigger]
            v.points_to(c) ==> a.types.dom().contains(c) && !s0.types.dom().contains(c),
    ensures
        a.with_type_set(h, v).wf(),
        a.with_type_set(h, v).alike(b.with_type_set(names.types[h], v2), names),
        a.with_type_set(h, v).types.dom() == a.types.dom(),
{
    assert(s0.types.dom().contains(h));
    assert(a.types.dom().contains(h));
    assert forall|c: u64| #[trigger] v.points_to(c) implies a.types.dom().contains(c) && a.birth[h]
        < a.birth[c] by {
        assert(a.types.dom().contains(c));
    }
    lemma_with_type_set(a, h, v);
    lemma_like_with_type_set(a, b, names, h, v, v2);
    assert(a.with_type_set(h, v).types.dom() =~= a.types.dom());
}

/// Like nets after the structural rule are alike.
pub proof fn lemma_like_cons_step(
    a: NetView,
    b: NetView,
    names: Renaming,
    h: u64,
    nodes: Seq<Node>,
    nodes2: Seq<Node>,
    a2: NetView,
    b2: NetView,
) -> (next: Renaming)
    requires
        a.wf(),
        a.alike(b, names),
        a.can_take(nodes),
        a.loose(h),
        a.types[h] is Free,
        nodes_like(nodes, nodes2, names.refs),
        forall|j: int| 0 <= j < nodes.len() ==> (#[trigger] nodes[j]).is_cons(),
        a.cons_step(h, nodes, a2),
        b.cons_step(names.types[h], nodes2, b2),
    ensures
        a2.wf(),
        a2.alike(b2, next),
        a.grows_to(a2),
        forall|k: u64| a.types.dom().contains(k) ==> #[trigger] next.types[k] == names.types[k],
{
    let (s1, s2, ha, hb) = choose|s1: NetView, s2: NetView, ha: u64, hb: u64|
        #![trigger
            a.links(no_nodes(), firsts(nodes), ha, s1),
            s1.links(no_nodes(), seconds(nodes), hb, s2)
        ]
        a.links(no_nodes(), firsts(nodes), ha, s1) && s1.links(no_nodes(), seconds(nodes), hb, s2)
            && a2 == s2.with_type_set(
            h,
            PartialType::Arrow { a: PartialTypeKey { id: ha }, b: PartialTypeKey { id: hb } },
        );
    let h2 = names.types[h];
    let (t1, t2, ha2, hb2) = choose|t1: NetView, t2: NetView, ha2: u64, hb2: u64|
        #![trigger
            b.links(no_nodes(), firsts(nodes2), ha2, t1),
            t1.links(no_nodes(), seconds(nodes2), hb2, t2)
        ]
        b.links(no_nodes(), firsts(nodes2), ha2, t1) && t1.links(
            no_nodes(),
            seconds(nodes2),
            hb2,
            t2,
        ) && b2 == t2.with_type_set(
            h2,
            PartialType::Arrow { a: PartialTypeKey { id: ha2 }, b: PartialTypeKey { id: hb2 } },
        );
    let f = firsts(nodes);
    let g = seconds(nodes);
    lemma_firsts_seconds(nodes);
    lemma_like_firsts(nodes, nodes2, names.refs);
    assert(ends_of(no_nodes()) =~= Seq::<u64>::empty());
    assert(ends_of(no_nodes()) + f =~= f);
    assert(ends_of(no_nodes()) + g =~= g);
    assert(a.can_link(no_nodes(), f)) by {
        assert forall|i: int| 0 <= i < f.len() implies a.is_free(#[trigger] f[i]) by {
            assert(f.contains(f[i]));
        }
    }
    let n1 = lemma_like_links(a, b, names, no_nodes(), f, ha, s1, no_nodes(), ha2, t1);
    assert forall|i: int| 0 <= i < g.len() implies s1.is_free(#[trigger] g[i]) && n1.refs[g[i]]
        == names.refs[g[i]] by {
        assert(g.contains(g[i]));
        assert(ends_of(nodes).contains(g[i]));
        if f.contains(g[i]) {
            assert(!g.contains(g[i]));
        }
        assert(a.is_free(g[i]));
    }
    assert(s1.can_link(no_nodes(), g));
    assert(renamed(g, n1.refs) =~= renamed(g, names.refs));
    let n2 = lemma_like_links(s1, t1, n1, no_nodes(), g, hb, s2, no_nodes(), hb2, t2);
    lemma_grows_chain(a, s1, s2);
    assert(s1.loose(h));
    assert(s2.loose(h));
    let v = PartialType::Arrow { a: PartialTypeKey { id: ha }, b: PartialTypeKey { id: hb } };
    let v2 = PartialType::Arrow { a: PartialTypeKey { id: ha2 }, b: PartialTypeKey { id: hb2 } };
    assert(a.types.dom().contains(h));
    assert(s1.types.dom().contains(h));
    assert(n2.types[ha] == ha2);
    assert(n2.types[h] == h2);
    assert forall|c: u64| #[trigger] v.points_to(c) implies s2.types.dom().contains(c)
        && !a.types.dom().contains(c) by {
        assert(c == ha || c == hb);
        if a.types.dom().contains(hb) {
            assert(s1.types.dom().contains(hb));
        }
    }
    lemma_like_resolved(a, s2, t2, n2, h, v, v2);
    lemma_grows_chain(a, s2, a2);
    assert forall|k: u64| a.types.dom().contains(k) implies #[trigger] n2.types[k]
        == names.types[k] by {
        assert(s1.types.dom().contains(k));
        assert(n1.types[k] == names.types[k]);
    }
    n2
}

/// Like nets after the unsafe rule are alike.
pub proof fn lemma_like_unsafe_step(
    a: NetView,
    b: NetView,
    names: Renaming,
    h: u64,
    nodes: Seq<Node>,
    nodes2: Seq<Node>,
    a2: NetView,
    b2: NetView,
) -> (next: Renaming)
    requires
        a.wf(),
        a.alike(b, names),
        a.can_take(nodes),
        a.loose(h),
        a.types[h] is Free,
        nodes_like(nodes, nodes2, names.refs),
        a.unsafe_step(h, nodes, a2),
        b.unsafe_step(names.types[h], nodes2, b2),
    ensures
        a2.wf(),
        a2.alike(b2, next),
        a.grows_to(a2),
        forall|k: u64| a.types.dom().contains(k) ==> #[trigger] next.types[k] == names.types[k],
{
    let (s1, h1) = choose|s1: NetView, h1: u64|
        #![trigger a.links(cons_only(nodes), no_vars(), h1, s1)]
        a.links(cons_only(nodes), no_vars(), h1, s1) && a2 == s1.with_type_set(
            h,
            PartialType::Unsafe { a: PartialTypeKey { id: h1 } },
        );
    let h2 = names.types[h];
    let (t1, k1) = choose|t1: NetView, k1: u64|
        #![trigger b.links(cons_only(nodes2), no_vars(), k1, t1)]
        b.links(cons_only(nodes2), no_vars(), k1, t1) && b2 == t1.with_type_set(
            h2,
            PartialType::Unsafe { a: PartialTypeKey { id: k1 } },
        );
    lemma_cons_only(nodes);
    lemma_like_cons_only(nodes, nodes2, names.refs);
    assert(renamed(no_vars(), names.refs) =~= no_vars());
    assert(a.can_link(cons_only(nodes), no_vars()));
    let n1 = lemma_like_links(
        a,
        b,
        names,
        cons_only(nodes),
        no_vars(),
        h1,
        s1,
        cons_only(nodes2),
        k1,
        t1,
    );
    let v = PartialType::Unsafe { a: PartialTypeKey { id: h1 } };
    let v2 = PartialType::Unsafe { a: PartialTypeKey { id: k1 } };
    assert(a.types.dom().contains(h));
    assert(s1.loose(h));
    assert(n1.types[h] == h2);
    assert forall|c: u64| #[trigger] v.points_to(c) implies s1.types.dom().contains(c)
        && !a.types.dom().contains(c) by {
        assert(c == h1);
    }
    lemma_like_resolved(a, s1, t1, n1, h, v, v2);
    lemma_grows_chain(a, s1, a2);
    n1
}

/// Like nets after the decoration rule are alike.
pub proof fn lemma_like_decorate_step(
    a: NetView,
    b: NetView,
    names: Renaming,
    h: u64,
    nodes: Seq<Node>,
    nodes2: Seq<Node>,
    affine: bool,
    ann: bool,
    chk: bool,
    a2: NetView,
    b2: NetView,
) -> (next: Renaming)
    requires
        a.wf(),
        a.alike(b, names),
        a.can_take(nodes),
        a.loose(h),
        a.types[h] is Free,
        nodes_like(nodes, nodes2, names.refs),
        a.decorate_step(h, nodes, affine, ann, chk, a2),
        b.decorate_step(names.types[h], nodes2, affine, ann, chk, b2),
    ensures
        a2.wf(),
        a2.alike(b2, next),
        a.grows_to(a2),
        forall|k: u64| a.types.dom().contains(k) ==> #[trigger] next.types[k] == names.types[k],
{
    let v_of = |x: u64|
        if affine {
            PartialType::Cloneable { a: PartialTypeKey { id: x } }
        } else {
            PartialType::Uncloneable { a: PartialTypeKey { id: x } }
        };
    let (s0, out, s1, h1) = choose|s0: NetView, out: Seq<Node>, s1: NetView, h1: u64|
        #![trigger
            a.decorates(nodes, affine, ann, chk, s0, out),
            s0.links(out, no_vars(), h1, s1)
        ]
        a.decorates(nodes, affine, ann, chk, s0, out) && s0.links(out, no_vars(), h1, s1) && a2
            == s1.with_type_set(h, v_of(h1));
    let h2 = names.types[h];
    let (t0, out2, t1, k1) = choose|t0: NetView, out2: Seq<Node>, t1: NetView, k1: u64|
        #![trigger
            b.decorates(nodes2, affine, ann, chk, t0, out2),
            t0.links(out2, no_vars(), k1, t1)
        ]
        b.decorates(nodes2, affine, ann, chk, t0, out2) && t0.links(out2, no_vars(), k1, t1) && b2
            == t1.with_type_set(h2, v_of(k1));
    let n0 = lemma_like_decorates(
        a,
        b,
        names,
        nodes,
        nodes2,
        affine,
        ann,
        chk,
        s0,
        out,
        t0,
        out2,
    );
    assert(renamed(no_vars(), n0.refs) =~= no_vars());
    assert(s0.can_link(out, no_vars()));
    let n1 = lemma_like_links(s0, t0, n0, out, no_vars(), h1, s1, out2, k1, t1);
    lemma_grows_chain(a, s0, s1);
    let v = v_of(h1);
    let v2 = v_of(k1);
    assert(a.types.dom().contains(h));
    assert(s0.types.dom().contains(h));
    assert(s0.loose(h));
    assert(s1.loose(h));
    assert(n0.types[h] == h2);
    assert(n1.types[h] == h2);
    assert forall|c: u64| #[trigger] v.points_to(c) implies s1.types.dom().contains(c)
        && !a.types.dom().contains(c) by {
        assert(c == h1);
        if a.types.dom().contains(h1) {
            assert(s0.types.dom().contains(h1));
        }
    }
    lemma_like_resolved(a, s1, t1, n1, h, v, v2);
    lemma_grows_chain(a, s1, a2);
    assert forall|k: u64| a.types.dom().contains(k) implies #[trigger] n1.types[k]
        == names.types[k] by {
        assert(s0.types.dom().contains(k));
        assert(n0.types[k] == names.types[k]);
    }
    n1
}

/// Like nets after one reduction step are alike: the step depends on the
/// keys of the net only in the keys that it makes.
pub proof fn lemma_like_reduces_to(
    a: NetView,
    b: NetView,
    names: Renaming,
    a2: NetView,
    b2: NetView,
) -> (next: Renaming)
    requires
        a.wf(),
        a.alike(b, names),
        a.reduces_to(a2),
        b.reduces_to(b2),
    ensures
        a2.wf(),
        a2.alike(b2, next),
        a.grows_to(a2),
        forall|k: u64| a.types.dom().contains(k) ==> #[trigger] next.types[k] == names.types[k],
{
    if a.redexes.len() == 0 {
        names
    } else {
        let h = a.redexes.last().type_key;
        let nodes = a.redexes.last().nodes;
        let nodes2 = b.redexes.last().nodes;
        lemma_popped(a);
        lemma_like_popped(a, b, names);
        lemma_like_kinds(nodes, nodes2, names.refs);
        let s = a.popped();
        let t = b.popped();
        assert(s.types.dom() == a.types.dom());
        let next = if has_aff(nodes) && has_naff(nodes) {
            lemma_like_unsafe_step(s, t, names, h, nodes, nodes2, a2, b2)
        } else if has_aff(nodes) || has_naff(nodes) {
            lemma_like_decorate_step(
                s,
                t,
                names,
                h,
                nodes,
                nodes2,
                has_aff(nodes),
                has_ann(nodes),
                has_chk(nodes),
                a2,
                b2,
            )
        } else {
            lemma_no_marks(nodes);
            lemma_like_cons_step(s, t, names, h, nodes, nodes2, a2, b2)
        };
        lemma_grows_chain(a, s, a2);
        next
    }
}

/// Like nets after the same number of reduction steps are alike.
pub proof fn lemma_like_reduces_in(
    a: NetView,
    b: NetView,
    names: Renaming,
    n: nat,
    a2: NetView,
    b2: NetView,
) -> (next: Renaming)
    requires
        a.wf(),
        a.alike(b, names),
        a.reduces_in(n, a2),
        b.reduces_in(n, b2),
    ensures
        a2.wf(),
        a2.alike(b2, next),
        a.grows_to(a2),
        forall|k: u64| a.types.dom().contains(k) ==> #[trigger] next.types[k] == names.types[k],
    decreases n,
{
    if n == 0 {
        names
    } else {
        let m = (n - 1) as nat;
        let s = choose|s: NetView| #![trigger s.reduces_to(a2)] a.reduces_in(m, s) && s.reduces_to(a2);
        let t = choose|t: NetView| #![trigger t.reduces_to(b2)] b.reduces_in(m, t) && t.reduces_to(b2);
        let n1 = lemma_like_reduces_in(a, b, names, m, s, t);
        let n2 = lemma_like_reduces_to(s, t, n1, a2, b2);
        lemma_grows_chain(a, s, a2);
        assert forall|k: u64| a.types.dom().contains(k) implies #[trigger] n2.types[k]
            == names.types[k] by {
            assert(s.types.dom().contains(k));
            assert(n1.types[k] == names.types[k]);
        }
        n2
    }
}

} // verus!
