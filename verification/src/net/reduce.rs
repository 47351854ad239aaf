//! Reduction: one redex at a time, each by one of three rules.
//!
//! A redex that mixes marks of cloneability and of uncloneability is
//! unsafe; one with marks of one kind decorates its type and passes the
//! marks on to the parts of its lambdas and applications; one without
//! marks is an arrow.

use vstd::prelude::*;

use crate::net::laws::{
    lemma_ends_of_concat, lemma_ends_of_one, lemma_grows_chain, lemma_keeps_chain, lemma_popped,
    lemma_with_type_set,
};
use crate::net::arrows::{
    lemma_arrows_kept, lemma_arrows_kept_chain, lemma_bound_at, lemma_has_cons_concat,
    lemma_head_kept, lemma_head_of, lemma_heads_at, lemma_heads_at_chain, lemma_links_nodes,
    lemma_resolved,
};
use crate::net::measure::{
    all_cons, edge_weight, lemma_edge_weight_bounds, lemma_weight_links,
    lemma_weight_links_nodes, lemma_weight_makes_edge, lemma_weight_popped, lemma_weight_set,
};
use crate::net::model::{ends_of, has_cons, NetView, Place};
use crate::net::types::{PartialType, PartialTypeKey};
use crate::net::{keys_of, App, Lam, Net, Node, Var};

verus! {

/// The first endpoints of a list of `Lam` and `App` nodes.
pub open spec fn firsts(nodes: Seq<Node>) -> Seq<u64> {
    Seq::new(nodes.len(), |j: int| nodes[j].ends()[0])
}

/// The second endpoints of a list of `Lam` and `App` nodes.
pub open spec fn seconds(nodes: Seq<Node>) -> Seq<u64> {
    Seq::new(nodes.len(), |j: int| nodes[j].ends()[1])
}

/// The `Lam` and `App` nodes of a list, in order.
pub open spec fn cons_only(nodes: Seq<Node>) -> Seq<Node>
    decreases nodes.len(),
{
    if nodes.len() == 0 {
        Seq::empty()
    } else if nodes.last().is_cons() {
        cons_only(nodes.drop_last()).push(nodes.last())
    } else {
        cons_only(nodes.drop_last())
    }
}

/// A mark of cloneability is among the nodes.
pub open spec fn has_aff(nodes: Seq<Node>) -> bool {
    exists|j: int| 0 <= j < nodes.len() && (#[trigger] nodes[j]).is_aff()
}

/// A mark of uncloneability is among the nodes.
pub open spec fn has_naff(nodes: Seq<Node>) -> bool {
    exists|j: int| 0 <= j < nodes.len() && (#[trigger] nodes[j]).is_naff()
}

/// An annotation is among the nodes.
pub open spec fn has_ann(nodes: Seq<Node>) -> bool {
    exists|j: int| 0 <= j < nodes.len() && (#[trigger] nodes[j]).is_ann()
}

/// A check is among the nodes.
pub open spec fn has_chk(nodes: Seq<Node>) -> bool {
    exists|j: int| 0 <= j < nodes.len() && (#[trigger] nodes[j]).is_chk()
}

/// Two edge-refs in a row.
pub open spec fn duo(a: u64, b: u64) -> Seq<u64> {
    seq![a, b]
}

/// One node alone.
pub open spec fn solo(n: Node) -> Seq<Node> {
    seq![n]
}

/// No node.
pub open spec fn no_nodes() -> Seq<Node> {
    Seq::empty()
}

/// No edge-ref.
pub open spec fn no_vars() -> Seq<u64> {
    Seq::empty()
}

/// A decoration reaches the node: a lambda under a check, or an
/// application under an annotation.
pub open spec fn is_marked(node: Node, ann: bool, chk: bool) -> bool {
    (node is Lam && chk) || (node is App && ann)
}

/// The mark that a decoration puts on the first endpoint of a node: on the
/// parameter of a lambda the annotation of the other kind, on the argument
/// of an application the check of the other kind.
pub open spec fn first_mark(node: Node, affine: bool) -> Node {
    if node is Lam {
        if affine {
            Node::NAffAnn
        } else {
            Node::AffAnn
        }
    } else {
        if affine {
            Node::NAffChk
        } else {
            Node::AffChk
        }
    }
}

/// The mark that a decoration puts on the second endpoint of a node: on
/// the body of a lambda the check of the same kind, on the result of an
/// application the annotation of the same kind.
pub open spec fn second_mark(node: Node, affine: bool) -> Node {
    if node is Lam {
        if affine {
            Node::AffChk
        } else {
            Node::NAffChk
        }
    } else {
        if affine {
            Node::AffAnn
        } else {
            Node::NAffAnn
        }
    }
}

impl NetView {
    /// `post` is the net after the marks `na` and `nb` were put on the
    /// positions of the edge-refs `a` and `b`: each position gets a new
    /// wire, one side of which is linked to it together with the mark; the
    /// other sides are `a2` and `b2`.
    pub open spec fn marks(
        self,
        a: u64,
        b: u64,
        na: Node,
        nb: Node,
        a2: u64,
        b2: u64,
        post: NetView,
    ) -> bool {
        exists|s1: NetView, s2: NetView, s3: NetView, a1: u64, b1: u64, h1: u64, h2: u64|
            #![trigger
                self.makes_edge(duo(a1, a2), no_nodes(), s1),
                s1.links(solo(na), duo(a1, a), h1, s2),
                s2.makes_edge(duo(b1, b2), no_nodes(), s3),
                s3.links(solo(nb), duo(b1, b), h2, post)
            ]
            self.makes_edge(duo(a1, a2), no_nodes(), s1) && s1.links(solo(na), duo(a1, a), h1, s2)
                && s2.makes_edge(duo(b1, b2), no_nodes(), s3) && s3.links(
                solo(nb),
                duo(b1, b),
                h2,
                post,
            )
    }

    /// `post` and `out` are the net and what is left of `node` after a
    /// decoration passed it: a mark is dropped; a lambda or an application
    /// that the decoration reaches has its endpoints marked and replaced;
    /// any other node stays as it is.
    pub open spec fn decorates_one(
        self,
        node: Node,
        affine: bool,
        ann: bool,
        chk: bool,
        post: NetView,
        out: Seq<Node>,
    ) -> bool {
        if !node.is_cons() {
            post == self && out.len() == 0
        } else if !is_marked(node, ann, chk) {
            post == self && out == solo(node)
        } else {
            &&& out.len() == 1
            &&& out[0].is_cons()
            &&& out[0] is Lam <==> node is Lam
            &&& self.marks(
                node.ends()[0],
                node.ends()[1],
                first_mark(node, affine),
                second_mark(node, affine),
                out[0].ends()[0],
                out[0].ends()[1],
                post,
            )
        }
    }

    /// `post` and `out` are the net and the nodes after a decoration passed
    /// the nodes `nodes`, one after the other.
    pub open spec fn decorates(
        self,
        nodes: Seq<Node>,
        affine: bool,
        ann: bool,
        chk: bool,
        post: NetView,
        out: Seq<Node>,
    ) -> bool
        decreases nodes.len(),
    {
        if nodes.len() == 0 {
            post == self && out.len() == 0
        } else {
            exists|mid: NetView, tail: Seq<Node>|
                #![trigger mid.decorates_one(nodes.last(), affine, ann, chk, post, tail)]
                tail.len() <= out.len() && out.skip(out.len() - tail.len()) == tail
                    && self.decorates(
                    nodes.drop_last(),
                    affine,
                    ann,
                    chk,
                    mid,
                    out.take(out.len() - tail.len()),
                ) && mid.decorates_one(nodes.last(), affine, ann, chk, post, tail)
        }
    }

    /// The structural rule, on a net whose last redex of type `h` and nodes
    /// `nodes` was taken out: the first endpoints are linked, then the
    /// second ones, and `h` becomes the arrow between the two fresh types.
    pub open spec fn cons_step(self, h: u64, nodes: Seq<Node>, post: NetView) -> bool {
        exists|s1: NetView, s2: NetView, ha: u64, hb: u64|
            #![trigger
                self.links(no_nodes(), firsts(nodes), ha, s1),
                s1.links(no_nodes(), seconds(nodes), hb, s2)
            ]
            self.links(no_nodes(), firsts(nodes), ha, s1) && s1.links(
                no_nodes(),
                seconds(nodes),
                hb,
                s2,
            ) && post == s2.with_type_set(
                h,
                PartialType::Arrow { a: PartialTypeKey { id: ha }, b: PartialTypeKey { id: hb } },
            )
    }

    /// The unsafe rule: the marks are dropped, the other nodes are linked
    /// into an equation of a fresh type, and `h` becomes unsafe of it.
    pub open spec fn unsafe_step(self, h: u64, nodes: Seq<Node>, post: NetView) -> bool {
        exists|s1: NetView, h1: u64|
            #![trigger self.links(cons_only(nodes), no_vars(), h1, s1)]
            self.links(cons_only(nodes), no_vars(), h1, s1) && post == s1.with_type_set(
                h,
                PartialType::Unsafe { a: PartialTypeKey { id: h1 } },
            )
    }

    /// The decoration rule: the decoration passes the nodes, what is left
    /// of them is linked into an equation of a fresh type, and `h` becomes
    /// cloneable or uncloneable of it.
    pub open spec fn decorate_step(
        self,
        h: u64,
        nodes: Seq<Node>,
        affine: bool,
        ann: bool,
        chk: bool,
        post: NetView,
    ) -> bool {
        exists|s0: NetView, out: Seq<Node>, s1: NetView, h1: u64|
            #![trigger
                self.decorates(nodes, affine, ann, chk, s0, out),
                s0.links(out, no_vars(), h1, s1)
            ]
            self.decorates(nodes, affine, ann, chk, s0, out) && s0.links(out, no_vars(), h1, s1)
                && post == s1.with_type_set(
                h,
                if affine {
                    PartialType::Cloneable { a: PartialTypeKey { id: h1 } }
                } else {
                    PartialType::Uncloneable { a: PartialTypeKey { id: h1 } }
                },
            )
    }

    /// `post` is the net after `n` reduction steps.
    pub open spec fn reduces_in(self, n: nat, post: NetView) -> bool
        decreases n,
    {
        if n == 0 {
            post == self
        } else {
            exists|mid: NetView|
                #![trigger mid.reduces_to(post)]
                self.reduces_in((n - 1) as nat, mid) && mid.reduces_to(post)
        }
    }

    /// `post` is the net after reduction to its end: some number of steps
    /// lead to it, and it has no redex.
    pub open spec fn reduces_fully_to(self, post: NetView) -> bool {
        !post.is_reducible() && exists|n: nat| self.reduces_in(n, post)
    }

    /// The room that reduction to the end surely does not exceed: every
    /// step lowers the weight, and costs no more than the weight allows.
    pub open spec fn room_to_finish(self) -> int {
        (self.weight() as int + 1) * (6 * (self.weight() as int) + 2)
    }

    /// The room that one reduction step surely does not exceed.
    pub open spec fn reduce_cost(self) -> int {
        if self.redexes.len() == 0 {
            0
        } else {
            6 * (self.redexes.last().nodes.len() as int) + 2
        }
    }

    /// `post` is the net after one reduction step: the last redex is taken
    /// out and resolved by the rule that its marks select. Without a redex
    /// nothing changes.
    pub open spec fn reduces_to(self, post: NetView) -> bool {
        if self.redexes.len() == 0 {
            post == self
        } else {
            let h = self.redexes.last().type_key;
            let nodes = self.redexes.last().nodes;
            if has_aff(nodes) && has_naff(nodes) {
                self.popped().unsafe_step(h, nodes, post)
            } else if has_aff(nodes) || has_naff(nodes) {
                self.popped().decorate_step(
                    h,
                    nodes,
                    has_aff(nodes),
                    has_ann(nodes),
                    has_chk(nodes),
                    post,
                )
            } else {
                self.popped().cons_step(h, nodes, post)
            }
        }
    }
}

/// Membership in two sequences, one after the other.
pub proof fn lemma_in_concat(a: Seq<u64>, b: Seq<u64>, x: u64)
    ensures
        (a + b).contains(x) <==> a.contains(x) || b.contains(x),
{
    if (a + b).contains(x) {
        let k = choose|k: int| 0 <= k < (a + b).len() && (a + b)[k] == x;
        if k < a.len() {
            assert(a[k] == x);
        } else {
            assert(b[k - a.len()] == x);
        }
    }
    if a.contains(x) {
        let k = choose|k: int| 0 <= k < a.len() && a[k] == x;
        assert((a + b)[k] == x);
    }
    if b.contains(x) {
        let k = choose|k: int| 0 <= k < b.len() && b[k] == x;
        assert((a + b)[a.len() + k] == x);
    }
}

/// In a sequence without duplicates the middle part can be replaced by
/// new members.
pub proof fn lemma_no_dup_mid(r: Seq<u64>, m: Seq<u64>, t: Seq<u64>, m2: Seq<u64>)
    requires
        (r + (m + t)).no_duplicates(),
        m2.no_duplicates(),
        forall|x: u64| m2.contains(x) ==> !r.contains(x) && !t.contains(x),
    ensures
        ((r + m2) + t).no_duplicates(),
{
    let old_seq = r + (m + t);
    let new_seq = (r + m2) + t;
    assert forall|i: int, j: int|
        0 <= i < new_seq.len() && 0 <= j < new_seq.len() && i != j implies new_seq[i]
        != new_seq[j] by {
        if i < r.len() && j < r.len() {
            assert(old_seq[i] == r[i] && old_seq[j] == r[j]);
        } else if i >= r.len() + m2.len() && j >= r.len() + m2.len() {
            let i0 = i - m2.len() + m.len();
            let j0 = j - m2.len() + m.len();
            assert(old_seq[i0] == new_seq[i] && old_seq[j0] == new_seq[j]);
        } else if i < r.len() && j >= r.len() + m2.len() {
            let j0 = j - m2.len() + m.len();
            assert(old_seq[i] == new_seq[i] && old_seq[j0] == new_seq[j]);
        } else if j < r.len() && i >= r.len() + m2.len() {
            let i0 = i - m2.len() + m.len();
            assert(old_seq[j] == new_seq[j] && old_seq[i0] == new_seq[i]);
        } else if r.len() <= i < r.len() + m2.len() && r.len() <= j < r.len() + m2.len() {
            assert(new_seq[i] == m2[i - r.len()] && new_seq[j] == m2[j - r.len()]);
        } else {
            let mi = if r.len() <= i < r.len() + m2.len() { i } else { j };
            let oi = if r.len() <= i < r.len() + m2.len() { j } else { i };
            let x = m2[mi - r.len()];
            assert(new_seq[mi] == x);
            assert(m2.contains(x));
            if oi < r.len() {
                assert(r[oi] == new_seq[oi]);
                assert(r.contains(new_seq[oi]));
            } else {
                assert(t[oi - r.len() - m2.len()] == new_seq[oi]);
                assert(t.contains(new_seq[oi]));
            }
        }
    }
}

/// In a sequence without duplicates no member of the middle part is in
/// the parts around it.
pub proof fn lemma_mid_apart(r: Seq<u64>, m: Seq<u64>, t: Seq<u64>, x: u64)
    requires
        (r + (m + t)).no_duplicates(),
        r.contains(x) || t.contains(x),
    ensures
        !m.contains(x),
{
    let all = r + (m + t);
    if m.contains(x) {
        let k = choose|k: int| 0 <= k < m.len() && m[k] == x;
        assert(all[r.len() + k] == x);
        if r.contains(x) {
            let j = choose|j: int| 0 <= j < r.len() && r[j] == x;
            assert(all[j] == x);
        } else {
            let j = choose|j: int| 0 <= j < t.len() && t[j] == x;
            assert(all[r.len() + m.len() + j] == x);
        }
    }
}

/// `n` of the first `upto` nodes are the mark `mark`.
pub open spec fn seen(nodes: Seq<Node>, upto: int, mark: Node) -> bool {
    exists|k: int| 0 <= k < upto && #[trigger] nodes[k] == mark
}

/// The endpoints of the nodes from index `i` on: those of the node at `i`,
/// then those of the nodes behind it.
pub proof fn lemma_ends_skip(nodes: Seq<Node>, i: int)
    requires
        0 <= i < nodes.len(),
    ensures
        ends_of(nodes.skip(i)) == nodes[i].ends() + ends_of(nodes.skip(i + 1)),
{
    lemma_ends_of_one(nodes[i]);
    lemma_ends_of_concat(seq![nodes[i]], nodes.skip(i + 1));
    assert(nodes.skip(i) =~= seq![nodes[i]] + nodes.skip(i + 1));
}

/// The endpoints of `Lam` and `App` nodes come in pairs.
pub proof fn lemma_ends_pairs(nodes: Seq<Node>)
    requires
        forall|j: int| 0 <= j < nodes.len() ==> (#[trigger] nodes[j]).is_cons(),
    ensures
        ends_of(nodes).len() == 2 * nodes.len(),
        forall|j: int|
            0 <= j < nodes.len() ==> ends_of(nodes)[2 * j] == (#[trigger] nodes[j]).ends()[0]
                && ends_of(nodes)[2 * j + 1] == nodes[j].ends()[1],
    decreases nodes.len(),
{
    if nodes.len() > 0 {
        let init = nodes.drop_last();
        assert forall|j: int| 0 <= j < init.len() implies (#[trigger] init[j]).is_cons() by {
            assert(init[j] == nodes[j]);
        }
        lemma_ends_pairs(init);
        assert(nodes[nodes.len() - 1].is_cons());
        assert(nodes.last().ends().len() == 2);
        assert forall|j: int| 0 <= j < nodes.len() implies ends_of(nodes)[2 * j] == (
        #[trigger] nodes[j]).ends()[0] && ends_of(nodes)[2 * j + 1] == nodes[j].ends()[1] by {
            if j < init.len() {
                assert(init[j] == nodes[j]);
                assert(ends_of(init)[2 * j] == init[j].ends()[0]);
            }
        }
    }
}

/// Distinct endpoints of `Lam` and `App` nodes: the first ones are
/// distinct, so are the second ones, and no first one is a second one.
pub proof fn lemma_firsts_seconds(nodes: Seq<Node>)
    requires
        forall|j: int| 0 <= j < nodes.len() ==> (#[trigger] nodes[j]).is_cons(),
        ends_of(nodes).no_duplicates(),
    ensures
        firsts(nodes).no_duplicates(),
        seconds(nodes).no_duplicates(),
        forall|x: u64| firsts(nodes).contains(x) ==> ends_of(nodes).contains(x) && !seconds(
            nodes,
        ).contains(x),
        forall|x: u64| seconds(nodes).contains(x) ==> ends_of(nodes).contains(x),
{
    lemma_ends_pairs(nodes);
    let ends = ends_of(nodes);
    assert forall|i: int, j: int|
        0 <= i < nodes.len() && 0 <= j < nodes.len() && i != j implies firsts(nodes)[i] != firsts(
        nodes,
    )[j] by {
        assert(ends[2 * i] == nodes[i].ends()[0]);
        assert(ends[2 * j] == nodes[j].ends()[0]);
    }
    assert forall|i: int, j: int|
        0 <= i < nodes.len() && 0 <= j < nodes.len() && i != j implies seconds(nodes)[i]
        != seconds(nodes)[j] by {
        assert(ends[2 * i + 1] == nodes[i].ends()[1]);
        assert(ends[2 * j + 1] == nodes[j].ends()[1]);
    }
    assert forall|x: u64| firsts(nodes).contains(x) implies ends.contains(x) && !seconds(
        nodes,
    ).contains(x) by {
        let i = choose|i: int| 0 <= i < nodes.len() && firsts(nodes)[i] == x;
        assert(ends[2 * i] == nodes[i].ends()[0]);
        if seconds(nodes).contains(x) {
            let j = choose|j: int| 0 <= j < nodes.len() && seconds(nodes)[j] == x;
            assert(ends[2 * j + 1] == nodes[j].ends()[1]);
        }
    }
    assert forall|x: u64| seconds(nodes).contains(x) implies ends.contains(x) by {
        let j = choose|j: int| 0 <= j < nodes.len() && seconds(nodes)[j] == x;
        assert(ends[2 * j + 1] == nodes[j].ends()[1]);
    }
}

/// Dropping the marks drops no endpoint.
pub proof fn lemma_cons_only(nodes: Seq<Node>)
    ensures
        ends_of(cons_only(nodes)) == ends_of(nodes),
    decreases nodes.len(),
{
    if nodes.len() > 0 {
        let init = nodes.drop_last();
        lemma_cons_only(init);
        if nodes.last().is_cons() {
            assert(cons_only(nodes).drop_last() =~= cons_only(init));
        } else {
            assert(nodes.last().ends() =~= Seq::<u64>::empty());
            assert(ends_of(init) + nodes.last().ends() =~= ends_of(init));
        }
    } else {
        assert(cons_only(nodes) =~= nodes);
    }
}

/// The lambdas and applications of a list: nothing else is left when the
/// marks are dropped, and they make up the weight of the list beyond one
/// for every node.
pub proof fn lemma_cons_only_weight(nodes: Seq<Node>)
    ensures
        all_cons(cons_only(nodes)),
        cons_only(nodes).len() <= nodes.len(),
        edge_weight(nodes) == 2 * cons_only(nodes).len() + nodes.len(),
        !all_cons(nodes) ==> cons_only(nodes).len() < nodes.len(),
    decreases nodes.len(),
{
    if nodes.len() > 0 {
        let init = nodes.drop_last();
        lemma_cons_only_weight(init);
        if nodes.last().is_cons() {
            assert forall|j: int| 0 <= j < cons_only(nodes).len() implies (
            #[trigger] cons_only(nodes)[j]).is_cons() by {
                if j < cons_only(init).len() {
                    assert(cons_only(nodes)[j] == cons_only(init)[j]);
                }
            }
            if !all_cons(nodes) {
                let j = choose|j: int| 0 <= j < nodes.len() && !(#[trigger] nodes[j]).is_cons();
                assert(!init[j].is_cons());
            }
        }
    }
}

/// Dropping the marks drops no lambda and no application.
pub proof fn lemma_cons_only_has(nodes: Seq<Node>)
    ensures
        has_cons(nodes) ==> has_cons(cons_only(nodes)),
    decreases nodes.len(),
{
    if has_cons(nodes) {
        let j = choose|j: int| 0 <= j < nodes.len() && (#[trigger] nodes[j]).is_cons();
        let init = nodes.drop_last();
        if j < init.len() {
            assert(init[j].is_cons());
            lemma_cons_only_has(init);
            let c = choose|c: int|
                0 <= c < cons_only(init).len() && (#[trigger] cons_only(init)[c]).is_cons();
            if nodes.last().is_cons() {
                assert(cons_only(nodes)[c] == cons_only(init)[c]);
            }
        } else {
            assert(cons_only(nodes)[cons_only(init).len() as int].is_cons());
        }
    }
}

/// Splits `Lam` and `App` nodes into their first and their second
/// endpoints.
fn split_ends(nodes: Vec<Node>) -> (res: (Vec<Var>, Vec<Var>))
    requires
        forall|j: int| 0 <= j < nodes.len() ==> (#[trigger] nodes@[j]).is_cons(),
    ensures
        keys_of(res.0@) == firsts(nodes@),
        keys_of(res.1@) == seconds(nodes@),
{
    let mut a_vars: Vec<Var> = Vec::new();
    let mut b_vars: Vec<Var> = Vec::new();
    let ghost all = nodes@;
    for node in it: nodes
        invariant
            forall|j: int| 0 <= j < all.len() ==> (#[trigger] all[j]).is_cons(),
            it.seq() == all,
            keys_of(a_vars@) == firsts(all.take(it.index() as int)),
            keys_of(b_vars@) == seconds(all.take(it.index() as int)),
    {
        let ghost i = it.index() as int;
        let ghost nd = node;
        let ghost prev_a = a_vars@;
        let ghost prev_b = b_vars@;
        assert(nd == all[i]);
        assert(prev_a.len() == keys_of(prev_a).len());
        assert(prev_b.len() == keys_of(prev_b).len());
        match node {
            Node::Lam(lam) => {
                a_vars.push(lam.a);
                b_vars.push(lam.b);
            },
            Node::App(app) => {
                a_vars.push(app.a);
                b_vars.push(app.b);
            },
            _ => {
                assert(false);
            },
        }
        proof {
            assert(a_vars@.len() == i + 1);
            assert(a_vars@[i].key() == nd.ends()[0]);
            assert forall|j: int| 0 <= j < i implies a_vars@[j].key() == all[j].ends()[0] by {
                assert(keys_of(prev_a)[j] == firsts(all.take(i))[j]);
            }
            assert forall|j: int| 0 <= j < i implies b_vars@[j].key() == all[j].ends()[1] by {
                assert(keys_of(prev_b)[j] == seconds(all.take(i))[j]);
            }
            assert(keys_of(a_vars@) =~= firsts(all.take(i + 1)));
            assert(keys_of(b_vars@) =~= seconds(all.take(i + 1)));
        }
    }
    proof {
        assert(all.take(all.len() as int) =~= all);
    }
    (a_vars, b_vars)
}

/// Keeps the `Lam` and `App` nodes.
fn drop_marks(nodes: Vec<Node>) -> (res: Vec<Node>)
    ensures
        res@ == cons_only(nodes@),
{
    let mut result_nodes: Vec<Node> = Vec::new();
    let ghost all = nodes@;
    assert(all.take(0) =~= Seq::<Node>::empty());
    for node in it: nodes
        invariant
            it.seq() == all,
            result_nodes@ == cons_only(all.take(it.index() as int)),
    {
        let ghost i = it.index() as int;
        assert(node == all[i]);
        assert(all.take(i + 1).drop_last() =~= all.take(i));
        assert(all.take(i + 1).last() == all[i]);
        match node {
            Node::Lam(lam) => result_nodes.push(Node::Lam(lam)),
            Node::App(app) => result_nodes.push(Node::App(app)),
            _ => (),
        }
    }
    proof {
        assert(all.take(all.len() as int) =~= all);
    }
    result_nodes
}

impl Net {
    /// Writes a type to a handle that belongs to no edge and no redex.
    fn set_type(&mut self, type_key: PartialTypeKey, type_to_set: PartialType)
        requires
            old(self).wf(),
            old(self)@.loose(type_key.id),
            forall|c: u64| #[trigger]
                type_to_set.points_to(c) ==> old(self)@.types.dom().contains(c) && old(
                    self,
                )@.birth[type_key.id] < old(self)@.birth[c],
        ensures
            final(self).wf(),
            final(self)@ == old(self)@.with_type_set(type_key.id, type_to_set),
            old(self)@.grows_to(final(self)@),
            final(self).room() == old(self).room(),
    {
        let slot = self.types.get_mut(type_key.id);
        *slot = type_to_set;
        proof {
            lemma_with_type_set(old(self)@, type_key.id, type_to_set);
            assert(self@.types =~= old(self)@.with_type_set(type_key.id, type_to_set).types);
            assert(self@ =~= old(self)@.with_type_set(type_key.id, type_to_set));
        }
    }

    /// Puts the marks `na` and `nb` on the positions of `a` and `b`, each
    /// through a new wire, and returns the other sides of the wires.
    fn mark_ends(&mut self, a: Var, b: Var, na: Node, nb: Node) -> (res: (Var, Var))
        requires
            old(self).wf(),
            old(self)@.is_free(a.key()),
            old(self)@.is_free(b.key()),
            a.key() != b.key(),
            !na.is_cons(),
            !nb.is_cons(),
            old(self).room() >= 6,
        ensures
            final(self).wf(),
            old(self)@.marks(a.key(), b.key(), na, nb, res.0.key(), res.1.key(), final(self)@),
            old(self)@.keeps(final(self)@, duo(a.key(), b.key())),
            final(self)@.is_free(res.0.key()),
            final(self)@.is_free(res.1.key()),
            res.0.key() != res.1.key(),
            forall|x: u64|
                old(self)@.is_free(x) && x != a.key() && x != b.key() ==> x != res.0.key() && x
                    != res.1.key(),
            final(self)@.weight() <= old(self)@.weight() + 2,
            final(self).room() == old(self).room() - 6,
    {
        let ghost s0 = self@;
        let ghost ak = a.key();
        let ghost bk = b.key();
        let (a1, a2) = self.wire();
        let ghost s1 = self@;
        let ghost a1k = a1.key();
        let ghost a2k = a2.key();
        let mut ns: Vec<Node> = Vec::new();
        ns.push(na);
        let mut vs: Vec<Var> = Vec::new();
        vs.push(a1);
        vs.push(a);
        proof {
            assert(ns@ =~= solo(na));
            assert(keys_of(vs@) =~= duo(a1k, ak));
            lemma_ends_of_one(na);
            assert(ends_of(ns@) =~= Seq::<u64>::empty());
            assert(s0.refs.dom().contains(ak) && s0.refs.dom().contains(bk));
            assert(s1.is_free(ak) && s1.is_free(bk));
        }
        let h1 = self.link(ns, vs);
        let ghost s2 = self@;
        let ghost u1 = ends_of(solo(na)) + duo(a1k, ak);
        proof {
            assert(u1 =~= duo(a1k, ak));
            assert forall|x: u64| s0.is_free(x) && !seq![ak].contains(x) implies !no_vars().contains(
                x,
            ) && !u1.contains(x) by {
                assert(seq![ak][0] == ak);
                if u1.contains(x) {
                    let k = choose|k: int| 0 <= k < u1.len() && u1[k] == x;
                }
            }
            lemma_keeps_chain(s0, s1, s2, no_vars(), u1, seq![ak]);
            assert(!u1.contains(a2k)) by {
                if u1.contains(a2k) {
                    let k = choose|k: int| 0 <= k < u1.len() && u1[k] == a2k;
                }
            }
            assert(s2.is_free(a2k));
            assert(!seq![ak].contains(bk)) by {
                if seq![ak].contains(bk) {
                    let k = choose|k: int| 0 <= k < seq![ak].len() && seq![ak][k] == bk;
                }
            }
            assert(s2.is_free(bk));
        }
        let (b1, b2) = self.wire();
        let ghost s3 = self@;
        let ghost b1k = b1.key();
        let ghost b2k = b2.key();
        let mut ns2: Vec<Node> = Vec::new();
        ns2.push(nb);
        let mut vs2: Vec<Var> = Vec::new();
        vs2.push(b1);
        vs2.push(b);
        proof {
            assert(ns2@ =~= solo(nb));
            assert(keys_of(vs2@) =~= duo(b1k, bk));
            lemma_ends_of_one(nb);
            assert(ends_of(ns2@) =~= Seq::<u64>::empty());
            assert(s2.refs.dom().contains(bk));
            assert(s3.is_free(bk));
            assert(s3.is_free(a2k));
        }
        let h2 = self.link(ns2, vs2);
        let ghost s4 = self@;
        let ghost u2 = ends_of(solo(nb)) + duo(b1k, bk);
        proof {
            assert(u2 =~= duo(b1k, bk));
            lemma_keeps_chain(s0, s2, s3, seq![ak], no_vars(), seq![ak]);
            assert forall|x: u64| s0.is_free(x) && !duo(ak, bk).contains(x) implies !seq![
                ak,
            ].contains(x) && !u2.contains(x) by {
                assert(duo(ak, bk)[0] == ak && duo(ak, bk)[1] == bk);
                if seq![ak].contains(x) {
                    let k = choose|k: int| 0 <= k < seq![ak].len() && seq![ak][k] == x;
                }
                assert(s2.is_free(x));
                if u2.contains(x) {
                    let k = choose|k: int| 0 <= k < u2.len() && u2[k] == x;
                }
            }
            lemma_keeps_chain(s0, s3, s4, seq![ak], u2, duo(ak, bk));
            assert(!u2.contains(a2k)) by {
                if u2.contains(a2k) {
                    let k = choose|k: int| 0 <= k < u2.len() && u2[k] == a2k;
                }
            }
            assert(!u2.contains(b2k)) by {
                if u2.contains(b2k) {
                    let k = choose|k: int| 0 <= k < u2.len() && u2[k] == b2k;
                }
            }
            assert(s4.is_free(a2k));
            assert(s4.is_free(b2k));
            assert(s0.makes_edge(duo(a1k, a2k), no_nodes(), s1));
            assert(s1.links(solo(na), duo(a1k, ak), h1.id, s2));
            assert(s2.makes_edge(duo(b1k, b2k), no_nodes(), s3));
            assert(s3.links(solo(nb), duo(b1k, bk), h2.id, s4));
            lemma_weight_makes_edge(s0, duo(a1k, a2k), no_nodes(), s1);
            lemma_weight_links(s1, solo(na), duo(a1k, ak), h1.id, s2);
            lemma_weight_makes_edge(s2, duo(b1k, b2k), no_nodes(), s3);
            lemma_weight_links(s3, solo(nb), duo(b1k, bk), h2.id, s4);
            assert(edge_weight(no_nodes()) == 0);
            assert(solo(na).drop_last() =~= no_nodes());
            assert(solo(nb).drop_last() =~= no_nodes());
            assert(edge_weight(solo(na)) == 1);
            assert(edge_weight(solo(nb)) == 1);
            assert forall|x: u64| s0.is_free(x) && x != ak && x != bk implies x != a2k && x
                != b2k by {
                assert(!seq![ak].contains(x)) by {
                    if seq![ak].contains(x) {
                        let k = choose|k: int| 0 <= k < seq![ak].len() && seq![ak][k] == x;
                    }
                }
                assert(s2.is_free(x));
            }
        }
        (a2, b2)
    }

    /// The structural rule.
    fn reduce_cons(&mut self, redex_type_key: PartialTypeKey, nodes: Vec<Node>)
        requires
            old(self).wf(),
            old(self)@.can_take(nodes@),
            old(self)@.loose(redex_type_key.id),
            old(self)@.types[redex_type_key.id] is Free,
            forall|j: int| 0 <= j < nodes.len() ==> (#[trigger] nodes@[j]).is_cons(),
            old(self).room() >= 2,
        ensures
            final(self).wf(),
            old(self)@.cons_step(redex_type_key.id, nodes@, final(self)@),
            old(self)@.grows_to(final(self)@),
            old(self)@.resolves(redex_type_key.id, nodes@, final(self)@),
            final(self)@.weight() <= old(self)@.weight(),
            final(self).room() == old(self).room() - 2,
    {
        let ghost s0 = self@;
        let ghost all = nodes@;
        let ghost h = redex_type_key.id;
        proof {
            lemma_firsts_seconds(all);
        }
        let (link_a_vars, link_b_vars) = split_ends(nodes);
        let none_a: Vec<Node> = Vec::new();
        proof {
            assert(none_a@ =~= no_nodes());
            assert(ends_of(no_nodes()) =~= Seq::<u64>::empty());
            assert forall|i: int| 0 <= i < firsts(all).len() implies s0.is_free(
                #[trigger] firsts(all)[i],
            ) by {
                assert(firsts(all).contains(firsts(all)[i]));
            }
        }
        let type_a = self.link(none_a, link_a_vars);
        let ghost s1 = self@;
        let none_b: Vec<Node> = Vec::new();
        proof {
            assert(none_b@ =~= no_nodes());
            assert(ends_of(no_nodes()) + firsts(all) =~= firsts(all));
            assert forall|i: int| 0 <= i < seconds(all).len() implies s1.is_free(
                #[trigger] seconds(all)[i],
            ) by {
                let x = seconds(all)[i];
                assert(seconds(all).contains(x));
                assert(ends_of(all).contains(x));
                assert(s0.is_free(x));
                assert(!firsts(all).contains(x));
            }
            assert(s1.loose(h));
        }
        let type_b = self.link(none_b, link_b_vars);
        let ghost s2 = self@;
        let arrow = PartialType::Arrow { a: type_a, b: type_b };
        proof {
            assert(s2.loose(h));
            assert(s1.types.dom().contains(h));
            assert(s2.types.dom().contains(type_a.id));
            assert(s2.types.dom().contains(type_b.id));
        }
        proof {
            lemma_arrows_kept(s0, s1);
            lemma_arrows_kept(s1, s2);
            lemma_arrows_kept_chain(s0, s1, s2);
            lemma_heads_at(s0, s1, h);
            lemma_heads_at(s1, s2, h);
            lemma_heads_at_chain(s0, s1, s2, h);
            lemma_grows_chain(s0, s1, s2);
        }
        self.set_type(redex_type_key, arrow);
        proof {
            assert(s0.links(no_nodes(), firsts(all), type_a.id, s1));
            assert(s1.links(no_nodes(), seconds(all), type_b.id, s2));
            lemma_resolved(s0, s2, h, all, arrow);
            assert forall|i: int| 0 <= i < firsts(all).len() implies s0.refs.dom().contains(
                #[trigger] firsts(all)[i],
            ) by {
                assert(s0.is_free(firsts(all)[i]));
            }
            assert forall|i: int| 0 <= i < seconds(all).len() implies s1.refs.dom().contains(
                #[trigger] seconds(all)[i],
            ) by {
                assert(s1.is_free(seconds(all)[i]));
            }
            lemma_weight_links(s0, no_nodes(), firsts(all), type_a.id, s1);
            lemma_weight_links(s1, no_nodes(), seconds(all), type_b.id, s2);
            lemma_weight_set(s2, h, arrow);
            assert(edge_weight(no_nodes()) == 0);
        }
    }

    /// The unsafe rule.
    fn reduce_unsafe(&mut self, redex_type_key: PartialTypeKey, nodes: Vec<Node>)
        requires
            old(self).wf(),
            old(self)@.can_take(nodes@),
            old(self)@.loose(redex_type_key.id),
            old(self)@.types[redex_type_key.id] is Free,
            old(self).room() >= 1,
        ensures
            final(self).wf(),
            old(self)@.unsafe_step(redex_type_key.id, nodes@, final(self)@),
            old(self)@.grows_to(final(self)@),
            old(self)@.resolves(redex_type_key.id, nodes@, final(self)@),
            final(self)@.weight() == old(self)@.weight() + cons_only(nodes@).len(),
            final(self).room() == old(self).room() - 1,
    {
        let ghost s0 = self@;
        let ghost all = nodes@;
        let ghost h = redex_type_key.id;
        let result_nodes = drop_marks(nodes);
        let result_vars: Vec<Var> = Vec::new();
        proof {
            lemma_cons_only(all);
            assert(keys_of(result_vars@) =~= no_vars());
        }
        let type_key = self.link(result_nodes, result_vars);
        let ghost s1 = self@;
        let marked = PartialType::Unsafe { a: type_key };
        proof {
            assert(s1.loose(h));
            assert(s0.links(cons_only(all), no_vars(), type_key.id, s1));
            lemma_arrows_kept(s0, s1);
            lemma_heads_at(s0, s1, h);
            if has_cons(all) {
                lemma_cons_only_has(all);
                let c = choose|c: int|
                    0 <= c < cons_only(all).len() && (#[trigger] cons_only(all)[c]).is_cons();
                lemma_links_nodes(s0, cons_only(all), type_key.id, s1);
                let p = Place::Redex(s0.redexes.len() as int);
                assert(s1.has(p) && s1.type_at(p) == type_key.id && s1.nodes_at(p) == cons_only(
                    all,
                ));
                lemma_bound_at(s1, p);
            }
        }
        self.set_type(redex_type_key, marked);
        proof {
            lemma_resolved(s0, s1, h, all, marked);
            lemma_weight_links_nodes(s0, cons_only(all), type_key.id, s1);
            lemma_weight_set(s1, h, marked);
            lemma_cons_only_weight(all);
        }
    }

    /// The decoration rule.
    #[verifier::rlimit(30)]
    fn reduce_decoration(
        &mut self,
        redex_type_key: PartialTypeKey,
        nodes: Vec<Node>,
        affine: bool,
        ann: bool,
        chk: bool,
    )
        requires
            old(self).wf(),
            old(self)@.can_take(nodes@),
            old(self)@.loose(redex_type_key.id),
            old(self)@.types[redex_type_key.id] is Free,
            old(self).room() >= 6 * nodes.len() + 1,
        ensures
            final(self).wf(),
            old(self)@.decorate_step(redex_type_key.id, nodes@, affine, ann, chk, final(self)@),
            old(self)@.grows_to(final(self)@),
            old(self)@.resolves(redex_type_key.id, nodes@, final(self)@),
            final(self)@.weight() <= old(self)@.weight() + 3 * cons_only(nodes@).len(),
            final(self).room() >= old(self).room() - (6 * nodes.len() + 1),
    {
        let ghost pre = self@;
        let ghost all = nodes@;
        let ghost h = redex_type_key.id;
        let mut result_nodes: Vec<Node> = Vec::new();
        proof {
            assert(all.take(0) =~= Seq::<Node>::empty());
            assert(all.skip(0) =~= all);
            assert(ends_of(result_nodes@) =~= Seq::<u64>::empty());
            assert(ends_of(result_nodes@) + ends_of(all.skip(0)) =~= ends_of(all));
            lemma_arrows_kept_chain(pre, pre, pre);
            assert(!has_cons(all.take(0)));
        }
        for node in it: nodes
            invariant
                it.seq() == all,
                self.wf(),
                pre.wf(),
                pre.arrows_kept(self@),
                pre.heads_at(self@, h),
                self@.types[h] is Free,
                has_cons(all.take(it.index() as int)) ==> has_cons(result_nodes@),
                all_cons(result_nodes@),
                result_nodes@.len() == cons_only(all.take(it.index() as int)).len(),
                self@.weight() <= pre.weight() + 2 * result_nodes@.len(),
                pre.decorates(all.take(it.index() as int), affine, ann, chk, self@, result_nodes@),
                (ends_of(result_nodes@) + ends_of(all.skip(it.index() as int))).no_duplicates(),
                forall|x: u64|
                    (ends_of(result_nodes@) + ends_of(all.skip(it.index() as int))).contains(x)
                        ==> self@.is_free(x),
                self@.loose(h),
                pre.grows_to(self@),
                self.room() >= old(self).room() - 6 * it.index(),
                old(self).room() >= 6 * all.len() + 1,
        {
            let ghost i = it.index() as int;
            let ghost before = self@;
            let ghost out0 = result_nodes@;
            let ghost r0 = ends_of(out0);
            let ghost rest = ends_of(all.skip(i + 1));
            let ghost nd = node;
            proof {
                assert(nd == all[i]);
                lemma_ends_skip(all, i);
                assert(all.take(i + 1).drop_last() =~= all.take(i));
                assert(all.take(i + 1).last() == nd);
            }
            match node {
                Node::Lam(lam) => {
                    if chk {
                        let ghost ak = lam.a.key();
                        let ghost bk = lam.b.key();
                        proof {
                            let e0 = r0 + (nd.ends() + rest);
                            assert(e0[r0.len() as int] == ak);
                            assert(e0[r0.len() as int + 1] == bk);
                            assert(e0.contains(ak) && e0.contains(bk));
                        }
                        let marks = if affine {
                            (Node::NAffAnn, Node::AffChk)
                        } else {
                            (Node::AffAnn, Node::NAffChk)
                        };
                        let (a2, b2) = self.mark_ends(lam.a, lam.b, marks.0, marks.1);
                        let made = Node::Lam(Lam { a: a2, b: b2 });
                        proof {
                            lemma_after_marks(before, self@, r0, nd, rest, made);
                            lemma_ends_of_one(made);
                            lemma_ends_of_concat(out0, seq![made]);
                            assert(out0.push(made) =~= out0 + solo(made));
                            assert(before.decorates_one(nd, affine, ann, chk, self@, solo(made)));
                            lemma_decorates_next(
                                pre,
                                all.take(i + 1),
                                affine,
                                ann,
                                chk,
                                before,
                                out0,
                                self@,
                                solo(made),
                            );
                            lemma_grows_chain(pre, before, self@);
                            lemma_arrows_kept(before, self@);
                            lemma_arrows_kept_chain(pre, before, self@);
                            assert(self@.loose(h));
                            assert(self@.types[h] == before.types[h]);
                            lemma_heads_at(before, self@, h);
                            lemma_heads_at_chain(pre, before, self@, h);
                            lemma_has_cons_concat(out0, solo(made));
                            assert(solo(made)[0].is_cons());
                        }
                        result_nodes.push(made);
                    } else {
                        proof {
                            lemma_ends_of_one(nd);
                            lemma_ends_of_concat(out0, seq![nd]);
                            assert(out0.push(nd) =~= out0 + solo(nd));
                            assert((r0 + nd.ends()) + rest =~= r0 + (nd.ends() + rest));
                            lemma_has_cons_concat(out0, solo(nd));
                            assert(solo(nd)[0].is_cons());
                            assert(before.decorates_one(nd, affine, ann, chk, self@, solo(nd)));
                            lemma_decorates_next(
                                pre,
                                all.take(i + 1),
                                affine,
                                ann,
                                chk,
                                before,
                                out0,
                                self@,
                                solo(nd),
                            );
                        }
                        result_nodes.push(Node::Lam(lam));
                    }
                },
                Node::App(app) => {
                    if ann {
                        let ghost ak = app.a.key();
                        let ghost bk = app.b.key();
                        proof {
                            let e0 = r0 + (nd.ends() + rest);
                            assert(e0[r0.len() as int] == ak);
                            assert(e0[r0.len() as int + 1] == bk);
                            assert(e0.contains(ak) && e0.contains(bk));
                        }
                        let marks = if affine {
                            (Node::NAffChk, Node::AffAnn)
                        } else {
                            (Node::AffChk, Node::NAffAnn)
                        };
                        let (a2, b2) = self.mark_ends(app.a, app.b, marks.0, marks.1);
                        let made = Node::App(App { a: a2, b: b2 });
                        proof {
                            lemma_after_marks(before, self@, r0, nd, rest, made);
                            lemma_ends_of_one(made);
                            lemma_ends_of_concat(out0, seq![made]);
                            assert(out0.push(made) =~= out0 + solo(made));
                            assert(before.decorates_one(nd, affine, ann, chk, self@, solo(made)));
                            lemma_decorates_next(
                                pre,
                                all.take(i + 1),
                                affine,
                                ann,
                                chk,
                                before,
                                out0,
                                self@,
                                solo(made),
                            );
                            lemma_grows_chain(pre, before, self@);
                            lemma_arrows_kept(before, self@);
                            lemma_arrows_kept_chain(pre, before, self@);
                            assert(self@.loose(h));
                            assert(self@.types[h] == before.types[h]);
                            lemma_heads_at(before, self@, h);
                            lemma_heads_at_chain(pre, before, self@, h);
                            lemma_has_cons_concat(out0, solo(made));
                            assert(solo(made)[0].is_cons());
                        }
                        result_nodes.push(made);
                    } else {
                        proof {
                            lemma_ends_of_one(nd);
                            lemma_ends_of_concat(out0, seq![nd]);
                            assert(out0.push(nd) =~= out0 + solo(nd));
                            assert((r0 + nd.ends()) + rest =~= r0 + (nd.ends() + rest));
                            lemma_has_cons_concat(out0, solo(nd));
                            assert(solo(nd)[0].is_cons());
                            assert(before.decorates_one(nd, affine, ann, chk, self@, solo(nd)));
                            lemma_decorates_next(
                                pre,
                                all.take(i + 1),
                                affine,
                                ann,
                                chk,
                                before,
                                out0,
                                self@,
                                solo(nd),
                            );
                        }
                        result_nodes.push(Node::App(app));
                    }
                },
                _ => {
                    proof {
                        if has_cons(all.take(i + 1)) {
                            let c = choose|c: int|
                                0 <= c < i + 1 && (#[trigger] all.take(i + 1)[c]).is_cons();
                            assert(all.take(i)[c].is_cons());
                        }
                        assert(nd.ends() =~= Seq::<u64>::empty());
                        assert(r0 + rest =~= r0 + (nd.ends() + rest));
                        assert(out0 + no_nodes() =~= out0);
                        assert(before.decorates_one(nd, affine, ann, chk, self@, no_nodes()));
                        lemma_decorates_next(
                            pre,
                            all.take(i + 1),
                            affine,
                            ann,
                            chk,
                            before,
                            out0,
                            self@,
                            no_nodes(),
                        );
                    }
                },
            }
        }
        let ghost s0 = self@;
        let result_vars: Vec<Var> = Vec::new();
        proof {
            assert(all.take(all.len() as int) =~= all);
            assert(all.skip(all.len() as int) =~= Seq::<Node>::empty());
            assert(ends_of(all.skip(all.len() as int)) =~= Seq::<u64>::empty());
            assert(ends_of(result_nodes@) + ends_of(all.skip(all.len() as int)) =~= ends_of(
                result_nodes@,
            ));
            assert(keys_of(result_vars@) =~= no_vars());
        }
        let ghost out = result_nodes@;
        let type_key = self.link(result_nodes, result_vars);
        let ghost s1 = self@;
        proof {
            lemma_weight_links_nodes(s0, out, type_key.id, s1);
            lemma_weight_set(s1, h, if affine {
                PartialType::Cloneable { a: type_key }
            } else {
                PartialType::Uncloneable { a: type_key }
            });
        }
        let marked = if affine {
            PartialType::Cloneable { a: type_key }
        } else {
            PartialType::Uncloneable { a: type_key }
        };
        proof {
            assert(s1.loose(h));
            assert(s0.links(out, no_vars(), type_key.id, s1));
            lemma_grows_chain(pre, s0, s1);
            lemma_arrows_kept(s0, s1);
            lemma_arrows_kept_chain(pre, s0, s1);
            lemma_heads_at(s0, s1, h);
            lemma_heads_at_chain(pre, s0, s1, h);
            if has_cons(all) {
                let c = choose|c: int| 0 <= c < out.len() && (#[trigger] out[c]).is_cons();
                lemma_links_nodes(s0, out, type_key.id, s1);
                let p = Place::Redex(s0.redexes.len() as int);
                assert(s1.has(p) && s1.type_at(p) == type_key.id && s1.nodes_at(p) == out);
                lemma_bound_at(s1, p);
            }
        }
        self.set_type(redex_type_key, marked);
        proof {
            lemma_grows_chain(pre, s1, self@);
            lemma_resolved(pre, s1, h, all, marked);
        }
    }

    /// Tells whether every arena takes `needed` more values.
    pub fn has_room(&self, needed: usize) -> (b: bool)
        requires
            self.wf(),
        ensures
            b == (self.room() >= needed),
    {
        let limit: usize = 0xffff_fffe;
        needed <= limit && self.used <= limit - needed
    }

    /// Tells whether there is room for the next reduction step.
    pub fn can_reduce(&self) -> (b: bool)
        requires
            self.wf(),
        ensures
            b == (self.room() >= self@.reduce_cost()),
    {
        let n = self.redexes.len();
        if n == 0 {
            return true;
        }
        let len = self.redexes[n - 1].1.len();
        assert(self@.redexes.last().nodes.len() == len);
        if len > 0x2aaa_aaaa {
            return false;
        }
        self.has_room(6 * len + 2)
    }

    /// Reduces until no redex is left, as long as there is room for the
    /// next step. Every step lowers the weight of the net, so this ends.
    pub fn reduce_to_fixpoint(&mut self)
        requires
            old(self).wf(),
        ensures
            final(self).wf(),
            exists|steps: nat| old(self)@.reduces_in(steps, final(self)@),
            old(self)@.grows_to(final(self)@),
            old(self)@.arrows_kept(final(self)@),
            !old(self)@.is_reducible() ==> final(self)@ == old(self)@,
            final(self)@.is_reducible() ==> final(self).room() < final(self)@.reduce_cost(),
            old(self).room() >= old(self)@.room_to_finish() ==> !final(self)@.is_reducible(),
            final(self)@.weight() <= old(self)@.weight(),
    {
        let ghost pre = self@;
        let ghost room0 = self.room();
        let ghost w0 = pre.weight() as int;
        let ghost c = 6 * w0 + 2;
        let ghost mut steps: nat = 0;
        proof {
            lemma_grows_chain(pre, pre, pre);
            lemma_arrows_kept_chain(pre, pre, pre);
            assert((w0 - w0) * c == 0) by (nonlinear_arith);
        }
        while self.is_reducible()
            invariant
                self.wf(),
                pre.reduces_in(steps, self@),
                pre.grows_to(self@),
                pre.arrows_kept(self@),
                c == 6 * w0 + 2,
                self@.weight() <= w0,
                self.room() >= room0 - (w0 - self@.weight()) * c,
            ensures
                self.wf(),
                pre.reduces_in(steps, self@),
                pre.grows_to(self@),
                pre.arrows_kept(self@),
                c == 6 * w0 + 2,
                self@.weight() <= w0,
                self.room() >= room0 - (w0 - self@.weight()) * c,
                self@.is_reducible() ==> self.room() < self@.reduce_cost(),
            decreases self@.weight(),
        {
            if !self.can_reduce() {
                break ;
            }
            let ghost before = self@;
            let ghost room = self.room();
            self.reduce();
            proof {
                lemma_reduces_in_next(pre, steps, before, self@);
                lemma_grows_chain(pre, before, self@);
                lemma_arrows_kept_chain(pre, before, self@);
                lemma_cost_within_weight(before);
                lemma_room_left(
                    room0,
                    room,
                    self.room(),
                    w0,
                    before.weight() as int,
                    self@.weight() as int,
                    c,
                );
                steps = steps + 1;
            }
        }
        proof {
            if !pre.is_reducible() {
                lemma_finished_stays(pre, steps, self@);
            }
            if room0 >= pre.room_to_finish() && self@.is_reducible() {
                lemma_cost_within_weight(self@);
                lemma_room_suffices(room0, self.room(), w0, self@.weight() as int, c);
            }
        }
    }

    /// Takes the last redex out and resolves it by the rule that its marks
    /// select. Without a redex nothing changes.
    pub fn reduce(&mut self)
        requires
            old(self).wf(),
            old(self)@.is_reducible() ==> old(self).room() >= old(self)@.reduce_cost(),
        ensures
            final(self).wf(),
            old(self)@.reduces_to(final(self)@),
            old(self)@.grows_to(final(self)@),
            old(self)@.arrows_kept(final(self)@),
            old(self)@.is_reducible() ==> final(self)@.weight() < old(self)@.weight(),
            final(self).room() >= old(self).room() - old(self)@.reduce_cost(),
    {
        let ghost pre = self@;
        let r = self.redexes.pop();
        if let Some((redex_type_key, nodes)) = r {
            let ghost all = nodes@;
            proof {
                assert(self@.redexes =~= pre.redexes.drop_last());
                assert(self@ =~= pre.popped());
                lemma_popped(pre);
                lemma_weight_popped(pre);
                lemma_cons_only_weight(all);
                lemma_edge_weight_bounds(all);
                assert(all.len() >= 1);
                assert(all == pre.redexes.last().nodes);
                assert(redex_type_key.id == pre.redexes.last().type_key);
            }
            let mut has_aff_ann = false;
            let mut has_aff_chk = false;
            let mut has_naff_ann = false;
            let mut has_naff_chk = false;
            let mut j: usize = 0;
            while j < nodes.len()
                invariant
                    j <= nodes.len(),
                    all == nodes@,
                    has_aff_ann == seen(all, j as int, Node::AffAnn),
                    has_aff_chk == seen(all, j as int, Node::AffChk),
                    has_naff_ann == seen(all, j as int, Node::NAffAnn),
                    has_naff_chk == seen(all, j as int, Node::NAffChk),
                decreases nodes.len() - j,
            {
                match &nodes[j] {
                    Node::Lam(_) => {},
                    Node::App(_) => {},
                    Node::AffAnn => {
                        has_aff_ann = true;
                    },
                    Node::AffChk => {
                        has_aff_chk = true;
                    },
                    Node::NAffAnn => {
                        has_naff_ann = true;
                    },
                    Node::NAffChk => {
                        has_naff_chk = true;
                    },
                }
                proof {
                    lemma_seen_next(all, j as int, Node::AffAnn);
                    lemma_seen_next(all, j as int, Node::AffChk);
                    lemma_seen_next(all, j as int, Node::NAffAnn);
                    lemma_seen_next(all, j as int, Node::NAffChk);
                }
                j += 1;
            }
            proof {
                lemma_seen_all(all);
                if has_aff(all) {
                    let j = choose|j: int| 0 <= j < all.len() && (#[trigger] all[j]).is_aff();
                    assert(!all[j].is_cons());
                }
                if has_naff(all) {
                    let j = choose|j: int| 0 <= j < all.len() && (#[trigger] all[j]).is_naff();
                    assert(!all[j].is_cons());
                }
            }
            if (has_aff_ann || has_aff_chk) && (has_naff_ann || has_naff_chk) {
                self.reduce_unsafe(redex_type_key, nodes);
            } else if has_aff_ann || has_aff_chk || has_naff_ann || has_naff_chk {
                self.reduce_decoration(
                    redex_type_key,
                    nodes,
                    has_aff_ann || has_aff_chk,
                    has_aff_ann || has_naff_ann,
                    has_aff_chk || has_naff_chk,
                );
            } else {
                proof {
                    assert forall|k: int| 0 <= k < all.len() implies (#[trigger] all[k]).is_cons() by {
                        let n = all[k];
                        if n.is_aff() || n.is_naff() {
                            assert(has_aff(all) || has_naff(all));
                        }
                    }
                }
                self.reduce_cons(redex_type_key, nodes);
            }
            proof {
                lemma_grows_chain(pre, pre.popped(), self@);
                lemma_reduced_arrows(pre, self@);
            }
        } else {
            assert(self@ =~= pre);
        }
    }
}

/// A decoration that passed all nodes but the last, and then the last,
/// passed them all.
pub proof fn lemma_decorates_next(
    pre: NetView,
    nodes: Seq<Node>,
    affine: bool,
    ann: bool,
    chk: bool,
    mid: NetView,
    head: Seq<Node>,
    post: NetView,
    tail: Seq<Node>,
)
    requires
        nodes.len() > 0,
        pre.decorates(nodes.drop_last(), affine, ann, chk, mid, head),
        mid.decorates_one(nodes.last(), affine, ann, chk, post, tail),
    ensures
        pre.decorates(nodes, affine, ann, chk, post, head + tail),
{
    let out = head + tail;
    assert(out.take(out.len() - tail.len()) =~= head);
    assert(out.skip(out.len() - tail.len()) =~= tail);
}

/// A net without a redex stays as it is, however often it is reduced.
pub proof fn lemma_finished_stays(a: NetView, n: nat, b: NetView)
    requires
        !a.is_reducible(),
        a.reduces_in(n, b),
    ensures
        b == a,
    decreases n,
{
    if n > 0 {
        let mid = choose|mid: NetView|
            a.reduces_in((n - 1) as nat, mid) && #[trigger] mid.reduces_to(b);
        lemma_finished_stays(a, (n - 1) as nat, mid);
    }
}

/// A step costs no more than the weight of the net allows.
pub proof fn lemma_cost_within_weight(v: NetView)
    ensures
        v.reduce_cost() <= 6 * v.weight() + 2,
{
    if v.redexes.len() > 0 {
        lemma_weight_popped(v);
        lemma_edge_weight_bounds(v.redexes.last().nodes);
    }
}

/// Room that is left after some steps, each within the cost `c`, of which
/// every one lowered the weight from at most `w0`.
proof fn lemma_room_left(room0: int, room: int, room2: int, w0: int, w: int, w2: int, c: int)
    requires
        0 <= c,
        w2 < w <= w0,
        room >= room0 - (w0 - w) * c,
        room2 >= room - c,
    ensures
        room2 >= room0 - (w0 - w2) * c,
{
    assert((w0 - w2) * c >= (w0 - w) * c + c) by (nonlinear_arith)
        requires
            0 <= c,
            w2 < w,
    ;
}

/// With room for every step nothing stops reduction short of its end.
proof fn lemma_room_suffices(room0: int, room: int, w0: int, w: int, c: int)
    requires
        0 <= c,
        0 <= w <= w0,
        room >= room0 - (w0 - w) * c,
        room0 >= (w0 + 1) * c,
    ensures
        room >= c,
{
    assert((w0 + 1) * c - (w0 - w) * c >= c) by (nonlinear_arith)
        requires
            0 <= c,
            0 <= w,
    ;
}

/// Reduction to the end is idempotent: reducing the result to its end
/// again gives the same net.
pub proof fn lemma_reduction_is_idempotent(a: NetView, b: NetView, c: NetView)
    requires
        a.reduces_fully_to(b),
        b.reduces_fully_to(c),
    ensures
        c == b,
{
    let n = choose|n: nat| b.reduces_in(n, c);
    lemma_finished_stays(b, n, c);
}

/// Steps of reduction add up.
pub proof fn lemma_reduces_in_next(a: NetView, n: nat, b: NetView, c: NetView)
    requires
        a.reduces_in(n, b),
        b.reduces_to(c),
    ensures
        a.reduces_in(n + 1, c),
{
}

/// A step that resolves the last redex keeps every handle on its way to
/// an arrow.
proof fn lemma_reduced_arrows(pre: NetView, post: NetView)
    requires
        pre.wf(),
        pre.redexes.len() > 0,
        pre.popped().wf(),
        pre.popped().resolves(pre.redexes.last().type_key, pre.redexes.last().nodes, post),
    ensures
        pre.arrows_kept(post),
{
    let s0 = pre.popped();
    let h = pre.redexes.last().type_key;
    let nodes = pre.redexes.last().nodes;
    let last = Place::Redex(pre.redexes.len() - 1);
    assert(pre.has(last));
    assert(s0.grows_to(s0)) by {}
    assert forall|k: u64| #![trigger post.arrow_bound(k)] pre.arrow_bound(k) implies post.arrow_bound(
        k,
    ) by {
        let x = pre.head_of(k);
        lemma_head_of(pre, k);
        assert(pre.grows_to(s0));
        assert(pre.settled_in(s0));
        lemma_head_kept(pre, s0, k);
        assert(s0.head_of(x) == x);
        if pre.types[x] is Arrow {
            assert(s0.arrow_bound(k));
        } else {
            let p = choose|p: Place|
                #![trigger pre.has(p)]
                pre.has(p) && pre.type_at(p) == x && has_cons(pre.nodes_at(p));
            if p == last {
                assert(x == h && has_cons(nodes));
            } else {
                match p {
                    Place::Edge(e) => {},
                    Place::Redex(i) => {
                        assert(s0.redexes[i] == pre.redexes[i]);
                    },
                }
                assert(s0.has(p) && s0.type_at(p) == x && s0.nodes_at(p) == pre.nodes_at(p));
                assert(s0.arrow_bound(k));
            }
        }
    }
}

/// One more node seen.
pub proof fn lemma_seen_next(nodes: Seq<Node>, j: int, mark: Node)
    requires
        0 <= j < nodes.len(),
    ensures
        seen(nodes, j + 1, mark) <==> seen(nodes, j, mark) || nodes[j] == mark,
{
    if seen(nodes, j + 1, mark) {
        let k = choose|k: int| 0 <= k < j + 1 && #[trigger] nodes[k] == mark;
        if k < j {
            assert(seen(nodes, j, mark));
        }
    }
    if seen(nodes, j, mark) {
        let k = choose|k: int| 0 <= k < j && #[trigger] nodes[k] == mark;
        assert(0 <= k < j + 1 && nodes[k] == mark);
    }
}

/// The marks seen among all the nodes are the marks that the nodes have.
pub proof fn lemma_seen_all(nodes: Seq<Node>)
    ensures
        has_aff(nodes) <==> seen(nodes, nodes.len() as int, Node::AffAnn) || seen(
            nodes,
            nodes.len() as int,
            Node::AffChk,
        ),
        has_naff(nodes) <==> seen(nodes, nodes.len() as int, Node::NAffAnn) || seen(
            nodes,
            nodes.len() as int,
            Node::NAffChk,
        ),
        has_ann(nodes) <==> seen(nodes, nodes.len() as int, Node::AffAnn) || seen(
            nodes,
            nodes.len() as int,
            Node::NAffAnn,
        ),
        has_chk(nodes) <==> seen(nodes, nodes.len() as int, Node::AffChk) || seen(
            nodes,
            nodes.len() as int,
            Node::NAffChk,
        ),
{
    let n = nodes.len() as int;
    if has_aff(nodes) {
        let j = choose|j: int| 0 <= j < nodes.len() && (#[trigger] nodes[j]).is_aff();
        assert(nodes[j] == Node::AffAnn || nodes[j] == Node::AffChk);
    }
    if has_naff(nodes) {
        let j = choose|j: int| 0 <= j < nodes.len() && (#[trigger] nodes[j]).is_naff();
        assert(nodes[j] == Node::NAffAnn || nodes[j] == Node::NAffChk);
    }
    if has_ann(nodes) {
        let j = choose|j: int| 0 <= j < nodes.len() && (#[trigger] nodes[j]).is_ann();
        assert(nodes[j] == Node::AffAnn || nodes[j] == Node::NAffAnn);
    }
    if has_chk(nodes) {
        let j = choose|j: int| 0 <= j < nodes.len() && (#[trigger] nodes[j]).is_chk();
        assert(nodes[j] == Node::AffChk || nodes[j] == Node::NAffChk);
    }
    if seen(nodes, n, Node::AffAnn) {
        let k = choose|k: int| 0 <= k < n && #[trigger] nodes[k] == Node::AffAnn;
        assert(nodes[k].is_aff() && nodes[k].is_ann());
    }
    if seen(nodes, n, Node::AffChk) {
        let k = choose|k: int| 0 <= k < n && #[trigger] nodes[k] == Node::AffChk;
        assert(nodes[k].is_aff() && nodes[k].is_chk());
    }
    if seen(nodes, n, Node::NAffAnn) {
        let k = choose|k: int| 0 <= k < n && #[trigger] nodes[k] == Node::NAffAnn;
        assert(nodes[k].is_naff() && nodes[k].is_ann());
    }
    if seen(nodes, n, Node::NAffChk) {
        let k = choose|k: int| 0 <= k < n && #[trigger] nodes[k] == Node::NAffChk;
        assert(nodes[k].is_naff() && nodes[k].is_chk());
    }
}

/// After the endpoints of the node `nd` were marked and `made` took its
/// place, the endpoints of the nodes in hand are still distinct variables
/// in the caller's hands.
pub proof fn lemma_after_marks(
    before: NetView,
    after: NetView,
    r0: Seq<u64>,
    nd: Node,
    rest: Seq<u64>,
    made: Node,
)
    requires
        nd.is_cons(),
        made.is_cons(),
        (r0 + (nd.ends() + rest)).no_duplicates(),
        forall|x: u64| (r0 + (nd.ends() + rest)).contains(x) ==> before.is_free(x),
        before.keeps(after, duo(nd.ends()[0], nd.ends()[1])),
        after.is_free(made.ends()[0]),
        after.is_free(made.ends()[1]),
        made.ends()[0] != made.ends()[1],
        forall|x: u64|
            before.is_free(x) && x != nd.ends()[0] && x != nd.ends()[1] ==> x != made.ends()[0]
                && x != made.ends()[1],
    ensures
        ((r0 + made.ends()) + rest).no_duplicates(),
        forall|x: u64| ((r0 + made.ends()) + rest).contains(x) ==> after.is_free(x),
{
    let m = nd.ends();
    let m2 = made.ends();
    let e0 = r0 + (m + rest);
    assert(m =~= duo(m[0], m[1]));
    assert(m2 =~= duo(m2[0], m2[1]));
    assert forall|x: u64| r0.contains(x) || rest.contains(x) implies before.is_free(x) && !m.contains(
        x,
    ) && after.is_free(x) && !m2.contains(x) by {
        lemma_in_concat(m, rest, x);
        lemma_in_concat(r0, m + rest, x);
        assert(e0.contains(x));
        assert(before.is_free(x));
        lemma_mid_apart(r0, m, rest, x);
        assert(!m.contains(x));
        assert(m[0] == duo(m[0], m[1])[0] && m[1] == duo(m[0], m[1])[1]);
        assert(m.contains(m[0]) && m.contains(m[1]));
        assert(x != m[0] && x != m[1]);
        if duo(m[0], m[1]).contains(x) {
            let k = choose|k: int| 0 <= k < 2 && duo(m[0], m[1])[k] == x;
        }
        assert(!duo(m[0], m[1]).contains(x));
        assert(after.is_free(x));
        if m2.contains(x) {
            let k = choose|k: int| 0 <= k < m2.len() && m2[k] == x;
            assert(k == 0 || k == 1);
        }
        assert(!m2.contains(x));
    }
    lemma_no_dup_mid(r0, m, rest, m2);
    assert forall|x: u64| ((r0 + m2) + rest).contains(x) implies after.is_free(x) by {
        lemma_in_concat(r0 + m2, rest, x);
        lemma_in_concat(r0, m2, x);
        if m2.contains(x) {
            let k = choose|k: int| 0 <= k < m2.len() && m2[k] == x;
        }
    }
}

} // verus!
