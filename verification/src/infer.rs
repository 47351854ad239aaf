//! Type inference: a term is built into a net, the net is reduced, and
//! the types are read back.

pub mod alike;

use vstd::prelude::*;

use crate::lambda::enumerate::{lemma_enumerated_terms_are_closed, terms_between};
use crate::lambda::{lemma_occurrences_le_size, Expr};
use crate::net::arena::SLOT_LIMIT;
use crate::net::arrows::{
    lemma_arrow_type, lemma_arrows_kept, lemma_arrows_kept_chain, lemma_head_kept, lemma_head_of,
};
use crate::net::laws::{lemma_ends_of_one, lemma_keeps_chain};
use crate::infer::alike::lemma_built_weight;
use crate::net::measure::{edge_weight, lemma_weight_links};
use crate::net::model::{ends_of, NetView, Place};
use crate::net::types::Type;
use crate::net::reduce::{duo, no_nodes, solo};
use crate::net::types::PartialTypeKey;
use crate::net::{keys_of, App, Lam, Net, Node, Var};

verus! {

/// The keys of the variables of an environment.
pub open spec fn env_keys(vars: Seq<(Var, usize)>) -> Seq<u64> {
    Seq::new(vars.len(), |i: int| vars[i].0.key())
}

/// The variables of the environment are distinct variables of the net in
/// the caller's hands.
pub open spec fn env_ok(net: NetView, vars: Seq<(Var, usize)>) -> bool {
    &&& env_keys(vars).no_duplicates()
    &&& forall|i: int| 0 <= i < vars.len() ==> net.is_free(#[trigger] env_keys(vars)[i])
}

/// What building a term gives: the net, the term with the handles of its
/// types, and the edge-ref that names its root.
pub struct Built {
    pub net: NetView,
    pub term: Expr,
    pub root: u64,
}

/// A net, a term and a root as the result of building.
pub open spec fn built(net: NetView, term: Expr, root: u64) -> Built {
    Built { net, term, root }
}

/// The mark that a lambda whose variable is used twice or more puts on
/// the position of its parameter: a check of cloneability.
pub open spec fn fan_marks() -> Seq<Node> {
    seq![Node::AffChk]
}

/// The handle of the type of the edge-ref `root`, as a node of a term
/// holds it.
pub open spec fn type_at_root(net: NetView, root: u64) -> Option<PartialTypeKey> {
    Some(PartialTypeKey { id: net.handle_of(root) })
}

impl NetView {
    /// The net with the next fan label handed out.
    pub open spec fn labelled(self) -> NetView {
        NetView { next_label: (self.next_label + 1) as usize, ..self }
    }

    /// `post` is the net after the parameter `a` of a lambda, used
    /// `occurrences` times, was made ready: used less than twice it stays
    /// as it is; else a fan label is handed out and one side of a new wire
    /// is linked to `a` together with a check of cloneability, and the
    /// other side, `a_out`, takes its place.
    pub open spec fn fans(self, occurrences: nat, a: u64, a_out: u64, post: NetView) -> bool {
        if occurrences < 2 {
            post == self && a_out == a
        } else {
            exists|s1: NetView, a1: u64, h: u64|
                #![trigger
                    self.labelled().makes_edge(duo(a1, a_out), no_nodes(), s1),
                    s1.links(fan_marks(), duo(a, a1), h, post)
                ]
                self.labelled().makes_edge(duo(a1, a_out), no_nodes(), s1) && s1.links(
                    fan_marks(),
                    duo(a, a1),
                    h,
                    post,
                )
        }
    }

    /// `post` is the net after a lambda was put on top of its body: the
    /// parameter `a` is made ready, and a new edge holds the lambda node
    /// over the parameter and the root `body` of the body, and the new
    /// edge-ref `root`.
    pub open spec fn lam_glue(
        self,
        occurrences: nat,
        a: u64,
        body: u64,
        root: u64,
        post: NetView,
    ) -> bool {
        exists|s1: NetView, a_out: u64, node: Node|
            #![trigger self.fans(occurrences, a, a_out, s1), s1.makes_edge(solo_ref(root), solo(node), post)]
            self.fans(occurrences, a, a_out, s1) && node is Lam && node.ends() == duo(a_out, body)
                && s1.makes_edge(solo_ref(root), solo(node), post)
    }

    /// `post` is the net after an application was put on top of its
    /// function and its argument: a new wire is made, and the root `fun` of
    /// the function is linked to the application node over the root `arg`
    /// of the argument and one side of the wire; the other side is `root`.
    pub open spec fn app_glue(self, fun: u64, arg: u64, root: u64, post: NetView) -> bool {
        exists|s1: NetView, w1: u64, node: Node|
            #![trigger self.makes_edge(duo(w1, root), no_nodes(), s1), s1.with_node_linked(fun, node)]
            self.makes_edge(duo(w1, root), no_nodes(), s1) && node is App && node.ends() == duo(
                arg,
                w1,
            ) && post == s1.with_node_linked(fun, node)
    }

    /// `out` is what building `term` into the net gives, with `env` the
    /// edge-refs of the lambdas around the term, innermost first: a
    /// variable is a new edge-ref on the edge of its lambda; an
    /// application is built from its function and then its argument; a
    /// lambda makes an edge for its parameter and is built from its body.
    /// Every node gets the handle of the type of its root.
    pub open spec fn builds(self, term: Expr, env: Seq<u64>, out: Built) -> bool
        decreases term,
    {
        match term {
            Expr::Var(i, _) => {
                &&& !self.refs.dom().contains(out.root)
                &&& out.net == self.with_ref_added(env[i as int], out.root)
                &&& out.term == Expr::Var(i, type_at_root(out.net, out.root))
            },
            Expr::App(f, v, _) => exists|b1: Built, b2: Built|
                #![trigger b2.net.app_glue(b1.root, b2.root, out.root, out.net)]
                self.builds(*f, env, b1) && b1.net.builds(*v, env, b2) && b2.net.app_glue(
                    b1.root,
                    b2.root,
                    out.root,
                    out.net,
                ) && out.term == Expr::App(
                    Box::new(b1.term),
                    Box::new(b2.term),
                    type_at_root(out.net, out.root),
                ),
            Expr::Lam(body, _) => exists|a: u64, s1: NetView, b1: Built|
                #![trigger
                    self.makes_edge(solo_ref(a), no_nodes(), s1),
                    b1.net.lam_glue(body.occurrences(0), a, b1.root, out.root, out.net)
                ]
                self.makes_edge(solo_ref(a), no_nodes(), s1) && s1.builds(
                    *body,
                    seq![a] + env,
                    b1,
                ) && b1.net.lam_glue(body.occurrences(0), a, b1.root, out.root, out.net)
                    && out.term == Expr::Lam(Box::new(b1.term), type_at_root(out.net, out.root)),
        }
    }
}

/// One edge-ref alone.
pub open spec fn solo_ref(r: u64) -> Seq<u64> {
    seq![r]
}

/// A term that is typed in a type store is typed in every larger one.
pub proof fn lemma_typed_in_grows(term: Expr, small: Set<u64>, large: Set<u64>)
    requires
        term.typed_in(small),
        forall|k: u64| small.contains(k) ==> large.contains(k),
    ensures
        term.typed_in(large),
    decreases term,
{
    match term {
        Expr::Lam(body, _) => {
            lemma_typed_in_grows(*body, small, large);
        },
        Expr::App(f, v, _) => {
            lemma_typed_in_grows(*f, small, large);
            lemma_typed_in_grows(*v, small, large);
        },
        Expr::Var(_, _) => {},
    }
}

/// Lambdas whose types will be arrows in a net keep them so in a net that
/// keeps every handle on its way.
pub proof fn lemma_lams_bound_kept(term: Expr, a: NetView, b: NetView)
    requires
        term.lams_bound(a),
        a.arrows_kept(b),
    ensures
        term.lams_bound(b),
    decreases term,
{
    match term {
        Expr::Lam(body, key) => {
            assert(b.arrow_bound(key.unwrap().id));
            lemma_lams_bound_kept(*body, a, b);
        },
        Expr::App(f, v, _) => {
            lemma_lams_bound_kept(*f, a, b);
            lemma_lams_bound_kept(*v, a, b);
        },
        Expr::Var(_, _) => {},
    }
}

/// In a net without edges and redexes the lambdas whose types were to be
/// arrows have arrows for types, numbered or not.
pub proof fn lemma_lams_are_arrows(term: Expr, net: NetView, read: NetView)
    requires
        net.wf(),
        read.types_wf(),
        net.grows_to(read),
        net.settled_in(read),
        !net.is_reducible(),
        net.is_equated(),
        term.typed_in(net.types.dom()),
        term.lams_bound(net),
    ensures
        term.lambdas_are_arrows(read),
    decreases term,
{
    match term {
        Expr::Lam(body, key) => {
            let k = key.unwrap().id;
            let x = net.head_of(k);
            lemma_head_of(net, k);
            if !(net.types[x] is Arrow) {
                let p = choose|p: Place|
                    #![trigger net.has(p)]
                    net.has(p) && net.type_at(p) == x && crate::net::model::has_cons(
                        net.nodes_at(p),
                    );
                match p {
                    Place::Edge(e) => {
                        assert(net.edges.dom().contains(e));
                    },
                    Place::Redex(i) => {},
                }
            }
            lemma_head_kept(net, read, k);
            assert(read.types[x] == net.types[x]);
            assert(read.head_of(x) == x);
            lemma_arrow_type(read, k);
            lemma_lams_are_arrows(*body, net, read);
        },
        Expr::App(f, v, _) => {
            lemma_lams_are_arrows(*f, net, read);
            lemma_lams_are_arrows(*v, net, read);
        },
        Expr::Var(_, _) => {},
    }
}

/// An operation that uses up only variables that the first net did not
/// have in the caller's hands leaves alone what the first net had.
proof fn lemma_keeps_more(a: NetView, b: NetView, c: NetView, used: Seq<u64>)
    requires
        b.wf(),
        c.wf(),
        a.keeps(b, Seq::empty()),
        b.keeps(c, used),
        forall|x: u64| used.contains(x) ==> !a.is_free(x),
    ensures
        a.keeps(c, Seq::empty()),
{
    lemma_keeps_chain(a, b, c, Seq::empty(), used, Seq::empty());
}

/// Builds the term into the net and returns the variable that names its
/// root. `vars` holds, innermost first, the variables of the lambdas
/// around the term, each with the number of its uses so far. Every node of
/// the term gets the handle of its type. A lambda whose variable is used
/// twice or more gets a fan label, and a check of cloneability on the
/// position of its parameter.
#[verifier::rlimit(30)]
pub fn add_lambda(net: &mut Net, lambda: &mut Expr, vars: &mut Vec<(Var, usize)>) -> (res: Var)
    requires
        old(net).wf(),
        old(lambda).closed_under(old(vars).len() as nat),
        env_ok(old(net)@, old(vars)@),
        old(net).room() >= 5 * old(lambda).size(),
        old(net)@.next_label + old(lambda).lams() <= usize::MAX,
        forall|i: int|
            0 <= i < old(vars).len() ==> (#[trigger] old(vars)[i]).1 + old(lambda).occurrences(
                i as nat,
            ) <= usize::MAX,
    ensures
        final(net).wf(),
        final(net)@.is_free(res.key()),
        !old(net)@.is_free(res.key()),
        !env_keys(final(vars)@).contains(res.key()),
        final(vars).len() == old(vars).len(),
        env_keys(final(vars)@) == env_keys(old(vars)@),
        env_ok(final(net)@, final(vars)@),
        forall|i: int|
            0 <= i < old(vars).len() ==> (#[trigger] final(vars)[i]).1 == old(vars)[i].1 + old(
                lambda,
            ).occurrences(i as nat),
        old(net)@.keeps(final(net)@, Seq::empty()),
        final(lambda).erased() == old(lambda).erased(),
        old(net)@.builds(
            *old(lambda),
            env_keys(old(vars)@),
            built(final(net)@, *final(lambda), res.key()),
        ),
        final(lambda).typed_in(final(net)@.types.dom()),
        final(lambda).lams_bound(final(net)@),
        old(net)@.arrows_kept(final(net)@),
        final(net).room() >= old(net).room() - 5 * old(lambda).size(),
        final(net)@.next_label <= old(net)@.next_label + old(lambda).lams(),
    decreases old(lambda).size(),
{
    let ghost s0 = net@;
    let ghost env0 = vars@;
    let ghost keys0 = env_keys(env0);
    let ghost term0 = *lambda;
    proof {
        assert(net.room() <= SLOT_LIMIT);
    }
    match lambda {
        Expr::Lam(b, type_key) => {
            let ghost body0 = **b;
            let a_var = net.new_var();
            let ghost s1 = net@;
            let ghost ak = a_var.key();
            vars.insert(0, (a_var, 0));
            let ghost env1 = vars@;
            proof {
                assert(env_keys(env1) =~= seq![ak] + keys0);
                assert forall|i: int| 0 <= i < keys0.len() implies keys0[i] != ak by {
                    assert(s0.is_free(keys0[i]));
                }
                assert(env_keys(env1).no_duplicates());
                assert forall|i: int| 0 <= i < env1.len() implies s1.is_free(
                    #[trigger] env_keys(env1)[i],
                ) by {
                    if i > 0 {
                        assert(s0.is_free(keys0[i - 1]));
                    }
                }
                lemma_occurrences_le_size(body0, 0);
                assert forall|i: int| 0 <= i < env1.len() implies (#[trigger] env1[i]).1
                    + body0.occurrences(i as nat) <= usize::MAX by {
                    if i > 0 {
                        assert(env1[i] == env0[i - 1]);
                        assert(env0[i - 1].1 + term0.occurrences((i - 1) as nat) <= usize::MAX);
                    }
                }
            }
            let b_var = add_lambda(net, b, vars);
            let ghost s2 = net@;
            let ghost env2 = vars@;
            let ghost bk = b_var.key();
            let (a_var, occurrences) = vars.remove(0);
            let ghost env3 = vars@;
            proof {
                assert(a_var.key() == env_keys(env2)[0]);
                assert(env_keys(env2)[0] == ak);
                assert(env_keys(env3) =~= keys0) by {
                    assert forall|i: int| 0 <= i < keys0.len() implies env_keys(env3)[i]
                        == keys0[i] by {
                        assert(env_keys(env2)[i + 1] == env_keys(env1)[i + 1]);
                    }
                }
                assert(s2.is_free(ak)) by {
                    assert(s2.is_free(env_keys(env2)[0]));
                }
                assert(bk != ak) by {
                    if bk == ak {
                        assert(env_keys(env2)[0] == bk);
                    }
                }
                assert forall|i: int| 0 <= i < keys0.len() implies s2.is_free(keys0[i]) && keys0[i]
                    != bk && keys0[i] != ak by {
                    assert(env_keys(env2)[i + 1] == keys0[i]);
                    assert(s2.is_free(env_keys(env2)[i + 1]));
                    if keys0[i] == bk {
                        assert(env_keys(env2).contains(bk));
                    }
                }
                assert forall|i: int| 0 <= i < env0.len() implies (#[trigger] env3[i]).1
                    == env0[i].1 + term0.occurrences(i as nat) by {
                    assert(env3[i] == env2[i + 1]);
                    assert(env1[i + 1] == env0[i]);
                }
                lemma_keeps_more(s0, s1, s2, Seq::empty());
                assert(env2[0].1 == env1[0].1 + body0.occurrences(0));
                assert(occurrences == body0.occurrences(0));
            }
            let fan_label = if occurrences < 2 {
                None
            } else {
                Some(net.new_label())
            };
            let ghost s3 = net@;
            proof {
                if occurrences >= 2 {
                    lemma_keeps_more(s0, s2, s3, Seq::empty());
                }
                assert(s2.keeps(s3, Seq::empty()));
                assert(s3.is_free(ak) && s3.is_free(bk));
            }
            let a_var = match fan_label {
                None => a_var,
                Some(_) => {
                    let (a1, a2) = net.wire();
                    let ghost s4 = net@;
                    let ghost a1k = a1.key();
                    let ghost a2k = a2.key();
                    let mut marks: Vec<Node> = Vec::new();
                    marks.push(Node::AffChk);
                    let mut ends: Vec<Var> = Vec::new();
                    ends.push(a_var);
                    ends.push(a1);
                    proof {
                        lemma_keeps_more(s0, s3, s4, Seq::empty());
                        lemma_ends_of_one(Node::AffChk);
                        assert(marks@ =~= seq![Node::AffChk]);
                        assert(ends_of(marks@) =~= Seq::<u64>::empty());
                        assert(keys_of(ends@) =~= seq![ak, a1k]);
                        assert(s4.is_free(ak));
                    }
                    let linked = net.link(marks, ends);
                    proof {
                        let s5 = net@;
                        let used = ends_of(seq![Node::AffChk]) + seq![ak, a1k];
                        assert(marks@ =~= seq![Node::AffChk]);
                        assert(used =~= seq![ak, a1k]);
                        assert forall|x: u64| used.contains(x) implies !s0.is_free(x) by {
                            let k = choose|k: int| 0 <= k < used.len() && used[k] == x;
                            if s0.is_free(x) {
                                assert(s1.is_free(x));
                                assert(s3.is_free(x));
                            }
                        }
                        lemma_keeps_more(s0, s4, s5, used);
                        lemma_arrows_kept(s3, s4);
                        lemma_arrows_kept(s4, s5);
                        lemma_arrows_kept_chain(s3, s4, s5);
                        assert(s3 == s2.labelled());
                        assert(s3.makes_edge(duo(a1k, a2k), no_nodes(), s4));
                        assert(s4.links(fan_marks(), duo(ak, a1k), linked.id, s5));
                        assert(s2.fans(body0.occurrences(0), ak, a2k, s5));
                        assert(!used.contains(a2k)) by {
                            if used.contains(a2k) {
                                let k = choose|k: int| 0 <= k < used.len() && used[k] == a2k;
                            }
                        }
                        assert(!used.contains(bk)) by {
                            if used.contains(bk) {
                                let k = choose|k: int| 0 <= k < used.len() && used[k] == bk;
                            }
                        }
                        assert(s4.is_free(bk));
                        assert(s5.is_free(a2k) && s5.is_free(bk));
                        assert forall|i: int| 0 <= i < keys0.len() implies s5.is_free(keys0[i])
                            && keys0[i] != a2k by {
                            let x = keys0[i];
                            assert(s3.is_free(x));
                            assert(s4.is_free(x));
                            if used.contains(x) {
                                let k = choose|k: int| 0 <= k < used.len() && used[k] == x;
                            }
                        }
                        assert(!s0.is_free(a2k)) by {
                            if s0.is_free(a2k) {
                                assert(s3.is_free(a2k));
                            }
                        }
                    }
                    a2
                },
            };
            let ghost s6 = net@;
            let ghost fk = a_var.key();
            proof {
                if occurrences < 2 {
                    lemma_arrows_kept_chain(s3, s3, s3);
                }
                assert(s3.arrows_kept(s6));
            }
            let node = Node::Lam(Lam { a: a_var, b: b_var });
            proof {
                lemma_ends_of_one(node);
                assert(node.ends() =~= seq![fk, bk]);
                assert(s0.keeps(s6, Seq::empty()));
                assert(s6.is_free(fk) && s6.is_free(bk));
                assert(fk != bk);
                assert(!s0.is_free(fk)) by {
                    if s0.is_free(fk) {
                        assert(s1.is_free(fk));
                    }
                }
                assert(!s0.is_free(bk)) by {
                    if s0.is_free(bk) {
                        assert(s1.is_free(bk));
                    }
                }
                assert forall|x: u64| #[trigger] ends_of(seq![node]).contains(x) implies s6.is_free(
                    x,
                ) by {
                    let k = choose|k: int| 0 <= k < 2 && seq![fk, bk][k] == x;
                }
            }
            let res = net.wrap(node);
            let ghost s7 = net@;
            proof {
                assert forall|x: u64| node.ends().contains(x) implies !s0.is_free(x) by {
                    let k = choose|k: int| 0 <= k < 2 && seq![fk, bk][k] == x;
                }
                lemma_keeps_more(s0, s6, s7, node.ends());
                assert(!s0.is_free(res.key())) by {
                    if s0.is_free(res.key()) {
                        assert(s6.is_free(res.key()));
                    }
                }
                assert forall|i: int| 0 <= i < keys0.len() implies s6.is_free(
                    #[trigger] keys0[i],
                ) && keys0[i] != fk && keys0[i] != bk by {
                    assert(s2.is_free(keys0[i]));
                    assert(s3.is_free(keys0[i]));
                }
                assert forall|i: int| 0 <= i < env3.len() implies s7.is_free(
                    #[trigger] env_keys(env3)[i],
                ) by {
                    let x = keys0[i];
                    assert(s0.is_free(x));
                }
                if env_keys(env3).contains(res.key()) {
                    let k = choose|k: int| 0 <= k < keys0.len() && keys0[k] == res.key();
                    assert(s0.is_free(keys0[k]));
                }
            }
            let key = net.type_key(&res);
            *type_key = Some(key);
            proof {
                lemma_typed_in_grows(**b, s2.types.dom(), s7.types.dom());
                lemma_arrows_kept(s0, s7);
                lemma_arrows_kept(s2, s3);
                lemma_arrows_kept(s6, s7);
                lemma_arrows_kept_chain(s2, s3, s6);
                lemma_arrows_kept_chain(s2, s6, s7);
                lemma_lams_bound_kept(**b, s2, s7);
                let b1 = built(s2, **b, bk);
                assert(s0.makes_edge(solo_ref(ak), no_nodes(), s1));
                assert(env_keys(env1) =~= seq![ak] + keys0);
                assert(s1.builds(body0, seq![ak] + keys0, b1));
                assert(occurrences == body0.occurrences(0)) by {
                    assert(env2[0].1 == env1[0].1 + body0.occurrences(0));
                }
                assert(s2.fans(body0.occurrences(0), ak, fk, s6));
                assert(s6.makes_edge(solo_ref(res.key()), solo(node), s7));
                assert(s2.lam_glue(body0.occurrences(0), ak, bk, res.key(), s7));
            }
            res
        },
        Expr::App(f, arg, type_key) => {
            let ghost f0 = **f;
            let ghost arg0 = **arg;
            proof {
                assert forall|i: int| 0 <= i < env0.len() implies (#[trigger] env0[i]).1
                    + f0.occurrences(i as nat) <= usize::MAX by {
                    assert(env0[i].1 + term0.occurrences(i as nat) <= usize::MAX);
                }
            }
            let f_var = add_lambda(net, f, vars);
            let ghost s1 = net@;
            let ghost env1 = vars@;
            let ghost fk = f_var.key();
            proof {
                assert forall|i: int| 0 <= i < env1.len() implies (#[trigger] env1[i]).1
                    + arg0.occurrences(i as nat) <= usize::MAX by {
                    assert(env0[i].1 + term0.occurrences(i as nat) <= usize::MAX);
                }
            }
            let arg_var = add_lambda(net, arg, vars);
            let ghost s2 = net@;
            let ghost env2 = vars@;
            let ghost gk = arg_var.key();
            proof {
                lemma_keeps_more(s0, s1, s2, Seq::empty());
                assert(s2.is_free(fk));
                assert(fk != gk);
            }
            let (w1, w2) = net.wire();
            let ghost s3 = net@;
            let ghost w1k = w1.key();
            let ghost w2k = w2.key();
            let app = Node::App(App { a: arg_var, b: w1 });
            proof {
                lemma_keeps_more(s0, s2, s3, Seq::empty());
                lemma_ends_of_one(app);
                assert(app.ends() =~= seq![gk, w1k]);
                assert(s3.is_free(gk) && s3.is_free(fk));
                assert forall|x: u64| #[trigger] ends_of(seq![app]).contains(x) implies s3.is_free(
                    x,
                ) by {
                    let k = choose|k: int| 0 <= k < 2 && seq![gk, w1k][k] == x;
                }
                if app.ends().contains(fk) {
                    let k = choose|k: int| 0 <= k < 2 && seq![gk, w1k][k] == fk;
                }
            }
            net.link_var_node(f_var, app);
            let ghost s4 = net@;
            let res = w2;
            proof {
                let used = app.ends().push(fk);
                assert(used =~= seq![gk, w1k, fk]);
                assert(!s0.is_free(fk)) by {}
                assert(!s0.is_free(gk)) by {
                    if s0.is_free(gk) {
                        assert(s1.is_free(gk));
                    }
                }
                assert forall|x: u64| used.contains(x) implies !s0.is_free(x) by {
                    let k = choose|k: int| 0 <= k < 3 && used[k] == x;
                    if s0.is_free(x) {
                        assert(s2.is_free(x));
                    }
                }
                lemma_keeps_more(s0, s3, s4, used);
                assert(!used.contains(w2k)) by {
                    if used.contains(w2k) {
                        let k = choose|k: int| 0 <= k < 3 && used[k] == w2k;
                    }
                }
                assert(s4.is_free(w2k));
                assert(!s0.is_free(w2k)) by {
                    if s0.is_free(w2k) {
                        assert(s2.is_free(w2k));
                    }
                }
                assert(env_keys(env2) == keys0);
                assert forall|i: int| 0 <= i < env2.len() implies s4.is_free(
                    #[trigger] env_keys(env2)[i],
                ) by {
                    assert(s0.is_free(keys0[i]));
                }
                if env_keys(env2).contains(w2k) {
                    let k = choose|k: int| 0 <= k < keys0.len() && keys0[k] == w2k;
                    assert(s0.is_free(keys0[k]));
                }
                assert forall|i: int| 0 <= i < env0.len() implies (#[trigger] env2[i]).1
                    == env0[i].1 + term0.occurrences(i as nat) by {
                    assert(env1[i].1 == env0[i].1 + f0.occurrences(i as nat));
                }
            }
            let key = net.type_key(&res);
            *type_key = Some(key);
            proof {
                lemma_typed_in_grows(**f, s1.types.dom(), s4.types.dom());
                lemma_typed_in_grows(**arg, s2.types.dom(), s4.types.dom());
                lemma_arrows_kept(s0, s4);
                lemma_arrows_kept(s2, s3);
                lemma_arrows_kept(s3, s4);
                lemma_arrows_kept_chain(s2, s3, s4);
                lemma_arrows_kept_chain(s1, s2, s4);
                lemma_lams_bound_kept(**f, s1, s4);
                lemma_lams_bound_kept(**arg, s2, s4);
                let b1 = built(s1, **f, fk);
                let b2 = built(s2, **arg, gk);
                assert(s0.builds(f0, keys0, b1));
                assert(s1.builds(arg0, keys0, b2));
                assert(s2.makes_edge(duo(w1k, w2k), no_nodes(), s3));
                assert(s4 == s3.with_node_linked(fk, app));
                assert(s2.app_glue(fk, gk, w2k, s4));
            }
            res
        },
        Expr::Var(i, type_key) => {
            let index = *i;
            proof {
                assert(env0[index as int].1 + term0.occurrences(index as nat) <= usize::MAX);
                assert(s0.is_free(keys0[index as int]));
            }
            let slot = &mut vars[index];
            slot.1 += 1;
            let ghost env1 = vars@;
            proof {
                assert(env_keys(env1) =~= keys0);
            }
            let res = net.add_var(&vars[index].0);
            proof {
                let s1 = net@;
                if env_keys(env1).contains(res.key()) {
                    let k = choose|k: int| 0 <= k < keys0.len() && keys0[k] == res.key();
                    assert(s0.is_free(keys0[k]));
                }
                assert forall|k: int| 0 <= k < env1.len() implies s1.is_free(
                    #[trigger] env_keys(env1)[k],
                ) by {
                    assert(s0.is_free(keys0[k]));
                }
            }
            let key = net.type_key(&res);
            *type_key = Some(key);
            proof {
                lemma_arrows_kept(s0, net@);
            }
            res
        },
    }
}

/// `net` is what inference on `term` gives, and `typed_term` the term
/// with the handles of its types: the term is built into an empty net, its
/// root is linked, and the net is reduced step by step; if `numbered`, the
/// type variables are numbered in the order in which the type store is
/// walked.
pub open spec fn infers(term: Expr, typed_term: Expr, net: NetView, numbered: bool) -> bool {
    exists|b: Built, linked: NetView, h: u64, steps: nat, end: NetView|
        #![trigger
            b.net.links(no_nodes(), solo_ref(b.root), h, linked),
            linked.reduces_in(steps, end)
        ]
        NetView::empty().builds(term, Seq::empty(), b) && b.net.links(
            no_nodes(),
            solo_ref(b.root),
            h,
            linked,
        ) && linked.reduces_in(steps, end) && typed_term == b.term && net == (if numbered {
            end.with_free_numbered(end.order)
        } else {
            end
        })
}

/// The room that inference on a term of `size` nodes surely does not
/// exceed: five slots a node and one for the root to build it, and the
/// room to reduce a net of at most four times the nodes in weight.
pub open spec fn room_for(size: nat) -> int {
    5 * (size as int) + 1 + (4 * (size as int) + 1) * (24 * (size as int) + 2)
}

/// The nets of terms of up to six thousand nodes never run out of room.
pub proof fn lemma_small_terms_fit(size: nat)
    requires
        size <= 6000,
    ensures
        room_for(size) <= SLOT_LIMIT,
{
    assert((4 * size + 1) * (24 * size + 2) <= 24001 * 144002) by (nonlinear_arith)
        requires
            size <= 6000,
    ;
}

/// Every term that the enumeration lists for depths below three thousand
/// can be given to inference, and its net never runs out of room: it is
/// found typed or not typable.
pub proof fn lemma_enumerated_terms_fit(start: nat, end: nat, i: int)
    requires
        end <= 3000,
        0 <= i < terms_between(start, end).len(),
    ensures
        terms_between(start, end)[i].closed_under(0),
        room_for(terms_between(start, end)[i].size()) <= SLOT_LIMIT,
{
    lemma_enumerated_terms_are_closed(start, end, i);
    lemma_small_terms_fit(terms_between(start, end)[i].size());
}

/// A net of at most four times `size` in weight is reduced to its end
/// in the room that is reckoned for it.
proof fn lemma_room_for(size: nat, weight: nat)
    requires
        weight <= 4 * size,
    ensures
        (weight + 1) * (6 * weight + 2) <= (4 * size + 1) * (24 * size + 2),
{
    assert((weight + 1) * (6 * weight + 2) <= (4 * size + 1) * (24 * size + 2))
        by (nonlinear_arith)
        requires
            weight <= 4 * size,
    ;
}

/// How an inference ended.
#[derive(Clone, Copy, PartialEq, Eq, Debug)]
pub enum Outcome {
    /// Every equation was resolved: the term has its types.
    Typed,
    /// Reduction ended with equations left: the term has no simple type.
    NotTypable,
    /// Reduction was stopped for want of room in the arenas.
    OutOfRoom,
}

/// The net of an inference and how it ended.
pub struct Inference {
    pub net: Net,
    pub outcome: Outcome,
}

/// Infers the types of a closed term: builds it into a new net, reduces
/// the net until no redex is left, and numbers the type variables if every
/// equation was resolved. Every node of the term gets the handle of its
/// type in the net. The type of every lambda of a typed term is an arrow
/// under its marks.
pub fn infer(term: &mut Expr) -> (r: Inference)
    requires
        old(term).closed_under(0),
        5 * old(term).size() + 1 <= SLOT_LIMIT,
    ensures
        r.net.wf(),
        infers(*old(term), *final(term), r.net@, r.outcome is Typed),
        final(term).erased() == old(term).erased(),
        final(term).typed_in(r.net@.types.dom()),
        r.outcome is Typed <==> !r.net@.is_reducible() && r.net@.is_equated(),
        r.outcome is NotTypable <==> !r.net@.is_reducible() && !r.net@.is_equated(),
        r.outcome is OutOfRoom <==> r.net@.is_reducible(),
        r.outcome is OutOfRoom ==> r.net.room() < r.net@.reduce_cost(),
        room_for(old(term).size()) <= SLOT_LIMIT ==> !(r.outcome is OutOfRoom),
        r.outcome is Typed ==> r.net@.numbered() && final(term).lambdas_are_arrows(r.net@),
        r.outcome is Typed ==> r.net@.order.len() <= usize::MAX,
{
    let ghost term0 = *term;
    let mut net = Net::new();
    let mut vars: Vec<(Var, usize)> = Vec::new();
    proof {
        lemma_lams_le_size(term0);
        assert(env_keys(vars@) =~= Seq::<u64>::empty());
    }
    let lam = add_lambda(&mut net, term, &mut vars);
    net.assert_valid();
    let none: Vec<Node> = Vec::new();
    let mut root: Vec<Var> = Vec::new();
    let ghost rk = lam.key();
    root.push(lam);
    proof {
        assert(keys_of(root@) =~= seq![rk]);
        assert(ends_of(none@) =~= Seq::<u64>::empty());
    }
    let ghost made = net@;
    let top = net.link(none, root);
    let ghost linked = net@;
    let ghost b = built(made, *term, rk);
    proof {
        assert(none@ =~= no_nodes());
        assert(keys_of(root@) =~= solo_ref(rk));
        assert(made.links(no_nodes(), solo_ref(rk), top.id, linked));
        lemma_typed_in_grows(*term, made.types.dom(), net@.types.dom());
        lemma_arrows_kept(made, linked);
        lemma_lams_bound_kept(*term, made, linked);
        lemma_built_weight(term0, b);
        lemma_weight_links(made, no_nodes(), solo_ref(rk), top.id, linked);
        assert(edge_weight(no_nodes()) == 0);
        lemma_room_for(term0.size(), linked.weight());
    }
    net.reduce_to_fixpoint();
    let ghost end = net@;
    proof {
        lemma_typed_in_grows(*term, linked.types.dom(), net@.types.dom());
        lemma_lams_bound_kept(*term, linked, net@);
        let steps = choose|steps: nat| linked.reduces_in(steps, end);
        assert(linked.reduces_in(steps, end));
    }
    if net.is_reducible() {
        Inference { net, outcome: Outcome::OutOfRoom }
    } else if net.is_equated() {
        let ghost before = net@;
        net.assign_free_vars();
        proof {
            assert(net@.types.dom() =~= before.types.dom());
            assert(net@.edges == before.edges && net@.redexes == before.redexes);
            lemma_lams_are_arrows(*term, before, net@);
        }
        Inference { net, outcome: Outcome::Typed }
    } else {
        Inference { net, outcome: Outcome::NotTypable }
    }
}

/// A term has at most as many lambdas as nodes.
pub proof fn lemma_lams_le_size(term: Expr)
    ensures
        term.lams() <= term.size(),
    decreases term,
{
    match term {
        Expr::Lam(body, _) => {
            lemma_lams_le_size(*body);
        },
        Expr::App(f, v, _) => {
            lemma_lams_le_size(*f);
            lemma_lams_le_size(*v);
        },
        Expr::Var(_, _) => {},
    }
}

/// No type of a node of the term has a part that is marked unsafe.
pub open spec fn all_safe(term: Expr, net: NetView) -> bool
    decreases term,
{
    &&& net.closed_type(term.key().unwrap().id).is_safe()
    &&& match term {
        Expr::Lam(body, _) => all_safe(*body, net),
        Expr::App(f, v, _) => all_safe(*f, net) && all_safe(*v, net),
        Expr::Var(_, _) => true,
    }
}

/// Tells whether no type of a node of the term has a part that is marked
/// unsafe.
pub fn is_dup_safe(term: &Expr, net: &Net) -> (b: bool)
    requires
        net.wf(),
        net@.numbered(),
        term.typed_in(net@.types.dom()),
    ensures
        b == all_safe(*term, net@),
    decreases term,
{
    match term {
        Expr::Lam(a, type_id) => is_safe_type(&net.read_type(type_id.unwrap())) && is_dup_safe(
            a,
            net,
        ),
        Expr::App(a, b, type_id) => is_safe_type(&net.read_type(type_id.unwrap())) && is_dup_safe(
            a,
            net,
        ) && is_dup_safe(b, net),
        Expr::Var(_i, type_id) => is_safe_type(&net.read_type(type_id.unwrap())),
    }
}

/// Tells whether no part of the type is marked unsafe.
pub fn is_safe_type(t: &Type) -> (b: bool)
    ensures
        b == t.is_safe(),
    decreases t,
{
    match t {
        Type::Arrow { a, b } => is_safe_type(a) && is_safe_type(b),
        Type::Cloneable { a } => is_safe_type(a),
        Type::Uncloneable { a } => is_safe_type(a),
        Type::Unsafe { .. } => false,
        Type::Var(_) => true,
    }
}

} // verus!
