//! The net written out, equation by equation.

use itertools::Itertools;
use vstd::prelude::*;
use vstd::string::StringExecFns;

use crate::net::arena::edge_slots;
use crate::net::laws::lemma_node_ends;
use crate::net::model::{ends_of, NetView, Place};
use crate::net::types::PartialTypeKey;
use crate::net::{Net, Node};
use crate::util::{decimal, texts, to_decimal};

verus! {

/// The strings `parts` with `sep` between them.
pub open spec fn joined(parts: Seq<Seq<char>>, sep: Seq<char>) -> Seq<char>
    decreases parts.len(),
{
    if parts.len() == 0 {
        Seq::empty()
    } else if parts.len() == 1 {
        parts[0]
    } else {
        joined(parts.drop_last(), sep) + sep + parts.last()
    }
}

/// `Itertools::join`: the strings one after the other, with `sep` between
/// each two.
#[verifier::external_body]
fn join(parts: &Vec<String>, sep: &str) -> (s: String)
    ensures
        s@ == joined(texts(parts@), sep@),
{
    parts.iter().join(sep)
}

impl NetView {
    /// How a node is written: a lambda as `λa.b` and an application as
    /// `@a.b`, with the types of the two endpoints; a mark of cloneability
    /// as `!` and one of uncloneability as `?`.
    pub open spec fn node_text(self, node: Node) -> Seq<char> {
        match node {
            Node::Lam(_) => seq!['\u{3bb}'] + self.closed_type(self.handle_of(node.ends()[0])).text()
                + "."@ + self.closed_type(self.handle_of(node.ends()[1])).text(),
            Node::App(_) => "@"@ + self.closed_type(self.handle_of(node.ends()[0])).text() + "."@
                + self.closed_type(self.handle_of(node.ends()[1])).text(),
            Node::AffAnn => "!"@,
            Node::AffChk => "!"@,
            Node::NAffAnn => "?"@,
            Node::NAffChk => "?"@,
        }
    }

    /// How the nodes are written, one by one.
    pub open spec fn node_texts(self, nodes: Seq<Node>) -> Seq<Seq<char>> {
        Seq::new(nodes.len(), |i: int| self.node_text(nodes[i]))
    }

    /// How an equation is written: its type, its nodes with ` = ` between
    /// them, and the number of its edge-refs.
    pub open spec fn equation_text(self, type_key: u64, nodes: Seq<Node>, refs: nat) -> Seq<char> {
        self.closed_type(type_key).text() + " := "@ + joined(self.node_texts(nodes), " = "@) + ", "@
            + decimal(refs) + " refs"@
    }

    /// How the redexes are written, one by one.
    pub open spec fn redex_texts(self) -> Seq<Seq<char>> {
        Seq::new(
            self.redexes.len(),
            |i: int| self.equation_text(self.redexes[i].type_key, self.redexes[i].nodes, 0),
        )
    }

    /// How the edges `order` are written, one by one.
    pub open spec fn edge_texts(self, order: Seq<u64>) -> Seq<Seq<char>> {
        Seq::new(
            order.len(),
            |i: int|
                self.equation_text(
                    self.edges[order[i]].type_key,
                    self.edges[order[i]].nodes,
                    self.edges[order[i]].refs.len(),
                ),
        )
    }

    /// The net written out: the redexes under `redexes:`, then the edges
    /// `order` under `equations:`.
    pub open spec fn dump(self, order: Seq<u64>) -> Seq<Seq<char>> {
        seq!["redexes:"@] + self.redex_texts() + seq!["equations:"@] + self.edge_texts(order)
    }
}

impl Net {
    /// Writes one equation of the net.
    fn read_eq(&self, type_key: PartialTypeKey, trees: &Vec<Node>, num_refs: usize) -> (s: String)
        requires
            self.wf(),
            self@.numbered(),
            self@.types.dom().contains(type_key.id),
            forall|x: u64| ends_of(trees@).contains(x) ==> self@.refs.dom().contains(x),
        ensures
            s@ == self@.equation_text(type_key.id, trees@, num_refs as nat),
    {
        let mut parts: Vec<String> = Vec::new();
        let mut i: usize = 0;
        while i < trees.len()
            invariant
                i <= trees.len(),
                self.wf(),
                self@.numbered(),
                forall|x: u64| ends_of(trees@).contains(x) ==> self@.refs.dom().contains(x),
                texts(parts@) == self@.node_texts(trees@.take(i as int)),
            decreases trees.len() - i,
        {
            let ghost before = parts@;
            let part = match &trees[i] {
                Node::Lam(lam) => {
                    proof {
                        lemma_node_ends(trees@, i as int, 0);
                        lemma_node_ends(trees@, i as int, 1);
                    }
                    let a_type = self.read_type(self.type_key(&lam.a));
                    let b_type = self.read_type(self.type_key(&lam.b));
                    let mut s = String::new();
                    crate::util::push_char(&mut s, '\u{3bb}');
                    s.append(a_type.to_string().as_str());
                    s.append(".");
                    s.append(b_type.to_string().as_str());
                    assert(s@ =~= self@.node_text(trees@[i as int]));
                    s
                },
                Node::App(app) => {
                    proof {
                        lemma_node_ends(trees@, i as int, 0);
                        lemma_node_ends(trees@, i as int, 1);
                    }
                    let a_type = self.read_type(self.type_key(&app.a));
                    let b_type = self.read_type(self.type_key(&app.b));
                    let mut s = String::from_str("@");
                    s.append(a_type.to_string().as_str());
                    s.append(".");
                    s.append(b_type.to_string().as_str());
                    assert(s@ =~= self@.node_text(trees@[i as int]));
                    s
                },
                Node::AffAnn => String::from_str("!"),
                Node::AffChk => String::from_str("!"),
                Node::NAffAnn => String::from_str("?"),
                Node::NAffChk => String::from_str("?"),
            };
            assert(part@ == self@.node_text(trees@[i as int]));
            parts.push(part);
            proof {
                let now = texts(parts@);
                let goal = self@.node_texts(trees@.take(i + 1));
                assert(texts(before).len() == before.len());
                assert(self@.node_texts(trees@.take(i as int)).len() == i);
                assert(now.len() == goal.len());
                assert forall|j: int| 0 <= j < now.len() implies now[j] == goal[j] by {
                    if j < i {
                        assert(texts(before)[j] == self@.node_texts(trees@.take(i as int))[j]);
                    }
                }
                assert(now =~= goal);
            }
            i += 1;
        }
        proof {
            assert(trees@.take(trees.len() as int) =~= trees@);
        }
        let eq = join(&parts, " = ");
        let eq_type = self.read_type(type_key);
        let mut s = eq_type.to_string();
        s.append(" := ");
        s.append(eq.as_str());
        s.append(", ");
        s.append(to_decimal(num_refs).as_str());
        s.append(" refs");
        s
    }

    /// Writes the net out, one line for every redex and every edge. The
    /// type variables must have their numbers.
    pub fn read(&self) -> (lines: Vec<String>)
        requires
            self.wf(),
            self@.numbered(),
        ensures
            texts(lines@) == self@.dump(self.edge_order()),
    {
        let mut lines: Vec<String> = Vec::new();
        lines.push(String::from_str("redexes:"));
        let mut i: usize = 0;
        assert(texts(lines@) =~= seq!["redexes:"@] + self@.redex_texts().take(0));
        while i < self.redexes.len()
            invariant
                i <= self.redexes.len(),
                self.wf(),
                self@.numbered(),
                texts(lines@) == seq!["redexes:"@] + self@.redex_texts().take(i as int),
            decreases self.redexes.len() - i,
        {
            proof {
                let p = Place::Redex(i as int);
                assert(self@.has(p));
                assert(self@.ends_at(p) == ends_of(self.redexes@[i as int].1@));
            }
            let line = self.read_eq(self.redexes[i].0, &self.redexes[i].1, 0);
            let ghost before = lines@;
            lines.push(line);
            proof {
                assert(texts(lines@) =~= texts(before).push(line@));
                assert(self@.redex_texts().take(i + 1) =~= self@.redex_texts().take(i as int).push(
                    line@,
                ));
            }
            i += 1;
        }
        let ghost head = texts(lines@);
        proof {
            assert(self@.redex_texts().take(self.redexes.len() as int) =~= self@.redex_texts());
        }
        lines.push(String::from_str("equations:"));
        let keys = self.edges.keys();
        let ghost order = keys@;
        let mut j: usize = 0;
        proof {
            assert(texts(lines@) =~= head + seq!["equations:"@] + self@.edge_texts(order).take(0));
        }
        while j < keys.len()
            invariant
                j <= keys.len(),
                order == keys@,
                order == self.edge_order(),
                forall|k: u64| order.contains(k) <==> edge_slots(self.edges).dom().contains(k),
                self.wf(),
                self@.numbered(),
                texts(lines@) == head + seq!["equations:"@] + self@.edge_texts(order).take(j as int),
            decreases keys.len() - j,
        {
            let k = keys[j];
            proof {
                assert(order[j as int] == k);
                assert(order.contains(k));
                let p = Place::Edge(k);
                assert(self@.has(p));
            }
            let e = self.edges.get(k);
            proof {
                assert(e@ == self@.edges[k]);
                assert(self@.ends_at(Place::Edge(k)) == ends_of(e.nodes@));
            }
            let line = self.read_eq(PartialTypeKey { id: e.type_key }, &e.nodes, e.refs.len());
            let ghost before = lines@;
            lines.push(line);
            proof {
                assert(texts(lines@) =~= texts(before).push(line@));
                assert(self@.edge_texts(order).take(j + 1) =~= self@.edge_texts(order).take(
                    j as int,
                ).push(line@));
            }
            j += 1;
        }
        proof {
            assert(self@.edge_texts(order).take(keys.len() as int) =~= self@.edge_texts(order));
        }
        lines
    }
}

} // verus!
