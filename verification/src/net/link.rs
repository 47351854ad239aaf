//! Merging the edges of some variables into one equation.

use vstd::prelude::*;

use crate::net::arena::{
    edge_slots, edge_span, ref_slots, ref_span, type_slots, type_span, type_walk,
};
use crate::net::laws::{
    lemma_drop_all, lemma_edges_of, lemma_handle_among, lemma_index_of, lemma_linked,
    lemma_refs_of,
};
use crate::net::model::{drop_all, ends_of, RefView};
use crate::net::types::{PartialType, PartialTypeKey};
use crate::net::{keys_of, Edge, Net, Node, Var};

verus! {

/// Tells whether `v` holds `k`.
fn holds(v: &Vec<u64>, k: u64) -> (b: bool)
    ensures
        b == v@.contains(k),
{
    let mut i: usize = 0;
    while i < v.len()
        invariant
            i <= v.len(),
            forall|j: int| 0 <= j < i ==> v@[j] != k,
        decreases v.len() - i,
    {
        if v[i] == k {
            return true;
        }
        i += 1;
    }
    false
}

impl Net {
    /// Merges the edges of `vars` into one equation of a fresh type, which
    /// is returned. The equation holds `nodes`, then the nodes of the
    /// merged edges, and the edge-refs of the merged edges but `vars`. The
    /// type of every merged edge forwards to the fresh type. An equation
    /// with an edge-ref left is a new edge; one without, and with a node,
    /// is a redex.
    pub fn link(&mut self, nodes: Vec<Node>, vars: Vec<Var>) -> (h: PartialTypeKey)
        requires
            old(self).wf(),
            old(self)@.can_link(nodes@, keys_of(vars@)),
            old(self).room() >= 1,
        ensures
            final(self).wf(),
            !old(self)@.types.dom().contains(h.id),
            final(self)@.types.dom().contains(h.id),
            old(self)@.links(nodes@, keys_of(vars@), h.id, final(self)@),
            old(self)@.keeps(final(self)@, ends_of(nodes@) + keys_of(vars@)),
            final(self).room() == old(self).room() - 1,
    {
        let ghost pre = self@;
        let ghost ks = keys_of(vars@);
        let ghost nodes_view = nodes@;
        let mut edge_keys: Vec<u64> = Vec::new();
        let mut removed: Vec<u64> = Vec::new();
        let mut i: usize = 0;
        while i < vars.len()
            invariant
                i <= vars.len(),
                ks == keys_of(vars@),
                pre.wf(),
                pre.can_link(nodes_view, ks),
                removed@ == ks.take(i as int),
                edge_keys@ == pre.edges_of(ks.take(i as int)),
                forall|r: u64| #[trigger]
                    ref_slots(self.refs).dom().contains(r) <==> pre.refs.dom().contains(r)
                        && !ks.take(i as int).contains(r),
                forall|r: u64| #[trigger]
                    ref_slots(self.refs).dom().contains(r) ==> ref_slots(self.refs)[r]@
                        == pre.refs[r],
                ref_span(self.refs) == ref_span(old(self).refs),
                self.edges == old(self).edges,
                self.types == old(self).types,
                self.redexes == old(self).redexes,
                self.next_label == old(self).next_label,
                self.birth == old(self).birth,
                self.clock == old(self).clock,
                self.used == old(self).used,
            decreases vars.len() - i,
        {
            let key = vars[i].edge_ref;
            proof {
                assert(ks[i as int] == key);
                assert(pre.is_free(ks[i as int]));
                if ks.take(i as int).contains(key) {
                    let j = choose|j: int| 0 <= j < i && ks.take(i as int)[j] == key;
                    assert(ks[j] == ks[i as int]);
                }
            }
            let ghost refs_before = ref_slots(self.refs);
            assert(refs_before.dom().contains(key));
            let at = self.refs.remove(key);
            removed.push(key);
            let ghost found = pre.edges_of(ks.take(i as int));
            if !holds(&edge_keys, at.edge) {
                edge_keys.push(at.edge);
            }
            proof {
                let before = ks.take(i as int);
                let next = ks.take(i + 1);
                assert(next.drop_last() =~= before);
                assert(next.last() == key);
                assert(removed@ =~= next);
                assert(at == refs_before[key]);
                assert(at@ == pre.refs[key]);
                assert(at.edge == pre.refs[next.last()].edge);
                assert(pre.edges_of(next) == (if found.contains(at.edge) {
                    found
                } else {
                    found.push(at.edge)
                }));
                assert forall|r: u64| next.contains(r) <==> before.contains(r) || r == key by {
                    if next.contains(r) {
                        let j = choose|j: int| 0 <= j < next.len() && next[j] == r;
                        if j < i {
                            assert(before[j] == r);
                        }
                    }
                    if before.contains(r) {
                        let j = choose|j: int| 0 <= j < before.len() && before[j] == r;
                        assert(next[j] == r);
                    }
                    if r == key {
                        assert(next[i as int] == r);
                    }
                }
            }
            i += 1;
        }
        assert(ks.take(vars.len() as int) =~= ks);

        let h = self.types.insert(PartialType::Free(None));
        self.used += 1;
        self.birth = Ghost(self.birth@.insert(h, self.clock@));
        self.clock = Ghost(self.clock@ + 1);
        let mut link_nodes = nodes;
        let mut link_refs: Vec<u64> = Vec::new();
        let ghost es = edge_keys@;
        let ghost refs_mid = self.refs;
        proof {
            assert forall|i: int| 0 <= i < ks.len() implies pre.refs.dom().contains(
                #[trigger] ks[i],
            ) by {
                assert(pre.is_free(ks[i]));
            }
            lemma_edges_of(pre, ks);
            assert(es.take(0) =~= Seq::<u64>::empty());
            assert(nodes_view + pre.nodes_of(es.take(0)) =~= nodes_view);
            assert forall|k: u64| !pre.handle_among(es.take(0), k) by {}
        }
        let mut j: usize = 0;
        while j < edge_keys.len()
            invariant
                j <= edge_keys.len(),
                es == edge_keys@,
                pre.wf(),
                type_walk(self.types) == pre.order.push(h),
                es.no_duplicates(),
                forall|idx: int| 0 <= idx < es.len() ==> pre.edges.dom().contains(#[trigger] es[idx]),
                !pre.types.dom().contains(h),
                link_nodes@ == nodes_view + pre.nodes_of(es.take(j as int)),
                link_refs@ == pre.refs_of(es.take(j as int)),
                forall|x: u64| #[trigger]
                    edge_slots(self.edges).dom().contains(x) <==> pre.edges.dom().contains(x)
                        && !es.take(j as int).contains(x),
                forall|x: u64| #[trigger]
                    edge_slots(self.edges).dom().contains(x) ==> edge_slots(self.edges)[x]@
                        == pre.edges[x],
                forall|k: u64| #[trigger]
                    type_slots(self.types).dom().contains(k) <==> k == h || pre.types.dom().contains(
                        k,
                    ),
                forall|k: u64| #[trigger]
                    type_slots(self.types).dom().contains(k) ==> type_slots(self.types)[k] == (if k
                        == h {
                        PartialType::Free(None)
                    } else if pre.handle_among(es.take(j as int), k) {
                        PartialType::Indirect(PartialTypeKey { id: h })
                    } else {
                        pre.types[k]
                    }),
                edge_slots(self.edges).dom().finite(),
                edge_span(self.edges) == edge_span(old(self).edges),
                type_span(self.types) <= type_span(old(self).types) + 1,
                self.refs == refs_mid,
                self.redexes == old(self).redexes,
                self.next_label == old(self).next_label,
                self.birth@ == pre.birth.insert(h, pre.clock),
                self.clock@ == pre.clock + 1,
                self.used == old(self).used + 1,
            decreases edge_keys.len() - j,
        {
            let x = edge_keys[j];
            proof {
                assert(es[j as int] == x);
                if es.take(j as int).contains(x) {
                    let a = choose|a: int| 0 <= a < j && es.take(j as int)[a] == x;
                    assert(es[a] == es[j as int]);
                }
                assert(pre.has(crate::net::model::Place::Edge(x)));
            }
            let ghost edges_before = edge_slots(self.edges);
            assert(edges_before.dom().contains(x));
            let mut edge = self.edges.remove(x);
            proof {
                assert(edge == edges_before[x]);
                assert(edge@ == pre.edges[x]);
                assert(edge.nodes@ == pre.edges[x].nodes);
                assert(edge.refs@ == pre.edges[x].refs);
                assert(type_slots(self.types).dom().contains(edge.type_key));
            }
            link_nodes.append(&mut edge.nodes);
            link_refs.append(&mut edge.refs);
            let slot = self.types.get_mut(edge.type_key);
            *slot = PartialType::Indirect(PartialTypeKey { id: h });
            proof {
                let before = es.take(j as int);
                let next = es.take(j + 1);
                assert(next.drop_last() =~= before);
                assert(next.last() == x);
                assert(link_nodes@ =~= nodes_view + pre.nodes_of(next));
                assert forall|y: u64| next.contains(y) <==> before.contains(y) || y == x by {
                    if next.contains(y) {
                        let a = choose|a: int| 0 <= a < next.len() && next[a] == y;
                        if a < j {
                            assert(before[a] == y);
                        }
                    }
                    if before.contains(y) {
                        let a = choose|a: int| 0 <= a < before.len() && before[a] == y;
                        assert(next[a] == y);
                    }
                    if y == x {
                        assert(next[j as int] == y);
                    }
                }
                assert forall|k: u64| #[trigger]
                    type_slots(self.types).dom().contains(k) implies type_slots(self.types)[k] == (if k
                    == h {
                    PartialType::Free(None)
                } else if pre.handle_among(next, k) {
                    PartialType::Indirect(PartialTypeKey { id: h })
                } else {
                    pre.types[k]
                }) by {
                    lemma_handle_among(pre, next, k);
                }
            }
            j += 1;
        }
        assert(es.take(edge_keys.len() as int) =~= es);

        let mut kept: Vec<u64> = Vec::new();
        let mut m: usize = 0;
        assert(link_refs@.take(0) =~= Seq::<u64>::empty());
        while m < link_refs.len()
            invariant
                m <= link_refs.len(),
                kept@ == drop_all(link_refs@.take(m as int), removed@),
            decreases link_refs.len() - m,
        {
            let r = link_refs[m];
            if !holds(&removed, r) {
                kept.push(r);
            }
            proof {
                assert(link_refs@.take(m + 1).drop_last() =~= link_refs@.take(m as int));
                assert(link_refs@.take(m + 1).last() == r);
            }
            m += 1;
        }
        assert(link_refs@.take(link_refs.len() as int) =~= link_refs@);

        let ghost kept_view = kept@;
        let ghost all_nodes = link_nodes@;
        let ghost mut e2: u64 = 0;
        proof {
            lemma_refs_of(pre, es);
            lemma_drop_all(pre.refs_of(es), ks);
            assert(kept_view == pre.kept_refs(ks));
        }
        if kept.len() == 0 {
            if link_nodes.len() > 0 {
                self.redexes.push((PartialTypeKey { id: h }, link_nodes));
            }
        } else {
            let n = kept.len();
            let e = self.edges.insert(Edge { type_key: h, refs: kept, nodes: link_nodes });
            proof {
                e2 = e;
            }
            let ghost edges_now = edge_slots(self.edges);
            let ghost types_mid = self.types;
            let ghost redexes_mid = self.redexes;
            let mut q: usize = 0;
            proof {
                assert(kept_view.take(0) =~= Seq::<u64>::empty());
                assert forall|a: int| 0 <= a < n implies ref_slots(self.refs).dom().contains(
                    #[trigger] kept_view[a],
                ) by {
                    assert(kept_view.contains(kept_view[a]));
                    assert(drop_all(pre.refs_of(es), ks).contains(kept_view[a]));
                    assert(pre.refs_of(es).contains(kept_view[a]));
                }
            }
            while q < n
                invariant
                    q <= n,
                    n == kept_view.len(),
                    kept_view.no_duplicates(),
                    edge_slots(self.edges) == edges_now,
                    edges_now.dom().contains(e),
                    edges_now[e]@.refs == kept_view,
                    forall|r: u64| #[trigger]
                        ref_slots(self.refs).dom().contains(r) <==> pre.refs.dom().contains(r)
                            && !ks.contains(r),
                    forall|a: int|
                        0 <= a < n ==> ref_slots(self.refs).dom().contains(#[trigger] kept_view[a]),
                    forall|r: u64| #[trigger]
                        ref_slots(self.refs).dom().contains(r) ==> ref_slots(self.refs)[r]@ == (if kept_view.take(
                            q as int,
                        ).contains(r) {
                            RefView { edge: e, i: kept_view.index_of(r) }
                        } else {
                            pre.refs[r]
                        }),
                    ref_span(self.refs) == ref_span(old(self).refs),
                    edge_span(self.edges) <= edge_span(old(self).edges) + 1,
                    edge_slots(self.edges).dom().finite(),
                    self.types == types_mid,
                    self.redexes == redexes_mid,
                    self.next_label == old(self).next_label,
                    self.birth@ == pre.birth.insert(h, pre.clock),
                    self.clock@ == pre.clock + 1,
                    self.used == old(self).used + 1,
                decreases n - q,
            {
                let r = self.edges.get(e).refs[q];
                let ghost before = ref_slots(self.refs);
                let slot = self.refs.get_mut(r);
                slot.i = q;
                slot.edge = e;
                proof {
                    let done = kept_view.take(q as int);
                    let next = kept_view.take(q + 1);
                    lemma_index_of(kept_view, q as int);
                    assert forall|y: u64| next.contains(y) <==> done.contains(y) || y == r by {
                        if next.contains(y) {
                            let a = choose|a: int| 0 <= a < next.len() && next[a] == y;
                            if a < q {
                                assert(done[a] == y);
                            }
                        }
                        if done.contains(y) {
                            let a = choose|a: int| 0 <= a < done.len() && done[a] == y;
                            assert(next[a] == y);
                        }
                        if y == r {
                            assert(next[q as int] == y);
                        }
                    }
                    assert forall|y: u64| #[trigger]
                        ref_slots(self.refs).dom().contains(y) implies ref_slots(self.refs)[y]@ == (if next.contains(
                        y,
                    ) {
                        RefView { edge: e, i: kept_view.index_of(y) }
                    } else {
                        pre.refs[y]
                    }) by {
                        assert(before.dom().contains(y));
                    }
                }
                q += 1;
            }
            assert(kept_view.take(n as int) =~= kept_view);
        }
        proof {
            let post = pre.linked(nodes_view, ks, h, e2);
            assert(self@.types =~= post.types);
            assert(self@.birth =~= post.birth);
            assert(self@.edges =~= post.edges);
            assert(self@.refs =~= post.refs) by {
                assert forall|r: u64| #[trigger]
                    post.refs.dom().contains(r) implies self@.refs[r] == post.refs[r] by {
                    let gathered = pre.refs_of(es);
                    assert(ref_slots(self.refs).dom().contains(r));
                    assert(gathered.contains(r) <==> pre.refs.dom().contains(r) && es.contains(
                        pre.refs[r].edge,
                    ));
                    assert(drop_all(gathered, ks).contains(r) <==> gathered.contains(r)
                        && !ks.contains(r));
                    if kept_view.contains(r) {
                        let a = choose|a: int| 0 <= a < kept_view.len() && kept_view[a] == r;
                    }
                }
            }
            assert(self@.redexes =~= post.redexes);
            assert(self@ =~= post);
            lemma_linked(pre, nodes_view, ks, h, e2);
        }
        PartialTypeKey { id: h }
    }
}

} // verus!
