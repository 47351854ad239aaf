//! Read-back: numbering the type variables and resolving handles to
//! closed types.

use vstd::prelude::*;

use crate::net::arena::{type_slots, type_span, type_walk};
use crate::net::laws::{
    lemma_free_roots, lemma_index_of, lemma_root_of, lemma_root_of_same,
    lemma_with_free_numbered,
};
use crate::net::types::{PartialType, PartialTypeKey, Type};
use crate::net::Net;

verus! {

impl Net {
    /// Resolves a handle to the closed type that it stands for.
    pub fn read_type(&self, type_key: PartialTypeKey) -> (t: Type)
        requires
            self.wf(),
            self@.numbered(),
            self@.types.dom().contains(type_key.id),
        ensures
            t == self@.closed_type(type_key.id),
        decreases self@.clock - self@.birth[type_key.id],
    {
        let t = self.types.get(type_key.id);
        proof {
            match t {
                PartialType::Arrow { a, b } => {
                    assert(self@.types[type_key.id].points_to(a.id));
                    assert(self@.types[type_key.id].points_to(b.id));
                },
                PartialType::Cloneable { a } => {
                    assert(self@.types[type_key.id].points_to(a.id));
                },
                PartialType::Uncloneable { a } => {
                    assert(self@.types[type_key.id].points_to(a.id));
                },
                PartialType::Unsafe { a } => {
                    assert(self@.types[type_key.id].points_to(a.id));
                },
                PartialType::Indirect(k) => {
                    assert(self@.types[type_key.id].points_to(k.id));
                },
                PartialType::Free(slot) => {},
            }
        }
        match t {
            PartialType::Arrow { a, b } => Type::Arrow {
                a: Box::new(self.read_type(a)),
                b: Box::new(self.read_type(b)),
            },
            PartialType::Indirect(key) => self.read_type(key),
            PartialType::Free(free_var) => Type::Var(free_var.unwrap()),
            PartialType::Cloneable { a } => Type::Cloneable { a: Box::new(self.read_type(a)) },
            PartialType::Uncloneable { a } => Type::Uncloneable { a: Box::new(self.read_type(a)) },
            PartialType::Unsafe { a } => Type::Unsafe { a: Box::new(self.read_type(a)) },
        }
    }

    /// Follows the forwarding chain that starts at `k` to its end.
    fn find(&self, k: u64) -> (r: u64)
        requires
            self@.types_wf(),
            self@.types.dom().contains(k),
        ensures
            r == self@.root_of(k),
            self@.types.dom().contains(r),
    {
        let mut cur = k;
        loop
            invariant
                self@.types_wf(),
                self@.types.dom().contains(cur),
                self@.root_of(cur) == self@.root_of(k),
            ensures
                cur == self@.root_of(k),
                self@.types.dom().contains(cur),
            decreases self@.clock - self@.birth[cur],
        {
            match self.types.get(cur) {
                PartialType::Indirect(t) => {
                    assert(self@.types[cur].points_to(t.id));
                    cur = t.id;
                },
                _ => {
                    break ;
                },
            }
        }
        cur
    }

    /// Numbers the type variables 0, 1, 2, ...: the handles are taken in
    /// the order in which the type store is walked, and a variable gets
    /// the next number when a handle first reaches it through forwarding.
    /// Numbers given before are given anew.
    pub fn assign_free_vars(&mut self)
        requires
            old(self).wf(),
        ensures
            final(self).wf(),
            final(self)@ == old(self)@.with_free_numbered(old(self).type_order()),
            final(self)@.numbered(),
            old(self)@.settled_in(final(self)@),
            old(self)@.grows_to(final(self)@),
            old(self).type_order().no_duplicates(),
            old(self).type_order().len() <= usize::MAX,
            forall|k: u64|
                old(self).type_order().contains(k) <==> old(self)@.types.dom().contains(k),
            final(self).type_order() == old(self).type_order(),
            forall|x: u64| old(self)@.is_free(x) ==> #[trigger] final(self)@.is_free(x),
            final(self).room() == old(self).room(),
    {
        let ghost pre = self@;
        let keys = self.types.keys();
        let ghost order = keys@;
        let mut i: usize = 0;
        while i < keys.len()
            invariant
                i <= keys.len(),
                order == keys@,
                order.no_duplicates(),
                forall|k: u64| order.contains(k) <==> pre.types.dom().contains(k),
                forall|k: u64| #[trigger]
                    type_slots(self.types).dom().contains(k) <==> pre.types.dom().contains(k),
                forall|k: u64| #[trigger]
                    type_slots(self.types).dom().contains(k) ==> type_slots(self.types)[k] == (if order.take(
                        i as int,
                    ).contains(k) && pre.types[k] is Free {
                        PartialType::Free(None)
                    } else {
                        pre.types[k]
                    }),
                type_walk(self.types) == order,
                type_span(self.types) == type_span(old(self).types),
                self.refs == old(self).refs,
                self.edges == old(self).edges,
                self.redexes == old(self).redexes,
                self.next_label == old(self).next_label,
                self.birth == old(self).birth,
                self.clock == old(self).clock,
                self.used == old(self).used,
            decreases keys.len() - i,
        {
            let k = keys[i];
            proof {
                assert(order[i as int] == k);
                assert(order.contains(k));
                lemma_take_next(order, i as int);
            }
            let ghost before = type_slots(self.types);
            assert(before.dom().contains(k));
            let t = self.types.get(k);
            if let PartialType::Free(_) = t {
                let slot = self.types.get_mut(k);
                *slot = PartialType::Free(None);
            }
            proof {
                let next = order.take(i + 1);
                assert forall|y: u64| #[trigger]
                    type_slots(self.types).dom().contains(y) implies type_slots(self.types)[y] == (if next.contains(
                    y,
                ) && pre.types[y] is Free {
                    PartialType::Free(None)
                } else {
                    pre.types[y]
                }) by {
                    assert(before.dom().contains(y));
                }
            }
            i += 1;
        }
        let ghost blank = self@;
        proof {
            assert(order.take(keys.len() as int) =~= order);
            assert(blank.types_wf()) by {
                assert forall|k: u64, c: u64|
                    blank.types.dom().contains(k) && #[trigger] blank.types[k].points_to(c)
                        implies blank.types.dom().contains(c) && blank.birth[k]
                    < blank.birth[c] by {
                    assert(pre.types[k].points_to(c));
                }
            }
            assert(order.take(0) =~= Seq::<u64>::empty());
            assert forall|j: int| 0 <= j < order.len() implies pre.types.dom().contains(
                #[trigger] order[j],
            ) by {
                assert(order.contains(order[j]));
            }
        }
        let mut n: usize = 0;
        let mut i: usize = 0;
        while i < keys.len()
            invariant
                i <= keys.len(),
                order == keys@,
                pre.types_wf(),
                self@.types_wf(),
                self@.birth == pre.birth,
                self@.clock == pre.clock,
                forall|j: int| 0 <= j < order.len() ==> pre.types.dom().contains(#[trigger] order[j]),
                n == pre.free_roots(order.take(i as int)).len(),
                n <= i,
                forall|k: u64| #[trigger]
                    type_slots(self.types).dom().contains(k) <==> pre.types.dom().contains(k),
                forall|k: u64| #[trigger]
                    type_slots(self.types).dom().contains(k) ==> type_slots(self.types)[k] == (if pre.types[k] is Free {
                        if pre.free_roots(order.take(i as int)).contains(k) {
                            PartialType::Free(
                                Some(pre.free_roots(order.take(i as int)).index_of(k) as usize),
                            )
                        } else {
                            PartialType::Free(None)
                        }
                    } else {
                        pre.types[k]
                    }),
                type_walk(self.types) == order,
                type_span(self.types) == type_span(old(self).types),
                self.refs == old(self).refs,
                self.edges == old(self).edges,
                self.redexes == old(self).redexes,
                self.next_label == old(self).next_label,
                self.used == old(self).used,
            decreases keys.len() - i,
        {
            let k = keys[i];
            let ghost done = order.take(i as int);
            let ghost next = order.take(i + 1);
            let ghost roots = pre.free_roots(done);
            proof {
                assert(order[i as int] == k);
                assert(next.drop_last() =~= done);
                assert(next.last() == k);
                assert(self@.types.dom() =~= pre.types.dom());
                lemma_root_of_same(self@, pre, k);
                lemma_root_of(pre, k);
                assert forall|j: int| 0 <= j < done.len() implies pre.types.dom().contains(
                    #[trigger] done[j],
                ) by {
                    assert(done[j] == order[j]);
                }
                lemma_free_roots(pre, done);
            }
            let r = self.find(k);
            let ghost before = type_slots(self.types);
            assert(before.dom().contains(r));
            let t = self.types.get(r);
            if let PartialType::Free(None) = t {
                let slot = self.types.get_mut(r);
                *slot = PartialType::Free(Some(n));
                n += 1;
            }
            proof {
                let grown = pre.free_roots(next);
                assert(grown == (if pre.types[r] is Free && !roots.contains(r) {
                    roots.push(r)
                } else {
                    roots
                }));
                assert forall|j: int| 0 <= j < roots.len() implies grown.index_of(
                    #[trigger] roots[j],
                ) == j && roots.index_of(roots[j]) == j by {
                    assert forall|j: int| 0 <= j < next.len() implies pre.types.dom().contains(
                        #[trigger] next[j],
                    ) by {
                        assert(next[j] == order[j]);
                    }
                    lemma_free_roots(pre, next);
                    assert(grown[j] == roots[j]);
                    lemma_index_of(grown, j);
                    lemma_index_of(roots, j);
                }
                assert forall|y: u64| #[trigger]
                    type_slots(self.types).dom().contains(y) implies type_slots(self.types)[y] == (if pre.types[y] is Free {
                    if grown.contains(y) {
                        PartialType::Free(Some(grown.index_of(y) as usize))
                    } else {
                        PartialType::Free(None)
                    }
                } else {
                    pre.types[y]
                }) by {
                    assert(before.dom().contains(y));
                    assert(before.dom().contains(r));
                    assert forall|j: int| 0 <= j < next.len() implies pre.types.dom().contains(
                        #[trigger] next[j],
                    ) by {
                        assert(next[j] == order[j]);
                    }
                    lemma_free_roots(pre, next);
                    if pre.types[y] is Free {
                        if roots.contains(y) {
                            let j = choose|j: int| 0 <= j < roots.len() && roots[j] == y;
                            assert(grown[j] == y);
                            assert(grown.contains(y));
                            assert(grown.index_of(roots[j]) == j);
                            assert(roots.index_of(roots[j]) == j);
                            assert(type_slots(self.types)[y] == before[y]);
                        } else if y == r {
                            assert(grown == roots.push(r));
                            assert(grown[roots.len() as int] == r);
                            assert(grown.contains(r));
                            lemma_index_of(grown, roots.len() as int);
                        } else {
                            if grown.contains(y) {
                                let j = choose|j: int| 0 <= j < grown.len() && grown[j] == y;
                                if j < roots.len() {
                                    assert(roots[j] == y);
                                }
                            }
                            assert(type_slots(self.types)[y] == before[y]);
                        }
                    } else {
                        if y == r {
                            assert(t == pre.types[r]);
                        }
                        assert(type_slots(self.types)[y] == before[y]);
                    }
                }
                assert(self@.types_wf()) by {
                    assert forall|a: u64, c: u64|
                        self@.types.dom().contains(a) && #[trigger] self@.types[a].points_to(c)
                            implies self@.types.dom().contains(c) && self@.birth[a]
                        < self@.birth[c] by {
                        assert(pre.types[a].points_to(c));
                    }
                }
            }
            i += 1;
        }
        proof {
            assert(order.take(keys.len() as int) =~= order);
            let post = pre.with_free_numbered(order);
            lemma_free_roots(pre, order);
            assert forall|k: u64| pre.types.dom().contains(k) && pre.types[k] is Free implies pre.free_roots(
                order,
            ).contains(k) by {
                assert(order.contains(k));
                let j = choose|j: int| 0 <= j < order.len() && order[j] == k;
                assert(pre.types[order[j]] is Free);
            }
            assert(self@.types =~= post.types);
            assert(self@ =~= post);
            lemma_with_free_numbered(pre, order);
        }
    }
}

/// The members of one more element of a sequence.
proof fn lemma_take_next(s: Seq<u64>, i: int)
    requires
        0 <= i < s.len(),
    ensures
        forall|y: u64| s.take(i + 1).contains(y) <==> s.take(i).contains(y) || y == s[i],
{
    let done = s.take(i);
    let next = s.take(i + 1);
    assert forall|y: u64| next.contains(y) <==> done.contains(y) || y == s[i] by {
        if next.contains(y) {
            let a = choose|a: int| 0 <= a < next.len() && next[a] == y;
            if a < i {
                assert(done[a] == y);
            }
        }
        if done.contains(y) {
            let a = choose|a: int| 0 <= a < done.len() && done[a] == y;
            assert(next[a] == y);
        }
        if y == s[i] {
            assert(next[i] == y);
        }
    }
}

} // verus!
