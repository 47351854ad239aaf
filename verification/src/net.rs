//! The interaction net: its type store, its graph of edges, and reduction.

use vstd::prelude::*;

pub mod arena;
pub mod arrows;
pub mod dump;
pub mod iso;
pub mod laws;
pub mod link;
pub mod measure;
pub mod model;
pub mod read;
pub mod reduce;
pub mod steps;
pub mod types;
pub mod vars;

pub use model::{EdgeView, NetView, Place, RedexView, RefView};
pub use types::{PartialType, PartialTypeKey, Type};

use arena::{
    edge_slots, edge_span, edge_walk, ref_slots, ref_span, type_slots, type_span, type_walk,
};
use arena::{EdgeArena, RefArena, TypeArena, SLOT_LIMIT};

verus! {

/// A variable endpoint: one attachment point of one edge. A variable is
/// used up when it is linked or stored in a node.
pub struct Var {
    edge_ref: u64,
}

impl Var {
    /// The key of the edge-ref that this variable stands for.
    pub closed spec fn key(self) -> u64 {
        self.edge_ref
    }
}

/// The keys of a sequence of variables.
pub open spec fn keys_of(vars: Seq<Var>) -> Seq<u64> {
    Seq::new(vars.len(), |i: int| vars[i].key())
}

/// A cursor into the ref list of an edge.
#[derive(Clone, Copy)]
pub struct EdgeRef {
    i: usize,
    edge: u64,
}

impl View for EdgeRef {
    type V = RefView;

    closed spec fn view(&self) -> RefView {
        RefView { edge: self.edge, i: self.i as int }
    }
}

/// A lambda: `a` is the parameter position, `b` the body position.
pub struct Lam {
    pub a: Var,
    pub b: Var,
}

/// An application: `a` is the argument position, `b` the result position.
pub struct App {
    pub a: Var,
    pub b: Var,
}

/// A node attached to an edge. The annotation nodes mark the position of
/// the edge that holds them and have no endpoint of their own.
pub enum Node {
    Lam(Lam),
    App(App),
    AffAnn,
    AffChk,
    NAffAnn,
    NAffChk,
}

impl Node {
    /// The keys of the endpoints that the node owns.
    pub open spec fn ends(self) -> Seq<u64> {
        match self {
            Node::Lam(l) => seq![l.a.key(), l.b.key()],
            Node::App(p) => seq![p.a.key(), p.b.key()],
            _ => Seq::empty(),
        }
    }

    /// True of `Lam` and `App`, the nodes with two endpoints.
    pub open spec fn is_cons(self) -> bool {
        self is Lam || self is App
    }

    /// A mark of cloneability.
    pub open spec fn is_aff(self) -> bool {
        self is AffAnn || self is AffChk
    }

    /// A mark of uncloneability.
    pub open spec fn is_naff(self) -> bool {
        self is NAffAnn || self is NAffChk
    }

    /// An annotation, of either kind.
    pub open spec fn is_ann(self) -> bool {
        self is AffAnn || self is NAffAnn
    }

    /// A check, of either kind.
    pub open spec fn is_chk(self) -> bool {
        self is AffChk || self is NAffChk
    }
}

/// A multi-way equation: the nodes and the variable endpoints that share
/// one position and one type.
pub struct Edge {
    type_key: u64,
    refs: Vec<u64>,
    nodes: Vec<Node>,
}

impl View for Edge {
    type V = EdgeView;

    closed spec fn view(&self) -> EdgeView {
        EdgeView { type_key: self.type_key, refs: self.refs@, nodes: self.nodes@ }
    }
}

/// An interaction net with its type store.
pub struct Net {
    refs: RefArena,
    edges: EdgeArena,
    redexes: Vec<(PartialTypeKey, Vec<Node>)>,
    types: TypeArena,
    next_label: usize,
    used: usize,
    birth: Ghost<Map<u64, nat>>,
    clock: Ghost<nat>,
}

impl View for Net {
    type V = NetView;

    closed spec fn view(&self) -> NetView {
        NetView {
            types: type_slots(self.types),
            birth: self.birth@,
            clock: self.clock@,
            order: type_walk(self.types),
            edges: Map::new(
                |e: u64| edge_slots(self.edges).dom().contains(e),
                |e: u64| edge_slots(self.edges)[e]@,
            ),
            refs: Map::new(
                |r: u64| ref_slots(self.refs).dom().contains(r),
                |r: u64| ref_slots(self.refs)[r]@,
            ),
            redexes: Seq::new(
                self.redexes@.len(),
                |i: int| RedexView { type_key: self.redexes@[i].0.id, nodes: self.redexes@[i].1@ },
            ),
            next_label: self.next_label,
        }
    }
}

impl Net {
    /// The invariant: the state is well formed, and the arenas are within
    /// their limits.
    pub open spec fn wf(&self) -> bool {
        &&& self@.wf()
        &&& self.within_limits()
    }

    /// The arenas hold finitely many values, and none has made more slots
    /// than were counted, nor were more counted than a slot map can make.
    pub closed spec fn within_limits(&self) -> bool {
        &&& edge_slots(self.edges).dom().finite()
        &&& type_span(self.types) <= self.used
        &&& edge_span(self.edges) <= self.used
        &&& ref_span(self.refs) <= self.used
        &&& self.used <= SLOT_LIMIT
    }

    /// The slots that were counted for the arenas: one for every value
    /// that may have needed a new slot in one of them.
    pub closed spec fn slots_used(&self) -> nat {
        self.used as nat
    }

    /// The type handles in the order in which the type store is walked.
    pub open spec fn type_order(&self) -> Seq<u64> {
        self@.order
    }

    /// The edges in the order in which the edge arena is walked.
    pub closed spec fn edge_order(&self) -> Seq<u64> {
        edge_walk(self.edges)
    }

    /// How many more values every arena takes.
    pub open spec fn room(&self) -> int {
        SLOT_LIMIT - self.slots_used()
    }

    /// A net within its limits has room for no value or more: a net
    /// without a redex can always be given to `reduce`.
    pub proof fn lemma_room(&self)
        requires
            self.wf(),
        ensures
            0 <= self.room() <= SLOT_LIMIT,
            !self@.is_reducible() ==> self.room() >= self@.reduce_cost(),
    {
    }
}

} // verus!
