//! A safe arena for dynamic, possibly cyclic graphs: nodes live in one owning
//! store, edges are checked pointers rather than references, all access runs
//! through a session-tagged anchor, and a precise mark-and-sweep pass reclaims
//! everything the root collection can no longer reach.

pub mod edge;
pub mod graph_ptr;
pub mod graph_raw;
pub mod nodes;
pub mod shared_box;

pub use crate::edge::{Edge, EdgeBoth, EdgeLoop, GraphIterRes};
pub use crate::graph_ptr::{GraphError, GraphPtr};
pub use crate::graph_raw::GraphRaw;
pub use crate::nodes::{
    CleanupGen, GraphNode, MetaData, NodeCollection, NodeNamedMap, NodeOption, NodeTreeMap,
    NodeVec, RootCollection, RootHashMap, RootNamedSet, RootOption, RootVec,
};
pub use crate::shared_box::SharedBox;

use vstd::prelude::*;

use crate::nodes::{has_key, val_of};

verus! {

/// A graph value: the arena of nodes, the externally visible entry points, and
/// the counter from which anchor sessions are issued.
pub struct GenericGraph<N, C, R> {
    pub(crate) internal: GraphRaw<N, C>,
    pub(crate) root: R,
    pub(crate) next_session: u64,
}

/// A graph whose root collection is a plain ordered list.
pub type VecGraph<N, C> = GenericGraph<N, C, RootVec>;

/// A graph whose root collection names each entry point at most once.
pub type NamedGraph<N, C> = GenericGraph<N, C, RootNamedSet>;

/// A graph whose root collection holds at most one entry point.
pub type OptionGraph<N, C> = GenericGraph<N, C, RootOption>;

/// A graph whose root collection names entry points under ordered keys.
pub type KeyedGraph<N, C> = GenericGraph<N, C, RootHashMap>;

/// A node keying its edges by destination pointer: at most one edge per
/// ordered pair of nodes.
pub type NamedNode<N, E> = GraphNode<N, NodeNamedMap<E>>;

/// A node holding an ordered list of edges, keyed by position.
pub type VecNode<N, E> = GraphNode<N, NodeVec<E>>;

/// A node holding at most one outgoing edge.
pub type OptionNode<N, E> = GraphNode<N, NodeOption<E>>;

/// A node keying its edges by a caller-supplied totally ordered key.
pub type TreeNode<N, E> = GraphNode<N, NodeTreeMap<E>>;

/// What a graph does when its exclusive anchor is released.
#[derive(Clone, Copy, PartialEq, Eq, Debug, Structural)]
pub enum CleanupStrategy {
    /// The anchor never cleans up.
    Never,
    /// The anchor sweeps on release with the default heuristic. No heuristic
    /// is implemented, so this is the precise sweep.
    Always,
    /// The anchor always runs the precise sweep on release.
    AlwaysPrecise,
}

/// The cleanup interface a graph value offers, together with the model the
/// sweep is specified against: which addresses hold a node, which are
/// reachable from the roots, and what each node carries.
pub trait GraphImpl: Sized {
    /// The payload a node carries.
    type Payload;

    /// The value an edge carries.
    type EdgeValue;

    /// The invariant cleanup relies on and maintains.
    spec fn inv(&self) -> bool;

    /// Whether a node with stable address `a` is currently stored.
    spec fn node_live(&self, a: usize) -> bool;

    /// Whether the node at `a` can be reached from the root collection.
    spec fn node_reachable(&self, a: usize) -> bool;

    /// The payload of the live node at `a`.
    spec fn node_payload(&self, a: usize) -> Self::Payload;

    /// The `(target address, edge value)` entries of the live node at `a`.
    spec fn node_edges(&self, a: usize) -> Seq<(usize, Self::EdgeValue)>;

    /// Walks the graph and drops every node that cannot be reached from the
    /// root collection, disregarding any heuristic meant to speed cleanup up:
    /// afterwards exactly the reachable nodes are stored, each with its
    /// payload and edges intact.
    fn cleanup_precise(&mut self)
        requires
            old(self).inv(),
        ensures
            final(self).inv(),
            forall|a: usize|
                #[trigger] final(self).node_live(a) <==> old(self).node_reachable(a),
            forall|a: usize|
                #![trigger final(self).node_payload(a)]
                #![trigger final(self).node_edges(a)]
                final(self).node_live(a) ==> final(self).node_payload(a) == old(self).node_payload(a) && final(self).node_edges(a) == old(self).node_edges(a),
    ;

    /// Walks the graph and drops unreachable nodes, with a heuristic allowed
    /// to miss some leaked nodes. None of the possible heuristics is
    /// implemented, so this is an alias for the precise sweep and carries the
    /// precise sweep's contract.
    fn cleanup(&mut self)
        requires
            old(self).inv(),
        ensures
            final(self).inv(),
            forall|a: usize|
                #[trigger] final(self).node_live(a) <==> old(self).node_reachable(a),
            forall|a: usize|
                #![trigger final(self).node_payload(a)]
                #![trigger final(self).node_edges(a)]
                final(self).node_live(a) ==> final(self).node_payload(a) == old(self).node_payload(a) && final(self).node_edges(a) == old(self).node_edges(a),
    {
        self.cleanup_precise();
    }
}

impl<N, C: NodeCollection, R: RootCollection> GenericGraph<N, C, R> {
    /// Whether a node with stable address `a` is currently stored.
    pub closed spec fn live(&self, a: usize) -> bool {
        self.internal.live(a)
    }

    /// The payload of the live node at address `a`.
    pub closed spec fn data_of(&self, a: usize) -> N {
        self.internal.data_of(a)
    }

    /// The `(target address, edge value)` entries of the live node at `a`.
    pub closed spec fn edges_of(&self, a: usize) -> Seq<(usize, C::Edge)> {
        self.internal.edges_of(a)
    }

    /// The outgoing edge targets of the live node at `a`.
    pub open spec fn targets_of(&self, a: usize) -> Seq<usize> {
        self.edges_of(a).map_values(|e: (usize, C::Edge)| e.0)
    }

    /// Whether the live node at `src` holds an edge targeting `dst`.
    pub open spec fn has_edge(&self, src: usize, dst: usize) -> bool {
        has_key(self.edges_of(src), dst)
    }

    /// The value on the edge from `src` to `dst` (meaningful when present and
    /// when the edge collection keys edges by target).
    pub open spec fn edge_val(&self, src: usize, dst: usize) -> C::Edge {
        val_of(self.edges_of(src), dst)
    }

    /// The addresses in the root collection, in order.
    pub closed spec fn roots(&self) -> Seq<usize> {
        self.root.root_seq()
    }

    /// How many addresses were ever issued; also the next fresh address.
    pub closed spec fn bound(&self) -> int {
        self.internal.bound()
    }

    /// How many nodes are currently stored.
    pub closed spec fn count(&self) -> int {
        self.internal.count()
    }

    /// The session tag the next anchor will carry.
    pub closed spec fn sessions(&self) -> u64 {
        self.next_session
    }

    /// Whether the node at `a` can be reached from the root collection by
    /// following stored edges.
    pub closed spec fn reachable(&self, a: usize) -> bool {
        self.internal.reachable(self.root.root_seq(), a)
    }

    /// The graph's invariant: the arena invariant holds and every root entry
    /// names a stored node.
    pub closed spec fn wf(&self) -> bool {
        &&& self.internal.wf()
        &&& forall|k: int|
            0 <= k < self.root.root_seq().len() ==> self.internal.live(
                #[trigger] self.root.root_seq()[k],
            )
    }

    /// The set of addresses currently stored.
    pub open spec fn live_set(&self) -> Set<usize> {
        Set::new(|a: usize| self.live(a))
    }

    /// The graph's node count is exactly the number of live addresses, so
    /// `node_count` after a sweep is the size of the reachable set.
    pub proof fn lemma_count_is_live_set_size(&self)
        requires
            self.wf(),
        ensures
            self.live_set().finite(),
            self.live_set().len() == self.count(),
    {
        self.internal.lemma_count_is_live_set_size();
        assert(self.live_set() =~= self.internal.live_set()) by {
            assert forall|a: usize|
                #[trigger] self.live_set().contains(a) == self.internal.live_set().contains(
                a,
            ) by {
                assert(self.live(a) == self.internal.live(a));
            }
        }
    }

    /// A fresh, empty graph.
    pub fn new() -> (g: Self)
        ensures
            g.wf(),
            g.bound() == 0,
            g.count() == 0,
            g.sessions() == 0,
            g.roots() == Seq::<usize>::empty(),
            forall|a: usize| !(#[trigger] g.live(a)),
    {
        GenericGraph { internal: GraphRaw::new(), root: R::empty(), next_session: 0 }
    }

    /// Runs the precise reachability sweep now: afterwards exactly the nodes
    /// reachable from the root collection are stored, with their payloads and
    /// edges intact; the root collection and the session counter are untouched.
    pub fn cleanup_precise(&mut self)
        requires
            old(self).wf(),
        ensures
            final(self).wf(),
            forall|a: usize| #[trigger] final(self).live(a) <==> old(self).reachable(a),
            forall|a: usize|
                #![trigger final(self).data_of(a)]
                #![trigger final(self).edges_of(a)]
                final(self).live(a) ==> final(self).data_of(a) == old(self).data_of(a)
                    && final(self).edges_of(a) == old(self).edges_of(a),
            final(self).roots() == old(self).roots(),
            final(self).bound() == old(self).bound(),
            final(self).sessions() == old(self).sessions(),
            final(self).count() <= old(self).count(),
    {
        proof {
            assert forall|k: int|
                0 <= k < self.root.root_seq().len() implies self.internal.live(
                #[trigger] self.root.root_seq()[k],
            ) by {
                assert(self.roots()[k] == self.root.root_seq()[k]);
                assert(self.internal.live(self.roots()[k]));
            }
        }
        self.internal.cleanup_precise(&self.root);
        proof {
            assert forall|k: int|
                0 <= k < self.roots().len() implies self.internal.live(
                #[trigger] self.roots()[k],
            ) by {
                let r = self.roots()[k];
                old(self).internal.lemma_reachable_root(old(self).roots(), r);
            }
        }
    }

    /// How many nodes the arena currently stores.
    pub fn node_count(&self) -> (n: usize)
        ensures
            n == self.count(),
    {
        self.internal.node_count()
    }

    /// Opens the exclusive anchor for this graph, with a fresh session tag.
    /// The graph moves into the anchor and comes back from `release`, so no
    /// other accessor can exist beside it.
    pub fn anchor_mut(self, strategy: CleanupStrategy) -> (a: AnchorMut<N, C, R>)
        requires
            self.wf(),
            self.sessions() < u64::MAX,
        ensures
            a.wf(),
            a.session() == self.sessions(),
            a.strategy() == strategy,
            a.graph().sessions() == self.sessions() + 1,
            a.graph().roots() == self.roots(),
            a.graph().bound() == self.bound(),
            a.graph().count() == self.count(),
            forall|b: usize| #[trigger] a.graph().live(b) == self.live(b),
            forall|b: usize|
                #![trigger a.graph().data_of(b)]
                #![trigger a.graph().edges_of(b)]
                self.live(b) ==> a.graph().data_of(b) == self.data_of(b)
                    && a.graph().edges_of(b) == self.edges_of(b),
    {
        let GenericGraph { internal, root, next_session } = self;
        let parent = GenericGraph { internal, root, next_session: next_session + 1 };
        proof {
            assert(parent.internal == self.internal);
            assert(parent.roots() == self.roots());
        }
        AnchorMut { parent, session: next_session, strategy }
    }
}

impl<N, C: NodeCollection, R: RootCollection> Default for GenericGraph<N, C, R> {
    /// A fresh, empty graph.
    fn default() -> (g: Self)
        ensures
            g.wf(),
            g.bound() == 0,
            g.count() == 0,
            g.sessions() == 0,
            g.roots() == Seq::<usize>::empty(),
    {
        GenericGraph::new()
    }
}

impl<N, C: NodeCollection, R: RootCollection> GraphImpl for GenericGraph<N, C, R> {
    type Payload = N;

    type EdgeValue = C::Edge;

    closed spec fn inv(&self) -> bool {
        self.wf()
    }

    closed spec fn node_live(&self, a: usize) -> bool {
        self.live(a)
    }

    closed spec fn node_reachable(&self, a: usize) -> bool {
        self.reachable(a)
    }

    closed spec fn node_payload(&self, a: usize) -> N {
        self.data_of(a)
    }

    closed spec fn node_edges(&self, a: usize) -> Seq<(usize, C::Edge)> {
        self.edges_of(a)
    }

    fn cleanup_precise(&mut self) {
        GenericGraph::cleanup_precise(self);
    }
}

/// The exclusive capability for one graph: the only object through which
/// nodes are spawned, payloads and edges mutated, pointers dereferenced and
/// cleanup triggered. It owns the graph until `release` hands it back.
pub struct AnchorMut<N, C, R> {
    pub(crate) parent: GenericGraph<N, C, R>,
    pub(crate) session: u64,
    pub(crate) strategy: CleanupStrategy,
}

impl<N, C: NodeCollection, R: RootCollection> AnchorMut<N, C, R> {
    /// The graph as the anchor currently holds it.
    pub closed spec fn graph(&self) -> GenericGraph<N, C, R> {
        self.parent
    }

    /// The session tag this anchor stamps on every pointer it issues.
    pub closed spec fn session(&self) -> u64 {
        self.session
    }

    /// The cleanup strategy this anchor applies on release.
    pub closed spec fn strategy(&self) -> CleanupStrategy {
        self.strategy
    }

    /// The anchor's invariant: the graph invariant holds and the session tag
    /// is below the graph's counter, so no later anchor can repeat it.
    pub closed spec fn wf(&self) -> bool {
        self.parent.wf() && self.session < self.parent.next_session
    }

    /// Why the anchor would refuse pointer `p`, if it would: a foreign session
    /// tag is an invariant violation, a matching tag whose node is gone names
    /// a stale pointer. Every pointer-taking operation fails on exactly these.
    pub open spec fn ptr_err(&self, p: GraphPtr) -> Option<GraphError> {
        if p.session != self.session() {
            Some(GraphError::ForeignPointer)
        } else if !self.graph().live(p.addr) {
            Some(GraphError::StalePointer)
        } else {
            None
        }
    }

    /// How many nodes the arena currently stores.
    pub fn node_count(&self) -> (n: usize)
        ensures
            n == self.graph().count(),
    {
        self.parent.node_count()
    }

    /// Checks a pointer: its stable address when this anchor honours it, or
    /// the reason it refuses it.
    pub fn locate(&self, p: GraphPtr) -> (r: Result<usize, GraphError>)
        ensures
            match r {
                Ok(a) => self.ptr_err(p) is None && a == p.addr,
                Err(e) => Some(e) == self.ptr_err(p),
            },
    {
        if p.session != self.session {
            Err(GraphError::ForeignPointer)
        } else if !self.parent.internal.is_live(p.addr) {
            Err(GraphError::StalePointer)
        } else {
            Ok(p.addr)
        }
    }

    /// Hands the graph back, applying the anchor's cleanup strategy: under
    /// `Never` the graph is returned as it is; under `Always` and
    /// `AlwaysPrecise` the precise sweep runs first (the heuristic sweep is a
    /// documented alias for it).
    pub fn release(self) -> (g: GenericGraph<N, C, R>)
        requires
            self.wf(),
        ensures
            g.wf(),
            g.sessions() == self.graph().sessions(),
            g.roots() == self.graph().roots(),
            g.bound() == self.graph().bound(),
            g.count() <= self.graph().count(),
            self.strategy() is Never ==> g == self.graph(),
            !(self.strategy() is Never) ==> {
                &&& forall|a: usize| #[trigger] g.live(a) <==> self.graph().reachable(a)
                &&& forall|a: usize|
                    #![trigger g.data_of(a)]
                    #![trigger g.edges_of(a)]
                    g.live(a) ==> g.data_of(a) == self.graph().data_of(a) && g.edges_of(a)
                        == self.graph().edges_of(a)
            },
    {
        let AnchorMut { mut parent, session: _, strategy } = self;
        match strategy {
            CleanupStrategy::Never => parent,
            CleanupStrategy::Always => {
                parent.cleanup_precise();
                parent
            },
            CleanupStrategy::AlwaysPrecise => {
                parent.cleanup_precise();
                parent
            },
        }
    }

    /// Allocates a new detached node holding `data` and returns its pointer.
    /// Until the pointer is attached to the root or to a reachable node, the
    /// node is garbage and the next sweep reclaims it.
    pub fn spawn(&mut self, data: N) -> (p: GraphPtr)
        requires
            old(self).wf(),
        ensures
            final(self).wf(),
            final(self).session() == old(self).session(),
            final(self).strategy() == old(self).strategy(),
            p.session == old(self).session(),
            p.addr == old(self).graph().bound(),
            !old(self).graph().live(p.addr),
            final(self).graph().live(p.addr),
            final(self).graph().data_of(p.addr) == data,
            final(self).graph().edges_of(p.addr) == Seq::<(usize, C::Edge)>::empty(),
            final(self).graph().bound() == old(self).graph().bound() + 1,
            final(self).graph().count() == old(self).graph().count() + 1,
            final(self).graph().roots() == old(self).graph().roots(),
            !final(self).graph().roots().contains(p.addr),
            final(self).graph().sessions() == old(self).graph().sessions(),
            forall|b: usize|
                b != p.addr ==> (#[trigger] final(self).graph().live(b)) == old(self).graph().live(b),
            forall|b: usize|
                #![trigger final(self).graph().data_of(b)]
                #![trigger final(self).graph().edges_of(b)]
                b != p.addr && old(self).graph().live(b) ==> final(self).graph().data_of(b)
                    == old(self).graph().data_of(b) && final(self).graph().edges_of(b) == old(self).graph().edges_of(b),
    {
        let a = self.parent.internal.spawn_detached(data);
        proof {
            let g0 = old(self).parent.internal;
            let g1 = self.parent.internal;
            assert(self.parent.roots() == old(self).parent.roots());
            assert forall|b: usize|
                b != a implies (#[trigger] g1.live(b)) == g0.live(b) && (g0.live(b)
                ==> g1.data_of(b) == g0.data_of(b) && g1.edges_of(b) == g0.edges_of(b)) by {
                assert(!set![a].contains(b));
                assert(g1.live(b) == g0.live(b));
            }
            assert forall|b: usize|
                #![trigger self.parent.data_of(b)]
                #![trigger self.parent.edges_of(b)]
                b != a && old(self).parent.live(b) implies self.parent.data_of(b) == old(self).parent.data_of(b) && self.parent.edges_of(b) == old(self).parent.edges_of(
                b,
            ) by {
                assert(!set![a].contains(b));
                assert(g1.live(b) == g0.live(b));
                assert(g1.data_of(b) == g0.data_of(b) && g1.edges_of(b) == g0.edges_of(b));
            }
            assert forall|k: int|
                0 <= k < self.parent.roots().len() implies g1.live(
                #[trigger] self.parent.roots()[k],
            ) by {
                let r = self.parent.roots()[k];
                assert(old(self).parent.roots()[k] == r);
                assert(g0.live(r));
                assert(r != a);
            }
            assert(!self.parent.roots().contains(a)) by {
                if self.parent.roots().contains(a) {
                    let k = choose|k: int|
                        0 <= k < self.parent.roots().len() && self.parent.roots()[k] == a;
                    assert(old(self).parent.roots()[k] == a);
                    assert(g0.live(a));
                }
            }
        }
        GraphPtr { addr: a, session: self.session }
    }
}

impl<N, C: NodeCollection, R: RootCollection> AnchorMut<N, C, R> {
    /// Nothing outside `except` differs between two anchor states: same
    /// session, strategy, roots and address bound, and every other node is
    /// live, holds the same payload and carries the same edges as before.
    pub open spec fn same_graph_except(pre: Self, post: Self, except: Set<usize>) -> bool {
        &&& post.session() == pre.session()
        &&& post.strategy() == pre.strategy()
        &&& post.graph().sessions() == pre.graph().sessions()
        &&& post.graph().bound() == pre.graph().bound()
        &&& post.graph().roots() == pre.graph().roots()
        &&& forall|b: usize|
            !except.contains(b) ==> ((#[trigger] post.graph().live(b)) == pre.graph().live(b))
        &&& forall|b: usize|
            #![trigger post.graph().data_of(b)]
            #![trigger post.graph().edges_of(b)]
            !except.contains(b) && pre.graph().live(b) ==> post.graph().data_of(b)
                == pre.graph().data_of(b) && post.graph().edges_of(b) == pre.graph().edges_of(b)
    }

    /// A shared reference to the payload of the node `p` points at.
    pub fn get(&self, p: GraphPtr) -> (r: Result<&N, GraphError>)
        requires
            self.wf(),
        ensures
            match r {
                Ok(x) => self.ptr_err(p) is None && *x == self.graph().data_of(p.addr),
                Err(e) => Some(e) == self.ptr_err(p),
            },
    {
        match self.locate(p) {
            Ok(a) => Ok(self.parent.internal.get(a)),
            Err(e) => Err(e),
        }
    }

    /// An exclusive reference to the payload of the node `p` points at. Only
    /// that payload can change through it; the graph's shape stays as it was.
    #[verifier::rlimit(100)]
    #[verifier::spinoff_prover]
    pub fn get_mut(&mut self, p: GraphPtr) -> (r: Result<&mut N, GraphError>)
        requires
            old(self).wf(),
        ensures
            match r {
                Ok(x) => {
                    &&& old(self).ptr_err(p) is None
                    &&& *x == old(self).graph().data_of(p.addr)
                    &&& final(self).session() == old(self).session()
                    &&& final(self).strategy() == old(self).strategy()
                    &&& final(self).graph().sessions() == old(self).graph().sessions()
                    &&& final(self).graph().roots() == old(self).graph().roots()
                    &&& final(self).graph().bound() == old(self).graph().bound()
                    &&& final(self).wf()
                    &&& final(self).graph().live(p.addr)
                    &&& final(self).graph().data_of(p.addr) == *final(x)
                    &&& final(self).graph().edges_of(p.addr) == old(self).graph().edges_of(
                        p.addr,
                    )
                    &&& final(self).graph().count() == old(self).graph().count()
                    &&& forall|b: usize|
                        #![trigger final(self).graph().live(b)]
                        #![trigger final(self).graph().data_of(b)]
                        #![trigger final(self).graph().edges_of(b)]
                        (final(self).graph().live(b) == old(self).graph().live(b)) && (b
                            != p.addr && old(self).graph().live(b)
                            ==> final(self).graph().data_of(b) == old(self).graph().data_of(b)
                            && final(self).graph().edges_of(b) == old(self).graph().edges_of(b))
                },
                Err(e) => Some(e) == old(self).ptr_err(p) && *final(self) == *old(self),
            },
    {
        match self.locate(p) {
            Ok(a) => {
                let x = self.parent.internal.get_mut(a);
                Ok(x)
            },
            Err(e) => Err(e),
        }
    }

    /// Re-wraps a cached raw node identifier as a checked pointer of this
    /// session, when it still names a stored node.
    pub fn from_raw(&self, raw: usize) -> (r: Result<GraphPtr, GraphError>)
        ensures
            match r {
                Ok(p) => self.graph().live(raw) && p == (GraphPtr {
                    addr: raw,
                    session: self.session(),
                }),
                Err(e) => !self.graph().live(raw) && e == GraphError::StalePointer,
            },
    {
        if self.parent.internal.is_live(raw) {
            Ok(GraphPtr { addr: raw, session: self.session })
        } else {
            Err(GraphError::StalePointer)
        }
    }

    /// The pointers to the targets of every edge leaving the node `p` points
    /// at, in the edge collection's storage order.
    pub fn edges(&self, p: GraphPtr) -> (r: Result<Vec<GraphPtr>, GraphError>)
        requires
            self.wf(),
        ensures
            match r {
                Ok(v) => {
                    &&& self.ptr_err(p) is None
                    &&& v@.len() == self.graph().edges_of(p.addr).len()
                    &&& forall|k: int|
                        0 <= k < v@.len() ==> (#[trigger] v@[k]) == (GraphPtr {
                            addr: self.graph().edges_of(p.addr)[k].0,
                            session: self.session(),
                        })
                },
                Err(e) => Some(e) == self.ptr_err(p),
            },
    {
        let a = match self.locate(p) {
            Ok(a) => a,
            Err(e) => {
                return Err(e);
            },
        };
        let n = self.parent.internal.edge_count(a);
        let mut v: Vec<GraphPtr> = Vec::new();
        let mut k: usize = 0;
        while k < n
            invariant
                self.wf(),
                self.ptr_err(p) is None,
                a == p.addr,
                n == self.graph().edges_of(a).len(),
                k <= n,
                v@.len() == k,
                forall|i: int|
                    0 <= i < k ==> (#[trigger] v@[i]) == (GraphPtr {
                        addr: self.graph().edges_of(a)[i].0,
                        session: self.session(),
                    }),
            decreases n - k,
        {
            let t = self.parent.internal.edge_target(a, k);
            v.push(GraphPtr { addr: t, session: self.session });
            k = k + 1;
        }
        Ok(v)
    }

    /// The view of edge `k` of the node `p` points at, or `None` when `p` has
    /// fewer than `k + 1` edges: the branded pointer to the target, the value
    /// stored on the edge, and the connected node data — a `Loop` view when
    /// the edge returns to `p`'s node, a `Both` view of the two distinct
    /// nodes otherwise.
    pub fn edge_at(&self, p: GraphPtr, k: usize) -> (r: Result<
        Option<GraphIterRes<Edge<&N, &C::Edge>, GraphPtr>>,
        GraphError,
    >)
        requires
            self.wf(),
        ensures
            match r {
                Ok(opt) => {
                    &&& self.ptr_err(p) is None
                    &&& (opt is Some <==> (k as int) < self.graph().edges_of(p.addr).len())
                    &&& match opt {
                        Some(item) => ({
                            let en = self.graph().edges_of(p.addr)[k as int];
                            &&& item.ptr == (GraphPtr { addr: en.0, session: self.session() })
                            &&& match item.values {
                                Edge::Loop(l) => en.0 == p.addr && *l.this == self.graph().data_of(p.addr) && *l.edge == en.1,
                                Edge::Both(bo) => en.0 != p.addr && *bo.this == self.graph().data_of(p.addr) && *bo.that == self.graph().data_of(en.0) && *bo.edge == en.1,
                            }
                        }),
                        None => true,
                    }
                },
                Err(e) => Some(e) == self.ptr_err(p),
            },
    {
        let a = match self.locate(p) {
            Ok(a) => a,
            Err(e) => {
                return Err(e);
            },
        };
        let n = self.parent.internal.edge_count(a);
        if k >= n {
            return Ok(None);
        }
        let (t, values) = self.parent.internal.edge_view(a, k);
        Ok(Some(GraphIterRes { values, ptr: GraphPtr { addr: t, session: self.session } }))
    }

    /// Immediately removes the node `p` points at and frees its slot. The
    /// caller must already have made the node unreachable: no stored node's
    /// edges and no root entry may still name it.
    pub fn kill(&mut self, p: GraphPtr) -> (r: Result<(), GraphError>)
        requires
            old(self).wf(),
            forall|b: usize|
                old(self).graph().live(b) && b != p.addr ==> !(#[trigger] old(self).graph().has_edge(b, p.addr)),
            !old(self).graph().roots().contains(p.addr),
        ensures
            match r {
                Ok(u) => {
                    &&& old(self).ptr_err(p) is None
                    &&& final(self).wf()
                    &&& !final(self).graph().live(p.addr)
                    &&& final(self).graph().count() == old(self).graph().count() - 1
                    &&& Self::same_graph_except(*old(self), *final(self), set![p.addr])
                },
                Err(e) => Some(e) == old(self).ptr_err(p) && *final(self) == *old(self),
            },
    {
        let a = match self.locate(p) {
            Ok(a) => a,
            Err(e) => {
                return Err(e);
            },
        };
        proof {
            assert forall|b: usize|
                self.parent.internal.live(b) && b != a implies !has_key(
                #[trigger] self.parent.internal.edges_of(b),
                a,
            ) by {
                assert(!old(self).graph().has_edge(b, p.addr));
            }
        }
        self.parent.internal.kill(a);
        proof {
            lemma_anchor_frame(*old(self), *self, set![p.addr]);
            lemma_anchor_roots_live(*old(self), *self, set![p.addr]);
        }
        Ok(())
    }

    /// Exclusive access to two nodes at once: `None` exactly when `a` and `b`
    /// are the same pointer, else one exclusive payload reference for each of
    /// the two (necessarily distinct) nodes. The inequality check is what
    /// makes handing out both references at once sound.
    #[verifier::rlimit(100)]
    #[verifier::spinoff_prover]
    pub fn bridge(&mut self, a: GraphPtr, b: GraphPtr) -> (r: Result<
        Option<(&mut N, &mut N)>,
        GraphError,
    >)
        requires
            old(self).wf(),
        ensures
            match r {
                Ok(opt) => {
                    &&& old(self).ptr_err(a) is None
                    &&& old(self).ptr_err(b) is None
                    &&& (opt is None <==> a.same_node(b))
                    &&& match opt {
                        None => *final(self) == *old(self),
                        Some(pair) => {
                            &&& !a.same_node(b)
                            &&& *pair.0 == old(self).graph().data_of(a.addr)
                            &&& *pair.1 == old(self).graph().data_of(b.addr)
                            &&& final(self).wf()
                            &&& final(self).session() == old(self).session()
                            &&& final(self).strategy() == old(self).strategy()
                            &&& final(self).graph().sessions() == old(self).graph().sessions()
                            &&& final(self).graph().roots() == old(self).graph().roots()
                            &&& final(self).graph().bound() == old(self).graph().bound()
                            &&& final(self).graph().count() == old(self).graph().count()
                            &&& final(self).graph().data_of(a.addr) == *final(pair.0)
                            &&& final(self).graph().data_of(b.addr) == *final(pair.1)
                            &&& final(self).graph().edges_of(a.addr) == old(self).graph().edges_of(a.addr)
                            &&& final(self).graph().edges_of(b.addr) == old(self).graph().edges_of(b.addr)
                            &&& forall|c: usize|
                                #![trigger final(self).graph().live(c)]
                                #![trigger final(self).graph().data_of(c)]
                                #![trigger final(self).graph().edges_of(c)]
                                (final(self).graph().live(c) == old(self).graph().live(c)) && (c
                                    != a.addr && c != b.addr && old(self).graph().live(c)
                                    ==> final(self).graph().data_of(c) == old(self).graph().data_of(c) && final(self).graph().edges_of(c) == old(self).graph().edges_of(c))
                        },
                    }
                },
                Err(e) => {
                    &&& *final(self) == *old(self)
                    &&& (old(self).ptr_err(a) is Some || old(self).ptr_err(b) is Some)
                    &&& Some(e) == (if old(self).ptr_err(a) is Some {
                        old(self).ptr_err(a)
                    } else {
                        old(self).ptr_err(b)
                    })
                },
            },
    {
        let x = match self.locate(a) {
            Ok(x) => x,
            Err(e) => {
                return Err(e);
            },
        };
        let y = match self.locate(b) {
            Ok(y) => y,
            Err(e) => {
                return Err(e);
            },
        };
        if x == y {
            return Ok(None);
        }
        let pair = self.parent.internal.bridge(x, y);
        Ok(Some(pair))
    }

    /// Runs the precise reachability sweep now. Pointers to surviving nodes
    /// stay valid; pointers to reclaimed nodes become stale.
    pub fn cleanup_precise(&mut self)
        requires
            old(self).wf(),
        ensures
            final(self).wf(),
            final(self).session() == old(self).session(),
            final(self).strategy() == old(self).strategy(),
            final(self).graph().sessions() == old(self).graph().sessions(),
            final(self).graph().roots() == old(self).graph().roots(),
            final(self).graph().bound() == old(self).graph().bound(),
            final(self).graph().count() <= old(self).graph().count(),
            forall|a: usize|
                #[trigger] final(self).graph().live(a) <==> old(self).graph().reachable(a),
            forall|a: usize|
                #![trigger final(self).graph().data_of(a)]
                #![trigger final(self).graph().edges_of(a)]
                final(self).graph().live(a) ==> final(self).graph().data_of(a) == old(self).graph().data_of(a) && final(self).graph().edges_of(a) == old(self).graph().edges_of(a),
    {
        self.parent.cleanup_precise();
    }
}

impl<N, C: NodeCollection> AnchorMut<N, C, RootVec> {
    /// How many entries the root collection holds.
    pub fn root_len(&self) -> (n: usize)
        ensures
            n == self.graph().roots().len(),
    {
        self.parent.root.len()
    }

    /// The pointer stored at position `i` of the root collection, if any.
    pub fn root_at(&self, i: usize) -> (r: Option<GraphPtr>)
        ensures
            r is Some <==> i < self.graph().roots().len(),
            r matches Some(p) ==> p == (GraphPtr {
                addr: self.graph().roots()[i as int],
                session: self.session(),
            }),
    {
        if i < self.parent.root.len() {
            Some(GraphPtr { addr: self.parent.root.root_at(i), session: self.session })
        } else {
            None
        }
    }

    /// Appends the node `p` points at to the root collection, making it (and
    /// everything it reaches) safe from the sweep.
    pub fn attach(&mut self, p: GraphPtr) -> (r: Result<(), GraphError>)
        requires
            old(self).wf(),
        ensures
            match r {
                Ok(u) => {
                    &&& old(self).ptr_err(p) is None
                    &&& final(self).wf()
                    &&& final(self).graph().roots() == old(self).graph().roots().push(p.addr)
                    &&& final(self).session() == old(self).session()
                    &&& final(self).strategy() == old(self).strategy()
                    &&& final(self).graph().sessions() == old(self).graph().sessions()
                    &&& final(self).graph().bound() == old(self).graph().bound()
                    &&& final(self).graph().count() == old(self).graph().count()
                    &&& forall|b: usize|
                        #![trigger final(self).graph().live(b)]
                        #![trigger final(self).graph().data_of(b)]
                        #![trigger final(self).graph().edges_of(b)]
                        (final(self).graph().live(b) == old(self).graph().live(b)) && (old(self).graph().live(b) ==> final(self).graph().data_of(b) == old(self).graph().data_of(b) && final(self).graph().edges_of(b) == old(self).graph().edges_of(b))
                },
                Err(e) => Some(e) == old(self).ptr_err(p) && *final(self) == *old(self),
            },
    {
        let a = match self.locate(p) {
            Ok(a) => a,
            Err(e) => {
                return Err(e);
            },
        };
        self.parent.root.push(a);
        proof {
            assert forall|k: int|
                0 <= k < self.parent.roots().len() implies self.parent.internal.live(
                #[trigger] self.parent.roots()[k],
            ) by {
                let r0 = old(self).parent.roots();
                if k < r0.len() {
                    assert(self.parent.roots()[k] == r0[k]);
                    assert(old(self).parent.internal.live(r0[k]));
                } else {
                    assert(self.parent.roots()[k] == a);
                }
            }
        }
        Ok(())
    }

    /// Removes the root entry at position `i`, keeping the order of the rest,
    /// and reports the pointer it held. The node itself stays stored until the
    /// next sweep decides its fate.
    pub fn detach(&mut self, i: usize) -> (r: Option<GraphPtr>)
        requires
            old(self).wf(),
        ensures
            final(self).wf(),
            r is Some <==> i < old(self).graph().roots().len(),
            r is None ==> *final(self) == *old(self),
            r matches Some(p) ==> {
                &&& p == (GraphPtr {
                    addr: old(self).graph().roots()[i as int],
                    session: old(self).session(),
                })
                &&& final(self).graph().roots() == old(self).graph().roots().remove(i as int)
                &&& final(self).session() == old(self).session()
                &&& final(self).strategy() == old(self).strategy()
                &&& final(self).graph().sessions() == old(self).graph().sessions()
                &&& final(self).graph().bound() == old(self).graph().bound()
                &&& final(self).graph().count() == old(self).graph().count()
                &&& forall|b: usize|
                    #![trigger final(self).graph().live(b)]
                    #![trigger final(self).graph().data_of(b)]
                    #![trigger final(self).graph().edges_of(b)]
                    (final(self).graph().live(b) == old(self).graph().live(b)) && (old(self).graph().live(b) ==> final(self).graph().data_of(b) == old(self).graph().data_of(b) && final(self).graph().edges_of(b) == old(self).graph().edges_of(b))
            },
    {
        if i < self.parent.root.len() {
            let a = self.parent.root.remove_at(i);
            proof {
                assert forall|k: int|
                    0 <= k < self.parent.roots().len() implies self.parent.internal.live(
                    #[trigger] self.parent.roots()[k],
                ) by {
                    let r0 = old(self).parent.roots();
                    if k < i {
                        assert(self.parent.roots()[k] == r0[k]);
                    } else {
                        assert(self.parent.roots()[k] == r0[k + 1]);
                    }
                }
            }
            Some(GraphPtr { addr: a, session: self.session })
        } else {
            None
        }
    }

    /// Spawns a node holding `data` and attaches it to the root collection in
    /// one step.
    pub fn add(&mut self, data: N) -> (p: GraphPtr)
        requires
            old(self).wf(),
        ensures
            final(self).wf(),
            p.session == old(self).session(),
            p.addr == old(self).graph().bound(),
            final(self).graph().live(p.addr),
            final(self).graph().data_of(p.addr) == data,
            final(self).graph().edges_of(p.addr) == Seq::<(usize, C::Edge)>::empty(),
            final(self).graph().roots() == old(self).graph().roots().push(p.addr),
            final(self).graph().bound() == old(self).graph().bound() + 1,
            final(self).graph().count() == old(self).graph().count() + 1,
            final(self).session() == old(self).session(),
            final(self).strategy() == old(self).strategy(),
            final(self).graph().sessions() == old(self).graph().sessions(),
            forall|b: usize|
                b != p.addr ==> (#[trigger] final(self).graph().live(b)) == old(self).graph().live(b),
            forall|b: usize|
                #![trigger final(self).graph().data_of(b)]
                #![trigger final(self).graph().edges_of(b)]
                b != p.addr && old(self).graph().live(b) ==> final(self).graph().data_of(b)
                    == old(self).graph().data_of(b) && final(self).graph().edges_of(b) == old(self).graph().edges_of(b),
    {
        let p = self.spawn(data);
        let res = self.attach(p);
        p
    }
}

impl<N, E, R: RootCollection> AnchorMut<N, NodeNamedMap<E>, R> {
    /// Inserts (or overwrites) the edge from `src` to `dst`, carrying `e`, and
    /// reports the value the edge carried before.
    #[verifier::rlimit(100)]
    #[verifier::spinoff_prover]
    pub fn connect(&mut self, src: GraphPtr, dst: GraphPtr, e: E) -> (r: Result<
        Option<E>,
        GraphError,
    >)
        requires
            old(self).wf(),
        ensures
            match r {
                Ok(prev) => {
                    &&& old(self).ptr_err(src) is None
                    &&& old(self).ptr_err(dst) is None
                    &&& final(self).wf()
                    &&& final(self).graph().has_edge(src.addr, dst.addr)
                    &&& final(self).graph().edge_val(src.addr, dst.addr) == e
                    &&& forall|u: usize|
                        (#[trigger] final(self).graph().has_edge(src.addr, u)) <==> (u
                            == dst.addr || old(self).graph().has_edge(src.addr, u))
                    &&& forall|u: usize|
                        u != dst.addr && old(self).graph().has_edge(src.addr, u) ==> (
                        #[trigger] final(self).graph().edge_val(src.addr, u)) == old(self).graph().edge_val(src.addr, u)
                    &&& final(self).graph().data_of(src.addr) == old(self).graph().data_of(
                        src.addr,
                    )
                    &&& final(self).session() == old(self).session()
                    &&& final(self).strategy() == old(self).strategy()
                    &&& final(self).graph().sessions() == old(self).graph().sessions()
                    &&& final(self).graph().roots() == old(self).graph().roots()
                    &&& final(self).graph().bound() == old(self).graph().bound()
                    &&& final(self).graph().count() == old(self).graph().count()
                    &&& forall|b: usize|
                        #![trigger final(self).graph().live(b)]
                        #![trigger final(self).graph().data_of(b)]
                        #![trigger final(self).graph().edges_of(b)]
                        (final(self).graph().live(b) == old(self).graph().live(b)) && (b
                            != src.addr && old(self).graph().live(b) ==> final(self).graph().data_of(b) == old(self).graph().data_of(b) && final(self).graph().edges_of(b) == old(self).graph().edges_of(b))
                    &&& match prev {
                        Some(v) => old(self).graph().has_edge(src.addr, dst.addr) && v == old(self).graph().edge_val(src.addr, dst.addr),
                        None => !old(self).graph().has_edge(src.addr, dst.addr),
                    }
                },
                Err(e2) => {
                    &&& *final(self) == *old(self)
                    &&& (old(self).ptr_err(src) is Some || old(self).ptr_err(dst) is Some)
                    &&& Some(e2) == (if old(self).ptr_err(src) is Some {
                        old(self).ptr_err(src)
                    } else {
                        old(self).ptr_err(dst)
                    })
                },
            },
    {
        let a = match self.locate(src) {
            Ok(a) => a,
            Err(e2) => {
                return Err(e2);
            },
        };
        let b = match self.locate(dst) {
            Ok(b) => b,
            Err(e2) => {
                return Err(e2);
            },
        };
        let prev = self.parent.internal.connect(a, b, e);
        proof {
            let gi0 = old(self).parent.internal;
            let gi1 = self.parent.internal;
            assert(self.parent.edges_of(a) == gi1.edges_of(a));
            assert(old(self).parent.edges_of(a) == gi0.edges_of(a));
            assert forall|u: usize|
                (#[trigger] self.parent.has_edge(a, u)) <==> (u == b || old(self).parent.has_edge(a, u)) by {
                assert(gi1.has_edge(a, u) <==> (u == b || gi0.has_edge(a, u)));
            }
            assert forall|u: usize|
                u != b && old(self).parent.has_edge(a, u) implies (
            #[trigger] self.parent.edge_val(a, u)) == old(self).parent.edge_val(a, u) by {
                assert(gi0.has_edge(a, u));
                assert(gi1.edge_val(a, u) == gi0.edge_val(a, u));
            }
            assert(old(self).parent.has_edge(a, b) <==> gi0.has_edge(a, b));
            assert(self.parent.has_edge(a, b) <==> gi1.has_edge(a, b));
            assert(gi0.has_edge(a, b) ==> old(self).parent.edge_val(a, b) == gi0.edge_val(
                a,
                b,
            ));
            assert(gi1.has_edge(a, b) ==> self.parent.edge_val(a, b) == gi1.edge_val(a, b));
            assert forall|k: int|
                0 <= k < self.parent.roots().len() implies self.parent.internal.live(
                #[trigger] self.parent.roots()[k],
            ) by {
                let r0 = old(self).parent.roots();
                assert(self.parent.roots()[k] == r0[k]);
                assert(old(self).parent.internal.live(r0[k]));
                assert(self.parent.internal.live(r0[k]) == old(self).parent.internal.live(
                    r0[k],
                ));
            }
        }
        Ok(prev)
    }

    /// Removes the edge from `src` to `dst`, if one is present, and reports
    /// the value it carried.
    #[verifier::rlimit(100)]
    #[verifier::spinoff_prover]
    pub fn disconnect(&mut self, src: GraphPtr, dst: GraphPtr) -> (r: Result<
        Option<E>,
        GraphError,
    >)
        requires
            old(self).wf(),
        ensures
            match r {
                Ok(prev) => {
                    &&& old(self).ptr_err(src) is None
                    &&& old(self).ptr_err(dst) is None
                    &&& final(self).wf()
                    &&& !final(self).graph().has_edge(src.addr, dst.addr)
                    &&& forall|u: usize|
                        (#[trigger] final(self).graph().has_edge(src.addr, u)) <==> (u
                            != dst.addr && old(self).graph().has_edge(src.addr, u))
                    &&& forall|u: usize|
                        u != dst.addr && old(self).graph().has_edge(src.addr, u) ==> (
                        #[trigger] final(self).graph().edge_val(src.addr, u)) == old(self).graph().edge_val(src.addr, u)
                    &&& final(self).graph().data_of(src.addr) == old(self).graph().data_of(
                        src.addr,
                    )
                    &&& final(self).session() == old(self).session()
                    &&& final(self).strategy() == old(self).strategy()
                    &&& final(self).graph().sessions() == old(self).graph().sessions()
                    &&& final(self).graph().roots() == old(self).graph().roots()
                    &&& final(self).graph().bound() == old(self).graph().bound()
                    &&& final(self).graph().count() == old(self).graph().count()
                    &&& forall|b: usize|
                        #![trigger final(self).graph().live(b)]
                        #![trigger final(self).graph().data_of(b)]
                        #![trigger final(self).graph().edges_of(b)]
                        (final(self).graph().live(b) == old(self).graph().live(b)) && (b
                            != src.addr && old(self).graph().live(b) ==> final(self).graph().data_of(b) == old(self).graph().data_of(b) && final(self).graph().edges_of(b) == old(self).graph().edges_of(b))
                    &&& match prev {
                        Some(v) => old(self).graph().has_edge(src.addr, dst.addr) && v == old(self).graph().edge_val(src.addr, dst.addr),
                        None => !old(self).graph().has_edge(src.addr, dst.addr),
                    }
                },
                Err(e2) => {
                    &&& *final(self) == *old(self)
                    &&& (old(self).ptr_err(src) is Some || old(self).ptr_err(dst) is Some)
                    &&& Some(e2) == (if old(self).ptr_err(src) is Some {
                        old(self).ptr_err(src)
                    } else {
                        old(self).ptr_err(dst)
                    })
                },
            },
    {
        let a = match self.locate(src) {
            Ok(a) => a,
            Err(e2) => {
                return Err(e2);
            },
        };
        let b = match self.locate(dst) {
            Ok(b) => b,
            Err(e2) => {
                return Err(e2);
            },
        };
        let prev = self.parent.internal.disconnect(a, b);
        proof {
            let gi0 = old(self).parent.internal;
            let gi1 = self.parent.internal;
            assert(self.parent.edges_of(a) == gi1.edges_of(a));
            assert(old(self).parent.edges_of(a) == gi0.edges_of(a));
            assert forall|u: usize|
                (#[trigger] self.parent.has_edge(a, u)) <==> (u != b && old(self).parent.has_edge(a, u)) by {
                assert(gi1.has_edge(a, u) <==> (u != b && gi0.has_edge(a, u)));
            }
            assert forall|u: usize|
                u != b && old(self).parent.has_edge(a, u) implies (
            #[trigger] self.parent.edge_val(a, u)) == old(self).parent.edge_val(a, u) by {
                assert(gi0.has_edge(a, u));
                assert(gi1.edge_val(a, u) == gi0.edge_val(a, u));
            }
            assert(old(self).parent.has_edge(a, b) <==> gi0.has_edge(a, b));
            assert(self.parent.has_edge(a, b) <==> gi1.has_edge(a, b));
            assert(gi0.has_edge(a, b) ==> old(self).parent.edge_val(a, b) == gi0.edge_val(
                a,
                b,
            ));
            assert(gi1.has_edge(a, b) ==> self.parent.edge_val(a, b) == gi1.edge_val(a, b));
            assert forall|k: int|
                0 <= k < self.parent.roots().len() implies self.parent.internal.live(
                #[trigger] self.parent.roots()[k],
            ) by {
                let r0 = old(self).parent.roots();
                assert(self.parent.roots()[k] == r0[k]);
                assert(old(self).parent.internal.live(r0[k]));
                assert(self.parent.internal.live(r0[k]) == old(self).parent.internal.live(
                    r0[k],
                ));
            }
        }
        Ok(prev)
    }

    /// An exclusive reference to the value on the edge from `src` to `dst`,
    /// if present. Only that value can change through it: the edge targets,
    /// their order and everything else in the graph stay as they were.
    #[verifier::rlimit(100)]
    #[verifier::spinoff_prover]
    pub fn get_edge_val_mut(&mut self, src: GraphPtr, dst: GraphPtr) -> (r: Result<
        Option<&mut E>,
        GraphError,
    >)
        requires
            old(self).wf(),
        ensures
            match r {
                Ok(opt) => {
                    &&& old(self).ptr_err(src) is None
                    &&& old(self).ptr_err(dst) is None
                    &&& (opt is Some <==> old(self).graph().has_edge(src.addr, dst.addr))
                    &&& final(self).wf()
                    &&& final(self).session() == old(self).session()
                    &&& final(self).strategy() == old(self).strategy()
                    &&& final(self).graph().sessions() == old(self).graph().sessions()
                    &&& final(self).graph().roots() == old(self).graph().roots()
                    &&& final(self).graph().bound() == old(self).graph().bound()
                    &&& final(self).graph().count() == old(self).graph().count()
                    &&& final(self).graph().data_of(src.addr) == old(self).graph().data_of(
                        src.addr,
                    )
                    &&& final(self).graph().edges_of(src.addr).len() == old(self).graph().edges_of(src.addr).len()
                    &&& forall|i: int|
                        0 <= i < final(self).graph().edges_of(src.addr).len() ==> (
                        #[trigger] final(self).graph().edges_of(src.addr)[i]).0 == old(self).graph().edges_of(src.addr)[i].0
                    &&& forall|u: usize|
                        (#[trigger] final(self).graph().has_edge(src.addr, u)) <==> old(self).graph().has_edge(src.addr, u)
                    &&& forall|u: usize|
                        u != dst.addr && old(self).graph().has_edge(src.addr, u) ==> (
                        #[trigger] final(self).graph().edge_val(src.addr, u)) == old(self).graph().edge_val(src.addr, u)
                    &&& forall|b: usize|
                        #![trigger final(self).graph().live(b)]
                        #![trigger final(self).graph().data_of(b)]
                        #![trigger final(self).graph().edges_of(b)]
                        (final(self).graph().live(b) == old(self).graph().live(b)) && (b
                            != src.addr && old(self).graph().live(b)
                            ==> final(self).graph().data_of(b) == old(self).graph().data_of(b)
                            && final(self).graph().edges_of(b) == old(self).graph().edges_of(b))
                    &&& (opt matches Some(v) ==> *v == old(self).graph().edge_val(
                        src.addr,
                        dst.addr,
                    ) && final(self).graph().edge_val(src.addr, dst.addr) == *final(v))
                },
                Err(e2) => {
                    &&& *final(self) == *old(self)
                    &&& (old(self).ptr_err(src) is Some || old(self).ptr_err(dst) is Some)
                    &&& Some(e2) == (if old(self).ptr_err(src) is Some {
                        old(self).ptr_err(src)
                    } else {
                        old(self).ptr_err(dst)
                    })
                },
            },
    {
        let a = match self.locate(src) {
            Ok(a) => a,
            Err(e2) => {
                return Err(e2);
            },
        };
        let b = match self.locate(dst) {
            Ok(b) => b,
            Err(e2) => {
                return Err(e2);
            },
        };
        let r = self.parent.internal.edge_val_mut(a, b);
        Ok(r)
    }

    /// The edge from `src` to `dst`, as a view of the connected node data:
    /// `Loop` when `src` and `dst` are the same node, `Both` otherwise; or
    /// `None` when no such edge is present.
    pub fn get_edge(&self, src: GraphPtr, dst: GraphPtr) -> (r: Result<
        Option<Edge<&N, &E>>,
        GraphError,
    >)
        requires
            self.wf(),
        ensures
            match r {
                Ok(opt) => {
                    &&& self.ptr_err(src) is None
                    &&& self.ptr_err(dst) is None
                    &&& (opt is Some <==> self.graph().has_edge(src.addr, dst.addr))
                    &&& match opt {
                        Some(ed) => match ed {
                            Edge::Loop(l) => src.same_node(dst) && *l.this
                                == self.graph().data_of(src.addr) && *l.edge
                                == self.graph().edge_val(src.addr, dst.addr),
                            Edge::Both(bo) => !src.same_node(dst) && *bo.this
                                == self.graph().data_of(src.addr) && *bo.that
                                == self.graph().data_of(dst.addr) && *bo.edge
                                == self.graph().edge_val(src.addr, dst.addr),
                        },
                        None => true,
                    }
                },
                Err(e2) => {
                    &&& (self.ptr_err(src) is Some || self.ptr_err(dst) is Some)
                    &&& Some(e2) == (if self.ptr_err(src) is Some {
                        self.ptr_err(src)
                    } else {
                        self.ptr_err(dst)
                    })
                },
            },
    {
        let a = match self.locate(src) {
            Ok(a) => a,
            Err(e2) => {
                return Err(e2);
            },
        };
        let b = match self.locate(dst) {
            Ok(b) => b,
            Err(e2) => {
                return Err(e2);
            },
        };
        match self.parent.internal.get_edge_val(a, b) {
            None => Ok(None),
            Some(ev) => {
                if a == b {
                    Ok(
                        Some(
                            Edge::Loop(EdgeLoop { this: self.parent.internal.get(a), edge: ev }),
                        ),
                    )
                } else {
                    Ok(
                        Some(
                            Edge::Both(
                                EdgeBoth {
                                    this: self.parent.internal.get(a),
                                    that: self.parent.internal.get(b),
                                    edge: ev,
                                },
                            ),
                        ),
                    )
                }
            },
        }
    }
}

impl<N, C: NodeCollection> AnchorMut<N, C, RootNamedSet> {
    /// Names the node `p` points at as an entry point, unless it already is
    /// one: the root collection holds each node at most once.
    pub fn attach(&mut self, p: GraphPtr) -> (r: Result<(), GraphError>)
        requires
            old(self).wf(),
        ensures
            match r {
                Ok(u) => {
                    &&& old(self).ptr_err(p) is None
                    &&& final(self).wf()
                    &&& final(self).graph().roots().contains(p.addr)
                    &&& forall|k: int|
                        0 <= k < final(self).graph().roots().len() ==> (#[trigger] final(self).graph().roots()[k]) == p.addr || old(self).graph().roots().contains(
                            final(self).graph().roots()[k],
                        )
                    &&& final(self).session() == old(self).session()
                    &&& final(self).strategy() == old(self).strategy()
                    &&& final(self).graph().sessions() == old(self).graph().sessions()
                    &&& final(self).graph().bound() == old(self).graph().bound()
                    &&& final(self).graph().count() == old(self).graph().count()
                    &&& forall|b: usize|
                        #![trigger final(self).graph().live(b)]
                        #![trigger final(self).graph().data_of(b)]
                        #![trigger final(self).graph().edges_of(b)]
                        (final(self).graph().live(b) == old(self).graph().live(b)) && (old(self).graph().live(b) ==> final(self).graph().data_of(b) == old(self).graph().data_of(b) && final(self).graph().edges_of(b) == old(self).graph().edges_of(b))
                },
                Err(e) => Some(e) == old(self).ptr_err(p) && *final(self) == *old(self),
            },
    {
        let a = match self.locate(p) {
            Ok(a) => a,
            Err(e) => {
                return Err(e);
            },
        };
        self.parent.root.insert_root(a);
        proof {
            assert forall|k: int|
                0 <= k < self.parent.roots().len() implies self.parent.internal.live(
                #[trigger] self.parent.roots()[k],
            ) by {
                let rt = self.parent.roots()[k];
                if rt != a {
                    assert(old(self).parent.roots().contains(rt));
                    let j = choose|j: int|
                        0 <= j < old(self).parent.roots().len() && old(self).parent.roots()[j]
                            == rt;
                    assert(old(self).parent.internal.live(old(self).parent.roots()[j]));
                }
            }
        }
        Ok(())
    }
}

impl<N, C: NodeCollection> AnchorMut<N, C, RootHashMap> {
    /// Names the node `p` points at as the entry point under key `key`,
    /// replacing whatever entry point the key held before.
    pub fn attach_keyed(&mut self, key: u64, p: GraphPtr) -> (r: Result<(), GraphError>)
        requires
            old(self).wf(),
        ensures
            match r {
                Ok(u) => {
                    &&& old(self).ptr_err(p) is None
                    &&& final(self).wf()
                    &&& final(self).graph().roots().contains(p.addr)
                    &&& forall|k: int|
                        0 <= k < final(self).graph().roots().len() ==> (#[trigger] final(self).graph().roots()[k]) == p.addr || old(self).graph().roots().contains(
                            final(self).graph().roots()[k],
                        )
                    &&& final(self).session() == old(self).session()
                    &&& final(self).strategy() == old(self).strategy()
                    &&& final(self).graph().sessions() == old(self).graph().sessions()
                    &&& final(self).graph().bound() == old(self).graph().bound()
                    &&& final(self).graph().count() == old(self).graph().count()
                    &&& forall|b: usize|
                        #![trigger final(self).graph().live(b)]
                        #![trigger final(self).graph().data_of(b)]
                        #![trigger final(self).graph().edges_of(b)]
                        (final(self).graph().live(b) == old(self).graph().live(b)) && (old(self).graph().live(b) ==> final(self).graph().data_of(b) == old(self).graph().data_of(b) && final(self).graph().edges_of(b) == old(self).graph().edges_of(b))
                },
                Err(e) => Some(e) == old(self).ptr_err(p) && *final(self) == *old(self),
            },
    {
        let a = match self.locate(p) {
            Ok(a) => a,
            Err(e) => {
                return Err(e);
            },
        };
        let prev = self.parent.root.insert_root_keyed(key, a);
        proof {
            assert forall|k: int|
                0 <= k < self.parent.roots().len() implies self.parent.internal.live(
                #[trigger] self.parent.roots()[k],
            ) by {
                let rt = self.parent.roots()[k];
                if rt != a {
                    assert(old(self).parent.roots().contains(rt));
                    let j = choose|j: int|
                        0 <= j < old(self).parent.roots().len() && old(self).parent.roots()[j]
                            == rt;
                    assert(old(self).parent.internal.live(old(self).parent.roots()[j]));
                }
            }
        }
        Ok(())
    }
}

impl<N, C: NodeCollection> AnchorMut<N, C, RootOption> {
    /// Makes the node `p` points at the single entry point, reporting the
    /// pointer it replaces.
    pub fn attach(&mut self, p: GraphPtr) -> (r: Result<Option<GraphPtr>, GraphError>)
        requires
            old(self).wf(),
        ensures
            match r {
                Ok(prev) => {
                    &&& old(self).ptr_err(p) is None
                    &&& final(self).wf()
                    &&& final(self).graph().roots() == seq![p.addr]
                    &&& (old(self).graph().roots().len() == 0 ==> prev is None)
                    &&& (old(self).graph().roots().len() == 1 ==> prev == Some(
                        (GraphPtr {
                            addr: old(self).graph().roots()[0],
                            session: old(self).session(),
                        }),
                    ))
                    &&& final(self).session() == old(self).session()
                    &&& final(self).strategy() == old(self).strategy()
                    &&& final(self).graph().sessions() == old(self).graph().sessions()
                    &&& final(self).graph().bound() == old(self).graph().bound()
                    &&& final(self).graph().count() == old(self).graph().count()
                    &&& forall|b: usize|
                        #![trigger final(self).graph().live(b)]
                        #![trigger final(self).graph().data_of(b)]
                        #![trigger final(self).graph().edges_of(b)]
                        (final(self).graph().live(b) == old(self).graph().live(b)) && (old(self).graph().live(b) ==> final(self).graph().data_of(b) == old(self).graph().data_of(b) && final(self).graph().edges_of(b) == old(self).graph().edges_of(b))
                },
                Err(e) => Some(e) == old(self).ptr_err(p) && *final(self) == *old(self),
            },
    {
        let a = match self.locate(p) {
            Ok(a) => a,
            Err(e) => {
                return Err(e);
            },
        };
        let prev = self.parent.root.set_root(a);
        match prev {
            Some(b) => Ok(Some(GraphPtr { addr: b, session: self.session })),
            None => Ok(None),
        }
    }

    /// Clears the single entry point, reporting the pointer it was.
    pub fn detach(&mut self) -> (r: Option<GraphPtr>)
        requires
            old(self).wf(),
        ensures
            final(self).wf(),
            final(self).graph().roots() == Seq::<usize>::empty(),
            old(self).graph().roots().len() == 0 ==> r is None && *final(self) == *old(self),
            old(self).graph().roots().len() == 1 ==> r == Some(
                (GraphPtr {
                    addr: old(self).graph().roots()[0],
                    session: old(self).session(),
                }),
            ),
            final(self).session() == old(self).session(),
            final(self).strategy() == old(self).strategy(),
            final(self).graph().sessions() == old(self).graph().sessions(),
            final(self).graph().bound() == old(self).graph().bound(),
            final(self).graph().count() == old(self).graph().count(),
            forall|b: usize|
                #![trigger final(self).graph().live(b)]
                #![trigger final(self).graph().data_of(b)]
                #![trigger final(self).graph().edges_of(b)]
                (final(self).graph().live(b) == old(self).graph().live(b)) && (old(self).graph().live(b) ==> final(self).graph().data_of(b) == old(self).graph().data_of(b) && final(self).graph().edges_of(b) == old(self).graph().edges_of(b)),
    {
        let prev = self.parent.root.clear_root();
        match prev {
            Some(b) => Some(GraphPtr { addr: b, session: self.session }),
            None => None,
        }
    }
}

impl<N, E, R: RootCollection> AnchorMut<N, NodeVec<E>, R> {
    /// Appends an edge from `src` to `dst`, carrying `e`, to `src`'s ordered
    /// edge list.
    #[verifier::rlimit(100)]
    #[verifier::spinoff_prover]
    pub fn attach_edge(&mut self, src: GraphPtr, dst: GraphPtr, e: E) -> (r: Result<
        (),
        GraphError,
    >)
        requires
            old(self).wf(),
        ensures
            match r {
                Ok(u) => {
                    &&& old(self).ptr_err(src) is None
                    &&& old(self).ptr_err(dst) is None
                    &&& final(self).wf()
                    &&& final(self).graph().edges_of(src.addr) == old(self).graph().edges_of(
                        src.addr,
                    ).push((dst.addr, e))
                    &&& final(self).session() == old(self).session()
                    &&& final(self).strategy() == old(self).strategy()
                    &&& final(self).graph().sessions() == old(self).graph().sessions()
                    &&& final(self).graph().roots() == old(self).graph().roots()
                    &&& final(self).graph().bound() == old(self).graph().bound()
                    &&& final(self).graph().count() == old(self).graph().count()
                    &&& final(self).graph().data_of(src.addr) == old(self).graph().data_of(
                        src.addr,
                    )
                    &&& forall|b: usize|
                        #![trigger final(self).graph().live(b)]
                        #![trigger final(self).graph().data_of(b)]
                        #![trigger final(self).graph().edges_of(b)]
                        (final(self).graph().live(b) == old(self).graph().live(b)) && (b
                            != src.addr && old(self).graph().live(b)
                            ==> final(self).graph().data_of(b) == old(self).graph().data_of(b)
                            && final(self).graph().edges_of(b) == old(self).graph().edges_of(b))
                },
                Err(e2) => {
                    &&& *final(self) == *old(self)
                    &&& (old(self).ptr_err(src) is Some || old(self).ptr_err(dst) is Some)
                    &&& Some(e2) == (if old(self).ptr_err(src) is Some {
                        old(self).ptr_err(src)
                    } else {
                        old(self).ptr_err(dst)
                    })
                },
            },
    {
        let a = match self.locate(src) {
            Ok(a) => a,
            Err(e2) => {
                return Err(e2);
            },
        };
        let b = match self.locate(dst) {
            Ok(b) => b,
            Err(e2) => {
                return Err(e2);
            },
        };
        self.parent.internal.connect_push(a, b, e);
        Ok(())
    }

    /// An exclusive reference to the value of edge `i` of the ordered edge
    /// list of the node `src` points at, or `None` when `src` has fewer than
    /// `i + 1` edges. Only that value can change through it.
    #[verifier::rlimit(100)]
    #[verifier::spinoff_prover]
    pub fn get_edge_val_mut_at(&mut self, src: GraphPtr, i: usize) -> (r: Result<
        Option<&mut E>,
        GraphError,
    >)
        requires
            old(self).wf(),
        ensures
            r is Ok ==> old(self).ptr_err(src) is None,
            r is Ok ==> (r->Ok_0 is Some <==> (i as int) < old(self).graph().edges_of(
                src.addr,
            ).len()),
            r matches Ok(None) ==> *final(self) == *old(self),
            r matches Err(e2) ==> Some(e2) == old(self).ptr_err(src) && *final(self) == *old(self),
            r matches Ok(Some(v)) ==> {
                &&& *v == old(self).graph().edges_of(src.addr)[i as int].1
                &&& final(self).wf()
                &&& final(self).session() == old(self).session()
                &&& final(self).strategy() == old(self).strategy()
                &&& final(self).graph().sessions() == old(self).graph().sessions()
                &&& final(self).graph().roots() == old(self).graph().roots()
                &&& final(self).graph().bound() == old(self).graph().bound()
                &&& final(self).graph().count() == old(self).graph().count()
                &&& final(self).graph().data_of(src.addr) == old(self).graph().data_of(
                    src.addr,
                )
                &&& final(self).graph().edges_of(src.addr) == old(self).graph().edges_of(
                    src.addr,
                ).update(i as int, (old(self).graph().edges_of(src.addr)[i as int].0, *final(v)))
            },
            r is Ok ==> forall|b: usize|
                #![trigger final(self).graph().live(b)]
                #![trigger final(self).graph().data_of(b)]
                #![trigger final(self).graph().edges_of(b)]
                (final(self).graph().live(b) == old(self).graph().live(b)) && (b != src.addr
                    && old(self).graph().live(b) ==> final(self).graph().data_of(b) == old(self).graph().data_of(b) && final(self).graph().edges_of(b) == old(self).graph().edges_of(b)),
    {
        let a = match self.locate(src) {
            Ok(a) => a,
            Err(e2) => {
                return Err(e2);
            },
        };
        let n = self.parent.internal.edge_count(a);
        if i >= n {
            return Ok(None);
        }
        let v = self.parent.internal.edge_val_mut_at(a, i);
        Ok(Some(v))
    }

    /// Removes edge `i` of the ordered edge list of the node `src` points at,
    /// keeping the order of the rest, and reports the removed target pointer
    /// and edge value; `None` when `src` has fewer than `i + 1` edges.
    #[verifier::rlimit(100)]
    #[verifier::spinoff_prover]
    pub fn detach_edge_at(&mut self, src: GraphPtr, i: usize) -> (r: Result<
        Option<(GraphPtr, E)>,
        GraphError,
    >)
        requires
            old(self).wf(),
        ensures
            r is Ok ==> old(self).ptr_err(src) is None,
            r is Ok ==> (r->Ok_0 is Some <==> (i as int) < old(self).graph().edges_of(
                src.addr,
            ).len()),
            r matches Ok(None) ==> *final(self) == *old(self),
            r matches Err(e2) ==> Some(e2) == old(self).ptr_err(src) && *final(self) == *old(self),
            r matches Ok(Some(en)) ==> en.0 == (GraphPtr {
                addr: old(self).graph().edges_of(src.addr)[i as int].0,
                session: old(self).session(),
            }) && en.1 == old(self).graph().edges_of(src.addr)[i as int].1,
            r matches Ok(Some(en)) ==> {
                &&& final(self).wf()
                &&& final(self).graph().edges_of(src.addr) == old(self).graph().edges_of(
                    src.addr,
                ).remove(i as int)
                &&& final(self).session() == old(self).session()
                &&& final(self).strategy() == old(self).strategy()
                &&& final(self).graph().sessions() == old(self).graph().sessions()
                &&& final(self).graph().roots() == old(self).graph().roots()
                &&& final(self).graph().bound() == old(self).graph().bound()
                &&& final(self).graph().count() == old(self).graph().count()
                &&& final(self).graph().data_of(src.addr) == old(self).graph().data_of(
                    src.addr,
                )
            },
            r is Ok ==> forall|b: usize|
                #![trigger final(self).graph().live(b)]
                #![trigger final(self).graph().data_of(b)]
                #![trigger final(self).graph().edges_of(b)]
                (final(self).graph().live(b) == old(self).graph().live(b)) && (b != src.addr
                    && old(self).graph().live(b) ==> final(self).graph().data_of(b) == old(self).graph().data_of(b) && final(self).graph().edges_of(b) == old(self).graph().edges_of(b)),
    {
        let a = match self.locate(src) {
            Ok(a) => a,
            Err(e2) => {
                return Err(e2);
            },
        };
        let n = self.parent.internal.edge_count(a);
        if i >= n {
            return Ok(None);
        }
        let (t, e) = self.parent.internal.disconnect_at(a, i);
        Ok(Some((GraphPtr { addr: t, session: self.session }, e)))
    }
}

impl<N, E, R: RootCollection> AnchorMut<N, NodeOption<E>, R> {
    /// Sets `src`'s single optional edge to point at `dst`, carrying `e`, and
    /// reports the edge it replaces.
    #[verifier::rlimit(100)]
    #[verifier::spinoff_prover]
    pub fn set_edge(&mut self, src: GraphPtr, dst: GraphPtr, e: E) -> (r: Result<
        Option<(usize, E)>,
        GraphError,
    >)
        requires
            old(self).wf(),
        ensures
            match r {
                Ok(prev) => {
                    &&& old(self).ptr_err(src) is None
                    &&& old(self).ptr_err(dst) is None
                    &&& final(self).wf()
                    &&& final(self).graph().edges_of(src.addr) == seq![(dst.addr, e)]
                    &&& (old(self).graph().edges_of(src.addr).len() == 0 ==> prev is None)
                    &&& (old(self).graph().edges_of(src.addr).len() == 1 ==> prev == Some(
                        old(self).graph().edges_of(src.addr)[0],
                    ))
                    &&& final(self).session() == old(self).session()
                    &&& final(self).strategy() == old(self).strategy()
                    &&& final(self).graph().sessions() == old(self).graph().sessions()
                    &&& final(self).graph().roots() == old(self).graph().roots()
                    &&& final(self).graph().bound() == old(self).graph().bound()
                    &&& final(self).graph().count() == old(self).graph().count()
                    &&& final(self).graph().data_of(src.addr) == old(self).graph().data_of(
                        src.addr,
                    )
                    &&& forall|b: usize|
                        #![trigger final(self).graph().live(b)]
                        #![trigger final(self).graph().data_of(b)]
                        #![trigger final(self).graph().edges_of(b)]
                        (final(self).graph().live(b) == old(self).graph().live(b)) && (b
                            != src.addr && old(self).graph().live(b)
                            ==> final(self).graph().data_of(b) == old(self).graph().data_of(b)
                            && final(self).graph().edges_of(b) == old(self).graph().edges_of(b))
                },
                Err(e2) => {
                    &&& *final(self) == *old(self)
                    &&& (old(self).ptr_err(src) is Some || old(self).ptr_err(dst) is Some)
                    &&& Some(e2) == (if old(self).ptr_err(src) is Some {
                        old(self).ptr_err(src)
                    } else {
                        old(self).ptr_err(dst)
                    })
                },
            },
    {
        let a = match self.locate(src) {
            Ok(a) => a,
            Err(e2) => {
                return Err(e2);
            },
        };
        let b = match self.locate(dst) {
            Ok(b) => b,
            Err(e2) => {
                return Err(e2);
            },
        };
        let prev = self.parent.internal.set_single(a, b, e);
        Ok(prev)
    }

    /// Clears `src`'s single optional edge and reports what it was.
    #[verifier::rlimit(100)]
    #[verifier::spinoff_prover]
    pub fn clear_edge(&mut self, src: GraphPtr) -> (r: Result<Option<(usize, E)>, GraphError>)
        requires
            old(self).wf(),
        ensures
            match r {
                Ok(prev) => {
                    &&& old(self).ptr_err(src) is None
                    &&& final(self).wf()
                    &&& final(self).graph().edges_of(src.addr) == Seq::<(usize, E)>::empty()
                    &&& (old(self).graph().edges_of(src.addr).len() == 0 ==> prev is None)
                    &&& (old(self).graph().edges_of(src.addr).len() == 1 ==> prev == Some(
                        old(self).graph().edges_of(src.addr)[0],
                    ))
                    &&& final(self).session() == old(self).session()
                    &&& final(self).strategy() == old(self).strategy()
                    &&& final(self).graph().sessions() == old(self).graph().sessions()
                    &&& final(self).graph().roots() == old(self).graph().roots()
                    &&& final(self).graph().bound() == old(self).graph().bound()
                    &&& final(self).graph().count() == old(self).graph().count()
                    &&& final(self).graph().data_of(src.addr) == old(self).graph().data_of(
                        src.addr,
                    )
                    &&& forall|b: usize|
                        #![trigger final(self).graph().live(b)]
                        #![trigger final(self).graph().data_of(b)]
                        #![trigger final(self).graph().edges_of(b)]
                        (final(self).graph().live(b) == old(self).graph().live(b)) && (b
                            != src.addr && old(self).graph().live(b)
                            ==> final(self).graph().data_of(b) == old(self).graph().data_of(b)
                            && final(self).graph().edges_of(b) == old(self).graph().edges_of(b))
                },
                Err(e2) => Some(e2) == old(self).ptr_err(src) && *final(self) == *old(self),
            },
    {
        let a = match self.locate(src) {
            Ok(a) => a,
            Err(e2) => {
                return Err(e2);
            },
        };
        let prev = self.parent.internal.clear_single(a);
        Ok(prev)
    }
}

impl<N, E, R: RootCollection> GenericGraph<N, NodeTreeMap<E>, R> {
    /// Whether the live node at `src` stores an edge under the ordered key `key`.
    pub closed spec fn has_keyed_edge(&self, src: usize, key: u64) -> bool {
        self.internal.has_keyed_edge(src, key)
    }

    /// The `(target address, edge value)` pair the live node at `src` stores
    /// under `key` (meaningful when such an edge is present).
    pub closed spec fn keyed_edge(&self, src: usize, key: u64) -> (usize, E) {
        self.internal.keyed_edge(src, key)
    }
}

impl<N, E, R: RootCollection> GenericGraph<N, NodeTreeMap<E>, R> {
    /// A node with no edges stores nothing under any key, so a freshly
    /// spawned node's keyed lookup is empty.
    pub proof fn lemma_empty_has_no_keys(&self, src: usize, key: u64)
        requires
            self.live(src),
            self.edges_of(src).len() == 0,
        ensures
            !self.has_keyed_edge(src, key),
    {
        self.internal.lemma_empty_has_no_keys(src, key);
    }
}

impl<N, E, R: RootCollection> AnchorMut<N, NodeTreeMap<E>, R> {
    /// Inserts an edge from `src` to `dst` carrying `e` under the ordered key
    /// `key`, replacing any edge already stored under that key.
    #[verifier::rlimit(100)]
    #[verifier::spinoff_prover]
    pub fn connect_keyed(&mut self, src: GraphPtr, key: u64, dst: GraphPtr, e: E) -> (r: Result<
        Option<(usize, E)>,
        GraphError,
    >)
        requires
            old(self).wf(),
        ensures
            match r {
                Ok(prev) => {
                    &&& old(self).ptr_err(src) is None
                    &&& old(self).ptr_err(dst) is None
                    &&& final(self).wf()
                    &&& final(self).session() == old(self).session()
                    &&& final(self).strategy() == old(self).strategy()
                    &&& final(self).graph().sessions() == old(self).graph().sessions()
                    &&& final(self).graph().roots() == old(self).graph().roots()
                    &&& final(self).graph().bound() == old(self).graph().bound()
                    &&& final(self).graph().count() == old(self).graph().count()
                    &&& final(self).graph().data_of(src.addr) == old(self).graph().data_of(
                        src.addr,
                    )
                    &&& final(self).graph().has_keyed_edge(src.addr, key)
                    &&& final(self).graph().keyed_edge(src.addr, key) == (dst.addr, e)
                    &&& forall|u: u64|
                        u != key ==> ((#[trigger] final(self).graph().has_keyed_edge(
                            src.addr,
                            u,
                        )) <==> old(self).graph().has_keyed_edge(src.addr, u))
                    &&& forall|u: u64|
                        u != key && old(self).graph().has_keyed_edge(src.addr, u) ==> (
                        #[trigger] final(self).graph().keyed_edge(src.addr, u)) == old(self).graph().keyed_edge(src.addr, u)
                    &&& match prev {
                        Some(v) => old(self).graph().has_keyed_edge(src.addr, key) && v == old(self).graph().keyed_edge(src.addr, key),
                        None => !old(self).graph().has_keyed_edge(src.addr, key),
                    }
                    &&& forall|b: usize|
                        #![trigger final(self).graph().live(b)]
                        #![trigger final(self).graph().data_of(b)]
                        #![trigger final(self).graph().edges_of(b)]
                        (final(self).graph().live(b) == old(self).graph().live(b)) && (b
                            != src.addr && old(self).graph().live(b)
                            ==> final(self).graph().data_of(b) == old(self).graph().data_of(b)
                            && final(self).graph().edges_of(b) == old(self).graph().edges_of(b))
                },
                Err(e2) => {
                    &&& *final(self) == *old(self)
                    &&& (old(self).ptr_err(src) is Some || old(self).ptr_err(dst) is Some)
                    &&& Some(e2) == (if old(self).ptr_err(src) is Some {
                        old(self).ptr_err(src)
                    } else {
                        old(self).ptr_err(dst)
                    })
                },
            },
    {
        let a = match self.locate(src) {
            Ok(a) => a,
            Err(e2) => {
                return Err(e2);
            },
        };
        let b = match self.locate(dst) {
            Ok(b) => b,
            Err(e2) => {
                return Err(e2);
            },
        };
        let prev = self.parent.internal.connect_keyed(a, key, b, e);
        proof {
            let gi0 = old(self).parent.internal;
            let gi1 = self.parent.internal;
            assert(self.parent.has_keyed_edge(a, key) == gi1.has_keyed_edge(a, key));
            assert(self.parent.keyed_edge(a, key) == gi1.keyed_edge(a, key));
            assert forall|u: u64|
                u != key implies ((#[trigger] self.parent.has_keyed_edge(a, u)) <==> old(self).parent.has_keyed_edge(a, u)) by {
                assert(gi1.has_keyed_edge(a, u) <==> gi0.has_keyed_edge(a, u));
            }
            assert forall|u: u64|
                u != key && old(self).parent.has_keyed_edge(a, u) implies (
            #[trigger] self.parent.keyed_edge(a, u)) == old(self).parent.keyed_edge(
                a,
                u,
            ) by {
                assert(gi0.has_keyed_edge(a, u));
                assert(gi1.keyed_edge(a, u) == gi0.keyed_edge(a, u));
            }
        }
        Ok(prev)
    }
}

/// The shared, read-only capability for one graph: it supports lookup, edge
/// iteration and cursors, but no mutation. Any number of them may coexist,
/// all borrowing the one exclusive anchor, which Rust then keeps from
/// mutating for as long as they live.
pub struct Anchor<'this, N, C, R> {
    pub parent: &'this AnchorMut<N, C, R>,
}

impl<N, C: NodeCollection, R: RootCollection> AnchorMut<N, C, R> {
    /// Opens a shared, read-only anchor over this graph. It carries the same
    /// session tag, so the pointers of this session keep working under it.
    pub fn anchor(&self) -> (a: Anchor<'_, N, C, R>)
        ensures
            *a.parent == *self,
    {
        Anchor { parent: self }
    }
}

impl<'this, N, C: NodeCollection, R: RootCollection> Anchor<'this, N, C, R> {
    /// The exclusive anchor this capability reads through.
    pub open spec fn anchor(&self) -> AnchorMut<N, C, R> {
        *self.parent
    }

    /// A shared reference to the payload of the node `p` points at.
    pub fn get(&self, p: GraphPtr) -> (r: Result<&N, GraphError>)
        requires
            self.anchor().wf(),
        ensures
            match r {
                Ok(x) => self.anchor().ptr_err(p) is None && *x
                    == self.anchor().graph().data_of(p.addr),
                Err(e) => Some(e) == self.anchor().ptr_err(p),
            },
    {
        self.parent.get(p)
    }

    /// The pointers to the targets of every edge leaving the node `p` points
    /// at, in the edge collection's storage order.
    pub fn edges(&self, p: GraphPtr) -> (r: Result<Vec<GraphPtr>, GraphError>)
        requires
            self.anchor().wf(),
        ensures
            match r {
                Ok(v) => {
                    &&& self.anchor().ptr_err(p) is None
                    &&& v@.len() == self.anchor().graph().edges_of(p.addr).len()
                    &&& forall|k: int|
                        0 <= k < v@.len() ==> (#[trigger] v@[k]) == (GraphPtr {
                            addr: self.anchor().graph().edges_of(p.addr)[k].0,
                            session: self.anchor().session(),
                        })
                },
                Err(e) => Some(e) == self.anchor().ptr_err(p),
            },
    {
        self.parent.edges(p)
    }

    /// Re-wraps a cached raw node identifier as a checked pointer of this
    /// session, when it still names a stored node.
    pub fn from_raw(&self, raw: usize) -> (r: Result<GraphPtr, GraphError>)
        ensures
            match r {
                Ok(p) => self.anchor().graph().live(raw) && p == (GraphPtr {
                    addr: raw,
                    session: self.anchor().session(),
                }),
                Err(e) => !self.anchor().graph().live(raw) && e == GraphError::StalePointer,
            },
    {
        self.parent.from_raw(raw)
    }

    /// The view of edge `k` of the node `p` points at, or `None` when `p` has
    /// fewer than `k + 1` edges.
    pub fn edge_at(&self, p: GraphPtr, k: usize) -> (r: Result<
        Option<GraphIterRes<Edge<&N, &C::Edge>, GraphPtr>>,
        GraphError,
    >)
        requires
            self.anchor().wf(),
        ensures
            match r {
                Ok(opt) => {
                    &&& self.anchor().ptr_err(p) is None
                    &&& (opt is Some <==> (k as int) < self.anchor().graph().edges_of(
                        p.addr,
                    ).len())
                    &&& match opt {
                        Some(item) => ({
                            let en = self.anchor().graph().edges_of(p.addr)[k as int];
                            &&& item.ptr == (GraphPtr {
                                addr: en.0,
                                session: self.anchor().session(),
                            })
                            &&& match item.values {
                                Edge::Loop(l) => en.0 == p.addr && *l.this
                                    == self.anchor().graph().data_of(p.addr) && *l.edge == en.1,
                                Edge::Both(bo) => en.0 != p.addr && *bo.this
                                    == self.anchor().graph().data_of(p.addr) && *bo.that
                                    == self.anchor().graph().data_of(en.0) && *bo.edge == en.1,
                            }
                        }),
                        None => true,
                    }
                },
                Err(e) => Some(e) == self.anchor().ptr_err(p),
            },
    {
        self.parent.edge_at(p, k)
    }

    /// Opens a read-only cursor seated at `p`.
    pub fn cursor(&self, p: GraphPtr) -> (c: Cursor<'_, N, C, R>)
        ensures
            c.pos() == p,
            c.anchor() == self.anchor(),
    {
        Cursor { parent: self.parent, current: p }
    }
}

/// A movable, re-seatable accessor bound to one exclusive anchor and one
/// current pointer, exposing node-local operations without re-deriving the
/// pointer each time.
pub struct CursorMut<'this, N, C, R> {
    pub parent: &'this mut AnchorMut<N, C, R>,
    pub current: GraphPtr,
}

/// A movable, re-seatable read-only accessor bound to one anchor and one
/// current pointer.
pub struct Cursor<'this, N, C, R> {
    pub parent: &'this AnchorMut<N, C, R>,
    pub current: GraphPtr,
}

impl<N, C: NodeCollection, R: RootCollection> AnchorMut<N, C, R> {
    /// Opens a mutable cursor seated at `p`. The anchor is what it was when
    /// the cursor was opened, and whatever the cursor leaves behind is what
    /// the anchor becomes once the cursor's borrow ends.
    pub fn cursor_mut(&mut self, p: GraphPtr) -> (c: CursorMut<'_, N, C, R>)
        ensures
            c.pos() == p,
            c.anchor() == *old(self),
            *final(self) == *final(c.parent),
    {
        CursorMut { parent: self, current: p }
    }

    /// Opens a read-only cursor seated at `p`.
    pub fn cursor(&self, p: GraphPtr) -> (c: Cursor<'_, N, C, R>)
        ensures
            c.pos() == p,
            c.anchor() == *self,
    {
        Cursor { parent: self, current: p }
    }
}

impl<'this, N, C: NodeCollection, R: RootCollection> CursorMut<'this, N, C, R> {
    /// The pointer the cursor is currently seated at.
    pub open spec fn pos(&self) -> GraphPtr {
        self.current
    }

    /// The anchor as the cursor currently sees it.
    pub open spec fn anchor(&self) -> AnchorMut<N, C, R> {
        *self.parent
    }

    /// The pointer to the current node.
    pub fn at(&self) -> (p: GraphPtr)
        ensures
            p == self.pos(),
    {
        self.current
    }

    /// Whether the cursor is seated at the node `p` names. Pointers compare
    /// by address only: the session tag takes no part.
    pub fn is_at(&self, p: GraphPtr) -> (r: bool)
        ensures
            r == p.same_node(self.pos()),
    {
        self.current == p
    }

    /// Re-seats the cursor at `p` without touching the graph.
    pub fn jump(&mut self, p: GraphPtr)
        ensures
            final(self).pos() == p,
            final(self).parent == old(self).parent,
    {
        self.current = p;
    }

    /// A shared reference to the current node's payload.
    pub fn get(&self) -> (r: Result<&N, GraphError>)
        requires
            self.anchor().wf(),
        ensures
            match r {
                Ok(x) => self.anchor().ptr_err(self.pos()) is None && *x
                    == self.anchor().graph().data_of(self.pos().addr),
                Err(e) => Some(e) == self.anchor().ptr_err(self.pos()),
            },
    {
        self.parent.get(self.current)
    }

    /// An exclusive reference to the current node's payload. Only that payload
    /// can change through it; the graph's shape stays as it was.
    pub fn get_mut(&mut self) -> (r: Result<&mut N, GraphError>)
        requires
            old(self).anchor().wf(),
        ensures
            final(self).pos() == old(self).pos(),
            match r {
                Ok(x) => {
                    &&& old(self).anchor().ptr_err(old(self).pos()) is None
                    &&& *x == old(self).anchor().graph().data_of(old(self).pos().addr)
                    &&& final(self).anchor().wf()
                    &&& final(self).anchor().session() == old(self).anchor().session()
                    &&& final(self).anchor().graph().live(old(self).pos().addr)
                    &&& final(self).anchor().graph().data_of(old(self).pos().addr) == *final(x)
                    &&& final(self).anchor().graph().edges_of(old(self).pos().addr) == old(self).anchor().graph().edges_of(old(self).pos().addr)
                    &&& final(self).anchor().graph().roots() == old(self).anchor().graph().roots()
                    &&& final(self).anchor().graph().count() == old(self).anchor().graph().count()
                    &&& forall|b: usize|
                        #![trigger final(self).anchor().graph().live(b)]
                        #![trigger final(self).anchor().graph().data_of(b)]
                        #![trigger final(self).anchor().graph().edges_of(b)]
                        (final(self).anchor().graph().live(b) == old(self).anchor().graph().live(b)) && (b != old(self).pos().addr && old(self).anchor().graph().live(b) ==> final(self).anchor().graph().data_of(b)
                            == old(self).anchor().graph().data_of(b) && final(self).anchor().graph().edges_of(b) == old(self).anchor().graph().edges_of(
                            b,
                        ))
                },
                Err(e) => Some(e) == old(self).anchor().ptr_err(old(self).pos()) && final(self).anchor() == old(self).anchor(),
            },
    {
        self.parent.get_mut(self.current)
    }

    /// The pointers to the targets of every edge leaving the current node.
    pub fn edges(&self) -> (r: Result<Vec<GraphPtr>, GraphError>)
        requires
            self.anchor().wf(),
        ensures
            match r {
                Ok(v) => {
                    &&& self.anchor().ptr_err(self.pos()) is None
                    &&& v@.len() == self.anchor().graph().edges_of(self.pos().addr).len()
                    &&& forall|k: int|
                        0 <= k < v@.len() ==> (#[trigger] v@[k]) == (GraphPtr {
                            addr: self.anchor().graph().edges_of(self.pos().addr)[k].0,
                            session: self.anchor().session(),
                        })
                },
                Err(e) => Some(e) == self.anchor().ptr_err(self.pos()),
            },
    {
        self.parent.edges(self.current)
    }

    /// Exclusive access to the current node and `dst` at once: `None` exactly
    /// when `dst` is the pointer the cursor is seated at.
    pub fn bridge(&mut self, dst: GraphPtr) -> (r: Result<
        Option<(&mut N, &mut N)>,
        GraphError,
    >)
        requires
            old(self).anchor().wf(),
        ensures
            final(self).pos() == old(self).pos(),
            match r {
                Ok(opt) => {
                    &&& old(self).anchor().ptr_err(old(self).pos()) is None
                    &&& old(self).anchor().ptr_err(dst) is None
                    &&& (opt is None <==> old(self).pos().same_node(dst))
                    &&& match opt {
                        None => final(self).anchor() == old(self).anchor(),
                        Some(pair) => {
                            &&& *pair.0 == old(self).anchor().graph().data_of(
                                old(self).pos().addr,
                            )
                            &&& *pair.1 == old(self).anchor().graph().data_of(dst.addr)
                            &&& final(self).anchor().wf()
                            &&& final(self).anchor().session() == old(self).anchor().session()
                            &&& final(self).anchor().graph().data_of(old(self).pos().addr)
                                == *final(pair.0)
                            &&& final(self).anchor().graph().data_of(dst.addr) == *final(pair.1)
                            &&& final(self).anchor().graph().edges_of(old(self).pos().addr)
                                == old(self).anchor().graph().edges_of(old(self).pos().addr)
                            &&& final(self).anchor().graph().edges_of(dst.addr) == old(self).anchor().graph().edges_of(dst.addr)
                            &&& final(self).anchor().graph().roots() == old(self).anchor().graph().roots()
                            &&& final(self).anchor().graph().count() == old(self).anchor().graph().count()
                            &&& forall|c: usize|
                                #![trigger final(self).anchor().graph().live(c)]
                                #![trigger final(self).anchor().graph().data_of(c)]
                                #![trigger final(self).anchor().graph().edges_of(c)]
                                (final(self).anchor().graph().live(c) == old(self).anchor().graph().live(c)) && (c != old(self).pos().addr && c
                                    != dst.addr && old(self).anchor().graph().live(c) ==> final(self).anchor().graph().data_of(c) == old(self).anchor().graph().data_of(c) && final(self).anchor().graph().edges_of(c) == old(self).anchor().graph().edges_of(c))
                        },
                    }
                },
                Err(e) => {
                    &&& (old(self).anchor().ptr_err(old(self).pos()) is Some || old(self).anchor().ptr_err(dst) is Some)
                    &&& Some(e) == (if old(self).anchor().ptr_err(old(self).pos()) is Some {
                        old(self).anchor().ptr_err(old(self).pos())
                    } else {
                        old(self).anchor().ptr_err(dst)
                    })
                },
            },
    {
        self.parent.bridge(self.current, dst)
    }
}

impl<'this, N, C: NodeCollection, R: RootCollection> Cursor<'this, N, C, R> {
    /// The pointer the cursor is currently seated at.
    pub open spec fn pos(&self) -> GraphPtr {
        self.current
    }

    /// The anchor the cursor reads through.
    pub open spec fn anchor(&self) -> AnchorMut<N, C, R> {
        *self.parent
    }

    /// The pointer to the current node.
    pub fn at(&self) -> (p: GraphPtr)
        ensures
            p == self.pos(),
    {
        self.current
    }

    /// Whether the cursor is seated at the node `p` names. Pointers compare
    /// by address only: the session tag takes no part.
    pub fn is_at(&self, p: GraphPtr) -> (r: bool)
        ensures
            r == p.same_node(self.pos()),
    {
        self.current == p
    }

    /// Re-seats the cursor at `p` without touching the graph.
    pub fn jump(&mut self, p: GraphPtr)
        ensures
            final(self).pos() == p,
            final(self).anchor() == old(self).anchor(),
    {
        self.current = p;
    }

    /// A shared reference to the current node's payload.
    pub fn get(&self) -> (r: Result<&N, GraphError>)
        requires
            self.anchor().wf(),
        ensures
            match r {
                Ok(x) => self.anchor().ptr_err(self.pos()) is None && *x
                    == self.anchor().graph().data_of(self.pos().addr),
                Err(e) => Some(e) == self.anchor().ptr_err(self.pos()),
            },
    {
        self.parent.get(self.current)
    }

    /// The pointers to the targets of every edge leaving the current node.
    pub fn edges(&self) -> (r: Result<Vec<GraphPtr>, GraphError>)
        requires
            self.anchor().wf(),
        ensures
            match r {
                Ok(v) => {
                    &&& self.anchor().ptr_err(self.pos()) is None
                    &&& v@.len() == self.anchor().graph().edges_of(self.pos().addr).len()
                    &&& forall|k: int|
                        0 <= k < v@.len() ==> (#[trigger] v@[k]) == (GraphPtr {
                            addr: self.anchor().graph().edges_of(self.pos().addr)[k].0,
                            session: self.anchor().session(),
                        })
                },
                Err(e) => Some(e) == self.anchor().ptr_err(self.pos()),
            },
    {
        self.parent.edges(self.current)
    }
}

/// Sweep idempotence: when `g2` is what a precise sweep leaves of `g1` — the
/// same roots, exactly the nodes reachable in `g1`, each with its edges intact
/// — then every node stored in `g2` is again reachable from the roots. A
/// second sweep with no mutation in between therefore keeps the live set
/// exactly as it is.
pub proof fn lemma_cleanup_idempotent<N, C: NodeCollection, R: RootCollection>(
    g1: GenericGraph<N, C, R>,
    g2: GenericGraph<N, C, R>,
)
    requires
        g2.roots() == g1.roots(),
        forall|a: usize| #[trigger] g2.live(a) <==> g1.reachable(a),
        forall|a: usize| g2.live(a) ==> (#[trigger] g2.edges_of(a)) == g1.edges_of(a),
    ensures
        forall|a: usize| #[trigger] g2.reachable(a) <==> g2.live(a),
{
    let roots = g1.root.root_seq();
    assert forall|a: usize|
        #[trigger] g2.internal.live(a) <==> g1.internal.reachable(roots, a) by {
        assert(g2.live(a) <==> g1.reachable(a));
    }
    assert forall|a: usize|
        g2.internal.live(a) implies (#[trigger] g2.internal.edges_of(a))
        == g1.internal.edges_of(a) by {
        assert(g2.live(a));
        assert(g2.edges_of(a) == g1.edges_of(a));
    }
    GraphRaw::lemma_cleanup_idempotent(g1.internal, g2.internal, roots);
    assert forall|a: usize| #[trigger] g2.reachable(a) <==> g2.live(a) by {
        assert(g2.root.root_seq() == roots);
        assert(g2.internal.reachable(roots, a) <==> g2.internal.live(a));
    }
}

/// Frame transfer from the arena to the anchor: when the arena changed only
/// inside `except` and the rest of the graph value stayed put, the anchor's
/// observable state changed only inside `except` too.
proof fn lemma_anchor_frame<N, C: NodeCollection, R: RootCollection>(
    pre: AnchorMut<N, C, R>,
    post: AnchorMut<N, C, R>,
    except: Set<usize>,
)
    requires
        post.session == pre.session,
        post.strategy == pre.strategy,
        post.parent.next_session == pre.parent.next_session,
        post.parent.root == pre.parent.root,
        post.parent.internal.bound() == pre.parent.internal.bound(),
        GraphRaw::unchanged_outside(&pre.parent.internal, &post.parent.internal, except),
    ensures
        AnchorMut::same_graph_except(pre, post, except),
{
    assert forall|b: usize|
        !except.contains(b) implies ((#[trigger] post.graph().live(b)) == pre.graph().live(
        b,
    )) by {
        assert(post.parent.internal.live(b) == pre.parent.internal.live(b));
    }
    assert forall|b: usize|
        #![trigger post.graph().data_of(b)]
        #![trigger post.graph().edges_of(b)]
        !except.contains(b) && pre.graph().live(b) implies post.graph().data_of(b)
        == pre.graph().data_of(b) && post.graph().edges_of(b) == pre.graph().edges_of(
        b,
    ) by {
        assert(post.parent.internal.live(b) == pre.parent.internal.live(b));
        assert(post.parent.internal.data_of(b) == pre.parent.internal.data_of(b)
            && post.parent.internal.edges_of(b) == pre.parent.internal.edges_of(b));
    }
}

/// When an anchor operation leaves every root entry live, the graph invariant
/// carries over to the new anchor state.
proof fn lemma_anchor_roots_live<N, C: NodeCollection, R: RootCollection>(
    pre: AnchorMut<N, C, R>,
    post: AnchorMut<N, C, R>,
    except: Set<usize>,
)
    requires
        pre.wf(),
        post.parent.internal.wf(),
        post.session == pre.session,
        post.parent.next_session == pre.parent.next_session,
        post.parent.root == pre.parent.root,
        GraphRaw::unchanged_outside(&pre.parent.internal, &post.parent.internal, except),
        forall|k: int|
            0 <= k < pre.parent.root.root_seq().len() ==> !except.contains(
                #[trigger] pre.parent.root.root_seq()[k],
            ) || post.parent.internal.live(pre.parent.root.root_seq()[k]),
    ensures
        post.wf(),
{
    assert forall|k: int|
        0 <= k < post.parent.root.root_seq().len() implies post.parent.internal.live(
        #[trigger] post.parent.root.root_seq()[k],
    ) by {
        let r = post.parent.root.root_seq()[k];
        assert(pre.parent.root.root_seq()[k] == r);
        assert(pre.parent.internal.live(r));
        if !except.contains(r) {
            assert(post.parent.internal.live(r) == pre.parent.internal.live(r));
        }
    }
}

} // verus!
