use vstd::prelude::*;

use vstd::pervasive::VecAdditionalExecFns;

verus! {

/// The two-valued sweep tag. The arena flips its own copy once per sweep, so
/// "already visited this round" is exactly "tag equals the arena's tag".
#[derive(Clone, Copy, PartialEq, Eq, Debug, Structural)]
pub enum CleanupGen {
    Even,
    Odd,
}

impl CleanupGen {
    /// Switches to the other tag value.
    pub fn flip(&mut self)
        ensures
            *final(self) != *old(self),
            *old(self) == CleanupGen::Even ==> *final(self) == CleanupGen::Odd,
            *old(self) == CleanupGen::Odd ==> *final(self) == CleanupGen::Even,
    {
        if *self == CleanupGen::Even {
            *self = CleanupGen::Odd;
        } else {
            *self = CleanupGen::Even;
        }
    }
}

/// Per-node bookkeeping: the sweep tag, the slot the node currently occupies
/// in the arena, and the stable address the node was issued at birth.
#[derive(Clone, Copy, PartialEq, Eq, Debug, Structural)]
pub struct MetaData {
    pub cleanup_gen: CleanupGen,
    pub store_index: usize,
    pub addr: usize,
}

/// The shared contract of every edge collection: an ordered sequence of
/// `(target address, edge value)` entries that the sweep can walk. The four
/// stock collections differ in how entries are keyed and inserted; the arena,
/// the anchors and the cleanup engine only ever use this interface, so a new
/// collection kind plugs in without touching them.
pub trait NodeCollection: Sized {
    type Edge;

    /// The entries held, as `(target address, edge value)` pairs in storage order.
    spec fn edge_seq(&self) -> Seq<(usize, Self::Edge)>;

    /// The collection's own shape invariant (key uniqueness, ordering).
    spec fn well_formed(&self) -> bool;

    /// An empty collection.
    fn empty() -> (c: Self)
        ensures
            c.well_formed(),
            c.edge_seq() == Seq::<(usize, Self::Edge)>::empty(),
    ;

    /// How many edges are held.
    fn len(&self) -> (n: usize)
        ensures
            n == self.edge_seq().len(),
    ;

    /// The target address of the edge at position `i`.
    fn target_at(&self, i: usize) -> (t: usize)
        requires
            i < self.edge_seq().len(),
        ensures
            t == self.edge_seq()[i as int].0,
    ;

    /// The value carried by the edge at position `i`.
    fn value_at(&self, i: usize) -> (v: &Self::Edge)
        requires
            i < self.edge_seq().len(),
        ensures
            *v == self.edge_seq()[i as int].1,
    ;
}

/// One stored node: the client payload, an edge collection, and bookkeeping.
pub struct GraphNode<N, C> {
    pub(crate) data: N,
    pub(crate) refs: C,
    pub(crate) meta: MetaData,
}

/// An edge collection keyed by the identity of the destination node: at most
/// one edge per ordered pair of nodes, like a map from target pointer to value.
pub struct NodeNamedMap<E> {
    pub(crate) items: Vec<(usize, E)>,
}

/// Whether an entry list holds a key equal to `t`.
pub open spec fn has_key<E>(items: Seq<(usize, E)>, t: usize) -> bool {
    exists|k: int| 0 <= k < items.len() && (#[trigger] items[k]).0 == t
}

/// The value stored under key `t` (meaningful when `has_key` holds).
pub open spec fn val_of<E>(items: Seq<(usize, E)>, t: usize) -> E {
    let k = choose|k: int| 0 <= k < items.len() && (#[trigger] items[k]).0 == t;
    items[k].1
}

/// Keys are pairwise distinct.
pub open spec fn keys_unique<E>(items: Seq<(usize, E)>) -> bool {
    forall|i: int, j: int| 0 <= i < j < items.len() ==> items[i].0 != items[j].0
}

/// When two unique-key entry lists have the same keys in the same order and
/// every entry under key `u` is unchanged, then `u`'s presence and value are
/// unchanged. Broadcast so that lookup facts follow from pointwise ones even
/// where a live borrow forbids spelling the proof out.
pub broadcast proof fn lemma_lookup_preserved<E>(
    s0: Seq<(usize, E)>,
    s1: Seq<(usize, E)>,
    u: usize,
)
    requires
        keys_unique(s0),
        s1.len() == s0.len(),
        forall|i: int| 0 <= i < s1.len() ==> (#[trigger] s1[i]).0 == s0[i].0,
        forall|i: int| 0 <= i < s1.len() && s0[i].0 == u ==> s1[i] == s0[i],
    ensures
        #![trigger has_key(s1, u), has_key(s0, u)]
        #![trigger val_of(s1, u), val_of(s0, u)]
        (has_key(s1, u) <==> has_key(s0, u)) && (has_key(s0, u) ==> val_of(s1, u) == val_of(
            s0,
            u,
        )),
{
    if has_key(s1, u) {
        let c = choose|c: int| 0 <= c < s1.len() && (#[trigger] s1[c]).0 == u;
        assert(s0[c].0 == u);
        assert(has_key(s0, u));
    }
    if has_key(s0, u) {
        let c = choose|c: int| 0 <= c < s0.len() && (#[trigger] s0[c]).0 == u;
        assert(s1[c].0 == u);
        assert(has_key(s1, u));
        lemma_unique_val_at(s0, c);
        assert(s1[c] == s0[c]);
        assert(keys_unique(s1)) by {
            assert forall|i: int, j: int|
                0 <= i < j < s1.len() implies s1[i].0 != s1[j].0 by {
                assert(s1[i].0 == s0[i].0 && s1[j].0 == s0[j].0);
            }
        }
        lemma_unique_val_at(s1, c);
    }
}

/// With unique keys, the value looked up under the key sitting at position
/// `k` is exactly the value at position `k`.
proof fn lemma_unique_val_at<E>(items: Seq<(usize, E)>, k: int)
    requires
        keys_unique(items),
        0 <= k < items.len(),
    ensures
        has_key(items, items[k].0),
        val_of(items, items[k].0) == items[k].1,
{
    let t = items[k].0;
    assert(has_key(items, t));
    let c = choose|c: int| 0 <= c < items.len() && (#[trigger] items[c]).0 == t;
    if c != k {
        if c < k {
            assert(items[c].0 != items[k].0);
        } else {
            assert(items[k].0 != items[c].0);
        }
    }
}

impl<E> NodeNamedMap<E> {
    /// The position of the edge to target `t`, if one is held.
    fn find(&self, t: usize) -> (r: Option<usize>)
        ensures
            match r {
                Some(k) => k < self.items@.len() && self.items@[k as int].0 == t,
                None => !has_key(self.edge_seq(), t),
            },
    {
        let n = self.items.len();
        let mut k: usize = 0;
        while k < n
            invariant
                k <= n,
                n == self.items@.len(),
                forall|j: int| 0 <= j < k ==> (#[trigger] self.items@[j]).0 != t,
            decreases n - k,
        {
            if self.items[k].0 == t {
                return Some(k);
            }
            k = k + 1;
        }
        proof {
            assert forall|j: int|
                0 <= j < self.items@.len() implies (#[trigger] self.items@[j]).0 != t by {}
        }
        None
    }

    /// Inserts an edge to target `t` carrying `e`, overwriting any edge to
    /// `t` already held, whose value is reported.
    pub(crate) fn insert(&mut self, t: usize, e: E) -> (r: Option<E>)
        requires
            old(self).well_formed(),
        ensures
            final(self).well_formed(),
            has_key(final(self).edge_seq(), t),
            val_of(final(self).edge_seq(), t) == e,
            forall|u: usize|
                (#[trigger] has_key(final(self).edge_seq(), u)) <==> (u == t || has_key(
                    old(self).edge_seq(),
                    u,
                )),
            forall|u: usize|
                u != t && has_key(old(self).edge_seq(), u) ==> (#[trigger] val_of(
                    final(self).edge_seq(),
                    u,
                )) == val_of(old(self).edge_seq(), u),
            match r {
                Some(v) => has_key(old(self).edge_seq(), t) && v == val_of(
                    old(self).edge_seq(),
                    t,
                ),
                None => !has_key(old(self).edge_seq(), t),
            },
    {
        let ghost items0 = self.items@;
        let found = self.find(t);
        match found {
            Some(k) => {
                let mut entry = (t, e);
                self.items.set_and_swap(k, &mut entry);
                proof {
                    assert(self.items@ == items0.update(k as int, (t, e)));
                    lemma_unique_val_at(items0, k as int);
                    assert(keys_unique(self.items@)) by {
                        assert forall|i: int, j: int|
                            0 <= i < j < self.items@.len() implies self.items@[i].0
                            != self.items@[j].0 by {
                            assert(items0[i].0 == self.items@[i].0);
                            assert(items0[j].0 == self.items@[j].0);
                        }
                    }
                    lemma_unique_val_at(self.items@, k as int);
                    assert forall|u: usize|
                        (#[trigger] has_key(self.items@, u)) <==> (u == t || has_key(
                            items0,
                            u,
                        )) by {
                        if has_key(self.items@, u) && u != t {
                            let c = choose|c: int|
                                0 <= c < self.items@.len() && (#[trigger] self.items@[c]).0
                                    == u;
                            assert(c != k);
                            assert(items0[c].0 == u);
                            assert(has_key(items0, u));
                        }
                        if u != t && has_key(items0, u) {
                            let c = choose|c: int|
                                0 <= c < items0.len() && (#[trigger] items0[c]).0 == u;
                            assert(c != k);
                            assert(self.items@[c].0 == u);
                            assert(has_key(self.items@, u));
                        }
                    }
                    assert forall|u: usize|
                        u != t && has_key(items0, u) implies (#[trigger] val_of(
                        self.items@,
                        u,
                    )) == val_of(items0, u) by {
                        let c = choose|c: int|
                            0 <= c < items0.len() && (#[trigger] items0[c]).0 == u;
                        lemma_unique_val_at(items0, c);
                        assert(c != k);
                        assert(self.items@[c] == items0[c]);
                        lemma_unique_val_at(self.items@, c);
                    }
                }
                Some(entry.1)
            },
            None => {
                self.items.push((t, e));
                proof {
                    assert(self.items@ == items0.push((t, e)));
                    let n = items0.len() as int;
                    assert(self.items@[n] == (t, e));
                    assert(keys_unique(self.items@)) by {
                        assert forall|i: int, j: int|
                            0 <= i < j < self.items@.len() implies self.items@[i].0
                            != self.items@[j].0 by {
                            if j < n {
                                assert(items0[i].0 != items0[j].0);
                            } else {
                                assert(self.items@[j].0 == t);
                                assert(items0[i].0 != t) by {
                                    if items0[i].0 == t {
                                        assert(has_key(items0, t));
                                    }
                                }
                            }
                        }
                    }
                    lemma_unique_val_at(self.items@, n);
                    assert forall|u: usize|
                        (#[trigger] has_key(self.items@, u)) <==> (u == t || has_key(
                            items0,
                            u,
                        )) by {
                        if has_key(self.items@, u) && u != t {
                            let c = choose|c: int|
                                0 <= c < self.items@.len() && (#[trigger] self.items@[c]).0
                                    == u;
                            assert(c != n);
                            assert(items0[c].0 == u);
                        }
                        if has_key(items0, u) {
                            let c = choose|c: int|
                                0 <= c < items0.len() && (#[trigger] items0[c]).0 == u;
                            assert(self.items@[c].0 == u);
                        }
                    }
                    assert forall|u: usize|
                        u != t && has_key(items0, u) implies (#[trigger] val_of(
                        self.items@,
                        u,
                    )) == val_of(items0, u) by {
                        let c = choose|c: int|
                            0 <= c < items0.len() && (#[trigger] items0[c]).0 == u;
                        lemma_unique_val_at(items0, c);
                        assert(self.items@[c] == items0[c]);
                        lemma_unique_val_at(self.items@, c);
                    }
                }
                None
            },
        }
    }

    /// Removes the edge to target `t`, if one is held, and reports its value.
    pub(crate) fn remove(&mut self, t: usize) -> (r: Option<E>)
        requires
            old(self).well_formed(),
        ensures
            final(self).well_formed(),
            forall|u: usize|
                (#[trigger] has_key(final(self).edge_seq(), u)) <==> (u != t && has_key(
                    old(self).edge_seq(),
                    u,
                )),
            forall|u: usize|
                u != t && has_key(old(self).edge_seq(), u) ==> (#[trigger] val_of(
                    final(self).edge_seq(),
                    u,
                )) == val_of(old(self).edge_seq(), u),
            match r {
                Some(v) => has_key(old(self).edge_seq(), t) && v == val_of(
                    old(self).edge_seq(),
                    t,
                ),
                None => !has_key(old(self).edge_seq(), t),
            },
    {
        let ghost items0 = self.items@;
        let found = self.find(t);
        match found {
            Some(k) => {
                let entry = self.items.swap_remove(k);
                proof {
                    lemma_unique_val_at(items0, k as int);
                    let n = items0.len() as int;
                    assert(self.items@ == items0.update(k as int, items0[n - 1]).drop_last());
                    assert forall|i: int|
                        0 <= i < self.items@.len() implies #[trigger] self.items@[i] == (
                        if i == k as int {
                            items0[n - 1]
                        } else {
                            items0[i]
                        }) by {}
                    assert(keys_unique(self.items@)) by {
                        assert forall|i: int, j: int|
                            0 <= i < j < self.items@.len() implies self.items@[i].0
                            != self.items@[j].0 by {
                            if i == k as int {
                                assert(items0[j].0 != items0[n - 1].0);
                            } else if j == k as int {
                                assert(items0[i].0 != items0[n - 1].0);
                            } else {
                                assert(items0[i].0 != items0[j].0);
                            }
                        }
                    }
                    assert forall|u: usize|
                        (#[trigger] has_key(self.items@, u)) <==> (u != t && has_key(
                            items0,
                            u,
                        )) by {
                        if has_key(self.items@, u) {
                            let c = choose|c: int|
                                0 <= c < self.items@.len() && (#[trigger] self.items@[c]).0
                                    == u;
                            if c == k as int {
                                assert(items0[n - 1].0 == u);
                                assert(has_key(items0, u));
                                if u == t {
                                    assert(items0[k as int].0 == t);
                                    assert(k as int != n - 1);
                                    assert(items0[k as int].0 != items0[n - 1].0);
                                }
                            } else {
                                assert(items0[c].0 == u);
                                assert(has_key(items0, u));
                                if u == t {
                                    assert(items0[k as int].0 == t);
                                    if c < k as int {
                                        assert(items0[c].0 != items0[k as int].0);
                                    } else {
                                        assert(items0[k as int].0 != items0[c].0);
                                    }
                                }
                            }
                        }
                        if u != t && has_key(items0, u) {
                            let c = choose|c: int|
                                0 <= c < items0.len() && (#[trigger] items0[c]).0 == u;
                            assert(c != k as int);
                            if c == n - 1 {
                                assert(k as int != n - 1);
                                assert(self.items@[k as int].0 == u);
                            } else {
                                assert(self.items@[c].0 == u);
                            }
                        }
                    }
                    assert forall|u: usize|
                        u != t && has_key(items0, u) implies (#[trigger] val_of(
                        self.items@,
                        u,
                    )) == val_of(items0, u) by {
                        let c = choose|c: int|
                            0 <= c < items0.len() && (#[trigger] items0[c]).0 == u;
                        lemma_unique_val_at(items0, c);
                        assert(c != k as int);
                        if c == n - 1 {
                            assert(k as int != n - 1);
                            assert(self.items@[k as int] == items0[n - 1]);
                            lemma_unique_val_at(self.items@, k as int);
                        } else {
                            assert(self.items@[c] == items0[c]);
                            lemma_unique_val_at(self.items@, c);
                        }
                    }
                }
                Some(entry.1)
            },
            None => None,
        }
    }

    /// An exclusive reference to the value on the edge to target `t`, if one
    /// is held. Only that value can change through it: the targets, their
    /// order and every other value stay as they were.
    pub(crate) fn get_mut(&mut self, t: usize) -> (r: Option<&mut E>)
        requires
            old(self).well_formed(),
        ensures
            final(self).well_formed(),
            r is Some <==> has_key(old(self).edge_seq(), t),
            r is None ==> *final(self) == *old(self),
            r matches Some(v) ==> {
                &&& *v == val_of(old(self).edge_seq(), t)
                &&& final(self).edge_seq().len() == old(self).edge_seq().len()
                &&& forall|i: int|
                    0 <= i < final(self).edge_seq().len() ==> (#[trigger] final(self).edge_seq()[i]).0 == old(self).edge_seq()[i].0
                &&& val_of(final(self).edge_seq(), t) == *final(v)
                &&& forall|u: usize|
                    u != t && has_key(old(self).edge_seq(), u) ==> (#[trigger] val_of(
                        final(self).edge_seq(),
                        u,
                    )) == val_of(old(self).edge_seq(), u)
                &&& forall|u: usize|
                    (#[trigger] has_key(final(self).edge_seq(), u)) <==> has_key(
                        old(self).edge_seq(),
                        u,
                    )
            },
    {
        broadcast use lemma_lookup_preserved;

        let found = self.find(t);
        match found {
            Some(k) => {
                proof {
                    lemma_unique_val_at(self.items@, k as int);
                }
                let entry = vstd::std_specs::vec::vec_index_mut(&mut self.items, k);
                Some(&mut entry.1)
            },
            None => None,
        }
    }

    /// A reference to the value on the edge to target `t`, if one is held.
    pub(crate) fn get(&self, t: usize) -> (r: Option<&E>)
        requires
            self.well_formed(),
        ensures
            r is Some <==> has_key(self.edge_seq(), t),
            r is Some ==> *r->0 == val_of(self.edge_seq(), t),
    {
        let found = self.find(t);
        match found {
            Some(k) => {
                proof {
                    lemma_unique_val_at(self.items@, k as int);
                }
                Some(&self.items[k].1)
            },
            None => None,
        }
    }
}

impl<E> NodeCollection for NodeNamedMap<E> {
    type Edge = E;

    closed spec fn edge_seq(&self) -> Seq<(usize, E)> {
        self.items@
    }

    /// Targets are pairwise distinct: the collection is a map keyed by target.
    closed spec fn well_formed(&self) -> bool {
        keys_unique(self.items@)
    }

    fn empty() -> (c: Self) {
        NodeNamedMap { items: Vec::new() }
    }

    fn len(&self) -> (n: usize) {
        self.items.len()
    }

    fn target_at(&self, i: usize) -> (t: usize) {
        self.items[i].0
    }

    fn value_at(&self, i: usize) -> (v: &E) {
        &self.items[i].1
    }
}

/// An edge collection that is a plain ordered list: duplicate targets are
/// allowed and edges are keyed by their position.
pub struct NodeVec<E> {
    pub(crate) items: Vec<(usize, E)>,
}

impl<E> NodeVec<E> {
    /// Appends an edge to target `t` carrying `e`.
    pub(crate) fn push_entry(&mut self, t: usize, e: E)
        ensures
            final(self).well_formed(),
            final(self).edge_seq() == old(self).edge_seq().push((t, e)),
    {
        self.items.push((t, e));
    }
}

impl<E> NodeCollection for NodeVec<E> {
    type Edge = E;

    closed spec fn edge_seq(&self) -> Seq<(usize, E)> {
        self.items@
    }

    /// Positional edges carry no shape constraint of their own.
    closed spec fn well_formed(&self) -> bool {
        true
    }

    fn empty() -> (c: Self) {
        NodeVec { items: Vec::new() }
    }

    fn len(&self) -> (n: usize) {
        self.items.len()
    }

    fn target_at(&self, i: usize) -> (t: usize) {
        self.items[i].0
    }

    fn value_at(&self, i: usize) -> (v: &E) {
        &self.items[i].1
    }
}

impl<E> NodeVec<E> {
    /// An exclusive reference to the value of the edge at position `i`. Only
    /// that value can change through it: the targets and every other entry
    /// stay as they were.
    pub(crate) fn value_mut_at(&mut self, i: usize) -> (v: &mut E)
        requires
            i < old(self).edge_seq().len(),
        ensures
            final(self).well_formed(),
            *v == old(self).edge_seq()[i as int].1,
            final(self).edge_seq() == old(self).edge_seq().update(
                i as int,
                (old(self).edge_seq()[i as int].0, *final(v)),
            ),
    {
        let entry = vstd::std_specs::vec::vec_index_mut(&mut self.items, i);
        &mut entry.1
    }

    /// Removes the edge at position `i`, keeping the order of the rest, and
    /// reports its entry.
    pub(crate) fn remove_entry(&mut self, i: usize) -> (r: (usize, E))
        requires
            i < old(self).edge_seq().len(),
        ensures
            final(self).well_formed(),
            r == old(self).edge_seq()[i as int],
            final(self).edge_seq() == old(self).edge_seq().remove(i as int),
    {
        self.items.remove(i)
    }
}

/// An edge collection holding at most one outgoing edge in total.
pub struct NodeOption<E> {
    pub(crate) item: Option<(usize, E)>,
}

impl<E> NodeOption<E> {
    /// Sets the single edge to target `t` carrying `e`, reporting the edge it
    /// replaces.
    pub(crate) fn set_entry(&mut self, t: usize, e: E) -> (r: Option<(usize, E)>)
        ensures
            final(self).well_formed(),
            final(self).edge_seq() == seq![(t, e)],
            old(self).edge_seq().len() == 0 ==> r is None,
            old(self).edge_seq().len() == 1 ==> r == Some(old(self).edge_seq()[0]),
    {
        let r = self.item.take();
        self.item = Some((t, e));
        r
    }

    /// Clears the single edge, reporting what it was.
    pub(crate) fn clear_entry(&mut self) -> (r: Option<(usize, E)>)
        ensures
            final(self).well_formed(),
            final(self).edge_seq() == Seq::<(usize, E)>::empty(),
            old(self).edge_seq().len() == 0 ==> r is None,
            old(self).edge_seq().len() == 1 ==> r == Some(old(self).edge_seq()[0]),
    {
        self.item.take()
    }
}

impl<E> NodeCollection for NodeOption<E> {
    type Edge = E;

    closed spec fn edge_seq(&self) -> Seq<(usize, E)> {
        match self.item {
            Some(en) => seq![en],
            None => Seq::empty(),
        }
    }

    /// A single optional edge carries no shape constraint of its own.
    closed spec fn well_formed(&self) -> bool {
        true
    }

    fn empty() -> (c: Self) {
        NodeOption { item: None }
    }

    fn len(&self) -> (n: usize) {
        match &self.item {
            Some(_) => 1,
            None => 0,
        }
    }

    fn target_at(&self, i: usize) -> (t: usize) {
        match &self.item {
            Some(en) => en.0,
            None => 0,
        }
    }

    fn value_at(&self, i: usize) -> (v: &E) {
        match &self.item {
            Some(en) => &en.1,
            None => vstd::pervasive::unreached(),
        }
    }
}

/// Whether a keyed entry list holds an entry under key `k`.
pub open spec fn tree_has_key<E>(items: Seq<(u64, usize, E)>, k: u64) -> bool {
    exists|i: int| 0 <= i < items.len() && (#[trigger] items[i]).0 == k
}

/// An edge collection keyed by a caller-supplied totally ordered key, held in
/// strictly increasing key order.
pub struct NodeTreeMap<E> {
    pub(crate) items: Vec<(u64, usize, E)>,
}

impl<E> NodeTreeMap<E> {
    /// Whether an entry is stored under key `k`.
    pub closed spec fn has_edge_key(&self, k: u64) -> bool {
        tree_has_key(self.items@, k)
    }

    /// The `(target, value)` pair stored under key `k` (meaningful when an
    /// entry under `k` is present).
    pub closed spec fn edge_under(&self, k: u64) -> (usize, E) {
        let i = choose|i: int| 0 <= i < self.items@.len() && (#[trigger] self.items@[i]).0 == k;
        (self.items@[i].1, self.items@[i].2)
    }

    /// A collection with no edges stores nothing under any key.
    pub proof fn lemma_empty_has_no_keys(&self, k: u64)
        requires
            self.edge_seq().len() == 0,
        ensures
            !self.has_edge_key(k),
    {
        assert(self.items@.len() == 0);
    }

    /// Inserts the entry `(t, e)` under key `k`, keeping keys in strictly
    /// increasing order. An entry already stored under `k` is replaced and
    /// reported.
    pub(crate) fn insert_keyed(&mut self, k: u64, t: usize, e: E) -> (r: Option<(usize, E)>)
        requires
            old(self).well_formed(),
        ensures
            final(self).well_formed(),
            final(self).has_edge_key(k),
            final(self).edge_under(k) == (t, e),
            forall|u: u64|
                u != k ==> ((#[trigger] final(self).has_edge_key(u)) <==> old(self).has_edge_key(u)),
            forall|u: u64|
                u != k && old(self).has_edge_key(u) ==> (#[trigger] final(self).edge_under(u))
                    == old(self).edge_under(u),
            forall|i: int|
                0 <= i < final(self).edge_seq().len() ==> (#[trigger] final(self).edge_seq()[i]).0 == t || has_key(old(self).edge_seq(), final(self).edge_seq()[i].0),
            match r {
                Some(v) => old(self).has_edge_key(k) && v == old(self).edge_under(k),
                None => !old(self).has_edge_key(k),
            },
    {
        let n = self.items.len();
        let ghost items0 = self.items@;
        let mut i: usize = 0;
        while i < n
            invariant
                i <= n,
                n == self.items@.len(),
                self.items@ == items0,
                items0 == old(self).items@,
                forall|a: int, b: int| 0 <= a < b < items0.len() ==> items0[a].0 < items0[b].0,
                forall|j: int| 0 <= j < i ==> (#[trigger] items0[j]).0 < k,
            decreases n - i,
        {
            if self.items[i].0 == k {
                let mut entry = (k, t, e);
                self.items.set_and_swap(i, &mut entry);
                proof {
                    assert(old(self).items@[i as int].0 == k);
                    assert(old(self).has_edge_key(k));
                    let c = choose|c: int|
                        0 <= c < items0.len() && (#[trigger] items0[c]).0 == k;
                    if c != i as int {
                        if c < i as int {
                            assert(items0[c].0 < items0[i as int].0);
                        } else {
                            assert(items0[i as int].0 < items0[c].0);
                        }
                    }
                    assert(old(self).edge_under(k) == (
                        items0[i as int].1,
                        items0[i as int].2,
                    ));
                    assert(self.items@ == items0.update(i as int, (k, t, e)));
                    lemma_tree_shape(items0, self.items@, i as int, k, t, true);
                    lemma_tree_view(*old(self), *self, t);
                    lemma_tree_keyed_facts(*old(self), *self, i as int, k);
                }
                return Some((entry.1, entry.2));
            }
            if self.items[i].0 > k {
                let ghost pre = self.items@;
                proof {
                    assert forall|j: int|
                        0 <= j < items0.len() implies (#[trigger] items0[j]).0 != k by {
                        if j > i {
                            assert(items0[i as int].0 < items0[j].0);
                        }
                    }
                    assert(!old(self).has_edge_key(k));
                }
                self.items.insert(i, (k, t, e));
                proof {
                    assert(self.items@ == items0.insert(i as int, (k, t, e)));
                    lemma_tree_shape(items0, self.items@, i as int, k, t, false);
                    lemma_tree_view(*old(self), *self, t);
                    lemma_tree_keyed_facts(*old(self), *self, i as int, k);
                }
                return None;
            }
            i = i + 1;
        }
        proof {
            assert forall|j: int| 0 <= j < items0.len() implies (#[trigger] items0[j]).0
                != k by {}
            assert(!old(self).has_edge_key(k));
        }
        self.items.push((k, t, e));
        proof {
            assert(self.items@ =~= items0.insert(n as int, (k, t, e)));
            lemma_tree_shape(items0, self.items@, n as int, k, t, false);
            lemma_tree_view(*old(self), *self, t);
            lemma_tree_keyed_facts(*old(self), *self, n as int, k);
        }
        None
    }
}

impl<E> NodeCollection for NodeTreeMap<E> {
    type Edge = E;

    closed spec fn edge_seq(&self) -> Seq<(usize, E)> {
        self.items@.map_values(|x: (u64, usize, E)| (x.1, x.2))
    }

    /// Keys are held in strictly increasing order, so each key occurs once.
    closed spec fn well_formed(&self) -> bool {
        forall|i: int, j: int|
            0 <= i < j < self.items@.len() ==> self.items@[i].0 < self.items@[j].0
    }

    fn empty() -> (c: Self) {
        NodeTreeMap { items: Vec::new() }
    }

    fn len(&self) -> (n: usize) {
        proof {
            assert(self.edge_seq().len() == self.items@.len());
        }
        self.items.len()
    }

    fn target_at(&self, i: usize) -> (t: usize) {
        proof {
            assert(self.edge_seq()[i as int] == (
                self.items@[i as int].1,
                self.items@[i as int].2,
            ));
        }
        self.items[i].1
    }

    fn value_at(&self, i: usize) -> (v: &E) {
        proof {
            assert(self.edge_seq()[i as int] == (
                self.items@[i as int].1,
                self.items@[i as int].2,
            ));
        }
        &self.items[i].2
    }
}

/// Carries the per-entry target bound from the raw entry lists of two keyed
/// collections to the edge view that the shared collection contract exposes.
proof fn lemma_tree_view<E>(c0: NodeTreeMap<E>, c1: NodeTreeMap<E>, t: usize)
    requires
        forall|a: int|
            0 <= a < c1.items@.len() ==> (#[trigger] c1.items@[a]).1 == t || has_key(
                c0.items@.map_values(|x: (u64, usize, E)| (x.1, x.2)),
                c1.items@[a].1,
            ),
    ensures
        forall|ii: int|
            0 <= ii < c1.edge_seq().len() ==> ((#[trigger] c1.edge_seq()[ii]).0 == t || has_key(
                c0.edge_seq(),
                c1.edge_seq()[ii].0,
            )),
{
    assert forall|ii: int|
        0 <= ii < c1.edge_seq().len() implies ((#[trigger] c1.edge_seq()[ii]).0 == t || has_key(
        c0.edge_seq(),
        c1.edge_seq()[ii].0,
    )) by {
        assert(c1.edge_seq()[ii] == (c1.items@[ii].1, c1.items@[ii].2));
        assert(c0.edge_seq() =~= c0.items@.map_values(|x: (u64, usize, E)| (x.1, x.2)));
        assert(c1.items@[ii].1 == t || has_key(
            c0.items@.map_values(|x: (u64, usize, E)| (x.1, x.2)),
            c1.items@[ii].1,
        ));
    }
}

/// Carries the entry-level facts of a keyed insertion at position `i` over to
/// the keyed lookup view: the entry under the inserted key is the one at `i`,
/// and every other key keeps both its presence and its stored pair.
proof fn lemma_tree_keyed_facts<E>(c0: NodeTreeMap<E>, c1: NodeTreeMap<E>, i: int, k: u64)
    requires
        forall|a: int, b: int| 0 <= a < b < c0.items@.len() ==> c0.items@[a].0 < c0.items@[b].0,
        0 <= i < c1.items@.len(),
        c1.items@[i].0 == k,
        forall|a: int| 0 <= a < c1.items@.len() && (#[trigger] c1.items@[a]).0 == k ==> a == i,
        forall|u: u64|
            u != k ==> ((#[trigger] tree_has_key(c1.items@, u)) <==> tree_has_key(
                c0.items@,
                u,
            )),
        forall|a1: int, a0: int|
            0 <= a1 < c1.items@.len() && 0 <= a0 < c0.items@.len() && (#[trigger] c1.items@[a1]).0
                == (#[trigger] c0.items@[a0]).0 && c1.items@[a1].0 != k ==> c1.items@[a1]
                == c0.items@[a0],
    ensures
        c1.has_edge_key(k),
        c1.edge_under(k) == (c1.items@[i].1, c1.items@[i].2),
        forall|u: u64| u != k ==> ((#[trigger] c1.has_edge_key(u)) <==> c0.has_edge_key(u)),
        forall|u: u64|
            u != k && c0.has_edge_key(u) ==> (#[trigger] c1.edge_under(u)) == c0.edge_under(u),
{
    assert(c1.has_edge_key(k));
    let c = choose|c: int| 0 <= c < c1.items@.len() && (#[trigger] c1.items@[c]).0 == k;
    assert(c == i);
    assert forall|u: u64|
        u != k && c0.has_edge_key(u) implies (#[trigger] c1.edge_under(u)) == c0.edge_under(
        u,
    ) by {
        let c0i = choose|a: int| 0 <= a < c0.items@.len() && (#[trigger] c0.items@[a]).0 == u;
        assert(c1.has_edge_key(u));
        let c1i = choose|a: int| 0 <= a < c1.items@.len() && (#[trigger] c1.items@[a]).0 == u;
        assert(c1.items@[c1i] == c0.items@[c0i]);
    }
}

/// The shape facts after a keyed insertion: when the entry under `k` was
/// overwritten in place (`updated`), or a fresh entry was inserted at the
/// position where every earlier key is smaller and every later key larger,
/// the keys stay strictly increasing, `k` is present, and every stored target
/// is the new one or one that was already stored.
proof fn lemma_tree_shape<E>(
    items0: Seq<(u64, usize, E)>,
    items1: Seq<(u64, usize, E)>,
    i: int,
    k: u64,
    t: usize,
    updated: bool,
)
    requires
        forall|a: int, b: int| 0 <= a < b < items0.len() ==> items0[a].0 < items0[b].0,
        forall|a: int| 0 <= a < i ==> (#[trigger] items0[a]).0 < k,
        updated ==> 0 <= i < items0.len() && items0[i].0 == k && items1 == items0.update(
            i,
            (k, t, items1[i].2),
        ),
        !updated ==> 0 <= i <= items0.len() && items1 == items0.insert(i, (k, t, items1[i].2))
            && (i < items0.len() ==> items0[i].0 > k),
    ensures
        forall|a: int, b: int| 0 <= a < b < items1.len() ==> items1[a].0 < items1[b].0,
        exists|a: int| 0 <= a < items1.len() && (#[trigger] items1[a]).0 == k,
        forall|a: int| 0 <= a < items1.len() && (#[trigger] items1[a]).0 == k ==> a == i,
        forall|u: u64|
            u != k ==> ((#[trigger] tree_has_key(items1, u)) <==> tree_has_key(items0, u)),
        forall|a1: int, a0: int|
            0 <= a1 < items1.len() && 0 <= a0 < items0.len() && (#[trigger] items1[a1]).0 == (
            #[trigger] items0[a0]).0 && items1[a1].0 != k ==> items1[a1] == items0[a0],
        forall|a: int|
            0 <= a < items1.len() ==> (#[trigger] items1[a]).1 == t || has_key(
                items0.map_values(|x: (u64, usize, E)| (x.1, x.2)),
                items1[a].1,
            ),
{
    assert(items1[i].0 == k);
    assert forall|a: int|
        0 <= a < items1.len() && (#[trigger] items1[a]).0 == k implies a == i by {
        if a != i {
            if updated {
                assert(items1[a] == items0[a]);
                if a < i {
                    assert(items0[a].0 < items0[i].0);
                } else {
                    assert(items0[i].0 < items0[a].0);
                }
            } else {
                if a < i {
                    assert(items1[a] == items0[a]);
                    assert(items0[a].0 < k);
                } else {
                    assert(items1[a] == items0[a - 1]);
                    assert(a - 1 >= i);
                    assert(i < items0.len());
                    if a - 1 == i {
                        assert(items0[i].0 > k);
                    } else {
                        assert(items0[i].0 < items0[a - 1].0);
                        assert(items0[i].0 > k);
                    }
                }
            }
        }
    }
    assert forall|u: u64|
        u != k implies ((#[trigger] tree_has_key(items1, u)) <==> tree_has_key(
        items0,
        u,
    )) by {
        if exists|a: int| 0 <= a < items1.len() && (#[trigger] items1[a]).0 == u {
            let a = choose|a: int| 0 <= a < items1.len() && (#[trigger] items1[a]).0 == u;
            assert(a != i);
            if updated || a < i {
                assert(items1[a] == items0[a]);
            } else {
                assert(items1[a] == items0[a - 1]);
            }
        }
        if exists|a: int| 0 <= a < items0.len() && (#[trigger] items0[a]).0 == u {
            let a = choose|a: int| 0 <= a < items0.len() && (#[trigger] items0[a]).0 == u;
            if updated {
                assert(items1[a] == items0[a]);
            } else {
                if a < i {
                    assert(items1[a] == items0[a]);
                } else {
                    assert(items1[a + 1] == items0[a]);
                }
            }
        }
    }
    assert forall|a1: int, a0: int|
        0 <= a1 < items1.len() && 0 <= a0 < items0.len() && (#[trigger] items1[a1]).0 == (
        #[trigger] items0[a0]).0 && items1[a1].0 != k implies items1[a1] == items0[a0] by {
        assert(a1 != i);
        let a1p: int = if updated || a1 < i {
            a1
        } else {
            a1 - 1
        };
        assert(items1[a1] == items0[a1p]);
        if a1p != a0 {
            if a1p < a0 {
                assert(items0[a1p].0 < items0[a0].0);
            } else {
                assert(items0[a0].0 < items0[a1p].0);
            }
        }
    }
    if updated {
        assert forall|a: int, b: int|
            0 <= a < b < items1.len() implies items1[a].0 < items1[b].0 by {
            assert(items1[a].0 == items0[a].0);
            assert(items1[b].0 == items0[b].0);
        }
        assert forall|a: int|
            0 <= a < items1.len() implies (#[trigger] items1[a]).1 == t || has_key(
            items0.map_values(|x: (u64, usize, E)| (x.1, x.2)),
            items1[a].1,
        ) by {
            if a != i {
                assert(items1[a] == items0[a]);
                let m0 = items0.map_values(|x: (u64, usize, E)| (x.1, x.2));
                assert(m0[a].0 == items0[a].1);
                assert(has_key(m0, items0[a].1));
            }
        }
    } else {
        assert forall|a: int, b: int|
            0 <= a < b < items1.len() implies items1[a].0 < items1[b].0 by {
            if b < i {
                assert(items1[a] == items0[a] && items1[b] == items0[b]);
            } else if a < i && b == i {
                assert(items1[a] == items0[a]);
            } else if a < i && b > i {
                assert(items1[a] == items0[a] && items1[b] == items0[b - 1]);
                assert(items0[i].0 > k || i == items0.len());
                assert(items0[b - 1].0 > k) by {
                    assert(b - 1 >= i);
                    if b - 1 == i {
                    } else {
                        assert(items0[i].0 < items0[b - 1].0);
                    }
                }
            } else if a == i {
                assert(items1[b] == items0[b - 1]);
                assert(b - 1 >= i);
                if b - 1 == i {
                } else {
                    assert(items0[i].0 < items0[b - 1].0);
                }
            } else {
                assert(items1[a] == items0[a - 1] && items1[b] == items0[b - 1]);
            }
        }
        assert forall|a: int|
            0 <= a < items1.len() implies (#[trigger] items1[a]).1 == t || has_key(
            items0.map_values(|x: (u64, usize, E)| (x.1, x.2)),
            items1[a].1,
        ) by {
            let m0 = items0.map_values(|x: (u64, usize, E)| (x.1, x.2));
            if a < i {
                assert(items1[a] == items0[a]);
                assert(m0[a].0 == items0[a].1);
                assert(has_key(m0, items0[a].1));
            } else if a > i {
                assert(items1[a] == items0[a - 1]);
                assert(m0[a - 1].0 == items0[a - 1].1);
                assert(has_key(m0, items0[a - 1].1));
            }
        }
    }
}

/// The shared contract of every root collection: the sequence of node
/// addresses named as the graph's external entry points.
pub trait RootCollection: Sized {
    /// The addresses held, in storage order.
    spec fn root_seq(&self) -> Seq<usize>;

    /// An empty collection.
    fn empty() -> (c: Self)
        ensures
            c.root_seq() == Seq::<usize>::empty(),
    ;

    /// How many roots are held.
    fn len(&self) -> (n: usize)
        ensures
            n == self.root_seq().len(),
    ;

    /// The root address at position `i`.
    fn root_at(&self, i: usize) -> (t: usize)
        requires
            i < self.root_seq().len(),
        ensures
            t == self.root_seq()[i as int],
    ;
}

/// A root collection holding at most one entry point.
pub struct RootOption {
    pub(crate) item: Option<usize>,
}

impl RootOption {
    /// Sets the single entry point, reporting what it replaced.
    pub(crate) fn set_root(&mut self, a: usize) -> (r: Option<usize>)
        ensures
            final(self).root_seq() == seq![a],
            old(self).root_seq().len() == 0 ==> r is None,
            old(self).root_seq().len() == 1 ==> r == Some(old(self).root_seq()[0]),
    {
        let r = self.item.take();
        self.item = Some(a);
        r
    }

    /// Clears the single entry point, reporting what it was.
    pub(crate) fn clear_root(&mut self) -> (r: Option<usize>)
        ensures
            final(self).root_seq() == Seq::<usize>::empty(),
            old(self).root_seq().len() == 0 ==> r is None && *final(self) == *old(self),
            old(self).root_seq().len() == 1 ==> r == Some(old(self).root_seq()[0]),
    {
        self.item.take()
    }
}

impl RootCollection for RootOption {
    closed spec fn root_seq(&self) -> Seq<usize> {
        match self.item {
            Some(a) => seq![a],
            None => Seq::empty(),
        }
    }

    fn empty() -> (c: Self) {
        RootOption { item: None }
    }

    fn len(&self) -> (n: usize) {
        match &self.item {
            Some(_) => 1,
            None => 0,
        }
    }

    fn root_at(&self, i: usize) -> (t: usize) {
        match &self.item {
            Some(a) => *a,
            None => 0,
        }
    }
}

/// A root collection keyed by the identity of the entry points themselves:
/// each node is named at most once.
pub struct RootNamedSet {
    pub(crate) items: Vec<usize>,
}

impl RootNamedSet {
    /// Whether address `a` is named as an entry point.
    fn find_root(&self, a: usize) -> (r: bool)
        ensures
            r == self.root_seq().contains(a),
    {
        let n = self.items.len();
        let mut i: usize = 0;
        while i < n
            invariant
                i <= n,
                n == self.items@.len(),
                forall|j: int| 0 <= j < i ==> (#[trigger] self.items@[j]) != a,
            decreases n - i,
        {
            if self.items[i] == a {
                proof {
                    assert(self.items@[i as int] == a);
                }
                return true;
            }
            i = i + 1;
        }
        false
    }

    /// Names `a` as an entry point, unless it already is one.
    pub(crate) fn insert_root(&mut self, a: usize)
        ensures
            final(self).root_seq().contains(a),
            forall|k: int|
                0 <= k < final(self).root_seq().len() ==> (#[trigger] final(self).root_seq()[k]) == a || old(self).root_seq().contains(final(self).root_seq()[k]),
    {
        if !self.find_root(a) {
            self.items.push(a);
            proof {
                assert(self.root_seq()[self.root_seq().len() - 1] == a);
                assert forall|k: int|
                    0 <= k < self.root_seq().len() implies (#[trigger] self.root_seq()[k]) == a
                    || old(self).root_seq().contains(self.root_seq()[k]) by {
                    if k < old(self).root_seq().len() {
                        assert(self.root_seq()[k] == old(self).root_seq()[k]);
                    }
                }
            }
        }
    }
}

impl RootCollection for RootNamedSet {
    closed spec fn root_seq(&self) -> Seq<usize> {
        self.items@
    }

    fn empty() -> (c: Self) {
        RootNamedSet { items: Vec::new() }
    }

    fn len(&self) -> (n: usize) {
        self.items.len()
    }

    fn root_at(&self, i: usize) -> (t: usize) {
        self.items[i]
    }
}

/// A root collection keyed by a caller-supplied totally ordered key: each key
/// names at most one entry point.
pub struct RootHashMap {
    pub(crate) items: Vec<(u64, usize)>,
}

impl RootHashMap {
    /// Names `a` as the entry point under key `k`, replacing whatever entry
    /// the key held before.
    pub(crate) fn insert_root_keyed(&mut self, k: u64, a: usize) -> (r: Option<usize>)
        ensures
            final(self).root_seq().contains(a),
            forall|j: int|
                0 <= j < final(self).root_seq().len() ==> (#[trigger] final(self).root_seq()[j]) == a || old(self).root_seq().contains(final(self).root_seq()[j]),
    {
        let n = self.items.len();
        let mut i: usize = 0;
        while i < n
            invariant
                i <= n,
                n == self.items@.len(),
                self.items@ == old(self).items@,
            decreases n - i,
        {
            if self.items[i].0 == k {
                let mut entry = (k, a);
                self.items.set_and_swap(i, &mut entry);
                proof {
                    assert(self.items@ == old(self).items@.update(i as int, (k, a)));
                    assert(self.root_seq()[i as int] == a);
                    assert forall|j: int|
                        0 <= j < self.root_seq().len() implies (#[trigger] self.root_seq()[j])
                        == a || old(self).root_seq().contains(self.root_seq()[j]) by {
                        if j != i {
                            assert(self.items@[j] == old(self).items@[j]);
                            assert(old(self).root_seq()[j] == self.root_seq()[j]);
                        }
                    }
                }
                return Some(entry.1);
            }
            i = i + 1;
        }
        self.items.push((k, a));
        proof {
            let m = self.root_seq().len() - 1;
            assert(self.items@ == old(self).items@.push((k, a)));
            assert(self.root_seq()[m] == a);
            assert forall|j: int|
                0 <= j < self.root_seq().len() implies (#[trigger] self.root_seq()[j]) == a
                || old(self).root_seq().contains(self.root_seq()[j]) by {
                if j < m {
                    assert(self.items@[j] == old(self).items@[j]);
                    assert(old(self).root_seq()[j] == self.root_seq()[j]);
                }
            }
        }
        None
    }
}

impl RootCollection for RootHashMap {
    closed spec fn root_seq(&self) -> Seq<usize> {
        self.items@.map_values(|x: (u64, usize)| x.1)
    }

    fn empty() -> (c: Self) {
        RootHashMap { items: Vec::new() }
    }

    fn len(&self) -> (n: usize) {
        proof {
            assert(self.root_seq().len() == self.items@.len());
        }
        self.items.len()
    }

    fn root_at(&self, i: usize) -> (t: usize) {
        proof {
            assert(self.root_seq()[i as int] == self.items@[i as int].1);
        }
        self.items[i].1
    }
}

/// A root collection that is a plain ordered list of entry points.
pub struct RootVec {
    pub(crate) items: Vec<usize>,
}

impl RootVec {
    /// Appends address `a` to the roots.
    pub(crate) fn push(&mut self, a: usize)
        ensures
            final(self).root_seq() == old(self).root_seq().push(a),
    {
        self.items.push(a);
    }

    /// Removes the root at position `i`, keeping the order of the rest.
    pub(crate) fn remove_at(&mut self, i: usize) -> (r: usize)
        requires
            i < old(self).root_seq().len(),
        ensures
            r == old(self).root_seq()[i as int],
            final(self).root_seq() == old(self).root_seq().remove(i as int),
    {
        self.items.remove(i)
    }
}

impl RootCollection for RootVec {
    closed spec fn root_seq(&self) -> Seq<usize> {
        self.items@
    }

    fn empty() -> (c: Self) {
        RootVec { items: Vec::new() }
    }

    fn len(&self) -> (n: usize) {
        self.items.len()
    }

    fn root_at(&self, i: usize) -> (t: usize) {
        self.items[i]
    }
}

} // verus!
