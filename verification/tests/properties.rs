use dynamic_graph::{
    CleanupStrategy, Edge, GraphError, GraphImpl, KeyedGraph, NamedGraph, NodeNamedMap,
    NodeOption, NodeTreeMap, NodeVec, OptionGraph, SharedBox, VecGraph,
};

#[test]
fn spawn_round_trip_returns_payload() {
    let graph = VecGraph::<String, NodeNamedMap<()>>::new();
    let mut graph = graph.anchor_mut(CleanupStrategy::Never);
    let p = graph.spawn(String::from("payload"));
    assert_eq!(graph.get(p).unwrap(), "payload");
    let q = graph.spawn(String::from("second"));
    assert_eq!(graph.get(q).unwrap(), "second");
    assert_eq!(graph.get(p).unwrap(), "payload");
    graph.release();
}

#[test]
fn bridge_none_exactly_on_same_pointer() {
    let graph = VecGraph::<i32, NodeNamedMap<()>>::new();
    let mut graph = graph.anchor_mut(CleanupStrategy::Never);
    let a = graph.spawn(1);
    let b = graph.spawn(2);

    assert!(graph.bridge(a, a).unwrap().is_none());
    assert!(graph.bridge(b, b).unwrap().is_none());

    {
        let (x, y) = graph.bridge(a, b).unwrap().unwrap();
        // The two references are distinct locations: writing one leaves the
        // other alone.
        *x = 10;
        *y = 20;
    }
    assert_eq!(*graph.get(a).unwrap(), 10);
    assert_eq!(*graph.get(b).unwrap(), 20);
    graph.release();
}

#[test]
fn sweep_keeps_exactly_the_reachable_nodes() {
    let graph = VecGraph::<i32, NodeNamedMap<()>>::new();
    let mut graph = graph.anchor_mut(CleanupStrategy::Never);
    // root -> a -> b, and a cycle c <-> d detached from the root.
    let root = graph.spawn(0);
    let a = graph.spawn(1);
    let b = graph.spawn(2);
    let c = graph.spawn(3);
    let d = graph.spawn(4);
    graph.attach(root).unwrap();
    graph.connect(root, a, ()).unwrap();
    graph.connect(a, b, ()).unwrap();
    graph.connect(c, d, ()).unwrap();
    graph.connect(d, c, ()).unwrap();
    assert_eq!(graph.node_count(), 5);

    graph.cleanup_precise();

    assert_eq!(graph.node_count(), 3);
    // Reachable nodes survive with payloads and edges intact.
    assert_eq!(*graph.get(root).unwrap(), 0);
    assert_eq!(*graph.get(a).unwrap(), 1);
    assert_eq!(*graph.get(b).unwrap(), 2);
    assert!(graph.get_edge(root, a).unwrap().is_some());
    assert!(graph.get_edge(a, b).unwrap().is_some());
    // Unreachable nodes are gone: their pointers are stale now.
    assert_eq!(graph.get(c).unwrap_err(), GraphError::StalePointer);
    assert_eq!(graph.get(d).unwrap_err(), GraphError::StalePointer);
    graph.release();
}

#[test]
fn sweep_twice_keeps_the_live_set() {
    let graph = VecGraph::<i32, NodeNamedMap<()>>::new();
    let mut graph = graph.anchor_mut(CleanupStrategy::Never);
    let root = graph.spawn(0);
    let a = graph.spawn(1);
    let orphan = graph.spawn(2);
    graph.attach(root).unwrap();
    graph.connect(root, a, ()).unwrap();
    let _ = orphan;

    graph.cleanup_precise();
    let after_first = graph.node_count();
    let root_live_first = graph.get(root).is_ok();
    let a_live_first = graph.get(a).is_ok();

    graph.cleanup_precise();
    assert_eq!(graph.node_count(), after_first);
    assert_eq!(graph.get(root).is_ok(), root_live_first);
    assert_eq!(graph.get(a).is_ok(), a_live_first);
    graph.release();
}

#[test]
fn foreign_pointer_is_always_refused() {
    let graph = VecGraph::<i32, NodeNamedMap<i32>>::new();
    let mut anchor = graph.anchor_mut(CleanupStrategy::Never);
    let p = anchor.spawn(7);
    anchor.attach(p).unwrap();
    let graph = anchor.release();

    // A later session over the same graph refuses the old pointer everywhere.
    let mut anchor = graph.anchor_mut(CleanupStrategy::Never);
    assert_eq!(anchor.get(p).unwrap_err(), GraphError::ForeignPointer);
    assert_eq!(anchor.get_mut(p).unwrap_err(), GraphError::ForeignPointer);
    assert_eq!(anchor.edges(p).unwrap_err(), GraphError::ForeignPointer);
    assert_eq!(anchor.attach(p).unwrap_err(), GraphError::ForeignPointer);
    assert_eq!(anchor.kill(p).unwrap_err(), GraphError::ForeignPointer);
    let q = anchor.spawn(8);
    assert_eq!(anchor.connect(p, q, 1).unwrap_err(), GraphError::ForeignPointer);
    assert_eq!(anchor.connect(q, p, 1).unwrap_err(), GraphError::ForeignPointer);
    assert_eq!(anchor.bridge(p, q).unwrap_err(), GraphError::ForeignPointer);
    match anchor.get_edge(p, q) {
        Err(e) => assert_eq!(e, GraphError::ForeignPointer),
        Ok(_) => panic!("a foreign pointer must be refused"),
    }
    // Re-wrapping the raw identifier under the current session works instead,
    // and the renewed pointer compares equal to the old one: pointers are
    // compared by address only, the session tag takes no part.
    let renewed = anchor.from_raw(p.as_ptr()).unwrap();
    assert_eq!(renewed, p);
    assert!(anchor.cursor(renewed).is_at(p));
    assert_eq!(*anchor.get(renewed).unwrap(), 7);
    anchor.release();
}

#[test]
fn killed_pointer_becomes_stale() {
    let graph = VecGraph::<i32, NodeNamedMap<()>>::new();
    let mut graph = graph.anchor_mut(CleanupStrategy::Never);
    let before = graph.node_count();
    let p = graph.spawn(1);
    graph.kill(p).unwrap();
    // Spawning and immediately killing leaves the arena length unchanged.
    assert_eq!(graph.node_count(), before);
    assert_eq!(graph.get(p).unwrap_err(), GraphError::StalePointer);
    assert_eq!(graph.kill(p).unwrap_err(), GraphError::StalePointer);
    graph.release();
}

#[test]
fn edge_queries_report_absence_not_errors() {
    let graph = VecGraph::<i32, NodeNamedMap<i32>>::new();
    let mut graph = graph.anchor_mut(CleanupStrategy::Never);
    let a = graph.spawn(1);
    let b = graph.spawn(2);
    assert!(graph.get_edge(a, b).unwrap().is_none());
    assert!(graph.disconnect(a, b).unwrap().is_none());
    assert!(graph.root_at(0).is_none());
    assert!(graph.detach(0).is_none());
    assert!(graph.edges(a).unwrap().is_empty());
    graph.release();
}

#[test]
fn connect_overwrites_and_disconnect_removes() {
    let graph = VecGraph::<i32, NodeNamedMap<i32>>::new();
    let mut graph = graph.anchor_mut(CleanupStrategy::Never);
    let a = graph.spawn(1);
    let b = graph.spawn(2);
    assert!(graph.connect(a, b, 5).unwrap().is_none());
    assert_eq!(graph.connect(a, b, 9).unwrap(), Some(5));
    match graph.get_edge(a, b).unwrap().unwrap() {
        Edge::Both(e) => {
            assert_eq!(*e.this, 1);
            assert_eq!(*e.that, 2);
            assert_eq!(*e.edge, 9);
        },
        Edge::Loop(_) => panic!("distinct nodes must yield a two-sided view"),
    }
    // A self loop is reported as a loop, never as two views of one node.
    graph.connect(a, a, 3).unwrap();
    match graph.get_edge(a, a).unwrap().unwrap() {
        Edge::Loop(e) => {
            assert_eq!(*e.this, 1);
            assert_eq!(*e.edge, 3);
        },
        Edge::Both(_) => panic!("a self loop must yield a one-sided view"),
    }
    assert_eq!(graph.disconnect(a, b).unwrap(), Some(9));
    assert!(graph.get_edge(a, b).unwrap().is_none());
    graph.release();
}

#[test]
fn release_applies_the_strategy() {
    // Never: the orphan stays.
    let graph = VecGraph::<i32, NodeNamedMap<()>>::new();
    let mut anchor = graph.anchor_mut(CleanupStrategy::Never);
    anchor.spawn(1);
    let graph = anchor.release();
    assert_eq!(graph.node_count(), 1);

    // AlwaysPrecise: the orphan is reclaimed on release.
    let mut anchor = graph.anchor_mut(CleanupStrategy::AlwaysPrecise);
    anchor.spawn(2);
    let graph = anchor.release();
    assert_eq!(graph.node_count(), 0);

    // Always is the documented alias for the precise sweep.
    let mut anchor = graph.anchor_mut(CleanupStrategy::Always);
    anchor.spawn(3);
    let graph = anchor.release();
    assert_eq!(graph.node_count(), 0);

    // The trait methods run the same sweep.
    let mut graph = graph;
    GraphImpl::cleanup(&mut graph);
    GraphImpl::cleanup_precise(&mut graph);
    assert_eq!(graph.node_count(), 0);
}

#[test]
fn other_node_kinds_hold_edges() {
    // A node with an ordered edge list, duplicates allowed.
    let graph = VecGraph::<i32, NodeVec<i32>>::new();
    let mut graph = graph.anchor_mut(CleanupStrategy::Never);
    let a = graph.spawn(1);
    let b = graph.spawn(2);
    graph.attach(a).unwrap();
    graph.attach_edge(a, b, 5).unwrap();
    graph.attach_edge(a, b, 6).unwrap();
    assert_eq!(graph.edges(a).unwrap().len(), 2);
    graph.cleanup_precise();
    assert_eq!(graph.node_count(), 2);
    graph.release();

    // A node with a single optional edge.
    let graph = OptionGraph::<i32, NodeOption<i32>>::new();
    let mut graph = graph.anchor_mut(CleanupStrategy::Never);
    let a = graph.spawn(1);
    let b = graph.spawn(2);
    let c = graph.spawn(3);
    graph.set_edge(a, b, 7).unwrap();
    assert_eq!(graph.edges(a).unwrap().len(), 1);
    let replaced = graph.set_edge(a, c, 8).unwrap();
    assert_eq!(replaced, Some((b.as_ptr(), 7)));
    assert_eq!(graph.edges(a).unwrap(), vec![c]);
    graph.clear_edge(a).unwrap();
    assert!(graph.edges(a).unwrap().is_empty());
    graph.release();

    // A node keying edges by an ordered key.
    let graph = VecGraph::<i32, NodeTreeMap<i32>>::new();
    let mut graph = graph.anchor_mut(CleanupStrategy::Never);
    let a = graph.spawn(1);
    let b = graph.spawn(2);
    let c = graph.spawn(3);
    graph.attach(a).unwrap();
    graph.connect_keyed(a, 20, b, 5).unwrap();
    graph.connect_keyed(a, 10, c, 6).unwrap();
    // Edges come out in increasing key order.
    assert_eq!(graph.edges(a).unwrap(), vec![c, b]);
    let replaced = graph.connect_keyed(a, 20, c, 9).unwrap();
    assert_eq!(replaced, Some((b.as_ptr(), 5)));
    graph.cleanup_precise();
    // Only `a` and `c` stay reachable after the key overwrite dropped `b`.
    assert_eq!(graph.node_count(), 2);
    graph.release();
}

#[test]
fn cursors_follow_the_graph() {
    let graph = VecGraph::<i32, NodeNamedMap<i32>>::new();
    let mut graph = graph.anchor_mut(CleanupStrategy::Never);
    let a = graph.spawn(1);
    let b = graph.spawn(2);
    graph.attach(a).unwrap();
    graph.connect(a, b, 40).unwrap();
    graph.connect(b, a, 41).unwrap();

    {
        let mut cur = graph.cursor_mut(a);
        assert!(cur.is_at(a));
        assert_eq!(cur.at(), a);
        assert_eq!(*cur.get().unwrap(), 1);
        *cur.get_mut().unwrap() = 10;
        let neighbours = cur.edges().unwrap();
        assert_eq!(neighbours, vec![b]);
        // A bridge from the cursor's seat: None exactly on the seat itself.
        assert!(cur.bridge(a).unwrap().is_none());
        {
            let (x, y) = cur.bridge(b).unwrap().unwrap();
            *x += 5;
            *y += 5;
        }
        cur.jump(b);
        assert!(cur.is_at(b));
        assert_eq!(*cur.get().unwrap(), 7);
    }
    assert_eq!(*graph.get(a).unwrap(), 15);

    let read = graph.cursor(b);
    assert_eq!(*read.get().unwrap(), 7);
    assert_eq!(read.edges().unwrap(), vec![a]);
    let mut read = read;
    read.jump(a);
    assert_eq!(*read.get().unwrap(), 15);

    // Shared anchors coexist and read the same state.
    let shared_one = graph.anchor();
    let shared_two = graph.anchor();
    assert_eq!(*shared_one.get(a).unwrap(), 15);
    assert_eq!(*shared_two.get(b).unwrap(), 7);
    assert_eq!(shared_one.edges(a).unwrap(), vec![b]);
    let rewrapped = shared_one.from_raw(a.as_ptr()).unwrap();
    assert_eq!(*shared_two.cursor(rewrapped).get().unwrap(), 15);
    graph.release();
}

#[test]
fn edge_views_carry_values_for_every_kind() {
    // Pointer-keyed edges.
    let graph = VecGraph::<i32, NodeNamedMap<i32>>::new();
    let mut graph = graph.anchor_mut(CleanupStrategy::Never);
    let a = graph.spawn(1);
    let b = graph.spawn(2);
    graph.connect(a, b, 40).unwrap();
    graph.connect(a, a, 41).unwrap();
    let mut seen = Vec::new();
    let mut k = 0;
    while let Some(item) = graph.edge_at(a, k).unwrap() {
        match item.values {
            Edge::Both(e) => seen.push((item.ptr, *e.this, *e.that, *e.edge)),
            Edge::Loop(e) => seen.push((item.ptr, *e.this, *e.this, *e.edge)),
        }
        k += 1;
    }
    assert_eq!(seen, vec![(b, 1, 2, 40), (a, 1, 1, 41)]);
    graph.release();

    // Positional edges, including removal by position.
    let graph = VecGraph::<i32, NodeVec<i32>>::new();
    let mut graph = graph.anchor_mut(CleanupStrategy::Never);
    let a = graph.spawn(1);
    let b = graph.spawn(2);
    graph.attach_edge(a, b, 7).unwrap();
    graph.attach_edge(a, b, 8).unwrap();
    let item = graph.edge_at(a, 1).unwrap().unwrap();
    assert_eq!(item.ptr, b);
    assert_eq!(*item.values.edge(), 8);
    {
        let v = graph.get_edge_val_mut_at(a, 1).unwrap().unwrap();
        *v = 80;
    }
    assert_eq!(*graph.edge_at(a, 1).unwrap().unwrap().values.edge(), 80);
    assert!(graph.get_edge_val_mut_at(a, 9).unwrap().is_none());
    let removed = graph.detach_edge_at(a, 0).unwrap().unwrap();
    assert_eq!(removed, (b, 7));
    assert_eq!(graph.edges(a).unwrap(), vec![b]);
    assert!(graph.detach_edge_at(a, 5).unwrap().is_none());
    graph.release();

    // The single optional edge.
    let graph = OptionGraph::<i32, NodeOption<i32>>::new();
    let mut graph = graph.anchor_mut(CleanupStrategy::Never);
    let a = graph.spawn(1);
    let b = graph.spawn(2);
    graph.set_edge(a, b, 9).unwrap();
    let item = graph.edge_at(a, 0).unwrap().unwrap();
    assert_eq!(item.ptr, b);
    assert_eq!(*item.values.edge(), 9);
    assert!(graph.edge_at(a, 1).unwrap().is_none());
    graph.release();

    // Key-ordered edges come out by increasing key, values included.
    let graph = VecGraph::<i32, NodeTreeMap<i32>>::new();
    let mut graph = graph.anchor_mut(CleanupStrategy::Never);
    let a = graph.spawn(1);
    let b = graph.spawn(2);
    let c = graph.spawn(3);
    graph.connect_keyed(a, 9, b, 90).unwrap();
    graph.connect_keyed(a, 4, c, 40).unwrap();
    let first = graph.edge_at(a, 0).unwrap().unwrap();
    assert_eq!(first.ptr, c);
    assert_eq!(*first.values.edge(), 40);
    let second = graph.edge_at(a, 1).unwrap().unwrap();
    assert_eq!(second.ptr, b);
    assert_eq!(*second.values.edge(), 90);
    // Overwriting a key replaces its entry and reports the old one.
    let prev = graph.connect_keyed(a, 9, c, 91).unwrap();
    assert_eq!(prev, Some((b.as_ptr(), 90)));
    assert!(graph.connect_keyed(a, 5, b, 50).unwrap().is_none());
    graph.release();
}

#[test]
fn edge_values_mutate_in_place() {
    let graph = VecGraph::<i32, NodeNamedMap<i32>>::new();
    let mut graph = graph.anchor_mut(CleanupStrategy::Never);
    let a = graph.spawn(1);
    let b = graph.spawn(2);
    graph.connect(a, b, 10).unwrap();
    {
        let v = graph.get_edge_val_mut(a, b).unwrap().unwrap();
        *v += 5;
    }
    assert_eq!(*graph.get_edge(a, b).unwrap().unwrap().edge(), 15);
    assert!(graph.get_edge_val_mut(b, a).unwrap().is_none());
    let foreign = dynamic_graph::GraphPtr { addr: b.addr, session: b.session + 1 };
    assert_eq!(graph.get_edge_val_mut(a, foreign).unwrap_err(), GraphError::ForeignPointer);
    graph.release();
}

#[test]
fn every_root_kind_keeps_its_nodes_across_the_sweep() {
    // A set-keyed root collection.
    let graph = NamedGraph::<i32, NodeNamedMap<()>>::new();
    let mut graph = graph.anchor_mut(CleanupStrategy::Never);
    let a = graph.spawn(1);
    let orphan = graph.spawn(2);
    graph.attach(a).unwrap();
    graph.attach(a).unwrap();
    let _ = orphan;
    graph.cleanup_precise();
    assert_eq!(graph.node_count(), 1);
    assert_eq!(*graph.get(a).unwrap(), 1);
    graph.release();

    // The single-slot root collection.
    let graph = OptionGraph::<i32, NodeNamedMap<()>>::new();
    let mut graph = graph.anchor_mut(CleanupStrategy::Never);
    let a = graph.spawn(1);
    let b = graph.spawn(2);
    assert!(graph.attach(a).unwrap().is_none());
    assert_eq!(graph.attach(b).unwrap(), Some(a));
    graph.cleanup_precise();
    assert_eq!(graph.node_count(), 1);
    assert_eq!(*graph.get(b).unwrap(), 2);
    assert_eq!(graph.detach(), Some(b));
    graph.cleanup_precise();
    assert_eq!(graph.node_count(), 0);
    graph.release();

    // The key-ordered root collection.
    let graph = KeyedGraph::<i32, NodeNamedMap<()>>::new();
    let mut graph = graph.anchor_mut(CleanupStrategy::Never);
    let a = graph.spawn(1);
    let b = graph.spawn(2);
    graph.attach_keyed(3, a).unwrap();
    graph.attach_keyed(3, b).unwrap();
    graph.cleanup_precise();
    // The second attachment replaced the entry under the key.
    assert_eq!(graph.node_count(), 1);
    assert_eq!(*graph.get(b).unwrap(), 2);
    graph.release();
}

#[test]
fn shared_box_reads_back() {
    let b = SharedBox::new(41);
    assert_eq!(*SharedBox::as_ptr(&b), 41);
}
