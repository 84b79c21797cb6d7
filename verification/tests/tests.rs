use std::collections::HashMap;
use std::collections::VecDeque;
use std::cmp::min;

use dynamic_graph::{AnchorMut, CleanupStrategy, GraphPtr, NodeNamedMap, RootVec, VecGraph};

struct BfsNode {
    key: i32,
    distance: i32,
}

fn breadth_first_search(graph: VecGraph<BfsNode, NodeNamedMap<()>>) -> VecGraph<BfsNode, NodeNamedMap<()>> {
    let mut graph = graph.anchor_mut(CleanupStrategy::Always);

    let root = graph.root_at(0).unwrap();
    graph.get_mut(root).unwrap().distance = 0;

    let mut queue = VecDeque::new();
    queue.push_back(root);

    while let Some(q) = queue.pop_front() {
        println!("Visiting {}", graph.get(q).unwrap().key);
        let dist = graph.get(q).unwrap().distance;

        for ptr in graph.edges(q).unwrap() {
            let i = graph.get_mut(ptr).unwrap();
            if i.distance == -1 {
                i.distance = dist + 1;
                println!("Touching {} distance {}", i.key, i.distance);
                queue.push_back(ptr);
            }
        }
    }
    graph.release()
}

fn build_bfs_graph() -> VecGraph<BfsNode, NodeNamedMap<()>> {
    let graph = VecGraph::<BfsNode, NodeNamedMap<()>>::new();
    let mut graph = graph.anchor_mut(CleanupStrategy::Never);
    let mut vec = Vec::new();
    //Thomas Cormen, Introduction to Algorithms 2e, pic. 22.3
    for i in 0..8 {
        vec.push(graph.spawn(BfsNode { key: i, distance: -1 }));
    }
    graph.attach(vec[0]).unwrap();

    let edges: [&[usize]; 8] = [
        &[1, 3],
        &[0, 2],
        &[1],
        &[0, 4, 5],
        &[3, 5, 6],
        &[3, 4, 6, 7],
        &[4, 5, 7],
        &[5, 6],
    ];
    for (src, dsts) in edges.iter().enumerate() {
        for dst in dsts.iter() {
            graph.connect(vec[src], vec[*dst], ()).unwrap();
        }
    }
    graph.release()
}

#[test]
fn test_bfs() {
    let graph = build_bfs_graph();
    breadth_first_search(graph);
}

#[test]
fn bfs_distances_match_reference() {
    let graph = build_bfs_graph();
    let graph = breadth_first_search(graph);
    let expected = [0, 1, 2, 1, 2, 2, 3, 3];
    let anchor = graph.anchor_mut(CleanupStrategy::Never);
    for key in 0..8 {
        // Node addresses were issued in spawning order, starting at zero.
        let p = anchor.from_raw(key).unwrap();
        let node = anchor.get(p).unwrap();
        assert_eq!(node.key, key as i32);
        assert_eq!(node.distance, expected[key]);
    }
    anchor.release();
}

type BfAnchor = AnchorMut<usize, NodeNamedMap<usize>, RootVec>;

fn bellman_ford(graph: &BfAnchor, count: usize, source: GraphPtr) -> HashMap<GraphPtr, GraphPtr> {
    let mut distance = HashMap::new(); //from source node
    let mut path = HashMap::new(); //(to;from)

    if count == 0 {
        return path;
    }

    for ptr in graph.edges(source).unwrap() {
        let len = *graph.get_edge(source, ptr).unwrap().unwrap().edge();
        distance.insert(ptr, len);
        path.insert(ptr, source);
    }
    distance.insert(source, 0);

    let mut nodes = Vec::with_capacity(count);
    for _ in 0..count - 1 {
        nodes.clear();
        nodes.extend(distance.keys().copied());
        for i in &nodes {
            for j in graph.edges(*i).unwrap() {
                let edge = *graph.get_edge(*i, j).unwrap().unwrap().edge();
                if !distance.contains_key(&j) || distance[&j] > distance[i] + edge {
                    path.insert(j, *i);
                    distance.insert(j, distance[i] + edge);
                }
            }
        }
    }
    path
}

fn print_bf_path(
    graph: &BfAnchor,
    path: &HashMap<GraphPtr, GraphPtr>,
    source: GraphPtr,
    target: GraphPtr,
) -> usize {
    let mut full_len = 0;
    let mut current = target;
    if path.contains_key(&target) {
        while current != source {
            let prev = path[&current];

            let cur_key = *graph.get(current).unwrap();
            let prev_key = *graph.get(prev).unwrap();

            let len = *graph.get_edge(prev, current).unwrap().unwrap().edge();
            full_len += len;
            println!("{} to {}, len {}", prev_key, cur_key, len);
            current = prev;
        }
    }
    full_len
}

#[test]
fn shortest_path_test() {
    let graph = VecGraph::<usize, NodeNamedMap<usize>>::new();
    {
        let mut graph = graph.anchor_mut(CleanupStrategy::Never);
        //Thomas Cormen, Introduction to Algorithms 2e, pic. 24.6

        let source = graph.spawn(0);
        graph.attach(source).unwrap();

        let n1 = graph.spawn(1);
        let n2 = graph.spawn(2);

        let n3 = graph.spawn(3);
        let n4 = graph.spawn(4);

        graph.connect(source, n1, 10).unwrap();
        graph.connect(source, n2, 5).unwrap();

        graph.connect(n1, n2, 2).unwrap();
        graph.connect(n1, n3, 1).unwrap();

        graph.connect(n2, n1, 3).unwrap();
        graph.connect(n2, n4, 2).unwrap();
        graph.connect(n2, n3, 9).unwrap();

        graph.connect(n4, n3, 6).unwrap();
        graph.connect(n4, source, 7).unwrap();

        graph.connect(n3, n4, 4).unwrap();

        let path = bellman_ford(&graph, 5, source);
        assert!(print_bf_path(&graph, &path, source, n1) == 8);
        assert!(print_bf_path(&graph, &path, source, n2) == 5);
        assert!(print_bf_path(&graph, &path, source, n3) == 9);
        assert!(print_bf_path(&graph, &path, source, n4) == 7);
        graph.release();
    }
}

#[test]
fn test_kill_smoke() {
    let graph = VecGraph::<i32, NodeNamedMap<()>>::new();
    let mut graph = graph.anchor_mut(CleanupStrategy::Always);

    let v1 = graph.spawn(1);
    let v2 = graph.spawn(2);
    graph.kill(v1).unwrap();
    graph.kill(v2).unwrap();
    graph.release();
}

#[derive(Clone, Copy)]
struct FlowEdge {
    capacity: i32,
    flow: i32,
}

type FlowAnchor = AnchorMut<(), NodeNamedMap<FlowEdge>, RootVec>;

fn find_path(graph: &FlowAnchor) -> Option<HashMap<GraphPtr, (GraphPtr, i32)>> {
    let mut path = HashMap::new();
    let mut queue = VecDeque::new();

    let source = graph.root_at(0).unwrap();
    let sink = graph.root_at(1).unwrap();

    path.insert(source, (source, 0));
    queue.push_back(source);

    while let Some(q) = queue.pop_front() {
        for ptr in graph.edges(q).unwrap() {
            let i = *graph.get_edge(q, ptr).unwrap().unwrap().edge();
            if !path.contains_key(&ptr) && i.capacity - i.flow > 0 {
                path.insert(ptr, (q, i.capacity - i.flow));
                if ptr == sink {
                    return Some(path);
                }
                queue.push_back(ptr);
            }
        }
    }
    None
}

fn edmonds_karp(graph: VecGraph<(), NodeNamedMap<FlowEdge>>) -> i32 {
    let mut graph = graph.anchor_mut(CleanupStrategy::Always);

    let source = graph.root_at(0).unwrap();
    let sink = graph.root_at(1).unwrap();

    while let Some(path) = find_path(&graph) {
        let last_step = path[&sink];

        let mut current = last_step.0;
        let mut max_cut = last_step.1;

        while current != source {
            let cur_step = path[&current];
            max_cut = min(max_cut, cur_step.1);
            current = cur_step.0;
        }

        let mut at = sink;
        while at != source {
            let cur_step = path[&at];
            let back = cur_step.0;

            graph.get_edge_val_mut(at, back).unwrap().unwrap().flow -= max_cut;
            graph.get_edge_val_mut(back, at).unwrap().unwrap().flow += max_cut;

            at = back;
        }
    }

    let mut flow = 0;
    for ptr in graph.edges(sink).unwrap() {
        flow -= graph.get_edge(sink, ptr).unwrap().unwrap().edge().flow;
    }
    graph.release();
    flow
}

#[test]
fn test_max_flow() {
    let graph = VecGraph::<(), NodeNamedMap<FlowEdge>>::new();
    let graph = {
        //Thomas Cormen, Introduction to Algorithms 2e, pic. 26.5
        let mut graph = graph.anchor_mut(CleanupStrategy::Never);
        let source = graph.spawn(());
        let sink = graph.spawn(());

        graph.attach(source).unwrap();
        graph.attach(sink).unwrap();

        let v1 = graph.spawn(());
        let v2 = graph.spawn(());
        let v3 = graph.spawn(());
        let v4 = graph.spawn(());

        let f = |capacity| FlowEdge { capacity, flow: 0 };

        graph.connect(source, v1, f(16)).unwrap();
        graph.connect(v1, source, f(0)).unwrap();

        graph.connect(source, v2, f(13)).unwrap();
        graph.connect(v2, source, f(0)).unwrap();

        graph.connect(v2, v1, f(4)).unwrap();
        graph.connect(v1, v2, f(10)).unwrap();

        graph.connect(v1, v3, f(12)).unwrap();
        graph.connect(v3, v1, f(0)).unwrap();

        graph.connect(v3, v2, f(9)).unwrap();
        graph.connect(v2, v3, f(0)).unwrap();

        graph.connect(v4, v3, f(7)).unwrap();
        graph.connect(v3, v4, f(0)).unwrap();

        graph.connect(v2, v4, f(14)).unwrap();
        graph.connect(v4, v2, f(0)).unwrap();

        graph.connect(v3, sink, f(20)).unwrap();
        graph.connect(sink, v3, f(0)).unwrap();

        graph.connect(v4, sink, f(4)).unwrap();
        graph.connect(sink, v4, f(0)).unwrap();
        graph.release()
    };
    assert_eq!(edmonds_karp(graph), 23);
}
