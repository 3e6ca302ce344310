use dsp::alt_osc::AltOsc;
use dsp::sound_stream_settings::SoundStreamSettings;
use dsp::{Amplitude, BasicNode, Graph, Node, NodeIndex, Sample, WouldCycle, EQUILIBRIUM, UNITY};

fn pass() -> BasicNode {
    BasicNode::Pass
}

fn volume(dry: Amplitude, wet: Amplitude) -> BasicNode {
    BasicNode::Volume { gain: UNITY / 2, dry, wet }
}

/// The visit order as a vector.
fn order_of<N: Node>(g: &Graph<N>) -> Vec<NodeIndex> {
    let mut walker = g.visit_order();
    let mut order = Vec::new();
    while let Some(n) = walker.next(g) {
        order.push(n);
    }
    order
}

/// Every connection as `(edge, src, dest)`, found through the output walkers.
fn edges_of<N: Node>(g: &Graph<N>) -> Vec<(usize, NodeIndex, NodeIndex)> {
    let mut edges = Vec::new();
    for n in 0..g.node_count() {
        let mut outputs = g.outputs(n);
        while let Some((e, dest)) = outputs.next(g) {
            edges.push((e, n, dest));
        }
    }
    edges.sort();
    edges
}

/// The connections as sorted `(src, dest)` pairs.
fn pairs_of<N: Node>(g: &Graph<N>) -> Vec<(NodeIndex, NodeIndex)> {
    let mut pairs: Vec<_> = edges_of(g).into_iter().map(|(_, s, d)| (s, d)).collect();
    pairs.sort();
    pairs
}

/// Checks that the visit order lists every node once and puts each input before its output.
fn assert_invariants<N: Node>(g: &Graph<N>) {
    let order = order_of(g);
    assert_eq!(order.len(), g.node_count());
    let mut position = vec![usize::MAX; g.node_count()];
    for (i, &n) in order.iter().enumerate() {
        assert!(n < g.node_count());
        assert_eq!(position[n], usize::MAX, "node visited twice");
        position[n] = i;
    }
    for (_, src, dest) in edges_of(g) {
        assert!(position[src] < position[dest]);
    }
    assert_eq!(edges_of(g).len(), g.connection_count());
    if let Some(m) = g.master_index() {
        assert!(m < g.node_count());
    }
}

/// The graph of the three oscillators summed into a master node.
fn three_oscillators() -> (Graph<BasicNode>, [NodeIndex; 4]) {
    let mut g = Graph::new();
    let m = g.add_node(pass());
    let a = g.add_node(BasicNode::Constant(2000));
    let b = g.add_node(BasicNode::Constant(1000));
    let c = g.add_node(BasicNode::Constant(1500));
    g.add_connection(a, m).unwrap();
    g.add_connection(b, m).unwrap();
    g.add_connection(c, m).unwrap();
    g.set_master(Some(m));
    (g, [m, a, b, c])
}

#[test]
fn three_oscillators_summed() {
    let (mut g, _) = three_oscillators();
    let mut buf = [0 as Sample; 8];
    g.audio_requested(&mut buf, 44100);
    assert_eq!(buf, [4500; 8]);
    assert_invariants(&g);
}

#[test]
fn cycle_rejected_and_render_unchanged() {
    let (mut g, [m, a, _, _]) = three_oscillators();
    let count = g.connection_count();
    assert_eq!(g.add_connection(m, a), Err(WouldCycle));
    assert_eq!(g.connection_count(), count);
    let mut buf = [0 as Sample; 8];
    g.audio_requested(&mut buf, 44100);
    assert_eq!(buf, [4500; 8]);
}

#[test]
fn volume_effect_halves() {
    let (mut g, [m, _, _, _]) = three_oscillators();
    let (_, v) = g.add_output(m, volume(0, UNITY));
    g.set_master(Some(v));
    let mut buf = [0 as Sample; 8];
    g.audio_requested(&mut buf, 44100);
    assert_eq!(buf, [2250; 8]);
}

#[test]
fn dry_wet_blend() {
    let (mut g, [m, _, _, _]) = three_oscillators();
    let (_, v) = g.add_output(m, volume(0, UNITY));
    g.set_master(Some(v));
    if let Some(BasicNode::Volume { dry, wet, .. }) = g.node_mut(v) {
        *dry = UNITY / 2;
        *wet = UNITY / 2;
    }
    let mut buf = [0 as Sample; 8];
    g.audio_requested(&mut buf, 44100);
    assert_eq!(buf, [3375; 8]);
}

/// A small deterministic generator for the stability test.
struct Lcg(u64);

impl Lcg {
    fn next(&mut self, bound: usize) -> usize {
        self.0 = self.0.wrapping_mul(6364136223846793005).wrapping_add(1442695040888963407);
        ((self.0 >> 33) as usize) % bound
    }
}

/// The output of each node computed from scratch over the connections.
fn reference_value(pairs: &[(NodeIndex, NodeIndex)], adds: &[Sample], n: NodeIndex) -> Sample {
    let mut sum = 0;
    for &(s, d) in pairs {
        if d == n {
            sum += reference_value(pairs, adds, s);
        }
    }
    sum + adds[n]
}

#[test]
fn topological_stability() {
    let mut g = Graph::new();
    let adds: Vec<Sample> = (0..8).map(|i| (i + 1) * 3).collect();
    for &a in &adds {
        g.add_node(BasicNode::Offset(a));
    }
    let mut rng = Lcg(7);
    for step in 0..100 {
        if step % 3 == 2 && g.connection_count() > 0 {
            let e = rng.next(g.connection_count());
            assert!(g.remove_edge(e));
        } else {
            let src = rng.next(8);
            let dest = rng.next(8);
            if g.find_connection(src, dest).is_none() {
                let before = g.connection_count();
                match g.add_connection(src, dest) {
                    Ok(e) => assert_eq!(e, before),
                    Err(WouldCycle) => assert_eq!(g.connection_count(), before),
                }
            }
        }
        assert_invariants(&g);
        let pairs = pairs_of(&g);
        let target = rng.next(8);
        let mut buf = [0 as Sample; 4];
        g.audio_requested_from(target, &mut buf, 48000);
        assert_eq!(buf, [reference_value(&pairs, &adds, target); 4]);
    }
}

#[test]
fn default_master_fallback() {
    let mut g = Graph::new();
    let a = g.add_node(BasicNode::Offset(1000));
    let b = g.add_node(BasicNode::Offset(100));
    let c = g.add_node(BasicNode::Offset(10));
    g.add_connection(a, b).unwrap();
    g.add_connection(b, c).unwrap();
    let mut buf = [0 as Sample; 4];
    g.audio_requested(&mut buf, 44100);
    assert_eq!(buf, [1110; 4]);
    g.set_master(Some(b));
    g.audio_requested(&mut buf, 44100);
    assert_eq!(buf, [1100; 4]);
}

#[test]
fn empty_graph_renders_silence() {
    let mut g: Graph<BasicNode> = Graph::new();
    let mut buf = [77 as Sample; 6];
    g.audio_requested(&mut buf, 44100);
    assert_eq!(buf, [EQUILIBRIUM; 6]);
}

#[test]
fn silent_node_renders_silence() {
    let mut g = Graph::with_capacity(1, 0, 16);
    let n = g.add_node(BasicNode::Constant(EQUILIBRIUM));
    g.set_master(Some(n));
    let mut buf = [-5 as Sample; 16];
    g.audio_requested(&mut buf, 44100);
    assert_eq!(buf, [EQUILIBRIUM; 16]);
}

#[test]
fn inputs_are_summed() {
    let mut g = Graph::new();
    let x = g.add_node(pass());
    let a = g.add_node(BasicNode::Constant(300));
    let b = g.add_node(BasicNode::Constant(-50));
    g.add_connection(a, x).unwrap();
    g.add_connection(b, x).unwrap();
    g.add_connection(b, x).unwrap();
    let mut buf = [0 as Sample; 3];
    g.audio_requested_from(x, &mut buf, 44100);
    let mut summed = [9 as Sample; 3];
    g.sum_inputs(x, &mut summed);
    assert_eq!(summed, [200; 3]);
    let mut none = [9 as Sample; 3];
    g.sum_inputs(a, &mut none);
    assert_eq!(none, [EQUILIBRIUM; 3]);
}

#[test]
fn inputs_sum_saturates() {
    let mut g = Graph::new();
    let x = g.add_node(pass());
    let a = g.add_node(BasicNode::Constant(i32::MAX - 10));
    let b = g.add_node(BasicNode::Constant(100));
    g.add_connection(a, x).unwrap();
    g.add_connection(b, x).unwrap();
    let mut buf = [0 as Sample; 2];
    g.audio_requested_from(x, &mut buf, 44100);
    assert_eq!(buf, [i32::MAX; 2]);
}

#[test]
fn connect_then_remove_restores_connections() {
    let (mut g, [m, a, b, _]) = three_oscillators();
    g.add_connection(a, b).unwrap();
    let before = pairs_of(&g);
    let nodes = g.node_count();
    let e = g.add_connection(b, m).unwrap();
    assert_eq!(e, g.connection_count() - 1);
    assert!(g.remove_edge(e));
    assert_eq!(pairs_of(&g), before);
    assert_eq!(g.node_count(), nodes);
    assert_invariants(&g);
}

#[test]
fn add_then_remove_node_restores_nodes() {
    let (mut g, _) = three_oscillators();
    let count = g.node_count();
    let idx = g.add_node(BasicNode::Offset(1));
    assert_eq!(idx, count);
    assert!(matches!(g.remove_node(idx), Some(BasicNode::Offset(1))));
    assert_eq!(g.node_count(), count);
    assert!(matches!(g.node(1), Some(BasicNode::Constant(2000))));
    assert_invariants(&g);
}

#[test]
fn prepare_buffers_twice_same_sizes() {
    let (mut g, _) = three_oscillators();
    g.prepare_buffers(32);
    let sizes: Vec<usize> = g.raw_edges().iter().map(|c| c.buffer.len()).collect();
    assert_eq!(sizes, vec![32; 3]);
    g.prepare_buffers(32);
    let again: Vec<usize> = g.raw_edges().iter().map(|c| c.buffer.len()).collect();
    assert_eq!(again, sizes);
    g.prepare_buffers(4);
    assert!(g.raw_edges().iter().all(|c| c.buffer.len() == 4));
}

#[test]
fn cycle_through_path_rejected() {
    let mut g = Graph::new();
    let a = g.add_node(pass());
    let b = g.add_node(pass());
    let c = g.add_node(pass());
    g.add_connection(a, b).unwrap();
    g.add_connection(b, c).unwrap();
    assert_eq!(g.add_connection(c, a), Err(WouldCycle));
    assert_eq!(g.add_connection(a, a), Err(WouldCycle));
    assert_eq!(g.connection_count(), 2);
    assert_eq!(g.add_connection(a, c), Ok(2));
    assert_invariants(&g);
}

#[test]
fn master_is_always_a_node() {
    let (mut g, [m, a, _, c]) = three_oscillators();
    g.set_master(Some(99));
    assert_eq!(g.master_index(), None);
    g.set_master(Some(c));
    assert_eq!(g.master_index(), Some(c));
    // Removing `a` moves the last node, `c`, into its index, and the master with it.
    g.remove_node(a);
    assert_eq!(g.master_index(), Some(a));
    g.set_master(Some(m));
    g.remove_node(m);
    assert_eq!(g.master_index(), None);
    assert_invariants(&g);
}

#[test]
fn remove_node_drops_its_connections() {
    let (mut g, [m, a, b, c]) = three_oscillators();
    g.add_connection(a, b).unwrap();
    assert!(g.remove_node(b).is_some());
    // `c` now lives at `b`'s old index.
    assert_eq!(pairs_of(&g), vec![(a, m), (b, m)]);
    assert_eq!(g.node_count(), 3);
    assert!(g.remove_node(c).is_none());
    assert_invariants(&g);
}

#[test]
fn remove_edge_moves_last_connection() {
    let (mut g, [m, a, b, c]) = three_oscillators();
    assert_eq!(g.find_connection(a, m), Some(0));
    assert_eq!(g.find_connection(c, m), Some(2));
    assert!(g.remove_edge(0));
    assert_eq!(g.find_connection(c, m), Some(0));
    assert_eq!(g.find_connection(b, m), Some(1));
    assert_eq!(g.find_connection(a, m), None);
    assert!(!g.remove_edge(5));
    assert_invariants(&g);
}

#[test]
fn remove_connection_either_direction() {
    let (mut g, [m, a, b, _]) = three_oscillators();
    assert!(g.remove_connection(m, a));
    assert_eq!(g.find_connection(a, m), None);
    assert!(g.remove_connection(b, m));
    assert!(!g.remove_connection(a, b));
    assert_eq!(g.connection_count(), 1);
}

#[test]
fn walkers_yield_each_connection() {
    let (g, [m, a, b, c]) = three_oscillators();
    let mut inputs = g.inputs(m);
    let mut sources = Vec::new();
    while let Some(n) = inputs.next_node(&g) {
        sources.push(n);
    }
    sources.sort();
    assert_eq!(sources, vec![a, b, c]);
    let mut outputs = g.outputs(a);
    assert_eq!(outputs.next_node(&g), Some(m));
    assert_eq!(outputs.next_edge(&g), None);
    let mut edges = g.inputs(m);
    let mut seen = Vec::new();
    while let Some(e) = edges.next_edge(&g) {
        seen.push(e);
    }
    seen.sort();
    assert_eq!(seen, vec![0, 1, 2]);
}

#[test]
fn visit_order_respects_connections() {
    let mut g = Graph::new();
    let nodes: Vec<NodeIndex> = (0..5).map(|_| g.add_node(pass())).collect();
    for w in nodes.windows(2).rev() {
        g.add_connection(w[1], w[0]).unwrap();
    }
    assert_eq!(order_of(&g), vec![4, 3, 2, 1, 0]);
    let mut rev = g.visit_order_rev();
    assert_eq!(rev.next(&g), Some(0));
    assert_eq!(rev.next(&g), Some(1));
}

#[test]
fn add_input_and_output() {
    let mut g = Graph::new();
    let x = g.add_node(pass());
    let (e_in, src) = g.add_input(BasicNode::Constant(40), x);
    let (e_out, dest) = g.add_output(x, volume(0, UNITY));
    assert_eq!((e_in, src), (0, 1));
    assert_eq!((e_out, dest), (1, 2));
    assert_eq!(pairs_of(&g), vec![(0, 2), (1, 0)]);
    let mut buf = [0 as Sample; 2];
    g.audio_requested(&mut buf, 44100);
    assert_eq!(buf, [20; 2]);
    assert_invariants(&g);
}

#[test]
fn add_connections_batch() {
    let mut g = Graph::new();
    for _ in 0..4 {
        g.add_node(pass());
    }
    assert_eq!(g.add_connections(vec![(0, 1), (1, 2)]), Ok(0..2));
    assert_eq!(g.add_connections(vec![(2, 3), (3, 0)]), Err(WouldCycle));
    assert_eq!(g.connection_count(), 2);
    assert_eq!(pairs_of(&g), vec![(0, 1), (1, 2)]);
    assert_eq!(g.add_connections(vec![(2, 3), (0, 3)]), Ok(2..4));
    assert_invariants(&g);
}

#[test]
fn remove_all_connections_of_a_node() {
    let (mut g, [m, a, b, _]) = three_oscillators();
    g.add_connection(a, b).unwrap();
    assert_eq!(g.remove_all_input_connections(m), 3);
    assert_eq!(pairs_of(&g), vec![(a, b)]);
    assert_eq!(g.remove_all_output_connections(a), 1);
    assert_eq!(g.connection_count(), 0);
    assert_eq!(g.remove_all_output_connections(a), 0);
}

#[test]
fn clear_disconnected_removes_isolated_nodes() {
    let (mut g, [m, a, _, _]) = three_oscillators();
    g.add_node(pass());
    g.add_node(pass());
    g.remove_all_input_connections(m);
    g.add_connection(a, m).unwrap();
    assert_eq!(g.clear_disconnected(), 4);
    assert_eq!(g.node_count(), 2);
    assert_eq!(g.connection_count(), 1);
    assert_invariants(&g);
}

#[test]
fn clear_empties_graph() {
    let (mut g, _) = three_oscillators();
    g.clear();
    assert_eq!(g.node_count(), 0);
    assert_eq!(g.connection_count(), 0);
    assert_eq!(g.master_index(), None);
    assert!(order_of(&g).is_empty());
}

#[test]
fn node_access() {
    let (mut g, [m, a, b, _]) = three_oscillators();
    assert!(g.node(9).is_none());
    assert!(g.node_mut(9).is_none());
    assert!(g.connection(9).is_none());
    assert!(g.connection(0).is_some());
    assert_eq!(g.raw_nodes().len(), 4);
    let (x, y) = g.index_twice_mut(a, b);
    std::mem::swap(x, y);
    assert!(matches!(g.node(a), Some(BasicNode::Constant(1000))));
    assert!(matches!(g.node(m), Some(BasicNode::Pass)));
    for n in g.nodes_mut() {
        if let BasicNode::Constant(c) = n {
            *c = 1;
        }
    }
    let mut buf = [0 as Sample; 2];
    g.audio_requested(&mut buf, 44100);
    assert_eq!(buf, [3; 2]);
}

#[test]
fn render_fans_out_to_every_connection() {
    let mut g = Graph::new();
    let s = g.add_node(BasicNode::Constant(64));
    let x = g.add_node(pass());
    let y = g.add_node(pass());
    let z = g.add_node(pass());
    g.add_connection(s, x).unwrap();
    g.add_connection(s, y).unwrap();
    g.add_connection(x, z).unwrap();
    g.add_connection(y, z).unwrap();
    let mut buf = [0 as Sample; 5];
    g.audio_requested_from(z, &mut buf, 44100);
    assert_eq!(buf, [128; 5]);
    assert_eq!(g.connection(0).unwrap().buffer, vec![64; 5]);
    assert_eq!(g.connection(1).unwrap().buffer, vec![64; 5]);
}

#[test]
fn pass_through_node_keeps_input() {
    let mut g = Graph::new();
    let a = g.add_node(AltOsc::new(SoundStreamSettings::cd_quality()));
    let b = g.add_node(AltOsc::new(SoundStreamSettings::new(48000, 64, 1)));
    g.add_connection(a, b).unwrap();
    let mut buf = [5 as Sample; 3];
    g.audio_requested(&mut buf, 48000);
    assert_eq!(buf, [EQUILIBRIUM; 3]);
    let mut pass = AltOsc::new(SoundStreamSettings::cd_quality());
    let mut direct = [7 as Sample, -7];
    pass.audio_requested(&mut direct, 44100);
    assert_eq!(direct, [7, -7]);
    assert_eq!((pass.dry(), pass.wet()), (0, UNITY));
}

#[test]
fn basic_nodes_render() {
    let mut buf = [10 as Sample, -10, i32::MAX];
    BasicNode::Offset(5).audio_requested(&mut buf, 44100);
    assert_eq!(buf, [15, -5, i32::MAX]);
    BasicNode::Volume { gain: UNITY / 2, dry: 0, wet: UNITY }.audio_requested(&mut buf, 44100);
    assert_eq!(buf, [7, -2, i32::MAX / 2]);
    BasicNode::Constant(3).audio_requested(&mut buf, 44100);
    assert_eq!(buf, [3; 3]);
    BasicNode::Pass.audio_requested(&mut buf, 44100);
    assert_eq!(buf, [3; 3]);
    assert_eq!(BasicNode::Volume { gain: 1, dry: 2, wet: 3 }.dry(), 2);
    assert_eq!(BasicNode::Pass.wet(), UNITY);
}

#[test]
fn clear_disconnected_keeps_connected_nodes_and_connections() {
    let mut g = Graph::new();
    g.add_node(BasicNode::Constant(1));
    let a = g.add_node(BasicNode::Constant(2));
    let b = g.add_node(BasicNode::Offset(3));
    let _ = g.add_node(BasicNode::Constant(4));
    let c = g.add_node(BasicNode::Offset(5));
    g.add_connection(a, b).unwrap();
    g.add_connection(b, c).unwrap();
    g.set_master(Some(b));
    let mut buf = [0 as Sample; 2];
    g.audio_requested_from(c, &mut buf, 44100);
    let buffers_before: Vec<Vec<Sample>> = g.raw_edges().iter().map(|x| x.buffer.clone()).collect();
    assert_eq!(g.clear_disconnected(), 2);
    let mut data: Vec<BasicNode> = g.raw_nodes().to_vec();
    data.sort_by_key(|n| format!("{:?}", n));
    let mut expected = vec![BasicNode::Constant(2), BasicNode::Offset(3), BasicNode::Offset(5)];
    expected.sort_by_key(|n| format!("{:?}", n));
    assert_eq!(data, expected);
    let after: Vec<Vec<Sample>> = g.raw_edges().iter().map(|x| x.buffer.clone()).collect();
    assert_eq!(after, buffers_before);
    let m = g.master_index().unwrap();
    assert_eq!(g.node(m), Some(&BasicNode::Offset(3)));
    let mut out = [0 as Sample; 2];
    g.audio_requested(&mut out, 44100);
    assert_eq!(out, [5; 2]);
    assert_invariants(&g);
}

#[test]
fn clear_disconnected_clears_isolated_master() {
    let mut g = Graph::new();
    let a = g.add_node(BasicNode::Pass);
    let b = g.add_node(BasicNode::Pass);
    let c = g.add_node(BasicNode::Pass);
    g.add_connection(a, b).unwrap();
    g.set_master(Some(c));
    assert_eq!(g.clear_disconnected(), 1);
    assert_eq!(g.master_index(), None);
}

#[test]
fn add_then_remove_node_keeps_connection_indices() {
    let (mut g, _) = three_oscillators();
    let before = edges_of(&g);
    let master = g.master_index();
    let idx = g.add_node(BasicNode::Pass);
    assert_eq!(g.remove_node(idx), Some(BasicNode::Pass));
    assert_eq!(edges_of(&g), before);
    assert_eq!(g.master_index(), master);
}

#[test]
fn render_blends_dry_and_wet_of_each_node() {
    let mut g = Graph::new();
    let a = g.add_node(BasicNode::Constant(1000));
    let v = g.add_node(BasicNode::Volume { gain: UNITY / 2, dry: UNITY / 4, wet: UNITY / 2 });
    let o = g.add_node(BasicNode::Offset(7));
    g.add_connection(a, v).unwrap();
    g.add_connection(v, o).unwrap();
    let mut buf = [0 as Sample; 3];
    g.audio_requested(&mut buf, 44100);
    // v: wet 500 * 0.5 + dry 1000 * 0.25 = 500; o adds 7.
    assert_eq!(buf, [507; 3]);
    assert_eq!(g.connection(1).unwrap().buffer, vec![500; 3]);
}
