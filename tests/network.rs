use carnet::neural::{NeuralNetwork, Node, Reference, Simulation, OUTPUT_BIAS, UNIT};

fn node(refs: Vec<(usize, usize, i32)>, bias: i32) -> Node {
    let references = refs
        .into_iter()
        .map(|(layer, index, weight)| Reference { layer, index, weight })
        .collect::<Vec<_>>();
    Node { references: Some(references), bias: Some(bias), value: 0 }
}

fn is_orphan(net: &NeuralNetwork, l: usize, m: usize) -> bool {
    !net.layers.iter().flatten().any(|n| {
        n.references
            .as_ref()
            .map_or(false, |rs| rs.iter().any(|r| r.layer == l && r.index == m))
    })
}

fn shape(net: &NeuralNetwork) -> Vec<usize> {
    let mut v: Vec<usize> = net.layers.iter().map(|l| l.len()).collect();
    v.push(net.outputs.len());
    v
}

#[test]
fn end_to_end_three_networks() {
    let mut sim = Simulation::new(1, 3, 2, 2);
    assert_eq!(sim.networks.len(), 3);
    let mut first = Vec::new();
    for net in &mut sim.networks {
        assert_eq!(net.outputs.len(), 2);
        let out = net.update(&[100_000, 200_000]);
        assert_eq!(out.len(), 2);
        assert!(out.iter().all(|v| -UNIT <= *v && *v <= UNIT));
        first.push(out);
    }
    let mut again = Simulation::new(1, 3, 2, 2);
    let second: Vec<Vec<i32>> = again
        .networks
        .iter_mut()
        .map(|net| net.update(&[100_000, 200_000]))
        .collect();
    assert_eq!(first, second);
}

#[test]
fn same_seed_same_population() {
    let mut a = Simulation::new(7, 4, 3, 2);
    let mut b = Simulation::new(7, 4, 3, 2);
    assert_eq!(a, b);
    for input in [[1, 2, 3], [UNIT, -UNIT, 0], [5, 5, 5]] {
        for k in 0..4 {
            assert_eq!(a.networks[k].update(&input), b.networks[k].update(&input));
        }
    }
    assert_eq!(a.networks, b.networks);
}

#[test]
fn different_seeds_differ() {
    let a = Simulation::new(1, 2, 2, 2);
    let b = Simulation::new(2, 2, 2, 2);
    assert_ne!(a.networks, b.networks);
}

#[test]
fn hidden_nodes_are_well_formed() {
    let sim = Simulation::new(3, 20, 2, 3);
    for (k, net) in sim.networks.iter().enumerate() {
        assert_eq!(net.num, k);
        assert!(net.layers.len() >= 2 && net.layers.len() <= 6);
        assert!(net.layers[0].is_empty());
        for (i, layer) in net.layers.iter().enumerate().skip(1) {
            assert!(layer.len() >= 3 && layer.len() <= 99);
            for (j, n) in layer.iter().enumerate() {
                let b = n.bias.unwrap();
                assert!(-UNIT <= b && b <= UNIT);
                let refs = n.references.as_ref().unwrap();
                assert!(!refs.is_empty() && refs.len() <= 9);
                for r in refs {
                    assert!(r.layer <= i);
                    assert!(-UNIT <= r.weight && r.weight < UNIT);
                    if r.layer == i {
                        assert!(r.index < j || r.index == 0);
                    } else if r.layer == 0 {
                        assert_eq!(r.index, 0);
                    } else {
                        assert!(r.index < net.layers[r.layer].len());
                    }
                }
            }
        }
    }
}

#[test]
fn every_orphan_reaches_an_output() {
    for size in [1, 2, 5, 40] {
        let sim = Simulation::new(11, 5, 2, size);
        for net in &sim.networks {
            assert_eq!(net.outputs.len(), size);
            for (l, layer) in net.layers.iter().enumerate() {
                for m in 0..layer.len() {
                    if is_orphan(net, l, m) {
                        let found = net.outputs.iter().any(|o| {
                            o.references
                                .as_ref()
                                .map_or(false, |rs| rs.iter().any(|r| r.layer == l && r.index == m))
                        });
                        assert!(found);
                    }
                }
            }
            for o in &net.outputs {
                let b = o.bias.unwrap();
                assert!(-OUTPUT_BIAS <= b && b <= OUTPUT_BIAS);
                if let Some(rs) = &o.references {
                    assert!(!rs.is_empty());
                    for r in rs {
                        assert!(is_orphan(net, r.layer, r.index));
                        assert!(-UNIT <= r.weight && r.weight <= UNIT);
                    }
                }
            }
        }
    }
}

#[test]
fn updates_keep_shape_and_clamp_values() {
    let mut sim = Simulation::new(5, 3, 2, 2);
    for net in &mut sim.networks {
        let before = shape(net);
        for t in 0..4 {
            net.update(&[3 * UNIT, -2 * UNIT]);
            let after = shape(net);
            assert_eq!(after[0], 2 * (t + 1));
            assert_eq!(after[1..], before[1..]);
            for layer in net.layers.iter().skip(1) {
                assert!(layer.iter().all(|n| -UNIT <= n.value && n.value <= UNIT));
            }
            assert!(net.outputs.iter().all(|n| -UNIT <= n.value && n.value <= UNIT));
        }
    }
}

#[test]
fn zero_outputs_give_empty_result() {
    let mut sim = Simulation::new(9, 2, 1, 0);
    for net in &mut sim.networks {
        assert!(net.outputs.is_empty());
        assert_eq!(net.update(&[UNIT / 2]), Vec::<i32>::new());
    }
}

#[test]
fn weighted_sum_plus_bias() {
    let mut net = NeuralNetwork {
        num: 0,
        layers: vec![vec![], vec![node(vec![(0, 0, 500_000)], 100_000)]],
        outputs: vec![node(vec![(1, 0, UNIT)], 0)],
    };
    assert_eq!(net.update(&[UNIT]), vec![600_000]);
    assert_eq!(net.layers[1][0].value, 600_000);
    assert_eq!(net.layers[0].len(), 1);
}

#[test]
fn values_are_clamped() {
    let mut net = NeuralNetwork {
        num: 0,
        layers: vec![vec![], vec![node(vec![(0, 0, UNIT)], 0), node(vec![(0, 0, -UNIT)], 0)]],
        outputs: vec![node(vec![(1, 0, UNIT), (1, 1, UNIT)], 0)],
    };
    assert_eq!(net.update(&[4 * UNIT]), vec![0]);
    assert_eq!(net.layers[1][0].value, UNIT);
    assert_eq!(net.layers[1][1].value, -UNIT);
}

#[test]
fn negative_sums_round_down() {
    let mut net = NeuralNetwork {
        num: 0,
        layers: vec![vec![], vec![node(vec![(0, 0, 1)], 0)]],
        outputs: vec![],
    };
    net.update(&[-1]);
    assert_eq!(net.layers[1][0].value, -1);
}

#[test]
fn bias_only_when_no_references() {
    let mut net = NeuralNetwork {
        num: 0,
        layers: vec![vec![], vec![]],
        outputs: vec![Node { references: None, bias: Some(-OUTPUT_BIAS), value: 0 }],
    };
    assert_eq!(net.update(&[1]), vec![-OUTPUT_BIAS]);
}

#[test]
fn later_same_layer_node_is_read_stale() {
    let mut net = NeuralNetwork {
        num: 0,
        layers: vec![
            vec![],
            vec![node(vec![(1, 1, UNIT)], 0), node(vec![(0, 0, UNIT)], 0)],
        ],
        outputs: vec![node(vec![(1, 0, UNIT)], 0)],
    };
    assert_eq!(net.update(&[UNIT / 2]), vec![0]);
    assert_eq!(net.layers[1][1].value, UNIT / 2);
    assert_eq!(net.update(&[UNIT / 4]), vec![UNIT / 2]);
}

#[test]
fn inputs_accumulate_in_layer_zero() {
    let mut net = NeuralNetwork {
        num: 0,
        layers: vec![vec![], vec![node(vec![(0, 0, UNIT)], 0)]],
        outputs: vec![],
    };
    net.update(&[1, 2]);
    net.update(&[3]);
    let values: Vec<i32> = net.layers[0].iter().map(|n| n.value).collect();
    assert_eq!(values, vec![1, 2, 3]);
    assert!(net.layers[0].iter().all(|n| n.bias.is_none() && n.references.is_none()));
}

#[test]
fn input_node_from_integer() {
    let n = Node::from(42);
    assert_eq!(n, Node { references: None, bias: None, value: 42 });
}

#[test]
fn export_writes_dot_text() {
    let net = NeuralNetwork {
        num: 0,
        layers: vec![
            vec![Node::from(5)],
            vec![Node { references: Some(vec![Reference { layer: 0, index: 0, weight: 1 }]), bias: Some(0), value: -3 }],
        ],
        outputs: vec![Node { references: Some(vec![Reference { layer: 1, index: 0, weight: 1 }]), bias: Some(0), value: 7 }],
    };
    let expected = "digraph {\n\
        \t00 [label=\"0,05\"]\n\
        \t10 [label=\"1,0-3\"]\n\
        \t10 -> 00\n\
        \t20 [label=\"2,07\"]\n\
        \t20 -> 10\n\
        \tsubgraph subs {\t\trank=\"same\"\t\t20\t}}\n";
    assert_eq!(String::from_utf8(net.export_dot()).unwrap(), expected);
}

#[test]
fn generation_draws_vary() {
    let sim = Simulation::new(21, 30, 1, 1);
    let mut depths: Vec<usize> = sim.networks.iter().map(|n| n.layers.len()).collect();
    depths.sort();
    depths.dedup();
    assert!(depths.len() > 1);
    let widths: Vec<usize> = sim.networks.iter().map(|n| n.layers[1].len()).collect();
    assert!(widths.iter().any(|w| *w != widths[0]));
}
