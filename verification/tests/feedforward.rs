use neat::activations::{activate, linear, relu, sigmoid, tanh, ActivationKind};
use neat::innovation_record::InnovationRecord;
use neat::network::feedforward::Feedforward;
use neat::network::network_graph::NetworkGraph;
use neat::network::Network;
use neat::node_data::NodeData;
use neat::node_kind::NodeKind;
use neat::scalar::{Arithmetic, Scalar};
use rand::distributions::{Distribution, Open01, Uniform};
use rand::rngs::StdRng;
use rand::SeedableRng;
use std::cmp::Ordering;

fn enc(x: f64) -> Scalar {
    Scalar::from_bits(x.to_bits())
}

fn dec(x: Scalar) -> f64 {
    f64::from_bits(x.to_bits())
}

struct Doubles;

impl Arithmetic for Doubles {
    fn plus(&self, a: Scalar, b: Scalar) -> Scalar {
        enc(dec(a) + dec(b))
    }

    fn minus(&self, a: Scalar, b: Scalar) -> Scalar {
        enc(dec(a) - dec(b))
    }

    fn times(&self, a: Scalar, b: Scalar) -> Scalar {
        enc(dec(a) * dec(b))
    }

    fn over(&self, a: Scalar, b: Scalar) -> Scalar {
        enc(dec(a) / dec(b))
    }

    fn exp(&self, x: Scalar) -> Scalar {
        enc(std::f64::consts::E.powf(dec(x)))
    }

    fn tanh(&self, x: Scalar) -> Scalar {
        enc(dec(x).tanh())
    }

    fn from_count(&self, n: usize) -> Scalar {
        enc(n as f64)
    }

    fn floor_count(&self, x: Scalar) -> usize {
        dec(x).floor() as usize
    }

    fn ceil_count(&self, x: Scalar) -> usize {
        dec(x).ceil() as usize
    }

    fn open01(&self, rng: &mut StdRng) -> Scalar {
        enc(Open01.sample(rng))
    }

    fn uniform(&self, low: Scalar, high: Scalar, rng: &mut StdRng) -> Scalar {
        enc(Uniform::new(dec(low), dec(high)).sample(rng))
    }
}

fn squash(s: f64) -> f64 {
    1.0 / (1.0 + std::f64::consts::E.powf(-s))
}

fn fresh(input_number: usize, output_number: usize, innov_record: &mut InnovationRecord) -> Feedforward {
    Feedforward::new(
        input_number,
        output_number,
        ActivationKind::Sigmoid,
        ActivationKind::Sigmoid,
        innov_record,
    )
}

fn run(network: &mut Feedforward, inputs: &[f64]) -> Option<Vec<f64>> {
    let inputs: Vec<Scalar> = inputs.iter().map(|&x| enc(x)).collect();
    network.activate(&inputs, &Doubles).map(|v| v.into_iter().map(dec).collect())
}

#[test]
fn initial_network_activation_should_sum_input_and_squash() {
    let input_number = 2;
    let output_number = 1;
    let mut innov_record = InnovationRecord::new(input_number, output_number);
    let mut network = fresh(input_number, output_number, &mut innov_record);
    assert_eq!(run(&mut network, &[1.0, 2.0]), Some(vec![squash(1.0 + 2.0)]));
}

#[test]
fn disconnected_graph_should_result_zero() {
    let input_number = 1;
    let output_number = 1;

    let mut innov_record = InnovationRecord::new(input_number, output_number);
    let mut graph = NetworkGraph::new(input_number, output_number, &mut innov_record);
    graph.add_node(0, &mut innov_record);
    graph.remove_connetion(1);

    let mut network =
        Feedforward::from_graph(graph, ActivationKind::Sigmoid, ActivationKind::Sigmoid);

    assert_eq!(run(&mut network, &[0.0]), Some(vec![0.0]));
    assert_eq!(run(&mut network, &[1.0]), Some(vec![0.0]));
}

#[test]
fn disabled_connection_should_not_propagate() {
    let input_number = 2;
    let output_number = 1;
    let mut innov_record = InnovationRecord::new(input_number, output_number);
    let mut network = fresh(input_number, output_number, &mut innov_record);
    assert!(network.mutate_add_node(0, &mut innov_record));

    assert_eq!(run(&mut network, &[1.0, 2.0]), Some(vec![squash(squash(1.0) + 2.0)]));
}

#[test]
fn activation_result_should_be_consistent() {
    let mut innov_record = InnovationRecord::new(2, 1);
    let mut network = fresh(2, 1, &mut innov_record);

    assert_eq!(run(&mut network, &[1.0, 2.0]), Some(vec![squash(1.0 + 2.0)]));
    assert_eq!(run(&mut network, &[1.0, 2.0]), Some(vec![squash(1.0 + 2.0)]));
}

#[test]
fn bias_node_should_sum_weight_as_is() {
    let input_number = 2;
    let output_number = 1;
    let mut innov_record = InnovationRecord::new(input_number, output_number);
    let mut network = fresh(input_number, output_number, &mut innov_record);
    assert!(network.mutate_add_connection(3, 2, enc(-3.0), &mut innov_record));

    assert_eq!(run(&mut network, &[1.0, 2.0]), Some(vec![squash(0.0)]));
}

#[test]
fn mutate_add_connection_should_connect_nodes() {
    let mut innov_record = InnovationRecord::new(2, 1);
    let mut network = fresh(2, 1, &mut innov_record);
    assert!(network.mutate_add_node(0, &mut innov_record));
    assert!(network.mutate_add_connection(1, 4, enc(2.0), &mut innov_record));

    assert_eq!(run(&mut network, &[1.0, 2.0]), Some(vec![squash(squash(5.0) + 2.0)]));
}

#[test]
fn mutate_add_connection_should_be_unique() {
    let mut innov_record = InnovationRecord::new(2, 1);
    let mut network = fresh(2, 1, &mut innov_record);
    assert_eq!(network.mutate_add_connection(0, 2, enc(1.0), &mut innov_record), false);
}

#[test]
fn mutate_add_connection_should_not_form_cycle() {
    let input_number = 2;
    let output_number = 1;
    let mut innov_record = InnovationRecord::new(input_number, output_number);
    let mut network = fresh(input_number, output_number, &mut innov_record);
    assert!(network.mutate_add_node(0, &mut innov_record));
    assert!(network.mutate_add_node(1, &mut innov_record));
    assert!(network.mutate_add_connection(4, 5, enc(1.0), &mut innov_record));
    assert_eq!(network.mutate_add_connection(5, 4, enc(1.0), &mut innov_record), false);
}

#[test]
fn mutate_add_connection_should_start_or_end_at_valid_node() {
    let input_number = 2;
    let output_number = 1;
    let mut innov_record = InnovationRecord::new(input_number, output_number);
    let mut network = fresh(input_number, output_number, &mut innov_record);
    assert!(network.mutate_add_node(0, &mut innov_record));
    assert_eq!(network.mutate_add_connection(2, 4, enc(1.0), &mut innov_record), false);

    assert_eq!(network.mutate_add_connection(4, 0, enc(1.0), &mut innov_record), false);

    assert_eq!(network.mutate_add_connection(4, 3, enc(1.0), &mut innov_record), false);
}

#[test]
fn refused_connection_leaves_graph_unchanged() {
    let mut innov_record = InnovationRecord::new(2, 1);
    let mut network = fresh(2, 1, &mut innov_record);
    assert!(network.mutate_add_node(0, &mut innov_record));
    assert!(network.mutate_add_node(1, &mut innov_record));
    assert!(network.mutate_add_connection(4, 5, enc(1.0), &mut innov_record));
    let edges = network.graph().edge_count();
    let ends: Vec<(usize, usize)> =
        (0..edges).map(|e| network.graph().edge_endpoints(e)).collect();
    assert!(!network.mutate_add_connection(5, 4, enc(1.0), &mut innov_record));
    assert!(!network.mutate_add_connection(4, 4, enc(1.0), &mut innov_record));
    assert!(!network.mutate_add_connection(4, 99, enc(1.0), &mut innov_record));
    assert!(!network.mutate_add_connection(99, 4, enc(1.0), &mut innov_record));
    assert_eq!(network.graph().edge_count(), edges);
    let after: Vec<(usize, usize)> =
        (0..edges).map(|e| network.graph().edge_endpoints(e)).collect();
    assert_eq!(after, ends);
    assert!(!network.graph().has_cycle());
}

#[test]
fn activation_rejects_wrong_number_of_inputs() {
    let mut innov_record = InnovationRecord::new(2, 1);
    let mut network = fresh(2, 1, &mut innov_record);
    assert_eq!(run(&mut network, &[1.0]), None);
    assert_eq!(run(&mut network, &[1.0, 2.0, 3.0]), None);
    assert_eq!(run(&mut network, &[]), None);
}

#[test]
fn xor_inputs_on_initial_network() {
    let mut innov_record = InnovationRecord::new(2, 1);
    let mut network = fresh(2, 1, &mut innov_record);
    let out = run(&mut network, &[1.0, 1.0]).unwrap();
    assert_eq!(out, vec![squash(2.0)]);
    assert!((out[0] - 0.8808).abs() < 1e-4);
}

#[test]
fn activation_leaves_no_trace() {
    let mut innov_record = InnovationRecord::new(2, 2);
    let mut network = fresh(2, 2, &mut innov_record);
    network.mutate_add_node(0, &mut innov_record);
    let first = run(&mut network, &[0.3, -0.7]).unwrap();
    for i in 0..network.graph().node_count() {
        let node = network.graph().node(i);
        assert_eq!(node, NodeData::new(node.kind(), node.id()));
    }
    let second = run(&mut network, &[0.3, -0.7]).unwrap();
    assert_eq!(first, second);
    assert_eq!(first.len(), 2);
}

#[test]
fn hidden_and_output_functions_are_applied() {
    let mut innov_record = InnovationRecord::new(1, 1);
    let mut network =
        Feedforward::new(1, 1, ActivationKind::Relu, ActivationKind::Linear, &mut innov_record);
    network.mutate_add_node(0, &mut innov_record);
    assert_eq!(run(&mut network, &[2.5]), Some(vec![2.5]));
    assert_eq!(run(&mut network, &[-2.5]), Some(vec![0.0]));
    let mut network =
        Feedforward::new(1, 1, ActivationKind::Tanh, ActivationKind::Tanh, &mut innov_record);
    network.mutate_add_node(0, &mut innov_record);
    assert_eq!(run(&mut network, &[0.5]), Some(vec![0.5f64.tanh().tanh()]));
}

#[test]
fn activation_functions_compute() {
    assert_eq!(dec(sigmoid(enc(0.0), &Doubles)), 0.5);
    assert_eq!(dec(sigmoid(enc(2.0), &Doubles)), squash(2.0));
    assert_eq!(dec(tanh(enc(1.0), &Doubles)), 1.0f64.tanh());
    assert_eq!(dec(linear(enc(-4.25))), -4.25);
    assert_eq!(dec(relu(enc(3.5))), 3.5);
    assert_eq!(dec(relu(enc(-3.5))), 0.0);
    assert_eq!(dec(relu(enc(f64::NAN))), 0.0);
    assert_eq!(dec(activate(ActivationKind::Sigmoid, enc(1.0), &Doubles)), squash(1.0));
    assert_eq!(dec(activate(ActivationKind::Tanh, enc(1.0), &Doubles)), 1.0f64.tanh());
    assert_eq!(dec(activate(ActivationKind::Linear, enc(1.5), &Doubles)), 1.5);
    assert_eq!(dec(activate(ActivationKind::Relu, enc(-1.5), &Doubles)), 0.0);
}

#[test]
fn node_passes_on_what_it_should() {
    let ops = Doubles;
    let mut input = NodeData::new(NodeKind::Input, 0);
    assert_eq!(input.activate(ActivationKind::Sigmoid, &ops), Some(enc(0.0)));
    input.add_input(enc(2.0), &ops);
    assert_eq!(input.activate(ActivationKind::Sigmoid, &ops), Some(enc(2.0)));
    let mut hidden = NodeData::new(NodeKind::Hidden, 7);
    assert_eq!(hidden.activate(ActivationKind::Sigmoid, &ops), None);
    hidden.add_input(enc(1.0), &ops);
    hidden.add_input(enc(1.0), &ops);
    assert_eq!(hidden.activate(ActivationKind::Sigmoid, &ops), Some(enc(squash(2.0))));
    hidden.clear_sum();
    assert_eq!(hidden, NodeData::new(NodeKind::Hidden, 7));
    let output = NodeData::new(NodeKind::Output, 2);
    assert_eq!(output.activate(ActivationKind::Sigmoid, &ops), Some(enc(0.0)));
    assert_eq!(output.kind(), NodeKind::Output);
    assert_eq!(output.id(), 2);
}

#[test]
fn mutations_report_whether_they_applied() {
    let mut innov_record = InnovationRecord::new(2, 1);
    let mut network = fresh(2, 1, &mut innov_record);
    assert!(!network.mutate_toggle_connection(2));
    assert!(network.mutate_toggle_connection(1));
    assert!(network.graph().edge(1).is_disabled());
    assert!(network.mutate_toggle_connection(1));
    assert!(!network.graph().edge(1).is_disabled());
    assert!(!network.mutate_assign_weight(5, enc(0.5)));
    assert!(network.mutate_assign_weight(0, enc(0.5)));
    assert_eq!(dec(network.graph().edge(0).get_weight()), 0.5);
    assert!(network.mutate_perturb_weight(0, enc(0.25), enc(-1.0), enc(1.0), &Doubles));
    assert_eq!(dec(network.graph().edge(0).get_weight()), 0.75);
    assert!(network.mutate_perturb_weight(0, enc(5.0), enc(-1.0), enc(1.0), &Doubles));
    assert_eq!(dec(network.graph().edge(0).get_weight()), 1.0);
    assert!(network.mutate_perturb_weight(0, enc(-5.0), enc(-1.0), enc(1.0), &Doubles));
    assert_eq!(dec(network.graph().edge(0).get_weight()), -1.0);
    assert!(!network.mutate_perturb_weight(9, enc(-5.0), enc(-1.0), enc(1.0), &Doubles));
    assert!(!network.mutate_remove_node(0, &mut innov_record));
    assert!(!network.mutate_remove_node(2, &mut innov_record));
    assert!(!network.mutate_remove_node(3, &mut innov_record));
    assert!(!network.mutate_remove_node(4, &mut innov_record));
    assert!(!network.mutate_add_node(2, &mut innov_record));
    assert!(network.mutate_add_node(1, &mut innov_record));
    assert!(network.mutate_remove_node(4, &mut innov_record));
    assert_eq!(network.graph().node_count(), 4);
    assert!(!network.mutate_remove_connection(7));
    assert!(network.mutate_remove_connection(0));
}

#[test]
fn fitness_orders_networks() {
    let mut innov_record = InnovationRecord::new(2, 1);
    let mut a = fresh(2, 1, &mut innov_record);
    let mut b = fresh(2, 1, &mut innov_record);
    assert_eq!(a.fitness(), None);
    assert_eq!(a.compare(&b), Some(Ordering::Equal));
    a.evaluate(enc(1.5));
    assert_eq!(a.fitness(), Some(enc(1.5)));
    assert_eq!(a.compare(&b), Some(Ordering::Greater));
    assert_eq!(b.compare(&a), Some(Ordering::Less));
    b.evaluate(enc(-2.0));
    assert_eq!(a.compare(&b), Some(Ordering::Greater));
    assert_eq!(b.compare(&a), Some(Ordering::Less));
    b.evaluate(enc(1.5));
    assert_eq!(a.compare(&b), Some(Ordering::Equal));
    b.evaluate(enc(f64::NAN));
    assert_eq!(a.compare(&b), None);
    b.evaluate(enc(-0.0));
    a.evaluate(enc(0.0));
    assert_eq!(a.compare(&b), Some(Ordering::Equal));
}

#[test]
fn crossover_goes_by_the_fitness_of_both_sides() {
    let mut innov_record = InnovationRecord::new(2, 1);
    let mut a = fresh(2, 1, &mut innov_record);
    let mut b = fresh(2, 1, &mut innov_record);
    b.mutate_add_node(0, &mut innov_record);
    let mut rng = StdRng::seed_from_u64(5);
    let kind = ActivationKind::Sigmoid;
    a.evaluate(enc(1.0));
    b.evaluate(enc(2.0));
    let child = a.crossover(&b, kind, kind, &mut rng).unwrap();
    assert_eq!(child.fitness(), None);
    assert_eq!(child.graph().edge_count(), 4);
    let child = b.crossover(&a, kind, kind, &mut rng).unwrap();
    assert_eq!(child.graph().edge_count(), 4);
    a.evaluate(enc(2.0));
    let child = a.crossover(&b, kind, kind, &mut rng).unwrap();
    assert_eq!(child.graph().edge_count(), 2);
    let copy = b.duplicate();
    assert_eq!(copy.fitness(), Some(enc(2.0)));
    assert_eq!(copy.graph().edge_count(), 4);
}

#[test]
fn connections_that_break_the_rules_are_refused() {
    let mut innov_record = InnovationRecord::new(2, 1);
    let mut network = fresh(2, 1, &mut innov_record);
    // nodes 0, 1: inputs; 2: output; 3: bias; 4: hidden, on the way 0 -> 4 -> 2
    assert!(network.mutate_add_node(0, &mut innov_record));
    assert_eq!(network.graph().node(4).kind(), NodeKind::Hidden);
    assert_eq!(network.graph().edge_endpoints(2), (0, 4));
    assert_eq!(network.graph().edge_endpoints(3), (4, 2));
    // into an input
    assert!(!network.mutate_add_connection(4, 0, enc(0.5), &mut innov_record));
    // out of an output
    assert!(!network.mutate_add_connection(2, 4, enc(0.5), &mut innov_record));
    // node 5 on the way 1 -> 5 -> 2
    assert!(network.mutate_add_node(1, &mut innov_record));
    assert_eq!(network.graph().node_count(), 6);
    assert!(network.mutate_add_connection(5, 4, enc(0.5), &mut innov_record));
    // would close the cycle 4 -> 5 -> 4
    assert!(!network.mutate_add_connection(4, 5, enc(0.5), &mut innov_record));
    assert!(!network.graph().has_cycle());
    assert_eq!(network.graph().edge_count(), 7);
}

#[test]
fn squashing_functions_are_kept_by_copies_and_given_to_children() {
    let mut innov_record = InnovationRecord::new(2, 1);
    let mut linear = Feedforward::new(
        2,
        1,
        ActivationKind::Linear,
        ActivationKind::Linear,
        &mut innov_record,
    );
    assert_eq!(run(&mut linear, &[1.0, 2.0]), Some(vec![3.0]));
    let mut copy = linear.duplicate();
    assert_eq!(run(&mut copy, &[1.0, 2.0]), Some(vec![3.0]));
    let mut cut = Feedforward::new(2, 1, ActivationKind::Linear, ActivationKind::Relu, &mut innov_record);
    assert_eq!(run(&mut cut, &[1.0, -2.0]), Some(vec![0.0]));
    // a hidden node squashes with the hidden function, the output with its own
    let mut graph = NetworkGraph::new(1, 1, &mut innov_record);
    graph.add_node(0, &mut innov_record);
    let mut split = Feedforward::from_graph(graph, ActivationKind::Relu, ActivationKind::Linear);
    assert_eq!(run(&mut split, &[-2.0]), Some(vec![0.0]));
    assert_eq!(run(&mut split, &[2.0]), Some(vec![2.0]));
    // a child squashes as it is told to, whatever its parents do
    let mut a = fresh(2, 1, &mut innov_record);
    let mut b = fresh(2, 1, &mut innov_record);
    a.evaluate(enc(1.0));
    b.evaluate(enc(1.0));
    let mut rng = StdRng::seed_from_u64(8);
    let mut child = a
        .crossover(&b, ActivationKind::Linear, ActivationKind::Linear, &mut rng)
        .unwrap();
    assert_eq!(run(&mut child, &[1.0, 2.0]), Some(vec![3.0]));
    let mut child = a
        .crossover(&b, ActivationKind::Sigmoid, ActivationKind::Sigmoid, &mut rng)
        .unwrap();
    assert_eq!(run(&mut child, &[1.0, 2.0]), Some(vec![squash(3.0)]));
}
