use neat::network_internal::NetworkInternal;
use neat::node::Node;
use neat::node_kind::NodeKind;
use neat::scalar::{Arithmetic, Scalar};
use rand::distributions::{Distribution, Open01, Uniform};
use rand::rngs::StdRng;
use rand::SeedableRng;

fn bits(x: f64) -> Scalar {
    Scalar::from_bits(x.to_bits())
}

fn value(x: Scalar) -> f64 {
    f64::from_bits(x.to_bits())
}

struct Plain;

impl Arithmetic for Plain {
    fn plus(&self, a: Scalar, b: Scalar) -> Scalar {
        bits(value(a) + value(b))
    }

    fn minus(&self, a: Scalar, b: Scalar) -> Scalar {
        bits(value(a) - value(b))
    }

    fn times(&self, a: Scalar, b: Scalar) -> Scalar {
        bits(value(a) * value(b))
    }

    fn over(&self, a: Scalar, b: Scalar) -> Scalar {
        bits(value(a) / value(b))
    }

    fn exp(&self, x: Scalar) -> Scalar {
        bits(std::f64::consts::E.powf(value(x)))
    }

    fn tanh(&self, x: Scalar) -> Scalar {
        bits(value(x).tanh())
    }

    fn from_count(&self, n: usize) -> Scalar {
        bits(n as f64)
    }

    fn floor_count(&self, x: Scalar) -> usize {
        value(x).floor() as usize
    }

    fn ceil_count(&self, x: Scalar) -> usize {
        value(x).ceil() as usize
    }

    fn open01(&self, rng: &mut StdRng) -> Scalar {
        bits(Open01.sample(rng))
    }

    fn uniform(&self, low: Scalar, high: Scalar, rng: &mut StdRng) -> Scalar {
        bits(Uniform::new(value(low), value(high)).sample(rng))
    }
}

fn kinds_of(network: &NetworkInternal) -> Vec<Node> {
    (0..network.node_count()).map(|i| Node { kind: network.node(i).kind() }).collect()
}

fn wiring_of(network: &NetworkInternal) -> Vec<(usize, usize)> {
    (0..network.edge_count())
        .map(|e| {
            let edge = network.edge(e);
            (edge.0, edge.1)
        })
        .collect()
}

#[test]
fn network_initialization() {
    let network = NetworkInternal::new(2, 2);

    let nodes: Vec<Node> =
        [NodeKind::Input, NodeKind::Input, NodeKind::Output, NodeKind::Output]
            .iter()
            .map(|&kind| Node { kind })
            .collect();

    assert_eq!(kinds_of(&network), nodes);
    assert_eq!(wiring_of(&network), vec![(0, 2), (0, 3), (1, 2), (1, 3)]);
}

#[test]
fn adding_hidden_node() {
    let mut network = NetworkInternal::new(2, 1);
    network.add_hidden_node(0);

    let nodes: Vec<Node> =
        [NodeKind::Input, NodeKind::Input, NodeKind::Output, NodeKind::Hidden]
            .iter()
            .map(|&kind| Node { kind })
            .collect();

    assert_eq!(kinds_of(&network), nodes);
    assert_eq!(wiring_of(&network), vec![(0, 2), (1, 2), (0, 3), (3, 2)]);
}

#[test]
fn hidden_node_takes_over_the_weight() {
    let mut network = NetworkInternal::new(1, 1);
    assert_eq!(value(network.edge(0).2.get_weight()), 0.0);
    let mut rng = StdRng::seed_from_u64(8);
    network.randomize_weights(&Plain, &mut rng);
    let weight = value(network.edge(0).2.get_weight());
    assert!(-1.0 <= weight && weight < 1.0 && weight != 0.0);
    network.add_hidden_node(0);
    assert!(network.edge(0).2.is_disabled());
    assert_eq!(value(network.edge(1).2.get_weight()), weight);
    assert!(!network.edge(1).2.is_disabled());
    assert_eq!(value(network.edge(2).2.get_weight()), 1.0);
    assert_eq!(network.node(2).kind(), NodeKind::Hidden);
}
