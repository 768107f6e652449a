use set_genome::distance::DISTANCE_ONE;
use set_genome::{Activation, CompatibilityDistance, Connection, Genes, Genome, Id, Node, WEIGHT_ONE};

fn genome_of(hidden: Vec<Node>, feed_forward: Vec<Connection>) -> Genome {
    Genome {
        inputs: Genes::from_vec(vec![Node::input(Id(0), 0)]),
        hidden: Genes::from_vec(hidden),
        outputs: Genes::from_vec(vec![Node::output(Id(1), 0, Activation::Linear)]),
        feed_forward: Genes::from_vec(feed_forward),
        recurrent: Genes::new(),
    }
}

fn factor(x: f64) -> u32 {
    (x * DISTANCE_ONE as f64) as u32
}

fn as_real(x: u64) -> f64 {
    x as f64 / DISTANCE_ONE as f64
}

#[test]
fn compatability_distance_same_genome() {
    let genome_0 = genome_of(vec![], vec![Connection::new(Id(0), WEIGHT_ONE, Id(1))]);

    let genome_1 = genome_0.clone();

    let delta = CompatibilityDistance::compatability_distance(&genome_0, &genome_1, factor(1.0), factor(0.4), factor(0.0), WEIGHT_ONE).0;

    assert!(as_real(delta).abs() < f64::EPSILON);
}

#[test]
fn compatability_distance_different_weight_genome() {
    let genome_0 = genome_of(vec![], vec![Connection::new(Id(0), 0, Id(1))]);

    let mut genome_1 = genome_0.clone();

    genome_1.feed_forward.replace(Connection::new(Id(0), WEIGHT_ONE, Id(1)));

    let factor_weight = 2.0;

    let delta = CompatibilityDistance::compatability_distance(&genome_0, &genome_1, factor(0.0), factor(factor_weight), factor(0.0), WEIGHT_ONE).0;

    // factor 2 times 2 expressed difference over 2 possible difference over factor 2
    assert!((as_real(delta) - factor_weight * 1.0 / 2.0 / factor_weight).abs() < f64::EPSILON);
}

#[test]
fn compatability_distance_different_connection_genome() {
    let genome_0 = genome_of(vec![], vec![Connection::new(Id(0), WEIGHT_ONE, Id(1))]);

    let mut genome_1 = genome_0.clone();

    genome_1.feed_forward.insert(Connection::new(Id(0), WEIGHT_ONE, Id(2)));
    genome_1.feed_forward.insert(Connection::new(Id(2), 2 * WEIGHT_ONE, Id(1)));

    // weights up to 2.0 occur, so the cap is 2.0
    let delta =
        CompatibilityDistance::compatability_distance(&genome_0, &genome_1, factor(2.0), factor(0.0), factor(0.0), 2 * WEIGHT_ONE).0;

    // factor 2 times 2 different genes over 3 total genes over factor 2, to six places
    assert!((as_real(delta) - 2.0 * 2.0 / 3.0 / 2.0).abs() < 1e-6);
}

#[test]
fn distance_terms_exact() {
    let genome_0 = genome_of(vec![], vec![Connection::new(Id(0), 0, Id(1))]);
    let mut genome_1 = genome_0.clone();
    genome_1.feed_forward.replace(Connection::new(Id(0), WEIGHT_ONE, Id(1)));
    assert_eq!(
        CompatibilityDistance::compatability_distance(&genome_0, &genome_1, 0, 2_000_000, 0, WEIGHT_ONE),
        (500_000, 0, 1_000_000, 0)
    );

    let mut genome_2 = genome_0.clone();
    genome_2.feed_forward.insert(Connection::new(Id(0), 0, Id(2)));
    genome_2.feed_forward.insert(Connection::new(Id(2), 0, Id(1)));
    assert_eq!(
        CompatibilityDistance::compatability_distance(&genome_0, &genome_2, 2_000_000, 0, 0, WEIGHT_ONE),
        (666_666, 1_333_333, 0, 0)
    );
}

#[test]
fn distance_to_self_is_zero() {
    let genome = genome_of(
        vec![Node::hidden(Id(2), Activation::Tanh)],
        vec![Connection::new(Id(0), 300_000, Id(2)), Connection::new(Id(2), -700_000, Id(1))],
    );
    assert_eq!(CompatibilityDistance::compatability_distance(&genome, &genome, 7, 11, 13, WEIGHT_ONE), (0, 0, 0, 0));
    assert_eq!(CompatibilityDistance::with_factors(1, 2, 3, WEIGHT_ONE).between(&genome, &genome), 0);
}

#[test]
fn activation_term_counts_mismatches() {
    let genome_0 = genome_of(
        vec![Node::hidden(Id(2), Activation::Tanh), Node::hidden(Id(3), Activation::Relu)],
        vec![],
    );
    let genome_1 = genome_of(
        vec![Node::hidden(Id(2), Activation::Sine), Node::hidden(Id(3), Activation::Relu)],
        vec![],
    );
    // one mismatch over two matching nodes; no connections at all
    assert_eq!(
        CompatibilityDistance::compatability_distance(&genome_0, &genome_1, 0, 0, 1_000_000, WEIGHT_ONE),
        (500_000, 0, 0, 500_000)
    );
}

#[test]
fn weight_term_uses_the_configured_cap() {
    let genome_0 = genome_of(vec![], vec![Connection::new(Id(0), 0, Id(1))]);
    let mut genome_1 = genome_0.clone();
    genome_1.feed_forward.replace(Connection::new(Id(0), 2 * WEIGHT_ONE, Id(1)));
    // a difference of 2.0 over the largest possible, 2 * 4.0
    assert_eq!(
        CompatibilityDistance::compatability_distance(&genome_0, &genome_1, 0, 1_000_000, 0, 4 * WEIGHT_ONE),
        (250_000, 0, 250_000, 0)
    );
    // the distance does not depend on the order of the genomes
    assert_eq!(
        CompatibilityDistance::compatability_distance(&genome_1, &genome_0, 0, 1_000_000, 0, 4 * WEIGHT_ONE),
        (250_000, 0, 250_000, 0)
    );
}
