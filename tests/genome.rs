use set_genome::{Activation, Connection, Genes, Genome, GenomeRng, Id, IdGenerator, Mutations, Node, Parameters, WEIGHT_ONE};

fn rng() -> GenomeRng {
    GenomeRng::new(42, (WEIGHT_ONE / 10) as u64, WEIGHT_ONE)
}

fn genome_of(inputs: Vec<Node>, hidden: Vec<Node>, outputs: Vec<Node>, feed_forward: Vec<Connection>, recurrent: Vec<Connection>) -> Genome {
    Genome {
        inputs: Genes::from_vec(inputs),
        hidden: Genes::from_vec(hidden),
        outputs: Genes::from_vec(outputs),
        feed_forward: Genes::from_vec(feed_forward),
        recurrent: Genes::from_vec(recurrent),
    }
}

#[test]
fn find_alternative_input() {
    let genome = genome_of(
        vec![Node::new(Id(0), Activation::Linear), Node::new(Id(1), Activation::Linear)],
        vec![],
        vec![Node::new(Id(2), Activation::Linear)],
        vec![Connection::new(Id(0), WEIGHT_ONE, Id(2)), Connection::new(Id(1), WEIGHT_ONE, Id(2))],
        vec![],
    );

    assert!(genome.has_alternative_input(Id(2), Id(1)))
}

#[test]
fn find_no_alternative_input() {
    let genome = genome_of(
        vec![Node::new(Id(0), Activation::Linear)],
        vec![],
        vec![Node::new(Id(1), Activation::Linear)],
        vec![Connection::new(Id(0), WEIGHT_ONE, Id(1))],
        vec![],
    );

    assert!(!genome.has_alternative_input(Id(1), Id(0)))
}

#[test]
fn find_alternative_output() {
    let genome = genome_of(
        vec![Node::new(Id(0), Activation::Linear)],
        vec![],
        vec![Node::new(Id(2), Activation::Linear), Node::new(Id(1), Activation::Linear)],
        vec![Connection::new(Id(0), WEIGHT_ONE, Id(1)), Connection::new(Id(0), WEIGHT_ONE, Id(2))],
        vec![],
    );

    assert!(genome.has_alternative_output(Id(0), Id(1)))
}

#[test]
fn find_no_alternative_output() {
    let genome = genome_of(
        vec![Node::new(Id(0), Activation::Linear)],
        vec![],
        vec![Node::new(Id(1), Activation::Linear)],
        vec![Connection::new(Id(0), WEIGHT_ONE, Id(1))],
        vec![],
    );

    assert!(!genome.has_alternative_output(Id(0), Id(1)))
}

#[test]
fn crossover() {
    let parameters = Parameters::default();
    let mut ids = IdGenerator::new();
    let mut rng = rng();

    let base = Genome::uninitialized(&parameters, &mut ids);
    let mut genome_0 = base.clone();
    genome_0.init(&parameters.structure, &mut rng);
    let mut genome_1 = base.clone();
    genome_1.init(&parameters.structure, &mut rng);

    // mutate genome_0
    Mutations::add_node(&Activation::all(), &mut genome_0, &mut ids, &mut rng);

    // mutate genome_1
    Mutations::add_node(&Activation::all(), &mut genome_1, &mut ids, &mut rng);
    Mutations::add_node(&Activation::all(), &mut genome_1, &mut ids, &mut rng);

    // shorter genome is fitter genome
    let offspring = genome_0.cross_in(&genome_1, &mut rng);

    assert_eq!(offspring.hidden.len(), 1);
    assert_eq!(offspring.feed_forward.len(), 3);
}

#[test]
fn detect_no_cycle() {
    let parameters = Parameters::default();
    let genome = Genome::initialized(&parameters, &mut IdGenerator::new(), &mut rng());

    let input = genome.inputs.0[0];
    let output = genome.outputs.0[0];

    assert!(!genome.would_form_cycle(&input, &output));
}

#[test]
fn detect_cycle() {
    let parameters = Parameters::default();
    let genome = Genome::initialized(&parameters, &mut IdGenerator::new(), &mut rng());

    let input = genome.inputs.0[0];
    let output = genome.outputs.0[0];

    assert!(genome.would_form_cycle(&output, &input));
}

#[test]
fn crossover_no_cycle() {
    // crossover of equal fitness genomes should not produce cycles,
    // "mirrored" structure as simplest example
    let mut genome_0 = genome_of(
        vec![Node::new(Id(0), Activation::Linear)],
        vec![Node::new(Id(2), Activation::Tanh), Node::new(Id(3), Activation::Tanh)],
        vec![Node::new(Id(1), Activation::Linear)],
        vec![
            Connection::new(Id(0), WEIGHT_ONE, Id(2)),
            Connection::new(Id(2), WEIGHT_ONE, Id(1)),
            Connection::new(Id(0), WEIGHT_ONE, Id(3)),
            Connection::new(Id(3), WEIGHT_ONE, Id(1)),
        ],
        vec![],
    );

    let mut genome_1 = genome_0.clone();

    // insert connection one way in genome_0
    genome_0.feed_forward.insert(Connection::new(Id(2), WEIGHT_ONE, Id(3)));

    // insert connection the other way in genome_1
    genome_1.feed_forward.insert(Connection::new(Id(3), WEIGHT_ONE, Id(2)));

    let offspring = genome_0.cross_in(&genome_1, &mut rng());

    for connection0 in offspring.feed_forward.0.iter() {
        for connection1 in offspring.feed_forward.0.iter() {
            assert!(!(connection0.input == connection1.output && connection0.output == connection1.input))
        }
    }
}

#[test]
fn longer_cycle_is_found() {
    let genome = genome_of(
        vec![Node::new(Id(0), Activation::Linear)],
        vec![Node::new(Id(2), Activation::Tanh), Node::new(Id(3), Activation::Tanh)],
        vec![Node::new(Id(1), Activation::Linear)],
        vec![
            Connection::new(Id(0), WEIGHT_ONE, Id(2)),
            Connection::new(Id(2), WEIGHT_ONE, Id(3)),
            Connection::new(Id(3), WEIGHT_ONE, Id(1)),
        ],
        vec![Connection::new(Id(1), WEIGHT_ONE, Id(0))],
    );
    let n = |id: u64| Node::new(Id(id), Activation::Linear);
    // 0 -> 2 -> 3 -> 1 exists, so 1 -> 0 would close it; recurrent edges do not count
    assert!(genome.would_form_cycle(&n(1), &n(0)));
    assert!(genome.would_form_cycle(&n(3), &n(2)));
    assert!(!genome.would_form_cycle(&n(0), &n(1)));
    assert!(!genome.would_form_cycle(&n(2), &n(1)));
    // a node with no way back to itself
    assert!(!genome.would_form_cycle(&n(2), &n(2)));
}

#[test]
fn new_genome_has_fresh_ordered_nodes() {
    let mut ids = IdGenerator::new();
    let structure = set_genome::Structure::basic(3, 2);
    let genome = Genome::new(&structure, &mut ids);
    let inputs: Vec<u64> = genome.inputs.0.iter().map(|n| n.id.0).collect();
    let outputs: Vec<u64> = genome.outputs.0.iter().map(|n| n.id.0).collect();
    assert_eq!(inputs, vec![0, 1, 2]);
    assert_eq!(outputs, vec![3, 4]);
    assert!(genome.outputs.0.iter().all(|n| n.activation == Activation::Tanh));
    assert!(genome.inputs.0.iter().all(|n| n.activation == Activation::Linear));
    assert!(genome.is_empty());
    assert_eq!(ids.next_id(), Id(5));
}

#[test]
fn init_connects_every_chosen_input_to_every_output_without_cycles() {
    let mut ids = IdGenerator::new();
    let mut rng = rng();
    let mut parameters = Parameters::basic(4, 3);
    parameters.structure.percent_of_connected_inputs = set_genome::PROBABILITY_ONE / 2;
    let genome = Genome::initialized(&parameters, &mut ids, &mut rng);
    // half of four inputs, each to all three outputs
    assert_eq!(genome.feed_forward.len(), 6);
    assert_eq!(genome.len(), 6);
    for c in genome.feed_forward.0.iter() {
        let start = Node::new(c.input, Activation::Linear);
        let end = Node::new(c.output, Activation::Linear);
        assert!(!genome.would_form_cycle(&start, &end));
        assert!(c.weight <= WEIGHT_ONE && c.weight >= -WEIGHT_ONE);
    }
}

#[test]
fn minimum_init_feeds_every_output() {
    let mut ids = IdGenerator::new();
    let mut rng = rng();
    let mut genome = Genome::uninitialized(&Parameters::basic(3, 4), &mut ids);
    genome.mimimum_init(&mut rng);
    assert_eq!(genome.feed_forward.len(), 4);
    for o in genome.outputs.0.iter() {
        assert!(genome.feed_forward.0.iter().any(|c| c.output == o.id));
    }
}

#[test]
fn crossing_a_genome_with_itself_gives_it_back() {
    let mut ids = IdGenerator::new();
    let mut rng = rng();
    let mut genome = Genome::initialized(&Parameters::basic(3, 2), &mut ids, &mut rng);
    Mutations::add_node(&Activation::all(), &mut genome, &mut ids, &mut rng);
    Mutations::add_recurrent_connection(&mut genome, &mut rng).unwrap();
    let offspring = genome.cross_in(&genome, &mut rng);
    assert_eq!(format!("{:?}", offspring), format!("{:?}", genome));
}

#[test]
fn sorted_genes_follow_keys() {
    let genes = Genes::from_vec(vec![
        Connection::new(Id(3), 0, Id(1)),
        Connection::new(Id(0), 0, Id(5)),
        Connection::new(Id(3), 0, Id(0)),
        Connection::new(Id(0), 0, Id(5)),
    ]);
    assert_eq!(genes.len(), 3);
    let sorted: Vec<(u64, u64)> = genes.as_sorted_vec().iter().map(|c| (c.input.0, c.output.0)).collect();
    assert_eq!(sorted, vec![(0, 5), (3, 0), (3, 1)]);
}

#[test]
fn matching_and_unique_genes() {
    let a = Genes::from_vec(vec![Connection::new(Id(0), 1, Id(1)), Connection::new(Id(0), 2, Id(2))]);
    let b = Genes::from_vec(vec![Connection::new(Id(0), 3, Id(2)), Connection::new(Id(2), 4, Id(1))]);
    let matching = a.iterate_matching_genes(&b);
    assert_eq!(matching.len(), 1);
    assert_eq!((matching[0].0.weight, matching[0].1.weight), (2, 3));
    let unique: Vec<(u64, u64)> = a.iterate_unique_genes(&b).iter().map(|c| (c.input.0, c.output.0)).collect();
    assert_eq!(unique, vec![(0, 1), (2, 1)]);
}

#[test]
fn random_offset_visits_every_gene_once() {
    let genes = Genes::from_vec(vec![Node::new(Id(0), Activation::Linear), Node::new(Id(1), Activation::Linear), Node::new(Id(2), Activation::Linear)]);
    let mut rng = rng();
    for _ in 0..20 {
        let mut seen: Vec<u64> = genes.iterate_with_random_offset(&mut rng).iter().map(|n| n.id.0).collect();
        seen.sort();
        assert_eq!(seen, vec![0, 1, 2]);
    }
}

#[test]
fn contains_and_nodes() {
    let genome = genome_of(
        vec![Node::input(Id(0), 0)],
        vec![Node::hidden(Id(2), Activation::Relu)],
        vec![Node::output(Id(1), 0, Activation::Sigmoid)],
        vec![],
        vec![],
    );
    assert!(genome.contains(Id(2)));
    assert!(!genome.contains(Id(3)));
    let ids: Vec<u64> = genome.nodes().iter().map(|n| n.id.0).collect();
    assert_eq!(ids, vec![0, 2, 1]);
    assert_eq!(Activation::all().len(), 11);
}

#[test]
fn drain_into_random_empties_the_set() {
    let mut genes = Genes::from_vec(vec![
        Connection::new(Id(0), 1, Id(1)),
        Connection::new(Id(0), 2, Id(2)),
        Connection::new(Id(2), 3, Id(1)),
    ]);
    let mut drained: Vec<i64> = genes.drain_into_random(&mut rng()).iter().map(|c| c.weight).collect();
    assert!(genes.is_empty());
    drained.sort();
    assert_eq!(drained, vec![1, 2, 3]);
}

#[test]
fn replace_and_remove_go_by_key() {
    let mut genes = Genes::from_vec(vec![Connection::new(Id(0), 1, Id(1)), Connection::new(Id(1), 2, Id(2))]);
    let old = genes.replace(Connection::new(Id(1), 9, Id(2)));
    assert_eq!(old.map(|c| c.weight), Some(2));
    assert_eq!(genes.get((1, 2)).map(|c| c.weight), Some(9));
    assert!(genes.replace(Connection::new(Id(5), 4, Id(6))).is_none());
    assert_eq!(genes.len(), 3);
    assert!(genes.remove((0, 1)));
    assert!(!genes.remove((0, 1)));
    assert!(!genes.contains_key((0, 1)));
    assert_eq!(genes.len(), 2);
    assert!(!genes.insert(Connection::new(Id(5), 0, Id(6))));
}

#[test]
fn random_gene_is_held() {
    let genes = Genes::from_vec(vec![Node::new(Id(4), Activation::Step), Node::new(Id(8), Activation::Step)]);
    let mut rng = rng();
    for _ in 0..10 {
        let id = genes.random(&mut rng).unwrap().id;
        assert!(id == Id(4) || id == Id(8));
    }
    assert!(Genes::<Node>::new().random(&mut rng).is_none());
}

#[test]
fn perturbed_connection_stays_capped() {
    let mut rng = GenomeRng::new(5, WEIGHT_ONE as u64, WEIGHT_ONE);
    let mut c = Connection::new(Id(0), WEIGHT_ONE, Id(1));
    for _ in 0..100 {
        c.perturb_weight(&mut rng);
        assert!(c.weight <= WEIGHT_ONE && c.weight >= -WEIGHT_ONE);
        assert_eq!(c.id(), (Id(0), Id(1)));
    }
}
