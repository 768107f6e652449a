use set_genome::{Activation, Connection, Genes, Genome, GenomeRng, Id, IdGenerator, MutationError, Mutations, Node, Parameters, WEIGHT_ONE};

fn rng() -> GenomeRng {
    GenomeRng::new(42, (WEIGHT_ONE / 10) as u64, WEIGHT_ONE)
}

fn genome_of(inputs: Vec<Node>, hidden: Vec<Node>, outputs: Vec<Node>, feed_forward: Vec<Connection>, recurrent: Vec<Connection>) -> Genome {
    Genome {
        inputs: Genes::from_vec(inputs),
        hidden: Genes::from_vec(hidden),
        outputs: Genes::from_vec(outputs),
        feed_forward: Genes::from_vec(feed_forward),
        recurrent: Genes::from_vec(recurrent),
    }
}

fn initialized(ids: &mut IdGenerator, rng: &mut GenomeRng) -> Genome {
    Genome::initialized(&Parameters::default(), ids, rng)
}

#[test]
fn add_connection_add_random_connection() {
    let mut genome = Genome::uninitialized(&Parameters::default(), &mut IdGenerator::new());

    assert!(Mutations::add_connection(&mut genome, &mut rng()).is_ok());
    assert_eq!(genome.feed_forward.len(), 1);
}

#[test]
fn add_connection_dont_add_same_connection_twice() {
    let mut genome = Genome::uninitialized(&Parameters::default(), &mut IdGenerator::new());
    let mut rng = rng();

    Mutations::add_connection(&mut genome, &mut rng).expect("add_connection");

    if let Err(error) = Mutations::add_connection(&mut genome, &mut rng) {
        assert_eq!(error, MutationError::CouldNotAddFeedForwardConnection);
    } else {
        unreachable!()
    }

    assert_eq!(genome.feed_forward.len(), 1);
}

#[test]
fn add_random_node() {
    let mut ids = IdGenerator::new();
    let mut rng = rng();
    let mut genome = initialized(&mut ids, &mut rng);

    Mutations::add_node(&Activation::all(), &mut genome, &mut ids, &mut rng);

    assert_eq!(genome.feed_forward.len(), 3);
}

#[test]
fn add_node_same_structure_same_id() {
    let parameters = Parameters::default();
    let mut ids = IdGenerator::new();
    let mut rng = rng();
    let base = Genome::uninitialized(&parameters, &mut ids);
    let mut genome1 = base.clone();
    genome1.init(&parameters.structure, &mut rng);
    let mut genome2 = base.clone();
    genome2.init(&parameters.structure, &mut rng);

    Mutations::add_node(&Activation::all(), &mut genome1, &mut ids, &mut rng);
    Mutations::add_node(&Activation::all(), &mut genome2, &mut ids, &mut rng);

    let ids1: Vec<Id> = genome1.hidden.0.iter().map(|n| n.id).collect();
    let ids2: Vec<Id> = genome2.hidden.0.iter().map(|n| n.id).collect();
    assert_eq!(ids1, ids2);
}

#[test]
fn add_recurrent_connection_add_random_connection() {
    let mut ids = IdGenerator::new();
    let mut rng = rng();
    let mut genome = initialized(&mut ids, &mut rng);

    Mutations::add_recurrent_connection(&mut genome, &mut rng).expect("y no add recurrent connection");

    assert_eq!(genome.recurrent.len(), 1);
}

#[test]
fn add_recurrent_connection_dont_add_same_connection_twice() {
    let mut ids = IdGenerator::new();
    let mut rng = rng();
    let mut genome = initialized(&mut ids, &mut rng);

    // create all possible recurrent connections
    Mutations::add_recurrent_connection(&mut genome, &mut rng).expect("y no add recurrent connection");

    Mutations::add_recurrent_connection(&mut genome, &mut rng).expect("y no add recurrent connection");

    if let Err(error) = Mutations::add_recurrent_connection(&mut genome, &mut rng) {
        assert_eq!(error, MutationError::CouldNotAddRecurrentConnection);
    } else {
        unreachable!()
    }

    assert_eq!(genome.recurrent.len(), 2);
}

#[test]
fn change_activation() {
    let mut ids = IdGenerator::new();
    let mut rng = rng();
    let mut genome = initialized(&mut ids, &mut rng);
    let activation_pool = Activation::all();

    Mutations::add_node(&activation_pool, &mut genome, &mut ids, &mut rng);

    let old_activation = genome.hidden.0[0].activation;

    Mutations::change_activation(&activation_pool, &mut genome, &mut rng);

    assert_ne!(genome.hidden.0[0].activation, old_activation);
}

#[test]
fn change_weights() {
    let mut ids = IdGenerator::new();
    let mut rng = rng();
    let mut genome = initialized(&mut ids, &mut rng);

    let old_weight = genome.feed_forward.0[0].weight;

    Mutations::change_weights(set_genome::PROBABILITY_ONE, WEIGHT_ONE, &mut genome, &mut rng);

    assert!(old_weight != genome.feed_forward.0[0].weight);
}

#[test]
fn duplicate_random_node() {
    let mut ids = IdGenerator::new();
    let mut rng = rng();
    let mut genome = initialized(&mut ids, &mut rng);
    assert_eq!(genome.feed_forward.len(), 1);

    Mutations::add_node(&Activation::all(), &mut genome, &mut ids, &mut rng);
    assert_eq!(genome.hidden.len(), 1);
    assert_eq!(genome.feed_forward.len(), 3);

    // create all possible recurrent connections
    for _ in 0..6 {
        assert!(Mutations::add_recurrent_connection(&mut genome, &mut rng).is_ok());
    }
    assert_eq!(genome.recurrent.len(), 6);

    assert!(Mutations::duplicate_node(&mut genome, &mut ids, &mut rng).is_ok());

    assert_eq!(genome.feed_forward.len(), 5);
    assert_eq!(genome.recurrent.len(), 10);
    assert_eq!(genome.hidden.len(), 2);
}

#[test]
fn duplicate_node_same_structure_same_id() {
    let parameters = Parameters::default();
    let mut ids = IdGenerator::new();
    let mut rng = rng();
    let base = Genome::uninitialized(&parameters, &mut ids);
    let mut genome1 = base.clone();
    genome1.init(&parameters.structure, &mut rng);
    let mut genome2 = base.clone();
    genome2.init(&parameters.structure, &mut rng);

    Mutations::add_node(&Activation::all(), &mut genome1, &mut ids, &mut rng);
    assert!(Mutations::duplicate_node(&mut genome1, &mut ids, &mut rng).is_ok());

    Mutations::add_node(&Activation::all(), &mut genome2, &mut ids, &mut rng);
    assert!(Mutations::duplicate_node(&mut genome2, &mut ids, &mut rng).is_ok());

    let ids1: Vec<Id> = genome1.hidden.0.iter().map(|n| n.id).collect();
    let ids2: Vec<Id> = genome2.hidden.0.iter().map(|n| n.id).collect();
    assert_eq!(ids1, ids2);
}

#[test]
fn duplicate_node_halves_outgoing_weights() {
    let mut genome = genome_of(
        vec![Node::input(Id(0), 0)],
        vec![Node::hidden(Id(2), Activation::Tanh)],
        vec![Node::output(Id(1), 0, Activation::Linear)],
        vec![Connection::new(Id(0), 600_000, Id(2)), Connection::new(Id(2), -500_001, Id(1))],
        vec![Connection::new(Id(2), 300_000, Id(2))],
    );
    let mut ids = IdGenerator::new();
    assert!(Mutations::duplicate_node(&mut genome, &mut ids, &mut rng()).is_ok());
    // identities 0, 1 and 2 are taken, so the fresh node is the fourth cached one
    let new_id = Id(3);
    assert_eq!(genome.hidden.0[1].id, new_id);
    assert_eq!(genome.hidden.0[1].activation, Activation::Tanh);
    let ff: Vec<(u64, i64, u64)> = genome.feed_forward.0.iter().map(|c| (c.input.0, c.weight, c.output.0)).collect();
    assert_eq!(ff, vec![(0, 600_000, 2), (2, -250_000, 1), (0, 600_000, 3), (3, -250_000, 1)]);
    let rec: Vec<(u64, i64, u64)> = genome.recurrent.0.iter().map(|c| (c.input.0, c.weight, c.output.0)).collect();
    assert_eq!(rec, vec![(2, 300_000, 2), (3, 300_000, 3)]);
}

#[test]
fn duplicate_node_needs_a_hidden_node() {
    let mut ids = IdGenerator::new();
    let mut rng = rng();
    let mut genome = initialized(&mut ids, &mut rng);
    assert_eq!(Mutations::duplicate_node(&mut genome, &mut ids, &mut rng), Err(MutationError::CouldNotDuplicateNode));
}

#[test]
fn can_remove_connection() {
    let mut genome = genome_of(
        vec![Node::input(Id(0), 0)],
        vec![Node::hidden(Id(2), Activation::Linear)],
        vec![Node::output(Id(1), 0, Activation::Linear)],
        vec![
            Connection::new(Id(0), WEIGHT_ONE, Id(1)),
            Connection::new(Id(0), WEIGHT_ONE, Id(2)),
            Connection::new(Id(2), WEIGHT_ONE, Id(1)),
        ],
        vec![],
    );

    assert!(Mutations::remove_connection(&mut genome, &mut rng()).is_ok());
}

#[test]
fn can_not_remove_connection() {
    let mut genome = genome_of(
        vec![Node::input(Id(0), 0)],
        vec![],
        vec![Node::output(Id(1), 0, Activation::Linear)],
        vec![Connection::new(Id(0), WEIGHT_ONE, Id(1))],
        vec![],
    );

    if let Err(error) = Mutations::remove_connection(&mut genome, &mut rng()) {
        assert_eq!(error, MutationError::CouldNotRemoveFeedForwardConnection);
    } else {
        unreachable!()
    }
}

#[test]
fn can_remove_node() {
    let mut genome = genome_of(
        vec![Node::input(Id(0), 0)],
        vec![Node::hidden(Id(2), Activation::Linear), Node::hidden(Id(3), Activation::Linear)],
        vec![Node::output(Id(1), 0, Activation::Linear)],
        vec![
            Connection::new(Id(0), WEIGHT_ONE, Id(2)),
            Connection::new(Id(0), WEIGHT_ONE, Id(3)),
            Connection::new(Id(2), WEIGHT_ONE, Id(1)),
            Connection::new(Id(3), WEIGHT_ONE, Id(1)),
        ],
        vec![],
    );

    assert!(Mutations::remove_node(&mut genome, &mut rng()).is_ok())
}

#[test]
fn can_not_remove_node() {
    let mut genome = genome_of(
        vec![Node::input(Id(0), 0)],
        vec![Node::hidden(Id(2), Activation::Linear)],
        vec![Node::output(Id(1), 0, Activation::Linear)],
        vec![Connection::new(Id(0), WEIGHT_ONE, Id(2)), Connection::new(Id(2), WEIGHT_ONE, Id(1))],
        vec![],
    );

    if let Err(error) = Mutations::remove_node(&mut genome, &mut rng()) {
        assert_eq!(error, MutationError::CouldNotRemoveNode);
    } else {
        unreachable!()
    }
}

#[test]
fn can_remove_recurrent_connection() {
    let mut genome = genome_of(
        vec![Node::input(Id(0), 0)],
        vec![],
        vec![Node::output(Id(1), 0, Activation::Linear)],
        vec![Connection::new(Id(0), WEIGHT_ONE, Id(1))],
        vec![Connection::new(Id(0), WEIGHT_ONE, Id(1))],
    );

    assert!(Mutations::remove_recurrent_connection(&mut genome, &mut rng()).is_ok())
}

#[test]
fn can_not_remove_recurrent_connection() {
    let mut genome = genome_of(
        vec![Node::input(Id(0), 0)],
        vec![],
        vec![Node::output(Id(1), 0, Activation::Linear)],
        vec![Connection::new(Id(0), WEIGHT_ONE, Id(1))],
        vec![],
    );

    if let Err(error) = Mutations::remove_recurrent_connection(&mut genome, &mut rng()) {
        assert_eq!(error, MutationError::CouldNotRemoveRecurrentConnection);
    } else {
        unreachable!()
    }
}

#[test]
fn add_node_splits_a_connection() {
    let mut ids = IdGenerator::new();
    let mut rng = rng();
    let mut genome = initialized(&mut ids, &mut rng);
    let split = genome.feed_forward.0[0];
    let hidden_before = genome.hidden.len();
    let feed_forward_before = genome.feed_forward.len();
    Mutations::add_node(&vec![Activation::Relu], &mut genome, &mut ids, &mut rng);
    assert_eq!(genome.feed_forward.len(), feed_forward_before + 2);
    assert_eq!(genome.hidden.len(), hidden_before + 1);
    let node = genome.hidden.0[0];
    assert_eq!(node.activation, Activation::Relu);
    // identities 0 and 1 belong to the input and output, the split's first cached one is 2
    assert_eq!(node.id, Id(2));
    let ff: Vec<(Id, i64, Id)> = genome.feed_forward.0.iter().map(|c| (c.input, c.weight, c.output)).collect();
    assert_eq!(ff, vec![(split.input, 0, split.output), (split.input, WEIGHT_ONE, node.id), (node.id, split.weight, split.output)]);
}

#[test]
fn remove_node_keeps_neighbours_connected() {
    let mut genome = genome_of(
        vec![Node::input(Id(0), 0)],
        vec![Node::hidden(Id(2), Activation::Linear), Node::hidden(Id(3), Activation::Linear)],
        vec![Node::output(Id(1), 0, Activation::Linear)],
        vec![
            Connection::new(Id(0), WEIGHT_ONE, Id(2)),
            Connection::new(Id(0), WEIGHT_ONE, Id(3)),
            Connection::new(Id(2), WEIGHT_ONE, Id(1)),
            Connection::new(Id(3), WEIGHT_ONE, Id(1)),
        ],
        vec![Connection::new(Id(1), WEIGHT_ONE, Id(2))],
    );
    assert!(Mutations::remove_node(&mut genome, &mut rng()).is_ok());
    assert_eq!(genome.hidden.len(), 1);
    let gone = if genome.hidden.0[0].id == Id(2) { Id(3) } else { Id(2) };
    let all = genome.connections();
    assert!(all.iter().all(|c| c.input != gone && c.output != gone));
    // every former neighbour keeps a way in and a way out
    assert!(all.iter().any(|c| c.input == Id(0)));
    assert!(all.iter().any(|c| c.output == Id(1)));
}

#[test]
fn remove_connection_picks_a_removable_one() {
    let mut genome = genome_of(
        vec![Node::input(Id(0), 0)],
        vec![Node::hidden(Id(2), Activation::Linear)],
        vec![Node::output(Id(1), 0, Activation::Linear)],
        vec![
            Connection::new(Id(0), WEIGHT_ONE, Id(1)),
            Connection::new(Id(0), WEIGHT_ONE, Id(2)),
            Connection::new(Id(2), WEIGHT_ONE, Id(1)),
        ],
        vec![],
    );
    assert!(Mutations::remove_connection(&mut genome, &mut rng()).is_ok());
    let ff: Vec<(u64, u64)> = genome.feed_forward.0.iter().map(|c| (c.input.0, c.output.0)).collect();
    assert_eq!(ff, vec![(0, 2), (2, 1)]);
}

#[test]
fn add_connection_until_exhausted_keeps_pairs_unique_and_acyclic() {
    let mut ids = IdGenerator::new();
    let mut rng = rng();
    let mut genome = Genome::uninitialized(&Parameters::basic(3, 2), &mut ids);
    Mutations::add_connection(&mut genome, &mut rng).unwrap();
    Mutations::add_node(&Activation::all(), &mut genome, &mut ids, &mut rng);
    Mutations::add_node(&Activation::all(), &mut genome, &mut ids, &mut rng);
    while Mutations::add_connection(&mut genome, &mut rng).is_ok() {}
    let ff = genome.feed_forward.0.clone();
    for (i, a) in ff.iter().enumerate() {
        for b in ff.iter().skip(i + 1) {
            assert!(!(a.input == b.input && a.output == b.output));
        }
        let start = Node::new(a.input, Activation::Linear);
        let end = Node::new(a.output, Activation::Linear);
        assert!(!genome.would_form_cycle(&start, &end));
    }
}

#[test]
fn mutate_with_context_keeps_inputs_and_outputs() {
    let parameters = Parameters::default();
    let mut ids = IdGenerator::new();
    let mut rng = rng();
    let mut genome = Genome::initialized(&parameters, &mut ids, &mut rng);
    for _ in 0..200 {
        let _ = genome.mutate_with_context(&parameters, &mut ids, &mut rng);
    }
    assert_eq!(genome.inputs.len(), 1);
    assert_eq!(genome.outputs.len(), 1);
    for c in genome.feed_forward.0.iter() {
        assert!(c.weight <= WEIGHT_ONE && c.weight >= -WEIGHT_ONE);
    }
}

#[test]
fn mutation_with_no_chance_does_nothing() {
    let mut ids = IdGenerator::new();
    let mut rng = rng();
    let mut genome = initialized(&mut ids, &mut rng);
    let before = format!("{:?}", genome);
    assert!(Mutations::AddConnection { chance: 0 }.mutate(&mut genome, &mut ids, &mut rng).is_ok());
    assert!(Mutations::DuplicateNode { chance: 0 }.mutate(&mut genome, &mut ids, &mut rng).is_ok());
    assert_eq!(format!("{:?}", genome), before);
    assert_eq!(
        Mutations::RemoveRecurrentConnection { chance: set_genome::PROBABILITY_ONE }.mutate(&mut genome, &mut ids, &mut rng),
        Err(MutationError::CouldNotRemoveRecurrentConnection)
    );
}

#[test]
fn error_messages() {
    assert_eq!(MutationError::CouldNotRemoveNode.message(), "No removable node present in the genome.");
    assert_eq!(
        MutationError::CouldNotAddFeedForwardConnection.message(),
        "No two nodes could be connected by a new feed-forward connection."
    );
}

#[test]
fn mutation_with_certain_chance_is_applied() {
    let mut ids = IdGenerator::new();
    let mut rng = rng();
    let mut genome = Genome::uninitialized(&Parameters::default(), &mut ids);
    assert!(Mutations::AddConnection { chance: set_genome::PROBABILITY_ONE }.mutate(&mut genome, &mut ids, &mut rng).is_ok());
    assert_eq!(genome.feed_forward.len(), 1);
    let pool = vec![Activation::Sine];
    Mutations::AddNode { chance: set_genome::PROBABILITY_ONE, activation_pool: pool }
        .mutate(&mut genome, &mut ids, &mut rng)
        .unwrap();
    assert_eq!(genome.hidden.len(), 1);
    assert_eq!(genome.hidden.0[0].activation, Activation::Sine);
    assert_eq!(genome.feed_forward.len(), 3);
}

#[test]
fn mutate_with_context_stops_at_first_failure() {
    let mut ids = IdGenerator::new();
    let mut rng = rng();
    let mut genome = Genome::uninitialized(&Parameters::default(), &mut ids);
    let mut parameters = Parameters::default();
    parameters.mutations = vec![
        Mutations::RemoveRecurrentConnection { chance: set_genome::PROBABILITY_ONE },
        Mutations::AddConnection { chance: set_genome::PROBABILITY_ONE },
    ];
    assert_eq!(
        genome.mutate_with_context(&parameters, &mut ids, &mut rng),
        Err(MutationError::CouldNotRemoveRecurrentConnection)
    );
    assert_eq!(genome.feed_forward.len(), 0);
}
