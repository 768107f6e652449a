//! What a genome is built from, and which mutations are applied to it.
use crate::mutations::Mutations;
use crate::nodes::Activation;
use crate::rng::{PROBABILITY_ONE, WEIGHT_ONE};
use vstd::prelude::*;

verus! {

/// The shape of genomes: how many inputs and outputs, how many of the inputs are connected at
/// first (fixed-point percentage, see [`crate::PROBABILITY_ONE`]), the activation of the
/// outputs, the spread and cap of weights (fixed-point, see [`crate::WEIGHT_ONE`]) and the seed
/// of the randomness source.
#[derive(Debug, Clone, Copy)]
pub struct Structure {
    pub number_of_inputs: usize,
    pub number_of_outputs: usize,
    pub percent_of_connected_inputs: u64,
    pub outputs_activation: Activation,
    pub weight_std_dev: u64,
    pub weight_cap: i64,
    pub seed: u64,
}

impl Structure {
    /// The default structure.
    pub open spec fn default_spec() -> Structure {
        Structure {
            number_of_inputs: 1,
            number_of_outputs: 1,
            percent_of_connected_inputs: PROBABILITY_ONE,
            outputs_activation: Activation::Tanh,
            weight_std_dev: (WEIGHT_ONE / 10) as u64,
            weight_cap: WEIGHT_ONE,
            seed: 42,
        }
    }

    /// One input, one output, all inputs connected, tanh outputs, weights in `[-1, 1]`
    /// perturbed with standard deviation `0.1`, seed 42.
    pub fn default() -> (r: Structure)
        ensures
            r == Structure::default_spec(),
            r.number_of_inputs == 1,
            r.number_of_outputs == 1,
            r.percent_of_connected_inputs == PROBABILITY_ONE,
            r.outputs_activation == Activation::Tanh,
            r.weight_std_dev == WEIGHT_ONE / 10,
            r.weight_cap == WEIGHT_ONE,
            r.seed == 42,
    {
        Structure {
            number_of_inputs: 1,
            number_of_outputs: 1,
            percent_of_connected_inputs: PROBABILITY_ONE,
            outputs_activation: Activation::Tanh,
            weight_std_dev: (WEIGHT_ONE / 10) as u64,
            weight_cap: WEIGHT_ONE,
            seed: 42,
        }
    }

    /// The default structure with the given numbers of inputs and outputs.
    pub fn basic(number_of_inputs: usize, number_of_outputs: usize) -> (r: Structure)
        ensures
            r.number_of_inputs == number_of_inputs,
            r.number_of_outputs == number_of_outputs,
            r.percent_of_connected_inputs == PROBABILITY_ONE,
            r.outputs_activation == Activation::Tanh,
            r.weight_std_dev == WEIGHT_ONE / 10,
            r.weight_cap == WEIGHT_ONE,
            r.seed == 42,
    {
        Structure { number_of_inputs, number_of_outputs, ..Structure::default() }
    }
}

/// A structure and the list of mutations applied to genomes of it, in order.
#[derive(Debug, Clone)]
pub struct Parameters {
    pub structure: Structure,
    pub mutations: Vec<Mutations>,
}

/// The activation functions the default mutations draw from: all but squaring.
pub fn default_activation_pool() -> (r: Vec<Activation>)
    ensures
        r@.len() == 10,
        !r@.contains(Activation::Squared),
{
    let r = vec![
        Activation::Linear,
        Activation::Sigmoid,
        Activation::Tanh,
        Activation::Gaussian,
        Activation::Step,
        Activation::Sine,
        Activation::Cosine,
        Activation::Inverse,
        Activation::Absolute,
        Activation::Relu,
    ];
    assert(!r@.contains(Activation::Squared)) by {
        assert forall|i: int| 0 <= i < r@.len() implies r@[i] != Activation::Squared by {}
    }
    r
}

impl Parameters {
    /// The default structure; weights always perturbed (half of them, cap one), activations
    /// changed with chance 0.05, nodes added with chance 0.005, feed-forward connections with
    /// chance 0.1 and recurrent ones with chance 0.01.
    pub fn default() -> (r: Parameters)
        ensures
            r.structure == Structure::default_spec(),
            r.mutations@.len() == 5,
            r.mutations@[0] == (Mutations::ChangeWeights {
                chance: PROBABILITY_ONE,
                percent_perturbed: PROBABILITY_ONE / 2,
                weight_cap: WEIGHT_ONE,
            }),
            r.mutations@[1] is ChangeActivation && r.mutations@[1].chance() == 50_000,
            r.mutations@[2] is AddNode && r.mutations@[2].chance() == 5_000,
            r.mutations@[3] == (Mutations::AddConnection { chance: 100_000 }),
            r.mutations@[4] == (Mutations::AddRecurrentConnection { chance: 10_000 }),
    {
        Parameters {
            structure: Structure::default(),
            mutations: vec![
                Mutations::ChangeWeights {
                    chance: PROBABILITY_ONE,
                    percent_perturbed: PROBABILITY_ONE / 2,
                    weight_cap: WEIGHT_ONE,
                },
                Mutations::ChangeActivation { chance: 50_000, activation_pool: default_activation_pool() },
                Mutations::AddNode { chance: 5_000, activation_pool: default_activation_pool() },
                Mutations::AddConnection { chance: 100_000 },
                Mutations::AddRecurrentConnection { chance: 10_000 },
            ],
        }
    }

    /// The basic structure with the given numbers of inputs and outputs; weights always
    /// perturbed (half of them, cap one), tanh nodes added with chance 0.01 and feed-forward
    /// connections with chance 0.1.
    pub fn basic(number_of_inputs: usize, number_of_outputs: usize) -> (r: Parameters)
        ensures
            r.structure.number_of_inputs == number_of_inputs,
            r.structure.number_of_outputs == number_of_outputs,
            r.mutations@.len() == 3,
            r.mutations@[0] == (Mutations::ChangeWeights {
                chance: PROBABILITY_ONE,
                percent_perturbed: PROBABILITY_ONE / 2,
                weight_cap: WEIGHT_ONE,
            }),
            r.mutations@[1] is AddNode && r.mutations@[1].chance() == 10_000,
            r.mutations@[2] == (Mutations::AddConnection { chance: 100_000 }),
    {
        Parameters {
            structure: Structure::basic(number_of_inputs, number_of_outputs),
            mutations: vec![
                Mutations::ChangeWeights {
                    chance: PROBABILITY_ONE,
                    percent_perturbed: PROBABILITY_ONE / 2,
                    weight_cap: WEIGHT_ONE,
                },
                Mutations::AddNode { chance: 10_000, activation_pool: vec![Activation::Tanh] },
                Mutations::AddConnection { chance: 100_000 },
            ],
        }
    }
}

} // verus!
