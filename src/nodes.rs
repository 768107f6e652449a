//! Node genes and their activation functions.
use crate::genes::Gene;
use crate::ids::Id;
use vstd::prelude::*;

verus! {

/// The activation functions a node can carry.
#[derive(Debug, Clone, Copy, PartialEq, Eq, Structural)]
pub enum Activation {
    Linear,
    Sigmoid,
    Tanh,
    Gaussian,
    Step,
    Sine,
    Cosine,
    Inverse,
    Absolute,
    Relu,
    Squared,
}

impl Activation {
    /// Every activation function, each once.
    pub fn all() -> (r: Vec<Activation>)
        ensures
            r@ == seq![
                Activation::Linear,
                Activation::Sigmoid,
                Activation::Tanh,
                Activation::Gaussian,
                Activation::Step,
                Activation::Sine,
                Activation::Cosine,
                Activation::Inverse,
                Activation::Absolute,
                Activation::Relu,
                Activation::Squared,
            ],
    {
        let r = vec![
            Activation::Linear,
            Activation::Sigmoid,
            Activation::Tanh,
            Activation::Gaussian,
            Activation::Step,
            Activation::Sine,
            Activation::Cosine,
            Activation::Inverse,
            Activation::Absolute,
            Activation::Relu,
            Activation::Squared,
        ];
        assert(r@ =~= seq![
            Activation::Linear,
            Activation::Sigmoid,
            Activation::Tanh,
            Activation::Gaussian,
            Activation::Step,
            Activation::Sine,
            Activation::Cosine,
            Activation::Inverse,
            Activation::Absolute,
            Activation::Relu,
            Activation::Squared,
        ]);
        r
    }
}

/// A node gene: its identity, the position among inputs or outputs it was created at, and its
/// activation function. As a gene it is identified by `id` alone.
#[derive(Debug, Clone, Copy)]
pub struct Node {
    pub id: Id,
    pub order: usize,
    pub activation: Activation,
}

/// The gene key of the node with identity `id`.
pub open spec fn node_key(id: Id) -> (u64, u64) {
    (id.0, 0)
}

impl Gene for Node {
    open spec fn key(&self) -> (u64, u64) {
        node_key(self.id)
    }

    fn gene_key(&self) -> (r: (u64, u64)) {
        (self.id.0, 0)
    }
}

impl Node {
    /// A node with identity `id` and activation function `activation`.
    pub fn new(id: Id, activation: Activation) -> (r: Node)
        ensures
            r.id == id,
            r.activation == activation,
            r.order == 0,
    {
        Node { id, order: 0, activation }
    }

    /// An input node: linear activation, at position `order` among the inputs.
    pub fn input(id: Id, order: usize) -> (r: Node)
        ensures
            r.id == id,
            r.order == order,
            r.activation == Activation::Linear,
    {
        Node { id, order, activation: Activation::Linear }
    }

    /// An output node at position `order` among the outputs.
    pub fn output(id: Id, order: usize, activation: Activation) -> (r: Node)
        ensures
            r.id == id,
            r.order == order,
            r.activation == activation,
    {
        Node { id, order, activation }
    }

    /// A hidden node.
    pub fn hidden(id: Id, activation: Activation) -> (r: Node)
        ensures
            r.id == id,
            r.order == 0,
            r.activation == activation,
    {
        Node { id, order: 0, activation }
    }
}

} // verus!
