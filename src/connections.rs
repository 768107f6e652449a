//! Connection genes.
use crate::genes::Gene;
use crate::ids::Id;
use crate::rng::GenomeRng;
use vstd::prelude::*;

verus! {

/// A connection gene from node `input` to node `output`, with a fixed-point weight (see
/// [`crate::WEIGHT_ONE`]). As a gene it is identified by the pair `(input, output)` alone.
#[derive(Debug, Clone, Copy)]
pub struct Connection {
    pub input: Id,
    pub output: Id,
    pub weight: i64,
}

/// The gene key of the connection from `input` to `output`.
pub open spec fn connection_key(input: Id, output: Id) -> (u64, u64) {
    (input.0, output.0)
}

impl Gene for Connection {
    open spec fn key(&self) -> (u64, u64) {
        connection_key(self.input, self.output)
    }

    fn gene_key(&self) -> (r: (u64, u64)) {
        (self.input.0, self.output.0)
    }
}

impl Connection {
    /// The connection from `input` to `output` with weight `weight`.
    pub fn new(input: Id, weight: i64, output: Id) -> (r: Connection)
        ensures
            r.input == input,
            r.output == output,
            r.weight == weight,
    {
        Connection { input, output, weight }
    }

    /// The identity of the connection: the pair of its end points.
    pub fn id(&self) -> (r: (Id, Id))
        ensures
            r == (self.input, self.output),
    {
        (self.input, self.output)
    }

    /// Moves the weight by a fresh perturbation of `rng`, keeping it in `[-cap, cap]` (see
    /// [`GenomeRng::weight_perturbation`]).
    pub fn perturb_weight(&mut self, rng: &mut GenomeRng)
        requires
            0 <= old(rng).cap,
            -old(rng).cap <= old(self).weight <= old(rng).cap,
        ensures
            final(self).input == old(self).input,
            final(self).output == old(self).output,
            -old(rng).cap <= final(self).weight <= old(rng).cap,
            final(rng).cap == old(rng).cap,
            final(rng).std_dev == old(rng).std_dev,
    {
        self.weight = rng.weight_perturbation(self.weight);
    }
}

} // verus!
