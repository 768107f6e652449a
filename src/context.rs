//! Whole-genome operations driven by the parameters of a run.
use crate::genome::{acyclic, init_connected, Genome};
use crate::ids::IdGenerator;
use crate::mutations::{
    activation_changed, connection_added, connection_removed, has_room, mutation_step, node_added, node_removed,
    recurrent_removed, room_for, weights_changed, MutationResult, Mutations,
};
use crate::parameters::Parameters;
use crate::rng::GenomeRng;
use vstd::prelude::*;

verus! {

/// The course of applying `ms` in order: `gs[k + 1]` and `is[k + 1]` come from `gs[k]` and
/// `is[k]` by `ms[k]`, which succeeded, as [`mutation_step`] describes it.
pub open spec fn run_steps(ms: Seq<Mutations>, gs: Seq<Genome>, is: Seq<IdGenerator>, cap: i64, std_dev: u64) -> bool {
    &&& gs.len() == is.len()
    &&& 1 <= gs.len() <= ms.len() + 1
    &&& forall|k: int|
        0 <= k < gs.len() - 1 ==> #[trigger] mutation_step(ms[k], gs[k], gs[k + 1], is[k], is[k + 1], Ok(()), cap, std_dev)
}

/// `m`, where it adds nodes, performed as [`Mutations::add_node`] describes it where the genome
/// has a feed-forward connection, the pool is not empty and `i0` has room; else nothing changes.
pub open spec fn node_step(m: Mutations, g0: Genome, g1: Genome, i0: IdGenerator, i1: IdGenerator) -> bool {
    match m {
        Mutations::AddNode { activation_pool, .. } => if g0.feed_forward@.len() > 0 && activation_pool@.len() > 0
            && room_for(g0, i0) {
            node_added(g0, g1, i0, i1, activation_pool@)
        } else {
            g1 == g0 && i1 == i0
        },
        _ => g1 == g0 && i1 == i0,
    }
}

/// `m`, where it changes activations, performed as [`Mutations::change_activation`] describes
/// it; else nothing changes.
pub open spec fn activation_step(m: Mutations, g0: Genome, g1: Genome) -> bool {
    match m {
        Mutations::ChangeActivation { activation_pool, .. } => activation_changed(g0, g1, activation_pool@),
        _ => g1 == g0,
    }
}

/// `m`, where it changes weights, performed as [`Mutations::change_weights`] describes it; else
/// nothing changes.
pub open spec fn weights_step(m: Mutations, g0: Genome, g1: Genome, std_dev: u64) -> bool {
    match m {
        Mutations::ChangeWeights { percent_perturbed, weight_cap, .. } => weights_changed(
            g0,
            g1,
            percent_perturbed,
            weight_cap,
            std_dev,
        ),
        _ => g1 == g0,
    }
}

impl Genome {
    /// Initializes the genome as its parameters' structure says (see [`Genome::init`]).
    pub fn init_with_context(&mut self, parameters: &Parameters, rng: &mut GenomeRng)
        requires
            old(self).wf(),
            old(rng).cap >= 0,
        ensures
            final(self).wf(),
            init_connected(*old(self), *final(self), parameters.structure.percent_of_connected_inputs, old(rng).cap),
            old(self).feed_forward@.len() == 0 ==> acyclic(final(self).feed_forward@),
            final(rng).cap == old(rng).cap,
            final(rng).std_dev == old(rng).std_dev,
    {
        self.init(&parameters.structure, rng)
    }

    /// Applies the mutations of the parameters in order, each with its chance (see
    /// [`Mutations::mutate`]); stops at the first that fails and returns its error.
    pub fn mutate_with_context(&mut self, parameters: &Parameters, ids: &mut IdGenerator, rng: &mut GenomeRng) -> (r: MutationResult)
        requires
            old(self).wf(),
            old(ids).wf(),
            old(rng).cap >= 0,
        ensures
            final(self).wf(),
            final(ids).wf(),
            final(self).inputs@ == old(self).inputs@,
            final(self).outputs@ == old(self).outputs@,
            exists|gs: Seq<Genome>, is: Seq<IdGenerator>|
                #[trigger] run_steps(parameters.mutations@, gs, is, old(rng).cap, old(rng).std_dev) && gs[0]
                    == *old(self) && is[0] == *old(ids) && (r.is_ok() ==> gs.len() == parameters.mutations@.len()
                    + 1 && gs.last() == *final(self) && is.last() == *final(ids)) && (r.is_err() ==> gs.len()
                    <= parameters.mutations@.len() && mutation_step(
                    parameters.mutations@[gs.len() - 1],
                    gs.last(),
                    *final(self),
                    is.last(),
                    *final(ids),
                    r,
                    old(rng).cap,
                    old(rng).std_dev,
                )),
            acyclic(old(self).feed_forward@) ==> acyclic(final(self).feed_forward@),
            final(rng).cap == old(rng).cap,
            final(rng).std_dev == old(rng).std_dev,
    {
        let ghost mut gs: Seq<Genome> = seq![*self];
        let ghost mut is: Seq<IdGenerator> = seq![*ids];
        let mut i: usize = 0;
        while i < parameters.mutations.len()
            invariant
                self.wf(),
                ids.wf(),
                rng.cap == old(rng).cap,
                rng.std_dev == old(rng).std_dev,
                rng.cap >= 0,
                self.inputs@ == old(self).inputs@,
                self.outputs@ == old(self).outputs@,
                acyclic(old(self).feed_forward@) ==> acyclic(self.feed_forward@),
                i <= parameters.mutations@.len(),
                run_steps(parameters.mutations@, gs, is, old(rng).cap, old(rng).std_dev),
                gs.len() == i + 1,
                gs[0] == *old(self),
                is[0] == *old(ids),
                gs.last() == *self,
                is.last() == *ids,
            decreases parameters.mutations@.len() - i,
        {
            match parameters.mutations[i].mutate(self, ids, rng) {
                Ok(()) => {},
                Err(e) => {
                    return Err(e);
                },
            }
            proof {
                let gs2 = gs.push(*self);
                let is2 = is.push(*ids);
                assert forall|k: int| 0 <= k < gs2.len() - 1 implies #[trigger] mutation_step(
                    parameters.mutations@[k],
                    gs2[k],
                    gs2[k + 1],
                    is2[k],
                    is2[k + 1],
                    Ok(()),
                    old(rng).cap,
                    old(rng).std_dev,
                ) by {
                    if k < gs.len() - 1 {
                        assert(gs2[k] == gs[k] && gs2[k + 1] == gs[k + 1] && is2[k] == is[k] && is2[k + 1] == is[k + 1]);
                    }
                }
                gs = gs2;
                is = is2;
            }
            i = i + 1;
        }
        Ok(())
    }

    /// Adds a node (see [`Mutations::add_node`]) once for every node-adding mutation of the
    /// parameters, with its pool, where the genome has a feed-forward connection, the pool is
    /// not empty and `ids` has room.
    pub fn add_node_with_context(&mut self, parameters: &Parameters, ids: &mut IdGenerator, rng: &mut GenomeRng)
        requires
            old(self).wf(),
            old(ids).wf(),
        ensures
            final(self).wf(),
            final(ids).wf(),
            exists|gs: Seq<Genome>, is: Seq<IdGenerator>|
                gs.len() == parameters.mutations@.len() + 1 && is.len() == gs.len() && gs[0] == *old(self) && is[0]
                    == *old(ids) && gs.last() == *final(self) && is.last() == *final(ids) && forall|k: int|
                    0 <= k < parameters.mutations@.len() ==> #[trigger] node_step(
                        parameters.mutations@[k],
                        gs[k],
                        gs[k + 1],
                        is[k],
                        is[k + 1],
                    ),
            final(rng).cap == old(rng).cap,
            final(rng).std_dev == old(rng).std_dev,
    {
        let ghost mut gs: Seq<Genome> = seq![*self];
        let ghost mut is: Seq<IdGenerator> = seq![*ids];
        let mut i: usize = 0;
        while i < parameters.mutations.len()
            invariant
                self.wf(),
                ids.wf(),
                rng.cap == old(rng).cap,
                rng.std_dev == old(rng).std_dev,
                i <= parameters.mutations@.len(),
                gs.len() == i + 1,
                is.len() == i + 1,
                gs[0] == *old(self),
                is[0] == *old(ids),
                gs.last() == *self,
                is.last() == *ids,
                forall|k: int| 0 <= k < i ==> #[trigger] node_step(parameters.mutations@[k], gs[k], gs[k + 1], is[k], is[k + 1]),
            decreases parameters.mutations@.len() - i,
        {
            match &parameters.mutations[i] {
                Mutations::AddNode { activation_pool, .. } => {
                    if self.feed_forward.len() > 0 && activation_pool.len() > 0 && has_room(self, ids) {
                        Mutations::add_node(activation_pool, self, ids, rng);
                    }
                },
                _ => {},
            }
            proof {
                let gs2 = gs.push(*self);
                let is2 = is.push(*ids);
                assert forall|k: int| 0 <= k < i + 1 implies #[trigger] node_step(parameters.mutations@[k], gs2[k], gs2[k + 1], is2[k], is2[k + 1]) by {
                    if k < i {
                        assert(gs2[k] == gs[k] && gs2[k + 1] == gs[k + 1] && is2[k] == is[k] && is2[k + 1] == is[k + 1]);
                    }
                }
                gs = gs2;
                is = is2;
            }
            i = i + 1;
        }
    }

    /// Changes an activation (see [`Mutations::change_activation`]) once for every
    /// activation-changing mutation of the parameters, with its pool.
    pub fn change_activation_with_context(&mut self, parameters: &Parameters, rng: &mut GenomeRng)
        requires
            old(self).wf(),
        ensures
            final(self).wf(),
            exists|gs: Seq<Genome>|
                gs.len() == parameters.mutations@.len() + 1 && gs[0] == *old(self) && gs.last() == *final(self)
                    && forall|k: int|
                    0 <= k < parameters.mutations@.len() ==> #[trigger] activation_step(parameters.mutations@[k], gs[k], gs[k + 1]),
            final(rng).cap == old(rng).cap,
            final(rng).std_dev == old(rng).std_dev,
    {
        let ghost mut gs: Seq<Genome> = seq![*self];
        let mut i: usize = 0;
        while i < parameters.mutations.len()
            invariant
                self.wf(),
                rng.cap == old(rng).cap,
                rng.std_dev == old(rng).std_dev,
                i <= parameters.mutations@.len(),
                gs.len() == i + 1,
                gs[0] == *old(self),
                gs.last() == *self,
                forall|k: int| 0 <= k < i ==> #[trigger] activation_step(parameters.mutations@[k], gs[k], gs[k + 1]),
            decreases parameters.mutations@.len() - i,
        {
            match &parameters.mutations[i] {
                Mutations::ChangeActivation { activation_pool, .. } => {
                    Mutations::change_activation(activation_pool, self, rng);
                },
                _ => {},
            }
            proof {
                let gs2 = gs.push(*self);
                assert forall|k: int| 0 <= k < i + 1 implies #[trigger] activation_step(parameters.mutations@[k], gs2[k], gs2[k + 1]) by {
                    if k < i {
                        assert(gs2[k] == gs[k] && gs2[k + 1] == gs[k + 1]);
                    }
                }
                gs = gs2;
            }
            i = i + 1;
        }
    }

    /// Changes weights (see [`Mutations::change_weights`]) once for every weight-changing
    /// mutation of the parameters, with its share and cap.
    pub fn change_weights_with_context(&mut self, parameters: &Parameters, rng: &mut GenomeRng)
        requires
            old(self).wf(),
        ensures
            final(self).wf(),
            exists|gs: Seq<Genome>|
                gs.len() == parameters.mutations@.len() + 1 && gs[0] == *old(self) && gs.last() == *final(self)
                    && forall|k: int|
                    0 <= k < parameters.mutations@.len() ==> #[trigger] weights_step(
                        parameters.mutations@[k],
                        gs[k],
                        gs[k + 1],
                        old(rng).std_dev,
                    ),
            final(rng).cap == old(rng).cap,
            final(rng).std_dev == old(rng).std_dev,
    {
        let ghost mut gs: Seq<Genome> = seq![*self];
        let mut i: usize = 0;
        while i < parameters.mutations.len()
            invariant
                self.wf(),
                rng.cap == old(rng).cap,
                rng.std_dev == old(rng).std_dev,
                i <= parameters.mutations@.len(),
                gs.len() == i + 1,
                gs[0] == *old(self),
                gs.last() == *self,
                forall|k: int| 0 <= k < i ==> #[trigger] weights_step(parameters.mutations@[k], gs[k], gs[k + 1], old(rng).std_dev),
            decreases parameters.mutations@.len() - i,
        {
            match &parameters.mutations[i] {
                Mutations::ChangeWeights { percent_perturbed, weight_cap, .. } => {
                    Mutations::change_weights(*percent_perturbed, *weight_cap, self, rng);
                },
                _ => {},
            }
            proof {
                let gs2 = gs.push(*self);
                assert forall|k: int| 0 <= k < i + 1 implies #[trigger] weights_step(parameters.mutations@[k], gs2[k], gs2[k + 1], old(rng).std_dev) by {
                    if k < i {
                        assert(gs2[k] == gs[k] && gs2[k + 1] == gs[k + 1]);
                    }
                }
                gs = gs2;
            }
            i = i + 1;
        }
    }

    /// See [`Mutations::add_connection`].
    pub fn add_connection_with_context(&mut self, rng: &mut GenomeRng) -> (r: MutationResult)
        requires
            old(self).wf(),
            old(rng).cap >= 0,
        ensures
            final(self).wf(),
            connection_added(*old(self), *final(self), r, old(rng).cap, false),
            acyclic(old(self).feed_forward@) ==> acyclic(final(self).feed_forward@),
    {
        Mutations::add_connection(self, rng)
    }

    /// See [`Mutations::add_recurrent_connection`].
    pub fn add_recurrent_connection_with_context(&mut self, rng: &mut GenomeRng) -> (r: MutationResult)
        requires
            old(self).wf(),
            old(rng).cap >= 0,
        ensures
            final(self).wf(),
            connection_added(*old(self), *final(self), r, old(rng).cap, true),
    {
        Mutations::add_recurrent_connection(self, rng)
    }

    /// See [`Mutations::remove_node`].
    pub fn remove_node_with_context(&mut self, rng: &mut GenomeRng) -> (r: MutationResult)
        requires
            old(self).wf(),
        ensures
            final(self).wf(),
            node_removed(*old(self), *final(self), r),
            acyclic(old(self).feed_forward@) ==> acyclic(final(self).feed_forward@),
    {
        Mutations::remove_node(self, rng)
    }

    /// See [`Mutations::remove_connection`].
    pub fn remove_connection_with_context(&mut self, rng: &mut GenomeRng) -> (r: MutationResult)
        requires
            old(self).wf(),
        ensures
            final(self).wf(),
            connection_removed(*old(self), *final(self), r),
            acyclic(old(self).feed_forward@) ==> acyclic(final(self).feed_forward@),
    {
        Mutations::remove_connection(self, rng)
    }

    /// See [`Mutations::remove_recurrent_connection`].
    pub fn remove_recurrent_connection_with_context(&mut self, rng: &mut GenomeRng) -> (r: MutationResult)
        requires
            old(self).wf(),
        ensures
            final(self).wf(),
            recurrent_removed(*old(self), *final(self), r),
    {
        Mutations::remove_recurrent_connection(self, rng)
    }
}

} // verus!
