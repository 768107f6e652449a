//! The mutation operators, and the list-driven application of them.
use crate::connections::{connection_key, Connection};
use crate::genes::{has_key, keys_unique, Gene, Genes};
use crate::genome::{
    lemma_apart_within, lemma_has_node_push, acyclic, edge, enters_from_other, has_node, lemma_add_edge_acyclic, lemma_renamed_acyclic, lemma_same_edges_acyclic,
    lemma_split_acyclic, leaves_to_other, reaches, renamed, Genome,
};
use crate::ids::{Id, IdGenerator};
use crate::nodes::{node_key, Activation, Node};
use crate::parameters::Parameters;
use crate::rng::{is_order, capped_weight, lemma_reflected_in_range, reflected_weight, share, share_of, GenomeRng, PERTURBATION_BOUND, PROBABILITY_ONE, WEIGHT_ONE};
use vstd::prelude::*;

verus! {

/// Why a structural mutation could not be applied; the genome is then left unchanged.
#[derive(Debug, Clone, Copy, PartialEq, Eq, Structural)]
pub enum MutationError {
    CouldNotAddFeedForwardConnection,
    CouldNotAddRecurrentConnection,
    CouldNotRemoveNode,
    CouldNotRemoveFeedForwardConnection,
    CouldNotRemoveRecurrentConnection,
    CouldNotDuplicateNode,
}

impl MutationError {
    /// A sentence describing the error.
    pub fn message(&self) -> (r: &'static str) {
        match self {
            MutationError::CouldNotAddFeedForwardConnection => "No two nodes could be connected by a new feed-forward connection.",
            MutationError::CouldNotAddRecurrentConnection => "No two nodes could be connected by a new recurrent connection.",
            MutationError::CouldNotRemoveNode => "No removable node present in the genome.",
            MutationError::CouldNotRemoveFeedForwardConnection => "No removable feed-forward connection present in the genome.",
            MutationError::CouldNotRemoveRecurrentConnection => "No removable recurrent connection present in the genome.",
            MutationError::CouldNotDuplicateNode => "No node could be duplicated.",
        }
    }
}

/// The outcome of a mutation.
pub type MutationResult = Result<(), MutationError>;

/// Every mutation with its parameters. Each applies with its `chance` (fixed-point, see
/// [`crate::PROBABILITY_ONE`]); `percent_perturbed` is a fixed-point percentage and
/// `weight_cap` a fixed-point weight (see [`crate::WEIGHT_ONE`]).
#[derive(Debug, Clone)]
pub enum Mutations {
    ChangeWeights { chance: u64, percent_perturbed: u64, weight_cap: i64 },
    ChangeActivation { chance: u64, activation_pool: Vec<Activation> },
    AddNode { chance: u64, activation_pool: Vec<Activation> },
    AddConnection { chance: u64 },
    AddRecurrentConnection { chance: u64 },
    RemoveNode { chance: u64 },
    RemoveConnection { chance: u64 },
    RemoveRecurrentConnection { chance: u64 },
    DuplicateNode { chance: u64 },
}

/// The nodes a feed-forward connection may start at: inputs, then hidden nodes.
pub open spec fn feed_forward_starts(g: Genome) -> Seq<Node> {
    g.inputs@ + g.hidden@
}

/// The nodes a recurrent connection may start at: inputs, hidden nodes, then outputs.
pub open spec fn recurrent_starts(g: Genome) -> Seq<Node> {
    g.inputs@ + g.hidden@ + g.outputs@
}

/// The nodes a connection may end at: hidden nodes, then outputs.
pub open spec fn connection_ends(g: Genome) -> Seq<Node> {
    g.hidden@ + g.outputs@
}

/// `s -> e` may be added as a recurrent connection (when `recurrent`): it is not present yet;
/// or as a feed-forward one: it is no loop, not present yet, and would close no cycle.
pub open spec fn candidate(g: Genome, s: Id, e: Id, recurrent: bool) -> bool {
    if recurrent {
        !has_key(g.recurrent@, connection_key(s, e))
    } else {
        s != e && !has_key(g.feed_forward@, connection_key(s, e)) && !reaches(g.feed_forward@, e, s)
    }
}

/// Some node of `starts` and some node of `ends` form a candidate.
pub open spec fn can_connect(g: Genome, starts: Seq<Node>, ends: Seq<Node>, recurrent: bool) -> bool {
    exists|i: int, j: int|
        0 <= i < starts.len() && 0 <= j < ends.len() && #[trigger] candidate(g, starts[i].id, ends[j].id, recurrent)
}

/// Two identity caches, one extending the other, agree on the first identity for `key` that no
/// node or connection of `g` uses: the same split or duplication performed on equal genomes,
/// one after the other with one identity source, yields the same node.
pub proof fn lemma_first_free_agrees(a: IdGenerator, b: IdGenerator, key: (Id, Id), g: Genome, n1: Id, n2: Id)
    requires
        b.extends(a),
        first_free(a, key, g, n1),
        first_free(b, key, g, n2),
    ensures
        n1 == n2,
{
    let k1 = choose|k: int|
        0 <= k < a.cached(key).len() && a.cached(key)[k] == n1 && forall|j: int|
            0 <= j < k ==> uses(g, #[trigger] a.cached(key)[j]);
    let k2 = choose|k: int|
        0 <= k < b.cached(key).len() && b.cached(key)[k] == n2 && forall|j: int|
            0 <= j < k ==> uses(g, #[trigger] b.cached(key)[j]);
    let pre = b.cached(key).subrange(0, a.cached(key).len() as int);
    assert(pre == a.cached(key));
    assert(b.cached(key)[k1] == pre[k1]);
    if k2 < k1 {
        assert(b.cached(key)[k2] == pre[k2]);
        assert(uses(g, a.cached(key)[k2]));
    } else if k1 < k2 {
        assert(uses(g, b.cached(key)[k1]));
    }
}

/// Some connection of `c` starts or ends at `x`.
pub open spec fn is_endpoint(c: Seq<Connection>, x: Id) -> bool {
    exists|j: int| 0 <= j < c.len() && ((#[trigger] c[j]).input == x || c[j].output == x)
}

/// `after` is `before` with connection `i` split through node `n`: the connection into `n`
/// weighs one, the one out of it what connection `i` weighed, and connection `i` weighs zero.
pub open spec fn split(before: Seq<Connection>, after: Seq<Connection>, i: int, n: Id) -> bool {
    let c = before[i];
    after == before.update(i, Connection { input: c.input, output: c.output, weight: 0 }).push(
        Connection { input: c.input, output: n, weight: WEIGHT_ONE as i64 },
    ).push(Connection { input: n, output: c.output, weight: c.weight })
}

/// Some node or connection of `g` uses the identity `x`.
pub open spec fn uses(g: Genome, x: Id) -> bool {
    g.has_any_node(x) || is_endpoint(g.feed_forward@, x) || is_endpoint(g.recurrent@, x)
}

/// `n` is the first identity cached in `ids` for `key` that no node and no connection of `g`
/// uses.
pub open spec fn first_free(ids: IdGenerator, key: (Id, Id), g: Genome, n: Id) -> bool {
    &&& !uses(g, n)
    &&& exists|k: int|
        0 <= k < ids.cached(key).len() && ids.cached(key)[k] == n && forall|j: int|
            0 <= j < k ==> uses(g, #[trigger] ids.cached(key)[j])
}

/// `s -> e` may be added (see [`candidate`]).
fn is_candidate(g: &Genome, s: &Node, e: &Node, recurrent: bool) -> (r: bool)
    ensures
        r == candidate(*g, s.id, e.id, recurrent),
{
    if recurrent {
        !g.recurrent.contains_key((s.id.0, e.id.0))
    } else {
        s.id.0 != e.id.0 && !g.feed_forward.contains_key((s.id.0, e.id.0)) && !g.would_form_cycle(s, e)
    }
}

/// The first candidate pair in a scan of `starts` in the given order, each start tried against
/// `ends` in order.
fn find_pair(g: &Genome, starts: &Vec<Node>, ends: &Vec<Node>, order: &Vec<usize>, recurrent: bool) -> (r: Option<(Node, Node)>)
    requires
        is_order(order@, starts@.len()),
    ensures
        r.is_some() ==> exists|i: int, j: int|
            0 <= i < starts@.len() && 0 <= j < ends@.len() && starts@[i] == r.unwrap().0 && ends@[j] == r.unwrap().1
                && #[trigger] candidate(*g, starts@[i].id, ends@[j].id, recurrent),
        r.is_none() ==> !can_connect(*g, starts@, ends@, recurrent),
{
    let n = starts.len();
    let mut t: usize = 0;
    while t < n
        invariant
            n == starts@.len(),
            is_order(order@, n as nat),
            t <= n,
            forall|t2: int, j: int|
                0 <= t2 < t && 0 <= j < ends@.len() ==> !#[trigger] candidate(
                    *g,
                    starts@[order@[t2] as int].id,
                    ends@[j].id,
                    recurrent,
                ),
        decreases n - t,
    {
        let i = order[t];
        assert(i < n);
        let s = starts[i];
        let mut j: usize = 0;
        while j < ends.len()
            invariant
                n == starts@.len(),
                t < n,
                i < n,
                s == starts@[i as int],
                j <= ends@.len(),
                forall|j2: int| 0 <= j2 < j ==> !#[trigger] candidate(*g, s.id, ends@[j2].id, recurrent),
            decreases ends@.len() - j,
        {
            let e = ends[j];
            if is_candidate(g, &s, &e, recurrent) {
                return Some((s, e));
            }
            j = j + 1;
        }
        t = t + 1;
    }
    proof {
        assert forall|i: int, j: int| 0 <= i < n && 0 <= j < ends@.len() implies !#[trigger] candidate(
            *g,
            starts@[i].id,
            ends@[j].id,
            recurrent,
        ) by {
            assert(order@.contains(i as usize));
            let t2 = choose|t2: int| 0 <= t2 < order@.len() && order@[t2] == i as usize;
            assert(!candidate(*g, starts@[order@[t2] as int].id, ends@[j].id, recurrent));
        }
    }
    None
}

/// Some feed-forward or recurrent connection other than one from `exclude` leads into `node`.
pub open spec fn alternative_input(g: Genome, node: Id, exclude: Id) -> bool {
    enters_from_other(g.feed_forward@, node, exclude) || enters_from_other(g.recurrent@, node, exclude)
}

/// Some feed-forward or recurrent connection other than one into `exclude` leaves `node`.
pub open spec fn alternative_output(g: Genome, node: Id, exclude: Id) -> bool {
    leaves_to_other(g.feed_forward@, node, exclude) || leaves_to_other(g.recurrent@, node, exclude)
}

/// Removing the feed-forward connection `c` leaves its input with another way out and its
/// output with another way in.
pub open spec fn removable_connection(g: Genome, c: Connection) -> bool {
    alternative_input(g, c.output, c.input) && alternative_output(g, c.input, c.output)
}

/// Removing node `h` with its connections leaves every node that fed it with another way out,
/// and every node it fed with another way in.
pub open spec fn removable_node(g: Genome, h: Id) -> bool {
    forall|i: int|
        0 <= i < (g.feed_forward@ + g.recurrent@).len() ==> {
            &&& (#[trigger] (g.feed_forward@ + g.recurrent@)[i]).output == h ==> alternative_output(
                g,
                (g.feed_forward@ + g.recurrent@)[i].input,
                h,
            )
            &&& (g.feed_forward@ + g.recurrent@)[i].input == h ==> alternative_input(
                g,
                (g.feed_forward@ + g.recurrent@)[i].output,
                h,
            )
        }
}

/// The connections of `c` that do not touch node `h`, in order.
pub open spec fn without(c: Seq<Connection>, h: Id) -> Seq<Connection>
    decreases c.len(),
{
    if c.len() == 0 {
        Seq::empty()
    } else {
        let rest = without(c.drop_last(), h);
        if c.last().input != h && c.last().output != h {
            rest.push(c.last())
        } else {
            rest
        }
    }
}

/// What [`without`] keeps: exactly the connections that do not touch `h`, keys staying unique.
pub proof fn lemma_without(c: Seq<Connection>, h: Id)
    ensures
        forall|x: Connection| #[trigger] without(c, h).contains(x) <==> (c.contains(x) && x.input != h && x.output != h),
        keys_unique(c) ==> keys_unique(without(c, h)),
    decreases c.len(),
{
    if c.len() > 0 {
        let d = c.drop_last();
        lemma_without(d, h);
        let w = without(c, h);
        let wd = without(d, h);
        assert forall|x: Connection| #[trigger] w.contains(x) <==> (c.contains(x) && x.input != h && x.output != h) by {
            if c.contains(x) && x.input != h && x.output != h {
                let i = choose|i: int| 0 <= i < c.len() && c[i] == x;
                if i < c.len() - 1 {
                    assert(d[i] == x);
                    assert(wd.contains(x));
                    let j = choose|j: int| 0 <= j < wd.len() && wd[j] == x;
                    if c.last().input != h && c.last().output != h {
                        assert(w[j] == x);
                    }
                } else {
                    assert(w[w.len() - 1] == x);
                }
            }
            if w.contains(x) {
                let j = choose|j: int| 0 <= j < w.len() && w[j] == x;
                if j < wd.len() {
                    assert(wd[j] == x);
                    assert(wd.contains(x));
                    let i = choose|i: int| 0 <= i < d.len() && d[i] == x;
                    assert(c[i] == x);
                } else {
                    assert(c[c.len() - 1] == x);
                }
            }
        }
        if keys_unique(c) {
            assert(keys_unique(d)) by {
                assert forall|a: int, b: int| 0 <= a < d.len() && 0 <= b < d.len() && a != b implies (#[trigger] d[a]).key() != (#[trigger] d[b]).key() by {
                    assert(d[a] == c[a] && d[b] == c[b]);
                }
            }
            if c.last().input != h && c.last().output != h {
                assert forall|a: int, b: int| 0 <= a < w.len() && 0 <= b < w.len() && a != b implies (#[trigger] w[a]).key() != (#[trigger] w[b]).key() by {
                    if a < wd.len() && b < wd.len() {
                        assert(w[a] == wd[a] && w[b] == wd[b]);
                    } else if a < wd.len() {
                        assert(w[a] == wd[a]);
                        assert(wd.contains(wd[a]));
                        let i = choose|i: int| 0 <= i < d.len() && d[i] == wd[a];
                        assert(c[i] == d[i]);
                        assert(w[b] == c[c.len() - 1]);
                    } else {
                        assert(w[b] == wd[b]);
                        assert(wd.contains(wd[b]));
                        let i = choose|i: int| 0 <= i < d.len() && d[i] == wd[b];
                        assert(c[i] == d[i]);
                        assert(w[a] == c[c.len() - 1]);
                    }
                }
            }
        }
    }
}

/// Some feed-forward or recurrent connection of `g` leads from `x` to `y`.
pub open spec fn feeds(g: Genome, x: Id, y: Id) -> bool {
    exists|i: int|
        0 <= i < (g.feed_forward@ + g.recurrent@).len() && (#[trigger] (g.feed_forward@ + g.recurrent@)[i]).input == x
            && (g.feed_forward@ + g.recurrent@)[i].output == y
}

/// Some connection of `c` leaves `x`.
pub open spec fn has_out(c: Seq<Connection>, x: Id) -> bool {
    exists|i: int| 0 <= i < c.len() && (#[trigger] c[i]).input == x
}

/// Some connection of `c` enters `y`.
pub open spec fn has_in(c: Seq<Connection>, y: Id) -> bool {
    exists|i: int| 0 <= i < c.len() && (#[trigger] c[i]).output == y
}

/// Removing a removable node `h` with its connections leaves every other node that fed it with
/// a connection out of it, and every other node it fed with a connection into it.
pub proof fn lemma_remove_node_keeps_neighbours(g: Genome, h: Id)
    requires
        removable_node(g, h),
    ensures
        forall|x: Id|
            x != h && #[trigger] feeds(g, x, h) ==> has_out(without(g.feed_forward@, h), x) || has_out(
                without(g.recurrent@, h),
                x,
            ),
        forall|y: Id|
            y != h && #[trigger] feeds(g, h, y) ==> has_in(without(g.feed_forward@, h), y) || has_in(
                without(g.recurrent@, h),
                y,
            ),
{
    let all = g.feed_forward@ + g.recurrent@;
    lemma_without(g.feed_forward@, h);
    lemma_without(g.recurrent@, h);
    assert forall|x: Id|
        x != h && #[trigger] feeds(g, x, h) implies has_out(without(g.feed_forward@, h), x) || has_out(
        without(g.recurrent@, h),
        x,
    ) by {
        let i = choose|i: int| 0 <= i < all.len() && (#[trigger] all[i]).input == x && all[i].output == h;
        assert(alternative_output(g, x, h));
        if leaves_to_other(g.feed_forward@, x, h) {
            let j = choose|j: int| 0 <= j < g.feed_forward@.len() && (#[trigger] g.feed_forward@[j]).input == x && g.feed_forward@[j].output != h;
            let z = g.feed_forward@[j];
            assert(g.feed_forward@.contains(z));
            assert(without(g.feed_forward@, h).contains(z));
            let k = choose|k: int| 0 <= k < without(g.feed_forward@, h).len() && without(g.feed_forward@, h)[k] == z;
            assert(has_out(without(g.feed_forward@, h), x));
        } else {
            let j = choose|j: int| 0 <= j < g.recurrent@.len() && (#[trigger] g.recurrent@[j]).input == x && g.recurrent@[j].output != h;
            let z = g.recurrent@[j];
            assert(g.recurrent@.contains(z));
            assert(without(g.recurrent@, h).contains(z));
            let k = choose|k: int| 0 <= k < without(g.recurrent@, h).len() && without(g.recurrent@, h)[k] == z;
            assert(has_out(without(g.recurrent@, h), x));
        }
    }
    assert forall|y: Id|
        y != h && #[trigger] feeds(g, h, y) implies has_in(without(g.feed_forward@, h), y) || has_in(
        without(g.recurrent@, h),
        y,
    ) by {
        let i = choose|i: int| 0 <= i < all.len() && (#[trigger] all[i]).input == h && all[i].output == y;
        assert(alternative_input(g, y, h));
        if enters_from_other(g.feed_forward@, y, h) {
            let j = choose|j: int| 0 <= j < g.feed_forward@.len() && (#[trigger] g.feed_forward@[j]).output == y && g.feed_forward@[j].input != h;
            let z = g.feed_forward@[j];
            assert(g.feed_forward@.contains(z));
            assert(without(g.feed_forward@, h).contains(z));
            let k = choose|k: int| 0 <= k < without(g.feed_forward@, h).len() && without(g.feed_forward@, h)[k] == z;
            assert(has_in(without(g.feed_forward@, h), y));
        } else {
            let j = choose|j: int| 0 <= j < g.recurrent@.len() && (#[trigger] g.recurrent@[j]).output == y && g.recurrent@[j].input != h;
            let z = g.recurrent@[j];
            assert(g.recurrent@.contains(z));
            assert(without(g.recurrent@, h).contains(z));
            let k = choose|k: int| 0 <= k < without(g.recurrent@, h).len() && without(g.recurrent@, h)[k] == z;
            assert(has_in(without(g.recurrent@, h), y));
        }
    }
}

/// The connections of `c` that do not touch node `h`.
fn detach(c: &Genes<Connection>, h: Id) -> (r: Genes<Connection>)
    requires
        c.wf(),
    ensures
        r.wf(),
        r@ == without(c@, h),
{
    let mut v: Vec<Connection> = Vec::new();
    let mut i: usize = 0;
    while i < c.0.len()
        invariant
            i <= c@.len(),
            v@ == without(c@.subrange(0, i as int), h),
        decreases c@.len() - i,
    {
        let x = c.0[i];
        assert(c@.subrange(0, i + 1).drop_last() =~= c@.subrange(0, i as int));
        if x.input.0 != h.0 && x.output.0 != h.0 {
            v.push(x);
        }
        i = i + 1;
    }
    assert(c@.subrange(0, c@.len() as int) =~= c@);
    proof {
        lemma_without(c@, h);
    }
    Genes(v)
}

/// Node `h` may be removed (see [`removable_node`]).
fn is_removable_node(g: &Genome, h: Id) -> (r: bool)
    ensures
        r == removable_node(*g, h),
{
    let all = g.connections();
    let mut i: usize = 0;
    while i < all.len()
        invariant
            all@ == g.feed_forward@ + g.recurrent@,
            i <= all@.len(),
            forall|j: int|
                0 <= j < i ==> {
                    &&& (#[trigger] all@[j]).output == h ==> alternative_output(*g, all@[j].input, h)
                    &&& all@[j].input == h ==> alternative_input(*g, all@[j].output, h)
                },
        decreases all@.len() - i,
    {
        let c = all[i];
        if c.output.0 == h.0 && !g.has_alternative_output(c.input, h) {
            return false;
        }
        if c.input.0 == h.0 && !g.has_alternative_input(c.output, h) {
            return false;
        }
        i = i + 1;
    }
    true
}


/// The slot of `positions` that holds `i` (meaningful where one does).
pub open spec fn slot(positions: Seq<usize>, i: int) -> int {
    choose|t: int| 0 <= t < positions.len() && positions[t] == i
}

/// Some slot of `positions` holds `i`.
pub open spec fn listed(positions: Seq<usize>, i: int) -> bool {
    exists|t: int| 0 <= t < positions.len() && positions[t] == i
}

/// `c` with the weight at each listed position moved by the perturbation of its slot under the
/// reflect-and-halve policy (see [`crate::rng::reflected_weight`]); a weight outside
/// `[-cap, cap]` stays, as the policy is only defined inside.
pub open spec fn perturbed(c: Seq<Connection>, positions: Seq<usize>, ps: Seq<i128>, cap: i64) -> Seq<Connection> {
    Seq::new(
        c.len(),
        |i: int|
            if listed(positions, i) && 0 <= cap && -cap <= c[i].weight <= cap {
                Connection {
                    input: c[i].input,
                    output: c[i].output,
                    weight: reflected_weight(c[i].weight as int, ps[slot(positions, i)] as int, cap as int) as i64,
                }
            } else {
                c[i]
            },
    )
}

/// Every weight of `c` lies in `[-cap, cap]`.
pub open spec fn weights_within(c: Seq<Connection>, cap: i64) -> bool {
    forall|i: int| 0 <= i < c.len() ==> -cap <= #[trigger] c[i].weight <= cap
}

/// Perturbing weights that all lie in `[-cap, cap]` keeps them there, whatever the positions and
/// perturbations.
pub proof fn lemma_perturbed_within(c: Seq<Connection>, positions: Seq<usize>, ps: Seq<i128>, cap: i64)
    requires
        weights_within(c, cap),
    ensures
        weights_within(perturbed(c, positions, ps, cap), cap),
{
    assert forall|i: int| 0 <= i < c.len() implies -cap <= #[trigger] perturbed(c, positions, ps, cap)[i].weight <= cap by {
        if listed(positions, i) && 0 <= cap && -cap <= c[i].weight <= cap {
            lemma_reflected_in_range(c[i].weight as int, ps[slot(positions, i)] as int, cap as int);
        }
    }
}

impl Genes<Connection> {
    /// Moves the weight at each of the distinct `positions` by the perturbation of the same slot,
    /// as [`perturbed`] says.
    pub fn perturb_at(&mut self, positions: &Vec<usize>, ps: &Vec<i128>, cap: i64)
        requires
            old(self).wf(),
            positions@.len() == ps@.len(),
            positions@.no_duplicates(),
            forall|t: int| 0 <= t < positions@.len() ==> #[trigger] positions@[t] < old(self)@.len(),
            forall|t: int| 0 <= t < ps@.len() ==> -PERTURBATION_BOUND <= #[trigger] ps@[t] <= PERTURBATION_BOUND,
        ensures
            final(self).wf(),
            final(self)@ == perturbed(old(self)@, positions@, ps@, cap),
    {
        let ghost c0 = self@;
        let mut t: usize = 0;
        while t < positions.len()
            invariant
                c0 == old(self)@,
                keys_unique(c0),
                self.wf(),
                t <= positions@.len(),
                positions@.len() == ps@.len(),
                positions@.no_duplicates(),
                forall|u: int| 0 <= u < positions@.len() ==> #[trigger] positions@[u] < c0.len(),
                forall|u: int| 0 <= u < ps@.len() ==> -PERTURBATION_BOUND <= #[trigger] ps@[u] <= PERTURBATION_BOUND,
                self@ == perturbed(c0, positions@.subrange(0, t as int), ps@, cap),
            decreases positions@.len() - t,
        {
            let i = positions[t];
            let x = self.0[i];
            let ghost pre = positions@.subrange(0, t as int);
            let ghost post = positions@.subrange(0, t + 1);
            proof {
                assert(!listed(pre, i as int)) by {
                    if listed(pre, i as int) {
                        let u = choose|u: int| 0 <= u < pre.len() && pre[u] == i;
                        assert(positions@[u] == positions@[t as int]);
                    }
                }
                assert(x == c0[i as int]);
            }
            if 0 <= cap && -cap <= x.weight && x.weight <= cap {
                let w = capped_weight(x.weight, ps[t], cap);
                self.0.set(i, Connection::new(x.input, w, x.output));
            }
            proof {
                assert forall|j: int| 0 <= j < c0.len() implies #[trigger] self@[j] == perturbed(c0, post, ps@, cap)[j] by {
                    if j == i {
                        assert(post[t as int] == i);
                        assert(listed(post, j));
                        let u = slot(post, j);
                        if u != t {
                            assert(positions@[u] == positions@[t as int]);
                        }
                    } else {
                        assert(self@[j] == perturbed(c0, pre, ps@, cap)[j]);
                        if listed(pre, j) {
                            let u = slot(pre, j);
                            assert(post[u] == j);
                            assert(listed(post, j));
                            let v = slot(post, j);
                            if v != u {
                                assert(positions@[u] == positions@[v]);
                            }
                        }
                        if listed(post, j) {
                            let v = slot(post, j);
                            assert(v != t);
                            assert(pre[v] == j);
                        }
                    }
                }
                assert(self@ =~= perturbed(c0, post, ps@, cap));
                assert forall|a: int, b: int| 0 <= a < self@.len() && 0 <= b < self@.len() && a != b implies (#[trigger] self@[a]).key() != (#[trigger] self@[b]).key() by {
                    assert(self@[a].key() == c0[a].key());
                    assert(self@[b].key() == c0[b].key());
                }
            }
            t = t + 1;
        }
        proof {
            assert(positions@.subrange(0, positions@.len() as int) =~= positions@);
        }
    }
}

/// Perturbs the weights of a `percent_perturbed` share of `c` (rounded up): the positions are the
/// first ones of a random order, the perturbations fresh samples.
fn perturb_share(c: &mut Genes<Connection>, percent_perturbed: u64, cap: i64, rng: &mut GenomeRng)
    requires
        old(c).wf(),
    ensures
        final(c).wf(),
        perturbed_share(old(c)@, final(c)@, percent_perturbed, cap, old(rng).std_dev),
        final(rng).cap == old(rng).cap,
        final(rng).std_dev == old(rng).std_dev,
{
    let n = c.0.len();
    let k = share(percent_perturbed, n);
    let mut positions = rng.shuffled_positions(n);
    positions.truncate(k);
    let mut ps: Vec<i128> = Vec::new();
    while ps.len() < k
        invariant
            ps@.len() <= k,
            forall|u: int| 0 <= u < ps@.len() ==> -PERTURBATION_BOUND <= #[trigger] ps@[u] <= PERTURBATION_BOUND,
            forall|u: int| 0 <= u < ps@.len() ==> -6 * old(rng).std_dev <= #[trigger] ps@[u] <= 6 * old(rng).std_dev,
            rng.cap == old(rng).cap,
            rng.std_dev == old(rng).std_dev,
        decreases k - ps@.len(),
    {
        let p = rng.perturbation();
        ps.push(p);
    }
    c.perturb_at(&positions, &ps, cap);
    assert(perturbed(old(c)@, positions@, ps@, cap) == c@);
}

/// The identities of all nodes of `g`, then the end points of its connections.
fn taken_ids(g: &Genome) -> (r: Vec<Id>)
    ensures
        r@.len() == g.inputs@.len() + g.hidden@.len() + g.outputs@.len() + 2 * g.feed_forward@.len() + 2
            * g.recurrent@.len(),
        forall|x: Id| #[trigger] r@.contains(x) <==> uses(*g, x),
{
    let nodes = g.nodes();
    let mut r: Vec<Id> = Vec::new();
    let mut i: usize = 0;
    while i < nodes.len()
        invariant
            nodes@ == g.inputs@ + g.hidden@ + g.outputs@,
            i <= nodes@.len(),
            r@.len() == i,
            forall|j: int| 0 <= j < i ==> r@[j] == (#[trigger] nodes@[j]).id,
        decreases nodes@.len() - i,
    {
        r.push(nodes[i].id);
        i = i + 1;
    }
    let ghost nl = nodes@.len() as int;
    let mut i: usize = 0;
    while i < g.feed_forward.0.len()
        invariant
            nodes@ == g.inputs@ + g.hidden@ + g.outputs@,
            nl == nodes@.len(),
            i <= g.feed_forward@.len(),
            r@.len() == nl + 2 * i,
            forall|j: int| 0 <= j < nl ==> r@[j] == (#[trigger] nodes@[j]).id,
            forall|j: int| 0 <= j < i ==> r@[nl + 2 * j] == (#[trigger] g.feed_forward@[j]).input && r@[nl + 2 * j + 1] == g.feed_forward@[j].output,
        decreases g.feed_forward@.len() - i,
    {
        r.push(g.feed_forward.0[i].input);
        r.push(g.feed_forward.0[i].output);
        i = i + 1;
    }
    let ghost fl = r@.len() as int;
    let mut i: usize = 0;
    while i < g.recurrent.0.len()
        invariant
            nodes@ == g.inputs@ + g.hidden@ + g.outputs@,
            nl == nodes@.len(),
            fl == nl + 2 * g.feed_forward@.len(),
            i <= g.recurrent@.len(),
            r@.len() == fl + 2 * i,
            forall|j: int| 0 <= j < nl ==> r@[j] == (#[trigger] nodes@[j]).id,
            forall|j: int| 0 <= j < g.feed_forward@.len() ==> r@[nl + 2 * j] == (#[trigger] g.feed_forward@[j]).input && r@[nl + 2 * j + 1] == g.feed_forward@[j].output,
            forall|j: int| 0 <= j < i ==> r@[fl + 2 * j] == (#[trigger] g.recurrent@[j]).input && r@[fl + 2 * j + 1] == g.recurrent@[j].output,
        decreases g.recurrent@.len() - i,
    {
        r.push(g.recurrent.0[i].input);
        r.push(g.recurrent.0[i].output);
        i = i + 1;
    }
    proof {
        let ins = g.inputs@;
        let hid = g.hidden@;
        let outs = g.outputs@;
        assert forall|x: Id| #[trigger] r@.contains(x) <==> uses(*g, x) by {
            if r@.contains(x) {
                let j = choose|j: int| 0 <= j < r@.len() && r@[j] == x;
                if j >= fl {
                    let q = (j - fl) / 2;
                    assert(0 <= q < g.recurrent@.len());
                    if (j - fl) % 2 == 0 {
                        assert(j == fl + 2 * q);
                        assert(r@[fl + 2 * q] == g.recurrent@[q].input);
                    } else {
                        assert(j == fl + 2 * q + 1);
                        assert(r@[fl + 2 * q + 1] == g.recurrent@[q].output);
                    }
                } else if j < nl {
                    assert(r@[j] == nodes@[j].id);
                    if j < ins.len() {
                        assert(nodes@[j] == ins[j]);
                        assert(ins[j].key() == node_key(x));
                    } else if j < ins.len() + hid.len() {
                        assert(nodes@[j] == hid[j - ins.len()]);
                        assert(hid[j - ins.len()].key() == node_key(x));
                    } else {
                        assert(nodes@[j] == outs[j - ins.len() - hid.len()]);
                        assert(outs[j - ins.len() - hid.len()].key() == node_key(x));
                    }
                } else {
                    let q = (j - nl) / 2;
                    assert(0 <= q < g.feed_forward@.len());
                    if (j - nl) % 2 == 0 {
                        assert(j == nl + 2 * q);
                        assert(r@[nl + 2 * q] == g.feed_forward@[q].input);
                    } else {
                        assert(j == nl + 2 * q + 1);
                        assert(r@[nl + 2 * q + 1] == g.feed_forward@[q].output);
                    }
                }
            }
            if has_node(ins, x) {
                let j = choose|j: int| 0 <= j < ins.len() && (#[trigger] ins[j]).key() == node_key(x);
                assert(nodes@[j] == ins[j]);
                assert(r@[j] == x);
            }
            if has_node(hid, x) {
                let j = choose|j: int| 0 <= j < hid.len() && (#[trigger] hid[j]).key() == node_key(x);
                assert(nodes@[ins.len() + j] == hid[j]);
                assert(r@[ins.len() + j] == x);
            }
            if has_node(outs, x) {
                let j = choose|j: int| 0 <= j < outs.len() && (#[trigger] outs[j]).key() == node_key(x);
                assert(nodes@[ins.len() + hid.len() + j] == outs[j]);
                assert(r@[ins.len() + hid.len() + j] == x);
            }
            if is_endpoint(g.feed_forward@, x) {
                let j = choose|j: int| 0 <= j < g.feed_forward@.len() && ((#[trigger] g.feed_forward@[j]).input == x || g.feed_forward@[j].output == x);
                assert(r@[nl + 2 * j] == g.feed_forward@[j].input);
                assert(r@[nl + 2 * j + 1] == g.feed_forward@[j].output);
            }
            if is_endpoint(g.recurrent@, x) {
                let j = choose|j: int| 0 <= j < g.recurrent@.len() && ((#[trigger] g.recurrent@[j]).input == x || g.recurrent@[j].output == x);
                assert(r@[fl + 2 * j] == g.recurrent@[j].input);
                assert(r@[fl + 2 * j + 1] == g.recurrent@[j].output);
            }
        }
    }
    r
}

/// Half of `w`, rounded towards zero.
pub open spec fn half(w: i64) -> i64 {
    if w >= 0 {
        (w / 2) as i64
    } else {
        (-((-w) / 2)) as i64
    }
}

/// Half of `w`, rounded towards zero.
fn halve(w: i64) -> (r: i64)
    ensures
        r == half(w),
{
    if w >= 0 {
        w / 2
    } else {
        let m: i128 = -(w as i128);
        (-(m / 2)) as i64
    }
}

/// `x` leaves `h` for another node.
pub open spec fn out_of(x: Connection, h: Id) -> bool {
    x.input == h && x.output != h
}

/// `x` enters `h` from another node.
pub open spec fn into(x: Connection, h: Id) -> bool {
    x.output == h && x.input != h
}

/// What `x` becomes when `h` is duplicated: a connection leaving `h` for another node weighs half.
pub open spec fn halved_if_out(x: Connection, h: Id) -> Connection {
    if out_of(x, h) {
        Connection { input: x.input, output: x.output, weight: half(x.weight) }
    } else {
        x
    }
}

/// The copy of `x` that duplicating `h` as `n` adds, if `x` touches `h`.
pub open spec fn copy_for(x: Connection, h: Id, n: Id) -> Connection {
    if out_of(x, h) {
        Connection { input: n, output: x.output, weight: half(x.weight) }
    } else if into(x, h) {
        Connection { input: x.input, output: n, weight: x.weight }
    } else {
        Connection { input: n, output: n, weight: x.weight }
    }
}

/// `after` is `before` with node `h` duplicated as `n`: the connections keep their places, those
/// leaving `h` for another node at half weight; after them come the copies (see [`copy_for`]) of
/// the connections touching `h`, one for each, and nothing else.
pub open spec fn duplicated(before: Seq<Connection>, after: Seq<Connection>, h: Id, n: Id) -> bool {
    &&& after.len() >= before.len()
    &&& forall|i: int| 0 <= i < before.len() ==> after[i] == halved_if_out(#[trigger] before[i], h)
    &&& forall|i: int|
        0 <= i < before.len() && (#[trigger] before[i].input == h || before[i].output == h) ==> after.contains(
            copy_for(before[i], h, n),
        )
    &&& forall|j: int| before.len() <= j < after.len() ==> copy_of_some(before, before.len() as int, h, n, #[trigger] after[j])
}

/// `x` is the copy of one of the first `upto` connections of `before` that touch `h`.
pub open spec fn copy_of_some(before: Seq<Connection>, upto: int, h: Id, n: Id, x: Connection) -> bool {
    exists|i: int|
        0 <= i < upto && (before[i].input == h || before[i].output == h) && x == #[trigger] copy_for(before[i], h, n)
}

/// Duplicates node `h` as `n` in the connections `c`, none of which uses `n`.
fn duplicate_connections(c: &mut Genes<Connection>, h: Id, n: Id)
    requires
        old(c).wf(),
        !is_endpoint(old(c)@, n),
    ensures
        final(c).wf(),
        duplicated(old(c)@, final(c)@, h, n),
{
    let len = c.0.len();
    let ghost before = c@;
    let mut i: usize = 0;
    while i < len
        invariant
            len == before.len(),
            before == old(c)@,
            keys_unique(before),
            !is_endpoint(before, n),
            c.wf(),
            i <= len,
            c@.len() >= len,
            forall|k: int| 0 <= k < len ==> c@[k] == (if k < i { halved_if_out(#[trigger] before[k], h) } else { before[k] }),
            forall|k: int|
                0 <= k < i && (#[trigger] before[k].input == h || before[k].output == h) ==> c@.contains(
                    copy_for(before[k], h, n),
                ),
            forall|j: int| len <= j < c@.len() ==> copy_of_some(before, i as int, h, n, #[trigger] c@[j]),
        decreases len - i,
    {
        let x = c.0[i];
        let ghost pre = c@;
        assert(x == before[i as int]);
        if x.input.0 == h.0 || x.output.0 == h.0 {
            let copy = if x.input.0 == h.0 && x.output.0 != h.0 {
                let w = halve(x.weight);
                c.0.set(i, Connection::new(x.input, w, x.output));
                Connection::new(n, w, x.output)
            } else if x.output.0 == h.0 && x.input.0 != h.0 {
                Connection::new(x.input, x.weight, n)
            } else {
                Connection::new(n, x.weight, n)
            };
            assert(copy == copy_for(before[i as int], h, n));
            let ghost mid = c@;
            proof {
                assert forall|k: int| 0 <= k < len implies (#[trigger] mid[k]).key() == before[k].key() by {
                    if k == i as int {
                        assert(mid[k] == halved_if_out(before[k], h));
                    }
                }
                assert forall|j: int| 0 <= j < mid.len() implies (#[trigger] mid[j]).key() != copy.key() by {
                    if j < len {
                        assert(mid[j].key() == before[j].key());
                        assert(copy.input == n || copy.output == n);
                        if before[j].input == n || before[j].output == n {
                            assert(is_endpoint(before, n));
                        }
                    } else {
                        assert(copy_of_some(before, i as int, h, n, mid[j]));
                        let k = choose|k: int|
                            0 <= k < i && (before[k].input == h || before[k].output == h) && mid[j]
                                == #[trigger] copy_for(before[k], h, n);
                        if mid[j].key() == copy.key() {
                            assert(before[k].key() == before[i as int].key());
                        }
                    }
                }
            }
            c.insert(copy);
            proof {
                assert(c@ == mid.push(copy));
                assert(c@[c@.len() - 1] == copy);
                assert forall|k: int|
                    0 <= k < i + 1 && (#[trigger] before[k].input == h || before[k].output == h) implies c@.contains(
                    copy_for(before[k], h, n),
                ) by {
                    if k < i {
                        let w = choose|w: int| 0 <= w < pre.len() && pre[w] == copy_for(before[k], h, n);
                        if w < len {
                            assert(pre[w] == before[w]);
                            assert(is_endpoint(before, n));
                        }
                        assert(c@[w] == pre[w]);
                    }
                }
                assert forall|j: int| len <= j < c@.len() implies copy_of_some(before, i + 1, h, n, #[trigger] c@[j]) by {
                    if j < pre.len() {
                        assert(c@[j] == pre[j]);
                        assert(copy_of_some(before, i as int, h, n, pre[j]));
                        let k = choose|k: int|
                            0 <= k < i && (before[k].input == h || before[k].output == h) && pre[j]
                                == #[trigger] copy_for(before[k], h, n);
                    } else {
                        assert(c@[j] == copy);
                        assert(copy == copy_for(before[i as int], h, n));
                    }
                }
            }
        }
        proof {
            if !(x.input == h || x.output == h) {
                assert forall|j: int| len <= j < c@.len() implies copy_of_some(before, i + 1, h, n, #[trigger] c@[j]) by {
                    assert(copy_of_some(before, i as int, h, n, c@[j]));
                    let k = choose|k: int|
                        0 <= k < i && (before[k].input == h || before[k].output == h) && c@[j]
                            == #[trigger] copy_for(before[k], h, n);
                }
            }
        }
        i = i + 1;
    }
    assert(duplicated(before, c@, h, n));
}

/// The five gene sets of `a` and `b` are equal.
pub open spec fn same_genes(a: Genome, b: Genome) -> bool {
    &&& a.inputs@ == b.inputs@
    &&& a.hidden@ == b.hidden@
    &&& a.outputs@ == b.outputs@
    &&& a.feed_forward@ == b.feed_forward@
    &&& a.recurrent@ == b.recurrent@
}

/// `ids` can hand out as many fresh identities as adding or duplicating a node in `g` may need.
pub open spec fn room_for(g: Genome, ids: IdGenerator) -> bool {
    ids.counter() + g.inputs@.len() + g.hidden@.len() + g.outputs@.len() + 2 * g.feed_forward@.len() + 2
        * g.recurrent@.len() + 1 < u64::MAX
}

/// Whether `ids` has room for what adding or duplicating a node in `g` may need.
pub(crate) fn has_room(g: &Genome, ids: &IdGenerator) -> (r: bool)
    ensures
        r == room_for(*g, *ids),
{
    let need: u128 = g.inputs.len() as u128 + g.hidden.len() as u128 + g.outputs.len() as u128 + 2
        * (g.feed_forward.len() as u128) + 2 * (g.recurrent.len() as u128) + 1;
    need < ids.room() as u128
}

/// Taking connections away keeps a set acyclic: removing the one at `i`.
pub proof fn lemma_removed_acyclic(c: Seq<Connection>, i: int)
    requires
        acyclic(c),
        0 <= i < c.len(),
    ensures
        acyclic(c.remove(i)),
{
    let d = c.remove(i);
    let z = Id(0);
    assert forall|u: Id, v: Id| #[trigger] edge(d, u, v) implies edge(c, renamed(u, z, z), renamed(v, z, z)) by {
        let j = choose|j: int| 0 <= j < d.len() && (#[trigger] d[j]).input == u && d[j].output == v;
        let k = if j < i { j } else { j + 1 };
        assert(d[j] == c[k]);
    }
    lemma_renamed_acyclic(c, d, z, z);
}

/// Taking connections away keeps a set acyclic: those touching `h`.
pub proof fn lemma_without_acyclic(c: Seq<Connection>, h: Id)
    requires
        acyclic(c),
    ensures
        acyclic(without(c, h)),
{
    let d = without(c, h);
    let z = Id(0);
    lemma_without(c, h);
    assert forall|u: Id, v: Id| #[trigger] edge(d, u, v) implies edge(c, renamed(u, z, z), renamed(v, z, z)) by {
        let j = choose|j: int| 0 <= j < d.len() && (#[trigger] d[j]).input == u && d[j].output == v;
        assert(d.contains(d[j]));
        let k = choose|k: int| 0 <= k < c.len() && c[k] == d[j];
        assert(c[k].input == u && c[k].output == v);
    }
    lemma_renamed_acyclic(c, d, z, z);
}

/// Perturbing weights leaves the connected pairs, so acyclicity, as they are.
pub proof fn lemma_perturbed_acyclic(c: Seq<Connection>, positions: Seq<usize>, ps: Seq<i128>, cap: i64)
    ensures
        acyclic(c) <==> acyclic(perturbed(c, positions, ps, cap)),
{
    let d = perturbed(c, positions, ps, cap);
    assert forall|u: Id, v: Id| #[trigger] edge(d, u, v) <==> edge(c, u, v) by {
        if edge(d, u, v) {
            let j = choose|j: int| 0 <= j < d.len() && (#[trigger] d[j]).input == u && d[j].output == v;
            assert(c[j].input == u && c[j].output == v);
        }
        if edge(c, u, v) {
            let j = choose|j: int| 0 <= j < c.len() && (#[trigger] c[j]).input == u && c[j].output == v;
            assert(d[j].input == u && d[j].output == v);
        }
    }
    lemma_same_edges_acyclic(c, d);
}

/// Duplicating node `h` as a node `n` that no connection touched keeps a set acyclic: read as
/// `h`, every copy is a connection that was there.
pub proof fn lemma_duplicated_acyclic(before: Seq<Connection>, after: Seq<Connection>, h: Id, n: Id)
    requires
        acyclic(before),
        duplicated(before, after, h, n),
        !is_endpoint(before, n),
    ensures
        acyclic(after),
{
    assert forall|u: Id, v: Id| #[trigger] edge(after, u, v) implies edge(before, renamed(u, n, h), renamed(v, n, h)) by {
        let j = choose|j: int| 0 <= j < after.len() && (#[trigger] after[j]).input == u && after[j].output == v;
        if j < before.len() {
            assert(after[j] == halved_if_out(before[j], h));
            if before[j].input == n || before[j].output == n {
                assert(is_endpoint(before, n));
            }
            assert(before[j].input == u && before[j].output == v);
        } else {
            assert(copy_of_some(before, before.len() as int, h, n, after[j]));
            let i = choose|i: int|
                0 <= i < before.len() && (before[i].input == h || before[i].output == h) && after[j]
                    == #[trigger] copy_for(before[i], h, n);
            if before[i].input == n || before[i].output == n {
                assert(is_endpoint(before, n));
            }
            assert(before[i].input == renamed(u, n, h) && before[i].output == renamed(v, n, h));
        }
    }
    lemma_renamed_acyclic(before, after, n, h);
}

/// `a` followed by `b`, as a new vector.
fn concat_nodes(a: &Genes<Node>, b: &Genes<Node>) -> (r: Vec<Node>)
    ensures
        r@ == a@ + b@,
{
    let mut r = a.copied().0;
    let mut rest = b.copied().0;
    r.append(&mut rest);
    r
}

/// `after` is `before` with a `percent` share of its weights (rounded up, at distinct positions)
/// moved by perturbations of at most `6 * std_dev` each, as [`perturbed`] says.
pub open spec fn perturbed_share(before: Seq<Connection>, after: Seq<Connection>, percent: u64, cap: i64, std_dev: u64) -> bool {
    exists|positions: Seq<usize>, ps: Seq<i128>|
        positions.len() == share_of(percent, before.len()) && positions.no_duplicates() && ps.len() == positions.len()
            && (forall|t: int| 0 <= t < ps.len() ==> -6 * std_dev <= #[trigger] ps[t] <= 6 * std_dev)
            && #[trigger] perturbed(before, positions, ps, cap) == after
}

/// What [`Mutations::change_weights`] does: a share of the feed-forward and of the recurrent
/// weights is perturbed, nothing else changes.
pub open spec fn weights_changed(old: Genome, new: Genome, percent: u64, cap: i64, std_dev: u64) -> bool {
    &&& new.inputs@ == old.inputs@
    &&& new.hidden@ == old.hidden@
    &&& new.outputs@ == old.outputs@
    &&& perturbed_share(old.feed_forward@, new.feed_forward@, percent, cap, std_dev)
    &&& perturbed_share(old.recurrent@, new.recurrent@, percent, cap, std_dev)
}

/// What [`Mutations::change_activation`] does: one hidden node gets another activation of the
/// pool where the pool has one, nothing else changes.
pub open spec fn activation_changed(old: Genome, new: Genome, pool: Seq<Activation>) -> bool {
    &&& new.inputs@ == old.inputs@
    &&& new.outputs@ == old.outputs@
    &&& new.feed_forward@ == old.feed_forward@
    &&& new.recurrent@ == old.recurrent@
    &&& old.hidden@.len() == 0 ==> new.hidden@ == old.hidden@
    &&& old.hidden@.len() > 0 ==> exists|i: int, a: Activation|
        0 <= i < old.hidden@.len() && new.hidden@ == old.hidden@.update(
            i,
            Node { id: old.hidden@[i].id, order: 0, activation: a },
        ) && (if exists|p: Activation| #[trigger] pool.contains(p) && p != old.hidden@[i].activation {
            pool.contains(a) && a != old.hidden@[i].activation
        } else {
            a == old.hidden@[i].activation
        })
}

/// What [`Mutations::add_node`] does: a feed-forward connection is split through a new hidden
/// node, whose identity is the first free one cached for the connection's end points.
pub open spec fn node_added(old: Genome, new: Genome, old_ids: IdGenerator, new_ids: IdGenerator, pool: Seq<Activation>) -> bool {
    &&& new.inputs@ == old.inputs@
    &&& new.outputs@ == old.outputs@
    &&& new.recurrent@ == old.recurrent@
    &&& new_ids.extends(old_ids)
    &&& new.feed_forward@.len() == old.feed_forward@.len() + 2
    &&& new.hidden@.len() == old.hidden@.len() + 1
    &&& exists|i: int, n: Node|
        0 <= i < old.feed_forward@.len() && #[trigger] split(old.feed_forward@, new.feed_forward@, i, n.id)
            && new.hidden@ == old.hidden@.push(n) && n.order == 0 && pool.contains(n.activation) && first_free(
            new_ids,
            (old.feed_forward@[i].input, old.feed_forward@[i].output),
            old,
            n.id,
        )
}

/// What [`Mutations::add_connection`] (or, where `recurrent`, [`Mutations::add_recurrent_connection`])
/// does: where a candidate pair exists, a connection between such a pair is added, weighing at
/// most `cap`; else nothing changes and the error says so.
pub open spec fn connection_added(old: Genome, new: Genome, r: MutationResult, cap: i64, recurrent: bool) -> bool {
    let starts = if recurrent { recurrent_starts(old) } else { feed_forward_starts(old) };
    &&& new.inputs@ == old.inputs@
    &&& new.hidden@ == old.hidden@
    &&& new.outputs@ == old.outputs@
    &&& (if recurrent { new.feed_forward@ == old.feed_forward@ } else { new.recurrent@ == old.recurrent@ })
    &&& r.is_ok() == can_connect(old, starts, connection_ends(old), recurrent)
    &&& r.is_ok() ==> exists|c: Connection|
        #[trigger] candidate(old, c.input, c.output, recurrent) && has_node(starts, c.input) && has_node(
            connection_ends(old),
            c.output,
        ) && -cap <= c.weight <= cap && (if recurrent {
            new.recurrent@ == old.recurrent@.push(c)
        } else {
            new.feed_forward@ == old.feed_forward@.push(c)
        })
    &&& r.is_err() ==> same_genes(new, old) && r == Err::<(), MutationError>(
        if recurrent {
            MutationError::CouldNotAddRecurrentConnection
        } else {
            MutationError::CouldNotAddFeedForwardConnection
        },
    )
}

/// What [`Mutations::remove_connection`] does.
pub open spec fn connection_removed(old: Genome, new: Genome, r: MutationResult) -> bool {
    &&& new.inputs@ == old.inputs@
    &&& new.hidden@ == old.hidden@
    &&& new.outputs@ == old.outputs@
    &&& new.recurrent@ == old.recurrent@
    &&& r.is_ok() == exists|i: int|
        0 <= i < old.feed_forward@.len() && #[trigger] removable_connection(old, old.feed_forward@[i])
    &&& r.is_ok() ==> exists|i: int|
        0 <= i < old.feed_forward@.len() && #[trigger] removable_connection(old, old.feed_forward@[i])
            && new.feed_forward@ == old.feed_forward@.remove(i)
    &&& r.is_err() ==> r == Err::<(), MutationError>(MutationError::CouldNotRemoveFeedForwardConnection)
        && new.feed_forward@ == old.feed_forward@
}

/// What [`Mutations::remove_node`] does.
pub open spec fn node_removed(old: Genome, new: Genome, r: MutationResult) -> bool {
    &&& new.inputs@ == old.inputs@
    &&& new.outputs@ == old.outputs@
    &&& r.is_ok() == exists|i: int|
        0 <= i < old.hidden@.len() && #[trigger] removable_node(old, old.hidden@[i].id)
    &&& r.is_ok() ==> exists|i: int|
        0 <= i < old.hidden@.len() && #[trigger] removable_node(old, old.hidden@[i].id)
            && new.hidden@ == old.hidden@.remove(i)
            && new.feed_forward@ == without(old.feed_forward@, old.hidden@[i].id)
            && new.recurrent@ == without(old.recurrent@, old.hidden@[i].id)
    &&& r.is_err() ==> r == Err::<(), MutationError>(MutationError::CouldNotRemoveNode)
        && new.hidden@ == old.hidden@ && new.feed_forward@ == old.feed_forward@
        && new.recurrent@ == old.recurrent@
}

/// What [`Mutations::remove_recurrent_connection`] does.
pub open spec fn recurrent_removed(old: Genome, new: Genome, r: MutationResult) -> bool {
    &&& new.inputs@ == old.inputs@
    &&& new.hidden@ == old.hidden@
    &&& new.outputs@ == old.outputs@
    &&& new.feed_forward@ == old.feed_forward@
    &&& r.is_ok() == (old.recurrent@.len() > 0)
    &&& r.is_ok() ==> exists|i: int|
        0 <= i < old.recurrent@.len() && new.recurrent@ == old.recurrent@.remove(i)
    &&& r.is_err() ==> r == Err::<(), MutationError>(MutationError::CouldNotRemoveRecurrentConnection)
        && new.recurrent@ == old.recurrent@
}

/// What [`Mutations::duplicate_node`] does.
pub open spec fn node_duplicated(old: Genome, new: Genome, old_ids: IdGenerator, new_ids: IdGenerator, r: MutationResult) -> bool {
    &&& new.inputs@ == old.inputs@
    &&& new.outputs@ == old.outputs@
    &&& new_ids.extends(old_ids)
    &&& r.is_ok() == (old.hidden@.len() > 0)
    &&& r.is_ok() ==> exists|i: int, n: Node|
        0 <= i < old.hidden@.len() && #[trigger] first_free(
            new_ids,
            (old.hidden@[i].id, old.hidden@[i].id),
            old,
            n.id,
        ) && n.activation == old.hidden@[i].activation && n.order == 0
            && new.hidden@ == old.hidden@.push(n)
            && duplicated(old.feed_forward@, new.feed_forward@, old.hidden@[i].id, n.id)
            && duplicated(old.recurrent@, new.recurrent@, old.hidden@[i].id, n.id)
    &&& r.is_err() ==> r == Err::<(), MutationError>(MutationError::CouldNotDuplicateNode) && new == old
}

/// The mutation `m` performed, as its operator describes it; the weights of new connections are
/// capped at `cap`, and weights are perturbed with standard deviation `std_dev`. A node is only
/// added where there is a feed-forward connection, a pool and room for identities, and only
/// duplicated where there is room; else nothing happens.
pub open spec fn applied(
    m: Mutations,
    old: Genome,
    new: Genome,
    old_ids: IdGenerator,
    new_ids: IdGenerator,
    r: MutationResult,
    cap: i64,
    std_dev: u64,
) -> bool {
    match m {
        Mutations::ChangeWeights { percent_perturbed, weight_cap, .. } => r.is_ok() && new_ids == old_ids
            && weights_changed(old, new, percent_perturbed, weight_cap, std_dev),
        Mutations::ChangeActivation { activation_pool, .. } => r.is_ok() && new_ids == old_ids && activation_changed(
            old,
            new,
            activation_pool@,
        ),
        Mutations::AddNode { activation_pool, .. } => r.is_ok() && if old.feed_forward@.len() > 0
            && activation_pool@.len() > 0 && room_for(old, old_ids) {
            node_added(old, new, old_ids, new_ids, activation_pool@)
        } else {
            new == old && new_ids == old_ids
        },
        Mutations::AddConnection { .. } => new_ids == old_ids && connection_added(old, new, r, cap, false),
        Mutations::AddRecurrentConnection { .. } => new_ids == old_ids && connection_added(old, new, r, cap, true),
        Mutations::RemoveNode { .. } => new_ids == old_ids && node_removed(old, new, r),
        Mutations::RemoveConnection { .. } => new_ids == old_ids && connection_removed(old, new, r),
        Mutations::RemoveRecurrentConnection { .. } => new_ids == old_ids && recurrent_removed(old, new, r),
        Mutations::DuplicateNode { .. } => if room_for(old, old_ids) {
            node_duplicated(old, new, old_ids, new_ids, r)
        } else {
            r.is_ok() && new == old && new_ids == old_ids
        },
    }
}

/// The mutation `m` with its chance: performed (see [`applied`]), or nothing happened.
pub open spec fn mutation_step(
    m: Mutations,
    old: Genome,
    new: Genome,
    old_ids: IdGenerator,
    new_ids: IdGenerator,
    r: MutationResult,
    cap: i64,
    std_dev: u64,
) -> bool {
    applied(m, old, new, old_ids, new_ids, r, cap, std_dev) || (r.is_ok() && new == old && new_ids == old_ids)
}

impl Mutations {
    /// Adds a feed-forward connection between a start (input or hidden node) and an end (hidden
    /// or output node) that are not connected yet, are distinct, and whose connection closes no
    /// cycle; the weight is a perturbation of zero. Starts are scanned in an order drawn at random.
    pub fn add_connection(genome: &mut Genome, rng: &mut GenomeRng) -> (r: MutationResult)
        requires
            old(genome).wf(),
            old(rng).cap >= 0,
        ensures
            final(genome).wf(),
            connection_added(*old(genome), *final(genome), r, old(rng).cap, false),
            final(genome).inputs@ == old(genome).inputs@,
            final(genome).hidden@ == old(genome).hidden@,
            final(genome).outputs@ == old(genome).outputs@,
            final(genome).recurrent@ == old(genome).recurrent@,
            r.is_ok() == can_connect(*old(genome), feed_forward_starts(*old(genome)), connection_ends(*old(genome)), false),
            r.is_ok() ==> exists|c: Connection|
                #[trigger] candidate(*old(genome), c.input, c.output, false) && -old(rng).cap <= c.weight <= old(rng).cap
                    && final(genome).feed_forward@ == old(genome).feed_forward@.push(c),
            r.is_err() ==> r == Err::<(), MutationError>(MutationError::CouldNotAddFeedForwardConnection)
                && final(genome).feed_forward@ == old(genome).feed_forward@,
            acyclic(old(genome).feed_forward@) ==> acyclic(final(genome).feed_forward@),
            final(rng).cap == old(rng).cap,
            final(rng).std_dev == old(rng).std_dev,
    {
        let starts = concat_nodes(&genome.inputs, &genome.hidden);
        let ends = concat_nodes(&genome.hidden, &genome.outputs);
        if starts.len() == 0 {
            return Err(MutationError::CouldNotAddFeedForwardConnection);
        }
        let order = rng.shuffled_positions(starts.len());
        match find_pair(genome, &starts, &ends, &order, false) {
            Some((s, e)) => {
                proof {
                    let (i, j) = choose|i: int, j: int|
                        0 <= i < starts@.len() && 0 <= j < ends@.len() && starts@[i] == s && ends@[j] == e
                            && #[trigger] candidate(*genome, starts@[i].id, ends@[j].id, false);
                    assert(starts@[i].key() == node_key(s.id));
                    assert(ends@[j].key() == node_key(e.id));
                    assert(has_node(starts@, s.id));
                    assert(has_node(ends@, e.id));
                }
                let w = rng.weight_perturbation(0);
                let ghost before = genome.feed_forward@;
                genome.feed_forward.insert(Connection::new(s.id, w, e.id));
                proof {
                    if acyclic(before) {
                        lemma_add_edge_acyclic(before, Connection { input: s.id, output: e.id, weight: w });
                    }
                }
                Ok(())
            },
            None => Err(MutationError::CouldNotAddFeedForwardConnection),
        }
    }

    /// Adds a recurrent connection between a start (any node) and an end (hidden or output
    /// node) that are not recurrently connected yet; loops and cycles are allowed. The weight is
    /// a perturbation of zero. Starts are scanned in an order drawn at random.
    pub fn add_recurrent_connection(genome: &mut Genome, rng: &mut GenomeRng) -> (r: MutationResult)
        requires
            old(genome).wf(),
            old(rng).cap >= 0,
        ensures
            final(genome).wf(),
            connection_added(*old(genome), *final(genome), r, old(rng).cap, true),
            final(genome).inputs@ == old(genome).inputs@,
            final(genome).hidden@ == old(genome).hidden@,
            final(genome).outputs@ == old(genome).outputs@,
            final(genome).feed_forward@ == old(genome).feed_forward@,
            r.is_ok() == can_connect(*old(genome), recurrent_starts(*old(genome)), connection_ends(*old(genome)), true),
            r.is_ok() ==> exists|c: Connection|
                #[trigger] candidate(*old(genome), c.input, c.output, true) && -old(rng).cap <= c.weight <= old(rng).cap
                    && final(genome).recurrent@ == old(genome).recurrent@.push(c),
            r.is_err() ==> r == Err::<(), MutationError>(MutationError::CouldNotAddRecurrentConnection)
                && final(genome).recurrent@ == old(genome).recurrent@,
            final(rng).cap == old(rng).cap,
            final(rng).std_dev == old(rng).std_dev,
    {
        let mut starts = concat_nodes(&genome.inputs, &genome.hidden);
        let mut outs = genome.outputs.copied().0;
        starts.append(&mut outs);
        let ends = concat_nodes(&genome.hidden, &genome.outputs);
        if starts.len() == 0 {
            return Err(MutationError::CouldNotAddRecurrentConnection);
        }
        let order = rng.shuffled_positions(starts.len());
        match find_pair(genome, &starts, &ends, &order, true) {
            Some((s, e)) => {
                proof {
                    let (i, j) = choose|i: int, j: int|
                        0 <= i < starts@.len() && 0 <= j < ends@.len() && starts@[i] == s && ends@[j] == e
                            && #[trigger] candidate(*genome, starts@[i].id, ends@[j].id, true);
                    assert(starts@[i].key() == node_key(s.id));
                    assert(ends@[j].key() == node_key(e.id));
                    assert(has_node(starts@, s.id));
                    assert(has_node(ends@, e.id));
                }
                let w = rng.weight_perturbation(0);
                genome.recurrent.insert(Connection::new(s.id, w, e.id));
                Ok(())
            },
            None => Err(MutationError::CouldNotAddRecurrentConnection),
        }
    }

    /// Removes one recurrent connection drawn uniformly; fails when there is none.
    pub fn remove_recurrent_connection(genome: &mut Genome, rng: &mut GenomeRng) -> (r: MutationResult)
        requires
            old(genome).wf(),
        ensures
            final(genome).wf(),
            recurrent_removed(*old(genome), *final(genome), r),
            final(genome).inputs@ == old(genome).inputs@,
            final(genome).hidden@ == old(genome).hidden@,
            final(genome).outputs@ == old(genome).outputs@,
            final(genome).feed_forward@ == old(genome).feed_forward@,
            r.is_ok() == (old(genome).recurrent@.len() > 0),
            r.is_ok() ==> exists|i: int|
                0 <= i < old(genome).recurrent@.len() && final(genome).recurrent@ == old(genome).recurrent@.remove(i),
            r.is_err() ==> r == Err::<(), MutationError>(MutationError::CouldNotRemoveRecurrentConnection)
                && final(genome).recurrent@ == old(genome).recurrent@,
            final(rng).cap == old(rng).cap,
            final(rng).std_dev == old(rng).std_dev,
    {
        match genome.recurrent.random(rng) {
            Some(c) => {
                let ghost i = choose|i: int| 0 <= i < genome.recurrent@.len() && genome.recurrent@[i] == c;
                proof {
                    assert(genome.recurrent@[i].key() == c.key());
                }
                genome.recurrent.remove(c.gene_key());
                proof {
                    let k = choose|k: int| 0 <= k < old(genome).recurrent@.len() && (#[trigger] old(genome).recurrent@[k]).key() == c.key();
                }
                Ok(())
            },
            None => Err(MutationError::CouldNotRemoveRecurrentConnection),
        }
    }

    /// Removes a feed-forward connection whose removal leaves its input with another way out
    /// and its output with another way in; connections are scanned in an order drawn at random.
    pub fn remove_connection(genome: &mut Genome, rng: &mut GenomeRng) -> (r: MutationResult)
        requires
            old(genome).wf(),
        ensures
            final(genome).wf(),
            connection_removed(*old(genome), *final(genome), r),
            final(genome).inputs@ == old(genome).inputs@,
            final(genome).hidden@ == old(genome).hidden@,
            final(genome).outputs@ == old(genome).outputs@,
            final(genome).recurrent@ == old(genome).recurrent@,
            r.is_ok() == exists|i: int|
                0 <= i < old(genome).feed_forward@.len() && #[trigger] removable_connection(
                    *old(genome),
                    old(genome).feed_forward@[i],
                ),
            r.is_ok() ==> exists|i: int|
                0 <= i < old(genome).feed_forward@.len() && #[trigger] removable_connection(
                    *old(genome),
                    old(genome).feed_forward@[i],
                ) && final(genome).feed_forward@ == old(genome).feed_forward@.remove(i),
            r.is_err() ==> r == Err::<(), MutationError>(MutationError::CouldNotRemoveFeedForwardConnection)
                && final(genome).feed_forward@ == old(genome).feed_forward@,
            acyclic(old(genome).feed_forward@) ==> acyclic(final(genome).feed_forward@),
            final(rng).cap == old(rng).cap,
            final(rng).std_dev == old(rng).std_dev,
    {
        let n = genome.feed_forward.len();
        if n == 0 {
            return Err(MutationError::CouldNotRemoveFeedForwardConnection);
        }
        let order = rng.shuffled_positions(n);
        let mut t: usize = 0;
        while t < n
            invariant
                n == genome.feed_forward@.len(),
                is_order(order@, n as nat),
                t <= n,
                *genome == *old(genome),
                genome.wf(),
                rng.cap == old(rng).cap,
                rng.std_dev == old(rng).std_dev,
                forall|t2: int| 0 <= t2 < t ==> !#[trigger] removable_connection(*genome, genome.feed_forward@[order@[t2] as int]),
            decreases n - t,
        {
            let i = order[t];
            let c = genome.feed_forward.0[i];
            if genome.has_alternative_input(c.output, c.input) && genome.has_alternative_output(c.input, c.output) {
                assert(removable_connection(*old(genome), old(genome).feed_forward@[i as int]));
                genome.feed_forward.remove(c.gene_key());
                proof {
                    let k = choose|k: int| 0 <= k < old(genome).feed_forward@.len() && (#[trigger] old(genome).feed_forward@[k]).key() == c.key();
                    assert(old(genome).feed_forward@[i as int].key() == c.key());
                    assert(k == i);
                    if acyclic(old(genome).feed_forward@) {
                        lemma_removed_acyclic(old(genome).feed_forward@, i as int);
                    }
                }
                return Ok(());
            }
            t = t + 1;
        }
        proof {
            assert forall|i: int| 0 <= i < n implies !#[trigger] removable_connection(*genome, genome.feed_forward@[i]) by {
                assert(order@.contains(i as usize));
                let t2 = choose|t2: int| 0 <= t2 < order@.len() && order@[t2] == i as usize;
                assert(!removable_connection(*genome, genome.feed_forward@[order@[t2] as int]));
            }
        }
        Err(MutationError::CouldNotRemoveFeedForwardConnection)
    }

    /// Removes a hidden node, with all its feed-forward and recurrent connections, whose removal
    /// leaves every node it was connected to with another way in or out; hidden nodes are scanned
    /// in an order drawn at random.
    pub fn remove_node(genome: &mut Genome, rng: &mut GenomeRng) -> (r: MutationResult)
        requires
            old(genome).wf(),
        ensures
            final(genome).wf(),
            node_removed(*old(genome), *final(genome), r),
            final(genome).inputs@ == old(genome).inputs@,
            final(genome).outputs@ == old(genome).outputs@,
            r.is_ok() == exists|i: int|
                0 <= i < old(genome).hidden@.len() && #[trigger] removable_node(*old(genome), old(genome).hidden@[i].id),
            r.is_ok() ==> exists|i: int|
                0 <= i < old(genome).hidden@.len() && #[trigger] removable_node(*old(genome), old(genome).hidden@[i].id)
                    && final(genome).hidden@ == old(genome).hidden@.remove(i)
                    && final(genome).feed_forward@ == without(old(genome).feed_forward@, old(genome).hidden@[i].id)
                    && final(genome).recurrent@ == without(old(genome).recurrent@, old(genome).hidden@[i].id),
            r.is_err() ==> r == Err::<(), MutationError>(MutationError::CouldNotRemoveNode)
                && final(genome).hidden@ == old(genome).hidden@
                && final(genome).feed_forward@ == old(genome).feed_forward@
                && final(genome).recurrent@ == old(genome).recurrent@,
            acyclic(old(genome).feed_forward@) ==> acyclic(final(genome).feed_forward@),
            final(rng).cap == old(rng).cap,
            final(rng).std_dev == old(rng).std_dev,
    {
        let n = genome.hidden.len();
        if n == 0 {
            return Err(MutationError::CouldNotRemoveNode);
        }
        let order = rng.shuffled_positions(n);
        let mut t: usize = 0;
        while t < n
            invariant
                n == genome.hidden@.len(),
                is_order(order@, n as nat),
                t <= n,
                *genome == *old(genome),
                genome.wf(),
                rng.cap == old(rng).cap,
                rng.std_dev == old(rng).std_dev,
                forall|t2: int| 0 <= t2 < t ==> !#[trigger] removable_node(*genome, genome.hidden@[order@[t2] as int].id),
            decreases n - t,
        {
            let i = order[t];
            let h = genome.hidden.0[i];
            if is_removable_node(genome, h.id) {
                genome.feed_forward = detach(&genome.feed_forward, h.id);
                genome.recurrent = detach(&genome.recurrent, h.id);
                genome.hidden.remove(h.gene_key());
                proof {
                    let k = choose|k: int| 0 <= k < old(genome).hidden@.len() && (#[trigger] old(genome).hidden@[k]).key() == h.key();
                    assert(old(genome).hidden@[i as int].key() == h.key());
                    if acyclic(old(genome).feed_forward@) {
                        lemma_without_acyclic(old(genome).feed_forward@, h.id);
                    }
                    assert forall|id: Id| #[trigger] has_node(genome.hidden@, id) implies has_node(old(genome).hidden@, id) by {
                        assert(node_key(id) != h.key() ==> (has_key(genome.hidden@, node_key(id)) <==> has_key(old(genome).hidden@, node_key(id))));
                    }
                    lemma_apart_within(old(genome).hidden@, genome.hidden@, old(genome).inputs@);
                    lemma_apart_within(old(genome).hidden@, genome.hidden@, old(genome).outputs@);
                }
                return Ok(());
            }
            t = t + 1;
        }
        proof {
            assert forall|i: int| 0 <= i < n implies !#[trigger] removable_node(*genome, genome.hidden@[i].id) by {
                assert(order@.contains(i as usize));
                let t2 = choose|t2: int| 0 <= t2 < order@.len() && order@[t2] == i as usize;
                assert(!removable_node(*genome, genome.hidden@[order@[t2] as int].id));
            }
        }
        Err(MutationError::CouldNotRemoveNode)
    }

    /// Gives one hidden node drawn uniformly an activation drawn uniformly from
    /// `activation_pool` without its current one; where that leaves nothing, the activation
    /// stays. Does nothing without hidden nodes.
    pub fn change_activation(activation_pool: &Vec<Activation>, genome: &mut Genome, rng: &mut GenomeRng)
        requires
            old(genome).wf(),
        ensures
            final(genome).wf(),
            activation_changed(*old(genome), *final(genome), activation_pool@),
            final(genome).inputs@ == old(genome).inputs@,
            final(genome).outputs@ == old(genome).outputs@,
            final(genome).feed_forward@ == old(genome).feed_forward@,
            final(genome).recurrent@ == old(genome).recurrent@,
            old(genome).hidden@.len() == 0 ==> final(genome).hidden@ == old(genome).hidden@,
            old(genome).hidden@.len() > 0 ==> exists|i: int, a: Activation|
                0 <= i < old(genome).hidden@.len() && final(genome).hidden@ == old(genome).hidden@.update(
                    i,
                    Node { id: old(genome).hidden@[i].id, order: 0, activation: a },
                ) && (if exists|p: Activation| #[trigger] activation_pool@.contains(p) && p != old(genome).hidden@[i].activation {
                    activation_pool@.contains(a) && a != old(genome).hidden@[i].activation
                } else {
                    a == old(genome).hidden@[i].activation
                }),
            final(rng).cap == old(rng).cap,
            final(rng).std_dev == old(rng).std_dev,
    {
        let n = genome.hidden.len();
        if n == 0 {
            return;
        }
        let i = rng.index_below(n);
        let node = genome.hidden.0[i];
        let mut possible: Vec<Activation> = Vec::new();
        let mut j: usize = 0;
        while j < activation_pool.len()
            invariant
                j <= activation_pool@.len(),
                forall|q: int| 0 <= q < possible@.len() ==> activation_pool@.contains(#[trigger] possible@[q]) && possible@[q] != node.activation,
                forall|q: int| 0 <= q < j && activation_pool@[q] != node.activation ==> possible@.contains(#[trigger] activation_pool@[q]),
                rng.cap == old(rng).cap,
                rng.std_dev == old(rng).std_dev,
            decreases activation_pool@.len() - j,
        {
            let a = activation_pool[j];
            let ghost before = possible@;
            if a != node.activation {
                possible.push(a);
                assert(possible@[possible@.len() - 1] == a);
            }
            proof {
                assert forall|q: int| 0 <= q < j + 1 && activation_pool@[q] != node.activation implies possible@.contains(#[trigger] activation_pool@[q]) by {
                    if q < j {
                        assert(before.contains(activation_pool@[q]));
                        let w = choose|w: int| 0 <= w < before.len() && before[w] == activation_pool@[q];
                        assert(possible@[w] == before[w]);
                    } else {
                        assert(possible@[possible@.len() - 1] == a);
                    }
                }
                assert forall|q: int| 0 <= q < possible@.len() implies activation_pool@.contains(#[trigger] possible@[q]) && possible@[q] != node.activation by {
                    if q < before.len() {
                        assert(possible@[q] == before[q]);
                    } else {
                        assert(activation_pool@[j as int] == a);
                    }
                }
            }
            j = j + 1;
        }
        let activation = if possible.len() == 0 {
            node.activation
        } else {
            let a = possible[rng.index_below(possible.len())];
            a
        };
        genome.hidden.0.set(i, Node::hidden(node.id, activation));
        proof {
            let h = genome.hidden@;
            assert forall|a: int, b: int| 0 <= a < h.len() && 0 <= b < h.len() && a != b implies (#[trigger] h[a]).key() != (#[trigger] h[b]).key() by {
                assert(h[a].key() == old(genome).hidden@[a].key());
                assert(h[b].key() == old(genome).hidden@[b].key());
            }
            if possible@.len() == 0 {
                assert forall|p: Activation| #[trigger] activation_pool@.contains(p) implies p == node.activation by {
                    let q = choose|q: int| 0 <= q < activation_pool@.len() && activation_pool@[q] == p;
                    if p != node.activation {
                        assert(possible@.contains(activation_pool@[q]));
                    }
                }
            }
            assert(h == old(genome).hidden@.update(i as int, Node { id: old(genome).hidden@[i as int].id, order: 0, activation }));
            assert forall|id: Id| #[trigger] has_node(h, id) implies has_node(old(genome).hidden@, id) by {
                let j = choose|j: int| 0 <= j < h.len() && (#[trigger] h[j]).key() == node_key(id);
                assert(old(genome).hidden@[j].key() == h[j].key());
            }
            lemma_apart_within(old(genome).hidden@, h, old(genome).inputs@);
            lemma_apart_within(old(genome).hidden@, h, old(genome).outputs@);
        }
    }

    /// Perturbs the weights of a `percent_perturbed` share (fixed-point, rounded up) of the
    /// feed-forward connections and of the recurrent ones, each picked at random, keeping them
    /// in `[-weight_cap, weight_cap]` by the reflect-and-halve policy. Weights outside that
    /// range are left as they are.
    pub fn change_weights(percent_perturbed: u64, weight_cap: i64, genome: &mut Genome, rng: &mut GenomeRng)
        requires
            old(genome).wf(),
        ensures
            final(genome).wf(),
            weights_changed(*old(genome), *final(genome), percent_perturbed, weight_cap, old(rng).std_dev),
            weights_within(old(genome).feed_forward@, weight_cap) ==> weights_within(final(genome).feed_forward@, weight_cap),
            weights_within(old(genome).recurrent@, weight_cap) ==> weights_within(final(genome).recurrent@, weight_cap),
            acyclic(old(genome).feed_forward@) ==> acyclic(final(genome).feed_forward@),
            final(rng).cap == old(rng).cap,
            final(rng).std_dev == old(rng).std_dev,
    {
        let ghost g0 = *genome;
        perturb_share(&mut genome.feed_forward, percent_perturbed, weight_cap, rng);
        perturb_share(&mut genome.recurrent, percent_perturbed, weight_cap, rng);
        proof {
            let (p1, q1) = choose|positions: Seq<usize>, ps: Seq<i128>|
                positions.len() == share_of(percent_perturbed, g0.feed_forward@.len()) && positions.no_duplicates()
                    && ps.len() == positions.len() && (forall|t: int| 0 <= t < ps.len() ==> -6 * old(rng).std_dev <= #[trigger] ps[t] <= 6 * old(rng).std_dev)
                    && #[trigger] perturbed(g0.feed_forward@, positions, ps, weight_cap) == genome.feed_forward@;
            let (p2, q2) = choose|positions: Seq<usize>, ps: Seq<i128>|
                positions.len() == share_of(percent_perturbed, g0.recurrent@.len()) && positions.no_duplicates()
                    && ps.len() == positions.len() && (forall|t: int| 0 <= t < ps.len() ==> -6 * old(rng).std_dev <= #[trigger] ps[t] <= 6 * old(rng).std_dev)
                    && #[trigger] perturbed(g0.recurrent@, positions, ps, weight_cap) == genome.recurrent@;
            if weights_within(g0.feed_forward@, weight_cap) {
                lemma_perturbed_within(g0.feed_forward@, p1, q1, weight_cap);
            }
            lemma_perturbed_acyclic(g0.feed_forward@, p1, q1, weight_cap);
            if weights_within(g0.recurrent@, weight_cap) {
                lemma_perturbed_within(g0.recurrent@, p2, q2, weight_cap);
            }
        }
    }

    /// Splits a feed-forward connection drawn uniformly: a new hidden node, with an activation
    /// drawn from `activation_pool`, takes the first identity cached for the connection's end
    /// points that no node and no connection uses; the connection into it weighs
    /// one, the one out of it weighs what the split connection weighed, and the split
    /// connection's weight becomes zero.
    pub fn add_node(activation_pool: &Vec<Activation>, genome: &mut Genome, ids: &mut IdGenerator, rng: &mut GenomeRng)
        requires
            old(genome).wf(),
            old(genome).feed_forward@.len() > 0,
            activation_pool@.len() > 0,
            old(ids).wf(),
            old(ids).counter() + old(genome).inputs@.len() + old(genome).hidden@.len()
                + old(genome).outputs@.len() + 2 * old(genome).feed_forward@.len() + 2
                * old(genome).recurrent@.len() + 1 < u64::MAX,
        ensures
            final(genome).wf(),
            node_added(*old(genome), *final(genome), *old(ids), *final(ids), activation_pool@),
            final(ids).wf(),
            final(genome).inputs@ == old(genome).inputs@,
            final(genome).outputs@ == old(genome).outputs@,
            final(genome).recurrent@ == old(genome).recurrent@,
            exists|i: int, n: Node|
                0 <= i < old(genome).feed_forward@.len() && #[trigger] split(
                    old(genome).feed_forward@,
                    final(genome).feed_forward@,
                    i,
                    n.id,
                ) && final(genome).hidden@ == old(genome).hidden@.push(n)
                    && n.order == 0 && activation_pool@.contains(n.activation)
                    && first_free(
                        *final(ids),
                        (old(genome).feed_forward@[i].input, old(genome).feed_forward@[i].output),
                        *old(genome),
                        n.id,
                    ),
            final(genome).feed_forward@.len() == old(genome).feed_forward@.len() + 2,
            final(genome).hidden@.len() == old(genome).hidden@.len() + 1,
            exists|i: int|
                0 <= i < old(genome).feed_forward@.len() && (#[trigger] final(genome).feed_forward@[i]).weight == 0
                    && final(genome).feed_forward@[i].input == old(genome).feed_forward@[i].input
                    && final(genome).feed_forward@[i].output == old(genome).feed_forward@[i].output,
            acyclic(old(genome).feed_forward@) ==> acyclic(final(genome).feed_forward@),
            final(rng).cap == old(rng).cap,
            final(rng).std_dev == old(rng).std_dev,
    {
        let ghost g0 = *genome;
        let c = match genome.feed_forward.random(rng) {
            Some(c) => c,
            None => {
                return;
            },
        };
        let ghost i = choose|i: int| 0 <= i < genome.feed_forward@.len() && genome.feed_forward@[i] == c;
        let taken = taken_ids(genome);
        let id = ids.cached_id_avoiding((c.input, c.output), &taken);
        let activation = activation_pool[rng.index_below(activation_pool.len())];
        let node = Node::hidden(id, activation);
        proof {
            assert(is_endpoint(g0.feed_forward@, c.input) && is_endpoint(g0.feed_forward@, c.output)) by {
                assert(g0.feed_forward@[i].input == c.input);
            }
            assert(!is_endpoint(g0.feed_forward@, id));
            assert forall|j: int| 0 <= j < g0.feed_forward@.len() implies (#[trigger] g0.feed_forward@[j]).key() != connection_key(c.input, id)
                && g0.feed_forward@[j].key() != connection_key(id, c.output) by {
                if g0.feed_forward@[j].output == id || g0.feed_forward@[j].input == id {
                    assert(is_endpoint(g0.feed_forward@, id));
                }
            }
            assert(!g0.has_any_node(id));
        }
        let first = Connection::new(c.input, WEIGHT_ONE, id);
        let second = Connection::new(id, c.weight, c.output);
        genome.feed_forward.insert(first);
        genome.feed_forward.insert(second);
        proof {
            let f1 = g0.feed_forward@.push(first);
            assert forall|j: int| 0 <= j < f1.len() implies (#[trigger] f1[j]).key() != second.key() by {
                if j < g0.feed_forward@.len() {
                    assert(f1[j] == g0.feed_forward@[j]);
                }
            }
        }
        genome.hidden.insert(node);
        proof {
            lemma_has_node_push(g0.hidden@, node);
            assert(genome.hidden@ == g0.hidden@.push(node));
            assert forall|x: Id| !(#[trigger] has_node(genome.hidden@, x) && has_node(g0.inputs@, x)) by {
                if x == id {
                    assert(!uses(g0, id));
                }
            }
            assert forall|x: Id| !(#[trigger] has_node(genome.hidden@, x) && has_node(g0.outputs@, x)) by {
                if x == id {
                    assert(!uses(g0, id));
                }
            }
        }
        let ghost before_zero = genome.feed_forward@;
        genome.feed_forward.replace(Connection::new(c.input, 0, c.output));
        proof {
            assert(before_zero[i] == g0.feed_forward@[i]);
            assert(before_zero[i].key() == c.key());
            let k = choose|k: int| 0 <= k < before_zero.len() && (#[trigger] before_zero[k]).key() == c.key();
            assert(k == i);
            assert(genome.feed_forward@ =~= g0.feed_forward@.update(i, Connection { input: c.input, output: c.output, weight: 0 }).push(first).push(second));
            assert(split(g0.feed_forward@, genome.feed_forward@, i, id));
            assert(genome.feed_forward@[i].weight == 0);
            if acyclic(g0.feed_forward@) {
                assert forall|j: int| 0 <= j < g0.feed_forward@.len() implies (#[trigger] g0.feed_forward@[j]).input != id
                    && g0.feed_forward@[j].output != id by {
                    if g0.feed_forward@[j].input == id || g0.feed_forward@[j].output == id {
                        assert(is_endpoint(g0.feed_forward@, id));
                    }
                }
                lemma_split_acyclic(g0.feed_forward@, i, id, 0, WEIGHT_ONE, c.weight);
            }
            assert(first_free(*ids, (g0.feed_forward@[i].input, g0.feed_forward@[i].output), g0, id)) by {
                let kk = choose|kk: int|
                    0 <= kk < ids.cached((c.input, c.output)).len() && ids.cached((c.input, c.output))[kk] == id && forall|j: int|
                        0 <= j < kk ==> taken@.contains(#[trigger] ids.cached((c.input, c.output))[j]);
                assert forall|j: int| 0 <= j < kk implies uses(g0, #[trigger] ids.cached((c.input, c.output))[j]) by {
                    assert(taken@.contains(ids.cached((c.input, c.output))[j]));
                }
            }
        }
    }

    /// Duplicates a hidden node drawn uniformly: the new node has the same activation and the
    /// first identity cached for the context `(id, id)` of the drawn node that no node and no
    /// connection uses; every feed-forward and recurrent connection touching the drawn node is
    /// copied onto the new one as [`duplicated`] says, connections leaving it for another node
    /// at half weight on both. Fails without hidden nodes.
    pub fn duplicate_node(genome: &mut Genome, ids: &mut IdGenerator, rng: &mut GenomeRng) -> (r: MutationResult)
        requires
            old(genome).wf(),
            old(ids).wf(),
            old(ids).counter() + old(genome).inputs@.len() + old(genome).hidden@.len()
                + old(genome).outputs@.len() + 2 * old(genome).feed_forward@.len() + 2
                * old(genome).recurrent@.len() + 1 < u64::MAX,
        ensures
            final(genome).wf(),
            node_duplicated(*old(genome), *final(genome), *old(ids), *final(ids), r),
            final(ids).wf(),
            final(genome).inputs@ == old(genome).inputs@,
            final(genome).outputs@ == old(genome).outputs@,
            r.is_ok() == (old(genome).hidden@.len() > 0),
            r.is_ok() ==> exists|i: int, n: Node|
                0 <= i < old(genome).hidden@.len() && #[trigger] first_free(
                    *final(ids),
                    (old(genome).hidden@[i].id, old(genome).hidden@[i].id),
                    *old(genome),
                    n.id,
                ) && n.activation == old(genome).hidden@[i].activation && n.order == 0
                    && final(genome).hidden@ == old(genome).hidden@.push(n)
                    && duplicated(old(genome).feed_forward@, final(genome).feed_forward@, old(genome).hidden@[i].id, n.id)
                    && duplicated(old(genome).recurrent@, final(genome).recurrent@, old(genome).hidden@[i].id, n.id),
            r.is_err() ==> r == Err::<(), MutationError>(MutationError::CouldNotDuplicateNode) && *final(genome)
                == *old(genome),
            acyclic(old(genome).feed_forward@) ==> acyclic(final(genome).feed_forward@),
            final(rng).cap == old(rng).cap,
            final(rng).std_dev == old(rng).std_dev,
    {
        let ghost g0 = *genome;
        let h = match genome.hidden.random(rng) {
            Some(h) => h,
            None => {
                proof {
                    ids.lemma_extends_itself();
                }
                return Err(MutationError::CouldNotDuplicateNode);
            },
        };
        let ghost i = choose|i: int| 0 <= i < genome.hidden@.len() && genome.hidden@[i] == h;
        let taken = taken_ids(genome);
        let id = ids.cached_id_avoiding((h.id, h.id), &taken);
        let node = Node::hidden(id, h.activation);
        proof {
            assert(!uses(g0, id));
            assert(first_free(*ids, (g0.hidden@[i].id, g0.hidden@[i].id), g0, id)) by {
                let kk = choose|kk: int|
                    0 <= kk < ids.cached((h.id, h.id)).len() && ids.cached((h.id, h.id))[kk] == id && forall|j: int|
                        0 <= j < kk ==> taken@.contains(#[trigger] ids.cached((h.id, h.id))[j]);
                assert forall|j: int| 0 <= j < kk implies uses(g0, #[trigger] ids.cached((h.id, h.id))[j]) by {
                    assert(taken@.contains(ids.cached((h.id, h.id))[j]));
                }
            }
        }
        duplicate_connections(&mut genome.feed_forward, h.id, id);
        duplicate_connections(&mut genome.recurrent, h.id, id);
        genome.hidden.insert(node);
        proof {
            lemma_has_node_push(g0.hidden@, node);
            assert forall|x: Id| !(#[trigger] has_node(genome.hidden@, x) && has_node(g0.inputs@, x)) by {
                if x == id {
                    assert(!uses(g0, id));
                }
            }
            assert forall|x: Id| !(#[trigger] has_node(genome.hidden@, x) && has_node(g0.outputs@, x)) by {
                if x == id {
                    assert(!uses(g0, id));
                }
            }
            if acyclic(g0.feed_forward@) {
                lemma_duplicated_acyclic(g0.feed_forward@, genome.feed_forward@, h.id, id);
            }
        }
        Ok(())
    }

    /// Applies the mutation with its chance: draws against `chance`, and on success performs
    /// the operation. Adding a node needs a feed-forward connection and a non-empty pool, and
    /// adding or duplicating a node needs room in `ids`; without them nothing happens.
    pub fn mutate(&self, genome: &mut Genome, ids: &mut IdGenerator, rng: &mut GenomeRng) -> (r: MutationResult)
        requires
            old(genome).wf(),
            old(ids).wf(),
            old(rng).cap >= 0,
        ensures
            final(genome).wf(),
            final(ids).wf(),
            final(genome).inputs@ == old(genome).inputs@,
            final(genome).outputs@ == old(genome).outputs@,
            r.is_err() ==> same_genes(*final(genome), *old(genome)),
            mutation_step(*self, *old(genome), *final(genome), *old(ids), *final(ids), r, old(rng).cap, old(rng).std_dev),
            self.chance() >= PROBABILITY_ONE ==> applied(
                *self,
                *old(genome),
                *final(genome),
                *old(ids),
                *final(ids),
                r,
                old(rng).cap,
                old(rng).std_dev,
            ),
            self.chance() == 0 ==> r.is_ok() && *final(genome) == *old(genome) && *final(ids) == *old(ids),
            acyclic(old(genome).feed_forward@) ==> acyclic(final(genome).feed_forward@),
            final(rng).cap == old(rng).cap,
            final(rng).std_dev == old(rng).std_dev,
    {
        let ghost g0 = *genome;
        match self {
            Mutations::ChangeWeights { chance, percent_perturbed, weight_cap } => {
                if rng.gamble(*chance) {
                    Self::change_weights(*percent_perturbed, *weight_cap, genome, rng);
                }
                Ok(())
            },
            Mutations::ChangeActivation { chance, activation_pool } => {
                if rng.gamble(*chance) {
                    Self::change_activation(activation_pool, genome, rng);
                }
                Ok(())
            },
            Mutations::AddNode { chance, activation_pool } => {
                if rng.gamble(*chance) && genome.feed_forward.len() > 0 && activation_pool.len() > 0
                    && has_room(genome, ids) {
                    Self::add_node(activation_pool, genome, ids, rng);
                }
                Ok(())
            },
            Mutations::AddConnection { chance } => {
                if rng.gamble(*chance) {
                    Self::add_connection(genome, rng)
                } else {
                    Ok(())
                }
            },
            Mutations::AddRecurrentConnection { chance } => {
                if rng.gamble(*chance) {
                    Self::add_recurrent_connection(genome, rng)
                } else {
                    Ok(())
                }
            },
            Mutations::RemoveNode { chance } => {
                if rng.gamble(*chance) {
                    Self::remove_node(genome, rng)
                } else {
                    Ok(())
                }
            },
            Mutations::RemoveConnection { chance } => {
                if rng.gamble(*chance) {
                    Self::remove_connection(genome, rng)
                } else {
                    Ok(())
                }
            },
            Mutations::RemoveRecurrentConnection { chance } => {
                if rng.gamble(*chance) {
                    Self::remove_recurrent_connection(genome, rng)
                } else {
                    Ok(())
                }
            },
            Mutations::DuplicateNode { chance } => {
                if rng.gamble(*chance) && has_room(genome, ids) {
                    Self::duplicate_node(genome, ids, rng)
                } else {
                    Ok(())
                }
            },
        }
    }

    /// The chance of the mutation.
    pub open spec fn chance(&self) -> u64 {
        match self {
            Mutations::ChangeWeights { chance, .. } => *chance,
            Mutations::ChangeActivation { chance, .. } => *chance,
            Mutations::AddNode { chance, .. } => *chance,
            Mutations::AddConnection { chance } => *chance,
            Mutations::AddRecurrentConnection { chance } => *chance,
            Mutations::RemoveNode { chance } => *chance,
            Mutations::RemoveConnection { chance } => *chance,
            Mutations::RemoveRecurrentConnection { chance } => *chance,
            Mutations::DuplicateNode { chance } => *chance,
        }
    }
}

} // verus!
