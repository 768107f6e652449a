//! The compatibility distance between two genomes.
use crate::connections::Connection;
use crate::genes::{keys_unique, lemma_gene_for, matching, only_in, Gene, Genes};
use crate::genome::Genome;
use crate::mutations::weights_within;
use crate::nodes::Node;
use vstd::prelude::*;

verus! {

/// The fixed-point representation of the distance `1.0`.
pub const DISTANCE_ONE: u64 = 1_000_000;

/// The sum of the absolute weight differences of the pairs.
pub open spec fn weight_difference(pairs: Seq<(Connection, Connection)>) -> nat
    decreases pairs.len(),
{
    if pairs.len() == 0 {
        0
    } else {
        let p = pairs.last();
        let d = p.0.weight - p.1.weight;
        weight_difference(pairs.drop_last()) + (if d >= 0 { d as nat } else { (-d) as nat })
    }
}

/// The number of pairs whose activations differ.
pub open spec fn activation_difference(pairs: Seq<(Node, Node)>) -> nat
    decreases pairs.len(),
{
    if pairs.len() == 0 {
        0
    } else {
        activation_difference(pairs.drop_last()) + (if pairs.last().0.activation != pairs.last().1.activation {
            1nat
        } else {
            0nat
        })
    }
}

/// The number of connections present (by end points) in both genomes.
pub open spec fn matching_connections(a: Genome, b: Genome) -> nat {
    matching(a.feed_forward@, b.feed_forward@).len() + matching(a.recurrent@, b.recurrent@).len()
}

/// The number of connections present in one genome only.
pub open spec fn different_connections(a: Genome, b: Genome) -> nat {
    only_in(a.feed_forward@, b.feed_forward@).len() + only_in(b.feed_forward@, a.feed_forward@).len()
        + only_in(a.recurrent@, b.recurrent@).len() + only_in(b.recurrent@, a.recurrent@).len()
}

/// The summed weight difference of the connections present in both genomes.
pub open spec fn total_weight_difference(a: Genome, b: Genome) -> nat {
    weight_difference(matching(a.feed_forward@, b.feed_forward@)) + weight_difference(
        matching(a.recurrent@, b.recurrent@),
    )
}

/// `factor * part / whole`, rounded down; zero when `whole` is zero.
pub open spec fn scaled(factor: nat, part: nat, whole: nat) -> nat {
    if whole == 0 {
        0
    } else {
        factor * part / whole
    }
}

/// The connection term: `factor` times the share of connections present in one genome only.
pub open spec fn connection_term(a: Genome, b: Genome, factor: u32) -> nat {
    scaled(factor as nat, different_connections(a, b), matching_connections(a, b) + different_connections(a, b))
}

/// The weight term: `factor` times the mean weight difference of matching connections, over
/// the largest possible difference, `2 * cap` for weights capped at `cap`.
pub open spec fn weight_term(a: Genome, b: Genome, factor: u32, cap: i64) -> nat {
    scaled(factor as nat, total_weight_difference(a, b), (matching_connections(a, b) * 2 * cap) as nat)
}

/// The activation term: `factor` times the share of matching hidden nodes whose activations
/// differ.
pub open spec fn activation_term(a: Genome, b: Genome, factor: u32) -> nat {
    scaled(
        factor as nat,
        activation_difference(matching(a.hidden@, b.hidden@)),
        matching(a.hidden@, b.hidden@).len(),
    )
}

/// The overall distance: the three terms over the sum of the factors, as a fixed-point number
/// (see [`DISTANCE_ONE`]).
pub open spec fn overall(c: nat, w: nat, act: nat, fc: u32, fw: u32, fa: u32) -> nat {
    scaled(DISTANCE_ONE as nat, c + w + act, (fc + fw + fa) as nat)
}

/// The largest value the summed weight differences may reach: with a 32-bit factor, the
/// scaled weight term then fits 128 bits.
pub const DIFFERENCE_BOUND: u128 = 0x1_0000_0000_0000_0000_0000_0000;

/// Both genomes' weights lie in `[-cap, cap]`, and the largest possible summed weight difference,
/// two caps per connection of `a`, stays within [`DIFFERENCE_BOUND`].
pub open spec fn capped_weights(a: Genome, b: Genome, cap: i64) -> bool {
    &&& 0 <= cap
    &&& weights_within(a.feed_forward@, cap)
    &&& weights_within(a.recurrent@, cap)
    &&& weights_within(b.feed_forward@, cap)
    &&& weights_within(b.recurrent@, cap)
    &&& (a.feed_forward@.len() + a.recurrent@.len()) * 2 * cap <= DIFFERENCE_BOUND
}

/// Compatibility distance with fixed factors (fixed-point, see [`DISTANCE_ONE`]).
#[derive(Debug, Clone, Copy)]
pub struct CompatibilityDistance {
    pub factor_connections: u32,
    pub factor_weights: u32,
    pub factor_activations: u32,
    pub weight_cap: i64,
}

/// Matching the genes of `t`, all held by `s`, against `s` pairs each gene with itself, and
/// leaves nothing unmatched.
proof fn lemma_matching_within<T: Gene>(t: Seq<T>, s: Seq<T>)
    requires
        keys_unique(s),
        forall|i: int| 0 <= i < t.len() ==> s.contains(#[trigger] t[i]),
    ensures
        forall|k: int| 0 <= k < matching(t, s).len() ==> (#[trigger] matching(t, s)[k]).0 == matching(t, s)[k].1,
        only_in(t, s).len() == 0,
    decreases t.len(),
{
    if t.len() > 0 {
        let d = t.drop_last();
        assert forall|i: int| 0 <= i < d.len() implies s.contains(#[trigger] d[i]) by {
            assert(d[i] == t[i]);
        }
        lemma_matching_within(d, s);
        assert(s.contains(t[t.len() - 1]));
        let j = choose|j: int| 0 <= j < s.len() && s[j] == t.last();
        lemma_gene_for(s, j);
        let m = matching(t, s);
        assert forall|k: int| 0 <= k < m.len() implies (#[trigger] m[k]).0 == m[k].1 by {
            if k < matching(d, s).len() {
                assert(m[k] == matching(d, s)[k]);
            }
        }
    }
}

/// Sums over pairs of equal genes are zero.
proof fn lemma_equal_pairs(p: Seq<(Connection, Connection)>, q: Seq<(Node, Node)>)
    requires
        forall|k: int| 0 <= k < p.len() ==> (#[trigger] p[k]).0 == p[k].1,
        forall|k: int| 0 <= k < q.len() ==> (#[trigger] q[k]).0 == q[k].1,
    ensures
        weight_difference(p) == 0,
        activation_difference(q) == 0,
    decreases p.len() + q.len(),
{
    if p.len() > 0 {
        lemma_equal_pairs(p.drop_last(), Seq::empty());
        assert(p[p.len() - 1].0 == p[p.len() - 1].1);
        assert forall|k: int| 0 <= k < p.drop_last().len() implies (#[trigger] p.drop_last()[k]).0 == p.drop_last()[k].1 by {
            assert(p.drop_last()[k] == p[k]);
        }
        lemma_equal_pairs(p.drop_last(), Seq::empty());
    }
    if q.len() > 0 {
        assert forall|k: int| 0 <= k < q.drop_last().len() implies (#[trigger] q.drop_last()[k]).0 == q.drop_last()[k].1 by {
            assert(q.drop_last()[k] == q[k]);
        }
        lemma_equal_pairs(Seq::empty(), q.drop_last());
        assert(q[q.len() - 1].0 == q[q.len() - 1].1);
    }
}

/// A genome is at distance zero from itself: every term and the overall distance are zero,
/// whatever the factors.
pub proof fn lemma_distance_to_self(g: Genome, fc: u32, fw: u32, fa: u32, cap: i64)
    requires
        g.wf(),
    ensures
        connection_term(g, g, fc) == 0,
        weight_term(g, g, fw, cap) == 0,
        activation_term(g, g, fa) == 0,
        overall(0, 0, 0, fc, fw, fa) == 0,
{
    assert forall|i: int| 0 <= i < g.feed_forward@.len() implies g.feed_forward@.contains(#[trigger] g.feed_forward@[i]) by {}
    assert forall|i: int| 0 <= i < g.recurrent@.len() implies g.recurrent@.contains(#[trigger] g.recurrent@[i]) by {}
    assert forall|i: int| 0 <= i < g.hidden@.len() implies g.hidden@.contains(#[trigger] g.hidden@[i]) by {}
    lemma_matching_within(g.feed_forward@, g.feed_forward@);
    lemma_matching_within(g.recurrent@, g.recurrent@);
    lemma_matching_within(g.hidden@, g.hidden@);
    lemma_equal_pairs(matching(g.feed_forward@, g.feed_forward@), matching(g.hidden@, g.hidden@));
    lemma_equal_pairs(matching(g.recurrent@, g.recurrent@), Seq::empty());
    assert(different_connections(g, g) == 0);
    assert(total_weight_difference(g, g) == 0);
    assert(0 * (DISTANCE_ONE as nat) == 0);
}

/// Sums up the pairs' absolute weight differences.
fn sum_weight_difference(pairs: &Vec<(Connection, Connection)>, cap: i64) -> (r: u128)
    requires
        0 <= cap,
        pairs@.len() * 2 * cap <= DIFFERENCE_BOUND,
        forall|i: int|
            0 <= i < pairs@.len() ==> -cap <= (#[trigger] pairs@[i]).0.weight <= cap && -cap <= pairs@[i].1.weight
                <= cap,
    ensures
        r == weight_difference(pairs@),
        r <= pairs@.len() * 2 * cap,
{
    let mut sum: u128 = 0;
    let mut i: usize = 0;
    while i < pairs.len()
        invariant
            0 <= cap,
            i <= pairs@.len(),
            pairs@.len() * 2 * cap <= DIFFERENCE_BOUND,
            sum == weight_difference(pairs@.subrange(0, i as int)),
            sum <= i * 2 * cap,
            forall|j: int|
                0 <= j < pairs@.len() ==> -cap <= (#[trigger] pairs@[j]).0.weight <= cap && -cap <= pairs@[j].1.weight
                    <= cap,
        decreases pairs@.len() - i,
    {
        let p = pairs[i];
        assert(pairs@.subrange(0, i + 1).drop_last() =~= pairs@.subrange(0, i as int));
        assert(pairs@[i as int] == p);
        let d: i128 = p.0.weight as i128 - p.1.weight as i128;
        let a: u128 = if d >= 0 { d as u128 } else { (-d) as u128 };
        proof {
            assert((i + 1) * 2 * cap <= pairs@.len() * 2 * cap) by (nonlinear_arith)
                requires
                    i + 1 <= pairs@.len(),
                    0 <= cap,
            ;
            assert((i + 1) * 2 * cap == i * 2 * cap + 2 * cap) by (nonlinear_arith);
        }
        sum = sum + a;
        i = i + 1;
    }
    assert(pairs@.subrange(0, pairs@.len() as int) =~= pairs@);
    sum
}

/// Counts the pairs whose activations differ.
fn count_activation_difference(pairs: &Vec<(Node, Node)>) -> (r: u64)
    ensures
        r == activation_difference(pairs@),
        r <= pairs@.len(),
{
    let mut count: u64 = 0;
    let mut i: usize = 0;
    while i < pairs.len()
        invariant
            i <= pairs@.len(),
            count == activation_difference(pairs@.subrange(0, i as int)),
            count <= i,
        decreases pairs@.len() - i,
    {
        let p = pairs[i];
        assert(pairs@.subrange(0, i + 1).drop_last() =~= pairs@.subrange(0, i as int));
        assert(pairs@[i as int] == p);
        if p.0.activation != p.1.activation {
            count = count + 1;
        }
        i = i + 1;
    }
    assert(pairs@.subrange(0, pairs@.len() as int) =~= pairs@);
    count
}

/// All pairs' weights of matching connections lie in the unit range.
proof fn lemma_matching_capped(a: Seq<Connection>, b: Seq<Connection>, cap: i64)
    requires
        weights_within(a, cap),
        weights_within(b, cap),
    ensures
        matching(a, b).len() <= a.len(),
        forall|i: int|
            0 <= i < matching(a, b).len() ==> -cap <= (#[trigger] matching(a, b)[i]).0.weight <= cap && -cap
                <= matching(a, b)[i].1.weight <= cap,
    decreases a.len(),
{
    if a.len() > 0 {
        assert(weights_within(a.drop_last(), cap)) by {
            assert forall|i: int| 0 <= i < a.drop_last().len() implies -cap <= #[trigger] a.drop_last()[i].weight <= cap by {
                assert(a.drop_last()[i] == a[i]);
            }
        }
        lemma_matching_capped(a.drop_last(), b, cap);
        let m = matching(a, b);
        let md = matching(a.drop_last(), b);
        assert forall|i: int| 0 <= i < m.len() implies -cap <= (#[trigger] m[i]).0.weight <= cap && -cap <= m[i].1.weight
            <= cap by {
            if i < md.len() {
                assert(m[i] == md[i]);
            } else {
                assert(a[a.len() - 1].weight == a.last().weight);
                let k = a.last().key();
                let j = choose|j: int| 0 <= j < b.len() && (#[trigger] b[j]).key() == k;
            }
        }
    }
}

/// `factor * part / whole` rounded down, zero when `whole` is zero, where `part <= whole`.
fn scale(factor: u32, part: u128, whole: u128) -> (r: u64)
    requires
        part <= whole,
        whole <= DIFFERENCE_BOUND,
    ensures
        r == scaled(factor as nat, part as nat, whole as nat),
        r <= factor,
{
    if whole == 0 {
        0
    } else {
        proof {
            assert(factor as u128 * part <= factor as u128 * whole) by (nonlinear_arith)
                requires
                    part <= whole,
            ;
            assert(factor as u128 * whole <= 0xffff_ffff * 0x1_0000_0000_0000_0000_0000_0000) by (nonlinear_arith)
                requires
                    factor <= 0xffff_ffff,
                    whole <= 0x1_0000_0000_0000_0000_0000_0000,
            ;
        }
        let prod: u128 = factor as u128 * part;
        let q: u128 = prod / whole;
        proof {
            assert(q <= factor) by (nonlinear_arith)
                requires
                    prod <= factor as u128 * whole,
                    whole > 0,
                    q == prod / whole,
            ;
        }
        q as u64
    }
}

impl CompatibilityDistance {
    /// A distance with the given factors, for weights capped at `weight_cap`.
    pub fn with_factors(factor_connections: u32, factor_weights: u32, factor_activations: u32, weight_cap: i64) -> (r: Self)
        ensures
            r.factor_connections == factor_connections,
            r.factor_weights == factor_weights,
            r.factor_activations == factor_activations,
            r.weight_cap == weight_cap,
    {
        CompatibilityDistance { factor_connections, factor_weights, factor_activations, weight_cap }
    }

    /// The overall distance between the genomes under these factors.
    pub fn between(&self, genome_0: &Genome, genome_1: &Genome) -> (r: u64)
        requires
            genome_0.wf(),
            genome_1.wf(),
            capped_weights(*genome_0, *genome_1, self.weight_cap),
        ensures
            r == overall(
                connection_term(*genome_0, *genome_1, self.factor_connections),
                weight_term(*genome_0, *genome_1, self.factor_weights, self.weight_cap),
                activation_term(*genome_0, *genome_1, self.factor_activations),
                self.factor_connections,
                self.factor_weights,
                self.factor_activations,
            ),
    {
        Self::compatability_distance(
            genome_0,
            genome_1,
            self.factor_connections,
            self.factor_weights,
            self.factor_activations,
            self.weight_cap,
        ).0
    }

    /// The overall distance and its three terms (see [`connection_term`], [`weight_term`],
    /// [`activation_term`] and [`overall`]) for weights capped at `weight_cap`, each
    /// fixed-point: each term lies in `[0, factor]` and the overall distance in
    /// `[0, DISTANCE_ONE]`. A term with nothing to compare, and the overall distance when all
    /// factors are zero, are zero.
    pub fn compatability_distance(
        genome_0: &Genome,
        genome_1: &Genome,
        factor_connections: u32,
        factor_weights: u32,
        factor_activations: u32,
        weight_cap: i64,
    ) -> (r: (u64, u64, u64, u64))
        requires
            genome_0.wf(),
            genome_1.wf(),
            capped_weights(*genome_0, *genome_1, weight_cap),
        ensures
            r.1 == connection_term(*genome_0, *genome_1, factor_connections),
            r.2 == weight_term(*genome_0, *genome_1, factor_weights, weight_cap),
            r.3 == activation_term(*genome_0, *genome_1, factor_activations),
            r.0 == overall(r.1 as nat, r.2 as nat, r.3 as nat, factor_connections, factor_weights, factor_activations),
            r.1 <= factor_connections,
            r.2 <= factor_weights,
            r.3 <= factor_activations,
            r.0 <= DISTANCE_ONE,
            genome_0.hidden@ == genome_1.hidden@ && genome_0.feed_forward@ == genome_1.feed_forward@
                && genome_0.recurrent@ == genome_1.recurrent@ ==> r == (0u64, 0u64, 0u64, 0u64),
    {
        let ff = genome_0.feed_forward.iterate_matching_genes(&genome_1.feed_forward);
        let rec = genome_0.recurrent.iterate_matching_genes(&genome_1.recurrent);
        proof {
            lemma_matching_capped(genome_0.feed_forward@, genome_1.feed_forward@, weight_cap);
            lemma_matching_capped(genome_0.recurrent@, genome_1.recurrent@, weight_cap);
            let (lf, lr) = (genome_0.feed_forward@.len(), genome_0.recurrent@.len());
            assert(ff@.len() * 2 * weight_cap <= lf * 2 * weight_cap) by (nonlinear_arith)
                requires
                    ff@.len() <= lf,
                    0 <= weight_cap,
            ;
            assert(rec@.len() * 2 * weight_cap <= lr * 2 * weight_cap) by (nonlinear_arith)
                requires
                    rec@.len() <= lr,
                    0 <= weight_cap,
            ;
            assert((lf + lr) * 2 * weight_cap == lf * 2 * weight_cap + lr * 2 * weight_cap) by (nonlinear_arith);
            assert((ff@.len() + rec@.len()) * 2 * weight_cap == ff@.len() * 2 * weight_cap + rec@.len() * 2
                * weight_cap) by (nonlinear_arith);
        }
        let nf = ff.len();
        let nr = rec.len();
        let sf = sum_weight_difference(&ff, weight_cap);
        let sr = sum_weight_difference(&rec, weight_cap);
        let weight_sum: u128 = sf + sr;
        let matching_count: u128 = ff.len() as u128 + rec.len() as u128;
        let different_count: u128 = genome_0.feed_forward.only_in(&genome_1.feed_forward).len() as u128
            + genome_1.feed_forward.only_in(&genome_0.feed_forward).len() as u128
            + genome_0.recurrent.only_in(&genome_1.recurrent).len() as u128
            + genome_1.recurrent.only_in(&genome_0.recurrent).len() as u128;
        let hidden = genome_0.hidden.iterate_matching_genes(&genome_1.hidden);
        let mismatches = count_activation_difference(&hidden);
        let connection = scale(factor_connections, different_count, matching_count + different_count);
        let whole: u128 = matching_count * 2 * (weight_cap as u128);
        let weight = scale(factor_weights, weight_sum, whole);
        let activation = scale(factor_activations, mismatches as u128, hidden.len() as u128);
        let factors: u128 = factor_connections as u128 + factor_weights as u128 + factor_activations as u128;
        let terms: u128 = connection as u128 + weight as u128 + activation as u128;
        let total = if factors == 0 {
            0
        } else {
            let t = terms * (DISTANCE_ONE as u128) / factors;
            proof {
                assert(t <= DISTANCE_ONE) by (nonlinear_arith)
                    requires
                        terms <= factors,
                        factors > 0,
                        t == (terms * 1_000_000) as int / factors as int,
                ;
            }
            t as u64
        };
        proof {
            if genome_0.hidden@ == genome_1.hidden@ && genome_0.feed_forward@ == genome_1.feed_forward@
                && genome_0.recurrent@ == genome_1.recurrent@ {
                lemma_distance_to_self(*genome_0, factor_connections, factor_weights, factor_activations, weight_cap);
                assert(connection_term(*genome_0, *genome_1, factor_connections) == connection_term(*genome_0, *genome_0, factor_connections));
                assert(weight_term(*genome_0, *genome_1, factor_weights, weight_cap) == weight_term(*genome_0, *genome_0, factor_weights, weight_cap));
                assert(activation_term(*genome_0, *genome_1, factor_activations) == activation_term(*genome_0, *genome_0, factor_activations));
            }
        }
        (total, connection, weight, activation)
    }
}

} // verus!
