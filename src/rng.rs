//! The source of randomness of all operations, and the fixed-point numbers it works with.
//!
//! Weights are fixed-point numbers with [`WEIGHT_ONE`] units to `1.0`; chances and percentages
//! are fixed-point numbers with [`PROBABILITY_ONE`] units to `1.0` (certainty, or 100%).
use rand::rngs::SmallRng;
use rand::seq::SliceRandom;
use rand::Rng;
use rand::SeedableRng;
use vstd::prelude::*;

verus! {

/// The fixed-point representation of the weight `1.0`.
pub const WEIGHT_ONE: i64 = 1_000_000;

/// The fixed-point representation of the chance `1.0` (and of 100%).
pub const PROBABILITY_ONE: u64 = 1_000_000;

#[verifier::external_type_specification]
#[verifier::external_body]
pub struct ExSmallRng(SmallRng);

/// Relies on `rand::SeedableRng::seed_from_u64` for `SmallRng`: a generator seeded from `seed`.
#[verifier::external_body]
fn small_rng_from_seed(seed: u64) -> SmallRng {
    SmallRng::seed_from_u64(seed)
}

/// Relies on `rand::Rng::gen_range` over `0..n`, which draws uniformly from the half-open range
/// and panics only when it is empty.
#[verifier::external_body]
fn draw_below(rng: &mut SmallRng, n: u64) -> (r: u64)
    requires
        n > 0,
    ensures
        r < n,
{
    rng.gen_range(0..n)
}

/// The largest magnitude of a perturbation that [`capped_weight`] accepts.
pub const PERTURBATION_BOUND: i128 = 0x10_0000_0000_0000_0000_0000_0000;

/// Relies on `rand::seq::SliceRandom::shuffle`, which rearranges the elements of the slice in
/// place: the same elements, in an order drawn at random.
#[verifier::external_body]
fn shuffle_in_place(rng: &mut SmallRng, v: &mut Vec<usize>)
    ensures
        final(v)@.to_multiset() == old(v)@.to_multiset(),
{
    v.shuffle(rng)
}

/// The weight `weight + perturbation` brought back into `[-cap, cap]`: as long as it lies
/// outside, the perturbation is negated and halved (rounding towards zero).
pub open spec fn reflected_weight(weight: int, perturbation: int, cap: int) -> int
    decreases (if perturbation >= 0 { perturbation } else { -perturbation }),
{
    if -cap <= weight + perturbation <= cap {
        weight + perturbation
    } else if perturbation == 0 {
        weight
    } else if perturbation > 0 {
        reflected_weight(weight, -(perturbation / 2), cap)
    } else {
        reflected_weight(weight, (-perturbation) / 2, cap)
    }
}

/// The reflect-and-halve policy keeps a weight that starts in `[-cap, cap]` there.
pub proof fn lemma_reflected_in_range(weight: int, perturbation: int, cap: int)
    requires
        0 <= cap,
        -cap <= weight <= cap,
    ensures
        -cap <= reflected_weight(weight, perturbation, cap) <= cap,
    decreases (if perturbation >= 0 { perturbation } else { -perturbation }),
{
    if -cap <= weight + perturbation <= cap {
    } else if perturbation == 0 {
    } else if perturbation > 0 {
        lemma_reflected_in_range(weight, -(perturbation / 2), cap);
    } else {
        lemma_reflected_in_range(weight, (-perturbation) / 2, cap);
    }
}

/// Applies `perturbation` to `weight` under the reflect-and-halve policy of
/// [`reflected_weight`]; the result lies in `[-cap, cap]`.
pub fn capped_weight(weight: i64, perturbation: i128, cap: i64) -> (r: i64)
    requires
        0 <= cap,
        -cap <= weight <= cap,
        -PERTURBATION_BOUND <= perturbation <= PERTURBATION_BOUND,
    ensures
        r == reflected_weight(weight as int, perturbation as int, cap as int),
        -cap <= r <= cap,
{
    let mut p: i128 = perturbation;
    let w: i128 = weight as i128;
    let c: i128 = cap as i128;
    while !(-c <= w + p && w + p <= c)
        invariant
            w == weight,
            c == cap,
            0 <= c,
            -c <= w <= c,
            -PERTURBATION_BOUND <= p <= PERTURBATION_BOUND,
            reflected_weight(w as int, p as int, c as int) == reflected_weight(
                weight as int,
                perturbation as int,
                cap as int,
            ),
        decreases (if p >= 0 { p as int } else { -p as int }),
    {
        if p >= 0 {
            p = -(p / 2);
        } else {
            p = (-p) / 2;
        }
    }
    (w + p) as i64
}

/// `percent` (fixed-point, see [`PROBABILITY_ONE`]) of `n`, rounded up, at most `n`.
pub open spec fn share_of(percent: u64, n: nat) -> nat {
    let k = (percent * n + PROBABILITY_ONE - 1) / (PROBABILITY_ONE as int);
    if k > n {
        n
    } else {
        k as nat
    }
}

/// `percent` (fixed-point, see [`PROBABILITY_ONE`]) of `n`, rounded up, at most `n`.
pub fn share(percent: u64, n: usize) -> (r: usize)
    ensures
        r == share_of(percent, n as nat),
{
    proof {
        assert(percent as u128 * n as u128 <= 0xffff_ffff_ffff_ffff * 0xffff_ffff_ffff_ffff) by (nonlinear_arith)
            requires
                percent <= 0xffff_ffff_ffff_ffff,
                n <= 0xffff_ffff_ffff_ffff,
        ;
    }
    let wide: u128 = percent as u128 * n as u128;
    let ceil: u128 = (wide + (PROBABILITY_ONE as u128) - 1) / (PROBABILITY_ONE as u128);
    if ceil > n as u128 {
        n
    } else {
        ceil as usize
    }
}

/// `order` lists each of the positions `0..n`, and nothing else.
pub open spec fn is_order(order: Seq<usize>, n: nat) -> bool {
    &&& order.len() == n
    &&& forall|t: int| 0 <= t < order.len() ==> #[trigger] order[t] < n
    &&& forall|i: int| 0 <= i < n ==> #[trigger] order.contains(i as usize)
}

/// The randomness source of all operations: a small seeded generator, the standard deviation of
/// weight perturbations and the cap of weights (both fixed-point, see [`WEIGHT_ONE`]).
#[derive(Debug)]
pub struct GenomeRng {
    pub small: SmallRng,
    pub std_dev: u64,
    pub cap: i64,
}

impl GenomeRng {
    /// A generator seeded with `seed`, perturbing weights with standard deviation `std_dev` and
    /// keeping them in `[-cap, cap]`.
    pub fn new(seed: u64, std_dev: u64, cap: i64) -> (r: GenomeRng)
        ensures
            r.std_dev == std_dev,
            r.cap == cap,
    {
        GenomeRng { small: small_rng_from_seed(seed), std_dev, cap }
    }

    /// A uniform draw from `0..n`.
    pub fn below(&mut self, n: u64) -> (r: u64)
        requires
            n > 0,
        ensures
            r < n,
            final(self).std_dev == old(self).std_dev,
            final(self).cap == old(self).cap,
    {
        draw_below(&mut self.small, n)
    }

    /// A uniform draw from `0..n` as an index.
    pub fn index_below(&mut self, n: usize) -> (r: usize)
        requires
            n > 0,
        ensures
            r < n,
            final(self).std_dev == old(self).std_dev,
            final(self).cap == old(self).cap,
    {
        self.below(n as u64) as usize
    }

    /// The positions `0..n` in an order drawn uniformly.
    pub fn shuffled_positions(&mut self, n: usize) -> (r: Vec<usize>)
        ensures
            is_order(r@, n as nat),
            r@.no_duplicates(),
            final(self).std_dev == old(self).std_dev,
            final(self).cap == old(self).cap,
    {
        let mut r: Vec<usize> = Vec::new();
        while r.len() < n
            invariant
                r@.len() <= n,
                forall|j: int| 0 <= j < r@.len() ==> r@[j] == j,
            decreases n - r@.len(),
        {
            let next = r.len();
            r.push(next);
        }
        let ghost before = r@;
        assert(before.no_duplicates());
        assert forall|i: int| 0 <= i < n implies #[trigger] before.contains(i as usize) by {
            assert(before[i] == i);
        }
        shuffle_in_place(&mut self.small, &mut r);
        proof {
            vstd::seq_lib::to_multiset_len(before);
            vstd::seq_lib::to_multiset_len(r@);
            before.lemma_multiset_has_no_duplicates();
            assert forall|x: usize| #[trigger] r@.contains(x) <==> before.contains(x) by {
                vstd::seq_lib::to_multiset_contains(before, x);
                vstd::seq_lib::to_multiset_contains(r@, x);
            }
            assert forall|x: usize| r@.to_multiset().contains(x) implies r@.to_multiset().count(x) == 1 by {
                assert(before.to_multiset().contains(x));
            }
            r@.lemma_multiset_has_no_duplicates_conv();
            assert forall|t: int| 0 <= t < r@.len() implies #[trigger] r@[t] < n by {
                assert(r@.contains(r@[t]));
                assert(before.contains(r@[t]));
            }
            assert forall|i: int| 0 <= i < n implies #[trigger] r@.contains(i as usize) by {
                assert(before.contains(i as usize));
            }
        }
        r
    }

    /// A fair coin.
    pub fn coin(&mut self) -> (r: bool)
        ensures
            final(self).std_dev == old(self).std_dev,
            final(self).cap == old(self).cap,
    {
        self.below(2) == 0
    }

    /// True with probability `chance` (fixed-point, see [`PROBABILITY_ONE`]): always when
    /// `chance` is at least certainty, never when it is zero.
    pub fn gamble(&mut self, chance: u64) -> (r: bool)
        ensures
            chance >= PROBABILITY_ONE ==> r,
            chance == 0 ==> !r,
            final(self).std_dev == old(self).std_dev,
            final(self).cap == old(self).cap,
    {
        self.below(PROBABILITY_ONE) < chance
    }

    /// A sample of an approximately normal distribution with mean zero and standard deviation
    /// `std_dev`: twelve uniform draws from `[0, 1)` summed, minus six (Irwin-Hall), scaled.
    pub fn perturbation(&mut self) -> (r: i128)
        ensures
            final(self).std_dev == old(self).std_dev,
            final(self).cap == old(self).cap,
            -6 * old(self).std_dev <= r <= 6 * old(self).std_dev,
            -PERTURBATION_BOUND <= r <= PERTURBATION_BOUND,
    {
        let mut sum: u64 = 0;
        let mut k: u64 = 0;
        while k < 12
            invariant
                k <= 12,
                sum <= k * 1_000_000,
                self.std_dev == old(self).std_dev,
                self.cap == old(self).cap,
            decreases 12 - k,
        {
            sum = sum + self.below(WEIGHT_ONE as u64);
            k = k + 1;
        }
        let six: u64 = 6 * (WEIGHT_ONE as u64);
        let sd: u128 = self.std_dev as u128;
        let negative = sum < six;
        let d: u128 = if negative {
            (six - sum) as u128
        } else {
            (sum - six) as u128
        };
        proof {
            assert(d * sd <= 6_000_000 * sd) by (nonlinear_arith)
                requires
                    d <= 6_000_000,
            ;
        }
        let prod: u128 = d * sd;
        let mag: u128 = prod / (WEIGHT_ONE as u128);
        proof {
            assert(mag <= 6 * sd) by (nonlinear_arith)
                requires
                    prod <= 6_000_000 * sd,
                    mag == prod / 1_000_000,
            ;
        }
        if negative {
            -(mag as i128)
        } else {
            mag as i128
        }
    }

    /// `weight` moved by a fresh perturbation, kept in `[-cap, cap]` as [`capped_weight`] does.
    pub fn weight_perturbation(&mut self, weight: i64) -> (r: i64)
        requires
            0 <= old(self).cap,
            -old(self).cap <= weight <= old(self).cap,
        ensures
            -old(self).cap <= r <= old(self).cap,
            final(self).std_dev == old(self).std_dev,
            final(self).cap == old(self).cap,
    {
        let p = self.perturbation();
        capped_weight(weight, p, self.cap)
    }
}

} // verus!
