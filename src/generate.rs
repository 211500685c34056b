//! The integer side of instance generation: the parameters of the two
//! spatial mixtures, the choice of a mixture component by weight, the
//! rejection rules for commuters, and the starting budget.

use vstd::prelude::*;
use rand::rngs::StdRng;
use crate::grid::{on_grid, STATION_COST, TRACK_COST};
use crate::instance::{Commuter, Input, commuter_fare, fare, MAX_COMMUTERS, MAX_TURNS};

verus! {

#[verifier::external_type_specification]
#[verifier::external_body]
pub struct ExStdRng(StdRng);

/// Fewest components of a mixture.
pub const MIN_COMPONENTS: u64 = 1;

/// Most components of a mixture.
pub const MAX_COMPONENTS: u64 = 5;

/// Largest weight of a component.
pub const MAX_WEIGHT: u64 = 100;

/// Smallest standard deviation of a component, in cells.
pub const MIN_SPREAD: u64 = 2;

/// Largest standard deviation of a component, in cells.
pub const MAX_SPREAD: u64 = 10;

/// A commuter whose journey is this short or shorter is rejected.
pub const MAX_REJECTED_FARE: i64 = 4;

/// The budget is drawn up to this many units per cell of the grid side.
pub const BUDGET_PER_SIDE: u64 = 400;

/// Added to every drawn budget.
pub const BUDGET_OFFSET: u64 = 1000;

/// Relies on rand's `Rng::gen_range` over an inclusive range: a value from
/// `lo` to `hi`. It panics on an empty range, which `requires` rules out.
#[verifier::external_body]
fn uniform(rng: &mut StdRng, lo: u64, hi: u64) -> (r: u64)
    requires
        lo <= hi,
    ensures
        lo <= r <= hi,
{
    rand::Rng::gen_range(rng, lo..=hi)
}

/// A weighted mixture of isotropic two-dimensional Gaussians: component `i`
/// has weight `weights[i]`, centre `centers[i]` (row, column) and standard
/// deviation `spreads[i]`.
#[derive(Clone, Debug)]
pub struct Mixture {
    pub weights: Vec<u64>,
    pub centers: Vec<(u64, u64)>,
    pub spreads: Vec<u64>,
}

impl Mixture {
    /// Between `MIN_COMPONENTS` and `MAX_COMPONENTS` components, each with a
    /// positive weight, a centre on the grid and a spread in range.
    pub open spec fn wf(&self) -> bool {
        let k = self.weights@.len();
        &&& MIN_COMPONENTS <= k <= MAX_COMPONENTS
        &&& self.centers@.len() == k
        &&& self.spreads@.len() == k
        &&& forall|i: int|
            0 <= i < k ==> 1 <= #[trigger] self.weights@[i] <= MAX_WEIGHT && on_grid(
                self.centers@[i].0 as int,
                self.centers@[i].1 as int,
            ) && MIN_SPREAD <= self.spreads@[i] <= MAX_SPREAD
    }
}

/// Sum of the first `i` weights.
pub open spec fn weight_prefix(w: Seq<u64>, i: int) -> int
    decreases i,
{
    if i <= 0 {
        0
    } else {
        weight_prefix(w, i - 1) + w[i - 1]
    }
}

/// Draws the parameters of one mixture: the number of components, then
/// for each its weight, centre and spread.
pub fn draw_mixture(rng: &mut StdRng) -> (m: Mixture)
    ensures
        m.wf(),
{
    let k = uniform(rng, MIN_COMPONENTS, MAX_COMPONENTS);
    let mut weights: Vec<u64> = Vec::new();
    let mut centers: Vec<(u64, u64)> = Vec::new();
    let mut spreads: Vec<u64> = Vec::new();
    let mut i: u64 = 0;
    while i < k
        invariant
            i <= k <= MAX_COMPONENTS,
            weights@.len() == i,
            centers@.len() == i,
            spreads@.len() == i,
            forall|j: int|
                0 <= j < i ==> 1 <= #[trigger] weights@[j] <= MAX_WEIGHT && on_grid(
                    centers@[j].0 as int,
                    centers@[j].1 as int,
                ) && MIN_SPREAD <= spreads@[j] <= MAX_SPREAD,
        decreases k - i,
    {
        let w = uniform(rng, 1, MAX_WEIGHT);
        let r = uniform(rng, 0, 49);
        let c = uniform(rng, 0, 49);
        let s = uniform(rng, MIN_SPREAD, MAX_SPREAD);
        weights.push(w);
        centers.push((r, c));
        spreads.push(s);
        i = i + 1;
    }
    Mixture { weights, centers, spreads }
}

proof fn lemma_prefix_grows(w: Seq<u64>, i: int, j: int)
    requires
        0 <= i <= j <= w.len(),
    ensures
        weight_prefix(w, i) <= weight_prefix(w, j),
    decreases j - i,
{
    if i < j {
        lemma_prefix_grows(w, i, j - 1);
    }
}

/// Total weight of a mixture.
pub fn total_weight(weights: &Vec<u64>) -> (t: u64)
    requires
        weights@.len() <= MAX_COMPONENTS,
        forall|i: int| 0 <= i < weights@.len() ==> #[trigger] weights@[i] <= MAX_WEIGHT,
    ensures
        t == weight_prefix(weights@, weights@.len() as int),
{
    let mut t: u64 = 0;
    let mut i: usize = 0;
    while i < weights.len()
        invariant
            i <= weights@.len() <= MAX_COMPONENTS,
            forall|i: int| 0 <= i < weights@.len() ==> #[trigger] weights@[i] <= MAX_WEIGHT,
            t == weight_prefix(weights@, i as int),
            t <= i * MAX_WEIGHT,
        decreases weights@.len() - i,
    {
        t = t + weights[i];
        i = i + 1;
    }
    t
}

/// The component that the draw `u` falls in when the weights are laid end
/// to end: the `i` with `prefix(i) <= u < prefix(i + 1)`.
pub fn pick_component(weights: &Vec<u64>, u: u64) -> (i: usize)
    requires
        weights@.len() <= MAX_COMPONENTS,
        forall|i: int| 0 <= i < weights@.len() ==> #[trigger] weights@[i] <= MAX_WEIGHT,
        u < weight_prefix(weights@, weights@.len() as int),
    ensures
        i < weights@.len(),
        weight_prefix(weights@, i as int) <= u < weight_prefix(weights@, i + 1),
{
    let mut acc: u64 = 0;
    let mut i: usize = 0;
    while i < weights.len()
        invariant
            i <= weights@.len() <= MAX_COMPONENTS,
            forall|i: int| 0 <= i < weights@.len() ==> #[trigger] weights@[i] <= MAX_WEIGHT,
            acc == weight_prefix(weights@, i as int),
            acc <= u,
            acc <= i * MAX_WEIGHT,
            u < weight_prefix(weights@, weights@.len() as int),
        decreases weights@.len() - i,
    {
        let next = acc + weights[i];
        if u < next {
            return i;
        }
        acc = next;
        i = i + 1;
    }
    i
}

/// Draws a component of `mix` with probability proportional to its weight.
pub fn choose_component(mix: &Mixture, rng: &mut StdRng) -> (i: usize)
    requires
        mix.wf(),
    ensures
        i < mix.weights@.len(),
{
    let total = total_weight(&mix.weights);
    proof {
        lemma_prefix_grows(mix.weights@, 1, mix.weights@.len() as int);
        assert(weight_prefix(mix.weights@, 1) == weight_prefix(mix.weights@, 0) + mix.weights@[0]);
        assert(1 <= mix.weights@[0]);
    }
    let u = uniform(rng, 0, total - 1);
    pick_component(&mix.weights, u)
}

/// A sampled commuter is kept when both ends lie on the grid and its
/// journey is longer than `MAX_REJECTED_FARE`.
pub open spec fn accepted(r0: int, c0: int, r1: int, c1: int) -> bool {
    &&& on_grid(r0, c0)
    &&& on_grid(r1, c1)
    &&& fare(Commuter { r0: r0 as usize, c0: c0 as usize, r1: r1 as usize, c1: c1 as usize })
        > MAX_REJECTED_FARE
}

/// Whether a sampled commuter is kept.
pub fn accept_pair(r0: i64, c0: i64, r1: i64, c1: i64) -> (r: bool)
    ensures
        r == accepted(r0 as int, c0 as int, r1 as int, c1 as int),
{
    if r0 < 0 || r0 >= 50 || c0 < 0 || c0 >= 50 || r1 < 0 || r1 >= 50 || c1 < 0 || c1 >= 50 {
        return false;
    }
    let cm = Commuter { r0: r0 as usize, c0: c0 as usize, r1: r1 as usize, c1: c1 as usize };
    commuter_fare(&cm) > MAX_REJECTED_FARE
}

/// The smaller of two integers.
pub open spec fn min_int(a: int, b: int) -> int {
    if a <= b {
        a
    } else {
        b
    }
}

/// Commuters gathered for an instance, up to a target count, and the
/// shortest fare among them.
pub struct Generation {
    commuters: Vec<Commuter>,
    target: usize,
    min_fare: i64,
}

impl Generation {
    /// The gathered commuters.
    pub closed spec fn commuters_spec(&self) -> Seq<Commuter> {
        self.commuters@
    }

    /// How many commuters are wanted.
    pub closed spec fn target_spec(&self) -> nat {
        self.target as nat
    }

    /// The shortest fare gathered so far (98, the longest possible, while none is).
    pub closed spec fn min_fare_spec(&self) -> int {
        self.min_fare as int
    }

    /// The invariant: no more commuters than wanted, all kept by the
    /// rejection rules, and `min_fare` the least of their fares.
    pub closed spec fn wf(&self) -> bool {
        &&& 1 <= self.target <= MAX_COMMUTERS
        &&& self.commuters@.len() <= self.target
        &&& MAX_REJECTED_FARE < self.min_fare <= 98
        &&& forall|i: int|
            0 <= i < self.commuters@.len() ==> accepted(
                (#[trigger] self.commuters@[i]).r0 as int,
                self.commuters@[i].c0 as int,
                self.commuters@[i].r1 as int,
                self.commuters@[i].c1 as int,
            ) && self.min_fare <= fare(self.commuters@[i])
        &&& (self.commuters@.len() == 0 ==> self.min_fare == 98)
        &&& (self.commuters@.len() > 0 ==> exists|i: int|
            0 <= i < self.commuters@.len() && self.min_fare == fare(#[trigger] self.commuters@[i]))
    }

    /// Starts gathering `target` commuters.
    pub fn new(target: usize) -> (g: Generation)
        requires
            1 <= target <= MAX_COMMUTERS,
        ensures
            g.wf(),
            g.commuters_spec() == Seq::<Commuter>::empty(),
            g.target_spec() == target,
            g.min_fare_spec() == 98,
    {
        Generation { commuters: Vec::new(), target, min_fare: 98 }
    }

    /// Whether the target count is reached.
    pub fn is_done(&self) -> (r: bool)
        requires
            self.wf(),
        ensures
            r == (self.commuters_spec().len() == self.target_spec()),
    {
        self.commuters.len() == self.target
    }

    /// Offers a sampled commuter: it is kept when the target is not reached
    /// and the rejection rules accept it.
    pub fn offer(&mut self, r0: i64, c0: i64, r1: i64, c1: i64) -> (kept: bool)
        requires
            old(self).wf(),
        ensures
            final(self).wf(),
            final(self).target_spec() == old(self).target_spec(),
            kept == (old(self).commuters_spec().len() < old(self).target_spec() && accepted(
                r0 as int,
                c0 as int,
                r1 as int,
                c1 as int,
            )),
            kept ==> final(self).commuters_spec() == old(self).commuters_spec().push(
                Commuter { r0: r0 as usize, c0: c0 as usize, r1: r1 as usize, c1: c1 as usize },
            ),
            !kept ==> final(self).commuters_spec() == old(self).commuters_spec(),
            final(self).min_fare_spec() == if kept {
                min_int(
                    old(self).min_fare_spec(),
                    fare(Commuter { r0: r0 as usize, c0: c0 as usize, r1: r1 as usize, c1: c1 as usize }),
                )
            } else {
                old(self).min_fare_spec()
            },
            final(self).commuters_spec().len() > 0 ==> exists|i: int|
                0 <= i < final(self).commuters_spec().len() && final(self).min_fare_spec() == fare(
                    #[trigger] final(self).commuters_spec()[i],
                ),
            forall|i: int|
                0 <= i < final(self).commuters_spec().len() ==> final(self).min_fare_spec() <= fare(
                    #[trigger] final(self).commuters_spec()[i],
                ),
    {
        if self.commuters.len() >= self.target || !accept_pair(r0, c0, r1, c1) {
            return false;
        }
        let cm = Commuter { r0: r0 as usize, c0: c0 as usize, r1: r1 as usize, c1: c1 as usize };
        let f = commuter_fare(&cm);
        let ghost before = self.commuters@;
        let ghost old_min = self.min_fare;
        self.commuters.push(cm);
        if f < self.min_fare {
            self.min_fare = f;
        }
        proof {
            let n = self.commuters@.len();
            assert(self.commuters@[n - 1] == cm);
            assert forall|i: int| 0 <= i < n implies accepted(
                (#[trigger] self.commuters@[i]).r0 as int,
                self.commuters@[i].c0 as int,
                self.commuters@[i].r1 as int,
                self.commuters@[i].c1 as int,
            ) && self.min_fare <= fare(self.commuters@[i]) by {
                if i < n - 1 {
                    assert(self.commuters@[i] == before[i]);
                }
            }
            if self.min_fare == f {
                assert(self.min_fare == fare(self.commuters@[n - 1]));
            } else {
                assert(before.len() > 0);
                let j = choose|i: int| 0 <= i < before.len() && old_min == fare(#[trigger] before[i]);
                assert(self.commuters@[j] == before[j]);
            }
        }
        true
    }

    /// The lowest budget drawn: two stations and track for the shortest fare.
    pub fn budget_floor(&self) -> (r: u64)
        requires
            self.wf(),
        ensures
            r == 2 * STATION_COST + TRACK_COST * self.min_fare_spec(),
            r <= BUDGET_PER_SIDE * 50,
    {
        (2 * STATION_COST + TRACK_COST * self.min_fare) as u64
    }

    /// The instance: the gathered commuters, the longest turn limit, and a
    /// budget drawn from the floor up to `BUDGET_PER_SIDE` per cell of the
    /// side, plus `BUDGET_OFFSET`.
    pub fn finish(self, rng: &mut StdRng) -> (r: Input)
        requires
            self.wf(),
            self.commuters_spec().len() == self.target_spec(),
        ensures
            r.valid(),
            r.commuters@ == self.commuters_spec(),
            r.t == MAX_TURNS,
            2 * STATION_COST + TRACK_COST * self.min_fare_spec() + BUDGET_OFFSET <= r.k <= BUDGET_PER_SIDE
                * 50 + BUDGET_OFFSET,
    {
        let lo = self.budget_floor();
        let budget = uniform(rng, lo, BUDGET_PER_SIDE * 50) + BUDGET_OFFSET;
        let r = Input {
            n: 50,
            m: self.target,
            k: budget as i64,
            t: MAX_TURNS,
            commuters: self.commuters,
        };
        proof {
            assert forall|i: int| 0 <= i < r.m implies crate::instance::commuter_on_grid(
                #[trigger] r.commuters@[i],
            ) by {
                assert(accepted(
                    r.commuters@[i].r0 as int,
                    r.commuters@[i].c0 as int,
                    r.commuters@[i].r1 as int,
                    r.commuters@[i].c1 as int,
                ));
            }
        }
        r
    }
}

} // verus!
