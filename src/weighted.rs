use vstd::prelude::*;

use oorandom::Rand32;

verus! {

/// oorandom's `Rand32` generator, held as an opaque value.
#[verifier::external_type_specification]
#[verifier::external_body]
pub struct ExRand32(oorandom::Rand32);

/// Relies on oorandom's `Rand32::new`: a generator seeded with `seed`.
pub assume_specification[ oorandom::Rand32::new ](seed: u64) -> oorandom::Rand32;

/// Relies on oorandom's `Rand32::rand_range`, which for `start < end`
/// returns a number in `start..end` (it multiplies a 32-bit draw by the
/// width of the range and keeps the upper half).
#[verifier::external_body]
fn draw_below(rng: &mut Rand32, bound: u32) -> (r: u32)
    requires
        bound > 0,
    ensures
        r < bound,
{
    rng.rand_range(0..bound)
}

/// The sum of the first `n` weights.
pub open spec fn prefix_weight(w: Seq<usize>, n: int) -> int
    decreases n,
{
    if n <= 0 || n > w.len() {
        0
    } else {
        prefix_weight(w, n - 1) + w[n - 1]
    }
}

pub open spec fn total(w: Seq<usize>) -> int {
    prefix_weight(w, w.len() as int)
}

/// Index `i` is the one that a draw of `d` selects: the first whose
/// cumulative weight exceeds `d`.
pub open spec fn selects(w: Seq<usize>, d: int, i: int) -> bool {
    &&& 0 <= i < w.len()
    &&& prefix_weight(w, i) <= d < prefix_weight(w, i + 1)
}

pub proof fn lemma_prefix_monotone(w: Seq<usize>, a: int, b: int)
    requires
        0 <= a <= b <= w.len(),
    ensures
        prefix_weight(w, a) <= prefix_weight(w, b),
    decreases b - a,
{
    if a < b {
        lemma_prefix_monotone(w, a, b - 1);
    }
}

/// A selected index carries positive weight, and no other index is selected
/// by the same draw.
pub proof fn lemma_selects_unique(w: Seq<usize>, d: int, i: int, j: int)
    requires
        selects(w, d, i),
        selects(w, d, j),
    ensures
        i == j,
        w[i] > 0,
{
    if i < j {
        lemma_prefix_monotone(w, i + 1, j);
    } else if j < i {
        lemma_prefix_monotone(w, j + 1, i);
    }
}

/// The index that the draw `draw` selects, or `None` when `draw` is not below
/// the total weight.
pub fn pick_index(weights: &Vec<usize>, draw: u64) -> (r: Option<usize>)
    ensures
        r matches Some(i) ==> selects(weights@, draw as int, i as int),
        r is None <==> total(weights@) <= draw,
{
    let mut weight_sum: u64 = 0;
    let mut i: usize = 0;
    while i < weights.len()
        invariant
            i <= weights@.len(),
            weight_sum == prefix_weight(weights@, i as int),
            weight_sum <= draw,
        decreases weights@.len() - i,
    {
        let w = weights[i] as u64;
        if draw - weight_sum < w {
            proof {
                lemma_prefix_monotone(weights@, i + 1, weights@.len() as int);
            }
            return Some(i);
        }
        weight_sum = weight_sum + w;
        i = i + 1;
    }
    None
}

/// Adds up `weights`.
pub fn total_weight(weights: &Vec<usize>) -> (r: u64)
    requires
        total(weights@) <= u64::MAX,
    ensures
        r == total(weights@),
{
    let mut sum: u64 = 0;
    let mut i: usize = 0;
    while i < weights.len()
        invariant
            i <= weights@.len(),
            sum == prefix_weight(weights@, i as int),
            total(weights@) <= u64::MAX,
        decreases weights@.len() - i,
    {
        proof {
            lemma_prefix_monotone(weights@, i + 1, weights@.len() as int);
        }
        sum = sum + weights[i] as u64;
        i = i + 1;
    }
    sum
}

/// Draws an index with probability proportional to its weight: a number
/// below the total weight is drawn from `rng` and handed to [`pick_index`].
/// Returns `None` exactly when the weights add up to zero.
pub fn get_random_index(weights: &Vec<usize>, rng: &mut Rand32) -> (r: Option<usize>)
    requires
        total(weights@) <= u32::MAX,
    ensures
        r is None <==> total(weights@) == 0,
        r matches Some(i) ==> exists|d: int|
            0 <= d < total(weights@) && #[trigger] selects(weights@, d, i as int),
        r matches Some(i) ==> weights@[i as int] > 0,
{
    let sum = total_weight(weights);
    if sum == 0 {
        return None;
    }
    let draw = draw_below(rng, sum as u32);
    let r = pick_index(weights, draw as u64);
    proof {
        if let Some(i) = r {
            assert(selects(weights@, draw as int, i as int));
            lemma_selects_unique(weights@, draw as int, i as int, i as int);
        }
    }
    r
}

} // verus!
