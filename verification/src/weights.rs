use vstd::prelude::*;
use crate::SIZE;
use crate::bits::{bit, covers, flipped, member, lemma_covers, lemma_flipped};

verus! {

/// How many units of weight make up one whole: weights are counted in
/// ten-thousandths.
pub const WEIGHT_UNIT: u64 = 10_000;

/// Largest weight an item may have.
pub const MAX_WEIGHT: u64 = 0x100_0000_0000;

/// Why a sequence of weights was refused.
#[derive(Clone, Copy, Debug, PartialEq, Eq)]
pub enum WeightError {
    /// The sequence does not hold one weight per item.
    WrongLength,
    /// Some weight exceeds `MAX_WEIGHT`.
    TooHeavy,
}

/// Sum of the weights of the items of `mask` below `n`.
pub open spec fn total_below(weights: Seq<u64>, mask: u64, n: int) -> nat
    decreases n,
{
    if n <= 0 {
        0
    } else {
        total_below(weights, mask, n - 1) + if bit(mask, n - 1) {
            weights[n - 1] as nat
        } else {
            0nat
        }
    }
}

/// Sum of the first `n` weights.
pub open spec fn sum_below(weights: Seq<u64>, n: int) -> nat
    decreases n,
{
    if n <= 0 {
        0
    } else {
        sum_below(weights, n - 1) + weights[n - 1] as nat
    }
}

/// Whether `weights` holds one weight per item, none above `MAX_WEIGHT`.
pub open spec fn valid_weights(weights: Seq<u64>) -> bool {
    &&& weights.len() == SIZE
    &&& forall|i: int| 0 <= i < SIZE ==> #[trigger] weights[i] <= MAX_WEIGHT
}

/// The weight of the subset `mask`.
pub open spec fn total(weights: Seq<u64>, mask: u64) -> nat {
    total_below(weights, mask, SIZE as int)
}

/// The items of `mask` below `n` weigh at most `n` times the largest weight.
pub proof fn lemma_total_bound(weights: Seq<u64>, mask: u64, n: int)
    requires
        valid_weights(weights),
        0 <= n <= SIZE,
    ensures
        total_below(weights, mask, n) <= n * MAX_WEIGHT,
    decreases n,
{
    if n > 0 {
        lemma_total_bound(weights, mask, n - 1);
    }
}

/// Inverting the membership of an item below `n` moves the weight of the
/// subset by the weight of that item.
pub proof fn lemma_total_flip(weights: Seq<u64>, mask: u64, th: int, n: int)
    requires
        0 <= th < SIZE,
        0 <= n <= SIZE,
    ensures
        total_below(weights, flipped(mask, th), n) == total_below(weights, mask, n) + (if th < n {
            if bit(mask, th) {
                -(weights[th] as int)
            } else {
                weights[th] as int
            }
        } else {
            0int
        }),
    decreases n,
{
    if n > 0 {
        lemma_total_flip(weights, mask, th, n - 1);
        lemma_flipped(mask, th);
        assert(bit(flipped(mask, th), n - 1) == (bit(mask, n - 1) != (th == n - 1)));
    }
}

/// A subset weighs at least as much as any subset it covers.
pub proof fn lemma_total_monotone(weights: Seq<u64>, a: u64, b: u64, n: int)
    requires
        covers(a, b),
    ensures
        total_below(weights, b, n) <= total_below(weights, a, n),
    decreases n,
{
    if n > 0 {
        lemma_total_monotone(weights, a, b, n - 1);
        lemma_covers(a, b);
        assert(bit(b, n - 1) ==> bit(a, n - 1));
    }
}

/// One weight per item.
pub struct WeightVector {
    weights: Vec<u64>,
}

impl View for WeightVector {
    type V = Seq<u64>;

    closed spec fn view(&self) -> Seq<u64> {
        self.weights@
    }
}

impl WeightVector {
    /// There is one weight per item, none above `MAX_WEIGHT`.
    pub open spec fn wf(&self) -> bool {
        valid_weights(self@)
    }

    /// Takes one weight per item; refuses another length, or a weight above
    /// `MAX_WEIGHT`.
    pub fn new(weights: Vec<u64>) -> (r: Result<WeightVector, WeightError>)
        ensures
            weights@.len() != SIZE <==> r == Err::<WeightVector, WeightError>(WeightError::WrongLength),
            weights@.len() == SIZE && !valid_weights(weights@) <==> r == Err::<
                WeightVector,
                WeightError,
            >(WeightError::TooHeavy),
            valid_weights(weights@) <==> r is Ok,
            r is Ok ==> r->Ok_0@ == weights@ && r->Ok_0.wf(),
    {
        if weights.len() != SIZE {
            return Err(WeightError::WrongLength);
        }
        let mut i: usize = 0;
        while i < SIZE
            invariant
                i <= SIZE,
                weights@.len() == SIZE,
                forall|k: int| 0 <= k < i ==> #[trigger] weights@[k] <= MAX_WEIGHT,
            decreases SIZE - i,
        {
            if weights[i] > MAX_WEIGHT {
                return Err(WeightError::TooHeavy);
            }
            i += 1;
        }
        Ok(WeightVector { weights })
    }

    /// The weight of item `i`.
    pub fn get(&self, i: usize) -> (r: u64)
        requires
            self.wf(),
            i < SIZE,
        ensures
            r == self@[i as int],
            r <= MAX_WEIGHT,
    {
        self.weights[i]
    }

    /// The weight of the subset `mask`, summed item by item.
    pub fn total(&self, mask: u64) -> (r: u64)
        requires
            self.wf(),
        ensures
            r == total(self@, mask),
            r <= SIZE * MAX_WEIGHT,
    {
        let mut sum: u64 = 0;
        let mut i: usize = 0;
        while i < SIZE
            invariant
                self.wf(),
                i <= SIZE,
                sum == total_below(self@, mask, i as int),
                sum <= i * MAX_WEIGHT,
            decreases SIZE - i,
        {
            if member(mask, i) {
                sum += self.weights[i];
            }
            i += 1;
        }
        sum
    }

    /// The mean weight of an item, rounded down.
    pub fn mean(&self) -> (r: u64)
        requires
            self.wf(),
        ensures
            r == sum_below(self@, SIZE as int) / SIZE as nat,
            r <= MAX_WEIGHT,
    {
        let mut sum: u64 = 0;
        let mut i: usize = 0;
        while i < SIZE
            invariant
                self.wf(),
                i <= SIZE,
                sum == sum_below(self@, i as int),
                sum <= i * MAX_WEIGHT,
            decreases SIZE - i,
        {
            sum += self.weights[i];
            i += 1;
        }
        sum / (SIZE as u64)
    }
}

} // verus!
