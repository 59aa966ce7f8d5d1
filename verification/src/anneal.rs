use vstd::prelude::*;
use rand::rngs::StdRng;
use rand::Rng;
use crate::SIZE;
use crate::bits::{bit, covers, flip, flipped, in_universe, member, lemma_covered_by_empty, lemma_empty, lemma_flipped};
use crate::elite::{best_weight, non_dominated, sorted, submitted, top, EliteSet};
use crate::graph::{conflicts, feasible, lemma_conflicts_bound, lemma_toggle_conflicts, CompatibilityGraph};
use crate::matrix::{well_formed, CompatibilityMatrix};
use crate::weights::{lemma_total_bound, lemma_total_flip, lemma_total_monotone, sum_below, total, valid_weights, WeightVector};

verus! {

/// Number of subsets that a search returns.
pub const RETURNED: usize = 5;

/// Number of subsets that a search keeps unless told otherwise.
pub const DEFAULT_CAPACITY: usize = 8;

/// The standard generator of the `rand` crate. Nothing is known of its
/// state: it is only handed on to `Rng::gen_range`.
#[verifier::external_type_specification]
#[verifier::external_body]
pub struct ExStdRng(StdRng);

/// Draws an item with `Rng::gen_range` of the `rand` crate, over the range
/// from zero up to and excluding `SIZE`. Claimed of it: the item drawn lies in
/// that range. Which item comes is left open.
#[verifier::external_body]
fn draw_item(rng: &mut StdRng) -> (r: usize)
    ensures
        r < SIZE,
{
    rng.gen_range(0..SIZE)
}

/// A subset together with its weight and its number of incompatible pairs,
/// as the search carries them from move to move.
#[derive(Clone, Copy, Debug, PartialEq, Eq, Structural)]
pub struct Candidate {
    pub mask: u64,
    pub weight: u64,
    pub collisions: u64,
}

/// What a search is run with, besides the relation and the weights.
#[derive(Clone, Copy, Debug, PartialEq, Eq, Structural)]
pub struct SearchConfig {
    /// What one incompatible pair costs; the mean weight where none is given.
    pub penalty: Option<u64>,
    /// How many subsets the search keeps while it runs.
    pub capacity: usize,
}

impl Default for SearchConfig {
    fn default() -> (r: Self)
        ensures
            r == (SearchConfig { penalty: None, capacity: DEFAULT_CAPACITY }),
    {
        SearchConfig { penalty: None, capacity: DEFAULT_CAPACITY }
    }
}

/// The weight of a subset less the cost of its incompatible pairs.
pub open spec fn score(state: Candidate, penalty: u64) -> int {
    state.weight - state.collisions * penalty
}

/// Whether a move from one score to another is taken: always where the score
/// rises, else where the loss stays under `slack`.
pub open spec fn accepts(current: int, proposed: int, slack: u64) -> bool {
    proposed > current || current - proposed < slack
}

/// The subset `mask` with its weight and incompatible pairs counted afresh.
pub open spec fn measured(relation: Seq<Seq<bool>>, weights: Seq<u64>, mask: u64) -> Candidate {
    Candidate {
        mask,
        weight: total(weights, mask) as u64,
        collisions: conflicts(relation, mask) as u64,
    }
}

/// The state after item `item` was offered with `slack`: the subset with the
/// item toggled where that move is taken, else the state as it was.
pub open spec fn stepped(
    relation: Seq<Seq<bool>>,
    weights: Seq<u64>,
    penalty: u64,
    state: Candidate,
    item: int,
    slack: u64,
) -> Candidate {
    let next = measured(relation, weights, flipped(state.mask, item));
    if accepts(score(state, penalty), score(next, penalty), slack) {
        next
    } else {
        state
    }
}

/// The elite after item `item` was offered with `slack`: where the move is
/// taken and leads to a feasible subset, that subset is put forward.
pub open spec fn recorded(
    relation: Seq<Seq<bool>>,
    weights: Seq<u64>,
    penalty: u64,
    capacity: int,
    state: Candidate,
    elite: Seq<(u64, u64)>,
    item: int,
    slack: u64,
) -> Seq<(u64, u64)> {
    let next = measured(relation, weights, flipped(state.mask, item));
    if accepts(score(state, penalty), score(next, penalty), slack) && next.collisions == 0 {
        submitted(elite, next.mask, next.weight, capacity)
    } else {
        elite
    }
}

/// The state and the elite after the items of `items` were offered in turn
/// from the empty subset, the one at position `k` with `slack[k]`.
pub open spec fn run(
    relation: Seq<Seq<bool>>,
    weights: Seq<u64>,
    penalty: u64,
    capacity: int,
    items: Seq<usize>,
    slack: Seq<u64>,
) -> (Candidate, Seq<(u64, u64)>)
    decreases items.len(),
{
    if items.len() == 0 {
        (Candidate { mask: 0, weight: 0, collisions: 0 }, Seq::empty())
    } else {
        let before = run(relation, weights, penalty, capacity, items.drop_last(), slack);
        let k = items.len() - 1;
        (
            stepped(relation, weights, penalty, before.0, items[k] as int, slack[k]),
            recorded(
                relation,
                weights,
                penalty,
                capacity,
                before.0,
                before.1,
                items[k] as int,
                slack[k],
            ),
        )
    }
}

/// Every member is a feasible subset of the universe, held with its weight.
pub open spec fn sound(elite: Seq<(u64, u64)>, relation: Seq<Seq<bool>>, weights: Seq<u64>) -> bool {
    forall|i: int|
        0 <= i < elite.len() ==> in_universe((#[trigger] elite[i]).0) && feasible(
            relation,
            elite[i].0,
        ) && elite[i].1 == total(weights, elite[i].0)
}

/// The cost of an incompatible pair under `config`: the one it names, else
/// the mean weight, rounded down.
pub open spec fn penalty_of(config: SearchConfig, weights: Seq<u64>) -> u64 {
    match config.penalty {
        Some(p) => p,
        None => (sum_below(weights, SIZE as int) / SIZE as nat) as u64,
    }
}

impl Candidate {
    /// The weight and the count are those of the subset, which lies in the
    /// universe.
    pub open spec fn tracks(&self, relation: Seq<Seq<bool>>, weights: Seq<u64>) -> bool {
        &&& in_universe(self.mask)
        &&& self.weight == total(weights, self.mask)
        &&& self.collisions == conflicts(relation, self.mask)
    }

    /// The empty subset.
    pub fn empty() -> (r: Self)
        ensures
            r == (Candidate { mask: 0, weight: 0, collisions: 0 }),
            forall|relation: Seq<Seq<bool>>, weights: Seq<u64>| #[trigger] r.tracks(relation, weights),
    {
        let r = Candidate { mask: 0, weight: 0, collisions: 0 };
        proof {
            assert forall|relation: Seq<Seq<bool>>, weights: Seq<u64>| #[trigger] r.tracks(
                relation,
                weights,
            ) by {
                lemma_empty_measures(relation, weights);
            }
        }
        r
    }

    /// The subset with the membership of `item` inverted. Weight and count
    /// are moved by what the item brings or takes away, and equal those
    /// counted afresh.
    pub fn toggled(&self, graph: &CompatibilityGraph, weights: &WeightVector, item: usize) -> (r:
        Candidate)
        requires
            graph.wf(),
            weights.wf(),
            self.tracks(graph@, weights@),
            item < SIZE,
        ensures
            r == measured(graph@, weights@, flipped(self.mask, item as int)),
            r.tracks(graph@, weights@),
            r.collisions <= 28 * SIZE,
            r.weight <= SIZE * crate::weights::MAX_WEIGHT,
    {
        let clash = graph.count_clashes(self.mask, item);
        let w = weights.get(item);
        let mask = flip(self.mask, item);
        proof {
            lemma_flipped(self.mask, item as int);
            lemma_toggle_conflicts(graph@, self.mask, item as int);
            lemma_total_flip(weights@, self.mask, item as int, SIZE as int);
            lemma_conflicts_bound(graph@, mask, SIZE as int);
            lemma_total_bound(weights@, mask, SIZE as int);
        }
        if member(self.mask, item) {
            Candidate { mask, weight: self.weight - w, collisions: self.collisions - clash }
        } else {
            Candidate { mask, weight: self.weight + w, collisions: self.collisions + clash }
        }
    }
}

proof fn lemma_empty_below(relation: Seq<Seq<bool>>, weights: Seq<u64>, n: int)
    ensures
        crate::weights::total_below(weights, 0, n) == 0,
        crate::graph::conflicts_below(relation, 0, n) == 0,
    decreases n,
{
    lemma_empty();
    if n > 0 {
        lemma_empty_below(relation, weights, n - 1);
        assert(!bit(0, n - 1));
    }
}

/// The empty subset weighs nothing and holds no incompatible pair.
pub proof fn lemma_empty_measures(relation: Seq<Seq<bool>>, weights: Seq<u64>)
    ensures
        total(weights, 0) == 0,
        conflicts(relation, 0) == 0,
        in_universe(0),
{
    lemma_empty();
    lemma_empty_below(relation, weights, SIZE as int);
}

/// One offer keeps the state in step with its subset and the elite sorted,
/// free of domination, within its capacity and sound; and the first weight of
/// the elite does not fall.
pub proof fn lemma_step(
    relation: Seq<Seq<bool>>,
    weights: Seq<u64>,
    penalty: u64,
    capacity: int,
    state: Candidate,
    elite: Seq<(u64, u64)>,
    item: int,
    slack: u64,
)
    requires
        well_formed(relation),
        valid_weights(weights),
        state.tracks(relation, weights),
        0 <= item < SIZE,
        sorted(elite),
        non_dominated(elite),
        elite.len() <= capacity,
        sound(elite, relation, weights),
    ensures
        stepped(relation, weights, penalty, state, item, slack).tracks(relation, weights),
        sorted(recorded(relation, weights, penalty, capacity, state, elite, item, slack)),
        non_dominated(recorded(relation, weights, penalty, capacity, state, elite, item, slack)),
        recorded(relation, weights, penalty, capacity, state, elite, item, slack).len() <= capacity,
        sound(
            recorded(relation, weights, penalty, capacity, state, elite, item, slack),
            relation,
            weights,
        ),
        best_weight(recorded(relation, weights, penalty, capacity, state, elite, item, slack))
            >= best_weight(elite),
{
    let mask = flipped(state.mask, item);
    let next = measured(relation, weights, mask);
    let after = recorded(relation, weights, penalty, capacity, state, elite, item, slack);
    lemma_flipped(state.mask, item);
    lemma_conflicts_bound(relation, mask, SIZE as int);
    lemma_total_bound(weights, mask, SIZE as int);
    assert(next.tracks(relation, weights));
    if accepts(score(state, penalty), score(next, penalty), slack) && next.collisions == 0 {
        assert forall|i: int|
            0 <= i < elite.len() && covers(next.mask, (#[trigger] elite[i]).0) implies elite[i].1
            <= next.weight by {
            lemma_total_monotone(weights, next.mask, elite[i].0, SIZE as int);
        }
        crate::elite::lemma_submitted(elite, next.mask, next.weight, capacity);
        assert forall|i: int| 0 <= i < after.len() implies in_universe((#[trigger] after[i]).0)
            && feasible(relation, after[i].0) && after[i].1 == total(weights, after[i].0) by {
            if elite.contains(after[i]) {
                let t = choose|t: int| 0 <= t < elite.len() && elite[t] == after[i];
                assert(in_universe(elite[t].0));
            }
        }
    }
}

/// At every point of a run the state is in step with its subset, and the
/// elite is sorted, within its capacity, holds no member that contains
/// another, and holds feasible subsets only, each with its weight.
pub proof fn lemma_run(
    relation: Seq<Seq<bool>>,
    weights: Seq<u64>,
    penalty: u64,
    capacity: int,
    items: Seq<usize>,
    slack: Seq<u64>,
)
    requires
        well_formed(relation),
        valid_weights(weights),
        0 <= capacity,
        forall|k: int| 0 <= k < items.len() ==> #[trigger] items[k] < SIZE,
    ensures
        run(relation, weights, penalty, capacity, items, slack).0.tracks(relation, weights),
        sorted(run(relation, weights, penalty, capacity, items, slack).1),
        non_dominated(run(relation, weights, penalty, capacity, items, slack).1),
        run(relation, weights, penalty, capacity, items, slack).1.len() <= capacity,
        sound(run(relation, weights, penalty, capacity, items, slack).1, relation, weights),
    decreases items.len(),
{
    if items.len() == 0 {
        lemma_empty_measures(relation, weights);
    } else {
        let k = items.len() - 1;
        let before = run(relation, weights, penalty, capacity, items.drop_last(), slack);
        lemma_run(relation, weights, penalty, capacity, items.drop_last(), slack);
        assert(items[k] < SIZE);
        lemma_step(
            relation,
            weights,
            penalty,
            capacity,
            before.0,
            before.1,
            items[k] as int,
            slack[k],
        );
    }
}

/// The first weight of the elite never falls in the course of a run: after
/// the first `k` offers it is at most what it is after all of them.
pub proof fn lemma_run_best_grows(
    relation: Seq<Seq<bool>>,
    weights: Seq<u64>,
    penalty: u64,
    capacity: int,
    items: Seq<usize>,
    slack: Seq<u64>,
    k: int,
)
    requires
        well_formed(relation),
        valid_weights(weights),
        0 <= capacity,
        forall|k: int| 0 <= k < items.len() ==> #[trigger] items[k] < SIZE,
        0 <= k <= items.len(),
    ensures
        best_weight(run(relation, weights, penalty, capacity, items.take(k), slack).1)
            <= best_weight(run(relation, weights, penalty, capacity, items, slack).1),
    decreases items.len(),
{
    if k == items.len() {
        assert(items.take(k) =~= items);
    } else {
        let last = items.len() - 1;
        let shorter = items.drop_last();
        let before = run(relation, weights, penalty, capacity, shorter, slack);
        assert(shorter.take(k) =~= items.take(k));
        lemma_run_best_grows(relation, weights, penalty, capacity, shorter, slack, k);
        lemma_run(relation, weights, penalty, capacity, shorter, slack);
        assert(items[last] < SIZE);
        lemma_step(
            relation,
            weights,
            penalty,
            capacity,
            before.0,
            before.1,
            items[last] as int,
            slack[last],
        );
    }
}

/// The score of a state, computed.
fn score_of(state: &Candidate, penalty: u64) -> (r: i128)
    requires
        state.collisions <= 28 * SIZE,
    ensures
        r == score(*state, penalty),
        -0x400_0000_0000_0000_0000 <= r <= 0xFFFF_FFFF_FFFF_FFFF,
{
    assert(0 <= state.collisions * penalty <= 784 * 0xFFFF_FFFF_FFFF_FFFF) by (nonlinear_arith)
        requires
            0 <= state.collisions <= 784,
            0 <= penalty <= 0xFFFF_FFFF_FFFF_FFFF,
    ;
    let cost: u128 = (state.collisions as u128) * (penalty as u128);
    (state.weight as i128) - (cost as i128)
}

/// Offers one item to the search: the item is toggled where the score rises
/// or the loss stays under `slack`, and a feasible subset reached that way is
/// put forward to the elite.
pub fn step(
    state: &mut Candidate,
    elite: &mut EliteSet,
    graph: &CompatibilityGraph,
    weights: &WeightVector,
    penalty: u64,
    item: usize,
    slack: u64,
)
    requires
        graph.wf(),
        weights.wf(),
        old(state).tracks(graph@, weights@),
        old(elite).wf(),
        item < SIZE,
    ensures
        *final(state) == stepped(graph@, weights@, penalty, *old(state), item as int, slack),
        final(state).tracks(graph@, weights@),
        final(elite)@ == recorded(
            graph@,
            weights@,
            penalty,
            old(elite).limit(),
            *old(state),
            old(elite)@,
            item as int,
            slack,
        ),
        final(elite).wf(),
        final(elite).limit() == old(elite).limit(),
        sound(old(elite)@, graph@, weights@) ==> sound(final(elite)@, graph@, weights@)
            && best_weight(final(elite)@) >= best_weight(old(elite)@),
{
    proof {
        lemma_conflicts_bound(graph@, state.mask, SIZE as int);
    }
    let next = state.toggled(graph, weights, item);
    let current = score_of(state, penalty);
    let proposed = score_of(&next, penalty);
    if proposed > current || current - proposed < slack as i128 {
        *state = next;
        if next.collisions == 0 {
            proof {
                if sound(elite@, graph@, weights@) {
                    assert forall|i: int|
                        0 <= i < elite@.len() && covers(next.mask, (#[trigger] elite@[i]).0) implies elite@[i].1
                        <= next.weight by {
                        lemma_total_monotone(weights@, next.mask, elite@[i].0, SIZE as int);
                    }
                }
            }
            let ghost before = elite@;
            elite.submit(next.mask, next.weight);
            proof {
                if sound(before, graph@, weights@) {
                    assert forall|i: int| 0 <= i < elite@.len() implies in_universe(
                        (#[trigger] elite@[i]).0,
                    ) && feasible(graph@, elite@[i].0) && elite@[i].1 == total(
                        weights@,
                        elite@[i].0,
                    ) by {
                        if before.contains(elite@[i]) {
                            let t = choose|t: int| 0 <= t < before.len() && before[t] == elite@[i];
                            assert(in_universe(before[t].0));
                        }
                    }
                }
            }
        }
    }
}

/// Searches for heavy feasible subsets by annealing. The search starts from
/// the empty subset and takes one turn for each entry of `schedule`: it draws
/// an item from `rng` and offers it with that entry as slack, the loss of
/// score tolerated at that turn. A schedule that cools at temperature `t`
/// holds `-t * ln(u)` for a uniform draw `u`, so that a loss is taken with
/// probability `exp(-loss / t)`; a schedule of zeros climbs greedily.
///
/// The result holds the `RETURNED` heaviest of the subsets kept, heaviest
/// first, filled up with empty subsets of weight zero. It is what `run` gives
/// for the items drawn; whatever was drawn, every subset in it is feasible and
/// stands with its weight, and none but the empty one is contained in
/// another.
pub fn search(
    matrix: &CompatibilityMatrix,
    weights: &WeightVector,
    config: &SearchConfig,
    schedule: &Vec<u64>,
    rng: &mut StdRng,
) -> (r: Vec<(u64, u64)>)
    requires
        matrix.wf(),
        weights.wf(),
    ensures
        exists|items: Seq<usize>|
            {
                &&& items.len() == schedule@.len()
                &&& forall|k: int| 0 <= k < items.len() ==> #[trigger] items[k] < SIZE
                &&& r@ == top(
                    run(
                        matrix@,
                        weights@,
                        penalty_of(*config, weights@),
                        config.capacity as int,
                        items,
                        schedule@,
                    ).1,
                    RETURNED as int,
                )
            },
        r@.len() == RETURNED,
        sound(r@, matrix@, weights@),
        sorted(r@),
        forall|i: int, j: int|
            #![trigger r@[i], r@[j]]
            0 <= i < RETURNED && 0 <= j < RETURNED && i != j && covers(r@[i].0, r@[j].0) ==> r@[j]
                == (0u64, 0u64),
{
    let graph = CompatibilityGraph::from_matrix(matrix);
    let penalty = match config.penalty {
        Some(p) => p,
        None => weights.mean(),
    };
    let mut elite = EliteSet::new(config.capacity);
    let mut state = Candidate::empty();
    let ghost mut items: Seq<usize> = Seq::empty();
    let mut turn: usize = 0;
    while turn < schedule.len()
        invariant
            turn <= schedule@.len(),
            graph.wf(),
            graph@ == matrix@,
            weights.wf(),
            penalty == penalty_of(*config, weights@),
            elite.wf(),
            elite.limit() == config.capacity,
            state.tracks(graph@, weights@),
            sound(elite@, graph@, weights@),
            items.len() == turn,
            forall|k: int| 0 <= k < items.len() ==> #[trigger] items[k] < SIZE,
            (state, elite@) == run(
                matrix@,
                weights@,
                penalty,
                config.capacity as int,
                items,
                schedule@,
            ),
        decreases schedule@.len() - turn,
    {
        let item = draw_item(rng);
        proof {
            let longer = items.push(item);
            assert(longer.drop_last() =~= items);
            items = longer;
        }
        step(&mut state, &mut elite, &graph, weights, penalty, item, schedule[turn]);
        turn += 1;
    }
    let r = elite.top(RETURNED);
    proof {
        lemma_empty_measures(matrix@, weights@);
        assert forall|i: int, j: int|
            #![trigger r@[i], r@[j]]
            0 <= i < RETURNED && 0 <= j < RETURNED && i != j && covers(r@[i].0, r@[j].0) implies r@[j]
            == (0u64, 0u64) by {
            if j < elite@.len() {
                if i < elite@.len() {
                    assert(!covers(elite@[i].0, elite@[j].0));
                } else {
                    lemma_covered_by_empty(r@[j].0);
                    assert(elite@[j].1 == total(weights@, elite@[j].0));
                }
            }
        }
        assert(sorted(r@)) by {
            assert forall|i: int, j: int| 0 <= i < j < r@.len() implies r@[i].1 >= r@[j].1 by {
                if j < elite@.len() {
                    assert(elite@[i].1 >= elite@[j].1);
                }
            }
        }
    }
    r
}

} // verus!
