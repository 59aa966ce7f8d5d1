use vstd::prelude::*;
use crate::SIZE;
use crate::bits::{bit, covers, flipped, member, in_universe, insert, contains_all, lemma_flipped, lemma_empty, lemma_inserted, lemma_in_universe, lemma_covers_iff};
use crate::matrix::{related, well_formed, CompatibilityMatrix};

verus! {

/// Number of items below `n` that belong to `mask` and are incompatible with
/// `item`.
pub open spec fn clashes(relation: Seq<Seq<bool>>, mask: u64, item: int, n: int) -> nat
    decreases n,
{
    if n <= 0 {
        0
    } else {
        clashes(relation, mask, item, n - 1) + if bit(mask, n - 1) && !related(
            relation,
            item,
            n - 1,
        ) {
            1nat
        } else {
            0nat
        }
    }
}

/// Number of incompatible pairs among the items of `mask` below `n`.
pub open spec fn conflicts_below(relation: Seq<Seq<bool>>, mask: u64, n: int) -> nat
    decreases n,
{
    if n <= 0 {
        0
    } else {
        conflicts_below(relation, mask, n - 1) + if bit(mask, n - 1) {
            clashes(relation, mask, n - 1, n - 1)
        } else {
            0nat
        }
    }
}

/// Number of incompatible pairs among the items of `mask`.
pub open spec fn conflicts(relation: Seq<Seq<bool>>, mask: u64) -> nat {
    conflicts_below(relation, mask, SIZE as int)
}

/// Whether the items of `mask` are pairwise compatible.
pub open spec fn feasible(relation: Seq<Seq<bool>>, mask: u64) -> bool {
    conflicts(relation, mask) == 0
}

/// The compatibility relation as one subset mask per item: the row of item
/// `i` holds the items compatible with `i`.
pub struct CompatibilityGraph {
    masks: [u64; SIZE],
}

impl View for CompatibilityGraph {
    type V = Seq<Seq<bool>>;

    closed spec fn view(&self) -> Seq<Seq<bool>> {
        Seq::new(SIZE as nat, |i: int| Seq::new(SIZE as nat, |j: int| bit(self.masks[i], j)))
    }
}

impl CompatibilityGraph {
    /// The row mask of item `i`.
    pub closed spec fn row(&self, i: int) -> u64 {
        self.masks[i]
    }

    /// Whether items `i` and `j` are compatible. False outside the universe.
    #[verifier::inline]
    pub open spec fn compatible(&self, i: int, j: int) -> bool {
        related(self@, i, j)
    }

    /// Each row holds exactly the items compatible with its item, the
    /// relation is symmetric, and every item is compatible with itself.
    pub open spec fn wf(&self) -> bool {
        &&& well_formed(self@)
        &&& forall|i: int| 0 <= i < SIZE ==> in_universe(#[trigger] self.row(i))
        &&& forall|i: int, j: int|
            0 <= i < SIZE && 0 <= j < SIZE ==> #[trigger] bit(self.row(i), j) == related(
                self@,
                i,
                j,
            )
    }

    /// Builds the row masks of a relation.
    pub fn from_matrix(matrix: &CompatibilityMatrix) -> (r: Self)
        requires
            matrix.wf(),
        ensures
            r.wf(),
            r@ == matrix@,
    {
        let mut masks = [0u64; SIZE];
        let mut i: usize = 0;
        while i < SIZE
            invariant
                i <= SIZE,
                forall|a: int| 0 <= a < i ==> in_universe(#[trigger] masks[a]),
                forall|a: int, b: int|
                    0 <= a < i && 0 <= b < SIZE ==> #[trigger] bit(masks[a], b) == matrix.compatible(
                        a,
                        b,
                    ),
            decreases SIZE - i,
        {
            let mut row: u64 = 0;
            let mut j: usize = 0;
            proof {
                lemma_empty();
            }
            while j < SIZE
                invariant
                    i < SIZE,
                    j <= SIZE,
                    in_universe(row),
                    forall|b: int| 0 <= b < j ==> #[trigger] bit(row, b) == matrix.compatible(i as int, b),
                    forall|b: int| j <= b ==> !#[trigger] bit(row, b),
                decreases SIZE - j,
            {
                if matrix.get(i, j) {
                    proof {
                        lemma_inserted(row, j as int);
                    }
                    row = insert(row, j);
                }
                j += 1;
            }
            masks[i] = row;
            i += 1;
        }
        let r = CompatibilityGraph { masks };
        proof {
            assert forall|a: int, b: int| 0 <= a < SIZE && 0 <= b < SIZE implies r@[a][b]
                == matrix@[a][b] by {
                assert(bit(masks[a], b) == matrix.compatible(a, b));
            }
            assert forall|a: int| 0 <= a < SIZE implies #[trigger] r@[a] =~= matrix@[a] by {
                assert(matrix@[a].len() == SIZE);
            }
            assert(r@ =~= matrix@);
            assert forall|a: int| 0 <= a < SIZE implies in_universe(#[trigger] r.row(a)) by {
                assert(in_universe(masks[a]));
            }
        }
        r
    }

    /// The row mask of item `i`.
    pub fn row_mask(&self, i: usize) -> (r: u64)
        requires
            i < SIZE,
        ensures
            r == self.row(i as int),
    {
        self.masks[i]
    }

    /// Tests whether items `i` and `j` are compatible.
    pub fn is_compatible(&self, i: usize, j: usize) -> (r: bool)
        requires
            i < SIZE,
            j < SIZE,
        ensures
            r == self.compatible(i as int, j as int),
    {
        member(self.masks[i], j)
    }

    /// Tests whether item `i` is compatible with every item of `set`.
    pub fn is_compatible_with_all(&self, i: usize, set: u64) -> (r: bool)
        requires
            self.wf(),
            i < SIZE,
        ensures
            r == covers(self.row(i as int), set),
            r <==> forall|j: int| #[trigger] bit(set, j) ==> self.compatible(i as int, j),
    {
        let row = self.masks[i];
        proof {
            assert(row == self.row(i as int));
            lemma_covers_iff(row, set);
            lemma_in_universe(row);
            if covers(row, set) {
                assert forall|j: int| #[trigger] bit(set, j) implies self.compatible(i as int, j) by {
                    assert(bit(row, j));
                }
            }
            if forall|j: int| #[trigger] bit(set, j) ==> self.compatible(i as int, j) {
                assert forall|j: int| #[trigger] bit(set, j) implies bit(row, j) by {
                    assert(self.compatible(i as int, j));
                }
            }
        }
        contains_all(row, set)
    }
}

/// At most `n` items below `n` clash with an item.
pub proof fn lemma_clashes_bound(relation: Seq<Seq<bool>>, mask: u64, item: int, n: int)
    requires
        0 <= n,
    ensures
        clashes(relation, mask, item, n) <= n,
    decreases n,
{
    if n > 0 {
        lemma_clashes_bound(relation, mask, item, n - 1);
    }
}

/// The items below `n` hold at most `28 * n` incompatible pairs.
pub proof fn lemma_conflicts_bound(relation: Seq<Seq<bool>>, mask: u64, n: int)
    requires
        0 <= n <= SIZE,
    ensures
        conflicts_below(relation, mask, n) <= 28 * n,
    decreases n,
{
    if n > 0 {
        lemma_conflicts_bound(relation, mask, n - 1);
        lemma_clashes_bound(relation, mask, n - 1, n - 1);
    }
}

/// No member below `n` clashes with `item` exactly when each of them is
/// compatible with it.
pub proof fn lemma_no_clashes(relation: Seq<Seq<bool>>, mask: u64, item: int, n: int)
    ensures
        clashes(relation, mask, item, n) == 0 <==> forall|j: int|
            0 <= j < n && bit(mask, j) ==> #[trigger] related(relation, item, j),
    decreases n,
{
    if n > 0 {
        lemma_no_clashes(relation, mask, item, n - 1);
        if clashes(relation, mask, item, n) == 0 {
            assert forall|j: int| 0 <= j < n && bit(mask, j) implies #[trigger] related(
                relation,
                item,
                j,
            ) by {
                if j < n - 1 {
                    assert(clashes(relation, mask, item, n - 1) == 0);
                }
            }
        }
        if forall|j: int| 0 <= j < n && bit(mask, j) ==> #[trigger] related(relation, item, j) {
            assert(bit(mask, n - 1) ==> related(relation, item, n - 1));
        }
    }
}

/// No pair among the members below `n` is incompatible exactly when each
/// member is compatible with every member below it.
pub proof fn lemma_no_conflicts(relation: Seq<Seq<bool>>, mask: u64, n: int)
    ensures
        conflicts_below(relation, mask, n) == 0 <==> forall|i: int, j: int|
            0 <= j < i < n && bit(mask, i) && bit(mask, j) ==> #[trigger] related(relation, i, j),
    decreases n,
{
    if n > 0 {
        lemma_no_conflicts(relation, mask, n - 1);
        lemma_no_clashes(relation, mask, n - 1, n - 1);
        if conflicts_below(relation, mask, n) == 0 {
            assert forall|i: int, j: int|
                0 <= j < i < n && bit(mask, i) && bit(mask, j) implies #[trigger] related(
                relation,
                i,
                j,
            ) by {
                if i < n - 1 {
                    assert(conflicts_below(relation, mask, n - 1) == 0);
                }
            }
        }
        if forall|i: int, j: int|
            0 <= j < i < n && bit(mask, i) && bit(mask, j) ==> #[trigger] related(relation, i, j) {
            if bit(mask, n - 1) {
                assert forall|j: int| 0 <= j < n - 1 && bit(mask, j) implies #[trigger] related(
                    relation,
                    n - 1,
                    j,
                ) by {
                }
            }
        }
    }
}

/// A subset is feasible exactly when its items are pairwise compatible.
pub proof fn lemma_feasible(relation: Seq<Seq<bool>>, mask: u64)
    requires
        well_formed(relation),
    ensures
        feasible(relation, mask) <==> forall|i: int, j: int|
            0 <= i < SIZE && 0 <= j < SIZE && bit(mask, i) && bit(mask, j) ==> #[trigger] related(
                relation,
                i,
                j,
            ),
{
    lemma_no_conflicts(relation, mask, SIZE as int);
    if feasible(relation, mask) {
        assert forall|i: int, j: int|
            0 <= i < SIZE && 0 <= j < SIZE && bit(mask, i) && bit(mask, j) implies #[trigger] related(
            relation,
            i,
            j,
        ) by {
            if j < i {
            } else if i < j {
                assert(related(relation, j, i));
            }
        }
    }
}

/// Inverting the membership of item `th` changes the clashes of `item`
/// by one exactly when `th` is counted and incompatible with `item`.
pub proof fn lemma_clashes_flip(relation: Seq<Seq<bool>>, mask: u64, th: int, item: int, n: int)
    requires
        0 <= th < SIZE,
        0 <= n <= SIZE,
    ensures
        clashes(relation, flipped(mask, th), item, n) == clashes(relation, mask, item, n) + (if th < n
            && !related(relation, item, th) {
            if bit(mask, th) {
                -1int
            } else {
                1int
            }
        } else {
            0int
        }),
    decreases n,
{
    if n > 0 {
        lemma_clashes_flip(relation, mask, th, item, n - 1);
        lemma_flipped(mask, th);
        assert(bit(flipped(mask, th), n - 1) == (bit(mask, n - 1) != (th == n - 1)));
    }
}

/// Inverting the membership of item `th` changes the number of
/// incompatible pairs below `n` by the clashes of `th`, once `th` is
/// below `n`.
pub proof fn lemma_conflicts_flip(relation: Seq<Seq<bool>>, mask: u64, th: int, n: int)
    requires
        well_formed(relation),
        0 <= th < SIZE,
        0 <= n <= SIZE,
    ensures
        conflicts_below(relation, flipped(mask, th), n) == conflicts_below(relation, mask, n) + (if n
            > th {
            if bit(mask, th) {
                -(clashes(relation, mask, th, n) as int)
            } else {
                clashes(relation, mask, th, n) as int
            }
        } else {
            0int
        }),
    decreases n,
{
    if n > 0 {
        let i = n - 1;
        lemma_conflicts_flip(relation, mask, th, i);
        lemma_clashes_flip(relation, mask, th, i, i);
        lemma_flipped(mask, th);
        assert(bit(flipped(mask, th), i) == (bit(mask, i) != (th == i)));
        assert(related(relation, i, th) == related(relation, th, i));
        assert(related(relation, th, th));
    }
}

/// Inverting the membership of item `th` adds the clashes of `th` to the
/// number of incompatible pairs when `th` enters, and takes them away
/// when it leaves.
pub proof fn lemma_toggle_conflicts(relation: Seq<Seq<bool>>, mask: u64, th: int)
    requires
        well_formed(relation),
        0 <= th < SIZE,
    ensures
        conflicts(relation, flipped(mask, th)) == if bit(mask, th) {
            conflicts(relation, mask) - clashes(relation, mask, th, SIZE as int)
        } else {
            (conflicts(relation, mask) + clashes(relation, mask, th, SIZE as int)) as int
        },
{
    lemma_conflicts_flip(relation, mask, th, SIZE as int);
}

impl CompatibilityGraph {
    /// Counts the items below `n` that belong to `mask` and are incompatible
    /// with `item`.
    fn count_clashes_below(&self, mask: u64, item: usize, n: usize) -> (r: u64)
        requires
            item < SIZE,
            n <= SIZE,
        ensures
            r == clashes(self@, mask, item as int, n as int),
            r <= n,
    {
        let row = self.masks[item];
        let mut count: u64 = 0;
        let mut j: usize = 0;
        while j < n
            invariant
                item < SIZE,
                j <= n <= SIZE,
                row == self.row(item as int),
                count == clashes(self@, mask, item as int, j as int),
                count <= j,
            decreases n - j,
        {
            if member(mask, j) && !member(row, j) {
                count += 1;
            }
            j += 1;
        }
        count
    }

    /// Counts the items of `mask` that are incompatible with `item`.
    pub fn count_clashes(&self, mask: u64, item: usize) -> (r: u64)
        requires
            item < SIZE,
        ensures
            r == clashes(self@, mask, item as int, SIZE as int),
            r <= SIZE,
    {
        self.count_clashes_below(mask, item, SIZE)
    }

    /// Counts the incompatible pairs among the items of `mask`, pair by pair.
    pub fn count_conflicts(&self, mask: u64) -> (r: u64)
        ensures
            r == conflicts(self@, mask),
            r <= 28 * SIZE,
    {
        let mut count: u64 = 0;
        let mut i: usize = 0;
        while i < SIZE
            invariant
                i <= SIZE,
                count == conflicts_below(self@, mask, i as int),
                count <= 28 * i,
            decreases SIZE - i,
        {
            if member(mask, i) {
                let c = self.count_clashes_below(mask, i, i);
                count += c;
            }
            i += 1;
        }
        count
    }
}

} // verus!
