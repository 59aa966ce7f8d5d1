use vstd::prelude::*;
use crate::SIZE;

verus! {

/// Whether items `i` and `j` are compatible under `relation`. False outside
/// the universe.
pub open spec fn related(relation: Seq<Seq<bool>>, i: int, j: int) -> bool {
    0 <= i < SIZE && 0 <= j < SIZE && relation[i][j]
}

/// The relation has one cell per ordered pair of items, is symmetric, and
/// holds every item compatible with itself.
pub open spec fn well_formed(relation: Seq<Seq<bool>>) -> bool {
    &&& relation.len() == SIZE
    &&& forall|i: int| 0 <= i < SIZE ==> (#[trigger] relation[i]).len() == SIZE
    &&& forall|i: int, j: int|
        0 <= i < SIZE && 0 <= j < SIZE ==> #[trigger] related(relation, i, j) == related(
            relation,
            j,
            i,
        )
    &&& forall|i: int| 0 <= i < SIZE ==> #[trigger] related(relation, i, i)
}

/// Compatibility is symmetric, and every item is compatible with itself.
pub proof fn lemma_symmetric(relation: Seq<Seq<bool>>, i: int, j: int)
    requires
        well_formed(relation),
        0 <= i < SIZE,
        0 <= j < SIZE,
    ensures
        related(relation, i, j) == related(relation, j, i),
        related(relation, i, i),
{
}

/// A symmetric, reflexive compatibility relation over the items, one cell per
/// ordered pair.
pub struct CompatibilityMatrix {
    matrix: [[bool; SIZE]; SIZE],
}

impl View for CompatibilityMatrix {
    type V = Seq<Seq<bool>>;

    closed spec fn view(&self) -> Seq<Seq<bool>> {
        Seq::new(SIZE as nat, |i: int| self.matrix[i]@)
    }
}

impl CompatibilityMatrix {
    /// Whether items `i` and `j` are compatible. False outside the universe.
    #[verifier::inline]
    pub open spec fn compatible(&self, i: int, j: int) -> bool {
        related(self@, i, j)
    }

    /// The relation is symmetric and every item is compatible with itself.
    pub open spec fn wf(&self) -> bool {
        well_formed(self@)
    }

    /// The relation in which each item is compatible with itself only.
    pub fn new() -> (r: Self)
        ensures
            r.wf(),
            forall|i: int, j: int|
                0 <= i < SIZE && 0 <= j < SIZE ==> #[trigger] r.compatible(i, j) == (i == j),
    {
        let mut matrix = [[false; SIZE]; SIZE];
        let mut i: usize = 0;
        while i < SIZE
            invariant
                i <= SIZE,
                forall|a: int, b: int|
                    0 <= a < SIZE && 0 <= b < SIZE ==> #[trigger] matrix[a][b] == (a == b && a < i),
            decreases SIZE - i,
        {
            let mut row = matrix[i];
            row[i] = true;
            matrix[i] = row;
            i += 1;
        }
        CompatibilityMatrix { matrix }
    }

    /// Reads one cell of the relation.
    pub fn get(&self, i: usize, j: usize) -> (r: bool)
        requires
            i < SIZE,
            j < SIZE,
        ensures
            r == self.compatible(i as int, j as int),
    {
        self.matrix[i][j]
    }

    /// Declares two distinct items compatible or incompatible, in both
    /// directions. The diagonal is left as it is.
    pub fn set(&mut self, i: usize, j: usize, value: bool)
        requires
            i < SIZE,
            j < SIZE,
            old(self).wf(),
        ensures
            final(self).wf(),
            forall|a: int, b: int|
                0 <= a < SIZE && 0 <= b < SIZE ==> #[trigger] final(self).compatible(a, b) == (if a
                    != b && ((a == i && b == j) || (a == j && b == i)) {
                    value
                } else {
                    old(self).compatible(a, b)
                }),
    {
        if i != j {
            let mut row = self.matrix[i];
            row[j] = value;
            self.matrix[i] = row;
            let mut other = self.matrix[j];
            other[i] = value;
            self.matrix[j] = other;
        }
        proof {
            assert forall|a: int, b: int| 0 <= a < SIZE && 0 <= b < SIZE implies #[trigger] related(
                self@,
                a,
                b,
            ) == related(self@, b, a) by {
                assert(related(old(self)@, a, b) == related(old(self)@, b, a));
            }
            assert forall|a: int| 0 <= a < SIZE implies #[trigger] related(self@, a, a) by {
                assert(related(old(self)@, a, a));
            }
        }
    }
}

impl Default for CompatibilityMatrix {
    fn default() -> (r: Self)
        ensures
            r.wf(),
            forall|i: int, j: int|
                0 <= i < SIZE && 0 <= j < SIZE ==> #[trigger] r.compatible(i, j) == (i == j),
    {
        CompatibilityMatrix::new()
    }
}

} // verus!
