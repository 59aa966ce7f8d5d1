use vstd::prelude::*;

verus! {

/// Whether item `i` belongs to the subset encoded by `mask`.
pub open spec fn bit(mask: u64, i: int) -> bool {
    0 <= i < 64 && (mask >> (i as u64)) & 1 == 1
}

/// Whether subset `a` contains every item of subset `b`.
pub open spec fn covers(a: u64, b: u64) -> bool {
    a & b == b
}

/// The subset `mask` with the membership of item `i` inverted.
pub open spec fn flipped(mask: u64, i: int) -> u64 {
    mask ^ (1u64 << (i as u64))
}

/// The subset `mask` with item `i` added.
pub open spec fn inserted(mask: u64, i: int) -> u64 {
    mask | (1u64 << (i as u64))
}

/// Whether `mask` only holds items below 28.
pub open spec fn in_universe(mask: u64) -> bool {
    mask < 0x1000_0000
}

proof fn lemma_flip_word(m: u64, i: u64, j: u64)
    by (bit_vector)
    requires
        i < 64,
        j < 64,
    ensures
        ((m ^ (1u64 << i)) >> j) & 1 == 1 <==> (((m >> j) & 1 == 1) != (i == j)),
{
}

proof fn lemma_flip_small(m: u64, i: u64)
    by (bit_vector)
    requires
        i < 28,
        m < 0x1000_0000,
    ensures
        (m ^ (1u64 << i)) < 0x1000_0000,
{
}

proof fn lemma_insert_word(m: u64, i: u64, j: u64)
    by (bit_vector)
    requires
        i < 64,
        j < 64,
    ensures
        ((m | (1u64 << i)) >> j) & 1 == 1 <==> ((m >> j) & 1 == 1 || i == j),
{
}

proof fn lemma_insert_small(m: u64, i: u64)
    by (bit_vector)
    requires
        i < 28,
        m < 0x1000_0000,
    ensures
        (m | (1u64 << i)) < 0x1000_0000,
{
}

proof fn lemma_zero_word(j: u64)
    by (bit_vector)
    requires
        j < 64,
    ensures
        (0u64 >> j) & 1 == 0,
{
}

proof fn lemma_covers_self_word(a: u64)
    by (bit_vector)
    ensures
        a & a == a,
{
}

proof fn lemma_covered_by_empty_word(a: u64)
    by (bit_vector)
    requires
        0u64 & a == a,
    ensures
        a == 0,
{
}

proof fn lemma_missing_word(a: u64, b: u64, j: u64)
    by (bit_vector)
    requires
        j < 64,
        ((b & !a) >> j) & 1 == 1,
    ensures
        (b >> j) & 1 == 1,
        (a >> j) & 1 != 1,
{
}

proof fn lemma_nothing_missing_word(a: u64, b: u64)
    by (bit_vector)
    requires
        b & !a == 0,
    ensures
        a & b == b,
{
}

proof fn lemma_covers_word(a: u64, b: u64, j: u64)
    by (bit_vector)
    requires
        j < 64,
        a & b == b,
        (b >> j) & 1 == 1,
    ensures
        (a >> j) & 1 == 1,
{
}

proof fn lemma_small_word(m: u64, j: u64)
    by (bit_vector)
    requires
        m < 0x1000_0000,
        28 <= j < 64,
    ensures
        (m >> j) & 1 == 0,
{
}

/// Inverting the membership of item `i` changes that item and no other.
pub proof fn lemma_flipped(mask: u64, i: int)
    requires
        0 <= i < 64,
    ensures
        forall|j: int| 0 <= j < 64 ==> #[trigger] bit(flipped(mask, i), j) == (bit(mask, j) != (i == j)),
        i < 28 && in_universe(mask) ==> in_universe(flipped(mask, i)),
{
    assert forall|j: int| 0 <= j < 64 implies #[trigger] bit(flipped(mask, i), j) == (bit(mask, j)
        != (i == j)) by {
        lemma_flip_word(mask, i as u64, j as u64);
    }
    if i < 28 && in_universe(mask) {
        lemma_flip_small(mask, i as u64);
    }
}

/// Adding item `i` changes that item at most and no other.
pub proof fn lemma_inserted(mask: u64, i: int)
    requires
        0 <= i < 64,
    ensures
        forall|j: int| 0 <= j < 64 ==> #[trigger] bit(inserted(mask, i), j) == (bit(mask, j) || i == j),
        i < 28 && in_universe(mask) ==> in_universe(inserted(mask, i)),
{
    assert forall|j: int| 0 <= j < 64 implies #[trigger] bit(inserted(mask, i), j) == (bit(mask, j)
        || i == j) by {
        lemma_insert_word(mask, i as u64, j as u64);
    }
    if i < 28 && in_universe(mask) {
        lemma_insert_small(mask, i as u64);
    }
}

/// The empty subset holds no item.
pub proof fn lemma_empty()
    ensures
        forall|j: int| !#[trigger] bit(0, j),
        in_universe(0),
{
    assert forall|j: int| !#[trigger] bit(0, j) by {
        if 0 <= j < 64 {
            lemma_zero_word(j as u64);
        }
    }
}

/// Every subset covers itself.
pub proof fn lemma_covers_self(a: u64)
    ensures
        covers(a, a),
{
    lemma_covers_self_word(a);
}

/// The empty subset covers itself only.
pub proof fn lemma_covered_by_empty(a: u64)
    requires
        covers(0, a),
    ensures
        a == 0,
{
    lemma_covered_by_empty_word(a);
}

/// A subset that covers another holds each of its items.
pub proof fn lemma_covers(a: u64, b: u64)
    requires
        covers(a, b),
    ensures
        forall|j: int| #[trigger] bit(b, j) ==> bit(a, j),
{
    assert forall|j: int| #[trigger] bit(b, j) implies bit(a, j) by {
        lemma_covers_word(a, b, j as u64);
    }
}

/// A subset covers another exactly when it holds each of its items.
pub proof fn lemma_covers_iff(a: u64, b: u64)
    ensures
        covers(a, b) <==> forall|j: int| #[trigger] bit(b, j) ==> bit(a, j),
{
    if covers(a, b) {
        lemma_covers(a, b);
    } else {
        let missing = b & !a;
        vstd::std_specs::bits::axiom_u64_trailing_zeros(missing);
        let j = vstd::std_specs::bits::u64_trailing_zeros(missing) as u64;
        if missing == 0 {
            lemma_nothing_missing_word(a, b);
        } else {
            lemma_missing_word(a, b, j);
            assert(bit(b, j as int) && !bit(a, j as int));
        }
    }
}

/// A subset of the universe holds no item from 28 on.
pub proof fn lemma_in_universe(mask: u64)
    requires
        in_universe(mask),
    ensures
        forall|j: int| j >= 28 ==> !#[trigger] bit(mask, j),
{
    assert forall|j: int| j >= 28 implies !#[trigger] bit(mask, j) by {
        if j < 64 {
            lemma_small_word(mask, j as u64);
        }
    }
}

/// Tests whether item `i` belongs to `mask`.
pub fn member(mask: u64, i: usize) -> (r: bool)
    requires
        i < 64,
    ensures
        r == bit(mask, i as int),
{
    (mask >> (i as u64)) & 1 == 1
}

/// Inverts the membership of item `i` in `mask`.
pub fn flip(mask: u64, i: usize) -> (r: u64)
    requires
        i < 64,
    ensures
        r == flipped(mask, i as int),
{
    mask ^ (1u64 << (i as u64))
}

/// Adds item `i` to `mask`.
pub fn insert(mask: u64, i: usize) -> (r: u64)
    requires
        i < 64,
    ensures
        r == inserted(mask, i as int),
{
    mask | (1u64 << (i as u64))
}

/// Tests whether `a` contains every item of `b`.
pub fn contains_all(a: u64, b: u64) -> (r: bool)
    ensures
        r == covers(a, b),
        r <==> forall|j: int| #[trigger] bit(b, j) ==> bit(a, j),
{
    proof {
        lemma_covers_iff(a, b);
    }
    a & b == b
}

} // verus!
