use vstd::prelude::*;
use crate::bits::{contains_all, covers, lemma_covers_self};

verus! {

/// No member contains every item of another member. In particular no subset
/// occurs twice.
pub open spec fn non_dominated(s: Seq<(u64, u64)>) -> bool {
    forall|i: int, j: int|
        #![trigger s[i], s[j]]
        0 <= i < s.len() && 0 <= j < s.len() && i != j ==> !covers(s[i].0, s[j].0)
}

/// Members stand by weight, heaviest first.
pub open spec fn sorted(s: Seq<(u64, u64)>) -> bool {
    forall|i: int, j: int| #![trigger s[i], s[j]] 0 <= i < j < s.len() ==> s[i].1 >= s[j].1
}

/// Whether some member contains every item of `candidate`.
pub open spec fn dominated(s: Seq<(u64, u64)>, candidate: u64) -> bool {
    exists|i: int| 0 <= i < s.len() && covers(#[trigger] s[i].0, candidate)
}

/// The members that `candidate` does not contain whole, in their order.
pub open spec fn survivors(s: Seq<(u64, u64)>, candidate: u64) -> Seq<(u64, u64)>
    decreases s.len(),
{
    if s.len() == 0 {
        s
    } else if covers(candidate, s.last().0) {
        survivors(s.drop_last(), candidate)
    } else {
        survivors(s.drop_last(), candidate).push(s.last())
    }
}

/// The position just behind the last member that weighs at least `weight`.
pub open spec fn rank(s: Seq<(u64, u64)>, weight: u64) -> int
    decreases s.len(),
{
    if s.len() == 0 {
        0
    } else if s.last().1 >= weight {
        s.len() as int
    } else {
        rank(s.drop_last(), weight)
    }
}

/// The members after `candidate` was put forward with `weight`, where at most
/// `capacity` members are kept.
pub open spec fn submitted(s: Seq<(u64, u64)>, candidate: u64, weight: u64, capacity: int) -> Seq<
    (u64, u64),
> {
    if dominated(s, candidate) {
        s
    } else {
        let kept = survivors(s, candidate);
        let all = kept.insert(rank(kept, weight), (candidate, weight));
        if all.len() > capacity {
            all.take(capacity)
        } else {
            all
        }
    }
}

/// The weight of the first member; zero where there is none.
pub open spec fn best_weight(s: Seq<(u64, u64)>) -> u64 {
    if s.len() > 0 {
        s[0].1
    } else {
        0
    }
}

/// The first `n` members, filled up with empty subsets of weight zero.
pub open spec fn top(s: Seq<(u64, u64)>, n: int) -> Seq<(u64, u64)> {
    Seq::new(
        n as nat,
        |i: int|
            if i < s.len() {
                s[i]
            } else {
                (0u64, 0u64)
            },
    )
}

/// What survives is part of what there was, in the same order, and holds
/// every member that `candidate` does not contain whole.
pub proof fn lemma_survivors(s: Seq<(u64, u64)>, candidate: u64)
    ensures
        survivors(s, candidate).len() <= s.len(),
        forall|k: int|
            0 <= k < survivors(s, candidate).len() ==> s.contains(
                #[trigger] survivors(s, candidate)[k],
            ) && !covers(candidate, survivors(s, candidate)[k].0),
        forall|i: int|
            0 <= i < s.len() ==> covers(candidate, (#[trigger] s[i]).0) || survivors(
                s,
                candidate,
            ).contains(s[i]),
        sorted(s) ==> sorted(survivors(s, candidate)),
        non_dominated(s) ==> non_dominated(survivors(s, candidate)),
        (forall|i: int| 0 <= i < s.len() ==> !covers(candidate, (#[trigger] s[i]).0)) ==> survivors(
            s,
            candidate,
        ) == s,
    decreases s.len(),
{
    let kept = survivors(s, candidate);
    if s.len() > 0 {
        let p = s.drop_last();
        let last = s.last();
        let rest = survivors(p, candidate);
        lemma_survivors(p, candidate);
        assert forall|k: int| 0 <= k < kept.len() implies s.contains(#[trigger] kept[k]) && !covers(
            candidate,
            kept[k].0,
        ) by {
            if k < rest.len() {
                assert(kept[k] == rest[k]);
                assert(p.contains(rest[k]));
                let m = choose|m: int| 0 <= m < p.len() && p[m] == rest[k];
                assert(s[m] == kept[k]);
            } else {
                assert(kept[k] == last);
                assert(s[s.len() - 1] == last);
            }
        }
        assert forall|i: int| 0 <= i < s.len() implies covers(candidate, (#[trigger] s[i]).0)
            || kept.contains(s[i]) by {
            if i < p.len() {
                assert(p[i] == s[i]);
                if !covers(candidate, s[i].0) {
                    assert(rest.contains(p[i]));
                    let m = choose|m: int| 0 <= m < rest.len() && rest[m] == p[i];
                    assert(kept[m] == s[i]);
                }
            } else {
                if !covers(candidate, s[i].0) {
                    assert(kept[kept.len() - 1] == s[i]);
                }
            }
        }
        if sorted(s) {
            assert(sorted(p)) by {
                assert forall|i: int, j: int| 0 <= i < j < p.len() implies p[i].1 >= p[j].1 by {
                    assert(s[i].1 >= s[j].1);
                }
            }
            assert forall|i: int, j: int| 0 <= i < j < kept.len() implies kept[i].1 >= kept[j].1 by {
                if j < rest.len() {
                    assert(rest[i].1 >= rest[j].1);
                } else {
                    assert(kept[i] == rest[i]);
                    assert(p.contains(rest[i]));
                    let m = choose|m: int| 0 <= m < p.len() && p[m] == rest[i];
                    assert(s[m].1 >= s[s.len() - 1].1);
                }
            }
        }
        if non_dominated(s) {
            assert(non_dominated(p)) by {
                assert forall|i: int, j: int|
                    0 <= i < p.len() && 0 <= j < p.len() && i != j implies !covers(
                    p[i].0,
                    p[j].0,
                ) by {
                    assert(!covers(s[i].0, s[j].0));
                }
            }
            assert forall|i: int, j: int|
                0 <= i < kept.len() && 0 <= j < kept.len() && i != j implies !covers(
                kept[i].0,
                kept[j].0,
            ) by {
                if i < rest.len() && j < rest.len() {
                    assert(!covers(rest[i].0, rest[j].0));
                } else if i < rest.len() {
                    assert(kept[i] == rest[i]);
                    assert(p.contains(rest[i]));
                    let m = choose|m: int| 0 <= m < p.len() && p[m] == rest[i];
                    assert(!covers(s[m].0, s[s.len() - 1].0));
                } else {
                    assert(kept[j] == rest[j]);
                    assert(p.contains(rest[j]));
                    let m = choose|m: int| 0 <= m < p.len() && p[m] == rest[j];
                    assert(!covers(s[s.len() - 1].0, s[m].0));
                }
            }
        }
        if forall|i: int| 0 <= i < s.len() ==> !covers(candidate, (#[trigger] s[i]).0) {
            assert forall|i: int| 0 <= i < p.len() implies !covers(candidate, (#[trigger] p[i]).0) by {
                assert(p[i] == s[i]);
            }
            assert(rest == p);
            assert(!covers(candidate, s[s.len() - 1].0));
            assert(kept =~= s);
        }
    }
}

/// Behind the rank every member weighs less than `weight`; in a sorted
/// sequence every member before it weighs at least `weight`.
pub proof fn lemma_rank(s: Seq<(u64, u64)>, weight: u64)
    ensures
        0 <= rank(s, weight) <= s.len(),
        forall|k: int| rank(s, weight) <= k < s.len() ==> (#[trigger] s[k]).1 < weight,
        sorted(s) ==> forall|k: int| 0 <= k < rank(s, weight) ==> (#[trigger] s[k]).1 >= weight,
    decreases s.len(),
{
    if s.len() > 0 {
        let p = s.drop_last();
        lemma_rank(p, weight);
        if s.last().1 >= weight {
            if sorted(s) {
                assert forall|k: int| 0 <= k < s.len() implies (#[trigger] s[k]).1 >= weight by {
                    if k < s.len() - 1 {
                        assert(s[k].1 >= s[s.len() - 1].1);
                    }
                }
            }
        } else {
            assert forall|k: int| rank(s, weight) <= k < s.len() implies (#[trigger] s[k]).1
                < weight by {
                if k < p.len() {
                    assert(p[k] == s[k]);
                }
            }
            if sorted(s) {
                assert(sorted(p)) by {
                    assert forall|i: int, j: int| 0 <= i < j < p.len() implies p[i].1 >= p[j].1 by {
                        assert(s[i].1 >= s[j].1);
                    }
                }
                assert forall|k: int| 0 <= k < rank(s, weight) implies (#[trigger] s[k]).1
                    >= weight by {
                    assert(p[k] == s[k]);
                }
            }
        }
    }
}

/// Putting a candidate forward keeps the members sorted, free of domination
/// and within the capacity; every member afterwards was one before or is the
/// candidate; and where the candidate weighs at least as much as each member
/// it contains whole, the first weight does not fall.
pub proof fn lemma_submitted(s: Seq<(u64, u64)>, candidate: u64, weight: u64, capacity: int)
    requires
        sorted(s),
        non_dominated(s),
        s.len() <= capacity,
    ensures
        sorted(submitted(s, candidate, weight, capacity)),
        non_dominated(submitted(s, candidate, weight, capacity)),
        submitted(s, candidate, weight, capacity).len() <= capacity,
        forall|i: int|
            0 <= i < submitted(s, candidate, weight, capacity).len() ==> s.contains(
                #[trigger] submitted(s, candidate, weight, capacity)[i],
            ) || submitted(s, candidate, weight, capacity)[i] == (candidate, weight),
        (forall|i: int|
            0 <= i < s.len() && covers(candidate, (#[trigger] s[i]).0) ==> s[i].1 <= weight)
            ==> best_weight(submitted(s, candidate, weight, capacity)) >= best_weight(s),
{
    let r = submitted(s, candidate, weight, capacity);
    if dominated(s, candidate) {
        assert forall|i: int| 0 <= i < r.len() implies s.contains(#[trigger] r[i]) by {
            assert(s[i] == r[i]);
        }
    } else {
        let kept = survivors(s, candidate);
        let pos = rank(kept, weight);
        let all = kept.insert(pos, (candidate, weight));
        lemma_survivors(s, candidate);
        lemma_rank(kept, weight);
        assert forall|i: int| 0 <= i < all.len() implies s.contains(#[trigger] all[i]) || all[i] == (
            candidate,
            weight,
        ) by {
            if i < pos {
                assert(all[i] == kept[i]);
            } else if i > pos {
                assert(all[i] == kept[i - 1]);
            }
        }
        assert(sorted(all)) by {
            assert forall|i: int, j: int| 0 <= i < j < all.len() implies all[i].1 >= all[j].1 by {
                if j < pos {
                    assert(kept[i].1 >= kept[j].1);
                } else if j == pos {
                    assert(kept[i].1 >= weight);
                } else if i < pos {
                    assert(kept[i].1 >= kept[j - 1].1);
                } else if i == pos {
                    assert(kept[j - 1].1 < weight);
                } else {
                    assert(kept[i - 1].1 >= kept[j - 1].1);
                }
            }
        }
        assert forall|m: int| 0 <= m < kept.len() implies !covers((#[trigger] kept[m]).0, candidate)
            && !covers(candidate, kept[m].0) by {
            assert(s.contains(kept[m]));
            let t = choose|t: int| 0 <= t < s.len() && s[t] == kept[m];
            assert(!covers(s[t].0, candidate));
        }
        assert(non_dominated(all)) by {
            assert forall|i: int, j: int|
                0 <= i < all.len() && 0 <= j < all.len() && i != j implies !covers(
                all[i].0,
                all[j].0,
            ) by {
                let a = if i < pos {
                    i
                } else {
                    i - 1
                };
                let b = if j < pos {
                    j
                } else {
                    j - 1
                };
                if i == pos {
                    assert(all[j] == kept[b]);
                } else if j == pos {
                    assert(all[i] == kept[a]);
                } else {
                    assert(all[i] == kept[a]);
                    assert(all[j] == kept[b]);
                    assert(!covers(kept[a].0, kept[b].0));
                }
            }
        }
        assert forall|i: int| 0 <= i < r.len() implies s.contains(#[trigger] r[i]) || r[i] == (
            candidate,
            weight,
        ) by {
            assert(r[i] == all[i]);
        }
        assert(sorted(r)) by {
            assert forall|i: int, j: int| 0 <= i < j < r.len() implies r[i].1 >= r[j].1 by {
                assert(all[i].1 >= all[j].1);
            }
        }
        assert(non_dominated(r)) by {
            assert forall|i: int, j: int|
                0 <= i < r.len() && 0 <= j < r.len() && i != j implies !covers(r[i].0, r[j].0) by {
                assert(!covers(all[i].0, all[j].0));
            }
        }
        if s.len() > 0 && (forall|i: int|
            0 <= i < s.len() && covers(candidate, (#[trigger] s[i]).0) ==> s[i].1 <= weight) {
            assert(capacity > 0);
            assert(r[0] == all[0]);
            assert(all[pos] == (candidate, weight));
            assert(all[0].1 >= all[pos].1);
            if !covers(candidate, s[0].0) {
                assert(kept.contains(s[0]));
                let m = choose|m: int| 0 <= m < kept.len() && kept[m] == s[0];
                let at = if m < pos {
                    m
                } else {
                    m + 1
                };
                assert(all[at] == kept[m]);
                assert(all[0].1 >= all[at].1);
            }
        }
    }
}

/// Putting the same candidate forward a second time changes nothing.
pub proof fn lemma_submitted_twice(s: Seq<(u64, u64)>, candidate: u64, weight: u64, capacity: int)
    requires
        sorted(s),
        non_dominated(s),
        s.len() <= capacity,
    ensures
        submitted(submitted(s, candidate, weight, capacity), candidate, weight, capacity)
            == submitted(s, candidate, weight, capacity),
{
    let r = submitted(s, candidate, weight, capacity);
    if !dominated(s, candidate) {
        let kept = survivors(s, candidate);
        let pos = rank(kept, weight);
        let all = kept.insert(pos, (candidate, weight));
        lemma_survivors(s, candidate);
        lemma_rank(kept, weight);
        lemma_covers_self(candidate);
        if pos < r.len() {
            assert(r[pos] == (candidate, weight));
            assert(covers(r[pos].0, candidate));
        } else {
            assert(r =~= kept);
            assert forall|m: int| 0 <= m < kept.len() implies !covers((#[trigger] kept[m]).0, candidate)
                && !covers(candidate, kept[m].0) by {
                assert(s.contains(kept[m]));
                let t = choose|t: int| 0 <= t < s.len() && s[t] == kept[m];
                assert(!covers(s[t].0, candidate));
            }
            lemma_survivors(kept, candidate);
            assert(survivors(kept, candidate) == kept);
        }
    }
}

/// The best subsets found so far, each with its weight: at most `limit()` of
/// them, heaviest first, none containing another. Only subsets that were put
/// forward are members; `top` fills a shorter list up with empty subsets, so
/// that an empty subset among the members stays apart from a free place.
pub struct EliteSet {
    members: Vec<(u64, u64)>,
    capacity: usize,
}

impl View for EliteSet {
    type V = Seq<(u64, u64)>;

    closed spec fn view(&self) -> Seq<(u64, u64)> {
        self.members@
    }
}

impl EliteSet {
    /// The largest number of members that is kept.
    pub closed spec fn limit(&self) -> int {
        self.capacity as int
    }

    /// The members are within the capacity, sorted, and free of domination.
    pub open spec fn wf(&self) -> bool {
        &&& self@.len() <= self.limit()
        &&& sorted(self@)
        &&& non_dominated(self@)
    }

    /// An empty set that keeps at most `capacity` members.
    pub fn new(capacity: usize) -> (r: Self)
        ensures
            r.wf(),
            r@ == Seq::<(u64, u64)>::empty(),
            r.limit() == capacity,
    {
        EliteSet { members: Vec::new(), capacity }
    }

    /// The largest number of members that is kept.
    pub fn capacity(&self) -> (r: usize)
        ensures
            r == self.limit(),
    {
        self.capacity
    }

    /// The number of members.
    pub fn len(&self) -> (r: usize)
        ensures
            r == self@.len(),
    {
        self.members.len()
    }

    /// The member at position `i`, as subset and weight.
    pub fn get(&self, i: usize) -> (r: (u64, u64))
        requires
            i < self@.len(),
        ensures
            r == self@[i as int],
    {
        self.members[i]
    }

    /// The heaviest member, if there is one.
    pub fn best(&self) -> (r: Option<(u64, u64)>)
        ensures
            r == if self@.len() > 0 {
                Some(self@[0])
            } else {
                None
            },
    {
        if self.members.len() > 0 {
            Some(self.members[0])
        } else {
            None
        }
    }

    /// Puts a subset forward with its weight. Nothing changes where a member
    /// already contains all of it. Otherwise the members that it contains
    /// whole leave, it enters behind the members that weigh at least as much,
    /// and the lightest member leaves if the capacity is exceeded.
    pub fn submit(&mut self, candidate: u64, weight: u64)
        requires
            old(self).wf(),
        ensures
            final(self).wf(),
            final(self).limit() == old(self).limit(),
            final(self)@ == submitted(old(self)@, candidate, weight, old(self).limit()),
            forall|i: int|
                0 <= i < final(self)@.len() ==> old(self)@.contains(#[trigger] final(self)@[i])
                    || final(self)@[i] == (candidate, weight),
            (forall|i: int|
                0 <= i < old(self)@.len() && covers(candidate, (#[trigger] old(self)@[i]).0)
                    ==> old(self)@[i].1 <= weight) ==> best_weight(final(self)@) >= best_weight(
                old(self)@,
            ),
    {
        let n = self.members.len();
        let mut i: usize = 0;
        while i < n
            invariant
                i <= n,
                n == self.members@.len(),
                *self == *old(self),
                self.wf(),
                forall|k: int| 0 <= k < i ==> !covers((#[trigger] self.members@[k]).0, candidate),
            decreases n - i,
        {
            if contains_all(self.members[i].0, candidate) {
                proof {
                    lemma_submitted(self@, candidate, weight, self.limit());
                }
                return ;
            }
            i += 1;
        }
        let mut kept: Vec<(u64, u64)> = Vec::new();
        i = 0;
        while i < n
            invariant
                i <= n,
                n == self.members@.len(),
                *self == *old(self),
                self.wf(),
                kept@ == survivors(self.members@.take(i as int), candidate),
            decreases n - i,
        {
            let m = self.members[i];
            proof {
                let next = self.members@.take(i + 1);
                assert(next.drop_last() =~= self.members@.take(i as int));
                assert(next.last() == m);
            }
            if !contains_all(candidate, m.0) {
                kept.push(m);
            }
            i += 1;
        }
        proof {
            assert(self.members@.take(n as int) =~= self.members@);
            lemma_survivors(self.members@, candidate);
            lemma_submitted(self@, candidate, weight, self.limit());
        }
        let mut pos = kept.len();
        proof {
            assert(kept@.take(pos as int) =~= kept@);
        }
        while pos > 0 && kept[pos - 1].1 < weight
            invariant
                pos <= kept@.len(),
                rank(kept@, weight) == rank(kept@.take(pos as int), weight),
            decreases pos,
        {
            proof {
                assert(kept@.take(pos as int).drop_last() =~= kept@.take(pos - 1));
            }
            pos -= 1;
        }
        proof {
            if pos > 0 {
                assert(kept@.take(pos as int).last() == kept@[pos - 1]);
            }
        }
        kept.insert(pos, (candidate, weight));
        if kept.len() > self.capacity {
            proof {
                assert(kept@.drop_last() =~= kept@.take(self.capacity as int));
            }
            kept.pop();
        }
        self.members = kept;
    }

    /// The first `n` members, filled up with empty subsets of weight zero
    /// where there are fewer.
    pub fn top(&self, n: usize) -> (r: Vec<(u64, u64)>)
        ensures
            r@ == top(self@, n as int),
    {
        let mut out: Vec<(u64, u64)> = Vec::new();
        let mut i: usize = 0;
        while i < n
            invariant
                i <= n,
                out@ == top(self@, i as int),
            decreases n - i,
        {
            let entry = if i < self.members.len() {
                self.members[i]
            } else {
                (0u64, 0u64)
            };
            out.push(entry);
            proof {
                assert(out@ =~= top(self@, i + 1));
            }
            i += 1;
        }
        out
    }
}

} // verus!
