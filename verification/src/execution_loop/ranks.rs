//! Ranks of vectors of counts: of two vectors, the one with the smaller count at the first place
//! where they differ has the smaller rank.

use vstd::prelude::*;

verus! {

/// A rank; a rank above some others is a function that gives each of them.
pub enum Rank {
    Lowest,
    Above(spec_fn(Seq<nat>) -> Rank),
}

/// The rank of `k` counts on top of a rank: each unit of a count stands above all that later
/// counts can add.
pub open spec fn rank_of(k: nat, base: Rank, counts: Seq<nat>) -> Rank
    decreases k, 1nat, 0nat,
{
    if k == 0 || counts.len() == 0 {
        base
    } else {
        rank_of((k - 1) as nat, raised(k, counts[0], base), counts.skip(1))
    }
}

/// A rank raised by some units of the first of `k` counts.
pub open spec fn raised(k: nat, count: nat, base: Rank) -> Rank
    decreases k, 0nat, count,
{
    if k == 0 || count == 0 {
        base
    } else {
        let below = raised(k, (count - 1) as nat, base);
        Rank::Above(|counts: Seq<nat>| rank_of((k - 1) as nat, below, counts))
    }
}

/// Of two vectors of one length, the first has the smaller count at the first difference.
pub open spec fn smaller(a: Seq<nat>, b: Seq<nat>) -> bool {
    &&& a.len() == b.len()
    &&& exists|i: int| first_smaller_at(a, b, i)
}

/// The vectors first differ at this place, where the first has the smaller count.
pub open spec fn first_smaller_at(a: Seq<nat>, b: Seq<nat>, i: int) -> bool {
    &&& 0 <= i < a.len()
    &&& a[i] < b[i]
    &&& forall|j: int| 0 <= j < i ==> a[j] == b[j]
}

/// A rank is at least another.
pub open spec fn at_least(high: Rank, low: Rank) -> bool {
    high == low || decreases_to!(high => low)
}

/// Counts do not lower a rank.
proof fn lemma_rank_at_least(k: nat, base: Rank, counts: Seq<nat>)
    ensures
        at_least(rank_of(k, base, counts), base),
    decreases k, 1nat, 0nat,
{
    if k > 0 && counts.len() > 0 {
        lemma_raised_at_least(k, counts[0], base);
        lemma_rank_at_least((k - 1) as nat, raised(k, counts[0], base), counts.skip(1));
    }
}

/// Units do not lower a rank.
proof fn lemma_raised_at_least(k: nat, count: nat, base: Rank)
    ensures
        at_least(raised(k, count, base), base),
    decreases k, 0nat, count,
{
    if k > 0 && count > 0 {
        let below = raised(k, (count - 1) as nat, base);
        lemma_raised_at_least(k, (count - 1) as nat, base);
        lemma_raised_above(k, count, base, Seq::empty());
        lemma_rank_at_least((k - 1) as nat, below, Seq::empty());
    }
}

/// One unit stands above all that later counts can add to the units below it.
proof fn lemma_raised_above(k: nat, count: nat, base: Rank, counts: Seq<nat>)
    requires
        k > 0,
        count > 0,
    ensures
        decreases_to!(raised(k, count, base) => rank_of(
            (k - 1) as nat,
            raised(k, (count - 1) as nat, base),
            counts,
        )),
{
    let below = raised(k, (count - 1) as nat, base);
    let rank = raised(k, count, base);
    assert(rank is Above);
    assert((rank->Above_0)(counts) == rank_of((k - 1) as nat, below, counts));
    assert(decreases_to!(rank => (rank->Above_0)(counts)));
}

/// More units give a higher rank than fewer, whatever later counts add.
proof fn lemma_fewer_units(k: nat, base: Rank, few: nat, many: nat, counts: Seq<nat>)
    requires
        k > 0,
        few < many,
    ensures
        decreases_to!(raised(k, many, base) => rank_of(
            (k - 1) as nat,
            raised(k, few, base),
            counts,
        )),
    decreases many,
{
    if few + 1 == many {
        lemma_raised_above(k, many, base, counts);
    } else {
        lemma_fewer_units(k, base, few, (many - 1) as nat, counts);
        lemma_raised_above(k, many, base, Seq::empty());
        lemma_rank_at_least(
            (k - 1) as nat,
            raised(k, (many - 1) as nat, base),
            Seq::empty(),
        );
    }
}

/// A smaller vector has a smaller rank.
pub proof fn lemma_smaller_rank(k: nat, base: Rank, a: Seq<nat>, b: Seq<nat>)
    requires
        smaller(a, b),
        a.len() == k,
    ensures
        decreases_to!(rank_of(k, base, b) => rank_of(k, base, a)),
    decreases k,
{
    let i = choose|i: int| first_smaller_at(a, b, i);
    let rest = (k - 1) as nat;
    if i == 0 {
        lemma_fewer_units(k, base, a[0], b[0], a.skip(1));
        lemma_rank_at_least(rest, raised(k, b[0], base), b.skip(1));
    } else {
        assert(a[0] == b[0]);
        assert(first_smaller_at(a.skip(1), b.skip(1), i - 1));
        lemma_smaller_rank(rest, raised(k, a[0], base), a.skip(1), b.skip(1));
    }
}

} // verus!
