use vstd::prelude::*;

verus! {

/// The number of pairs formed from `count` ranked organisms: half of them, rounded
/// up, since an odd count takes the top performer a second time.
pub open spec fn pair_count(count: nat) -> nat {
    count / 2 + count % 2
}

/// The `i`-th pair formed from `count` ranked organisms, as positions in the
/// ranking (0 is the best): extreme pairing of first with last, second with second
/// to last and so on. For an odd count the ranking is first extended by a second
/// copy of the top performer at its head, so the best organism pairs twice.
pub open spec fn extreme_pair(count: nat, i: int) -> (int, int) {
    if count % 2 == 1 {
        (if i == 0 {
            0
        } else {
            i - 1
        }, count - 1 - i)
    } else {
        (i, count - 1 - i)
    }
}

/// Returns the `i`-th pair of positions for `count` ranked organisms, without
/// building the whole list of pairs.
pub fn pair_organisms_for_reproduction_at(count: usize, i: usize) -> (pair: (usize, usize))
    requires
        i < pair_count(count as nat),
    ensures
        pair.0 == extreme_pair(count as nat, i as int).0,
        pair.1 == extreme_pair(count as nat, i as int).1,
        pair.0 < count,
        pair.1 < count,
{
    if count % 2 == 1 {
        let first = if i == 0 {
            0
        } else {
            i - 1
        };
        (first, count - 1 - i)
    } else {
        (i, count - 1 - i)
    }
}

/// Pairs `count` ranked organisms for reproduction, as positions in the ranking
/// (0 is the best): first with last, second with second to last, and so on. For an
/// odd count the top performer is taken twice, so every organism takes part and
/// even a single organism pairs with itself.
pub fn pair_organisms_for_reproduction(count: usize) -> (pairs: Vec<(usize, usize)>)
    ensures
        pairs@.len() == pair_count(count as nat),
        forall|i: int|
            0 <= i < pairs@.len() ==> (#[trigger] pairs@[i]).0 == extreme_pair(count as nat, i).0
                && pairs@[i].1 == extreme_pair(count as nat, i).1,
{
    let total = count / 2 + count % 2;
    let mut pairs: Vec<(usize, usize)> = Vec::new();
    let mut i: usize = 0;
    while i < total
        invariant
            total == pair_count(count as nat),
            i <= total,
            pairs@.len() == i,
            forall|t: int|
                0 <= t < i ==> (#[trigger] pairs@[t]).0 == extreme_pair(count as nat, t).0
                    && pairs@[t].1 == extreme_pair(count as nat, t).1,
        decreases total - i,
    {
        let pair = pair_organisms_for_reproduction_at(count, i);
        pairs.push(pair);
        i = i + 1;
    }
    pairs
}

/// Every organism of the ranking takes part in some pair.
pub proof fn law_everyone_pairs(count: nat, k: int)
    requires
        0 <= k < count,
    ensures
        exists|i: int|
            0 <= i < pair_count(count) && ((#[trigger] extreme_pair(count, i)).0 == k
                || extreme_pair(count, i).1 == k),
{
    let half = pair_count(count) as int;
    if count % 2 == 1 {
        if k == 0 {
            assert(extreme_pair(count, 0).0 == 0);
        } else if k + 1 < half {
            assert(extreme_pair(count, k + 1).0 == k);
        } else {
            let i = count - 1 - k;
            assert(0 <= i < half);
            assert(extreme_pair(count, i).1 == k);
        }
    } else {
        if k < half {
            assert(extreme_pair(count, k).0 == k);
        } else {
            let i = count - 1 - k;
            assert(extreme_pair(count, i).1 == k);
        }
    }
}

/// Each pair joins a better-or-equal ranked organism with a worse-or-equal one, and
/// the pairs come out from the widest to the narrowest.
pub proof fn law_pairs_span_the_ranking(count: nat, i: int, j: int)
    requires
        0 <= i < j < pair_count(count),
    ensures
        extreme_pair(count, i).0 <= extreme_pair(count, i).1,
        extreme_pair(count, i).0 <= extreme_pair(count, j).0,
        extreme_pair(count, j).1 < extreme_pair(count, i).1,
{
}

/// The ranking that extreme pairing works through: for an odd count the top
/// performer stands twice at its head, otherwise the ranking as it is.
pub open spec fn working_ranking(count: nat) -> Seq<int> {
    if count % 2 == 1 {
        seq![0int] + Seq::new(count, |j: int| j)
    } else {
        Seq::new(count, |j: int| j)
    }
}

/// Pair `i` joins the `i`-th of the working ranking with the `i`-th from its end;
/// the working ranking has an even length, twice the number of pairs. So for an
/// odd count the top performer takes part in the first two pairs, and for more than
/// one organism no organism is paired with itself.
pub proof fn law_pairs_follow_working_ranking(count: nat, i: int)
    requires
        0 <= i < pair_count(count),
    ensures
        working_ranking(count).len() == 2 * pair_count(count),
        extreme_pair(count, i) == (working_ranking(count)[i], working_ranking(count)[working_ranking(
            count,
        ).len() - 1 - i]),
        count % 2 == 1 && count > 1 ==> extreme_pair(count, 0) == (0int, count - 1) && extreme_pair(
            count,
            1,
        ) == (0int, count - 2),
        count > 1 ==> extreme_pair(count, i).0 != extreme_pair(count, i).1,
{
    let w = working_ranking(count);
    if count % 2 == 1 {
        assert(w[i] == if i == 0 {
            0
        } else {
            i - 1
        });
        assert(w[w.len() - 1 - i] == count - 1 - i);
        if count > 1 {
            assert(w[1] == 0);
        }
    }
}

} // verus!
