use vstd::prelude::*;

verus! {

/// The positions of the live organisms of a list, in order.
pub open spec fn live_positions(alive: Seq<bool>) -> Seq<usize>
    decreases alive.len(),
{
    if alive.len() == 0 {
        seq![]
    } else {
        let prev = live_positions(alive.drop_last());
        if alive.last() {
            prev.push((alive.len() - 1) as usize)
        } else {
            prev
        }
    }
}

/// The regions left after removing the dead, with the positions of their live
/// organisms: a region whose organisms are all dead is dropped.
pub open spec fn regions_after_removal(regions: Seq<Seq<bool>>) -> Seq<(usize, Seq<usize>)>
    decreases regions.len(),
{
    if regions.len() == 0 {
        seq![]
    } else {
        let prev = regions_after_removal(regions.drop_last());
        let live = live_positions(regions.last());
        if live.len() > 0 {
            prev.push(((regions.len() - 1) as usize, live))
        } else {
            prev
        }
    }
}

/// The views of a list of regions after removal.
pub open spec fn removal_view(kept: Seq<(usize, Vec<usize>)>) -> Seq<(usize, Seq<usize>)> {
    kept.map_values(|r: (usize, Vec<usize>)| (r.0, r.1@))
}

/// Returns the positions of the live organisms, in order.
pub fn live_organisms(alive: &[bool]) -> (live: Vec<usize>)
    ensures
        live@ == live_positions(alive@),
{
    let mut live: Vec<usize> = Vec::new();
    let mut i: usize = 0;
    while i < alive.len()
        invariant
            i <= alive@.len(),
            live@ == live_positions(alive@.take(i as int)),
        decreases alive@.len() - i,
    {
        assert(alive@.take(i + 1).drop_last() =~= alive@.take(i as int));
        if alive[i] {
            live.push(i);
        }
        i = i + 1;
    }
    assert(alive@.take(i as int) =~= alive@);
    live
}

/// Removes the dead: keeps the live organisms of the world's list, keeps the live
/// organisms of every region, and drops the regions left empty. Organisms are given
/// by their alive flags; the result gives positions of the survivors, and for each
/// surviving region its index and the positions of its live organisms.
pub fn remove_dead(organisms_alive: &[bool], regions_alive: &[Vec<bool>]) -> (kept: (
    Vec<usize>,
    Vec<(usize, Vec<usize>)>,
))
    ensures
        kept.0@ == live_positions(organisms_alive@),
        removal_view(kept.1@) == regions_after_removal(regions_alive@.map_values(|r: Vec<bool>| r@)),
{
    let organisms = live_organisms(organisms_alive);
    let ghost all = regions_alive@.map_values(|r: Vec<bool>| r@);
    let mut regions: Vec<(usize, Vec<usize>)> = Vec::new();
    let mut i: usize = 0;
    while i < regions_alive.len()
        invariant
            i <= regions_alive@.len(),
            all == regions_alive@.map_values(|r: Vec<bool>| r@),
            removal_view(regions@) == regions_after_removal(all.take(i as int)),
        decreases regions_alive@.len() - i,
    {
        assert(all.take(i + 1).drop_last() =~= all.take(i as int));
        assert(all.take(i + 1).last() == regions_alive@[i as int]@);
        let live = live_organisms(regions_alive[i].as_slice());
        let ghost before = regions@;
        if live.len() > 0 {
            regions.push((i, live));
            assert(removal_view(regions@) =~= removal_view(before).push((i, live@)));
        }
        i = i + 1;
    }
    assert(all.take(i as int) =~= all);
    (organisms, regions)
}

/// With no dead organism, removal keeps every organism, in order.
pub proof fn law_nothing_dead_nothing_removed(alive: Seq<bool>)
    requires
        forall|i: int| 0 <= i < alive.len() ==> #[trigger] alive[i],
    ensures
        live_positions(alive) == Seq::new(alive.len(), |i: int| i as usize),
    decreases alive.len(),
{
    if alive.len() > 0 {
        law_nothing_dead_nothing_removed(alive.drop_last());
        assert(live_positions(alive) =~= Seq::new(alive.len(), |i: int| i as usize));
    }
}

/// Every region left after removal holds at least one live organism, and every
/// region with a live organism is left.
pub proof fn law_only_empty_regions_dropped(regions: Seq<Seq<bool>>, r: int)
    requires
        0 <= r < regions.len(),
        regions.len() <= usize::MAX,
    ensures
        (exists|t: int|
            0 <= t < regions_after_removal(regions).len() && #[trigger] regions_after_removal(
                regions,
            )[t].0 == r) <==> live_positions(regions[r]).len() > 0,
    decreases regions.len(),
{
    let all = regions_after_removal(regions);
    let prev = regions_after_removal(regions.drop_last());
    let last = regions.len() - 1;
    let live = live_positions(regions.last());
    lemma_removal_indices_below(regions.drop_last());
    assert(live.len() > 0 ==> all == prev.push((last as usize, live)));
    assert(live.len() == 0 ==> all == prev);
    if r < last {
        law_only_empty_regions_dropped(regions.drop_last(), r);
        assert(regions.drop_last()[r] == regions[r]);
        if exists|t: int| 0 <= t < all.len() && #[trigger] all[t].0 == r {
            let t = choose|t: int| 0 <= t < all.len() && #[trigger] all[t].0 == r;
            if t == prev.len() {
                assert(all[t].0 == last);
            }
            assert(prev[t].0 == r);
        }
        if live_positions(regions[r]).len() > 0 {
            let t = choose|t: int| 0 <= t < prev.len() && #[trigger] prev[t].0 == r;
            assert(all[t].0 == r);
        }
    } else {
        if live.len() > 0 {
            assert(all[prev.len() as int].0 == r);
        } else {
            if exists|t: int| 0 <= t < all.len() && #[trigger] all[t].0 == r {
                let t = choose|t: int| 0 <= t < all.len() && #[trigger] all[t].0 == r;
                assert(prev[t].0 < last);
            }
        }
    }
}

/// The regions left after removal carry indices of the given regions.
proof fn lemma_removal_indices_below(regions: Seq<Seq<bool>>)
    requires
        regions.len() <= usize::MAX,
    ensures
        forall|t: int|
            0 <= t < regions_after_removal(regions).len() ==> #[trigger] regions_after_removal(regions)[t].0
                < regions.len(),
    decreases regions.len(),
{
    if regions.len() > 0 {
        lemma_removal_indices_below(regions.drop_last());
        let prev = regions_after_removal(regions.drop_last());
        let live = live_positions(regions.last());
        if live.len() > 0 {
            assert(regions_after_removal(regions) == prev.push(((regions.len() - 1) as usize, live)));
        }
    }
}

/// The live positions of a list are exactly the positions whose flag is set,
/// each once and in increasing order.
pub proof fn law_live_positions_exact(alive: Seq<bool>)
    requires
        alive.len() <= usize::MAX,
    ensures
        forall|j: int|
            0 <= j < live_positions(alive).len() ==> #[trigger] live_positions(alive)[j] < alive.len()
                && alive[live_positions(alive)[j] as int],
        forall|j: int, k: int|
            0 <= j < k < live_positions(alive).len() ==> #[trigger] live_positions(alive)[j]
                < #[trigger] live_positions(alive)[k],
        forall|i: int| 0 <= i < alive.len() && #[trigger] alive[i] ==> live_positions(alive).contains(i as usize),
    decreases alive.len(),
{
    if alive.len() > 0 {
        let prev = live_positions(alive.drop_last());
        law_live_positions_exact(alive.drop_last());
        let last = alive.len() - 1;
        assert forall|j: int| 0 <= j < prev.len() implies #[trigger] prev[j] < alive.len() && alive[prev[j] as int] by {
            assert(alive.drop_last()[prev[j] as int] == alive[prev[j] as int]);
        }
        assert forall|i: int| 0 <= i < alive.len() && #[trigger] alive[i] implies live_positions(alive).contains(i as usize) by {
            if i < last {
                assert(alive.drop_last()[i]);
                let j = choose|j: int| 0 <= j < prev.len() && prev[j] == i as usize;
                if alive.last() {
                    assert(live_positions(alive)[j] == i as usize);
                } else {
                    assert(live_positions(alive)[j] == i as usize);
                }
            } else {
                assert(live_positions(alive)[prev.len() as int] == i as usize);
            }
        }
    }
}

/// Every region left after removal keeps exactly the live organisms of the region
/// it comes from, and the regions left keep their order.
pub proof fn law_regions_keep_their_live_organisms(regions: Seq<Seq<bool>>)
    requires
        regions.len() <= usize::MAX,
    ensures
        forall|t: int|
            0 <= t < regions_after_removal(regions).len() ==> {
                &&& (#[trigger] regions_after_removal(regions)[t]).0 < regions.len()
                &&& regions_after_removal(regions)[t].1 == live_positions(
                    regions[regions_after_removal(regions)[t].0 as int],
                )
            },
        forall|t: int, u: int|
            0 <= t < u < regions_after_removal(regions).len() ==> (
            #[trigger] regions_after_removal(regions)[t]).0 < (
            #[trigger] regions_after_removal(regions)[u]).0,
    decreases regions.len(),
{
    if regions.len() > 0 {
        let prev = regions_after_removal(regions.drop_last());
        law_regions_keep_their_live_organisms(regions.drop_last());
        let all = regions_after_removal(regions);
        let last = regions.len() - 1;
        let live = live_positions(regions.last());
        if live.len() > 0 {
            assert(all == prev.push((last as usize, live)));
        } else {
            assert(all == prev);
        }
        assert forall|t: int| 0 <= t < prev.len() implies #[trigger] all[t] == prev[t] && prev[t].0 < last
            && prev[t].1 == live_positions(regions[prev[t].0 as int]) by {
            assert(regions.drop_last()[prev[t].0 as int] == regions[prev[t].0 as int]);
        }
    }
}

} // verus!
