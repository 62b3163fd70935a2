use vstd::prelude::*;

verus! {

/// The number of organisms older than one generation at positions `from` onwards.
pub open spec fn older_from(ages: Seq<usize>, from: int) -> nat
    decreases ages.len() - from,
{
    if from < 0 || from >= ages.len() {
        0
    } else {
        (if ages[from] > 1 {
            1nat
        } else {
            0nat
        }) + older_from(ages, from + 1)
    }
}

/// How many organisms a region is over its carrying capacity (none without one).
pub open spec fn excess(carrying_capacity: Option<usize>, population: nat) -> nat {
    match carrying_capacity {
        Some(capacity) => if population > capacity {
            (population - capacity) as nat
        } else {
            0
        },
        None => 0,
    }
}

/// Whether the organism at `position` of a region, ranked best to worst, is culled:
/// it is older than one generation and fewer than the excess of such organisms stand
/// behind it, so the worst older organisms go first.
pub open spec fn culled(carrying_capacity: Option<usize>, ages: Seq<usize>, position: int) -> bool {
    ages[position] > 1 && older_from(ages, position + 1) < excess(carrying_capacity, ages.len())
}

/// The number of marks set in `marks`.
pub open spec fn marked_count(marks: Seq<bool>) -> nat
    decreases marks.len(),
{
    if marks.len() == 0 {
        0
    } else {
        marked_count(marks.drop_last()) + (if marks.last() {
            1nat
        } else {
            0nat
        })
    }
}

proof fn lemma_older_from_monotone(ages: Seq<usize>, a: int, b: int)
    requires
        0 <= a <= b,
    ensures
        older_from(ages, b) <= older_from(ages, a),
    decreases b - a,
{
    if a < b {
        lemma_older_from_monotone(ages, a + 1, b);
    }
}

/// Marks the organisms of a region to be culled for its carrying capacity. The
/// organisms are given by their ages, ranked from best to worst. A region without a
/// capacity, or within it, loses nobody. Otherwise the worst organisms are marked,
/// from the tail, until the excess is removed; organisms of age one or less are
/// never marked, so a region of young organisms may stay over its capacity.
pub fn truncation_marks(carrying_capacity: Option<usize>, ages: &[usize]) -> (marks: Vec<bool>)
    ensures
        marks@.len() == ages@.len(),
        forall|i: int| 0 <= i < ages@.len() ==> #[trigger] marks@[i] == culled(carrying_capacity, ages@, i),
{
    let n = ages.len();
    let mut marks: Vec<bool> = Vec::new();
    let mut t: usize = 0;
    while t < n
        invariant
            n == ages@.len(),
            t <= n,
            marks@ == Seq::new(t as nat, |i: int| false),
        decreases n - t,
    {
        marks.push(false);
        t = t + 1;
    }
    let total = match carrying_capacity {
        Some(capacity) => if n > capacity {
            n - capacity
        } else {
            0
        },
        None => 0,
    };
    let mut remaining = total;
    let mut j: usize = n;
    while j > 0 && remaining > 0
        invariant
            n == ages@.len(),
            marks@.len() == n,
            j <= n,
            total == excess(carrying_capacity, n as nat),
            remaining + older_from(ages@, j as int) == total,
            forall|i: int| j <= i < n ==> #[trigger] marks@[i] == culled(carrying_capacity, ages@, i),
            forall|i: int| 0 <= i < j ==> !#[trigger] marks@[i],
        decreases j,
    {
        j = j - 1;
        proof {
            assert(older_from(ages@, j as int) == (if ages@[j as int] > 1 {
                1nat
            } else {
                0nat
            }) + older_from(ages@, j + 1));
        }
        if ages[j] > 1 {
            marks.set(j, true);
            remaining = remaining - 1;
        }
    }
    proof {
        assert forall|i: int| 0 <= i < n implies #[trigger] marks@[i] == culled(carrying_capacity, ages@, i) by {
            if i < j {
                lemma_older_from_monotone(ages@, i + 1, j as int);
            }
        }
    }
    marks
}

/// The number of culled organisms is the excess, or the number of organisms older
/// than one generation when there are fewer of those.
pub proof fn law_culled_count(carrying_capacity: Option<usize>, ages: Seq<usize>, marks: Seq<bool>)
    requires
        marks.len() == ages.len(),
        forall|i: int| 0 <= i < ages.len() ==> #[trigger] marks[i] == culled(carrying_capacity, ages, i),
    ensures
        marked_count(marks) == if older_from(ages, 0) < excess(carrying_capacity, ages.len()) {
            older_from(ages, 0)
        } else {
            excess(carrying_capacity, ages.len())
        },
{
    lemma_culled_suffix(carrying_capacity, ages, marks, 0);
    assert(marks.subrange(0, marks.len() as int) =~= marks);
}

/// The number of marks among positions `from` onwards is the number of older
/// organisms there, capped by how much of the excess the older organisms behind
/// position `from` leave over.
proof fn lemma_culled_suffix(carrying_capacity: Option<usize>, ages: Seq<usize>, marks: Seq<bool>, from: int)
    requires
        marks.len() == ages.len(),
        0 <= from <= ages.len(),
        forall|i: int| 0 <= i < ages.len() ==> #[trigger] marks[i] == culled(carrying_capacity, ages, i),
    ensures
        marked_count(marks.subrange(from, marks.len() as int)) == if older_from(ages, from) < excess(
            carrying_capacity,
            ages.len(),
        ) {
            older_from(ages, from)
        } else {
            excess(carrying_capacity, ages.len())
        },
    decreases ages.len() - from,
{
    let e = excess(carrying_capacity, ages.len());
    let tail = marks.subrange(from, marks.len() as int);
    if from == ages.len() {
        assert(tail.len() == 0);
    } else {
        lemma_culled_suffix(carrying_capacity, ages, marks, from + 1);
        lemma_count_front(tail);
        assert(tail.drop_first() =~= marks.subrange(from + 1, marks.len() as int));
        assert(tail[0] == marks[from]);
    }
}

/// Counting the marks of a non-empty sequence: its first mark and those of the rest.
proof fn lemma_count_front(marks: Seq<bool>)
    requires
        marks.len() > 0,
    ensures
        marked_count(marks) == (if marks[0] {
            1nat
        } else {
            0nat
        }) + marked_count(marks.drop_first()),
    decreases marks.len(),
{
    if marks.len() > 1 {
        lemma_count_front(marks.drop_last());
        assert(marks.drop_last()[0] == marks[0]);
        assert(marks.drop_last().drop_first() =~= marks.drop_first().drop_last());
        assert(marks.drop_first().last() == marks.last());
        assert(marked_count(marks.drop_first()) == marked_count(marks.drop_first().drop_last())
            + (if marks.drop_first().last() {
            1nat
        } else {
            0nat
        }));
    } else {
        assert(marks.drop_first().len() == 0);
        assert(marks.drop_last().len() == 0);
        assert(marks.last() == marks[0]);
        assert(marked_count(marks.drop_first()) == 0);
        assert(marked_count(marks.drop_last()) == 0);
    }
}

} // verus!
