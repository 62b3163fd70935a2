pub mod zone_cache;

use vstd::prelude::*;
use vstd::arithmetic::power::pow;
use vstd::set_lib::{lemma_int_range, lemma_len_subset, set_int_range};
use vstd::slice::slice_to_vec;

verus! {

/// Adjacency is symmetric and never holds between a key and itself.
pub proof fn law_adjacency_symmetric(a: Seq<usize>, b: Seq<usize>)
    ensures
        chebyshev_adjacent(a, b) == chebyshev_adjacent(b, a),
        !chebyshev_adjacent(a, a),
{
}

/// `a` and `b` are adjacent when they have the same number of dimensions and their
/// Chebyshev distance (the largest per-dimension difference) is exactly 1.
pub open spec fn chebyshev_adjacent(a: Seq<usize>, b: Seq<usize>) -> bool {
    &&& a.len() == b.len()
    &&& forall|t: int| 0 <= t < a.len() ==> a[t] <= b[t] + 1 && b[t] <= a[t] + 1
    &&& exists|t: int| 0 <= t < a.len() && a[t] != b[t]
}

/// Two positions of the key list are linked when their keys are equal or adjacent.
pub open spec fn linked(keys: Seq<Seq<usize>>, x: int, y: int) -> bool {
    keys[x] == keys[y] || chebyshev_adjacent(keys[x], keys[y])
}

/// A set of positions is linked-connected: it cannot be split into two non-empty
/// parts without a linked pair across the split.
pub open spec fn linked_set(c: Set<int>, keys: Seq<Seq<usize>>) -> bool {
    forall|s: Set<int>|
        #![trigger s.subset_of(c)]
        s.subset_of(c) && (exists|x: int| s.contains(x)) && (exists|y: int|
            c.contains(y) && !s.contains(y)) ==> exists|x: int, y: int|
            #![trigger s.contains(x), s.contains(y)]
            s.contains(x) && c.contains(y) && !s.contains(y) && linked(keys, x, y)
}

/// The positions whose root is `r`.
pub open spec fn class_of(roots: Seq<int>, r: int) -> Set<int> {
    Set::new(|i: int| 0 <= i < roots.len() && roots[i] == r)
}

/// The positions that are their own root.
pub open spec fn self_roots(roots: Seq<int>) -> Set<int> {
    Set::new(|i: int| 0 <= i < roots.len() && roots[i] == i)
}

/// The keys at the positions labelled `z`, in input order.
pub open spec fn select(keys: Seq<Seq<usize>>, labels: Seq<int>, z: int) -> Seq<Seq<usize>>
    decreases keys.len(),
{
    if keys.len() == 0 || labels.len() != keys.len() {
        seq![]
    } else {
        let prev = select(keys.drop_last(), labels.drop_last(), z);
        if labels.last() == z {
            prev.push(keys.last())
        } else {
            prev
        }
    }
}

/// The positions labelled `z`.
pub open spec fn label_class(labels: Seq<int>, z: int) -> Set<int> {
    Set::new(|i: int| 0 <= i < labels.len() && labels[i] == z)
}

/// `zones` groups `keys` by `labels`: every position has the label of a zone, every
/// zone is non-empty and holds exactly the keys labelled with its index, in input
/// order.
pub open spec fn grouped_by(
    keys: Seq<Seq<usize>>,
    labels: Seq<int>,
    zones: Seq<Seq<Seq<usize>>>,
) -> bool {
    &&& labels.len() == keys.len()
    &&& forall|i: int| 0 <= i < keys.len() ==> 0 <= #[trigger] labels[i] < zones.len()
    &&& forall|z: int| 0 <= z < zones.len() ==> #[trigger] zones[z] == select(keys, labels, z)
    &&& forall|z: int| 0 <= z < zones.len() ==> #[trigger] zones[z].len() > 0
}

/// `labels` places `keys` in `zones` as zones of connected keys: `zones` groups
/// the keys by label, linked keys share a label, and no zone can be split into two
/// parts without a linked pair across the split.
pub open spec fn zoned_by(keys: Seq<Seq<usize>>, labels: Seq<int>, zones: Seq<Seq<Seq<usize>>>) -> bool {
    &&& grouped_by(keys, labels, zones)
    &&& forall|i: int, j: int|
        0 <= i < keys.len() && 0 <= j < keys.len() && #[trigger] linked(keys, i, j) ==> labels[i]
            == labels[j]
    &&& forall|z: int| 0 <= z < zones.len() ==> #[trigger] linked_set(label_class(labels, z), keys)
}

/// `zones` are the zones of `keys`: the groups of keys connected through chains of
/// adjacent (or equal) keys, each listing its keys in input order.
pub open spec fn is_zoning(keys: Seq<Seq<usize>>, zones: Seq<Seq<Seq<usize>>>) -> bool {
    exists|labels: Seq<int>| zoned_by(keys, labels, zones)
}

/// `c` has the dimensions of `key` and differs from it by at most one in each of
/// the first `dims` dimensions, and not at all in the others.
pub open spec fn within_prefix(c: Seq<usize>, key: Seq<usize>, dims: int) -> bool {
    &&& c.len() == key.len()
    &&& forall|t: int|
        0 <= t < key.len() ==> if t < dims {
            c[t] <= key[t] + 1 && key[t] <= c[t] + 1
        } else {
            c[t] == key[t]
        }
}

/// Every element of `s` with dimension `dim` set to `value`.
pub open spec fn shifted(s: Seq<Seq<usize>>, dim: int, value: usize) -> Seq<Seq<usize>> {
    s.map_values(|p: Seq<usize>| p.update(dim, value))
}

/// The predicate "differs from `key`".
pub open spec fn differs_from(key: Seq<usize>) -> spec_fn(Seq<usize>) -> bool {
    |c: Seq<usize>| c != key
}

/// The views of a list of keys.
pub open spec fn key_views(keys: Seq<Vec<usize>>) -> Seq<Seq<usize>> {
    keys.map_values(|k: Vec<usize>| k@)
}

/// No coordinate is at the top of the range of `usize`, and the number of
/// candidate neighbours, `3^len`, fits in a `usize`.
pub open spec fn key_in_range(key: Seq<usize>) -> bool {
    &&& forall|t: int| 0 <= t < key.len() ==> #[trigger] key[t] < usize::MAX
    &&& pow(3, key.len()) <= usize::MAX
}

/// The candidates extended by dimension `dim`: each with that dimension one lower
/// (when possible), unchanged, and one higher.
pub open spec fn extended(p: Seq<Seq<usize>>, key: Seq<usize>, dim: int) -> Seq<Seq<usize>> {
    (if key[dim] > 0 {
        shifted(p, dim, (key[dim] - 1) as usize)
    } else {
        Seq::<Seq<usize>>::empty()
    }) + shifted(p, dim, key[dim]) + shifted(p, dim, (key[dim] + 1) as usize)
}

/// The keys within one step of `key` in each of its first `dims` dimensions, the
/// first dimension varying fastest and each dimension taking the values one lower
/// (when possible), unchanged and one higher.
pub open spec fn candidate_grid(key: Seq<usize>, dims: nat) -> Seq<Seq<usize>>
    decreases dims,
{
    if dims == 0 {
        seq![key]
    } else {
        extended(candidate_grid(key, (dims - 1) as nat), key, dims - 1)
    }
}

/// Extending the candidates by one dimension: each candidate with that dimension
/// one lower (when possible), unchanged, and one higher.
proof fn lemma_extend_dimension(p: Seq<Seq<usize>>, key: Seq<usize>, dim: int)
    requires
        0 <= dim < key.len(),
        key[dim] < usize::MAX,
        forall|c: Seq<usize>| #[trigger] p.contains(c) <==> within_prefix(c, key, dim),
    ensures
        forall|c: Seq<usize>|
            #[trigger] extended(p, key, dim).contains(c) <==> within_prefix(c, key, dim + 1),
{
    let low = if key[dim] > 0 {
        shifted(p, dim, (key[dim] - 1) as usize)
    } else {
        Seq::<Seq<usize>>::empty()
    };
    let mid = shifted(p, dim, key[dim]);
    let high = shifted(p, dim, (key[dim] + 1) as usize);
    let all = low + mid + high;
    assert(all == extended(p, key, dim));
    assert forall|c: Seq<usize>| #[trigger] all.contains(c) <==> within_prefix(c, key, dim + 1) by {
        if all.contains(c) {
            let t = choose|t: int| 0 <= t < all.len() && all[t] == c;
            let (q, v) = if t < low.len() {
                (p[t], (key[dim] - 1) as usize)
            } else if t < low.len() + mid.len() {
                (p[t - low.len()], key[dim])
            } else {
                (p[t - low.len() - mid.len()], (key[dim] + 1) as usize)
            };
            assert(c == q.update(dim, v));
            assert(p.contains(q));
            assert(within_prefix(q, key, dim));
        }
        if within_prefix(c, key, dim + 1) {
            let q = c.update(dim, key[dim]);
            assert(within_prefix(q, key, dim));
            assert(p.contains(q));
            let u = choose|u: int| 0 <= u < p.len() && p[u] == q;
            assert(c =~= q.update(dim, c[dim]));
            if c[dim] + 1 == key[dim] {
                assert(all[u] == c);
            } else if c[dim] == key[dim] {
                assert(all[low.len() + u] == c);
            } else {
                assert(all[low.len() + mid.len() + u] == c);
            }
        }
    }
}

/// The views of a list of zones.
pub open spec fn zones_view(zones: Seq<Vec<Vec<usize>>>) -> Seq<Seq<Seq<usize>>> {
    zones.map_values(|zone: Vec<Vec<usize>>| key_views(zone@))
}

/// A key within one step of another in every dimension, and different from it, is
/// adjacent to it.
proof fn lemma_candidate_adjacent(key: Seq<usize>, c: Seq<usize>)
    requires
        within_prefix(c, key, key.len() as int),
        c != key,
    ensures
        chebyshev_adjacent(key, c),
{
    if forall|t: int| 0 <= t < key.len() ==> key[t] == c[t] {
        assert(c =~= key);
    }
}

/// A label that some position carries selects a non-empty list of keys containing
/// that position's key.
proof fn lemma_select_nonempty(keys: Seq<Seq<usize>>, labels: Seq<int>, z: int, a: int)
    requires
        labels.len() == keys.len(),
        0 <= a < keys.len(),
        labels[a] == z,
    ensures
        select(keys, labels, z).len() > 0,
    decreases keys.len(),
{
    if a < keys.len() - 1 {
        lemma_select_nonempty(keys.drop_last(), labels.drop_last(), z, a);
    }
}

/// Joining two connected sets that are linked across gives a connected set.
proof fn lemma_union_linked(a: Set<int>, b: Set<int>, x: int, y: int, keys: Seq<Seq<usize>>)
    requires
        linked_set(a, keys),
        linked_set(b, keys),
        a.disjoint(b),
        a.contains(x),
        b.contains(y),
        linked(keys, x, y),
        linked(keys, y, x),
    ensures
        linked_set(a.union(b), keys),
{
    let c = a.union(b);
    assert forall|s: Set<int>|
        #![trigger s.subset_of(c)]
        s.subset_of(c) && (exists|p: int| s.contains(p)) && (exists|q: int|
            c.contains(q) && !s.contains(q)) implies exists|p: int, q: int|
        #![trigger s.contains(p), s.contains(q)]
        s.contains(p) && c.contains(q) && !s.contains(q) && linked(keys, p, q) by {
        let sa = s.intersect(a);
        let sb = s.intersect(b);
        let p0 = choose|p: int| s.contains(p);
        let q0 = choose|q: int| c.contains(q) && !s.contains(q);
        if (exists|p: int| sa.contains(p)) && (exists|q: int| a.contains(q) && !sa.contains(q)) {
            assert(sa.subset_of(a));
            let (p, q) = choose|p: int, q: int|
                #![trigger sa.contains(p), sa.contains(q)]
                sa.contains(p) && a.contains(q) && !sa.contains(q) && linked(keys, p, q);
            assert(s.contains(p) && c.contains(q) && !s.contains(q));
        } else if (exists|p: int| sb.contains(p)) && (exists|q: int|
            b.contains(q) && !sb.contains(q)) {
            assert(sb.subset_of(b));
            let (p, q) = choose|p: int, q: int|
                #![trigger sb.contains(p), sb.contains(q)]
                sb.contains(p) && b.contains(q) && !sb.contains(q) && linked(keys, p, q);
            assert(s.contains(p) && c.contains(q) && !s.contains(q));
        } else {
            if s.contains(x) {
                // all of a lies in s, so some of b lies outside it
                if s.contains(y) {
                    assert(false) by {
                        if a.contains(q0) {
                            assert(sa.contains(x));
                            assert(a.contains(q0) && !sa.contains(q0));
                        } else {
                            assert(sb.contains(y));
                            assert(b.contains(q0) && !sb.contains(q0));
                        }
                    }
                }
                assert(s.contains(x) && c.contains(y) && !s.contains(y) && linked(keys, x, y));
            } else {
                if !s.contains(y) {
                    assert(false) by {
                        if a.contains(p0) {
                            assert(sa.contains(p0));
                            assert(a.contains(x) && !sa.contains(x));
                        } else {
                            assert(sb.contains(p0));
                            assert(b.contains(y) && !sb.contains(y));
                        }
                    }
                }
                assert(s.contains(y) && c.contains(x) && !s.contains(x) && linked(keys, y, x));
            }
        }
    }
}

/// The union-find structure over `n` positions is well formed: the three
/// sequences have length `n`, parents and roots are positions, and the links hold.
pub open spec fn uf_inv(parent: Seq<usize>, rank: Seq<usize>, roots: Seq<int>, n: nat) -> bool {
    &&& parent.len() == n
    &&& rank.len() == n
    &&& roots.len() == n
    &&& forall|i: int| 0 <= i < n ==> #[trigger] parent[i] < n
    &&& forall|i: int| 0 <= i < n ==> 0 <= #[trigger] roots[i] < n
    &&& uf_links(parent, rank, roots, n)
}

/// `roots` gives the root reached from each position, and ranks grow strictly along
/// parent links and stay below the number of positions less the number of roots.
#[verifier::opaque]
pub open spec fn uf_links(parent: Seq<usize>, rank: Seq<usize>, roots: Seq<int>, n: nat) -> bool {
    &&& forall|i: int| 0 <= i < n ==> (parent[i] == i <==> #[trigger] roots[i] == i)
    &&& forall|i: int| 0 <= i < n ==> roots[#[trigger] parent[i] as int] == roots[i]
    &&& forall|i: int|
        0 <= i < n && parent[i] != i ==> rank[#[trigger] parent[i] as int] > rank[i]
    &&& forall|i: int| 0 <= i < n && roots[i] != i ==> rank[#[trigger] roots[i]] > rank[i]
    &&& self_roots(roots).finite()
    &&& forall|i: int| 0 <= i < n ==> #[trigger] rank[i] + self_roots(roots).len() <= n
}

/// The roots after attaching root `lower` under root `upper`.
pub open spec fn relinked(roots: Seq<int>, lower: int, upper: int) -> Seq<int> {
    Seq::new(roots.len(), |i: int| if roots[i] == lower { upper } else { roots[i] })
}

/// With two distinct roots, every rank is at least two below the number of
/// positions.
proof fn lemma_rank_room(parent: Seq<usize>, rank: Seq<usize>, roots: Seq<int>, n: nat, r1: int, r2: int)
    requires
        uf_inv(parent, rank, roots, n),
        0 <= r1 < n,
        0 <= r2 < n,
        r1 != r2,
        parent[r1] == r1,
        parent[r2] == r2,
    ensures
        forall|i: int| 0 <= i < n ==> #[trigger] rank[i] + 2 <= n,
{
    reveal(uf_links);
    let set = self_roots(roots);
    assert(set.contains(r1) && set.contains(r2));
    lemma_len_subset(set![r1, r2], set);
    assert(set![r1, r2].len() == 2) by {
        assert(set![r1].len() == 1);
        assert(set![r1, r2] == set![r1].insert(r2));
    }
}

/// Attaching one root under another, of no smaller rank (and one greater after
/// the increment when the ranks were equal), keeps the structure well formed.
proof fn lemma_link(
    parent: Seq<usize>,
    rank: Seq<usize>,
    roots: Seq<int>,
    n: nat,
    lower: int,
    upper: int,
    new_rank: Seq<usize>,
)
    requires
        uf_inv(parent, rank, roots, n),
        n <= usize::MAX,
        0 <= lower < n,
        0 <= upper < n,
        lower != upper,
        parent[lower] == lower,
        parent[upper] == upper,
        rank[lower] <= rank[upper],
        rank[lower] < rank[upper] ==> new_rank == rank,
        rank[lower] == rank[upper] ==> new_rank == rank.update(upper, (rank[upper] + 1) as usize),
    ensures
        uf_inv(parent.update(lower, upper as usize), new_rank, relinked(roots, lower, upper), n),
{
    reveal(uf_links);
    let p2 = parent.update(lower, upper as usize);
    let r2 = relinked(roots, lower, upper);
    lemma_rank_room(parent, rank, roots, n, lower, upper);
    assert forall|x: int| 0 <= x < n implies #[trigger] new_rank[x] >= rank[x] && (x != upper
        ==> new_rank[x] == rank[x]) by {}
    assert(new_rank[upper] > rank[lower] || rank[lower] < rank[upper]);
    let old_set = self_roots(roots);
    assert(roots[lower] == lower && roots[upper] == upper);
    assert(self_roots(r2) =~= old_set.remove(lower));
    assert(old_set.contains(lower));
    assert(old_set.contains(upper));
    assert(old_set.remove(lower).contains(upper));
    lemma_len_subset(set![upper], old_set.remove(lower));
    assert(set![upper].len() == 1);
    assert forall|i: int| 0 <= i < n implies r2[#[trigger] p2[i] as int] == r2[i] by {
        if i != lower {
            assert(roots[parent[i] as int] == roots[i]);
        }
    }
    assert forall|i: int| 0 <= i < n && p2[i] != i implies new_rank[#[trigger] p2[i] as int]
        > new_rank[i] by {
        if i != lower {
            assert(rank[parent[i] as int] > rank[i]);
        }
    }
    assert forall|i: int| 0 <= i < n && r2[i] != i implies new_rank[#[trigger] r2[i]]
        > new_rank[i] by {
        if roots[i] == lower {
            if i != lower {
                assert(rank[roots[i]] > rank[i]);
            }
        } else {
            assert(rank[roots[i]] > rank[i]);
        }
    }
    assert forall|i: int| 0 <= i < n implies #[trigger] new_rank[i] + self_roots(r2).len()
        <= n by {
        assert(rank[i] + old_set.len() <= n);
    }
}

/// Attaching root `lower` under root `upper`, where `a` and `b` are linked and lie
/// in the two classes, keeps every class connected.
proof fn lemma_link_classes(
    roots: Seq<int>,
    lower: int,
    upper: int,
    a: int,
    b: int,
    keys: Seq<Seq<usize>>,
)
    requires
        roots.len() == keys.len(),
        lower != upper,
        0 <= a < keys.len(),
        0 <= b < keys.len(),
        (roots[a] == lower && roots[b] == upper) || (roots[a] == upper && roots[b] == lower),
        linked(keys, a, b),
        forall|r: int| #[trigger] linked_set(class_of(roots, r), keys),
    ensures
        forall|r: int| #[trigger] linked_set(class_of(relinked(roots, lower, upper), r), keys),
{
    let new_roots = relinked(roots, lower, upper);
    assert(linked(keys, b, a));
    assert forall|r: int| #[trigger] linked_set(class_of(new_roots, r), keys) by {
        if r == upper {
            assert(class_of(new_roots, r) =~= class_of(roots, lower).union(class_of(roots, upper)));
            assert(linked_set(class_of(roots, lower), keys));
            assert(linked_set(class_of(roots, upper), keys));
            if roots[a] == lower {
                lemma_union_linked(class_of(roots, lower), class_of(roots, upper), a, b, keys);
            } else {
                lemma_union_linked(class_of(roots, lower), class_of(roots, upper), b, a, keys);
            }
        } else if r == lower {
            assert(class_of(new_roots, r) =~= Set::empty());
        } else {
            assert(class_of(new_roots, r) =~= class_of(roots, r));
            assert(linked_set(class_of(roots, r), keys));
        }
    }
}

/// A label whose selection is non-empty is carried by some position.
proof fn lemma_select_witness(keys: Seq<Seq<usize>>, labels: Seq<int>, z: int)
    requires
        labels.len() == keys.len(),
        select(keys, labels, z).len() > 0,
    ensures
        exists|a: int| 0 <= a < keys.len() && labels[a] == z,
    decreases keys.len(),
{
    let last = keys.len() - 1;
    if labels[last] != z {
        lemma_select_witness(keys.drop_last(), labels.drop_last(), z);
        let a = choose|a: int| 0 <= a < keys.len() - 1 && labels.drop_last()[a] == z;
        assert(labels[a] == z);
    }
}

/// Grouping positions by root gives the zones of the keys, whatever way the roots
/// were found: when positions share a label exactly when they share a root, linked
/// positions share a root and every class of positions sharing a root is connected,
/// the grouping is a zoning.
pub proof fn law_root_classes_are_zones(keys: Seq<Seq<usize>>, roots: Seq<int>, labels: Seq<int>, zones: Seq<Seq<Seq<usize>>>)
    requires
        grouped_by(keys, labels, zones),
        roots.len() == keys.len(),
        forall|i: int, j: int|
            0 <= i < keys.len() && 0 <= j < keys.len() ==> (#[trigger] labels[i] == #[trigger] labels[j]
                <==> roots[i] == roots[j]),
        forall|i: int, j: int|
            0 <= i < keys.len() && 0 <= j < keys.len() && #[trigger] linked(keys, i, j) ==> roots[i]
                == roots[j],
        forall|r: int| #[trigger] linked_set(class_of(roots, r), keys),
    ensures
        is_zoning(keys, zones),
{
    assert forall|i: int, j: int|
        0 <= i < keys.len() && 0 <= j < keys.len() && #[trigger] linked(keys, i, j) implies labels[i]
        == labels[j] by {
        assert(roots[i] == roots[j]);
    }
    assert forall|z: int| 0 <= z < zones.len() implies #[trigger] linked_set(label_class(labels, z), keys) by {
        assert(zones[z] == select(keys, labels, z));
        lemma_select_witness(keys, labels, z);
        let a = choose|a: int| 0 <= a < keys.len() && labels[a] == z;
        assert forall|i: int| label_class(labels, z).contains(i) <==> class_of(roots, roots[a]).contains(i) by {
            if 0 <= i < keys.len() {
                assert(labels[i] == labels[a] <==> roots[i] == roots[a]);
            }
        }
        assert(label_class(labels, z) =~= class_of(roots, roots[a]));
        assert(linked_set(class_of(roots, roots[a]), keys));
    }
    assert(zoned_by(keys, labels, zones));
}

/// A position labelled `z` has its key in the selection of `z`.
proof fn lemma_select_contains(keys: Seq<Seq<usize>>, labels: Seq<int>, z: int, p: int)
    requires
        labels.len() == keys.len(),
        0 <= p < keys.len(),
        labels[p] == z,
    ensures
        select(keys, labels, z).contains(keys[p]),
    decreases keys.len(),
{
    let last = keys.len() - 1;
    if p == last {
        let prev = select(keys.drop_last(), labels.drop_last(), z);
        assert(select(keys, labels, z) == prev.push(keys[p]));
        assert(select(keys, labels, z)[prev.len() as int] == keys[p]);
    } else {
        lemma_select_contains(keys.drop_last(), labels.drop_last(), z, p);
        let prev = select(keys.drop_last(), labels.drop_last(), z);
        let t = choose|t: int| 0 <= t < prev.len() && prev[t] == keys[p];
        if labels[last] == z {
            assert(select(keys, labels, z)[t] == keys[p]);
        }
    }
}

/// Every key in the selection of `z` is the key of a position labelled `z`.
proof fn lemma_select_member(keys: Seq<Seq<usize>>, labels: Seq<int>, z: int, k: Seq<usize>)
    requires
        labels.len() == keys.len(),
        select(keys, labels, z).contains(k),
    ensures
        exists|p: int| 0 <= p < keys.len() && labels[p] == z && keys[p] == k,
    decreases keys.len(),
{
    let last = keys.len() - 1;
    let prev = select(keys.drop_last(), labels.drop_last(), z);
    if labels[last] == z && k == keys[last] {
        assert(labels[last] == z && keys[last] == k);
    } else {
        let t = choose|t: int| 0 <= t < select(keys, labels, z).len() && select(keys, labels, z)[t] == k;
        if labels[last] == z {
            assert(t < prev.len());
        }
        assert(prev[t] == k);
        lemma_select_member(keys.drop_last(), labels.drop_last(), z, k);
        let p = choose|p: int| 0 <= p < keys.len() - 1 && labels.drop_last()[p] == z && keys.drop_last()[p] == k;
        assert(labels[p] == z && keys[p] == k);
    }
}

/// Two labellings that mark the same positions select the same keys.
proof fn lemma_select_same_class(keys: Seq<Seq<usize>>, l1: Seq<int>, a: int, l2: Seq<int>, b: int)
    requires
        l1.len() == keys.len(),
        l2.len() == keys.len(),
        forall|i: int| 0 <= i < keys.len() ==> (#[trigger] l1[i] == a) == (l2[i] == b),
    ensures
        select(keys, l1, a) == select(keys, l2, b),
    decreases keys.len(),
{
    if keys.len() > 0 {
        lemma_select_same_class(keys.drop_last(), l1.drop_last(), a, l2.drop_last(), b);
        assert(l1[keys.len() - 1] == a <==> l2[keys.len() - 1] == b);
    }
}

/// In two zonings of the same keys, the positions sharing a zone with `p` in one
/// are those sharing a zone with it in the other.
proof fn lemma_class_within(
    keys: Seq<Seq<usize>>,
    l1: Seq<int>,
    z1: Seq<Seq<Seq<usize>>>,
    l2: Seq<int>,
    z2: Seq<Seq<Seq<usize>>>,
    p: int,
)
    requires
        zoned_by(keys, l1, z1),
        zoned_by(keys, l2, z2),
        0 <= p < keys.len(),
    ensures
        forall|i: int| 0 <= i < keys.len() && l1[i] == l1[p] ==> #[trigger] l2[i] == l2[p],
{
    let c1 = label_class(l1, l1[p]);
    let c2 = label_class(l2, l2[p]);
    let s = c1.intersect(c2);
    assert(0 <= l1[p] < z1.len());
    assert(linked_set(c1, keys));
    if exists|y: int| c1.contains(y) && !s.contains(y) {
        assert(s.subset_of(c1));
        assert(s.contains(p));
        let (x, w) = choose|x: int, w: int|
            #![trigger s.contains(x), s.contains(w)]
            s.contains(x) && c1.contains(w) && !s.contains(w) && linked(keys, x, w);
        assert(l2[x] == l2[w]);
        assert(false);
    }
    assert forall|i: int| 0 <= i < keys.len() && l1[i] == l1[p] implies #[trigger] l2[i] == l2[p] by {
        assert(c1.contains(i));
        assert(s.contains(i));
    }
}

/// The zones of a list of keys are unique up to their order: any two zonings of the
/// same keys hold the same zones, each once.
pub proof fn law_zoning_unique(keys: Seq<Seq<usize>>, z1: Seq<Seq<Seq<usize>>>, z2: Seq<Seq<Seq<usize>>>)
    requires
        is_zoning(keys, z1),
        is_zoning(keys, z2),
    ensures
        z1.no_duplicates(),
        z2.no_duplicates(),
        z1.to_multiset() == z2.to_multiset(),
{
    let l1 = choose|labels: Seq<int>| zoned_by(keys, labels, z1);
    let l2 = choose|labels: Seq<int>| zoned_by(keys, labels, z2);
    lemma_zones_within(keys, l1, z1, l2, z2);
    lemma_zones_within(keys, l2, z2, l1, z1);
    lemma_zones_distinct(keys, l1, z1);
    lemma_zones_distinct(keys, l2, z2);
    z1.unique_seq_to_set();
    z2.unique_seq_to_set();
    assert(z1.to_set() =~= z2.to_set());
    z1.lemma_multiset_has_no_duplicates();
    z2.lemma_multiset_has_no_duplicates();
    broadcast use vstd::seq_lib::group_to_multiset_ensures;
    assert forall|z: Seq<Seq<usize>>| z1.to_multiset().count(z) == z2.to_multiset().count(z) by {
        if z1.contains(z) {
            assert(z2.to_set().contains(z));
        }
        if z2.contains(z) {
            assert(z1.to_set().contains(z));
        }
    }
    assert(z1.to_multiset() =~= z2.to_multiset());
}

/// Every zone of the second zoning is a zone of the first.
proof fn lemma_zones_within(
    keys: Seq<Seq<usize>>,
    l1: Seq<int>,
    z1: Seq<Seq<Seq<usize>>>,
    l2: Seq<int>,
    z2: Seq<Seq<Seq<usize>>>,
)
    requires
        zoned_by(keys, l1, z1),
        zoned_by(keys, l2, z2),
    ensures
        forall|z: int| 0 <= z < z2.len() ==> z1.contains(#[trigger] z2[z]),
{
    assert forall|z: int| 0 <= z < z2.len() implies z1.contains(#[trigger] z2[z]) by {
        assert(z2[z] == select(keys, l2, z));
        lemma_select_witness(keys, l2, z);
        let p = choose|p: int| 0 <= p < keys.len() && l2[p] == z;
        lemma_class_within(keys, l1, z1, l2, z2, p);
        lemma_class_within(keys, l2, z2, l1, z1, p);
        let a = l1[p];
        assert forall|i: int| 0 <= i < keys.len() implies (#[trigger] l1[i] == a) == (l2[i] == z) by {
            if l1[i] == a {
                assert(l2[i] == l2[p]);
            }
            if l2[i] == z {
                assert(l1[i] == l1[p]);
            }
        }
        lemma_select_same_class(keys, l1, a, l2, z);
        assert(0 <= a < z1.len());
        assert(z1[a] == select(keys, l1, a));
    }
}

/// The zones of a zoning are pairwise different.
proof fn lemma_zones_distinct(keys: Seq<Seq<usize>>, labels: Seq<int>, zones: Seq<Seq<Seq<usize>>>)
    requires
        zoned_by(keys, labels, zones),
    ensures
        zones.no_duplicates(),
{
    assert forall|a: int, b: int| 0 <= a < zones.len() && 0 <= b < zones.len() && a != b implies zones[a]
        != zones[b] by {
        assert(zones[a] == select(keys, labels, a));
        assert(zones[b] == select(keys, labels, b));
        lemma_select_witness(keys, labels, a);
        let p = choose|p: int| 0 <= p < keys.len() && labels[p] == a;
        lemma_select_contains(keys, labels, a, p);
        if zones[a] == zones[b] {
            lemma_select_member(keys, labels, b, keys[p]);
            let q = choose|q: int| 0 <= q < keys.len() && labels[q] == b && keys[q] == keys[p];
            assert(linked(keys, p, q));
        }
    }
}

/// Calculator for zones of adjacent regions, using union-find with union by rank
/// and path compression over the positions of the region keys.
///
/// Zones are the groups of regions connected through adjacency (Chebyshev distance
/// 1); equal keys always share a zone.
pub struct ZoneCalculator {
    /// Union-find parent of each position.
    pub parent: Vec<usize>,
    /// Union-find rank of each position.
    pub rank: Vec<usize>,
    /// For each position, the first positions of its existing neighbours.
    pub spatial_index: Vec<Vec<usize>>,
    /// The root of each position.
    pub roots: Ghost<Seq<int>>,
}

impl ZoneCalculator {
    /// The union-find structure over `n` positions is well formed.
    pub open spec fn uf_wf(&self, n: nat) -> bool {
        uf_inv(self.parent@, self.rank@, self.roots@, n)
    }

    /// Every class of positions sharing a root is connected.
    pub open spec fn classes_linked(&self, keys: Seq<Seq<usize>>) -> bool {
        forall|r: int| #[trigger] linked_set(class_of(self.roots@, r), keys)
    }

    /// Positions share a root only when they hold equal keys.
    pub open spec fn joins_only_duplicates(&self, keys: Seq<Seq<usize>>) -> bool {
        forall|i: int, j: int|
            0 <= i < keys.len() && 0 <= j < keys.len() && #[trigger] self.roots@[i] == #[trigger] self.roots@[j]
                ==> keys[i] == keys[j]
    }

    /// Positions holding equal keys share a root.
    pub open spec fn duplicates_joined(&self, keys: Seq<Seq<usize>>) -> bool {
        forall|i: int, j: int|
            0 <= i < keys.len() && 0 <= j < keys.len() && keys[i] == keys[j] ==> #[trigger] self.roots@[i]
                == #[trigger] self.roots@[j]
    }

    /// Creates a new calculator with empty state.
    pub fn new() -> (calculator: Self)
        ensures
            calculator.parent@.len() == 0,
            calculator.rank@.len() == 0,
            calculator.spatial_index@.len() == 0,
            calculator.uf_wf(0),
    {
        let calculator = Self {
            parent: Vec::new(),
            rank: Vec::new(),
            spatial_index: Vec::new(),
            roots: Ghost(Seq::empty()),
        };
        assert(self_roots(calculator.roots@) =~= Set::empty());
        reveal(uf_links);
        calculator
    }

    /// The spatial index has one row per position; every entry is a position whose
    /// key is adjacent to the row's key, and every key adjacent to the row's key
    /// occurs among the entries' keys.
    pub open spec fn spatial_index_ok(&self, keys: Seq<Seq<usize>>) -> bool {
        &&& self.spatial_index@.len() == keys.len()
        &&& forall|i: int, t: int|
            0 <= i < keys.len() && 0 <= t < self.spatial_index@[i]@.len() ==> {
                &&& #[trigger] self.spatial_index@[i]@[t] < keys.len()
                &&& chebyshev_adjacent(keys[i], keys[self.spatial_index@[i]@[t] as int])
            }
        &&& forall|i: int, j: int|
            0 <= i < keys.len() && 0 <= j < keys.len() && #[trigger] chebyshev_adjacent(
                keys[i],
                keys[j],
            ) ==> exists|t: int|
                0 <= t < self.spatial_index@[i]@.len() && keys[#[trigger] self.spatial_index@[i]@[t] as int]
                    == keys[j]
    }

    /// The spatial index has one row per position and lists positions only.
    pub open spec fn index_bounded(&self, n: nat) -> bool {
        &&& self.spatial_index@.len() == n
        &&& forall|a: int, t: int|
            0 <= a < n && 0 <= t < self.spatial_index@[a]@.len() ==> #[trigger] self.spatial_index@[a]@[t] < n
    }

    /// Calculates the zones of `region_keys`: the groups of keys connected through
    /// chains of adjacent keys (Chebyshev distance 1), each zone listing its keys in
    /// input order. Equal keys share a zone.
    pub fn calculate_zones(&mut self, region_keys: &[Vec<usize>]) -> (zones: Vec<Vec<Vec<usize>>>)
        requires
            forall|i: int| 0 <= i < region_keys@.len() ==> key_in_range(#[trigger] region_keys@[i]@),
        ensures
            is_zoning(key_views(region_keys@), zones_view(zones@)),
    {
        let ghost keys = key_views(region_keys@);
        if region_keys.len() == 0 {
            let zones: Vec<Vec<Vec<usize>>> = Vec::new();
            proof {
                let labels = Seq::<int>::empty();
                assert(grouped_by(keys, labels, zones_view(zones@)));
                assert(zoned_by(keys, labels, zones_view(zones@)));
            }
            return zones;
        }
        self.initialize_union_find(region_keys);
        self.build_spatial_index(region_keys);
        self.union_adjacent_regions_optimized(region_keys);
        let ghost roots = self.roots@;
        let ghost index = self.spatial_index@;
        let zones = self.group_regions_by_zone(region_keys);
        proof {
            let n = keys.len();
            assert forall|i: int, j: int|
                0 <= i < n && 0 <= j < n && #[trigger] linked(keys, i, j) implies roots[i] == roots[j] by {
                if keys[i] != keys[j] {
                    let t = choose|t: int|
                        0 <= t < index[i]@.len() && keys[#[trigger] index[i]@[t] as int] == keys[j];
                    let m = index[i]@[t] as int;
                    assert(roots[i] == roots[m]);
                }
            }
            let labels = choose|labels: Seq<int>|
                {
                    &&& grouped_by(keys, labels, zones_view(zones@))
                    &&& forall|i: int, j: int|
                        0 <= i < n && 0 <= j < n ==> (#[trigger] labels[i] == #[trigger] labels[j]
                            <==> roots[i] == roots[j])
                };
            law_root_classes_are_zones(keys, roots, labels, zones_view(zones@));
        }
        zones
    }

    /// Resets the union-find structure so that every position is its own root, then
    /// joins each position holding a key seen earlier to the first position holding
    /// that key.
    pub fn initialize_union_find(&mut self, region_keys: &[Vec<usize>])
        ensures
            final(self).uf_wf(region_keys@.len() as nat),
            final(self).classes_linked(key_views(region_keys@)),
            final(self).duplicates_joined(key_views(region_keys@)),
            final(self).joins_only_duplicates(key_views(region_keys@)),
            final(self).spatial_index@ == old(self).spatial_index@,
    {
        let ghost keys = key_views(region_keys@);
        let ghost n = region_keys@.len() as nat;
        self.parent.clear();
        self.rank.clear();
        let mut i: usize = 0;
        while i < region_keys.len()
            invariant
                n == region_keys@.len(),
                i <= n,
                self.parent@ == Seq::new(i as nat, |t: int| t as usize),
                self.rank@ == Seq::new(i as nat, |t: int| 0usize),
                self.spatial_index@ == old(self).spatial_index@,
            decreases n - i,
        {
            self.parent.push(i);
            self.rank.push(0);
            assert(self.parent@ =~= Seq::new((i + 1) as nat, |t: int| t as usize));
            assert(self.rank@ =~= Seq::new((i + 1) as nat, |t: int| 0usize));
            i = i + 1;
        }
        proof {
            let identity = Seq::new(n, |t: int| t);
            self.roots = Ghost(identity);
            lemma_int_range(0, n as int);
            assert(self_roots(identity) =~= set_int_range(0, n as int));
            reveal(uf_links);
            assert(self.uf_wf(n));
            assert forall|r: int| #[trigger] linked_set(class_of(identity, r), keys) by {
                let c = class_of(identity, r);
                assert forall|s: Set<int>|
                    #![trigger s.subset_of(c)]
                    s.subset_of(c) && (exists|x: int| s.contains(x)) && (exists|y: int|
                        c.contains(y) && !s.contains(y)) implies exists|x: int, y: int|
                    #![trigger s.contains(x), s.contains(y)]
                    s.contains(x) && c.contains(y) && !s.contains(y) && linked(keys, x, y) by {
                    let x = choose|x: int| s.contains(x);
                    let y = choose|y: int| c.contains(y) && !s.contains(y);
                    assert(c.contains(x));
                    assert(x == y);
                }
            }
        }
        let ghost mut firsts: Seq<int> = Seq::empty();
        let mut i: usize = 0;
        while i < region_keys.len()
            invariant
                n == region_keys@.len(),
                keys == key_views(region_keys@),
                i <= n,
                self.uf_wf(n),
                self.classes_linked(keys),
                self.spatial_index@ == old(self).spatial_index@,
                firsts.len() == i,
                forall|a: int|
                    0 <= a < i ==> 0 <= #[trigger] firsts[a] <= a && keys[firsts[a]] == keys[a] && forall|b: int|
                        0 <= b < firsts[a] ==> keys[b] != keys[a],
                forall|a: int| 0 <= a < i ==> self.roots@[a] == self.roots@[#[trigger] firsts[a]],
                self.joins_only_duplicates(keys),
            decreases n - i,
        {
            let found = first_index(region_keys, region_keys[i].as_slice());
            let j = match found {
                Some(j) => j,
                None => i,
            };
            proof {
                assert(keys[i as int] == region_keys@[i as int]@);
            }
            let ghost before = self.roots@;
            if j < i {
                self.union(j, i, Ghost(keys));
            }
            proof {
                assert forall|x: int, y: int|
                    0 <= x < n && 0 <= y < n && #[trigger] self.roots@[x] == #[trigger] self.roots@[y] implies keys[x]
                    == keys[y] by {
                    if before[x] != before[y] {
                        assert(keys[x] == keys[j as int] || keys[x] == keys[i as int]);
                        assert(keys[y] == keys[j as int] || keys[y] == keys[i as int]);
                    }
                }
                firsts = firsts.push(j as int);
                assert forall|a: int| 0 <= a < i + 1 implies self.roots@[a] == self.roots@[#[trigger] firsts[a]] by {
                    if a < i {
                        assert(before[a] == before[firsts[a]]);
                    }
                }
            }
            i = i + 1;
        }
        proof {
            assert forall|a: int, b: int|
                0 <= a < keys.len() && 0 <= b < keys.len() && keys[a] == keys[b] implies #[trigger] self.roots@[a]
                == #[trigger] self.roots@[b] by {
                assert(firsts[a] == firsts[b]) by {
                    if firsts[a] < firsts[b] {
                        assert(keys[firsts[a]] == keys[b]);
                    }
                    if firsts[b] < firsts[a] {
                        assert(keys[firsts[b]] == keys[a]);
                    }
                }
            }
        }
    }

    /// Builds the spatial index: for each position, the first positions of the
    /// existing keys among its potential neighbours.
    pub fn build_spatial_index(&mut self, region_keys: &[Vec<usize>])
        requires
            forall|i: int| 0 <= i < region_keys@.len() ==> key_in_range(#[trigger] region_keys@[i]@),
        ensures
            final(self).spatial_index_ok(key_views(region_keys@)),
            final(self).parent@ == old(self).parent@,
            final(self).rank@ == old(self).rank@,
            final(self).roots@ == old(self).roots@,
    {
        let ghost keys = key_views(region_keys@);
        let ghost n = keys.len();
        self.spatial_index.clear();
        let mut i: usize = 0;
        while i < region_keys.len()
            invariant
                keys == key_views(region_keys@),
                n == keys.len(),
                i <= n,
                forall|a: int| 0 <= a < region_keys@.len() ==> key_in_range(#[trigger] region_keys@[a]@),
                self.parent@ == old(self).parent@,
                self.rank@ == old(self).rank@,
                self.roots@ == old(self).roots@,
                self.spatial_index@.len() == i,
                forall|a: int, t: int|
                    0 <= a < i && 0 <= t < self.spatial_index@[a]@.len() ==> {
                        &&& #[trigger] self.spatial_index@[a]@[t] < n
                        &&& chebyshev_adjacent(keys[a], keys[self.spatial_index@[a]@[t] as int])
                    },
                forall|a: int, j: int|
                    0 <= a < i && 0 <= j < n && #[trigger] chebyshev_adjacent(keys[a], keys[j])
                        ==> exists|t: int|
                        0 <= t < self.spatial_index@[a]@.len() && keys[#[trigger] self.spatial_index@[a]@[t] as int]
                            == keys[j],
            decreases n - i,
        {
            let ghost key = keys[i as int];
            assert(region_keys@[i as int]@ == key);
            let candidates = Self::generate_potential_neighbors(region_keys[i].as_slice());
            let mut existing: Vec<usize> = Vec::new();
            let mut c: usize = 0;
            while c < candidates.len()
                invariant
                    keys == key_views(region_keys@),
                    n == keys.len(),
                    i < n,
                    key == keys[i as int],
                    key == region_keys@[i as int]@,
                    c <= candidates@.len(),
                    key.len() == 0 ==> key_views(candidates@) == seq![Seq::<usize>::empty()],
                    key.len() > 0 ==> forall|cand: Seq<usize>|
                        #[trigger] key_views(candidates@).contains(cand) <==> within_prefix(
                            cand,
                            key,
                            key.len() as int,
                        ) && cand != key,
                    forall|t: int|
                        0 <= t < existing@.len() ==> #[trigger] existing@[t] < n && chebyshev_adjacent(
                            key,
                            keys[existing@[t] as int],
                        ),
                    forall|cc: int, j: int|
                        #![trigger candidates@[cc], keys[j]]
                        0 <= cc < c && 0 <= j < n && keys[j] == candidates@[cc]@ && keys[j]
                            != key ==> exists|t: int|
                            0 <= t < existing@.len() && keys[#[trigger] existing@[t] as int]
                                == keys[j],
                decreases candidates@.len() - c,
            {
                let ghost old_existing = existing@;
                let found = first_index(region_keys, candidates[c].as_slice());
                if let Some(j) = found {
                    if !same_key(candidates[c].as_slice(), region_keys[i].as_slice()) {
                        proof {
                            assert(key_views(candidates@)[c as int] == candidates@[c as int]@);
                            assert(key_views(candidates@).contains(candidates@[c as int]@));
                            if key.len() == 0 {
                                assert(candidates@[c as int]@ == Seq::<usize>::empty());
                                assert(candidates@[c as int]@ =~= key);
                            }
                            lemma_candidate_adjacent(key, candidates@[c as int]@);
                            assert(keys[j as int] == candidates@[c as int]@);
                        }
                        existing.push(j);
                        proof {
                            assert(existing@[existing@.len() - 1] == j);
                        }
                    }
                }
                proof {
                    assert forall|cc: int, j: int|
                        #![trigger candidates@[cc], keys[j]]
                        0 <= cc < c + 1 && 0 <= j < n && keys[j] == candidates@[cc]@ && keys[j]
                            != key implies exists|t: int|
                        0 <= t < existing@.len() && keys[#[trigger] existing@[t] as int] == keys[j] by {
                        if cc < c {
                            let t = choose|t: int|
                                0 <= t < old_existing.len() && keys[#[trigger] old_existing[t] as int]
                                    == keys[j];
                            assert(existing@[t] == old_existing[t]);
                        } else {
                            assert(key_views(region_keys@)[j] == keys[j]);
                            match found {
                                Some(j0) => {
                                    assert(existing@ == old_existing.push(j0));
                                    assert(keys[existing@[old_existing.len() as int] as int] == keys[j]);
                                },
                                None => {
                                    assert(false);
                                },
                            }
                        }
                    }
                }
                c = c + 1;
            }
            proof {
                assert forall|j: int| 0 <= j < n && #[trigger] chebyshev_adjacent(key, keys[j]) implies exists|t: int|
                    0 <= t < existing@.len() && keys[#[trigger] existing@[t] as int] == keys[j] by {
                    let cand = keys[j];
                    assert(key.len() > 0);
                    assert(within_prefix(cand, key, key.len() as int));
                    assert(cand != key);
                    assert(key_views(candidates@).contains(cand));
                    let cc = choose|cc: int| 0 <= cc < key_views(candidates@).len() && key_views(candidates@)[cc] == cand;
                    assert(candidates@[cc]@ == cand);
                }
            }
            let ghost old_index = self.spatial_index@;
            self.spatial_index.push(existing);
            proof {
                assert(self.spatial_index@[i as int] == existing);
                assert forall|a: int, j: int|
                    0 <= a < i + 1 && 0 <= j < n && #[trigger] chebyshev_adjacent(keys[a], keys[j])
                        implies exists|t: int|
                        0 <= t < self.spatial_index@[a]@.len() && keys[#[trigger] self.spatial_index@[a]@[t] as int]
                            == keys[j] by {
                    if a < i {
                        assert(self.spatial_index@[a] == old_index[a]);
                        let t = choose|t: int|
                            0 <= t < old_index[a]@.len() && keys[#[trigger] old_index[a]@[t] as int]
                                == keys[j];
                        assert(self.spatial_index@[a]@[t] == old_index[a]@[t]);
                    } else {
                        let t = choose|t: int|
                            0 <= t < existing@.len() && keys[#[trigger] existing@[t] as int] == keys[j];
                        assert(self.spatial_index@[a]@[t] == existing@[t]);
                    }
                }
            }
            i = i + 1;
        }
    }

    /// Joins every position with the neighbours listed in the spatial index.
    pub fn union_adjacent_regions_optimized(&mut self, region_keys: &[Vec<usize>])
        requires
            old(self).uf_wf(region_keys@.len() as nat),
            old(self).classes_linked(key_views(region_keys@)),
            old(self).duplicates_joined(key_views(region_keys@)),
            old(self).index_bounded(region_keys@.len() as nat),
        ensures
            final(self).uf_wf(region_keys@.len() as nat),
            final(self).classes_linked(key_views(region_keys@)),
            final(self).duplicates_joined(key_views(region_keys@)),
            final(self).spatial_index@ == old(self).spatial_index@,
            forall|i: int, t: int|
                0 <= i < region_keys@.len() && 0 <= t < final(self).spatial_index@[i]@.len()
                    && chebyshev_adjacent(
                    key_views(region_keys@)[i],
                    key_views(region_keys@)[final(self).spatial_index@[i]@[t] as int],
                ) ==> final(self).roots@[i] == final(self).roots@[#[trigger] final(self).spatial_index@[i]@[t] as int],
    {
        let ghost keys = key_views(region_keys@);
        let ghost n = keys.len();
        let mut i: usize = 0;
        while i < region_keys.len()
            invariant
                keys == key_views(region_keys@),
                n == keys.len(),
                i <= n,
                self.uf_wf(n),
                self.classes_linked(keys),
                self.duplicates_joined(keys),
                self.spatial_index@ == old(self).spatial_index@,
                self.index_bounded(n),
                forall|a: int, t: int|
                    0 <= a < i && 0 <= t < self.spatial_index@[a]@.len() && chebyshev_adjacent(
                        keys[a],
                        keys[self.spatial_index@[a]@[t] as int],
                    ) ==> self.roots@[a] == self.roots@[#[trigger] self.spatial_index@[a]@[t] as int],
            decreases n - i,
        {
            let row_len = self.spatial_index[i].len();
            let mut t: usize = 0;
            while t < row_len
                invariant
                    keys == key_views(region_keys@),
                    n == keys.len(),
                    i < n,
                    self.uf_wf(n),
                    self.classes_linked(keys),
                    self.duplicates_joined(keys),
                    self.spatial_index@ == old(self).spatial_index@,
                    self.index_bounded(n),
                    row_len == self.spatial_index@[i as int]@.len(),
                    t <= row_len,
                    forall|a: int, u: int|
                        0 <= a < i && 0 <= u < self.spatial_index@[a]@.len() && chebyshev_adjacent(
                            keys[a],
                            keys[self.spatial_index@[a]@[u] as int],
                        ) ==> self.roots@[a] == self.roots@[#[trigger] self.spatial_index@[a]@[u] as int],
                    forall|u: int|
                        0 <= u < t && chebyshev_adjacent(
                            keys[i as int],
                            keys[self.spatial_index@[i as int]@[u] as int],
                        ) ==> self.roots@[i as int] == self.roots@[#[trigger] self.spatial_index@[i as int]@[u] as int],
                decreases row_len - t,
            {
                let neighbor = self.spatial_index[i][t];
                proof {
                    assert(neighbor < n);
                }
                if Self::are_adjacent(region_keys[i].as_slice(), region_keys[neighbor].as_slice()) {
                    let ghost before = self.roots@;
                    self.union(i, neighbor, Ghost(keys));
                    proof {
                        assert forall|a: int, u: int|
                            0 <= a < i && 0 <= u < self.spatial_index@[a]@.len() && chebyshev_adjacent(
                                keys[a],
                                keys[self.spatial_index@[a]@[u] as int],
                            ) implies self.roots@[a] == self.roots@[#[trigger] self.spatial_index@[a]@[u] as int] by {
                            let m = self.spatial_index@[a]@[u] as int;
                            assert(before[a] == before[m]);
                        }
                        assert forall|u: int|
                            0 <= u < t + 1 && chebyshev_adjacent(
                                keys[i as int],
                                keys[self.spatial_index@[i as int]@[u] as int],
                            ) implies self.roots@[i as int] == self.roots@[#[trigger] self.spatial_index@[i as int]@[u] as int] by {
                            let m = self.spatial_index@[i as int]@[u] as int;
                            if u < t {
                                assert(before[i as int] == before[m]);
                            }
                        }
                        assert forall|a: int, b: int|
                            0 <= a < keys.len() && 0 <= b < keys.len() && keys[a] == keys[b] implies #[trigger] self.roots@[a]
                            == #[trigger] self.roots@[b] by {
                            assert(before[a] == before[b]);
                        }
                    }
                } else {
                    proof {
                        assert(keys[i as int] == region_keys@[i as int]@);
                        assert(keys[neighbor as int] == region_keys@[neighbor as int]@);
                    }
                }
                t = t + 1;
            }
            i = i + 1;
        }
    }

    /// Joins every pair of adjacent positions by comparing all pairs.
    pub fn union_adjacent_regions(&mut self, region_keys: &[Vec<usize>])
        requires
            old(self).uf_wf(region_keys@.len() as nat),
            old(self).classes_linked(key_views(region_keys@)),
            old(self).duplicates_joined(key_views(region_keys@)),
        ensures
            final(self).uf_wf(region_keys@.len() as nat),
            final(self).classes_linked(key_views(region_keys@)),
            final(self).duplicates_joined(key_views(region_keys@)),
            final(self).spatial_index@ == old(self).spatial_index@,
            forall|i: int, j: int|
                0 <= i < region_keys@.len() && 0 <= j < region_keys@.len() && chebyshev_adjacent(
                    key_views(region_keys@)[i],
                    key_views(region_keys@)[j],
                ) ==> #[trigger] final(self).roots@[i] == #[trigger] final(self).roots@[j],
    {
        let ghost keys = key_views(region_keys@);
        let ghost n = keys.len();
        let mut i: usize = 0;
        while i < region_keys.len()
            invariant
                keys == key_views(region_keys@),
                n == keys.len(),
                i <= n,
                self.uf_wf(n),
                self.classes_linked(keys),
                self.duplicates_joined(keys),
                self.spatial_index@ == old(self).spatial_index@,
                forall|a: int, b: int|
                    0 <= a < i && 0 <= b < n && a < b && chebyshev_adjacent(keys[a], keys[b])
                        ==> #[trigger] self.roots@[a] == #[trigger] self.roots@[b],
            decreases n - i,
        {
            let mut j: usize = i + 1;
            while j < region_keys.len()
                invariant
                    keys == key_views(region_keys@),
                    n == keys.len(),
                    i < n,
                    i + 1 <= j <= n,
                    self.uf_wf(n),
                    self.classes_linked(keys),
                    self.duplicates_joined(keys),
                    self.spatial_index@ == old(self).spatial_index@,
                    forall|a: int, b: int|
                        0 <= a < i && 0 <= b < n && a < b && chebyshev_adjacent(keys[a], keys[b])
                            ==> #[trigger] self.roots@[a] == #[trigger] self.roots@[b],
                    forall|b: int|
                        i < b < j && chebyshev_adjacent(keys[i as int], keys[b]) ==> self.roots@[i as int]
                            == #[trigger] self.roots@[b],
                decreases n - j,
            {
                if Self::are_adjacent(region_keys[i].as_slice(), region_keys[j].as_slice()) {
                    let ghost before = self.roots@;
                    self.union(i, j, Ghost(keys));
                    proof {
                        assert forall|a: int, b: int|
                            0 <= a < i && 0 <= b < n && a < b && chebyshev_adjacent(keys[a], keys[b]) implies #[trigger] self.roots@[a]
                            == #[trigger] self.roots@[b] by {
                            assert(before[a] == before[b]);
                        }
                        assert forall|b: int|
                            i < b < j + 1 && chebyshev_adjacent(keys[i as int], keys[b]) implies self.roots@[i as int]
                            == #[trigger] self.roots@[b] by {
                            if b < j {
                                assert(before[i as int] == before[b]);
                            }
                        }
                        assert forall|a: int, b: int|
                            0 <= a < keys.len() && 0 <= b < keys.len() && keys[a] == keys[b] implies #[trigger] self.roots@[a]
                            == #[trigger] self.roots@[b] by {
                            assert(before[a] == before[b]);
                        }
                    }
                }
                j = j + 1;
            }
            i = i + 1;
        }
        proof {
            assert forall|a: int, b: int|
                0 <= a < n && 0 <= b < n && chebyshev_adjacent(keys[a], keys[b]) implies #[trigger] self.roots@[a]
                == #[trigger] self.roots@[b] by {
                if b < a {
                    assert(chebyshev_adjacent(keys[b], keys[a]));
                }
                if a == b {
                    assert(false);
                }
            }
        }
    }

    /// Groups the keys by the root of their position: one zone per root, in order of
    /// first appearance, each listing its keys in input order.
    pub fn group_regions_by_zone(&mut self, region_keys: &[Vec<usize>]) -> (zones: Vec<Vec<Vec<usize>>>)
        requires
            old(self).uf_wf(region_keys@.len() as nat),
        ensures
            final(self).uf_wf(region_keys@.len() as nat),
            final(self).roots@ == old(self).roots@,
            final(self).spatial_index@ == old(self).spatial_index@,
            exists|labels: Seq<int>|
                {
                    &&& grouped_by(key_views(region_keys@), labels, zones_view(zones@))
                    &&& forall|i: int, j: int|
                        0 <= i < region_keys@.len() && 0 <= j < region_keys@.len() ==> (
                        #[trigger] labels[i] == #[trigger] labels[j] <==> old(self).roots@[i]
                            == old(self).roots@[j])
                },
    {
        let ghost n = region_keys@.len() as nat;
        let ghost roots = self.roots@;
        let mut root_of: Vec<usize> = Vec::new();
        let mut i: usize = 0;
        while i < region_keys.len()
            invariant
                n == region_keys@.len(),
                i <= n,
                self.uf_wf(n),
                self.roots@ == roots,
                self.spatial_index@ == old(self).spatial_index@,
                root_of@.len() == i,
                forall|a: int| 0 <= a < i ==> #[trigger] root_of@[a] == roots[a],
            decreases n - i,
        {
            let root = self.find(i, Ghost(n));
            root_of.push(root);
            i = i + 1;
        }
        let zones = group_by_root(region_keys, &root_of);
        proof {
            let labels = choose|labels: Seq<int>|
                {
                    &&& grouped_by(key_views(region_keys@), labels, zones_view(zones@))
                    &&& forall|i: int, j: int|
                        0 <= i < region_keys@.len() && 0 <= j < region_keys@.len() ==> (
                        #[trigger] labels[i] == #[trigger] labels[j] <==> root_of@[i] == root_of@[j])
                };
            assert forall|i: int, j: int|
                0 <= i < region_keys@.len() && 0 <= j < region_keys@.len() implies (
            #[trigger] labels[i] == #[trigger] labels[j] <==> roots[i] == roots[j]) by {
                assert(root_of@[i] == roots[i] && root_of@[j] == roots[j]);
            }
        }
        zones
    }

    /// Returns true if the two keys are adjacent: same number of dimensions and a
    /// Chebyshev distance of exactly 1.
    pub fn are_adjacent(key1: &[usize], key2: &[usize]) -> (adjacent: bool)
        ensures
            adjacent == chebyshev_adjacent(key1@, key2@),
    {
        if key1.len() != key2.len() {
            return false;
        }
        let mut max_diff: usize = 0;
        let mut t: usize = 0;
        while t < key1.len()
            invariant
                key1@.len() == key2@.len(),
                t <= key1@.len(),
                forall|u: int| 0 <= u < t ==> key1@[u] <= key2@[u] + max_diff && key2@[u] <= key1@[u]
                    + max_diff,
                max_diff > 0 ==> exists|u: int|
                    0 <= u < t && (key1@[u] == key2@[u] + max_diff || key2@[u] == key1@[u]
                        + max_diff),
            decreases key1@.len() - t,
        {
            let a = key1[t];
            let b = key2[t];
            let diff = if a > b {
                a - b
            } else {
                b - a
            };
            if diff > max_diff {
                max_diff = diff;
            }
            t = t + 1;
        }
        proof {
            if max_diff == 1 {
                let u = choose|u: int|
                    0 <= u < t && (key1@[u] == key2@[u] + max_diff || key2@[u] == key1@[u]
                        + max_diff);
                assert(key1@[u] != key2@[u]);
            }
            if chebyshev_adjacent(key1@, key2@) {
                let u = choose|u: int| 0 <= u < key1@.len() && key1@[u] != key2@[u];
                if max_diff == 0 {
                    assert(key1@[u] <= key2@[u] && key2@[u] <= key1@[u]);
                }
                if max_diff > 1 {
                    let w = choose|w: int|
                        0 <= w < t && (key1@[w] == key2@[w] + max_diff || key2@[w] == key1@[w]
                            + max_diff);
                    assert(key1@[w] <= key2@[w] + 1 && key2@[w] <= key1@[w] + 1);
                }
            }
        }
        max_diff == 1
    }

    /// Returns every key that differs from `region_key` by at most one in each
    /// dimension, other than `region_key` itself (for the empty key, the empty key).
    /// The candidates are listed with the first dimension varying fastest, each
    /// dimension in the order one lower, unchanged, one higher.
    pub fn generate_potential_neighbors(region_key: &[usize]) -> (neighbors: Vec<Vec<usize>>)
        requires
            key_in_range(region_key@),
        ensures
            region_key@.len() == 0 ==> key_views(neighbors@) == seq![Seq::<usize>::empty()],
            region_key@.len() > 0 ==> key_views(neighbors@) == candidate_grid(
                region_key@,
                region_key@.len(),
            ).filter(differs_from(region_key@)),
            region_key@.len() > 0 ==> forall|c: Seq<usize>|
                #[trigger] key_views(neighbors@).contains(c) <==> within_prefix(
                    c,
                    region_key@,
                    region_key@.len() as int,
                ) && c != region_key@,
    {
        if region_key.len() == 0 {
            let mut only: Vec<Vec<usize>> = Vec::new();
            only.push(Vec::new());
            assert(key_views(only@) =~= seq![Seq::<usize>::empty()]);
            return only;
        }
        let ghost key = region_key@;
        let mut current: Vec<Vec<usize>> = Vec::new();
        current.push(slice_to_vec(region_key));
        proof {
            assert(key_views(current@) =~= candidate_grid(key, 0));
            assert forall|c: Seq<usize>| #[trigger] key_views(current@).contains(c)
                <==> within_prefix(c, key, 0) by {
                if within_prefix(c, key, 0) {
                    assert(c =~= key);
                    assert(key_views(current@)[0] == key);
                }
            }
        }
        let mut dim: usize = 0;
        while dim < region_key.len()
            invariant
                key == region_key@,
                key_in_range(key),
                dim <= key.len(),
                key_views(current@) == candidate_grid(key, dim as nat),
                forall|c: Seq<usize>| #[trigger] key_views(current@).contains(c) <==> within_prefix(
                    c,
                    key,
                    dim as int,
                ),
                forall|u: int| 0 <= u < current@.len() ==> #[trigger] current@[u]@.len() == key.len(),
            decreases key.len() - dim,
        {
            let value = region_key[dim];
            let mut next: Vec<Vec<usize>> = Vec::new();
            if value > 0 {
                append_shifted(&mut next, &current, dim, value - 1);
            }
            let ghost low = key_views(next@);
            append_shifted(&mut next, &current, dim, value);
            append_shifted(&mut next, &current, dim, value + 1);
            proof {
                lemma_extend_dimension(key_views(current@), key, dim as int);
                assert(low == (if key[dim as int] > 0 {
                    shifted(key_views(current@), dim as int, (key[dim as int] - 1) as usize)
                } else {
                    Seq::<Seq<usize>>::empty()
                }));
                assert(key_views(next@) == extended(key_views(current@), key, dim as int));
                assert forall|u: int| 0 <= u < next@.len() implies #[trigger] next@[u]@.len()
                    == key.len() by {
                    assert(key_views(next@)[u] == next@[u]@);
                    assert(key_views(next@).contains(next@[u]@));
                }
            }
            current = next;
            dim = dim + 1;
        }
        let mut neighbors: Vec<Vec<usize>> = Vec::new();
        let ghost other = differs_from(key);
        let mut u: usize = 0;
        while u < current.len()
            invariant
                key == region_key@,
                u <= current@.len(),
                other == differs_from(key),
                key.len() > 0,
                key_views(current@) == candidate_grid(key, key.len()),
                key_views(neighbors@) == key_views(current@.take(u as int)).filter(other),
                forall|c: Seq<usize>| #[trigger] key_views(current@).contains(c) <==> within_prefix(
                    c,
                    key,
                    key.len() as int,
                ),
            decreases current@.len() - u,
        {
            let ghost before = key_views(neighbors@);
            if !same_key(current[u].as_slice(), region_key) {
                neighbors.push(slice_to_vec(current[u].as_slice()));
            }
            proof {
                let taken = key_views(current@.take(u + 1));
                assert(taken.drop_last() =~= key_views(current@.take(u as int)));
                assert(taken.last() == current@[u as int]@);
                reveal(Seq::filter);
                assert(key_views(neighbors@) =~= taken.filter(other));
            }
            u = u + 1;
        }
        proof {
            assert(current@.take(u as int) =~= current@);
            let all = key_views(current@);
            assert forall|c: Seq<usize>|
                #[trigger] key_views(neighbors@).contains(c) <==> within_prefix(
                    c,
                    key,
                    key.len() as int,
                ) && c != key by {
                if key_views(neighbors@).contains(c) {
                    all.lemma_filter_contains_rev(other, c);
                    assert(all.contains(c));
                    let w = choose|w: int| 0 <= w < all.filter(other).len() && all.filter(other)[w] == c;
                    all.lemma_filter_pred(other, w);
                }
                if within_prefix(c, key, key.len() as int) && c != key {
                    assert(all.contains(c));
                    let w = choose|w: int| 0 <= w < all.len() && all[w] == c;
                    assert(other(all[w]));
                    all.lemma_filter_contains(other, w);
                }
            }
        }
        neighbors
    }

    /// Finds the root of `key`, pointing every position on the way directly at it.
    fn find(&mut self, key: usize, Ghost(n): Ghost<nat>) -> (root: usize)
        requires
            old(self).uf_wf(n),
            key < n,
        ensures
            final(self).uf_wf(n),
            root == old(self).roots@[key as int],
            final(self).parent@[root as int] == root,
            root < n,
            forall|i: int| 0 <= i < n && old(self).parent@[i] == i ==> #[trigger] final(self).parent@[i] == i,
            final(self).roots@ == old(self).roots@,
            final(self).rank@ == old(self).rank@,
            final(self).spatial_index@ == old(self).spatial_index@,
    {
        proof {
            reveal(uf_links);
        }
        let mut x = key;
        while self.parent[x] != x
            invariant
                self.uf_wf(n),
                x < n,
                self.roots@[x as int] == self.roots@[key as int],
            decreases n - self.rank@[x as int],
        {
            proof {
                reveal(uf_links);
            }
            x = self.parent[x];
        }
        let root = x;
        let mut y = key;
        while self.parent[y] != y
            invariant
                self.uf_wf(n),
                y < n,
                root < n,
                self.parent@[root as int] == root,
                self.roots@[y as int] == root,
                self.roots@ == old(self).roots@,
                self.rank@ == old(self).rank@,
                self.spatial_index@ == old(self).spatial_index@,
            decreases n - self.rank@[y as int],
        {
            proof {
                reveal(uf_links);
            }
            let next = self.parent[y];
            self.parent.set(y, root);
            y = next;
            proof {
                reveal(uf_links);
                assert(uf_inv(self.parent@, self.rank@, self.roots@, n)) by {
                    assert forall|i: int| 0 <= i < n && self.parent@[i] != i implies self.rank@[#[trigger] self.parent@[i] as int]
                        > self.rank@[i] by {}
                }
            }
        }
        root
    }

    /// Joins the classes of `a` and `b`, attaching the root of smaller rank under the
    /// other (on equal ranks, `a`'s root under `b`'s, whose rank grows).
    #[verifier::rlimit(50)]
    fn union(&mut self, a: usize, b: usize, Ghost(keys): Ghost<Seq<Seq<usize>>>)
        requires
            old(self).uf_wf(keys.len()),
            keys.len() <= usize::MAX,
            a < keys.len(),
            b < keys.len(),
            linked(keys, a as int, b as int),
            old(self).classes_linked(keys),
        ensures
            final(self).uf_wf(keys.len()),
            final(self).classes_linked(keys),
            final(self).roots@[a as int] == final(self).roots@[b as int],
            forall|i: int, j: int|
                0 <= i < keys.len() && 0 <= j < keys.len() && old(self).roots@[i] == old(
                    self,
                ).roots@[j] ==> #[trigger] final(self).roots@[i] == #[trigger] final(self).roots@[j],
            forall|i: int, j: int|
                0 <= i < keys.len() && 0 <= j < keys.len() && #[trigger] final(self).roots@[i]
                    == #[trigger] final(self).roots@[j] ==> old(self).roots@[i] == old(self).roots@[j]
                    || ((old(self).roots@[i] == old(self).roots@[a as int] || old(self).roots@[i] == old(
                    self,
                ).roots@[b as int]) && (old(self).roots@[j] == old(self).roots@[a as int] || old(
                    self,
                ).roots@[j] == old(self).roots@[b as int])),
            final(self).spatial_index@ == old(self).spatial_index@,
    {
        let ghost n = keys.len();
        let root1 = self.find(a, Ghost(n));
        let root2 = self.find(b, Ghost(n));
        if root1 == root2 {
            return;
        }
        let (lower, upper) = if self.rank[root1] <= self.rank[root2] {
            (root1, root2)
        } else {
            (root2, root1)
        };
        let ghost old_parent = self.parent@;
        let ghost old_rank = self.rank@;
        let ghost old_roots = self.roots@;
        proof {
            lemma_rank_room(old_parent, old_rank, old_roots, n, lower as int, upper as int);
        }
        self.parent.set(lower, upper);
        if self.rank[lower] == self.rank[upper] {
            proof {
                lemma_link(old_parent, old_rank, old_roots, n, lower as int, upper as int,
                    old_rank.update(upper as int, (old_rank[upper as int] + 1) as usize));
            }
            let bumped = self.rank[upper] + 1;
            self.rank.set(upper, bumped);
        } else {
            proof {
                lemma_link(old_parent, old_rank, old_roots, n, lower as int, upper as int, old_rank);
            }
        }
        proof {
            lemma_link_classes(old_roots, lower as int, upper as int, a as int, b as int, keys);
            self.roots = Ghost(relinked(old_roots, lower as int, upper as int));
        }
    }
}

/// Groups the keys by the value at their position in `root_of`: one group per
/// value, in order of first appearance, each listing its keys in input order.
fn group_by_root(region_keys: &[Vec<usize>], root_of: &Vec<usize>) -> (zones: Vec<Vec<Vec<usize>>>)
    requires
        root_of@.len() == region_keys@.len(),
    ensures
        exists|labels: Seq<int>|
            {
                &&& grouped_by(key_views(region_keys@), labels, zones_view(zones@))
                &&& forall|i: int, j: int|
                    0 <= i < region_keys@.len() && 0 <= j < region_keys@.len() ==> (
                    #[trigger] labels[i] == #[trigger] labels[j] <==> root_of@[i] == root_of@[j])
            },
{
    let ghost keys = key_views(region_keys@);
    let ghost n = keys.len();
    let mut roots_order: Vec<usize> = Vec::new();
    let ghost mut labels: Seq<int> = Seq::empty();
    let ghost mut witness: Seq<int> = Seq::empty();
    let mut i: usize = 0;
    while i < root_of.len()
        invariant
            n == root_of@.len(),
            i <= n,
            labels.len() == i,
            witness.len() == roots_order@.len(),
            forall|a: int|
                0 <= a < i ==> 0 <= #[trigger] labels[a] < roots_order@.len() && roots_order@[labels[a]]
                    == root_of@[a],
            forall|z: int|
                0 <= z < roots_order@.len() ==> 0 <= #[trigger] witness[z] < i && labels[witness[z]] == z,
            forall|z1: int, z2: int|
                0 <= z1 < roots_order@.len() && 0 <= z2 < roots_order@.len() && z1 != z2
                    ==> #[trigger] roots_order@[z1] != #[trigger] roots_order@[z2],
        decreases n - i,
    {
        let root = root_of[i];
        let mut z: usize = 0;
        while z < roots_order.len() && roots_order[z] != root
            invariant
                z <= roots_order@.len(),
                forall|w: int| 0 <= w < z ==> roots_order@[w] != root,
            decreases roots_order@.len() - z,
        {
            z = z + 1;
        }
        let ghost old_labels = labels;
        let ghost old_witness = witness;
        if z == roots_order.len() {
            roots_order.push(root);
            proof {
                witness = witness.push(i as int);
            }
        }
        proof {
            labels = labels.push(z as int);
            assert forall|w: int| 0 <= w < roots_order@.len() implies 0 <= #[trigger] witness[w] < i + 1
                && labels[witness[w]] == w by {
                if w < old_witness.len() {
                    assert(witness[w] == old_witness[w]);
                    assert(labels[old_witness[w]] == old_labels[old_witness[w]]);
                }
            }
            assert forall|a: int| 0 <= a < i + 1 implies 0 <= #[trigger] labels[a] < roots_order@.len()
                && roots_order@[labels[a]] == root_of@[a] by {
                if a < i {
                    assert(labels[a] == old_labels[a]);
                }
            }
        }
        i = i + 1;
    }
    let mut zones: Vec<Vec<Vec<usize>>> = Vec::new();
    let mut z: usize = 0;
    while z < roots_order.len()
        invariant
            n == region_keys@.len(),
            n == root_of@.len(),
            keys == key_views(region_keys@),
            labels.len() == n,
            forall|a: int|
                0 <= a < n ==> 0 <= #[trigger] labels[a] < roots_order@.len() && roots_order@[labels[a]]
                    == root_of@[a],
            forall|z1: int, z2: int|
                0 <= z1 < roots_order@.len() && 0 <= z2 < roots_order@.len() && z1 != z2
                    ==> #[trigger] roots_order@[z1] != #[trigger] roots_order@[z2],
            z <= roots_order@.len(),
            zones@.len() == z,
            forall|w: int| 0 <= w < z ==> #[trigger] zones_view(zones@)[w] == select(keys, labels, w),
        decreases roots_order@.len() - z,
    {
        let mut zone: Vec<Vec<usize>> = Vec::new();
        let mut a: usize = 0;
        while a < region_keys.len()
            invariant
                n == region_keys@.len(),
                n == root_of@.len(),
                keys == key_views(region_keys@),
                labels.len() == n,
                forall|b: int|
                    0 <= b < n ==> 0 <= #[trigger] labels[b] < roots_order@.len() && roots_order@[labels[b]]
                        == root_of@[b],
                forall|z1: int, z2: int|
                    0 <= z1 < roots_order@.len() && 0 <= z2 < roots_order@.len() && z1 != z2
                        ==> #[trigger] roots_order@[z1] != #[trigger] roots_order@[z2],
                z < roots_order@.len(),
                a <= n,
                key_views(zone@) == select(keys.take(a as int), labels.take(a as int), z as int),
            decreases n - a,
        {
            if root_of[a] == roots_order[z] {
                zone.push(slice_to_vec(region_keys[a].as_slice()));
            }
            proof {
                let k2 = keys.take(a + 1);
                let l2 = labels.take(a + 1);
                assert(k2.drop_last() =~= keys.take(a as int));
                assert(l2.drop_last() =~= labels.take(a as int));
                assert((labels[a as int] == z) == (root_of@[a as int] == roots_order@[z as int]));
                assert(keys[a as int] == region_keys@[a as int]@);
                assert(key_views(zone@) =~= select(k2, l2, z as int));
            }
            a = a + 1;
        }
        proof {
            assert(keys.take(n as int) =~= keys);
            assert(labels.take(n as int) =~= labels);
        }
        let ghost before = zones@;
        zones.push(zone);
        proof {
            assert forall|w: int| 0 <= w < z + 1 implies #[trigger] zones_view(zones@)[w] == select(
                keys,
                labels,
                w,
            ) by {
                assert(zones_view(zones@)[w] == key_views(zones@[w]@));
                if w < z {
                    assert(zones@[w] == before[w]);
                    assert(zones_view(before)[w] == key_views(before[w]@));
                }
            }
        }
        z = z + 1;
    }
    proof {
        assert forall|w: int| 0 <= w < zones_view(zones@).len() implies #[trigger] zones_view(zones@)[w].len() > 0 by {
            lemma_select_nonempty(keys, labels, w, witness[w]);
        }
        assert forall|a: int, b: int| 0 <= a < n && 0 <= b < n implies (#[trigger] labels[a]
            == #[trigger] labels[b] <==> root_of@[a] == root_of@[b]) by {
            if root_of@[a] == root_of@[b] && labels[a] != labels[b] {
                assert(roots_order@[labels[a]] != roots_order@[labels[b]]);
            }
        }
        assert(grouped_by(keys, labels, zones_view(zones@)));
    }
    zones
}

/// Returns the first position whose key equals `key`, if any.
fn first_index(region_keys: &[Vec<usize>], key: &[usize]) -> (found: Option<usize>)
    ensures
        found matches Some(j) ==> j < region_keys@.len() && key_views(region_keys@)[j as int] == key@
            && forall|b: int| 0 <= b < j ==> key_views(region_keys@)[b] != key@,
        found is None ==> forall|b: int|
            0 <= b < region_keys@.len() ==> key_views(region_keys@)[b] != key@,
{
    let mut j: usize = 0;
    while j < region_keys.len()
        invariant
            j <= region_keys@.len(),
            forall|b: int| 0 <= b < j ==> key_views(region_keys@)[b] != key@,
        decreases region_keys@.len() - j,
    {
        if same_key(region_keys[j].as_slice(), key) {
            return Some(j);
        }
        j = j + 1;
    }
    None
}

/// Appends every vector of `current` with dimension `dim` set to `value`.
fn append_shifted(next: &mut Vec<Vec<usize>>, current: &Vec<Vec<usize>>, dim: usize, value: usize)
    requires
        forall|u: int| 0 <= u < current@.len() ==> dim < #[trigger] current@[u]@.len(),
    ensures
        key_views(final(next)@) == key_views(old(next)@) + shifted(key_views(current@), dim as int, value),
{
    let ghost start = key_views(next@);
    let mut u: usize = 0;
    while u < current.len()
        invariant
            u <= current@.len(),
            forall|w: int| 0 <= w < current@.len() ==> dim < #[trigger] current@[w]@.len(),
            key_views(next@) == start + shifted(key_views(current@.take(u as int)), dim as int, value),
        decreases current@.len() - u,
    {
        let ghost old_next = key_views(next@);
        let mut q = slice_to_vec(current[u].as_slice());
        q.set(dim, value);
        assert(q@ == current@[u as int]@.update(dim as int, value));
        next.push(q);
        assert(key_views(next@) =~= old_next.push(q@));
        assert(key_views(current@.take(u + 1)) =~= key_views(current@.take(u as int)).push(
            current@[u as int]@,
        ));
        assert(shifted(key_views(current@.take(u + 1)), dim as int, value) =~= shifted(
            key_views(current@.take(u as int)),
            dim as int,
            value,
        ).push(q@));
        assert(key_views(next@) =~= start + shifted(key_views(current@.take(u + 1)), dim as int, value));
        u = u + 1;
    }
    assert(current@.take(u as int) =~= current@);
}

/// Compares two keys element by element.
fn same_key(a: &[usize], b: &[usize]) -> (same: bool)
    ensures
        same == (a@ == b@),
{
    if a.len() != b.len() {
        return false;
    }
    let mut i: usize = 0;
    while i < a.len()
        invariant
            a@.len() == b@.len(),
            i <= a@.len(),
            forall|j: int| 0 <= j < i ==> a@[j] == b@[j],
        decreases a@.len() - i,
    {
        if a[i] != b[i] {
            return false;
        }
        i = i + 1;
    }
    assert(a@ =~= b@);
    true
}

impl Default for ZoneCalculator {
    fn default() -> (calculator: Self)
        ensures
            calculator.uf_wf(0),
    {
        Self::new()
    }
}

} // verus!
