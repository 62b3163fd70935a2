use vstd::prelude::*;
use vstd::slice::slice_to_vec;

verus! {

/// Compact handle for a region of the n-dimensional grid: a unique identifier and
/// the identifier of the adjacency zone that the region belongs to.
#[derive(Debug, Clone, Copy, PartialEq, Eq, Structural)]
pub struct RegionHandle {
    id: usize,
    adjacent_zone_id: usize,
}

impl RegionHandle {
    pub closed spec fn spec_new(id: usize, adjacent_zone_id: usize) -> RegionHandle {
        RegionHandle { id, adjacent_zone_id }
    }

    pub closed spec fn spec_id(&self) -> usize {
        self.id
    }

    pub closed spec fn spec_adjacent_zone_id(&self) -> usize {
        self.adjacent_zone_id
    }

    /// Creates a handle with the given identifier and zone.
    #[verifier::when_used_as_spec(spec_new)]
    pub fn new(id: usize, adjacent_zone_id: usize) -> (handle: Self)
        ensures
            handle.id() == id,
            handle.adjacent_zone_id() == adjacent_zone_id,
            handle == RegionHandle::spec_new(id, adjacent_zone_id),
    {
        Self { id, adjacent_zone_id }
    }

    /// Returns the unique identifier of the region.
    #[verifier::when_used_as_spec(spec_id)]
    pub fn id(&self) -> (id: usize)
        ensures
            id == self.spec_id(),
    {
        self.id
    }

    /// Returns the identifier of the adjacency zone of the region.
    #[verifier::when_used_as_spec(spec_adjacent_zone_id)]
    pub fn adjacent_zone_id(&self) -> (zone: usize)
        ensures
            zone == self.spec_adjacent_zone_id(),
    {
        self.adjacent_zone_id
    }
}

/// A handle made from an identifier and a zone has that identifier and that zone,
/// and every handle is the one made from its own identifier and zone.
pub proof fn law_handle_fields(id: usize, adjacent_zone_id: usize, handle: RegionHandle)
    ensures
        RegionHandle::new(id, adjacent_zone_id).id() == id,
        RegionHandle::new(id, adjacent_zone_id).adjacent_zone_id() == adjacent_zone_id,
        RegionHandle::new(handle.id(), handle.adjacent_zone_id()) == handle,
{
}

/// A compact pair of keys: one that uniquely maps to a full region key, and one
/// that identifies a connected zone of regions.
#[derive(Debug, Clone, Copy)]
#[allow(dead_code)]
pub struct RegionKey {
    key: usize,
    adjacent_zone_key: usize,
}

/// The smallest element of a sequence of zone identifiers (0 for an empty one).
pub open spec fn seq_min(zones: Seq<usize>) -> usize
    decreases zones.len(),
{
    if zones.len() == 0 {
        0
    } else if zones.len() == 1 {
        zones[0]
    } else {
        let rest = seq_min(zones.drop_last());
        if zones.last() < rest {
            zones.last()
        } else {
            rest
        }
    }
}

/// Relabels every handle whose zone occurs in `zones` to the smallest of `zones`,
/// keeping its identifier; other handles are unchanged.
pub open spec fn relabel_zones(
    map: Map<Seq<usize>, RegionHandle>,
    zones: Seq<usize>,
) -> Map<Seq<usize>, RegionHandle> {
    map.map_values(
        |h: RegionHandle|
            if zones.contains(h.adjacent_zone_id()) {
                RegionHandle::new(h.id(), seq_min(zones))
            } else {
                h
            },
    )
}

/// The candidate keys that differ from `key` by one step in one of the first
/// `dims` dimensions and are present, in dimension order, the step down before the
/// step up; a step that would leave the range of `usize` is not taken.
pub open spec fn existing_neighbors(present: Set<Seq<usize>>, key: Seq<usize>, dims: nat) -> Seq<
    Seq<usize>,
>
    decreases dims,
{
    if dims == 0 {
        seq![]
    } else {
        let i = dims - 1;
        let below = key.update(i, (key[i] - 1) as usize);
        let above = key.update(i, (key[i] + 1) as usize);
        existing_neighbors(present, key, (dims - 1) as nat) + (if key[i] > 0 && present.contains(
            below,
        ) {
            seq![below]
        } else {
            seq![]
        }) + (if key[i] < usize::MAX && present.contains(above) {
            seq![above]
        } else {
            seq![]
        })
    }
}

/// `a` and `b` have the same number of dimensions and differ by exactly one step in
/// exactly one of them.
pub open spec fn axis_neighbors(a: Seq<usize>, b: Seq<usize>) -> bool {
    &&& a.len() == b.len()
    &&& exists|i: int|
        0 <= i < a.len() && (b[i] == a[i] + 1 || a[i] == b[i] + 1) && forall|j: int|
            0 <= j < a.len() && j != i ==> a[j] == b[j]
}

/// Every two present keys that are axis neighbours lie in the same zone.
pub open spec fn zones_consistent(map: Map<Seq<usize>, RegionHandle>) -> bool {
    forall|a: Seq<usize>, b: Seq<usize>|
        #[trigger] axis_neighbors(a, b) && map.contains_key(a) && map.contains_key(b) ==> map[a].adjacent_zone_id()
            == map[b].adjacent_zone_id()
}

/// Every handle has an identifier below `next_id`, and no two keys share one.
pub open spec fn ids_unique_below(map: Map<Seq<usize>, RegionHandle>, next_id: usize) -> bool {
    &&& forall|k: Seq<usize>| #[trigger] map.contains_key(k) ==> map[k].id() < next_id
    &&& forall|a: Seq<usize>, b: Seq<usize>|
        #[trigger] map.contains_key(a) && #[trigger] map.contains_key(b) && a != b ==> map[a].id()
            != map[b].id()
}

/// Every handle has a zone identifier below `next_zone`.
pub open spec fn zones_below(map: Map<Seq<usize>, RegionHandle>, next_zone: usize) -> bool {
    forall|k: Seq<usize>| #[trigger] map.contains_key(k) ==> map[k].adjacent_zone_id() < next_zone
}

/// The map that results from inserting the pairs in order, a later pair for a key
/// replacing an earlier one.
pub open spec fn pairs_to_map(pairs: Seq<(Seq<usize>, RegionHandle)>) -> Map<
    Seq<usize>,
    RegionHandle,
>
    decreases pairs.len(),
{
    if pairs.len() == 0 {
        Map::empty()
    } else {
        pairs_to_map(pairs.drop_last()).insert(pairs.last().0, pairs.last().1)
    }
}

/// Manages compact handles for regions of an n-dimensional grid: maps full region
/// keys to handles with unique identifiers, and keeps track of which regions form
/// adjacency-connected zones.
pub struct RegionHandleDispenser {
    keys: Vec<Vec<usize>>,
    handles: Vec<RegionHandle>,
    next_id: usize,
    next_adjacent_zone_id: usize,
}

impl View for RegionHandleDispenser {
    type V = Map<Seq<usize>, RegionHandle>;

    closed spec fn view(&self) -> Map<Seq<usize>, RegionHandle> {
        Map::new(
            |k: Seq<usize>| exists|i: int| 0 <= i < self.keys@.len() && self.key_at(i) == k,
            |k: Seq<usize>|
                self.handle_at(
                    choose|i: int| 0 <= i < self.keys@.len() && self.key_at(i) == k,
                ),
        )
    }
}

impl RegionHandleDispenser {
    closed spec fn key_at(&self, i: int) -> Seq<usize> {
        self.keys@[i]@
    }

    closed spec fn handle_at(&self, i: int) -> RegionHandle {
        self.handles@[i]
    }

    /// Every stored key has one handle, and the stored keys are distinct.
    pub closed spec fn wf(&self) -> bool {
        &&& self.keys@.len() == self.handles@.len()
        &&& forall|i: int, j: int|
            0 <= i < self.keys@.len() && 0 <= j < self.keys@.len() && i != j
                ==> #[trigger] self.key_at(i) != #[trigger] self.key_at(j)
    }

    pub closed spec fn spec_next_id(&self) -> usize {
        self.next_id
    }

    pub closed spec fn spec_next_adjacent_zone_id(&self) -> usize {
        self.next_adjacent_zone_id
    }

    proof fn lemma_view_at(&self, i: int)
        requires
            self.wf(),
            0 <= i < self.keys@.len(),
        ensures
            self@.contains_key(self.key_at(i)),
            self@[self.key_at(i)] == self.handle_at(i),
    {
        let k = self.key_at(i);
        assert(exists|j: int| 0 <= j < self.keys@.len() && self.key_at(j) == k);
        let j = choose|j: int| 0 <= j < self.keys@.len() && self.key_at(j) == k;
        assert(j == i);
    }

    /// Two dispensers with the same keys and handles have the same view.
    proof fn lemma_same_entries(&self, other: &Self)
        requires
            self.wf(),
            self.keys@.len() == other.keys@.len(),
            self.handles@ == other.handles@,
            forall|a: int| 0 <= a < self.keys@.len() ==> #[trigger] self.keys@[a]@ == other.keys@[a]@,
        ensures
            other.wf(),
            other@ == self@,
    {
        assert forall|a: int| 0 <= a < self.keys@.len() implies #[trigger] other.key_at(a)
            == self.key_at(a) by {}
        assert forall|i: int, j: int|
            0 <= i < other.keys@.len() && 0 <= j < other.keys@.len() && i != j implies #[trigger] other.key_at(
                i,
            ) != #[trigger] other.key_at(j) by {
            assert(self.key_at(i) != self.key_at(j));
        }
        assert forall|k: Seq<usize>|
            #![trigger other@.contains_key(k)]
            other@.contains_key(k) == self@.contains_key(k) && (other@.contains_key(k)
                ==> other@[k] == self@[k]) by {
            if self@.contains_key(k) {
                let j = choose|j: int| 0 <= j < self.keys@.len() && self.key_at(j) == k;
                self.lemma_view_at(j);
                other.lemma_view_at(j);
            }
            if other@.contains_key(k) {
                let j = choose|j: int| 0 <= j < other.keys@.len() && other.key_at(j) == k;
                assert(self.key_at(j) == k);
            }
        }
        assert(other@ =~= self@);
    }

    proof fn lemma_view_absent(&self, k: Seq<usize>)
        requires
            forall|i: int| 0 <= i < self.keys@.len() ==> self.key_at(i) != k,
        ensures
            !self@.contains_key(k),
    {
    }

    /// Creates an empty dispenser with both counters at zero.
    pub fn new() -> (dispenser: Self)
        ensures
            dispenser.wf(),
            dispenser@ == Map::<Seq<usize>, RegionHandle>::empty(),
            dispenser.next_id() == 0,
            dispenser.next_adjacent_zone_id() == 0,
    {
        let d = Self { keys: Vec::new(), handles: Vec::new(), next_id: 0, next_adjacent_zone_id: 0 };
        assert(d@ =~= Map::<Seq<usize>, RegionHandle>::empty());
        d
    }

    /// Creates a dispenser holding the given pairs (a later pair for a key replaces
    /// an earlier one) and the given counters.
    pub fn from_parts(
        pairs: Vec<(Vec<usize>, RegionHandle)>,
        next_id: usize,
        next_adjacent_zone_id: usize,
    ) -> (dispenser: Self)
        ensures
            dispenser.wf(),
            dispenser@ == pairs_to_map(pairs@.map_values(|p: (Vec<usize>, RegionHandle)| (p.0@, p.1))),
            dispenser.next_id() == next_id,
            dispenser.next_adjacent_zone_id() == next_adjacent_zone_id,
    {
        let mut d = Self::new();
        let ghost spec_pairs = pairs@.map_values(|p: (Vec<usize>, RegionHandle)| (p.0@, p.1));
        let mut i: usize = 0;
        while i < pairs.len()
            invariant
                i <= pairs@.len(),
                d.wf(),
                spec_pairs == pairs@.map_values(|p: (Vec<usize>, RegionHandle)| (p.0@, p.1)),
                d@ == pairs_to_map(spec_pairs.take(i as int)),
                d.next_id == 0,
                d.next_adjacent_zone_id == 0,
            decreases pairs@.len() - i,
        {
            assert(spec_pairs.take(i + 1).drop_last() =~= spec_pairs.take(i as int));
            let key = slice_to_vec(pairs[i].0.as_slice());
            d.insert(key, pairs[i].1);
            i = i + 1;
        }
        assert(spec_pairs.take(i as int) =~= spec_pairs);
        let result = Self { keys: d.keys, handles: d.handles, next_id, next_adjacent_zone_id };
        assert(forall|a: int| #[trigger] result.key_at(a) == d.key_at(a));
        assert(forall|a: int| #[trigger] result.handle_at(a) == d.handle_at(a));
        assert forall|k: Seq<usize>|
            #![trigger result@.contains_key(k)]
            result@.contains_key(k) == d@.contains_key(k) && (result@.contains_key(k)
                ==> result@[k] == d@[k]) by {
            if d@.contains_key(k) {
                let j = choose|j: int| 0 <= j < d.keys@.len() && d.key_at(j) == k;
                d.lemma_view_at(j);
                result.lemma_view_at(j);
            }
        }
        assert(result@ =~= d@);
        result
    }

    /// Maps `key` to `handle`, replacing any handle it had.
    fn insert(&mut self, key: Vec<usize>, handle: RegionHandle)
        requires
            old(self).wf(),
        ensures
            final(self).wf(),
            final(self)@ == old(self)@.insert(key@, handle),
            final(self).next_id == old(self).next_id,
            final(self).next_adjacent_zone_id == old(self).next_adjacent_zone_id,
    {
        let ghost old_self = *self;
        match self.find_index(key.as_slice()) {
            Some(i) => {
                self.handles.set(i, handle);
                proof {
                    assert forall|a: int| 0 <= a < self.keys@.len() implies #[trigger] self.key_at(
                        a,
                    ) == old_self.key_at(a) by {}
                    assert forall|k: Seq<usize>|
                        #![trigger self@.contains_key(k)]
                        self@.contains_key(k) == old_self@.insert(key@, handle).contains_key(k)
                        && (self@.contains_key(k) ==> self@[k] == old_self@.insert(
                            key@,
                            handle,
                        )[k]) by {
                        if k == key@ {
                            self.lemma_view_at(i as int);
                            old_self.lemma_view_at(i as int);
                        } else if old_self@.contains_key(k) {
                            let j = choose|j: int|
                                0 <= j < old_self.keys@.len() && old_self.key_at(j) == k;
                            old_self.lemma_view_at(j);
                            self.lemma_view_at(j);
                        }
                    }
                    assert(self@ =~= old_self@.insert(key@, handle));
                }
            },
            None => {
                self.keys.push(key);
                self.handles.push(handle);
                proof {
                    let n = old_self.keys@.len() as int;
                    assert forall|a: int| 0 <= a < n implies #[trigger] self.key_at(a)
                        == old_self.key_at(a) && self.handle_at(a) == old_self.handle_at(a) by {}
                    assert forall|k: Seq<usize>|
                        #![trigger self@.contains_key(k)]
                        self@.contains_key(k) == old_self@.insert(key@, handle).contains_key(k)
                        && (self@.contains_key(k) ==> self@[k] == old_self@.insert(
                            key@,
                            handle,
                        )[k]) by {
                        if k == key@ {
                            self.lemma_view_at(n);
                        } else if old_self@.contains_key(k) {
                            let j = choose|j: int|
                                0 <= j < old_self.keys@.len() && old_self.key_at(j) == k;
                            old_self.lemma_view_at(j);
                            self.lemma_view_at(j);
                        } else {
                            if self@.contains_key(k) {
                                let j = choose|j: int|
                                    0 <= j < self.keys@.len() && self.key_at(j) == k;
                                assert(j < n);
                                assert(old_self.key_at(j) == k);
                            }
                        }
                    }
                    assert(self@ =~= old_self@.insert(key@, handle));
                }
            },
        }
    }

    /// Returns the position of `key` among the stored keys, if it is stored.
    fn find_index(&self, key: &[usize]) -> (index: Option<usize>)
        ensures
            index matches Some(i) ==> i < self.keys@.len() && self.key_at(i as int) == key@,
            index is None ==> forall|i: int|
                0 <= i < self.keys@.len() ==> self.key_at(i) != key@,
    {
        let mut i: usize = 0;
        while i < self.keys.len()
            invariant
                i <= self.keys@.len(),
                forall|j: int| 0 <= j < i ==> self.key_at(j) != key@,
            decreases self.keys@.len() - i,
        {
            if same_key(self.keys[i].as_slice(), key) {
                return Some(i);
            }
            i = i + 1;
        }
        None
    }

    /// Returns the handle stored for `key`, if any.
    pub fn get(&self, key: &[usize]) -> (handle: Option<RegionHandle>)
        requires
            self.wf(),
        ensures
            handle == (if self@.contains_key(key@) {
                Some(self@[key@])
            } else {
                None
            }),
    {
        match self.find_index(key) {
            Some(i) => {
                proof {
                    self.lemma_view_at(i as int);
                }
                Some(self.handles[i])
            },
            None => {
                proof {
                    self.lemma_view_absent(key@);
                }
                None
            },
        }
    }

    /// Returns true if `key` is stored.
    pub fn contains_key(&self, key: &[usize]) -> (found: bool)
        requires
            self.wf(),
        ensures
            found == self@.contains_key(key@),
    {
        self.get(key).is_some()
    }

    /// Returns the number of stored keys.
    pub fn len(&self) -> (len: usize)
        requires
            self.wf(),
        ensures
            len == self@.len(),
    {
        proof {
            self.lemma_len();
        }
        self.keys.len()
    }

    /// Returns true if no key is stored.
    pub fn is_empty(&self) -> (empty: bool)
        requires
            self.wf(),
        ensures
            empty == (self@.len() == 0),
    {
        proof {
            self.lemma_len();
        }
        self.keys.len() == 0
    }

    proof fn lemma_len(&self)
        requires
            self.wf(),
        ensures
            self@.dom().finite(),
            self@.len() == self.keys@.len(),
        decreases self.keys@.len(),
    {
        let keys = Seq::new(self.keys@.len(), |i: int| self.key_at(i));
        assert(keys.no_duplicates()) by {
            assert forall|i: int, j: int|
                0 <= i < keys.len() && 0 <= j < keys.len() && i != j implies keys[i] != keys[j] by {
                assert(self.key_at(i) != self.key_at(j));
            }
        }
        assert(self@.dom() =~= keys.to_set()) by {
            assert forall|k: Seq<usize>| self@.dom().contains(k) implies keys.to_set().contains(
                k,
            ) by {
                let i = choose|i: int| 0 <= i < self.keys@.len() && self.key_at(i) == k;
                assert(keys[i] == k);
            }
            assert forall|k: Seq<usize>| keys.to_set().contains(k) implies self@.dom().contains(
                k,
            ) by {
                let i = choose|i: int| 0 <= i < keys.len() && keys[i] == k;
                assert(self.key_at(i) == k);
            }
        }
        keys.unique_seq_to_set();
    }

    /// Returns the present keys that differ from `full_region_key` by one step in
    /// exactly one dimension, in dimension order, the step down before the step up.
    pub fn get_adjacent_full_keys(&self, full_region_key: &[usize]) -> (neighbors: Vec<Vec<usize>>)
        requires
            self.wf(),
        ensures
            neighbors@.map_values(|v: Vec<usize>| v@) == existing_neighbors(
                self@.dom(),
                full_region_key@,
                full_region_key@.len(),
            ),
    {
        let mut result: Vec<Vec<usize>> = Vec::new();
        let mut i: usize = 0;
        while i < full_region_key.len()
            invariant
                self.wf(),
                i <= full_region_key@.len(),
                result@.map_values(|v: Vec<usize>| v@) == existing_neighbors(
                    self@.dom(),
                    full_region_key@,
                    i as nat,
                ),
            decreases full_region_key@.len() - i,
        {
            let ghost before = result@.map_values(|v: Vec<usize>| v@);
            let val = full_region_key[i];
            let ghost below = full_region_key@.update(i as int, (val - 1) as usize);
            let ghost above = full_region_key@.update(i as int, (val + 1) as usize);
            let ghost low_part = if val > 0 && self@.dom().contains(below) {
                seq![below]
            } else {
                seq![]
            };
            let ghost high_part = if val < usize::MAX && self@.dom().contains(above) {
                seq![above]
            } else {
                seq![]
            };
            if val > 0 {
                let mut neighbor = slice_to_vec(full_region_key);
                neighbor.set(i, val - 1);
                assert(neighbor@ =~= below);
                if self.contains_key(neighbor.as_slice()) {
                    result.push(neighbor);
                }
            }
            assert(result@.map_values(|v: Vec<usize>| v@) =~= before + low_part);
            let ghost middle = result@.map_values(|v: Vec<usize>| v@);
            if let Some(vp1) = val.checked_add(1) {
                let mut neighbor = slice_to_vec(full_region_key);
                neighbor.set(i, vp1);
                assert(neighbor@ =~= above);
                if self.contains_key(neighbor.as_slice()) {
                    result.push(neighbor);
                }
            }
            assert(result@.map_values(|v: Vec<usize>| v@) =~= middle + high_part);
            assert(existing_neighbors(self@.dom(), full_region_key@, (i + 1) as nat) == before
                + low_part + high_part);
            i = i + 1;
        }
        result
    }

    /// Merges all the given zones into one: every handle whose zone is among
    /// `zones_to_merge` gets the smallest of them, keeping its identifier. Fewer than
    /// two distinct zones leave everything unchanged.
    pub fn merge_zones(&mut self, zones_to_merge: Vec<usize>)
        requires
            old(self).wf(),
        ensures
            final(self).wf(),
            final(self)@ == relabel_zones(old(self)@, zones_to_merge@),
            final(self)@.dom() == old(self)@.dom(),
            forall|k: Seq<usize>| #[trigger]
                old(self)@.contains_key(k) ==> final(self)@[k].id() == old(self)@[k].id()
                    && final(self)@[k].adjacent_zone_id() == if zones_to_merge@.contains(
                    old(self)@[k].adjacent_zone_id(),
                ) {
                    seq_min(zones_to_merge@)
                } else {
                    old(self)@[k].adjacent_zone_id()
                },
            (forall|t: int|
                0 <= t < zones_to_merge@.len() ==> #[trigger] zones_to_merge@[t] == zones_to_merge@[0])
                ==> final(self)@ == old(self)@,
            zones_to_merge@.len() > 0 ==> zones_to_merge@.contains(seq_min(zones_to_merge@))
                && forall|t: int|
                0 <= t < zones_to_merge@.len() ==> seq_min(zones_to_merge@) <= #[trigger] zones_to_merge@[t],
            final(self).next_id() == old(self).next_id(),
            final(self).next_adjacent_zone_id() == old(self).next_adjacent_zone_id(),
            zones_consistent(old(self)@) ==> zones_consistent(final(self)@),
            ids_unique_below(old(self)@, old(self).next_id()) ==> ids_unique_below(
                final(self)@,
                final(self).next_id(),
            ),
    {
        proof {
            law_merge_keeps_ids_and_zones(self@, zones_to_merge@, self.next_id, self.next_adjacent_zone_id);
            if zones_to_merge@.len() > 0 {
                law_seq_min(zones_to_merge@);
            }
        }
        if zones_to_merge.len() < 2 {
            proof {
                if zones_to_merge@.len() == 1 {
                    assert(zones_to_merge@[0] == seq_min(zones_to_merge@));
                }
                lemma_relabel_identity(self@, zones_to_merge@);
            }
            return;
        }
        let canonical = min_zone(&zones_to_merge);
        if !has_other_zone(&zones_to_merge, canonical) {
            proof {
                lemma_relabel_identity(self@, zones_to_merge@);
            }
            return;
        }
        let ghost old_self = *self;
        let mut i: usize = 0;
        while i < self.handles.len()
            invariant
                old_self.wf(),
                self.keys@ == old_self.keys@,
                self.handles@.len() == old_self.handles@.len(),
                self.next_id == old_self.next_id,
                self.next_adjacent_zone_id == old_self.next_adjacent_zone_id,
                canonical == seq_min(zones_to_merge@),
                i <= self.handles@.len(),
                forall|j: int|
                    0 <= j < i ==> #[trigger] self.handles@[j] == (if zones_to_merge@.contains(
                        old_self.handles@[j].adjacent_zone_id(),
                    ) {
                        RegionHandle::new(old_self.handles@[j].id(), canonical)
                    } else {
                        old_self.handles@[j]
                    }),
                forall|j: int| i <= j < self.handles@.len() ==> #[trigger] self.handles@[j] == old_self.handles@[j],
            decreases self.handles@.len() - i,
        {
            let handle = self.handles[i];
            let zone = handle.adjacent_zone_id();
            if zone != canonical && zone_listed(&zones_to_merge, zone) {
                let id = handle.id();
                self.handles.set(i, RegionHandle::new(id, canonical));
            } else {
                proof {
                    if zones_to_merge@.contains(zone) {
                        assert(RegionHandle::new(handle.id(), canonical) == handle);
                    }
                }
            }
            i = i + 1;
        }
        proof {
            let target = relabel_zones(old_self@, zones_to_merge@);
            assert(self.wf()) by {
                assert(forall|a: int| #[trigger] self.key_at(a) == old_self.key_at(a));
            }
            assert forall|k: Seq<usize>|
                #![trigger self@.contains_key(k)]
                self@.contains_key(k) == target.contains_key(k) && (self@.contains_key(k)
                    ==> self@[k] == target[k]) by {
                assert(forall|a: int| #[trigger] self.key_at(a) == old_self.key_at(a));
                if old_self@.contains_key(k) {
                    let j = choose|j: int| 0 <= j < old_self.keys@.len() && old_self.key_at(j) == k;
                    old_self.lemma_view_at(j);
                    self.lemma_view_at(j);
                    assert(self.handle_at(j) == self.handles@[j]);
                } else {
                    if self@.contains_key(k) {
                        let j = choose|j: int| 0 <= j < self.keys@.len() && self.key_at(j) == k;
                        assert(old_self.key_at(j) == k);
                    }
                }
            }
            assert(self@ =~= target);
        }
    }

    /// Returns the handle of `full_region_key`. A key not seen before gets a new
    /// handle with the next identifier: its zone is a fresh one when no present key
    /// is adjacent to it, and otherwise the smallest zone among its present
    /// neighbours, into which all their zones are merged.
    pub fn get_or_insert(&mut self, full_region_key: &[usize]) -> (handle: RegionHandle)
        requires
            old(self).wf(),
            !old(self)@.contains_key(full_region_key@) ==> old(self).next_id() < usize::MAX,
            !old(self)@.contains_key(full_region_key@) && existing_neighbors(
                old(self)@.dom(),
                full_region_key@,
                full_region_key@.len(),
            ).len() == 0 ==> old(self).next_adjacent_zone_id() < usize::MAX,
        ensures
            final(self).wf(),
            old(self)@.contains_key(full_region_key@) ==> {
                &&& handle == old(self)@[full_region_key@]
                &&& final(self)@ == old(self)@
                &&& final(self).next_id() == old(self).next_id()
                &&& final(self).next_adjacent_zone_id() == old(self).next_adjacent_zone_id()
            },
            !old(self)@.contains_key(full_region_key@) ==> {
                let neighbors = existing_neighbors(
                    old(self)@.dom(),
                    full_region_key@,
                    full_region_key@.len(),
                );
                let zones = neighbors.map_values(
                    |n: Seq<usize>| old(self)@[n].adjacent_zone_id(),
                );
                &&& handle.id() == old(self).next_id()
                &&& final(self).next_id() == old(self).next_id() + 1
                &&& neighbors.len() == 0 ==> handle.adjacent_zone_id()
                    == old(self).next_adjacent_zone_id() && final(self).next_adjacent_zone_id()
                    == old(self).next_adjacent_zone_id() + 1
                &&& neighbors.len() > 0 ==> handle.adjacent_zone_id() == seq_min(zones)
                    && final(self).next_adjacent_zone_id() == old(self).next_adjacent_zone_id()
                    && zones.contains(seq_min(zones)) && forall|t: int|
                    0 <= t < zones.len() ==> seq_min(zones) <= #[trigger] zones[t]
                &&& final(self)@ == relabel_zones(old(self)@, zones).insert(
                    full_region_key@,
                    handle,
                )
                &&& final(self)@.dom() == old(self)@.dom().insert(full_region_key@)
                &&& final(self)@[full_region_key@] == handle
                &&& forall|k: Seq<usize>| #[trigger]
                    old(self)@.contains_key(k) ==> final(self)@[k].id() == old(self)@[k].id()
                        && final(self)@[k].adjacent_zone_id() == if zones.contains(
                        old(self)@[k].adjacent_zone_id(),
                    ) {
                        seq_min(zones)
                    } else {
                        old(self)@[k].adjacent_zone_id()
                    }
            },
            zones_consistent(old(self)@) ==> zones_consistent(final(self)@),
            ids_unique_below(old(self)@, old(self).next_id()) ==> ids_unique_below(
                final(self)@,
                final(self).next_id(),
            ),
            zones_below(old(self)@, old(self).next_adjacent_zone_id()) ==> zones_below(
                final(self)@,
                final(self).next_adjacent_zone_id(),
            ),
    {
        if let Some(handle) = self.get(full_region_key) {
            return handle;
        }
        let ghost old_map = self@;
        let neighbors = self.get_adjacent_full_keys(full_region_key);
        let ghost nbrs = existing_neighbors(old_map.dom(), full_region_key@, full_region_key@.len());
        let ghost zones = nbrs.map_values(|n: Seq<usize>| old_map[n].adjacent_zone_id());
        proof {
            lemma_existing_neighbors_present(old_map.dom(), full_region_key@, full_region_key@.len());
            assert(neighbors@.len() == nbrs.len());
            assert(forall|t: int| 0 <= t < nbrs.len() ==> #[trigger] neighbors@[t]@ == nbrs[t]);
        }
        let mut neighbor_zones: Vec<usize> = Vec::new();
        let mut j: usize = 0;
        while j < neighbors.len()
            invariant
                self.wf(),
                self@ == old_map,
                j <= neighbors@.len(),
                neighbors@.len() == nbrs.len(),
                forall|t: int| 0 <= t < nbrs.len() ==> #[trigger] neighbors@[t]@ == nbrs[t],
                forall|n: Seq<usize>| #[trigger] nbrs.contains(n) ==> old_map.dom().contains(n),
                zones == nbrs.map_values(|n: Seq<usize>| old_map[n].adjacent_zone_id()),
                neighbor_zones@ == zones.take(j as int),
            decreases neighbors@.len() - j,
        {
            assert(nbrs.contains(nbrs[j as int]));
            if let Some(h) = self.get(neighbors[j].as_slice()) {
                neighbor_zones.push(h.adjacent_zone_id());
            }
            assert(neighbor_zones@ =~= zones.take(j + 1));
            j = j + 1;
        }
        assert(neighbor_zones@ =~= zones);
        assert(self.wf());
        let ghost before = *self;
        let zone_id = if neighbor_zones.len() == 0 {
            let id = self.next_adjacent_zone_id;
            self.next_adjacent_zone_id = self.next_adjacent_zone_id + 1;
            proof {
                before.lemma_same_entries(self);
            }
            proof {
                lemma_relabel_identity(old_map, zones);
            }
            assert(self.wf());
            id
        } else {
            let canonical = min_zone(&neighbor_zones);
            if has_other_zone(&neighbor_zones, canonical) {
                self.merge_zones(neighbor_zones);
                assert(self.wf());
            } else {
                proof {
                    lemma_relabel_identity(old_map, zones);
                }
                assert(self.wf());
            }
            canonical
        };
        assert(self.wf());
        assert(self@ == relabel_zones(old_map, zones));
        let ghost before_id = *self;
        let handle = RegionHandle::new(self.next_id, zone_id);
        self.next_id = self.next_id + 1;
        proof {
            before_id.lemma_same_entries(self);
        }
        proof {
            if zones_consistent(old_map) {
                lemma_insert_keeps_zones_consistent(old_map, full_region_key@, handle);
            }
            let old_zone = before.next_adjacent_zone_id;
            law_merge_keeps_ids_and_zones(old_map, zones, before.next_id, old_zone);
            lemma_existing_neighbors_present(old_map.dom(), full_region_key@, full_region_key@.len());
            if zones.len() > 0 {
                law_seq_min(zones);
            }
            if zones_below(old_map, old_zone) {
                assert forall|t: int| 0 <= t < zones.len() implies zones[t] < old_zone by {
                    assert(nbrs.contains(nbrs[t]));
                }
            }
            let r = relabel_zones(old_map, zones);
            let fin = r.insert(full_region_key@, handle);
            if ids_unique_below(old_map, before.next_id) {
                assert forall|a: Seq<usize>, b: Seq<usize>|
                    #[trigger] fin.contains_key(a) && #[trigger] fin.contains_key(b) && a != b implies fin[a].id()
                        != fin[b].id() by {
                    if a != full_region_key@ && b != full_region_key@ {
                        assert(r.contains_key(a) && r.contains_key(b));
                    } else if a != full_region_key@ {
                        assert(r.contains_key(a));
                    } else {
                        assert(r.contains_key(b));
                    }
                }
                assert(ids_unique_below(fin, self.next_id));
            }
            if zones_below(old_map, old_zone) {
                assert(zones_below(fin, self.next_adjacent_zone_id));
            }
        }
        self.insert(slice_to_vec(full_region_key), handle);
        handle
    }

    /// Clears all handles and resets both counters to zero.
    pub fn reset(&mut self)
        ensures
            final(self).wf(),
            final(self)@ == Map::<Seq<usize>, RegionHandle>::empty(),
            final(self).next_id() == 0,
            final(self).next_adjacent_zone_id() == 0,
    {
        self.keys.clear();
        self.handles.clear();
        self.next_id = 0;
        self.next_adjacent_zone_id = 0;
        assert(self@ =~= Map::<Seq<usize>, RegionHandle>::empty());
    }

    /// Returns the identifier that the next new handle will get.
    #[verifier::when_used_as_spec(spec_next_id)]
    pub fn next_id(&self) -> (id: usize)
        ensures
            id == self.spec_next_id(),
    {
        self.next_id
    }

    /// Returns the zone identifier that the next new zone will get.
    #[verifier::when_used_as_spec(spec_next_adjacent_zone_id)]
    pub fn next_adjacent_zone_id(&self) -> (zone: usize)
        ensures
            zone == self.spec_next_adjacent_zone_id(),
    {
        self.next_adjacent_zone_id
    }
}

impl Default for RegionHandleDispenser {
    /// An empty dispenser with both counters at zero, as `new` makes.
    fn default() -> (dispenser: Self)
        ensures
            dispenser.wf(),
            dispenser@ == Map::<Seq<usize>, RegionHandle>::empty(),
            dispenser.next_id() == 0,
            dispenser.next_adjacent_zone_id() == 0,
    {
        Self::new()
    }
}

/// Every listed neighbour is present.
proof fn lemma_existing_neighbors_present(present: Set<Seq<usize>>, key: Seq<usize>, dims: nat)
    requires
        dims <= key.len(),
    ensures
        forall|n: Seq<usize>| #[trigger]
            existing_neighbors(present, key, dims).contains(n) ==> present.contains(n),
    decreases dims,
{
    if dims > 0 {
        lemma_existing_neighbors_present(present, key, (dims - 1) as nat);
        let prev = existing_neighbors(present, key, (dims - 1) as nat);
        let d = dims - 1;
        let below = key.update(d, (key[d] - 1) as usize);
        let above = key.update(d, (key[d] + 1) as usize);
        let low_part = if key[d] > 0 && present.contains(below) {
            seq![below]
        } else {
            seq![]
        };
        let high_part = if key[d] < usize::MAX && present.contains(above) {
            seq![above]
        } else {
            seq![]
        };
        let all = prev + low_part + high_part;
        assert(existing_neighbors(present, key, dims) == all);
        assert(forall|u: int| 0 <= u < low_part.len() ==> present.contains(#[trigger] low_part[u]));
        assert(forall|u: int| 0 <= u < high_part.len() ==> present.contains(#[trigger] high_part[u]));
        assert forall|n: Seq<usize>| #[trigger] all.contains(n) implies present.contains(n) by {
            let t = choose|t: int| 0 <= t < all.len() && all[t] == n;
            if t < prev.len() {
                assert(prev[t] == n);
                assert(prev.contains(n));
            } else if t < prev.len() + low_part.len() {
                assert(low_part[t - prev.len()] == n);
            } else {
                assert(high_part[t - prev.len() - low_part.len()] == n);
            }
        }
    }
}

/// A present key that differs from `key` by one step in one of the first `dims`
/// dimensions is listed among its neighbours.
proof fn lemma_neighbor_listed(
    present: Set<Seq<usize>>,
    key: Seq<usize>,
    n: Seq<usize>,
    i: int,
    dims: nat,
)
    requires
        dims <= key.len(),
        0 <= i < dims,
        n.len() == key.len(),
        n[i] == key[i] + 1 || key[i] == n[i] + 1,
        forall|j: int| 0 <= j < key.len() && j != i ==> key[j] == n[j],
        present.contains(n),
    ensures
        existing_neighbors(present, key, dims).contains(n),
    decreases dims,
{
    let prev = existing_neighbors(present, key, (dims - 1) as nat);
    let d = dims - 1;
    let below = key.update(d, (key[d] - 1) as usize);
    let above = key.update(d, (key[d] + 1) as usize);
    let low_part = if key[d] > 0 && present.contains(below) {
        seq![below]
    } else {
        seq![]
    };
    let high_part = if key[d] < usize::MAX && present.contains(above) {
        seq![above]
    } else {
        seq![]
    };
    assert(existing_neighbors(present, key, dims) == prev + low_part + high_part);
    if i == d {
        if n[i] == key[i] + 1 {
            assert(n =~= above);
            assert(high_part[0] == n);
            assert((prev + low_part + high_part)[(prev.len() + low_part.len()) as int] == n);
        } else {
            assert(n =~= below);
            assert((prev + low_part + high_part)[prev.len() as int] == n);
        }
    } else {
        lemma_neighbor_listed(present, key, n, i, (dims - 1) as nat);
        let t = choose|t: int| 0 <= t < prev.len() && prev[t] == n;
        assert((prev + low_part + high_part)[t] == n);
    }
}

/// Merging zones keeps every key and identifier, keeps neighbouring keys in
/// common zones, and keeps zone identifiers below a bound when the merged zones are
/// below it.
pub proof fn law_merge_keeps_ids_and_zones(
    map: Map<Seq<usize>, RegionHandle>,
    zones: Seq<usize>,
    next_id: usize,
    next_zone: usize,
)
    ensures
        relabel_zones(map, zones).dom() == map.dom(),
        forall|k: Seq<usize>| #[trigger]
            map.contains_key(k) ==> relabel_zones(map, zones)[k].id() == map[k].id(),
        forall|k: Seq<usize>| #[trigger]
            map.contains_key(k) ==> relabel_zones(map, zones)[k].adjacent_zone_id() == if zones.contains(
                map[k].adjacent_zone_id(),
            ) {
                seq_min(zones)
            } else {
                map[k].adjacent_zone_id()
            },
        (forall|t: int| 0 <= t < zones.len() ==> #[trigger] zones[t] == zones[0]) ==> relabel_zones(
            map,
            zones,
        ) == map,
        zones_consistent(map) ==> zones_consistent(relabel_zones(map, zones)),
        ids_unique_below(map, next_id) ==> ids_unique_below(relabel_zones(map, zones), next_id),
        zones_below(map, next_zone) && (forall|t: int|
            0 <= t < zones.len() ==> zones[t] < next_zone) ==> zones_below(
            relabel_zones(map, zones),
            next_zone,
        ),
{
    let r = relabel_zones(map, zones);
    assert(r.dom() =~= map.dom());
    if forall|t: int| 0 <= t < zones.len() ==> #[trigger] zones[t] == zones[0] {
        if zones.len() > 0 {
            law_seq_min(zones);
            let t = choose|t: int| 0 <= t < zones.len() && zones[t] == seq_min(zones);
            assert(zones[t] == zones[0]);
        }
        lemma_relabel_identity(map, zones);
    }
    assert forall|k: Seq<usize>| #[trigger] map.contains_key(k) implies r[k].id() == map[k].id() by {
        if zones.contains(map[k].adjacent_zone_id()) {
            assert(r[k] == RegionHandle::new(map[k].id(), seq_min(zones)));
        }
    }
    if zones.len() > 0 {
        law_seq_min(zones);
    }
    if zones_below(map, next_zone) && (forall|t: int| 0 <= t < zones.len() ==> zones[t] < next_zone) {
        assert forall|k: Seq<usize>| #[trigger] r.contains_key(k) implies r[k].adjacent_zone_id()
            < next_zone by {
            if zones.contains(map[k].adjacent_zone_id()) {
                assert(r[k] == RegionHandle::new(map[k].id(), seq_min(zones)));
            }
        }
    }
    if ids_unique_below(map, next_id) {
        assert forall|a: Seq<usize>, b: Seq<usize>|
            #[trigger] r.contains_key(a) && #[trigger] r.contains_key(b) && a != b implies r[a].id()
                != r[b].id() by {
            assert(map[a].id() != map[b].id());
        }
    }
}

/// Relabelling to the smallest of zones that are all equal changes nothing.
proof fn lemma_relabel_identity(map: Map<Seq<usize>, RegionHandle>, zones: Seq<usize>)
    requires
        forall|t: int| 0 <= t < zones.len() ==> zones[t] == seq_min(zones),
    ensures
        relabel_zones(map, zones) == map,
{
    assert forall|k: Seq<usize>| #[trigger] map.contains_key(k) implies relabel_zones(map, zones)[k]
        == map[k] by {
        let h = map[k];
        if zones.contains(h.adjacent_zone_id()) {
            let t = choose|t: int| 0 <= t < zones.len() && zones[t] == h.adjacent_zone_id();
            assert(RegionHandle::new(h.id(), seq_min(zones)) == h);
        }
    }
    assert(relabel_zones(map, zones) =~= map);
}

/// The smallest element lies in the sequence and is below all the others.
pub proof fn law_seq_min(zones: Seq<usize>)
    requires
        zones.len() > 0,
    ensures
        zones.contains(seq_min(zones)),
        forall|t: int| 0 <= t < zones.len() ==> seq_min(zones) <= zones[t],
    decreases zones.len(),
{
    if zones.len() > 1 {
        law_seq_min(zones.drop_last());
        let rest = zones.drop_last();
        let t = choose|t: int| 0 <= t < rest.len() && rest[t] == seq_min(rest);
        assert(zones[t] == seq_min(rest));
        assert forall|u: int| 0 <= u < zones.len() implies seq_min(zones) <= zones[u] by {
            if u < rest.len() {
                assert(zones[u] == rest[u]);
            }
        }
    } else {
        assert(zones[0] == seq_min(zones));
    }
}

/// Axis neighbourhood is symmetric.
proof fn lemma_axis_neighbors_symmetric(a: Seq<usize>, b: Seq<usize>)
    requires
        axis_neighbors(a, b),
    ensures
        axis_neighbors(b, a),
{
    let i = choose|i: int|
        0 <= i < a.len() && (b[i] == a[i] + 1 || a[i] == b[i] + 1) && forall|j: int|
            0 <= j < a.len() && j != i ==> a[j] == b[j];
    assert(0 <= i < b.len() && (a[i] == b[i] + 1 || b[i] == a[i] + 1) && forall|j: int|
        0 <= j < b.len() && j != i ==> b[j] == a[j]);
}

/// Adding a key whose zone is the smallest zone among its present neighbours, after
/// merging all those zones into it (or a fresh zone when it has none), keeps
/// neighbouring keys in common zones.
proof fn lemma_insert_keeps_zones_consistent(
    map: Map<Seq<usize>, RegionHandle>,
    key: Seq<usize>,
    handle: RegionHandle,
)
    requires
        zones_consistent(map),
        !map.contains_key(key),
        existing_neighbors(map.dom(), key, key.len()).len() > 0 ==> handle.adjacent_zone_id()
            == seq_min(
            existing_neighbors(map.dom(), key, key.len()).map_values(
                |n: Seq<usize>| map[n].adjacent_zone_id(),
            ),
        ),
    ensures
        zones_consistent(
            relabel_zones(
                map,
                existing_neighbors(map.dom(), key, key.len()).map_values(
                    |n: Seq<usize>| map[n].adjacent_zone_id(),
                ),
            ).insert(key, handle),
        ),
{
    let nbrs = existing_neighbors(map.dom(), key, key.len());
    let zones = nbrs.map_values(|n: Seq<usize>| map[n].adjacent_zone_id());
    let relabelled = relabel_zones(map, zones);
    let result = relabelled.insert(key, handle);
    assert forall|a: Seq<usize>, b: Seq<usize>|
        #[trigger] axis_neighbors(a, b) && result.contains_key(a) && result.contains_key(
            b,
        ) implies result[a].adjacent_zone_id() == result[b].adjacent_zone_id() by {
        if a == key && b == key {
            let i = choose|i: int|
                0 <= i < a.len() && (b[i] == a[i] + 1 || a[i] == b[i] + 1) && forall|j: int|
                    0 <= j < a.len() && j != i ==> a[j] == b[j];
        } else if a == key || b == key {
            let other = if a == key {
                b
            } else {
                a
            };
            if b == key {
                lemma_axis_neighbors_symmetric(a, b);
            }
            assert(axis_neighbors(key, other));
            let i = choose|i: int|
                0 <= i < key.len() && (other[i] == key[i] + 1 || key[i] == other[i] + 1)
                    && forall|j: int| 0 <= j < key.len() && j != i ==> key[j] == other[j];
            lemma_neighbor_listed(map.dom(), key, other, i, key.len());
            let t = choose|t: int| 0 <= t < nbrs.len() && nbrs[t] == other;
            assert(zones[t] == map[other].adjacent_zone_id());
            assert(zones.contains(map[other].adjacent_zone_id()));
            assert(relabelled[other] == RegionHandle::new(map[other].id(), seq_min(zones)));
        } else {
            assert(map[a].adjacent_zone_id() == map[b].adjacent_zone_id());
        }
    }
}

/// The smallest of a non-empty list of zones.
fn min_zone(zones: &Vec<usize>) -> (smallest: usize)
    requires
        zones@.len() > 0,
    ensures
        smallest == seq_min(zones@),
        zones@.contains(smallest),
        forall|t: int| 0 <= t < zones@.len() ==> smallest <= zones@[t],
{
    let mut smallest = zones[0];
    let mut i: usize = 1;
    while i < zones.len()
        invariant
            1 <= i <= zones@.len(),
            smallest == seq_min(zones@.take(i as int)),
        decreases zones@.len() - i,
    {
        assert(zones@.take(i + 1).drop_last() =~= zones@.take(i as int));
        if zones[i] < smallest {
            smallest = zones[i];
        }
        i = i + 1;
    }
    assert(zones@.take(i as int) =~= zones@);
    proof {
        law_seq_min(zones@);
    }
    smallest
}

/// True when some zone in the list differs from `zone`.
fn has_other_zone(zones: &Vec<usize>, zone: usize) -> (other: bool)
    ensures
        other == exists|t: int| 0 <= t < zones@.len() && zones@[t] != zone,
{
    let mut i: usize = 0;
    while i < zones.len()
        invariant
            i <= zones@.len(),
            forall|t: int| 0 <= t < i ==> zones@[t] == zone,
        decreases zones@.len() - i,
    {
        if zones[i] != zone {
            return true;
        }
        i = i + 1;
    }
    false
}

/// True when `zone` occurs in the list.
fn zone_listed(zones: &Vec<usize>, zone: usize) -> (listed: bool)
    ensures
        listed == zones@.contains(zone),
{
    let mut i: usize = 0;
    while i < zones.len()
        invariant
            i <= zones@.len(),
            forall|t: int| 0 <= t < i ==> zones@[t] != zone,
        decreases zones@.len() - i,
    {
        if zones[i] == zone {
            return true;
        }
        i = i + 1;
    }
    false
}

/// Compares two keys element by element.
fn same_key(a: &[usize], b: &[usize]) -> (same: bool)
    ensures
        same == (a@ == b@),
{
    if a.len() != b.len() {
        return false;
    }
    let mut i: usize = 0;
    while i < a.len()
        invariant
            a@.len() == b@.len(),
            i <= a@.len(),
            forall|j: int| 0 <= j < i ==> a@[j] == b@[j],
        decreases a@.len() - i,
    {
        if a[i] != b[i] {
            return false;
        }
        i = i + 1;
    }
    assert(a@ =~= b@);
    true
}

} // verus!
