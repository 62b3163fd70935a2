use vstd::prelude::*;

verus! {

/// Cache for zone calculations, so that zones are not recalculated while the
/// regions have not changed structurally.
///
/// The cache records the generation it was filled for; it is valid for a
/// generation exactly when it holds zones filled for that generation.
#[derive(Debug, Clone)]
pub struct ZoneCache {
    cached_zones: Option<Vec<Vec<Vec<usize>>>>,
    cache_generation: u64,
    regions_generation: u64,
}

impl ZoneCache {
    /// The cached zones, if any.
    pub closed spec fn cached(&self) -> Option<Seq<Seq<Seq<usize>>>> {
        match self.cached_zones {
            Some(zones) => Some(zones.deep_view()),
            None => None,
        }
    }

    /// The generation the cached zones were filled for.
    pub closed spec fn cache_gen(&self) -> u64 {
        self.cache_generation
    }

    /// The generation of the last structural change of the regions.
    pub closed spec fn regions_gen(&self) -> u64 {
        self.regions_generation
    }

    /// The cache is valid for `generation` when it holds zones filled for it.
    pub open spec fn spec_is_valid(&self, generation: u64) -> bool {
        self.cached() is Some && self.cache_gen() == generation
    }

    /// The zones that `get_zones` hands out for `generation`.
    pub open spec fn spec_get_zones(&self, generation: u64) -> Option<Seq<Seq<Seq<usize>>>> {
        if self.spec_is_valid(generation) {
            self.cached()
        } else {
            None
        }
    }

    /// Cached zones were never filled for a generation beyond the current one.
    pub open spec fn gens_ordered(&self) -> bool {
        self.cached() is Some ==> self.cache_gen() <= self.regions_gen()
    }

    /// Creates an empty cache with both generations at zero.
    pub fn new() -> (cache: Self)
        ensures
            cache.cached() is None,
            cache.cache_gen() == 0,
            cache.regions_gen() == 0,
            cache.gens_ordered(),
    {
        Self { cached_zones: None, cache_generation: 0, regions_generation: 0 }
    }

    /// Returns true if the cached zones can be used for `current_regions_generation`.
    pub fn is_valid(&self, current_regions_generation: u64) -> (valid: bool)
        ensures
            valid == self.spec_is_valid(current_regions_generation),
    {
        self.cached_zones.is_some() && self.cache_generation == current_regions_generation
    }

    /// Returns the cached zones if they are valid for `current_regions_generation`.
    pub fn get_zones(&self, current_regions_generation: u64) -> (zones: Option<&Vec<Vec<Vec<usize>>>>)
        ensures
            match zones {
                Some(z) => self.spec_get_zones(current_regions_generation) == Some(z.deep_view()),
                None => self.spec_get_zones(current_regions_generation) is None,
            },
    {
        if self.is_valid(current_regions_generation) {
            self.cached_zones.as_ref()
        } else {
            None
        }
    }

    /// Stores newly calculated zones for `current_regions_generation`, which also
    /// becomes the regions generation.
    pub fn update_cache(&mut self, zones: Vec<Vec<Vec<usize>>>, current_regions_generation: u64)
        ensures
            final(self).cached() == Some(zones.deep_view()),
            final(self).cache_gen() == current_regions_generation,
            final(self).regions_gen() == current_regions_generation,
            final(self).gens_ordered(),
    {
        self.cached_zones = Some(zones);
        self.cache_generation = current_regions_generation;
        self.regions_generation = current_regions_generation;
    }

    /// Drops the cached zones, forcing a recalculation on the next access; the
    /// regions generation is kept.
    pub fn invalidate(&mut self)
        ensures
            final(self).cached() is None,
            final(self).cache_gen() == 0,
            final(self).regions_gen() == old(self).regions_gen(),
            final(self).gens_ordered(),
    {
        self.cached_zones = None;
        self.cache_generation = 0;
    }

    /// Records a structural change of the regions and returns the new regions
    /// generation; zones cached before the change are then no longer valid for it.
    pub fn mark_regions_changed(&mut self) -> (generation: u64)
        requires
            old(self).regions_gen() < u64::MAX,
        ensures
            generation == old(self).regions_gen() + 1,
            final(self).regions_gen() == generation,
            final(self).cached() == old(self).cached(),
            final(self).cache_gen() == old(self).cache_gen(),
            old(self).gens_ordered() ==> final(self).gens_ordered(),
            old(self).gens_ordered() ==> !final(self).spec_is_valid(generation),
    {
        self.regions_generation = self.regions_generation + 1;
        self.regions_generation
    }

    /// Returns the generation of the last structural change of the regions.
    pub fn current_regions_generation(&self) -> (generation: u64)
        ensures
            generation == self.regions_gen(),
    {
        self.regions_generation
    }

    /// Returns `(cache generation, regions generation, whether zones are cached)`.
    pub fn cache_stats(&self) -> (stats: (u64, u64, bool))
        ensures
            stats == (self.cache_gen(), self.regions_gen(), self.cached() is Some),
    {
        (self.cache_generation, self.regions_generation, self.cached_zones.is_some())
    }

    /// Drops the cached zones and resets both generations to zero.
    pub fn clear(&mut self)
        ensures
            final(self).cached() is None,
            final(self).cache_gen() == 0,
            final(self).regions_gen() == 0,
            final(self).gens_ordered(),
    {
        self.cached_zones = None;
        self.cache_generation = 0;
        self.regions_generation = 0;
    }
}

/// Zones stored for a generation are handed back for exactly that generation.
pub proof fn law_read_after_update(cache: ZoneCache, zones: Seq<Seq<Seq<usize>>>, generation: u64, other: u64)
    requires
        cache.cached() == Some(zones),
        cache.cache_gen() == generation,
    ensures
        cache.spec_get_zones(generation) == Some(zones),
        other != generation ==> cache.spec_get_zones(other) is None,
{
}

/// A cache that holds no zones hands out nothing, whatever the generation.
pub proof fn law_empty_cache_hands_out_nothing(cache: ZoneCache, generation: u64)
    requires
        cache.cached() is None,
    ensures
        !cache.spec_is_valid(generation),
        cache.spec_get_zones(generation) is None,
{
}

impl Default for ZoneCache {
    fn default() -> (cache: Self)
        ensures
            cache.cached() is None,
            cache.cache_gen() == 0,
            cache.regions_gen() == 0,
    {
        Self::new()
    }
}

} // verus!
