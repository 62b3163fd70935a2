# hill_descent_lib

Spatial bookkeeping for a genetic-algorithm optimiser that divides the search
space into regions, written in Verus. The library's functions are proved against
their contracts, apart from four small trusted wrappers around outside calls
(`xxh3_64`, `Arc::make_mut`, `Arc::clone`, `Hasher::write_u64`).

- `src/world/regions/region/region_key.rs`: region keys with an incrementally
  maintained hash; equality, ordering and hashing go by the hash.
- `src/world/regions/region_handle_dispenser.rs`: compact handles for regions,
  grouped into zones of axis-adjacent regions.
- `src/world/regions/zone_calculator/`: zones of Chebyshev-adjacent regions by
  union-find with a spatial index, and a generation-checked zone cache.
- `src/world/regions/derive_region_seed.rs`: per-region seeds from XXH3-64.
- `src/world/regions/truncate_regions.rs`, `region/reproduce.rs`,
  `region/pair_organisms_for_reproduction.rs`, `region/process_region.rs`: the
  culling, reproduction-pass, pairing and lifecycle rules over ranked organisms,
  given by their ages and positions.
- `src/world/remove_dead.rs` and `src/world/regions/adjust_regions.rs`: the
  removal of dead organisms and empty regions, and the outcome of adjusting the
  regions.
- `src/world/regions/update_carrying_capacities.rs`: the equal split of the
  population among regions of unbounded fitness.
- `app/`: the floating-point parts (function traits, capacity allocation).
- `tests/`: executable tests of the library.
