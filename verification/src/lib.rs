//! Spatial bookkeeping for a genetic-algorithm optimiser: region keys with
//! incrementally maintained hashes, compact region handles grouped into
//! adjacency zones, zone calculation over region keys, a zone cache, the
//! per-region seed derivation, and the rules by which a region culls, pairs and
//! reproduces its ranked organisms.
pub mod world;
