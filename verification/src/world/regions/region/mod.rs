pub mod pair_organisms_for_reproduction;
pub mod region_key;
pub mod reproduce;
pub mod process_region;
