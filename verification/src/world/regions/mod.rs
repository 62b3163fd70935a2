pub mod adjust_regions;
pub mod derive_region_seed;
pub mod region;
pub mod region_handle_dispenser;
pub mod truncate_regions;
pub mod update_carrying_capacities;
pub mod zone_calculator;
