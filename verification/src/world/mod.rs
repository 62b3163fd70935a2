pub mod regions;
pub mod remove_dead;
