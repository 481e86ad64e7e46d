pub mod keys;
pub mod flat_map;
pub mod cell;
pub mod state_dict;
pub mod from_map;
pub mod dataset;
pub mod conv;
pub mod layers;
pub mod order;
