pub mod climb;
pub mod directions;
pub mod laws;
pub mod params;
pub mod results;
pub mod rng;
pub mod score;
pub mod settings;
pub mod summing;
