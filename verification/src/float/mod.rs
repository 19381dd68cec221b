pub mod arithmetic;
pub mod double;
pub mod exact;
pub mod format;
pub mod laws;
pub mod numbers;
pub mod root;
pub mod rounding;
pub mod series;
pub mod single;
pub mod whole;
