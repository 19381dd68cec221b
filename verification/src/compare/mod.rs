pub mod cells;
pub mod directions;
pub mod guards;
pub mod judging;
pub mod laws;
pub mod reading;
pub mod report;
pub mod rows;
pub mod score;
