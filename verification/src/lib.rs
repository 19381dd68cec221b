pub mod compare;
pub mod float;
pub mod scan;
pub mod table;
pub mod text;
pub mod vardiff;
