pub mod dense;
pub mod sparse;
pub mod table;
pub mod ordered;
