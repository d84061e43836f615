pub mod generate;
pub mod scan;
pub mod insert;
