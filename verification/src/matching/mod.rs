pub mod normalize;
pub mod exact;
pub mod score;
pub mod fuzzy;
pub mod page_scope;
pub mod pipeline;
