pub mod hl;
pub mod point;
