pub mod bounds;
pub mod line_merger;
pub mod line_segment;
pub mod point;
pub mod polyline;
